use vstd::prelude::*;

use crate::route::{components, split_path, texts, views, PathSegment, SegmentView};
use crate::table::{handler, has_node, resolve, walk, Table};

verus! {

/// The position of `s` in `keys`, or -1 where it does not occur.
pub open spec fn index_in<A>(keys: Seq<A>, s: A) -> int {
    if keys.contains(s) {
        choose|i: int| 0 <= i < keys.len() && keys[i] == s
    } else {
        -1
    }
}

/// In a sequence without duplicates, the position of each element is the one
/// at which it stands.
pub proof fn lemma_index_in<A>(keys: Seq<A>, i: int)
    requires
        keys.no_duplicates(),
        0 <= i < keys.len(),
    ensures
        index_in(keys, keys[i]) == i,
{
    assert(keys.contains(keys[i]));
}

/// A node of the routing trie. It owns its children, each under the segment
/// that leads to it.
#[derive(Debug)]
pub struct RouteNode<H> {
    /// The handler of the route that ends here, if one does.
    pub route: Option<H>,
    /// The children, at most one per distinct segment.
    pub children: Vec<(PathSegment, RouteNode<H>)>,
}

impl<H> RouteNode<H> {
    /// The segments under which the children stand, in order.
    pub open spec fn keys(self) -> Seq<SegmentView> {
        self.children@.map_values(|c: (PathSegment, RouteNode<H>)| c.0@)
    }

    /// The position of the child under `s`, or -1 where there is none.
    pub open spec fn child_index(self, s: SegmentView) -> int {
        index_in(self.keys(), s)
    }

    /// The node reached from this one by following `pattern` exactly.
    pub open spec fn subtree(self, pattern: Seq<SegmentView>) -> Option<RouteNode<H>>
        decreases pattern.len(),
    {
        if pattern.len() == 0 {
            Some(self)
        } else {
            let i = self.child_index(pattern[0]);
            if 0 <= i < self.children@.len() {
                self.children@[i].1.subtree(pattern.drop_first())
            } else {
                None
            }
        }
    }

    /// The handler registered for `pattern`, relative to this node.
    pub open spec fn lookup(self, pattern: Seq<SegmentView>) -> Option<H> {
        match self.subtree(pattern) {
            Some(n) => n.route,
            None => None,
        }
    }

    /// A node that some route passes through or ends at.
    pub open spec fn live(self) -> bool {
        self.route is Some || self.children@.len() > 0
    }

    /// Child segments are distinct, and every child is live and well formed.
    pub open spec fn wf(self) -> bool
        decreases self,
    {
        &&& self.keys().no_duplicates()
        &&& forall|i: int|
            0 <= i < self.children@.len() ==> {
                &&& (#[trigger] self.children@[i]).1.live()
                &&& self.children@[i].1.wf()
            }
    }

    /// A node with no handler and no children.
    pub fn new() -> (n: Self)
        ensures
            n.route is None,
            n.children@.len() == 0,
            n.wf(),
            forall|p: Seq<SegmentView>| n.lookup(p) is None,
    {
        let n = RouteNode { route: None, children: Vec::new() };
        assert forall|p: Seq<SegmentView>| n.lookup(p) is None by {
            if p.len() > 0 {
                assert(!n.keys().contains(p[0]));
            }
        }
        n
    }
}


impl<H> RouteNode<H> {
    /// The position of the child under `segment`.
    fn position(&self, segment: &PathSegment) -> (r: Option<usize>)
        requires
            self.keys().no_duplicates(),
        ensures
            match r {
                Some(i) => i < self.children@.len() && self.child_index(segment@) == i,
                None => self.child_index(segment@) == -1,
            },
    {
        let mut i: usize = 0;
        while i < self.children.len()
            invariant
                i <= self.children@.len(),
                self.keys().no_duplicates(),
                forall|j: int| 0 <= j < i ==> self.keys()[j] != segment@,
            decreases self.children@.len() - i,
        {
            if self.children[i].0.eq(segment) {
                assert(self.keys()[i as int] == segment@);
                proof {
                    lemma_index_in(self.keys(), i as int);
                }
                return Some(i);
            }
            i = i + 1;
        }
        assert(!self.keys().contains(segment@));
        None
    }

    /// The child under the literal segment `text`.
    fn static_child(&self, text: &String) -> (r: Option<&RouteNode<H>>)
        requires
            self.keys().no_duplicates(),
        ensures
            match r {
                Some(c) => self.subtree(seq![SegmentView::Static(text@)]) == Some(*c),
                None => self.subtree(seq![SegmentView::Static(text@)]) is None,
            },
    {
        let ghost s = SegmentView::Static(text@);
        let mut i: usize = 0;
        while i < self.children.len()
            invariant
                i <= self.children@.len(),
                self.keys().no_duplicates(),
                s == SegmentView::Static(text@),
                forall|j: int| 0 <= j < i ==> self.keys()[j] != s,
            decreases self.children@.len() - i,
        {
            let segment = &self.children[i].0;
            if let PathSegment::Static(name) = segment {
                assert(segment@ == SegmentView::Static(name@));
                if name.eq(text) {
                    assert(self.children@[i as int].0@ == s);
                    assert(self.keys()[i as int] == s);
                    proof {
                        lemma_index_in(self.keys(), i as int);
                    }
                    assert(self.children@[i as int].1.subtree(seq![]) == Some(self.children@[i as int].1));
                    assert(seq![s].drop_first() == Seq::<SegmentView>::empty());
                    return Some(&self.children[i].1);
                }
            }
            i = i + 1;
        }
        assert(!self.keys().contains(s));
        None
    }

    /// The child under the dynamic segment.
    fn dynamic_child(&self) -> (r: Option<&RouteNode<H>>)
        requires
            self.keys().no_duplicates(),
        ensures
            match r {
                Some(c) => self.subtree(seq![SegmentView::Dynamic]) == Some(*c),
                None => self.subtree(seq![SegmentView::Dynamic]) is None,
            },
    {
        let mut i: usize = 0;
        while i < self.children.len()
            invariant
                i <= self.children@.len(),
                self.keys().no_duplicates(),
                forall|j: int| 0 <= j < i ==> self.keys()[j] != SegmentView::Dynamic,
            decreases self.children@.len() - i,
        {
            if let PathSegment::Dynamic = &self.children[i].0 {
                assert(self.keys()[i as int] == SegmentView::Dynamic);
                proof {
                    lemma_index_in(self.keys(), i as int);
                }
                assert(self.children@[i as int].1.subtree(seq![]) == Some(self.children@[i as int].1));
                assert(seq![SegmentView::Dynamic].drop_first() == Seq::<SegmentView>::empty());
                return Some(&self.children[i].1);
            }
            i = i + 1;
        }
        assert(!self.keys().contains(SegmentView::Dynamic));
        None
    }

    /// Stores `route` at the end of `pattern[from..]`, creating the nodes on
    /// the way that do not exist yet.
    fn insert(&mut self, pattern: &Vec<PathSegment>, from: usize, route: H)
        requires
            old(self).wf(),
            from <= pattern@.len(),
        ensures
            final(self).wf(),
            final(self).live(),
            forall|p: Seq<SegmentView>|
                #[trigger] final(self).lookup(p) == if p == views(pattern@).skip(from as int) {
                    Some(route)
                } else {
                    old(self).lookup(p)
                },
        decreases pattern@.len() - from,
    {
        let ghost target = views(pattern@).skip(from as int);
        if from == pattern.len() {
            self.route = Some(route);
            assert(target.len() == 0);
            assert(self.keys() == old(self).keys());
            assert forall|p: Seq<SegmentView>|
                #[trigger] self.lookup(p) == if p == target {
                    Some(route)
                } else {
                    old(self).lookup(p)
                } by {
                if p.len() == 0 {
                    assert(p == target);
                }
            }
        } else {
            let segment = &pattern[from];
            assert(target[0] == segment@);
            let ghost mut fresh = false;
            let i = match self.position(segment) {
                Some(i) => i,
                None => {
                    let ghost keys_before = self.keys();
                    self.children.push((segment.clone(), RouteNode::new()));
                    assert(self.keys() == keys_before.push(segment@));
                    proof {
                        fresh = true;
                        assert forall|s: SegmentView| s != segment@ implies
                            #[trigger] self.child_index(s) == old(self).child_index(s) by {
                            if keys_before.contains(s) {
                                let j = choose|j: int| 0 <= j < keys_before.len() && keys_before[j] == s;
                                assert(self.keys()[j] == s);
                                lemma_index_in(keys_before, j);
                                lemma_index_in(self.keys(), j);
                            }
                        }
                        lemma_index_in(self.keys(), self.children@.len() - 1);
                    }
                    self.children.len() - 1
                },
            };
            let ghost mid = *self;
            assert(mid.child_index(segment@) == i);
            assert(fresh ==> old(self).child_index(segment@) == -1);
            assert(!fresh ==> mid == *old(self));
            assert(forall|j: int| 0 <= j < mid.children@.len() && j != i ==> mid.children@[j] == old(self).children@[j]);
            assert(forall|s: SegmentView| s != segment@ ==> #[trigger] mid.child_index(s) == old(self).child_index(s));
            self.children[i].1.insert(pattern, from + 1, route);
            assert(self.keys() =~= mid.keys());
            assert(target.drop_first() == views(pattern@).skip(from + 1));
            assert forall|p: Seq<SegmentView>|
                #[trigger] self.lookup(p) == if p == target {
                    Some(route)
                } else {
                    old(self).lookup(p)
                } by {
                if p.len() > 0 {
                    let c = p[0];
                    let rest = p.drop_first();
                    if c == segment@ {
                        assert(self.child_index(c) == i);
                        assert(self.lookup(p) == self.children@[i as int].1.lookup(rest));
                        if rest == target.drop_first() {
                            assert(p.len() == target.len());
                            assert forall|k: int| 0 <= k < p.len() implies p[k] == target[k] by {
                                if k > 0 {
                                    assert(p[k] == rest[k - 1]);
                                    assert(target[k] == target.drop_first()[k - 1]);
                                }
                            }
                            assert(p =~= target);
                        } else {
                            assert(p != target);
                            if fresh {
                                assert(old(self).lookup(p) is None);
                            } else {
                                assert(old(self).lookup(p) == mid.children@[i as int].1.lookup(rest));
                            }
                        }
                    } else {
                        assert(p != target);
                        let j = self.child_index(c);
                        assert(mid.child_index(c) == old(self).child_index(c));
                        assert(j == mid.child_index(c));
                        if 0 <= j < self.children@.len() {
                            assert(self.keys()[j] == c) by {
                                assert(self.keys().contains(c));
                            }
                            assert(j != i);
                            assert(self.children@[j] == old(self).children@[j]);
                        }
                    }
                } else {
                    assert(p != target);
                }
            }
        }
    }
}


impl<H> RouteNode<H> {
    /// Following `q + r` is following `q`, then `r`.
    pub proof fn lemma_subtree_concat(self, q: Seq<SegmentView>, r: Seq<SegmentView>)
        ensures
            self.subtree(q + r) == match self.subtree(q) {
                Some(m) => m.subtree(r),
                None => None,
            },
        decreases q.len(),
    {
        if q.len() == 0 {
            assert(q + r =~= r);
        } else {
            assert((q + r)[0] == q[0]);
            assert((q + r).drop_first() =~= q.drop_first() + r);
            let i = self.child_index(q[0]);
            if 0 <= i < self.children@.len() {
                self.children@[i].1.lemma_subtree_concat(q.drop_first(), r);
            }
        }
    }

    /// Every node below a well-formed node is well formed and live.
    pub proof fn lemma_subtree_wf(self, q: Seq<SegmentView>)
        requires
            self.wf(),
        ensures
            self.subtree(q) matches Some(m) ==> m.wf() && (q.len() > 0 ==> m.live()),
        decreases q.len(),
    {
        if q.len() > 0 {
            let i = self.child_index(q[0]);
            if 0 <= i < self.children@.len() {
                self.children@[i].1.lemma_subtree_wf(q.drop_first());
                if q.drop_first().len() == 0 {
                    assert(self.children@[i].1.subtree(q.drop_first()) == Some(self.children@[i].1));
                }
            }
        }
    }

    /// A live, well-formed node leads to at least one handler.
    pub proof fn lemma_reaches_route(self) -> (pattern: Seq<SegmentView>)
        requires
            self.wf(),
            self.live(),
        ensures
            self.lookup(pattern) is Some,
        decreases self,
    {
        if self.route is Some {
            Seq::empty()
        } else {
            let child = self.children@[0].1;
            assert(decreases_to!(self => child)) by {
                assert(decreases_to!(self => self.children));
                assert(decreases_to!(self.children => self.children@[0]));
            };
            let rest = child.lemma_reaches_route();
            let pattern = seq![self.keys()[0]] + rest;
            lemma_index_in(self.keys(), 0);
            assert(pattern[0] == self.keys()[0]);
            assert(pattern.drop_first() =~= rest);
            pattern
        }
    }

    /// The nodes below a live, well-formed node are exactly the prefixes of
    /// the patterns that lead to a handler.
    pub proof fn lemma_node_iff(self, q: Seq<SegmentView>)
        requires
            self.wf(),
            self.live(),
        ensures
            self.subtree(q) is Some <==> exists|pattern: Seq<SegmentView>|
                #[trigger] self.lookup(pattern) is Some && q.is_prefix_of(pattern),
    {
        if self.subtree(q) is Some {
            let m = self.subtree(q)->Some_0;
            self.lemma_subtree_wf(q);
            if q.len() == 0 {
                assert(m == self);
            }
            let rest = m.lemma_reaches_route();
            self.lemma_subtree_concat(q, rest);
            assert(q.is_prefix_of(q + rest)) by {
                assert((q + rest).subrange(0, q.len() as int) =~= q);
            }
            assert(self.lookup(q + rest) is Some);
        }
        if exists|pattern: Seq<SegmentView>| #[trigger] self.lookup(pattern) is Some && q.is_prefix_of(pattern) {
            let pattern = choose|pattern: Seq<SegmentView>| #[trigger] self.lookup(pattern) is Some && q.is_prefix_of(pattern);
            let rest = pattern.subrange(q.len() as int, pattern.len() as int);
            assert(q + rest =~= pattern);
            self.lemma_subtree_concat(q, rest);
        }
    }
}


/// The dispatch prefixes of `routes`, in order.
pub open spec fn prefixes_of<H>(routes: Seq<(String, RouteNode<H>)>) -> Seq<Seq<char>> {
    routes.map_values(|e: (String, RouteNode<H>)| e.0@)
}

/// The route table: one trie per dispatch prefix (for HTTP, the method).
///
/// Routes are added with [`Router::register`] and looked up with
/// [`Router::find`]. Once built, a router is only read.
pub struct Router<H> {
    routes: Vec<(String, RouteNode<H>)>,
}

impl<H> Router<H> {
    /// The root of the trie for `prefix`, if any route was registered under it.
    pub closed spec fn root(self, prefix: Seq<char>) -> Option<RouteNode<H>> {
        let i = index_in(prefixes_of(self.routes@), prefix);
        if 0 <= i < self.routes@.len() {
            Some(self.routes@[i].1)
        } else {
            None
        }
    }

    /// The handler registered for exactly `pattern` under `prefix`.
    pub closed spec fn handler_at(self, prefix: Seq<char>, pattern: Seq<SegmentView>) -> Option<H> {
        match self.root(prefix) {
            Some(n) => n.lookup(pattern),
            None => None,
        }
    }

    /// Prefixes are distinct, and every root is well formed and live.
    #[verifier::type_invariant]
    spec fn wf(self) -> bool {
        &&& prefixes_of(self.routes@).no_duplicates()
        &&& forall|i: int|
            0 <= i < self.routes@.len() ==> {
                &&& (#[trigger] self.routes@[i]).1.wf()
                &&& self.routes@[i].1.live()
            }
    }
}

impl<H> View for Router<H> {
    type V = Table<H>;

    closed spec fn view(&self) -> Table<H> {
        Map::new(
            |k: (Seq<char>, Seq<SegmentView>)| self.handler_at(k.0, k.1) is Some,
            |k: (Seq<char>, Seq<SegmentView>)| self.handler_at(k.0, k.1)->Some_0,
        )
    }
}

impl<H> Router<H> {
    /// A router with no routes.
    pub fn new() -> (r: Self)
        ensures
            r@ == Table::<H>::empty(),
    {
        let r = Router { routes: Vec::new() };
        assert(r@ =~= Table::<H>::empty());
        r
    }

    /// The position of the trie for `prefix` in `routes`.
    fn root_position(routes: &Vec<(String, RouteNode<H>)>, prefix: &String) -> (r: Option<usize>)
        requires
            prefixes_of(routes@).no_duplicates(),
        ensures
            match r {
                Some(i) => i < routes@.len() && index_in(prefixes_of(routes@), prefix@) == i,
                None => index_in(prefixes_of(routes@), prefix@) == -1,
            },
    {
        let mut i: usize = 0;
        while i < routes.len()
            invariant
                i <= routes@.len(),
                prefixes_of(routes@).no_duplicates(),
                forall|j: int| 0 <= j < i ==> prefixes_of(routes@)[j] != prefix@,
            decreases routes@.len() - i,
        {
            if routes[i].0.eq(prefix) {
                assert(prefixes_of(routes@)[i as int] == prefix@);
                proof {
                    lemma_index_in(prefixes_of(routes@), i as int);
                }
                return Some(i);
            }
            i = i + 1;
        }
        assert(!prefixes_of(routes@).contains(prefix@));
        None
    }

    /// Whether the trie has a node at `at` under `prefix`, in terms of the
    /// roots and their subtrees.
    proof fn lemma_has_node(self, prefix: Seq<char>, at: Seq<SegmentView>)
        requires
            self.wf(),
        ensures
            has_node(self@, prefix, at) <==> (self.root(prefix) matches Some(n) && n.subtree(at) is Some),
            forall|q: Seq<SegmentView>| #[trigger] handler(self@, prefix, q) == self.handler_at(prefix, q),
            self.root(prefix) matches Some(n) ==> n.wf() && n.live(),
    {
        assert forall|q: Seq<SegmentView>| #[trigger] handler(self@, prefix, q) == self.handler_at(prefix, q) by {
            assert(self@.contains_key((prefix, q)) == (self.handler_at(prefix, q) is Some));
        }
        let i = index_in(prefixes_of(self.routes@), prefix);
        if 0 <= i < self.routes@.len() {
            let n = self.routes@[i].1;
            assert(n.wf() && n.live());
            n.lemma_node_iff(at);
            if has_node(self@, prefix, at) {
                let pattern = choose|pattern: Seq<SegmentView>|
                    #[trigger] self@.contains_key((prefix, pattern)) && at.is_prefix_of(pattern);
                assert(n.lookup(pattern) is Some);
            }
            if n.subtree(at) is Some {
                let pattern = choose|pattern: Seq<SegmentView>|
                    #[trigger] n.lookup(pattern) is Some && at.is_prefix_of(pattern);
                assert(self@.contains_key((prefix, pattern)));
            }
        } else {
            if has_node(self@, prefix, at) {
                let pattern = choose|pattern: Seq<SegmentView>|
                    #[trigger] self@.contains_key((prefix, pattern)) && at.is_prefix_of(pattern);
                assert(self.handler_at(prefix, pattern) is Some);
            }
        }
    }
}


impl<H> Router<H> {
    /// Walks the trie for `prefix` along the non-empty components of `path`.
    /// At each level the literal child is taken if there is one, else the
    /// dynamic child, whose component is then captured; a choice is never
    /// revisited. Returns the captured components, in path order, and the node
    /// reached, if the walk did not fall off the trie. That node need not hold
    /// a handler.
    pub fn find_node<'a>(&'a self, prefix: &str, path: &str) -> (r: (Vec<String>, Option<&'a RouteNode<H>>))
        ensures
            texts(r.0@) == walk(self@, prefix@, components(path@)).0,
            r.1 is Some <==> walk(self@, prefix@, components(path@)).1 is Some,
            r.1 matches Some(n) ==> n.route == resolve(self@, prefix@, path@).1,
    {
        proof {
            use_type_invariant(self);
        }
        let parts = split_path(path);
        let key = prefix.to_owned();
        let ghost p = prefix@;
        let ghost all = texts(parts@);
        let mut node: Option<&'a RouteNode<H>> = match Self::root_position(&self.routes, &key) {
            Some(i) => Some(&self.routes[i].1),
            None => None,
        };
        let ghost mut at: Seq<SegmentView> = seq![];
        let mut params: Vec<String> = Vec::new();
        proof {
            self.lemma_has_node(p, at);
            assert(all.take(0) =~= Seq::<Seq<char>>::empty());
            if node is Some {
                assert(self.root(p)->Some_0.subtree(at) == Some(self.root(p)->Some_0));
            }
        }
        let mut k: usize = 0;
        while k < parts.len()
            invariant
                self.wf(),
                k <= parts@.len(),
                all == texts(parts@),
                all == components(path@),
                p == prefix@,
                walk(self@, p, all.take(k as int)) == (
                    texts(params@),
                    match node {
                        Some(_) => Some(at),
                        None => None,
                    },
                ),
                node matches Some(n) ==> (self.root(p) matches Some(root) && root.subtree(at)
                    == Some(*n) && n.wf()),
            decreases parts@.len() - k,
        {
            assert(all.take(k + 1).drop_last() =~= all.take(k as int));
            assert(all.take(k + 1).last() == parts@[k as int]@);
            match node {
                Some(n) => {
                    let text = &parts[k];
                    let ghost root = self.root(p)->Some_0;
                    let ghost literal = at.push(SegmentView::Static(text@));
                    let ghost dynamic = at.push(SegmentView::Dynamic);
                    proof {
                        self.lemma_has_node(p, literal);
                        self.lemma_has_node(p, dynamic);
                        assert(literal =~= at + seq![SegmentView::Static(text@)]);
                        assert(dynamic =~= at + seq![SegmentView::Dynamic]);
                        root.lemma_subtree_concat(at, seq![SegmentView::Static(text@)]);
                        root.lemma_subtree_concat(at, seq![SegmentView::Dynamic]);
                        root.lemma_subtree_wf(literal);
                        root.lemma_subtree_wf(dynamic);
                    }
                    match n.static_child(text) {
                        Some(c) => {
                            node = Some(c);
                            proof {
                                at = literal;
                            }
                        },
                        None => match n.dynamic_child() {
                            Some(c) => {
                                let ghost before = params@;
                                params.push(text.clone());
                                assert(texts(params@) == texts(before).push(text@));
                                node = Some(c);
                                proof {
                                    at = dynamic;
                                }
                            },
                            None => {
                                node = None;
                            },
                        },
                    }
                },
                None => {},
            }
            k = k + 1;
        }
        assert(all.take(k as int) =~= all);
        proof {
            self.lemma_has_node(p, at);
        }
        (params, node)
    }

    /// Looks up `path` under `prefix`: the captured dynamic components, in
    /// path order, and the handler of the route matched, if one is. A path
    /// whose walk ends at a node without a handler matches nothing.
    pub fn find<'a>(&'a self, prefix: &str, path: &str) -> (r: (Vec<String>, Option<&'a H>))
        ensures
            texts(r.0@) == resolve(self@, prefix@, path@).0,
            match r.1 {
                Some(h) => resolve(self@, prefix@, path@).1 == Some(*h),
                None => resolve(self@, prefix@, path@).1 is None,
            },
    {
        let (params, node) = self.find_node(prefix, path);
        let route = match node {
            Some(n) => match &n.route {
                Some(h) => Some(h),
                None => None,
            },
            None => None,
        };
        (params, route)
    }
}


impl<H> Router<H> {
    /// Adds a route: `route` becomes the handler of `path` under `prefix`.
    /// The first route under a prefix creates its root; the nodes along
    /// `path` are created where missing. Registering an existing
    /// `(prefix, path)` again replaces its handler. Chainable.
    pub fn register(self, prefix: &str, path: Vec<PathSegment>, route: H) -> (r: Self)
        ensures
            r@ == self@.insert((prefix@, views(path@)), route),
    {
        proof {
            use_type_invariant(&self);
        }
        let ghost old_routes = self.routes@;
        let ghost old_self = self;
        let ghost p = prefix@;
        let ghost pattern = views(path@);
        let Router { mut routes } = self;
        let key = prefix.to_owned();
        let ghost mut fresh = false;
        let i = match Self::root_position(&routes, &key) {
            Some(i) => i,
            None => {
                let ghost before = prefixes_of(routes@);
                routes.push((key, RouteNode::new()));
                assert(prefixes_of(routes@) == before.push(p));
                proof {
                    fresh = true;
                    assert forall|q: Seq<char>| q != p implies
                        #[trigger] index_in(prefixes_of(routes@), q) == index_in(before, q) by {
                        if before.contains(q) {
                            let j = choose|j: int| 0 <= j < before.len() && before[j] == q;
                            assert(prefixes_of(routes@)[j] == q);
                            lemma_index_in(before, j);
                            lemma_index_in(prefixes_of(routes@), j);
                        }
                    }
                    lemma_index_in(prefixes_of(routes@), routes@.len() - 1);
                }
                routes.len() - 1
            },
        };
        let ghost mid = routes@;
        assert(index_in(prefixes_of(mid), p) == i);
        assert(forall|q: Seq<char>| q != p ==> #[trigger] index_in(prefixes_of(mid), q) == index_in(prefixes_of(old_routes), q));
        assert(forall|j: int| 0 <= j < mid.len() && j != i ==> mid[j] == old_routes[j]);
        assert(!fresh ==> mid == old_routes);
        assert(fresh ==> index_in(prefixes_of(old_routes), p) == -1);
        routes[i].1.insert(&path, 0, route);
        assert(prefixes_of(routes@) =~= prefixes_of(mid));
        assert(views(path@).skip(0) =~= pattern);
        let r = Router { routes };
        assert forall|k: (Seq<char>, Seq<SegmentView>)| #[trigger] r.handler_at(k.0, k.1) == if k == (p, pattern) {
            Some(route)
        } else {
            old_self.handler_at(k.0, k.1)
        } by {
            let (q, pat) = k;
            if q == p {
                assert(r.root(q) == Some(r.routes@[i as int].1));
                if !fresh {
                    assert(old_self.root(q) == Some(mid[i as int].1));
                }
            } else {
                let j = index_in(prefixes_of(old_routes), q);
                assert(index_in(prefixes_of(r.routes@), q) == j);
                if 0 <= j < old_routes.len() {
                    assert(prefixes_of(old_routes)[j] == q) by {
                        assert(prefixes_of(old_routes).contains(q));
                    }
                    assert(j != i);
                    assert(r.routes@[j] == old_routes[j]);
                }
            }
        }
        assert(r@ =~= self@.insert((p, pattern), route));
        r
    }
}

impl<H> Default for RouteNode<H> {
    fn default() -> (n: Self)
        ensures
            n.route is None,
            n.children@.len() == 0,
    {
        RouteNode::new()
    }
}

impl<H> Default for Router<H> {
    fn default() -> (r: Self)
        ensures
            r@ == Table::<H>::empty(),
    {
        Router::new()
    }
}

} // verus!
