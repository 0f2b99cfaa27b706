use vstd::prelude::*;

verus! {

/// What a [`PathSegment`] stands for in specifications.
pub enum SegmentView {
    Dynamic,
    Static(Seq<char>),
}

/// One segment of a route pattern.
///
/// `Static` segments are matched by exact text equality. A `Dynamic`
/// segment matches any non-empty path component and captures its text. All
/// `Dynamic` segments are equal to each other and distinct from any `Static`.
#[derive(Debug, Eq, Hash)]
pub enum PathSegment {
    Dynamic,
    Static(String),
}

impl View for PathSegment {
    type V = SegmentView;

    open spec fn view(&self) -> SegmentView {
        match self {
            PathSegment::Dynamic => SegmentView::Dynamic,
            PathSegment::Static(text) => SegmentView::Static(text@),
        }
    }
}

impl PartialEq for PathSegment {
    fn eq(&self, other: &PathSegment) -> (r: bool)
        ensures
            r == (self@ == other@),
    {
        match (self, other) {
            (PathSegment::Dynamic, PathSegment::Dynamic) => true,
            (PathSegment::Static(a), PathSegment::Static(b)) => a.eq(b),
            _ => false,
        }
    }
}

impl Clone for PathSegment {
    fn clone(&self) -> (r: PathSegment)
        ensures
            r@ == self@,
    {
        match self {
            PathSegment::Dynamic => PathSegment::Dynamic,
            PathSegment::Static(text) => PathSegment::Static(text.clone()),
        }
    }
}

impl vstd::std_specs::cmp::PartialEqSpecImpl for PathSegment {
    open spec fn obeys_eq_spec() -> bool {
        true
    }

    open spec fn eq_spec(&self, other: &PathSegment) -> bool {
        self@ == other@
    }
}

/// The state of splitting, after reading `c` in state `state`: the completed
/// non-empty components, and the component being read.
pub open spec fn advance(state: (Seq<Seq<char>>, Seq<char>), c: char) -> (Seq<Seq<char>>, Seq<char>) {
    let (done, current) = state;
    if c == '/' {
        (if current.len() > 0 { done.push(current) } else { done }, seq![])
    } else {
        (done, current.push(c))
    }
}

/// The state of splitting after reading `s` from the left, starting in `state`.
pub open spec fn split_from(state: (Seq<Seq<char>>, Seq<char>), s: Seq<char>) -> (Seq<Seq<char>>, Seq<char>)
    decreases s.len(),
{
    if s.len() == 0 {
        state
    } else {
        advance(split_from(state, s.drop_last()), s.last())
    }
}

/// The state of splitting after reading `s` from the start.
pub open spec fn split_state(s: Seq<char>) -> (Seq<Seq<char>>, Seq<char>) {
    split_from((seq![], seq![]), s)
}

/// The components of a finished split.
pub open spec fn flush(state: (Seq<Seq<char>>, Seq<char>)) -> Seq<Seq<char>> {
    let (done, current) = state;
    if current.len() > 0 {
        done.push(current)
    } else {
        done
    }
}

/// The non-empty `/`-separated components of `s`, in order. Leading,
/// trailing and repeated slashes produce no component.
pub open spec fn components(s: Seq<char>) -> Seq<Seq<char>> {
    flush(split_state(s))
}

/// Splitting `a + b` is splitting `a`, then going on with `b`.
pub proof fn lemma_split_concat(state: (Seq<Seq<char>>, Seq<char>), a: Seq<char>, b: Seq<char>)
    ensures
        split_from(state, a + b) == split_from(split_from(state, a), b),
    decreases b.len(),
{
    if b.len() == 0 {
        assert(a + b =~= a);
    } else {
        assert((a + b).drop_last() =~= a + b.drop_last());
        assert((a + b).last() == b.last());
        lemma_split_concat(state, a, b.drop_last());
    }
}

/// A leading slash yields no component.
pub proof fn lemma_leading_slash(s: Seq<char>)
    ensures
        components(seq!['/'] + s) == components(s),
{
    lemma_split_concat((seq![], seq![]), seq!['/'], s);
    let init = (Seq::<Seq<char>>::empty(), Seq::<char>::empty());
    assert(seq!['/'].drop_last() =~= Seq::<char>::empty());
    assert(split_from(init, Seq::<char>::empty()) == init);
    assert(seq!['/'].last() == '/');
    assert(split_from(init, seq!['/']) == advance(init, '/'));
}

/// A trailing slash yields no component.
pub proof fn lemma_trailing_slash(s: Seq<char>)
    ensures
        components(s.push('/')) == components(s),
{
    assert(s.push('/').drop_last() =~= s);
}

/// A repeated slash splits as a single one.
pub proof fn lemma_repeated_slash(a: Seq<char>, b: Seq<char>)
    ensures
        components(a + seq!['/', '/'] + b) == components(a + seq!['/'] + b),
{
    let init = (Seq::<Seq<char>>::empty(), Seq::<char>::empty());
    let st = split_from(init, a);
    lemma_split_concat(init, a + seq!['/', '/'], b);
    lemma_split_concat(init, a + seq!['/'], b);
    lemma_split_concat(init, a, seq!['/', '/']);
    lemma_split_concat(init, a, seq!['/']);
    assert(seq!['/', '/'].drop_last() =~= seq!['/']);
    assert(seq!['/'].drop_last() =~= Seq::<char>::empty());
    assert(split_from(st, Seq::<char>::empty()) == st);
    assert(seq!['/'].last() == '/');
    assert(seq!['/', '/'].last() == '/');
    assert(split_from(st, seq!['/']) == advance(st, '/'));
    assert(split_from(st, seq!['/', '/']) == advance(advance(st, '/'), '/'));
}

/// Paths that differ only in leading, trailing or repeated slashes have the
/// same components.
pub proof fn lemma_slash_normalization(a: Seq<char>, b: Seq<char>)
    ensures
        components(seq!['/'] + a + seq!['/'] + b + seq!['/']) == components(a + seq!['/'] + b),
        components(a + seq!['/', '/'] + b) == components(a + seq!['/'] + b),
{
    let inner = a + seq!['/'] + b;
    assert(seq!['/'] + a + seq!['/'] + b + seq!['/'] =~= (seq!['/'] + inner).push('/'));
    lemma_trailing_slash(seq!['/'] + inner);
    lemma_leading_slash(inner);
    lemma_repeated_slash(a, b);
}

/// The text of each string of `v`.
pub open spec fn texts(v: Seq<String>) -> Seq<Seq<char>> {
    v.map_values(|t: String| t@)
}

/// Splits `path` into its non-empty `/`-separated components.
pub fn split_path(path: &str) -> (parts: Vec<String>)
    ensures
        texts(parts@) == components(path@),
{
    let n: usize = path.unicode_len();
    let mut parts: Vec<String> = Vec::new();
    let mut start: usize = 0;
    let mut i: usize = 0;
    for c in it: path.chars()
        invariant
            it.seq() == path@,
            i == it.index(),
            n == path@.len(),
            start <= i <= n,
            split_state(path@.take(i as int)) == (texts(parts@), path@.subrange(start as int, i as int)),
    {
        assert(path@.take(i + 1).drop_last() == path@.take(i as int));
        if c == '/' {
            if start < i {
                let part = path.substring_char(start, i).to_owned();
                let ghost before = parts@;
                parts.push(part);
                assert(texts(parts@) == texts(before).push(part@));
            }
            start = i + 1;
        } else {
            assert(path@.subrange(start as int, i + 1) == path@.subrange(start as int, i as int).push(c));
        }
        i = i + 1;
    }
    assert(path@.take(n as int) == path@);
    if start < n {
        let part = path.substring_char(start, n).to_owned();
        let ghost before = parts@;
        parts.push(part);
        assert(texts(parts@) == texts(before).push(part@));
    }
    parts
}


/// The segment that a component of the route syntax denotes: `_` is the
/// dynamic marker, anything else is literal text.
pub open spec fn segment_of(text: Seq<char>) -> SegmentView {
    if text == seq!['_'] {
        SegmentView::Dynamic
    } else {
        SegmentView::Static(text)
    }
}

/// The route pattern written as `text` in the route syntax.
pub open spec fn pattern_of(text: Seq<char>) -> Seq<SegmentView> {
    components(text).map_values(|t: Seq<char>| segment_of(t))
}

/// The segment each element of `v` stands for.
pub open spec fn views(v: Seq<PathSegment>) -> Seq<SegmentView> {
    v.map_values(|seg: PathSegment| seg@)
}

/// Builds a route pattern from its textual form: `foo/_/bar` stands for
/// `[Static("foo"), Dynamic, Static("bar")]`.
pub fn path(text: &str) -> (segments: Vec<PathSegment>)
    ensures
        views(segments@) == pattern_of(text@),
{
    let parts = split_path(text);
    let mut segments: Vec<PathSegment> = Vec::new();
    let mut k: usize = 0;
    while k < parts.len()
        invariant
            k <= parts.len(),
            texts(parts@) == components(text@),
            views(segments@) == pattern_of(text@).take(k as int),
        decreases parts.len() - k,
    {
        let part = &parts[k];
        let s: &str = part.as_str();
        let segment = if s.unicode_len() == 1 && s.get_char(0) == '_' {
            assert(s@ == seq!['_']);
            PathSegment::Dynamic
        } else {
            PathSegment::Static(part.clone())
        };
        assert(texts(parts@)[k as int] == part@);
        let ghost before = segments@;
        segments.push(segment);
        assert(views(segments@) == views(before).push(segment@));
        assert(pattern_of(text@).take(k + 1) == pattern_of(text@).take(k as int).push(segment@));
        k = k + 1;
    }
    assert(pattern_of(text@).take(k as int) == pattern_of(text@));
    segments
}

} // verus!
