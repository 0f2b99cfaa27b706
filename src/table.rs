use vstd::prelude::*;

use crate::route::{components, lemma_slash_normalization, SegmentView};

verus! {

/// What a router holds: the handler registered under each dispatch prefix
/// and route pattern.
pub type Table<H> = Map<(Seq<char>, Seq<SegmentView>), H>;

/// Whether the trie of `table` has a node at `at` under `prefix`: some
/// registered pattern passes through or ends there.
pub open spec fn has_node<H>(table: Table<H>, prefix: Seq<char>, at: Seq<SegmentView>) -> bool {
    exists|pattern: Seq<SegmentView>|
        #[trigger] table.contains_key((prefix, pattern)) && at.is_prefix_of(pattern)
}

/// The handler registered for exactly `pattern` under `prefix`.
pub open spec fn handler<H>(table: Table<H>, prefix: Seq<char>, pattern: Seq<SegmentView>) -> Option<H> {
    if table.contains_key((prefix, pattern)) {
        Some(table[(prefix, pattern)])
    } else {
        None
    }
}

/// One step of lookup from the node at `at` on the path component `text`:
/// the literal child if there is one, else the dynamic child, else nothing.
pub open spec fn step<H>(
    table: Table<H>,
    prefix: Seq<char>,
    at: Seq<SegmentView>,
    text: Seq<char>,
) -> Option<Seq<SegmentView>> {
    let literal = at.push(SegmentView::Static(text));
    let dynamic = at.push(SegmentView::Dynamic);
    if has_node(table, prefix, literal) {
        Some(literal)
    } else if has_node(table, prefix, dynamic) {
        Some(dynamic)
    } else {
        None
    }
}

/// The greedy walk over the path components `parts`, left to right: the
/// parameters captured so far, and the node reached, if the walk has not
/// fallen off the trie. A choice once made is never revisited.
pub open spec fn walk<H>(table: Table<H>, prefix: Seq<char>, parts: Seq<Seq<char>>) -> (
    Seq<Seq<char>>,
    Option<Seq<SegmentView>>,
)
    decreases parts.len(),
{
    if parts.len() == 0 {
        (seq![], if has_node(table, prefix, seq![]) { Some(seq![]) } else { None })
    } else {
        let (params, at) = walk(table, prefix, parts.drop_last());
        match at {
            Some(q) => match step(table, prefix, q, parts.last()) {
                Some(next) => (
                    if next.last() == SegmentView::Dynamic { params.push(parts.last()) } else { params },
                    Some(next),
                ),
                None => (params, None),
            },
            None => (params, None),
        }
    }
}

/// The outcome of looking up `path` under `prefix`: the captured parameters
/// and the handler of the node reached, if there is one.
pub open spec fn resolve<H>(table: Table<H>, prefix: Seq<char>, path: Seq<char>) -> (
    Seq<Seq<char>>,
    Option<H>,
) {
    let (params, at) = walk(table, prefix, components(path));
    (
        params,
        match at {
            Some(q) => handler(table, prefix, q),
            None => None,
        },
    )
}


/// The pattern of literal segments that spells `parts`.
pub open spec fn literal_pattern(parts: Seq<Seq<char>>) -> Seq<SegmentView> {
    parts.map_values(|t: Seq<char>| SegmentView::Static(t))
}

/// Whether `pattern` matches the path components `parts`: as many segments
/// as components, each literal one equal to its component.
pub open spec fn pattern_matches(pattern: Seq<SegmentView>, parts: Seq<Seq<char>>) -> bool {
    &&& pattern.len() == parts.len()
    &&& forall|i: int|
        0 <= i < pattern.len() ==> (#[trigger] pattern[i] matches SegmentView::Static(t) ==> t
            == parts[i])
}

/// The components of `parts` at the dynamic segments of `pattern`, left to right.
pub open spec fn captures(pattern: Seq<SegmentView>, parts: Seq<Seq<char>>) -> Seq<Seq<char>>
    decreases parts.len(),
{
    if parts.len() == 0 || pattern.len() == 0 {
        seq![]
    } else {
        let rest = captures(pattern.drop_last(), parts.drop_last());
        if pattern.last() == SegmentView::Dynamic {
            rest.push(parts.last())
        } else {
            rest
        }
    }
}

/// The number of dynamic segments in `pattern`.
pub open spec fn dynamic_count(pattern: Seq<SegmentView>) -> nat
    decreases pattern.len(),
{
    if pattern.len() == 0 {
        0
    } else {
        dynamic_count(pattern.drop_last()) + if pattern.last() == SegmentView::Dynamic {
            1nat
        } else {
            0nat
        }
    }
}

proof fn lemma_walk_literal<H>(table: Table<H>, prefix: Seq<char>, parts: Seq<Seq<char>>, k: int)
    requires
        table.contains_key((prefix, literal_pattern(parts))),
        0 <= k <= parts.len(),
    ensures
        walk(table, prefix, parts.take(k)) == (Seq::<Seq<char>>::empty(), Some(literal_pattern(parts).take(k))),
    decreases k,
{
    let full = literal_pattern(parts);
    assert(full.take(k).is_prefix_of(full));
    if k == 0 {
        assert(parts.take(0) =~= Seq::<Seq<char>>::empty());
        assert(full.take(0) =~= Seq::<SegmentView>::empty());
    } else {
        lemma_walk_literal(table, prefix, parts, k - 1);
        assert(parts.take(k).drop_last() =~= parts.take(k - 1));
        assert(full.take(k - 1).push(SegmentView::Static(parts.take(k).last())) =~= full.take(k));
    }
}

/// A route of literal segments only is found, with no parameters captured,
/// by every path whose components spell it.
pub proof fn lemma_literal_route_found<H>(table: Table<H>, prefix: Seq<char>, path: Seq<char>)
    requires
        table.contains_key((prefix, literal_pattern(components(path)))),
    ensures
        resolve(table, prefix, path) == (
            Seq::<Seq<char>>::empty(),
            Some(table[(prefix, literal_pattern(components(path)))]),
        ),
{
    let parts = components(path);
    lemma_walk_literal(table, prefix, parts, parts.len() as int);
    assert(parts.take(parts.len() as int) =~= parts);
    assert(literal_pattern(parts).take(parts.len() as int) =~= literal_pattern(parts));
}

proof fn lemma_walk_shape<H>(table: Table<H>, prefix: Seq<char>, parts: Seq<Seq<char>>)
    ensures
        walk(table, prefix, parts).1 matches Some(at) ==> {
            &&& pattern_matches(at, parts)
            &&& walk(table, prefix, parts).0 == captures(at, parts)
            &&& captures(at, parts).len() == dynamic_count(at)
        },
    decreases parts.len(),
{
    if parts.len() > 0 {
        let rest = parts.drop_last();
        lemma_walk_shape(table, prefix, rest);
        if let Some(at) = walk(table, prefix, parts).1 {
            let q = walk(table, prefix, rest).1->Some_0;
            assert(at.drop_last() =~= q);
            assert(at.last() == SegmentView::Static(parts.last()) || at.last() == SegmentView::Dynamic);
            assert forall|i: int| 0 <= i < at.len() implies (#[trigger] at[i] matches SegmentView::Static(t)
                ==> t == parts[i]) by {
                if i < at.len() - 1 {
                    assert(at[i] == q[i]);
                    assert(parts[i] == rest[i]);
                }
            }
        }
    }
}

/// When a lookup finds a handler, it is the handler of a registered pattern
/// that matches the path, and the captured parameters are the components at
/// that pattern's dynamic segments, left to right, one per dynamic segment.
pub proof fn lemma_found_route_matches<H>(table: Table<H>, prefix: Seq<char>, path: Seq<char>)
    requires
        resolve(table, prefix, path).1 is Some,
    ensures
        exists|pattern: Seq<SegmentView>| {
            &&& #[trigger] table.contains_key((prefix, pattern))
            &&& resolve(table, prefix, path).1 == Some(table[(prefix, pattern)])
            &&& pattern_matches(pattern, components(path))
            &&& resolve(table, prefix, path).0 == captures(pattern, components(path))
            &&& resolve(table, prefix, path).0.len() == dynamic_count(pattern)
        },
{
    lemma_walk_shape(table, prefix, components(path));
    let at = walk(table, prefix, components(path)).1->Some_0;
    assert(table.contains_key((prefix, at)));
}

/// Registering a pattern twice leaves the same table as registering it once
/// with the later handler, so every lookup agrees and the pattern holds the
/// later handler.
pub proof fn lemma_last_registration_wins<H>(
    table: Table<H>,
    prefix: Seq<char>,
    pattern: Seq<SegmentView>,
    first: H,
    second: H,
    path: Seq<char>,
    lookup_prefix: Seq<char>,
)
    ensures
        table.insert((prefix, pattern), first).insert((prefix, pattern), second) == table.insert(
            (prefix, pattern),
            second,
        ),
        resolve(
            table.insert((prefix, pattern), first).insert((prefix, pattern), second),
            lookup_prefix,
            path,
        ) == resolve(table.insert((prefix, pattern), second), lookup_prefix, path),
        handler(
            table.insert((prefix, pattern), first).insert((prefix, pattern), second),
            prefix,
            pattern,
        ) == Some(second),
{
    assert(table.insert((prefix, pattern), first).insert((prefix, pattern), second) =~= table.insert(
        (prefix, pattern),
        second,
    ));
}

proof fn lemma_walk_unknown_prefix<H>(table: Table<H>, prefix: Seq<char>, parts: Seq<Seq<char>>)
    requires
        forall|pattern: Seq<SegmentView>| !table.contains_key((prefix, pattern)),
    ensures
        walk(table, prefix, parts) == (Seq::<Seq<char>>::empty(), Option::<Seq<SegmentView>>::None),
    decreases parts.len(),
{
    if parts.len() > 0 {
        lemma_walk_unknown_prefix(table, prefix, parts.drop_last());
    }
}

/// Under a prefix with no routes, every lookup matches nothing and
/// captures nothing.
pub proof fn lemma_unknown_prefix<H>(table: Table<H>, prefix: Seq<char>, path: Seq<char>)
    requires
        forall|pattern: Seq<SegmentView>| !table.contains_key((prefix, pattern)),
    ensures
        resolve(table, prefix, path) == (Seq::<Seq<char>>::empty(), Option::<H>::None),
{
    lemma_walk_unknown_prefix(table, prefix, components(path));
}

/// Lookups ignore leading, trailing and repeated slashes.
pub proof fn lemma_lookup_ignores_extra_slashes<H>(
    table: Table<H>,
    prefix: Seq<char>,
    a: Seq<char>,
    b: Seq<char>,
)
    ensures
        resolve(table, prefix, seq!['/'] + a + seq!['/'] + b + seq!['/']) == resolve(
            table,
            prefix,
            a + seq!['/'] + b,
        ),
        resolve(table, prefix, a + seq!['/', '/'] + b) == resolve(table, prefix, a + seq!['/'] + b),
{
    lemma_slash_normalization(a, b);
}

} // verus!
