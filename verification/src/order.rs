//! Lists of paths in order: a stable sort, and what holds of it.

use vstd::prelude::*;

use crate::path::{
    backwards, bytes_le, component_le, components, components_le, path_le, BundlePath, Component,
};

verus! {

/// An ordered list with one more path in it, behind every path that comes no later.
pub open spec fn place(list: Seq<Seq<u8>>, path: Seq<u8>) -> Seq<Seq<u8>>
    decreases list.len(),
{
    if list.len() == 0 {
        seq![path]
    } else if path_le(list.last(), path) {
        list.push(path)
    } else {
        place(list.drop_last(), path).push(list.last())
    }
}

/// A list of paths brought into order; paths that tie keep their order in the list.
pub open spec fn ordered(list: Seq<Seq<u8>>) -> Seq<Seq<u8>>
    decreases list.len(),
{
    if list.len() == 0 {
        Seq::empty()
    } else {
        place(ordered(list.drop_last()), list.last())
    }
}

/// Whether no path of a list comes before an earlier one.
pub open spec fn is_ordered(list: Seq<Seq<u8>>) -> bool {
    forall|i: int, j: int|
        0 <= i <= j < list.len() ==> path_le(#[trigger] list[i], #[trigger] list[j])
}

/// Whether two paths tie in the order: they have the same components.
pub open spec fn ties(a: Seq<u8>, b: Seq<u8>) -> bool {
    path_le(a, b) && path_le(b, a)
}

/// The paths of a list that tie with a given path, in the order of the list.
pub open spec fn tied(list: Seq<Seq<u8>>, path: Seq<u8>) -> Seq<Seq<u8>> {
    list.filter(|other: Seq<u8>| ties(other, path))
}

/// Two lists in order as one; where two paths tie, the one of `a` comes first.
pub open spec fn merged(a: Seq<Seq<u8>>, b: Seq<Seq<u8>>) -> Seq<Seq<u8>>
    decreases a.len() + b.len(),
{
    if a.len() == 0 {
        b
    } else if b.len() == 0 {
        a
    } else if path_le(a.last(), b.last()) {
        merged(a, b.drop_last()).push(b.last())
    } else {
        merged(a.drop_last(), b).push(a.last())
    }
}

proof fn lemma_bytes_order(a: Seq<u8>, b: Seq<u8>, c: Seq<u8>)
    ensures
        bytes_le(a, a),
        bytes_le(a, b) || bytes_le(b, a),
        bytes_le(a, b) && bytes_le(b, a) ==> a == b,
        bytes_le(a, b) && bytes_le(b, c) ==> bytes_le(a, c),
    decreases a.len(),
{
    if a.len() > 0 {
        if b.len() > 0 && c.len() > 0 {
            lemma_bytes_order(a.drop_first(), b.drop_first(), c.drop_first());
        } else if b.len() > 0 {
            lemma_bytes_order(a.drop_first(), b.drop_first(), c);
        } else {
            lemma_bytes_order(a.drop_first(), b, c);
        }
        if bytes_le(a, b) && bytes_le(b, a) {
            assert(a =~= seq![a[0]] + a.drop_first());
            assert(b =~= seq![b[0]] + b.drop_first());
        }
    } else if bytes_le(b, a) {
        assert(a =~= b);
    }
}

proof fn lemma_component_order(a: Component, b: Component, c: Component)
    ensures
        component_le(a, a),
        component_le(a, b) || component_le(b, a),
        component_le(a, b) && component_le(b, a) ==> a == b,
        component_le(a, b) && component_le(b, c) ==> component_le(a, c),
{
    if let Component::Normal(x) = a {
        let y = if let Component::Normal(name) = b { name } else { x };
        let z = if let Component::Normal(name) = c { name } else { x };
        lemma_bytes_order(x, y, z);
    }
}

proof fn lemma_components_order(a: Seq<Component>, b: Seq<Component>, c: Seq<Component>)
    ensures
        components_le(a, a),
        components_le(a, b) || components_le(b, a),
        components_le(a, b) && components_le(b, a) ==> a == b,
        components_le(a, b) && components_le(b, c) ==> components_le(a, c),
    decreases a.len(),
{
    if a.len() > 0 {
        let y = if b.len() > 0 { b[0] } else { a[0] };
        let z = if c.len() > 0 { c[0] } else { a[0] };
        lemma_component_order(a[0], y, z);
        lemma_component_order(a[0], z, y);
        lemma_component_order(y, a[0], z);
        if b.len() > 0 && c.len() > 0 {
            lemma_components_order(a.drop_first(), b.drop_first(), c.drop_first());
        } else if b.len() > 0 {
            lemma_components_order(a.drop_first(), b.drop_first(), c);
        } else {
            lemma_components_order(a.drop_first(), b, c);
        }
        if components_le(a, b) && components_le(b, a) {
            assert(a =~= seq![a[0]] + a.drop_first());
            assert(b =~= seq![b[0]] + b.drop_first());
        }
    } else if components_le(b, a) {
        assert(a =~= b);
    }
}

/// The order of paths is total: of two paths one comes no later than the other, what comes
/// no later than something that comes no later than a third comes no later than the third,
/// and two paths tie exactly where they have the same components.
pub proof fn law_path_order_is_total(a: Seq<u8>, b: Seq<u8>, c: Seq<u8>)
    ensures
        path_le(a, a),
        path_le(a, b) || path_le(b, a),
        path_le(a, b) && path_le(b, c) ==> path_le(a, c),
        ties(a, b) <==> components(a) == components(b),
{
    lemma_components_order(components(a), components(b), components(c));
}

proof fn lemma_tied_push(list: Seq<Seq<u8>>, path: Seq<u8>, p: Seq<u8>)
    ensures
        tied(list.push(path), p) == if ties(path, p) {
            tied(list, p).push(path)
        } else {
            tied(list, p)
        },
{
    assert(list.push(path).drop_last() =~= list);
    reveal_with_fuel(Seq::filter, 2);
}

proof fn lemma_place_keeps(list: Seq<Seq<u8>>, path: Seq<u8>)
    ensures
        place(list, path).len() == list.len() + 1,
        place(list, path).to_multiset() == list.to_multiset().insert(path),
        is_ordered(list) ==> is_ordered(place(list, path)),
        forall|p: Seq<u8>| #[trigger]
            tied(place(list, path), p) == if ties(path, p) {
                tied(list, p).push(path)
            } else {
                tied(list, p)
            } || !is_ordered(list),
    decreases list.len(),
{
    broadcast use vstd::seq_lib::group_to_multiset_ensures;

    if list.len() == 0 {
        assert(seq![path] =~= Seq::<Seq<u8>>::empty().push(path));
        assert(list =~= Seq::empty());
        law_path_order_is_total(path, path, path);
        assert forall|p: Seq<u8>| #[trigger]
            tied(place(list, path), p) == if ties(path, p) {
                tied(list, p).push(path)
            } else {
                tied(list, p)
            } by {
            lemma_tied_push(list, path, p);
        }
    } else if path_le(list.last(), path) {
        if is_ordered(list) {
            assert forall|i: int, j: int| 0 <= i <= j < list.push(path).len() implies path_le(
                #[trigger] list.push(path)[i],
                #[trigger] list.push(path)[j],
            ) by {
                if j == list.len() {
                    if i < j {
                        assert(path_le(list[i], list[list.len() - 1]));
                        law_path_order_is_total(list[i], list.last(), path);
                    } else {
                        law_path_order_is_total(path, path, path);
                    }
                }
            }
        }
        assert forall|p: Seq<u8>| #[trigger]
            tied(place(list, path), p) == if ties(path, p) {
                tied(list, p).push(path)
            } else {
                tied(list, p)
            } by {
            lemma_tied_push(list, path, p);
        }
    } else {
        let short = list.drop_last();
        let last = list.last();
        let placed = place(short, path);
        lemma_place_keeps(short, path);
        assert(list =~= short.push(last));
        if is_ordered(list) {
            assert forall|i: int, j: int| 0 <= i <= j < short.len() implies path_le(
                #[trigger] short[i],
                #[trigger] short[j],
            ) by {
                assert(path_le(list[i], list[j]));
            }
            assert forall|i: int, j: int| 0 <= i <= j < placed.push(last).len() implies path_le(
                #[trigger] placed.push(last)[i],
                #[trigger] placed.push(last)[j],
            ) by {
                if j == placed.len() {
                    if i < j {
                        assert(placed.contains(placed[i]));
                        assert(short.to_multiset().insert(path).count(placed[i]) > 0);
                        if placed[i] == path {
                            law_path_order_is_total(path, last, last);
                        } else {
                            assert(short.contains(placed[i]));
                            let k = choose|k: int| 0 <= k < short.len() && short[k] == placed[i];
                            assert(path_le(list[k], list[list.len() - 1]));
                        }
                    } else {
                        law_path_order_is_total(last, last, last);
                    }
                }
            }
            assert forall|p: Seq<u8>| #[trigger]
                tied(place(list, path), p) == if ties(path, p) {
                    tied(list, p).push(path)
                } else {
                    tied(list, p)
                } by {
                lemma_tied_push(placed, last, p);
                lemma_tied_push(short, last, p);
                assert(tied(placed, p) == if ties(path, p) {
                    tied(short, p).push(path)
                } else {
                    tied(short, p)
                });
                if ties(path, p) && ties(last, p) {
                    law_path_order_is_total(last, p, path);
                }
            }
        }
    }
}

/// A list brought into order holds the same paths as often as before, in order, and those
/// that tie in the order they had.
pub proof fn law_ordered_is_a_stable_sort(list: Seq<Seq<u8>>)
    ensures
        is_ordered(ordered(list)),
        ordered(list).len() == list.len(),
        ordered(list).to_multiset() == list.to_multiset(),
        forall|p: Seq<u8>| #[trigger] tied(ordered(list), p) == tied(list, p),
    decreases list.len(),
{
    broadcast use vstd::seq_lib::group_to_multiset_ensures;

    if list.len() == 0 {
        assert(list =~= Seq::empty());
    } else {
        let short = list.drop_last();
        law_ordered_is_a_stable_sort(short);
        lemma_place_keeps(ordered(short), list.last());
        assert(list =~= short.push(list.last()));
        assert forall|p: Seq<u8>| #[trigger] tied(ordered(list), p) == tied(list, p) by {
            assert(tied(ordered(short), p) == tied(short, p));
            lemma_tied_push(short, list.last(), p);
        }
    }
}

proof fn lemma_last_ties(a: Seq<Seq<u8>>, b: Seq<Seq<u8>>)
    requires
        is_ordered(a),
        is_ordered(b),
        a.len() > 0,
        forall|p: Seq<u8>| #[trigger] tied(a, p) == tied(b, p),
    ensures
        b.len() > 0,
        path_le(a.last(), b.last()),
{
    let p = a.last();
    law_path_order_is_total(p, p, p);
    lemma_tied_push(a.drop_last(), p, p);
    assert(a =~= a.drop_last().push(p));
    assert(tied(a, p).last() == p);
    let pred = |other: Seq<u8>| ties(other, p);
    assert(tied(b, p).contains(p));
    b.lemma_filter_contains_rev(pred, p);
    assert(b.contains(p));
    let i = choose|i: int| 0 <= i < b.len() && b[i] == p;
    assert(path_le(b[i], b[b.len() - 1]));
}

proof fn lemma_same_ties_same_list(a: Seq<Seq<u8>>, b: Seq<Seq<u8>>)
    requires
        is_ordered(a),
        is_ordered(b),
        forall|p: Seq<u8>| #[trigger] tied(a, p) == tied(b, p),
    ensures
        a == b,
    decreases a.len(),
{
    if a.len() == 0 {
        if b.len() > 0 {
            lemma_last_ties(b, a);
        }
        assert(a =~= b);
    } else {
        lemma_last_ties(a, b);
        lemma_last_ties(b, a);
        let x = a.last();
        let y = b.last();
        let short_a = a.drop_last();
        let short_b = b.drop_last();
        assert(a =~= short_a.push(x));
        assert(b =~= short_b.push(y));
        law_path_order_is_total(x, x, x);
        lemma_tied_push(short_a, x, x);
        lemma_tied_push(short_b, y, x);
        assert(tied(a, x) == tied(b, x));
        assert(tied(a, x).last() == x);
        assert(tied(b, x).last() == y);
        assert forall|p: Seq<u8>| #[trigger] tied(short_a, p) == tied(short_b, p) by {
            lemma_tied_push(short_a, x, p);
            lemma_tied_push(short_b, x, p);
            assert(tied(a, p) == tied(b, p));
            if ties(x, p) {
                assert(tied(a, p).drop_last() =~= tied(short_a, p));
                assert(tied(b, p).drop_last() =~= tied(short_b, p));
            }
        }
        assert forall|i: int, j: int| 0 <= i <= j < short_a.len() implies path_le(
            #[trigger] short_a[i],
            #[trigger] short_a[j],
        ) by {
            assert(path_le(a[i], a[j]));
        }
        assert forall|i: int, j: int| 0 <= i <= j < short_b.len() implies path_le(
            #[trigger] short_b[i],
            #[trigger] short_b[j],
        ) by {
            assert(path_le(b[i], b[j]));
        }
        lemma_same_ties_same_list(short_a, short_b);
    }
}

/// A list in order that keeps the order of tied paths is the list brought into order: there
/// is only one such list.
pub proof fn law_stable_sort_is_unique(list: Seq<Seq<u8>>, sorted: Seq<Seq<u8>>)
    requires
        is_ordered(sorted),
        forall|p: Seq<u8>| #[trigger] tied(sorted, p) == tied(list, p),
    ensures
        sorted == ordered(list),
{
    law_ordered_is_a_stable_sort(list);
    assert forall|p: Seq<u8>| #[trigger] tied(sorted, p) == tied(ordered(list), p) by {
        assert(tied(sorted, p) == tied(list, p));
    }
    lemma_same_ties_same_list(sorted, ordered(list));
}

proof fn lemma_place_in_merged(a: Seq<Seq<u8>>, b: Seq<Seq<u8>>, path: Seq<u8>)
    ensures
        place(merged(a, b), path) == merged(a, place(b, path)),
    decreases a.len() + b.len(),
{
    if a.len() == 0 {
    } else if b.len() == 0 {
        assert(seq![path].drop_last() =~= b);
        if path_le(a.last(), path) {
            assert(merged(a, b) == a);
        } else {
            lemma_place_in_merged(a.drop_last(), b, path);
            assert(merged(a.drop_last(), b) == a.drop_last());
        }
    } else {
        let x = a.last();
        let y = b.last();
        law_path_order_is_total(x, y, path);
        law_path_order_is_total(y, x, path);
        let whole = merged(a, b);
        let placed = place(b, path);
        if path_le(x, y) {
            assert(whole.drop_last() =~= merged(a, b.drop_last()));
            if path_le(y, path) {
                assert(placed.drop_last() =~= b);
            } else {
                lemma_place_in_merged(a, b.drop_last(), path);
                assert(placed.drop_last() =~= place(b.drop_last(), path));
            }
        } else {
            assert(whole.drop_last() =~= merged(a.drop_last(), b));
            if path_le(x, path) {
                assert(placed.drop_last() =~= b);
            } else {
                lemma_place_in_merged(a.drop_last(), b, path);
            }
        }
    }
}

proof fn lemma_ordered_of_concat(a: Seq<Seq<u8>>, b: Seq<Seq<u8>>)
    ensures
        ordered(a + b) == merged(ordered(a), ordered(b)),
    decreases b.len(),
{
    if b.len() == 0 {
        assert(a + b =~= a);
        if ordered(a).len() > 0 {
            assert(merged(ordered(a), ordered(b)) == ordered(a));
        }
    } else {
        assert((a + b).drop_last() =~= a + b.drop_last());
        lemma_ordered_of_concat(a, b.drop_last());
        lemma_place_in_merged(ordered(a), ordered(b.drop_last()), b.last());
    }
}

/// A list brought into order has every path as often as before and none before one that it does
/// not come before; paths with the same components stay in the order in which they were listed.
pub proof fn law_ordering_only_rearranges(list: Seq<Seq<u8>>, parts: Seq<Component>)
    ensures
        ordered(list).to_multiset() == list.to_multiset(),
        forall|i: int, j: int|
            0 <= i <= j < ordered(list).len() ==> path_le(
                #[trigger] ordered(list)[i],
                #[trigger] ordered(list)[j],
            ),
        ordered(list).filter(|path: Seq<u8>| components(path) == parts) == list.filter(
            |path: Seq<u8>| components(path) == parts,
        ),
{
    law_ordered_is_a_stable_sort(list);
    let same = |path: Seq<u8>| components(path) == parts;
    if exists|path: Seq<u8>| #[trigger] components(path) == parts {
        let like = choose|path: Seq<u8>| #[trigger] components(path) == parts;
        let tie = |other: Seq<u8>| ties(other, like);
        assert forall|path: Seq<u8>| #[trigger] same(path) == tie(path) by {
            law_path_order_is_total(path, like, like);
        }
        assert(same =~= tie);
        assert(tied(ordered(list), like) == tied(list, like));
    } else {
        lemma_filter_none(ordered(list), same);
        lemma_filter_none(list, same);
    }
}

proof fn lemma_filter_none(list: Seq<Seq<u8>>, pred: spec_fn(Seq<u8>) -> bool)
    requires
        forall|path: Seq<u8>| !(#[trigger] pred(path)),
    ensures
        list.filter(pred) == Seq::<Seq<u8>>::empty(),
    decreases list.len(),
{
    reveal_with_fuel(Seq::filter, 2);
    if list.len() > 0 {
        lemma_filter_none(list.drop_last(), pred);
    }
}

/// Bringing a list that is in order into order changes nothing.
pub proof fn law_ordered_twice_is_ordered_once(list: Seq<Seq<u8>>)
    ensures
        is_ordered(list) ==> ordered(list) == list,
        ordered(ordered(list)) == ordered(list),
{
    if is_ordered(list) {
        law_stable_sort_is_unique(list, list);
    }
    law_ordered_is_a_stable_sort(list);
    law_stable_sort_is_unique(ordered(list), ordered(list));
}

/// Whether the parts of a composite list are brought into order before the whole makes no
/// difference.
pub proof fn law_ordered_parts_order_alike(a: Seq<Seq<u8>>, b: Seq<Seq<u8>>)
    ensures
        ordered(ordered(a) + ordered(b)) == ordered(a + b),
        ordered(a + ordered(b)) == ordered(a + b),
{
    lemma_ordered_of_concat(a, b);
    lemma_ordered_of_concat(ordered(a), ordered(b));
    lemma_ordered_of_concat(a, ordered(b));
    law_ordered_twice_is_ordered_once(a);
    law_ordered_twice_is_ordered_once(b);
}

/// Two lists of the same paths are the same once in order, however the paths were listed,
/// if no two different paths among them tie.
pub proof fn law_order_ignores_listing(a: Seq<Seq<u8>>, b: Seq<Seq<u8>>)
    requires
        a.to_multiset() == b.to_multiset(),
        forall|i: int, j: int|
            0 <= i < a.len() && 0 <= j < a.len() && ties(#[trigger] a[i], #[trigger] a[j]) ==> a[i]
                == a[j],
    ensures
        ordered(a) == ordered(b),
{
    law_ordered_is_a_stable_sort(a);
    law_ordered_is_a_stable_sort(b);
    assert forall|p: Seq<u8>, q: Seq<u8>|
        a.to_multiset().count(p) > 0 && a.to_multiset().count(q) > 0 && #[trigger] ties(
            p,
            q,
        ) implies p == q by {
        broadcast use vstd::seq_lib::group_to_multiset_ensures;

        assert(a.contains(p) && a.contains(q));
        let i = choose|i: int| 0 <= i < a.len() && a[i] == p;
        let j = choose|j: int| 0 <= j < a.len() && a[j] == q;
        assert(ties(a[i], a[j]));
    }
    lemma_same_paths_same_list(ordered(a), ordered(b));
}

proof fn lemma_same_paths_same_list(a: Seq<Seq<u8>>, b: Seq<Seq<u8>>)
    requires
        is_ordered(a),
        is_ordered(b),
        a.to_multiset() == b.to_multiset(),
        forall|p: Seq<u8>, q: Seq<u8>|
            a.to_multiset().count(p) > 0 && a.to_multiset().count(q) > 0 && #[trigger] ties(p, q)
                ==> p == q,
    ensures
        a == b,
    decreases a.len(),
{
    broadcast use vstd::seq_lib::group_to_multiset_ensures;

    assert(a.len() == a.to_multiset().len() == b.to_multiset().len() == b.len());
    if a.len() == 0 {
        assert(a =~= b);
    } else {
        let x = a.last();
        let y = b.last();
        assert(a.contains(a[a.len() - 1]) && b.contains(b[b.len() - 1]));
        assert(a.to_multiset().count(x) > 0 && b.to_multiset().count(y) > 0);
        assert(a.contains(y) && b.contains(x));
        let i = choose|i: int| 0 <= i < a.len() && a[i] == y;
        let j = choose|j: int| 0 <= j < b.len() && b[j] == x;
        assert(path_le(a[i], a[a.len() - 1]));
        assert(path_le(b[j], b[b.len() - 1]));
        assert(ties(x, y));
        let short_a = a.drop_last();
        let short_b = b.drop_last();
        assert(a =~= short_a.push(x));
        assert(b =~= short_b.push(x));
        assert(short_a.to_multiset() =~= a.to_multiset().remove(x));
        assert(short_b.to_multiset() =~= b.to_multiset().remove(x));
        assert forall|i: int, j: int| 0 <= i <= j < short_a.len() implies path_le(
            #[trigger] short_a[i],
            #[trigger] short_a[j],
        ) by {
            assert(path_le(a[i], a[j]));
        }
        assert forall|i: int, j: int| 0 <= i <= j < short_b.len() implies path_le(
            #[trigger] short_b[i],
            #[trigger] short_b[j],
        ) by {
            assert(path_le(b[i], b[j]));
        }
        lemma_same_paths_same_list(short_a, short_b);
    }
}

/// Merges two lists that are in order.
fn merge(a: Vec<BundlePath>, b: Vec<BundlePath>) -> (list: Vec<BundlePath>)
    ensures
        list.deep_view() == merged(a.deep_view(), b.deep_view()),
{
    let ghost whole = merged(a.deep_view(), b.deep_view());
    let mut a = a;
    let mut b = b;
    let mut reversed: Vec<BundlePath> = Vec::new();
    assert(backwards(reversed@) =~= Seq::empty());
    assert(whole =~= merged(a.deep_view(), b.deep_view()) + backwards(reversed@));
    while a.len() > 0 || b.len() > 0
        invariant
            whole == merged(a.deep_view(), b.deep_view()) + backwards(reversed@),
        decreases a.len() + b.len(),
    {
        let from_b: bool = if a.len() == 0 {
            true
        } else if b.len() == 0 {
            false
        } else {
            a[a.len() - 1].at_most(&b[b.len() - 1])
        };
        let ghost rest_a = a.deep_view();
        let ghost rest_b = b.deep_view();
        let ghost before = reversed@;
        let next: Option<BundlePath> = if from_b {
            b.pop()
        } else {
            a.pop()
        };
        if let Some(path) = next {
            reversed.push(path);
            assert(backwards(reversed@) =~= seq![path@] + backwards(before));
            if from_b {
                assert(b.deep_view() =~= rest_b.drop_last());
                assert(merged(rest_a, rest_b) =~= merged(rest_a, b.deep_view()).push(path@));
            } else {
                assert(a.deep_view() =~= rest_a.drop_last());
                assert(merged(rest_a, rest_b) =~= merged(a.deep_view(), rest_b).push(path@));
            }
            assert(whole =~= merged(a.deep_view(), b.deep_view()) + backwards(reversed@));
        }
    }
    assert(whole =~= backwards(reversed@));
    let mut list: Vec<BundlePath> = Vec::new();
    assert(whole =~= list.deep_view() + backwards(reversed@));
    while reversed.len() > 0
        invariant
            whole == list.deep_view() + backwards(reversed@),
        decreases reversed.len(),
    {
        let ghost listed = list.deep_view();
        let ghost rest = reversed@;
        if let Some(path) = reversed.pop() {
            list.push(path);
            assert(list.deep_view() =~= listed.push(path@));
            assert(backwards(rest) =~= seq![path@] + backwards(reversed@));
            assert(whole =~= list.deep_view() + backwards(reversed@));
        }
    }
    assert(whole =~= list.deep_view());
    list
}

/// Brings a list of paths into order, as [`ordered`] says.
pub fn sort_paths(list: Vec<BundlePath>) -> (sorted: Vec<BundlePath>)
    ensures
        sorted.deep_view() == ordered(list.deep_view()),
    decreases list.len(),
{
    if list.len() <= 1 {
        proof {
            if list.len() == 1 {
                assert(list.deep_view().drop_last() =~= Seq::empty());
                assert(ordered(list.deep_view().drop_last()) =~= Seq::empty());
                assert(list.deep_view() =~= seq![list.deep_view().last()]);
            } else {
                assert(list.deep_view() =~= Seq::empty());
            }
        }
        return list;
    }
    let ghost whole = list.deep_view();
    let mut front = list;
    let middle = front.len() / 2;
    let back = front.split_off(middle);
    assert(whole =~= front.deep_view() + back.deep_view());
    proof {
        lemma_ordered_of_concat(front.deep_view(), back.deep_view());
    }
    merge(sort_paths(front), sort_paths(back))
}

} // verus!
