//! What the listing of a source means: the files below its directories.
//!
//! A file tree is given by what reading each of its directories gives. The files of a source
//! in such a tree are defined by recursion over the tree, and the stepwise listing is shown
//! to arrive at them.

use vstd::prelude::*;
use vstd::seq_lib::lemma_multiset_commutative;

use crate::error::ErrorView;
use crate::order::{
    is_ordered, law_order_ignores_listing, law_ordered_is_a_stable_sort,
    law_ordered_parts_order_alike, law_ordered_twice_is_ordered_once, ordered, ties,
};
use crate::path::matches_extension;
use crate::source::{
    advance, entries_visits, entry_visits, file_visits, parts_visits, source_visits, walk_error,
    BundleSource, EntryView, ListView, ReplyView, VisitView,
};

verus! {

/// A file tree: what reading the directory under a path gives.
pub type FileTree = spec_fn(Seq<u8>) -> ReplyView;

/// A list of files, or the first error met.
pub type Files = Result<Seq<Seq<u8>>, ErrorView>;

/// Two lists one after the other; the first error counts.
pub open spec fn joined(a: Option<Files>, b: Option<Files>) -> Option<Files> {
    match a {
        Some(Ok(x)) => match b {
            Some(Ok(y)) => Some(Ok(x + y)),
            _ => b,
        },
        _ => a,
    }
}

/// The files below a directory that pass a filter, in the order in which they are met; none
/// are given where the tree is deeper than `depth` directories.
pub open spec fn walk(
    tree: FileTree,
    dir: Seq<u8>,
    filter: Option<Seq<char>>,
    depth: nat,
) -> Option<Files>
    decreases depth, 0nat,
{
    if depth == 0 {
        None
    } else {
        match tree(dir) {
            ReplyView::NotADirectory => Some(Err(walk_error(dir, "not a directory"@))),
            ReplyView::Unreadable(error) => Some(Err(walk_error(dir, error))),
            ReplyView::Entries(entries) => visited(
                tree,
                entries_visits(dir, entries, filter),
                (depth - 1) as nat,
            ),
        }
    }
}

/// The files that a visit gives.
pub open spec fn visit_files(tree: FileTree, visit: VisitView, depth: nat) -> Option<Files>
    decreases depth, 1nat,
{
    match visit {
        VisitView::Keep(path) => Some(Ok(seq![path])),
        VisitView::Enter(dir, filter) => walk(tree, dir, filter, depth),
        VisitView::Fail(error) => Some(Err(error)),
    }
}

/// The files that several visits give, one after the other.
pub open spec fn visited(tree: FileTree, visits: Seq<VisitView>, depth: nat) -> Option<Files>
    decreases depth, 2 + visits.len(),
{
    if visits.len() == 0 {
        Some(Ok(Seq::empty()))
    } else {
        joined(
            visit_files(tree, visits[0], depth),
            visited(tree, visits.drop_first(), depth),
        )
    }
}

/// A list brought into order; an error stays.
pub open spec fn in_order(files: Option<Files>) -> Option<Files> {
    match files {
        Some(Ok(list)) => Some(Ok(ordered(list))),
        _ => files,
    }
}

/// The files of a source in a tree: those of a directory and of a list in order, those of a
/// composite part by part and then in order.
pub open spec fn source_files(tree: FileTree, source: BundleSource, depth: nat) -> Option<Files>
    decreases source,
{
    match source {
        BundleSource::File(path) => Some(Ok(seq![path@])),
        BundleSource::Files(paths) => Some(Ok(ordered(paths.deep_view()))),
        BundleSource::Directory { root, extension } => in_order(
            walk(tree, root@, extension.deep_view(), depth),
        ),
        BundleSource::Composite(parts) => in_order(parts_files(tree, parts@, depth)),
    }
}

/// The files of several sources, one after the other.
pub open spec fn parts_files(tree: FileTree, parts: Seq<BundleSource>, depth: nat) -> Option<Files>
    decreases parts,
{
    if parts.len() == 0 {
        Some(Ok(Seq::empty()))
    } else {
        joined(
            source_files(tree, parts[0], depth),
            parts_files(tree, parts.drop_first(), depth),
        )
    }
}

/// Where a listing arrives that is supplied from a tree, after at most `reads` directories.
pub open spec fn driven(tree: FileTree, step: ListView, reads: nat) -> Option<Files>
    decreases reads,
{
    match step {
        ListView::Done(result) => Some(result),
        ListView::ReadDir(walk) => if reads == 0 {
            None
        } else {
            driven(tree, walk.after(tree(walk.dir)), (reads - 1) as nat)
        },
    }
}

/// A listing that has arrived stays where it is: further reads change nothing, and so every
/// complete run over a tree has the same result.
pub proof fn law_listing_is_settled(tree: FileTree, step: ListView, reads: nat, more: nat)
    requires
        driven(tree, step, reads) is Some,
        reads <= more,
    ensures
        driven(tree, step, more) == driven(tree, step, reads),
    decreases reads,
{
    if let ListView::ReadDir(walk) = step {
        law_listing_is_settled(
            tree,
            walk.after(tree(walk.dir)),
            (reads - 1) as nat,
            (more - 1) as nat,
        );
    }
}

proof fn lemma_run_visits(
    tree: FileTree,
    visits: Seq<VisitView>,
    rest: Seq<VisitView>,
    found: Seq<Seq<u8>>,
    depth: nat,
    later: nat,
) -> (reads: nat)
    requires
        visited(tree, visits, depth) is Some,
        visited(tree, visits, depth)->0 is Ok,
        driven(tree, advance(rest, found + visited(tree, visits, depth)->0->Ok_0), later) is Some,
    ensures
        driven(tree, advance(visits + rest, found), reads) == driven(
            tree,
            advance(rest, found + visited(tree, visits, depth)->0->Ok_0),
            later,
        ),
    decreases depth, visits.len(),
{
    let files = visited(tree, visits, depth)->0->Ok_0;
    if visits.len() == 0 {
        assert(visits + rest =~= rest);
        assert(found + files =~= found);
        later
    } else {
        let tail = visits.drop_first();
        let first = visit_files(tree, visits[0], depth)->0->Ok_0;
        let others = visited(tree, tail, depth)->0->Ok_0;
        assert((visits + rest).drop_first() =~= tail + rest);
        assert(found + files =~= (found + first) + others);
        let reads = lemma_run_visits(tree, tail, rest, found + first, depth, later);
        match visits[0] {
            VisitView::Keep(path) => {
                assert(found.push(path) =~= found + first);
                reads
            },
            VisitView::Enter(dir, filter) => {
                let entries = tree(dir)->Entries_0;
                let inner = entries_visits(dir, entries, filter);
                lemma_run_visits(tree, inner, tail + rest, found, (depth - 1) as nat, reads) + 1
            },
            VisitView::Fail(_) => reads,
        }
    }
}

proof fn lemma_run_failing_visits(
    tree: FileTree,
    visits: Seq<VisitView>,
    rest: Seq<VisitView>,
    found: Seq<Seq<u8>>,
    depth: nat,
) -> (reads: nat)
    requires
        visited(tree, visits, depth) is Some,
        visited(tree, visits, depth)->0 is Err,
    ensures
        driven(tree, advance(visits + rest, found), reads) == visited(tree, visits, depth),
    decreases depth, visits.len(),
{
    let tail = visits.drop_first();
    let first = visit_files(tree, visits[0], depth);
    let others = visited(tree, tail, depth);
    assert(visited(tree, visits, depth) == joined(first, others));
    assert((visits + rest).drop_first() =~= tail + rest);
    match visits[0] {
        VisitView::Keep(path) => lemma_run_failing_visits(
            tree,
            tail,
            rest,
            found.push(path),
            depth,
        ),
        VisitView::Fail(_) => 0,
        VisitView::Enter(dir, filter) => match tree(dir) {
            ReplyView::Entries(entries) => {
                let inner = entries_visits(dir, entries, filter);
                let below = visited(tree, inner, (depth - 1) as nat);
                assert(walk(tree, dir, filter, depth) == below);
                if below->0 is Ok {
                    let reads = lemma_run_failing_visits(
                        tree,
                        tail,
                        rest,
                        found + below->0->Ok_0,
                        depth,
                    );
                    lemma_run_visits(tree, inner, tail + rest, found, (depth - 1) as nat, reads) + 1
                } else {
                    lemma_run_failing_visits(tree, inner, tail + rest, found, (depth - 1) as nat)
                        + 1
                }
            },
            _ => {
                let stop = advance(visits + rest, found)->ReadDir_0.after(tree(dir));
                assert(driven(tree, stop, 0) == walk(tree, dir, filter, depth));
                1
            },
        },
    }
}

pub(crate) proof fn lemma_visited_concat(
    tree: FileTree,
    a: Seq<VisitView>,
    b: Seq<VisitView>,
    depth: nat,
)
    ensures
        visited(tree, a + b, depth) == joined(visited(tree, a, depth), visited(tree, b, depth)),
    decreases a.len(),
{
    if a.len() == 0 {
        assert(a + b =~= b);
        if let Some(Ok(files)) = visited(tree, b, depth) {
            assert(Seq::empty() + files =~= files);
        }
    } else {
        assert((a + b).drop_first() =~= a.drop_first() + b);
        lemma_visited_concat(tree, a.drop_first(), b, depth);
        match (visit_files(tree, a[0], depth), visited(tree, a.drop_first(), depth), visited(
            tree,
            b,
            depth,
        )) {
            (Some(Ok(x)), Some(Ok(y)), Some(Ok(z))) => {
                assert(x + (y + z) =~= (x + y) + z);
            },
            _ => {},
        }
    }
}

proof fn lemma_file_visits(tree: FileTree, files: Seq<Seq<u8>>, depth: nat)
    ensures
        visited(tree, file_visits(files), depth) == Some(Ok::<_, ErrorView>(files)),
    decreases files.len(),
{
    if files.len() == 0 {
        assert(files =~= Seq::empty());
    } else {
        assert(file_visits(files).drop_first() =~= file_visits(files.drop_first()));
        lemma_file_visits(tree, files.drop_first(), depth);
        assert(visit_files(tree, file_visits(files)[0], depth) == Some(
            Ok::<_, ErrorView>(seq![files[0]]),
        ));
        assert(seq![files[0]] + files.drop_first() =~= files);
    }
}

pub(crate) proof fn lemma_single_visit(tree: FileTree, visit: VisitView, depth: nat)
    ensures
        visited(tree, seq![visit], depth) == visit_files(tree, visit, depth),
{
    assert(seq![visit].drop_first() =~= Seq::empty());
    assert(visited(tree, seq![visit].drop_first(), depth) == Some(
        Ok::<_, ErrorView>(Seq::<Seq<u8>>::empty()),
    ));
    if let Some(Ok(files)) = visit_files(tree, visit, depth) {
        assert(files + Seq::empty() =~= files);
    }
}

proof fn lemma_source_visits(tree: FileTree, source: BundleSource, depth: nat)
    ensures
        source_files(tree, source, depth) == in_order(
            visited(tree, source_visits(source), depth),
        ),
    decreases source,
{
    match source {
        BundleSource::File(path) => {
            lemma_single_visit(tree, VisitView::Keep(path@), depth);
            assert(ordered(seq![path@]) =~= seq![path@]) by {
                assert(seq![path@].drop_last() =~= Seq::empty());
                assert(ordered(seq![path@].drop_last()) =~= Seq::empty());
            }
        },
        BundleSource::Files(paths) => {
            lemma_file_visits(tree, paths.deep_view(), depth);
        },
        BundleSource::Directory { root, extension } => {
            lemma_single_visit(tree, VisitView::Enter(root@, extension.deep_view()), depth);
        },
        BundleSource::Composite(parts) => {
            lemma_parts_visits(tree, parts@, depth);
        },
    }
}

proof fn lemma_parts_visits(tree: FileTree, parts: Seq<BundleSource>, depth: nat)
    ensures
        in_order(parts_files(tree, parts, depth)) == in_order(
            visited(tree, parts_visits(parts), depth),
        ),
    decreases parts,
{
    if parts.len() > 0 {
        lemma_source_visits(tree, parts[0], depth);
        lemma_parts_visits(tree, parts.drop_first(), depth);
        lemma_visited_concat(
            tree,
            source_visits(parts[0]),
            parts_visits(parts.drop_first()),
            depth,
        );
        match (visited(tree, source_visits(parts[0]), depth), visited(
            tree,
            parts_visits(parts.drop_first()),
            depth,
        )) {
            (Some(Ok(x)), Some(Ok(y))) => {
                let rest = parts_files(tree, parts.drop_first(), depth)->0->Ok_0;
                law_ordered_parts_order_alike(x, y);
                law_ordered_parts_order_alike(ordered(x), rest);
                law_ordered_parts_order_alike(ordered(x), y);
                law_ordered_parts_order_alike(x, rest);
                law_ordered_twice_is_ordered_once(x);
            },
            _ => {},
        }
    }
}

/// The stepwise listing arrives at the files of the source: supplied from a tree, it gives
/// the list, or the error, that the recursion over the tree gives.
pub proof fn law_listing_finds_the_files(tree: FileTree, source: BundleSource, depth: nat) -> (reads:
    nat)
    requires
        source_files(tree, source, depth) is Some,
    ensures
        driven(tree, source.listing(), reads) == source_files(tree, source, depth),
{
    let visits = source_visits(source);
    lemma_source_visits(tree, source, depth);
    assert(visits + Seq::empty() =~= visits);
    match visited(tree, visits, depth) {
        Some(Ok(files)) => {
            assert(Seq::empty() + files =~= files);
            assert(advance(Seq::empty(), files) == ListView::Done(Ok(ordered(files))));
            lemma_run_visits(tree, visits, Seq::empty(), Seq::empty(), depth, 0)
        },
        _ => lemma_run_failing_visits(tree, visits, Seq::empty(), Seq::empty(), depth),
    }
}

proof fn lemma_walk_deeper(
    tree: FileTree,
    dir: Seq<u8>,
    filter: Option<Seq<char>>,
    depth: nat,
    more: nat,
)
    requires
        walk(tree, dir, filter, depth) is Some,
        depth <= more,
    ensures
        walk(tree, dir, filter, more) == walk(tree, dir, filter, depth),
    decreases depth, 0nat,
{
    if let ReplyView::Entries(entries) = tree(dir) {
        lemma_visited_deeper(
            tree,
            entries_visits(dir, entries, filter),
            (depth - 1) as nat,
            (more - 1) as nat,
        );
    }
}

proof fn lemma_visited_deeper(tree: FileTree, visits: Seq<VisitView>, depth: nat, more: nat)
    requires
        visited(tree, visits, depth) is Some,
        depth <= more,
    ensures
        visited(tree, visits, more) == visited(tree, visits, depth),
    decreases depth, 1 + visits.len(),
{
    if visits.len() > 0 {
        let first = visit_files(tree, visits[0], depth);
        if let VisitView::Enter(dir, filter) = visits[0] {
            lemma_walk_deeper(tree, dir, filter, depth, more);
        }
        assert(visit_files(tree, visits[0], more) == first);
        if first->0 is Ok {
            lemma_visited_deeper(tree, visits.drop_first(), depth, more);
        }
    }
}

proof fn lemma_run_back(
    tree: FileTree,
    visits: Seq<VisitView>,
    rest: Seq<VisitView>,
    found: Seq<Seq<u8>>,
    reads: nat,
) -> (later: nat)
    requires
        driven(tree, advance(visits + rest, found), reads) is Some,
    ensures
        visited(tree, visits, reads) is Some,
        match visited(tree, visits, reads)->0 {
            Ok(files) => later <= reads && driven(tree, advance(rest, found + files), later)
                == driven(tree, advance(visits + rest, found), reads),
            Err(error) => driven(tree, advance(visits + rest, found), reads) == Some(
                Err::<Seq<Seq<u8>>, _>(error),
            ),
        },
    decreases reads, visits.len(),
{
    if visits.len() == 0 {
        assert(visits + rest =~= rest);
        assert(found + Seq::empty() =~= found);
        reads
    } else {
        let tail = visits.drop_first();
        let step = advance(visits + rest, found);
        assert((visits + rest).drop_first() =~= tail + rest);
        match visits[0] {
            VisitView::Keep(path) => {
                let later = lemma_run_back(tree, tail, rest, found.push(path), reads);
                assert(visit_files(tree, visits[0], reads) == Some(
                    Ok::<_, ErrorView>(seq![path]),
                ));
                if let Some(Ok(files)) = visited(tree, tail, reads) {
                    assert(found.push(path) + files =~= found + (seq![path] + files));
                }
                later
            },
            VisitView::Fail(error) => {
                assert(visit_files(tree, visits[0], reads) == Some(
                    Err::<Seq<Seq<u8>>, _>(error),
                ));
                0
            },
            VisitView::Enter(dir, filter) => {
                let next = step->ReadDir_0.after(tree(dir));
                assert(driven(tree, next, (reads - 1) as nat) == driven(tree, step, reads));
                let first = walk(tree, dir, filter, reads);
                assert(visit_files(tree, visits[0], reads) == first);
                match tree(dir) {
                    ReplyView::Entries(entries) => {
                        let inner = entries_visits(dir, entries, filter);
                        let later = lemma_run_back(
                            tree,
                            inner,
                            tail + rest,
                            found,
                            (reads - 1) as nat,
                        );
                        if let Some(Ok(files)) = first {
                            let last = lemma_run_back(tree, tail, rest, found + files, later);
                            lemma_visited_deeper(tree, tail, later, reads);
                            if let Some(Ok(others)) = visited(tree, tail, reads) {
                                assert((found + files) + others =~= found + (files + others));
                            }
                            last
                        } else {
                            0
                        }
                    },
                    _ => 0,
                }
            },
        }
    }
}

/// What the stepwise listing arrives at are the files of the source: a run that is supplied
/// from a tree and ends has the list, or the error, that the recursion over the tree gives.
pub proof fn law_listing_finds_nothing_else(tree: FileTree, source: BundleSource, reads: nat)
    requires
        driven(tree, source.listing(), reads) is Some,
    ensures
        source_files(tree, source, reads) == driven(tree, source.listing(), reads),
{
    let visits = source_visits(source);
    lemma_source_visits(tree, source, reads);
    assert(visits + Seq::empty() =~= visits);
    let later = lemma_run_back(tree, visits, Seq::empty(), Seq::empty(), reads);
    if let Some(Ok(files)) = visited(tree, visits, reads) {
        assert(Seq::empty() + files =~= files);
        assert(advance(Seq::empty(), files) == ListView::Done(Ok(ordered(files))));
    }
}

/// Whatever a listing was about to do, a list that it ends with is in order.
pub proof fn law_listed_files_are_in_order(
    pending: Seq<VisitView>,
    found: Seq<Seq<u8>>,
    files: Seq<Seq<u8>>,
)
    requires
        advance(pending, found) == ListView::Done(Ok(files)),
    ensures
        is_ordered(files),
    decreases pending.len(),
{
    if pending.len() == 0 {
        law_ordered_is_a_stable_sort(found);
    } else {
        match pending[0] {
            VisitView::Keep(path) => {
                law_listed_files_are_in_order(pending.drop_first(), found.push(path), files);
            },
            _ => {},
        }
    }
}

/// Whether two trees hold the same: reading a directory gives the same entries in both,
/// perhaps in another order, or the same error.
pub open spec fn same_directories(a: FileTree, b: FileTree) -> bool {
    forall|dir: Seq<u8>| #![trigger a(dir)] #![trigger b(dir)]
        match (a(dir), b(dir)) {
            (ReplyView::Entries(x), ReplyView::Entries(y)) => x.to_multiset() == y.to_multiset(),
            _ => a(dir) == b(dir),
        }
}

proof fn lemma_take_out<A>(list: Seq<A>, item: A) -> (at: int)
    requires
        list.to_multiset().count(item) > 0,
    ensures
        0 <= at < list.len(),
        list == list.take(at) + seq![item] + list.skip(at + 1),
        (list.take(at) + list.skip(at + 1)).to_multiset() == list.to_multiset().remove(item),
{
    broadcast use vstd::seq_lib::group_to_multiset_ensures;

    assert(list.contains(item));
    let at = choose|at: int| 0 <= at < list.len() && list[at] == item;
    assert(list =~= list.take(at) + seq![item] + list.skip(at + 1));
    assert(list.take(at) + list.skip(at + 1) =~= list.remove(at));
    at
}

proof fn lemma_first_out<A>(list: Seq<A>)
    requires
        list.len() > 0,
    ensures
        list.to_multiset().count(list[0]) > 0,
        list.drop_first().to_multiset() == list.to_multiset().remove(list[0]),
{
    broadcast use vstd::seq_lib::group_to_multiset_ensures;

    assert(list.contains(list[0]));
    assert(list.drop_first() =~= list.remove(0));
}

pub(crate) proof fn lemma_entries_concat(
    dir: Seq<u8>,
    a: Seq<EntryView>,
    b: Seq<EntryView>,
    filter: Option<Seq<char>>,
)
    ensures
        entries_visits(dir, a + b, filter) == entries_visits(dir, a, filter) + entries_visits(
            dir,
            b,
            filter,
        ),
    decreases a.len(),
{
    if a.len() == 0 {
        assert(a + b =~= b);
        assert(entries_visits(dir, a, filter) + entries_visits(dir, b, filter)
            =~= entries_visits(dir, b, filter));
    } else {
        assert((a + b).drop_first() =~= a.drop_first() + b);
        lemma_entries_concat(dir, a.drop_first(), b, filter);
        assert(entries_visits(dir, a + b, filter) =~= entries_visits(dir, a, filter)
            + entries_visits(dir, b, filter));
    }
}

proof fn lemma_entries_shuffled(
    dir: Seq<u8>,
    a: Seq<EntryView>,
    b: Seq<EntryView>,
    filter: Option<Seq<char>>,
)
    requires
        a.to_multiset() == b.to_multiset(),
    ensures
        entries_visits(dir, a, filter).to_multiset() == entries_visits(
            dir,
            b,
            filter,
        ).to_multiset(),
    decreases a.len(),
{
    broadcast use vstd::seq_lib::group_to_multiset_ensures;

    assert(a.len() == a.to_multiset().len());
    assert(b.len() == b.to_multiset().len());
    if a.len() == 0 {
        assert(a =~= b);
    } else {
        lemma_first_out(a);
        let at = lemma_take_out(b, a[0]);
        let front = b.take(at);
        let back = b.skip(at + 1);
        lemma_entries_shuffled(dir, a.drop_first(), front + back, filter);
        lemma_entries_concat(dir, front, back, filter);
        lemma_entries_concat(dir, front + seq![a[0]], back, filter);
        lemma_entries_concat(dir, front, seq![a[0]], filter);
        let first = entry_visits(dir, a[0], filter);
        let x = entries_visits(dir, front, filter);
        let y = entries_visits(dir, back, filter);
        assert(seq![a[0]].drop_first() =~= Seq::empty());
        assert(entries_visits(dir, seq![a[0]].drop_first(), filter) =~= Seq::empty());
        assert(entries_visits(dir, seq![a[0]], filter) =~= first);
        lemma_multiset_commutative(first, entries_visits(dir, a.drop_first(), filter));
        lemma_multiset_commutative(x, y);
        lemma_multiset_commutative(x + first, y);
        lemma_multiset_commutative(x, first);
        assert(entries_visits(dir, a, filter).to_multiset() =~= entries_visits(
            dir,
            b,
            filter,
        ).to_multiset());
    }
}

proof fn lemma_walk_shuffled(
    a: FileTree,
    b: FileTree,
    dir: Seq<u8>,
    filter: Option<Seq<char>>,
    depth: nat,
)
    requires
        same_directories(a, b),
        walk(a, dir, filter, depth) is Some,
        walk(a, dir, filter, depth)->0 is Ok,
    ensures
        walk(b, dir, filter, depth) is Some,
        walk(b, dir, filter, depth)->0 is Ok,
        walk(b, dir, filter, depth)->0->Ok_0.to_multiset() == walk(
            a,
            dir,
            filter,
            depth,
        )->0->Ok_0.to_multiset(),
    decreases depth, 0nat,
{
    let x = a(dir)->Entries_0;
    let y = b(dir)->Entries_0;
    assert(b(dir) is Entries && x.to_multiset() == y.to_multiset());
    lemma_entries_shuffled(dir, x, y, filter);
    lemma_visited_shuffled(
        a,
        b,
        entries_visits(dir, x, filter),
        entries_visits(dir, y, filter),
        (depth - 1) as nat,
    );
}

proof fn lemma_visited_shuffled(
    a: FileTree,
    b: FileTree,
    x: Seq<VisitView>,
    y: Seq<VisitView>,
    depth: nat,
)
    requires
        same_directories(a, b),
        x.to_multiset() == y.to_multiset(),
        visited(a, x, depth) is Some,
        visited(a, x, depth)->0 is Ok,
    ensures
        visited(b, y, depth) is Some,
        visited(b, y, depth)->0 is Ok,
        visited(b, y, depth)->0->Ok_0.to_multiset() == visited(
            a,
            x,
            depth,
        )->0->Ok_0.to_multiset(),
    decreases depth, 1 + x.len(),
{
    broadcast use vstd::seq_lib::group_to_multiset_ensures;

    assert(x.len() == x.to_multiset().len());
    assert(y.len() == y.to_multiset().len());
    if x.len() == 0 {
    } else {
        let first_a = visit_files(a, x[0], depth);
        let first_b = visit_files(b, x[0], depth);
        assert(first_a is Some && first_a->0 is Ok);
        if let VisitView::Enter(dir, filter) = x[0] {
            lemma_walk_shuffled(a, b, dir, filter, depth);
        }
        assert(first_b is Some && first_b->0 is Ok);
        assert(first_b->0->Ok_0.to_multiset() == first_a->0->Ok_0.to_multiset());
        lemma_first_out(x);
        let at = lemma_take_out(y, x[0]);
        let front = y.take(at);
        let back = y.skip(at + 1);
        lemma_visited_shuffled(a, b, x.drop_first(), front + back, depth);
        lemma_visited_concat(b, front, back, depth);
        lemma_visited_concat(b, front + seq![x[0]], back, depth);
        lemma_visited_concat(b, front, seq![x[0]], depth);
        lemma_single_visit(b, x[0], depth);
        let p = visited(b, front, depth)->0->Ok_0;
        let q = visited(b, back, depth)->0->Ok_0;
        lemma_multiset_commutative(first_a->0->Ok_0, visited(a, x.drop_first(), depth)->0->Ok_0);
        lemma_multiset_commutative(p, q);
        lemma_multiset_commutative(p + first_b->0->Ok_0, q);
        lemma_multiset_commutative(p, first_b->0->Ok_0);
        assert(visited(b, y, depth)->0->Ok_0.to_multiset() =~= visited(
            a,
            x,
            depth,
        )->0->Ok_0.to_multiset());
    }
}

proof fn lemma_same_files_same_order(p: Seq<Seq<u8>>, q: Seq<Seq<u8>>)
    requires
        p.to_multiset() == q.to_multiset(),
    ensures
        ordered(p).to_multiset() == ordered(q).to_multiset(),
        ({
            let x = ordered(p);
            (forall|i: int, j: int|
                0 <= i < x.len() && 0 <= j < x.len() && ties(#[trigger] x[i], #[trigger] x[j])
                    ==> x[i] == x[j]) ==> x == ordered(q)
        }),
{
    law_ordered_is_a_stable_sort(p);
    law_ordered_is_a_stable_sort(q);
    law_ordered_twice_is_ordered_once(p);
    law_ordered_twice_is_ordered_once(q);
    let x = ordered(p);
    if forall|i: int, j: int|
        0 <= i < x.len() && 0 <= j < x.len() && ties(#[trigger] x[i], #[trigger] x[j]) ==> x[i]
            == x[j] {
        law_order_ignores_listing(x, ordered(q));
    }
}

/// The list of a source does not depend on the order in which directories give their
/// entries: two trees that hold the same give the same files, and where no two different
/// files tie in the order of paths, the same list.
pub proof fn law_listing_ignores_directory_order(
    a: FileTree,
    b: FileTree,
    source: BundleSource,
    depth: nat,
)
    requires
        same_directories(a, b),
        source_files(a, source, depth) is Some,
        source_files(a, source, depth)->0 is Ok,
    ensures
        source_files(b, source, depth) is Some,
        source_files(b, source, depth)->0 is Ok,
        ({
            let x = source_files(a, source, depth)->0->Ok_0;
            let y = source_files(b, source, depth)->0->Ok_0;
            &&& x.to_multiset() == y.to_multiset()
            &&& (forall|i: int, j: int|
                0 <= i < x.len() && 0 <= j < x.len() && ties(#[trigger] x[i], #[trigger] x[j])
                    ==> x[i] == x[j]) ==> x == y
        }),
{
    let visits = source_visits(source);
    lemma_source_visits(a, source, depth);
    lemma_source_visits(b, source, depth);
    lemma_visited_shuffled(a, b, visits, visits, depth);
    let p = visited(a, visits, depth)->0->Ok_0;
    let q = visited(b, visits, depth)->0->Ok_0;
    lemma_same_files_same_order(p, q);
}

/// Whether a visit only finds files that pass a filter.
spec fn filtered(visit: VisitView, filter: Option<Seq<char>>) -> bool {
    match visit {
        VisitView::Keep(path) => matches_extension(path, filter),
        VisitView::Enter(_, other) => other == filter,
        VisitView::Fail(_) => true,
    }
}

proof fn lemma_entries_filtered(dir: Seq<u8>, entries: Seq<EntryView>, filter: Option<Seq<char>>)
    ensures
        forall|i: int|
            0 <= i < entries_visits(dir, entries, filter).len() ==> filtered(
                #[trigger] entries_visits(dir, entries, filter)[i],
                filter,
            ),
    decreases entries.len(),
{
    if entries.len() > 0 {
        let first = entry_visits(dir, entries[0], filter);
        let rest = entries_visits(dir, entries.drop_first(), filter);
        lemma_entries_filtered(dir, entries.drop_first(), filter);
        assert forall|i: int| 0 <= i < (first + rest).len() implies filtered(
            #[trigger] (first + rest)[i],
            filter,
        ) by {
            if i >= first.len() {
                assert(filtered(rest[i - first.len()], filter));
            }
        }
    }
}

proof fn lemma_visited_filtered(
    tree: FileTree,
    visits: Seq<VisitView>,
    filter: Option<Seq<char>>,
    depth: nat,
)
    requires
        visited(tree, visits, depth) is Some,
        visited(tree, visits, depth)->0 is Ok,
        forall|i: int| 0 <= i < visits.len() ==> filtered(#[trigger] visits[i], filter),
    ensures
        forall|i: int|
            0 <= i < visited(tree, visits, depth)->0->Ok_0.len() ==> matches_extension(
                #[trigger] visited(tree, visits, depth)->0->Ok_0[i],
                filter,
            ),
    decreases depth, visits.len(),
{
    if visits.len() > 0 {
        let first = visit_files(tree, visits[0], depth)->0->Ok_0;
        assert(filtered(visits[0], filter));
        lemma_visited_filtered(tree, visits.drop_first(), filter, depth);
        if let VisitView::Enter(dir, _) = visits[0] {
            law_directory_lists_only_its_extension(tree, dir, filter, depth);
        }
        assert(forall|i: int|
            0 <= i < first.len() ==> matches_extension(#[trigger] first[i], filter));
    }
}

/// Every file that is found below a directory passes the extension filter.
pub proof fn law_directory_lists_only_its_extension(
    tree: FileTree,
    dir: Seq<u8>,
    filter: Option<Seq<char>>,
    depth: nat,
)
    requires
        walk(tree, dir, filter, depth) is Some,
        walk(tree, dir, filter, depth)->0 is Ok,
    ensures
        forall|i: int|
            0 <= i < walk(tree, dir, filter, depth)->0->Ok_0.len() ==> matches_extension(
                #[trigger] walk(tree, dir, filter, depth)->0->Ok_0[i],
                filter,
            ),
    decreases depth, 0nat,
{
    let entries = tree(dir)->Entries_0;
    lemma_entries_filtered(dir, entries, filter);
    lemma_visited_filtered(
        tree,
        entries_visits(dir, entries, filter),
        filter,
        (depth - 1) as nat,
    );
}

/// Naming files one by one takes no directory: a file lists as itself, and a list of files
/// in order.
pub proof fn law_named_files_are_listed_at_once(source: BundleSource)
    ensures
        source matches BundleSource::File(path) ==> source.listing() == ListView::Done(
            Ok(seq![path@]),
        ),
        source matches BundleSource::Files(paths) ==> source.listing() == ListView::Done(
            Ok(ordered(paths.deep_view())),
        ),
{
    let tree: FileTree = |dir: Seq<u8>| ReplyView::NotADirectory;
    lemma_source_visits(tree, source, 0);
    let visits = source_visits(source);
    assert(visits + Seq::empty() =~= visits);
    match source {
        BundleSource::File(path) => {
            lemma_single_visit(tree, VisitView::Keep(path@), 0);
            assert(visits.drop_first() =~= Seq::empty());
            assert(Seq::empty().push(path@) =~= seq![path@]);
            assert(advance(visits.drop_first(), seq![path@]) == ListView::Done(
                Ok(ordered(seq![path@])),
            ));
        },
        BundleSource::Files(paths) => {
            lemma_advance_files(paths.deep_view(), Seq::empty());
            assert(Seq::empty() + paths.deep_view() =~= paths.deep_view());
        },
        _ => {},
    }
}

proof fn lemma_advance_files(files: Seq<Seq<u8>>, found: Seq<Seq<u8>>)
    ensures
        advance(file_visits(files), found) == ListView::Done(Ok(ordered(found + files))),
    decreases files.len(),
{
    if files.len() == 0 {
        assert(found + files =~= found);
    } else {
        assert(file_visits(files).drop_first() =~= file_visits(files.drop_first()));
        lemma_advance_files(files.drop_first(), found.push(files[0]));
        assert(found.push(files[0]) + files.drop_first() =~= found + files);
    }
}

proof fn lemma_parts_concat(
    tree: FileTree,
    xs: Seq<BundleSource>,
    ys: Seq<BundleSource>,
    depth: nat,
)
    ensures
        parts_files(tree, xs + ys, depth) == joined(
            parts_files(tree, xs, depth),
            parts_files(tree, ys, depth),
        ),
    decreases xs.len(),
{
    if xs.len() == 0 {
        assert(xs + ys =~= ys);
        if let Some(Ok(files)) = parts_files(tree, ys, depth) {
            assert(Seq::empty() + files =~= files);
        }
    } else {
        assert((xs + ys).drop_first() =~= xs.drop_first() + ys);
        lemma_parts_concat(tree, xs.drop_first(), ys, depth);
        match (
            source_files(tree, xs[0], depth),
            parts_files(tree, xs.drop_first(), depth),
            parts_files(tree, ys, depth),
        ) {
            (Some(Ok(x)), Some(Ok(y)), Some(Ok(z))) => {
                assert(x + (y + z) =~= (x + y) + z);
            },
            _ => {},
        }
    }
}

pub(crate) proof fn lemma_single_part(tree: FileTree, source: BundleSource, depth: nat)
    ensures
        parts_files(tree, seq![source], depth) == source_files(tree, source, depth),
        in_order(source_files(tree, source, depth)) == source_files(tree, source, depth),
{
    let parts = seq![source];
    assert(parts.drop_first() =~= Seq::empty());
    assert(parts_files(tree, parts.drop_first(), depth) == Some(
        Ok::<_, ErrorView>(Seq::<Seq<u8>>::empty()),
    ));
    if let Some(Ok(files)) = source_files(tree, source, depth) {
        assert(files + Seq::empty() =~= files);
    }
    lemma_source_visits(tree, source, depth);
    if let Some(Ok(files)) = visited(tree, source_visits(source), depth) {
        law_ordered_twice_is_ordered_once(files);
    }
}

/// A composite of two lists of parts lists the files of the two composites as one list in order;
/// the first error counts. Without parts it lists nothing, and with one part what that part
/// lists.
pub proof fn law_composite_joins_its_parts(
    tree: FileTree,
    xs: Vec<BundleSource>,
    ys: Vec<BundleSource>,
    whole: Vec<BundleSource>,
    depth: nat,
)
    requires
        whole@ == xs@ + ys@,
    ensures
        source_files(tree, BundleSource::Composite(whole), depth) == in_order(
            joined(
                source_files(tree, BundleSource::Composite(xs), depth),
                source_files(tree, BundleSource::Composite(ys), depth),
            ),
        ),
        xs@.len() == 0 ==> source_files(tree, BundleSource::Composite(xs), depth) == Some(
            Ok::<_, ErrorView>(Seq::<Seq<u8>>::empty()),
        ),
        xs@.len() == 1 ==> source_files(tree, BundleSource::Composite(xs), depth) == source_files(
            tree,
            xs@[0],
            depth,
        ),
{
    lemma_parts_concat(tree, xs@, ys@, depth);
    match (parts_files(tree, xs@, depth), parts_files(tree, ys@, depth)) {
        (Some(Ok(x)), Some(Ok(y))) => {
            law_ordered_parts_order_alike(x, y);
        },
        _ => {},
    }
    if xs@.len() == 1 {
        assert(xs@ =~= seq![xs@[0]]);
        lemma_single_part(tree, xs@[0], depth);
    }
}

/// Nesting changes nothing: a composite of two composites lists what one composite of all their
/// parts lists.
pub proof fn law_nested_composite_lists_alike(
    tree: FileTree,
    xs: Vec<BundleSource>,
    ys: Vec<BundleSource>,
    whole: Vec<BundleSource>,
    nested: Vec<BundleSource>,
    depth: nat,
)
    requires
        whole@ == xs@ + ys@,
        nested@ == seq![BundleSource::Composite(xs), BundleSource::Composite(ys)],
    ensures
        source_files(tree, BundleSource::Composite(nested), depth) == source_files(
            tree,
            BundleSource::Composite(whole),
            depth,
        ),
{
    let x = BundleSource::Composite(xs);
    let y = BundleSource::Composite(ys);
    law_composite_joins_its_parts(tree, xs, ys, whole, depth);
    assert(nested@ =~= seq![x] + seq![y]);
    lemma_parts_concat(tree, seq![x], seq![y], depth);
    lemma_single_part(tree, x, depth);
    lemma_single_part(tree, y, depth);
}

proof fn lemma_parts_visits_concat(a: Seq<BundleSource>, b: Seq<BundleSource>)
    ensures
        parts_visits(a + b) == parts_visits(a) + parts_visits(b),
    decreases a.len(),
{
    if a.len() == 0 {
        assert(a + b =~= b);
        assert(parts_visits(a) + parts_visits(b) =~= parts_visits(b));
    } else {
        assert((a + b).drop_first() =~= a.drop_first() + b);
        lemma_parts_visits_concat(a.drop_first(), b);
        assert(parts_visits(a + b) =~= parts_visits(a) + parts_visits(b));
    }
}

proof fn lemma_parts_shuffled(a: Seq<BundleSource>, b: Seq<BundleSource>)
    requires
        a.to_multiset() == b.to_multiset(),
    ensures
        parts_visits(a).to_multiset() == parts_visits(b).to_multiset(),
    decreases a.len(),
{
    broadcast use vstd::seq_lib::group_to_multiset_ensures;

    assert(a.len() == a.to_multiset().len());
    assert(b.len() == b.to_multiset().len());
    if a.len() == 0 {
        assert(a =~= b);
    } else {
        lemma_first_out(a);
        let at = lemma_take_out(b, a[0]);
        let front = b.take(at);
        let back = b.skip(at + 1);
        lemma_parts_shuffled(a.drop_first(), front + back);
        lemma_parts_visits_concat(front, back);
        lemma_parts_visits_concat(front + seq![a[0]], back);
        lemma_parts_visits_concat(front, seq![a[0]]);
        let first = source_visits(a[0]);
        let x = parts_visits(front);
        let y = parts_visits(back);
        assert(seq![a[0]].drop_first() =~= Seq::empty());
        assert(parts_visits(seq![a[0]].drop_first()) =~= Seq::empty());
        assert(parts_visits(seq![a[0]]) =~= first);
        lemma_multiset_commutative(first, parts_visits(a.drop_first()));
        lemma_multiset_commutative(x, y);
        lemma_multiset_commutative(x + first, y);
        lemma_multiset_commutative(x, first);
        assert(parts_visits(a).to_multiset() =~= parts_visits(b).to_multiset());
    }
}

/// The order of the parts of a composite does not matter: two composites of the same parts list
/// the same files, and where no two different files tie in the order of paths, the same list.
pub proof fn law_composite_ignores_the_order_of_parts(
    tree: FileTree,
    xs: Vec<BundleSource>,
    ys: Vec<BundleSource>,
    depth: nat,
)
    requires
        xs@.to_multiset() == ys@.to_multiset(),
        source_files(tree, BundleSource::Composite(xs), depth) is Some,
        source_files(tree, BundleSource::Composite(xs), depth)->0 is Ok,
    ensures
        source_files(tree, BundleSource::Composite(ys), depth) is Some,
        source_files(tree, BundleSource::Composite(ys), depth)->0 is Ok,
        ({
            let x = source_files(tree, BundleSource::Composite(xs), depth)->0->Ok_0;
            let y = source_files(tree, BundleSource::Composite(ys), depth)->0->Ok_0;
            &&& x.to_multiset() == y.to_multiset()
            &&& (forall|i: int, j: int|
                0 <= i < x.len() && 0 <= j < x.len() && ties(#[trigger] x[i], #[trigger] x[j])
                    ==> x[i] == x[j]) ==> x == y
        }),
{
    lemma_parts_shuffled(xs@, ys@);
    lemma_source_visits(tree, BundleSource::Composite(xs), depth);
    lemma_source_visits(tree, BundleSource::Composite(ys), depth);
    lemma_visited_shuffled(tree, tree, parts_visits(xs@), parts_visits(ys@), depth);
    lemma_same_files_same_order(
        visited(tree, parts_visits(xs@), depth)->0->Ok_0,
        visited(tree, parts_visits(ys@), depth)->0->Ok_0,
    );
}

} // verus!
