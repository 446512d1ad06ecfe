//! What the listing of a source gives, in terms of what reading its directories gives.

use vstd::prelude::*;

use crate::error::{ErrorView, ReloadError};
use crate::order::law_ordered_is_a_stable_sort;
use crate::path::{lossy_utf8, matches_extension, path_le, BundlePath};
use crate::source::{
    entries_visits, entry_visits, BundleSource, DirEntry, DirReply, DirWalk, EntryView, ListStep,
    ListView, ReplyView, VisitView,
};
use crate::tree::{
    driven, law_composite_joins_its_parts, law_listing_finds_nothing_else,
    law_named_files_are_listed_at_once, lemma_entries_concat, lemma_single_part,
    lemma_single_visit, lemma_visited_concat, source_files, visit_files, visited, walk, FileTree,
};

verus! {

/// What contracts say of the reply to reading a directory, they say of the paths and messages
/// that it holds, entry by entry.
pub proof fn law_reply_views_show_the_entries(
    path: BundlePath,
    error: String,
    entries: Vec<DirEntry>,
)
    ensures
        DirEntry::Dir(path).deep_view() == EntryView::Dir(path.bytes@),
        DirEntry::File(path).deep_view() == EntryView::File(path.bytes@),
        DirEntry::Unreadable(error).deep_view() == EntryView::Unreadable(error@),
        DirReply::NotADirectory@ == ReplyView::NotADirectory,
        DirReply::Unreadable(error)@ == ReplyView::Unreadable(error@),
        DirReply::Entries(entries)@ is Entries,
        DirReply::Entries(entries)@->Entries_0.len() == entries@.len(),
        forall|i: int|
            0 <= i < entries@.len() ==> #[trigger] DirReply::Entries(entries)@->Entries_0[i]
                == entries@[i].deep_view(),
{
}

/// What contracts say of a listing, they say of the directory that it waits for, of the bytes of
/// the paths that it gives in their order, or of the error that it met.
pub proof fn law_list_views_show_the_files(
    walk: DirWalk,
    files: Vec<BundlePath>,
    error: ReloadError,
    i: int,
)
    ensures
        ListStep::ReadDir(walk)@ == ListView::ReadDir(walk@),
        ListStep::Done(Err(error))@ == ListView::Done(Err(error@)),
        ListStep::Done(Ok(files))@ is Done,
        ListStep::Done(Ok(files))@->Done_0 is Ok,
        ListStep::Done(Ok(files))@->Done_0->Ok_0.len() == files@.len(),
        0 <= i < files@.len() ==> ListStep::Done(Ok(files))@->Done_0->Ok_0[i] == files@[i].bytes@,
{
}

/// Whether an entry of a directory can be listed: it can be read, and if it is a directory, the
/// files below it can be listed.
pub open spec fn can_be_listed(
    tree: FileTree,
    entry: EntryView,
    filter: Option<Seq<char>>,
    depth: nat,
) -> bool {
    match entry {
        EntryView::File(_) => true,
        EntryView::Dir(dir) => walk(tree, dir, filter, depth) is Some && walk(
            tree,
            dir,
            filter,
            depth,
        )->0 is Ok,
        EntryView::Unreadable(_) => false,
    }
}

/// The files that the entries of a directory give one after the other: a file itself if it
/// passes the filter, a directory the files below it.
pub open spec fn met(
    tree: FileTree,
    entries: Seq<EntryView>,
    filter: Option<Seq<char>>,
    depth: nat,
) -> Seq<Seq<u8>>
    decreases entries.len(),
{
    if entries.len() == 0 {
        Seq::empty()
    } else {
        let before = met(tree, entries.drop_last(), filter, depth);
        match entries.last() {
            EntryView::File(path) => if matches_extension(path, filter) {
                before.push(path)
            } else {
                before
            },
            EntryView::Dir(dir) => before + walk(tree, dir, filter, depth)->0->Ok_0,
            EntryView::Unreadable(_) => before,
        }
    }
}

proof fn lemma_one_entry(
    tree: FileTree,
    dir: Seq<u8>,
    entry: EntryView,
    filter: Option<Seq<char>>,
    depth: nat,
)
    ensures
        entries_visits(dir, seq![entry], filter) == entry_visits(dir, entry, filter),
        match entry {
            EntryView::File(path) => visited(tree, entry_visits(dir, entry, filter), depth) == Some(
                Ok::<_, ErrorView>(
                    if matches_extension(path, filter) {
                        seq![path]
                    } else {
                        Seq::empty()
                    },
                ),
            ),
            EntryView::Dir(below) => visited(tree, entry_visits(dir, entry, filter), depth) == walk(
                tree,
                below,
                filter,
                depth,
            ),
            EntryView::Unreadable(error) => visited(tree, entry_visits(dir, entry, filter), depth)
                == Some(
                Err::<Seq<Seq<u8>>, _>(ErrorView::Io { path: lossy_utf8(dir), error }),
            ),
        },
{
    assert(seq![entry].drop_first() =~= Seq::empty());
    assert(entries_visits(dir, seq![entry].drop_first(), filter) =~= Seq::empty());
    assert(entries_visits(dir, seq![entry], filter) =~= entry_visits(dir, entry, filter));
    match entry {
        EntryView::File(path) => {
            lemma_single_visit(tree, VisitView::Keep(path), depth);
            assert(visit_files(tree, VisitView::Keep(path), depth) == Some(
                Ok::<_, ErrorView>(seq![path]),
            ));
        },
        EntryView::Dir(below) => {
            lemma_single_visit(tree, VisitView::Enter(below, filter), depth);
            assert(visit_files(tree, VisitView::Enter(below, filter), depth) == walk(
                tree,
                below,
                filter,
                depth,
            ));
        },
        EntryView::Unreadable(error) => {
            let failed = ErrorView::Io { path: lossy_utf8(dir), error };
            lemma_single_visit(tree, VisitView::Fail(failed), depth);
            assert(visit_files(tree, VisitView::Fail(failed), depth) == Some(
                Err::<Seq<Seq<u8>>, _>(failed),
            ));
        },
    }
}

proof fn lemma_listed_entries(
    tree: FileTree,
    dir: Seq<u8>,
    entries: Seq<EntryView>,
    filter: Option<Seq<char>>,
    depth: nat,
)
    requires
        forall|i: int|
            0 <= i < entries.len() ==> can_be_listed(tree, #[trigger] entries[i], filter, depth),
    ensures
        visited(tree, entries_visits(dir, entries, filter), depth) == Some(
            Ok::<_, ErrorView>(met(tree, entries, filter, depth)),
        ),
    decreases entries.len(),
{
    if entries.len() > 0 {
        let short = entries.drop_last();
        let last = entries.last();
        assert forall|i: int| 0 <= i < short.len() implies can_be_listed(
            tree,
            #[trigger] short[i],
            filter,
            depth,
        ) by {
            assert(short[i] == entries[i]);
        }
        lemma_listed_entries(tree, dir, short, filter, depth);
        assert(entries =~= short + seq![last]);
        lemma_entries_concat(dir, short, seq![last], filter);
        lemma_one_entry(tree, dir, last, filter, depth);
        lemma_visited_concat(
            tree,
            entries_visits(dir, short, filter),
            entry_visits(dir, last, filter),
            depth,
        );
        assert(can_be_listed(tree, entries[entries.len() - 1], filter, depth));
        let before = met(tree, short, filter, depth);
        match last {
            EntryView::File(path) => {
                assert(before + seq![path] =~= before.push(path));
                assert(before + Seq::empty() =~= before);
            },
            _ => {},
        }
    }
}

proof fn lemma_failing_entry(
    tree: FileTree,
    dir: Seq<u8>,
    entries: Seq<EntryView>,
    filter: Option<Seq<char>>,
    depth: nat,
    i: int,
)
    requires
        0 <= i < entries.len(),
        forall|j: int|
            0 <= j < i ==> can_be_listed(tree, #[trigger] entries[j], filter, depth),
        !can_be_listed(tree, entries[i], filter, depth),
    ensures
        visited(tree, entries_visits(dir, entries, filter), depth) == match entries[i] {
            EntryView::Dir(below) => walk(tree, below, filter, depth),
            EntryView::Unreadable(error) => Some(
                Err::<Seq<Seq<u8>>, _>(ErrorView::Io { path: lossy_utf8(dir), error }),
            ),
            EntryView::File(_) => None,
        },
{
    let front = entries.take(i);
    let rest = entries.skip(i + 1);
    assert forall|j: int| 0 <= j < front.len() implies can_be_listed(
        tree,
        #[trigger] front[j],
        filter,
        depth,
    ) by {
        assert(front[j] == entries[j]);
    }
    lemma_listed_entries(tree, dir, front, filter, depth);
    assert(entries =~= front + (seq![entries[i]] + rest));
    lemma_entries_concat(dir, front, seq![entries[i]] + rest, filter);
    lemma_entries_concat(dir, seq![entries[i]], rest, filter);
    lemma_one_entry(tree, dir, entries[i], filter, depth);
    lemma_visited_concat(
        tree,
        entries_visits(dir, front, filter),
        entries_visits(dir, seq![entries[i]] + rest, filter),
        depth,
    );
    lemma_visited_concat(
        tree,
        entry_visits(dir, entries[i], filter),
        entries_visits(dir, rest, filter),
        depth,
    );
}

/// The walk of a directory fails where there is no directory, where it cannot be read, and at
/// the first of its entries that cannot be listed, with the error of that; otherwise it gives
/// the files that its entries give one after the other.
pub proof fn law_walk_goes_entry_by_entry(
    tree: FileTree,
    dir: Seq<u8>,
    filter: Option<Seq<char>>,
    depth: nat,
    i: int,
)
    ensures
        tree(dir) is NotADirectory ==> walk(tree, dir, filter, depth + 1) == Some(
            Err::<Seq<Seq<u8>>, _>(
                ErrorView::Io { path: lossy_utf8(dir), error: "not a directory"@ },
            ),
        ),
        tree(dir) matches ReplyView::Unreadable(error) ==> walk(tree, dir, filter, depth + 1)
            == Some(Err::<Seq<Seq<u8>>, _>(ErrorView::Io { path: lossy_utf8(dir), error })),
        tree(dir) matches ReplyView::Entries(entries) ==> 0 <= i <= entries.len() && (forall|
            j: int,
        |
            0 <= j < i ==> can_be_listed(tree, #[trigger] entries[j], filter, depth)) ==> {
            &&& i == entries.len() ==> walk(tree, dir, filter, depth + 1) == Some(
                Ok::<_, ErrorView>(met(tree, entries, filter, depth)),
            )
            &&& i < entries.len() ==> match entries[i] {
                EntryView::Unreadable(error) => walk(tree, dir, filter, depth + 1) == Some(
                    Err::<Seq<Seq<u8>>, _>(ErrorView::Io { path: lossy_utf8(dir), error }),
                ),
                EntryView::Dir(below) => walk(tree, below, filter, depth) matches Some(Err(error))
                    ==> walk(tree, dir, filter, depth + 1) == Some(Err::<Seq<Seq<u8>>, _>(error)),
                EntryView::File(_) => true,
            }
        },
{
    if let ReplyView::Entries(entries) = tree(dir) {
        if 0 <= i <= entries.len() && (forall|j: int|
            0 <= j < i ==> can_be_listed(tree, #[trigger] entries[j], filter, depth)) {
            assert(walk(tree, dir, filter, depth + 1) == visited(
                tree,
                entries_visits(dir, entries, filter),
                depth,
            ));
            if i == entries.len() {
                lemma_listed_entries(tree, dir, entries, filter, depth);
            } else if !can_be_listed(tree, entries[i], filter, depth) {
                lemma_failing_entry(tree, dir, entries, filter, depth, i);
            }
        }
    }
}

proof fn lemma_met_holds(
    tree: FileTree,
    entries: Seq<EntryView>,
    filter: Option<Seq<char>>,
    depth: nat,
    i: int,
    file: Seq<u8>,
)
    requires
        0 <= i < entries.len(),
        match entries[i] {
            EntryView::File(path) => path == file && matches_extension(path, filter),
            EntryView::Dir(below) => walk(tree, below, filter, depth)->0->Ok_0.contains(file),
            EntryView::Unreadable(_) => false,
        },
    ensures
        met(tree, entries, filter, depth).contains(file),
    decreases entries.len(),
{
    let before = met(tree, entries.drop_last(), filter, depth);
    let all = met(tree, entries, filter, depth);
    if i < entries.len() - 1 {
        lemma_met_holds(tree, entries.drop_last(), filter, depth, i, file);
        let k = choose|k: int| 0 <= k < before.len() && before[k] == file;
        assert(all[k] == file);
    } else {
        match entries[i] {
            EntryView::File(_) => {
                assert(all[before.len() as int] == file);
            },
            EntryView::Dir(below) => {
                let found = walk(tree, below, filter, depth)->0->Ok_0;
                let k = choose|k: int| 0 <= k < found.len() && found[k] == file;
                assert(all[before.len() + k] == file);
            },
            EntryView::Unreadable(_) => {},
        }
    }
}

/// A walk that gives a list leaves out nothing: the directory and every one of its entries could
/// be read, every file of it that passes the filter is in the list, and for each directory in it
/// the walk of that one gives a list too, every file of which is in the list. The list holds
/// nothing else and nothing twice over: it is what the entries give one after the other.
pub proof fn law_walk_is_complete(
    tree: FileTree,
    dir: Seq<u8>,
    filter: Option<Seq<char>>,
    depth: nat,
    i: int,
    file: Seq<u8>,
)
    requires
        walk(tree, dir, filter, depth) is Some,
        walk(tree, dir, filter, depth)->0 is Ok,
    ensures
        depth > 0,
        tree(dir) is Entries,
        0 <= i < tree(dir)->Entries_0.len() ==> match tree(dir)->Entries_0[i] {
            EntryView::File(path) => matches_extension(path, filter) ==> walk(
                tree,
                dir,
                filter,
                depth,
            )->0->Ok_0.contains(path),
            EntryView::Dir(below) => {
                &&& walk(tree, below, filter, (depth - 1) as nat) is Some
                &&& walk(tree, below, filter, (depth - 1) as nat)->0 is Ok
                &&& walk(tree, below, filter, (depth - 1) as nat)->0->Ok_0.contains(file) ==> walk(
                    tree,
                    dir,
                    filter,
                    depth,
                )->0->Ok_0.contains(file)
            },
            EntryView::Unreadable(_) => false,
        },
        walk(tree, dir, filter, depth)->0->Ok_0 == met(
            tree,
            tree(dir)->Entries_0,
            filter,
            (depth - 1) as nat,
        ),
{
    let entries = tree(dir)->Entries_0;
    let below = (depth - 1) as nat;
    assert(walk(tree, dir, filter, depth) == visited(
        tree,
        entries_visits(dir, entries, filter),
        below,
    ));
    lemma_all_listed(tree, dir, entries, filter, below, entries.len());
    lemma_listed_entries(tree, dir, entries, filter, below);
    if 0 <= i < entries.len() {
        assert(can_be_listed(tree, entries[i], filter, below));
        match entries[i] {
            EntryView::File(path) => {
                if matches_extension(path, filter) {
                    lemma_met_holds(tree, entries, filter, below, i, path);
                }
            },
            EntryView::Dir(inner) => {
                if walk(tree, inner, filter, below)->0->Ok_0.contains(file) {
                    lemma_met_holds(tree, entries, filter, below, i, file);
                }
            },
            EntryView::Unreadable(_) => {},
        }
    }
}

proof fn lemma_all_listed(
    tree: FileTree,
    dir: Seq<u8>,
    entries: Seq<EntryView>,
    filter: Option<Seq<char>>,
    depth: nat,
    count: nat,
)
    requires
        visited(tree, entries_visits(dir, entries, filter), depth) is Some,
        visited(tree, entries_visits(dir, entries, filter), depth)->0 is Ok,
        count <= entries.len(),
    ensures
        forall|j: int|
            0 <= j < count ==> can_be_listed(tree, #[trigger] entries[j], filter, depth),
    decreases count,
{
    if count > 0 {
        lemma_all_listed(tree, dir, entries, filter, depth, (count - 1) as nat);
        if !can_be_listed(tree, entries[count - 1], filter, depth) {
            lemma_failing_entry(tree, dir, entries, filter, depth, count - 1);
        }
    }
}

/// Listing a single file gives that file, and listing several gives each of them as often as it
/// is named, none before one that it does not come before in the order of paths.
pub proof fn law_named_files_are_the_list(tree: FileTree, source: BundleSource, reads: nat)
    ensures
        source matches BundleSource::File(path) ==> driven(tree, source.listing(), reads) == Some(
            Ok::<_, ErrorView>(seq![path.bytes@]),
        ),
        source matches BundleSource::Files(paths) ==> {
            &&& driven(tree, source.listing(), reads) is Some
            &&& driven(tree, source.listing(), reads)->0 is Ok
            &&& driven(tree, source.listing(), reads)->0->Ok_0.to_multiset()
                == paths.deep_view().to_multiset()
            &&& forall|i: int, j: int|
                0 <= i <= j < driven(tree, source.listing(), reads)->0->Ok_0.len() ==> path_le(
                    #[trigger] driven(tree, source.listing(), reads)->0->Ok_0[i],
                    #[trigger] driven(tree, source.listing(), reads)->0->Ok_0[j],
                )
        },
{
    law_named_files_are_listed_at_once(source);
    if let BundleSource::Files(paths) = source {
        law_ordered_is_a_stable_sort(paths.deep_view());
    }
}

/// Listing a directory gives the files that the walk of it gives, each as often, none before one
/// that it does not come before in the order of paths; or the error that the walk meets.
pub proof fn law_directory_listing_is_the_walk(tree: FileTree, source: BundleSource, reads: nat)
    requires
        source is Directory,
        driven(tree, source.listing(), reads) is Some,
    ensures
        ({
            let walked = walk(
                tree,
                source->Directory_root.bytes@,
                source->Directory_extension.deep_view(),
                reads,
            );
            match driven(tree, source.listing(), reads)->0 {
                Err(error) => walked == Some(Err::<Seq<Seq<u8>>, _>(error)),
                Ok(list) => {
                    &&& walked is Some
                    &&& walked->0 is Ok
                    &&& list.to_multiset() == walked->0->Ok_0.to_multiset()
                    &&& forall|i: int, j: int|
                        0 <= i <= j < list.len() ==> path_le(
                            #[trigger] list[i],
                            #[trigger] list[j],
                        )
                },
            }
        }),
{
    law_listing_finds_nothing_else(tree, source, reads);
    let root = source->Directory_root;
    let filter = source->Directory_extension.deep_view();
    if let Some(Ok(files)) = walk(tree, root@, filter, reads) {
        law_ordered_is_a_stable_sort(files);
    }
}

/// A composite of two lists of parts holds the files of both, each as often as the two together,
/// none before one that it does not come before in the order of paths; an error of the first
/// comes before one of the second.
pub proof fn law_composite_adds_up(
    tree: FileTree,
    xs: Vec<BundleSource>,
    ys: Vec<BundleSource>,
    whole: Vec<BundleSource>,
    depth: nat,
)
    requires
        whole@ == xs@ + ys@,
    ensures
        match (
            source_files(tree, BundleSource::Composite(xs), depth),
            source_files(tree, BundleSource::Composite(ys), depth),
            source_files(tree, BundleSource::Composite(whole), depth),
        ) {
            (Some(Ok(x)), Some(Ok(y)), Some(Ok(list))) => {
                &&& list.to_multiset() == x.to_multiset().add(y.to_multiset())
                &&& forall|i: int, j: int|
                    0 <= i <= j < list.len() ==> path_le(#[trigger] list[i], #[trigger] list[j])
            },
            (Some(Err(error)), _, all) => all == Some(Err::<Seq<Seq<u8>>, _>(error)),
            (Some(Ok(_)), Some(Err(error)), all) => all == Some(Err::<Seq<Seq<u8>>, _>(error)),
            (Some(Ok(_)), Some(Ok(_)), _) => false,
            (_, _, all) => all is None,
        },
{
    law_composite_joins_its_parts(tree, xs, ys, whole, depth);
    match (
        source_files(tree, BundleSource::Composite(xs), depth),
        source_files(tree, BundleSource::Composite(ys), depth),
    ) {
        (Some(Ok(x)), Some(Ok(y))) => {
            law_ordered_is_a_stable_sort(x + y);
            vstd::seq_lib::lemma_multiset_commutative(x, y);
        },
        _ => {},
    }
}

/// A composite of one part lists what that part lists, one without parts nothing.
pub proof fn law_composite_of_one_part(
    tree: FileTree,
    parts: Vec<BundleSource>,
    depth: nat,
)
    requires
        parts@.len() <= 1,
    ensures
        parts@.len() == 0 ==> source_files(tree, BundleSource::Composite(parts), depth) == Some(
            Ok::<_, ErrorView>(Seq::<Seq<u8>>::empty()),
        ),
        parts@.len() == 1 ==> source_files(tree, BundleSource::Composite(parts), depth)
            == source_files(tree, parts@[0], depth),
{
    if parts@.len() == 1 {
        assert(parts@ =~= seq![parts@[0]]);
        lemma_single_part(tree, parts@[0], depth);
    }
}

} // verus!
