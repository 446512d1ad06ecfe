//! Where a bundle lives, and the list of its files.
//!
//! Listing the files of a source may take reading directories. The listing is a walk that
//! stops at each directory it has to look into, names it, and goes on with what reading that
//! directory gave.

use vstd::prelude::*;

use crate::error::{ErrorView, ReloadError};
use crate::order::{ordered, sort_paths};
use crate::path::{lossy_utf8, matches_extension, BundlePath};

verus! {

/// Where a bundle lives on disk.
#[derive(Debug)]
pub enum BundleSource {
    /// A single file.
    File(BundlePath),
    /// A fixed list of files.
    Files(Vec<BundlePath>),
    /// The files below a directory, at any depth; with an extension, only those that have it.
    Directory { root: BundlePath, extension: Option<String> },
    /// Several sources whose files make up one bundle.
    Composite(Vec<BundleSource>),
}

/// One entry that reading a directory gave.
#[derive(Debug)]
pub enum DirEntry {
    /// A directory; also a link to one.
    Dir(BundlePath),
    /// Anything else.
    File(BundlePath),
    /// The entry could not be read; the text is the error's message.
    Unreadable(String),
}

/// What reading a directory gave.
#[derive(Debug)]
pub enum DirReply {
    /// There is no directory under that path.
    NotADirectory,
    /// The directory could not be opened; the text is the error's message.
    Unreadable(String),
    /// Its entries, in the order in which they were read.
    Entries(Vec<DirEntry>),
}

/// A [`DirEntry`] by its views.
pub enum EntryView {
    Dir(Seq<u8>),
    File(Seq<u8>),
    Unreadable(Seq<char>),
}

/// A [`DirReply`] by its views.
pub enum ReplyView {
    NotADirectory,
    Unreadable(Seq<char>),
    Entries(Seq<EntryView>),
}

impl DeepView for DirEntry {
    type V = EntryView;

    open spec fn deep_view(&self) -> EntryView {
        match self {
            DirEntry::Dir(path) => EntryView::Dir(path@),
            DirEntry::File(path) => EntryView::File(path@),
            DirEntry::Unreadable(error) => EntryView::Unreadable(error@),
        }
    }
}

impl View for DirReply {
    type V = ReplyView;

    open spec fn view(&self) -> ReplyView {
        match self {
            DirReply::NotADirectory => ReplyView::NotADirectory,
            DirReply::Unreadable(error) => ReplyView::Unreadable(error@),
            DirReply::Entries(entries) => ReplyView::Entries(entries.deep_view()),
        }
    }
}

/// Something that a listing still has to do.
#[derive(Debug)]
enum Visit {
    /// List a file.
    Keep(BundlePath),
    /// Walk a directory with an extension filter.
    Enter(BundlePath, Option<String>),
    /// Fail.
    Fail(ReloadError),
}

/// What a listing still has to do, by its views: list a file, walk a directory with an
/// extension filter, or fail.
pub enum VisitView {
    Keep(Seq<u8>),
    Enter(Seq<u8>, Option<Seq<char>>),
    Fail(ErrorView),
}

impl View for Visit {
    type V = VisitView;

    closed spec fn view(&self) -> VisitView {
        match self {
            Visit::Keep(path) => VisitView::Keep(path@),
            Visit::Enter(path, filter) => VisitView::Enter(path@, filter.deep_view()),
            Visit::Fail(error) => VisitView::Fail(error@),
        }
    }
}

/// The files to list, each without a filter.
pub open spec fn file_visits(files: Seq<Seq<u8>>) -> Seq<VisitView> {
    Seq::new(files.len(), |i: int| VisitView::Keep(files[i]))
}

/// What listing a source takes, in order.
pub open spec fn source_visits(source: BundleSource) -> Seq<VisitView>
    decreases source,
{
    match source {
        BundleSource::File(path) => seq![VisitView::Keep(path@)],
        BundleSource::Files(paths) => file_visits(paths.deep_view()),
        BundleSource::Directory { root, extension } => seq![
            VisitView::Enter(root@, extension.deep_view()),
        ],
        BundleSource::Composite(parts) => parts_visits(parts@),
    }
}

/// What listing several sources takes: one after the other.
pub open spec fn parts_visits(parts: Seq<BundleSource>) -> Seq<VisitView>
    decreases parts,
{
    if parts.len() == 0 {
        Seq::empty()
    } else {
        source_visits(parts[0]) + parts_visits(parts.drop_first())
    }
}

/// The error for a directory that could not be walked.
pub open spec fn walk_error(dir: Seq<u8>, error: Seq<char>) -> ErrorView {
    ErrorView::Io { path: lossy_utf8(dir), error }
}

/// What an entry of a directory calls for: a directory is walked with the same filter, any
/// other entry is listed if it passes the filter, an unreadable one fails the listing.
pub open spec fn entry_visits(
    dir: Seq<u8>,
    entry: EntryView,
    filter: Option<Seq<char>>,
) -> Seq<VisitView> {
    match entry {
        EntryView::Dir(path) => seq![VisitView::Enter(path, filter)],
        EntryView::File(path) => if matches_extension(path, filter) {
            seq![VisitView::Keep(path)]
        } else {
            Seq::empty()
        },
        EntryView::Unreadable(error) => seq![VisitView::Fail(walk_error(dir, error))],
    }
}

/// What the entries of a directory call for, in order.
pub open spec fn entries_visits(
    dir: Seq<u8>,
    entries: Seq<EntryView>,
    filter: Option<Seq<char>>,
) -> Seq<VisitView>
    decreases entries.len(),
{
    if entries.len() == 0 {
        Seq::empty()
    } else {
        entry_visits(dir, entries[0], filter) + entries_visits(dir, entries.drop_first(), filter)
    }
}

/// A listing that waits for a directory: the directory, the filter for its files, what there
/// is to do afterwards, and the files found so far.
pub struct WalkView {
    pub dir: Seq<u8>,
    pub filter: Option<Seq<char>>,
    pub pending: Seq<VisitView>,
    pub found: Seq<Seq<u8>>,
}

/// Where a listing stands: it waits for a directory, or it has its result.
pub enum ListView {
    ReadDir(WalkView),
    Done(Result<Seq<Seq<u8>>, ErrorView>),
}

/// How far a listing gets without reading a directory. It lists files until it has to walk a
/// directory or to fail; with nothing left to do, the files found are brought into order.
pub open spec fn advance(pending: Seq<VisitView>, found: Seq<Seq<u8>>) -> ListView
    decreases pending.len(),
{
    if pending.len() == 0 {
        ListView::Done(Ok(ordered(found)))
    } else {
        match pending[0] {
            VisitView::Keep(path) => advance(pending.drop_first(), found.push(path)),
            VisitView::Enter(dir, filter) => ListView::ReadDir(
                WalkView { dir, filter, pending: pending.drop_first(), found },
            ),
            VisitView::Fail(error) => ListView::Done(Err(error)),
        }
    }
}

impl WalkView {
    /// How the listing goes on with what reading its directory gave.
    pub open spec fn after(self, reply: ReplyView) -> ListView {
        match reply {
            ReplyView::NotADirectory => ListView::Done(
                Err(walk_error(self.dir, "not a directory"@)),
            ),
            ReplyView::Unreadable(error) => ListView::Done(Err(walk_error(self.dir, error))),
            ReplyView::Entries(entries) => advance(
                entries_visits(self.dir, entries, self.filter) + self.pending,
                self.found,
            ),
        }
    }
}

/// A listing that waits for a directory to be read.
#[derive(Debug)]
pub struct DirWalk {
    dir: BundlePath,
    filter: Option<String>,
    /// What there is to do afterwards; the next is last.
    stack: Vec<Visit>,
    found: Vec<BundlePath>,
}

/// What a stack of visits calls for, in the order in which it is done.
closed spec fn upcoming(stack: Seq<Visit>) -> Seq<VisitView> {
    Seq::new(stack.len(), |i: int| stack[stack.len() - 1 - i]@)
}

impl View for DirWalk {
    type V = WalkView;

    closed spec fn view(&self) -> WalkView {
        WalkView {
            dir: self.dir@,
            filter: self.filter.deep_view(),
            pending: upcoming(self.stack@),
            found: self.found.deep_view(),
        }
    }
}

/// A step of a listing.
#[derive(Debug)]
pub enum ListStep {
    /// A directory has to be read: [`DirWalk::dir`] names it, and [`DirWalk::supply`] takes
    /// what reading it gave.
    ReadDir(DirWalk),
    /// The files in order, or the first error met.
    Done(Result<Vec<BundlePath>, ReloadError>),
}

impl View for ListStep {
    type V = ListView;

    open spec fn view(&self) -> ListView {
        match self {
            ListStep::ReadDir(walk) => ListView::ReadDir(walk@),
            ListStep::Done(Ok(files)) => ListView::Done(Ok(files.deep_view())),
            ListStep::Done(Err(error)) => ListView::Done(Err(error@)),
        }
    }
}

proof fn lemma_upcoming_push(stack: Seq<Visit>, visit: Visit)
    ensures
        upcoming(stack.push(visit)) == seq![visit@] + upcoming(stack),
{
    assert(upcoming(stack.push(visit)) =~= seq![visit@] + upcoming(stack));
}

/// A copy of an extension filter.
fn copy_filter(filter: &Option<String>) -> (copy: Option<String>)
    ensures
        copy.deep_view() == filter.deep_view(),
{
    match filter {
        Some(text) => Some(text.clone()),
        None => None,
    }
}

/// The error for a directory that could not be walked, as [`walk_error`] says.
fn fail_walk(dir: &BundlePath, error: String) -> (failure: ReloadError)
    ensures
        failure@ == walk_error(dir@, error@),
{
    ReloadError::Io { path: dir.text(), error }
}

/// A copy of a list of paths.
fn copy_paths(paths: &Vec<BundlePath>) -> (copy: Vec<BundlePath>)
    ensures
        copy.deep_view() == paths.deep_view(),
{
    let mut copy: Vec<BundlePath> = Vec::new();
    let mut i: usize = 0;
    while i < paths.len()
        invariant
            i <= paths.len(),
            copy.deep_view() == paths.deep_view().take(i as int),
        decreases paths.len() - i,
    {
        let path = paths[i].clone();
        let ghost copied = copy.deep_view();
        copy.push(path);
        assert(copy.deep_view() =~= copied.push(path@));
        assert(paths.deep_view()[i as int] == path@);
        i = i + 1;
        assert(copy.deep_view() =~= paths.deep_view().take(i as int));
    }
    assert(copy.deep_view() =~= paths.deep_view());
    copy
}

/// Whether two sources are the same: of one kind, with the same paths, the same extension and
/// the same parts.
pub open spec fn same_source(a: BundleSource, b: BundleSource) -> bool
    decreases a,
{
    match (a, b) {
        (BundleSource::File(x), BundleSource::File(y)) => x@ == y@,
        (BundleSource::Files(x), BundleSource::Files(y)) => x.deep_view() == y.deep_view(),
        (
            BundleSource::Directory { root: x, extension: e },
            BundleSource::Directory { root: y, extension: f },
        ) => x@ == y@ && e.deep_view() == f.deep_view(),
        (BundleSource::Composite(x), BundleSource::Composite(y)) => same_parts(x@, y@),
        _ => false,
    }
}

/// Whether two lists of sources are pairwise the same.
pub open spec fn same_parts(a: Seq<BundleSource>, b: Seq<BundleSource>) -> bool
    decreases a,
{
    if a.len() == 0 {
        b.len() == 0
    } else {
        b.len() > 0 && same_source(a[0], b[0]) && same_parts(a.drop_first(), b.drop_first())
    }
}

proof fn lemma_same_parts_push(
    a: Seq<BundleSource>,
    b: Seq<BundleSource>,
    x: BundleSource,
    y: BundleSource,
)
    requires
        same_parts(a, b),
        same_source(x, y),
    ensures
        same_parts(a.push(x), b.push(y)),
    decreases a.len(),
{
    if a.len() == 0 {
        assert(a.push(x).drop_first() =~= Seq::empty());
        assert(b.push(y).drop_first() =~= Seq::empty());
        assert(same_parts(a.push(x).drop_first(), b.push(y).drop_first()));
    } else {
        assert(a.push(x).drop_first() =~= a.drop_first().push(x));
        assert(b.push(y).drop_first() =~= b.drop_first().push(y));
        lemma_same_parts_push(a.drop_first(), b.drop_first(), x, y);
    }
}

/// Sources that are the same are of one kind and hold the same: the same path, the same paths
/// one by one, the same root and extension, or as many parts that are the same one by one.
pub proof fn law_same_sources_hold_the_same(a: BundleSource, b: BundleSource, i: int)
    requires
        same_source(a, b),
    ensures
        match a {
            BundleSource::File(path) => b is File && b->File_0.bytes@ == path.bytes@,
            BundleSource::Files(paths) => {
                &&& b is Files
                &&& b->Files_0@.len() == paths@.len()
                &&& 0 <= i < paths@.len() ==> b->Files_0@[i].bytes@ == paths@[i].bytes@
            },
            BundleSource::Directory { root, extension } => {
                &&& b is Directory
                &&& b->Directory_root.bytes@ == root.bytes@
                &&& match extension {
                    None => b->Directory_extension is None,
                    Some(text) => b->Directory_extension is Some && b->Directory_extension->0@
                        == text@,
                }
            },
            BundleSource::Composite(parts) => {
                &&& b is Composite
                &&& b->Composite_0@.len() == parts@.len()
                &&& 0 <= i < parts@.len() ==> same_source(parts@[i], b->Composite_0@[i])
            },
        },
{
    match a {
        BundleSource::Files(paths) => {
            let other = b->Files_0;
            assert(paths.deep_view().len() == other.deep_view().len());
            if 0 <= i < paths@.len() {
                assert(paths.deep_view()[i] == paths@[i].bytes@);
                assert(other.deep_view()[i] == other@[i].bytes@);
            }
        },
        BundleSource::Composite(parts) => {
            lemma_same_parts_at(parts@, b->Composite_0@, i);
        },
        _ => {},
    }
}

proof fn lemma_same_parts_at(a: Seq<BundleSource>, b: Seq<BundleSource>, i: int)
    requires
        same_parts(a, b),
    ensures
        a.len() == b.len(),
        0 <= i < a.len() ==> same_source(a[i], b[i]),
    decreases a.len(),
{
    if a.len() > 0 {
        lemma_same_parts_at(a.drop_first(), b.drop_first(), i - 1);
        if i > 0 && i < a.len() {
            assert(a.drop_first()[i - 1] == a[i]);
            assert(b.drop_first()[i - 1] == b[i]);
        }
    }
}

/// Sources that are the same take the same to be listed, and so have the same files and the same
/// fingerprint.
pub proof fn law_same_sources_list_alike(a: BundleSource, b: BundleSource)
    requires
        same_source(a, b),
    ensures
        source_visits(a) == source_visits(b),
        a.listing() == b.listing(),
    decreases a,
{
    if let BundleSource::Composite(x) = a {
        lemma_same_parts_list_alike(x@, b->Composite_0@);
    }
}

proof fn lemma_same_parts_list_alike(a: Seq<BundleSource>, b: Seq<BundleSource>)
    requires
        same_parts(a, b),
    ensures
        parts_visits(a) == parts_visits(b),
    decreases a,
{
    if a.len() > 0 {
        law_same_sources_list_alike(a[0], b[0]);
        lemma_same_parts_list_alike(a.drop_first(), b.drop_first());
    }
}

impl Clone for BundleSource {
    fn clone(&self) -> (copy: Self)
        ensures
            same_source(copy, *self),
        decreases self,
    {
        match self {
            BundleSource::File(path) => BundleSource::File(path.clone()),
            BundleSource::Files(paths) => BundleSource::Files(copy_paths(paths)),
            BundleSource::Directory { root, extension } => BundleSource::Directory {
                root: root.clone(),
                extension: copy_filter(extension),
            },
            BundleSource::Composite(parts) => {
                let mut copies: Vec<BundleSource> = Vec::new();
                let mut i: usize = 0;
                assert(parts@.take(0) =~= copies@);
                while i < parts.len()
                    invariant
                        i <= parts.len(),
                        *self == BundleSource::Composite(*parts),
                        same_parts(copies@, parts@.take(i as int)),
                    decreases parts.len() - i,
                {
                    assert(decreases_to!(*self => self->Composite_0));
                    assert(decreases_to!(self->Composite_0 => self->Composite_0[i as int]));
                    let part = parts[i].clone();
                    proof {
                        lemma_same_parts_push(
                            copies@,
                            parts@.take(i as int),
                            part,
                            parts@[i as int],
                        );
                        assert(parts@.take(i + 1) =~= parts@.take(i as int).push(parts@[i as int]));
                    }
                    copies.push(part);
                    i = i + 1;
                }
                assert(parts@.take(i as int) =~= parts@);
                BundleSource::Composite(copies)
            },
        }
    }
}

/// Stacks what the entries of a directory call for, as [`entries_visits`] says.
fn stack_entries(
    dir: &BundlePath,
    entries: Vec<DirEntry>,
    filter: &Option<String>,
    stack: &mut Vec<Visit>,
)
    ensures
        upcoming(final(stack)@) == entries_visits(
            dir@,
            entries.deep_view(),
            filter.deep_view(),
        ) + upcoming(old(stack)@),
{
    let ghost all = entries.deep_view();
    let ghost below = upcoming(stack@);
    let mut rest = entries;
    assert(all.skip(all.len() as int) =~= Seq::empty());
    assert(upcoming(stack@) =~= entries_visits(dir@, Seq::empty(), filter.deep_view()) + below);
    while rest.len() > 0
        invariant
            rest.len() <= all.len(),
            rest.deep_view() == all.take(rest.len() as int),
            upcoming(stack@) == entries_visits(
                dir@,
                all.skip(rest.len() as int),
                filter.deep_view(),
            ) + below,
        decreases rest.len(),
    {
        let ghost count = rest.len() as int;
        let ghost stacked = stack@;
        if let Some(entry) = rest.pop() {
            assert(all.take(count)[count - 1] == entry.deep_view());
            assert(rest.deep_view() =~= all.take(count - 1));
            assert(all.skip(count - 1)[0] == entry.deep_view());
            assert(all.skip(count - 1).drop_first() =~= all.skip(count));
            match entry {
                DirEntry::Dir(path) => {
                    let visit = Visit::Enter(path, copy_filter(filter));
                    proof {
                        lemma_upcoming_push(stacked, visit);
                    }
                    stack.push(visit);
                },
                DirEntry::File(path) => {
                    if path.matches_extension(filter) {
                        let visit = Visit::Keep(path);
                        proof {
                            lemma_upcoming_push(stacked, visit);
                        }
                        stack.push(visit);
                    }
                },
                DirEntry::Unreadable(error) => {
                    let visit = Visit::Fail(fail_walk(dir, error));
                    proof {
                        lemma_upcoming_push(stacked, visit);
                    }
                    stack.push(visit);
                },
            }
            assert(upcoming(stack@) =~= entries_visits(
                dir@,
                all.skip(count - 1),
                filter.deep_view(),
            ) + below);
        }
    }
    assert(all.skip(0) =~= all);
}

/// Stacks files to be listed.
fn stack_files(files: &Vec<BundlePath>, stack: &mut Vec<Visit>)
    ensures
        upcoming(final(stack)@) == file_visits(files.deep_view()) + upcoming(old(stack)@),
{
    let ghost below = upcoming(stack@);
    let ghost all = file_visits(files.deep_view());
    let mut i: usize = files.len();
    assert(upcoming(stack@) =~= all.skip(i as int) + below);
    while i > 0
        invariant
            i <= files.len(),
            all == file_visits(files.deep_view()),
            upcoming(stack@) == all.skip(i as int) + below,
        decreases i,
    {
        let visit = Visit::Keep(files[i - 1].clone());
        proof {
            lemma_upcoming_push(stack@, visit);
        }
        stack.push(visit);
        assert(all[i - 1] == visit@);
        assert(upcoming(stack@) =~= all.skip(i - 1) + below);
        i = i - 1;
    }
    assert(all.skip(0) =~= all);
}

/// Runs a listing as far as it gets without reading a directory, as [`advance`] says.
fn run(stack: Vec<Visit>, found: Vec<BundlePath>) -> (step: ListStep)
    ensures
        step@ == advance(upcoming(stack@), found.deep_view()),
{
    let mut rest = stack;
    let mut files = found;
    while rest.len() > 0
        invariant
            advance(upcoming(rest@), files.deep_view()) == advance(
                upcoming(stack@),
                found.deep_view(),
            ),
        decreases rest.len(),
    {
        let ghost pending = upcoming(rest@);
        let ghost listed = files.deep_view();
        if let Some(visit) = rest.pop() {
            assert(pending[0] == visit@);
            assert(pending.drop_first() =~= upcoming(rest@));
            match visit {
                Visit::Keep(path) => {
                    files.push(path);
                    assert(files.deep_view() =~= listed.push(path@));
                },
                Visit::Enter(dir, filter) => {
                    return ListStep::ReadDir(DirWalk { dir, filter, stack: rest, found: files });
                },
                Visit::Fail(error) => {
                    return ListStep::Done(Err(error));
                },
            }
        }
    }
    ListStep::Done(Ok(sort_paths(files)))
}

impl BundleSource {
    /// Stacks what listing the source takes, as [`source_visits`] says.
    fn stack(&self, stack: &mut Vec<Visit>)
        ensures
            upcoming(final(stack)@) == source_visits(*self) + upcoming(old(stack)@),
        decreases self,
    {
        match self {
            BundleSource::File(path) => {
                let visit = Visit::Keep(path.clone());
                proof {
                    lemma_upcoming_push(stack@, visit);
                }
                stack.push(visit);
            },
            BundleSource::Files(paths) => {
                stack_files(paths, stack);
            },
            BundleSource::Directory { root, extension } => {
                let visit = Visit::Enter(root.clone(), copy_filter(extension));
                proof {
                    lemma_upcoming_push(stack@, visit);
                }
                stack.push(visit);
            },
            BundleSource::Composite(parts) => {
                let ghost below = upcoming(stack@);
                let mut i: usize = parts.len();
                assert(parts@.skip(i as int) =~= Seq::empty());
                assert(upcoming(stack@) =~= parts_visits(parts@.skip(i as int)) + below);
                while i > 0
                    invariant
                        i <= parts.len(),
                        *self == BundleSource::Composite(*parts),
                        upcoming(stack@) == parts_visits(parts@.skip(i as int)) + below,
                    decreases i,
                {
                    assert(decreases_to!(*self => self->Composite_0));
                    assert(decreases_to!(self->Composite_0 => self->Composite_0[i - 1]));
                    parts[i - 1].stack(stack);
                    assert(parts@.skip(i - 1).drop_first() =~= parts@.skip(i as int));
                    assert(upcoming(stack@) =~= parts_visits(parts@.skip(i - 1)) + below);
                    i = i - 1;
                }
                assert(parts@.skip(0) =~= parts@);
            },
        }
    }

    /// Where the listing of the source stands before any directory is read.
    pub open spec fn listing(self) -> ListView {
        advance(source_visits(self), Seq::empty())
    }

    /// Lists the current files of the source in order. Where directories have to be read, the
    /// listing stops and goes on with what they hold.
    pub fn list_files(&self) -> (step: ListStep)
        ensures
            step@ == self.listing(),
    {
        let mut stack: Vec<Visit> = Vec::new();
        assert(upcoming(stack@) =~= Seq::empty());
        self.stack(&mut stack);
        assert(upcoming(stack@) =~= source_visits(*self));
        let found: Vec<BundlePath> = Vec::new();
        assert(found.deep_view() =~= Seq::empty());
        run(stack, found)
    }
}

impl DirWalk {
    /// The directory that has to be read.
    pub fn dir(&self) -> (dir: &BundlePath)
        ensures
            dir@ == self@.dir,
    {
        &self.dir
    }

    /// Goes on with what reading the directory gave.
    pub fn supply(self, reply: DirReply) -> (step: ListStep)
        ensures
            step@ == self@.after(reply@),
    {
        match reply {
            DirReply::NotADirectory => ListStep::Done(
                Err(fail_walk(&self.dir, "not a directory".to_string())),
            ),
            DirReply::Unreadable(error) => ListStep::Done(Err(fail_walk(&self.dir, error))),
            DirReply::Entries(entries) => {
                let mut stack = self.stack;
                stack_entries(&self.dir, entries, &self.filter, &mut stack);
                run(stack, self.found)
            },
        }
    }
}

} // verus!
