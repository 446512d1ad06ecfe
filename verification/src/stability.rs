//! What the fingerprint of a source means, and what it tells apart.
//!
//! A disk is given by its file tree and by what reading each file gives. The fingerprint of a
//! source on a disk is defined over the list of its files, and the stepwise fingerprinting is
//! shown to arrive at it.

use vstd::prelude::*;
use vstd::utf8::encode_utf8;

use crate::error::ErrorView;
use crate::fingerprint::{
    fingerprint_of, fingerprinting, hashing, header, hex, hex_digit, preimage, sha256,
    FingerprintView,
};
use crate::order::ties;
use crate::path::lossy_utf8;
use crate::source::{BundleSource, ListView};
use crate::tree::{
    driven, law_listing_finds_nothing_else, law_listing_finds_the_files,
    law_listing_ignores_directory_order, same_directories, source_files, FileTree,
};

verus! {

/// What reading the file under a path gives: its bytes, or the message of the error.
pub type FileContents = spec_fn(Seq<u8>) -> Result<Seq<u8>, Seq<char>>;

/// A fingerprint, or the first error met.
pub type Fingerprint = Result<Seq<char>, ErrorView>;

/// The bytes of several files in order, or the error of the first that cannot be read.
pub open spec fn read_all(contents: FileContents, paths: Seq<Seq<u8>>) -> Result<
    Seq<Seq<u8>>,
    ErrorView,
>
    decreases paths.len(),
{
    if paths.len() == 0 {
        Ok(Seq::empty())
    } else {
        match contents(paths[0]) {
            Err(error) => Err(ErrorView::Io { path: lossy_utf8(paths[0]), error }),
            Ok(bytes) => match read_all(contents, paths.drop_first()) {
                Ok(rest) => Ok(seq![bytes] + rest),
                Err(error) => Err(error),
            },
        }
    }
}

/// The fingerprint of the files under the given paths.
pub open spec fn files_fingerprint(contents: FileContents, paths: Seq<Seq<u8>>) -> Fingerprint {
    match read_all(contents, paths) {
        Ok(bytes) => Ok(fingerprint_of(paths, bytes)),
        Err(error) => Err(error),
    }
}

/// The fingerprint of a source on a disk: that of the files of the source.
pub open spec fn source_fingerprint(
    tree: FileTree,
    contents: FileContents,
    source: BundleSource,
    depth: nat,
) -> Option<Fingerprint> {
    match source_files(tree, source, depth) {
        Some(Ok(paths)) => Some(files_fingerprint(contents, paths)),
        Some(Err(error)) => Some(Err(error)),
        None => None,
    }
}

/// Where a fingerprinting arrives that is supplied from a disk, after at most `reads`
/// directories and files.
pub open spec fn fingerprint_driven(
    tree: FileTree,
    contents: FileContents,
    step: FingerprintView,
    reads: nat,
) -> Option<Fingerprint>
    decreases reads,
{
    match step {
        FingerprintView::Done(result) => Some(result),
        FingerprintView::ReadDir(walk) => if reads == 0 {
            None
        } else {
            fingerprint_driven(
                tree,
                contents,
                fingerprinting(walk.after(tree(walk.dir))),
                (reads - 1) as nat,
            )
        },
        FingerprintView::ReadFile(read) => if reads == 0 {
            None
        } else {
            fingerprint_driven(
                tree,
                contents,
                read.after(contents(read.path)),
                (reads - 1) as nat,
            )
        },
    }
}

proof fn lemma_hashing_arrives(
    tree: FileTree,
    contents: FileContents,
    left: Seq<Seq<u8>>,
    hashed: Seq<u8>,
)
    ensures
        fingerprint_driven(tree, contents, hashing(left, hashed), left.len()) == Some(
            match read_all(contents, left) {
                Ok(bytes) => Ok::<Seq<char>, ErrorView>(hex(sha256(hashed + preimage(left, bytes)))),
                Err(error) => Err::<Seq<char>, ErrorView>(error),
            },
        ),
    decreases left.len(),
{
    if left.len() == 0 {
        assert(hashed + preimage(left, Seq::empty()) =~= hashed);
    } else {
        let tail = left.drop_first();
        if let Ok(bytes) = contents(left[0]) {
            lemma_hashing_arrives(tree, contents, tail, hashed + header(left[0]) + bytes);
            if let Ok(rest) = read_all(contents, tail) {
                let all = seq![bytes] + rest;
                assert(all.drop_first() =~= rest);
                assert(hashed + preimage(left, all) =~= hashed + header(left[0]) + bytes
                    + preimage(tail, rest));
            }
        } else {
            let read = hashing(left, hashed)->ReadFile_0;
            let stop = read.after(contents(left[0]));
            assert(fingerprint_driven(tree, contents, stop, tail.len()) == Some(stop->Done_0));
        }
    }
}

proof fn lemma_listing_arrives(
    tree: FileTree,
    contents: FileContents,
    listing: ListView,
    reads: nat,
    later: nat,
)
    requires
        driven(tree, listing, reads) is Some,
        fingerprint_driven(
            tree,
            contents,
            fingerprinting(ListView::Done(driven(tree, listing, reads)->0)),
            later,
        ) is Some,
    ensures
        exists|total: nat| #[trigger]
            fingerprint_driven(tree, contents, fingerprinting(listing), total)
                == fingerprint_driven(
                tree,
                contents,
                fingerprinting(ListView::Done(driven(tree, listing, reads)->0)),
                later,
            ),
    decreases reads,
{
    match listing {
        ListView::Done(_) => {
            assert(fingerprint_driven(tree, contents, fingerprinting(listing), later)
                == fingerprint_driven(
                tree,
                contents,
                fingerprinting(ListView::Done(driven(tree, listing, reads)->0)),
                later,
            ));
        },
        ListView::ReadDir(walk) => {
            let next = walk.after(tree(walk.dir));
            lemma_listing_arrives(tree, contents, next, (reads - 1) as nat, later);
            let total = choose|total: nat| #[trigger]
                fingerprint_driven(tree, contents, fingerprinting(next), total)
                    == fingerprint_driven(
                    tree,
                    contents,
                    fingerprinting(ListView::Done(driven(tree, listing, reads)->0)),
                    later,
                );
            assert(fingerprint_driven(tree, contents, fingerprinting(listing), total + 1)
                == fingerprint_driven(tree, contents, fingerprinting(next), total));
        },
    }
}

/// The stepwise fingerprinting arrives at the fingerprint of the source: supplied from a
/// disk, it gives the hash over the paths and bytes of the source's files in order, or the
/// first error met while listing and then reading them.
pub proof fn law_fingerprint_covers_the_files(
    tree: FileTree,
    contents: FileContents,
    source: BundleSource,
    depth: nat,
)
    requires
        source_fingerprint(tree, contents, source, depth) is Some,
    ensures
        exists|reads: nat| #[trigger]
            fingerprint_driven(tree, contents, fingerprinting(source.listing()), reads)
                == source_fingerprint(tree, contents, source, depth),
{
    let reads = law_listing_finds_the_files(tree, source, depth);
    let files = source_files(tree, source, depth)->0;
    match files {
        Ok(paths) => {
            lemma_hashing_arrives(tree, contents, paths, Seq::empty());
            if let Ok(bytes) = read_all(contents, paths) {
                assert(Seq::empty() + preimage(paths, bytes) =~= preimage(paths, bytes));
            }
            lemma_listing_arrives(tree, contents, source.listing(), reads, paths.len());
        },
        Err(_) => {
            lemma_listing_arrives(tree, contents, source.listing(), reads, 0);
        },
    }
}

/// A fingerprinting that has arrived stays where it is, and so every complete run over a
/// disk has the same result.
pub proof fn law_fingerprint_is_settled(
    tree: FileTree,
    contents: FileContents,
    step: FingerprintView,
    reads: nat,
    more: nat,
)
    requires
        fingerprint_driven(tree, contents, step, reads) is Some,
        reads <= more,
    ensures
        fingerprint_driven(tree, contents, step, more) == fingerprint_driven(
            tree,
            contents,
            step,
            reads,
        ),
    decreases reads,
{
    match step {
        FingerprintView::Done(_) => {},
        FingerprintView::ReadDir(walk) => {
            law_fingerprint_is_settled(
                tree,
                contents,
                fingerprinting(walk.after(tree(walk.dir))),
                (reads - 1) as nat,
                (more - 1) as nat,
            );
        },
        FingerprintView::ReadFile(read) => {
            law_fingerprint_is_settled(
                tree,
                contents,
                read.after(contents(read.path)),
                (reads - 1) as nat,
                (more - 1) as nat,
            );
        },
    }
}

proof fn lemma_listing_came_first(
    tree: FileTree,
    contents: FileContents,
    listing: ListView,
    reads: nat,
) -> (parts: (nat, nat))
    requires
        fingerprint_driven(tree, contents, fingerprinting(listing), reads) is Some,
    ensures
        driven(tree, listing, parts.0) is Some,
        fingerprint_driven(
            tree,
            contents,
            fingerprinting(ListView::Done(driven(tree, listing, parts.0)->0)),
            parts.1,
        ) == fingerprint_driven(tree, contents, fingerprinting(listing), reads),
    decreases reads,
{
    match listing {
        ListView::Done(_) => (0, reads),
        ListView::ReadDir(walk) => {
            let next = walk.after(tree(walk.dir));
            let parts = lemma_listing_came_first(tree, contents, next, (reads - 1) as nat);
            assert(driven(tree, listing, parts.0 + 1) == driven(tree, next, parts.0));
            (parts.0 + 1, parts.1)
        },
    }
}

/// What the stepwise fingerprinting arrives at is the fingerprint of the source: a run that is
/// supplied from a disk and ends has the hash over the source's files, or the first error, and
/// nothing else.
pub proof fn law_fingerprint_finds_nothing_else(
    tree: FileTree,
    contents: FileContents,
    source: BundleSource,
    reads: nat,
)
    requires
        fingerprint_driven(tree, contents, fingerprinting(source.listing()), reads) is Some,
    ensures
        exists|depth: nat| #[trigger]
            source_fingerprint(tree, contents, source, depth) == fingerprint_driven(
                tree,
                contents,
                fingerprinting(source.listing()),
                reads,
            ),
{
    let (depth, later) = lemma_listing_came_first(tree, contents, source.listing(), reads);
    law_listing_finds_nothing_else(tree, source, depth);
    match source_files(tree, source, depth)->0 {
        Ok(paths) => {
            let start = hashing(paths, Seq::empty());
            lemma_hashing_arrives(tree, contents, paths, Seq::empty());
            if let Ok(bytes) = read_all(contents, paths) {
                assert(Seq::empty() + preimage(paths, bytes) =~= preimage(paths, bytes));
            }
            if later <= paths.len() {
                law_fingerprint_is_settled(tree, contents, start, later, paths.len());
            } else {
                law_fingerprint_is_settled(tree, contents, start, paths.len(), later);
            }
        },
        Err(_) => {},
    }
    assert(source_fingerprint(tree, contents, source, depth) == fingerprint_driven(
        tree,
        contents,
        fingerprinting(source.listing()),
        reads,
    ));
}

proof fn lemma_same_bytes_read_alike(
    one: FileContents,
    other: FileContents,
    paths: Seq<Seq<u8>>,
)
    requires
        forall|i: int| 0 <= i < paths.len() ==> one(#[trigger] paths[i]) == other(paths[i]),
    ensures
        read_all(one, paths) == read_all(other, paths),
    decreases paths.len(),
{
    if paths.len() > 0 {
        let tail = paths.drop_first();
        assert forall|i: int| 0 <= i < tail.len() implies one(#[trigger] tail[i]) == other(
            tail[i],
        ) by {
            assert(tail[i] == paths[i + 1]);
        }
        lemma_same_bytes_read_alike(one, other, tail);
    }
}

/// The fingerprint is stable: on two disks on which the files of a source have the same bytes,
/// the source has the same fingerprint, in whatever order directories give their entries and
/// whatever other files hold. The one exception are sources that list two different paths
/// which tie in the order of paths.
pub proof fn law_fingerprint_is_stable(
    a: FileTree,
    b: FileTree,
    a_contents: FileContents,
    b_contents: FileContents,
    source: BundleSource,
    depth: nat,
)
    requires
        same_directories(a, b),
        source_files(a, source, depth) is Some,
        source_files(a, source, depth)->0 is Ok,
        ({
            let paths = source_files(a, source, depth)->0->Ok_0;
            &&& forall|i: int|
                0 <= i < paths.len() ==> a_contents(#[trigger] paths[i]) == b_contents(paths[i])
            &&& forall|i: int, j: int|
                0 <= i < paths.len() && 0 <= j < paths.len() && ties(
                    #[trigger] paths[i],
                    #[trigger] paths[j],
                ) ==> paths[i] == paths[j]
        }),
    ensures
        source_fingerprint(b, b_contents, source, depth) == source_fingerprint(
            a,
            a_contents,
            source,
            depth,
        ),
{
    law_listing_ignores_directory_order(a, b, source, depth);
    lemma_same_bytes_read_alike(
        a_contents,
        b_contents,
        source_files(a, source, depth)->0->Ok_0,
    );
}

proof fn lemma_hex_digits_differ(a: u8, b: u8)
    requires
        a < 16,
        b < 16,
        hex_digit(a) == hex_digit(b),
    ensures
        a == b,
{
    assert(hex_digit(a) as int == if a < 10 { 48 + a } else { 87 + a });
    assert(hex_digit(b) as int == if b < 10 { 48 + b } else { 87 + b });
}

/// Different bytes are different in hexadecimal.
pub proof fn law_hex_tells_bytes_apart(a: Seq<u8>, b: Seq<u8>)
    requires
        hex(a) == hex(b),
    ensures
        a == b,
    decreases a.len(),
{
    if a.len() == 0 || b.len() == 0 {
        assert(a =~= b);
    } else {
        let x = a.last();
        let y = b.last();
        assert(hex(a).last() == hex_digit(x % 16));
        assert(hex(b).last() == hex_digit(y % 16));
        assert(hex(a).drop_last().last() == hex_digit(x / 16));
        assert(hex(b).drop_last().last() == hex_digit(y / 16));
        lemma_hex_digits_differ(x % 16, y % 16);
        lemma_hex_digits_differ(x / 16, y / 16);
        assert(hex(a).drop_last().drop_last() =~= hex(a.drop_last()));
        assert(hex(b).drop_last().drop_last() =~= hex(b.drop_last()));
        law_hex_tells_bytes_apart(a.drop_last(), b.drop_last());
        assert(a =~= a.drop_last().push(x));
        assert(b =~= b.drop_last().push(y));
    }
}

/// Whether `long` begins with `short` and the header of the next file: the bytes of one file
/// then look like the end of that file and the start of the next.
pub open spec fn runs_on(short: Seq<u8>, next: Seq<u8>, long: Seq<u8>) -> bool {
    (short + header(next)).is_prefix_of(long)
}

/// Whether two bundles with the same paths blur: at the first file whose contents differ, those
/// of one bundle run on into the next file.
pub open spec fn blur(paths: Seq<Seq<u8>>, a: Seq<Seq<u8>>, b: Seq<Seq<u8>>) -> bool {
    exists|i: int| #[trigger] blur_at(paths, a, b, i)
}

/// Whether two bundles with the same paths blur at a file.
pub open spec fn blur_at(paths: Seq<Seq<u8>>, a: Seq<Seq<u8>>, b: Seq<Seq<u8>>, i: int) -> bool {
    &&& 0 <= i < paths.len() - 1
    &&& forall|j: int| 0 <= j < i ==> a[j] == b[j]
    &&& runs_on(a[i], paths[i + 1], b[i]) || runs_on(b[i], paths[i + 1], a[i])
}

proof fn lemma_header_within(
    short: Seq<u8>,
    long: Seq<u8>,
    path: Seq<u8>,
    x: Seq<u8>,
    y: Seq<u8>,
)
    requires
        short.len() < long.len(),
        short + (header(path) + x) == long + (header(path) + y),
        !encode_utf8(lossy_utf8(path)).contains(0u8),
    ensures
        runs_on(short, path, long),
{
    let head = header(path);
    let text = encode_utf8(lossy_utf8(path));
    let all = short + (head + x);
    let same = long + (head + y);
    let at = short.len() as int;
    assert forall|k: int| 0 <= k < head.len() implies all[at + k] == head[k] by {}
    let zero = at + text.len();
    assert(all[zero] == 0u8);
    if zero >= long.len() {
        assert(same[zero] == text[zero - long.len()]);
        assert(text.contains(text[zero - long.len()]));
        assert(false);
    }
    assert(long.subrange(0, (short + head).len() as int) =~= short + head) by {
        assert forall|k: int| 0 <= k < (short + head).len() implies long[k] == (short + head)[k] by {
            assert(same[k] == long[k]);
            assert(all[k] == (short + head)[k]);
        }
    }
}

/// What is hashed tells the contents of the same files apart: bytes that change, or that move
/// from one file to another, change what is hashed, unless they imitate the header of the next
/// file. Paths hold no zero byte.
pub proof fn law_hashed_bytes_tell_contents_apart(
    paths: Seq<Seq<u8>>,
    a: Seq<Seq<u8>>,
    b: Seq<Seq<u8>>,
)
    requires
        a.len() == paths.len(),
        b.len() == paths.len(),
        forall|i: int|
            1 <= i < paths.len() ==> !encode_utf8(lossy_utf8(#[trigger] paths[i])).contains(0u8),
        a != b,
    ensures
        preimage(paths, a) != preimage(paths, b) || blur(paths, a, b),
    decreases paths.len(),
{
    if paths.len() == 0 {
        assert(a =~= b);
    } else if preimage(paths, a) == preimage(paths, b) {
        let tail = paths.drop_first();
        let head = header(paths[0]);
        let x = preimage(tail, a.drop_first());
        let y = preimage(tail, b.drop_first());
        assert((head + a[0] + x).skip(head.len() as int) =~= a[0] + x);
        assert((head + b[0] + y).skip(head.len() as int) =~= b[0] + y);
        assert(a[0] + x == b[0] + y);
        if tail.len() == 0 {
            assert(a[0] + x =~= a[0]);
            assert(b[0] + y =~= b[0]);
            assert(a =~= b);
        } else if a[0].len() != b[0].len() {
            let next = header(tail[0]);
            let p = a.drop_first()[0] + preimage(tail.drop_first(), a.drop_first().drop_first());
            let q = b.drop_first()[0] + preimage(tail.drop_first(), b.drop_first().drop_first());
            assert(x =~= next + p);
            assert(y =~= next + q);
            assert(tail[0] == paths[1]);
            if a[0].len() < b[0].len() {
                lemma_header_within(a[0], b[0], tail[0], p, q);
            } else {
                lemma_header_within(b[0], a[0], tail[0], q, p);
            }
            assert(blur_at(paths, a, b, 0));
        } else {
            assert((a[0] + x).take(a[0].len() as int) =~= a[0]);
            assert((b[0] + y).take(a[0].len() as int) =~= b[0]);
            assert((a[0] + x).skip(a[0].len() as int) =~= x);
            assert((b[0] + y).skip(a[0].len() as int) =~= y);
            if a.drop_first() == b.drop_first() {
                assert(a =~= seq![a[0]] + a.drop_first());
                assert(b =~= seq![b[0]] + b.drop_first());
            } else {
                assert forall|i: int| 1 <= i < tail.len() implies !encode_utf8(
                    lossy_utf8(#[trigger] tail[i]),
                ).contains(0u8) by {
                    assert(tail[i] == paths[i + 1]);
                }
                law_hashed_bytes_tell_contents_apart(tail, a.drop_first(), b.drop_first());
                let i = choose|i: int| #[trigger]
                    blur_at(tail, a.drop_first(), b.drop_first(), i);
                assert forall|j: int| 0 <= j < i + 1 implies a[j] == b[j] by {
                    if j > 0 {
                        assert(a.drop_first()[j - 1] == b.drop_first()[j - 1]);
                    }
                }
                assert(blur_at(paths, a, b, i + 1));
            }
        }
    }
}

/// Contents that change, or that move from one file to another, change the fingerprint, unless
/// they imitate the header of the next file or SHA-256 gives two different byte strings the same
/// digest. Paths hold no zero byte.
pub proof fn law_fingerprint_tells_contents_apart(
    paths: Seq<Seq<u8>>,
    a: Seq<Seq<u8>>,
    b: Seq<Seq<u8>>,
)
    requires
        a.len() == paths.len(),
        b.len() == paths.len(),
        forall|i: int|
            1 <= i < paths.len() ==> !encode_utf8(lossy_utf8(#[trigger] paths[i])).contains(0u8),
        a != b,
    ensures
        fingerprint_of(paths, a) != fingerprint_of(paths, b) || blur(paths, a, b) || (preimage(
            paths,
            a,
        ) != preimage(paths, b) && sha256(preimage(paths, a)) == sha256(preimage(paths, b))),
{
    law_hashed_bytes_tell_contents_apart(paths, a, b);
    if fingerprint_of(paths, a) == fingerprint_of(paths, b) {
        law_hex_tells_bytes_apart(sha256(preimage(paths, a)), sha256(preimage(paths, b)));
    }
}

proof fn lemma_preimage_concat(
    front: Seq<Seq<u8>>,
    back: Seq<Seq<u8>>,
    a: Seq<Seq<u8>>,
    b: Seq<Seq<u8>>,
)
    requires
        a.len() == front.len(),
        b.len() == back.len(),
    ensures
        preimage(front + back, a + b) == preimage(front, a) + preimage(back, b),
    decreases front.len(),
{
    if front.len() == 0 {
        assert(front + back =~= back);
        assert(a + b =~= b);
        assert(preimage(front, a) + preimage(back, b) =~= preimage(back, b));
    } else {
        assert((front + back).drop_first() =~= front.drop_first() + back);
        assert((a + b).drop_first() =~= a.drop_first() + b);
        lemma_preimage_concat(front.drop_first(), back, a.drop_first(), b);
        assert(preimage(front + back, a + b) =~= preimage(front, a) + preimage(back, b));
    }
}

proof fn lemma_preimage_single(path: Seq<u8>, bytes: Seq<u8>)
    ensures
        preimage(seq![path], seq![bytes]) == header(path) + bytes,
{
    assert(seq![path].drop_first() =~= Seq::empty());
    assert(preimage(seq![path].drop_first(), seq![bytes].drop_first()) =~= Seq::empty());
    assert(preimage(seq![path], seq![bytes]) =~= header(path) + bytes);
}

/// A file that is added to a bundle, or taken from it, changes what is hashed, even an empty
/// one.
pub proof fn law_another_file_changes_what_is_hashed(
    front: Seq<Seq<u8>>,
    path: Seq<u8>,
    back: Seq<Seq<u8>>,
    a: Seq<Seq<u8>>,
    bytes: Seq<u8>,
    b: Seq<Seq<u8>>,
)
    requires
        a.len() == front.len(),
        b.len() == back.len(),
    ensures
        preimage(front + seq![path] + back, a + seq![bytes] + b) != preimage(front + back, a + b),
{
    lemma_preimage_concat(front + seq![path], back, a + seq![bytes], b);
    lemma_preimage_concat(front, seq![path], a, seq![bytes]);
    lemma_preimage_concat(front, back, a, b);
    lemma_preimage_single(path, bytes);
    assert(preimage(front + seq![path] + back, a + seq![bytes] + b).len() > preimage(
        front + back,
        a + b,
    ).len());
}

/// A file that gets another name and keeps its place among the files changes what is hashed.
pub proof fn law_another_name_changes_what_is_hashed(
    front: Seq<Seq<u8>>,
    old_path: Seq<u8>,
    new_path: Seq<u8>,
    back: Seq<Seq<u8>>,
    a: Seq<Seq<u8>>,
    bytes: Seq<u8>,
    b: Seq<Seq<u8>>,
)
    requires
        a.len() == front.len(),
        b.len() == back.len(),
        encode_utf8(lossy_utf8(old_path)) != encode_utf8(lossy_utf8(new_path)),
    ensures
        preimage(front + seq![old_path] + back, a + seq![bytes] + b) != preimage(
            front + seq![new_path] + back,
            a + seq![bytes] + b,
        ),
{
    let contents = a + seq![bytes] + b;
    let was = preimage(front + seq![old_path] + back, contents);
    let now = preimage(front + seq![new_path] + back, contents);
    lemma_preimage_concat(front + seq![old_path], back, a + seq![bytes], b);
    lemma_preimage_concat(front, seq![old_path], a, seq![bytes]);
    lemma_preimage_single(old_path, bytes);
    lemma_preimage_concat(front + seq![new_path], back, a + seq![bytes], b);
    lemma_preimage_concat(front, seq![new_path], a, seq![bytes]);
    lemma_preimage_single(new_path, bytes);
    let start = preimage(front, a).len() as int;
    let x = encode_utf8(lossy_utf8(old_path));
    let y = encode_utf8(lossy_utf8(new_path));
    assert(was == preimage(front, a) + (header(old_path) + bytes) + preimage(back, b));
    assert(now == preimage(front, a) + (header(new_path) + bytes) + preimage(back, b));
    if was == now {
        assert(was.len() == now.len());
        assert(x.len() == y.len());
        assert(was.subrange(start, start + x.len()) =~= x);
        assert(now.subrange(start, start + y.len()) =~= y);
    }
}

} // verus!
