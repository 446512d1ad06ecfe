//! What a fingerprint is, in terms of the paths and bytes of the files that it covers.

use vstd::prelude::*;
use vstd::utf8::encode_utf8;

use crate::error::{ErrorView, ReloadError};
use crate::fingerprint::{
    fingerprinting, hex, hex_digit, preimage, read_view, sha256, DirRead, FileRead,
    FingerprintStep, FingerprintView,
};
use crate::path::lossy_utf8;
use crate::source::BundleSource;
use crate::stability::{
    fingerprint_driven, law_fingerprint_finds_nothing_else, read_all, source_fingerprint,
    FileContents,
};
use crate::tree::{source_files, FileTree};

verus! {

proof fn lemma_hex_digit(value: u8)
    requires
        value < 16,
    ensures
        hex_digit(value) == "0123456789abcdef"@[value as int],
{
    reveal_strlit("0123456789abcdef");
}

/// Each byte is written as two digits, that of the sixteens before that of the ones, and the
/// digits are `0` to `9` and `a` to `f`.
pub proof fn law_hex_writes_two_digits_a_byte(bytes: Seq<u8>, i: int)
    requires
        0 <= i < bytes.len(),
    ensures
        hex(bytes).len() == 2 * bytes.len(),
        hex(bytes)[2 * i] == "0123456789abcdef"@[bytes[i] as int / 16],
        hex(bytes)[2 * i + 1] == "0123456789abcdef"@[bytes[i] as int % 16],
    decreases bytes.len(),
{
    let short = bytes.drop_last();
    lemma_hex_length(short);
    lemma_hex_digit(bytes[i] / 16);
    lemma_hex_digit(bytes[i] % 16);
    if i < short.len() {
        law_hex_writes_two_digits_a_byte(short, i);
    }
}

proof fn lemma_hex_length(bytes: Seq<u8>)
    ensures
        hex(bytes).len() == 2 * bytes.len(),
    decreases bytes.len(),
{
    if bytes.len() > 0 {
        lemma_hex_length(bytes.drop_last());
    }
}

/// One more file adds to what is hashed the text of its path, a zero byte and its bytes, behind
/// what was there; of no file nothing is hashed.
pub proof fn law_each_file_adds_its_path_and_bytes(
    paths: Seq<Seq<u8>>,
    contents: Seq<Seq<u8>>,
    path: Seq<u8>,
    bytes: Seq<u8>,
)
    requires
        paths.len() == contents.len(),
    ensures
        preimage(Seq::empty(), Seq::empty()) == Seq::<u8>::empty(),
        preimage(paths.push(path), contents.push(bytes)) == preimage(paths, contents)
            + encode_utf8(lossy_utf8(path)) + seq![0u8] + bytes,
    decreases paths.len(),
{
    let more = paths.push(path);
    let all = contents.push(bytes);
    if paths.len() == 0 {
        assert(more.drop_first() =~= Seq::empty());
        assert(preimage(more.drop_first(), all.drop_first()) =~= Seq::empty());
        assert(preimage(more, all) =~= preimage(paths, contents) + encode_utf8(lossy_utf8(path))
            + seq![0u8] + bytes);
    } else {
        assert(more.drop_first() =~= paths.drop_first().push(path));
        assert(all.drop_first() =~= contents.drop_first().push(bytes));
        law_each_file_adds_its_path_and_bytes(
            paths.drop_first(),
            contents.drop_first(),
            path,
            bytes,
        );
        assert(preimage(more, all) =~= preimage(paths, contents) + encode_utf8(lossy_utf8(path))
            + seq![0u8] + bytes);
    }
}

/// What contracts say of a file that was read, they say of its bytes, or of the message of the
/// error.
pub proof fn law_read_views_show_the_bytes(bytes: Vec<u8>, error: String)
    ensures
        read_view(Ok(bytes)) == Ok::<Seq<u8>, Seq<char>>(bytes@),
        read_view(Err(error)) == Err::<Seq<u8>, Seq<char>>(error@),
{
}

/// What contracts say of a fingerprinting, they say of the directory or file that it waits for, of
/// the text that it gives, or of the error that it met.
pub proof fn law_fingerprint_views_show_the_text(
    dir: DirRead,
    file: FileRead,
    text: String,
    error: ReloadError,
)
    ensures
        FingerprintStep::ReadDir(dir)@ == FingerprintView::ReadDir(dir@),
        FingerprintStep::ReadFile(file)@ == FingerprintView::ReadFile(file@),
        FingerprintStep::Done(Ok(text))@ == FingerprintView::Done(Ok(text@)),
        FingerprintStep::Done(Err(error))@ == FingerprintView::Done(Err(error@)),
{
}

proof fn lemma_read_all(contents: FileContents, paths: Seq<Seq<u8>>) -> (at: int)
    ensures
        match read_all(contents, paths) {
            Ok(bytes) => bytes.len() == paths.len() && forall|i: int|
                0 <= i < paths.len() ==> #[trigger] contents(paths[i]) == Ok::<_, Seq<char>>(
                    bytes[i],
                ),
            Err(error) => 0 <= at < paths.len() && contents(paths[at]) is Err && error == (
            ErrorView::Io { path: lossy_utf8(paths[at]), error: contents(paths[at])->Err_0 }) && (
            forall|i: int| 0 <= i < at ==> #[trigger] contents(paths[i]) is Ok),
        },
    decreases paths.len(),
{
    if paths.len() == 0 {
        0
    } else {
        let tail = paths.drop_first();
        let at = lemma_read_all(contents, tail);
        if let Ok(first) = contents(paths[0]) {
            match read_all(contents, tail) {
                Ok(rest) => {
                    let bytes = seq![first] + rest;
                    assert forall|i: int| 0 <= i < paths.len() implies #[trigger] contents(
                        paths[i],
                    ) == Ok::<_, Seq<char>>(bytes[i]) by {
                        if i > 0 {
                            assert(contents(tail[i - 1]) == Ok::<_, Seq<char>>(rest[i - 1]));
                        }
                    }
                },
                Err(_) => {
                    assert(tail[at] == paths[at + 1]);
                    assert forall|i: int| 0 <= i < at + 1 implies #[trigger] contents(
                        paths[i],
                    ) is Ok by {
                        if i > 0 {
                            assert(contents(tail[i - 1]) is Ok);
                        }
                    }
                },
            }
            at + 1
        } else {
            0
        }
    }
}

/// A fingerprint that a run over a disk ends with is the SHA-256, in hexadecimal, of the paths and
/// bytes of exactly the files that the source lists, each read from the disk.
pub proof fn law_fingerprint_is_the_hash_of_the_files(
    tree: FileTree,
    contents: FileContents,
    source: BundleSource,
    reads: nat,
) -> (found: (nat, Seq<Seq<u8>>))
    requires
        fingerprint_driven(tree, contents, fingerprinting(source.listing()), reads) is Some,
        fingerprint_driven(tree, contents, fingerprinting(source.listing()), reads)->0 is Ok,
    ensures
        source_files(tree, source, found.0) is Some,
        source_files(tree, source, found.0)->0 is Ok,
        ({
            let paths = source_files(tree, source, found.0)->0->Ok_0;
            &&& found.1.len() == paths.len()
            &&& forall|i: int|
                0 <= i < paths.len() ==> #[trigger] contents(paths[i]) == Ok::<_, Seq<char>>(
                    found.1[i],
                )
            &&& fingerprint_driven(
                tree,
                contents,
                fingerprinting(source.listing()),
                reads,
            )->0->Ok_0 == hex(sha256(preimage(paths, found.1)))
        }),
{
    let step = fingerprinting(source.listing());
    law_fingerprint_finds_nothing_else(tree, contents, source, reads);
    let depth = choose|depth: nat| #[trigger]
        source_fingerprint(tree, contents, source, depth) == fingerprint_driven(
            tree,
            contents,
            step,
            reads,
        );
    let paths = source_files(tree, source, depth)->0->Ok_0;
    let at = lemma_read_all(contents, paths);
    (depth, read_all(contents, paths)->Ok_0)
}

/// An error that a run over a disk ends with is the one met while listing the source, or that of
/// the first listed file that cannot be read, under the path of that file.
pub proof fn law_fingerprint_fails_at_the_first_unreadable_file(
    tree: FileTree,
    contents: FileContents,
    source: BundleSource,
    reads: nat,
) -> (found: (nat, int))
    requires
        fingerprint_driven(tree, contents, fingerprinting(source.listing()), reads) is Some,
        fingerprint_driven(tree, contents, fingerprinting(source.listing()), reads)->0 is Err,
    ensures
        ({
            let error = fingerprint_driven(
                tree,
                contents,
                fingerprinting(source.listing()),
                reads,
            )->0->Err_0;
            match source_files(tree, source, found.0) {
                Some(Err(met)) => error == met,
                Some(Ok(paths)) => {
                    &&& 0 <= found.1 < paths.len()
                    &&& contents(paths[found.1]) is Err
                    &&& error == (ErrorView::Io {
                        path: lossy_utf8(paths[found.1]),
                        error: contents(paths[found.1])->Err_0,
                    })
                    &&& forall|i: int| 0 <= i < found.1 ==> #[trigger] contents(paths[i]) is Ok
                },
                None => false,
            }
        }),
{
    let step = fingerprinting(source.listing());
    law_fingerprint_finds_nothing_else(tree, contents, source, reads);
    let depth = choose|depth: nat| #[trigger]
        source_fingerprint(tree, contents, source, depth) == fingerprint_driven(
            tree,
            contents,
            step,
            reads,
        );
    match source_files(tree, source, depth) {
        Some(Ok(paths)) => (depth, lemma_read_all(contents, paths)),
        _ => (depth, 0),
    }
}

} // verus!
