//! The fingerprint of a bundle: the SHA-256 of its files.
//!
//! What is hashed is, for each file in order, the text of its path, a zero byte and the
//! file's bytes. Fingerprinting stops at each directory and each file that has to be read,
//! names it, and goes on with what reading it gave.

use sha2::{Digest, Sha256};
use vstd::prelude::*;
use vstd::utf8::encode_utf8;

use crate::error::{ErrorView, ReloadError};
use crate::path::{backwards, lossy_utf8, BundlePath};
use crate::source::{BundleSource, DirReply, DirWalk, ListStep, ListView, WalkView};

verus! {

/// The SHA-256 digest of a byte string, as `sha2` computes it.
pub uninterp spec fn sha256(data: Seq<u8>) -> Seq<u8>;

/// Calls `<sha2::Sha256 as sha2::Digest>::digest`: the digest is a function of the bytes
/// alone and has 32 bytes.
#[verifier::external_body]
fn digest(data: &Vec<u8>) -> (hash: Vec<u8>)
    ensures
        hash@ == sha256(data@),
        hash@.len() == 32,
{
    Sha256::digest(data).to_vec()
}

/// `String::push` puts a character at the end of a string.
pub assume_specification[ String::push ](text: &mut String, c: char)
    ensures
        final(text)@ == old(text)@.push(c),
;

/// The lower-case hexadecimal digit for a number below 16.
pub open spec fn hex_digit(value: u8) -> char {
    if value < 10 {
        (48 + value) as char
    } else {
        (87 + value) as char
    }
}

/// Bytes in lower-case hexadecimal, two digits each.
pub open spec fn hex(bytes: Seq<u8>) -> Seq<char>
    decreases bytes.len(),
{
    if bytes.len() == 0 {
        Seq::empty()
    } else {
        hex(bytes.drop_last()).push(hex_digit(bytes.last() / 16)).push(
            hex_digit(bytes.last() % 16),
        )
    }
}

/// What sets a file apart from the one before it: the text of its path and a zero byte.
pub open spec fn header(path: Seq<u8>) -> Seq<u8> {
    encode_utf8(lossy_utf8(path)).push(0)
}

/// What is hashed of a bundle: for each file its header and its bytes.
pub open spec fn preimage(paths: Seq<Seq<u8>>, contents: Seq<Seq<u8>>) -> Seq<u8>
    decreases paths.len(),
{
    if paths.len() == 0 {
        Seq::empty()
    } else {
        header(paths[0]) + contents[0] + preimage(paths.drop_first(), contents.drop_first())
    }
}

/// The fingerprint of a bundle with the given files.
pub open spec fn fingerprint_of(paths: Seq<Seq<u8>>, contents: Seq<Seq<u8>>) -> Seq<char> {
    hex(sha256(preimage(paths, contents)))
}

/// A fingerprinting that waits for a file: the file, those to be read afterwards, and what
/// there is to hash of those read before.
pub struct ReadView {
    pub path: Seq<u8>,
    pub later: Seq<Seq<u8>>,
    pub hashed: Seq<u8>,
}

/// Where a fingerprinting stands: it waits for a directory or a file, or it has its result.
pub enum FingerprintView {
    ReadDir(WalkView),
    ReadFile(ReadView),
    Done(Result<Seq<char>, ErrorView>),
}

/// A fingerprinting with files left to read.
pub open spec fn hashing(left: Seq<Seq<u8>>, hashed: Seq<u8>) -> FingerprintView {
    if left.len() == 0 {
        FingerprintView::Done(Ok(hex(sha256(hashed))))
    } else {
        FingerprintView::ReadFile(ReadView { path: left[0], later: left.drop_first(), hashed })
    }
}

/// A fingerprinting whose files are being listed; once they are, they are read in order.
pub open spec fn fingerprinting(listing: ListView) -> FingerprintView {
    match listing {
        ListView::ReadDir(walk) => FingerprintView::ReadDir(walk),
        ListView::Done(Ok(files)) => hashing(files, Seq::empty()),
        ListView::Done(Err(error)) => FingerprintView::Done(Err(error)),
    }
}

impl ReadView {
    /// How the fingerprinting goes on with what reading its file gave: the bytes, or the
    /// message of the error.
    pub open spec fn after(self, read: Result<Seq<u8>, Seq<char>>) -> FingerprintView {
        match read {
            Ok(bytes) => hashing(self.later, self.hashed + header(self.path) + bytes),
            Err(error) => FingerprintView::Done(
                Err(ErrorView::Io { path: lossy_utf8(self.path), error }),
            ),
        }
    }
}

/// The view of what reading a file gave.
pub open spec fn read_view(read: Result<Vec<u8>, String>) -> Result<Seq<u8>, Seq<char>> {
    match read {
        Ok(bytes) => Ok(bytes@),
        Err(error) => Err(error@),
    }
}

/// A fingerprinting that waits for a directory to be read.
#[derive(Debug)]
pub struct DirRead {
    walk: DirWalk,
}

/// A fingerprinting that waits for a file to be read.
#[derive(Debug)]
pub struct FileRead {
    path: BundlePath,
    /// The files to be read afterwards; the next is last.
    later: Vec<BundlePath>,
    hashed: Vec<u8>,
}

/// A step of a fingerprinting.
#[derive(Debug)]
pub enum FingerprintStep {
    /// A directory has to be read.
    ReadDir(DirRead),
    /// A file has to be read.
    ReadFile(FileRead),
    /// The fingerprint, or the first error met.
    Done(Result<String, ReloadError>),
}

impl View for DirRead {
    type V = WalkView;

    closed spec fn view(&self) -> WalkView {
        self.walk@
    }
}

impl View for FileRead {
    type V = ReadView;

    closed spec fn view(&self) -> ReadView {
        ReadView { path: self.path@, later: backwards(self.later@), hashed: self.hashed@ }
    }
}

impl View for FingerprintStep {
    type V = FingerprintView;

    open spec fn view(&self) -> FingerprintView {
        match self {
            FingerprintStep::ReadDir(walk) => FingerprintView::ReadDir(walk@),
            FingerprintStep::ReadFile(read) => FingerprintView::ReadFile(read@),
            FingerprintStep::Done(Ok(text)) => FingerprintView::Done(Ok(text@)),
            FingerprintStep::Done(Err(error)) => FingerprintView::Done(Err(error@)),
        }
    }
}

/// The hexadecimal digit for a number below 16, as [`hex_digit`] says.
fn hex_char(value: u8) -> (c: char)
    requires
        value < 16,
    ensures
        c == hex_digit(value),
{
    if value < 10 {
        (48 + value) as char
    } else {
        (87 + value) as char
    }
}

/// Writes bytes in hexadecimal, as [`hex`] says.
pub fn to_hex(bytes: &Vec<u8>) -> (text: String)
    ensures
        text@ == hex(bytes@),
        text@.len() == 2 * bytes@.len(),
{
    let mut text = String::new();
    let mut i: usize = 0;
    assert(bytes@.take(0) =~= Seq::empty());
    while i < bytes.len()
        invariant
            i <= bytes.len(),
            text@ == hex(bytes@.take(i as int)),
            text@.len() == 2 * i,
        decreases bytes.len() - i,
    {
        let byte = bytes[i];
        text.push(hex_char(byte / 16));
        text.push(hex_char(byte % 16));
        assert(bytes@.take(i + 1).drop_last() =~= bytes@.take(i as int));
        i = i + 1;
    }
    assert(bytes@.take(i as int) =~= bytes@);
    text
}

/// Goes on with files left to read, the next last, as [`hashing`] says.
fn hash_files(left: Vec<BundlePath>, hashed: Vec<u8>) -> (step: FingerprintStep)
    ensures
        step@ == hashing(backwards(left@), hashed@),
        step@ matches FingerprintView::Done(Ok(text)) ==> text.len() == 64,
{
    let mut later = left;
    match later.pop() {
        None => FingerprintStep::Done(Ok(to_hex(&digest(&hashed)))),
        Some(path) => {
            assert(backwards(left@).drop_first() =~= backwards(later@));
            FingerprintStep::ReadFile(FileRead { path, later, hashed })
        },
    }
}

/// Goes on with a listing, as [`fingerprinting`] says.
fn follow_listing(listing: ListStep) -> (step: FingerprintStep)
    ensures
        step@ == fingerprinting(listing@),
        step@ matches FingerprintView::Done(Ok(text)) ==> text.len() == 64,
{
    match listing {
        ListStep::ReadDir(walk) => FingerprintStep::ReadDir(DirRead { walk }),
        ListStep::Done(Err(error)) => FingerprintStep::Done(Err(error)),
        ListStep::Done(Ok(files)) => {
            let mut rest = files;
            let mut left: Vec<BundlePath> = Vec::new();
            assert(rest.deep_view() + backwards(left@) =~= files.deep_view());
            while rest.len() > 0
                invariant
                    rest.deep_view() + backwards(left@) == files.deep_view(),
                decreases rest.len(),
            {
                let ghost before = rest.deep_view();
                let ghost behind = left@;
                if let Some(path) = rest.pop() {
                    left.push(path);
                    assert(before =~= rest.deep_view().push(path@));
                    assert(backwards(left@) =~= seq![path@] + backwards(behind));
                    assert(rest.deep_view() + backwards(left@) =~= files.deep_view());
                }
            }
            assert(backwards(left@) =~= files.deep_view());
            hash_files(left, Vec::new())
        },
    }
}

impl BundleSource {
    /// Computes the fingerprint of the source. Where directories or files have to be read,
    /// the fingerprinting stops and goes on with what reading them gave.
    pub fn fingerprint(&self) -> (step: FingerprintStep)
        ensures
            step@ == fingerprinting(self.listing()),
            step@ matches FingerprintView::Done(Ok(text)) ==> text.len() == 64,
    {
        follow_listing(self.list_files())
    }
}

impl DirRead {
    /// The directory that has to be read.
    pub fn dir(&self) -> (dir: &BundlePath)
        ensures
            dir@ == self@.dir,
    {
        self.walk.dir()
    }

    /// Goes on with what reading the directory gave.
    pub fn supply(self, reply: DirReply) -> (step: FingerprintStep)
        ensures
            step@ == fingerprinting(self@.after(reply@)),
            step@ matches FingerprintView::Done(Ok(text)) ==> text.len() == 64,
    {
        follow_listing(self.walk.supply(reply))
    }
}

impl FileRead {
    /// The file that has to be read.
    pub fn path(&self) -> (path: &BundlePath)
        ensures
            path@ == self@.path,
    {
        &self.path
    }

    /// Goes on with what reading the file gave: its bytes, or the error's message.
    pub fn supply(self, read: Result<Vec<u8>, String>) -> (step: FingerprintStep)
        ensures
            step@ == self@.after(read_view(read)),
            step@ matches FingerprintView::Done(Ok(text)) ==> text.len() == 64,
    {
        let text = self.path.text();
        match read {
            Err(error) => FingerprintStep::Done(Err(ReloadError::Io { path: text, error })),
            Ok(bytes) => {
                let mut hashed = self.hashed;
                let mut bytes = bytes;
                hashed.extend_from_slice(text.as_str().as_bytes());
                assert(hashed@ =~= self.hashed@ + encode_utf8(text@));
                hashed.push(0);
                hashed.append(&mut bytes);
                assert(hashed@ =~= self.hashed@ + header(self.path@) + read->Ok_0@);
                hash_files(self.later, hashed)
            },
        }
    }
}

} // verus!
