//! Paths of bundle files: their components, order, extension and text.
//!
//! Paths are those of Unix: byte strings whose components are separated by `/`, with no prefix
//! such as a drive. Components, order and extension are those of `std::path` on a Unix host.

use vstd::prelude::*;
use vstd::utf8::{decode_utf8, encode_utf8, valid_utf8};

verus! {

/// The byte that separates the components of a path.
pub const SEPARATOR: u8 = 47;

/// The byte that sets an extension apart from the rest of a file name.
pub const DOT: u8 = 46;

/// A path, held as the bytes that the operating system uses for it.
#[derive(Debug)]
pub struct BundlePath {
    pub bytes: Vec<u8>,
}

impl View for BundlePath {
    type V = Seq<u8>;

    open spec fn view(&self) -> Seq<u8> {
        self.bytes@
    }
}

impl DeepView for BundlePath {
    type V = Seq<u8>;

    open spec fn deep_view(&self) -> Seq<u8> {
        self.bytes@
    }
}

/// The views of a list of paths, from the last to the first.
pub open spec fn backwards(list: Seq<BundlePath>) -> Seq<Seq<u8>> {
    Seq::new(list.len(), |i: int| list[list.len() - 1 - i]@)
}

/// One component of a path, as the order of paths sees it.
pub enum Component {
    RootDir,
    CurDir,
    ParentDir,
    Normal(Seq<u8>),
}

/// A path cut at its separators; there is always at least one piece.
pub open spec fn pieces(path: Seq<u8>) -> Seq<Seq<u8>>
    decreases path.len(),
{
    if path.len() == 0 {
        seq![Seq::empty()]
    } else {
        let before = pieces(path.drop_last());
        if path.last() == SEPARATOR {
            before.push(Seq::empty())
        } else {
            before.update(before.len() - 1, before.last().push(path.last()))
        }
    }
}

/// The component that a piece stands for, if it stands for one: an empty piece stands for
/// none, and a single dot only does as the leading piece.
pub open spec fn piece_component(piece: Seq<u8>, leading: bool) -> Option<Component> {
    if piece.len() == 0 {
        None
    } else if piece == seq![DOT] {
        if leading {
            Some(Component::CurDir)
        } else {
            None
        }
    } else if piece == seq![DOT, DOT] {
        Some(Component::ParentDir)
    } else {
        Some(Component::Normal(piece))
    }
}

/// The components that a sequence of pieces stands for, where the first piece is the
/// leading one.
pub open spec fn piece_components(pieces: Seq<Seq<u8>>) -> Seq<Component>
    decreases pieces.len(),
{
    if pieces.len() == 0 {
        Seq::empty()
    } else {
        let before = piece_components(pieces.drop_last());
        match piece_component(pieces.last(), pieces.len() == 1) {
            Some(component) => before.push(component),
            None => before,
        }
    }
}

/// The components of a path: repeated and trailing separators and inner single dots do not
/// count, a leading separator is the root.
pub open spec fn components(path: Seq<u8>) -> Seq<Component> {
    if path.len() > 0 && path[0] == SEPARATOR {
        seq![Component::RootDir] + piece_components(pieces(path))
    } else {
        piece_components(pieces(path))
    }
}

/// Byte strings in lexicographic order.
pub open spec fn bytes_le(a: Seq<u8>, b: Seq<u8>) -> bool
    decreases a.len(),
{
    if a.len() == 0 {
        true
    } else if b.len() == 0 {
        false
    } else if a[0] != b[0] {
        a[0] < b[0]
    } else {
        bytes_le(a.drop_first(), b.drop_first())
    }
}

/// The place of a component's kind in the order: the root, then `.`, then `..`, then names.
pub open spec fn rank(component: Component) -> int {
    match component {
        Component::RootDir => 0,
        Component::CurDir => 1,
        Component::ParentDir => 2,
        Component::Normal(_) => 3,
    }
}

/// Components in order: by kind, and names by their bytes.
pub open spec fn component_le(a: Component, b: Component) -> bool {
    match (a, b) {
        (Component::Normal(x), Component::Normal(y)) => bytes_le(x, y),
        _ => rank(a) <= rank(b),
    }
}

/// Component sequences in lexicographic order.
pub open spec fn components_le(a: Seq<Component>, b: Seq<Component>) -> bool
    decreases a.len(),
{
    if a.len() == 0 {
        true
    } else if b.len() == 0 {
        false
    } else if a[0] != b[0] {
        component_le(a[0], b[0])
    } else {
        components_le(a.drop_first(), b.drop_first())
    }
}

/// Paths in order: component by component.
pub open spec fn path_le(a: Seq<u8>, b: Seq<u8>) -> bool {
    components_le(components(a), components(b))
}

/// The last component of a path, if that is a name.
pub open spec fn file_name(path: Seq<u8>) -> Option<Seq<u8>> {
    let parts = components(path);
    if parts.len() > 0 {
        match parts.last() {
            Component::Normal(name) => Some(name),
            _ => None,
        }
    } else {
        None
    }
}

/// Where the last dot of a name stands, or -1 where it holds none.
pub open spec fn last_dot(name: Seq<u8>) -> int
    decreases name.len(),
{
    if name.len() == 0 {
        -1
    } else if name.last() == DOT {
        name.len() - 1
    } else {
        last_dot(name.drop_last())
    }
}

/// What follows the last dot of a path's file name; a dot that begins the name sets no
/// extension apart.
pub open spec fn extension(path: Seq<u8>) -> Option<Seq<u8>> {
    match file_name(path) {
        Some(name) => if last_dot(name) > 0 {
            Some(name.skip(last_dot(name) + 1))
        } else {
            None
        },
        None => None,
    }
}

/// Whether a path passes an extension filter: without a filter every path does, with one
/// those whose extension is the filter's text.
pub open spec fn matches_extension(path: Seq<u8>, filter: Option<Seq<char>>) -> bool {
    match filter {
        Some(text) => extension(path) == Some(encode_utf8(text)),
        None => true,
    }
}

/// What `String::from_utf8_lossy` makes of a byte string.
pub uninterp spec fn lossy_utf8(bytes: Seq<u8>) -> Seq<char>;

/// Calls `String::from_utf8_lossy`. The text is a function of the bytes alone; bytes that
/// are valid UTF-8 are decoded as they are. Which characters stand for bytes that are not is
/// left unsaid.
#[verifier::external_body]
fn from_utf8_lossy(bytes: &Vec<u8>) -> (text: String)
    ensures
        text@ == lossy_utf8(bytes@),
        valid_utf8(bytes@) ==> text@ == decode_utf8(bytes@),
{
    String::from_utf8_lossy(bytes).into_owned()
}

/// A component of a path with its name, as [`BundlePath::components`] hands it out.
#[derive(Debug)]
pub enum PathComponent {
    RootDir,
    CurDir,
    ParentDir,
    Normal(Vec<u8>),
}

impl DeepView for PathComponent {
    type V = Component;

    open spec fn deep_view(&self) -> Component {
        match self {
            PathComponent::RootDir => Component::RootDir,
            PathComponent::CurDir => Component::CurDir,
            PathComponent::ParentDir => Component::ParentDir,
            PathComponent::Normal(name) => Component::Normal(name@),
        }
    }
}

/// Takes the component that a piece stands for, as [`piece_component`] says.
fn component_of(piece: Vec<u8>, leading: bool) -> (component: Option<PathComponent>)
    ensures
        match component {
            Some(c) => piece_component(piece@, leading) == Some(c.deep_view()),
            None => piece_component(piece@, leading) is None,
        },
{
    if piece.len() == 0 {
        None
    } else if piece.len() == 1 && piece[0] == DOT {
        assert(piece@ =~= seq![DOT]);
        if leading {
            Some(PathComponent::CurDir)
        } else {
            None
        }
    } else if piece.len() == 2 && piece[0] == DOT && piece[1] == DOT {
        assert(piece@ =~= seq![DOT, DOT]);
        Some(PathComponent::ParentDir)
    } else {
        Some(PathComponent::Normal(piece))
    }
}

/// Whether `a` comes no later than `b` in lexicographic order.
fn bytes_at_most(a: &Vec<u8>, b: &Vec<u8>) -> (at_most: bool)
    ensures
        at_most == bytes_le(a@, b@),
{
    let mut i: usize = 0;
    assert(a@.skip(0) =~= a@);
    assert(b@.skip(0) =~= b@);
    while i < a.len() && i < b.len()
        invariant
            i <= a.len(),
            i <= b.len(),
            bytes_le(a@, b@) == bytes_le(a@.skip(i as int), b@.skip(i as int)),
        decreases a.len() - i,
    {
        if a[i] != b[i] {
            return a[i] < b[i];
        }
        assert(a@.skip(i as int).drop_first() =~= a@.skip(i + 1));
        assert(b@.skip(i as int).drop_first() =~= b@.skip(i + 1));
        i = i + 1;
    }
    i == a.len()
}

/// Whether two byte strings are the same.
fn bytes_equal(a: &Vec<u8>, b: &[u8]) -> (equal: bool)
    ensures
        equal == (a@ == b@),
{
    if a.len() != b.len() {
        return false;
    }
    let mut i: usize = 0;
    while i < a.len()
        invariant
            i <= a.len(),
            a.len() == b.len(),
            forall|k: int| 0 <= k < i ==> a@[k] == b@[k],
        decreases a.len() - i,
    {
        if a[i] != b[i] {
            return false;
        }
        i = i + 1;
    }
    assert(a@ =~= b@);
    true
}

/// Whether two components are the same.
fn component_equal(a: &PathComponent, b: &PathComponent) -> (equal: bool)
    ensures
        equal == (a.deep_view() == b.deep_view()),
{
    match (a, b) {
        (PathComponent::RootDir, PathComponent::RootDir) => true,
        (PathComponent::CurDir, PathComponent::CurDir) => true,
        (PathComponent::ParentDir, PathComponent::ParentDir) => true,
        (PathComponent::Normal(x), PathComponent::Normal(y)) => bytes_equal(x, y.as_slice()),
        _ => false,
    }
}

impl PathComponent {
    /// The place of the component's kind in the order.
    fn rank(&self) -> (place: u8)
        ensures
            place == rank(self.deep_view()),
    {
        match self {
            PathComponent::RootDir => 0,
            PathComponent::CurDir => 1,
            PathComponent::ParentDir => 2,
            PathComponent::Normal(_) => 3,
        }
    }
}

/// Whether `a` comes no later than `b` in the order of components.
fn component_at_most(a: &PathComponent, b: &PathComponent) -> (at_most: bool)
    ensures
        at_most == component_le(a.deep_view(), b.deep_view()),
{
    match (a, b) {
        (PathComponent::Normal(x), PathComponent::Normal(y)) => bytes_at_most(x, y),
        _ => a.rank() <= b.rank(),
    }
}

impl Clone for BundlePath {
    fn clone(&self) -> (copy: Self)
        ensures
            copy@ == self@,
    {
        let bytes = self.bytes.clone();
        assert(bytes@ =~= self.bytes@);
        BundlePath { bytes }
    }
}

impl BundlePath {
    /// The path with the given bytes.
    pub fn new(bytes: Vec<u8>) -> (path: BundlePath)
        ensures
            path@ == bytes@,
    {
        BundlePath { bytes }
    }

    /// The path that a text spells.
    pub fn from_text(text: &str) -> (path: BundlePath)
        ensures
            path@ == encode_utf8(text@),
    {
        let mut bytes: Vec<u8> = Vec::new();
        bytes.extend_from_slice(text.as_bytes());
        assert(bytes@ =~= encode_utf8(text@));
        BundlePath { bytes }
    }

    /// The path as text, for messages and for the fingerprint.
    pub fn text(&self) -> (text: String)
        ensures
            text@ == lossy_utf8(self@),
            valid_utf8(self@) ==> text@ == decode_utf8(self@),
    {
        from_utf8_lossy(&self.bytes)
    }

    /// The components of the path.
    pub fn components(&self) -> (parts: Vec<PathComponent>)
        ensures
            parts.deep_view() == components(self@),
    {
        let mut parts: Vec<PathComponent> = Vec::new();
        let mut piece: Vec<u8> = Vec::new();
        let mut leading: bool = true;
        let ghost root: Seq<Component> = if self@.len() > 0 && self@[0] == SEPARATOR {
            seq![Component::RootDir]
        } else {
            Seq::empty()
        };
        if self.bytes.len() > 0 && self.bytes[0] == SEPARATOR {
            parts.push(PathComponent::RootDir);
        }
        let mut i: usize = 0;
        assert(pieces(self@.take(0)).drop_last() =~= Seq::empty());
        assert(parts.deep_view() =~= root + piece_components(
            pieces(self@.take(0)).drop_last(),
        ));
        while i < self.bytes.len()
            invariant
                i <= self.bytes.len(),
                self@ == self.bytes@,
                pieces(self@.take(i as int)).len() > 0,
                piece@ == pieces(self@.take(i as int)).last(),
                leading == (pieces(self@.take(i as int)).len() == 1),
                parts.deep_view() == root + piece_components(
                    pieces(self@.take(i as int)).drop_last(),
                ),
            decreases self.bytes.len() - i,
        {
            let byte = self.bytes[i];
            let ghost before = pieces(self@.take(i as int));
            let ghost after = pieces(self@.take(i + 1));
            assert(self@.take(i + 1).drop_last() =~= self@.take(i as int));
            if byte == SEPARATOR {
                let ghost parts_before = parts.deep_view();
                assert(after.drop_last() =~= before);
                if let Some(component) = component_of(piece, leading) {
                    parts.push(component);
                    assert(parts.deep_view() =~= parts_before.push(component.deep_view()));
                }
                assert(parts.deep_view() =~= root + piece_components(before));
                piece = Vec::new();
                leading = false;
            } else {
                piece.push(byte);
                assert(after.drop_last() =~= before.drop_last());
            }
            i = i + 1;
        }
        assert(self@.take(i as int) =~= self@);
        let ghost parts_before = parts.deep_view();
        if let Some(component) = component_of(piece, leading) {
            parts.push(component);
            assert(parts.deep_view() =~= parts_before.push(component.deep_view()));
        }
        assert(parts.deep_view() =~= root + piece_components(pieces(self@)));
        assert(parts.deep_view() =~= components(self@));
        parts
    }

    /// Whether the path comes no later than `other` in the order of paths.
    pub fn at_most(&self, other: &BundlePath) -> (at_most: bool)
        ensures
            at_most == path_le(self@, other@),
    {
        let a = self.components();
        let b = other.components();
        let ghost x = components(self@);
        let ghost y = components(other@);
        let mut i: usize = 0;
        assert(x.skip(0) =~= x);
        assert(y.skip(0) =~= y);
        while i < a.len() && i < b.len()
            invariant
                i <= a.len(),
                i <= b.len(),
                x == components(self@),
                y == components(other@),
                a.deep_view() == x,
                b.deep_view() == y,
                components_le(x, y) == components_le(x.skip(i as int), y.skip(i as int)),
            decreases a.len() - i,
        {
            assert(x[i as int] == a@[i as int].deep_view());
            assert(y[i as int] == b@[i as int].deep_view());
            if !component_equal(&a[i], &b[i]) {
                return component_at_most(&a[i], &b[i]);
            }
            assert(x.skip(i as int).drop_first() =~= x.skip(i + 1));
            assert(y.skip(i as int).drop_first() =~= y.skip(i + 1));
            i = i + 1;
        }
        i == a.len()
    }

    /// What follows the last dot of the file name, if the name has such a part.
    pub fn extension(&self) -> (found: Option<Vec<u8>>)
        ensures
            match found {
                Some(ext) => extension(self@) == Some(ext@),
                None => extension(self@) is None,
            },
    {
        let mut parts = self.components();
        let ghost all = parts.deep_view();
        match parts.pop() {
            Some(PathComponent::Normal(name)) => {
                assert(all.last() == Component::Normal(name@));
                let mut i: usize = name.len();
                assert(name@.take(i as int) =~= name@);
                while i > 0 && name[i - 1] != DOT
                    invariant
                        i <= name.len(),
                        last_dot(name@) == last_dot(name@.take(i as int)),
                    decreases i,
                {
                    assert(name@.take(i as int).drop_last() =~= name@.take(i - 1));
                    i = i - 1;
                }
                assert(i == last_dot(name@) + 1);
                if i > 1 {
                    let mut rest = name;
                    let ext = rest.split_off(i);
                    assert(ext@ =~= name@.skip(last_dot(name@) + 1));
                    Some(ext)
                } else {
                    None
                }
            },
            _ => None,
        }
    }

    /// Whether the path passes an extension filter.
    pub fn matches_extension(&self, filter: &Option<String>) -> (matches: bool)
        ensures
            matches == matches_extension(self@, filter.deep_view()),
    {
        match filter {
            None => true,
            Some(text) => match self.extension() {
                Some(ext) => bytes_equal(&ext, text.as_str().as_bytes()),
                None => false,
            },
        }
    }
}

} // verus!
