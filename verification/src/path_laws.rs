//! What the components, the order and the extension of a path are, in terms of its bytes.
//!
//! The laws speak of the bytes themselves: 47 is `/` and 46 is `.`.

use vstd::prelude::*;
use vstd::utf8::encode_utf8;

use crate::path::{
    bytes_le, component_le, components, components_le, extension, last_dot, matches_extension,
    path_le, piece_components, pieces, BundlePath, Component, PathComponent,
};

verus! {

/// What contracts say of a path, alone or in a list, they say of its bytes.
pub proof fn law_views_show_the_bytes(path: BundlePath, list: Vec<BundlePath>)
    ensures
        path@ == path.bytes@,
        path.deep_view() == path.bytes@,
        list.deep_view().len() == list@.len(),
        forall|i: int| 0 <= i < list@.len() ==> #[trigger] list.deep_view()[i] == list@[i].bytes@,
{
}

/// What contracts say of a component, they say of its kind and the bytes of its name.
pub proof fn law_component_views_show_the_name(name: Vec<u8>)
    ensures
        PathComponent::RootDir.deep_view() == Component::RootDir,
        PathComponent::CurDir.deep_view() == Component::CurDir,
        PathComponent::ParentDir.deep_view() == Component::ParentDir,
        PathComponent::Normal(name).deep_view() == Component::Normal(name@),
{
}

/// A path is cut at each `/` and nowhere else, and no byte of it is lost.
pub proof fn law_pieces_are_cut_at_separators(front: Seq<u8>, back: Seq<u8>)
    requires
        forall|i: int| 0 <= i < front.len() ==> #[trigger] front[i] != 47,
    ensures
        pieces(front) == seq![front],
        pieces(front + seq![47u8] + back) == seq![front] + pieces(back),
    decreases front.len() + back.len(),
{
    if back.len() > 0 {
        let whole = front + seq![47u8] + back;
        assert(whole.drop_last() =~= front + seq![47u8] + back.drop_last());
        law_pieces_are_cut_at_separators(front, back.drop_last());
        lemma_some_piece(back.drop_last());
        let before = pieces(back.drop_last());
        let all = seq![front] + before;
        assert(all.last() == before.last());
        if back.last() == 47 {
            assert(all.push(Seq::empty()) =~= seq![front] + before.push(Seq::empty()));
        } else {
            let piece = before.last().push(back.last());
            assert(all.update(all.len() - 1, piece) =~= seq![front] + before.update(
                before.len() - 1,
                piece,
            ));
        }
    } else {
        if front.len() > 0 {
            let short = front.drop_last();
            assert forall|i: int| 0 <= i < short.len() implies #[trigger] short[i] != 47 by {
                assert(short[i] == front[i]);
            }
            law_pieces_are_cut_at_separators(short, back);
            assert(front[front.len() - 1] != 47);
            assert(seq![short].update(0, short.push(front.last())) =~= seq![front]) by {
                assert(short.push(front.last()) =~= front);
            }
        } else {
            assert(front =~= Seq::empty());
        }
        let whole = front + seq![47u8] + back;
        assert(pieces(front) =~= seq![front]);
        assert(whole.drop_last() =~= front);
        assert(whole.last() == 47);
        assert(pieces(whole) == seq![front].push(Seq::empty()));
        assert(pieces(back) == seq![Seq::<u8>::empty()]);
        assert(pieces(whole) =~= seq![front] + pieces(back));
    }
}

proof fn lemma_some_piece(path: Seq<u8>)
    ensures
        pieces(path).len() > 0,
    decreases path.len(),
{
    if path.len() > 0 {
        lemma_some_piece(path.drop_last());
    }
}

proof fn lemma_last_piece(dir: Seq<u8>, name: Seq<u8>)
    requires
        forall|i: int| 0 <= i < name.len() ==> #[trigger] name[i] != 47,
    ensures
        pieces(dir + seq![47u8] + name) == pieces(dir).push(name),
    decreases name.len(),
{
    let whole = dir + seq![47u8] + name;
    if name.len() == 0 {
        assert(whole.drop_last() =~= dir);
        assert(name =~= Seq::empty());
    } else {
        let short = name.drop_last();
        assert forall|i: int| 0 <= i < short.len() implies #[trigger] short[i] != 47 by {
            assert(short[i] == name[i]);
        }
        lemma_last_piece(dir, short);
        assert(whole.drop_last() =~= dir + seq![47u8] + short);
        assert(name[name.len() - 1] != 47);
        assert(short.push(name.last()) =~= name);
        let before = pieces(dir).push(short);
        assert(before.update(before.len() - 1, name) =~= pieces(dir).push(name));
    }
}

proof fn lemma_components_of_pieces(before: Seq<Seq<u8>>, name: Seq<u8>)
    requires
        before.len() > 0,
    ensures
        name.len() == 0 || name == seq![46u8] ==> piece_components(before.push(name))
            == piece_components(before),
        name == seq![46u8, 46u8] ==> piece_components(before.push(name)) == piece_components(
            before,
        ).push(Component::ParentDir),
        name.len() > 0 && name != seq![46u8] && name != seq![46u8, 46u8] ==> piece_components(
            before.push(name),
        ) == piece_components(before).push(Component::Normal(name)),
{
    assert(before.push(name).drop_last() =~= before);
    assert(seq![46u8, 46u8].len() == 2 && seq![46u8].len() == 1);
}

/// A path without `/` is its only component: `.` and `..` stand for themselves, any other
/// text is a name, and an empty path has no component.
pub proof fn law_components_of_one_name(name: Seq<u8>)
    requires
        forall|i: int| 0 <= i < name.len() ==> #[trigger] name[i] != 47,
    ensures
        name.len() == 0 ==> components(name) == Seq::<Component>::empty(),
        name == seq![46u8] ==> components(name) == seq![Component::CurDir],
        name == seq![46u8, 46u8] ==> components(name) == seq![Component::ParentDir],
        name.len() > 0 && name != seq![46u8] && name != seq![46u8, 46u8] ==> components(name)
            == seq![Component::Normal(name)],
{
    law_pieces_are_cut_at_separators(name, Seq::empty());
    assert(seq![name].drop_last() =~= Seq::empty());
    assert(piece_components(seq![name].drop_last()) =~= Seq::empty());
    assert(seq![46u8, 46u8].len() == 2 && seq![46u8].len() == 1);
    assert(components(name) == piece_components(seq![name]));
    if name.len() > 0 {
        if name == seq![46u8] {
            assert(components(name) =~= seq![Component::CurDir]);
        } else if name == seq![46u8, 46u8] {
            assert(components(name) =~= seq![Component::ParentDir]);
        } else {
            assert(components(name) =~= seq![Component::Normal(name)]);
        }
    }
}

/// A path that goes on behind another one has that one's components and one more: a name or
/// `..`. An empty piece and a `.` add none.
pub proof fn law_components_of_a_longer_path(dir: Seq<u8>, name: Seq<u8>)
    requires
        dir.len() > 0,
        forall|i: int| 0 <= i < name.len() ==> #[trigger] name[i] != 47,
    ensures
        name.len() == 0 || name == seq![46u8] ==> components(dir + seq![47u8] + name)
            == components(dir),
        name == seq![46u8, 46u8] ==> components(dir + seq![47u8] + name) == components(dir).push(
            Component::ParentDir,
        ),
        name.len() > 0 && name != seq![46u8] && name != seq![46u8, 46u8] ==> components(
            dir + seq![47u8] + name,
        ) == components(dir).push(Component::Normal(name)),
{
    lemma_last_piece(dir, name);
    lemma_some_piece(dir);
    lemma_components_of_pieces(pieces(dir), name);
    let whole = dir + seq![47u8] + name;
    assert(whole[0] == dir[0]);
    let root = seq![Component::RootDir];
    let rest = piece_components(pieces(dir));
    assert(root + rest.push(Component::ParentDir) =~= (root + rest).push(Component::ParentDir));
    assert(root + rest.push(Component::Normal(name)) =~= (root + rest).push(
        Component::Normal(name),
    ));
}

/// A path that begins with `/` has the root as its first component.
pub proof fn law_components_below_the_root(name: Seq<u8>)
    requires
        forall|i: int| 0 <= i < name.len() ==> #[trigger] name[i] != 47,
    ensures
        name.len() == 0 || name == seq![46u8] ==> components(seq![47u8] + name) == seq![
            Component::RootDir,
        ],
        name == seq![46u8, 46u8] ==> components(seq![47u8] + name) == seq![
            Component::RootDir,
            Component::ParentDir,
        ],
        name.len() > 0 && name != seq![46u8] && name != seq![46u8, 46u8] ==> components(
            seq![47u8] + name,
        ) == seq![Component::RootDir, Component::Normal(name)],
{
    let none = Seq::<u8>::empty();
    lemma_last_piece(none, name);
    assert(none + seq![47u8] + name =~= seq![47u8] + name);
    law_pieces_are_cut_at_separators(none, none);
    lemma_components_of_pieces(seq![none], name);
    assert(seq![none].drop_last() =~= Seq::empty());
    assert(piece_components(seq![none].drop_last()) =~= Seq::empty());
    assert(piece_components(seq![none]) =~= Seq::empty());
    let root = seq![Component::RootDir];
    assert(root + Seq::empty() =~= root);
    assert(root + Seq::<Component>::empty().push(Component::ParentDir) =~= seq![
        Component::RootDir,
        Component::ParentDir,
    ]);
    assert(root + Seq::<Component>::empty().push(Component::Normal(name)) =~= seq![
        Component::RootDir,
        Component::Normal(name),
    ]);
}

/// Of two byte strings the one with the smaller byte at the first place where they differ comes
/// first, and one that the other only goes on from comes before the other.
pub proof fn law_first_differing_byte_decides(a: Seq<u8>, b: Seq<u8>, k: int)
    requires
        0 <= k <= a.len(),
        k <= b.len(),
        forall|j: int| 0 <= j < k ==> #[trigger] a[j] == b[j],
    ensures
        k < a.len() && k < b.len() && (a[k] as int) < (b[k] as int) ==> bytes_le(a, b)
            && !bytes_le(b, a),
        k == a.len() ==> bytes_le(a, b),
        k == a.len() && k < b.len() ==> !bytes_le(b, a),
    decreases k,
{
    if k > 0 {
        let x = a.drop_first();
        let y = b.drop_first();
        assert forall|j: int| 0 <= j < k - 1 implies #[trigger] x[j] == y[j] by {
            assert(a[j + 1] == b[j + 1]);
        }
        law_first_differing_byte_decides(x, y, k - 1);
        assert(a[0] == b[0]);
    }
}

proof fn lemma_first_differing_component(x: Seq<Component>, y: Seq<Component>, k: int)
    requires
        0 <= k <= x.len(),
        k <= y.len(),
        forall|j: int| 0 <= j < k ==> #[trigger] x[j] == y[j],
    ensures
        k < x.len() && k < y.len() && x[k] != y[k] ==> components_le(x, y) == component_le(
            x[k],
            y[k],
        ) && components_le(y, x) == component_le(y[k], x[k]),
        k == x.len() ==> components_le(x, y),
        k == x.len() && k < y.len() ==> !components_le(y, x),
    decreases k,
{
    if k > 0 {
        let p = x.drop_first();
        let q = y.drop_first();
        assert forall|j: int| 0 <= j < k - 1 implies #[trigger] p[j] == q[j] by {
            assert(x[j + 1] == y[j + 1]);
        }
        lemma_first_differing_component(p, q, k - 1);
        assert(x[0] == y[0]);
    }
}

/// Of two paths the first component in which they differ decides: the root comes before `.`,
/// that before `..`, that before any name, and of two names the one with the smaller byte at
/// the first place where they differ, or the one that the other only goes on from, comes first.
/// A path comes before those that only go on from it.
pub proof fn law_first_differing_component_decides(a: Seq<u8>, b: Seq<u8>, k: int, m: int)
    requires
        0 <= k <= components(a).len(),
        k <= components(b).len(),
        forall|j: int| 0 <= j < k ==> #[trigger] components(a)[j] == components(b)[j],
    ensures
        k == components(a).len() ==> path_le(a, b),
        k == components(a).len() && k < components(b).len() ==> !path_le(b, a),
        k < components(a).len() && k < components(b).len() ==> match (
            components(a)[k],
            components(b)[k],
        ) {
            (Component::Normal(p), Component::Normal(q)) => 0 <= m <= p.len() && m <= q.len() && (
            forall|j: int| 0 <= j < m ==> #[trigger] p[j] == q[j]) && m < q.len() && (m == p.len()
                || (p[m] as int) < (q[m] as int)) ==> path_le(a, b) && !path_le(b, a),
            (p, Component::Normal(_)) => path_le(a, b) && !path_le(b, a),
            (Component::RootDir, q) => q != Component::RootDir ==> path_le(a, b) && !path_le(b, a),
            (Component::CurDir, Component::ParentDir) => path_le(a, b) && !path_le(b, a),
            _ => true,
        },
{
    let x = components(a);
    let y = components(b);
    lemma_first_differing_component(x, y, k);
    if k < x.len() && k < y.len() {
        if let (Component::Normal(p), Component::Normal(q)) = (x[k], y[k]) {
            if 0 <= m <= p.len() && m <= q.len() && (forall|j: int|
                0 <= j < m ==> #[trigger] p[j] == q[j]) {
                law_first_differing_byte_decides(p, q, m);
                if m < q.len() && (m == p.len() || (p[m] as int) < (q[m] as int)) {
                    assert(p != q);
                }
            }
        }
    }
}

/// Whether a text is a file name: it is not empty, holds no `/` and is neither `.` nor `..`.
pub open spec fn is_name(name: Seq<u8>) -> bool {
    &&& name.len() > 0
    &&& forall|i: int| 0 <= i < name.len() ==> #[trigger] name[i] != 47
    &&& name != seq![46u8]
    &&& name != seq![46u8, 46u8]
}

/// Two files of one directory come in the order of the first byte in which their names differ;
/// a name that another only goes on from comes before the other.
pub proof fn law_files_of_a_directory_order_by_name(
    dir: Seq<u8>,
    one: Seq<u8>,
    other: Seq<u8>,
    k: int,
)
    requires
        dir.len() > 0,
        is_name(one),
        is_name(other),
        0 <= k <= one.len(),
        k < other.len(),
        forall|j: int| 0 <= j < k ==> #[trigger] one[j] == other[j],
        k == one.len() || (one[k] as int) < (other[k] as int),
    ensures
        path_le(dir + seq![47u8] + one, dir + seq![47u8] + other),
        !path_le(dir + seq![47u8] + other, dir + seq![47u8] + one),
{
    law_components_of_a_longer_path(dir, one);
    law_components_of_a_longer_path(dir, other);
    law_first_differing_component_decides(
        dir + seq![47u8] + one,
        dir + seq![47u8] + other,
        components(dir).len() as int,
        k,
    );
}

proof fn lemma_last_name(dir: Seq<u8>, name: Seq<u8>)
    requires
        dir.len() == 0 || dir.last() == 47,
        is_name(name),
    ensures
        components(dir + name).len() > 0,
        components(dir + name).last() == Component::Normal(name),
{
    if dir.len() == 0 {
        assert(dir + name =~= name);
        law_components_of_one_name(name);
    } else {
        let above = dir.drop_last();
        assert(dir + name =~= above + seq![47u8] + name);
        if above.len() == 0 {
            assert(dir + name =~= seq![47u8] + name);
            law_components_below_the_root(name);
        } else {
            law_components_of_a_longer_path(above, name);
        }
    }
}

proof fn lemma_last_dot(stem: Seq<u8>, ext: Seq<u8>)
    requires
        forall|i: int| 0 <= i < ext.len() ==> #[trigger] ext[i] != 46,
    ensures
        last_dot(stem + seq![46u8] + ext) == stem.len(),
    decreases ext.len(),
{
    let name = stem + seq![46u8] + ext;
    if ext.len() == 0 {
        assert(name.last() == 46);
    } else {
        let short = ext.drop_last();
        assert forall|i: int| 0 <= i < short.len() implies #[trigger] short[i] != 46 by {
            assert(short[i] == ext[i]);
        }
        lemma_last_dot(stem, short);
        assert(name.drop_last() =~= stem + seq![46u8] + short);
        assert(name.last() == ext[ext.len() - 1]);
    }
}

proof fn lemma_no_late_dot(name: Seq<u8>)
    requires
        forall|i: int| 1 <= i < name.len() ==> #[trigger] name[i] != 46,
    ensures
        last_dot(name) <= 0,
    decreases name.len(),
{
    if name.len() > 1 {
        let short = name.drop_last();
        assert forall|i: int| 1 <= i < short.len() implies #[trigger] short[i] != 46 by {
            assert(short[i] == name[i]);
        }
        lemma_no_late_dot(short);
        assert(name[name.len() - 1] != 46);
    } else if name.len() == 1 {
        assert(name.drop_last() =~= Seq::empty());
        assert(last_dot(name.drop_last()) == -1);
    }
}

/// The extension of a path is what stands behind the last dot of its file name, where something
/// stands before that dot; and the path passes a filter exactly where the bytes of its extension
/// are those of the filter's text. Without a filter every path passes.
pub proof fn law_extension_follows_the_last_dot(
    dir: Seq<u8>,
    stem: Seq<u8>,
    ext: Seq<u8>,
    text: Seq<char>,
)
    requires
        dir.len() == 0 || dir.last() == 47,
        stem.len() > 0,
        forall|i: int| 0 <= i < stem.len() ==> #[trigger] stem[i] != 47,
        forall|i: int| 0 <= i < ext.len() ==> #[trigger] ext[i] != 46 && ext[i] != 47,
        stem != seq![46u8] || ext.len() > 0,
    ensures
        extension(dir + (stem + seq![46u8] + ext)) == Some(ext),
        matches_extension(dir + (stem + seq![46u8] + ext), Some(text)) <==> ext == encode_utf8(
            text,
        ),
        matches_extension(dir + (stem + seq![46u8] + ext), None),
{
    let name = stem + seq![46u8] + ext;
    assert forall|i: int| 0 <= i < name.len() implies #[trigger] name[i] != 47 by {
        if i < stem.len() {
            assert(name[i] == stem[i]);
        } else if i > stem.len() {
            assert(name[i] == ext[i - stem.len() - 1]);
        }
    }
    assert(name != seq![46u8]) by {
        assert(seq![46u8].len() == 1);
    }
    if name == seq![46u8, 46u8] {
        assert(name.len() == 2);
        assert(stem =~= seq![46u8]) by {
            assert(name[0] == stem[0]);
        }
        assert(false);
    }
    lemma_last_name(dir, name);
    lemma_last_dot(stem, ext);
    assert(name.skip(stem.len() as int + 1) =~= ext);
}

/// A file name without a dot behind its first byte, and `..`, have no extension and pass no
/// filter; nor do the empty path, `/`, `.` and `/.`.
pub proof fn law_no_extension_without_a_dot(dir: Seq<u8>, name: Seq<u8>, text: Seq<char>)
    requires
        dir.len() == 0 || dir.last() == 47,
        is_name(name),
        forall|i: int| 1 <= i < name.len() ==> #[trigger] name[i] != 46,
    ensures
        extension(dir + name) is None,
        !matches_extension(dir + name, Some(text)),
        matches_extension(dir + name, None),
        extension(dir + seq![46u8, 46u8]) is None,
        !matches_extension(dir + seq![46u8, 46u8], Some(text)),
        extension(Seq::empty()) is None,
        extension(seq![47u8]) is None,
        extension(seq![46u8]) is None,
        extension(seq![47u8, 46u8]) is None,
{
    lemma_last_name(dir, name);
    lemma_no_late_dot(name);
    let up = seq![46u8, 46u8];
    let none = Seq::<u8>::empty();
    law_components_of_one_name(none);
    law_components_of_one_name(seq![46u8]);
    law_components_of_one_name(up);
    law_components_below_the_root(none);
    law_components_below_the_root(seq![46u8]);
    law_components_below_the_root(up);
    assert(seq![47u8] + none =~= seq![47u8]);
    assert(seq![47u8] + seq![46u8] =~= seq![47u8, 46u8]);
    if dir.len() == 0 {
        assert(dir + up =~= up);
    } else {
        let above = dir.drop_last();
        assert(dir + up =~= above + seq![47u8] + up);
        if above.len() == 0 {
            assert(dir + up =~= seq![47u8] + up);
        } else {
            law_components_of_a_longer_path(above, up);
        }
    }
}

/// A `/` or a `/.` at the end of a path changes neither its extension nor what it passes.
pub proof fn law_extension_ignores_a_trailing_separator(path: Seq<u8>, filter: Option<Seq<char>>)
    requires
        path.len() > 0,
    ensures
        extension(path + seq![47u8]) == extension(path),
        extension(path + seq![47u8, 46u8]) == extension(path),
        matches_extension(path + seq![47u8], filter) == matches_extension(path, filter),
        matches_extension(path + seq![47u8, 46u8], filter) == matches_extension(path, filter),
{
    let none = Seq::<u8>::empty();
    law_components_of_a_longer_path(path, none);
    law_components_of_a_longer_path(path, seq![46u8]);
    assert(path + seq![47u8] + none =~= path + seq![47u8]);
    assert(path + seq![47u8] + seq![46u8] =~= path + seq![47u8, 46u8]);
}

} // verus!
