//! How paths are spelled: what their components are, how they are put together,
//! and in which order they stand.

use vstd::prelude::*;
use vstd::utf8::encode_utf8;

use crate::display::{printable_name, shown_bytes};
use crate::order::{bytes_order, lexicographic, Order};
use crate::path::{
    ascii_lower, component_of, component_order, components_of, drive_at, file_name_of,
    head_components, identity_of, is_absolute_path, lemma_empty_path, meaning_of, name_end,
    name_text, named_pieces, path_order, path_text, pieces, plain_separators, prefix_len,
    same_component, same_ignoring_case, separates, separators_of, starts_verbatim,
    starts_with_two_separators, volume_key, without_surrogates, ComponentView, PathView, Platform,
    Separators,
};
use crate::path_join::joined;
use crate::text::{escaped_text, lossy_text};
use crate::utils::{equivalent, parent_of, starts_with};

verus! {

// --------------------------------------------------------------------------
// Components
// --------------------------------------------------------------------------

/// No byte of a name separates components on this platform.
pub open spec fn is_one_piece(platform: Platform, name: Seq<u8>) -> bool {
    forall|i: int|
        0 <= i < name.len() ==> #[trigger] name[i] != 0x2f && (platform is Windows ==> name[i]
            != 0x5c)
}

/// What a name behind a separator adds to the components of a path: nothing where
/// it is empty or `.`, a step up where it is `..`, and else itself.
pub open spec fn added_by(name: Seq<u8>) -> Seq<ComponentView> {
    if name.len() == 0 {
        Seq::empty()
    } else if name.len() == 1 && name[0] == 0x2e {
        Seq::empty()
    } else if name.len() == 2 && name[0] == 0x2e && name[1] == 0x2e {
        seq![ComponentView::ParentDir]
    } else {
        seq![ComponentView::Normal(name)]
    }
}

proof fn lemma_component_of(name: Seq<u8>)
    ensures
        match component_of(name, false) {
            None => added_by(name) == Seq::<ComponentView>::empty(),
            Some(c) => added_by(name) == seq![c],
        },
        name.len() == 1 && name[0] == 0x2e ==> component_of(name, true) == Some(
            ComponentView::CurDir,
        ),
        !(name.len() == 1 && name[0] == 0x2e) ==> component_of(name, true) == component_of(
            name,
            false,
        ),
{
    if name.len() == 1 && name[0] == 0x2e {
        assert(name =~= seq![0x2eu8]);
    } else {
        if name =~= seq![0x2eu8] {
            assert(name[0] == 0x2e);
        }
        if name.len() == 2 && name[0] == 0x2e && name[1] == 0x2e {
            assert(name =~= seq![0x2eu8, 0x2eu8]);
        } else if name =~= seq![0x2eu8, 0x2eu8] {
            assert(name[0] == 0x2e && name[1] == 0x2e);
        }
    }
}

proof fn lemma_pieces_append(t: Seq<u8>, b: u8, name: Seq<u8>, s: Separators)
    requires
        separates(s, b),
        forall|i: int| 0 <= i < name.len() ==> !separates(s, #[trigger] name[i]),
    ensures
        pieces(t.push(b) + name, s) == pieces(t, s).push(name),
    decreases name.len(),
{
    let text = t.push(b) + name;
    if name.len() == 0 {
        assert(text =~= t.push(b));
        assert(text.drop_last() =~= t);
        assert(name =~= Seq::empty());
    } else {
        let fewer = name.drop_last();
        assert forall|i: int| 0 <= i < fewer.len() implies !separates(s, #[trigger] fewer[i]) by {
            assert(fewer[i] == name[i]);
        }
        lemma_pieces_append(t, b, fewer, s);
        assert(text.drop_last() =~= t.push(b) + fewer);
        assert(text.last() == name.last());
        assert(!separates(s, name[name.len() - 1]));
        let before = pieces(t, s).push(fewer);
        assert(before.drop_last() =~= pieces(t, s));
        assert(before.last().push(name.last()) =~= name);
    }
}

proof fn lemma_one_piece(name: Seq<u8>, s: Separators)
    requires
        forall|i: int| 0 <= i < name.len() ==> !separates(s, #[trigger] name[i]),
    ensures
        pieces(name, s) == seq![name],
    decreases name.len(),
{
    if name.len() == 0 {
        assert(name =~= Seq::empty());
    } else {
        let fewer = name.drop_last();
        assert forall|i: int| 0 <= i < fewer.len() implies !separates(s, #[trigger] fewer[i]) by {
            assert(fewer[i] == name[i]);
        }
        lemma_one_piece(fewer, s);
        assert(!separates(s, name[name.len() - 1]));
        assert(seq![fewer].drop_last() =~= Seq::<Seq<u8>>::empty());
        assert(fewer.push(name.last()) =~= name);
        assert(pieces(name, s) =~= seq![name]);
    }
}

proof fn lemma_pieces_not_empty(t: Seq<u8>, s: Separators)
    ensures
        pieces(t, s).len() > 0,
    decreases t.len(),
{
    if t.len() > 0 {
        lemma_pieces_not_empty(t.drop_last(), s);
    }
}

/// A name behind a path and a separator adds itself to the components of the path,
/// and a separator alone, or `.` behind it, adds nothing: on Unix, and on Windows
/// where the path starts with a drive or with the beginning of a name.
pub proof fn lemma_name_behind_path(v: PathView, separator: u8, name: Seq<u8>)
    requires
        v.text.len() > 0,
        separator == 0x2f || (v.platform is Windows && separator == 0x5c),
        is_one_piece(v.platform, name),
        v.platform is Windows ==> v.text[0] != 0x2f && v.text[0] != 0x5c,
        v.platform is Windows && drive_at(v.text, 0) ==> v.text.len() > 2,
    ensures
        components_of(PathView { text: v.text.push(separator) + name, ..v }) == components_of(v)
            + added_by(name),
{
    let w = PathView { text: v.text.push(separator) + name, ..v };
    let s = plain_separators(v.platform);
    let n = prefix_len(v);
    assert(w.text[0] == v.text[0]);
    assert(v.text.len() > 1 ==> w.text[1] == v.text[1]);
    assert(drive_at(w.text, 0) == drive_at(v.text, 0));
    assert(prefix_len(w) == n);
    assert(n == 0 || n == 2);
    assert(w.text[n] == v.text[n]);
    assert(w.text.take(n) =~= v.text.take(n));
    assert(head_components(w) == head_components(v));
    let rest = v.text.skip(n);
    assert(w.text.skip(n) =~= rest.push(separator) + name);
    assert forall|i: int| 0 <= i < name.len() implies !separates(s, #[trigger] name[i]) by {}
    lemma_pieces_append(rest, separator, name, s);
    lemma_pieces_not_empty(rest, s);
    let ps = pieces(rest, s);
    assert(ps.push(name).drop_last() =~= ps);
    lemma_component_of(name);
    let (x, y) = (components_of(w), components_of(v) + added_by(name));
    match component_of(name, false) {
        None => {
            assert(x =~= y);
        },
        Some(c) => {
            assert(x =~= y);
        },
    }
}

/// What a path begins with: a name stands for itself, `.` for the current directory
/// and `..` for a step up; a separator alone stands for the root; a drive stands
/// for itself, with a root behind it where a separator follows. The empty path has
/// no components.
pub proof fn lemma_beginnings(platform: Platform, name: Seq<u8>, letter: u8, separator: u8)
    requires
        is_one_piece(platform, name),
        name.len() > 0,
        platform is Windows ==> !drive_at(name, 0),
        separator == 0x2f || (platform is Windows && separator == 0x5c),
        (0x41 <= letter && letter <= 0x5a) || (0x61 <= letter && letter <= 0x7a),
    ensures
        components_of(PathView { platform, text: Seq::empty() }).len() == 0,
        components_of(PathView { platform, text: name }) == (if name.len() == 1 && name[0]
            == 0x2e {
            seq![ComponentView::CurDir]
        } else {
            added_by(name)
        }),
        components_of(PathView { platform, text: seq![separator] }) == seq![ComponentView::RootDir],
        components_of(PathView { platform, text: seq![separator] + name }) == seq![
            ComponentView::RootDir,
        ] + added_by(name),
        platform is Windows ==> components_of(PathView { platform, text: seq![letter, 0x3a] })
            == seq![ComponentView::Prefix(seq![letter, 0x3a])],
        platform is Windows ==> components_of(
            PathView { platform, text: seq![letter, 0x3a, separator] + name },
        ) == seq![ComponentView::Prefix(seq![letter, 0x3a]), ComponentView::RootDir] + added_by(
            name,
        ),
{
    let s = plain_separators(platform);
    assert forall|i: int| 0 <= i < name.len() implies !separates(s, #[trigger] name[i]) by {}
    let none = PathView { platform, text: Seq::empty() };
    lemma_empty_path(none);
    lemma_component_of(name);
    // a name
    let v = PathView { platform, text: name };
    assert(name[0] == name[0]);
    assert(!separates(s, name[0]));
    assert(prefix_len(v) == 0);
    assert(name.skip(0) =~= name);
    lemma_one_piece(name, s);
    assert(seq![name].drop_last() =~= Seq::<Seq<u8>>::empty());
    assert(named_pieces(Seq::<Seq<u8>>::empty(), true, false) == Seq::<ComponentView>::empty());
    assert(components_of(v) =~= if name.len() == 1 && name[0] == 0x2e {
        seq![ComponentView::CurDir]
    } else {
        added_by(name)
    });
    // a separator, alone and with a name behind it
    let empty = Seq::<u8>::empty();
    let root = seq![separator];
    let u = PathView { platform, text: root };
    assert(root.skip(0) =~= empty.push(separator) + empty);
    lemma_pieces_append(empty, separator, empty, s);
    let e = seq![empty];
    assert(pieces(empty, s) == e);
    assert(e.push(empty).drop_last() =~= e);
    assert(e.drop_last() =~= Seq::<Seq<u8>>::empty());
    assert(named_pieces(e, true, false) =~= Seq::<ComponentView>::empty());
    assert(components_of(u) =~= seq![ComponentView::RootDir]);
    let r = PathView { platform, text: root + name };
    assert(r.text[0] == separator && r.text[1] == name[0]);
    assert(prefix_len(r) == 0);
    assert(r.text.skip(0) =~= empty.push(separator) + name);
    lemma_pieces_append(empty, separator, name, s);
    assert(e.push(name).drop_last() =~= e);
    assert(components_of(r) =~= seq![ComponentView::RootDir] + added_by(name));
    if platform is Windows {
        let drive = seq![letter, 0x3a];
        let d = PathView { platform, text: drive };
        assert(drive_at(drive, 0));
        assert(prefix_len(d) == 2);
        assert(drive.skip(2) =~= empty);
        assert(drive.take(2) =~= drive);
        assert(named_pieces(Seq::<Seq<u8>>::empty(), false, false) == Seq::<
            ComponentView,
        >::empty());
        assert(e.last().len() == 0);
        assert(named_pieces(e, false, false) =~= Seq::<ComponentView>::empty());
        assert(components_of(d) =~= seq![ComponentView::Prefix(drive)]);
        let text = seq![letter, 0x3a, separator] + name;
        let w = PathView { platform, text };
        assert(text[0] == letter && text[1] == 0x3a && text[2] == separator);
        assert(drive_at(text, 0));
        assert(prefix_len(w) == 2);
        assert(text.take(2) =~= drive);
        assert(text.skip(2) =~= empty.push(separator) + name);
        assert(components_of(w) =~= seq![ComponentView::Prefix(drive), ComponentView::RootDir]
            + added_by(name));
    }
}

/// The last component of a path that ends in a name is that name, and the name that
/// it is shown by where paths are shortened; otherwise it is shown as a whole.
pub proof fn lemma_last_name(v: PathView, separator: u8, name: Seq<u8>)
    requires
        v.text.len() > 0,
        separator == 0x2f || (v.platform is Windows && separator == 0x5c),
        is_one_piece(v.platform, name),
        v.platform is Windows ==> v.text[0] != 0x2f && v.text[0] != 0x5c,
        v.platform is Windows && drive_at(v.text, 0) ==> v.text.len() > 2,
        added_by(name) == seq![ComponentView::Normal(name)],
    ensures
        ({
            let w = PathView { text: v.text.push(separator) + name, ..v };
            &&& file_name_of(components_of(w)) == Some(name)
            &&& shown_bytes(w, true) == name
            &&& shown_bytes(w, false) == w.text
            &&& v.platform is Unix ==> printable_name(w, true) == escaped_text(
                encode_utf8(lossy_text(name)),
            )
            &&& v.platform is Unix ==> printable_name(w, false) == escaped_text(
                encode_utf8(lossy_text(w.text)),
            )
        }),
{
    lemma_name_behind_path(v, separator, name);
}

/// On Unix a path is absolute if it starts with a slash; on Windows a path on a
/// drive is if a separator follows, and one without a volume never is.
pub proof fn lemma_absolute_paths(v: PathView)
    ensures
        v.platform is Unix ==> (is_absolute_path(v) <==> v.text.len() > 0 && v.text[0] == 0x2f),
        v.platform is Windows && drive_at(v.text, 0) ==> (is_absolute_path(v) <==> v.text.len() > 2
            && (v.text[2] == 0x2f || v.text[2] == 0x5c)),
        v.platform is Windows && v.text.len() > 0 && v.text[0] != 0x2f && v.text[0] != 0x5c
            && !drive_at(v.text, 0) ==> !is_absolute_path(v),
{
}

/// On Unix, a path from the root replaces the one that it is put behind; any other
/// is put behind it with one slash between them, or none where there is nothing
/// before it or a slash already.
pub proof fn lemma_paths_are_joined(base: PathView, other: PathView)
    requires
        base.platform is Unix,
        other.platform is Unix,
    ensures
        joined(base, other).platform is Unix,
        other.text.len() > 0 && other.text[0] == 0x2f ==> joined(base, other).text == other.text,
        other.text.len() == 0 || other.text[0] != 0x2f ==> joined(base, other).text == (
        if base.text.len() == 0 || base.text.last() == 0x2f {
            base.text + other.text
        } else {
            base.text.push(0x2f) + other.text
        }),
{
}

/// On Unix two paths name one place if they have the same components, and one lies
/// below another if its components go on where those of the other end.
pub proof fn lemma_places_on_unix(a: PathView, b: PathView)
    requires
        a.platform is Unix,
        b.platform is Unix,
    ensures
        starts_with(a, b) <==> components_of(a).is_prefix_of(components_of(b)),
        equivalent(a, b) <==> components_of(a) == components_of(b),
        parent_of(a, b) <==> components_of(a).is_prefix_of(components_of(b)) && components_of(
            a,
        ).len() < components_of(b).len(),
{
    let (x, y) = (components_of(a), components_of(b));
    if starts_with(a, b) {
        assert forall|i: int| 0 <= i < x.len() implies x[i] == y[i] by {
            assert(same_component(Platform::Unix, x[i], y[i]));
        }
        assert(y.subrange(0, x.len() as int) =~= x);
    }
    if x.is_prefix_of(y) {
        assert forall|i: int| 0 <= i < x.len() implies same_component(
            Platform::Unix,
            #[trigger] x[i],
            y[i],
        ) by {
            assert(y.subrange(0, x.len() as int)[i] == x[i]);
        }
    }
    if starts_with(b, a) {
        assert forall|i: int| 0 <= i < y.len() implies x[i] == y[i] by {
            assert(same_component(Platform::Unix, y[i], x[i]));
        }
    }
    if equivalent(a, b) {
        assert(x =~= y);
    }
}

// --------------------------------------------------------------------------
// Order
// --------------------------------------------------------------------------

proof fn lemma_first_difference<T>(a: Seq<T>, b: Seq<T>, f: spec_fn(T, T) -> Order, i: int)
    requires
        0 <= i <= a.len(),
        i <= b.len(),
        forall|j: int| 0 <= j < i ==> f(#[trigger] a[j], b[j]) == Order::Same,
        i < a.len() && i < b.len() ==> f(a[i], b[i]) != Order::Same,
    ensures
        lexicographic(a, b, f) == (if i < a.len() && i < b.len() {
            f(a[i], b[i])
        } else if i < b.len() {
            Order::Less
        } else if i < a.len() {
            Order::Greater
        } else {
            Order::Same
        }),
    decreases i,
{
    if i > 0 {
        let (c, d) = (a.drop_first(), b.drop_first());
        assert(f(a[0], b[0]) == Order::Same);
        assert forall|j: int| 0 <= j < i - 1 implies f(#[trigger] c[j], d[j]) == Order::Same by {
            assert(c[j] == a[j + 1] && d[j] == b[j + 1]);
        }
        assert(i < a.len() ==> c[i - 1] == a[i]);
        assert(i < b.len() ==> d[i - 1] == b[i]);
        lemma_first_difference(c, d, f, i - 1);
    }
}

/// Names are ordered by the first byte in which they differ, and a name comes before
/// its continuations.
pub proof fn lemma_names_in_order(x: Seq<u8>, y: Seq<u8>, i: int)
    requires
        0 <= i <= x.len(),
        i <= y.len(),
        forall|j: int| 0 <= j < i ==> #[trigger] x[j] == y[j],
    ensures
        i < x.len() && i < y.len() && x[i] < y[i] ==> bytes_order(x, y) == Order::Less && bytes_order(
            y,
            x,
        ) == Order::Greater,
        i == x.len() && i < y.len() ==> bytes_order(x, y) == Order::Less && bytes_order(y, x)
            == Order::Greater,
        i == x.len() && i == y.len() ==> bytes_order(x, y) == Order::Same,
{
    let f = |a: u8, b: u8| crate::order::byte_order(a, b);
    if !(i < x.len() && i < y.len() && x[i] == y[i]) {
        assert forall|j: int| 0 <= j < i implies f(#[trigger] x[j], y[j]) == Order::Same by {}
        assert forall|j: int| 0 <= j < i implies f(#[trigger] y[j], x[j]) == Order::Same by {
            assert(x[j] == y[j]);
        }
        lemma_first_difference(x, y, f, i);
        lemma_first_difference(y, x, f, i);
    }
}

/// Paths are ordered by the first component in which they differ, names among them
/// as names are; a path comes before everything below it.
pub proof fn lemma_paths_in_order(a: PathView, b: PathView, i: int)
    requires
        0 <= i <= identity_of(a).len(),
        i <= identity_of(b).len(),
        forall|j: int| 0 <= j < i ==> #[trigger] identity_of(a)[j] == identity_of(b)[j],
    ensures
        i == identity_of(a).len() && i < identity_of(b).len() ==> path_order(a, b) == Order::Less
            && path_order(b, a) == Order::Greater,
        i < identity_of(a).len() && i < identity_of(b).len() && identity_of(a)[i] is Normal
            && identity_of(b)[i] is Normal && identity_of(a)[i] != identity_of(b)[i] ==> path_order(
            a,
            b,
        ) == bytes_order(identity_of(a)[i]->Normal_0, identity_of(b)[i]->Normal_0),
{
    let (x, y) = (identity_of(a), identity_of(b));
    let f = |p: ComponentView, q: ComponentView| component_order(p, q);
    crate::path::lemma_component_order_total();
    assert forall|j: int| 0 <= j < i implies f(#[trigger] x[j], y[j]) == Order::Same by {
        assert(x[j] == y[j]);
        assert(f(x[j], x[j]) == Order::Same);
    }
    assert forall|j: int| 0 <= j < i implies f(#[trigger] y[j], x[j]) == Order::Same by {
        assert(x[j] == y[j]);
        assert(f(x[j], x[j]) == Order::Same);
    }
    if i < x.len() && i < y.len() {
        if x[i] != y[i] {
            assert(component_order(x[i], y[i]) != Order::Same);
            lemma_first_difference(x, y, f, i);
        }
    } else {
        lemma_first_difference(x, y, f, i);
        lemma_first_difference(y, x, f, i);
    }
}

/// On Unix spellings of one path have the same components, and no others do.
pub proof fn lemma_identity_on_unix(a: PathView, b: PathView)
    requires
        a.platform is Unix,
        b.platform is Unix,
    ensures
        identity_of(a) == components_of(a),
        identity_of(a) == identity_of(b) <==> components_of(a) == components_of(b),
{
    lemma_no_prefix(a);
    lemma_no_prefix(b);
    assert(identity_of(a) =~= components_of(a));
    assert(identity_of(b) =~= components_of(b));
}

proof fn lemma_no_prefix(v: PathView)
    requires
        v.platform is Unix,
    ensures
        forall|i: int| 0 <= i < components_of(v).len() ==> !((#[trigger] components_of(v)[i]) is Prefix),
{
    let ps = pieces(v.text.skip(0), separators_of(v));
    lemma_named_is_no_prefix(ps, true, false);
    let (h, t) = (head_components(v), named_pieces(ps, true, false));
    assert forall|i: int| 0 <= i < components_of(v).len() implies !((
    #[trigger] components_of(v)[i]) is Prefix) by {
        if i < h.len() {
            assert(components_of(v)[i] == h[i]);
        } else {
            assert(components_of(v)[i] == t[i - h.len()]);
        }
    }
}

proof fn lemma_named_is_no_prefix(ps: Seq<Seq<u8>>, first_dot: bool, every_dot: bool)
    ensures
        forall|i: int|
            0 <= i < named_pieces(ps, first_dot, every_dot).len() ==> !((#[trigger] named_pieces(
                ps,
                first_dot,
                every_dot,
            )[i]) is Prefix),
    decreases ps.len(),
{
    if ps.len() > 0 {
        lemma_named_is_no_prefix(ps.drop_last(), first_dot, every_dot);
        let before = named_pieces(ps.drop_last(), first_dot, every_dot);
        let now = named_pieces(ps, first_dot, every_dot);
        assert forall|i: int| 0 <= i < now.len() implies !((#[trigger] now[i]) is Prefix) by {
            if i < before.len() {
                assert(now[i] == before[i]);
            }
        }
    }
}

// --------------------------------------------------------------------------
// Windows
// --------------------------------------------------------------------------

/// On Windows, a path on a drive takes a relative path behind it, with a backslash
/// between them where there is none; a path from the root keeps the drive alone,
/// and a path on a drive takes its place.
pub proof fn lemma_paths_are_joined_on_a_drive(base: PathView, other: PathView)
    requires
        base.platform is Windows,
        other.platform is Windows,
        drive_at(base.text, 0),
        base.text.len() > 2,
    ensures
        ({
            let last = base.text.last();
            let is_rooted = other.text.len() > 0 && (other.text[0] == 0x2f || other.text[0]
                == 0x5c);
            &&& joined(base, other).platform is Windows
            &&& drive_at(other.text, 0) ==> joined(base, other).text == other.text
            &&& is_rooted && (other.text.len() == 1 || !(other.text[1] == 0x2f || other.text[1]
                == 0x5c)) ==> joined(base, other).text == base.text.take(2) + other.text
            &&& !is_rooted && !drive_at(other.text, 0) ==> joined(base, other).text == (
            if last == 0x2f || last == 0x5c {
                base.text + other.text
            } else {
                base.text.push(0x5c) + other.text
            })
        }),
{
}

/// The case of a drive letter carries no meaning, and no two letters name one
/// drive.
pub proof fn lemma_drives(a: u8, b: u8)
    requires
        0x41 <= a <= 0x5a,
        0x41 <= b <= 0x5a,
    ensures
        ({
            let drive = |letter: u8| PathView { platform: Platform::Windows, text: seq![letter, 0x3a] };
            &&& identity_of(drive(a)) == identity_of(drive((a + 32) as u8))
            &&& identity_of(drive(a)) == identity_of(drive(b)) ==> a == b
        }),
{
    let name = seq![0x61u8];
    assert(is_one_piece(Platform::Windows, name));
    lemma_beginnings(Platform::Windows, name, a, 0x5c);
    lemma_beginnings(Platform::Windows, name, b, 0x5c);
    lemma_beginnings(Platform::Windows, name, (a + 32) as u8, 0x5c);
    let drive = |letter: u8| PathView { platform: Platform::Windows, text: seq![letter, 0x3a] };
    let (x, y, z) = (drive(a), drive(b), drive((a + 32) as u8));
    assert(drive_at(x.text, 0) && drive_at(y.text, 0) && drive_at(z.text, 0));
    assert(identity_of(x)[0] == meaning_of(components_of(x)[0]));
    assert(identity_of(y)[0] == meaning_of(components_of(y)[0]));
    assert(identity_of(z)[0] == meaning_of(components_of(z)[0]));
    assert(volume_key(x.text) == seq![5u8, a]);
    assert(volume_key(y.text) == seq![5u8, b]);
    assert(volume_key(z.text) == seq![5u8, a]);
    assert(identity_of(x) =~= identity_of(z));
    assert(seq![5u8, a][1] == a && seq![5u8, b][1] == b);
    if identity_of(x) == identity_of(y) {
        assert(meaning_of(components_of(x)[0]) == meaning_of(components_of(y)[0]));
        assert(seq![5u8, a] == seq![5u8, b]);
    }
}

/// A root is shown as a whole, shortened or not.
pub proof fn lemma_root_is_shown_whole(v: PathView)
    requires
        v.platform is Unix,
        v.text == seq![0x2fu8],
    ensures
        printable_name(v, true) == printable_name(v, false),
        printable_name(v, true) == escaped_text(encode_utf8(lossy_text(v.text))),
{
    let name = seq![0x61u8];
    assert(is_one_piece(Platform::Unix, name));
    lemma_beginnings(Platform::Unix, name, 0x41, 0x2f);
}

/// Where paths go on differently, a volume comes before a root, a root before the
/// current directory, that before a step up, and a step up before a name.
pub proof fn lemma_kinds_in_order(a: PathView, b: PathView, i: int)
    requires
        0 <= i < identity_of(a).len(),
        i < identity_of(b).len(),
        forall|j: int| 0 <= j < i ==> #[trigger] identity_of(a)[j] == identity_of(b)[j],
        ({
            let (x, y) = (identity_of(a)[i], identity_of(b)[i]);
            ||| x is Prefix && !(y is Prefix)
            ||| x is RootDir && (y is CurDir || y is ParentDir || y is Normal)
            ||| x is CurDir && (y is ParentDir || y is Normal)
            ||| x is ParentDir && y is Normal
        }),
    ensures
        path_order(a, b) == Order::Less,
        path_order(b, a) == Order::Greater,
{
    let (x, y) = (identity_of(a), identity_of(b));
    let f = |p: ComponentView, q: ComponentView| component_order(p, q);
    crate::path::lemma_component_order_total();
    assert forall|j: int| 0 <= j < i implies f(#[trigger] x[j], y[j]) == Order::Same by {
        assert(x[j] == y[j]);
        assert(f(x[j], x[j]) == Order::Same);
    }
    assert forall|j: int| 0 <= j < i implies f(#[trigger] y[j], x[j]) == Order::Same by {
        assert(x[j] == y[j]);
        assert(f(x[j], x[j]) == Order::Same);
    }
    lemma_first_difference(x, y, f, i);
    lemma_first_difference(y, x, f, i);
}

proof fn lemma_name_ends(before: Seq<u8>, name: Seq<u8>, rest: Seq<u8>, s: Separators, i: int)
    requires
        0 <= i <= name.len(),
        forall|k: int| 0 <= k < name.len() ==> !separates(s, #[trigger] name[k]),
        rest.len() == 0 || separates(s, rest[0]),
    ensures
        name_end(before + name + rest, before.len() + i, s) == before.len() + name.len(),
    decreases name.len() - i,
{
    let text = before + name + rest;
    if i < name.len() {
        assert(text[before.len() + i] == name[i]);
        lemma_name_ends(before, name, rest, s, i + 1);
    } else if rest.len() > 0 {
        assert(text[before.len() + i] == rest[0]);
    }
}

/// A server and a share make a volume, and what lies behind them lies below its
/// root.
pub proof fn lemma_share_is_a_volume(server: Seq<u8>, share: Seq<u8>, name: Seq<u8>)
    requires
        is_one_piece(Platform::Windows, server),
        is_one_piece(Platform::Windows, share),
        is_one_piece(Platform::Windows, name),
        server.len() > 1,
        share.len() > 0,
        name.len() > 0,
    ensures
        ({
            let volume = seq![0x5cu8, 0x5cu8] + server + seq![0x5cu8] + share;
            let path = PathView { platform: Platform::Windows, text: volume.push(0x5c) + name };
            &&& components_of(path) == seq![
                ComponentView::Prefix(volume),
                ComponentView::RootDir,
            ] + added_by(name)
            &&& is_absolute_path(path)
        }),
{
    let s = plain_separators(Platform::Windows);
    let head = seq![0x5cu8, 0x5cu8];
    let volume = head + server + seq![0x5cu8] + share;
    let text = volume.push(0x5c) + name;
    let v = PathView { platform: Platform::Windows, text };
    let after_server = seq![0x5cu8] + share + seq![0x5cu8] + name;
    let after_share = seq![0x5cu8] + name;
    let to_share = head + server + seq![0x5cu8];
    assert(text =~= head + server + after_server);
    assert(text =~= to_share + share + after_share);
    assert forall|k: int| 0 <= k < server.len() implies !separates(s, #[trigger] server[k]) by {}
    assert forall|k: int| 0 <= k < share.len() implies !separates(s, #[trigger] share[k]) by {}
    assert forall|k: int| 0 <= k < name.len() implies !separates(s, #[trigger] name[k]) by {}
    lemma_name_ends(head, server, after_server, s, 0);
    lemma_name_ends(to_share, share, after_share, s, 0);
    let n = volume.len() as int;
    assert(name_end(text, 2, s) == 2 + server.len());
    assert(name_end(text, 2 + server.len() + 1 as int, s) == n);
    assert(text[0] == 0x5c && text[1] == 0x5c && text[2] == server[0] && text[3] == server[1]);
    assert(starts_with_two_separators(text));
    assert(!separates(s, server[1]));
    assert(!starts_verbatim(text));
    assert(prefix_len(v) == n);
    assert(text.take(n) =~= volume);
    assert(text[n] == 0x5c);
    let empty = Seq::<u8>::empty();
    assert(text.skip(n) =~= empty.push(0x5c) + name);
    lemma_pieces_append(empty, 0x5c, name, s);
    lemma_component_of(name);
    let e = seq![empty];
    assert(pieces(empty, s) == e);
    assert(e.push(name).drop_last() =~= e);
    assert(e.drop_last() =~= Seq::<Seq<u8>>::empty());
    assert(named_pieces(Seq::<Seq<u8>>::empty(), false, false) == Seq::<ComponentView>::empty());
    assert(e.last().len() == 0);
    assert(named_pieces(e, false, false) =~= Seq::<ComponentView>::empty());
    assert(components_of(v) =~= seq![ComponentView::Prefix(volume), ComponentView::RootDir]
        + added_by(name));
}

/// Where paths are shortened, a path is shown by its last component, however many it
/// has; one that ends at a root or a volume, or has no components, is shown as a
/// whole. Its file name is its last component where that is a name.
pub proof fn lemma_shown_by_last_component(v: PathView)
    ensures
        ({
            let parts = components_of(v);
            &&& parts.len() == 0 ==> shown_bytes(v, true) == v.text
            &&& parts.len() == 0 ==> file_name_of(parts) is None
            &&& parts.len() > 0 ==> match parts.last() {
                ComponentView::Normal(name) => shown_bytes(v, true) == name && file_name_of(parts)
                    == Some(name),
                ComponentView::ParentDir => shown_bytes(v, true) == seq![0x2eu8, 0x2eu8]
                    && file_name_of(parts) is None,
                ComponentView::CurDir => shown_bytes(v, true) == seq![0x2eu8] && file_name_of(
                    parts,
                ) is None,
                _ => shown_bytes(v, true) == v.text && file_name_of(parts) is None,
            }
            &&& shown_bytes(v, false) == v.text
        }),
{
}

/// The text of a name is read from its bytes, on Windows with one replacement for
/// each half of a surrogate pair; a path is read as a whole, and a name that is
/// shown is escaped.
pub proof fn lemma_names_are_read(v: PathView, short_paths: bool, name: Seq<u8>)
    ensures
        name_text(Platform::Unix, name) == lossy_text(name),
        name_text(Platform::Windows, name) == lossy_text(without_surrogates(name, 0)),
        path_text(v) == name_text(v.platform, v.text),
        printable_name(v, short_paths) == escaped_text(
            encode_utf8(name_text(v.platform, shown_bytes(v, short_paths))),
        ),
{
}

/// Byte strings are the same without regard to case if they are as long, and each
/// byte of one is that of the other, or both are one letter of ASCII, upper-case in
/// one and lower-case in the other.
pub proof fn lemma_case_of_letters(a: Seq<u8>, b: Seq<u8>)
    ensures
        same_ignoring_case(a, b) <==> a.len() == b.len() && forall|i: int|
            0 <= i < a.len() ==> {
                ||| #[trigger] a[i] == b[i]
                ||| 0x41 <= a[i] && a[i] <= 0x5a && b[i] == a[i] + 32
                ||| 0x41 <= b[i] && b[i] <= 0x5a && a[i] == b[i] + 32
            },
{
    if same_ignoring_case(a, b) {
        assert forall|i: int| 0 <= i < a.len() implies {
            ||| #[trigger] a[i] == b[i]
            ||| 0x41 <= a[i] && a[i] <= 0x5a && b[i] == a[i] + 32
            ||| 0x41 <= b[i] && b[i] <= 0x5a && a[i] == b[i] + 32
        } by {
            assert(ascii_lower(a[i]) == ascii_lower(b[i]));
        }
    }
}

/// On Windows two names that are text are one name if their texts are the same
/// without regard to case; on Unix they have to be the same.
pub proof fn lemma_names_of_one_thing(x: Seq<u8>, y: Seq<u8>)
    ensures
        same_component(
            Platform::Windows,
            ComponentView::Normal(x),
            ComponentView::Normal(y),
        ) <==> same_ignoring_case(
            encode_utf8(lossy_text(without_surrogates(x, 0))),
            encode_utf8(lossy_text(without_surrogates(y, 0))),
        ),
        same_component(Platform::Unix, ComponentView::Normal(x), ComponentView::Normal(y)) <==> x
            == y,
{
}

/// Paths on Windows lie below one another component by component: all of the outer
/// one are matched by the first of the inner one.
pub proof fn lemma_places_on_windows(a: PathView, b: PathView)
    requires
        a.platform is Windows,
        b.platform is Windows,
    ensures
        starts_with(a, b) <==> components_of(a).len() <= components_of(b).len() && forall|i: int|
            0 <= i < components_of(a).len() ==> same_component(
                Platform::Windows,
                #[trigger] components_of(a)[i],
                components_of(b)[i],
            ),
        equivalent(a, b) <==> starts_with(a, b) && starts_with(b, a),
        parent_of(a, b) <==> starts_with(a, b) && !starts_with(b, a),
{
}

/// But for volumes, what a component stands for is itself: names are told apart byte
/// by byte.
pub proof fn lemma_names_stand_for_themselves(v: PathView, i: int)
    requires
        0 <= i < components_of(v).len(),
    ensures
        identity_of(v).len() == components_of(v).len(),
        !(components_of(v)[i] is Prefix) ==> identity_of(v)[i] == components_of(v)[i],
        components_of(v)[i] is Prefix ==> identity_of(v)[i] is Prefix,
{
}

} // verus!
