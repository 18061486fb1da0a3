//! What the normal form of a path keeps, and how it is spelled.

use vstd::prelude::*;

use crate::path::{
    component_of, component_text, components_of, drive_at, head_components, is_verbatim,
    lemma_prefix_len, main_separator, name_end, named_pieces, pieces, plain_separators, prefix_len,
    separates, separators_of, starts_at_root, starts_verbatim, starts_with_two_separators,
    verbatim_separators, ComponentView, PathView, Platform, Separators,
};
use crate::path_join::{joined, needs_separator, put_behind, verbatim_text};
use crate::utils::{collected, normalized};

verus! {

// --------------------------------------------------------------------------
// What is claimed
// --------------------------------------------------------------------------

/// The volume prefix of a path names a server for verbatim use, and no share.
pub open spec fn lacks_share(v: PathView) -> bool {
    let t = v.text;
    &&& is_verbatim(v)
    &&& is_share_form(t)
    &&& name_end(t, 8, verbatim_separators()) == prefix_len(v)
}

/// The text starts with `\\?\UNC\`.
pub open spec fn is_share_form(t: Seq<u8>) -> bool {
    t.len() >= 8 && t[4] == 0x55 && t[5] == 0x4e && t[6] == 0x43 && separates(
        plain_separators(Platform::Windows),
        t[7],
    )
}

/// A component reads as itself when it is put behind others: a name does not
/// start with a volume, and in a verbatim path it is no `.`, no `..` and holds no
/// other separator.
pub open spec fn is_rejoinable_component(v: PathView, c: ComponentView) -> bool {
    match c {
        ComponentView::Normal(name) => {
            &&& prefix_len(PathView { platform: v.platform, text: name }) == 0
            &&& is_verbatim(v) ==> !name.contains(0x2f)
        },
        ComponentView::CurDir => !is_verbatim(v),
        ComponentView::ParentDir => !is_verbatim(v),
        _ => true,
    }
}

/// The components of a path read as themselves when they are put together again.
/// Every Unix path is such a path, and so is every Windows path but for one with
/// a name such as `C:` behind its start, and for some verbatim ones.
pub open spec fn is_rejoinable(v: PathView) -> bool {
    let cs = components_of(v);
    &&& forall|i: int| 0 <= i < cs.len() ==> is_rejoinable_component(v, #[trigger] cs[i])
    &&& lacks_share(v) ==> cs.len() <= 2
}

/// Behind its volume, a path is spelled with separators of the platform's own
/// kind alone, no two of them next to each other, none at the end but a bare
/// root, and no `.` segment but one at the very start.
pub open spec fn is_tidy(v: PathView) -> bool {
    let n = prefix_len(v);
    let rest = v.text.skip(n);
    let s = plain_separators(v.platform);
    &&& forall|i: int|
        0 <= i < rest.len() && separates(s, #[trigger] rest[i]) ==> rest[i] == main_separator(
            v.platform,
        )
    &&& forall|i: int|
        0 <= i < rest.len() - 1 && separates(s, #[trigger] rest[i]) ==> !separates(s, rest[i + 1])
    &&& rest.len() > 1 ==> !separates(s, rest.last())
    &&& forall|k: int|
        0 <= k < pieces(rest, s).len() && #[trigger] pieces(rest, s)[k] == seq![0x2eu8] ==> k == 0
            && n == 0
}

// --------------------------------------------------------------------------
// Volume prefixes
// --------------------------------------------------------------------------

/// Where a run of bytes without separators ends is settled by the first
/// separator behind it.
proof fn lemma_name_end_is(t: Seq<u8>, from: int, end: int, s: Separators)
    requires
        0 <= from <= end <= t.len(),
        forall|i: int| from <= i < end ==> !separates(s, #[trigger] t[i]),
        end < t.len() ==> separates(s, t[end]),
    ensures
        name_end(t, from, s) == end,
    decreases end - from,
{
    if from < end {
        lemma_name_end_is(t, from + 1, end, s);
    }
}

/// The run of bytes that ends there holds no separators.
proof fn lemma_name_end_run(t: Seq<u8>, from: int, s: Separators)
    requires
        0 <= from <= t.len(),
    ensures
        from <= name_end(t, from, s) <= t.len(),
        forall|i: int| from <= i < name_end(t, from, s) ==> !separates(s, #[trigger] t[i]),
        name_end(t, from, s) < t.len() ==> separates(s, t[name_end(t, from, s)]),
    decreases t.len() - from,
{
    if from < t.len() && !separates(s, t[from]) {
        lemma_name_end_run(t, from + 1, s);
    }
}

/// A path on a drive, not verbatim.
spec fn is_drive(v: PathView) -> bool {
    &&& v.platform is Windows
    &&& !starts_with_two_separators(v.text)
    &&& drive_at(v.text, 0)
}

/// A volume prefix is a drive, or longer than one.
proof fn lemma_prefix_kinds(v: PathView)
    ensures
        0 <= prefix_len(v) <= v.text.len(),
        is_drive(v) ==> prefix_len(v) == 2,
        prefix_len(v) > 0 && !is_drive(v) ==> prefix_len(v) >= 4 && v.platform is Windows
            && starts_with_two_separators(v.text),
        is_verbatim(v) ==> prefix_len(v) >= 4,
{
    let t = v.text;
    let plain = plain_separators(Platform::Windows);
    lemma_prefix_len(v);
    if v.platform is Windows {
        if starts_verbatim(t) {
            lemma_name_end_run(t, 4, verbatim_separators());
            if t.len() >= 8 {
                lemma_name_end_run(t, 8, verbatim_separators());
            }
        } else if starts_with_two_separators(t) {
            if t.len() >= 4 {
                lemma_name_end_run(t, 4, plain);
            }
            lemma_name_end_run(t, 2, plain);
        }
    }
}

/// A path that starts with the volume of another one, and then a separator, has
/// that volume.
proof fn lemma_same_volume(a: PathView, b: PathView)
    requires
        a.platform is Windows,
        b.platform is Windows,
        prefix_len(a) > 0,
        !is_drive(a),
        b.text.len() > prefix_len(a),
        b.text.take(prefix_len(a)) == a.text.take(prefix_len(a)),
        b.text[prefix_len(a)] == 0x5c,
        is_verbatim(a) ==> a.text.len() > prefix_len(a) && separates(
            plain_separators(Platform::Windows),
            a.text[prefix_len(a)],
        ),
        lacks_share(a) ==> b.text.len() == prefix_len(a) + 1,
    ensures
        prefix_len(b) == prefix_len(a),
        is_verbatim(b) == is_verbatim(a),
        starts_with_two_separators(b.text),
        !is_drive(b),
{
    let (t, u) = (a.text, b.text);
    let n = prefix_len(a);
    let plain = plain_separators(Platform::Windows);
    let verbatim = verbatim_separators();
    lemma_prefix_kinds(a);
    assert forall|i: int| 0 <= i < n implies t[i] == u[i] by {
        assert(t.take(n)[i] == u.take(n)[i]);
    }
    if starts_verbatim(t) {
        lemma_name_end_run(t, 4, verbatim);
        if is_share_form(t) {
            lemma_name_end_run(t, 8, verbatim);
            let server = name_end(t, 8, verbatim);
            assert(n >= 8) by {
                if server + 1 <= t.len() {
                    lemma_name_end_run(t, server + 1, verbatim);
                }
            }
            assert(is_share_form(u));
            if server == n {
                lemma_name_end_is(u, 8, n, verbatim);
                assert(name_end(u, n + 1, verbatim) == u.len());
            } else {
                lemma_name_end_run(t, server + 1, verbatim);
                lemma_name_end_is(u, 8, server, verbatim);
                lemma_name_end_is(u, server + 1, n, verbatim);
            }
        } else {
            assert(!is_share_form(u));
            if drive_at(t, 4) && (t.len() == 6 || separates(plain, t[6])) {
                assert(drive_at(u, 4));
            } else {
                assert(!(drive_at(u, 4) && (u.len() == 6 || separates(plain, u[6]))));
                lemma_name_end_is(u, 4, n, verbatim);
            }
        }
    } else {
        if t.len() >= 4 && t[2] == 0x2e && separates(plain, t[3]) {
            lemma_name_end_run(t, 4, plain);
            lemma_name_end_is(u, 4, n, plain);
        } else {
            lemma_name_end_run(t, 2, plain);
            let server = name_end(t, 2, plain);
            lemma_name_end_run(t, server + 1, plain);
            lemma_name_end_is(u, 2, server, plain);
            lemma_name_end_is(u, server + 1, n, plain);
        }
    }
}

/// A volume prefix alone is a volume.
proof fn lemma_volume_alone(a: PathView)
    requires
        prefix_len(a) > 0,
    ensures
        prefix_len(PathView { platform: a.platform, text: a.text.take(prefix_len(a)) })
            == prefix_len(a),
        is_verbatim(PathView { platform: a.platform, text: a.text.take(prefix_len(a)) })
            == is_verbatim(a),
        is_drive(PathView { platform: a.platform, text: a.text.take(prefix_len(a)) })
            == is_drive(a),
{
    let t = a.text;
    let n = prefix_len(a);
    let u = t.take(n);
    let b = PathView { platform: a.platform, text: u };
    let plain = plain_separators(Platform::Windows);
    let verbatim = verbatim_separators();
    lemma_prefix_kinds(a);
    assert forall|i: int| 0 <= i < n implies t[i] == u[i] by {}
    if starts_verbatim(t) {
        lemma_name_end_run(t, 4, verbatim);
        if is_share_form(t) {
            lemma_name_end_run(t, 8, verbatim);
            let server = name_end(t, 8, verbatim);
            assert(n >= 8) by {
                if server + 1 <= t.len() {
                    lemma_name_end_run(t, server + 1, verbatim);
                }
            }
            assert(is_share_form(u));
            if server == n {
                lemma_name_end_is(u, 8, n, verbatim);
                assert(name_end(u, n + 1, verbatim) == u.len());
            } else {
                lemma_name_end_run(t, server + 1, verbatim);
                lemma_name_end_is(u, 8, server, verbatim);
                lemma_name_end_is(u, server + 1, n, verbatim);
            }
        } else {
            assert(!is_share_form(u));
            if drive_at(t, 4) && (t.len() == 6 || separates(plain, t[6])) {
                assert(drive_at(u, 4));
            } else {
                assert(!(drive_at(u, 4) && (u.len() == 6 || separates(plain, u[6]))));
                lemma_name_end_is(u, 4, n, verbatim);
            }
        }
    } else if starts_with_two_separators(t) {
        if t.len() >= 4 && t[2] == 0x2e && separates(plain, t[3]) {
            lemma_name_end_run(t, 4, plain);
            lemma_name_end_is(u, 4, n, plain);
        } else {
            lemma_name_end_run(t, 2, plain);
            let server = name_end(t, 2, plain);
            lemma_name_end_run(t, server + 1, plain);
            lemma_name_end_is(u, 2, server, plain);
            lemma_name_end_is(u, server + 1, n, plain);
        }
    }
}

// --------------------------------------------------------------------------
// Pieces
// --------------------------------------------------------------------------

/// Text without separators behind a text makes its last piece longer.
proof fn lemma_pieces_extend(u: Seq<u8>, name: Seq<u8>, s: Separators)
    requires
        forall|i: int| 0 <= i < name.len() ==> !separates(s, #[trigger] name[i]),
    ensures
        pieces(u, s).len() > 0,
        pieces(u + name, s) == pieces(u, s).drop_last().push(pieces(u, s).last() + name),
    decreases name.len(),
{
    lemma_pieces_not_empty(u, s);
    let ps = pieces(u, s);
    if name.len() == 0 {
        assert(u + name =~= u);
        assert(ps.last() + name =~= ps.last());
        assert(ps.drop_last().push(ps.last()) =~= ps);
    } else {
        let rest = name.drop_last();
        assert forall|i: int| 0 <= i < rest.len() implies !separates(s, #[trigger] rest[i]) by {
            assert(rest[i] == name[i]);
        }
        lemma_pieces_extend(u, rest, s);
        assert((u + name).drop_last() =~= u + rest);
        assert((u + name).last() == name.last());
        assert(!separates(s, name[name.len() - 1]));
        let before = pieces(u + rest, s);
        assert(before.drop_last() =~= ps.drop_last());
        assert(before.last() == ps.last() + rest);
        assert((ps.last() + rest).push(name.last()) =~= ps.last() + name);
    }
}

proof fn lemma_pieces_not_empty(u: Seq<u8>, s: Separators)
    ensures
        pieces(u, s).len() > 0,
    decreases u.len(),
{
    if u.len() > 0 {
        lemma_pieces_not_empty(u.drop_last(), s);
    }
}

/// No piece of a text holds a separator.
proof fn lemma_pieces_are_plain(u: Seq<u8>, s: Separators)
    ensures
        pieces(u, s).len() > 0,
        forall|k: int, i: int|
            0 <= k < pieces(u, s).len() && 0 <= i < pieces(u, s)[k].len() ==> !separates(
                s,
                #[trigger] pieces(u, s)[k][i],
            ),
        u.len() > 0 && separates(s, u[0]) ==> pieces(u, s)[0].len() == 0,
    decreases u.len(),
{
    if u.len() > 0 {
        let before = pieces(u.drop_last(), s);
        lemma_pieces_are_plain(u.drop_last(), s);
        let now = pieces(u, s);
        if separates(s, u.last()) {
            assert(now == before.push(Seq::<u8>::empty()));
        } else {
            assert(now == before.drop_last().push(before.last().push(u.last())));
            assert forall|k: int, i: int|
                0 <= k < now.len() && 0 <= i < now[k].len() implies !separates(
                s,
                #[trigger] now[k][i],
            ) by {
                if k < before.len() - 1 {
                    assert(now[k] == before[k]);
                } else if i < before[k].len() {
                    assert(now[k][i] == before[k][i]);
                }
            }
            if u.len() > 1 && separates(s, u[0]) {
                assert(u.drop_last()[0] == u[0]);
                lemma_separator_splits(u.drop_last(), s);
                assert(now[0] == before[0]);
            }
        }
        if separates(s, u[0]) && separates(s, u.last()) && u.len() > 1 {
            assert(u.drop_last()[0] == u[0]);
            assert(now[0] == before[0]);
        }
    }
}

/// A text that starts with a separator has at least two pieces.
proof fn lemma_separator_splits(u: Seq<u8>, s: Separators)
    requires
        u.len() > 0,
        separates(s, u[0]),
    ensures
        pieces(u, s).len() >= 2,
    decreases u.len(),
{
    lemma_pieces_not_empty(u.drop_last(), s);
    if u.len() > 1 {
        assert(u.drop_last()[0] == u[0]);
        lemma_separator_splits(u.drop_last(), s);
    }
}

/// Where two kinds of separators agree on a text, so do its pieces.
proof fn lemma_pieces_agree(u: Seq<u8>, s: Separators, r: Separators)
    requires
        forall|i: int| 0 <= i < u.len() ==> separates(s, #[trigger] u[i]) == separates(r, u[i]),
    ensures
        pieces(u, s) == pieces(u, r),
    decreases u.len(),
{
    if u.len() > 0 {
        let rest = u.drop_last();
        assert forall|i: int| 0 <= i < rest.len() implies separates(s, #[trigger] rest[i])
            == separates(r, rest[i]) by {
            assert(rest[i] == u[i]);
        }
        lemma_pieces_agree(rest, s, r);
        assert(separates(s, u[u.len() - 1]) == separates(r, u[u.len() - 1]));
    }
}

// --------------------------------------------------------------------------
// Components
// --------------------------------------------------------------------------

/// A component behind the start of a path that reads as itself wherever it
/// stands; `.` does at the very start alone.
spec fn is_proper(platform: Platform, c: ComponentView, first: bool) -> bool {
    match c {
        ComponentView::Prefix(_) => false,
        ComponentView::RootDir => false,
        ComponentView::CurDir => first,
        ComponentView::ParentDir => true,
        ComponentView::Normal(name) => {
            &&& component_of(name, true) == Some(c)
            &&& forall|i: int|
                0 <= i < name.len() ==> !separates(plain_separators(platform), #[trigger] name[i])
            &&& prefix_len(PathView { platform, text: name }) == 0
        },
    }
}

/// The text of a proper component is one piece, and reads as the component.
proof fn lemma_proper_text(platform: Platform, c: ComponentView, first: bool)
    requires
        is_proper(platform, c, first),
    ensures
        ({
            let name = component_text(platform, c);
            let v = PathView { platform, text: name };
            &&& name.len() > 0
            &&& forall|i: int|
                0 <= i < name.len() ==> !separates(plain_separators(platform), #[trigger] name[i])
            &&& component_of(name, true) == Some(c)
            &&& !(c is CurDir) ==> component_of(name, false) == Some(c)
            &&& c is CurDir <==> name == seq![0x2eu8]
            &&& prefix_len(v) == 0
            &&& !starts_at_root(v)
            &&& !is_verbatim(v)
            &&& components_of(v) == seq![c]
        }),
{
    let name = component_text(platform, c);
    let v = PathView { platform, text: name };
    let s = plain_separators(platform);
    let none = Seq::<u8>::empty();
    match c {
        ComponentView::CurDir => {
            assert(name =~= seq![0x2eu8]);
        },
        ComponentView::ParentDir => {
            assert(name =~= seq![0x2eu8, 0x2eu8]);
            assert(name.len() == 2);
            assert(name != seq![0x2eu8]);
        },
        _ => {
            assert(component_of(name, true) is Some);
        },
    }
    assert(!separates(s, name[0]));
    assert(platform is Windows ==> !starts_with_two_separators(name));
    assert(name.skip(0) =~= name);
    lemma_pieces_extend(none, name, s);
    assert(none + name =~= name);
    assert(pieces(none, s) == seq![none]);
    let ps = pieces(name, s);
    assert(seq![none].drop_last() =~= Seq::<Seq<u8>>::empty());
    assert(ps =~= seq![name]);
    assert(ps.drop_last() =~= Seq::<Seq<u8>>::empty());
    assert(named_pieces(ps.drop_last(), true, false) =~= Seq::empty());
    assert(named_pieces(ps, true, false) =~= seq![c]);
    assert(components_of(v) =~= seq![c]);
}

// --------------------------------------------------------------------------
// Putting together
// --------------------------------------------------------------------------

/// `u` is how far the path `v` has been put together again: it has the volume of
/// `v`, with the root that belongs to it, and the components `ds`.
spec fn is_partial(v: PathView, u: PathView, ds: Seq<ComponentView>) -> bool {
    let n = prefix_len(v);
    &&& u.platform == v.platform
    &&& components_of(u) == ds
    &&& prefix_len(u) == n
    &&& is_verbatim(u) == is_verbatim(v)
    &&& is_drive(v) ==> is_drive(u)
    &&& u.text.len() >= n
    &&& u.text.take(n) == v.text.take(n)
    &&& n > 0 && !is_drive(v) ==> u.text.len() > n && u.text[n] == 0x5c
    &&& is_verbatim(v) ==> u.text == verbatim_text(v.platform, ds) && ds.len() >= 2
        && ds[1] is RootDir && v.text.len() > n && separates(
        plain_separators(Platform::Windows),
        v.text[n],
    )
    &&& is_tidy(u)
}

/// What is put between a path and a name behind it.
spec fn link(u: PathView) -> Seq<u8> {
    if needs_separator(u) {
        seq![main_separator(u.platform)]
    } else {
        Seq::empty()
    }
}

/// A verbatim path that has its root ends in a separator only there.
proof fn lemma_verbatim_text_end(platform: Platform, ds: Seq<ComponentView>)
    requires
        ds.len() >= 2,
        ds.last() is RootDir,
    ensures
        verbatim_text(platform, ds).len() > 0,
        verbatim_text(platform, ds).last() == main_separator(platform),
{
    assert(verbatim_text(platform, ds) == verbatim_text(platform, ds.drop_last())
        + component_text(platform, ds.last()));
}

/// Putting a proper component behind a path adds its text, and a separator where
/// one is needed.
proof fn lemma_joined_name(v: PathView, u: PathView, ds: Seq<ComponentView>, c: ComponentView)
    requires
        is_partial(v, u, ds),
        is_proper(v.platform, c, ds.len() == 0),
        is_verbatim(v) ==> c is Normal,
        is_verbatim(v) ==> ds.last() is RootDir || ds.last() is Normal && is_proper(
            v.platform,
            ds.last(),
            false,
        ),
    ensures
        joined(u, PathView { platform: v.platform, text: component_text(v.platform, c) }).text
            == u.text + link(u) + component_text(v.platform, c),
        is_verbatim(v) ==> verbatim_text(v.platform, ds.push(c)) == u.text + link(u)
            + component_text(v.platform, c),
{
    let platform = v.platform;
    let name = component_text(platform, c);
    let other = PathView { platform, text: name };
    lemma_proper_text(platform, c, ds.len() == 0);
    lemma_prefix_kinds(u);
    if is_verbatim(v) {
        let more = components_of(other);
        assert(more =~= seq![c]);
        assert(more.drop_last() =~= Seq::empty());
        assert(put_behind(ds, more.drop_last()) == ds);
        assert(put_behind(ds, more) == ds.push(c));
        let es = ds.push(c);
        assert(es.drop_last() =~= ds);
        assert(es[es.len() - 2] == ds.last());
        if ds.last() is RootDir {
            lemma_verbatim_text_end(platform, ds);
            assert(u.text + link(u) + name =~= u.text + name);
        } else {
            let last = component_text(platform, ds.last());
            lemma_proper_text(platform, ds.last(), false);
            let before = verbatim_text(platform, ds.drop_last());
            assert(u.text.last() == last[last.len() - 1]);
            assert(!separates(plain_separators(platform), last[last.len() - 1]));
            assert(u.text.len() > 2);
            assert(needs_separator(u));
            assert(u.text + link(u) + name =~= u.text.push(main_separator(platform)) + name);
        }
    } else {
        if needs_separator(u) {
            assert(u.text + link(u) + name =~= u.text.push(main_separator(platform)) + name);
        } else {
            assert(u.text + link(u) + name =~= u.text + name);
        }
    }
}

/// A name behind a path keeps its volume and its root.
proof fn lemma_name_keeps_start(v: PathView, u: PathView, ds: Seq<ComponentView>, c: ComponentView)
    requires
        is_partial(v, u, ds),
        is_proper(v.platform, c, ds.len() == 0),
        !lacks_share(v),
    ensures
        ({
            let w = PathView {
                platform: v.platform,
                text: u.text + link(u) + component_text(v.platform, c),
            };
            let n = prefix_len(v);
            &&& prefix_len(w) == n
            &&& is_verbatim(w) == is_verbatim(v)
            &&& is_drive(v) ==> is_drive(w)
            &&& w.text.take(n) == v.text.take(n)
            &&& starts_at_root(w) == starts_at_root(u)
            &&& n > 0 && !is_drive(v) ==> w.text[n] == 0x5c
        }),
{
    let platform = v.platform;
    let n = prefix_len(v);
    let name = component_text(platform, c);
    let t = u.text + link(u) + name;
    let w = PathView { platform, text: t };
    let s = plain_separators(platform);
    lemma_proper_text(platform, c, ds.len() == 0);
    lemma_prefix_kinds(v);
    lemma_prefix_kinds(u);
    assert forall|i: int| 0 <= i < u.text.len() implies t[i] == u.text[i] by {}
    assert(t.take(n) =~= u.text.take(n));
    if platform is Windows {
        if n > 0 {
            if is_drive(v) {
                assert(u.text.take(2)[0] == t[0] && u.text.take(2)[1] == t[1]);
                if u.text.len() == 2 {
                    assert(t[2] == name[0]);
                    assert(!separates(s, name[0]));
                }
            } else {
                lemma_same_volume(v, w);
            }
        } else if u.text.len() == 0 {
            assert(t =~= name);
            assert(w == PathView { platform, text: name });
        } else {
            let rest = u.text.skip(0);
            assert(rest =~= u.text);
            if separates(s, u.text[0]) {
                if u.text.len() == 1 {
                    assert(t[1] == name[0]);
                    assert(!separates(s, name[0]));
                } else {
                    assert(separates(s, rest[0]));
                    assert(!separates(s, rest[1]));
                }
            } else if u.text.len() == 1 {
                assert(needs_separator(u));
                assert(t[1] == 0x5c);
            }
            assert(!starts_with_two_separators(t));
            assert(!drive_at(t, 0)) by {
                assert(!drive_at(u.text, 0));
            }
        }
    } else if u.text.len() == 0 {
        assert(t[0] == name[0]);
        assert(!separates(s, name[0]));
    }
}

/// A name behind a path becomes its last component.
proof fn lemma_name_is_last(v: PathView, u: PathView, ds: Seq<ComponentView>, c: ComponentView)
    requires
        is_partial(v, u, ds),
        is_proper(v.platform, c, ds.len() == 0),
        is_verbatim(v) ==> c is Normal,
        !lacks_share(v),
    ensures
        ({
            let w = PathView {
                platform: v.platform,
                text: u.text + link(u) + component_text(v.platform, c),
            };
            components_of(w) == ds.push(c) && is_tidy(w)
        }),
{
    let platform = v.platform;
    let n = prefix_len(v);
    let name = component_text(platform, c);
    let t = u.text + link(u) + name;
    let w = PathView { platform, text: t };
    let plain = plain_separators(platform);
    let s = separators_of(w);
    let none = Seq::<u8>::empty();
    let verbatim = is_verbatim(v);
    lemma_proper_text(platform, c, ds.len() == 0);
    lemma_name_keeps_start(v, u, ds, c);
    lemma_prefix_kinds(u);
    let rest = u.text.skip(n);
    let now = t.skip(n);
    assert(now =~= rest + link(u) + name);
    assert(head_components(w) =~= head_components(u)) by {
        assert(t.take(n) =~= u.text.take(n));
    }
    assert(separators_of(u) == s);
    // separators of a tidy path are those that any reading of it knows
    assert(separates(s, main_separator(platform)) && separates(plain, main_separator(platform)));
    assert forall|i: int| 0 <= i < now.len() implies separates(s, #[trigger] now[i]) == separates(
        plain,
        now[i],
    ) by {
        if i < rest.len() {
            assert(now[i] == rest[i]);
        } else if i < rest.len() + link(u).len() {
            assert(now[i] == main_separator(platform));
        } else {
            assert(now[i] == name[i - rest.len() - link(u).len()]);
        }
    }
    lemma_pieces_agree(now, s, plain);
    assert forall|i: int| 0 <= i < rest.len() implies separates(s, #[trigger] rest[i]) == separates(
        plain,
        rest[i],
    ) by {
        assert(now[i] == rest[i]);
    }
    lemma_pieces_agree(rest, s, plain);
    let ps = pieces(rest, plain);
    let qs = pieces(now, plain);
    lemma_pieces_not_empty(rest, plain);
    assert(none + name =~= name);
    if needs_separator(u) {
        let longer = rest.push(main_separator(platform));
        assert(rest + link(u) + name =~= longer + name);
        assert(longer.drop_last() =~= rest);
        assert(pieces(longer, plain) == ps.push(none));
        lemma_pieces_extend(longer, name, plain);
        assert(ps.push(none).drop_last() =~= ps);
        assert(qs =~= ps.push(name));
        assert(qs.drop_last() =~= ps);
        assert(rest.len() > 0) by {
            assert(n > 0 && u.text.len() == n ==> is_drive(v) && u.text.len() == 2);
            assert(u.text.len() == n ==> n == 0 || n == 2);
        }
        assert(ds.len() > 0) by {
            if ds.len() == 0 {
                lemma_no_components(u);
            }
        }
        assert(rest.last() == u.text.last());
        assert forall|i: int| 0 <= i < now.len() - 1 && separates(plain, #[trigger] now[i]) implies
            !separates(plain, now[i + 1]) by {
            if i < rest.len() - 1 {
                assert(separates(plain, rest[i]));
                assert(!separates(plain, rest[i + 1]));
            } else if i == rest.len() - 1 {
                assert(now[i] == rest.last());
            } else {
                assert(now[i + 1] == name[i - rest.len()]);
            }
        }
    } else {
        assert(rest + link(u) + name =~= rest + name);
        lemma_pieces_extend(rest, name, plain);
        assert(rest.len() == 0 || separates(plain, rest.last())) by {
            if rest.len() > 0 {
                assert(rest.last() == u.text.last());
                if n == 2 && u.text.len() == 2 {
                    assert(rest.len() == 0);
                }
            }
        }
        assert(rest.len() <= 1);
        if rest.len() == 0 {
            assert(rest =~= none);
            assert(ps =~= seq![none]);
            assert(qs =~= seq![name]);
            assert(qs.drop_last() =~= Seq::<Seq<u8>>::empty());
            assert(ps.drop_last() =~= Seq::<Seq<u8>>::empty());
        } else {
            assert(rest =~= seq![main_separator(platform)]) by {
                assert(separates(plain, rest[0]));
            }
            assert(rest.drop_last() =~= none);
            assert(pieces(none, plain) == seq![none]);
            assert(ps == pieces(none, plain).push(none));
            assert(ps =~= seq![none, none]);
            assert(qs =~= seq![none, name]);
            assert(qs.drop_last() =~= seq![none]);
            assert(ps.drop_last() =~= seq![none]);
        }
        assert(named_pieces(ps, n == 0, verbatim) == named_pieces(
            ps.drop_last(),
            n == 0,
            verbatim,
        ));
        assert forall|i: int| 0 <= i < now.len() - 1 && separates(plain, #[trigger] now[i]) implies
            !separates(plain, now[i + 1]) by {
            assert(now[i + 1] == name[i + 1 - rest.len()]);
        }
        if c is CurDir {
            assert(ds.len() == 0);
            assert(head_components(u).len() == 0);
        }
    }
    assert(components_of(w) =~= ds.push(c));
    assert(now.last() == name[name.len() - 1]);
    assert forall|i: int| 0 <= i < now.len() && separates(plain, #[trigger] now[i]) implies now[i]
        == main_separator(platform) by {
        if i < rest.len() {
            assert(now[i] == rest[i]);
        } else if i >= rest.len() + link(u).len() {
            assert(now[i] == name[i - rest.len() - link(u).len()]);
        }
    }
    assert forall|k: int| 0 <= k < qs.len() && #[trigger] qs[k] == seq![0x2eu8] implies k == 0 && n
        == 0 by {
        if k < qs.len() - 1 {
            assert(qs[k] == ps[k]);
        } else {
            assert(qs[k] == name);
            assert(c is CurDir);
            assert(ds.len() == 0);
        }
    }
}

/// A tidy path without components is empty.
proof fn lemma_no_components(u: PathView)
    requires
        components_of(u).len() == 0,
        is_tidy(u),
    ensures
        u.text.len() == 0,
{
    let n = prefix_len(u);
    lemma_prefix_kinds(u);
    assert(n == 0);
    assert(u.text.skip(0) =~= u.text);
    if u.text.len() > 0 {
        let s = separators_of(u);
        assert(!starts_at_root(u));
        lemma_pieces_are_plain(u.text, s);
        lemma_last_piece(u.text, s);
    }
}

/// A text that does not end in a separator has a last piece that is not empty.
proof fn lemma_last_piece(u: Seq<u8>, s: Separators)
    requires
        u.len() > 0,
        !separates(s, u.last()),
    ensures
        pieces(u, s).last().len() > 0,
{
    lemma_pieces_not_empty(u.drop_last(), s);
}

/// The piece that a component comes from.
proof fn lemma_named_source(
    ps: Seq<Seq<u8>>,
    first_dot: bool,
    every_dot: bool,
    k: int,
) -> (m: int)
    requires
        0 <= k < named_pieces(ps, first_dot, every_dot).len(),
    ensures
        0 <= k <= m < ps.len(),
        component_of(ps[m], every_dot || (first_dot && m == 0)) == Some(
            named_pieces(ps, first_dot, every_dot)[k],
        ),
    decreases ps.len(),
{
    let rest = ps.drop_last();
    let before = named_pieces(rest, first_dot, every_dot);
    lemma_named_count(rest, first_dot, every_dot);
    if k < before.len() {
        let m = lemma_named_source(rest, first_dot, every_dot, k);
        assert(rest[m] == ps[m]);
        m
    } else {
        ps.len() - 1
    }
}

proof fn lemma_named_count(ps: Seq<Seq<u8>>, first_dot: bool, every_dot: bool)
    ensures
        named_pieces(ps, first_dot, every_dot).len() <= ps.len(),
    decreases ps.len(),
{
    if ps.len() > 0 {
        lemma_named_count(ps.drop_last(), first_dot, every_dot);
    }
}

/// Behind its start, a rejoinable path has proper components.
proof fn lemma_components_proper(v: PathView, i: int)
    requires
        is_rejoinable(v),
        head_components(v).len() <= i < components_of(v).len(),
    ensures
        is_proper(v.platform, components_of(v)[i], i == 0),
        is_verbatim(v) ==> components_of(v)[i] is Normal,
{
    let n = prefix_len(v);
    let s = separators_of(v);
    let head = head_components(v);
    let cs = components_of(v);
    let ps = pieces(v.text.skip(n), s);
    let k = i - head.len();
    let m = lemma_named_source(ps, n == 0, is_verbatim(v), k);
    let c = cs[i];
    assert(c == named_pieces(ps, n == 0, is_verbatim(v))[k]);
    assert(is_rejoinable_component(v, cs[i]));
    lemma_pieces_are_plain(v.text.skip(n), s);
    lemma_prefix_kinds(v);
    match c {
        ComponentView::Normal(name) => {
            assert(name == ps[m]);
            assert(component_of(name, true) == Some(c));
            assert forall|j: int| 0 <= j < name.len() implies !separates(
                plain_separators(v.platform),
                #[trigger] name[j],
            ) by {
                assert(!separates(s, ps[m][j]));
                if is_verbatim(v) {
                    assert(name[j] != 0x2f) by {
                        if name[j] == 0x2f {
                            assert(name.contains(name[j]));
                        }
                    }
                }
            }
        },
        ComponentView::CurDir => {
            assert(n == 0 && m == 0);
            assert(v.text.skip(0) =~= v.text);
            if starts_at_root(v) {
                assert(ps[0].len() == 0);
            }
            assert(head.len() == 0);
        },
        _ => {},
    }
}

/// The start of a path is put together again as it was.
proof fn lemma_head_collected(v: PathView)
    requires
        prefix_len(v) > 0 && !is_drive(v) ==> starts_at_root(v),
    ensures
        is_partial(v, collected(v.platform, head_components(v)), head_components(v)),
{
    let platform = v.platform;
    let n = prefix_len(v);
    let head = head_components(v);
    let none = Seq::<u8>::empty();
    let sep = main_separator(platform);
    let root = seq![sep];
    let plain = plain_separators(platform);
    let empty = PathView { platform, text: none };
    let p = v.text.take(n);
    let volume = PathView { platform, text: p };
    let slash = PathView { platform, text: root };
    lemma_prefix_kinds(v);
    lemma_prefix_kinds(empty);
    crate::path::lemma_empty_path(empty);
    assert(collected(platform, Seq::empty()) == empty);
    assert(pieces(none, plain) == seq![none]);
    assert(root.drop_last() =~= none);
    assert(pieces(root, plain) =~= seq![none, none]);
    assert(seq![none, none].drop_last() =~= seq![none]);
    assert(seq![none].drop_last() =~= Seq::<Seq<u8>>::empty());
    assert(named_pieces(Seq::<Seq<u8>>::empty(), n == 0, is_verbatim(v)) =~= Seq::empty());
    assert(named_pieces(seq![none], n == 0, is_verbatim(v)) =~= Seq::empty());
    assert(named_pieces(seq![none, none], n == 0, is_verbatim(v)) =~= Seq::empty());
    assert(none != seq![0x2eu8]) by {
        assert(none.len() != seq![0x2eu8].len());
    }
    lemma_prefix_kinds(slash);
    assert(prefix_len(slash) == 0);
    assert(starts_at_root(slash));
    if n == 0 {
        assert(none.take(0) =~= v.text.take(0));
        if starts_at_root(v) {
            assert(head =~= seq![ComponentView::RootDir]);
            assert(head.drop_last() =~= Seq::empty());
            let u = collected(platform, head);
            assert(component_text(platform, head.last()) =~= root);
            assert(u.text =~= root);
            assert(u == slash);
            assert(root.skip(0) =~= root);
            assert(root.take(0) =~= v.text.take(0));
            assert(components_of(u) =~= head);
            assert(is_tidy(u));
        } else {
            assert(head =~= Seq::empty());
            assert(components_of(empty) =~= head);
            assert(none.skip(0) =~= none);
            assert(is_tidy(empty));
        }
    } else {
        let first = seq![ComponentView::Prefix(p)];
        lemma_volume_alone(v);
        assert(first.drop_last() =~= Seq::empty());
        assert(collected(platform, first) == joined(empty, volume));
        assert(collected(platform, first) == volume);
        assert(p.take(n) =~= p);
        assert(p.skip(n) =~= none);
        if starts_at_root(v) {
            assert(head =~= first.push(ComponentView::RootDir));
            assert(head.drop_last() =~= first);
            assert(component_text(platform, head.last()) =~= root);
            let u = collected(platform, head);
            assert(u == joined(volume, slash));
            let t = p + root;
            if is_verbatim(v) {
                assert(pieces(none, separators_of(volume)) == seq![none]);
                assert(components_of(volume) =~= first);
                assert(root.skip(0) =~= root);
                assert(components_of(slash) =~= seq![ComponentView::RootDir]) by {
                    assert(named_pieces(Seq::<Seq<u8>>::empty(), true, false) =~= Seq::empty());
                    assert(named_pieces(seq![none], true, false) =~= Seq::empty());
                    assert(named_pieces(seq![none, none], true, false) =~= Seq::empty());
                }
                let more = seq![ComponentView::RootDir];
                assert(more.drop_last() =~= Seq::empty());
                assert(put_behind(first, more.drop_last()) == first);
                assert(first.take(1) =~= first);
                assert(put_behind(first, more) =~= head);
                assert(verbatim_text(platform, Seq::empty()) =~= none);
                assert(verbatim_text(platform, first) =~= p);
                assert(verbatim_text(platform, head) =~= t);
            }
            assert(u.text =~= t);
            let w = PathView { platform, text: t };
            assert(u == w);
            assert(t.take(n) =~= p);
            assert(t.skip(n) =~= root);
            assert(t[n] == sep);
            if is_drive(v) {
                assert(t[0] == v.text[0] && t[1] == v.text[1]) by {
                    assert(p[0] == v.text[0] && p[1] == v.text[1]);
                }
            } else {
                lemma_same_volume(v, w);
            }
            let s = separators_of(w);
            assert(separates(s, sep));
            assert(pieces(none, s) == seq![none]);
            assert(pieces(root, s) =~= seq![none, none]);
            assert(starts_at_root(w));
            assert(head_components(w) =~= head);
            assert(components_of(w) =~= head);
            assert(is_tidy(w));
        } else {
            assert(is_drive(v));
            assert(head =~= first);
            assert(p[0] == v.text[0] && p[1] == v.text[1]);
            assert(components_of(volume) =~= head);
            assert(is_tidy(volume));
        }
    }
}

/// A rejoinable path is put together again component by component.
proof fn lemma_collected(v: PathView, k: int)
    requires
        is_rejoinable(v),
        prefix_len(v) > 0 && !is_drive(v) ==> starts_at_root(v),
        head_components(v).len() <= k <= components_of(v).len(),
    ensures
        is_partial(
            v,
            collected(v.platform, components_of(v).take(k)),
            components_of(v).take(k),
        ),
    decreases k,
{
    let cs = components_of(v);
    let head = head_components(v);
    let platform = v.platform;
    if k == head.len() {
        assert(cs.take(k) =~= head);
        lemma_head_collected(v);
    } else {
        lemma_collected(v, k - 1);
        let ds = cs.take(k - 1);
        let c = cs[k - 1];
        let u = collected(platform, ds);
        assert(cs.take(k) =~= ds.push(c));
        assert(cs.take(k).drop_last() =~= ds);
        lemma_components_proper(v, k - 1);
        if is_verbatim(v) {
            lemma_prefix_kinds(v);
            assert(head.len() == 2);
            if k - 1 > head.len() {
                lemma_components_proper(v, k - 2);
                assert(ds.last() == cs[k - 2]);
            } else {
                assert(ds =~= head);
            }
        }
        lemma_joined_name(v, u, ds, c);
        lemma_name_keeps_start(v, u, ds, c);
        lemma_name_is_last(v, u, ds, c);
        let w = PathView { platform, text: u.text + link(u) + component_text(platform, c) };
        assert(collected(platform, cs.take(k)) == w);
    }
}

/// The normal form of a rejoinable path is another spelling of it, and a tidy one.
pub proof fn lemma_normal_form_is_same_path(v: PathView)
    requires
        is_rejoinable(v),
    ensures
        components_of(normalized(v)) == components_of(v),
        is_tidy(normalized(v)),
        normalized(v).platform == v.platform,
{
    let cs = components_of(v);
    let n = prefix_len(v);
    lemma_prefix_kinds(v);
    if n > 0 && !is_drive(v) && !starts_at_root(v) {
        // a verbatim volume and nothing else
        let s = separators_of(v);
        let none = Seq::<u8>::empty();
        assert(is_verbatim(v));
        lemma_bare_volume(v);
        assert(v.text.skip(n) =~= none);
        assert(v.text.take(n) =~= v.text);
        assert(pieces(none, s) == seq![none]);
        assert(seq![none].drop_last() =~= Seq::<Seq<u8>>::empty());
        assert(named_pieces(seq![none].drop_last(), false, true) =~= Seq::empty());
        assert(named_pieces(seq![none], false, true) =~= Seq::empty());
        assert(cs =~= seq![ComponentView::Prefix(v.text)]);
        assert(cs.drop_last() =~= Seq::empty());
        assert(collected(v.platform, cs.drop_last()).text =~= none);
        assert(normalized(v) == v);
        assert(none != seq![0x2eu8]) by {
            assert(none.len() != seq![0x2eu8].len());
        }
        assert(pieces(none, plain_separators(v.platform)) == seq![none]);
        assert(is_tidy(v));
    } else {
        lemma_collected(v, cs.len() as int);
        assert(cs.take(cs.len() as int) =~= cs);
    }
}

/// A verbatim path without a root is its volume alone.
proof fn lemma_bare_volume(v: PathView)
    requires
        is_verbatim(v),
        !starts_at_root(v),
    ensures
        v.text.len() == prefix_len(v),
{
    let t = v.text;
    let verbatim = verbatim_separators();
    lemma_prefix_kinds(v);
    lemma_name_end_run(t, 4, verbatim);
    if is_share_form(t) {
        lemma_name_end_run(t, 8, verbatim);
        let server = name_end(t, 8, verbatim);
        if server < t.len() {
            lemma_name_end_run(t, server + 1, verbatim);
        }
    }
}

/// The normal form of a rejoinable path is its own normal form, and two rejoinable
/// spellings of one path have the same normal form.
pub proof fn lemma_normal_form_is_unique(a: PathView, b: PathView)
    requires
        a.platform == b.platform,
        is_rejoinable(a),
        is_rejoinable(b),
    ensures
        normalized(normalized(a)) == normalized(a),
        components_of(a) == components_of(b) <==> normalized(a) == normalized(b),
{
    lemma_normal_form_is_same_path(a);
    lemma_normal_form_is_same_path(b);
}

/// Every Unix path is put together again as it was.
pub proof fn lemma_unix_is_rejoinable(v: PathView)
    requires
        v.platform is Unix,
    ensures
        is_rejoinable(v),
{
}

} // verus!
