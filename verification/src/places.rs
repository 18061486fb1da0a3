//! Paths in lists: which of them stand for their trees, where they lead, and which
//! places are ignored.

use vstd::prelude::*;
use vstd::utf8::encode_utf8;

use crate::config::{below, config_dir};
use crate::dir_walker::{in_ignored, resolved_parts, WalkData};
use crate::display::printable_name;
use crate::filter::{
    disambiguated, has_duplicate_names, with_ancestor, with_ancestors, MAX_ANCESTORS,
};
use crate::node::{filetime_size, node_order, size_filetime, NodeView};
use crate::normal_form::{is_rejoinable, lemma_normal_form_is_same_path};
use crate::order::Order;
use crate::path::{
    components_of, file_name_of, path_order, path_text, surrogate_at, without_surrogates,
    ComponentView, PathBuf, PathView, Platform,
};
use crate::path_join::joined;
use crate::spelling::{
    added_by, is_one_piece, lemma_beginnings, lemma_name_behind_path, lemma_paths_are_joined,
    lemma_places_on_unix,
};
use crate::startup::all_joined;
use crate::text::escaped_text;
use crate::utils::{equivalent, is_top_level, normal_forms, normalized, parts_start_with, top_level};

verus! {

// --------------------------------------------------------------------------
// Roots
// --------------------------------------------------------------------------

/// The paths that stand for their trees are paths of the list, in the order of the
/// list; of several that name one place it is the first, and none lies below
/// another path of the list.
pub proof fn lemma_first_spelling_stands(paths: Seq<PathView>, n: int, k: int) -> (i: int)
    requires
        0 <= n <= paths.len(),
        0 <= k < top_level(paths, n).len(),
    ensures
        0 <= i < n,
        top_level(paths, n)[k] == paths[i],
        forall|j: int| 0 <= j < i ==> !equivalent(#[trigger] paths[j], paths[i]),
        forall|j: int|
            0 <= j < paths.len() ==> !crate::utils::parent_of(#[trigger] paths[j], paths[i]),
        top_level(paths, i).len() == k,
        top_level(paths, i) == top_level(paths, n).take(k),
    decreases n,
{
    let before = top_level(paths, n - 1);
    let now = top_level(paths, n);
    if is_top_level(paths, n - 1) && k == before.len() {
        assert(now.take(k) =~= before);
        n - 1
    } else {
        let i = lemma_first_spelling_stands(paths, n - 1, k);
        assert(now[k] == before[k]);
        assert(now.take(k) =~= before.take(k));
        i
    }
}

/// Names that are told apart already stay as they are. Adding ancestors changes
/// nothing but names: not how many roots there are, nor what is in them.
pub proof fn lemma_only_names_change(nodes: Seq<NodeView>, up: int)
    ensures
        disambiguated(nodes, up).len() == nodes.len(),
        !has_duplicate_names(nodes) ==> disambiguated(nodes, up) == nodes,
        forall|i: int|
            0 <= i < nodes.len() ==> (#[trigger] disambiguated(nodes, up)[i]) == (NodeView {
                name: disambiguated(nodes, up)[i].name,
                ..nodes[i]
            }),
    decreases MAX_ANCESTORS + 1 - up,
{
    if up <= MAX_ANCESTORS && has_duplicate_names(nodes) {
        let next = with_ancestors(nodes, up);
        lemma_only_names_change(next, up + 1);
        assert forall|i: int| 0 <= i < nodes.len() implies (#[trigger] disambiguated(
            nodes,
            up,
        )[i]) == (NodeView { name: disambiguated(nodes, up)[i].name, ..nodes[i] }) by {
            assert(next[i] == (NodeView { name: with_ancestor(nodes[i].name, up), ..nodes[i] }));
        }
    }
}

/// Ancestors are added until no two roots are shown by one name, or ten were added:
/// as long as there are two, one more is.
pub proof fn lemma_names_are_told_apart(nodes: Seq<NodeView>, up: int)
    requires
        1 <= up <= 10,
    ensures
        has_duplicate_names(nodes) ==> disambiguated(nodes, up) == disambiguated(
            with_ancestors(nodes, up),
            up + 1,
        ),
        up + 1 <= 10 || disambiguated(with_ancestors(nodes, up), up + 1) == with_ancestors(
            nodes,
            up,
        ),
{
}

/// An ancestor is added in brackets behind the text of the path: the first time the
/// directory that the path lies in, then the one above it, and so on. A path with
/// fewer components stays as it is.
pub proof fn lemma_ancestor_in_brackets(name: PathView, up: int)
    requires
        0 <= up,
    ensures
        components_of(name).len() <= up ==> with_ancestor(name, up) == name,
        components_of(name).len() > up ==> {
            let ancestor = components_of(name)[components_of(name).len() - 1 - up];
            &&& with_ancestor(name, up).platform == name.platform
            &&& ancestor is Normal ==> with_ancestor(name, up).text == encode_utf8(path_text(name))
                + seq![0x28u8] + encode_utf8(escaped_text(ancestor->Normal_0)) + seq![0x29u8]
        },
{
    if components_of(name).len() > up {
        let ancestor = components_of(name)[components_of(name).len() - 1 - up];
        if ancestor is Normal {
            assert(with_ancestor(name, up).text =~= encode_utf8(path_text(name)) + seq![0x28u8]
                + encode_utf8(escaped_text(ancestor->Normal_0)) + seq![0x29u8]);
        }
    }
}

// --------------------------------------------------------------------------
// Places
// --------------------------------------------------------------------------

/// On Unix, a name behind a directory adds itself to the components of the
/// directory, however that is spelled.
pub proof fn lemma_entry_of_directory(dir: PathView, name: Seq<u8>)
    requires
        dir.platform is Unix,
        dir.text.len() > 0,
        is_one_piece(Platform::Unix, name),
        name.len() > 0,
    ensures
        components_of(joined(dir, PathView { platform: Platform::Unix, text: name }))
            == components_of(dir) + added_by(name),
{
    let other = PathView { platform: Platform::Unix, text: name };
    let w = joined(dir, other);
    assert(name[0] != 0x2f);
    lemma_paths_are_joined(dir, other);
    if dir.text.last() != 0x2f {
        lemma_name_behind_path(dir, 0x2f, name);
        assert(w == (PathView { text: dir.text.push(0x2f) + name, ..dir }));
    } else {
        let shorter = PathView { text: dir.text.drop_last(), ..dir };
        let none = Seq::<u8>::empty();
        if shorter.text.len() > 0 {
            lemma_name_behind_path(shorter, 0x2f, none);
            lemma_name_behind_path(shorter, 0x2f, name);
            assert(shorter.text.push(0x2f) + none =~= dir.text);
            assert(shorter.text.push(0x2f) + name =~= w.text);
            assert(components_of(shorter) + added_by(none) =~= components_of(shorter));
        } else {
            lemma_beginnings(Platform::Unix, name, 0x41, 0x2f);
            assert(dir.text =~= seq![0x2fu8]);
            assert(w.text =~= seq![0x2fu8] + name);
        }
    }
}

/// On Unix, an entry lies in an ignored place if an ignored absolute path leads to
/// it or above it, wherever links have led; or if it is named among the directories
/// to ignore. Otherwise it does not.
pub proof fn lemma_ignored_places(
    walk_data: &WalkData,
    path: PathView,
    dir: PathView,
    name: Seq<u8>,
)
    requires
        path.platform is Unix,
        dir.platform is Unix,
        dir.text.len() > 0,
        file_name_of(components_of(path)) == Some(name),
        is_one_piece(Platform::Unix, name),
        name.len() > 2,
        forall|k: int|
            0 <= k < walk_data.absolute_ignore_directories.len() ==> (
            #[trigger] walk_data.absolute_ignore_directories@[k])@.platform is Unix,
    ensures
        in_ignored(walk_data, path, Some(dir), None) <==> {
            ||| exists|k: int|
                0 <= k < walk_data.ignore_directories.len() && equivalent(
                    (#[trigger] walk_data.ignore_directories@[k])@,
                    path,
                )
            ||| exists|k: int|
                0 <= k < walk_data.absolute_ignore_directories.len() && components_of(
                    (#[trigger] walk_data.absolute_ignore_directories@[k])@,
                ).is_prefix_of(components_of(dir).push(ComponentView::Normal(name)))
        },
{
    let place = joined(dir, PathView { platform: Platform::Unix, text: name });
    lemma_entry_of_directory(dir, name);
    assert(components_of(place) =~= components_of(dir).push(ComponentView::Normal(name)));
    assert(resolved_parts(path, Some(dir), None) == components_of(place));
    assert(place.platform is Unix);
    assert forall|k: int|
        0 <= k < walk_data.absolute_ignore_directories.len() implies parts_start_with(
        Platform::Unix,
        components_of((#[trigger] walk_data.absolute_ignore_directories@[k])@),
        components_of(place),
    ) == components_of(walk_data.absolute_ignore_directories@[k]@).is_prefix_of(
        components_of(place),
    ) by {
        lemma_places_on_unix(walk_data.absolute_ignore_directories@[k]@, place);
    }
    if in_ignored(walk_data, path, Some(dir), None) && !crate::utils::names_one_of(
        walk_data.ignore_directories@,
        path,
    ) {
        let k = choose|k: int|
            0 <= k < walk_data.absolute_ignore_directories.len() && parts_start_with(
                (#[trigger] walk_data.absolute_ignore_directories@[k])@.platform,
                components_of(walk_data.absolute_ignore_directories@[k]@),
                resolved_parts(path, Some(dir), None),
            );
        assert(components_of(walk_data.absolute_ignore_directories@[k]@).is_prefix_of(
            components_of(place),
        ));
    }
    if exists|k: int|
        0 <= k < walk_data.absolute_ignore_directories.len() && components_of(
            (#[trigger] walk_data.absolute_ignore_directories@[k])@,
        ).is_prefix_of(components_of(place)) {
        let k = choose|k: int|
            0 <= k < walk_data.absolute_ignore_directories.len() && components_of(
                (#[trigger] walk_data.absolute_ignore_directories@[k])@,
            ).is_prefix_of(components_of(place));
        assert(parts_start_with(
            walk_data.absolute_ignore_directories@[k]@.platform,
            components_of(walk_data.absolute_ignore_directories@[k]@),
            resolved_parts(path, Some(dir), None),
        ));
    }
}

/// The files of the configuration lie where they are looked for: the name of an
/// entry comes behind its directory and a slash, and the directory of this program
/// lies in the one for configurations, which is below the home where it is not
/// set.
pub proof fn lemma_entries_are_below(base: PathView, home: PathView, name: Seq<char>)
    requires
        base.platform is Unix,
        base.text.len() > 0,
        base.text.last() != 0x2f,
        encode_utf8(name).len() > 0,
        encode_utf8(name)[0] != 0x2f,
    ensures
        below(base, name).text == base.text + seq![0x2fu8] + encode_utf8(name),
        config_dir(base, Some(home)) == below(home, "zdu"@),
        config_dir(base, None) == below(below(base, ".config"@), "zdu"@),
{
    lemma_paths_are_joined(
        base,
        PathView { platform: Platform::Unix, text: encode_utf8(name) },
    );
    assert(below(base, name).text =~= base.text + seq![0x2fu8] + encode_utf8(name));
}

/// Every path is put behind every directory, and nothing else is there.
pub proof fn lemma_all_are_joined(dirs: Seq<PathView>, more: Seq<PathView>)
    ensures
        all_joined(dirs, more).len() == dirs.len() * more.len(),
        forall|i: int, j: int|
            0 <= i < dirs.len() && 0 <= j < more.len() ==> all_joined(dirs, more)[j * dirs.len()
                + i] == #[trigger] joined(dirs[i], more[j]),
    decreases more.len(),
{
    if more.len() == 0 {
        assert(dirs.len() * 0 == 0);
    } else {
        let rest = more.drop_last();
        let n = dirs.len() as int;
        let m = rest.len() as int;
        lemma_all_are_joined(dirs, rest);
        let before = all_joined(dirs, rest);
        let row = dirs.map_values(|dir: PathView| joined(dir, more.last()));
        assert(all_joined(dirs, more) == before + row);
        assert(n * (m + 1) == n * m + n) by (nonlinear_arith);
        assert(m * n == n * m) by (nonlinear_arith);
        assert forall|i: int, j: int| 0 <= i < dirs.len() && 0 <= j < more.len() implies all_joined(
            dirs,
            more,
        )[j * dirs.len() + i] == #[trigger] joined(dirs[i], more[j]) by {
            if j < m {
                assert(rest[j] == more[j]);
                assert(before[j * dirs.len() + i] == joined(dirs[i], rest[j]));
                assert(0 <= j * n + i < n * m) by (nonlinear_arith)
                    requires
                        0 <= j < m,
                        0 <= i < n,
                ;
            } else {
                assert(j == m);
                assert(row[i] == joined(dirs[i], more.last()));
            }
        }
    }
}

// --------------------------------------------------------------------------
// Names and sizes
// --------------------------------------------------------------------------

/// A text in which no half of a surrogate pair can start stays as it is; a half
/// becomes one U+FFFD, and what is before and behind it is dealt with by itself.
pub proof fn lemma_surrogates_are_replaced(before: Seq<u8>, x: u8, y: u8, rest: Seq<u8>)
    requires
        forall|i: int| 0 <= i < before.len() ==> #[trigger] before[i] != 0xed,
        0xa0 <= x <= 0xbf,
        0x80 <= y <= 0xbf,
    ensures
        without_surrogates(before, 0) == before,
        without_surrogates(before + seq![0xedu8, x, y] + rest, 0) == before + seq![
            0xefu8,
            0xbfu8,
            0xbdu8,
        ] + without_surrogates(rest, 0),
{
    lemma_kept_bytes(before, Seq::empty(), 0);
    assert(before + Seq::<u8>::empty() =~= before);
    let half = seq![0xedu8, x, y];
    let tail = half + rest;
    let text = before + half + rest;
    lemma_kept_bytes(before, tail, 0);
    assert(text =~= before + tail);
    let n = before.len() as int;
    assert(text[n] == 0xed && text[n + 1] == x && text[n + 2] == y);
    assert(surrogate_at(text, n));
    assert(text.skip(n + 3) =~= rest);
    lemma_from_there_on(text, rest, n + 3, 0);
    assert(before.skip(0) =~= before);
    assert(without_surrogates(text, 0) =~= before + seq![0xefu8, 0xbfu8, 0xbdu8]
        + without_surrogates(rest, 0));
}

proof fn lemma_kept_bytes(before: Seq<u8>, tail: Seq<u8>, i: int)
    requires
        0 <= i <= before.len(),
        forall|i: int| 0 <= i < before.len() ==> #[trigger] before[i] != 0xed,
    ensures
        without_surrogates(before + tail, i) == before.skip(i) + without_surrogates(
            before + tail,
            before.len() as int,
        ),
    decreases before.len() - i,
{
    let text = before + tail;
    if i < before.len() {
        lemma_kept_bytes(before, tail, i + 1);
        assert(text[i] == before[i]);
        assert(before.skip(i) =~= seq![before[i]] + before.skip(i + 1));
        assert(without_surrogates(text, i) =~= before.skip(i) + without_surrogates(
            text,
            before.len() as int,
        ));
    } else {
        assert(before.skip(i) =~= Seq::empty());
        assert(without_surrogates(text, i) =~= before.skip(i) + without_surrogates(text, i));
    }
}

proof fn lemma_from_there_on(text: Seq<u8>, rest: Seq<u8>, n: int, i: int)
    requires
        0 <= n,
        0 <= i,
        text.len() == n + rest.len(),
        text.skip(n) == rest,
    ensures
        without_surrogates(text, n + i) == without_surrogates(rest, i),
    decreases rest.len() - i,
{
    if i < rest.len() {
        assert(rest[i] == text[n + i]);
        assert(i + 1 < rest.len() ==> rest[i + 1] == text[n + i + 1]);
        assert(i + 2 < rest.len() ==> rest[i + 2] == text[n + i + 2]);
        assert(surrogate_at(text, n + i) == surrogate_at(rest, i));
        if surrogate_at(rest, i) {
            lemma_from_there_on(text, rest, n, i + 3);
        } else {
            lemma_from_there_on(text, rest, n, i + 1);
        }
    }
}

/// A larger node is the greater; of two of one size it is the one with the greater
/// name. What is in them carries no weight.
pub proof fn lemma_larger_is_greater(a: NodeView, b: NodeView)
    ensures
        a.size > b.size ==> node_order(a, b) == Order::Greater && node_order(b, a) == Order::Less,
        a.size == b.size ==> node_order(a, b) == path_order(a.name, b.name),
{
}

/// The size that stands for a timestamp is its distance from the least of all, and
/// is read back as the timestamp.
pub proof fn lemma_times_as_sizes(t: i64, size: u64)
    ensures
        filetime_size(t) == t + 0x8000_0000_0000_0000,
        size_filetime(size) == size - 0x8000_0000_0000_0000,
{
}

/// Two roots are told apart by what they are shown by where paths are shortened,
/// and by nothing else.
pub proof fn lemma_roots_with_one_name(nodes: Seq<NodeView>)
    ensures
        has_duplicate_names(nodes) <==> exists|i: int, j: int|
            0 <= i < nodes.len() && 0 <= j < nodes.len() && i != j && printable_name(
                (#[trigger] nodes[i]).name,
                true,
            ) == printable_name((#[trigger] nodes[j]).name, true),
{
    if exists|i: int, j: int|
        0 <= i < nodes.len() && 0 <= j < nodes.len() && i != j && printable_name(
            (#[trigger] nodes[i]).name,
            true,
        ) == printable_name((#[trigger] nodes[j]).name, true) {
        let (i, j) = choose|i: int, j: int|
            0 <= i < nodes.len() && 0 <= j < nodes.len() && i != j && printable_name(
                (#[trigger] nodes[i]).name,
                true,
            ) == printable_name((#[trigger] nodes[j]).name, true);
        let (a, b) = if i < j {
            (i, j)
        } else {
            (j, i)
        };
        assert(printable_name(nodes[a].name, true) == printable_name(nodes[b].name, true));
    }
}

/// On Unix, where the directory of an entry could not be resolved, it is where the
/// entry itself was resolved to that counts.
pub proof fn lemma_ignored_places_by_entry(
    walk_data: &WalkData,
    path: PathView,
    place: PathView,
)
    requires
        path.platform is Unix,
        place.platform is Unix,
        forall|k: int|
            0 <= k < walk_data.absolute_ignore_directories.len() ==> (
            #[trigger] walk_data.absolute_ignore_directories@[k])@.platform is Unix,
    ensures
        in_ignored(walk_data, path, None, Some(place)) <==> {
            ||| exists|k: int|
                0 <= k < walk_data.ignore_directories.len() && equivalent(
                    (#[trigger] walk_data.ignore_directories@[k])@,
                    path,
                )
            ||| exists|k: int|
                0 <= k < walk_data.absolute_ignore_directories.len() && components_of(
                    (#[trigger] walk_data.absolute_ignore_directories@[k])@,
                ).is_prefix_of(components_of(place))
        },
{
    assert forall|k: int|
        0 <= k < walk_data.absolute_ignore_directories.len() implies parts_start_with(
        Platform::Unix,
        components_of((#[trigger] walk_data.absolute_ignore_directories@[k])@),
        components_of(place),
    ) == components_of(walk_data.absolute_ignore_directories@[k]@).is_prefix_of(
        components_of(place),
    ) by {
        lemma_places_on_unix(walk_data.absolute_ignore_directories@[k]@, place);
    }
    if in_ignored(walk_data, path, None, Some(place)) && !crate::utils::names_one_of(
        walk_data.ignore_directories@,
        path,
    ) {
        let k = choose|k: int|
            0 <= k < walk_data.absolute_ignore_directories.len() && parts_start_with(
                (#[trigger] walk_data.absolute_ignore_directories@[k])@.platform,
                components_of(walk_data.absolute_ignore_directories@[k]@),
                resolved_parts(path, None, Some(place)),
            );
        assert(components_of(walk_data.absolute_ignore_directories@[k]@).is_prefix_of(
            components_of(place),
        ));
    }
    if exists|k: int|
        0 <= k < walk_data.absolute_ignore_directories.len() && components_of(
            (#[trigger] walk_data.absolute_ignore_directories@[k])@,
        ).is_prefix_of(components_of(place)) {
        let k = choose|k: int|
            0 <= k < walk_data.absolute_ignore_directories.len() && components_of(
                (#[trigger] walk_data.absolute_ignore_directories@[k])@,
            ).is_prefix_of(components_of(place));
        assert(parts_start_with(
            walk_data.absolute_ignore_directories@[k]@.platform,
            components_of(walk_data.absolute_ignore_directories@[k]@),
            resolved_parts(path, None, Some(place)),
        ));
    }
}

/// A text that holds no half of a surrogate pair stays as it is.
pub proof fn lemma_text_without_halves_stays(t: Seq<u8>, i: int)
    requires
        0 <= i <= t.len(),
        forall|j: int|
            0 <= j && j + 2 < t.len() ==> !(#[trigger] t[j] == 0xed && 0xa0 <= t[j + 1] <= 0xbf
                && 0x80 <= t[j + 2] <= 0xbf),
    ensures
        without_surrogates(t, i) == t.skip(i),
    decreases t.len() - i,
{
    if i < t.len() {
        assert(t[i] == t[i]);
        assert(!surrogate_at(t, i));
        lemma_text_without_halves_stays(t, i + 1);
        assert(t.skip(i) =~= seq![t[i]] + t.skip(i + 1));
    } else {
        assert(t.skip(i) =~= Seq::empty());
    }
}

/// Paths are put into their normal forms one by one, each made of the components of
/// the path and of nothing else.
pub proof fn lemma_each_is_put_into_its_normal_form(dirs: Seq<PathBuf>, i: int)
    requires
        0 <= i < dirs.len(),
    ensures
        normal_forms(dirs).len() == dirs.len(),
        normal_forms(dirs)[i] == normalized(dirs[i]@),
        is_rejoinable(dirs[i]@) ==> components_of(normal_forms(dirs)[i]) == components_of(dirs[i]@),
{
    if is_rejoinable(dirs[i]@) {
        lemma_normal_form_is_same_path(dirs[i]@);
    }
}

/// Where two roots are shown by one name, every root gets an ancestor, not those two
/// alone.
pub proof fn lemma_every_root_gets_an_ancestor(nodes: Seq<NodeView>, up: int, i: int)
    requires
        0 <= i < nodes.len(),
    ensures
        with_ancestors(nodes, up).len() == nodes.len(),
        with_ancestors(nodes, up)[i].name == with_ancestor(nodes[i].name, up),
        with_ancestors(nodes, up)[i] == (NodeView {
            name: with_ancestors(nodes, up)[i].name,
            ..nodes[i]
        }),
{
}

} // verus!
