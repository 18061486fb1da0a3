//! Comparing paths, and reducing a list of paths to the roots of its trees.

use std::collections::HashSet;

use vstd::prelude::*;
use vstd::utf8::encode_utf8;

use crate::config::DAY_SECONDS;
use crate::dir_walker::{filter_in_range, Operator};
use crate::exclusion::is_asked_for;
use crate::node::EntryMetadata;
use crate::path::{
    ascii_lower, component_text, component_views, components_match, components_of, is_absolute_path,
    name_text, path_text, same_component, same_ignoring_case, text_of_component, Component,
    ComponentView, PathBuf, PathView, Platform,
};
use crate::path_join::joined;
use crate::pattern::{any_found, find_all, matches_of};

verus! {

// --------------------------------------------------------------------------
// Normal form
// --------------------------------------------------------------------------

/// The path that components make when each is put behind those before it.
pub open spec fn collected(platform: Platform, cs: Seq<ComponentView>) -> PathView
    decreases cs.len(),
{
    if cs.len() == 0 {
        PathView { platform, text: Seq::empty() }
    } else {
        joined(
            collected(platform, cs.drop_last()),
            PathView { platform, text: component_text(platform, cs.last()) },
        )
    }
}

/// The normal form of a path.
pub open spec fn normalized(v: PathView) -> PathView {
    collected(v.platform, components_of(v))
}

pub(crate) proof fn lemma_collected_platform(platform: Platform, cs: Seq<ComponentView>)
    ensures
        collected(platform, cs).platform == platform,
    decreases cs.len(),
{
    if cs.len() > 0 {
        lemma_collected_platform(platform, cs.drop_last());
    }
}

/// Puts a path into its normal form: repeated separators, trailing separators
/// and `.` segments behind the first are dropped, and the separators become
/// those of the platform.
pub fn normalize_path(path: &PathBuf) -> (r: PathBuf)
    ensures
        r@ == normalized(path@),
{
    let cs = path.components();
    let platform = path.platform();
    let ghost views = component_views(cs@);
    let mut out = PathBuf::new(platform, Vec::new());
    let mut i: usize = 0;
    assert(views.take(0) =~= Seq::empty());
    assert(out@ =~= collected(platform, views.take(0)));
    while i < cs.len()
        invariant
            i <= cs.len(),
            views == component_views(cs@),
            out@ == collected(platform, views.take(i as int)),
            out@.platform == platform,
        decreases cs.len() - i,
    {
        assert(views.take(i + 1).drop_last() =~= views.take(i as int));
        assert(views.take(i + 1).last() == cs@[i as int]@);
        let next = PathBuf::new(platform, text_of_component(platform, &cs[i]));
        out = out.join(&next);
        i += 1;
    }
    assert(views.take(cs.len() as int) =~= views);
    out
}

// --------------------------------------------------------------------------
// Paths within paths
// --------------------------------------------------------------------------

/// The components of `parent` are the first components of `child`.
pub open spec fn parts_start_with(
    platform: Platform,
    parent: Seq<ComponentView>,
    child: Seq<ComponentView>,
) -> bool {
    parent.len() <= child.len() && forall|i: int|
        0 <= i < parent.len() ==> same_component(platform, #[trigger] parent[i], child[i])
}

/// `child` is `parent` or lies below it.
pub open spec fn starts_with(parent: PathView, child: PathView) -> bool {
    parts_start_with(parent.platform, components_of(parent), components_of(child))
}

/// The two paths name the same place.
pub open spec fn equivalent(a: PathView, b: PathView) -> bool {
    starts_with(a, b) && starts_with(b, a)
}

/// `child` lies below `parent`.
pub open spec fn parent_of(parent: PathView, child: PathView) -> bool {
    starts_with(parent, child) && !starts_with(child, parent)
}

fn components_start_with(
    platform: Platform,
    parent: &Vec<Component>,
    child: &Vec<Component>,
) -> (r: bool)
    ensures
        r == parts_start_with(platform, component_views(parent@), component_views(child@)),
{
    let ghost a = component_views(parent@);
    let ghost b = component_views(child@);
    if parent.len() > child.len() {
        return false;
    }
    let mut i: usize = 0;
    while i < parent.len()
        invariant
            i <= parent.len() <= child.len(),
            a == component_views(parent@),
            b == component_views(child@),
            forall|j: int| 0 <= j < i ==> same_component(platform, #[trigger] a[j], b[j]),
        decreases parent.len() - i,
    {
        if !components_match(platform, &parent[i], &child[i]) {
            assert(!same_component(platform, a[i as int], b[i as int]));
            return false;
        }
        i += 1;
    }
    true
}

/// Tells whether `child` is `parent` or lies below it, component by component.
pub fn path_starts_with(parent: &PathBuf, child: &PathBuf) -> (r: bool)
    ensures
        r == starts_with(parent@, child@),
{
    components_start_with(parent.platform(), parent.components(), child.components())
}

/// Tells whether two paths name the same place.
pub fn path_equivalent(a: &PathBuf, b: &PathBuf) -> (r: bool)
    ensures
        r == equivalent(a@, b@),
{
    path_starts_with(a, b) && path_starts_with(b, a)
}

/// Tells whether `child` lies below `parent`.
pub fn is_a_parent_of(parent: &PathBuf, child: &PathBuf) -> (r: bool)
    ensures
        r == parent_of(parent@, child@),
{
    path_starts_with(parent, child) && !path_starts_with(child, parent)
}

/// Some path of the list names the same place as `path`.
pub open spec fn names_one_of(set: Seq<PathBuf>, path: PathView) -> bool {
    exists|i: int| 0 <= i < set.len() && equivalent(#[trigger] set[i]@, path)
}

/// Tells whether a path is among those of a small list.
pub fn path_set_contains(set: &Vec<PathBuf>, path: &PathBuf) -> (r: bool)
    ensures
        r == names_one_of(set@, path@),
{
    let mut i: usize = 0;
    while i < set.len()
        invariant
            i <= set.len(),
            forall|j: int| 0 <= j < i ==> !equivalent(#[trigger] set@[j]@, path@),
        decreases set.len() - i,
    {
        if path_equivalent(&set[i], path) {
            assert(equivalent(set@[i as int]@, path@));
            return true;
        }
        i += 1;
    }
    false
}

/// The names of components are compared by an equivalence relation.
proof fn lemma_same_component(platform: Platform, a: ComponentView, b: ComponentView, c: ComponentView)
    ensures
        same_component(platform, a, a),
        same_component(platform, a, b) ==> same_component(platform, b, a),
        same_component(platform, a, b) && same_component(platform, b, c) ==> same_component(
            platform,
            a,
            c,
        ),
{
    let (x, y, z) = (
        encode_utf8(name_text(platform, component_text(platform, a))),
        encode_utf8(name_text(platform, component_text(platform, b))),
        encode_utf8(name_text(platform, component_text(platform, c))),
    );
    if same_ignoring_case(x, y) {
        assert forall|i: int| 0 <= i < y.len() implies ascii_lower(#[trigger] y[i]) == ascii_lower(
            x[i],
        ) by {
            assert(ascii_lower(x[i]) == ascii_lower(y[i]));
        }
        if same_ignoring_case(y, z) {
            assert forall|i: int| 0 <= i < x.len() implies ascii_lower(#[trigger] x[i])
                == ascii_lower(z[i]) by {
                assert(ascii_lower(y[i]) == ascii_lower(z[i]));
            }
        }
    }
}

/// Being inside is reflexive and transitive, and an inner path is no shorter.
pub proof fn lemma_starts_with(a: PathView, b: PathView, c: PathView)
    requires
        a.platform == b.platform,
        b.platform == c.platform,
    ensures
        starts_with(a, a),
        starts_with(a, b) && starts_with(b, c) ==> starts_with(a, c),
        starts_with(a, b) ==> components_of(a).len() <= components_of(b).len(),
        starts_with(a, b) && components_of(a).len() == components_of(b).len() ==> starts_with(b, a),
{
    let (x, y, z) = (components_of(a), components_of(b), components_of(c));
    let p = a.platform;
    assert forall|i: int| 0 <= i < x.len() implies same_component(p, #[trigger] x[i], x[i]) by {
        lemma_same_component(p, x[i], x[i], x[i]);
    }
    if starts_with(a, b) {
        if starts_with(b, c) {
            assert forall|i: int| 0 <= i < x.len() implies same_component(
                p,
                #[trigger] x[i],
                z[i],
            ) by {
                assert(same_component(p, y[i], z[i]));
                lemma_same_component(p, x[i], y[i], z[i]);
            }
        }
        if x.len() == y.len() {
            assert forall|i: int| 0 <= i < y.len() implies same_component(
                p,
                #[trigger] y[i],
                x[i],
            ) by {
                assert(same_component(p, x[i], y[i]));
                lemma_same_component(p, x[i], y[i], z[i]);
            }
        }
    }
}

// --------------------------------------------------------------------------
// Roots of trees
// --------------------------------------------------------------------------

/// The path at `i` stands for its tree in a list of paths: no path of the list
/// lies above it, and none before it names the same place.
pub open spec fn is_top_level(paths: Seq<PathView>, i: int) -> bool {
    &&& forall|j: int| 0 <= j < paths.len() ==> !parent_of(#[trigger] paths[j], paths[i])
    &&& forall|j: int| 0 <= j < i ==> !equivalent(#[trigger] paths[j], paths[i])
}

/// Those of the first `n` paths that stand for their trees, in their order.
pub open spec fn top_level(paths: Seq<PathView>, n: int) -> Seq<PathView>
    decreases n,
{
    if n <= 0 {
        Seq::empty()
    } else if is_top_level(paths, n - 1) {
        top_level(paths, n - 1).push(paths[n - 1])
    } else {
        top_level(paths, n - 1)
    }
}

/// The normal forms of the paths of a list.
pub open spec fn normal_forms(dirs: Seq<PathBuf>) -> Seq<PathView> {
    dirs.map_values(|d: PathBuf| normalized(d@))
}

/// The paths of a list all follow the rules of one platform.
pub open spec fn same_platform(paths: Seq<PathView>) -> bool {
    forall|i: int, j: int|
        0 <= i < paths.len() && 0 <= j < paths.len() ==> (#[trigger] paths[i]).platform == (
        #[trigger] paths[j]).platform
}

/// Every path of a list lies at or below one that stands for its tree.
pub proof fn lemma_top_level_covers(paths: Seq<PathView>, i: int) -> (m: int)
    requires
        same_platform(paths),
        0 <= i < paths.len(),
    ensures
        0 <= m < paths.len(),
        is_top_level(paths, m),
        starts_with(paths[m], paths[i]),
    decreases components_of(paths[i]).len(), i,
{
    if is_top_level(paths, i) {
        lemma_starts_with(paths[i], paths[i], paths[i]);
        i
    } else if exists|j: int|
        0 <= j < paths.len() && parent_of(#[trigger] paths[j], paths[i]) {
        let j = choose|j: int| 0 <= j < paths.len() && parent_of(#[trigger] paths[j], paths[i]);
        lemma_starts_with(paths[j], paths[i], paths[i]);
        let m = lemma_top_level_covers(paths, j);
        lemma_starts_with(paths[m], paths[j], paths[i]);
        m
    } else {
        let j = choose|j: int| 0 <= j < i && equivalent(#[trigger] paths[j], paths[i]);
        lemma_starts_with(paths[j], paths[i], paths[i]);
        lemma_starts_with(paths[i], paths[j], paths[i]);
        let m = lemma_top_level_covers(paths, j);
        lemma_starts_with(paths[m], paths[j], paths[i]);
        m
    }
}

/// What stands for its tree is listed, and nothing else is.
proof fn lemma_top_level_members(paths: Seq<PathView>, n: int)
    requires
        0 <= n <= paths.len(),
    ensures
        forall|i: int|
            0 <= i < n && is_top_level(paths, i) ==> top_level(paths, n).contains(
                #[trigger] paths[i],
            ),
        forall|k: int|
            0 <= k < top_level(paths, n).len() ==> exists|i: int|
                0 <= i < n && is_top_level(paths, i) && #[trigger] paths[i] == #[trigger] top_level(
                    paths,
                    n,
                )[k],
    decreases n,
{
    if n > 0 {
        lemma_top_level_members(paths, n - 1);
        let before = top_level(paths, n - 1);
        let now = top_level(paths, n);
        if is_top_level(paths, n - 1) {
            assert(now == before.push(paths[n - 1]));
            assert(now.last() == paths[n - 1]);
        }
        assert forall|i: int| 0 <= i < n && is_top_level(paths, i) implies now.contains(
            #[trigger] paths[i],
        ) by {
            if i < n - 1 {
                let k = choose|k: int| 0 <= k < before.len() && before[k] == paths[i];
                assert(now[k] == paths[i]);
            }
        }
        assert forall|k: int| 0 <= k < now.len() implies exists|i: int|
            0 <= i < n && is_top_level(paths, i) && #[trigger] paths[i] == #[trigger] now[k] by {
            if k < before.len() {
                assert(now[k] == before[k]);
            }
        }
    }
}

/// What a reduced list of paths is: every path of the list it came from lies at
/// or below one of its paths, and no two of its paths lie in one tree.
pub proof fn lemma_top_level_is_antichain_cover(paths: Seq<PathView>)
    requires
        same_platform(paths),
    ensures
        forall|i: int|
            0 <= i < paths.len() ==> exists|k: int|
                0 <= k < top_level(paths, paths.len() as int).len() && starts_with(
                    #[trigger] top_level(paths, paths.len() as int)[k],
                    #[trigger] paths[i],
                ),
        forall|k: int, l: int|
            0 <= k < top_level(paths, paths.len() as int).len() && 0 <= l < top_level(
                paths,
                paths.len() as int,
            ).len() && k != l ==> !starts_with(
                #[trigger] top_level(paths, paths.len() as int)[k],
                #[trigger] top_level(paths, paths.len() as int)[l],
            ),
{
    let n = paths.len() as int;
    let tops = top_level(paths, n);
    lemma_top_level_members(paths, n);
    assert forall|i: int| 0 <= i < paths.len() implies exists|k: int|
        0 <= k < tops.len() && starts_with(#[trigger] tops[k], #[trigger] paths[i]) by {
        let m = lemma_top_level_covers(paths, i);
        assert(tops.contains(paths[m]));
        let k = choose|k: int| 0 <= k < tops.len() && tops[k] == paths[m];
        assert(starts_with(tops[k], paths[i]));
    }
    lemma_top_level_apart(paths, n);
}

proof fn lemma_top_level_apart(paths: Seq<PathView>, n: int)
    requires
        same_platform(paths),
        0 <= n <= paths.len(),
    ensures
        forall|k: int, l: int|
            0 <= k < top_level(paths, n).len() && 0 <= l < top_level(paths, n).len() && k != l
                ==> !starts_with(#[trigger] top_level(paths, n)[k], #[trigger] top_level(paths, n)[l]),
    decreases n,
{
    if n > 0 {
        lemma_top_level_apart(paths, n - 1);
        lemma_top_level_members(paths, n - 1);
        let before = top_level(paths, n - 1);
        let now = top_level(paths, n);
        if is_top_level(paths, n - 1) {
            assert forall|k: int, l: int|
                0 <= k < now.len() && 0 <= l < now.len() && k != l implies !starts_with(
                #[trigger] now[k],
                #[trigger] now[l],
            ) by {
                if k < before.len() && l < before.len() {
                    assert(now[k] == before[k] && now[l] == before[l]);
                } else {
                    let o = if k < before.len() {
                        k
                    } else {
                        l
                    };
                    assert(now[o] == before[o]);
                    let i = choose|i: int|
                        0 <= i < n - 1 && is_top_level(paths, i) && #[trigger] paths[i] == before[o];
                    lemma_starts_with(paths[i], paths[n - 1], paths[i]);
                    lemma_starts_with(paths[n - 1], paths[i], paths[i]);
                    assert(!parent_of(paths[i], paths[n - 1]));
                    assert(!parent_of(paths[n - 1], paths[i]));
                    assert(!equivalent(paths[i], paths[n - 1]));
                }
            }
        }
    }
}

/// One more path at the end of a list takes those below it away.
proof fn lemma_top_level_extend(paths: Seq<PathView>, k: int, n: int)
    requires
        0 <= n <= k < paths.len(),
    ensures
        top_level(paths.take(k + 1), n) == top_level(paths.take(k), n).filter(
            |p: PathView| !parent_of(paths[k], p),
        ),
    decreases n,
{
    reveal(Seq::filter);
    let keep = |p: PathView| !parent_of(paths[k], p);
    let (short, long) = (paths.take(k), paths.take(k + 1));
    if n > 0 {
        lemma_top_level_extend(paths, k, n - 1);
        let i = n - 1;
        assert(long[i] == short[i]);
        assert(long[k] == paths[k]);
        if is_top_level(short, i) {
            let before = top_level(short, i);
            assert(before.push(short[i]).drop_last() =~= before);
            assert(before.push(short[i]).last() == short[i]);
            assert forall|j: int| 0 <= j < i implies !equivalent(#[trigger] long[j], long[i]) by {
                assert(long[j] == short[j]);
            }
            if keep(short[i]) {
                assert forall|j: int| 0 <= j < long.len() implies !parent_of(
                    #[trigger] long[j],
                    long[i],
                ) by {
                    if j < k {
                        assert(long[j] == short[j]);
                    }
                }
                assert(is_top_level(long, i));
            } else {
                assert(parent_of(long[k], long[i]));
                assert(!is_top_level(long, i));
            }
        } else {
            assert(!is_top_level(long, i)) by {
                if is_top_level(long, i) {
                    assert forall|j: int| 0 <= j < short.len() implies !parent_of(
                        #[trigger] short[j],
                        short[i],
                    ) by {
                        assert(long[j] == short[j]);
                    }
                    assert forall|j: int| 0 <= j < i implies !equivalent(
                        #[trigger] short[j],
                        short[i],
                    ) by {
                        assert(long[j] == short[j]);
                    }
                }
            }
        }
    } else {
        assert(top_level(short, n).filter(keep) =~= Seq::empty());
    }
}

fn drop_children(tops: &mut Vec<PathBuf>, parent: &PathBuf)
    ensures
        path_views(final(tops)@) == path_views(old(tops)@).filter(
            |p: PathView| !parent_of(parent@, p),
        ),
{
    let ghost before = path_views(tops@);
    let ghost keep = |p: PathView| !parent_of(parent@, p);
    let ghost mut seen: int = 0;
    let mut i: usize = 0;
    proof {
        reveal(Seq::filter);
        assert(before.take(0).filter(keep) =~= Seq::empty());
        assert(path_views(tops@) =~= before.take(0).filter(keep) + before.skip(0));
    }
    while i < tops.len()
        invariant
            0 <= seen <= before.len(),
            keep == (|p: PathView| !parent_of(parent@, p)),
            i == before.take(seen).filter(keep).len(),
            path_views(tops@) == before.take(seen).filter(keep) + before.skip(seen),
        decreases before.len() - seen,
    {
        proof {
            reveal(Seq::filter);
            assert(path_views(tops@).len() == tops.len());
            assert(seen < before.len());
            assert(before.take(seen + 1).drop_last() =~= before.take(seen));
            assert(path_views(tops@)[i as int] == before.skip(seen)[0]);
            assert(before.take(seen + 1).last() == tops@[i as int]@);
        }
        let ghost prior = tops@;
        if is_a_parent_of(parent, &tops[i]) {
            tops.remove(i);
            proof {
                assert(path_views(tops@) =~= path_views(prior).remove(i as int));
                assert(path_views(tops@) =~= before.take(seen + 1).filter(keep) + before.skip(
                    seen + 1,
                ));
            }
        } else {
            i += 1;
            proof {
                assert(before.take(seen).filter(keep) + before.skip(seen) =~= before.take(
                    seen + 1,
                ).filter(keep) + before.skip(seen + 1));
            }
        }
        proof {
            seen = seen + 1;
        }
    }
    proof {
        assert(path_views(tops@).len() == tops.len());
        assert(before.skip(seen).len() == 0);
        assert(before.take(seen) =~= before);
        assert(path_views(tops@) =~= before.filter(keep));
    }
}

/// The views of a list of paths.
pub open spec fn path_views(paths: Seq<PathBuf>) -> Seq<PathView> {
    paths.map_values(|p: PathBuf| p@)
}

/// Reduces a list of directories to those that are not inside another of them,
/// each in its normal form. Of several spellings of one place the first stays.
pub fn simplify_dir_names(dirs: &Vec<PathBuf>) -> (r: Vec<PathBuf>)
    requires
        same_platform(path_views(dirs@)),
    ensures
        path_views(r@) == top_level(normal_forms(dirs@), dirs.len() as int),
{
    let ghost paths = normal_forms(dirs@);
    proof {
        assert forall|i: int, j: int| 0 <= i < paths.len() && 0 <= j < paths.len() implies (
        #[trigger] paths[i]).platform == (#[trigger] paths[j]).platform by {
            assert(path_views(dirs@)[i].platform == path_views(dirs@)[j].platform);
            lemma_collected_platform(dirs@[i]@.platform, components_of(dirs@[i]@));
            lemma_collected_platform(dirs@[j]@.platform, components_of(dirs@[j]@));
        }
    }
    let mut tops: Vec<PathBuf> = Vec::with_capacity(dirs.len());
    let mut k: usize = 0;
    assert(path_views(tops@) =~= top_level(paths.take(0), 0));
    while k < dirs.len()
        invariant
            k <= dirs.len(),
            paths == normal_forms(dirs@),
            same_platform(paths),
            path_views(tops@) == top_level(paths.take(k as int), k as int),
        decreases dirs.len() - k,
    {
        let name = normalize_path(&dirs[k]);
        let ghost short = paths.take(k as int);
        let ghost long = paths.take(k + 1);
        assert(name@ == paths[k as int]);
        let ghost before = tops@;
        let mut can_add: bool = true;
        let mut i: usize = 0;
        while i < tops.len()
            invariant
                i <= tops.len(),
                can_add == forall|m: int|
                    0 <= m < i ==> !parent_of(#[trigger] tops@[m]@, name@) && !equivalent(
                        tops@[m]@,
                        name@,
                    ),
            decreases tops.len() - i,
        {
            if is_a_parent_of(&tops[i], &name) || path_equivalent(&tops[i], &name) {
                assert(parent_of(tops@[i as int]@, name@) || equivalent(tops@[i as int]@, name@));
                can_add = false;
            }
            i += 1;
        }
        proof {
            assert(long.len() == k + 1);
            assert(long[k as int] == name@);
            lemma_starts_with(name@, name@, name@);
            lemma_top_level_members(short, k as int);
            if can_add {
                assert forall|j: int| 0 <= j < k implies !starts_with(#[trigger] long[j], name@) by {
                    assert(long[j] == short[j]);
                    if starts_with(short[j], name@) {
                        let m = lemma_top_level_covers(short, j);
                        lemma_starts_with(short[m], short[j], name@);
                        assert(path_views(before).contains(short[m]));
                        let t = choose|t: int|
                            0 <= t < path_views(before).len() && path_views(before)[t] == short[m];
                        assert(before[t]@ == short[m]);
                        assert(starts_with(before[t]@, name@));
                        assert(!parent_of(before[t]@, name@) && !equivalent(before[t]@, name@));
                    }
                }
                assert(is_top_level(long, k as int));
            } else {
                let m = choose|m: int|
                    0 <= m < before.len() && (parent_of(#[trigger] before[m]@, name@) || equivalent(
                        before[m]@,
                        name@,
                    ));
                assert(path_views(before)[m] == before[m]@);
                let j = choose|j: int|
                    0 <= j < k && is_top_level(short, j) && #[trigger] short[j] == path_views(
                        before,
                    )[m];
                assert(long[j] == short[j]);
                assert(!is_top_level(long, k as int));
            }
            lemma_top_level_extend(paths, k as int, k as int);
        }
        drop_children(&mut tops, &name);
        let ghost thinned = tops@;
        if can_add {
            tops.push(name);
            assert(path_views(tops@) =~= path_views(thinned).push(name@));
        }
        k += 1;
    }
    assert(paths.take(dirs.len() as int) =~= paths);
    tops
}

// --------------------------------------------------------------------------
// Filters
// --------------------------------------------------------------------------

/// A time filter leaves a timestamp out.
pub open spec fn outside_time(filter_time: Option<(Operator, i64)>, actual_time: i64) -> bool {
    match filter_time {
        None => false,
        Some((Operator::Equal, bound)) => !(bound <= actual_time < bound + DAY_SECONDS),
        Some((Operator::GreaterThan, bound)) => actual_time < bound,
        Some((Operator::LessThan, bound)) => actual_time > bound,
    }
}

/// Tells whether a time filter leaves a timestamp out.
pub fn is_filtered_out_due_to_file_time(
    filter_time: Option<&(Operator, i64)>,
    actual_time: i64,
) -> (r: bool)
    requires
        filter_time matches Some(f) ==> filter_in_range(Some(*f)),
    ensures
        r == outside_time(
            match filter_time {
                Some(f) => Some(*f),
                None => None,
            },
            actual_time,
        ),
        filter_time is None ==> !r,
        filter_time matches Some(f) ==> r == !is_asked_for(Some(*f), actual_time),
{
    match filter_time {
        None => false,
        Some((Operator::Equal, bound_time)) => {
            !(actual_time >= *bound_time && actual_time < *bound_time + DAY_SECONDS)
        },
        Some((Operator::GreaterThan, bound_time)) => actual_time < *bound_time,
        Some((Operator::LessThan, bound_time)) => actual_time > *bound_time,
    }
}

/// The answers to a list of filters leave a path out: there are filters, and
/// none of them matched.
pub open spec fn none_found(found: Seq<bool>) -> bool {
    found.len() > 0 && !found.contains(true)
}

/// Tells whether the answers to a list of filters leave a path out.
pub fn filters_leave_out(found: &Vec<bool>) -> (r: bool)
    ensures
        r == none_found(found@),
{
    found.len() > 0 && !any_found(found)
}

/// Tells whether a path is left out because none of the expressions is found
/// in it.
pub fn is_filtered_out_due_to_regex(filter_regex: &[regex::Regex], dir: &PathBuf) -> (r: bool)
    ensures
        r == none_found(matches_of(filter_regex@, path_text(dir@))),
{
    if filter_regex.len() == 0 {
        return false;
    }
    filters_leave_out(&find_all(filter_regex, dir.to_lossy().as_str()))
}

/// Tells whether a path is left out because one of the expressions is found in
/// it.
pub fn is_filtered_out_due_to_invert_regex(filter_regex: &[regex::Regex], dir: &PathBuf) -> (r:
    bool)
    ensures
        r == matches_of(filter_regex@, path_text(dir@)).contains(true),
{
    if filter_regex.len() == 0 {
        return false;
    }
    any_found(&find_all(filter_regex, dir.to_lossy().as_str()))
}

// --------------------------------------------------------------------------
// File systems
// --------------------------------------------------------------------------

/// The device of an entry, where it is known.
pub open spec fn device_of(metadata: Option<EntryMetadata>) -> Option<u64> {
    match metadata {
        Some((_, Some((_, device)), _)) => Some(device),
        _ => None,
    }
}

/// The devices that the argument paths lie on, given what each path names when
/// links are followed.
pub fn get_filesystem_devices(targets: &Vec<Option<EntryMetadata>>) -> (r: HashSet<u64>)
    ensures
        forall|device: u64| #[trigger]
            r@.contains(device) <==> exists|i: int|
                0 <= i < targets.len() && device_of(#[trigger] targets@[i]) == Some(device),
{
    let mut devices: HashSet<u64> = HashSet::new();
    let mut i: usize = 0;
    while i < targets.len()
        invariant
            i <= targets.len(),
            forall|device: u64| #[trigger]
                devices@.contains(device) <==> exists|j: int|
                    0 <= j < i && device_of(#[trigger] targets@[j]) == Some(device),
        decreases targets.len() - i,
    {
        let ghost before = devices@;
        match &targets[i] {
            Some((_, Some((_, device)), _)) => {
                devices.insert(*device);
                assert(device_of(targets@[i as int]) == Some(*device));
            },
            _ => {},
        }
        proof {
            assert forall|device: u64| #[trigger] devices@.contains(device) implies exists|j: int|
                0 <= j < i + 1 && device_of(#[trigger] targets@[j]) == Some(device) by {
                if before.contains(device) {
                    let j = choose|j: int|
                        0 <= j < i && device_of(#[trigger] targets@[j]) == Some(device);
                    assert(0 <= j < i + 1);
                } else {
                    assert(device_of(targets@[i as int]) == Some(device));
                }
            }
        }
        i += 1;
    }
    devices
}

/// What an absolute path becomes once it was resolved: where that failed, and
/// where the path is relative, it stays as it is.
pub fn canonicalize_absolute_path(path: PathBuf, resolved: Option<PathBuf>) -> (r: PathBuf)
    ensures
        r@ == (if is_absolute_path(path@) && resolved is Some {
            resolved->Some_0@
        } else {
            path@
        }),
{
    if !path.is_absolute() {
        return path;
    }
    match resolved {
        Some(canonicalized_path) => canonicalized_path,
        None => path,
    }
}

} // verus!
