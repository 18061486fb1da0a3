//! Which files and directories are shown.

use vstd::hash_map::StringHashMap;
use vstd::hash_set::StringHashSet;
use vstd::multiset::Multiset;
use vstd::prelude::*;
use vstd::utf8::encode_utf8;

use crate::accounting::tree_capped;
use crate::determinism::names_differ;
use crate::display::{get_printable_name, printable_name};
use crate::display_node::{
    display_node_views, display_order, greatest_first, lemma_display_node_view,
    lemma_display_order_total, sort_greatest_first, DisplayNode, DisplayNodeView,
};
use crate::heap::{lemma_tree_nodes, list_nodes, tree_nodes, NodeHeap};
use crate::name_key::{lemma_parts_key, name_key, parts_key};
use crate::node::{lemma_node_view, node_order, node_views, FileTime, Node, NodeView};
use crate::order::Order;
use crate::path::{
    component_text, component_views, components_of, identity_of, path_text, text_of_component,
    PathBuf, PathView, Platform,
};
use crate::selection::{
    all_below, copies, larger_first, lemma_flat_is_shallow, lemma_larger_come_first,
    lemma_lines_are_enough, lemma_options_keep_out, lemma_shown_was_walked, lines_below, no_deeper,
};
use crate::sorting::lemma_descending_of_permutation;
use crate::sums::lemma_total_not_negative;
use crate::text::{escape, escaped_text, string_views};
use crate::utils::{names_one_of, path_set_contains};
use crate::walk::{fold_size, folded_size, greatest_size, lemma_greatest_size, total_size};

verus! {

/// What is shown.
pub struct AggregateData {
    pub min_size: Option<usize>,
    pub only_dir: bool,
    pub only_file: bool,
    pub number_of_lines: usize,
    pub depth: usize,
    pub using_a_filter: bool,
    pub short_paths: bool,
}

// --------------------------------------------------------------------------
// Candidates
// --------------------------------------------------------------------------

/// A node can be shown below the one that it was found in.
pub open spec fn is_candidate(display_data: &AggregateData, node: NodeView) -> bool {
    &&& match display_data.min_size {
        Some(min_size) => node.size > min_size,
        None => !display_data.using_a_filter || node.is_file || node.size > 0,
    }
    &&& !display_data.only_dir || !node.is_file
}

/// Those of a list of nodes that can be shown.
pub open spec fn candidates(display_data: &AggregateData, nodes: Seq<NodeView>) -> Multiset<NodeView>
    decreases nodes.len(),
{
    if nodes.len() == 0 {
        Multiset::empty()
    } else {
        let before = candidates(display_data, nodes.drop_last());
        if is_candidate(display_data, nodes.last()) {
            before.insert(nodes.last())
        } else {
            before
        }
    }
}

/// What can be shown below a node, if it is not too deep.
pub open spec fn candidates_below(display_data: &AggregateData, node: NodeView) -> Multiset<NodeView> {
    if display_data.depth > node.depth {
        candidates(display_data, node.children)
    } else {
        Multiset::empty()
    }
}

/// Adds what can be shown of the children of a node, whatever its depth.
fn always_add_children<'a>(
    display_data: &AggregateData,
    file_or_folder: &'a Node,
    heap: &mut NodeHeap<'a>,
)
    ensures
        final(heap)@ == old(heap)@.add(candidates(display_data, file_or_folder@.children)),
        final(heap).nodes() < old(heap).nodes() + tree_nodes(file_or_folder@),
{
    let ghost children = file_or_folder@.children;
    let mut i: usize = 0;
    proof {
        lemma_node_view(*file_or_folder);
        assert(children.take(0) =~= Seq::empty());
        assert(old(heap)@.add(Multiset::empty()) =~= old(heap)@);
    }
    while i < file_or_folder.children.len()
        invariant
            i <= file_or_folder.children.len(),
            children == node_views(file_or_folder.children@),
            heap@ == old(heap)@.add(candidates(display_data, children.take(i as int))),
            heap.nodes() <= old(heap).nodes() + list_nodes(children.take(i as int)),
        decreases file_or_folder.children.len() - i,
    {
        let c = &file_or_folder.children[i];
        proof {
            lemma_node_view(*c);
            assert(children.take(i + 1).drop_last() =~= children.take(i as int));
            assert(children.take(i + 1).last() == c@);
            lemma_tree_nodes(c@);
        }
        let ghost before = heap@;
        let big_enough = match display_data.min_size {
            Some(min_size) => c.size > min_size as u64,
            None => !display_data.using_a_filter || c.is_file || c.size > 0,
        };
        if big_enough && (!display_data.only_dir || !c.is_file) {
            heap.push(c);
            assert(heap@ =~= old(heap)@.add(candidates(display_data, children.take(i + 1))));
        }
        i += 1;
    }
    assert(children.take(file_or_folder.children.len() as int) =~= children);
}

/// Adds what can be shown of the children of a node, if it is not too deep.
fn add_children<'a>(
    display_data: &AggregateData,
    file_or_folder: &'a Node,
    heap: &mut NodeHeap<'a>,
)
    ensures
        final(heap)@ == old(heap)@.add(candidates_below(display_data, file_or_folder@)),
        final(heap).nodes() < old(heap).nodes() + tree_nodes(file_or_folder@),
{
    proof {
        lemma_node_view(*file_or_folder);
        lemma_tree_nodes(file_or_folder@);
        assert(old(heap)@.add(Multiset::empty()) =~= old(heap)@);
    }
    if display_data.depth > file_or_folder.depth {
        always_add_children(display_data, file_or_folder, heap);
    }
}

// --------------------------------------------------------------------------
// Lines
// --------------------------------------------------------------------------

/// One of the nodes has this name.
pub open spec fn is_shown(shown: Seq<NodeView>, name: PathView) -> bool {
    exists|i: int|
        0 <= i < shown.len() && identity_of((#[trigger] shown[i]).name) == identity_of(name)
}

/// The nodes to show after one more: it takes the place of one with its name.
pub open spec fn shown_with(shown: Seq<NodeView>, node: NodeView) -> Seq<NodeView> {
    if is_shown(shown, node.name) {
        shown.map_values(
            |other: NodeView|
                if identity_of(other.name) == identity_of(node.name) {
                    node
                } else {
                    other
                },
        )
    } else {
        shown.push(node)
    }
}

/// A node takes a line: where files alone are shown, those with children do
/// not.
pub open spec fn takes_line(display_data: &AggregateData, node: NodeView) -> bool {
    !display_data.only_file || node.children.len() == 0
}

/// The nodes to show among those that were taken.
pub open spec fn shown_lines(display_data: &AggregateData, taken: Seq<NodeView>) -> Seq<NodeView>
    decreases taken.len(),
{
    if taken.len() == 0 {
        Seq::empty()
    } else {
        let before = shown_lines(display_data, taken.drop_last());
        if takes_line(display_data, taken.last()) {
            shown_with(before, taken.last())
        } else {
            before
        }
    }
}

/// What can be shown below a node that was taken, unless it is kept collapsed.
pub open spec fn opened(
    display_data: &AggregateData,
    keep_collapsed: Seq<PathBuf>,
    node: NodeView,
) -> Multiset<NodeView> {
    if names_one_of(keep_collapsed, node.name) {
        Multiset::empty()
    } else {
        candidates_below(display_data, node)
    }
}

/// What is left to take after some nodes were taken and opened.
pub open spec fn pool_after(
    display_data: &AggregateData,
    keep_collapsed: Seq<PathBuf>,
    pool: Multiset<NodeView>,
    taken: Seq<NodeView>,
) -> Multiset<NodeView>
    decreases taken.len(),
{
    if taken.len() == 0 {
        pool
    } else {
        pool_after(display_data, keep_collapsed, pool, taken.drop_last()).remove(taken.last()).add(
            opened(display_data, keep_collapsed, taken.last()),
        )
    }
}

/// A node of the pool that no other is greater than.
pub open spec fn is_greatest(pool: Multiset<NodeView>, node: NodeView) -> bool {
    pool.contains(node) && forall|other: NodeView| #[trigger]
        pool.contains(other) ==> node_order(node, other) != Order::Less
}

/// The nodes were taken one after the other, each the greatest that was left,
/// while there were lines left.
pub open spec fn is_run(
    display_data: &AggregateData,
    keep_collapsed: Seq<PathBuf>,
    pool: Multiset<NodeView>,
    taken: Seq<NodeView>,
) -> bool
    decreases taken.len(),
{
    taken.len() == 0 || {
        let before = taken.drop_last();
        &&& is_run(display_data, keep_collapsed, pool, before)
        &&& shown_lines(display_data, before).len() < display_data.number_of_lines
        &&& is_greatest(pool_after(display_data, keep_collapsed, pool, before), taken.last())
    }
}

/// No lines are left, or nothing to take.
pub open spec fn run_ends(
    display_data: &AggregateData,
    keep_collapsed: Seq<PathBuf>,
    pool: Multiset<NodeView>,
    taken: Seq<NodeView>,
) -> bool {
    ||| shown_lines(display_data, taken).len() >= display_data.number_of_lines
    ||| pool_after(display_data, keep_collapsed, pool, taken) == Multiset::<NodeView>::empty()
}

/// The nodes to show, found by name.
struct ShownNodes<'a> {
    places: StringHashMap<usize>,
    nodes: Vec<&'a Node>,
}

impl<'a> ShownNodes<'a> {
    spec fn view(&self) -> Seq<NodeView> {
        crate::heap::item_views(self.nodes@)
    }

    /// Each name stands for one node, at its place.
    spec fn well_formed(&self) -> bool {
        &&& forall|i: int|
            0 <= i < self.nodes.len() ==> {
                let key = parts_key(identity_of((#[trigger] self.nodes@[i]).name@));
                self.places@.contains_key(key) && self.places@[key] == i
            }
        &&& forall|key: Seq<char>| #[trigger]
            self.places@.contains_key(key) ==> self.places@[key] < self.nodes.len() && key
                == parts_key(identity_of(self.nodes@[self.places@[key] as int].name@))
    }

    proof fn lemma_shown(&self, name: PathView)
        requires
            self.well_formed(),
        ensures
            is_shown(self.view(), name) <==> self.places@.contains_key(
                parts_key(identity_of(name)),
            ),
    {
        let key = parts_key(identity_of(name));
        if is_shown(self.view(), name) {
            let i = choose|i: int|
                0 <= i < self.view().len() && identity_of((#[trigger] self.view()[i]).name)
                    == identity_of(name);
            lemma_node_view(*self.nodes@[i]);
            assert(self.view()[i] == self.nodes@[i]@);
        }
        if self.places@.contains_key(key) {
            let i = self.places@[key] as int;
            lemma_node_view(*self.nodes@[i]);
            assert(self.view()[i] == self.nodes@[i]@);
            lemma_parts_key(identity_of(self.nodes@[i].name@), identity_of(name));
        }
    }

    fn new() -> (r: Self)
        ensures
            r.well_formed(),
            r.view() == Seq::<NodeView>::empty(),
    {
        let r = ShownNodes { places: StringHashMap::new(), nodes: Vec::new() };
        assert(r.view() =~= Seq::empty());
        r
    }

    fn contains(&self, name: &PathBuf) -> (r: bool)
        requires
            self.well_formed(),
        ensures
            r == is_shown(self.view(), name@),
    {
        proof {
            self.lemma_shown(name@);
        }
        self.places.contains_key(name_key(name).as_str())
    }

    fn insert(&mut self, node: &'a Node)
        requires
            old(self).well_formed(),
        ensures
            final(self).well_formed(),
            final(self).view() == shown_with(old(self).view(), node@),
    {
        let ghost before = *self;
        let key = name_key(&node.name);
        proof {
            lemma_node_view(*node);
            before.lemma_shown(node.name@);
        }
        let place: Option<usize> = match self.places.get(key.as_str()) {
            Some(place) => Some(*place),
            None => None,
        };
        match place {
            Some(place) => {
                self.nodes[place] = node;
                proof {
                    assert forall|i: int| 0 <= i < self.nodes.len() implies {
                        let k = parts_key(identity_of((#[trigger] self.nodes@[i]).name@));
                        self.places@.contains_key(k) && self.places@[k] == i
                    } by {
                        if i != place {
                            assert(self.nodes@[i] == before.nodes@[i]);
                        }
                    }
                    let goal = shown_with(before.view(), node@);
                    assert forall|i: int| 0 <= i < goal.len() implies self.view()[i] == goal[i] by {
                        lemma_node_view(*before.nodes@[i]);
                        assert(before.view()[i] == before.nodes@[i]@);
                        assert(self.view()[i] == self.nodes@[i]@);
                        if identity_of(before.nodes@[i].name@) == identity_of(node.name@) {
                            assert(before.places@[key@] == i);
                        } else if i == place {
                            lemma_parts_key(
                                identity_of(before.nodes@[i].name@),
                                identity_of(node.name@),
                            );
                        }
                    }
                    assert(self.view() =~= goal);
                }
            },
            None => {
                let n = self.nodes.len();
                self.nodes.push(node);
                self.places.insert(key, n);
                proof {
                    assert forall|i: int| 0 <= i < self.nodes.len() implies {
                        let k = parts_key(identity_of((#[trigger] self.nodes@[i]).name@));
                        self.places@.contains_key(k) && self.places@[k] == i
                    } by {
                        if i < n {
                            assert(self.nodes@[i] == before.nodes@[i]);
                        }
                    }
                    assert forall|k: Seq<char>| #[trigger]
                        self.places@.contains_key(k) implies self.places@[k] < self.nodes.len() && k
                        == parts_key(identity_of(self.nodes@[self.places@[k] as int].name@)) by {
                        if k != key@ {
                            assert(before.places@.contains_key(k));
                        }
                    }
                    assert(self.view() =~= before.view().push(node@));
                }
            },
        }
    }
}

// --------------------------------------------------------------------------
// The shown tree
// --------------------------------------------------------------------------

/// A node shown with nothing below it.
pub open spec fn shown_leaf(node: NodeView) -> DisplayNodeView {
    DisplayNodeView {
        size: node.size,
        name: node.name,
        children: Seq::empty(),
        is_file: node.is_file,
    }
}

/// A node shown with these nodes below it, the greatest first.
pub open spec fn shown_node(node: NodeView, children: Seq<DisplayNodeView>) -> DisplayNodeView {
    DisplayNodeView { children: greatest_first(children), ..shown_leaf(node) }
}

/// A tree of which only nodes with certain names are shown below its root.
pub open spec fn rebuilt(shown: Seq<NodeView>, node: NodeView) -> DisplayNodeView
    decreases node, node.children.len() + 1,
{
    shown_node(node, rebuilt_children(shown, node, node.children.len() as int))
}

/// The trees of those of the first `n` children of a node that are shown.
pub open spec fn rebuilt_children(shown: Seq<NodeView>, node: NodeView, n: int) -> Seq<
    DisplayNodeView,
>
    decreases node, n,
{
    if n <= 0 || n > node.children.len() {
        Seq::empty()
    } else {
        let before = rebuilt_children(shown, node, n - 1);
        if is_shown(shown, node.children[n - 1].name) {
            before.push(rebuilt(shown, node.children[n - 1]))
        } else {
            before
        }
    }
}

/// A node with everything that is shown directly below it.
pub open spec fn flat(shown: Seq<NodeView>, node: NodeView) -> DisplayNodeView {
    shown_node(node, shown.map_values(|n: NodeView| shown_leaf(n)))
}

/// The tree that is shown for the nodes that were taken.
pub open spec fn shown_tree(
    display_data: &AggregateData,
    root: NodeView,
    taken: Seq<NodeView>,
) -> DisplayNodeView {
    let shown = shown_lines(display_data, taken);
    if display_data.only_file {
        flat(shown, root)
    } else {
        rebuilt(shown, root)
    }
}

/// The tree shows below `root` what was taken from the pool until lines or
/// nodes ran out. Where several nodes are alike, any of them may be taken
/// first.
pub open spec fn shows(
    display_data: &AggregateData,
    keep_collapsed: Seq<PathBuf>,
    pool: Multiset<NodeView>,
    root: NodeView,
    tree: DisplayNodeView,
) -> bool {
    exists|taken: Seq<NodeView>|
        {
            &&& #[trigger] is_run(display_data, keep_collapsed, pool, taken)
            &&& run_ends(display_data, keep_collapsed, pool, taken)
            &&& tree == shown_tree(display_data, root, taken)
        }
}

fn build_display_node(new_children: Vec<DisplayNode>, current: &Node) -> (r: DisplayNode)
    ensures
        r@ == shown_node(current@, display_node_views(new_children@)),
{
    let children = sort_greatest_first(new_children);
    let r = DisplayNode {
        name: current.name.clone(),
        size: current.size,
        children,
        is_file: current.is_file,
    };
    proof {
        lemma_node_view(*current);
        lemma_display_node_view(r);
    }
    r
}

fn recursive_rebuilder(allowed_nodes: &ShownNodes<'_>, current: &Node) -> (r: DisplayNode)
    requires
        allowed_nodes.well_formed(),
    ensures
        r@ == rebuilt(allowed_nodes.view(), current@),
    decreases current,
{
    let ghost shown = allowed_nodes.view();
    let mut new_children: Vec<DisplayNode> = Vec::new();
    let mut i: usize = 0;
    proof {
        lemma_node_view(*current);
        assert(display_node_views(new_children@) =~= Seq::empty());
    }
    while i < current.children.len()
        invariant
            i <= current.children.len(),
            allowed_nodes.well_formed(),
            shown == allowed_nodes.view(),
            current@.children == node_views(current.children@),
            display_node_views(new_children@) == rebuilt_children(shown, current@, i as int),
        decreases current.children.len() - i,
    {
        let c = &current.children[i];
        proof {
            lemma_node_view(*c);
            assert(current@.children[i as int] == c@);
        }
        if allowed_nodes.contains(&c.name) {
            let ghost before = new_children@;
            let child = recursive_rebuilder(allowed_nodes, c);
            new_children.push(child);
            assert(display_node_views(new_children@) =~= display_node_views(before).push(child@));
        }
        i += 1;
    }
    build_display_node(new_children, current)
}

fn flat_rebuilder(allowed_nodes: &ShownNodes<'_>, current: &Node) -> (r: DisplayNode)
    ensures
        r@ == flat(allowed_nodes.view(), current@),
{
    let ghost shown = allowed_nodes.view();
    let mut new_children: Vec<DisplayNode> = Vec::with_capacity(allowed_nodes.nodes.len());
    let mut i: usize = 0;
    while i < allowed_nodes.nodes.len()
        invariant
            i <= allowed_nodes.nodes.len(),
            shown == allowed_nodes.view(),
            new_children.len() == i,
            forall|j: int|
                0 <= j < i ==> (#[trigger] new_children@[j])@ == shown_leaf(shown[j]),
        decreases allowed_nodes.nodes.len() - i,
    {
        let v = allowed_nodes.nodes[i];
        let leaf = DisplayNode {
            name: v.name.clone(),
            size: v.size,
            children: Vec::new(),
            is_file: v.is_file,
        };
        proof {
            lemma_node_view(*v);
            lemma_display_node_view(leaf);
            assert(leaf@.children =~= Seq::empty());
            assert(shown[i as int] == v@);
        }
        new_children.push(leaf);
        i += 1;
    }
    proof {
        assert(display_node_views(new_children@) =~= shown.map_values(
            |n: NodeView| shown_leaf(n),
        ));
    }
    build_display_node(new_children, current)
}

/// Takes the greatest nodes of the heap until the lines are used up, opening
/// each that is taken, and builds the tree that shows them below `root`.
pub fn fill_remaining_lines<'a>(
    heap: NodeHeap<'a>,
    root: &'a Node,
    display_data: &AggregateData,
    keep_collapsed: &Vec<PathBuf>,
) -> (r: DisplayNode)
    ensures
        shows(display_data, keep_collapsed@, heap@, root@, r@),
{
    let ghost pool = heap@;
    let ghost keep = keep_collapsed@;
    let mut heap = heap;
    let mut allowed_nodes = ShownNodes::new();
    let ghost mut taken: Seq<NodeView> = Seq::empty();
    while allowed_nodes.nodes.len() < display_data.number_of_lines
        invariant
            keep == keep_collapsed@,
            allowed_nodes.well_formed(),
            allowed_nodes.view() == shown_lines(display_data, taken),
            is_run(display_data, keep, pool, taken),
            heap@ == pool_after(display_data, keep, pool, taken),
        ensures
            allowed_nodes.well_formed(),
            allowed_nodes.view() == shown_lines(display_data, taken),
            is_run(display_data, keep, pool, taken),
            run_ends(display_data, keep, pool, taken),
        decreases heap.nodes(),
    {
        proof {
            heap.lemma_nodes_not_negative();
            assert(allowed_nodes.view().len() == allowed_nodes.nodes.len());
        }
        match heap.pop() {
            None => {
                break;
            },
            Some(line) => {
                let ghost before = taken;
                proof {
                    taken = taken.push(line@);
                    assert(taken.drop_last() =~= before);
                    assert(taken.last() == line@);
                    lemma_node_view(*line);
                    lemma_tree_nodes(line@);
                    heap.lemma_nodes_not_negative();
                }
                if !display_data.only_file || line.children.len() == 0 {
                    allowed_nodes.insert(line);
                }
                let ghost left = heap@;
                if !path_set_contains(keep_collapsed, &line.name) {
                    add_children(display_data, line, &mut heap);
                } else {
                    assert(left.add(Multiset::empty()) =~= left);
                }
                proof {
                    heap.lemma_nodes_not_negative();
                }
            },
        }
        assert(allowed_nodes.view().len() == allowed_nodes.nodes.len());
    }
    if display_data.only_file {
        flat_rebuilder(&allowed_nodes, root)
    } else {
        recursive_rebuilder(&allowed_nodes, root)
    }
}

// --------------------------------------------------------------------------
// Names of several roots
// --------------------------------------------------------------------------

/// Two of the nodes are shown by the same name.
pub open spec fn has_duplicate_names(nodes: Seq<NodeView>) -> bool {
    exists|i: int, j: int|
        0 <= i < j < nodes.len() && printable_name((#[trigger] nodes[i]).name, true)
            == printable_name((#[trigger] nodes[j]).name, true)
}

/// Tells whether a text occurs twice in a list.
pub fn has_duplicates(names: &Vec<String>) -> (r: bool)
    ensures
        r == !string_views(names@).no_duplicates(),
{
    let ghost views = string_views(names@);
    let mut stored = StringHashSet::new();
    let mut i: usize = 0;
    while i < names.len()
        invariant
            i <= names.len(),
            views == string_views(names@),
            forall|name: Seq<char>| #[trigger]
                stored@.contains(name) <==> views.take(i as int).contains(name),
            views.take(i as int).no_duplicates(),
        decreases names.len() - i,
    {
        let name = names[i].clone();
        let ghost before = stored@;
        let ghost prefix = views.take(i as int);
        assert(views[i as int] == name@);
        if !stored.insert(name) {
            proof {
                assert(prefix.contains(views[i as int]));
                let k = choose|k: int| 0 <= k < prefix.len() && prefix[k] == views[i as int];
                assert(views[k] == views[i as int]);
            }
            return true;
        }
        proof {
            let now = views.take(i + 1);
            assert(now =~= prefix.push(views[i as int]));
            assert(!prefix.contains(views[i as int]));
            assert forall|other: Seq<char>| #[trigger] stored@.contains(other) implies now.contains(
                other,
            ) by {
                if other == views[i as int] {
                    assert(now[i as int] == other);
                } else {
                    assert(before.contains(other));
                    let k = choose|k: int| 0 <= k < prefix.len() && prefix[k] == other;
                    assert(now[k] == other);
                }
            }
            assert forall|other: Seq<char>| now.contains(other) implies #[trigger] stored@.contains(
                other,
            ) by {
                let k = choose|k: int| 0 <= k < now.len() && now[k] == other;
                if k < i {
                    assert(prefix[k] == other);
                    assert(before.contains(other));
                }
            }
            assert forall|k: int, l: int|
                0 <= k < now.len() && 0 <= l < now.len() && k != l implies now[k] != now[l] by {
                if k < i && l < i {
                    assert(prefix[k] == now[k] && prefix[l] == now[l]);
                } else if k < i {
                    assert(prefix.contains(prefix[k]));
                } else {
                    assert(prefix.contains(prefix[l]));
                }
            }
        }
        i += 1;
    }
    assert(views.take(names.len() as int) =~= views);
    false
}

/// Tells whether two of the nodes are shown by the same name.
pub fn names_have_dup(top_level_nodes: &Vec<Node>) -> (r: bool)
    ensures
        r == has_duplicate_names(node_views(top_level_nodes@)),
{
    let ghost views = node_views(top_level_nodes@);
    let mut names: Vec<String> = Vec::with_capacity(top_level_nodes.len());
    let mut i: usize = 0;
    while i < top_level_nodes.len()
        invariant
            i <= top_level_nodes.len(),
            views == node_views(top_level_nodes@),
            names.len() == i,
            forall|k: int|
                0 <= k < i ==> (#[trigger] names@[k])@ == printable_name(views[k].name, true),
        decreases top_level_nodes.len() - i,
    {
        proof {
            lemma_node_view(top_level_nodes@[i as int]);
            assert(views[i as int] == top_level_nodes@[i as int]@);
        }
        names.push(get_printable_name(&top_level_nodes[i].name, true));
        i += 1;
    }
    proof {
        let texts = string_views(names@);
        if has_duplicate_names(views) {
            let (k, l) = choose|k: int, l: int|
                0 <= k < l < views.len() && printable_name((#[trigger] views[k]).name, true)
                    == printable_name((#[trigger] views[l]).name, true);
            assert(names@[k]@ == names@[l]@);
            assert(texts[k] == texts[l]);
        }
        if !texts.no_duplicates() {
            let (k, l) = choose|k: int, l: int|
                0 <= k < texts.len() && 0 <= l < texts.len() && k != l && texts[k] == texts[l];
            assert(names@[k]@ == names@[l]@);
            let (a, b) = if k < l {
                (k, l)
            } else {
                (l, k)
            };
            assert(printable_name(views[a].name, true) == printable_name(views[b].name, true));
        }
    }
    has_duplicates(&names)
}

/// A path whose text is followed by the name of one of its components in
/// brackets: the one `up` places before the last, if there is one.
pub open spec fn with_ancestor(name: PathView, up: int) -> PathView {
    let parts = components_of(name);
    if up < parts.len() {
        PathView {
            platform: name.platform,
            text: (encode_utf8(path_text(name)).push(0x28) + encode_utf8(
                escaped_text(component_text(name.platform, parts[parts.len() - 1 - up])),
            )).push(0x29),
        }
    } else {
        name
    }
}

/// The nodes with an ancestor added to each name.
pub open spec fn with_ancestors(nodes: Seq<NodeView>, up: int) -> Seq<NodeView> {
    nodes.map_values(|node: NodeView| NodeView { name: with_ancestor(node.name, up), ..node })
}

/// How often an ancestor is added to names.
pub const MAX_ANCESTORS: usize = 10;

/// The nodes with ancestors added to their names, one level further up each
/// time, until no two are shown by the same name; the next one to add is `up`
/// places before the last component.
pub open spec fn disambiguated(nodes: Seq<NodeView>, up: int) -> Seq<NodeView>
    decreases MAX_ANCESTORS + 1 - up,
{
    if up <= MAX_ANCESTORS && has_duplicate_names(nodes) {
        disambiguated(with_ancestors(nodes, up), up + 1)
    } else {
        nodes
    }
}

fn add_ancestor(name: &PathBuf, up: usize) -> (r: PathBuf)
    ensures
        r@ == with_ancestor(name@, up as int),
{
    let cs = name.components();
    if up >= cs.len() {
        return name.clone();
    }
    let place = cs.len() - 1 - up;
    assert(component_views(cs@)[place as int] == cs@[place as int]@);
    let parent = escape(text_of_component(name.platform(), &cs[place]).as_slice());
    PathBuf::new(name.platform(), in_brackets(name.to_lossy().as_str(), parent.as_str()))
}

/// The bytes of a name followed by those of a remark in brackets.
pub fn in_brackets(name: &str, remark: &str) -> (r: Vec<u8>)
    ensures
        r@ == (encode_utf8(name@).push(0x28) + encode_utf8(remark@)).push(0x29),
{
    let mut text = vstd::slice::slice_to_vec(name.as_bytes());
    text.push(0x28);
    let mut ending = vstd::slice::slice_to_vec(remark.as_bytes());
    text.append(&mut ending);
    text.push(0x29);
    text
}

/// Adds ancestors to the names of roots that are shown by the same short name.
pub fn handle_duplicate_top_level_names(
    top_level_nodes: Vec<Node>,
    short_paths: bool,
) -> (r: Vec<Node>)
    ensures
        node_views(r@) == (if short_paths {
            disambiguated(node_views(top_level_nodes@), 1)
        } else {
            node_views(top_level_nodes@)
        }),
{
    let ghost goal = disambiguated(node_views(top_level_nodes@), 1);
    let mut nodes = top_level_nodes;
    if short_paths {
        let mut up: usize = 1;
        while up <= MAX_ANCESTORS && names_have_dup(&nodes)
            invariant
                1 <= up <= MAX_ANCESTORS + 1,
                disambiguated(node_views(nodes@), up as int) == goal,
            decreases MAX_ANCESTORS + 1 - up,
        {
            let ghost before = nodes@;
            let mut i: usize = 0;
            while i < nodes.len()
                invariant
                    i <= nodes.len(),
                    nodes.len() == before.len(),
                    forall|k: int|
                        0 <= k < i ==> (#[trigger] nodes@[k])@ == (NodeView {
                            name: with_ancestor(before[k]@.name, up as int),
                            ..before[k]@
                        }),
                    forall|k: int| i <= k < nodes.len() ==> #[trigger] nodes@[k] == before[k],
                decreases nodes.len() - i,
            {
                proof {
                    lemma_node_view(before[i as int]);
                }
                let name = add_ancestor(&nodes[i].name, up);
                nodes[i].name = name;
                proof {
                    lemma_node_view(nodes@[i as int]);
                }
                i += 1;
            }
            assert(node_views(nodes@) =~= with_ancestors(node_views(before), up as int));
            up += 1;
        }
    }
    nodes
}

// --------------------------------------------------------------------------
// The greatest nodes
// --------------------------------------------------------------------------

/// The name of the node that stands for several roots: `(total)`.
pub open spec fn total_name(platform: Platform) -> PathView {
    PathView { platform, text: seq![0x28u8, 0x74, 0x6f, 0x74, 0x61, 0x6c, 0x29] }
}

/// The node that stands for several roots.
pub open spec fn total_node(platform: Platform, size: int, children: Seq<NodeView>) -> NodeView {
    NodeView {
        name: total_name(platform),
        size: size as u64,
        children,
        inode_device: None,
        depth: 0,
        is_file: false,
    }
}

/// Builds the node that stands for several roots.
fn total_node_builder(platform: Platform, size: u64, children: Vec<Node>) -> (r: Node)
    ensures
        r@ == total_node(platform, size as int, node_views(children@)),
{
    let mut text: Vec<u8> = Vec::with_capacity(7);
    text.push(0x28);
    text.push(0x74);
    text.push(0x6f);
    text.push(0x74);
    text.push(0x61);
    text.push(0x6c);
    text.push(0x29);
    assert(text@ =~= total_name(platform).text);
    let r = Node {
        name: PathBuf::new(platform, text),
        size,
        children,
        inode_device: None,
        depth: 0,
        is_file: false,
    };
    proof {
        lemma_node_view(r);
    }
    r
}

/// The platform of the names of nodes.
pub open spec fn platform_of(nodes: Seq<NodeView>) -> Platform {
    if nodes.len() > 0 {
        nodes[0].name.platform
    } else {
        Platform::Unix
    }
}

/// The tree that stands for the finished trees: one alone stands for itself,
/// several are put below a node that measures as much as they do together.
pub open spec fn overall_root(
    display_data: &AggregateData,
    by_filetime: Option<FileTime>,
    nodes: Seq<NodeView>,
) -> NodeView {
    if nodes.len() == 1 {
        nodes[0]
    } else {
        total_node(
            platform_of(nodes),
            folded_size(by_filetime, 0, nodes),
            if display_data.short_paths {
                disambiguated(nodes, 1)
            } else {
                nodes
            },
        )
    }
}

/// What can be shown before anything was taken. Several roots are shown even
/// where nothing below them is.
pub open spec fn first_pool(display_data: &AggregateData, root: NodeView, roots: int) -> Multiset<
    NodeView,
> {
    if roots == 1 {
        candidates_below(display_data, root)
    } else {
        candidates(display_data, root.children)
    }
}

/// Picks the greatest nodes of the finished trees, as many as there are lines,
/// and builds the tree that shows them.
pub fn get_biggest(
    top_level_nodes: Vec<Node>,
    display_data: &AggregateData,
    by_filetime: Option<&FileTime>,
    keep_collapsed: &Vec<PathBuf>,
) -> (r: DisplayNode)
    requires
        by_filetime is None ==> total_size(node_views(top_level_nodes@)) <= u64::MAX,
    ensures
        ({
            let nodes = node_views(top_level_nodes@);
            let time = match by_filetime {
                Some(time) => Some(*time),
                None => None,
            };
            let root = overall_root(display_data, time, nodes);
            let pool = first_pool(display_data, root, nodes.len() as int);
            shows(display_data, keep_collapsed@, pool, root, r@)
        }),
        ({
            let nodes = node_views(top_level_nodes@);
            // one tree stands for itself, several stand below their total
            if nodes.len() == 1 {
                copies(r@, nodes[0])
            } else {
                &&& r@.name.text == seq![0x28u8, 0x74, 0x6f, 0x74, 0x61, 0x6c, 0x29]
                &&& !r@.is_file
                &&& by_filetime is None ==> r@.size == total_size(nodes)
                &&& by_filetime is Some ==> forall|i: int|
                    0 <= i < nodes.len() ==> (#[trigger] nodes[i]).size <= r@.size
                &&& by_filetime is Some ==> r@.size == 0 || exists|i: int|
                    0 <= i < nodes.len() && (#[trigger] nodes[i]).size == r@.size
            }
        }),
        ({
            let nodes = node_views(top_level_nodes@);
            let below = if nodes.len() == 1 {
                nodes[0].children
            } else if display_data.short_paths {
                disambiguated(nodes, 1)
            } else {
                nodes
            };
            display_data.only_file || names_differ(below) ==> {
                &&& display_data.min_size matches Some(m) ==> all_below(
                    r@,
                    |d: DisplayNodeView| d.size > m,
                )
                &&& display_data.only_dir ==> all_below(r@, |d: DisplayNodeView| !d.is_file)
                &&& display_data.using_a_filter && display_data.min_size is None ==> all_below(
                    r@,
                    |d: DisplayNodeView| d.is_file || d.size > 0,
                )
                &&& lines_below(r@) <= display_data.number_of_lines
            }
        }),
        larger_first(r@),
        display_data.only_file ==> no_deeper(r@, 1),
{
    let ghost nodes = node_views(top_level_nodes@);
    let count = top_level_nodes.len();
    let platform = if count > 0 {
        proof {
            lemma_node_view(top_level_nodes@[0]);
        }
        top_level_nodes[0].name.platform()
    } else {
        Platform::Unix
    };
    let time: Option<FileTime> = match by_filetime {
        Some(time) => Some(*time),
        None => None,
    };
    let ghost root_view = overall_root(display_data, time, nodes);
    let mut heap = NodeHeap::new();
    let mut rest = top_level_nodes;
    let mut only: Option<Node> = None;
    if count == 1 {
        only = rest.pop();
    }
    let root: Node = match only {
        Some(node) => node,
        None => {
            let size = fold_size(&time, 0, &rest);
            let renamed = handle_duplicate_top_level_names(rest, display_data.short_paths);
            total_node_builder(platform, size, renamed)
        },
    };
    proof {
        assert(nodes.len() == count);
        assert(root@ == root_view) by {
            if count == 1 {
                assert(root@ == nodes[0]);
            } else if count == 0 {
                assert(disambiguated(nodes, 1) == nodes);
            }
        }
        lemma_empty_add(candidates_below(display_data, root_view));
        lemma_empty_add(candidates(display_data, root_view.children));
    }
    if count == 1 {
        add_children(display_data, &root, &mut heap);
    } else {
        always_add_children(display_data, &root, &mut heap);
    }
    let shown = fill_remaining_lines(heap, &root, display_data, keep_collapsed);
    proof {
        let roots = nodes.len() as int;
        let keep = keep_collapsed@;
        lemma_shown_was_walked(display_data, keep, root_view, roots, shown@);
        lemma_larger_come_first(display_data, keep, root_view, roots, shown@);
        if display_data.only_file || names_differ(root_view.children) {
            lemma_options_keep_out(display_data, keep, root_view, roots, shown@);
            lemma_lines_are_enough(display_data, keep, root_view, roots, shown@);
        }
        if display_data.only_file {
            lemma_flat_is_shallow(shown@);
        }
        if by_filetime is Some {
            lemma_greatest_size(0, nodes);
            let most = greatest_size(0, nodes);
            assert forall|i: int| 0 <= i < nodes.len() implies (#[trigger] nodes[i]).size
                <= most by {
                assert(nodes.contains(nodes[i]));
            }
            if most > 0 {
                let n = choose|n: NodeView| #[trigger] nodes.contains(n) && n.size == most;
                let i = choose|i: int| 0 <= i < nodes.len() && nodes[i] == n;
                assert(nodes[i].size == most);
            }
        } else {
            lemma_total_not_negative(nodes, |n: NodeView| n.size as int);
        }
    }
    shown
}

proof fn lemma_empty_add(m: Multiset<NodeView>)
    ensures
        Multiset::<NodeView>::empty().add(m) == m,
{
    assert(Multiset::<NodeView>::empty().add(m) =~= m);
}

// --------------------------------------------------------------------------
// What holds of the shown tree
// --------------------------------------------------------------------------

/// No more nodes are shown than there are lines.
pub proof fn lemma_lines_kept(
    display_data: &AggregateData,
    keep_collapsed: Seq<PathBuf>,
    pool: Multiset<NodeView>,
    taken: Seq<NodeView>,
)
    requires
        is_run(display_data, keep_collapsed, pool, taken),
    ensures
        shown_lines(display_data, taken).len() <= display_data.number_of_lines,
    decreases taken.len(),
{
    if taken.len() > 0 {
        lemma_lines_kept(display_data, keep_collapsed, pool, taken.drop_last());
    }
}

/// No two nodes that are shown have the same name.
pub proof fn lemma_shown_names_differ(display_data: &AggregateData, taken: Seq<NodeView>)
    ensures
        forall|i: int, j: int|
            0 <= i < j < shown_lines(display_data, taken).len() ==> identity_of(
                (#[trigger] shown_lines(display_data, taken)[i]).name,
            ) != identity_of((#[trigger] shown_lines(display_data, taken)[j]).name),
    decreases taken.len(),
{
    if taken.len() > 0 {
        let before = shown_lines(display_data, taken.drop_last());
        let now = shown_lines(display_data, taken);
        lemma_shown_names_differ(display_data, taken.drop_last());
        assert forall|i: int, j: int| 0 <= i < j < now.len() implies identity_of(
            (#[trigger] now[i]).name,
        ) != identity_of((#[trigger] now[j]).name) by {
            if takes_line(display_data, taken.last()) && !is_shown(before, taken.last().name) {
                assert(now == before.push(taken.last()));
                if j == before.len() {
                    assert(now[i] == before[i]);
                } else {
                    assert(now[i] == before[i] && now[j] == before[j]);
                }
            } else {
                assert(identity_of(now[i].name) == identity_of(before[i].name));
                assert(identity_of(now[j].name) == identity_of(before[j].name));
            }
        }
    }
}

/// Different nodes of the pool are never alike.
pub open spec fn no_ties(pool: Multiset<NodeView>) -> bool {
    forall|a: NodeView, b: NodeView|
        #![trigger pool.contains(a), pool.contains(b)]
        pool.contains(a) && pool.contains(b) && node_order(a, b) == Order::Same ==> a == b
}

/// What is shown is determined: where different nodes are never alike, there is
/// one way to take them.
pub proof fn lemma_run_is_determined(
    display_data: &AggregateData,
    keep_collapsed: Seq<PathBuf>,
    pool: Multiset<NodeView>,
    taken: Seq<NodeView>,
    other: Seq<NodeView>,
)
    requires
        is_run(display_data, keep_collapsed, pool, taken),
        run_ends(display_data, keep_collapsed, pool, taken),
        is_run(display_data, keep_collapsed, pool, other),
        run_ends(display_data, keep_collapsed, pool, other),
        forall|k: int|
            0 <= k < taken.len() ==> no_ties(
                #[trigger] pool_after(display_data, keep_collapsed, pool, taken.take(k)),
            ),
    ensures
        taken == other,
{
    let n = if taken.len() < other.len() {
        taken.len() as int
    } else {
        other.len() as int
    };
    lemma_runs_agree(display_data, keep_collapsed, pool, taken, other, n);
    if taken.len() < other.len() {
        lemma_run_prefix(display_data, keep_collapsed, pool, other, n + 1);
        assert(other.take(n + 1).drop_last() =~= other.take(n));
        assert(taken.take(n) =~= taken);
    } else if other.len() < taken.len() {
        lemma_run_prefix(display_data, keep_collapsed, pool, taken, n + 1);
        assert(taken.take(n + 1).drop_last() =~= taken.take(n));
        assert(other.take(n) =~= other);
    } else {
        assert(taken.take(n) =~= taken);
        assert(other.take(n) =~= other);
    }
}

pub(crate) proof fn lemma_run_prefix(
    display_data: &AggregateData,
    keep_collapsed: Seq<PathBuf>,
    pool: Multiset<NodeView>,
    taken: Seq<NodeView>,
    n: int,
)
    requires
        is_run(display_data, keep_collapsed, pool, taken),
        0 <= n <= taken.len(),
    ensures
        is_run(display_data, keep_collapsed, pool, taken.take(n)),
    decreases taken.len(),
{
    if n == taken.len() {
        assert(taken.take(n) =~= taken);
    } else {
        lemma_run_prefix(display_data, keep_collapsed, pool, taken.drop_last(), n);
        assert(taken.drop_last().take(n) =~= taken.take(n));
    }
}

proof fn lemma_runs_agree(
    display_data: &AggregateData,
    keep_collapsed: Seq<PathBuf>,
    pool: Multiset<NodeView>,
    taken: Seq<NodeView>,
    other: Seq<NodeView>,
    n: int,
)
    requires
        is_run(display_data, keep_collapsed, pool, taken),
        is_run(display_data, keep_collapsed, pool, other),
        0 <= n <= taken.len(),
        n <= other.len(),
        forall|k: int|
            0 <= k < taken.len() ==> no_ties(
                #[trigger] pool_after(display_data, keep_collapsed, pool, taken.take(k)),
            ),
    ensures
        taken.take(n) == other.take(n),
    decreases n,
{
    if n == 0 {
        assert(taken.take(0) =~= other.take(0));
    } else {
        lemma_runs_agree(display_data, keep_collapsed, pool, taken, other, n - 1);
        lemma_run_prefix(display_data, keep_collapsed, pool, taken, n);
        lemma_run_prefix(display_data, keep_collapsed, pool, other, n);
        let left = pool_after(display_data, keep_collapsed, pool, taken.take(n - 1));
        assert(taken.take(n).drop_last() =~= taken.take(n - 1));
        assert(other.take(n).drop_last() =~= other.take(n - 1));
        let (a, b) = (taken[n - 1], other[n - 1]);
        assert(is_greatest(left, a) && is_greatest(left, b));
        crate::node::lemma_node_order_total(a, b, a);
        assert(no_ties(left));
        assert(a == b);
        assert(taken.take(n) =~= taken.take(n - 1).push(a));
        assert(other.take(n) =~= other.take(n - 1).push(b));
    }
}

/// What can be shown of a list of nodes does not depend on their order.
pub proof fn lemma_candidates_of_permutation(
    display_data: &AggregateData,
    s: Seq<NodeView>,
    t: Seq<NodeView>,
)
    requires
        s.to_multiset() == t.to_multiset(),
    ensures
        candidates(display_data, s) == candidates(display_data, t),
{
    lemma_candidates(display_data, s);
    lemma_candidates(display_data, t);
    assert(candidates(display_data, s) =~= candidates(display_data, t));
}

pub(crate) proof fn lemma_candidates(display_data: &AggregateData, s: Seq<NodeView>)
    ensures
        forall|n: NodeView| #[trigger]
            candidates(display_data, s).count(n) == (if is_candidate(display_data, n) {
                s.to_multiset().count(n)
            } else {
                0
            }),
    decreases s.len(),
{
    broadcast use vstd::seq_lib::group_to_multiset_ensures;

    if s.len() > 0 {
        lemma_candidates(display_data, s.drop_last());
        let (before, x) = (s.drop_last(), s.last());
        assert(before.push(x) =~= s);
        before.to_multiset_ensures();
        assert(s.to_multiset() =~= before.to_multiset().insert(x));
        assert forall|n: NodeView| #[trigger]
            candidates(display_data, s).count(n) == (if is_candidate(display_data, n) {
                s.to_multiset().count(n)
            } else {
                0
            }) by {
            assert(candidates(display_data, before).count(n) == (if is_candidate(
                display_data,
                n,
            ) {
                before.to_multiset().count(n)
            } else {
                0
            }));
        }
    } else {
        s.to_multiset_ensures();
        assert forall|n: NodeView| s.to_multiset().count(n) == 0 by {
            assert(!s.contains(n));
        }
    }
}

/// The trees of those of a list of nodes that are shown.
pub(crate) open spec fn kept_trees(shown: Seq<NodeView>, nodes: Seq<NodeView>) -> Seq<DisplayNodeView>
    decreases nodes.len(),
{
    if nodes.len() == 0 {
        Seq::empty()
    } else {
        let before = kept_trees(shown, nodes.drop_last());
        if is_shown(shown, nodes.last().name) {
            before.push(rebuilt(shown, nodes.last()))
        } else {
            before
        }
    }
}

pub(crate) proof fn lemma_kept_trees(shown: Seq<NodeView>, node: NodeView, n: int)
    requires
        0 <= n <= node.children.len(),
    ensures
        rebuilt_children(shown, node, n) == kept_trees(shown, node.children.take(n)),
    decreases n,
{
    if n > 0 {
        lemma_kept_trees(shown, node, n - 1);
        assert(node.children.take(n).drop_last() =~= node.children.take(n - 1));
    }
}

proof fn lemma_kept_trees_remove(shown: Seq<NodeView>, nodes: Seq<NodeView>, i: int)
    requires
        0 <= i < nodes.len(),
    ensures
        kept_trees(shown, nodes).to_multiset() == (if is_shown(shown, nodes[i].name) {
            kept_trees(shown, nodes.remove(i)).to_multiset().insert(rebuilt(shown, nodes[i]))
        } else {
            kept_trees(shown, nodes.remove(i)).to_multiset()
        }),
    decreases nodes.len(),
{
    broadcast use vstd::seq_lib::group_to_multiset_ensures;

    if i == nodes.len() - 1 {
        assert(nodes.remove(i) =~= nodes.drop_last());
    } else {
        lemma_kept_trees_remove(shown, nodes.drop_last(), i);
        assert(nodes.remove(i).drop_last() =~= nodes.drop_last().remove(i));
        let rest = kept_trees(shown, nodes.drop_last().remove(i)).to_multiset();
        let (x, y) = (rebuilt(shown, nodes[i]), rebuilt(shown, nodes.last()));
        assert(rest.insert(x).insert(y) =~= rest.insert(y).insert(x));
    }
}

proof fn lemma_kept_trees_of_permutation(
    shown: Seq<NodeView>,
    s: Seq<NodeView>,
    t: Seq<NodeView>,
)
    requires
        s.to_multiset() == t.to_multiset(),
    ensures
        kept_trees(shown, s).to_multiset() == kept_trees(shown, t).to_multiset(),
    decreases s.len(),
{
    broadcast use vstd::seq_lib::group_to_multiset_ensures;

    s.to_multiset_ensures();
    t.to_multiset_ensures();
    assert(s.len() == t.len());
    if s.len() > 0 {
        let x = s.last();
        assert(s.contains(x));
        assert(t.to_multiset().count(x) > 0);
        assert(t.contains(x));
        let i = choose|i: int| 0 <= i < t.len() && t[i] == x;
        lemma_kept_trees_remove(shown, t, i);
        lemma_kept_trees_remove(shown, s, s.len() - 1);
        assert(t.remove(i).to_multiset() =~= s.remove(s.len() - 1).to_multiset());
        lemma_kept_trees_of_permutation(shown, s.remove(s.len() - 1), t.remove(i));
    }
}

/// The order in which the children of a node were found does not show, where
/// no two that are shown are alike.
pub proof fn lemma_rebuilt_of_permutation(
    shown: Seq<NodeView>,
    node: NodeView,
    children: Seq<NodeView>,
)
    requires
        children.to_multiset() == node.children.to_multiset(),
        forall|a: DisplayNodeView, b: DisplayNodeView|
            #![trigger display_order(a, b)]
            rebuilt_children(shown, node, node.children.len() as int).contains(a)
                && rebuilt_children(shown, node, node.children.len() as int).contains(b)
                && display_order(a, b) == Order::Same ==> a == b,
    ensures
        rebuilt(shown, NodeView { children, ..node }) == rebuilt(shown, node),
{
    let other = NodeView { children, ..node };
    let f = |a: DisplayNodeView, b: DisplayNodeView| display_order(a, b);
    let (n, m) = (node.children.len() as int, children.len() as int);
    lemma_kept_trees(shown, node, n);
    lemma_kept_trees(shown, other, m);
    assert(node.children.take(n) =~= node.children);
    assert(children.take(m) =~= children);
    lemma_kept_trees_of_permutation(shown, node.children, children);
    lemma_display_order_total();
    let s = rebuilt_children(shown, node, n);
    assert forall|a: DisplayNodeView, b: DisplayNodeView|
        s.contains(a) && s.contains(b) && #[trigger] f(a, b) == Order::Same implies a == b by {
        assert(display_order(a, b) == Order::Same);
    }
    lemma_descending_of_permutation(s, rebuilt_children(shown, other, m), f);
}

// --------------------------------------------------------------------------
// The largest
// --------------------------------------------------------------------------

/// The trees of a pool measure no more in a part than in the whole.
pub open spec fn pool_capped(pool: Multiset<NodeView>) -> bool {
    forall|x: NodeView| #[trigger] pool.contains(x) ==> tree_capped(x)
}

proof fn lemma_run_descends(
    display_data: &AggregateData,
    keep_collapsed: Seq<PathBuf>,
    pool: Multiset<NodeView>,
    taken: Seq<NodeView>,
)
    requires
        is_run(display_data, keep_collapsed, pool, taken),
        pool_capped(pool),
    ensures
        pool_capped(pool_after(display_data, keep_collapsed, pool, taken)),
        forall|x: NodeView, k: int|
            #![trigger pool_after(display_data, keep_collapsed, pool, taken).contains(x), taken[k]]
            pool_after(display_data, keep_collapsed, pool, taken).contains(x) && 0 <= k
                < taken.len() ==> x.size <= taken[k].size,
        forall|j: int, k: int|
            0 <= j <= k < taken.len() ==> (#[trigger] taken[k]).size <= (#[trigger] taken[j]).size,
    decreases taken.len(),
{
    if taken.len() > 0 {
        let before = taken.drop_last();
        let last = taken.last();
        lemma_run_descends(display_data, keep_collapsed, pool, before);
        let p = pool_after(display_data, keep_collapsed, pool, before);
        let q = pool_after(display_data, keep_collapsed, pool, taken);
        let more = opened(display_data, keep_collapsed, last);
        assert(p.contains(last));
        assert(tree_capped(last));
        assert forall|x: NodeView| #[trigger] q.contains(x) implies tree_capped(x) && x.size
            <= last.size by {
            if more.contains(x) {
                lemma_candidates(display_data, last.children);
                last.children.to_multiset_ensures();
                assert(candidates(display_data, last.children).count(x) > 0);
                assert(last.children.contains(x));
                let i = choose|i: int| 0 <= i < last.children.len() && last.children[i] == x;
                assert(last.children[i].size <= last.size);
            } else {
                assert(p.count(x) > 0);
                assert(p.contains(x));
                assert(node_order(last, x) != Order::Less);
            }
        }
        assert forall|j: int, k: int| 0 <= j <= k < taken.len() implies (#[trigger] taken[k]).size
            <= (#[trigger] taken[j]).size by {
            if k < before.len() {
                assert(taken[k] == before[k] && taken[j] == before[j]);
            } else if j < before.len() {
                assert(taken[j] == before[j]);
                assert(p.contains(last));
            }
        }
        assert forall|x: NodeView, k: int|
            #![trigger q.contains(x), taken[k]]
            q.contains(x) && 0 <= k < taken.len() implies x.size <= taken[k].size by {
            assert(taken[taken.len() - 1].size <= taken[k].size);
        }
    }
}

/// What is shown was taken.
pub(crate) proof fn lemma_shown_was_taken(display_data: &AggregateData, taken: Seq<NodeView>, i: int) -> (k:
    int)
    requires
        0 <= i < shown_lines(display_data, taken).len(),
    ensures
        0 <= k < taken.len(),
        taken[k] == shown_lines(display_data, taken)[i],
    decreases taken.len(),
{
    let before = shown_lines(display_data, taken.drop_last());
    let now = shown_lines(display_data, taken);
    if now[i] == taken.last() {
        taken.len() - 1
    } else {
        assert(i < before.len() && now[i] == before[i]);
        let k = lemma_shown_was_taken(display_data, taken.drop_last(), i);
        assert(taken[k] == taken.drop_last()[k]);
        k
    }
}

/// The largest are shown: nothing that was left, and nothing below it, measures
/// more than anything that is shown, where no part measures more than the whole.
pub proof fn lemma_largest_are_shown(
    display_data: &AggregateData,
    keep_collapsed: Seq<PathBuf>,
    pool: Multiset<NodeView>,
    taken: Seq<NodeView>,
    left: NodeView,
    i: int,
)
    requires
        is_run(display_data, keep_collapsed, pool, taken),
        pool_capped(pool),
        pool_after(display_data, keep_collapsed, pool, taken).contains(left),
        0 <= i < shown_lines(display_data, taken).len(),
    ensures
        left.size <= shown_lines(display_data, taken)[i].size,
        tree_capped(left),
{
    let k = lemma_shown_was_taken(display_data, taken, i);
    lemma_run_descends(display_data, keep_collapsed, pool, taken);
    assert(taken[k] == shown_lines(display_data, taken)[i]);
}

/// What can be shown at first measures no more in a part than in the whole, where
/// the tree does.
pub proof fn lemma_first_pool_capped(display_data: &AggregateData, root: NodeView, roots: int)
    requires
        forall|i: int| 0 <= i < root.children.len() ==> tree_capped(#[trigger] root.children[i]),
    ensures
        pool_capped(first_pool(display_data, root, roots)),
{
    let pool = first_pool(display_data, root, roots);
    assert forall|x: NodeView| #[trigger] pool.contains(x) implies tree_capped(x) by {
        lemma_candidates(display_data, root.children);
        root.children.to_multiset_ensures();
        assert(pool.count(x) > 0);
        assert(candidates(display_data, root.children).count(x) > 0);
        assert(root.children.contains(x));
    }
}

} // verus!
