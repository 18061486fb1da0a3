//! The files and directories that a walk finds.

use std::cmp::Ordering;

use vstd::prelude::*;

use crate::cli;
use crate::dir_walker::WalkData;
use crate::exclusion::{is_asked_for, lemma_rejected_measures_nothing};
use crate::order::Order;
use crate::path::{identity_of, lemma_path_order_total, path_order, path_text, PathBuf, PathView};
use crate::pattern::{found_in, matches_of};
use crate::utils::{
    is_filtered_out_due_to_file_time, is_filtered_out_due_to_invert_regex,
    is_filtered_out_due_to_regex, none_found, outside_time,
};

verus! {

/// The size, the inode and device, and the modified, accessed and changed times
/// of an entry.
pub type EntryMetadata = (u64, Option<(u64, u64)>, (i64, i64, i64));

/// A file or a directory with everything that was found in it.
#[derive(Debug)]
pub struct Node {
    pub name: PathBuf,
    pub size: u64,
    pub children: Vec<Node>,
    pub inode_device: Option<(u64, u64)>,
    pub depth: usize,
    pub is_file: bool,
}

/// What a node is, as a value.
#[verifier::ext_equal]
pub struct NodeView {
    pub name: PathView,
    pub size: u64,
    pub children: Seq<NodeView>,
    pub inode_device: Option<(u64, u64)>,
    pub depth: usize,
    pub is_file: bool,
}

/// The value of a node.
pub open spec fn node_view(node: Node) -> NodeView
    decreases node,
{
    NodeView {
        name: node.name@,
        size: node.size,
        children: Seq::new(
            node.children.len() as nat,
            |i: int|
                if 0 <= i < node.children.len() {
                    node_view(node.children[i])
                } else {
                    arbitrary()
                },
        ),
        inode_device: node.inode_device,
        depth: node.depth,
        is_file: node.is_file,
    }
}

/// The values of a list of nodes.
pub open spec fn node_views(nodes: Seq<Node>) -> Seq<NodeView> {
    nodes.map_values(|node: Node| node@)
}

impl View for Node {
    type V = NodeView;

    open spec fn view(&self) -> NodeView {
        node_view(*self)
    }
}

/// The value of a node is made of the values of its fields.
pub proof fn lemma_node_view(node: Node)
    ensures
        node@ == (NodeView {
            name: node.name@,
            size: node.size,
            children: node_views(node.children@),
            inode_device: node.inode_device,
            depth: node.depth,
            is_file: node.is_file,
        }),
{
    assert(node@.children =~= node_views(node.children@));
}

impl Clone for Node {
    fn clone(&self) -> (r: Self)
        ensures
            r@ == self@,
        decreases self,
    {
        let mut children: Vec<Node> = Vec::with_capacity(self.children.len());
        let mut i: usize = 0;
        while i < self.children.len()
            invariant
                i <= self.children.len(),
                children.len() == i,
                forall|j: int| 0 <= j < i ==> (#[trigger] children@[j])@ == self.children@[j]@,
            decreases self.children.len() - i,
        {
            let child = self.children[i].clone();
            children.push(child);
            i += 1;
        }
        let r = Node {
            name: self.name.clone(),
            size: self.size,
            children,
            inode_device: self.inode_device,
            depth: self.depth,
            is_file: self.is_file,
        };
        proof {
            lemma_node_view(r);
            lemma_node_view(*self);
        }
        assert(r@.children =~= self@.children);
        r
    }
}

// --------------------------------------------------------------------------
// Timestamps as sizes
// --------------------------------------------------------------------------

/// The timestamp that nodes are measured by.
#[derive(Clone, Copy, Debug, PartialEq, Eq, Structural)]
pub enum FileTime {
    Modified,
    Accessed,
    Changed,
}

impl From<cli::FileTime> for FileTime {
    fn from(time: cli::FileTime) -> (r: Self) {
        match time {
            cli::FileTime::Modified => Self::Modified,
            cli::FileTime::Accessed => Self::Accessed,
            cli::FileTime::Changed => Self::Changed,
        }
    }
}

impl vstd::std_specs::convert::FromSpecImpl<cli::FileTime> for FileTime {
    open spec fn obeys_from_spec() -> bool {
        true
    }

    open spec fn from_spec(time: cli::FileTime) -> Self {
        match time {
            cli::FileTime::Modified => FileTime::Modified,
            cli::FileTime::Accessed => FileTime::Accessed,
            cli::FileTime::Changed => FileTime::Changed,
        }
    }
}

/// The size that stands for a timestamp: its distance from the least one.
pub open spec fn filetime_size(t: i64) -> u64 {
    (t - i64::MIN) as u64
}

/// The timestamp that a size stands for.
pub open spec fn size_filetime(size: u64) -> i64 {
    (size + i64::MIN) as i64
}

/// Turns a timestamp into the size that stands for it. A later time gives a
/// larger size.
pub fn encode_filetime(t: i64) -> (r: u64)
    ensures
        r == filetime_size(t),
{
    (t as i128 - i64::MIN as i128) as u64
}

/// Turns a size back into the timestamp that it stands for.
pub fn decode_filetime(size: u64) -> (r: i64)
    ensures
        r == size_filetime(size),
{
    (size as i128 + i64::MIN as i128) as i64
}

/// Timestamps and the sizes that stand for them are in one-to-one
/// correspondence, and the correspondence keeps the order.
pub proof fn lemma_filetime_bijection(s: i64, t: i64, size: u64)
    ensures
        size_filetime(filetime_size(t)) == t,
        filetime_size(size_filetime(size)) == size,
        s < t <==> filetime_size(s) < filetime_size(t),
{
}

// --------------------------------------------------------------------------
// Building nodes
// --------------------------------------------------------------------------

/// The filters of a walk leave a path with these timestamps out.
pub open spec fn filters_reject(walk_data: &WalkData, path: PathView, times: (i64, i64, i64)) -> bool {
    ||| none_found(matches_of(walk_data.filter_regex@, path_text(path)))
    ||| matches_of(walk_data.invert_filter_regex@, path_text(path)).contains(true)
    ||| times_reject(walk_data, times)
}

/// The time filters of a walk leave these timestamps out.
pub open spec fn times_reject(walk_data: &WalkData, times: (i64, i64, i64)) -> bool {
    ||| outside_time(walk_data.filter_modified_time, times.0)
    ||| outside_time(walk_data.filter_accessed_time, times.1)
    ||| outside_time(walk_data.filter_changed_time, times.2)
}

/// Tells whether the time filters of a walk leave these timestamps out.
pub fn is_filtered_out_due_to_times(walk_data: &WalkData, times: (i64, i64, i64)) -> (r: bool)
    requires
        walk_data.in_range(),
    ensures
        r == times_reject(walk_data, times),
        r == !(is_asked_for(walk_data.filter_modified_time, times.0) && is_asked_for(
            walk_data.filter_accessed_time,
            times.1,
        ) && is_asked_for(walk_data.filter_changed_time, times.2)),
{
    is_filtered_out_due_to_file_time(walk_data.filter_modified_time.as_ref(), times.0)
        || is_filtered_out_due_to_file_time(walk_data.filter_accessed_time.as_ref(), times.1)
        || is_filtered_out_due_to_file_time(walk_data.filter_changed_time.as_ref(), times.2)
}

/// What an entry counts for by itself.
pub open spec fn entry_size(
    filtered_out: bool,
    by_filecount: bool,
    by_filetime: Option<FileTime>,
    data: EntryMetadata,
) -> u64 {
    if filtered_out {
        0
    } else if by_filecount {
        1
    } else {
        match by_filetime {
            Some(FileTime::Modified) => filetime_size(data.2.0),
            Some(FileTime::Accessed) => filetime_size(data.2.1),
            Some(FileTime::Changed) => filetime_size(data.2.2),
            None => data.0,
        }
    }
}

/// Measures an entry by itself: nothing where it is filtered out, one file, its
/// timestamp, or its size.
pub fn measure_entry(
    filtered_out: bool,
    by_filecount: bool,
    by_filetime: &Option<FileTime>,
    data: &EntryMetadata,
) -> (r: u64)
    ensures
        r == entry_size(filtered_out, by_filecount, *by_filetime, *data),
{
    if filtered_out {
        0
    } else if by_filecount {
        1
    } else {
        match by_filetime {
            Some(FileTime::Modified) => encode_filetime(data.2.0),
            Some(FileTime::Accessed) => encode_filetime(data.2.1),
            Some(FileTime::Changed) => encode_filetime(data.2.2),
            None => data.0,
        }
    }
}

/// An entry counts for nothing: a filter leaves it out, or files are counted
/// and it is none. An entry that already passed the filters counts.
pub open spec fn counts_for_nothing(
    walk_data: &WalkData,
    path: PathView,
    is_file: bool,
    already_filtered: bool,
    data: EntryMetadata,
) -> bool {
    !already_filtered && (filters_reject(walk_data, path, data.2) || (walk_data.by_filecount
        && !is_file))
}

/// What the node of an entry measures before its children are added.
pub open spec fn own_size(
    walk_data: &WalkData,
    path: PathView,
    is_file: bool,
    already_filtered: bool,
    data: EntryMetadata,
) -> u64 {
    entry_size(
        counts_for_nothing(walk_data, path, is_file, already_filtered, data),
        walk_data.by_filecount,
        *walk_data.by_filetime,
        data,
    )
}

/// Measures an entry before its children are added.
pub fn measure_alone(
    path: &PathBuf,
    is_file: bool,
    already_filtered: bool,
    walk_data: &WalkData,
    data: &EntryMetadata,
) -> (r: u64)
    requires
        walk_data.in_range(),
    ensures
        r == own_size(walk_data, path@, is_file, already_filtered, *data),
        // what the filters do not ask for counts for nothing
        !already_filtered && walk_data.filter_regex@.len() > 0 && (forall|k: int|
            0 <= k < walk_data.filter_regex@.len() ==> !found_in(
                #[trigger] walk_data.filter_regex@[k],
                path_text(path@),
            )) ==> r == 0,
        !already_filtered && (exists|k: int|
            0 <= k < walk_data.invert_filter_regex@.len() && found_in(
                #[trigger] walk_data.invert_filter_regex@[k],
                path_text(path@),
            )) ==> r == 0,
{
    proof {
        lemma_rejected_measures_nothing(walk_data, path@, is_file, *data);
    }
    let filtered_out = !already_filtered && (is_filtered_out_due_to_regex(
        walk_data.filter_regex,
        path,
    ) || is_filtered_out_due_to_invert_regex(walk_data.invert_filter_regex, path)
        || is_filtered_out_due_to_times(walk_data, data.2) || (walk_data.by_filecount
        && !is_file));
    measure_entry(filtered_out, walk_data.by_filecount, walk_data.by_filetime, data)
}

/// Builds the node of an entry, if its metadata is known. `already_filtered`
/// marks an entry that passed the filters before.
pub fn build_node(
    dir: PathBuf,
    children: Vec<Node>,
    is_file: bool,
    already_filtered: bool,
    depth: usize,
    walk_data: &WalkData,
    metadata: Option<EntryMetadata>,
) -> (r: Option<Node>)
    requires
        walk_data.in_range(),
    ensures
        r is Some <==> metadata is Some,
        r matches Some(node) ==> {
            let data = metadata->Some_0;
            &&& node.name@ == dir@
            &&& node.size == own_size(walk_data, dir@, is_file, already_filtered, data)
            &&& node.children == children
            &&& node.inode_device == data.1
            &&& node.depth == depth
            &&& node.is_file == is_file
        },
{
    match metadata {
        None => None,
        Some(data) => {
            let size = measure_alone(&dir, is_file, already_filtered, walk_data, &data);
            Some(Node { name: dir, size, children, inode_device: data.1, depth, is_file })
        },
    }
}

// --------------------------------------------------------------------------
// Order
// --------------------------------------------------------------------------

/// The order of sizes.
pub open spec fn size_order(a: u64, b: u64) -> Order {
    if a < b {
        Order::Less
    } else if a == b {
        Order::Same
    } else {
        Order::Greater
    }
}

/// The order of nodes by size and name: by size first, then by name.
pub open spec fn key_order(a: (u64, PathView), b: (u64, PathView)) -> Order {
    if a.0 == b.0 {
        path_order(a.1, b.1)
    } else {
        size_order(a.0, b.0)
    }
}

/// The order of nodes. Children carry no weight.
pub open spec fn node_order(a: NodeView, b: NodeView) -> Order {
    key_order((a.size, a.name), (b.size, b.name))
}

/// An order as the standard library names it.
pub open spec fn as_ordering(order: Order) -> Ordering {
    match order {
        Order::Less => Ordering::Less,
        Order::Same => Ordering::Equal,
        Order::Greater => Ordering::Greater,
    }
}

/// Nodes are in a total order, and those alike in it are those with the same
/// size and the same name.
pub proof fn lemma_node_order_total(a: NodeView, b: NodeView, c: NodeView)
    ensures
        node_order(a, a) == Order::Same,
        node_order(b, a) == node_order(a, b).flip(),
        node_order(a, b) != Order::Greater && node_order(b, c) != Order::Greater ==> node_order(
            a,
            c,
        ) != Order::Greater,
        node_order(a, b) == Order::Same <==> a.size == b.size && identity_of(a.name)
            == identity_of(b.name),
{
    lemma_path_order_total();
    let f = |x: PathView, y: PathView| path_order(x, y);
    assert(f(a.name, a.name) == path_order(a.name, a.name));
    assert(f(b.name, a.name) == f(a.name, b.name).flip());
    assert(f(a.name, b.name) != Order::Greater && f(b.name, c.name) != Order::Greater ==> f(
        a.name,
        c.name,
    ) != Order::Greater);
}

impl Node {
    /// Compares two nodes by size and name.
    pub fn compare(&self, other: &Self) -> (r: Order)
        ensures
            r == node_order(self@, other@),
    {
        if self.size < other.size {
            Order::Less
        } else if self.size > other.size {
            Order::Greater
        } else {
            self.name.compare(&other.name)
        }
    }

    /// Compares two nodes by size and name.
    pub fn cmp(&self, other: &Self) -> (r: Ordering)
        ensures
            r == as_ordering(node_order(self@, other@)),
    {
        match self.compare(other) {
            Order::Less => Ordering::Less,
            Order::Same => Ordering::Equal,
            Order::Greater => Ordering::Greater,
        }
    }
}

impl PartialEq for Node {
    fn eq(&self, other: &Self) -> (r: bool) {
        self.size == other.size && self.name == other.name
    }
}

impl vstd::std_specs::cmp::PartialEqSpecImpl for Node {
    open spec fn obeys_eq_spec() -> bool {
        true
    }

    open spec fn eq_spec(&self, other: &Self) -> bool {
        self.size == other.size && identity_of(self.name@) == identity_of(other.name@)
    }
}

impl Eq for Node {

}

impl PartialOrd for Node {
    fn partial_cmp(&self, other: &Self) -> (r: Option<Ordering>) {
        Some(self.cmp(other))
    }
}

impl vstd::std_specs::cmp::PartialOrdSpecImpl for Node {
    open spec fn obeys_partial_cmp_spec() -> bool {
        true
    }

    open spec fn partial_cmp_spec(&self, other: &Self) -> Option<Ordering> {
        Some(as_ordering(node_order(self@, other@)))
    }
}

} // verus!
