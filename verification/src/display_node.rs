//! The tree that is shown.

use std::cmp::Ordering;

use vstd::prelude::*;

use crate::display::{human_readable_number, readable_size};
use crate::lists::reverse;
use crate::node::{
    as_ordering, decode_filetime, key_order, lemma_node_order_total, size_filetime, NodeView,
};
use crate::order::{is_total_order, Order};
use crate::path::{path_text, PathBuf, PathView};
use crate::sorting::{descending, lemma_merged_descending, merged};

verus! {

/// A file or a directory that is shown, with what is shown in it.
#[derive(Debug)]
pub struct DisplayNode {
    pub size: u64,
    pub name: PathBuf,
    pub children: Vec<DisplayNode>,
    pub is_file: bool,
}

/// What a shown node is, as a value.
#[verifier::ext_equal]
pub struct DisplayNodeView {
    pub size: u64,
    pub name: PathView,
    pub children: Seq<DisplayNodeView>,
    pub is_file: bool,
}

/// The value of a shown node.
pub open spec fn display_node_view(node: DisplayNode) -> DisplayNodeView
    decreases node,
{
    DisplayNodeView {
        size: node.size,
        name: node.name@,
        children: Seq::new(
            node.children.len() as nat,
            |i: int|
                if 0 <= i < node.children.len() {
                    display_node_view(node.children[i])
                } else {
                    arbitrary()
                },
        ),
        is_file: node.is_file,
    }
}

/// The values of a list of shown nodes.
pub open spec fn display_node_views(nodes: Seq<DisplayNode>) -> Seq<DisplayNodeView> {
    nodes.map_values(|node: DisplayNode| node@)
}

impl View for DisplayNode {
    type V = DisplayNodeView;

    open spec fn view(&self) -> DisplayNodeView {
        display_node_view(*self)
    }
}

/// The value of a shown node is made of the values of its fields.
pub proof fn lemma_display_node_view(node: DisplayNode)
    ensures
        node@ == (DisplayNodeView {
            size: node.size,
            name: node.name@,
            children: display_node_views(node.children@),
            is_file: node.is_file,
        }),
{
    assert(node@.children =~= display_node_views(node.children@));
}

// --------------------------------------------------------------------------
// Order
// --------------------------------------------------------------------------

/// The order of shown nodes: by size, then by name, then by what is shown in
/// them.
pub open spec fn display_order(a: DisplayNodeView, b: DisplayNodeView) -> Order
    decreases a,
{
    match key_order((a.size, a.name), (b.size, b.name)) {
        Order::Same => children_order(a.children, b.children),
        order => order,
    }
}

/// The order of lists of shown nodes.
pub open spec fn children_order(x: Seq<DisplayNodeView>, y: Seq<DisplayNodeView>) -> Order
    decreases x,
{
    if x.len() == 0 {
        if y.len() == 0 {
            Order::Same
        } else {
            Order::Less
        }
    } else if y.len() == 0 {
        Order::Greater
    } else {
        match display_order(x[0], y[0]) {
            Order::Same => children_order(x.drop_first(), y.drop_first()),
            order => order,
        }
    }
}

proof fn lemma_key_order(a: (u64, PathView), b: (u64, PathView), c: (u64, PathView))
    ensures
        key_order(a, a) == Order::Same,
        key_order(a, b) == key_order(b, a).flip(),
        key_order(a, b) != Order::Greater && key_order(b, c) != Order::Greater ==> key_order(a, c)
            != Order::Greater,
        key_order(a, b) != Order::Greater && key_order(b, c) != Order::Greater && key_order(a, c)
            == Order::Same ==> key_order(a, b) == Order::Same && key_order(b, c) == Order::Same,
        key_order(a, b) == Order::Same && key_order(b, c) == Order::Same ==> key_order(a, c)
            == Order::Same,
{
    let node = |k: (u64, PathView)|
        NodeView {
            name: k.1,
            size: k.0,
            children: Seq::empty(),
            inode_device: None,
            depth: 0,
            is_file: false,
        };
    lemma_node_order_total(node(a), node(b), node(c));
    lemma_node_order_total(node(c), node(b), node(a));
    lemma_node_order_total(node(b), node(a), node(a));
    lemma_node_order_total(node(c), node(a), node(b));
    lemma_node_order_total(node(b), node(c), node(a));
    lemma_node_order_total(node(a), node(c), node(b));
}

/// What a total order asks of three values.
spec fn ordered(ab: Order, ba: Order, bc: Order, ac: Order) -> bool {
    &&& ab == ba.flip()
    &&& ab != Order::Greater && bc != Order::Greater ==> ac != Order::Greater
    &&& ab != Order::Greater && bc != Order::Greater && ac == Order::Same ==> ab == Order::Same && bc
        == Order::Same
    &&& ab == Order::Same && bc == Order::Same ==> ac == Order::Same
}

proof fn lemma_display_order(a: DisplayNodeView, b: DisplayNodeView, c: DisplayNodeView)
    ensures
        display_order(a, a) == Order::Same,
        ordered(
            display_order(a, b),
            display_order(b, a),
            display_order(b, c),
            display_order(a, c),
        ),
    decreases a, 1nat,
{
    let (x, y, z) = ((a.size, a.name), (b.size, b.name), (c.size, c.name));
    lemma_key_order(x, y, z);
    lemma_key_order(z, y, x);
    lemma_key_order(y, z, x);
    lemma_key_order(x, z, y);
    lemma_children_order(a.children, b.children, c.children);
}

proof fn lemma_children_order(
    x: Seq<DisplayNodeView>,
    y: Seq<DisplayNodeView>,
    z: Seq<DisplayNodeView>,
)
    ensures
        children_order(x, x) == Order::Same,
        ordered(
            children_order(x, y),
            children_order(y, x),
            children_order(y, z),
            children_order(x, z),
        ),
    decreases x, 0nat,
{
    if x.len() > 0 {
        let b = if y.len() > 0 {
            y[0]
        } else {
            x[0]
        };
        let c = if z.len() > 0 {
            z[0]
        } else {
            x[0]
        };
        lemma_display_order(x[0], b, c);
        lemma_children_order(x.drop_first(), y.drop_first(), z.drop_first());
    }
}

/// Shown nodes are in a total order.
pub proof fn lemma_display_order_total()
    ensures
        is_total_order(|a: DisplayNodeView, b: DisplayNodeView| display_order(a, b)),
{
    let f = |a: DisplayNodeView, b: DisplayNodeView| display_order(a, b);
    assert forall|a: DisplayNodeView| #[trigger] f(a, a) == Order::Same by {
        lemma_display_order(a, a, a);
    }
    assert forall|a: DisplayNodeView, b: DisplayNodeView| #[trigger] f(a, b) == f(b, a).flip() by {
        lemma_display_order(a, b, b);
    }
    assert forall|a: DisplayNodeView, b: DisplayNodeView, c: DisplayNodeView|
        #![trigger f(a, b), f(b, c)]
        f(a, b) != Order::Greater && f(b, c) != Order::Greater implies f(a, c) != Order::Greater && (
    f(a, c) == Order::Same ==> f(a, b) == Order::Same && f(b, c) == Order::Same) by {
        lemma_display_order(a, b, c);
    }
}

impl DisplayNode {
    /// Compares two shown nodes by size, name and what is shown in them.
    pub fn compare(&self, other: &Self) -> (r: Order)
        ensures
            r == display_order(self@, other@),
        decreases self,
    {
        proof {
            lemma_display_node_view(*self);
            lemma_display_node_view(*other);
        }
        if self.size < other.size {
            return Order::Less;
        }
        if self.size > other.size {
            return Order::Greater;
        }
        match self.name.compare(&other.name) {
            Order::Same => {},
            order => {
                return order;
            },
        }
        let ghost x = display_node_views(self.children@);
        let ghost y = display_node_views(other.children@);
        let mut i: usize = 0;
        assert(x.skip(0) =~= x);
        assert(y.skip(0) =~= y);
        while i < self.children.len() && i < other.children.len()
            invariant
                i <= self.children.len(),
                i <= other.children.len(),
                x == display_node_views(self.children@),
                y == display_node_views(other.children@),
                display_order(self@, other@) == children_order(
                    x.skip(i as int),
                    y.skip(i as int),
                ),
            decreases self.children.len() - i,
        {
            assert(x.skip(i as int)[0] == self.children@[i as int]@);
            assert(y.skip(i as int)[0] == other.children@[i as int]@);
            assert(x.skip(i as int).drop_first() =~= x.skip(i + 1));
            assert(y.skip(i as int).drop_first() =~= y.skip(i + 1));
            match self.children[i].compare(&other.children[i]) {
                Order::Same => {},
                order => {
                    return order;
                },
            }
            i += 1;
        }
        if i < self.children.len() {
            Order::Greater
        } else if i < other.children.len() {
            Order::Less
        } else {
            Order::Same
        }
    }

    /// Compares two shown nodes by size, name and what is shown in them.
    pub fn cmp(&self, other: &Self) -> (r: Ordering)
        ensures
            r == as_ordering(display_order(self@, other@)),
    {
        match self.compare(other) {
            Order::Less => Ordering::Less,
            Order::Same => Ordering::Equal,
            Order::Greater => Ordering::Greater,
        }
    }

    /// The number of nodes shown directly in this one.
    pub fn num_siblings(&self) -> (r: u64)
        ensures
            r == self.children.len(),
    {
        self.children.len() as u64
    }

    /// The nodes shown directly in this one, from the first or from the last.
    pub fn get_children_from_node(&self, is_reversed: bool) -> (r: Vec<&DisplayNode>)
        ensures
            r.len() == self.children.len(),
            forall|i: int|
                0 <= i < r.len() ==> *(#[trigger] r@[i]) == (if is_reversed {
                    self.children@[self.children.len() - 1 - i]
                } else {
                    self.children@[i]
                }),
    {
        let n = self.children.len();
        let mut out: Vec<&DisplayNode> = Vec::with_capacity(n);
        let mut i: usize = 0;
        while i < n
            invariant
                i <= n,
                n == self.children.len(),
                out.len() == i,
                forall|j: int|
                    0 <= j < i ==> *(#[trigger] out@[j]) == (if is_reversed {
                        self.children@[n - 1 - j]
                    } else {
                        self.children@[j]
                    }),
            decreases n - i,
        {
            if is_reversed {
                out.push(&self.children[n - 1 - i]);
            } else {
                out.push(&self.children[i]);
            }
            i += 1;
        }
        out
    }
}

impl PartialEq for DisplayNode {
    fn eq(&self, other: &Self) -> (r: bool) {
        match self.compare(other) {
            Order::Same => true,
            _ => false,
        }
    }
}

impl vstd::std_specs::cmp::PartialEqSpecImpl for DisplayNode {
    open spec fn obeys_eq_spec() -> bool {
        true
    }

    open spec fn eq_spec(&self, other: &Self) -> bool {
        display_order(self@, other@) == Order::Same
    }
}

impl Eq for DisplayNode {

}

impl PartialOrd for DisplayNode {
    fn partial_cmp(&self, other: &Self) -> (r: Option<Ordering>) {
        Some(self.cmp(other))
    }
}

impl vstd::std_specs::cmp::PartialOrdSpecImpl for DisplayNode {
    open spec fn obeys_partial_cmp_spec() -> bool {
        true
    }

    open spec fn partial_cmp_spec(&self, other: &Self) -> Option<Ordering> {
        Some(as_ordering(display_order(self@, other@)))
    }
}

impl Clone for DisplayNode {
    fn clone(&self) -> (r: Self)
        ensures
            r@ == self@,
        decreases self,
    {
        let mut children: Vec<DisplayNode> = Vec::with_capacity(self.children.len());
        let mut i: usize = 0;
        while i < self.children.len()
            invariant
                i <= self.children.len(),
                children.len() == i,
                forall|j: int| 0 <= j < i ==> (#[trigger] children@[j])@ == self.children@[j]@,
            decreases self.children.len() - i,
        {
            let child = self.children[i].clone();
            children.push(child);
            i += 1;
        }
        let r = DisplayNode {
            size: self.size,
            name: self.name.clone(),
            children,
            is_file: self.is_file,
        };
        proof {
            lemma_display_node_view(r);
            lemma_display_node_view(*self);
        }
        assert(r@.children =~= self@.children);
        r
    }
}

// --------------------------------------------------------------------------
// Sorting
// --------------------------------------------------------------------------

/// Shown nodes with the greatest first.
pub open spec fn greatest_first(nodes: Seq<DisplayNodeView>) -> Seq<DisplayNodeView> {
    descending(nodes, |a: DisplayNodeView, b: DisplayNodeView| display_order(a, b))
}

fn merge(p: Vec<DisplayNode>, q: Vec<DisplayNode>) -> (r: Vec<DisplayNode>)
    ensures
        display_node_views(r@) == merged(
            display_node_views(p@),
            display_node_views(q@),
            |a: DisplayNodeView, b: DisplayNodeView| display_order(a, b),
        ),
{
    let ghost f = |a: DisplayNodeView, b: DisplayNodeView| display_order(a, b);
    let ghost goal = merged(display_node_views(p@), display_node_views(q@), f);
    let mut left = p;
    let mut right = q;
    reverse(&mut left);
    reverse(&mut right);
    let mut out: Vec<DisplayNode> = Vec::with_capacity(left.len());
    proof {
        assert(display_node_views(left@).reverse() =~= display_node_views(p@));
        assert(display_node_views(right@).reverse() =~= display_node_views(q@));
        assert(display_node_views(out@) =~= Seq::empty());
        assert(Seq::empty() + goal =~= goal);
    }
    while left.len() > 0 && right.len() > 0
        invariant
            f == (|a: DisplayNodeView, b: DisplayNodeView| display_order(a, b)),
            display_node_views(out@) + merged(
                display_node_views(left@).reverse(),
                display_node_views(right@).reverse(),
                f,
            ) == goal,
        decreases left.len() + right.len(),
    {
        let ghost a = display_node_views(left@).reverse();
        let ghost b = display_node_views(right@).reverse();
        let ghost before = display_node_views(out@);
        assert(a[0] == left@[left.len() - 1]@);
        assert(b[0] == right@[right.len() - 1]@);
        match left[left.len() - 1].compare(&right[right.len() - 1]) {
            Order::Less => {
                if let Some(node) = right.pop() {
                    out.push(node);
                }
                proof {
                    assert(display_node_views(right@).reverse() =~= b.drop_first());
                    assert(display_node_views(out@) =~= before.push(b[0]));
                    assert(before + (seq![b[0]] + merged(a, b.drop_first(), f)) =~= before.push(
                        b[0],
                    ) + merged(a, b.drop_first(), f));
                }
            },
            _ => {
                if let Some(node) = left.pop() {
                    out.push(node);
                }
                proof {
                    assert(display_node_views(left@).reverse() =~= a.drop_first());
                    assert(display_node_views(out@) =~= before.push(a[0]));
                    assert(before + (seq![a[0]] + merged(a.drop_first(), b, f)) =~= before.push(
                        a[0],
                    ) + merged(a.drop_first(), b, f));
                }
            },
        }
    }
    let ghost before = out@;
    if left.len() > 0 {
        let ghost rest = left@;
        reverse(&mut left);
        out.append(&mut left);
        assert(display_node_views(out@) =~= display_node_views(before) + display_node_views(
            rest,
        ).reverse());
    } else {
        let ghost rest = right@;
        reverse(&mut right);
        out.append(&mut right);
        assert(display_node_views(out@) =~= display_node_views(before) + display_node_views(
            rest,
        ).reverse());
    }
    out
}

/// Sorts shown nodes, the greatest first. Nodes that are alike stay in their
/// order.
pub fn sort_greatest_first(nodes: Vec<DisplayNode>) -> (r: Vec<DisplayNode>)
    ensures
        display_node_views(r@) == greatest_first(display_node_views(nodes@)),
    decreases nodes.len(),
{
    let ghost f = |a: DisplayNodeView, b: DisplayNodeView| display_order(a, b);
    let ghost views = display_node_views(nodes@);
    if nodes.len() <= 1 {
        proof {
            if nodes.len() == 1 {
                assert(views.drop_last() =~= Seq::empty());
                assert(descending(views.drop_last(), f) =~= Seq::empty());
                assert(descending(views, f) =~= views);
            } else {
                assert(descending(views, f) =~= views);
            }
        }
        return nodes;
    }
    let mut left = nodes;
    let half = left.len() / 2;
    let right = left.split_off(half);
    let ghost (a, b) = (display_node_views(left@), display_node_views(right@));
    let sorted_left = sort_greatest_first(left);
    let sorted_right = sort_greatest_first(right);
    proof {
        assert(views =~= a + b);
        lemma_display_order_total();
        lemma_merged_descending(a, b, f);
    }
    merge(sorted_left, sorted_right)
}

// --------------------------------------------------------------------------
// Sizes in JSON
// --------------------------------------------------------------------------

/// How sizes are written in JSON.
#[derive(Debug, Clone, PartialEq)]
pub enum JsonSizeFormat {
    /// As readable sizes in this format.
    Human(String),
    /// As numbers of files.
    Count,
    /// As timestamps.
    Timestamp,
}

/// A size as it is written in JSON.
#[derive(Debug)]
pub enum JsonSize {
    Text(String),
    Count(u64),
    Timestamp(i64),
}

/// Chooses how sizes are written in JSON: timestamps win over numbers of files.
pub fn json_size_format(
    by_filetime: bool,
    by_filecount: bool,
    output_format: String,
) -> (r: JsonSizeFormat)
    ensures
        by_filetime ==> r is Timestamp,
        !by_filetime && by_filecount ==> r is Count,
        !by_filetime && !by_filecount ==> r == JsonSizeFormat::Human(output_format),
{
    if by_filetime {
        JsonSizeFormat::Timestamp
    } else if by_filecount {
        JsonSizeFormat::Count
    } else {
        JsonSizeFormat::Human(output_format)
    }
}

/// A size as it is written in JSON.
pub fn json_size(size: u64, format: &JsonSizeFormat) -> (r: JsonSize)
    ensures
        match *format {
            JsonSizeFormat::Timestamp => r == JsonSize::Timestamp(size_filetime(size)),
            JsonSizeFormat::Count => r == JsonSize::Count(size),
            JsonSizeFormat::Human(text) => r matches JsonSize::Text(shown) && shown@
                == readable_size(size, text@),
        },
{
    match format {
        JsonSizeFormat::Timestamp => JsonSize::Timestamp(decode_filetime(size)),
        JsonSizeFormat::Count => JsonSize::Count(size),
        JsonSizeFormat::Human(text) => JsonSize::Text(human_readable_number(size, text.as_str())),
    }
}

/// The name of a node as it is written in JSON: what is not UTF-8 is replaced.
pub fn json_name(node: &DisplayNode) -> (r: String)
    ensures
        r@ == path_text(node.name@),
{
    node.name.to_lossy()
}

} // verus!
