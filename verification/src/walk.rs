//! The state of a walk: the directories that are being walked, what was found
//! in them so far, and the trees that are finished.

use vstd::prelude::*;

use crate::dir_walker::{
    claimed_after, claimed_before, decide, exhausted_recorded, failure_recorded, find_retryable,
    first_retryable, follows, id_of, ignore_file, is_duplicate_inode, is_foreign, is_retryable,
    leaf_node, listing_scanned, listing_view, maybe_path, missing_recorded, no_interruption,
    record_eintr_exhausted, record_error, record_metadata_unavailable, retryable, scan_listing,
    subdirectory_views, DirKind, EntryKind, Failure, Fate, Listed, ListedView, Scan, ScanView,
    Subdirectory, SubdirectoryView, WalkData,
};
use crate::inode_set::{FileId, IdSet, InodeSet};
use crate::lists::reverse;
use crate::node::{
    build_node, lemma_node_view, measure_alone, node_views, own_size, EntryMetadata, FileTime, Node,
    NodeView,
};
use crate::path::{path_text, PathBuf, PathView};
use crate::progress::{recorded, ErrorsView, Operation, PAtomicInfo, RuntimeErrors};
use crate::sums::{
    lemma_total_append, lemma_total_not_negative, lemma_total_of_bits, lemma_total_of_permutation,
    lemma_total_push, lemma_total_update, lemma_total_zero, total,
};

verus! {

// --------------------------------------------------------------------------
// Sizes of directories
// --------------------------------------------------------------------------

/// The sum of the sizes of nodes.
pub open spec fn total_size(nodes: Seq<NodeView>) -> int {
    total(nodes, |n: NodeView| n.size as int)
}

/// The greatest among `own` and the sizes of nodes.
pub open spec fn greatest_size(own: u64, nodes: Seq<NodeView>) -> u64
    decreases nodes.len(),
{
    if nodes.len() == 0 {
        own
    } else {
        let before = greatest_size(own, nodes.drop_last());
        if nodes.last().size > before {
            nodes.last().size
        } else {
            before
        }
    }
}

/// The size of a directory that measures `own` by itself and holds `children`:
/// the latest timestamp where nodes are measured by timestamps, and otherwise
/// the sum.
pub open spec fn folded_size(
    by_filetime: Option<FileTime>,
    own: u64,
    children: Seq<NodeView>,
) -> int {
    if by_filetime is Some {
        greatest_size(own, children) as int
    } else {
        own + total_size(children)
    }
}

/// Adds the sizes of its children to what a directory measures by itself.
pub fn fold_size(by_filetime: &Option<FileTime>, own: u64, children: &Vec<Node>) -> (r: u64)
    requires
        by_filetime is None ==> own + total_size(node_views(children@)) <= u64::MAX,
    ensures
        r == folded_size(*by_filetime, own, node_views(children@)),
{
    let ghost views = node_views(children@);
    let ghost f = |n: NodeView| n.size as int;
    let by_time = by_filetime.is_some();
    let mut size: u64 = own;
    let mut i: usize = 0;
    assert(views.take(0) =~= Seq::empty());
    while i < children.len()
        invariant
            i <= children.len(),
            views == node_views(children@),
            by_time == (by_filetime is Some),
            f == (|n: NodeView| n.size as int),
            !by_time ==> own + total_size(views) <= u64::MAX,
            size == folded_size(*by_filetime, own, views.take(i as int)),
        decreases children.len() - i,
    {
        proof {
            lemma_node_view(children@[i as int]);
            assert(views.take(i + 1).drop_last() =~= views.take(i as int));
            assert(views.take(i + 1).last() == views[i as int]);
            assert(views.take(i + 1) + views.skip(i + 1) =~= views);
            lemma_total_append(views.take(i + 1), views.skip(i + 1), f);
            lemma_total_not_negative(views.skip(i + 1), f);
        }
        let child = children[i].size;
        if by_time {
            if child > size {
                size = child;
            }
        } else {
            size = size + child;
        }
        i += 1;
    }
    assert(views.take(children.len() as int) =~= views);
    size
}

/// The size of a directory does not depend on the order of its children.
pub proof fn lemma_folded_size_of_permutation(
    by_filetime: Option<FileTime>,
    own: u64,
    s: Seq<NodeView>,
    t: Seq<NodeView>,
)
    requires
        s.to_multiset() == t.to_multiset(),
    ensures
        folded_size(by_filetime, own, s) == folded_size(by_filetime, own, t),
{
    lemma_total_of_permutation(s, t, |n: NodeView| n.size as int);
    lemma_greatest_size(own, s);
    lemma_greatest_size(own, t);
    s.to_multiset_ensures();
    t.to_multiset_ensures();
    assert forall|n: NodeView| s.contains(n) <==> t.contains(n) by {
        assert(s.contains(n) <==> s.to_multiset().count(n) > 0);
        assert(t.contains(n) <==> t.to_multiset().count(n) > 0);
    }
    let (a, b) = (greatest_size(own, s), greatest_size(own, t));
    if a != own {
        let n = choose|n: NodeView| #[trigger] s.contains(n) && n.size == a;
        assert(t.contains(n));
    }
    if b != own {
        let n = choose|n: NodeView| #[trigger] t.contains(n) && n.size == b;
        assert(s.contains(n));
    }
}

pub(crate) proof fn lemma_greatest_size(own: u64, nodes: Seq<NodeView>)
    ensures
        own <= greatest_size(own, nodes),
        forall|n: NodeView| #[trigger] nodes.contains(n) ==> n.size <= greatest_size(own, nodes),
        greatest_size(own, nodes) == own || exists|n: NodeView| #[trigger]
            nodes.contains(n) && n.size == greatest_size(own, nodes),
    decreases nodes.len(),
{
    if nodes.len() > 0 {
        let rest = nodes.drop_last();
        lemma_greatest_size(own, rest);
        assert forall|n: NodeView| #[trigger] nodes.contains(n) implies n.size <= greatest_size(
            own,
            nodes,
        ) by {
            let i = choose|i: int| 0 <= i < nodes.len() && nodes[i] == n;
            if i < rest.len() {
                assert(rest[i] == n);
                assert(rest.contains(n));
            }
        }
        if greatest_size(own, nodes) != own {
            if nodes.last().size > greatest_size(own, rest) {
                assert(nodes[nodes.len() - 1] == nodes.last());
                assert(nodes.contains(nodes.last()));
            } else {
                let n = choose|n: NodeView| #[trigger]
                    rest.contains(n) && n.size == greatest_size(own, rest);
                let i = choose|i: int| 0 <= i < rest.len() && rest[i] == n;
                assert(nodes[i] == n);
                assert(nodes.contains(n));
            }
        }
    }
}

// --------------------------------------------------------------------------
// Directories under way
// --------------------------------------------------------------------------

/// A directory of a walk.
struct PendingDir {
    dir: PathBuf,
    depth: usize,
    kind: DirKind,
    metadata: Option<EntryMetadata>,
    /// The number of the root that it was reached from.
    root: usize,
    /// The directory that it was found in.
    parent: Option<usize>,
    /// Its own entries have been dealt with.
    scanned: bool,
    /// The number of unfinished directories found in it, and one for itself
    /// until it has been scanned.
    pending: usize,
    children: Vec<Node>,
}

/// A directory of a walk, as a value.
#[verifier::ext_equal]
pub struct DirView {
    pub dir: PathView,
    pub depth: usize,
    pub kind: DirKind,
    pub metadata: Option<EntryMetadata>,
    pub root: usize,
    pub parent: Option<usize>,
    pub scanned: bool,
    pub pending: usize,
    pub children: Seq<NodeView>,
}

impl View for PendingDir {
    type V = DirView;

    closed spec fn view(&self) -> DirView {
        DirView {
            dir: self.dir@,
            depth: self.depth,
            kind: self.kind,
            metadata: self.metadata,
            root: self.root,
            parent: self.parent,
            scanned: self.scanned,
            pending: self.pending,
            children: node_views(self.children@),
        }
    }
}

/// The state of a walk, as a value.
#[verifier::ext_equal]
pub struct WalkView {
    /// The directories in the order in which they were found.
    pub dirs: Seq<DirView>,
    /// For each root, the identities that it and the links below it led to.
    pub followed: Seq<Set<FileId>>,
    /// The identities that were claimed.
    pub inodes: Set<FileId>,
    pub errors: ErrorsView,
    pub num_files: usize,
    pub total_file_size: u64,
    pub state: Operation,
    pub current_path: Seq<char>,
    /// The finished trees.
    pub top_level: Seq<NodeView>,
    /// What the entries of the walk can measure together at most.
    pub ledger: u64,
}

/// The most that an entry can measure by itself, where nodes are not measured
/// by timestamps: one where files are counted, and else its size.
pub open spec fn weight(counting: bool, metadata: Option<EntryMetadata>) -> int {
    match metadata {
        None => 0,
        Some(data) => if counting {
            1
        } else {
            data.0 as int
        },
    }
}

/// The most that the entries of a listing can measure together.
pub open spec fn listing_weight(counting: bool, listing: Seq<ListedView>) -> int {
    total(
        listing,
        |item: ListedView|
            match item {
                ListedView::Found(e) => weight(counting, e.metadata),
                ListedView::Failed(_, _) => 0,
            },
    )
}

/// What a directory under way can still come to.
pub open spec fn load(counting: bool, d: DirView) -> int {
    if d.pending > 0 {
        weight(counting, d.metadata) + total_size(d.children)
    } else {
        0
    }
}

/// The number of unfinished directories that were found in the directory `i`.
pub open spec fn live_children(dirs: Seq<DirView>, i: int) -> int {
    total(dirs, |d: DirView| is_live_child(d, i))
}

/// One where a directory is unfinished and was found in the directory `i`, and
/// else zero.
pub open spec fn is_live_child(d: DirView, i: int) -> int {
    if d.pending > 0 && (d.parent matches Some(p) && p == i) {
        1
    } else {
        0
    }
}

/// One until the entries of a directory have been dealt with.
pub open spec fn own_scan(d: DirView) -> int {
    if d.scanned {
        0
    } else {
        1
    }
}

/// The directory `j` is a root, or was found in a directory that was found
/// before it.
pub open spec fn is_placed(dirs: Seq<DirView>, j: int, roots: int) -> bool {
    let d = dirs[j];
    &&& d.depth <= j
    &&& d.root < roots
    &&& d.pending == 0 ==> d.children.len() == 0
    &&& d.parent matches Some(p) ==> p < j && d.depth == dirs[p as int].depth + 1 && d.root
        == dirs[p as int].root
    &&& d.parent is None ==> d.depth == 0
}

/// Every directory but a root was found in one that was found before it.
pub open spec fn is_forest(dirs: Seq<DirView>, roots: int) -> bool {
    forall|j: int| 0 <= j < dirs.len() ==> #[trigger] is_placed(dirs, j, roots)
}

/// Each directory waits for its own scan and for the unfinished directories
/// found in it; the directory `extra` for one thing more.
pub open spec fn waits(dirs: Seq<DirView>, extra: int) -> bool {
    forall|i: int|
        0 <= i < dirs.len() ==> (#[trigger] dirs[i]).pending == own_scan(dirs[i]) + live_children(
            dirs,
            i,
        ) + (if i == extra {
            1int
        } else {
            0
        })
}

/// What the directories under way can come to together.
pub open spec fn total_load(counting: bool, dirs: Seq<DirView>) -> int {
    total(dirs, |d: DirView| load(counting, d))
}

impl WalkView {
    /// The state is one that a walk can be in.
    pub open spec fn well_formed(self, walk_data: &WalkData) -> bool {
        &&& walk_data.in_range()
        &&& is_forest(self.dirs, self.followed.len() as int)
        &&& waits(self.dirs, -1)
        &&& *walk_data.by_filetime is None ==> total_load(walk_data.by_filecount, self.dirs)
            + total_size(self.top_level) <= self.ledger
    }

    /// Every directory is finished.
    pub open spec fn all_finished(self) -> bool {
        forall|i: int| 0 <= i < self.dirs.len() ==> (#[trigger] self.dirs[i]).pending == 0
    }

    /// The entries of every directory have been dealt with.
    pub open spec fn all_scanned(self) -> bool {
        forall|i: int| 0 <= i < self.dirs.len() ==> (#[trigger] self.dirs[i]).scanned
    }
}

/// A walk whose directories have all been scanned is finished: no directory
/// waits for anything any more.
pub proof fn lemma_scanned_is_finished(w: WalkView, walk_data: &WalkData)
    requires
        w.well_formed(walk_data),
        w.all_scanned(),
    ensures
        w.all_finished(),
{
    lemma_finished_from(w, walk_data, 0);
}

proof fn lemma_finished_from(w: WalkView, walk_data: &WalkData, i: int)
    requires
        w.well_formed(walk_data),
        w.all_scanned(),
        0 <= i <= w.dirs.len(),
    ensures
        forall|j: int| i <= j < w.dirs.len() ==> (#[trigger] w.dirs[j]).pending == 0,
    decreases w.dirs.len() - i,
{
    if i < w.dirs.len() {
        lemma_finished_from(w, walk_data, i + 1);
        let f = |d: DirView| is_live_child(d, i);
        assert forall|j: int| 0 <= j < w.dirs.len() implies f(#[trigger] w.dirs[j]) == 0 by {
            assert(is_placed(w.dirs, j, w.followed.len() as int));
        }
        lemma_total_zero(w.dirs, f);
        assert(w.dirs[i].pending == own_scan(w.dirs[i]) + live_children(w.dirs, i));
    }
}

// --------------------------------------------------------------------------
// The walk
// --------------------------------------------------------------------------

/// A walk under way.
pub struct Walk<'a> {
    walk_data: &'a WalkData<'a>,
    dirs: Vec<PendingDir>,
    followed: Vec<IdSet>,
    inodes: InodeSet,
    top_level: Vec<Node>,
    progress: PAtomicInfo,
    errors: RuntimeErrors,
    ledger: u64,
}

impl<'a> View for Walk<'a> {
    type V = WalkView;

    closed spec fn view(&self) -> WalkView {
        WalkView {
            dirs: self.dirs@.map_values(|d: PendingDir| d@),
            followed: self.followed@.map_values(|ids: IdSet| ids@),
            inodes: self.inodes@,
            errors: self.errors@,
            num_files: self.progress.num_files,
            total_file_size: self.progress.total_file_size,
            state: self.progress.state,
            current_path: self.progress.current_path@,
            top_level: node_views(self.top_level@),
            ledger: self.ledger,
        }
    }
}

/// The entries of a walk, with entries of this weight added, measure together
/// what a size can hold.
pub open spec fn has_room(walk_data: &WalkData, w: WalkView, more: int) -> bool {
    *walk_data.by_filetime is None ==> w.ledger + more <= u64::MAX
}

/// The ledger after entries of this weight were added.
pub open spec fn ledger_with(walk_data: &WalkData, w: WalkView, more: int) -> u64 {
    if *walk_data.by_filetime is None {
        (w.ledger + more) as u64
    } else {
        w.ledger
    }
}

/// The state of a walk before its first root.
pub open spec fn empty_walk() -> WalkView {
    WalkView {
        dirs: Seq::empty(),
        followed: Seq::empty(),
        inodes: Set::empty(),
        errors: ErrorsView {
            no_permissions: Seq::empty(),
            file_not_found: Seq::empty(),
            not_a_directory: Seq::empty(),
            eintr_exhausted: Seq::empty(),
            unknown_error: Seq::empty(),
            metadata_unavailable: Seq::empty(),
            interrupted_error: 0,
        },
        num_files: 0,
        total_file_size: 0,
        state: Operation::INDEXING,
        current_path: Seq::empty(),
        top_level: Seq::empty(),
        ledger: 0,
    }
}

/// A root that is yet to be walked.
pub open spec fn root_dir(d: PathView, metadata: Option<EntryMetadata>, root: int) -> DirView {
    DirView {
        dir: d,
        depth: 0,
        kind: DirKind::StatClassified,
        metadata,
        root: root as usize,
        parent: None,
        scanned: false,
        pending: 1,
        children: Seq::empty(),
    }
}

/// The state of a walk after a root was added. A root that was claimed before
/// is not walked again.
pub open spec fn root_added(
    walk_data: &WalkData,
    w: WalkView,
    d: PathView,
    metadata: Option<EntryMetadata>,
) -> WalkView {
    let begun = WalkView {
        followed: w.followed.push(
            match id_of(metadata) {
                Some(id) => Set::empty().insert(id),
                None => Set::empty(),
            },
        ),
        inodes: claimed_after(walk_data, metadata, w.inodes),
        num_files: 0,
        total_file_size: 0,
        state: Operation::INDEXING,
        current_path: path_text(d),
        ..w
    };
    if claimed_before(walk_data, metadata, w.inodes) {
        begun
    } else {
        WalkView {
            dirs: w.dirs.push(root_dir(d, metadata, w.followed.len() as int)),
            ledger: ledger_with(walk_data, w, weight(walk_data.by_filecount, metadata)),
            ..begun
        }
    }
}

pub(crate) proof fn lemma_dir_pushed(dirs: Seq<DirView>, d: DirView, roots: int, counting: bool)
    requires
        is_forest(dirs, roots),
        waits(dirs, -1),
        d.parent is None,
        d.depth == 0,
        d.root < roots,
        d.pending == 1,
        !d.scanned,
    ensures
        is_forest(dirs.push(d), roots),
        waits(dirs.push(d), -1),
        total_load(counting, dirs.push(d)) == total_load(counting, dirs) + load(counting, d),
{
    let now = dirs.push(d);
    assert forall|j: int| 0 <= j < now.len() implies #[trigger] is_placed(now, j, roots) by {
        if j < dirs.len() {
            assert(is_placed(dirs, j, roots));
        }
    }
    assert forall|i: int| 0 <= i < now.len() implies (#[trigger] now[i]).pending == own_scan(now[i])
        + live_children(now, i) by {
        let f = |x: DirView| is_live_child(x, i);
        lemma_total_push(dirs, d, f);
        if i < dirs.len() {
            assert(now[i] == dirs[i]);
        } else {
            assert forall|j: int| 0 <= j < dirs.len() implies f(#[trigger] dirs[j]) == 0 by {
                assert(is_placed(dirs, j, roots));
            }
            lemma_total_zero(dirs, f);
        }
    }
    lemma_total_push(dirs, d, |x: DirView| load(counting, x));
}

impl<'a> Walk<'a> {
    /// The options of the walk.
    pub closed spec fn options(&self) -> &'a WalkData<'a> {
        self.walk_data
    }

    /// The state is one that a walk can be in.
    pub open spec fn well_formed(&self) -> bool {
        self@.well_formed(self.options())
    }

    /// A walk without roots.
    pub fn new(walk_data: &'a WalkData<'a>) -> (r: Self)
        requires
            walk_data.in_range(),
        ensures
            r.well_formed(),
            r.options() == walk_data,
            r@ == empty_walk(),
    {
        let r = Walk {
            walk_data,
            dirs: Vec::new(),
            followed: Vec::new(),
            inodes: InodeSet::new(),
            top_level: Vec::new(),
            progress: PAtomicInfo::default(),
            errors: RuntimeErrors::default(),
            ledger: 0,
        };
        assert(r@ =~= empty_walk()) by {
            assert(r@.dirs =~= Seq::empty());
            assert(r@.followed =~= Seq::empty());
            assert(r@.top_level =~= Seq::empty());
            assert(r@.current_path =~= Seq::empty());
            assert(r@.errors =~= empty_walk().errors);
        }
        r
    }

    /// Tells whether a root with this metadata can be added: it was counted
    /// before, or there is room for it.
    pub fn has_room_for(&self, metadata: &Option<EntryMetadata>) -> (r: bool)
        ensures
            r == (claimed_before(self.options(), *metadata, self@.inodes) || has_room(
                self.options(),
                self@,
                weight(self.options().by_filecount, *metadata),
            )),
    {
        let is_claimed = match metadata {
            Some((_, Some(id), _)) => !self.walk_data.use_apparent_size && self.inodes.contains(
                *id,
            ),
            _ => false,
        };
        is_claimed || self.walk_data.by_filetime.is_some() || self.ledger.checked_add(
            weigh(self.walk_data.by_filecount, metadata),
        ).is_some()
    }

    /// Adds a root with the metadata of what it names. Returns the number of the
    /// directory to walk, unless another root or entry with the same identity
    /// was counted before.
    pub fn add_root(&mut self, d: PathBuf, metadata: Option<EntryMetadata>) -> (r: Option<usize>)
        requires
            old(self).well_formed(),
            claimed_before(old(self).options(), metadata, old(self)@.inodes) || has_room(
                old(self).options(),
                old(self)@,
                weight(old(self).options().by_filecount, metadata),
            ),
        ensures
            final(self).well_formed(),
            final(self).options() == old(self).options(),
            final(self)@ == root_added(old(self).options(), old(self)@, d@, metadata),
            r == (if claimed_before(old(self).options(), metadata, old(self)@.inodes) {
                None
            } else {
                Some(old(self)@.dirs.len() as usize)
            }),
    {
        let ghost w = self@;
        let ghost roots = self@.followed.len() as int;
        self.progress.clear_state(&d);
        let mut ids = IdSet::new();
        if let Some((_, Some(id), _)) = &metadata {
            ids.insert(*id);
        }
        let root = self.followed.len();
        self.followed.push(ids);
        let duplicate = is_duplicate_inode(metadata.as_ref(), self.walk_data, &mut self.inodes);
        proof {
            assert(self@.dirs == w.dirs);
            assert(self@.followed =~= root_added(self.options(), w, d@, metadata).followed);
            assert forall|j: int| 0 <= j < w.dirs.len() implies #[trigger] is_placed(
                w.dirs,
                j,
                roots + 1,
            ) by {
                assert(is_placed(w.dirs, j, roots));
            }
        }
        if duplicate {
            assert(self@ =~= root_added(self.options(), w, d@, metadata));
            return None;
        }
        if self.walk_data.by_filetime.is_none() {
            self.ledger = self.ledger + weigh(self.walk_data.by_filecount, &metadata);
        }
        let index = self.dirs.len();
        let dir = PendingDir {
            dir: d,
            depth: 0,
            kind: DirKind::StatClassified,
            metadata,
            root,
            parent: None,
            scanned: false,
            pending: 1,
            children: Vec::new(),
        };
        self.dirs.push(dir);
        proof {
            assert(dir@ =~= root_dir(d@, metadata, roots)) by {
                assert(dir@.children =~= Seq::empty());
            }
            assert(self@.dirs =~= w.dirs.push(dir@));
            lemma_dir_pushed(w.dirs, dir@, roots + 1, self.options().by_filecount);
            assert(total_size(dir@.children) == 0);
            assert(self@ =~= root_added(self.options(), w, d@, metadata));
        }
        Some(index)
    }
}

/// The most that an entry can measure by itself.
fn weigh(counting: bool, metadata: &Option<EntryMetadata>) -> (r: u64)
    ensures
        r == weight(counting, *metadata),
{
    match metadata {
        None => 0,
        Some(data) => if counting {
            1
        } else {
            data.0
        },
    }
}

/// What leaves measure, and what subdirectories can come to, together.
fn measure_scan(counting: bool, nodes: &Vec<Node>, dirs: &Vec<Subdirectory>) -> (r: u64)
    requires
        total_size(node_views(nodes@)) + total_weight(counting, subdirectory_views(dirs@))
            <= u64::MAX,
    ensures
        r == total_size(node_views(nodes@)) + total_weight(counting, subdirectory_views(dirs@)),
{
    let ghost views = subdirectory_views(dirs@);
    let ghost f = |d: SubdirectoryView| weight(counting, d.metadata);
    proof {
        lemma_total_not_negative(views, f);
    }
    let mut sum = fold_size(&None, 0, nodes);
    let mut i: usize = 0;
    assert(views.take(0) =~= Seq::empty());
    while i < dirs.len()
        invariant
            i <= dirs.len(),
            views == subdirectory_views(dirs@),
            f == (|d: SubdirectoryView| weight(counting, d.metadata)),
            total_size(node_views(nodes@)) + total_weight(counting, views) <= u64::MAX,
            sum == total_size(node_views(nodes@)) + total(views.take(i as int), f),
        decreases dirs.len() - i,
    {
        proof {
            assert(views.take(i + 1).drop_last() =~= views.take(i as int));
            assert(views.take(i + 1).last() == dirs@[i as int]@);
            assert(views.take(i + 1) + views.skip(i + 1) =~= views);
            lemma_total_append(views.take(i + 1), views.skip(i + 1), f);
            lemma_total_not_negative(views.skip(i + 1), f);
        }
        sum = sum + weigh(counting, &dirs[i].metadata);
        i += 1;
    }
    assert(views.take(dirs.len() as int) =~= views);
    sum
}

// --------------------------------------------------------------------------
// Looking at a directory
// --------------------------------------------------------------------------

/// What is known of a path once it was looked at: whether it leads to a
/// directory or to a regular file, and, if something of that name exists,
/// whether it is a link.
#[derive(Debug, Clone, Copy, PartialEq, Eq, Structural)]
pub struct PathFacts {
    pub is_dir: bool,
    pub is_file: bool,
    pub link: Option<bool>,
}

/// How a path is dealt with.
#[derive(Debug, Clone, Copy, PartialEq, Eq, Structural)]
pub enum PathClass {
    /// It is a directory: its entries are to be listed.
    Directory,
    /// It is a regular file.
    File,
    /// It exists, but is neither.
    NotADirectory,
    /// It does not exist, or is a link to nothing.
    NotFound,
}

/// How a path is dealt with, given how it is known to be a directory and what
/// is known of it.
pub open spec fn path_class(kind: DirKind, facts: PathFacts) -> PathClass {
    if kind == DirKind::TypedDir || facts.is_dir {
        PathClass::Directory
    } else if facts.is_file {
        PathClass::File
    } else if facts.link == Some(false) {
        PathClass::NotADirectory
    } else {
        PathClass::NotFound
    }
}

/// Decides how a path is dealt with.
pub fn classify(kind: DirKind, facts: &PathFacts) -> (r: PathClass)
    ensures
        r == path_class(kind, *facts),
{
    if kind == DirKind::TypedDir || facts.is_dir {
        PathClass::Directory
    } else if facts.is_file {
        PathClass::File
    } else {
        match facts.link {
            Some(false) => PathClass::NotADirectory,
            _ => PathClass::NotFound,
        }
    }
}

/// The messages after a path was looked at.
pub open spec fn class_recorded(errors: ErrorsView, class: PathClass, path: PathView) -> ErrorsView {
    match class {
        PathClass::NotADirectory => ErrorsView {
            not_a_directory: recorded(errors.not_a_directory, path_text(path)),
            ..errors
        },
        PathClass::NotFound => ErrorsView {
            file_not_found: recorded(errors.file_not_found, path_text(path)),
            ..errors
        },
        _ => errors,
    }
}

/// The outcome of one attempt to list a directory.
pub enum Reading {
    Unreadable(Failure),
    Items(Vec<Listed>),
}

/// The outcome of one attempt to list a directory, as a value.
pub enum ReadingView {
    Unreadable(crate::dir_walker::FailureKind, Seq<char>),
    Items(Seq<ListedView>),
}

impl View for Reading {
    type V = ReadingView;

    open spec fn view(&self) -> ReadingView {
        match self {
            Reading::Unreadable(failed) => ReadingView::Unreadable(failed.kind, failed.message@),
            Reading::Items(listing) => ReadingView::Items(listing_view(listing@)),
        }
    }
}

/// What follows from an attempt to list a directory.
#[derive(Debug, Clone, Copy, PartialEq, Eq, Structural)]
pub enum Step {
    /// The directory is to be listed again; so many retries have been made.
    Again(u32),
    /// The directory is given up.
    GivenUp,
    /// The listing was taken; the directories found in it are the `count` ones
    /// from the number `first` on.
    Taken { first: usize, count: usize },
}

/// How often an interrupted listing is tried again.
pub const MAX_EINTR_RETRIES: u32 = 999;

/// The failure of an attempt that failed as a whole: the directory could not be
/// read, or an item of its listing was interrupted.
pub open spec fn attempt_failure(
    reading: ReadingView,
) -> Option<(crate::dir_walker::FailureKind, Seq<char>)> {
    match reading {
        ReadingView::Unreadable(kind, message) => Some((kind, message)),
        ReadingView::Items(listing) => match first_retryable(listing) {
            None => None,
            Some(i) => match listing[i] {
                ListedView::Failed(kind, message) => Some((kind, message)),
                ListedView::Found(_) => None,
            },
        },
    }
}

/// An interruption can still be counted.
pub open spec fn can_record(w: WalkView, reading: ReadingView) -> bool {
    attempt_failure(reading) matches Some((kind, _)) ==> retryable(kind)
        ==> w.errors.interrupted_error < i32::MAX
}

/// A failed attempt is followed by another one.
pub open spec fn tried_again(kind: crate::dir_walker::FailureKind, retries: u32) -> bool {
    retryable(kind) && retries < MAX_EINTR_RETRIES
}

/// The messages after a failed attempt.
pub open spec fn attempt_recorded(
    errors: ErrorsView,
    kind: crate::dir_walker::FailureKind,
    message: Seq<char>,
    dir: PathView,
    retries: u32,
) -> ErrorsView {
    let once = failure_recorded(errors, kind, message, path_text(dir));
    if retryable(kind) && retries >= MAX_EINTR_RETRIES {
        exhausted_recorded(once, dir)
    } else {
        once
    }
}

/// The directory that a subdirectory found in the directory `parent` becomes.
pub open spec fn branch(root: usize, parent: int, d: SubdirectoryView) -> DirView {
    DirView {
        dir: d.dir,
        depth: d.depth,
        kind: d.kind,
        metadata: d.metadata,
        root,
        parent: Some(parent as usize),
        scanned: false,
        pending: 1,
        children: Seq::empty(),
    }
}

/// The directories after leaves and subdirectories were found in the directory
/// `i`.
pub open spec fn branched(
    dirs: Seq<DirView>,
    i: int,
    nodes: Seq<NodeView>,
    found: Seq<SubdirectoryView>,
) -> Seq<DirView> {
    dirs.update(
        i,
        DirView {
            pending: (dirs[i].pending + found.len()) as usize,
            children: dirs[i].children + nodes,
            ..dirs[i]
        },
    ) + found.map_values(|d: SubdirectoryView| branch(dirs[i].root, i, d))
}

/// What a scan starts from.
pub open spec fn scan_start(w: WalkView, root: int) -> ScanView {
    ScanView {
        inodes: w.inodes,
        followed: w.followed[root],
        errors: w.errors,
        num_files: w.num_files,
        total_file_size: w.total_file_size,
        nodes: Seq::empty(),
        dirs: Seq::empty(),
    }
}

/// What a listing of the directory `i` brings together.
pub open spec fn scan_of(
    walk_data: &WalkData,
    w: WalkView,
    i: int,
    canonical_dir: Option<PathView>,
    listing: Seq<ListedView>,
) -> ScanView {
    listing_scanned(
        walk_data,
        w.dirs[i].dir,
        w.dirs[i].depth,
        canonical_dir,
        scan_start(w, w.dirs[i].root as int),
        listing,
    )
}

/// The state of a walk after a listing of the directory `i` was taken.
pub open spec fn listing_taken(
    walk_data: &WalkData,
    w: WalkView,
    i: int,
    canonical_dir: Option<PathView>,
    listing: Seq<ListedView>,
) -> WalkView {
    let s = scan_of(walk_data, w, i, canonical_dir, listing);
    WalkView {
        dirs: branched(w.dirs, i, s.nodes, s.dirs),
        followed: w.followed.update(w.dirs[i].root as int, s.followed),
        inodes: s.inodes,
        errors: s.errors,
        num_files: s.num_files,
        total_file_size: s.total_file_size,
        ledger: ledger_with(walk_data, w, scan_weight(walk_data, s)),
        ..w
    }
}

/// What subdirectories can come to together.
pub open spec fn total_weight(counting: bool, dirs: Seq<SubdirectoryView>) -> int {
    total(dirs, |d: SubdirectoryView| weight(counting, d.metadata))
}

/// The most that what a listing brings can come to.
pub open spec fn scan_weight(walk_data: &WalkData, s: ScanView) -> int {
    total_size(s.nodes) + total_weight(walk_data.by_filecount, s.dirs)
}

/// There is room for what an attempt to list the directory `i` brings.
pub open spec fn fits_reading(
    walk_data: &WalkData,
    w: WalkView,
    i: int,
    canonical_dir: Option<PathView>,
    reading: ReadingView,
) -> bool {
    attempt_failure(reading) is None ==> has_room(
        walk_data,
        w,
        scan_weight(walk_data, scan_of(walk_data, w, i, canonical_dir, reading->Items_0)),
    )
}

/// What a listing brings weighs no less than what a part of it does.
proof fn lemma_scan_weight_grows(
    walk_data: &WalkData,
    dir: PathView,
    depth: usize,
    canonical_dir: Option<PathView>,
    start: ScanView,
    listing: Seq<ListedView>,
    k: int,
)
    requires
        0 <= k <= listing.len(),
    ensures
        scan_weight(
            walk_data,
            listing_scanned(walk_data, dir, depth, canonical_dir, start, listing.take(k)),
        ) <= scan_weight(
            walk_data,
            listing_scanned(walk_data, dir, depth, canonical_dir, start, listing),
        ),
    decreases listing.len(),
{
    if k == listing.len() {
        assert(listing.take(k) =~= listing);
    } else {
        let rest = listing.drop_last();
        lemma_scan_weight_grows(walk_data, dir, depth, canonical_dir, start, rest, k);
        assert(rest.take(k) =~= listing.take(k));
        let before = listing_scanned(walk_data, dir, depth, canonical_dir, start, rest);
        match listing.last() {
            ListedView::Found(e) => {
                lemma_total_push(
                    before.dirs,
                    crate::dir_walker::subdirectory(depth, e),
                    |d: SubdirectoryView| weight(walk_data.by_filecount, d.metadata),
                );
                if leaf_node(walk_data, depth, e) is Some {
                    lemma_total_push(
                        before.nodes,
                        leaf_node(walk_data, depth, e)->Some_0,
                        |n: NodeView| n.size as int,
                    );
                }
            },
            ListedView::Failed(_, _) => {},
        }
    }
}

/// What a listing brings measures no more than the listing weighs, and the
/// directories found in it lie one level below.
pub(crate) proof fn lemma_scan_weight(
    walk_data: &WalkData,
    dir: PathView,
    depth: usize,
    canonical_dir: Option<PathView>,
    start: ScanView,
    listing: Seq<ListedView>,
)
    requires
        depth < usize::MAX,
        start.nodes.len() == 0,
        start.dirs.len() == 0,
    ensures
        ({
            let s = listing_scanned(walk_data, dir, depth, canonical_dir, start, listing);
            &&& *walk_data.by_filetime is None ==> total_size(s.nodes) + total_weight(
                walk_data.by_filecount,
                s.dirs,
            ) <= listing_weight(walk_data.by_filecount, listing)
            &&& forall|k: int| 0 <= k < s.dirs.len() ==> (#[trigger] s.dirs[k]).depth == depth + 1
        }),
    decreases listing.len(),
{
    if listing.len() > 0 {
        let rest = listing.drop_last();
        lemma_scan_weight(walk_data, dir, depth, canonical_dir, start, rest);
        let before = listing_scanned(walk_data, dir, depth, canonical_dir, start, rest);
        let now = listing_scanned(walk_data, dir, depth, canonical_dir, start, listing);
        match listing.last() {
            ListedView::Found(e) => {
                lemma_total_push(
                    before.dirs,
                    crate::dir_walker::subdirectory(depth, e),
                    |d: SubdirectoryView| weight(walk_data.by_filecount, d.metadata),
                );
                if leaf_node(walk_data, depth, e) is Some {
                    lemma_total_push(
                        before.nodes,
                        leaf_node(walk_data, depth, e)->Some_0,
                        |n: NodeView| n.size as int,
                    );
                }
                assert forall|k: int| 0 <= k < now.dirs.len() implies (
                #[trigger] now.dirs[k]).depth == depth + 1 by {
                    if k < before.dirs.len() {
                        assert(now.dirs[k] == before.dirs[k]);
                    }
                }
            },
            ListedView::Failed(_, _) => {},
        }
    }
}

/// Finding leaves and subdirectories keeps the directories in order.
pub(crate) proof fn lemma_branched(
    dirs: Seq<DirView>,
    i: int,
    nodes: Seq<NodeView>,
    found: Seq<SubdirectoryView>,
    roots: int,
    counting: bool,
)
    requires
        is_forest(dirs, roots),
        waits(dirs, -1),
        0 <= i < dirs.len(),
        !dirs[i].scanned,
        dirs.len() + found.len() <= usize::MAX,
        forall|k: int| 0 <= k < found.len() ==> (#[trigger] found[k]).depth == dirs[i].depth + 1,
    ensures
        is_forest(branched(dirs, i, nodes, found), roots),
        waits(branched(dirs, i, nodes, found), -1),
        dirs[i].pending + found.len() <= usize::MAX,
        total_load(counting, branched(dirs, i, nodes, found)) == total_load(counting, dirs)
            + total_size(nodes) + total_weight(counting, found),
    decreases found.len(),
{
    assert(is_placed(dirs, i, roots));
    let now = branched(dirs, i, nodes, found);
    let g = |d: DirView| load(counting, d);
    let grown = DirView { children: dirs[i].children + nodes, ..dirs[i] };
    assert(dirs[i].pending == own_scan(dirs[i]) + live_children(dirs, i));
    assert(live_children(dirs, i) >= 0) by {
        lemma_total_not_negative(dirs, |d: DirView| is_live_child(d, i));
    }
    if found.len() == 0 {
        assert(now =~= dirs.update(i, grown));
        assert forall|j: int| 0 <= j < now.len() implies #[trigger] is_placed(now, j, roots) by {
            assert(is_placed(dirs, j, roots));
        }
        assert forall|k: int| 0 <= k < now.len() implies (#[trigger] now[k]).pending == own_scan(
            now[k],
        ) + live_children(now, k) by {
            lemma_total_update(dirs, i, grown, |d: DirView| is_live_child(d, k));
            assert(dirs[k].pending == own_scan(dirs[k]) + live_children(dirs, k));
        }
        lemma_total_update(dirs, i, grown, g);
        lemma_total_append(dirs[i].children, nodes, |n: NodeView| n.size as int);
    } else {
        let fewer = found.drop_last();
        assert forall|k: int| 0 <= k < fewer.len() implies (#[trigger] fewer[k]).depth
            == dirs[i].depth + 1 by {
            assert(fewer[k] == found[k]);
        }
        lemma_branched(dirs, i, nodes, fewer, roots, counting);
        let before = branched(dirs, i, nodes, fewer);
        let child = branch(dirs[i].root, i, found.last());
        let fi = |d: DirView| is_live_child(d, i);
        assert(before.len() == dirs.len() + fewer.len());
        assert(found[found.len() - 1].depth == dirs[i].depth + 1);
        assert(before[i].pending == own_scan(before[i]) + live_children(before, i));
        assert(is_placed(before, i, roots));
        lemma_total_of_bits(before, i, fi);
        assert(before[i].pending < usize::MAX);
        let raised = DirView { pending: (before[i].pending + 1) as usize, ..before[i] };
        assert(now =~= before.update(i, raised).push(child)) by {
            assert(now.len() == before.len() + 1);
            assert(now[i] =~= raised);
            assert forall|k: int| 0 <= k < now.len() implies now[k] == before.update(
                i,
                raised,
            ).push(child)[k] by {
                if k >= dirs.len() && k < before.len() {
                    assert(fewer[k - dirs.len()] == found[k - dirs.len()]);
                }
            }
        }
        assert forall|j: int| 0 <= j < now.len() implies #[trigger] is_placed(now, j, roots) by {
            if j < before.len() {
                assert(is_placed(before, j, roots));
            }
        }
        assert forall|k: int| 0 <= k < now.len() implies (#[trigger] now[k]).pending == own_scan(
            now[k],
        ) + live_children(now, k) by {
            let f = |d: DirView| is_live_child(d, k);
            lemma_total_update(before, i, raised, f);
            lemma_total_push(before.update(i, raised), child, f);
            if k < before.len() {
                assert(before[k].pending == own_scan(before[k]) + live_children(before, k));
            } else {
                assert forall|j: int| 0 <= j < before.len() implies f(#[trigger] before[j]) == 0 by {
                    assert(is_placed(before, j, roots));
                }
                lemma_total_zero(before, f);
            }
        }
        lemma_total_update(before, i, raised, g);
        lemma_total_push(before.update(i, raised), child, g);
        assert(total_size(child.children) == 0);
        assert(found.drop_last().push(found.last()) =~= found);
    }
}

/// Weighs what a listing would bring, if a size can hold it, without taking it.
fn weigh_scan(
    dir: &PathBuf,
    depth: usize,
    listing: &Vec<Listed>,
    canonical_dir: Option<&PathBuf>,
    walk_data: &WalkData,
    inodes: &InodeSet,
    followed: &IdSet,
    Ghost(start): Ghost<ScanView>,
) -> (r: Option<u64>)
    requires
        walk_data.in_range(),
        *walk_data.by_filetime is None,
        start.inodes == inodes@,
        start.followed == followed@,
        start.nodes.len() == 0,
        start.dirs.len() == 0,
    ensures
        ({
            let s = listing_scanned(
                walk_data,
                dir@,
                depth,
                maybe_path(canonical_dir),
                start,
                listing_view(listing@),
            );
            match r {
                Some(sum) => sum == scan_weight(walk_data, s),
                None => scan_weight(walk_data, s) > u64::MAX,
            }
        }),
{
    let ghost view = listing_view(listing@);
    let ghost canonical = maybe_path(canonical_dir);
    let counting = walk_data.by_filecount;
    let mut claimed = IdSet::new();
    let mut visited = IdSet::new();
    let mut sum: u64 = 0;
    let mut k: usize = 0;
    assert(view.take(0) =~= Seq::empty());
    while k < listing.len()
        invariant
            k <= listing.len(),
            view == listing_view(listing@),
            canonical == maybe_path(canonical_dir),
            counting == walk_data.by_filecount,
            walk_data.in_range(),
            *walk_data.by_filetime is None,
            ({
                let s = listing_scanned(
                    walk_data,
                    dir@,
                    depth,
                    canonical,
                    start,
                    view.take(k as int),
                );
                &&& sum == scan_weight(walk_data, s)
                &&& forall|id: FileId| #[trigger]
                    s.inodes.contains(id) <==> inodes@.contains(id) || claimed@.contains(id)
                &&& forall|id: FileId| #[trigger]
                    s.followed.contains(id) <==> followed@.contains(id) || visited@.contains(id)
            }),
        decreases listing.len() - k,
    {
        let ghost s = listing_scanned(
            walk_data,
            dir@,
            depth,
            canonical,
            start,
            view.take(k as int),
        );
        let ghost next = listing_scanned(
            walk_data,
            dir@,
            depth,
            canonical,
            start,
            view.take(k + 1),
        );
        proof {
            assert(view.take(k + 1).drop_last() =~= view.take(k as int));
            assert(view.take(k + 1).last() == listing@[k as int]@);
            lemma_scan_weight_grows(walk_data, dir@, depth, canonical, start, view, k + 1);
        }
        let mut more: u64 = 0;
        if let Listed::Found(entry) = &listing[k] {
            proof {
                lemma_total_push(
                    s.dirs,
                    crate::dir_walker::subdirectory(depth, entry@),
                    |d: SubdirectoryView| weight(walk_data.by_filecount, d.metadata),
                );
                if leaf_node(walk_data, depth, entry@) is Some {
                    lemma_total_push(
                        s.nodes,
                        leaf_node(walk_data, depth, entry@)->Some_0,
                        |n: NodeView| n.size as int,
                    );
                }
            }
            let is_file = match entry.kind {
                Some(EntryKind::File) => true,
                _ => false,
            };
            let follow = follows(walk_data, entry.kind);
            let is_passed_over = entry.kind.is_none() || ignore_file(
                &entry.path,
                is_file,
                entry.metadata.as_ref(),
                canonical_dir,
                entry.resolved.as_ref(),
                walk_data,
            );
            let id: Option<FileId> = match &entry.metadata {
                Some((_, Some(id), _)) => Some(*id),
                _ => None,
            };
            assert(id == id_of(entry.metadata));
            let is_claimed = match id {
                Some(id) => !walk_data.use_apparent_size && (inodes.contains(id)
                    || claimed.contains(id)),
                None => false,
            };
            let is_outside = is_foreign(walk_data, entry.metadata.as_ref());
            let is_visited = match id {
                Some(id) => followed.contains(id) || visited.contains(id),
                None => false,
            };
            let fate = decide(
                entry.kind,
                is_passed_over,
                is_claimed,
                follow,
                is_outside,
                is_visited,
            );
            assert(fate == crate::dir_walker::fate(
                walk_data,
                canonical,
                s.inodes,
                s.followed,
                entry@,
            ));
            if !is_passed_over && !walk_data.use_apparent_size {
                if let Some(id) = id {
                    claimed.insert(id);
                }
            }
            match fate {
                Fate::Descend => {
                    if follow {
                        if let Some(id) = id {
                            visited.insert(id);
                        }
                    }
                    more = weigh(counting, &entry.metadata);
                },
                Fate::Leaf => {
                    if let Some(data) = &entry.metadata {
                        more = measure_alone(&entry.path, is_file, is_file, walk_data, data);
                    }
                },
                _ => {},
            }
        }
        assert(scan_weight(walk_data, next) == sum + more);
        sum = match sum.checked_add(more) {
            Some(sum) => sum,
            None => {
                return None;
            },
        };
        k += 1;
    }
    assert(view.take(listing.len() as int) =~= view);
    Some(sum)
}

impl<'a> Walk<'a> {
    /// Tells whether the outcome of an attempt to list a directory can be recorded:
    /// an interruption has to be counted.
    pub fn can_record(&self, reading: &Reading) -> (r: bool)
        ensures
            r == can_record(self@, reading@),
    {
        let interrupted = match reading {
            Reading::Unreadable(failed) => is_retryable(failed),
            Reading::Items(listing) => find_retryable(listing).is_some(),
        };
        !interrupted || self.errors.interrupted_error < i32::MAX
    }

    /// Tells whether there is room for what a listing of the directory `i` brings.
    pub fn has_room_for_all(
        &self,
        i: usize,
        listing: &Vec<Listed>,
        canonical_dir: Option<&PathBuf>,
    ) -> (r: bool)
        requires
            self.well_formed(),
            i < self@.dirs.len(),
        ensures
            r == has_room(
                self.options(),
                self@,
                scan_weight(
                    self.options(),
                    scan_of(
                        self.options(),
                        self@,
                        i as int,
                        maybe_path(canonical_dir),
                        listing_view(listing@),
                    ),
                ),
            ),
    {
        if self.walk_data.by_filetime.is_some() {
            return true;
        }
        let ghost root = self@.dirs[i as int].root as int;
        proof {
            assert(is_placed(self@.dirs, i as int, self@.followed.len() as int));
            let count = self.dirs.len();
            lemma_scan_weight(
                self.options(),
                self@.dirs[i as int].dir,
                self@.dirs[i as int].depth,
                maybe_path(canonical_dir),
                scan_start(self@, root),
                listing_view(listing@),
            );
        }
        // where everything that is listed fits, so does what is kept of it
        if self.all_fit(listing) {
            return true;
        }
        match weigh_scan(
            &self.dirs[i].dir,
            self.dirs[i].depth,
            listing,
            canonical_dir,
            self.walk_data,
            &self.inodes,
            &self.followed[self.dirs[i].root],
            Ghost(scan_start(self@, root)),
        ) {
            Some(more) => self.ledger.checked_add(more).is_some(),
            None => false,
        }
    }

    /// Tells whether there is room for all entries of a listing together.
    fn all_fit(&self, listing: &Vec<Listed>) -> (r: bool)
        requires
            *self.options().by_filetime is None,
        ensures
            r == (self@.ledger + listing_weight(
                self.options().by_filecount,
                listing_view(listing@),
            ) <= u64::MAX),
    {
        let counting = self.walk_data.by_filecount;
        let ghost view = listing_view(listing@);
        let ghost f = |item: ListedView|
            match item {
                ListedView::Found(e) => weight(counting, e.metadata),
                ListedView::Failed(_, _) => 0,
            };
        let mut sum: u64 = self.ledger;
        let mut i: usize = 0;
        assert(view.take(0) =~= Seq::empty());
        while i < listing.len()
            invariant
                i <= listing.len(),
                counting == self.walk_data.by_filecount,
                view == listing_view(listing@),
                f == (|item: ListedView|
                    match item {
                        ListedView::Found(e) => weight(counting, e.metadata),
                        ListedView::Failed(_, _) => 0,
                    }),
                sum == self.ledger + total(view.take(i as int), f),
            decreases listing.len() - i,
        {
            proof {
                assert(view.take(i + 1).drop_last() =~= view.take(i as int));
                assert(view.take(i + 1).last() == listing@[i as int]@);
                assert(view.take(i + 1) + view.skip(i + 1) =~= view);
                lemma_total_append(view.take(i + 1), view.skip(i + 1), f);
                lemma_total_not_negative(view.skip(i + 1), f);
            }
            let more: u64 = match &listing[i] {
                Listed::Found(entry) => weigh(counting, &entry.metadata),
                Listed::Failed(_) => 0,
            };
            sum = match sum.checked_add(more) {
                Some(sum) => sum,
                None => {
                    return false;
                },
            };
            i += 1;
        }
        assert(view.take(listing.len() as int) =~= view);
        true
    }

    /// The path of a directory.
    pub fn dir_path(&self, i: usize) -> (r: &PathBuf)
        requires
            i < self@.dirs.len(),
        ensures
            r@ == self@.dirs[i as int].dir,
    {
        &self.dirs[i].dir
    }

    /// How a directory is known to be one.
    pub fn dir_kind(&self, i: usize) -> (r: DirKind)
        requires
            i < self@.dirs.len(),
        ensures
            r == self@.dirs[i as int].kind,
    {
        self.dirs[i].kind
    }

    /// Decides how the directory `i` is dealt with, and records where it is
    /// none.
    pub fn look_at(&mut self, i: usize, facts: &PathFacts) -> (r: PathClass)
        requires
            old(self).well_formed(),
            i < old(self)@.dirs.len(),
        ensures
            final(self).well_formed(),
            final(self).options() == old(self).options(),
            r == path_class(old(self)@.dirs[i as int].kind, *facts),
            final(self)@ == (WalkView {
                errors: class_recorded(old(self)@.errors, r, old(self)@.dirs[i as int].dir),
                ..old(self)@
            }),
    {
        let class = classify(self.dirs[i].kind, facts);
        match class {
            PathClass::NotADirectory => {
                let text = self.dirs[i].dir.to_lossy();
                self.errors.not_a_directory.insert(text);
            },
            PathClass::NotFound => {
                let text = self.dirs[i].dir.to_lossy();
                self.errors.file_not_found.insert(text);
            },
            _ => {},
        }
        class
    }

    /// Records a failed attempt to list the directory `i`, and decides whether
    /// to try again.
    fn attempt_failed(&mut self, i: usize, failed: &Failure, retries: u32) -> (r: Step)
        requires
            i < old(self)@.dirs.len(),
            retries <= MAX_EINTR_RETRIES,
            retryable(failed.kind) ==> old(self)@.errors.interrupted_error < i32::MAX,
        ensures
            final(self).options() == old(self).options(),
            final(self)@ == (WalkView {
                errors: attempt_recorded(
                    old(self)@.errors,
                    failed.kind,
                    failed.message@,
                    old(self)@.dirs[i as int].dir,
                    retries,
                ),
                ..old(self)@
            }),
            r == (if tried_again(failed.kind, retries) {
                Step::Again((retries + 1) as u32)
            } else {
                Step::GivenUp
            }),
    {
        record_error(failed, &self.dirs[i].dir, &mut self.errors);
        if is_retryable(failed) {
            if retries + 1 > MAX_EINTR_RETRIES {
                record_eintr_exhausted(&self.dirs[i].dir, &mut self.errors);
                return Step::GivenUp;
            }
            return Step::Again(retries + 1);
        }
        Step::GivenUp
    }

    /// Takes the outcome of an attempt to list the directory `i`, before which
    /// `retries` retries were made. Nothing of an interrupted listing is kept.
    pub fn take_listing(
        &mut self,
        i: usize,
        reading: Reading,
        canonical_dir: Option<&PathBuf>,
        retries: u32,
    ) -> (r: Step)
        requires
            old(self).well_formed(),
            i < old(self)@.dirs.len(),
            !old(self)@.dirs[i as int].scanned,
            retries <= MAX_EINTR_RETRIES,
            can_record(old(self)@, reading@),
            fits_reading(
                old(self).options(),
                old(self)@,
                i as int,
                maybe_path(canonical_dir),
                reading@,
            ),
        ensures
            final(self).well_formed(),
            final(self).options() == old(self).options(),
            match attempt_failure(reading@) {
                Some((kind, message)) => {
                    &&& final(self)@ == (WalkView {
                        errors: attempt_recorded(
                            old(self)@.errors,
                            kind,
                            message,
                            old(self)@.dirs[i as int].dir,
                            retries,
                        ),
                        ..old(self)@
                    })
                    &&& r == (if tried_again(kind, retries) {
                        Step::Again((retries + 1) as u32)
                    } else {
                        Step::GivenUp
                    })
                },
                None => {
                    let listing = reading@->Items_0;
                    let now = listing_taken(
                        old(self).options(),
                        old(self)@,
                        i as int,
                        maybe_path(canonical_dir),
                        listing,
                    );
                    &&& final(self)@ == now
                    &&& r == (Step::Taken {
                        first: old(self)@.dirs.len() as usize,
                        count: (now.dirs.len() - old(self)@.dirs.len()) as usize,
                    })
                },
            },
    {
        let listing = match reading {
            Reading::Unreadable(failed) => {
                return self.attempt_failed(i, &failed, retries);
            },
            Reading::Items(listing) => listing,
        };
        if let Some(failed) = find_retryable(&listing) {
            return self.attempt_failed(i, failed, retries);
        }
        self.commit_listing(i, listing, canonical_dir)
    }

    /// Takes a listing of the directory `i`.
    fn commit_listing(
        &mut self,
        i: usize,
        listing: Vec<Listed>,
        canonical_dir: Option<&PathBuf>,
    ) -> (r: Step)
        requires
            old(self).well_formed(),
            i < old(self)@.dirs.len(),
            !old(self)@.dirs[i as int].scanned,
            no_interruption(listing_view(listing@)),
            has_room(
                old(self).options(),
                old(self)@,
                scan_weight(
                    old(self).options(),
                    scan_of(
                        old(self).options(),
                        old(self)@,
                        i as int,
                        maybe_path(canonical_dir),
                        listing_view(listing@),
                    ),
                ),
            ),
        ensures
            final(self).well_formed(),
            final(self).options() == old(self).options(),
            final(self)@ == listing_taken(
                old(self).options(),
                old(self)@,
                i as int,
                maybe_path(canonical_dir),
                listing_view(listing@),
            ),
            r == (Step::Taken {
                first: old(self)@.dirs.len() as usize,
                count: (final(self)@.dirs.len() - old(self)@.dirs.len()) as usize,
            }),
    {
        let ghost w = self@;
        let ghost wd = self.options();
        let ghost view = listing_view(listing@);
        proof {
            assert(is_placed(w.dirs, i as int, w.followed.len() as int));
        }
        let first = self.dirs.len();
        let root = self.dirs[i].root;
        let depth = self.dirs[i].depth;
        let dir = self.dirs[i].dir.clone();
        let mut followed = IdSet::new();
        std::mem::swap(&mut followed, &mut self.followed[root]);
        let scan = scan_listing(
            &dir,
            depth,
            listing,
            canonical_dir,
            self.walk_data,
            &mut self.inodes,
            &mut followed,
            &mut self.progress,
            &mut self.errors,
        );
        self.followed[root] = followed;
        let Scan { nodes, dirs } = scan;
        let ghost s = scan_of(wd, w, i as int, maybe_path(canonical_dir), view);
        proof {
            lemma_scan_weight(
                wd,
                w.dirs[i as int].dir,
                depth,
                maybe_path(canonical_dir),
                scan_start(w, root as int),
                view,
            );
        }
        if self.walk_data.by_filetime.is_none() {
            let more = measure_scan(self.walk_data.by_filecount, &nodes, &dirs);
            self.ledger = self.ledger + more;
        }
        let mut leaves = nodes;
        let count = dirs.len();
        let ghost grown = DirView {
            children: w.dirs[i as int].children + s.nodes,
            ..w.dirs[i as int]
        };
        self.dirs[i].children.append(&mut leaves);
        proof {
            assert(self.dirs@[i as int]@.children =~= grown.children);
            assert(self@.dirs =~= w.dirs.update(i as int, grown));
            assert(subdirectory_views(dirs@) == s.dirs);
            if w.dirs.len() + s.dirs.len() <= usize::MAX {
                lemma_branched(
                    w.dirs,
                    i as int,
                    s.nodes,
                    s.dirs,
                    w.followed.len() as int,
                    wd.by_filecount,
                );
            }
        }
        self.add_branches(i, dirs);
        proof {
            let now = listing_taken(wd, w, i as int, maybe_path(canonical_dir), view);
            lemma_branched(
                    w.dirs,
                    i as int,
                    s.nodes,
                    s.dirs,
                    w.followed.len() as int,
                    wd.by_filecount,
                );
            assert(self@.dirs =~= now.dirs);
            assert(self@.followed =~= now.followed);
            assert(self@ =~= now);
        }
        Step::Taken { first, count }
    }

    /// Adds the subdirectories that were found in the directory `i`.
    fn add_branches(&mut self, i: usize, found: Vec<Subdirectory>)
        requires
            i < old(self)@.dirs.len(),
            old(self)@.dirs.len() + found.len() <= usize::MAX ==> old(
                self,
            )@.dirs[i as int].pending + found.len() <= usize::MAX,
        ensures
            final(self).options() == old(self).options(),
            final(self)@ == (WalkView {
                dirs: branched(
                    old(self)@.dirs,
                    i as int,
                    Seq::empty(),
                    subdirectory_views(found@),
                ),
                ..old(self)@
            }),
            old(self)@.dirs.len() + found.len() <= usize::MAX,
    {
        let ghost w = self@;
        let ghost views = subdirectory_views(found@);
        let root = self.dirs[i].root;
        let count = found.len();
        let mut rest = found;
        reverse(&mut rest);
        let ghost branches = views.map_values(
            |d: SubdirectoryView| branch(w.dirs[i as int].root, i as int, d),
        );
        assert(self@.dirs =~= w.dirs + branches.take(0));
        while rest.len() > 0
            invariant
                i < w.dirs.len(),
                root == w.dirs[i as int].root,
                rest.len() <= views.len(),
                branches == views.map_values(
                    |d: SubdirectoryView| branch(w.dirs[i as int].root, i as int, d),
                ),
                forall|j: int|
                    0 <= j < rest.len() ==> (#[trigger] rest@[j])@ == views[views.len() - 1 - j],
                self.options() == old(self).options(),
                self@ == (WalkView {
                    dirs: w.dirs + branches.take(views.len() - rest.len()),
                    ..w
                }),
            decreases rest.len(),
        {
            let ghost k = views.len() - rest.len();
            let ghost before = self@;
            assert(rest@[rest.len() - 1]@ == views[k]);
            match rest.pop() {
                Some(subdir) => {
                    let Subdirectory { dir, depth, kind, metadata } = subdir;
                    let child = PendingDir {
                        dir,
                        depth,
                        kind,
                        metadata,
                        root,
                        parent: Some(i),
                        scanned: false,
                        pending: 1,
                        children: Vec::new(),
                    };
                    self.dirs.push(child);
                    proof {
                        assert(child@.children =~= Seq::empty());
                        assert(child@ =~= branches[k]);
                        assert(self@.dirs =~= before.dirs.push(child@));
                        assert(self@.dirs =~= w.dirs + branches.take(k + 1));
                    }
                },
                None => {},
            }
        }
        let ghost before = self@;
        assert(self.dirs.len() == self@.dirs.len());
        assert(self.dirs@[i as int]@ == self@.dirs[i as int]);
        self.dirs[i].pending = self.dirs[i].pending + count;
        proof {
            let now = branched(w.dirs, i as int, Seq::empty(), views);
            assert(now[i as int].children =~= w.dirs[i as int].children);
            assert forall|k: int| 0 <= k < now.len() implies self@.dirs[k] == now[k] by {
                assert(self.dirs@[k]@ == self@.dirs[k]);
                if k == i {
                    assert(self.dirs@[k]@ =~= now[k]);
                } else if k < w.dirs.len() {
                    assert(before.dirs[k] == w.dirs[k]);
                } else {
                    assert(before.dirs[k] == branches[k - w.dirs.len()]);
                }
            }
            assert(self@.dirs =~= now);
        }
    }
}

// --------------------------------------------------------------------------
// Finished directories
// --------------------------------------------------------------------------

/// The node of a directory whose contents are known, if its metadata is.
pub open spec fn dir_node(walk_data: &WalkData, d: DirView) -> Option<NodeView> {
    match d.metadata {
        None => None,
        Some(data) => Some(
            NodeView {
                name: d.dir,
                size: folded_size(
                    *walk_data.by_filetime,
                    own_size(walk_data, d.dir, false, false, data),
                    d.children,
                ) as u64,
                children: d.children,
                inode_device: data.1,
                depth: d.depth,
                is_file: false,
            },
        ),
    }
}

/// A directory after one of the things that it waits for is done, which may
/// have brought a node.
pub open spec fn received(d: DirView, brought: Option<NodeView>) -> DirView {
    DirView {
        pending: (d.pending - 1) as usize,
        children: match brought {
            Some(node) => d.children.push(node),
            None => d.children,
        },
        ..d
    }
}

/// A list after what may be one more item.
pub open spec fn with_maybe<T>(items: Seq<T>, item: Option<T>) -> Seq<T> {
    match item {
        Some(item) => items.push(item),
        None => items,
    }
}

/// The state of a walk after one of the things that the directory `i` waits for
/// is done. Where it was the last, the directory is finished: its node goes to
/// the directory that it was found in, or among the finished trees. A finished
/// directory without metadata is lost, which is recorded unless it was
/// `reported` already.
pub open spec fn completed(
    walk_data: &WalkData,
    w: WalkView,
    i: int,
    brought: Option<NodeView>,
    reported: bool,
) -> WalkView
    decreases i,
{
    let d = received(w.dirs[i], brought);
    if d.pending > 0 {
        WalkView { dirs: w.dirs.update(i, d), ..w }
    } else {
        let node = dir_node(walk_data, d);
        let now = WalkView {
            dirs: w.dirs.update(i, DirView { children: Seq::empty(), ..d }),
            errors: if node is None && !reported {
                missing_recorded(w.errors, d.dir)
            } else {
                w.errors
            },
            ..w
        };
        match d.parent {
            None => WalkView { top_level: with_maybe(w.top_level, node), ..now },
            Some(p) => if 0 <= p < i {
                completed(walk_data, now, p as int, node, false)
            } else {
                now
            },
        }
    }
}

/// The directories after the entries of the directory `i` were dealt with.
pub open spec fn marked_scanned(w: WalkView, i: int) -> WalkView {
    WalkView { dirs: w.dirs.update(i, DirView { scanned: true, ..w.dirs[i] }), ..w }
}

/// The size of a node that is on its way to the directory it belongs to.
pub open spec fn carried_size(brought: Option<NodeView>) -> int {
    match brought {
        Some(node) => node.size as int,
        None => 0,
    }
}

/// What happens in the walk of a directory.
pub enum DirEvent {
    /// Its path was looked at.
    Looked(PathFacts),
    /// An attempt to list it was made.
    Read(Reading),
}

/// What is to be done for a directory.
#[derive(Debug, Clone, Copy, PartialEq, Eq, Structural)]
pub enum DirAction {
    /// It is to be listed; so many retries have been made.
    List(u32),
    /// It is done with; the directories found in it are the `count` ones from
    /// the number `first` on, and are to be walked.
    Finished { first: usize, count: usize },
}

/// The state of a walk after the scan of the directory `i` ended.
pub open spec fn scan_ended(walk_data: &WalkData, w: WalkView, i: int, reported: bool) -> WalkView {
    completed(walk_data, marked_scanned(w, i), i, None, reported)
}

/// Nothing was found in a directory.
pub open spec fn nothing_found(w: WalkView) -> DirAction {
    DirAction::Finished { first: w.dirs.len() as usize, count: 0 }
}

/// What follows once the directory `i` was looked at: a directory is listed,
/// and anything else is done with.
pub open spec fn looked(
    walk_data: &WalkData,
    w: WalkView,
    i: int,
    facts: PathFacts,
    now: WalkView,
    action: DirAction,
) -> bool {
    let class = path_class(w.dirs[i].kind, facts);
    let seen = WalkView { errors: class_recorded(w.errors, class, w.dirs[i].dir), ..w };
    if class == PathClass::Directory {
        now == seen && action == DirAction::List(0)
    } else {
        now == scan_ended(walk_data, seen, i, class != PathClass::File) && action == nothing_found(
            w,
        )
    }
}

/// What follows from an attempt to list the directory `i`: after an
/// interruption it is listed again, unless that happened too often, and
/// otherwise it is done with.
pub open spec fn listed(
    walk_data: &WalkData,
    w: WalkView,
    i: int,
    reading: ReadingView,
    canonical_dir: Option<PathView>,
    retries: u32,
    now: WalkView,
    action: DirAction,
) -> bool {
    match attempt_failure(reading) {
        Some((kind, message)) => {
            let failed = WalkView {
                errors: attempt_recorded(w.errors, kind, message, w.dirs[i].dir, retries),
                ..w
            };
            if tried_again(kind, retries) {
                now == failed && action == DirAction::List((retries + 1) as u32)
            } else {
                now == scan_ended(walk_data, failed, i, false) && action == nothing_found(w)
            }
        },
        None => {
            let taken = listing_taken(walk_data, w, i, canonical_dir, reading->Items_0);
            now == scan_ended(walk_data, taken, i, false) && action == (DirAction::Finished {
                first: w.dirs.len() as usize,
                count: (taken.dirs.len() - w.dirs.len()) as usize,
            })
        },
    }
}

/// Once its entries have been dealt with, a directory has one thing less to wait
/// for than it was set to.
pub(crate) proof fn lemma_marked_scanned(walk_data: &WalkData, w: WalkView, i: int)
    requires
        is_forest(w.dirs, w.followed.len() as int),
        waits(w.dirs, -1),
        0 <= i < w.dirs.len(),
        !w.dirs[i].scanned,
    ensures
        is_forest(marked_scanned(w, i).dirs, w.followed.len() as int),
        waits(marked_scanned(w, i).dirs, i),
        total_load(walk_data.by_filecount, marked_scanned(w, i).dirs) == total_load(
            walk_data.by_filecount,
            w.dirs,
        ),
{
    let now = marked_scanned(w, i).dirs;
    let roots = w.followed.len() as int;
    let d = now[i];
    assert forall|j: int| 0 <= j < now.len() implies #[trigger] is_placed(now, j, roots) by {
        assert(is_placed(w.dirs, j, roots));
    }
    assert forall|k: int| 0 <= k < now.len() implies (#[trigger] now[k]).pending == own_scan(now[k])
        + live_children(now, k) + (if k == i {
        1int
    } else {
        0
    }) by {
        lemma_total_update(w.dirs, i, d, |x: DirView| is_live_child(x, k));
        assert(w.dirs[k].pending == own_scan(w.dirs[k]) + live_children(w.dirs, k));
    }
    lemma_total_update(w.dirs, i, d, |x: DirView| load(walk_data.by_filecount, x));
}

/// One thing less to wait for keeps the directories in order.
pub(crate) proof fn lemma_received(
    dirs: Seq<DirView>,
    i: int,
    brought: Option<NodeView>,
    roots: int,
    rest: Seq<NodeView>,
    counting: bool,
)
    requires
        is_forest(dirs, roots),
        waits(dirs, i),
        0 <= i < dirs.len(),
        rest == Seq::<NodeView>::empty(),
    ensures
        dirs[i].pending >= 1,
        ({
            let d = received(dirs[i], brought);
            let done = DirView { children: rest, ..d };
            &&& d.pending > 0 ==> is_forest(dirs.update(i, d), roots) && waits(
                dirs.update(i, d),
                -1,
            ) && total_load(counting, dirs.update(i, d)) == total_load(counting, dirs)
                + carried_size(brought)
            &&& d.pending == 0 ==> is_forest(dirs.update(i, done), roots) && waits(
                dirs.update(i, done),
                match d.parent {
                    Some(p) => p as int,
                    None => -1,
                },
            ) && total_load(counting, dirs.update(i, done)) + weight(counting, d.metadata) + total_size(
                d.children,
            ) == total_load(counting, dirs) + carried_size(brought)
        }),
{
    let d = received(dirs[i], brought);
    let done = DirView { children: rest, ..d };
    assert(dirs[i].pending == own_scan(dirs[i]) + live_children(dirs, i) + 1);
    lemma_total_not_negative(dirs, |x: DirView| is_live_child(x, i));
    let now = if d.pending > 0 {
        dirs.update(i, d)
    } else {
        dirs.update(i, done)
    };
    assert(is_placed(dirs, i, roots));
    assert forall|j: int| 0 <= j < now.len() implies #[trigger] is_placed(now, j, roots) by {
        assert(is_placed(dirs, j, roots));
    }
    let extra = if d.pending > 0 {
        -1
    } else {
        match d.parent {
            Some(p) => p as int,
            None => -1,
        }
    };
    assert forall|k: int| 0 <= k < now.len() implies (#[trigger] now[k]).pending == own_scan(now[k])
        + live_children(now, k) + (if k == extra {
        1int
    } else {
        0
    }) by {
        lemma_total_update(dirs, i, now[i], |x: DirView| is_live_child(x, k));
        assert(dirs[k].pending == own_scan(dirs[k]) + live_children(dirs, k) + (if k == i {
            1int
        } else {
            0
        }));
    }
    lemma_total_update(dirs, i, now[i], |x: DirView| load(counting, x));
    if brought is Some {
        lemma_total_push(dirs[i].children, brought->Some_0, |n: NodeView| n.size as int);
    }
}

pub(crate) proof fn lemma_total_load_not_negative(dirs: Seq<DirView>, counting: bool)
    ensures
        0 <= total_load(counting, dirs),
{
    let f = |d: DirView| load(counting, d);
    assert forall|d: DirView| 0 <= #[trigger] f(d) by {
        lemma_total_not_negative(d.children, |n: NodeView| n.size as int);
    }
    lemma_total_not_negative(dirs, f);
}

/// What a directory measures is no more than it was held to weigh.
pub(crate) proof fn lemma_dir_node_size(walk_data: &WalkData, d: DirView)
    requires
        *walk_data.by_filetime is None,
        weight(walk_data.by_filecount, d.metadata) + total_size(d.children) <= u64::MAX,
    ensures
        carried_size(dir_node(walk_data, d)) <= weight(walk_data.by_filecount, d.metadata)
            + total_size(d.children),
{
    lemma_total_not_negative(d.children, |n: NodeView| n.size as int);
}

impl<'a> Walk<'a> {
    /// Ends the scan of the directory `i`. Where nothing in it is unfinished, its
    /// node is built and handed up, and so on up the chain. Where the directory
    /// was `classification_reported` as none, it is not reported again.
    pub fn finalize_chain(&mut self, i: usize, classification_reported: bool)
        requires
            old(self).well_formed(),
            i < old(self)@.dirs.len(),
            !old(self)@.dirs[i as int].scanned,
        ensures
            final(self).well_formed(),
            final(self).options() == old(self).options(),
            final(self)@ == completed(
                old(self).options(),
                marked_scanned(old(self)@, i as int),
                i as int,
                None,
                classification_reported,
            ),
    {
        let ghost wd = self.options();
        let ghost start = marked_scanned(self@, i as int);
        let ghost goal = completed(wd, start, i as int, None, classification_reported);
        let ghost w0 = self@;
        let ghost roots = self@.followed.len() as int;
        self.dirs[i].scanned = true;
        proof {
            assert(self.dirs@[i as int]@ =~= start.dirs[i as int]);
            assert(self@.dirs =~= start.dirs);
            assert(self@ =~= start);
            lemma_marked_scanned(wd, w0, i as int);
        }
        let mut current: usize = i;
        let mut brought: Option<Node> = None;
        let mut reported = classification_reported;
        let ghost mut brought_view: Option<NodeView> = None;
        loop
            invariant_except_break
                wd.in_range(),
                self.options() == wd,
                roots == self@.followed.len(),
                current < self@.dirs.len(),
                is_forest(self@.dirs, roots),
                waits(self@.dirs, current as int),
                match brought {
                    Some(node) => brought_view == Some(node@),
                    None => brought_view is None,
                },
                *wd.by_filetime is None ==> total_load(wd.by_filecount, self@.dirs)
                    + carried_size(brought_view) + total_size(self@.top_level) <= self@.ledger,
                completed(wd, self@, current as int, brought_view, reported) == goal,
            ensures
                self.options() == wd,
                self@.well_formed(wd),
                self@ == goal,
            decreases current,
        {
            let ghost before = self@;
            let ghost d = received(before.dirs[current as int], brought_view);
            proof {
                lemma_received(
                    before.dirs,
                    current as int,
                    brought_view,
                    roots,
                    Seq::empty(),
                    wd.by_filecount,
                );
                assert(is_placed(before.dirs, current as int, roots));
            }
            match brought {
                Some(node) => {
                    self.dirs[current].children.push(node);
                },
                None => {},
            }
            self.dirs[current].pending = self.dirs[current].pending - 1;
            proof {
                assert(self.dirs@[current as int]@.children =~= d.children);
                assert(self.dirs@[current as int]@ =~= d);
                assert(self@.dirs =~= before.dirs.update(current as int, d));
                assert(self@ =~= (WalkView {
                    dirs: before.dirs.update(current as int, d),
                    ..before
                }));
            }
            if self.dirs[current].pending != 0 {
                break;
            }
            let mut children: Vec<Node> = Vec::new();
            std::mem::swap(&mut children, &mut self.dirs[current].children);
            let dir = self.dirs[current].dir.clone();
            let depth = self.dirs[current].depth;
            let metadata = self.dirs[current].metadata;
            let parent = self.dirs[current].parent;
            proof {
                let done = DirView { children: Seq::empty(), ..d };
                assert(self.dirs@[current as int]@.children =~= Seq::empty());
                assert(self.dirs@[current as int]@ =~= done);
                assert(self@.dirs =~= before.dirs.update(current as int, done));
                assert(node_views(children@) == d.children);
                lemma_total_load_not_negative(self@.dirs, wd.by_filecount);
                lemma_total_not_negative(self@.top_level, |n: NodeView| n.size as int);
                if *wd.by_filetime is None {
                    lemma_dir_node_size(wd, d);
                }
            }
            let built = build_node(dir, children, false, false, depth, self.walk_data, metadata);
            let folded: Option<Node> = match built {
                None => None,
                Some(mut node) => {
                    let own = node.size;
                    node.size = fold_size(self.walk_data.by_filetime, own, &node.children);
                    proof {
                        lemma_node_view(node);
                        assert(node@ =~= dir_node(wd, d)->Some_0);
                    }
                    Some(node)
                },
            };
            if folded.is_none() && !reported {
                record_metadata_unavailable(&self.dirs[current].dir, &mut self.errors);
            }
            match parent {
                None => {
                    if let Some(node) = folded {
                        let ghost prior = self.top_level@;
                        self.top_level.push(node);
                        proof {
                            assert(node_views(self.top_level@) =~= node_views(prior).push(node@));
                            lemma_total_push(
                                node_views(prior),
                                node@,
                                |n: NodeView| n.size as int,
                            );
                        }
                    }
                    assert(self@ =~= goal);
                    break;
                },
                Some(p) => {
                    reported = false;
                    brought = folded;
                    proof {
                        brought_view = dir_node(wd, d);
                    }
                    current = p;
                },
            }
        }
    }

    /// Takes the next event of the walk of the directory `i`, of which `retries`
    /// retries were made: it was looked at, or an attempt to list it was made.
    /// Decides whether it is to be listed, or is done with.
    pub fn walk_dir(
        &mut self,
        i: usize,
        event: DirEvent,
        canonical_dir: Option<&PathBuf>,
        retries: u32,
    ) -> (r: DirAction)
        requires
            old(self).well_formed(),
            i < old(self)@.dirs.len(),
            !old(self)@.dirs[i as int].scanned,
            retries <= MAX_EINTR_RETRIES,
            event matches DirEvent::Read(reading) ==> can_record(old(self)@, reading@),
            event matches DirEvent::Read(reading) ==> fits_reading(
                old(self).options(),
                old(self)@,
                i as int,
                maybe_path(canonical_dir),
                reading@,
            ),
        ensures
            final(self).well_formed(),
            final(self).options() == old(self).options(),
            match event {
                DirEvent::Looked(facts) => looked(
                    old(self).options(),
                    old(self)@,
                    i as int,
                    facts,
                    final(self)@,
                    r,
                ),
                DirEvent::Read(reading) => listed(
                    old(self).options(),
                    old(self)@,
                    i as int,
                    reading@,
                    maybe_path(canonical_dir),
                    retries,
                    final(self)@,
                    r,
                ),
            },
    {
        let first = self.dirs.len();
        match event {
            DirEvent::Looked(facts) => match self.look_at(i, &facts) {
                PathClass::Directory => DirAction::List(0),
                PathClass::File => {
                    self.finalize_chain(i, false);
                    DirAction::Finished { first, count: 0 }
                },
                _ => {
                    self.finalize_chain(i, true);
                    DirAction::Finished { first, count: 0 }
                },
            },
            DirEvent::Read(reading) => match self.take_listing(i, reading, canonical_dir, retries) {
                Step::Again(retries) => DirAction::List(retries),
                Step::GivenUp => {
                    self.finalize_chain(i, false);
                    DirAction::Finished { first, count: 0 }
                },
                Step::Taken { first, count } => {
                    self.finalize_chain(i, false);
                    DirAction::Finished { first, count }
                },
            },
        }
    }

    /// Ends a root: what is left to do is to prepare the output.
    pub fn end_root(&mut self)
        requires
            old(self).well_formed(),
        ensures
            final(self).well_formed(),
            final(self).options() == old(self).options(),
            final(self)@ == (WalkView { state: Operation::PREPARING, ..old(self)@ }),
    {
        self.progress.state = Operation::PREPARING;
    }

    /// How far the walk has come.
    pub fn progress(&self) -> (r: &PAtomicInfo)
        ensures
            r.num_files == self@.num_files,
            r.total_file_size == self@.total_file_size,
            r.state == self@.state,
            r.current_path@ == self@.current_path,
    {
        &self.progress
    }

    /// What went wrong so far.
    pub fn errors(&self) -> (r: &RuntimeErrors)
        ensures
            r@ == self@.errors,
    {
        &self.errors
    }

    /// Ends the walk: the finished trees, and what went wrong.
    pub fn finish(self) -> (r: (Vec<Node>, RuntimeErrors))
        ensures
            node_views(r.0@) == self@.top_level,
            r.1@ == self@.errors,
    {
        (self.top_level, self.errors)
    }
}

} // verus!
