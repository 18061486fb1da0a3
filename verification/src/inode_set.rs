//! Sets of file identities.

use std::collections::HashSet;

use vstd::prelude::*;

verus! {

/// An inode number and the device that it belongs to.
pub type FileId = (u64, u64);

/// A file identity as one number.
spec fn id_key(id: FileId) -> u128 {
    (id.0 * 0x1_0000_0000_0000_0000 + id.1) as u128
}

/// A set of file identities.
pub struct IdSet {
    keys: HashSet<u128>,
}

impl View for IdSet {
    type V = Set<FileId>;

    closed spec fn view(&self) -> Set<FileId> {
        Set::new(|id: FileId| self.keys@.contains(id_key(id)))
    }
}

impl IdSet {
    /// An empty set.
    pub fn new() -> (r: Self)
        ensures
            r@ == Set::<FileId>::empty(),
    {
        let r = IdSet { keys: HashSet::new() };
        assert(r@ =~= Set::<FileId>::empty());
        r
    }

    /// Tells whether an identity is in the set.
    pub fn contains(&self, id: FileId) -> (r: bool)
        ensures
            r == self@.contains(id),
    {
        let key: u128 = id.0 as u128 * 0x1_0000_0000_0000_0000 + id.1 as u128;
        assert(key == id_key(id));
        self.keys.contains(&key)
    }

    /// Adds an identity, and tells whether it was new.
    pub fn insert(&mut self, id: FileId) -> (r: bool)
        ensures
            r == !old(self)@.contains(id),
            final(self)@ == old(self)@.insert(id),
    {
        let ghost before = self@;
        let key: u128 = id.0 as u128 * 0x1_0000_0000_0000_0000 + id.1 as u128;
        assert(key == id_key(id));
        let fresh = self.keys.insert(key);
        assert forall|other: FileId| id_key(other) == key implies other == id by {}
        assert(self@ =~= before.insert(id));
        fresh
    }
}

/// The number of parts that a large set is kept in.
pub const INODE_SHARDS: usize = 256;

/// The part of a large set that an identity belongs to.
pub open spec fn shard_of(id: FileId) -> usize {
    (((id.0 * 0x9e37_79b9_7f4a_7c15) % 0x1_0000_0000_0000_0000) % 256) as usize
}

/// Selects the part of a large set that an identity belongs to. It goes by the
/// inode number alone: all files of one file system share their device.
pub fn inode_shard(id: FileId) -> (r: usize)
    ensures
        r == shard_of(id),
        r < INODE_SHARDS,
{
    (id.0.wrapping_mul(0x9e37_79b9_7f4a_7c15) % 256) as usize
}

/// A large set of file identities.
pub struct InodeSet {
    shards: Vec<IdSet>,
}

impl View for InodeSet {
    type V = Set<FileId>;

    closed spec fn view(&self) -> Set<FileId> {
        Set::new(|id: FileId| self.shards@[shard_of(id) as int]@.contains(id))
    }
}

impl InodeSet {
    #[verifier::type_invariant]
    spec fn well_formed(self) -> bool {
        self.shards.len() == INODE_SHARDS
    }

    /// An empty set.
    pub fn new() -> (r: Self)
        ensures
            r@ == Set::<FileId>::empty(),
    {
        let mut shards: Vec<IdSet> = Vec::with_capacity(INODE_SHARDS);
        while shards.len() < INODE_SHARDS
            invariant
                shards.len() <= INODE_SHARDS,
                forall|i: int| 0 <= i < shards.len() ==> (#[trigger] shards@[i])@ == Set::<FileId>::empty(),
            decreases INODE_SHARDS - shards.len(),
        {
            shards.push(IdSet::new());
        }
        let r = InodeSet { shards };
        assert(r@ =~= Set::<FileId>::empty());
        r
    }

    /// Tells whether an identity is in the set.
    pub fn contains(&self, id: FileId) -> (r: bool)
        ensures
            r == self@.contains(id),
    {
        proof {
            use_type_invariant(self);
        }
        self.shards[inode_shard(id)].contains(id)
    }

    /// Adds an identity, and tells whether it was new.
    pub fn insert(&mut self, id: FileId) -> (r: bool)
        ensures
            r == !old(self)@.contains(id),
            final(self)@ == old(self)@.insert(id),
    {
        proof {
            use_type_invariant(&*self);
        }
        let ghost before = self@;
        let shard = inode_shard(id);
        let fresh = self.shards[shard].insert(id);
        assert(self@ =~= before.insert(id));
        fresh
    }
}

} // verus!
