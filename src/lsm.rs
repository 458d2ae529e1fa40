//! The durable write path: a log-structured tree that issues operation identifiers.
use vstd::prelude::*;
use lsm_tree::AbstractTree;
use crate::error::DatabaseError;
use crate::types::{Key, OperationId, SequenceNumber, Timestamp, Value, op_lt};

verus! {

#[verifier::external_type_specification]
#[verifier::external_body]
pub struct ExTree(lsm_tree::Tree);

/// What the tree serves to reads: the latest value written under each key.
pub uninterp spec fn durable_contents(t: lsm_tree::Tree) -> Map<Seq<u8>, Seq<u8>>;

/// The highest sequence number the tree holds, if it holds any write.
pub uninterp spec fn durable_highest_seqno(t: lsm_tree::Tree) -> Option<u64>;

/// The size in bytes the tree's active memtable has accounted so far.
pub uninterp spec fn durable_memtable_size(t: lsm_tree::Tree) -> u32;

/// The longest key the tree takes.
pub const MAX_KEY_LEN: usize = 65535;

/// The most bytes a memtable accounts for: its size counter is 32 bits wide.
pub const MAX_MEMTABLE_SIZE: u64 = 4294967295;

/// What a write costs a memtable beyond its key and value bytes, rounded up.
pub const WRITE_OVERHEAD: u64 = 16;

pub const OUT_OF_BOUNDS: &'static str = "key or value out of bounds";

pub const SEQUENCE_EXHAUSTED: &'static str = "sequence numbers exhausted";

/// An upper bound on what writing `v` under `k` adds to the active memtable's size.
pub open spec fn write_size(k: Seq<u8>, v: Seq<u8>) -> int {
    k.len() + v.len() + WRITE_OVERHEAD
}

/// Whether `e` is `InvalidOperation` with the message `msg`.
pub open spec fn invalid_with(e: DatabaseError, msg: Seq<char>) -> bool {
    match e {
        DatabaseError::InvalidOperation(m) => m@ == msg,
        _ => false,
    }
}

/// A key the tree takes: non-empty and at most `MAX_KEY_LEN` bytes.
pub open spec fn valid_key(k: Seq<u8>) -> bool {
    0 < k.len() <= MAX_KEY_LEN
}

/// A write the tree takes: a valid key, and a size that an empty memtable can account for.
pub open spec fn valid_write(k: Seq<u8>, v: Seq<u8>) -> bool {
    valid_key(k) && write_size(k, v) <= MAX_MEMTABLE_SIZE
}

/// What a map of durable contents answers for `k`.
pub open spec fn durable_lookup(m: Map<Seq<u8>, Seq<u8>>, k: Seq<u8>) -> Option<Seq<u8>> {
    if m.contains_key(k) {
        Some(m[k])
    } else {
        None
    }
}

/// Whether `seqno` is above every sequence number the tree holds.
pub open spec fn above_highest(h: Option<u64>, seqno: u64) -> bool {
    match h {
        Some(s) => s < seqno,
        None => true,
    }
}

/// Relies on lsm_tree's `Config::new(path).open()`: opens the tree stored at `path`,
/// creating its directory if absent, or reports why it could not.
#[verifier::external_body]
fn open_tree(path: &str) -> (r: Result<lsm_tree::Tree, String>) {
    lsm_tree::Config::new(path).open().map_err(|e| e.to_string())
}

/// Relies on lsm_tree's `AbstractTree::get_highest_seqno`: the highest sequence number held.
#[verifier::external_body]
fn tree_highest_seqno(tree: &lsm_tree::Tree) -> (r: Option<u64>)
    ensures
        r == durable_highest_seqno(*tree),
{
    tree.get_highest_seqno()
}

/// Relies on lsm_tree's `AbstractTree::active_memtable_size`: the active memtable's size.
#[verifier::external_body]
fn tree_memtable_size(tree: &lsm_tree::Tree) -> (r: u32)
    ensures
        r == durable_memtable_size(*tree),
{
    tree.active_memtable_size()
}

/// Relies on lsm_tree's `AbstractTree::insert`, which asserts a non-empty key of at most
/// 65535 bytes and a value of at most 2^32 bytes, and adds the item's size (8 + 1 + key +
/// value bytes) to the memtable's 32-bit size: written above every sequence number held,
/// the value is what reads of `key` return next.
#[verifier::external_body]
fn tree_insert(tree: &mut lsm_tree::Tree, key: &Key, value: &Value, seqno: u64)
    requires
        valid_write(key@, value@),
        above_highest(durable_highest_seqno(*old(tree)), seqno),
        durable_memtable_size(*old(tree)) + write_size(key@, value@) <= MAX_MEMTABLE_SIZE,
    ensures
        durable_contents(*final(tree)) == durable_contents(*old(tree)).insert(key@, value@),
        durable_highest_seqno(*final(tree)) == Some(seqno),
        durable_memtable_size(*final(tree)) <= durable_memtable_size(*old(tree)) + write_size(
            key@,
            value@,
        ),
{
    let _ = tree.insert(key.as_slice(), value.as_slice(), seqno);
}

/// Relies on lsm_tree's `AbstractTree::remove`, which asserts a non-empty key of at most
/// 65535 bytes, and adds the tombstone's size (8 + 1 + key bytes) to the memtable's 32-bit
/// size: the tombstone, written above every sequence number held, hides the key.
#[verifier::external_body]
fn tree_remove(tree: &mut lsm_tree::Tree, key: &Key, seqno: u64)
    requires
        valid_key(key@),
        above_highest(durable_highest_seqno(*old(tree)), seqno),
        durable_memtable_size(*old(tree)) + write_size(key@, Seq::<u8>::empty()) <= MAX_MEMTABLE_SIZE,
    ensures
        durable_contents(*final(tree)) == durable_contents(*old(tree)).remove(key@),
        durable_highest_seqno(*final(tree)) == Some(seqno),
        durable_memtable_size(*final(tree)) <= durable_memtable_size(*old(tree)) + write_size(
            key@,
            Seq::<u8>::empty(),
        ),
{
    let _ = tree.remove(key.as_slice(), seqno);
}

/// Relies on lsm_tree's `AbstractTree::get` with no snapshot, which asserts a key of at most
/// 65535 bytes: the latest value under `key`, none if it is absent or deleted.
#[verifier::external_body]
fn tree_get(tree: &lsm_tree::Tree, key: &Key) -> (r: Result<Option<Value>, String>)
    requires
        valid_key(key@),
    ensures
        r is Ok ==> crate::types::opt_view(r->Ok_0) == durable_lookup(durable_contents(*tree), key@),
{
    match tree.get(key.as_slice(), None) {
        Ok(v) => Ok(v.map(|s| s.to_vec())),
        Err(e) => Err(e.to_string()),
    }
}

/// Relies on lsm_tree's `Tree::flush_active_memtable`: persists what was written up to `seqno`.
/// The active memtable is swapped for an empty one before anything can fail; what was in it
/// stays readable, from a sealed memtable or from the new segment.
#[verifier::external_body]
fn tree_flush(tree: &mut lsm_tree::Tree, seqno: u64) -> (r: Result<(), String>)
    ensures
        durable_contents(*final(tree)) == durable_contents(*old(tree)),
        durable_highest_seqno(*final(tree)) == durable_highest_seqno(*old(tree)),
        durable_memtable_size(*final(tree)) == 0,
{
    tree.flush_active_memtable(seqno).map(|_| ()).map_err(|e| e.to_string())
}

/// Relies on `std::time::SystemTime::now`: milliseconds since the Unix epoch, or zero
/// for a clock set before it.
#[verifier::external_body]
fn now_millis() -> (r: u64) {
    std::time::SystemTime::now().duration_since(std::time::UNIX_EPOCH).map(
        |d| d.as_millis() as u64,
    ).unwrap_or(0)
}

/// The durable store, and the single counter that orders every write.
pub struct LSMTree {
    tree: lsm_tree::Tree,
    sequence_counter: SequenceNumber,
    last_timestamp: Timestamp,
}

impl LSMTree {
    /// The counter is at or above every sequence number the tree holds.
    pub closed spec fn wf(&self) -> bool {
        match durable_highest_seqno(self.tree) {
            Some(s) => s <= self.sequence_counter,
            None => true,
        }
    }

    /// The sequence number of the last write issued.
    pub closed spec fn sequence_spec(&self) -> SequenceNumber {
        self.sequence_counter
    }

    /// The identifier of the last write issued; every later one is greater.
    pub closed spec fn last_id(&self) -> OperationId {
        OperationId { timestamp: self.last_timestamp, sequence: self.sequence_counter }
    }

    /// What reads of the store return for each key.
    pub closed spec fn contents(&self) -> Map<Seq<u8>, Seq<u8>> {
        durable_contents(self.tree)
    }

    /// The highest sequence number the store holds.
    pub closed spec fn highest_spec(&self) -> Option<u64> {
        durable_highest_seqno(self.tree)
    }

    /// The size the active memtable has accounted so far.
    pub closed spec fn memtable_size_spec(&self) -> u32 {
        durable_memtable_size(self.tree)
    }

    /// Whether a write of `v` under `k` fits the active memtable without a flush first.
    pub open spec fn has_room(&self, k: Seq<u8>, v: Seq<u8>) -> bool {
        self.memtable_size_spec() + write_size(k, v) <= MAX_MEMTABLE_SIZE
    }

    /// Opens the durable store at `path`; the counter resumes from the highest sequence
    /// number it holds, or zero for an empty store.
    pub fn new(path: &str) -> (r: Result<Self, DatabaseError>)
        ensures
            r is Ok ==> r->Ok_0.wf() && r->Ok_0.sequence_spec() == match r->Ok_0.highest_spec() {
                Some(s) => s,
                None => 0,
            } && r->Ok_0.last_id().timestamp == 0,
            r is Err ==> r->Err_0 is InvalidOperation,
    {
        match open_tree(path) {
            Ok(tree) => {
                let sequence_counter = match tree_highest_seqno(&tree) {
                    Some(s) => s,
                    None => 0,
                };
                Ok(LSMTree { tree, sequence_counter, last_timestamp: 0 })
            },
            Err(msg) => Err(DatabaseError::InvalidOperation(msg)),
        }
    }

    /// The next operation identifier: the next sequence number, and a timestamp that never
    /// goes back even if the clock does.
    fn next_operation_id(&mut self) -> (r: Result<OperationId, DatabaseError>)
        requires
            old(self).wf(),
        ensures
            old(self).sequence_spec() < u64::MAX <==> r is Ok,
            r is Ok ==> r->Ok_0.sequence == old(self).sequence_spec() + 1 && op_lt(
                old(self).last_id(),
                r->Ok_0,
            ) && final(self).last_id() == r->Ok_0 && final(self).wf()
                && above_highest(durable_highest_seqno(final(self).tree), r->Ok_0.sequence),
            r is Err ==> *final(self) == *old(self) && invalid_with(r->Err_0, SEQUENCE_EXHAUSTED@),
            final(self).tree == old(self).tree,
    {
        if self.sequence_counter == u64::MAX {
            return Err(DatabaseError::InvalidOperation(String::from_str(SEQUENCE_EXHAUSTED)));
        }
        let now = now_millis();
        let timestamp = if now < self.last_timestamp {
            self.last_timestamp
        } else {
            now
        };
        self.sequence_counter = self.sequence_counter + 1;
        self.last_timestamp = timestamp;
        Ok(OperationId::new(timestamp, self.sequence_counter))
    }

    /// Makes room for a write of `need` bytes, flushing the active memtable if it is too full.
    fn make_room(&mut self, need: u64) -> (r: Result<(), DatabaseError>)
        requires
            old(self).wf(),
            need <= MAX_MEMTABLE_SIZE,
        ensures
            final(self).wf(),
            final(self).contents() == old(self).contents(),
            final(self).highest_spec() == old(self).highest_spec(),
            final(self).sequence_spec() == old(self).sequence_spec(),
            final(self).last_id() == old(self).last_id(),
            old(self).memtable_size_spec() + need <= MAX_MEMTABLE_SIZE ==> r is Ok,
            r is Ok ==> final(self).memtable_size_spec() + need <= MAX_MEMTABLE_SIZE,
            r is Err ==> r->Err_0 is InvalidOperation,
    {
        let size = tree_memtable_size(&self.tree);
        if size as u64 + need <= MAX_MEMTABLE_SIZE {
            return Ok(());
        }
        match tree_flush(&mut self.tree, self.sequence_counter) {
            Ok(()) => Ok(()),
            Err(msg) => Err(DatabaseError::InvalidOperation(msg)),
        }
    }

    /// Durably writes `value` under `key`, returning the identifier of the write. When the
    /// active memtable cannot take the write it is flushed first.
    pub fn put(&mut self, key: &Key, value: &Value) -> (r: Result<OperationId, DatabaseError>)
        requires
            old(self).wf(),
        ensures
            final(self).wf(),
            !valid_write(key@, value@) ==> r is Err && invalid_with(r->Err_0, OUT_OF_BOUNDS@),
            valid_write(key@, value@) && old(self).sequence_spec() == u64::MAX ==> r is Err
                && invalid_with(r->Err_0, SEQUENCE_EXHAUSTED@),
            valid_write(key@, value@) && old(self).sequence_spec() < u64::MAX && old(self).has_room(
                key@,
                value@,
            ) ==> r is Ok,
            r is Ok ==> r->Ok_0.sequence == old(self).sequence_spec() + 1
                && final(self).sequence_spec() == r->Ok_0.sequence
                && op_lt(old(self).last_id(), r->Ok_0) && final(self).last_id() == r->Ok_0
                && final(self).contents() == old(self).contents().insert(key@, value@),
            r is Err ==> final(self).last_id() == old(self).last_id() && final(self).contents()
                == old(self).contents() && final(self).sequence_spec() == old(self).sequence_spec()
                && r->Err_0 is InvalidOperation,
    {
        if key.len() == 0 || key.len() > MAX_KEY_LEN || value.len() as u64 > MAX_MEMTABLE_SIZE
            - WRITE_OVERHEAD - key.len() as u64 {
            return Err(DatabaseError::InvalidOperation(String::from_str(OUT_OF_BOUNDS)));
        }
        if self.sequence_counter == u64::MAX {
            return Err(DatabaseError::InvalidOperation(String::from_str(SEQUENCE_EXHAUSTED)));
        }
        self.make_room(key.len() as u64 + value.len() as u64 + WRITE_OVERHEAD)?;
        let id = self.next_operation_id()?;
        tree_insert(&mut self.tree, key, value, id.sequence);
        Ok(id)
    }

    /// Durably deletes `key`, returning the identifier of the write. When the active memtable
    /// cannot take the tombstone it is flushed first.
    pub fn delete(&mut self, key: &Key) -> (r: Result<OperationId, DatabaseError>)
        requires
            old(self).wf(),
        ensures
            final(self).wf(),
            !valid_key(key@) ==> r is Err && invalid_with(r->Err_0, OUT_OF_BOUNDS@),
            valid_key(key@) && old(self).sequence_spec() == u64::MAX ==> r is Err && invalid_with(
                r->Err_0,
                SEQUENCE_EXHAUSTED@,
            ),
            valid_key(key@) && old(self).sequence_spec() < u64::MAX && old(self).has_room(
                key@,
                Seq::<u8>::empty(),
            ) ==> r is Ok,
            r is Ok ==> r->Ok_0.sequence == old(self).sequence_spec() + 1
                && final(self).sequence_spec() == r->Ok_0.sequence
                && op_lt(old(self).last_id(), r->Ok_0) && final(self).last_id() == r->Ok_0
                && final(self).contents() == old(self).contents().remove(key@),
            r is Err ==> final(self).last_id() == old(self).last_id() && final(self).contents()
                == old(self).contents() && final(self).sequence_spec() == old(self).sequence_spec()
                && r->Err_0 is InvalidOperation,
    {
        if key.len() == 0 || key.len() > MAX_KEY_LEN {
            return Err(DatabaseError::InvalidOperation(String::from_str(OUT_OF_BOUNDS)));
        }
        if self.sequence_counter == u64::MAX {
            return Err(DatabaseError::InvalidOperation(String::from_str(SEQUENCE_EXHAUSTED)));
        }
        self.make_room(key.len() as u64 + WRITE_OVERHEAD)?;
        let id = self.next_operation_id()?;
        tree_remove(&mut self.tree, key, id.sequence);
        Ok(id)
    }

    /// The latest value durably stored under `key`; none for a key the store cannot hold.
    /// A failure to read is `InvalidOperation`.
    pub fn get(&self, key: &Key) -> (r: Result<Option<Value>, DatabaseError>)
        ensures
            !valid_key(key@) ==> r is Ok && r->Ok_0 is None,
            valid_key(key@) && r is Ok ==> crate::types::opt_view(r->Ok_0) == durable_lookup(
                self.contents(),
                key@,
            ),
            r is Err ==> r->Err_0 is InvalidOperation,
    {
        if key.len() == 0 || key.len() > MAX_KEY_LEN {
            return Ok(None);
        }
        match tree_get(&self.tree, key) {
            Ok(v) => Ok(v),
            Err(msg) => Err(DatabaseError::InvalidOperation(msg)),
        }
    }

    /// Persists every write issued so far; what reads return is unchanged.
    pub fn flush(&mut self) -> (r: Result<(), DatabaseError>)
        requires
            old(self).wf(),
        ensures
            final(self).wf(),
            final(self).contents() == old(self).contents(),
            final(self).sequence_spec() == old(self).sequence_spec(),
            final(self).last_id() == old(self).last_id(),
            r is Err ==> r->Err_0 is InvalidOperation,
    {
        match tree_flush(&mut self.tree, self.sequence_counter) {
            Ok(()) => Ok(()),
            Err(msg) => Err(DatabaseError::InvalidOperation(msg)),
        }
    }
}

} // verus!
