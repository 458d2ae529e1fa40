//! Operation identifiers, entries and configuration.
use vstd::prelude::*;

verus! {

/// A key: an opaque byte string, ordered byte-lexicographically.
pub type Key = Vec<u8>;

/// A value: an opaque byte string.
pub type Value = Vec<u8>;

/// Wall-clock part of an operation identifier.
pub type Timestamp = u64;

/// Counter part of an operation identifier, issued by a single writer.
pub type SequenceNumber = u64;

/// A unique identifier for a write, totally ordered by timestamp, then sequence.
#[derive(Debug, Clone, Copy, PartialEq, Eq, Structural, Hash, Ord)]
pub struct OperationId {
    pub timestamp: Timestamp,
    pub sequence: SequenceNumber,
}

/// The order of operations: by timestamp, ties broken by sequence.
pub open spec fn op_lt(a: OperationId, b: OperationId) -> bool {
    a.timestamp < b.timestamp || (a.timestamp == b.timestamp && a.sequence < b.sequence)
}

impl OperationId {
    pub fn new(timestamp: Timestamp, sequence: SequenceNumber) -> (r: Self)
        ensures
            r.timestamp == timestamp,
            r.sequence == sequence,
    {
        OperationId { timestamp, sequence }
    }

    /// Whether this operation happened strictly before `other`.
    pub fn precedes(&self, other: &OperationId) -> (r: bool)
        ensures
            r == op_lt(*self, *other),
    {
        self.timestamp < other.timestamp || (self.timestamp == other.timestamp && self.sequence
            < other.sequence)
    }
}

/// The order of operations as a comparison result.
pub open spec fn op_cmp(a: OperationId, b: OperationId) -> core::cmp::Ordering {
    if op_lt(a, b) {
        core::cmp::Ordering::Less
    } else if a == b {
        core::cmp::Ordering::Equal
    } else {
        core::cmp::Ordering::Greater
    }
}

impl PartialOrd for OperationId {
    fn partial_cmp(&self, other: &OperationId) -> (r: Option<core::cmp::Ordering>) {
        if self.precedes(other) {
            Some(core::cmp::Ordering::Less)
        } else if self.timestamp == other.timestamp && self.sequence == other.sequence {
            Some(core::cmp::Ordering::Equal)
        } else {
            Some(core::cmp::Ordering::Greater)
        }
    }
}

impl vstd::std_specs::cmp::PartialOrdSpecImpl for OperationId {
    open spec fn obeys_partial_cmp_spec() -> bool {
        true
    }

    open spec fn partial_cmp_spec(&self, other: &OperationId) -> Option<core::cmp::Ordering> {
        Some(op_cmp(*self, *other))
    }
}

/// A write as recorded by the durable store.
#[derive(Debug, Clone, PartialEq, Eq)]
pub enum Operation {
    Put { key: Key, value: Value },
    Delete { key: Key },
}

/// The mathematical content of an `Entry`.
pub struct EntryView {
    pub key: Seq<u8>,
    pub value: Option<Seq<u8>>,
    pub operation_id: OperationId,
    pub is_deleted: bool,
}

/// What the index holds for a key: a value, or a tombstone, with the write that produced it.
#[derive(Debug, Clone, PartialEq, Eq)]
pub struct Entry {
    pub key: Key,
    pub value: Option<Value>,
    pub operation_id: OperationId,
    pub is_deleted: bool,
}

pub open spec fn opt_view(v: Option<Vec<u8>>) -> Option<Seq<u8>> {
    match v {
        Some(x) => Some(x@),
        None => None,
    }
}

/// The entry a put of `value` under `id` records.
pub open spec fn put_entry(key: Seq<u8>, value: Seq<u8>, id: OperationId) -> EntryView {
    EntryView { key, value: Some(value), operation_id: id, is_deleted: false }
}

/// The tombstone a delete under `id` records.
pub open spec fn tombstone(key: Seq<u8>, id: OperationId) -> EntryView {
    EntryView { key, value: None, operation_id: id, is_deleted: true }
}

impl View for Entry {
    type V = EntryView;

    open spec fn view(&self) -> EntryView {
        EntryView {
            key: self.key@,
            value: opt_view(self.value),
            operation_id: self.operation_id,
            is_deleted: self.is_deleted,
        }
    }
}

impl EntryView {
    /// A tombstone carries no value; a live entry carries one.
    pub open spec fn wf(&self) -> bool {
        self.is_deleted <==> self.value is None
    }
}

impl Entry {
    pub fn new_put(key: Key, value: Value, operation_id: OperationId) -> (r: Self)
        ensures
            r@ == put_entry(key@, value@, operation_id),
    {
        Entry { key, value: Some(value), operation_id, is_deleted: false }
    }

    pub fn new_delete(key: Key, operation_id: OperationId) -> (r: Self)
        ensures
            r@ == tombstone(key@, operation_id),
    {
        Entry { key, value: None, operation_id, is_deleted: true }
    }
}

/// A record of what happened to the store.
#[derive(Debug, Clone, PartialEq, Eq)]
pub enum DatabaseEvent {
    WriteEvent { operation: Operation, operation_id: OperationId },
    ReadEvent { key: Key, operation_id: OperationId },
    CompactionEvent { level: usize, operation_id: OperationId },
}

/// Tunables. Only `btree_node_size` shapes the index; the rest are for the durable store.
#[derive(Debug, Clone, Copy, PartialEq, Eq, Structural)]
pub struct DatabaseConfig {
    pub max_memtable_size: usize,
    pub max_sstable_size: usize,
    pub max_levels: usize,
    pub compaction_threshold: usize,
    pub btree_node_size: usize,
}

pub const DEFAULT_MAX_MEMTABLE_SIZE: usize = 1048576;

pub const DEFAULT_MAX_SSTABLE_SIZE: usize = 10485760;

pub const DEFAULT_MAX_LEVELS: usize = 7;

pub const DEFAULT_COMPACTION_THRESHOLD: usize = 4;

pub const DEFAULT_BTREE_NODE_SIZE: usize = 4096;

/// The default configuration.
pub open spec fn default_config() -> DatabaseConfig {
    DatabaseConfig {
        max_memtable_size: DEFAULT_MAX_MEMTABLE_SIZE,
        max_sstable_size: DEFAULT_MAX_SSTABLE_SIZE,
        max_levels: DEFAULT_MAX_LEVELS,
        compaction_threshold: DEFAULT_COMPACTION_THRESHOLD,
        btree_node_size: DEFAULT_BTREE_NODE_SIZE,
    }
}

impl Default for DatabaseConfig {
    fn default() -> (r: Self)
        ensures
            r == default_config(),
    {
        DatabaseConfig {
            max_memtable_size: DEFAULT_MAX_MEMTABLE_SIZE,
            max_sstable_size: DEFAULT_MAX_SSTABLE_SIZE,
            max_levels: DEFAULT_MAX_LEVELS,
            compaction_threshold: DEFAULT_COMPACTION_THRESHOLD,
            btree_node_size: DEFAULT_BTREE_NODE_SIZE,
        }
    }
}

} // verus!

verus! {

/// An entry's value, viewed.
pub open spec fn entry_opt_view(e: Option<Entry>) -> Option<EntryView> {
    match e {
        Some(x) => Some(x@),
        None => None,
    }
}

/// Copies a key or value byte for byte.
pub fn copy_bytes(b: &Vec<u8>) -> (r: Vec<u8>)
    ensures
        r@ == b@,
{
    let mut r: Vec<u8> = Vec::new();
    let mut i: usize = 0;
    while i < b.len()
        invariant
            i <= b.len(),
            r@ == b@.subrange(0, i as int),
        decreases b.len() - i,
    {
        r.push(b[i]);
        i = i + 1;
        assert(r@ =~= b@.subrange(0, i as int));
    }
    assert(b@.subrange(0, b.len() as int) =~= b@);
    r
}

impl Entry {
    /// A copy of this entry with the same content.
    pub fn duplicate(&self) -> (r: Entry)
        ensures
            r@ == self@,
    {
        let value = match &self.value {
            Some(v) => Some(copy_bytes(v)),
            None => None,
        };
        Entry {
            key: copy_bytes(&self.key),
            value,
            operation_id: self.operation_id,
            is_deleted: self.is_deleted,
        }
    }
}

} // verus!
