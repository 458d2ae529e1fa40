//! The coordinator: writes go to the durable store first, then to the index; reads ask the
//! index first and fall back to the durable store only for keys the index has never seen.
use vstd::prelude::*;
use crate::btree::{BTree, MIN_ORDER};
use crate::error::DatabaseError;
use crate::lsm::{
    LSMTree, OUT_OF_BOUNDS, SEQUENCE_EXHAUSTED, durable_lookup, invalid_with, valid_key,
    valid_write,
};
use crate::types::{
    DatabaseConfig, EntryView, Key, OperationId, Value, default_config, op_lt, opt_view, put_entry,
    tombstone,
};

verus! {

pub const INDEX_FULL: &'static str = "index is full";

/// Where the store lives when the builder is given no path.
pub const DEFAULT_BASE_PATH: &'static str = "/tmp/lsm_btree_db";

/// The store: a durable write path and an in-memory read index over the same keys.
pub struct Database {
    lsm_tree: LSMTree,
    btree: BTree,
    config: DatabaseConfig,
    path: String,
    closed: bool,
}

/// What the index answers for a key it holds: the value, or none for a tombstone.
pub open spec fn indexed_value(e: EntryView) -> Option<Seq<u8>> {
    e.value
}

/// The order an index takes from a configured node size.
pub open spec fn order_for(config: DatabaseConfig) -> usize {
    if config.btree_node_size < MIN_ORDER {
        MIN_ORDER
    } else {
        config.btree_node_size
    }
}

impl Database {
    /// Both parts are well formed, and no write in the index is newer than the last
    /// identifier the durable store issued.
    pub closed spec fn wf(&self) -> bool {
        &&& self.btree.wf()
        &&& self.lsm_tree.wf()
        &&& forall|k: Seq<u8>|
            #[trigger] self.btree@.contains_key(k) ==> !op_lt(
                self.lsm_tree.last_id(),
                self.btree@[k].operation_id,
            )
    }

    /// What the index maps each key to.
    pub closed spec fn index_view(&self) -> Map<Seq<u8>, EntryView> {
        self.btree@
    }

    pub closed spec fn index_spec(&self) -> BTree {
        self.btree
    }

    /// What reads of the durable store return for each key.
    pub closed spec fn durable_view(&self) -> Map<Seq<u8>, Seq<u8>> {
        self.lsm_tree.contents()
    }

    /// The identifier of the last write the durable store issued.
    pub closed spec fn last_id(&self) -> OperationId {
        self.lsm_tree.last_id()
    }

    /// The sequence number of the last write the durable store issued.
    pub closed spec fn sequence_spec(&self) -> u64 {
        self.lsm_tree.sequence_spec()
    }

    /// The highest sequence number the durable store holds.
    pub closed spec fn durable_highest(&self) -> Option<u64> {
        self.lsm_tree.highest_spec()
    }

    /// Whether the durable store takes a write of `v` under `k` without flushing first.
    pub closed spec fn durable_has_room(&self, k: Seq<u8>, v: Seq<u8>) -> bool {
        self.lsm_tree.has_room(k, v)
    }

    pub closed spec fn is_closed(&self) -> bool {
        self.closed
    }

    pub closed spec fn config_spec(&self) -> DatabaseConfig {
        self.config
    }

    /// Where the durable store was opened.
    pub closed spec fn path_spec(&self) -> Seq<char> {
        self.path@
    }

    /// Opens the durable store at `path` and starts an empty index shaped by `config`.
    pub fn new(path: &str, config: DatabaseConfig) -> (r: Result<Self, DatabaseError>)
        ensures
            r is Ok ==> {
                let db = r->Ok_0;
                &&& db.wf()
                &&& db.index_view() == Map::<Seq<u8>, EntryView>::empty()
                &&& db.index_spec().size_spec() == 0
                &&& db.index_spec().order_spec() == order_for(config)
                &&& !db.is_closed()
                &&& db.config_spec() == config
                &&& db.path_spec() == path@
                &&& db.sequence_spec() == match db.durable_highest() {
                    Some(s) => s,
                    None => 0,
                }
            },
            r is Err ==> r->Err_0 is InvalidOperation,
    {
        let lsm_tree = LSMTree::new(path)?;
        let btree = BTree::new(config);
        Ok(Database { lsm_tree, btree, config, path: String::from_str(path), closed: false })
    }

    /// The read index, for inspection.
    pub fn index(&self) -> (r: &BTree)
        requires
            self.wf(),
        ensures
            *r == self.index_spec(),
            r.wf(),
            r@ == self.index_view(),
    {
        &self.btree
    }

    /// Writes `value` under `key`: durably first, then into the index under the identifier the
    /// durable store issued, which is newer than every earlier one. On failure nothing changes.
    pub fn put(&mut self, key: Key, value: Value) -> (r: Result<(), DatabaseError>)
        requires
            old(self).wf(),
        ensures
            final(self).wf(),
            final(self).is_closed() == old(self).is_closed(),
            old(self).is_closed() ==> r == Err::<(), DatabaseError>(DatabaseError::DatabaseClosed),
            !old(self).is_closed() && old(self).index_spec().size_spec() == usize::MAX ==> r is Err
                && invalid_with(r->Err_0, INDEX_FULL@),
            !old(self).is_closed() && old(self).index_spec().size_spec() < usize::MAX
                && !valid_write(key@, value@) ==> r is Err && invalid_with(r->Err_0, OUT_OF_BOUNDS@),
            !old(self).is_closed() && old(self).index_spec().size_spec() < usize::MAX && valid_write(
                key@,
                value@,
            ) && old(self).sequence_spec() == u64::MAX ==> r is Err && invalid_with(
                r->Err_0,
                SEQUENCE_EXHAUSTED@,
            ),
            !old(self).is_closed() && old(self).index_spec().size_spec() < usize::MAX && valid_write(
                key@,
                value@,
            ) && old(self).sequence_spec() < u64::MAX && old(self).durable_has_room(key@, value@)
                ==> r is Ok,
            r is Ok ==> {
                &&& op_lt(old(self).last_id(), final(self).last_id())
                &&& final(self).sequence_spec() == old(self).sequence_spec() + 1
                &&& final(self).index_view() == old(self).index_view().insert(
                    key@,
                    put_entry(key@, value@, final(self).last_id()),
                )
                &&& final(self).durable_view() == old(self).durable_view().insert(key@, value@)
                &&& final(self).index_spec().size_spec() == if old(self).index_view().contains_key(
                    key@,
                ) {
                    old(self).index_spec().size_spec()
                } else {
                    old(self).index_spec().size_spec() + 1
                }
            },
            r is Err ==> final(self).index_view() == old(self).index_view()
                && final(self).durable_view() == old(self).durable_view()
                && final(self).sequence_spec() == old(self).sequence_spec()
                && final(self).last_id() == old(self).last_id()
                && final(self).index_spec().size_spec() == old(self).index_spec().size_spec(),
            r is Err && !old(self).is_closed() ==> r->Err_0 is InvalidOperation,
    {
        if self.closed {
            return Err(DatabaseError::DatabaseClosed);
        }
        if self.btree.size() == usize::MAX {
            return Err(DatabaseError::InvalidOperation(String::from_str(INDEX_FULL)));
        }
        let id = self.lsm_tree.put(&key, &value)?;
        let ghost m = self.btree@;
        self.btree.put(key, value, id);
        proof {
            assert(self.btree@ =~= m.insert(key@, put_entry(key@, value@, id)));
        }
        Ok(())
    }

    /// Deletes `key`: durably first, then as a tombstone in the index under the identifier the
    /// durable store issued, which is newer than every earlier one. On failure nothing changes.
    pub fn delete(&mut self, key: Key) -> (r: Result<(), DatabaseError>)
        requires
            old(self).wf(),
        ensures
            final(self).wf(),
            final(self).is_closed() == old(self).is_closed(),
            old(self).is_closed() ==> r == Err::<(), DatabaseError>(DatabaseError::DatabaseClosed),
            !old(self).is_closed() && old(self).index_spec().size_spec() == usize::MAX ==> r is Err
                && invalid_with(r->Err_0, INDEX_FULL@),
            !old(self).is_closed() && old(self).index_spec().size_spec() < usize::MAX && !valid_key(
                key@,
            ) ==> r is Err && invalid_with(r->Err_0, OUT_OF_BOUNDS@),
            !old(self).is_closed() && old(self).index_spec().size_spec() < usize::MAX && valid_key(
                key@,
            ) && old(self).sequence_spec() == u64::MAX ==> r is Err && invalid_with(
                r->Err_0,
                SEQUENCE_EXHAUSTED@,
            ),
            !old(self).is_closed() && old(self).index_spec().size_spec() < usize::MAX && valid_key(
                key@,
            ) && old(self).sequence_spec() < u64::MAX && old(self).durable_has_room(
                key@,
                Seq::<u8>::empty(),
            ) ==> r is Ok,
            r is Ok ==> {
                &&& op_lt(old(self).last_id(), final(self).last_id())
                &&& final(self).sequence_spec() == old(self).sequence_spec() + 1
                &&& final(self).index_view() == old(self).index_view().insert(
                    key@,
                    tombstone(key@, final(self).last_id()),
                )
                &&& final(self).durable_view() == old(self).durable_view().remove(key@)
                &&& final(self).index_spec().size_spec() == if old(self).index_view().contains_key(
                    key@,
                ) {
                    old(self).index_spec().size_spec()
                } else {
                    old(self).index_spec().size_spec() + 1
                }
            },
            r is Err ==> final(self).index_view() == old(self).index_view()
                && final(self).durable_view() == old(self).durable_view()
                && final(self).sequence_spec() == old(self).sequence_spec()
                && final(self).last_id() == old(self).last_id()
                && final(self).index_spec().size_spec() == old(self).index_spec().size_spec(),
            r is Err && !old(self).is_closed() ==> r->Err_0 is InvalidOperation,
    {
        if self.closed {
            return Err(DatabaseError::DatabaseClosed);
        }
        if self.btree.size() == usize::MAX {
            return Err(DatabaseError::InvalidOperation(String::from_str(INDEX_FULL)));
        }
        let id = self.lsm_tree.delete(&key)?;
        let ghost m = self.btree@;
        self.btree.delete(key, id);
        proof {
            assert(self.btree@ =~= m.insert(key@, tombstone(key@, id)));
        }
        Ok(())
    }

    /// The value under `key`. An entry of the index decides, a tombstone meaning none; only a
    /// key the index has never seen is read from the durable store, whose answer or error is
    /// returned as it is.
    pub fn get(&self, key: &Key) -> (r: Result<Option<Value>, DatabaseError>)
        requires
            self.wf(),
        ensures
            self.is_closed() ==> r == Err::<Option<Value>, DatabaseError>(
                DatabaseError::DatabaseClosed,
            ),
            !self.is_closed() && self.index_view().contains_key(key@) ==> r is Ok && opt_view(
                r->Ok_0,
            ) == indexed_value(self.index_view()[key@]),
            !self.is_closed() && !self.index_view().contains_key(key@) ==> {
                &&& (valid_key(key@) && r is Ok ==> opt_view(r->Ok_0) == durable_lookup(
                    self.durable_view(),
                    key@,
                ))
                &&& (r is Err ==> r->Err_0 is InvalidOperation)
                &&& (!valid_key(key@) ==> r is Ok && r->Ok_0 is None)
            },
    {
        if self.closed {
            return Err(DatabaseError::DatabaseClosed);
        }
        match self.btree.get(key) {
            Some(entry) => {
                if entry.is_deleted {
                    Ok(None)
                } else {
                    Ok(entry.value)
                }
            },
            None => self.lsm_tree.get(key),
        }
    }

    /// Persists every write so far in the durable store; what reads return is unchanged.
    pub fn flush(&mut self) -> (r: Result<(), DatabaseError>)
        requires
            old(self).wf(),
        ensures
            final(self).wf(),
            final(self).is_closed() == old(self).is_closed(),
            final(self).index_view() == old(self).index_view(),
            final(self).index_spec().size_spec() == old(self).index_spec().size_spec(),
            final(self).durable_view() == old(self).durable_view(),
            final(self).sequence_spec() == old(self).sequence_spec(),
            final(self).last_id() == old(self).last_id(),
            old(self).is_closed() ==> r == Err::<(), DatabaseError>(DatabaseError::DatabaseClosed),
            r is Err && !old(self).is_closed() ==> r->Err_0 is InvalidOperation,
    {
        if self.closed {
            return Err(DatabaseError::DatabaseClosed);
        }
        self.lsm_tree.flush()
    }

    /// Closes the store; every later operation is refused. Closing twice is harmless.
    pub fn close(&mut self) -> (r: Result<(), DatabaseError>)
        requires
            old(self).wf(),
        ensures
            r is Ok,
            final(self).wf(),
            final(self).is_closed(),
            final(self).index_view() == old(self).index_view(),
            final(self).durable_view() == old(self).durable_view(),
    {
        self.closed = true;
        Ok(())
    }
}

/// Assembles a `Database` from an optional configuration and an optional path.
pub struct DatabaseBuilder {
    config: Option<DatabaseConfig>,
    base_path: Option<String>,
}

impl DatabaseBuilder {
    pub closed spec fn config_spec(&self) -> Option<DatabaseConfig> {
        self.config
    }

    pub closed spec fn base_path_spec(&self) -> Option<Seq<char>> {
        match self.base_path {
            Some(p) => Some(p@),
            None => None,
        }
    }

    /// The configuration `build` uses: the one given, else the default.
    pub open spec fn effective_config_spec(&self) -> DatabaseConfig {
        match self.config_spec() {
            Some(c) => c,
            None => default_config(),
        }
    }

    /// The path `build` opens: the one given, else `DEFAULT_BASE_PATH`.
    pub open spec fn effective_path_spec(&self) -> Seq<char> {
        match self.base_path_spec() {
            Some(p) => p,
            None => DEFAULT_BASE_PATH@,
        }
    }

    pub fn new() -> (r: Self)
        ensures
            r.config_spec() is None,
            r.base_path_spec() is None,
    {
        DatabaseBuilder { config: None, base_path: None }
    }

    pub fn with_config(self, config: DatabaseConfig) -> (r: Self)
        ensures
            r.config_spec() == Some(config),
            r.base_path_spec() == self.base_path_spec(),
    {
        DatabaseBuilder { config: Some(config), base_path: self.base_path }
    }

    pub fn with_base_path(self, path: String) -> (r: Self)
        ensures
            r.config_spec() == self.config_spec(),
            r.base_path_spec() == Some(path@),
    {
        DatabaseBuilder { config: self.config, base_path: Some(path) }
    }

    /// The configuration `build` uses: the one given, else the default.
    pub fn effective_config(&self) -> (r: DatabaseConfig)
        ensures
            r == self.effective_config_spec(),
    {
        match self.config {
            Some(c) => c,
            None => DatabaseConfig::default(),
        }
    }

    /// Opens the store with the configuration given, else the default, at the path given,
    /// else `DEFAULT_BASE_PATH`.
    pub fn build(self) -> (r: Result<Database, DatabaseError>)
        ensures
            r is Ok ==> {
                let db = r->Ok_0;
                &&& db.wf()
                &&& db.index_view() == Map::<Seq<u8>, EntryView>::empty()
                &&& db.index_spec().size_spec() == 0
                &&& db.index_spec().order_spec() == order_for(self.effective_config_spec())
                &&& !db.is_closed()
                &&& db.config_spec() == self.effective_config_spec()
                &&& db.path_spec() == self.effective_path_spec()
                &&& db.sequence_spec() == match db.durable_highest() {
                    Some(s) => s,
                    None => 0,
                }
            },
            r is Err ==> r->Err_0 is InvalidOperation,
    {
        let config = self.effective_config();
        match self.base_path {
            Some(path) => Database::new(path.as_str(), config),
            None => Database::new(DEFAULT_BASE_PATH, config),
        }
    }
}

} // verus!
