//! Properties of the index's write and read rules, proved over its model.
use vstd::prelude::*;
use crate::btree::{apply_write, in_range, is_listing, lookup};
use crate::database::indexed_value;
use crate::key::key_lt;
use crate::types::{EntryView, OperationId, op_lt, put_entry, tombstone};

verus! {

/// The index after applying the writes of `ws` in order, starting from `m`.
pub open spec fn apply_all(m: Map<Seq<u8>, EntryView>, ws: Seq<EntryView>) -> Map<
    Seq<u8>,
    EntryView,
>
    decreases ws.len(),
{
    if ws.len() == 0 {
        m
    } else {
        apply_write(apply_all(m, ws.drop_last()), ws.last())
    }
}

/// No two writes share an operation identifier.
pub open spec fn distinct_ids(ws: Seq<EntryView>) -> bool {
    forall|i: int, j: int|
        0 <= i < ws.len() && 0 <= j < ws.len() && i != j ==> #[trigger] ws[i].operation_id
            != #[trigger] ws[j].operation_id
}

/// `ws[i]` is the write to `k` with the greatest operation identifier.
pub open spec fn newest(ws: Seq<EntryView>, k: Seq<u8>, i: int) -> bool {
    &&& 0 <= i < ws.len()
    &&& ws[i].key == k
    &&& forall|j: int|
        0 <= j < ws.len() && #[trigger] ws[j].key == k && j != i ==> op_lt(
            ws[j].operation_id,
            ws[i].operation_id,
        )
}

/// Every write is newer than what `m` records for its key.
pub open spec fn newer_than_index(m: Map<Seq<u8>, EntryView>, ws: Seq<EntryView>) -> bool {
    forall|i: int|
        0 <= i < ws.len() && m.contains_key(#[trigger] ws[i].key) ==> op_lt(
            m[ws[i].key].operation_id,
            ws[i].operation_id,
        )
}

/// Whether some write of `ws` is to `k`.
pub open spec fn written(ws: Seq<EntryView>, k: Seq<u8>) -> bool {
    exists|i: int| 0 <= i < ws.len() && ws[i].key == k
}

/// Starting from an index older than every write, a key is recorded exactly when it was
/// recorded before or some write touched it; a written key holds the write to it with the
/// greatest operation identifier, and an unwritten one keeps what it held.
pub proof fn lemma_newest_write_wins(m: Map<Seq<u8>, EntryView>, ws: Seq<EntryView>)
    requires
        distinct_ids(ws),
        newer_than_index(m, ws),
    ensures
        forall|k: Seq<u8>|
            #[trigger] apply_all(m, ws).contains_key(k) <==> m.contains_key(k) || written(ws, k),
        forall|k: Seq<u8>|
            written(ws, k) ==> exists|i: int|
                newest(ws, k, i) && #[trigger] apply_all(m, ws)[k] == ws[i],
        forall|k: Seq<u8>|
            !written(ws, k) && m.contains_key(k) ==> #[trigger] apply_all(m, ws)[k] == m[k],
    decreases ws.len(),
{
    if ws.len() > 0 {
        let pre = ws.drop_last();
        let w = ws.last();
        let n = ws.len() - 1;
        assert(distinct_ids(pre)) by {
            assert forall|i: int, j: int|
                0 <= i < pre.len() && 0 <= j < pre.len() && i != j implies #[trigger] pre[i].operation_id
                    != #[trigger] pre[j].operation_id by {
                assert(ws[i].operation_id != ws[j].operation_id);
            }
        }
        assert(newer_than_index(m, pre)) by {
            assert forall|i: int| 0 <= i < pre.len() && m.contains_key(#[trigger] pre[i].key) implies op_lt(
                m[pre[i].key].operation_id,
                pre[i].operation_id,
            ) by {
                assert(ws[i] == pre[i]);
            }
        }
        lemma_newest_write_wins(m, pre);
        let m0 = apply_all(m, pre);
        let m1 = apply_all(m, ws);
        assert(m1 == apply_write(m0, w));
        assert forall|k: Seq<u8>| written(ws, k) <==> written(pre, k) || k == w.key by {
            if written(ws, k) {
                let i = choose|i: int| 0 <= i < ws.len() && ws[i].key == k;
                if i < n {
                    assert(pre[i].key == k);
                }
            }
            if written(pre, k) {
                let i = choose|i: int| 0 <= i < pre.len() && pre[i].key == k;
                assert(ws[i].key == k);
            }
            if k == w.key {
                assert(ws[n].key == k);
            }
        }
        assert forall|k: Seq<u8>| #[trigger] m1.contains_key(k) <==> m.contains_key(k) || written(ws, k) by {}
        assert forall|k: Seq<u8>| written(ws, k) implies exists|i: int|
            newest(ws, k, i) && #[trigger] m1[k] == ws[i] by {
            if k != w.key {
                let i = choose|i: int| newest(pre, k, i) && m0[k] == pre[i];
                assert forall|j: int|
                    0 <= j < ws.len() && #[trigger] ws[j].key == k && j != i implies op_lt(
                    ws[j].operation_id,
                    ws[i].operation_id,
                ) by {
                    assert(pre[j].key == k);
                }
                assert(newest(ws, k, i));
            } else if !written(pre, k) {
                if m0.contains_key(k) {
                    assert(m0[k] == m[k]);
                    assert(ws[n].key == k && m.contains_key(ws[n].key));
                }
                assert forall|j: int|
                    0 <= j < ws.len() && #[trigger] ws[j].key == k && j != n implies op_lt(
                    ws[j].operation_id,
                    ws[n].operation_id,
                ) by {
                    assert(pre[j].key == k);
                }
                assert(newest(ws, k, n));
            } else {
                let i = choose|i: int| newest(pre, k, i) && m0[k] == pre[i];
                assert(ws[i] == pre[i]);
                assert(ws[i].operation_id != ws[n].operation_id);
                if op_lt(w.operation_id, m0[k].operation_id) {
                    assert forall|j: int|
                        0 <= j < ws.len() && #[trigger] ws[j].key == k && j != i implies op_lt(
                        ws[j].operation_id,
                        ws[i].operation_id,
                    ) by {
                        if j < n {
                            assert(pre[j].key == k);
                        }
                    }
                    assert(newest(ws, k, i));
                } else {
                    assert forall|j: int|
                        0 <= j < ws.len() && #[trigger] ws[j].key == k && j != n implies op_lt(
                        ws[j].operation_id,
                        ws[n].operation_id,
                    ) by {
                        assert(pre[j].key == k);
                        if j != i {
                            assert(op_lt(pre[j].operation_id, pre[i].operation_id));
                        }
                    }
                    assert(newest(ws, k, n));
                }
            }
        }
        assert forall|k: Seq<u8>| !written(ws, k) && m.contains_key(k) implies #[trigger] m1[k] == m[k] by {
            assert(!written(pre, k) && k != w.key);
        }
    }
}

/// Writes with distinct operation identifiers, each newer than what the index records for
/// its key, give the same index whatever order they are applied in: two sequences holding
/// the same writes, applied to one index, end in the same index.
pub proof fn lemma_order_independent(
    m: Map<Seq<u8>, EntryView>,
    ws1: Seq<EntryView>,
    ws2: Seq<EntryView>,
)
    requires
        distinct_ids(ws1),
        distinct_ids(ws2),
        newer_than_index(m, ws1),
        forall|w: EntryView| ws1.contains(w) <==> ws2.contains(w),
    ensures
        apply_all(m, ws1) == apply_all(m, ws2),
{
    assert(newer_than_index(m, ws2)) by {
        assert forall|i: int| 0 <= i < ws2.len() && m.contains_key(#[trigger] ws2[i].key) implies op_lt(
            m[ws2[i].key].operation_id,
            ws2[i].operation_id,
        ) by {
            assert(ws2.contains(ws2[i]));
            let j = choose|j: int| 0 <= j < ws1.len() && ws1[j] == ws2[i];
        }
    }
    lemma_newest_write_wins(m, ws1);
    lemma_newest_write_wins(m, ws2);
    let m1 = apply_all(m, ws1);
    let m2 = apply_all(m, ws2);
    assert forall|k: Seq<u8>| written(ws1, k) <==> written(ws2, k) by {
        if written(ws1, k) {
            let i = choose|i: int| 0 <= i < ws1.len() && ws1[i].key == k;
            assert(ws1.contains(ws1[i]));
            let j = choose|j: int| 0 <= j < ws2.len() && ws2[j] == ws1[i];
        }
        if written(ws2, k) {
            let i = choose|i: int| 0 <= i < ws2.len() && ws2[i].key == k;
            assert(ws2.contains(ws2[i]));
            let j = choose|j: int| 0 <= j < ws1.len() && ws1[j] == ws2[i];
        }
    }
    assert forall|k: Seq<u8>| m1.contains_key(k) <==> m2.contains_key(k) by {}
    assert forall|k: Seq<u8>| m1.contains_key(k) implies m1[k] == m2[k] by {
        if written(ws1, k) {
            let i1 = choose|i: int| newest(ws1, k, i) && m1[k] == ws1[i];
            let i2 = choose|i: int| newest(ws2, k, i) && m2[k] == ws2[i];
            assert(ws1.contains(ws1[i1]));
            assert(ws2.contains(ws2[i2]));
            let j2 = choose|j: int| 0 <= j < ws2.len() && ws2[j] == ws1[i1];
            let j1 = choose|j: int| 0 <= j < ws1.len() && ws1[j] == ws2[i2];
            if j2 != i2 {
                assert(op_lt(ws2[j2].operation_id, ws2[i2].operation_id));
                if j1 != i1 {
                    assert(op_lt(ws1[j1].operation_id, ws1[i1].operation_id));
                } else {
                    assert(ws1[i1] == ws2[i2]);
                }
            }
        }
    }
    assert(m1 =~= m2);
}

/// A write older than the one recorded for its key is rejected: the newer value stays.
/// (The first put takes effect only if nothing newer than it was recorded before.)
pub proof fn lemma_stale_write_rejected(
    m: Map<Seq<u8>, EntryView>,
    k: Seq<u8>,
    v1: Seq<u8>,
    v2: Seq<u8>,
    id0: OperationId,
    id1: OperationId,
)
    requires
        op_lt(id0, id1),
        m.contains_key(k) ==> !op_lt(id1, m[k].operation_id),
    ensures
        lookup(apply_write(apply_write(m, put_entry(k, v1, id1)), put_entry(k, v2, id0)), k)
            == Some(put_entry(k, v1, id1)),
{
}

/// A delete newer than every earlier write to its key leaves a tombstone, which the
/// coordinator reads as no value without consulting the durable store.
pub proof fn lemma_tombstone_precedence(m: Map<Seq<u8>, EntryView>, k: Seq<u8>, id: OperationId)
    requires
        m.contains_key(k) ==> op_lt(m[k].operation_id, id),
    ensures
        apply_write(m, tombstone(k, id)).contains_key(k),
        apply_write(m, tombstone(k, id))[k] == tombstone(k, id),
        indexed_value(apply_write(m, tombstone(k, id))[k]) is None,
{
}

/// After any sequence of puts, the full scan lists each written key once, in ascending
/// order, with the value of its latest write.
pub proof fn lemma_full_scan_after_puts(ws: Seq<EntryView>, s: Seq<EntryView>)
    requires
        distinct_ids(ws),
        forall|i: int| 0 <= i < ws.len() ==> !(#[trigger] ws[i]).is_deleted,
        is_listing(apply_all(Map::empty(), ws), None, None, s),
    ensures
        forall|a: int, b: int| 0 <= a < b < s.len() ==> key_lt(#[trigger] s[a].key, #[trigger] s[b].key),
        forall|a: int| 0 <= a < s.len() ==> exists|i: int| newest(ws, #[trigger] s[a].key, i) && s[a] == ws[i],
        forall|i: int| 0 <= i < ws.len() ==> exists|a: int| 0 <= a < s.len() && #[trigger] s[a].key == (#[trigger] ws[i]).key,
{
    lemma_newest_write_wins(Map::empty(), ws);
    let m = apply_all(Map::empty(), ws);
    assert forall|i: int| 0 <= i < ws.len() implies exists|a: int| 0 <= a < s.len() && #[trigger] s[a].key == (#[trigger] ws[i]).key by {
        let k = ws[i].key;
        assert(written(ws, k));
        assert(m.contains_key(k));
        let j = choose|j: int| newest(ws, k, j) && m[k] == ws[j];
        assert(!ws[j].is_deleted);
        assert(in_range(k, None, None));
    }
}

/// Writes to different keys commute, whatever their operation identifiers and whatever the
/// index held before.
pub proof fn lemma_writes_to_different_keys_commute(
    m: Map<Seq<u8>, EntryView>,
    e1: EntryView,
    e2: EntryView,
)
    requires
        e1.key != e2.key,
    ensures
        apply_write(apply_write(m, e1), e2) == apply_write(apply_write(m, e2), e1),
{
    let a = apply_write(apply_write(m, e1), e2);
    let b = apply_write(apply_write(m, e2), e1);
    assert(a =~= b);
}

/// A write older than what the index records for its key leaves the index as it was.
pub proof fn lemma_stale_write_is_noop(m: Map<Seq<u8>, EntryView>, e: EntryView)
    requires
        m.contains_key(e.key),
        op_lt(e.operation_id, m[e.key].operation_id),
    ensures
        apply_write(m, e) == m,
{
}

} // verus!
