//! The read index: a tree whose root orders a run of bounded leaves.
//!
//! Each leaf holds between one and `order - 1` entries in strictly increasing
//! key order, and every key of a leaf sorts before every key of the next one.
//! A leaf that fills up to `order` entries splits at its median into two
//! siblings. Deletes never remove a key: they store a tombstone, so the
//! structure only ever grows.
use vstd::prelude::*;
use crate::key::{
    KeyOrder, compare_keys, key_le, key_lt, lemma_key_le_lt_transitive,
    lemma_key_lt_irreflexive, lemma_key_lt_le_transitive, lemma_key_lt_total,
    lemma_key_lt_transitive,
};
use crate::types::{
    DatabaseConfig, Entry, EntryView, Key, OperationId, Value, entry_opt_view, op_lt, put_entry,
    tombstone,
};

verus! {

/// A leaf of the index: entries in strictly increasing key order.
pub struct BTreeNode {
    pub entries: Vec<Entry>,
}

/// The smallest order the index runs with: a split must leave both halves non-empty.
pub const MIN_ORDER: usize = 3;

/// The index.
pub struct BTree {
    leaves: Vec<BTreeNode>,
    order: usize,
    count: usize,
}

/// The entries of leaf `i`.
pub open spec fn lf(ls: Seq<BTreeNode>, i: int) -> Seq<Entry> {
    ls[i].entries@
}

/// The key at position `j` of leaf `i`.
pub open spec fn kat(ls: Seq<BTreeNode>, i: int, j: int) -> Seq<u8> {
    ls[i].entries@[j].key@
}

pub open spec fn is_pos(ls: Seq<BTreeNode>, i: int, j: int) -> bool {
    0 <= i < ls.len() && 0 <= j < lf(ls, i).len()
}

/// Entries in strictly increasing key order.
pub open spec fn sorted_entries(s: Seq<Entry>) -> bool {
    forall|a: int, b: int| 0 <= a < b < s.len() ==> key_lt(#[trigger] s[a].key@, #[trigger] s[b].key@)
}

/// Leaves are non-empty and sorted, each before the next, and hold well-formed entries.
pub open spec fn ordered(ls: Seq<BTreeNode>) -> bool {
    &&& forall|i: int| 0 <= i < ls.len() ==> #[trigger] lf(ls, i).len() > 0
    &&& forall|i: int| 0 <= i < ls.len() ==> sorted_entries(#[trigger] lf(ls, i))
    &&& forall|i: int|
        0 <= i < ls.len() - 1 ==> key_lt(
            #[trigger] kat(ls, i, lf(ls, i).len() - 1),
            kat(ls, i + 1, 0),
        )
    &&& forall|i: int, j: int| is_pos(ls, i, j) ==> (#[trigger] lf(ls, i)[j])@.wf()
}

/// How many entries the leaves hold together.
pub open spec fn total_len(ls: Seq<BTreeNode>) -> nat
    decreases ls.len(),
{
    if ls.len() == 0 {
        0
    } else {
        total_len(ls.drop_last()) + ls.last().entries@.len()
    }
}

pub open spec fn has_key(ls: Seq<BTreeNode>, k: Seq<u8>) -> bool {
    exists|p: (int, int)| is_pos(ls, p.0, p.1) && kat(ls, p.0, p.1) == k
}

/// What the leaves map each key to.
pub open spec fn model(ls: Seq<BTreeNode>) -> Map<Seq<u8>, EntryView> {
    Map::new(
        |k: Seq<u8>| has_key(ls, k),
        |k: Seq<u8>|
            {
                let p = choose|p: (int, int)| is_pos(ls, p.0, p.1) && kat(ls, p.0, p.1) == k;
                lf(ls, p.0)[p.1]@
            },
    )
}

/// What a map holds for `k`, if anything.
pub open spec fn lookup(m: Map<Seq<u8>, EntryView>, k: Seq<u8>) -> Option<EntryView> {
    if m.contains_key(k) {
        Some(m[k])
    } else {
        None
    }
}

/// Last writer wins by operation order: a write older than what is recorded changes nothing.
pub open spec fn apply_write(m: Map<Seq<u8>, EntryView>, e: EntryView) -> Map<
    Seq<u8>,
    EntryView,
> {
    if m.contains_key(e.key) && op_lt(e.operation_id, m[e.key].operation_id) {
        m
    } else {
        m.insert(e.key, e)
    }
}

/// Whether `k` lies within the bounds: `start <= k < end`, an absent bound being open.
pub open spec fn in_range(k: Seq<u8>, start: Option<Seq<u8>>, end: Option<Seq<u8>>) -> bool {
    &&& match start {
        Some(s) => key_le(s, k),
        None => true,
    }
    &&& match end {
        Some(e) => key_lt(k, e),
        None => true,
    }
}

/// Every key of a leaf sorts before the first key of any later leaf.
pub proof fn lemma_cross(ls: Seq<BTreeNode>, i1: int, j1: int, i2: int)
    requires
        ordered(ls),
        is_pos(ls, i1, j1),
        i1 < i2 < ls.len(),
    ensures
        key_lt(kat(ls, i1, j1), kat(ls, i2, 0)),
    decreases i2 - i1,
{
    let last = lf(ls, i2 - 1).len() - 1;
    assert(lf(ls, i2 - 1).len() > 0);
    assert(key_lt(kat(ls, i2 - 1, last), kat(ls, i2, 0)));
    if i2 == i1 + 1 {
        if j1 < last {
            assert(sorted_entries(lf(ls, i1)));
            assert(key_lt(lf(ls, i1)[j1].key@, lf(ls, i1)[last].key@));
            lemma_key_lt_transitive(kat(ls, i1, j1), kat(ls, i1, last), kat(ls, i2, 0));
        }
    } else {
        lemma_cross(ls, i1, j1, i2 - 1);
        if last > 0 {
            assert(sorted_entries(lf(ls, i2 - 1)));
            assert(key_lt(lf(ls, i2 - 1)[0].key@, lf(ls, i2 - 1)[last].key@));
            lemma_key_lt_transitive(kat(ls, i1, j1), kat(ls, i2 - 1, 0), kat(ls, i2 - 1, last));
        }
        lemma_key_lt_transitive(kat(ls, i1, j1), kat(ls, i2 - 1, last), kat(ls, i2, 0));
    }
}

/// Positions in reading order carry strictly increasing keys.
pub proof fn lemma_order(ls: Seq<BTreeNode>, i1: int, j1: int, i2: int, j2: int)
    requires
        ordered(ls),
        is_pos(ls, i1, j1),
        is_pos(ls, i2, j2),
        i1 < i2 || (i1 == i2 && j1 < j2),
    ensures
        key_lt(kat(ls, i1, j1), kat(ls, i2, j2)),
{
    assert(sorted_entries(lf(ls, i2)));
    if i1 < i2 {
        lemma_cross(ls, i1, j1, i2);
        if j2 > 0 {
            assert(key_lt(lf(ls, i2)[0].key@, lf(ls, i2)[j2].key@));
            lemma_key_lt_transitive(kat(ls, i1, j1), kat(ls, i2, 0), kat(ls, i2, j2));
        }
    } else {
        assert(key_lt(lf(ls, i2)[j1].key@, lf(ls, i2)[j2].key@));
    }
}

/// Two positions with one key are the same position.
pub proof fn lemma_unique(ls: Seq<BTreeNode>, i1: int, j1: int, i2: int, j2: int)
    requires
        ordered(ls),
        is_pos(ls, i1, j1),
        is_pos(ls, i2, j2),
        kat(ls, i1, j1) == kat(ls, i2, j2),
    ensures
        i1 == i2 && j1 == j2,
{
    lemma_key_lt_irreflexive(kat(ls, i1, j1));
    if i1 < i2 || (i1 == i2 && j1 < j2) {
        lemma_order(ls, i1, j1, i2, j2);
    } else if i2 < i1 || (i1 == i2 && j2 < j1) {
        lemma_order(ls, i2, j2, i1, j1);
    }
}

/// The model maps the key at a position to the entry there.
pub proof fn lemma_model_at(ls: Seq<BTreeNode>, i: int, j: int)
    requires
        ordered(ls),
        is_pos(ls, i, j),
    ensures
        model(ls).contains_key(kat(ls, i, j)),
        model(ls)[kat(ls, i, j)] == lf(ls, i)[j]@,
{
    let k = kat(ls, i, j);
    let w = (i, j);
    assert(is_pos(ls, w.0, w.1) && kat(ls, w.0, w.1) == k);
    assert(has_key(ls, k));
    let p = choose|p: (int, int)| is_pos(ls, p.0, p.1) && kat(ls, p.0, p.1) == k;
    lemma_unique(ls, i, j, p.0, p.1);
}

/// A key sorted strictly between the leaf found for it and the next one lies nowhere else.
proof fn lemma_not_elsewhere(ls: Seq<BTreeNode>, i: int, k: Seq<u8>, i2: int, j2: int)
    requires
        ordered(ls),
        0 <= i < ls.len(),
        i == 0 || key_le(kat(ls, i, 0), k),
        i + 1 == ls.len() || key_lt(k, kat(ls, i + 1, 0)),
        is_pos(ls, i2, j2),
        i2 != i,
        i2 > 0 || key_le(kat(ls, 0, 0), k),
    ensures
        kat(ls, i2, j2) != k,
{
    lemma_key_lt_irreflexive(k);
    assert(lf(ls, i).len() > 0);
    if i2 < i {
        lemma_cross(ls, i2, j2, i);
        lemma_key_lt_le_transitive(kat(ls, i2, j2), kat(ls, i, 0), k);
    } else {
        if i2 > i + 1 {
            lemma_order(ls, i + 1, 0, i2, j2);
        } else if j2 > 0 {
            lemma_order(ls, i + 1, 0, i2, j2);
        }
        if kat(ls, i2, j2) == k {
            lemma_key_lt_le_transitive(k, kat(ls, i + 1, 0), kat(ls, i2, j2));
        }
    }
}

pub proof fn lemma_total_concat(a: Seq<BTreeNode>, b: Seq<BTreeNode>)
    ensures
        total_len(a + b) == total_len(a) + total_len(b),
    decreases b.len(),
{
    if b.len() > 0 {
        assert((a + b).drop_last() =~= a + b.drop_last());
        lemma_total_concat(a, b.drop_last());
    } else {
        assert(a + b =~= a);
    }
}

/// The total after replacing leaf `i` by the leaves `mid`.
proof fn lemma_total_replace(ls: Seq<BTreeNode>, ls2: Seq<BTreeNode>, i: int, mid: Seq<BTreeNode>)
    requires
        0 <= i < ls.len(),
        ls2 == ls.subrange(0, i) + mid + ls.subrange(i + 1, ls.len() as int),
    ensures
        total_len(ls2) + ls[i].entries@.len() == total_len(ls) + total_len(mid),
{
    let a = ls.subrange(0, i);
    let c = ls.subrange(i + 1, ls.len() as int);
    assert(ls =~= a + seq![ls[i]] + c);
    lemma_total_concat(a + seq![ls[i]], c);
    lemma_total_concat(a, seq![ls[i]]);
    lemma_total_concat(a + mid, c);
    lemma_total_concat(a, mid);
    assert(seq![ls[i]].drop_last() =~= Seq::<BTreeNode>::empty());
    assert(seq![ls[i]].last() == ls[i]);
    assert(total_len(Seq::<BTreeNode>::empty()) == 0);
    assert(total_len(seq![ls[i]]) == ls[i].entries@.len());
    assert(ls2 == a + mid + c);
}

/// A key absent from the leaf it belongs to is absent from the index.
proof fn lemma_absent(ls: Seq<BTreeNode>, i: int, k: Seq<u8>)
    requires
        ordered(ls),
        0 <= i < ls.len(),
        i == 0 || key_le(kat(ls, i, 0), k),
        i + 1 == ls.len() || key_lt(k, kat(ls, i + 1, 0)),
        forall|j: int| 0 <= j < lf(ls, i).len() ==> #[trigger] lf(ls, i)[j].key@ != k,
    ensures
        !model(ls).contains_key(k),
{
    assert(lf(ls, 0).len() > 0);
    assert forall|i2: int, j2: int| is_pos(ls, i2, j2) implies kat(ls, i2, j2) != k by {
        if i2 != i {
            if i2 == 0 && !key_le(kat(ls, 0, 0), k) {
                lemma_key_lt_total(k, kat(ls, 0, 0));
                lemma_key_lt_irreflexive(k);
                if j2 > 0 {
                    lemma_order(ls, 0, 0, 0, j2);
                    lemma_key_lt_transitive(k, kat(ls, 0, 0), kat(ls, 0, j2));
                }
            } else {
                lemma_not_elsewhere(ls, i, k, i2, j2);
            }
        } else {
            assert(lf(ls, i2)[j2].key@ != k);
        }
    }
}

/// Placing an entry in the leaf its key belongs to records it for that key and keeps the order.
proof fn lemma_place(
    ls: Seq<BTreeNode>,
    ls2: Seq<BTreeNode>,
    i: int,
    p: int,
    e: Entry,
    found: bool,
)
    requires
        ordered(ls),
        0 <= i < ls.len(),
        i == 0 || key_le(kat(ls, i, 0), e.key@),
        i + 1 == ls.len() || key_lt(e.key@, kat(ls, i + 1, 0)),
        0 <= p <= lf(ls, i).len(),
        forall|j: int| 0 <= j < p ==> key_lt(#[trigger] lf(ls, i)[j].key@, e.key@),
        p < lf(ls, i).len() ==> key_le(e.key@, lf(ls, i)[p].key@),
        found <==> p < lf(ls, i).len() && lf(ls, i)[p].key@ == e.key@,
        e@.wf(),
        ls2.len() == ls.len(),
        forall|i2: int| 0 <= i2 < ls.len() && i2 != i ==> ls2[i2] == ls[i2],
        lf(ls2, i) == if found {
            lf(ls, i).update(p, e)
        } else {
            lf(ls, i).insert(p, e)
        },
    ensures
        ordered(ls2),
        model(ls2) == model(ls).insert(e.key@, e@),
{
    let k = e.key@;
    let old_leaf = lf(ls, i);
    let n = old_leaf.len();
    lemma_key_lt_irreflexive(k);
    assert(sorted_entries(old_leaf));
    // the order inside the leaf
    assert forall|a: int, b: int| 0 <= a < b < lf(ls2, i).len() implies key_lt(
        #[trigger] lf(ls2, i)[a].key@,
        #[trigger] lf(ls2, i)[b].key@,
    ) by {
        if found {
            if a == p {
                assert(key_lt(old_leaf[a].key@, old_leaf[b].key@));
            } else if b == p {
                assert(key_lt(old_leaf[a].key@, old_leaf[b].key@));
            } else {
                assert(key_lt(old_leaf[a].key@, old_leaf[b].key@));
            }
        } else {
            if b < p {
                assert(key_lt(old_leaf[a].key@, old_leaf[b].key@));
            } else if b == p {
                assert(key_lt(old_leaf[a].key@, k));
            } else if a == p {
                assert(key_le(k, old_leaf[p].key@));
                if b - 1 > p {
                    assert(key_lt(old_leaf[p].key@, old_leaf[b - 1].key@));
                    lemma_key_le_lt_transitive(k, old_leaf[p].key@, old_leaf[b - 1].key@);
                } else {
                    assert(k != old_leaf[p].key@);
                }
            } else if a < p {
                assert(key_lt(old_leaf[a].key@, k));
                assert(key_le(k, old_leaf[p].key@));
                lemma_key_lt_le_transitive(old_leaf[a].key@, k, old_leaf[p].key@);
                if b - 1 > p {
                    assert(key_lt(old_leaf[p].key@, old_leaf[b - 1].key@));
                    lemma_key_lt_transitive(old_leaf[a].key@, old_leaf[p].key@, old_leaf[b - 1].key@);
                }
            } else {
                assert(key_lt(old_leaf[a - 1].key@, old_leaf[b - 1].key@));
            }
        }
    }
    assert(sorted_entries(lf(ls2, i)));
    // the first key of the leaf is unchanged, or the leaf is the first one
    if i > 0 && p == 0 && !found {
        lemma_key_lt_total(k, kat(ls, i, 0));
        lemma_key_lt_transitive(k, kat(ls, i, 0), k);
    }
    assert(i > 0 ==> kat(ls2, i, 0) == kat(ls, i, 0));
    // the last key of the leaf is unchanged, or it is the new key
    let last2 = lf(ls2, i).len() - 1;
    assert(kat(ls2, i, last2) == kat(ls, i, n - 1) || kat(ls2, i, last2) == k);
    assert forall|i2: int| 0 <= i2 < ls2.len() - 1 implies key_lt(
        #[trigger] kat(ls2, i2, lf(ls2, i2).len() - 1),
        kat(ls2, i2 + 1, 0),
    ) by {
        if i2 == i - 1 {
            assert(key_lt(kat(ls, i2, lf(ls, i2).len() - 1), kat(ls, i2 + 1, 0)));
        } else if i2 == i {
            assert(key_lt(kat(ls, i2, lf(ls, i2).len() - 1), kat(ls, i2 + 1, 0)));
        } else {
            assert(key_lt(kat(ls, i2, lf(ls, i2).len() - 1), kat(ls, i2 + 1, 0)));
        }
    }
    assert forall|i2: int, j2: int| is_pos(ls2, i2, j2) implies (#[trigger] lf(ls2, i2)[j2])@.wf() by {
        if i2 == i {
            if found {
                if j2 != p {
                    assert(is_pos(ls, i2, j2));
                }
            } else if j2 < p {
                assert(is_pos(ls, i2, j2));
            } else if j2 > p {
                assert(is_pos(ls, i2, j2 - 1));
            }
        } else {
            assert(is_pos(ls, i2, j2));
        }
    }
    assert forall|i2: int| 0 <= i2 < ls2.len() implies #[trigger] lf(ls2, i2).len() > 0
        && sorted_entries(lf(ls2, i2)) by {
        if i2 != i {
            assert(ls2[i2] == ls[i2]);
            assert(lf(ls, i2).len() > 0 && sorted_entries(lf(ls, i2)));
        }
    }
    assert(ordered(ls2));
    // the model
    let m = model(ls).insert(k, e@);
    lemma_model_at(ls2, i, p);
    assert forall|k2: Seq<u8>| #[trigger] model(ls2).contains_key(k2) implies m.contains_key(k2)
        && model(ls2)[k2] == m[k2] by {
        let q = choose|q: (int, int)| is_pos(ls2, q.0, q.1) && kat(ls2, q.0, q.1) == k2;
        lemma_model_at(ls2, q.0, q.1);
        if k2 != k {
            let (oi, oj) = if q.0 != i {
                (q.0, q.1)
            } else if found || q.1 < p {
                (q.0, q.1)
            } else {
                (q.0, q.1 - 1)
            };
            assert(lf(ls2, q.0)[q.1] == lf(ls, oi)[oj]);
            lemma_model_at(ls, oi, oj);
        } else {
            lemma_unique(ls2, q.0, q.1, i, p);
        }
    }
    assert forall|k2: Seq<u8>| #[trigger] m.contains_key(k2) implies model(ls2).contains_key(k2) by {
        if k2 != k {
            let q = choose|q: (int, int)| is_pos(ls, q.0, q.1) && kat(ls, q.0, q.1) == k2;
            let (ni, nj) = if q.0 != i {
                (q.0, q.1)
            } else if found || q.1 < p {
                (q.0, q.1)
            } else {
                (q.0, q.1 + 1)
            };
            assert(lf(ls2, ni)[nj] == lf(ls, q.0)[q.1]);
            lemma_model_at(ls2, ni, nj);
        }
    }
    assert(model(ls2) =~= m);
}

/// Splitting a leaf in two at `mid` keeps the order and what the leaves map keys to.
proof fn lemma_split(ls: Seq<BTreeNode>, ls2: Seq<BTreeNode>, i: int, mid: int)
    requires
        ordered(ls),
        0 <= i < ls.len(),
        0 < mid < lf(ls, i).len(),
        ls2.len() == ls.len() + 1,
        forall|i2: int| 0 <= i2 < i ==> ls2[i2] == ls[i2],
        forall|i2: int| i + 1 < i2 < ls2.len() ==> ls2[i2] == ls[i2 - 1],
        lf(ls2, i) == lf(ls, i).subrange(0, mid),
        lf(ls2, i + 1) == lf(ls, i).subrange(mid, lf(ls, i).len() as int),
    ensures
        ordered(ls2),
        model(ls2) == model(ls),
{
    let n = lf(ls, i).len();
    assert(sorted_entries(lf(ls, i)));
    assert(sorted_entries(lf(ls2, i)));
    assert forall|a: int, b: int| 0 <= a < b < lf(ls2, i + 1).len() implies key_lt(
        #[trigger] lf(ls2, i + 1)[a].key@,
        #[trigger] lf(ls2, i + 1)[b].key@,
    ) by {
        assert(key_lt(lf(ls, i)[a + mid].key@, lf(ls, i)[b + mid].key@));
    }
    assert(sorted_entries(lf(ls2, i + 1)));
    // an index of the new leaves, read in the old ones
    let old_pos = |q: (int, int)|
        if q.0 < i {
            q
        } else if q.0 == i {
            q
        } else if q.0 == i + 1 {
            (i, q.1 + mid)
        } else {
            (q.0 - 1, q.1)
        };
    assert forall|i2: int, j2: int| is_pos(ls2, i2, j2) implies is_pos(ls, old_pos((i2, j2)).0, old_pos((i2, j2)).1)
        && lf(ls2, i2)[j2] == lf(ls, old_pos((i2, j2)).0)[old_pos((i2, j2)).1] by {}
    assert forall|i2: int| 0 <= i2 < ls2.len() - 1 implies key_lt(
        #[trigger] kat(ls2, i2, lf(ls2, i2).len() - 1),
        kat(ls2, i2 + 1, 0),
    ) by {
        if i2 < i - 1 || i2 > i + 1 {
            let o = if i2 < i { i2 } else { i2 - 1 };
            assert(key_lt(kat(ls, o, lf(ls, o).len() - 1), kat(ls, o + 1, 0)));
        } else if i2 == i - 1 {
            assert(key_lt(kat(ls, i2, lf(ls, i2).len() - 1), kat(ls, i, 0)));
        } else if i2 == i {
            assert(key_lt(lf(ls, i)[mid - 1].key@, lf(ls, i)[mid].key@));
        } else {
            assert(key_lt(kat(ls, i, n - 1), kat(ls, i + 1, 0)));
        }
    }
    assert forall|i2: int, j2: int| is_pos(ls2, i2, j2) implies (#[trigger] lf(ls2, i2)[j2])@.wf() by {
        let o = old_pos((i2, j2));
        assert(is_pos(ls, o.0, o.1));
    }
    assert forall|i2: int| 0 <= i2 < ls2.len() implies #[trigger] lf(ls2, i2).len() > 0
        && sorted_entries(lf(ls2, i2)) by {
        if i2 < i {
            assert(ls2[i2] == ls[i2]);
            assert(lf(ls, i2).len() > 0 && sorted_entries(lf(ls, i2)));
        } else if i2 > i + 1 {
            assert(ls2[i2] == ls[i2 - 1]);
            assert(lf(ls, i2 - 1).len() > 0 && sorted_entries(lf(ls, i2 - 1)));
        }
    }
    assert(ordered(ls2));
    assert forall|k2: Seq<u8>| #[trigger] model(ls2).contains_key(k2) implies model(ls).contains_key(k2)
        && model(ls2)[k2] == model(ls)[k2] by {
        let q = choose|q: (int, int)| is_pos(ls2, q.0, q.1) && kat(ls2, q.0, q.1) == k2;
        lemma_model_at(ls2, q.0, q.1);
        let o = old_pos(q);
        lemma_model_at(ls, o.0, o.1);
    }
    assert forall|k2: Seq<u8>| #[trigger] model(ls).contains_key(k2) implies model(ls2).contains_key(k2) by {
        let q = choose|q: (int, int)| is_pos(ls, q.0, q.1) && kat(ls, q.0, q.1) == k2;
        let np = if q.0 < i {
            q
        } else if q.0 > i {
            (q.0 + 1, q.1)
        } else if q.1 < mid {
            q
        } else {
            (i + 1, q.1 - mid)
        };
        assert(lf(ls2, np.0)[np.1] == lf(ls, q.0)[q.1]);
        lemma_model_at(ls2, np.0, np.1);
    }
    assert(model(ls2) =~= model(ls));
}

/// `s` lists, in strictly increasing key order, exactly the live entries of `m` whose
/// keys lie within the bounds.
pub open spec fn is_listing(
    m: Map<Seq<u8>, EntryView>,
    start: Option<Seq<u8>>,
    end: Option<Seq<u8>>,
    s: Seq<EntryView>,
) -> bool {
    &&& forall|a: int, b: int| 0 <= a < b < s.len() ==> key_lt(#[trigger] s[a].key, #[trigger] s[b].key)
    &&& forall|a: int|
        0 <= a < s.len() ==> {
            &&& m.contains_key(#[trigger] s[a].key)
            &&& m[s[a].key] == s[a]
            &&& in_range(s[a].key, start, end)
            &&& !s[a].is_deleted
        }
    &&& forall|k: Seq<u8>|
        #[trigger] m.contains_key(k) && in_range(k, start, end) && !m[k].is_deleted ==> exists|a: int|
            0 <= a < s.len() && s[a].key == k
}

pub open spec fn bytes_opt_view(b: Option<Key>) -> Option<Seq<u8>> {
    match b {
        Some(x) => Some(x@),
        None => None,
    }
}

pub open spec fn entries_view(v: Seq<Entry>) -> Seq<EntryView> {
    v.map_values(|e: Entry| e@)
}

spec fn before(p: (int, int), q: (int, int)) -> bool {
    p.0 < q.0 || (p.0 == q.0 && p.1 < q.1)
}

/// Whether a key lies within the bounds.
fn key_in_range(k: &Key, start: &Option<Key>, end: &Option<Key>) -> (r: bool)
    ensures
        r == in_range(k@, bytes_opt_view(*start), bytes_opt_view(*end)),
{
    let above = match start {
        Some(s) => match compare_keys(s, k) {
            KeyOrder::Greater => false,
            _ => true,
        },
        None => true,
    };
    let below = match end {
        Some(e) => match compare_keys(k, e) {
            KeyOrder::Less => true,
            _ => false,
        },
        None => true,
    };
    proof {
        if let Some(s) = start {
            lemma_key_lt_total(s@, k@);
            lemma_key_lt_irreflexive(k@);
            if key_lt(k@, s@) && key_lt(s@, k@) {
                lemma_key_lt_transitive(k@, s@, k@);
            }
        }
    }
    above && below
}

/// A key below `b` is not at or above it.
proof fn lemma_below_not_above(a: Seq<u8>, b: Seq<u8>)
    requires
        key_lt(a, b),
    ensures
        !key_le(b, a),
{
    lemma_key_lt_irreflexive(a);
    if key_lt(b, a) {
        lemma_key_lt_transitive(a, b, a);
    }
}

/// Whether a key is at or beyond the end bound.
fn past_end(k: &Key, end: &Option<Key>) -> (r: bool)
    ensures
        r == match bytes_opt_view(*end) {
            Some(e) => !key_lt(k@, e),
            None => false,
        },
{
    match end {
        Some(e) => match compare_keys(k, e) {
            KeyOrder::Less => false,
            _ => true,
        },
        None => false,
    }
}

/// The keys of one leaf, in order.
spec fn leaf_keys(l: Seq<Entry>) -> Seq<Seq<u8>> {
    l.map_values(|e: Entry| e.key@)
}

/// The leaves hold as many entries as the model has keys.
proof fn lemma_total_is_key_count(ls: Seq<BTreeNode>)
    requires
        ordered(ls),
    ensures
        model(ls).dom().finite(),
        total_len(ls) == model(ls).dom().len(),
    decreases ls.len(),
{
    if ls.len() == 0 {
        assert(model(ls).dom() =~= Set::<Seq<u8>>::empty());
    } else {
        let n = ls.len() - 1;
        let pre = ls.drop_last();
        assert forall|i: int| 0 <= i < pre.len() implies #[trigger] lf(pre, i) == lf(ls, i) by {}
        assert forall|i: int| 0 <= i < pre.len() - 1 implies key_lt(
            #[trigger] kat(pre, i, lf(pre, i).len() - 1),
            kat(pre, i + 1, 0),
        ) by {
            assert(lf(pre, i + 1) == lf(ls, i + 1));
            assert(key_lt(kat(ls, i, lf(ls, i).len() - 1), kat(ls, i + 1, 0)));
        }
        assert forall|i: int, j: int| is_pos(pre, i, j) implies (#[trigger] lf(pre, i)[j])@.wf() by {
            assert(is_pos(ls, i, j));
        }
        assert(ordered(pre));
        lemma_total_is_key_count(pre);
        let keys = leaf_keys(lf(ls, n));
        assert(sorted_entries(lf(ls, n)));
        assert(keys.no_duplicates()) by {
            assert forall|a: int, b: int| 0 <= a < keys.len() && 0 <= b < keys.len() && a != b implies keys[a]
                != keys[b] by {
                lemma_key_lt_irreflexive(keys[a]);
                if a < b {
                    assert(key_lt(lf(ls, n)[a].key@, lf(ls, n)[b].key@));
                } else {
                    assert(key_lt(lf(ls, n)[b].key@, lf(ls, n)[a].key@));
                }
            }
        }
        keys.unique_seq_to_set();
        let d0 = model(pre).dom();
        let d1 = keys.to_set();
        assert forall|k: Seq<u8>| #[trigger] model(ls).dom().contains(k) <==> d0.contains(k) || d1.contains(k) by {
            if model(ls).dom().contains(k) {
                let q = choose|q: (int, int)| is_pos(ls, q.0, q.1) && kat(ls, q.0, q.1) == k;
                if q.0 < n {
                    assert(lf(pre, q.0) == lf(ls, q.0));
                    assert(is_pos(pre, q.0, q.1) && kat(pre, q.0, q.1) == k);
                    assert(has_key(pre, k));
                } else {
                    assert(keys[q.1] == k);
                    assert(keys.contains(k));
                }
            }
            if d0.contains(k) {
                let q = choose|q: (int, int)| is_pos(pre, q.0, q.1) && kat(pre, q.0, q.1) == k;
                assert(lf(pre, q.0) == lf(ls, q.0));
                assert(is_pos(ls, q.0, q.1) && kat(ls, q.0, q.1) == k);
                assert(has_key(ls, k));
            }
            if d1.contains(k) {
                let j = choose|j: int| 0 <= j < keys.len() && keys[j] == k;
                let w = (n, j);
                assert(keys[j] == lf(ls, n)[j].key@);
                assert(is_pos(ls, w.0, w.1) && kat(ls, w.0, w.1) == k);
                assert(has_key(ls, k));
            }
        }
        assert(model(ls).dom() =~= d0 + d1);
        assert(d0.disjoint(d1)) by {
            assert forall|k: Seq<u8>| d0.contains(k) implies !d1.contains(k) by {
                let q = choose|q: (int, int)| is_pos(pre, q.0, q.1) && kat(pre, q.0, q.1) == k;
                assert(lf(pre, q.0) == lf(ls, q.0));
                if d1.contains(k) {
                    let j = choose|j: int| 0 <= j < keys.len() && keys[j] == k;
                    lemma_unique(ls, q.0, q.1, n, j);
                }
            }
        }
        vstd::set_lib::lemma_set_disjoint_lens(d0, d1);
    }
}

impl View for BTree {
    type V = Map<Seq<u8>, EntryView>;

    closed spec fn view(&self) -> Map<Seq<u8>, EntryView> {
        model(self.leaves@)
    }
}

/// Leaf position for a key: the first entry whose key is not below it, and whether it is equal.
fn find_in_leaf(entries: &Vec<Entry>, key: &Key) -> (r: (usize, bool))
    requires
        sorted_entries(entries@),
    ensures
        r.0 <= entries@.len(),
        forall|j: int| 0 <= j < r.0 ==> key_lt(#[trigger] entries@[j].key@, key@),
        r.0 < entries@.len() ==> key_le(key@, entries@[r.0 as int].key@),
        r.1 <==> r.0 < entries@.len() && entries@[r.0 as int].key@ == key@,
        !r.1 ==> forall|j: int| 0 <= j < entries@.len() ==> #[trigger] entries@[j].key@ != key@,
{
    let mut p: usize = 0;
    while p < entries.len()
        invariant
            p <= entries@.len(),
            sorted_entries(entries@),
            forall|j: int| 0 <= j < p ==> key_lt(#[trigger] entries@[j].key@, key@),
        decreases entries.len() - p,
    {
        match compare_keys(key, &entries[p].key) {
            KeyOrder::Greater => {
                p = p + 1;
            },
            KeyOrder::Equal => {
                return (p, true);
            },
            KeyOrder::Less => {
                proof {
                    assert forall|j: int| 0 <= j < entries@.len() implies #[trigger] entries@[j].key@
                        != key@ by {
                        lemma_key_lt_irreflexive(key@);
                        if j > p {
                            assert(key_lt(entries@[p as int].key@, entries@[j].key@));
                            lemma_key_lt_transitive(key@, entries@[p as int].key@, entries@[j].key@);
                        }
                    }
                }
                return (p, false);
            },
        }
    }
    proof {
        assert forall|j: int| 0 <= j < entries@.len() implies #[trigger] entries@[j].key@
            != key@ by {
            lemma_key_lt_irreflexive(key@);
        }
    }
    (p, false)
}

impl BTree {
    pub closed spec fn wf(&self) -> bool {
        &&& self.order >= MIN_ORDER
        &&& ordered(self.leaves@)
        &&& forall|i: int| 0 <= i < self.leaves@.len() ==> #[trigger] lf(self.leaves@, i).len() < self.order
        &&& self.count == total_len(self.leaves@)
    }

    /// The maximum number of entries a node holds before it splits is `order - 1`.
    pub closed spec fn order_spec(&self) -> usize {
        self.order
    }

    /// The number of keys tracked, tombstones included.
    pub closed spec fn size_spec(&self) -> nat {
        total_len(self.leaves@)
    }

    /// An empty index whose order is `config.btree_node_size`, raised to the minimum if below it.
    pub fn new(config: DatabaseConfig) -> (r: Self)
        ensures
            r.wf(),
            r@ == Map::<Seq<u8>, EntryView>::empty(),
            r.size_spec() == 0,
            r.order_spec() == if config.btree_node_size < MIN_ORDER {
                MIN_ORDER
            } else {
                config.btree_node_size
            },
    {
        let order = if config.btree_node_size < MIN_ORDER {
            MIN_ORDER
        } else {
            config.btree_node_size
        };
        let r = BTree { leaves: Vec::new(), order, count: 0 };
        assert(r@ =~= Map::<Seq<u8>, EntryView>::empty());
        r
    }

    /// The leaf a key belongs to: the last one whose first key is not above it, else the first.
    fn find_leaf(&self, key: &Key) -> (r: usize)
        requires
            self.wf(),
            self.leaves@.len() > 0,
        ensures
            r < self.leaves@.len(),
            r == 0 || key_le(kat(self.leaves@, r as int, 0), key@),
            r + 1 == self.leaves@.len() || key_lt(key@, kat(self.leaves@, r + 1, 0)),
    {
        let mut lo: usize = 0;
        let mut hi: usize = self.leaves.len();
        while hi - lo > 1
            invariant
                self.wf(),
                lo < hi <= self.leaves@.len(),
                lo == 0 || key_le(kat(self.leaves@, lo as int, 0), key@),
                hi == self.leaves@.len() || key_lt(key@, kat(self.leaves@, hi as int, 0)),
            decreases hi - lo,
        {
            let mid = lo + (hi - lo) / 2;
            assert(lf(self.leaves@, mid as int).len() > 0);
            match compare_keys(key, &self.leaves[mid].entries[0].key) {
                KeyOrder::Less => {
                    hi = mid;
                },
                _ => {
                    proof {
                        lemma_key_lt_total(key@, kat(self.leaves@, mid as int, 0));
                    }
                    lo = mid;
                },
            }
        }
        lo
    }

    /// Records `e` for its key unless the index already holds a newer write for it.
    fn write_entry(&mut self, e: Entry)
        requires
            old(self).wf(),
            e@.wf(),
            old(self).size_spec() < usize::MAX,
        ensures
            final(self).wf(),
            final(self)@ == apply_write(old(self)@, e@),
            final(self).order_spec() == old(self).order_spec(),
            final(self).size_spec() == if old(self)@.contains_key(e@.key) {
                old(self).size_spec()
            } else {
                old(self).size_spec() + 1
            },
    {
        let ghost ls = self.leaves@;
        let ghost ee = e;
        if self.leaves.len() == 0 {
            let mut entries: Vec<Entry> = Vec::new();
            entries.push(e);
            self.leaves.push(BTreeNode { entries });
            self.count = 1;
            proof {
                let ls2 = self.leaves@;
                assert(ls2.drop_last() =~= Seq::<BTreeNode>::empty());
                assert(total_len(ls2.drop_last()) == 0);
                assert(ls2.last().entries@.len() == 1);
                assert(total_len(ls2) == 1);
                assert(ordered(ls2));
                lemma_model_at(ls2, 0, 0);
                assert forall|k2: Seq<u8>| #[trigger] model(ls2).contains_key(k2) implies k2 == ee@.key by {
                    let q = choose|q: (int, int)| is_pos(ls2, q.0, q.1) && kat(ls2, q.0, q.1) == k2;
                }
                assert(model(ls2) =~= Map::<Seq<u8>, EntryView>::empty().insert(ee@.key, ee@));
                assert(model(ls) =~= Map::<Seq<u8>, EntryView>::empty());
            }
            return;
        }
        let i = self.find_leaf(&e.key);
        assert(sorted_entries(lf(ls, i as int)));
        let (p, found) = find_in_leaf(&self.leaves[i].entries, &e.key);
        if found {
            proof {
                lemma_model_at(ls, i as int, p as int);
            }
            if e.operation_id.precedes(&self.leaves[i].entries[p].operation_id) {
                return;
            }
        } else {
            proof {
                lemma_absent(ls, i as int, ee.key@);
            }
        }
        let mut node = BTreeNode { entries: Vec::new() };
        self.leaves.set_and_swap(i, &mut node);
        if found {
            node.entries.set(p, e);
        } else {
            node.entries.insert(p, e);
            self.count = self.count + 1;
        }
        self.leaves.set(i, node);
        let ghost ls1 = self.leaves@;
        proof {
            lemma_place(ls, ls1, i as int, p as int, ee, found);
            assert(ls1 =~= ls.subrange(0, i as int) + seq![ls1[i as int]] + ls.subrange(
                i as int + 1,
                ls.len() as int,
            ));
            lemma_total_replace(ls, ls1, i as int, seq![ls1[i as int]]);
            assert(seq![ls1[i as int]].drop_last() =~= Seq::<BTreeNode>::empty());
            assert(total_len(seq![ls1[i as int]].drop_last()) == 0);
            assert(seq![ls1[i as int]].last() == ls1[i as int]);
            assert(total_len(seq![ls1[i as int]]) == lf(ls1, i as int).len());
        }
        assert(forall|i2: int| 0 <= i2 < ls1.len() && i2 != i ==> ls1[i2] == ls[i2]);
        if self.leaves[i].entries.len() >= self.order {
            let mut left = BTreeNode { entries: Vec::new() };
            self.leaves.set_and_swap(i, &mut left);
            let mid = left.entries.len() / 2;
            let right = left.entries.split_off(mid);
            self.leaves.set(i, left);
            self.leaves.insert(i + 1, BTreeNode { entries: right });
            proof {
                let ls2 = self.leaves@;
                lemma_split(ls1, ls2, i as int, mid as int);
                let halves = seq![ls2[i as int], ls2[i + 1]];
                assert(ls2 =~= ls1.subrange(0, i as int) + halves + ls1.subrange(
                    i as int + 1,
                    ls1.len() as int,
                ));
                lemma_total_replace(ls1, ls2, i as int, halves);
                assert(halves.drop_last() =~= seq![ls2[i as int]]);
                assert(seq![ls2[i as int]].drop_last() =~= Seq::<BTreeNode>::empty());
                assert(total_len(seq![ls2[i as int]].drop_last()) == 0);
                assert(seq![ls2[i as int]].last() == ls2[i as int]);
                assert(halves.last() == ls2[i + 1]);
                assert(total_len(seq![ls2[i as int]]) == lf(ls2, i as int).len());
                assert(total_len(halves) == lf(ls2, i as int).len() + lf(ls2, i + 1).len());
                assert(total_len(halves) == lf(ls1, i as int).len());
                assert forall|i2: int| 0 <= i2 < ls2.len() implies #[trigger] lf(ls2, i2).len()
                    < self.order by {
                    if i2 < i {
                        assert(ls2[i2] == ls[i2]);
                        assert(lf(ls, i2).len() < self.order);
                    } else if i2 > i + 1 {
                        assert(ls2[i2] == ls[i2 - 1]);
                        assert(lf(ls, i2 - 1).len() < self.order);
                    } else {
                        assert(lf(ls, i as int).len() < self.order);
                        assert(lf(ls1, i as int).len() <= lf(ls, i as int).len() + 1);
                        assert(lf(ls2, i as int).len() == mid);
                        assert(lf(ls2, i + 1).len() == lf(ls1, i as int).len() - mid);
                    }
                }
            }
        } else {
            proof {
                assert forall|i2: int| 0 <= i2 < ls1.len() implies #[trigger] lf(ls1, i2).len()
                    < self.order by {
                    if i2 != i {
                        assert(ls1[i2] == ls[i2]);
                        assert(lf(ls, i2).len() < self.order);
                    } else {
                        assert(lf(ls1, i as int).len() < self.order);
                    }
                }
            }
        }
    }

    /// Records `value` for `key` under `operation_id`, unless a newer write is already recorded.
    pub fn put(&mut self, key: Key, value: Value, operation_id: OperationId)
        requires
            old(self).wf(),
            old(self).size_spec() < usize::MAX,
        ensures
            final(self).wf(),
            final(self)@ == apply_write(old(self)@, put_entry(key@, value@, operation_id)),
            final(self).order_spec() == old(self).order_spec(),
            final(self).size_spec() == if old(self)@.contains_key(key@) {
                old(self).size_spec()
            } else {
                old(self).size_spec() + 1
            },
    {
        self.write_entry(Entry::new_put(key, value, operation_id));
    }

    /// Records a tombstone for `key` under `operation_id`, unless a newer write is already recorded.
    pub fn delete(&mut self, key: Key, operation_id: OperationId)
        requires
            old(self).wf(),
            old(self).size_spec() < usize::MAX,
        ensures
            final(self).wf(),
            final(self)@ == apply_write(old(self)@, tombstone(key@, operation_id)),
            final(self).order_spec() == old(self).order_spec(),
            final(self).size_spec() == if old(self)@.contains_key(key@) {
                old(self).size_spec()
            } else {
                old(self).size_spec() + 1
            },
    {
        self.write_entry(Entry::new_delete(key, operation_id));
    }

    /// The number of keys tracked, tombstones included.
    pub fn size(&self) -> (r: usize)
        requires
            self.wf(),
        ensures
            r == self.size_spec(),
            r == self@.dom().len(),
    {
        proof {
            lemma_total_is_key_count(self.leaves@);
        }
        self.count
    }

    /// The live entries with `start_key <= key < end_key`, in ascending key order; an
    /// absent bound is open. The walk starts at the leaf `start_key` belongs to and stops at
    /// the first key not below `end_key`.
    pub fn scan(&self, start_key: Option<Key>, end_key: Option<Key>) -> (r: Vec<Entry>)
        requires
            self.wf(),
        ensures
            is_listing(self@, bytes_opt_view(start_key), bytes_opt_view(end_key), entries_view(r@)),
    {
        let ghost ls = self.leaves@;
        let ghost sv = bytes_opt_view(start_key);
        let ghost ev = bytes_opt_view(end_key);
        let mut r: Vec<Entry> = Vec::new();
        let ghost mut ps: Seq<(int, int)> = Seq::empty();
        let mut i: usize = match &start_key {
            Some(s) => if self.leaves.len() == 0 {
                0
            } else {
                self.find_leaf(s)
            },
            None => 0,
        };
        proof {
            assert forall|i2: int, j2: int|
                is_pos(ls, i2, j2) && i2 < i implies !in_range(kat(ls, i2, j2), sv, ev) by {
                let s = sv->Some_0;
                lemma_cross(ls, i2, j2, i as int);
                lemma_key_lt_le_transitive(kat(ls, i2, j2), kat(ls, i as int, 0), s);
                lemma_below_not_above(kat(ls, i2, j2), s);
            }
        }
        let mut done = false;
        while i < self.leaves.len() && !done
            invariant
                self.wf(),
                ls == self.leaves@,
                sv == bytes_opt_view(start_key),
                ev == bytes_opt_view(end_key),
                i <= ls.len(),
                ps.len() == r@.len(),
                forall|a: int| 0 <= a < ps.len() ==> is_pos(ls, #[trigger] ps[a].0, ps[a].1) && ps[a].0 < i
                    && r@[a]@ == lf(ls, ps[a].0)[ps[a].1]@ && in_range(r@[a].key@, sv, ev) && !r@[a].is_deleted,
                forall|a: int, b: int| 0 <= a < b < ps.len() ==> before(#[trigger] ps[a], #[trigger] ps[b]),
                forall|i2: int, j2: int|
                    is_pos(ls, i2, j2) && (i2 < i || done) && in_range(kat(ls, i2, j2), sv, ev)
                        && !lf(ls, i2)[j2].is_deleted ==> exists|a: int|
                        0 <= a < ps.len() && #[trigger] ps[a] == (i2, j2),
            decreases ls.len() - i,
        {
            let mut j: usize = 0;
            while j < self.leaves[i].entries.len() && !done
                invariant
                    self.wf(),
                    ls == self.leaves@,
                    sv == bytes_opt_view(start_key),
                    ev == bytes_opt_view(end_key),
                    i < ls.len(),
                    j <= lf(ls, i as int).len(),
                    ps.len() == r@.len(),
                    forall|a: int| 0 <= a < ps.len() ==> is_pos(ls, #[trigger] ps[a].0, ps[a].1)
                        && before(ps[a], (i as int, j as int)) && r@[a]@ == lf(ls, ps[a].0)[ps[a].1]@
                        && in_range(r@[a].key@, sv, ev) && !r@[a].is_deleted,
                    forall|a: int, b: int| 0 <= a < b < ps.len() ==> before(#[trigger] ps[a], #[trigger] ps[b]),
                    forall|i2: int, j2: int|
                        is_pos(ls, i2, j2) && (before((i2, j2), (i as int, j as int)) || done) && in_range(
                            kat(ls, i2, j2),
                            sv,
                            ev,
                        ) && !lf(ls, i2)[j2].is_deleted ==> exists|a: int|
                            0 <= a < ps.len() && #[trigger] ps[a] == (i2, j2),
                decreases lf(ls, i as int).len() - j + if done { 0int } else { 1int },
            {
                let e = &self.leaves[i].entries[j];
                if past_end(&e.key, &end_key) {
                    done = true;
                    proof {
                        assert forall|i2: int, j2: int|
                            is_pos(ls, i2, j2) && !before((i2, j2), (i as int, j as int)) implies !in_range(
                            kat(ls, i2, j2),
                            sv,
                            ev,
                        ) by {
                            let end = ev->Some_0;
                            lemma_key_lt_total(kat(ls, i as int, j as int), end);
                            if (i2, j2) != (i as int, j as int) {
                                lemma_order(ls, i as int, j as int, i2, j2);
                                lemma_key_le_lt_transitive(end, kat(ls, i as int, j as int), kat(ls, i2, j2));
                                lemma_below_not_above(end, kat(ls, i2, j2));
                            }
                        }
                    }
                } else {
                    if !e.is_deleted && key_in_range(&e.key, &start_key, &end_key) {
                        r.push(e.duplicate());
                        proof {
                            let old_ps = ps;
                            ps = ps.push((i as int, j as int));
                            assert forall|i2: int, j2: int|
                                is_pos(ls, i2, j2) && before((i2, j2), (i as int, j + 1)) && in_range(
                                    kat(ls, i2, j2),
                                    sv,
                                    ev,
                                ) && !lf(ls, i2)[j2].is_deleted implies exists|a: int|
                                0 <= a < ps.len() && #[trigger] ps[a] == (i2, j2) by {
                                if (i2, j2) == (i as int, j as int) {
                                    assert(ps[old_ps.len() as int] == (i2, j2));
                                } else {
                                    let a = choose|a: int| 0 <= a < old_ps.len() && #[trigger] old_ps[a] == (i2, j2);
                                    assert(ps[a] == (i2, j2));
                                }
                            }
                        }
                    }
                    j = j + 1;
                }
            }
            i = i + 1;
        }
        proof {
            let s = entries_view(r@);
            let m = model(ls);
            assert(forall|a: int| 0 <= a < s.len() ==> #[trigger] s[a] == r@[a]@);
            assert forall|a: int, b: int| 0 <= a < b < s.len() implies key_lt(#[trigger] s[a].key, #[trigger] s[b].key) by {
                lemma_order(ls, ps[a].0, ps[a].1, ps[b].0, ps[b].1);
            }
            assert forall|a: int| 0 <= a < s.len() implies m.contains_key(#[trigger] s[a].key) && m[s[a].key] == s[a] by {
                lemma_model_at(ls, ps[a].0, ps[a].1);
            }
            assert forall|k: Seq<u8>| #[trigger] m.contains_key(k) && in_range(k, sv, ev) && !m[k].is_deleted implies exists|a: int|
                0 <= a < s.len() && s[a].key == k by {
                let q = choose|q: (int, int)| is_pos(ls, q.0, q.1) && kat(ls, q.0, q.1) == k;
                lemma_model_at(ls, q.0, q.1);
                let a = choose|a: int| 0 <= a < ps.len() && #[trigger] ps[a] == (q.0, q.1);
                assert(s[a].key == k);
            }
            assert forall|a: int| 0 <= a < s.len() implies in_range(#[trigger] s[a].key, sv, ev)
                && !s[a].is_deleted by {
                assert(s[a] == r@[a]@);
                assert(is_pos(ls, ps[a].0, ps[a].1));
            }
            assert(is_listing(m, sv, ev, s));
        }
        r
    }

    /// The entry recorded for `key`, a tombstone included; none if the key was never written.
    pub fn get(&self, key: &Key) -> (r: Option<Entry>)
        requires
            self.wf(),
        ensures
            entry_opt_view(r) == lookup(self@, key@),
            r is Some ==> r->Some_0@.wf(),
    {
        let ghost ls = self.leaves@;
        if self.leaves.len() == 0 {
            return None;
        }
        let i = self.find_leaf(key);
        assert(sorted_entries(lf(ls, i as int)));
        let (p, found) = find_in_leaf(&self.leaves[i].entries, key);
        if found {
            proof {
                lemma_model_at(ls, i as int, p as int);
                assert(lf(ls, i as int)[p as int]@.wf());
            }
            Some(self.leaves[i].entries[p].duplicate())
        } else {
            proof {
                assert(lf(ls, 0).len() > 0);
                assert forall|i2: int, j2: int| is_pos(ls, i2, j2) implies kat(ls, i2, j2)
                    != key@ by {
                    if i2 != i {
                        if i2 == 0 && !key_le(kat(ls, 0, 0), key@) {
                            lemma_key_lt_total(key@, kat(ls, 0, 0));
                            lemma_key_lt_irreflexive(key@);
                            if j2 > 0 {
                                lemma_order(ls, 0, 0, 0, j2);
                                lemma_key_lt_transitive(key@, kat(ls, 0, 0), kat(ls, 0, j2));
                            }
                        } else {
                            lemma_not_elsewhere(ls, i as int, key@, i2, j2);
                        }
                    } else {
                        assert(lf(ls, i2)[j2].key@ != key@);
                    }
                }
            }
            None
        }
    }
}

} // verus!
