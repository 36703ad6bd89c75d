//! Byte-string order and sorted record sequences, as the B+ tree leaves keep them.
use crate::codec::{bytes_eq, copy_bytes};
use crate::storage::btree::{records_view, RecordView};
use vstd::prelude::*;

verus! {

/// Lexicographic order on byte strings (a proper prefix comes first).
pub open spec fn bytes_lt(a: Seq<u8>, b: Seq<u8>) -> bool
    decreases a.len(),
{
    if a.len() == 0 {
        b.len() > 0
    } else if b.len() == 0 {
        false
    } else if a[0] != b[0] {
        a[0] < b[0]
    } else {
        bytes_lt(a.drop_first(), b.drop_first())
    }
}

pub proof fn lemma_bytes_lt_irreflexive(a: Seq<u8>)
    ensures
        !bytes_lt(a, a),
    decreases a.len(),
{
    if a.len() > 0 {
        lemma_bytes_lt_irreflexive(a.drop_first());
    }
}

pub proof fn lemma_bytes_lt_transitive(a: Seq<u8>, b: Seq<u8>, c: Seq<u8>)
    requires
        bytes_lt(a, b),
        bytes_lt(b, c),
    ensures
        bytes_lt(a, c),
    decreases a.len(),
{
    if a.len() > 0 && b.len() > 0 && c.len() > 0 && a[0] == b[0] && b[0] == c[0] {
        lemma_bytes_lt_transitive(a.drop_first(), b.drop_first(), c.drop_first());
    }
}

pub proof fn lemma_bytes_lt_total(a: Seq<u8>, b: Seq<u8>)
    ensures
        a == b || bytes_lt(a, b) || bytes_lt(b, a),
    decreases a.len(),
{
    if a.len() > 0 && b.len() > 0 && a[0] == b[0] {
        lemma_bytes_lt_total(a.drop_first(), b.drop_first());
        if a.drop_first() == b.drop_first() {
            assert(a =~= seq![a[0]] + a.drop_first());
            assert(b =~= seq![b[0]] + b.drop_first());
        }
    } else if a.len() == 0 && b.len() == 0 {
        assert(a =~= b);
    }
}

pub proof fn lemma_bytes_lt_asymmetric(a: Seq<u8>, b: Seq<u8>)
    requires
        bytes_lt(a, b),
    ensures
        !bytes_lt(b, a),
{
    if bytes_lt(b, a) {
        lemma_bytes_lt_transitive(a, b, a);
        lemma_bytes_lt_irreflexive(a);
    }
}

/// Whether `a` comes before `b`.
pub fn bytes_less(a: &[u8], b: &[u8]) -> (r: bool)
    ensures
        r == bytes_lt(a@, b@),
{
    let mut i: usize = 0;
    assert(a@.skip(0) =~= a@);
    assert(b@.skip(0) =~= b@);
    while i < a.len() && i < b.len()
        invariant
            i <= a@.len(),
            i <= b@.len(),
            bytes_lt(a@, b@) == bytes_lt(a@.skip(i as int), b@.skip(i as int)),
        decreases a@.len() - i,
    {
        if a[i] != b[i] {
            return a[i] < b[i];
        }
        assert(a@.skip(i as int).drop_first() =~= a@.skip(i + 1));
        assert(b@.skip(i as int).drop_first() =~= b@.skip(i + 1));
        i = i + 1;
    }
    i == a.len() && i < b.len()
}

/// Keys strictly increasing.
pub open spec fn keys_sorted(rs: Seq<RecordView>) -> bool {
    forall|i: int, j: int| #![trigger rs[i], rs[j]] 0 <= i < j < rs.len() ==> bytes_lt(rs[i].0, rs[j].0)
}

/// The records as a map from key to value; a later record wins over an earlier one.
pub open spec fn records_map(rs: Seq<RecordView>) -> Map<Seq<u8>, Seq<u8>>
    decreases rs.len(),
{
    if rs.len() == 0 {
        Map::empty()
    } else {
        records_map(rs.drop_last()).insert(rs.last().0, rs.last().1)
    }
}

pub proof fn lemma_records_map_dom(rs: Seq<RecordView>, k: Seq<u8>)
    ensures
        records_map(rs).dom().contains(k) <==> exists|i: int| 0 <= i < rs.len() && #[trigger] rs[i].0 == k,
    decreases rs.len(),
{
    if rs.len() > 0 {
        lemma_records_map_dom(rs.drop_last(), k);
        if exists|i: int| 0 <= i < rs.len() && #[trigger] rs[i].0 == k {
            let i = choose|i: int| 0 <= i < rs.len() && #[trigger] rs[i].0 == k;
            if i < rs.len() - 1 {
                assert(rs.drop_last()[i].0 == k);
            }
        }
        if exists|i: int| 0 <= i < rs.drop_last().len() && #[trigger] rs.drop_last()[i].0 == k {
            let i = choose|i: int| 0 <= i < rs.drop_last().len() && #[trigger] rs.drop_last()[i].0 == k;
            assert(rs[i].0 == k);
        }
    }
}

/// In a sorted sequence the map gives each record's own value.
pub proof fn lemma_records_map_at(rs: Seq<RecordView>, i: int)
    requires
        keys_sorted(rs),
        0 <= i < rs.len(),
    ensures
        records_map(rs).dom().contains(rs[i].0),
        records_map(rs)[rs[i].0] == rs[i].1,
    decreases rs.len(),
{
    if i < rs.len() - 1 {
        assert(keys_sorted(rs.drop_last()));
        lemma_records_map_at(rs.drop_last(), i);
        assert(bytes_lt(rs[i].0, rs.last().0));
        lemma_bytes_lt_irreflexive(rs[i].0);
    }
}

/// The map of a sequence split in two is the map of the first part updated by the second.
pub proof fn lemma_records_map_concat(a: Seq<RecordView>, b: Seq<RecordView>)
    ensures
        records_map(a + b) == records_map(a).union_prefer_right(records_map(b)),
    decreases b.len(),
{
    if b.len() == 0 {
        assert(a + b =~= a);
        assert(records_map(a).union_prefer_right(records_map(b)) =~= records_map(a));
    } else {
        lemma_records_map_concat(a, b.drop_last());
        assert((a + b).drop_last() =~= a + b.drop_last());
        assert(records_map(a + b) =~= records_map(a).union_prefer_right(records_map(b)));
    }
}

proof fn lemma_records_map_single(r: RecordView)
    ensures
        records_map(seq![r]) == map![r.0 => r.1],
{
    assert(seq![r].drop_last() =~= Seq::<RecordView>::empty());
    assert(records_map(Seq::<RecordView>::empty()) == Map::<Seq<u8>, Seq<u8>>::empty());
    assert(records_map(seq![r]) =~= map![r.0 => r.1]);
}

/// How many leading records have a key before `key`: the position where `key` belongs.
pub open spec fn lower_bound(rs: Seq<RecordView>, key: Seq<u8>, pos: int) -> bool {
    &&& 0 <= pos <= rs.len()
    &&& forall|i: int| 0 <= i < pos ==> #[trigger] bytes_lt(rs[i].0, key)
    &&& forall|i: int| pos <= i < rs.len() ==> !#[trigger] bytes_lt(rs[i].0, key)
}

/// Binary search for `key` among the records: the position where it is or belongs, and
/// whether it is there. On records not sorted by key the position is some index in range.
pub fn search_records(records: &Vec<(Vec<u8>, Vec<u8>)>, key: &[u8]) -> (r: (usize, bool))
    ensures
        r.0 <= records@.len(),
        keys_sorted(records_view(records@)) ==> lower_bound(records_view(records@), key@, r.0 as int),
        r.1 == (r.0 < records@.len() && records@[r.0 as int].0@ == key@),
{
    let ghost rs = records_view(records@);
    let mut lo: usize = 0;
    let mut hi: usize = records.len();
    while lo < hi
        invariant
            rs == records_view(records@),
            lo <= hi <= records@.len(),
            keys_sorted(rs) ==> forall|i: int| 0 <= i < lo ==> #[trigger] bytes_lt(rs[i].0, key@),
            keys_sorted(rs) ==> forall|i: int| hi <= i < rs.len() ==> !#[trigger] bytes_lt(rs[i].0, key@),
        decreases hi - lo,
    {
        let mid = lo + (hi - lo) / 2;
        if bytes_less(records[mid].0.as_slice(), key) {
            proof {
                if keys_sorted(rs) {
                    assert forall|i: int| 0 <= i < mid + 1 implies #[trigger] bytes_lt(rs[i].0, key@) by {
                        if i < mid {
                            assert(bytes_lt(rs[i].0, rs[mid as int].0));
                            lemma_bytes_lt_transitive(rs[i].0, rs[mid as int].0, key@);
                        }
                    }
                }
            }
            lo = mid + 1;
        } else {
            proof {
                if keys_sorted(rs) {
                    assert forall|i: int| mid <= i < rs.len() implies !#[trigger] bytes_lt(rs[i].0, key@) by {
                        if i > mid && bytes_lt(rs[i].0, key@) {
                            assert(bytes_lt(rs[mid as int].0, rs[i].0));
                            lemma_bytes_lt_transitive(rs[mid as int].0, rs[i].0, key@);
                        }
                    }
                }
            }
            hi = mid;
        }
    }
    let found = lo < records.len() && bytes_eq(records[lo].0.as_slice(), key);
    (lo, found)
}

/// Whether `key` has a record.
pub open spec fn has_key(rs: Seq<RecordView>, key: Seq<u8>) -> bool {
    exists|i: int| 0 <= i < rs.len() && #[trigger] rs[i].0 == key
}

/// With sorted records, the search finds `key` exactly when it has a record.
pub proof fn lemma_search_found(rs: Seq<RecordView>, key: Seq<u8>, pos: int)
    requires
        keys_sorted(rs),
        lower_bound(rs, key, pos),
    ensures
        has_key(rs, key) <==> (pos < rs.len() && rs[pos].0 == key),
{
    if has_key(rs, key) {
        let i = choose|i: int| 0 <= i < rs.len() && #[trigger] rs[i].0 == key;
        lemma_bytes_lt_irreflexive(key);
        if i < pos {
            assert(bytes_lt(rs[i].0, key));
        } else if i > pos {
            assert(bytes_lt(rs[pos].0, rs[i].0));
            assert(!bytes_lt(rs[pos].0, key));
            lemma_bytes_lt_total(rs[pos].0, key);
            if rs[pos].0 != key {
                lemma_bytes_lt_asymmetric(rs[pos].0, key);
            }
        }
    }
}

/// The records with `key` set to `val`: replaced in place, or inserted at `pos`.
pub open spec fn put_record(rs: Seq<RecordView>, pos: int, found: bool, key: Seq<u8>, val: Seq<u8>) -> Seq<RecordView> {
    if found {
        rs.update(pos, (key, val))
    } else {
        rs.insert(pos, (key, val))
    }
}

/// Putting a record where the search says keeps the records sorted and maps `key` to `val`,
/// leaving every other key alone.
pub proof fn lemma_put_record(rs: Seq<RecordView>, key: Seq<u8>, val: Seq<u8>, pos: int)
    requires
        keys_sorted(rs),
        lower_bound(rs, key, pos),
    ensures
        keys_sorted(put_record(rs, pos, pos < rs.len() && rs[pos].0 == key, key, val)),
        records_map(put_record(rs, pos, pos < rs.len() && rs[pos].0 == key, key, val)) == records_map(rs).insert(key, val),
{
    let found = pos < rs.len() && rs[pos].0 == key;
    let out = put_record(rs, pos, found, key, val);
    let before = rs.subrange(0, pos);
    if found {
        let after = rs.subrange(pos + 1, rs.len() as int);
        assert(rs =~= before + seq![rs[pos]] + after);
        assert(out =~= before + seq![(key, val)] + after);
        assert forall|i: int, j: int| #![trigger out[i], out[j]] 0 <= i < j < out.len() implies bytes_lt(out[i].0, out[j].0) by {
            assert(bytes_lt(rs[i].0, rs[j].0));
        }
        lemma_map_replace(before, rs[pos], (key, val), after);
        assert(records_map(before + seq![rs[pos]] + after) == records_map(rs));
        assert(records_map(rs).dom().contains(key)) by {
            lemma_records_map_at(rs, pos);
        }
        assert(records_map(before + seq![rs[pos]] + after).insert(key, val) =~= records_map(rs).insert(key, val));
    } else {
        let after = rs.subrange(pos, rs.len() as int);
        assert(rs =~= before + after);
        assert(out =~= before + seq![(key, val)] + after);
        assert forall|i: int, j: int| #![trigger out[i], out[j]] 0 <= i < j < out.len() implies bytes_lt(out[i].0, out[j].0) by {
            if i < pos && j == pos {
            } else if i == pos && j > pos {
                let r = rs[j - 1];
                assert(!bytes_lt(r.0, key));
                lemma_bytes_lt_total(r.0, key);
                if j - 1 == pos {
                    assert(r.0 != key);
                } else {
                    assert(bytes_lt(rs[pos].0, r.0));
                    lemma_bytes_lt_total(rs[pos].0, key);
                    if rs[pos].0 != key {
                        if bytes_lt(r.0, key) {
                        } else if r.0 == key {
                            assert(bytes_lt(rs[pos].0, key) || bytes_lt(key, rs[pos].0));
                            assert(!bytes_lt(rs[pos].0, key));
                            lemma_bytes_lt_asymmetric(key, rs[pos].0);
                        }
                    }
                }
            } else if i < pos && j > pos {
                assert(bytes_lt(rs[i].0, rs[j - 1].0));
            } else if i > pos {
                assert(bytes_lt(rs[i - 1].0, rs[j - 1].0));
            }
        }
        lemma_map_insert_absent(before, (key, val), after, rs);
    }
}

proof fn lemma_map_replace(before: Seq<RecordView>, old_r: RecordView, new_r: RecordView, after: Seq<RecordView>)
    requires
        old_r.0 == new_r.0,
        keys_sorted(before + seq![old_r] + after),
    ensures
        records_map(before + seq![new_r] + after) == records_map(before + seq![old_r] + after).insert(new_r.0, new_r.1),
{
    let k = new_r.0;
    lemma_records_map_concat(before + seq![new_r], after);
    lemma_records_map_concat(before + seq![old_r], after);
    lemma_records_map_concat(before, seq![new_r]);
    lemma_records_map_concat(before, seq![old_r]);
    let full = before + seq![old_r] + after;
    assert(!records_map(after).dom().contains(k)) by {
        lemma_records_map_dom(after, k);
        if exists|i: int| 0 <= i < after.len() && #[trigger] after[i].0 == k {
            let i = choose|i: int| 0 <= i < after.len() && #[trigger] after[i].0 == k;
            assert(full[before.len() as int + 1 + i] == after[i]);
            assert(bytes_lt(full[before.len() as int].0, full[before.len() as int + 1 + i].0));
            lemma_bytes_lt_irreflexive(k);
        }
    }
    lemma_records_map_single(new_r);
    lemma_records_map_single(old_r);
    assert(records_map(before + seq![new_r] + after) =~= records_map(full).insert(k, new_r.1));
}

proof fn lemma_map_insert_absent(before: Seq<RecordView>, r: RecordView, after: Seq<RecordView>, rs: Seq<RecordView>)
    requires
        rs == before + after,
        keys_sorted(before + seq![r] + after),
    ensures
        records_map(before + seq![r] + after) == records_map(rs).insert(r.0, r.1),
{
    let k = r.0;
    let full = before + seq![r] + after;
    lemma_records_map_concat(before + seq![r], after);
    lemma_records_map_concat(before, seq![r]);
    lemma_records_map_concat(before, after);
    assert(!records_map(after).dom().contains(k)) by {
        lemma_records_map_dom(after, k);
        if exists|i: int| 0 <= i < after.len() && #[trigger] after[i].0 == k {
            let i = choose|i: int| 0 <= i < after.len() && #[trigger] after[i].0 == k;
            assert(full[before.len() as int + 1 + i] == after[i]);
            assert(bytes_lt(full[before.len() as int].0, full[before.len() as int + 1 + i].0));
            lemma_bytes_lt_irreflexive(k);
        }
    }
    lemma_records_map_single(r);
    assert(records_map(full) =~= records_map(rs).insert(k, r.1));
}

/// Removing the record at a position where `key` was found removes `key` from the map and
/// keeps the records sorted.
pub proof fn lemma_remove_record(rs: Seq<RecordView>, key: Seq<u8>, pos: int)
    requires
        keys_sorted(rs),
        0 <= pos < rs.len(),
        rs[pos].0 == key,
    ensures
        keys_sorted(rs.remove(pos)),
        records_map(rs.remove(pos)) == records_map(rs).remove(key),
{
    let before = rs.subrange(0, pos);
    let after = rs.subrange(pos + 1, rs.len() as int);
    assert(rs =~= before + seq![rs[pos]] + after);
    assert(rs.remove(pos) =~= before + after);
    assert forall|i: int, j: int| #![trigger rs.remove(pos)[i], rs.remove(pos)[j]] 0 <= i < j < rs.remove(pos).len() implies bytes_lt(rs.remove(pos)[i].0, rs.remove(pos)[j].0) by {
        if i < pos && j >= pos {
            assert(bytes_lt(rs[i].0, rs[j + 1].0));
        } else if i >= pos {
            assert(bytes_lt(rs[i + 1].0, rs[j + 1].0));
        }
    }
    lemma_records_map_concat(before + seq![rs[pos]], after);
    lemma_records_map_concat(before, seq![rs[pos]]);
    lemma_records_map_concat(before, after);
    lemma_records_map_single(rs[pos]);
    assert(!records_map(after).dom().contains(key)) by {
        lemma_records_map_dom(after, key);
        if exists|i: int| 0 <= i < after.len() && #[trigger] after[i].0 == key {
            let i = choose|i: int| 0 <= i < after.len() && #[trigger] after[i].0 == key;
            assert(rs[pos + 1 + i] == after[i]);
            assert(bytes_lt(rs[pos].0, rs[pos + 1 + i].0));
            lemma_bytes_lt_irreflexive(key);
        }
    }
    assert(!records_map(before).dom().contains(key)) by {
        lemma_records_map_dom(before, key);
        if exists|i: int| 0 <= i < before.len() && #[trigger] before[i].0 == key {
            let i = choose|i: int| 0 <= i < before.len() && #[trigger] before[i].0 == key;
            assert(rs[i] == before[i]);
            assert(bytes_lt(rs[i].0, rs[pos].0));
            lemma_bytes_lt_irreflexive(key);
        }
    }
    assert(records_map(before + after) =~= records_map(rs).remove(key));
}

/// A copy of a record.
pub fn copy_record(r: &(Vec<u8>, Vec<u8>)) -> (c: (Vec<u8>, Vec<u8>))
    ensures
        c.0@ == r.0@,
        c.1@ == r.1@,
{
    (copy_bytes(r.0.as_slice()), copy_bytes(r.1.as_slice()))
}

} // verus!
