//! The writes of an open transaction, kept apart from the database until commit: key to new
//! value, or to `None` for a delete, in key order.
use crate::codec::{bytes_eq, copy_bytes};
use crate::storage::ordered::{bytes_less, bytes_lt, lemma_bytes_lt_total, lemma_bytes_lt_transitive, lemma_bytes_lt_irreflexive};
use vstd::prelude::*;

verus! {

/// A pending write as byte sequences.
pub type WriteView = (Seq<u8>, Option<Seq<u8>>);

pub open spec fn opt_view(v: Option<Vec<u8>>) -> Option<Seq<u8>> {
    match v {
        Some(b) => Some(b@),
        None => None,
    }
}

pub open spec fn writes_view(es: Seq<(Vec<u8>, Option<Vec<u8>>)>) -> Seq<WriteView> {
    es.map_values(|e: (Vec<u8>, Option<Vec<u8>>)| (e.0@, opt_view(e.1)))
}

/// Keys strictly increasing.
pub open spec fn writes_sorted(ws: Seq<WriteView>) -> bool {
    forall|i: int, j: int| #![trigger ws[i], ws[j]] 0 <= i < j < ws.len() ==> bytes_lt(ws[i].0, ws[j].0)
}

/// The pending writes of a transaction.
pub struct WriteBuffer {
    entries: Vec<(Vec<u8>, Option<Vec<u8>>)>,
}

impl WriteBuffer {
    /// The pending writes in key order.
    pub closed spec fn writes(&self) -> Seq<WriteView> {
        writes_view(self.entries@)
    }

    /// The pending writes as a map from key to new value (`None` for a delete).
    pub open spec fn view_map(&self) -> Map<Seq<u8>, Option<Seq<u8>>> {
        writes_map(self.writes())
    }

    pub open spec fn wf(&self) -> bool {
        writes_sorted(self.writes())
    }

    /// No pending writes.
    pub fn new() -> (b: WriteBuffer)
        ensures
            b.wf(),
            b.writes() == Seq::<WriteView>::empty(),
    {
        let b = WriteBuffer { entries: Vec::new() };
        assert(b.writes() =~= Seq::<WriteView>::empty());
        b
    }

    /// Drops every pending write.
    pub fn clear(&mut self)
        ensures
            final(self).wf(),
            final(self).writes() == Seq::<WriteView>::empty(),
    {
        self.entries = Vec::new();
        assert(self.writes() =~= Seq::<WriteView>::empty());
    }

    /// The number of pending writes.
    pub fn len(&self) -> (n: usize)
        ensures
            n == self.writes().len(),
    {
        self.entries.len()
    }

    /// The pending write at position `i` in key order (a copy).
    pub fn entry(&self, i: usize) -> (r: (Vec<u8>, Option<Vec<u8>>))
        requires
            i < self.writes().len(),
        ensures
            (r.0@, opt_view(r.1)) == self.writes()[i as int],
    {
        let e = &self.entries[i];
        let v = match &e.1 {
            Some(b) => Some(copy_bytes(b.as_slice())),
            None => None,
        };
        (copy_bytes(e.0.as_slice()), v)
    }

    /// The position where `key` is or belongs.
    fn position(&self, key: &[u8]) -> (r: usize)
        requires
            self.wf(),
        ensures
            r <= self.writes().len(),
            forall|i: int| 0 <= i < r ==> bytes_lt(#[trigger] self.writes()[i].0, key@),
            r < self.writes().len() ==> !bytes_lt(self.writes()[r as int].0, key@),
    {
        let mut i: usize = 0;
        while i < self.entries.len()
            invariant
                i <= self.writes().len(),
                forall|j: int| 0 <= j < i ==> bytes_lt(#[trigger] self.writes()[j].0, key@),
            ensures
                i <= self.writes().len(),
                forall|j: int| 0 <= j < i ==> bytes_lt(#[trigger] self.writes()[j].0, key@),
                i < self.writes().len() ==> !bytes_lt(self.writes()[i as int].0, key@),
            decreases self.writes().len() - i,
        {
            assert(self.writes()[i as int].0 == self.entries@[i as int].0@);
            if !bytes_less(self.entries[i].0.as_slice(), key) {
                break;
            }
            i = i + 1;
        }
        i
    }

    /// The pending write of `key`: `Some(None)` for a delete, `None` when there is none.
    pub fn get(&self, key: &[u8]) -> (r: Option<Option<Vec<u8>>>)
        requires
            self.wf(),
        ensures
            self.view_map().dom().contains(key@) <==> r is Some,
            r matches Some(v) ==> opt_view(v) == self.view_map()[key@],
    {
        let i = self.position(key);
        if i < self.entries.len() && bytes_eq(self.entries[i].0.as_slice(), key) {
            proof {
                assert(self.writes()[i as int].0 == key@);
                self.lemma_unique_at(i as int);
            }
            let v = match &self.entries[i].1 {
                Some(b) => Some(copy_bytes(b.as_slice())),
                None => None,
            };
            assert(opt_view(v) == self.writes()[i as int].1);
            Some(v)
        } else {
            proof {
                if self.view_map().dom().contains(key@) {
                    let j = choose|j: int| 0 <= j < self.writes().len() && #[trigger] self.writes()[j].0 == key@;
                    lemma_bytes_lt_irreflexive(key@);
                    if j >= i {
                        if j > i {
                            assert(bytes_lt(self.writes()[i as int].0, self.writes()[j].0));
                            lemma_bytes_lt_total(self.writes()[i as int].0, key@);
                        }
                    }
                }
            }
            None
        }
    }

    proof fn lemma_unique_at(&self, i: int)
        requires
            self.wf(),
            0 <= i < self.writes().len(),
        ensures
            self.view_map().dom().contains(self.writes()[i].0),
            self.view_map()[self.writes()[i].0] == self.writes()[i].1,
    {
        lemma_unique_in(self.writes(), i);
    }

    /// Whether `key` has a pending write.
    pub fn contains_key(&self, key: &[u8]) -> (r: bool)
        requires
            self.wf(),
        ensures
            r == self.view_map().dom().contains(key@),
    {
        match self.get(key) {
            Some(_) => true,
            None => false,
        }
    }

    /// Records a write of `key`: a new value, or `None` for a delete.
    pub fn insert(&mut self, key: Vec<u8>, value: Option<Vec<u8>>)
        requires
            old(self).wf(),
        ensures
            final(self).wf(),
            final(self).view_map() == old(self).view_map().insert(key@, opt_view(value)),
    {
        let ghost ws0 = self.writes();
        let ghost k = key@;
        let ghost v = opt_view(value);
        let i = self.position(key.as_slice());
        if i < self.entries.len() && bytes_eq(self.entries[i].0.as_slice(), key.as_slice()) {
            self.entries.set(i, (key, value));
            proof {
                let ws = self.writes();
                assert(ws =~= ws0.update(i as int, (k, v)));
                assert forall|a: int, b: int| #![trigger ws[a], ws[b]] 0 <= a < b < ws.len() implies bytes_lt(ws[a].0, ws[b].0) by {
                    assert(bytes_lt(ws0[a].0, ws0[b].0));
                }
                self.lemma_map_update(ws0, i as int, k, v);
            }
        } else {
            self.entries.insert(i, (key, value));
            proof {
                let ws = self.writes();
                assert(ws =~= ws0.insert(i as int, (k, v)));
                if i < ws0.len() {
                    lemma_bytes_lt_total(ws0[i as int].0, k);
                    assert(bytes_lt(k, ws0[i as int].0));
                }
                assert forall|j: int| 0 <= j < ws0.len() implies #[trigger] ws0[j].0 != k by {
                    lemma_bytes_lt_irreflexive(k);
                    if j < i {
                        assert(bytes_lt(ws0[j].0, k));
                    } else if j > i {
                        assert(bytes_lt(ws0[i as int].0, ws0[j].0));
                        lemma_bytes_lt_transitive(k, ws0[i as int].0, ws0[j].0);
                    }
                }
                assert forall|a: int, b: int| #![trigger ws[a], ws[b]] 0 <= a < b < ws.len() implies bytes_lt(ws[a].0, ws[b].0) by {
                    if b < i {
                        assert(bytes_lt(ws0[a].0, ws0[b].0));
                    } else if a < i && b == i {
                    } else if a < i && b > i {
                        assert(bytes_lt(ws0[a].0, ws0[b - 1].0));
                    } else if a == i {
                        if b - 1 > i {
                            assert(bytes_lt(ws0[i as int].0, ws0[b - 1].0));
                            lemma_bytes_lt_transitive(k, ws0[i as int].0, ws0[b - 1].0);
                        }
                    } else {
                        assert(bytes_lt(ws0[a - 1].0, ws0[b - 1].0));
                    }
                }
                self.lemma_map_insert(ws0, i as int, k, v);
            }
        }
    }

    proof fn lemma_map_update(&self, ws0: Seq<WriteView>, i: int, k: Seq<u8>, v: Option<Seq<u8>>)
        requires
            writes_sorted(ws0),
            self.wf(),
            0 <= i < ws0.len(),
            ws0[i].0 == k,
            self.writes() == ws0.update(i, (k, v)),
        ensures
            self.view_map() == writes_map(ws0).insert(k, v),
    {
        let m0 = writes_map(ws0);
        assert forall|key: Seq<u8>| #[trigger] self.view_map().dom().contains(key) == m0.insert(k, v).dom().contains(key) by {
            if m0.dom().contains(key) {
                let j = choose|j: int| 0 <= j < ws0.len() && #[trigger] ws0[j].0 == key;
                assert(self.writes()[j].0 == key);
            }
            if self.view_map().dom().contains(key) {
                let j = choose|j: int| 0 <= j < self.writes().len() && #[trigger] self.writes()[j].0 == key;
                assert(ws0[j].0 == key);
            }
        }
        assert forall|key: Seq<u8>| #[trigger] self.view_map().dom().contains(key) implies self.view_map()[key] == m0.insert(k, v)[key] by {
            let j = key_index(self.writes(), key);
            self.lemma_unique_at(j);
            assert(self.writes()[i].0 == k);
            if key != k {
                assert(j != i);
                lemma_unique_in(ws0, j);
            } else {
                self.lemma_unique_at(i);
            }
        }
        assert(self.view_map() =~= m0.insert(k, v));
    }

    proof fn lemma_map_insert(&self, ws0: Seq<WriteView>, i: int, k: Seq<u8>, v: Option<Seq<u8>>)
        requires
            writes_sorted(ws0),
            self.wf(),
            0 <= i <= ws0.len(),
            forall|j: int| 0 <= j < ws0.len() ==> #[trigger] ws0[j].0 != k,
            self.writes() == ws0.insert(i, (k, v)),
        ensures
            self.view_map() == writes_map(ws0).insert(k, v),
    {
        let m0 = writes_map(ws0);
        assert forall|key: Seq<u8>| #[trigger] self.view_map().dom().contains(key) == m0.insert(k, v).dom().contains(key) by {
            if m0.dom().contains(key) {
                let j = choose|j: int| 0 <= j < ws0.len() && #[trigger] ws0[j].0 == key;
                if j < i {
                    assert(self.writes()[j].0 == key);
                } else {
                    assert(self.writes()[j + 1].0 == key);
                }
            }
            if key == k {
                assert(self.writes()[i].0 == key);
            }
            if self.view_map().dom().contains(key) {
                let j = choose|j: int| 0 <= j < self.writes().len() && #[trigger] self.writes()[j].0 == key;
                if j < i {
                    assert(ws0[j].0 == key);
                } else if j > i {
                    assert(ws0[j - 1].0 == key);
                }
            }
        }
        assert forall|key: Seq<u8>| #[trigger] self.view_map().dom().contains(key) implies self.view_map()[key] == m0.insert(k, v)[key] by {
            let j = key_index(self.writes(), key);
            assert(exists|t: int| 0 <= t < self.writes().len() && #[trigger] self.writes()[t].0 == key);
            assert(0 <= j < self.writes().len() && self.writes()[j].0 == key);
            self.lemma_unique_at(j);
            assert(self.writes()[i].0 == k);
            if key != k {
                if j < i {
                    assert(self.writes()[j] == ws0[j]);
                    lemma_unique_in(ws0, j);
                    assert(m0[key] == ws0[j].1);
                } else {
                    assert(j != i);
                    lemma_unique_in(ws0, j - 1);
                }
            } else {
                self.lemma_unique_at(i);
            }
        }
        assert(self.view_map() =~= m0.insert(k, v));
    }
}

/// A position of `k` among the writes, if it has one.
pub open spec fn key_index(ws: Seq<WriteView>, k: Seq<u8>) -> int {
    choose|i: int| 0 <= i < ws.len() && #[trigger] ws[i].0 == k
}

/// The map of a sequence of writes.
pub open spec fn writes_map(ws: Seq<WriteView>) -> Map<Seq<u8>, Option<Seq<u8>>> {
    Map::new(
        |k: Seq<u8>| exists|i: int| 0 <= i < ws.len() && #[trigger] ws[i].0 == k,
        |k: Seq<u8>| ws[key_index(ws, k)].1,
    )
}

/// In sorted writes each key's entry in the map is its own write.
pub proof fn lemma_unique_in(ws: Seq<WriteView>, i: int)
    requires
        writes_sorted(ws),
        0 <= i < ws.len(),
    ensures
        writes_map(ws).dom().contains(ws[i].0),
        writes_map(ws)[ws[i].0] == ws[i].1,
{
    let k = ws[i].0;
    assert(ws[i].0 == k);
    assert(writes_map(ws).dom().contains(k));
    let j = key_index(ws, k);
    if j != i {
        lemma_bytes_lt_irreflexive(k);
        if j < i {
            assert(bytes_lt(ws[j].0, ws[i].0));
        } else {
            assert(bytes_lt(ws[i].0, ws[j].0));
        }
    }
}

} // verus!
