//! B+ tree nodes and their page encoding.
//!
//! Leaf page:     [type=0: 1B][num_records: 2B][parent: 4B][next_leaf: 4B]
//!                then per record [key_len: 4B][key][val_len: 4B][val]
//! Internal page: [type=1: 1B][num_keys: 2B][parent: 4B]
//!                then num_keys + 1 child ids [4B each], then per key [key_len: 4B][key]
//! Absent page ids are stored as u32::MAX; integers are little-endian.
use crate::codec::{
    copy_range, le_u16, le_u16_value, le_u32, le_u32_value, lemma_le_u16_roundtrip,
    lemma_le_u32_roundtrip, push_bytes, push_u16_le, push_u32_le, push_zeros, read_u16_le,
    read_u32_le, zeros,
};
use crate::storage::pager::{u32_at, Page, PageId, NO_PAGE, PAGE_SIZE};
use crate::storage::StorageError;
pub use crate::storage::tree::BTree;
use vstd::prelude::*;

verus! {

pub const NODE_TYPE_LEAF: u8 = 0;

pub const NODE_TYPE_INTERNAL: u8 = 1;

pub const LEAF_HEADER_SIZE: usize = 11;

pub const INTERNAL_HEADER_SIZE: usize = 7;

/// Maximum inline size of a value before it is spilled to overflow pages.
pub const MAX_INLINE_VAL_SIZE: usize = 2000;

/// Maximum key size; larger keys are rejected.
pub const MAX_KEY_SIZE: usize = 1024;

/// A key-value record as byte sequences.
pub type RecordView = (Seq<u8>, Seq<u8>);

/// The abstract content of a leaf node.
pub struct LeafView {
    pub parent: Option<u32>,
    pub next: Option<u32>,
    pub records: Seq<RecordView>,
}

/// The abstract content of an internal node.
pub struct InternalView {
    pub parent: Option<u32>,
    pub keys: Seq<Seq<u8>>,
    pub children: Seq<u32>,
}

/// The abstract content of a node.
pub enum NodeView {
    Leaf(LeafView),
    Internal(InternalView),
}

/// In-memory representation of a B+ tree node.
#[derive(Debug, Clone)]
pub enum Node {
    Leaf(LeafNode),
    Internal(InternalNode),
}

#[derive(Debug, Clone)]
pub struct LeafNode {
    pub parent_page_id: Option<PageId>,
    pub next_leaf: Option<PageId>,
    pub records: Vec<(Vec<u8>, Vec<u8>)>,
}

#[derive(Debug, Clone)]
pub struct InternalNode {
    pub parent_page_id: Option<PageId>,
    pub keys: Vec<Vec<u8>>,
    pub children: Vec<PageId>,
}

pub open spec fn record_view(r: (Vec<u8>, Vec<u8>)) -> RecordView {
    (r.0@, r.1@)
}

pub open spec fn records_view(rs: Seq<(Vec<u8>, Vec<u8>)>) -> Seq<RecordView> {
    rs.map_values(|r: (Vec<u8>, Vec<u8>)| record_view(r))
}

pub open spec fn keys_view(ks: Seq<Vec<u8>>) -> Seq<Seq<u8>> {
    ks.map_values(|k: Vec<u8>| k@)
}

impl LeafNode {
    pub open spec fn view(&self) -> LeafView {
        LeafView {
            parent: self.parent_page_id,
            next: self.next_leaf,
            records: records_view(self.records@),
        }
    }
}

impl InternalNode {
    pub open spec fn view(&self) -> InternalView {
        InternalView {
            parent: self.parent_page_id,
            keys: keys_view(self.keys@),
            children: self.children@,
        }
    }
}

impl Node {
    pub open spec fn view(&self) -> NodeView {
        match self {
            Node::Leaf(l) => NodeView::Leaf(l.view()),
            Node::Internal(i) => NodeView::Internal(i.view()),
        }
    }
}

/// The stored form of an optional page id.
pub open spec fn opt_id(o: Option<u32>) -> u32 {
    match o {
        Some(x) => x,
        None => NO_PAGE,
    }
}

/// The optional page id that a stored id stands for.
pub open spec fn id_opt(x: u32) -> Option<u32> {
    if x == NO_PAGE {
        None
    } else {
        Some(x)
    }
}

pub open spec fn enc_record(r: RecordView) -> Seq<u8> {
    le_u32(r.0.len() as u32) + r.0 + le_u32(r.1.len() as u32) + r.1
}

pub open spec fn enc_records(rs: Seq<RecordView>) -> Seq<u8>
    decreases rs.len(),
{
    if rs.len() == 0 {
        Seq::empty()
    } else {
        enc_record(rs[0]) + enc_records(rs.drop_first())
    }
}

pub open spec fn enc_key(k: Seq<u8>) -> Seq<u8> {
    le_u32(k.len() as u32) + k
}

pub open spec fn enc_keys(ks: Seq<Seq<u8>>) -> Seq<u8>
    decreases ks.len(),
{
    if ks.len() == 0 {
        Seq::empty()
    } else {
        enc_key(ks[0]) + enc_keys(ks.drop_first())
    }
}

pub open spec fn enc_children(cs: Seq<u32>) -> Seq<u8>
    decreases cs.len(),
{
    if cs.len() == 0 {
        Seq::empty()
    } else {
        le_u32(cs[0]) + enc_children(cs.drop_first())
    }
}

/// The bytes a node occupies at the start of its page.
pub open spec fn encode_node(v: NodeView) -> Seq<u8> {
    match v {
        NodeView::Leaf(l) => seq![NODE_TYPE_LEAF] + le_u16(l.records.len() as u16) + le_u32(
            opt_id(l.parent),
        ) + le_u32(opt_id(l.next)) + enc_records(l.records),
        NodeView::Internal(i) => seq![NODE_TYPE_INTERNAL] + le_u16(i.keys.len() as u16) + le_u32(
            opt_id(i.parent),
        ) + enc_children(i.children) + enc_keys(i.keys),
    }
}

pub open spec fn records_size(rs: Seq<RecordView>) -> int
    decreases rs.len(),
{
    if rs.len() == 0 {
        0
    } else {
        8 + rs[0].0.len() + rs[0].1.len() + records_size(rs.drop_first())
    }
}

pub open spec fn keys_size(ks: Seq<Seq<u8>>) -> int
    decreases ks.len(),
{
    if ks.len() == 0 {
        0
    } else {
        4 + ks[0].len() + keys_size(ks.drop_first())
    }
}

/// The number of bytes a node's encoding takes.
pub open spec fn node_size(v: NodeView) -> int {
    match v {
        NodeView::Leaf(l) => LEAF_HEADER_SIZE + records_size(l.records),
        NodeView::Internal(i) => INTERNAL_HEADER_SIZE + 4 * i.children.len() + keys_size(i.keys),
    }
}

/// Records read from page bytes `d` starting at `off`, at most `n` of them, stopping early
/// where a length field or its bytes would run past the page.
pub open spec fn dec_records(d: Seq<u8>, off: int, n: nat) -> Seq<RecordView>
    decreases n,
{
    if n == 0 || off + 4 > PAGE_SIZE {
        Seq::empty()
    } else {
        let klen = u32_at(d, off) as int;
        let o1 = off + 4;
        if o1 + klen > PAGE_SIZE {
            Seq::empty()
        } else {
            let o2 = o1 + klen;
            if o2 + 4 > PAGE_SIZE {
                Seq::empty()
            } else {
                let vlen = u32_at(d, o2) as int;
                let o3 = o2 + 4;
                if o3 + vlen > PAGE_SIZE {
                    Seq::empty()
                } else {
                    seq![(d.subrange(o1, o2), d.subrange(o3, o3 + vlen))] + dec_records(
                        d,
                        o3 + vlen,
                        (n - 1) as nat,
                    )
                }
            }
        }
    }
}

/// Child ids read from `d` at `off`, at most `n`, stopping at the page end.
pub open spec fn dec_children(d: Seq<u8>, off: int, n: nat) -> Seq<u32>
    decreases n,
{
    if n == 0 || off + 4 > PAGE_SIZE {
        Seq::empty()
    } else {
        seq![u32_at(d, off)] + dec_children(d, off + 4, (n - 1) as nat)
    }
}

/// The offset just past the child ids that `dec_children` reads.
pub open spec fn children_end(d: Seq<u8>, off: int, n: nat) -> int
    decreases n,
{
    if n == 0 || off + 4 > PAGE_SIZE {
        off
    } else {
        children_end(d, off + 4, (n - 1) as nat)
    }
}

/// Keys read from `d` at `off`, at most `n`, stopping at the page end.
pub open spec fn dec_keys(d: Seq<u8>, off: int, n: nat) -> Seq<Seq<u8>>
    decreases n,
{
    if n == 0 || off + 4 > PAGE_SIZE {
        Seq::empty()
    } else {
        let klen = u32_at(d, off) as int;
        let o1 = off + 4;
        if o1 + klen > PAGE_SIZE {
            Seq::empty()
        } else {
            seq![d.subrange(o1, o1 + klen)] + dec_keys(d, o1 + klen, (n - 1) as nat)
        }
    }
}

/// The node that page bytes `d` hold.
pub open spec fn decode_node(d: Seq<u8>) -> NodeView {
    let num = le_u16_value(d.subrange(1, 3)) as nat;
    let parent = id_opt(u32_at(d, 3));
    if d[0] == NODE_TYPE_LEAF {
        NodeView::Leaf(
            LeafView { parent, next: id_opt(u32_at(d, 7)), records: dec_records(d, 11, num) },
        )
    } else {
        NodeView::Internal(
            InternalView {
                parent,
                children: dec_children(d, 7, num + 1),
                keys: dec_keys(d, children_end(d, 7, num + 1), num),
            },
        )
    }
}


pub proof fn lemma_records_size(rs: Seq<RecordView>)
    ensures
        records_size(rs) >= 0,
        enc_records(rs).len() == records_size(rs),
    decreases rs.len(),
{
    if rs.len() > 0 {
        lemma_records_size(rs.drop_first());
    }
}

pub proof fn lemma_keys_size(ks: Seq<Seq<u8>>)
    ensures
        keys_size(ks) >= 0,
        enc_keys(ks).len() == keys_size(ks),
    decreases ks.len(),
{
    if ks.len() > 0 {
        lemma_keys_size(ks.drop_first());
    }
}

pub proof fn lemma_children_size(cs: Seq<u32>)
    ensures
        enc_children(cs).len() == 4 * cs.len(),
    decreases cs.len(),
{
    if cs.len() > 0 {
        lemma_children_size(cs.drop_first());
    }
}

pub proof fn lemma_node_size(v: NodeView)
    ensures
        encode_node(v).len() == node_size(v),
        node_size(v) >= 0,
{
    match v {
        NodeView::Leaf(l) => {
            lemma_records_size(l.records);
        },
        NodeView::Internal(i) => {
            lemma_keys_size(i.keys);
            lemma_children_size(i.children);
        },
    }
}

/// Appends the encoding of each record, front to back.
fn push_records(buf: &mut Vec<u8>, records: &Vec<(Vec<u8>, Vec<u8>)>)
    ensures
        final(buf)@ == old(buf)@ + enc_records(records_view(records@)),
{
    let ghost rs = records_view(records@);
    let ghost start = buf@;
    let mut i: usize = 0;
    assert(rs.skip(0) =~= rs);
    while i < records.len()
        invariant
            rs == records_view(records@),
            i <= rs.len(),
            buf@ + enc_records(rs.skip(i as int)) == start + enc_records(rs),
        decreases rs.len() - i,
    {
        let ghost before = buf@;
        assert(rs.skip(i as int).drop_first() =~= rs.skip(i + 1));
        let k = &records[i].0;
        let v = &records[i].1;
        push_u32_le(buf, k.len() as u32);
        push_bytes(buf, k.as_slice());
        push_u32_le(buf, v.len() as u32);
        push_bytes(buf, v.as_slice());
        assert(buf@ == before + enc_record(rs[i as int]));
        assert(buf@ + enc_records(rs.skip(i + 1)) =~= before + enc_records(rs.skip(i as int)));
        i += 1;
    }
    assert(rs.skip(i as int) =~= Seq::<RecordView>::empty());
    assert(buf@ =~= start + enc_records(rs));
}

/// Appends the encoding of each key, front to back.
fn push_keys(buf: &mut Vec<u8>, keys: &Vec<Vec<u8>>)
    ensures
        final(buf)@ == old(buf)@ + enc_keys(keys_view(keys@)),
{
    let ghost ks = keys_view(keys@);
    let ghost start = buf@;
    let mut i: usize = 0;
    assert(ks.skip(0) =~= ks);
    while i < keys.len()
        invariant
            ks == keys_view(keys@),
            i <= ks.len(),
            buf@ + enc_keys(ks.skip(i as int)) == start + enc_keys(ks),
        decreases ks.len() - i,
    {
        let ghost before = buf@;
        assert(ks.skip(i as int).drop_first() =~= ks.skip(i + 1));
        let k = &keys[i];
        push_u32_le(buf, k.len() as u32);
        push_bytes(buf, k.as_slice());
        assert(buf@ == before + enc_key(ks[i as int]));
        assert(buf@ + enc_keys(ks.skip(i + 1)) =~= before + enc_keys(ks.skip(i as int)));
        i += 1;
    }
    assert(ks.skip(i as int) =~= Seq::<Seq<u8>>::empty());
    assert(buf@ =~= start + enc_keys(ks));
}

/// Appends the encoding of each child id, front to back.
fn push_children(buf: &mut Vec<u8>, children: &Vec<PageId>)
    ensures
        final(buf)@ == old(buf)@ + enc_children(children@),
{
    let ghost cs = children@;
    let ghost start = buf@;
    let mut i: usize = 0;
    assert(cs.skip(0) =~= cs);
    while i < children.len()
        invariant
            cs == children@,
            i <= cs.len(),
            buf@ + enc_children(cs.skip(i as int)) == start + enc_children(cs),
        decreases cs.len() - i,
    {
        let ghost before = buf@;
        assert(cs.skip(i as int).drop_first() =~= cs.skip(i + 1));
        push_u32_le(buf, children[i]);
        assert(buf@ + enc_children(cs.skip(i + 1)) =~= before + enc_children(cs.skip(i as int)));
        i += 1;
    }
    assert(cs.skip(i as int) =~= Seq::<u32>::empty());
    assert(buf@ =~= start + enc_children(cs));
}

/// The stored form of an optional page id.
fn stored_id(o: Option<PageId>) -> (r: u32)
    ensures
        r == opt_id(o),
{
    match o {
        Some(x) => x,
        None => NO_PAGE,
    }
}

/// Reads up to `n` records from page bytes at `off`, as `dec_records` describes.
fn decode_records(d: &[u8], off: usize, n: usize) -> (r: Vec<(Vec<u8>, Vec<u8>)>)
    requires
        d@.len() == PAGE_SIZE,
        off <= PAGE_SIZE,
    ensures
        records_view(r@) == dec_records(d@, off as int, n as nat),
{
    let mut records: Vec<(Vec<u8>, Vec<u8>)> = Vec::new();
    let mut offset = off;
    let mut i: usize = 0;
    while i < n
        invariant
            d@.len() == PAGE_SIZE,
            i <= n,
            offset <= PAGE_SIZE,
            records_view(records@) + dec_records(d@, offset as int, (n - i) as nat) == dec_records(
                d@,
                off as int,
                n as nat,
            ),
        ensures
            records_view(records@) == dec_records(d@, off as int, n as nat),
        decreases n - i,
    {
        let ghost rest = dec_records(d@, offset as int, (n - i) as nat);
        if offset + 4 > PAGE_SIZE {
            assert(rest =~= Seq::<RecordView>::empty());
            assert(records_view(records@) =~= records_view(records@) + rest);
            break;
        }
        let klen = read_u32_le(d, offset) as usize;
        let o1 = offset + 4;
        if klen > PAGE_SIZE - o1 {
            assert(rest =~= Seq::<RecordView>::empty());
            assert(records_view(records@) =~= records_view(records@) + rest);
            break;
        }
        let o2 = o1 + klen;
        if o2 + 4 > PAGE_SIZE {
            assert(rest =~= Seq::<RecordView>::empty());
            assert(records_view(records@) =~= records_view(records@) + rest);
            break;
        }
        let vlen = read_u32_le(d, o2) as usize;
        let o3 = o2 + 4;
        if vlen > PAGE_SIZE - o3 {
            assert(rest =~= Seq::<RecordView>::empty());
            assert(records_view(records@) =~= records_view(records@) + rest);
            break;
        }
        let key = copy_range(d, o1, o2);
        let val = copy_range(d, o3, o3 + vlen);
        let ghost before = records_view(records@);
        records.push((key, val));
        assert(records_view(records@) =~= before.push((d@.subrange(o1 as int, o2 as int), d@.subrange(o3 as int, o3 + vlen))));
        offset = o3 + vlen;
        i += 1;
        assert(rest == seq![(d@.subrange(o1 as int, o2 as int), d@.subrange(o3 as int, o3 + vlen))] + dec_records(d@, offset as int, (n - i) as nat));
        assert(records_view(records@) + dec_records(d@, offset as int, (n - i) as nat) =~= before + rest);
    }
    proof {
        if i == n {
            assert(dec_records(d@, offset as int, 0) =~= Seq::<RecordView>::empty());
            assert(records_view(records@) =~= records_view(records@) + Seq::<RecordView>::empty());
        }
    }
    records
}

/// Reads up to `n` child ids at `off`; also returns the offset just past them.
fn decode_children(d: &[u8], off: usize, n: usize) -> (r: (Vec<PageId>, usize))
    requires
        d@.len() == PAGE_SIZE,
        off <= PAGE_SIZE,
    ensures
        r.0@ == dec_children(d@, off as int, n as nat),
        r.1 == children_end(d@, off as int, n as nat),
        r.1 <= PAGE_SIZE,
{
    let mut children: Vec<PageId> = Vec::new();
    let mut offset = off;
    let mut i: usize = 0;
    while i < n
        invariant
            d@.len() == PAGE_SIZE,
            i <= n,
            offset <= PAGE_SIZE,
            children@ + dec_children(d@, offset as int, (n - i) as nat) == dec_children(
                d@,
                off as int,
                n as nat,
            ),
            children_end(d@, offset as int, (n - i) as nat) == children_end(d@, off as int, n as nat),
        ensures
            children@ == dec_children(d@, off as int, n as nat),
            offset == children_end(d@, off as int, n as nat),
        decreases n - i,
    {
        let ghost rest = dec_children(d@, offset as int, (n - i) as nat);
        if offset + 4 > PAGE_SIZE {
            assert(rest =~= Seq::<u32>::empty());
            assert(children@ =~= children@ + rest);
            break;
        }
        let child = read_u32_le(d, offset);
        let ghost before = children@;
        children.push(child);
        offset = offset + 4;
        i += 1;
        assert(children@ + dec_children(d@, offset as int, (n - i) as nat) =~= before + rest);
    }
    proof {
        if i == n {
            assert(children@ =~= children@ + dec_children(d@, offset as int, 0));
        }
    }
    (children, offset)
}

/// Reads up to `n` keys at `off`, as `dec_keys` describes.
fn decode_keys(d: &[u8], off: usize, n: usize) -> (r: Vec<Vec<u8>>)
    requires
        d@.len() == PAGE_SIZE,
        off <= PAGE_SIZE,
    ensures
        keys_view(r@) == dec_keys(d@, off as int, n as nat),
{
    let mut keys: Vec<Vec<u8>> = Vec::new();
    let mut offset = off;
    let mut i: usize = 0;
    while i < n
        invariant
            d@.len() == PAGE_SIZE,
            i <= n,
            offset <= PAGE_SIZE,
            keys_view(keys@) + dec_keys(d@, offset as int, (n - i) as nat) == dec_keys(
                d@,
                off as int,
                n as nat,
            ),
        ensures
            keys_view(keys@) == dec_keys(d@, off as int, n as nat),
        decreases n - i,
    {
        let ghost rest = dec_keys(d@, offset as int, (n - i) as nat);
        if offset + 4 > PAGE_SIZE {
            assert(rest =~= Seq::<Seq<u8>>::empty());
            assert(keys_view(keys@) =~= keys_view(keys@) + rest);
            break;
        }
        let klen = read_u32_le(d, offset) as usize;
        let o1 = offset + 4;
        if klen > PAGE_SIZE - o1 {
            assert(rest =~= Seq::<Seq<u8>>::empty());
            assert(keys_view(keys@) =~= keys_view(keys@) + rest);
            break;
        }
        let key = copy_range(d, o1, o1 + klen);
        let ghost before = keys_view(keys@);
        keys.push(key);
        assert(keys_view(keys@) =~= before.push(d@.subrange(o1 as int, o1 + klen)));
        offset = o1 + klen;
        i += 1;
        assert(keys_view(keys@) + dec_keys(d@, offset as int, (n - i) as nat) =~= before + rest);
    }
    proof {
        if i == n {
            assert(keys_view(keys@) =~= keys_view(keys@) + dec_keys(d@, offset as int, 0));
        }
    }
    keys
}

/// The optional page id that a stored id stands for.
fn optional_id(x: u32) -> (r: Option<PageId>)
    ensures
        r == id_opt(x),
{
    if x == NO_PAGE {
        None
    } else {
        Some(x)
    }
}

/// Reading `len` bytes inside a region that equals `e` reads the matching part of `e`.
proof fn lemma_sub_of_region(d: Seq<u8>, off: int, e: Seq<u8>, a: int, b: int)
    requires
        0 <= off,
        off + e.len() <= d.len(),
        d.subrange(off, off + e.len()) == e,
        0 <= a <= b <= e.len(),
    ensures
        d.subrange(off + a, off + b) == e.subrange(a, b),
{
    assert forall|i: int| 0 <= i < b - a implies d.subrange(off + a, off + b)[i] == e.subrange(a, b)[i] by {
        assert(d.subrange(off, off + e.len())[a + i] == e[a + i]);
    }
    assert(d.subrange(off + a, off + b) =~= e.subrange(a, b));
}

proof fn lemma_dec_records(d: Seq<u8>, off: int, rs: Seq<RecordView>)
    requires
        d.len() == PAGE_SIZE,
        0 <= off,
        off + records_size(rs) <= PAGE_SIZE,
        d.subrange(off, off + records_size(rs)) == enc_records(rs),
    ensures
        dec_records(d, off, rs.len()) == rs,
    decreases rs.len(),
{
    lemma_records_size(rs);
    if rs.len() == 0 {
        assert(dec_records(d, off, 0) =~= rs);
    } else {
        let r = rs[0];
        let rest = rs.drop_first();
        let e = enc_records(rs);
        lemma_records_size(rest);
        let kl = r.0.len() as int;
        let vl = r.1.len() as int;
        assert(e == le_u32(kl as u32) + r.0 + le_u32(vl as u32) + r.1 + enc_records(rest));
        lemma_le_u32_roundtrip(kl as u32);
        lemma_le_u32_roundtrip(vl as u32);
        lemma_sub_of_region(d, off, e, 0, 4);
        assert(e.subrange(0, 4) =~= le_u32(kl as u32));
        assert(u32_at(d, off) == kl);
        lemma_sub_of_region(d, off, e, 4, 4 + kl);
        assert(e.subrange(4, 4 + kl) =~= r.0);
        lemma_sub_of_region(d, off, e, 4 + kl, 8 + kl);
        assert(e.subrange(4 + kl, 8 + kl) =~= le_u32(vl as u32));
        assert(u32_at(d, off + 4 + kl) == vl);
        lemma_sub_of_region(d, off, e, 8 + kl, 8 + kl + vl);
        assert(e.subrange(8 + kl, 8 + kl + vl) =~= r.1);
        let noff = off + 8 + kl + vl;
        lemma_sub_of_region(d, off, e, 8 + kl + vl, e.len() as int);
        assert(e.subrange(8 + kl + vl, e.len() as int) =~= enc_records(rest));
        lemma_dec_records(d, noff, rest);
        assert(dec_records(d, off, rs.len()) =~= seq![r] + rest);
        assert(seq![r] + rest =~= rs);
    }
}

proof fn lemma_dec_keys(d: Seq<u8>, off: int, ks: Seq<Seq<u8>>)
    requires
        d.len() == PAGE_SIZE,
        0 <= off,
        off + keys_size(ks) <= PAGE_SIZE,
        d.subrange(off, off + keys_size(ks)) == enc_keys(ks),
    ensures
        dec_keys(d, off, ks.len()) == ks,
    decreases ks.len(),
{
    lemma_keys_size(ks);
    if ks.len() == 0 {
        assert(dec_keys(d, off, 0) =~= ks);
    } else {
        let k = ks[0];
        let rest = ks.drop_first();
        let e = enc_keys(ks);
        lemma_keys_size(rest);
        let kl = k.len() as int;
        assert(e == le_u32(kl as u32) + k + enc_keys(rest));
        lemma_le_u32_roundtrip(kl as u32);
        lemma_sub_of_region(d, off, e, 0, 4);
        assert(e.subrange(0, 4) =~= le_u32(kl as u32));
        lemma_sub_of_region(d, off, e, 4, 4 + kl);
        assert(e.subrange(4, 4 + kl) =~= k);
        lemma_sub_of_region(d, off, e, 4 + kl, e.len() as int);
        assert(e.subrange(4 + kl, e.len() as int) =~= enc_keys(rest));
        lemma_dec_keys(d, off + 4 + kl, rest);
        assert(dec_keys(d, off, ks.len()) =~= seq![k] + rest);
        assert(seq![k] + rest =~= ks);
    }
}

proof fn lemma_dec_children(d: Seq<u8>, off: int, cs: Seq<u32>)
    requires
        d.len() == PAGE_SIZE,
        0 <= off,
        off + 4 * cs.len() <= PAGE_SIZE,
        d.subrange(off, off + 4 * cs.len()) == enc_children(cs),
    ensures
        dec_children(d, off, cs.len()) == cs,
        children_end(d, off, cs.len()) == off + 4 * cs.len(),
    decreases cs.len(),
{
    lemma_children_size(cs);
    if cs.len() == 0 {
        assert(dec_children(d, off, 0) =~= cs);
    } else {
        let rest = cs.drop_first();
        let e = enc_children(cs);
        lemma_children_size(rest);
        lemma_le_u32_roundtrip(cs[0]);
        lemma_sub_of_region(d, off, e, 0, 4);
        assert(e.subrange(0, 4) =~= le_u32(cs[0]));
        lemma_sub_of_region(d, off, e, 4, e.len() as int);
        assert(e.subrange(4, e.len() as int) =~= enc_children(rest));
        lemma_dec_children(d, off + 4, rest);
        assert(dec_children(d, off, cs.len()) =~= seq![cs[0]] + rest);
        assert(seq![cs[0]] + rest =~= cs);
    }
}

/// Whether a node survives the trip through a page: it fits, its stored page ids are not the
/// absent marker, and an internal node has one more child than keys.
pub open spec fn storable(v: NodeView) -> bool {
    &&& node_size(v) <= PAGE_SIZE
    &&& match v {
        NodeView::Leaf(l) => l.parent != Some(NO_PAGE) && l.next != Some(NO_PAGE),
        NodeView::Internal(i) => i.parent != Some(NO_PAGE) && i.children.len() == i.keys.len()
            + 1,
    }
}

/// Decoding the page that a node was encoded into gives the node back.
pub proof fn lemma_node_page_roundtrip(v: NodeView)
    requires
        storable(v),
    ensures
        decode_node(encode_node(v) + zeros((PAGE_SIZE - node_size(v)) as nat)) == v,
{
    lemma_node_size(v);
    let e = encode_node(v);
    let d = e + zeros((PAGE_SIZE - node_size(v)) as nat);
    assert(d.len() == PAGE_SIZE);
    assert(d.subrange(0, e.len() as int) =~= e);
    match v {
        NodeView::Leaf(l) => {
            lemma_records_size(l.records);
            let n = l.records.len();
            assert(n < 65536) by {
                lemma_records_count(l.records);
            }
            lemma_le_u16_roundtrip(n as u16);
            lemma_le_u32_roundtrip(opt_id(l.parent));
            lemma_le_u32_roundtrip(opt_id(l.next));
            lemma_sub_of_region(d, 0, e, 1, 3);
            assert(e.subrange(1, 3) =~= le_u16(n as u16));
            lemma_sub_of_region(d, 0, e, 3, 7);
            assert(e.subrange(3, 7) =~= le_u32(opt_id(l.parent)));
            lemma_sub_of_region(d, 0, e, 7, 11);
            assert(e.subrange(7, 11) =~= le_u32(opt_id(l.next)));
            lemma_sub_of_region(d, 0, e, 11, e.len() as int);
            assert(e.subrange(11, e.len() as int) =~= enc_records(l.records));
            lemma_dec_records(d, 11, l.records);
            assert(d[0] == NODE_TYPE_LEAF);
            assert(decode_node(d) =~= v);
        },
        NodeView::Internal(i) => {
            lemma_keys_size(i.keys);
            lemma_children_size(i.children);
            let n = i.keys.len();
            lemma_le_u16_roundtrip(n as u16);
            lemma_le_u32_roundtrip(opt_id(i.parent));
            lemma_sub_of_region(d, 0, e, 1, 3);
            assert(e.subrange(1, 3) =~= le_u16(n as u16));
            lemma_sub_of_region(d, 0, e, 3, 7);
            assert(e.subrange(3, 7) =~= le_u32(opt_id(i.parent)));
            let ce: int = 7 + 4 * (i.children.len() as int);
            lemma_sub_of_region(d, 0, e, 7, ce);
            assert(e.subrange(7, ce) =~= enc_children(i.children));
            lemma_dec_children(d, 7, i.children);
            lemma_sub_of_region(d, 0, e, ce, e.len() as int);
            assert(e.subrange(ce, e.len() as int) =~= enc_keys(i.keys));
            lemma_dec_keys(d, ce, i.keys);
            assert(d[0] == NODE_TYPE_INTERNAL);
            assert(decode_node(d) =~= v);
        },
    }
}

proof fn lemma_records_count(rs: Seq<RecordView>)
    ensures
        records_size(rs) >= 8 * rs.len(),
    decreases rs.len(),
{
    if rs.len() > 0 {
        lemma_records_count(rs.drop_first());
    }
}

impl Node {
    /// Deserializes a node from a page, as `decode_node` describes.
    pub fn from_page(page: &Page) -> (n: Node)
        requires
            page.wf(),
        ensures
            n.view() == decode_node(page.data@),
    {
        let d = page.data.as_slice();
        let node_type = d[0];
        let num = read_u16_le(d, 1) as usize;
        let parent_page_id = optional_id(read_u32_le(d, 3));
        if node_type == NODE_TYPE_LEAF {
            let next_leaf = optional_id(read_u32_le(d, 7));
            let records = decode_records(d, LEAF_HEADER_SIZE, num);
            Node::Leaf(LeafNode { parent_page_id, next_leaf, records })
        } else {
            let (children, end) = decode_children(d, INTERNAL_HEADER_SIZE, num + 1);
            let keys = decode_keys(d, end, num);
            Node::Internal(InternalNode { parent_page_id, keys, children })
        }
    }

    /// Serializes the node into one page: its encoding followed by zero bytes. A node whose
    /// encoding does not fit in a page is refused.
    pub fn to_page(&self) -> (r: Result<Page, StorageError>)
        requires
            node_size(self.view()) <= usize::MAX,
        ensures
            node_size(self.view()) > PAGE_SIZE ==> r == Err::<Page, StorageError>(
                StorageError::NodeTooLarge { size: node_size(self.view()) as usize },
            ),
            node_size(self.view()) <= PAGE_SIZE ==> (r matches Ok(p) && p.data@ == encode_node(
                self.view(),
            ) + zeros((PAGE_SIZE - node_size(self.view())) as nat)),
    {
        let size = self.encoded_size();
        if size > PAGE_SIZE {
            return Err(StorageError::NodeTooLarge { size });
        }
        proof {
            lemma_node_size(self.view());
        }
        let mut buf: Vec<u8> = Vec::new();
        match self {
            Node::Leaf(leaf) => {
                buf.push(NODE_TYPE_LEAF);
                push_u16_le(&mut buf, leaf.records.len() as u16);
                push_u32_le(&mut buf, stored_id(leaf.parent_page_id));
                push_u32_le(&mut buf, stored_id(leaf.next_leaf));
                push_records(&mut buf, &leaf.records);
            },
            Node::Internal(internal) => {
                buf.push(NODE_TYPE_INTERNAL);
                push_u16_le(&mut buf, internal.keys.len() as u16);
                push_u32_le(&mut buf, stored_id(internal.parent_page_id));
                push_children(&mut buf, &internal.children);
                push_keys(&mut buf, &internal.keys);
            },
        }
        assert(buf@ =~= encode_node(self.view()));
        let used = buf.len();
        push_zeros(&mut buf, PAGE_SIZE - used);
        Ok(Page { data: buf })
    }

    /// The total encoded size of the node, used to decide on splits.
    pub fn encoded_size(&self) -> (size: usize)
        requires
            node_size(self.view()) <= usize::MAX,
        ensures
            size == node_size(self.view()),
    {
        proof {
            lemma_node_size(self.view());
        }
        match self {
            Node::Leaf(leaf) => {
                let ghost rs = records_view(leaf.records@);
                let mut size: usize = LEAF_HEADER_SIZE;
                let mut i: usize = 0;
                assert(rs.skip(0) =~= rs);
                while i < leaf.records.len()
                    invariant
                        rs == records_view(leaf.records@),
                        i <= rs.len(),
                        size + records_size(rs.skip(i as int)) == LEAF_HEADER_SIZE + records_size(rs),
                        LEAF_HEADER_SIZE + records_size(rs) <= usize::MAX,
                    decreases rs.len() - i,
                {
                    assert(rs.skip(i as int).drop_first() =~= rs.skip(i + 1));
                    proof {
                        lemma_records_size(rs.skip(i + 1));
                    }
                    let k = &leaf.records[i].0;
                    let v = &leaf.records[i].1;
                    size = size + 4 + k.len() + 4 + v.len();
                    i += 1;
                }
                assert(rs.skip(i as int).len() == 0);
                size
            },
            Node::Internal(internal) => {
                let ghost ks = keys_view(internal.keys@);
                proof {
                    lemma_keys_size(ks);
                }
                let mut size: usize = INTERNAL_HEADER_SIZE;
                size = size + internal.children.len() * 4;
                let mut i: usize = 0;
                assert(ks.skip(0) =~= ks);
                while i < internal.keys.len()
                    invariant
                        ks == keys_view(internal.keys@),
                        i <= ks.len(),
                        size + keys_size(ks.skip(i as int)) == INTERNAL_HEADER_SIZE + 4
                            * internal.children@.len() + keys_size(ks),
                        INTERNAL_HEADER_SIZE + 4 * internal.children@.len() + keys_size(ks)
                            <= usize::MAX,
                    decreases ks.len() - i,
                {
                    assert(ks.skip(i as int).drop_first() =~= ks.skip(i + 1));
                    proof {
                        lemma_keys_size(ks.skip(i + 1));
                    }
                    size = size + 4 + internal.keys[i].len();
                    i += 1;
                }
                assert(ks.skip(i as int).len() == 0);
                size
            },
        }
    }
}

} // verus!
