//! The B+ tree over the buffer pool: descent, lookup, prefix scans, overflow chains,
//! insertion with splits and deletion.
//!
//! A value longer than `MAX_INLINE_VAL_SIZE` is stored in a chain of overflow pages and the
//! leaf keeps a 12-byte handle: [b"OVRF"][total length: 4B][first page id: 4B]. An overflow
//! page holds the id of the next page of the chain in its first four bytes (u32::MAX ends
//! the chain) and up to `OVERFLOW_CHUNK` bytes of the value after them.
//!
//! Every walk over pages (descent, chains of overflow pages, the leaf chain) takes at most
//! as many steps as the store has pages, and reports a corrupt page when it would take more.
use crate::codec::{
    copy_bytes, le_u32, le_u32_value, lemma_le_u32_roundtrip, push_bytes, push_u32_le,
    read_u32_le, starts_with_bytes, zeros,
};
use crate::storage::btree::{
    decode_node, keys_size, node_size, records_size, records_view, keys_view, dec_records,
    dec_children, dec_keys, children_end, InternalNode, LeafNode, LeafView, Node, NodeView,
    RecordView, MAX_INLINE_VAL_SIZE, MAX_KEY_SIZE,
};
use crate::storage::buffer_pool::BufferPool;
use crate::storage::ordered::{
    bytes_less, bytes_lt, copy_record, has_key, keys_sorted, lemma_search_found, lower_bound,
    records_map, search_records,
};
use crate::storage::pager::{u32_at, Page, PageId, META_ROOT_OFFSET, NO_PAGE, PAGE_SIZE};
use crate::storage::StorageError;
use vstd::prelude::*;

verus! {

/// Marker at the start of an overflow handle: "OVRF".
pub const OVERFLOW_MAGIC: [u8; 4] = [79u8, 86u8, 82u8, 70u8];

/// Value bytes held by one overflow page.
pub const OVERFLOW_CHUNK: usize = 4092;

pub open spec fn overflow_magic() -> Seq<u8> {
    seq![79u8, 86u8, 82u8, 70u8]
}

/// The pages as the pool shows them.
pub open spec fn pages_of(pool: BufferPool) -> spec_fn(u32) -> Seq<u8> {
    |j: u32| pool.page(j)
}

/// Every page that was not a stale clean copy in `before` reads the same in `after` and is
/// still not stale; a pool without stale copies stays so.
pub open spec fn pages_kept(before: BufferPool, after: BufferPool) -> bool {
    &&& before.coherent() ==> after.coherent()
    &&& forall|j: u32|
        #![trigger before.fresh(j)]
        #![trigger after.fresh(j)]
        before.fresh(j) ==> after.fresh(j) && after.page(j) == before.page(j)
}

/// Every page but `p` that was not a stale clean copy in `before` reads the same in `after`
/// and is still not stale; a pool without stale copies stays so.
pub open spec fn pages_kept_but(before: BufferPool, after: BufferPool, p: u32) -> bool {
    &&& before.coherent() ==> after.coherent()
    &&& forall|j: u32|
        #![trigger before.fresh(j)]
        #![trigger after.fresh(j)]
        j != p && before.fresh(j) ==> after.fresh(j) && after.page(j) == before.page(j)
}

pub proof fn lemma_pages_kept_trans(a: BufferPool, b: BufferPool, c: BufferPool)
    requires
        pages_kept(a, b),
        pages_kept(b, c),
    ensures
        pages_kept(a, c),
{
    assert forall|j: u32| #![trigger a.fresh(j)] #![trigger c.fresh(j)] a.fresh(j) implies c.fresh(j) && c.page(j) == a.page(j) by {
        assert(b.fresh(j));
    }
}

/// Without stale copies, kept pages means the same pages.
pub proof fn lemma_pages_kept_view(a: BufferPool, b: BufferPool)
    requires
        pages_kept(a, b),
        a.coherent(),
    ensures
        pages_of(b) == pages_of(a),
        b.coherent(),
{
    assert forall|j: u32| #[trigger] a.fresh(j) by {}
    assert(pages_of(b) =~= pages_of(a)) by {
        assert forall|j: u32| #[trigger] b.page(j) == a.page(j) by {
            assert(a.fresh(j));
        }
    }
}

/// The child to follow for `key`: the first separator greater than `key`, else the last.
pub open spec fn child_index(keys: Seq<Seq<u8>>, key: Seq<u8>) -> int
    decreases keys.len(),
{
    if keys.len() == 0 {
        0
    } else if bytes_lt(key, keys[0]) {
        0
    } else {
        1 + child_index(keys.drop_first(), key)
    }
}

/// The leaf that a search for `key` reaches from page `id` in at most `fuel` steps down;
/// `None` when a child index is out of range or the steps run out.
pub open spec fn descend(view: spec_fn(u32) -> Seq<u8>, id: u32, key: Seq<u8>, fuel: nat) -> Option<u32>
    decreases fuel,
{
    match decode_node(view(id)) {
        NodeView::Leaf(_) => Some(id),
        NodeView::Internal(n) => {
            if fuel == 0 {
                None
            } else {
                let c = child_index(n.keys, key);
                if c < n.children.len() {
                    descend(view, n.children[c], key, (fuel - 1) as nat)
                } else {
                    None
                }
            }
        },
    }
}

/// The records of the leaf at `id`.
pub open spec fn leaf_records(view: spec_fn(u32) -> Seq<u8>, id: u32) -> Seq<RecordView> {
    match decode_node(view(id)) {
        NodeView::Leaf(l) => l.records,
        NodeView::Internal(_) => Seq::empty(),
    }
}

/// Whether a stored value is an overflow handle.
pub open spec fn is_overflow_handle(v: Seq<u8>) -> bool {
    v.len() == 12 && v.subrange(0, 4) == overflow_magic()
}

/// The bytes a chain of overflow pages holds from page `id` on, `remaining` value bytes still
/// to take; `None` when the chain is longer than `fuel` pages.
pub open spec fn chain_bytes(view: spec_fn(u32) -> Seq<u8>, id: u32, remaining: nat, fuel: nat) -> Option<Seq<u8>>
    decreases fuel,
{
    if id == NO_PAGE {
        Some(Seq::empty())
    } else if fuel == 0 {
        None
    } else {
        let d = view(id);
        let take: nat = if remaining < OVERFLOW_CHUNK {
            remaining
        } else {
            OVERFLOW_CHUNK as nat
        };
        match chain_bytes(view, u32_at(d, 0), (remaining - take) as nat, (fuel - 1) as nat) {
            Some(rest) => Some(d.subrange(4, 4 + take as int) + rest),
            None => None,
        }
    }
}

/// A stored value with its overflow chain, if any, read back.
pub open spec fn resolve_value(view: spec_fn(u32) -> Seq<u8>, v: Seq<u8>, fuel: nat) -> Option<Seq<u8>> {
    if is_overflow_handle(v) {
        chain_bytes(view, u32_at(v, 8), u32_at(v, 4) as nat, fuel)
    } else {
        Some(v)
    }
}

/// What a search for `key` from `root` finds: `None` for a corrupt tree, else the value (if
/// any) of `key` in the leaf reached, read back through its overflow chain.
pub open spec fn search_result(view: spec_fn(u32) -> Seq<u8>, root: u32, key: Seq<u8>, fuel: nat) -> Option<Option<Seq<u8>>> {
    match descend(view, root, key, fuel) {
        None => None,
        Some(l) => {
            let m = records_map(leaf_records(view, l));
            if m.dom().contains(key) {
                match resolve_value(view, m[key], fuel) {
                    Some(v) => Some(Some(v)),
                    None => None,
                }
            } else {
                Some(None)
            }
        },
    }
}

proof fn lemma_dec_records_size(d: Seq<u8>, off: int, n: nat)
    requires
        0 <= off <= PAGE_SIZE,
        d.len() == PAGE_SIZE,
    ensures
        records_size(dec_records(d, off, n)) <= PAGE_SIZE - off,
    decreases n,
{
    if n == 0 || off + 4 > PAGE_SIZE {
    } else {
        let klen = u32_at(d, off) as int;
        let o1 = off + 4;
        if o1 + klen > PAGE_SIZE {
        } else {
            let o2 = o1 + klen;
            if o2 + 4 > PAGE_SIZE {
            } else {
                let vlen = u32_at(d, o2) as int;
                let o3 = o2 + 4;
                if o3 + vlen > PAGE_SIZE {
                } else {
                    let r = (d.subrange(o1, o2), d.subrange(o3, o3 + vlen));
                    let rest = dec_records(d, o3 + vlen, (n - 1) as nat);
                    lemma_dec_records_size(d, o3 + vlen, (n - 1) as nat);
                    assert((seq![r] + rest).drop_first() =~= rest);
                }
            }
        }
    }
}

proof fn lemma_dec_children_size(d: Seq<u8>, off: int, n: nat)
    requires
        0 <= off <= PAGE_SIZE,
    ensures
        off <= children_end(d, off, n) <= PAGE_SIZE,
        4 * dec_children(d, off, n).len() == children_end(d, off, n) - off,
    decreases n,
{
    if n == 0 || off + 4 > PAGE_SIZE {
    } else {
        lemma_dec_children_size(d, off + 4, (n - 1) as nat);
    }
}

proof fn lemma_dec_keys_size(d: Seq<u8>, off: int, n: nat)
    requires
        0 <= off <= PAGE_SIZE,
        d.len() == PAGE_SIZE,
    ensures
        keys_size(dec_keys(d, off, n)) <= PAGE_SIZE - off,
    decreases n,
{
    if n == 0 || off + 4 > PAGE_SIZE {
    } else {
        let klen = u32_at(d, off) as int;
        let o1 = off + 4;
        if o1 + klen > PAGE_SIZE {
        } else {
            let rest = dec_keys(d, o1 + klen, (n - 1) as nat);
            lemma_dec_keys_size(d, o1 + klen, (n - 1) as nat);
            assert((seq![d.subrange(o1, o1 + klen)] + rest).drop_first() =~= rest);
        }
    }
}

/// A node read from a page takes no more than a page to encode.
pub proof fn lemma_decoded_size(d: Seq<u8>)
    requires
        d.len() == PAGE_SIZE,
    ensures
        node_size(decode_node(d)) <= PAGE_SIZE,
{
    let num = crate::codec::le_u16_value(d.subrange(1, 3)) as nat;
    if d[0] == crate::storage::btree::NODE_TYPE_LEAF {
        lemma_dec_records_size(d, 11, num);
    } else {
        lemma_dec_children_size(d, 7, num + 1);
        lemma_dec_keys_size(d, children_end(d, 7, num + 1), num);
    }
}

/// The child index for `key` among the separators, as `child_index` defines it.
fn child_index_of(keys: &Vec<Vec<u8>>, key: &[u8]) -> (r: usize)
    ensures
        r == child_index(keys_view(keys@), key@),
{
    let ghost ks = keys_view(keys@);
    let mut i: usize = 0;
    assert(ks.skip(0) =~= ks);
    while i < keys.len()
        invariant
            ks == keys_view(keys@),
            i <= ks.len(),
            child_index(ks, key@) == i + child_index(ks.skip(i as int), key@),
        decreases ks.len() - i,
    {
        assert(ks.skip(i as int).drop_first() =~= ks.skip(i + 1));
        if bytes_less(key, keys[i].as_slice()) {
            return i;
        }
        i = i + 1;
    }
    i
}

/// The B+ tree manager.
pub struct BTree {
    buffer_pool: BufferPool,
    root_page_id: PageId,
}

impl BTree {
    /// The buffer pool the tree lives in.
    pub closed spec fn pool(&self) -> BufferPool {
        self.buffer_pool
    }

    /// The root page id.
    pub closed spec fn root(&self) -> u32 {
        self.root_page_id
    }

    pub closed spec fn wf(&self) -> bool {
        &&& self.buffer_pool.wf()
        &&& self.root_page_id < u32::MAX
    }

    pub proof fn lemma_wf(&self)
        ensures
            self.wf() <==> (self.pool().wf() && self.root() < u32::MAX),
    {
    }

    /// The value a search for `key` gives on the tree as it stands, `None` if corrupt.
    pub open spec fn lookup(&self, key: Seq<u8>) -> Option<Option<Seq<u8>>> {
        search_result(pages_of(self.pool()), self.root(), key, self.pool().store().len())
    }

    /// The underlying buffer pool.
    pub fn buffer_pool(&self) -> (p: &BufferPool)
        ensures
            *p == self.pool(),
    {
        &self.buffer_pool
    }

    /// The underlying buffer pool, for changes the tree does not make itself.
    pub fn buffer_pool_mut(&mut self) -> (p: &mut BufferPool)
        ensures
            *p == old(self).pool(),
            final(self).pool() == *final(p),
            final(self).root() == old(self).root(),
    {
        &mut self.buffer_pool
    }

    /// The root page id.
    pub fn root_page_id(&self) -> (r: PageId)
        ensures
            r == self.root(),
    {
        self.root_page_id
    }

    /// Reads the node stored at a page.
    pub fn read_node(&mut self, page_id: PageId) -> (n: Node)
        requires
            old(self).wf(),
        ensures
            final(self).wf(),
            final(self).root() == old(self).root(),
            n.view() == decode_node(old(self).pool().page(page_id)),
            final(self).pool().page(page_id) == old(self).pool().page(page_id),
            node_size(n.view()) <= PAGE_SIZE,
            pages_kept(old(self).pool(), final(self).pool()),
            final(self).pool().store().len() >= old(self).pool().store().len(),
    {
        let page = self.buffer_pool.fetch_page(page_id);
        proof {
            lemma_decoded_size(page.data@);
            if old(self).pool().coherent() {
                assert(pages_of(self.buffer_pool) =~= pages_of(old(self).pool()));
            }
            assert forall|j: u32|
                #![trigger old(self).pool().fresh(j)]
                #![trigger self.pool().fresh(j)]
                old(self).pool().fresh(j) implies self.pool().fresh(j)
                && self.pool().page(j) == old(self).pool().page(j) by {
                assert(old(self).buffer_pool.fresh(j));
            }
            assert(old(self).pool().coherent() ==> self.pool().coherent());
        }
        let n = Node::from_page(&page);
        n
    }
}


impl BTree {
    /// Walks down from `current_id` (whose node is `current_node`) to the leaf where `key`
    /// belongs, taking at most as many steps as the store has pages.
    fn find_leaf_for_insert(&mut self, current_id: PageId, current_node: Node, key: &[u8], fuel0: u32) -> (r: Result<(PageId, LeafNode), StorageError>)
        requires
            old(self).wf(),
            current_node.view() == decode_node(old(self).pool().page(current_id)),
        ensures
            final(self).wf(),
            final(self).root() == old(self).root(),
            pages_kept(old(self).pool(), final(self).pool()),
            final(self).pool().store().len() >= old(self).pool().store().len(),
            old(self).pool().coherent() ==> match descend(pages_of(old(self).pool()), current_id, key@, fuel0 as nat) {
                Some(l) => r matches Ok((id, leaf)) && id == l && NodeView::Leaf(leaf.view()) == decode_node(old(self).pool().page(l)),
                None => r is Err,
            },
            r matches Ok((id, leaf)) ==> node_size(NodeView::Leaf(leaf.view())) <= PAGE_SIZE,
    {
        let ghost pool0 = self.buffer_pool;
        let ghost view0 = pages_of(pool0);
        let mut fuel = fuel0;
        let mut id = current_id;
        let mut node = current_node;
        proof {
            pool0.lemma_wf();
            lemma_decoded_size(pool0.page(current_id));
        }
        loop
            invariant
                self.wf(),
                self.root() == old(self).root(),
                pool0 == old(self).pool(),
                view0 == pages_of(pool0),
                fuel <= fuel0,
                pages_kept(pool0, self.pool()),
                self.pool().store().len() >= pool0.store().len(),
                node_size(node.view()) <= PAGE_SIZE,
                pool0.coherent() ==> node.view() == decode_node(view0(id)),
                pool0.coherent() ==> descend(view0, current_id, key@, fuel0 as nat) == descend(view0, id, key@, fuel as nat),
            decreases fuel,
        {
            match node {
                Node::Leaf(leaf) => {
                    return Ok((id, leaf));
                },
                Node::Internal(internal) => {
                    if fuel == 0 {
                        return Err(StorageError::CorruptPage { page_id: id });
                    }
                    let c = child_index_of(&internal.keys, key);
                    if c >= internal.children.len() {
                        return Err(StorageError::CorruptPage { page_id: id });
                    }
                    let child = internal.children[c];
                    let ghost before = self.buffer_pool;
                    let next = self.read_node(child);
                    proof {
                        lemma_pages_kept_trans(pool0, before, self.buffer_pool);
                        if pool0.coherent() {
                            lemma_pages_kept_view(pool0, before);
                        }
                    }
                    node = next;
                    id = child;
                    fuel = fuel - 1;
                },
            }
        }
    }

    /// Looks `key` up: its value, read back through its overflow chain, or `None`.
    pub fn search(&mut self, key: &[u8]) -> (r: Result<Option<Vec<u8>>, StorageError>)
        requires
            old(self).wf(),
        ensures
            final(self).wf(),
            final(self).root() == old(self).root(),
            pages_kept(old(self).pool(), final(self).pool()),
            final(self).pool().store().len() >= old(self).pool().store().len(),
            old(self).sorted_leaf_for(key@) ==> match old(self).lookup(key@) {
                Some(Some(v)) => r matches Ok(Some(rv)) && rv@ == v,
                Some(None) => r matches Ok(None),
                None => r is Err,
            },
    {
        proof {
            old(self).pool().lemma_wf();
        }
        let ghost pool0 = self.buffer_pool;
        let fuel = self.buffer_pool.get_num_pages();
        let root_id = self.root_page_id;
        let root = self.read_node(root_id);
        let ghost pool1 = self.buffer_pool;
        proof {
            if pool0.coherent() {
                lemma_pages_kept_view(pool0, pool1);
            }
        }
        let found_leaf = self.find_leaf_for_insert(root_id, root, key, fuel);
        let ghost pool2 = self.buffer_pool;
        proof {
            lemma_pages_kept_trans(pool0, pool1, pool2);
        }
        match found_leaf {
            Err(e) => Err(e),
            Ok((leaf_id, leaf)) => {
                let (pos, found) = search_records(&leaf.records, key);
                proof {
                    if pool0.coherent() && self.sorted_leaf_for_spec(pool0, key@) {
                        lemma_pages_kept_view(pool0, pool2);
                        let rs = records_view(leaf.records@);
                        assert(rs == leaf_records(pages_of(pool0), leaf_id));
                        lemma_search_found(rs, key@, pos as int);
                        crate::storage::ordered::lemma_records_map_dom(rs, key@);
                        if found {
                            crate::storage::ordered::lemma_records_map_at(rs, pos as int);
                        }
                    }
                }
                if found {
                    let ghost pool3 = self.buffer_pool;
                    let resolved = self.read_value_resolve_overflow(leaf.records[pos].1.as_slice(), fuel);
                    proof {
                        lemma_pages_kept_trans(pool0, pool3, self.buffer_pool);
                    }
                    match resolved {
                        Ok(v) => Ok(Some(v)),
                        Err(e) => Err(e),
                    }
                } else {
                    Ok(None)
                }
            },
        }
    }

    /// Whether the leaf a search for `key` reaches has its records sorted by key.
    pub open spec fn sorted_leaf_for(&self, key: Seq<u8>) -> bool {
        self.sorted_leaf_for_spec(self.pool(), key)
    }

    pub open spec fn sorted_leaf_for_spec(&self, pool: BufferPool, key: Seq<u8>) -> bool {
        match descend(pages_of(pool), self.root(), key, pool.store().len()) {
            Some(l) => keys_sorted(leaf_records(pages_of(pool), l)),
            None => true,
        }
    }

    /// Reads a stored value back: an overflow handle is replaced by the bytes of its chain.
    fn read_value_resolve_overflow(&mut self, val_bytes: &[u8], fuel0: u32) -> (r: Result<Vec<u8>, StorageError>)
        requires
            old(self).wf(),
        ensures
            final(self).wf(),
            final(self).root() == old(self).root(),
            pages_kept(old(self).pool(), final(self).pool()),
            final(self).pool().store().len() >= old(self).pool().store().len(),
            old(self).pool().coherent() ==> match resolve_value(pages_of(old(self).pool()), val_bytes@, fuel0 as nat) {
                Some(v) => r matches Ok(rv) && rv@ == v,
                None => r is Err,
            },
    {
        let ghost pool0 = self.buffer_pool;
        let ghost view0 = pages_of(pool0);
        if !(val_bytes.len() == 12 && val_bytes[0] == 79u8 && val_bytes[1] == 86u8 && val_bytes[2] == 82u8 && val_bytes[3] == 70u8) {
            proof {
                if val_bytes@.len() == 12 && val_bytes@.subrange(0, 4) == overflow_magic() {
                    assert(val_bytes@.subrange(0, 4)[0] == val_bytes@[0]);
                    assert(val_bytes@.subrange(0, 4)[1] == val_bytes@[1]);
                    assert(val_bytes@.subrange(0, 4)[2] == val_bytes@[2]);
                    assert(val_bytes@.subrange(0, 4)[3] == val_bytes@[3]);
                }
            }
            return Ok(copy_bytes(val_bytes));
        }
        proof {
            assert(val_bytes@.subrange(0, 4) =~= overflow_magic());
        }
        let total_len = read_u32_le(val_bytes, 4);
        let mut curr_page_id = read_u32_le(val_bytes, 8);
        let mut fuel = fuel0;
        let mut result: Vec<u8> = Vec::new();
        proof {
            pool0.lemma_wf();
        }
        while curr_page_id != NO_PAGE
            invariant
                self.wf(),
                self.root() == old(self).root(),
                pool0 == old(self).pool(),
                view0 == pages_of(pool0),
                fuel <= fuel0,
                result@.len() <= total_len,
                is_overflow_handle(val_bytes@),
                total_len == u32_at(val_bytes@, 4),
                pages_kept(pool0, self.pool()),
                self.pool().store().len() >= pool0.store().len(),
                pool0.coherent() ==> chain_bytes(view0, u32_at(val_bytes@, 8), total_len as nat, fuel0 as nat) == match chain_bytes(view0, curr_page_id, (total_len - result@.len()) as nat, fuel as nat) {
                    Some(rest) => Some(result@ + rest),
                    None => None,
                },
            decreases fuel,
        {
            if fuel == 0 {
                proof {
                    if pool0.coherent() {
                        assert(chain_bytes(view0, curr_page_id, (total_len - result@.len()) as nat, fuel as nat) is None);
                        assert(resolve_value(view0, val_bytes@, fuel0 as nat) == chain_bytes(view0, u32_at(val_bytes@, 8), total_len as nat, fuel0 as nat));
                    }
                }
                return Err(StorageError::CorruptPage { page_id: curr_page_id });
            }
            let ghost before = self.buffer_pool;
            let page = self.buffer_pool.fetch_page(curr_page_id);
            proof {
                lemma_pages_kept_trans(pool0, before, self.buffer_pool);
                if pool0.coherent() {
                    lemma_pages_kept_view(pool0, before);
                }
            }
            let next_page_id = read_u32_le(page.data.as_slice(), 0);
            let remaining = total_len as usize - result.len();
            let take_len = if remaining < OVERFLOW_CHUNK {
                remaining
            } else {
                OVERFLOW_CHUNK
            };
            let ghost prev = result@;
            let chunk = crate::codec::copy_range(page.data.as_slice(), 4, 4 + take_len);
            push_bytes(&mut result, chunk.as_slice());
            proof {
                if pool0.coherent() {
                    let d = view0(curr_page_id);
                    assert(page.data@ == d);
                    assert(u32_at(d, 0) == next_page_id);
                    match chain_bytes(view0, next_page_id, (total_len - result@.len()) as nat, (fuel - 1) as nat) {
                        Some(rest) => {
                            assert(prev + (d.subrange(4, 4 + take_len as int) + rest) =~= result@ + rest);
                        },
                        None => {},
                    }
                }
            }
            curr_page_id = next_page_id;
            fuel = fuel - 1;
        }
        Ok(result)
    }
}


/// The encoded size of a concatenation of records is the sum of the parts.
pub proof fn lemma_records_size_concat(a: Seq<RecordView>, b: Seq<RecordView>)
    ensures
        records_size(a + b) == records_size(a) + records_size(b),
    decreases a.len(),
{
    if a.len() > 0 {
        lemma_records_size_concat(a.drop_first(), b);
        assert((a + b).drop_first() =~= a.drop_first() + b);
    } else {
        assert(a + b =~= b);
    }
}

/// The encoded size of a concatenation of keys is the sum of the parts.
pub proof fn lemma_keys_size_concat(a: Seq<Seq<u8>>, b: Seq<Seq<u8>>)
    ensures
        keys_size(a + b) == keys_size(a) + keys_size(b),
    decreases a.len(),
{
    if a.len() > 0 {
        lemma_keys_size_concat(a.drop_first(), b);
        assert((a + b).drop_first() =~= a.drop_first() + b);
    } else {
        assert(a + b =~= b);
    }
}

proof fn lemma_records_size_single(r: RecordView)
    ensures
        records_size(seq![r]) == 8 + r.0.len() + r.1.len(),
{
    assert(seq![r].drop_first() =~= Seq::<RecordView>::empty());
    assert(records_size(seq![r].drop_first()) == 0);
}

proof fn lemma_keys_size_single(k: Seq<u8>)
    ensures
        keys_size(seq![k]) == 4 + k.len(),
{
    assert(seq![k].drop_first() =~= Seq::<Seq<u8>>::empty());
    assert(keys_size(seq![k].drop_first()) == 0);
}

/// Binary search for `key` among sorted separator keys: where it is or belongs.
fn keys_lower_bound(keys: &Vec<Vec<u8>>, key: &[u8]) -> (r: usize)
    ensures
        r <= keys@.len(),
        separators_sorted(keys_view(keys@)) ==> (forall|i: int| 0 <= i < r ==> #[trigger] bytes_lt(keys@[i]@, key@))
            && (forall|i: int| r <= i < keys@.len() ==> !#[trigger] bytes_lt(keys@[i]@, key@)),
{
    let ghost ks = keys_view(keys@);
    let mut lo: usize = 0;
    let mut hi: usize = keys.len();
    while lo < hi
        invariant
            ks == keys_view(keys@),
            lo <= hi <= keys@.len(),
            separators_sorted(ks) ==> forall|i: int| 0 <= i < lo ==> #[trigger] bytes_lt(keys@[i]@, key@),
            separators_sorted(ks) ==> forall|i: int| hi <= i < keys@.len() ==> !#[trigger] bytes_lt(keys@[i]@, key@),
        decreases hi - lo,
    {
        let mid = lo + (hi - lo) / 2;
        if bytes_less(keys[mid].as_slice(), key) {
            proof {
                if separators_sorted(ks) {
                    assert forall|i: int| 0 <= i < mid + 1 implies #[trigger] bytes_lt(keys@[i]@, key@) by {
                        if i < mid {
                            assert(ks[i] == keys@[i]@ && ks[mid as int] == keys@[mid as int]@);
                            crate::storage::ordered::lemma_bytes_lt_transitive(keys@[i]@, keys@[mid as int]@, key@);
                        }
                    }
                }
            }
            lo = mid + 1;
        } else {
            proof {
                if separators_sorted(ks) {
                    assert forall|i: int| mid <= i < keys@.len() implies !#[trigger] bytes_lt(keys@[i]@, key@) by {
                        if i > mid && bytes_lt(keys@[i]@, key@) {
                            assert(ks[i] == keys@[i]@ && ks[mid as int] == keys@[mid as int]@);
                            crate::storage::ordered::lemma_bytes_lt_transitive(keys@[mid as int]@, keys@[i]@, key@);
                        }
                    }
                }
            }
            hi = mid;
        }
    }
    lo
}

/// The two halves that splitting leaf `l` by record count gives, the left linking to the
/// right at page `right_id`.
pub open spec fn split_halves(l: LeafView, right_id: u32) -> (NodeView, NodeView) {
    let mid = (l.records.len() / 2) as int;
    (
        NodeView::Leaf(LeafView { parent: l.parent, next: Some(right_id), records: l.records.subrange(0, mid) }),
        NodeView::Leaf(LeafView { parent: l.parent, next: l.next, records: l.records.subrange(mid, l.records.len() as int) }),
    )
}

/// What splitting leaf `l` at `leaf_id`, which had no parent, under a new root `rid` leaves
/// in the pages: the metadata page records `rid`; and where the pages involved are distinct
/// and every node fits its page, `rid` holds separator `key` between the two halves, both
/// halves point up to it, and every other page but the metadata page is as before.
#[verifier::opaque]
pub open spec fn split_under_new_root(before: BufferPool, after: BufferPool, rid: u32, leaf_id: u32, l: LeafView, key: Seq<u8>) -> bool {
    let nid = crate::storage::pager::spec_allocated_id(before.store());
    let halves = split_halves(l, nid);
    let top = NodeView::Internal(crate::storage::btree::InternalView { parent: None, keys: seq![key], children: seq![leaf_id, nid] });
    &&& u32_at(after.page(0), META_ROOT_OFFSET as int) == rid
    &&& before.coherent() && nid != leaf_id && leaf_id != 0 && rid != leaf_id && rid != nid && l.next != Some(NO_PAGE)
        && node_size(halves.0) <= PAGE_SIZE && node_size(halves.1) <= PAGE_SIZE && node_size(top) <= PAGE_SIZE ==> {
        &&& after.page(rid) == node_image(top)
        &&& after.page(leaf_id) == node_image(parented(halves.0, rid))
        &&& after.page(nid) == node_image(parented(halves.1, rid))
        &&& forall|j: u32| j != 0 && j != rid && j != leaf_id && j != nid ==> #[trigger] after.page(j) == before.page(j)
    }
}

/// The pages that the two steps of a split under a new root leave, written halves first and
/// the new root after, are those that `split_under_new_root` describes.
proof fn lemma_split_under_new_root(pool0: BufferPool, pool3: BufferPool, pool5: BufferPool, rid: u32, leaf_id: u32, l: LeafView, key: Seq<u8>, left: Seq<RecordView>)
    requires
        l.parent is None,
        ({
            let nid = crate::storage::pager::spec_allocated_id(pool0.store());
            let halves = split_halves(l, nid);
            &&& nid != 0
            &&& left == l.records.subrange(0, (l.records.len() / 2) as int)
            &&& pool3.page(nid) == node_image(halves.1)
            &&& pool3.fresh(nid)
            &&& nid != leaf_id ==> pool3.page(leaf_id) == node_image(halves.0) && pool3.fresh(leaf_id)
            &&& forall|j: u32|
                #![trigger pool3.fresh(j)]
                j != 0 && j != leaf_id && j != nid && pool0.fresh(j) ==> pool3.fresh(j) && pool3.page(j) == pool0.page(j)
            &&& pool3.store().len() < u32::MAX
            &&& rid == crate::storage::pager::spec_allocated_id(pool3.store())
            &&& u32_at(pool5.page(0), META_ROOT_OFFSET as int) == rid
            &&& ({
                let top = NodeView::Internal(crate::storage::btree::InternalView { parent: None, keys: seq![key], children: seq![leaf_id, nid] });
                let lnode = NodeView::Leaf(LeafView { parent: Some(rid), next: Some(nid), records: left });
                let right0 = decode_node(pool3.page(nid));
                let right = if right0 is Leaf { parented(right0, rid) } else { right0 };
                node_size(top) <= PAGE_SIZE && node_size(lnode) <= PAGE_SIZE && leaf_id != 0 && nid != 0 && leaf_id != nid && rid != leaf_id && rid != nid
                    && pool3.fresh(leaf_id) && pool3.fresh(nid) ==> {
                    &&& pool5.page(rid) == node_image(top)
                    &&& pool5.page(leaf_id) == node_image(lnode)
                    &&& pool5.page(nid) == node_image(right)
                    &&& forall|j: u32|
                        #![trigger pool5.fresh(j)]
                        j != 0 && j != rid && j != leaf_id && j != nid && pool3.fresh(j) ==> pool5.fresh(j) && pool5.page(j) == pool3.page(j)
                }
            })
        }),
    ensures
        split_under_new_root(pool0, pool5, rid, leaf_id, l, key),
{
    reveal(split_under_new_root);
    let nid = crate::storage::pager::spec_allocated_id(pool0.store());
    let halves = split_halves(l, nid);
    let top = NodeView::Internal(crate::storage::btree::InternalView { parent: None, keys: seq![key], children: seq![leaf_id, nid] });
    if pool0.coherent() && nid != leaf_id && leaf_id != 0 && rid != leaf_id && rid != nid && l.next != Some(NO_PAGE)
        && node_size(halves.0) <= PAGE_SIZE && node_size(halves.1) <= PAGE_SIZE && node_size(top) <= PAGE_SIZE {
        assert(node_size(NodeView::Leaf(LeafView { parent: Some(rid), next: Some(nid), records: left })) == node_size(halves.0));
        crate::storage::btree::lemma_node_page_roundtrip(halves.1);
        assert(decode_node(pool3.page(nid)) == halves.1);
        assert forall|j: u32| j != 0 && j != rid && j != leaf_id && j != nid implies #[trigger] pool5.page(j) == pool0.page(j) by {
            assert(pool0.fresh(j));
            assert(pool3.fresh(j));
            assert(pool5.fresh(j));
        }
    }
}

/// The two halves that splitting internal node `n` around its middle key gives; that key
/// itself moves up to the parent.
pub open spec fn internal_halves(n: crate::storage::btree::InternalView) -> (NodeView, NodeView) {
    let mid = (n.keys.len() / 2) as int;
    (
        NodeView::Internal(crate::storage::btree::InternalView { parent: n.parent, keys: n.keys.subrange(0, mid), children: n.children.subrange(0, mid + 1) }),
        NodeView::Internal(crate::storage::btree::InternalView { parent: n.parent, keys: n.keys.subrange(mid + 1, n.keys.len() as int), children: n.children.subrange(mid + 1, n.children.len() as int) }),
    )
}

/// What splitting internal node `n` at `internal_id`, whose parent is `pid`, leaves in the
/// pages, where the pages involved are distinct and every node fits its page and the parent
/// takes the middle key: the call succeeds with the root unchanged, the two halves stand at
/// `internal_id` and at the newly allocated page, the children that moved point up to the
/// new page, the parent gains the middle key, and every other page but the metadata page is
/// as before.
#[verifier::opaque]
pub open spec fn split_under_parent(before: BufferPool, after: BufferPool, ok: bool, root_before: u32, root_after: u32, internal_id: u32, n: crate::storage::btree::InternalView, pid: u32, fuel: u32) -> bool {
    let nid = crate::storage::pager::spec_allocated_id(before.store());
    let h = internal_halves(n);
    let mid = (n.keys.len() / 2) as int;
    let push = n.keys[mid];
    let rc = n.children.subrange(mid + 1, n.children.len() as int);
    let parent_takes = match decode_node(before.page(pid)) {
        NodeView::Leaf(_) => true,
        NodeView::Internal(p) => separators_sorted(p.keys) && separator_pos(p.keys, push) < p.children.len() && node_size(grown_node(p, push, nid)) <= PAGE_SIZE,
    };
    before.coherent() && before.store().len() < u32::MAX && n.children.len() >= n.keys.len() / 2 + 1 && internal_id != 0 && pid != NO_PAGE && pid != 0
        && pid != internal_id && pid != nid && nid != internal_id && fuel > 1 && node_size(h.0) <= PAGE_SIZE && node_size(h.1) <= PAGE_SIZE
        && rc.no_duplicates() && !rc.contains(0) && !rc.contains(NO_PAGE) && !rc.contains(internal_id) && !rc.contains(nid) && !rc.contains(pid)
        && parent_takes ==> {
        &&& ok
        &&& root_after == root_before
        &&& after.page(internal_id) == node_image(h.0)
        &&& after.page(nid) == node_image(h.1)
        &&& forall|k: int| 0 <= k < rc.len() ==> #[trigger] after.page(rc[k]) == reparented_page(before.page(rc[k]), nid)
        &&& match decode_node(before.page(pid)) {
            NodeView::Internal(p) => after.page(pid) == node_image(grown_node(p, push, nid)),
            NodeView::Leaf(_) => after.page(pid) == before.page(pid),
        }
        &&& forall|j: u32| j != 0 && j != internal_id && j != nid && j != pid && !rc.contains(j) ==> #[trigger] after.page(j) == before.page(j)
    }
}

/// The pages that the three steps of splitting an internal node under its parent leave
/// (halves written, moved children pointed up, middle key inserted into the parent) are
/// those that `split_under_parent` describes.
#[verifier::spinoff_prover]
#[verifier::rlimit(100)]
proof fn lemma_split_under_parent(pool0: BufferPool, pool3: BufferPool, pool4: BufferPool, pool5: BufferPool, ok: bool, root0: u32, root5: u32,
    internal_id: u32, n: crate::storage::btree::InternalView, pid: u32, fuel: u32, nid: u32, rc: Seq<u32>, key: Seq<u8>)
    requires
        nid == crate::storage::pager::spec_allocated_id(pool0.store()),
        nid != 0,
        n.children.len() >= n.keys.len() / 2 + 1,
        key == n.keys[(n.keys.len() / 2) as int],
        rc == n.children.subrange((n.keys.len() / 2) as int + 1, n.children.len() as int),
        pool3.page(nid) == node_image(internal_halves(n).1),
        pool3.fresh(nid),
        nid != internal_id ==> pool3.page(internal_id) == node_image(internal_halves(n).0) && pool3.fresh(internal_id),
        forall|j: u32|
            #![trigger pool3.fresh(j)]
            j != 0 && j != internal_id && j != nid && pool0.fresh(j) ==> pool3.fresh(j) && pool3.page(j) == pool0.page(j),
        rc.no_duplicates() && !rc.contains(0) && (forall|k: int| 0 <= k < rc.len() ==> pool3.fresh(#[trigger] rc[k])) ==> {
            &&& forall|k: int| 0 <= k < rc.len() ==> #[trigger] pool4.page(rc[k]) == reparented_page(pool3.page(rc[k]), nid) && pool4.fresh(rc[k])
            &&& forall|j: u32|
                #![trigger pool4.fresh(j)]
                j != 0 && pool3.fresh(j) && !rc.contains(j) ==> pool4.fresh(j) && pool4.page(j) == pool3.page(j)
        },
        fuel - 1 > 0 ==> match decode_node(pool4.page(pid)) {
            NodeView::Leaf(_) => ok && root5 == root0 && pages_kept(pool4, pool5),
            NodeView::Internal(p) => separators_sorted(p.keys) ==> {
                &&& lower_bound_at(p.keys, key, separator_pos(p.keys, key))
                &&& (separator_pos(p.keys, key) < p.children.len() && node_size(grown_node(p, key, nid)) <= PAGE_SIZE ==> {
                    &&& ok
                    &&& root5 == root0
                    &&& pool5.page(pid) == node_image(grown_node(p, key, nid))
                    &&& pages_kept_but(pool4, pool5, pid)
                })
            },
        },
    ensures
        split_under_parent(pool0, pool5, ok, root0, root5, internal_id, n, pid, fuel),
{
    reveal(split_under_parent);
    let h = internal_halves(n);
    let parent_takes = match decode_node(pool0.page(pid)) {
        NodeView::Leaf(_) => true,
        NodeView::Internal(p) => separators_sorted(p.keys) && separator_pos(p.keys, key) < p.children.len() && node_size(grown_node(p, key, nid)) <= PAGE_SIZE,
    };
    if pool0.coherent() && pool0.store().len() < u32::MAX && internal_id != 0 && pid != NO_PAGE && pid != 0 && pid != internal_id && pid != nid
        && nid != internal_id && fuel > 1 && node_size(h.0) <= PAGE_SIZE && node_size(h.1) <= PAGE_SIZE && rc.no_duplicates() && !rc.contains(0)
        && !rc.contains(NO_PAGE) && !rc.contains(internal_id) && !rc.contains(nid) && !rc.contains(pid) && parent_takes {
        assert forall|k: int| 0 <= k < rc.len() implies pool3.fresh(#[trigger] rc[k]) by {
            assert(rc.contains(rc[k]));
            assert(pool0.fresh(rc[k]));
        }
        assert(pool0.fresh(pid));
        assert(pool3.fresh(pid));
        assert(pool4.fresh(pid));
        assert(pool4.page(pid) == pool0.page(pid));
        assert(pool4.fresh(internal_id));
        assert(pool4.fresh(nid));
        assert forall|k: int| 0 <= k < rc.len() implies #[trigger] pool5.page(rc[k]) == reparented_page(pool0.page(rc[k]), nid) by {
            assert(rc.contains(rc[k]));
            assert(pool0.fresh(rc[k]));
            assert(pool4.page(rc[k]) == reparented_page(pool3.page(rc[k]), nid));
            assert(pool4.fresh(rc[k]));
            assert(pool5.fresh(rc[k]));
        }
        assert forall|j: u32| j != 0 && j != internal_id && j != nid && j != pid && !rc.contains(j) implies #[trigger] pool5.page(j) == pool0.page(j) by {
            assert(pool0.fresh(j));
            assert(pool3.fresh(j));
            assert(pool4.fresh(j));
            assert(pool5.fresh(j));
        }
        assert(pool5.fresh(internal_id));
        assert(pool5.fresh(nid));
    }
}

/// A new root above `left_id` and `right_id`, separated by `key`.
pub open spec fn new_root_node(key: Seq<u8>, left_id: u32, right_id: u32) -> NodeView {
    NodeView::Internal(crate::storage::btree::InternalView { parent: None, keys: seq![key], children: seq![left_id, right_id] })
}

/// The left half `left` of a split internal node, pointed up to a new root `rid`.
pub open spec fn raised_left(left: crate::storage::btree::InternalView, rid: u32) -> NodeView {
    NodeView::Internal(crate::storage::btree::InternalView { parent: Some(rid), keys: left.keys, children: left.children })
}

/// The node in page bytes `d`, pointed up to a new root `rid` where it is an internal node.
pub open spec fn raised_right(d: Seq<u8>, rid: u32) -> NodeView {
    let n = decode_node(d);
    if n is Internal { parented(n, rid) } else { n }
}

/// Whether raising a new root above `left_id` and `right_id` in `pool` fits: the store has
/// room, both nodes fit their pages, and the pages involved are distinct and up to date.
pub open spec fn raise_fits(pool: BufferPool, left_id: u32, right_id: u32, key: Seq<u8>, left: crate::storage::btree::InternalView) -> bool {
    let rid = crate::storage::pager::spec_allocated_id(pool.store());
    &&& pool.store().len() < u32::MAX
    &&& node_size(new_root_node(key, left_id, right_id)) <= PAGE_SIZE
    &&& node_size(raised_left(left, rid)) <= PAGE_SIZE
    &&& left_id != 0 && right_id != 0 && left_id != right_id && rid != left_id && rid != right_id
    &&& pool.fresh(left_id) && pool.fresh(right_id)
}

/// The pages that raising a new root above `left_id` and `right_id` leaves: the new root at
/// the newly allocated page, both halves pointing up to it, and every other page but the
/// metadata page as before.
#[verifier::opaque]
pub open spec fn root_raised(before: BufferPool, after: BufferPool, left_id: u32, right_id: u32, key: Seq<u8>, left: crate::storage::btree::InternalView) -> bool {
    let rid = crate::storage::pager::spec_allocated_id(before.store());
    &&& after.page(rid) == node_image(new_root_node(key, left_id, right_id))
    &&& after.page(left_id) == node_image(raised_left(left, rid))
    &&& after.page(right_id) == node_image(raised_right(before.page(right_id), rid))
    &&& forall|j: u32|
        #![trigger after.fresh(j)]
        j != 0 && j != rid && j != left_id && j != right_id && before.fresh(j) ==> after.fresh(j) && after.page(j) == before.page(j)
}

/// What splitting internal node `n` at `internal_id`, which had no parent, under a new root
/// `rid` leaves in the pages: the metadata page records `rid`; and where the pages involved
/// are distinct and every node fits its page, `rid` holds the middle key between the two
/// halves, both halves point up to it, the children that moved point up to the new right
/// half, and every other page but the metadata page is as before.
#[verifier::opaque]
pub open spec fn split_internal_under_new_root(before: BufferPool, after: BufferPool, rid: u32, internal_id: u32, n: crate::storage::btree::InternalView) -> bool {
    let nid = crate::storage::pager::spec_allocated_id(before.store());
    let h = internal_halves(n);
    let mid = (n.keys.len() / 2) as int;
    let push = n.keys[mid];
    let rc = n.children.subrange(mid + 1, n.children.len() as int);
    &&& u32_at(after.page(0), META_ROOT_OFFSET as int) == rid
    &&& before.coherent() && n.children.len() == n.keys.len() + 1 && internal_id != 0 && nid != internal_id && rid != internal_id && rid != nid
        && node_size(h.0) <= PAGE_SIZE && node_size(h.1) <= PAGE_SIZE && node_size(new_root_node(push, internal_id, nid)) <= PAGE_SIZE
        && rc.no_duplicates() && !rc.contains(0) && !rc.contains(internal_id) && !rc.contains(nid) && !rc.contains(rid) ==> {
        &&& after.page(rid) == node_image(new_root_node(push, internal_id, nid))
        &&& after.page(internal_id) == node_image(parented(h.0, rid))
        &&& after.page(nid) == node_image(parented(h.1, rid))
        &&& forall|k: int| 0 <= k < rc.len() ==> #[trigger] after.page(rc[k]) == reparented_page(before.page(rc[k]), nid)
        &&& forall|j: u32| j != 0 && j != rid && j != internal_id && j != nid && !rc.contains(j) ==> #[trigger] after.page(j) == before.page(j)
    }
}

/// The pages that the three steps of splitting an internal node under a new root leave
/// (halves written, moved children pointed up, new root raised) are those that
/// `split_internal_under_new_root` describes.
#[verifier::spinoff_prover]
#[verifier::rlimit(100)]
proof fn lemma_split_internal_under_new_root(pool0: BufferPool, pool3: BufferPool, pool4: BufferPool, pool5: BufferPool, rid: u32,
    internal_id: u32, n: crate::storage::btree::InternalView, nid: u32, rc: Seq<u32>, key: Seq<u8>, left: crate::storage::btree::InternalView)
    requires
        n.parent is None,
        n.keys.len() > 0,
        nid == crate::storage::pager::spec_allocated_id(pool0.store()),
        nid != 0,
        n.children.len() >= n.keys.len() / 2 + 1,
        key == n.keys[(n.keys.len() / 2) as int],
        rc == n.children.subrange((n.keys.len() / 2) as int + 1, n.children.len() as int),
        NodeView::Internal(left) == internal_halves(n).0,
        pool3.page(nid) == node_image(internal_halves(n).1),
        pool3.fresh(nid),
        nid != internal_id ==> pool3.page(internal_id) == node_image(internal_halves(n).0) && pool3.fresh(internal_id),
        forall|j: u32|
            #![trigger pool3.fresh(j)]
            j != 0 && j != internal_id && j != nid && pool0.fresh(j) ==> pool3.fresh(j) && pool3.page(j) == pool0.page(j),
        rc.no_duplicates() && !rc.contains(0) && (forall|k: int| 0 <= k < rc.len() ==> pool3.fresh(#[trigger] rc[k])) ==> {
            &&& forall|k: int| 0 <= k < rc.len() ==> #[trigger] pool4.page(rc[k]) == reparented_page(pool3.page(rc[k]), nid) && pool4.fresh(rc[k])
            &&& forall|j: u32|
                #![trigger pool4.fresh(j)]
                j != 0 && pool3.fresh(j) && !rc.contains(j) ==> pool4.fresh(j) && pool4.page(j) == pool3.page(j)
        },
        pool4.store().len() < u32::MAX,
        rid == crate::storage::pager::spec_allocated_id(pool4.store()),
        u32_at(pool5.page(0), META_ROOT_OFFSET as int) == rid,
        raise_fits(pool4, internal_id, nid, key, left) ==> root_raised(pool4, pool5, internal_id, nid, key, left),
    ensures
        split_internal_under_new_root(pool0, pool5, rid, internal_id, n),
{
    let h = internal_halves(n);
    if pool0.coherent() && n.children.len() == n.keys.len() + 1 && internal_id != 0 && nid != internal_id && rid != internal_id && rid != nid
        && node_size(h.0) <= PAGE_SIZE && node_size(h.1) <= PAGE_SIZE && node_size(new_root_node(key, internal_id, nid)) <= PAGE_SIZE
        && rc.no_duplicates() && !rc.contains(0) && !rc.contains(internal_id) && !rc.contains(nid) && !rc.contains(rid) {
        assert(forall|k: int| 0 <= k < rc.len() ==> pool3.fresh(#[trigger] rc[k])) by {
            assert forall|k: int| 0 <= k < rc.len() implies pool3.fresh(#[trigger] rc[k]) by {
                assert(rc.contains(rc[k]));
                assert(pool0.fresh(rc[k]));
            }
        }
        assert(pool4.fresh(internal_id) && pool4.page(internal_id) == pool3.page(internal_id)) by {
            assert(pool3.fresh(internal_id));
        }
        assert(pool4.fresh(nid) && pool4.page(nid) == pool3.page(nid)) by {
            assert(pool3.fresh(nid));
        }
        assert(raise_fits(pool4, internal_id, nid, key, left)) by {
            assert(node_size(raised_left(left, rid)) == node_size(h.0));
        }
        assert(crate::storage::btree::storable(h.1)) by {
            let mid = (n.keys.len() / 2) as int;
            assert(n.children.subrange(mid + 1, n.children.len() as int).len() == n.keys.subrange(mid + 1, n.keys.len() as int).len() + 1);
        }
        assert(root_raised(pool4, pool5, internal_id, nid, key, left));
        assert(pool5.page(nid) == node_image(parented(h.1, rid))) by {
            reveal(root_raised);
            lemma_raised_right_of_image(h.1, rid);
        }
        assert(pool5.page(internal_id) == node_image(parented(h.0, rid))) by {
            reveal(root_raised);
            assert(raised_left(left, rid) == parented(h.0, rid));
        }
        assert(pool5.page(rid) == node_image(new_root_node(key, internal_id, nid))) by {
            reveal(root_raised);
        }
        assert forall|k: int| 0 <= k < rc.len() implies #[trigger] pool5.page(rc[k]) == reparented_page(pool0.page(rc[k]), nid) by {
            reveal(root_raised);
            assert(rc.contains(rc[k]));
            assert(pool0.fresh(rc[k]));
            assert(pool4.page(rc[k]) == reparented_page(pool3.page(rc[k]), nid));
            assert(pool4.fresh(rc[k]));
            assert(pool5.fresh(rc[k]));
        }
        assert forall|j: u32| j != 0 && j != rid && j != internal_id && j != nid && !rc.contains(j) implies #[trigger] pool5.page(j) == pool0.page(j) by {
            reveal(root_raised);
            assert(pool0.fresh(j));
            assert(pool3.fresh(j));
            assert(pool4.fresh(j));
            assert(pool5.fresh(j));
        }
    }
    reveal(split_internal_under_new_root);
}

/// Raising the node stored as the image of internal node `v` points `v` up to `rid`.
proof fn lemma_raised_right_of_image(v: NodeView, rid: u32)
    requires
        crate::storage::btree::storable(v),
        v is Internal,
    ensures
        raised_right(node_image(v), rid) == parented(v, rid),
{
    crate::storage::btree::lemma_node_page_roundtrip(v);
}

/// Page bytes `d` decoded, pointed up to `parent` and encoded again.
#[verifier::opaque]
pub open spec fn reparented_page(d: Seq<u8>, parent: u32) -> Seq<u8> {
    node_image(parented(decode_node(d), parent))
}

/// One step of pointing a list of distinct children up to a new parent: once the child at
/// position `i` is rewritten, the first `i + 1` children are pointed up and every other page
/// is as it was.
#[verifier::spinoff_prover]
proof fn lemma_reparent_step(pool0: BufferPool, before: BufferPool, after: BufferPool, rc: Seq<u32>, i: int, np: u32)
    requires
        0 <= i < rc.len(),
        rc.no_duplicates(),
        !rc.contains(0),
        forall|k: int| 0 <= k < rc.len() ==> pool0.fresh(#[trigger] rc[k]),
        forall|k: int| 0 <= k < i ==> #[trigger] before.page(rc[k]) == reparented_page(pool0.page(rc[k]), np) && before.fresh(rc[k]),
        forall|j: u32|
            #![trigger before.fresh(j)]
            j != 0 && pool0.fresh(j) && !rc.subrange(0, i).contains(j) ==> before.fresh(j) && before.page(j) == pool0.page(j),
        after.page(rc[i]) == reparented_page(before.page(rc[i]), np),
        after.fresh(rc[i]),
        forall|j: u32|
            #![trigger after.fresh(j)]
            j != rc[i] && before.fresh(j) ==> after.fresh(j) && after.page(j) == before.page(j),
    ensures
        forall|k: int| 0 <= k < i + 1 ==> #[trigger] after.page(rc[k]) == reparented_page(pool0.page(rc[k]), np) && after.fresh(rc[k]),
        forall|j: u32|
            #![trigger after.fresh(j)]
            j != 0 && pool0.fresh(j) && !rc.subrange(0, i + 1).contains(j) ==> after.fresh(j) && after.page(j) == pool0.page(j),
{
    let c = rc[i];
    assert(!rc.subrange(0, i).contains(c)) by {
        lemma_distinct_not_before(rc, i);
    }
    assert(c != 0);
    assert(pool0.fresh(rc[i]));
    assert(before.fresh(c));
    assert(before.page(c) == pool0.page(c));
    assert forall|k: int| 0 <= k < i + 1 implies #[trigger] after.page(rc[k]) == reparented_page(pool0.page(rc[k]), np) && after.fresh(rc[k]) by {
        if k < i {
            assert(rc[k] != c);
            assert(before.page(rc[k]) == reparented_page(pool0.page(rc[k]), np));
            assert(before.fresh(rc[k]));
            assert(after.fresh(rc[k]));
            assert(after.page(rc[k]) == before.page(rc[k]));
        } else {
            assert(rc[k] == c);
            assert(after.page(c) == reparented_page(pool0.page(c), np));
        }
    }
    assert forall|j: u32| j != 0 && pool0.fresh(j) && !rc.subrange(0, i + 1).contains(j) implies #[trigger] after.fresh(j) && after.page(j) == pool0.page(j) by {
        assert(rc.subrange(0, i + 1) =~= rc.subrange(0, i).push(c));
        assert(rc.subrange(0, i + 1)[i] == c);
        assert(!rc.subrange(0, i).contains(j)) by {
            if rc.subrange(0, i).contains(j) {
                let k = choose|k: int| 0 <= k < i && rc.subrange(0, i)[k] == j;
                assert(rc.subrange(0, i + 1)[k] == j);
            }
        }
        assert(before.fresh(j));
    }
}

/// An item of a list without duplicates does not occur before its own position.
proof fn lemma_distinct_not_before(rc: Seq<u32>, i: int)
    requires
        0 <= i < rc.len(),
        rc.no_duplicates(),
    ensures
        !rc.subrange(0, i).contains(rc[i]),
{
    if rc.subrange(0, i).contains(rc[i]) {
        let k = choose|k: int| 0 <= k < i && rc.subrange(0, i)[k] == rc[i];
        assert(rc[k] == rc[i]);
    }
}

/// Whether `pos` is where `key` belongs among separator keys `ks`: after those before it.
pub open spec fn lower_bound_at(ks: Seq<Seq<u8>>, key: Seq<u8>, pos: int) -> bool {
    &&& 0 <= pos <= ks.len()
    &&& forall|i: int| 0 <= i < pos ==> #[trigger] bytes_lt(ks[i], key)
    &&& forall|i: int| pos <= i < ks.len() ==> !#[trigger] bytes_lt(ks[i], key)
}

/// Where `key` belongs among separator keys `ks` (see `lower_bound_at`).
pub open spec fn separator_pos(ks: Seq<Seq<u8>>, key: Seq<u8>) -> int {
    choose|pos: int| lower_bound_at(ks, key, pos)
}

/// An internal node with separator `key` and its right child `child` added where `key`
/// belongs.
pub open spec fn grown_node(n: crate::storage::btree::InternalView, key: Seq<u8>, child: u32) -> NodeView {
    let pos = separator_pos(n.keys, key);
    NodeView::Internal(crate::storage::btree::InternalView { parent: n.parent, keys: n.keys.insert(pos, key), children: n.children.insert(pos + 1, child) })
}

/// There is one place where a key belongs.
pub proof fn lemma_separator_pos(ks: Seq<Seq<u8>>, key: Seq<u8>, pos: int)
    requires
        lower_bound_at(ks, key, pos),
    ensures
        separator_pos(ks, key) == pos,
{
    let p = separator_pos(ks, key);
    assert(lower_bound_at(ks, key, p));
    if p < pos {
        assert(bytes_lt(ks[p], key));
    } else if pos < p {
        assert(bytes_lt(ks[pos], key));
    }
}

/// Separator keys strictly increasing.
pub open spec fn separators_sorted(ks: Seq<Seq<u8>>) -> bool {
    forall|i: int, j: int| #![trigger ks[i], ks[j]] 0 <= i < j < ks.len() ==> bytes_lt(ks[i], ks[j])
}

fn copy_records(rs: &Vec<(Vec<u8>, Vec<u8>)>) -> (r: Vec<(Vec<u8>, Vec<u8>)>)
    ensures
        records_view(r@) == records_view(rs@),
{
    let mut out: Vec<(Vec<u8>, Vec<u8>)> = Vec::new();
    let mut i: usize = 0;
    while i < rs.len()
        invariant
            i <= rs@.len(),
            out@.len() == i,
            forall|j: int| 0 <= j < i ==> (#[trigger] out@[j]).0@ == rs@[j].0@ && out@[j].1@ == rs@[j].1@,
        decreases rs@.len() - i,
    {
        out.push(copy_record(&rs[i]));
        i = i + 1;
    }
    assert(records_view(out@) =~= records_view(rs@));
    out
}

fn copy_keys(ks: &Vec<Vec<u8>>) -> (r: Vec<Vec<u8>>)
    ensures
        keys_view(r@) == keys_view(ks@),
{
    let mut out: Vec<Vec<u8>> = Vec::new();
    let mut i: usize = 0;
    while i < ks.len()
        invariant
            i <= ks@.len(),
            out@.len() == i,
            forall|j: int| 0 <= j < i ==> (#[trigger] out@[j])@ == ks@[j]@,
        decreases ks@.len() - i,
    {
        out.push(copy_bytes(ks[i].as_slice()));
        i = i + 1;
    }
    assert(keys_view(out@) =~= keys_view(ks@));
    out
}

fn copy_ids(ids: &Vec<PageId>) -> (r: Vec<PageId>)
    ensures
        r@ == ids@,
{
    let mut out: Vec<PageId> = Vec::new();
    let mut i: usize = 0;
    while i < ids.len()
        invariant
            i <= ids@.len(),
            out@ == ids@.subrange(0, i as int),
        decreases ids@.len() - i,
    {
        out.push(ids[i]);
        i = i + 1;
    }
    assert(out@ =~= ids@);
    out
}

impl BTree {
    /// Opens the tree stored in the pool: the root recorded in the metadata page, or a fresh
    /// empty root leaf when none is recorded (0 or u32::MAX).
    #[verifier::spinoff_prover]
    #[verifier::rlimit(60)]
    pub fn new(buffer_pool: BufferPool) -> (r: Result<BTree, StorageError>)
        requires
            buffer_pool.wf(),
        ensures
            r matches Ok(t) ==> t.wf(),
            r matches Ok(t) ==> {
                let stored = u32_at(buffer_pool.page(0), META_ROOT_OFFSET as int);
                if stored == 0 || stored == NO_PAGE {
                    &&& t.root() != 0
                    &&& t.root() != NO_PAGE
                    &&& decode_node(t.pool().page(t.root())) == NodeView::Leaf(
                        LeafView { parent: None, next: None, records: Seq::empty() },
                    )
                    &&& forall|k: Seq<u8>| #[trigger] t.lookup(k) == Some(None::<Seq<u8>>)
                    &&& buffer_pool.coherent() && !crate::storage::pager::reusable_head(buffer_pool.store())
                        && (forall|j: u32| #[trigger] buffer_pool.cached().dom().contains(j) ==> !buffer_pool.cached()[j].1) ==> t.pool().coherent()
                } else {
                    &&& t.root() == stored
                    &&& t.pool().store().len() >= buffer_pool.store().len()
                    &&& buffer_pool.coherent() ==> t.pool().coherent() && pages_of(t.pool()) == pages_of(buffer_pool)
                }
            },
            r is Err ==> r == Err::<BTree, StorageError>(StorageError::StoreFull),
            buffer_pool.store().len() < u32::MAX && (forall|j: u32| #[trigger] buffer_pool.cached().dom().contains(j) ==> !buffer_pool.cached()[j].1)
                ==> r is Ok,
    {
        let mut pool = buffer_pool;
        proof {
            pool.lemma_wf();
        }
        let meta = pool.fetch_page(0);
        let stored_root = read_u32_le(meta.data.as_slice(), META_ROOT_OFFSET);
        assert(stored_root == u32_at(buffer_pool.page(0), META_ROOT_OFFSET as int));
        if stored_root == 0 || stored_root == NO_PAGE {
            if pool.get_num_pages() == 0xFFFF_FFFFu32 {
                return Err(StorageError::StoreFull);
            }
            let ghost store_before = pool.store();
            let new_page_id = pool.allocate_page();
            let no_records: Vec<(Vec<u8>, Vec<u8>)> = Vec::new();
            proof {
                assert(records_view(no_records@) =~= Seq::<RecordView>::empty());
            }
            let empty_leaf = Node::Leaf(LeafNode { parent_page_id: None, next_leaf: None, records: no_records });
            let ghost leaf_view = LeafView { parent: None, next: None, records: Seq::empty() };
            proof {
                assert(empty_leaf.view() == NodeView::Leaf(leaf_view));
                crate::storage::btree::lemma_node_size(NodeView::Leaf(leaf_view));
                assert(records_size(Seq::<RecordView>::empty()) == 0);
                crate::storage::btree::lemma_node_page_roundtrip(NodeView::Leaf(leaf_view));
            }
            match empty_leaf.to_page() {
                Ok(page) => {
                    pool.write_page(new_page_id, &page);
                },
                Err(_) => {},
            }
            proof {
                pool.lemma_wf();
            }
            assert(decode_node(pool.page(new_page_id)) == NodeView::Leaf(leaf_view));
            assert(pool.fresh(new_page_id));
            let mut meta_page = pool.fetch_page(0);
            assert(decode_node(pool.page(new_page_id)) == NodeView::Leaf(leaf_view));
            meta_page.set_u32_le(META_ROOT_OFFSET, new_page_id);
            pool.write_page(0, &meta_page);
            assert(decode_node(pool.page(new_page_id)) == NodeView::Leaf(leaf_view));
            let t = BTree { buffer_pool: pool, root_page_id: new_page_id };
            proof {
                assert forall|k: Seq<u8>| #[trigger] t.lookup(k) == Some(None::<Seq<u8>>) by {
                    assert(descend(pages_of(t.pool()), new_page_id, k, t.pool().store().len()) == Some(new_page_id));
                    assert(leaf_records(pages_of(t.pool()), new_page_id) =~= Seq::<RecordView>::empty());
                    assert(!records_map(Seq::<RecordView>::empty()).dom().contains(k));
                }
            }
            Ok(t)
        } else {
            proof {
                if buffer_pool.coherent() {
                    assert(pages_of(pool) =~= pages_of(buffer_pool));
                }
            }
            Ok(BTree { buffer_pool: pool, root_page_id: stored_root })
        }
    }

    /// Records a new root id in the metadata page.
    fn persist_root_page_id(&mut self, root_page_id: PageId)
        requires
            old(self).wf(),
        ensures
            final(self).wf(),
            final(self).root() == old(self).root(),
            final(self).pool().page(0) == crate::storage::pager::with_u32(old(self).pool().page(0), META_ROOT_OFFSET as int, root_page_id),
            final(self).pool().fresh(0),
            pages_kept_but(old(self).pool(), final(self).pool(), 0),
    {
        proof {
            self.buffer_pool.lemma_wf();
        }
        let mut meta_page = self.buffer_pool.fetch_page(0);
        meta_page.set_u32_le(META_ROOT_OFFSET, root_page_id);
        self.buffer_pool.write_page(0, &meta_page);
    }

    /// Writes every dirty page back to the store.
    pub fn flush_all(&mut self)
        requires
            old(self).wf(),
        ensures
            final(self).wf(),
            final(self).root() == old(self).root(),
            forall|j: u32| #[trigger] final(self).pool().page(j) == old(self).pool().page(j),
            forall|j: u32| #[trigger] spec_read_store(final(self).pool(), j) == old(self).pool().flushed(j),
            final(self).pool().store().len() >= old(self).pool().store().len(),
    {
        self.buffer_pool.flush_all();
    }

    /// Writes every dirty page back and requests a sync of the store.
    pub fn flush_and_sync(&mut self)
        requires
            old(self).wf(),
        ensures
            final(self).wf(),
            final(self).root() == old(self).root(),
            forall|j: u32| #[trigger] final(self).pool().page(j) == old(self).pool().page(j),
            forall|j: u32| #[trigger] spec_read_store(final(self).pool(), j) == old(self).pool().flushed(j),
            final(self).pool().spec_sync_requested(),
            old(self).pool().coherent() ==> final(self).pool().coherent(),
    {
        self.buffer_pool.flush_and_sync();
    }

    /// Requests a sync of the store.
    pub fn sync(&mut self)
        requires
            old(self).wf(),
        ensures
            final(self).wf(),
            final(self).root() == old(self).root(),
            final(self).pool().store() == old(self).pool().store(),
            final(self).pool().cached() == old(self).pool().cached(),
            final(self).pool().spec_sync_requested(),
    {
        self.buffer_pool.sync();
    }

    /// Stores a node at a page; a node whose encoding does not fit is refused and nothing
    /// is written.
    fn write_node(&mut self, page_id: PageId, node: &Node) -> (r: Result<(), StorageError>)
        requires
            old(self).wf(),
            page_id < u32::MAX,
            node_size(node.view()) <= usize::MAX,
        ensures
            final(self).wf(),
            final(self).root() == old(self).root(),
            node_size(node.view()) > PAGE_SIZE ==> r == Err::<(), StorageError>(StorageError::NodeTooLarge { size: node_size(node.view()) as usize }) && final(self).pool() == old(self).pool(),
            node_size(node.view()) <= PAGE_SIZE ==> r is Ok && final(self).pool().page(page_id) == crate::storage::btree::encode_node(node.view()) + zeros((PAGE_SIZE - node_size(node.view())) as nat),
            forall|j: u32|
                #![trigger old(self).pool().fresh(j)]
                #![trigger final(self).pool().fresh(j)]
                j != page_id && old(self).pool().fresh(j) ==> final(self).pool().fresh(j) && final(self).pool().page(j) == old(self).pool().page(j),
            node_size(node.view()) <= PAGE_SIZE ==> final(self).pool().fresh(page_id),
            old(self).pool().coherent() ==> final(self).pool().coherent(),
            final(self).pool().store().len() >= old(self).pool().store().len(),
    {
        proof {
            crate::storage::btree::lemma_node_size(node.view());
        }
        match node.to_page() {
            Ok(page) => {
                self.buffer_pool.write_page(page_id, &page);
                Ok(())
            },
            Err(e) => Err(e),
        }
    }

    /// Stores a value across a chain of fresh overflow pages and returns its handle.
    fn write_overflow_value(&mut self, value: &[u8]) -> (r: Result<Vec<u8>, StorageError>)
        requires
            old(self).wf(),
        ensures
            final(self).wf(),
            final(self).root() == old(self).root(),
            r is Err ==> r == Err::<Vec<u8>, StorageError>(StorageError::StoreFull),
            r matches Ok(h) ==> is_overflow_handle(h@) && u32_at(h@, 4) == #[verifier::truncate] (value@.len() as u32),
    {
        let len = value.len();
        let n_chunks: usize = if len == 0 {
            0
        } else {
            (len - 1) / OVERFLOW_CHUNK + 1
        };
        let mut prev_page_id: u32 = NO_PAGE;
        let mut first_page_id: u32 = 0;
        let mut i: usize = n_chunks;
        while i > 0
            invariant
                self.wf(),
                self.root() == old(self).root(),
                i <= n_chunks,
                n_chunks == if len == 0 { 0 } else { (len - 1) / OVERFLOW_CHUNK as int + 1 },
                len == value@.len(),
            decreases i,
        {
            i = i - 1;
            proof {
                self.buffer_pool.lemma_wf();
            }
            if self.buffer_pool.get_num_pages() == 0xFFFF_FFFFu32 {
                return Err(StorageError::StoreFull);
            }
            let page_id = self.buffer_pool.allocate_page();
            if i == 0 {
                first_page_id = page_id;
            }
            assert(i * OVERFLOW_CHUNK < len) by (nonlinear_arith)
                requires
                    i < n_chunks,
                    n_chunks == if len == 0 { 0 } else { (len - 1) / OVERFLOW_CHUNK as int + 1 },
            ;
            let start = i * OVERFLOW_CHUNK;
            let end = if len - start > OVERFLOW_CHUNK {
                start + OVERFLOW_CHUNK
            } else {
                len
            };
            let mut data: Vec<u8> = Vec::new();
            push_u32_le(&mut data, prev_page_id);
            let chunk = crate::codec::copy_range(value, start, end);
            push_bytes(&mut data, chunk.as_slice());
            let used = data.len();
            crate::codec::push_zeros(&mut data, PAGE_SIZE - used);
            let page = Page { data };
            self.buffer_pool.write_page(page_id, &page);
            prev_page_id = page_id;
        }
        let mut handle: Vec<u8> = Vec::new();
        push_bytes(&mut handle, &OVERFLOW_MAGIC);
        let stored_len: u32 = #[verifier::truncate] (len as u32);
        push_u32_le(&mut handle, stored_len);
        push_u32_le(&mut handle, first_page_id);
        proof {
            lemma_le_u32_roundtrip(stored_len);
            assert(handle@.subrange(0, 4) =~= overflow_magic());
            assert(handle@.subrange(4, 8) =~= le_u32(stored_len));
        }
        Ok(handle)
    }

    /// Frees the overflow pages of a stored value; a value that is no handle has none.
    #[verifier::spinoff_prover]
    #[verifier::rlimit(100)]
    fn free_overflow_chain(&mut self, val_bytes: &[u8]) -> (r: Result<(), StorageError>)
        requires
            old(self).wf(),
        ensures
            final(self).wf(),
            final(self).root() == old(self).root(),
            !is_overflow_handle(val_bytes@) ==> r is Ok && final(self).pool() == old(self).pool(),
            is_overflow_handle(val_bytes@) && old(self).pool().coherent() ==> match chain_pages(
                pages_of(old(self).pool()),
                u32_at(val_bytes@, 8),
                old(self).pool().store().len(),
            ) {
                Some(ids) => ids.no_duplicates() && !ids.contains(0) ==> {
                    &&& r is Ok
                    &&& forall|j: u32| j != 0 && !ids.contains(j) ==> #[trigger] final(self).pool().page(j) == old(self).pool().page(j)
                    &&& forall|k: int| 0 <= k < ids.len() ==> !final(self).pool().cached().dom().contains(#[trigger] ids[k])
                    &&& forall|k: int| 0 <= k < ids.len() && ids[k] < old(self).pool().store().len()
                        ==> is_free_page(crate::storage::pager::spec_read(final(self).pool().store(), #[trigger] ids[k] as int))
                },
                None => true,
            },
    {
        if !(val_bytes.len() == 12 && val_bytes[0] == 79u8 && val_bytes[1] == 86u8 && val_bytes[2] == 82u8 && val_bytes[3] == 70u8) {
            proof {
                if val_bytes@.len() == 12 && val_bytes@.subrange(0, 4) == overflow_magic() {
                    assert(val_bytes@.subrange(0, 4)[0] == val_bytes@[0]);
                    assert(val_bytes@.subrange(0, 4)[1] == val_bytes@[1]);
                    assert(val_bytes@.subrange(0, 4)[2] == val_bytes@[2]);
                    assert(val_bytes@.subrange(0, 4)[3] == val_bytes@[3]);
                }
            }
            return Ok(());
        }
        proof {
            assert(val_bytes@.subrange(0, 4) =~= overflow_magic());
            self.buffer_pool.lemma_wf();
        }
        let ghost pool0 = self.buffer_pool;
        let ghost view0 = pages_of(pool0);
        let ghost n0 = pool0.store().len();
        let mut curr_page_id = read_u32_le(val_bytes, 8);
        let mut fuel = self.buffer_pool.get_num_pages();
        let ghost first = curr_page_id;
        let ghost chain = chain_pages(view0, first, n0);
        let ghost good = pool0.coherent() && chain is Some && chain->0.no_duplicates() && !chain->0.contains(0);
        let ghost ids = chain->0;
        let ghost mut done: Seq<u32> = Seq::empty();
        proof {
            if good {
                assert(ids.skip(0) =~= ids);
                assert forall|j: u32| #[trigger] pool0.fresh(j) by {}
            }
        }
        while curr_page_id != NO_PAGE
            invariant
                self.wf(),
                self.root() == old(self).root(),
                is_overflow_handle(val_bytes@),
                pool0 == old(self).pool(),
                view0 == pages_of(pool0),
                n0 == pool0.store().len(),
                self.pool().store().len() >= n0,
                chain == chain_pages(view0, first, n0),
                first == u32_at(val_bytes@, 8),
                good == (pool0.coherent() && chain is Some && chain->0.no_duplicates() && !chain->0.contains(0)),
                ids == chain->0,
                good ==> {
                    &&& done.len() <= ids.len()
                    &&& done == ids.take(done.len() as int)
                    &&& chain_pages(view0, curr_page_id, fuel as nat) == Some(ids.skip(done.len() as int))
                    &&& forall|j: u32| j != 0 && !done.contains(j) ==> #[trigger] self.pool().fresh(j) && self.pool().page(j) == view0(j)
                    &&& forall|k: int| 0 <= k < done.len() ==> !self.pool().cached().dom().contains(#[trigger] done[k])
                    &&& forall|k: int| 0 <= k < done.len() && done[k] < n0
                        ==> is_free_page(crate::storage::pager::spec_read(self.pool().store(), #[trigger] done[k] as int))
                },
            decreases fuel,
        {
            if fuel == 0 {
                return Err(StorageError::CorruptPage { page_id: curr_page_id });
            }
            let ghost pool_a = self.buffer_pool;
            proof {
                if good {
                    let k = done.len() as int;
                    let rest = chain_pages(view0, u32_at(view0(curr_page_id), 0), (fuel - 1) as nat);
                    assert(rest is Some);
                    assert(ids.skip(k) == seq![curr_page_id] + rest->0);
                    assert(ids.skip(k).len() > 0);
                    assert(k < ids.len());
                    assert(ids.skip(k)[0] == ids[k]);
                    assert(ids[k] == curr_page_id);
                    assert forall|i: int| 0 <= i < rest->0.len() implies ids.skip(k + 1)[i] == rest->0[i] by {
                        assert(ids.skip(k)[i + 1] == ids[k + 1 + i]);
                    }
                    assert(ids.skip(k + 1).len() == rest->0.len());
                    assert(ids.skip(k + 1) =~= rest->0);
                    assert(!done.contains(curr_page_id)) by {
                        if done.contains(curr_page_id) {
                            let m = choose|m: int| 0 <= m < done.len() && done[m] == curr_page_id;
                            assert(ids[m] == ids[k]);
                        }
                    }
                    assert(curr_page_id != 0) by {
                        assert(ids.contains(ids[k]));
                    }
                    assert(self.pool().fresh(curr_page_id));
                    assert(self.pool().page(curr_page_id) == view0(curr_page_id));
                }
            }
            let page = self.buffer_pool.fetch_page(curr_page_id);
            let next_page_id = read_u32_le(page.data.as_slice(), 0);
            let ghost pool_b = self.buffer_pool;
            proof {
                if good {
                    let k = done.len() as int;
                    assert(page.data@ == view0(curr_page_id));
                    assert(chain_pages(view0, next_page_id, (fuel - 1) as nat) == Some(ids.skip(k + 1)));
                }
            }
            self.buffer_pool.free_page(curr_page_id);
            proof {
                if good {
                    let k = done.len() as int;
                    let d2 = done.push(curr_page_id);
                    assert(d2 =~= ids.take(k + 1));
                    assert forall|j: u32| j != 0 && !d2.contains(j) implies #[trigger] self.pool().fresh(j) && self.pool().page(j) == view0(j) by {
                        assert(!done.contains(j)) by {
                            if done.contains(j) {
                                let m = choose|m: int| 0 <= m < done.len() && done[m] == j;
                                assert(d2[m] == j);
                            }
                        }
                        assert(j != curr_page_id) by {
                            assert(d2[k] == curr_page_id);
                        }
                        assert(pool_a.fresh(j));
                    }
                    assert forall|m: int| 0 <= m < d2.len() implies !self.pool().cached().dom().contains(#[trigger] d2[m]) by {
                        if m < k {
                            assert(d2[m] == done[m]);
                            assert(d2[m] != curr_page_id) by {
                                assert(ids[m] != ids[k]);
                            }
                            assert(!pool_a.cached().dom().contains(done[m]));
                        }
                    }
                    assert forall|m: int| 0 <= m < d2.len() && d2[m] < n0
                        implies is_free_page(crate::storage::pager::spec_read(self.pool().store(), #[trigger] d2[m] as int)) by {
                        if m < k {
                            assert(d2[m] == done[m]);
                            assert(d2[m] != curr_page_id) by {
                                assert(ids[m] != ids[k]);
                            }
                            assert(!pool_a.cached().dom().contains(done[m]));
                            assert(!pool_b.cached().dom().contains(done[m]));
                            assert(pool_b.flushed(done[m]) == pool_a.flushed(done[m]));
                            assert(crate::storage::pager::spec_read(pool_b.store(), done[m] as int) == crate::storage::pager::spec_read(pool_a.store(), done[m] as int));
                        } else {
                            let h = crate::storage::pager::spec_free_head(pool_b.store());
                            let s0 = pool_b.store();
                            assert(d2[m] == curr_page_id);
                            assert(curr_page_id < s0.len());
                            let s1 = crate::storage::pager::spec_write(s0, curr_page_id as int, crate::storage::pager::free_page_bytes(h));
                            assert(s1 == s0.update(curr_page_id as int, crate::storage::pager::free_page_bytes(h)));
                            assert(s1.len() == s0.len());
                            assert(self.pool().store() == s1.update(0, crate::storage::pager::with_u32(s0[0], crate::storage::pager::META_FREE_LIST_OFFSET as int, curr_page_id)));
                            assert(crate::storage::pager::spec_read(self.pool().store(), curr_page_id as int) == crate::storage::pager::free_page_bytes(h));
                        }
                    }
                    done = d2;
                }
            }
            curr_page_id = next_page_id;
            fuel = fuel - 1;
        }
        proof {
            if good {
                assert(ids.skip(done.len() as int).len() == 0);
                assert(done =~= ids);
                assert forall|j: u32| j != 0 && !ids.contains(j) implies #[trigger] self.pool().page(j) == old(self).pool().page(j) by {
                    assert(!done.contains(j));
                    assert(self.pool().fresh(j));
                }
            }
        }
        Ok(())
    }
}

/// The pages of an overflow chain from page `id`, in order, following at most `fuel` links;
/// `None` when the links run out.
pub open spec fn chain_pages(view: spec_fn(u32) -> Seq<u8>, id: u32, fuel: nat) -> Option<Seq<u32>>
    decreases fuel,
{
    if id == NO_PAGE {
        Some(Seq::empty())
    } else if fuel == 0 {
        None
    } else {
        match chain_pages(view, u32_at(view(id), 0), (fuel - 1) as nat) {
            Some(rest) => Some(seq![id] + rest),
            None => None,
        }
    }
}

/// Whether a stored page is a page of the free list: zeros but for its link.
pub open spec fn is_free_page(d: Seq<u8>) -> bool {
    exists|h: u32| d == crate::storage::pager::free_page_bytes(h)
}

/// What the store holds at `j`.
pub open spec fn spec_read_store(pool: BufferPool, j: u32) -> Seq<u8> {
    crate::storage::pager::spec_read(pool.store(), j as int)
}


/// Each record takes its share of the encoded size.
pub proof fn lemma_record_in_size(rs: Seq<RecordView>, i: int)
    requires
        0 <= i < rs.len(),
    ensures
        8 + rs[i].0.len() + rs[i].1.len() <= records_size(rs),
    decreases rs.len(),
{
    crate::storage::btree::lemma_records_size(rs.drop_first());
    if i > 0 {
        lemma_record_in_size(rs.drop_first(), i - 1);
    }
}

/// Each key takes its share of the encoded size.
pub proof fn lemma_key_in_size(ks: Seq<Seq<u8>>, i: int)
    requires
        0 <= i < ks.len(),
    ensures
        4 + ks[i].len() <= keys_size(ks),
    decreases ks.len(),
{
    crate::storage::btree::lemma_keys_size(ks.drop_first());
    if i > 0 {
        lemma_key_in_size(ks.drop_first(), i - 1);
    }
}

/// Putting one record into a sequence adds at most that record's encoded size.
pub proof fn lemma_put_size(rs: Seq<RecordView>, pos: int, found: bool, key: Seq<u8>, val: Seq<u8>)
    requires
        0 <= pos <= rs.len(),
        found ==> pos < rs.len(),
    ensures
        records_size(crate::storage::ordered::put_record(rs, pos, found, key, val)) <= records_size(rs) + 8 + key.len() + val.len(),
{
    let before = rs.subrange(0, pos);
    lemma_records_size_single((key, val));
    crate::storage::btree::lemma_records_size(rs.subrange(pos, rs.len() as int));
    if found {
        let after = rs.subrange(pos + 1, rs.len() as int);
        assert(rs =~= before + seq![rs[pos]] + after);
        assert(crate::storage::ordered::put_record(rs, pos, found, key, val) =~= before + seq![(key, val)] + after);
        lemma_records_size_concat(before + seq![rs[pos]], after);
        lemma_records_size_concat(before, seq![rs[pos]]);
        lemma_records_size_concat(before + seq![(key, val)], after);
        lemma_records_size_concat(before, seq![(key, val)]);
        lemma_records_size_single(rs[pos]);
    } else {
        let after = rs.subrange(pos, rs.len() as int);
        assert(rs =~= before + after);
        assert(crate::storage::ordered::put_record(rs, pos, found, key, val) =~= before + seq![(key, val)] + after);
        lemma_records_size_concat(before, after);
        lemma_records_size_concat(before + seq![(key, val)], after);
        lemma_records_size_concat(before, seq![(key, val)]);
    }
}

/// The largest node size after adding one key (and a value up to a page) to a node read from
/// a page: well within `usize`.
pub open spec fn size_bound() -> int {
    3 * PAGE_SIZE + 64
}

/// A key and an inline value fit in place into a tree whose root is an empty leaf.
pub proof fn lemma_put_fits_empty(t: BTree, key: Seq<u8>, value: Seq<u8>)
    requires
        t.pool().coherent(),
        t.root() != NO_PAGE,
        decode_node(t.pool().page(t.root())) == NodeView::Leaf(LeafView { parent: None, next: None, records: Seq::empty() }),
        key.len() <= MAX_KEY_SIZE,
        value.len() <= MAX_INLINE_VAL_SIZE,
        !is_overflow_handle(value),
    ensures
        inline_put_fits(t, key, value),
{
    let view = pages_of(t.pool());
    assert(descend(view, t.root(), key, t.pool().store().len()) == Some(t.root()));
    assert(leaf_records(view, t.root()) =~= Seq::<RecordView>::empty());
    assert(records_size(Seq::<RecordView>::empty()) == 0);
    assert(!records_map(Seq::<RecordView>::empty()).dom().contains(key));
}

/// A tree whose root page holds an empty leaf finds no key.
pub proof fn lemma_empty_root_lookup(t: BTree)
    requires
        decode_node(t.pool().page(t.root())) == NodeView::Leaf(LeafView { parent: None, next: None, records: Seq::empty() }),
    ensures
        forall|k: Seq<u8>| #[trigger] t.lookup(k) == Some(None::<Seq<u8>>),
        forall|p: Seq<u8>| #[trigger] scan_result(pages_of(t.pool()), t.root(), p, t.pool().store().len()) == Some(Seq::<PairView>::empty()),
{
    assert forall|p: Seq<u8>| #[trigger] scan_result(pages_of(t.pool()), t.root(), p, t.pool().store().len()) == Some(Seq::<PairView>::empty()) by {
        assert(descend(pages_of(t.pool()), t.root(), p, t.pool().store().len()) == Some(t.root()));
        assert(scan_leaf(pages_of(t.pool()), Seq::<RecordView>::empty(), p, t.pool().store().len()) == Some((Seq::<PairView>::empty(), false)));
    }
    assert forall|k: Seq<u8>| #[trigger] t.lookup(k) == Some(None::<Seq<u8>>) by {
        assert(descend(pages_of(t.pool()), t.root(), k, t.pool().store().len()) == Some(t.root()));
        assert(leaf_records(pages_of(t.pool()), t.root()) =~= Seq::<RecordView>::empty());
        assert(!records_map(Seq::<RecordView>::empty()).dom().contains(k));
    }
}

/// A descent ends at a page holding a leaf.
pub proof fn lemma_descend_leaf(view: spec_fn(u32) -> Seq<u8>, id: u32, key: Seq<u8>, fuel: nat)
    requires
        descend(view, id, key, fuel) is Some,
    ensures
        decode_node(view(descend(view, id, key, fuel)->0)) is Leaf,
    decreases fuel,
{
    match decode_node(view(id)) {
        NodeView::Leaf(_) => {},
        NodeView::Internal(n) => {
            let c = child_index(n.keys, key);
            lemma_descend_leaf(view, n.children[c], key, (fuel - 1) as nat);
        },
    }
}

/// More steps do not change a descent that already arrives.
pub proof fn lemma_descend_fuel(view: spec_fn(u32) -> Seq<u8>, id: u32, key: Seq<u8>, fuel: nat, more: nat)
    requires
        descend(view, id, key, fuel) is Some,
        fuel <= more,
    ensures
        descend(view, id, key, more) == descend(view, id, key, fuel),
    decreases fuel,
{
    match decode_node(view(id)) {
        NodeView::Leaf(_) => {},
        NodeView::Internal(n) => {
            let c = child_index(n.keys, key);
            lemma_descend_fuel(view, n.children[c], key, (fuel - 1) as nat, (more - 1) as nat);
        },
    }
}

/// Rewriting the leaf a descent arrives at with another leaf leaves the descent alone.
pub proof fn lemma_descend_update(view0: spec_fn(u32) -> Seq<u8>, view1: spec_fn(u32) -> Seq<u8>, id: u32, key: Seq<u8>, fuel: nat, l: u32)
    requires
        descend(view0, id, key, fuel) == Some(l),
        forall|j: u32| j != l ==> #[trigger] view1(j) == view0(j),
        decode_node(view1(l)) is Leaf,
    ensures
        descend(view1, id, key, fuel) == Some(l),
    decreases fuel,
{
    lemma_descend_leaf(view0, id, key, fuel);
    match decode_node(view0(id)) {
        NodeView::Leaf(_) => {},
        NodeView::Internal(n) => {
            assert(id != l);
            assert(view1(id) == view0(id));
            let c = child_index(n.keys, key);
            lemma_descend_update(view0, view1, n.children[c], key, (fuel - 1) as nat, l);
        },
    }
}

/// Every key of a leaf after a put stays within a page when the key does.
pub proof fn lemma_put_keys_bounded(rs: Seq<RecordView>, pos: int, found: bool, key: Seq<u8>, val: Seq<u8>)
    requires
        0 <= pos <= rs.len(),
        found ==> pos < rs.len(),
        records_size(rs) <= PAGE_SIZE,
        key.len() <= PAGE_SIZE,
    ensures
        forall|i: int| 0 <= i < crate::storage::ordered::put_record(rs, pos, found, key, val).len()
            ==> (#[trigger] crate::storage::ordered::put_record(rs, pos, found, key, val)[i]).0.len() <= PAGE_SIZE,
{
    let out = crate::storage::ordered::put_record(rs, pos, found, key, val);
    crate::storage::btree::lemma_records_size(rs);
    assert forall|i: int| 0 <= i < out.len() implies (#[trigger] out[i]).0.len() <= PAGE_SIZE by {
        if out[i].0 != key {
            if found || i < pos {
                lemma_record_in_size(rs, i);
            } else {
                lemma_record_in_size(rs, i - 1);
            }
        }
    }
}

/// After the leaf that a descent for `key` arrives at is rewritten with a leaf whose records
/// map `key` as `expected` says (a value that is no overflow handle, or absent), a search for
/// `key` gives `expected`.
pub proof fn lemma_readback(view0: spec_fn(u32) -> Seq<u8>, view1: spec_fn(u32) -> Seq<u8>, root: u32, key: Seq<u8>, expected: Option<Seq<u8>>, fuel: nat, fuel1: nat, l: u32, leaf: LeafView)
    requires
        descend(view0, root, key, fuel) == Some(l),
        forall|j: u32| j != l ==> #[trigger] view1(j) == view0(j),
        decode_node(view1(l)) == NodeView::Leaf(leaf),
        fuel <= fuel1,
        match expected {
            Some(v) => records_map(leaf.records).dom().contains(key) && records_map(leaf.records)[key] == v && !is_overflow_handle(v),
            None => !records_map(leaf.records).dom().contains(key),
        },
    ensures
        search_result(view1, root, key, fuel1) == Some(expected),
        descend(view1, root, key, fuel1) == Some(l),
{
    lemma_descend_update(view0, view1, root, key, fuel, l);
    lemma_descend_fuel(view1, root, key, fuel, fuel1);
    assert(leaf_records(view1, l) == leaf.records);
}

/// Rewriting one leaf page with another leaf leaves every descent alone.
pub proof fn lemma_descend_same(view0: spec_fn(u32) -> Seq<u8>, view1: spec_fn(u32) -> Seq<u8>, id: u32, key: Seq<u8>, fuel: nat, l: u32)
    requires
        forall|j: u32| j != l ==> #[trigger] view1(j) == view0(j),
        decode_node(view0(l)) is Leaf,
        decode_node(view1(l)) is Leaf,
    ensures
        descend(view1, id, key, fuel) == descend(view0, id, key, fuel),
    decreases fuel,
{
    if id != l {
        assert(view1(id) == view0(id));
        match decode_node(view0(id)) {
            NodeView::Leaf(_) => {},
            NodeView::Internal(n) => {
                if fuel > 0 {
                    let c = child_index(n.keys, key);
                    if c < n.children.len() {
                        lemma_descend_same(view0, view1, n.children[c], key, (fuel - 1) as nat, l);
                    }
                }
            },
        }
    }
}

/// Whether the value stored for `k`, if any, is held inline (no overflow chain is read to
/// find it).
pub open spec fn inline_stored(t: BTree, k: Seq<u8>) -> bool {
    let view = pages_of(t.pool());
    match descend(view, t.root(), k, t.pool().store().len()) {
        Some(l) => records_map(leaf_records(view, l)).dom().contains(k) ==> !is_overflow_handle(records_map(leaf_records(view, l))[k]),
        None => false,
    }
}

/// After one leaf is rewritten with a leaf whose records map every key but `key` as before,
/// a search for another key whose stored value is inline gives what it gave before.
pub proof fn lemma_readback_other(
    view0: spec_fn(u32) -> Seq<u8>,
    view1: spec_fn(u32) -> Seq<u8>,
    root: u32,
    key: Seq<u8>,
    k2: Seq<u8>,
    fuel: nat,
    fuel1: nat,
    l: u32,
)
    requires
        forall|j: u32| j != l ==> #[trigger] view1(j) == view0(j),
        decode_node(view0(l)) is Leaf,
        decode_node(view1(l)) is Leaf,
        forall|k: Seq<u8>| k != key ==> (#[trigger] records_map(leaf_records(view1, l)).dom().contains(k)) == records_map(leaf_records(view0, l)).dom().contains(k),
        forall|k: Seq<u8>| k != key && #[trigger] records_map(leaf_records(view0, l)).dom().contains(k)
            ==> records_map(leaf_records(view1, l))[k] == records_map(leaf_records(view0, l))[k],
        k2 != key,
        fuel <= fuel1,
        descend(view0, root, k2, fuel) matches Some(l2) && (records_map(leaf_records(view0, l2)).dom().contains(k2)
            ==> !is_overflow_handle(records_map(leaf_records(view0, l2))[k2])),
    ensures
        search_result(view1, root, k2, fuel1) == search_result(view0, root, k2, fuel),
{
    lemma_descend_same(view0, view1, root, k2, fuel, l);
    lemma_descend_fuel(view1, root, k2, fuel, fuel1);
    let l2 = descend(view0, root, k2, fuel)->0;
    if l2 != l {
        assert(view1(l2) == view0(l2));
    } else {
        if records_map(leaf_records(view0, l2)).dom().contains(k2) {
            assert(records_map(leaf_records(view1, l2)).dom().contains(k2));
        } else {
            assert(!records_map(leaf_records(view1, l2)).dom().contains(k2));
        }
    }
}

/// The conditions under which the tree promises that an insert of `key` can be read back:
/// no stale cached pages, an inline value that is no overflow handle, a sorted leaf that
/// takes the record without a split, and no overflow chain under the replaced value.
pub open spec fn inline_put_fits(t: BTree, key: Seq<u8>, value: Seq<u8>) -> bool {
    let view = pages_of(t.pool());
    &&& t.pool().coherent()
    &&& key.len() <= MAX_KEY_SIZE
    &&& value.len() <= MAX_INLINE_VAL_SIZE
    &&& !is_overflow_handle(value)
    &&& match descend(view, t.root(), key, t.pool().store().len()) {
        Some(l) => {
            let rs = leaf_records(view, l);
            &&& l != NO_PAGE
            &&& keys_sorted(rs)
            &&& node_size(decode_node(view(l))) + 8 + key.len() + value.len() <= PAGE_SIZE
            &&& (records_map(rs).dom().contains(key) ==> !is_overflow_handle(records_map(rs)[key]))
        },
        None => false,
    }
}

/// What inserting `key` with inline `value` in place does, going from tree `before` to
/// `after`: the leaf that the search for `key` reaches now holds sorted records that map as
/// before but with `key` set to `value`, taking at most one record more; its links, every
/// other page and the root are as before.
pub open spec fn put_in_place(before: BTree, after: BTree, key: Seq<u8>, value: Seq<u8>) -> bool {
    let view0 = pages_of(before.pool());
    let l = descend(view0, before.root(), key, before.pool().store().len())->0;
    let rs = leaf_records(view0, l);
    &&& after.root() == before.root()
    &&& forall|j: u32| j != l ==> #[trigger] after.pool().page(j) == before.pool().page(j)
    &&& exists|rs2: Seq<RecordView>| {
        &&& #[trigger] keys_sorted(rs2)
        &&& records_map(rs2) == records_map(rs).insert(key, value)
        &&& records_size(rs2) <= records_size(rs) + 8 + key.len() + value.len()
        &&& match decode_node(view0(l)) {
            NodeView::Leaf(lv) => decode_node(after.pool().page(l)) == NodeView::Leaf(LeafView { parent: lv.parent, next: lv.next, records: rs2 }),
            NodeView::Internal(_) => false,
        }
    }
}

/// Whether `t` is a single leaf at its root holding sorted records `rs`, none of them an
/// overflow handle, with no stale cached page.
pub open spec fn leaf_root(t: BTree, rs: Seq<RecordView>) -> bool {
    &&& t.pool().coherent()
    &&& t.root() != NO_PAGE
    &&& decode_node(t.pool().page(t.root())) == NodeView::Leaf(LeafView { parent: None, next: None, records: rs })
    &&& keys_sorted(rs)
    &&& forall|k: Seq<u8>| records_map(rs).dom().contains(k) ==> !is_overflow_handle(#[trigger] records_map(rs)[k])
}

/// A tree that is a single leaf finds exactly its records, each read from a sorted leaf.
pub proof fn lemma_leaf_root_lookup(t: BTree, rs: Seq<RecordView>)
    requires
        leaf_root(t, rs),
    ensures
        forall|k: Seq<u8>| #[trigger] t.lookup(k) == (if records_map(rs).dom().contains(k) {
            Some(Some(records_map(rs)[k]))
        } else {
            Some(None::<Seq<u8>>)
        }),
        forall|k: Seq<u8>| #[trigger] t.sorted_leaf_for(k),
{
    assert forall|k: Seq<u8>| #[trigger] t.lookup(k) == (if records_map(rs).dom().contains(k) {
        Some(Some(records_map(rs)[k]))
    } else {
        Some(None::<Seq<u8>>)
    }) by {
        assert(descend(pages_of(t.pool()), t.root(), k, t.pool().store().len()) == Some(t.root()));
        assert(leaf_records(pages_of(t.pool()), t.root()) == rs);
    }
    assert forall|k: Seq<u8>| #[trigger] t.sorted_leaf_for(k) by {
        assert(descend(pages_of(t.pool()), t.root(), k, t.pool().store().len()) == Some(t.root()));
        assert(leaf_records(pages_of(t.pool()), t.root()) == rs);
    }
}

/// An inline put into a tree that is a single leaf fits in place while the leaf has room.
pub proof fn lemma_leaf_root_put_fits(t: BTree, rs: Seq<RecordView>, key: Seq<u8>, value: Seq<u8>)
    requires
        leaf_root(t, rs),
        key.len() <= MAX_KEY_SIZE,
        value.len() <= MAX_INLINE_VAL_SIZE,
        !is_overflow_handle(value),
        crate::storage::btree::LEAF_HEADER_SIZE + records_size(rs) + 8 + key.len() + value.len() <= PAGE_SIZE,
    ensures
        inline_put_fits(t, key, value),
{
    let view = pages_of(t.pool());
    assert(descend(view, t.root(), key, t.pool().store().len()) == Some(t.root()));
    assert(leaf_records(view, t.root()) == rs);
    if records_map(rs).dom().contains(key) {
        assert(!is_overflow_handle(records_map(rs)[key]));
    }
}

/// After an in-place put into a tree that is a single leaf, the tree is still a single leaf,
/// holding the records with `key` set to `value`, and at most one record larger.
pub proof fn lemma_leaf_root_after_put(t: BTree, t2: BTree, rs: Seq<RecordView>, key: Seq<u8>, value: Seq<u8>)
    requires
        leaf_root(t, rs),
        inline_put_fits(t, key, value),
        put_in_place(t, t2, key, value),
        t2.pool().coherent(),
    ensures
        exists|rs2: Seq<RecordView>| {
            &&& #[trigger] leaf_root(t2, rs2)
            &&& records_map(rs2) == records_map(rs).insert(key, value)
            &&& records_size(rs2) <= records_size(rs) + 8 + key.len() + value.len()
        },
{
    let view = pages_of(t.pool());
    assert(descend(view, t.root(), key, t.pool().store().len()) == Some(t.root()));
    assert(leaf_records(view, t.root()) == rs);
    let rs2 = choose|rs2: Seq<RecordView>| {
        &&& #[trigger] keys_sorted(rs2)
        &&& records_map(rs2) == records_map(rs).insert(key, value)
        &&& records_size(rs2) <= records_size(rs) + 8 + key.len() + value.len()
        &&& match decode_node(view(t.root())) {
            NodeView::Leaf(lv) => decode_node(t2.pool().page(t.root())) == NodeView::Leaf(LeafView { parent: lv.parent, next: lv.next, records: rs2 }),
            NodeView::Internal(_) => false,
        }
    };
    assert forall|k: Seq<u8>| records_map(rs2).dom().contains(k) implies !is_overflow_handle(#[trigger] records_map(rs2)[k]) by {
        if k != key {
            assert(records_map(rs).dom().contains(k));
        }
    }
    assert(leaf_root(t2, rs2));
}

/// What deleting `key` in place does, going from tree `before` to `after`: the leaf that the
/// search for `key` reaches holds its sorted records without `key`, taking no more room; its
/// links, every other page and the root are as before, with no stale cached page.
pub open spec fn del_in_place(before: BTree, after: BTree, key: Seq<u8>) -> bool {
    let view0 = pages_of(before.pool());
    let l = descend(view0, before.root(), key, before.pool().store().len())->0;
    let rs = leaf_records(view0, l);
    &&& after.root() == before.root()
    &&& after.pool().coherent()
    &&& forall|j: u32| j != l ==> #[trigger] after.pool().page(j) == before.pool().page(j)
    &&& exists|rs2: Seq<RecordView>| {
        &&& #[trigger] keys_sorted(rs2)
        &&& records_map(rs2) == records_map(rs).remove(key)
        &&& records_size(rs2) <= records_size(rs)
        &&& match decode_node(view0(l)) {
            NodeView::Leaf(lv) => decode_node(after.pool().page(l)) == NodeView::Leaf(LeafView { parent: lv.parent, next: lv.next, records: rs2 }),
            NodeView::Internal(_) => false,
        }
    }
}

/// A delete from a tree that is a single leaf is done in place.
pub proof fn lemma_leaf_root_delete_in_place(t: BTree, rs: Seq<RecordView>, key: Seq<u8>)
    requires
        leaf_root(t, rs),
    ensures
        delete_in_place(t, key),
{
    let view = pages_of(t.pool());
    assert(descend(view, t.root(), key, t.pool().store().len()) == Some(t.root()));
    assert(leaf_records(view, t.root()) == rs);
    if records_map(rs).dom().contains(key) {
        assert(!is_overflow_handle(records_map(rs)[key]));
    }
}

/// After an in-place delete from a tree that is a single leaf, the tree is still a single
/// leaf, holding the records without `key`, and no larger.
pub proof fn lemma_leaf_root_after_delete(t: BTree, t2: BTree, rs: Seq<RecordView>, key: Seq<u8>)
    requires
        leaf_root(t, rs),
        del_in_place(t, t2, key),
    ensures
        exists|rs2: Seq<RecordView>| {
            &&& #[trigger] leaf_root(t2, rs2)
            &&& records_map(rs2) == records_map(rs).remove(key)
            &&& records_size(rs2) <= records_size(rs)
        },
{
    let view = pages_of(t.pool());
    assert(descend(view, t.root(), key, t.pool().store().len()) == Some(t.root()));
    assert(leaf_records(view, t.root()) == rs);
    let rs2 = choose|rs2: Seq<RecordView>| {
        &&& #[trigger] keys_sorted(rs2)
        &&& records_map(rs2) == records_map(rs).remove(key)
        &&& records_size(rs2) <= records_size(rs)
        &&& match decode_node(view(t.root())) {
            NodeView::Leaf(lv) => decode_node(t2.pool().page(t.root())) == NodeView::Leaf(LeafView { parent: lv.parent, next: lv.next, records: rs2 }),
            NodeView::Internal(_) => false,
        }
    };
    assert forall|k: Seq<u8>| records_map(rs2).dom().contains(k) implies !is_overflow_handle(#[trigger] records_map(rs2)[k]) by {
        assert(records_map(rs).dom().contains(k));
    }
    assert(leaf_root(t2, rs2));
}

/// A prefix scan over records none of whose keys starts with `prefix` collects nothing.
pub proof fn lemma_scan_leaf_no_match(view: spec_fn(u32) -> Seq<u8>, rs: Seq<RecordView>, prefix: Seq<u8>, vfuel: nat)
    requires
        forall|k: Seq<u8>| #[trigger] records_map(rs).dom().contains(k) ==> !has_prefix(k, prefix),
    ensures
        scan_leaf(view, rs, prefix, vfuel) matches Some((out, _)) && out.len() == 0,
    decreases rs.len(),
{
    if rs.len() > 0 {
        crate::storage::ordered::lemma_records_map_dom(rs, rs[0].0);
        assert(records_map(rs).dom().contains(rs[0].0));
        assert(rs[0].0.subrange(0, 0) =~= Seq::<u8>::empty());
        if prefix.len() == 0 {
            assert(prefix =~= Seq::<u8>::empty());
            assert(has_prefix(rs[0].0, prefix));
        }
        assert forall|k: Seq<u8>| #[trigger] records_map(rs.drop_first()).dom().contains(k) implies !has_prefix(k, prefix) by {
            crate::storage::ordered::lemma_records_map_dom(rs.drop_first(), k);
            let i = choose|i: int| 0 <= i < rs.drop_first().len() && #[trigger] rs.drop_first()[i].0 == k;
            assert(rs[i + 1].0 == k);
            crate::storage::ordered::lemma_records_map_dom(rs, k);
        }
        lemma_scan_leaf_no_match(view, rs.drop_first(), prefix, vfuel);
    }
}

/// A prefix scan of a tree that is a single leaf, none of whose keys starts with the prefix,
/// finds nothing.
pub proof fn lemma_leaf_root_scan_empty(t: BTree, rs: Seq<RecordView>, prefix: Seq<u8>)
    requires
        leaf_root(t, rs),
        forall|k: Seq<u8>| #[trigger] records_map(rs).dom().contains(k) ==> !has_prefix(k, prefix),
    ensures
        scan_result(pages_of(t.pool()), t.root(), prefix, t.pool().store().len()) == Some(Seq::<PairView>::empty()),
{
    let view = pages_of(t.pool());
    let n = t.pool().store().len();
    assert(descend(view, t.root(), prefix, n) == Some(t.root()));
    lemma_scan_leaf_no_match(view, rs, prefix, n);
    let (out, stop) = scan_leaf(view, rs, prefix, n)->0;
    assert(out =~= Seq::<PairView>::empty());
    assert(decode_node(view(t.root())) == NodeView::Leaf(LeafView { parent: None, next: None, records: rs }));
    assert(scan_from(view, LeafView { parent: None, next: None, records: rs }, prefix, n, n) == Some(out));
}

/// A leaf whose values are all inline reads back every record a prefix scan reaches.
proof fn lemma_scan_leaf_inline(view: spec_fn(u32) -> Seq<u8>, rs: Seq<RecordView>, prefix: Seq<u8>, vfuel: nat)
    requires
        forall|i: int| 0 <= i < rs.len() ==> !is_overflow_handle(#[trigger] rs[i].1),
    ensures
        scan_leaf(view, rs, prefix, vfuel) is Some,
    decreases rs.len(),
{
    if rs.len() > 0 {
        assert(!is_overflow_handle(rs[0].1));
        assert forall|i: int| 0 <= i < rs.drop_first().len() implies !is_overflow_handle(#[trigger] rs.drop_first()[i].1) by {
            assert(rs.drop_first()[i] == rs[i + 1]);
        }
        lemma_scan_leaf_inline(view, rs.drop_first(), prefix, vfuel);
    }
}

/// A prefix scan of a tree that is a single leaf always completes.
pub proof fn lemma_leaf_root_scan(t: BTree, rs: Seq<RecordView>, prefix: Seq<u8>)
    requires
        leaf_root(t, rs),
    ensures
        scan_result(pages_of(t.pool()), t.root(), prefix, t.pool().store().len()) is Some,
{
    let view = pages_of(t.pool());
    let n = t.pool().store().len();
    assert(descend(view, t.root(), prefix, n) == Some(t.root()));
    assert forall|i: int| 0 <= i < rs.len() implies !is_overflow_handle(#[trigger] rs[i].1) by {
        crate::storage::ordered::lemma_records_map_at(rs, i);
    }
    lemma_scan_leaf_inline(view, rs, prefix, n);
    assert(decode_node(view(t.root())) == NodeView::Leaf(LeafView { parent: None, next: None, records: rs }));
}

/// A new tree, an empty leaf at its root with no stale cached page, is a single leaf holding
/// no records.
pub proof fn lemma_empty_leaf_root(t: BTree)
    requires
        t.pool().coherent(),
        t.root() != NO_PAGE,
        decode_node(t.pool().page(t.root())) == NodeView::Leaf(LeafView { parent: None, next: None, records: Seq::empty() }),
    ensures
        leaf_root(t, Seq::empty()),
{
    assert(records_map(Seq::<RecordView>::empty()).dom() =~= Set::<Seq<u8>>::empty());
}

/// The conditions under which the tree promises that a delete of `key` leaves it absent: no
/// stale cached pages, a sorted leaf that keeps a record or is the root, and no overflow chain
/// under the removed value.
pub open spec fn delete_in_place(t: BTree, key: Seq<u8>) -> bool {
    let view = pages_of(t.pool());
    &&& t.pool().coherent()
    &&& match descend(view, t.root(), key, t.pool().store().len()) {
        Some(l) => {
            let rs = leaf_records(view, l);
            &&& l != NO_PAGE
            &&& keys_sorted(rs)
            &&& (records_map(rs).dom().contains(key) ==> !is_overflow_handle(records_map(rs)[key]))
            &&& (records_map(rs).dom().contains(key) && rs.len() == 1 ==> l == t.root())
        },
        None => false,
    }
}

impl BTree {
    /// Inserts or replaces `key`. A value longer than `MAX_INLINE_VAL_SIZE` goes to an
    /// overflow chain; a leaf that no longer fits in a page is split.
    #[verifier::spinoff_prover]
    #[verifier::rlimit(100)]
    pub fn insert(&mut self, key: &[u8], value: &[u8]) -> (r: Result<(), StorageError>)
        requires
            old(self).wf(),
        ensures
            final(self).wf(),
            key@.len() > MAX_KEY_SIZE ==> r == Err::<(), StorageError>(StorageError::KeyTooLarge { size: key@.len() as usize }) && *final(self) == *old(self),
            inline_put_fits(*old(self), key@, value@) ==> r is Ok && final(self).lookup(key@) == Some(Some(value@)) && final(self).pool().coherent()
                && final(self).sorted_leaf_for(key@) && put_in_place(*old(self), *final(self), key@, value@),
            forall|k2: Seq<u8>|
                inline_put_fits(*old(self), key@, value@) && k2 != key@ && inline_stored(*old(self), k2)
                    ==> #[trigger] final(self).lookup(k2) == old(self).lookup(k2),
    {
        let ghost pool0 = self.pool();
        let ghost view0 = pages_of(pool0);
        let ghost law = inline_put_fits(*old(self), key@, value@);
        if key.len() > MAX_KEY_SIZE {
            return Err(StorageError::KeyTooLarge { size: key.len() });
        }
        let stored_val = if value.len() > MAX_INLINE_VAL_SIZE {
            match self.write_overflow_value(value) {
                Ok(h) => h,
                Err(e) => {
                    return Err(e);
                },
            }
        } else {
            copy_bytes(value)
        };
        assert(stored_val@.len() <= MAX_INLINE_VAL_SIZE);
        proof {
            if law {
                assert(stored_val@ == value@);
                assert(self.buffer_pool == pool0);
            }
        }
        let fuel = self.buffer_pool.get_num_pages();
        let root_id = self.root_page_id;
        let ghost pool1a = self.pool();
        let root_node = self.read_node(root_id);
        let ghost pool1 = self.pool();
        proof {
            if law {
                lemma_pages_kept_view(pool1a, pool1);
            }
        }
        let (leaf_id, mut leaf_node) = match self.find_leaf_for_insert(root_id, root_node, key, fuel) {
            Ok(found) => found,
            Err(e) => {
                return Err(e);
            },
        };
        let ghost pool2 = self.pool();
        let ghost old_records = records_view(leaf_node.records@);
        let ghost stored_val_view = stored_val@;
        proof {
            if law {
                lemma_pages_kept_view(pool1, pool2);
                assert(leaf_id == descend(view0, old(self).root(), key@, fuel as nat)->0);
                assert(old_records == leaf_records(view0, leaf_id));
                pool0.lemma_wf();
                lemma_decoded_size(view0(leaf_id));
            }
        }
        let (pos, found) = search_records(&leaf_node.records, key);
        proof {
            if law {
                lemma_search_found(old_records, key@, pos as int);
                crate::storage::ordered::lemma_records_map_dom(old_records, key@);
                if found {
                    crate::storage::ordered::lemma_records_map_at(old_records, pos as int);
                }
                crate::storage::ordered::lemma_put_record(old_records, key@, value@, pos as int);
            }
        }
        if found {
            let old_val = copy_bytes(leaf_node.records[pos].1.as_slice());
            match self.free_overflow_chain(old_val.as_slice()) {
                Ok(()) => {},
                Err(e) => {
                    return Err(e);
                },
            }
            let k = copy_bytes(key);
            leaf_node.records.set(pos, (k, stored_val));
            proof {
                assert(pos < old_records.len());
            }
        } else {
            let k = copy_bytes(key);
            leaf_node.records.insert(pos, (k, stored_val));
        }
        if leaf_id == NO_PAGE {
            return Err(StorageError::CorruptPage { page_id: leaf_id });
        }
        let ghost pool3 = self.pool();
        proof {
            lemma_put_size(old_records, pos as int, found, key@, stored_val_view);
            assert(records_view(leaf_node.records@) =~= crate::storage::ordered::put_record(old_records, pos as int, found, key@, stored_val_view));
            lemma_put_keys_bounded(old_records, pos as int, found, key@, stored_val_view);
            assert forall|i: int| 0 <= i < leaf_node.records@.len() implies (#[trigger] leaf_node.records@[i]).0@.len() <= PAGE_SIZE by {
                assert(records_view(leaf_node.records@)[i].0 == leaf_node.records@[i].0@);
            }
            if law {
                assert(pool3 == pool2);
            }
        }
        let ghost new_leaf = leaf_node.view();
        let updated_leaf = Node::Leaf(leaf_node);
        if updated_leaf.encoded_size() > PAGE_SIZE {
            match updated_leaf {
                Node::Leaf(l) => self.split_leaf_and_insert(leaf_id, l),
                Node::Internal(_) => Ok(()),
            }
        } else {
            let written = self.write_node(leaf_id, &updated_leaf);
            proof {
                if law {
                    let view3 = pages_of(self.pool());
                    assert(crate::storage::btree::storable(NodeView::Leaf(new_leaf)));
                    crate::storage::btree::lemma_node_page_roundtrip(NodeView::Leaf(new_leaf));
                    assert(decode_node(view3(leaf_id)) == NodeView::Leaf(new_leaf));
                    assert forall|j: u32| j != leaf_id implies #[trigger] view3(j) == view0(j) by {
                        assert(pool2.fresh(j));
                        assert(self.pool().fresh(j));
                    }
                    lemma_readback(view0, view3, old(self).root(), key@, Some(value@), fuel as nat, self.pool().store().len(), leaf_id, new_leaf);
                    lemma_descend_leaf(view0, old(self).root(), key@, fuel as nat);
                    assert forall|k2: Seq<u8>| k2 != key@ && inline_stored(*old(self), k2) implies #[trigger] self.lookup(k2) == old(self).lookup(k2) by {
                        lemma_readback_other(view0, view3, old(self).root(), key@, k2, fuel as nat, self.pool().store().len(), leaf_id);
                    }
                    let rs2 = new_leaf.records;
                    assert(keys_sorted(rs2));
                    assert(records_map(rs2) == records_map(old_records).insert(key@, value@));
                    assert(records_size(rs2) <= records_size(old_records) + 8 + key@.len() + value@.len());
                    assert forall|j: u32| j != leaf_id implies #[trigger] self.pool().page(j) == old(self).pool().page(j) by {
                        assert(view3(j) == view0(j));
                    }
                    assert(put_in_place(*old(self), *self, key@, value@));
                }
            }
            written
        }
    }
}


/// The view of a node with its parent link set to `parent`.
pub open spec fn parented(n: NodeView, parent: u32) -> NodeView {
    match n {
        NodeView::Leaf(l) => NodeView::Leaf(LeafView { parent: Some(parent), next: l.next, records: l.records }),
        NodeView::Internal(i) => NodeView::Internal(crate::storage::btree::InternalView { parent: Some(parent), keys: i.keys, children: i.children }),
    }
}

/// The node with its parent link set to `parent`.
fn with_parent(node: Node, parent: PageId) -> (r: Node)
    ensures
        node_size(r.view()) == node_size(node.view()),
        r.view() == parented(node.view(), parent),
{
    match node {
        Node::Leaf(l) => Node::Leaf(LeafNode { parent_page_id: Some(parent), next_leaf: l.next_leaf, records: l.records }),
        Node::Internal(i) => Node::Internal(InternalNode { parent_page_id: Some(parent), keys: i.keys, children: i.children }),
    }
}

/// Splits internal node `node` around its middle key: the key, the left half and the right
/// half; `None` where it has too few children to split.
fn halve_internal(node: InternalNode) -> (r: Option<(Vec<u8>, InternalNode, InternalNode)>)
    requires
        node.keys@.len() > 0,
        node_size(NodeView::Internal(node.view())) <= size_bound(),
        forall|i: int| 0 <= i < node.keys@.len() ==> (#[trigger] node.keys@[i])@.len() <= PAGE_SIZE,
    ensures
        node.children@.len() < node.keys@.len() / 2 + 1 <==> r is None,
        r is Some ==> {
            let (key, left, right) = r->Some_0;
            &&& key@ == node.view().keys[(node.keys@.len() / 2) as int]
            &&& key@.len() <= PAGE_SIZE
            &&& NodeView::Internal(left.view()) == internal_halves(node.view()).0
            &&& NodeView::Internal(right.view()) == internal_halves(node.view()).1
            &&& node_size(internal_halves(node.view()).0) <= size_bound()
            &&& node_size(internal_halves(node.view()).1) <= size_bound()
        },
{
    let ghost n = node.view();
    let mut node = node;
    let ghost ks0 = keys_view(node.keys@);
    let ghost cs0 = node.children@;
    let mid = node.keys.len() / 2;
    let push_up_key = node.keys.remove(mid);
    let right_keys = node.keys.split_off(mid);
    if mid + 1 > node.children.len() {
        return None;
    }
    let right_children = node.children.split_off(mid + 1);
    proof {
        let left_ks = keys_view(node.keys@);
        let right_ks = keys_view(right_keys@);
        assert(ks0 =~= left_ks + seq![push_up_key@] + right_ks);
        lemma_keys_size_concat(left_ks + seq![push_up_key@], right_ks);
        lemma_keys_size_concat(left_ks, seq![push_up_key@]);
        lemma_keys_size_single(push_up_key@);
        crate::storage::btree::lemma_keys_size(left_ks);
        crate::storage::btree::lemma_keys_size(right_ks);
        assert(cs0 =~= node.children@ + right_children@);
        assert(left_ks =~= ks0.subrange(0, mid as int));
        assert(right_ks =~= ks0.subrange(mid + 1, ks0.len() as int));
        assert(node.children@ =~= cs0.subrange(0, mid + 1));
        assert(right_children@ =~= cs0.subrange(mid + 1, cs0.len() as int));
    }
    let parent = node.parent_page_id;
    let right = InternalNode { parent_page_id: parent, keys: right_keys, children: right_children };
    proof {
        assert(NodeView::Internal(node.view()) == internal_halves(n).0);
        assert(NodeView::Internal(right.view()) == internal_halves(n).1);
    }
    Some((push_up_key, node, right))
}

impl BTree {
    /// Splits an overfull leaf in two halves by record count, links the new right leaf after
    /// it and inserts the right leaf's first key into the parent (a new root when there is
    /// none).
    #[verifier::spinoff_prover]
    #[verifier::rlimit(100)]
    fn split_leaf_and_insert(&mut self, leaf_id: PageId, leaf_node: LeafNode) -> (r: Result<(), StorageError>)
        requires
            old(self).wf(),
            leaf_id < u32::MAX,
            node_size(NodeView::Leaf(leaf_node.view())) <= size_bound(),
            leaf_node.records@.len() > 0,
            forall|i: int| 0 <= i < leaf_node.records@.len() ==> (#[trigger] leaf_node.records@[i]).0@.len() <= PAGE_SIZE,
        ensures
            final(self).wf(),
            old(self).pool().store().len() == u32::MAX ==> r == Err::<(), StorageError>(StorageError::StoreFull) && *final(self) == *old(self),
            old(self).pool().store().len() < u32::MAX && old(self).pool().coherent() ==> match leaf_node.view().parent {
                Some(pid) => {
                    let nid = crate::storage::pager::spec_allocated_id(old(self).pool().store());
                    let halves = split_halves(leaf_node.view(), nid);
                    pid != NO_PAGE && pid != 0 && pid != leaf_id && pid != nid && nid != leaf_id && node_size(halves.0) <= PAGE_SIZE
                        && node_size(halves.1) <= PAGE_SIZE ==> match decode_node(old(self).pool().page(pid)) {
                        NodeView::Internal(n) => {
                            let key = records_view(leaf_node.records@)[(records_view(leaf_node.records@).len() / 2) as int].0;
                            separators_sorted(n.keys) && separator_pos(n.keys, key) < n.children.len() && node_size(grown_node(n, key, nid)) <= PAGE_SIZE ==> {
                                &&& r is Ok
                                &&& final(self).root() == old(self).root()
                                &&& final(self).pool().page(leaf_id) == node_image(halves.0)
                                &&& final(self).pool().page(nid) == node_image(halves.1)
                                &&& final(self).pool().page(pid) == node_image(grown_node(n, key, nid))
                                &&& forall|j: u32| j != 0 && j != leaf_id && j != nid && j != pid ==> #[trigger] final(self).pool().page(j) == old(self).pool().page(j)
                            }
                        },
                        NodeView::Leaf(_) => {
                            &&& r is Ok
                            &&& final(self).root() == old(self).root()
                            &&& final(self).pool().page(leaf_id) == node_image(halves.0)
                            &&& final(self).pool().page(nid) == node_image(halves.1)
                            &&& forall|j: u32| j != 0 && j != leaf_id && j != nid ==> #[trigger] final(self).pool().page(j) == old(self).pool().page(j)
                        },
                    }
                },
                None => r is Ok ==> split_under_new_root(old(self).pool(), final(self).pool(), final(self).root(), leaf_id, leaf_node.view(),
                    records_view(leaf_node.records@)[(records_view(leaf_node.records@).len() / 2) as int].0),
            },
    {
        let ghost pool0 = self.buffer_pool;
        let ghost lv = leaf_node.view();
        let ghost key = records_view(leaf_node.records@)[(records_view(leaf_node.records@).len() / 2) as int].0;
        let parent = leaf_node.parent_page_id;
        let (new_leaf_id, split_key, left_records) = match self.write_split_halves(leaf_id, leaf_node) {
            Ok(t) => t,
            Err(e) => {
                return Err(e);
            },
        };
        let ghost pool3 = self.buffer_pool;
        match parent {
            Some(parent_id) => {
                if parent_id == NO_PAGE {
                    return Err(StorageError::CorruptPage { page_id: leaf_id });
                }
                let ghost near = pool0.coherent() && parent_id != 0 && parent_id != leaf_id && parent_id != new_leaf_id && new_leaf_id != leaf_id;
                proof {
                    self.buffer_pool.lemma_wf();
                    if near {
                        assert(pool0.fresh(parent_id));
                        assert(pool3.fresh(parent_id));
                        assert(pool3.page(parent_id) == pool0.page(parent_id));
                        assert(pool3.fresh(leaf_id));
                        assert(pool3.fresh(new_leaf_id));
                        assert forall|j: u32| j != 0 && j != leaf_id && j != new_leaf_id && j != parent_id implies #[trigger] pool3.page(j) == pool0.page(j) && pool3.fresh(j) by {
                            assert(pool0.fresh(j));
                            assert(pool3.fresh(j));
                        }
                    }
                }
                let fuel = self.buffer_pool.get_num_pages();
                assert(fuel > 0);
                let res = self.insert_into_internal(parent_id, split_key, new_leaf_id, fuel);
                proof {
                    let ok_case = match decode_node(pool0.page(parent_id)) {
                        NodeView::Leaf(_) => true,
                        NodeView::Internal(n) => separators_sorted(n.keys) && separator_pos(n.keys, key) < n.children.len()
                            && node_size(grown_node(n, key, new_leaf_id)) <= PAGE_SIZE,
                    };
                    if near && ok_case {
                        let pool4 = self.buffer_pool;
                        assert(pool4.fresh(leaf_id));
                        assert(pool4.page(leaf_id) == pool3.page(leaf_id));
                        assert(pool4.fresh(new_leaf_id));
                        assert(pool4.page(new_leaf_id) == pool3.page(new_leaf_id));
                        assert forall|j: u32| j != 0 && j != leaf_id && j != new_leaf_id && j != parent_id implies #[trigger] pool4.page(j) == pool0.page(j) by {
                            assert(pool3.fresh(j));
                        }
                    }
                }
                res
            },
            None => {
                proof {
                    self.buffer_pool.lemma_wf();
                }
                let res = self.grow_root(leaf_id, new_leaf_id, split_key, &left_records);
                proof {
                    if res is Ok {
                        lemma_split_under_new_root(pool0, pool3, self.buffer_pool, self.root_page_id, leaf_id, lv, key, records_view(left_records@));
                    }
                }
                res
            },
        }
    }

    /// Writes the two halves of an overfull leaf split by record count: the left half stays
    /// at `leaf_id` and links to a newly allocated page, which takes the right half. Gives
    /// back that page, the right half's first key and the left half's records.
    #[verifier::spinoff_prover]
    #[verifier::rlimit(100)]
    fn write_split_halves(&mut self, leaf_id: PageId, leaf_node: LeafNode) -> (r: Result<(PageId, Vec<u8>, Vec<(Vec<u8>, Vec<u8>)>), StorageError>)
        requires
            old(self).wf(),
            leaf_id < u32::MAX,
            node_size(NodeView::Leaf(leaf_node.view())) <= size_bound(),
            leaf_node.records@.len() > 0,
            forall|i: int| 0 <= i < leaf_node.records@.len() ==> (#[trigger] leaf_node.records@[i]).0@.len() <= PAGE_SIZE,
        ensures
            final(self).wf(),
            final(self).root() == old(self).root(),
            old(self).pool().store().len() == u32::MAX ==> r == Err::<(PageId, Vec<u8>, Vec<(Vec<u8>, Vec<u8>)>), StorageError>(StorageError::StoreFull) && *final(self) == *old(self),
            ({
                let nid = crate::storage::pager::spec_allocated_id(old(self).pool().store());
                let halves = split_halves(leaf_node.view(), nid);
                &&& old(self).pool().store().len() < u32::MAX && node_size(halves.0) <= PAGE_SIZE && node_size(halves.1) <= PAGE_SIZE ==> r is Ok
                &&& r is Ok ==> {
                    &&& r->Ok_0.0 == nid
                    &&& nid < u32::MAX
                    &&& nid != 0
                    &&& r->Ok_0.1@ == records_view(leaf_node.records@)[(records_view(leaf_node.records@).len() / 2) as int].0
                    &&& r->Ok_0.1@.len() <= PAGE_SIZE
                    &&& records_size(records_view(r->Ok_0.2@)) <= size_bound()
                    &&& records_view(r->Ok_0.2@) == records_view(leaf_node.records@).subrange(0, (records_view(leaf_node.records@).len() / 2) as int)
                    &&& final(self).pool().page(nid) == node_image(halves.1)
                    &&& final(self).pool().fresh(nid)
                    &&& nid != leaf_id ==> final(self).pool().page(leaf_id) == node_image(halves.0) && final(self).pool().fresh(leaf_id)
                }
                &&& forall|j: u32|
                    #![trigger final(self).pool().fresh(j)]
                    j != 0 && j != leaf_id && j != nid && old(self).pool().fresh(j) ==> final(self).pool().fresh(j) && final(self).pool().page(j) == old(self).pool().page(j)
            }),
    {
        let ghost pool0 = self.buffer_pool;
        let ghost orig = leaf_node.records@;
        let mut leaf_node = leaf_node;
        let ghost all = records_view(leaf_node.records@);
        let mid = leaf_node.records.len() / 2;
        let right_records = leaf_node.records.split_off(mid);
        proof {
            assert(records_view(leaf_node.records@) + records_view(right_records@) =~= all);
            lemma_records_size_concat(records_view(leaf_node.records@), records_view(right_records@));
            crate::storage::btree::lemma_records_size(records_view(leaf_node.records@));
            crate::storage::btree::lemma_records_size(records_view(right_records@));
            assert(right_records@[0] == orig[mid as int]);
        }
        let split_key = copy_bytes(right_records[0].0.as_slice());
        proof {
            self.buffer_pool.lemma_wf();
        }
        if self.buffer_pool.get_num_pages() == 0xFFFF_FFFFu32 {
            return Err(StorageError::StoreFull);
        }
        let new_leaf_id = self.buffer_pool.allocate_page();
        let ghost pool1 = self.buffer_pool;
        let parent = leaf_node.parent_page_id;
        let new_leaf_node = LeafNode { parent_page_id: parent, next_leaf: leaf_node.next_leaf, records: right_records };
        let left_records = copy_records(&leaf_node.records);
        let left = Node::Leaf(LeafNode { parent_page_id: parent, next_leaf: Some(new_leaf_id), records: left_records });
        let ghost halves = split_halves(LeafView { parent: parent, next: leaf_node.view().next, records: all }, new_leaf_id);
        proof {
            assert(all.len() == orig.len());
            assert(records_view(left_records@) =~= all.subrange(0, (all.len() / 2) as int));
            assert(records_view(right_records@) =~= all.subrange((all.len() / 2) as int, all.len() as int));
            assert(left.view() == halves.0);
            assert(Node::Leaf(new_leaf_node).view() == halves.1);
        }
        match self.write_node(leaf_id, &left) {
            Ok(()) => {},
            Err(e) => {
                return Err(e);
            },
        }
        let ghost pool2 = self.buffer_pool;
        match self.write_node(new_leaf_id, &Node::Leaf(new_leaf_node)) {
            Ok(()) => {},
            Err(e) => {
                proof {
                    assert forall|j: u32| j != 0 && j != leaf_id && j != new_leaf_id && pool0.fresh(j) implies #[trigger] self.buffer_pool.fresh(j) && self.buffer_pool.page(j) == pool0.page(j) by {
                        assert(pool1.fresh(j));
                        assert(pool1.page(j) == pool0.page(j));
                        assert(pool2.fresh(j));
                    }
                }
                return Err(e);
            },
        }
        proof {
            assert forall|j: u32| j != 0 && j != leaf_id && j != new_leaf_id && pool0.fresh(j) implies #[trigger] self.buffer_pool.fresh(j) && self.buffer_pool.page(j) == pool0.page(j) by {
                assert(pool1.fresh(j));
                assert(pool1.page(j) == pool0.page(j));
                assert(pool2.fresh(j));
            }
        }
        Ok((new_leaf_id, split_key, leaf_node.records))
    }

    /// Puts a new root above the two halves of a split leaf: it holds `split_key` between
    /// `leaf_id` and `new_leaf_id`, both halves point up to it, and the meta page records it.
    #[verifier::spinoff_prover]
    #[verifier::rlimit(100)]
    fn grow_root(&mut self, leaf_id: PageId, new_leaf_id: PageId, split_key: Vec<u8>, left_records: &Vec<(Vec<u8>, Vec<u8>)>) -> (r: Result<(), StorageError>)
        requires
            old(self).wf(),
            leaf_id < u32::MAX,
            new_leaf_id < u32::MAX,
            split_key@.len() <= PAGE_SIZE,
            records_size(records_view(left_records@)) <= size_bound(),
        ensures
            final(self).wf(),
            old(self).pool().store().len() == u32::MAX ==> r == Err::<(), StorageError>(StorageError::StoreFull) && *final(self) == *old(self),
            r is Ok ==> u32_at(final(self).pool().page(0), META_ROOT_OFFSET as int) == final(self).root(),
            ({
                let rid = crate::storage::pager::spec_allocated_id(old(self).pool().store());
                let top = NodeView::Internal(crate::storage::btree::InternalView { parent: None, keys: seq![split_key@], children: seq![leaf_id, new_leaf_id] });
                let left = NodeView::Leaf(LeafView { parent: Some(rid), next: Some(new_leaf_id), records: records_view(left_records@) });
                let right0 = decode_node(old(self).pool().page(new_leaf_id));
                let right = if right0 is Leaf { parented(right0, rid) } else { right0 };
                &&& r is Ok ==> final(self).root() == rid && old(self).pool().store().len() < u32::MAX
                &&& old(self).pool().store().len() < u32::MAX && node_size(top) <= PAGE_SIZE && node_size(left) <= PAGE_SIZE && leaf_id != 0 && new_leaf_id != 0
                    && leaf_id != new_leaf_id && rid != leaf_id && rid != new_leaf_id && old(self).pool().fresh(leaf_id) && old(self).pool().fresh(new_leaf_id) ==> {
                    &&& r is Ok
                    &&& final(self).pool().page(rid) == node_image(top)
                    &&& final(self).pool().page(leaf_id) == node_image(left)
                    &&& final(self).pool().page(new_leaf_id) == node_image(right)
                    &&& forall|j: u32|
                        #![trigger final(self).pool().fresh(j)]
                        j != 0 && j != rid && j != leaf_id && j != new_leaf_id && old(self).pool().fresh(j) ==> final(self).pool().fresh(j) && final(self).pool().page(j) == old(self).pool().page(j)
                }
            }),
    {
        let ghost p0 = self.buffer_pool;
        proof {
            self.buffer_pool.lemma_wf();
        }
        if self.buffer_pool.get_num_pages() == 0xFFFF_FFFFu32 {
            return Err(StorageError::StoreFull);
        }
        let new_root_id = self.buffer_pool.allocate_page();
        let ghost p1 = self.buffer_pool;
        let ghost go = p0.fresh(leaf_id) && p0.fresh(new_leaf_id) && leaf_id != 0 && new_leaf_id != 0 && leaf_id != new_leaf_id
            && new_root_id != leaf_id && new_root_id != new_leaf_id;
        let ghost top = NodeView::Internal(crate::storage::btree::InternalView { parent: None, keys: seq![split_key@], children: seq![leaf_id, new_leaf_id] });
        let ghost left = NodeView::Leaf(LeafView { parent: Some(new_root_id), next: Some(new_leaf_id), records: records_view(left_records@) });
        let mut keys: Vec<Vec<u8>> = Vec::new();
        keys.push(split_key);
        let mut children: Vec<PageId> = Vec::new();
        children.push(leaf_id);
        children.push(new_leaf_id);
        let root = Node::Internal(InternalNode { parent_page_id: None, keys, children });
        proof {
            lemma_keys_size_single(keys@[0]@);
            assert(keys_view(keys@) =~= seq![keys@[0]@]);
            assert(children@ =~= seq![leaf_id, new_leaf_id]);
            assert(root.view() == top);
        }
        match self.write_node(new_root_id, &root) {
            Ok(()) => {},
            Err(e) => {
                return Err(e);
            },
        }
        let ghost p2 = self.buffer_pool;
        let left_records2 = copy_records(left_records);
        let left_leaf = Node::Leaf(LeafNode { parent_page_id: Some(new_root_id), next_leaf: Some(new_leaf_id), records: left_records2 });
        assert(left_leaf.view() == left);
        match self.write_node(leaf_id, &left_leaf) {
            Ok(()) => {},
            Err(e) => {
                return Err(e);
            },
        }
        let ghost p3 = self.buffer_pool;
        proof {
            if go {
                assert(p1.fresh(new_leaf_id));
                assert(p2.fresh(new_leaf_id));
                assert(p3.fresh(new_leaf_id));
                assert(p3.page(new_leaf_id) == p0.page(new_leaf_id));
            }
        }
        let right_leaf = self.read_node(new_leaf_id);
        let ghost p4 = self.buffer_pool;
        let right_leaf = match right_leaf {
            Node::Leaf(_) => with_parent(right_leaf, new_root_id),
            Node::Internal(_) => right_leaf,
        };
        match self.write_node(new_leaf_id, &right_leaf) {
            Ok(()) => {},
            Err(e) => {
                return Err(e);
            },
        }
        let ghost p5 = self.buffer_pool;
        proof {
            self.buffer_pool.lemma_wf();
            assert(p5.page(0).len() == PAGE_SIZE);
            if go {
                assert(p4.fresh(new_root_id));
                assert(p4.fresh(leaf_id));
                assert(p5.fresh(new_root_id));
                assert(p5.fresh(leaf_id));
                assert(p5.page(new_root_id) == node_image(top));
                assert(p5.page(leaf_id) == node_image(left));
            }
        }
        self.root_page_id = new_root_id;
        self.persist_root_page_id(new_root_id);
        proof {
            self.buffer_pool.lemma_wf();
            let pg = self.buffer_pool.page(0);
            crate::codec::lemma_le_u32_roundtrip(new_root_id);
            assert(pg.subrange(META_ROOT_OFFSET as int, META_ROOT_OFFSET as int + 4) =~= crate::codec::le_u32(new_root_id));
            if go {
                assert(self.buffer_pool.fresh(new_root_id));
                assert(self.buffer_pool.fresh(leaf_id));
                assert(self.buffer_pool.fresh(new_leaf_id));
                assert forall|j: u32| j != 0 && j != new_root_id && j != leaf_id && j != new_leaf_id && p0.fresh(j) implies #[trigger] self.buffer_pool.fresh(j) && self.buffer_pool.page(j) == p0.page(j) by {
                    assert(p1.fresh(j));
                    assert(p2.fresh(j));
                    assert(p3.fresh(j));
                    assert(p4.fresh(j));
                    assert(p5.fresh(j));
                }
            }
        }
        Ok(())
    }

    /// Inserts separator `key` with its right child into the internal node at `parent_id`,
    /// splitting it when it overflows; the walk up takes at most `fuel` levels. A parent page
    /// that holds a leaf is left alone.
    fn insert_into_internal(&mut self, parent_id: PageId, key: Vec<u8>, right_child_id: PageId, fuel: u32) -> (r: Result<(), StorageError>)
        requires
            old(self).wf(),
            parent_id < u32::MAX,
            key@.len() <= PAGE_SIZE,
        ensures
            final(self).wf(),
            fuel == 0 ==> r == Err::<(), StorageError>(StorageError::CorruptPage { page_id: parent_id }) && *final(self) == *old(self),
            fuel > 0 ==> match decode_node(old(self).pool().page(parent_id)) {
                NodeView::Leaf(_) => r is Ok && final(self).root() == old(self).root() && pages_kept(old(self).pool(), final(self).pool()),
                NodeView::Internal(n) => separators_sorted(n.keys) ==> {
                    &&& lower_bound_at(n.keys, key@, separator_pos(n.keys, key@))
                    &&& (separator_pos(n.keys, key@) >= n.children.len() ==> r == Err::<(), StorageError>(StorageError::CorruptPage { page_id: parent_id })
                        && pages_kept(old(self).pool(), final(self).pool()))
                    &&& (separator_pos(n.keys, key@) < n.children.len() && node_size(grown_node(n, key@, right_child_id)) <= PAGE_SIZE ==> {
                        &&& r is Ok
                        &&& final(self).root() == old(self).root()
                        &&& final(self).pool().page(parent_id) == node_image(grown_node(n, key@, right_child_id))
                        &&& pages_kept_but(old(self).pool(), final(self).pool(), parent_id)
                    })
                    &&& (separator_pos(n.keys, key@) < n.children.len() && node_size(grown_node(n, key@, right_child_id)) > PAGE_SIZE
                        && old(self).pool().coherent() && n.parent is Some ==> exists|mid: BufferPool| #![trigger pages_of(mid)] {
                        &&& pages_of(mid) == pages_of(old(self).pool())
                        &&& split_under_parent(mid, final(self).pool(), r is Ok, old(self).root(), final(self).root(), parent_id,
                            grown_node(n, key@, right_child_id)->Internal_0, n.parent->0, fuel)
                    })
                },
            },
        decreases fuel, 1int,
    {
        if fuel == 0 {
            return Err(StorageError::CorruptPage { page_id: parent_id });
        }
        let ghost pool0 = self.buffer_pool;
        let parent_node = self.read_node(parent_id);
        let ghost pool1 = self.buffer_pool;
        proof {
            if pool0.coherent() {
                lemma_pages_kept_view(pool0, pool1);
            }
        }
        match parent_node {
            Node::Internal(internal) => {
                let mut internal = internal;
                let ghost n = internal.view();
                let pos = keys_lower_bound(&internal.keys, key.as_slice());
                proof {
                    if separators_sorted(n.keys) {
                        assert forall|i: int| 0 <= i < pos implies #[trigger] bytes_lt(n.keys[i], key@) by {
                            assert(n.keys[i] == internal.keys@[i]@);
                        }
                        assert forall|i: int| pos <= i < n.keys.len() implies !#[trigger] bytes_lt(n.keys[i], key@) by {
                            assert(n.keys[i] == internal.keys@[i]@);
                        }
                        assert(lower_bound_at(n.keys, key@, pos as int));
                        lemma_separator_pos(n.keys, key@, pos as int);
                    }
                }
                if pos >= internal.children.len() {
                    return Err(StorageError::CorruptPage { page_id: parent_id });
                }
                let ghost ks0 = keys_view(internal.keys@);
                let ghost key_view = key@;
                proof {
                    crate::storage::btree::lemma_keys_size(ks0);
                    assert forall|i: int| 0 <= i < ks0.len() implies (#[trigger] ks0[i]).len() <= PAGE_SIZE by {
                        lemma_key_in_size(ks0, i);
                    }
                }
                internal.keys.insert(pos, key);
                internal.children.insert(pos + 1, right_child_id);
                proof {
                    assert forall|i: int| 0 <= i < internal.keys@.len() implies (#[trigger] internal.keys@[i])@.len() <= PAGE_SIZE by {
                        assert(keys_view(internal.keys@)[i] == internal.keys@[i]@);
                        if i < pos {
                            assert(internal.keys@[i]@ == ks0[i]);
                        } else if i > pos {
                            assert(internal.keys@[i]@ == ks0[i - 1]);
                        }
                    }
                }
                proof {
                    let before = ks0.subrange(0, pos as int);
                    let after = ks0.subrange(pos as int, ks0.len() as int);
                    assert(ks0 =~= before + after);
                    assert(keys_view(internal.keys@) =~= before + seq![key_view] + after);
                    lemma_keys_size_concat(before, after);
                    lemma_keys_size_concat(before + seq![key_view], after);
                    lemma_keys_size_concat(before, seq![key_view]);
                    lemma_keys_size_single(key_view);
                    crate::storage::btree::lemma_keys_size(before);
                    crate::storage::btree::lemma_keys_size(after);
                }
                proof {
                    assert(keys_view(internal.keys@) =~= n.keys.insert(pos as int, key_view));
                    assert(internal.children@ =~= n.children.insert(pos + 1, right_child_id));
                }
                let updated = Node::Internal(internal);
                if updated.encoded_size() > PAGE_SIZE {
                    match updated {
                        Node::Internal(i) => {
                            let res = self.split_internal_and_insert(parent_id, i, fuel);
                            proof {
                                if pool0.coherent() {
                                    assert(pages_of(pool1) == pages_of(pool0));
                                }
                            }
                            res
                        },
                        Node::Leaf(_) => Ok(()),
                    }
                } else {
                    let w = self.write_node(parent_id, &updated);
                    proof {
                        assert(pool1.page(parent_id) == pool0.page(parent_id));
                        assert forall|j: u32|
                            #![trigger pool0.fresh(j)]
                            #![trigger self.pool().fresh(j)]
                            j != parent_id && pool0.fresh(j) implies self.pool().fresh(j) && self.pool().page(j) == pool0.page(j) by {
                            assert(pool1.fresh(j));
                        }
                    }
                    w
                }
            },
            Node::Leaf(_) => Ok(()),
        }
    }

    /// Writes the two halves of an overfull internal node split around its middle key: the
    /// left half stays at `internal_id`, the right half goes to a newly allocated page. Gives
    /// back that page, the middle key, the left half and the right half's children.
    #[verifier::spinoff_prover]
    #[verifier::rlimit(100)]
    fn write_internal_halves(&mut self, internal_id: PageId, internal_node: InternalNode) -> (r: Result<(PageId, Vec<u8>, InternalNode, Vec<PageId>), StorageError>)
        requires
            old(self).wf(),
            internal_id < u32::MAX,
            internal_node.keys@.len() > 0,
            node_size(NodeView::Internal(internal_node.view())) <= size_bound(),
            forall|i: int| 0 <= i < internal_node.keys@.len() ==> (#[trigger] internal_node.keys@[i])@.len() <= PAGE_SIZE,
        ensures
            final(self).wf(),
            final(self).root() == old(self).root(),
            internal_node.children@.len() < internal_node.keys@.len() / 2 + 1 ==> r == Err::<(PageId, Vec<u8>, InternalNode, Vec<PageId>), StorageError>(StorageError::CorruptPage { page_id: internal_id })
                && *final(self) == *old(self),
            internal_node.children@.len() >= internal_node.keys@.len() / 2 + 1 && old(self).pool().store().len() == u32::MAX
                ==> r == Err::<(PageId, Vec<u8>, InternalNode, Vec<PageId>), StorageError>(StorageError::StoreFull) && *final(self) == *old(self),
            internal_node.children@.len() >= internal_node.keys@.len() / 2 + 1 && old(self).pool().store().len() < u32::MAX
                && node_size(internal_halves(internal_node.view()).0) <= PAGE_SIZE && node_size(internal_halves(internal_node.view()).1) <= PAGE_SIZE ==> r is Ok,
            r is Ok ==> r->Ok_0.0 == crate::storage::pager::spec_allocated_id(old(self).pool().store()) && r->Ok_0.0 != 0 && r->Ok_0.0 < u32::MAX,
            r is Ok ==> r->Ok_0.1@ == internal_node.view().keys[(internal_node.view().keys.len() / 2) as int] && r->Ok_0.1@.len() <= PAGE_SIZE,
            r is Ok ==> NodeView::Internal(r->Ok_0.2.view()) == internal_halves(internal_node.view()).0 && node_size(internal_halves(internal_node.view()).0) <= size_bound(),
            r is Ok ==> r->Ok_0.3@ == internal_node.children@.subrange((internal_node.keys@.len() / 2 + 1) as int, internal_node.children@.len() as int),
            r is Ok ==> final(self).pool().page(r->Ok_0.0) == node_image(internal_halves(internal_node.view()).1) && final(self).pool().fresh(r->Ok_0.0),
            r is Ok && r->Ok_0.0 != internal_id ==> final(self).pool().page(internal_id) == node_image(internal_halves(internal_node.view()).0)
                && final(self).pool().fresh(internal_id),
            forall|j: u32|
                #![trigger final(self).pool().fresh(j)]
                j != 0 && j != internal_id && j != crate::storage::pager::spec_allocated_id(old(self).pool().store()) && old(self).pool().fresh(j)
                    ==> final(self).pool().fresh(j) && final(self).pool().page(j) == old(self).pool().page(j),
    {
        let ghost pool0 = self.buffer_pool;
        let ghost n = internal_node.view();
        let (push_up_key, internal_node, right) = match halve_internal(internal_node) {
            Some(t) => t,
            None => {
                return Err(StorageError::CorruptPage { page_id: internal_id });
            },
        };
        proof {
            self.buffer_pool.lemma_wf();
        }
        if self.buffer_pool.get_num_pages() == 0xFFFF_FFFFu32 {
            return Err(StorageError::StoreFull);
        }
        let new_internal_id = self.buffer_pool.allocate_page();
        let ghost pool1 = self.buffer_pool;
        let right_children = copy_ids(&right.children);
        let left_keys = copy_keys(&internal_node.keys);
        let left_children = copy_ids(&internal_node.children);
        let left = Node::Internal(InternalNode { parent_page_id: internal_node.parent_page_id, keys: left_keys, children: left_children });
        match self.write_node(internal_id, &left) {
            Ok(()) => {},
            Err(e) => {
                return Err(e);
            },
        }
        let ghost pool2 = self.buffer_pool;
        match self.write_node(new_internal_id, &Node::Internal(right)) {
            Ok(()) => {},
            Err(e) => {
                proof {
                    assert forall|j: u32| j != 0 && j != internal_id && j != new_internal_id && pool0.fresh(j) implies #[trigger] self.buffer_pool.fresh(j) && self.buffer_pool.page(j) == pool0.page(j) by {
                        assert(pool1.fresh(j));
                        assert(pool1.page(j) == pool0.page(j));
                        assert(pool2.fresh(j));
                    }
                }
                return Err(e);
            },
        }
        proof {
            assert forall|j: u32| j != 0 && j != internal_id && j != new_internal_id && pool0.fresh(j) implies #[trigger] self.buffer_pool.fresh(j) && self.buffer_pool.page(j) == pool0.page(j) by {
                assert(pool1.fresh(j));
                assert(pool1.page(j) == pool0.page(j));
                assert(pool2.fresh(j));
            }
        }
        Ok((new_internal_id, push_up_key, internal_node, right_children))
    }

    /// Splits an overfull internal node around its middle key, moves the right half of the
    /// children under a new node and pushes the middle key up.
    #[verifier::spinoff_prover]
    #[verifier::rlimit(100)]
    #[verifier::loop_isolation(false)]
    fn split_internal_and_insert(&mut self, internal_id: PageId, internal_node: InternalNode, fuel: u32) -> (r: Result<(), StorageError>)
        requires
            old(self).wf(),
            internal_id < u32::MAX,
            fuel > 0,
            internal_node.keys@.len() > 0,
            node_size(NodeView::Internal(internal_node.view())) <= size_bound(),
            forall|i: int| 0 <= i < internal_node.keys@.len() ==> (#[trigger] internal_node.keys@[i])@.len() <= PAGE_SIZE,
        ensures
            final(self).wf(),
            internal_node.children@.len() < internal_node.keys@.len() / 2 + 1 ==> r == Err::<(), StorageError>(StorageError::CorruptPage { page_id: internal_id })
                && *final(self) == *old(self),
            internal_node.children@.len() >= internal_node.keys@.len() / 2 + 1 && old(self).pool().store().len() == u32::MAX
                ==> r == Err::<(), StorageError>(StorageError::StoreFull) && *final(self) == *old(self),
            internal_node.view().parent is Some ==> split_under_parent(old(self).pool(), final(self).pool(), r is Ok, old(self).root(), final(self).root(),
                internal_id, internal_node.view(), internal_node.view().parent->0, fuel),
            internal_node.view().parent is None && r is Ok ==> split_internal_under_new_root(old(self).pool(), final(self).pool(), final(self).root(), internal_id,
                internal_node.view()),
        decreases fuel, 0int,
    {
        let ghost pool0 = self.pool();
        let ghost n0 = internal_node.view();
        let (new_internal_id, push_up_key, internal_node, right_children) = match self.write_internal_halves(internal_id, internal_node) {
            Ok(t) => t,
            Err(e) => {
                proof {
                    reveal(split_under_parent);
                }
                return Err(e);
            },
        };
        let parent = internal_node.parent_page_id;
        let ghost pool3 = self.pool();
        proof {
            if pool0.coherent() {
                assert forall|k: int| 0 <= k < right_children@.len() && right_children@[k] != 0 && right_children@[k] != internal_id
                    && right_children@[k] != new_internal_id implies pool3.fresh(#[trigger] right_children@[k]) by {
                    assert(pool0.fresh(right_children@[k]));
                }
            }
        }
        match self.reparent_children(&right_children, new_internal_id, internal_id) {
            Ok(()) => {},
            Err(e) => {
                proof {
                    reveal(split_under_parent);
                }
                return Err(e);
            },
        }
        let ghost pool4 = self.pool();
        match parent {
            Some(parent_id) => {
                if parent_id == NO_PAGE {
                    proof {
                        reveal(split_under_parent);
                    }
                    return Err(StorageError::CorruptPage { page_id: internal_id });
                }
                let ghost key = push_up_key@;
                let res = self.insert_into_internal(parent_id, push_up_key, new_internal_id, fuel - 1);
                proof {
                    lemma_split_under_parent(pool0, pool3, pool4, self.pool(), res is Ok, old(self).root(), self.root(), internal_id, n0, parent_id, fuel,
                        new_internal_id, right_children@, key);
                }
                res
            },
            None => {
                let ghost key = push_up_key@;
                proof {
                    self.buffer_pool.lemma_wf();
                }
                let res = self.raise_internal_root(internal_id, new_internal_id, push_up_key, &internal_node);
                proof {
                    if res is Ok {
                        lemma_split_internal_under_new_root(pool0, pool3, pool4, self.pool(), self.root(), internal_id, n0, new_internal_id,
                            right_children@, key, internal_node.view());
                    }
                }
                res
            },
        }
    }

    /// Points each page of `children` up to `new_parent`, reading it and writing it back; a
    /// child link that is the null page id fails as a corrupt `at` page.
    #[verifier::spinoff_prover]
    #[verifier::rlimit(100)]
    fn reparent_children(&mut self, children: &Vec<PageId>, new_parent: PageId, at: PageId) -> (r: Result<(), StorageError>)
        requires
            old(self).wf(),
        ensures
            final(self).wf(),
            final(self).root() == old(self).root(),
            children@.contains(NO_PAGE) ==> r == Err::<(), StorageError>(StorageError::CorruptPage { page_id: at }),
            !children@.contains(NO_PAGE) ==> r is Ok,
            children@.no_duplicates() && !children@.contains(0) && (forall|k: int| 0 <= k < children@.len() ==> old(self).pool().fresh(#[trigger] children@[k])) ==> {
                &&& forall|k: int| 0 <= k < children@.len() && r is Ok ==> #[trigger] final(self).pool().page(children@[k])
                    == reparented_page(old(self).pool().page(children@[k]), new_parent) && final(self).pool().fresh(children@[k])
                &&& forall|j: u32|
                    #![trigger final(self).pool().fresh(j)]
                    j != 0 && old(self).pool().fresh(j) && !children@.contains(j) ==> final(self).pool().fresh(j) && final(self).pool().page(j) == old(self).pool().page(j)
            },
    {
        let ghost pool0 = self.pool();
        let ghost rc = children@;
        let ghost near = rc.no_duplicates() && !rc.contains(0) && (forall|k: int| 0 <= k < rc.len() ==> pool0.fresh(#[trigger] rc[k]));
        let mut i: usize = 0;
        while i < children.len()
            invariant
                self.wf(),
                i <= children@.len(),
                rc == children@,
                pool0 == old(self).pool(),
                near == (rc.no_duplicates() && !rc.contains(0) && (forall|k: int| 0 <= k < rc.len() ==> pool0.fresh(#[trigger] rc[k]))),
                self.root() == old(self).root(),
                forall|k: int| 0 <= k < i ==> #[trigger] rc[k] != NO_PAGE,
                near ==> forall|k: int| 0 <= k < i ==> #[trigger] self.pool().page(rc[k]) == reparented_page(pool0.page(rc[k]), new_parent)
                    && self.pool().fresh(rc[k]),
                near ==> forall|j: u32|
                    #![trigger self.pool().fresh(j)]
                    j != 0 && pool0.fresh(j) && !rc.subrange(0, i as int).contains(j) ==> self.pool().fresh(j) && self.pool().page(j) == pool0.page(j),
            decreases children@.len() - i,
        {
            let child_id = children[i];
            if child_id == NO_PAGE {
                proof {
                    assert(rc.contains(NO_PAGE)) by {
                        assert(rc[i as int] == NO_PAGE);
                    }
                    if near {
                        assert forall|j: u32| j != 0 && pool0.fresh(j) && !rc.contains(j) implies #[trigger] self.pool().fresh(j) && self.pool().page(j) == pool0.page(j) by {
                            if rc.subrange(0, i as int).contains(j) {
                                let k = choose|k: int| 0 <= k < i && rc.subrange(0, i as int)[k] == j;
                                assert(rc[k] == j);
                            }
                        }
                    }
                }
                return Err(StorageError::CorruptPage { page_id: at });
            }
            let ghost before = self.pool();
            let child = self.read_node(child_id);
            let updated = with_parent(child, new_parent);
            proof {
                assert(node_size(updated.view()) == node_size(child.view()));
            }
            match self.write_node(child_id, &updated) {
                Ok(()) => {},
                Err(e) => {
                    return Err(e);
                },
            }
            proof {
                if near {
                    reveal(reparented_page);
                    assert(self.pool().page(rc[i as int]) == reparented_page(before.page(rc[i as int]), new_parent));
                    lemma_reparent_step(pool0, before, self.pool(), rc, i as int, new_parent);
                }
            }
            i = i + 1;
        }
        proof {
            assert(rc.subrange(0, i as int) =~= rc);
            assert(!rc.contains(NO_PAGE)) by {
                if rc.contains(NO_PAGE) {
                    let k = choose|k: int| 0 <= k < rc.len() && rc[k] == NO_PAGE;
                    assert(rc[k] != NO_PAGE);
                }
            }
        }
        Ok(())
    }

    /// Puts a new root above the two halves of a split internal node: it holds `key` between
    /// `left_id` and `right_id`, both halves point up to it, and the metadata page records it.
    #[verifier::spinoff_prover]
    #[verifier::rlimit(100)]
    fn raise_internal_root(&mut self, left_id: PageId, right_id: PageId, key: Vec<u8>, left: &InternalNode) -> (r: Result<(), StorageError>)
        requires
            old(self).wf(),
            left_id < u32::MAX,
            right_id < u32::MAX,
            key@.len() <= PAGE_SIZE,
            node_size(NodeView::Internal(left.view())) <= size_bound(),
        ensures
            final(self).wf(),
            old(self).pool().store().len() == u32::MAX ==> r == Err::<(), StorageError>(StorageError::StoreFull) && *final(self) == *old(self),
            r is Ok ==> u32_at(final(self).pool().page(0), META_ROOT_OFFSET as int) == final(self).root(),
            r is Ok ==> final(self).root() == crate::storage::pager::spec_allocated_id(old(self).pool().store()) && old(self).pool().store().len() < u32::MAX,
            raise_fits(old(self).pool(), left_id, right_id, key@, left.view()) ==> r is Ok,
            raise_fits(old(self).pool(), left_id, right_id, key@, left.view()) ==> root_raised(old(self).pool(), final(self).pool(), left_id, right_id, key@, left.view()),
    {
        let ghost p0 = self.buffer_pool;
        let ghost key_view = key@;
        proof {
            self.buffer_pool.lemma_wf();
        }
        if self.buffer_pool.get_num_pages() == 0xFFFF_FFFFu32 {
            return Err(StorageError::StoreFull);
        }
        let new_root_id = self.buffer_pool.allocate_page();
        let ghost p1 = self.buffer_pool;
        let ghost go = p0.fresh(left_id) && p0.fresh(right_id) && left_id != 0 && right_id != 0 && left_id != right_id
            && new_root_id != left_id && new_root_id != right_id;
        let ghost top = NodeView::Internal(crate::storage::btree::InternalView { parent: None, keys: seq![key@], children: seq![left_id, right_id] });
        let ghost lnode = NodeView::Internal(crate::storage::btree::InternalView { parent: Some(new_root_id), keys: left.view().keys, children: left.view().children });
        let mut keys: Vec<Vec<u8>> = Vec::new();
        keys.push(key);
        let mut children: Vec<PageId> = Vec::new();
        children.push(left_id);
        children.push(right_id);
        let root = Node::Internal(InternalNode { parent_page_id: None, keys, children });
        proof {
            lemma_keys_size_single(keys@[0]@);
            assert(keys_view(keys@) =~= seq![keys@[0]@]);
            assert(children@ =~= seq![left_id, right_id]);
            assert(root.view() == top);
        }
        match self.write_node(new_root_id, &root) {
            Ok(()) => {},
            Err(e) => {
                return Err(e);
            },
        }
        let ghost p2 = self.buffer_pool;
        let left_keys2 = copy_keys(&left.keys);
        let left_children2 = copy_ids(&left.children);
        let left_node = Node::Internal(InternalNode { parent_page_id: Some(new_root_id), keys: left_keys2, children: left_children2 });
        assert(left_node.view() == lnode);
        match self.write_node(left_id, &left_node) {
            Ok(()) => {},
            Err(e) => {
                return Err(e);
            },
        }
        let ghost p3 = self.buffer_pool;
        proof {
            if go {
                assert(p1.fresh(right_id));
                assert(p2.fresh(right_id));
                assert(p3.fresh(right_id));
                assert(p3.page(right_id) == p0.page(right_id));
            }
        }
        let right_node = self.read_node(right_id);
        let ghost p4 = self.buffer_pool;
        let right_node = match right_node {
            Node::Internal(_) => with_parent(right_node, new_root_id),
            Node::Leaf(_) => right_node,
        };
        match self.write_node(right_id, &right_node) {
            Ok(()) => {},
            Err(e) => {
                return Err(e);
            },
        }
        let ghost p5 = self.buffer_pool;
        proof {
            self.buffer_pool.lemma_wf();
            assert(p5.page(0).len() == PAGE_SIZE);
            if go {
                assert(p4.fresh(new_root_id));
                assert(p4.fresh(left_id));
                assert(p5.fresh(new_root_id));
                assert(p5.fresh(left_id));
                assert(p5.page(new_root_id) == node_image(top));
                assert(p5.page(left_id) == node_image(lnode));
            }
        }
        self.root_page_id = new_root_id;
        self.persist_root_page_id(new_root_id);
        proof {
            self.buffer_pool.lemma_wf();
            let pg = self.buffer_pool.page(0);
            crate::codec::lemma_le_u32_roundtrip(new_root_id);
            assert(pg.subrange(META_ROOT_OFFSET as int, META_ROOT_OFFSET as int + 4) =~= crate::codec::le_u32(new_root_id));
            if go {
                assert(top == new_root_node(key_view, left_id, right_id));
                assert(lnode == raised_left(left.view(), new_root_id));
                assert(self.buffer_pool.page(new_root_id) == node_image(top));
                assert(self.buffer_pool.page(left_id) == node_image(lnode));
                assert(self.buffer_pool.fresh(new_root_id));
                assert(self.buffer_pool.fresh(left_id));
                assert(self.buffer_pool.fresh(right_id));
                assert forall|j: u32| j != 0 && j != new_root_id && j != left_id && j != right_id && p0.fresh(j) implies #[trigger] self.buffer_pool.fresh(j) && self.buffer_pool.page(j) == p0.page(j) by {
                    assert(p1.fresh(j));
                    assert(p2.fresh(j));
                    assert(p3.fresh(j));
                    assert(p4.fresh(j));
                    assert(p5.fresh(j));
                }
            }
        }
        proof {
            reveal(root_raised);
            if go {
                assert(root_raised(p0, self.pool(), left_id, right_id, key_view, left.view()));
            }
        }
        Ok(())
    }
}


/// A key-value pair as byte sequences.
pub type PairView = (Seq<u8>, Seq<u8>);

/// `r` with `out` in front of what it holds.
pub open spec fn prepend(out: Seq<PairView>, r: Option<Seq<PairView>>) -> Option<Seq<PairView>> {
    match r {
        Some(rest) => Some(out + rest),
        None => None,
    }
}

/// `r` with `out` in front of the pairs it holds.
pub open spec fn prepend_leaf(out: Seq<PairView>, r: Option<(Seq<PairView>, bool)>) -> Option<(Seq<PairView>, bool)> {
    match r {
        Some((rest, stop)) => Some((out + rest, stop)),
        None => None,
    }
}

/// Whether `k` starts with `prefix`.
pub open spec fn has_prefix(k: Seq<u8>, prefix: Seq<u8>) -> bool {
    prefix.len() <= k.len() && k.subrange(0, prefix.len() as int) == prefix
}

/// The pairs a prefix scan takes from one leaf's records, values read back, and whether it
/// stopped at a key past the prefix; `None` when a value cannot be read back.
pub open spec fn scan_leaf(view: spec_fn(u32) -> Seq<u8>, rs: Seq<RecordView>, prefix: Seq<u8>, vfuel: nat) -> Option<(Seq<PairView>, bool)>
    decreases rs.len(),
{
    if rs.len() == 0 {
        Some((Seq::empty(), false))
    } else {
        let r = rs[0];
        if prefix.len() == 0 || has_prefix(r.0, prefix) {
            match resolve_value(view, r.1, vfuel) {
                Some(v) => prepend_leaf(seq![(r.0, v)], scan_leaf(view, rs.drop_first(), prefix, vfuel)),
                None => None,
            }
        } else if bytes_lt(prefix, r.0) {
            Some((Seq::empty(), true))
        } else {
            scan_leaf(view, rs.drop_first(), prefix, vfuel)
        }
    }
}

/// The pairs a prefix scan collects from leaf `leaf` on along the leaf chain, following at
/// most `steps` links; `None` when a value cannot be read back or the links run out.
pub open spec fn scan_from(view: spec_fn(u32) -> Seq<u8>, leaf: LeafView, prefix: Seq<u8>, steps: nat, vfuel: nat) -> Option<Seq<PairView>>
    decreases steps,
{
    match scan_leaf(view, leaf.records, prefix, vfuel) {
        None => None,
        Some((out, stop)) => {
            if stop {
                Some(out)
            } else {
                match leaf.next {
                    None => Some(out),
                    Some(nid) => {
                        if steps == 0 {
                            None
                        } else {
                            match decode_node(view(nid)) {
                                NodeView::Leaf(nl) => prepend(out, scan_from(view, nl, prefix, (steps - 1) as nat, vfuel)),
                                NodeView::Internal(_) => Some(out),
                            }
                        }
                    }
                }
            }
        }
    }
}

/// What a prefix scan from `root` returns: `None` for a corrupt tree.
pub open spec fn scan_result(view: spec_fn(u32) -> Seq<u8>, root: u32, prefix: Seq<u8>, fuel: nat) -> Option<Seq<PairView>> {
    match descend(view, root, prefix, fuel) {
        None => None,
        Some(l) => match decode_node(view(l)) {
            NodeView::Leaf(lv) => scan_from(view, lv, prefix, fuel, fuel),
            NodeView::Internal(_) => None,
        },
    }
}

pub open spec fn pairs_view(ps: Seq<(Vec<u8>, Vec<u8>)>) -> Seq<PairView> {
    ps.map_values(|p: (Vec<u8>, Vec<u8>)| (p.0@, p.1@))
}

/// More steps do not change a chain read that already completes.
pub proof fn lemma_chain_fuel(view: spec_fn(u32) -> Seq<u8>, id: u32, remaining: nat, fuel: nat, more: nat)
    requires
        chain_bytes(view, id, remaining, fuel) is Some,
        fuel <= more,
    ensures
        chain_bytes(view, id, remaining, more) == chain_bytes(view, id, remaining, fuel),
    decreases fuel,
{
    if id != NO_PAGE && fuel > 0 {
        let d = view(id);
        let take: nat = if remaining < OVERFLOW_CHUNK {
            remaining
        } else {
            OVERFLOW_CHUNK as nat
        };
        lemma_chain_fuel(view, u32_at(d, 0), (remaining - take) as nat, (fuel - 1) as nat, (more - 1) as nat);
    }
}

/// More steps do not change a value that already reads back.
pub proof fn lemma_resolve_fuel(view: spec_fn(u32) -> Seq<u8>, v: Seq<u8>, fuel: nat, more: nat)
    requires
        resolve_value(view, v, fuel) is Some,
        fuel <= more,
    ensures
        resolve_value(view, v, more) == resolve_value(view, v, fuel),
{
    if is_overflow_handle(v) {
        lemma_chain_fuel(view, u32_at(v, 8), u32_at(v, 4) as nat, fuel, more);
    }
}

/// More steps do not change a search that already answers.
pub proof fn lemma_search_fuel(view: spec_fn(u32) -> Seq<u8>, root: u32, key: Seq<u8>, fuel: nat, more: nat)
    requires
        search_result(view, root, key, fuel) is Some,
        fuel <= more,
    ensures
        search_result(view, root, key, more) == search_result(view, root, key, fuel),
{
    lemma_descend_fuel(view, root, key, fuel, more);
    let l = descend(view, root, key, fuel)->0;
    let m = records_map(leaf_records(view, l));
    if m.dom().contains(key) {
        lemma_resolve_fuel(view, m[key], fuel, more);
    }
}

/// More steps do not change what a scan takes from a leaf once it can read it all.
pub proof fn lemma_scan_leaf_fuel(view: spec_fn(u32) -> Seq<u8>, rs: Seq<RecordView>, prefix: Seq<u8>, vfuel: nat, more: nat)
    requires
        scan_leaf(view, rs, prefix, vfuel) is Some,
        vfuel <= more,
    ensures
        scan_leaf(view, rs, prefix, more) == scan_leaf(view, rs, prefix, vfuel),
    decreases rs.len(),
{
    if rs.len() > 0 {
        let r = rs[0];
        if prefix.len() == 0 || has_prefix(r.0, prefix) {
            lemma_resolve_fuel(view, r.1, vfuel, more);
            lemma_scan_leaf_fuel(view, rs.drop_first(), prefix, vfuel, more);
        } else if !bytes_lt(prefix, r.0) {
            lemma_scan_leaf_fuel(view, rs.drop_first(), prefix, vfuel, more);
        }
    }
}

/// More links and steps do not change a scan along the leaf chain that already completes.
pub proof fn lemma_scan_from_fuel(
    view: spec_fn(u32) -> Seq<u8>,
    leaf: LeafView,
    prefix: Seq<u8>,
    steps: nat,
    vfuel: nat,
    steps2: nat,
    vfuel2: nat,
)
    requires
        scan_from(view, leaf, prefix, steps, vfuel) is Some,
        steps <= steps2,
        vfuel <= vfuel2,
    ensures
        scan_from(view, leaf, prefix, steps2, vfuel2) == scan_from(view, leaf, prefix, steps, vfuel),
    decreases steps,
{
    lemma_scan_leaf_fuel(view, leaf.records, prefix, vfuel, vfuel2);
    match scan_leaf(view, leaf.records, prefix, vfuel) {
        Some((out, stop)) => {
            if !stop {
                match leaf.next {
                    Some(nid) => {
                        if steps > 0 {
                            match decode_node(view(nid)) {
                                NodeView::Leaf(nl) => {
                                    lemma_scan_from_fuel(view, nl, prefix, (steps - 1) as nat, vfuel, (steps2 - 1) as nat, vfuel2);
                                },
                                NodeView::Internal(_) => {},
                            }
                        }
                    },
                    None => {},
                }
            }
        },
        None => {},
    }
}

/// More steps do not change a prefix scan that already answers.
pub proof fn lemma_scan_result_fuel(view: spec_fn(u32) -> Seq<u8>, root: u32, prefix: Seq<u8>, fuel: nat, more: nat)
    requires
        scan_result(view, root, prefix, fuel) is Some,
        fuel <= more,
    ensures
        scan_result(view, root, prefix, more) == scan_result(view, root, prefix, fuel),
{
    lemma_descend_fuel(view, root, prefix, fuel, more);
    let l = descend(view, root, prefix, fuel)->0;
    match decode_node(view(l)) {
        NodeView::Leaf(lv) => {
            lemma_scan_from_fuel(view, lv, prefix, fuel, fuel, more, more);
        },
        NodeView::Internal(_) => {},
    }
}

impl BTree {
    /// Appends to `results` the pairs of one leaf that a prefix scan takes; tells whether the
    /// scan stopped at a key past the prefix.
    fn scan_leaf_records(&mut self, leaf: &LeafNode, prefix: &[u8], fuel: u32, results: &mut Vec<(Vec<u8>, Vec<u8>)>) -> (r: Result<bool, StorageError>)
        requires
            old(self).wf(),
        ensures
            final(self).wf(),
            final(self).root() == old(self).root(),
            pages_kept(old(self).pool(), final(self).pool()),
            final(self).pool().store().len() >= old(self).pool().store().len(),
            old(self).pool().coherent() ==> match scan_leaf(pages_of(old(self).pool()), leaf.view().records, prefix@, fuel as nat) {
                Some((out, stop)) => r == Ok::<bool, StorageError>(stop) && pairs_view(final(results)@) == pairs_view(old(results)@) + out,
                None => r is Err,
            },
    {
        let ghost pool0 = self.buffer_pool;
        let ghost view0 = pages_of(pool0);
        let ghost start = pairs_view(results@);
        let ghost rs = leaf.view().records;
        let mut i: usize = 0;
        proof {
            assert(rs.skip(0) =~= rs);
            if pool0.coherent() {
                match scan_leaf(view0, rs, prefix@, fuel as nat) {
                    Some((out, st)) => {
                        assert(start + out =~= start + (Seq::<PairView>::empty() + out));
                    },
                    None => {},
                }
            }
            assert(pairs_view(results@) =~= start + Seq::<PairView>::empty());
        }
        let ghost mut taken: Seq<PairView> = Seq::empty();
        while i < leaf.records.len()
            invariant
                self.wf(),
                self.root() == old(self).root(),
                pool0 == old(self).pool(),
                view0 == pages_of(pool0),
                pages_kept(pool0, self.pool()),
                self.pool().store().len() >= pool0.store().len(),
                rs == leaf.view().records,
                i <= rs.len(),
                start == pairs_view(old(results)@),
                pairs_view(results@) == start + taken,
                pool0.coherent() ==> scan_leaf(view0, rs, prefix@, fuel as nat) == prepend_leaf(taken, scan_leaf(view0, rs.skip(i as int), prefix@, fuel as nat)),
            decreases rs.len() - i,
        {
            proof {
                assert(rs.skip(i as int).drop_first() =~= rs.skip(i + 1));
                assert(rs.skip(i as int)[0] == rs[i as int]);
            }
            let key_i = leaf.records[i].0.as_slice();
            let matches = prefix.len() == 0 || starts_with_bytes(key_i, prefix);
            proof {
                assert(rs[i as int].0 == key_i@);
                assert(rs[i as int].1 == leaf.records@[i as int].1@);
            }
            if matches {
                let ghost before_read = self.buffer_pool;
                let resolved = self.read_value_resolve_overflow(leaf.records[i].1.as_slice(), fuel);
                proof {
                    lemma_pages_kept_trans(pool0, before_read, self.buffer_pool);
                    if pool0.coherent() {
                        lemma_pages_kept_view(pool0, before_read);
                    }
                }
                match resolved {
                    Ok(v) => {
                        let k = copy_bytes(key_i);
                        let ghost pair: PairView = (k@, v@);
                        let ghost prev = results@;
                        results.push((k, v));
                        proof {
                            assert(results@[results@.len() - 1].0@ == pair.0);
                            assert(pairs_view(results@) =~= pairs_view(prev).push(pair));
                            assert(pairs_view(results@) =~= start + taken.push(pair));
                            if pool0.coherent() {
                                match scan_leaf(view0, rs.skip(i + 1), prefix@, fuel as nat) {
                                    Some((rest, st)) => {
                                        assert(taken + (seq![pair] + rest) =~= taken.push(pair) + rest);
                                    },
                                    None => {},
                                }
                            }
                            taken = taken.push(pair);
                        }
                    },
                    Err(e) => {
                        return Err(e);
                    },
                }
            } else if bytes_less(prefix, key_i) {
                proof {
                    if pool0.coherent() {
                        assert(taken + Seq::<PairView>::empty() =~= taken);
                    }
                }
                return Ok(true);
            }
            i = i + 1;
        }
        proof {
            assert(rs.skip(i as int).len() == 0);
            if pool0.coherent() {
                assert(taken + Seq::<PairView>::empty() =~= taken);
            }
        }
        Ok(false)
    }

    /// The records whose key starts with `prefix` (every record for an empty prefix), in
    /// key order, values read back, walking the leaf chain from the leaf where the prefix
    /// belongs.
    pub fn scan_prefix(&mut self, prefix: &[u8]) -> (r: Result<Vec<(Vec<u8>, Vec<u8>)>, StorageError>)
        requires
            old(self).wf(),
        ensures
            final(self).wf(),
            final(self).root() == old(self).root(),
            pages_kept(old(self).pool(), final(self).pool()),
            final(self).pool().store().len() >= old(self).pool().store().len(),
            match scan_result(pages_of(old(self).pool()), old(self).root(), prefix@, old(self).pool().store().len()) {
                Some(ps) => r matches Ok(rv) && pairs_view(rv@) == ps,
                None => r is Err,
            },
    {
        proof {
            old(self).pool().lemma_wf();
        }
        let ghost pool0 = self.buffer_pool;
        let ghost view0 = pages_of(pool0);
        let fuel = self.buffer_pool.get_num_pages();
        let root_id = self.root_page_id;
        let root = self.read_node(root_id);
        let ghost pool1 = self.buffer_pool;
        proof {
            if pool0.coherent() {
                lemma_pages_kept_view(pool0, pool1);
            }
        }
        let found_leaf = self.find_leaf_for_insert(root_id, root, prefix, fuel);
        proof {
            lemma_pages_kept_trans(pool0, pool1, self.buffer_pool);
        }
        let mut current_leaf = match found_leaf {
            Ok((_, leaf)) => leaf,
            Err(e) => {
                return Err(e);
            },
        };
        let mut results: Vec<(Vec<u8>, Vec<u8>)> = Vec::new();
        let mut steps = fuel;
        proof {
            assert(pairs_view(results@) =~= Seq::<PairView>::empty());
            if pool0.coherent() {
                match scan_from(view0, current_leaf.view(), prefix@, steps as nat, fuel as nat) {
                    Some(rest) => {
                        assert(Seq::<PairView>::empty() + rest =~= rest);
                    },
                    None => {},
                }
            }
        }
        loop
            invariant
                self.wf(),
                self.root() == old(self).root(),
                pool0 == old(self).pool(),
                pool0.coherent(),
                view0 == pages_of(pool0),
                fuel as nat == pool0.store().len(),
                steps <= fuel,
                pages_kept(pool0, self.pool()),
                self.pool().store().len() >= pool0.store().len(),
                pool0.coherent() ==> scan_result(view0, old(self).root(), prefix@, fuel as nat) == prepend(pairs_view(results@), scan_from(view0, current_leaf.view(), prefix@, steps as nat, fuel as nat)),
            decreases steps,
        {
            let ghost before = pairs_view(results@);
            let ghost before_pool = self.buffer_pool;
            let stopped = self.scan_leaf_records(&current_leaf, prefix, fuel, &mut results);
            proof {
                lemma_pages_kept_trans(pool0, before_pool, self.buffer_pool);
                if pool0.coherent() {
                    lemma_pages_kept_view(pool0, before_pool);
                }
            }
            let stop = match stopped {
                Ok(b) => b,
                Err(e) => {
                    return Err(e);
                },
            };
            let ghost leaf_out = pairs_view(results@).subrange(before.len() as int, pairs_view(results@).len() as int);
            proof {
                if pool0.coherent() {
                    assert(pairs_view(results@) =~= before + leaf_out);
                }
            }
            if stop {
                return Ok(results);
            }
            match current_leaf.next_leaf {
                Some(next_id) => {
                    if steps == 0 {
                        return Err(StorageError::CorruptPage { page_id: next_id });
                    }
                    let ghost before_read = self.buffer_pool;
                    let next_node = self.read_node(next_id);
                    proof {
                        lemma_pages_kept_trans(pool0, before_read, self.buffer_pool);
                        if pool0.coherent() {
                            lemma_pages_kept_view(pool0, before_read);
                        }
                    }
                    match next_node {
                        Node::Leaf(next_leaf) => {
                            proof {
                                if pool0.coherent() {
                                    match scan_from(view0, next_leaf.view(), prefix@, (steps - 1) as nat, fuel as nat) {
                                        Some(rest) => {
                                            assert(before + (leaf_out + rest) =~= pairs_view(results@) + rest);
                                        },
                                        None => {},
                                    }
                                }
                            }
                            current_leaf = next_leaf;
                            steps = steps - 1;
                        },
                        Node::Internal(_) => {
                            return Ok(results);
                        },
                    }
                },
                None => {
                    return Ok(results);
                },
            }
        }
    }

    /// Every record, in key order.
    pub fn scan(&mut self) -> (r: Result<Vec<(Vec<u8>, Vec<u8>)>, StorageError>)
        requires
            old(self).wf(),
        ensures
            final(self).wf(),
            final(self).root() == old(self).root(),
            pages_kept(old(self).pool(), final(self).pool()),
            final(self).pool().store().len() >= old(self).pool().store().len(),
            match scan_result(pages_of(old(self).pool()), old(self).root(), Seq::empty(), old(self).pool().store().len()) {
                Some(ps) => r matches Ok(rv) && pairs_view(rv@) == ps,
                None => r is Err,
            },
    {
        proof {
            old(self).pool().lemma_wf();
        }
        let empty: [u8; 0] = [];
        proof {
            assert(empty@ =~= Seq::<u8>::empty());
        }
        self.scan_prefix(&empty)
    }
}


impl BTree {
    /// Removes `key`. A leaf left empty that is not the root is unlinked from the leaf chain
    /// and freed.
    #[verifier::spinoff_prover]
    #[verifier::rlimit(100)]
    pub fn delete(&mut self, key: &[u8]) -> (r: Result<(), StorageError>)
        requires
            old(self).wf(),
        ensures
            final(self).wf(),
            final(self).root() == old(self).root(),
            delete_in_place(*old(self), key@) ==> r is Ok && final(self).lookup(key@) == Some(None::<Seq<u8>>) && del_in_place(*old(self), *final(self), key@),
            forall|k2: Seq<u8>|
                delete_in_place(*old(self), key@) && k2 != key@ && inline_stored(*old(self), k2)
                    ==> #[trigger] final(self).lookup(k2) == old(self).lookup(k2),
    {
        let ghost pool0 = self.pool();
        let ghost view0 = pages_of(pool0);
        let ghost law = delete_in_place(*old(self), key@);
        let fuel = self.buffer_pool.get_num_pages();
        let root_id = self.root_page_id;
        let root_node = self.read_node(root_id);
        let ghost pool1 = self.pool();
        proof {
            if law {
                lemma_pages_kept_view(pool0, pool1);
            }
        }
        let (leaf_id, mut leaf_node) = match self.find_leaf_for_insert(root_id, root_node, key, fuel) {
            Ok(found) => found,
            Err(e) => {
                return Err(e);
            },
        };
        let ghost pool2 = self.pool();
        let ghost rs0 = records_view(leaf_node.records@);
        proof {
            if law {
                lemma_pages_kept_view(pool1, pool2);
                assert(leaf_id == descend(view0, old(self).root(), key@, fuel as nat)->0);
                assert(rs0 == leaf_records(view0, leaf_id));
            }
        }
        let (pos, found) = search_records(&leaf_node.records, key);
        proof {
            if law {
                lemma_search_found(rs0, key@, pos as int);
                crate::storage::ordered::lemma_records_map_dom(rs0, key@);
                if found {
                    crate::storage::ordered::lemma_records_map_at(rs0, pos as int);
                    crate::storage::ordered::lemma_remove_record(rs0, key@, pos as int);
                }
            }
        }
        if found {
            let removed = leaf_node.records.remove(pos);
            let ghost leaf_left = leaf_node.view();
            proof {
                let before = rs0.subrange(0, pos as int);
                let after = rs0.subrange(pos + 1, rs0.len() as int);
                assert(rs0 =~= before + seq![rs0[pos as int]] + after);
                assert(records_view(leaf_node.records@) =~= before + after);
                assert(records_view(leaf_node.records@) =~= rs0.remove(pos as int));
                lemma_records_size_concat(before + seq![rs0[pos as int]], after);
                lemma_records_size_concat(before, seq![rs0[pos as int]]);
                lemma_records_size_concat(before, after);
                lemma_records_size_single(rs0[pos as int]);
            }
            match self.free_overflow_chain(removed.1.as_slice()) {
                Ok(()) => {},
                Err(e) => {
                    return Err(e);
                },
            }
            if leaf_id == NO_PAGE {
                return Err(StorageError::CorruptPage { page_id: leaf_id });
            }
            if leaf_node.records.len() == 0 && leaf_id != self.root_page_id {
                return self.unlink_empty_leaf(leaf_id, &leaf_node);
            } else {
                let written = self.write_node(leaf_id, &Node::Leaf(leaf_node));
                proof {
                    if law {
                        let view3 = pages_of(self.pool());
                        assert(crate::storage::btree::storable(NodeView::Leaf(leaf_left)));
                        crate::storage::btree::lemma_node_page_roundtrip(NodeView::Leaf(leaf_left));
                        assert forall|j: u32| j != leaf_id implies #[trigger] view3(j) == view0(j) by {
                            assert(pool2.fresh(j));
                            assert(self.pool().fresh(j));
                        }
                        lemma_readback(view0, view3, old(self).root(), key@, None, fuel as nat, self.pool().store().len(), leaf_id, leaf_left);
                        lemma_descend_leaf(view0, old(self).root(), key@, fuel as nat);
                        assert forall|k2: Seq<u8>| k2 != key@ && inline_stored(*old(self), k2) implies #[trigger] self.lookup(k2) == old(self).lookup(k2) by {
                            lemma_readback_other(view0, view3, old(self).root(), key@, k2, fuel as nat, self.pool().store().len(), leaf_id);
                        }
                        assert forall|j: u32| j != leaf_id implies #[trigger] self.pool().page(j) == old(self).pool().page(j) by {
                            assert(view3(j) == view0(j));
                        }
                        let rs2 = leaf_left.records;
                        assert(keys_sorted(rs2));
                        assert(records_map(rs2) == records_map(rs0).remove(key@));
                        assert(records_size(rs2) <= records_size(rs0));
                        assert(del_in_place(*old(self), *self, key@));
                    }
                }
                return written;
            }
        }
        proof {
            if law {
                let view2 = pages_of(pool2);
                lemma_descend_fuel(view0, old(self).root(), key@, fuel as nat, pool2.store().len());
                lemma_descend_leaf(view0, old(self).root(), key@, fuel as nat);
                assert forall|k2: Seq<u8>| k2 != key@ && inline_stored(*old(self), k2) implies #[trigger] self.lookup(k2) == old(self).lookup(k2) by {
                    lemma_readback_other(view0, view2, old(self).root(), key@, k2, fuel as nat, pool2.store().len(), leaf_id);
                }
                assert forall|j: u32| #[trigger] self.pool().page(j) == old(self).pool().page(j) by {
                    assert(view2(j) == view0(j));
                }
                assert(records_map(rs0).remove(key@) =~= records_map(rs0));
                assert(keys_sorted(rs0));
                assert(del_in_place(*old(self), *self, key@));
            }
        }
        Ok(())
    }

    /// Unlinks an empty leaf: the leaf before it in the chain is pointed past it and the page
    /// is freed. The leftmost leaf, or a leaf not found in the chain, is written back empty.
    fn unlink_empty_leaf(&mut self, leaf_id: PageId, leaf_node: &LeafNode) -> (r: Result<(), StorageError>)
        requires
            old(self).wf(),
            leaf_id < u32::MAX,
            leaf_node.records@.len() == 0,
        ensures
            final(self).wf(),
            final(self).root() == old(self).root(),
            old(self).pool().coherent() ==> match leftmost(pages_of(old(self).pool()), old(self).root(), old(self).pool().store().len()) {
                None => r is Err,
                Some(lm) => {
                    let emptied = NodeView::Leaf(LeafView { parent: leaf_node.view().parent, next: leaf_node.view().next, records: Seq::empty() });
                    if lm == leaf_id {
                        r is Ok && final(self).pool().page(leaf_id) == node_image(emptied)
                            && forall|j: u32| j != leaf_id ==> #[trigger] final(self).pool().page(j) == old(self).pool().page(j)
                    } else {
                        match prev_in_chain(pages_of(old(self).pool()), lm, leaf_id, old(self).pool().store().len()) {
                            None => true,
                            Some(None) => r is Ok && final(self).pool().page(leaf_id) == node_image(emptied)
                                && forall|j: u32| j != leaf_id ==> #[trigger] final(self).pool().page(j) == old(self).pool().page(j),
                            Some(Some(p)) => {
                                &&& (p == NO_PAGE ==> r is Err)
                                &&& (p != NO_PAGE && p != 0 && p != leaf_id && r is Ok ==> match decode_node(old(self).pool().page(p)) {
                                    NodeView::Leaf(pl) => {
                                        &&& final(self).pool().page(p) == node_image(NodeView::Leaf(LeafView { parent: pl.parent, next: leaf_node.view().next, records: pl.records }))
                                        &&& !final(self).pool().cached().dom().contains(leaf_id)
                                        &&& forall|j: u32| j != 0 && j != p && j != leaf_id ==> #[trigger] final(self).pool().page(j) == old(self).pool().page(j)
                                    },
                                    NodeView::Internal(_) => true,
                                })
                            },
                        }
                    }
                },
            },
    {
        let ghost pool0 = self.buffer_pool;
        let ghost view0 = pages_of(pool0);
        let ghost n0 = pool0.store().len();
        let empty_records: Vec<(Vec<u8>, Vec<u8>)> = Vec::new();
        proof {
            assert(records_view(empty_records@) =~= Seq::<RecordView>::empty());
            assert(records_size(Seq::<RecordView>::empty()) == 0);
        }
        let empty_leaf = Node::Leaf(LeafNode { parent_page_id: leaf_node.parent_page_id, next_leaf: leaf_node.next_leaf, records: empty_records });
        let leftmost_leaf_id = match self.find_leftmost_leaf(self.root_page_id) {
            Ok(id) => id,
            Err(e) => {
                return Err(e);
            },
        };
        let ghost pool1 = self.buffer_pool;
        proof {
            if pool0.coherent() {
                lemma_pages_kept_view(pool0, pool1);
            }
        }
        if leftmost_leaf_id == leaf_id {
            let w = self.write_node(leaf_id, &empty_leaf);
            proof {
                if pool0.coherent() {
                    assert forall|j: u32| j != leaf_id implies #[trigger] self.pool().page(j) == pool0.page(j) by {
                        assert(pool1.fresh(j));
                    }
                }
            }
            return w;
        }
        proof {
            self.buffer_pool.lemma_wf();
        }
        let mut steps = self.buffer_pool.get_num_pages();
        let mut prev_id = leftmost_leaf_id;
        proof {
            if pool0.coherent() && prev_in_chain(view0, leftmost_leaf_id, leaf_id, n0) is Some {
                lemma_prev_in_chain_fuel(view0, leftmost_leaf_id, leaf_id, n0, steps as nat);
            }
        }
        loop
            invariant
                self.wf(),
                self.root() == old(self).root(),
                leaf_id < u32::MAX,
                node_size(empty_leaf.view()) <= PAGE_SIZE,
                pool0 == old(self).pool(),
                view0 == pages_of(pool0),
                n0 == pool0.store().len(),
                pages_kept(pool0, self.pool()),
                leftmost_leaf_id != leaf_id,
                pool0.coherent() ==> leftmost(view0, old(self).root(), n0) == Some(leftmost_leaf_id),
                pool0.coherent() && prev_in_chain(view0, leftmost_leaf_id, leaf_id, n0) is Some
                    ==> prev_in_chain(view0, leftmost_leaf_id, leaf_id, n0) == prev_in_chain(view0, prev_id, leaf_id, steps as nat),
                empty_leaf.view() == NodeView::Leaf(LeafView { parent: leaf_node.view().parent, next: leaf_node.view().next, records: Seq::empty() }),
            ensures
                self.wf(),
                self.root() == old(self).root(),
                pages_kept(pool0, self.pool()),
                pool0.coherent() && prev_in_chain(view0, leftmost_leaf_id, leaf_id, n0) is Some
                    ==> prev_in_chain(view0, leftmost_leaf_id, leaf_id, n0) == Some(None::<u32>),
            decreases steps,
        {
            let ghost before = self.buffer_pool;
            let prev_node = self.read_node(prev_id);
            let ghost pool_r = self.buffer_pool;
            proof {
                lemma_pages_kept_trans(pool0, before, pool_r);
                if pool0.coherent() {
                    lemma_pages_kept_view(pool0, before);
                    lemma_pages_kept_view(pool0, pool_r);
                }
            }
            match prev_node {
                Node::Leaf(prev_leaf) => {
                    if prev_leaf.next_leaf == Some(leaf_id) {
                        if prev_id == NO_PAGE {
                            return Err(StorageError::CorruptPage { page_id: prev_id });
                        }
                        let updated = Node::Leaf(LeafNode { parent_page_id: prev_leaf.parent_page_id, next_leaf: leaf_node.next_leaf, records: prev_leaf.records });
                        match self.write_node(prev_id, &updated) {
                            Ok(()) => {},
                            Err(e) => {
                                return Err(e);
                            },
                        }
                        let ghost pool_w = self.buffer_pool;
                        self.buffer_pool.free_page(leaf_id);
                        proof {
                            if pool0.coherent() && prev_id != 0 && prev_id != leaf_id {
                                assert(self.pool().page(prev_id) == pool_w.page(prev_id));
                                assert forall|j: u32| j != 0 && j != prev_id && j != leaf_id implies #[trigger] self.pool().page(j) == pool0.page(j) by {
                                    assert(pool_r.fresh(j));
                                    assert(pool_w.page(j) == pool_r.page(j));
                                }
                            }
                        }
                        return Ok(());
                    }
                    match prev_leaf.next_leaf {
                        Some(next) => {
                            if steps == 0 {
                                return Err(StorageError::CorruptPage { page_id: next });
                            }
                            prev_id = next;
                            steps = steps - 1;
                        },
                        None => {
                            break;
                        },
                    }
                },
                Node::Internal(_) => {
                    break;
                },
            }
        }
        let ghost pool2 = self.buffer_pool;
        let w = self.write_node(leaf_id, &empty_leaf);
        proof {
            if pool0.coherent() {
                lemma_pages_kept_view(pool0, pool2);
                assert forall|j: u32| j != leaf_id implies #[trigger] self.pool().page(j) == pool0.page(j) by {
                    assert(pool2.fresh(j));
                }
            }
        }
        w
    }

    /// The leftmost leaf under `page_id`, always taking the first child; an internal node
    /// without children counts as the leaf.
    fn find_leftmost_leaf(&mut self, page_id: PageId) -> (r: Result<PageId, StorageError>)
        requires
            old(self).wf(),
        ensures
            final(self).wf(),
            final(self).root() == old(self).root(),
            pages_kept(old(self).pool(), final(self).pool()),
            final(self).pool().store().len() >= old(self).pool().store().len(),
            old(self).pool().coherent() ==> match leftmost(pages_of(old(self).pool()), page_id, old(self).pool().store().len()) {
                Some(l) => r == Ok::<PageId, StorageError>(l),
                None => r is Err,
            },
    {
        proof {
            self.buffer_pool.lemma_wf();
        }
        let ghost pool0 = self.buffer_pool;
        let ghost view0 = pages_of(pool0);
        let mut steps = self.buffer_pool.get_num_pages();
        let mut id = page_id;
        loop
            invariant
                self.wf(),
                self.root() == old(self).root(),
                pool0 == old(self).pool(),
                view0 == pages_of(pool0),
                pages_kept(pool0, self.pool()),
                self.pool().store().len() >= pool0.store().len(),
                pool0.coherent() ==> leftmost(view0, page_id, pool0.store().len()) == leftmost(view0, id, steps as nat),
            decreases steps,
        {
            let ghost before = self.buffer_pool;
            let node = self.read_node(id);
            proof {
                lemma_pages_kept_trans(pool0, before, self.buffer_pool);
                if pool0.coherent() {
                    lemma_pages_kept_view(pool0, before);
                }
            }
            match node {
                Node::Leaf(_) => {
                    return Ok(id);
                },
                Node::Internal(internal) => {
                    if internal.children.len() == 0 {
                        return Ok(id);
                    }
                    if steps == 0 {
                        return Err(StorageError::CorruptPage { page_id: id });
                    }
                    proof {
                        assert(internal.view().children[0] == internal.children@[0]);
                    }
                    id = internal.children[0];
                    steps = steps - 1;
                },
            }
        }
    }
}

/// More links do not change a walk along the leaf chain that already ends.
pub proof fn lemma_prev_in_chain_fuel(view: spec_fn(u32) -> Seq<u8>, id: u32, target: u32, steps: nat, more: nat)
    requires
        prev_in_chain(view, id, target, steps) is Some,
        steps <= more,
    ensures
        prev_in_chain(view, id, target, more) == prev_in_chain(view, id, target, steps),
    decreases steps,
{
    match decode_node(view(id)) {
        NodeView::Leaf(l) => {
            if l.next != Some(target) {
                match l.next {
                    Some(n) => {
                        if steps > 0 {
                            lemma_prev_in_chain_fuel(view, n, target, (steps - 1) as nat, (more - 1) as nat);
                        }
                    },
                    None => {},
                }
            }
        },
        NodeView::Internal(_) => {},
    }
}

/// The bytes of a page holding node `v`: its encoding padded with zeros.
pub open spec fn node_image(v: NodeView) -> Seq<u8> {
    crate::storage::btree::encode_node(v) + zeros((PAGE_SIZE - node_size(v)) as nat)
}

/// The leaf whose next link is `target`, found walking the leaf chain from page `id` and
/// following at most `steps` links: `Some(None)` when the chain ends (or reaches an internal
/// node) first, `None` when the links run out.
pub open spec fn prev_in_chain(view: spec_fn(u32) -> Seq<u8>, id: u32, target: u32, steps: nat) -> Option<Option<u32>>
    decreases steps,
{
    match decode_node(view(id)) {
        NodeView::Leaf(l) => if l.next == Some(target) {
            Some(Some(id))
        } else {
            match l.next {
                Some(n) => if steps == 0 {
                    None
                } else {
                    prev_in_chain(view, n, target, (steps - 1) as nat)
                },
                None => Some(None),
            }
        },
        NodeView::Internal(_) => Some(None),
    }
}

/// The leaf reached from page `id` by always taking the first child, in at most `fuel`
/// steps down; an internal node without children ends the walk there.
pub open spec fn leftmost(view: spec_fn(u32) -> Seq<u8>, id: u32, fuel: nat) -> Option<u32>
    decreases fuel,
{
    match decode_node(view(id)) {
        NodeView::Leaf(_) => Some(id),
        NodeView::Internal(n) => {
            if n.children.len() == 0 {
                Some(id)
            } else if fuel == 0 {
                None
            } else {
                leftmost(view, n.children[0], (fuel - 1) as nat)
            }
        },
    }
}

} // verus!
