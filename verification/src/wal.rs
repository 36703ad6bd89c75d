//! The write-ahead log: frames carrying an LSN, a transaction id and an operation, each
//! protected by a CRC-32 over its header and payload.
//!
//! Frame: [lsn: 8B][tx_id: 8B][op: 1B][payload_len: 4B][payload][crc: 4B], little-endian.
//! Put payload:    [key_len: 4B][key][val_len: 4B][val]
//! Delete payload: [key_len: 4B][key]
//!
//! The log keeps the frames it has produced and not yet handed out; the file that holds the
//! log is written by the caller.
use crate::codec::{
    lemma_le_u32_roundtrip, lemma_le_u64_roundtrip, copy_bytes, copy_range, le_u32, le_u32_value, le_u64, le_u64_value, push_bytes, push_u32_le,
    push_u64_le, read_u32_le, read_u64_le,
};
use std::collections::HashMap;
use vstd::prelude::*;

verus! {

broadcast use vstd::std_specs::hash::group_hash_axioms;

/// Size of a frame header.
pub const FRAME_HEADER_SIZE: usize = 21;

/// The CRC-32 (IEEE) checksum that `crc32fast` computes over `data`.
pub uninterp spec fn crc32_of(data: Seq<u8>) -> u32;

/// `crc32fast::hash`: the CRC-32 (IEEE) checksum of `data`. The contract names the result and
/// ties it to the bytes hashed; it says nothing of how the checksum is computed.
#[verifier::external_body]
fn crc32(data: &[u8]) -> (r: u32)
    ensures
        r == crc32_of(data@),
{
    crc32fast::hash(data)
}

/// An operation recovered from the log.
#[derive(Debug, Clone, PartialEq)]
pub enum WalEntry {
    Put(Vec<u8>, Vec<u8>),
    Delete(Vec<u8>),
}

/// The abstract content of a recovered operation.
pub enum EntryView {
    Put(Seq<u8>, Seq<u8>),
    Delete(Seq<u8>),
}

impl WalEntry {
    pub open spec fn view(&self) -> EntryView {
        match self {
            WalEntry::Put(k, v) => EntryView::Put(k@, v@),
            WalEntry::Delete(k) => EntryView::Delete(k@),
        }
    }

    /// A copy of this entry.
    pub fn duplicate(&self) -> (r: WalEntry)
        ensures
            r.view() == self.view(),
    {
        match self {
            WalEntry::Put(k, v) => WalEntry::Put(copy_bytes(k.as_slice()), copy_bytes(v.as_slice())),
            WalEntry::Delete(k) => WalEntry::Delete(copy_bytes(k.as_slice())),
        }
    }
}

pub open spec fn entries_view(es: Seq<WalEntry>) -> Seq<EntryView> {
    es.map_values(|e: WalEntry| e.view())
}

/// Operation type tags in a frame.
#[derive(Debug, Clone, Copy, PartialEq, Eq)]
pub enum WalOpType {
    Put,
    Delete,
    Begin,
    Commit,
    Rollback,
}

pub open spec fn op_code(op: WalOpType) -> u8 {
    match op {
        WalOpType::Put => 1,
        WalOpType::Delete => 2,
        WalOpType::Begin => 3,
        WalOpType::Commit => 4,
        WalOpType::Rollback => 5,
    }
}

impl WalOpType {
    /// The tag byte stored in a frame.
    pub fn code(self) -> (c: u8)
        ensures
            c == op_code(self),
    {
        match self {
            WalOpType::Put => 1,
            WalOpType::Delete => 2,
            WalOpType::Begin => 3,
            WalOpType::Commit => 4,
            WalOpType::Rollback => 5,
        }
    }
}

/// A decoded frame.
pub struct FrameView {
    pub lsn: u64,
    pub tx_id: u64,
    pub op: u8,
    pub payload: Seq<u8>,
}

pub open spec fn header_bytes(lsn: u64, tx_id: u64, op: u8, payload_len: nat) -> Seq<u8> {
    le_u64(lsn) + le_u64(tx_id) + seq![op] + le_u32(payload_len as u32)
}

/// The bytes of one frame.
pub open spec fn frame_bytes(f: FrameView) -> Seq<u8> {
    let h = header_bytes(f.lsn, f.tx_id, f.op, f.payload.len());
    h + f.payload + le_u32(crc32_of(h + f.payload))
}

pub open spec fn put_payload(key: Seq<u8>, val: Seq<u8>) -> Seq<u8> {
    le_u32(key.len() as u32) + key + le_u32(val.len() as u32) + val
}

pub open spec fn delete_payload(key: Seq<u8>) -> Seq<u8> {
    le_u32(key.len() as u32) + key
}

pub open spec fn u32_in(d: Seq<u8>, at: int) -> int {
    le_u32_value(d.subrange(at, at + 4)) as int
}

/// The put a payload describes, if it is well formed; trailing bytes are ignored.
pub open spec fn parse_put(p: Seq<u8>) -> Option<EntryView> {
    if p.len() < 8 {
        None
    } else {
        let klen = u32_in(p, 0);
        if p.len() < 4 + klen + 4 {
            None
        } else {
            let vlen = u32_in(p, 4 + klen);
            if p.len() < 8 + klen + vlen {
                None
            } else {
                Some(
                    EntryView::Put(
                        p.subrange(4, 4 + klen),
                        p.subrange(8 + klen, 8 + klen + vlen),
                    ),
                )
            }
        }
    }
}

/// The delete a payload describes, if it is well formed.
pub open spec fn parse_delete(p: Seq<u8>) -> Option<EntryView> {
    if p.len() < 4 {
        None
    } else {
        let klen = u32_in(p, 0);
        if p.len() < 4 + klen {
            None
        } else {
            Some(EntryView::Delete(p.subrange(4, 4 + klen)))
        }
    }
}

/// What recovery has gathered so far.
pub struct RecState {
    pub committed: Seq<EntryView>,
    pub active: Map<u64, Seq<EntryView>>,
    pub max_lsn: u64,
}

pub open spec fn init_rec_state() -> RecState {
    RecState { committed: Seq::empty(), active: Map::empty(), max_lsn: 0 }
}

/// Adds an operation to the state: untransacted operations are committed at once, the others
/// wait in their transaction.
pub open spec fn rec_add(st: RecState, tx_id: u64, e: EntryView) -> RecState {
    if tx_id == 0 {
        RecState { committed: st.committed.push(e), ..st }
    } else {
        let prev = if st.active.contains_key(tx_id) {
            st.active[tx_id]
        } else {
            Seq::empty()
        };
        RecState { active: st.active.insert(tx_id, prev.push(e)), ..st }
    }
}

/// The transaction-marker part of a step: BEGIN opens (or reopens) a transaction, COMMIT and
/// ROLLBACK close it.
pub open spec fn rec_marker(st: RecState, f: FrameView) -> RecState {
    if f.op == 3 {
        if f.tx_id > 0 {
            RecState { active: st.active.insert(f.tx_id, Seq::empty()), ..st }
        } else {
            st
        }
    } else if f.op == 4 {
        if st.active.contains_key(f.tx_id) {
            RecState {
                committed: st.committed + st.active[f.tx_id],
                active: st.active.remove(f.tx_id),
                ..st
            }
        } else {
            st
        }
    } else if f.op == 5 {
        RecState { active: st.active.remove(f.tx_id), ..st }
    } else {
        st
    }
}

/// One recovery step over a valid frame; the flag says whether recovery goes on.
pub open spec fn rec_step(st: RecState, f: FrameView, ckpt: u64) -> (RecState, bool) {
    let st1 = RecState { max_lsn: if f.lsn > st.max_lsn { f.lsn } else { st.max_lsn }, ..st };
    if f.lsn <= ckpt {
        if f.op == 3 || f.op == 5 {
            (rec_marker(st1, f), true)
        } else if f.op == 4 {
            (RecState { active: st1.active.remove(f.tx_id), ..st1 }, true)
        } else {
            (st1, true)
        }
    } else if f.op == 1 {
        match parse_put(f.payload) {
            Some(e) => (rec_add(st1, f.tx_id, e), true),
            None => (st1, false),
        }
    } else if f.op == 2 {
        match parse_delete(f.payload) {
            Some(e) => (rec_add(st1, f.tx_id, e), true),
            None => (st1, false),
        }
    } else if f.op == 3 || f.op == 4 || f.op == 5 {
        (rec_marker(st1, f), true)
    } else {
        (st1, false)
    }
}

/// The frame at the start of `log`, if a whole one is there and its checksum holds; with the
/// number of bytes it takes.
pub open spec fn parse_frame(log: Seq<u8>) -> Option<(FrameView, int)> {
    if log.len() < 21 {
        None
    } else {
        let h = log.subrange(0, 21);
        let plen = u32_in(h, 17);
        if log.len() < 21 + plen + 4 {
            None
        } else {
            let payload = log.subrange(21, 21 + plen);
            if crc32_of(h + payload) != le_u32_value(log.subrange(21 + plen, 25 + plen)) {
                None
            } else {
                Some(
                    (
                        FrameView {
                            lsn: le_u64_value(h.subrange(0, 8)),
                            tx_id: le_u64_value(h.subrange(8, 16)),
                            op: h[16],
                            payload,
                        },
                        25 + plen,
                    ),
                )
            }
        }
    }
}

/// Recovery over `log`: frames are read in order until the log ends, a frame is torn or its
/// checksum fails, or an operation cannot be read.
pub open spec fn recover_log(log: Seq<u8>, ckpt: u64, st: RecState) -> RecState
    decreases log.len(),
{
    if log.len() < 21 {
        st
    } else {
        let plen = u32_in(log.subrange(0, 21), 17);
        if log.len() < 21 + plen + 4 {
            st
        } else {
            match parse_frame(log) {
                Some((f, n)) => {
                    let (st2, go_on) = rec_step(st, f, ckpt);
                    if go_on {
                        recover_log(log.skip(25 + plen), ckpt, st2)
                    } else {
                        st2
                    }
                },
                None => st,
            }
        }
    }
}


/// The bytes of a sequence of frames.
pub open spec fn encode_frames(fs: Seq<FrameView>) -> Seq<u8>
    decreases fs.len(),
{
    if fs.len() == 0 {
        Seq::empty()
    } else {
        frame_bytes(fs[0]) + encode_frames(fs.drop_first())
    }
}

/// Recovery over decoded frames; the flag says whether recovery would go on past them.
pub open spec fn replay(fs: Seq<FrameView>, ckpt: u64, st: RecState) -> (RecState, bool)
    decreases fs.len(),
{
    if fs.len() == 0 {
        (st, true)
    } else {
        let (st2, go_on) = rec_step(st, fs[0], ckpt);
        if go_on {
            replay(fs.drop_first(), ckpt, st2)
        } else {
            (st2, false)
        }
    }
}

pub open spec fn frames_fit(fs: Seq<FrameView>) -> bool {
    forall|i: int| 0 <= i < fs.len() ==> (#[trigger] fs[i]).payload.len() <= u32::MAX
}

/// A whole frame at the start of a log reads back as itself.
#[verifier::spinoff_prover]
#[verifier::rlimit(40)]
pub proof fn lemma_parse_frame_bytes(f: FrameView, rest: Seq<u8>)
    requires
        f.payload.len() <= u32::MAX,
    ensures
        parse_frame(frame_bytes(f) + rest) == Some((f, 25 + f.payload.len() as int)),
        u32_in((frame_bytes(f) + rest).subrange(0, 21), 17) == f.payload.len(),
        (frame_bytes(f) + rest).skip(25 + f.payload.len() as int) == rest,
{
    let plen: int = f.payload.len() as int;
    let h = header_bytes(f.lsn, f.tx_id, f.op, f.payload.len());
    let crc = crc32_of(h + f.payload);
    let log = frame_bytes(f) + rest;
    assert(log =~= h + f.payload + le_u32(crc) + rest);
    assert(h.len() == 21);
    assert(log.subrange(0, 21) == h) by {
        assert(log.subrange(0, 21) =~= h);
    }
    assert(u32_in(h, 17) == plen) by {
        lemma_le_u32_roundtrip(plen as u32);
        assert(h.subrange(17, 21) =~= le_u32(plen as u32));
    }
    assert(log.subrange(21, 21 + plen) == f.payload) by {
        assert(log.subrange(21, 21 + plen) =~= f.payload);
    }
    assert(le_u32_value(log.subrange(21 + plen, 25 + plen)) == crc) by {
        lemma_le_u32_roundtrip(crc);
        assert(log.subrange(21 + plen, 25 + plen) =~= le_u32(crc));
    }
    assert(le_u64_value(h.subrange(0, 8)) == f.lsn) by {
        lemma_le_u64_roundtrip(f.lsn);
        assert(h.subrange(0, 8) =~= le_u64(f.lsn));
    }
    assert(le_u64_value(h.subrange(8, 16)) == f.tx_id) by {
        lemma_le_u64_roundtrip(f.tx_id);
        assert(h.subrange(8, 16) =~= le_u64(f.tx_id));
    }
    assert(h[16] == f.op);
    assert(log.skip(25 + plen) =~= rest);
}

/// Recovering a log made of whole frames (and any tail) goes through the frames in order,
/// exactly as the recovery steps over the decoded frames do, and then on into the tail only
/// if no step stopped it.
pub proof fn lemma_recover_encoded(fs: Seq<FrameView>, tail: Seq<u8>, ckpt: u64, st: RecState)
    requires
        frames_fit(fs),
    ensures
        recover_log(encode_frames(fs) + tail, ckpt, st) == (if replay(fs, ckpt, st).1 {
            recover_log(tail, ckpt, replay(fs, ckpt, st).0)
        } else {
            replay(fs, ckpt, st).0
        }),
    decreases fs.len(),
{
    if fs.len() == 0 {
        assert(encode_frames(fs) + tail =~= tail);
    } else {
        let f = fs[0];
        let rest = fs.drop_first();
        assert(frames_fit(rest)) by {
            assert forall|i: int| 0 <= i < rest.len() implies (#[trigger] rest[i]).payload.len()
                <= u32::MAX by {
                assert(rest[i] == fs[i + 1]);
            }
        }
        assert(f.payload.len() <= u32::MAX) by {
            assert(fs[0] == f);
        }
        let t2 = encode_frames(rest) + tail;
        assert(encode_frames(fs) + tail =~= frame_bytes(f) + t2);
        lemma_parse_frame_bytes(f, t2);
        lemma_recover_encoded(rest, tail, ckpt, rec_step(st, f, ckpt).0);
    }
}

/// Recovery of a log made of whole frames is the replay of those frames, and a torn last
/// frame (fewer bytes than a header) is ignored.
pub proof fn lemma_recover_ignores_torn_tail(fs: Seq<FrameView>, tail: Seq<u8>, ckpt: u64)
    requires
        frames_fit(fs),
        tail.len() < FRAME_HEADER_SIZE,
    ensures
        recover_log(encode_frames(fs) + tail, ckpt, init_rec_state()) == replay(
            fs,
            ckpt,
            init_rec_state(),
        ).0,
        recover_log(encode_frames(fs), ckpt, init_rec_state()) == replay(fs, ckpt, init_rec_state()).0,
{
    lemma_recover_encoded(fs, tail, ckpt, init_rec_state());
    lemma_recover_encoded(fs, Seq::empty(), ckpt, init_rec_state());
    assert(encode_frames(fs) + Seq::<u8>::empty() =~= encode_frames(fs));
}

/// An operation inside a transaction reaches the committed operations only through that
/// transaction's COMMIT: any other frame of a transaction leaves them as they were.
pub proof fn lemma_uncommitted_stays_out(st: RecState, f: FrameView, ckpt: u64)
    requires
        f.tx_id != 0,
        f.op != 4,
    ensures
        rec_step(st, f, ckpt).0.committed == st.committed,
{
}

/// Frames of transactions that never commit leave the committed operations unchanged.
pub proof fn lemma_no_commit_no_effect(fs: Seq<FrameView>, ckpt: u64, st: RecState)
    requires
        forall|i: int| 0 <= i < fs.len() ==> (#[trigger] fs[i]).tx_id != 0 && fs[i].op != 4,
    ensures
        replay(fs, ckpt, st).0.committed == st.committed,
    decreases fs.len(),
{
    if fs.len() > 0 {
        let rest = fs.drop_first();
        assert forall|i: int| 0 <= i < rest.len() implies (#[trigger] rest[i]).tx_id != 0
            && rest[i].op != 4 by {
            assert(rest[i] == fs[i + 1]);
        }
        assert(fs[0].tx_id != 0 && fs[0].op != 4);
        lemma_no_commit_no_effect(rest, ckpt, rec_step(st, fs[0], ckpt).0);
    }
}

/// A committed transaction's operations are added, in order, when its COMMIT is read.
pub proof fn lemma_commit_publishes(st: RecState, f: FrameView, ckpt: u64)
    requires
        f.op == 4,
        f.lsn > ckpt,
        st.active.contains_key(f.tx_id),
    ensures
        rec_step(st, f, ckpt).0.committed == st.committed + st.active[f.tx_id],
        !rec_step(st, f, ckpt).0.active.contains_key(f.tx_id),
{
}

/// Whether `ops` are operations of transaction `tx` after checkpoint `ckpt` whose payloads
/// read as `es`, one for one: each a put or a delete.
pub open spec fn tx_operations(ops: Seq<FrameView>, tx: u64, ckpt: u64, es: Seq<EntryView>) -> bool {
    &&& ops.len() == es.len()
    &&& forall|i: int| 0 <= i < ops.len() ==> {
        &&& (#[trigger] ops[i]).tx_id == tx
        &&& ops[i].lsn > ckpt
        &&& ((ops[i].op == 1 && parse_put(ops[i].payload) == Some(es[i]))
            || (ops[i].op == 2 && parse_delete(ops[i].payload) == Some(es[i])))
    }
}

/// Replaying frames one after another is replaying the first ones, then the others from where
/// they left off (unless they stopped).
pub proof fn lemma_replay_concat(a: Seq<FrameView>, b: Seq<FrameView>, ckpt: u64, st: RecState)
    ensures
        replay(a + b, ckpt, st) == (if replay(a, ckpt, st).1 {
            replay(b, ckpt, replay(a, ckpt, st).0)
        } else {
            replay(a, ckpt, st)
        }),
    decreases a.len(),
{
    if a.len() == 0 {
        assert(a + b =~= b);
    } else {
        assert((a + b).drop_first() =~= a.drop_first() + b);
        assert((a + b)[0] == a[0]);
        lemma_replay_concat(a.drop_first(), b, ckpt, rec_step(st, a[0], ckpt).0);
    }
}

/// The operations of an open transaction gather, in log order, behind those it held.
proof fn lemma_operations_gathered(ops: Seq<FrameView>, tx: u64, ckpt: u64, es: Seq<EntryView>, st: RecState)
    requires
        tx > 0,
        tx_operations(ops, tx, ckpt, es),
        st.active.contains_key(tx),
    ensures
        replay(ops, ckpt, st).1,
        replay(ops, ckpt, st).0.committed == st.committed,
        replay(ops, ckpt, st).0.active.contains_key(tx),
        replay(ops, ckpt, st).0.active[tx] == st.active[tx] + es,
    decreases ops.len(),
{
    if ops.len() == 0 {
        assert(st.active[tx] + es =~= st.active[tx]);
    } else {
        let f = ops[0];
        let st2 = rec_step(st, f, ckpt).0;
        assert(rec_step(st, f, ckpt).1);
        assert(st2.active[tx] == st.active[tx].push(es[0]));
        assert(tx_operations(ops.drop_first(), tx, ckpt, es.drop_first())) by {
            assert forall|i: int| 0 <= i < ops.drop_first().len() implies {
                &&& (#[trigger] ops.drop_first()[i]).tx_id == tx
                &&& ops.drop_first()[i].lsn > ckpt
                &&& ((ops.drop_first()[i].op == 1 && parse_put(ops.drop_first()[i].payload) == Some(es.drop_first()[i]))
                    || (ops.drop_first()[i].op == 2 && parse_delete(ops.drop_first()[i].payload) == Some(es.drop_first()[i])))
            } by {
                assert(ops.drop_first()[i] == ops[i + 1]);
                assert(es.drop_first()[i] == es[i + 1]);
            }
        }
        lemma_operations_gathered(ops.drop_first(), tx, ckpt, es.drop_first(), st2);
        assert(st.active[tx].push(es[0]) + es.drop_first() =~= st.active[tx] + es);
    }
}

/// A committed transaction is recovered whole: replaying its BEGIN, its operations and its
/// COMMIT (all after the checkpoint) adds every one of its operations, in log order, to the
/// committed operations, and recovery goes on past it; the same holds for the log bytes of
/// those frames, whatever follows them.
pub proof fn lemma_committed_transaction_recovered(
    st: RecState,
    ckpt: u64,
    begin: FrameView,
    ops: Seq<FrameView>,
    commit: FrameView,
    es: Seq<EntryView>,
)
    requires
        begin.op == 3,
        commit.op == 4,
        begin.tx_id > 0,
        commit.tx_id == begin.tx_id,
        begin.lsn > ckpt,
        commit.lsn > ckpt,
        tx_operations(ops, begin.tx_id, ckpt, es),
    ensures
        replay(seq![begin] + ops + seq![commit], ckpt, st).1,
        replay(seq![begin] + ops + seq![commit], ckpt, st).0.committed == st.committed + es,
        frames_fit(seq![begin] + ops + seq![commit]) ==> recover_log(encode_frames(seq![begin] + ops + seq![commit]), ckpt, st).committed
            == st.committed + es,
{
    let tx = begin.tx_id;
    let st1 = rec_step(st, begin, ckpt).0;
    assert(rec_step(st, begin, ckpt).1);
    assert(st1.active.contains_key(tx) && st1.active[tx] == Seq::<EntryView>::empty());
    assert(replay(seq![begin], ckpt, st) == (st1, true)) by {
        assert(seq![begin].drop_first() =~= Seq::<FrameView>::empty());
        assert(seq![begin][0] == begin);
        assert(replay(Seq::<FrameView>::empty(), ckpt, st1) == (st1, true));
    }
    lemma_operations_gathered(ops, tx, ckpt, es, st1);
    let st2 = replay(ops, ckpt, st1).0;
    assert(Seq::<EntryView>::empty() + es =~= es);
    lemma_replay_concat(seq![begin], ops, ckpt, st);
    assert(replay(seq![commit], ckpt, st2) == (rec_step(st2, commit, ckpt).0, true)) by {
        assert(seq![commit].drop_first() =~= Seq::<FrameView>::empty());
        assert(seq![commit][0] == commit);
        assert(rec_step(st2, commit, ckpt).1);
        assert(replay(Seq::<FrameView>::empty(), ckpt, rec_step(st2, commit, ckpt).0) == (rec_step(st2, commit, ckpt).0, true));
    }
    lemma_commit_publishes(st2, commit, ckpt);
    lemma_replay_concat(seq![begin] + ops, seq![commit], ckpt, st);
    if frames_fit(seq![begin] + ops + seq![commit]) {
        lemma_recover_encoded(seq![begin] + ops + seq![commit], Seq::empty(), ckpt, st);
        assert(encode_frames(seq![begin] + ops + seq![commit]) + Seq::<u8>::empty() =~= encode_frames(seq![begin] + ops + seq![commit]));
    }
}

pub open spec fn active_view(m: Map<u64, Vec<WalEntry>>) -> Map<u64, Seq<EntryView>> {
    m.map_values(|v: Vec<WalEntry>| entries_view(v@))
}

pub open spec fn rec_state_of(
    committed: Seq<WalEntry>,
    active: Map<u64, Vec<WalEntry>>,
    max_lsn: u64,
) -> RecState {
    RecState { committed: entries_view(committed), active: active_view(active), max_lsn }
}

/// Reads the put in `log[a..b]`, as `parse_put` describes.
fn read_put(log: &[u8], a: usize, b: usize) -> (r: Option<WalEntry>)
    requires
        a <= b <= log@.len(),
    ensures
        match r {
            Some(e) => parse_put(log@.subrange(a as int, b as int)) == Some(e.view()),
            None => parse_put(log@.subrange(a as int, b as int)) is None,
        },
{
    let ghost p = log@.subrange(a as int, b as int);
    let len = b - a;
    if len < 8 {
        return None;
    }
    let klen = read_u32_le(log, a) as usize;
    assert(log@.subrange(a as int, a + 4) =~= p.subrange(0, 4));
    if len - 8 < klen {
        return None;
    }
    let vat = a + 4 + klen;
    let vlen = read_u32_le(log, vat) as usize;
    assert(log@.subrange(vat as int, vat + 4) =~= p.subrange(4 + klen, 8 + klen));
    if len - 8 - klen < vlen {
        return None;
    }
    let key = copy_range(log, a + 4, vat);
    let val = copy_range(log, vat + 4, vat + 4 + vlen);
    assert(key@ =~= p.subrange(4, 4 + klen));
    assert(val@ =~= p.subrange(8 + klen, 8 + klen + vlen));
    Some(WalEntry::Put(key, val))
}

/// Reads the delete in `log[a..b]`, as `parse_delete` describes.
fn read_delete(log: &[u8], a: usize, b: usize) -> (r: Option<WalEntry>)
    requires
        a <= b <= log@.len(),
    ensures
        match r {
            Some(e) => parse_delete(log@.subrange(a as int, b as int)) == Some(e.view()),
            None => parse_delete(log@.subrange(a as int, b as int)) is None,
        },
{
    let ghost p = log@.subrange(a as int, b as int);
    let len = b - a;
    if len < 4 {
        return None;
    }
    let klen = read_u32_le(log, a) as usize;
    assert(log@.subrange(a as int, a + 4) =~= p.subrange(0, 4));
    if len - 4 < klen {
        return None;
    }
    let key = copy_range(log, a + 4, a + 4 + klen);
    assert(key@ =~= p.subrange(4, 4 + klen));
    Some(WalEntry::Delete(key))
}

/// The location and header fields of a frame read from the log.
struct FrameAt {
    lsn: u64,
    tx_id: u64,
    op: u8,
    payload_start: usize,
    payload_end: usize,
}

/// Reads the frame at `off`, as `parse_frame` of the rest of the log describes; `None` where
/// no whole frame with a good checksum is there.
fn read_frame(log: &[u8], off: usize) -> (r: Option<FrameAt>)
    requires
        off <= log@.len(),
    ensures
        match r {
            Some(fa) => {
                &&& parse_frame(log@.skip(off as int)) matches Some((f, n))
                &&& f.lsn == fa.lsn
                &&& f.tx_id == fa.tx_id
                &&& f.op == fa.op
                &&& fa.payload_start == off + 21
                &&& fa.payload_end == off + n - 4
                &&& off + n <= log@.len()
                &&& f.payload == log@.subrange(fa.payload_start as int, fa.payload_end as int)
                &&& n == 25 + u32_in(log@.skip(off as int).subrange(0, 21), 17)
            },
            None => {
                ||| log@.len() - off < 21
                ||| log@.len() - off < 21 + u32_in(log@.skip(off as int).subrange(0, 21), 17) + 4
                ||| parse_frame(log@.skip(off as int)) is None
            },
        },
{
    let ghost l = log@.skip(off as int);
    let rest = log.len() - off;
    if rest < 21 {
        return None;
    }
    let ghost h = l.subrange(0, 21);
    let plen = read_u32_le(log, off + 17) as usize;
    assert(log@.subrange(off + 17, off + 21) =~= h.subrange(17, 21));
    if rest - 21 < plen || rest - 21 - plen < 4 {
        return None;
    }
    let payload_start = off + 21;
    let payload_end = payload_start + plen;
    let stored = read_u32_le(log, payload_end);
    assert(log@.subrange(payload_end as int, payload_end + 4) =~= l.subrange(21 + plen, 25 + plen));
    let covered = &log[off..payload_end];
    let computed = crc32(covered);
    assert(covered@ =~= h + l.subrange(21, 21 + plen));
    if computed != stored {
        return None;
    }
    let lsn = read_u64_le(log, off);
    assert(log@.subrange(off as int, off + 8) =~= h.subrange(0, 8));
    let tx_id = read_u64_le(log, off + 8);
    assert(log@.subrange(off + 8, off + 16) =~= h.subrange(8, 16));
    let op = log[off + 16];
    assert(log@.subrange(payload_start as int, payload_end as int) =~= l.subrange(21, 21 + plen));
    Some(FrameAt { lsn, tx_id, op, payload_start, payload_end })
}

/// Adds an operation to the recovery state, as `rec_add` describes.
fn add_entry(
    committed: &mut Vec<WalEntry>,
    active: &mut HashMap<u64, Vec<WalEntry>>,
    max_lsn: u64,
    tx_id: u64,
    e: WalEntry,
)
    ensures
        rec_state_of(final(committed)@, final(active)@, max_lsn) == rec_add(
            rec_state_of(old(committed)@, old(active)@, max_lsn),
            tx_id,
            e.view(),
        ),
{
    let ghost st = rec_state_of(committed@, active@, max_lsn);
    if tx_id == 0 {
        committed.push(e);
        assert(entries_view(committed@) =~= st.committed.push(e.view()));
    } else {
        let removed = active.remove(&tx_id);
        match removed {
            Some(mut v) => {
                v.push(e);
                active.insert(tx_id, v);
                assert(entries_view(v@) =~= st.active[tx_id].push(e.view()));
            },
            None => {
                let mut v: Vec<WalEntry> = Vec::new();
                v.push(e);
                active.insert(tx_id, v);
                assert(entries_view(v@) =~= Seq::<EntryView>::empty().push(e.view()));
            },
        }
        assert(active_view(active@) =~= st.active.insert(tx_id, rec_add(st, tx_id, e.view()).active[tx_id]));
    }
}

/// Applies a transaction marker to the recovery state, as `rec_marker` describes.
fn apply_marker(
    committed: &mut Vec<WalEntry>,
    active: &mut HashMap<u64, Vec<WalEntry>>,
    max_lsn: u64,
    tx_id: u64,
    op: u8,
)
    ensures
        forall|f: FrameView|
            f.tx_id == tx_id && f.op == op ==> rec_state_of(final(committed)@, final(active)@, max_lsn)
                == #[trigger] rec_marker(rec_state_of(old(committed)@, old(active)@, max_lsn), f),
{
    let ghost st = rec_state_of(committed@, active@, max_lsn);
    if op == 3 {
        if tx_id > 0 {
            let v: Vec<WalEntry> = Vec::new();
            assert(entries_view(v@) =~= Seq::<EntryView>::empty());
            active.insert(tx_id, v);
            assert(active_view(active@) =~= st.active.insert(tx_id, Seq::empty()));
        }
    } else if op == 4 {
        let removed = active.remove(&tx_id);
        match removed {
            Some(mut v) => {
                let ghost moved = entries_view(v@);
                committed.append(&mut v);
                assert(entries_view(committed@) =~= st.committed + moved);
                assert(active_view(active@) =~= st.active.remove(tx_id));
            },
            None => {
                assert(active_view(active@) =~= st.active);
            },
        }
    } else if op == 5 {
        active.remove(&tx_id);
        assert(active_view(active@) =~= st.active.remove(tx_id));
    }
}

/// The write-ahead log: the last LSN handed out and the frames not yet taken for writing.
pub struct WriteAheadLog {
    lsn: u64,
    pending: Vec<u8>,
}

impl WriteAheadLog {
    pub closed spec fn spec_lsn(&self) -> u64 {
        self.lsn
    }

    /// The frames produced and not yet taken.
    pub closed spec fn spec_pending(&self) -> Seq<u8> {
        self.pending@
    }

    /// An empty log.
    pub fn new() -> (w: WriteAheadLog)
        ensures
            w.spec_lsn() == 0,
            w.spec_pending() == Seq::<u8>::empty(),
    {
        WriteAheadLog { lsn: 0, pending: Vec::new() }
    }

    /// Returns the current LSN.
    pub fn current_lsn(&self) -> (lsn: u64)
        ensures
            lsn == self.spec_lsn(),
    {
        self.lsn
    }

    /// Appends a frame and returns its LSN.
    fn write_record(&mut self, tx_id: u64, op: WalOpType, payload: &[u8]) -> (lsn: u64)
        requires
            old(self).spec_lsn() < u64::MAX,
        ensures
            lsn == old(self).spec_lsn() + 1,
            final(self).spec_lsn() == lsn,
            final(self).spec_pending() == old(self).spec_pending() + frame_bytes(
                FrameView { lsn, tx_id, op: op_code(op), payload: payload@ },
            ),
    {
        self.lsn = self.lsn + 1;
        let lsn = self.lsn;
        let code = op.code();
        let mut frame: Vec<u8> = Vec::new();
        push_u64_le(&mut frame, lsn);
        push_u64_le(&mut frame, tx_id);
        frame.push(code);
        push_u32_le(&mut frame, payload.len() as u32);
        assert(frame@ =~= header_bytes(lsn, tx_id, code, payload@.len()));
        push_bytes(&mut frame, payload);
        let crc = crc32(frame.as_slice());
        push_u32_le(&mut frame, crc);
        push_bytes(&mut self.pending, frame.as_slice());
        lsn
    }

    /// Appends a PUT operation outside any transaction.
    pub fn append_put(&mut self, key: &[u8], value: &[u8]) -> (lsn: u64)
        requires
            old(self).spec_lsn() < u64::MAX,
        ensures
            lsn == old(self).spec_lsn() + 1,
            final(self).spec_lsn() == lsn,
            final(self).spec_pending() == old(self).spec_pending() + frame_bytes(
                FrameView { lsn, tx_id: 0, op: 1, payload: put_payload(key@, value@) },
            ),
    {
        self.append_tx_put(0, key, value)
    }

    /// Appends a PUT operation of transaction `tx_id`.
    pub fn append_tx_put(&mut self, tx_id: u64, key: &[u8], value: &[u8]) -> (lsn: u64)
        requires
            old(self).spec_lsn() < u64::MAX,
        ensures
            lsn == old(self).spec_lsn() + 1,
            final(self).spec_lsn() == lsn,
            final(self).spec_pending() == old(self).spec_pending() + frame_bytes(
                FrameView { lsn, tx_id, op: 1, payload: put_payload(key@, value@) },
            ),
    {
        let mut payload: Vec<u8> = Vec::new();
        push_u32_le(&mut payload, key.len() as u32);
        push_bytes(&mut payload, key);
        push_u32_le(&mut payload, value.len() as u32);
        push_bytes(&mut payload, value);
        assert(payload@ =~= put_payload(key@, value@));
        self.write_record(tx_id, WalOpType::Put, payload.as_slice())
    }

    /// Appends a DELETE operation outside any transaction.
    pub fn append_delete(&mut self, key: &[u8]) -> (lsn: u64)
        requires
            old(self).spec_lsn() < u64::MAX,
        ensures
            lsn == old(self).spec_lsn() + 1,
            final(self).spec_lsn() == lsn,
            final(self).spec_pending() == old(self).spec_pending() + frame_bytes(
                FrameView { lsn, tx_id: 0, op: 2, payload: delete_payload(key@) },
            ),
    {
        self.append_tx_delete(0, key)
    }

    /// Appends a DELETE operation of transaction `tx_id`.
    pub fn append_tx_delete(&mut self, tx_id: u64, key: &[u8]) -> (lsn: u64)
        requires
            old(self).spec_lsn() < u64::MAX,
        ensures
            lsn == old(self).spec_lsn() + 1,
            final(self).spec_lsn() == lsn,
            final(self).spec_pending() == old(self).spec_pending() + frame_bytes(
                FrameView { lsn, tx_id, op: 2, payload: delete_payload(key@) },
            ),
    {
        let mut payload: Vec<u8> = Vec::new();
        push_u32_le(&mut payload, key.len() as u32);
        push_bytes(&mut payload, key);
        assert(payload@ =~= delete_payload(key@));
        self.write_record(tx_id, WalOpType::Delete, payload.as_slice())
    }

    /// Logs the start of transaction `tx_id`.
    pub fn append_begin(&mut self, tx_id: u64) -> (lsn: u64)
        requires
            old(self).spec_lsn() < u64::MAX,
        ensures
            lsn == old(self).spec_lsn() + 1,
            final(self).spec_lsn() == lsn,
            final(self).spec_pending() == old(self).spec_pending() + frame_bytes(
                FrameView { lsn, tx_id, op: 3, payload: Seq::empty() },
            ),
    {
        let empty: Vec<u8> = Vec::new();
        self.write_record(tx_id, WalOpType::Begin, empty.as_slice())
    }

    /// Logs the commit of transaction `tx_id`.
    pub fn append_commit(&mut self, tx_id: u64) -> (lsn: u64)
        requires
            old(self).spec_lsn() < u64::MAX,
        ensures
            lsn == old(self).spec_lsn() + 1,
            final(self).spec_lsn() == lsn,
            final(self).spec_pending() == old(self).spec_pending() + frame_bytes(
                FrameView { lsn, tx_id, op: 4, payload: Seq::empty() },
            ),
    {
        let empty: Vec<u8> = Vec::new();
        self.write_record(tx_id, WalOpType::Commit, empty.as_slice())
    }

    /// Logs the rollback of transaction `tx_id`.
    pub fn append_rollback(&mut self, tx_id: u64) -> (lsn: u64)
        requires
            old(self).spec_lsn() < u64::MAX,
        ensures
            lsn == old(self).spec_lsn() + 1,
            final(self).spec_lsn() == lsn,
            final(self).spec_pending() == old(self).spec_pending() + frame_bytes(
                FrameView { lsn, tx_id, op: 5, payload: Seq::empty() },
            ),
    {
        let empty: Vec<u8> = Vec::new();
        self.write_record(tx_id, WalOpType::Rollback, empty.as_slice())
    }

    /// Hands out the frames produced since the last call, for appending to the log file.
    pub fn take_pending(&mut self) -> (frames: Vec<u8>)
        ensures
            frames@ == old(self).spec_pending(),
            final(self).spec_pending() == Seq::<u8>::empty(),
            final(self).spec_lsn() == old(self).spec_lsn(),
    {
        let mut frames: Vec<u8> = Vec::new();
        frames.append(&mut self.pending);
        assert(frames@ =~= old(self).spec_pending());
        frames
    }

    /// Raises the log's LSN to `lsn` where it is below it, so that every LSN handed out
    /// afterwards lies above `lsn` (the LSN a checkpoint covered).
    pub fn resume_after(&mut self, lsn: u64)
        ensures
            final(self).spec_lsn() == if old(self).spec_lsn() < lsn { lsn } else { old(self).spec_lsn() },
            final(self).spec_pending() == old(self).spec_pending(),
    {
        if self.lsn < lsn {
            self.lsn = lsn;
        }
    }

    /// Checkpoints the log: every frame is discarded and LSNs start over.
    pub fn checkpoint(&mut self)
        ensures
            final(self).spec_lsn() == 0,
            final(self).spec_pending() == Seq::<u8>::empty(),
    {
        self.pending.clear();
        self.lsn = 0;
    }

    /// Reads the committed operations of a log for crash recovery. Frames are checked against
    /// their checksums and reading stops at the first torn or damaged frame. Operations with an
    /// LSN at or below `checkpoint_lsn` are not replayed, though their transaction markers are
    /// still followed. The log's LSN becomes the highest LSN read.
    pub fn recover(&mut self, log: &[u8], checkpoint_lsn: u64) -> (entries: Vec<WalEntry>)
        ensures
            entries_view(entries@) == recover_log(log@, checkpoint_lsn, init_rec_state()).committed,
            final(self).spec_lsn() == recover_log(log@, checkpoint_lsn, init_rec_state()).max_lsn,
            final(self).spec_pending() == old(self).spec_pending(),
    {
        let mut committed: Vec<WalEntry> = Vec::new();
        let mut active: HashMap<u64, Vec<WalEntry>> = HashMap::new();
        let mut max_lsn: u64 = 0;
        let mut off: usize = 0;
        let ghost goal = recover_log(log@, checkpoint_lsn, init_rec_state());
        assert(log@.skip(0) =~= log@);
        let total = log.len();
        assert(entries_view(committed@) =~= Seq::<EntryView>::empty());
        assert(active_view(active@) =~= Map::<u64, Seq<EntryView>>::empty());
        loop
            invariant
                off <= log@.len(),
                total == log@.len(),
                recover_log(log@.skip(off as int), checkpoint_lsn, rec_state_of(committed@, active@, max_lsn)) == goal,
            ensures
                rec_state_of(committed@, active@, max_lsn) == goal,
            decreases log@.len() - off,
        {
            let ghost l = log@.skip(off as int);
            let ghost st = rec_state_of(committed@, active@, max_lsn);
            let fr = read_frame(log, off);
            match fr {
                None => {
                    break;
                },
                Some(fa) => {
                    let ghost (f, n) = parse_frame(l)->0;
                    if fa.lsn > max_lsn {
                        max_lsn = fa.lsn;
                    }
                    let ghost st1 = rec_state_of(committed@, active@, max_lsn);
                    assert(st1 == RecState { max_lsn: if f.lsn > st.max_lsn { f.lsn } else { st.max_lsn }, ..st });
                    let next = fa.payload_end + 4;
                    assert(l.skip(n) =~= log@.skip(next as int));
                    if fa.lsn <= checkpoint_lsn {
                        if fa.op == 3 || fa.op == 5 {
                            apply_marker(&mut committed, &mut active, max_lsn, fa.tx_id, fa.op);
                        } else if fa.op == 4 {
                            active.remove(&fa.tx_id);
                            assert(active_view(active@) =~= st1.active.remove(f.tx_id));
                        }
                        off = next;
                    } else if fa.op == 1 {
                        match read_put(log, fa.payload_start, fa.payload_end) {
                            Some(e) => {
                                add_entry(&mut committed, &mut active, max_lsn, fa.tx_id, e);
                                off = next;
                            },
                            None => {
                                break;
                            },
                        }
                    } else if fa.op == 2 {
                        match read_delete(log, fa.payload_start, fa.payload_end) {
                            Some(e) => {
                                add_entry(&mut committed, &mut active, max_lsn, fa.tx_id, e);
                                off = next;
                            },
                            None => {
                                break;
                            },
                        }
                    } else if fa.op == 3 || fa.op == 4 || fa.op == 5 {
                        apply_marker(&mut committed, &mut active, max_lsn, fa.tx_id, fa.op);
                        off = next;
                    } else {
                        break;
                    }
                },
            }
        }
        self.lsn = max_lsn;
        committed
    }
}


/// The payload of a put reads back as that put.
pub proof fn lemma_parse_put_payload(key: Seq<u8>, val: Seq<u8>)
    requires
        key.len() <= u32::MAX,
        val.len() <= u32::MAX,
    ensures
        parse_put(put_payload(key, val)) == Some(EntryView::Put(key, val)),
{
    let p = put_payload(key, val);
    let kl = key.len() as int;
    let vl = val.len() as int;
    lemma_le_u32_roundtrip(key.len() as u32);
    lemma_le_u32_roundtrip(val.len() as u32);
    assert(p.subrange(0, 4) =~= le_u32(key.len() as u32));
    assert(p.subrange(4, 4 + kl) =~= key);
    assert(p.subrange(4 + kl, 8 + kl) =~= le_u32(val.len() as u32));
    assert(p.subrange(8 + kl, 8 + kl + vl) =~= val);
}

/// A transaction logged after the checkpoint as its begin, one put and its commit is
/// recovered: the put joins the committed operations, after those committed before.
pub proof fn lemma_committed_put_recovered(st: RecState, ckpt: u64, tx_id: u64, lsn: u64, key: Seq<u8>, val: Seq<u8>)
    requires
        tx_id > 0,
        ckpt < lsn,
        lsn + 2 <= u64::MAX,
        key.len() <= u32::MAX,
        val.len() <= u32::MAX,
    ensures
        replay(
            seq![
                FrameView { lsn, tx_id, op: 3, payload: Seq::empty() },
                FrameView { lsn: (lsn + 1) as u64, tx_id, op: 1, payload: put_payload(key, val) },
                FrameView { lsn: (lsn + 2) as u64, tx_id, op: 4, payload: Seq::empty() },
            ],
            ckpt,
            st,
        ).0.committed == st.committed.push(EntryView::Put(key, val)),
{
    let f0 = FrameView { lsn, tx_id, op: 3, payload: Seq::empty() };
    let f1 = FrameView { lsn: (lsn + 1) as u64, tx_id, op: 1, payload: put_payload(key, val) };
    let f2 = FrameView { lsn: (lsn + 2) as u64, tx_id, op: 4, payload: Seq::empty() };
    let fs = seq![f0, f1, f2];
    lemma_parse_put_payload(key, val);
    let s1 = rec_step(st, f0, ckpt).0;
    assert(s1.active[tx_id] == Seq::<EntryView>::empty());
    let s2 = rec_step(s1, f1, ckpt).0;
    assert(s2.active[tx_id] =~= seq![EntryView::Put(key, val)]);
    assert(fs.drop_first() =~= seq![f1, f2]);
    assert(seq![f1, f2].drop_first() =~= seq![f2]);
    assert(seq![f2].drop_first() =~= Seq::<FrameView>::empty());
    assert(rec_step(s2, f2, ckpt).0.committed =~= st.committed.push(EntryView::Put(key, val)));
    assert(rec_step(st, f0, ckpt).1 && rec_step(s1, f1, ckpt).1 && rec_step(s2, f2, ckpt).1);
    assert(replay(Seq::<FrameView>::empty(), ckpt, rec_step(s2, f2, ckpt).0) == (rec_step(s2, f2, ckpt).0, true));
    assert(seq![f2][0] == f2);
    assert(replay(seq![f2], ckpt, s2) == (rec_step(s2, f2, ckpt).0, true));
    assert(seq![f1, f2][0] == f1);
    assert(replay(seq![f1, f2], ckpt, s1) == replay(seq![f2], ckpt, s2));
    assert(fs[0] == f0);
    assert(replay(fs, ckpt, st) == replay(seq![f1, f2], ckpt, s1));
}

/// Byte sequences join associatively, and joining nothing changes nothing.
pub proof fn lemma_bytes_joined(a: Seq<u8>, b: Seq<u8>, c: Seq<u8>)
    ensures
        c + Seq::<u8>::empty() == c,
        a + (b + c) == a + b + c,
{
    assert(c + Seq::<u8>::empty() =~= c);
    assert(a + (b + c) =~= a + b + c);
}

/// Recovery reads a whole frame at the front of the log and goes on with the rest when its
/// step lets it.
pub proof fn lemma_recover_frame(f: FrameView, rest: Seq<u8>, ckpt: u64, st: RecState)
    requires
        f.payload.len() <= u32::MAX,
        rec_step(st, f, ckpt).1,
    ensures
        recover_log(frame_bytes(f) + rest, ckpt, st) == recover_log(rest, ckpt, rec_step(st, f, ckpt).0),
{
    lemma_parse_frame_bytes(f, rest);
}

/// The recovery steps over a transaction's begin, one put and its commit all go on, and the
/// put joins the committed operations.
proof fn lemma_put_tx_steps(st: RecState, ckpt: u64, tx_id: u64, lsn: u64, key: Seq<u8>, val: Seq<u8>)
    requires
        tx_id > 0,
        ckpt < lsn,
        lsn + 2 <= u64::MAX,
        8 + key.len() + val.len() <= u32::MAX,
    ensures
        ({
            let f0 = FrameView { lsn, tx_id, op: 3, payload: Seq::empty() };
            let f1 = FrameView { lsn: (lsn + 1) as u64, tx_id, op: 1, payload: put_payload(key, val) };
            let f2 = FrameView { lsn: (lsn + 2) as u64, tx_id, op: 4, payload: Seq::empty() };
            let s1 = rec_step(st, f0, ckpt).0;
            let s2 = rec_step(s1, f1, ckpt).0;
            &&& rec_step(st, f0, ckpt).1
            &&& rec_step(s1, f1, ckpt).1
            &&& rec_step(s2, f2, ckpt).1
            &&& rec_step(s2, f2, ckpt).0.committed == st.committed.push(EntryView::Put(key, val))
            &&& f1.payload.len() <= u32::MAX
        }),
{
    let f0 = FrameView { lsn, tx_id, op: 3, payload: Seq::empty() };
    let f1 = FrameView { lsn: (lsn + 1) as u64, tx_id, op: 1, payload: put_payload(key, val) };
    let f2 = FrameView { lsn: (lsn + 2) as u64, tx_id, op: 4, payload: Seq::empty() };
    lemma_parse_put_payload(key, val);
    assert(put_payload(key, val).len() == 8 + key.len() + val.len());
    let s1 = rec_step(st, f0, ckpt).0;
    assert(s1.active[tx_id] == Seq::<EntryView>::empty());
    let s2 = rec_step(s1, f1, ckpt).0;
    assert(s2.active[tx_id] =~= seq![EntryView::Put(key, val)]);
    assert(rec_step(s2, f2, ckpt).0.committed =~= st.committed.push(EntryView::Put(key, val)));
}

/// The bytes a transaction of one put leaves in the log (its begin, the put and its commit,
/// numbered from `lsn` on) bring that put back on recovery, after what was committed before:
/// a committed write survives a crash.
pub proof fn lemma_committed_put_bytes(st: RecState, ckpt: u64, tx_id: u64, lsn: u64, key: Seq<u8>, val: Seq<u8>)
    requires
        tx_id > 0,
        ckpt < lsn,
        lsn + 2 <= u64::MAX,
        8 + key.len() + val.len() <= u32::MAX,
    ensures
        recover_log(
            frame_bytes(FrameView { lsn, tx_id, op: 3, payload: Seq::empty() })
                + frame_bytes(FrameView { lsn: (lsn + 1) as u64, tx_id, op: 1, payload: put_payload(key, val) })
                + frame_bytes(FrameView { lsn: (lsn + 2) as u64, tx_id, op: 4, payload: Seq::empty() }),
            ckpt,
            st,
        ).committed == st.committed.push(EntryView::Put(key, val)),
{
    let f0 = FrameView { lsn, tx_id, op: 3, payload: Seq::empty() };
    let f1 = FrameView { lsn: (lsn + 1) as u64, tx_id, op: 1, payload: put_payload(key, val) };
    let f2 = FrameView { lsn: (lsn + 2) as u64, tx_id, op: 4, payload: Seq::empty() };
    let a = frame_bytes(f0);
    let b = frame_bytes(f1);
    let c = frame_bytes(f2);
    lemma_bytes_joined(a, b, c);
    lemma_put_tx_steps(st, ckpt, tx_id, lsn, key, val);
    let s1 = rec_step(st, f0, ckpt).0;
    let s2 = rec_step(s1, f1, ckpt).0;
    let s3 = rec_step(s2, f2, ckpt).0;
    lemma_recover_frame(f0, b + c, ckpt, st);
    lemma_recover_frame(f1, c, ckpt, s1);
    lemma_recover_frame(f2, Seq::empty(), ckpt, s2);
    assert(recover_log(Seq::<u8>::empty(), ckpt, s3) == s3);
}

/// A log holding just a transaction's begin, one put and its commit, all after the
/// checkpoint, recovers that put as the one committed operation: a committed write survives
/// a crash.
#[verifier::rlimit(40)]
pub proof fn lemma_committed_put_log(ckpt: u64, tx_id: u64, lsn: u64, key: Seq<u8>, val: Seq<u8>)
    requires
        tx_id > 0,
        ckpt < lsn,
        lsn + 2 <= u64::MAX,
        8 + key.len() + val.len() <= u32::MAX,
    ensures
        recover_log(
            encode_frames(seq![
                FrameView { lsn, tx_id, op: 3, payload: Seq::empty() },
                FrameView { lsn: (lsn + 1) as u64, tx_id, op: 1, payload: put_payload(key, val) },
                FrameView { lsn: (lsn + 2) as u64, tx_id, op: 4, payload: Seq::empty() },
            ]),
            ckpt,
            init_rec_state(),
        ).committed == seq![EntryView::Put(key, val)],
{
    let f0 = FrameView { lsn, tx_id, op: 3, payload: Seq::empty() };
    let f1 = FrameView { lsn: (lsn + 1) as u64, tx_id, op: 1, payload: put_payload(key, val) };
    let f2 = FrameView { lsn: (lsn + 2) as u64, tx_id, op: 4, payload: Seq::empty() };
    let fs = seq![f0, f1, f2];
    assert(frames_fit(fs)) by {
        assert(put_payload(key, val).len() == 8 + key.len() + val.len());
    }
    lemma_recover_ignores_torn_tail(fs, Seq::empty(), ckpt);
    lemma_committed_put_recovered(init_rec_state(), ckpt, tx_id, lsn, key, val);
    assert(init_rec_state().committed.push(EntryView::Put(key, val)) =~= seq![EntryView::Put(key, val)]);
}

/// Recovery stops at a frame that is torn or whose checksum does not hold: nothing from that
/// point of the log on is replayed.
pub proof fn lemma_recover_stops_at_damage(log: Seq<u8>, ckpt: u64, st: RecState)
    requires
        parse_frame(log) is None,
    ensures
        recover_log(log, ckpt, st) == st,
{
}

/// A put or delete frame at or below the checkpoint LSN is skipped: it reaches neither the
/// committed operations nor any open transaction, and recovery goes on past it.
pub proof fn lemma_checkpointed_op_skipped(st: RecState, f: FrameView, ckpt: u64)
    requires
        f.lsn <= ckpt,
        f.op == 1 || f.op == 2,
    ensures
        rec_step(st, f, ckpt).0.committed == st.committed,
        rec_step(st, f, ckpt).0.active == st.active,
        rec_step(st, f, ckpt).1,
{
}

} // verus!
