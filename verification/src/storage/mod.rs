//! The storage engine: pages, the buffer pool and the B+ tree.
pub mod btree;
pub mod buffer_pool;
pub mod ordered;
pub mod pager;
pub mod tree;

use crate::config::Config;
use crate::storage::buffer_pool::BufferPool;
use crate::storage::pager::{Pager, PagerError, PAGE_SIZE};
use crate::storage::tree::{delete_in_place, inline_put_fits, inline_stored, pages_of, scan_result, pairs_view, BTree};
use crate::wal::{entries_view, init_rec_state, recover_log, WalEntry, WriteAheadLog};
use vstd::prelude::*;

verus! {

/// Errors raised by the storage engine.
#[derive(Debug, Clone, PartialEq, Eq)]
pub enum StorageError {
    /// A node's encoding does not fit in one page.
    NodeTooLarge { size: usize },
    /// A key is longer than the maximum key size.
    KeyTooLarge { size: usize },
    /// A page does not hold what the tree expects there: a child index out of range, or a
    /// chain of pages longer than the store.
    CorruptPage { page_id: u32 },
    /// Every page id is in use.
    StoreFull,
}

/// Errors raised by the database.
#[derive(Debug, Clone, PartialEq, Eq)]
pub enum DbError {
    /// The storage engine failed.
    Storage(StorageError),
    /// The data file could not be read as a page store.
    Pager(PagerError),
    /// The log has used every LSN.
    LogFull,
}

/// The number of pages the buffer pool caches.
pub const BUFFER_POOL_PAGES: usize = 1024;

/// The key-value database: a B+ tree in a page store, fronted by a write-ahead log.
///
/// The data file and the log file are kept by the caller: the database starts from their
/// bytes, hands out the log frames it appends, says when the log or the store should be
/// synced, and gives the bytes of the store.
pub struct Database {
    config: Config,
    wal_enabled: bool,
    wal: WriteAheadLog,
    wal_sync_requested: bool,
    index: BTree,
}

/// Page `j` of a store image: its bytes when the image holds it, else zeros.
pub open spec fn image_page(image: Seq<u8>, j: u32) -> Seq<u8> {
    if (j as int) < (image.len() as int) / (PAGE_SIZE as int) {
        image.subrange(j * PAGE_SIZE, j * PAGE_SIZE + PAGE_SIZE)
    } else {
        crate::codec::zeros(PAGE_SIZE as nat)
    }
}

/// Whether a metadata page records a root page.
pub open spec fn root_recorded(meta: Seq<u8>) -> bool {
    let r = crate::storage::pager::u32_at(meta, crate::storage::pager::META_ROOT_OFFSET as int);
    r != 0 && r != crate::storage::pager::NO_PAGE
}

/// A failure for a full log comes only from a database with the log enabled whose LSN has
/// reached its limit (and is left so).
pub open spec fn log_full_only_at_limit<T>(r: Result<T, DbError>, db: Database) -> bool {
    r matches Err(DbError::LogFull) ==> db.logging() && db.log().spec_lsn() == u64::MAX
}

impl Database {
    /// The tree holding the data.
    pub closed spec fn tree(&self) -> BTree {
        self.index
    }

    /// The log.
    pub closed spec fn log(&self) -> WriteAheadLog {
        self.wal
    }

    /// Whether the log is kept.
    pub closed spec fn logging(&self) -> bool {
        self.wal_enabled
    }

    /// Whether the log is synced after every write.
    pub closed spec fn syncs_each_write(&self) -> bool {
        self.config.wal.sync_on_write
    }

    /// Whether a sync of the log is owed.
    pub closed spec fn log_sync_requested(&self) -> bool {
        self.wal_sync_requested
    }

    pub closed spec fn wf(&self) -> bool {
        self.index.wf()
    }

    /// A well-formed database holds no stale cached page.
    pub proof fn lemma_coherent(&self)
        requires
            self.wf(),
        ensures
            self.tree().pool().coherent(),
    {
        self.index.lemma_wf();
        self.index.pool().lemma_wf();
    }

    /// `after` holds the data `before` held: the same root, log and settings and, when
    /// `before` has no stale cached page, the same pages, still without stale ones, in a
    /// store at least as long. Reads leave a database so.
    pub open spec fn same_contents(before: Database, after: Database) -> bool {
        &&& after.tree().root() == before.tree().root()
        &&& after.log() == before.log()
        &&& after.logging() == before.logging()
        &&& after.syncs_each_write() == before.syncs_each_write()
        &&& after.log_sync_requested() == before.log_sync_requested()
        &&& after.tree().pool().store().len() >= before.tree().pool().store().len()
        &&& before.tree().pool().coherent() ==> after.tree().pool().coherent() && pages_of(after.tree().pool()) == pages_of(before.tree().pool())
    }

    /// What closing `db` promises of the bytes it gives: whole pages, at least the store's;
    /// each page as the pool shows it once its dirty pages are written back (zeros past the
    /// end); with the log enabled, the metadata page also records the current LSN as the
    /// checkpoint.
    pub open spec fn closed_into(db: Database, image: Seq<u8>) -> bool {
        &&& (image.len() as int) % (PAGE_SIZE as int) == 0
        &&& image.len() >= db.tree().pool().store().len() * PAGE_SIZE
        &&& PAGE_SIZE <= image.len()
        &&& forall|j: u32| 0 < j ==> #[trigger] image_page(image, j) == db.tree().pool().flushed(j)
        &&& !db.logging() ==> image_page(image, 0) == db.tree().pool().flushed(0)
        &&& db.logging() ==> image_page(image, 0) == db.tree().pool().flushed(0).subrange(0, 12) + crate::codec::le_u64(db.log().spec_lsn())
            + db.tree().pool().flushed(0).subrange(20, PAGE_SIZE as int)
    }

    /// What opening `image` with the log disabled promises, when its metadata page records a
    /// root: each page reads as the image's page, with no stale cached copy, in a store at
    /// least as long as the image, under that root.
    pub open spec fn opened_from_image(image: Seq<u8>, db: Database) -> bool {
        root_recorded(image_page(image, 0)) ==> {
            &&& db.tree().pool().coherent()
            &&& db.tree().pool().store().len() >= (image.len() as int) / (PAGE_SIZE as int)
            &&& forall|j: u32| #[trigger] db.tree().pool().page(j) == image_page(image, j)
            &&& db.tree().root() == crate::storage::pager::u32_at(image_page(image, 0), crate::storage::pager::META_ROOT_OFFSET as int)
        }
    }

    /// The checkpoint LSN that the metadata page of store image `image` records (that of a
    /// fresh store when the image holds no whole page).
    pub open spec fn image_checkpoint_lsn(image: Seq<u8>) -> u64 {
        if (image.len() as int) / (PAGE_SIZE as int) == 0 {
            crate::storage::pager::spec_checkpoint_lsn(seq![crate::storage::pager::fresh_meta_page()])
        } else {
            crate::codec::le_u64_value(image.subrange(12, 20))
        }
    }

    /// The LSN a reopened log continues from: the highest LSN it read back, or the
    /// checkpoint's where that is higher, so that no later write falls at or below the
    /// checkpoint and is skipped by the next recovery.
    pub open spec fn resumed_lsn(read: u64, checkpoint: u64) -> u64 {
        if read < checkpoint { checkpoint } else { read }
    }

    /// The records of the root page of `db`, when that page is a leaf (none otherwise).
    pub open spec fn root_records(db: Database) -> Seq<crate::storage::btree::RecordView> {
        match crate::storage::btree::decode_node(db.tree().pool().page(db.tree().root())) {
            crate::storage::btree::NodeView::Leaf(lv) => lv.records,
            crate::storage::btree::NodeView::Internal(_) => Seq::empty(),
        }
    }

    /// Whether the store of `db` is one sorted leaf at its root, every value inline, with no
    /// stale cached page: the shape of a new database until its first split.
    pub open spec fn single_leaf(db: Database) -> bool {
        crate::storage::tree::leaf_root(db.tree(), Database::root_records(db))
    }

    /// What a single-leaf store maps each key to.
    pub open spec fn leaf_contents(db: Database) -> Map<Seq<u8>, Seq<u8>> {
        crate::storage::ordered::records_map(Database::root_records(db))
    }

    /// Whether the root leaf of `db` takes a record of `key` with inline `value` without a
    /// split: the key and value within their limits, the value no overflow handle, and the
    /// page room for the record besides those it holds.
    pub open spec fn leaf_room(db: Database, key: Seq<u8>, value: Seq<u8>) -> bool {
        &&& key.len() <= crate::storage::btree::MAX_KEY_SIZE
        &&& value.len() <= crate::storage::btree::MAX_INLINE_VAL_SIZE
        &&& !crate::storage::tree::is_overflow_handle(value)
        &&& crate::storage::btree::LEAF_HEADER_SIZE + crate::storage::btree::records_size(Database::root_records(db)) + 8 + key.len() + value.len() <= PAGE_SIZE
    }

    /// What replaying operations `es` in order does to the key-value map `m`: a put sets its
    /// key, a delete removes it.
    pub open spec fn replayed(m: Map<Seq<u8>, Seq<u8>>, es: Seq<crate::wal::EntryView>) -> Map<Seq<u8>, Seq<u8>>
        decreases es.len(),
    {
        if es.len() == 0 {
            m
        } else {
            let prev = Database::replayed(m, es.drop_last());
            match es.last() {
                crate::wal::EntryView::Put(k, v) => prev.insert(k, v),
                crate::wal::EntryView::Delete(k) => prev.remove(k),
            }
        }
    }

    /// The leaf room that the puts among `es` may take: a record header, the key and the
    /// value of each.
    pub open spec fn replay_room(es: Seq<crate::wal::EntryView>) -> int
        decreases es.len(),
    {
        if es.len() == 0 {
            0
        } else {
            Database::replay_room(es.drop_last()) + match es.last() {
                crate::wal::EntryView::Put(k, v) => 8 + k.len() + v.len(),
                crate::wal::EntryView::Delete(_) => 0,
            }
        }
    }

    /// Whether replaying `es` into a new store keeps it one leaf: every put with a key and an
    /// inline value within their limits, the value no overflow handle, and the leaf room for
    /// all the puts.
    pub open spec fn replay_fits(rs: Seq<crate::storage::btree::RecordView>, es: Seq<crate::wal::EntryView>) -> bool {
        &&& forall|i: int| 0 <= i < es.len() ==> ((#[trigger] es[i]) matches crate::wal::EntryView::Put(k, v) ==> {
            &&& k.len() <= crate::storage::btree::MAX_KEY_SIZE
            &&& v.len() <= crate::storage::btree::MAX_INLINE_VAL_SIZE
            &&& !crate::storage::tree::is_overflow_handle(v)
        })
        &&& crate::storage::btree::LEAF_HEADER_SIZE + crate::storage::btree::records_size(rs) + Database::replay_room(es) <= PAGE_SIZE
    }

    /// The records of the store that image `image` holds, when that store is one leaf: none
    /// when its metadata records no root (a new store is made), else those of the recorded
    /// root page when it is a lone sorted leaf of inline values; `None` otherwise.
    pub open spec fn image_leaf(image: Seq<u8>) -> Option<Seq<crate::storage::btree::RecordView>> {
        let meta = image_page(image, 0);
        if !root_recorded(meta) {
            Some(Seq::empty())
        } else {
            match crate::storage::btree::decode_node(image_page(image, crate::storage::pager::u32_at(meta, crate::storage::pager::META_ROOT_OFFSET as int))) {
                crate::storage::btree::NodeView::Leaf(lv) => if lv.parent is None && lv.next is None
                    && crate::storage::ordered::keys_sorted(lv.records)
                    && (forall|k: Seq<u8>| crate::storage::ordered::records_map(lv.records).dom().contains(k)
                        ==> !crate::storage::tree::is_overflow_handle(#[trigger] crate::storage::ordered::records_map(lv.records)[k])) {
                    Some(lv.records)
                } else {
                    None
                },
                crate::storage::btree::NodeView::Internal(_) => None,
            }
        }
    }

    /// Whether `image` is a store image that opening accepts: fewer pages than the page-id
    /// limit, and either no whole page or the store's magic bytes first.
    pub open spec fn image_valid(image: Seq<u8>) -> bool {
        &&& (image.len() as int) / (PAGE_SIZE as int) < u32::MAX
        &&& ((image.len() as int) / (PAGE_SIZE as int) == 0 || image.subrange(0, 4) == crate::storage::pager::magic_seq())
    }

    /// Whether the tree of `db` is a single empty leaf at its root.
    pub open spec fn empty_tree(db: Database) -> bool {
        &&& db.tree().root() != crate::storage::pager::NO_PAGE
        &&& crate::storage::btree::decode_node(db.tree().pool().page(db.tree().root())) == crate::storage::btree::NodeView::Leaf(
            crate::storage::btree::LeafView { parent: None, next: None, records: Seq::empty() },
        )
    }

    /// Opens the database held in `data_image` (the data file's bytes; empty for a new
    /// database). With the log enabled, the committed operations of `wal_log` after the
    /// store's checkpoint LSN are replayed and the store is flushed.
    #[verifier::spinoff_prover]
    #[verifier::rlimit(60)]
    pub fn open(config: Config, data_image: &[u8], wal_log: &[u8]) -> (r: Result<Database, DbError>)
        ensures
            r matches Ok(db) ==> db.wf(),
            r matches Ok(db) ==> db.logging() == config.wal.enabled,
            r matches Ok(db) ==> db.syncs_each_write() == config.wal.sync_on_write,
            r matches Ok(db) ==> (config.wal.enabled ==> db.log().spec_pending() == Seq::<u8>::empty()),
            r matches Ok(db) ==> (config.wal.enabled ==> db.log().spec_lsn() == Database::resumed_lsn(
                crate::wal::recover_log(wal_log@, Database::image_checkpoint_lsn(data_image@), crate::wal::init_rec_state()).max_lsn,
                Database::image_checkpoint_lsn(data_image@),
            )),
            (data_image@.len() as int) / (PAGE_SIZE as int) > u32::MAX ==> r == Err::<Database, DbError>(DbError::Pager(PagerError::TooManyPages)),
            0 < (data_image@.len() as int) / (PAGE_SIZE as int) <= u32::MAX && data_image@.subrange(0, 4) != crate::storage::pager::magic_seq() ==> r == Err::<Database, DbError>(DbError::Pager(PagerError::MagicMismatch)),
            !config.wal.enabled && 0 < (data_image@.len() as int) / (PAGE_SIZE as int) ==> (r matches Ok(db) ==> Database::opened_from_image(data_image@, db)),
            (data_image@.len() as int) / (PAGE_SIZE as int) < u32::MAX
                && ((data_image@.len() as int) / (PAGE_SIZE as int) == 0 || data_image@.subrange(0, 4) == crate::storage::pager::magic_seq())
                && (!config.wal.enabled || crate::wal::recover_log(wal_log@, Database::image_checkpoint_lsn(data_image@), crate::wal::init_rec_state()).committed.len() == 0)
                ==> r is Ok,
            (data_image@.len() as int) / (PAGE_SIZE as int) == 0
                && (!config.wal.enabled || crate::wal::recover_log(wal_log@, Database::image_checkpoint_lsn(data_image@), crate::wal::init_rec_state()).committed.len() == 0)
                ==> (r matches Ok(db) ==> db.tree().pool().coherent() && Database::empty_tree(db) && (forall|k: Seq<u8>| #[trigger] db.tree().lookup(k) == Some(None::<Seq<u8>>))
                    && Database::single_leaf(db) && Database::leaf_contents(db) == Map::<Seq<u8>, Seq<u8>>::empty()
                    && forall|p: Seq<u8>| #[trigger] scan_result(pages_of(db.tree().pool()), db.tree().root(), p, db.tree().pool().store().len())
                        == Some(Seq::<crate::storage::tree::PairView>::empty())),
            Database::image_valid(data_image@) ==> (r matches Err(e) ==> e is Storage),
            Database::image_valid(data_image@) && !config.wal.enabled && Database::image_leaf(data_image@) is Some
                ==> (r matches Ok(db) && Database::single_leaf(db) && Database::leaf_contents(db) == crate::storage::ordered::records_map(
                    Database::image_leaf(data_image@)->0,
                )),
            Database::image_valid(data_image@) && config.wal.enabled && Database::image_leaf(data_image@) is Some
                && Database::replay_fits(
                    Database::image_leaf(data_image@)->0,
                    crate::wal::recover_log(wal_log@, Database::image_checkpoint_lsn(data_image@), crate::wal::init_rec_state()).committed,
                )
                ==> (r matches Ok(db) && Database::single_leaf(db) && Database::leaf_contents(db) == Database::replayed(
                    crate::storage::ordered::records_map(Database::image_leaf(data_image@)->0),
                    crate::wal::recover_log(wal_log@, Database::image_checkpoint_lsn(data_image@), crate::wal::init_rec_state()).committed,
                )),
    {
        let pager = match Pager::from_image(data_image) {
            Ok(p) => p,
            Err(e) => {
                return Err(DbError::Pager(e));
            },
        };
        let checkpoint_lsn = pager.read_checkpoint_lsn();
        let ghost pages0 = pager@;
        proof {
            pager.lemma_wf();
            if (data_image@.len() as int) / (PAGE_SIZE as int) > 0 {
                assert(pages0[0] == data_image@.subrange(0, PAGE_SIZE as int));
                assert(pages0[0].subrange(12, 20) =~= data_image@.subrange(12, 20));
            }
            assert(checkpoint_lsn == Database::image_checkpoint_lsn(data_image@));
        }
        let pool = BufferPool::new(pager, BUFFER_POOL_PAGES).with_sync_interval(config.storage.sync_interval);
        proof {
            pool.lemma_wf();
            assert(pool.coherent());
            if 0 < (data_image@.len() as int) / (PAGE_SIZE as int) {
                assert forall|j: u32| #[trigger] pool.page(j) == image_page(data_image@, j) by {
                    assert(pool.store() == pages0);
                    if (j as int) < pages0.len() {
                        assert(pages0[j as int] == data_image@.subrange(j * PAGE_SIZE, j * PAGE_SIZE + PAGE_SIZE));
                    }
                }
            }
        }
        proof {
            if (data_image@.len() as int) / (PAGE_SIZE as int) == 0 {
                crate::storage::pager::lemma_fresh_meta();
                assert(pool.page(0) == crate::storage::pager::fresh_meta_page());
            }
        }
        let mut index = match BTree::new(pool) {
            Ok(t) => t,
            Err(e) => {
                return Err(DbError::Storage(e));
            },
        };
        proof {
            if 0 < (data_image@.len() as int) / (PAGE_SIZE as int) && root_recorded(image_page(data_image@, 0)) {
                assert(pool.page(0) == image_page(data_image@, 0));
                assert forall|j: u32| #[trigger] index.pool().page(j) == image_page(data_image@, j) by {
                    assert(pages_of(index.pool())(j) == pages_of(pool)(j));
                }
            }
        }
        let ghost idx0 = index;
        let ghost start = Database::image_valid(data_image@) && Database::image_leaf(data_image@) is Some;
        let ghost rs0 = Database::image_leaf(data_image@)->0;
        proof {
            index.lemma_wf();
            index.pool().lemma_wf();
            if start {
                if !root_recorded(image_page(data_image@, 0)) {
                    if 0 < (data_image@.len() as int) / (PAGE_SIZE as int) {
                        assert(pool.page(0) == image_page(data_image@, 0));
                    }
                    crate::storage::tree::lemma_empty_leaf_root(index);
                } else {
                    assert(index.pool().page(index.root()) == image_page(data_image@, index.root()));
                    assert(crate::storage::tree::leaf_root(index, rs0));
                }
            }
        }
        let mut wal = WriteAheadLog::new();
        let wal_enabled = config.wal.enabled;
        let ghost mut rs_fin: Seq<crate::storage::btree::RecordView> = rs0;
        if wal_enabled {
            let entries = wal.recover(wal_log, checkpoint_lsn);
            wal.resume_after(checkpoint_lsn);
            let ghost lsn0 = wal.spec_lsn();
            let ghost es = entries_view(entries@);
            let ghost ff = start && Database::replay_fits(rs0, es);
            let ghost mut rs: Seq<crate::storage::btree::RecordView> = rs0;
            proof {
                if ff {
                    assert(es.take(0) =~= Seq::<crate::wal::EntryView>::empty());
                }
            }
            let mut i: usize = 0;
            while i < entries.len()
                invariant
                    es == entries_view(entries@),
                    ff == (start && Database::replay_fits(rs0, es)),
                    start == (Database::image_valid(data_image@) && Database::image_leaf(data_image@) is Some),
                    rs0 == Database::image_leaf(data_image@)->0,
                    ff ==> crate::storage::tree::leaf_root(index, rs)
                        && crate::storage::ordered::records_map(rs) == Database::replayed(crate::storage::ordered::records_map(rs0), es.take(i as int))
                        && crate::storage::btree::records_size(rs) <= crate::storage::btree::records_size(rs0) + Database::replay_room(es.take(i as int)),
                    index.wf(),
                    (data_image@.len() as int) / (PAGE_SIZE as int) <= u32::MAX,
                    0 < (data_image@.len() as int) / (PAGE_SIZE as int) ==> data_image@.subrange(0, 4) == crate::storage::pager::magic_seq(),
                    i <= entries@.len(),
                    wal.spec_pending() == Seq::<u8>::empty(),
                    wal.spec_lsn() == lsn0,
                    i == 0 ==> index == idx0,
                    entries_view(entries@) == recover_log(wal_log@, checkpoint_lsn, init_rec_state()).committed,
                    checkpoint_lsn == Database::image_checkpoint_lsn(data_image@),
                    config.wal.enabled,
                decreases entries@.len() - i,
            {
                let ghost idx_before = index;
                proof {
                    if ff {
                        lemma_replay_room_prefix(es, i + 1);
                        assert(es.take(i + 1).drop_last() =~= es.take(i as int));
                        assert(es.take(i + 1).last() == es[i as int]);
                        match es[i as int] {
                            crate::wal::EntryView::Put(k, v) => {
                                crate::storage::tree::lemma_leaf_root_put_fits(index, rs, k, v);
                            },
                            crate::wal::EntryView::Delete(k) => {
                                crate::storage::tree::lemma_leaf_root_delete_in_place(index, rs, k);
                            },
                        }
                    }
                }
                let applied = match &entries[i] {
                    WalEntry::Put(k, v) => index.insert(k.as_slice(), v.as_slice()),
                    WalEntry::Delete(k) => index.delete(k.as_slice()),
                };
                match applied {
                    Ok(()) => {},
                    Err(e) => {
                        return Err(DbError::Storage(e));
                    },
                }
                proof {
                    if ff {
                        match es[i as int] {
                            crate::wal::EntryView::Put(k, v) => {
                                crate::storage::tree::lemma_leaf_root_after_put(idx_before, index, rs, k, v);
                                let rs2 = choose|rs2: Seq<crate::storage::btree::RecordView>| {
                                    &&& #[trigger] crate::storage::tree::leaf_root(index, rs2)
                                    &&& crate::storage::ordered::records_map(rs2) == crate::storage::ordered::records_map(rs).insert(k, v)
                                    &&& crate::storage::btree::records_size(rs2) <= crate::storage::btree::records_size(rs) + 8 + k.len() + v.len()
                                };
                                rs = rs2;
                            },
                            crate::wal::EntryView::Delete(k) => {
                                crate::storage::tree::lemma_leaf_root_after_delete(idx_before, index, rs, k);
                                let rs2 = choose|rs2: Seq<crate::storage::btree::RecordView>| {
                                    &&& #[trigger] crate::storage::tree::leaf_root(index, rs2)
                                    &&& crate::storage::ordered::records_map(rs2) == crate::storage::ordered::records_map(rs).remove(k)
                                    &&& crate::storage::btree::records_size(rs2) <= crate::storage::btree::records_size(rs)
                                };
                                rs = rs2;
                            },
                        }
                    }
                }
                i = i + 1;
            }
            let ghost before_flush = index;
            index.flush_and_sync();
            proof {
                assert(index.pool().page(index.root()) == before_flush.pool().page(before_flush.root()));
                if entries@.len() == 0 {
                    assert(before_flush == idx0);
                }
                if ff {
                    assert(es.take(entries@.len() as int) =~= es);
                    assert(crate::storage::tree::leaf_root(index, rs));
                }
                rs_fin = rs;
            }
        }
        proof {
            if start && !wal_enabled {
                assert(index == idx0);
                assert(crate::storage::tree::leaf_root(index, rs0));
            }
            if start && wal_enabled && Database::replay_fits(rs0, recover_log(wal_log@, checkpoint_lsn, init_rec_state()).committed) {
                assert(crate::storage::tree::leaf_root(index, rs_fin));
                assert(crate::storage::ordered::records_map(rs_fin) == Database::replayed(
                    crate::storage::ordered::records_map(rs0),
                    recover_log(wal_log@, checkpoint_lsn, init_rec_state()).committed,
                ));
            }
            if (data_image@.len() as int) / (PAGE_SIZE as int) == 0
                && (!wal_enabled || crate::wal::recover_log(wal_log@, checkpoint_lsn, crate::wal::init_rec_state()).committed.len() == 0) {
                assert(crate::storage::btree::decode_node(index.pool().page(index.root())) == crate::storage::btree::NodeView::Leaf(crate::storage::btree::LeafView { parent: None, next: None, records: Seq::empty() }));
                crate::storage::tree::lemma_empty_root_lookup(index);
                crate::storage::tree::lemma_empty_leaf_root(index);
                assert(crate::storage::ordered::records_map(Seq::<crate::storage::btree::RecordView>::empty()) =~= Map::<Seq<u8>, Seq<u8>>::empty());
            }
        }
        Ok(Database { config, wal_enabled, wal, wal_sync_requested: false, index })
    }

    /// Logs (with the log enabled) and applies a put under transaction `tx_id`.
    pub fn put_with_tx(&mut self, tx_id: u64, key: &[u8], value: &[u8]) -> (r: Result<(), DbError>)
        requires
            old(self).wf(),
        ensures
            log_full_only_at_limit(r, *final(self)),
            final(self).wf(),
            final(self).logging() == old(self).logging(),
            final(self).syncs_each_write() == old(self).syncs_each_write(),
            old(self).logging() && old(self).log().spec_lsn() == u64::MAX ==> r == Err::<(), DbError>(DbError::LogFull) && *final(self) == *old(self),
            old(self).logging() && old(self).log().spec_lsn() < u64::MAX ==> {
                &&& final(self).log().spec_lsn() == old(self).log().spec_lsn() + 1
                &&& final(self).log().spec_pending() == old(self).log().spec_pending() + crate::wal::frame_bytes(
                    crate::wal::FrameView { lsn: final(self).log().spec_lsn(), tx_id, op: 1, payload: crate::wal::put_payload(key@, value@) },
                )
                &&& (old(self).syncs_each_write() ==> final(self).log_sync_requested())
            },
            !old(self).logging() ==> final(self).log() == old(self).log(),
            key@.len() > crate::storage::btree::MAX_KEY_SIZE && !(old(self).logging() && old(self).log().spec_lsn() == u64::MAX) ==> r == Err::<(), DbError>(DbError::Storage(StorageError::KeyTooLarge { size: key@.len() as usize })),
            !(old(self).logging() && old(self).log().spec_lsn() == u64::MAX) && inline_put_fits(old(self).tree(), key@, value@) ==> r is Ok && final(self).tree().lookup(key@) == Some(Some(value@)) && final(self).tree().pool().coherent() && final(self).tree().sorted_leaf_for(key@),
            forall|k2: Seq<u8>|
                !(old(self).logging() && old(self).log().spec_lsn() == u64::MAX) && inline_put_fits(old(self).tree(), key@, value@) && k2 != key@
                    && inline_stored(old(self).tree(), k2) ==> #[trigger] final(self).tree().lookup(k2) == old(self).tree().lookup(k2),
            !(old(self).logging() && old(self).log().spec_lsn() == u64::MAX) && Database::single_leaf(*old(self)) && Database::leaf_room(*old(self), key@, value@)
                ==> r is Ok && Database::single_leaf(*final(self)) && Database::leaf_contents(*final(self)) == Database::leaf_contents(*old(self)).insert(key@, value@),
            !(old(self).logging() && old(self).log().spec_lsn() == u64::MAX) && Database::single_leaf(*old(self)) && Database::leaf_room(*old(self), key@, value@)
                ==> crate::storage::btree::records_size(Database::root_records(*final(self))) <= crate::storage::btree::records_size(Database::root_records(*old(self))) + 8 + key@.len() + value@.len(),
    {
        proof {
            if Database::single_leaf(*old(self)) && Database::leaf_room(*old(self), key@, value@) {
                crate::storage::tree::lemma_leaf_root_put_fits(old(self).tree(), Database::root_records(*old(self)), key@, value@);
            }
        }
        if self.wal_enabled {
            if self.wal.current_lsn() == 0xFFFF_FFFF_FFFF_FFFFu64 {
                return Err(DbError::LogFull);
            }
            self.wal.append_tx_put(tx_id, key, value);
            if self.config.wal.sync_on_write {
                self.wal_sync_requested = true;
            }
        }
        let ghost t0 = self.index;
        match self.index.insert(key, value) {
            Ok(()) => {
                proof {
                    if Database::single_leaf(*old(self)) && Database::leaf_room(*old(self), key@, value@) {
                        let rs = Database::root_records(*old(self));
                        crate::storage::tree::lemma_leaf_root_after_put(t0, self.index, rs, key@, value@);
                        let rs2 = choose|rs2: Seq<crate::storage::btree::RecordView>| {
                            &&& #[trigger] crate::storage::tree::leaf_root(self.index, rs2)
                            &&& crate::storage::ordered::records_map(rs2) == crate::storage::ordered::records_map(rs).insert(key@, value@)
                            &&& crate::storage::btree::records_size(rs2) <= crate::storage::btree::records_size(rs) + 8 + key@.len() + value@.len()
                        };
                        assert(Database::root_records(*self) == rs2);
                    }
                }
                Ok(())
            },
            Err(e) => Err(DbError::Storage(e)),
        }
    }

    /// A put outside any transaction (transaction id 0).
    pub fn put(&mut self, key: &[u8], value: &[u8]) -> (r: Result<(), DbError>)
        requires
            old(self).wf(),
        ensures
            log_full_only_at_limit(r, *final(self)),
            final(self).wf(),
            final(self).logging() == old(self).logging(),
            old(self).logging() && old(self).log().spec_lsn() < u64::MAX ==> final(self).log().spec_lsn() == old(self).log().spec_lsn() + 1
                && final(self).log().spec_pending() == old(self).log().spec_pending() + crate::wal::frame_bytes(
                    crate::wal::FrameView { lsn: final(self).log().spec_lsn(), tx_id: 0, op: 1, payload: crate::wal::put_payload(key@, value@) },
                ),
            !old(self).logging() ==> final(self).log() == old(self).log(),
            old(self).logging() && old(self).log().spec_lsn() == u64::MAX ==> r == Err::<(), DbError>(DbError::LogFull) && *final(self) == *old(self),
            !(old(self).logging() && old(self).log().spec_lsn() == u64::MAX) && inline_put_fits(old(self).tree(), key@, value@) ==> r is Ok && final(self).tree().lookup(key@) == Some(Some(value@)) && final(self).tree().pool().coherent() && final(self).tree().sorted_leaf_for(key@),
            forall|k2: Seq<u8>|
                !(old(self).logging() && old(self).log().spec_lsn() == u64::MAX) && inline_put_fits(old(self).tree(), key@, value@) && k2 != key@
                    && inline_stored(old(self).tree(), k2) ==> #[trigger] final(self).tree().lookup(k2) == old(self).tree().lookup(k2),
            !(old(self).logging() && old(self).log().spec_lsn() == u64::MAX) && Database::single_leaf(*old(self)) && Database::leaf_room(*old(self), key@, value@)
                ==> r is Ok && Database::single_leaf(*final(self)) && Database::leaf_contents(*final(self)) == Database::leaf_contents(*old(self)).insert(key@, value@),
            !(old(self).logging() && old(self).log().spec_lsn() == u64::MAX) && Database::single_leaf(*old(self)) && Database::leaf_room(*old(self), key@, value@)
                ==> crate::storage::btree::records_size(Database::root_records(*final(self))) <= crate::storage::btree::records_size(Database::root_records(*old(self))) + 8 + key@.len() + value@.len(),
    {
        self.put_with_tx(0, key, value)
    }

    /// The value of `key`, if any.
    pub fn get(&mut self, key: &[u8]) -> (r: Result<Option<Vec<u8>>, DbError>)
        requires
            old(self).wf(),
        ensures
            log_full_only_at_limit(r, *final(self)),
            final(self).wf(),
            final(self).log() == old(self).log(),
            Database::same_contents(*old(self), *final(self)),
            old(self).tree().sorted_leaf_for(key@) ==> match old(self).tree().lookup(key@) {
                Some(Some(v)) => r matches Ok(Some(rv)) && rv@ == v,
                Some(None) => r matches Ok(None),
                None => r is Err,
            },
    {
        proof {
            old(self).lemma_coherent();
        }
        let found = self.index.search(key);
        proof {
            if old(self).tree().pool().coherent() {
                crate::storage::tree::lemma_pages_kept_view(old(self).tree().pool(), self.tree().pool());
            }
        }
        match found {
            Ok(v) => Ok(v),
            Err(e) => Err(DbError::Storage(e)),
        }
    }

    /// Every key-value pair, in key order.
    pub fn scan(&mut self) -> (r: Result<Vec<(Vec<u8>, Vec<u8>)>, DbError>)
        requires
            old(self).wf(),
        ensures
            log_full_only_at_limit(r, *final(self)),
            final(self).wf(),
            final(self).log() == old(self).log(),
            Database::same_contents(*old(self), *final(self)),
            match scan_result(pages_of(old(self).tree().pool()), old(self).tree().root(), Seq::empty(), old(self).tree().pool().store().len()) {
                Some(ps) => r matches Ok(rv) && pairs_view(rv@) == ps,
                None => r is Err,
            },
    {
        proof {
            old(self).lemma_coherent();
        }
        let found = self.index.scan();
        proof {
            if old(self).tree().pool().coherent() {
                crate::storage::tree::lemma_pages_kept_view(old(self).tree().pool(), self.tree().pool());
            }
        }
        match found {
            Ok(v) => Ok(v),
            Err(e) => Err(DbError::Storage(e)),
        }
    }

    /// The key-value pairs whose key starts with `prefix`, in key order.
    pub fn scan_prefix(&mut self, prefix: &[u8]) -> (r: Result<Vec<(Vec<u8>, Vec<u8>)>, DbError>)
        requires
            old(self).wf(),
        ensures
            log_full_only_at_limit(r, *final(self)),
            final(self).wf(),
            final(self).log() == old(self).log(),
            Database::same_contents(*old(self), *final(self)),
            match scan_result(pages_of(old(self).tree().pool()), old(self).tree().root(), prefix@, old(self).tree().pool().store().len()) {
                Some(ps) => r matches Ok(rv) && pairs_view(rv@) == ps,
                None => r is Err,
            },
    {
        proof {
            old(self).lemma_coherent();
        }
        let found = self.index.scan_prefix(prefix);
        proof {
            if old(self).tree().pool().coherent() {
                crate::storage::tree::lemma_pages_kept_view(old(self).tree().pool(), self.tree().pool());
            }
        }
        match found {
            Ok(v) => Ok(v),
            Err(e) => Err(DbError::Storage(e)),
        }
    }

    /// Logs (with the log enabled) and applies a delete under transaction `tx_id`.
    pub fn delete_with_tx(&mut self, tx_id: u64, key: &[u8]) -> (r: Result<(), DbError>)
        requires
            old(self).wf(),
        ensures
            log_full_only_at_limit(r, *final(self)),
            final(self).wf(),
            final(self).logging() == old(self).logging(),
            final(self).syncs_each_write() == old(self).syncs_each_write(),
            old(self).logging() && old(self).log().spec_lsn() == u64::MAX ==> r == Err::<(), DbError>(DbError::LogFull) && *final(self) == *old(self),
            old(self).logging() && old(self).log().spec_lsn() < u64::MAX ==> {
                &&& final(self).log().spec_lsn() == old(self).log().spec_lsn() + 1
                &&& final(self).log().spec_pending() == old(self).log().spec_pending() + crate::wal::frame_bytes(
                    crate::wal::FrameView { lsn: final(self).log().spec_lsn(), tx_id, op: 2, payload: crate::wal::delete_payload(key@) },
                )
                &&& (old(self).syncs_each_write() ==> final(self).log_sync_requested())
            },
            !old(self).logging() ==> final(self).log() == old(self).log(),
            !(old(self).logging() && old(self).log().spec_lsn() == u64::MAX) && delete_in_place(old(self).tree(), key@) ==> r is Ok && final(self).tree().lookup(key@) == Some(None::<Seq<u8>>),
            forall|k2: Seq<u8>|
                !(old(self).logging() && old(self).log().spec_lsn() == u64::MAX) && delete_in_place(old(self).tree(), key@) && k2 != key@
                    && inline_stored(old(self).tree(), k2) ==> #[trigger] final(self).tree().lookup(k2) == old(self).tree().lookup(k2),
            !(old(self).logging() && old(self).log().spec_lsn() == u64::MAX) && Database::single_leaf(*old(self))
                ==> r is Ok && Database::single_leaf(*final(self)) && Database::leaf_contents(*final(self)) == Database::leaf_contents(*old(self)).remove(key@),
            !(old(self).logging() && old(self).log().spec_lsn() == u64::MAX) && Database::single_leaf(*old(self))
                ==> crate::storage::btree::records_size(Database::root_records(*final(self))) <= crate::storage::btree::records_size(Database::root_records(*old(self))),
    {
        proof {
            if Database::single_leaf(*old(self)) {
                crate::storage::tree::lemma_leaf_root_delete_in_place(old(self).tree(), Database::root_records(*old(self)), key@);
            }
        }
        if self.wal_enabled {
            if self.wal.current_lsn() == 0xFFFF_FFFF_FFFF_FFFFu64 {
                return Err(DbError::LogFull);
            }
            self.wal.append_tx_delete(tx_id, key);
            if self.config.wal.sync_on_write {
                self.wal_sync_requested = true;
            }
        }
        let ghost t0 = self.index;
        match self.index.delete(key) {
            Ok(()) => {
                proof {
                    if Database::single_leaf(*old(self)) {
                        let rs = Database::root_records(*old(self));
                        crate::storage::tree::lemma_leaf_root_after_delete(t0, self.index, rs, key@);
                        let rs2 = choose|rs2: Seq<crate::storage::btree::RecordView>| {
                            &&& #[trigger] crate::storage::tree::leaf_root(self.index, rs2)
                            &&& crate::storage::ordered::records_map(rs2) == crate::storage::ordered::records_map(rs).remove(key@)
                            &&& crate::storage::btree::records_size(rs2) <= crate::storage::btree::records_size(rs)
                        };
                        assert(Database::root_records(*self) == rs2);
                    }
                }
                Ok(())
            },
            Err(e) => Err(DbError::Storage(e)),
        }
    }

    /// A delete outside any transaction (transaction id 0).
    pub fn delete(&mut self, key: &[u8]) -> (r: Result<(), DbError>)
        requires
            old(self).wf(),
        ensures
            log_full_only_at_limit(r, *final(self)),
            final(self).wf(),
            final(self).logging() == old(self).logging(),
            old(self).logging() && old(self).log().spec_lsn() < u64::MAX ==> final(self).log().spec_lsn() == old(self).log().spec_lsn() + 1
                && final(self).log().spec_pending() == old(self).log().spec_pending() + crate::wal::frame_bytes(
                    crate::wal::FrameView { lsn: final(self).log().spec_lsn(), tx_id: 0, op: 2, payload: crate::wal::delete_payload(key@) },
                ),
            !old(self).logging() ==> final(self).log() == old(self).log(),
            old(self).logging() && old(self).log().spec_lsn() == u64::MAX ==> r == Err::<(), DbError>(DbError::LogFull) && *final(self) == *old(self),
            !(old(self).logging() && old(self).log().spec_lsn() == u64::MAX) && delete_in_place(old(self).tree(), key@) ==> r is Ok && final(self).tree().lookup(key@) == Some(None::<Seq<u8>>),
            forall|k2: Seq<u8>|
                !(old(self).logging() && old(self).log().spec_lsn() == u64::MAX) && delete_in_place(old(self).tree(), key@) && k2 != key@
                    && inline_stored(old(self).tree(), k2) ==> #[trigger] final(self).tree().lookup(k2) == old(self).tree().lookup(k2),
            !(old(self).logging() && old(self).log().spec_lsn() == u64::MAX) && Database::single_leaf(*old(self))
                ==> r is Ok && Database::single_leaf(*final(self)) && Database::leaf_contents(*final(self)) == Database::leaf_contents(*old(self)).remove(key@),
            !(old(self).logging() && old(self).log().spec_lsn() == u64::MAX) && Database::single_leaf(*old(self))
                ==> crate::storage::btree::records_size(Database::root_records(*final(self))) <= crate::storage::btree::records_size(Database::root_records(*old(self))),
    {
        self.delete_with_tx(0, key)
    }

    /// Logs the start of transaction `tx_id`.
    pub fn begin_tx(&mut self, tx_id: u64) -> (r: Result<(), DbError>)
        requires
            old(self).wf(),
        ensures
            log_full_only_at_limit(r, *final(self)),
            final(self).wf(),
            final(self).tree() == old(self).tree(),
            old(self).logging() && old(self).log().spec_lsn() == u64::MAX ==> r == Err::<(), DbError>(DbError::LogFull),
            old(self).logging() && old(self).log().spec_lsn() < u64::MAX ==> r is Ok && final(self).log().spec_pending() == old(self).log().spec_pending() + crate::wal::frame_bytes(
                crate::wal::FrameView { lsn: (old(self).log().spec_lsn() + 1) as u64, tx_id, op: 3, payload: Seq::empty() },
            ),
            !old(self).logging() ==> r is Ok && final(self).log() == old(self).log(),
    {
        if self.wal_enabled {
            if self.wal.current_lsn() == 0xFFFF_FFFF_FFFF_FFFFu64 {
                return Err(DbError::LogFull);
            }
            self.wal.append_begin(tx_id);
            if self.config.wal.sync_on_write {
                self.wal_sync_requested = true;
            }
        }
        Ok(())
    }

    /// Logs the commit of transaction `tx_id`, requests a sync of the log and flushes the
    /// store with a sync, so that the committed data is durable.
    pub fn commit_tx(&mut self, tx_id: u64) -> (r: Result<(), DbError>)
        requires
            old(self).wf(),
        ensures
            log_full_only_at_limit(r, *final(self)),
            final(self).wf(),
            old(self).logging() && old(self).log().spec_lsn() == u64::MAX ==> r == Err::<(), DbError>(DbError::LogFull),
            old(self).logging() && old(self).log().spec_lsn() < u64::MAX ==> r is Ok && final(self).log().spec_pending() == old(self).log().spec_pending() + crate::wal::frame_bytes(
                crate::wal::FrameView { lsn: (old(self).log().spec_lsn() + 1) as u64, tx_id, op: 4, payload: Seq::empty() },
            ) && final(self).log_sync_requested(),
            r is Ok ==> final(self).tree().pool().spec_sync_requested(),
            r is Ok ==> forall|j: u32| #[trigger] crate::storage::tree::spec_read_store(final(self).tree().pool(), j) == old(self).tree().pool().flushed(j),
            !(old(self).logging() && old(self).log().spec_lsn() == u64::MAX) ==> r is Ok,
            r is Ok && Database::single_leaf(*old(self)) ==> Database::single_leaf(*final(self)) && Database::root_records(*final(self)) == Database::root_records(*old(self)),
    {
        if self.wal_enabled {
            if self.wal.current_lsn() == 0xFFFF_FFFF_FFFF_FFFFu64 {
                return Err(DbError::LogFull);
            }
            self.wal.append_commit(tx_id);
            self.wal_sync_requested = true;
        }
        self.index.flush_and_sync();
        Ok(())
    }

    /// Logs the rollback of transaction `tx_id`.
    pub fn rollback_tx(&mut self, tx_id: u64) -> (r: Result<(), DbError>)
        requires
            old(self).wf(),
        ensures
            log_full_only_at_limit(r, *final(self)),
            final(self).wf(),
            final(self).tree() == old(self).tree(),
            old(self).logging() && old(self).log().spec_lsn() == u64::MAX ==> r == Err::<(), DbError>(DbError::LogFull),
            old(self).logging() && old(self).log().spec_lsn() < u64::MAX ==> r is Ok && final(self).log().spec_pending() == old(self).log().spec_pending() + crate::wal::frame_bytes(
                crate::wal::FrameView { lsn: (old(self).log().spec_lsn() + 1) as u64, tx_id, op: 5, payload: Seq::empty() },
            ),
            !old(self).logging() ==> r is Ok && final(self).log() == old(self).log(),
    {
        if self.wal_enabled {
            if self.wal.current_lsn() == 0xFFFF_FFFF_FFFF_FFFFu64 {
                return Err(DbError::LogFull);
            }
            self.wal.append_rollback(tx_id);
            if self.config.wal.sync_on_write {
                self.wal_sync_requested = true;
            }
        }
        Ok(())
    }

    /// The log frames appended since they were last taken, for the caller to write to the
    /// log file.
    pub fn take_wal_frames(&mut self) -> (frames: Vec<u8>)
        requires
            old(self).wf(),
        ensures
            final(self).wf(),
            frames@ == old(self).log().spec_pending(),
            final(self).log().spec_pending() == Seq::<u8>::empty(),
            final(self).tree() == old(self).tree(),
    {
        self.wal.take_pending()
    }

    /// Whether the log should be synced; clears the request.
    pub fn take_wal_sync_request(&mut self) -> (b: bool)
        requires
            old(self).wf(),
        ensures
            final(self).wf(),
            b == old(self).log_sync_requested(),
            !final(self).log_sync_requested(),
            final(self).tree() == old(self).tree(),
            final(self).log() == old(self).log(),
    {
        let b = self.wal_sync_requested;
        self.wal_sync_requested = false;
        b
    }

    /// Whether the store should be synced; clears the request.
    pub fn take_data_sync_request(&mut self) -> (b: bool)
        requires
            old(self).wf(),
        ensures
            final(self).wf(),
            b == old(self).tree().pool().spec_sync_requested(),
            !final(self).tree().pool().spec_sync_requested(),
            final(self).tree().pool().store() == old(self).tree().pool().store(),
            final(self).log() == old(self).log(),
    {
        proof {
            self.index.lemma_wf();
        }
        let b = self.index.buffer_pool().sync_requested();
        self.index.buffer_pool_mut().clear_sync_request();
        proof {
            self.index.lemma_wf();
        }
        b
    }

    /// The bytes of the store, as the data file should hold them.
    pub fn data_image(&self) -> (image: Vec<u8>)
        requires
            self.wf(),
        ensures
            image@.len() == self.tree().pool().store().len() * PAGE_SIZE,
            forall|i: int|
                0 <= i < self.tree().pool().store().len() ==> image@.subrange(i * PAGE_SIZE, i * PAGE_SIZE + PAGE_SIZE) == #[trigger] self.tree().pool().store()[i],
    {
        proof {
            self.index.lemma_wf();
        }
        let pool = self.index.buffer_pool();
        let pager = pool.pager();
        pager.to_image()
    }

    /// The configuration the database was opened with.
    pub fn config(&self) -> (c: &Config)
        ensures
            c.wal.sync_on_write == self.syncs_each_write(),
    {
        &self.config
    }

    /// Closes the database: flushes the pool and, with the log enabled, records the current
    /// LSN as the checkpoint in the store and empties the log. Returns the bytes of the store.
    pub fn close(self) -> (image: Vec<u8>)
        requires
            self.wf(),
        ensures
            Database::closed_into(self, image@),
    {
        let ghost pool0 = self.tree().pool();
        let ghost lsn0 = self.log().spec_lsn();
        let mut db = self;
        db.index.flush_all();
        let ghost pool1 = db.tree().pool();
        proof {
            db.index.lemma_wf();
            pool1.lemma_wf();
        }
        db.index.sync();
        if db.wal_enabled {
            let current_lsn = db.wal.current_lsn();
            proof {
                db.index.lemma_wf();
            }
            db.index.buffer_pool_mut().write_checkpoint_lsn(current_lsn);
            proof {
                db.index.lemma_wf();
            }
            db.index.sync();
            db.wal.checkpoint();
        }
        proof {
            let x = pool1.store()[0].subrange(0, 12) + crate::codec::le_u64(lsn0) + pool1.store()[0].subrange(20, PAGE_SIZE as int);
            if db.wal_enabled {
                assert(db.tree().pool().store() == pool1.store().update(0, x));
            } else {
                assert(db.tree().pool().store() == pool1.store());
            }
        }
        let image = db.data_image();
        proof {
            let n = db.tree().pool().store().len();
            let n0 = pool0.store().len();
            db.index.lemma_wf();
            db.tree().pool().lemma_wf();
            assert(n == pool1.store().len());
            vstd::arithmetic::mul::lemma_mul_is_commutative(n as int, PAGE_SIZE as int);
            vstd::arithmetic::div_mod::lemma_mod_multiples_basic(n as int, PAGE_SIZE as int);
            vstd::arithmetic::div_mod::lemma_div_multiples_vanish(n as int, PAGE_SIZE as int);
            assert((image@.len() as int) / (PAGE_SIZE as int) == n);
            assert(n * PAGE_SIZE >= n0 * PAGE_SIZE) by (nonlinear_arith)
                requires
                    n >= n0,
            ;
            assert forall|j: u32| 0 < j implies #[trigger] image_page(image@, j) == pool0.flushed(j) by {
                assert(crate::storage::tree::spec_read_store(pool1, j) == pool0.flushed(j));
                if (j as int) < n {
                    assert(db.tree().pool().store()[j as int] == pool1.store()[j as int]);
                }
            }
            assert(crate::storage::tree::spec_read_store(pool1, 0) == pool0.flushed(0));
            assert(image@.subrange(0 * PAGE_SIZE, 0 * PAGE_SIZE + PAGE_SIZE) == db.tree().pool().store()[0]);
        }
        image
    }
}

/// Holding the same data is transitive.
pub proof fn lemma_same_contents_trans(a: Database, b: Database, c: Database)
    requires
        Database::same_contents(a, b),
        Database::same_contents(b, c),
    ensures
        Database::same_contents(a, c),
{
}

/// A database that holds what another held answers every search that the other answered
/// the same way, and reaches the same leaf for it.
pub proof fn lemma_same_contents_lookup(before: Database, after: Database, k: Seq<u8>)
    requires
        Database::same_contents(before, after),
        before.tree().pool().coherent(),
        before.tree().lookup(k) is Some,
    ensures
        after.tree().lookup(k) == before.tree().lookup(k),
        after.tree().sorted_leaf_for(k) == before.tree().sorted_leaf_for(k),
        after.tree().pool().coherent(),
{
    let view = pages_of(before.tree().pool());
    let root = before.tree().root();
    let n0 = before.tree().pool().store().len();
    let n1 = after.tree().pool().store().len();
    crate::storage::tree::lemma_search_fuel(view, root, k, n0, n1);
    crate::storage::tree::lemma_descend_fuel(view, root, k, n0, n1);
}

/// The room of a prefix of operations is at least none and at most that of all of them.
proof fn lemma_replay_room_prefix(es: Seq<crate::wal::EntryView>, j: int)
    requires
        0 <= j <= es.len(),
    ensures
        0 <= Database::replay_room(es.take(j)) <= Database::replay_room(es),
    decreases es.len() - j,
{
    if j < es.len() {
        assert(es.take(j + 1).drop_last() =~= es.take(j));
        lemma_replay_room_prefix(es, j + 1);
    } else {
        assert(es.take(j) =~= es);
    }
    lemma_replay_room_nonneg(es.take(j));
}

proof fn lemma_replay_room_nonneg(es: Seq<crate::wal::EntryView>)
    ensures
        0 <= Database::replay_room(es),
    decreases es.len(),
{
    if es.len() > 0 {
        lemma_replay_room_nonneg(es.drop_last());
    }
}

/// A database that holds what a single-leaf one held is a single leaf with the same records.
pub proof fn lemma_same_contents_single_leaf(before: Database, after: Database)
    requires
        Database::same_contents(before, after),
        Database::single_leaf(before),
    ensures
        Database::single_leaf(after),
        Database::root_records(after) == Database::root_records(before),
{
    assert(pages_of(after.tree().pool())(before.tree().root()) == pages_of(before.tree().pool())(before.tree().root()));
}

/// A database that holds what another held answers every prefix scan that the other
/// answered the same way.
pub proof fn lemma_same_contents_scan(before: Database, after: Database, prefix: Seq<u8>)
    requires
        Database::same_contents(before, after),
        before.tree().pool().coherent(),
        scan_result(pages_of(before.tree().pool()), before.tree().root(), prefix, before.tree().pool().store().len()) is Some,
    ensures
        scan_result(pages_of(after.tree().pool()), after.tree().root(), prefix, after.tree().pool().store().len())
            == scan_result(pages_of(before.tree().pool()), before.tree().root(), prefix, before.tree().pool().store().len()),
        after.tree().pool().coherent(),
{
    crate::storage::tree::lemma_scan_result_fuel(
        pages_of(before.tree().pool()),
        before.tree().root(),
        prefix,
        before.tree().pool().store().len(),
        after.tree().pool().store().len(),
    );
}

/// A database closed with the log disabled and opened again from the bytes that closing gave
/// answers every search that the closed database answered, the same way, when its metadata
/// page records its root: what is read before a restart is read after it.
pub proof fn lemma_close_reopen(db: Database, image: Seq<u8>, reopened: Database, k: Seq<u8>)
    requires
        db.wf(),
        !db.logging(),
        db.tree().pool().coherent(),
        root_recorded(db.tree().pool().page(0)),
        crate::storage::pager::u32_at(db.tree().pool().page(0), crate::storage::pager::META_ROOT_OFFSET as int) == db.tree().root(),
        Database::closed_into(db, image),
        Database::opened_from_image(image, reopened),
        db.tree().lookup(k) is Some,
    ensures
        reopened.tree().lookup(k) == db.tree().lookup(k),
{
    let pool = db.tree().pool();
    assert forall|j: u32| #[trigger] pool.flushed(j) == pool.page(j) by {
        if pool.cached().dom().contains(j) && !pool.cached()[j].1 {
            assert(pool.cached()[j].0 == crate::storage::pager::spec_read(pool.store(), j as int));
        }
    }
    assert(image_page(image, 0) == pool.page(0));
    assert(pages_of(reopened.tree().pool()) =~= pages_of(pool)) by {
        assert forall|j: u32| #[trigger] reopened.tree().pool().page(j) == pool.page(j) by {
            if j > 0 {
                assert(image_page(image, j) == pool.flushed(j));
            }
        }
    }
    let n = pool.store().len();
    assert((image.len() as int) / (PAGE_SIZE as int) >= n) by {
        vstd::arithmetic::div_mod::lemma_div_is_ordered(n * PAGE_SIZE, image.len() as int, PAGE_SIZE as int);
        vstd::arithmetic::div_mod::lemma_div_multiples_vanish(n as int, PAGE_SIZE as int);
        vstd::arithmetic::mul::lemma_mul_is_commutative(n as int, PAGE_SIZE as int);
    }
    crate::storage::tree::lemma_search_fuel(pages_of(pool), db.tree().root(), k, n, reopened.tree().pool().store().len());
}

/// A single-leaf database whose metadata page records its root gives, when closed, bytes in
/// which opening finds that same leaf: its records are what a reopened store holds.
pub proof fn lemma_close_single_leaf(db: Database, image: Seq<u8>)
    requires
        db.wf(),
        Database::single_leaf(db),
        root_recorded(db.tree().pool().page(0)),
        crate::storage::pager::u32_at(db.tree().pool().page(0), crate::storage::pager::META_ROOT_OFFSET as int) == db.tree().root(),
        Database::closed_into(db, image),
    ensures
        Database::image_leaf(image) == Some(Database::root_records(db)),
        Database::replay_fits(Database::root_records(db), Seq::empty()),
{
    let pool = db.tree().pool();
    db.lemma_coherent();
    db.index.lemma_wf();
    pool.lemma_wf();
    crate::storage::tree::lemma_decoded_size(pool.page(db.tree().root()));
    assert(Database::replay_room(Seq::<crate::wal::EntryView>::empty()) == 0);
    assert forall|j: u32| #[trigger] pool.flushed(j) == pool.page(j) by {
        if pool.cached().dom().contains(j) && !pool.cached()[j].1 {
            assert(pool.cached()[j].0 == crate::storage::pager::spec_read(pool.store(), j as int));
        }
    }
    let p0 = pool.page(0);
    let m = image_page(image, 0);
    assert(m.subrange(4, 8) == p0.subrange(4, 8)) by {
        if db.logging() {
            db.index.lemma_wf();
            pool.lemma_wf();
            assert(p0.len() == PAGE_SIZE);
            assert(m.subrange(4, 8) =~= p0.subrange(4, 8));
        }
    }
    let root = db.tree().root();
    assert(root != 0);
    assert(image_page(image, root) == pool.page(root));
    let rs = Database::root_records(db);
    assert(crate::storage::btree::decode_node(image_page(image, root)) == crate::storage::btree::NodeView::Leaf(
        crate::storage::btree::LeafView { parent: None, next: None, records: rs },
    ));
}

/// A database that holds what another held takes a put in place wherever the other did.
pub proof fn lemma_same_contents_put_fits(before: Database, after: Database, k: Seq<u8>, v: Seq<u8>)
    requires
        Database::same_contents(before, after),
        inline_put_fits(before.tree(), k, v),
    ensures
        inline_put_fits(after.tree(), k, v),
{
    crate::storage::tree::lemma_descend_fuel(
        pages_of(before.tree().pool()),
        before.tree().root(),
        k,
        before.tree().pool().store().len(),
        after.tree().pool().store().len(),
    );
}


/// A new database reads back what is put into it: in a database whose tree is an empty leaf
/// with no stale cached page, a key of allowed length with an inline value fits in place,
/// so `put` succeeds (the log permitting) and `get` then gives the value back.
pub proof fn lemma_new_database_put_fits(db: Database, key: Seq<u8>, value: Seq<u8>)
    requires
        db.tree().pool().coherent(),
        Database::empty_tree(db),
        key.len() <= crate::storage::btree::MAX_KEY_SIZE,
        value.len() <= crate::storage::btree::MAX_INLINE_VAL_SIZE,
        !crate::storage::tree::is_overflow_handle(value),
    ensures
        inline_put_fits(db.tree(), key, value),
{
    crate::storage::tree::lemma_put_fits_empty(db.tree(), key, value);
}

} // verus!
