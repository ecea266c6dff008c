//! The database facade: an in-memory table in front of an ordered list of
//! static index slots, lower slot meaning newer data. Writes go to the
//! table; a full table is flushed into slot 0, merging with whatever lives
//! there and cascading down the slots with last-writer-wins. Reads probe
//! the table, then each live slot newest first, gated by its bloom filter.
use vstd::prelude::*;

verus! {

use crate::avl_tree::MemoryTable;
use crate::b_tree::{
    bloom_fid, bloom_file_id, fence_fid, files_unchanged_except, items_fid, lemma_fid_values,
    lemma_si_items_unique, lemma_si_owns_div, si_owns, si_wf, slot_ok, BTreeReader, BTreeWriter,
};
use crate::bloom_filter::{bloom_has, BloomFilterReader, BloomFilterWriter};
use crate::cache_trait::Cache;
use crate::compaction::{merge_streams, views_of};
use crate::pairs::{
    combined, filter_range, filtered_streams, lemma_combined_absent, lemma_combined_at,
    lemma_combined_concat, lemma_combined_filtered, lemma_seq_map_contains, lemma_seq_map_len,
    seq_map, valid_stream,
};
use crate::TOMBSTONE;
use vstd::string::StringSliceAdditionalSpecFns;

/// What an operation can report.
#[derive(Clone, Copy, Debug, PartialEq, Eq, Structural)]
pub enum Error {
    /// The caller passed the reserved sentinel as a key or value.
    InvalidValue,
    /// An on-disk invariant does not hold.
    Corruption,
    /// The underlying store failed.
    IO,
    /// No manifest was found on open.
    NotFound,
    /// The slot list is exhausted and no further flush can be placed.
    OutOfCapacity,
}

/// The persisted record of the live slots: for each slot, its id and fence
/// level count, or nothing; plus the configured table capacity.
pub struct Manifest {
    pub b_trees_file_names_and_levels: Vec<Option<(u64, usize)>>,
    pub max_mem_table_size: usize,
}

/// One more slot than this would run out of file ids.
pub const MAX_SLOTS: u64 = 0x0FFF_FFFF_FFFF_0000;

/// A live slot: the index reader and its bloom filter.
pub struct Slot {
    pub b_tree: BTreeReader,
    pub bloom: BloomFilterReader,
}

/// One slot of the database against the store: either empty with no files,
/// or a sound index whose keys the slot's bloom filter all cover.
pub open spec fn slot_wf(files: Map<u64, Seq<Seq<i64>>>, i: int, entry: Option<Slot>) -> bool {
    match entry {
        Some(sl) => {
            &&& sl.b_tree.slot == i as u64
            &&& sl.b_tree.levels <= 13
            &&& sl.b_tree.wf(files)
            &&& sl.b_tree.items@.len() >= 1
            &&& sl.bloom.file_id == bloom_fid(i as u64)
            &&& sl.bloom.wf(files)
            &&& forall|t: int|
                0 <= t < sl.b_tree.items@.len() ==> bloom_has(
                    files[bloom_fid(i as u64)],
                    (#[trigger] sl.b_tree.items@[t]).0,
                )
            &&& forall|k: u64|
                2 + sl.b_tree.levels <= k < 16 ==> !files.contains_key(
                    #[trigger] ((16 * (i as u64) + k) as u64),
                )
        },
        None => forall|k: u64|
            k < 16 ==> !files.contains_key(#[trigger] ((16 * (i as u64) + k) as u64)),
    }
}

/// The store-independent agreement between two stores on one slot's ids.
proof fn lemma_slot_wf_frame(
    f0: Map<u64, Seq<Seq<i64>>>,
    f1: Map<u64, Seq<Seq<i64>>>,
    i: int,
    entry: Option<Slot>,
)
    requires
        slot_wf(f0, i, entry),
        0 <= i < 0x1000_0000_0000_0000,
        forall|id: u64|
            id / 16 == i ==> (f1.contains_key(id) == f0.contains_key(id) && (#[trigger] f0
                .contains_key(id) ==> f1[id] == f0[id])),
    ensures
        slot_wf(f1, i, entry),
{
    let iu = i as u64;
    assert forall|k: u64| k < 16 implies #[trigger] ((16 * iu + k) / 16) == iu by {
        assert((16 * iu + k) / 16 == iu) by (nonlinear_arith)
            requires
                0 <= k < 16,
                0 <= iu < 0x1000_0000_0000_0000,
        ;
    }
    lemma_fid_values(iu, 0);
    assert(items_fid(iu) == 16 * iu + 0);
    assert(bloom_fid(iu) == 16 * iu + 1);
    assert(f1.contains_key(items_fid(iu)) == f0.contains_key(items_fid(iu)));
    assert(f1.contains_key(bloom_fid(iu)) == f0.contains_key(bloom_fid(iu)));
    match entry {
        Some(sl) => {
            assert(f1[items_fid(iu)] == f0[items_fid(iu)]);
            assert(f1[bloom_fid(iu)] == f0[bloom_fid(iu)]);
            assert forall|l2: nat|
                l2 < sl.b_tree.levels as nat implies f1.contains_key(
                #[trigger] fence_fid(iu, l2),
            ) && f1[fence_fid(iu, l2)] == f0[fence_fid(iu, l2)] by {
                lemma_fid_values(iu, l2);
                assert(fence_fid(iu, l2) == 16 * iu + (2 + l2) as u64);
                assert(f1.contains_key(fence_fid(iu, l2)) == f0.contains_key(fence_fid(iu, l2)));
            }
            assert forall|k: u64|
                2 + sl.b_tree.levels <= k < 16 implies !f1.contains_key(
                #[trigger] ((16 * iu + k) as u64),
            ) by {
                assert(f1.contains_key(((16 * iu + k) as u64)) == f0.contains_key(((16 * iu + k) as u64)));
            }
        },
        None => {
            assert forall|k: u64|
                k < 16 implies !f1.contains_key(#[trigger] ((16 * iu + k) as u64)) by {
                assert(f1.contains_key(((16 * iu + k) as u64)) == f0.contains_key(((16 * iu + k) as u64)));
            }
        },
    }
}

/// Every stream of a sound database is a sorted sentinel-free stream.
proof fn lemma_streams_valid<A: Cache>(db: &Database<A>)
    requires
        db.wf(),
    ensures
        forall|j: int|
            0 <= j < db.streams().len() ==> valid_stream(#[trigger] db.streams()[j]),
{
    assert forall|j: int|
        0 <= j < db.streams().len() implies valid_stream(#[trigger] db.streams()[j]) by {
        if j == 0 {
            db.mem_table.lemma_wf_valid();
        } else {
            assert(slot_wf(db.cache.files(), j - 1, db.b_trees@[j - 1]));
            match db.b_trees@[j - 1] {
                Some(sl) => {
                    assert(db.streams()[j] == sl.b_tree.items@);
                },
                None => {
                    assert(db.streams()[j] =~= Seq::<(i64, i64)>::empty());
                },
            }
        }
    }
}

/// A bloom filter file of whole pages that covers every key of `items`.
pub open spec fn bloom_covers(
    files: Map<u64, Seq<Seq<i64>>>,
    bid: u64,
    items: Seq<(i64, i64)>,
) -> bool {
    &&& files.contains_key(bid)
    &&& 1 <= files[bid].len() <= u64::MAX
    &&& forall|j: int| 0 <= j < files[bid].len() ==> (#[trigger] files[bid][j]).len() == 512
    &&& forall|t: int| 0 <= t < items.len() ==> bloom_has(files[bid], (#[trigger] items[t]).0)
}

/// One manifest entry matches the store: an empty slot has no files, a
/// live one names a sound index whose keys its bloom file covers.
pub open spec fn manifest_slot_ok(
    files: Map<u64, Seq<Seq<i64>>>,
    i: int,
    entry: Option<(u64, usize)>,
) -> bool {
    match entry {
        Some(e) => {
            &&& e.0 == i as u64
            &&& e.1 <= 13
            &&& exists|s: Seq<(i64, i64)>|
                #[trigger] si_wf(s, i as u64, e.1 as nat, files) && s.len() >= 1 && bloom_covers(
                    files,
                    bloom_fid(i as u64),
                    s,
                )
            &&& forall|k: u64|
                2 + e.1 <= k < 16 ==> !files.contains_key(
                    #[trigger] ((16 * (i as u64) + k) as u64),
                )
        },
        None => forall|k: u64|
            k < 16 ==> !files.contains_key(#[trigger] ((16 * (i as u64) + k) as u64)),
    }
}

/// A manifest matches a store when every entry does and every file in the
/// store belongs to some listed slot.
pub open spec fn manifest_ok(m: Manifest, files: Map<u64, Seq<Seq<i64>>>) -> bool {
    &&& 0 < m.max_mem_table_size < usize::MAX
    &&& m.b_trees_file_names_and_levels@.len() as int <= MAX_SLOTS as int
    &&& forall|i: int|
        0 <= i < m.b_trees_file_names_and_levels@.len() ==> manifest_slot_ok(
            files,
            i,
            #[trigger] m.b_trees_file_names_and_levels@[i],
        )
    &&& forall|id: u64|
        #[trigger] files.contains_key(id) ==> id < 16 * m.b_trees_file_names_and_levels@.len()
}

/// The store for fixed-width integer keys and values: a memtable over an
/// ordered list of static index slots.
pub struct Database<A: Cache> {
    pub mem_table: MemoryTable,
    pub b_trees: Vec<Option<Slot>>,
    pub max_mem_table_size: usize,
    pub cache: A,
}

impl<A: Cache> Database<A> {
    /// The stream a slot contributes: its pairs, or nothing when empty.
    pub open spec fn slot_stream(&self, i: int) -> Seq<(i64, i64)> {
        match self.b_trees@[i] {
            Some(sl) => sl.b_tree.items@,
            None => Seq::empty(),
        }
    }

    /// All live streams, newest first: the memtable, then each slot.
    pub open spec fn streams(&self) -> Seq<Seq<(i64, i64)>> {
        Seq::new(
            (self.b_trees@.len() + 1) as nat,
            |k: int|
                if k == 0 {
                    self.mem_table@
                } else {
                    self.slot_stream(k - 1)
                },
        )
    }

    /// What the database holds: the merged view of all its streams.
    pub open spec fn view(&self) -> Map<i64, i64> {
        combined(self.streams())
    }

    /// Sound state: the memtable is sound and at the configured bound,
    /// every slot is sound against the store, and every file in the store
    /// belongs to some current slot.
    pub open spec fn wf(&self) -> bool {
        &&& self.mem_table.wf()
        &&& self.mem_table.capacity() == self.max_mem_table_size as nat
        &&& 0 < self.max_mem_table_size < usize::MAX
        &&& self.b_trees@.len() as int <= MAX_SLOTS as int
        &&& forall|i: int|
            0 <= i < self.b_trees@.len() ==> slot_wf(
                self.cache.files(),
                i,
                #[trigger] self.b_trees@[i],
            )
        &&& forall|id: u64|
            #[trigger] self.cache.files().contains_key(id) ==> id < 16 * self.b_trees@.len()
    }

    /// An empty database over an empty store.
    pub fn create(cache: A, max_mem_table_size: usize) -> (r: Database<A>)
        requires
            0 < max_mem_table_size < usize::MAX,
            cache.files() == Map::<u64, Seq<Seq<i64>>>::empty(),
        ensures
            r.wf(),
            r.view() == Map::<i64, i64>::empty(),
            r.max_mem_table_size == max_mem_table_size,
            r.b_trees@.len() == 0,
            r.mem_table@ == Seq::<(i64, i64)>::empty(),
    {
        let r = Database {
            mem_table: MemoryTable::new(max_mem_table_size),
            b_trees: Vec::new(),
            max_mem_table_size,
            cache,
        };
        proof {
            assert(r.streams() =~= seq![r.mem_table@]);
            assert(r.streams().drop_first() =~= Seq::<Seq<(i64, i64)>>::empty());
            assert(combined(r.streams().drop_first()) == Map::<i64, i64>::empty());
            assert(r.mem_table@.len() == 0);
            assert(seq_map(r.mem_table@) == Map::<i64, i64>::empty());
            assert(r.streams()[0] == r.mem_table@);
            assert(r.view() =~= Map::<i64, i64>::empty());
        }
        r
    }

    /// Point read: the most recent value written under `key`, if any.
    pub fn get(&mut self, key: i64) -> (r: Option<i64>)
        requires
            old(self).wf(),
        ensures
            final(self).wf(),
            final(self).mem_table == old(self).mem_table,
            final(self).b_trees == old(self).b_trees,
            final(self).max_mem_table_size == old(self).max_mem_table_size,
            final(self).cache.files() == old(self).cache.files(),
            r == (if old(self).view().contains_key(key) {
                Some(old(self).view()[key])
            } else {
                None
            }),
    {
        let ghost sts = self.streams();
        proof {
            lemma_streams_valid(self);
        }
        if key == TOMBSTONE {
            proof {
                assert forall|j: int|
                    0 <= j < sts.len() implies !seq_map(#[trigger] sts[j]).contains_key(key) by {
                    lemma_seq_map_contains(sts[j], key);
                }
                assert(old(self).streams() =~= sts);
                lemma_combined_absent(sts, key);
            }
            return None;
        }
        match self.mem_table.get(key) {
            Some(v) => {
                proof {
                    assert(old(self).streams() =~= sts);
                    lemma_combined_at(sts, 0, key);
                }
                Some(v)
            },
            None => {
                let ghost files0 = self.cache.files();
                let mut i: usize = 0;
                let n = self.b_trees.len();
                proof {
                    assert(sts[0] == self.mem_table@);
                }
                while i < n
                    invariant
                        self.wf(),
                        key != TOMBSTONE,
                        self.mem_table == old(self).mem_table,
                        self.b_trees == old(self).b_trees,
                        self.max_mem_table_size == old(self).max_mem_table_size,
                        self.cache.files() == old(self).cache.files(),
                        files0 == old(self).cache.files(),
                        sts == self.streams(),
                        n == self.b_trees@.len(),
                        i <= n,
                        forall|j: int|
                            0 <= j <= i ==> !seq_map(#[trigger] sts[j]).contains_key(key),
                    decreases n - i,
                {
                    let checked = match &self.b_trees[i] {
                        Some(sl) => {
                            proof {
                                assert(slot_wf(files0, i as int, self.b_trees@[i as int]));
                            }
                            let maybe = sl.bloom.check_item(key, &mut self.cache);
                            if maybe {
                                let got = sl.b_tree.get_item(key, &mut self.cache);
                                proof {
                                    assert(old(self).streams() =~= sts);
                                    if got is Some {
                                        lemma_combined_at(sts, i + 1, key);
                                        assert(sts[i + 1] == sl.b_tree.items@);
                                    } else {
                                        assert(!seq_map(sts[i + 1]).contains_key(key));
                                    }
                                }
                                got
                            } else {
                                proof {
                                    assert(!seq_map(sts[i + 1]).contains_key(key)) by {
                                        lemma_seq_map_contains(sl.b_tree.items@, key);
                                        if seq_map(sl.b_tree.items@).contains_key(key) {
                                            let t = choose|t: int|
                                                0 <= t < sl.b_tree.items@.len() && (
                                                #[trigger] sl.b_tree.items@[t]).0 == key;
                                            assert(bloom_has(
                                                files0[bloom_fid(i as u64)],
                                                sl.b_tree.items@[t].0,
                                            ));
                                        }
                                    }
                                }
                                None
                            }
                        },
                        None => {
                            proof {
                                assert(sts[i + 1] =~= Seq::<(i64, i64)>::empty());
                                assert(!seq_map(sts[i + 1]).contains_key(key));
                            }
                            None
                        },
                    };
                    if let Some(v) = checked {
                        return Some(v);
                    }
                    i += 1;
                }
                proof {
                    assert(old(self).streams() =~= sts);
                    lemma_combined_absent(sts, key);
                }
                None
            },
        }
    }

    /// Range read: every live pair with a key in `[lower_bound,
    /// upper_bound]`, ascending, each key once, the newest value winning;
    /// reversed bounds yield nothing.
    pub fn range(&mut self, lower_bound: i64, upper_bound: i64) -> (r: Vec<(i64, i64)>)
        requires
            old(self).wf(),
        ensures
            final(self).wf(),
            final(self).mem_table == old(self).mem_table,
            final(self).b_trees == old(self).b_trees,
            final(self).max_mem_table_size == old(self).max_mem_table_size,
            final(self).cache.files() == old(self).cache.files(),
            valid_stream(r@),
            forall|k: i64|
                #[trigger] seq_map(r@).contains_key(k) <==> (old(self).view().contains_key(k)
                    && lower_bound <= k <= upper_bound),
            forall|k: i64|
                seq_map(r@).contains_key(k) ==> seq_map(r@)[k] == old(self).view()[k],
    {
        let ghost sts = self.streams();
        let ghost files0 = self.cache.files();
        proof {
            lemma_streams_valid(self);
        }
        let mut iterators: Vec<Vec<(i64, i64)>> = Vec::new();
        let scan = self.mem_table.scan(lower_bound, upper_bound);
        proof {
            self.mem_table.lemma_wf_valid();
            crate::pairs::lemma_filter_range_valid(self.mem_table@, lower_bound, upper_bound);
            assert(sts[0] == self.mem_table@);
        }
        iterators.push(scan);
        let n = self.b_trees.len();
        let mut i: usize = 0;
        while i < n
            invariant
                self.wf(),
                self.mem_table == old(self).mem_table,
                self.b_trees == old(self).b_trees,
                self.max_mem_table_size == old(self).max_mem_table_size,
                self.cache.files() == old(self).cache.files(),
                files0 == old(self).cache.files(),
                sts == self.streams(),
                n == self.b_trees@.len(),
                i <= n,
                iterators@.len() == i + 1,
                forall|j: int|
                    0 <= j <= i ==> (#[trigger] iterators@[j])@ == filter_range(
                        sts[j],
                        lower_bound,
                        upper_bound,
                    ),
                forall|j: int| 0 <= j <= i ==> valid_stream((#[trigger] iterators@[j])@),
            decreases n - i,
        {
            let scan_i = match &self.b_trees[i] {
                Some(sl) => {
                    proof {
                        assert(slot_wf(files0, i as int, self.b_trees@[i as int]));
                    }
                    let v = sl.b_tree.range(lower_bound, upper_bound, &mut self.cache);
                    proof {
                        crate::pairs::lemma_filter_range_valid(
                            sl.b_tree.items@,
                            lower_bound,
                            upper_bound,
                        );
                        assert(sts[i + 1] == sl.b_tree.items@);
                    }
                    v
                },
                None => {
                    let v: Vec<(i64, i64)> = Vec::new();
                    proof {
                        assert(sts[i + 1] =~= Seq::<(i64, i64)>::empty());
                        crate::pairs::lemma_filter_range_empty(
                            sts[i + 1],
                            lower_bound,
                            upper_bound,
                        );
                        assert(v@ =~= filter_range(sts[i + 1], lower_bound, upper_bound));
                    }
                    v
                },
            };
            iterators.push(scan_i);
            i += 1;
        }
        let ghost its = views_of(iterators@);
        proof {
            lemma_streams_valid(self);
            assert(its =~= filtered_streams(sts, lower_bound, upper_bound));
        }
        let r = merge_streams(iterators);
        proof {
            assert(old(self).streams() =~= sts);
            lemma_combined_filtered(sts, lower_bound, upper_bound);
            assert(seq_map(r@) == combined(filtered_streams(sts, lower_bound, upper_bound)));
        }
        r
    }

    /// Range read under its older name.
    pub fn scan(&mut self, key1: i64, key2: i64) -> (r: Vec<(i64, i64)>)
        requires
            old(self).wf(),
        ensures
            final(self).wf(),
            final(self).cache.files() == old(self).cache.files(),
            valid_stream(r@),
            forall|k: i64|
                #[trigger] seq_map(r@).contains_key(k) <==> (old(self).view().contains_key(k)
                    && key1 <= k <= key2),
            forall|k: i64|
                seq_map(r@).contains_key(k) ==> seq_map(r@)[k] == old(self).view()[k],
    {
        self.range(key1, key2)
    }

    /// The slot streams from slot `from` on, newest first.
    pub open spec fn tails(&self, from: int) -> Seq<Seq<(i64, i64)>> {
        Seq::new((self.b_trees@.len() - from) as nat, |k: int| self.slot_stream(from + k))
    }

    /// Place a merged stack of streams at `level`: into the slot if it is
    /// empty, else merged further with the slot's own stream one level
    /// down. Emptied slots lose their files at once. Returns the slot that
    /// received the result.
    fn insert_iter_at_level(&mut self, level: usize, iter: Vec<Vec<(i64, i64)>>) -> (r: usize)
        requires
            old(self).wf(),
            level <= old(self).b_trees@.len(),
            (old(self).b_trees@.len() as int) < (MAX_SLOTS as int),
            forall|i: int| 0 <= i < level ==> old(self).b_trees@[i] is None,
            iter@.len() >= 1,
            forall|t: int| 0 <= t < iter@.len() ==> valid_stream((#[trigger] iter@[t])@),
            iter@[0]@.len() >= 1,
        ensures
            final(self).wf(),
            final(self).mem_table == old(self).mem_table,
            final(self).max_mem_table_size == old(self).max_mem_table_size,
            old(self).b_trees@.len() <= final(self).b_trees@.len() <= old(self).b_trees@.len()
                + 1,
            forall|i: int| 0 <= i < level ==> final(self).b_trees@[i] is None,
            combined(final(self).tails(0)) == combined(
                views_of(iter@) + old(self).tails(level as int),
            ),
        decreases old(self).b_trees@.len() - level,
    {
        let ghost files0 = self.cache.files();
        let n0 = self.b_trees.len();
        if level == n0 {
            self.b_trees.push(None);
            proof {
                assert forall|i: int|
                    0 <= i < self.b_trees@.len() implies slot_wf(
                    self.cache.files(),
                    i,
                    #[trigger] self.b_trees@[i],
                ) by {
                    if i < n0 {
                        assert(self.b_trees@[i] == old(self).b_trees@[i]);
                        assert(slot_wf(files0, i, old(self).b_trees@[i]));
                    } else {
                        assert forall|k: u64|
                            k < 16 implies !self.cache.files().contains_key(
                            #[trigger] ((16 * (i as u64) + k) as u64),
                        ) by {
                            assert(16 * (i as u64) + k >= 16 * n0);
                        }
                    }
                }
            }
        }
        let ghost pre = *self;
        proof {
            assert(slot_wf(files0, level as int, pre.b_trees@[level as int]));
        }
        let taken = self.b_trees[level].take();
        match taken {
            Some(sl) => {
                let Slot { b_tree, bloom } = sl;
                let ghost lev_items = b_tree.items@;
                let stream_l = b_tree.into_level_iter(&mut self.cache);
                proof {
                    assert(b_tree.wf(self.cache.files()));
                }
                b_tree.delete(&mut self.cache);
                let bid = bloom_file_id(level as u64);
                proof {
                    lemma_fid_values(level as u64, 0);
                    assert(!si_owns(level as u64, b_tree.levels as nat, bid));
                    assert(self.cache.files().contains_key(bid));
                }
                self.cache.delete_file(bid);
                let ghost files1 = self.cache.files();
                proof {
                    assert forall|k: u64|
                        k < 16 implies !files1.contains_key(
                        #[trigger] ((16 * (level as u64) + k) as u64),
                    ) by {
                        let id = (16 * (level as u64) + k) as u64;
                        lemma_fid_values(level as u64, 0);
                        if k == 0 {
                            assert(si_owns(level as u64, b_tree.levels as nat, id));
                        } else if k == 1 {
                            assert(id == bid);
                        } else if k < 2 + b_tree.levels as u64 {
                            assert(si_owns(level as u64, b_tree.levels as nat, id));
                        } else {
                            assert(!files0.contains_key(id));
                            assert(!si_owns(level as u64, b_tree.levels as nat, id));
                        }
                    }
                    assert forall|id: u64|
                        id / 16 != level as u64 implies (files1.contains_key(id)
                        == files0.contains_key(id) && (#[trigger] files0.contains_key(id)
                        ==> files1[id] == files0[id])) by {
                        assert(slot_ok(level as u64));
                        if si_owns(level as u64, b_tree.levels as nat, id) {
                            lemma_si_owns_div(level as u64, id);
                        }
                        if id == bid {
                            lemma_si_owns_div(level as u64, id);
                        }
                        assert(!si_owns(level as u64, b_tree.levels as nat, id) && id != bid);
                    }
                    assert forall|i: int|
                        0 <= i < self.b_trees@.len() implies slot_wf(
                        files1,
                        i,
                        #[trigger] self.b_trees@[i],
                    ) by {
                        if i == level {
                        } else {
                            assert(self.b_trees@[i] == pre.b_trees@[i]);
                            assert(slot_wf(files0, i, pre.b_trees@[i]));
                            assert forall|id: u64|
                                id / 16 == i implies (files1.contains_key(id)
                                == files0.contains_key(id) && (#[trigger] files0.contains_key(id)
                                ==> files1[id] == files0[id])) by {
                                assert(id / 16 != level as u64);
                            }
                            lemma_slot_wf_frame(files0, files1, i, pre.b_trees@[i]);
                        }
                    }
                    assert forall|id: u64|
                        #[trigger] files1.contains_key(id) implies id < 16
                            * self.b_trees@.len() by {
                        if id / 16 == level as u64 {
                            vstd::arithmetic::div_mod::lemma_fundamental_div_mod(id as int, 16);
                            assert(id == ((16 * (level as u64) + (id % 16)) as u64));
                            assert(!files1.contains_key(id));
                        } else {
                            assert(files0.contains_key(id));
                        }
                    }
                    assert(self.wf());
                }
                let mut iter2 = iter;
                iter2.push(stream_l);
                let ghost mid = *self;
                proof {
                    assert(forall|t: int| 0 <= t < iter2@.len() - 1 ==> iter2@[t] == iter@[t]);
                    assert(iter2@[iter2@.len() - 1]@ == lev_items);
                    assert(forall|i: int| 0 <= i <= level ==> mid.b_trees@[i] is None);
                    assert(iter2@[0]@.len() >= 1);
                }
                let r = self.insert_iter_at_level(level + 1, iter2);
                proof {
                    assert(views_of(iter2@) =~= views_of(iter@).push(lev_items));
                    assert(mid.tails(level + 1) =~= pre.tails(level + 1));
                    assert(pre.tails(level as int) =~= seq![lev_items] + pre.tails(level + 1));
                    assert(views_of(iter2@) + mid.tails(level + 1) =~= views_of(iter@)
                        + pre.tails(level as int));
                    assert(pre.tails(level as int) =~= old(self).tails(level as int));
                    assert(forall|i: int| 0 <= i < level ==> self.b_trees@[i] is None);
                }
                r
            },
            None => {
                let merged = merge_streams(iter);
                proof {
                    assert(seq_map(merged@) == combined(views_of(iter@)));
                    assert(views_of(iter@)[0] == iter@[0]@);
                    crate::pairs::lemma_seq_map_index(iter@[0]@, 0);
                    let k0 = iter@[0]@[0].0;
                    lemma_combined_at(views_of(iter@), 0, k0);
                    lemma_seq_map_contains(merged@, k0);
                    assert(merged@.len() >= 1);
                    assert(slot_ok(level as u64));
                    lemma_fid_values(level as u64, 0);
                    assert(!files0.contains_key(items_fid(level as u64))) by {
                        assert(items_fid(level as u64) == ((16 * (level as u64) + 0) as u64));
                    }
                    assert forall|l2: nat|
                        l2 <= 13 implies !files0.contains_key(
                        #[trigger] fence_fid(level as u64, l2),
                    ) by {
                        lemma_fid_values(level as u64, l2);
                        assert(fence_fid(level as u64, l2) == ((16 * (level as u64) + ((2
                            + l2) as u64)) as u64));
                    }
                }
                proof {
                    assert(self.b_trees@ =~= pre.b_trees@);
                }
                let slot_u = level as u64;
                let mut writer = BTreeWriter::new(slot_u, &mut self.cache);
                let mut bloom_writer = BloomFilterWriter::new(merged.len() as u64);
                proof {
                    assert(files_unchanged_except(files0, self.cache.files(), slot_u, 14)) by {
                        assert forall|id: u64|
                            !si_owns(slot_u, 14, id) implies (self.cache.files().contains_key(id)
                            == files0.contains_key(id) && (files0.contains_key(id)
                            ==> self.cache.files()[id] == files0[id])) by {
                            assert(id != items_fid(slot_u));
                        }
                    }
                    assert(writer.items() =~= merged@.take(0));
                }
                let mlen = merged.len();
                let mut t: usize = 0;
                while t < mlen
                    invariant
                        valid_stream(merged@),
                        mlen == merged@.len(),
                        1 <= mlen,
                        t <= mlen,
                        level < self.b_trees@.len(),
                        slot_u == level as u64,
                        slot_ok(slot_u),
                        writer.slot == slot_u,
                        writer.wf(self.cache.files()),
                        writer.items() == merged@.take(t as int),
                        bloom_writer.wf(),
                        bloom_writer@.len() == crate::bloom_filter::bloom_page_count(
                            mlen as u64,
                        ),
                        forall|j: int|
                            0 <= j < t ==> bloom_writer.keys().contains(
                                (#[trigger] merged@[j]).0,
                            ),
                        files_unchanged_except(files0, self.cache.files(), slot_u, 14),
                        self.mem_table == pre.mem_table,
                        self.b_trees@ == pre.b_trees@,
                        self.max_mem_table_size == pre.max_mem_table_size,
                    decreases mlen - t,
                {
                    let item = merged[t];
                    let ghost fprev = self.cache.files();
                    proof {
                        if t > 0 {
                            assert(merged@.take(t as int).last() == merged@[t - 1]);
                            assert(merged@[t - 1].0 < item.0);
                        }
                        assert(item.0 != TOMBSTONE && item.1 != TOMBSTONE);
                    }
                    writer.add_item(item, &mut self.cache);
                    bloom_writer.add_key(item.0);
                    proof {
                        assert(merged@.take(t + 1) =~= merged@.take(t as int).push(item));
                        crate::b_tree::lemma_unchanged_chain(
                            files0,
                            fprev,
                            self.cache.files(),
                            slot_u,
                            14,
                        );
                    }
                    t += 1;
                }
                proof {
                    assert(merged@.take(mlen as int) =~= merged@);
                }
                let ghost fprev2 = self.cache.files();
                let levels = writer.finish(&mut self.cache);
                proof {
                    crate::b_tree::lemma_unchanged_chain(
                        files0,
                        fprev2,
                        self.cache.files(),
                        slot_u,
                        14,
                    );
                }
                let bid = bloom_file_id(slot_u);
                proof {
                    assert(!si_owns(slot_u, 14, bid));
                    assert(!self.cache.files().contains_key(bid)) by {
                        assert(bid == ((16 * (level as u64) + 1) as u64));
                        assert(!files0.contains_key(bid));
                    }
                    bloom_writer.lemma_pages_whole();
                    assert forall|tt: int|
                        0 <= tt < merged@.len() implies crate::bloom_filter::bloom_has(
                        bloom_writer@,
                        (#[trigger] merged@[tt]).0,
                    ) by {
                        bloom_writer.lemma_no_false_negative(merged@[tt].0);
                    }
                }
                let ghost fpre_bloom = self.cache.files();
                let ghost bloom_pages = bloom_writer@;
                bloom_writer.write_to_disk(bid, &mut self.cache);
                let ghost ffin = self.cache.files();
                proof {
                    assert(ffin == fpre_bloom.insert(bid, bloom_pages));
                    assert(si_wf(merged@, slot_u, levels as nat, ffin)) by {
                        assert(items_fid(slot_u) != bid);
                        assert forall|l2: nat|
                            l2 < levels as nat implies ffin.contains_key(
                            #[trigger] fence_fid(slot_u, l2),
                        ) && ffin[fence_fid(slot_u, l2)] == fpre_bloom[fence_fid(slot_u, l2)] by {
                            lemma_fid_values(slot_u, l2);
                            assert(fence_fid(slot_u, l2) != bid);
                        }
                    }
                }
                let b_tree = BTreeReader::new(slot_u, levels, &self.cache);
                proof {
                    lemma_si_items_unique(
                        b_tree.items@,
                        merged@,
                        slot_u,
                        levels as nat,
                        ffin,
                    );
                }
                let bloom = BloomFilterReader::new(bid, &self.cache);
                self.b_trees.set(level, Some(Slot { b_tree, bloom }));
                proof {
                    assert forall|id: u64|
                        id / 16 != level as u64 implies (ffin.contains_key(id)
                        == files0.contains_key(id) && (#[trigger] files0.contains_key(id)
                        ==> ffin[id] == files0[id])) by {
                        if si_owns(slot_u, 14, id) {
                            lemma_si_owns_div(slot_u, id);
                        }
                        if id == bid {
                            lemma_si_owns_div(slot_u, id);
                        }
                        assert(!si_owns(slot_u, 14, id) && id != bid);
                        assert(fpre_bloom.contains_key(id) == files0.contains_key(id) && (
                        files0.contains_key(id) ==> fpre_bloom[id] == files0[id]));
                    }
                    // the refilled slot is sound
                    assert(slot_wf(ffin, level as int, self.b_trees@[level as int])) by {
                        assert(b_tree.wf(ffin));
                        assert(bloom.file_id == bid && bloom.num_pages == bloom_pages.len());
                        assert(ffin[bid] == bloom_pages);
                        assert forall|k: u64|
                            2 + b_tree.levels <= k < 16 implies !ffin.contains_key(
                            #[trigger] ((16 * ((level as int) as u64) + k) as u64),
                        ) by {
                            let id = (16 * (level as u64) + k) as u64;
                            lemma_fid_values(slot_u, (k - 2) as nat);
                            assert(id == fence_fid(slot_u, (k - 2) as nat));
                            assert(!fpre_bloom.contains_key(id));
                            assert(id != bid);
                        }
                    }
                    assert forall|i: int|
                        0 <= i < self.b_trees@.len() implies slot_wf(
                        ffin,
                        i,
                        #[trigger] self.b_trees@[i],
                    ) by {
                        if i != level {
                            assert(self.b_trees@[i] == pre.b_trees@[i]);
                            assert(slot_wf(files0, i, pre.b_trees@[i]));
                            assert forall|id: u64|
                                id / 16 == i implies (ffin.contains_key(id)
                                == files0.contains_key(id) && (#[trigger] files0.contains_key(id)
                                ==> ffin[id] == files0[id])) by {
                                assert(id / 16 != level as u64);
                            }
                            lemma_slot_wf_frame(files0, ffin, i, pre.b_trees@[i]);
                        }
                    }
                    assert forall|id: u64|
                        #[trigger] ffin.contains_key(id) implies id < 16
                            * self.b_trees@.len() by {
                        if files0.contains_key(id) && !si_owns(slot_u, 14, id) && id != bid {
                        } else {
                            if si_owns(slot_u, 14, id) {
                                lemma_si_owns_div(slot_u, id);
                            }
                            if id == bid {
                                lemma_si_owns_div(slot_u, id);
                            }
                            if !files0.contains_key(id) || si_owns(slot_u, 14, id) || id == bid {
                                assert(id / 16 == level as u64 || files0.contains_key(id));
                                if id / 16 == level as u64 {
                                    assert(id < 16 * (level as u64) + 16) by (nonlinear_arith)
                                        requires
                                            id / 16 == level as u64,
                                            id == 16 * (id / 16) + id % 16,
                                            0 <= id % 16 < 16,
                                    ;
                                    vstd::arithmetic::div_mod::lemma_fundamental_div_mod(
                                        id as int,
                                        16,
                                    );
                                }
                            }
                        }
                    }
                    assert(self.wf());
                    // the merged view algebra: the written slot now carries
                    // exactly the merged stack
                    let tfin = self.tails(0);
                    assert(forall|j: int| 0 <= j < level ==> (#[trigger] tfin[j]).len() == 0);
                    crate::pairs::lemma_combined_drop_empties(tfin, level as int);
                    assert(tfin.skip(level as int) =~= seq![merged@] + pre.tails(level + 1));
                    lemma_combined_concat(seq![merged@], pre.tails(level + 1));
                    assert(combined(seq![merged@]) =~= seq_map(merged@)) by {
                        assert(seq![merged@].drop_first() =~= Seq::<Seq<(i64, i64)>>::empty());
                        assert(combined(Seq::<Seq<(i64, i64)>>::empty()) == Map::<
                            i64,
                            i64,
                        >::empty());
                        assert(Map::<i64, i64>::empty().union_prefer_right(seq_map(merged@))
                            =~= seq_map(merged@));
                    }
                    lemma_combined_concat(views_of(iter@), pre.tails(level + 1));
                    if level < pre.b_trees@.len() {
                        assert(pre.tails(level as int) =~= seq![Seq::<(i64, i64)>::empty()]
                            + pre.tails(level + 1));
                        lemma_combined_concat(
                            seq![Seq::<(i64, i64)>::empty()],
                            pre.tails(level + 1),
                        );
                        assert(combined(seq![Seq::<(i64, i64)>::empty()])
                            =~= Map::<i64, i64>::empty()) by {
                            assert(seq![Seq::<(i64, i64)>::empty()].drop_first() =~= Seq::<
                                Seq<(i64, i64)>,
                            >::empty());
                            assert(combined(Seq::<Seq<(i64, i64)>>::empty()) == Map::<
                                i64,
                                i64,
                            >::empty());
                            assert(seq_map(Seq::<(i64, i64)>::empty()) == Map::<
                                i64,
                                i64,
                            >::empty());
                            assert(Map::<i64, i64>::empty().union_prefer_right(
                                Map::<i64, i64>::empty(),
                            ) =~= Map::<i64, i64>::empty());
                        }
                        lemma_combined_concat(views_of(iter@), pre.tails(level as int));
                        assert(combined(views_of(iter@) + pre.tails(level as int))
                            =~= combined(views_of(iter@) + pre.tails(level + 1)));
                    } else {
                        assert(pre.tails(level as int) =~= Seq::<Seq<(i64, i64)>>::empty());
                        assert(pre.tails(level + 1) =~= Seq::<Seq<(i64, i64)>>::empty());
                        lemma_combined_concat(views_of(iter@), pre.tails(level as int));
                        lemma_combined_concat(views_of(iter@), pre.tails(level + 1));
                    }
                    if level == n0 {
                        assert(old(self).tails(level as int) =~= pre.tails(level + 1));
                        lemma_combined_concat(views_of(iter@), old(self).tails(level as int));
                        lemma_combined_concat(views_of(iter@), pre.tails(level + 1));
                    } else {
                        assert(pre.tails(level as int) =~= old(self).tails(level as int));
                    }
                    assert(combined(tfin) == combined(
                        views_of(iter@) + old(self).tails(level as int),
                    ));
                }
                level
            },
        }
    }

    /// Write `(key, value)`. The reserved sentinel is rejected as either
    /// key or value with no side effect. When the table is full and the
    /// key is new, the table is flushed into the slots first and the write
    /// retried; every earlier write stays visible, the newest winning.
    pub fn insert(&mut self, key: i64, value: i64) -> (r: Result<(), Error>)
        requires
            old(self).wf(),
        ensures
            final(self).wf(),
            final(self).max_mem_table_size == old(self).max_mem_table_size,
            r == (if key == TOMBSTONE || value == TOMBSTONE {
                Err::<(), Error>(Error::InvalidValue)
            } else if !(seq_map(old(self).mem_table@).contains_key(key) || old(self).mem_table@.len() < old(self).mem_table.capacity()) && (old(self).b_trees@.len()
                as int) >= (MAX_SLOTS as int) {
                Err::<(), Error>(Error::OutOfCapacity)
            } else {
                Ok::<(), Error>(())
            }),
            r is Ok ==> final(self).view() == old(self).view().insert(key, value),
            r is Err ==> final(self).view() == old(self).view() && final(self).mem_table@ == old(self).mem_table@ && final(self).b_trees@ == old(self).b_trees@,
            (r is Ok && (seq_map(old(self).mem_table@).contains_key(key) || old(self).mem_table@.len() < old(self).mem_table.capacity())) ==> (final(self).b_trees@ == old(self).b_trees@ && seq_map(final(self).mem_table@) == seq_map(
                old(self).mem_table@,
            ).insert(key, value) && final(self).mem_table@.len() == old(self).mem_table@.len() + (
            if seq_map(old(self).mem_table@).contains_key(key) {
                0int
            } else {
                1int
            })),
            (r is Ok && !(seq_map(old(self).mem_table@).contains_key(key) || old(self).mem_table@.len() < old(self).mem_table.capacity())) ==> final(self).mem_table@.len()
                == 1,
            r is Err ==> final(self).cache.files() == old(self).cache.files(),
            (r is Ok && (seq_map(old(self).mem_table@).contains_key(key) || old(self).mem_table@.len() < old(self).mem_table.capacity())) ==> final(self).cache.files()
                == old(self).cache.files(),
            (r is Ok && !(seq_map(old(self).mem_table@).contains_key(key) || old(self).mem_table@.len() < old(self).mem_table.capacity())) ==> old(self).b_trees@.len()
                <= final(self).b_trees@.len() <= old(self).b_trees@.len() + 1,
    {
        if key == TOMBSTONE || value == TOMBSTONE {
            return Err(Error::InvalidValue);
        }
        let ok = self.mem_table.insert(key, value);
        if ok {
            proof {
                assert(self.streams().drop_first() =~= old(self).streams().drop_first());
                assert(self.streams()[0] == self.mem_table@);
                assert(old(self).streams()[0] == old(self).mem_table@);
                assert(combined(self.streams().drop_first()).union_prefer_right(
                    seq_map(old(self).mem_table@).insert(key, value),
                ) =~= combined(old(self).streams().drop_first()).union_prefer_right(
                    seq_map(old(self).mem_table@),
                ).insert(key, value));
            }
            Ok(())
        } else {
            if self.b_trees.len() as u64 >= MAX_SLOTS {
                proof {
                    assert(self.streams() =~= old(self).streams());
                }
                return Err(Error::OutOfCapacity);
            }
            let mut old_mem = MemoryTable::new(self.max_mem_table_size);
            core::mem::swap(&mut old_mem, &mut self.mem_table);
            let ghost v0 = old(self).view();
            let ghost old_mem_seq = old_mem@;
            proof {
                old_mem.lemma_wf_valid();
                assert(old_mem@.len() >= 1);
            }
            let stream = old_mem.into_level_iter();
            let mut iter: Vec<Vec<(i64, i64)>> = Vec::new();
            iter.push(stream);
            let ghost mid = *self;
            proof {
                assert(mid.wf()) by {
                    assert(forall|i: int|
                        0 <= i < mid.b_trees@.len() ==> slot_wf(
                            mid.cache.files(),
                            i,
                            #[trigger] mid.b_trees@[i],
                        ));
                }
                assert(views_of(iter@) =~= seq![old_mem_seq]);
            }
            let _last = self.insert_iter_at_level(0, iter);
            proof {
                // the flush preserves the merged view
                assert(combined(self.tails(0)) == combined(
                    seq![old_mem_seq] + mid.tails(0),
                ));
                assert(mid.tails(0) =~= old(self).tails(0));
                assert(old(self).streams() =~= seq![old_mem_seq] + old(self).tails(0));
                assert(self.streams() =~= seq![self.mem_table@] + self.tails(0));
                assert(self.mem_table@.len() == 0);
                assert(seq_map(self.mem_table@) == Map::<i64, i64>::empty());
                assert(combined(self.streams()) =~= combined(self.tails(0))) by {
                    assert(self.streams().drop_first() =~= self.tails(0));
                    assert(combined(self.streams()) == combined(
                        self.streams().drop_first(),
                    ).union_prefer_right(seq_map(self.streams()[0])));
                }
                assert(self.view() == v0);
            }
            let ghost pre2 = *self;
            let ok2 = self.mem_table.insert(key, value);
            proof {
                assert(ok2);
                assert(self.streams().drop_first() =~= pre2.streams().drop_first());
                assert(self.streams()[0] == self.mem_table@);
                assert(combined(self.streams().drop_first()).union_prefer_right(
                    seq_map(pre2.mem_table@).insert(key, value),
                ) =~= combined(pre2.streams().drop_first()).union_prefer_right(
                    seq_map(pre2.mem_table@),
                ).insert(key, value));
                assert(self.view() == v0.insert(key, value));
                assert(self.mem_table@.len() == 1);
            }
            Ok(())
        }
    }

    /// The persistent record of the current slots, for a host to store.
    pub fn manifest(&self) -> (r: Manifest)
        requires
            self.wf(),
        ensures
            r.max_mem_table_size == self.max_mem_table_size,
            r.b_trees_file_names_and_levels@.len() == self.b_trees@.len(),
            forall|i: int|
                0 <= i < self.b_trees@.len() ==> (#[trigger] r.b_trees_file_names_and_levels@[i])
                    == (match self.b_trees@[i] {
                    Some(sl) => Some((i as u64, sl.b_tree.levels)),
                    None => None::<(u64, usize)>,
                }),
    {
        let mut entries: Vec<Option<(u64, usize)>> = Vec::new();
        let n = self.b_trees.len();
        let mut i: usize = 0;
        while i < n
            invariant
                self.wf(),
                n == self.b_trees@.len(),
                i <= n,
                entries@.len() == i,
                forall|j: int|
                    0 <= j < i ==> (#[trigger] entries@[j]) == (match self.b_trees@[j] {
                        Some(sl) => Some((j as u64, sl.b_tree.levels)),
                        None => None::<(u64, usize)>,
                    }),
            decreases n - i,
        {
            match &self.b_trees[i] {
                Some(sl) => {
                    proof {
                        assert(slot_wf(self.cache.files(), i as int, self.b_trees@[i as int]));
                    }
                    entries.push(Some((i as u64, sl.b_tree.levels)));
                },
                None => {
                    entries.push(None);
                },
            }
            i += 1;
        }
        Manifest {
            b_trees_file_names_and_levels: entries,
            max_mem_table_size: self.max_mem_table_size,
        }
    }

    /// Flush any buffered writes so the slots alone carry every pair, and
    /// hand back the manifest to persist.
    pub fn close(&mut self) -> (r: Result<Manifest, Error>)
        requires
            old(self).wf(),
        ensures
            final(self).wf(),
            final(self).max_mem_table_size == old(self).max_mem_table_size,
            (old(self).mem_table@.len() == 0 || (old(self).b_trees@.len() as int) < (
            MAX_SLOTS as int)) ==> r is Ok,
            r is Ok ==> final(self).view() == old(self).view() && final(self).mem_table@.len()
                == 0,
            r matches Ok(m) ==> m.max_mem_table_size == final(self).max_mem_table_size
                && m.b_trees_file_names_and_levels@.len() == final(self).b_trees@.len() && (
            forall|i: int|
                0 <= i < final(self).b_trees@.len() ==> (
                #[trigger] m.b_trees_file_names_and_levels@[i]) == (
                match final(self).b_trees@[i] {
                    Some(sl) => Some((i as u64, sl.b_tree.levels)),
                    None => None::<(u64, usize)>,
                })),
            r is Err ==> r == Err::<Manifest, Error>(Error::OutOfCapacity) && final(self).view()
                == old(self).view() && final(self).mem_table@ == old(self).mem_table@ && final(self).b_trees@ == old(self).b_trees@ && final(self).cache.files() == old(self).cache.files(),
    {
        if self.mem_table.len() == 0 {
            return Ok(self.manifest());
        }
        if self.b_trees.len() as u64 >= MAX_SLOTS {
            return Err(Error::OutOfCapacity);
        }
        let mut old_mem = MemoryTable::new(self.max_mem_table_size);
        core::mem::swap(&mut old_mem, &mut self.mem_table);
        let ghost v0 = old(self).view();
        let ghost old_mem_seq = old_mem@;
        proof {
            old_mem.lemma_wf_valid();
        }
        let stream = old_mem.into_level_iter();
        let mut iter: Vec<Vec<(i64, i64)>> = Vec::new();
        iter.push(stream);
        let ghost mid = *self;
        proof {
            assert(mid.wf()) by {
                assert(forall|i: int|
                    0 <= i < mid.b_trees@.len() ==> slot_wf(
                        mid.cache.files(),
                        i,
                        #[trigger] mid.b_trees@[i],
                    ));
            }
            assert(views_of(iter@) =~= seq![old_mem_seq]);
        }
        let _last = self.insert_iter_at_level(0, iter);
        proof {
            assert(combined(self.tails(0)) == combined(seq![old_mem_seq] + mid.tails(0)));
            assert(mid.tails(0) =~= old(self).tails(0));
            assert(old(self).streams() =~= seq![old_mem_seq] + old(self).tails(0));
            assert(self.streams() =~= seq![self.mem_table@] + self.tails(0));
            assert(self.mem_table@.len() == 0);
            assert(seq_map(self.mem_table@) == Map::<i64, i64>::empty());
            assert(combined(self.streams()) =~= combined(self.tails(0))) by {
                assert(self.streams().drop_first() =~= self.tails(0));
                assert(combined(self.streams()) == combined(
                    self.streams().drop_first(),
                ).union_prefer_right(seq_map(self.streams()[0])));
            }
            assert(self.view() == v0);
        }
        Ok(self.manifest())
    }

    /// Rebuild a database from its manifest over a store holding the
    /// files the manifest names, with a fresh empty memtable.
    pub fn open(cache: A, manifest: &Manifest) -> (r: Database<A>)
        requires
            manifest_ok(*manifest, cache.files()),
        ensures
            r.wf(),
            r.mem_table@ == Seq::<(i64, i64)>::empty(),
            r.max_mem_table_size == manifest.max_mem_table_size,
            r.b_trees@.len() == manifest.b_trees_file_names_and_levels@.len(),
    {
        let mut b_trees: Vec<Option<Slot>> = Vec::new();
        let n = manifest.b_trees_file_names_and_levels.len();
        let mut i: usize = 0;
        while i < n
            invariant
                manifest_ok(*manifest, cache.files()),
                n == manifest.b_trees_file_names_and_levels@.len(),
                i <= n,
                b_trees@.len() == i,
                forall|j: int|
                    0 <= j < i ==> slot_wf(cache.files(), j, #[trigger] b_trees@[j]),
            decreases n - i,
        {
            proof {
                assert(manifest_slot_ok(
                    cache.files(),
                    i as int,
                    manifest.b_trees_file_names_and_levels@[i as int],
                ));
            }
            match &manifest.b_trees_file_names_and_levels[i] {
                Some(e) => {
                    let ghost s = choose|s: Seq<(i64, i64)>|
                        #[trigger] si_wf(s, i as u64, e.1 as nat, cache.files()) && s.len() >= 1
                            && bloom_covers(cache.files(), bloom_fid(i as u64), s);
                    let bt = BTreeReader::new(e.0, e.1, &cache);
                    proof {
                        lemma_si_items_unique(bt.items@, s, i as u64, e.1 as nat, cache.files());
                    }
                    let bid = bloom_file_id(e.0);
                    let bl = BloomFilterReader::new(bid, &cache);
                    b_trees.push(Some(Slot { b_tree: bt, bloom: bl }));
                },
                None => {
                    b_trees.push(None);
                },
            }
            i += 1;
        }
        let r = Database {
            mem_table: MemoryTable::new(manifest.max_mem_table_size),
            b_trees,
            max_mem_table_size: manifest.max_mem_table_size,
            cache,
        };
        r
    }
}

/// The round-trip law: after a write of `(k, v)` into a view, a read of
/// `k` sees `v`; `insert` produces exactly this view change.
pub proof fn lemma_round_trip(m: Map<i64, i64>, k: i64, v: i64)
    ensures
        m.insert(k, v).contains_key(k),
        m.insert(k, v)[k] == v,
{
}

/// The counting step behind the fullness law: a write under an absent key
/// grows the key count by exactly one, and under a present key not at all.
/// With `insert`'s contract this yields the fullness dichotomy: the flush
/// a full table forces leaves exactly one buffered pair, and while the
/// count stays below the capacity a further distinct-key write flushes
/// nothing; with capacity one there is no room for further writes and the
/// clause is empty.
pub proof fn lemma_insert_count(m: Map<i64, i64>, k: i64, v: i64)
    requires
        m.dom().finite(),
    ensures
        m.insert(k, v).dom().finite(),
        m.insert(k, v).dom().len() == m.dom().len() + (if m.contains_key(k) {
            0int
        } else {
            1int
        }),
{
    assert(m.insert(k, v).dom() =~= m.dom().insert(k));
    vstd::set::axiom_set_insert_len(m.dom(), k);
}

/// The overwrite and last-writer-wins law: a later write under the same
/// key replaces the earlier one entirely, at any depth of the store.
pub proof fn lemma_last_writer_wins(m: Map<i64, i64>, k: i64, v1: i64, v2: i64)
    ensures
        m.insert(k, v1).insert(k, v2) == m.insert(k, v2),
{
    assert(m.insert(k, v1).insert(k, v2) =~= m.insert(k, v2));
}

/// The bytes of the slot file prefix, `b_tree_`.
pub open spec fn level_prefix() -> Seq<u8> {
    seq![98u8, 95u8, 116u8, 114u8, 101u8, 101u8, 95u8]
}

/// Where the digit run starting at `i` ends.
pub open spec fn spec_digits_end(bytes: Seq<u8>, i: int) -> int
    decreases bytes.len() - i,
    when 0 <= i <= bytes.len()
{
    if i >= bytes.len() {
        i
    } else if 48 <= bytes[i] <= 57 {
        spec_digits_end(bytes, i + 1)
    } else {
        i
    }
}

/// The number the digits in `[from, to)` spell.
pub open spec fn spec_digits_val(bytes: Seq<u8>, from: int, to: int) -> int
    decreases to - from,
    when from <= to
{
    if from >= to {
        0
    } else {
        spec_digits_val(bytes, from, to - 1) * 10 + (bytes[to - 1] - 48)
    }
}

/// The slot number a file name carries: the digits after the `b_tree_`
/// prefix; anything else, an empty digit run, or a number too large for
/// the machine reads as the largest value.
pub open spec fn spec_level_number(bytes: Seq<u8>) -> int {
    if bytes.len() < 7 || bytes.subrange(0, 7) != level_prefix() {
        usize::MAX as int
    } else {
        let e = spec_digits_end(bytes, 7);
        if e == 7 || spec_digits_val(bytes, 7, e) > usize::MAX as int {
            usize::MAX as int
        } else {
            spec_digits_val(bytes, 7, e)
        }
    }
}

/// Digit values never shrink as the run extends.
proof fn lemma_digits_val_grows(bytes: Seq<u8>, from: int, to: int)
    requires
        from <= to <= bytes.len(),
        forall|j: int| from <= j < to ==> 48 <= #[trigger] bytes[j] <= 57,
    ensures
        spec_digits_val(bytes, from, to) >= 0,
        from < to ==> spec_digits_val(bytes, from, to) >= spec_digits_val(bytes, from, to - 1),
    decreases to - from,
{
    if from < to {
        lemma_digits_val_grows(bytes, from, to - 1);
        assert(spec_digits_val(bytes, from, to - 1) * 10 >= spec_digits_val(bytes, from, to - 1))
            by (nonlinear_arith)
            requires
                spec_digits_val(bytes, from, to - 1) >= 0,
        ;
    }
}

/// The slot number in a stale file's name, used to recognise which files
/// a finished cascade has made obsolete.
pub fn get_level_number(file_name: &str) -> (r: usize)
    ensures
        r == spec_level_number(file_name.spec_bytes()),
{
    let bytes = file_name.as_bytes();
    let ghost bs = file_name.spec_bytes();
    if bytes.len() < 7 {
        return usize::MAX;
    }
    if !(bytes[0] == 98 && bytes[1] == 95 && bytes[2] == 116 && bytes[3] == 114 && bytes[4]
        == 101 && bytes[5] == 101 && bytes[6] == 95) {
        proof {
            assert(bs.subrange(0, 7) != level_prefix()) by {
                if bs.subrange(0, 7) == level_prefix() {
                    assert(bs.subrange(0, 7)[0] == 98);
                    assert(bs.subrange(0, 7)[1] == 95);
                    assert(bs.subrange(0, 7)[2] == 116);
                    assert(bs.subrange(0, 7)[3] == 114);
                    assert(bs.subrange(0, 7)[4] == 101);
                    assert(bs.subrange(0, 7)[5] == 101);
                    assert(bs.subrange(0, 7)[6] == 95);
                }
            }
        }
        return usize::MAX;
    }
    proof {
        assert(bs.subrange(0, 7) =~= level_prefix());
    }
    let mut i: usize = 7;
    let mut val: usize = 0;
    let mut overflow: bool = false;
    let n = bytes.len();
    while i < n && 48 <= bytes[i] && bytes[i] <= 57
        invariant
            bs == file_name.spec_bytes(),
            bytes@ == bs,
            n == bs.len(),
            7 <= i <= n,
            forall|j: int| 7 <= j < i ==> 48 <= #[trigger] bs[j] <= 57,
            spec_digits_end(bs, i as int) == spec_digits_end(bs, 7),
            !overflow ==> val == spec_digits_val(bs, 7, i as int),
            overflow ==> spec_digits_val(bs, 7, i as int) > usize::MAX as int,
        decreases n - i,
    {
        let d = bytes[i] - 48;
        proof {
            lemma_digits_val_grows(bs, 7, i as int);
            assert(spec_digits_val(bs, 7, i + 1) == spec_digits_val(bs, 7, i as int) * 10 + (
            bs[i as int] - 48));
        }
        if overflow {
            proof {
                lemma_digits_val_grows(bs, 7, i + 1);
                assert(spec_digits_val(bs, 7, i as int) * 10 >= spec_digits_val(bs, 7, i as int))
                    by (nonlinear_arith)
                    requires
                        spec_digits_val(bs, 7, i as int) >= 0,
                ;
            }
        } else if val > (usize::MAX - (d as usize)) / 10 {
            overflow = true;
            proof {
                let m = usize::MAX as int;
                let dd = d as int;
                assert(val * 10 + dd > m) by (nonlinear_arith)
                    requires
                        val > (m - dd) / 10,
                        m - dd == 10 * ((m - dd) / 10) + (m - dd) % 10,
                        0 <= (m - dd) % 10 < 10,
                        val >= 0,
                        0 <= dd <= 9,
                ;
            }
        } else {
            proof {
                let m = usize::MAX as int;
                let dd = d as int;
                assert(val * 10 + dd <= m) by (nonlinear_arith)
                    requires
                        val <= (m - dd) / 10,
                        m - dd == 10 * ((m - dd) / 10) + (m - dd) % 10,
                        0 <= (m - dd) % 10 < 10,
                        val >= 0,
                        0 <= dd <= 9,
                ;
            }
            val = val * 10 + (d as usize);
        }
        i += 1;
    }
    proof {
        assert(spec_digits_end(bs, i as int) == i as int);
        assert(spec_digits_end(bs, 7) == i as int);
    }
    if i == 7 {
        return usize::MAX;
    }
    if overflow {
        return usize::MAX;
    }
    val
}

} // verus!
