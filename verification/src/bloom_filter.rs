//! The cache-line-blocked bloom filter: one per static index, sized at six
//! bits per expected key, probing one 64-byte line with four bits derived
//! from a 128-bit SipHash of the key. A key that was added always probes
//! true; absent keys may rarely probe true as well.
use vstd::prelude::*;

verus! {

use crate::buffer::{bit_is_set, copy_buffer, with_bit_set, Buffer};
use crate::cache_trait::{pages_view, Cache};

/// What SipHash-1-3 with both keys zero returns for a key's eight
/// little-endian bytes. Named rather than spelled out: the permutation is
/// pages long and nothing here could check a transcription of it.
pub uninterp spec fn sip_hash_of(key: i64) -> (u64, u64);

/// Relies on siphasher's `SipHasher13::new` (keys 0, 0) and `hash`: the
/// returned 128-bit hash depends on the hashed bytes alone.
#[verifier::external_body]
fn sip_hash(key: i64) -> (r: (u64, u64))
    ensures
        r == sip_hash_of(key),
{
    let h = siphasher::sip128::SipHasher13::new().hash(&key.to_le_bytes());
    (h.h1, h.h2)
}

/// The page a key lands in, for a filter of `num_pages` pages.
pub open spec fn bloom_sector(num_pages: int, key: i64) -> int {
    sip_hash_of(key).0 as int % num_pages
}

/// The cache line within the page.
pub open spec fn bloom_line(key: i64) -> int {
    (sip_hash_of(key).1 & 63) as int
}

/// The four bit positions within the cache line.
pub open spec fn bloom_off1(key: i64) -> int {
    ((sip_hash_of(key).1 >> 6u64) & 511) as int
}

pub open spec fn bloom_off2(key: i64) -> int {
    ((sip_hash_of(key).1 >> 15u64) & 511) as int
}

pub open spec fn bloom_off3(key: i64) -> int {
    ((sip_hash_of(key).1 >> 24u64) & 511) as int
}

pub open spec fn bloom_off4(key: i64) -> int {
    ((sip_hash_of(key).1 >> 33u64) & 511) as int
}

/// Whether all four of the key's bits are set in the filter pages.
pub open spec fn bloom_has(pages: Seq<Seq<i64>>, key: i64) -> bool {
    let s = pages[bloom_sector(pages.len() as int, key)];
    &&& bit_is_set(s, bloom_line(key), bloom_off1(key))
    &&& bit_is_set(s, bloom_line(key), bloom_off2(key))
    &&& bit_is_set(s, bloom_line(key), bloom_off3(key))
    &&& bit_is_set(s, bloom_line(key), bloom_off4(key))
}

/// A page with no bit set: what every filter page starts as.
pub open spec fn zeroed_page() -> Seq<i64> {
    Seq::new(512, |w: int| 0i64)
}

/// The filter pages after one key is added: the key's four bits are set in
/// its cache line of its page, and nothing else is touched.
pub open spec fn bloom_added(pages: Seq<Seq<i64>>, key: i64) -> Seq<Seq<i64>> {
    let sector = bloom_sector(pages.len() as int, key);
    let line = bloom_line(key);
    pages.update(
        sector,
        with_bit_set(
            with_bit_set(
                with_bit_set(
                    with_bit_set(pages[sector], line, bloom_off1(key)),
                    line,
                    bloom_off2(key),
                ),
                line,
                bloom_off3(key),
            ),
            line,
            bloom_off4(key),
        ),
    )
}

/// How many pages a filter for `num_items` keys occupies: six bits per key,
/// 32768 bits per page, and one page of slack.
pub open spec fn bloom_page_count(num_items: u64) -> int {
    num_items * 6 / 32768 + 1
}

proof fn lemma_mask63(x: u64)
    by (bit_vector)
    ensures
        x & 63 < 64,
{
}

proof fn lemma_mask511(x: u64)
    by (bit_vector)
    ensures
        x & 511 < 512,
{
}

/// Where one key lands: page, cache line, and four bit offsets.
pub struct Hashes {
    pub disk_sector: u64,
    pub cache_line: u8,
    pub cache_line_offset1: u16,
    pub cache_line_offset2: u16,
    pub cache_line_offset3: u16,
    pub cache_line_offset4: u16,
}

impl Hashes {
    /// Derive the key's filter coordinates from its SipHash.
    pub fn new(num_disk_sectors: u64, key: i64) -> (r: Hashes)
        requires
            num_disk_sectors >= 1,
        ensures
            r.disk_sector < num_disk_sectors,
            r.disk_sector == bloom_sector(num_disk_sectors as int, key),
            r.cache_line < 64,
            r.cache_line == bloom_line(key),
            r.cache_line_offset1 < 512,
            r.cache_line_offset1 == bloom_off1(key),
            r.cache_line_offset2 < 512,
            r.cache_line_offset2 == bloom_off2(key),
            r.cache_line_offset3 < 512,
            r.cache_line_offset3 == bloom_off3(key),
            r.cache_line_offset4 < 512,
            r.cache_line_offset4 == bloom_off4(key),
    {
        let (h1, h2) = sip_hash(key);
        let disk_sector = h1 % num_disk_sectors;
        proof {
            lemma_mask63(h2);
            lemma_mask511(h2 >> 6u64);
            lemma_mask511(h2 >> 15u64);
            lemma_mask511(h2 >> 24u64);
            lemma_mask511(h2 >> 33u64);
        }
        let cache_line = (h2 & 63) as u8;
        let cache_line_offset1 = ((h2 >> 6u64) & 511) as u16;
        let cache_line_offset2 = ((h2 >> 15u64) & 511) as u16;
        let cache_line_offset3 = ((h2 >> 24u64) & 511) as u16;
        let cache_line_offset4 = ((h2 >> 33u64) & 511) as u16;
        Hashes {
            disk_sector,
            cache_line,
            cache_line_offset1,
            cache_line_offset2,
            cache_line_offset3,
            cache_line_offset4,
        }
    }
}

/// Builds a filter in memory from the key stream fed to an index writer.
pub struct BloomFilterWriter {
    bloom_filter: Vec<Buffer>,
    keys: Ghost<Set<i64>>,
}

impl View for BloomFilterWriter {
    type V = Seq<Seq<i64>>;

    closed spec fn view(&self) -> Seq<Seq<i64>> {
        pages_view(self.bloom_filter@)
    }
}

impl BloomFilterWriter {
    /// The keys added so far.
    pub closed spec fn keys(&self) -> Set<i64> {
        self.keys@
    }

    /// Sound state: at least one whole page, and every added key's four
    /// bits are set.
    pub closed spec fn wf(&self) -> bool {
        &&& self@.len() >= 1
        &&& forall|j: int| 0 <= j < self@.len() ==> (#[trigger] self@[j]).len() == 512
        &&& forall|k: i64| self.keys@.contains(k) ==> bloom_has(self@, k)
    }

    /// Every added key probes true: the filter admits no false negative.
    pub proof fn lemma_no_false_negative(&self, key: i64)
        requires
            self.wf(),
            self.keys().contains(key),
        ensures
            bloom_has(self@, key),
    {
    }

    /// Every page of a sound filter is a whole page.
    pub proof fn lemma_pages_whole(&self)
        requires
            self.wf(),
        ensures
            self@.len() >= 1,
            forall|j: int| 0 <= j < self@.len() ==> (#[trigger] self@[j]).len() == 512,
    {
    }

    /// An all-zero filter sized for `num_items` keys.
    pub fn new(num_items: u64) -> (r: BloomFilterWriter)
        ensures
            r.wf(),
            r.keys() == Set::<i64>::empty(),
            r@.len() == bloom_page_count(num_items),
            forall|j: int| 0 <= j < r@.len() ==> #[trigger] r@[j] == zeroed_page(),
    {
        proof {
            assert((num_items as u128) * 6 / 32768 + 1 < 0x1_0000_0000_0000_0000u128)
                by (nonlinear_arith);
        }
        let pages: u64 = ((num_items as u128) * 6 / 32768 + 1) as u64;
        let mut bloom_filter: Vec<Buffer> = Vec::new();
        let mut i: u64 = 0;
        while i < pages
            invariant
                i <= pages,
                bloom_filter@.len() == i,
                forall|j: int|
                    0 <= j < i ==> (#[trigger] bloom_filter@[j]).wf() && bloom_filter@[j]@
                        == zeroed_page(),
            decreases pages - i,
        {
            let page = Buffer::new_0();
            proof {
                assert(page@ =~= zeroed_page());
            }
            bloom_filter.push(page);
            i += 1;
        }
        let r = BloomFilterWriter { bloom_filter, keys: Ghost(Set::empty()) };
        proof {
            assert(r@.len() == pages);
            assert(forall|j: int| 0 <= j < r@.len() ==> (#[trigger] r@[j]).len() == 512);
        }
        r
    }

    /// Set the key's four bits in its cache line: exactly those bits of
    /// that one line of the key's page are or-ed in, so bits are only ever
    /// set, every other page and line is untouched, and adding the same
    /// key again changes nothing.
    pub fn add_key(&mut self, key: i64)
        requires
            old(self).wf(),
        ensures
            final(self).wf(),
            final(self).keys() == old(self).keys().insert(key),
            final(self)@.len() == old(self)@.len(),
            final(self)@ == bloom_added(old(self)@, key),
    {
        let ghost pages0 = self@;
        let num = self.bloom_filter.len() as u64;
        let hashes = Hashes::new(num, key);
        let sector = hashes.disk_sector as usize;
        let line = hashes.cache_line as usize;
        proof {
            assert(self@[sector as int].len() == 512);
            assert(self.bloom_filter@[sector as int]@ == self@[sector as int]);
        }
        self.bloom_filter[sector].set_bit(line, hashes.cache_line_offset1 as usize);
        let ghost pg1 = self@;
        proof {
            assert(pg1 =~= pages0.update(
                sector as int,
                with_bit_set(pages0[sector as int], line as int, bloom_off1(key)),
            ));
        }
        self.bloom_filter[sector].set_bit(line, hashes.cache_line_offset2 as usize);
        let ghost pg2 = self@;
        proof {
            assert(pg2 =~= pages0.update(
                sector as int,
                with_bit_set(
                    with_bit_set(pages0[sector as int], line as int, bloom_off1(key)),
                    line as int,
                    bloom_off2(key),
                ),
            ));
        }
        self.bloom_filter[sector].set_bit(line, hashes.cache_line_offset3 as usize);
        let ghost pg3 = self@;
        proof {
            assert(pg3 =~= pages0.update(
                sector as int,
                with_bit_set(
                    with_bit_set(
                        with_bit_set(pages0[sector as int], line as int, bloom_off1(key)),
                        line as int,
                        bloom_off2(key),
                    ),
                    line as int,
                    bloom_off3(key),
                ),
            ));
        }
        self.bloom_filter[sector].set_bit(line, hashes.cache_line_offset4 as usize);
        proof {
            self.keys@ = old(self).keys@.insert(key);
        }
        proof {
            assert(self@ =~= bloom_added(pages0, key));
            let pages1 = self@;
            assert(forall|j: int|
                0 <= j < pages1.len() && j != sector as int ==> pages1[j] == pages0[j]);
            assert(forall|l2: int, b2: int|
                0 <= l2 < 64 && 0 <= b2 < 512 && bit_is_set(pages0[sector as int], l2, b2)
                    ==> bit_is_set(pages1[sector as int], l2, b2));
            assert(bloom_has(pages1, key));
            assert forall|k: i64| old(self).keys@.contains(k) implies bloom_has(pages1, k) by {
                assert(bloom_has(pages0, k));
                let sk = bloom_sector(pages0.len() as int, k);
                assert(0 <= sk < pages0.len());
                if sk == sector as int {
                    lemma_mask63(sip_hash_of(k).1);
                    lemma_mask511(sip_hash_of(k).1 >> 6u64);
                    lemma_mask511(sip_hash_of(k).1 >> 15u64);
                    lemma_mask511(sip_hash_of(k).1 >> 24u64);
                    lemma_mask511(sip_hash_of(k).1 >> 33u64);
                } else {
                    assert(pages1[sk] == pages0[sk]);
                }
            }
        }
    }

    /// Write every page to a fresh file under `file_id`.
    pub fn write_to_disk<A: Cache>(self, file_id: u64, cache: &mut A)
        requires
            self.wf(),
            !old(cache).files().contains_key(file_id),
        ensures
            final(cache).files() == old(cache).files().insert(file_id, self@),
    {
        let ghost target = self@;
        cache.create_file(file_id);
        proof {
            assert(target.take(0) =~= Seq::<Seq<i64>>::empty());
        }
        let mut i: usize = 0;
        while i < self.bloom_filter.len()
            invariant
                self.wf(),
                self@ == target,
                i <= self.bloom_filter@.len(),
                cache.files().contains_key(file_id),
                cache.files() == old(cache).files().insert(file_id, target.take(i as int)),
            decreases self.bloom_filter@.len() - i,
        {
            proof {
                assert(self.bloom_filter@[i as int]@ == self@[i as int]);
            }
            let b = copy_buffer(&self.bloom_filter[i]);
            proof {
                assert(b@ == target[i as int]);
                assert(cache.files()[file_id].len() == i);
            }
            cache.write_page(file_id, i as u64, b);
            proof {
                assert(target.take(i as int).push(target[i as int]) =~= target.take(i + 1));
                assert(cache.files() =~= old(cache).files().insert(file_id, target.take(i + 1)));
            }
            i += 1;
        }
        proof {
            assert(target.take(self.bloom_filter@.len() as int) =~= target);
        }
    }
}

/// Probes a filter file through the page store.
pub struct BloomFilterReader {
    pub file_id: u64,
    pub num_pages: u64,
}

impl BloomFilterReader {
    /// The reader matches a store whose file holds whole pages.
    pub open spec fn wf(&self, files: Map<u64, Seq<Seq<i64>>>) -> bool {
        &&& files.contains_key(self.file_id)
        &&& files[self.file_id].len() == self.num_pages
        &&& self.num_pages >= 1
        &&& forall|j: int|
            0 <= j < files[self.file_id].len() ==> (#[trigger] files[self.file_id][j]).len() == 512
    }

    /// Open a filter file and record its page count.
    pub fn new<A: Cache>(file_id: u64, cache: &A) -> (r: BloomFilterReader)
        requires
            cache.files().contains_key(file_id),
            1 <= cache.files()[file_id].len() <= u64::MAX,
        ensures
            r.file_id == file_id,
            r.num_pages == cache.files()[file_id].len(),
    {
        let num_pages = cache.num_pages(file_id);
        BloomFilterReader { file_id, num_pages }
    }

    /// Whether the key may be present: true whenever the key was added to
    /// the filter that wrote this file; false proves absence.
    pub fn check_item<A: Cache>(&self, key: i64, cache: &mut A) -> (r: bool)
        requires
            self.wf(old(cache).files()),
        ensures
            final(cache).files() == old(cache).files(),
            r == bloom_has(old(cache).files()[self.file_id], key),
    {
        let hashes = Hashes::new(self.num_pages, key);
        let buffer = cache.get_page(self.file_id, hashes.disk_sector, true, false);
        let line = hashes.cache_line as usize;
        proof {
            assert(buffer@.len() == 512);
        }
        buffer.test_bit(line, hashes.cache_line_offset1 as usize) && buffer.test_bit(
            line,
            hashes.cache_line_offset2 as usize,
        ) && buffer.test_bit(line, hashes.cache_line_offset3 as usize) && buffer.test_bit(
            line,
            hashes.cache_line_offset4 as usize,
        )
    }
}

} // verus!
