//! The static sorted index: a read-only, page-structured search tree built
//! in one pass over a strictly ascending pair stream. The leaf file holds
//! the pairs, 256 to a page, the tail page padded with sentinels. Each
//! fence level holds one separator per child page: the child's last key,
//! so a separator bounds every key below it. The top fence file is exactly
//! one page, and lookups descend from it with one binary search per level.
use vstd::prelude::*;

verus! {

use crate::buffer::Buffer;
use crate::cache_trait::Cache;
use crate::pairs::{
    filter_range, lemma_filter_segment, lemma_seq_map_contains, lemma_seq_map_index, lookup,
    seq_map, sorted_unique, valid_stream,
};
use crate::TOMBSTONE;
use vstd::arithmetic::div_mod::{lemma_fundamental_div_mod, lemma_fundamental_div_mod_converse};

/// The word at global position `w` of the leaf file: pair `w / 2`'s key or
/// value, or the sentinel past the data.
pub open spec fn leaf_word(items: Seq<(i64, i64)>, w: int) -> i64 {
    let i = w / 2;
    if 0 <= i < items.len() {
        if w % 2 == 0 {
            items[i].0
        } else {
            items[i].1
        }
    } else {
        TOMBSTONE
    }
}

/// Leaf page `p`: 512 consecutive words of the leaf file.
pub open spec fn leaf_page(items: Seq<(i64, i64)>, p: int) -> Seq<i64> {
    Seq::new(512, |w: int| leaf_word(items, 512 * p + w))
}

/// How many leaf pages `n` pairs occupy.
pub open spec fn leaf_page_count(n: int) -> int {
    (n + 255) / 256
}

/// The whole leaf file.
pub open spec fn leaf_file(items: Seq<(i64, i64)>) -> Seq<Seq<i64>> {
    Seq::new(leaf_page_count(items.len() as int) as nat, |p: int| leaf_page(items, p))
}

/// How many separators fence level `level` holds: one per complete child
/// page.
pub open spec fn sep_count(n: int, level: nat) -> int
    decreases level,
{
    if level == 0 {
        n / 256
    } else {
        sep_count(n, (level - 1) as nat) / 512
    }
}

/// Which item the `j`-th separator of level `level` is the key of: the last
/// item under its child block.
pub open spec fn sep_index(level: nat, j: int) -> int
    decreases level,
{
    if level == 0 {
        256 * j + 255
    } else {
        sep_index((level - 1) as nat, 512 * j + 511)
    }
}

/// The `j`-th separator key of fence level `level`.
pub open spec fn sep_at(items: Seq<(i64, i64)>, level: nat, j: int) -> i64 {
    items[sep_index(level, j)].0
}

/// All separators of one level, in order.
pub open spec fn sep_seq(items: Seq<(i64, i64)>, level: nat) -> Seq<i64> {
    Seq::new(sep_count(items.len() as int, level) as nat, |j: int| sep_at(items, level, j))
}

/// A word sequence cut into complete 512-word pages, the tail dropped.
pub open spec fn packed_pages(ws: Seq<i64>) -> Seq<Seq<i64>> {
    Seq::new((ws.len() as int / 512) as nat, |q: int| Seq::new(512, |w: int| ws[512 * q + w]))
}

/// A word sequence cut into pages, the tail page padded with sentinels.
pub open spec fn padded_pages(ws: Seq<i64>) -> Seq<Seq<i64>> {
    Seq::new(
        ((ws.len() + 511) as int / 512) as nat,
        |q: int|
            Seq::new(
                512,
                |w: int|
                    if 512 * q + w < ws.len() {
                        ws[512 * q + w]
                    } else {
                        TOMBSTONE
                    },
            ),
    )
}

/// The fence file of one level: its separators, padded to whole pages.
pub open spec fn fence_file(items: Seq<(i64, i64)>, level: nat) -> Seq<Seq<i64>> {
    padded_pages(sep_seq(items, level))
}

/// The word at global position `j` of one level's fence file: the `j`-th
/// separator, or the sentinel past the last.
pub open spec fn fence_word(items: Seq<(i64, i64)>, level: nat, j: int) -> i64 {
    if 0 <= j < sep_count(items.len() as int, level) {
        sep_at(items, level, j)
    } else {
        TOMBSTONE
    }
}

/// Each fence file page reads back as its fence words.
pub proof fn lemma_fence_file_page(items: Seq<(i64, i64)>, level: nat, q: int)
    requires
        items.len() >= 0,
        0 <= q < (sep_count(items.len() as int, level) + 511) / 512,
    ensures
        fence_file(items, level).len() == (sep_count(items.len() as int, level) + 511) / 512,
        fence_file(items, level)[q] == Seq::new(
            512,
            |w: int| fence_word(items, level, 512 * q + w),
        ),
{
    let n = items.len() as int;
    let c = sep_count(n, level);
    lemma_sep_count_mono(n, level);
    assert(sep_seq(items, level).len() == c);
    assert(fence_file(items, level)[q] =~= Seq::new(
        512,
        |w: int| fence_word(items, level, 512 * q + w),
    )) by {
        assert forall|w: int| 0 <= w < 512 implies fence_file(items, level)[q][w] == fence_word(
            items,
            level,
            512 * q + w,
        ) by {
            assert(512 * q + w >= 0) by (nonlinear_arith)
                requires
                    q >= 0,
                    w >= 0,
            ;
        }
    }
}

/// How many fence levels an index over `n` pairs has, counted from the
/// bottom: levels with at least one separator. Fourteen levels would cover
/// far more pairs than any machine holds, so the search stops there.
pub open spec fn num_levels_above(n: int, level: nat) -> nat
    decreases 14 - level,
    when level <= 14
{
    if level >= 14 {
        0
    } else if sep_count(n, level) <= 0 {
        0
    } else {
        (1 + num_levels_above(n, (level + 1) as nat)) as nat
    }
}

/// The fence level count of an index over `n` pairs.
pub open spec fn num_levels(n: int) -> nat {
    num_levels_above(n, 0)
}

/// Counts diminish level by level, and every level below `num_levels` is
/// occupied while `num_levels` itself is empty.
pub proof fn lemma_sep_count_mono(n: int, level: nat)
    requires
        n >= 0,
    ensures
        0 <= sep_count(n, level) <= n,
        level > 0 ==> sep_count(n, level) <= sep_count(n, (level - 1) as nat),
    decreases level,
{
    if level == 0 {
        lemma_fundamental_div_mod(n, 256);
    } else {
        lemma_sep_count_mono(n, (level - 1) as nat);
        lemma_fundamental_div_mod(sep_count(n, (level - 1) as nat), 512);
    }
}

/// For bounded `n`, high levels are empty.
pub proof fn lemma_sep_count_vanishes(n: int, level: nat)
    requires
        0 <= n < 0x1_0000_0000_0000_0000,
        level >= 8,
    ensures
        sep_count(n, level) == 0,
    decreases level,
{
    if level == 8 {
        let c0 = sep_count(n, 0);
        let c1 = sep_count(n, 1);
        let c2 = sep_count(n, 2);
        let c3 = sep_count(n, 3);
        let c4 = sep_count(n, 4);
        let c5 = sep_count(n, 5);
        let c6 = sep_count(n, 6);
        let c7 = sep_count(n, 7);
        assert(c0 == n / 256 && c0 < 0x100_0000_0000_0000) by (nonlinear_arith)
            requires
                n < 0x1_0000_0000_0000_0000,
                c0 == n / 256,
        ;
        assert(c1 < 0x8000_0000_0000) by (nonlinear_arith)
            requires
                c0 < 0x100_0000_0000_0000,
                c0 >= 0,
                c1 == c0 / 512,
        ;
        assert(c2 < 0x40_0000_0000) by (nonlinear_arith)
            requires
                c1 < 0x8000_0000_0000,
                c1 >= 0,
                c2 == c1 / 512,
        ;
        assert(c3 < 0x2000_0000) by (nonlinear_arith)
            requires
                c2 < 0x40_0000_0000,
                c2 >= 0,
                c3 == c2 / 512,
        ;
        assert(c4 < 0x10_0000) by (nonlinear_arith)
            requires
                c3 < 0x2000_0000,
                c3 >= 0,
                c4 == c3 / 512,
        ;
        assert(c5 < 0x800) by (nonlinear_arith)
            requires
                c4 < 0x10_0000,
                c4 >= 0,
                c5 == c4 / 512,
        ;
        assert(c6 < 4) by (nonlinear_arith)
            requires
                c5 < 0x800,
                c5 >= 0,
                c6 == c5 / 512,
        ;
        assert(c7 == 0) by (nonlinear_arith)
            requires
                c6 < 4,
                c6 >= 0,
                c7 == c6 / 512,
        ;
        lemma_sep_count_mono(n, 7);
    } else {
        lemma_sep_count_vanishes(n, (level - 1) as nat);
        lemma_sep_count_mono(n, level);
    }
}

/// What `num_levels` means, level by level.
pub proof fn lemma_levels_char(n: int, level: nat)
    requires
        0 <= n < 0x1_0000_0000_0000_0000,
        level <= 14,
    ensures
        forall|l2: nat|
            level <= l2 < level + num_levels_above(n, level) ==> sep_count(n, l2) >= 1,
        sep_count(n, (level + num_levels_above(n, level)) as nat) == 0,
    decreases 14 - level,
{
    if level >= 14 {
        lemma_sep_count_vanishes(n, level);
    } else if sep_count(n, level) <= 0 {
        lemma_sep_count_mono(n, level);
    } else {
        lemma_levels_char(n, (level + 1) as nat);
        assert forall|l2: nat|
            level <= l2 < level + num_levels_above(n, level) implies sep_count(n, l2) >= 1 by {
            if l2 > level {
                assert(level + 1 <= l2 < level + 1 + num_levels_above(n, (level + 1) as nat));
            }
        }
    }
}

/// Separator item positions rise strictly with the separator's rank.
pub proof fn lemma_sep_index_mono(level: nat, j1: int, j2: int)
    requires
        0 <= j1 < j2,
    ensures
        255 <= sep_index(level, j1) < sep_index(level, j2),
    decreases level,
{
    if level == 0 {
    } else {
        lemma_sep_index_mono((level - 1) as nat, 512 * j1 + 511, 512 * j2 + 511);
    }
}

/// Ranked below the count, a separator names a real item.
pub proof fn lemma_sep_index_in_range(n: int, level: nat, j: int)
    requires
        n >= 0,
        0 <= j < sep_count(n, level),
    ensures
        0 <= sep_index(level, j) < n,
    decreases level,
{
    if level == 0 {
        lemma_fundamental_div_mod(n, 256);
        assert(256 * j + 255 < n) by (nonlinear_arith)
            requires
                j < n / 256,
                n == 256 * (n / 256) + n % 256,
                n % 256 >= 0,
                j >= 0,
        ;
    } else {
        let c = sep_count(n, (level - 1) as nat);
        lemma_fundamental_div_mod(c, 512);
        assert(512 * j + 511 < c) by (nonlinear_arith)
            requires
                j < c / 512,
                c == 512 * (c / 512) + c % 512,
                c % 512 >= 0,
                j >= 0,
        ;
        lemma_sep_index_in_range(n, (level - 1) as nat, 512 * j + 511);
    }
}

/// A level's separator keys ascend strictly.
pub proof fn lemma_sep_sorted(items: Seq<(i64, i64)>, level: nat, j1: int, j2: int)
    requires
        valid_stream(items),
        0 <= j1 < j2 < sep_count(items.len() as int, level),
    ensures
        sep_at(items, level, j1) < sep_at(items, level, j2),
{
    lemma_sep_index_mono(level, j1, j2);
    lemma_sep_index_in_range(items.len() as int, level, j1);
    lemma_sep_index_in_range(items.len() as int, level, j2);
}

/// A level's separators are keys of items, hence below the sentinel.
pub proof fn lemma_sep_is_key(items: Seq<(i64, i64)>, level: nat, j: int)
    requires
        valid_stream(items),
        0 <= j < sep_count(items.len() as int, level),
    ensures
        sep_at(items, level, j) < TOMBSTONE,
        sep_at(items, level, j) == items[sep_index(level, j)].0,
        0 <= sep_index(level, j) < items.len(),
    decreases level,
{
    lemma_sep_index_in_range(items.len() as int, level, j);
}

/// One level up, a separator is the last separator of its child page.
pub proof fn lemma_sep_lift(items: Seq<(i64, i64)>, level: nat, j: int)
    ensures
        sep_at(items, (level + 1) as nat, j) == sep_at(items, level, 512 * j + 511),
        sep_index((level + 1) as nat, j) == sep_index(level, 512 * j + 511),
{
    assert(sep_index((level + 1) as nat, j) == sep_index(level, 512 * j + 511));
}

/// A separator bounds every item of the blocks at or before its own: items
/// up to the separator's position have keys at most the separator, items
/// past it have larger keys.
pub proof fn lemma_sep_bounds(items: Seq<(i64, i64)>, level: nat, j: int, i: int)
    requires
        valid_stream(items),
        0 <= j < sep_count(items.len() as int, level),
        0 <= i < items.len(),
    ensures
        i <= sep_index(level, j) ==> items[i].0 <= sep_at(items, level, j),
        i > sep_index(level, j) ==> items[i].0 > sep_at(items, level, j),
{
    lemma_sep_index_in_range(items.len() as int, level, j);
}

/// How many separators of level `level` fall below `key`, looking at the
/// first `upto` of them.
pub open spec fn count_lt(items: Seq<(i64, i64)>, key: i64, level: nat, upto: int) -> int
    decreases upto,
    when upto >= 0
{
    if upto <= 0 {
        0
    } else {
        count_lt(items, key, level, upto - 1) + if sep_at(items, level, upto - 1) < key {
            1int
        } else {
            0int
        }
    }
}

/// The search target at one level: how many of its separators are below
/// `key`; equally, the first separator rank at or above `key`.
pub open spec fn t_of(items: Seq<(i64, i64)>, key: i64, level: nat) -> int {
    count_lt(items, key, level, sep_count(items.len() as int, level))
}

/// The count is a boundary: separators before it are below `key`, the rest
/// at or above it.
pub proof fn lemma_count_boundary(items: Seq<(i64, i64)>, key: i64, level: nat, upto: int)
    requires
        valid_stream(items),
        0 <= upto <= sep_count(items.len() as int, level),
    ensures
        0 <= count_lt(items, key, level, upto) <= upto,
        forall|j: int|
            0 <= j < count_lt(items, key, level, upto) ==> sep_at(items, level, j) < key,
        forall|j: int|
            count_lt(items, key, level, upto) <= j < upto ==> sep_at(items, level, j) >= key,
    decreases upto,
{
    if upto > 0 {
        lemma_count_boundary(items, key, level, upto - 1);
        let c = count_lt(items, key, level, upto - 1);
        if sep_at(items, level, upto - 1) < key {
            assert forall|j: int| 0 <= j < c + 1 implies sep_at(items, level, j) < key by {
                if j == upto - 1 {
                } else if j >= c {
                    lemma_sep_sorted(items, level, j, upto - 1);
                }
            }
            assert(c == upto - 1) by {
                if c < upto - 1 {
                    assert(sep_at(items, level, c) >= key);
                    lemma_sep_sorted(items, level, c, upto - 1);
                }
            }
        }
    }
}

/// The page the descent visits at one level: the target child page,
/// clamped to the file's last page.
pub open spec fn clamp_page(t1: int, fpc: int) -> int {
    if t1 < fpc {
        t1
    } else {
        fpc - 1
    }
}

/// One level of the descent: visiting the clamped child page and counting
/// its words below `key` lands exactly on the level's own target.
pub proof fn lemma_descend_step(items: Seq<(i64, i64)>, key: i64, level: nat)
    requires
        valid_stream(items),
        items.len() >= 1,
        sep_count(items.len() as int, level) >= 1,
    ensures
        ({
            let n = items.len() as int;
            let c = sep_count(n, level);
            let fpc = (c + 511) / 512;
            let t1 = t_of(items, key, (level + 1) as nat);
            let t0 = t_of(items, key, level);
            let q = clamp_page(t1, fpc);
            &&& fpc >= 1
            &&& 0 <= q < fpc
            &&& 0 <= t1 <= sep_count(n, (level + 1) as nat)
            &&& 512 * q <= t0 <= 512 * q + 512
            &&& t0 <= c
            &&& forall|w: int|
                0 <= w < 512 ==> ((#[trigger] fence_word(items, level, 512 * q + w) < key) <==> (
                512 * q + w < t0))
        }),
{
    let n = items.len() as int;
    let c = sep_count(n, level);
    let c1 = sep_count(n, (level + 1) as nat);
    let fpc = (c + 511) / 512;
    let t1 = t_of(items, key, (level + 1) as nat);
    let t0 = t_of(items, key, level);
    let q = clamp_page(t1, fpc);
    lemma_sep_count_mono(n, (level + 1) as nat);
    lemma_count_boundary(items, key, level, c);
    lemma_count_boundary(items, key, (level + 1) as nat, c1);
    lemma_fundamental_div_mod(c, 512);
    lemma_fundamental_div_mod(c + 511, 512);
    assert(fpc >= 1) by (nonlinear_arith)
        requires
            c >= 1,
            fpc == (c + 511) / 512,
    ;
    assert(512 * c1 <= c) by (nonlinear_arith)
        requires
            c1 == c / 512,
            c >= 0,
    ;
    assert(c <= 512 * c1 + 511) by (nonlinear_arith)
        requires
            c1 == c / 512,
            c >= 0,
    ;
    assert(c1 <= fpc) by (nonlinear_arith)
        requires
            c1 == c / 512,
            fpc == (c + 511) / 512,
            c >= 0,
    ;
    if c % 512 == 0 {
        assert(fpc == c1) by (nonlinear_arith)
            requires
                c % 512 == 0,
                c1 == c / 512,
                fpc == (c + 511) / 512,
                c >= 0,
        ;
    } else {
        assert(fpc == c1 + 1) by (nonlinear_arith)
            requires
                c % 512 != 0,
                c1 == c / 512,
                fpc == (c + 511) / 512,
                c >= 0,
        ;
    }
    // t0 >= 512 * t1
    if t1 > 0 {
        assert forall|j: int| 0 <= j < 512 * t1 implies sep_at(items, level, j) < key by {
            assert(sep_at(items, (level + 1) as nat, t1 - 1) < key);
            lemma_sep_lift(items, level, t1 - 1);
            if j < 512 * (t1 - 1) + 511 {
                lemma_sep_sorted(items, level, j, 512 * (t1 - 1) + 511);
            }
        }
        assert(t0 >= 512 * t1) by {
            if t0 < 512 * t1 {
                assert(sep_at(items, level, t0) >= key);
                assert(sep_at(items, level, t0) < key);
            }
        }
    }
    // t0 <= 512 * t1 + 511 when t1 < c1
    if t1 < c1 {
        assert(sep_at(items, (level + 1) as nat, t1) >= key);
        lemma_sep_lift(items, level, t1);
        assert(t0 <= 512 * t1 + 511) by {
            if t0 > 512 * t1 + 511 {
                assert(sep_at(items, level, 512 * t1 + 511) < key);
            }
        }
    }
    // position against the clamped page
    if t1 < fpc {
        assert(q == t1);
    } else {
        // only possible when the level's count is a whole number of pages
        // and every upper separator is below the key
        assert(t1 == c1 && fpc == c1 && c % 512 == 0);
        assert(t0 == c) by {
            assert(sep_at(items, (level + 1) as nat, c1 - 1) < key);
            lemma_sep_lift(items, level, c1 - 1);
            assert(sep_at(items, level, 512 * (c1 - 1) + 511) < key);
            assert(512 * (c1 - 1) + 511 == c - 1);
            if t0 < c {
                assert(sep_at(items, level, c - 1) >= key) by {
                    if t0 <= c - 1 {
                    }
                }
            }
        }
        assert(512 * q <= t0 <= 512 * q + 512);
    }
    assert forall|w: int|
        0 <= w < 512 implies ((#[trigger] fence_word(items, level, 512 * q + w) < key) <==> (512
        * q + w < t0)) by {
        let idx = 512 * q + w;
        if idx < t0 {
            assert(idx < c);
            assert(sep_at(items, level, idx) < key);
        } else {
            if idx < c {
                assert(sep_at(items, level, idx) >= key);
            }
        }
    }
}

/// How many of the first `upto` items have keys below `key`.
pub open spec fn icount_lt(items: Seq<(i64, i64)>, key: i64, upto: int) -> int
    decreases upto,
    when upto >= 0
{
    if upto <= 0 {
        0
    } else {
        icount_lt(items, key, upto - 1) + if items[upto - 1].0 < key {
            1int
        } else {
            0int
        }
    }
}

/// The rank `key` would take among the items: the first item index whose
/// key is at or above `key`.
pub open spec fn u_of(items: Seq<(i64, i64)>, key: i64) -> int {
    icount_lt(items, key, items.len() as int)
}

/// The rank is a boundary among the items.
pub proof fn lemma_icount_boundary(items: Seq<(i64, i64)>, key: i64, upto: int)
    requires
        sorted_unique(items),
        0 <= upto <= items.len(),
    ensures
        0 <= icount_lt(items, key, upto) <= upto,
        forall|i: int| 0 <= i < icount_lt(items, key, upto) ==> (#[trigger] items[i]).0 < key,
        forall|i: int| icount_lt(items, key, upto) <= i < upto ==> (#[trigger] items[i]).0 >= key,
    decreases upto,
{
    if upto > 0 {
        lemma_icount_boundary(items, key, upto - 1);
        let c = icount_lt(items, key, upto - 1);
        if items[upto - 1].0 < key {
            assert(c == upto - 1) by {
                if c < upto - 1 {
                    assert(items[c].0 >= key);
                }
            }
        }
    }
}

/// Where a point lookup lands: the clamped leaf page holds the key's rank,
/// and the key is present exactly when the item at its rank carries it.
pub proof fn lemma_leaf_locate(items: Seq<(i64, i64)>, key: i64)
    requires
        valid_stream(items),
        items.len() >= 1,
    ensures
        ({
            let n = items.len() as int;
            let lp = leaf_page_count(n);
            let t0 = t_of(items, key, 0);
            let p = clamp_page(t0, lp);
            let u = u_of(items, key);
            &&& lp >= 1
            &&& 0 <= t0 <= sep_count(n, 0)
            &&& 0 <= p < lp
            &&& 0 <= u <= n
            &&& 256 * p <= u <= 256 * p + 256
            &&& forall|w: int|
                0 <= w < 256 ==> ((#[trigger] leaf_word(items, 512 * p + 2 * w) < key) <==> (256
                    * p + w < u))
            &&& (seq_map(items).contains_key(key) <==> (u < n && items[u].0 == key))
            &&& (u < n && items[u].0 == key) ==> (seq_map(items)[key] == items[u].1 && 256 * p <= u
                < 256 * p + 256)
        }),
{
    let n = items.len() as int;
    let c0 = sep_count(n, 0);
    let lp = leaf_page_count(n);
    let t0 = t_of(items, key, 0);
    let p = clamp_page(t0, lp);
    let u = u_of(items, key);
    lemma_count_boundary(items, key, 0, c0);
    lemma_icount_boundary(items, key, n);
    lemma_fundamental_div_mod(n, 256);
    lemma_fundamental_div_mod(n + 255, 256);
    assert(lp >= 1) by (nonlinear_arith)
        requires
            n >= 1,
            lp == (n + 255) / 256,
    ;
    assert(256 * c0 <= n) by (nonlinear_arith)
        requires
            c0 == n / 256,
            n >= 0,
    ;
    assert(n <= 256 * c0 + 255) by (nonlinear_arith)
        requires
            c0 == n / 256,
            n >= 0,
    ;
    if n % 256 == 0 {
        assert(lp == c0) by (nonlinear_arith)
            requires
                n % 256 == 0,
                c0 == n / 256,
                lp == (n + 255) / 256,
                n >= 0,
        ;
    } else {
        assert(lp == c0 + 1) by (nonlinear_arith)
            requires
                n % 256 != 0,
                c0 == n / 256,
                lp == (n + 255) / 256,
                n >= 0,
        ;
    }
    // u >= 256 * t0: every item of a complete page whose separator is
    // below the key is itself below the key
    if t0 > 0 {
        assert forall|i: int| 0 <= i < 256 * t0 implies (#[trigger] items[i]).0 < key by {
            assert(sep_at(items, 0, t0 - 1) < key);
            lemma_sep_bounds(items, 0, t0 - 1, i);
            assert(i <= 256 * (t0 - 1) + 255);
            assert(items[i].0 <= sep_at(items, 0, t0 - 1));
        }
        assert(u >= 256 * t0) by {
            if u < 256 * t0 {
                assert(256 * t0 <= 256 * c0 <= n);
                assert(items[u].0 >= key);
                assert(items[u].0 < key);
            }
        }
    }
    // u <= 256 * t0 + 255 when the target separator exists
    if t0 < c0 {
        assert(sep_at(items, 0, t0) >= key);
        assert(sep_index(0, t0) == 256 * t0 + 255);
        lemma_sep_index_in_range(n, 0, t0);
        assert(u <= 256 * t0 + 255) by {
            if u > 256 * t0 + 255 {
                assert(items[256 * t0 + 255].0 < key);
                assert(items[256 * t0 + 255].0 == sep_at(items, 0, t0));
            }
        }
        assert(p == t0);
    } else {
        assert(t0 == c0);
        if n % 256 == 0 {
            assert(p == lp - 1 && t0 == lp);
            assert(u >= 256 * t0 == n);
            assert(u == n);
            assert(256 * p <= u <= 256 * p + 256);
        } else {
            assert(p == t0);
            assert(u <= n <= 256 * c0 + 255);
        }
    }
    assert forall|w: int|
        0 <= w < 256 implies ((#[trigger] leaf_word(items, 512 * p + 2 * w) < key) <==> (256 * p
            + w < u)) by {
        let i = 256 * p + w;
        assert((512 * p + 2 * w) / 2 == i && (512 * p + 2 * w) % 2 == 0) by (nonlinear_arith)
            requires
                i == 256 * p + w,
                0 <= w,
                0 <= p,
        ;
        if i < u {
            assert(items[i].0 < key);
        } else {
            if i < n {
                assert(items[i].0 >= key);
            }
        }
    }
    lemma_seq_map_contains(items, key);
    if u < n && items[u].0 == key {
        lemma_seq_map_index(items, u);
    }
    if seq_map(items).contains_key(key) {
        let i = choose|i: int| 0 <= i < items.len() && (#[trigger] items[i]).0 == key;
        assert(u < n && items[u].0 == key) by {
            if i < u {
                assert(items[i].0 < key);
            }
            if i > u {
                assert(items[u].0 >= key);
                assert(items[u].0 < items[i].0);
                if items[u].0 != key {
                    assert(icount_lt(items, key, u + 1) > u);
                }
            }
        }
    }
}

/// Words ascend, weakly, within a buffer.
pub open spec fn sorted_words(s: Seq<i64>) -> bool {
    forall|w1: int, w2: int| 0 <= w1 < w2 < 512 ==> s[w1] <= s[w2]
}

/// Pair keys ascend, weakly, within a buffer.
pub open spec fn sorted_pair_keys(s: Seq<i64>) -> bool {
    forall|w1: int, w2: int| 0 <= w1 < w2 < 256 ==> #[trigger] s[2 * w1] <= #[trigger] s[2 * w2]
}

/// A fence page's words ascend weakly: real separators strictly, then
/// sentinel padding.
pub proof fn lemma_fence_page_sorted(items: Seq<(i64, i64)>, level: nat, q: int)
    requires
        valid_stream(items),
        q >= 0,
    ensures
        sorted_words(Seq::new(512, |w: int| fence_word(items, level, 512 * q + w))),
{
    let s = Seq::new(512, |w: int| fence_word(items, level, 512 * q + w));
    let c = sep_count(items.len() as int, level);
    assert forall|w1: int, w2: int| 0 <= w1 < w2 < 512 implies s[w1] <= s[w2] by {
        let j1 = 512 * q + w1;
        let j2 = 512 * q + w2;
        if j2 < c {
            lemma_sep_sorted(items, level, j1, j2);
        } else if j1 < c {
            lemma_sep_is_key(items, level, j1);
        }
    }
}

/// A leaf page's pair keys ascend weakly: real keys strictly, then
/// sentinel padding.
pub proof fn lemma_leaf_page_sorted(items: Seq<(i64, i64)>, p: int)
    requires
        valid_stream(items),
        p >= 0,
    ensures
        sorted_pair_keys(leaf_page(items, p)),
{
    let s = leaf_page(items, p);
    let n = items.len() as int;
    assert forall|w1: int, w2: int|
        0 <= w1 < w2 < 256 implies #[trigger] s[2 * w1] <= #[trigger] s[2 * w2] by {
        let i1 = 256 * p + w1;
        let i2 = 256 * p + w2;
        assert((512 * p + 2 * w1) / 2 == i1 && (512 * p + 2 * w1) % 2 == 0) by (nonlinear_arith)
            requires
                i1 == 256 * p + w1,
                0 <= w1,
                0 <= p,
        ;
        assert((512 * p + 2 * w2) / 2 == i2 && (512 * p + 2 * w2) % 2 == 0) by (nonlinear_arith)
            requires
                i2 == 256 * p + w2,
                0 <= w2,
                0 <= p,
        ;
        assert(s[2 * w1] == leaf_word(items, 512 * p + 2 * w1));
        assert(s[2 * w2] == leaf_word(items, 512 * p + 2 * w2));
        if i2 < n {
            assert(items[i1].0 < items[i2].0);
        } else if i1 < n {
        }
    }
}

/// The first word index at or above `key`, by binary search.
fn lower_bound_words(buf: &Buffer, key: i64) -> (r: usize)
    requires
        buf.wf(),
        sorted_words(buf@),
    ensures
        r <= 512,
        forall|w: int| 0 <= w < r ==> buf@[w] < key,
        forall|w: int| r <= w < 512 ==> buf@[w] >= key,
{
    let mut lo: usize = 0;
    let mut hi: usize = 512;
    while lo < hi
        invariant
            buf.wf(),
            sorted_words(buf@),
            lo <= hi <= 512,
            forall|w: int| 0 <= w < lo ==> buf@[w] < key,
            forall|w: int| hi <= w < 512 ==> buf@[w] >= key,
        decreases hi - lo,
    {
        let mid = lo + (hi - lo) / 2;
        if buf.word(mid) < key {
            lo = mid + 1;
        } else {
            hi = mid;
        }
    }
    lo
}

/// The first pair slot whose key is at or above `key`, by binary search.
fn lower_bound_pairs(buf: &Buffer, key: i64) -> (r: usize)
    requires
        buf.wf(),
        sorted_pair_keys(buf@),
    ensures
        r <= 256,
        forall|w: int| 0 <= w < r ==> #[trigger] buf@[2 * w] < key,
        forall|w: int| r <= w < 256 ==> #[trigger] buf@[2 * w] >= key,
{
    let mut lo: usize = 0;
    let mut hi: usize = 256;
    while lo < hi
        invariant
            buf.wf(),
            sorted_pair_keys(buf@),
            lo <= hi <= 256,
            forall|w: int| 0 <= w < lo ==> #[trigger] buf@[2 * w] < key,
            forall|w: int| hi <= w < 256 ==> #[trigger] buf@[2 * w] >= key,
        decreases hi - lo,
    {
        let mid = lo + (hi - lo) / 2;
        if buf.word(2 * mid) < key {
            lo = mid + 1;
        } else {
            hi = mid;
        }
    }
    lo
}

/// Slots up to this bound leave room for every file id of the slot.
pub open spec fn slot_ok(slot: u64) -> bool {
    slot <= 0x0FFF_FFFF_FFFF_FFFF
}

/// The stores agree on every file the index at `slot` does not own.
pub open spec fn files_unchanged_except(
    old_files: Map<u64, Seq<Seq<i64>>>,
    new_files: Map<u64, Seq<Seq<i64>>>,
    slot: u64,
    levels: nat,
) -> bool {
    forall|id: u64|
        !(#[trigger] si_owns(slot, levels, id)) ==> (new_files.contains_key(id)
            == old_files.contains_key(id) && (old_files.contains_key(id) ==> new_files[id]
            == old_files[id]))
}

/// Whether `id` names the leaf file or a fence file of the index at
/// `slot` with `levels` fence levels. The slot's bloom file is not the
/// index's own.
pub open spec fn si_owns(slot: u64, levels: nat, id: u64) -> bool {
    id == items_fid(slot) || (16 * slot + 2 <= id < 16 * slot + 2 + levels)
}

/// The id of a slot's leaf file.
pub open spec fn items_fid(slot: u64) -> u64 {
    (16 * slot) as u64
}

/// The id of a slot's bloom filter file.
pub open spec fn bloom_fid(slot: u64) -> u64 {
    (16 * slot + 1) as u64
}

/// The id of a slot's fence file at `level`.
pub open spec fn fence_fid(slot: u64, level: nat) -> u64 {
    (16 * slot + 2 + level) as u64
}

/// Compute a slot's leaf file id.
pub fn items_file_id(slot: u64) -> (r: u64)
    requires
        slot_ok(slot),
    ensures
        r == items_fid(slot),
{
    16 * slot
}

/// Compute a slot's bloom filter file id.
pub fn bloom_file_id(slot: u64) -> (r: u64)
    requires
        slot_ok(slot),
    ensures
        r == bloom_fid(slot),
{
    16 * slot + 1
}

/// Compute a slot's fence file id at `level`.
pub fn fence_file_id(slot: u64, level: usize) -> (r: u64)
    requires
        slot_ok(slot),
        level <= 13,
    ensures
        r == fence_fid(slot, level as nat),
{
    16 * slot + 2 + (level as u64)
}

/// The concrete values of a slot's file ids.
pub proof fn lemma_fid_values(slot: u64, level: nat)
    requires
        slot_ok(slot),
        level <= 13,
    ensures
        items_fid(slot) == 16 * slot,
        bloom_fid(slot) == 16 * slot + 1,
        fence_fid(slot, level) == 16 * slot + 2 + level,
{
}

/// Every id an index owns, and its bloom id, sits in the slot's id block.
pub proof fn lemma_si_owns_div(slot: u64, id: u64)
    requires
        slot_ok(slot),
        si_owns(slot, 14, id) || id == bloom_fid(slot),
    ensures
        id / 16 == slot,
{
    lemma_fid_values(slot, 0);
    assert(id / 16 == slot) by (nonlinear_arith)
        requires
            16 * slot <= id < 16 * slot + 16,
            slot <= 0x0FFF_FFFF_FFFF_FFFF,
    ;
}

/// The slot frame composes across two steps.
pub proof fn lemma_unchanged_chain(
    f0: Map<u64, Seq<Seq<i64>>>,
    f1: Map<u64, Seq<Seq<i64>>>,
    f2: Map<u64, Seq<Seq<i64>>>,
    slot: u64,
    levels: nat,
)
    requires
        files_unchanged_except(f0, f1, slot, levels),
        files_unchanged_except(f1, f2, slot, levels),
    ensures
        files_unchanged_except(f0, f2, slot, levels),
{
    assert forall|id: u64|
        !si_owns(slot, levels, id) implies (f2.contains_key(id) == f0.contains_key(id) && (
        f0.contains_key(id) ==> f2[id] == f0[id])) by {
        assert(f1.contains_key(id) == f0.contains_key(id));
        assert(f2.contains_key(id) == f1.contains_key(id));
    }
}

/// With so many pairs, the index has at most eight fence levels.
pub proof fn lemma_num_levels_bound(n: int)
    requires
        0 <= n < 0x1_0000_0000_0000_0000,
    ensures
        num_levels(n) <= 8,
        forall|l2: nat| l2 < num_levels(n) ==> sep_count(n, l2) >= 1,
        sep_count(n, num_levels(n)) == 0,
{
    lemma_levels_char(n, 0);
    if num_levels(n) > 8 {
        lemma_sep_count_vanishes(n, 8);
        assert(sep_count(n, 8) >= 1);
    }
}

/// A store holds the static index of `items` at `slot` with `levels` fence
/// levels: the leaf file and every fence file read back as the layout of
/// `items` prescribes.
pub open spec fn si_wf(
    items: Seq<(i64, i64)>,
    slot: u64,
    levels: nat,
    files: Map<u64, Seq<Seq<i64>>>,
) -> bool {
    &&& valid_stream(items)
    &&& 1 <= items.len() < 0x1_0000_0000_0000_0000
    &&& slot_ok(slot)
    &&& levels == num_levels(items.len() as int)
    &&& files.contains_key(items_fid(slot))
    &&& files[items_fid(slot)] == leaf_file(items)
    &&& forall|l2: nat|
        l2 < levels ==> files.contains_key(#[trigger] fence_fid(slot, l2)) && files[fence_fid(
            slot,
            l2,
        )] == fence_file(items, l2)
}

/// Two item sequences with the same leaf file are the same sequence.
pub proof fn lemma_si_items_unique(
    s1: Seq<(i64, i64)>,
    s2: Seq<(i64, i64)>,
    slot: u64,
    levels: nat,
    files: Map<u64, Seq<Seq<i64>>>,
)
    requires
        si_wf(s1, slot, levels, files),
        si_wf(s2, slot, levels, files),
    ensures
        s1 == s2,
{
    let n1 = s1.len() as int;
    let n2 = s2.len() as int;
    let lp = leaf_page_count(n1);
    assert(leaf_file(s1).len() == leaf_file(s2).len());
    assert(n1 == n2) by {
        if n1 < n2 {
            lemma_leaf_read(s1, s2, n1, lp);
        }
        if n2 < n1 {
            lemma_leaf_read(s2, s1, n2, leaf_page_count(n2));
        }
    }
    assert forall|i: int| 0 <= i < n1 implies s1[i] == s2[i] by {
        lemma_leaf_word_eq(s1, s2, 2 * i);
        lemma_leaf_word_eq(s1, s2, 2 * i + 1);
    }
    assert(s1 =~= s2);
}

/// Helper: a shorter stream shows a sentinel where the longer shows a key.
proof fn lemma_leaf_read(sa: Seq<(i64, i64)>, sb: Seq<(i64, i64)>, i: int, lp: int)
    requires
        valid_stream(sa),
        valid_stream(sb),
        leaf_file(sa) == leaf_file(sb),
        sa.len() == i < sb.len(),
        lp == leaf_page_count(sa.len() as int),
        leaf_page_count(sa.len() as int) == leaf_page_count(sb.len() as int),
    ensures
        leaf_word(sa, 2 * i) == leaf_word(sb, 2 * i),
        leaf_word(sa, 2 * i) == TOMBSTONE,
        leaf_word(sb, 2 * i) == sb[i].0,
        sb[i].0 < TOMBSTONE,
{
    lemma_leaf_word_eq(sa, sb, 2 * i);
    lemma_fundamental_div_mod(sb.len() as int + 255, 256);
    assert(i < 256 * leaf_page_count(sb.len() as int)) by (nonlinear_arith)
        requires
            i < sb.len(),
            leaf_page_count(sb.len() as int) == (sb.len() + 255) as int / 256,
            (sb.len() + 255) as int == 256 * leaf_page_count(sb.len() as int) + (sb.len() + 255)
                as int % 256,
            (sb.len() + 255) as int % 256 >= 0,
    ;
    assert(leaf_word(sa, 2 * i) == TOMBSTONE);
    assert(leaf_word(sb, 2 * i) == sb[i].0);
    assert(sb[i].0 < TOMBSTONE);
}

/// Equal leaf files give equal leaf words at every covered position.
proof fn lemma_leaf_word_eq(sa: Seq<(i64, i64)>, sb: Seq<(i64, i64)>, w: int)
    requires
        leaf_file(sa) == leaf_file(sb),
        0 <= w,
        w / 2 < 256 * leaf_page_count(sa.len() as int),
    ensures
        leaf_word(sa, w) == leaf_word(sb, w),
{
    let q = w / 512;
    let r = w % 512;
    lemma_fundamental_div_mod(w, 512);
    assert(0 <= r < 512);
    lemma_fundamental_div_mod(sa.len() as int + 255, 256);
    lemma_fundamental_div_mod(sb.len() as int + 255, 256);
    assert(leaf_page_count(sa.len() as int) >= 0) by (nonlinear_arith)
        requires
            leaf_page_count(sa.len() as int) == (sa.len() + 255) as int / 256,
            sa.len() >= 0,
    ;
    assert(leaf_page_count(sb.len() as int) >= 0) by (nonlinear_arith)
        requires
            leaf_page_count(sb.len() as int) == (sb.len() + 255) as int / 256,
            sb.len() >= 0,
    ;
    assert(leaf_file(sa).len() == leaf_page_count(sa.len() as int));
    assert(leaf_file(sb).len() == leaf_page_count(sb.len() as int));
    assert(leaf_page_count(sa.len() as int) == leaf_page_count(sb.len() as int));
    assert(q < leaf_page_count(sa.len() as int)) by (nonlinear_arith)
        requires
            w == 512 * q + r,
            0 <= r < 512,
            w >= 0,
            w / 2 < 256 * leaf_page_count(sa.len() as int),
            w / 2 == (512 * q + r) / 2,
            (512 * q + r) / 2 >= 256 * q,
    ;
    assert(w / 2 >= 256 * q) by (nonlinear_arith)
        requires
            w == 512 * q + r,
            0 <= r,
            q >= 0,
    ;
    assert(leaf_file(sa)[q] == leaf_page(sa, q));
    assert(leaf_file(sb)[q] == leaf_page(sb, q));
    assert(leaf_page(sa, q)[r] == leaf_word(sa, 512 * q + r));
    assert(leaf_page(sb, q)[r] == leaf_word(sb, 512 * q + r));
}

/// Reads one static index through the page store: point lookups by fence
/// descent, range scans by streaming the leaf file.
#[derive(Clone, Copy)]
pub struct BTreeReader {
    pub slot: u64,
    pub levels: usize,
    pub items: Ghost<Seq<(i64, i64)>>,
}

impl BTreeReader {
    /// The reader matches the store's files.
    pub open spec fn wf(&self, files: Map<u64, Seq<Seq<i64>>>) -> bool {
        &&& si_wf(self.items@, self.slot, self.levels as nat, files)
        &&& self.levels <= 13
    }

    /// Open the index at `slot` with `levels` fence levels. The store must
    /// hold a well-formed index there; which pair sequence it encodes is
    /// determined by the files themselves.
    pub fn new<A: Cache>(slot: u64, levels: usize, cache: &A) -> (r: BTreeReader)
        requires
            levels <= 13,
            exists|s: Seq<(i64, i64)>| si_wf(s, slot, levels as nat, cache.files()),
        ensures
            r.slot == slot,
            r.levels == levels,
            r.wf(cache.files()),
    {
        let ghost s = choose|s: Seq<(i64, i64)>| si_wf(s, slot, levels as nat, cache.files());
        BTreeReader { slot, levels, items: Ghost(s) }
    }

    /// The leaf page index that could hold `key`: descend the fence levels,
    /// one binary search each.
    fn get_bottom_index<A: Cache>(&self, key: i64, cache: &mut A) -> (r: u64)
        requires
            self.wf(old(cache).files()),
        ensures
            final(cache).files() == old(cache).files(),
            r == t_of(self.items@, key, 0),
            0 <= r <= sep_count(self.items@.len() as int, 0),
    {
        let ghost s = self.items@;
        let ghost n = s.len() as int;
        let ghost files0 = old(cache).files();
        proof {
            lemma_num_levels_bound(n);
        }
        let mut level: usize = self.levels;
        let mut index: u64 = 0;
        proof {
            assert(sep_count(n, self.levels as nat) == 0);
            assert(t_of(s, key, level as nat) == 0);
        }
        while level != 0
            invariant
                self.wf(files0),
                cache.files() == files0,
                s == self.items@,
                n == s.len() as int,
                level <= self.levels,
                index == t_of(s, key, level as nat),
                0 <= index <= sep_count(n, level as nat),
            decreases level,
        {
            let ghost lg = (level - 1) as nat;
            proof {
                lemma_num_levels_bound(n);
                assert(sep_count(n, lg) >= 1);
                lemma_descend_step(s, key, lg);
                lemma_sep_count_mono(n, lg);
                assert((sep_count(n, lg) + 511) / 512 < 0x1_0000_0000_0000_0000)
                    by (nonlinear_arith)
                    requires
                        0 <= sep_count(n, lg) < 0x1_0000_0000_0000_0000,
                ;
            }
            let fid = fence_file_id(self.slot, level - 1);
            let fl = cache.num_pages(fid);
            proof {
                assert(fl == (sep_count(n, lg) + 511) / 512);
            }
            let q: u64 = if index < fl {
                index
            } else {
                fl - 1
            };
            proof {
                assert(q == clamp_page(t_of(s, key, (lg + 1) as nat), fl as int));
            }
            let buf = cache.get_page(fid, q, true, true);
            proof {
                lemma_fence_file_page(s, lg, q as int);
                lemma_fence_page_sorted(s, lg, q as int);
                assert(buf@.len() == 512);
            }
            let r = lower_bound_words(&buf, key);
            let ghost t0 = t_of(s, key, lg);
            proof {
                assert(forall|w: int|
                    0 <= w < 512 ==> buf@[w] == #[trigger] fence_word(s, lg, 512 * (q as int)
                        + w));
                assert(512 * (q as int) + (r as int) == t0) by {
                    if r > 0 {
                        assert(buf@[r - 1] < key);
                        assert(512 * (q as int) + (r - 1) < t0);
                    }
                    if r < 512 {
                        assert(buf@[r as int] >= key);
                        assert(!(512 * (q as int) + (r as int) < t0));
                    }
                }
                assert(512 * (q as int) + (r as int) <= sep_count(n, lg));
                assert(sep_count(n, lg) < 0x1_0000_0000_0000_0000);
            }
            index = 512 * q + (r as u64);
            level = level - 1;
        }
        index
    }

    /// Point lookup: the value stored under `key`, if any.
    pub fn get_item<A: Cache>(&self, key: i64, cache: &mut A) -> (r: Option<i64>)
        requires
            self.wf(old(cache).files()),
            key != TOMBSTONE,
        ensures
            final(cache).files() == old(cache).files(),
            r == lookup(self.items@, key),
    {
        let ghost s = self.items@;
        let ghost n = s.len() as int;
        let t0u = self.get_bottom_index(key, cache);
        proof {
            lemma_leaf_locate(s, key);
        }
        let lid = items_file_id(self.slot);
        proof {
            assert(leaf_file(s).len() == leaf_page_count(n));
        }
        let lp = cache.num_pages(lid);
        proof {
            assert(lp as int == leaf_page_count(n));
        }
        let p: u64 = if t0u < lp {
            t0u
        } else {
            lp - 1
        };
        let ghost u = u_of(s, key);
        proof {
            assert(p == clamp_page(t_of(s, key, 0), lp as int));
            assert(leaf_file(s)[p as int] == leaf_page(s, p as int));
            lemma_leaf_page_sorted(s, p as int);
        }
        let buf = cache.get_page(lid, p, true, true);
        let r = lower_bound_pairs(&buf, key);
        proof {
            assert(forall|w: int|
                0 <= w < 512 ==> buf@[w] == #[trigger] leaf_word(s, 512 * (p as int) + w));
            assert(256 * (p as int) + (r as int) == u) by {
                if r > 0 {
                    assert(buf@[2 * (r - 1)] < key);
                    assert(buf@[2 * (r - 1)] == leaf_word(s, 512 * (p as int) + 2 * (r - 1)));
                    assert(256 * (p as int) + (r - 1) < u);
                }
                if r < 256 {
                    assert(buf@[2 * (r as int)] >= key);
                    assert(!(256 * (p as int) + (r as int) < u));
                }
            }
        }
        if r < 256 {
            let pair = buf.pair_at(r);
            proof {
                assert(pair.0 == leaf_word(s, 512 * (p as int) + 2 * (r as int)));
                assert(pair.1 == leaf_word(s, 512 * (p as int) + 2 * (r as int) + 1));
                assert((512 * (p as int) + 2 * (r as int)) / 2 == 256 * (p as int) + (r as int)
                    && (512 * (p as int) + 2 * (r as int)) % 2 == 0) by (nonlinear_arith)
                    requires
                        p as int >= 0,
                        r as int >= 0,
                ;
                assert((512 * (p as int) + 2 * (r as int) + 1) / 2 == 256 * (p as int) + (
                r as int) && (512 * (p as int) + 2 * (r as int) + 1) % 2 == 1)
                    by (nonlinear_arith)
                    requires
                        p as int >= 0,
                        r as int >= 0,
                ;
            }
            if pair.0 == key {
                proof {
                    assert(u < n && s[u].0 == key) by {
                        if u >= n {
                            assert(pair.0 == TOMBSTONE);
                        }
                    }
                }
                Some(pair.1)
            } else {
                proof {
                    assert(!seq_map(s).contains_key(key)) by {
                        if u < n && s[u].0 == key {
                            assert(pair.0 == s[u].0);
                        }
                    }
                }
                None
            }
        } else {
            proof {
                assert(!seq_map(s).contains_key(key)) by {
                    if u < n && s[u].0 == key {
                        assert(256 * (p as int) <= u < 256 * (p as int) + 256);
                    }
                }
            }
            None
        }
    }

    /// Range scan: every pair with `lower_bound <= key <= upper_bound`,
    /// ascending; reversed bounds yield nothing.
    pub fn range<A: Cache>(&self, lower_bound: i64, upper_bound: i64, cache: &mut A) -> (r: Vec<
        (i64, i64),
    >)
        requires
            self.wf(old(cache).files()),
        ensures
            final(cache).files() == old(cache).files(),
            r@ == filter_range(self.items@, lower_bound, upper_bound),
    {
        let ghost s = self.items@;
        let ghost n = s.len() as int;
        let ghost files0 = old(cache).files();
        let t0u = self.get_bottom_index(lower_bound, cache);
        proof {
            lemma_leaf_locate(s, lower_bound);
        }
        let lid = items_file_id(self.slot);
        proof {
            assert(leaf_file(s).len() == leaf_page_count(n));
        }
        let lp = cache.num_pages(lid);
        proof {
            assert(lp as int == leaf_page_count(n));
        }
        let p0: u64 = if t0u < lp {
            t0u
        } else {
            lp - 1
        };
        let ghost u = u_of(s, lower_bound);
        proof {
            assert(p0 == clamp_page(t_of(s, lower_bound, 0), lp as int));
            assert(leaf_file(s)[p0 as int] == leaf_page(s, p0 as int));
            lemma_leaf_page_sorted(s, p0 as int);
        }
        let buf0 = cache.get_page(lid, p0, true, true);
        let w0 = lower_bound_pairs(&buf0, lower_bound);
        proof {
            assert(forall|w: int|
                0 <= w < 512 ==> buf0@[w] == #[trigger] leaf_word(s, 512 * (p0 as int) + w));
            assert(256 * (p0 as int) + (w0 as int) == u) by {
                if w0 > 0 {
                    assert(buf0@[2 * (w0 - 1)] < lower_bound);
                    assert(256 * (p0 as int) + (w0 - 1) < u);
                }
                if w0 < 256 {
                    assert(buf0@[2 * (w0 as int)] >= lower_bound);
                    assert(!(256 * (p0 as int) + (w0 as int) < u));
                }
            }
        }
        let mut out: Vec<(i64, i64)> = Vec::new();
        let mut p: u64 = p0;
        let mut w: usize = w0;
        let mut done: bool = false;
        proof {
            assert(s.subrange(u, u) =~= Seq::<(i64, i64)>::empty());
            lemma_icount_boundary(s, lower_bound, n);
        }
        while !done && (w == 256 || p < lp)
            invariant
                self.wf(files0),
                cache.files() == files0,
                s == self.items@,
                n == s.len() as int,
                lid == items_fid(self.slot),
                lp == leaf_page_count(n),
                0 <= u <= n,
                w <= 256,
                p0 <= p <= lp,
                u <= 256 * (p as int) + (w as int) <= n,
                out@ == s.subrange(u, 256 * (p as int) + (w as int)),
                forall|i: int| u <= i < n ==> (#[trigger] s[i]).0 >= lower_bound,
                forall|i: int|
                    u <= i < 256 * (p as int) + (w as int) ==> (#[trigger] s[i]).0 <= upper_bound,
                done ==> (256 * (p as int) + (w as int) == n || (256 * (p as int) + (w as int) < n
                    && s[256 * (p as int) + (w as int)].0 > upper_bound)),
            decreases (if done {
                0int
            } else {
                1int
            }), (lp as int) - (p as int), 256 - (w as int),
        {
            if w == 256 {
                w = 0;
                p = p + 1;
                proof {
                    assert(256 * ((p - 1) as int) + 256 == 256 * (p as int));
                }
            } else {
                proof {
                    assert(p < lp);
                    assert(cache.files().contains_key(lid));
                    assert(cache.files()[lid] == leaf_file(s));
                    assert(leaf_file(s).len() == leaf_page_count(n));
                }
                let buf = cache.get_page(lid, p, true, true);
                proof {
                    assert(leaf_file(s)[p as int] == leaf_page(s, p as int));
                    assert(forall|w2: int|
                        0 <= w2 < 512 ==> buf@[w2] == #[trigger] leaf_word(
                            s,
                            512 * (p as int) + w2,
                        ));
                }
                let ghost idx = 256 * (p as int) + (w as int);
                let pair = buf.pair_at(w);
                proof {
                    assert((512 * (p as int) + 2 * (w as int)) / 2 == idx && (512 * (p as int) + 2
                        * (w as int)) % 2 == 0) by (nonlinear_arith)
                        requires
                            idx == 256 * (p as int) + (w as int),
                            p as int >= 0,
                            w as int >= 0,
                    ;
                    assert((512 * (p as int) + 2 * (w as int) + 1) / 2 == idx && (512 * (p as int)
                        + 2 * (w as int) + 1) % 2 == 1) by (nonlinear_arith)
                        requires
                            idx == 256 * (p as int) + (w as int),
                            p as int >= 0,
                            w as int >= 0,
                    ;
                    assert(pair.0 == leaf_word(s, 512 * (p as int) + 2 * (w as int)));
                    assert(pair.1 == leaf_word(s, 512 * (p as int) + 2 * (w as int) + 1));
                    if idx < n {
                        assert(pair == s[idx]);
                    } else {
                        assert(pair.0 == TOMBSTONE);
                    }
                    assert(idx < 256 * (lp as int)) by (nonlinear_arith)
                        requires
                            idx == 256 * (p as int) + (w as int),
                            0 <= w < 256,
                            p < lp,
                    ;
                    if idx >= n {
                        lemma_fundamental_div_mod(n + 255, 256);
                        assert(256 * (lp as int) <= n + 255);
                        assert(idx == n || pair.0 == TOMBSTONE);
                    }
                }
                if pair.0 == TOMBSTONE {
                    proof {
                        assert(idx >= n) by {
                            if idx < n {
                                assert(s[idx].0 < TOMBSTONE);
                            }
                        }
                        assert(idx == n) by {
                            lemma_fundamental_div_mod(n + 255, 256);
                        }
                    }
                    done = true;
                } else if pair.0 > upper_bound {
                    done = true;
                } else {
                    out.push(pair);
                    proof {
                        assert(idx < n);
                        assert(s.subrange(u, idx + 1) =~= s.subrange(u, idx).push(s[idx]));
                    }
                    w = w + 1;
                }
            }
        }
        proof {
            let end = 256 * (p as int) + (w as int);
            assert(end == n || (end < n && s[end].0 > upper_bound)) by {
                if !done {
                    assert(!(w == 256 || p < lp));
                    assert(p == lp);
                    assert(end >= 256 * (lp as int)) by (nonlinear_arith)
                        requires
                            end == 256 * (p as int) + (w as int),
                            p == lp,
                            w >= 0,
                    ;
                    lemma_fundamental_div_mod(n + 255, 256);
                    assert(n <= 256 * (lp as int));
                    assert(end == n);
                }
            }
            assert forall|i: int| end <= i < n implies (#[trigger] s[i]).0 > upper_bound by {
                assert(s[end].0 > upper_bound);
                if i > end {
                    assert(s[end].0 < s[i].0);
                }
            }
            lemma_icount_boundary(s, lower_bound, n);
            lemma_filter_segment(s, lower_bound, upper_bound, u, end);
        }
        out
    }

    /// Every pair of the index, ascending: the stream a compaction merges.
    pub fn into_level_iter<A: Cache>(self, cache: &mut A) -> (r: Vec<(i64, i64)>)
        requires
            self.wf(old(cache).files()),
        ensures
            final(cache).files() == old(cache).files(),
            r@ == self.items@,
    {
        let ghost s = self.items@;
        let r = self.range(i64::MIN, i64::MAX, cache);
        proof {
            crate::avl_tree::lemma_filter_range_all(s);
        }
        r
    }

    /// Remove every file of this index from the store.
    pub fn delete<A: Cache>(self, cache: &mut A)
        requires
            self.wf(old(cache).files()),
        ensures
            files_unchanged_except(
                old(cache).files(),
                final(cache).files(),
                self.slot,
                self.levels as nat,
            ),
            forall|id: u64|
                si_owns(self.slot, self.levels as nat, id) ==> !final(cache).files().contains_key(
                    id,
                ),
    {
        let lid = items_file_id(self.slot);
        proof {
            lemma_fid_values(self.slot, 0);
            assert(si_owns(self.slot, self.levels as nat, items_fid(self.slot)));
        }
        cache.delete_file(lid);
        let mut l: usize = 0;
        while l < self.levels
            invariant
                self.levels <= 13,
                slot_ok(self.slot),
                l <= self.levels,
                files_unchanged_except(
                    old(cache).files(),
                    cache.files(),
                    self.slot,
                    self.levels as nat,
                ),
                forall|id: u64| si_owns(self.slot, l as nat, id) ==> !cache.files().contains_key(id),
                forall|l2: nat|
                    l as nat <= l2 < self.levels as nat ==> cache.files().contains_key(
                        #[trigger] fence_fid(self.slot, l2),
                    ),
            decreases self.levels - l,
        {
            let fid = fence_file_id(self.slot, l);
            proof {
                lemma_fid_values(self.slot, l as nat);
                assert(si_owns(self.slot, self.levels as nat, fid));
            }
            cache.delete_file(fid);
            proof {
                assert forall|id: u64|
                    !si_owns(self.slot, self.levels as nat, id) implies (cache.files(
                    ).contains_key(id) == old(cache).files().contains_key(id) && (old(cache).files().contains_key(id) ==> cache.files()[id] == old(cache).files()[id])) by {
                    assert(!si_owns(self.slot, self.levels as nat, id));
                    assert(id != fid);
                }
                assert forall|id: u64|
                    si_owns(self.slot, (l + 1) as nat, id) implies !cache.files().contains_key(
                    id,
                ) by {
                    if id != fid && si_owns(self.slot, l as nat, id) {
                    }
                }
                assert forall|l2: nat|
                    (l + 1) as nat <= l2 < self.levels as nat implies cache.files().contains_key(
                    #[trigger] fence_fid(self.slot, l2),
                ) by {
                    lemma_fid_values(self.slot, l2);
                    assert(fence_fid(self.slot, l2) != fid);
                }
            }
            l = l + 1;
        }
    }

}

/// The first `k` separators of one level.
pub open spec fn sep_prefix(items: Seq<(i64, i64)>, level: nat, k: int) -> Seq<i64> {
    Seq::new(k as nat, |j: int| sep_at(items, level, j))
}

/// The complete leaf pages of a stream, without the padded tail.
pub open spec fn leaf_prefix_pages(items: Seq<(i64, i64)>) -> Seq<Seq<i64>> {
    Seq::new((items.len() as int / 256) as nat, |p: int| leaf_page(items, p))
}

/// Whether `id` is one of a slot's possible fence file ids.
pub open spec fn fence_owned(slot: u64, id: u64) -> bool {
    16 * slot + 2 <= id < 16 * slot + 16
}

/// The stores agree on every id but `fid`.
pub open spec fn one_file_changed(
    old_files: Map<u64, Seq<Seq<i64>>>,
    new_files: Map<u64, Seq<Seq<i64>>>,
    fid: u64,
) -> bool {
    forall|id: u64|
        id != fid ==> (#[trigger] new_files.contains_key(id) == old_files.contains_key(id) && (
        old_files.contains_key(id) ==> new_files[id] == old_files[id]))
}

/// Only fence files of `slot` differ between the stores.
pub open spec fn fences_only_changed(
    old_files: Map<u64, Seq<Seq<i64>>>,
    new_files: Map<u64, Seq<Seq<i64>>>,
    slot: u64,
) -> bool {
    forall|id: u64|
        !(#[trigger] fence_owned(slot, id)) ==> (new_files.contains_key(id)
            == old_files.contains_key(id) && (old_files.contains_key(id) ==> new_files[id]
            == old_files[id]))
}

/// The fence frame composes across two steps.
proof fn lemma_fences_chain(
    f0: Map<u64, Seq<Seq<i64>>>,
    f1: Map<u64, Seq<Seq<i64>>>,
    f2: Map<u64, Seq<Seq<i64>>>,
    slot: u64,
)
    requires
        fences_only_changed(f0, f1, slot),
        fences_only_changed(f1, f2, slot),
    ensures
        fences_only_changed(f0, f2, slot),
{
    assert forall|id: u64|
        !(#[trigger] fence_owned(slot, id)) implies (f2.contains_key(id) == f0.contains_key(id)
        && (f0.contains_key(id) ==> f2[id] == f0[id])) by {
        assert(f1.contains_key(id) == f0.contains_key(id));
        assert(f2.contains_key(id) == f1.contains_key(id));
    }
}

/// A write to one fence file is within the fence frame.
proof fn lemma_fences_from_one(
    f0: Map<u64, Seq<Seq<i64>>>,
    f1: Map<u64, Seq<Seq<i64>>>,
    fid: u64,
    slot: u64,
)
    requires
        one_file_changed(f0, f1, fid),
        fence_owned(slot, fid),
    ensures
        fences_only_changed(f0, f1, slot),
{
    assert forall|id: u64|
        !(#[trigger] fence_owned(slot, id)) implies (f1.contains_key(id) == f0.contains_key(id)
        && (f0.contains_key(id) ==> f1[id] == f0[id])) by {
        assert(f1.contains_key(id) == f0.contains_key(id));
    }
}

/// Creating one fence file is within the fence frame.
proof fn lemma_fences_from_insert(
    f0: Map<u64, Seq<Seq<i64>>>,
    f1: Map<u64, Seq<Seq<i64>>>,
    fid: u64,
    pages: Seq<Seq<i64>>,
    slot: u64,
)
    requires
        f1 == f0.insert(fid, pages),
        fence_owned(slot, fid),
    ensures
        fences_only_changed(f0, f1, slot),
{
}

/// Reading the fence frame for one id outside it.
proof fn lemma_fences_keeps(
    f0: Map<u64, Seq<Seq<i64>>>,
    f1: Map<u64, Seq<Seq<i64>>>,
    slot: u64,
    id: u64,
)
    requires
        fences_only_changed(f0, f1, slot),
        !fence_owned(slot, id),
    ensures
        f1.contains_key(id) == f0.contains_key(id),
        f0.contains_key(id) ==> f1[id] == f0[id],
{
}

/// Reading the frame fact for one id.
proof fn lemma_one_file_keeps(
    old_files: Map<u64, Seq<Seq<i64>>>,
    new_files: Map<u64, Seq<Seq<i64>>>,
    fid: u64,
    id: u64,
)
    requires
        one_file_changed(old_files, new_files, fid),
        id != fid,
    ensures
        new_files.contains_key(id) == old_files.contains_key(id),
        old_files.contains_key(id) ==> new_files[id] == old_files[id],
{
    assert(new_files.contains_key(id) == old_files.contains_key(id));
}

/// Stepping a nonnegative integer across a divisor boundary.
proof fn lemma_incr_div(m: int, d: int)
    requires
        m >= 0,
        d >= 1,
    ensures
        ((m + 1) % d == 0) <==> (m % d == d - 1),
        m % d == d - 1 ==> (m + 1) / d == m / d + 1 && (m + 1) % d == 0,
        m % d < d - 1 ==> (m + 1) / d == m / d && (m + 1) % d == m % d + 1,
{
    lemma_fundamental_div_mod(m, d);
    if m % d == d - 1 {
        assert(m + 1 == (m / d + 1) * d + 0) by (nonlinear_arith)
            requires
                m == d * (m / d) + m % d,
                m % d == d - 1,
        ;
        lemma_fundamental_div_mod_converse(m + 1, d, m / d + 1, 0);
    } else {
        assert(m + 1 == (m / d) * d + (m % d + 1)) by (nonlinear_arith)
            requires
                m == d * (m / d) + m % d,
        ;
        lemma_fundamental_div_mod_converse(m + 1, d, m / d, m % d + 1);
    }
}

/// Equal counts at one level stay equal at every level above.
proof fn lemma_counts_eq_from(n1: int, n2: int, base: nat, level: nat)
    requires
        base <= level,
        sep_count(n1, base) == sep_count(n2, base),
    ensures
        sep_count(n1, level) == sep_count(n2, level),
    decreases level,
{
    if level > base {
        lemma_counts_eq_from(n1, n2, base, (level - 1) as nat);
    }
}

/// Counts never shrink as the stream grows.
proof fn lemma_counts_mono_n(n1: int, n2: int, level: nat)
    requires
        0 <= n1 <= n2,
    ensures
        sep_count(n1, level) <= sep_count(n2, level),
    decreases level,
{
    if level == 0 {
        vstd::arithmetic::div_mod::lemma_div_is_ordered(n1, n2, 256);
    } else {
        lemma_counts_mono_n(n1, n2, (level - 1) as nat);
        lemma_sep_count_mono(n1, (level - 1) as nat);
        vstd::arithmetic::div_mod::lemma_div_is_ordered(
            sep_count(n1, (level - 1) as nat),
            sep_count(n2, (level - 1) as nat),
            512,
        );
    }
}

/// Level counts alone settle the level tally.
proof fn lemma_num_levels_from_counts(n1: int, n2: int, level: nat)
    requires
        level <= 14,
        sep_count(n1, level) == sep_count(n2, level),
    ensures
        num_levels_above(n1, level) == num_levels_above(n2, level),
    decreases 14 - level,
{
    if level < 14 {
        lemma_counts_eq_from(n1, n2, level, (level + 1) as nat);
        lemma_num_levels_from_counts(n1, n2, (level + 1) as nat);
    }
}

/// Occupied levels below an empty one pin the level tally exactly.
proof fn lemma_num_levels_converse_from(n: int, j: nat, k: nat)
    requires
        j <= k <= 14,
        forall|l2: nat| j <= l2 < k ==> sep_count(n, l2) >= 1,
        sep_count(n, k) == 0,
    ensures
        num_levels_above(n, j) == k - j,
    decreases k - j,
{
    if j == k {
        if k < 14 {
        }
    } else {
        lemma_num_levels_converse_from(n, (j + 1) as nat, k);
        assert(sep_count(n, j) >= 1);
    }
}

/// Separator values are stable as the stream grows, below the old count.
proof fn lemma_sep_stable(s: Seq<(i64, i64)>, x: (i64, i64), level: nat, k: int)
    requires
        s.len() >= 0,
        0 <= k <= sep_count(s.len() as int, level),
    ensures
        sep_prefix(s.push(x), level, k) == sep_prefix(s, level, k),
    decreases k,
{
    assert forall|j: int| 0 <= j < k implies sep_at(s.push(x), level, j) == sep_at(
        s,
        level,
        j,
    ) by {
        lemma_sep_index_in_range(s.len() as int, level, j);
    }
    assert(sep_prefix(s.push(x), level, k) =~= sep_prefix(s, level, k));
}

/// A complete leaf page reads the same from a stream and its extension.
proof fn lemma_leaf_page_prefix(s0: Seq<(i64, i64)>, s2: Seq<(i64, i64)>, p: int, bound: int)
    requires
        s0.len() <= s2.len(),
        forall|i: int| 0 <= i < s0.len() ==> s0[i] == s2[i],
        0 <= p < bound,
        256 * bound <= s0.len(),
    ensures
        leaf_page(s2, p) == leaf_page(s0, p),
{
    assert forall|w: int| 0 <= w < 512 implies leaf_page(s2, p)[w] == leaf_page(s0, p)[w] by {
        let g = 512 * p + w;
        assert(g >= 0) by (nonlinear_arith)
            requires
                g == 512 * p + w,
                p >= 0,
                w >= 0,
        ;
        assert(g / 2 < 256 * bound) by (nonlinear_arith)
            requires
                g == 512 * p + w,
                0 <= w < 512,
                p + 1 <= bound,
                g >= 0,
                g / 2 * 2 <= g < g / 2 * 2 + 2,
        ;
        lemma_fundamental_div_mod(g, 2);
        assert(g / 2 < s0.len());
    }
    assert(leaf_page(s2, p) =~= leaf_page(s0, p));
}

/// Accumulates one fence level: complete pages go to the level's file, the
/// open page sits in a sentinel-filled buffer.
pub struct LevelWriter {
    pub file_id: u64,
    pub size_in_i64: u64,
    pub buffer: Buffer,
    pub written: Ghost<Seq<i64>>,
}

impl LevelWriter {
    /// Sound state against the store: the file holds exactly the complete
    /// pages of what was written, and the buffer the open remainder.
    pub open spec fn wf(&self, files: Map<u64, Seq<Seq<i64>>>) -> bool {
        &&& self.size_in_i64 == self.written@.len()
        &&& files.contains_key(self.file_id)
        &&& files[self.file_id] == packed_pages(self.written@)
        &&& self.buffer.wf()
        &&& forall|w: int|
            0 <= w < self.written@.len() as int % 512 ==> self.buffer@[w] == self.written@[512 * (
            self.written@.len() as int / 512) + w]
        &&& forall|w: int|
            self.written@.len() as int % 512 <= w < 512 ==> self.buffer@[w] == TOMBSTONE
    }

    /// Open a fresh level file.
    pub fn new<A: Cache>(file_id: u64, cache: &mut A) -> (r: LevelWriter)
        requires
            !old(cache).files().contains_key(file_id),
        ensures
            r.wf(final(cache).files()),
            r.file_id == file_id,
            r.written@ == Seq::<i64>::empty(),
            final(cache).files() == old(cache).files().insert(file_id, Seq::<Seq<i64>>::empty()),
    {
        cache.create_file(file_id);
        let r = LevelWriter {
            file_id,
            size_in_i64: 0,
            buffer: Buffer::new(),
            written: Ghost(Seq::empty()),
        };
        proof {
            assert(packed_pages(Seq::<i64>::empty()) =~= Seq::<Seq<i64>>::empty());
        }
        r
    }

    /// Append one separator; a full page is flushed to the level's file.
    pub fn add_i64<A: Cache>(&mut self, item: i64, cache: &mut A) -> (flushed: bool)
        requires
            old(self).wf(old(cache).files()),
            old(self).written@.len() + 1 < 0x1_0000_0000_0000_0000,
        ensures
            final(self).wf(final(cache).files()),
            final(self).file_id == old(self).file_id,
            final(self).written@ == old(self).written@.push(item),
            flushed == ((old(self).written@.len() + 1) as int % 512 == 0),
            one_file_changed(old(cache).files(), final(cache).files(), old(self).file_id),
    {
        let ghost m = self.written@.len() as int;
        proof {
            lemma_incr_div(m, 512);
            lemma_fundamental_div_mod(m, 512);
        }
        let idx: usize = (self.size_in_i64 % 512) as usize;
        self.buffer.set_word(idx, item);
        self.size_in_i64 = self.size_in_i64 + 1;
        proof {
            self.written@ = self.written@.push(item);
        }
        let ghost w2 = self.written@;
        if self.size_in_i64 % 512 == 0 {
            let mut fresh = Buffer::new();
            core::mem::swap(&mut self.buffer, &mut fresh);
            proof {
                assert(m % 512 == 511);
                assert((m + 1) / 512 == m / 512 + 1);
                assert(fresh@ =~= Seq::new(512, |w: int| w2[512 * (m / 512) + w])) by {
                    assert(forall|w: int|
                        0 <= w < 511 ==> fresh@[w] == #[trigger] w2[512 * (m / 512) + w]);
                    assert(fresh@[511] == item);
                    assert(w2[512 * (m / 512) + 511] == item) by {
                        assert(512 * (m / 512) + 511 == m);
                    }
                }
                assert(cache.files()[self.file_id].len() == m / 512);
            }
            cache.write_page(self.file_id, self.size_in_i64 / 512 - 1, fresh);
            proof {
                assert(cache.files()[self.file_id] =~= packed_pages(w2)) by {
                    assert(packed_pages(w2).len() == (m + 1) / 512);
                    assert(forall|q: int, w: int|
                        0 <= q < m / 512 && 0 <= w < 512 ==> #[trigger] packed_pages(w2)[q][w]
                            == packed_pages(old(self).written@)[q][w]);
                    assert(forall|q: int|
                        0 <= q < m / 512 ==> #[trigger] packed_pages(w2)[q] =~= packed_pages(
                            old(self).written@,
                        )[q]);
                }
            }
            true
        } else {
            proof {
                assert((m + 1) / 512 == m / 512 && (m + 1) % 512 == m % 512 + 1);
                assert(packed_pages(w2) =~= packed_pages(old(self).written@)) by {
                    assert forall|q: int|
                        0 <= q < (m + 1) / 512 implies #[trigger] packed_pages(w2)[q]
                        =~= packed_pages(old(self).written@)[q] by {
                        assert(512 * (q + 1) <= 512 * (m / 512) <= m) by (nonlinear_arith)
                            requires
                                q + 1 <= m / 512,
                                m == 512 * (m / 512) + m % 512,
                                m % 512 >= 0,
                        ;
                        assert(forall|w: int| 0 <= w < 512 ==> 512 * q + #[trigger] (w + 0) < m);
                    }
                }
            }
            false
        }
    }

    /// Flush the open page, padded with sentinels; the file then holds the
    /// whole level.
    pub fn finish<A: Cache>(&mut self, cache: &mut A)
        requires
            old(self).wf(old(cache).files()),
            old(self).written@.len() < 0x1_0000_0000_0000_0000,
        ensures
            final(cache).files().contains_key(old(self).file_id),
            final(cache).files()[old(self).file_id] == padded_pages(old(self).written@),
            final(self).written@ == old(self).written@,
            final(self).file_id == old(self).file_id,
            one_file_changed(old(cache).files(), final(cache).files(), old(self).file_id),
    {
        let ghost ws = self.written@;
        let ghost m = ws.len() as int;
        proof {
            lemma_fundamental_div_mod(m, 512);
            lemma_fundamental_div_mod(m + 511, 512);
        }
        if self.size_in_i64 % 512 != 0 {
            proof {
                assert((m + 511) / 512 == m / 512 + 1) by (nonlinear_arith)
                    requires
                        m >= 0,
                        m % 512 != 0,
                        m == 512 * (m / 512) + m % 512,
                        0 <= m % 512 < 512,
                        (m + 511) == 512 * ((m + 511) / 512) + (m + 511) % 512,
                        0 <= (m + 511) % 512 < 512,
                ;
            }
            let mut fresh = Buffer::new();
            core::mem::swap(&mut self.buffer, &mut fresh);
            cache.write_page(self.file_id, self.size_in_i64 / 512, fresh);
            proof {
                assert(cache.files()[self.file_id] =~= padded_pages(ws)) by {
                    assert(forall|q: int|
                        0 <= q < m / 512 ==> #[trigger] padded_pages(ws)[q] =~= packed_pages(
                            ws,
                        )[q]);
                    assert(padded_pages(ws)[m / 512] =~= fresh@) by {
                        assert(forall|w: int|
                            0 <= w < m % 512 ==> 512 * (m / 512) + w < m && #[trigger] fresh@[w]
                                == ws[512 * (m / 512) + w]);
                        assert(forall|w: int|
                            m % 512 <= w < 512 ==> 512 * (m / 512) + w >= m && #[trigger] fresh@[w]
                                == TOMBSTONE);
                    }
                }
            }
        } else {
            proof {
                assert((m + 511) / 512 == m / 512) by (nonlinear_arith)
                    requires
                        m >= 0,
                        m % 512 == 0,
                        m == 512 * (m / 512) + m % 512,
                        (m + 511) == 512 * ((m + 511) / 512) + (m + 511) % 512,
                        0 <= (m + 511) % 512 < 512,
                ;
                assert(cache.files()[self.file_id] =~= padded_pages(ws)) by {
                    assert(forall|q: int|
                        0 <= q < m / 512 ==> #[trigger] padded_pages(ws)[q] =~= packed_pages(
                            ws,
                        )[q]);
                }
            }
        }
    }
}

/// Accumulates the leaf file: complete pages of pairs go straight to disk,
/// the open page sits in the buffer.
pub struct Level0Writer {
    pub file_id: u64,
    pub buffer: Buffer,
    pub size_in_pairs: u64,
    pub pairs: Ghost<Seq<(i64, i64)>>,
}

impl Level0Writer {
    /// Sound state against the store.
    pub open spec fn wf(&self, files: Map<u64, Seq<Seq<i64>>>) -> bool {
        &&& self.size_in_pairs == self.pairs@.len() as int % 256
        &&& files.contains_key(self.file_id)
        &&& files[self.file_id] == leaf_prefix_pages(self.pairs@)
        &&& self.buffer.wf()
        &&& forall|w: int|
            0 <= w < 2 * (self.pairs@.len() as int % 256) ==> self.buffer@[w] == leaf_word(
                self.pairs@,
                512 * (self.pairs@.len() as int / 256) + w,
            )
    }

    /// Open a fresh leaf file.
    pub fn new<A: Cache>(file_id: u64, cache: &mut A) -> (r: Level0Writer)
        requires
            !old(cache).files().contains_key(file_id),
        ensures
            r.wf(final(cache).files()),
            r.file_id == file_id,
            r.pairs@ == Seq::<(i64, i64)>::empty(),
            final(cache).files() == old(cache).files().insert(file_id, Seq::<Seq<i64>>::empty()),
    {
        cache.create_file(file_id);
        let r = Level0Writer {
            file_id,
            buffer: Buffer::new(),
            size_in_pairs: 0,
            pairs: Ghost(Seq::empty()),
        };
        proof {
            assert(leaf_prefix_pages(Seq::<(i64, i64)>::empty()) =~= Seq::<Seq<i64>>::empty());
        }
        r
    }

    /// Append one pair; a full page is flushed to the leaf file.
    pub fn add_pair<A: Cache>(&mut self, item: (i64, i64), cache: &mut A) -> (flushed: bool)
        requires
            old(self).wf(old(cache).files()),
            old(self).pairs@.len() + 1 < 0x1_0000_0000_0000_0000,
        ensures
            final(self).wf(final(cache).files()),
            final(self).file_id == old(self).file_id,
            final(self).pairs@ == old(self).pairs@.push(item),
            flushed == ((old(self).pairs@.len() + 1) as int % 256 == 0),
            one_file_changed(old(cache).files(), final(cache).files(), old(self).file_id),
    {
        let ghost s0 = self.pairs@;
        let ghost m = s0.len() as int;
        let ghost s2 = s0.push(item);
        proof {
            lemma_incr_div(m, 256);
            lemma_fundamental_div_mod(m, 256);
        }
        let slot: usize = self.size_in_pairs as usize;
        self.buffer.set_pair(slot, item);
        self.size_in_pairs = self.size_in_pairs + 1;
        proof {
            self.pairs@ = s2;
            assert forall|w: int|
                0 <= w < 2 * (m % 256) + 2 implies self.buffer@[w] == leaf_word(
                s2,
                512 * (m / 256) + w,
            ) by {
                let g = 512 * (m / 256) + w;
                assert(g / 2 == 256 * (m / 256) + w / 2 && g % 2 == w % 2) by (nonlinear_arith)
                    requires
                        g == 512 * (m / 256) + w,
                        0 <= w,
                        m / 256 >= 0,
                ;
                if w < 2 * (m % 256) {
                    assert(self.buffer@[w] == old(self).buffer@[w]);
                    assert(leaf_word(s2, g) == leaf_word(s0, g)) by {
                        assert(g / 2 < m);
                    }
                } else {
                    assert(w == 2 * (m % 256) || w == 2 * (m % 256) + 1);
                    assert(g / 2 == m);
                    assert(leaf_word(s2, g) == if w % 2 == 0 {
                        item.0
                    } else {
                        item.1
                    });
                }
            }
        }
        if self.size_in_pairs == 256 {
            proof {
                assert(m % 256 == 255);
                assert((m + 1) / 256 == m / 256 + 1);
            }
            let page = crate::buffer::copy_buffer(&self.buffer);
            proof {
                assert(cache.files()[self.file_id].len() == m / 256);
                assert(page@ =~= leaf_page(s2, m / 256)) by {
                    assert(forall|w: int|
                        0 <= w < 512 ==> page@[w] == #[trigger] leaf_word(s2, 512 * (m / 256) + w));
                }
            }
            let pn = cache.num_pages(self.file_id);
            cache.write_page(self.file_id, pn, page);
            self.size_in_pairs = 0;
            proof {
                assert(cache.files()[self.file_id] =~= leaf_prefix_pages(s2)) by {
                    assert forall|p: int|
                        0 <= p < m / 256 implies #[trigger] leaf_prefix_pages(s2)[p]
                        =~= leaf_prefix_pages(s0)[p] by {
                        lemma_leaf_page_prefix(s0, s2, p, m / 256);
                    }
                }
            }
            true
        } else {
            proof {
                assert((m + 1) / 256 == m / 256 && (m + 1) % 256 == m % 256 + 1);
                assert(cache.files()[self.file_id] =~= leaf_prefix_pages(s2)) by {
                    assert forall|p: int|
                        0 <= p < (m + 1) / 256 implies #[trigger] leaf_prefix_pages(s2)[p]
                        =~= leaf_prefix_pages(s0)[p] by {
                        lemma_leaf_page_prefix(s0, s2, p, (m + 1) / 256);
                    }
                }
            }
            false
        }
    }

    /// Pad and flush the open page; the file then holds every pair.
    #[verifier::loop_isolation(false)]
    pub fn finish<A: Cache>(&mut self, cache: &mut A)
        requires
            old(self).wf(old(cache).files()),
            old(self).pairs@.len() < 0x1_0000_0000_0000_0000,
        ensures
            final(cache).files().contains_key(old(self).file_id),
            final(cache).files()[old(self).file_id] == leaf_file(old(self).pairs@),
            final(self).pairs@ == old(self).pairs@,
            final(self).file_id == old(self).file_id,
            one_file_changed(old(cache).files(), final(cache).files(), old(self).file_id),
    {
        let ghost s = self.pairs@;
        let ghost m = s.len() as int;
        proof {
            lemma_fundamental_div_mod(m, 256);
            lemma_fundamental_div_mod(m + 255, 256);
        }
        if self.size_in_pairs != 0 {
            proof {
                assert((m + 255) / 256 == m / 256 + 1) by (nonlinear_arith)
                    requires
                        m >= 0,
                        m % 256 != 0,
                        m == 256 * (m / 256) + m % 256,
                        0 <= m % 256 < 256,
                        (m + 255) == 256 * ((m + 255) / 256) + (m + 255) % 256,
                        0 <= (m + 255) % 256 < 256,
                ;
            }
            let mut i: usize = self.size_in_pairs as usize;
            while i < 256
                invariant
                    self.buffer.wf(),
                    self.file_id == old(self).file_id,
                    self.pairs == old(self).pairs,
                    self.size_in_pairs == old(self).size_in_pairs,
                    self.size_in_pairs as int <= i <= 256,
                    forall|w: int|
                        0 <= w < 2 * (self.size_in_pairs as int) ==> self.buffer@[w] == old(self).buffer@[w],
                    forall|w: int|
                        2 * (self.size_in_pairs as int) <= w < 2 * i ==> self.buffer@[w]
                            == TOMBSTONE,
                decreases 256 - i,
            {
                self.buffer.set_pair(i, (TOMBSTONE, TOMBSTONE));
                i += 1;
            }
            let page = crate::buffer::copy_buffer(&self.buffer);
            proof {
                assert(page@ =~= leaf_page(s, m / 256)) by {
                    assert forall|w: int| 0 <= w < 512 implies page@[w] == #[trigger] leaf_word(
                        s,
                        512 * (m / 256) + w,
                    ) by {
                        let g = 512 * (m / 256) + w;
                        assert(g / 2 == 256 * (m / 256) + w / 2 && g % 2 == w % 2)
                            by (nonlinear_arith)
                            requires
                                g == 512 * (m / 256) + w,
                                0 <= w,
                                m / 256 >= 0,
                        ;
                        if w < 2 * (m % 256) {
                            assert(w / 2 < m % 256) by (nonlinear_arith)
                                requires
                                    0 <= w < 2 * (m % 256),
                                    w == 2 * (w / 2) + w % 2,
                                    0 <= w % 2 < 2,
                            ;
                            assert(g / 2 < m);
                        } else {
                            assert(w / 2 >= m % 256) by (nonlinear_arith)
                                requires
                                    2 * (m % 256) <= w,
                                    w == 2 * (w / 2) + w % 2,
                                    0 <= w % 2 < 2,
                            ;
                            assert(g / 2 >= m);
                            assert(leaf_word(s, g) == TOMBSTONE);
                        }
                    }
                }
                assert(cache.files()[self.file_id].len() == m / 256);
            }
            let pn = cache.num_pages(self.file_id);
            cache.write_page(self.file_id, pn, page);
            proof {
                assert(cache.files()[self.file_id] =~= leaf_file(s)) by {
                    assert(forall|p: int|
                        0 <= p < m / 256 ==> #[trigger] leaf_file(s)[p] == leaf_prefix_pages(
                            s,
                        )[p]);
                }
            }
        } else {
            proof {
                assert((m + 255) / 256 == m / 256) by (nonlinear_arith)
                    requires
                        m >= 0,
                        m % 256 == 0,
                        m == 256 * (m / 256) + m % 256,
                        (m + 255) == 256 * ((m + 255) / 256) + (m + 255) % 256,
                        0 <= (m + 255) % 256 < 256,
                ;
                assert(cache.files()[self.file_id] =~= leaf_file(s)) by {
                    assert(forall|p: int|
                        0 <= p < m / 256 ==> #[trigger] leaf_file(s)[p] == leaf_prefix_pages(
                            s,
                        )[p]);
                }
            }
        }
    }
}

/// A level writer standing at `k` separators of `items`'s level `level`.
pub open spec fn writer_level_ok(
    lw: LevelWriter,
    items: Seq<(i64, i64)>,
    slot: u64,
    level: nat,
    k: int,
    files: Map<u64, Seq<Seq<i64>>>,
) -> bool {
    &&& lw.file_id == fence_fid(slot, level)
    &&& lw.written@ == sep_prefix(items, level, k)
    &&& lw.wf(files)
}

/// Builds one static index in a single pass over an ascending pair stream:
/// pairs stream into the leaf file, and each completed page hands its last
/// key up the fence levels.
pub struct BTreeWriter {
    pub slot: u64,
    pub buffers: Vec<LevelWriter>,
    pub top_level: Level0Writer,
}

impl BTreeWriter {
    /// The stream written so far.
    pub open spec fn items(&self) -> Seq<(i64, i64)> {
        self.top_level.pairs@
    }

    /// Sound state against the store: the leaf file and every live fence
    /// level track the stream exactly, and the ids of deeper levels are
    /// still free.
    pub open spec fn wf(&self, files: Map<u64, Seq<Seq<i64>>>) -> bool {
        let s = self.items();
        let n = s.len() as int;
        &&& valid_stream(s)
        &&& n < 0x1_0000_0000_0000_0000
        &&& slot_ok(self.slot)
        &&& self.top_level.file_id == items_fid(self.slot)
        &&& self.top_level.wf(files)
        &&& self.buffers.len() == num_levels(n)
        &&& forall|lv: int|
            0 <= lv < self.buffers.len() ==> writer_level_ok(
                #[trigger] self.buffers[lv],
                s,
                self.slot,
                lv as nat,
                sep_count(n, lv as nat),
                files,
            )
        &&& forall|l2: nat|
            self.buffers.len() as nat <= l2 <= 13 ==> !files.contains_key(
                #[trigger] fence_fid(self.slot, l2),
            )
    }

    /// Start an index at `slot`: its leaf file is created at once, fence
    /// files as their first separators arrive.
    pub fn new<A: Cache>(slot: u64, cache: &mut A) -> (r: BTreeWriter)
        requires
            slot_ok(slot),
            !old(cache).files().contains_key(items_fid(slot)),
            forall|l2: nat|
                l2 <= 13 ==> !old(cache).files().contains_key(#[trigger] fence_fid(slot, l2)),
        ensures
            r.wf(final(cache).files()),
            r.slot == slot,
            r.items() == Seq::<(i64, i64)>::empty(),
            final(cache).files() == old(cache).files().insert(
                items_fid(slot),
                Seq::<Seq<i64>>::empty(),
            ),
    {
        let lid = items_file_id(slot);
        let top_level = Level0Writer::new(lid, cache);
        let r = BTreeWriter { slot, buffers: Vec::new(), top_level };
        proof {
            lemma_fid_values(slot, 0);
            assert(sep_count(0, 0) == 0);
            lemma_num_levels_converse_from(0, 0, 0);
        }
        r
    }

    /// Push one separator up the fence levels, opening a new level when the
    /// key outgrows the current top.
    #[verifier::rlimit(100)]
    #[verifier::spinoff_prover]
    fn add_item_level<A: Cache>(&mut self, item: i64, level: usize, cache: &mut A)
        requires
            slot_ok(old(self).slot),
            valid_stream(old(self).items()),
            1 <= old(self).items().len() < 0x1_0000_0000_0000_0000,
            level <= old(self).buffers.len(),
            old(self).buffers.len() <= 12,
            forall|lv: int|
                0 <= lv < level ==> writer_level_ok(
                    #[trigger] old(self).buffers[lv],
                    old(self).items(),
                    old(self).slot,
                    lv as nat,
                    sep_count(old(self).items().len() as int, lv as nat),
                    old(cache).files(),
                ),
            forall|lv: int|
                level <= lv < old(self).buffers.len() ==> writer_level_ok(
                    #[trigger] old(self).buffers[lv],
                    old(self).items(),
                    old(self).slot,
                    lv as nat,
                    sep_count(old(self).items().len() as int - 1, lv as nat),
                    old(cache).files(),
                ),
            sep_count(old(self).items().len() as int, level as nat) == sep_count(
                old(self).items().len() as int - 1,
                level as nat,
            ) + 1,
            item == sep_at(
                old(self).items(),
                level as nat,
                sep_count(old(self).items().len() as int, level as nat) - 1,
            ),
            forall|lv: int|
                0 <= lv < level ==> #[trigger] sep_count(old(self).items().len() as int, lv as nat)
                    >= 1,
            sep_count(old(self).items().len() as int - 1, old(self).buffers.len() as nat) == 0,
            forall|lv: int|
                0 <= lv < old(self).buffers.len() ==> #[trigger] sep_count(
                    old(self).items().len() as int - 1,
                    lv as nat,
                ) >= 1,
            forall|l2: nat|
                old(self).buffers.len() as nat <= l2 <= 13 ==> !old(cache).files().contains_key(
                    #[trigger] fence_fid(old(self).slot, l2),
                ),
        ensures
            final(self).slot == old(self).slot,
            final(self).top_level == old(self).top_level,
            old(self).buffers.len() <= final(self).buffers.len() <= old(self).buffers.len() + 1,
            final(self).buffers.len() <= 13,
            forall|lv: int|
                0 <= lv < final(self).buffers.len() ==> writer_level_ok(
                    #[trigger] final(self).buffers[lv],
                    old(self).items(),
                    old(self).slot,
                    lv as nat,
                    sep_count(old(self).items().len() as int, lv as nat),
                    final(cache).files(),
                ),
            forall|lv: int|
                0 <= lv < final(self).buffers.len() ==> #[trigger] sep_count(
                    old(self).items().len() as int,
                    lv as nat,
                ) >= 1,
            sep_count(old(self).items().len() as int, final(self).buffers.len() as nat) == 0,
            forall|l2: nat|
                final(self).buffers.len() as nat <= l2 <= 13 ==> !final(cache).files().contains_key(#[trigger] fence_fid(old(self).slot, l2)),
            fences_only_changed(old(cache).files(), final(cache).files(), old(self).slot),
        decreases old(self).buffers.len() - level,
    {
        let ghost s = self.items();
        let ghost n = s.len() as int;
        let ghost slot = self.slot;
        let ghost cold = sep_count(n - 1, level as nat);
        let ghost cnew = sep_count(n, level as nat);
        if level == self.buffers.len() {
            let fid = fence_file_id(self.slot, level);
            proof {
                lemma_fid_values(slot, level as nat);
            }
            let lw = LevelWriter::new(fid, cache);
            self.buffers.push(lw);
            proof {
                assert(cold == 0);
                assert(sep_prefix(s, level as nat, 0) =~= Seq::<i64>::empty());
                assert forall|lv: int|
                    0 <= lv < self.buffers.len() - 1 implies writer_level_ok(
                    #[trigger] self.buffers[lv],
                    s,
                    slot,
                    lv as nat,
                    sep_count(n, lv as nat),
                    cache.files(),
                ) by {
                    lemma_fid_values(slot, lv as nat);
                    assert(self.buffers[lv] == old(self).buffers[lv]);
                }
            }
        }
        let ghost pre = *self;
        let ghost prefiles = cache.files();
        proof {
            assert(self.buffers[level as int].written@ == sep_prefix(s, level as nat, cold));
            lemma_sep_count_mono(n - 1, level as nat);
            assert(cold < n);
            lemma_sep_count_mono(n, level as nat);
        }
        let flushed = self.buffers[level].add_i64(item, cache);
        proof {
            assert(self.buffers[level as int].written@ =~= sep_prefix(s, level as nat, cnew)) by {
                assert(sep_prefix(s, level as nat, cold).push(item) =~= sep_prefix(
                    s,
                    level as nat,
                    cnew,
                ));
            }
            assert forall|lv: int|
                0 <= lv < self.buffers.len() && lv != level implies self.buffers[lv]
                == pre.buffers[lv] && writer_level_ok(
                #[trigger] self.buffers[lv],
                s,
                slot,
                lv as nat,
                if lv < level {
                    sep_count(n, lv as nat)
                } else {
                    sep_count(n - 1, lv as nat)
                },
                cache.files(),
            ) by {
                lemma_fid_values(slot, lv as nat);
                lemma_fid_values(slot, level as nat);
                assert(fence_fid(slot, lv as nat) != fence_fid(slot, level as nat));
                lemma_one_file_keeps(
                    prefiles,
                    cache.files(),
                    fence_fid(slot, level as nat),
                    fence_fid(slot, lv as nat),
                );
            }
            lemma_incr_div(cold, 512);
            lemma_fid_values(slot, level as nat);
            assert forall|l2: nat|
                self.buffers.len() as nat <= l2 <= 13 implies !cache.files().contains_key(
                #[trigger] fence_fid(slot, l2),
            ) by {
                lemma_fid_values(slot, l2);
                lemma_one_file_keeps(
                    prefiles,
                    cache.files(),
                    fence_fid(slot, level as nat),
                    fence_fid(slot, l2),
                );
            }
            lemma_fences_from_one(prefiles, cache.files(), fence_fid(slot, level as nat), slot);
            if level == old(self).buffers.len() {
                lemma_fences_from_insert(
                    old(cache).files(),
                    prefiles,
                    fence_fid(slot, level as nat),
                    Seq::empty(),
                    slot,
                );
            } else {
                assert(fences_only_changed(old(cache).files(), prefiles, slot));
            }
            lemma_fences_chain(old(cache).files(), prefiles, cache.files(), slot);
        }
        if flushed {
            proof {
                assert(cnew % 512 == 0);
                assert(sep_count(n, (level + 1) as nat) == sep_count(n - 1, (level + 1) as nat)
                    + 1);
                lemma_sep_lift(s, level as nat, sep_count(n, (level + 1) as nat) - 1);
                assert(512 * (sep_count(n, (level + 1) as nat) - 1) + 511 == cnew - 1)
                    by (nonlinear_arith)
                    requires
                        cnew % 512 == 0,
                        cnew >= 1,
                        sep_count(n, (level + 1) as nat) == cnew / 512,
                        cnew == 512 * (cnew / 512) + cnew % 512,
                ;
                assert(item == sep_at(
                    s,
                    (level + 1) as nat,
                    sep_count(n, (level + 1) as nat) - 1,
                ));
                assert(level + 1 <= self.buffers.len());
                assert(sep_count(n, level as nat) >= 1);
            }
            let ghost midfiles = cache.files();
            self.add_item_level(item, level + 1, cache);
            proof {
                lemma_fences_chain(old(cache).files(), midfiles, cache.files(), slot);
                assert(self.slot == old(self).slot);
                assert(self.top_level == old(self).top_level);
                assert(old(self).buffers.len() <= self.buffers.len() <= old(self).buffers.len()
                    + 1);
                assert(self.buffers.len() <= 13);
                assert(forall|lv: int|
                    0 <= lv < self.buffers.len() ==> writer_level_ok(
                        #[trigger] self.buffers[lv],
                        s,
                        slot,
                        lv as nat,
                        sep_count(n, lv as nat),
                        cache.files(),
                    ));
                assert(forall|lv: int|
                    0 <= lv < self.buffers.len() ==> #[trigger] sep_count(n, lv as nat) >= 1);
                assert(sep_count(n, self.buffers.len() as nat) == 0);
                assert(forall|l2: nat|
                    self.buffers.len() as nat <= l2 <= 13 ==> !cache.files().contains_key(
                        #[trigger] fence_fid(slot, l2),
                    ));
            }
        } else {
            proof {
                assert(sep_count(n, (level + 1) as nat) == sep_count(n - 1, (level + 1) as nat));
                assert forall|lv: int|
                    level < lv < self.buffers.len() implies #[trigger] sep_count(n, lv as nat)
                    == sep_count(n - 1, lv as nat) by {
                    lemma_counts_eq_from(n, n - 1, (level + 1) as nat, lv as nat);
                }
                lemma_counts_eq_from(
                    n,
                    n - 1,
                    (level + 1) as nat,
                    self.buffers.len() as nat,
                );
                assert(sep_count(n, self.buffers.len() as nat) == 0);
                assert forall|lv: int|
                    0 <= lv < self.buffers.len() implies writer_level_ok(
                    #[trigger] self.buffers[lv],
                    s,
                    slot,
                    lv as nat,
                    sep_count(n, lv as nat),
                    cache.files(),
                ) && sep_count(n, lv as nat) >= 1 by {
                    if lv > level {
                        lemma_counts_mono_n(n - 1, n, lv as nat);
                    }
                }
            }
        }
    }

    /// Append one pair with a key above every present key; a completed leaf
    /// page hands its last key up to the fences.
    pub fn add_item<A: Cache>(&mut self, item: (i64, i64), cache: &mut A)
        requires
            old(self).wf(old(cache).files()),
            item.0 != TOMBSTONE,
            item.1 != TOMBSTONE,
            old(self).items().len() > 0 ==> item.0 > old(self).items().last().0,
            old(self).items().len() + 1 < 0x1_0000_0000_0000_0000,
        ensures
            final(self).wf(final(cache).files()),
            final(self).slot == old(self).slot,
            final(self).items() == old(self).items().push(item),
            files_unchanged_except(
                old(cache).files(),
                final(cache).files(),
                old(self).slot,
                14,
            ),
    {
        let ghost s0 = self.items();
        let ghost n0 = s0.len() as int;
        let ghost s = s0.push(item);
        let ghost n = n0 + 1;
        let ghost slot = self.slot;
        proof {
            crate::compaction::lemma_stream_push(s0, item);
            lemma_incr_div(n0, 256);
            lemma_num_levels_bound(n0);
            lemma_num_levels_bound(n);
        }
        let flushed = self.top_level.add_pair(item, cache);
        proof {
            lemma_fid_values(slot, 0);
            assert forall|lv: int|
                0 <= lv < self.buffers.len() implies writer_level_ok(
                #[trigger] self.buffers[lv],
                s,
                slot,
                lv as nat,
                sep_count(n0, lv as nat),
                cache.files(),
            ) by {
                lemma_fid_values(slot, lv as nat);
                lemma_sep_count_mono(n0, lv as nat);
                lemma_sep_stable(s0, item, lv as nat, sep_count(n0, lv as nat));
                lemma_one_file_keeps(
                    old(cache).files(),
                    cache.files(),
                    items_fid(slot),
                    fence_fid(slot, lv as nat),
                );
            }
            assert forall|l2: nat|
                self.buffers.len() as nat <= l2 <= 13 implies !cache.files().contains_key(
                #[trigger] fence_fid(slot, l2),
            ) by {
                lemma_fid_values(slot, l2);
                lemma_one_file_keeps(
                    old(cache).files(),
                    cache.files(),
                    items_fid(slot),
                    fence_fid(slot, l2),
                );
            }
        }
        if flushed {
            proof {
                assert(n % 256 == 0);
                assert(sep_count(n, 0) == sep_count(n0, 0) + 1);
                assert(sep_index(0, sep_count(n, 0) - 1) == n - 1) by (nonlinear_arith)
                    requires
                        n % 256 == 0,
                        n >= 1,
                        sep_count(n, 0) == n / 256,
                        n == 256 * (n / 256) + n % 256,
                        sep_index(0, sep_count(n, 0) - 1) == 256 * (sep_count(n, 0) - 1) + 255,
                ;
                assert(item.0 == sep_at(s, 0, sep_count(n, 0) - 1));
                lemma_levels_char(n0, 0);
                assert forall|lv: int|
                    0 <= lv < self.buffers.len() implies #[trigger] sep_count(n0, lv as nat)
                    >= 1 by {
                    assert(lv < num_levels(n0));
                }
            }
            let ghost midfiles = cache.files();
            self.add_item_level(item.0, 0, cache);
            proof {
                lemma_num_levels_converse_from(n, 0, self.buffers.len() as nat);
                assert(self.buffers.len() == num_levels(n));
                assert(self.top_level.wf(cache.files())) by {
                    lemma_fid_values(slot, 0);
                    assert(!fence_owned(slot, items_fid(slot)));
                    assert(cache.files().contains_key(items_fid(slot)) == midfiles.contains_key(
                        items_fid(slot),
                    ));
                }
                assert forall|id: u64|
                    !si_owns(slot, 14, id) implies (cache.files().contains_key(id) == old(
                    cache,
                ).files().contains_key(id) && (old(cache).files().contains_key(id)
                    ==> cache.files()[id] == old(cache).files()[id])) by {
                    assert(!fence_owned(slot, id));
                    assert(cache.files().contains_key(id) == midfiles.contains_key(id));
                    lemma_one_file_keeps(old(cache).files(), midfiles, items_fid(slot), id);
                }
            }
        } else {
            proof {
                assert forall|id: u64|
                    !si_owns(slot, 14, id) implies (cache.files().contains_key(id) == old(
                    cache,
                ).files().contains_key(id) && (old(cache).files().contains_key(id)
                    ==> cache.files()[id] == old(cache).files()[id])) by {
                    lemma_one_file_keeps(old(cache).files(), cache.files(), items_fid(slot), id);
                }
                assert(sep_count(n, 0) == sep_count(n0, 0));
                lemma_num_levels_from_counts(n, n0, 0);
                assert forall|lv: int|
                    0 <= lv < self.buffers.len() implies #[trigger] sep_count(n, lv as nat)
                    == sep_count(n0, lv as nat) by {
                    lemma_counts_eq_from(n, n0, 0, lv as nat);
                }
            }
        }
    }

    /// Seal the index: pad and flush the open leaf page and every open
    /// fence page. Returns the number of fence levels; by construction the
    /// top fence file is exactly one page.
    pub fn finish<A: Cache>(&mut self, cache: &mut A) -> (levels: usize)
        requires
            old(self).wf(old(cache).files()),
            old(self).items().len() >= 1,
        ensures
            levels == num_levels(old(self).items().len() as int),
            levels <= 8,
            si_wf(old(self).items(), old(self).slot, levels as nat, final(cache).files()),
            final(self).items() == old(self).items(),
            final(self).slot == old(self).slot,
            files_unchanged_except(
                old(cache).files(),
                final(cache).files(),
                old(self).slot,
                14,
            ),
            forall|l2: nat|
                levels as nat <= l2 <= 13 ==> !final(cache).files().contains_key(
                    #[trigger] fence_fid(old(self).slot, l2),
                ),
    {
        let ghost s = self.items();
        let ghost n = s.len() as int;
        let ghost slot = self.slot;
        let ghost levels_g = self.buffers.len() as int;
        proof {
            lemma_fid_values(slot, 0);
            lemma_num_levels_bound(n);
        }
        self.top_level.finish(cache);
        proof {
            assert forall|lv: int|
                0 <= lv < self.buffers.len() implies writer_level_ok(
                #[trigger] self.buffers[lv],
                s,
                slot,
                lv as nat,
                sep_count(n, lv as nat),
                cache.files(),
            ) by {
                lemma_fid_values(slot, lv as nat);
                lemma_one_file_keeps(
                    old(cache).files(),
                    cache.files(),
                    items_fid(slot),
                    fence_fid(slot, lv as nat),
                );
            }
            assert forall|id: u64|
                !si_owns(slot, 14, id) implies (cache.files().contains_key(id) == old(
                cache,
            ).files().contains_key(id) && (old(cache).files().contains_key(id)
                ==> cache.files()[id] == old(cache).files()[id])) by {
                lemma_one_file_keeps(old(cache).files(), cache.files(), items_fid(slot), id);
            }
            assert forall|l2: nat|
                self.buffers.len() as nat <= l2 <= 13 implies !cache.files().contains_key(
                #[trigger] fence_fid(slot, l2),
            ) by {
                lemma_fid_values(slot, l2);
                lemma_one_file_keeps(
                    old(cache).files(),
                    cache.files(),
                    items_fid(slot),
                    fence_fid(slot, l2),
                );
            }
        }
        let total = self.buffers.len();
        let mut l: usize = 0;
        while l < total
            invariant
                total == self.buffers.len(),
                total as int == levels_g,
                s == self.items(),
                n == s.len() as int,
                slot == self.slot,
                valid_stream(s),
                1 <= n < 0x1_0000_0000_0000_0000,
                slot_ok(slot),
                total <= 12,
                l <= total,
                cache.files().contains_key(items_fid(slot)),
                cache.files()[items_fid(slot)] == leaf_file(s),
                forall|lv: int|
                    l <= lv < total ==> writer_level_ok(
                        #[trigger] self.buffers[lv],
                        s,
                        slot,
                        lv as nat,
                        sep_count(n, lv as nat),
                        cache.files(),
                    ),
                forall|lv: int|
                    0 <= lv < l ==> cache.files().contains_key(
                        #[trigger] fence_fid(slot, lv as nat),
                    ) && cache.files()[fence_fid(slot, lv as nat)] == fence_file(s, lv as nat),
                forall|l2: nat|
                    total as nat <= l2 <= 13 ==> !cache.files().contains_key(
                        #[trigger] fence_fid(slot, l2),
                    ),
                files_unchanged_except(old(cache).files(), cache.files(), slot, 14),
            decreases total - l,
        {
            let ghost lw0 = self.buffers[l as int];
            let ghost prev_files = cache.files();
            self.buffers[l].finish(cache);
            proof {
                lemma_fid_values(slot, l as nat);
                assert(cache.files()[fence_fid(slot, l as nat)] == padded_pages(
                    sep_prefix(s, l as nat, sep_count(n, l as nat)),
                ));
                assert(sep_prefix(s, l as nat, sep_count(n, l as nat)) =~= sep_seq(s, l as nat));
                assert forall|lv: int|
                    l + 1 <= lv < total implies writer_level_ok(
                    #[trigger] self.buffers[lv],
                    s,
                    slot,
                    lv as nat,
                    sep_count(n, lv as nat),
                    cache.files(),
                ) by {
                    lemma_fid_values(slot, lv as nat);
                    assert(self.buffers[lv].file_id != fence_fid(slot, l as nat));
                    lemma_one_file_keeps(
                        prev_files,
                        cache.files(),
                        fence_fid(slot, l as nat),
                        fence_fid(slot, lv as nat),
                    );
                }
                assert forall|lv: int|
                    0 <= lv < l implies cache.files().contains_key(
                    #[trigger] fence_fid(slot, lv as nat),
                ) && cache.files()[fence_fid(slot, lv as nat)] == fence_file(s, lv as nat) by {
                    lemma_fid_values(slot, lv as nat);
                    lemma_one_file_keeps(
                        prev_files,
                        cache.files(),
                        fence_fid(slot, l as nat),
                        fence_fid(slot, lv as nat),
                    );
                }
                assert(cache.files().contains_key(items_fid(slot)) && cache.files()[items_fid(
                    slot,
                )] == leaf_file(s)) by {
                    lemma_fid_values(slot, l as nat);
                    lemma_one_file_keeps(
                        prev_files,
                        cache.files(),
                        fence_fid(slot, l as nat),
                        items_fid(slot),
                    );
                }
                assert forall|id: u64|
                    !si_owns(slot, 14, id) implies (cache.files().contains_key(id) == old(cache).files().contains_key(id) && (old(cache).files().contains_key(id)
                    ==> cache.files()[id] == old(cache).files()[id])) by {
                    assert(id != fence_fid(slot, l as nat));
                    lemma_one_file_keeps(prev_files, cache.files(), fence_fid(slot, l as nat), id);
                }
                assert forall|l2: nat|
                    total as nat <= l2 <= 13 implies !cache.files().contains_key(
                    #[trigger] fence_fid(slot, l2),
                ) by {
                    lemma_fid_values(slot, l2);
                    lemma_fid_values(slot, l as nat);
                    lemma_one_file_keeps(
                        prev_files,
                        cache.files(),
                        fence_fid(slot, l as nat),
                        fence_fid(slot, l2),
                    );
                }
            }
            l = l + 1;
        }
        proof {
            lemma_num_levels_bound(n);
            assert(l == total);
            assert forall|l2: nat|
                l2 < total as nat implies cache.files().contains_key(
                #[trigger] fence_fid(slot, l2),
            ) && cache.files()[fence_fid(slot, l2)] == fence_file(s, l2) by {
                let lv = l2 as int;
                assert(0 <= lv < l as int);
                assert(cache.files().contains_key(fence_fid(slot, lv as nat))
                    && cache.files()[fence_fid(slot, lv as nat)] == fence_file(s, lv as nat));
                assert(lv as nat == l2);
            }
        }
        total
    }
}

/// The fence invariant: the level-0 separator of a complete leaf page
/// bounds every key stored on that page.
pub proof fn lemma_fence_invariant(items: Seq<(i64, i64)>, p: int, i: int)
    requires
        valid_stream(items),
        0 <= p < sep_count(items.len() as int, 0),
        256 * p <= i < 256 * p + 256,
        0 <= i < items.len(),
    ensures
        items[i].0 <= sep_at(items, 0, p),
        fence_word(items, 0, p) == sep_at(items, 0, p),
{
    lemma_sep_bounds(items, 0, p, i);
}

/// The padding invariant: every page of an index file is a whole page of
/// 512 words, and the top fence file is exactly one page.
pub proof fn lemma_padding_invariant(items: Seq<(i64, i64)>, slot: u64, levels: nat, files: Map<
    u64,
    Seq<Seq<i64>>,
>)
    requires
        si_wf(items, slot, levels, files),
    ensures
        forall|q: int|
            0 <= q < files[items_fid(slot)].len() ==> (#[trigger] files[items_fid(slot)][q]).len()
                == 512,
        forall|l2: nat, q: int|
            l2 < levels && 0 <= q < files[fence_fid(slot, l2)].len() ==> (#[trigger] (files[
                fence_fid(slot, l2)
            ][q])).len() == 512,
        levels >= 1 ==> files[fence_fid(slot, (levels - 1) as nat)].len() == 1,
{
    let n = items.len() as int;
    assert forall|l2: nat, q: int|
        l2 < levels && 0 <= q < files[fence_fid(slot, l2)].len() implies (#[trigger] (files[
        fence_fid(slot, l2)
    ][q])).len() == 512 by {
        assert(files[fence_fid(slot, l2)] == fence_file(items, l2));
    }
    if levels >= 1 {
        let top = (levels - 1) as nat;
        lemma_num_levels_bound(n);
        let c = sep_count(n, top);
        assert(c >= 1);
        lemma_sep_count_mono(n, levels);
        assert(sep_count(n, levels) == 0);
        assert(c / 512 == 0);
        vstd::arithmetic::div_mod::lemma_fundamental_div_mod(c, 512);
        assert(c < 512);
        assert((c + 511) / 512 == 1) by (nonlinear_arith)
            requires
                1 <= c < 512,
        ;
        assert(files[fence_fid(slot, top)] == fence_file(items, top));
        assert(sep_seq(items, top).len() == c);
    }
}

/// Index idempotence: the files of a sound index pin its pair stream, so
/// streaming an index built from a sorted stream yields that stream.
pub proof fn lemma_si_identity(
    s: Seq<(i64, i64)>,
    r: BTreeReader,
    files: Map<u64, Seq<Seq<i64>>>,
)
    requires
        si_wf(s, r.slot, r.levels as nat, files),
        r.wf(files),
    ensures
        r.items@ == s,
{
    lemma_si_items_unique(r.items@, s, r.slot, r.levels as nat, files);
}

} // verus!
