//! Sorted sequences of (key, value) pairs and their map models. These are
//! the mathematical vocabulary shared by the memtable, the static indexes,
//! the merge, and the database facade.
use vstd::prelude::*;

verus! {

use crate::TOMBSTONE;

/// Keys strictly ascend, so every key occurs once.
pub open spec fn sorted_unique(s: Seq<(i64, i64)>) -> bool {
    forall|i: int, j: int| 0 <= i < j < s.len() ==> s[i].0 < s[j].0
}

/// A stream the store may hold: sorted, with no key or value equal to the
/// reserved sentinel.
pub open spec fn valid_stream(s: Seq<(i64, i64)>) -> bool {
    &&& sorted_unique(s)
    &&& forall|i: int| 0 <= i < s.len() ==> (#[trigger] s[i]).0 < TOMBSTONE && s[i].1 != TOMBSTONE
}

/// The map a pair sequence denotes; later entries win, so on a
/// `sorted_unique` sequence every entry is visible.
pub open spec fn seq_map(s: Seq<(i64, i64)>) -> Map<i64, i64>
    decreases s.len(),
{
    if s.len() == 0 {
        Map::empty()
    } else {
        seq_map(s.drop_last()).insert(s.last().0, s.last().1)
    }
}

/// The value a pair sequence associates with `k`, if any.
pub open spec fn lookup(s: Seq<(i64, i64)>, k: i64) -> Option<i64> {
    if seq_map(s).contains_key(k) {
        Some(seq_map(s)[k])
    } else {
        None
    }
}

/// The pairs of `s` whose keys lie in `[lo, hi]`.
pub open spec fn filter_range(s: Seq<(i64, i64)>, lo: i64, hi: i64) -> Seq<(i64, i64)> {
    s.filter(|p: (i64, i64)| lo <= p.0 && p.0 <= hi)
}

/// Every key of `s` is below `x`.
pub open spec fn all_keys_lt(s: Seq<(i64, i64)>, x: i64) -> bool {
    forall|i: int| 0 <= i < s.len() ==> (#[trigger] s[i]).0 < x
}

/// Every key of `s` is above `x`.
pub open spec fn all_keys_gt(s: Seq<(i64, i64)>, x: i64) -> bool {
    forall|i: int| 0 <= i < s.len() ==> (#[trigger] s[i]).0 > x
}

/// A key is in the map of `s` exactly when some entry carries it.
pub proof fn lemma_seq_map_contains(s: Seq<(i64, i64)>, k: i64)
    ensures
        seq_map(s).contains_key(k) <==> exists|i: int| 0 <= i < s.len() && (#[trigger] s[i]).0 == k,
    decreases s.len(),
{
    if s.len() > 0 {
        lemma_seq_map_contains(s.drop_last(), k);
        if seq_map(s).contains_key(k) && s.last().0 != k {
            let i = choose|i: int| 0 <= i < s.drop_last().len() && (#[trigger] s.drop_last()[i]).0
                == k;
            assert(s[i].0 == k);
        }
        if exists|i: int| 0 <= i < s.len() && (#[trigger] s[i]).0 == k {
            let i = choose|i: int| 0 <= i < s.len() && (#[trigger] s[i]).0 == k;
            if i < s.len() - 1 {
                assert(s.drop_last()[i].0 == k);
            }
        }
    }
}

/// On a sequence with strictly ascending keys, the map sends each entry's
/// key to that entry's value.
pub proof fn lemma_seq_map_index(s: Seq<(i64, i64)>, i: int)
    requires
        sorted_unique(s),
        0 <= i < s.len(),
    ensures
        seq_map(s).contains_key(s[i].0),
        seq_map(s)[s[i].0] == s[i].1,
    decreases s.len(),
{
    if i == s.len() - 1 {
    } else {
        assert(s.drop_last()[i] == s[i]);
        lemma_seq_map_index(s.drop_last(), i);
        assert(s[i].0 < s.last().0);
    }
}

/// The map of a concatenation: the right part wins, though with disjoint
/// keys nothing collides.
pub proof fn lemma_seq_map_concat(a: Seq<(i64, i64)>, b: Seq<(i64, i64)>)
    ensures
        seq_map(a + b) == seq_map(a).union_prefer_right(seq_map(b)),
    decreases b.len(),
{
    if b.len() == 0 {
        assert(a + b =~= a);
        assert(seq_map(a).union_prefer_right(seq_map(b)) =~= seq_map(a));
    } else {
        lemma_seq_map_concat(a, b.drop_last());
        assert((a + b).drop_last() =~= a + b.drop_last());
        assert((a + b).last() == b.last());
        assert(seq_map(a).union_prefer_right(seq_map(b.drop_last())).insert(
            b.last().0,
            b.last().1,
        ) =~= seq_map(a).union_prefer_right(seq_map(b.drop_last()).insert(b.last().0, b.last().1)));
    }
}

/// The number of distinct keys of a `sorted_unique` sequence is its length.
pub proof fn lemma_seq_map_len(s: Seq<(i64, i64)>)
    requires
        sorted_unique(s),
    ensures
        seq_map(s).dom().finite(),
        seq_map(s).dom().len() == s.len(),
    decreases s.len(),
{
    if s.len() == 0 {
        assert(seq_map(s).dom() =~= Set::<i64>::empty());
    } else {
        lemma_seq_map_len(s.drop_last());
        lemma_seq_map_contains(s.drop_last(), s.last().0);
        assert(!seq_map(s.drop_last()).contains_key(s.last().0));
        assert(seq_map(s).dom() =~= seq_map(s.drop_last()).dom().insert(s.last().0));
        vstd::set::axiom_set_insert_len(seq_map(s.drop_last()).dom(), s.last().0);
    }
}

/// Splitting a sorted sequence around one entry: both sides stay sorted and
/// their keys sit strictly on their side of the pivot.
pub proof fn lemma_sorted_split(a: Seq<(i64, i64)>, p: (i64, i64), c: Seq<(i64, i64)>)
    requires
        sorted_unique(a + seq![p] + c),
    ensures
        sorted_unique(a),
        sorted_unique(c),
        all_keys_lt(a, p.0),
        all_keys_gt(c, p.0),
{
    let s = a + seq![p] + c;
    assert forall|i: int| 0 <= i < a.len() implies (#[trigger] a[i]).0 < p.0 by {
        assert(s[i] == a[i] && s[a.len() as int] == p);
    }
    assert forall|i: int| 0 <= i < c.len() implies (#[trigger] c[i]).0 > p.0 by {
        assert(s[a.len() + 1 + i] == c[i] && s[a.len() as int] == p);
    }
    assert forall|i: int, j: int| 0 <= i < j < a.len() implies a[i].0 < a[j].0 by {
        assert(s[i] == a[i] && s[j] == a[j]);
    }
    assert forall|i: int, j: int| 0 <= i < j < c.len() implies c[i].0 < c[j].0 by {
        assert(s[a.len() + 1 + i] == c[i] && s[a.len() + 1 + j] == c[j]);
    }
}

/// The converse: flanking a pivot with smaller keys on the left and larger
/// on the right yields a sorted sequence.
pub proof fn lemma_sorted_join(a: Seq<(i64, i64)>, p: (i64, i64), c: Seq<(i64, i64)>)
    requires
        sorted_unique(a),
        sorted_unique(c),
        all_keys_lt(a, p.0),
        all_keys_gt(c, p.0),
    ensures
        sorted_unique(a + seq![p] + c),
{
    let s = a + seq![p] + c;
    assert forall|i: int, j: int| 0 <= i < j < s.len() implies s[i].0 < s[j].0 by {
        if i < a.len() {
            assert(s[i] == a[i]);
        } else if i == a.len() {
            assert(s[i] == p);
        } else {
            assert(s[i] == c[i - a.len() - 1]);
        }
        if j < a.len() {
            assert(s[j] == a[j]);
        } else if j == a.len() {
            assert(s[j] == p);
        } else {
            assert(s[j] == c[j - a.len() - 1]);
        }
    }
}

/// A bounded-key sequence's map cannot hold an out-of-range key.
pub proof fn lemma_bounded_not_contains(s: Seq<(i64, i64)>, k: i64)
    requires
        all_keys_lt(s, k) || all_keys_gt(s, k),
    ensures
        !seq_map(s).contains_key(k),
{
    lemma_seq_map_contains(s, k);
}

/// Two sorted-unique sequences denoting the same map are the same sequence.
pub proof fn lemma_sorted_unique_same_map(a: Seq<(i64, i64)>, b: Seq<(i64, i64)>)
    requires
        sorted_unique(a),
        sorted_unique(b),
        seq_map(a) == seq_map(b),
    ensures
        a == b,
    decreases a.len(),
{
    lemma_seq_map_len(a);
    lemma_seq_map_len(b);
    if a.len() == 0 {
        assert(a =~= b);
    } else {
        let ka = a.last().0;
        let kb = b.last().0;
        lemma_seq_map_index(a, a.len() - 1);
        lemma_seq_map_index(b, b.len() - 1);
        lemma_seq_map_contains(b, ka);
        let ib = choose|i: int| 0 <= i < b.len() && (#[trigger] b[i]).0 == ka;
        assert(kb >= ka);
        lemma_seq_map_contains(a, kb);
        let ia = choose|i: int| 0 <= i < a.len() && (#[trigger] a[i]).0 == kb;
        assert(ka >= kb);
        assert(ka == kb);
        assert(a.last().1 == seq_map(a)[ka] && b.last().1 == seq_map(b)[ka]);
        lemma_seq_map_contains(a.drop_last(), ka);
        lemma_seq_map_contains(b.drop_last(), ka);
        assert(!seq_map(a.drop_last()).contains_key(ka));
        assert(!seq_map(b.drop_last()).contains_key(ka));
        assert(seq_map(a.drop_last()) =~= seq_map(a).remove(ka));
        assert(seq_map(b.drop_last()) =~= seq_map(b).remove(ka));
        assert(sorted_unique(a.drop_last())) by {
            assert(forall|i: int|
                0 <= i < a.len() - 1 ==> a.drop_last()[i] == a[i]);
        }
        assert(sorted_unique(b.drop_last())) by {
            assert(forall|i: int|
                0 <= i < b.len() - 1 ==> b.drop_last()[i] == b[i]);
        }
        lemma_sorted_unique_same_map(a.drop_last(), b.drop_last());
        assert(a =~= a.drop_last().push(a.last()));
        assert(b =~= b.drop_last().push(b.last()));
    }
}

/// A sequence with no key in range filters to nothing.
pub proof fn lemma_filter_range_empty(s: Seq<(i64, i64)>, lo: i64, hi: i64)
    requires
        forall|i: int| 0 <= i < s.len() ==> !((lo <= (#[trigger] s[i]).0) && s[i].0 <= hi),
    ensures
        filter_range(s, lo, hi) == Seq::<(i64, i64)>::empty(),
    decreases s.len(),
{
    reveal_with_fuel(Seq::filter, 1);
    if s.len() > 0 {
        lemma_filter_range_empty(s.drop_last(), lo, hi);
        assert(filter_range(s, lo, hi) =~= Seq::<(i64, i64)>::empty());
    } else {
        assert(filter_range(s, lo, hi) =~= Seq::<(i64, i64)>::empty());
    }
}

/// A sequence with every key in range filters to itself.
pub proof fn lemma_filter_range_keep(s: Seq<(i64, i64)>, lo: i64, hi: i64)
    requires
        forall|i: int| 0 <= i < s.len() ==> (lo <= (#[trigger] s[i]).0) && s[i].0 <= hi,
    ensures
        filter_range(s, lo, hi) == s,
    decreases s.len(),
{
    reveal_with_fuel(Seq::filter, 1);
    if s.len() > 0 {
        lemma_filter_range_empty(Seq::<(i64, i64)>::empty(), lo, hi);
        lemma_filter_range_keep(s.drop_last(), lo, hi);
        assert(filter_range(s, lo, hi) =~= s);
    } else {
        assert(filter_range(s, lo, hi) =~= s);
    }
}

/// On a sorted sequence, the range filter keeps exactly the slice between
/// the first in-range position and the first position past the range.
pub proof fn lemma_filter_segment(s: Seq<(i64, i64)>, lo: i64, hi: i64, g: int, end: int)
    requires
        0 <= g <= end <= s.len(),
        forall|i: int| 0 <= i < g ==> (#[trigger] s[i]).0 < lo,
        forall|i: int| g <= i < end ==> lo <= (#[trigger] s[i]).0 && s[i].0 <= hi,
        forall|i: int| end <= i < s.len() ==> (#[trigger] s[i]).0 > hi,
    ensures
        filter_range(s, lo, hi) == s.subrange(g, end),
{
    let pred = |p: (i64, i64)| lo <= p.0 && p.0 <= hi;
    let a = s.subrange(0, g);
    let b = s.subrange(g, end);
    let c = s.subrange(end, s.len() as int);
    assert(s =~= (a + b) + c);
    Seq::filter_distributes_over_add(a + b, c, pred);
    Seq::filter_distributes_over_add(a, b, pred);
    lemma_filter_range_empty(a, lo, hi);
    lemma_filter_range_empty(c, lo, hi);
    lemma_filter_range_keep(b, lo, hi);
    assert(filter_range(s, lo, hi) == filter_range((a + b) + c, lo, hi));
    assert(filter_range(s, lo, hi) =~= b);
}

/// The range filter of a sorted stream is again a sorted stream, and its
/// map is the unfiltered map restricted to the range.
pub proof fn lemma_filter_range_valid(s: Seq<(i64, i64)>, lo: i64, hi: i64)
    requires
        valid_stream(s),
    ensures
        valid_stream(filter_range(s, lo, hi)),
        forall|k: i64|
            #[trigger] seq_map(filter_range(s, lo, hi)).contains_key(k) <==> (seq_map(
                s,
            ).contains_key(k) && lo <= k <= hi),
        forall|k: i64|
            seq_map(filter_range(s, lo, hi)).contains_key(k) ==> seq_map(filter_range(s, lo, hi))[k]
                == seq_map(s)[k],
    decreases s.len(),
{
    reveal_with_fuel(Seq::filter, 1);
    let f = filter_range(s, lo, hi);
    if s.len() == 0 {
        assert(f =~= Seq::<(i64, i64)>::empty());
    } else {
        let s0 = s.drop_last();
        let p = s.last();
        assert(forall|i: int| 0 <= i < s0.len() ==> s0[i] == s[i]);
        lemma_filter_range_valid(s0, lo, hi);
        let f0 = filter_range(s0, lo, hi);
        assert forall|i: int| 0 <= i < f0.len() implies (#[trigger] f0[i]).0 < p.0 && f0[i].1
            != TOMBSTONE by {
            lemma_seq_map_index(f0, i);
            lemma_seq_map_contains(f0, f0[i].0);
            lemma_seq_map_contains(s0, f0[i].0);
            let j = choose|j: int| 0 <= j < s0.len() && (#[trigger] s0[j]).0 == f0[i].0;
            assert(s[j].0 < p.0);
            lemma_seq_map_index(s0, j);
        }
        if lo <= p.0 && p.0 <= hi {
            assert(f == f0.push(p));
            assert(valid_stream(f)) by {
                assert(forall|i: int| 0 <= i < f0.len() ==> f[i] == f0[i]);
                assert(f[f.len() - 1] == p);
            }
            assert(f.drop_last() =~= f0);
            assert(seq_map(f) == seq_map(f0).insert(p.0, p.1));
            assert forall|k: i64|
                #[trigger] seq_map(f).contains_key(k) <==> (seq_map(s).contains_key(k) && lo <= k
                    <= hi) by {
                lemma_seq_map_contains(s, k);
                lemma_seq_map_contains(s0, k);
            }
        } else {
            assert(f == f0);
            assert forall|k: i64|
                #[trigger] seq_map(f).contains_key(k) <==> (seq_map(s).contains_key(k) && lo <= k
                    <= hi) by {
                lemma_seq_map_contains(s, k);
                lemma_seq_map_contains(s0, k);
            }
            assert forall|k: i64|
                seq_map(f).contains_key(k) implies seq_map(f)[k] == seq_map(s)[k] by {
                assert(k != p.0);
            }
        }
    }
}

/// Each stream of a stack, cut to a key range.
pub open spec fn filtered_streams(streams: Seq<Seq<(i64, i64)>>, lo: i64, hi: i64) -> Seq<
    Seq<(i64, i64)>,
> {
    Seq::new(streams.len(), |t: int| filter_range(streams[t], lo, hi))
}

/// The merged view of the filtered streams is the merged view of the
/// streams, cut to the range.
pub proof fn lemma_combined_filtered(streams: Seq<Seq<(i64, i64)>>, lo: i64, hi: i64)
    requires
        forall|t: int| 0 <= t < streams.len() ==> valid_stream(#[trigger] streams[t]),
    ensures
        forall|k: i64|
            #[trigger] combined(filtered_streams(streams, lo, hi)).contains_key(k) <==> (combined(
                streams,
            ).contains_key(k) && lo <= k <= hi),
        forall|k: i64|
            combined(filtered_streams(streams, lo, hi)).contains_key(k) ==> combined(
                filtered_streams(streams, lo, hi),
            )[k] == combined(streams)[k],
    decreases streams.len(),
{
    let fs = filtered_streams(streams, lo, hi);
    if streams.len() == 0 {
    } else {
        assert(forall|t: int|
            0 <= t < streams.len() - 1 ==> streams.drop_first()[t] == streams[t + 1]);
        lemma_combined_filtered(streams.drop_first(), lo, hi);
        lemma_filter_range_valid(streams[0], lo, hi);
        let fs2 = filtered_streams(streams.drop_first(), lo, hi);
        assert(fs.drop_first() =~= fs2);
        assert(fs[0] == filter_range(streams[0], lo, hi));
        assert(combined(fs) == combined(fs2).union_prefer_right(seq_map(fs[0])));
    }
}

/// The map of a one-pair sequence.
pub proof fn lemma_seq_map_singleton(p: (i64, i64))
    ensures
        seq_map(seq![p]) == Map::<i64, i64>::empty().insert(p.0, p.1),
{
    let s = seq![p];
    assert(s.drop_last() =~= Seq::<(i64, i64)>::empty());
    assert(seq_map(s.drop_last()) == Map::<i64, i64>::empty());
    assert(seq_map(s) == seq_map(s.drop_last()).insert(s.last().0, s.last().1));
    assert(s.last() == p);
}

/// Inserting a sentinel-free pair into a sentinel-free sorted sequence
/// leaves it sentinel-free.
pub proof fn lemma_valid_stream_insert(s: Seq<(i64, i64)>, s2: Seq<(i64, i64)>, k: i64, v: i64)
    requires
        valid_stream(s),
        sorted_unique(s2),
        seq_map(s2) == seq_map(s).insert(k, v),
        k != TOMBSTONE,
        v != TOMBSTONE,
    ensures
        valid_stream(s2),
{
    assert forall|i: int|
        0 <= i < s2.len() implies (#[trigger] s2[i]).0 < TOMBSTONE && s2[i].1 != TOMBSTONE by {
        lemma_seq_map_index(s2, i);
        if s2[i].0 != k {
            lemma_seq_map_contains(s, s2[i].0);
            let j = choose|j: int| 0 <= j < s.len() && (#[trigger] s[j]).0 == s2[i].0;
            lemma_seq_map_index(s, j);
        }
    }
}

/// The merged view of a stack of streams, newest first: a newer stream's
/// entry for a key hides every older one.
pub open spec fn combined(streams: Seq<Seq<(i64, i64)>>) -> Map<i64, i64>
    decreases streams.len(),
{
    if streams.len() == 0 {
        Map::empty()
    } else {
        combined(streams.drop_first()).union_prefer_right(seq_map(streams[0]))
    }
}

/// Merging a concatenation merges each half, the left (newer) half winning.
pub proof fn lemma_combined_concat(a: Seq<Seq<(i64, i64)>>, b: Seq<Seq<(i64, i64)>>)
    ensures
        combined(a + b) == combined(b).union_prefer_right(combined(a)),
    decreases a.len(),
{
    if a.len() == 0 {
        assert(a + b =~= b);
        assert(combined(b).union_prefer_right(combined(a)) =~= combined(b));
    } else {
        assert((a + b).drop_first() =~= a.drop_first() + b);
        lemma_combined_concat(a.drop_first(), b);
        assert((a + b)[0] == a[0]);
        assert(combined(b).union_prefer_right(combined(a.drop_first())).union_prefer_right(
            seq_map(a[0]),
        ) =~= combined(b).union_prefer_right(
            combined(a.drop_first()).union_prefer_right(seq_map(a[0])),
        ));
    }
}

/// Empty leading streams do not affect the merged view.
pub proof fn lemma_combined_drop_empties(streams: Seq<Seq<(i64, i64)>>, k: int)
    requires
        0 <= k <= streams.len(),
        forall|j: int| 0 <= j < k ==> (#[trigger] streams[j]).len() == 0,
    ensures
        combined(streams) == combined(streams.skip(k)),
    decreases k,
{
    if k > 0 {
        assert(streams[0].len() == 0);
        assert(seq_map(streams[0]) == Map::<i64, i64>::empty());
        assert(combined(streams) =~= combined(streams.drop_first()));
        assert(forall|j: int|
            0 <= j < k - 1 ==> (#[trigger] streams.drop_first()[j]).len() == 0);
        lemma_combined_drop_empties(streams.drop_first(), k - 1);
        assert(streams.drop_first().skip(k - 1) =~= streams.skip(k));
    } else {
        assert(streams.skip(0) =~= streams);
    }
}

/// Where the newest stream holding `k` sits, that stream decides `k`.
pub proof fn lemma_combined_at(streams: Seq<Seq<(i64, i64)>>, i: int, k: i64)
    requires
        0 <= i < streams.len(),
        seq_map(streams[i]).contains_key(k),
        forall|j: int| 0 <= j < i ==> !seq_map(#[trigger] streams[j]).contains_key(k),
    ensures
        combined(streams).contains_key(k),
        combined(streams)[k] == seq_map(streams[i])[k],
    decreases streams.len(),
{
    if i == 0 {
    } else {
        assert(forall|j: int|
            0 <= j < i - 1 ==> streams.drop_first()[j] == streams[j + 1]);
        lemma_combined_at(streams.drop_first(), i - 1, k);
        assert(!seq_map(streams[0]).contains_key(k));
    }
}

/// A key no stream holds is absent from the merged view.
pub proof fn lemma_combined_absent(streams: Seq<Seq<(i64, i64)>>, k: i64)
    requires
        forall|j: int| 0 <= j < streams.len() ==> !seq_map(#[trigger] streams[j]).contains_key(k),
    ensures
        !combined(streams).contains_key(k),
    decreases streams.len(),
{
    if streams.len() > 0 {
        assert(forall|j: int|
            0 <= j < streams.len() - 1 ==> streams.drop_first()[j] == streams[j + 1]);
        lemma_combined_absent(streams.drop_first(), k);
    }
}

/// Every key of the merged view comes from some stream.
pub proof fn lemma_combined_source(streams: Seq<Seq<(i64, i64)>>, k: i64)
    requires
        combined(streams).contains_key(k),
    ensures
        exists|j: int|
            0 <= j < streams.len() && seq_map(#[trigger] streams[j]).contains_key(k),
    decreases streams.len(),
{
    if streams.len() > 0 {
        if seq_map(streams[0]).contains_key(k) {
        } else {
            lemma_combined_source(streams.drop_first(), k);
            let j = choose|j: int|
                0 <= j < streams.drop_first().len() && seq_map(
                    #[trigger] streams.drop_first()[j],
                ).contains_key(k);
            assert(streams.drop_first()[j] == streams[j + 1]);
        }
    }
}

} // verus!
