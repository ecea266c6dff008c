//! Merging sorted streams with last-writer-wins. Streams are listed newest
//! first; on a key collision the entry from the earliest-listed stream
//! survives. The result is again a sorted sentinel-free stream, and its map
//! is the stack of the input maps with newer entries hiding older ones.
use vstd::prelude::*;

verus! {

use crate::pairs::{
    combined, lemma_seq_map_contains, seq_map, sorted_unique, valid_stream,
};
use crate::TOMBSTONE;

/// The pair sequences a vector of streams denotes.
pub open spec fn views_of(s: Seq<Vec<(i64, i64)>>) -> Seq<Seq<(i64, i64)>> {
    s.map_values(|v: Vec<(i64, i64)>| v@)
}

/// Appending a pair above every present key keeps a stream valid and
/// inserts the pair into its map.
pub proof fn lemma_stream_push(s: Seq<(i64, i64)>, p: (i64, i64))
    requires
        valid_stream(s),
        s.len() > 0 ==> s.last().0 < p.0,
        p.0 < TOMBSTONE,
        p.1 != TOMBSTONE,
    ensures
        valid_stream(s.push(p)),
        seq_map(s.push(p)) == seq_map(s).insert(p.0, p.1),
        !seq_map(s).contains_key(p.0),
{
    assert forall|i: int, j: int| 0 <= i < j < s.push(p).len() implies s.push(p)[i].0 < s.push(
        p,
    )[j].0 by {
        if j < s.len() {
        } else {
            assert(s.push(p)[j] == p);
            if i < s.len() - 1 {
                assert(s[i].0 < s.last().0);
            }
        }
    }
    assert(s.push(p).drop_last() =~= s);
    lemma_seq_map_contains(s, p.0);
}

/// Merge two sorted streams; `a` is the newer and wins every tie.
pub fn merge2(a: &Vec<(i64, i64)>, b: &Vec<(i64, i64)>) -> (r: Vec<(i64, i64)>)
    requires
        valid_stream(a@),
        valid_stream(b@),
    ensures
        valid_stream(r@),
        seq_map(r@) == seq_map(b@).union_prefer_right(seq_map(a@)),
{
    let mut out: Vec<(i64, i64)> = Vec::new();
    let mut i: usize = 0;
    let mut j: usize = 0;
    proof {
        assert(a@.take(0) =~= Seq::<(i64, i64)>::empty());
        assert(b@.take(0) =~= Seq::<(i64, i64)>::empty());
    }
    while i < a.len() || j < b.len()
        invariant
            valid_stream(a@),
            valid_stream(b@),
            i <= a@.len(),
            j <= b@.len(),
            valid_stream(out@),
            seq_map(out@) == seq_map(b@.take(j as int)).union_prefer_right(
                seq_map(a@.take(i as int)),
            ),
            out@.len() > 0 ==> forall|t: int|
                i <= t < a@.len() ==> (#[trigger] a@[t]).0 > out@.last().0,
            out@.len() > 0 ==> forall|t: int|
                j <= t < b@.len() ==> (#[trigger] b@[t]).0 > out@.last().0,
        decreases a@.len() - i + b@.len() - j,
    {
        let ghost out0 = out@;
        let take_a: bool = if i < a.len() && j < b.len() {
            a[i].0 <= b[j].0
        } else {
            i < a.len()
        };
        let take_b_too: bool = i < a.len() && j < b.len() && a[i].0 == b[j].0;
        if take_a {
            let p = a[i];
            proof {
                lemma_stream_push(out@, p);
                assert(a@.take(i + 1).drop_last() =~= a@.take(i as int));
                assert(a@.take(i + 1).last() == p);
            }
            if take_b_too {
                proof {
                    assert(b@.take(j + 1).drop_last() =~= b@.take(j as int));
                    assert(b@.take(j + 1).last() == b@[j as int]);
                    assert(seq_map(b@.take(j + 1)).union_prefer_right(
                        seq_map(a@.take(i + 1)),
                    ) =~= seq_map(out0).insert(p.0, p.1));
                }
                out.push(p);
                i = i + 1;
                j = j + 1;
            } else {
                proof {
                    assert(seq_map(b@.take(j as int)).union_prefer_right(
                        seq_map(a@.take(i + 1)),
                    ) =~= seq_map(out0).insert(p.0, p.1)) by {
                        if seq_map(b@.take(j as int)).contains_key(p.0) {
                            lemma_seq_map_contains(b@.take(j as int), p.0);
                        }
                    }
                }
                out.push(p);
                i = i + 1;
            }
        } else {
            let p = b[j];
            proof {
                lemma_stream_push(out@, p);
                assert(b@.take(j + 1).drop_last() =~= b@.take(j as int));
                assert(b@.take(j + 1).last() == p);
                assert(seq_map(b@.take(j + 1)).union_prefer_right(
                    seq_map(a@.take(i as int)),
                ) =~= seq_map(out0).insert(p.0, p.1)) by {
                    if seq_map(a@.take(i as int)).contains_key(p.0) {
                        lemma_seq_map_contains(a@.take(i as int), p.0);
                    }
                }
            }
            out.push(p);
            j = j + 1;
        }
    }
    proof {
        assert(a@.take(i as int) =~= a@);
        assert(b@.take(j as int) =~= b@);
    }
    out
}

/// Merge any number of sorted streams, newest first; the newest entry for
/// each key survives.
pub fn merge_streams(streams: Vec<Vec<(i64, i64)>>) -> (r: Vec<(i64, i64)>)
    requires
        forall|t: int| 0 <= t < streams@.len() ==> valid_stream((#[trigger] streams@[t])@),
    ensures
        valid_stream(r@),
        seq_map(r@) == combined(views_of(streams@)),
{
    let ghost orig = views_of(streams@);
    let mut streams = streams;
    let mut acc: Vec<(i64, i64)> = match streams.pop() {
        Some(v) => v,
        None => {
            let empty: Vec<(i64, i64)> = Vec::new();
            proof {
                assert(combined(orig) =~= Map::<i64, i64>::empty());
                assert(seq_map(empty@) =~= Map::<i64, i64>::empty());
            }
            return empty;
        },
    };
    proof {
        assert(orig.skip(streams@.len() as int) =~= seq![acc@]);
        assert(orig.skip(streams@.len() as int).drop_first() =~= Seq::<Seq<(i64, i64)>>::empty());
        assert(combined(orig.skip(streams@.len() as int)) =~= seq_map(acc@)) by {
            assert(combined(Seq::<Seq<(i64, i64)>>::empty()) =~= Map::<i64, i64>::empty());
        }
    }
    while streams.len() > 0
        invariant
            forall|t: int| 0 <= t < streams@.len() ==> valid_stream((#[trigger] streams@[t])@),
            streams@.len() <= orig.len(),
            views_of(streams@) == orig.take(streams@.len() as int),
            valid_stream(acc@),
            seq_map(acc@) == combined(orig.skip(streams@.len() as int)),
        decreases streams@.len(),
    {
        let ghost m = streams@.len() as int;
        let ghost prev = streams@;
        let s = match streams.pop() {
            Some(v) => v,
            None => {
                proof {
                    assert(false);
                }
                Vec::new()
            },
        };
        proof {
            assert(views_of(streams@) =~= orig.take(m - 1));
            assert(s == prev[m - 1]);
            assert(views_of(prev)[m - 1] == prev[m - 1]@);
            assert(s@ == orig[m - 1]);
        }
        let acc2 = merge2(&s, &acc);
        proof {
            assert(orig.skip(m - 1).drop_first() =~= orig.skip(m));
            assert(orig.skip(m - 1)[0] == orig[m - 1]);
            assert(combined(orig.skip(m - 1)) == combined(orig.skip(m)).union_prefer_right(
                seq_map(orig[m - 1]),
            ));
        }
        acc = acc2;
    }
    proof {
        assert(orig.skip(0) =~= orig);
    }
    acc
}

} // verus!
