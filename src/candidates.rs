//! Collecting the balanced blocks of every set partition.

use crate::block::{block_of, block_qualifies, block_with_label, lemma_class_upto, qualifies};
use crate::enumerator::{
    is_last_rgs, is_next_rgs, is_rgs, labels_of, lemma_rgs_label_bound, lemma_rgs_rank, rgs_lt, rgs_rank, PartitionCursor,
};
use crate::order::{lemma_seq_lt_order, lemma_zeros_least, seq_less, seq_lt, strictly_sorted};
use vstd::arithmetic::power::pow;
use vstd::prelude::*;

verus! {

/// Why no candidates could be computed.
#[derive(Debug, Clone, Copy, PartialEq, Eq, Structural)]
pub enum CandidateError {
    /// The input segment is longer than the sequence of values.
    InvalidBoundary { input_len: usize, len: usize },
}

/// The index sequences that a list of blocks holds.
pub open spec fn views(v: Seq<Vec<u32>>) -> Seq<Seq<u32>> {
    v.map_values(|b: Vec<u32>| b@)
}

/// `s` is a (non-empty) block of some set partition of `0..n`.
pub open spec fn is_partition_block(n: nat, s: Seq<u32>) -> bool {
    exists|c: Seq<u32>, k: u32| is_rgs(c) && c.len() == n && s.len() > 0 && #[trigger] block_of(c, k) == s
}

/// `s` is a block of some set partition of the indices of `values` that
/// mixes inputs and outputs with equal sums.
pub open spec fn is_candidate(values: Seq<u64>, input_len: int, s: Seq<u32>) -> bool {
    is_partition_block(values.len(), s) && qualifies(values, input_len, s)
}

/// `r` holds each candidate once, in lexicographic order, and nothing else.
pub open spec fn is_result_set(values: Seq<u64>, input_len: int, r: Seq<Seq<u32>>) -> bool {
    &&& strictly_sorted(r)
    &&& forall|s: Seq<u32>| r.contains(s) <==> is_candidate(values, input_len, s)
}

/// `s` is a qualifying block of a partition that comes before `cur`.
pub open spec fn found_before(values: Seq<u64>, input_len: int, cur: Seq<u32>, s: Seq<u32>) -> bool {
    exists|c: Seq<u32>, k: u32|
        is_rgs(c) && c.len() == cur.len() && rgs_lt(c, cur) && s.len() > 0 && #[trigger] block_of(c, k)
            == s && qualifies(values, input_len, s)
}

/// `s` is a qualifying block of `cur` with a label below `k`.
pub open spec fn found_at(values: Seq<u64>, input_len: int, cur: Seq<u32>, k: int, s: Seq<u32>) -> bool {
    exists|kk: u32|
        kk < k && s.len() > 0 && #[trigger] block_of(cur, kk) == s && qualifies(values, input_len, s)
}

/// A non-empty block of a restricted growth sequence has a label below its length.
proof fn lemma_label_in_range(c: Seq<u32>, k: u32)
    requires
        is_rgs(c),
        c.len() <= u32::MAX,
        block_of(c, k).len() > 0,
    ensures
        k < c.len(),
{
    lemma_class_upto(c, k, c.len() as int);
    let i = block_of(c, k)[0];
    lemma_rgs_label_bound(c, i as int);
}

/// Moving on to the next partition counts the current one as done.
proof fn lemma_step(values: Seq<u64>, input_len: int, cur: Seq<u32>, next: Seq<u32>, s: Seq<u32>)
    requires
        is_rgs(cur),
        cur.len() <= u32::MAX,
        is_next_rgs(cur, next),
    ensures
        found_before(values, input_len, next, s) <==> (found_before(values, input_len, cur, s)
            || found_at(values, input_len, cur, cur.len() as int, s)),
{
    if found_before(values, input_len, next, s) {
        let (c, k) = choose|c: Seq<u32>, k: u32|
            is_rgs(c) && c.len() == next.len() && rgs_lt(c, next) && s.len() > 0 && #[trigger] block_of(c, k)
                == s && qualifies(values, input_len, s);
        lemma_seq_lt_order(c, cur, next);
        if c == cur {
            lemma_label_in_range(c, k);
        } else if rgs_lt(cur, c) {
            assert(!rgs_lt(c, next));
        }
    }
    if found_before(values, input_len, cur, s) {
        let (c, k) = choose|c: Seq<u32>, k: u32|
            is_rgs(c) && c.len() == cur.len() && rgs_lt(c, cur) && s.len() > 0 && #[trigger] block_of(c, k)
                == s && qualifies(values, input_len, s);
        lemma_seq_lt_order(c, cur, next);
        assert(rgs_lt(c, next));
    }
    if found_at(values, input_len, cur, cur.len() as int, s) {
        let kk = choose|kk: u32|
            kk < cur.len() && s.len() > 0 && #[trigger] block_of(cur, kk) == s && qualifies(values, input_len, s);
        assert(rgs_lt(cur, next));
        assert(block_of(cur, kk) == s);
    }
}

/// Past the last partition, everything found is exactly the candidates.
proof fn lemma_last(values: Seq<u64>, input_len: int, cur: Seq<u32>, s: Seq<u32>)
    requires
        is_rgs(cur),
        cur.len() == values.len() <= u32::MAX,
        is_last_rgs(cur),
    ensures
        is_candidate(values, input_len, s) <==> (found_before(values, input_len, cur, s)
            || found_at(values, input_len, cur, cur.len() as int, s)),
{
    if is_candidate(values, input_len, s) {
        let (c, k) = choose|c: Seq<u32>, k: u32|
            is_rgs(c) && c.len() == values.len() && s.len() > 0 && #[trigger] block_of(c, k) == s;
        lemma_seq_lt_order(c, cur, cur);
        if c == cur {
            lemma_label_in_range(c, k);
        } else if rgs_lt(cur, c) {
            assert(!rgs_lt(cur, c));
        }
    }
    if found_before(values, input_len, cur, s) {
        let (c, k) = choose|c: Seq<u32>, k: u32|
            is_rgs(c) && c.len() == cur.len() && rgs_lt(c, cur) && s.len() > 0 && #[trigger] block_of(c, k)
                == s && qualifies(values, input_len, s);
        assert(is_partition_block(values.len(), s));
    }
    if found_at(values, input_len, cur, cur.len() as int, s) {
        let kk = choose|kk: u32|
            kk < cur.len() && s.len() > 0 && #[trigger] block_of(cur, kk) == s && qualifies(values, input_len, s);
        assert(is_partition_block(values.len(), s));
    }
}

/// Adds `block` to a strictly sorted set of blocks, keeping it strictly sorted.
fn insert_sorted(set: &mut Vec<Vec<u32>>, block: Vec<u32>)
    requires
        strictly_sorted(views(old(set)@)),
    ensures
        strictly_sorted(views(final(set)@)),
        forall|s: Seq<u32>| #[trigger]
            views(final(set)@).contains(s) <==> (views(old(set)@).contains(s) || s
                == block@),
{
    let ghost old_dv = views(set@);
    let mut p: usize = 0;
    while p < set.len() && seq_less(set[p].as_slice(), block.as_slice())
        invariant
            p <= set.len(),
            views(set@) == old_dv,
            forall|q: int| 0 <= q < p ==> seq_lt(old_dv[q], block@),
        decreases set.len() - p,
    {
        p = p + 1;
    }
    if p < set.len() && !seq_less(block.as_slice(), set[p].as_slice()) {
        proof {
            lemma_seq_lt_order(old_dv[p as int], block@, block@);
            assert(old_dv[p as int] == block@);
        }
        return;
    }
    proof {
        if p < set.len() {
            lemma_seq_lt_order(old_dv[p as int], block@, block@);
        }
    }
    let ghost bv = block@;
    set.insert(p, block);
    let ghost new_dv = views(set@);
    assert(new_dv =~= old_dv.insert(p as int, bv));
    assert forall|i: int, j: int| 0 <= i < j < new_dv.len() implies #[trigger] seq_lt(
        new_dv[i],
        new_dv[j],
    ) by {
        if j < p {
        } else if j == p {
        } else if i < p {
            lemma_seq_lt_order(old_dv[i], bv, old_dv[j - 1]);
            if j - 1 > p {
                lemma_seq_lt_order(bv, old_dv[p as int], old_dv[j - 1]);
            }
        } else if i == p {
            if j - 1 > p {
                lemma_seq_lt_order(bv, old_dv[p as int], old_dv[j - 1]);
            }
        } else {
            assert(seq_lt(old_dv[i - 1], old_dv[j - 1]));
        }
    }
    assert forall|s: Seq<u32>| #[trigger]
        new_dv.contains(s) <==> (old_dv.contains(s) || s == bv) by {
        if new_dv.contains(s) {
            let q = choose|q: int| 0 <= q < new_dv.len() && new_dv[q] == s;
            if q < p {
                assert(old_dv[q] == s);
            } else if q > p {
                assert(old_dv[q - 1] == s);
            }
        }
        if old_dv.contains(s) {
            let q = choose|q: int| 0 <= q < old_dv.len() && old_dv[q] == s;
            if q < p {
                assert(new_dv[q] == s);
            } else {
                assert(new_dv[q + 1] == s);
            }
        }
        if s == bv {
            assert(new_dv[p as int] == s);
        }
    }
}

/// Every block, over all set partitions of the indices of `values`, that mixes
/// inputs (the first `input_len` indices) and outputs with equal sums on both
/// sides. Each block is its indices in ascending order; the blocks come once
/// each, in lexicographic order. An `input_len` beyond the end of `values` is
/// refused. Indices are `u32`, so `values` has at most `u32::MAX` entries.
pub fn get_input_output_partitions(values: &Vec<u64>, input_len: usize) -> (r: Result<
    Vec<Vec<u32>>,
    CandidateError,
>)
    requires
        values.len() <= u32::MAX,
    ensures
        match r {
            Ok(blocks) => input_len <= values.len() && is_result_set(
                values@,
                input_len as int,
                views(blocks@),
            ),
            Err(e) => input_len > values.len() && e == (CandidateError::InvalidBoundary {
                input_len,
                len: values.len(),
            }),
        },
{
    if input_len > values.len() {
        return Err(CandidateError::InvalidBoundary { input_len, len: values.len() });
    }
    let n = values.len();
    let mut cursor = PartitionCursor::single_block(n);
    let mut found: Vec<Vec<u32>> = Vec::new();
    proof {
        let z = labels_of(cursor);
        assert forall|s: Seq<u32>| !found_before(values@, input_len as int, z, s) by {
            if found_before(values@, input_len as int, z, s) {
                let (c, k) = choose|c: Seq<u32>, k: u32|
                    is_rgs(c) && c.len() == z.len() && rgs_lt(c, z) && s.len() > 0
                        && #[trigger] block_of(c, k) == s && qualifies(values@, input_len as int, s);
                lemma_zeros_least(c, z, 0);
            }
        }
        assert(views(found@) =~= Seq::<Seq<u32>>::empty());
    }
    loop
        invariant
            n == values.len() <= u32::MAX,
            input_len <= n,
            is_rgs(labels_of(cursor)),
            labels_of(cursor).len() == n,
            strictly_sorted(views(found@)),
            forall|s: Seq<u32>| #[trigger]
                views(found@).contains(s) <==> found_before(
                    values@,
                    input_len as int,
                    labels_of(cursor),
                    s,
                ),
        decreases pow(n as int, n as nat) - rgs_rank(labels_of(cursor)),
    {
        let ghost cur = labels_of(cursor);
        let labels = cursor.labels();
        let mut k: usize = 0;
        while k < n
            invariant
                labels@ == cur,
                cur.len() == n,
                n == values.len() <= u32::MAX,
                input_len <= n,
                k <= n,
                is_rgs(cur),
                strictly_sorted(views(found@)),
                forall|s: Seq<u32>| #[trigger]
                    views(found@).contains(s) <==> (found_before(values@, input_len as int, cur, s)
                        || found_at(values@, input_len as int, cur, k as int, s)),
            decreases n - k,
        {
            let block = block_with_label(labels, k as u32);
            proof {
                lemma_class_upto(cur, k as u32, n as int);
            }
            let ghost bv = block@;
            let ghost before = views(found@);
            let take = block.len() > 0 && block_qualifies(values.as_slice(), input_len, block.as_slice());
            if take {
                insert_sorted(&mut found, block);
            }
            proof {
                assert forall|s: Seq<u32>| #[trigger]
                    views(found@).contains(s) <==> (found_before(values@, input_len as int, cur, s)
                        || found_at(values@, input_len as int, cur, k + 1, s)) by {
                    if found_at(values@, input_len as int, cur, k + 1, s) {
                        let kk = choose|kk: u32|
                            kk < k + 1 && s.len() > 0 && #[trigger] block_of(cur, kk) == s
                                && qualifies(values@, input_len as int, s);
                        if kk < k {
                            assert(found_at(values@, input_len as int, cur, k as int, s));
                        }
                    }
                    if found_at(values@, input_len as int, cur, k as int, s) {
                        let kk = choose|kk: u32|
                            kk < k && s.len() > 0 && #[trigger] block_of(cur, kk) == s
                                && qualifies(values@, input_len as int, s);
                        assert(found_at(values@, input_len as int, cur, k + 1, s));
                    }
                    if take && s == bv {
                        assert(block_of(cur, k as u32) == s);
                    }
                }
            }
            k = k + 1;
        }
        let more = cursor.advance();
        proof {
            if more {
                let next = labels_of(cursor);
                lemma_rgs_rank(cur, next);
                lemma_rgs_rank(next, next);
                assert forall|s: Seq<u32>| #[trigger]
                    views(found@).contains(s) <==> found_before(values@, input_len as int, next, s) by {
                    lemma_step(values@, input_len as int, cur, next, s);
                }
            } else {
                assert forall|s: Seq<u32>| #[trigger]
                    views(found@).contains(s) <==> is_candidate(values@, input_len as int, s) by {
                    lemma_last(values@, input_len as int, cur, s);
                }
            }
        }
        if !more {
            return Ok(found);
        }
    }
}

} // verus!
