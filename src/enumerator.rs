//! Set partitions in restricted-growth form, enumerated through the
//! `set-partitions` crate.

use set_partitions::VecSetPartition;
use crate::order::{lemma_seq_lt_order, lemma_zeros_least, lt_from, seq_lt, strictly_sorted};
use vstd::arithmetic::power::{lemma_pow_positive, pow};
use vstd::prelude::*;

verus! {

/// A restricted growth sequence: every label is 0 or one more than some label
/// before it (so the first label is 0). Label `k` names the block
/// `{ i : a[i] == k }`.
pub open spec fn is_rgs(a: Seq<u32>) -> bool {
    forall|i: int|
        #![trigger a[i]]
        0 <= i < a.len() ==> (a[i] == 0 || exists|j: int| 0 <= j < i && a[j] + 1 == a[i] as int)
}

/// `a` comes strictly before `b` in lexicographic order; both have one length.
pub open spec fn rgs_lt(a: Seq<u32>, b: Seq<u32>) -> bool {
    a.len() == b.len() && seq_lt(a, b)
}

/// `b` is the restricted growth sequence that follows `a` in lexicographic order.
pub open spec fn is_next_rgs(a: Seq<u32>, b: Seq<u32>) -> bool {
    &&& is_rgs(b)
    &&& rgs_lt(a, b)
    &&& forall|c: Seq<u32>| is_rgs(c) && rgs_lt(a, c) ==> !rgs_lt(c, b)
}

/// No restricted growth sequence comes after `a`.
pub open spec fn is_last_rgs(a: Seq<u32>) -> bool {
    forall|c: Seq<u32>| is_rgs(c) ==> !rgs_lt(a, c)
}

/// Every label of a restricted growth sequence is at most its position.
pub proof fn lemma_rgs_label_bound(a: Seq<u32>, i: int)
    requires
        is_rgs(a),
        0 <= i < a.len(),
    ensures
        a[i] <= i,
    decreases i,
{
    if a[i] != 0 {
        let j = choose|j: int| 0 <= j < i && a[j] + 1 == a[i] as int;
        lemma_rgs_label_bound(a, j);
    }
}

/// The labels from position `i` on, read as a number in base `b`, most
/// significant first.
pub open spec fn rank_from(a: Seq<u32>, b: int, i: int) -> int
    decreases a.len() - i,
{
    if i < 0 || i >= a.len() {
        0
    } else {
        a[i] * pow(b, (a.len() - 1 - i) as nat) + rank_from(a, b, i + 1)
    }
}

pub proof fn lemma_rank_bound(a: Seq<u32>, b: int, i: int)
    requires
        0 <= i <= a.len(),
        forall|p: int| 0 <= p < a.len() ==> a[p] < b,
    ensures
        0 <= rank_from(a, b, i) < pow(b, (a.len() - i) as nat),
    decreases a.len() - i,
{
    reveal(pow);
    if i < a.len() {
        lemma_rank_bound(a, b, i + 1);
        assert(a[i] < b);
        let e = (a.len() - 1 - i) as nat;
        let p = pow(b, e);
        lemma_pow_positive(b, e);
        assert(pow(b, (a.len() - i) as nat) == b * p);
        let x = a[i] as int;
        let r = rank_from(a, b, i + 1);
        assert(0 <= x * p + r < b * p) by (nonlinear_arith)
            requires
                0 <= x < b,
                0 <= r < p,
        ;
    }
}

pub proof fn lemma_rank_increases(a: Seq<u32>, c: Seq<u32>, b: int, i: int)
    requires
        0 <= i,
        a.len() == c.len(),
        lt_from(a, c, i),
        forall|p: int| 0 <= p < a.len() ==> a[p] < b && c[p] < b,
    ensures
        rank_from(a, b, i) < rank_from(c, b, i),
    decreases a.len() - i,
{
    if a[i] == c[i] {
        lemma_rank_increases(a, c, b, i + 1);
    } else {
        assert(c[i] < b);
        let e = (a.len() - 1 - i) as nat;
        let p = pow(b, e);
        lemma_pow_positive(b, e);
        lemma_rank_bound(a, b, i + 1);
        lemma_rank_bound(c, b, i + 1);
        let x = a[i] as int;
        let y = c[i] as int;
        let ra = rank_from(a, b, i + 1);
        let rc = rank_from(c, b, i + 1);
        assert(x * p + ra < y * p + rc) by (nonlinear_arith)
            requires
                0 <= x < y,
                0 <= ra < p,
                0 <= rc,
        ;
    }
}

/// A measure that grows along the enumeration and stays below `n^n`.
pub open spec fn rgs_rank(a: Seq<u32>) -> int {
    rank_from(a, a.len() as int, 0)
}

pub proof fn lemma_rgs_rank(a: Seq<u32>, c: Seq<u32>)
    requires
        is_rgs(a),
        is_rgs(c),
    ensures
        0 <= rgs_rank(a) < pow(a.len() as int, a.len()),
        rgs_lt(a, c) ==> rgs_rank(a) < rgs_rank(c),
{
    assert forall|p: int| 0 <= p < a.len() implies a[p] < a.len() by {
        lemma_rgs_label_bound(a, p);
    }
    lemma_rank_bound(a, a.len() as int, 0);
    if rgs_lt(a, c) {
        assert forall|p: int| 0 <= p < c.len() implies c[p] < c.len() by {
            lemma_rgs_label_bound(c, p);
        }
        lemma_rank_increases(a, c, a.len() as int, 0);
    }
}

/// An enumerator of the set partitions of `0..n`, one at a time.
#[verifier::external_body]
pub struct PartitionCursor {
    inner: VecSetPartition<u32, ()>,
}

/// The restricted growth sequence that a cursor currently holds.
pub uninterp spec fn labels_of(p: PartitionCursor) -> Seq<u32>;

impl PartitionCursor {
    /// Relies on `VecSetPartition::with_size`: the partition of `n` elements
    /// into a single block, all labels 0.
    #[verifier::external_body]
    pub(crate) fn single_block(n: usize) -> (p: PartitionCursor)
        ensures
            labels_of(p) == Seq::new(n as nat, |i: int| 0u32),
    {
        PartitionCursor { inner: VecSetPartition::with_size(n) }
    }

    /// Relies on `VecSetPartition::get`: the labels held, one per element.
    #[verifier::external_body]
    pub(crate) fn labels(&self) -> (r: &[u32])
        ensures
            r@ == labels_of(*self),
    {
        self.inner.get()
    }

    /// Relies on `VecSetPartition::increment`: moves to the lexicographically
    /// next restricted growth sequence and returns `true`; from the last one it
    /// goes back to all labels 0 and returns `false`.
    #[verifier::external_body]
    pub(crate) fn advance(&mut self) -> (more: bool)
        requires
            is_rgs(labels_of(*old(self))),
            labels_of(*old(self)).len() <= u32::MAX,
        ensures
            more == !is_last_rgs(labels_of(*old(self))),
            more ==> is_next_rgs(labels_of(*old(self)), labels_of(*final(self))),
            !more ==> labels_of(*final(self)) == Seq::new(
                labels_of(*old(self)).len(),
                |i: int| 0u32,
            ),
    {
        self.inner.increment()
    }
}

/// Moving from `cur` to the next sequence: what comes before the next one is
/// what came before `cur`, and `cur` itself.
pub proof fn lemma_before_next(cur: Seq<u32>, next: Seq<u32>, x: Seq<u32>)
    requires
        is_rgs(cur),
        is_next_rgs(cur, next),
        is_rgs(x),
    ensures
        rgs_lt(x, next) <==> (rgs_lt(x, cur) || x == cur),
{
    lemma_seq_lt_order(x, cur, next);
    if rgs_lt(x, next) && x != cur && !rgs_lt(x, cur) {
        assert(rgs_lt(cur, x));
    }
}

/// Before the last sequence of a length comes every other one of that length.
pub proof fn lemma_before_last(cur: Seq<u32>, x: Seq<u32>)
    requires
        is_last_rgs(cur),
        is_rgs(x),
        x.len() == cur.len(),
    ensures
        rgs_lt(x, cur) || x == cur,
{
    lemma_seq_lt_order(x, cur, cur);
}

/// `seen` lists, in increasing order, exactly the restricted growth sequences
/// of length `n`: every set partition of `0..n` once.
pub open spec fn lists_all_rgs(seen: Seq<Seq<u32>>, n: nat) -> bool {
    &&& strictly_sorted(seen)
    &&& forall|x: Seq<u32>| seen.contains(x) <==> (is_rgs(x) && x.len() == n)
}

/// `seen` lists, in increasing order, restricted growth sequences of length `n`.
pub open spec fn lists_some_rgs(seen: Seq<Seq<u32>>, n: nat) -> bool {
    &&& strictly_sorted(seen)
    &&& forall|x: Seq<u32>| seen.contains(x) ==> (is_rgs(x) && x.len() == n)
}

/// The number of set partitions of `0..n`, counted by walking through all of
/// them; `None` when the count does not fit in a `u64`.
pub fn count_partitions(n: usize) -> (r: Option<u64>)
    requires
        n <= u32::MAX,
    ensures
        match r {
            Some(c) => exists|seen: Seq<Seq<u32>>| lists_all_rgs(seen, n as nat) && seen.len() == c,
            None => exists|seen: Seq<Seq<u32>>| lists_some_rgs(seen, n as nat) && seen.len() > u64::MAX,
        },
{
    let mut cursor = PartitionCursor::single_block(n);
    let mut count: u64 = 0;
    let ghost mut seen: Seq<Seq<u32>> = Seq::empty();
    proof {
        let z = labels_of(cursor);
        assert forall|x: Seq<u32>| is_rgs(x) && x.len() == n implies !rgs_lt(x, z) by {
            lemma_zeros_least(x, z, 0);
        }
    }
    loop
        invariant
            n <= u32::MAX,
            is_rgs(labels_of(cursor)),
            labels_of(cursor).len() == n,
            strictly_sorted(seen),
            seen.len() == count,
            forall|x: Seq<u32>|
                seen.contains(x) <==> (is_rgs(x) && x.len() == n && rgs_lt(x, labels_of(cursor))),
        decreases pow(n as int, n as nat) - rgs_rank(labels_of(cursor)),
    {
        let ghost cur = labels_of(cursor);
        let ghost prev = seen;
        proof {
            seen = seen.push(cur);
            assert forall|i: int, j: int| 0 <= i < j < seen.len() implies #[trigger] seq_lt(
                seen[i],
                seen[j],
            ) by {
                if j == prev.len() {
                    assert(prev.contains(seen[i]));
                } else {
                    assert(seq_lt(prev[i], prev[j]));
                }
            }
            assert forall|x: Seq<u32>| seen.contains(x) <==> (prev.contains(x) || x == cur) by {
                if seen.contains(x) {
                    let i = choose|i: int| 0 <= i < seen.len() && seen[i] == x;
                    if i < prev.len() {
                        assert(prev[i] == x);
                    }
                }
                if prev.contains(x) {
                    let i = choose|i: int| 0 <= i < prev.len() && prev[i] == x;
                    assert(seen[i] == x);
                }
                assert(seen[prev.len() as int] == cur);
            }
        }
        if count == u64::MAX {
            assert(forall|x: Seq<u32>| seen.contains(x) ==> (is_rgs(x) && x.len() == n));
            assert(seen.len() > u64::MAX);
            assert(lists_some_rgs(seen, n as nat));
            return None;
        }
        count = count + 1;
        let more = cursor.advance();
        proof {
            if more {
                let next = labels_of(cursor);
                lemma_rgs_rank(cur, next);
                lemma_rgs_rank(next, next);
                assert forall|x: Seq<u32>|
                    seen.contains(x) <==> (is_rgs(x) && x.len() == n && rgs_lt(x, next)) by {
                    if is_rgs(x) {
                        lemma_before_next(cur, next, x);
                    }
                }
            } else {
                assert forall|x: Seq<u32>| seen.contains(x) <==> (is_rgs(x) && x.len() == n) by {
                    if is_rgs(x) && x.len() == n {
                        lemma_before_last(cur, x);
                    }
                }
            }
        }
        if !more {
            assert(lists_all_rgs(seen, n as nat));
            return Some(count);
        }
    }
}

} // verus!
