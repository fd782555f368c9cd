//! Properties of the candidate search, stated over the models of the other
//! modules.

use crate::block::{ascending, block_of, lemma_class_upto, qualifies, side_sum};
use crate::candidates::{is_partition_block, is_result_set};
use crate::enumerator::is_rgs;
use crate::order::{lemma_seq_lt_order, seq_lt, strictly_sorted};
use vstd::prelude::*;

verus! {

/// Two strictly sorted sequences with the same elements are equal.
pub proof fn lemma_sorted_unique(a: Seq<Seq<u32>>, b: Seq<Seq<u32>>)
    requires
        strictly_sorted(a),
        strictly_sorted(b),
        forall|s: Seq<u32>| a.contains(s) <==> b.contains(s),
    ensures
        a == b,
    decreases a.len(),
{
    if a.len() == 0 {
        if b.len() > 0 {
            assert(b.contains(b[0]));
        }
        assert(a =~= b);
    } else {
        assert(a.contains(a[0]));
        assert(b.len() > 0);
        assert(b.contains(b[0]));
        let q = choose|q: int| 0 <= q < b.len() && b[q] == a[0];
        let p = choose|p: int| 0 <= p < a.len() && a[p] == b[0];
        lemma_seq_lt_order(a[0], b[0], a[0]);
        if p > 0 && q > 0 {
            assert(seq_lt(a[0], a[p]));
            assert(seq_lt(b[0], b[q]));
        }
        let ta = a.drop_first();
        let tb = b.drop_first();
        assert forall|s: Seq<u32>| ta.contains(s) <==> tb.contains(s) by {
            if ta.contains(s) {
                let i = choose|i: int| 0 <= i < ta.len() && ta[i] == s;
                assert(seq_lt(a[0], a[i + 1]));
                lemma_seq_lt_order(s, s, s);
                assert(b.contains(s));
                let j = choose|j: int| 0 <= j < b.len() && b[j] == s;
                assert(j != 0);
                assert(tb[j - 1] == s);
            }
            if tb.contains(s) {
                let i = choose|i: int| 0 <= i < tb.len() && tb[i] == s;
                assert(seq_lt(b[0], b[i + 1]));
                lemma_seq_lt_order(s, s, s);
                assert(a.contains(s));
                let j = choose|j: int| 0 <= j < a.len() && a[j] == s;
                assert(j != 0);
                assert(ta[j - 1] == s);
            }
        }
        lemma_sorted_unique(ta, tb);
        assert(a =~= seq![a[0]] + ta);
        assert(b =~= seq![b[0]] + tb);
    }
}

/// The result for given values and boundary is determined: any two results
/// that meet the contract of `get_input_output_partitions` are equal, element
/// for element and in order.
pub proof fn lemma_result_deterministic(
    values: Seq<u64>,
    input_len: int,
    r1: Seq<Seq<u32>>,
    r2: Seq<Seq<u32>>,
)
    requires
        is_result_set(values, input_len, r1),
        is_result_set(values, input_len, r2),
    ensures
        r1 == r2,
{
    lemma_sorted_unique(r1, r2);
}

/// A block whose members all lie on the input side, or all on the output
/// side, never qualifies, whatever the sums.
pub proof fn lemma_one_sided_never_qualifies(values: Seq<u64>, input_len: int, block: Seq<u32>)
    requires
        (forall|p: int| 0 <= p < block.len() ==> block[p] < input_len) || (forall|p: int|
            0 <= p < block.len() ==> block[p] >= input_len),
    ensures
        !qualifies(values, input_len, block),
{
}

/// Changing the value at one index moves the side sum that holds that index
/// by the change, once, and leaves the other side sum alone.
proof fn lemma_side_sum_update(
    values: Seq<u64>,
    input_len: int,
    block: Seq<u32>,
    inputs: bool,
    j: int,
    v: u64,
)
    requires
        ascending(block),
        0 <= j < values.len() <= u32::MAX,
        forall|p: int| 0 <= p < block.len() ==> block[p] < values.len(),
    ensures
        side_sum(values.update(j, v), input_len, block, inputs) == side_sum(
            values,
            input_len,
            block,
            inputs,
        ) + if block.contains(j as u32) && (j < input_len) == inputs {
            v - values[j]
        } else {
            0
        },
    decreases block.len(),
{
    if block.len() > 0 {
        let rest = block.drop_last();
        assert forall|p: int, q: int| 0 <= p < q < rest.len() implies rest[p] < rest[q] by {
            assert(block[p] < block[q]);
        }
        lemma_side_sum_update(values, input_len, rest, inputs, j, v);
        let i = block.last();
        assert(values.update(j, v)[i as int] == if i as int == j {
            v
        } else {
            values[i as int]
        });
        if block.last() == j as u32 {
            assert forall|p: int| 0 <= p < rest.len() implies rest[p] != j as u32 by {
                assert(block[p] < block[block.len() - 1]);
            }
            assert(!rest.contains(j as u32));
        }
        assert(block.contains(j as u32) <==> (rest.contains(j as u32) || block.last() == j as u32))
            by {
            if block.contains(j as u32) {
                let p = choose|p: int| 0 <= p < block.len() && block[p] == j as u32;
                if p < block.len() - 1 {
                    assert(rest[p] == j as u32);
                }
            }
            if rest.contains(j as u32) {
                let p = choose|p: int| 0 <= p < rest.len() && rest[p] == j as u32;
                assert(block[p] == j as u32);
            }
        }
    }
}

/// A qualifying block stops qualifying when the value at one of its members
/// goes up or down by one: the sums must match exactly.
pub proof fn lemma_off_by_one_breaks_balance(
    values: Seq<u64>,
    input_len: int,
    block: Seq<u32>,
    j: int,
    v: u64,
)
    requires
        ascending(block),
        forall|p: int| 0 <= p < block.len() ==> block[p] < values.len(),
        qualifies(values, input_len, block),
        0 <= j < values.len() <= u32::MAX,
        block.contains(j as u32),
        v == values[j] + 1 || v == values[j] - 1,
    ensures
        !qualifies(values.update(j, v), input_len, block),
{
    lemma_side_sum_update(values, input_len, block, true, j, v);
    lemma_side_sum_update(values, input_len, block, false, j, v);
}

/// Every member of a block of a partition of `0..n` is below `n`.
proof fn lemma_partition_block_in_range(n: nat, s: Seq<u32>)
    requires
        n <= u32::MAX,
        is_partition_block(n, s),
    ensures
        ascending(s),
        forall|p: int| 0 <= p < s.len() ==> s[p] < n,
{
    let (c, k) = choose|c: Seq<u32>, k: u32|
        is_rgs(c) && c.len() == n && s.len() > 0 && #[trigger] block_of(c, k) == s;
    lemma_class_upto(c, k, n as int);
}

/// Two strictly ascending sequences with the same members are equal.
proof fn lemma_ascending_unique(a: Seq<u32>, b: Seq<u32>)
    requires
        ascending(a),
        ascending(b),
        forall|x: u32| a.contains(x) <==> b.contains(x),
    ensures
        a == b,
    decreases a.len(),
{
    if a.len() == 0 {
        if b.len() > 0 {
            assert(b.contains(b[0]));
        }
        assert(a =~= b);
    } else {
        assert(a.contains(a[0]));
        assert(b.contains(b[0]));
        let q = choose|q: int| 0 <= q < b.len() && b[q] == a[0];
        let p = choose|p: int| 0 <= p < a.len() && a[p] == b[0];
        if p > 0 && q > 0 {
            assert(a[0] < a[p]);
            assert(b[0] < b[q]);
        }
        let ta = a.drop_first();
        let tb = b.drop_first();
        assert forall|x: u32| ta.contains(x) <==> tb.contains(x) by {
            if ta.contains(x) {
                let i = choose|i: int| 0 <= i < ta.len() && ta[i] == x;
                assert(a[0] < a[i + 1]);
                assert(b.contains(x));
                let j = choose|j: int| 0 <= j < b.len() && b[j] == x;
                assert(tb[j - 1] == x);
            }
            if tb.contains(x) {
                let i = choose|i: int| 0 <= i < tb.len() && tb[i] == x;
                assert(b[0] < b[i + 1]);
                assert(a.contains(x));
                let j = choose|j: int| 0 <= j < a.len() && a[j] == x;
                assert(ta[j - 1] == x);
            }
        }
        lemma_ascending_unique(ta, tb);
        assert(a =~= seq![a[0]] + ta);
        assert(b =~= seq![b[0]] + tb);
    }
}

/// The blocks of the set partitions of `0..n` are exactly the non-empty,
/// strictly ascending sequences of indices below `n`: any such set of indices
/// is one block of the partition into it and the rest.
pub proof fn lemma_partition_blocks_are_subsets(n: nat, s: Seq<u32>)
    requires
        n <= u32::MAX,
    ensures
        is_partition_block(n, s) <==> (s.len() > 0 && ascending(s) && forall|p: int|
            0 <= p < s.len() ==> s[p] < n),
{
    if is_partition_block(n, s) {
        lemma_partition_block_in_range(n, s);
    }
    if s.len() > 0 && ascending(s) && forall|p: int| 0 <= p < s.len() ==> s[p] < n {
        let k: u32 = if s.contains(0) { 0 } else { 1 };
        let c = Seq::new(n, |i: int| if s.contains(i as u32) == (k == 0) { 0u32 } else { 1u32 });
        assert(n > 0) by {
            assert(s[0] < n);
        }
        assert(c[0] == 0);
        assert(is_rgs(c)) by {
            assert forall|i: int| 0 <= i < c.len() implies (c[i] == 0 || exists|j: int|
                0 <= j < i && c[j] + 1 == c[i] as int) by {
                if c[i] != 0 {
                    assert(c[0] + 1 == c[i] as int);
                }
            }
        }
        lemma_class_upto(c, k, n as int);
        let b = block_of(c, k);
        assert forall|x: u32| b.contains(x) <==> s.contains(x) by {
            if b.contains(x) {
                let p = choose|p: int| 0 <= p < b.len() && b[p] == x;
                assert(c[x as int] == k);
            }
            if s.contains(x) {
                let p = choose|p: int| 0 <= p < s.len() && s[p] == x;
                assert(x < n);
                assert(c[x as int] == k);
            }
        }
        lemma_ascending_unique(b, s);
        assert(is_rgs(c) && c.len() == n && s.len() > 0 && block_of(c, k) == s);
    }
}

/// With no inputs, or with no outputs, there are no candidates.
pub proof fn lemma_boundary_empty(values: Seq<u64>, input_len: int, r: Seq<Seq<u32>>)
    requires
        values.len() <= u32::MAX,
        input_len == 0 || input_len == values.len(),
        is_result_set(values, input_len, r),
    ensures
        r.len() == 0,
{
    if r.len() > 0 {
        assert(r.contains(r[0]));
        lemma_partition_block_in_range(values.len(), r[0]);
        lemma_one_sided_never_qualifies(values, input_len, r[0]);
    }
}

} // verus!
