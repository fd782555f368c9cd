//! Blocks of a partition and the test that makes a block a candidate.

use vstd::prelude::*;

verus! {

/// The indices `i < upto` that carry label `k`, ascending.
pub open spec fn class_upto(a: Seq<u32>, k: u32, upto: int) -> Seq<u32>
    decreases upto,
{
    if upto <= 0 {
        Seq::empty()
    } else if a[upto - 1] == k {
        class_upto(a, k, upto - 1).push((upto - 1) as u32)
    } else {
        class_upto(a, k, upto - 1)
    }
}

/// The block with label `k` of the partition that labels `a` stand for.
pub open spec fn block_of(a: Seq<u32>, k: u32) -> Seq<u32> {
    class_upto(a, k, a.len() as int)
}

/// Strictly ascending, so no index repeats.
pub open spec fn ascending(s: Seq<u32>) -> bool {
    forall|p: int, q: int| 0 <= p < q < s.len() ==> s[p] < s[q]
}

/// Sum of the values at the block's input members (`inputs`) or at its output
/// members (`!inputs`).
pub open spec fn side_sum(values: Seq<u64>, input_len: int, block: Seq<u32>, inputs: bool) -> int
    decreases block.len(),
{
    if block.len() == 0 {
        0
    } else {
        let i = block.last();
        side_sum(values, input_len, block.drop_last(), inputs) + if (i < input_len) == inputs {
            values[i as int] as int
        } else {
            0
        }
    }
}

/// Some member of the block is an input.
pub open spec fn has_input(input_len: int, block: Seq<u32>) -> bool {
    exists|p: int| 0 <= p < block.len() && block[p] < input_len
}

/// Some member of the block is an output.
pub open spec fn has_output(input_len: int, block: Seq<u32>) -> bool {
    exists|p: int| 0 <= p < block.len() && block[p] >= input_len
}

/// The block mixes inputs and outputs and both sides sum to the same amount.
pub open spec fn qualifies(values: Seq<u64>, input_len: int, block: Seq<u32>) -> bool {
    &&& has_input(input_len, block)
    &&& has_output(input_len, block)
    &&& side_sum(values, input_len, block, true) == side_sum(values, input_len, block, false)
}

pub proof fn lemma_class_upto(a: Seq<u32>, k: u32, upto: int)
    requires
        0 <= upto <= a.len() <= u32::MAX,
    ensures
        class_upto(a, k, upto).len() <= upto,
        ascending(class_upto(a, k, upto)),
        forall|p: int|
            0 <= p < class_upto(a, k, upto).len() ==> {
                let i = #[trigger] class_upto(a, k, upto)[p];
                &&& i < upto
                &&& a[i as int] == k
            },
        forall|i: int|
            0 <= i < upto && a[i] == k ==> #[trigger] class_upto(a, k, upto).contains(i as u32),
    decreases upto,
{
    if upto > 0 {
        lemma_class_upto(a, k, upto - 1);
        let prev = class_upto(a, k, upto - 1);
        if a[upto - 1] == k {
            let cur = prev.push((upto - 1) as u32);
            assert forall|i: int| 0 <= i < upto && a[i] == k implies cur.contains(i as u32) by {
                if i < upto - 1 {
                    assert(prev.contains(i as u32));
                    let p = choose|p: int| 0 <= p < prev.len() && prev[p] == i as u32;
                    assert(cur[p] == i as u32);
                } else {
                    assert(cur[prev.len() as int] == i as u32);
                }
            }
        } else {
            assert forall|i: int| 0 <= i < upto && a[i] == k implies prev.contains(i as u32) by {
                assert(i < upto - 1);
                assert(prev.contains(i as u32));
            }
        }
    }
}

/// The side sum never exceeds the largest `u64` once per member.
pub proof fn lemma_side_sum_bound(values: Seq<u64>, input_len: int, block: Seq<u32>, inputs: bool)
    requires
        forall|p: int| 0 <= p < block.len() ==> block[p] < values.len(),
    ensures
        0 <= side_sum(values, input_len, block, inputs) <= block.len() * 0xffff_ffff_ffff_ffff,
    decreases block.len(),
{
    if block.len() > 0 {
        lemma_side_sum_bound(values, input_len, block.drop_last(), inputs);
        let l = block.len() as int;
        assert((l - 1) * 0xffff_ffff_ffff_ffff + 0xffff_ffff_ffff_ffff == l * 0xffff_ffff_ffff_ffff)
            by (nonlinear_arith);
    }
}

/// The indices whose label is `k`, ascending.
pub fn block_with_label(labels: &[u32], k: u32) -> (r: Vec<u32>)
    requires
        labels.len() <= u32::MAX,
    ensures
        r@ == block_of(labels@, k),
{
    let mut r: Vec<u32> = Vec::new();
    let mut i: usize = 0;
    while i < labels.len()
        invariant
            i <= labels.len() <= u32::MAX,
            r@ == class_upto(labels@, k, i as int),
        decreases labels.len() - i,
    {
        if labels[i] == k {
            r.push(i as u32);
        }
        i = i + 1;
    }
    r
}

/// Whether `block` mixes inputs (indices below `input_len`) and outputs and
/// both sides sum to the same amount.
pub fn block_qualifies(values: &[u64], input_len: usize, block: &[u32]) -> (r: bool)
    requires
        block.len() <= u32::MAX,
        forall|p: int| 0 <= p < block.len() ==> block[p] < values.len(),
    ensures
        r == qualifies(values@, input_len as int, block@),
{
    let mut in_sum: u128 = 0;
    let mut out_sum: u128 = 0;
    let mut seen_in = false;
    let mut seen_out = false;
    let mut i: usize = 0;
    while i < block.len()
        invariant
            i <= block.len() <= u32::MAX,
            forall|p: int| 0 <= p < block.len() ==> block[p] < values.len(),
            in_sum == side_sum(values@, input_len as int, block@.subrange(0, i as int), true),
            out_sum == side_sum(values@, input_len as int, block@.subrange(0, i as int), false),
            seen_in == exists|p: int| 0 <= p < i && block[p] < input_len,
            seen_out == exists|p: int| 0 <= p < i && block[p] >= input_len,
        decreases block.len() - i,
    {
        let idx = block[i];
        let ghost prefix = block@.subrange(0, i as int + 1);
        assert(prefix.drop_last() =~= block@.subrange(0, i as int));
        proof {
            lemma_side_sum_bound(values@, input_len as int, prefix, true);
            lemma_side_sum_bound(values@, input_len as int, prefix, false);
            assert(prefix.len() * 0xffff_ffff_ffff_ffff <= 0xffff_ffff * 0xffff_ffff_ffff_ffffint)
                by (nonlinear_arith)
                requires
                    prefix.len() <= 0xffff_ffff,
            ;
        }
        if (idx as usize) < input_len {
            in_sum = in_sum + values[idx as usize] as u128;
            seen_in = true;
        } else {
            out_sum = out_sum + values[idx as usize] as u128;
            seen_out = true;
        }
        i = i + 1;
    }
    assert(block@.subrange(0, block.len() as int) =~= block@);
    seen_in && seen_out && in_sum == out_sum
}

} // verus!
