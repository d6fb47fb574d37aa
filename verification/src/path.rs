//! Radix paths: a node's position in the 16-way tries is the sequence
//! of child slots from the root, and a child at slot `e` adds `4^e` to
//! its parent's dimension index. The path to a dimension is built
//! greedily, largest power of four first.

use vstd::prelude::*;

verus! {

/// Powers of four, the per-slot dimension increments.
pub open spec fn pow4(e: int) -> int
    decreases e,
{
    if e <= 0 {
        1
    } else {
        4 * pow4(e - 1)
    }
}

pub proof fn lemma_pow4_le(i: int, j: int)
    requires
        0 <= i <= j,
    ensures
        pow4(i) <= pow4(j),
        pow4(i) >= 1,
    decreases j,
{
    if i < j {
        lemma_pow4_le(i, j - 1);
    } else {
        if i > 0 {
            lemma_pow4_le(i - 1, i - 1);
        }
    }
}

/// The dimension increment a whole path stands for.
pub open spec fn path_dim_sum(path: Seq<u8>) -> int
    decreases path.len(),
{
    if path.len() == 0 {
        0
    } else {
        pow4(path[0] as int) + path_dim_sum(path.skip(1))
    }
}

/// The largest exponent `e <= cap` with `pow4(e) <= n`, for `n >= 1`.
pub open spec fn spec_largest_exp(n: int, cap: int) -> int
    decreases cap,
{
    if cap <= 0 {
        0
    } else if pow4(cap) <= n {
        cap
    } else {
        spec_largest_exp(n, cap - 1)
    }
}

/// The greedy path for a dimension difference `n`: repeatedly take the
/// largest power of four that still fits.
pub open spec fn spec_path(n: int) -> Seq<u8>
    decreases n,
    when n >= 0
    via spec_path_decreases
{
    if n <= 0 {
        Seq::empty()
    } else {
        let e = spec_largest_exp(n, 15);
        seq![e as u8] + spec_path(n - pow4(e))
    }
}

#[via_fn]
proof fn spec_path_decreases(n: int) {
    if n > 0 {
        lemma_largest_exp_bounds(n, 15);
        lemma_pow4_le(0, spec_largest_exp(n, 15));
    }
}

pub proof fn lemma_largest_exp_bounds(n: int, cap: int)
    requires
        n >= 1,
        0 <= cap,
    ensures
        0 <= spec_largest_exp(n, cap) <= cap,
        pow4(spec_largest_exp(n, cap)) <= n,
    decreases cap,
{
    if cap > 0 && pow4(cap) > n {
        lemma_largest_exp_bounds(n, cap - 1);
    } else {
        lemma_pow4_le(0, cap);
    }
}

/// Every greedy digit is a valid child slot and the digits add back up
/// to the difference they were built from.
pub proof fn lemma_spec_path_sum(n: int)
    requires
        0 <= n,
    ensures
        path_dim_sum(spec_path(n)) == n,
        forall|i: int| 0 <= i < spec_path(n).len() ==> (#[trigger] spec_path(n)[i]) < 16,
    decreases n,
{
    if n > 0 {
        let e = spec_largest_exp(n, 15);
        lemma_largest_exp_bounds(n, 15);
        lemma_pow4_le(0, e);
        lemma_spec_path_sum(n - pow4(e));
        let p = spec_path(n);
        assert(p[0] == e as u8);
        assert(p.skip(1) =~= spec_path(n - pow4(e)));
        assert forall|i: int| 0 <= i < p.len() implies (#[trigger] p[i]) < 16 by {
            if i > 0 {
                assert(p[i] == spec_path(n - pow4(e))[i - 1]);
            }
        }
    }
}

/// One path step adds one power of four to the dimension walked to.
pub proof fn lemma_path_sum_take_succ(p: Seq<u8>, i: int)
    requires
        0 <= i < p.len(),
    ensures
        path_dim_sum(p.take(i + 1)) == path_dim_sum(p.take(i)) + pow4(p[i] as int),
    decreases i,
{
    if i == 0 {
        assert(p.take(1)[0] == p[0]);
        assert(p.take(1).skip(1) =~= Seq::<u8>::empty());
        assert(p.take(0) =~= Seq::<u8>::empty());
    } else {
        lemma_path_sum_take_succ(p.skip(1), i - 1);
        assert(p.take(i + 1)[0] == p[0]);
        assert(p.take(i + 1).skip(1) =~= p.skip(1).take(i));
        assert(p.take(i)[0] == p[0]);
        assert(p.take(i).skip(1) =~= p.skip(1).take(i - 1));
        assert(p.skip(1)[i - 1] == p[i]);
    }
}

/// A path never walks the dimension downward.
pub proof fn lemma_path_dim_sum_nonneg(p: Seq<u8>)
    ensures
        path_dim_sum(p) >= 0,
    decreases p.len(),
{
    if p.len() > 0 {
        lemma_path_dim_sum_nonneg(p.skip(1));
        lemma_pow4_le(0, p[0] as int);
    }
}

/// pow4, executable.
pub fn pow4_u32(e: u8) -> (r: u32)
    requires
        e <= 15,
    ensures
        r as int == pow4(e as int),
{
    let mut p: u32 = 1;
    let mut i: u8 = 0;
    while i < e
        invariant
            i <= e <= 15,
            p as int == pow4(i as int),
        decreases e - i,
    {
        proof {
            reveal_with_fuel(pow4, 17);
            lemma_pow4_le(i + 1 as int, 15);
            assert(pow4(15) == 0x40000000);
        }
        p = p * 4;
        i += 1;
    }
    p
}

/// The greedy path from `current_dim_index` up to `target_dim_index`.
pub fn calculate_path(target_dim_index: u32, current_dim_index: u32) -> (r: Vec<u8>)
    requires
        current_dim_index <= target_dim_index,
    ensures
        r@ == spec_path(target_dim_index - current_dim_index),
        path_dim_sum(r@) == target_dim_index - current_dim_index,
        forall|i: int| 0 <= i < r@.len() ==> (#[trigger] r@[i]) < 16,
{
    let ghost n0 = target_dim_index - current_dim_index;
    let mut remaining = target_dim_index - current_dim_index;
    let mut r: Vec<u8> = Vec::new();
    while remaining > 0
        invariant
            spec_path(n0) == r@ + spec_path(remaining as int),
            remaining <= n0,
        decreases remaining,
    {
        let mut e: u8 = 15;
        while e > 0 && pow4_u32(e) > remaining
            invariant
                e <= 15,
                spec_largest_exp(remaining as int, 15) == spec_largest_exp(
                    remaining as int,
                    e as int,
                ),
            decreases e,
        {
            e -= 1;
        }
        proof {
            lemma_largest_exp_bounds(remaining as int, 15);
            if e > 0 {
                assert(spec_largest_exp(remaining as int, e as int) == e as int);
            } else {
                assert(spec_largest_exp(remaining as int, 0) == 0);
            }
        }
        let p = pow4_u32(e);
        proof {
            lemma_pow4_le(0, e as int);
        }
        r.push(e);
        proof {
            let ghost rem0 = remaining as int;
            assert(spec_path(rem0) == seq![e] + spec_path(rem0 - pow4(e as int)));
            assert(r@ + spec_path(rem0 - pow4(e as int)) =~= r@.drop_last() + (seq![e] + spec_path(
                rem0 - pow4(e as int),
            )));
        }
        remaining = remaining - p;
    }
    proof {
        assert(spec_path(remaining as int) =~= Seq::<u8>::empty());
        assert(r@ =~= spec_path(n0));
        lemma_spec_path_sum(n0);
    }
    r
}

} // verus!
