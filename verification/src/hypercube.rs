//! Boolean-hypercube indexing arithmetic.
//!
//! An `n`-variable evaluation vector has length `2^n`; entry `i` is the
//! value at the point whose bits, read most-significant first, assign bit
//! `j` to variable `j`.  Fixing variable `j` pairs up the two indices that
//! differ only in that bit; `idx_lo` and `idx_hi` reconstruct the pair from
//! a target index `k` of the half-length result.
//!
//! The module also carries a small worked example of the convention: the
//! truth table of `f(a, b, c) = 2ab + 3c` over the hypercube, and a
//! partial-evaluation pass over plain machine integers.

use vstd::prelude::*;
use vstd::arithmetic::power2::{
    pow2, lemma_pow2_unfold, lemma_pow2_strictly_increases, lemma_pow2_adds, lemma_pow2_pos,
    lemma2_to64,
};
use vstd::arithmetic::div_mod::{
    lemma_mod_bound, lemma_fundamental_div_mod, lemma_multiply_divide_lt, lemma_div_pos_is_pos,
};
use vstd::arithmetic::mul::lemma_mul_inequality;

verus! {

/// Position, counting from the least-significant bit, of the bit that
/// variable `j` of `n` occupies under the MSB-first convention.
pub open spec fn bit_pos(n: nat, j: nat) -> nat
    recommends
        j < n,
{
    (n - 1 - j) as nat
}

/// The source index whose variable-`j` bit is 0 and whose remaining bits,
/// in order, spell the target index `k`.
pub open spec fn idx_lo(n: nat, j: nat, k: int) -> int
    recommends
        j < n,
{
    let h = pow2(bit_pos(n, j)) as int;
    (k % h) + (k / h) * (2 * h)
}

/// The source index paired with `idx_lo(n, j, k)`: the same point with the
/// variable-`j` bit set to 1.
pub open spec fn idx_hi(n: nat, j: nat, k: int) -> int
    recommends
        j < n,
{
    idx_lo(n, j, k) + pow2(bit_pos(n, j))
}

/// Both source indices of a target index `k` lie inside the original
/// vector, and the pair is ordered.
pub proof fn lemma_idx_bounds(n: nat, j: nat, k: int)
    requires
        j < n,
        0 <= k < pow2((n - 1) as nat),
    ensures
        0 <= idx_lo(n, j, k),
        idx_lo(n, j, k) < idx_hi(n, j, k),
        idx_hi(n, j, k) < pow2(n),
{
    let bp = bit_pos(n, j);
    let h = pow2(bp) as int;
    lemma_pow2_pos(bp);
    let r = k % h;
    let q = k / h;
    lemma_mod_bound(k, h);
    lemma_div_pos_is_pos(k, h);
    lemma_pow2_adds(j, bp);
    assert(pow2((n - 1) as nat) == pow2(j) * h);
    assert(pow2(j) * h == h * pow2(j)) by (nonlinear_arith);
    lemma_multiply_divide_lt(k, h, pow2(j) as int);
    assert(q < pow2(j));
    assert(r + q * (2 * h) + h < 2 * h * pow2(j)) by (nonlinear_arith)
        requires
            0 <= r < h,
            0 <= q,
            q < pow2(j),
            0 < h,
    ;
    lemma_pow2_unfold(n);
    assert(pow2(n) == 2 * pow2((n - 1) as nat));
    assert(2 * h * pow2(j) == 2 * (pow2(j) * h)) by (nonlinear_arith);
    assert(q * (2 * h) >= 0) by (nonlinear_arith)
        requires
            0 <= q,
            0 < h,
    ;
}

/// Fixing variable 0 pairs index `k` of the half-length result with the
/// two halves of the original vector: `k` itself and `k + 2^(n-1)`.
pub proof fn lemma_idx_var0(n: nat, k: int)
    requires
        1 <= n,
        0 <= k < pow2((n - 1) as nat),
    ensures
        idx_lo(n, 0, k) == k,
        idx_hi(n, 0, k) == k + pow2((n - 1) as nat),
{
    let h = pow2((n - 1) as nat) as int;
    lemma_pow2_pos((n - 1) as nat);
    vstd::arithmetic::div_mod::lemma_small_mod(k as nat, h as nat);
    vstd::arithmetic::div_mod::lemma_basic_div(k, h);
    assert(bit_pos(n, 0) == (n - 1) as nat);
    assert(k % h == k);
    assert(k / h == 0);
    assert(0 * (2 * h) == 0);
    assert(idx_lo(n, 0, k) == (k % h) + (k / h) * (2 * h));
}

/// `2^n` as executable arithmetic, reporting overflow instead of failing.
pub fn pow2_checked(n: usize) -> (r: Option<usize>)
    ensures
        match r {
            Some(v) => v as nat == pow2(n as nat),
            None => pow2(n as nat) > usize::MAX as nat,
        },
{
    proof {
        vstd::arithmetic::power2::lemma2_to64();
    }
    let mut acc: usize = 1;
    let mut i: usize = 0;
    while i < n
        invariant
            i <= n,
            acc as nat == pow2(i as nat),
        decreases n - i,
    {
        if acc > usize::MAX / 2 {
            proof {
                lemma_pow2_unfold((i + 1) as nat);
                if i + 1 < n {
                    lemma_pow2_strictly_increases((i + 1) as nat, n as nat);
                }
            }
            return None;
        }
        acc = acc * 2;
        i = i + 1;
        proof {
            lemma_pow2_unfold(i as nat);
        }
    }
    Some(acc)
}

/// `2^n` as executable arithmetic, for exponents already known to fit.
pub fn pow2_exact(n: usize) -> (r: usize)
    requires
        pow2(n as nat) <= usize::MAX as nat,
    ensures
        r as nat == pow2(n as nat),
{
    match pow2_checked(n) {
        Some(v) => v,
        None => {
            proof {
                assert(false);
            }
            0
        },
    }
}

/// The number of bits used to address `w` slots: the smallest width of
/// at least one bit whose bit patterns cover all `w` indices.
pub open spec fn nbits(w: nat) -> nat
    decreases w,
{
    if w <= 2 {
        1
    } else {
        1 + nbits(((w + 1) / 2) as nat)
    }
}

/// `nbits(w)` bits cover `w` slots, and no more than twice over.
pub proof fn lemma_nbits_bounds(w: nat)
    ensures
        nbits(w) >= 1,
        pow2(nbits(w)) >= w,
        w >= 2 ==> pow2(nbits(w)) <= 2 * w - 2,
        w <= 1 ==> pow2(nbits(w)) == 2,
    decreases w,
{
    lemma2_to64();
    if w <= 2 {
    } else {
        let w2 = ((w + 1) / 2) as nat;
        assert(2 <= w2 < w);
        lemma_nbits_bounds(w2);
        lemma_pow2_unfold(nbits(w));
        assert(pow2(nbits(w)) == 2 * pow2(nbits(w2)));
        assert(2 * w2 >= w);
        assert(2 * w2 <= w + 1);
    }
}

/// Any addressable width fits in 65 bits.
pub proof fn lemma_nbits_small(w: nat)
    requires
        w <= usize::MAX as nat,
    ensures
        nbits(w) <= 65,
{
    lemma_nbits_bounds(w);
    lemma2_to64();
    if nbits(w) > 65 {
        if nbits(w) > 66 {
            lemma_pow2_strictly_increases(66, nbits(w));
        }
        assert(pow2(nbits(w)) >= pow2(66));
        assert(pow2(66) == 4 * pow2(64)) by {
            lemma_pow2_unfold(66);
            lemma_pow2_unfold(65);
        }
        assert(false);
    }
}

/// An exponent whose power of two fits the machine is itself small.
pub proof fn lemma_pow2_within_usize(n: nat)
    requires
        pow2(n) <= usize::MAX as nat,
    ensures
        n <= 65,
{
    lemma2_to64();
    if n > 65 {
        if n > 66 {
            lemma_pow2_strictly_increases(66, n);
        }
        assert(pow2(n) >= pow2(66));
        assert(pow2(66) == 4 * pow2(64)) by {
            lemma_pow2_unfold(66);
            lemma_pow2_unfold(65);
        }
        assert(false);
    }
}

/// `nbits`, as executable arithmetic.
pub fn nbits_exec(w: usize) -> (r: usize)
    ensures
        r as nat == nbits(w as nat),
        r >= 1,
    decreases w,
{
    if w <= 2 {
        1
    } else {
        proof {
            assert((w - 1) / 2 + 1 == (w + 1) as int / 2);
            lemma_nbits_small(((w as int + 1) / 2) as nat);
        }
        let half = (w - 1) / 2 + 1;
        1 + nbits_exec(half)
    }
}

/// Bit `j` (variable `j` of `n`, MSB-first) of the point with index `i`.
pub open spec fn hyper_bit(i: int, j: nat, n: nat) -> int
    recommends
        j < n,
{
    (i / pow2(bit_pos(n, j)) as int) % 2
}

/// The example function `f(a, b, c) = 2ab + 3c`, evaluated on the first
/// three entries of `variables`.
pub fn evaluate_function(variables: &Vec<u32>) -> (r: u32)
    requires
        variables@.len() >= 3,
        2 * (variables@[0] as int) <= u32::MAX as int,
        2 * (variables@[0] as int) * (variables@[1] as int) <= u32::MAX as int,
        3 * (variables@[2] as int) <= u32::MAX as int,
        2 * (variables@[0] as int) * (variables@[1] as int) + 3 * (variables@[2] as int)
            <= u32::MAX as int,
    ensures
        r as int == 2 * (variables@[0] as int) * (variables@[1] as int) + 3 * (
        variables@[2] as int),
{
    2 * variables[0] * variables[1] + 3 * variables[2]
}

/// The truth-table entry of `f(a, b, c) = 2ab + 3c` at point index `i`.
pub open spec fn truth_table_entry(i: int, n: nat) -> int
    recommends
        n >= 3,
{
    2 * hyper_bit(i, 0, n) * hyper_bit(i, 1, n) + 3 * hyper_bit(i, 2, n)
}

/// Tabulate `f(a, b, c) = 2ab + 3c` over the whole boolean hypercube, one
/// entry per point, indexed MSB-first.
pub fn create_truth_table(num_variables: usize) -> (r: Vec<u32>)
    requires
        num_variables >= 3,
        pow2(num_variables as nat) <= usize::MAX as nat,
    ensures
        r@.len() == pow2(num_variables as nat),
        forall|i: int|
            0 <= i < r@.len() ==> r@[i] as int == truth_table_entry(i, num_variables as nat),
{
    let n = num_variables;
    let num_combinations = pow2_exact(n);
    let mut truth_table: Vec<u32> = Vec::new();
    let mut combination: usize = 0;
    while combination < num_combinations
        invariant
            num_combinations as nat == pow2(n as nat),
            n >= 3,
            pow2(n as nat) <= usize::MAX as nat,
            combination <= num_combinations,
            truth_table@.len() == combination,
            forall|i: int|
                0 <= i < combination ==> truth_table@[i] as int == truth_table_entry(i, n as nat),
        decreases num_combinations - combination,
    {
        let mut variables: Vec<u32> = Vec::new();
        let mut j: usize = 0;
        while j < n
            invariant
                n >= 3,
                pow2(n as nat) <= usize::MAX as nat,
                j <= n,
                variables@.len() == j,
                forall|jj: int|
                    0 <= jj < j ==> variables@[jj] as int == hyper_bit(
                        combination as int,
                        jj as nat,
                        n as nat,
                    ),
                forall|jj: int| 0 <= jj < j ==> variables@[jj] <= 1,
            decreases n - j,
        {
            proof {
                lemma_pow2_strictly_increases(((n - 1 - j) as usize) as nat, n as nat);
            }
            let divisor = pow2_exact(n - 1 - j);
            proof {
                lemma_pow2_pos(((n - 1 - j) as usize) as nat);
            }
            let b: u32 = ((combination / divisor) % 2) as u32;
            variables.push(b);
            j = j + 1;
        }
        proof {
            let b0 = variables@[0] as int;
            let b1 = variables@[1] as int;
            let b2 = variables@[2] as int;
            assert(2 * b0 * b1 + 3 * b2 <= u32::MAX as int) by (nonlinear_arith)
                requires
                    0 <= b0 <= 1,
                    0 <= b1 <= 1,
                    0 <= b2 <= 1,
            ;
            assert(2 * b0 * b1 <= u32::MAX as int) by (nonlinear_arith)
                requires
                    0 <= b0 <= 1,
                    0 <= b1 <= 1,
            ;
        }
        let value = evaluate_function(&variables);
        truth_table.push(value);
        combination = combination + 1;
    }
    truth_table
}

/// The affine interpolation through the two source entries of target
/// index `k`, over plain machine integers.
pub open spec fn interp_entry(tt: Seq<u32>, n: nat, j: nat, v: int, k: int) -> int
    recommends
        j < n,
{
    let y1 = tt[idx_lo(n, j, k)] as int;
    let y2 = tt[idx_hi(n, j, k)] as int;
    y1 + v * (y2 - y1)
}

/// The interpolation at target index `k` neither underflows nor overflows
/// `u32` arithmetic.
pub open spec fn interp_entry_fits(tt: Seq<u32>, n: nat, j: nat, v: int, k: int) -> bool
    recommends
        j < n,
{
    let y1 = tt[idx_lo(n, j, k)] as int;
    let y2 = tt[idx_hi(n, j, k)] as int;
    y1 <= y2 && y1 + v * (y2 - y1) <= u32::MAX as int
}

/// The half-length vector obtained by fixing variable `fixed_var_index`
/// of an `n`-variable truth table to `fixed_var_value`: each target entry
/// is the affine interpolation through its two source entries.
pub fn partial_evaluation(
    truth_table: &Vec<u32>,
    num_variables: usize,
    fixed_var_index: usize,
    fixed_var_value: u32,
) -> (r: Vec<u32>)
    requires
        num_variables >= 1,
        truth_table@.len() == pow2(num_variables as nat),
        fixed_var_index < num_variables,
        forall|k: int|
            0 <= k < pow2((num_variables - 1) as nat) ==> #[trigger] interp_entry_fits(
                truth_table@,
                num_variables as nat,
                fixed_var_index as nat,
                fixed_var_value as int,
                k,
            ),
    ensures
        r@.len() == pow2((num_variables - 1) as nat),
        forall|k: int|
            0 <= k < r@.len() ==> r@[k] as int == #[trigger] interp_entry(
                truth_table@,
                num_variables as nat,
                fixed_var_index as nat,
                fixed_var_value as int,
                k,
            ),
{
    let n = num_variables;
    let full_size = truth_table.len();
    proof {
        assert(full_size as nat == pow2(n as nat));
        vstd::arithmetic::power2::lemma2_to64();
        if n >= 2 {
            lemma_pow2_strictly_increases((n - 1) as nat, n as nat);
        }
    }
    let subset_size = pow2_exact(n - 1);
    let bp = n - 1 - fixed_var_index;
    proof {
        if (bp as nat) < (n - 1) as nat {
            lemma_pow2_strictly_increases(bp as nat, (n - 1) as nat);
        }
        lemma_pow2_pos(bp as nat);
    }
    let h = pow2_exact(bp);
    let mut result: Vec<u32> = Vec::new();
    let mut i: usize = 0;
    while i < subset_size
        invariant
            n >= 1,
            fixed_var_index < n,
            bp == n - 1 - fixed_var_index,
            h as nat == pow2(bp as nat),
            h >= 1,
            subset_size as nat == pow2((n - 1) as nat),
            truth_table@.len() == pow2(n as nat),
            pow2(n as nat) <= usize::MAX as nat,
            forall|k: int|
                0 <= k < pow2((n - 1) as nat) ==> #[trigger] interp_entry_fits(
                    truth_table@,
                    n as nat,
                    fixed_var_index as nat,
                    fixed_var_value as int,
                    k,
                ),
            i <= subset_size,
            result@.len() == i,
            forall|k: int|
                0 <= k < i ==> result@[k] as int == #[trigger] interp_entry(
                    truth_table@,
                    n as nat,
                    fixed_var_index as nat,
                    fixed_var_value as int,
                    k,
                ),
        decreases subset_size - i,
    {
        proof {
            lemma_idx_bounds(n as nat, fixed_var_index as nat, i as int);
            lemma_pow2_unfold((bp + 1) as nat);
            if bp + 1 < n {
                lemma_pow2_strictly_increases((bp + 1) as nat, n as nat);
            }
            assert(2 * h as nat <= pow2(n as nat));
            assert(idx_lo(n as nat, fixed_var_index as nat, i as int) == (i as int % h as int) + (
            i as int / h as int) * (2 * h as int));
            assert(interp_entry_fits(
                truth_table@,
                n as nat,
                fixed_var_index as nat,
                fixed_var_value as int,
                i as int,
            ));
        }
        let original_index_0 = (i % h) + (i / h) * (2 * h);
        let original_index_1 = original_index_0 + h;
        let y1 = truth_table[original_index_0];
        let y2 = truth_table[original_index_1];
        result.push(y1 + fixed_var_value * (y2 - y1));
        proof {
            assert(result@[i as int] as int == interp_entry(
                truth_table@,
                n as nat,
                fixed_var_index as nat,
                fixed_var_value as int,
                i as int,
            ));
        }
        i = i + 1;
    }
    result
}

} // verus!
