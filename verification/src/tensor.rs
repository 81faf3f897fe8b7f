//! Tensor combinations of two multilinear polynomials.
//!
//! The tensor sum (respectively product) of `b` over `m` variables and
//! `c` over `n` variables is the polynomial over `m + n` variables whose
//! value at the point `(x, y)` is `b(x) + c(y)` (respectively
//! `b(x) * c(y)`); on evaluation vectors this is every pairwise
//! combination, `b`'s index in the high bits.

use vstd::prelude::*;
use vstd::arithmetic::power2::{pow2, lemma_pow2_adds, lemma_pow2_pos};
use vstd::arithmetic::div_mod::lemma_fundamental_div_mod_converse;
use vstd::arithmetic::mul::lemma_mul_inequality;
use crate::field::{Fp, f_add, f_mul, in_field};
use crate::multilinear::{MultilinearPoly, vals, all_in_field};
use crate::hypercube::lemma_pow2_within_usize;

verus! {

/// The pairwise field sums of a vector with itself, left index in the
/// high bits: the evaluation vector of `W(x) + W(y)`.
pub open spec fn tensor_sum_vals(w: Seq<int>) -> Seq<int> {
    Seq::new(w.len() * w.len(), |t: int| f_add(w[t / w.len() as int], w[t % w.len() as int]))
}

/// The pairwise field products of a vector with itself, left index in
/// the high bits: the evaluation vector of `W(x) * W(y)`.
pub open spec fn tensor_product_vals(w: Seq<int>) -> Seq<int> {
    Seq::new(w.len() * w.len(), |t: int| f_mul(w[t / w.len() as int], w[t % w.len() as int]))
}

/// The pairwise field sums of two evaluation vectors, left index in the
/// high bits.
pub fn tensor_addition(b: &MultilinearPoly, c: &MultilinearPoly) -> (r: MultilinearPoly)
    requires
        b.wf(),
        c.wf(),
        pow2((b.num_vars + c.num_vars) as nat) <= usize::MAX as nat,
    ensures
        r.num_vars == b.num_vars + c.num_vars,
        r.wf(),
        r@.len() == b@.len() * c@.len(),
        forall|t: int|
            0 <= t < r@.len() ==> r@[t] == f_add(
                b@[t / c@.len() as int],
                c@[t % c@.len() as int],
            ),
{
    let evaluations = tensor_apply(b, c, false);
    proof {
        lemma_pow2_adds(b.num_vars as nat, c.num_vars as nat);
        lemma_pow2_within_usize((b.num_vars + c.num_vars) as nat);
    }
    MultilinearPoly { evaluations, num_vars: b.num_vars + c.num_vars }
}

/// The pairwise field products of two evaluation vectors, left index in
/// the high bits.
pub fn tensor_multiplication(b: &MultilinearPoly, c: &MultilinearPoly) -> (r: MultilinearPoly)
    requires
        b.wf(),
        c.wf(),
        pow2((b.num_vars + c.num_vars) as nat) <= usize::MAX as nat,
    ensures
        r.num_vars == b.num_vars + c.num_vars,
        r.wf(),
        r@.len() == b@.len() * c@.len(),
        forall|t: int|
            0 <= t < r@.len() ==> r@[t] == f_mul(
                b@[t / c@.len() as int],
                c@[t % c@.len() as int],
            ),
{
    let evaluations = tensor_apply(b, c, true);
    proof {
        lemma_pow2_adds(b.num_vars as nat, c.num_vars as nat);
        lemma_pow2_within_usize((b.num_vars + c.num_vars) as nat);
    }
    MultilinearPoly { evaluations, num_vars: b.num_vars + c.num_vars }
}

/// The shared pairwise walk of both tensor combinations: every pair
/// `(i, j)`, in row-major order, combined by one field operation.
fn tensor_apply(b: &MultilinearPoly, c: &MultilinearPoly, multiply: bool) -> (out: Vec<Fp>)
    requires
        b.wf(),
        c.wf(),
        pow2((b.num_vars + c.num_vars) as nat) <= usize::MAX as nat,
    ensures
        out@.len() == b@.len() * c@.len(),
        all_in_field(vals(out@)),
        forall|t: int|
            0 <= t < out@.len() ==> vals(out@)[t] == if multiply {
                f_mul(b@[t / c@.len() as int], c@[t % c@.len() as int])
            } else {
                f_add(b@[t / c@.len() as int], c@[t % c@.len() as int])
            },
{
    let b_len = b.evaluations.len();
    let c_len = c.evaluations.len();
    proof {
        lemma_pow2_adds(b.num_vars as nat, c.num_vars as nat);
        lemma_pow2_pos(c.num_vars as nat);
        lemma_pow2_pos(b.num_vars as nat);
    }
    let mut out: Vec<Fp> = Vec::new();
    let mut i: usize = 0;
    while i < b_len
        invariant
            b.wf(),
            c.wf(),
            b_len == b@.len(),
            c_len == c@.len(),
            c_len >= 1,
            b_len * c_len <= usize::MAX,
            i <= b_len,
            out@.len() == i * c_len,
            all_in_field(vals(out@)),
            forall|t: int|
                0 <= t < out@.len() ==> vals(out@)[t] == if multiply {
                    f_mul(b@[t / c@.len() as int], c@[t % c@.len() as int])
                } else {
                    f_add(b@[t / c@.len() as int], c@[t % c@.len() as int])
                },
        decreases b_len - i,
    {
        let mut j: usize = 0;
        proof {
            lemma_mul_inequality(i as int + 1, b_len as int, c_len as int);
        }
        while j < c_len
            invariant
                b.wf(),
                c.wf(),
                b_len == b@.len(),
                c_len == c@.len(),
                c_len >= 1,
                b_len * c_len <= usize::MAX,
                i < b_len,
                (i + 1) * c_len <= b_len * c_len,
                j <= c_len,
                out@.len() == i * c_len + j,
                all_in_field(vals(out@)),
                forall|t: int|
                    0 <= t < out@.len() ==> vals(out@)[t] == if multiply {
                        f_mul(b@[t / c@.len() as int], c@[t % c@.len() as int])
                    } else {
                        f_add(b@[t / c@.len() as int], c@[t % c@.len() as int])
                    },
            decreases c_len - j,
        {
            proof {
                assert(in_field(b@[i as int]));
                assert(in_field(c@[j as int]));
                assert(i * c_len + j < (i + 1) * c_len) by (nonlinear_arith)
                    requires
                        0 <= j < c_len,
                        0 <= i,
                ;
            }
            let bi = b.evaluations[i];
            let cj = c.evaluations[j];
            let entry = if multiply {
                bi.mul(cj)
            } else {
                bi.add(cj)
            };
            let ghost prev = out@;
            let ghost t_new = out@.len() as int;
            out.push(entry);
            proof {
                lemma_fundamental_div_mod_converse(t_new, c_len as int, i as int, j as int);
                assert forall|t: int| 0 <= t < out@.len() implies #[trigger] vals(out@)[t] == (
                if multiply {
                    f_mul(b@[t / c@.len() as int], c@[t % c@.len() as int])
                } else {
                    f_add(b@[t / c@.len() as int], c@[t % c@.len() as int])
                }) by {
                    if t < t_new {
                        assert(out@[t] == prev[t]);
                        assert(vals(out@)[t] == vals(prev)[t]);
                    } else {
                        assert(out@[t] == entry);
                    }
                }
                assert forall|t: int| 0 <= t < out@.len() implies in_field(
                    #[trigger] vals(out@)[t],
                ) by {
                    if t < t_new {
                        assert(out@[t] == prev[t]);
                        assert(vals(out@)[t] == vals(prev)[t]);
                        assert(in_field(vals(prev)[t]));
                    } else {
                        assert(out@[t] == entry);
                    }
                }
            }
            j = j + 1;
        }
        i = i + 1;
        proof {
            assert(i * c_len == (i - 1) * c_len + c_len) by (nonlinear_arith);
        }
    }
    proof {
        assert(out@.len() == b_len * c_len);
    }
    out
}

} // verus!
