//! Multilinear polynomials in evaluation form.
//!
//! A polynomial over `n` variables is stored as its `2^n` values on the
//! boolean hypercube, indexed MSB-first (variable 0 is the most significant
//! bit).  Fixing a variable produces a new polynomial with one variable
//! fewer; each entry of the result is the unique affine interpolation
//! through the two source entries that differ only in the fixed bit.

use vstd::prelude::*;
use vstd::arithmetic::power2::{pow2, lemma_pow2_unfold, lemma_pow2_strictly_increases, lemma2_to64};
use vstd::arithmetic::div_mod::{lemma_mod_bound, lemma_small_mod, lemma_add_mod_noop_right};
use crate::field::{
    Fp, f_add, f_sub, f_mul, in_field, p, MODULUS, lemma_f_add_assoc, lemma_interp_add,
};
use crate::errors::Error;
use crate::hypercube::{idx_lo, idx_hi, lemma_idx_bounds, lemma_idx_var0, pow2_checked, pow2_exact};

verus! {

/// The spec-level values of a vector of field elements.
pub open spec fn vals(s: Seq<Fp>) -> Seq<int> {
    s.map(|i: int, x: Fp| x@)
}

/// Every entry is a canonical field representative.
pub open spec fn all_in_field(s: Seq<int>) -> bool {
    forall|i: int| 0 <= i < s.len() ==> in_field(#[trigger] s[i])
}

/// Entry `k` of the vector that fixes variable `j` of `n` to `v`: the
/// affine interpolation through the two source entries of `k`.
pub open spec fn fix_var_entry(e: Seq<int>, n: nat, j: nat, v: int, k: int) -> int
    recommends
        j < n,
{
    f_add(e[idx_lo(n, j, k)], f_mul(v, f_sub(e[idx_hi(n, j, k)], e[idx_lo(n, j, k)])))
}

/// The half-length evaluation vector that fixes variable `j` of `n` to `v`.
pub open spec fn fix_var(e: Seq<int>, n: nat, j: nat, v: int) -> Seq<int>
    recommends
        e.len() == pow2(n),
        1 <= n,
        j < n,
{
    Seq::new(pow2((n - 1) as nat), |k: int| fix_var_entry(e, n, j, v, k))
}

/// The field sum of all entries.
pub open spec fn sum_evals(e: Seq<int>) -> int
    decreases e.len(),
{
    if e.len() == 0 {
        0
    } else {
        f_add(sum_evals(e.drop_last()), e.last())
    }
}

/// The value of the polynomial with evaluation vector `e` over `n`
/// variables at the point `a`: variable 0 of the shrinking polynomial is
/// fixed to each assignment value in turn, and the terminal single entry
/// is the result.
pub open spec fn eval_at(e: Seq<int>, n: nat, a: Seq<int>) -> int
    recommends
        e.len() == pow2(n),
        a.len() == n,
    decreases a.len(),
{
    if a.len() == 0 {
        if e.len() > 0 {
            e[0]
        } else {
            0
        }
    } else {
        eval_at(fix_var(e, n, 0, a[0]), (n - 1) as nat, a.drop_first())
    }
}

/// A multilinear polynomial in evaluation form.
///
/// `new` refuses zero variables, but `partial_evaluate` on a one-variable
/// polynomial yields the degenerate zero-variable result, whose single
/// entry is the fully evaluated scalar.
#[derive(Debug)]
pub struct MultilinearPoly {
    pub evaluations: Vec<Fp>,
    pub num_vars: usize,
}

impl View for MultilinearPoly {
    type V = Seq<int>;

    open spec fn view(&self) -> Seq<int> {
        vals(self.evaluations@)
    }
}

impl MultilinearPoly {
    /// The structural invariant: the vector covers the whole hypercube and
    /// every entry is a canonical representative.
    pub open spec fn wf(&self) -> bool {
        &&& self@.len() == pow2(self.num_vars as nat)
        &&& all_in_field(self@)
    }

    /// Wrap an evaluation vector, refusing a zero arity and a length
    /// other than `2^num_vars`.
    pub fn new(evaluations: Vec<Fp>, num_vars: usize) -> (r: Result<MultilinearPoly, Error>)
        ensures
            num_vars == 0 ==> r == Err::<MultilinearPoly, Error>(Error::InvalidArity),
            num_vars >= 1 && evaluations@.len() != pow2(num_vars as nat) ==> r == Err::<
                MultilinearPoly,
                Error,
            >(Error::InvalidLength),
            num_vars >= 1 && evaluations@.len() == pow2(num_vars as nat) ==> (r matches Ok(q)
                && q@ == vals(evaluations@) && q.num_vars == num_vars),
            num_vars >= 1 && evaluations@.len() == pow2(num_vars as nat) && all_in_field(
                vals(evaluations@),
            ) ==> (r matches Ok(q) && q.wf()),
    {
        if num_vars == 0 {
            return Err(Error::InvalidArity);
        }
        let len = evaluations.len();
        match pow2_checked(num_vars) {
            Some(size) => {
                if len == size {
                    Ok(MultilinearPoly { evaluations, num_vars })
                } else {
                    Err(Error::InvalidLength)
                }
            },
            None => Err(Error::InvalidLength),
        }
    }

    /// Fix variable `var_index` to `value`, producing a polynomial with
    /// one variable fewer; refuses an index at or past the arity.
    pub fn partial_evaluate(&self, var_index: usize, value: Fp) -> (r: Result<
        MultilinearPoly,
        Error,
    >)
        requires
            self.wf(),
            in_field(value@),
        ensures
            var_index >= self.num_vars ==> r == Err::<MultilinearPoly, Error>(
                Error::IndexOutOfRange,
            ),
            var_index < self.num_vars ==> (r matches Ok(q) && {
                &&& q.num_vars == self.num_vars - 1
                &&& q@ == fix_var(self@, self.num_vars as nat, var_index as nat, value@)
                &&& q.wf()
            }),
    {
        if var_index >= self.num_vars {
            return Err(Error::IndexOutOfRange);
        }
        let n = self.num_vars;
        let len = self.evaluations.len();
        let bp = n - 1 - var_index;
        proof {
            lemma_pow2_unfold(n as nat);
            if (bp as nat) < (n - 1) as nat {
                lemma_pow2_strictly_increases(bp as nat, (n - 1) as nat);
            }
            if n >= 2 {
                lemma_pow2_strictly_increases((n - 1) as nat, n as nat);
            }
        }
        let h = pow2_exact(bp);
        let half = len / 2;
        let ghost target = fix_var(self@, n as nat, var_index as nat, value@);
        let mut out: Vec<Fp> = Vec::new();
        let mut k: usize = 0;
        while k < half
            invariant
                self.wf(),
                in_field(value@),
                n == self.num_vars,
                var_index < n,
                bp == n - 1 - var_index,
                h as nat == pow2(bp as nat),
                half as nat == pow2((n - 1) as nat),
                pow2(n as nat) <= usize::MAX as nat,
                target == fix_var(self@, n as nat, var_index as nat, value@),
                k <= half,
                out@.len() == k,
                forall|t: int| 0 <= t < k ==> vals(out@)[t] == target[t],
                all_in_field(vals(out@)),
            decreases half - k,
        {
            proof {
                lemma_idx_bounds(n as nat, var_index as nat, k as int);
                lemma_pow2_unfold((bp + 1) as nat);
                if bp + 1 < n {
                    lemma_pow2_strictly_increases((bp + 1) as nat, n as nat);
                }
                assert(2 * h as nat <= pow2(n as nat));
                assert(idx_lo(n as nat, var_index as nat, k as int) == (k as int % h as int) + (
                k as int / h as int) * (2 * h as int));
            }
            let lo = (k % h) + (k / h) * (2 * h);
            let hi = lo + h;
            let e0 = self.evaluations[lo];
            let e1 = self.evaluations[hi];
            proof {
                assert(self@[lo as int] == e0@);
                assert(self@[hi as int] == e1@);
                assert(in_field(self@[lo as int]));
                assert(in_field(self@[hi as int]));
            }
            let ghost prev = out@;
            out.push(e0.add(value.mul(e1.sub(e0))));
            proof {
                assert(vals(out@)[k as int] == fix_var_entry(
                    self@,
                    n as nat,
                    var_index as nat,
                    value@,
                    k as int,
                ));
                assert forall|t: int| 0 <= t < k + 1 implies in_field(
                    #[trigger] vals(out@)[t],
                ) by {
                    if t < k {
                        assert(out@[t] == prev[t]);
                        assert(vals(out@)[t] == vals(prev)[t]);
                        assert(in_field(vals(prev)[t]));
                    }
                }
                assert forall|t: int| 0 <= t < k + 1 implies #[trigger] vals(out@)[t]
                    == target[t] by {
                    if t < k {
                        assert(out@[t] == prev[t]);
                        assert(vals(prev)[t] == target[t]);
                    }
                }
            }
            k = k + 1;
        }
        proof {
            assert(vals(out@) =~= target);
        }
        Ok(MultilinearPoly { evaluations: out, num_vars: n - 1 })
    }

    /// Evaluate at a full assignment, fixing the lowest remaining variable
    /// to each assignment value in turn; refuses an assignment whose
    /// length differs from the arity.
    pub fn evaluate_poly(&self, assignment: &Vec<Fp>) -> (r: Result<Fp, Error>)
        requires
            self.wf(),
            all_in_field(vals(assignment@)),
        ensures
            assignment@.len() != self.num_vars ==> r == Err::<Fp, Error>(Error::ArityMismatch),
            assignment@.len() == self.num_vars ==> (r matches Ok(v) && v@ == eval_at(
                self@,
                self.num_vars as nat,
                vals(assignment@),
            ) && in_field(v@)),
    {
        if assignment.len() != self.num_vars {
            return Err(Error::ArityMismatch);
        }
        proof {
            lemma2_to64();
        }
        if self.num_vars == 0 {
            proof {
                assert(in_field(self@[0]));
            }
            return Ok(self.evaluations[0]);
        }
        let ghost a = vals(assignment@);
        let ghost n = self.num_vars as nat;
        proof {
            assert(in_field(vals(assignment@)[0]));
            assert(vals(assignment@)[0] == assignment@[0]@);
        }
        let first = match self.partial_evaluate(0, assignment[0]) {
            Ok(q) => q,
            Err(e) => {
                proof {
                    assert(false);
                }
                return Err(e);
            },
        };
        proof {
            assert(a.drop_first() =~= a.skip(1));
            assert(a[0] == assignment@[0]@);
        }
        let mut cur = first;
        let mut i: usize = 1;
        while i < self.num_vars
            invariant
                self.wf(),
                all_in_field(vals(assignment@)),
                a == vals(assignment@),
                n == self.num_vars as nat,
                assignment@.len() == self.num_vars,
                1 <= i <= self.num_vars,
                cur.wf(),
                cur.num_vars == self.num_vars - i,
                eval_at(cur@, cur.num_vars as nat, a.skip(i as int)) == eval_at(self@, n, a),
            decreases self.num_vars - i,
        {
            proof {
                assert(in_field(vals(assignment@)[i as int]));
                assert(vals(assignment@)[i as int] == assignment@[i as int]@);
            }
            let next = match cur.partial_evaluate(0, assignment[i]) {
                Ok(q) => q,
                Err(e) => {
                    proof {
                        assert(false);
                    }
                    return Err(e);
                },
            };
            proof {
                assert(a.skip(i as int).drop_first() =~= a.skip(i as int + 1));
                assert(a.skip(i as int)[0] == a[i as int]);
                assert(a[i as int] == assignment@[i as int]@);
            }
            cur = next;
            i = i + 1;
        }
        proof {
            assert(a.skip(self.num_vars as int) =~= Seq::<int>::empty());
            assert(in_field(cur@[0]));
        }
        Ok(cur.evaluations[0])
    }

    /// The field sum of the whole evaluation vector.
    pub fn sum_over_hypercube(&self) -> (r: Fp)
        requires
            self.wf(),
        ensures
            r@ == sum_evals(self@),
            in_field(r@),
    {
        let mut acc = Fp::zero();
        let mut i: usize = 0;
        while i < self.evaluations.len()
            invariant
                self.wf(),
                i <= self.evaluations@.len(),
                acc@ == sum_evals(self@.take(i as int)),
                in_field(acc@),
            decreases self.evaluations@.len() - i,
        {
            proof {
                assert(in_field(self@[i as int]));
                assert(self@.take(i as int + 1).drop_last() =~= self@.take(i as int));
                assert(self@.take(i as int + 1).last() == self@[i as int]);
            }
            acc = acc.add(self.evaluations[i]);
            i = i + 1;
        }
        proof {
            assert(self@.take(self.evaluations@.len() as int) =~= self@);
        }
        acc
    }

    /// An owned copy of the polynomial, entry for entry.
    pub fn duplicate(&self) -> (r: MultilinearPoly)
        ensures
            r@ == self@,
            r.num_vars == self.num_vars,
    {
        let mut evaluations: Vec<Fp> = Vec::new();
        let mut i: usize = 0;
        while i < self.evaluations.len()
            invariant
                i <= self.evaluations@.len(),
                evaluations@.len() == i,
                forall|t: int| 0 <= t < i ==> evaluations@[t] == self.evaluations@[t],
            decreases self.evaluations@.len() - i,
        {
            evaluations.push(self.evaluations[i]);
            i = i + 1;
        }
        proof {
            assert(evaluations@ =~= self.evaluations@);
        }
        MultilinearPoly { evaluations, num_vars: self.num_vars }
    }

    /// The raw evaluation vector: the polynomial is already in evaluation
    /// form, so this is the full set of hypercube values.
    pub fn full_evaluate(&self) -> (r: &Vec<Fp>)
        ensures
            vals(r@) == self@,
    {
        &self.evaluations
    }
}

/// Fixing a variable to 0 or to 1 reproduces exactly the two boundary
/// sub-cubes of the original evaluation vector: the entries whose fixed
/// bit is 0, respectively 1.
pub proof fn lemma_fix_var_boundary(e: Seq<int>, n: nat, j: nat)
    requires
        all_in_field(e),
        e.len() == pow2(n),
        1 <= n,
        j < n,
    ensures
        forall|k: int|
            0 <= k < pow2((n - 1) as nat) ==> fix_var(e, n, j, 0)[k] == e[#[trigger] idx_lo(
                n,
                j,
                k,
            )],
        forall|k: int|
            0 <= k < pow2((n - 1) as nat) ==> fix_var(e, n, j, 1)[k] == e[#[trigger] idx_hi(
                n,
                j,
                k,
            )],
{
    assert forall|k: int| 0 <= k < pow2((n - 1) as nat) implies fix_var(e, n, j, 0)[k] == e[
    #[trigger] idx_lo(n, j, k)] && fix_var(e, n, j, 1)[k] == e[idx_hi(n, j, k)] by {
        lemma_idx_bounds(n, j, k);
        let a = e[idx_lo(n, j, k)];
        let b = e[idx_hi(n, j, k)];
        assert(in_field(a));
        assert(in_field(b));
        assert(f_mul(0, f_sub(b, a)) == 0) by {
            lemma_small_mod(0, MODULUS as nat);
        }
        assert(f_add(a, 0) == a) by {
            lemma_small_mod(a as nat, MODULUS as nat);
        }
        assert(fix_var(e, n, j, 0)[k] == a);
        lemma_mod_bound(b - a, p());
        assert(f_mul(1, f_sub(b, a)) == f_sub(b, a)) by {
            lemma_small_mod(f_sub(b, a) as nat, MODULUS as nat);
        }
        assert(f_add(a, f_sub(b, a)) == b) by {
            lemma_add_mod_noop_right(a, b - a, p());
            lemma_small_mod(b as nat, MODULUS as nat);
        }
        assert(fix_var(e, n, j, 1)[k] == b);
    }
}

/// Fixing variable 0 to 0 keeps the first half of the vector; fixing it
/// to 1 keeps the second half.
pub proof fn lemma_fix_var0_halves(e: Seq<int>, n: nat)
    requires
        all_in_field(e),
        e.len() == pow2(n),
        1 <= n,
    ensures
        fix_var(e, n, 0, 0) == e.take(pow2((n - 1) as nat) as int),
        fix_var(e, n, 0, 1) == e.skip(pow2((n - 1) as nat) as int),
{
    let half = pow2((n - 1) as nat) as int;
    lemma_pow2_unfold(n);
    lemma_fix_var_boundary(e, n, 0);
    assert forall|k: int| 0 <= k < half implies fix_var(e, n, 0, 0)[k] == e.take(half)[k]
        && fix_var(e, n, 0, 1)[k] == e.skip(half)[k] by {
        lemma_idx_var0(n, k);
    }
    assert(fix_var(e, n, 0, 0) =~= e.take(half));
    assert(fix_var(e, n, 0, 1) =~= e.skip(half));
}

/// The pointwise affine interpolation of two equal-length vectors at `c`.
pub open spec fn interp_seq(a: Seq<int>, b: Seq<int>, c: int) -> Seq<int>
    recommends
        a.len() == b.len(),
{
    Seq::new(a.len(), |k: int| f_add(a[k], f_mul(c, f_sub(b[k], a[k]))))
}

/// A field sum is a canonical representative.
pub proof fn lemma_sum_in_field(s: Seq<int>)
    ensures
        in_field(sum_evals(s)),
{
    if s.len() > 0 {
        lemma_mod_bound(sum_evals(s.drop_last()) + s.last(), p());
    }
}

/// Summing a concatenation sums the parts.
pub proof fn lemma_sum_concat(a: Seq<int>, b: Seq<int>)
    ensures
        sum_evals(a + b) == f_add(sum_evals(a), sum_evals(b)),
    decreases b.len(),
{
    lemma_sum_in_field(a);
    if b.len() == 0 {
        assert(a + b =~= a);
        lemma_small_mod(sum_evals(a) as nat, MODULUS as nat);
    } else {
        assert((a + b).drop_last() =~= a + b.drop_last());
        assert((a + b).last() == b.last());
        lemma_sum_concat(a, b.drop_last());
        lemma_f_add_assoc(sum_evals(a), sum_evals(b.drop_last()), b.last());
    }
}

/// The sum of a pointwise affine interpolation is the affine interpolation
/// of the two sums: what lets one round of sumcheck fold the claim.
pub proof fn lemma_sum_interp(a: Seq<int>, b: Seq<int>, c: int)
    requires
        a.len() == b.len(),
    ensures
        sum_evals(interp_seq(a, b, c)) == f_add(
            sum_evals(a),
            f_mul(c, f_sub(sum_evals(b), sum_evals(a))),
        ),
    decreases a.len(),
{
    if a.len() == 0 {
        lemma_small_mod(0, MODULUS as nat);
        assert(f_sub(0, 0) == 0);
        assert(f_mul(c, 0) == 0);
        assert(f_add(0, 0) == 0);
    } else {
        let a2 = a.drop_last();
        let b2 = b.drop_last();
        assert(interp_seq(a, b, c).drop_last() =~= interp_seq(a2, b2, c));
        assert(interp_seq(a, b, c).last() == f_add(a.last(), f_mul(c, f_sub(b.last(), a.last()))));
        lemma_sum_interp(a2, b2, c);
        lemma_interp_add(sum_evals(a2), sum_evals(b2), a.last(), b.last(), c);
        assert(sum_evals(a) == f_add(sum_evals(a2), a.last()));
        assert(sum_evals(b) == f_add(sum_evals(b2), b.last()));
    }
}

/// Every entry of a fixed-variable vector is a canonical representative.
pub proof fn lemma_fix_var_in_field(e: Seq<int>, n: nat, j: nat, v: int)
    requires
        1 <= n,
        j < n,
    ensures
        all_in_field(fix_var(e, n, j, v)),
{
    assert forall|k: int| 0 <= k < fix_var(e, n, j, v).len() implies in_field(
        #[trigger] fix_var(e, n, j, v)[k],
    ) by {
        lemma_mod_bound(
            e[idx_lo(n, j, k)] + f_mul(v, f_sub(e[idx_hi(n, j, k)], e[idx_lo(n, j, k)])),
            p(),
        );
    }
}

/// A vector of zeros sums to zero.
pub proof fn lemma_sum_zero(s: Seq<int>)
    requires
        forall|t: int| 0 <= t < s.len() ==> #[trigger] s[t] == 0,
    ensures
        sum_evals(s) == 0,
    decreases s.len(),
{
    if s.len() > 0 {
        lemma_sum_zero(s.drop_last());
        lemma_small_mod(0, MODULUS as nat);
    }
}

/// Raising one entry by `d` raises the sum by `d`.
pub proof fn lemma_sum_add_at(a: Seq<int>, b: Seq<int>, t0: int, d: int)
    requires
        a.len() == b.len(),
        0 <= t0 < a.len(),
        forall|t: int| 0 <= t < a.len() && t != t0 ==> a[t] == #[trigger] b[t],
        b[t0] == f_add(a[t0], d),
    ensures
        sum_evals(b) == f_add(sum_evals(a), d),
    decreases a.len(),
{
    let n = a.len() as int;
    if t0 == n - 1 {
        assert(a.drop_last() =~= b.drop_last());
        lemma_f_add_assoc(sum_evals(a.drop_last()), a.last(), d);
    } else {
        assert forall|t: int| 0 <= t < n - 1 && t != t0 implies a.drop_last()[t] == #[trigger] b
            .drop_last()[t] by {
            assert(a.drop_last()[t] == a[t]);
            assert(b.drop_last()[t] == b[t]);
        }
        lemma_sum_add_at(a.drop_last(), b.drop_last(), t0, d);
        lemma_f_add_assoc(sum_evals(a.drop_last()), d, a.last());
        lemma_f_add_assoc(sum_evals(a.drop_last()), a.last(), d);
        assert(f_add(d, a.last()) == f_add(a.last(), d));
    }
}

/// Fixing variable 0 to `c` is the pointwise affine interpolation of the
/// two halves of the vector at `c`.
pub proof fn lemma_fix_var0_interp(e: Seq<int>, n: nat, c: int)
    requires
        e.len() == pow2(n),
        1 <= n,
    ensures
        fix_var(e, n, 0, c) == interp_seq(
            e.take(pow2((n - 1) as nat) as int),
            e.skip(pow2((n - 1) as nat) as int),
            c,
        ),
{
    let half = pow2((n - 1) as nat) as int;
    lemma_pow2_unfold(n);
    assert forall|k: int| 0 <= k < half implies fix_var(e, n, 0, c)[k] == interp_seq(
        e.take(half),
        e.skip(half),
        c,
    )[k] by {
        lemma_idx_var0(n, k);
        assert(e.take(half)[k] == e[k]);
        assert(e.skip(half)[k] == e[k + half]);
    }
    assert(fix_var(e, n, 0, c) =~= interp_seq(e.take(half), e.skip(half), c));
}

/// The hypercube index spelled by a boolean assignment, MSB-first.
pub open spec fn bits_index(bits: Seq<int>) -> int
    decreases bits.len(),
{
    if bits.len() == 0 {
        0
    } else {
        bits[0] * pow2((bits.len() - 1) as nat) + bits_index(bits.drop_first())
    }
}

/// A boolean assignment spells an index inside the hypercube.
pub proof fn lemma_bits_index_bound(bits: Seq<int>)
    requires
        forall|j: int| 0 <= j < bits.len() ==> 0 <= #[trigger] bits[j] <= 1,
    ensures
        0 <= bits_index(bits) < pow2(bits.len()),
    decreases bits.len(),
{
    lemma2_to64();
    if bits.len() > 0 {
        let rest = bits.drop_first();
        assert forall|j: int| 0 <= j < rest.len() implies 0 <= #[trigger] rest[j] <= 1 by {
            assert(rest[j] == bits[j + 1]);
        }
        lemma_bits_index_bound(rest);
        lemma_pow2_unfold(bits.len() as nat);
        if bits[0] == 0 {
        } else {
            assert(bits[0] == 1);
        }
    }
}

/// The vector left after fixing the leading variables, one bit at a
/// time, each at variable 0 of the shrinking polynomial.
pub open spec fn fix_prefix(e: Seq<int>, n: nat, bits: Seq<int>) -> Seq<int>
    recommends
        e.len() == pow2(n),
        bits.len() <= n,
    decreases bits.len(),
{
    if bits.len() == 0 {
        e
    } else {
        fix_prefix(fix_var(e, n, 0, bits[0]), (n - 1) as nat, bits.drop_first())
    }
}

/// Fixing the leading variables at boolean bits selects one aligned
/// block of the vector: the block whose index the bits spell.
pub proof fn lemma_fix_prefix_block(e: Seq<int>, n: nat, bits: Seq<int>)
    requires
        all_in_field(e),
        e.len() == pow2(n),
        bits.len() <= n,
        forall|j: int| 0 <= j < bits.len() ==> 0 <= #[trigger] bits[j] <= 1,
    ensures
        fix_prefix(e, n, bits) == Seq::new(
            pow2((n - bits.len()) as nat),
            |t: int| e[bits_index(bits) * pow2((n - bits.len()) as nat) + t],
        ),
    decreases bits.len(),
{
    lemma2_to64();
    if bits.len() == 0 {
        assert(fix_prefix(e, n, bits) =~= Seq::new(pow2(n), |t: int| e[0 * pow2(n) + t]));
    } else {
        let b0 = bits[0];
        let k = bits.len() as int;
        let half = pow2((n - 1) as nat) as int;
        let blk = pow2((n - k) as nat) as int;
        lemma_pow2_unfold(n);
        lemma_fix_var0_halves(e, n);
        let e1 = fix_var(e, n, 0, b0);
        assert(0 <= b0 <= 1);
        assert forall|t: int| 0 <= t < half implies #[trigger] e1[t] == e[b0 * half + t] by {
            if b0 == 0 {
                assert(e1 == fix_var(e, n, 0, 0));
                assert(e1 == e.take(half));
                assert(e.take(half)[t] == e[t]);
            } else {
                assert(b0 == 1);
                assert(e1 == fix_var(e, n, 0, 1));
                assert(e1 == e.skip(half));
                assert(e.skip(half)[t] == e[t + half]);
            }
        }
        assert(e1.len() == half);
        assert forall|t: int| 0 <= t < half implies in_field(#[trigger] e1[t]) by {
            assert(e1[t] == e[b0 * half + t]);
            if b0 == 0 {
                assert(in_field(e[b0 * half + t]));
            } else {
                assert(b0 == 1);
                assert(in_field(e[b0 * half + t]));
            }
        }
        let rest = bits.drop_first();
        assert forall|j: int| 0 <= j < rest.len() implies 0 <= #[trigger] rest[j] <= 1 by {
            assert(rest[j] == bits[j + 1]);
        }
        lemma_fix_prefix_block(e1, (n - 1) as nat, rest);
        lemma_bits_index_bound(rest);
        let bi = bits_index(rest);
        // Block indices compose: the bit prepends half a level.
        vstd::arithmetic::power2::lemma_pow2_adds((k - 1) as nat, (n - k) as nat);
        assert(pow2((k - 1) as nat) * pow2((n - k) as nat) == pow2((n - 1) as nat));
        assert(bits_index(bits) == b0 * pow2((k - 1) as nat) + bi);
        let target = Seq::new(blk as nat, |t: int| e[bits_index(bits) * blk + t]);
        assert forall|t: int| 0 <= t < blk implies #[trigger] fix_prefix(e, n, bits)[t]
            == target[t] by {
            assert(fix_prefix(e, n, bits) == fix_prefix(e1, (n - 1) as nat, rest));
            assert(fix_prefix(e1, (n - 1) as nat, rest)[t] == e1[bi * blk + t]);
            assert(0 <= bi * blk && bi * blk + t < half) by (nonlinear_arith)
                requires
                    0 <= bi < pow2((k - 1) as nat),
                    0 <= t < blk,
                    blk == pow2((n - k) as nat),
                    half == pow2((k - 1) as nat) * pow2((n - k) as nat),
                    blk >= 1,
            ;
            assert(e1[bi * blk + t] == e[b0 * half + (bi * blk + t)]);
            assert((b0 * pow2((k - 1) as nat) + bi) * blk == b0 * half + bi * blk)
                by (nonlinear_arith)
                requires
                    half == pow2((k - 1) as nat) * pow2((n - k) as nat),
                    blk == pow2((n - k) as nat),
            ;
            assert(target[t] == e[(b0 * pow2((k - 1) as nat) + bi) * blk + t]);
        }
        assert(fix_prefix(e, n, bits).len() == blk);
        assert(fix_prefix(e, n, bits) =~= target);
    }
}

/// Full-evaluation agreement on the hypercube: at a boolean assignment,
/// the polynomial returns exactly the raw entry whose index the
/// assignment spells under the MSB-first convention.
pub proof fn lemma_eval_on_hypercube(e: Seq<int>, n: nat, bits: Seq<int>)
    requires
        all_in_field(e),
        e.len() == pow2(n),
        bits.len() == n,
        forall|j: int| 0 <= j < n ==> 0 <= #[trigger] bits[j] <= 1,
    ensures
        eval_at(e, n, bits) == e[bits_index(bits)],
    decreases n,
{
    lemma2_to64();
    if n > 0 {
        let half = pow2((n - 1) as nat) as int;
        let b0 = bits[0];
        let e2 = fix_var(e, n, 0, b0);
        lemma_fix_var_boundary(e, n, 0);
        lemma_pow2_unfold(n);
        assert forall|k: int| 0 <= k < half implies #[trigger] e2[k] == e[b0 * half + k] by {
            lemma_idx_var0(n, k);
            if b0 == 0 {
                assert(e2[k] == e[idx_lo(n, 0, k)]);
            } else {
                assert(b0 == 1);
                assert(e2[k] == e[idx_hi(n, 0, k)]);
            }
        }
        assert(e2.len() == half);
        assert forall|k: int| 0 <= k < half implies in_field(#[trigger] e2[k]) by {
            assert(e2[k] == e[b0 * half + k]);
            if b0 == 0 {
                assert(in_field(e[b0 * half + k]));
            } else {
                assert(b0 == 1);
                assert(in_field(e[b0 * half + k]));
            }
        }
        let rest = bits.drop_first();
        assert forall|j: int| 0 <= j < rest.len() implies 0 <= #[trigger] rest[j] <= 1 by {
            assert(rest[j] == bits[j + 1]);
        }
        lemma_eval_on_hypercube(e2, (n - 1) as nat, rest);
        lemma_bits_index_bound(rest);
        assert(e2[bits_index(rest)] == e[b0 * half + bits_index(rest)]);
        if b0 == 0 {
        } else {
            assert(b0 == 1);
        }
        assert(bits_index(bits) == b0 * half + bits_index(rest));
    }
}

} // verus!
