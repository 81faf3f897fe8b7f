//! The sumcheck instance behind the layer identity: a degree-2 protocol.
//!
//! Fixing the output point of the layer identity leaves a sum over
//! `(x, y)` of `add(x,y)·(W(x)+W(y)) + mul(x,y)·(W(x)·W(y))`: a pointwise
//! combination of four multilinear polynomials that is quadratic in each
//! variable.  Each round therefore sends three values — the restriction
//! at 0, 1 and 2 — and the verifier folds them through the quadratic
//! interpolation formula instead of the affine one.

use vstd::prelude::*;
use vstd::pervasive::unreached;
use vstd::arithmetic::div_mod::{
    lemma_small_mod, lemma_mod_bound, lemma_mod_add_multiples_vanish, lemma_add_mod_noop,
    lemma_add_mod_noop_right, lemma_sub_mod_noop, lemma_mul_mod_noop, lemma_mul_mod_noop_left,
    lemma_mul_mod_noop_right,
};
use vstd::arithmetic::mul::lemma_mul_basics;
use crate::field::{Fp, f_add, f_sub, f_mul, fp_bytes, in_field, p, MODULUS};
use crate::errors::Error;
use vstd::arithmetic::power2::{pow2, lemma_pow2_unfold, lemma2_to64};
use crate::multilinear::{
    MultilinearPoly, vals, all_in_field, fix_var, fix_prefix, bits_index, sum_evals, eval_at,
    lemma_fix_var0_halves, lemma_sum_concat, lemma_fix_var_in_field, lemma_fix_prefix_block,
};
use crate::hypercube::lemma_idx_var0;
use crate::circuit::{
    Gate, Opt, wiring_vec, layer_eval, layer_ok, layer_rhs, layer_rhs_entries, indicator,
    has_gate, lemma_layer_identity,
};
use crate::tensor::{tensor_sum_vals, tensor_product_vals};
use crate::field::lemma_bytes_mod_in_field;
use crate::transcript::{Transcript, challenge_of, keccak_of};
use crate::sumcheck::vec_bytes;

verus! {

/// The multiplicative inverse of 2: folding three round values into a
/// quadratic needs a division by 2.
pub const INV_TWO: u64 = 0x7fff_ffff_8000_0001;

/// The inverse of 2 as a spec-level integer.
pub open spec fn inv_two() -> int {
    INV_TWO as int
}

/// The unique polynomial of degree at most 2 through `(0, g0)`, `(1, g1)`
/// and `(2, g2)`, evaluated at `c`:
/// `g0·(c-1)(c-2)/2 - g1·c(c-2) + g2·c(c-1)/2`.
pub open spec fn quad_at(g0: int, g1: int, g2: int, c: int) -> int {
    f_add(
        f_sub(
            f_mul(f_mul(g0, f_mul(f_sub(c, 1), f_sub(c, 2))), inv_two()),
            f_mul(g1, f_mul(c, f_sub(c, 2))),
        ),
        f_mul(f_mul(g2, f_mul(c, f_sub(c, 1))), inv_two()),
    )
}

/// The pointwise combination the layer identity sums: entry `k` is
/// `a[k]·s[k] + m[k]·q[k]`.
pub open spec fn combined_vals(a: Seq<int>, s: Seq<int>, m: Seq<int>, q: Seq<int>) -> Seq<int> {
    Seq::new(a.len(), |k: int| f_add(f_mul(a[k], s[k]), f_mul(m[k], q[k])))
}

/// The four polynomials of one layer-identity instance, over a common
/// set of variables: the two wiring predicates restricted to the output
/// point, and the two tensor combinations of the next layer's values.
pub struct LayerTerms {
    pub add_wiring: MultilinearPoly,
    pub pair_sums: MultilinearPoly,
    pub mul_wiring: MultilinearPoly,
    pub pair_products: MultilinearPoly,
}

impl LayerTerms {
    /// All four polynomials are well formed and share one arity.
    pub open spec fn wf(&self) -> bool {
        &&& self.add_wiring.wf()
        &&& self.pair_sums.wf()
        &&& self.mul_wiring.wf()
        &&& self.pair_products.wf()
        &&& self.pair_sums.num_vars == self.add_wiring.num_vars
        &&& self.mul_wiring.num_vars == self.add_wiring.num_vars
        &&& self.pair_products.num_vars == self.add_wiring.num_vars
    }
}

/// A proof for one layer-identity sum: the claimed value and one round
/// polynomial — three evaluations, since rounds are quadratic — per
/// variable.
pub struct LayerProof {
    pub claimed_sum: Fp,
    pub round_polys: Vec<(Fp, Fp, Fp)>,
}

/// Every value carried by the proof is a canonical representative.
pub open spec fn layer_proof_wf(pr: &LayerProof) -> bool {
    &&& in_field(pr.claimed_sum@)
    &&& forall|i: int|
        0 <= i < pr.round_polys@.len() ==> in_field((#[trigger] pr.round_polys@[i]).0@)
            && in_field(pr.round_polys@[i].1@) && in_field(pr.round_polys@[i].2@)
}

/// The byte stream of one quadratic round polynomial.
pub open spec fn triple_bytes(g0: int, g1: int, g2: int) -> Seq<u8> {
    fp_bytes(g0) + fp_bytes(g1) + fp_bytes(g2)
}

/// The transcript preamble of a layer-identity run: all four evaluation
/// vectors, then the claimed sum.
pub open spec fn layer_init_transcript(
    a: Seq<int>,
    s: Seq<int>,
    m: Seq<int>,
    q: Seq<int>,
    claimed: int,
) -> Seq<u8> {
    vec_bytes(a) + vec_bytes(s) + vec_bytes(m) + vec_bytes(q) + fp_bytes(claimed)
}

/// The round polynomials an honest prover emits: each round restricts
/// all four polynomials at 0, 1 and 2 in variable 0, sums the pointwise
/// combination, absorbs the triple, and folds at the challenge.
pub open spec fn prove_layer_rounds(
    a: Seq<int>,
    s: Seq<int>,
    m: Seq<int>,
    q: Seq<int>,
    n: nat,
    t: Seq<u8>,
) -> Seq<(int, int, int)>
    decreases n,
{
    if n == 0 {
        Seq::<(int, int, int)>::empty()
    } else {
        let g0 = sum_evals(
            combined_vals(
                fix_var(a, n, 0, 0),
                fix_var(s, n, 0, 0),
                fix_var(m, n, 0, 0),
                fix_var(q, n, 0, 0),
            ),
        );
        let g1 = sum_evals(
            combined_vals(
                fix_var(a, n, 0, 1),
                fix_var(s, n, 0, 1),
                fix_var(m, n, 0, 1),
                fix_var(q, n, 0, 1),
            ),
        );
        let g2 = sum_evals(
            combined_vals(
                fix_var(a, n, 0, 2),
                fix_var(s, n, 0, 2),
                fix_var(m, n, 0, 2),
                fix_var(q, n, 0, 2),
            ),
        );
        let t2 = t + triple_bytes(g0, g1, g2);
        let c = challenge_of(t2);
        seq![(g0, g1, g2)] + prove_layer_rounds(
            fix_var(a, n, 0, c),
            fix_var(s, n, 0, c),
            fix_var(m, n, 0, c),
            fix_var(q, n, 0, c),
            (n - 1) as nat,
            t2,
        )
    }
}

/// The verifier's round loop: each round must split the running claim as
/// `g(0) + g(1)`, and the claim folds to the quadratic's value at the
/// challenge; the final claim is compared against the four polynomials
/// evaluated at the collected point.
#[verifier::opaque]
pub open spec fn verify_layer_rounds(
    a: Seq<int>,
    s: Seq<int>,
    m: Seq<int>,
    q: Seq<int>,
    n: nat,
    rounds: Seq<(int, int, int)>,
    expected: int,
    t: Seq<u8>,
    cs: Seq<int>,
) -> Result<(), Error>
    decreases rounds.len(),
{
    if rounds.len() == 0 {
        let final_value = f_add(
            f_mul(eval_at(a, n, cs), eval_at(s, n, cs)),
            f_mul(eval_at(m, n, cs), eval_at(q, n, cs)),
        );
        if expected == final_value {
            Ok(())
        } else {
            Err(Error::FinalMismatch)
        }
    } else {
        let g0 = rounds[0].0;
        let g1 = rounds[0].1;
        let g2 = rounds[0].2;
        if expected != f_add(g0, g1) {
            Err(Error::InconsistentRound)
        } else {
            let t2 = t + triple_bytes(g0, g1, g2);
            let c = challenge_of(t2);
            verify_layer_rounds(
                a,
                s,
                m,
                q,
                n,
                rounds.drop_first(),
                quad_at(g0, g1, g2, c),
                t2,
                cs.push(c),
            )
        }
    }
}

/// What the verifier answers on a layer-identity instance and a proof.
pub open spec fn verify_layer_model(
    a: Seq<int>,
    s: Seq<int>,
    m: Seq<int>,
    q: Seq<int>,
    n: nat,
    claimed: int,
    rounds: Seq<(int, int, int)>,
) -> Result<(), Error> {
    if rounds.len() != n {
        Err(Error::RoundCountMismatch)
    } else {
        verify_layer_rounds(
            a,
            s,
            m,
            q,
            n,
            rounds,
            claimed,
            layer_init_transcript(a, s, m, q, claimed),
            Seq::<int>::empty(),
        )
    }
}

/// The spec-level values of a vector of quadratic round polynomials.
pub open spec fn layer_rounds_view(rs: Seq<(Fp, Fp, Fp)>) -> Seq<(int, int, int)> {
    rs.map(|i: int, r: (Fp, Fp, Fp)| (r.0@, r.1@, r.2@))
}

/// The verifier's answer when no rounds remain: the final four-way
/// evaluation check.
pub proof fn lemma_verify_layer_base(
    a: Seq<int>,
    s: Seq<int>,
    m: Seq<int>,
    q: Seq<int>,
    n: nat,
    rs: Seq<(int, int, int)>,
    expected: int,
    t: Seq<u8>,
    cs: Seq<int>,
)
    requires
        rs.len() == 0,
    ensures
        verify_layer_rounds(a, s, m, q, n, rs, expected, t, cs) == if expected == f_add(
            f_mul(eval_at(a, n, cs), eval_at(s, n, cs)),
            f_mul(eval_at(m, n, cs), eval_at(q, n, cs)),
        ) {
            Ok::<(), Error>(())
        } else {
            Err::<(), Error>(Error::FinalMismatch)
        },
{
    reveal(verify_layer_rounds);
}

/// The verifier's answer when the first remaining round breaks the
/// running claim.
pub proof fn lemma_verify_layer_err(
    a: Seq<int>,
    s: Seq<int>,
    m: Seq<int>,
    q: Seq<int>,
    n: nat,
    rs: Seq<(int, int, int)>,
    expected: int,
    t: Seq<u8>,
    cs: Seq<int>,
)
    requires
        rs.len() > 0,
        expected != f_add(rs[0].0, rs[0].1),
    ensures
        verify_layer_rounds(a, s, m, q, n, rs, expected, t, cs) == Err::<(), Error>(
            Error::InconsistentRound,
        ),
{
    reveal(verify_layer_rounds);
}

/// One verifier round: absorb the triple, fold through the quadratic,
/// and continue.
pub proof fn lemma_verify_layer_step(
    a: Seq<int>,
    s: Seq<int>,
    m: Seq<int>,
    q: Seq<int>,
    n: nat,
    rs: Seq<(int, int, int)>,
    expected: int,
    t: Seq<u8>,
    cs: Seq<int>,
)
    requires
        rs.len() > 0,
        expected == f_add(rs[0].0, rs[0].1),
    ensures
        verify_layer_rounds(a, s, m, q, n, rs, expected, t, cs) == verify_layer_rounds(
            a,
            s,
            m,
            q,
            n,
            rs.drop_first(),
            quad_at(
                rs[0].0,
                rs[0].1,
                rs[0].2,
                challenge_of(t + triple_bytes(rs[0].0, rs[0].1, rs[0].2)),
            ),
            t + triple_bytes(rs[0].0, rs[0].1, rs[0].2),
            cs.push(challenge_of(t + triple_bytes(rs[0].0, rs[0].1, rs[0].2))),
        ),
{
    reveal(verify_layer_rounds);
}

/// The field sum of the pointwise combination of four equally long
/// vectors.
fn combined_sum(
    a: &MultilinearPoly,
    s: &MultilinearPoly,
    m: &MultilinearPoly,
    q: &MultilinearPoly,
) -> (r: Fp)
    requires
        a.wf(),
        s.wf(),
        m.wf(),
        q.wf(),
        s@.len() == a@.len(),
        m@.len() == a@.len(),
        q@.len() == a@.len(),
    ensures
        r@ == sum_evals(combined_vals(a@, s@, m@, q@)),
        in_field(r@),
{
    let ghost target = combined_vals(a@, s@, m@, q@);
    let mut acc = Fp::zero();
    let mut k: usize = 0;
    while k < a.evaluations.len()
        invariant
            a.wf(),
            s.wf(),
            m.wf(),
            q.wf(),
            s@.len() == a@.len(),
            m@.len() == a@.len(),
            q@.len() == a@.len(),
            target == combined_vals(a@, s@, m@, q@),
            k <= a@.len(),
            acc@ == sum_evals(target.take(k as int)),
            in_field(acc@),
        decreases a@.len() - k,
    {
        proof {
            assert(in_field(a@[k as int]));
            assert(in_field(s@[k as int]));
            assert(in_field(m@[k as int]));
            assert(in_field(q@[k as int]));
            assert(target.take(k as int + 1).drop_last() =~= target.take(k as int));
            assert(target.take(k as int + 1).last() == target[k as int]);
        }
        let left = a.evaluations[k].mul(s.evaluations[k]);
        let right = m.evaluations[k].mul(q.evaluations[k]);
        acc = acc.add(left.add(right));
        k = k + 1;
    }
    proof {
        assert(target.take(a@.len() as int) =~= target);
    }
    acc
}

/// Restrict all four polynomials of an instance at `value` in variable 0.
fn fix_terms(terms: &LayerTerms, value: Fp) -> (r: LayerTerms)
    requires
        terms.wf(),
        terms.add_wiring.num_vars >= 1,
        in_field(value@),
    ensures
        r.wf(),
        r.add_wiring.num_vars == terms.add_wiring.num_vars - 1,
        r.add_wiring@ == fix_var(
            terms.add_wiring@,
            terms.add_wiring.num_vars as nat,
            0,
            value@,
        ),
        r.pair_sums@ == fix_var(terms.pair_sums@, terms.add_wiring.num_vars as nat, 0, value@),
        r.mul_wiring@ == fix_var(terms.mul_wiring@, terms.add_wiring.num_vars as nat, 0, value@),
        r.pair_products@ == fix_var(
            terms.pair_products@,
            terms.add_wiring.num_vars as nat,
            0,
            value@,
        ),
{
    let add_wiring = match terms.add_wiring.partial_evaluate(0, value) {
        Ok(x) => x,
        Err(_) => unreached(),
    };
    let pair_sums = match terms.pair_sums.partial_evaluate(0, value) {
        Ok(x) => x,
        Err(_) => unreached(),
    };
    let mul_wiring = match terms.mul_wiring.partial_evaluate(0, value) {
        Ok(x) => x,
        Err(_) => unreached(),
    };
    let pair_products = match terms.pair_products.partial_evaluate(0, value) {
        Ok(x) => x,
        Err(_) => unreached(),
    };
    LayerTerms { add_wiring, pair_sums, mul_wiring, pair_products }
}

/// Absorb the whole instance and the claimed sum: the protocol preamble.
fn absorb_instance(transcript: &mut Transcript, terms: &LayerTerms, claimed_sum: Fp)
    ensures
        final(transcript)@ == old(transcript)@ + layer_init_transcript(
            terms.add_wiring@,
            terms.pair_sums@,
            terms.mul_wiring@,
            terms.pair_products@,
            claimed_sum@,
        ),
{
    crate::sumcheck::absorb_elements(transcript, &terms.add_wiring.evaluations);
    crate::sumcheck::absorb_elements(transcript, &terms.pair_sums.evaluations);
    crate::sumcheck::absorb_elements(transcript, &terms.mul_wiring.evaluations);
    crate::sumcheck::absorb_elements(transcript, &terms.pair_products.evaluations);
    let claim_bytes = claimed_sum.to_be_bytes();
    transcript.absorb(claim_bytes.as_slice());
    proof {
        assert(final(transcript)@ =~= old(transcript)@ + layer_init_transcript(
            terms.add_wiring@,
            terms.pair_sums@,
            terms.mul_wiring@,
            terms.pair_products@,
            claimed_sum@,
        ));
    }
}

/// Produce a proof that the pointwise combination of the instance sums
/// to `claimed_sum` over the whole boolean hypercube.  The rounds are
/// exactly the honest-prover rounds for the four vectors and the
/// Fiat-Shamir preamble.
pub fn prove_layer(terms: &LayerTerms, claimed_sum: Fp) -> (pr: LayerProof)
    requires
        terms.wf(),
        in_field(claimed_sum@),
    ensures
        pr.claimed_sum == claimed_sum,
        pr.round_polys@.len() == terms.add_wiring.num_vars,
        layer_rounds_view(pr.round_polys@) == prove_layer_rounds(
            terms.add_wiring@,
            terms.pair_sums@,
            terms.mul_wiring@,
            terms.pair_products@,
            terms.add_wiring.num_vars as nat,
            layer_init_transcript(
                terms.add_wiring@,
                terms.pair_sums@,
                terms.mul_wiring@,
                terms.pair_products@,
                claimed_sum@,
            ),
        ),
        layer_proof_wf(&pr),
{
    let mut transcript = Transcript::new();
    absorb_instance(&mut transcript, terms, claimed_sum);
    let ghost t0 = transcript@;
    let total_vars = terms.add_wiring.num_vars;
    let mut current = LayerTerms {
        add_wiring: terms.add_wiring.duplicate(),
        pair_sums: terms.pair_sums.duplicate(),
        mul_wiring: terms.mul_wiring.duplicate(),
        pair_products: terms.pair_products.duplicate(),
    };
    let mut round_polys: Vec<(Fp, Fp, Fp)> = Vec::new();
    let mut r: usize = 0;
    while r < total_vars
        invariant
            terms.wf(),
            total_vars == terms.add_wiring.num_vars,
            r <= total_vars,
            current.wf(),
            current.add_wiring.num_vars == total_vars - r,
            round_polys@.len() == r,
            forall|i: int|
                0 <= i < r ==> in_field((#[trigger] round_polys@[i]).0@) && in_field(
                    round_polys@[i].1@,
                ) && in_field(round_polys@[i].2@),
            prove_layer_rounds(
                terms.add_wiring@,
                terms.pair_sums@,
                terms.mul_wiring@,
                terms.pair_products@,
                total_vars as nat,
                t0,
            ) == layer_rounds_view(round_polys@) + prove_layer_rounds(
                current.add_wiring@,
                current.pair_sums@,
                current.mul_wiring@,
                current.pair_products@,
                current.add_wiring.num_vars as nat,
                transcript@,
            ),
        decreases total_vars - r,
    {
        let ghost mv = current.add_wiring.num_vars as nat;
        let ghost t_before = transcript@;
        let ghost prev_rounds = round_polys@;
        let at0 = fix_terms(&current, Fp::zero());
        let g0 = combined_sum(&at0.add_wiring, &at0.pair_sums, &at0.mul_wiring, &at0.pair_products);
        let at1 = fix_terms(&current, Fp::one());
        let g1 = combined_sum(&at1.add_wiring, &at1.pair_sums, &at1.mul_wiring, &at1.pair_products);
        let at2 = fix_terms(&current, Fp::new(2));
        let g2 = combined_sum(&at2.add_wiring, &at2.pair_sums, &at2.mul_wiring, &at2.pair_products);
        let b0 = g0.to_be_bytes();
        transcript.absorb(b0.as_slice());
        let b1 = g1.to_be_bytes();
        transcript.absorb(b1.as_slice());
        let b2 = g2.to_be_bytes();
        transcript.absorb(b2.as_slice());
        proof {
            assert(transcript@ =~= t_before + triple_bytes(g0@, g1@, g2@));
        }
        round_polys.push((g0, g1, g2));
        let challenge = transcript.squeeze_challenge();
        let next = fix_terms(&current, challenge);
        proof {
            assert(prove_layer_rounds(
                current.add_wiring@,
                current.pair_sums@,
                current.mul_wiring@,
                current.pair_products@,
                mv,
                t_before,
            ) == seq![(g0@, g1@, g2@)] + prove_layer_rounds(
                next.add_wiring@,
                next.pair_sums@,
                next.mul_wiring@,
                next.pair_products@,
                (mv - 1) as nat,
                transcript@,
            ));
            assert(layer_rounds_view(round_polys@) =~= layer_rounds_view(prev_rounds) + seq![
                (g0@, g1@, g2@),
            ]);
            assert((layer_rounds_view(prev_rounds) + seq![(g0@, g1@, g2@)]) + prove_layer_rounds(
                next.add_wiring@,
                next.pair_sums@,
                next.mul_wiring@,
                next.pair_products@,
                (mv - 1) as nat,
                transcript@,
            ) =~= layer_rounds_view(prev_rounds) + (seq![(g0@, g1@, g2@)] + prove_layer_rounds(
                next.add_wiring@,
                next.pair_sums@,
                next.mul_wiring@,
                next.pair_products@,
                (mv - 1) as nat,
                transcript@,
            )));
        }
        current = next;
        r = r + 1;
    }
    proof {
        assert(prove_layer_rounds(
            current.add_wiring@,
            current.pair_sums@,
            current.mul_wiring@,
            current.pair_products@,
            0,
            transcript@,
        ) =~= Seq::<(int, int, int)>::empty());
        assert(layer_rounds_view(round_polys@) + Seq::<(int, int, int)>::empty()
            =~= layer_rounds_view(round_polys@));
    }
    LayerProof { claimed_sum, round_polys }
}

/// Check a layer-identity proof against the instance.  The answer is
/// exactly what the protocol model prescribes: a wrong round count, an
/// inconsistent round, a final mismatch, or acceptance.
#[verifier::rlimit(60)]
pub fn verify_layer(terms: &LayerTerms, pr: &LayerProof) -> (r: Result<(), Error>)
    requires
        terms.wf(),
        layer_proof_wf(pr),
    ensures
        r == verify_layer_model(
            terms.add_wiring@,
            terms.pair_sums@,
            terms.mul_wiring@,
            terms.pair_products@,
            terms.add_wiring.num_vars as nat,
            pr.claimed_sum@,
            layer_rounds_view(pr.round_polys@),
        ),
{
    let total_vars = terms.add_wiring.num_vars;
    if pr.round_polys.len() != total_vars {
        return Err(Error::RoundCountMismatch);
    }
    let mut transcript = Transcript::new();
    absorb_instance(&mut transcript, terms, pr.claimed_sum);
    let ghost rounds = layer_rounds_view(pr.round_polys@);
    let ghost t0 = transcript@;
    let ghost full = verify_layer_rounds(
        terms.add_wiring@,
        terms.pair_sums@,
        terms.mul_wiring@,
        terms.pair_products@,
        total_vars as nat,
        rounds,
        pr.claimed_sum@,
        t0,
        Seq::<int>::empty(),
    );
    let two = Fp::new(2);
    let mut expected = pr.claimed_sum;
    let mut challenges: Vec<Fp> = Vec::new();
    let mut i: usize = 0;
    proof {
        assert(rounds.skip(0) =~= rounds);
        assert(vals(challenges@) =~= Seq::<int>::empty());
    }
    while i < pr.round_polys.len()
        invariant
            terms.wf(),
            layer_proof_wf(pr),
            total_vars == terms.add_wiring.num_vars,
            pr.round_polys@.len() == total_vars,
            rounds == layer_rounds_view(pr.round_polys@),
            two@ == 2,
            full == verify_layer_model(
                terms.add_wiring@,
                terms.pair_sums@,
                terms.mul_wiring@,
                terms.pair_products@,
                total_vars as nat,
                pr.claimed_sum@,
                layer_rounds_view(pr.round_polys@),
            ),
            i <= pr.round_polys@.len(),
            challenges@.len() == i,
            forall|t: int| 0 <= t < i ==> in_field((#[trigger] challenges@[t])@),
            in_field(expected@),
            full == verify_layer_rounds(
                terms.add_wiring@,
                terms.pair_sums@,
                terms.mul_wiring@,
                terms.pair_products@,
                total_vars as nat,
                rounds.skip(i as int),
                expected@,
                transcript@,
                vals(challenges@),
            ),
        decreases pr.round_polys@.len() - i,
    {
        let round = pr.round_polys[i];
        let g0 = round.0;
        let g1 = round.1;
        let g2 = round.2;
        proof {
            assert(in_field((pr.round_polys@[i as int]).0@));
            assert(in_field(pr.round_polys@[i as int].1@));
            assert(in_field(pr.round_polys@[i as int].2@));
            assert(rounds.skip(i as int)[0] == rounds[i as int]);
            assert(rounds[i as int] == (g0@, g1@, g2@));
        }
        let split = g0.add(g1);
        proof {
            crate::field::lemma_fp_eq(expected, split);
        }
        if expected != split {
            proof {
                lemma_verify_layer_err(
                    terms.add_wiring@,
                    terms.pair_sums@,
                    terms.mul_wiring@,
                    terms.pair_products@,
                    total_vars as nat,
                    rounds.skip(i as int),
                    expected@,
                    transcript@,
                    vals(challenges@),
                );
            }
            return Err(Error::InconsistentRound);
        }
        let ghost t_before = transcript@;
        let ghost prev_challenges = challenges@;
        let ghost prev_expected = expected@;
        let b0 = g0.to_be_bytes();
        transcript.absorb(b0.as_slice());
        let b1 = g1.to_be_bytes();
        transcript.absorb(b1.as_slice());
        let b2 = g2.to_be_bytes();
        transcript.absorb(b2.as_slice());
        proof {
            assert(transcript@ =~= t_before + triple_bytes(g0@, g1@, g2@));
        }
        let challenge = transcript.squeeze_challenge();
        challenges.push(challenge);
        let one = Fp::one();
        let inv2 = Fp::new(INV_TWO);
        proof {
            vstd::arithmetic::div_mod::lemma_small_mod(INV_TWO as nat, MODULUS as nat);
            assert(inv2@ == inv_two());
        }
        let lagrange0 = g0.mul(challenge.sub(one).mul(challenge.sub(two))).mul(inv2);
        let lagrange1 = g1.mul(challenge.mul(challenge.sub(two)));
        let lagrange2 = g2.mul(challenge.mul(challenge.sub(one))).mul(inv2);
        expected = lagrange0.sub(lagrange1).add(lagrange2);
        proof {
            assert(expected@ == quad_at(g0@, g1@, g2@, challenge@));
            assert(rounds.skip(i as int).drop_first() =~= rounds.skip(i as int + 1));
            assert(vals(challenges@) =~= vals(prev_challenges).push(challenge@));
            lemma_verify_layer_step(
                terms.add_wiring@,
                terms.pair_sums@,
                terms.mul_wiring@,
                terms.pair_products@,
                total_vars as nat,
                rounds.skip(i as int),
                prev_expected,
                t_before,
                vals(prev_challenges),
            );
        }
        i = i + 1;
    }
    proof {
        assert(rounds.skip(pr.round_polys@.len() as int) =~= Seq::<(int, int, int)>::empty());
        lemma_verify_layer_base(
            terms.add_wiring@,
            terms.pair_sums@,
            terms.mul_wiring@,
            terms.pair_products@,
            total_vars as nat,
            rounds.skip(pr.round_polys@.len() as int),
            expected@,
            transcript@,
            vals(challenges@),
        );
        assert forall|t: int| 0 <= t < vals(challenges@).len() implies in_field(
            #[trigger] vals(challenges@)[t],
        ) by {
            assert(vals(challenges@)[t] == challenges@[t]@);
        }
    }
    let value_a = match terms.add_wiring.evaluate_poly(&challenges) {
        Ok(v) => v,
        Err(_) => unreached(),
    };
    let value_s = match terms.pair_sums.evaluate_poly(&challenges) {
        Ok(v) => v,
        Err(_) => unreached(),
    };
    let value_m = match terms.mul_wiring.evaluate_poly(&challenges) {
        Ok(v) => v,
        Err(_) => unreached(),
    };
    let value_q = match terms.pair_products.evaluate_poly(&challenges) {
        Ok(v) => v,
        Err(_) => unreached(),
    };
    let final_value = value_a.mul(value_s).add(value_m.mul(value_q));
    proof {
        crate::field::lemma_fp_eq(expected, final_value);
    }
    if expected == final_value {
        Ok(())
    } else {
        Err(Error::FinalMismatch)
    }
}

/// The value at `v` of the affine map through `x0` at 0 and `x1` at 1.
pub open spec fn affine_at(x0: int, x1: int, v: int) -> int {
    f_add(x0, f_mul(v, f_sub(x1, x0)))
}

/// An affine value as a single residue.
proof fn lemma_affine_residue(x0: int, x1: int, v: int)
    ensures
        affine_at(x0, x1, v) == (x0 + v * (x1 - x0)) % p(),
{
    lemma_mul_mod_noop_right(v, x1 - x0, p());
    lemma_add_mod_noop_right(x0, v * (x1 - x0), p());
}

/// Twice the inverse of 2 reduces to 1.
proof fn lemma_two_inv_two()
    ensures
        (2 * inv_two()) % p() == 1,
{
    assert(2 * inv_two() == p() + 1);
    lemma_mod_add_multiples_vanish(1, p());
    lemma_small_mod(1, MODULUS as nat);
}

/// Halving is injective on canonical representatives.
proof fn lemma_two_cancel(x: int, y: int)
    requires
        in_field(x),
        in_field(y),
        f_mul(2, x) == f_mul(2, y),
    ensures
        x == y,
{
    lemma_two_inv_two();
    assert forall|u: int| in_field(u) implies (inv_two() * ((2 * u) % p())) % p() == u by {
        lemma_mul_mod_noop_right(inv_two(), 2 * u, p());
        assert((inv_two() * (2 * u)) == u * (2 * inv_two())) by (nonlinear_arith);
        lemma_mul_mod_noop_right(u, 2 * inv_two(), p());
        assert((u * ((2 * inv_two()) % p())) % p() == (u * 1) % p());
        lemma_mul_basics(u);
        lemma_small_mod(u as nat, MODULUS as nat);
    }
    assert((inv_two() * ((2 * x) % p())) % p() == x);
    assert((inv_two() * ((2 * y) % p())) % p() == y);
    assert((2 * x) % p() == f_mul(2, x));
}

/// Quadratic interpolation through 0, 1 and 2, doubled, as one integer
/// identity over the three coefficients.
proof fn lemma_quad_lagrange_int(av: int, bv: int, cv: int, c: int)
    ensures
        2 * (av + bv * c + cv * (c * c)) == av * ((c - 1) * (c - 2)) - 2 * ((av + bv + cv) * (c * (
        c - 2))) + ((av + 2 * bv + 4 * cv) * (c * (c - 1))),
{
    assert(av * ((c - 1) * (c - 2)) == av * (c * c) - 3 * (av * c) + 2 * av) by (nonlinear_arith);
    assert((av + bv + cv) * (c * (c - 2)) == av * (c * c) + bv * (c * c) + cv * (c * c) - 2 * (av
        * c) - 2 * (bv * c) - 2 * (cv * c)) by (nonlinear_arith);
    assert((av + 2 * bv + 4 * cv) * (c * (c - 1)) == av * (c * c) + 2 * (bv * (c * c)) + 4 * (cv
        * (c * c)) - av * c - 2 * (bv * c) - 4 * (cv * c)) by (nonlinear_arith);
    assert(cv * (c * c) == cv * (c * c));
    assert(2 * (av + bv * c + cv * (c * c)) == 2 * av + 2 * (bv * c) + 2 * (cv * (c * c)));
}

/// The integer form of quadratic interpolation for a product of two
/// affine maps: both sides doubled, as one ring identity.
proof fn lemma_affine_product_integer(a0: int, da: int, s0: int, ds: int, c: int)
    ensures
        2 * ((a0 + c * da) * (s0 + c * ds)) == ((a0 * s0) * ((c - 1) * (c - 2))) - 2 * (((a0 + da)
            * (s0 + ds)) * (c * (c - 2))) + (((a0 + 2 * da) * (s0 + 2 * ds)) * (c * (c - 1))),
{
    let av = a0 * s0;
    let bv = a0 * ds + da * s0;
    let cv = da * ds;
    assert((a0 + c * da) * (s0 + c * ds) == a0 * s0 + a0 * (c * ds) + (c * da) * s0 + (c * da) * (
    c * ds)) by (nonlinear_arith);
    assert(a0 * (c * ds) == (a0 * ds) * c) by (nonlinear_arith);
    assert((c * da) * s0 == (da * s0) * c) by (nonlinear_arith);
    assert((c * da) * (c * ds) == (da * ds) * (c * c)) by (nonlinear_arith);
    assert((a0 * ds) * c + (da * s0) * c == (a0 * ds + da * s0) * c) by (nonlinear_arith);
    assert((a0 + c * da) * (s0 + c * ds) == av + bv * c + cv * (c * c));
    assert((a0 + da) * (s0 + ds) == a0 * s0 + a0 * ds + da * s0 + da * ds) by (nonlinear_arith);
    assert((a0 + da) * (s0 + ds) == av + bv + cv);
    assert((a0 + 2 * da) * (s0 + 2 * ds) == a0 * s0 + a0 * (2 * ds) + (2 * da) * s0 + (2 * da) * (
    2 * ds)) by (nonlinear_arith);
    assert(a0 * (2 * ds) == 2 * (a0 * ds)) by (nonlinear_arith);
    assert((2 * da) * s0 == 2 * (da * s0)) by (nonlinear_arith);
    assert((2 * da) * (2 * ds) == 4 * (da * ds)) by (nonlinear_arith);
    assert((a0 + 2 * da) * (s0 + 2 * ds) == av + 2 * bv + 4 * cv);
    lemma_quad_lagrange_int(av, bv, cv, c);
}

/// The product of two affine maps, evaluated at `c`, is the quadratic
/// through its values at 0, 1 and 2, evaluated at `c`.
proof fn lemma_affine_product_quad(a0: int, a1: int, s0: int, s1: int, c: int)
    ensures
        f_mul(affine_at(a0, a1, c), affine_at(s0, s1, c)) == quad_at(
            f_mul(a0, s0),
            f_mul(a1, s1),
            f_mul(affine_at(a0, a1, 2), affine_at(s0, s1, 2)),
            c,
        ),
{
    let m = p();
    let i2 = inv_two();
    let ac = a0 + c * (a1 - a0);
    let sc = s0 + c * (s1 - s0);
    let a2i = a0 + 2 * (a1 - a0);
    let s2i = s0 + 2 * (s1 - s0);
    lemma_affine_residue(a0, a1, c);
    lemma_affine_residue(s0, s1, c);
    lemma_affine_residue(a0, a1, 2);
    lemma_affine_residue(s0, s1, 2);
    // The left side as a single residue.
    lemma_mul_mod_noop(ac, sc, m);
    let lhs = f_mul(affine_at(a0, a1, c), affine_at(s0, s1, c));
    assert(lhs == (ac * sc) % m);
    // The right side as a single residue.
    let u0 = (a0 * s0) * ((c - 1) * (c - 2));
    let u1 = (a1 * s1) * (c * (c - 2));
    let u2 = (a2i * s2i) * (c * (c - 1));
    let k0 = f_mul(f_sub(c, 1), f_sub(c, 2));
    let k1 = f_mul(c, f_sub(c, 2));
    let k2 = f_mul(c, f_sub(c, 1));
    assert(k0 == ((c - 1) * (c - 2)) % m) by {
        lemma_mul_mod_noop(c - 1, c - 2, m);
    }
    assert(k1 == (c * (c - 2)) % m) by {
        lemma_mul_mod_noop_right(c, c - 2, m);
    }
    assert(k2 == (c * (c - 1)) % m) by {
        lemma_mul_mod_noop_right(c, c - 1, m);
    }
    let p2 = f_mul(affine_at(a0, a1, 2), affine_at(s0, s1, 2));
    assert(p2 == (a2i * s2i) % m) by {
        lemma_mul_mod_noop(a2i, s2i, m);
    }
    let t0 = f_mul(f_mul(f_mul(a0, s0), k0), i2);
    assert(f_mul(f_mul(a0, s0), k0) == u0 % m) by {
        lemma_mul_mod_noop(a0 * s0, (c - 1) * (c - 2), m);
    }
    assert(t0 == (u0 * i2) % m) by {
        lemma_mul_mod_noop_left(u0, i2, m);
    }
    let t1 = f_mul(f_mul(a1, s1), k1);
    assert(t1 == u1 % m) by {
        lemma_mul_mod_noop(a1 * s1, c * (c - 2), m);
    }
    let t2 = f_mul(f_mul(p2, k2), i2);
    assert(f_mul(p2, k2) == u2 % m) by {
        lemma_mul_mod_noop(a2i * s2i, c * (c - 1), m);
    }
    assert(t2 == (u2 * i2) % m) by {
        lemma_mul_mod_noop_left(u2, i2, m);
    }
    let rhs = quad_at(f_mul(a0, s0), f_mul(a1, s1), p2, c);
    assert(rhs == f_add(f_sub(t0, t1), t2));
    assert(f_sub(t0, t1) == (u0 * i2 - u1) % m) by {
        lemma_sub_mod_noop(u0 * i2, u1, m);
        lemma_small_mod((u1 % m) as nat, MODULUS as nat);
        lemma_mod_bound(u1, m);
        lemma_mod_bound(u0 * i2, m);
        lemma_small_mod(((u0 * i2) % m) as nat, MODULUS as nat);
    }
    let r_int = u0 * i2 - u1 + u2 * i2;
    assert(rhs == r_int % m) by {
        lemma_add_mod_noop(u0 * i2 - u1, u2 * i2, m);
    }
    // Double both sides and replace 2/2 by 1.
    lemma_two_inv_two();
    assert(f_mul(2, lhs) == (2 * (ac * sc)) % m) by {
        lemma_mul_mod_noop_right(2, ac * sc, m);
    }
    assert(f_mul(2, rhs) == (2 * r_int) % m) by {
        lemma_mul_mod_noop_right(2, r_int, m);
    }
    assert((2 * (u0 * i2)) % m == u0 % m) by {
        assert(2 * (u0 * i2) == u0 * (2 * i2)) by (nonlinear_arith);
        lemma_mul_mod_noop_right(u0, 2 * i2, m);
        lemma_mul_basics(u0);
    }
    assert((2 * (u2 * i2)) % m == u2 % m) by {
        assert(2 * (u2 * i2) == u2 * (2 * i2)) by (nonlinear_arith);
        lemma_mul_mod_noop_right(u2, 2 * i2, m);
        lemma_mul_basics(u2);
    }
    assert(2 * r_int == 2 * (u0 * i2) - 2 * u1 + 2 * (u2 * i2));
    assert((2 * r_int) % m == (u0 - 2 * u1 + u2) % m) by {
        lemma_sub_mod_noop(2 * (u0 * i2), 2 * u1, m);
        lemma_sub_mod_noop(u0, 2 * u1, m);
        assert((2 * (u0 * i2) - 2 * u1) % m == (u0 - 2 * u1) % m);
        lemma_add_mod_noop(2 * (u0 * i2) - 2 * u1, 2 * (u2 * i2), m);
        lemma_add_mod_noop(u0 - 2 * u1, u2, m);
        assert(((2 * (u0 * i2) - 2 * u1) % m + (2 * (u2 * i2)) % m) % m == ((u0 - 2 * u1) % m
            + u2 % m) % m);
    }
    // The doubled sides agree as integers.
    lemma_affine_product_integer(a0, a1 - a0, s0, s1 - s0, c);
    assert(a0 + (a1 - a0) == a1);
    assert(2 * (ac * sc) == u0 - 2 * u1 + u2);
    assert(f_mul(2, lhs) == f_mul(2, rhs));
    lemma_mod_bound(ac * sc, m);
    lemma_mod_bound(r_int, m);
    lemma_two_cancel(lhs, rhs);
}

/// A quadratic fold as a single residue.
proof fn lemma_quad_at_residue(g0: int, g1: int, g2: int, c: int)
    ensures
        quad_at(g0, g1, g2, c) == ((g0 * ((c - 1) * (c - 2))) * inv_two() - g1 * (c * (c - 2)) + (
        g2 * (c * (c - 1))) * inv_two()) % p(),
{
    let m = p();
    let k0i = (c - 1) * (c - 2);
    let k1i = c * (c - 2);
    let k2i = c * (c - 1);
    lemma_mul_mod_noop(c - 1, c - 2, m);
    lemma_mul_mod_noop_right(c, c - 2, m);
    lemma_mul_mod_noop_right(c, c - 1, m);
    lemma_mul_mod_noop_right(g0, k0i, m);
    lemma_mul_mod_noop_left(g0 * k0i, inv_two(), m);
    lemma_mul_mod_noop_right(g1, k1i, m);
    lemma_mul_mod_noop_right(g2, k2i, m);
    lemma_mul_mod_noop_left(g2 * k2i, inv_two(), m);
    lemma_sub_mod_noop((g0 * k0i) * inv_two(), g1 * k1i, m);
    lemma_add_mod_noop((g0 * k0i) * inv_two() - g1 * k1i, (g2 * k2i) * inv_two(), m);
}

/// A quadratic fold distributes over field addition of its three values.
proof fn lemma_quad_at_additive(
    u0: int,
    u1: int,
    u2: int,
    w0: int,
    w1: int,
    w2: int,
    c: int,
)
    ensures
        quad_at(f_add(u0, w0), f_add(u1, w1), f_add(u2, w2), c) == f_add(
            quad_at(u0, u1, u2, c),
            quad_at(w0, w1, w2, c),
        ),
{
    let m = p();
    let i2 = inv_two();
    let k0i = (c - 1) * (c - 2);
    let k1i = c * (c - 2);
    let k2i = c * (c - 1);
    // The left side as one residue of unreduced sums.
    lemma_mul_mod_noop(c - 1, c - 2, m);
    lemma_mul_mod_noop_right(c, c - 2, m);
    lemma_mul_mod_noop_right(c, c - 1, m);
    lemma_mul_mod_noop(u0 + w0, k0i, m);
    lemma_mul_mod_noop_left((u0 + w0) * k0i, i2, m);
    lemma_mul_mod_noop(u1 + w1, k1i, m);
    lemma_mul_mod_noop(u2 + w2, k2i, m);
    lemma_mul_mod_noop_left((u2 + w2) * k2i, i2, m);
    lemma_sub_mod_noop(((u0 + w0) * k0i) * i2, (u1 + w1) * k1i, m);
    lemma_add_mod_noop(((u0 + w0) * k0i) * i2 - (u1 + w1) * k1i, ((u2 + w2) * k2i) * i2, m);
    assert(quad_at(f_add(u0, w0), f_add(u1, w1), f_add(u2, w2), c) == (((u0 + w0) * k0i) * i2 - (
    u1 + w1) * k1i + ((u2 + w2) * k2i) * i2) % m);
    // The right side as one residue.
    lemma_quad_at_residue(u0, u1, u2, c);
    lemma_quad_at_residue(w0, w1, w2, c);
    lemma_add_mod_noop(
        (u0 * k0i) * i2 - u1 * k1i + (u2 * k2i) * i2,
        (w0 * k0i) * i2 - w1 * k1i + (w2 * k2i) * i2,
        m,
    );
    // The unreduced integers agree.
    assert(((u0 + w0) * k0i) * i2 == (u0 * k0i) * i2 + (w0 * k0i) * i2) by (nonlinear_arith);
    assert((u1 + w1) * k1i == u1 * k1i + w1 * k1i) by (nonlinear_arith);
    assert(((u2 + w2) * k2i) * i2 == (u2 * k2i) * i2 + (w2 * k2i) * i2) by (nonlinear_arith);
}

/// A quadratic fold of three zeros is zero.
proof fn lemma_quad_at_zero(c: int)
    ensures
        quad_at(0, 0, 0, c) == 0,
{
    let m = p();
    lemma_quad_at_residue(0, 0, 0, c);
    assert(0 * ((c - 1) * (c - 2)) == 0) by (nonlinear_arith);
    assert(0 * (c * (c - 2)) == 0) by (nonlinear_arith);
    assert(0 * (c * (c - 1)) == 0) by (nonlinear_arith);
    assert(0 * inv_two() == 0) by (nonlinear_arith);
    lemma_small_mod(0, MODULUS as nat);
}

/// Summing pointwise quadratic folds folds the three pointwise sums.
proof fn lemma_sum_quad(u: Seq<int>, v: Seq<int>, w: Seq<int>, c: int)
    requires
        v.len() == u.len(),
        w.len() == u.len(),
    ensures
        sum_evals(Seq::new(u.len(), |k: int| quad_at(u[k], v[k], w[k], c))) == quad_at(
            sum_evals(u),
            sum_evals(v),
            sum_evals(w),
            c,
        ),
    decreases u.len(),
{
    let folded = Seq::new(u.len(), |k: int| quad_at(u[k], v[k], w[k], c));
    if u.len() == 0 {
        lemma_quad_at_zero(c);
    } else {
        let u2 = u.drop_last();
        let v2 = v.drop_last();
        let w2 = w.drop_last();
        assert(folded.drop_last() =~= Seq::new(
            u2.len(),
            |k: int| quad_at(u2[k], v2[k], w2[k], c),
        ));
        lemma_sum_quad(u2, v2, w2, c);
        lemma_quad_at_additive(
            sum_evals(u2),
            sum_evals(v2),
            sum_evals(w2),
            u.last(),
            v.last(),
            w.last(),
            c,
        );
        assert(folded.last() == quad_at(u.last(), v.last(), w.last(), c));
    }
}

/// An affine map through two canonical representatives takes exactly
/// those values at 0 and at 1.
proof fn lemma_affine_at_01(x0: int, x1: int)
    requires
        in_field(x0),
        in_field(x1),
    ensures
        affine_at(x0, x1, 0) == x0,
        affine_at(x0, x1, 1) == x1,
{
    lemma_affine_residue(x0, x1, 0);
    lemma_small_mod(x0 as nat, MODULUS as nat);
    lemma_affine_residue(x0, x1, 1);
    lemma_small_mod(x1 as nat, MODULUS as nat);
}

/// Fixing variable 0 of the combined instance at `c` sums to the
/// quadratic fold of the sums at 0, 1 and 2: the verifier's folding rule
/// is exact for honest round values.
proof fn lemma_layer_round_fold(
    a: Seq<int>,
    s: Seq<int>,
    m: Seq<int>,
    q: Seq<int>,
    n: nat,
    c: int,
)
    requires
        a.len() == pow2(n),
        s.len() == a.len(),
        m.len() == a.len(),
        q.len() == a.len(),
        1 <= n,
        all_in_field(a),
        all_in_field(s),
        all_in_field(m),
        all_in_field(q),
    ensures
        sum_evals(
            combined_vals(
                fix_var(a, n, 0, c),
                fix_var(s, n, 0, c),
                fix_var(m, n, 0, c),
                fix_var(q, n, 0, c),
            ),
        ) == quad_at(
            sum_evals(
                combined_vals(
                    fix_var(a, n, 0, 0),
                    fix_var(s, n, 0, 0),
                    fix_var(m, n, 0, 0),
                    fix_var(q, n, 0, 0),
                ),
            ),
            sum_evals(
                combined_vals(
                    fix_var(a, n, 0, 1),
                    fix_var(s, n, 0, 1),
                    fix_var(m, n, 0, 1),
                    fix_var(q, n, 0, 1),
                ),
            ),
            sum_evals(
                combined_vals(
                    fix_var(a, n, 0, 2),
                    fix_var(s, n, 0, 2),
                    fix_var(m, n, 0, 2),
                    fix_var(q, n, 0, 2),
                ),
            ),
            c,
        ),
{
    let half = pow2((n - 1) as nat) as int;
    lemma_pow2_unfold(n);
    let e0 = combined_vals(
        fix_var(a, n, 0, 0),
        fix_var(s, n, 0, 0),
        fix_var(m, n, 0, 0),
        fix_var(q, n, 0, 0),
    );
    let e1 = combined_vals(
        fix_var(a, n, 0, 1),
        fix_var(s, n, 0, 1),
        fix_var(m, n, 0, 1),
        fix_var(q, n, 0, 1),
    );
    let e2 = combined_vals(
        fix_var(a, n, 0, 2),
        fix_var(s, n, 0, 2),
        fix_var(m, n, 0, 2),
        fix_var(q, n, 0, 2),
    );
    let ec = combined_vals(
        fix_var(a, n, 0, c),
        fix_var(s, n, 0, c),
        fix_var(m, n, 0, c),
        fix_var(q, n, 0, c),
    );
    assert forall|k: int| 0 <= k < half implies #[trigger] ec[k] == quad_at(
        e0[k],
        e1[k],
        e2[k],
        c,
    ) by {
        lemma_idx_var0(n, k);
        let a0 = a[k];
        let a1 = a[k + half];
        let s0 = s[k];
        let s1 = s[k + half];
        let m0 = m[k];
        let m1 = m[k + half];
        let q0 = q[k];
        let q1 = q[k + half];
        assert(in_field(a[k]) && in_field(a[k + half]));
        assert(in_field(s[k]) && in_field(s[k + half]));
        assert(in_field(m[k]) && in_field(m[k + half]));
        assert(in_field(q[k]) && in_field(q[k + half]));
        assert(fix_var(a, n, 0, 0)[k] == affine_at(a0, a1, 0));
        assert(fix_var(s, n, 0, 0)[k] == affine_at(s0, s1, 0));
        assert(fix_var(m, n, 0, 0)[k] == affine_at(m0, m1, 0));
        assert(fix_var(q, n, 0, 0)[k] == affine_at(q0, q1, 0));
        assert(fix_var(a, n, 0, 1)[k] == affine_at(a0, a1, 1));
        assert(fix_var(s, n, 0, 1)[k] == affine_at(s0, s1, 1));
        assert(fix_var(m, n, 0, 1)[k] == affine_at(m0, m1, 1));
        assert(fix_var(q, n, 0, 1)[k] == affine_at(q0, q1, 1));
        assert(fix_var(a, n, 0, 2)[k] == affine_at(a0, a1, 2));
        assert(fix_var(s, n, 0, 2)[k] == affine_at(s0, s1, 2));
        assert(fix_var(m, n, 0, 2)[k] == affine_at(m0, m1, 2));
        assert(fix_var(q, n, 0, 2)[k] == affine_at(q0, q1, 2));
        assert(fix_var(a, n, 0, c)[k] == affine_at(a0, a1, c));
        assert(fix_var(s, n, 0, c)[k] == affine_at(s0, s1, c));
        assert(fix_var(m, n, 0, c)[k] == affine_at(m0, m1, c));
        assert(fix_var(q, n, 0, c)[k] == affine_at(q0, q1, c));
        lemma_affine_at_01(a0, a1);
        lemma_affine_at_01(s0, s1);
        lemma_affine_at_01(m0, m1);
        lemma_affine_at_01(q0, q1);
        lemma_affine_product_quad(a0, a1, s0, s1, c);
        lemma_affine_product_quad(m0, m1, q0, q1, c);
        lemma_quad_at_additive(
            f_mul(a0, s0),
            f_mul(a1, s1),
            f_mul(affine_at(a0, a1, 2), affine_at(s0, s1, 2)),
            f_mul(m0, q0),
            f_mul(m1, q1),
            f_mul(affine_at(m0, m1, 2), affine_at(q0, q1, 2)),
            c,
        );
    }
    assert(ec =~= Seq::new(e0.len(), |k: int| quad_at(e0[k], e1[k], e2[k], c)));
    lemma_sum_quad(e0, e1, e2, c);
}

/// The sums at 0 and at 1 of the combined instance split the full
/// hypercube sum: the verifier's first check is exact for honest values.
proof fn lemma_layer_sum_split(a: Seq<int>, s: Seq<int>, m: Seq<int>, q: Seq<int>, n: nat)
    requires
        a.len() == pow2(n),
        s.len() == a.len(),
        m.len() == a.len(),
        q.len() == a.len(),
        1 <= n,
        all_in_field(a),
        all_in_field(s),
        all_in_field(m),
        all_in_field(q),
    ensures
        f_add(
            sum_evals(
                combined_vals(
                    fix_var(a, n, 0, 0),
                    fix_var(s, n, 0, 0),
                    fix_var(m, n, 0, 0),
                    fix_var(q, n, 0, 0),
                ),
            ),
            sum_evals(
                combined_vals(
                    fix_var(a, n, 0, 1),
                    fix_var(s, n, 0, 1),
                    fix_var(m, n, 0, 1),
                    fix_var(q, n, 0, 1),
                ),
            ),
        ) == sum_evals(combined_vals(a, s, m, q)),
{
    let half = pow2((n - 1) as nat) as int;
    lemma_pow2_unfold(n);
    lemma_fix_var0_halves(a, n);
    lemma_fix_var0_halves(s, n);
    lemma_fix_var0_halves(m, n);
    lemma_fix_var0_halves(q, n);
    let full = combined_vals(a, s, m, q);
    assert(combined_vals(a.take(half), s.take(half), m.take(half), q.take(half)) =~= full.take(
        half,
    ));
    assert(combined_vals(a.skip(half), s.skip(half), m.skip(half), q.skip(half)) =~= full.skip(
        half,
    ));
    assert(full =~= full.take(half) + full.skip(half));
    lemma_sum_concat(full.take(half), full.skip(half));
}

/// An honest prover emits one quadratic round polynomial per variable.
pub proof fn lemma_prove_layer_rounds_len(
    a: Seq<int>,
    s: Seq<int>,
    m: Seq<int>,
    q: Seq<int>,
    n: nat,
    t: Seq<u8>,
)
    ensures
        prove_layer_rounds(a, s, m, q, n, t).len() == n,
    decreases n,
{
    if n > 0 {
        let g0 = sum_evals(
            combined_vals(
                fix_var(a, n, 0, 0),
                fix_var(s, n, 0, 0),
                fix_var(m, n, 0, 0),
                fix_var(q, n, 0, 0),
            ),
        );
        let g1 = sum_evals(
            combined_vals(
                fix_var(a, n, 0, 1),
                fix_var(s, n, 0, 1),
                fix_var(m, n, 0, 1),
                fix_var(q, n, 0, 1),
            ),
        );
        let g2 = sum_evals(
            combined_vals(
                fix_var(a, n, 0, 2),
                fix_var(s, n, 0, 2),
                fix_var(m, n, 0, 2),
                fix_var(q, n, 0, 2),
            ),
        );
        let t2 = t + triple_bytes(g0, g1, g2);
        let c = challenge_of(t2);
        lemma_prove_layer_rounds_len(
            fix_var(a, n, 0, c),
            fix_var(s, n, 0, c),
            fix_var(m, n, 0, c),
            fix_var(q, n, 0, c),
            (n - 1) as nat,
            t2,
        );
    }
}

/// Fixing variable 0 at the newest challenge keeps the running vector
/// in step with the original: the evaluation hypothesis carries over to
/// the next round.
proof fn lemma_eval_hyp_step(xo: Seq<int>, n: nat, x: Seq<int>, mv: nat, c: int, cs: Seq<int>)
    requires
        x.len() == pow2(mv),
        1 <= mv,
        cs.len() + mv == n,
        forall|rest: Seq<int>|
            rest.len() == mv ==> #[trigger] eval_at(x, mv, rest) == eval_at(xo, n, cs + rest),
    ensures
        forall|rest2: Seq<int>|
            rest2.len() == mv - 1 ==> #[trigger] eval_at(fix_var(x, mv, 0, c), (mv - 1) as nat, rest2)
                == eval_at(xo, n, cs.push(c) + rest2),
{
    assert forall|rest2: Seq<int>| rest2.len() == mv - 1 implies #[trigger] eval_at(
        fix_var(x, mv, 0, c),
        (mv - 1) as nat,
        rest2,
    ) == eval_at(xo, n, cs.push(c) + rest2) by {
        let rest = seq![c] + rest2;
        assert(rest.len() == mv);
        assert(eval_at(x, mv, rest) == eval_at(xo, n, cs + rest));
        assert(rest[0] == c);
        assert(rest.drop_first() =~= rest2);
        assert(eval_at(x, mv, rest) == eval_at(fix_var(x, mv, 0, c), (mv - 1) as nat, rest2));
        assert(cs + rest =~= cs.push(c) + rest2);
    }
}

/// The verifier's round loop accepts the rounds an honest prover emits
/// for the running instance, whatever history both sides share, provided
/// the collected challenges and the running vectors agree with the
/// original instance.
#[verifier::rlimit(100)]
#[verifier::spinoff_prover]
proof fn lemma_layer_rounds_complete(
    ao: Seq<int>,
    so: Seq<int>,
    mo: Seq<int>,
    qo: Seq<int>,
    n: nat,
    a: Seq<int>,
    s: Seq<int>,
    m: Seq<int>,
    q: Seq<int>,
    mv: nat,
    t: Seq<u8>,
    cs: Seq<int>,
)
    requires
        all_in_field(ao),
        all_in_field(so),
        all_in_field(mo),
        all_in_field(qo),
        ao.len() == pow2(n),
        so.len() == pow2(n),
        mo.len() == pow2(n),
        qo.len() == pow2(n),
        all_in_field(a),
        all_in_field(s),
        all_in_field(m),
        all_in_field(q),
        a.len() == pow2(mv),
        s.len() == pow2(mv),
        m.len() == pow2(mv),
        q.len() == pow2(mv),
        cs.len() + mv == n,
        forall|rest: Seq<int>|
            rest.len() == mv ==> #[trigger] eval_at(a, mv, rest) == eval_at(ao, n, cs + rest),
        forall|rest: Seq<int>|
            rest.len() == mv ==> #[trigger] eval_at(s, mv, rest) == eval_at(so, n, cs + rest),
        forall|rest: Seq<int>|
            rest.len() == mv ==> #[trigger] eval_at(m, mv, rest) == eval_at(mo, n, cs + rest),
        forall|rest: Seq<int>|
            rest.len() == mv ==> #[trigger] eval_at(q, mv, rest) == eval_at(qo, n, cs + rest),
    ensures
        verify_layer_rounds(
            ao,
            so,
            mo,
            qo,
            n,
            prove_layer_rounds(a, s, m, q, mv, t),
            sum_evals(combined_vals(a, s, m, q)),
            t,
            cs,
        ) == Ok::<(), Error>(()),
    decreases mv,
{
    lemma2_to64();
    if mv == 0 {
        assert(prove_layer_rounds(a, s, m, q, 0, t) =~= Seq::<(int, int, int)>::empty());
        lemma_verify_layer_base(
            ao,
            so,
            mo,
            qo,
            n,
            prove_layer_rounds(a, s, m, q, 0, t),
            sum_evals(combined_vals(a, s, m, q)),
            t,
            cs,
        );
        let rest = Seq::<int>::empty();
        assert(eval_at(a, 0, rest) == eval_at(ao, n, cs + rest));
        assert(eval_at(s, 0, rest) == eval_at(so, n, cs + rest));
        assert(eval_at(m, 0, rest) == eval_at(mo, n, cs + rest));
        assert(eval_at(q, 0, rest) == eval_at(qo, n, cs + rest));
        assert(cs + rest =~= cs);
        let full = combined_vals(a, s, m, q);
        assert(full.len() == 1);
        assert(full.drop_last() =~= Seq::<int>::empty());
        assert(full[0] == f_add(f_mul(a[0], s[0]), f_mul(m[0], q[0])));
        lemma_mod_bound(f_mul(a[0], s[0]) + f_mul(m[0], q[0]), p());
        lemma_small_mod(full[0] as nat, MODULUS as nat);
        assert(sum_evals(Seq::<int>::empty()) == 0);
        assert(full.last() == full[0]);
        assert(sum_evals(full) == f_add(0, full[0]));
        assert(sum_evals(full) == full[0]);
    } else {
        let g0 = sum_evals(
            combined_vals(
                fix_var(a, mv, 0, 0),
                fix_var(s, mv, 0, 0),
                fix_var(m, mv, 0, 0),
                fix_var(q, mv, 0, 0),
            ),
        );
        let g1 = sum_evals(
            combined_vals(
                fix_var(a, mv, 0, 1),
                fix_var(s, mv, 0, 1),
                fix_var(m, mv, 0, 1),
                fix_var(q, mv, 0, 1),
            ),
        );
        let g2 = sum_evals(
            combined_vals(
                fix_var(a, mv, 0, 2),
                fix_var(s, mv, 0, 2),
                fix_var(m, mv, 0, 2),
                fix_var(q, mv, 0, 2),
            ),
        );
        lemma_layer_sum_split(a, s, m, q, mv);
        assert(sum_evals(combined_vals(a, s, m, q)) == f_add(g0, g1));
        let t2 = t + triple_bytes(g0, g1, g2);
        let c = challenge_of(t2);
        lemma_bytes_mod_in_field(keccak_of(t2));
        let a2 = fix_var(a, mv, 0, c);
        let s2 = fix_var(s, mv, 0, c);
        let m2 = fix_var(m, mv, 0, c);
        let q2 = fix_var(q, mv, 0, c);
        lemma_fix_var_in_field(a, mv, 0, c);
        lemma_fix_var_in_field(s, mv, 0, c);
        lemma_fix_var_in_field(m, mv, 0, c);
        lemma_fix_var_in_field(q, mv, 0, c);
        lemma_layer_round_fold(a, s, m, q, mv, c);
        assert(sum_evals(combined_vals(a2, s2, m2, q2)) == quad_at(g0, g1, g2, c));
        lemma_eval_hyp_step(ao, n, a, mv, c, cs);
        lemma_eval_hyp_step(so, n, s, mv, c, cs);
        lemma_eval_hyp_step(mo, n, m, mv, c, cs);
        lemma_eval_hyp_step(qo, n, q, mv, c, cs);
        lemma_layer_rounds_complete(
            ao,
            so,
            mo,
            qo,
            n,
            a2,
            s2,
            m2,
            q2,
            (mv - 1) as nat,
            t2,
            cs.push(c),
        );
        let rs = prove_layer_rounds(a, s, m, q, mv, t);
        assert(rs == seq![(g0, g1, g2)] + prove_layer_rounds(a2, s2, m2, q2, (mv - 1) as nat, t2));
        assert(rs[0] == (g0, g1, g2));
        lemma_verify_layer_step(
            ao,
            so,
            mo,
            qo,
            n,
            rs,
            sum_evals(combined_vals(a, s, m, q)),
            t,
            cs,
        );
        assert(rs.drop_first() =~= prove_layer_rounds(a2, s2, m2, q2, (mv - 1) as nat, t2));
    }
}

/// Completeness of the layer-identity sumcheck: for any well-formed
/// instance, the verifier accepts the proof an honest prover produces
/// for the true sum of the combined values.
pub proof fn lemma_layer_sumcheck_completeness(
    a: Seq<int>,
    s: Seq<int>,
    m: Seq<int>,
    q: Seq<int>,
    n: nat,
)
    requires
        all_in_field(a),
        all_in_field(s),
        all_in_field(m),
        all_in_field(q),
        a.len() == pow2(n),
        s.len() == pow2(n),
        m.len() == pow2(n),
        q.len() == pow2(n),
    ensures
        verify_layer_model(
            a,
            s,
            m,
            q,
            n,
            sum_evals(combined_vals(a, s, m, q)),
            prove_layer_rounds(
                a,
                s,
                m,
                q,
                n,
                layer_init_transcript(a, s, m, q, sum_evals(combined_vals(a, s, m, q))),
            ),
        ) == Ok::<(), Error>(()),
{
    let t0 = layer_init_transcript(a, s, m, q, sum_evals(combined_vals(a, s, m, q)));
    lemma_prove_layer_rounds_len(a, s, m, q, n, t0);
    assert forall|rest: Seq<int>| rest.len() == n implies #[trigger] eval_at(a, n, rest)
        == eval_at(a, n, Seq::<int>::empty() + rest) by {
        assert(Seq::<int>::empty() + rest =~= rest);
    }
    assert forall|rest: Seq<int>| rest.len() == n implies #[trigger] eval_at(s, n, rest)
        == eval_at(s, n, Seq::<int>::empty() + rest) by {
        assert(Seq::<int>::empty() + rest =~= rest);
    }
    assert forall|rest: Seq<int>| rest.len() == n implies #[trigger] eval_at(m, n, rest)
        == eval_at(m, n, Seq::<int>::empty() + rest) by {
        assert(Seq::<int>::empty() + rest =~= rest);
    }
    assert forall|rest: Seq<int>| rest.len() == n implies #[trigger] eval_at(q, n, rest)
        == eval_at(q, n, Seq::<int>::empty() + rest) by {
        assert(Seq::<int>::empty() + rest =~= rest);
    }
    lemma_layer_rounds_complete(
        a,
        s,
        m,
        q,
        n,
        a,
        s,
        m,
        q,
        n,
        t0,
        Seq::<int>::empty(),
    );
}

/// The honest claim of a layer's sumcheck instance is the layer's own
/// output value: slicing both wiring predicates at the boolean bits of
/// the output point, and pairing the padded input vector with itself,
/// yields an instance whose combined hypercube sum is exactly that slot
/// of the layer's evaluation.
pub proof fn lemma_layer_claim(
    gates: Seq<Gate>,
    w: Seq<int>,
    in_w: nat,
    ib: nat,
    ob: nat,
    zbits: Seq<int>,
)
    requires
        all_in_field(w),
        w.len() == pow2(ib),
        in_w <= pow2(ib),
        layer_ok(gates, in_w),
        forall|i: int, j: int| 0 <= i < j < gates.len() ==> gates[i] != gates[j],
        gates.len() <= pow2(ob),
        zbits.len() == ob,
        forall|j: int| 0 <= j < zbits.len() ==> 0 <= #[trigger] zbits[j] <= 1,
        0 <= bits_index(zbits) < gates.len(),
    ensures
        sum_evals(
            combined_vals(
                fix_prefix(wiring_vec(gates, Opt::Add, ib, ob), ob + 2 * ib, zbits),
                tensor_sum_vals(w),
                fix_prefix(wiring_vec(gates, Opt::Mul, ib, ob), ob + 2 * ib, zbits),
                tensor_product_vals(w),
            ),
        ) == layer_eval(gates, w)[bits_index(zbits)],
{
    let z = bits_index(zbits);
    let b = pow2(ib) as int;
    let blk = pow2(2 * ib) as int;
    let nv = ob + 2 * ib;
    vstd::arithmetic::power2::lemma_pow2_adds(ob, 2 * ib);
    vstd::arithmetic::power2::lemma_pow2_adds(ib, ib);
    assert(blk == b * b);
    let wa = wiring_vec(gates, Opt::Add, ib, ob);
    let wm = wiring_vec(gates, Opt::Mul, ib, ob);
    assert forall|t: int| 0 <= t < wa.len() implies in_field(#[trigger] wa[t]) by {}
    assert forall|t: int| 0 <= t < wm.len() implies in_field(#[trigger] wm[t]) by {}
    assert((nv - zbits.len()) as nat == 2 * ib);
    lemma_fix_prefix_block(wa, nv, zbits);
    lemma_fix_prefix_block(wm, nv, zbits);
    lemma_layer_identity(gates, w, in_w, ib, z);
    let sliced_add = fix_prefix(wa, nv, zbits);
    let sliced_mul = fix_prefix(wm, nv, zbits);
    let instance = combined_vals(sliced_add, tensor_sum_vals(w), sliced_mul, tensor_product_vals(w));
    assert forall|t: int| 0 <= t < blk implies #[trigger] instance[t] == layer_rhs_entries(
        gates,
        w,
        ib,
        z,
    )[t] by {
        assert(0 <= z * blk && z * blk + t < pow2(nv)) by (nonlinear_arith)
            requires
                0 <= z < pow2(ob),
                0 <= t < blk,
                blk == pow2(2 * ib),
                pow2(nv) == pow2(ob) * pow2(2 * ib),
                blk >= 1,
        ;
        assert(sliced_add[t] == wa[z * blk + t]);
        assert(sliced_mul[t] == wm[z * blk + t]);
        assert(wa[z * blk + t] == indicator(has_gate(gates, Opt::Add, ib, z * blk + t)));
        assert(wm[z * blk + t] == indicator(has_gate(gates, Opt::Mul, ib, z * blk + t)));
        assert(w.len() as int == b);
        assert(t < b * b);
        assert(tensor_sum_vals(w)[t] == f_add(w[t / b], w[t % b]));
        assert(tensor_product_vals(w)[t] == f_mul(w[t / b], w[t % b]));
    }
    assert(instance =~= layer_rhs_entries(gates, w, ib, z));
}

} // verus!
