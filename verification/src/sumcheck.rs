//! The sumcheck protocol, compiled to a non-interactive argument by the
//! Fiat-Shamir transcript.
//!
//! The prover reduces the claim "`P` sums to `S` over the boolean
//! hypercube" to one evaluation of `P`, one variable per round.  Each
//! round sends the two values `(g(0), g(1))` of the degree-at-most-1
//! restriction of the running sum to the current variable; the verifier
//! checks that they add up to the running claim, folds them at a
//! transcript challenge, and finally compares against one evaluation of
//! `P` at the collected challenge point.

use vstd::prelude::*;
use vstd::pervasive::unreached;
use vstd::arithmetic::power2::{pow2, lemma_pow2_unfold, lemma2_to64};
use vstd::arithmetic::div_mod::lemma_small_mod;
use crate::field::{Fp, f_add, f_sub, f_mul, fp_bytes, in_field, MODULUS, lemma_bytes_mod_in_field};
use crate::errors::Error;
use crate::multilinear::{
    MultilinearPoly, vals, all_in_field, fix_var, sum_evals, eval_at, lemma_fix_var0_halves,
    lemma_fix_var0_interp, lemma_sum_concat, lemma_sum_interp, lemma_fix_var_in_field,
};
use crate::transcript::{Transcript, challenge_of, keccak_of};

verus! {

/// The canonical byte stream of a vector of field values: each entry's
/// 8-byte big-endian encoding, in order.
pub open spec fn vec_bytes(e: Seq<int>) -> Seq<u8>
    decreases e.len(),
{
    if e.len() == 0 {
        Seq::<u8>::empty()
    } else {
        vec_bytes(e.drop_last()) + fp_bytes(e.last())
    }
}

/// The byte stream of one round polynomial `(g(0), g(1))`.
pub open spec fn pair_bytes(g0: int, g1: int) -> Seq<u8> {
    fp_bytes(g0) + fp_bytes(g1)
}

/// The transcript history after the protocol preamble: the full
/// evaluation vector, then the claimed sum.
pub open spec fn init_transcript(e: Seq<int>, s: int) -> Seq<u8> {
    vec_bytes(e) + fp_bytes(s)
}

/// The round polynomials an honest prover emits for the vector `e` over
/// `n` variables, with transcript history `t` already absorbed: each
/// round fixes variable 0 of the running polynomial to 0 and to 1, sums
/// both halves, absorbs the pair, and folds at the resulting challenge.
pub open spec fn prove_rounds(e: Seq<int>, n: nat, t: Seq<u8>) -> Seq<(int, int)>
    decreases n,
{
    if n == 0 {
        Seq::<(int, int)>::empty()
    } else {
        let g0 = sum_evals(fix_var(e, n, 0, 0));
        let g1 = sum_evals(fix_var(e, n, 0, 1));
        let t2 = t + pair_bytes(g0, g1);
        let c = challenge_of(t2);
        seq![(g0, g1)] + prove_rounds(fix_var(e, n, 0, c), (n - 1) as nat, t2)
    }
}

/// The verifier's round loop over the remaining round polynomials:
/// `expected` is the running claim, `t` the transcript history, `cs` the
/// challenges collected so far, and the final check compares the claim
/// against one evaluation of the original polynomial `e`.
#[verifier::opaque]
pub open spec fn verify_rounds(
    e: Seq<int>,
    n: nat,
    rounds: Seq<(int, int)>,
    expected: int,
    t: Seq<u8>,
    cs: Seq<int>,
) -> Result<(), Error>
    decreases rounds.len(),
{
    if rounds.len() == 0 {
        if expected == eval_at(e, n, cs) {
            Ok(())
        } else {
            Err(Error::FinalMismatch)
        }
    } else {
        let g0 = rounds[0].0;
        let g1 = rounds[0].1;
        if expected != f_add(g0, g1) {
            Err(Error::InconsistentRound)
        } else {
            let t2 = t + pair_bytes(g0, g1);
            let c = challenge_of(t2);
            verify_rounds(
                e,
                n,
                rounds.drop_first(),
                f_add(g0, f_mul(c, f_sub(g1, g0))),
                t2,
                cs.push(c),
            )
        }
    }
}

/// The verifier's answer when no rounds remain: the final evaluation check.
pub proof fn lemma_verify_rounds_base(
    e: Seq<int>,
    n: nat,
    rs: Seq<(int, int)>,
    expected: int,
    t: Seq<u8>,
    cs: Seq<int>,
)
    requires
        rs.len() == 0,
    ensures
        verify_rounds(e, n, rs, expected, t, cs) == if expected == eval_at(e, n, cs) {
            Ok::<(), Error>(())
        } else {
            Err::<(), Error>(Error::FinalMismatch)
        },
{
    reveal(verify_rounds);
}

/// The verifier's answer when the first remaining round breaks the
/// running claim.
pub proof fn lemma_verify_rounds_err(
    e: Seq<int>,
    n: nat,
    rs: Seq<(int, int)>,
    expected: int,
    t: Seq<u8>,
    cs: Seq<int>,
)
    requires
        rs.len() > 0,
        expected != f_add(rs[0].0, rs[0].1),
    ensures
        verify_rounds(e, n, rs, expected, t, cs) == Err::<(), Error>(Error::InconsistentRound),
{
    reveal(verify_rounds);
}

/// One verifier round: absorb the pair, fold the claim at the challenge,
/// and continue with the remaining rounds.
pub proof fn lemma_verify_rounds_step(
    e: Seq<int>,
    n: nat,
    rs: Seq<(int, int)>,
    expected: int,
    t: Seq<u8>,
    cs: Seq<int>,
)
    requires
        rs.len() > 0,
        expected == f_add(rs[0].0, rs[0].1),
    ensures
        verify_rounds(e, n, rs, expected, t, cs) == verify_rounds(
            e,
            n,
            rs.drop_first(),
            f_add(
                rs[0].0,
                f_mul(challenge_of(t + pair_bytes(rs[0].0, rs[0].1)), f_sub(rs[0].1, rs[0].0)),
            ),
            t + pair_bytes(rs[0].0, rs[0].1),
            cs.push(challenge_of(t + pair_bytes(rs[0].0, rs[0].1))),
        ),
{
    reveal(verify_rounds);
}

/// What the verifier answers on a polynomial `e` over `n` variables and a
/// proof `(claimed, rounds)`.
pub open spec fn verify_model(e: Seq<int>, n: nat, claimed: int, rounds: Seq<(int, int)>) -> Result<
    (),
    Error,
> {
    if rounds.len() != n {
        Err(Error::RoundCountMismatch)
    } else {
        verify_rounds(e, n, rounds, claimed, init_transcript(e, claimed), Seq::<int>::empty())
    }
}

/// The spec-level values of a vector of round polynomials.
pub open spec fn rounds_view(rs: Seq<(Fp, Fp)>) -> Seq<(int, int)> {
    rs.map(|i: int, r: (Fp, Fp)| (r.0@, r.1@))
}

/// A non-interactive sumcheck proof: the claimed hypercube sum and one
/// round polynomial `(g(0), g(1))` per eliminated variable.
pub struct Proof {
    pub claimed_sum: Fp,
    pub round_polys: Vec<(Fp, Fp)>,
}

/// Every value carried by the proof is a canonical representative.
pub open spec fn proof_wf(pr: &Proof) -> bool {
    &&& in_field(pr.claimed_sum@)
    &&& forall|i: int|
        0 <= i < pr.round_polys@.len() ==> in_field((#[trigger] pr.round_polys@[i]).0@) && in_field(
            pr.round_polys@[i].1@,
        )
}

/// Absorb each element's canonical encoding into the transcript, in order.
pub(crate) fn absorb_elements(transcript: &mut Transcript, elements: &Vec<Fp>)
    ensures
        final(transcript)@ == old(transcript)@ + vec_bytes(vals(elements@)),
{
    let mut i: usize = 0;
    while i < elements.len()
        invariant
            i <= elements@.len(),
            transcript@ == old(transcript)@ + vec_bytes(vals(elements@).take(i as int)),
        decreases elements@.len() - i,
    {
        let bytes = elements[i].to_be_bytes();
        transcript.absorb(bytes.as_slice());
        proof {
            let v = vals(elements@);
            assert(v.take(i as int + 1).drop_last() =~= v.take(i as int));
            assert(v.take(i as int + 1).last() == v[i as int]);
            assert(v[i as int] == elements@[i as int]@);
            assert(old(transcript)@ + vec_bytes(v.take(i as int)) + fp_bytes(v[i as int]) =~= old(
                transcript,
            )@ + (vec_bytes(v.take(i as int)) + fp_bytes(v[i as int])));
        }
        i = i + 1;
    }
    proof {
        assert(vals(elements@).take(elements@.len() as int) =~= vals(elements@));
    }
}

/// Produce a sumcheck proof that `poly` sums to `claimed_sum` over the
/// whole boolean hypercube.  The rounds are exactly the honest-prover
/// rounds for `poly`'s evaluation vector and the Fiat-Shamir preamble.
pub fn prove(poly: &MultilinearPoly, claimed_sum: Fp) -> (pr: Proof)
    requires
        poly.wf(),
        in_field(claimed_sum@),
    ensures
        pr.claimed_sum == claimed_sum,
        pr.round_polys@.len() == poly.num_vars,
        rounds_view(pr.round_polys@) == prove_rounds(
            poly@,
            poly.num_vars as nat,
            init_transcript(poly@, claimed_sum@),
        ),
        proof_wf(&pr),
{
    let mut transcript = Transcript::new();
    absorb_elements(&mut transcript, &poly.evaluations);
    let sum_bytes = claimed_sum.to_be_bytes();
    transcript.absorb(sum_bytes.as_slice());
    proof {
        assert(transcript@ =~= init_transcript(poly@, claimed_sum@));
    }
    let ghost t0 = transcript@;
    let mut current = poly.duplicate();
    let mut round_polys: Vec<(Fp, Fp)> = Vec::new();
    let mut r: usize = 0;
    while r < poly.num_vars
        invariant
            poly.wf(),
            r <= poly.num_vars,
            current.wf(),
            current.num_vars == poly.num_vars - r,
            round_polys@.len() == r,
            forall|i: int|
                0 <= i < r ==> in_field((#[trigger] round_polys@[i]).0@) && in_field(
                    round_polys@[i].1@,
                ),
            prove_rounds(poly@, poly.num_vars as nat, t0) == rounds_view(round_polys@)
                + prove_rounds(current@, current.num_vars as nat, transcript@),
        decreases poly.num_vars - r,
    {
        let ghost m = current.num_vars as nat;
        let ghost t_before = transcript@;
        let ghost prev_rounds = round_polys@;
        let g0_poly = match current.partial_evaluate(0, Fp::zero()) {
            Ok(q) => q,
            Err(_) => unreached(),
        };
        let g0 = g0_poly.sum_over_hypercube();
        let g1_poly = match current.partial_evaluate(0, Fp::one()) {
            Ok(q) => q,
            Err(_) => unreached(),
        };
        let g1 = g1_poly.sum_over_hypercube();
        let b0 = g0.to_be_bytes();
        transcript.absorb(b0.as_slice());
        let b1 = g1.to_be_bytes();
        transcript.absorb(b1.as_slice());
        proof {
            assert(transcript@ =~= t_before + pair_bytes(g0@, g1@));
        }
        round_polys.push((g0, g1));
        let challenge = transcript.squeeze_challenge();
        let next = match current.partial_evaluate(0, challenge) {
            Ok(q) => q,
            Err(_) => unreached(),
        };
        proof {
            assert(g0@ == sum_evals(fix_var(current@, m, 0, 0)));
            assert(g1@ == sum_evals(fix_var(current@, m, 0, 1)));
            assert(challenge@ == challenge_of(t_before + pair_bytes(g0@, g1@)));
            assert(prove_rounds(current@, m, t_before) == seq![(g0@, g1@)] + prove_rounds(
                next@,
                (m - 1) as nat,
                t_before + pair_bytes(g0@, g1@),
            ));
            assert(rounds_view(round_polys@) =~= rounds_view(prev_rounds) + seq![(g0@, g1@)]);
            assert((rounds_view(prev_rounds) + seq![(g0@, g1@)]) + prove_rounds(
                next@,
                (m - 1) as nat,
                transcript@,
            ) =~= rounds_view(prev_rounds) + (seq![(g0@, g1@)] + prove_rounds(
                next@,
                (m - 1) as nat,
                transcript@,
            )));
        }
        current = next;
        r = r + 1;
    }
    proof {
        assert(prove_rounds(current@, 0, transcript@) =~= Seq::<(int, int)>::empty());
        assert(rounds_view(round_polys@) + Seq::<(int, int)>::empty() =~= rounds_view(
            round_polys@,
        ));
    }
    Proof { claimed_sum, round_polys }
}

/// Check a sumcheck proof against the polynomial's evaluation vector.
/// The answer is exactly what the protocol model prescribes: a wrong
/// round count, an inconsistent round, a final mismatch, or acceptance.
#[verifier::rlimit(100)]
pub fn verify(poly: &MultilinearPoly, pr: &Proof) -> (r: Result<(), Error>)
    requires
        poly.wf(),
        proof_wf(pr),
    ensures
        r == verify_model(
            poly@,
            poly.num_vars as nat,
            pr.claimed_sum@,
            rounds_view(pr.round_polys@),
        ),
{
    if pr.round_polys.len() != poly.num_vars {
        return Err(Error::RoundCountMismatch);
    }
    let mut transcript = Transcript::new();
    absorb_elements(&mut transcript, &poly.evaluations);
    let claim_bytes = pr.claimed_sum.to_be_bytes();
    transcript.absorb(claim_bytes.as_slice());
    proof {
        assert(transcript@ =~= init_transcript(poly@, pr.claimed_sum@));
    }
    let ghost rounds = rounds_view(pr.round_polys@);
    let ghost t0 = transcript@;
    let ghost full = verify_rounds(
        poly@,
        poly.num_vars as nat,
        rounds,
        pr.claimed_sum@,
        t0,
        Seq::<int>::empty(),
    );
    let mut expected = pr.claimed_sum;
    let mut challenges: Vec<Fp> = Vec::new();
    let mut i: usize = 0;
    proof {
        assert(rounds.skip(0) =~= rounds);
        assert(vals(challenges@) =~= Seq::<int>::empty());
    }
    while i < pr.round_polys.len()
        invariant
            poly.wf(),
            proof_wf(pr),
            pr.round_polys@.len() == poly.num_vars,
            rounds == rounds_view(pr.round_polys@),
            full == verify_model(
                poly@,
                poly.num_vars as nat,
                pr.claimed_sum@,
                rounds_view(pr.round_polys@),
            ),
            i <= pr.round_polys@.len(),
            challenges@.len() == i,
            forall|t: int| 0 <= t < i ==> in_field((#[trigger] challenges@[t])@),
            in_field(expected@),
            full == verify_rounds(
                poly@,
                poly.num_vars as nat,
                rounds.skip(i as int),
                expected@,
                transcript@,
                vals(challenges@),
            ),
        decreases pr.round_polys@.len() - i,
    {
        let pair = pr.round_polys[i];
        let g0 = pair.0;
        let g1 = pair.1;
        proof {
            assert(in_field((pr.round_polys@[i as int]).0@));
            assert(in_field(pr.round_polys@[i as int].1@));
            assert(rounds.skip(i as int)[0] == rounds[i as int]);
            assert(rounds[i as int] == (g0@, g1@));
        }
        let s = g0.add(g1);
        proof {
            crate::field::lemma_fp_eq(expected, s);
        }
        if expected != s {
            proof {
                lemma_verify_rounds_err(
                    poly@,
                    poly.num_vars as nat,
                    rounds.skip(i as int),
                    expected@,
                    transcript@,
                    vals(challenges@),
                );
            }
            return Err(Error::InconsistentRound);
        }
        let ghost t_before = transcript@;
        let ghost prev_challenges = challenges@;
        let ghost prev_expected = expected@;
        let b0 = g0.to_be_bytes();
        transcript.absorb(b0.as_slice());
        let b1 = g1.to_be_bytes();
        transcript.absorb(b1.as_slice());
        proof {
            assert(transcript@ =~= t_before + pair_bytes(g0@, g1@));
        }
        let challenge = transcript.squeeze_challenge();
        challenges.push(challenge);
        expected = g0.add(challenge.mul(g1.sub(g0)));
        proof {
            let n = poly.num_vars as nat;
            assert(rounds.skip(i as int).drop_first() =~= rounds.skip(i as int + 1));
            assert(vals(challenges@) =~= vals(prev_challenges).push(challenge@));
            assert(challenge@ == challenge_of(t_before + pair_bytes(g0@, g1@)));
            assert(expected@ == f_add(g0@, f_mul(challenge@, f_sub(g1@, g0@))));
            lemma_verify_rounds_step(poly@, n, rounds.skip(i as int), prev_expected, t_before,
                vals(prev_challenges));
            assert(verify_rounds(poly@, n, rounds.skip(i as int), prev_expected, t_before, vals(
                prev_challenges,
            )) == verify_rounds(
                poly@,
                n,
                rounds.skip(i as int + 1),
                expected@,
                transcript@,
                vals(challenges@),
            ));
        }
        i = i + 1;
    }
    proof {
        assert(rounds.skip(pr.round_polys@.len() as int) =~= Seq::<(int, int)>::empty());
        lemma_verify_rounds_base(
            poly@,
            poly.num_vars as nat,
            rounds.skip(pr.round_polys@.len() as int),
            expected@,
            transcript@,
            vals(challenges@),
        );
        assert forall|t: int| 0 <= t < vals(challenges@).len() implies in_field(
            #[trigger] vals(challenges@)[t],
        ) by {
            assert(vals(challenges@)[t] == challenges@[t]@);
        }
    }
    let evaluation = match poly.evaluate_poly(&challenges) {
        Ok(v) => v,
        Err(_) => unreached(),
    };
    proof {
        crate::field::lemma_fp_eq(expected, evaluation);
    }
    if expected == evaluation {
        Ok(())
    } else {
        Err(Error::FinalMismatch)
    }
}

/// An honest prover emits one round polynomial per variable.
pub proof fn lemma_prove_rounds_len(e: Seq<int>, m: nat, t: Seq<u8>)
    ensures
        prove_rounds(e, m, t).len() == m,
    decreases m,
{
    if m > 0 {
        let g0 = sum_evals(fix_var(e, m, 0, 0));
        let g1 = sum_evals(fix_var(e, m, 0, 1));
        let t2 = t + pair_bytes(g0, g1);
        lemma_prove_rounds_len(fix_var(e, m, 0, challenge_of(t2)), (m - 1) as nat, t2);
    }
}

/// The verifier's round loop accepts the rounds an honest prover emits
/// for the running vector `e`, whatever history `t` both sides share,
/// provided the collected challenges `cs` and the running vector agree
/// with the original polynomial.
proof fn lemma_rounds_complete(
    e_orig: Seq<int>,
    n: nat,
    e: Seq<int>,
    m: nat,
    t: Seq<u8>,
    cs: Seq<int>,
)
    requires
        all_in_field(e_orig),
        e_orig.len() == pow2(n),
        all_in_field(e),
        e.len() == pow2(m),
        cs.len() + m == n,
        forall|rest: Seq<int>|
            rest.len() == m ==> #[trigger] eval_at(e, m, rest) == eval_at(e_orig, n, cs + rest),
    ensures
        verify_rounds(e_orig, n, prove_rounds(e, m, t), sum_evals(e), t, cs) == Ok::<(), Error>(
            (),
        ),
    decreases m,
{
    if m == 0 {
        lemma2_to64();
        assert(prove_rounds(e, 0, t) =~= Seq::<(int, int)>::empty());
        lemma_verify_rounds_base(e_orig, n, prove_rounds(e, 0, t), sum_evals(e), t, cs);
        assert(e.len() == 1);
        assert(e.drop_last() =~= Seq::<int>::empty());
        assert(in_field(e[0]));
        lemma_small_mod(e[0] as nat, MODULUS as nat);
        assert(sum_evals(Seq::<int>::empty()) == 0);
        assert(e.last() == e[0]);
        assert(sum_evals(e) == f_add(0, e[0]));
        assert(f_add(0, e[0]) == e[0] % crate::field::p());
        assert(e[0] % crate::field::p() == e[0]);
        assert(sum_evals(e) == e[0]);
        let rest = Seq::<int>::empty();
        assert(eval_at(e, 0, rest) == eval_at(e_orig, n, cs + rest));
        assert(cs + rest =~= cs);
        assert(eval_at(e, 0, rest) == e[0]);
    } else {
        let half = pow2((m - 1) as nat) as int;
        lemma_pow2_unfold(m);
        let ah = e.take(half);
        let bh = e.skip(half);
        lemma_fix_var0_halves(e, m);
        let g0 = sum_evals(fix_var(e, m, 0, 0));
        let g1 = sum_evals(fix_var(e, m, 0, 1));
        assert(e =~= ah + bh);
        lemma_sum_concat(ah, bh);
        assert(sum_evals(e) == f_add(g0, g1));
        let t2 = t + pair_bytes(g0, g1);
        let c = challenge_of(t2);
        lemma_bytes_mod_in_field(keccak_of(t2));
        let e2 = fix_var(e, m, 0, c);
        lemma_fix_var0_interp(e, m, c);
        lemma_sum_interp(ah, bh, c);
        assert(sum_evals(e2) == f_add(g0, f_mul(c, f_sub(g1, g0))));
        lemma_fix_var_in_field(e, m, 0, c);
        assert forall|rest2: Seq<int>| rest2.len() == m - 1 implies #[trigger] eval_at(
            e2,
            (m - 1) as nat,
            rest2,
        ) == eval_at(e_orig, n, cs.push(c) + rest2) by {
            let rest = seq![c] + rest2;
            assert(rest.len() == m);
            assert(eval_at(e, m, rest) == eval_at(e_orig, n, cs + rest));
            assert(rest[0] == c);
            assert(rest.drop_first() =~= rest2);
            assert(eval_at(e, m, rest) == eval_at(e2, (m - 1) as nat, rest2));
            assert(cs + rest =~= cs.push(c) + rest2);
        }
        lemma_rounds_complete(e_orig, n, e2, (m - 1) as nat, t2, cs.push(c));
        let rs = prove_rounds(e, m, t);
        assert(rs == seq![(g0, g1)] + prove_rounds(e2, (m - 1) as nat, t2));
        assert(rs[0] == (g0, g1));
        lemma_verify_rounds_step(e_orig, n, rs, sum_evals(e), t, cs);
        assert(rs.drop_first() =~= prove_rounds(e2, (m - 1) as nat, t2));
    }
}

/// Sumcheck completeness: for any well-formed evaluation vector, the
/// verifier accepts the proof that an honest prover produces for the true
/// hypercube sum.
pub proof fn lemma_sumcheck_completeness(e: Seq<int>, n: nat)
    requires
        all_in_field(e),
        e.len() == pow2(n),
    ensures
        verify_model(
            e,
            n,
            sum_evals(e),
            prove_rounds(e, n, init_transcript(e, sum_evals(e))),
        ) == Ok::<(), Error>(()),
{
    let t0 = init_transcript(e, sum_evals(e));
    lemma_prove_rounds_len(e, n, t0);
    assert forall|rest: Seq<int>| rest.len() == n implies #[trigger] eval_at(e, n, rest)
        == eval_at(e, n, Seq::<int>::empty() + rest) by {
        assert(Seq::<int>::empty() + rest =~= rest);
    }
    lemma_rounds_complete(e, n, e, n, t0, Seq::<int>::empty());
}

} // verus!
