use gkr::field::Fp;
use gkr::errors::Error;
use gkr::multilinear::MultilinearPoly;
use gkr::sumcheck::{prove, verify};
use gkr::transcript::Transcript;

fn fp_vec(values: &[u64]) -> Vec<Fp> {
    values.iter().map(|&v| Fp::new(v)).collect()
}

fn example_poly() -> MultilinearPoly {
    MultilinearPoly::new(fp_vec(&[0, 3, 0, 3, 0, 3, 2, 5]), 3).expect("expecte")
}

#[test]
fn test_sumcheck() {
    let poly = example_poly();
    let proof = prove(&poly, Fp::new(20));
    assert_eq!(proof.round_polys.len(), 3);
    // The true hypercube sum is 16, so a claim of 20 is rejected.
    assert!(verify(&poly, &proof).is_err());
}

#[test]
fn test_transcript() {
    let mut transcript = Transcript::new();
    transcript.absorb(b"test_data");
    let challenge = transcript.squeeze_challenge();
    assert_ne!(challenge, Fp::new(0));
}

#[test]
fn test_transcript_determinism() {
    let mut t1 = Transcript::new();
    let mut t2 = Transcript::new();
    t1.absorb(b"round");
    t2.absorb(b"round");
    assert_eq!(t1.squeeze_challenge(), t2.squeeze_challenge());
    // Squeezing leaves the history in place, so the challenge repeats
    // until something new is absorbed.
    assert_eq!(t1.squeeze_challenge(), t2.squeeze_challenge());
    t1.absorb(b"more");
    assert_ne!(t1.squeeze_challenge(), t2.squeeze_challenge());
}

#[test]
fn test_squeeze_bytes() {
    let mut t = Transcript::new();
    t.absorb(b"bytes");
    let short = t.squeeze_bytes(5);
    assert_eq!(short.len(), 5);
    let full = t.squeeze_bytes(32);
    assert_eq!(full.len(), 32);
    assert_eq!(&full[0..5], &short[..]);
    let capped = t.squeeze_bytes(100);
    assert_eq!(capped.len(), 32);
}

// Sumcheck completeness on a concrete polynomial: the honest sum is
// accepted, and the scenario values hold.
#[test]
fn test_sumcheck_completeness() {
    let poly = example_poly();
    let sum = poly.sum_over_hypercube();
    assert_eq!(sum, Fp::new(16));
    assert_eq!(
        poly.evaluate_poly(&fp_vec(&[1, 1, 1])).unwrap(),
        Fp::new(5),
    );
    let proof = prove(&poly, sum);
    assert_eq!(verify(&poly, &proof), Ok(()));
}

// Completeness holds for every polynomial tried, not just the scenario.
#[test]
fn test_sumcheck_completeness_more_polys() {
    let vectors: [&[u64]; 4] = [
        &[7, 7],
        &[1, 2, 3, 4],
        &[0, 0, 0, 0, 0, 0, 0, 0],
        &[5, 11, 13, 17, 19, 23, 29, 31, 37, 41, 43, 47, 53, 59, 61, 67],
    ];
    for entries in vectors {
        let num_vars = entries.len().trailing_zeros() as usize;
        let poly = MultilinearPoly::new(fp_vec(entries), num_vars).unwrap();
        let sum = poly.sum_over_hypercube();
        let proof = prove(&poly, sum);
        assert_eq!(verify(&poly, &proof), Ok(()));
    }
}

// Mutating any single round-polynomial value of a valid proof makes the
// verifier reject.
#[test]
fn test_sumcheck_soundness_mutations() {
    let poly = example_poly();
    let sum = poly.sum_over_hypercube();
    for round in 0..3 {
        for side in 0..2 {
            let mut proof = prove(&poly, sum);
            let (g0, g1) = proof.round_polys[round];
            proof.round_polys[round] = if side == 0 {
                (g0.add(Fp::one()), g1)
            } else {
                (g0, g1.add(Fp::one()))
            };
            assert!(verify(&poly, &proof).is_err());
        }
    }
}

#[test]
fn test_sumcheck_false_claim_rejected() {
    let poly = example_poly();
    let mut proof = prove(&poly, poly.sum_over_hypercube());
    proof.claimed_sum = Fp::new(17);
    assert_eq!(verify(&poly, &proof), Err(Error::InconsistentRound));
}

#[test]
fn test_round_count_check() {
    let poly = example_poly();
    let sum = poly.sum_over_hypercube();
    let mut short_proof = prove(&poly, sum);
    short_proof.round_polys.pop();
    assert_eq!(verify(&poly, &short_proof), Err(Error::RoundCountMismatch));
    let mut long_proof = prove(&poly, sum);
    long_proof.round_polys.push((Fp::zero(), Fp::zero()));
    assert_eq!(verify(&poly, &long_proof), Err(Error::RoundCountMismatch));
}

// Swapping the two halves of the last round keeps every running-claim
// check intact but derails the final evaluation check.
#[test]
fn test_sumcheck_final_mismatch() {
    let poly = example_poly();
    let sum = poly.sum_over_hypercube();
    let mut proof = prove(&poly, sum);
    let (g0, g1) = proof.round_polys[2];
    assert_ne!(g0, g1);
    proof.round_polys[2] = (g1, g0);
    assert_eq!(verify(&poly, &proof), Err(Error::FinalMismatch));
}
