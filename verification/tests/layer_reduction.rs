use gkr::circuit::{Circuit, Gate, Layer, Opt};
use gkr::errors::Error;
use gkr::field::Fp;
use gkr::multilinear::MultilinearPoly;
use gkr::reduction::{prove_layer, verify_layer, LayerTerms};

fn fp_vec(values: &[u64]) -> Vec<Fp> {
    values.iter().map(|&v| Fp::new(v)).collect()
}

// The sumcheck instance of the layer identity for the first layer of the
// example circuit, with the output point fixed to the bits of `z`.
fn example_terms(z: usize) -> (LayerTerms, Fp) {
    let layer = Layer::new(vec![
        Gate::new(0, 0, 1, Opt::Add),
        Gate::new(1, 2, 3, Opt::Mul),
        Gate::new(2, 4, 5, Opt::Mul),
        Gate::new(3, 6, 7, Opt::Mul),
    ]);
    let inputs = fp_vec(&[1, 2, 3, 4, 5, 6, 7, 8]);
    let outputs = layer.evaluate(&inputs).unwrap();
    let (mut add_wiring, mut mul_wiring) = layer.get_add_i_and_mul_i(8).unwrap();
    // Fix the two output-bit variables to the bits of z, MSB first.
    for j in 0..2 {
        let bit = Fp::new(((z >> (1 - j)) & 1) as u64);
        add_wiring = add_wiring.partial_evaluate(0, bit).unwrap();
        mul_wiring = mul_wiring.partial_evaluate(0, bit).unwrap();
    }
    let w = MultilinearPoly::new(inputs, 3).unwrap();
    let pair_sums = gkr::tensor::tensor_addition(&w, &w);
    let pair_products = gkr::tensor::tensor_multiplication(&w, &w);
    let terms = LayerTerms { add_wiring, pair_sums, mul_wiring, pair_products };
    (terms, outputs[z])
}

// Completeness of the degree-2 protocol on the layer identity: for every
// output slot, the slot's value is honestly provable as the wired sum.
#[test]
fn test_layer_reduction_round_trip() {
    for z in 0..4usize {
        let (terms, claimed) = example_terms(z);
        let proof = prove_layer(&terms, claimed);
        assert_eq!(proof.round_polys.len(), 6);
        assert_eq!(verify_layer(&terms, &proof), Ok(()));
    }
}

#[test]
fn test_layer_reduction_false_claim() {
    let (terms, claimed) = example_terms(0);
    let proof = prove_layer(&terms, claimed.add(Fp::one()));
    assert_eq!(verify_layer(&terms, &proof), Err(Error::InconsistentRound));
}

#[test]
fn test_layer_reduction_round_count() {
    let (terms, claimed) = example_terms(1);
    let mut proof = prove_layer(&terms, claimed);
    proof.round_polys.pop();
    assert_eq!(verify_layer(&terms, &proof), Err(Error::RoundCountMismatch));
}

#[test]
fn test_layer_reduction_tamper() {
    let (terms, claimed) = example_terms(2);
    for round in 0..6usize {
        let mut proof = prove_layer(&terms, claimed);
        let (g0, g1, g2) = proof.round_polys[round];
        proof.round_polys[round] = (g0, g1.add(Fp::one()), g2);
        assert!(verify_layer(&terms, &proof).is_err());
    }
}
