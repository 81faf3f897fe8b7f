use gkr::field::{Fp, MODULUS};
use gkr::errors::Error;
use gkr::hypercube::{create_truth_table, partial_evaluation, evaluate_function};
use gkr::multilinear::MultilinearPoly;

fn fp_vec(values: &[u64]) -> Vec<Fp> {
    values.iter().map(|&v| Fp::new(v)).collect()
}

#[test]
fn test_create_truth_table() {
    let truth_table = create_truth_table(3);
    assert_eq!(truth_table.len(), 8);
    assert_eq!(truth_table, vec![0, 3, 0, 3, 0, 3, 2, 5]);
}

#[test]
fn test_partial_evaluation() {
    let truth_table = create_truth_table(3);
    let result = partial_evaluation(&truth_table, 3, 0, 1);
    assert_eq!(result, vec![0, 3, 2, 5]);
}

#[test]
fn test_evaluate_function() {
    assert_eq!(evaluate_function(&vec![1, 1, 1]), 5);
    assert_eq!(evaluate_function(&vec![0, 1, 1]), 3);
    assert_eq!(evaluate_function(&vec![1, 1, 0]), 2);
}

#[test]
fn test_partial_evaluate() {
    let evaluated_value = fp_vec(&[0, 3, 0, 3, 0, 3, 2, 5]);
    let polynomial = MultilinearPoly::new(evaluated_value, 3).expect(
        "Failed to create MultilinearPoly",
    );
    let result = polynomial.partial_evaluate(0, Fp::new(1)).unwrap();
    assert_eq!(result.evaluations, fp_vec(&[0, 3, 2, 5]));
}

#[test]
fn test_evaluation() {
    let evaluated_value = fp_vec(&[0, 3, 0, 3, 0, 3, 2, 5]);
    let polynomial = MultilinearPoly::new(evaluated_value, 3).expect(
        "Failed to create MultilinearPoly",
    );
    let assignment = fp_vec(&[1, 1, 1]);
    let result = polynomial.evaluate_poly(&assignment).expect("Evaluation failed");
    assert_eq!(result, Fp::new(5));
}

#[test]
fn test_full_evaluation() {
    let coefficients = fp_vec(&[0, 1, 1, 2]);
    let poly = MultilinearPoly::new(coefficients, 2).unwrap();
    let evaluations = poly.full_evaluate();
    assert_eq!(evaluations.len(), 4);
    assert_eq!(evaluations[3], Fp::new(2));
}

// Fixing a variable to 0 and to 1 reproduces the two boundary sub-cubes.
#[test]
fn test_partial_evaluate_boundaries() {
    let poly = MultilinearPoly::new(fp_vec(&[0, 3, 0, 3, 0, 3, 2, 5]), 3).unwrap();
    // Variable 0 is the most significant bit: halves of the vector.
    let lo = poly.partial_evaluate(0, Fp::zero()).unwrap();
    let hi = poly.partial_evaluate(0, Fp::one()).unwrap();
    assert_eq!(lo.evaluations, fp_vec(&[0, 3, 0, 3]));
    assert_eq!(hi.evaluations, fp_vec(&[0, 3, 2, 5]));
    // Variable 2 is the least significant bit: even and odd entries.
    let even = poly.partial_evaluate(2, Fp::zero()).unwrap();
    let odd = poly.partial_evaluate(2, Fp::one()).unwrap();
    assert_eq!(even.evaluations, fp_vec(&[0, 0, 0, 2]));
    assert_eq!(odd.evaluations, fp_vec(&[3, 3, 3, 5]));
}

// At a boolean assignment the polynomial returns the raw entry whose
// index the assignment spells, MSB-first.
#[test]
fn test_evaluate_on_hypercube_points() {
    let entries: [u64; 8] = [11, 22, 33, 44, 55, 66, 77, 88];
    let poly = MultilinearPoly::new(fp_vec(&entries), 3).unwrap();
    for index in 0..8usize {
        let assignment: Vec<Fp> = (0..3)
            .map(|j| Fp::new(((index >> (2 - j)) & 1) as u64))
            .collect();
        let value = poly.evaluate_poly(&assignment).unwrap();
        assert_eq!(value, Fp::new(entries[index]));
    }
}

#[test]
fn test_sum_over_hypercube() {
    let poly = MultilinearPoly::new(fp_vec(&[0, 3, 0, 3, 0, 3, 2, 5]), 3).unwrap();
    assert_eq!(poly.sum_over_hypercube(), Fp::new(16));
}

#[test]
fn test_new_invalid_length() {
    let r = MultilinearPoly::new(fp_vec(&[1, 2, 3]), 2);
    assert_eq!(r.unwrap_err(), Error::InvalidLength);
}

#[test]
fn test_new_invalid_arity() {
    let r = MultilinearPoly::new(fp_vec(&[1]), 0);
    assert_eq!(r.unwrap_err(), Error::InvalidArity);
}

#[test]
fn test_partial_evaluate_index_out_of_range() {
    let poly = MultilinearPoly::new(fp_vec(&[1, 2, 3, 4]), 2).unwrap();
    let r = poly.partial_evaluate(2, Fp::new(1));
    assert_eq!(r.unwrap_err(), Error::IndexOutOfRange);
}

#[test]
fn test_evaluate_arity_mismatch() {
    let poly = MultilinearPoly::new(fp_vec(&[1, 2, 3, 4]), 2).unwrap();
    let r = poly.evaluate_poly(&fp_vec(&[1, 2, 3]));
    assert_eq!(r.unwrap_err(), Error::ArityMismatch);
}

#[test]
fn test_field_arithmetic() {
    let a = Fp::new(MODULUS - 1);
    let b = Fp::new(5);
    // Wrap-around addition: (p - 1) + 5 == 4 mod p.
    assert_eq!(a.add(b), Fp::new(4));
    // Subtraction below zero wraps: 5 - (p - 1) == 6 mod p.
    assert_eq!(b.sub(a), Fp::new(6));
    // (p - 1) is -1, so (-1) * (-1) == 1.
    assert_eq!(a.mul(a), Fp::one());
    // Reduction on construction.
    assert_eq!(Fp::new(MODULUS), Fp::zero());
    assert_eq!(Fp::new(MODULUS + 7), Fp::new(7));
}

#[test]
fn test_field_byte_round_trip() {
    let x = Fp::new(0x0102_0304_0506_0708);
    let bytes = x.to_be_bytes();
    assert_eq!(bytes, vec![1, 2, 3, 4, 5, 6, 7, 8]);
    assert_eq!(Fp::from_be_bytes_mod_order(&bytes), x);
    // A 32-byte string reduces modulo the field order.
    let big = vec![0xffu8; 32];
    let reduced = Fp::from_be_bytes_mod_order(&big);
    let mut acc = Fp::zero();
    let two_fifty_six = Fp::new(256);
    for _ in 0..32 {
        acc = acc.mul(two_fifty_six).add(Fp::new(0xff));
    }
    assert_eq!(reduced, acc);
}

// A one-variable polynomial collapses to the degenerate scalar, whose
// single entry full evaluation returns.
#[test]
fn test_degenerate_scalar() {
    let poly = MultilinearPoly::new(fp_vec(&[4, 9]), 1).unwrap();
    let scalar = poly.partial_evaluate(0, Fp::new(3)).unwrap();
    assert_eq!(scalar.num_vars, 0);
    // 4 + 3 * (9 - 4) = 19.
    assert_eq!(scalar.full_evaluate(), &fp_vec(&[19]));
    assert_eq!(scalar.evaluate_poly(&vec![]).unwrap(), Fp::new(19));
}
