use gkr::circuit::{Circuit, Gate, Layer, Opt};
use gkr::errors::Error;
use gkr::field::Fp;
use gkr::tensor::{tensor_addition, tensor_multiplication};
use gkr::multilinear::MultilinearPoly;

fn fp_vec(values: &[u64]) -> Vec<Fp> {
    values.iter().map(|&v| Fp::new(v)).collect()
}

fn three_layer_circuit() -> Circuit {
    let layer1 = Layer::new(vec![
        Gate::new(0, 0, 1, Opt::Add),
        Gate::new(1, 2, 3, Opt::Mul),
        Gate::new(2, 4, 5, Opt::Mul),
        Gate::new(3, 6, 7, Opt::Mul),
    ]);
    let layer2 = Layer::new(vec![
        Gate::new(0, 0, 1, Opt::Add),
        Gate::new(1, 2, 3, Opt::Mul),
    ]);
    let layer3 = Layer::new(vec![Gate::new(0, 0, 1, Opt::Add)]);
    Circuit::new(vec![layer1, layer2, layer3])
}

fn one_to_eight() -> Vec<Fp> {
    fp_vec(&[1, 2, 3, 4, 5, 6, 7, 8])
}

#[test]
fn test_gate() {
    let gate = Gate::new(0, 0, 1, Opt::Add);
    assert_eq!(gate.right_index, 1);
    assert_eq!(gate.output, 0);
    assert_eq!(gate.opt, Opt::Add);
    assert_eq!(gate.left_index, 0);
}

#[test]
fn circuit_test_gate() {
    let gate = Gate::new(0, 0, 1, Opt::Add);
    assert_eq!(gate.right_index, 1);
    assert_eq!(gate.output, 0);
    assert_eq!(gate.opt, Opt::Add);
    assert_eq!(gate.left_index, 0);
}

#[test]
fn test_gate_evaluation() {
    let gate = Gate::new(0, 0, 1, Opt::Add);
    let inputs = &fp_vec(&[2, 3]);
    let mut output = fp_vec(&[0, 0]);
    gate.evaluate(inputs, &mut output);
    assert_eq!(output[0], Fp::new(5));
}

#[test]
fn test_layer_evaluation() {
    let gates = vec![
        Gate::new(0, 0, 1, Opt::Add),
        Gate::new(1, 2, 3, Opt::Mul),
        Gate::new(2, 0, 1, Opt::Add),
    ];
    let layer = Layer::new(gates);
    let outputs = layer.evaluate(&fp_vec(&[2, 5, 3, 4])).unwrap();
    assert_eq!(outputs, fp_vec(&[7, 12, 7]));
}

#[test]
fn test_layer_width_mismatch() {
    let layer = Layer::new(vec![Gate::new(0, 0, 5, Opt::Add)]);
    let r = layer.evaluate(&fp_vec(&[1, 2]));
    assert_eq!(r.unwrap_err(), Error::WidthMismatch);
}

#[test]
fn test_circuit_evaluation() {
    let mut circuit = three_layer_circuit();
    let outputs = circuit.evaluate(&one_to_eight()).unwrap();
    assert_eq!(outputs, fp_vec(&[1695]));
}

// The circuit trace scenario: layer values bottom-up, stored output
// layer first.
#[test]
fn test_circuit_trace() {
    let mut circuit = three_layer_circuit();
    circuit.evaluate(&one_to_eight()).unwrap();
    assert_eq!(circuit.layer_evals.len(), 4);
    assert_eq!(circuit.layer_evals[0], fp_vec(&[1695]));
    assert_eq!(circuit.layer_evals[1], fp_vec(&[15, 1680]));
    assert_eq!(circuit.layer_evals[2], fp_vec(&[3, 12, 30, 56]));
    assert_eq!(circuit.layer_evals[3], fp_vec(&[1, 2, 3, 4, 5, 6, 7, 8]));
}

#[test]
fn test_get_w_i_poly() {
    let mut circuit = three_layer_circuit();
    circuit.evaluate(&one_to_eight()).unwrap();
    let w_i_poly = circuit.get_w_i_poly(3).unwrap();
    assert_eq!(w_i_poly.full_evaluate(), &one_to_eight());
    // A single output value is padded with one zero to reach one variable.
    let output_poly = circuit.get_w_i_poly(0).unwrap();
    assert_eq!(output_poly.num_vars, 1);
    assert_eq!(output_poly.full_evaluate(), &fp_vec(&[1695, 0]));
}

#[test]
fn test_get_w_i_poly_errors() {
    let mut circuit = three_layer_circuit();
    circuit.evaluate(&one_to_eight()).unwrap();
    assert_eq!(circuit.get_w_i_poly(4).unwrap_err(), Error::LayerIndexOutOfRange);
    let mut empty_layer_circuit = Circuit::new(vec![Layer::new(vec![])]);
    empty_layer_circuit.evaluate(&fp_vec(&[1, 2])).unwrap();
    // The empty layer leaves an empty value vector at the top of the trace.
    assert_eq!(empty_layer_circuit.get_w_i_poly(0).unwrap_err(), Error::ArityTooSmall);
}

#[test]
fn test_get_num_var() {
    let layer2 = Layer::new(vec![
        Gate::new(0, 0, 1, Opt::Add),
        Gate::new(1, 2, 3, Opt::Mul),
    ]);
    // 2 output slots need 1 bit; 4 input slots need 2 bits each side.
    assert_eq!(layer2.get_num_var(4), 5);
    let layer1 = Layer::new(vec![
        Gate::new(0, 0, 1, Opt::Add),
        Gate::new(1, 2, 3, Opt::Mul),
        Gate::new(2, 4, 5, Opt::Mul),
        Gate::new(3, 6, 7, Opt::Mul),
    ]);
    assert_eq!(layer1.get_num_var(8), 8);
}

#[test]
fn test_get_add_i_and_mul_i() {
    let gates = vec![Gate::new(0, 0, 1, Opt::Add), Gate::new(1, 2, 3, Opt::Add)];
    let layer = Layer::new(gates);
    let (add_i, mul_i) = layer.get_add_i_and_mul_i(4).unwrap();
    // 1 output bit and two 2-bit input fields: 32 points.
    assert_eq!(add_i.num_vars, 5);
    assert_eq!(mul_i.num_vars, 5);
    let add_evals = add_i.full_evaluate();
    let mul_evals = mul_i.full_evaluate();
    // Gate (0, 0, 1): index 0b0_00_01 = 1; gate (1, 2, 3): index 0b1_10_11 = 27.
    for x in 0..32 {
        let expected = if x == 1 || x == 27 { Fp::one() } else { Fp::zero() };
        assert_eq!(add_evals[x], expected);
        assert_eq!(mul_evals[x], Fp::zero());
    }
}

// Wiring-predicate exactness on a layer that mixes both gate kinds.
#[test]
fn test_wiring_predicates_exact() {
    let layer = Layer::new(vec![
        Gate::new(0, 0, 1, Opt::Add),
        Gate::new(1, 2, 3, Opt::Mul),
    ]);
    let (add_i, mul_i) = layer.get_add_i_and_mul_i(4).unwrap();
    let add_evals = add_i.full_evaluate();
    let mul_evals = mul_i.full_evaluate();
    for x in 0..32 {
        let expected_add = if x == 1 { Fp::one() } else { Fp::zero() };
        // Gate (1, 2, 3) as mul: index 0b1_10_11 = 27.
        let expected_mul = if x == 27 { Fp::one() } else { Fp::zero() };
        assert_eq!(add_evals[x], expected_add);
        assert_eq!(mul_evals[x], expected_mul);
    }
}

#[test]
fn test_wiring_width_mismatch() {
    let layer = Layer::new(vec![Gate::new(3, 0, 1, Opt::Add)]);
    assert_eq!(layer.get_add_i_and_mul_i(4).unwrap_err(), Error::WidthMismatch);
}

#[test]
fn test_tensor_addition() {
    let b = MultilinearPoly::new(fp_vec(&[1, 2]), 1).unwrap();
    let c = MultilinearPoly::new(fp_vec(&[10, 20]), 1).unwrap();
    let r = tensor_addition(&b, &c);
    assert_eq!(r.num_vars, 2);
    assert_eq!(r.full_evaluate(), &fp_vec(&[11, 21, 12, 22]));
}

#[test]
fn test_tensor_multiplication() {
    let b = MultilinearPoly::new(fp_vec(&[1, 2]), 1).unwrap();
    let c = MultilinearPoly::new(fp_vec(&[10, 20]), 1).unwrap();
    let r = tensor_multiplication(&b, &c);
    assert_eq!(r.num_vars, 2);
    assert_eq!(r.full_evaluate(), &fp_vec(&[10, 20, 20, 40]));
}

#[test]
fn test_add_w_b_c_poly() {
    let mut circuit = three_layer_circuit();
    circuit.evaluate(&one_to_eight()).unwrap();
    let mul = circuit.mul_w_b_c_poly(2).unwrap();
    // The next trace position holds the 8 circuit inputs: 3 + 3 variables.
    assert_eq!(mul.num_vars, 6);
    assert_eq!(mul.full_evaluate().len(), 64);
    // Index 10 is the point (x, y) = (001, 010): W(x) = 2, W(y) = 3.
    assert_eq!(mul.full_evaluate()[10], Fp::new(6));
    let add = circuit.add_w_b_c_poly(2).unwrap();
    assert_eq!(add.num_vars, 6);
    assert_eq!(add.full_evaluate()[10], Fp::new(5));
    assert_eq!(circuit.add_w_b_c_poly(3).unwrap_err(), Error::LayerIndexOutOfRange);
}

// The layer identity on concrete values: each output slot equals the sum
// over all (x, y) of add(z,x,y)*(W(x)+W(y)) + mul(z,x,y)*(W(x)*W(y)).
#[test]
fn test_layer_identity_concrete() {
    let layer = Layer::new(vec![
        Gate::new(0, 0, 1, Opt::Add),
        Gate::new(1, 2, 3, Opt::Mul),
        Gate::new(2, 4, 5, Opt::Mul),
        Gate::new(3, 6, 7, Opt::Mul),
    ]);
    let inputs = one_to_eight();
    let outputs = layer.evaluate(&inputs).unwrap();
    let (add_i, mul_i) = layer.get_add_i_and_mul_i(8).unwrap();
    // 2 output bits plus two 3-bit input fields.
    assert_eq!(add_i.num_vars, 8);
    let w = MultilinearPoly::new(inputs, 3).unwrap();
    let pair_sums = tensor_addition(&w, &w);
    let pair_products = tensor_multiplication(&w, &w);
    for z in 0..4usize {
        let mut total = Fp::zero();
        for t in 0..64usize {
            let idx = z * 64 + t;
            let wired_add = add_i.full_evaluate()[idx].mul(pair_sums.full_evaluate()[t]);
            let wired_mul = mul_i.full_evaluate()[idx].mul(pair_products.full_evaluate()[t]);
            total = total.add(wired_add).add(wired_mul);
        }
        assert_eq!(total, outputs[z]);
    }
}
