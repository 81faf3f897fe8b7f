//! The layered arithmetic circuit and its wiring predicates.
//!
//! A circuit is an ordered list of layers, input layer first; a layer is
//! an ordered list of gates.  A gate reads two entries of the previous
//! value vector, adds or multiplies them, and accumulates the result into
//! its output slot — several gates may target the same slot, and their
//! contributions add up.  Evaluation records the value vector at the
//! input and after every layer; the trace is stored output layer first.
//!
//! Each layer boundary also has a pair of wiring predicates, `add` and
//! `mul`: multilinear polynomials over (output bits ‖ left bits ‖ right
//! bits) that are 1 exactly at the triples wired by a gate of that kind.

use vstd::prelude::*;
use vstd::arithmetic::power2::{
    pow2, lemma_pow2_unfold, lemma_pow2_strictly_increases, lemma_pow2_adds, lemma_pow2_pos,
    lemma2_to64,
};
use vstd::arithmetic::div_mod::{
    lemma_mod_bound, lemma_small_mod, lemma_fundamental_div_mod_converse,
};
use crate::field::{Fp, f_add, f_mul, in_field, p, MODULUS, lemma_f_add_assoc};
use crate::errors::Error;
use crate::multilinear::{
    MultilinearPoly, vals, all_in_field, sum_evals, lemma_sum_zero, lemma_sum_add_at,
    lemma_sum_in_field,
};
use crate::hypercube::{nbits, nbits_exec, lemma_nbits_bounds, lemma_nbits_small, pow2_exact};

verus! {

/// A gate operation: a closed pair of cases, since round-polynomial
/// degrees in the reduction depend on them.
#[derive(Clone, Copy, PartialEq, Eq, Structural, Debug)]
pub enum Opt {
    Add,
    Mul,
}

/// One gate: two source indices into the previous layer's values, one
/// output slot in this layer's values, and the operation applied.
#[derive(Clone, Copy, PartialEq, Eq, Structural, Debug)]
pub struct Gate {
    pub output: usize,
    pub left_index: usize,
    pub right_index: usize,
    pub opt: Opt,
}

/// A gate's sources lie inside the input vector and its target inside the
/// output vector.
pub open spec fn gate_ok(g: Gate, in_len: nat, out_len: nat) -> bool {
    &&& g.left_index < in_len
    &&& g.right_index < in_len
    &&& g.output < out_len
}

/// What a gate contributes: the sum or the product of its two sources.
pub open spec fn gate_value(g: Gate, inputs: Seq<int>) -> int {
    match g.opt {
        Opt::Add => f_add(inputs[g.left_index as int], inputs[g.right_index as int]),
        Opt::Mul => f_mul(inputs[g.left_index as int], inputs[g.right_index as int]),
    }
}

/// Run a list of gates in order over a fixed input vector, accumulating
/// each gate's contribution into its output slot.
pub open spec fn apply_gates(gates: Seq<Gate>, inputs: Seq<int>, outputs: Seq<int>) -> Seq<int>
    decreases gates.len(),
{
    if gates.len() == 0 {
        outputs
    } else {
        let prev = apply_gates(gates.drop_last(), inputs, outputs);
        let g = gates.last();
        if g.output < prev.len() {
            prev.update(g.output as int, f_add(prev[g.output as int], gate_value(g, inputs)))
        } else {
            prev
        }
    }
}

/// An all-zero vector of the given length.
pub open spec fn zero_seq(n: nat) -> Seq<int> {
    Seq::new(n, |i: int| 0)
}

/// A layer's output vector: one slot per gate, each starting at zero.
pub open spec fn layer_eval(gates: Seq<Gate>, inputs: Seq<int>) -> Seq<int> {
    apply_gates(gates, inputs, zero_seq(gates.len()))
}

/// Every gate of the layer addresses inside the given input width and the
/// layer's own output width.
pub open spec fn layer_ok(gates: Seq<Gate>, in_len: nat) -> bool {
    forall|i: int| 0 <= i < gates.len() ==> gate_ok(#[trigger] gates[i], in_len, gates.len())
}

/// Applying gates keeps the output vector's length.
pub proof fn lemma_apply_gates_len(gates: Seq<Gate>, inputs: Seq<int>, outputs: Seq<int>)
    ensures
        apply_gates(gates, inputs, outputs).len() == outputs.len(),
    decreases gates.len(),
{
    if gates.len() > 0 {
        lemma_apply_gates_len(gates.drop_last(), inputs, outputs);
    }
}

impl Gate {
    /// Assemble a gate from its four fields.
    pub fn new(output: usize, left_index: usize, right_index: usize, opt: Opt) -> (g: Gate)
        ensures
            g.output == output,
            g.left_index == left_index,
            g.right_index == right_index,
            g.opt == opt,
    {
        Gate { output, left_index, right_index, opt }
    }

    /// Accumulate this gate's contribution into its output slot.
    pub fn evaluate(&self, inputs: &Vec<Fp>, outputs: &mut Vec<Fp>)
        requires
            self.left_index < inputs@.len(),
            self.right_index < inputs@.len(),
            self.output < old(outputs)@.len(),
            all_in_field(vals(inputs@)),
            all_in_field(vals(old(outputs)@)),
        ensures
            vals(final(outputs)@) == vals(old(outputs)@).update(
                self.output as int,
                f_add(
                    vals(old(outputs)@)[self.output as int],
                    gate_value(*self, vals(inputs@)),
                ),
            ),
            all_in_field(vals(final(outputs)@)),
    {
        let left_input = inputs[self.left_index];
        let right_input = inputs[self.right_index];
        proof {
            assert(in_field(vals(inputs@)[self.left_index as int]));
            assert(in_field(vals(inputs@)[self.right_index as int]));
            assert(in_field(vals(old(outputs)@)[self.output as int]));
        }
        let value = match self.opt {
            Opt::Add => left_input.add(right_input),
            Opt::Mul => left_input.mul(right_input),
        };
        let ghost prev = outputs@;
        let updated = outputs[self.output].add(value);
        outputs[self.output] = updated;
        proof {
            assert(vals(outputs@) =~= vals(prev).update(
                self.output as int,
                f_add(vals(prev)[self.output as int], gate_value(*self, vals(inputs@))),
            ));
            assert forall|t: int| 0 <= t < vals(outputs@).len() implies in_field(
                #[trigger] vals(outputs@)[t],
            ) by {
                if t != self.output {
                    assert(vals(outputs@)[t] == vals(prev)[t]);
                }
            }
        }
    }
}

/// An ordered list of gates sharing one input vector and one output
/// vector.
#[derive(Debug)]
pub struct Layer {
    pub gates: Vec<Gate>,
}

impl View for Layer {
    type V = Seq<Gate>;

    open spec fn view(&self) -> Seq<Gate> {
        self.gates@
    }
}

impl Layer {
    /// Assemble a layer from its gates.
    pub fn new(gates: Vec<Gate>) -> (l: Layer)
        ensures
            l@ == gates@,
    {
        Layer { gates }
    }

    /// Evaluate the layer over an input vector: one output slot per gate,
    /// gates accumulating in order.  Refuses the layer when any gate
    /// addresses outside the input vector or the layer's own width.
    pub fn evaluate(&self, inputs: &Vec<Fp>) -> (r: Result<Vec<Fp>, Error>)
        requires
            all_in_field(vals(inputs@)),
        ensures
            layer_ok(self@, inputs@.len()) ==> (r matches Ok(out) && {
                &&& vals(out@) == layer_eval(self@, vals(inputs@))
                &&& out@.len() == self@.len()
                &&& all_in_field(vals(out@))
            }),
            !layer_ok(self@, inputs@.len()) ==> r == Err::<Vec<Fp>, Error>(Error::WidthMismatch),
    {
        let width = self.gates.len();
        let mut outputs: Vec<Fp> = Vec::new();
        let mut z: usize = 0;
        while z < width
            invariant
                z <= width,
                outputs@.len() == z,
                forall|t: int| 0 <= t < z ==> vals(outputs@)[t] == 0,
            decreases width - z,
        {
            let ghost prev = outputs@;
            outputs.push(Fp::zero());
            proof {
                assert forall|t: int| 0 <= t < z + 1 implies #[trigger] vals(outputs@)[t] == 0 by {
                    if t < z {
                        assert(outputs@[t] == prev[t]);
                        assert(vals(prev)[t] == 0);
                    }
                }
            }
            z = z + 1;
        }
        proof {
            assert(vals(outputs@) =~= zero_seq(width as nat));
        }
        let mut i: usize = 0;
        while i < self.gates.len()
            invariant
                all_in_field(vals(inputs@)),
                width == self@.len(),
                i <= self@.len(),
                outputs@.len() == width,
                forall|t: int| 0 <= t < i ==> gate_ok(#[trigger] self@[t], inputs@.len(), width as nat),
                vals(outputs@) == apply_gates(self@.take(i as int), vals(inputs@), zero_seq(width as nat)),
                all_in_field(vals(outputs@)),
            decreases self@.len() - i,
        {
            let g = self.gates[i];
            if g.left_index >= inputs.len() || g.right_index >= inputs.len() || g.output >= width {
                proof {
                    assert(!gate_ok(self@[i as int], inputs@.len(), width as nat));
                }
                return Err(Error::WidthMismatch);
            }
            let ghost before = vals(outputs@);
            g.evaluate(inputs, &mut outputs);
            proof {
                lemma_apply_gates_len(self@.take(i as int), vals(inputs@), zero_seq(width as nat));
                assert(self@.take(i as int + 1).drop_last() =~= self@.take(i as int));
                assert(self@.take(i as int + 1).last() == self@[i as int]);
                assert(vals(outputs@) == apply_gates(
                    self@.take(i as int + 1),
                    vals(inputs@),
                    zero_seq(width as nat),
                ));
            }
            i = i + 1;
        }
        proof {
            assert(self@.take(self@.len() as int) =~= self@);
        }
        Ok(outputs)
    }
}

/// The spec-level trace: each stored vector's values.
pub open spec fn trace_view(t: Seq<Vec<Fp>>) -> Seq<Seq<int>> {
    t.map(|i: int, v: Vec<Fp>| vals(v@))
}

/// The spec-level circuit: each layer's gate list.
pub open spec fn layers_view(ls: Seq<Layer>) -> Seq<Seq<Gate>> {
    ls.map(|i: int, l: Layer| l@)
}

/// The width of the vector feeding layer `i`: the circuit input for the
/// first layer, the previous layer's own width after that.
pub open spec fn prev_width(ls: Seq<Seq<Gate>>, i: int, in_len: nat) -> nat {
    if i == 0 {
        in_len
    } else {
        ls[i - 1].len()
    }
}

/// Every layer's gates address inside the widths the circuit provides.
pub open spec fn circuit_ok(ls: Seq<Seq<Gate>>, in_len: nat) -> bool {
    forall|i: int| 0 <= i < ls.len() ==> layer_ok(#[trigger] ls[i], prev_width(ls, i, in_len))
}

/// The evaluation trace: the input vector, then the value vector after
/// each layer, in evaluation order.
pub open spec fn circuit_trace(ls: Seq<Seq<Gate>>, inputs: Seq<int>) -> Seq<Seq<int>>
    decreases ls.len(),
{
    if ls.len() == 0 {
        seq![inputs]
    } else {
        let t = circuit_trace(ls.drop_last(), inputs);
        t.push(layer_eval(ls.last(), t.last()))
    }
}

/// An owned copy of a vector of field elements.
fn copy_vec(v: &Vec<Fp>) -> (r: Vec<Fp>)
    ensures
        r@ == v@,
{
    let mut out: Vec<Fp> = Vec::new();
    let mut i: usize = 0;
    while i < v.len()
        invariant
            i <= v@.len(),
            out@.len() == i,
            forall|t: int| 0 <= t < i ==> out@[t] == v@[t],
        decreases v@.len() - i,
    {
        out.push(v[i]);
        i = i + 1;
    }
    proof {
        assert(out@ =~= v@);
    }
    out
}

/// A layered circuit together with the trace its last evaluation left
/// behind, stored output layer first.
#[derive(Debug)]
pub struct Circuit {
    pub layers: Vec<Layer>,
    pub layer_evals: Vec<Vec<Fp>>,
}

/// Every stored trace vector holds canonical representatives, and is
/// short enough to pad to a power of two.
pub open spec fn trace_wf(c: &Circuit) -> bool {
    forall|i: int|
        0 <= i < c.layer_evals@.len() ==> all_in_field(#[trigger] trace_view(c.layer_evals@)[i])
            && trace_view(c.layer_evals@)[i].len() <= usize::MAX as nat / 2
}

impl Circuit {
    /// Assemble a circuit from its layers, input layer first, with an
    /// empty trace.
    pub fn new(layers: Vec<Layer>) -> (c: Circuit)
        ensures
            c.layers@ == layers@,
            c.layer_evals@.len() == 0,
    {
        Circuit { layers, layer_evals: Vec::new() }
    }

    /// Evaluate the circuit bottom-up, recording the value vector at the
    /// input and after every layer; the stored trace is reversed, so the
    /// output layer sits at position 0.  Returns the final output vector,
    /// or refuses the circuit if some gate addresses outside its widths.
    #[verifier::rlimit(100)]
    #[verifier::spinoff_prover]
    pub fn evaluate(&mut self, initial_inputs: &Vec<Fp>) -> (r: Result<Vec<Fp>, Error>)
        requires
            all_in_field(vals(initial_inputs@)),
        ensures
            final(self).layers == old(self).layers,
            circuit_ok(layers_view(old(self).layers@), initial_inputs@.len()) ==> (r matches Ok(
                out,
            ) && {
                let tr = circuit_trace(layers_view(old(self).layers@), vals(initial_inputs@));
                &&& vals(out@) == tr.last()
                &&& trace_view(final(self).layer_evals@) == tr.reverse()
                &&& all_in_field(vals(out@))
                &&& forall|k: int|
                    0 <= k < final(self).layer_evals@.len() ==> all_in_field(
                        #[trigger] trace_view(final(self).layer_evals@)[k],
                    )
            }),
            !circuit_ok(layers_view(old(self).layers@), initial_inputs@.len()) ==> r == Err::<
                Vec<Fp>,
                Error,
            >(Error::WidthMismatch) && *final(self) == *old(self),
    {
        let ghost lv = layers_view(self.layers@);
        let ghost iv = vals(initial_inputs@);
        let mut trace: Vec<Vec<Fp>> = Vec::new();
        let mut current: Vec<Fp> = copy_vec(initial_inputs);
        trace.push(copy_vec(&current));
        proof {
            assert(lv.take(0) =~= Seq::<Seq<Gate>>::empty());
            assert(trace_view(trace@) =~= circuit_trace(lv.take(0), iv));
        }
        let mut i: usize = 0;
        while i < self.layers.len()
            invariant
                all_in_field(vals(initial_inputs@)),
                lv == layers_view(self.layers@),
                iv == vals(initial_inputs@),
                i <= self.layers@.len(),
                trace@.len() == i + 1,
                trace_view(trace@) == circuit_trace(lv.take(i as int), iv),
                vals(current@) == trace_view(trace@).last(),
                current@.len() == prev_width(lv, i as int, initial_inputs@.len()),
                all_in_field(vals(current@)),
                forall|k: int|
                    0 <= k < trace@.len() ==> all_in_field(#[trigger] trace_view(trace@)[k]),
                forall|t: int|
                    0 <= t < i ==> layer_ok(
                        #[trigger] lv[t],
                        prev_width(lv, t, initial_inputs@.len()),
                    ),
            decreases self.layers@.len() - i,
        {
            let layer = &self.layers[i];
            proof {
                assert(lv[i as int] == layer@);
            }
            let out = match layer.evaluate(&current) {
                Ok(out) => out,
                Err(e) => {
                    proof {
                        assert(!layer_ok(lv[i as int], prev_width(lv, i as int, iv.len())));
                        assert(!circuit_ok(lv, initial_inputs@.len()));
                    }
                    return Err(Error::WidthMismatch);
                },
            };
            let ghost prev_trace = trace@;
            trace.push(copy_vec(&out));
            current = out;
            proof {
                assert(lv.take(i as int + 1).drop_last() =~= lv.take(i as int));
                assert(lv.take(i as int + 1).last() == lv[i as int]);
                assert(trace_view(trace@) =~= trace_view(prev_trace).push(vals(current@)));
                assert(trace_view(trace@) =~= circuit_trace(lv.take(i as int + 1), iv));
                assert forall|k: int| 0 <= k < trace@.len() implies all_in_field(
                    #[trigger] trace_view(trace@)[k],
                ) by {
                    if k < trace@.len() - 1 {
                        assert(trace_view(trace@)[k] == trace_view(prev_trace)[k]);
                    }
                }
            }
            i = i + 1;
        }
        proof {
            assert(lv.take(lv.len() as int) =~= lv);
        }
        let total = trace.len();
        let mut reversed: Vec<Vec<Fp>> = Vec::new();
        let mut j: usize = 0;
        while j < total
            invariant
                total == trace@.len(),
                j <= total,
                reversed@.len() == j,
                forall|t: int|
                    0 <= t < j ==> #[trigger] trace_view(reversed@)[t] == trace_view(trace@)[
                        total - 1 - t],
            decreases total - j,
        {
            let ghost prev_rev = reversed@;
            reversed.push(copy_vec(&trace[total - 1 - j]));
            proof {
                assert forall|t: int| 0 <= t < j + 1 implies #[trigger] trace_view(reversed@)[t]
                    == trace_view(trace@)[total - 1 - t] by {
                    if t < j {
                        assert(trace_view(reversed@)[t] == trace_view(prev_rev)[t]);
                    } else {
                        assert(reversed@[t]@ == trace@[total - 1 - j]@);
                        assert(trace_view(reversed@)[t] == vals(reversed@[t]@));
                        assert(trace_view(trace@)[total - 1 - j] == vals(
                            trace@[total - 1 - j]@,
                        ));
                    }
                }
            }
            j = j + 1;
        }
        proof {
            assert(trace_view(reversed@) =~= trace_view(trace@).reverse());
        }
        self.layer_evals = reversed;
        proof {
            assert forall|k: int| 0 <= k < self.layer_evals@.len() implies all_in_field(
                #[trigger] trace_view(self.layer_evals@)[k],
            ) by {
                assert(trace_view(self.layer_evals@)[k] == trace_view(trace@)[
                    trace@.len() - 1 - k]);
            }
        }
        Ok(current)
    }
}

/// A value vector padded with zeros up to the power of two that its
/// addressing width covers.
pub open spec fn pad_pow2(s: Seq<int>) -> Seq<int> {
    s + zero_seq((pow2(nbits(s.len())) - s.len()) as nat)
}

impl Layer {
    /// The number of variables of this layer's wiring predicates: one bit
    /// field for the output slots, two for the input slots.
    pub fn get_num_var(&self, input_width: usize) -> (n: usize)
        ensures
            n == nbits(self@.len()) + 2 * nbits(input_width as nat),
    {
        let out_bits = nbits_exec(self.gates.len());
        let in_bits = nbits_exec(input_width);
        proof {
            lemma_nbits_small(self@.len());
            lemma_nbits_small(input_width as nat);
        }
        out_bits + 2 * in_bits
    }
}

impl Circuit {
    /// Lift the value vector at a trace position to a multilinear
    /// polynomial, padding with zeros up to the next power of two of at
    /// least 2.  Refuses a position outside the trace and an empty
    /// vector.
    pub fn get_w_i_poly(&self, layer_index: usize) -> (r: Result<MultilinearPoly, Error>)
        requires
            trace_wf(self),
        ensures
            layer_index >= self.layer_evals@.len() ==> r == Err::<MultilinearPoly, Error>(
                Error::LayerIndexOutOfRange,
            ),
            layer_index < self.layer_evals@.len() && trace_view(self.layer_evals@)[
                layer_index as int].len() == 0 ==> r == Err::<MultilinearPoly, Error>(
                Error::ArityTooSmall,
            ),
            layer_index < self.layer_evals@.len() && trace_view(self.layer_evals@)[
                layer_index as int].len() > 0 ==> (r matches Ok(q) && {
                &&& q.num_vars == nbits(trace_view(self.layer_evals@)[layer_index as int].len())
                &&& q@ == pad_pow2(trace_view(self.layer_evals@)[layer_index as int])
                &&& q.wf()
            }),
    {
        if layer_index >= self.layer_evals.len() {
            return Err(Error::LayerIndexOutOfRange);
        }
        let source = &self.layer_evals[layer_index];
        let source_len = source.len();
        if source_len == 0 {
            return Err(Error::ArityTooSmall);
        }
        proof {
            assert(trace_view(self.layer_evals@)[layer_index as int] == vals(source@));
            assert(all_in_field(vals(source@)));
            assert(vals(source@).len() <= usize::MAX as nat / 2);
            lemma_nbits_bounds(source_len as nat);
        }
        let num_var = nbits_exec(source_len);
        let target = pow2_exact(num_var);
        let mut evaluations = copy_vec(source);
        while evaluations.len() < target
            invariant
                target as nat == pow2(nbits(source@.len())),
                evaluations@.len() >= source@.len(),
                evaluations@.len() <= target,
                vals(evaluations@) == vals(source@) + zero_seq(
                    (evaluations@.len() - source@.len()) as nat,
                ),
                all_in_field(vals(source@)),
            decreases target - evaluations@.len(),
        {
            let ghost prev = evaluations@;
            let zero_entry = Fp::zero();
            evaluations.push(zero_entry);
            proof {
                let target_seq = vals(source@) + zero_seq(
                    (evaluations@.len() - source@.len()) as nat,
                );
                assert forall|t: int| 0 <= t < vals(evaluations@).len() implies #[trigger] vals(
                    evaluations@,
                )[t] == target_seq[t] by {
                    if t < prev.len() {
                        assert(evaluations@[t] == prev[t]);
                        assert(vals(evaluations@)[t] == vals(prev)[t]);
                        assert(vals(prev)[t] == (vals(source@) + zero_seq(
                            (prev.len() - source@.len()) as nat,
                        ))[t]);
                    } else {
                        assert(evaluations@[t] == zero_entry);
                        assert(vals(evaluations@)[t] == 0);
                    }
                }
                assert(vals(evaluations@) =~= target_seq);
            }
        }
        proof {
            assert(vals(evaluations@) == pad_pow2(vals(source@)));
            assert forall|t: int| 0 <= t < vals(evaluations@).len() implies in_field(
                #[trigger] vals(evaluations@)[t],
            ) by {
                if t < source@.len() {
                    assert(vals(evaluations@)[t] == vals(source@)[t]);
                } else {
                    assert(vals(evaluations@)[t] == 0);
                }
            }
        }
        Ok(MultilinearPoly { evaluations, num_vars: num_var })
    }
}

impl Circuit {
    /// The tensor sum `W(x) + W(y)` of the next layer's polynomial with
    /// itself: the `(x, y)` half of the `add`-gate term of the layer
    /// identity.
    pub fn add_w_b_c_poly(&self, layer_index: usize) -> (r: Result<MultilinearPoly, Error>)
        requires
            trace_wf(self),
            layer_index as int + 1 < self.layer_evals@.len() ==> pow2(
                2 * nbits(trace_view(self.layer_evals@)[layer_index as int + 1].len()),
            ) <= usize::MAX as nat,
        ensures
            layer_index as int + 1 >= self.layer_evals@.len() ==> r == Err::<
                MultilinearPoly,
                Error,
            >(Error::LayerIndexOutOfRange),
            layer_index as int + 1 < self.layer_evals@.len() && trace_view(self.layer_evals@)[
                layer_index as int + 1].len() == 0 ==> r == Err::<MultilinearPoly, Error>(
                Error::ArityTooSmall,
            ),
            layer_index as int + 1 < self.layer_evals@.len() && trace_view(self.layer_evals@)[
                layer_index as int + 1].len() > 0 ==> (r matches Ok(q) && {
                let w = pad_pow2(trace_view(self.layer_evals@)[layer_index as int + 1]);
                &&& q.num_vars == 2 * nbits(
                    trace_view(self.layer_evals@)[layer_index as int + 1].len(),
                )
                &&& q@.len() == w.len() * w.len()
                &&& forall|t: int|
                    0 <= t < q@.len() ==> q@[t] == f_add(
                        w[t / w.len() as int],
                        w[t % w.len() as int],
                    )
                &&& q.wf()
            }),
    {
        if layer_index >= self.layer_evals.len() {
            return Err(Error::LayerIndexOutOfRange);
        }
        let next_index = layer_index + 1;
        if next_index >= self.layer_evals.len() {
            return Err(Error::LayerIndexOutOfRange);
        }
        let layer_poly = match self.get_w_i_poly(next_index) {
            Ok(q) => q,
            Err(e) => {
                return Err(e);
            },
        };
        proof {
            assert(layer_poly.num_vars + layer_poly.num_vars == 2 * nbits(
                trace_view(self.layer_evals@)[layer_index as int + 1].len(),
            ));
        }
        Ok(crate::tensor::tensor_addition(&layer_poly, &layer_poly))
    }

    /// The tensor product `W(x) * W(y)` of the next layer's polynomial
    /// with itself: the `(x, y)` half of the `mul`-gate term of the layer
    /// identity.
    pub fn mul_w_b_c_poly(&self, layer_index: usize) -> (r: Result<MultilinearPoly, Error>)
        requires
            trace_wf(self),
            layer_index as int + 1 < self.layer_evals@.len() ==> pow2(
                2 * nbits(trace_view(self.layer_evals@)[layer_index as int + 1].len()),
            ) <= usize::MAX as nat,
        ensures
            layer_index as int + 1 >= self.layer_evals@.len() ==> r == Err::<
                MultilinearPoly,
                Error,
            >(Error::LayerIndexOutOfRange),
            layer_index as int + 1 < self.layer_evals@.len() && trace_view(self.layer_evals@)[
                layer_index as int + 1].len() == 0 ==> r == Err::<MultilinearPoly, Error>(
                Error::ArityTooSmall,
            ),
            layer_index as int + 1 < self.layer_evals@.len() && trace_view(self.layer_evals@)[
                layer_index as int + 1].len() > 0 ==> (r matches Ok(q) && {
                let w = pad_pow2(trace_view(self.layer_evals@)[layer_index as int + 1]);
                &&& q.num_vars == 2 * nbits(
                    trace_view(self.layer_evals@)[layer_index as int + 1].len(),
                )
                &&& q@.len() == w.len() * w.len()
                &&& forall|t: int|
                    0 <= t < q@.len() ==> q@[t] == f_mul(
                        w[t / w.len() as int],
                        w[t % w.len() as int],
                    )
                &&& q.wf()
            }),
    {
        if layer_index >= self.layer_evals.len() {
            return Err(Error::LayerIndexOutOfRange);
        }
        let next_index = layer_index + 1;
        if next_index >= self.layer_evals.len() {
            return Err(Error::LayerIndexOutOfRange);
        }
        let layer_poly = match self.get_w_i_poly(next_index) {
            Ok(q) => q,
            Err(e) => {
                return Err(e);
            },
        };
        proof {
            assert(layer_poly.num_vars + layer_poly.num_vars == 2 * nbits(
                trace_view(self.layer_evals@)[layer_index as int + 1].len(),
            ));
        }
        Ok(crate::tensor::tensor_multiplication(&layer_poly, &layer_poly))
    }
}

/// The wiring index of a gate: its output, left and right indices spelled
/// as consecutive bit fields, output bits most significant.
pub open spec fn wiring_index(g: Gate, in_bits: nat) -> int {
    g.output * pow2(2 * in_bits) + g.left_index * pow2(in_bits) + g.right_index
}

/// Some gate of the given kind wires exactly the triple that `x` spells.
pub open spec fn has_gate(gates: Seq<Gate>, o: Opt, in_bits: nat, x: int) -> bool {
    exists|i: int|
        0 <= i < gates.len() && (#[trigger] gates[i]).opt == o && wiring_index(gates[i], in_bits)
            == x
}

/// A gate that addresses inside its widths has a wiring index inside the
/// predicate's hypercube.
pub proof fn lemma_wiring_index_bound(g: Gate, in_w: nat, out_w: nat)
    requires
        gate_ok(g, in_w, out_w),
    ensures
        0 <= wiring_index(g, nbits(in_w)),
        wiring_index(g, nbits(in_w)) < pow2(nbits(out_w) + 2 * nbits(in_w)),
        g.left_index * pow2(nbits(in_w)) >= 0,
        g.output * pow2(2 * nbits(in_w)) >= 0,
{
    let ob = nbits(out_w);
    let ib = nbits(in_w);
    lemma_nbits_bounds(out_w);
    lemma_nbits_bounds(in_w);
    vstd::arithmetic::power2::lemma_pow2_adds(ob, 2 * ib);
    vstd::arithmetic::power2::lemma_pow2_adds(ib, ib);
    let a = pow2(ob) as int;
    let b = pow2(ib) as int;
    assert(pow2(2 * ib) == b * b);
    assert(pow2(ob + 2 * ib) == a * (b * b));
    let o = g.output as int;
    let l = g.left_index as int;
    let r = g.right_index as int;
    assert(o * (b * b) + l * b + r < a * (b * b) && o * (b * b) + l * b + r >= 0 && l * b >= 0
        && o * (b * b) >= 0) by (nonlinear_arith)
        requires
            0 <= o < a,
            0 <= l < b,
            0 <= r < b,
            1 <= a,
            1 <= b,
    ;
}

/// An all-zero vector of field elements.
fn zero_vec(len: usize) -> (r: Vec<Fp>)
    ensures
        r@.len() == len,
        vals(r@) == zero_seq(len as nat),
        all_in_field(vals(r@)),
{
    let mut out: Vec<Fp> = Vec::new();
    let mut i: usize = 0;
    while i < len
        invariant
            i <= len,
            out@.len() == i,
            forall|t: int| 0 <= t < i ==> vals(out@)[t] == 0,
        decreases len - i,
    {
        let ghost prev = out@;
        let zero_entry = Fp::zero();
        out.push(zero_entry);
        proof {
            assert forall|t: int| 0 <= t < i + 1 implies #[trigger] vals(out@)[t] == 0 by {
                if t < i {
                    assert(out@[t] == prev[t]);
                    assert(vals(prev)[t] == 0);
                } else {
                    assert(out@[t] == zero_entry);
                }
            }
        }
        i = i + 1;
    }
    proof {
        assert(vals(out@) =~= zero_seq(len as nat));
    }
    out
}

impl Layer {
    /// Build the layer's two wiring predicates, `add` and `mul`, as dense
    /// multilinear polynomials over (output bits ‖ left bits ‖ right
    /// bits): 1 exactly at the triples wired by a gate of that kind, 0
    /// everywhere else.  Refuses the layer when a gate addresses outside
    /// the layer's width or the given input width.
    pub fn get_add_i_and_mul_i(&self, input_width: usize) -> (r: Result<
        (MultilinearPoly, MultilinearPoly),
        Error,
    >)
        requires
            pow2(nbits(self@.len()) + 2 * nbits(input_width as nat)) <= usize::MAX as nat,
        ensures
            !layer_ok(self@, input_width as nat) ==> r == Err::<
                (MultilinearPoly, MultilinearPoly),
                Error,
            >(Error::WidthMismatch),
            layer_ok(self@, input_width as nat) ==> (r matches Ok(pair) && {
                let nv = nbits(self@.len()) + 2 * nbits(input_width as nat);
                let ib = nbits(input_width as nat);
                &&& pair.0.num_vars == nv
                &&& pair.1.num_vars == nv
                &&& pair.0.wf()
                &&& pair.1.wf()
                &&& forall|x: int|
                    0 <= x < pow2(nv) ==> pair.0@[x] == if has_gate(self@, Opt::Add, ib, x) {
                        1int
                    } else {
                        0int
                    }
                &&& forall|x: int|
                    0 <= x < pow2(nv) ==> pair.1@[x] == if has_gate(self@, Opt::Mul, ib, x) {
                        1int
                    } else {
                        0int
                    }
            }),
    {
        let width = self.gates.len();
        let out_bits = nbits_exec(width);
        let in_bits = nbits_exec(input_width);
        proof {
            lemma_nbits_small(width as nat);
            lemma_nbits_small(input_width as nat);
        }
        let num_vars = out_bits + 2 * in_bits;
        let num_points = pow2_exact(num_vars);
        proof {
            vstd::arithmetic::power2::lemma_pow2_adds(2 * in_bits as nat, in_bits as nat);
            vstd::arithmetic::power2::lemma_pow2_strictly_increases(
                in_bits as nat,
                num_vars as nat,
            );
            vstd::arithmetic::power2::lemma_pow2_strictly_increases(
                2 * in_bits as nat,
                num_vars as nat,
            );
        }
        let p2_in = pow2_exact(in_bits);
        let p2_in2 = pow2_exact(2 * in_bits);
        let mut add_i = zero_vec(num_points);
        let mut mul_i = zero_vec(num_points);
        let ghost ib = nbits(input_width as nat);
        let mut i: usize = 0;
        while i < self.gates.len()
            invariant
                width == self@.len(),
                ib == nbits(input_width as nat),
                num_vars as nat == nbits(self@.len()) + 2 * ib,
                num_points as nat == pow2(num_vars as nat),
                p2_in as nat == pow2(ib),
                p2_in2 as nat == pow2(2 * ib),
                i <= self@.len(),
                add_i@.len() == num_points,
                mul_i@.len() == num_points,
                forall|t: int| 0 <= t < i ==> gate_ok(#[trigger] self@[t], input_width as nat, width as nat),
                forall|x: int|
                    0 <= x < num_points ==> vals(add_i@)[x] == if has_gate(
                        self@.take(i as int),
                        Opt::Add,
                        ib,
                        x,
                    ) {
                        1int
                    } else {
                        0int
                    },
                forall|x: int|
                    0 <= x < num_points ==> vals(mul_i@)[x] == if has_gate(
                        self@.take(i as int),
                        Opt::Mul,
                        ib,
                        x,
                    ) {
                        1int
                    } else {
                        0int
                    },
            decreases self@.len() - i,
        {
            let g = self.gates[i];
            if g.output >= width || g.left_index >= input_width || g.right_index >= input_width {
                proof {
                    assert(!gate_ok(self@[i as int], input_width as nat, width as nat));
                }
                return Err(Error::WidthMismatch);
            }
            proof {
                lemma_wiring_index_bound(g, input_width as nat, width as nat);
            }
            let index = g.output * p2_in2 + g.left_index * p2_in + g.right_index;
            proof {
                assert(index as int == wiring_index(g, ib));
                assert(index < num_points);
            }
            let one_entry = Fp::one();
            let ghost prev_add = add_i@;
            let ghost prev_mul = mul_i@;
            match g.opt {
                Opt::Add => {
                    add_i[index] = one_entry;
                },
                Opt::Mul => {
                    mul_i[index] = one_entry;
                },
            }
            proof {
                let pre = self@.take(i as int);
                let post = self@.take(i as int + 1);
                assert(post.drop_last() =~= pre);
                assert(post =~= pre.push(self@[i as int]));
                assert(post.last() == self@[i as int]);
                assert(post[i as int] == self@[i as int]);
                assert forall|j: int| 0 <= j < pre.len() implies post[j] == pre[j] by {}
                assert forall|x: int| 0 <= x < num_points implies vals(add_i@)[x] == (if has_gate(
                    post,
                    Opt::Add,
                    ib,
                    x,
                ) {
                    1int
                } else {
                    0int
                }) by {
                    lemma_wiring_update(
                        prev_add,
                        add_i@,
                        pre,
                        post,
                        self@[i as int],
                        Opt::Add,
                        ib,
                        x,
                        index as int,
                        one_entry,
                    );
                }
                assert forall|x: int| 0 <= x < num_points implies vals(mul_i@)[x] == (if has_gate(
                    post,
                    Opt::Mul,
                    ib,
                    x,
                ) {
                    1int
                } else {
                    0int
                }) by {
                    lemma_wiring_update(
                        prev_mul,
                        mul_i@,
                        pre,
                        post,
                        self@[i as int],
                        Opt::Mul,
                        ib,
                        x,
                        index as int,
                        one_entry,
                    );
                }
            }
            i = i + 1;
        }
        proof {
            assert(self@.take(self@.len() as int) =~= self@);
            assert forall|t: int| 0 <= t < vals(add_i@).len() implies in_field(
                #[trigger] vals(add_i@)[t],
            ) by {
                assert(vals(add_i@)[t] == 0 || vals(add_i@)[t] == 1);
            }
            assert forall|t: int| 0 <= t < vals(mul_i@).len() implies in_field(
                #[trigger] vals(mul_i@)[t],
            ) by {
                assert(vals(mul_i@)[t] == 0 || vals(mul_i@)[t] == 1);
            }
        }
        let add_poly = MultilinearPoly { evaluations: add_i, num_vars };
        let mul_poly = MultilinearPoly { evaluations: mul_i, num_vars };
        Ok((add_poly, mul_poly))
    }
}

/// Recording a gate in a wiring vector sets exactly the entry at the
/// wiring index of that gate, and only for the matching kind.
proof fn lemma_wiring_update(
    prev: Seq<Fp>,
    cur: Seq<Fp>,
    pre: Seq<Gate>,
    post: Seq<Gate>,
    g: Gate,
    o: Opt,
    ib: nat,
    x: int,
    gate_index: int,
    one_entry: Fp,
)
    requires
        post == pre.push(g),
        gate_index == wiring_index(g, ib),
        one_entry@ == 1,
        0 <= x < prev.len(),
        0 <= gate_index < prev.len(),
        g.opt == o ==> cur == prev.update(gate_index, one_entry),
        g.opt != o ==> cur == prev,
        vals(prev)[x] == (if has_gate(pre, o, ib, x) {
            1int
        } else {
            0int
        }),
    ensures
        vals(cur)[x] == (if has_gate(post, o, ib, x) {
            1int
        } else {
            0int
        }),
{
    assert(post.len() == pre.len() + 1);
    assert(post[pre.len() as int] == g);
    assert forall|j: int| 0 <= j < pre.len() implies post[j] == pre[j] by {}
    if g.opt == o && x == gate_index {
        assert(cur[x] == one_entry);
        assert(vals(cur)[x] == 1);
        assert(has_gate(post, o, ib, x)) by {
            assert((post[pre.len() as int]).opt == o && wiring_index(
                post[pre.len() as int],
                ib,
            ) == x);
        }
    } else {
        assert(cur[x] == prev[x]);
        assert(vals(cur)[x] == vals(prev)[x]);
        if has_gate(post, o, ib, x) {
            let j = choose|j: int|
                0 <= j < post.len() && (#[trigger] post[j]).opt == o && wiring_index(post[j], ib)
                    == x;
            if j < pre.len() {
                assert(has_gate(pre, o, ib, x));
            } else {
                assert(post[j] == g);
                assert(false);
            }
        }
        if has_gate(pre, o, ib, x) {
            let j = choose|j: int|
                0 <= j < pre.len() && (#[trigger] pre[j]).opt == o && wiring_index(pre[j], ib)
                    == x;
            assert(post[j] == pre[j]);
            assert(has_gate(post, o, ib, x));
        }
    }
}

/// 1 where a condition holds, 0 where it does not: the value a boolean
/// takes under a multilinear extension.
pub open spec fn indicator(b: bool) -> int {
    if b {
        1
    } else {
        0
    }
}

/// One term of the layer identity at output point `z` and combined input
/// point `t = (x ‖ y)`:
/// `add(z,x,y) * (W(x) + W(y)) + mul(z,x,y) * (W(x) * W(y))`,
/// where the wiring indicators are exactly the entries that
/// `get_add_i_and_mul_i` builds and the two combinations exactly the
/// entries of the tensor polynomials.
pub open spec fn layer_rhs_entry(
    gates: Seq<Gate>,
    inputs: Seq<int>,
    ib: nat,
    z: int,
    t: int,
) -> int {
    let b = pow2(ib) as int;
    let idx = z * pow2(2 * ib) + t;
    let x = inputs[t / b];
    let y = inputs[t % b];
    f_add(
        f_mul(indicator(has_gate(gates, Opt::Add, ib, idx)), f_add(x, y)),
        f_mul(indicator(has_gate(gates, Opt::Mul, ib, idx)), f_mul(x, y)),
    )
}

/// All terms of the layer identity at output point `z`, one per combined
/// input point.
pub open spec fn layer_rhs_entries(gates: Seq<Gate>, inputs: Seq<int>, ib: nat, z: int) -> Seq<
    int,
> {
    Seq::new(pow2(2 * ib), |t: int| layer_rhs_entry(gates, inputs, ib, z, t))
}

/// The right-hand side of the layer identity at output point `z`: the sum
/// over all `(x, y)` of the wired combinations of the input values.
pub open spec fn layer_rhs(gates: Seq<Gate>, inputs: Seq<int>, ib: nat, z: int) -> int {
    sum_evals(layer_rhs_entries(gates, inputs, ib, z))
}

/// A wiring index decomposes uniquely into its three digit fields.
proof fn lemma_wiring_digits(o: int, l: int, r: int, b: int)
    requires
        1 <= b,
        0 <= o,
        0 <= l < b,
        0 <= r < b,
    ensures
        (o * (b * b) + (l * b + r)) / (b * b) == o,
        (o * (b * b) + (l * b + r)) % (b * b) == l * b + r,
        (l * b + r) / b == l,
        (l * b + r) % b == r,
{
    assert(0 <= l * b + r < b * b) by (nonlinear_arith)
        requires
            1 <= b,
            0 <= l < b,
            0 <= r < b,
    ;
    lemma_fundamental_div_mod_converse(o * (b * b) + (l * b + r), b * b, o, l * b + r);
    lemma_fundamental_div_mod_converse(l * b + r, b, l, r);
}

/// The induction behind the layer identity, generalized over an
/// arbitrary starting output vector: running the gates raises slot `z`
/// by exactly the wired sum for `z`.
proof fn lemma_apply_gates_identity(
    gates: Seq<Gate>,
    inputs: Seq<int>,
    out0: Seq<int>,
    in_w: nat,
    ib: nat,
    z: int,
)
    requires
        all_in_field(inputs),
        all_in_field(out0),
        inputs.len() == pow2(ib),
        in_w <= pow2(ib),
        forall|i: int| 0 <= i < gates.len() ==> gate_ok(#[trigger] gates[i], in_w, out0.len()),
        forall|i: int, j: int| 0 <= i < j < gates.len() ==> gates[i] != gates[j],
        0 <= z < out0.len(),
    ensures
        apply_gates(gates, inputs, out0)[z] == f_add(out0[z], layer_rhs(gates, inputs, ib, z)),
    decreases gates.len(),
{
    let b = pow2(ib) as int;
    lemma_pow2_pos(ib);
    lemma_pow2_adds(ib, ib);
    assert(pow2(2 * ib) as int == b * b);
    if gates.len() == 0 {
        assert forall|t: int| 0 <= t < layer_rhs_entries(gates, inputs, ib, z).len()
            implies #[trigger] layer_rhs_entries(gates, inputs, ib, z)[t] == 0 by {
            lemma_small_mod(0, MODULUS as nat);
            assert(!has_gate(gates, Opt::Add, ib, z * pow2(2 * ib) + t));
            assert(!has_gate(gates, Opt::Mul, ib, z * pow2(2 * ib) + t));
        }
        lemma_sum_zero(layer_rhs_entries(gates, inputs, ib, z));
        lemma_small_mod(out0[z] as nat, MODULUS as nat);
        assert(in_field(out0[z]));
    } else {
        let pre = gates.drop_last();
        let g = gates.last();
        assert forall|i: int, j: int| 0 <= i < j < pre.len() implies #[trigger] pre[i]
            != #[trigger] pre[j] by {
            assert(pre[i] == gates[i]);
            assert(pre[j] == gates[j]);
        }
        assert forall|i: int| 0 <= i < pre.len() implies gate_ok(
            #[trigger] pre[i],
            in_w,
            out0.len(),
        ) by {
            assert(pre[i] == gates[i]);
        }
        lemma_apply_gates_identity(pre, inputs, out0, in_w, ib, z);
        lemma_apply_gates_len(pre, inputs, out0);
        let prev = apply_gates(pre, inputs, out0);
        assert(gate_ok(g, in_w, out0.len()));
        let go = g.output as int;
        let gl = g.left_index as int;
        let gr = g.right_index as int;
        let tstar = gl * b + gr;
        lemma_wiring_digits(go, gl, gr, b);
        assert(wiring_index(g, ib) == go * (b * b) + (gl * b + gr));
        let old_entries = layer_rhs_entries(pre, inputs, ib, z);
        let new_entries = layer_rhs_entries(gates, inputs, ib, z);
        // Terms away from the last gate's wiring index are unchanged.
        assert forall|t: int|
            0 <= t < b * b && (z != go || t != tstar) implies old_entries[t] == #[trigger]
        new_entries[t] by {
            let idx = z * pow2(2 * ib) + t;
            vstd::arithmetic::div_mod::lemma_div_pos_is_pos(t, b);
            lemma_mod_bound(t, b);
            vstd::arithmetic::div_mod::lemma_multiply_divide_lt(t, b, b);
            lemma_wiring_digits(z, t / b, t % b, b);
            vstd::arithmetic::div_mod::lemma_fundamental_div_mod(t, b);
            assert(b * (t / b) == (t / b) * b) by (nonlinear_arith);
            assert((t / b) * b + t % b == t);
            assert(idx == z * (b * b) + t);
            assert(idx / (b * b) == z && idx % (b * b) == t) by {
                lemma_fundamental_div_mod_converse(idx, b * b, z, t);
            }
            assert(idx != wiring_index(g, ib)) by {
                if idx == wiring_index(g, ib) {
                    assert(z == go && t == tstar);
                }
            }
            assert forall|o: Opt| has_gate(gates, o, ib, idx) == has_gate(pre, o, ib, idx) by {
                if has_gate(gates, o, ib, idx) {
                    let j = choose|j: int|
                        0 <= j < gates.len() && (#[trigger] gates[j]).opt == o && wiring_index(
                            gates[j],
                            ib,
                        ) == idx;
                    if j < pre.len() {
                        assert(pre[j] == gates[j]);
                        assert(has_gate(pre, o, ib, idx));
                    } else {
                        assert(gates[j] == g);
                        assert(false);
                    }
                }
                if has_gate(pre, o, ib, idx) {
                    let j = choose|j: int|
                        0 <= j < pre.len() && (#[trigger] pre[j]).opt == o && wiring_index(
                            pre[j],
                            ib,
                        ) == idx;
                    assert(gates[j] == pre[j]);
                    assert(has_gate(gates, o, ib, idx));
                }
            }
        }
        if z != go {
            assert(old_entries =~= new_entries);
            assert(apply_gates(gates, inputs, out0)[z] == prev[z]);
        } else {
            // At the last gate's wiring index the matching indicator becomes 1.
            let idx = wiring_index(g, ib);
            assert(idx == z * (b * b) + tstar);
            assert(0 <= gl < b);
            assert(0 <= gr < b);
            assert(0 <= gl * b + gr < b * b) by (nonlinear_arith)
                requires
                    1 <= b,
                    0 <= gl < b,
                    0 <= gr < b,
            ;
            assert(0 <= tstar < b * b);
            assert(idx / (b * b) == z && idx % (b * b) == tstar) by {
                lemma_fundamental_div_mod_converse(idx, b * b, z, tstar);
            }
            assert(tstar / b == gl && tstar % b == gr);
            // The matching kind had no earlier gate at this index.
            assert(!has_gate(pre, g.opt, ib, idx)) by {
                if has_gate(pre, g.opt, ib, idx) {
                    let j = choose|j: int|
                        0 <= j < pre.len() && (#[trigger] pre[j]).opt == g.opt && wiring_index(
                            pre[j],
                            ib,
                        ) == idx;
                    assert(gate_ok(gates[j], in_w, out0.len()));
                    lemma_wiring_digits(
                        pre[j].output as int,
                        pre[j].left_index as int,
                        pre[j].right_index as int,
                        b,
                    );
                    assert(pre[j].output as int == go);
                    assert(pre[j].left_index as int * b + pre[j].right_index as int == tstar);
                    assert(pre[j].left_index as int == gl && pre[j].right_index as int == gr);
                    assert(pre[j] == g);
                    assert(gates[j] == gates[gates.len() - 1]);
                    assert(false);
                }
            }
            // A gate of the matching kind now wires this index.
            assert(has_gate(gates, g.opt, ib, idx)) by {
                assert((gates[gates.len() - 1]).opt == g.opt && wiring_index(
                    gates[gates.len() - 1],
                    ib,
                ) == idx);
            }
            // The other kind keeps its indicator.
            let other = if g.opt == Opt::Add {
                Opt::Mul
            } else {
                Opt::Add
            };
            assert(has_gate(gates, other, ib, idx) == has_gate(pre, other, ib, idx)) by {
                if has_gate(gates, other, ib, idx) {
                    let j = choose|j: int|
                        0 <= j < gates.len() && (#[trigger] gates[j]).opt == other
                            && wiring_index(gates[j], ib) == idx;
                    if j < pre.len() {
                        assert(pre[j] == gates[j]);
                    } else {
                        assert(gates[j] == g);
                        assert(false);
                    }
                }
                if has_gate(pre, other, ib, idx) {
                    let j = choose|j: int|
                        0 <= j < pre.len() && (#[trigger] pre[j]).opt == other && wiring_index(
                            pre[j],
                            ib,
                        ) == idx;
                    assert(gates[j] == pre[j]);
                }
            }
            let xv = inputs[gl];
            let yv = inputs[gr];
            let ap = f_add(xv, yv);
            let mp = f_mul(xv, yv);
            lemma_mod_bound(xv + yv, p());
            lemma_mod_bound(xv * yv, p());
            lemma_small_mod(0, MODULUS as nat);
            lemma_small_mod(ap as nat, MODULUS as nat);
            lemma_small_mod(mp as nat, MODULUS as nat);
            vstd::arithmetic::mul::lemma_mul_basics(ap);
            vstd::arithmetic::mul::lemma_mul_basics(mp);
            assert(f_mul(0, ap) == 0);
            assert(f_mul(1, ap) == ap);
            assert(f_mul(0, mp) == 0);
            assert(f_mul(1, mp) == mp);
            let gv = gate_value(g, inputs);
            assert(new_entries[tstar] == f_add(old_entries[tstar], gv)) by {
                let m_ind = indicator(has_gate(pre, Opt::Mul, ib, idx));
                let a_ind = indicator(has_gate(pre, Opt::Add, ib, idx));
                if g.opt == Opt::Add {
                    let x_term = f_mul(m_ind, mp);
                    lemma_mod_bound(m_ind * mp, p());
                    lemma_small_mod(x_term as nat, MODULUS as nat);
                    assert(old_entries[tstar] == f_add(0, x_term));
                    assert(f_add(0, x_term) == x_term);
                    assert(new_entries[tstar] == f_add(ap, x_term));
                    assert(f_add(x_term, ap) == f_add(ap, x_term));
                } else {
                    let x_term = f_mul(a_ind, ap);
                    lemma_mod_bound(a_ind * ap, p());
                    lemma_small_mod(x_term as nat, MODULUS as nat);
                    assert(old_entries[tstar] == f_add(x_term, 0));
                    assert(f_add(x_term, 0) == x_term);
                    assert(new_entries[tstar] == f_add(x_term, mp));
                    assert(f_add(x_term, mp) == f_add(mp, x_term));
                    assert(f_add(x_term, mp) == f_add(x_term, gv));
                }
            }
            lemma_sum_add_at(old_entries, new_entries, tstar, gv);
            assert(apply_gates(gates, inputs, out0)[z] == f_add(prev[z], gv));
            lemma_f_add_assoc(out0[z], layer_rhs(pre, inputs, ib, z), gv);
        }
    }
}

/// The dense wiring vector of one gate kind: the evaluation vector that
/// `get_add_i_and_mul_i` builds for it.
pub open spec fn wiring_vec(gates: Seq<Gate>, o: Opt, ib: nat, ob: nat) -> Seq<int> {
    Seq::new(pow2(ob + 2 * ib), |x: int| indicator(has_gate(gates, o, ib, x)))
}

/// The layer identity at a boolean output point: for a layer whose gates
/// are pairwise distinct, the value the layer computes in slot `z` is the
/// sum, over all pairs `(x, y)` of input points, of
/// `add(z,x,y) * (W(x) + W(y)) + mul(z,x,y) * (W(x) * W(y))`,
/// where `W` is the input vector (padded with zeros to `2^ib` entries)
/// and `add`/`mul` are the wiring indicators of `get_add_i_and_mul_i`.
pub proof fn lemma_layer_identity(gates: Seq<Gate>, inputs: Seq<int>, in_w: nat, ib: nat, z: int)
    requires
        all_in_field(inputs),
        inputs.len() == pow2(ib),
        in_w <= pow2(ib),
        layer_ok(gates, in_w),
        forall|i: int, j: int| 0 <= i < j < gates.len() ==> gates[i] != gates[j],
        0 <= z < gates.len(),
    ensures
        layer_eval(gates, inputs)[z] == layer_rhs(gates, inputs, ib, z),
{
    assert forall|t: int| 0 <= t < zero_seq(gates.len()).len() implies in_field(
        #[trigger] zero_seq(gates.len())[t],
    ) by {}
    lemma_apply_gates_identity(gates, inputs, zero_seq(gates.len()), in_w, ib, z);
    lemma_sum_in_field(layer_rhs_entries(gates, inputs, ib, z));
    lemma_small_mod(layer_rhs(gates, inputs, ib, z) as nat, MODULUS as nat);
}

} // verus!
