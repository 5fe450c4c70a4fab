//! Layered arithmetic circuits of addition and multiplication gates.
//!
//! Gate `g` of a layer reads wires `2g` and `2g + 1` of the layer below, so
//! every layer is half as wide as the one below it and the top layer is a
//! single gate.

use crate::field::{field_add, field_mul, Fe};
use crate::multilinear::MultilinearPoly;
use vstd::arithmetic::power2::{lemma_pow2_unfold, pow2};
use vstd::prelude::*;
use vstd::slice::slice_to_vec;

verus! {

/// The operation of a gate.
#[derive(Clone, Copy, Debug, PartialEq, Eq, Structural)]
pub enum Operation {
    Add,
    Mul,
}

/// What a gate of operation `op` gives on the inputs `a` and `b`.
pub open spec fn apply_op(op: Operation, a: nat, b: nat) -> nat {
    match op {
        Operation::Add => field_add(a, b),
        Operation::Mul => field_mul(a, b),
    }
}

impl Operation {
    /// The output of a gate with this operation.
    pub fn apply(&self, a: Fe, b: Fe) -> (out: Fe)
        ensures
            out@ == apply_op(*self, a@, b@),
    {
        match self {
            Operation::Add => a.add(b),
            Operation::Mul => a.mul(b),
        }
    }
}

/// The values of a layer of gates, given the values of the layer below.
pub open spec fn layer_values(gates: Seq<Operation>, below: Seq<nat>) -> Seq<nat> {
    Seq::new(gates.len(), |g: int| apply_op(gates[g], below[2 * g], below[2 * g + 1]))
}

/// The values of every layer, from the inputs at index 0 up to the output.
/// The layers are given from the one just above the inputs up to the output.
pub open spec fn circuit_values(layers: Seq<Seq<Operation>>, inputs: Seq<nat>) -> Seq<Seq<nat>>
    decreases layers.len(),
{
    if layers.len() == 0 {
        seq![inputs]
    } else {
        let below = circuit_values(layers.drop_last(), inputs);
        below.push(layer_values(layers.last(), below.last()))
    }
}

/// The values of a circuit hold the inputs first and then, for each layer,
/// one value for each of its gates.
pub proof fn lemma_circuit_values(layers: Seq<Seq<Operation>>, inputs: Seq<nat>)
    ensures
        circuit_values(layers, inputs).len() == layers.len() + 1,
        circuit_values(layers, inputs)[0] == inputs,
        forall|i: int|
            1 <= i <= layers.len() ==> (#[trigger] circuit_values(layers, inputs)[i]).len()
                == layers[i - 1].len(),
    decreases layers.len(),
{
    if layers.len() > 0 {
        lemma_circuit_values(layers.drop_last(), inputs);
        let below = circuit_values(layers.drop_last(), inputs);
        let all = circuit_values(layers, inputs);
        assert forall|i: int| 1 <= i <= layers.len() implies (#[trigger] all[i]).len() == layers[i
            - 1].len() by {
            if i < layers.len() {
                assert(all[i] == below[i]);
                assert(layers.drop_last()[i - 1] == layers[i - 1]);
            }
        }
    }
}

/// The values of each layer are those of its gates on the values below.
pub proof fn lemma_circuit_values_step(layers: Seq<Seq<Operation>>, inputs: Seq<nat>, i: int)
    requires
        0 <= i < layers.len(),
    ensures
        circuit_values(layers, inputs)[i + 1] == layer_values(
            layers[i],
            circuit_values(layers, inputs)[i],
        ),
    decreases layers.len(),
{
    lemma_circuit_values(layers.drop_last(), inputs);
    let below = circuit_values(layers.drop_last(), inputs);
    if i < layers.len() - 1 {
        lemma_circuit_values_step(layers.drop_last(), inputs, i);
        assert(layers.drop_last()[i] == layers[i]);
    } else {
        assert(below.last() == below[i]);
    }
}

/// The number of selector values that the wiring predicate of a layer of
/// `width` gates has: one for each gate, and two for a single gate, whose
/// output is padded to two values.
pub open spec fn selector_count(width: nat) -> nat {
    if width < 2 {
        2
    } else {
        width
    }
}

/// The length of the wiring predicate of a layer of `width` gates:
/// one entry for each triple of a gate and two wires of the layer below.
pub open spec fn wiring_len(width: nat) -> nat {
    selector_count(width) * ((2 * width) * (2 * width))
}

/// The wiring predicate of a layer with a gate has an even number of entries,
/// at least one for each pair of wires of the layer below.
pub proof fn lemma_wiring_len(width: nat)
    requires
        width >= 1,
    ensures
        wiring_len(width) % 2 == 0,
        wiring_len(width) >= (2 * width) * (2 * width),
        (2 * width) * (2 * width) >= 4,
{
    let s = selector_count(width);
    let q = s * (width * (2 * width));
    assert(wiring_len(width) == 2 * q) by (nonlinear_arith)
        requires
            wiring_len(width) == s * ((2 * width) * (2 * width)),
            q == s * (width * (2 * width)),
    ;
    assert(s * ((2 * width) * (2 * width)) >= (2 * width) * (2 * width) && (2 * width) * (2
        * width) >= 4) by (nonlinear_arith)
        requires
            s >= 1,
            width >= 1,
    ;
}

/// Entry `i` of the wiring predicate for `op`. With `n` wires in the layer
/// below, `i` stands for the triple `(a, b, c)` with `i = a * n * n + b * n + c`;
/// the entry is 1 where gate `a` has operation `op` and reads the wires `b` and
/// `c`, which are `2a` and `2a + 1`, and 0 elsewhere.
pub open spec fn wiring_entry(gates: Seq<Operation>, op: Operation, i: int) -> nat {
    let n = 2 * gates.len() as int;
    let a = i / (n * n);
    let b = (i / n) % n;
    let c = i % n;
    if a < gates.len() && gates[a] == op && b == 2 * a && c == 2 * a + 1 {
        1
    } else {
        0
    }
}

/// The wiring predicate of a layer for `op`, as a table of values.
pub open spec fn wiring_table(gates: Seq<Operation>, op: Operation) -> Seq<nat> {
    Seq::new(wiring_len(gates.len()), |i: int| wiring_entry(gates, op, i))
}

/// The gates of one depth of a circuit.
#[derive(Clone, Debug, PartialEq, Eq)]
pub struct Layer {
    pub gates: Vec<Operation>,
}

impl View for Layer {
    type V = Seq<Operation>;

    open spec fn view(&self) -> Seq<Operation> {
        self.gates@
    }
}

impl DeepView for Layer {
    type V = Seq<Operation>;

    open spec fn deep_view(&self) -> Seq<Operation> {
        self.gates@
    }
}

impl Layer {
    /// The layer with the given gates.
    pub fn new(gates: Vec<Operation>) -> (layer: Layer)
        ensures
            layer@ == gates@,
    {
        Layer { gates }
    }

    /// The number of entries of the wiring predicates of the layer.
    pub fn wiring_len(&self) -> (len: usize)
        requires
            wiring_len(self@.len()) <= usize::MAX,
        ensures
            len == wiring_len(self@.len()),
    {
        let width = self.gates.len();
        if width == 0 {
            proof {
                assert(wiring_len(0) == 0) by (nonlinear_arith);
            }
            return 0;
        }
        let selectors = if width < 2 {
            2
        } else {
            width
        };
        proof {
            let w = width as int;
            let s = selectors as int;
            assert(2 * w <= (2 * w) * (2 * w) && (2 * w) * (2 * w) <= s * ((2 * w) * (2 * w)))
                by (nonlinear_arith)
                requires
                    w >= 1,
                    s >= 1,
            ;
        }
        let n = 2 * width;
        selectors * (n * n)
    }

    /// The wiring predicate of the layer for `op`, as a multilinear polynomial.
    pub fn get_add_mul_i(&self, op: Operation) -> (poly: MultilinearPoly)
        requires
            wiring_len(self@.len()) <= usize::MAX,
        ensures
            poly@ == wiring_table(self@, op),
            poly.evaluation.len() == wiring_len(self@.len()),
    {
        let width = self.gates.len();
        let mut table: Vec<Fe> = Vec::new();
        if width == 0 {
            proof {
                assert(wiring_len(0) == 0) by (nonlinear_arith);
                assert(table.deep_view() =~= wiring_table(self@, op));
            }
            return MultilinearPoly { evaluation: table };
        }
        let selectors = if width < 2 {
            2
        } else {
            width
        };
        proof {
            let w = width as int;
            let s = selectors as int;
            assert(2 * w <= (2 * w) * (2 * w) && (2 * w) * (2 * w) <= s * ((2 * w) * (2 * w))
                && 0 < (2 * w) * (2 * w)) by (nonlinear_arith)
                requires
                    w >= 1,
                    s >= 1,
            ;
        }
        let n = 2 * width;
        let square = n * n;
        let len = selectors * square;
        let mut i: usize = 0;
        while i < len
            invariant
                i <= len,
                len == wiring_len(width as nat),
                width == self.gates.len(),
                width >= 1,
                n == 2 * width,
                square == n * n,
                square > 0,
                table.len() == i,
                forall|k: int| 0 <= k < i ==> (#[trigger] table@[k])@ == wiring_entry(self@, op, k),
            decreases len - i,
        {
            let a = i / square;
            let b = (i / n) % n;
            let c = i % n;
            let entry = if a < width && self.gates[a] == op && b == 2 * a && c == 2 * a + 1 {
                Fe::one()
            } else {
                Fe::zero()
            };
            table.push(entry);
            i = i + 1;
        }
        proof {
            assert(table.deep_view() =~= wiring_table(self@, op));
        }
        MultilinearPoly { evaluation: table }
    }
}

/// Whether the wiring predicate of a layer of `width` gates can be held in
/// memory.
fn wiring_fits(width: usize) -> (fits: bool)
    requires
        width >= 1,
    ensures
        fits == (wiring_len(width as nat) <= usize::MAX),
{
    let selectors: usize = if width < 2 {
        2
    } else {
        width
    };
    proof {
        lemma_wiring_len(width as nat);
        let w = width as int;
        assert(2 * w <= (2 * w) * (2 * w)) by (nonlinear_arith)
            requires
                w >= 1,
        ;
    }
    match width.checked_mul(2) {
        None => false,
        Some(n) => match n.checked_mul(n) {
            None => false,
            Some(square) => match selectors.checked_mul(square) {
                None => false,
                Some(_) => true,
            },
        },
    }
}

/// A layered circuit. `layers[0]` is the layer just above the inputs, the last
/// layer is the output gate.
#[derive(Clone, Debug, PartialEq, Eq)]
pub struct Circuit {
    pub layers: Vec<Layer>,
}

impl View for Circuit {
    type V = Seq<Seq<Operation>>;

    /// The gates, layer by layer from the one just above the inputs.
    open spec fn view(&self) -> Seq<Seq<Operation>> {
        self.layers.deep_view()
    }
}

/// The layers halve in width from each one to the next, down to a single
/// output gate: the layer at depth `d` below the output has `2^d` gates.
pub open spec fn layered(layers: Seq<Seq<Operation>>) -> bool {
    &&& layers.len() >= 1
    &&& forall|j: int|
        0 <= j < layers.len() ==> (#[trigger] layers[j]).len() == pow2(
            (layers.len() - 1 - j) as nat,
        )
}

/// The circuit is layered, and the wiring predicate of each layer can be held
/// in memory.
pub open spec fn well_formed(layers: Seq<Seq<Operation>>) -> bool {
    &&& layered(layers)
    &&& forall|j: int|
        0 <= j < layers.len() ==> wiring_len((#[trigger] layers[j]).len()) <= usize::MAX
}

impl Circuit {
    /// The circuit with the given gates, layer by layer from the one just
    /// above the inputs up to the output.
    pub fn new(structure: Vec<Vec<Operation>>) -> (circuit: Circuit)
        ensures
            circuit@ == Seq::new(structure@.len(), |j: int| structure@[j]@),
    {
        let mut layers: Vec<Layer> = Vec::new();
        let mut j: usize = 0;
        while j < structure.len()
            invariant
                j <= structure.len(),
                layers.len() == j,
                forall|k: int| 0 <= k < j ==> (#[trigger] layers@[k])@ == structure@[k]@,
            decreases structure.len() - j,
        {
            let row = &structure[j];
            let mut gates: Vec<Operation> = Vec::new();
            let mut g: usize = 0;
            while g < row.len()
                invariant
                    g <= row.len(),
                    gates@ == row@.take(g as int),
                decreases row.len() - g,
            {
                gates.push(row[g]);
                g = g + 1;
                proof {
                    assert(row@.take(g as int) =~= row@.take(g - 1).push(row@[g - 1]));
                }
            }
            proof {
                assert(row@.take(g as int) =~= row@);
            }
            layers.push(Layer { gates });
            j = j + 1;
        }
        proof {
            assert(layers.deep_view() =~= Seq::new(structure@.len(), |j: int| structure@[j]@));
        }
        Circuit { layers }
    }

    /// Whether the circuit is well formed.
    pub fn is_well_formed(&self) -> (ok: bool)
        ensures
            ok == well_formed(self@),
    {
        let depth = self.layers.len();
        if depth == 0 {
            return false;
        }
        let mut expected: usize = 1;
        let mut j: usize = depth;
        proof {
            assert(pow2(0) == 1) by {
                vstd::arithmetic::power2::lemma2_to64();
            }
        }
        while j > 0
            invariant
                j <= depth,
                depth == self.layers.len(),
                expected >= 1,
                j > 0 ==> expected == pow2((depth - j) as nat),
                forall|k: int|
                    j <= k < depth ==> (#[trigger] self@[k]).len() == pow2((depth - 1 - k) as nat)
                        && wiring_len(self@[k].len()) <= usize::MAX,
            decreases j,
        {
            j = j - 1;
            proof {
                assert(self@[j as int] == self.layers@[j as int].gates@);
            }
            if self.layers[j].gates.len() != expected || !wiring_fits(expected) {
                proof {
                    if well_formed(self@) {
                        assert(self@[j as int].len() == pow2((depth - 1 - j) as nat));
                    }
                }
                return false;
            }
            if j > 0 {
                proof {
                    lemma_wiring_len(expected as nat);
                    lemma_pow2_unfold((depth - j) as nat);
                    assert(2 * expected <= (2 * expected) * (2 * expected)) by (nonlinear_arith)
                        requires
                            expected >= 1,
                    ;
                }
                expected = 2 * expected;
            }
        }
        true
    }

    /// The values of all layers on `inputs`: index 0 holds the inputs, the
    /// last index the output.
    pub fn evaluate(&self, inputs: &[Fe]) -> (values: Vec<Vec<Fe>>)
        requires
            layered(self@),
            inputs.len() == 2 * self@[0].len(),
        ensures
            values.deep_view() == circuit_values(self@, inputs.deep_view()),
            values.len() == self.layers.len() + 1,
            values@[0].len() == inputs.len(),
            forall|i: int|
                1 <= i <= self.layers.len() ==> (#[trigger] values@[i]).len() == self@[i - 1].len(),
    {
        let mut values: Vec<Vec<Fe>> = Vec::new();
        values.push(slice_to_vec(inputs));
        proof {
            assert(self@.take(0) =~= Seq::<Seq<Operation>>::empty());
            assert(values@[0].deep_view() =~= inputs.deep_view());
            assert(values.deep_view() =~= seq![inputs.deep_view()]);
        }
        let mut j: usize = 0;
        while j < self.layers.len()
            invariant
                j <= self.layers.len(),
                layered(self@),
                inputs.len() == 2 * self@[0].len(),
                values.len() == j + 1,
                values@[j as int].len() == (if j == 0 {
                    inputs.len() as int
                } else {
                    self@[j - 1].len() as int
                }),
                values.deep_view() == circuit_values(self@.take(j as int), inputs.deep_view()),
            decreases self.layers.len() - j,
        {
            let gates = &self.layers[j].gates;
            proof {
                assert(self@[j as int] == gates@);
                if j > 0 {
                    assert(self@[j - 1].len() == pow2((self@.len() - j) as nat));
                    lemma_pow2_unfold((self@.len() - j) as nat);
                }
                assert(values@[j as int].len() == 2 * gates.len());
            }
            let mut out: Vec<Fe> = Vec::new();
            let mut g: usize = 0;
            while g < gates.len()
                invariant
                    g <= gates.len(),
                    j < values.len(),
                    values@[j as int].len() == 2 * gates.len(),
                    out.len() == g,
                    forall|k: int|
                        0 <= k < g ==> (#[trigger] out@[k])@ == apply_op(
                            gates@[k],
                            values@[j as int]@[2 * k]@,
                            values@[j as int]@[2 * k + 1]@,
                        ),
                decreases gates.len() - g,
            {
                let below = &values[j];
                out.push(gates[g].apply(below[2 * g], below[2 * g + 1]));
                g = g + 1;
            }
            proof {
                let before = values.deep_view();
                let done = self@.take(j + 1);
                assert(done.drop_last() =~= self@.take(j as int));
                assert(done.last() == gates@);
                assert(before.last() == values@[j as int].deep_view());
                assert(out.deep_view() =~= layer_values(gates@, before.last()));
            }
            let ghost before = values.deep_view();
            values.push(out);
            proof {
                assert(values.deep_view() =~= before.push(values@[j + 1].deep_view()));
            }
            j = j + 1;
        }
        proof {
            assert(self@.take(j as int) =~= self@);
            lemma_circuit_values(self@, inputs.deep_view());
            assert forall|i: int| 1 <= i <= self.layers.len() implies (#[trigger] values@[i]).len()
                == self@[i - 1].len() by {
                assert(values.deep_view()[i] == values@[i].deep_view());
            }
            assert(values.deep_view()[0] == values@[0].deep_view());
        }
        values
    }

}

} // verus!
