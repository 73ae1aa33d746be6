//! Witness calculation: binds declared input wires from named values, then
//! executes every gate in list order to populate every wire, and reads the
//! output wire. All arithmetic wraps around on overflow.

use crate::circuit::Circuit;
use crate::circuit::CircuitView;
use crate::circuit::Gate;
use crate::circuit::Wire;
use vstd::prelude::*;

verus! {

/// Named integer values for the two input kinds. `None` means the kind was
/// not supplied at all, which is distinct from supplied-but-empty.
#[derive(Debug)]
pub struct InputFile {
    pub public: Option<Vec<(String, i32)>>,
    pub private: Option<Vec<(String, i32)>>,
}

/// Why a witness calculation stopped. The input errors are a caller's data
/// problem; a missing wire value signals an ill-formed circuit.
#[derive(Debug)]
pub enum WitnessError {
    MissingPublicInput(String),
    MissingPrivateInput(String),
    MissingWireValue(Wire),
    NoPublicInputsProvided,
    NoPrivateInputsProvided,
}

/// The identity-level image of a witness error.
pub enum WitnessErrorView {
    MissingPublicInput(Seq<char>),
    MissingPrivateInput(Seq<char>),
    MissingWireValue(nat),
    NoPublicInputsProvided,
    NoPrivateInputsProvided,
}

impl View for WitnessError {
    type V = WitnessErrorView;

    open spec fn view(&self) -> WitnessErrorView {
        match self {
            WitnessError::MissingPublicInput(n) => WitnessErrorView::MissingPublicInput(n@),
            WitnessError::MissingPrivateInput(n) => WitnessErrorView::MissingPrivateInput(n@),
            WitnessError::MissingWireValue(w) => WitnessErrorView::MissingWireValue(w.id as nat),
            WitnessError::NoPublicInputsProvided => WitnessErrorView::NoPublicInputsProvided,
            WitnessError::NoPrivateInputsProvided => WitnessErrorView::NoPrivateInputsProvided,
        }
    }
}

// ---------------------------------------------------------------------------
// The calculation model.
// ---------------------------------------------------------------------------

/// The value supplied for a name; a later entry for the same name wins.
pub open spec fn find_named(vals: Seq<(String, i32)>, name: Seq<char>) -> Option<i32>
    decreases vals.len(),
{
    if vals.len() == 0 {
        None
    } else if vals.last().0@ == name {
        Some(vals.last().1)
    } else {
        find_named(vals.drop_last(), name)
    }
}

/// The wire assignment as a mathematical map; a later write wins.
pub open spec fn wvmap(s: Seq<(Wire, i32)>) -> Map<nat, i32>
    decreases s.len(),
{
    if s.len() == 0 {
        Map::empty()
    } else {
        wvmap(s.drop_last()).insert(s.last().0.id as nat, s.last().1)
    }
}

/// Binds the declared input wires of one kind, in declaration order, from
/// the supplied named values; stops at the first declared name with no value.
pub open spec fn bind_inputs(
    decls: Seq<(Seq<char>, Wire)>,
    vals: Seq<(String, i32)>,
    m: Map<nat, i32>,
) -> (Map<nat, i32>, Option<Seq<char>>)
    decreases decls.len(),
{
    if decls.len() == 0 {
        (m, None)
    } else {
        match find_named(vals, decls[0].0) {
            Some(v) => bind_inputs(decls.drop_first(), vals, m.insert(decls[0].1.id as nat, v)),
            None => (m, Some(decls[0].0)),
        }
    }
}

/// The input-binding phase: public values first, then private values. A kind
/// that is declared but not supplied at all fails as such; a supplied kind
/// missing one declared name fails with that name.
pub open spec fn set_inputs_model(c: CircuitView, inputs: InputFile, m0: Map<nat, i32>) -> (
    Map<nat, i32>,
    Option<WitnessErrorView>,
) {
    match inputs.public {
        Some(public_vals) => {
            let p = bind_inputs(c.public_inputs, public_vals@, m0);
            match p.1 {
                Some(n) => (p.0, Some(WitnessErrorView::MissingPublicInput(n))),
                None => set_private_model(c, inputs, p.0),
            }
        },
        None => {
            if c.public_inputs.len() > 0 {
                (m0, Some(WitnessErrorView::NoPublicInputsProvided))
            } else {
                set_private_model(c, inputs, m0)
            }
        },
    }
}

/// The private half of the input-binding phase.
pub open spec fn set_private_model(c: CircuitView, inputs: InputFile, m: Map<nat, i32>) -> (
    Map<nat, i32>,
    Option<WitnessErrorView>,
) {
    match inputs.private {
        Some(private_vals) => {
            let p = bind_inputs(c.private_inputs, private_vals@, m);
            match p.1 {
                Some(n) => (p.0, Some(WitnessErrorView::MissingPrivateInput(n))),
                None => (p.0, None),
            }
        },
        None => {
            if c.private_inputs.len() > 0 {
                (m, Some(WitnessErrorView::NoPrivateInputsProvided))
            } else {
                (m, None)
            }
        },
    }
}

/// One gate's execution: a constant writes unconditionally; a sum or product
/// reads both operand wires and writes the wrapping result; an assertion
/// writes the wrapping difference `left - right` to its own output wire and
/// does not itself check it for zero.
pub open spec fn exec_gate_model(m: Map<nat, i32>, g: Gate) -> Result<
    Map<nat, i32>,
    WitnessErrorView,
> {
    match g {
        Gate::Const { output, value } => Ok(m.insert(output.id as nat, value)),
        Gate::Add { output, left, right } => {
            if !m.dom().contains(left.id as nat) {
                Err(WitnessErrorView::MissingWireValue(left.id as nat))
            } else if !m.dom().contains(right.id as nat) {
                Err(WitnessErrorView::MissingWireValue(right.id as nat))
            } else {
                Ok(
                    m.insert(
                        output.id as nat,
                        m[left.id as nat].wrapping_add(m[right.id as nat]),
                    ),
                )
            }
        },
        Gate::Mul { output, left, right } => {
            if !m.dom().contains(left.id as nat) {
                Err(WitnessErrorView::MissingWireValue(left.id as nat))
            } else if !m.dom().contains(right.id as nat) {
                Err(WitnessErrorView::MissingWireValue(right.id as nat))
            } else {
                Ok(
                    m.insert(
                        output.id as nat,
                        m[left.id as nat].wrapping_mul(m[right.id as nat]),
                    ),
                )
            }
        },
        Gate::Assert { output, left, right } => {
            if !m.dom().contains(left.id as nat) {
                Err(WitnessErrorView::MissingWireValue(left.id as nat))
            } else if !m.dom().contains(right.id as nat) {
                Err(WitnessErrorView::MissingWireValue(right.id as nat))
            } else {
                Ok(
                    m.insert(
                        output.id as nat,
                        m[left.id as nat].wrapping_sub(m[right.id as nat]),
                    ),
                )
            }
        },
    }
}

/// Executes gates in list order, stopping at the first failure.
pub open spec fn run_gates_model(m: Map<nat, i32>, gates: Seq<Gate>) -> (
    Map<nat, i32>,
    Option<WitnessErrorView>,
)
    decreases gates.len(),
{
    if gates.len() == 0 {
        (m, None)
    } else {
        match exec_gate_model(m, gates[0]) {
            Ok(m2) => run_gates_model(m2, gates.drop_first()),
            Err(e) => (m, Some(e)),
        }
    }
}

/// The whole calculation: bind inputs, run every gate, read the output wire.
pub open spec fn calc_model(c: CircuitView, inputs: InputFile, m0: Map<nat, i32>) -> (
    Map<nat, i32>,
    Result<i32, WitnessErrorView>,
) {
    let s = set_inputs_model(c, inputs, m0);
    match s.1 {
        Some(e) => (s.0, Err(e)),
        None => {
            let r = run_gates_model(s.0, c.gates);
            match r.1 {
                Some(e) => (r.0, Err(e)),
                None => {
                    if r.0.dom().contains(c.output_wire.id as nat) {
                        (r.0, Ok(r.0[c.output_wire.id as nat]))
                    } else {
                        (
                            r.0,
                            Err(WitnessErrorView::MissingWireValue(c.output_wire.id as nat)),
                        )
                    }
                },
            }
        },
    }
}

/// Whether an executable result carries the image of a model result.
pub open spec fn result_matches(
    r: Result<i32, WitnessError>,
    m: Result<i32, WitnessErrorView>,
) -> bool {
    match (r, m) {
        (Ok(v), Ok(w)) => v == w,
        (Err(e), Err(w)) => e@ == w,
        _ => false,
    }
}

// ---------------------------------------------------------------------------
// The executable calculator.
// ---------------------------------------------------------------------------

/// Looks a name up in the supplied values; the last entry for a name wins.
fn find_value(vals: &Vec<(String, i32)>, name: &String) -> (r: Option<i32>)
    ensures
        r == find_named(vals@, name@),
{
    let mut j = vals.len();
    proof {
        assert(vals@.take(j as int) =~= vals@);
    }
    while j > 0
        invariant
            j <= vals.len(),
            find_named(vals@, name@) == find_named(vals@.take(j as int), name@),
        decreases j,
    {
        j = j - 1;
        proof {
            assert(vals@.take(j + 1).drop_last() =~= vals@.take(j as int));
            assert(vals@.take(j + 1).last() == vals@[j as int]);
        }
        if vals[j].0 == *name {
            return Some(vals[j].1);
        }
    }
    proof {
        assert(vals@.take(0) =~= Seq::<(String, i32)>::empty());
    }
    None
}

/// Executes a circuit against concrete inputs and retains the full wire
/// assignment for serialization.
pub struct WitnessCalculator {
    wire_values: Vec<(Wire, i32)>,
}

impl WitnessCalculator {
    /// The wire assignment built so far.
    pub closed spec fn model(&self) -> Map<nat, i32> {
        wvmap(self.wire_values@)
    }

    pub fn new() -> (r: WitnessCalculator)
        ensures
            r.model() == Map::<nat, i32>::empty(),
    {
        let r = WitnessCalculator { wire_values: Vec::new() };
        proof {
            assert(r.model() =~= Map::<nat, i32>::empty());
        }
        r
    }

    /// The value of a wire, if it has been written.
    fn get_wire_value(&self, wire: &Wire) -> (r: Option<i32>)
        ensures
            r == if self.model().dom().contains(wire.id as nat) {
                Some(self.model()[wire.id as nat])
            } else {
                Option::<i32>::None
            },
    {
        let mut j = self.wire_values.len();
        proof {
            assert(self.wire_values@.take(j as int) =~= self.wire_values@);
        }
        while j > 0
            invariant
                j <= self.wire_values.len(),
                ({
                    let whole = wvmap(self.wire_values@);
                    let part = wvmap(self.wire_values@.take(j as int));
                    &&& whole.dom().contains(wire.id as nat) == part.dom().contains(
                        wire.id as nat,
                    )
                    &&& whole.dom().contains(wire.id as nat) ==> whole[wire.id as nat]
                        == part[wire.id as nat]
                }),
            decreases j,
        {
            j = j - 1;
            proof {
                assert(self.wire_values@.take(j + 1).drop_last() =~= self.wire_values@.take(
                    j as int,
                ));
                assert(self.wire_values@.take(j + 1).last() == self.wire_values@[j as int]);
            }
            if self.wire_values[j].0 == *wire {
                return Some(self.wire_values[j].1);
            }
        }
        proof {
            assert(self.wire_values@.take(0) =~= Seq::<(Wire, i32)>::empty());
        }
        None
    }

    /// Writes a wire's value; a later write wins.
    fn set_wire_value(&mut self, wire: Wire, value: i32)
        ensures
            final(self).model() == old(self).model().insert(wire.id as nat, value),
    {
        self.wire_values.push((wire, value));
        proof {
            assert(self.wire_values@.drop_last() =~= old(self).wire_values@);
        }
    }

    /// Binds the declared input wires from the supplied named values.
    fn set_inputs(&mut self, circuit: &Circuit, inputs: InputFile) -> (r: Result<
        (),
        WitnessError,
    >)
        ensures
            ({
                let s = set_inputs_model(circuit@, inputs, old(self).model());
                &&& final(self).model() == s.0
                &&& match (r, s.1) {
                    (Ok(()), None) => true,
                    (Err(e), Some(w)) => e@ == w,
                    _ => false,
                }
            }),
    {
        let ghost cv = circuit@;
        let ghost m0 = self.model();
        proof {
            assert(cv.public_inputs.skip(0) =~= cv.public_inputs);
        }
        match inputs.public {
            Some(public_vals) => {
                let npub = circuit.public_inputs.len();
                for i in 0..npub
                    invariant
                        npub == circuit.public_inputs.len(),
                        circuit@ == cv,
                        m0 == old(self).model(),
                        inputs.public matches Some(pv) && pv@ == public_vals@,
                        bind_inputs(cv.public_inputs, public_vals@, m0) == bind_inputs(
                            cv.public_inputs.skip(i as int),
                            public_vals@,
                            self.model(),
                        ),
                {
                    proof {
                        assert(cv.public_inputs.skip(i as int)[0] == cv.public_inputs[i as int]);
                        assert(cv.public_inputs.skip(i as int).drop_first()
                            =~= cv.public_inputs.skip(i + 1));
                    }
                    let name = &circuit.public_inputs[i].0;
                    match find_value(&public_vals, name) {
                        Some(value) => {
                            self.set_wire_value(circuit.public_inputs[i].1, value);
                        },
                        None => {
                            proof {
                                assert(name@ == cv.public_inputs[i as int].0);
                                assert(bind_inputs(
                                    cv.public_inputs.skip(i as int),
                                    public_vals@,
                                    self.model(),
                                ) == (self.model(), Some(name@)));
                            }
                            return Err(WitnessError::MissingPublicInput(name.clone()));
                        },
                    }
                }
                proof {
                    assert(cv.public_inputs.skip(npub as int) =~= Seq::<
                        (Seq<char>, Wire),
                    >::empty());
                }
            },
            None => {
                if circuit.public_inputs.len() > 0 {
                    return Err(WitnessError::NoPublicInputsProvided);
                }
            },
        }
        let ghost m1 = self.model();
        proof {
            assert(cv.private_inputs.skip(0) =~= cv.private_inputs);
        }
        match inputs.private {
            Some(private_vals) => {
                let npriv = circuit.private_inputs.len();
                for i in 0..npriv
                    invariant
                        npriv == circuit.private_inputs.len(),
                        circuit@ == cv,
                        inputs.private matches Some(pv) && pv@ == private_vals@,
                        set_inputs_model(cv, inputs, old(self).model()) == set_private_model(
                            cv,
                            inputs,
                            m1,
                        ),
                        bind_inputs(cv.private_inputs, private_vals@, m1) == bind_inputs(
                            cv.private_inputs.skip(i as int),
                            private_vals@,
                            self.model(),
                        ),
                {
                    proof {
                        assert(cv.private_inputs.skip(i as int)[0] == cv.private_inputs[i as int]);
                        assert(cv.private_inputs.skip(i as int).drop_first()
                            =~= cv.private_inputs.skip(i + 1));
                    }
                    let name = &circuit.private_inputs[i].0;
                    match find_value(&private_vals, name) {
                        Some(value) => {
                            self.set_wire_value(circuit.private_inputs[i].1, value);
                        },
                        None => {
                            proof {
                                assert(name@ == cv.private_inputs[i as int].0);
                                assert(bind_inputs(
                                    cv.private_inputs.skip(i as int),
                                    private_vals@,
                                    self.model(),
                                ) == (self.model(), Some(name@)));
                            }
                            return Err(WitnessError::MissingPrivateInput(name.clone()));
                        },
                    }
                }
                proof {
                    assert(cv.private_inputs.skip(npriv as int) =~= Seq::<
                        (Seq<char>, Wire),
                    >::empty());
                }
            },
            None => {
                if circuit.private_inputs.len() > 0 {
                    return Err(WitnessError::NoPrivateInputsProvided);
                }
            },
        }
        Ok(())
    }

    /// Executes one gate against the assignment built so far.
    fn execute_gate(&mut self, gate: &Gate) -> (r: Result<(), WitnessError>)
        ensures
            ({
                let g = exec_gate_model(old(self).model(), *gate);
                match (r, g) {
                    (Ok(()), Ok(m2)) => final(self).model() == m2,
                    (Err(e), Err(w)) => e@ == w && final(self).model() == old(self).model(),
                    _ => false,
                }
            }),
    {
        match gate {
            Gate::Const { output, value } => {
                self.set_wire_value(*output, *value);
                Ok(())
            },
            Gate::Add { output, left, right } => {
                let left_val = match self.get_wire_value(left) {
                    Some(v) => v,
                    None => {
                        return Err(WitnessError::MissingWireValue(*left));
                    },
                };
                let right_val = match self.get_wire_value(right) {
                    Some(v) => v,
                    None => {
                        return Err(WitnessError::MissingWireValue(*right));
                    },
                };
                self.set_wire_value(*output, left_val.wrapping_add(right_val));
                Ok(())
            },
            Gate::Mul { output, left, right } => {
                let left_val = match self.get_wire_value(left) {
                    Some(v) => v,
                    None => {
                        return Err(WitnessError::MissingWireValue(*left));
                    },
                };
                let right_val = match self.get_wire_value(right) {
                    Some(v) => v,
                    None => {
                        return Err(WitnessError::MissingWireValue(*right));
                    },
                };
                self.set_wire_value(*output, left_val.wrapping_mul(right_val));
                Ok(())
            },
            Gate::Assert { output, left, right } => {
                let left_val = match self.get_wire_value(left) {
                    Some(v) => v,
                    None => {
                        return Err(WitnessError::MissingWireValue(*left));
                    },
                };
                let right_val = match self.get_wire_value(right) {
                    Some(v) => v,
                    None => {
                        return Err(WitnessError::MissingWireValue(*right));
                    },
                };
                self.set_wire_value(*output, left_val.wrapping_sub(right_val));
                Ok(())
            },
        }
    }

    /// Binds the inputs, executes every gate in list order, and returns the
    /// output wire's value. The full wire assignment is retained for
    /// serialization.
    pub fn calculate_witness(&mut self, circuit: &Circuit, inputs: InputFile) -> (r: Result<
        i32,
        WitnessError,
    >)
        ensures
            ({
                let cm = calc_model(circuit@, inputs, old(self).model());
                &&& final(self).model() == cm.0
                &&& result_matches(r, cm.1)
            }),
    {
        let ghost cv = circuit@;
        match self.set_inputs(circuit, inputs) {
            Ok(()) => {},
            Err(e) => {
                return Err(e);
            },
        }
        let ghost m1 = self.model();
        let ngates = circuit.gates.len();
        proof {
            assert(cv.gates.skip(0) =~= cv.gates);
        }
        for j in 0..ngates
            invariant
                ngates == circuit.gates.len(),
                circuit@ == cv,
                set_inputs_model(cv, inputs, old(self).model()) == (m1, None::<WitnessErrorView>),
                run_gates_model(m1, cv.gates) == run_gates_model(
                    self.model(),
                    cv.gates.skip(j as int),
                ),
        {
            proof {
                assert(cv.gates.skip(j as int)[0] == cv.gates[j as int]);
                assert(cv.gates.skip(j as int).drop_first() =~= cv.gates.skip(j + 1));
            }
            match self.execute_gate(&circuit.gates[j]) {
                Ok(()) => {},
                Err(e) => {
                    proof {
                        assert(run_gates_model(self.model(), cv.gates.skip(j as int)) == (
                            self.model(),
                            Some(e@),
                        ));
                    }
                    return Err(e);
                },
            }
        }
        proof {
            assert(cv.gates.skip(ngates as int) =~= Seq::<Gate>::empty());
        }
        match self.get_wire_value(&circuit.output_wire) {
            Some(v) => Ok(v),
            None => Err(WitnessError::MissingWireValue(circuit.output_wire)),
        }
    }

    /// The dense witness array: one slot per wire id up to the largest wire
    /// ever written, each unwritten slot holding 0. An empty assignment
    /// serializes as a single zero slot.
    pub fn witness_vector(&self) -> (r: Vec<i32>)
        requires
            forall|k: nat| self.model().dom().contains(k) ==> k < usize::MAX,
        ensures
            r@.len() >= 1,
            forall|k: int|
                0 <= k < r@.len() ==> r@[k] == if self.model().dom().contains(k as nat) {
                    self.model()[k as nat]
                } else {
                    0i32
                },
            forall|k: nat| self.model().dom().contains(k) ==> k < r@.len(),
            r@.len() == 1 || self.model().dom().contains((r@.len() - 1) as nat),
    {
        let ghost wv = self.wire_values@;
        let n = self.wire_values.len();
        let mut max_wire_id: usize = 0;
        for j in 0..n
            invariant
                n == self.wire_values.len(),
                wv == self.wire_values@,
                max_wire_id as int == max_key(wv.take(j as int)),
                forall|k: nat| self.model().dom().contains(k) ==> k < usize::MAX,
        {
            proof {
                assert(wv.take(j + 1).drop_last() =~= wv.take(j as int));
                assert(wv.take(j + 1).last() == wv[j as int]);
                lemma_entry_in_dom(wv, j as int);
            }
            if self.wire_values[j].0.id > max_wire_id {
                max_wire_id = self.wire_values[j].0.id;
            }
        }
        proof {
            assert(wv.take(n as int) =~= wv);
            if wv.len() > 0 {
                lemma_max_key_in_dom(wv);
                assert(self.model().dom().contains(max_key(wv) as nat));
            }
            assert(max_wire_id < usize::MAX);
        }
        let mut witness: Vec<i32> = vec![0i32; max_wire_id + 1];
        for j in 0..n
            invariant
                n == self.wire_values.len(),
                wv == self.wire_values@,
                witness@.len() == max_wire_id as int + 1,
                max_wire_id as int == max_key(wv),
                forall|k: int|
                    0 <= k < witness@.len() ==> witness@[k] == if wvmap(
                        wv.take(j as int),
                    ).dom().contains(k as nat) {
                        wvmap(wv.take(j as int))[k as nat]
                    } else {
                        0i32
                    },
        {
            proof {
                assert(wv.take(j + 1).drop_last() =~= wv.take(j as int));
                assert(wv.take(j + 1).last() == wv[j as int]);
                lemma_entry_le_max(wv, j as int);
            }
            let id = self.wire_values[j].0.id;
            witness[id] = self.wire_values[j].1;
        }
        proof {
            assert(wv.take(n as int) =~= wv);
            assert forall|k: nat| self.model().dom().contains(k) implies k < witness@.len() by {
                lemma_dom_le_max(wv, k);
            }
            if witness@.len() != 1 {
                lemma_max_key_in_dom(wv);
            }
        }
        witness
    }

    /// The value bound to each named input wire, unwritten wires reading 0.
    pub fn named_values(&self, inputs: &Vec<(String, Wire)>) -> (r: Vec<(String, i32)>)
        ensures
            r@.len() == inputs@.len(),
            forall|i: int|
                0 <= i < r@.len() ==> (#[trigger] r@[i]).0@ == inputs@[i].0@ && r@[i].1 == (
                if self.model().dom().contains(inputs@[i].1.id as nat) {
                    self.model()[inputs@[i].1.id as nat]
                } else {
                    0i32
                }),
    {
        let mut r: Vec<(String, i32)> = Vec::new();
        let n = inputs.len();
        for i in 0..n
            invariant
                n == inputs.len(),
                r@.len() == i,
                forall|k: int|
                    0 <= k < i ==> (#[trigger] r@[k]).0@ == inputs@[k].0@ && r@[k].1 == (
                    if self.model().dom().contains(inputs@[k].1.id as nat) {
                        self.model()[inputs@[k].1.id as nat]
                    } else {
                        0i32
                    }),
        {
            let value = match self.get_wire_value(&inputs[i].1) {
                Some(v) => v,
                None => 0,
            };
            r.push((inputs[i].0.clone(), value));
        }
        r
    }
}

/// The largest written wire id, 0 when nothing was written.
pub open spec fn max_key(s: Seq<(Wire, i32)>) -> int
    decreases s.len(),
{
    if s.len() == 0 {
        0
    } else if s.last().0.id as int >= max_key(s.drop_last()) {
        s.last().0.id as int
    } else {
        max_key(s.drop_last())
    }
}

/// Every entry's wire id is a key of the assignment.
proof fn lemma_entry_in_dom(s: Seq<(Wire, i32)>, j: int)
    requires
        0 <= j < s.len(),
    ensures
        wvmap(s).dom().contains(s[j].0.id as nat),
    decreases s.len(),
{
    if j < s.len() - 1 {
        assert(s.drop_last()[j] == s[j]);
        lemma_entry_in_dom(s.drop_last(), j);
    }
}

/// Every entry's wire id is bounded by the maximum.
proof fn lemma_entry_le_max(s: Seq<(Wire, i32)>, j: int)
    requires
        0 <= j < s.len(),
    ensures
        s[j].0.id as int <= max_key(s),
    decreases s.len(),
{
    if j < s.len() - 1 {
        assert(s.drop_last()[j] == s[j]);
        lemma_entry_le_max(s.drop_last(), j);
    }
}

/// Every key of the assignment is bounded by the maximum.
proof fn lemma_dom_le_max(s: Seq<(Wire, i32)>, k: nat)
    requires
        wvmap(s).dom().contains(k),
    ensures
        k as int <= max_key(s),
    decreases s.len(),
{
    if s.len() > 0 {
        if k != s.last().0.id as nat {
            lemma_dom_le_max(s.drop_last(), k);
        }
    }
}

/// A nonempty assignment contains its largest key.
proof fn lemma_max_key_in_dom(s: Seq<(Wire, i32)>)
    requires
        s.len() > 0,
    ensures
        wvmap(s).dom().contains(max_key(s) as nat),
    decreases s.len(),
{
    if s.last().0.id as int >= max_key(s.drop_last()) {
        lemma_entry_in_dom(s, s.len() - 1);
    } else {
        lemma_max_key_in_dom(s.drop_last());
        let k = max_key(s.drop_last());
        lemma_dom_sub(s.drop_last(), s, k as nat);
    }
}

/// Dropping no entries loses no keys: the last write only adds.
proof fn lemma_dom_sub(pre: Seq<(Wire, i32)>, s: Seq<(Wire, i32)>, k: nat)
    requires
        s.len() > 0,
        pre == s.drop_last(),
        wvmap(pre).dom().contains(k),
    ensures
        wvmap(s).dom().contains(k),
{
}

// ---------------------------------------------------------------------------
// The constraint-equivalence law.
// ---------------------------------------------------------------------------

/// The modulus of the 32-bit wrapping arithmetic this compiler computes in.
pub open spec fn two_to_32() -> int {
    0x1_0000_0000
}

/// Congruence modulo 2^32; wrapping arithmetic agrees with exact arithmetic
/// up to this congruence, and exactly when nothing wrapped.
pub open spec fn congruent(a: int, b: int) -> bool {
    (a - b) % two_to_32() == 0
}

/// The dot product of a coefficient row and an assignment vector.
pub open spec fn dot(row: Seq<i32>, x: Seq<i32>) -> int
    decreases row.len(),
{
    if row.len() == 0 || x.len() == 0 {
        0
    } else {
        row.last() * x.last() + dot(row.drop_last(), x.drop_last())
    }
}

/// The assignment vector of a witness: slot 0 fixed at 1, every other slot
/// the written wire value, or 0 when unwritten.
pub open spec fn assignment(m: Map<nat, i32>, n: nat) -> Seq<i32> {
    Seq::new(
        n as nat,
        |i: int|
            if i == 0 {
                1i32
            } else if m.dom().contains(i as nat) {
                m[i as nat]
            } else {
                0i32
            },
    )
}

/// A constraint holds of an assignment when `(a.x) * (b.x) = (c.x)` modulo
/// 2^32.
pub open spec fn constraint_holds(c: crate::circuit::ConstraintView, x: Seq<i32>) -> bool {
    congruent(dot(c.a, x) * dot(c.b, x), dot(c.c, x))
}

/// What one executed gate guarantees of the final assignment once every wire
/// is written at most once.
pub open spec fn gate_eq(g: Gate, m: Map<nat, i32>) -> bool {
    match g {
        Gate::Const { output, value } => m.dom().contains(output.id as nat) && m[output.id as nat]
            == value,
        Gate::Add { output, left, right } => m.dom().contains(output.id as nat) && m.dom().contains(
            left.id as nat,
        ) && m.dom().contains(right.id as nat) && m[output.id as nat] == m[left.id as nat].wrapping_add(
            m[right.id as nat],
        ),
        Gate::Mul { output, left, right } => m.dom().contains(output.id as nat) && m.dom().contains(
            left.id as nat,
        ) && m.dom().contains(right.id as nat) && m[output.id as nat] == m[left.id as nat].wrapping_mul(
            m[right.id as nat],
        ),
        Gate::Assert { output, left, right } => m.dom().contains(output.id as nat)
            && m.dom().contains(left.id as nat) && m.dom().contains(right.id as nat)
            && m[output.id as nat] == m[left.id as nat].wrapping_sub(m[right.id as nat]),
    }
}

/// Whether the two wires a linear gate reads are distinct. The lowering
/// writes the two coefficients of a sum or difference into separate slots,
/// so a linear gate reading one wire twice escapes its constraint.
pub open spec fn distinct_operands(g: Gate) -> bool {
    match g {
        Gate::Add { output: _, left, right } => left.id != right.id,
        Gate::Assert { output: _, left, right } => left.id != right.id,
        _ => true,
    }
}

/// Every wire is written at most once: gate outputs are pairwise distinct
/// and never input wires; and the linear gates read two distinct wires.
pub open spec fn single_assignment(c: CircuitView) -> bool {
    &&& forall|i: int, j: int|
        0 <= i < j < c.gates.len() ==> crate::circuit::gate_output(#[trigger] c.gates[i]).id
            != crate::circuit::gate_output(#[trigger] c.gates[j]).id
    &&& forall|j: int, k: int|
        0 <= j < c.gates.len() && 0 <= k < c.public_inputs.len() ==> crate::circuit::gate_output(
            #[trigger] c.gates[j],
        ).id != (#[trigger] c.public_inputs[k]).1.id
    &&& forall|j: int, k: int|
        0 <= j < c.gates.len() && 0 <= k < c.private_inputs.len() ==> crate::circuit::gate_output(
            #[trigger] c.gates[j],
        ).id != (#[trigger] c.private_inputs[k]).1.id
    &&& forall|j: int| 0 <= j < c.gates.len() ==> distinct_operands(#[trigger] c.gates[j])
}

/// Binding inputs only writes declared input wires.
proof fn lemma_bind_dom(decls: Seq<(Seq<char>, Wire)>, vals: Seq<(String, i32)>, m: Map<nat, i32>)
    ensures
        forall|k: nat|
            bind_inputs(decls, vals, m).0.dom().contains(k) ==> m.dom().contains(k) || exists|
                i: int,
            | 0 <= i < decls.len() && (#[trigger] decls[i]).1.id as nat == k,
    decreases decls.len(),
{
    if decls.len() > 0 {
        match find_named(vals, decls[0].0) {
            Some(v) => {
                let m2 = m.insert(decls[0].1.id as nat, v);
                lemma_bind_dom(decls.drop_first(), vals, m2);
                assert forall|k: nat|
                    bind_inputs(decls, vals, m).0.dom().contains(k) implies m.dom().contains(k)
                    || exists|i: int|
                    0 <= i < decls.len() && (#[trigger] decls[i]).1.id as nat == k by {
                    if !m.dom().contains(k) {
                        if m2.dom().contains(k) {
                            assert(decls[0].1.id as nat == k);
                        } else {
                            let i = choose|i: int|
                                0 <= i < decls.drop_first().len() && (#[trigger] decls.drop_first()[i]).1.id
                                    as nat == k;
                            assert(decls[i + 1].1.id as nat == k);
                        }
                    }
                }
            },
            None => {},
        }
    }
}

/// Whether a wire id is a declared input wire.
pub open spec fn is_input_wire(c: CircuitView, k: nat) -> bool {
    ||| exists|i: int| 0 <= i < c.public_inputs.len() && (#[trigger] c.public_inputs[i]).1.id as nat
        == k
    ||| exists|i: int|
        0 <= i < c.private_inputs.len() && (#[trigger] c.private_inputs[i]).1.id as nat == k
}

/// The input-binding phase only writes declared input wires.
proof fn lemma_set_inputs_dom(c: CircuitView, inputs: InputFile, m0: Map<nat, i32>)
    ensures
        forall|k: nat|
            set_inputs_model(c, inputs, m0).0.dom().contains(k) ==> m0.dom().contains(k)
                || is_input_wire(c, k),
{
    match inputs.public {
        Some(public_vals) => {
            lemma_bind_dom(c.public_inputs, public_vals@, m0);
            let p = bind_inputs(c.public_inputs, public_vals@, m0);
            match inputs.private {
                Some(private_vals) => {
                    lemma_bind_dom(c.private_inputs, private_vals@, p.0);
                },
                None => {},
            }
        },
        None => {
            match inputs.private {
                Some(private_vals) => {
                    lemma_bind_dom(c.private_inputs, private_vals@, m0);
                },
                None => {},
            }
        },
    }
}

/// Running gates whose outputs are fresh and pairwise distinct preserves
/// every earlier value and leaves each gate's equation true of the final
/// assignment.
proof fn lemma_run_gates_final(m: Map<nat, i32>, gates: Seq<Gate>)
    requires
        run_gates_model(m, gates).1 is None,
        forall|i: int, j: int|
            0 <= i < j < gates.len() ==> crate::circuit::gate_output(#[trigger] gates[i]).id
                != crate::circuit::gate_output(#[trigger] gates[j]).id,
        forall|j: int|
            0 <= j < gates.len() ==> !m.dom().contains(
                crate::circuit::gate_output(#[trigger] gates[j]).id as nat,
            ),
    ensures
        ({
            let mf = run_gates_model(m, gates).0;
            &&& forall|k: nat|
                #[trigger] m.dom().contains(k) ==> mf.dom().contains(k) && mf[k] == m[k]
            &&& forall|j: int| 0 <= j < gates.len() ==> gate_eq(#[trigger] gates[j], mf)
        }),
    decreases gates.len(),
{
    if gates.len() > 0 {
        let g = gates[0];
        let m2 = exec_gate_model(m, g)->Ok_0;
        let out = crate::circuit::gate_output(g).id as nat;
        assert forall|i: int, j: int|
            0 <= i < j < gates.drop_first().len() implies crate::circuit::gate_output(
            #[trigger] gates.drop_first()[i],
        ).id != crate::circuit::gate_output(#[trigger] gates.drop_first()[j]).id by {
            assert(gates.drop_first()[i] == gates[i + 1]);
            assert(gates.drop_first()[j] == gates[j + 1]);
        }
        assert forall|j: int|
            0 <= j < gates.drop_first().len() implies !m2.dom().contains(
            crate::circuit::gate_output(#[trigger] gates.drop_first()[j]).id as nat,
        ) by {
            assert(gates.drop_first()[j] == gates[j + 1]);
            assert(crate::circuit::gate_output(gates[j + 1]).id != crate::circuit::gate_output(
                gates[0],
            ).id);
        }
        lemma_run_gates_final(m2, gates.drop_first());
        let mf = run_gates_model(m, gates).0;
        let mf2 = run_gates_model(m2, gates.drop_first()).0;
        assert(mf == mf2);
        assert(gate_eq(g, mf)) by {
            match g {
                Gate::Const { output, value } => {
                    let o = output.id as nat;
                    assert(m2 == m.insert(o, value));
                    assert(m2.dom().contains(o) && m2[o] == value);
                    assert(mf2.dom().contains(o) && mf2[o] == m2[o]);
                },
                Gate::Add { output, left, right } => {
                    let o = output.id as nat;
                    let l = left.id as nat;
                    let r = right.id as nat;
                    assert(m.dom().contains(l) && m.dom().contains(r));
                    assert(m2 == m.insert(o, m[l].wrapping_add(m[r])));
                    assert(l != o && r != o);
                    assert(m2.dom().contains(o) && m2.dom().contains(l) && m2.dom().contains(r));
                    assert(mf2.dom().contains(o) && mf2[o] == m2[o]);
                    assert(mf2.dom().contains(l) && mf2[l] == m2[l]);
                    assert(mf2.dom().contains(r) && mf2[r] == m2[r]);
                },
                Gate::Mul { output, left, right } => {
                    let o = output.id as nat;
                    let l = left.id as nat;
                    let r = right.id as nat;
                    assert(m.dom().contains(l) && m.dom().contains(r));
                    assert(m2 == m.insert(o, m[l].wrapping_mul(m[r])));
                    assert(l != o && r != o);
                    assert(m2.dom().contains(o) && m2.dom().contains(l) && m2.dom().contains(r));
                    assert(mf2.dom().contains(o) && mf2[o] == m2[o]);
                    assert(mf2.dom().contains(l) && mf2[l] == m2[l]);
                    assert(mf2.dom().contains(r) && mf2[r] == m2[r]);
                },
                Gate::Assert { output, left, right } => {
                    let o = output.id as nat;
                    let l = left.id as nat;
                    let r = right.id as nat;
                    assert(m.dom().contains(l) && m.dom().contains(r));
                    assert(m2 == m.insert(o, m[l].wrapping_sub(m[r])));
                    assert(l != o && r != o);
                    assert(m2.dom().contains(o) && m2.dom().contains(l) && m2.dom().contains(r));
                    assert(mf2.dom().contains(o) && mf2[o] == m2[o]);
                    assert(mf2.dom().contains(l) && mf2[l] == m2[l]);
                    assert(mf2.dom().contains(r) && mf2[r] == m2[r]);
                },
            }
        }
        assert forall|k: nat|
            m.dom().contains(k) implies #[trigger] mf.dom().contains(k) && mf[k] == m[k] by {
            assert(k != out);
            assert(m2.dom().contains(k) && m2[k] == m[k]) by {
                match g {
                    Gate::Const { output, value } => {
                        assert(m2 == m.insert(output.id as nat, value));
                    },
                    Gate::Add { output, left, right } => {
                        assert(m2 == m.insert(
                            output.id as nat,
                            m[left.id as nat].wrapping_add(m[right.id as nat]),
                        ));
                    },
                    Gate::Mul { output, left, right } => {
                        assert(m2 == m.insert(
                            output.id as nat,
                            m[left.id as nat].wrapping_mul(m[right.id as nat]),
                        ));
                    },
                    Gate::Assert { output, left, right } => {
                        assert(m2 == m.insert(
                            output.id as nat,
                            m[left.id as nat].wrapping_sub(m[right.id as nat]),
                        ));
                    },
                }
            }
            assert(mf2.dom().contains(k) && mf2[k] == m2[k]);
        }
        assert forall|j: int| 0 <= j < gates.len() implies gate_eq(#[trigger] gates[j], mf) by {
            if j > 0 {
                assert(gates.drop_first()[j - 1] == gates[j]);
            }
        }
    }
}

/// The dot product of the zero row is zero.
proof fn lemma_dot_zero(n: nat, x: Seq<i32>)
    requires
        x.len() == n,
    ensures
        dot(crate::circuit::zero_row(n), x) == 0,
    decreases n,
{
    if n > 0 {
        assert(crate::circuit::zero_row(n).drop_last() =~= crate::circuit::zero_row(
            (n - 1) as nat,
        ));
        assert(crate::circuit::zero_row(n).last() == 0i32);
        lemma_dot_zero((n - 1) as nat, x.drop_last());
    }
}

/// Changing one coefficient changes the dot product by the difference times
/// that slot's value.
proof fn lemma_dot_update(row: Seq<i32>, x: Seq<i32>, i: int, v: i32)
    requires
        x.len() == row.len(),
        0 <= i < row.len(),
    ensures
        dot(row.update(i, v), x) == dot(row, x) - row[i] * x[i] + v * x[i],
    decreases row.len(),
{
    let u = row.update(i, v);
    if i == row.len() - 1 {
        assert(u.drop_last() =~= row.drop_last());
        assert(u.last() == v);
    } else {
        assert(u.drop_last() =~= row.drop_last().update(i, v));
        assert(u.last() == row.last());
        lemma_dot_update(row.drop_last(), x.drop_last(), i, v);
        assert(row.drop_last()[i] == row[i]);
        assert(x.drop_last()[i] == x[i]);
    }
}

/// Wrapping addition is congruent to exact addition.
proof fn lemma_wrap_add_cong(a: i32, b: i32)
    ensures
        congruent(a.wrapping_add(b) as int, a + b),
{
    let w = a.wrapping_add(b) as int;
    assert(w == a + b || w == a + b - two_to_32() || w == a + b + two_to_32());
}

/// Wrapping subtraction is congruent to exact subtraction.
proof fn lemma_wrap_sub_cong(a: i32, b: i32)
    ensures
        congruent(a.wrapping_sub(b) as int, a - b),
{
    let w = a.wrapping_sub(b) as int;
    assert(w == a - b || w == a - b - two_to_32() || w == a - b + two_to_32());
}

/// Wrapping multiplication is congruent to exact multiplication.
proof fn lemma_wrap_mul_cong(a: i32, b: i32)
    ensures
        congruent(a.wrapping_mul(b) as int, a * b),
{
    let p = a * b;
    let r = two_to_32();
    let w = a.wrapping_mul(b) as int;
    assert(w == p % r || w == p % r - r);
    vstd::arithmetic::div_mod::lemma_fundamental_div_mod(p, r);
    assert(p % r - p == r * (-(p / r))) by {
        assert(p == r * (p / r) + p % r);
        assert(r * (-(p / r)) == -(r * (p / r))) by (nonlinear_arith);
    }
    vstd::arithmetic::div_mod::lemma_mod_multiples_basic(-(p / r), r);
    assert((r * (-(p / r))) % r == 0) by {
        assert(r * (-(p / r)) == (-(p / r)) * r) by (nonlinear_arith);
    }
    if w == p % r - r {
        assert(w - p == r * (-(p / r) - 1)) by {
            assert(p == r * (p / r) + p % r);
            assert(r * (-(p / r) - 1) == -(r * (p / r)) - r) by (nonlinear_arith);
        }
        vstd::arithmetic::div_mod::lemma_mod_multiples_basic(-(p / r) - 1, r);
        assert((r * (-(p / r) - 1)) % r == 0) by {
            assert(r * (-(p / r) - 1) == (-(p / r) - 1) * r) by (nonlinear_arith);
        }
    }
}

/// Congruence is symmetric.
proof fn lemma_cong_sym(a: int, b: int)
    requires
        congruent(a, b),
    ensures
        congruent(b, a),
{
    let r = two_to_32();
    vstd::arithmetic::div_mod::lemma_fundamental_div_mod(a - b, r);
    let k = (a - b) / r;
    assert(a - b == r * k);
    assert(b - a == r * (-k)) by (nonlinear_arith)
        requires
            a - b == r * k,
    ;
    vstd::arithmetic::div_mod::lemma_mod_multiples_basic(-k, r);
    assert((r * (-k)) % r == 0) by {
        assert(r * (-k) == (-k) * r) by (nonlinear_arith);
    }
}

/// The dot product of the zero row with one slot set.
proof fn lemma_dot_single(n: nat, x: Seq<i32>, i: int, v: i32)
    requires
        x.len() == n,
        0 <= i < n,
    ensures
        dot(crate::circuit::zero_row(n).update(i, v), x) == v * x[i],
{
    let zero = crate::circuit::zero_row(n);
    lemma_dot_zero(n, x);
    lemma_dot_update(zero, x, i, v);
    assert(zero[i] == 0i32);
    assert(zero[i] * x[i] == 0) by (nonlinear_arith)
        requires
            zero[i] == 0i32,
    ;
}

/// The dot product of the zero row with two distinct slots set.
proof fn lemma_dot_double(n: nat, x: Seq<i32>, i: int, v: i32, j: int, w: i32)
    requires
        x.len() == n,
        0 <= i < n,
        0 <= j < n,
        i != j,
    ensures
        dot(crate::circuit::zero_row(n).update(i, v).update(j, w), x) == v * x[i] + w * x[j],
{
    let zero = crate::circuit::zero_row(n);
    let row1 = zero.update(i, v);
    lemma_dot_single(n, x, i, v);
    lemma_dot_update(row1, x, j, w);
    assert(row1[j] == 0i32);
    assert(row1[j] * x[j] == 0) by (nonlinear_arith)
        requires
            row1[j] == 0i32,
    ;
}

/// One gate's constraint holds of the final assignment.
proof fn lemma_gate_constraint(g: Gate, mf: Map<nat, i32>, n: nat)
    requires
        gate_eq(g, mf),
        distinct_operands(g),
        crate::circuit::gate_wire_max(g) < n,
        mf.dom().contains(0nat) ==> mf[0nat] == 1i32,
    ensures
        constraint_holds(crate::circuit::constraint_model(g, n), assignment(mf, n)),
{
    let x = assignment(mf, n);
    let zero = crate::circuit::zero_row(n);
    assert(x.len() == n && zero.len() == n);
    assert(x[0] == 1i32);
    match g {
        Gate::Const { output, value } => {
            let o = output.id as int;
            let da = dot(zero.update(0, 1i32), x);
            let db = dot(zero.update(0, value), x);
            let dc = dot(zero.update(o, 1i32), x);
            lemma_dot_single(n, x, 0, 1i32);
            lemma_dot_single(n, x, 0, value);
            lemma_dot_single(n, x, o, 1i32);
            assert(da == 1) by (nonlinear_arith)
                requires
                    da == 1i32 * x[0],
                    x[0] == 1i32,
            ;
            assert(db == value) by (nonlinear_arith)
                requires
                    db == value * x[0],
                    x[0] == 1i32,
            ;
            assert(x[o] == mf[output.id as nat]);
            assert(dc == x[o]) by (nonlinear_arith)
                requires
                    dc == 1i32 * x[o],
            ;
            assert(da * db == db) by (nonlinear_arith)
                requires
                    da == 1,
            ;
            assert(congruent(db, dc));
        },
        Gate::Add { output, left, right } => {
            let o = output.id as int;
            let l = left.id as int;
            let r = right.id as int;
            let da = dot(zero.update(l, 1i32).update(r, 1i32), x);
            let db = dot(zero.update(0, 1i32), x);
            let dc = dot(zero.update(o, 1i32), x);
            lemma_dot_double(n, x, l, 1i32, r, 1i32);
            lemma_dot_single(n, x, 0, 1i32);
            lemma_dot_single(n, x, o, 1i32);
            assert(da == x[l] + x[r] && db == 1 && dc == x[o]) by (nonlinear_arith)
                requires
                    da == 1i32 * x[l] + 1i32 * x[r],
                    db == 1i32 * x[0],
                    dc == 1i32 * x[o],
                    x[0] == 1i32,
            ;
            assert(x[o] == mf[output.id as nat]);
            assert(x[l] == mf[left.id as nat]);
            assert(x[r] == mf[right.id as nat]);
            lemma_wrap_add_cong(mf[left.id as nat], mf[right.id as nat]);
            lemma_cong_sym(
                mf[output.id as nat] as int,
                mf[left.id as nat] + mf[right.id as nat],
            );
            assert(da * db == da) by (nonlinear_arith)
                requires
                    db == 1,
            ;
            assert(congruent(da, dc));
        },
        Gate::Mul { output, left, right } => {
            let o = output.id as int;
            let l = left.id as int;
            let r = right.id as int;
            let da = dot(zero.update(l, 1i32), x);
            let db = dot(zero.update(r, 1i32), x);
            let dc = dot(zero.update(o, 1i32), x);
            lemma_dot_single(n, x, l, 1i32);
            lemma_dot_single(n, x, r, 1i32);
            lemma_dot_single(n, x, o, 1i32);
            assert(da == x[l] && db == x[r] && dc == x[o]) by (nonlinear_arith)
                requires
                    da == 1i32 * x[l],
                    db == 1i32 * x[r],
                    dc == 1i32 * x[o],
            ;
            assert(x[o] == mf[output.id as nat]);
            assert(x[l] == mf[left.id as nat]);
            assert(x[r] == mf[right.id as nat]);
            lemma_wrap_mul_cong(mf[left.id as nat], mf[right.id as nat]);
            lemma_cong_sym(
                mf[output.id as nat] as int,
                mf[left.id as nat] * mf[right.id as nat],
            );
            assert(da * db == x[l] * x[r]);
            assert(congruent(x[l] * x[r], x[o] as int));
        },
        Gate::Assert { output, left, right } => {
            let o = output.id as int;
            let l = left.id as int;
            let r = right.id as int;
            let da = dot(zero.update(l, 1i32).update(r, -1i32), x);
            let db = dot(zero.update(0, 1i32), x);
            let dc = dot(zero.update(o, 1i32), x);
            lemma_dot_double(n, x, l, 1i32, r, -1i32);
            lemma_dot_single(n, x, 0, 1i32);
            lemma_dot_single(n, x, o, 1i32);
            assert(da == x[l] - x[r] && db == 1 && dc == x[o]) by (nonlinear_arith)
                requires
                    da == 1i32 * x[l] + (-1i32) * x[r],
                    db == 1i32 * x[0],
                    dc == 1i32 * x[o],
                    x[0] == 1i32,
            ;
            assert(x[o] == mf[output.id as nat]);
            assert(x[l] == mf[left.id as nat]);
            assert(x[r] == mf[right.id as nat]);
            lemma_wrap_sub_cong(mf[left.id as nat], mf[right.id as nat]);
            lemma_cong_sym(
                mf[output.id as nat] as int,
                mf[left.id as nat] - mf[right.id as nat],
            );
            assert(da * db == da) by (nonlinear_arith)
                requires
                    db == 1,
            ;
            assert(congruent(da, dc));
        },
    }
}

/// Constraint equivalence: when each wire is written at most once and the
/// shared slot 0 (the constant-one term of the encoding) carries 1, a
/// successful witness calculation satisfies every lowered constraint: for
/// each gate, `(a.x) * (b.x) = (c.x)` modulo 2^32 over the witness array
/// with slot 0 fixed at 1.
pub proof fn lemma_r1cs_equivalence(c: CircuitView, inputs: InputFile)
    requires
        single_assignment(c),
        calc_model(c, inputs, Map::empty()).1 is Ok,
        ({
            let mf = calc_model(c, inputs, Map::empty()).0;
            mf.dom().contains(0nat) ==> mf[0nat] == 1i32
        }),
    ensures
        ({
            let mf = calc_model(c, inputs, Map::empty()).0;
            let sys = crate::circuit::r1cs_model(c);
            forall|k: int|
                0 <= k < sys.constraints.len() ==> constraint_holds(
                    #[trigger] sys.constraints[k],
                    assignment(mf, sys.num_variables),
                )
        }),
{
    let m0 = Map::<nat, i32>::empty();
    let s = set_inputs_model(c, inputs, m0);
    let run = run_gates_model(s.0, c.gates);
    let mf = calc_model(c, inputs, m0).0;
    assert(s.1 is None && run.1 is None && mf == run.0);
    lemma_set_inputs_dom(c, inputs, m0);
    assert forall|j: int|
        0 <= j < c.gates.len() implies !s.0.dom().contains(
        crate::circuit::gate_output(#[trigger] c.gates[j]).id as nat,
    ) by {
        let out = crate::circuit::gate_output(c.gates[j]).id as nat;
        if s.0.dom().contains(out) {
            assert(is_input_wire(c, out));
        }
    }
    lemma_run_gates_final(s.0, c.gates);
    let sys = crate::circuit::r1cs_model(c);
    let n = sys.num_variables;
    assert forall|k: int|
        0 <= k < sys.constraints.len() implies constraint_holds(
        #[trigger] sys.constraints[k],
        assignment(mf, n),
    ) by {
        assert(sys.constraints[k] == crate::circuit::constraint_model(c.gates[k], n));
        crate::circuit::lemma_gates_max_elem(c.gates, k);
        assert(crate::circuit::gate_wire_max(c.gates[k]) < n);
        lemma_gate_constraint(c.gates[k], mf, n);
    }
}

} // verus!
