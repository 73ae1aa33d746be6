//! Circuit synthesis from SSA and lowering to a rank-1 constraint system.
//!
//! Each distinct SSA value maps to one numbered wire, ids assigned densely in
//! first-use order: inputs first (public then private, in declaration order),
//! then instruction destinations and operands as instructions are visited.

use crate::ssa::InstrView;
use crate::ssa::ProgView;
use crate::ssa::SsaInstruction;
use crate::ssa::SsaProgram;
use crate::ssa::SsaValue;
use crate::ssa::ValId;
use crate::ssa::dup;
use crate::ssa::same_value;
use vstd::prelude::*;

verus! {

/// A numbered slot of the circuit holding one integer value in a witness.
#[derive(Debug, Clone, Copy, PartialEq, Eq, Hash, Structural)]
pub struct Wire {
    pub id: usize,
}

/// One elementary operation producing one wire's value. The output of an
/// `Assert` gate is a fresh wire that is never read: it only gives the
/// constraint `left - right` a nameable output slot.
#[derive(Debug, Clone, Copy, PartialEq, Eq, Structural)]
pub enum Gate {
    Const { output: Wire, value: i32 },
    Add { output: Wire, left: Wire, right: Wire },
    Mul { output: Wire, left: Wire, right: Wire },
    Assert { output: Wire, left: Wire, right: Wire },
}

/// An arithmetic circuit: named input wires, a gate list, one output wire.
/// Every wire a gate reads is produced by an earlier gate or is an input;
/// the builder guarantees this by construction.
#[derive(Debug, Clone)]
pub struct Circuit {
    pub public_inputs: Vec<(String, Wire)>,
    pub private_inputs: Vec<(String, Wire)>,
    pub gates: Vec<Gate>,
    pub output_wire: Wire,
}

/// The image of a circuit: input names at the identity level, gates as is.
#[verifier::ext_equal]
pub struct CircuitView {
    pub public_inputs: Seq<(Seq<char>, Wire)>,
    pub private_inputs: Seq<(Seq<char>, Wire)>,
    pub gates: Seq<Gate>,
    pub output_wire: Wire,
}

impl View for Circuit {
    type V = CircuitView;

    open spec fn view(&self) -> CircuitView {
        CircuitView {
            public_inputs: self.public_inputs@.map_values(|p: (String, Wire)| (p.0@, p.1)),
            private_inputs: self.private_inputs@.map_values(|p: (String, Wire)| (p.0@, p.1)),
            gates: self.gates@,
            output_wire: self.output_wire,
        }
    }
}

/// One rank-1 constraint: dense coefficient rows `a`, `b`, `c`, one slot per
/// wire id, satisfied by an assignment `x` when `(a.x) * (b.x) = (c.x)`.
/// Slot 0 doubles as the constant-one term of the encoding.
#[derive(Debug, Clone)]
pub struct R1csConstraint {
    pub a: Vec<i32>,
    pub b: Vec<i32>,
    pub c: Vec<i32>,
}

#[verifier::ext_equal]
pub struct ConstraintView {
    pub a: Seq<i32>,
    pub b: Seq<i32>,
    pub c: Seq<i32>,
}

impl View for R1csConstraint {
    type V = ConstraintView;

    open spec fn view(&self) -> ConstraintView {
        ConstraintView { a: self.a@, b: self.b@, c: self.c@ }
    }
}

/// A full rank-1 constraint system, serializable independently of the
/// circuit that produced it.
#[derive(Debug, Clone)]
pub struct R1csSystem {
    pub num_constraints: usize,
    pub num_variables: usize,
    pub constraints: Vec<R1csConstraint>,
    pub public_inputs: Vec<(String, usize)>,
    pub private_inputs: Vec<(String, usize)>,
    pub output_wire: usize,
}

#[verifier::ext_equal]
pub struct R1csView {
    pub num_constraints: nat,
    pub num_variables: nat,
    pub constraints: Seq<ConstraintView>,
    pub public_inputs: Seq<(Seq<char>, nat)>,
    pub private_inputs: Seq<(Seq<char>, nat)>,
    pub output_wire: nat,
}

impl View for R1csSystem {
    type V = R1csView;

    open spec fn view(&self) -> R1csView {
        R1csView {
            num_constraints: self.num_constraints as nat,
            num_variables: self.num_variables as nat,
            constraints: self.constraints@.map_values(|c: R1csConstraint| c@),
            public_inputs: self.public_inputs@.map_values(
                |p: (String, usize)| (p.0@, p.1 as nat),
            ),
            private_inputs: self.private_inputs@.map_values(
                |p: (String, usize)| (p.0@, p.1 as nat),
            ),
            output_wire: self.output_wire as nat,
        }
    }
}

// ---------------------------------------------------------------------------
// The synthesis model.
// ---------------------------------------------------------------------------

/// The wire map as a mathematical map; later entries shadow earlier ones
/// (the builder never inserts a key twice).
pub open spec fn wmap(s: Seq<(SsaValue, Wire)>) -> Map<ValId, nat>
    decreases s.len(),
{
    if s.len() == 0 {
        Map::empty()
    } else {
        wmap(s.drop_last()).insert(s.last().0@, s.last().1.id as nat)
    }
}

/// The state the builder threads through a synthesis.
#[verifier::ext_equal]
pub struct SynthState {
    pub gates: Seq<Gate>,
    pub counter: nat,
    pub wires: Map<ValId, nat>,
    pub public_inputs: Seq<(Seq<char>, Wire)>,
    pub private_inputs: Seq<(Seq<char>, Wire)>,
}

/// The state of a freshly constructed builder.
pub open spec fn synth_init() -> SynthState {
    SynthState {
        gates: Seq::empty(),
        counter: 0,
        wires: Map::empty(),
        public_inputs: Seq::empty(),
        private_inputs: Seq::empty(),
    }
}

/// Allocates the next wire id.
pub open spec fn fresh_wire(st: SynthState) -> (SynthState, Wire) {
    (SynthState { counter: st.counter + 1, ..st }, Wire { id: st.counter as usize })
}

/// The wire of an SSA value: the mapped wire, or a newly allocated one
/// recorded under the value's identity, so no identity ever gets two wires.
pub open spec fn wire_of(st: SynthState, v: ValId) -> (SynthState, Wire) {
    if st.wires.dom().contains(v) {
        (st, Wire { id: st.wires[v] as usize })
    } else {
        (
            SynthState { counter: st.counter + 1, wires: st.wires.insert(v, st.counter), ..st },
            Wire { id: st.counter as usize },
        )
    }
}

/// Registers one declared input: its wire is resolved (or allocated) and the
/// name-to-wire pair appended to the proper list.
pub open spec fn add_input(st: SynthState, v: ValId, public: bool) -> SynthState {
    let p = wire_of(st, v);
    if public {
        SynthState { public_inputs: p.0.public_inputs.push((v.0, p.1)), ..p.0 }
    } else {
        SynthState { private_inputs: p.0.private_inputs.push((v.0, p.1)), ..p.0 }
    }
}

pub open spec fn add_inputs(st: SynthState, vs: Seq<ValId>, public: bool) -> SynthState
    decreases vs.len(),
{
    if vs.len() == 0 {
        st
    } else {
        add_inputs(add_input(st, vs[0], public), vs.drop_first(), public)
    }
}

/// Converts one instruction to a gate. Destination wires are resolved before
/// operand wires, in the instruction's field order; an assertion's output is
/// a fresh wire that is never looked up again.
pub open spec fn synth_instr(st: SynthState, i: InstrView) -> SynthState {
    match i {
        InstrView::Const(d, val) => {
            let pd = wire_of(st, d);
            SynthState {
                gates: pd.0.gates.push(Gate::Const { output: pd.1, value: val }),
                ..pd.0
            }
        },
        InstrView::Add(d, l, r) => {
            let pd = wire_of(st, d);
            let pl = wire_of(pd.0, l);
            let pr = wire_of(pl.0, r);
            SynthState {
                gates: pr.0.gates.push(Gate::Add { output: pd.1, left: pl.1, right: pr.1 }),
                ..pr.0
            }
        },
        InstrView::Mul(d, l, r) => {
            let pd = wire_of(st, d);
            let pl = wire_of(pd.0, l);
            let pr = wire_of(pl.0, r);
            SynthState {
                gates: pr.0.gates.push(Gate::Mul { output: pd.1, left: pl.1, right: pr.1 }),
                ..pr.0
            }
        },
        InstrView::Assert(l, r) => {
            let pl = wire_of(st, l);
            let pr = wire_of(pl.0, r);
            let pz = fresh_wire(pr.0);
            SynthState {
                gates: pz.0.gates.push(Gate::Assert { output: pz.1, left: pl.1, right: pr.1 }),
                ..pz.0
            }
        },
    }
}

pub open spec fn synth_instrs(st: SynthState, instrs: Seq<InstrView>) -> SynthState
    decreases instrs.len(),
{
    if instrs.len() == 0 {
        st
    } else {
        synth_instrs(synth_instr(st, instrs[0]), instrs.drop_first())
    }
}

/// The final builder state and output wire of a whole program.
pub open spec fn synth_final(p: ProgView) -> (SynthState, Wire) {
    let st1 = add_inputs(synth_init(), p.public_inputs, true);
    let st2 = add_inputs(st1, p.private_inputs, false);
    let st3 = synth_instrs(st2, p.instructions);
    wire_of(st3, p.return_value)
}

/// The circuit a whole SSA program synthesizes to.
pub open spec fn circuit_model(p: ProgView) -> CircuitView {
    let f = synth_final(p);
    CircuitView {
        public_inputs: f.0.public_inputs,
        private_inputs: f.0.private_inputs,
        gates: f.0.gates,
        output_wire: f.1,
    }
}

/// How many wire resolutions a program performs at most: one per declared
/// input, three per instruction, one for the return value.
pub open spec fn wire_budget(p: ProgView) -> int {
    p.public_inputs.len() + p.private_inputs.len() + 3 * p.instructions.len() as int + 1
}

// ---------------------------------------------------------------------------
// The executable builder.
// ---------------------------------------------------------------------------

/// Builds a `Circuit` from an `SsaProgram` in one linear pass.
pub struct CircuitBuilder {
    gates: Vec<Gate>,
    wire_counter: usize,
    ssa_to_wire: Vec<(SsaValue, Wire)>,
    public_inputs: Vec<(String, Wire)>,
    private_inputs: Vec<(String, Wire)>,
}

impl CircuitBuilder {
    /// The abstract state of the builder.
    pub closed spec fn model(&self) -> SynthState {
        SynthState {
            gates: self.gates@,
            counter: self.wire_counter as nat,
            wires: wmap(self.ssa_to_wire@),
            public_inputs: self.public_inputs@.map_values(|p: (String, Wire)| (p.0@, p.1)),
            private_inputs: self.private_inputs@.map_values(|p: (String, Wire)| (p.0@, p.1)),
        }
    }

    pub fn new() -> (r: CircuitBuilder)
        ensures
            r.model() == synth_init(),
    {
        let r = CircuitBuilder {
            gates: Vec::new(),
            wire_counter: 0,
            ssa_to_wire: Vec::new(),
            public_inputs: Vec::new(),
            private_inputs: Vec::new(),
        };
        proof {
            assert(r.model() =~= synth_init());
        }
        r
    }

    fn new_wire(&mut self) -> (w: Wire)
        requires
            old(self).model().counter < usize::MAX,
        ensures
            (final(self).model(), w) == fresh_wire(old(self).model()),
            final(self).ssa_to_wire@ == old(self).ssa_to_wire@,
    {
        let wire = Wire { id: self.wire_counter };
        self.wire_counter = self.wire_counter + 1;
        proof {
            assert(self.model() =~= fresh_wire(old(self).model()).0);
        }
        wire
    }

    fn get_or_create_wire(&mut self, ssa_value: &SsaValue) -> (w: Wire)
        requires
            old(self).model().counter < usize::MAX,
        ensures
            (final(self).model(), w) == wire_of(old(self).model(), ssa_value@),
    {
        let mut j = self.ssa_to_wire.len();
        proof {
            assert(self.ssa_to_wire@.take(j as int) =~= self.ssa_to_wire@);
        }
        while j > 0
            invariant
                j <= self.ssa_to_wire.len(),
                ({
                    let whole = wmap(self.ssa_to_wire@);
                    let part = wmap(self.ssa_to_wire@.take(j as int));
                    &&& whole.dom().contains(ssa_value@) == part.dom().contains(ssa_value@)
                    &&& whole.dom().contains(ssa_value@) ==> whole[ssa_value@] == part[ssa_value@]
                }),
            decreases j,
        {
            j = j - 1;
            proof {
                assert(self.ssa_to_wire@.take(j + 1).drop_last() =~= self.ssa_to_wire@.take(
                    j as int,
                ));
                assert(self.ssa_to_wire@.take(j + 1).last() == self.ssa_to_wire@[j as int]);
            }
            if same_value(&self.ssa_to_wire[j].0, ssa_value) {
                return self.ssa_to_wire[j].1;
            }
        }
        proof {
            assert(self.ssa_to_wire@.take(0) =~= Seq::<(SsaValue, Wire)>::empty());
        }
        let new_wire = self.new_wire();
        self.ssa_to_wire.push((dup(ssa_value), new_wire));
        proof {
            assert(self.ssa_to_wire@.drop_last() =~= old(self).ssa_to_wire@);
            assert(self.model() =~= wire_of(old(self).model(), ssa_value@).0);
        }
        new_wire
    }

    /// Converts one instruction into one gate, resolving its wires.
    fn convert_instruction(&mut self, instr: &SsaInstruction) -> (w: Wire)
        requires
            old(self).model().counter + 3 <= usize::MAX,
        ensures
            final(self).model() == synth_instr(old(self).model(), instr@),
    {
        match instr {
            SsaInstruction::Const(dest, value) => {
                let dest_wire = self.get_or_create_wire(dest);
                self.gates.push(Gate::Const { output: dest_wire, value: *value });
                proof {
                    assert(self.model() =~= synth_instr(old(self).model(), instr@));
                }
                dest_wire
            },
            SsaInstruction::Add(dest, left, right) => {
                let dest_wire = self.get_or_create_wire(dest);
                let left_wire = self.get_or_create_wire(left);
                let right_wire = self.get_or_create_wire(right);
                self.gates.push(
                    Gate::Add { output: dest_wire, left: left_wire, right: right_wire },
                );
                proof {
                    assert(self.model() =~= synth_instr(old(self).model(), instr@));
                }
                dest_wire
            },
            SsaInstruction::Mul(dest, left, right) => {
                let dest_wire = self.get_or_create_wire(dest);
                let left_wire = self.get_or_create_wire(left);
                let right_wire = self.get_or_create_wire(right);
                self.gates.push(
                    Gate::Mul { output: dest_wire, left: left_wire, right: right_wire },
                );
                proof {
                    assert(self.model() =~= synth_instr(old(self).model(), instr@));
                }
                dest_wire
            },
            SsaInstruction::Assert(left, right) => {
                let left_wire = self.get_or_create_wire(left);
                let right_wire = self.get_or_create_wire(right);
                let zero_wire = self.new_wire();
                self.gates.push(
                    Gate::Assert { output: zero_wire, left: left_wire, right: right_wire },
                );
                proof {
                    assert(self.model() =~= synth_instr(old(self).model(), instr@));
                }
                zero_wire
            },
        }
    }

    /// Synthesizes the circuit of an SSA program: wire ids are assigned in
    /// strict first-use order, starting from 0. The wire budget must fit the
    /// machine's word so the wire counter cannot overflow.
    pub fn from_ssa(ssa_program: SsaProgram) -> (r: Circuit)
        requires
            wire_budget(ssa_program@) <= usize::MAX,
        ensures
            r@ == circuit_model(ssa_program@),
    {
        let ghost pv = ssa_program@;
        let mut builder = CircuitBuilder::new();

        let npub = ssa_program.public_inputs.len();
        for i in 0..npub
            invariant
                npub == ssa_program.public_inputs.len(),
                ssa_program@ == pv,
                wire_budget(pv) <= usize::MAX,
                builder.model() == add_inputs(synth_init(), pv.public_inputs.take(i as int), true),
                builder.model().counter <= i,
        {
            proof {
                lemma_add_inputs_snoc(
                    synth_init(),
                    pv.public_inputs.take(i as int),
                    pv.public_inputs[i as int],
                    true,
                );
                assert(pv.public_inputs.take(i + 1) =~= pv.public_inputs.take(i as int).push(
                    pv.public_inputs[i as int],
                ));
            }
            let input = &ssa_program.public_inputs[i];
            let wire = builder.get_or_create_wire(input);
            let name = input.name.clone();
            builder.public_inputs.push((name, wire));
            proof {
                assert(builder.model() =~= add_inputs(
                    synth_init(),
                    pv.public_inputs.take(i + 1),
                    true,
                ));
            }
        }
        proof {
            assert(pv.public_inputs.take(npub as int) =~= pv.public_inputs);
        }
        let ghost st1 = add_inputs(synth_init(), pv.public_inputs, true);

        let npriv = ssa_program.private_inputs.len();
        for i in 0..npriv
            invariant
                npriv == ssa_program.private_inputs.len(),
                ssa_program@ == pv,
                wire_budget(pv) <= usize::MAX,
                st1 == add_inputs(synth_init(), pv.public_inputs, true),
                builder.model() == add_inputs(st1, pv.private_inputs.take(i as int), false),
                builder.model().counter <= pv.public_inputs.len() + i,
        {
            proof {
                lemma_add_inputs_snoc(
                    st1,
                    pv.private_inputs.take(i as int),
                    pv.private_inputs[i as int],
                    false,
                );
                assert(pv.private_inputs.take(i + 1) =~= pv.private_inputs.take(i as int).push(
                    pv.private_inputs[i as int],
                ));
            }
            let input = &ssa_program.private_inputs[i];
            let wire = builder.get_or_create_wire(input);
            let name = input.name.clone();
            builder.private_inputs.push((name, wire));
            proof {
                assert(builder.model() =~= add_inputs(st1, pv.private_inputs.take(i + 1), false));
            }
        }
        proof {
            assert(pv.private_inputs.take(npriv as int) =~= pv.private_inputs);
        }
        let ghost st2 = add_inputs(st1, pv.private_inputs, false);

        let ninstr = ssa_program.instructions.len();
        for j in 0..ninstr
            invariant
                ninstr == ssa_program.instructions.len(),
                ssa_program@ == pv,
                wire_budget(pv) <= usize::MAX,
                st2 == add_inputs(
                    add_inputs(synth_init(), pv.public_inputs, true),
                    pv.private_inputs,
                    false,
                ),
                builder.model() == synth_instrs(st2, pv.instructions.take(j as int)),
                builder.model().counter <= pv.public_inputs.len() + pv.private_inputs.len() + 3 * j,
        {
            proof {
                assert(pv.instructions[j as int] == ssa_program.instructions@[j as int]@);
                lemma_synth_instrs_snoc(st2, pv.instructions.take(j as int), pv.instructions[j as int]);
                assert(pv.instructions.take(j + 1) =~= pv.instructions.take(j as int).push(
                    pv.instructions[j as int],
                ));
            }
            builder.convert_instruction(&ssa_program.instructions[j]);
        }
        proof {
            assert(pv.instructions.take(ninstr as int) =~= pv.instructions);
        }

        let output_wire = builder.get_or_create_wire(&ssa_program.return_value);

        let r = Circuit {
            public_inputs: builder.public_inputs,
            private_inputs: builder.private_inputs,
            gates: builder.gates,
            output_wire,
        };
        proof {
            assert(r@ =~= circuit_model(pv));
        }
        r
    }
}

// ---------------------------------------------------------------------------
// The wire-uniqueness law.
// ---------------------------------------------------------------------------

/// The wire ids the value map has handed out.
pub open spec fn map_ids(st: SynthState) -> Set<nat> {
    Set::new(
        |k: nat| exists|v: ValId| #[trigger] st.wires.dom().contains(v) && st.wires[v] == k,
    )
}

/// The output wire ids of assertion gates (fresh wires outside the map).
pub open spec fn assert_out_ids(gates: Seq<Gate>) -> Set<nat>
    decreases gates.len(),
{
    if gates.len() == 0 {
        Set::empty()
    } else {
        assert_out_ids(gates.drop_last()).union(
            match gates.last() {
                Gate::Assert { output, left: _, right: _ } => set![output.id as nat],
                _ => Set::empty(),
            },
        )
    }
}

/// The builder's allocation invariant: distinct values hold distinct wire
/// ids, every handed-out id is below the counter, assertion outputs never
/// collide with mapped ids, and together they cover `0..counter` densely.
pub open spec fn synth_inv(st: SynthState) -> bool {
    &&& forall|v: ValId| #[trigger] st.wires.dom().contains(v) ==> st.wires[v] < st.counter
    &&& forall|v1: ValId, v2: ValId|
        st.wires.dom().contains(v1) && st.wires.dom().contains(v2) && v1 != v2
            ==> st.wires[v1] != st.wires[v2]
    &&& forall|k: nat| #[trigger] assert_out_ids(st.gates).contains(k) ==> k < st.counter
    &&& forall|k: nat|
        #[trigger] assert_out_ids(st.gates).contains(k) ==> !map_ids(st).contains(k)
    &&& forall|k: nat|
        k < st.counter ==> map_ids(st).contains(k) || assert_out_ids(st.gates).contains(k)
}

proof fn lemma_wire_of_inv(st: SynthState, v: ValId)
    requires
        synth_inv(st),
        st.counter < usize::MAX,
    ensures
        synth_inv(wire_of(st, v).0),
        wire_of(st, v).0.counter <= st.counter + 1,
        wire_of(st, v).0.gates == st.gates,
{
    let st2 = wire_of(st, v).0;
    if !st.wires.dom().contains(v) {
        assert forall|k: nat| k < st2.counter implies map_ids(st2).contains(k) || assert_out_ids(
            st2.gates,
        ).contains(k) by {
            if k < st.counter {
                if map_ids(st).contains(k) {
                    let u = choose|u: ValId| #[trigger] st.wires.dom().contains(u) && st.wires[u]
                        == k;
                    assert(st2.wires.dom().contains(u) && st2.wires[u] == k);
                    assert(map_ids(st2).contains(k));
                }
            } else {
                assert(st2.wires.dom().contains(v) && st2.wires[v] == k);
                assert(map_ids(st2).contains(k));
            }
        }
        assert forall|k: nat| #[trigger]
            assert_out_ids(st2.gates).contains(k) implies !map_ids(st2).contains(k) by {
            if map_ids(st2).contains(k) {
                let u = choose|u: ValId| #[trigger] st2.wires.dom().contains(u) && st2.wires[u]
                    == k;
                if u == v {
                    assert(k == st.counter);
                } else {
                    assert(st.wires.dom().contains(u) && st.wires[u] == k);
                    assert(map_ids(st).contains(k));
                }
            }
        }
    }
}

proof fn lemma_push_gate_ids(gates: Seq<Gate>, g: Gate)
    ensures
        assert_out_ids(gates.push(g)) == assert_out_ids(gates).union(
            match g {
                Gate::Assert { output, left: _, right: _ } => set![output.id as nat],
                _ => Set::<nat>::empty(),
            },
        ),
{
    assert(gates.push(g).drop_last() =~= gates);
    assert(gates.push(g).last() == g);
}

/// Pushing a gate does not disturb the map, and only an assertion gate adds
/// (its fresh output) to the allocated ids.
proof fn lemma_synth_instr_inv(st: SynthState, i: InstrView)
    requires
        synth_inv(st),
        st.counter + 3 <= usize::MAX,
    ensures
        synth_inv(synth_instr(st, i)),
        synth_instr(st, i).counter <= st.counter + 3,
{
    let st2 = synth_instr(st, i);
    match i {
        InstrView::Const(d, _) => {
            lemma_wire_of_inv(st, d);
            let sa = wire_of(st, d).0;
            lemma_push_gate_ids(sa.gates, st2.gates.last());
            assert(assert_out_ids(st2.gates) =~= assert_out_ids(sa.gates));
            assert(map_ids(st2) =~= map_ids(sa));
        },
        InstrView::Add(d, l, r) => {
            lemma_wire_of_inv(st, d);
            let sa = wire_of(st, d).0;
            lemma_wire_of_inv(sa, l);
            let sb = wire_of(sa, l).0;
            lemma_wire_of_inv(sb, r);
            let sc = wire_of(sb, r).0;
            lemma_push_gate_ids(sc.gates, st2.gates.last());
            assert(assert_out_ids(st2.gates) =~= assert_out_ids(sc.gates));
            assert(map_ids(st2) =~= map_ids(sc));
        },
        InstrView::Mul(d, l, r) => {
            lemma_wire_of_inv(st, d);
            let sa = wire_of(st, d).0;
            lemma_wire_of_inv(sa, l);
            let sb = wire_of(sa, l).0;
            lemma_wire_of_inv(sb, r);
            let sc = wire_of(sb, r).0;
            lemma_push_gate_ids(sc.gates, st2.gates.last());
            assert(assert_out_ids(st2.gates) =~= assert_out_ids(sc.gates));
            assert(map_ids(st2) =~= map_ids(sc));
        },
        InstrView::Assert(l, r) => {
            lemma_wire_of_inv(st, l);
            let sa = wire_of(st, l).0;
            lemma_wire_of_inv(sa, r);
            let sb = wire_of(sa, r).0;
            let sz = fresh_wire(sb).0;
            lemma_push_gate_ids(sb.gates, st2.gates.last());
            assert(map_ids(st2) =~= map_ids(sb));
            assert(assert_out_ids(st2.gates) =~= assert_out_ids(sb.gates).insert(
                sb.counter,
            ));
            assert forall|k: nat| #[trigger]
                assert_out_ids(st2.gates).contains(k) implies !map_ids(st2).contains(k) by {
                if k == sb.counter && map_ids(st2).contains(k) {
                    let u = choose|u: ValId| #[trigger] st2.wires.dom().contains(u)
                        && st2.wires[u] == k;
                }
            }
        },
    }
}

proof fn lemma_add_input_inv(st: SynthState, v: ValId, public: bool)
    requires
        synth_inv(st),
        st.counter < usize::MAX,
    ensures
        synth_inv(add_input(st, v, public)),
        add_input(st, v, public).counter <= st.counter + 1,
{
    lemma_wire_of_inv(st, v);
    let sa = wire_of(st, v).0;
    let st2 = add_input(st, v, public);
    assert(map_ids(st2) =~= map_ids(sa));
    assert(st2.gates == sa.gates);
}

proof fn lemma_add_inputs_inv(st: SynthState, vs: Seq<ValId>, public: bool)
    requires
        synth_inv(st),
        st.counter + vs.len() <= usize::MAX,
    ensures
        synth_inv(add_inputs(st, vs, public)),
        add_inputs(st, vs, public).counter <= st.counter + vs.len(),
    decreases vs.len(),
{
    if vs.len() > 0 {
        lemma_add_input_inv(st, vs[0], public);
        lemma_add_inputs_inv(add_input(st, vs[0], public), vs.drop_first(), public);
    }
}

proof fn lemma_synth_instrs_inv(st: SynthState, instrs: Seq<InstrView>)
    requires
        synth_inv(st),
        st.counter + 3 * instrs.len() <= usize::MAX,
    ensures
        synth_inv(synth_instrs(st, instrs)),
        synth_instrs(st, instrs).counter <= st.counter + 3 * instrs.len(),
    decreases instrs.len(),
{
    if instrs.len() > 0 {
        lemma_synth_instr_inv(st, instrs[0]);
        lemma_synth_instrs_inv(synth_instr(st, instrs[0]), instrs.drop_first());
    }
}

/// Wire uniqueness: in the finished builder state, distinct SSA values map
/// to distinct wires, every handed-out id lies below the counter, and the
/// mapped ids together with the assertion output ids cover `0..counter`
/// without collision — the wire ids form a contiguous range from 0.
pub proof fn lemma_wire_uniqueness(p: ProgView)
    requires
        wire_budget(p) <= usize::MAX,
    ensures
        synth_inv(synth_final(p).0),
        synth_final(p).0.wires.dom().contains(p.return_value),
{
    let st1 = add_inputs(synth_init(), p.public_inputs, true);
    let st2 = add_inputs(st1, p.private_inputs, false);
    let st3 = synth_instrs(st2, p.instructions);
    assert(synth_inv(synth_init()));
    lemma_add_inputs_inv(synth_init(), p.public_inputs, true);
    lemma_add_inputs_inv(st1, p.private_inputs, false);
    lemma_synth_instrs_inv(st2, p.instructions);
    lemma_wire_of_inv(st3, p.return_value);
}

/// Adding one more input equals extending the input list.
pub proof fn lemma_add_inputs_snoc(st: SynthState, vs: Seq<ValId>, v: ValId, public: bool)
    ensures
        add_inputs(st, vs.push(v), public) == add_input(add_inputs(st, vs, public), v, public),
    decreases vs.len(),
{
    if vs.len() == 0 {
        assert(vs.push(v)[0] == v);
        assert(vs.push(v).drop_first() =~= Seq::<ValId>::empty());
        assert(add_inputs(add_input(st, v, public), Seq::empty(), public) == add_input(
            st,
            v,
            public,
        ));
        assert(add_inputs(st, vs, public) == st);
    } else {
        assert(vs.push(v)[0] == vs[0]);
        assert(vs.push(v).drop_first() =~= vs.drop_first().push(v));
        lemma_add_inputs_snoc(add_input(st, vs[0], public), vs.drop_first(), v, public);
    }
}

// ---------------------------------------------------------------------------
// Lowering to rank-1 constraints.
// ---------------------------------------------------------------------------

pub open spec fn max2(a: int, b: int) -> int {
    if a >= b {
        a
    } else {
        b
    }
}

/// The largest wire id a gate mentions.
pub open spec fn gate_wire_max(g: Gate) -> int {
    match g {
        Gate::Const { output, value: _ } => output.id as int,
        Gate::Add { output, left, right } => max2(
            output.id as int,
            max2(left.id as int, right.id as int),
        ),
        Gate::Mul { output, left, right } => max2(
            output.id as int,
            max2(left.id as int, right.id as int),
        ),
        Gate::Assert { output, left, right } => max2(
            output.id as int,
            max2(left.id as int, right.id as int),
        ),
    }
}

/// The largest wire id a gate list mentions (-1 when empty).
pub open spec fn gates_wire_max(gs: Seq<Gate>) -> int
    decreases gs.len(),
{
    if gs.len() == 0 {
        -1
    } else {
        max2(gates_wire_max(gs.drop_last()), gate_wire_max(gs.last()))
    }
}

/// The largest wire id an input list mentions (-1 when empty).
pub open spec fn inputs_wire_max(is: Seq<(Seq<char>, Wire)>) -> int
    decreases is.len(),
{
    if is.len() == 0 {
        -1
    } else {
        max2(inputs_wire_max(is.drop_last()), is.last().1.id as int)
    }
}

/// The constraint vector width: one slot per wire id referenced anywhere,
/// including inputs and the output wire.
pub open spec fn num_wires_model(c: CircuitView) -> int {
    max2(
        max2(gates_wire_max(c.gates), inputs_wire_max(c.public_inputs)),
        max2(inputs_wire_max(c.private_inputs), c.output_wire.id as int),
    ) + 1
}

/// A row of zero coefficients.
pub open spec fn zero_row(n: nat) -> Seq<i32> {
    Seq::new(n, |i: int| 0i32)
}

/// The one constraint a gate lowers to: a linear gate is multiplied by the
/// constant-one slot 0; a product is natively bilinear; a constant pins its
/// output by multiplying slot 0 by the literal; an assertion forces
/// `left - right` into its own output slot.
pub open spec fn constraint_model(g: Gate, n: nat) -> ConstraintView {
    match g {
        Gate::Const { output, value } => ConstraintView {
            a: zero_row(n).update(0, 1i32),
            b: zero_row(n).update(0, value),
            c: zero_row(n).update(output.id as int, 1i32),
        },
        Gate::Mul { output, left, right } => ConstraintView {
            a: zero_row(n).update(left.id as int, 1i32),
            b: zero_row(n).update(right.id as int, 1i32),
            c: zero_row(n).update(output.id as int, 1i32),
        },
        Gate::Add { output, left, right } => ConstraintView {
            a: zero_row(n).update(left.id as int, 1i32).update(right.id as int, 1i32),
            b: zero_row(n).update(0, 1i32),
            c: zero_row(n).update(output.id as int, 1i32),
        },
        Gate::Assert { output, left, right } => ConstraintView {
            a: zero_row(n).update(left.id as int, 1i32).update(right.id as int, -1i32),
            b: zero_row(n).update(0, 1i32),
            c: zero_row(n).update(output.id as int, 1i32),
        },
    }
}

/// The system a circuit lowers to: one constraint per gate, in gate order.
pub open spec fn r1cs_model(c: CircuitView) -> R1csView {
    let n = num_wires_model(c) as nat;
    R1csView {
        num_constraints: c.gates.len(),
        num_variables: n,
        constraints: c.gates.map_values(|g: Gate| constraint_model(g, n)),
        public_inputs: c.public_inputs.map_values(|p: (Seq<char>, Wire)| (p.0, p.1.id as nat)),
        private_inputs: c.private_inputs.map_values(|p: (Seq<char>, Wire)| (p.0, p.1.id as nat)),
        output_wire: c.output_wire.id as nat,
    }
}

/// The output wire of a gate.
pub open spec fn gate_output(g: Gate) -> Wire {
    match g {
        Gate::Const { output, value: _ } => output,
        Gate::Add { output, left: _, right: _ } => output,
        Gate::Mul { output, left: _, right: _ } => output,
        Gate::Assert { output, left: _, right: _ } => output,
    }
}

/// Every gate's wires are bounded by the list maximum.
pub proof fn lemma_gates_max_elem(gs: Seq<Gate>, j: int)
    requires
        0 <= j < gs.len(),
    ensures
        gate_wire_max(gs[j]) <= gates_wire_max(gs),
    decreases gs.len(),
{
    if j < gs.len() - 1 {
        assert(gs.drop_last()[j] == gs[j]);
        lemma_gates_max_elem(gs.drop_last(), j);
    }
}

fn max_usize(a: usize, b: usize) -> (r: usize)
    ensures
        r as int == max2(a as int, b as int),
{
    if a >= b {
        a
    } else {
        b
    }
}

impl Circuit {
    /// Lowers the circuit to a rank-1 constraint system, one constraint per
    /// gate. The vector width (largest referenced wire id plus one) must fit
    /// the machine's word.
    pub fn to_r1cs(&self) -> (r: R1csSystem)
        requires
            num_wires_model(self@) <= usize::MAX,
        ensures
            r@ == r1cs_model(self@),
    {
        let ghost cv = self@;

        // The largest wire id referenced anywhere, then one slot per wire.
        let mut maxw = self.output_wire.id;
        let ngates = self.gates.len();
        for j in 0..ngates
            invariant
                ngates == self.gates.len(),
                self@ == cv,
                maxw as int == max2(cv.output_wire.id as int, gates_wire_max(
                    cv.gates.take(j as int),
                )),
        {
            proof {
                assert(cv.gates.take(j + 1).drop_last() =~= cv.gates.take(j as int));
                assert(cv.gates.take(j + 1).last() == cv.gates[j as int]);
            }
            match &self.gates[j] {
                Gate::Const { output, value: _ } => {
                    maxw = max_usize(maxw, output.id);
                },
                Gate::Add { output, left, right } => {
                    maxw = max_usize(maxw, max_usize(output.id, max_usize(left.id, right.id)));
                },
                Gate::Mul { output, left, right } => {
                    maxw = max_usize(maxw, max_usize(output.id, max_usize(left.id, right.id)));
                },
                Gate::Assert { output, left, right } => {
                    maxw = max_usize(maxw, max_usize(output.id, max_usize(left.id, right.id)));
                },
            }
        }
        proof {
            assert(cv.gates.take(ngates as int) =~= cv.gates);
        }
        let npub = self.public_inputs.len();
        for i in 0..npub
            invariant
                npub == self.public_inputs.len(),
                self@ == cv,
                maxw as int == max2(
                    max2(cv.output_wire.id as int, gates_wire_max(cv.gates)),
                    inputs_wire_max(cv.public_inputs.take(i as int)),
                ),
        {
            proof {
                assert(cv.public_inputs.take(i + 1).drop_last() =~= cv.public_inputs.take(
                    i as int,
                ));
                assert(cv.public_inputs.take(i + 1).last() == cv.public_inputs[i as int]);
            }
            maxw = max_usize(maxw, self.public_inputs[i].1.id);
        }
        proof {
            assert(cv.public_inputs.take(npub as int) =~= cv.public_inputs);
        }
        let npriv = self.private_inputs.len();
        for i in 0..npriv
            invariant
                npriv == self.private_inputs.len(),
                self@ == cv,
                maxw as int == max2(
                    max2(
                        max2(cv.output_wire.id as int, gates_wire_max(cv.gates)),
                        inputs_wire_max(cv.public_inputs),
                    ),
                    inputs_wire_max(cv.private_inputs.take(i as int)),
                ),
        {
            proof {
                assert(cv.private_inputs.take(i + 1).drop_last() =~= cv.private_inputs.take(
                    i as int,
                ));
                assert(cv.private_inputs.take(i + 1).last() == cv.private_inputs[i as int]);
            }
            maxw = max_usize(maxw, self.private_inputs[i].1.id);
        }
        proof {
            assert(cv.private_inputs.take(npriv as int) =~= cv.private_inputs);
            assert(maxw as int + 1 == num_wires_model(cv));
        }
        let num_wires = maxw + 1;
        let ghost n = num_wires as nat;

        let mut constraints: Vec<R1csConstraint> = Vec::new();
        for j in 0..ngates
            invariant
                ngates == self.gates.len(),
                self@ == cv,
                n == num_wires as nat,
                n == num_wires_model(cv),
                constraints@.len() == j,
                forall|k: int|
                    0 <= k < j ==> (#[trigger] constraints@[k])@ == constraint_model(
                        cv.gates[k],
                        n,
                    ),
        {
            proof {
                lemma_gates_max_elem(cv.gates, j as int);
                assert(cv.gates.take(j + 1) =~= cv.gates.take(j as int).push(cv.gates[j as int]));
            }
            let constraint = match &self.gates[j] {
                Gate::Const { output, value } => {
                    let mut a = vec![0i32; num_wires];
                    let mut b = vec![0i32; num_wires];
                    let mut c = vec![0i32; num_wires];
                    a[0] = 1;
                    b[0] = *value;
                    c[output.id] = 1;
                    R1csConstraint { a, b, c }
                },
                Gate::Mul { output, left, right } => {
                    let mut a = vec![0i32; num_wires];
                    let mut b = vec![0i32; num_wires];
                    let mut c = vec![0i32; num_wires];
                    a[left.id] = 1;
                    b[right.id] = 1;
                    c[output.id] = 1;
                    R1csConstraint { a, b, c }
                },
                Gate::Add { output, left, right } => {
                    let mut a = vec![0i32; num_wires];
                    let mut b = vec![0i32; num_wires];
                    let mut c = vec![0i32; num_wires];
                    a[left.id] = 1;
                    a[right.id] = 1;
                    b[0] = 1;
                    c[output.id] = 1;
                    R1csConstraint { a, b, c }
                },
                Gate::Assert { output, left, right } => {
                    let mut a = vec![0i32; num_wires];
                    let mut b = vec![0i32; num_wires];
                    let mut c = vec![0i32; num_wires];
                    a[left.id] = 1;
                    a[right.id] = -1;
                    b[0] = 1;
                    c[output.id] = 1;
                    R1csConstraint { a, b, c }
                },
            };
            proof {
                assert(constraint@ =~= constraint_model(cv.gates[j as int], n));
            }
            constraints.push(constraint);
        }
        let num_constraints = constraints.len();
        let mut public_inputs: Vec<(String, usize)> = Vec::new();
        for i in 0..npub
            invariant
                npub == self.public_inputs.len(),
                self@ == cv,
                public_inputs@.len() == i,
                forall|k: int|
                    0 <= k < i ==> ((#[trigger] public_inputs@[k]).0@, public_inputs@[k].1 as nat)
                        == (cv.public_inputs[k].0, cv.public_inputs[k].1.id as nat),
        {
            public_inputs.push((self.public_inputs[i].0.clone(), self.public_inputs[i].1.id));
        }
        let mut private_inputs: Vec<(String, usize)> = Vec::new();
        for i in 0..npriv
            invariant
                npriv == self.private_inputs.len(),
                self@ == cv,
                private_inputs@.len() == i,
                forall|k: int|
                    0 <= k < i ==> ((#[trigger] private_inputs@[k]).0@, private_inputs@[k].1 as nat)
                        == (cv.private_inputs[k].0, cv.private_inputs[k].1.id as nat),
        {
            private_inputs.push((self.private_inputs[i].0.clone(), self.private_inputs[i].1.id));
        }

        let r = R1csSystem {
            num_constraints,
            num_variables: num_wires,
            constraints,
            public_inputs,
            private_inputs,
            output_wire: self.output_wire.id,
        };
        proof {
            assert(r@.constraints =~= r1cs_model(cv).constraints);
            assert(r@.public_inputs =~= r1cs_model(cv).public_inputs);
            assert(r@.private_inputs =~= r1cs_model(cv).private_inputs);
            assert(r@ =~= r1cs_model(cv));
        }
        r
    }
}

/// Converting one more instruction equals extending the instruction list.
pub proof fn lemma_synth_instrs_snoc(st: SynthState, instrs: Seq<InstrView>, i: InstrView)
    ensures
        synth_instrs(st, instrs.push(i)) == synth_instr(synth_instrs(st, instrs), i),
    decreases instrs.len(),
{
    if instrs.len() == 0 {
        assert(instrs.push(i)[0] == i);
        assert(instrs.push(i).drop_first() =~= Seq::<InstrView>::empty());
        assert(synth_instrs(synth_instr(st, i), Seq::empty()) == synth_instr(st, i));
        assert(synth_instrs(st, instrs) == st);
    } else {
        assert(instrs.push(i)[0] == instrs[0]);
        assert(instrs.push(i).drop_first() =~= instrs.drop_first().push(i));
        lemma_synth_instrs_snoc(synth_instr(st, instrs[0]), instrs.drop_first(), i);
    }
}

} // verus!
