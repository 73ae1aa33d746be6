//! Optimization passes over the SSA value graph: constant folding and
//! dead-code elimination. Both consume one program and produce a new one.

use crate::ssa::InstrView;
use crate::ssa::ProgView;
use crate::ssa::SsaInstruction;
use crate::ssa::SsaProgram;
use crate::ssa::SsaValue;
use crate::ssa::ValId;
use crate::ssa::dup;
use crate::ssa::same_value;
use vstd::prelude::*;

verus! {

// ---------------------------------------------------------------------------
// Constant folding.
// ---------------------------------------------------------------------------

/// The known-constants map as a mathematical map; a later entry for the same
/// identity shadows an earlier one.
pub open spec fn cmap(s: Seq<(SsaValue, i32)>) -> Map<ValId, i32>
    decreases s.len(),
{
    if s.len() == 0 {
        Map::empty()
    } else {
        cmap(s.drop_last()).insert(s.last().0@, s.last().1)
    }
}

/// Effect of folding one instruction under the constants known so far.
/// Arithmetic on two known constants collapses to a `Const` of the wrapping
/// result (all arithmetic of this compiler wraps around on overflow); the
/// instruction is otherwise kept unchanged. Folding a `Const` records its
/// value; an unknown operand leaves the destination unrecorded.
pub open spec fn fold_step(consts: Map<ValId, i32>, i: InstrView) -> (Map<ValId, i32>, InstrView) {
    match i {
        InstrView::Const(d, v) => (consts.insert(d, v), i),
        InstrView::Add(d, l, r) => {
            if consts.dom().contains(l) && consts.dom().contains(r) {
                let v = consts[l].wrapping_add(consts[r]);
                (consts.insert(d, v), InstrView::Const(d, v))
            } else {
                (consts, i)
            }
        },
        InstrView::Mul(d, l, r) => {
            if consts.dom().contains(l) && consts.dom().contains(r) {
                let v = consts[l].wrapping_mul(consts[r]);
                (consts.insert(d, v), InstrView::Const(d, v))
            } else {
                (consts, i)
            }
        },
        InstrView::Assert(_, _) => (consts, i),
    }
}

/// Folding of a whole instruction list, in order.
pub open spec fn fold_instrs(consts: Map<ValId, i32>, instrs: Seq<InstrView>) -> (
    Map<ValId, i32>,
    Seq<InstrView>,
)
    decreases instrs.len(),
{
    if instrs.len() == 0 {
        (consts, Seq::empty())
    } else {
        let s0 = fold_step(consts, instrs[0]);
        let rest = fold_instrs(s0.0, instrs.drop_first());
        (rest.0, seq![s0.1] + rest.1)
    }
}

/// The folded image of a whole program: instructions are rewritten in place,
/// everything else is unchanged.
pub open spec fn fold_model(p: ProgView) -> ProgView {
    ProgView { instructions: fold_instrs(Map::empty(), p.instructions).1, ..p }
}

/// Folding a list and then one more instruction equals folding the extended
/// list.
pub proof fn lemma_fold_snoc(consts: Map<ValId, i32>, instrs: Seq<InstrView>, i: InstrView)
    ensures
        fold_instrs(consts, instrs.push(i)) == {
            let p = fold_instrs(consts, instrs);
            let s = fold_step(p.0, i);
            (s.0, p.1.push(s.1))
        },
    decreases instrs.len(),
{
    if instrs.len() == 0 {
        assert(instrs.push(i)[0] == i);
        assert(instrs.push(i).drop_first() =~= Seq::<InstrView>::empty());
        let s = fold_step(consts, i);
        assert(fold_instrs(s.0, Seq::<InstrView>::empty()) == (
            s.0,
            Seq::<InstrView>::empty(),
        ));
        assert(seq![s.1] + Seq::<InstrView>::empty() =~= fold_instrs(
            consts,
            instrs,
        ).1.push(s.1));
    } else {
        assert(instrs.push(i)[0] == instrs[0]);
        assert(instrs.push(i).drop_first() =~= instrs.drop_first().push(i));
        let s0 = fold_step(consts, instrs[0]);
        lemma_fold_snoc(s0.0, instrs.drop_first(), i);
        let p = fold_instrs(s0.0, instrs.drop_first());
        let s = fold_step(p.0, i);
        assert(seq![s0.1] + p.1.push(s.1) =~= (seq![s0.1] + p.1).push(s.1));
    }
}

/// Folding preserves the instruction count: it only rewrites a node's tag,
/// never its position.
pub proof fn lemma_fold_preserves_count(consts: Map<ValId, i32>, instrs: Seq<InstrView>)
    ensures
        fold_instrs(consts, instrs).1.len() == instrs.len(),
    decreases instrs.len(),
{
    if instrs.len() > 0 {
        let s0 = fold_step(consts, instrs[0]);
        lemma_fold_preserves_count(s0.0, instrs.drop_first());
    }
}

/// The folded list is pointwise the fold of each instruction under the
/// constants discovered on the earlier instructions.
pub proof fn lemma_fold_pointwise(consts: Map<ValId, i32>, instrs: Seq<InstrView>, i: int)
    requires
        0 <= i < instrs.len(),
    ensures
        fold_instrs(consts, instrs).1[i] == fold_step(
            fold_instrs(consts, instrs.take(i)).0,
            instrs[i],
        ).1,
    decreases instrs.len(),
{
    let s0 = fold_step(consts, instrs[0]);
    let rest = fold_instrs(s0.0, instrs.drop_first());
    lemma_fold_preserves_count(s0.0, instrs.drop_first());
    if i == 0 {
        assert(instrs.take(0) =~= Seq::<InstrView>::empty());
        assert((seq![s0.1] + rest.1)[0] == s0.1);
    } else {
        lemma_fold_pointwise(s0.0, instrs.drop_first(), i - 1);
        assert(instrs.drop_first().take(i - 1) =~= instrs.take(i).drop_first());
        assert(instrs.take(i)[0] == instrs[0]);
        assert((seq![s0.1] + rest.1)[i] == rest.1[i - 1]);
        assert(instrs.drop_first()[i - 1] == instrs[i]);
    }
}

/// Folding soundness: where both operands of a sum or product are known
/// constants, the folded instruction is a `Const` of the destination whose
/// value is the (wrapping) arithmetic applied to those constants.
pub proof fn lemma_folding_sound(instrs: Seq<InstrView>, i: int)
    requires
        0 <= i < instrs.len(),
    ensures
        ({
            let m = fold_instrs(Map::empty(), instrs.take(i)).0;
            &&& (instrs[i] matches InstrView::Add(d, l, r) ==> m.dom().contains(l)
                && m.dom().contains(r) ==> fold_instrs(Map::empty(), instrs).1[i]
                == InstrView::Const(d, m[l].wrapping_add(m[r])))
            &&& (instrs[i] matches InstrView::Mul(d, l, r) ==> m.dom().contains(l)
                && m.dom().contains(r) ==> fold_instrs(Map::empty(), instrs).1[i]
                == InstrView::Const(d, m[l].wrapping_mul(m[r])))
        }),
{
    lemma_fold_pointwise(Map::empty(), instrs, i);
}

// ---------------------------------------------------------------------------
// Dead-code elimination: the value-graph closures.
// ---------------------------------------------------------------------------

/// The destination an instruction defines, if any.
pub open spec fn dest_of(i: InstrView) -> Option<ValId> {
    match i {
        InstrView::Const(d, _) => Some(d),
        InstrView::Add(d, _, _) => Some(d),
        InstrView::Mul(d, _, _) => Some(d),
        InstrView::Assert(_, _) => None,
    }
}

/// The values an instruction reads.
pub open spec fn operands_of(i: InstrView) -> Set<ValId> {
    match i {
        InstrView::Const(_, _) => Set::empty(),
        InstrView::Add(_, l, r) => set![l, r],
        InstrView::Mul(_, l, r) => set![l, r],
        InstrView::Assert(l, r) => set![l, r],
    }
}

/// Whether some operand of the instruction lies in `s`.
pub open spec fn reads_from(ins: InstrView, s: Set<ValId>) -> bool {
    exists|o: ValId| #[trigger] operands_of(ins).contains(o) && s.contains(o)
}

/// Forward closedness: every instruction reading a member defines a member.
pub open spec fn fwd_closed(instrs: Seq<InstrView>, s: Set<ValId>) -> bool {
    forall|ins: InstrView|
        #[trigger] instrs.contains(ins) ==> (dest_of(ins) matches Some(d) ==> reads_from(ins, s)
            ==> s.contains(d))
}

/// Backward closedness: every instruction defining a member reads only members.
pub open spec fn bwd_closed(instrs: Seq<InstrView>, s: Set<ValId>) -> bool {
    forall|ins: InstrView|
        #[trigger] instrs.contains(ins) ==> (dest_of(ins) matches Some(d) ==> s.contains(d)
            ==> operands_of(ins).subset_of(s))
}

/// One forward propagation step.
pub open spec fn fwd_step(instrs: Seq<InstrView>, s: Set<ValId>) -> Set<ValId> {
    Set::new(
        |v: ValId|
            s.contains(v) || exists|ins: InstrView|
                #[trigger] instrs.contains(ins) && dest_of(ins) == Some(v) && reads_from(ins, s),
    )
}

/// One backward propagation step.
pub open spec fn bwd_step(instrs: Seq<InstrView>, s: Set<ValId>) -> Set<ValId> {
    Set::new(
        |v: ValId|
            s.contains(v) || exists|ins: InstrView|
                #[trigger] instrs.contains(ins) && (dest_of(ins) matches Some(d) && s.contains(d))
                    && operands_of(ins).contains(v),
    )
}

pub open spec fn fwd_iter(instrs: Seq<InstrView>, seeds: Set<ValId>, n: nat) -> Set<ValId>
    decreases n,
{
    if n == 0 {
        seeds
    } else {
        fwd_step(instrs, fwd_iter(instrs, seeds, (n - 1) as nat))
    }
}

pub open spec fn bwd_iter(instrs: Seq<InstrView>, seeds: Set<ValId>, n: nat) -> Set<ValId>
    decreases n,
{
    if n == 0 {
        seeds
    } else {
        bwd_step(instrs, bwd_iter(instrs, seeds, (n - 1) as nat))
    }
}

/// The least set of values containing `seeds` and closed forward.
pub open spec fn fwd_closure(instrs: Seq<InstrView>, seeds: Set<ValId>) -> Set<ValId> {
    Set::new(|v: ValId| exists|n: nat| fwd_iter(instrs, seeds, n).contains(v))
}

/// The least set of values containing `seeds` and closed backward.
pub open spec fn bwd_closure(instrs: Seq<InstrView>, seeds: Set<ValId>) -> Set<ValId> {
    Set::new(|v: ValId| exists|n: nat| bwd_iter(instrs, seeds, n).contains(v))
}

pub proof fn lemma_fwd_closure_seeds(instrs: Seq<InstrView>, seeds: Set<ValId>)
    ensures
        seeds.subset_of(fwd_closure(instrs, seeds)),
{
    assert forall|v: ValId| seeds.contains(v) implies fwd_closure(instrs, seeds).contains(v) by {
        assert(fwd_iter(instrs, seeds, 0).contains(v));
    }
}

pub proof fn lemma_bwd_closure_seeds(instrs: Seq<InstrView>, seeds: Set<ValId>)
    ensures
        seeds.subset_of(bwd_closure(instrs, seeds)),
{
    assert forall|v: ValId| seeds.contains(v) implies bwd_closure(instrs, seeds).contains(v) by {
        assert(bwd_iter(instrs, seeds, 0).contains(v));
    }
}

pub proof fn lemma_fwd_closure_closed(instrs: Seq<InstrView>, seeds: Set<ValId>)
    ensures
        fwd_closed(instrs, fwd_closure(instrs, seeds)),
{
    let c = fwd_closure(instrs, seeds);
    assert forall|ins: InstrView|
        #[trigger] instrs.contains(ins) implies (dest_of(ins) matches Some(d) ==> reads_from(
        ins,
        c,
    ) ==> c.contains(d)) by {
        if dest_of(ins) is Some && reads_from(ins, c) {
            let d = dest_of(ins)->Some_0;
            let o = choose|o: ValId| #[trigger] operands_of(ins).contains(o) && c.contains(o);
            let n = choose|n: nat| fwd_iter(instrs, seeds, n).contains(o);
            assert(reads_from(ins, fwd_iter(instrs, seeds, n)));
            assert(fwd_iter(instrs, seeds, n + 1).contains(d));
        }
    }
}

pub proof fn lemma_bwd_closure_closed(instrs: Seq<InstrView>, seeds: Set<ValId>)
    ensures
        bwd_closed(instrs, bwd_closure(instrs, seeds)),
{
    let c = bwd_closure(instrs, seeds);
    assert forall|ins: InstrView|
        #[trigger] instrs.contains(ins) implies (dest_of(ins) matches Some(d) ==> c.contains(d)
        ==> operands_of(ins).subset_of(c)) by {
        if dest_of(ins) is Some {
            let d = dest_of(ins)->Some_0;
            if c.contains(d) {
                let n = choose|n: nat| bwd_iter(instrs, seeds, n).contains(d);
                assert forall|v: ValId| operands_of(ins).contains(v) implies c.contains(v) by {
                    assert(bwd_iter(instrs, seeds, n + 1).contains(v));
                }
            }
        }
    }
}

proof fn lemma_fwd_iter_min(instrs: Seq<InstrView>, seeds: Set<ValId>, s2: Set<ValId>, n: nat)
    requires
        seeds.subset_of(s2),
        fwd_closed(instrs, s2),
    ensures
        fwd_iter(instrs, seeds, n).subset_of(s2),
    decreases n,
{
    if n > 0 {
        let prev = fwd_iter(instrs, seeds, (n - 1) as nat);
        lemma_fwd_iter_min(instrs, seeds, s2, (n - 1) as nat);
        assert forall|v: ValId| fwd_iter(instrs, seeds, n).contains(v) implies s2.contains(v) by {
            if !prev.contains(v) {
                let ins = choose|ins: InstrView|
                    #[trigger] instrs.contains(ins) && dest_of(ins) == Some(v) && reads_from(
                        ins,
                        prev,
                    );
                let o = choose|o: ValId| #[trigger] operands_of(ins).contains(o) && prev.contains(
                    o,
                );
                assert(s2.contains(o));
                assert(reads_from(ins, s2));
            }
        }
    }
}

/// The forward closure is the least forward-closed superset of the seeds.
pub proof fn lemma_fwd_closure_min(instrs: Seq<InstrView>, seeds: Set<ValId>, s2: Set<ValId>)
    requires
        seeds.subset_of(s2),
        fwd_closed(instrs, s2),
    ensures
        fwd_closure(instrs, seeds).subset_of(s2),
{
    assert forall|v: ValId| fwd_closure(instrs, seeds).contains(v) implies s2.contains(v) by {
        let n = choose|n: nat| fwd_iter(instrs, seeds, n).contains(v);
        lemma_fwd_iter_min(instrs, seeds, s2, n);
    }
}

proof fn lemma_bwd_iter_min(instrs: Seq<InstrView>, seeds: Set<ValId>, s2: Set<ValId>, n: nat)
    requires
        seeds.subset_of(s2),
        bwd_closed(instrs, s2),
    ensures
        bwd_iter(instrs, seeds, n).subset_of(s2),
    decreases n,
{
    if n > 0 {
        let prev = bwd_iter(instrs, seeds, (n - 1) as nat);
        lemma_bwd_iter_min(instrs, seeds, s2, (n - 1) as nat);
        assert forall|v: ValId| bwd_iter(instrs, seeds, n).contains(v) implies s2.contains(v) by {
            if !prev.contains(v) {
                let ins = choose|ins: InstrView|
                    #[trigger] instrs.contains(ins) && (dest_of(ins) matches Some(d)
                        && prev.contains(d)) && operands_of(ins).contains(v);
                let d = dest_of(ins)->Some_0;
                assert(s2.contains(d));
            }
        }
    }
}

/// The backward closure is the least backward-closed superset of the seeds.
pub proof fn lemma_bwd_closure_min(instrs: Seq<InstrView>, seeds: Set<ValId>, s2: Set<ValId>)
    requires
        seeds.subset_of(s2),
        bwd_closed(instrs, s2),
    ensures
        bwd_closure(instrs, seeds).subset_of(s2),
{
    assert forall|v: ValId| bwd_closure(instrs, seeds).contains(v) implies s2.contains(v) by {
        let n = choose|n: nat| bwd_iter(instrs, seeds, n).contains(v);
        lemma_bwd_iter_min(instrs, seeds, s2, n);
    }
}

// ---------------------------------------------------------------------------
// Dead-code elimination: the model.
// ---------------------------------------------------------------------------

/// The identities of the declared inputs.
pub open spec fn input_ids(p: ProgView) -> Set<ValId> {
    p.public_inputs.to_set().union(p.private_inputs.to_set())
}

/// The values read by assertion instructions; assertions are constraints with
/// no destination, so they and their operands are always retained.
pub open spec fn assert_reads(instrs: Seq<InstrView>) -> Set<ValId>
    decreases instrs.len(),
{
    if instrs.len() == 0 {
        Set::empty()
    } else {
        assert_reads(instrs.drop_last()).union(
            if instrs.last() is Assert {
                operands_of(instrs.last())
            } else {
                Set::empty()
            },
        )
    }
}

/// The input-dependent values: the forward closure of the declared inputs.
/// These must materialize as wires even when locally foldable, since the
/// witness pass must be able to bind external values to them.
pub open spec fn input_dependent(p: ProgView) -> Set<ValId> {
    fwd_closure(p.instructions, input_ids(p))
}

/// What seeds liveness: the inputs, the return value, everything
/// input-dependent, and the operands of assertions.
pub open spec fn live_seeds(p: ProgView) -> Set<ValId> {
    input_ids(p).insert(p.return_value).union(input_dependent(p)).union(
        assert_reads(p.instructions),
    )
}

/// The used values: the backward closure of the liveness seeds.
pub open spec fn live(p: ProgView) -> Set<ValId> {
    bwd_closure(p.instructions, live_seeds(p))
}

/// Whether an instruction survives elimination under a used set: an
/// instruction survives exactly when its destination is used; an assertion
/// (which has none) always survives.
pub open spec fn keep_instr(i: InstrView, used: Set<ValId>) -> bool {
    match dest_of(i) {
        Some(d) => used.contains(d),
        None => true,
    }
}

/// The surviving instructions, in their original relative order.
pub open spec fn kept_instrs(instrs: Seq<InstrView>, used: Set<ValId>) -> Seq<InstrView>
    decreases instrs.len(),
{
    if instrs.len() == 0 {
        Seq::empty()
    } else {
        kept_instrs(instrs.drop_last(), used) + if keep_instr(instrs.last(), used) {
            seq![instrs.last()]
        } else {
            Seq::empty()
        }
    }
}

/// The eliminated image of a whole program: only the instructions whose
/// destination is live are retained; everything else is unchanged.
pub open spec fn dce_model(p: ProgView) -> ProgView {
    ProgView { instructions: kept_instrs(p.instructions, live(p)), ..p }
}

// ---------------------------------------------------------------------------
// Dead-code elimination: supporting lemmas and executable set helpers.
// ---------------------------------------------------------------------------

/// The identities of a value list.
pub open spec fn id_seq(s: Seq<SsaValue>) -> Seq<ValId> {
    s.map_values(|v: SsaValue| v@)
}

/// A membership characterization of `assert_reads`.
pub proof fn lemma_assert_reads_member(instrs: Seq<InstrView>, v: ValId)
    ensures
        assert_reads(instrs).contains(v) <==> exists|ins: InstrView|
            #[trigger] instrs.contains(ins) && ins is Assert && operands_of(ins).contains(v),
    decreases instrs.len(),
{
    if instrs.len() == 0 {
    } else {
        let pre = instrs.drop_last();
        lemma_assert_reads_member(pre, v);
        assert forall|ins: InstrView| pre.contains(ins) implies instrs.contains(ins) by {
            let i = choose|i: int| 0 <= i < pre.len() && pre[i] == ins;
            assert(instrs[i] == ins);
        }
        if assert_reads(instrs).contains(v) {
            if instrs.last() is Assert && operands_of(instrs.last()).contains(v) {
                assert(instrs.contains(instrs.last()));
            }
        }
        if exists|ins: InstrView|
            #[trigger] instrs.contains(ins) && ins is Assert && operands_of(ins).contains(v) {
            let ins = choose|ins: InstrView|
                #[trigger] instrs.contains(ins) && ins is Assert && operands_of(ins).contains(v);
            let i = choose|i: int| 0 <= i < instrs.len() && instrs[i] == ins;
            if i < instrs.len() - 1 {
                assert(pre[i] == ins);
                assert(pre.contains(ins));
            } else {
                assert(instrs.last() == ins);
            }
        }
    }
}

/// All values an instruction list mentions, as one sequence.
pub open spec fn vals_of_instr(i: InstrView) -> Seq<ValId> {
    match i {
        InstrView::Const(d, _) => seq![d],
        InstrView::Add(d, l, r) => seq![d, l, r],
        InstrView::Mul(d, l, r) => seq![d, l, r],
        InstrView::Assert(l, r) => seq![l, r],
    }
}

pub open spec fn vals_of_instrs(instrs: Seq<InstrView>) -> Seq<ValId>
    decreases instrs.len(),
{
    if instrs.len() == 0 {
        Seq::empty()
    } else {
        vals_of_instrs(instrs.drop_last()) + vals_of_instr(instrs.last())
    }
}

/// Every destination and operand of a contained instruction is mentioned.
proof fn lemma_vals_cover(instrs: Seq<InstrView>, ins: InstrView)
    requires
        instrs.contains(ins),
    ensures
        dest_of(ins) matches Some(d) ==> vals_of_instrs(instrs).contains(d),
        forall|o: ValId| operands_of(ins).contains(o) ==> vals_of_instrs(instrs).contains(o),
    decreases instrs.len(),
{
    let pre = instrs.drop_last();
    let i = choose|i: int| 0 <= i < instrs.len() && instrs[i] == ins;
    if i < instrs.len() - 1 {
        assert(pre[i] == ins);
        assert(pre.contains(ins));
        lemma_vals_cover(pre, ins);
        assert forall|v: ValId| vals_of_instrs(pre).contains(v) implies vals_of_instrs(
            instrs,
        ).contains(v) by {
            let k = choose|k: int| 0 <= k < vals_of_instrs(pre).len() && vals_of_instrs(pre)[k]
                == v;
            assert(vals_of_instrs(instrs)[k] == v);
        }
    } else {
        assert(instrs.last() == ins);
        let base = vals_of_instrs(pre).len() as int;
        assert forall|v: ValId| vals_of_instr(ins).contains(v) implies vals_of_instrs(
            instrs,
        ).contains(v) by {
            let k = choose|k: int| 0 <= k < vals_of_instr(ins).len() && vals_of_instr(ins)[k] == v;
            assert(vals_of_instrs(instrs)[base + k] == v);
        }
        match ins {
            InstrView::Const(d, _) => {
                assert(vals_of_instr(ins)[0] == d);
                assert(vals_of_instr(ins).contains(d));
            },
            InstrView::Add(d, l, r) => {
                assert(vals_of_instr(ins)[0] == d && vals_of_instr(ins)[1] == l && vals_of_instr(
                    ins,
                )[2] == r);
                assert(vals_of_instr(ins).contains(d) && vals_of_instr(ins).contains(l)
                    && vals_of_instr(ins).contains(r));
            },
            InstrView::Mul(d, l, r) => {
                assert(vals_of_instr(ins)[0] == d && vals_of_instr(ins)[1] == l && vals_of_instr(
                    ins,
                )[2] == r);
                assert(vals_of_instr(ins).contains(d) && vals_of_instr(ins).contains(l)
                    && vals_of_instr(ins).contains(r));
            },
            InstrView::Assert(l, r) => {
                assert(vals_of_instr(ins)[0] == l && vals_of_instr(ins)[1] == r);
                assert(vals_of_instr(ins).contains(l) && vals_of_instr(ins).contains(r));
            },
        }
    }
}

/// The pool every value handled by the eliminator comes from: declared
/// inputs, the return value, and everything the instructions mention.
pub open spec fn value_pool(p: ProgView) -> Seq<ValId> {
    p.public_inputs + p.private_inputs + seq![p.return_value] + vals_of_instrs(p.instructions)
}

/// A duplicate-free sequence drawn from a pool is no longer than the pool.
proof fn lemma_distinct_in_pool(s: Seq<ValId>, pool: Seq<ValId>)
    requires
        s.no_duplicates(),
        forall|i: int| 0 <= i < s.len() ==> pool.contains(#[trigger] s[i]),
    ensures
        s.len() <= pool.len(),
{
    broadcast use vstd::seq_lib::seq_to_set_is_finite;

    s.unique_seq_to_set();
    pool.lemma_cardinality_of_set();
    assert(s.to_set().subset_of(pool.to_set()));
    vstd::set_lib::lemma_len_subset(s.to_set(), pool.to_set());
}

/// Whether the list holds a value of this identity.
fn contains_value(vs: &Vec<SsaValue>, x: &SsaValue) -> (r: bool)
    ensures
        r == id_seq(vs@).contains(x@),
{
    let n = vs.len();
    for j in 0..n
        invariant
            n == vs.len(),
            forall|k: int| 0 <= k < j ==> id_seq(vs@)[k] != x@,
    {
        if same_value(&vs[j], x) {
            proof {
                assert(id_seq(vs@)[j as int] == x@);
            }
            return true;
        }
    }
    proof {
        assert forall|k: int| 0 <= k < vs@.len() implies id_seq(vs@)[k] != x@ by {}
        if id_seq(vs@).contains(x@) {
            let k = choose|k: int| 0 <= k < id_seq(vs@).len() && id_seq(vs@)[k] == x@;
            assert(false);
        }
    }
    false
}

/// Inserts a value if no value of the same identity is present.
fn insert_value(vs: &mut Vec<SsaValue>, x: &SsaValue) -> (added: bool)
    ensures
        added == !id_seq(old(vs)@).contains(x@),
        id_seq(final(vs)@) == if added {
            id_seq(old(vs)@).push(x@)
        } else {
            id_seq(old(vs)@)
        },
        id_seq(final(vs)@).to_set() == id_seq(old(vs)@).to_set().insert(x@),
        id_seq(old(vs)@).no_duplicates() ==> id_seq(final(vs)@).no_duplicates(),
        final(vs)@.len() == old(vs)@.len() + if added {
            1int
        } else {
            0int
        },
{
    if contains_value(vs, x) {
        proof {
            assert(id_seq(vs@).to_set().contains(x@));
            assert(id_seq(vs@).to_set() =~= id_seq(vs@).to_set().insert(x@));
        }
        false
    } else {
        vs.push(dup(x));
        proof {
            assert(id_seq(vs@) =~= id_seq(old(vs)@).push(x@));
            id_seq(old(vs)@).lemma_push_to_set_commute(x@);
            assert(id_seq(vs@).to_set() =~= id_seq(old(vs)@).to_set().insert(x@));
            if id_seq(old(vs)@).no_duplicates() {
                assert forall|i: int, j: int|
                    0 <= i < j < id_seq(vs@).len() implies id_seq(vs@)[i] != id_seq(vs@)[j] by {
                    if j == id_seq(vs@).len() - 1 {
                        assert(id_seq(old(vs)@)[i] == id_seq(vs@)[i]);
                    }
                }
            }
        }
        true
    }
}

/// Copies an instruction; the copy has the same image.
fn dup_instr(i: &SsaInstruction) -> (r: SsaInstruction)
    ensures
        r@ == i@,
{
    match i {
        SsaInstruction::Const(d, v) => SsaInstruction::Const(dup(d), *v),
        SsaInstruction::Add(d, l, r) => SsaInstruction::Add(dup(d), dup(l), dup(r)),
        SsaInstruction::Mul(d, l, r) => SsaInstruction::Mul(dup(d), dup(l), dup(r)),
        SsaInstruction::Assert(l, r) => SsaInstruction::Assert(dup(l), dup(r)),
    }
}

/// Membership in the surviving instructions: exactly the contained
/// instructions that the used set keeps.
pub proof fn lemma_kept_member(instrs: Seq<InstrView>, used: Set<ValId>, ins: InstrView)
    ensures
        kept_instrs(instrs, used).contains(ins) <==> (instrs.contains(ins) && keep_instr(
            ins,
            used,
        )),
    decreases instrs.len(),
{
    if instrs.len() == 0 {
    } else {
        let pre = instrs.drop_last();
        let kpre = kept_instrs(pre, used);
        lemma_kept_member(pre, used, ins);
        assert forall|x: InstrView| pre.contains(x) implies instrs.contains(x) by {
            let i = choose|i: int| 0 <= i < pre.len() && pre[i] == x;
            assert(instrs[i] == x);
        }
        if kept_instrs(instrs, used).contains(ins) {
            let i = choose|i: int|
                0 <= i < kept_instrs(instrs, used).len() && kept_instrs(instrs, used)[i] == ins;
            if i < kpre.len() {
                assert(kpre[i] == ins);
                assert(kpre.contains(ins));
            } else {
                assert(ins == instrs.last());
                assert(instrs.contains(instrs.last()));
            }
        }
        if instrs.contains(ins) && keep_instr(ins, used) {
            let i = choose|i: int| 0 <= i < instrs.len() && instrs[i] == ins;
            if i < instrs.len() - 1 {
                assert(pre[i] == ins);
                assert(pre.contains(ins));
                let k = choose|k: int| 0 <= k < kpre.len() && kpre[k] == ins;
                assert(kept_instrs(instrs, used)[k] == ins);
            } else {
                assert(ins == instrs.last());
                let k = kpre.len() as int;
                assert(kept_instrs(instrs, used)[k] == ins);
            }
            assert(kept_instrs(instrs, used).contains(ins));
        }
    }
}

/// Every surviving instruction satisfies the keep condition.
proof fn lemma_kept_all_keep(instrs: Seq<InstrView>, used: Set<ValId>, k: int)
    requires
        0 <= k < kept_instrs(instrs, used).len(),
    ensures
        keep_instr(kept_instrs(instrs, used)[k], used),
    decreases instrs.len(),
{
    if instrs.len() > 0 {
        let pre = instrs.drop_last();
        if k < kept_instrs(pre, used).len() {
            lemma_kept_all_keep(pre, used, k);
        }
    }
}

/// Filtering a list whose every element is kept changes nothing.
proof fn lemma_kept_noop(t: Seq<InstrView>, used: Set<ValId>)
    requires
        forall|k: int| 0 <= k < t.len() ==> keep_instr(#[trigger] t[k], used),
    ensures
        kept_instrs(t, used) == t,
    decreases t.len(),
{
    if t.len() > 0 {
        lemma_kept_noop(t.drop_last(), used);
        assert(kept_instrs(t, used) =~= t);
    }
}

/// Forward closures grow with their instruction lists and seeds.
proof fn lemma_fwd_closure_mono(
    i1: Seq<InstrView>,
    i2: Seq<InstrView>,
    s1: Set<ValId>,
    s2: Set<ValId>,
)
    requires
        forall|ins: InstrView| i1.contains(ins) ==> i2.contains(ins),
        s1.subset_of(s2),
    ensures
        fwd_closure(i1, s1).subset_of(fwd_closure(i2, s2)),
{
    lemma_fwd_closure_seeds(i2, s2);
    lemma_fwd_closure_closed(i2, s2);
    assert(fwd_closed(i1, fwd_closure(i2, s2)));
    lemma_fwd_closure_min(i1, s1, fwd_closure(i2, s2));
}

/// Backward closures grow with their instruction lists and seeds.
proof fn lemma_bwd_closure_mono(
    i1: Seq<InstrView>,
    i2: Seq<InstrView>,
    s1: Set<ValId>,
    s2: Set<ValId>,
)
    requires
        forall|ins: InstrView| i1.contains(ins) ==> i2.contains(ins),
        s1.subset_of(s2),
    ensures
        bwd_closure(i1, s1).subset_of(bwd_closure(i2, s2)),
{
    lemma_bwd_closure_seeds(i2, s2);
    lemma_bwd_closure_closed(i2, s2);
    assert(bwd_closed(i1, bwd_closure(i2, s2)));
    lemma_bwd_closure_min(i1, s1, bwd_closure(i2, s2));
}

/// One instruction's forward rule under a set: reading a member defines one.
pub open spec fn instr_rule_fwd(ins: InstrView, s: Set<ValId>) -> bool {
    dest_of(ins) matches Some(d) ==> reads_from(ins, s) ==> s.contains(d)
}

/// One instruction's backward rule under a set: defining a member reads only
/// members.
pub open spec fn instr_rule_bwd(ins: InstrView, s: Set<ValId>) -> bool {
    dest_of(ins) matches Some(d) ==> s.contains(d) ==> operands_of(ins).subset_of(s)
}

/// Every value in the pool's four parts is in the pool.
proof fn lemma_pool_covers(p: ProgView, v: ValId)
    ensures
        p.public_inputs.contains(v) ==> value_pool(p).contains(v),
        p.private_inputs.contains(v) ==> value_pool(p).contains(v),
        value_pool(p).contains(p.return_value),
        vals_of_instrs(p.instructions).contains(v) ==> value_pool(p).contains(v),
{
    let pool = value_pool(p);
    let a = p.public_inputs.len() as int;
    let b = p.private_inputs.len() as int;
    if p.public_inputs.contains(v) {
        let i = choose|i: int| 0 <= i < a && p.public_inputs[i] == v;
        assert(pool[i] == v);
    }
    if p.private_inputs.contains(v) {
        let i = choose|i: int| 0 <= i < b && p.private_inputs[i] == v;
        assert(pool[a + i] == v);
    }
    assert(pool[a + b] == p.return_value);
    if vals_of_instrs(p.instructions).contains(v) {
        let i = choose|i: int|
            0 <= i < vals_of_instrs(p.instructions).len() && vals_of_instrs(p.instructions)[i]
                == v;
        assert(pool[a + b + 1 + i] == v);
    }
}

/// A well-formed working set: distinct identities, all from the pool.
spec fn set_ok(s: Seq<SsaValue>, pool: Seq<ValId>) -> bool {
    &&& id_seq(s).no_duplicates()
    &&& forall|i: int| 0 <= i < s.len() ==> pool.contains(#[trigger] id_seq(s)[i])
}

proof fn lemma_set_ok_len(s: Seq<SsaValue>, pool: Seq<ValId>)
    requires
        set_ok(s, pool),
    ensures
        s.len() <= pool.len(),
{
    lemma_distinct_in_pool(id_seq(s), pool);
}

/// Removes the instructions whose result is neither input-dependent nor
/// transitively required by the return value or an assertion. Survivors keep
/// their relative order.
pub struct DeadCodeEliminator;

impl DeadCodeEliminator {
    pub fn eliminate(ssa_program: SsaProgram) -> (r: SsaProgram)
        ensures
            r@ == dce_model(ssa_program@),
    {
        let ghost pv = ssa_program@;
        let ghost instrs = pv.instructions;
        let ghost pool = value_pool(pv);
        let mut used_values: Vec<SsaValue> = Vec::new();
        let mut idep: Vec<SsaValue> = Vec::new();

        // All declared inputs are used and input-dependent.
        let npub = ssa_program.public_inputs.len();
        for i in 0..npub
            invariant
                npub == ssa_program.public_inputs.len(),
                ssa_program@ == pv,
                pool == value_pool(pv),
                instrs == pv.instructions,
                set_ok(used_values@, pool),
                set_ok(idep@, pool),
                id_seq(used_values@).to_set() == pv.public_inputs.take(i as int).to_set(),
                id_seq(idep@).to_set() == pv.public_inputs.take(i as int).to_set(),
        {
            let x = &ssa_program.public_inputs[i];
            proof {
                lemma_pool_covers(pv, x@);
                assert(pv.public_inputs.contains(pv.public_inputs[i as int]));
                pv.public_inputs.take(i as int).lemma_push_to_set_commute(x@);
                assert(pv.public_inputs.take(i + 1) =~= pv.public_inputs.take(i as int).push(x@));
            }
            insert_value(&mut used_values, x);
            insert_value(&mut idep, x);
        }
        proof {
            assert(pv.public_inputs.take(npub as int) =~= pv.public_inputs);
            assert(id_seq(used_values@).to_set() =~= pv.public_inputs.to_set().union(
                pv.private_inputs.take(0).to_set(),
            ));
            assert(id_seq(idep@).to_set() =~= pv.public_inputs.to_set().union(
                pv.private_inputs.take(0).to_set(),
            ));
        }
        let npriv = ssa_program.private_inputs.len();
        for i in 0..npriv
            invariant
                npriv == ssa_program.private_inputs.len(),
                ssa_program@ == pv,
                pool == value_pool(pv),
                instrs == pv.instructions,
                set_ok(used_values@, pool),
                set_ok(idep@, pool),
                id_seq(used_values@).to_set() == pv.public_inputs.to_set().union(
                    pv.private_inputs.take(i as int).to_set(),
                ),
                id_seq(idep@).to_set() == pv.public_inputs.to_set().union(
                    pv.private_inputs.take(i as int).to_set(),
                ),
        {
            let x = &ssa_program.private_inputs[i];
            proof {
                lemma_pool_covers(pv, x@);
                assert(pv.private_inputs.contains(pv.private_inputs[i as int]));
                pv.private_inputs.take(i as int).lemma_push_to_set_commute(x@);
                assert(pv.private_inputs.take(i + 1) =~= pv.private_inputs.take(i as int).push(
                    x@,
                ));
                assert(id_seq(used_values@).to_set().insert(x@) =~= pv.public_inputs.to_set().union(
                    pv.private_inputs.take(i + 1).to_set(),
                ));
                assert(id_seq(idep@).to_set().insert(x@) =~= pv.public_inputs.to_set().union(
                    pv.private_inputs.take(i + 1).to_set(),
                ));
            }
            insert_value(&mut used_values, x);
            insert_value(&mut idep, x);
        }
        proof {
            assert(pv.public_inputs.take(npub as int) =~= pv.public_inputs);
            assert(pv.private_inputs.take(npriv as int) =~= pv.private_inputs);
            assert(id_seq(idep@).to_set() =~= input_ids(pv));
            assert(id_seq(used_values@).to_set() =~= input_ids(pv));
        }

        // The return value is always used.
        proof {
            lemma_pool_covers(pv, pv.return_value);
        }
        insert_value(&mut used_values, &ssa_program.return_value);
        proof {
            assert(id_seq(used_values@).to_set() =~= input_ids(pv).insert(pv.return_value).union(
                assert_reads(instrs.take(0)),
            ));
        }

        // Assertions are always retained, so what they read is always used.
        let ninstr = ssa_program.instructions.len();
        for j in 0..ninstr
            invariant
                ninstr == ssa_program.instructions.len(),
                ssa_program@ == pv,
                pool == value_pool(pv),
                instrs == pv.instructions,
                set_ok(used_values@, pool),
                id_seq(used_values@).to_set() == input_ids(pv).insert(pv.return_value).union(
                    assert_reads(instrs.take(j as int)),
                ),
        {
            proof {
                assert(instrs[j as int] == ssa_program.instructions@[j as int]@);
                assert(instrs.take(j + 1).drop_last() =~= instrs.take(j as int));
                assert(instrs.take(j + 1).last() == instrs[j as int]);
                assert(instrs.contains(instrs[j as int])) by {
                    assert(instrs[j as int] == instrs[j as int]);
                }
                lemma_vals_cover(instrs, instrs[j as int]);
            }
            match &ssa_program.instructions[j] {
                SsaInstruction::Assert(l, r) => {
                    proof {
                        lemma_pool_covers(pv, l@);
                        lemma_pool_covers(pv, r@);
                        assert(operands_of(instrs[j as int]).contains(l@));
                        assert(operands_of(instrs[j as int]).contains(r@));
                    }
                    insert_value(&mut used_values, l);
                    insert_value(&mut used_values, r);
                    proof {
                        assert(id_seq(used_values@).to_set() =~= input_ids(pv).insert(
                            pv.return_value,
                        ).union(assert_reads(instrs.take(j + 1))));
                    }
                },
                _ => {
                    proof {
                        assert(assert_reads(instrs.take(j + 1)) =~= assert_reads(
                            instrs.take(j as int),
                        ));
                    }
                },
            }
        }
        proof {
            assert(instrs.take(ninstr as int) =~= instrs);
        }

        // Forward fixpoint: values transitively computed from inputs.
        proof {
            lemma_set_ok_len(idep@, pool);
            lemma_fwd_closure_seeds(instrs, input_ids(pv));
        }
        let mut changed = true;
        while changed
            invariant
                ninstr == ssa_program.instructions.len(),
                ssa_program@ == pv,
                pool == value_pool(pv),
                instrs == pv.instructions,
                set_ok(idep@, pool),
                idep@.len() <= pool.len(),
                input_ids(pv).subset_of(id_seq(idep@).to_set()),
                id_seq(idep@).to_set().subset_of(input_dependent(pv)),
                !changed ==> fwd_closed(instrs, id_seq(idep@).to_set()),
            decreases pool.len() + 1 - idep@.len(), (if changed {
                1int
            } else {
                0int
            }),
        {
            changed = false;
            let ghost start_len = idep@.len();
            for j in 0..ninstr
                invariant
                    ninstr == ssa_program.instructions.len(),
                    ssa_program@ == pv,
                    pool == value_pool(pv),
                    instrs == pv.instructions,
                pool == value_pool(pv),
                instrs == pv.instructions,
                    set_ok(idep@, pool),
                    idep@.len() <= pool.len(),
                    idep@.len() >= start_len,
                    changed ==> idep@.len() > start_len,
                    input_ids(pv).subset_of(id_seq(idep@).to_set()),
                    id_seq(idep@).to_set().subset_of(input_dependent(pv)),
                    !changed ==> forall|k: int|
                        0 <= k < j ==> instr_rule_fwd(
                            #[trigger] instrs[k],
                            id_seq(idep@).to_set(),
                        ),
            {
                proof {
                    assert(instrs[j as int] == ssa_program.instructions@[j as int]@);
                    assert(instrs.contains(instrs[j as int])) by {
                        assert(instrs[j as int] == instrs[j as int]);
                    }
                    lemma_vals_cover(instrs, instrs[j as int]);
                }
                let ghost pre_set = id_seq(idep@).to_set();
                match &ssa_program.instructions[j] {
                    SsaInstruction::Add(d, l, r) => {
                        if contains_value(&idep, l) || contains_value(&idep, r) {
                            proof {
                                lemma_pool_covers(pv, d@);
                                assert(operands_of(instrs[j as int]).contains(l@));
                                assert(operands_of(instrs[j as int]).contains(r@));
                                assert(reads_from(instrs[j as int], id_seq(idep@).to_set()));
                                assert(reads_from(instrs[j as int], input_dependent(pv)));
                                lemma_fwd_closure_closed(instrs, input_ids(pv));
                                assert(input_dependent(pv).contains(d@));
                            }
                            let added = insert_value(&mut idep, d);
                            if added {
                                changed = true;
                            }
                        }
                    },
                    SsaInstruction::Mul(d, l, r) => {
                        if contains_value(&idep, l) || contains_value(&idep, r) {
                            proof {
                                lemma_pool_covers(pv, d@);
                                assert(operands_of(instrs[j as int]).contains(l@));
                                assert(operands_of(instrs[j as int]).contains(r@));
                                assert(reads_from(instrs[j as int], id_seq(idep@).to_set()));
                                assert(reads_from(instrs[j as int], input_dependent(pv)));
                                lemma_fwd_closure_closed(instrs, input_ids(pv));
                                assert(input_dependent(pv).contains(d@));
                            }
                            let added = insert_value(&mut idep, d);
                            if added {
                                changed = true;
                            }
                        }
                    },
                    _ => {},
                }
                proof {
                    lemma_set_ok_len(idep@, pool);
                    if !changed {
                        assert(id_seq(idep@).to_set() == pre_set);
                        assert(instr_rule_fwd(instrs[j as int], id_seq(idep@).to_set())) by {
                            match instrs[j as int] {
                                InstrView::Add(d, l, r) => {
                                    if reads_from(instrs[j as int], pre_set) {
                                        let o = choose|o: ValId|
                                            #[trigger] operands_of(instrs[j as int]).contains(o)
                                                && pre_set.contains(o);
                                        assert(o == l || o == r);
                                    }
                                },
                                InstrView::Mul(d, l, r) => {
                                    if reads_from(instrs[j as int], pre_set) {
                                        let o = choose|o: ValId|
                                            #[trigger] operands_of(instrs[j as int]).contains(o)
                                                && pre_set.contains(o);
                                        assert(o == l || o == r);
                                    }
                                },
                                _ => {},
                            }
                        }
                    }
                }
            }
            proof {
                if !changed {
                    assert forall|ins: InstrView| #[trigger]
                        instrs.contains(ins) implies instr_rule_fwd(
                        ins,
                        id_seq(idep@).to_set(),
                    ) by {
                        let k = choose|k: int| 0 <= k < instrs.len() && instrs[k] == ins;
                    }
                }
            }
        }
        proof {
            lemma_fwd_closure_min(instrs, input_ids(pv), id_seq(idep@).to_set());
            assert(id_seq(idep@).to_set() =~= input_dependent(pv));
        }

        // All input-dependent values are used.
        proof {
            assert(id_seq(used_values@).to_set() =~= input_ids(pv).insert(pv.return_value).union(
                assert_reads(instrs),
            ).union(id_seq(idep@).take(0).to_set()));
        }
        let nidep = idep.len();
        for k in 0..nidep
            invariant
                nidep == idep.len(),
                ssa_program@ == pv,
                pool == value_pool(pv),
                instrs == pv.instructions,
                set_ok(used_values@, pool),
                id_seq(idep@).to_set() == input_dependent(pv),
                set_ok(idep@, pool),
                id_seq(used_values@).to_set() == input_ids(pv).insert(pv.return_value).union(
                    assert_reads(instrs),
                ).union(id_seq(idep@).take(k as int).to_set()),
        {
            let x = &idep[k];
            proof {
                assert(pool.contains(id_seq(idep@)[k as int]));
                id_seq(idep@).take(k as int).lemma_push_to_set_commute(x@);
                assert(id_seq(idep@).take(k + 1) =~= id_seq(idep@).take(k as int).push(x@));
                assert(id_seq(used_values@).to_set().insert(x@) =~= input_ids(pv).insert(
                    pv.return_value,
                ).union(assert_reads(instrs)).union(id_seq(idep@).take(k + 1).to_set()));
            }
            insert_value(&mut used_values, x);
        }
        proof {
            assert(id_seq(idep@).take(nidep as int) =~= id_seq(idep@));
            assert(id_seq(used_values@).to_set() =~= live_seeds(pv));
            lemma_bwd_closure_seeds(instrs, live_seeds(pv));
        }

        // Backward fixpoint: values transitively required by used values.
        proof {
            lemma_set_ok_len(used_values@, pool);
        }
        changed = true;
        while changed
            invariant
                ninstr == ssa_program.instructions.len(),
                ssa_program@ == pv,
                pool == value_pool(pv),
                instrs == pv.instructions,
                set_ok(used_values@, pool),
                used_values@.len() <= pool.len(),
                live_seeds(pv).subset_of(id_seq(used_values@).to_set()),
                id_seq(used_values@).to_set().subset_of(live(pv)),
                !changed ==> bwd_closed(instrs, id_seq(used_values@).to_set()),
            decreases pool.len() + 1 - used_values@.len(), (if changed {
                1int
            } else {
                0int
            }),
        {
            changed = false;
            let ghost start_len = used_values@.len();
            for j in 0..ninstr
                invariant
                    ninstr == ssa_program.instructions.len(),
                    ssa_program@ == pv,
                    pool == value_pool(pv),
                    instrs == pv.instructions,
                pool == value_pool(pv),
                instrs == pv.instructions,
                    set_ok(used_values@, pool),
                    used_values@.len() <= pool.len(),
                    used_values@.len() >= start_len,
                    changed ==> used_values@.len() > start_len,
                    live_seeds(pv).subset_of(id_seq(used_values@).to_set()),
                    id_seq(used_values@).to_set().subset_of(live(pv)),
                    !changed ==> forall|k: int|
                        0 <= k < j ==> instr_rule_bwd(
                            #[trigger] instrs[k],
                            id_seq(used_values@).to_set(),
                        ),
            {
                proof {
                    assert(instrs[j as int] == ssa_program.instructions@[j as int]@);
                    assert(instrs.contains(instrs[j as int])) by {
                        assert(instrs[j as int] == instrs[j as int]);
                    }
                    lemma_vals_cover(instrs, instrs[j as int]);
                    lemma_bwd_closure_closed(instrs, live_seeds(pv));
                }
                let ghost pre_set = id_seq(used_values@).to_set();
                match &ssa_program.instructions[j] {
                    SsaInstruction::Add(d, l, r) => {
                        if contains_value(&used_values, d) {
                            proof {
                                lemma_pool_covers(pv, l@);
                                lemma_pool_covers(pv, r@);
                                assert(live(pv).contains(d@));
                                assert(operands_of(instrs[j as int]).subset_of(live(pv)));
                                assert(operands_of(instrs[j as int]).contains(l@));
                                assert(operands_of(instrs[j as int]).contains(r@));
                            }
                            let a1 = insert_value(&mut used_values, l);
                            let a2 = insert_value(&mut used_values, r);
                            if a1 || a2 {
                                changed = true;
                            }
                        }
                    },
                    SsaInstruction::Mul(d, l, r) => {
                        if contains_value(&used_values, d) {
                            proof {
                                lemma_pool_covers(pv, l@);
                                lemma_pool_covers(pv, r@);
                                assert(live(pv).contains(d@));
                                assert(operands_of(instrs[j as int]).subset_of(live(pv)));
                                assert(operands_of(instrs[j as int]).contains(l@));
                                assert(operands_of(instrs[j as int]).contains(r@));
                            }
                            let a1 = insert_value(&mut used_values, l);
                            let a2 = insert_value(&mut used_values, r);
                            if a1 || a2 {
                                changed = true;
                            }
                        }
                    },
                    _ => {},
                }
                proof {
                    lemma_set_ok_len(used_values@, pool);
                    if !changed {
                        assert(id_seq(used_values@).to_set() == pre_set);
                        assert(instr_rule_bwd(instrs[j as int], id_seq(used_values@).to_set()))
                            by {
                            match instrs[j as int] {
                                InstrView::Add(d, l, r) => {
                                    if pre_set.contains(d) {
                                        assert forall|o: ValId|
                                            operands_of(instrs[j as int]).contains(
                                                o,
                                            ) implies pre_set.contains(o) by {
                                            assert(o == l || o == r);
                                        }
                                    }
                                },
                                InstrView::Mul(d, l, r) => {
                                    if pre_set.contains(d) {
                                        assert forall|o: ValId|
                                            operands_of(instrs[j as int]).contains(
                                                o,
                                            ) implies pre_set.contains(o) by {
                                            assert(o == l || o == r);
                                        }
                                    }
                                },
                                InstrView::Const(d, _) => {
                                    assert(operands_of(instrs[j as int]) =~= Set::<
                                        ValId,
                                    >::empty());
                                },
                                InstrView::Assert(l, r) => {
                                    assert(live_seeds(pv).contains(l) && live_seeds(pv).contains(
                                        r,
                                    )) by {
                                        lemma_assert_reads_member(instrs, l);
                                        lemma_assert_reads_member(instrs, r);
                                    }
                                },
                            }
                        }
                    }
                }
            }
            proof {
                if !changed {
                    assert forall|ins: InstrView| #[trigger]
                        instrs.contains(ins) implies instr_rule_bwd(
                        ins,
                        id_seq(used_values@).to_set(),
                    ) by {
                        let k = choose|k: int| 0 <= k < instrs.len() && instrs[k] == ins;
                    }
                }
            }
        }
        proof {
            lemma_bwd_closure_min(instrs, live_seeds(pv), id_seq(used_values@).to_set());
            assert(id_seq(used_values@).to_set() =~= live(pv));
        }

        // Retain exactly the instructions whose destination is used.
        let mut filtered_instructions: Vec<SsaInstruction> = Vec::new();
        for j in 0..ninstr
            invariant
                ninstr == ssa_program.instructions.len(),
                ssa_program@ == pv,
                pool == value_pool(pv),
                instrs == pv.instructions,
                id_seq(used_values@).to_set() == live(pv),
                filtered_instructions@.map_values(|x: SsaInstruction| x@) == kept_instrs(
                    instrs.take(j as int),
                    live(pv),
                ),
        {
            proof {
                assert(instrs[j as int] == ssa_program.instructions@[j as int]@);
                assert(instrs.take(j + 1).drop_last() =~= instrs.take(j as int));
                assert(instrs.take(j + 1).last() == instrs[j as int]);
            }
            let instr = &ssa_program.instructions[j];
            let keep = match instr {
                SsaInstruction::Const(d, _) => contains_value(&used_values, d),
                SsaInstruction::Add(d, _, _) => contains_value(&used_values, d),
                SsaInstruction::Mul(d, _, _) => contains_value(&used_values, d),
                SsaInstruction::Assert(_, _) => true,
            };
            if keep {
                filtered_instructions.push(dup_instr(instr));
            }
            proof {
                assert(filtered_instructions@.map_values(|x: SsaInstruction| x@) =~= kept_instrs(
                    instrs.take(j + 1),
                    live(pv),
                ));
            }
        }
        let r = SsaProgram {
            instructions: filtered_instructions,
            return_value: ssa_program.return_value,
            public_inputs: ssa_program.public_inputs,
            private_inputs: ssa_program.private_inputs,
        };
        proof {
            assert(instrs.take(ninstr as int) =~= instrs);
            assert(r@ =~= dce_model(pv));
        }
        r
    }
}

// ---------------------------------------------------------------------------
// Dead-code elimination: the liveness and idempotence laws.
// ---------------------------------------------------------------------------

/// The instruction producing the return value (if any) survives elimination.
pub proof fn lemma_return_producer_survives(p: ProgView, i: int)
    requires
        0 <= i < p.instructions.len(),
        dest_of(p.instructions[i]) == Some(p.return_value),
    ensures
        dce_model(p).instructions.contains(p.instructions[i]),
{
    lemma_bwd_closure_seeds(p.instructions, live_seeds(p));
    assert(live_seeds(p).contains(p.return_value));
    assert(p.instructions.contains(p.instructions[i]));
    lemma_kept_member(p.instructions, live(p), p.instructions[i]);
}

/// A destination that is not the return value, not a declared input, not
/// input-dependent, and read by no instruction is not live, so every
/// instruction producing it is removed.
pub proof fn lemma_unread_value_removed(p: ProgView, d: ValId)
    requires
        d != p.return_value,
        !input_ids(p).contains(d),
        !input_dependent(p).contains(d),
        forall|ins: InstrView| p.instructions.contains(ins) ==> !operands_of(ins).contains(d),
    ensures
        !live(p).contains(d),
        forall|ins: InstrView|
            dce_model(p).instructions.contains(ins) ==> dest_of(ins) != Some(d),
{
    let s2 = live(p).remove(d);
    lemma_bwd_closure_seeds(p.instructions, live_seeds(p));
    assert(live_seeds(p).subset_of(s2)) by {
        assert forall|v: ValId| live_seeds(p).contains(v) implies s2.contains(v) by {
            assert(live(p).contains(v));
            if v == d {
                if assert_reads(p.instructions).contains(d) {
                    lemma_assert_reads_member(p.instructions, d);
                    let ins = choose|ins: InstrView|
                        #[trigger] p.instructions.contains(ins) && ins is Assert && operands_of(
                            ins,
                        ).contains(d);
                    assert(false);
                }
                assert(false);
            }
        }
    }
    lemma_bwd_closure_closed(p.instructions, live_seeds(p));
    assert(bwd_closed(p.instructions, s2)) by {
        assert forall|ins: InstrView|
            #[trigger] p.instructions.contains(ins) implies (dest_of(ins) matches Some(d2)
            ==> s2.contains(d2) ==> operands_of(ins).subset_of(s2)) by {
            if dest_of(ins) is Some {
                let d2 = dest_of(ins)->Some_0;
                if s2.contains(d2) {
                    assert(live(p).contains(d2));
                    assert(operands_of(ins).subset_of(live(p)));
                    assert forall|o: ValId| operands_of(ins).contains(o) implies s2.contains(
                        o,
                    ) by {
                        assert(o != d);
                    }
                }
            }
        }
    }
    lemma_bwd_closure_min(p.instructions, live_seeds(p), s2);
    assert(!live(p).contains(d));
    assert forall|ins: InstrView|
        dce_model(p).instructions.contains(ins) implies dest_of(ins) != Some(d) by {
        lemma_kept_member(p.instructions, live(p), ins);
    }
}

/// Input-dependence is preserved by elimination: the instructions that
/// justify it all survive.
proof fn lemma_idep_preserved(p: ProgView, n: nat)
    ensures
        fwd_iter(p.instructions, input_ids(p), n).subset_of(input_dependent(dce_model(p))),
    decreases n,
{
    let p2 = dce_model(p);
    lemma_fwd_closure_seeds(p2.instructions, input_ids(p2));
    if n == 0 {
    } else {
        let prev = fwd_iter(p.instructions, input_ids(p), (n - 1) as nat);
        lemma_idep_preserved(p, (n - 1) as nat);
        lemma_bwd_closure_seeds(p.instructions, live_seeds(p));
        lemma_fwd_closure_closed(p2.instructions, input_ids(p2));
        assert forall|v: ValId|
            fwd_iter(p.instructions, input_ids(p), n).contains(v) implies input_dependent(
            p2,
        ).contains(v) by {
            if !prev.contains(v) {
                let ins = choose|ins: InstrView|
                    #[trigger] p.instructions.contains(ins) && dest_of(ins) == Some(v)
                        && reads_from(ins, prev);
                // the justifying instruction's destination is input-dependent,
                // hence live, hence the instruction survives
                assert(fwd_iter(p.instructions, input_ids(p), n).contains(v));
                assert(input_dependent(p).contains(v));
                assert(live_seeds(p).contains(v));
                assert(live(p).contains(v));
                lemma_kept_member(p.instructions, live(p), ins);
                assert(p2.instructions.contains(ins));
                let o = choose|o: ValId| #[trigger] operands_of(ins).contains(o) && prev.contains(
                    o,
                );
                assert(input_dependent(p2).contains(o));
                assert(reads_from(ins, input_dependent(p2)));
            }
        }
    }
}

/// What assertions read is unchanged by elimination.
proof fn lemma_assert_reads_dce(p: ProgView)
    ensures
        assert_reads(dce_model(p).instructions) == assert_reads(p.instructions),
{
    let p2 = dce_model(p);
    assert forall|v: ValId|
        assert_reads(p2.instructions).contains(v) == assert_reads(p.instructions).contains(
        v,
    ) by {
        lemma_assert_reads_member(p.instructions, v);
        lemma_assert_reads_member(p2.instructions, v);
        if assert_reads(p.instructions).contains(v) {
            let ins = choose|ins: InstrView|
                #[trigger] p.instructions.contains(ins) && ins is Assert && operands_of(
                    ins,
                ).contains(v);
            lemma_kept_member(p.instructions, live(p), ins);
            assert(p2.instructions.contains(ins));
        }
        if assert_reads(p2.instructions).contains(v) {
            let ins = choose|ins: InstrView|
                #[trigger] p2.instructions.contains(ins) && ins is Assert && operands_of(
                    ins,
                ).contains(v);
            lemma_kept_member(p.instructions, live(p), ins);
        }
    }
    assert(assert_reads(p2.instructions) =~= assert_reads(p.instructions));
}

/// The input-dependent values are exactly preserved by elimination.
proof fn lemma_idep_dce(p: ProgView)
    ensures
        input_dependent(dce_model(p)) == input_dependent(p),
{
    let p2 = dce_model(p);
    assert forall|ins: InstrView| p2.instructions.contains(ins) implies p.instructions.contains(
        ins,
    ) by {
        lemma_kept_member(p.instructions, live(p), ins);
    }
    lemma_fwd_closure_mono(p2.instructions, p.instructions, input_ids(p2), input_ids(p));
    assert forall|v: ValId| input_dependent(p).contains(v) implies input_dependent(p2).contains(
        v,
    ) by {
        let n = choose|n: nat| fwd_iter(p.instructions, input_ids(p), n).contains(v);
        lemma_idep_preserved(p, n);
    }
    assert(input_dependent(p2) =~= input_dependent(p));
}

/// Liveness is preserved by elimination: the reading instructions that
/// justify it all survive.
proof fn lemma_live_preserved(p: ProgView, n: nat)
    ensures
        bwd_iter(p.instructions, live_seeds(p), n).subset_of(live(dce_model(p))),
    decreases n,
{
    let p2 = dce_model(p);
    lemma_bwd_closure_seeds(p2.instructions, live_seeds(p2));
    lemma_idep_dce(p);
    lemma_assert_reads_dce(p);
    assert(live_seeds(p2) =~= live_seeds(p));
    if n == 0 {
    } else {
        let prev = bwd_iter(p.instructions, live_seeds(p), (n - 1) as nat);
        lemma_live_preserved(p, (n - 1) as nat);
        lemma_bwd_closure_seeds(p.instructions, live_seeds(p));
        lemma_bwd_closure_closed(p2.instructions, live_seeds(p2));
        assert forall|v: ValId|
            bwd_iter(p.instructions, live_seeds(p), n).contains(v) implies live(p2).contains(
            v,
        ) by {
            if !prev.contains(v) {
                let ins = choose|ins: InstrView|
                    #[trigger] p.instructions.contains(ins) && (dest_of(ins) matches Some(d)
                        && prev.contains(d)) && operands_of(ins).contains(v);
                let d = dest_of(ins)->Some_0;
                // the reading instruction's destination was already live, so
                // the instruction survives
                assert(prev.subset_of(live(p))) by {
                    assert forall|u: ValId| prev.contains(u) implies live(p).contains(u) by {
                        assert(bwd_iter(p.instructions, live_seeds(p), (n - 1) as nat).contains(
                            u,
                        ));
                    }
                }
                lemma_kept_member(p.instructions, live(p), ins);
                assert(p2.instructions.contains(ins));
                assert(live(p2).contains(d));
                assert(operands_of(ins).subset_of(live(p2)));
            }
        }
    }
}

/// The live values are exactly preserved by elimination.
proof fn lemma_live_dce(p: ProgView)
    ensures
        live(dce_model(p)) == live(p),
{
    let p2 = dce_model(p);
    assert forall|ins: InstrView| p2.instructions.contains(ins) implies p.instructions.contains(
        ins,
    ) by {
        lemma_kept_member(p.instructions, live(p), ins);
    }
    lemma_idep_dce(p);
    lemma_assert_reads_dce(p);
    assert(live_seeds(p2) =~= live_seeds(p));
    lemma_bwd_closure_mono(p2.instructions, p.instructions, live_seeds(p2), live_seeds(p));
    assert forall|v: ValId| live(p).contains(v) implies live(p2).contains(v) by {
        let n = choose|n: nat| bwd_iter(p.instructions, live_seeds(p), n).contains(v);
        lemma_live_preserved(p, n);
    }
    assert(live(p2) =~= live(p));
}

/// Dead-code elimination is idempotent: running it twice yields the same
/// program as running it once.
pub proof fn lemma_dce_idempotent(p: ProgView)
    ensures
        dce_model(dce_model(p)) == dce_model(p),
{
    let p2 = dce_model(p);
    lemma_live_dce(p);
    assert forall|k: int|
        0 <= k < p2.instructions.len() implies keep_instr(#[trigger] p2.instructions[k], live(p2)) by {
        lemma_kept_all_keep(p.instructions, live(p), k);
    }
    lemma_kept_noop(p2.instructions, live(p2));
    assert(dce_model(p2) =~= p2);
}

/// A single forward pass tracking known-constant values and collapsing
/// arithmetic on two known constants into a `Const` instruction.
pub struct ConstantFolder {
    constants: Vec<(SsaValue, i32)>,
}

impl ConstantFolder {
    /// The constants known so far.
    pub closed spec fn model(&self) -> Map<ValId, i32> {
        cmap(self.constants@)
    }

    pub fn new() -> (r: ConstantFolder)
        ensures
            r.model() == Map::<ValId, i32>::empty(),
    {
        let r = ConstantFolder { constants: Vec::new() };
        proof {
            assert(r.model() =~= Map::<ValId, i32>::empty());
        }
        r
    }

    /// The recorded constant value of `ssa_value`, if any.
    fn get_constant_value(&self, ssa_value: &SsaValue) -> (r: Option<i32>)
        ensures
            r == if self.model().dom().contains(ssa_value@) {
                Some(self.model()[ssa_value@])
            } else {
                Option::<i32>::None
            },
    {
        let mut j = self.constants.len();
        proof {
            assert(self.constants@.take(j as int) =~= self.constants@);
        }
        while j > 0
            invariant
                j <= self.constants.len(),
                ({
                    let whole = cmap(self.constants@);
                    let part = cmap(self.constants@.take(j as int));
                    &&& whole.dom().contains(ssa_value@) == part.dom().contains(ssa_value@)
                    &&& whole.dom().contains(ssa_value@) ==> whole[ssa_value@] == part[ssa_value@]
                }),
            decreases j,
        {
            j = j - 1;
            proof {
                assert(self.constants@.take(j + 1).drop_last() =~= self.constants@.take(j as int));
                assert(self.constants@.take(j + 1).last() == self.constants@[j as int]);
            }
            if same_value(&self.constants[j].0, ssa_value) {
                return Some(self.constants[j].1);
            }
        }
        proof {
            assert(self.constants@.take(0) =~= Seq::<(SsaValue, i32)>::empty());
        }
        None
    }

    /// Records that `ssa_value` is known to hold `value`.
    fn record_constant(&mut self, ssa_value: SsaValue, value: i32)
        ensures
            final(self).model() == old(self).model().insert(ssa_value@, value),
    {
        let ghost v = ssa_value@;
        self.constants.push((ssa_value, value));
        proof {
            assert(self.constants@.drop_last() =~= old(self).constants@);
        }
    }

    /// Folds one instruction under the constants known so far.
    fn try_fold_instruction(&mut self, instr: &SsaInstruction) -> (r: SsaInstruction)
        ensures
            (final(self).model(), r@) == fold_step(old(self).model(), instr@),
    {
        match instr {
            SsaInstruction::Const(dest, value) => {
                self.record_constant(dup(dest), *value);
                SsaInstruction::Const(dup(dest), *value)
            },
            SsaInstruction::Add(dest, left, right) => {
                let lv = self.get_constant_value(left);
                let rv = self.get_constant_value(right);
                match (lv, rv) {
                    (Some(left_val), Some(right_val)) => {
                        let result = left_val.wrapping_add(right_val);
                        self.record_constant(dup(dest), result);
                        SsaInstruction::Const(dup(dest), result)
                    },
                    _ => SsaInstruction::Add(dup(dest), dup(left), dup(right)),
                }
            },
            SsaInstruction::Mul(dest, left, right) => {
                let lv = self.get_constant_value(left);
                let rv = self.get_constant_value(right);
                match (lv, rv) {
                    (Some(left_val), Some(right_val)) => {
                        let result = left_val.wrapping_mul(right_val);
                        self.record_constant(dup(dest), result);
                        SsaInstruction::Const(dup(dest), result)
                    },
                    _ => SsaInstruction::Mul(dup(dest), dup(left), dup(right)),
                }
            },
            SsaInstruction::Assert(left, right) => SsaInstruction::Assert(dup(left), dup(right)),
        }
    }

    /// The constant-folding pass: a single forward pass whose output has
    /// exactly as many instructions as its input.
    pub fn optimize(ssa_program: SsaProgram) -> (r: SsaProgram)
        ensures
            r@ == fold_model(ssa_program@),
            r@.instructions.len() == ssa_program@.instructions.len(),
    {
        let ghost iv = ssa_program@.instructions;
        let mut folder = ConstantFolder::new();
        let mut optimized_instructions: Vec<SsaInstruction> = Vec::new();
        let n = ssa_program.instructions.len();
        for i in 0..n
            invariant
                n == ssa_program.instructions.len(),
                ssa_program@.instructions == iv,
                folder.model() == fold_instrs(Map::<ValId, i32>::empty(), iv.take(i as int)).0,
                optimized_instructions@.map_values(|x: SsaInstruction| x@) == fold_instrs(
                    Map::<ValId, i32>::empty(),
                    iv.take(i as int),
                ).1,
        {
            proof {
                assert(iv[i as int] == ssa_program.instructions@[i as int]@);
            }
            let folded_instr = folder.try_fold_instruction(&ssa_program.instructions[i]);
            optimized_instructions.push(folded_instr);
            proof {
                lemma_fold_snoc(Map::<ValId, i32>::empty(), iv.take(i as int), iv[i as int]);
                assert(iv.take(i + 1) =~= iv.take(i as int).push(iv[i as int]));
                assert(optimized_instructions@.map_values(|x: SsaInstruction| x@) =~= fold_instrs(
                    Map::<ValId, i32>::empty(),
                    iv.take(i + 1),
                ).1);
            }
        }
        let r = SsaProgram {
            instructions: optimized_instructions,
            return_value: ssa_program.return_value,
            public_inputs: ssa_program.public_inputs,
            private_inputs: ssa_program.private_inputs,
        };
        proof {
            assert(iv.take(n as int) =~= iv);
            lemma_fold_preserves_count(Map::<ValId, i32>::empty(), iv);
            assert(r@ =~= fold_model(ssa_program@));
        }
        r
    }
}

} // verus!
