//! Single-static-assignment construction from the abstract syntax tree.
//!
//! Every assignment of a source name gets a fresh version number; every
//! intermediate expression result gets a fresh synthetic temporary (`t0`,
//! `t1`, ...) with version 0. Each distinct `(name, version)` pair denotes
//! exactly one definition site.

use crate::ast::Expr;
use crate::ast::Program;
use crate::ast::Stmt;
use crate::ast::has_return;
use vstd::prelude::*;
use vstd::string::StringExecFns;

verus! {

/// The identity of an SSA value in specifications: its name and version.
pub type ValId = (Seq<char>, nat);

/// An SSA value; its identity is the pair `(name, version)`.
#[derive(Debug, Clone)]
pub struct SsaValue {
    pub name: String,
    pub version: usize,
}

impl View for SsaValue {
    type V = ValId;

    open spec fn view(&self) -> ValId {
        (self.name@, self.version as nat)
    }
}

/// One SSA instruction. The first `SsaValue` of `Const`, `Add` and `Mul` is
/// the destination; `Assert` has no destination of its own.
#[derive(Debug, Clone)]
pub enum SsaInstruction {
    Const(SsaValue, i32),
    Add(SsaValue, SsaValue, SsaValue),
    Mul(SsaValue, SsaValue, SsaValue),
    Assert(SsaValue, SsaValue),
}

/// The identity-level image of an instruction.
pub enum InstrView {
    Const(ValId, i32),
    Add(ValId, ValId, ValId),
    Mul(ValId, ValId, ValId),
    Assert(ValId, ValId),
}

impl View for SsaInstruction {
    type V = InstrView;

    open spec fn view(&self) -> InstrView {
        match self {
            SsaInstruction::Const(d, v) => InstrView::Const(d@, *v),
            SsaInstruction::Add(d, l, r) => InstrView::Add(d@, l@, r@),
            SsaInstruction::Mul(d, l, r) => InstrView::Mul(d@, l@, r@),
            SsaInstruction::Assert(l, r) => InstrView::Assert(l@, r@),
        }
    }
}

/// Copies an SSA value; the copy has the same identity.
pub(crate) fn dup(v: &SsaValue) -> (r: SsaValue)
    ensures
        r@ == v@,
{
    SsaValue { name: v.name.clone(), version: v.version }
}

/// Whether two SSA values have the same identity.
pub(crate) fn same_value(a: &SsaValue, b: &SsaValue) -> (r: bool)
    ensures
        r == (a@ == b@),
{
    a.name == b.name && a.version == b.version
}

/// An SSA program: an ordered instruction list, the returned value, and the
/// declared inputs (which have no producing instruction).
#[derive(Debug, Clone)]
pub struct SsaProgram {
    pub instructions: Vec<SsaInstruction>,
    pub return_value: SsaValue,
    pub public_inputs: Vec<SsaValue>,
    pub private_inputs: Vec<SsaValue>,
}

/// The identity-level image of an SSA program.
#[verifier::ext_equal]
pub struct ProgView {
    pub instructions: Seq<InstrView>,
    pub return_value: ValId,
    pub public_inputs: Seq<ValId>,
    pub private_inputs: Seq<ValId>,
}

impl View for SsaProgram {
    type V = ProgView;

    open spec fn view(&self) -> ProgView {
        ProgView {
            instructions: self.instructions@.map_values(|i: SsaInstruction| i@),
            return_value: self.return_value@,
            public_inputs: self.public_inputs@.map_values(|v: SsaValue| v@),
            private_inputs: self.private_inputs@.map_values(|v: SsaValue| v@),
        }
    }
}

// ---------------------------------------------------------------------------
// Decimal rendering of temporary names.
// ---------------------------------------------------------------------------

/// The character for one decimal digit.
pub open spec fn digit_char(d: nat) -> char {
    if d == 0 {
        '0'
    } else if d == 1 {
        '1'
    } else if d == 2 {
        '2'
    } else if d == 3 {
        '3'
    } else if d == 4 {
        '4'
    } else if d == 5 {
        '5'
    } else if d == 6 {
        '6'
    } else if d == 7 {
        '7'
    } else if d == 8 {
        '8'
    } else {
        '9'
    }
}

/// The decimal digit string of `n`, most significant digit first.
pub open spec fn dec_digits(n: nat) -> Seq<char>
    decreases n,
{
    if n < 10 {
        seq![digit_char(n)]
    } else {
        dec_digits(n / 10) + seq![digit_char(n % 10)]
    }
}

/// The name of the `k`-th synthetic temporary: `t` followed by `k` in decimal.
pub open spec fn temp_name(k: nat) -> Seq<char> {
    seq!['t'] + dec_digits(k)
}

fn push_digit(s: &mut String, d: usize)
    requires
        d < 10,
    ensures
        final(s)@ == old(s)@ + seq![digit_char(d as nat)],
{
    let ds: &str = if d == 0 {
        "0"
    } else if d == 1 {
        "1"
    } else if d == 2 {
        "2"
    } else if d == 3 {
        "3"
    } else if d == 4 {
        "4"
    } else if d == 5 {
        "5"
    } else if d == 6 {
        "6"
    } else if d == 7 {
        "7"
    } else if d == 8 {
        "8"
    } else {
        "9"
    };
    proof {
        reveal_strlit("0");
        reveal_strlit("1");
        reveal_strlit("2");
        reveal_strlit("3");
        reveal_strlit("4");
        reveal_strlit("5");
        reveal_strlit("6");
        reveal_strlit("7");
        reveal_strlit("8");
        reveal_strlit("9");
        assert(ds@ =~= seq![digit_char(d as nat)]);
    }
    s.append(ds);
}

fn push_dec(s: &mut String, n: usize)
    ensures
        final(s)@ == old(s)@ + dec_digits(n as nat),
    decreases n,
{
    if n >= 10 {
        push_dec(s, n / 10);
        push_digit(s, n % 10);
        proof {
            assert(final(s)@ =~= old(s)@ + dec_digits(n as nat));
        }
    } else {
        push_digit(s, n);
    }
}

/// Builds the executable name of the `k`-th temporary.
fn temp_name_string(k: usize) -> (r: String)
    ensures
        r@ == temp_name(k as nat),
{
    let mut s = String::new();
    proof {
        reveal_strlit("t");
    }
    s.append("t");
    push_dec(&mut s, k);
    proof {
        assert(s@ =~= temp_name(k as nat));
    }
    s
}

// ---------------------------------------------------------------------------
// The conversion model.
// ---------------------------------------------------------------------------

/// The version map as a mathematical map; a later entry for the same name
/// shadows an earlier one.
pub open spec fn vmap(s: Seq<(String, usize)>) -> Map<Seq<char>, nat>
    decreases s.len(),
{
    if s.len() == 0 {
        Map::empty()
    } else {
        vmap(s.drop_last()).insert(s.last().0@, s.last().1 as nat)
    }
}

/// The current version of a name: the mapped version, or 0 when the name has
/// never been assigned. Version 0 is also what a read of an unassigned
/// variable resolves to.
pub open spec fn cur_version(m: Map<Seq<char>, nat>, name: Seq<char>) -> nat {
    if m.dom().contains(name) {
        m[name]
    } else {
        0
    }
}

/// The state the builder threads through a conversion.
#[verifier::ext_equal]
pub struct BuildState {
    pub instructions: Seq<InstrView>,
    pub versions: Map<Seq<char>, nat>,
    pub temps: nat,
    pub public_inputs: Seq<ValId>,
    pub private_inputs: Seq<ValId>,
}

/// The state of a freshly constructed builder.
pub open spec fn init_state() -> BuildState {
    BuildState {
        instructions: Seq::empty(),
        versions: Map::empty(),
        temps: 0,
        public_inputs: Seq::empty(),
        private_inputs: Seq::empty(),
    }
}

/// Lowering of an expression in operand position: a literal emits a `Const`
/// into a fresh temporary, a variable reference reads the current version of
/// its name without emitting anything, and a sum or product lowers both
/// operands left to right and then emits one instruction with a fresh
/// temporary destination.
pub open spec fn lower_expr(st: BuildState, e: Expr) -> (BuildState, ValId)
    decreases e,
{
    match e {
        Expr::Literal(n) => {
            let t = (temp_name(st.temps), 0nat);
            (
                BuildState {
                    instructions: st.instructions.push(InstrView::Const(t, n)),
                    temps: st.temps + 1,
                    ..st
                },
                t,
            )
        },
        Expr::Var(x) => (st, (x@, cur_version(st.versions, x@))),
        Expr::Add(l, r) => {
            let p1 = lower_expr(st, *l);
            let p2 = lower_expr(p1.0, *r);
            let t = (temp_name(p2.0.temps), 0nat);
            (
                BuildState {
                    instructions: p2.0.instructions.push(InstrView::Add(t, p1.1, p2.1)),
                    temps: p2.0.temps + 1,
                    ..p2.0
                },
                t,
            )
        },
        Expr::Mul(l, r) => {
            let p1 = lower_expr(st, *l);
            let p2 = lower_expr(p1.0, *r);
            let t = (temp_name(p2.0.temps), 0nat);
            (
                BuildState {
                    instructions: p2.0.instructions.push(InstrView::Mul(t, p1.1, p2.1)),
                    temps: p2.0.temps + 1,
                    ..p2.0
                },
                t,
            )
        },
    }
}

/// Lowering of a `let` or `const` body: the final instruction is emitted with
/// the freshly versioned name as its destination (it still consumes one
/// temporary number, so the numbering of later temporaries is unchanged).
/// A bare variable reference on the right-hand side emits no instruction:
/// the new version then has no producing instruction.
pub open spec fn lower_binding(st: BuildState, name: Seq<char>, e: Expr) -> BuildState {
    match e {
        Expr::Literal(n) => {
            let v = cur_version(st.versions, name) + 1;
            BuildState {
                instructions: st.instructions.push(InstrView::Const((name, v), n)),
                versions: st.versions.insert(name, v),
                temps: st.temps + 1,
                ..st
            }
        },
        Expr::Var(_) => {
            let v = cur_version(st.versions, name) + 1;
            BuildState { versions: st.versions.insert(name, v), ..st }
        },
        Expr::Add(l, r) => {
            let p1 = lower_expr(st, *l);
            let p2 = lower_expr(p1.0, *r);
            let v = cur_version(p2.0.versions, name) + 1;
            BuildState {
                instructions: p2.0.instructions.push(InstrView::Add((name, v), p1.1, p2.1)),
                versions: p2.0.versions.insert(name, v),
                temps: p2.0.temps + 1,
                ..p2.0
            }
        },
        Expr::Mul(l, r) => {
            let p1 = lower_expr(st, *l);
            let p2 = lower_expr(p1.0, *r);
            let v = cur_version(p2.0.versions, name) + 1;
            BuildState {
                instructions: p2.0.instructions.push(InstrView::Mul((name, v), p1.1, p2.1)),
                versions: p2.0.versions.insert(name, v),
                temps: p2.0.temps + 1,
                ..p2.0
            }
        },
    }
}

/// Effect of one statement on the builder state and the recorded return value.
pub open spec fn build_stmt(st: BuildState, ret: Option<ValId>, s: Stmt) -> (
    BuildState,
    Option<ValId>,
) {
    match s {
        Stmt::PublicInput { name } => {
            let v = cur_version(st.versions, name@) + 1;
            (
                BuildState {
                    versions: st.versions.insert(name@, v),
                    public_inputs: st.public_inputs.push((name@, v)),
                    ..st
                },
                ret,
            )
        },
        Stmt::PrivateInput { name } => {
            let v = cur_version(st.versions, name@) + 1;
            (
                BuildState {
                    versions: st.versions.insert(name@, v),
                    private_inputs: st.private_inputs.push((name@, v)),
                    ..st
                },
                ret,
            )
        },
        Stmt::ConstDecl { name, value } => {
            let v = cur_version(st.versions, name@) + 1;
            (
                BuildState {
                    instructions: st.instructions.push(InstrView::Const((name@, v), value)),
                    versions: st.versions.insert(name@, v),
                    temps: st.temps + 1,
                    ..st
                },
                ret,
            )
        },
        Stmt::Let { name, expr } => (lower_binding(st, name@, expr), ret),
        Stmt::Return(expr) => {
            let p = lower_expr(st, expr);
            (p.0, Some(p.1))
        },
    }
}

/// Effect of a statement sequence, first statement first.
pub open spec fn build_stmts(st: BuildState, ret: Option<ValId>, stmts: Seq<Stmt>) -> (
    BuildState,
    Option<ValId>,
)
    decreases stmts.len(),
{
    if stmts.len() == 0 {
        (st, ret)
    } else {
        let p = build_stmt(st, ret, stmts[0]);
        build_stmts(p.0, p.1, stmts.drop_first())
    }
}

/// The SSA program a whole program converts to, starting from a fresh builder.
pub open spec fn convert_model(p: Seq<Stmt>) -> ProgView {
    let (st, ret) = build_stmts(init_state(), None, p);
    ProgView {
        instructions: st.instructions,
        return_value: ret.unwrap(),
        public_inputs: st.public_inputs,
        private_inputs: st.private_inputs,
    }
}

// ---------------------------------------------------------------------------
// Supporting lemmas about the model.
// ---------------------------------------------------------------------------

/// Lowering an expression in operand position touches neither the version map
/// nor the declared inputs.
pub proof fn lemma_lower_expr_frame(st: BuildState, e: Expr)
    ensures
        lower_expr(st, e).0.versions == st.versions,
        lower_expr(st, e).0.public_inputs == st.public_inputs,
        lower_expr(st, e).0.private_inputs == st.private_inputs,
    decreases e,
{
    match e {
        Expr::Add(l, r) => {
            lemma_lower_expr_frame(st, *l);
            lemma_lower_expr_frame(lower_expr(st, *l).0, *r);
        },
        Expr::Mul(l, r) => {
            lemma_lower_expr_frame(st, *l);
            lemma_lower_expr_frame(lower_expr(st, *l).0, *r);
        },
        _ => {},
    }
}

/// One statement raises no name's current version by more than one.
proof fn lemma_build_stmt_version_bound(st: BuildState, ret: Option<ValId>, s: Stmt, n: Seq<char>)
    ensures
        cur_version(build_stmt(st, ret, s).0.versions, n) <= cur_version(st.versions, n) + 1,
{
    match s {
        Stmt::Let { name, expr } => {
            match expr {
                Expr::Add(l, r) => {
                    lemma_lower_expr_frame(st, *l);
                    lemma_lower_expr_frame(lower_expr(st, *l).0, *r);
                },
                Expr::Mul(l, r) => {
                    lemma_lower_expr_frame(st, *l);
                    lemma_lower_expr_frame(lower_expr(st, *l).0, *r);
                },
                _ => {},
            }
        },
        Stmt::Return(expr) => {
            lemma_lower_expr_frame(st, expr);
        },
        _ => {},
    }
}

/// Once a return value is recorded, later statements never clear it.
proof fn lemma_build_keeps_return(st: BuildState, ret: Option<ValId>, stmts: Seq<Stmt>)
    requires
        ret is Some,
    ensures
        build_stmts(st, ret, stmts).1 is Some,
    decreases stmts.len(),
{
    if stmts.len() > 0 {
        let p = build_stmt(st, ret, stmts[0]);
        lemma_build_keeps_return(p.0, p.1, stmts.drop_first());
    }
}

/// A statement list with a return statement records a return value.
pub proof fn lemma_has_return_some(st: BuildState, ret: Option<ValId>, stmts: Seq<Stmt>)
    requires
        has_return(stmts),
    ensures
        build_stmts(st, ret, stmts).1 is Some,
    decreases stmts.len(),
{
    let p = build_stmt(st, ret, stmts[0]);
    if stmts[0] is Return {
        lemma_build_keeps_return(p.0, p.1, stmts.drop_first());
    } else {
        let i = choose|i: int| 0 <= i < stmts.len() && stmts[i] is Return;
        assert(stmts.drop_first()[i - 1] is Return);
        lemma_has_return_some(p.0, p.1, stmts.drop_first());
    }
}

/// Processing a statement list in two halves equals processing it whole.
pub proof fn lemma_build_stmts_snoc(st: BuildState, ret: Option<ValId>, stmts: Seq<Stmt>, s: Stmt)
    ensures
        build_stmts(st, ret, stmts.push(s)) == {
            let p = build_stmts(st, ret, stmts);
            build_stmt(p.0, p.1, s)
        },
    decreases stmts.len(),
{
    if stmts.len() == 0 {
        assert(stmts.push(s)[0] == s);
        assert(stmts.push(s).drop_first() =~= Seq::<Stmt>::empty());
        let p = build_stmt(st, ret, s);
        assert(build_stmts(st, ret, stmts.push(s)) == build_stmts(p.0, p.1, Seq::empty()));
        assert(build_stmts(p.0, p.1, Seq::<Stmt>::empty()) == p);
        assert(build_stmts(st, ret, stmts) == (st, ret));
    } else {
        let p = build_stmt(st, ret, stmts[0]);
        assert(stmts.push(s)[0] == stmts[0]);
        assert(stmts.push(s).drop_first() =~= stmts.drop_first().push(s));
        lemma_build_stmts_snoc(p.0, p.1, stmts.drop_first(), s);
    }
}

// ---------------------------------------------------------------------------
// The SSA versioning law.
// ---------------------------------------------------------------------------

/// Whether a statement assigns (allocates a new version of) `name`.
pub open spec fn assigns(s: Stmt, name: Seq<char>) -> bool {
    match s {
        Stmt::PublicInput { name: n } => n@ == name,
        Stmt::PrivateInput { name: n } => n@ == name,
        Stmt::ConstDecl { name: n, value: _ } => n@ == name,
        Stmt::Let { name: n, expr: _ } => n@ == name,
        Stmt::Return(_) => false,
    }
}

/// How many statements of the list assign `name`.
pub open spec fn assign_count(stmts: Seq<Stmt>, name: Seq<char>) -> nat
    decreases stmts.len(),
{
    if stmts.len() == 0 {
        0
    } else {
        assign_count(stmts.drop_last(), name) + if assigns(stmts.last(), name) {
            1nat
        } else {
            0nat
        }
    }
}

/// One statement raises the assigned name's current version by exactly one
/// and leaves every other name's version unchanged.
proof fn lemma_build_stmt_version_exact(st: BuildState, ret: Option<ValId>, s: Stmt, name: Seq<
    char,
>)
    ensures
        cur_version(build_stmt(st, ret, s).0.versions, name) == cur_version(st.versions, name)
            + if assigns(s, name) {
            1nat
        } else {
            0nat
        },
{
    match s {
        Stmt::Let { name: n, expr } => {
            match expr {
                Expr::Add(l, r) => {
                    lemma_lower_expr_frame(st, *l);
                    lemma_lower_expr_frame(lower_expr(st, *l).0, *r);
                },
                Expr::Mul(l, r) => {
                    lemma_lower_expr_frame(st, *l);
                    lemma_lower_expr_frame(lower_expr(st, *l).0, *r);
                },
                _ => {},
            }
        },
        Stmt::Return(expr) => {
            lemma_lower_expr_frame(st, expr);
        },
        _ => {},
    }
}

/// The versioning law of SSA construction: after any statement list, the
/// current version of a name exceeds its starting version by exactly the
/// number of assignments to it. Started from a fresh builder this means the
/// k-th assignment of a name yields version k, and a read between the k-th
/// and (k+1)-th assignments (which `lower_expr` resolves to the current
/// version) sees version k.
pub proof fn lemma_version_count(
    st: BuildState,
    ret: Option<ValId>,
    stmts: Seq<Stmt>,
    name: Seq<char>,
)
    ensures
        cur_version(build_stmts(st, ret, stmts).0.versions, name) == cur_version(
            st.versions,
            name,
        ) + assign_count(stmts, name),
    decreases stmts.len(),
{
    if stmts.len() > 0 {
        let pre = stmts.drop_last();
        lemma_version_count(st, ret, pre, name);
        lemma_build_stmts_snoc(st, ret, pre, stmts.last());
        assert(stmts =~= pre.push(stmts.last()));
        let p = build_stmts(st, ret, pre);
        lemma_build_stmt_version_exact(p.0, p.1, stmts.last(), name);
    }
}

/// Prefix monotonicity of the assignment count.
proof fn lemma_assign_count_monotone(stmts: Seq<Stmt>, name: Seq<char>, i: int, j: int)
    requires
        0 <= i <= j <= stmts.len(),
    ensures
        assign_count(stmts.take(i), name) <= assign_count(stmts.take(j), name),
    decreases j - i,
{
    if i < j {
        lemma_assign_count_monotone(stmts, name, i, j - 1);
        assert(stmts.take(j).drop_last() =~= stmts.take(j - 1));
    }
}

/// Reassigning the same name at two statement positions produces strictly
/// increasing versions, so the identities are pairwise distinct.
pub proof fn lemma_versions_strictly_increase(stmts: Seq<Stmt>, name: Seq<char>, i: int, j: int)
    requires
        0 <= i < j < stmts.len(),
        assigns(stmts[i], name),
        assigns(stmts[j], name),
    ensures
        cur_version(build_stmts(init_state(), None, stmts.take(i + 1)).0.versions, name)
            < cur_version(build_stmts(init_state(), None, stmts.take(j + 1)).0.versions, name),
{
    lemma_version_count(init_state(), None, stmts.take(i + 1), name);
    lemma_version_count(init_state(), None, stmts.take(j + 1), name);
    assert(stmts.take(i + 1).drop_last() =~= stmts.take(i));
    assert(stmts.take(j + 1).drop_last() =~= stmts.take(j));
    assert(stmts.take(i + 1).last() == stmts[i]);
    assert(stmts.take(j + 1).last() == stmts[j]);
    lemma_assign_count_monotone(stmts, name, i + 1, j);
}

// ---------------------------------------------------------------------------
// The executable builder.
// ---------------------------------------------------------------------------

/// Builds an `SsaProgram` from a `Program`; construct one, convert once, and
/// discard it.
pub struct SsaBuilder {
    instructions: Vec<SsaInstruction>,
    var_versions: Vec<(String, usize)>,
    temp_counter: usize,
    public_inputs: Vec<SsaValue>,
    private_inputs: Vec<SsaValue>,
}

impl SsaBuilder {
    /// The abstract state of the builder.
    pub closed spec fn model(&self) -> BuildState {
        BuildState {
            instructions: self.instructions@.map_values(|i: SsaInstruction| i@),
            versions: vmap(self.var_versions@),
            temps: self.temp_counter as nat,
            public_inputs: self.public_inputs@.map_values(|v: SsaValue| v@),
            private_inputs: self.private_inputs@.map_values(|v: SsaValue| v@),
        }
    }

    /// The temporary counter never runs ahead of the instruction count, so a
    /// fresh temporary number always exists.
    closed spec fn wf(&self) -> bool {
        self.temp_counter as nat <= self.instructions@.len()
    }

    pub fn new() -> (r: SsaBuilder)
        ensures
            r.model() == init_state(),
    {
        let r = SsaBuilder {
            instructions: Vec::new(),
            var_versions: Vec::new(),
            temp_counter: 0,
            public_inputs: Vec::new(),
            private_inputs: Vec::new(),
        };
        proof {
            assert(r.model() =~= init_state());
        }
        r
    }

    /// The current (highest) version of `name`, 0 when never assigned.
    fn current_version(&self, name: &String) -> (v: usize)
        ensures
            v as nat == cur_version(vmap(self.var_versions@), name@),
    {
        let mut j = self.var_versions.len();
        proof {
            assert(self.var_versions@.take(j as int) =~= self.var_versions@);
        }
        while j > 0
            invariant
                j <= self.var_versions.len(),
                cur_version(vmap(self.var_versions@), name@) == cur_version(
                    vmap(self.var_versions@.take(j as int)),
                    name@,
                ),
            decreases j,
        {
            j = j - 1;
            proof {
                assert(self.var_versions@.take(j + 1).drop_last() =~= self.var_versions@.take(
                    j as int,
                ));
                assert(self.var_versions@.take(j + 1).last() == self.var_versions@[j as int]);
            }
            if self.var_versions[j].0 == *name {
                return self.var_versions[j].1;
            }
        }
        proof {
            assert(self.var_versions@.take(0) =~= Seq::<(String, usize)>::empty());
        }
        0
    }

    /// Allocates the next version for `name` and records it as current.
    fn next_variable_version(&mut self, name: &String) -> (v: usize)
        requires
            cur_version(old(self).model().versions, name@) < usize::MAX,
        ensures
            v as nat == cur_version(old(self).model().versions, name@) + 1,
            final(self).model() == (BuildState {
                versions: old(self).model().versions.insert(name@, v as nat),
                ..old(self).model()
            }),
            old(self).wf() ==> final(self).wf(),
    {
        let cur = self.current_version(name);
        let v = cur + 1;
        self.var_versions.push((name.clone(), v));
        proof {
            assert(self.var_versions@.drop_last() =~= old(self).var_versions@);
            assert(self.model() =~= (BuildState {
                versions: old(self).model().versions.insert(name@, v as nat),
                ..old(self).model()
            }));
        }
        v
    }

    /// Lowers an expression in operand position, appending its instructions.
    fn convert_expr(&mut self, e: &Expr) -> (r: SsaValue)
        requires
            old(self).wf(),
        ensures
            final(self).wf(),
            final(self).model() == lower_expr(old(self).model(), *e).0,
            r@ == lower_expr(old(self).model(), *e).1,
        decreases *e,
    {
        match e {
            Expr::Literal(n) => {
                let nm = temp_name_string(self.temp_counter);
                let dest = SsaValue { name: nm, version: 0 };
                self.instructions.push(SsaInstruction::Const(dup(&dest), *n));
                proof {
                    assert(vstd::std_specs::vec::spec_vec_len(&self.instructions)
                        == self.instructions@.len());
                }
                self.temp_counter = self.temp_counter + 1;
                proof {
                    assert(final(self).model() =~= lower_expr(old(self).model(), *e).0);
                }
                dest
            },
            Expr::Var(x) => {
                let ver = self.current_version(x);
                SsaValue { name: x.clone(), version: ver }
            },
            Expr::Add(l, r) => {
                let lv = self.convert_expr(l);
                let rv = self.convert_expr(r);
                let nm = temp_name_string(self.temp_counter);
                let dest = SsaValue { name: nm, version: 0 };
                self.instructions.push(SsaInstruction::Add(dup(&dest), lv, rv));
                proof {
                    assert(vstd::std_specs::vec::spec_vec_len(&self.instructions)
                        == self.instructions@.len());
                }
                self.temp_counter = self.temp_counter + 1;
                proof {
                    assert(final(self).model() =~= lower_expr(old(self).model(), *e).0);
                }
                dest
            },
            Expr::Mul(l, r) => {
                let lv = self.convert_expr(l);
                let rv = self.convert_expr(r);
                let nm = temp_name_string(self.temp_counter);
                let dest = SsaValue { name: nm, version: 0 };
                self.instructions.push(SsaInstruction::Mul(dup(&dest), lv, rv));
                proof {
                    assert(vstd::std_specs::vec::spec_vec_len(&self.instructions)
                        == self.instructions@.len());
                }
                self.temp_counter = self.temp_counter + 1;
                proof {
                    assert(final(self).model() =~= lower_expr(old(self).model(), *e).0);
                }
                dest
            },
        }
    }

    /// Converts a program to SSA form. The program must contain a return
    /// statement; a program without one has no defined output.
    pub fn convert(self, program: Program) -> (r: SsaProgram)
        requires
            self.model() == init_state(),
            has_return(program.statements@),
        ensures
            r@ == convert_model(program.statements@),
    {
        let mut this = self;
        let ghost stmts = program.statements@;
        let mut ret: Option<SsaValue> = None;
        let n = program.statements.len();
        for i in 0..n
            invariant
                n == stmts.len(),
                program.statements@ == stmts,
                this.wf(),
                this.model() == build_stmts(init_state(), None, stmts.take(i as int)).0,
                match ret {
                    Some(rv) => build_stmts(init_state(), None, stmts.take(i as int)).1 == Some(
                        rv@,
                    ),
                    None => build_stmts(init_state(), None, stmts.take(i as int)).1 is None,
                },
                forall|nm: Seq<char>| #[trigger] cur_version(this.model().versions, nm) <= i as nat,
        {
            let ghost pre = build_stmts(init_state(), None, stmts.take(i as int));
            let stmt = &program.statements[i];
            match stmt {
                Stmt::PublicInput { name } => {
                    let v = this.next_variable_version(name);
                    let sv = SsaValue { name: name.clone(), version: v };
                    this.public_inputs.push(sv);
                },
                Stmt::PrivateInput { name } => {
                    let v = this.next_variable_version(name);
                    let sv = SsaValue { name: name.clone(), version: v };
                    this.private_inputs.push(sv);
                },
                Stmt::ConstDecl { name, value } => {
                    let v = this.next_variable_version(name);
                    let sv = SsaValue { name: name.clone(), version: v };
                    this.instructions.push(SsaInstruction::Const(sv, *value));
                    proof {
                        assert(vstd::std_specs::vec::spec_vec_len(&this.instructions)
                            == this.instructions@.len());
                    }
                    this.temp_counter = this.temp_counter + 1;
                },
                Stmt::Let { name, expr } => {
                    match expr {
                        Expr::Var(_) => {
                            // a bare variable reference emits no instruction;
                            // the fresh version has no producer of its own
                            let _version = this.next_variable_version(name);
                        },
                        Expr::Literal(c) => {
                            let v = this.next_variable_version(name);
                            let sv = SsaValue { name: name.clone(), version: v };
                            this.instructions.push(SsaInstruction::Const(sv, *c));
                            proof {
                                assert(vstd::std_specs::vec::spec_vec_len(&this.instructions)
                                    == this.instructions@.len());
                            }
                            this.temp_counter = this.temp_counter + 1;
                        },
                        Expr::Add(l, r) => {
                            let lv = this.convert_expr(l);
                            let rv = this.convert_expr(r);
                            proof {
                                lemma_lower_expr_frame(pre.0, **l);
                                lemma_lower_expr_frame(lower_expr(pre.0, **l).0, **r);
                            }
                            let v = this.next_variable_version(name);
                            let sv = SsaValue { name: name.clone(), version: v };
                            this.instructions.push(SsaInstruction::Add(sv, lv, rv));
                            proof {
                                assert(vstd::std_specs::vec::spec_vec_len(&this.instructions)
                                    == this.instructions@.len());
                            }
                            this.temp_counter = this.temp_counter + 1;
                        },
                        Expr::Mul(l, r) => {
                            let lv = this.convert_expr(l);
                            let rv = this.convert_expr(r);
                            proof {
                                lemma_lower_expr_frame(pre.0, **l);
                                lemma_lower_expr_frame(lower_expr(pre.0, **l).0, **r);
                            }
                            let v = this.next_variable_version(name);
                            let sv = SsaValue { name: name.clone(), version: v };
                            this.instructions.push(SsaInstruction::Mul(sv, lv, rv));
                            proof {
                                assert(vstd::std_specs::vec::spec_vec_len(&this.instructions)
                                    == this.instructions@.len());
                            }
                            this.temp_counter = this.temp_counter + 1;
                        },
                    }
                },
                Stmt::Return(expr) => {
                    let rv = this.convert_expr(expr);
                    ret = Some(rv);
                },
            }
            proof {
                lemma_build_stmts_snoc(init_state(), None, stmts.take(i as int), stmts[i as int]);
                assert(stmts.take(i + 1) =~= stmts.take(i as int).push(stmts[i as int]));
                assert(this.model() =~= build_stmts(init_state(), None, stmts.take(i + 1)).0);
                assert forall|nm: Seq<char>| #[trigger] cur_version(this.model().versions, nm)
                    <= i + 1 as nat by {
                    lemma_build_stmt_version_bound(pre.0, pre.1, stmts[i as int], nm);
                }
            }
        }
        proof {
            assert(stmts.take(n as int) =~= stmts);
            lemma_has_return_some(init_state(), None, stmts);
        }
        match ret {
            Some(rv) => {
                let r = SsaProgram {
                    instructions: this.instructions,
                    return_value: rv,
                    public_inputs: this.public_inputs,
                    private_inputs: this.private_inputs,
                };
                proof {
                    assert(r@ =~= convert_model(stmts));
                }
                r
            },
            None => unreached(),
        }
    }
}

} // verus!
