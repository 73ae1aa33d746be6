use zkc::ast::{Expr, Program, Stmt};
use zkc::circuit::{Circuit, CircuitBuilder, Gate, Wire};
use zkc::optimizer::{ConstantFolder, DeadCodeEliminator};
use zkc::ssa::{SsaBuilder, SsaInstruction, SsaProgram, SsaValue};
use zkc::witness::{InputFile, WitnessCalculator};

fn sv(name: &str, version: usize) -> SsaValue {
    SsaValue { name: name.to_string(), version }
}

fn same_value(a: &SsaValue, b: &SsaValue) -> bool {
    a.name == b.name && a.version == b.version
}

fn same_instruction(a: &SsaInstruction, b: &SsaInstruction) -> bool {
    match (a, b) {
        (SsaInstruction::Const(d1, v1), SsaInstruction::Const(d2, v2)) => {
            same_value(d1, d2) && v1 == v2
        }
        (SsaInstruction::Add(d1, l1, r1), SsaInstruction::Add(d2, l2, r2)) => {
            same_value(d1, d2) && same_value(l1, l2) && same_value(r1, r2)
        }
        (SsaInstruction::Mul(d1, l1, r1), SsaInstruction::Mul(d2, l2, r2)) => {
            same_value(d1, d2) && same_value(l1, l2) && same_value(r1, r2)
        }
        (SsaInstruction::Assert(l1, r1), SsaInstruction::Assert(l2, r2)) => {
            same_value(l1, l2) && same_value(r1, r2)
        }
        _ => false,
    }
}

fn dup_value(v: &SsaValue) -> SsaValue {
    SsaValue { name: v.name.clone(), version: v.version }
}

fn dup_instruction(i: &SsaInstruction) -> SsaInstruction {
    match i {
        SsaInstruction::Const(d, v) => SsaInstruction::Const(dup_value(d), *v),
        SsaInstruction::Add(d, l, r) => {
            SsaInstruction::Add(dup_value(d), dup_value(l), dup_value(r))
        }
        SsaInstruction::Mul(d, l, r) => {
            SsaInstruction::Mul(dup_value(d), dup_value(l), dup_value(r))
        }
        SsaInstruction::Assert(l, r) => SsaInstruction::Assert(dup_value(l), dup_value(r)),
    }
}

fn dup_program(p: &SsaProgram) -> SsaProgram {
    SsaProgram {
        instructions: p.instructions.iter().map(dup_instruction).collect(),
        return_value: dup_value(&p.return_value),
        public_inputs: p.public_inputs.iter().map(dup_value).collect(),
        private_inputs: p.private_inputs.iter().map(dup_value).collect(),
    }
}

/// Folding preserves the instruction count.
#[test]
fn folding_preserves_count() {
    let program = SsaProgram {
        instructions: vec![
            SsaInstruction::Const(sv("t0", 0), 2),
            SsaInstruction::Const(sv("t1", 0), 3),
            SsaInstruction::Add(sv("a", 1), sv("t0", 0), sv("t1", 0)),
            SsaInstruction::Mul(sv("t2", 0), sv("a", 1), sv("x", 1)),
        ],
        return_value: sv("t2", 0),
        public_inputs: vec![sv("x", 1)],
        private_inputs: vec![],
    };
    let before = program.instructions.len();
    let folded = ConstantFolder::optimize(program);
    assert_eq!(folded.instructions.len(), before);
}

/// Arithmetic on two known constants collapses to the directly evaluated
/// constant; an unknown operand leaves the instruction unchanged.
#[test]
fn folding_evaluates_known_operands() {
    let program = SsaProgram {
        instructions: vec![
            SsaInstruction::Const(sv("t0", 0), 2),
            SsaInstruction::Const(sv("t1", 0), 3),
            SsaInstruction::Add(sv("a", 1), sv("t0", 0), sv("t1", 0)),
            SsaInstruction::Mul(sv("b", 1), sv("a", 1), sv("t1", 0)),
            SsaInstruction::Add(sv("c", 1), sv("x", 1), sv("t0", 0)),
        ],
        return_value: sv("c", 1),
        public_inputs: vec![sv("x", 1)],
        private_inputs: vec![],
    };
    let folded = ConstantFolder::optimize(program);
    assert!(same_instruction(
        &folded.instructions[2],
        &SsaInstruction::Const(sv("a", 1), 5)
    ));
    assert!(same_instruction(
        &folded.instructions[3],
        &SsaInstruction::Const(sv("b", 1), 15)
    ));
    // `x` is not a known constant, so the last sum is kept as is
    assert!(same_instruction(
        &folded.instructions[4],
        &SsaInstruction::Add(sv("c", 1), sv("x", 1), sv("t0", 0))
    ));
}

/// Folding wraps around on overflow.
#[test]
fn folding_wraps_on_overflow() {
    let program = SsaProgram {
        instructions: vec![
            SsaInstruction::Const(sv("t0", 0), i32::MAX),
            SsaInstruction::Const(sv("t1", 0), 1),
            SsaInstruction::Add(sv("a", 1), sv("t0", 0), sv("t1", 0)),
        ],
        return_value: sv("a", 1),
        public_inputs: vec![],
        private_inputs: vec![],
    };
    let folded = ConstantFolder::optimize(program);
    assert!(same_instruction(
        &folded.instructions[2],
        &SsaInstruction::Const(sv("a", 1), i32::MIN)
    ));
}

/// Running the eliminator twice yields the same program as running it once.
#[test]
fn elimination_is_idempotent() {
    let program = SsaProgram {
        instructions: vec![
            SsaInstruction::Const(sv("t0", 0), 2),
            SsaInstruction::Add(sv("live", 1), sv("x", 1), sv("t0", 0)),
            SsaInstruction::Const(sv("dead", 1), 9),
            SsaInstruction::Mul(sv("t1", 0), sv("live", 1), sv("t0", 0)),
        ],
        return_value: sv("t1", 0),
        public_inputs: vec![sv("x", 1)],
        private_inputs: vec![],
    };
    let once = DeadCodeEliminator::eliminate(program);
    let twice = DeadCodeEliminator::eliminate(dup_program(&once));
    assert_eq!(once.instructions.len(), twice.instructions.len());
    for (a, b) in once.instructions.iter().zip(twice.instructions.iter()) {
        assert!(same_instruction(a, b));
    }
    assert!(same_value(&once.return_value, &twice.return_value));
}

/// Each distinct SSA value maps to exactly one wire and ids are dense from 0.
#[test]
fn wires_are_unique_and_dense() {
    let program = SsaProgram {
        instructions: vec![
            SsaInstruction::Const(sv("t0", 0), 2),
            SsaInstruction::Add(sv("y", 1), sv("x", 1), sv("t0", 0)),
            SsaInstruction::Mul(sv("t1", 0), sv("y", 1), sv("y", 1)),
        ],
        return_value: sv("t1", 0),
        public_inputs: vec![sv("x", 1)],
        private_inputs: vec![],
    };
    let circuit = CircuitBuilder::from_ssa(program);
    // wires: x -> 0, t0 -> 1, y -> 2, t1 -> 3
    assert_eq!(circuit.public_inputs[0].1.id, 0);
    let mut seen = vec![false; 4];
    let mut outputs = vec![circuit.output_wire.id];
    for gate in &circuit.gates {
        match gate {
            Gate::Const { output, .. } => outputs.push(output.id),
            Gate::Add { output, left, right } | Gate::Mul { output, left, right } => {
                outputs.push(output.id);
                outputs.push(left.id);
                outputs.push(right.id);
            }
            Gate::Assert { output, left, right } => {
                outputs.push(output.id);
                outputs.push(left.id);
                outputs.push(right.id);
            }
        }
    }
    for id in outputs {
        assert!(id < 4);
        seen[id] = true;
    }
    seen[circuit.public_inputs[0].1.id] = true;
    assert!(seen.iter().all(|s| *s));
    // the same value resolved twice gets the same wire
    match &circuit.gates[2] {
        Gate::Mul { left, right, .. } => assert_eq!(left.id, right.id),
        other => panic!("expected a product gate, found {:?}", other),
    }
}

fn example_circuit() -> Circuit {
    let program = Program {
        statements: vec![
            Stmt::PublicInput { name: "x".to_string() },
            Stmt::Let {
                name: "y".to_string(),
                expr: Expr::Mul(
                    Box::new(Expr::Var("x".to_string())),
                    Box::new(Expr::Literal(3)),
                ),
            },
            Stmt::Return(Expr::Var("y".to_string())),
        ],
    };
    let ssa = SsaBuilder::new().convert(program);
    CircuitBuilder::from_ssa(ssa)
}

/// The lowering produces one constraint per gate in the documented shapes,
/// and the witness satisfies each of them (`(a.x) * (b.x) = (c.x)` with the
/// assignment's slot 0 fixed at 1 where no gate or input claims wire 0).
#[test]
fn r1cs_matches_witness() {
    // keep wire 0 free for the constant-one slot by giving the program no
    // use of wire 0 other than an input valued 1
    let program = Program {
        statements: vec![
            Stmt::PublicInput { name: "one".to_string() },
            Stmt::PublicInput { name: "x".to_string() },
            Stmt::Let {
                name: "y".to_string(),
                expr: Expr::Mul(
                    Box::new(Expr::Var("x".to_string())),
                    Box::new(Expr::Var("x".to_string())),
                ),
            },
            Stmt::Return(Expr::Var("y".to_string())),
        ],
    };
    let ssa = SsaBuilder::new().convert(program);
    let circuit = CircuitBuilder::from_ssa(ssa);
    let system = circuit.to_r1cs();
    let mut calculator = WitnessCalculator::new();
    let inputs = InputFile {
        public: Some(vec![("one".to_string(), 1), ("x".to_string(), 7)]),
        private: None,
    };
    let result = calculator.calculate_witness(&circuit, inputs);
    assert!(matches!(result, Ok(49)));
    let mut witness = calculator.witness_vector();
    witness.resize(system.num_variables, 0);
    witness[0] = 1;
    assert_eq!(system.num_constraints, system.constraints.len());
    for constraint in &system.constraints {
        let dot = |row: &Vec<i32>| -> i64 {
            row.iter()
                .zip(witness.iter())
                .map(|(a, x)| *a as i64 * *x as i64)
                .sum()
        };
        let a = dot(&constraint.a);
        let b = dot(&constraint.b);
        let c = dot(&constraint.c);
        assert_eq!((a * b - c) % (1i64 << 32), 0);
    }
}

/// The constraint rows follow the documented encoding table.
#[test]
fn r1cs_encoding_shapes() {
    let circuit = example_circuit();
    let system = circuit.to_r1cs();
    // gates: Const(w1 = 3) [w0 = x], Mul(w2 = w0 * w1); output resolves w2
    assert_eq!(system.num_variables, 3);
    assert_eq!(system.constraints.len(), 2);
    let c0 = &system.constraints[0];
    assert_eq!(c0.a, vec![1, 0, 0]);
    assert_eq!(c0.b, vec![3, 0, 0]);
    assert_eq!(c0.c, vec![0, 1, 0]);
    let c1 = &system.constraints[1];
    assert_eq!(c1.a, vec![1, 0, 0]);
    assert_eq!(c1.b, vec![0, 1, 0]);
    assert_eq!(c1.c, vec![0, 0, 1]);
    assert_eq!(system.output_wire, 2);
    assert_eq!(system.public_inputs, vec![("x".to_string(), 0)]);
}

/// The witness serializes densely, unwritten wires reading zero.
#[test]
fn witness_vector_is_dense() {
    let circuit = example_circuit();
    let mut calculator = WitnessCalculator::new();
    let inputs = InputFile {
        public: Some(vec![("x".to_string(), 5)]),
        private: None,
    };
    let result = calculator.calculate_witness(&circuit, inputs);
    assert!(matches!(result, Ok(15)));
    let witness = calculator.witness_vector();
    assert_eq!(witness, vec![5, 3, 15]);
    let named = calculator.named_values(&circuit.public_inputs);
    assert_eq!(named, vec![("x".to_string(), 5)]);
}

/// Witness arithmetic wraps around on overflow.
#[test]
fn witness_wraps_on_overflow() {
    let program = Program {
        statements: vec![
            Stmt::PublicInput { name: "x".to_string() },
            Stmt::Return(Expr::Add(
                Box::new(Expr::Var("x".to_string())),
                Box::new(Expr::Literal(1)),
            )),
        ],
    };
    let ssa = SsaBuilder::new().convert(program);
    let circuit = CircuitBuilder::from_ssa(ssa);
    let mut calculator = WitnessCalculator::new();
    let inputs = InputFile {
        public: Some(vec![("x".to_string(), i32::MAX)]),
        private: None,
    };
    let result = calculator.calculate_witness(&circuit, inputs);
    assert!(matches!(result, Ok(i32::MIN)));
}

/// An assertion instruction survives elimination with its operands, lowers
/// to a difference constraint on a fresh output wire, and evaluates to the
/// wrapping difference of its operands.
#[test]
fn assertion_gates_flow_through() {
    let program = SsaProgram {
        instructions: vec![
            SsaInstruction::Const(sv("a", 1), 5),
            SsaInstruction::Const(sv("b", 1), 5),
            SsaInstruction::Assert(sv("a", 1), sv("b", 1)),
        ],
        return_value: sv("a", 1),
        public_inputs: vec![],
        private_inputs: vec![],
    };
    let optimized = DeadCodeEliminator::eliminate(program);
    assert_eq!(optimized.instructions.len(), 3);
    let circuit = CircuitBuilder::from_ssa(optimized);
    assert_eq!(circuit.gates.len(), 3);
    let (assert_out, left, right) = match &circuit.gates[2] {
        Gate::Assert { output, left, right } => (*output, *left, *right),
        other => panic!("expected an assertion gate, found {:?}", other),
    };
    assert_ne!(assert_out.id, left.id);
    assert_ne!(assert_out.id, right.id);
    let system = circuit.to_r1cs();
    let row = &system.constraints[2];
    assert_eq!(row.a[left.id], 1);
    assert_eq!(row.a[right.id], -1 + if left.id == right.id { 1 } else { 0 });
    assert_eq!(row.b[0], 1);
    assert_eq!(row.c[assert_out.id], 1);
    let mut calculator = WitnessCalculator::new();
    let inputs = InputFile { public: None, private: None };
    let result = calculator.calculate_witness(&circuit, inputs);
    assert!(matches!(result, Ok(5)));
    let witness = calculator.witness_vector();
    assert_eq!(witness[assert_out.id], 0);
}

/// A variable read before any assignment resolves to version 0, which no
/// declaration produces; its wire is allocated but never written, so the
/// witness run reports the missing wire.
#[test]
fn unassigned_read_resolves_to_version_zero() {
    let program = Program {
        statements: vec![Stmt::Return(Expr::Var("ghostly".to_string()))],
    };
    let ssa = SsaBuilder::new().convert(program);
    assert_eq!(ssa.return_value.name, "ghostly");
    assert_eq!(ssa.return_value.version, 0);
    let circuit = CircuitBuilder::from_ssa(ssa);
    let mut calculator = WitnessCalculator::new();
    let inputs = InputFile { public: None, private: None };
    let result = calculator.calculate_witness(&circuit, inputs);
    assert!(matches!(
        result,
        Err(zkc::witness::WitnessError::MissingWireValue(Wire { id: 0 }))
    ));
}
