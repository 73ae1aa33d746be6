use zkc::ast::{Expr, Program, Stmt};
use zkc::circuit::{CircuitBuilder, Gate};
use zkc::optimizer::{ConstantFolder, DeadCodeEliminator};
use zkc::ssa::{SsaBuilder, SsaInstruction};
use zkc::witness::{InputFile, WitnessCalculator, WitnessError};

fn var(name: &str) -> Expr {
    Expr::Var(name.to_string())
}

fn lit(n: i32) -> Expr {
    Expr::Literal(n)
}

fn add(l: Expr, r: Expr) -> Expr {
    Expr::Add(Box::new(l), Box::new(r))
}

fn mul(l: Expr, r: Expr) -> Expr {
    Expr::Mul(Box::new(l), Box::new(r))
}

/// Source: `public x` / `let y = x + 2` / `return y * 3`, input `x = 5`,
/// witness output 21.
#[test]
fn end_to_end_public_input() {
    let program = Program {
        statements: vec![
            Stmt::PublicInput { name: "x".to_string() },
            Stmt::Let { name: "y".to_string(), expr: add(var("x"), lit(2)) },
            Stmt::Return(mul(var("y"), lit(3))),
        ],
    };
    let ssa = SsaBuilder::new().convert(program);
    let folded = ConstantFolder::optimize(ssa);
    let optimized = DeadCodeEliminator::eliminate(folded);
    let circuit = CircuitBuilder::from_ssa(optimized);
    let mut calculator = WitnessCalculator::new();
    let inputs = InputFile {
        public: Some(vec![("x".to_string(), 5)]),
        private: None,
    };
    let result = calculator.calculate_witness(&circuit, inputs);
    assert!(matches!(result, Ok(21)));
}

/// Source: `let a = 2 + 3` / `return a * a` (no inputs): after folding and
/// elimination a single constant gate carrying 25 remains; the witness is 25
/// with no inputs supplied.
#[test]
fn end_to_end_folds_to_constant() {
    let program = Program {
        statements: vec![
            Stmt::Let { name: "a".to_string(), expr: add(lit(2), lit(3)) },
            Stmt::Return(mul(var("a"), var("a"))),
        ],
    };
    let ssa = SsaBuilder::new().convert(program);
    let folded = ConstantFolder::optimize(ssa);
    let optimized = DeadCodeEliminator::eliminate(folded);
    assert_eq!(optimized.instructions.len(), 1);
    match &optimized.instructions[0] {
        SsaInstruction::Const(dest, value) => {
            assert_eq!(*value, 25);
            assert_eq!(dest.name, optimized.return_value.name);
            assert_eq!(dest.version, optimized.return_value.version);
        }
        other => panic!("expected a constant instruction, found {:?}", other),
    }
    let circuit = CircuitBuilder::from_ssa(optimized);
    assert_eq!(circuit.gates.len(), 1);
    match &circuit.gates[0] {
        Gate::Const { output, value } => {
            assert_eq!(*value, 25);
            assert_eq!(output.id, circuit.output_wire.id);
        }
        other => panic!("expected a constant gate, found {:?}", other),
    }
    let mut calculator = WitnessCalculator::new();
    let inputs = InputFile { public: None, private: None };
    let result = calculator.calculate_witness(&circuit, inputs);
    assert!(matches!(result, Ok(25)));
}

/// Dead code: `public x` / `let unused = x + 1` / `return 7`. The binding of
/// `unused` consumes the declared input, so the input-dependence phase keeps
/// its instruction (the input must still materialize as a wire); the witness
/// run with `x` omitted entirely fails as no-public-inputs-provided.
#[test]
fn end_to_end_dead_code_keeps_input_wire() {
    let program = Program {
        statements: vec![
            Stmt::PublicInput { name: "x".to_string() },
            Stmt::Let { name: "unused".to_string(), expr: add(var("x"), lit(1)) },
            Stmt::Return(lit(7)),
        ],
    };
    let ssa = SsaBuilder::new().convert(program);
    let folded = ConstantFolder::optimize(ssa);
    let optimized = DeadCodeEliminator::eliminate(folded);
    // the instruction defining `unused` is input-dependent and survives
    assert!(optimized
        .instructions
        .iter()
        .any(|i| matches!(i, SsaInstruction::Add(d, _, _) if d.name == "unused")));
    let circuit = CircuitBuilder::from_ssa(optimized);
    assert_eq!(circuit.public_inputs.len(), 1);
    assert_eq!(circuit.public_inputs[0].0, "x");
    let mut calculator = WitnessCalculator::new();
    let inputs = InputFile { public: None, private: None };
    let result = calculator.calculate_witness(&circuit, inputs);
    assert!(matches!(result, Err(WitnessError::NoPublicInputsProvided)));
}

/// A binding no one needs and no input feeds is removed.
#[test]
fn dead_constant_binding_is_removed() {
    let program = Program {
        statements: vec![
            Stmt::Let { name: "unused".to_string(), expr: add(lit(1), lit(2)) },
            Stmt::Return(lit(7)),
        ],
    };
    let ssa = SsaBuilder::new().convert(program);
    let optimized = DeadCodeEliminator::eliminate(ssa);
    assert!(!optimized
        .instructions
        .iter()
        .any(|i| matches!(i, SsaInstruction::Add(d, _, _) | SsaInstruction::Const(d, _) if d.name == "unused")));
    // the return value's producing instruction survives
    assert!(optimized
        .instructions
        .iter()
        .any(|i| matches!(i, SsaInstruction::Const(d, 7) if d.name == optimized.return_value.name)));
}

/// Missing input: a circuit declaring private `secret` fails with
/// no-private-inputs-provided when the private kind is absent entirely, and
/// with missing-private-input for `secret` when it is present but empty.
#[test]
fn end_to_end_missing_private_input() {
    let make_circuit = || {
        let program = Program {
            statements: vec![
                Stmt::PrivateInput { name: "secret".to_string() },
                Stmt::Return(var("secret")),
            ],
        };
        let ssa = SsaBuilder::new().convert(program);
        CircuitBuilder::from_ssa(ssa)
    };

    let circuit = make_circuit();
    let mut calculator = WitnessCalculator::new();
    let inputs = InputFile { public: None, private: None };
    let result = calculator.calculate_witness(&circuit, inputs);
    assert!(matches!(result, Err(WitnessError::NoPrivateInputsProvided)));

    let circuit = make_circuit();
    let mut calculator = WitnessCalculator::new();
    let inputs = InputFile { public: None, private: Some(vec![]) };
    let result = calculator.calculate_witness(&circuit, inputs);
    match result {
        Err(WitnessError::MissingPrivateInput(name)) => assert_eq!(name, "secret"),
        other => panic!("expected a missing private input, found {:?}", other),
    }
}

/// A supplied-but-incomplete public map names the missing input.
#[test]
fn missing_public_input_is_named() {
    let program = Program {
        statements: vec![
            Stmt::PublicInput { name: "a".to_string() },
            Stmt::PublicInput { name: "b".to_string() },
            Stmt::Return(add(var("a"), var("b"))),
        ],
    };
    let ssa = SsaBuilder::new().convert(program);
    let circuit = CircuitBuilder::from_ssa(ssa);
    let mut calculator = WitnessCalculator::new();
    let inputs = InputFile {
        public: Some(vec![("a".to_string(), 1)]),
        private: None,
    };
    let result = calculator.calculate_witness(&circuit, inputs);
    match result {
        Err(WitnessError::MissingPublicInput(name)) => assert_eq!(name, "b"),
        other => panic!("expected a missing public input, found {:?}", other),
    }
}

/// Reassigning a name yields distinct, strictly increasing versions, and a
/// read between assignments resolves to the version current at the read.
#[test]
fn ssa_versions_increase() {
    let program = Program {
        statements: vec![
            Stmt::Let { name: "x".to_string(), expr: lit(1) },
            Stmt::Let { name: "y".to_string(), expr: var("x") },
            Stmt::Let { name: "x".to_string(), expr: lit(2) },
            Stmt::Return(var("x")),
        ],
    };
    let ssa = SsaBuilder::new().convert(program);
    // x.1 = 1; x.2 = 2; the return reads the latest version of x
    match &ssa.instructions[0] {
        SsaInstruction::Const(d, 1) => {
            assert_eq!(d.name, "x");
            assert_eq!(d.version, 1);
        }
        other => panic!("unexpected first instruction {:?}", other),
    }
    match &ssa.instructions[1] {
        SsaInstruction::Const(d, 2) => {
            assert_eq!(d.name, "x");
            assert_eq!(d.version, 2);
        }
        other => panic!("unexpected second instruction {:?}", other),
    }
    assert_eq!(ssa.return_value.name, "x");
    assert_eq!(ssa.return_value.version, 2);
}

/// Intermediate expression results get fresh synthetic temporaries.
#[test]
fn temporaries_are_numbered() {
    let program = Program {
        statements: vec![Stmt::Return(add(lit(1), add(lit(2), lit(3))))],
    };
    let ssa = SsaBuilder::new().convert(program);
    // t0 = 1; t1 = 2; t2 = 3; t3 = t1 + t2; t4 = t0 + t3
    assert_eq!(ssa.instructions.len(), 5);
    match &ssa.instructions[0] {
        SsaInstruction::Const(d, 1) => {
            assert_eq!(d.name, "t0");
            assert_eq!(d.version, 0);
        }
        other => panic!("unexpected first instruction {:?}", other),
    }
    assert_eq!(ssa.return_value.name, "t4");
    assert_eq!(ssa.return_value.version, 0);
}
