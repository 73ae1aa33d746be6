use zkc::ast::{Expr, Stmt};
use zkc::circuit::CircuitBuilder;
use zkc::lexer::Lexer;
use zkc::optimizer::{ConstantFolder, DeadCodeEliminator};
use zkc::parser::Parser;
use zkc::ssa::SsaBuilder;
use zkc::token::TokenType;
use zkc::witness::{InputFile, WitnessCalculator};

#[test]
fn tokenize_keywords_symbols_and_spans() {
    let mut lexer = Lexer::new("let x = 42 + foo");
    let tokens = lexer.tokenize();
    assert_eq!(tokens.len(), 7);
    assert!(matches!(tokens[0].token_type, TokenType::Let));
    match &tokens[1].token_type {
        TokenType::Identifier(name) => assert_eq!(name, "x"),
        other => panic!("expected an identifier, found {:?}", other),
    }
    assert!(matches!(tokens[2].token_type, TokenType::Equals));
    assert!(matches!(tokens[3].token_type, TokenType::Number(42)));
    assert_eq!(tokens[3].span, (8, 10));
    assert!(matches!(tokens[4].token_type, TokenType::Plus));
    match &tokens[5].token_type {
        TokenType::Identifier(name) => assert_eq!(name, "foo"),
        other => panic!("expected an identifier, found {:?}", other),
    }
    assert!(matches!(tokens[6].token_type, TokenType::Eof));
}

#[test]
fn tokenize_parens_and_star() {
    let mut lexer = Lexer::new("return (a * 3)");
    let tokens = lexer.tokenize();
    assert!(matches!(tokens[0].token_type, TokenType::Return));
    assert!(matches!(tokens[1].token_type, TokenType::LeftParen));
    assert!(matches!(tokens[3].token_type, TokenType::Star));
    assert!(matches!(tokens[4].token_type, TokenType::Number(3)));
    assert!(matches!(tokens[5].token_type, TokenType::RightParen));
    assert!(matches!(tokens[6].token_type, TokenType::Eof));
}

#[test]
fn tokenize_empty_source_yields_only_eof() {
    let mut lexer = Lexer::new("   \n\t ");
    let tokens = lexer.tokenize();
    assert_eq!(tokens.len(), 1);
    assert!(matches!(tokens[0].token_type, TokenType::Eof));
}

#[test]
fn parse_statements() {
    let mut lexer = Lexer::new("public x\nprivate w\nconst k = 9\nlet y = x + k\nreturn y * w");
    let tokens = lexer.tokenize();
    let mut parser = Parser::new(tokens);
    let program = parser.parse().expect("the program parses");
    assert_eq!(program.statements.len(), 5);
    assert!(matches!(&program.statements[0], Stmt::PublicInput { name } if name == "x"));
    assert!(matches!(&program.statements[1], Stmt::PrivateInput { name } if name == "w"));
    assert!(matches!(&program.statements[2], Stmt::ConstDecl { name, value: 9 } if name == "k"));
    match &program.statements[3] {
        Stmt::Let { name, expr } => {
            assert_eq!(name, "y");
            assert!(matches!(expr, Expr::Add(_, _)));
        }
        other => panic!("expected a binding, found {:?}", other),
    }
    assert!(matches!(&program.statements[4], Stmt::Return(Expr::Mul(_, _))));
}

#[test]
fn parse_is_left_associative() {
    let mut lexer = Lexer::new("return 1 + 2 * 3");
    let tokens = lexer.tokenize();
    let mut parser = Parser::new(tokens);
    let program = parser.parse().expect("the program parses");
    // operators chain left to right without precedence: (1 + 2) * 3
    match &program.statements[0] {
        Stmt::Return(Expr::Mul(left, right)) => {
            assert!(matches!(**left, Expr::Add(_, _)));
            assert!(matches!(**right, Expr::Literal(3)));
        }
        other => panic!("expected a product at the top, found {:?}", other),
    }
}

#[test]
fn parse_rejects_stray_token() {
    let mut lexer = Lexer::new("let = 5");
    let tokens = lexer.tokenize();
    let mut parser = Parser::new(tokens);
    assert!(parser.parse().is_err());
}

#[test]
fn parse_rejects_unclosed_paren() {
    let mut lexer = Lexer::new("return (1 + 2");
    let tokens = lexer.tokenize();
    let mut parser = Parser::new(tokens);
    assert!(parser.parse().is_err());
}

/// The whole pipeline from source text: `public x` / `let y = x + 2` /
/// `return y * 3` with `x = 5` computes 21.
#[test]
fn source_to_witness() {
    let source = "public x\nlet y = x + 2\nreturn y * 3";
    let mut lexer = Lexer::new(source);
    let tokens = lexer.tokenize();
    let mut parser = Parser::new(tokens);
    let program = parser.parse().expect("the program parses");
    let ssa = SsaBuilder::new().convert(program);
    let folded = ConstantFolder::optimize(ssa);
    let optimized = DeadCodeEliminator::eliminate(folded);
    let circuit = CircuitBuilder::from_ssa(optimized);
    let mut calculator = WitnessCalculator::new();
    let inputs = InputFile {
        public: Some(vec![("x".to_string(), 5)]),
        private: None,
    };
    let result = calculator.calculate_witness(&circuit, inputs);
    assert!(matches!(result, Ok(21)));
}
