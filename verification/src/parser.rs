//! The recursive-descent parser: turns tokens into the abstract syntax tree.
//!
//! Grammar:
//! ```text
//! program   = statement*
//! statement = "public" IDENT
//!           | "private" IDENT
//!           | "const" IDENT "=" NUMBER
//!           | "let" IDENT "=" expr
//!           | "return" expr
//! expr      = term ("+" term | "*" term)*
//! term      = IDENT | NUMBER | "(" expr ")"
//! ```

use crate::ast::Expr;
use crate::ast::Program;
use crate::ast::Stmt;
use crate::token::Token;
use crate::token::TokenType;
use crate::token::TokenTypeView;
use crate::token::TokenView;
use vstd::prelude::*;
use vstd::string::StrSliceExecFns;
use vstd::string::StringExecFns;

verus! {

/// A parse failure, with a short description.
#[derive(Debug)]
pub struct ParseError {
    pub message: String,
}

fn parse_error(message: &str) -> (r: ParseError)
    ensures
        r.message@ == message@,
{
    ParseError { message: message.to_owned() }
}

/// Copies a token; the copy has the same image.
fn dup_token(t: &Token) -> (r: Token)
    ensures
        r@ == t@,
{
    let token_type = match &t.token_type {
        TokenType::Let => TokenType::Let,
        TokenType::Return => TokenType::Return,
        TokenType::Assert => TokenType::Assert,
        TokenType::Public => TokenType::Public,
        TokenType::Private => TokenType::Private,
        TokenType::Const => TokenType::Const,
        TokenType::Star => TokenType::Star,
        TokenType::Plus => TokenType::Plus,
        TokenType::Equals => TokenType::Equals,
        TokenType::EqualsEquals => TokenType::EqualsEquals,
        TokenType::Identifier(s) => TokenType::Identifier(s.clone()),
        TokenType::Number(n) => TokenType::Number(*n),
        TokenType::LeftParen => TokenType::LeftParen,
        TokenType::RightParen => TokenType::RightParen,
        TokenType::Eof => TokenType::Eof,
    };
    Token { token_type, span: (t.span.0, t.span.1) }
}

// ---------------------------------------------------------------------------
// The grammar relations: what it means for a phrase to span some tokens.
// ---------------------------------------------------------------------------

/// Whether a term spans tokens `i..j`: a variable, a literal, or any
/// parenthesized expression.
pub open spec fn term_parsed(tokens: Seq<TokenView>, i: int, j: int, e: Expr) -> bool
    decreases j - i, 0int,
{
    ||| match e {
        Expr::Var(name) => 0 <= i < tokens.len() && j == i + 1 && tokens[i].token_type
            == TokenTypeView::Identifier(name@),
        Expr::Literal(n) => 0 <= i < tokens.len() && j == i + 1 && tokens[i].token_type
            == TokenTypeView::Number(n),
        _ => false,
    }
    ||| (0 <= i && i + 1 < j - 1 && j - 1 < tokens.len() && tokens[i].token_type
        == TokenTypeView::LeftParen && tokens[j - 1].token_type == TokenTypeView::RightParen
        && expr_parsed(tokens, i + 1, j - 1, e))
}

/// Whether an expression spans tokens `i..j`: a term, or an expression, an
/// operator and a term (the operators chain left to right, without
/// precedence).
pub open spec fn expr_parsed(tokens: Seq<TokenView>, i: int, j: int, e: Expr) -> bool
    decreases j - i, 1int,
{
    ||| term_parsed(tokens, i, j, e)
    ||| match e {
        Expr::Add(l, r) => exists|m: int|
            i < m && m + 1 < j && m < tokens.len() && (#[trigger] tokens[m].token_type)
                == TokenTypeView::Plus && expr_parsed(tokens, i, m, *l) && term_parsed(
                tokens,
                m + 1,
                j,
                *r,
            ),
        Expr::Mul(l, r) => exists|m: int|
            i < m && m + 1 < j && m < tokens.len() && (#[trigger] tokens[m].token_type)
                == TokenTypeView::Star && expr_parsed(tokens, i, m, *l) && term_parsed(
                tokens,
                m + 1,
                j,
                *r,
            ),
        _ => false,
    }
}

/// Whether a statement spans tokens `i..j`.
pub open spec fn stmt_parsed(tokens: Seq<TokenView>, i: int, j: int, s: Stmt) -> bool {
    match s {
        Stmt::PublicInput { name } => 0 <= i && j == i + 2 && j <= tokens.len()
            && tokens[i].token_type == TokenTypeView::Public && tokens[i + 1].token_type
            == TokenTypeView::Identifier(name@),
        Stmt::PrivateInput { name } => 0 <= i && j == i + 2 && j <= tokens.len()
            && tokens[i].token_type == TokenTypeView::Private && tokens[i + 1].token_type
            == TokenTypeView::Identifier(name@),
        Stmt::ConstDecl { name, value } => 0 <= i && j == i + 4 && j <= tokens.len()
            && tokens[i].token_type == TokenTypeView::Const && tokens[i + 1].token_type
            == TokenTypeView::Identifier(name@) && tokens[i + 2].token_type
            == TokenTypeView::Equals && tokens[i + 3].token_type == TokenTypeView::Number(value),
        Stmt::Let { name, expr } => 0 <= i && i + 3 <= tokens.len() && tokens[i].token_type
            == TokenTypeView::Let && tokens[i + 1].token_type == TokenTypeView::Identifier(name@)
            && tokens[i + 2].token_type == TokenTypeView::Equals && expr_parsed(
            tokens,
            i + 3,
            j,
            expr,
        ),
        Stmt::Return(expr) => 0 <= i && i + 1 <= tokens.len() && tokens[i].token_type
            == TokenTypeView::Return && expr_parsed(tokens, i + 1, j, expr),
    }
}

/// Whether a statement list spans tokens `i..j`, in order.
pub open spec fn stmts_parsed(tokens: Seq<TokenView>, i: int, j: int, ss: Seq<Stmt>) -> bool
    decreases ss.len(),
{
    if ss.len() == 0 {
        i == j
    } else {
        exists|m: int|
            i < m <= j && #[trigger] stmt_parsed(tokens, i, m, ss[0]) && stmts_parsed(
                tokens,
                m,
                j,
                ss.drop_first(),
            )
    }
}

/// One more statement at the end extends a parsed statement list.
proof fn lemma_stmts_parsed_snoc(
    tokens: Seq<TokenView>,
    i: int,
    m: int,
    j: int,
    ss: Seq<Stmt>,
    s: Stmt,
)
    requires
        stmts_parsed(tokens, i, m, ss),
        stmt_parsed(tokens, m, j, s),
        m < j,
    ensures
        stmts_parsed(tokens, i, j, ss.push(s)),
    decreases ss.len(),
{
    if ss.len() == 0 {
        assert(ss.push(s)[0] == s);
        assert(ss.push(s).drop_first() =~= Seq::<Stmt>::empty());
        assert(stmts_parsed(tokens, j, j, ss.push(s).drop_first()));
    } else {
        let mid = choose|mid: int|
            i < mid <= m && #[trigger] stmt_parsed(tokens, i, mid, ss[0]) && stmts_parsed(
                tokens,
                mid,
                m,
                ss.drop_first(),
            );
        lemma_stmts_parsed_snoc(tokens, mid, m, j, ss.drop_first(), s);
        assert(ss.push(s)[0] == ss[0]);
        assert(ss.push(s).drop_first() =~= ss.drop_first().push(s));
    }
}

/// Consumes a token list from front to back, building statements.
pub struct Parser {
    tokens: Vec<Token>,
    current: usize,
}

/// Whether two token kinds agree, payloads aside.
pub open spec fn kind_matches(a: TokenTypeView, b: TokenTypeView) -> bool {
    match (a, b) {
        (TokenTypeView::Let, TokenTypeView::Let) => true,
        (TokenTypeView::Return, TokenTypeView::Return) => true,
        (TokenTypeView::Assert, TokenTypeView::Assert) => true,
        (TokenTypeView::Public, TokenTypeView::Public) => true,
        (TokenTypeView::Private, TokenTypeView::Private) => true,
        (TokenTypeView::Const, TokenTypeView::Const) => true,
        (TokenTypeView::Star, TokenTypeView::Star) => true,
        (TokenTypeView::Plus, TokenTypeView::Plus) => true,
        (TokenTypeView::Equals, TokenTypeView::Equals) => true,
        (TokenTypeView::EqualsEquals, TokenTypeView::EqualsEquals) => true,
        (TokenTypeView::Identifier(_), TokenTypeView::Identifier(_)) => true,
        (TokenTypeView::Number(_), TokenTypeView::Number(_)) => true,
        (TokenTypeView::LeftParen, TokenTypeView::LeftParen) => true,
        (TokenTypeView::RightParen, TokenTypeView::RightParen) => true,
        (TokenTypeView::Eof, TokenTypeView::Eof) => true,
        _ => false,
    }
}

impl Parser {
    /// The read position.
    pub closed spec fn pos(&self) -> nat {
        self.current as nat
    }

    /// The token images.
    pub closed spec fn toks(&self) -> Seq<TokenView> {
        self.tokens@.map_values(|t: Token| t@)
    }

    /// The number of tokens.
    pub closed spec fn token_count(&self) -> nat {
        self.tokens@.len()
    }

    /// The position never runs past the end.
    pub closed spec fn wf(&self) -> bool {
        self.current as nat <= self.tokens@.len()
    }

    pub fn new(tokens: Vec<Token>) -> (r: Parser)
        ensures
            r.wf(),
            r.pos() == 0,
    {
        Parser { tokens, current: 0 }
    }

    fn is_at_end(&self) -> (r: bool)
        requires
            self.wf(),
        ensures
            r == (self.pos() >= self.token_count() || self.toks()[self.pos() as int].token_type
                is Eof),
    {
        self.current >= self.tokens.len() || match &self.tokens[self.current].token_type {
            TokenType::Eof => true,
            _ => false,
        }
    }

    fn peek(&self) -> (t: &TokenType)
        requires
            self.wf(),
        ensures
            t@ == if self.pos() < self.token_count() {
                self.toks()[self.pos() as int].token_type
            } else {
                TokenTypeView::Eof
            },
    {
        if self.current < self.tokens.len() {
            &self.tokens[self.current].token_type
        } else {
            &TokenType::Eof
        }
    }

    fn advance(&mut self) -> (r: Result<Token, ParseError>)
        requires
            old(self).wf(),
        ensures
            final(self).wf(),
            final(self).token_count() == old(self).token_count(),
            final(self).toks() == old(self).toks(),
            match r {
                Ok(t) => final(self).pos() == old(self).pos() + 1 && old(self).pos() < old(
                    self,
                ).token_count() && t@ == old(self).toks()[old(self).pos() as int],
                Err(_) => final(self).pos() == old(self).pos(),
            },
    {
        if self.current < self.tokens.len() {
            let token = dup_token(&self.tokens[self.current]);
            self.current = self.current + 1;
            Ok(token)
        } else {
            Err(parse_error("unexpected end of input"))
        }
    }

    /// Consumes one token of the expected kind.
    fn consume(&mut self, expected: &TokenType) -> (r: Result<(), ParseError>)
        requires
            old(self).wf(),
        ensures
            final(self).wf(),
            final(self).token_count() == old(self).token_count(),
            final(self).toks() == old(self).toks(),
            match r {
                Ok(_) => final(self).pos() == old(self).pos() + 1 && old(self).pos() < old(
                    self,
                ).token_count() && kind_matches(
                    old(self).toks()[old(self).pos() as int].token_type,
                    expected@,
                ),
                Err(_) => final(self).pos() == old(self).pos(),
            },
    {
        let matches_kind = match (self.peek(), expected) {
            (TokenType::Let, TokenType::Let) => true,
            (TokenType::Return, TokenType::Return) => true,
            (TokenType::Assert, TokenType::Assert) => true,
            (TokenType::Public, TokenType::Public) => true,
            (TokenType::Private, TokenType::Private) => true,
            (TokenType::Const, TokenType::Const) => true,
            (TokenType::Star, TokenType::Star) => true,
            (TokenType::Plus, TokenType::Plus) => true,
            (TokenType::Equals, TokenType::Equals) => true,
            (TokenType::EqualsEquals, TokenType::EqualsEquals) => true,
            (TokenType::Identifier(_), TokenType::Identifier(_)) => true,
            (TokenType::Number(_), TokenType::Number(_)) => true,
            (TokenType::LeftParen, TokenType::LeftParen) => true,
            (TokenType::RightParen, TokenType::RightParen) => true,
            (TokenType::Eof, TokenType::Eof) => true,
            _ => false,
        };
        if matches_kind {
            match self.advance() {
                Ok(_) => Ok(()),
                Err(e) => Err(e),
            }
        } else {
            Err(parse_error("unexpected token"))
        }
    }

    fn expect_identifier(&mut self) -> (r: Result<String, ParseError>)
        requires
            old(self).wf(),
        ensures
            final(self).wf(),
            final(self).token_count() == old(self).token_count(),
            final(self).toks() == old(self).toks(),
            final(self).pos() >= old(self).pos(),
            r matches Ok(name) ==> final(self).pos() == old(self).pos() + 1 && old(self).pos()
                < old(self).token_count() && old(self).toks()[old(self).pos() as int].token_type
                == TokenTypeView::Identifier(name@),
    {
        match self.advance() {
            Ok(token) => match token.token_type {
                TokenType::Identifier(name) => Ok(name),
                _ => Err(parse_error("expected an identifier")),
            },
            Err(e) => Err(e),
        }
    }

    fn expect_number(&mut self) -> (r: Result<i32, ParseError>)
        requires
            old(self).wf(),
        ensures
            final(self).wf(),
            final(self).token_count() == old(self).token_count(),
            final(self).toks() == old(self).toks(),
            final(self).pos() >= old(self).pos(),
            r matches Ok(n) ==> final(self).pos() == old(self).pos() + 1 && old(self).pos() < old(
                self,
            ).token_count() && old(self).toks()[old(self).pos() as int].token_type
                == TokenTypeView::Number(n),
    {
        match self.advance() {
            Ok(token) => match token.token_type {
                TokenType::Number(n) => Ok(n),
                _ => Err(parse_error("expected a number")),
            },
            Err(e) => Err(e),
        }
    }

    /// term = IDENT | NUMBER | "(" expr ")"
    fn parse_term(&mut self) -> (r: Result<Expr, ParseError>)
        requires
            old(self).wf(),
        ensures
            final(self).wf(),
            final(self).token_count() == old(self).token_count(),
            final(self).toks() == old(self).toks(),
            final(self).pos() >= old(self).pos(),
            r is Ok ==> final(self).pos() > old(self).pos(),
            r matches Ok(e) ==> term_parsed(
                old(self).toks(),
                old(self).pos() as int,
                final(self).pos() as int,
                e,
            ),
        decreases old(self).token_count() - old(self).pos(), 0int,
    {
        let token = match self.advance() {
            Ok(t) => t,
            Err(e) => {
                return Err(e);
            },
        };
        match token.token_type {
            TokenType::Identifier(name) => Ok(Expr::Var(name)),
            TokenType::Number(n) => Ok(Expr::Literal(n)),
            TokenType::LeftParen => {
                let expr = match self.parse_expr() {
                    Ok(e) => e,
                    Err(e) => {
                        return Err(e);
                    },
                };
                match self.consume(&TokenType::RightParen) {
                    Ok(_) => Ok(expr),
                    Err(e) => Err(e),
                }
            },
            _ => Err(parse_error("expected an identifier, a number, or a parenthesis")),
        }
    }

    /// expr = term ("+" term | "*" term)*
    fn parse_expr(&mut self) -> (r: Result<Expr, ParseError>)
        requires
            old(self).wf(),
        ensures
            final(self).wf(),
            final(self).token_count() == old(self).token_count(),
            final(self).toks() == old(self).toks(),
            final(self).pos() >= old(self).pos(),
            r is Ok ==> final(self).pos() > old(self).pos(),
            r matches Ok(e) ==> expr_parsed(
                old(self).toks(),
                old(self).pos() as int,
                final(self).pos() as int,
                e,
            ),
        decreases old(self).token_count() - old(self).pos(), 1int,
    {
        let mut left = match self.parse_term() {
            Ok(e) => e,
            Err(e) => {
                return Err(e);
            },
        };
        loop
            invariant
                self.wf(),
                self.token_count() == old(self).token_count(),
                self.toks() == old(self).toks(),
                self.pos() > old(self).pos(),
                expr_parsed(
                    old(self).toks(),
                    old(self).pos() as int,
                    self.pos() as int,
                    left,
                ),
            decreases self.token_count() - self.pos(),
        {
            let is_star = match self.peek() {
                TokenType::Star => true,
                _ => false,
            };
            let is_plus = match self.peek() {
                TokenType::Plus => true,
                _ => false,
            };
            if !(is_plus || is_star) {
                break ;
            }
            match self.advance() {
                Ok(_) => {},
                Err(e) => {
                    return Err(e);
                },
            }
            let ghost m = self.pos() as int - 1;
            let right = match self.parse_term() {
                Ok(e) => e,
                Err(e) => {
                    return Err(e);
                },
            };
            left = if is_star {
                Expr::Mul(Box::new(left), Box::new(right))
            } else {
                Expr::Add(Box::new(left), Box::new(right))
            };
            proof {
                let t = old(self).toks();
                let i = old(self).pos() as int;
                let j = self.pos() as int;
                assert(i < m && m + 1 < j && m < t.len());
                assert(expr_parsed(t, i, j, left));
            }
        }
        Ok(left)
    }

    /// "public" IDENT
    fn parse_public_stmt(&mut self) -> (r: Result<Stmt, ParseError>)
        requires
            old(self).wf(),
        ensures
            final(self).wf(),
            final(self).token_count() == old(self).token_count(),
            final(self).toks() == old(self).toks(),
            final(self).pos() >= old(self).pos(),
            r matches Ok(s) ==> final(self).pos() > old(self).pos() && stmt_parsed(
                old(self).toks(),
                old(self).pos() as int,
                final(self).pos() as int,
                s,
            ),
    {
        match self.consume(&TokenType::Public) {
            Ok(_) => {},
            Err(e) => {
                return Err(e);
            },
        }
        match self.expect_identifier() {
            Ok(name) => Ok(Stmt::PublicInput { name }),
            Err(e) => Err(e),
        }
    }

    /// "private" IDENT
    fn parse_private_stmt(&mut self) -> (r: Result<Stmt, ParseError>)
        requires
            old(self).wf(),
        ensures
            final(self).wf(),
            final(self).token_count() == old(self).token_count(),
            final(self).toks() == old(self).toks(),
            final(self).pos() >= old(self).pos(),
            r matches Ok(s) ==> final(self).pos() > old(self).pos() && stmt_parsed(
                old(self).toks(),
                old(self).pos() as int,
                final(self).pos() as int,
                s,
            ),
    {
        match self.consume(&TokenType::Private) {
            Ok(_) => {},
            Err(e) => {
                return Err(e);
            },
        }
        match self.expect_identifier() {
            Ok(name) => Ok(Stmt::PrivateInput { name }),
            Err(e) => Err(e),
        }
    }

    /// "const" IDENT "=" NUMBER
    fn parse_const_stmt(&mut self) -> (r: Result<Stmt, ParseError>)
        requires
            old(self).wf(),
        ensures
            final(self).wf(),
            final(self).token_count() == old(self).token_count(),
            final(self).toks() == old(self).toks(),
            final(self).pos() >= old(self).pos(),
            r matches Ok(s) ==> final(self).pos() > old(self).pos() && stmt_parsed(
                old(self).toks(),
                old(self).pos() as int,
                final(self).pos() as int,
                s,
            ),
    {
        match self.consume(&TokenType::Const) {
            Ok(_) => {},
            Err(e) => {
                return Err(e);
            },
        }
        let name = match self.expect_identifier() {
            Ok(n) => n,
            Err(e) => {
                return Err(e);
            },
        };
        match self.consume(&TokenType::Equals) {
            Ok(_) => {},
            Err(e) => {
                return Err(e);
            },
        }
        match self.expect_number() {
            Ok(value) => Ok(Stmt::ConstDecl { name, value }),
            Err(e) => Err(e),
        }
    }

    /// "let" IDENT "=" expr
    fn parse_let_stmt(&mut self) -> (r: Result<Stmt, ParseError>)
        requires
            old(self).wf(),
        ensures
            final(self).wf(),
            final(self).token_count() == old(self).token_count(),
            final(self).toks() == old(self).toks(),
            final(self).pos() >= old(self).pos(),
            r matches Ok(s) ==> final(self).pos() > old(self).pos() && stmt_parsed(
                old(self).toks(),
                old(self).pos() as int,
                final(self).pos() as int,
                s,
            ),
    {
        match self.consume(&TokenType::Let) {
            Ok(_) => {},
            Err(e) => {
                return Err(e);
            },
        }
        let name = match self.expect_identifier() {
            Ok(n) => n,
            Err(e) => {
                return Err(e);
            },
        };
        match self.consume(&TokenType::Equals) {
            Ok(_) => {},
            Err(e) => {
                return Err(e);
            },
        }
        match self.parse_expr() {
            Ok(expr) => Ok(Stmt::Let { name, expr }),
            Err(e) => Err(e),
        }
    }

    /// "return" expr
    fn parse_return_stmt(&mut self) -> (r: Result<Stmt, ParseError>)
        requires
            old(self).wf(),
        ensures
            final(self).wf(),
            final(self).token_count() == old(self).token_count(),
            final(self).toks() == old(self).toks(),
            final(self).pos() >= old(self).pos(),
            r matches Ok(s) ==> final(self).pos() > old(self).pos() && stmt_parsed(
                old(self).toks(),
                old(self).pos() as int,
                final(self).pos() as int,
                s,
            ),
    {
        match self.consume(&TokenType::Return) {
            Ok(_) => {},
            Err(e) => {
                return Err(e);
            },
        }
        match self.parse_expr() {
            Ok(expr) => Ok(Stmt::Return(expr)),
            Err(e) => Err(e),
        }
    }

    fn parse_statement(&mut self) -> (r: Result<Stmt, ParseError>)
        requires
            old(self).wf(),
        ensures
            final(self).wf(),
            final(self).token_count() == old(self).token_count(),
            final(self).toks() == old(self).toks(),
            final(self).pos() >= old(self).pos(),
            r matches Ok(s) ==> final(self).pos() > old(self).pos() && stmt_parsed(
                old(self).toks(),
                old(self).pos() as int,
                final(self).pos() as int,
                s,
            ),
    {
        let choice: usize = match self.peek() {
            TokenType::Public => 0,
            TokenType::Private => 1,
            TokenType::Const => 2,
            TokenType::Let => 3,
            TokenType::Return => 4,
            _ => 5,
        };
        if choice == 0 {
            self.parse_public_stmt()
        } else if choice == 1 {
            self.parse_private_stmt()
        } else if choice == 2 {
            self.parse_const_stmt()
        } else if choice == 3 {
            self.parse_let_stmt()
        } else if choice == 4 {
            self.parse_return_stmt()
        } else {
            Err(parse_error("expected a statement"))
        }
    }

    /// program = statement*
    ///
    /// A produced program spans the tokens from the starting position up to
    /// the end of input, statement by statement.
    pub fn parse(&mut self) -> (r: Result<Program, ParseError>)
        requires
            old(self).wf(),
        ensures
            final(self).wf(),
            r matches Ok(p) ==> stmts_parsed(
                old(self).toks(),
                old(self).pos() as int,
                final(self).pos() as int,
                p.statements@,
            ) && (final(self).pos() >= final(self).token_count()
                || final(self).toks()[final(self).pos() as int].token_type is Eof),
    {
        let mut statements: Vec<Stmt> = Vec::new();
        while !self.is_at_end()
            invariant
                self.wf(),
                self.token_count() == old(self).token_count(),
                self.toks() == old(self).toks(),
                stmts_parsed(
                    old(self).toks(),
                    old(self).pos() as int,
                    self.pos() as int,
                    statements@,
                ),
            decreases self.token_count() - self.pos(),
        {
            let ghost m = self.pos() as int;
            let ghost before = statements@;
            match self.parse_statement() {
                Ok(stmt) => {
                    let ghost sg = stmt;
                    statements.push(stmt);
                    proof {
                        lemma_stmts_parsed_snoc(
                            old(self).toks(),
                            old(self).pos() as int,
                            m,
                            self.pos() as int,
                            before,
                            sg,
                        );
                    }
                },
                Err(e) => {
                    return Err(e);
                },
            }
        }
        Ok(Program { statements })
    }
}

} // verus!
