//! The lexer: turns source text into tokens. Keywords, identifiers, decimal
//! numbers, the arithmetic symbols, parentheses, and a closing end-of-input
//! token; whitespace separates.

use crate::token::Token;
use crate::token::TokenType;
use crate::token::TokenTypeView;
use crate::token::TokenView;
use vstd::prelude::*;
use vstd::string::StrSliceExecFns;
use vstd::string::StringExecFns;

verus! {

/// Relies on `String::push` of std: it appends the given character to the
/// end of the string.
pub assume_specification[ String::push ](s: &mut String, c: char)
    ensures
        final(s)@ == old(s)@.push(c),
;

// ---------------------------------------------------------------------------
// Character classes and the scanning model.
// ---------------------------------------------------------------------------

pub open spec fn is_ws_char(c: char) -> bool {
    c == ' ' || c == '\t' || c == '\n' || c == '\r'
}

pub open spec fn is_digit_char(c: char) -> bool {
    ('0' as u32) <= (c as u32) && (c as u32) <= ('9' as u32)
}

pub open spec fn is_alpha_char(c: char) -> bool {
    ||| ('a' as u32) <= (c as u32) && (c as u32) <= ('z' as u32)
    ||| ('A' as u32) <= (c as u32) && (c as u32) <= ('Z' as u32)
    ||| c == '_'
}

pub open spec fn is_ident_char(c: char) -> bool {
    is_alpha_char(c) || is_digit_char(c)
}

pub open spec fn is_symbol_char(c: char) -> bool {
    c == '+' || c == '*' || c == '=' || c == '(' || c == ')'
}

/// A character the lexer accepts anywhere.
pub open spec fn valid_char(c: char) -> bool {
    is_ws_char(c) || is_symbol_char(c) || is_digit_char(c) || is_alpha_char(c)
}

/// The first non-whitespace position at or after `i`.
pub open spec fn skip_ws(s: Seq<char>, i: nat) -> nat
    decreases s.len() - i,
{
    if i < s.len() && is_ws_char(s[i as int]) {
        skip_ws(s, i + 1)
    } else {
        i
    }
}

/// The end of the digit run starting at `i`.
pub open spec fn scan_num_end(s: Seq<char>, i: nat) -> nat
    decreases s.len() - i,
{
    if i < s.len() && is_digit_char(s[i as int]) {
        scan_num_end(s, i + 1)
    } else {
        i
    }
}

/// The end of the identifier run starting at `i`.
pub open spec fn scan_ident_end(s: Seq<char>, i: nat) -> nat
    decreases s.len() - i,
{
    if i < s.len() && is_ident_char(s[i as int]) {
        scan_ident_end(s, i + 1)
    } else {
        i
    }
}

pub open spec fn digit_val(c: char) -> int {
    c as u32 - 48
}

/// The decimal value of the digits from `i` (inclusive) to `j` (exclusive).
pub open spec fn num_val(s: Seq<char>, i: nat, j: nat) -> int
    decreases j - i,
{
    if j <= i {
        0
    } else {
        num_val(s, i, (j - 1) as nat) * 10 + digit_val(s[j - 1])
    }
}

/// The token a completed word denotes: one of the keywords, or an identifier.
pub open spec fn keyword_token(w: Seq<char>) -> TokenTypeView {
    if w == seq!['l', 'e', 't'] {
        TokenTypeView::Let
    } else if w == seq!['r', 'e', 't', 'u', 'r', 'n'] {
        TokenTypeView::Return
    } else if w == seq!['p', 'u', 'b', 'l', 'i', 'c'] {
        TokenTypeView::Public
    } else if w == seq!['p', 'r', 'i', 'v', 'a', 't', 'e'] {
        TokenTypeView::Private
    } else if w == seq!['c', 'o', 'n', 's', 't'] {
        TokenTypeView::Const
    } else {
        TokenTypeView::Identifier(w)
    }
}

/// The token scanned at a non-whitespace position `i`, and the position after
/// it.
pub open spec fn scan_at(s: Seq<char>, i: nat) -> (TokenView, nat) {
    let c = s[i as int];
    if c == '+' {
        (TokenView { token_type: TokenTypeView::Plus, span: (i, i + 1) }, i + 1)
    } else if c == '*' {
        (TokenView { token_type: TokenTypeView::Star, span: (i, i + 1) }, i + 1)
    } else if c == '=' {
        (TokenView { token_type: TokenTypeView::Equals, span: (i, i + 1) }, i + 1)
    } else if c == '(' {
        (TokenView { token_type: TokenTypeView::LeftParen, span: (i, i + 1) }, i + 1)
    } else if c == ')' {
        (TokenView { token_type: TokenTypeView::RightParen, span: (i, i + 1) }, i + 1)
    } else if is_digit_char(c) {
        let j = scan_num_end(s, i);
        (
            TokenView {
                token_type: TokenTypeView::Number(num_val(s, i, j) as i32),
                span: (i, j),
            },
            j,
        )
    } else {
        let j = if scan_ident_end(s, i) > i {
            scan_ident_end(s, i)
        } else {
            i + 1
        };
        (
            TokenView { token_type: keyword_token(s.subrange(i as int, j as int)), span: (i, j) },
            j,
        )
    }
}

/// Whether a digit at the position starts a fresh run (nothing joins it on
/// the left), so the scanner will read it as one number.
pub open spec fn scan_ok(s: Seq<char>, i: nat) -> bool {
    i < s.len() && is_digit_char(s[i as int]) ==> (i == 0 || !is_ident_char(s[i - 1]))
}

/// Whether `i` starts a digit run the lexer will read as one number.
pub open spec fn is_num_start(s: Seq<char>, i: nat) -> bool {
    i < s.len() && is_digit_char(s[i as int]) && (i == 0 || !is_ident_char(s[i - 1]))
}

/// What the lexer accepts without aborting: only valid characters, and every
/// number it will read fits a 32-bit integer.
pub open spec fn lexable(s: Seq<char>) -> bool {
    &&& forall|i: int| 0 <= i < s.len() ==> valid_char(#[trigger] s[i])
    &&& forall|i: nat| is_num_start(s, i) ==> num_val(s, i, #[trigger] scan_num_end(s, i)) <= i32::MAX as int
}

proof fn lemma_skip_ws_ge(s: Seq<char>, i: nat)
    ensures
        skip_ws(s, i) >= i,
        i <= s.len() ==> skip_ws(s, i) <= s.len(),
    decreases s.len() - i,
{
    if i < s.len() && is_ws_char(s[i as int]) {
        lemma_skip_ws_ge(s, i + 1);
    }
}

proof fn lemma_scan_num_ge(s: Seq<char>, i: nat)
    ensures
        scan_num_end(s, i) >= i,
        i <= s.len() ==> scan_num_end(s, i) <= s.len(),
    decreases s.len() - i,
{
    if i < s.len() && is_digit_char(s[i as int]) {
        lemma_scan_num_ge(s, i + 1);
    }
}

proof fn lemma_scan_ident_ge(s: Seq<char>, i: nat)
    ensures
        scan_ident_end(s, i) >= i,
        i <= s.len() ==> scan_ident_end(s, i) <= s.len(),
    decreases s.len() - i,
{
    if i < s.len() && is_ident_char(s[i as int]) {
        lemma_scan_ident_ge(s, i + 1);
    }
}

/// A digit run ends before a non-digit.
proof fn lemma_scan_num_stops(s: Seq<char>, i: nat)
    ensures
        scan_num_end(s, i) < s.len() ==> !is_digit_char(s[scan_num_end(s, i) as int]),
    decreases s.len() - i,
{
    if i < s.len() && is_digit_char(s[i as int]) {
        lemma_scan_num_stops(s, i + 1);
    }
}

/// An identifier run ends before a non-identifier character.
proof fn lemma_scan_ident_stops(s: Seq<char>, i: nat)
    ensures
        scan_ident_end(s, i) < s.len() ==> !is_ident_char(s[scan_ident_end(s, i) as int]),
    decreases s.len() - i,
{
    if i < s.len() && is_ident_char(s[i as int]) {
        lemma_scan_ident_stops(s, i + 1);
    }
}

/// Everything inside a digit run is a digit.
proof fn lemma_scan_num_digits(s: Seq<char>, i: nat, p: int)
    requires
        i <= p < scan_num_end(s, i),
    ensures
        is_digit_char(s[p]),
    decreases s.len() - i,
{
    if i < s.len() && is_digit_char(s[i as int]) {
        if p > i {
            lemma_scan_num_digits(s, i + 1, p);
        }
    }
}

/// Digit-run values are nonnegative and grow with the run.
proof fn lemma_num_val_bounds(s: Seq<char>, i: nat, j: nat, k: nat)
    requires
        i <= j <= k,
        forall|p: int| i <= p < k ==> is_digit_char(#[trigger] s[p]),
    ensures
        0 <= num_val(s, i, j) <= num_val(s, i, k),
    decreases k - i, k - j,
{
    if j == i {
        if k > i {
            lemma_num_val_bounds(s, i, j, (k - 1) as nat);
        }
    } else if j < k {
        lemma_num_val_bounds(s, i, j, (k - 1) as nat);
        lemma_num_val_bounds(s, i, (k - 1) as nat, (k - 1) as nat);
    } else {
        lemma_num_val_bounds(s, i, (j - 1) as nat, (j - 1) as nat);
    }
}

/// The token sequence scanned from position `i` on: tokens in source order,
/// always closed by an end-of-input token.
pub open spec fn tokens_from(s: Seq<char>, i: nat) -> Seq<TokenView>
    decreases s.len() - i,
        via tokens_from_decreases
{
    let w = skip_ws(s, i);
    if w >= s.len() {
        seq![TokenView { token_type: TokenTypeView::Eof, span: (s.len(), s.len()) }]
    } else {
        seq![scan_at(s, w).0] + tokens_from(s, scan_at(s, w).1)
    }
}

#[via_fn]
proof fn tokens_from_decreases(s: Seq<char>, i: nat) {
    lemma_skip_ws_ge(s, i);
    let w = skip_ws(s, i);
    if w < s.len() {
        lemma_scan_num_ge(s, w + 1);
        lemma_scan_ident_ge(s, w);
        let c = s[w as int];
        if is_digit_char(c) {
            assert(scan_num_end(s, w) == scan_num_end(s, w + 1));
            lemma_scan_num_ge(s, w + 1);
        }
    }
}

/// Skipping whitespace stops on a non-whitespace character, over whitespace
/// only.
proof fn lemma_skip_ws_stops(s: Seq<char>, i: nat)
    requires
        i <= s.len(),
    ensures
        skip_ws(s, i) < s.len() ==> !is_ws_char(s[skip_ws(s, i) as int]),
        skip_ws(s, i) > i ==> is_ws_char(s[skip_ws(s, i) - 1]),
    decreases s.len() - i,
{
    if i < s.len() && is_ws_char(s[i as int]) {
        lemma_skip_ws_stops(s, i + 1);
        if skip_ws(s, i + 1) == i + 1 {
            assert(is_ws_char(s[skip_ws(s, i) - 1]));
        }
    }
}

// ---------------------------------------------------------------------------
// The executable lexer.
// ---------------------------------------------------------------------------

/// Scans source text into a token list in one forward pass.
pub struct Lexer {
    source: Vec<char>,
    current: usize,
}

impl Lexer {
    /// The source characters.
    pub closed spec fn src(&self) -> Seq<char> {
        self.source@
    }

    /// The scan position, in characters.
    pub closed spec fn pos(&self) -> nat {
        self.current as nat
    }

    /// The position never runs past the end.
    pub closed spec fn wf(&self) -> bool {
        self.current as nat <= self.source@.len()
    }

    pub fn new(source: &str) -> (r: Lexer)
        ensures
            r.src() == source@,
            r.pos() == 0,
            r.wf(),
    {
        let n = source.unicode_len();
        let mut chars_vec: Vec<char> = Vec::new();
        for i in 0..n
            invariant
                n == source@.len(),
                chars_vec@ == source@.take(i as int),
        {
            let c = source.get_char(i);
            chars_vec.push(c);
            proof {
                assert(chars_vec@ =~= source@.take(i + 1));
            }
        }
        proof {
            assert(source@.take(n as int) =~= source@);
        }
        Lexer { source: chars_vec, current: 0 }
    }

    fn is_at_end(&self) -> (r: bool)
        ensures
            r == (self.pos() >= self.src().len()),
    {
        self.current >= self.source.len()
    }

    fn advance(&mut self) -> (c: char)
        requires
            old(self).pos() < old(self).src().len(),
        ensures
            c == old(self).src()[old(self).pos() as int],
            final(self).src() == old(self).src(),
            final(self).pos() == old(self).pos() + 1,
    {
        proof {
            assert(vstd::std_specs::vec::spec_vec_len(&self.source) == self.source@.len());
        }
        let ch = self.source[self.current];
        self.current = self.current + 1;
        ch
    }

    fn peek(&self) -> (c: char)
        ensures
            c == if self.pos() < self.src().len() {
                self.src()[self.pos() as int]
            } else {
                '\0'
            },
    {
        if self.current >= self.source.len() {
            '\0'
        } else {
            self.source[self.current]
        }
    }

    fn skip_whitespace(&mut self)
        requires
            old(self).wf(),
        ensures
            final(self).src() == old(self).src(),
            final(self).pos() == skip_ws(old(self).src(), old(self).pos()),
            final(self).wf(),
    {
        while !self.is_at_end() && is_ws(self.peek())
            invariant
                self.wf(),
                self.src() == old(self).src(),
                skip_ws(old(self).src(), old(self).pos()) == skip_ws(self.src(), self.pos()),
            decreases self.src().len() - self.pos(),
        {
            self.advance();
        }
    }

    /// Reads the digit run at the position as one decimal number.
    fn read_number(&mut self) -> (n: i32)
        requires
            old(self).wf(),
            old(self).pos() < old(self).src().len(),
            is_digit_char(old(self).src()[old(self).pos() as int]),
            num_val(
                old(self).src(),
                old(self).pos(),
                scan_num_end(old(self).src(), old(self).pos()),
            ) <= i32::MAX as int,
        ensures
            final(self).src() == old(self).src(),
            final(self).pos() == scan_num_end(old(self).src(), old(self).pos()),
            n as int == num_val(
                old(self).src(),
                old(self).pos(),
                scan_num_end(old(self).src(), old(self).pos()),
            ),
            final(self).wf(),
    {
        let ghost s = self.src();
        let ghost start = self.pos();
        let ghost end = scan_num_end(s, start);
        proof {
            lemma_scan_num_ge(s, start);
        }
        let mut value: i32 = 0;
        while !self.is_at_end() && is_digit(self.peek())
            invariant
                self.wf(),
                self.src() == s,
                start <= self.pos() <= end,
                end == scan_num_end(s, self.pos()),
                end == scan_num_end(s, start),
                end <= s.len(),
                value as int == num_val(s, start, self.pos()),
                num_val(s, start, end) <= i32::MAX as int,
            decreases self.src().len() - self.pos(),
        {
            proof {
                assert(is_digit_char(s[self.pos() as int]));
                assert(scan_num_end(s, self.pos()) == scan_num_end(s, (self.pos() + 1) as nat));
                lemma_scan_num_ge(s, (self.pos() + 1) as nat);
                assert(self.pos() < end);
                assert forall|p: int| start <= p < end implies is_digit_char(#[trigger] s[p]) by {
                    lemma_scan_num_digits(s, start, p);
                }
                lemma_num_val_bounds(s, start, (self.pos() + 1) as nat, end);
                lemma_num_val_bounds(s, start, self.pos(), (self.pos() + 1) as nat);
            }
            let c = self.advance();
            proof {
                assert(num_val(s, start, self.pos()) == value as int * 10 + digit_val(c));
                assert(0 <= num_val(s, start, self.pos()) <= i32::MAX as int);
            }
            let d = (c as u32) - 48;
            value = value * 10 + (d as i32);
        }
        proof {
            assert(self.pos() == end);
        }
        value
    }

    /// Reads the identifier run at the position as one word.
    fn read_identifier(&mut self) -> (w: String)
        requires
            old(self).wf(),
        ensures
            final(self).src() == old(self).src(),
            final(self).pos() == scan_ident_end(old(self).src(), old(self).pos()),
            w@ == old(self).src().subrange(
                old(self).pos() as int,
                scan_ident_end(old(self).src(), old(self).pos()) as int,
            ),
            final(self).wf(),
    {
        let ghost s = self.src();
        let ghost start = self.pos();
        let ghost end = scan_ident_end(s, start);
        proof {
            lemma_scan_ident_ge(s, start);
        }
        let mut w = String::new();
        while !self.is_at_end() && is_ident(self.peek())
            invariant
                self.wf(),
                self.src() == s,
                start <= self.pos() <= end,
                end == scan_ident_end(s, self.pos()),
                end == scan_ident_end(s, start),
                end <= s.len(),
                w@ == s.subrange(start as int, self.pos() as int),
            decreases self.src().len() - self.pos(),
        {
            proof {
                assert(is_ident_char(s[self.pos() as int]));
                assert(scan_ident_end(s, self.pos()) == scan_ident_end(
                    s,
                    (self.pos() + 1) as nat,
                ));
                lemma_scan_ident_ge(s, (self.pos() + 1) as nat);
                assert(self.pos() < end);
            }
            let c = self.advance();
            w.push(c);
            proof {
                assert(w@ =~= s.subrange(start as int, self.pos() as int));
            }
        }
        proof {
            assert(self.pos() == end);
        }
        w
    }

    /// Scans the next token, or nothing when only whitespace remains.
    fn scan_token(&mut self) -> (r: Option<Token>)
        requires
            old(self).wf(),
            lexable(old(self).src()),
            scan_ok(old(self).src(), old(self).pos()),
        ensures
            final(self).src() == old(self).src(),
            final(self).wf(),
            scan_ok(final(self).src(), final(self).pos()),
            old(self).pos() < old(self).src().len() ==> final(self).pos() > old(self).pos(),
            ({
                let s = old(self).src();
                let w = skip_ws(s, old(self).pos());
                match r {
                    None => w >= s.len() && final(self).pos() == w,
                    Some(token) => w < s.len() && token@ == scan_at(s, w).0 && final(self).pos()
                        == scan_at(s, w).1,
                }
            }),
    {
        let ghost s = self.src();
        let ghost pos0 = self.pos();
        proof {
            lemma_skip_ws_ge(s, pos0);
            lemma_skip_ws_stops(s, pos0);
        }
        self.skip_whitespace();
        if self.is_at_end() {
            return None;
        }
        let ghost w = self.pos();
        let start = self.current_position();
        let ch = self.advance();
        proof {
            assert(valid_char(s[w as int]));
            assert(!is_ws_char(s[w as int]));
            lemma_scan_num_ge(s, (w + 1) as nat);
            lemma_scan_ident_ge(s, (w + 1) as nat);
        }
        let token_type: TokenType = if ch == '+' {
            TokenType::Plus
        } else if ch == '*' {
            TokenType::Star
        } else if ch == '=' {
            TokenType::Equals
        } else if ch == '(' {
            TokenType::LeftParen
        } else if ch == ')' {
            TokenType::RightParen
        } else if is_digit(ch) {
            self.current = self.current - 1;
            proof {
                // the digit starts a fresh run: either whitespace was just
                // skipped, or the starting position itself was a boundary
                if w > pos0 {
                    assert(is_ws_char(s[w - 1]));
                }
                assert(is_num_start(s, w));
                assert(num_val(s, w, scan_num_end(s, w)) <= i32::MAX as int);
                assert(scan_num_end(s, w) == scan_num_end(s, (w + 1) as nat));
            }
            let n = self.read_number();
            proof {
                lemma_scan_num_stops(s, w);
            }
            TokenType::Number(n)
        } else {
            self.current = self.current - 1;
            proof {
                assert(is_alpha_char(s[w as int]));
                assert(scan_ident_end(s, w) == scan_ident_end(s, (w + 1) as nat));
            }
            let word = self.read_identifier();
            proof {
                lemma_scan_ident_stops(s, w);
                reveal_strlit("let");
                reveal_strlit("return");
                reveal_strlit("public");
                reveal_strlit("private");
                reveal_strlit("const");
                assert("let"@ =~= seq!['l', 'e', 't']);
                assert("return"@ =~= seq!['r', 'e', 't', 'u', 'r', 'n']);
                assert("public"@ =~= seq!['p', 'u', 'b', 'l', 'i', 'c']);
                assert("private"@ =~= seq!['p', 'r', 'i', 'v', 'a', 't', 'e']);
                assert("const"@ =~= seq!['c', 'o', 'n', 's', 't']);
            }
            if word == "let".to_owned() {
                TokenType::Let
            } else if word == "return".to_owned() {
                TokenType::Return
            } else if word == "public".to_owned() {
                TokenType::Public
            } else if word == "private".to_owned() {
                TokenType::Private
            } else if word == "const".to_owned() {
                TokenType::Const
            } else {
                TokenType::Identifier(word)
            }
        };
        let end = self.current_position();
        Some(Token { token_type, span: (start, end) })
    }

    fn current_position(&self) -> (p: usize)
        ensures
            p as nat == self.pos(),
    {
        self.current
    }

    /// Scans the whole source into tokens, ending with an end-of-input token.
    pub fn tokenize(&mut self) -> (tokens: Vec<Token>)
        requires
            old(self).wf(),
            old(self).pos() == 0,
            lexable(old(self).src()),
        ensures
            tokens@.map_values(|t: Token| t@) == tokens_from(old(self).src(), 0),
    {
        let ghost s = self.src();
        let mut tokens: Vec<Token> = Vec::new();
        while !self.is_at_end()
            invariant
                self.wf(),
                self.src() == s,
                lexable(s),
                scan_ok(s, self.pos()),
                tokens_from(s, 0) == tokens@.map_values(|t: Token| t@) + tokens_from(
                    s,
                    self.pos(),
                ),
            decreases self.src().len() - self.pos(),
        {
            let ghost before = self.pos();
            match self.scan_token() {
                Some(token) => {
                    let ghost tv = token@;
                    tokens.push(token);
                    proof {
                        assert(tokens_from(s, before) == seq![tv] + tokens_from(s, self.pos()));
                        assert(tokens@.map_values(|t: Token| t@) + tokens_from(s, self.pos())
                            =~= tokens_from(s, 0));
                    }
                },
                None => {
                    proof {
                        assert(tokens_from(s, before) =~= tokens_from(s, self.pos()));
                    }
                },
            }
        }
        let here = self.current_position();
        tokens.push(Token { token_type: TokenType::Eof, span: (here, here) });
        proof {
            assert(self.pos() == s.len());
            assert(skip_ws(s, s.len()) == s.len());
            assert(tokens_from(s, self.pos()) =~= seq![
                TokenView { token_type: TokenTypeView::Eof, span: (s.len(), s.len()) },
            ]);
            assert(tokens@.map_values(|t: Token| t@) =~= tokens_from(s, 0));
        }
        tokens
    }
}

fn is_ws(c: char) -> (r: bool)
    ensures
        r == is_ws_char(c),
{
    c == ' ' || c == '\t' || c == '\n' || c == '\r'
}

fn is_digit(c: char) -> (r: bool)
    ensures
        r == is_digit_char(c),
{
    let u = c as u32;
    48 <= u && u <= 57
}

fn is_ident(c: char) -> (r: bool)
    ensures
        r == is_ident_char(c),
{
    let u = c as u32;
    (97 <= u && u <= 122) || (65 <= u && u <= 90) || c == '_' || (48 <= u && u <= 57)
}

} // verus!
