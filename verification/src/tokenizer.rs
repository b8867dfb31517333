use vstd::prelude::*;
use vstd::string::StrSliceExecFns;

use crate::parser::OperPrec;

verus! {

/// One lexical unit of an arithmetic expression.
///
/// A numeric literal carries its text: the digits and at most one decimal
/// point collected while scanning, with blank and underscore separators
/// already dropped. Such text is exactly what a decimal floating-point
/// parse accepts, so a caller that turns the literal into a number cannot
/// fail on it.
#[derive(Debug, PartialEq)]
pub enum Token {
    Number(Vec<char>),
    Add,
    Subtract,
    Multiply,
    Divide,
    Caret,
    LeftParen,
    RightParen,
    EOF,
}

/// Mathematical value of a [`Token`]: the same shape, with the literal text
/// of a numeric token abstracted to its character sequence.
pub enum TokenModel {
    Number(Seq<char>),
    Add,
    Subtract,
    Multiply,
    Divide,
    Caret,
    LeftParen,
    RightParen,
    EOF,
}

impl View for Token {
    type V = TokenModel;

    open spec fn view(&self) -> TokenModel {
        match self {
            Token::Number(lit) => TokenModel::Number(lit@),
            Token::Add => TokenModel::Add,
            Token::Subtract => TokenModel::Subtract,
            Token::Multiply => TokenModel::Multiply,
            Token::Divide => TokenModel::Divide,
            Token::Caret => TokenModel::Caret,
            Token::LeftParen => TokenModel::LeftParen,
            Token::RightParen => TokenModel::RightParen,
            Token::EOF => TokenModel::EOF,
        }
    }
}

/// A lexical fault: either a character the grammar knows nothing about, or a
/// scanned numeric literal whose text is not a valid number (it holds more
/// than one decimal point).
#[derive(Debug, Clone, Copy, PartialEq, Eq, Structural)]
pub enum LexError {
    InvalidCharacter(char),
    InvalidNumber,
}

pub open spec fn is_digit(c: char) -> bool {
    '0' <= c && c <= '9'
}

/// Characters that become part of a numeric literal's text.
pub open spec fn is_literal_char(c: char) -> bool {
    is_digit(c) || c == '.'
}

/// Separators tolerated, and dropped, inside a numeric literal.
pub open spec fn is_separator(c: char) -> bool {
    c == '_' || c == ' '
}

/// First position at or after `i` that does not hold a blank, or the end of
/// the input.
pub open spec fn skip_blanks(s: Seq<char>, i: nat) -> nat
    decreases s.len() - i,
{
    if i < s.len() && s[i as int] == ' ' {
        skip_blanks(s, i + 1)
    } else {
        i
    }
}

/// Continues a numeric literal whose collected text so far is `lit`:
/// consumes digits and decimal points into the literal, drops separators,
/// and stops at the first other character or at the end of the input.
/// Returns the collected text and the position of the first character not
/// consumed.
pub open spec fn scan_number(s: Seq<char>, i: nat, lit: Seq<char>) -> (Seq<char>, nat)
    decreases s.len() - i,
{
    if i >= s.len() {
        (lit, i)
    } else if is_literal_char(s[i as int]) {
        scan_number(s, i + 1, lit.push(s[i as int]))
    } else if is_separator(s[i as int]) {
        scan_number(s, i + 1, lit)
    } else {
        (lit, i)
    }
}

/// How many decimal points a literal's text holds.
pub open spec fn dot_count(s: Seq<char>) -> nat
    decreases s.len(),
{
    if s.len() == 0 {
        0
    } else {
        dot_count(s.drop_last()) + if s.last() == '.' {
            1nat
        } else {
            0nat
        }
    }
}

/// A scanned literal is a valid number exactly when it holds at most one
/// decimal point; it always starts with a digit and holds only digits and
/// points, so nothing else can make it malformed.
pub open spec fn is_valid_literal(s: Seq<char>) -> bool {
    dot_count(s) <= 1
}

/// The token that starts at or after position `i` of the input: blanks are
/// skipped, single-character operators map to their tokens, a digit starts a
/// numeric literal, and the end of the input yields `EOF`. On success the
/// new position is returned with the token; on a fault the position of the
/// offending character, or the end of the malformed literal, is returned
/// with the error.
pub open spec fn lex_token(s: Seq<char>, i: nat) -> Result<(TokenModel, nat), (LexError, nat)> {
    let k = skip_blanks(s, i);
    if k >= s.len() {
        Ok((TokenModel::EOF, k))
    } else {
        let c = s[k as int];
        if c == '+' {
            Ok((TokenModel::Add, (k + 1) as nat))
        } else if c == '-' {
            Ok((TokenModel::Subtract, (k + 1) as nat))
        } else if c == '^' {
            Ok((TokenModel::Caret, (k + 1) as nat))
        } else if c == '*' {
            Ok((TokenModel::Multiply, (k + 1) as nat))
        } else if c == '/' {
            Ok((TokenModel::Divide, (k + 1) as nat))
        } else if c == '(' {
            Ok((TokenModel::LeftParen, (k + 1) as nat))
        } else if c == ')' {
            Ok((TokenModel::RightParen, (k + 1) as nat))
        } else if is_digit(c) {
            let scanned = scan_number(s, (k + 1) as nat, seq![c]);
            if is_valid_literal(scanned.0) {
                Ok((TokenModel::Number(scanned.0), scanned.1))
            } else {
                Err((LexError::InvalidNumber, scanned.1))
            }
        } else {
            Err((LexError::InvalidCharacter(c), k))
        }
    }
}

/// Binding precedence of a token: `+` and `-` bind at `AddSub`, `*` and `/`
/// at `MulDiv`, `^` at `Power`; every other token, the end marker included,
/// binds at `Default` and so stops the precedence-climbing loop.
pub open spec fn token_prec(t: TokenModel) -> OperPrec {
    match t {
        TokenModel::Add => OperPrec::AddSub,
        TokenModel::Subtract => OperPrec::AddSub,
        TokenModel::Multiply => OperPrec::MulDiv,
        TokenModel::Divide => OperPrec::MulDiv,
        TokenModel::Caret => OperPrec::Power,
        _ => OperPrec::Default,
    }
}

impl Token {
    /// Binding precedence of this token, as [`token_prec`] gives it.
    pub fn get_oper_prec(&self) -> (p: OperPrec)
        ensures
            p == token_prec(self@),
    {
        match self {
            Token::Add | Token::Subtract => OperPrec::AddSub,
            Token::Divide | Token::Multiply => OperPrec::MulDiv,
            Token::Caret => OperPrec::Power,
            _ => OperPrec::Default,
        }
    }
}

/// Where `skip_blanks` can land: never before `i`, and never past the end
/// of an input that `i` lies within.
pub proof fn lemma_skip_blanks_bounds(s: Seq<char>, i: nat)
    ensures
        i <= skip_blanks(s, i),
        i <= s.len() ==> skip_blanks(s, i) <= s.len(),
    decreases s.len() - i,
{
    if i < s.len() && s[i as int] == ' ' {
        lemma_skip_blanks_bounds(s, i + 1);
    }
}

/// Where `scan_number` can land: never before `i`, and never past the end
/// of an input that `i` lies within.
pub proof fn lemma_scan_number_bounds(s: Seq<char>, i: nat, lit: Seq<char>)
    ensures
        i <= scan_number(s, i, lit).1,
        i <= s.len() ==> scan_number(s, i, lit).1 <= s.len(),
    decreases s.len() - i,
{
    if i < s.len() && is_literal_char(s[i as int]) {
        lemma_scan_number_bounds(s, i + 1, lit.push(s[i as int]));
    } else if i < s.len() && is_separator(s[i as int]) {
        lemma_scan_number_bounds(s, i + 1, lit);
    }
}

/// Lexing always moves forward: a token other than the end marker ends
/// strictly after `i`, and within the input; the end marker is only
/// reported at the end of the input.
pub proof fn lemma_lex_token_progress(s: Seq<char>, i: nat)
    ensures
        match lex_token(s, i) {
            Ok((t, j)) => i <= j && (!(t is EOF) ==> i < j && j <= s.len()) && ((i <= s.len()
                && t is EOF) ==> j == s.len()),
            Err((_, j)) => i <= j && (i <= s.len() ==> j <= s.len()),
        },
{
    lemma_skip_blanks_bounds(s, i);
    let k = skip_blanks(s, i);
    if k < s.len() && is_digit(s[k as int]) {
        lemma_scan_number_bounds(s, (k + 1) as nat, seq![s[k as int]]);
    }
}

/// `scan_number` only ever appends digits and decimal points to the
/// collected text, so the shape of the text it starts from is kept: it
/// stays non-empty, it still starts with its leading digit, and it holds
/// nothing but digits and decimal points.
proof fn lemma_scan_number_shape(s: Seq<char>, i: nat, lit: Seq<char>)
    requires
        lit.len() >= 1,
        is_digit(lit[0]),
        forall|k: int| 0 <= k < lit.len() ==> is_literal_char(#[trigger] lit[k]),
    ensures
        scan_number(s, i, lit).0.len() >= 1,
        is_digit(scan_number(s, i, lit).0[0]),
        forall|k: int|
            0 <= k < scan_number(s, i, lit).0.len() ==> is_literal_char(
                #[trigger] scan_number(s, i, lit).0[k],
            ),
    decreases s.len() - i,
{
    if i < s.len() && is_literal_char(s[i as int]) {
        lemma_scan_number_shape(s, i + 1, lit.push(s[i as int]));
    } else if i < s.len() && is_separator(s[i as int]) {
        lemma_scan_number_shape(s, i + 1, lit);
    }
}

/// Every numeric literal the lexer hands out is well formed: it is
/// non-empty, starts with a digit, holds nothing but digits and decimal
/// points, and holds at most one decimal point. Such text is accepted by
/// any decimal floating-point parse, so turning the literal into a number
/// cannot fail.
pub proof fn lemma_lexed_literal_valid(s: Seq<char>, i: nat)
    ensures
        match lex_token(s, i) {
            Ok((t, _)) => t matches TokenModel::Number(lit) ==> lit.len() >= 1 && is_digit(lit[0])
                && (forall|k: int| 0 <= k < lit.len() ==> is_literal_char(#[trigger] lit[k]))
                && dot_count(lit) <= 1,
            Err(_) => true,
        },
{
    let k = skip_blanks(s, i);
    if k < s.len() && is_digit(s[k as int]) {
        lemma_scan_number_shape(s, (k + 1) as nat, seq![s[k as int]]);
    }
}

/// The end of the input is absorbing: lexing from the end yields the end
/// marker and leaves the position where it was, so once a tokenizer has
/// returned `EOF` every further call returns `EOF` again.
pub proof fn lemma_lex_token_at_end(s: Seq<char>, i: nat)
    requires
        i >= s.len(),
    ensures
        lex_token(s, i) == Ok::<(TokenModel, nat), (LexError, nat)>((TokenModel::EOF, i)),
{
}

/// A cursor over the expression text, handing out one token per call.
pub struct Tokenizer {
    chars: Vec<char>,
    pos: usize,
}

impl Tokenizer {
    /// The expression text this tokenizer reads.
    pub closed spec fn input(self) -> Seq<char> {
        self.chars@
    }

    /// Position of the first character not yet consumed.
    pub closed spec fn position(self) -> nat {
        self.pos as nat
    }

    /// The cursor never leaves the input.
    pub open spec fn wf(self) -> bool {
        self.position() <= self.input().len()
    }

    /// A tokenizer standing at the start of `expr`.
    pub fn new(expr: &str) -> (t: Tokenizer)
        ensures
            t.input() == expr@,
            t.position() == 0,
            t.wf(),
    {
        let n = expr.unicode_len();
        let mut chars: Vec<char> = Vec::new();
        let mut k: usize = 0;
        while k < n
            invariant
                k <= n,
                n == expr@.len(),
                chars@ == expr@.take(k as int),
            decreases n - k,
        {
            let c = expr.get_char(k);
            chars.push(c);
            proof {
                assert(expr@.take((k + 1) as int) =~= expr@.take(k as int).push(expr@[k as int]));
            }
            k = k + 1;
        }
        proof {
            assert(chars@ =~= expr@);
        }
        Tokenizer { chars, pos: 0 }
    }

    /// Hands out the next token and advances past it, exactly as
    /// [`lex_token`] describes; after the end of the input it keeps
    /// returning `EOF`. On a fault the cursor stands where the fault was
    /// found, as [`lex_token`] describes, and the same call would fail the
    /// same way again.
    pub fn next(&mut self) -> (r: Result<Token, LexError>)
        requires
            old(self).wf(),
        ensures
            final(self).wf(),
            final(self).input() == old(self).input(),
            old(self).position() <= final(self).position(),
            match lex_token(old(self).input(), old(self).position()) {
                Ok((t, j)) => r matches Ok(tok) && tok@ == t && final(self).position() == j,
                Err((e, j)) => r matches Err(e2) && e2 == e && final(self).position() == j,
            },
    {
        let ghost s = self.chars@;
        let ghost i0 = self.pos as nat;
        while self.pos < self.chars.len() && self.chars[self.pos] == ' '
            invariant
                self.chars@ == s,
                i0 <= self.pos as nat <= s.len(),
                skip_blanks(s, i0) == skip_blanks(s, self.pos as nat),
            decreases s.len() - self.pos,
        {
            self.pos = self.pos + 1;
        }
        assert(self.pos as nat == skip_blanks(s, i0));
        if self.pos == self.chars.len() {
            return Ok(Token::EOF);
        }
        let c = self.chars[self.pos];
        if c == '+' {
            self.pos = self.pos + 1;
            Ok(Token::Add)
        } else if c == '-' {
            self.pos = self.pos + 1;
            Ok(Token::Subtract)
        } else if c == '^' {
            self.pos = self.pos + 1;
            Ok(Token::Caret)
        } else if c == '*' {
            self.pos = self.pos + 1;
            Ok(Token::Multiply)
        } else if c == '/' {
            self.pos = self.pos + 1;
            Ok(Token::Divide)
        } else if c == '(' {
            self.pos = self.pos + 1;
            Ok(Token::LeftParen)
        } else if c == ')' {
            self.pos = self.pos + 1;
            Ok(Token::RightParen)
        } else if c >= '0' && c <= '9' {
            self.pos = self.pos + 1;
            let ghost scan_start = self.pos as nat;
            let mut literal: Vec<char> = Vec::new();
            literal.push(c);
            let mut dots: usize = 0;
            proof {
                reveal_with_fuel(dot_count, 2);
                assert(literal@ =~= seq![c]);
                assert(literal@.drop_last() =~= Seq::<char>::empty());
            }
            loop
                invariant
                    self.chars@ == s,
                    scan_start <= self.pos as nat <= s.len(),
                    dots as nat == (if dot_count(literal@) < 2 {
                        dot_count(literal@)
                    } else {
                        2nat
                    }),
                    scan_number(s, scan_start, seq![c]) == scan_number(
                        s,
                        self.pos as nat,
                        literal@,
                    ),
                ensures
                    self.chars@ == s,
                    self.pos as nat <= s.len(),
                    dots as nat == (if dot_count(literal@) < 2 {
                        dot_count(literal@)
                    } else {
                        2nat
                    }),
                    scan_number(s, scan_start, seq![c]) == (literal@, self.pos as nat),
                decreases s.len() - self.pos,
            {
                if self.pos >= self.chars.len() {
                    break ;
                }
                let ch = self.chars[self.pos];
                if ch == '.' || (ch >= '0' && ch <= '9') {
                    let ghost lit_pre = literal@;
                    self.pos = self.pos + 1;
                    literal.push(ch);
                    proof {
                        assert(literal@.drop_last() =~= lit_pre);
                    }
                    if ch == '.' {
                        if dots < 2 {
                            dots = dots + 1;
                        }
                    }
                } else if ch == '_' || ch == ' ' {
                    self.pos = self.pos + 1;
                } else {
                    break ;
                }
            }
            if dots <= 1 {
                Ok(Token::Number(literal))
            } else {
                Err(LexError::InvalidNumber)
            }
        } else {
            Err(LexError::InvalidCharacter(c))
        }
    }
}

} // verus!
