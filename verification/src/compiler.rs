//! The compiler: a single-pass precedence-climbing parser that consumes
//! tokens from the lexer and emits instructions directly into a chunk.
//!
//! Every chunk the compiler hands over is well formed ([`chunk_wf`]):
//! constant-pool indices are in range, the constants behind the
//! global-variable instructions are strings, jump targets stay inside the
//! code, and the line table accounts for every instruction.  Closing a
//! scope emits exactly one `Pop` per local declared in it.  Compilation
//! fails exactly when at least one diagnostic was recorded.

use vstd::prelude::*;
use vstd::string::StringSliceAdditionalSpecFns;

use crate::chunk::{chunk_wf, line_at, op_wf, Chunk, OpCode};
use crate::scanner::{scan_spec, Scanner};
use crate::token::{Token, TokenType};
use crate::value::Value;

verus! {

/// Binding precedence of the infix operators, lowest first.
#[derive(Clone, Copy, PartialEq, Eq, Structural, Debug)]
pub enum Precedence {
    Lowest,
    Assignment,
    Or,
    And,
    Equality,
    Comparison,
    Term,
    Factor,
    Unary,
    Call,
    Primary,
}

/// The numeric level of a precedence, for comparisons.
pub open spec fn prec_level(p: Precedence) -> int {
    match p {
        Precedence::Lowest => 0,
        Precedence::Assignment => 1,
        Precedence::Or => 2,
        Precedence::And => 3,
        Precedence::Equality => 4,
        Precedence::Comparison => 5,
        Precedence::Term => 6,
        Precedence::Factor => 7,
        Precedence::Unary => 8,
        Precedence::Call => 9,
        Precedence::Primary => 10,
    }
}

/// The next precedence up, for [`prec_level`].
pub open spec fn prec_next(p: Precedence) -> Option<Precedence> {
    match p {
        Precedence::Lowest => Some(Precedence::Assignment),
        Precedence::Assignment => Some(Precedence::Or),
        Precedence::Or => Some(Precedence::And),
        Precedence::And => Some(Precedence::Equality),
        Precedence::Equality => Some(Precedence::Comparison),
        Precedence::Comparison => Some(Precedence::Term),
        Precedence::Term => Some(Precedence::Factor),
        Precedence::Factor => Some(Precedence::Unary),
        Precedence::Unary => Some(Precedence::Call),
        Precedence::Call => Some(Precedence::Primary),
        Precedence::Primary => None,
    }
}

impl Precedence {
    /// The numeric level, for comparing binding strengths.
    pub fn level(&self) -> (l: u8)
        ensures
            l as int == prec_level(*self),
    {
        match self {
            Precedence::Lowest => 0,
            Precedence::Assignment => 1,
            Precedence::Or => 2,
            Precedence::And => 3,
            Precedence::Equality => 4,
            Precedence::Comparison => 5,
            Precedence::Term => 6,
            Precedence::Factor => 7,
            Precedence::Unary => 8,
            Precedence::Call => 9,
            Precedence::Primary => 10,
        }
    }

    /// The next precedence up, or nothing above the highest.
    pub fn next(&self) -> (r: Option<Precedence>)
        ensures
            r == prec_next(*self),
    {
        match self {
            Precedence::Lowest => Some(Precedence::Assignment),
            Precedence::Assignment => Some(Precedence::Or),
            Precedence::Or => Some(Precedence::And),
            Precedence::And => Some(Precedence::Equality),
            Precedence::Equality => Some(Precedence::Comparison),
            Precedence::Comparison => Some(Precedence::Term),
            Precedence::Term => Some(Precedence::Factor),
            Precedence::Factor => Some(Precedence::Unary),
            Precedence::Unary => Some(Precedence::Call),
            Precedence::Call => Some(Precedence::Primary),
            Precedence::Primary => None,
        }
    }
}

/// The prefix parse behaviours a token category can have.
#[derive(Clone, Copy, PartialEq, Eq, Structural, Debug)]
pub enum PrefixFn {
    Grouping,
    Unary,
    Variable,
    StringLit,
    NumberLit,
    Literal,
}

/// The infix parse behaviours a token category can have.
#[derive(Clone, Copy, PartialEq, Eq, Structural, Debug)]
pub enum InfixFn {
    Binary,
    AndOp,
    OrOp,
}

/// One row of the parse table: at most one prefix rule, at most one infix
/// rule, and the infix binding precedence.
#[derive(Clone, Copy, PartialEq, Eq, Structural, Debug)]
pub struct ParseRule {
    pub prefix: Option<PrefixFn>,
    pub infix: Option<InfixFn>,
    pub precedence: Precedence,
}

/// The fixed parse table, as a function from token category to rule.
pub open spec fn rule_spec(tt: TokenType) -> ParseRule {
    match tt {
        TokenType::LeftParen => ParseRule {
            prefix: Some(PrefixFn::Grouping),
            infix: None,
            precedence: Precedence::Lowest,
        },
        TokenType::Minus => ParseRule {
            prefix: Some(PrefixFn::Unary),
            infix: Some(InfixFn::Binary),
            precedence: Precedence::Term,
        },
        TokenType::Plus => ParseRule {
            prefix: None,
            infix: Some(InfixFn::Binary),
            precedence: Precedence::Term,
        },
        TokenType::Slash => ParseRule {
            prefix: None,
            infix: Some(InfixFn::Binary),
            precedence: Precedence::Factor,
        },
        TokenType::Star => ParseRule {
            prefix: None,
            infix: Some(InfixFn::Binary),
            precedence: Precedence::Factor,
        },
        TokenType::Bang => ParseRule {
            prefix: Some(PrefixFn::Unary),
            infix: None,
            precedence: Precedence::Lowest,
        },
        TokenType::BangEqual => ParseRule {
            prefix: None,
            infix: Some(InfixFn::Binary),
            precedence: Precedence::Equality,
        },
        TokenType::EqualEqual => ParseRule {
            prefix: None,
            infix: Some(InfixFn::Binary),
            precedence: Precedence::Equality,
        },
        TokenType::Greater => ParseRule {
            prefix: None,
            infix: Some(InfixFn::Binary),
            precedence: Precedence::Comparison,
        },
        TokenType::GreaterEqual => ParseRule {
            prefix: None,
            infix: Some(InfixFn::Binary),
            precedence: Precedence::Comparison,
        },
        TokenType::Less => ParseRule {
            prefix: None,
            infix: Some(InfixFn::Binary),
            precedence: Precedence::Comparison,
        },
        TokenType::LessEqual => ParseRule {
            prefix: None,
            infix: Some(InfixFn::Binary),
            precedence: Precedence::Comparison,
        },
        TokenType::Identifier => ParseRule {
            prefix: Some(PrefixFn::Variable),
            infix: None,
            precedence: Precedence::Lowest,
        },
        TokenType::Str => ParseRule {
            prefix: Some(PrefixFn::StringLit),
            infix: None,
            precedence: Precedence::Lowest,
        },
        TokenType::Number => ParseRule {
            prefix: Some(PrefixFn::NumberLit),
            infix: None,
            precedence: Precedence::Lowest,
        },
        TokenType::And => ParseRule {
            prefix: None,
            infix: Some(InfixFn::AndOp),
            precedence: Precedence::And,
        },
        TokenType::Or => ParseRule {
            prefix: None,
            infix: Some(InfixFn::OrOp),
            precedence: Precedence::Or,
        },
        TokenType::False => ParseRule {
            prefix: Some(PrefixFn::Literal),
            infix: None,
            precedence: Precedence::Lowest,
        },
        TokenType::True => ParseRule {
            prefix: Some(PrefixFn::Literal),
            infix: None,
            precedence: Precedence::Lowest,
        },
        TokenType::Nil => ParseRule {
            prefix: Some(PrefixFn::Literal),
            infix: None,
            precedence: Precedence::Lowest,
        },
        _ => ParseRule { prefix: None, infix: None, precedence: Precedence::Lowest },
    }
}

/// Looks a token category up in the fixed parse table.
pub fn get_rule(tt: TokenType) -> (r: ParseRule)
    ensures
        r == rule_spec(tt),
{
    match tt {
        TokenType::LeftParen => ParseRule {
            prefix: Some(PrefixFn::Grouping),
            infix: None,
            precedence: Precedence::Lowest,
        },
        TokenType::Minus => ParseRule {
            prefix: Some(PrefixFn::Unary),
            infix: Some(InfixFn::Binary),
            precedence: Precedence::Term,
        },
        TokenType::Plus => ParseRule {
            prefix: None,
            infix: Some(InfixFn::Binary),
            precedence: Precedence::Term,
        },
        TokenType::Slash => ParseRule {
            prefix: None,
            infix: Some(InfixFn::Binary),
            precedence: Precedence::Factor,
        },
        TokenType::Star => ParseRule {
            prefix: None,
            infix: Some(InfixFn::Binary),
            precedence: Precedence::Factor,
        },
        TokenType::Bang => ParseRule {
            prefix: Some(PrefixFn::Unary),
            infix: None,
            precedence: Precedence::Lowest,
        },
        TokenType::BangEqual => ParseRule {
            prefix: None,
            infix: Some(InfixFn::Binary),
            precedence: Precedence::Equality,
        },
        TokenType::EqualEqual => ParseRule {
            prefix: None,
            infix: Some(InfixFn::Binary),
            precedence: Precedence::Equality,
        },
        TokenType::Greater => ParseRule {
            prefix: None,
            infix: Some(InfixFn::Binary),
            precedence: Precedence::Comparison,
        },
        TokenType::GreaterEqual => ParseRule {
            prefix: None,
            infix: Some(InfixFn::Binary),
            precedence: Precedence::Comparison,
        },
        TokenType::Less => ParseRule {
            prefix: None,
            infix: Some(InfixFn::Binary),
            precedence: Precedence::Comparison,
        },
        TokenType::LessEqual => ParseRule {
            prefix: None,
            infix: Some(InfixFn::Binary),
            precedence: Precedence::Comparison,
        },
        TokenType::Identifier => ParseRule {
            prefix: Some(PrefixFn::Variable),
            infix: None,
            precedence: Precedence::Lowest,
        },
        TokenType::Str => ParseRule {
            prefix: Some(PrefixFn::StringLit),
            infix: None,
            precedence: Precedence::Lowest,
        },
        TokenType::Number => ParseRule {
            prefix: Some(PrefixFn::NumberLit),
            infix: None,
            precedence: Precedence::Lowest,
        },
        TokenType::And => ParseRule {
            prefix: None,
            infix: Some(InfixFn::AndOp),
            precedence: Precedence::And,
        },
        TokenType::Or => ParseRule {
            prefix: None,
            infix: Some(InfixFn::OrOp),
            precedence: Precedence::Or,
        },
        TokenType::False => ParseRule {
            prefix: Some(PrefixFn::Literal),
            infix: None,
            precedence: Precedence::Lowest,
        },
        TokenType::True => ParseRule {
            prefix: Some(PrefixFn::Literal),
            infix: None,
            precedence: Precedence::Lowest,
        },
        TokenType::Nil => ParseRule {
            prefix: Some(PrefixFn::Literal),
            infix: None,
            precedence: Precedence::Lowest,
        },
        _ => ParseRule { prefix: None, infix: None, precedence: Precedence::Lowest },
    }
}

/// The kinds of compile-time diagnostic.
#[derive(Clone, Copy, PartialEq, Eq, Structural, Debug)]
pub enum DiagKind {
    UnexpectedCharacter,
    UnterminatedString,
    ExpectedExpression,
    ExpectedRightParen,
    ExpectedLeftParen,
    ExpectedRightBrace,
    ExpectedSemicolon,
    ExpectedVariableName,
    InvalidAssignmentTarget,
    DuplicateLocal,
    TooManyConstants,
    TooManyLocals,
    TooMuchCode,
    InvalidNumber,
}

/// The message text of each diagnostic kind.
pub open spec fn diag_message(k: DiagKind) -> Seq<char> {
    match k {
        DiagKind::UnexpectedCharacter => "Unexpected character."@,
        DiagKind::UnterminatedString => "Unterminated string."@,
        DiagKind::ExpectedExpression => "Expect expression."@,
        DiagKind::ExpectedRightParen => "Expect ')' after expression."@,
        DiagKind::ExpectedLeftParen => "Expect '(' after control-flow keyword."@,
        DiagKind::ExpectedRightBrace => "Expect '}' after block."@,
        DiagKind::ExpectedSemicolon => "Expect ';' after statement."@,
        DiagKind::ExpectedVariableName => "Expect variable name."@,
        DiagKind::InvalidAssignmentTarget => "Invalid assignment target."@,
        DiagKind::DuplicateLocal => "Already a variable with this name in this scope."@,
        DiagKind::TooManyConstants => "Too many constants in one chunk."@,
        DiagKind::TooManyLocals => "Too many local variables in scope."@,
        DiagKind::TooMuchCode => "Too much code to jump over."@,
        DiagKind::InvalidNumber => "Number literal is not a valid integer."@,
    }
}

/// One compile-time diagnostic: its kind and the source line of the
/// offending token.
#[derive(Clone, Copy, PartialEq, Eq, Structural, Debug)]
pub struct Diagnostic {
    pub kind: DiagKind,
    pub line: usize,
}

impl Diagnostic {
    /// The message text of the diagnostic.
    pub fn message(&self) -> (m: &'static str)
        ensures
            m@ == diag_message(self.kind),
    {
        match self.kind {
            DiagKind::UnexpectedCharacter => "Unexpected character.",
            DiagKind::UnterminatedString => "Unterminated string.",
            DiagKind::ExpectedExpression => "Expect expression.",
            DiagKind::ExpectedRightParen => "Expect ')' after expression.",
            DiagKind::ExpectedLeftParen => "Expect '(' after control-flow keyword.",
            DiagKind::ExpectedRightBrace => "Expect '}' after block.",
            DiagKind::ExpectedSemicolon => "Expect ';' after statement.",
            DiagKind::ExpectedVariableName => "Expect variable name.",
            DiagKind::InvalidAssignmentTarget => "Invalid assignment target.",
            DiagKind::DuplicateLocal => "Already a variable with this name in this scope.",
            DiagKind::TooManyConstants => "Too many constants in one chunk.",
            DiagKind::TooManyLocals => "Too many local variables in scope.",
            DiagKind::TooMuchCode => "Too much code to jump over.",
            DiagKind::InvalidNumber => "Number literal is not a valid integer.",
        }
    }
}

/// One block-scoped local variable: its name and the depth of the scope
/// that declared it.  Its operand-stack slot is its position in the
/// compiler's locals sequence.
pub struct Local {
    pub name: Vec<u8>,
    pub depth: usize,
}

/// The model of the locals sequence: names and depths.
pub open spec fn locals_model(ls: Seq<Local>) -> Seq<(Seq<u8>, usize)> {
    ls.map_values(|l: Local| (l.name@, l.depth))
}

/// The parser state: the lexer, a one-token lookahead window, the chunk
/// being filled, the open scopes' locals, and the diagnostics collected
/// so far.  `panic_mode` suppresses cascading diagnostics until the next
/// statement boundary.
struct Parser {
    scanner: Scanner,
    current: Token,
    previous: Token,
    chunk: Chunk,
    locals: Vec<Local>,
    scope_depth: usize,
    diagnostics: Vec<Diagnostic>,
    had_error: bool,
    panic_mode: bool,
}

impl Parser {
    /// The parser's invariant: the lexer is sound, the chunk is well
    /// formed, locals are declared inner-last with depths inside the open
    /// scopes, and a diagnostic was recorded exactly when the error flag
    /// is set.
    spec fn wf(&self) -> bool {
        &&& self.scanner.wf()
        &&& (self.current@.token_type == TokenType::Eof ==> self.scanner.current
            == self.scanner.source@.len())
        &&& chunk_wf(self.chunk@)
        &&& self.locals@.len() <= 256
        &&& (forall|i: int|
            0 <= i < self.locals@.len() ==> 1 <= (#[trigger] self.locals@[i]).depth
                <= self.scope_depth)
        &&& (forall|i: int, j: int|
            0 <= i <= j < self.locals@.len() ==> (#[trigger] self.locals@[i]).depth <= (
            #[trigger] self.locals@[j]).depth)
        &&& self.scope_depth <= self.anchor()
        &&& (self.had_error <==> self.diagnostics@.len() > 0)
        &&& (self.panic_mode ==> self.had_error)
    }

    /// One while the lookahead token is not yet the end-of-input token.
    spec fn pend(&self) -> int {
        if self.current@.token_type == TokenType::Eof {
            0int
        } else {
            1int
        }
    }

    /// The bytes consumed before the lookahead token was scanned; every
    /// open scope was opened by a block or loop keyword among them, so the
    /// scope depth never exceeds this.
    spec fn anchor(&self) -> int {
        self.scanner.current - self.pend()
    }

    /// The termination measure of the mutually recursive parse functions:
    /// unread source bytes, plus one while the lookahead token is not yet
    /// the end-of-input token.
    spec fn measure(&self) -> int {
        self.scanner.source@.len() - self.scanner.current + (
        if self.current@.token_type == TokenType::Eof {
            0int
        } else {
            1int
        })
    }
}

/// What every parse step preserves: the source is fixed, the measure
/// never grows, the error flag is never cleared, the already-emitted code
/// and constants are untouched (code is only appended to, and jumps are
/// patched only above the caller's watermark), and the scope depth is
/// restored.
spec fn parse_frame(p0: Parser, p1: Parser) -> bool {
    &&& p1.scanner.source == p0.scanner.source
    &&& p1.measure() <= p0.measure()
    &&& (p0.had_error ==> p1.had_error)
    &&& p1.chunk@.code.len() >= p0.chunk@.code.len()
    &&& (forall|i: int|
        0 <= i < p0.chunk@.code.len() ==> (#[trigger] p1.chunk@.code[i]) == p0.chunk@.code[i])
    &&& p1.chunk@.constants.len() >= p0.chunk@.constants.len()
    &&& (forall|i: int|
        0 <= i < p0.chunk@.constants.len() ==> (#[trigger] p1.chunk@.constants[i])
            == p0.chunk@.constants[i])
    &&& p1.scope_depth == p0.scope_depth
}

/// A parse step that leaves the locals exactly as they were.
spec fn parse_frame_locals(p0: Parser, p1: Parser) -> bool {
    &&& parse_frame(p0, p1)
    &&& locals_model(p1.locals@) == locals_model(p0.locals@)
}


/// Whether `op` may be emitted at the end of chunk `c`: it will be well
/// formed at position `c.code.len()` of the grown code.
pub open spec fn emittable(op: OpCode, c: crate::chunk::ChunkM) -> bool {
    op_wf(op, c.code.len() as int, c.code.len() as int + 1, c.constants)
}

/// All bytes of a lexeme are decimal digits.
pub open spec fn all_digits(s: Seq<u8>) -> bool {
    forall|i: int| 0 <= i < s.len() ==> crate::scanner::is_digit(#[trigger] s[i])
}

/// The numeric value of a digit lexeme, most significant digit first.
pub open spec fn digits_val(s: Seq<u8>) -> int
    decreases s.len(),
{
    if s.len() == 0 {
        0
    } else {
        digits_val(s.drop_last()) * 10 + (s.last() as int - 48)
    }
}

/// Under `all_digits`, a prefix never exceeds the whole lexeme's value.
proof fn lemma_digits_val_prefix_le(s: Seq<u8>, i: int)
    requires
        0 <= i <= s.len(),
        all_digits(s),
        digits_val(s.subrange(0, i)) >= 0,
    ensures
        digits_val(s.subrange(0, i)) <= digits_val(s),
        digits_val(s) >= 0,
    decreases s.len() - i,
{
    if i == s.len() {
        assert(s.subrange(0, i) =~= s);
    } else {
        let p = s.subrange(0, i);
        let q = s.subrange(0, i + 1);
        assert(q.drop_last() =~= p);
        assert(crate::scanner::is_digit(q.last()));
        assert(digits_val(q) == digits_val(p) * 10 + (q.last() as int - 48));
        assert(digits_val(q) >= digits_val(p)) by {
            assert(digits_val(p) * 10 == digits_val(p) + 9 * digits_val(p));
            assert(9 * digits_val(p) >= 0) by (nonlinear_arith)
                requires
                    digits_val(p) >= 0,
            ;
            assert(q.last() as int - 48 >= 0);
        }
        lemma_digits_val_prefix_le(s, i + 1);
    }
}

/// Parses a decimal integer lexeme.  Succeeds exactly on a non-empty
/// all-digit lexeme whose value fits in a signed 64-bit number, and then
/// returns that value.
pub fn parse_int(lex: &Vec<u8>) -> (r: Option<i64>)
    ensures
        match r {
            Some(v) => {
                &&& all_digits(lex@)
                &&& lex@.len() > 0
                &&& v as int == digits_val(lex@)
            },
            None => !(all_digits(lex@) && lex@.len() > 0 && digits_val(lex@) <= i64::MAX as int),
        },
{
    let n: usize = lex.len();
    if n == 0 {
        return None;
    }
    let mut acc: u64 = 0;
    let mut i: usize = 0;
    while i < n
        invariant
            n == lex@.len(),
            0 < n,
            i <= n,
            all_digits(lex@.subrange(0, i as int)),
            acc as int == digits_val(lex@.subrange(0, i as int)),
            acc <= i64::MAX as u64,
        decreases n - i,
    {
        let b: u8 = lex[i];
        if !crate::scanner::byte_is_digit(b) {
            proof {
                assert(lex@[i as int] == b);
                assert(!all_digits(lex@));
            }
            return None;
        }
        let d: u64 = (b - 48) as u64;
        let ghost p = lex@.subrange(0, i as int);
        let ghost q = lex@.subrange(0, i + 1 as int);
        proof {
            assert(q.drop_last() =~= p);
            assert(q.last() == b);
        }
        if acc > (9223372036854775807u64 - d) / 10 {
            proof {
                let lim = (9223372036854775807 - d as int) / 10;
                assert(acc as int >= lim + 1);
                assert((lim + 1) * 10 + d as int > 9223372036854775807) by (nonlinear_arith)
                    requires
                        lim == (9223372036854775807 - d as int) / 10,
                        0 <= d as int <= 9,
                ;
                assert(acc as int * 10 + d as int >= (lim + 1) * 10 + d as int) by (nonlinear_arith)
                    requires
                        acc as int >= lim + 1,
                ;
                assert(digits_val(q) > i64::MAX as int);
                if all_digits(lex@) {
                    lemma_digits_val_prefix_le(lex@, i + 1);
                }
            }
            return None;
        }
        proof {
            let lim = (9223372036854775807 - d as int) / 10;
            assert(acc as int <= lim);
            assert(acc as int * 10 <= lim * 10) by (nonlinear_arith)
                requires
                    acc as int <= lim,
            ;
            assert(lim * 10 + d as int <= 9223372036854775807) by (nonlinear_arith)
                requires
                    lim == (9223372036854775807 - d as int) / 10,
                    0 <= d as int,
            ;
        }
        acc = acc * 10 + d;
        i = i + 1;
        proof {
            assert(all_digits(q));
        }
    }
    proof {
        assert(lex@.subrange(0, n as int) =~= lex@);
    }
    Some(acc as i64)
}

/// How many locals survive the close of scope depth `d`: the ones below
/// the trailing run of locals declared at depth `d` or deeper.
pub open spec fn retained(ls: Seq<Local>, d: usize) -> int
    decreases ls.len(),
{
    if ls.len() == 0 {
        0
    } else if ls.last().depth >= d {
        retained(ls.drop_last(), d)
    } else {
        ls.len() as int
    }
}

/// What [`retained`] keeps is never more than what was there.
pub proof fn lemma_retained_le(ls: Seq<Local>, d: usize)
    ensures
        0 <= retained(ls, d) <= ls.len(),
    decreases ls.len(),
{
    if ls.len() > 0 && ls.last().depth >= d {
        lemma_retained_le(ls.drop_last(), d);
    }
}

/// With depths sorted and bounded by `d`, closing depth `d` keeps exactly
/// the locals of shallower scopes and discards exactly the locals
/// declared at depth `d`.
pub proof fn lemma_retained_split(ls: Seq<Local>, d: usize)
    requires
        forall|i: int, j: int|
            0 <= i <= j < ls.len() ==> (#[trigger] ls[i]).depth <= (#[trigger] ls[j]).depth,
        forall|i: int| 0 <= i < ls.len() ==> (#[trigger] ls[i]).depth <= d,
    ensures
        0 <= retained(ls, d) <= ls.len(),
        forall|i: int| 0 <= i < retained(ls, d) ==> (#[trigger] ls[i]).depth < d,
        forall|i: int| retained(ls, d) <= i < ls.len() ==> (#[trigger] ls[i]).depth == d,
    decreases ls.len(),
{
    if ls.len() > 0 {
        if ls.last().depth >= d {
            let head = ls.drop_last();
            assert forall|i: int, j: int| 0 <= i <= j < head.len() implies (
            #[trigger] head[i]).depth <= (#[trigger] head[j]).depth by {
                assert(head[i] == ls[i]);
                assert(head[j] == ls[j]);
            }
            assert forall|i: int| 0 <= i < head.len() implies (#[trigger] head[i]).depth <= d by {
                assert(head[i] == ls[i]);
            }
            lemma_retained_split(head, d);
            assert(ls.last().depth == d);
            assert forall|i: int| 0 <= i < retained(ls, d) implies (#[trigger] ls[i]).depth < d by {
                assert(head[i] == ls[i]);
            }
            assert forall|i: int| retained(ls, d) <= i < ls.len() implies (#[trigger] ls[i]).depth
                == d by {
                if i < ls.len() - 1 {
                    assert(head[i] == ls[i]);
                }
            }
        } else {
            assert(retained(ls, d) == ls.len());
            assert forall|i: int| 0 <= i < retained(ls, d) implies (#[trigger] ls[i]).depth < d by {
                assert(ls[i].depth <= ls[ls.len() - 1].depth);
            }
        }
    }
}

/// A token category that cannot begin any statement: it is none of the
/// statement keywords, does not open a block, and has no prefix rule, so
/// a statement starting with it is an "expect expression" diagnostic.
pub open spec fn starts_no_statement(tt: TokenType) -> bool {
    &&& tt != TokenType::Var
    &&& tt != TokenType::Print
    &&& tt != TokenType::If
    &&& tt != TokenType::While
    &&& tt != TokenType::For
    &&& tt != TokenType::LeftBrace
    &&& rule_spec(tt).prefix is None
}

/// Closing a scope restores exactly the locals from before it opened:
/// with depths sorted, the shallower prefix intact and every added local
/// at the closing depth, [`retained`] keeps exactly the prefix.
proof fn lemma_scope_restores(mid: Seq<Local>, old_ls: Seq<Local>, d: usize)
    requires
        forall|i: int, j: int|
            0 <= i <= j < mid.len() ==> (#[trigger] mid[i]).depth <= (#[trigger] mid[j]).depth,
        forall|i: int| 0 <= i < mid.len() ==> (#[trigger] mid[i]).depth <= d,
        old_ls.len() <= mid.len(),
        forall|i: int|
            0 <= i < old_ls.len() ==> (#[trigger] locals_model(mid)[i]) == locals_model(old_ls)[i],
        forall|i: int|
            old_ls.len() <= i < mid.len() ==> (#[trigger] locals_model(mid)[i]).1 == d,
        forall|i: int| 0 <= i < old_ls.len() ==> (#[trigger] old_ls[i]).depth < d,
    ensures
        retained(mid, d) == old_ls.len(),
        locals_model(mid).subrange(0, old_ls.len() as int) =~= locals_model(old_ls),
{
    lemma_retained_le(mid, d);
    lemma_retained_split(mid, d);
    assert(locals_model(mid).len() == mid.len());
    assert(locals_model(old_ls).len() == old_ls.len());
    let k = retained(mid, d);
    let n0 = old_ls.len() as int;
    if k < n0 {
        assert(mid[k].depth == d);
        assert(locals_model(mid)[k] == locals_model(old_ls)[k]);
        assert(locals_model(old_ls)[k].1 == old_ls[k].depth);
    }
    if k > n0 {
        assert(mid[n0].depth < d);
        assert(locals_model(mid)[n0].1 == d);
    }
    assert forall|i: int|
        0 <= i < n0 implies locals_model(mid).subrange(0, n0)[i] == locals_model(old_ls)[i] by {
        assert(locals_model(mid)[i] == locals_model(old_ls)[i]);
    }
}

/// The lookahead token is a number literal the compiler accepts whole:
/// all digits, in range, with room in the constant pool.
pub open spec fn number_literal_ok(t: crate::token::TokenM, pool_len: int) -> bool {
    &&& t.token_type == TokenType::Number
    &&& all_digits(t.lexeme)
    &&& t.lexeme.len() > 0
    &&& digits_val(t.lexeme) <= i64::MAX as int
    &&& pool_len < 256
}

/// The slot a name resolves to: the innermost (last-declared) local with
/// that name, or none.
pub open spec fn resolve_spec(ls: Seq<Local>, name: Seq<u8>) -> Option<int>
    decreases ls.len(),
{
    if ls.len() == 0 {
        None
    } else if ls.last().name@ == name {
        Some(ls.len() - 1)
    } else {
        resolve_spec(ls.drop_last(), name)
    }
}

/// Where the innermost local with the name sits, [`resolve_spec`] finds it.
proof fn lemma_resolve_at(ls: Seq<Local>, name: Seq<u8>, i: int)
    requires
        0 <= i < ls.len(),
        ls[i].name@ == name,
        forall|j: int| i < j < ls.len() ==> (#[trigger] ls[j]).name@ != name,
    ensures
        resolve_spec(ls, name) == Some(i),
    decreases ls.len(),
{
    if i < ls.len() - 1 {
        let head = ls.drop_last();
        assert(head[i] == ls[i]);
        assert forall|j: int| i < j < head.len() implies (#[trigger] head[j]).name@ != name by {
            assert(head[j] == ls[j]);
        }
        lemma_resolve_at(head, name, i);
    }
}

/// Where no local has the name, [`resolve_spec`] finds none.
proof fn lemma_resolve_none(ls: Seq<Local>, name: Seq<u8>)
    requires
        forall|j: int| 0 <= j < ls.len() ==> (#[trigger] ls[j]).name@ != name,
    ensures
        resolve_spec(ls, name) == None::<int>,
    decreases ls.len(),
{
    if ls.len() > 0 {
        let head = ls.drop_last();
        assert forall|j: int| 0 <= j < head.len() implies (#[trigger] head[j]).name@ != name by {
            assert(head[j] == ls[j]);
        }
        lemma_resolve_none(head, name);
    }
}

impl Parser {
    /// Records a diagnostic and enters panic mode; in panic mode further
    /// diagnostics are suppressed until the next statement boundary.
    fn report(&mut self, kind: DiagKind, line: usize)
        requires
            old(self).wf(),
        ensures
            final(self).wf(),
            !old(self).panic_mode ==> final(self).diagnostics@ == old(self).diagnostics@.push(
                Diagnostic { kind, line },
            ),
            old(self).panic_mode ==> final(self).diagnostics == old(self).diagnostics,
            final(self).scanner == old(self).scanner,
            final(self).current == old(self).current,
            final(self).previous == old(self).previous,
            final(self).chunk == old(self).chunk,
            final(self).locals == old(self).locals,
            final(self).scope_depth == old(self).scope_depth,
            final(self).had_error,
            final(self).panic_mode,
    {
        if self.panic_mode {
            return ;
        }
        self.panic_mode = true;
        self.had_error = true;
        self.diagnostics.push(Diagnostic { kind, line });
    }

    /// Reads the next token into the lookahead window, reporting and
    /// skipping error tokens; the old lookahead token becomes `previous`.
    fn advance(&mut self)
        requires
            old(self).wf(),
        ensures
            final(self).wf(),
            final(self).scanner.source == old(self).scanner.source,
            final(self).measure() <= old(self).measure(),
            old(self).current@.token_type != TokenType::Eof ==> final(self).measure() < old(
                self,
            ).measure(),
            final(self).previous@ == old(self).current@,
            final(self).chunk == old(self).chunk,
            final(self).locals == old(self).locals,
            final(self).scope_depth == old(self).scope_depth,
            old(self).had_error ==> final(self).had_error,
            old(self).panic_mode ==> final(self).panic_mode,
            final(self).current@.token_type != TokenType::Error,
            old(self).current@.token_type == TokenType::Eof ==> final(self).had_error == old(
                self,
            ).had_error,
            ({
                let r = scan_spec(
                    old(self).scanner.source@,
                    old(self).scanner.current as int,
                    old(self).scanner.line as int,
                );
                r.token_type != TokenType::Error ==> {
                    &&& final(self).current@.token_type == r.token_type
                    &&& final(self).current@.lexeme == crate::scanner::lexeme_of(
                        old(self).scanner.source@,
                        r,
                    )
                    &&& final(self).current@.line as int == r.token_line
                    &&& final(self).scanner.current as int == r.end
                    &&& final(self).scanner.line as int == r.line
                    &&& final(self).diagnostics == old(self).diagnostics
                    &&& final(self).had_error == old(self).had_error
                    &&& final(self).panic_mode == old(self).panic_mode
                }
            }),
            final(self).anchor() >= old(self).anchor(),
            old(self).current@.token_type != TokenType::Eof ==> final(self).anchor() > old(
                self,
            ).anchor(),
    {
        self.previous = self.current.duplicate();
        let ghost pos0 = self.scanner.current as int;
        let ghost line0 = self.scanner.line as int;
        let ghost first_nonerror = scan_spec(self.scanner.source@, pos0, line0).token_type
            != TokenType::Error;
        loop
            invariant
                self.scanner.wf(),
                self.scanner.source == old(self).scanner.source,
                pos0 <= self.scanner.current,
                pos0 == old(self).scanner.current,
                old(self).current@.token_type == TokenType::Eof ==> self.scanner.current
                    == self.scanner.source@.len(),
                old(self).current@.token_type == TokenType::Eof ==> self.had_error == old(
                    self,
                ).had_error,
                first_nonerror == (scan_spec(self.scanner.source@, pos0, line0).token_type
                    != TokenType::Error),
                line0 == old(self).scanner.line as int,
                first_nonerror ==> {
                    &&& self.scanner.current as int == pos0
                    &&& self.scanner.line as int == line0
                    &&& self.diagnostics == old(self).diagnostics
                    &&& self.had_error == old(self).had_error
                    &&& self.panic_mode == old(self).panic_mode
                },
                self.previous@ == old(self).current@,
                self.current == old(self).current,
                self.chunk == old(self).chunk,
                self.locals == old(self).locals,
                self.scope_depth == old(self).scope_depth,
                self.diagnostics@.len() > 0 <==> self.had_error,
                self.panic_mode ==> self.had_error,
                old(self).had_error ==> self.had_error,
                old(self).panic_mode ==> self.panic_mode,
                chunk_wf(self.chunk@),
                self.locals@.len() <= 256,
                forall|i: int|
                    0 <= i < self.locals@.len() ==> 1 <= (#[trigger] self.locals@[i]).depth
                        <= self.scope_depth,
                forall|i: int, j: int|
                    0 <= i <= j < self.locals@.len() ==> (#[trigger] self.locals@[i]).depth <= (
                    #[trigger] self.locals@[j]).depth,
                self.scope_depth <= self.anchor(),
            decreases self.scanner.source@.len() - self.scanner.current,
        {
            let ghost p = self.scanner.current as int;
            proof {
                crate::scanner::lemma_scan_props(
                    self.scanner.source@,
                    self.scanner.current as int,
                    self.scanner.line as int,
                );
            }
            let t: Token = self.scanner.scan_token();
            if t.token_type == TokenType::Error {
                let unterminated: Vec<u8> = crate::scanner::make_unterminated_string_message();
                let kind: DiagKind = if crate::value::bytes_eq(&t.lexeme, &unterminated) {
                    DiagKind::UnterminatedString
                } else {
                    DiagKind::UnexpectedCharacter
                };
                let line: usize = t.line;
                if !self.panic_mode {
                    self.panic_mode = true;
                    self.had_error = true;
                    self.diagnostics.push(Diagnostic { kind, line });
                }
            } else {
                self.current = t;
                return ;
            }
        }
    }

    /// True when the lookahead token has the given category.
    fn check(&self, tt: TokenType) -> (r: bool)
        ensures
            r == (self.current@.token_type == tt),
    {
        self.current.token_type == tt
    }

    /// Consumes the lookahead token when it has the given category.
    fn match_token(&mut self, tt: TokenType) -> (r: bool)
        requires
            old(self).wf(),
        ensures
            final(self).wf(),
            final(self).scanner.source == old(self).scanner.source,
            final(self).measure() <= old(self).measure(),
            r == (old(self).current@.token_type == tt),
            r && tt != TokenType::Eof ==> final(self).measure() < old(self).measure(),
            r && tt != TokenType::Eof ==> final(self).anchor() > old(self).anchor(),
            r && tt == TokenType::Eof ==> final(self).had_error == old(self).had_error,
            r ==> final(self).previous@ == old(self).current@,
            ({
                let nxt = scan_spec(
                    old(self).scanner.source@,
                    old(self).scanner.current as int,
                    old(self).scanner.line as int,
                );
                old(self).current@.token_type == tt && nxt.token_type != TokenType::Error ==> {
                    &&& final(self).current@.token_type == nxt.token_type
                    &&& final(self).current@.lexeme == crate::scanner::lexeme_of(
                        old(self).scanner.source@,
                        nxt,
                    )
                    &&& final(self).current@.line as int == nxt.token_line
                    &&& final(self).scanner.current as int == nxt.end
                    &&& final(self).scanner.line as int == nxt.line
                    &&& final(self).diagnostics == old(self).diagnostics
                    &&& final(self).had_error == old(self).had_error
                    &&& final(self).panic_mode == old(self).panic_mode
                }
            }),
            !r ==> *final(self) == *old(self),
            final(self).chunk == old(self).chunk,
            final(self).locals == old(self).locals,
            final(self).scope_depth == old(self).scope_depth,
            old(self).had_error ==> final(self).had_error,
            old(self).panic_mode ==> final(self).panic_mode,
    {
        if self.current.token_type == tt {
            self.advance();
            true
        } else {
            false
        }
    }

    /// Consumes the lookahead token when it has the given category, else
    /// reports the diagnostic at the lookahead token's line.
    fn consume(&mut self, tt: TokenType, kind: DiagKind)
        requires
            old(self).wf(),
        ensures
            final(self).wf(),
            final(self).scanner.source == old(self).scanner.source,
            final(self).measure() <= old(self).measure(),
            old(self).current@.token_type == tt && tt != TokenType::Eof ==> final(self).measure()
                < old(self).measure(),
            old(self).current@.token_type == tt ==> final(self).previous@ == old(self).current@,
            old(self).current@.token_type != tt ==> final(self).had_error,
            ({
                let nxt = scan_spec(
                    old(self).scanner.source@,
                    old(self).scanner.current as int,
                    old(self).scanner.line as int,
                );
                old(self).current@.token_type == tt && nxt.token_type != TokenType::Error ==> {
                    &&& final(self).current@.token_type == nxt.token_type
                    &&& final(self).current@.lexeme == crate::scanner::lexeme_of(
                        old(self).scanner.source@,
                        nxt,
                    )
                    &&& final(self).current@.line as int == nxt.token_line
                    &&& final(self).scanner.current as int == nxt.end
                    &&& final(self).scanner.line as int == nxt.line
                    &&& final(self).diagnostics == old(self).diagnostics
                    &&& final(self).had_error == old(self).had_error
                    &&& final(self).panic_mode == old(self).panic_mode
                }
            }),
            final(self).chunk == old(self).chunk,
            final(self).locals == old(self).locals,
            final(self).scope_depth == old(self).scope_depth,
            old(self).had_error ==> final(self).had_error,
    {
        if self.current.token_type == tt {
            self.advance();
        } else {
            let line: usize = self.current.line;
            self.report(kind, line);
        }
    }

    /// Appends one instruction, recorded against the line of the token
    /// consumed last.
    fn emit_op(&mut self, op: OpCode)
        requires
            old(self).wf(),
            emittable(op, old(self).chunk@),
        ensures
            final(self).wf(),
            final(self).chunk@.code == old(self).chunk@.code.push(op),
            final(self).chunk@.constants == old(self).chunk@.constants,
            forall|i: int|
                0 <= i < old(self).chunk@.code.len() ==> line_at(final(self).chunk@.lines, i)
                    == line_at(old(self).chunk@.lines, i),
            line_at(final(self).chunk@.lines, old(self).chunk@.code.len() as int) == old(
                self,
            ).previous@.line,
            final(self).scanner == old(self).scanner,
            final(self).current == old(self).current,
            final(self).previous == old(self).previous,
            final(self).locals == old(self).locals,
            final(self).scope_depth == old(self).scope_depth,
            final(self).diagnostics == old(self).diagnostics,
            final(self).had_error == old(self).had_error,
            final(self).panic_mode == old(self).panic_mode,
    {
        let line: usize = self.previous.line;
        self.chunk.write(op, line);
        proof {
            let c0 = old(self).chunk@;
            let c1 = self.chunk@;
            assert forall|i: int| 0 <= i < c1.code.len() implies op_wf(
                #[trigger] c1.code[i],
                i,
                c1.code.len() as int,
                c1.constants,
            ) by {
                if i < c0.code.len() {
                    assert(op_wf(c0.code[i], i, c0.code.len() as int, c0.constants));
                    assert(c1.code[i] == c0.code[i]);
                }
            }
        }
    }

    /// Appends a constant to the pool; reports a diagnostic when the pool
    /// is full.
    fn make_constant(&mut self, v: Value) -> (r: Option<u8>)
        requires
            old(self).wf(),
        ensures
            final(self).wf(),
            final(self).chunk@.code == old(self).chunk@.code,
            final(self).chunk@.lines == old(self).chunk@.lines,
            final(self).scanner == old(self).scanner,
            final(self).current == old(self).current,
            final(self).previous == old(self).previous,
            final(self).locals == old(self).locals,
            final(self).scope_depth == old(self).scope_depth,
            old(self).had_error ==> final(self).had_error,
            match r {
                Some(k) => {
                    &&& final(self).chunk@.constants == old(self).chunk@.constants.push(v@)
                    &&& k as int == old(self).chunk@.constants.len()
                    &&& final(self).had_error == old(self).had_error
                    &&& final(self).diagnostics == old(self).diagnostics
                    &&& final(self).panic_mode == old(self).panic_mode
                },
                None => {
                    &&& old(self).chunk@.constants.len() >= 256
                    &&& final(self).chunk@.constants == old(self).chunk@.constants
                    &&& final(self).had_error
                },
            },
    {
        let ghost c0 = self.chunk@;
        let r: Option<u8> = self.chunk.add_constant(v);
        proof {
            let c1 = self.chunk@;
            assert forall|i: int| 0 <= i < c1.code.len() implies op_wf(
                #[trigger] c1.code[i],
                i,
                c1.code.len() as int,
                c1.constants,
            ) by {
                assert(op_wf(c0.code[i], i, c0.code.len() as int, c0.constants));
                assert(c1.code[i] == c0.code[i]);
            }
        }
        match r {
            Some(k) => Some(k),
            None => {
                let line: usize = self.previous.line;
                self.report(DiagKind::TooManyConstants, line);
                None
            },
        }
    }

    /// Emits a jump with a placeholder distance of zero, returning its
    /// offset for later patching.
    fn emit_jump(&mut self, conditional: bool) -> (at: usize)
        requires
            old(self).wf(),
        ensures
            final(self).wf(),
            at as int == old(self).chunk@.code.len(),
            final(self).chunk@.code == old(self).chunk@.code.push(
                if conditional {
                    OpCode::JumpIfFalse(0)
                } else {
                    OpCode::Jump(0)
                },
            ),
            final(self).chunk@.constants == old(self).chunk@.constants,
            final(self).scanner == old(self).scanner,
            final(self).current == old(self).current,
            final(self).previous == old(self).previous,
            final(self).locals == old(self).locals,
            final(self).scope_depth == old(self).scope_depth,
            final(self).had_error == old(self).had_error,
            final(self).panic_mode == old(self).panic_mode,
    {
        let at: usize = self.chunk.code.len();
        if conditional {
            self.emit_op(OpCode::JumpIfFalse(0));
        } else {
            self.emit_op(OpCode::Jump(0));
        }
        at
    }

    /// Resolves a placeholder jump to land just past the current end of
    /// the code.
    fn patch_jump(&mut self, at: usize)
        requires
            old(self).wf(),
            (at as int) < old(self).chunk@.code.len(),
            old(self).chunk@.code[at as int] is Jump || old(self).chunk@.code[at as int]
                is JumpIfFalse,
        ensures
            final(self).wf(),
            final(self).chunk@.code.len() == old(self).chunk@.code.len(),
            forall|i: int|
                0 <= i < old(self).chunk@.code.len() && i != at as int
                    ==> (#[trigger] final(self).chunk@.code[i]) == old(self).chunk@.code[i],
            old(self).chunk@.code[at as int] is Jump ==> final(self).chunk@.code[at as int]
                == OpCode::Jump((old(self).chunk@.code.len() - at - 1) as usize),
            old(self).chunk@.code[at as int] is JumpIfFalse ==> final(self).chunk@.code[at as int]
                == OpCode::JumpIfFalse((old(self).chunk@.code.len() - at - 1) as usize),
            final(self).chunk@.constants == old(self).chunk@.constants,
            final(self).chunk@.lines == old(self).chunk@.lines,
            final(self).scanner == old(self).scanner,
            final(self).current == old(self).current,
            final(self).previous == old(self).previous,
            final(self).locals == old(self).locals,
            final(self).scope_depth == old(self).scope_depth,
            final(self).had_error == old(self).had_error,
            final(self).panic_mode == old(self).panic_mode,
    {
        let ghost c0 = self.chunk@;
        let d: usize = self.chunk.code.len() - at - 1;
        let op: OpCode = self.chunk.code[at];
        match op {
            OpCode::Jump(_) => {
                self.chunk.code[at] = OpCode::Jump(d);
            },
            OpCode::JumpIfFalse(_) => {
                self.chunk.code[at] = OpCode::JumpIfFalse(d);
            },
            _ => {},
        }
        proof {
            let c1 = self.chunk@;
            assert(c1.lines == c0.lines);
            assert forall|i: int| 0 <= i < c1.code.len() implies op_wf(
                #[trigger] c1.code[i],
                i,
                c1.code.len() as int,
                c1.constants,
            ) by {
                assert(op_wf(c0.code[i], i, c0.code.len() as int, c0.constants));
                if i != at as int {
                    assert(c1.code[i] == c0.code[i]);
                }
            }
        }
    }

    /// Emits a backward jump to `start`, the offset of a loop's condition;
    /// a distance too large for an operand is reported instead (no real
    /// chunk reaches that size).
    fn emit_loop(&mut self, start: usize)
        requires
            old(self).wf(),
            start as int <= old(self).chunk@.code.len(),
        ensures
            final(self).wf(),
            old(self).chunk@.code.len() - start < usize::MAX ==> {
                &&& final(self).chunk@.code == old(self).chunk@.code.push(
                    OpCode::Loop((old(self).chunk@.code.len() + 1 - start) as usize),
                )
                &&& final(self).had_error == old(self).had_error
            },
            old(self).chunk@.code.len() - start >= usize::MAX ==> {
                &&& final(self).chunk@.code == old(self).chunk@.code
                &&& final(self).had_error
            },
            final(self).chunk@.constants == old(self).chunk@.constants,
            final(self).scanner == old(self).scanner,
            final(self).current == old(self).current,
            final(self).previous == old(self).previous,
            final(self).locals == old(self).locals,
            final(self).scope_depth == old(self).scope_depth,
            old(self).had_error ==> final(self).had_error,
    {
        let gap: usize = self.chunk.code.len() - start;
        if gap < usize::MAX {
            self.emit_op(OpCode::Loop(gap + 1));
        } else {
            let line: usize = self.previous.line;
            self.report(DiagKind::TooMuchCode, line);
        }
    }

    /// Opens a block scope.
    fn begin_scope(&mut self)
        requires
            old(self).wf(),
            old(self).scope_depth < old(self).anchor(),
        ensures
            final(self).wf(),
            final(self).scope_depth == old(self).scope_depth + 1,
            final(self).scanner == old(self).scanner,
            final(self).current == old(self).current,
            final(self).previous == old(self).previous,
            final(self).chunk == old(self).chunk,
            final(self).locals == old(self).locals,
            final(self).diagnostics == old(self).diagnostics,
            final(self).had_error == old(self).had_error,
            final(self).panic_mode == old(self).panic_mode,
    {
        self.scope_depth = self.scope_depth + 1;
    }

    /// Closes the innermost block scope: discards its locals, last
    /// declared first, and emits exactly one `Pop` for each of them.
    fn end_scope(&mut self)
        requires
            old(self).wf(),
            old(self).scope_depth >= 1,
        ensures
            final(self).wf(),
            final(self).scope_depth == old(self).scope_depth - 1,
            locals_model(final(self).locals@) == locals_model(old(self).locals@).subrange(
                0,
                retained(old(self).locals@, old(self).scope_depth),
            ),
            final(self).chunk@.code.len() == old(self).chunk@.code.len() + (
            old(self).locals@.len() - retained(old(self).locals@, old(self).scope_depth)),
            forall|i: int|
                0 <= i < old(self).chunk@.code.len() ==> (#[trigger] final(self).chunk@.code[i])
                    == old(self).chunk@.code[i],
            forall|i: int|
                old(self).chunk@.code.len() <= i < final(self).chunk@.code.len() ==> (
                #[trigger] final(self).chunk@.code[i]) == OpCode::Pop,
            final(self).chunk@.constants == old(self).chunk@.constants,
            final(self).scanner == old(self).scanner,
            final(self).current == old(self).current,
            final(self).previous == old(self).previous,
            final(self).had_error == old(self).had_error,
            final(self).panic_mode == old(self).panic_mode,
    {
        let d: usize = self.scope_depth;
        proof {
            lemma_retained_split(self.locals@, d);
        }
        loop
            invariant
                self.wf(),
                self.scope_depth == d,
                d >= 1,
                retained(old(self).locals@, d) <= self.locals@.len() <= old(self).locals@.len(),
                self.locals@ == old(self).locals@.subrange(0, self.locals@.len() as int),
                retained(self.locals@, d) == retained(old(self).locals@, d),
                self.chunk@.code.len() == old(self).chunk@.code.len() + (
                old(self).locals@.len() - self.locals@.len()),
                forall|i: int|
                    0 <= i < old(self).chunk@.code.len() ==> (#[trigger] self.chunk@.code[i])
                        == old(self).chunk@.code[i],
                forall|i: int|
                    old(self).chunk@.code.len() <= i < self.chunk@.code.len() ==> (
                    #[trigger] self.chunk@.code[i]) == OpCode::Pop,
                self.chunk@.constants == old(self).chunk@.constants,
                self.scanner == old(self).scanner,
                self.current == old(self).current,
                self.previous == old(self).previous,
                self.had_error == old(self).had_error,
                self.panic_mode == old(self).panic_mode,
            ensures
                self.locals@.len() == 0 || self.locals@[self.locals@.len() - 1].depth != d,
            decreases self.locals@.len(),
        {
            let n: usize = self.locals.len();
            if n == 0 {
                break ;
            }
            if self.locals[n - 1].depth != d {
                break ;
            }
            let ghost ls = self.locals@;
            self.emit_op(OpCode::Pop);
            let _gone: Option<Local> = self.locals.pop();
            proof {
                assert(self.locals@ =~= ls.drop_last());
                assert(self.locals@ =~= old(self).locals@.subrange(
                    0,
                    self.locals@.len() as int,
                ));
                assert(retained(ls, d) == retained(ls.drop_last(), d));
                lemma_retained_le(self.locals@, d);
                assert forall|i: int| 0 <= i < self.locals@.len() implies 1 <= (
                #[trigger] self.locals@[i]).depth <= self.scope_depth by {
                    assert(self.locals@[i] == ls[i]);
                }
                assert forall|i: int, j: int| 0 <= i <= j < self.locals@.len() implies (
                #[trigger] self.locals@[i]).depth <= (#[trigger] self.locals@[j]).depth by {
                    assert(self.locals@[i] == ls[i]);
                    assert(self.locals@[j] == ls[j]);
                }
            }
        }
        proof {
            lemma_retained_split(self.locals@, d);
            assert(self.locals@.len() == retained(old(self).locals@, d)) by {
                if self.locals@.len() > retained(self.locals@, d) {
                    assert(self.locals@[self.locals@.len() - 1].depth == d);
                }
            }
            assert(locals_model(self.locals@) =~= locals_model(old(self).locals@).subrange(
                0,
                retained(old(self).locals@, d),
            ));
        }
        self.scope_depth = d - 1;
        proof {
            assert forall|i: int| 0 <= i < self.locals@.len() implies 1 <= (
            #[trigger] self.locals@[i]).depth <= self.scope_depth by {
                assert(self.locals@[i].depth < d);
            }
        }
    }

    /// Appends a local for the innermost scope; its slot is its position.
    fn add_local(&mut self, name: Vec<u8>)
        requires
            old(self).wf(),
            old(self).scope_depth >= 1,
            old(self).locals@.len() < 256,
        ensures
            final(self).wf(),
            locals_model(final(self).locals@) == locals_model(old(self).locals@).push(
                (name@, old(self).scope_depth),
            ),
            final(self).scanner == old(self).scanner,
            final(self).current == old(self).current,
            final(self).previous == old(self).previous,
            final(self).chunk == old(self).chunk,
            final(self).scope_depth == old(self).scope_depth,
            final(self).had_error == old(self).had_error,
            final(self).panic_mode == old(self).panic_mode,
    {
        let depth: usize = self.scope_depth;
        self.locals.push(Local { name, depth });
        proof {
            assert(locals_model(self.locals@) =~= locals_model(old(self).locals@).push(
                (self.locals@.last().name@, depth),
            ));
        }
    }

    /// Whether a local with this name is already declared in the
    /// innermost scope.
    fn has_local_in_scope(&self, name: &Vec<u8>) -> (r: bool)
        requires
            self.wf(),
        ensures
            r == exists|j: int|
                0 <= j < self.locals@.len() && (#[trigger] self.locals@[j]).depth
                    == self.scope_depth && self.locals@[j].name@ == name@,
    {
        let n: usize = self.locals.len();
        let mut i: usize = n;
        while i > 0
            invariant
                n == self.locals@.len(),
                i <= n,
                self.wf(),
                forall|j: int|
                    i <= j < n ==> !((#[trigger] self.locals@[j]).depth == self.scope_depth
                        && self.locals@[j].name@ == name@),
            decreases i,
        {
            if self.locals[i - 1].depth != self.scope_depth {
                proof {
                    assert forall|j: int|
                        0 <= j < i implies !((#[trigger] self.locals@[j]).depth
                        == self.scope_depth && self.locals@[j].name@ == name@) by {
                        assert(self.locals@[j].depth <= self.locals@[i - 1].depth);
                        assert(self.locals@[i - 1].depth <= self.scope_depth);
                    }
                }
                return false;
            }
            if crate::value::bytes_eq(&self.locals[i - 1].name, name) {
                return true;
            }
            i = i - 1;
        }
        false
    }

    /// Resolves a name against the open scopes' locals, innermost
    /// declaration first; the slot is the local's position.
    fn resolve_local(&self, name: &Vec<u8>) -> (r: Option<u8>)
        requires
            self.wf(),
        ensures
            match r {
                Some(slot) => {
                    &&& (slot as int) < self.locals@.len()
                    &&& self.locals@[slot as int].name@ == name@
                    &&& forall|j: int|
                        (slot as int) < j < self.locals@.len() ==> (
                        #[trigger] self.locals@[j]).name@ != name@
                },
                None => forall|j: int|
                    0 <= j < self.locals@.len() ==> (#[trigger] self.locals@[j]).name@ != name@,
            },
    {
        let n: usize = self.locals.len();
        let mut i: usize = n;
        while i > 0
            invariant
                n == self.locals@.len(),
                i <= n,
                self.wf(),
                forall|j: int| i <= j < n ==> (#[trigger] self.locals@[j]).name@ != name@,
            decreases i,
        {
            if crate::value::bytes_eq(&self.locals[i - 1].name, name) {
                return Some((i - 1) as u8);
            }
            i = i - 1;
        }
        None
    }

    /// Parses an expression: anything binding at least as tightly as
    /// assignment.
    fn expression(&mut self)
        requires
            old(self).wf(),
        ensures
            final(self).wf(),
            parse_frame_locals(*old(self), *final(self)),
            rule_spec(old(self).current@.token_type).prefix is None ==> final(self).had_error
                && final(self).chunk@.code == old(self).chunk@.code && final(self).chunk@.constants
                == old(self).chunk@.constants,
            !final(self).had_error ==> final(self).chunk@.code.len() > old(self).chunk@.code.len(),
            ({
                let src = old(self).scanner.source@;
                let nxt = scan_spec(
                    src,
                    old(self).scanner.current as int,
                    old(self).scanner.line as int,
                );
                let cur = old(self).current@;
                number_literal_ok(cur, old(self).chunk@.constants.len() as int) && nxt.token_type
                    != TokenType::Error && prec_level(rule_spec(nxt.token_type).precedence) < 1
                    && nxt.token_type != TokenType::Equal ==> {
                    &&& final(self).chunk@.code == old(self).chunk@.code.push(
                        OpCode::Constant(old(self).chunk@.constants.len() as u8),
                    )
                    &&& final(self).chunk@.constants == old(self).chunk@.constants.push(
                        crate::value::ValueM::Number(digits_val(cur.lexeme) as i64),
                    )
                    &&& final(self).had_error == old(self).had_error
                    &&& final(self).panic_mode == old(self).panic_mode
                    &&& final(self).diagnostics == old(self).diagnostics
                    &&& final(self).current@.token_type == nxt.token_type
                    &&& final(self).current@.lexeme == crate::scanner::lexeme_of(src, nxt)
                    &&& final(self).current@.line as int == nxt.token_line
                    &&& final(self).scanner.current as int == nxt.end
                    &&& final(self).scanner.line as int == nxt.line
                }
            }),
            old(self).current@.token_type != TokenType::Eof ==> final(self).measure() < old(
                self,
            ).measure(),
        decreases old(self).measure(), 1int,
    {
        self.parse_precedence(Precedence::Assignment);
    }

    /// The precedence-climbing core: consume one token and run its prefix
    /// rule, then fold infix operators while the lookahead token binds at
    /// least as tightly as `prec`.  A token without a prefix rule in
    /// prefix position records the "expect expression" diagnostic.
    fn parse_precedence(&mut self, prec: Precedence)
        requires
            old(self).wf(),
            prec_level(prec) >= 1,
        ensures
            final(self).wf(),
            parse_frame_locals(*old(self), *final(self)),
            rule_spec(old(self).current@.token_type).prefix is None ==> final(self).had_error
                && final(self).chunk@.code == old(self).chunk@.code && final(self).chunk@.constants
                == old(self).chunk@.constants,
            !final(self).had_error ==> final(self).chunk@.code.len() > old(self).chunk@.code.len(),
            ({
                let src = old(self).scanner.source@;
                let nxt = scan_spec(
                    src,
                    old(self).scanner.current as int,
                    old(self).scanner.line as int,
                );
                let cur = old(self).current@;
                number_literal_ok(cur, old(self).chunk@.constants.len() as int) && nxt.token_type
                    != TokenType::Error && prec_level(rule_spec(nxt.token_type).precedence)
                    < prec_level(prec) && nxt.token_type != TokenType::Equal ==> {
                    &&& final(self).chunk@.code == old(self).chunk@.code.push(
                        OpCode::Constant(old(self).chunk@.constants.len() as u8),
                    )
                    &&& final(self).chunk@.constants == old(self).chunk@.constants.push(
                        crate::value::ValueM::Number(digits_val(cur.lexeme) as i64),
                    )
                    &&& final(self).had_error == old(self).had_error
                    &&& final(self).panic_mode == old(self).panic_mode
                    &&& final(self).diagnostics == old(self).diagnostics
                    &&& final(self).current@.token_type == nxt.token_type
                    &&& final(self).current@.lexeme == crate::scanner::lexeme_of(src, nxt)
                    &&& final(self).current@.line as int == nxt.token_line
                    &&& final(self).scanner.current as int == nxt.end
                    &&& final(self).scanner.line as int == nxt.line
                }
            }),
            old(self).current@.token_type != TokenType::Eof ==> final(self).measure() < old(
                self,
            ).measure(),
        decreases old(self).measure(), 0int,
    {
        let ghost src0 = self.scanner.source@;
        let ghost nxt0 = scan_spec(src0, self.scanner.current as int, self.scanner.line as int);
        let ghost cur0 = self.current@;
        let ghost happy = number_literal_ok(cur0, self.chunk@.constants.len() as int)
            && nxt0.token_type != TokenType::Error && prec_level(rule_spec(nxt0.token_type).precedence)
            < prec_level(prec) && nxt0.token_type != TokenType::Equal;
        let ghost pool0 = self.chunk@.constants.len() as int;
        let can_assign: bool = prec.level() <= 1;
        self.advance();
        let rule: ParseRule = get_rule(self.previous.token_type);
        match rule.prefix {
            None => {
                let line: usize = self.previous.line;
                self.report(DiagKind::ExpectedExpression, line);
                return ;
            },
            Some(pf) => {
                proof {
                    assert(self.previous@.token_type != TokenType::Eof);
                }
                match pf {
                    PrefixFn::Grouping => self.grouping(),
                    PrefixFn::Unary => self.unary(),
                    PrefixFn::Variable => self.variable(can_assign),
                    PrefixFn::StringLit => self.string_lit(),
                    PrefixFn::NumberLit => self.number_lit(),
                    PrefixFn::Literal => self.literal(),
                }
            },
        }
        while prec.level() <= get_rule(self.current.token_type).precedence.level()
            invariant
                self.wf(),
                prec_level(prec) >= 1,
                parse_frame_locals(*old(self), *self),
                self.had_error || self.chunk@.code.len() > old(self).chunk@.code.len(),
                happy == (number_literal_ok(cur0, pool0) && nxt0.token_type != TokenType::Error
                    && prec_level(rule_spec(nxt0.token_type).precedence) < prec_level(prec)
                    && nxt0.token_type != TokenType::Equal),
                happy ==> {
                    &&& self.chunk@.code == old(self).chunk@.code.push(
                        OpCode::Constant(pool0 as u8),
                    )
                    &&& self.chunk@.constants == old(self).chunk@.constants.push(
                        crate::value::ValueM::Number(digits_val(cur0.lexeme) as i64),
                    )
                    &&& self.had_error == old(self).had_error
                    &&& self.panic_mode == old(self).panic_mode
                    &&& self.diagnostics == old(self).diagnostics
                    &&& self.current@.token_type == nxt0.token_type
                    &&& self.current@.lexeme == crate::scanner::lexeme_of(src0, nxt0)
                    &&& self.current@.line as int == nxt0.token_line
                    &&& self.scanner.current as int == nxt0.end
                    &&& self.scanner.line as int == nxt0.line
                },
                src0 == old(self).scanner.source@,
                nxt0 == scan_spec(
                    src0,
                    old(self).scanner.current as int,
                    old(self).scanner.line as int,
                ),
                cur0 == old(self).current@,
                pool0 == old(self).chunk@.constants.len() as int,
                self.measure() < old(self).measure(),
            decreases self.measure(),
        {
            self.advance();
            let infix: Option<InfixFn> = get_rule(self.previous.token_type).infix;
            match infix {
                Some(InfixFn::Binary) => self.binary(),
                Some(InfixFn::AndOp) => self.and_op(),
                Some(InfixFn::OrOp) => self.or_op(),
                None => {},
            }
        }
        if can_assign && self.check(TokenType::Equal) {
            self.advance();
            let line: usize = self.previous.line;
            self.report(DiagKind::InvalidAssignmentTarget, line);
        }
    }

    /// A parenthesised expression: the inner expression's code, nothing
    /// else.
    fn grouping(&mut self)
        requires
            old(self).wf(),
        ensures
            final(self).wf(),
            parse_frame_locals(*old(self), *final(self)),
            !final(self).had_error ==> final(self).chunk@.code.len() > old(self).chunk@.code.len(),
        decreases old(self).measure(), 2int,
    {
        self.expression();
        self.consume(TokenType::RightParen, DiagKind::ExpectedRightParen);
    }

    /// A unary operator: the operand's code, then `Negate` or `Not` as its
    /// last instruction.
    fn unary(&mut self)
        requires
            old(self).wf(),
        ensures
            final(self).wf(),
            parse_frame_locals(*old(self), *final(self)),
            old(self).previous@.token_type == TokenType::Minus ==> final(self).chunk@.code.len()
                > old(self).chunk@.code.len() && final(self).chunk@.code.last() == OpCode::Negate,
            old(self).previous@.token_type == TokenType::Bang ==> final(self).chunk@.code.len()
                > old(self).chunk@.code.len() && final(self).chunk@.code.last() == OpCode::Not,
            (old(self).previous@.token_type == TokenType::Minus
                || old(self).previous@.token_type == TokenType::Bang) && !final(self).had_error
                ==> final(self).chunk@.code.len() >= old(self).chunk@.code.len() + 2,
        decreases old(self).measure(), 2int,
    {
        let op_type: TokenType = self.previous.token_type;
        self.parse_precedence(Precedence::Unary);
        if op_type == TokenType::Minus {
            self.emit_op(OpCode::Negate);
        } else if op_type == TokenType::Bang {
            self.emit_op(OpCode::Not);
        }
    }

    /// A binary operator: the right operand's code at one level tighter,
    /// then the operator's instructions as the last ones emitted; the
    /// compound comparisons compile to their complement followed by `Not`.
    fn binary(&mut self)
        requires
            old(self).wf(),
        ensures
            final(self).wf(),
            parse_frame_locals(*old(self), *final(self)),
            ({
                let op = old(self).previous@.token_type;
                let n0 = old(self).chunk@.code.len();
                let code = final(self).chunk@.code;
                &&& (op == TokenType::Plus ==> code.len() > n0 && code.last() == OpCode::Add)
                &&& (op == TokenType::Minus ==> code.len() > n0 && code.last() == OpCode::Subtract)
                &&& (op == TokenType::Star ==> code.len() > n0 && code.last() == OpCode::Multiply)
                &&& (op == TokenType::Slash ==> code.len() > n0 && code.last() == OpCode::Divide)
                &&& (op == TokenType::EqualEqual ==> code.len() > n0 && code.last()
                    == OpCode::Equal)
                &&& (op == TokenType::Greater ==> code.len() > n0 && code.last()
                    == OpCode::Greater)
                &&& (op == TokenType::Less ==> code.len() > n0 && code.last() == OpCode::Less)
                &&& (op == TokenType::BangEqual ==> code.len() >= n0 + 2 && code[code.len() - 2]
                    == OpCode::Equal && code.last() == OpCode::Not)
                &&& (op == TokenType::GreaterEqual ==> code.len() >= n0 + 2 && code[code.len()
                    - 2] == OpCode::Less && code.last() == OpCode::Not)
                &&& (op == TokenType::LessEqual ==> code.len() >= n0 + 2 && code[code.len() - 2]
                    == OpCode::Greater && code.last() == OpCode::Not)
                &&& (rule_spec(op).infix == Some(InfixFn::Binary) && !final(self).had_error
                    ==> code.len() >= n0 + 2)
            }),
        decreases old(self).measure(), 2int,
    {
        let op_type: TokenType = self.previous.token_type;
        let rule: ParseRule = get_rule(op_type);
        match rule.precedence.next() {
            Some(next) => self.parse_precedence(next),
            None => self.parse_precedence(Precedence::Primary),
        }
        if op_type == TokenType::Plus {
            self.emit_op(OpCode::Add);
        } else if op_type == TokenType::Minus {
            self.emit_op(OpCode::Subtract);
        } else if op_type == TokenType::Star {
            self.emit_op(OpCode::Multiply);
        } else if op_type == TokenType::Slash {
            self.emit_op(OpCode::Divide);
        } else if op_type == TokenType::EqualEqual {
            self.emit_op(OpCode::Equal);
        } else if op_type == TokenType::BangEqual {
            self.emit_op(OpCode::Equal);
            self.emit_op(OpCode::Not);
        } else if op_type == TokenType::Greater {
            self.emit_op(OpCode::Greater);
        } else if op_type == TokenType::GreaterEqual {
            self.emit_op(OpCode::Less);
            self.emit_op(OpCode::Not);
        } else if op_type == TokenType::Less {
            self.emit_op(OpCode::Less);
        } else if op_type == TokenType::LessEqual {
            self.emit_op(OpCode::Greater);
            self.emit_op(OpCode::Not);
        }
    }

    /// Short-circuit `and`: a conditional jump over the right operand's
    /// code lands on a `False` result; a truthy left operand falls through
    /// to the right operand, whose value then jumps past the `False`.
    fn and_op(&mut self)
        requires
            old(self).wf(),
        ensures
            final(self).wf(),
            parse_frame_locals(*old(self), *final(self)),
            ({
                let n0 = old(self).chunk@.code.len() as int;
                let code = final(self).chunk@.code;
                let n1 = code.len() as int;
                &&& n1 >= n0 + 3
                &&& code[n0] == OpCode::JumpIfFalse((n1 - n0 - 2) as usize)
                &&& code[n1 - 2] == OpCode::Jump(1)
                &&& code[n1 - 1] == OpCode::False
                &&& (!final(self).had_error ==> n1 >= n0 + 4)
            }),
        decreases old(self).measure(), 2int,
    {
        let short_jump: usize = self.emit_jump(true);
        self.parse_precedence(Precedence::And);
        let end_jump: usize = self.emit_jump(false);
        proof {
            assert(self.chunk@.code[short_jump as int] is JumpIfFalse);
        }
        self.patch_jump(short_jump);
        self.emit_op(OpCode::False);
        proof {
            assert(self.chunk@.code[end_jump as int] is Jump);
        }
        self.patch_jump(end_jump);
    }

    /// Short-circuit `or`: a falsy left operand takes the conditional jump
    /// over a `True` result into the right operand's code; a truthy one
    /// falls through to `True` and jumps past the right operand.
    fn or_op(&mut self)
        requires
            old(self).wf(),
        ensures
            final(self).wf(),
            parse_frame_locals(*old(self), *final(self)),
            ({
                let n0 = old(self).chunk@.code.len() as int;
                let code = final(self).chunk@.code;
                let n1 = code.len() as int;
                &&& n1 >= n0 + 3
                &&& code[n0] == OpCode::JumpIfFalse(2)
                &&& code[n0 + 1] == OpCode::True
                &&& code[n0 + 2] == OpCode::Jump((n1 - n0 - 3) as usize)
                &&& (!final(self).had_error ==> n1 >= n0 + 4)
            }),
        decreases old(self).measure(), 2int,
    {
        let rhs_jump: usize = self.emit_jump(true);
        self.emit_op(OpCode::True);
        let end_jump: usize = self.emit_jump(false);
        proof {
            assert(self.chunk@.code[rhs_jump as int] is JumpIfFalse);
        }
        self.patch_jump(rhs_jump);
        self.parse_precedence(Precedence::Or);
        proof {
            assert(self.chunk@.code[end_jump as int] is Jump);
        }
        self.patch_jump(end_jump);
    }

    /// A numeric literal: parsed as a decimal integer into the constant
    /// pool and loaded from there; a malformed literal (a decimal point,
    /// or a value too large) is a diagnostic here, not in the lexer.
    fn number_lit(&mut self)
        requires
            old(self).wf(),
        ensures
            final(self).wf(),
            parse_frame_locals(*old(self), *final(self)),
            ({
                let lex = old(self).previous@.lexeme;
                let ok = all_digits(lex) && lex.len() > 0 && digits_val(lex) <= i64::MAX as int;
                &&& (ok && old(self).chunk@.constants.len() < 256 ==> {
                    &&& final(self).chunk@.constants == old(self).chunk@.constants.push(
                        crate::value::ValueM::Number(digits_val(lex) as i64),
                    )
                    &&& final(self).chunk@.code == old(self).chunk@.code.push(
                        OpCode::Constant(old(self).chunk@.constants.len() as u8),
                    )
                    &&& final(self).had_error == old(self).had_error
                    &&& final(self).diagnostics == old(self).diagnostics
                    &&& final(self).panic_mode == old(self).panic_mode
                })
                &&& (!ok ==> final(self).chunk@.code == old(self).chunk@.code
                    && final(self).chunk@.constants == old(self).chunk@.constants
                    && final(self).had_error)
                &&& (ok && old(self).chunk@.constants.len() >= 256 ==> final(self).chunk@.code
                    == old(self).chunk@.code && final(self).had_error)
            }),
            final(self).scanner == old(self).scanner,
            final(self).current == old(self).current,
            final(self).previous == old(self).previous,
        decreases old(self).measure(), 2int,
    {
        let parsed: Option<i64> = parse_int(&self.previous.lexeme);
        match parsed {
            Some(v) => {
                proof {
                    let lex = old(self).previous@.lexeme;
                    assert(v as int == digits_val(lex));
                    assert(Value::Number(v)@ == crate::value::ValueM::Number(
                        digits_val(lex) as i64,
                    ));
                }
                let k: Option<u8> = self.make_constant(Value::Number(v));
                proof {
                    let lex = old(self).previous@.lexeme;
                    if k is Some {
                        assert(self.chunk@.constants =~= old(self).chunk@.constants.push(
                            crate::value::ValueM::Number(digits_val(lex) as i64),
                        ));
                    }
                }
                match k {
                    Some(k) => self.emit_op(OpCode::Constant(k)),
                    None => {},
                }
            },
            None => {
                let line: usize = self.previous.line;
                self.report(DiagKind::InvalidNumber, line);
            },
        }
    }

    /// A string literal: its lexeme without the surrounding quotes goes
    /// into the constant pool and is loaded from there.
    fn string_lit(&mut self)
        requires
            old(self).wf(),
        ensures
            final(self).wf(),
            parse_frame_locals(*old(self), *final(self)),
            ({
                let lex = old(self).previous@.lexeme;
                let content = if lex.len() >= 2 {
                    lex.subrange(1, lex.len() - 1)
                } else {
                    Seq::<u8>::empty()
                };
                &&& (old(self).chunk@.constants.len() < 256 ==> {
                    &&& final(self).chunk@.constants == old(self).chunk@.constants.push(
                        crate::value::ValueM::Str(content),
                    )
                    &&& final(self).chunk@.code == old(self).chunk@.code.push(
                        OpCode::Constant(old(self).chunk@.constants.len() as u8),
                    )
                    &&& final(self).had_error == old(self).had_error
                })
                &&& (old(self).chunk@.constants.len() >= 256 ==> final(self).chunk@.code == old(
                    self,
                ).chunk@.code && final(self).had_error)
            }),
        decreases old(self).measure(), 2int,
    {
        let lex_len: usize = self.previous.lexeme.len();
        let content: Vec<u8> = if lex_len >= 2 {
            crate::value::copy_byte_range(&self.previous.lexeme, 1, lex_len - 1)
        } else {
            Vec::new()
        };
        proof {
            let lex = old(self).previous@.lexeme;
            if lex.len() >= 2 {
                assert(content@ == lex.subrange(1, lex.len() - 1));
            } else {
                assert(content@ =~= Seq::<u8>::empty());
            }
        }
        let ghost content_m = content@;
        let k: Option<u8> = self.make_constant(Value::Str(content));
        proof {
            if k is Some {
                assert(self.chunk@.constants =~= old(self).chunk@.constants.push(
                    crate::value::ValueM::Str(content_m),
                ));
            }
        }
        match k {
            Some(k) => self.emit_op(OpCode::Constant(k)),
            None => {},
        }
    }

    /// `true`, `false` or `nil`: emits exactly the matching literal load.
    fn literal(&mut self)
        requires
            old(self).wf(),
        ensures
            final(self).wf(),
            parse_frame_locals(*old(self), *final(self)),
            old(self).previous@.token_type == TokenType::True ==> final(self).chunk@.code == old(
                self,
            ).chunk@.code.push(OpCode::True),
            old(self).previous@.token_type == TokenType::False ==> final(self).chunk@.code == old(
                self,
            ).chunk@.code.push(OpCode::False),
            old(self).previous@.token_type == TokenType::Nil ==> final(self).chunk@.code == old(
                self,
            ).chunk@.code.push(OpCode::Nil),
            final(self).chunk@.constants == old(self).chunk@.constants,
            final(self).had_error == old(self).had_error,
        decreases old(self).measure(), 2int,
    {
        if self.previous.token_type == TokenType::True {
            self.emit_op(OpCode::True);
        } else if self.previous.token_type == TokenType::False {
            self.emit_op(OpCode::False);
        } else if self.previous.token_type == TokenType::Nil {
            self.emit_op(OpCode::Nil);
        }
    }

    /// A variable reference or, at assignment precedence, an assignment:
    /// the name resolves to the innermost local declaring it, compiling to
    /// its stack slot, else to a global keyed by a constant-pool string.
    /// A reference emits exactly one load; an assignment compiles the
    /// right-hand side and ends in the matching store.
    fn variable(&mut self, can_assign: bool)
        requires
            old(self).wf(),
        ensures
            final(self).wf(),
            parse_frame_locals(*old(self), *final(self)),
            !final(self).had_error ==> final(self).chunk@.code.len() > old(self).chunk@.code.len(),
            ({
                let name = old(self).previous@.lexeme;
                let assigning = can_assign && old(self).current@.token_type == TokenType::Equal;
                let code = final(self).chunk@.code;
                match resolve_spec(old(self).locals@, name) {
                    Some(slot) => {
                        &&& (!assigning ==> code == old(self).chunk@.code.push(
                            OpCode::GetLocal(slot as u8),
                        ))
                        &&& (assigning ==> code.len() > old(self).chunk@.code.len() && code.last()
                            == OpCode::SetLocal(slot as u8))
                        &&& (assigning && !final(self).had_error
                            ==> code.len() >= old(self).chunk@.code.len() + 2)
                    },
                    None => old(self).chunk@.constants.len() < 256 ==> {
                        let k = old(self).chunk@.constants.len() as u8;
                        &&& final(self).chunk@.constants[k as int] == crate::value::ValueM::Str(
                            name,
                        )
                        &&& (!assigning ==> code == old(self).chunk@.code.push(
                            OpCode::GetGlobal(k),
                        ))
                        &&& (assigning ==> code.len() > old(self).chunk@.code.len() && code.last()
                            == OpCode::SetGlobal(k))
                        &&& (assigning && !final(self).had_error
                            ==> code.len() >= old(self).chunk@.code.len() + 2)
                    },
                }
            }),
        decreases old(self).measure(), 2int,
    {
        let name: Vec<u8> = crate::value::copy_bytes(&self.previous.lexeme);
        let slot: Option<u8> = self.resolve_local(&name);
        proof {
            match slot {
                Some(i) => lemma_resolve_at(self.locals@, name@, i as int),
                None => lemma_resolve_none(self.locals@, name@),
            }
        }
        match slot {
            Some(slot) => {
                if can_assign && self.check(TokenType::Equal) {
                    self.advance();
                    self.expression();
                    self.emit_op(OpCode::SetLocal(slot));
                } else {
                    self.emit_op(OpCode::GetLocal(slot));
                }
            },
            None => {
                let k: Option<u8> = self.make_constant(Value::Str(name));
                match k {
                    Some(k) => {
                        let ghost cs = self.chunk@.constants;
                        if can_assign && self.check(TokenType::Equal) {
                            self.advance();
                            self.expression();
                            proof {
                                assert(self.chunk@.constants[k as int] == cs[k as int]);
                            }
                            self.emit_op(OpCode::SetGlobal(k));
                        } else {
                            self.emit_op(OpCode::GetGlobal(k));
                        }
                    },
                    None => {},
                }
            },
        }
    }

    /// Skips tokens to the next statement boundary, leaving panic mode:
    /// past a semicolon, or before a statement-leading keyword or the end
    /// of input.
    fn synchronize(&mut self)
        requires
            old(self).wf(),
        ensures
            final(self).wf(),
            parse_frame_locals(*old(self), *final(self)),
            !final(self).panic_mode,
    {
        while !self.check(TokenType::Eof)
            invariant
                self.wf(),
                parse_frame_locals(*old(self), *self),
            decreases self.measure(),
        {
            if self.previous.token_type == TokenType::Semicolon {
                break ;
            }
            let tt: TokenType = self.current.token_type;
            if tt == TokenType::Class || tt == TokenType::Fun || tt == TokenType::Var || tt
                == TokenType::For || tt == TokenType::If || tt == TokenType::While || tt
                == TokenType::Print || tt == TokenType::Return {
                break ;
            }
            self.advance();
        }
        self.panic_mode = false;
    }

    /// A print statement: the value's code, a semicolon, then `Print` as
    /// the last instruction emitted.  Printing a single number literal
    /// compiles to exactly its constant load and `Print`.
    fn print_statement(&mut self)
        requires
            old(self).wf(),
        ensures
            final(self).wf(),
            parse_frame_locals(*old(self), *final(self)),
            final(self).chunk@.code.len() > old(self).chunk@.code.len(),
            final(self).chunk@.code.last() == OpCode::Print,
            !final(self).had_error
                ==> final(self).chunk@.code.len() >= old(self).chunk@.code.len() + 2,
            ({
                let src = old(self).scanner.source@;
                let cur = old(self).current@;
                let r2 = scan_spec(
                    src,
                    old(self).scanner.current as int,
                    old(self).scanner.line as int,
                );
                let r3 = scan_spec(src, r2.end, r2.line);
                number_literal_ok(cur, old(self).chunk@.constants.len() as int) && r2.token_type
                    == TokenType::Semicolon && r3.token_type != TokenType::Error ==> {
                    &&& final(self).chunk@.code == old(self).chunk@.code.push(
                        OpCode::Constant(old(self).chunk@.constants.len() as u8),
                    ).push(OpCode::Print)
                    &&& final(self).chunk@.constants == old(self).chunk@.constants.push(
                        crate::value::ValueM::Number(digits_val(cur.lexeme) as i64),
                    )
                    &&& final(self).had_error == old(self).had_error
                    &&& final(self).panic_mode == old(self).panic_mode
                    &&& final(self).diagnostics == old(self).diagnostics
                    &&& final(self).current@.token_type == r3.token_type
                    &&& final(self).scanner.current as int == r3.end
                    &&& final(self).scanner.line as int == r3.line
                }
            }),
        decreases old(self).measure(), 2int,
    {
        self.expression();
        self.consume(TokenType::Semicolon, DiagKind::ExpectedSemicolon);
        self.emit_op(OpCode::Print);
    }

    /// An expression statement: the expression's code, a semicolon, then
    /// `Pop` as the last instruction emitted, discarding the result.
    fn expression_statement(&mut self)
        requires
            old(self).wf(),
        ensures
            final(self).wf(),
            parse_frame_locals(*old(self), *final(self)),
            rule_spec(old(self).current@.token_type).prefix is None ==> final(self).had_error,
            final(self).chunk@.code.len() > old(self).chunk@.code.len(),
            final(self).chunk@.code.last() == OpCode::Pop,
            !final(self).had_error
                ==> final(self).chunk@.code.len() >= old(self).chunk@.code.len() + 2,
            old(self).current@.token_type != TokenType::Eof ==> final(self).measure() < old(
                self,
            ).measure(),
        decreases old(self).measure(), 2int,
    {
        self.expression();
        self.consume(TokenType::Semicolon, DiagKind::ExpectedSemicolon);
        self.emit_op(OpCode::Pop);
    }

    /// A variable declaration.  The initializer (or `Nil`) is compiled
    /// first.  At scope depth zero the name becomes a constant-pool string
    /// and `DefineGlobal` ends the emitted code; inside a scope the name
    /// joins the locals — unless the innermost scope already declares it,
    /// which is exactly when a diagnostic is recorded instead.  The
    /// initialized value stays on the operand stack as the local's slot.
    #[verifier::rlimit(60)]
    fn var_declaration(&mut self)
        requires
            old(self).wf(),
        ensures
            final(self).wf(),
            parse_frame(*old(self), *final(self)),
            ({
                let name = old(self).current@.lexeme;
                let named = old(self).current@.token_type == TokenType::Identifier;
                &&& (named && old(self).scope_depth == 0 ==> final(self).had_error || exists|
                    k: u8,
                |
                    #![trigger final(self).chunk@.constants[k as int]]
                    {
                        &&& final(self).chunk@.code.len() > old(self).chunk@.code.len()
                        &&& final(self).chunk@.code.last() == OpCode::DefineGlobal(k)
                        &&& (k as int) < final(self).chunk@.constants.len()
                        &&& final(self).chunk@.constants[k as int] == crate::value::ValueM::Str(
                            name,
                        )
                    })
                &&& (!final(self).had_error
                    ==> final(self).chunk@.code.len() > old(self).chunk@.code.len())
                &&& (named && old(self).scope_depth == 0 && !final(self).had_error
                    ==> final(self).chunk@.code.len() >= old(self).chunk@.code.len() + 2)
                &&& (named && old(self).scope_depth > 0 ==> {
                    let dup = exists|j: int|
                        0 <= j < old(self).locals@.len() && (#[trigger] old(
                            self,
                        ).locals@[j]).depth == old(self).scope_depth && old(
                            self,
                        ).locals@[j].name@ == name;
                    &&& (dup ==> final(self).had_error && locals_model(final(self).locals@)
                        == locals_model(old(self).locals@))
                    &&& (!dup && old(self).locals@.len() < 256 ==> locals_model(
                        final(self).locals@,
                    ) == locals_model(old(self).locals@).push((name, old(self).scope_depth)))
                })
            }),
            locals_model(final(self).locals@).len() >= locals_model(old(self).locals@).len(),
            forall|i: int|
                0 <= i < locals_model(old(self).locals@).len() ==> (#[trigger] locals_model(
                    final(self).locals@,
                )[i]) == locals_model(old(self).locals@)[i],
            forall|i: int|
                locals_model(old(self).locals@).len() <= i < locals_model(
                    final(self).locals@,
                ).len() ==> (#[trigger] locals_model(final(self).locals@)[i]).1 == old(
                    self,
                ).scope_depth,
        decreases old(self).measure(), 2int,
    {
        self.consume(TokenType::Identifier, DiagKind::ExpectedVariableName);
        let name: Vec<u8> = crate::value::copy_bytes(&self.previous.lexeme);
        if self.match_token(TokenType::Equal) {
            self.expression();
        } else {
            self.emit_op(OpCode::Nil);
        }
        self.consume(TokenType::Semicolon, DiagKind::ExpectedSemicolon);
        let ghost nm = name@;
        proof {
            assert(locals_model(self.locals@).len() == self.locals@.len());
            assert(locals_model(old(self).locals@).len() == old(self).locals@.len());
            assert forall|j: int|
                0 <= j < self.locals@.len() implies (#[trigger] self.locals@[j]).depth == old(
                self,
            ).locals@[j].depth && self.locals@[j].name@ == old(self).locals@[j].name@ by {
                assert(locals_model(self.locals@)[j] == locals_model(old(self).locals@)[j]);
                assert(locals_model(old(self).locals@)[j] == (
                    old(self).locals@[j].name@,
                    old(self).locals@[j].depth,
                ));
            }
        }
        if self.scope_depth > 0 {
            let duplicate: bool = self.has_local_in_scope(&name);
            proof {
                let ls_old = old(self).locals@;
                let ls_now = self.locals@;
                let d = old(self).scope_depth;
                let dup_old = exists|j: int|
                    0 <= j < ls_old.len() && (#[trigger] ls_old[j]).depth == d
                        && ls_old[j].name@ == nm;
                if duplicate {
                    let j = choose|j: int|
                        0 <= j < ls_now.len() && (#[trigger] ls_now[j]).depth == self.scope_depth
                            && ls_now[j].name@ == name@;
                    assert(ls_old[j].depth == d && ls_old[j].name@ == nm);
                    assert(dup_old);
                }
                if dup_old {
                    let j = choose|j: int|
                        0 <= j < ls_old.len() && (#[trigger] ls_old[j]).depth == d
                            && ls_old[j].name@ == nm;
                    assert(ls_now[j].depth == self.scope_depth && ls_now[j].name@ == name@);
                    assert(duplicate);
                }
            }
            if duplicate {
                let line: usize = self.previous.line;
                self.report(DiagKind::DuplicateLocal, line);
                return ;
            }
            if self.locals.len() >= 256 {
                let line: usize = self.previous.line;
                self.report(DiagKind::TooManyLocals, line);
                return ;
            }
            self.add_local(name);
        } else {
            let k: Option<u8> = self.make_constant(Value::Str(name));
            match k {
                Some(k) => {
                    self.emit_op(OpCode::DefineGlobal(k));
                    proof {
                        assert(self.chunk@.constants[k as int] == crate::value::ValueM::Str(nm));
                    }
                },
                None => {},
            }
        }
    }

    /// An `if` statement: condition in parentheses, `JumpIfFalse` over the
    /// then-branch landing just past its closing unconditional jump, which
    /// in turn lands past the optional else-branch; both are patched once
    /// their targets are known.
    fn if_statement(&mut self)
        requires
            old(self).wf(),
        ensures
            final(self).wf(),
            parse_frame_locals(*old(self), *final(self)),
            ({
                let n0 = old(self).chunk@.code.len() as int;
                let code = final(self).chunk@.code;
                let n1 = code.len() as int;
                exists|e: int, j: int|
                    {
                        &&& n0 <= e < j < n1
                        &&& (#[trigger] code[e]) == OpCode::JumpIfFalse((j - e) as usize)
                        &&& (#[trigger] code[j]) == OpCode::Jump((n1 - j - 1) as usize)
                    }
            }),
        decreases old(self).measure(), 5int,
    {
        self.consume(TokenType::LeftParen, DiagKind::ExpectedLeftParen);
        self.expression();
        self.consume(TokenType::RightParen, DiagKind::ExpectedRightParen);
        let then_jump: usize = self.emit_jump(true);
        self.statement();
        let else_jump: usize = self.emit_jump(false);
        proof {
            assert(self.chunk@.code[then_jump as int] is JumpIfFalse);
        }
        self.patch_jump(then_jump);
        if self.match_token(TokenType::Else) {
            self.statement();
        }
        proof {
            assert(self.chunk@.code[else_jump as int] is Jump);
        }
        self.patch_jump(else_jump);
        proof {
            assert(self.chunk@.code[then_jump as int] == OpCode::JumpIfFalse(
                (else_jump - then_jump) as usize,
            ));
            assert(self.chunk@.code[else_jump as int] == OpCode::Jump(
                (self.chunk@.code.len() - else_jump - 1) as usize,
            ));
        }
    }

    /// A `while` loop: the offset of the condition is recorded, the
    /// condition and `JumpIfFalse` exit are compiled, then the body and a
    /// backward `Loop` landing on the recorded offset; the exit jump is
    /// patched to fall just past the `Loop`.
    fn while_statement(&mut self)
        requires
            old(self).wf(),
        ensures
            final(self).wf(),
            parse_frame_locals(*old(self), *final(self)),
            final(self).had_error || ({
                let n0 = old(self).chunk@.code.len() as int;
                let code = final(self).chunk@.code;
                let n1 = code.len() as int;
                &&& n1 > n0 + 1
                &&& code[n1 - 1] == OpCode::Loop((n1 - n0) as usize)
                &&& exists|exit: int|
                    n0 <= exit < n1 - 1 && (#[trigger] code[exit]) == OpCode::JumpIfFalse(
                        (n1 - exit - 1) as usize,
                    )
            }),
        decreases old(self).measure(), 5int,
    {
        let loop_start: usize = self.chunk.code.len();
        self.consume(TokenType::LeftParen, DiagKind::ExpectedLeftParen);
        self.expression();
        self.consume(TokenType::RightParen, DiagKind::ExpectedRightParen);
        let exit_jump: usize = self.emit_jump(true);
        self.statement();
        self.emit_loop(loop_start);
        proof {
            assert(self.chunk@.code[exit_jump as int] is JumpIfFalse);
        }
        self.patch_jump(exit_jump);
    }

    /// A `for` loop, desugared to jumps: an optional initializer in its
    /// own scope, an optional condition with a `JumpIfFalse` exit, and an
    /// optional increment that runs after the body through a pair of
    /// jumps.
    #[verifier::rlimit(100)]
    fn for_statement(&mut self)
        requires
            old(self).wf(),
            old(self).scope_depth < old(self).anchor(),
        ensures
            final(self).wf(),
            parse_frame_locals(*old(self), *final(self)),
        decreases old(self).measure(), 5int,
    {
        self.begin_scope();
        let ghost d = self.scope_depth;
        self.consume(TokenType::LeftParen, DiagKind::ExpectedLeftParen);
        if self.match_token(TokenType::Semicolon) {
        } else if self.match_token(TokenType::Var) {
            self.var_declaration();
        } else {
            self.expression_statement();
        }
        let mut loop_start: usize = self.chunk.code.len();
        let mut exit_jump: Option<usize> = None;
        if !self.match_token(TokenType::Semicolon) {
            self.expression();
            self.consume(TokenType::Semicolon, DiagKind::ExpectedSemicolon);
            exit_jump = Some(self.emit_jump(true));
        }
        let ghost cond_done = *self;
        if !self.match_token(TokenType::RightParen) {
            let body_jump: usize = self.emit_jump(false);
            let increment_start: usize = self.chunk.code.len();
            self.expression();
            self.emit_op(OpCode::Pop);
            self.consume(TokenType::RightParen, DiagKind::ExpectedRightParen);
            self.emit_loop(loop_start);
            loop_start = increment_start;
            proof {
                assert(self.chunk@.code[body_jump as int] is Jump);
            }
            self.patch_jump(body_jump);
        }
        self.statement();
        self.emit_loop(loop_start);
        match exit_jump {
            Some(j) => {
                proof {
                    assert(self.chunk@.code[j as int] is JumpIfFalse);
                }
                self.patch_jump(j);
            },
            None => {},
        }
        let ghost mid = *self;
        proof {
            assert forall|i: int| 0 <= i < old(self).locals@.len() implies (#[trigger] old(
                self,
            ).locals@[i]).depth < d by {
                assert(old(self).locals@[i].depth <= old(self).scope_depth);
            }
            assert(locals_model(mid.locals@).len() == mid.locals@.len());
            assert(locals_model(old(self).locals@).len() == old(self).locals@.len());
            lemma_scope_restores(mid.locals@, old(self).locals@, d);
        }
        self.end_scope();
        proof {
            assert(locals_model(self.locals@) =~= locals_model(old(self).locals@));
        }
    }

    /// A block: declarations until the closing brace; the caller opens and
    /// closes the scope.
    fn block(&mut self)
        requires
            old(self).wf(),
        ensures
            final(self).wf(),
            parse_frame(*old(self), *final(self)),
            locals_model(final(self).locals@).len() >= locals_model(old(self).locals@).len(),
            forall|i: int|
                0 <= i < locals_model(old(self).locals@).len() ==> (#[trigger] locals_model(
                    final(self).locals@,
                )[i]) == locals_model(old(self).locals@)[i],
            forall|i: int|
                locals_model(old(self).locals@).len() <= i < locals_model(
                    final(self).locals@,
                ).len() ==> (#[trigger] locals_model(final(self).locals@)[i]).1 == old(
                    self,
                ).scope_depth,
        decreases old(self).measure(), 7int,
    {
        while !self.check(TokenType::RightBrace) && !self.check(TokenType::Eof)
            invariant
                self.wf(),
                parse_frame(*old(self), *self),
                locals_model(self.locals@).len() >= locals_model(old(self).locals@).len(),
                forall|i: int|
                    0 <= i < locals_model(old(self).locals@).len() ==> (#[trigger] locals_model(
                        self.locals@,
                    )[i]) == locals_model(old(self).locals@)[i],
                forall|i: int|
                    locals_model(old(self).locals@).len() <= i < locals_model(self.locals@).len()
                        ==> (#[trigger] locals_model(self.locals@)[i]).1 == old(self).scope_depth,
            decreases self.measure(),
        {
            self.declaration();
        }
        self.consume(TokenType::RightBrace, DiagKind::ExpectedRightBrace);
    }

    /// A statement: print, `if`, `while`, `for`, a braced block in its own
    /// scope, or an expression statement.
    #[verifier::rlimit(60)]
    fn statement(&mut self)
        requires
            old(self).wf(),
        ensures
            final(self).wf(),
            parse_frame_locals(*old(self), *final(self)),
            starts_no_statement(old(self).current@.token_type) ==> final(self).had_error,
            old(self).current@.token_type == TokenType::Print ==> final(self).chunk@.code.len()
                > old(self).chunk@.code.len() && final(self).chunk@.code.last() == OpCode::Print,
            ({
                let src = old(self).scanner.source@;
                let r1 = scan_spec(
                    src,
                    old(self).scanner.current as int,
                    old(self).scanner.line as int,
                );
                let lex1 = src.subrange(r1.start, r1.end);
                let r2 = scan_spec(src, r1.end, r1.line);
                let r3 = scan_spec(src, r2.end, r2.line);
                old(self).current@.token_type == TokenType::Print && r1.token_type
                    == TokenType::Number && all_digits(lex1) && lex1.len() > 0 && digits_val(lex1)
                    <= i64::MAX as int && old(self).chunk@.constants.len() < 256 && r2.token_type
                    == TokenType::Semicolon && r3.token_type != TokenType::Error ==> {
                    &&& final(self).chunk@.code == old(self).chunk@.code.push(
                        OpCode::Constant(old(self).chunk@.constants.len() as u8),
                    ).push(OpCode::Print)
                    &&& final(self).chunk@.constants == old(self).chunk@.constants.push(
                        crate::value::ValueM::Number(digits_val(lex1) as i64),
                    )
                    &&& final(self).had_error == old(self).had_error
                    &&& final(self).panic_mode == old(self).panic_mode
                    &&& final(self).diagnostics == old(self).diagnostics
                    &&& final(self).current@.token_type == r3.token_type
                    &&& final(self).scanner.current as int == r3.end
                    &&& final(self).scanner.line as int == r3.line
                }
            }),
            old(self).current@.token_type == TokenType::While ==> final(self).had_error || {
                &&& final(self).chunk@.code.len() > old(self).chunk@.code.len()
                &&& final(self).chunk@.code.last() is Loop
            },
            old(self).current@.token_type != TokenType::Eof ==> final(self).measure() < old(
                self,
            ).measure(),
        decreases old(self).measure(), 3int,
    {
        if self.match_token(TokenType::Print) {
            self.print_statement();
        } else if self.match_token(TokenType::If) {
            self.if_statement();
        } else if self.match_token(TokenType::While) {
            self.while_statement();
        } else if self.match_token(TokenType::For) {
            self.for_statement();
        } else if self.match_token(TokenType::LeftBrace) {
            self.begin_scope();
            let ghost d = self.scope_depth;
            self.block();
            let ghost mid = *self;
            proof {
                assert forall|i: int| 0 <= i < old(self).locals@.len() implies (#[trigger] old(
                    self,
                ).locals@[i]).depth < d by {
                    assert(old(self).locals@[i].depth <= old(self).scope_depth);
                }
                assert(locals_model(mid.locals@).len() == mid.locals@.len());
                assert(locals_model(old(self).locals@).len() == old(self).locals@.len());
                assert(locals_model(mid.locals@).len() == mid.locals@.len());
            assert(locals_model(old(self).locals@).len() == old(self).locals@.len());
            lemma_scope_restores(mid.locals@, old(self).locals@, d);
            }
            self.end_scope();
            proof {
                assert(locals_model(self.locals@) =~= locals_model(old(self).locals@));
            }
        } else {
            self.expression_statement();
        }
    }

    /// A declaration: a variable declaration or a statement, with
    /// panic-mode resynchronization at the statement boundary.
    fn declaration(&mut self)
        requires
            old(self).wf(),
        ensures
            final(self).wf(),
            parse_frame(*old(self), *final(self)),
            locals_model(final(self).locals@).len() >= locals_model(old(self).locals@).len(),
            forall|i: int|
                0 <= i < locals_model(old(self).locals@).len() ==> (#[trigger] locals_model(
                    final(self).locals@,
                )[i]) == locals_model(old(self).locals@)[i],
            forall|i: int|
                locals_model(old(self).locals@).len() <= i < locals_model(
                    final(self).locals@,
                ).len() ==> (#[trigger] locals_model(final(self).locals@)[i]).1 == old(
                    self,
                ).scope_depth,
            starts_no_statement(old(self).current@.token_type) ==> final(self).had_error,
            ({
                let src = old(self).scanner.source@;
                let r1 = scan_spec(
                    src,
                    old(self).scanner.current as int,
                    old(self).scanner.line as int,
                );
                let lex1 = src.subrange(r1.start, r1.end);
                let r2 = scan_spec(src, r1.end, r1.line);
                let r3 = scan_spec(src, r2.end, r2.line);
                old(self).current@.token_type == TokenType::Print && !old(self).panic_mode
                    && r1.token_type == TokenType::Number && all_digits(lex1) && lex1.len() > 0
                    && digits_val(lex1) <= i64::MAX as int && old(self).chunk@.constants.len()
                    < 256 && r2.token_type == TokenType::Semicolon && r3.token_type
                    != TokenType::Error ==> {
                    &&& final(self).chunk@.code == old(self).chunk@.code.push(
                        OpCode::Constant(old(self).chunk@.constants.len() as u8),
                    ).push(OpCode::Print)
                    &&& final(self).chunk@.constants == old(self).chunk@.constants.push(
                        crate::value::ValueM::Number(digits_val(lex1) as i64),
                    )
                    &&& final(self).had_error == old(self).had_error
                    &&& final(self).panic_mode == old(self).panic_mode
                    &&& final(self).diagnostics == old(self).diagnostics
                    &&& final(self).current@.token_type == r3.token_type
                    &&& final(self).scanner.current as int == r3.end
                    &&& final(self).scanner.line as int == r3.line
                }
            }),
            old(self).current@.token_type != TokenType::Eof ==> final(self).measure() < old(
                self,
            ).measure(),
        decreases old(self).measure(), 6int,
    {
        if self.match_token(TokenType::Var) {
            self.var_declaration();
        } else {
            self.statement();
        }
        if self.panic_mode {
            self.synchronize();
        }
    }
}

/// The compiler: wraps one source text and compiles it into a chunk.
pub struct Compiler {
    pub source: Vec<u8>,
}

impl Compiler {
    /// The source must leave room for the cursor arithmetic.
    pub open spec fn wf(&self) -> bool {
        self.source@.len() < usize::MAX
    }

    /// Wraps a source text for compilation.
    pub fn new(source: &str) -> (c: Compiler)
        requires
            source.spec_bytes().len() < usize::MAX,
        ensures
            c.source@ == source.spec_bytes(),
            c.wf(),
    {
        let bytes: &[u8] = source.as_bytes();
        let n: usize = bytes.len();
        let mut v: Vec<u8> = Vec::new();
        let mut i: usize = 0;
        while i < n
            invariant
                n == bytes@.len(),
                i <= n,
                v@ == bytes@.subrange(0, i as int),
            decreases n - i,
        {
            v.push(bytes[i]);
            proof {
                assert(v@ =~= bytes@.subrange(0, i + 1 as int));
            }
            i = i + 1;
        }
        proof {
            assert(v@ =~= bytes@);
        }
        Compiler { source: v }
    }

    /// Compiles the source into `chunk` in one pass.  On success the
    /// chunk is well formed and ends in `Return`; on failure the recorded
    /// diagnostics come back and the out-chunk is untouched, to be
    /// discarded.  A source with no tokens compiles successfully to a
    /// bare `Return`; a source whose first token can begin no statement
    /// fails; a program printing one number literal compiles to exactly
    /// the literal's constant load, `Print` and `Return`.
    pub fn compile(&self, chunk: &mut Chunk) -> (r: Result<(), Vec<Diagnostic>>)
        requires
            self.wf(),
        ensures
            match r {
                Ok(()) => {
                    &&& chunk_wf(final(chunk)@)
                    &&& final(chunk)@.code.len() >= 1
                    &&& final(chunk)@.code.last() == OpCode::Return
                },
                Err(ds) => ds@.len() > 0 && *final(chunk) == *old(chunk),
            },
            scan_spec(self.source@, 0, 1).token_type == TokenType::Eof ==> {
                &&& r is Ok
                &&& final(chunk)@.code =~= seq![OpCode::Return]
            },
            ({
                let first = scan_spec(self.source@, 0, 1).token_type;
                first != TokenType::Eof && starts_no_statement(first) ==> r is Err
            }),
            ({
                let src = self.source@;
                let t1 = scan_spec(src, 0, 1);
                let t2 = scan_spec(src, t1.end, t1.line);
                let lex2 = src.subrange(t2.start, t2.end);
                let t3 = scan_spec(src, t2.end, t2.line);
                let t4 = scan_spec(src, t3.end, t3.line);
                t1.token_type == TokenType::Print && t2.token_type == TokenType::Number
                    && all_digits(lex2) && lex2.len() > 0 && digits_val(lex2) <= i64::MAX as int
                    && t3.token_type == TokenType::Semicolon && t4.token_type == TokenType::Eof
                    ==> {
                    &&& r is Ok
                    &&& final(chunk)@.code =~= seq![
                        OpCode::Constant(0),
                        OpCode::Print,
                        OpCode::Return,
                    ]
                    &&& final(chunk)@.constants =~= seq![
                        crate::value::ValueM::Number(digits_val(lex2) as i64),
                    ]
                }
            }),
    {
        let ghost trivial = scan_spec(self.source@, 0, 1).token_type == TokenType::Eof;
        let ghost first_tt = scan_spec(self.source@, 0, 1).token_type;
        let ghost bad = first_tt != TokenType::Eof && starts_no_statement(first_tt);
        let ghost t1 = scan_spec(self.source@, 0, 1);
        let ghost t2 = scan_spec(self.source@, t1.end, t1.line);
        let ghost lex2 = self.source@.subrange(t2.start, t2.end);
        let ghost t3 = scan_spec(self.source@, t2.end, t2.line);
        let ghost t4 = scan_spec(self.source@, t3.end, t3.line);
        let ghost pnum = t1.token_type == TokenType::Print && t2.token_type == TokenType::Number
            && all_digits(lex2) && lex2.len() > 0 && digits_val(lex2) <= i64::MAX as int
            && t3.token_type == TokenType::Semicolon && t4.token_type == TokenType::Eof;
        let mut scanner: Scanner = Scanner::from_bytes(crate::value::copy_bytes(&self.source));
        proof {
            crate::scanner::lemma_scan_props(scanner.source@, 0, 1);
        }
        let first: Token = scanner.scan_token();
        let mut p = Parser {
            scanner,
            current: first,
            previous: Token { token_type: TokenType::Eof, lexeme: Vec::new(), line: 1 },
            chunk: Chunk::new(),
            locals: Vec::new(),
            scope_depth: 0,
            diagnostics: Vec::new(),
            had_error: false,
            panic_mode: false,
        };
        while !p.match_token(TokenType::Eof)
            invariant
                p.wf(),
                trivial == (scan_spec(self.source@, 0, 1).token_type == TokenType::Eof),
                trivial ==> {
                    &&& !p.had_error
                    &&& p.current@.token_type == TokenType::Eof
                    &&& p.chunk@.code.len() == 0
                },
                bad == (first_tt != TokenType::Eof && starts_no_statement(first_tt)),
                first_tt == scan_spec(self.source@, 0, 1).token_type,
                bad ==> p.had_error || p.current@.token_type == first_tt,
                p.scanner.source@ == self.source@,
                t1 == scan_spec(self.source@, 0, 1),
                t2 == scan_spec(self.source@, t1.end, t1.line),
                lex2 == self.source@.subrange(t2.start, t2.end),
                t3 == scan_spec(self.source@, t2.end, t2.line),
                t4 == scan_spec(self.source@, t3.end, t3.line),
                pnum == (t1.token_type == TokenType::Print && t2.token_type == TokenType::Number
                    && all_digits(lex2) && lex2.len() > 0 && digits_val(lex2) <= i64::MAX as int
                    && t3.token_type == TokenType::Semicolon && t4.token_type == TokenType::Eof),
                pnum ==> {
                    ||| {
                        &&& p.current@.token_type == TokenType::Print
                        &&& p.scanner.current as int == t1.end
                        &&& p.scanner.line as int == t1.line
                        &&& !p.had_error
                        &&& !p.panic_mode
                        &&& p.chunk@.code.len() == 0
                        &&& p.chunk@.constants.len() == 0
                    }
                    ||| {
                        &&& p.current@.token_type == TokenType::Eof
                        &&& !p.had_error
                        &&& p.chunk@.code =~= seq![OpCode::Constant(0), OpCode::Print]
                        &&& p.chunk@.constants =~= seq![
                            crate::value::ValueM::Number(digits_val(lex2) as i64),
                        ]
                    }
                },
            decreases p.measure(),
        {
            p.declaration();
        }
        p.emit_op(OpCode::Return);
        if p.had_error {
            return Err(p.diagnostics);
        }
        *chunk = p.chunk;
        Ok(())
    }
}

} // verus!
