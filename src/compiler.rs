use vstd::prelude::*;
use vstd::string::{StrSliceExecFns, StringExecFns};
use crate::chunk::{Chunk, Opcode, decode, opcode_byte};
use crate::lexer::{Lexer, digit_fn, scans_clean, tokens_from, lemma_tokens_step, is_digit, lemma_scan_progress, number_end, run_end, scan, ws_end};
use crate::token::{Token, TokenType};
use crate::value::{Val, Value};
use crate::vm::{InterpretError, view_stack};

verus! {

/// Binding power of an operator, from weakest to strongest.
#[derive(Clone, Copy, Debug, PartialEq, Eq, Structural)]
pub enum Precedence {
    Lowest,
    Assignment,
    Or,
    And,
    Equality,
    Comparison,
    Term,
    Factor,
    Unary,
    Call,
    Primary,
}

/// The rank of a precedence level in the ordering.
pub open spec fn level(p: Precedence) -> u8 {
    match p {
        Precedence::Lowest => 0,
        Precedence::Assignment => 1,
        Precedence::Or => 2,
        Precedence::And => 3,
        Precedence::Equality => 4,
        Precedence::Comparison => 5,
        Precedence::Term => 6,
        Precedence::Factor => 7,
        Precedence::Unary => 8,
        Precedence::Call => 9,
        Precedence::Primary => 10,
    }
}

/// The precedence level of a rank; ranks past the strongest give `Lowest`.
pub open spec fn precedence_of(n: u8) -> Precedence {
    if n == 1 {
        Precedence::Assignment
    } else if n == 2 {
        Precedence::Or
    } else if n == 3 {
        Precedence::And
    } else if n == 4 {
        Precedence::Equality
    } else if n == 5 {
        Precedence::Comparison
    } else if n == 6 {
        Precedence::Term
    } else if n == 7 {
        Precedence::Factor
    } else if n == 8 {
        Precedence::Unary
    } else if n == 9 {
        Precedence::Call
    } else if n == 10 {
        Precedence::Primary
    } else {
        Precedence::Lowest
    }
}

impl From<Precedence> for u8 {
    fn from(p: Precedence) -> (r: u8) {
        match p {
            Precedence::Lowest => 0,
            Precedence::Assignment => 1,
            Precedence::Or => 2,
            Precedence::And => 3,
            Precedence::Equality => 4,
            Precedence::Comparison => 5,
            Precedence::Term => 6,
            Precedence::Factor => 7,
            Precedence::Unary => 8,
            Precedence::Call => 9,
            Precedence::Primary => 10,
        }
    }
}

impl vstd::std_specs::convert::FromSpecImpl<Precedence> for u8 {
    open spec fn obeys_from_spec() -> bool {
        true
    }

    open spec fn from_spec(p: Precedence) -> u8 {
        level(p)
    }
}

impl From<u8> for Precedence {
    fn from(n: u8) -> (r: Precedence) {
        match n {
            1 => Precedence::Assignment,
            2 => Precedence::Or,
            3 => Precedence::And,
            4 => Precedence::Equality,
            5 => Precedence::Comparison,
            6 => Precedence::Term,
            7 => Precedence::Factor,
            8 => Precedence::Unary,
            9 => Precedence::Call,
            10 => Precedence::Primary,
            _ => Precedence::Lowest,
        }
    }
}

impl vstd::std_specs::convert::FromSpecImpl<u8> for Precedence {
    open spec fn obeys_from_spec() -> bool {
        true
    }

    open spec fn from_spec(n: u8) -> Precedence {
        precedence_of(n)
    }
}

impl Precedence {
    /// The next stronger level (`Lowest` after the strongest).
    pub fn plus_one(&self) -> (r: Precedence)
        ensures
            r == precedence_of((level(*self) + 1) as u8),
            level(*self) < 10 ==> level(r) == level(*self) + 1,
    {
        Precedence::from(u8::from(*self) + 1)
    }
}

/// How a token begins an expression.
#[derive(Clone, Copy, Debug, PartialEq, Eq, Structural)]
pub enum PrefixRule {
    Grouping,
    Unary,
    Number,
    String,
    Literal,
}

/// How a token continues an expression after a left operand.
#[derive(Clone, Copy, Debug, PartialEq, Eq, Structural)]
pub enum InfixRule {
    Binary,
}

/// The parse rule of a token kind.
#[derive(Clone, Copy, Debug)]
pub struct ParseRule {
    pub prefix: Option<PrefixRule>,
    pub infix: Option<InfixRule>,
    pub precedence: Precedence,
}

pub open spec fn prefix_rule(t: TokenType) -> Option<PrefixRule> {
    match t {
        TokenType::LeftParen => Some(PrefixRule::Grouping),
        TokenType::Bang | TokenType::Minus => Some(PrefixRule::Unary),
        TokenType::Number => Some(PrefixRule::Number),
        TokenType::String => Some(PrefixRule::String),
        TokenType::False | TokenType::True | TokenType::Nil => Some(PrefixRule::Literal),
        _ => None,
    }
}

pub open spec fn infix_rule(t: TokenType) -> Option<InfixRule> {
    match t {
        TokenType::Minus | TokenType::Plus | TokenType::Slash | TokenType::Star
        | TokenType::EqualEqual | TokenType::BangEqual | TokenType::Greater
        | TokenType::GreaterEqual | TokenType::Less | TokenType::LessEqual => Some(
            InfixRule::Binary,
        ),
        _ => None,
    }
}

pub open spec fn rule_precedence(t: TokenType) -> Precedence {
    match t {
        TokenType::Minus | TokenType::Plus => Precedence::Term,
        TokenType::Slash | TokenType::Star => Precedence::Factor,
        TokenType::EqualEqual | TokenType::BangEqual => Precedence::Equality,
        TokenType::Greater | TokenType::GreaterEqual | TokenType::Less
        | TokenType::LessEqual => Precedence::Comparison,
        _ => Precedence::Lowest,
    }
}

/// The parse rule of each token kind.
pub fn get_parse_rule(token_type: TokenType) -> (r: ParseRule)
    ensures
        r.prefix == prefix_rule(token_type),
        r.infix == infix_rule(token_type),
        r.precedence == rule_precedence(token_type),
{
    match token_type {
        TokenType::LeftParen => ParseRule {
            prefix: Some(PrefixRule::Grouping),
            infix: None,
            precedence: Precedence::Lowest,
        },
        TokenType::Bang => ParseRule {
            prefix: Some(PrefixRule::Unary),
            infix: None,
            precedence: Precedence::Lowest,
        },
        TokenType::Minus => ParseRule {
            prefix: Some(PrefixRule::Unary),
            infix: Some(InfixRule::Binary),
            precedence: Precedence::Term,
        },
        TokenType::Plus => ParseRule {
            prefix: None,
            infix: Some(InfixRule::Binary),
            precedence: Precedence::Term,
        },
        TokenType::Slash => ParseRule {
            prefix: None,
            infix: Some(InfixRule::Binary),
            precedence: Precedence::Factor,
        },
        TokenType::Star => ParseRule {
            prefix: None,
            infix: Some(InfixRule::Binary),
            precedence: Precedence::Factor,
        },
        TokenType::EqualEqual => ParseRule {
            prefix: None,
            infix: Some(InfixRule::Binary),
            precedence: Precedence::Equality,
        },
        TokenType::BangEqual => ParseRule {
            prefix: None,
            infix: Some(InfixRule::Binary),
            precedence: Precedence::Equality,
        },
        TokenType::Greater => ParseRule {
            prefix: None,
            infix: Some(InfixRule::Binary),
            precedence: Precedence::Comparison,
        },
        TokenType::GreaterEqual => ParseRule {
            prefix: None,
            infix: Some(InfixRule::Binary),
            precedence: Precedence::Comparison,
        },
        TokenType::Less => ParseRule {
            prefix: None,
            infix: Some(InfixRule::Binary),
            precedence: Precedence::Comparison,
        },
        TokenType::LessEqual => ParseRule {
            prefix: None,
            infix: Some(InfixRule::Binary),
            precedence: Precedence::Comparison,
        },
        TokenType::Number => ParseRule {
            prefix: Some(PrefixRule::Number),
            infix: None,
            precedence: Precedence::Lowest,
        },
        TokenType::String => ParseRule {
            prefix: Some(PrefixRule::String),
            infix: None,
            precedence: Precedence::Lowest,
        },
        TokenType::False => ParseRule {
            prefix: Some(PrefixRule::Literal),
            infix: None,
            precedence: Precedence::Lowest,
        },
        TokenType::True => ParseRule {
            prefix: Some(PrefixRule::Literal),
            infix: None,
            precedence: Precedence::Lowest,
        },
        TokenType::Nil => ParseRule {
            prefix: Some(PrefixRule::Literal),
            infix: None,
            precedence: Precedence::Lowest,
        },
        _ => ParseRule { prefix: None, infix: None, precedence: Precedence::Lowest },
    }
}

/// Bytecode in which every `Constant` opcode is followed by an index below
/// `n`, reading instruction by instruction from the start.
pub open spec fn code_ok(code: Seq<u8>, n: nat) -> bool
    decreases code.len(),
{
    if code.len() == 0 {
        true
    } else if code[0] == opcode_byte(Opcode::Constant) {
        code.len() >= 2 && code[1] < n && code_ok(code.subrange(2, code.len() as int), n)
    } else {
        code_ok(code.subrange(1, code.len() as int), n)
    }
}

proof fn lemma_code_ok_append(a: Seq<u8>, b: Seq<u8>, n: nat)
    requires
        code_ok(a, n),
        code_ok(b, n),
    ensures
        code_ok(a + b, n),
    decreases a.len(),
{
    if a.len() > 0 {
        if a[0] == opcode_byte(Opcode::Constant) {
            lemma_code_ok_append(a.subrange(2, a.len() as int), b, n);
            assert((a + b).subrange(2, (a + b).len() as int) == a.subrange(2, a.len() as int)
                + b);
        } else {
            lemma_code_ok_append(a.subrange(1, a.len() as int), b, n);
            assert((a + b).subrange(1, (a + b).len() as int) == a.subrange(1, a.len() as int)
                + b);
        }
    } else {
        assert(a + b == b);
    }
}

proof fn lemma_code_ok_grow(a: Seq<u8>, n: nat, m: nat)
    requires
        code_ok(a, n),
        n <= m,
    ensures
        code_ok(a, m),
    decreases a.len(),
{
    if a.len() > 0 {
        if a[0] == opcode_byte(Opcode::Constant) {
            lemma_code_ok_grow(a.subrange(2, a.len() as int), n, m);
        } else {
            lemma_code_ok_grow(a.subrange(1, a.len() as int), n, m);
        }
    }
}

/// The stack depth after running `code` from depth `d`, instruction by
/// instruction; `None` when an instruction would pop more values than the
/// stack holds, is `Return` or unknown, or is cut off.
pub open spec fn depth_after(code: Seq<u8>, d: int) -> Option<int>
    decreases code.len(),
{
    if code.len() == 0 {
        Some(d)
    } else {
        let op = decode(code[0]);
        let rest = code.subrange(1, code.len() as int);
        if op == Opcode::Constant {
            if code.len() >= 2 {
                depth_after(code.subrange(2, code.len() as int), d + 1)
            } else {
                None
            }
        } else if op == Opcode::Nil || op == Opcode::True || op == Opcode::False {
            depth_after(rest, d + 1)
        } else if op == Opcode::Neg || op == Opcode::Not {
            if d >= 1 {
                depth_after(rest, d)
            } else {
                None
            }
        } else if op == Opcode::Return || op == Opcode::Error {
            None
        } else if d >= 2 {
            depth_after(rest, d - 1)
        } else {
            None
        }
    }
}

/// `new` is `old` followed by code that takes the stack from depth `from` to
/// depth `to`.
pub open spec fn appends(old: Seq<u8>, new: Seq<u8>, from: int, to: int) -> bool {
    &&& old.len() <= new.len()
    &&& new.subrange(0, old.len() as int) == old
    &&& depth_after(new.subrange(old.len() as int, new.len() as int), from) == Some(to)
}

proof fn lemma_depth_concat(a: Seq<u8>, b: Seq<u8>, d: int, k: int)
    requires
        depth_after(a, d) == Some(k),
    ensures
        depth_after(a + b, d) == depth_after(b, k),
    decreases a.len(),
{
    if a.len() == 0 {
        assert(a + b == b);
    } else {
        let op = decode(a[0]);
        if op == Opcode::Constant {
            lemma_depth_concat(a.subrange(2, a.len() as int), b, d + 1, k);
            assert((a + b).subrange(2, (a + b).len() as int) == a.subrange(2, a.len() as int) + b);
        } else {
            let dn = if op == Opcode::Nil || op == Opcode::True || op == Opcode::False {
                d + 1
            } else if op == Opcode::Neg || op == Opcode::Not {
                d
            } else {
                d - 1
            };
            lemma_depth_concat(a.subrange(1, a.len() as int), b, dn, k);
            assert((a + b).subrange(1, (a + b).len() as int) == a.subrange(1, a.len() as int) + b);
        }
    }
}

proof fn lemma_depth_shift(a: Seq<u8>, d: int, k: int, e: int)
    requires
        depth_after(a, d) == Some(k),
        d <= e,
    ensures
        depth_after(a, e) == Some(k + e - d),
    decreases a.len(),
{
    if a.len() > 0 {
        let op = decode(a[0]);
        if op == Opcode::Constant {
            lemma_depth_shift(a.subrange(2, a.len() as int), d + 1, k, e + 1);
        } else if op == Opcode::Nil || op == Opcode::True || op == Opcode::False {
            lemma_depth_shift(a.subrange(1, a.len() as int), d + 1, k, e + 1);
        } else if op == Opcode::Neg || op == Opcode::Not {
            lemma_depth_shift(a.subrange(1, a.len() as int), d, k, e);
        } else {
            lemma_depth_shift(a.subrange(1, a.len() as int), d - 1, k, e - 1);
        }
    }
}

proof fn lemma_appends_trans(a: Seq<u8>, b: Seq<u8>, c: Seq<u8>, x: int, y: int, z: int)
    requires
        appends(a, b, x, y),
        appends(b, c, y, z),
    ensures
        appends(a, c, x, z),
{
    let ab = b.subrange(a.len() as int, b.len() as int);
    let bc = c.subrange(b.len() as int, c.len() as int);
    assert(c.subrange(0, b.len() as int).subrange(0, a.len() as int) == c.subrange(
        0,
        a.len() as int,
    ));
    assert(c.subrange(a.len() as int, b.len() as int) == ab);
    assert(c.subrange(a.len() as int, c.len() as int) == ab + bc);
    lemma_depth_concat(ab, bc, x, y);
}

proof fn lemma_appends_shift(a: Seq<u8>, b: Seq<u8>, x: int, y: int, e: int)
    requires
        appends(a, b, x, y),
        x <= e,
    ensures
        appends(a, b, e, y + e - x),
{
    lemma_depth_shift(b.subrange(a.len() as int, b.len() as int), x, y, e);
}

proof fn lemma_appends_bytes(a: Seq<u8>, bytes: Seq<u8>, x: int, y: int)
    requires
        depth_after(bytes, x) == Some(y),
    ensures
        appends(a, a + bytes, x, y),
{
    assert((a + bytes).subrange(0, a.len() as int) == a);
    assert((a + bytes).subrange(a.len() as int, (a + bytes).len() as int) == bytes);
}

/// The numbers among the constants, in pool order.
pub open spec fn numbers_in(consts: Seq<Val>) -> Seq<u64>
    decreases consts.len(),
{
    if consts.len() == 0 {
        Seq::empty()
    } else {
        let rest = numbers_in(consts.drop_last());
        match consts.last() {
            Val::Number(n) => rest.push(n),
            _ => rest,
        }
    }
}

/// A parser's position in the token stream, the code and constants emitted so
/// far, how many number values it has used, and the source line of each byte
/// of code.
pub type PState = (int, Seq<u8>, Seq<Val>, int, Seq<usize>);

/// The line of the token before the one at `st.0`: the line that code
/// emitted there is recorded with.
pub open spec fn prev_line(toks: Seq<(TokenType, Seq<char>, usize)>, st: PState) -> usize {
    if 0 < st.0 <= toks.len() {
        toks[st.0 - 1].2
    } else {
        0
    }
}

/// Emits `bytes`, each on `line`.
pub open spec fn sp_emit(st: PState, bytes: Seq<u8>, line: usize) -> PState {
    (st.0, st.1 + bytes, st.2, st.3, st.4 + Seq::new(bytes.len(), |i: int| line))
}

/// The kind of token `i`; `EOF` past the end.
pub open spec fn tok_type(toks: Seq<(TokenType, Seq<char>, usize)>, i: int) -> TokenType {
    if 0 <= i < toks.len() {
        toks[i].0
    } else {
        TokenType::EOF
    }
}

/// Moves to the next token; a token the scanner rejected is an error.
pub open spec fn sp_advance(toks: Seq<(TokenType, Seq<char>, usize)>, st: PState) -> Option<PState> {
    if tok_type(toks, st.0 + 1) == TokenType::Error {
        None
    } else {
        Some((st.0 + 1, st.1, st.2, st.3, st.4))
    }
}

/// Adds `v` to the pool and emits `Constant` with its index; more than
/// `MAX_CONSTANTS` constants is an error.
pub open spec fn sp_const(st: PState, v: Val, line: usize) -> Option<PState> {
    if st.2.len() >= MAX_CONSTANTS {
        None
    } else {
        let e = sp_emit(st, seq![opcode_byte(Opcode::Constant), st.2.len() as u8], line);
        Some((e.0, e.1, e.2.push(v), e.3, e.4))
    }
}

/// A string literal's text without its quotes.
pub open spec fn unquote(lexeme: Seq<char>) -> Seq<char> {
    if lexeme.len() >= 2 {
        lexeme.subrange(1, lexeme.len() - 1)
    } else {
        Seq::empty()
    }
}

pub open spec fn literal_value(t: TokenType) -> Val {
    match t {
        TokenType::False => Val::Bool(false),
        TokenType::True => Val::Bool(true),
        _ => Val::Nil,
    }
}

/// The operand that a number, string or `true`/`false`/`nil` token `t` with
/// text `lexeme` compiles to; number values come from `nums` in order.
pub open spec fn sp_leaf(
    nums: Seq<u64>,
    t: TokenType,
    lexeme: Seq<char>,
    line: usize,
    st: PState,
) -> Option<PState> {
    match prefix_rule(t) {
        Some(PrefixRule::Number) => if 0 <= st.3 < nums.len() {
            sp_const((st.0, st.1, st.2, st.3 + 1, st.4), Val::Number(nums[st.3]), line)
        } else {
            None
        },
        Some(PrefixRule::String) => sp_const(st, Val::Str(unquote(lexeme)), line),
        _ => sp_const(st, literal_value(t), line),
    }
}

/// The code of a binary operator: `!=`, `>=` and `<=` are the negations of
/// `==`, `<` and `>`.
pub open spec fn binary_code(t: TokenType) -> Seq<u8> {
    match t {
        TokenType::Plus => seq![opcode_byte(Opcode::Add)],
        TokenType::Minus => seq![opcode_byte(Opcode::Sub)],
        TokenType::Star => seq![opcode_byte(Opcode::Mul)],
        TokenType::Slash => seq![opcode_byte(Opcode::Div)],
        TokenType::EqualEqual => seq![opcode_byte(Opcode::Equal)],
        TokenType::BangEqual => seq![opcode_byte(Opcode::Equal), opcode_byte(Opcode::Not)],
        TokenType::Greater => seq![opcode_byte(Opcode::Greater)],
        TokenType::GreaterEqual => seq![opcode_byte(Opcode::Less), opcode_byte(Opcode::Not)],
        TokenType::Less => seq![opcode_byte(Opcode::Less)],
        _ => seq![opcode_byte(Opcode::Greater), opcode_byte(Opcode::Not)],
    }
}

pub open spec fn next_level(p: Precedence) -> Precedence {
    precedence_of((level(p) + 1) as u8)
}

/// Precedence climbing from the token at `st.0`: a prefix expression, then
/// every infix operator whose precedence is at least `prec`, each with a
/// right operand of higher precedence (so operators associate to the left).
/// Gives the state after the expression, or `None` on a syntax error.
pub open spec fn sp_expr(toks: Seq<(TokenType, Seq<char>, usize)>, nums: Seq<u64>, prec: Precedence, st: PState) -> Option<PState>
    decreases toks.len() - st.0, 1int,
{
    if st.0 < 0 || st.0 >= toks.len() {
        None
    } else {
        let t = toks[st.0].0;
        if t == TokenType::EOF {
            None
        } else {
            match sp_advance(toks, st) {
                None => None,
                Some(st1) => {
                    let a = match prefix_rule(t) {
                        None => None,
                        Some(PrefixRule::Grouping) => sp_grouping(toks, nums, st1),
                        Some(PrefixRule::Unary) => sp_unary(toks, nums, t, st1),
                        Some(_) => sp_leaf(nums, t, toks[st.0].1, toks[st.0].2, st1),
                    };
                    match a {
                        Some(a) => if st.0 < a.0 <= toks.len() {
                            sp_infix(toks, nums, prec, a)
                        } else {
                            None
                        },
                        None => None,
                    }
                },
            }
        }
    }
}

/// A parenthesized expression, after its `(`.
pub open spec fn sp_grouping(toks: Seq<(TokenType, Seq<char>, usize)>, nums: Seq<u64>, st: PState) -> Option<PState>
    decreases toks.len() - st.0, 2int,
{
    if st.0 < 0 || st.0 > toks.len() {
        None
    } else {
        match sp_expr(toks, nums, Precedence::Assignment, st) {
            Some(g) => if tok_type(toks, g.0) == TokenType::RightParen {
                sp_advance(toks, g)
            } else {
                None
            },
            None => None,
        }
    }
}

/// The operand of a unary operator `t`, then `Neg` or `Not`.
pub open spec fn sp_unary(toks: Seq<(TokenType, Seq<char>, usize)>, nums: Seq<u64>, t: TokenType, st: PState) -> Option<PState>
    decreases toks.len() - st.0, 2int,
{
    if st.0 < 0 || st.0 > toks.len() {
        None
    } else {
        match sp_expr(toks, nums, Precedence::Unary, st) {
            Some(u) => Some(
                sp_emit(
                    u,
                    seq![
                        if t == TokenType::Minus {
                            opcode_byte(Opcode::Neg)
                        } else {
                            opcode_byte(Opcode::Not)
                        },
                    ],
                    prev_line(toks, u),
                ),
            ),
            None => None,
        }
    }
}

/// The right operand of a binary operator `t`, then the operator's code.
pub open spec fn sp_binary(toks: Seq<(TokenType, Seq<char>, usize)>, nums: Seq<u64>, t: TokenType, st: PState) -> Option<PState>
    decreases toks.len() - st.0, 2int,
{
    if st.0 < 0 || st.0 > toks.len() {
        None
    } else {
        match sp_expr(toks, nums, next_level(rule_precedence(t)), st) {
            Some(b) => Some(sp_emit(b, binary_code(t), prev_line(toks, b))),
            None => None,
        }
    }
}

/// The infix operators that follow a left operand, while their precedence is
/// at least `prec`.
pub open spec fn sp_infix(toks: Seq<(TokenType, Seq<char>, usize)>, nums: Seq<u64>, prec: Precedence, st: PState) -> Option<PState>
    decreases toks.len() - st.0, 0int,
{
    if st.0 < 0 || st.0 >= toks.len() {
        Some(st)
    } else {
        let t = toks[st.0].0;
        if level(prec) <= level(rule_precedence(t)) {
            match sp_advance(toks, st) {
                None => None,
                Some(st1) => match infix_rule(t) {
                    None => None,
                    Some(_) => match sp_binary(toks, nums, t, st1) {
                        Some(b) => if st.0 < b.0 <= toks.len() {
                            sp_infix(toks, nums, prec, b)
                        } else {
                            None
                        },
                        None => None,
                    },
                },
            }
        } else {
            Some(st)
        }
    }
}

/// What compiling `s` gives, with `nums` as the values of its number
/// literals: the code (without the final `Return`), constants and lines of
/// the one expression that the tokens form, or `None` when they form none.
pub open spec fn compiled(s: Seq<char>, nums: Seq<u64>) -> Option<PState> {
    let toks = tokens_from(s, 0);
    match sp_advance(toks, (-1, Seq::empty(), Seq::empty(), 0, Seq::empty())) {
        None => None,
        Some(st) => match sp_expr(toks, nums, Precedence::Assignment, st) {
            Some(r) => if tok_type(toks, r.0) == TokenType::EOF {
                Some(r)
            } else {
                None
            },
            None => None,
        },
    }
}

/// Where a diagnostic points.
#[derive(Debug)]
pub enum Location {
    /// At the end of the source.
    AtEnd,
    /// At a token that the scanner rejected; the message says why.
    Scanner,
    /// At the token with this lexeme.
    At(String),
}

/// A compile error: `[line N] Error<location>: <message>`.
#[derive(Debug)]
pub struct Diagnostic {
    pub line: usize,
    pub location: Location,
    pub message: String,
}

/// The bound on constants per chunk: an index is one byte.
pub const MAX_CONSTANTS: usize = 256;

/// Compiles one expression into a chunk.
pub struct Parser<'a> {
    lexer: Lexer<'a>,
    chunk: Chunk,
    current: Token<'a>,
    previous: Token<'a>,
    had_error: bool,
    panic_mode: bool,
    numbers: &'a Vec<u64>,
    next_number: usize,
    diagnostics: Vec<Diagnostic>,
    /// The position of the current token in the token stream.
    index: Ghost<int>,
}

impl<'a> Parser<'a> {
    pub closed spec fn wf(&self) -> bool {
        &&& self.wf_except_tracks()
        &&& !self.had_error ==> self.tracks()
    }

    /// All of `wf` but the link to the token stream.
    pub closed spec fn wf_except_tracks(&self) -> bool {
        &&& self.wf_state()
        &&& self.numbers_ok(None)
        &&& !self.had_error ==> (scans_clean(self.lexer.text(), 0) == scans_clean(
            self.lexer.text(),
            self.lexer.position(),
        ))
    }

    /// The scanner's tokens of the whole source.
    pub closed spec fn toks(&self) -> Seq<(TokenType, Seq<char>, usize)> {
        tokens_from(self.lexer.text(), 0)
    }

    /// The current and previous tokens are the tokens at `index` and before
    /// it, and the lexer stands after the current one.
    pub closed spec fn tracks(&self) -> bool {
        let t = self.toks();
        let i = self.index@;
        &&& -1 <= i < t.len()
        &&& i >= 0 ==> self.current.token_type == t[i].0 && self.current.lexeme@ == t[i].1
            && self.current.line == t[i].2
        &&& i >= 1 ==> self.previous.token_type == t[i - 1].0 && self.previous.lexeme@ == t[i
            - 1].1 && self.previous.line == t[i - 1].2
        &&& (i < 0 || self.current.token_type != TokenType::EOF) ==> tokens_from(
            self.lexer.text(),
            self.lexer.position(),
        ) == t.subrange(i + 1, t.len() as int)
    }

    /// The parser's position, code, constants and used number values.
    pub closed spec fn state(&self) -> PState {
        (
            self.index@,
            self.chunk.code@,
            view_stack(self.chunk.constants@),
            self.next_number as int,
            self.chunk.line_view(),
        )
    }

    /// From `before` to `after` the parser did what `sp` says: reached that
    /// state without an error, or reported an error where `sp` has none.
    pub closed spec fn steps_to(before: Self, after: Self, sp: Option<PState>) -> bool {
        !before.had_error ==> match sp {
            Some(r) => !after.had_error && after.state() == r,
            None => after.had_error,
        }
    }

    /// The parser's state is consistent, apart from what it has seen of the
    /// scanner's errors.
    pub closed spec fn wf_state(&self) -> bool {
        &&& self.lexer.wf()
        &&& 0 <= self.lexer.position() <= self.lexer.text().len()
        &&& self.current.token_type == TokenType::EOF ==> self.lexer.position()
            == self.lexer.text().len()
        &&& self.chunk.wf()
        &&& code_ok(self.chunk.code@, self.chunk.constants@.len())
        &&& self.chunk.constants@.len() <= MAX_CONSTANTS
        &&& self.had_error == (self.diagnostics@.len() > 0)
        &&& self.panic_mode ==> self.had_error
        &&& self.next_number <= self.numbers@.len()
    }

    /// The numbers in the pool, followed by `pending` (a number about to be
    /// added), are the first values handed out of `numbers`.
    pub closed spec fn numbers_ok(&self, pending: Option<u64>) -> bool {
        !self.had_error ==> numbers_in(view_stack(self.chunk.constants@)) + match pending {
            Some(n) => seq![n],
            None => Seq::empty(),
        } == self.numbers@.subrange(0, self.next_number as int)
    }

    /// The values of the number literals that the parser was given.
    pub closed spec fn numbers_view(&self) -> Seq<u64> {
        self.numbers@
    }

    /// What the parser has read of the source.
    pub closed spec fn source_text(&self) -> Seq<char> {
        self.lexer.text()
    }

    /// What is left to read: the characters after the current token, and the
    /// current token itself unless it is the end.
    pub closed spec fn measure(&self) -> nat {
        ((self.lexer.text().len() - self.lexer.position()) + if self.current.token_type
            == TokenType::EOF {
            0int
        } else {
            1int
        }) as nat
    }

    /// The parser's chunk so far.
    pub closed spec fn chunk_view(&self) -> Chunk {
        self.chunk
    }

    pub closed spec fn failed(&self) -> bool {
        self.had_error
    }

    /// A parser over `source`; `numbers` holds the value of each number
    /// literal, in the order of the literals.
    pub fn new(source: &'a str, numbers: &'a Vec<u64>) -> (r: Parser<'a>)
        requires
            source@.len() < usize::MAX,
        ensures
            r.wf(),
            !r.failed(),
            r.chunk_view().code@.len() == 0,
            r.source_text() == source@,
            r.numbers_view() == numbers@,
            r.toks() == tokens_from(source@, 0),
            r.state() == (
                -1int,
                Seq::<u8>::empty(),
                Seq::<Val>::empty(),
                0int,
                Seq::<usize>::empty(),
            ),
    {
        let lexer = Lexer::new(source);
        proof {
            assert(view_stack(Seq::<Value>::empty()) =~= Seq::<Val>::empty());
            assert(numbers@.subrange(0, 0) =~= Seq::<u64>::empty());
            assert(Seq::<u64>::empty() + Seq::<u64>::empty() == Seq::<u64>::empty());
            let t = tokens_from(source@, 0);
            assert(t.subrange(0, t.len() as int) == t);
        }
        Parser {
            lexer,
            chunk: Chunk::new(),
            current: Token { token_type: TokenType::Error, lexeme: "", line: 0 },
            previous: Token { token_type: TokenType::Error, lexeme: "", line: 0 },
            had_error: false,
            panic_mode: false,
            numbers,
            next_number: 0,
            diagnostics: Vec::new(),
            index: Ghost(-1),
        }
    }

    /// Moves to the next token, reporting the scanner's error tokens on the way.
    fn advance(&mut self)
        requires
            old(self).wf(),
            !old(self).had_error ==> (old(self).index@ < 0 || old(self).current.token_type
                != TokenType::EOF),
        ensures
            final(self).wf(),
            final(self).lexer.text() == old(self).lexer.text(),
            final(self).numbers == old(self).numbers,
            final(self).next_number == old(self).next_number,
            final(self).index@ >= old(self).index@,
            final(self).previous == old(self).current,
            final(self).chunk == old(self).chunk,
            final(self).current.token_type != TokenType::Error,
            old(self).had_error ==> final(self).had_error,
            old(self).current.token_type != TokenType::EOF ==> final(self).measure() < old(
                self,
            ).measure(),
            final(self).measure() <= old(self).measure(),
            Self::steps_to(*old(self), *final(self), sp_advance(old(self).toks(), old(self).state())),
    {
        self.previous = self.current;
        loop
            invariant_except_break
                self.wf_except_tracks(),
                old(self).wf(),
                self.previous == old(self).current,
                self.chunk == old(self).chunk,
                old(self).had_error ==> self.had_error,
                self.lexer.position() <= self.lexer.text().len(),
                self.lexer.text() == old(self).lexer.text(),
                self.numbers == old(self).numbers,
                self.next_number == old(self).next_number,
                self.index@ >= old(self).index@,
                self.lexer.position() >= old(self).lexer.position(),
                !self.had_error ==> self.index == old(self).index && self.lexer.position() == old(
                    self,
                ).lexer.position() && self.current == old(self).current,
                !old(self).had_error ==> (old(self).index@ < 0 || old(self).current.token_type
                    != TokenType::EOF),
                self.had_error && !old(self).had_error ==> sp_advance(
                    old(self).toks(),
                    old(self).state(),
                ) is None,
            ensures
                self.wf(),
                self.numbers == old(self).numbers,
                self.next_number == old(self).next_number,
                self.index@ >= old(self).index@,
                self.previous == old(self).current,
                self.chunk == old(self).chunk,
                self.current.token_type != TokenType::Error,
                old(self).had_error ==> self.had_error,
                self.lexer.text() == old(self).lexer.text(),
                self.lexer.position() >= old(self).lexer.position(),
                self.current.token_type != TokenType::EOF ==> self.lexer.position()
                    > old(self).lexer.position(),
                Self::steps_to(*old(self), *self, sp_advance(old(self).toks(), old(self).state())),
            decreases self.lexer.text().len() - self.lexer.position(),
        {
            let ghost q = self.lexer.position();
            let ghost was_clean = !self.had_error;
            proof {
                lemma_scan_progress(self.lexer.text(), q);
                lemma_tokens_step(self.lexer.text(), q);
            }
            self.current = self.lexer.lex_token();
            proof {
                let s = self.lexer.text();
                let p = ws_end(s, q, false);
                if p >= s.len() {
                    assert(ws_end(s, self.lexer.position(), false) == self.lexer.position()) by {
                        lemma_scan_progress(s, self.lexer.position());
                    }
                }
            }
            if self.current.token_type != TokenType::Error {
                proof {
                    if was_clean {
                        let s = self.lexer.text();
                        let t = old(self).toks();
                        let i = old(self).index@;
                        let e = self.lexer.position();
                        assert(tokens_from(s, q) == t.subrange(i + 1, t.len() as int));
                        assert(t[i + 1] == tokens_from(s, q)[0]);
                        let p = ws_end(s, q, false);
                        if self.current.token_type == TokenType::EOF {
                            assert(s.subrange(p, e) =~= Seq::<char>::empty());
                        }
                        if self.current.token_type != TokenType::EOF {
                            assert(tokens_from(s, e) == tokens_from(s, q).subrange(
                                1,
                                tokens_from(s, q).len() as int,
                            ));
                            assert(tokens_from(s, e) == t.subrange(i + 2, t.len() as int));
                        }
                        self.index = Ghost(i + 1);
                    }
                }
                break;
            }
            proof {
                if was_clean {
                    let t = old(self).toks();
                    let i = old(self).index@;
                    assert(tokens_from(self.lexer.text(), q) == t.subrange(i + 1, t.len() as int));
                    assert(t[i + 1] == tokens_from(self.lexer.text(), q)[0]);
                    assert(tok_type(t, i + 1) == TokenType::Error);
                }
            }
            let message = self.current.lexeme;
            let token = self.current;
            self.error_at(token, message);
        }
    }

    /// Consumes the current token when it has kind `token_type`, else reports
    /// `message` at it.
    fn consume(&mut self, token_type: TokenType, message: &str)
        requires
            old(self).wf(),
            token_type != TokenType::EOF,
        ensures
            final(self).next_number == old(self).next_number,
            final(self).index@ >= old(self).index@,
            Self::steps_to(
                *old(self),
                *final(self),
                if old(self).current.token_type == token_type {
                    sp_advance(old(self).toks(), old(self).state())
                } else {
                    None
                },
            ),
            final(self).wf(),
            final(self).lexer.text() == old(self).lexer.text(),
            final(self).numbers == old(self).numbers,
            final(self).chunk == old(self).chunk,
            old(self).had_error ==> final(self).had_error,
            old(self).current.token_type != token_type ==> final(self).had_error,
            final(self).measure() <= old(self).measure(),
    {
        if self.current.token_type == token_type {
            self.advance();
        } else {
            let token = self.current;
            self.error_at(token, message);
        }
    }

    /// Reports `message` at `token`, unless an error is already being reported.
    fn error_at(&mut self, token: Token<'a>, message: &str)
        requires
            old(self).wf_state(),
        ensures
            final(self).wf(),
            final(self).lexer.text() == old(self).lexer.text(),
            final(self).numbers == old(self).numbers,
            final(self).had_error,
            final(self).chunk == old(self).chunk,
            final(self).lexer == old(self).lexer,
            final(self).current == old(self).current,
            final(self).previous == old(self).previous,
            final(self).next_number == old(self).next_number,
            final(self).numbers == old(self).numbers,
            final(self).index == old(self).index,
    {
        if self.panic_mode {
            return;
        }
        self.panic_mode = true;
        let location = match token.token_type {
            TokenType::EOF => Location::AtEnd,
            TokenType::Error => Location::Scanner,
            _ => Location::At(String::from_str(token.lexeme)),
        };
        self.diagnostics.push(
            Diagnostic { line: token.line, location, message: String::from_str(message) },
        );
        self.had_error = true;
    }

    fn error(&mut self, message: &str)
        requires
            old(self).wf_state(),
        ensures
            final(self).wf(),
            final(self).lexer.text() == old(self).lexer.text(),
            final(self).numbers == old(self).numbers,
            final(self).had_error,
            final(self).chunk == old(self).chunk,
            final(self).lexer == old(self).lexer,
            final(self).current == old(self).current,
            final(self).previous == old(self).previous,
            final(self).next_number == old(self).next_number,
            final(self).numbers == old(self).numbers,
            final(self).index == old(self).index,
    {
        let token = self.previous;
        self.error_at(token, message)
    }

    fn emit_byte(&mut self, byte: u8)
        requires
            old(self).wf(),
            byte != opcode_byte(Opcode::Constant),
        ensures
            final(self).wf(),
            final(self).lexer.text() == old(self).lexer.text(),
            final(self).numbers == old(self).numbers,
            final(self).had_error == old(self).had_error,
            final(self).lexer == old(self).lexer,
            final(self).current == old(self).current,
            final(self).previous == old(self).previous,
            final(self).chunk.code@ == old(self).chunk.code@.push(byte),
            final(self).chunk.line_view() == old(self).chunk.line_view().push(old(self).previous.line),
            final(self).chunk.constants@ == old(self).chunk.constants@,
            final(self).next_number == old(self).next_number,
            final(self).index == old(self).index,
    {
        proof {
            let c = self.chunk.code@;
            let n = self.chunk.constants@.len();
            assert(code_ok(seq![byte], n)) by {
                assert(seq![byte].subrange(1, 1) == Seq::<u8>::empty());
                reveal_with_fuel(code_ok, 2);
            }
            lemma_code_ok_append(c, seq![byte], n);
            assert(c + seq![byte] == c.push(byte));
        }
        let line = self.previous.line;
        self.chunk.write(byte, line);
    }

    /// Adds `value` to the pool and emits the instruction that pushes it.
    fn emit_constant(&mut self, value: Value)
        requires
            old(self).wf_state(),
            !old(self).had_error ==> (scans_clean(old(self).lexer.text(), 0) == scans_clean(
                old(self).lexer.text(),
                old(self).lexer.position(),
            )),
            old(self).numbers_ok(
                match value {
                    Value::Number(n) => Some(n),
                    _ => None,
                },
            ),
            !old(self).had_error ==> old(self).tracks(),
        ensures
            final(self).index == old(self).index,
            Self::steps_to(
                *old(self),
                *final(self),
                sp_const(old(self).state(), value@, old(self).previous.line),
            ),
            final(self).wf(),
            final(self).lexer.text() == old(self).lexer.text(),
            final(self).numbers == old(self).numbers,
            old(self).had_error ==> final(self).had_error,
            final(self).lexer == old(self).lexer,
            final(self).current == old(self).current,
            final(self).previous == old(self).previous,
            !final(self).had_error ==> appends(old(self).chunk.code@, final(self).chunk.code@, 0, 1),
    {
        if self.chunk.constants.len() >= MAX_CONSTANTS {
            self.error("Too many constants in one chunk");
            return;
        }
        let ghost v = value@;
        let i = self.chunk.add_constant(value);
        let line = self.previous.line;
        proof {
            let c = view_stack(self.chunk.constants@);
            assert(c =~= view_stack(old(self).chunk.constants@).push(v));
            assert(c.drop_last() == view_stack(old(self).chunk.constants@));
            if !self.had_error {
                match v {
                    Val::Number(n) => {
                        assert(numbers_in(c) == numbers_in(c.drop_last()) + seq![n]);
                    },
                    _ => {
                        assert(numbers_in(c) == numbers_in(c.drop_last()) + Seq::<u64>::empty());
                    },
                }
            }
        }
        proof {
            let c = self.chunk.code@;
            let n = self.chunk.constants@.len();
            let instr = seq![opcode_byte(Opcode::Constant), i as u8];
            lemma_code_ok_grow(c, (n - 1) as nat, n);
            assert(code_ok(instr, n)) by {
                assert(instr.subrange(2, 2) == Seq::<u8>::empty());
                reveal_with_fuel(code_ok, 2);
            }
            lemma_code_ok_append(c, instr, n);
            assert(c + instr == c.push(opcode_byte(Opcode::Constant)).push(i as u8));
        }
        self.chunk.write(Opcode::Constant.into(), line);
        self.chunk.write(i as u8, line);
        proof {
            assert(self.chunk.line_view() =~= old(self).chunk.line_view() + Seq::new(
                2,
                |j: int| line,
            ));
            let bytes = seq![opcode_byte(Opcode::Constant), i as u8];
            assert(depth_after(bytes, 0) == Some(1int)) by {
                reveal_with_fuel(depth_after, 2);
                assert(bytes.subrange(2, 2) == Seq::<u8>::empty());
            }
            lemma_appends_bytes(old(self).chunk.code@, bytes, 0, 1);
            assert(old(self).chunk.code@ + bytes == self.chunk.code@);
        }
    }

    fn number(&mut self)
        requires
            old(self).wf(),
            !old(self).had_error ==> old(self).index@ >= 1 && prefix_rule(old(self).previous.token_type) == Some(PrefixRule::Number),
        ensures
            final(self).index@ >= old(self).index@,
            Self::steps_to(*old(self), *final(self), sp_leaf(old(self).numbers@, old(self).previous.token_type, old(self).previous.lexeme@, old(self).previous.line, old(self).state())),
            final(self).wf(),
            final(self).lexer.text() == old(self).lexer.text(),
            final(self).numbers == old(self).numbers,
            old(self).had_error ==> final(self).had_error,
            final(self).lexer == old(self).lexer,
            final(self).current == old(self).current,
            final(self).previous == old(self).previous,
            !final(self).had_error ==> appends(old(self).chunk.code@, final(self).chunk.code@, 0, 1),
    {
        if self.next_number >= self.numbers.len() {
            self.error("No value for number literal");
            return;
        }
        let bits = self.numbers[self.next_number];
        self.next_number = self.next_number + 1;
        proof {
            assert(old(self).numbers@[old(self).next_number as int] == bits);
        }
        proof {
            assert(self.numbers@.subrange(0, self.next_number as int) == self.numbers@.subrange(
                0,
                self.next_number - 1,
            ) + seq![bits]);
        }
        self.emit_constant(Value::Number(bits));
    }

    /// Emits the string between the quotes of the previous token.
    fn string(&mut self)
        requires
            old(self).wf(),
            !old(self).had_error ==> old(self).index@ >= 1 && prefix_rule(old(self).previous.token_type) == Some(PrefixRule::String),
        ensures
            final(self).index@ >= old(self).index@,
            Self::steps_to(*old(self), *final(self), sp_leaf(old(self).numbers@, old(self).previous.token_type, old(self).previous.lexeme@, old(self).previous.line, old(self).state())),
            final(self).wf(),
            final(self).lexer.text() == old(self).lexer.text(),
            final(self).numbers == old(self).numbers,
            old(self).had_error ==> final(self).had_error,
            final(self).lexer == old(self).lexer,
            final(self).current == old(self).current,
            final(self).previous == old(self).previous,
            !final(self).had_error ==> appends(old(self).chunk.code@, final(self).chunk.code@, 0, 1),
    {
        let lexeme = self.previous.lexeme;
        let n = lexeme.unicode_len();
        let inner = if n >= 2 {
            lexeme.substring_char(1, n - 1)
        } else {
            proof {
                reveal_strlit("");
            }
            ""
        };
        proof {
            assert(inner@ == unquote(lexeme@));
        }
        self.emit_constant(Value::string(String::from_str(inner)));
    }

    fn literal(&mut self)
        requires
            old(self).wf(),
            prefix_rule(old(self).previous.token_type) == Some(PrefixRule::Literal),
            !old(self).had_error ==> old(self).index@ >= 1,
        ensures
            final(self).index@ >= old(self).index@,
            Self::steps_to(*old(self), *final(self), sp_leaf(old(self).numbers@, old(self).previous.token_type, old(self).previous.lexeme@, old(self).previous.line, old(self).state())),
            final(self).wf(),
            final(self).lexer.text() == old(self).lexer.text(),
            final(self).numbers == old(self).numbers,
            old(self).had_error ==> final(self).had_error,
            final(self).lexer == old(self).lexer,
            final(self).current == old(self).current,
            final(self).previous == old(self).previous,
            !final(self).had_error ==> appends(old(self).chunk.code@, final(self).chunk.code@, 0, 1),
    {
        match self.previous.token_type {
            TokenType::False => self.emit_constant(Value::Bool(false)),
            TokenType::True => self.emit_constant(Value::Bool(true)),
            TokenType::Nil => self.emit_constant(Value::Nil),
            _ => {},
        }
    }

    fn grouping(&mut self)
        requires
            old(self).wf(),
            !old(self).had_error ==> old(self).index@ >= 1,
        ensures
            final(self).index@ >= old(self).index@,
            Self::steps_to(*old(self), *final(self), sp_grouping(old(self).toks(), old(self).numbers@, old(self).state())),
            final(self).wf(),
            final(self).lexer.text() == old(self).lexer.text(),
            final(self).numbers == old(self).numbers,
            old(self).had_error ==> final(self).had_error,
            final(self).measure() <= old(self).measure(),
            !final(self).had_error ==> appends(old(self).chunk.code@, final(self).chunk.code@, 0, 1),
        decreases old(self).measure(), 2nat,
    {
        self.parse_precedence(Precedence::Assignment);
        self.consume(TokenType::RightParen, "Expect ')' after expression");
    }

    fn unary(&mut self)
        requires
            old(self).wf(),
            !old(self).had_error ==> old(self).index@ >= 1,
        ensures
            final(self).index@ >= old(self).index@,
            Self::steps_to(*old(self), *final(self), sp_unary(old(self).toks(), old(self).numbers@, old(self).previous.token_type, old(self).state())),
            final(self).wf(),
            final(self).lexer.text() == old(self).lexer.text(),
            final(self).numbers == old(self).numbers,
            old(self).had_error ==> final(self).had_error,
            final(self).measure() <= old(self).measure(),
            !final(self).had_error ==> appends(old(self).chunk.code@, final(self).chunk.code@, 0, 1),
        decreases old(self).measure(), 2nat,
    {
        let op_type = self.previous.token_type;
        self.parse_precedence(Precedence::Unary);
        let ghost c1 = self.chunk.code@;
        let ghost mid = *self;
        let op: u8 = match op_type {
            TokenType::Minus => Opcode::Neg.into(),
            _ => Opcode::Not.into(),
        };
        self.emit_byte(op);
        proof {
            if !self.had_error {
                assert(self.chunk.line_view() =~= mid.chunk.line_view() + Seq::new(
                    1,
                    |j: int| mid.previous.line,
                ));
                assert(self.chunk.code@ =~= mid.chunk.code@ + seq![op]);
            }
        }
        proof {
            if !self.had_error {
                let bytes = seq![op];
                assert(depth_after(bytes, 1) == Some(1int)) by {
                    reveal_with_fuel(depth_after, 2);
                    assert(bytes.subrange(1, 1) == Seq::<u8>::empty());
                }
                lemma_appends_bytes(c1, bytes, 1, 1);
                assert(c1 + bytes == self.chunk.code@);
                lemma_appends_trans(old(self).chunk.code@, c1, self.chunk.code@, 0, 1, 1);
            }
        }
    }

    fn binary(&mut self)
        requires
            old(self).wf(),
            infix_rule(old(self).previous.token_type) is Some,
            !old(self).had_error ==> old(self).index@ >= 1,
        ensures
            final(self).index@ >= old(self).index@,
            Self::steps_to(*old(self), *final(self), sp_binary(old(self).toks(), old(self).numbers@, old(self).previous.token_type, old(self).state())),
            final(self).wf(),
            final(self).lexer.text() == old(self).lexer.text(),
            final(self).numbers == old(self).numbers,
            old(self).had_error ==> final(self).had_error,
            final(self).measure() <= old(self).measure(),
            !final(self).had_error ==> appends(old(self).chunk.code@, final(self).chunk.code@, 1, 1),
        decreases old(self).measure(), 2nat,
    {
        let op_type = self.previous.token_type;
        let rule = get_parse_rule(op_type);
        self.parse_precedence(rule.precedence.plus_one());
        let ghost c1 = self.chunk.code@;
        let ghost mid = *self;
        // `!=`, `>=` and `<=` are the negations of `==`, `<` and `>`.
        let (op, negate): (Opcode, bool) = match op_type {
            TokenType::Plus => (Opcode::Add, false),
            TokenType::Minus => (Opcode::Sub, false),
            TokenType::Star => (Opcode::Mul, false),
            TokenType::Slash => (Opcode::Div, false),
            TokenType::EqualEqual => (Opcode::Equal, false),
            TokenType::BangEqual => (Opcode::Equal, true),
            TokenType::Greater => (Opcode::Greater, false),
            TokenType::GreaterEqual => (Opcode::Less, true),
            TokenType::Less => (Opcode::Less, false),
            _ => (Opcode::Greater, true),
        };
        self.emit_byte(op.into());
        if negate {
            self.emit_byte(Opcode::Not.into());
        }
        proof {
            let bc = binary_code(op_type);
            assert(bc == if negate {
                seq![opcode_byte(op), opcode_byte(Opcode::Not)]
            } else {
                seq![opcode_byte(op)]
            });
            if negate {
                assert(self.chunk.code@ =~= c1 + bc);
                assert(self.chunk.line_view() =~= mid.chunk.line_view() + Seq::new(
                    2,
                    |j: int| mid.previous.line,
                ));
            } else {
                assert(self.chunk.code@ =~= c1 + bc);
                assert(self.chunk.line_view() =~= mid.chunk.line_view() + Seq::new(
                    1,
                    |j: int| mid.previous.line,
                ));
            }
        }
        proof {
            if !self.had_error {
                let bytes = if negate {
                    seq![opcode_byte(op), opcode_byte(Opcode::Not)]
                } else {
                    seq![opcode_byte(op)]
                };
                assert(depth_after(bytes, 2) == Some(1int)) by {
                    reveal_with_fuel(depth_after, 3);
                    if negate {
                        let tail = bytes.subrange(1, 2);
                        assert(tail == seq![opcode_byte(Opcode::Not)]);
                        assert(tail.subrange(1, 1) == Seq::<u8>::empty());
                    } else {
                        assert(bytes.subrange(1, 1) == Seq::<u8>::empty());
                    }
                }
                lemma_appends_bytes(c1, bytes, 2, 1);
                assert(c1 + bytes == self.chunk.code@);
                lemma_appends_shift(old(self).chunk.code@, c1, 0, 1, 1);
                lemma_appends_trans(old(self).chunk.code@, c1, self.chunk.code@, 1, 2, 1);
            }
        }
    }

    /// Compiles an expression whose operators bind at least as tightly as
    /// `prec`.
    fn parse_precedence(&mut self, prec: Precedence)
        requires
            old(self).wf(),
            level(prec) >= 1,
            !old(self).had_error ==> old(self).index@ >= 0,
        ensures
            !final(self).had_error ==> final(self).index@ > old(self).index@,
            final(self).index@ >= old(self).index@,
            Self::steps_to(*old(self), *final(self), sp_expr(old(self).toks(), old(self).numbers@, prec, old(self).state())),
            final(self).wf(),
            final(self).lexer.text() == old(self).lexer.text(),
            final(self).numbers == old(self).numbers,
            old(self).had_error ==> final(self).had_error,
            final(self).measure() <= old(self).measure(),
            !final(self).had_error ==> appends(old(self).chunk.code@, final(self).chunk.code@, 0, 1),
        decreases old(self).measure(), 1nat,
    {
        let ghost m0 = self.measure();
        if self.current.token_type == TokenType::EOF {
            // Nothing is left to parse: no token can start an expression.
            let token = self.current;
            self.error_at(token, "Expect expression");
            return;
        }
        self.advance();
        let ghost after_advance = *self;
        let prefix = get_parse_rule(self.previous.token_type).prefix;
        match prefix {
            Some(PrefixRule::Grouping) => self.grouping(),
            Some(PrefixRule::Unary) => self.unary(),
            Some(PrefixRule::Number) => self.number(),
            Some(PrefixRule::String) => self.string(),
            Some(PrefixRule::Literal) => self.literal(),
            None => {
                self.error("Expect expression");
                return;
            },
        }
        while u8::from(prec) <= u8::from(get_parse_rule(self.current.token_type).precedence)
            invariant
                self.wf(),
                self.lexer.text() == old(self).lexer.text(),
                self.numbers == old(self).numbers,
                !self.had_error ==> appends(old(self).chunk.code@, self.chunk.code@, 0, 1),
                level(prec) >= 1,
                old(self).had_error ==> self.had_error,
                self.measure() < m0,
                m0 == old(self).measure(),
                self.index@ >= old(self).index@,
                !old(self).had_error && self.had_error ==> sp_expr(
                    old(self).toks(),
                    old(self).numbers@,
                    prec,
                    old(self).state(),
                ) is None,
                !self.had_error ==> self.index@ > old(self).index@ && sp_expr(
                    old(self).toks(),
                    old(self).numbers@,
                    prec,
                    old(self).state(),
                ) == sp_infix(old(self).toks(), old(self).numbers@, prec, self.state()),
            decreases self.measure(),
        {
            proof {
                assert(self.current.token_type != TokenType::EOF);
            }
            let ghost before = *self;
            self.advance();
            let infix = get_parse_rule(self.previous.token_type).infix;
            let ghost c1 = self.chunk.code@;
            match infix {
                Some(InfixRule::Binary) => {
                    self.binary();
                    proof {
                        if !self.had_error {
                            lemma_appends_trans(old(self).chunk.code@, c1, self.chunk.code@, 0, 1, 1);
                        }
                    }
                },
                None => {
                    self.error("Expect expression");
                    return;
                },
            }
        }
    }
}

/// `w` is `a` digits, then nothing or a `.` and more digits.
pub open spec fn literal_split(w: Seq<char>, a: int) -> bool {
    &&& 1 <= a <= w.len()
    &&& forall|i: int| 0 <= i < a ==> is_digit(#[trigger] w[i])
    &&& a == w.len() || (a + 1 < w.len() && w[a] == '.' && forall|i: int|
        a < i < w.len() ==> is_digit(#[trigger] w[i]))
}

/// A number literal's text: digits, then optionally `.` and digits.
pub open spec fn is_number_literal(w: Seq<char>) -> bool {
    exists|a: int| #[trigger] literal_split(w, a)
}

/// The texts of the number tokens that the scanner meets from `q` on, in
/// order.
pub open spec fn literals_from(s: Seq<char>, q: int) -> Seq<Seq<char>>
    decreases s.len() - q,
{
    let p = ws_end(s, q, false);
    let (t, e) = scan(s, p);
    if q < 0 || p >= s.len() || e <= q || e > s.len() {
        Seq::empty()
    } else {
        let rest = literals_from(s, e);
        if t == TokenType::Number {
            seq![s.subrange(p, e)] + rest
        } else {
            rest
        }
    }
}

/// The text of each number literal of `source`, in order: the values that
/// `compile` takes are these literals read as doubles.
pub fn number_literals(source: &str) -> (r: Vec<String>)
    requires
        source@.len() < usize::MAX,
    ensures
        r@.map_values(|x: String| x@) == literals_from(source@, 0),
        forall|i: int| 0 <= i < r@.len() ==> is_number_literal(#[trigger] r@[i]@),
{
    let mut lexer = Lexer::new(source);
    let mut found: Vec<String> = Vec::new();
    loop
        invariant
            lexer.wf(),
            lexer.text() == source@,
            0 <= lexer.position() <= lexer.text().len(),
            forall|i: int| 0 <= i < found@.len() ==> is_number_literal(#[trigger] found@[i]@),
            found@.map_values(|x: String| x@) + literals_from(source@, lexer.position())
                == literals_from(source@, 0),
        decreases lexer.text().len() - lexer.position(),
    {
        let ghost s = lexer.text();
        let ghost q = lexer.position();
        let ghost before = found@;
        proof {
            lemma_scan_progress(s, q);
        }
        let token = lexer.lex_token();
        match token.token_type {
            TokenType::EOF => {
                proof {
                    assert(found@.map_values(|x: String| x@) + Seq::<Seq<char>>::empty()
                        == found@.map_values(|x: String| x@));
                }
                return found;
            },
            TokenType::Number => {
                proof {
                    let p = ws_end(s, q, false);
                    lemma_number_text(s, p);
                }
                found.push(String::from_str(token.lexeme));
                proof {
                    let p = ws_end(s, q, false);
                    let e = lexer.position();
                    assert(found@.map_values(|x: String| x@) == before.map_values(|x: String| x@).push(
                        s.subrange(p, e),
                    ));
                    assert(before.map_values(|x: String| x@).push(s.subrange(p, e))
                        + literals_from(s, e) == before.map_values(|x: String| x@) + (seq![
                        s.subrange(p, e)] + literals_from(s, e)));
                }
            },
            _ => {},
        }
    }
}

proof fn lemma_digit_run(s: Seq<char>, p: int)
    requires
        0 <= p <= s.len(),
    ensures
        p <= run_end(s, p, digit_fn()) <= s.len(),
        forall|i: int| p <= i < run_end(s, p, digit_fn()) ==> is_digit(#[trigger] s[i]),
        run_end(s, p, digit_fn()) < s.len() ==> !is_digit(s[run_end(s, p, digit_fn())]),
    decreases s.len() - p,
{
    if p < s.len() && is_digit(s[p]) {
        lemma_digit_run(s, p + 1);
    }
}

/// A number token's text is a number literal.
proof fn lemma_number_text(s: Seq<char>, p: int)
    requires
        0 <= p < s.len(),
        scan(s, p).0 == TokenType::Number,
    ensures
        is_number_literal(s.subrange(p, scan(s, p).1)),
{
    let c = s[p];
    assert(is_digit(c));
    lemma_digit_run(s, p + 1);
    let e = run_end(s, p + 1, digit_fn());
    let end = number_end(s, p + 1);
    assert(scan(s, p).1 == end);
    let w = s.subrange(p, end);
    let a = e - p;
    if e + 1 < s.len() && s[e] == '.' && is_digit(s[e + 1]) {
        lemma_digit_run(s, e + 1);
        assert(forall|i: int| 0 <= i < a ==> is_digit(#[trigger] w[i]));
        assert(forall|i: int| a < i < w.len() ==> is_digit(#[trigger] w[i]));
        assert(w[a] == '.');
        assert(a + 1 < w.len());
    } else {
        assert(forall|i: int| 0 <= i < a ==> is_digit(#[trigger] w[i]));
        assert(a == w.len());
    }
    assert(literal_split(w, a));
}

/// Compiles `source`, one expression, into a chunk that ends in `Return`.
/// `numbers` holds the value of each number literal (as an IEEE-754 bit
/// pattern), in the order in which the literals stand in the source. The
/// chunk is exactly what `compiled` gives; where that is `None` (a scanner or
/// syntax error, too few number values, too many constants) the result is the
/// diagnostics.
pub fn compile(source: &str, numbers: &Vec<u64>) -> (r: Result<Chunk, InterpretError>)
    requires
        source@.len() < usize::MAX,
    ensures
        match r {
            Ok(chunk) => {
                &&& chunk.wf()
                &&& code_ok(chunk.code@, chunk.constants@.len())
                &&& chunk.constants@.len() <= MAX_CONSTANTS
                &&& chunk.code@.len() > 0
                &&& chunk.code@.last() == opcode_byte(Opcode::Return)
            },
            Err(InterpretError::CompileError(d)) => d@.len() > 0,
            Err(_) => false,
        },
        r is Ok ==> scans_clean(source@, 0),
        match compiled(source@, numbers@) {
            Some(st) => r is Ok && r->Ok_0.code@ == st.1.push(opcode_byte(Opcode::Return))
                && view_stack(r->Ok_0.constants@) == st.2 && r->Ok_0.line_view() == st.4.push(
                prev_line(tokens_from(source@, 0), st),
            ),
            None => r is Err,
        },
        r is Ok ==> depth_after(r->Ok_0.code@.drop_last(), 0) == Some(1int),
        r is Ok ==> ({
            let found = numbers_in(view_stack(r->Ok_0.constants@));
            found.len() <= numbers@.len() && found == numbers@.subrange(0, found.len() as int)
        }),
{
    let mut parser = Parser::new(source, numbers);
    parser.advance();
    parser.parse_precedence(Precedence::Assignment);
    if parser.current.token_type != TokenType::EOF {
        let token = parser.current;
        parser.error_at(token, "Expect end of expression");
    }
    proof {
        if !parser.had_error {
            let s = parser.lexer.text();
            assert(parser.lexer.position() == s.len());
            lemma_scan_progress(s, s.len() as int);
        }
    }
    let ghost body = parser.chunk.code@;
    parser.emit_byte(Opcode::Return.into());
    proof {
        if !parser.had_error {
            assert(numbers_in(view_stack(parser.chunk.constants@)) + Seq::<u64>::empty()
                == numbers_in(view_stack(parser.chunk.constants@)));
            assert(body.subrange(0, 0) == Seq::<u8>::empty());
            assert(body.subrange(0, body.len() as int) == body);
            assert(parser.chunk.code@.drop_last() == body);
        }
    }
    if parser.had_error {
        Err(InterpretError::CompileError(parser.diagnostics))
    } else {
        Ok(parser.chunk)
    }
}

} // verus!
