use vstd::prelude::*;
use vstd::string::StrSliceExecFns;
use vstd::std_specs::iter::IteratorSpec;
use itertools::MultiPeek;
use std::vec::IntoIter;
use crate::token::{Token, TokenType};

verus! {

#[verifier::external_type_specification]
#[verifier::external_body]
#[verifier::reject_recursive_types(I)]
pub struct ExMultiPeek<I: Iterator>(MultiPeek<I>);

/// The characters that a look-ahead adaptor has yet to yield: its peek
/// buffer, then what its inner iterator has left.
pub uninterp spec fn pending(p: MultiPeek<IntoIter<char>>) -> Seq<char>;

/// How many pending characters the adaptor's peek cursor has passed.
pub uninterp spec fn cursor(p: MultiPeek<IntoIter<char>>) -> nat;

/// Relies on `itertools::multipeek`: over a vector's iterator the adaptor
/// yields the vector's items in order, with the peek cursor at the start.
#[verifier::external_body]
fn look_ahead(chars: Vec<char>) -> (r: MultiPeek<IntoIter<char>>)
    ensures
        pending(r) == chars@,
        cursor(r) == 0,
{
    itertools::multipeek(chars)
}

/// Relies on `MultiPeek::peek`: gives the item at the cursor and moves the
/// cursor past it, or gives `None` when no item is left there; no item is
/// consumed.
#[verifier::external_body]
fn peek_at_cursor(p: &mut MultiPeek<IntoIter<char>>) -> (r: Option<char>)
    ensures
        pending(*final(p)) == pending(*old(p)),
        cursor(*old(p)) < pending(*old(p)).len() ==> r == Some(
            pending(*old(p))[cursor(*old(p)) as int],
        ) && cursor(*final(p)) == cursor(*old(p)) + 1,
        cursor(*old(p)) >= pending(*old(p)).len() ==> r is None && cursor(*final(p)) == cursor(
            *old(p),
        ),
{
    p.peek().copied()
}

/// Relies on `MultiPeek::reset_peek`: moves the cursor back to the first
/// pending item.
#[verifier::external_body]
fn rewind(p: &mut MultiPeek<IntoIter<char>>)
    ensures
        pending(*final(p)) == pending(*old(p)),
        cursor(*final(p)) == 0,
{
    p.reset_peek()
}

/// Relies on `MultiPeek`'s `Iterator::next`: gives the first pending item and
/// drops it, and moves the cursor back to the start.
#[verifier::external_body]
fn take_next(p: &mut MultiPeek<IntoIter<char>>) -> (r: Option<char>)
    ensures
        cursor(*final(p)) == 0,
        pending(*old(p)).len() > 0 ==> r == Some(pending(*old(p))[0]) && pending(*final(p))
            == pending(*old(p)).drop_first(),
        pending(*old(p)).len() == 0 ==> r is None && pending(*final(p)) == pending(*old(p)),
{
    p.next()
}

/// What `char::is_alphabetic` returns for `c` (Unicode's Alphabetic property).
pub uninterp spec fn alphabetic(c: char) -> bool;

/// What `char::is_alphanumeric` returns for `c` (Alphabetic or Numeric).
pub uninterp spec fn alphanumeric(c: char) -> bool;

/// Relies on `char::is_alphabetic`: the answer depends on the character alone.
#[verifier::external_body]
fn is_alphabetic(c: char) -> (r: bool)
    ensures
        r == alphabetic(c),
{
    c.is_alphabetic()
}

/// Relies on `char::is_alphanumeric`: the answer depends on the character alone.
#[verifier::external_body]
fn is_alphanumeric(c: char) -> (r: bool)
    ensures
        r == alphanumeric(c),
{
    c.is_alphanumeric()
}

pub open spec fn is_digit(c: char) -> bool {
    '0' <= c && c <= '9'
}

/// The number of line breaks in `s`.
pub open spec fn newlines(s: Seq<char>) -> nat
    decreases s.len(),
{
    if s.len() == 0 {
        0
    } else {
        newlines(s.drop_last()) + if s.last() == '\n' {
            1nat
        } else {
            0nat
        }
    }
}

/// The source line of the character at index `p`, counting from 1.
pub open spec fn line_at(s: Seq<char>, p: int) -> nat {
    1 + newlines(s.subrange(0, p))
}

/// Where the whitespace and `//` comments that start at `p` end. Inside a
/// comment everything up to (not including) the next line break is skipped.
pub open spec fn ws_end(s: Seq<char>, p: int, in_comment: bool) -> int
    decreases s.len() - p, if in_comment {
        1int
    } else {
        0int
    },
{
    if p < 0 || p >= s.len() {
        p
    } else if in_comment {
        if s[p] == '\n' {
            ws_end(s, p, false)
        } else {
            ws_end(s, p + 1, true)
        }
    } else if s[p] == ' ' || s[p] == '\r' || s[p] == '\t' || s[p] == '\n' {
        ws_end(s, p + 1, false)
    } else if s[p] == '/' && p + 1 < s.len() && s[p + 1] == '/' {
        ws_end(s, p + 2, true)
    } else {
        p
    }
}

/// The end of the run of characters from `p` that satisfy `f`.
pub open spec fn run_end(s: Seq<char>, p: int, f: spec_fn(char) -> bool) -> int
    decreases s.len() - p,
{
    if 0 <= p < s.len() && f(s[p]) {
        run_end(s, p + 1, f)
    } else {
        p
    }
}

pub open spec fn digit_fn() -> spec_fn(char) -> bool {
    |c: char| is_digit(c)
}

pub open spec fn ident_fn() -> spec_fn(char) -> bool {
    |c: char| alphanumeric(c)
}

pub open spec fn not_quote_fn() -> spec_fn(char) -> bool {
    |c: char| c != '"'
}

/// The character classes that the scanner consumes runs of: digits, the rest
/// of a word, the inside of a string.
pub open spec fn run_fn(which: u8) -> spec_fn(char) -> bool {
    if which == 0 {
        digit_fn()
    } else if which == 1 {
        ident_fn()
    } else {
        not_quote_fn()
    }
}

/// The end of a number literal whose first digit is at `p - 1`: digits, then
/// a `.` and digits only when a digit follows the `.`.
pub open spec fn number_end(s: Seq<char>, p: int) -> int {
    let e = run_end(s, p, digit_fn());
    if e + 1 < s.len() && s[e] == '.' && is_digit(s[e + 1]) {
        run_end(s, e + 1, digit_fn())
    } else {
        e
    }
}

/// The kind of a word: the keyword it spells, else `Identifier`.
pub open spec fn keyword_type(w: Seq<char>) -> TokenType {
    if w == seq!['a', 'n', 'd'] {
        TokenType::And
    } else if w == seq!['c', 'l', 'a', 's', 's'] {
        TokenType::Class
    } else if w == seq!['e', 'l', 's', 'e'] {
        TokenType::Else
    } else if w == seq!['f', 'a', 'l', 's', 'e'] {
        TokenType::False
    } else if w == seq!['f', 'o', 'r'] {
        TokenType::For
    } else if w == seq!['f', 'u', 'n'] {
        TokenType::Fun
    } else if w == seq!['i', 'f'] {
        TokenType::If
    } else if w == seq!['n', 'i', 'l'] {
        TokenType::Nil
    } else if w == seq!['o', 'r'] {
        TokenType::Or
    } else if w == seq!['p', 'r', 'i', 'n', 't'] {
        TokenType::Print
    } else if w == seq!['r', 'e', 't', 'u', 'r', 'n'] {
        TokenType::Return
    } else if w == seq!['s', 'u', 'p', 'e', 'r'] {
        TokenType::Super
    } else if w == seq!['t', 'h', 'i', 's'] {
        TokenType::This
    } else if w == seq!['t', 'r', 'u', 'e'] {
        TokenType::True
    } else if w == seq!['v', 'a', 'r'] {
        TokenType::Var
    } else if w == seq!['w', 'h', 'i', 'l', 'e'] {
        TokenType::While
    } else {
        TokenType::Identifier
    }
}

/// The kind of a one-character token, or of the two-character token that
/// starts with `c` when `next` is `=`.
pub open spec fn punct_type(c: char, eq_follows: bool) -> Option<TokenType> {
    if c == '(' {
        Some(TokenType::LeftParen)
    } else if c == ')' {
        Some(TokenType::RightParen)
    } else if c == '{' {
        Some(TokenType::LeftBrace)
    } else if c == '}' {
        Some(TokenType::RightBrace)
    } else if c == ';' {
        Some(TokenType::Semicolon)
    } else if c == ',' {
        Some(TokenType::Comma)
    } else if c == '.' {
        Some(TokenType::Dot)
    } else if c == '-' {
        Some(TokenType::Minus)
    } else if c == '+' {
        Some(TokenType::Plus)
    } else if c == '/' {
        Some(TokenType::Slash)
    } else if c == '*' {
        Some(TokenType::Star)
    } else if c == '!' {
        Some(if eq_follows { TokenType::BangEqual } else { TokenType::Bang })
    } else if c == '=' {
        Some(if eq_follows { TokenType::EqualEqual } else { TokenType::Equal })
    } else if c == '<' {
        Some(if eq_follows { TokenType::LessEqual } else { TokenType::Less })
    } else if c == '>' {
        Some(if eq_follows { TokenType::GreaterEqual } else { TokenType::Greater })
    } else {
        None
    }
}

pub open spec fn is_two_char_lead(c: char) -> bool {
    c == '!' || c == '=' || c == '<' || c == '>'
}

/// The token that starts at `p` (after whitespace), as its kind and the index
/// just past it. An unterminated string runs to the end of the source.
pub open spec fn scan(s: Seq<char>, p: int) -> (TokenType, int) {
    if p >= s.len() {
        (TokenType::EOF, p)
    } else {
        let c = s[p];
        let eq_follows = p + 1 < s.len() && s[p + 1] == '=';
        if punct_type(c, eq_follows) is Some {
            (
                punct_type(c, eq_follows)->0,
                if is_two_char_lead(c) && eq_follows {
                    p + 2
                } else {
                    p + 1
                },
            )
        } else if c == '"' {
            let close = run_end(s, p + 1, not_quote_fn());
            if close >= s.len() {
                (TokenType::Error, close)
            } else {
                (TokenType::String, close + 1)
            }
        } else if is_digit(c) {
            (TokenType::Number, number_end(s, p + 1))
        } else if alphabetic(c) {
            let e = run_end(s, p + 1, ident_fn());
            (keyword_type(s.subrange(p, e)), e)
        } else {
            (TokenType::Error, p + 1)
        }
    }
}

/// The message of the error token that the scanner gives at `p`.
pub open spec fn error_message(s: Seq<char>, p: int) -> Seq<char> {
    if s[p] == '"' {
        "Unterminated string"@
    } else {
        "Unexpected character"@
    }
}

proof fn lemma_run_end_bounds(s: Seq<char>, p: int, f: spec_fn(char) -> bool)
    requires
        0 <= p <= s.len(),
    ensures
        p <= run_end(s, p, f) <= s.len(),
    decreases s.len() - p,
{
    if p < s.len() && f(s[p]) {
        lemma_run_end_bounds(s, p + 1, f);
    }
}

proof fn lemma_ws_end_bounds(s: Seq<char>, p: int, in_comment: bool)
    requires
        0 <= p <= s.len(),
    ensures
        p <= ws_end(s, p, in_comment) <= s.len(),
    decreases s.len() - p, if in_comment {
        1int
    } else {
        0int
    },
{
    if p < s.len() {
        if in_comment {
            if s[p] == '\n' {
                lemma_ws_end_bounds(s, p, false);
            } else {
                lemma_ws_end_bounds(s, p + 1, true);
            }
        } else if s[p] == ' ' || s[p] == '\r' || s[p] == '\t' || s[p] == '\n' {
            lemma_ws_end_bounds(s, p + 1, false);
        } else if s[p] == '/' && p + 1 < s.len() && s[p + 1] == '/' {
            lemma_ws_end_bounds(s, p + 2, true);
        }
    }
}

/// Scanning from `q` stays within the source, gives `EOF` exactly when only
/// whitespace is left, and otherwise consumes at least one character.
pub proof fn lemma_scan_progress(s: Seq<char>, q: int)
    requires
        0 <= q <= s.len(),
    ensures
        ({
            let p = ws_end(s, q, false);
            let (t, e) = scan(s, p);
            &&& q <= p <= e <= s.len()
            &&& (t == TokenType::EOF <==> p == s.len())
            &&& t == TokenType::EOF ==> e == p
            &&& t != TokenType::EOF ==> e > p
        }),
{
    lemma_ws_end_bounds(s, q, false);
    let p = ws_end(s, q, false);
    if p < s.len() {
        lemma_run_end_bounds(s, p + 1, not_quote_fn());
        lemma_run_end_bounds(s, p + 1, digit_fn());
        lemma_run_end_bounds(s, p + 1, ident_fn());
        let e = run_end(s, p + 1, digit_fn());
        if e + 1 < s.len() {
            lemma_run_end_bounds(s, e + 1, digit_fn());
        }
    }
}

/// The scanner accepts `s` from `q` to the end: none of the tokens it meets
/// there is an error token.
pub open spec fn scans_clean(s: Seq<char>, q: int) -> bool
    decreases s.len() - q,
{
    let p = ws_end(s, q, false);
    let (t, e) = scan(s, p);
    if q < 0 || p >= s.len() || e <= q || e > s.len() {
        true
    } else {
        t != TokenType::Error && scans_clean(s, e)
    }
}

/// The tokens that the scanner gives from `q` on, each as its kind, its text
/// and the line on which it ends, ending with `EOF`.
pub open spec fn tokens_from(s: Seq<char>, q: int) -> Seq<(TokenType, Seq<char>, usize)>
    decreases s.len() - q,
{
    let p = ws_end(s, q, false);
    let (t, e) = scan(s, p);
    if q < 0 || p >= s.len() || e <= q || e > s.len() {
        seq![(TokenType::EOF, Seq::<char>::empty(), line_at(s, p) as usize)]
    } else {
        seq![(t, s.subrange(p, e), line_at(s, e) as usize)] + tokens_from(s, e)
    }
}

/// One step of the token stream: the token at `q`, then the rest.
pub proof fn lemma_tokens_step(s: Seq<char>, q: int)
    requires
        0 <= q <= s.len(),
    ensures
        ({
            let p = ws_end(s, q, false);
            let (t, e) = scan(s, p);
            &&& t == TokenType::EOF ==> tokens_from(s, q) == seq![
                (TokenType::EOF, Seq::<char>::empty(), line_at(s, p) as usize),
            ]
            &&& t != TokenType::EOF ==> tokens_from(s, q) == seq![
                (t, s.subrange(p, e), line_at(s, e) as usize),
            ] + tokens_from(s, e)
        }),
        tokens_from(s, q).len() >= 1,
{
    lemma_scan_progress(s, q);
}

/// A source whose first token opens a string that never closes is rejected
/// by the scanner.
pub proof fn lemma_unterminated_string_rejected(s: Seq<char>)
    requires
        ws_end(s, 0, false) < s.len(),
        s[ws_end(s, 0, false)] == '"',
        forall|i: int| ws_end(s, 0, false) < i < s.len() ==> #[trigger] s[i] != '"',
    ensures
        !scans_clean(s, 0),
{
    let p = ws_end(s, 0, false);
    lemma_scan_progress(s, 0);
    lemma_no_quote_run(s, p + 1);
}

proof fn lemma_no_quote_run(s: Seq<char>, p: int)
    requires
        1 <= p <= s.len(),
        forall|i: int| p <= i < s.len() ==> #[trigger] s[i] != '"',
    ensures
        run_end(s, p, not_quote_fn()) == s.len(),
    decreases s.len() - p,
{
    if p < s.len() {
        lemma_no_quote_run(s, p + 1);
    }
}

/// Produces the tokens of one source text, one at a time.
pub struct Lexer<'a> {
    source: &'a str,
    iter: MultiPeek<IntoIter<char>>,
    /// The number of characters of the source.
    length: usize,
    start: usize,
    current: usize,
    line: usize,
}

impl<'a> Lexer<'a> {
    /// The characters of the source.
    pub closed spec fn text(&self) -> Seq<char> {
        self.source@
    }

    /// The index of the next character to read.
    pub closed spec fn position(&self) -> int {
        self.current as int
    }

    /// The lexer's state is consistent; its position lies within the source.
    pub closed spec fn wf(&self) -> bool {
        &&& self.length == self.source@.len()
        &&& self.start <= self.current <= self.length
        &&& self.length < usize::MAX
        &&& self.line == line_at(self.source@, self.current as int)
        &&& pending(self.iter) == self.source@.subrange(self.current as int, self.length as int)
        &&& cursor(self.iter) == 0
    }

    pub fn new(source: &'a str) -> (r: Lexer<'a>)
        requires
            source@.len() < usize::MAX,
        ensures
            r.wf(),
            r.text() == source@,
            r.position() == 0,
            r.text().len() < usize::MAX,
    {
        broadcast use vstd::string::group_string_axioms;

        let mut it = source.chars();
        let mut chars: Vec<char> = Vec::new();
        loop
            invariant_except_break
                chars@ + it.remaining() == source@,
            ensures
                chars@ == source@,
            decreases source@.len() - chars@.len(),
        {
            match it.next() {
                Some(c) => {
                    chars.push(c);
                },
                None => {
                    break;
                },
            }
        }
        let n = chars.len();
        proof {
            assert(source@.subrange(0, n as int) == source@);
            assert(source@.subrange(0, 0) == Seq::<char>::empty());
        }
        Lexer { source, iter: look_ahead(chars), length: n, start: 0, current: 0, line: 1 }
    }

    fn is_at_end(&self) -> (r: bool)
        requires
            self.wf(),
        ensures
            r == (self.current >= self.source@.len()),
    {
        self.current >= self.length
    }

    /// The character `k` places ahead, if there is one.
    fn peek(&mut self, k: usize) -> (r: Option<char>)
        requires
            old(self).wf(),
            k <= 1,
        ensures
            final(self).wf(),
            final(self).source == old(self).source,
            final(self).start == old(self).start,
            final(self).current == old(self).current,
            final(self).line == old(self).line,
            old(self).current + k < old(self).source@.len() ==> r == Some(
                old(self).source@[old(self).current + k],
            ),
            old(self).current + k >= old(self).source@.len() ==> r is None,
    {
        let first = peek_at_cursor(&mut self.iter);
        let r = if k == 0 {
            first
        } else if first.is_none() {
            None
        } else {
            peek_at_cursor(&mut self.iter)
        };
        rewind(&mut self.iter);
        r
    }

    proof fn lemma_line_step(s: Seq<char>, p: int)
        requires
            0 <= p < s.len(),
        ensures
            line_at(s, p + 1) == line_at(s, p) + if s[p] == '\n' {
                1nat
            } else {
                0nat
            },
            line_at(s, p) <= p + 1,
    {
        assert(s.subrange(0, p + 1).drop_last() == s.subrange(0, p));
        Self::lemma_line_bound(s, p);
    }

    proof fn lemma_line_bound(s: Seq<char>, p: int)
        requires
            0 <= p <= s.len(),
        ensures
            line_at(s, p) <= p + 1,
        decreases p,
    {
        if p > 0 {
            Self::lemma_line_bound(s, p - 1);
            assert(s.subrange(0, p).drop_last() == s.subrange(0, p - 1));
        }
    }

    /// Consumes one character, keeping the line count.
    fn advance(&mut self) -> (c: char)
        requires
            old(self).wf(),
            old(self).current < old(self).source@.len(),
        ensures
            final(self).wf(),
            c == old(self).source@[old(self).current as int],
            final(self).current == old(self).current + 1,
            final(self).start == old(self).start,
            final(self).source == old(self).source,
    {
        let next = take_next(&mut self.iter);
        let c = match next {
            Some(c) => c,
            None => '\0',
        };
        proof {
            Self::lemma_line_step(self.source@, self.current as int);
            assert(self.source@.subrange(self.current as int, self.length as int).drop_first()
                =~= self.source@.subrange(self.current + 1, self.length as int));
        }
        if c == '\n' {
            self.line = self.line + 1;
        }
        self.current = self.current + 1;
        c
    }

    /// Consumes the next character when it is `expected`.
    fn check(&mut self, expected: char) -> (r: bool)
        requires
            old(self).wf(),
        ensures
            final(self).wf(),
            final(self).source == old(self).source,
            final(self).start == old(self).start,
            r == (old(self).current < old(self).source@.len() && old(self).source@[old(
                self,
            ).current as int] == expected),
            final(self).current == old(self).current + if r {
                1int
            } else {
                0int
            },
    {
        if self.is_at_end() {
            return false;
        }
        match self.peek(0) {
            Some(c) => {
                if c == expected {
                    self.advance();
                    true
                } else {
                    false
                }
            },
            None => false,
        }
    }

    fn make_token(&self, token_type: TokenType) -> (r: Token<'a>)
        requires
            self.wf(),
        ensures
            r.token_type == token_type,
            r.lexeme@ == self.source@.subrange(self.start as int, self.current as int),
            r.line == self.line,
    {
        Token {
            token_type,
            lexeme: self.source.substring_char(self.start, self.current),
            line: self.line,
        }
    }

    fn error_token(&self, message: &'a str) -> (r: Token<'a>)
        ensures
            r.token_type == TokenType::Error,
            r.lexeme@ == message@,
            r.line == self.line,
    {
        Token { token_type: TokenType::Error, lexeme: message, line: self.line }
    }

    /// Consumes the characters from the current one on that satisfy `f`.
    fn consume_run(&mut self, which: u8)
        requires
            old(self).wf(),
            which <= 2,
        ensures
            final(self).wf(),
            final(self).source == old(self).source,
            final(self).start == old(self).start,
            final(self).current == run_end(old(self).source@, old(self).current as int, run_fn(which)),
    {
        let ghost f = run_fn(which);
        let ghost s = self.source@;
        loop
            invariant_except_break
                self.wf(),
                self.source@ == s,
                self.source == old(self).source,
                self.start == old(self).start,
                which <= 2,
                f == run_fn(which),
                run_end(s, old(self).current as int, f) == run_end(s, self.current as int, f),
            ensures
                self.wf(),
                self.source == old(self).source,
                self.start == old(self).start,
                run_end(s, old(self).current as int, f) == self.current,
            decreases s.len() - self.current,
        {
            match self.peek(0) {
                Some(c) => {
                    if Self::in_run(which, c) {
                        self.advance();
                    } else {
                        break;
                    }
                },
                None => {
                    break;
                },
            }
        }
    }

    fn in_run(which: u8, c: char) -> (r: bool)
        ensures
            r == run_fn(which)(c),
    {
        if which == 0 {
            '0' <= c && c <= '9'
        } else if which == 1 {
            is_alphanumeric(c)
        } else {
            c != '"'
        }
    }

    fn string_token(&mut self) -> (r: Token<'a>)
        requires
            old(self).wf(),
            old(self).current == old(self).start + 1,
            old(self).source@[old(self).start as int] == '"',
        ensures
            final(self).wf(),
            final(self).source == old(self).source,
            final(self).start == old(self).start,
            (r.token_type, final(self).current as int) == scan(
                old(self).source@,
                old(self).start as int,
            ),
            r.token_type == TokenType::String ==> r.lexeme@ == final(self).source@.subrange(
                final(self).start as int,
                final(self).current as int,
            ),
            r.token_type == TokenType::Error ==> r.lexeme@ == error_message(
                old(self).source@,
                old(self).start as int,
            ),
            r.line == final(self).line,
    {
        self.consume_run(2);
        if self.is_at_end() {
            proof {
                reveal_strlit("Unterminated string");
            }
            self.error_token("Unterminated string")
        } else {
            self.advance();
            self.make_token(TokenType::String)
        }
    }

    fn number_token(&mut self) -> (r: Token<'a>)
        requires
            old(self).wf(),
            old(self).current == old(self).start + 1,
            is_digit(old(self).source@[old(self).start as int]),
        ensures
            final(self).wf(),
            final(self).source == old(self).source,
            final(self).start == old(self).start,
            r.token_type == TokenType::Number,
            final(self).current == number_end(old(self).source@, old(self).current as int),
            r.lexeme@ == final(self).source@.subrange(
                final(self).start as int,
                final(self).current as int,
            ),
            r.line == final(self).line,
    {
        self.consume_digits();
        let first = self.peek(0);
        let second = self.peek(1);
        match (first, second) {
            (Some('.'), Some(d)) => {
                if '0' <= d && d <= '9' {
                    self.advance();
                    self.consume_digits();
                }
            },
            _ => {},
        }
        self.make_token(TokenType::Number)
    }

    fn consume_digits(&mut self)
        requires
            old(self).wf(),
        ensures
            final(self).wf(),
            final(self).source == old(self).source,
            final(self).start == old(self).start,
            final(self).current == run_end(old(self).source@, old(self).current as int, digit_fn()),
    {
        self.consume_run(0)
    }

    fn identifier_token(&mut self) -> (r: Token<'a>)
        requires
            old(self).wf(),
            old(self).current == old(self).start + 1,
        ensures
            final(self).wf(),
            final(self).source == old(self).source,
            final(self).start == old(self).start,
            final(self).current == run_end(old(self).source@, old(self).current as int, ident_fn()),
            r.token_type == keyword_type(
                old(self).source@.subrange(old(self).start as int, final(self).current as int),
            ),
            r.lexeme@ == final(self).source@.subrange(
                final(self).start as int,
                final(self).current as int,
            ),
            r.line == final(self).line,
    {
        self.consume_run(1);
        let word = self.source.substring_char(self.start, self.current);
        let token_type = Self::check_keyword(word);
        self.make_token(token_type)
    }

    /// The keyword that `word` spells, else `Identifier`; dispatched on the
    /// first character.
    fn check_keyword(word: &str) -> (r: TokenType)
        ensures
            r == keyword_type(word@),
    {
        let n = word.unicode_len();
        if n < 2 || n > 6 {
            proof {
                Self::lemma_keyword_lengths(word@);
            }
            return TokenType::Identifier;
        }
        let c0 = word.get_char(0);
        let c1 = word.get_char(1);
        let (rest, kind): (&str, TokenType) = match c0 {
            'a' => ("and", TokenType::And),
            'c' => ("class", TokenType::Class),
            'e' => ("else", TokenType::Else),
            'f' => match c1 {
                'a' => ("false", TokenType::False),
                'o' => ("for", TokenType::For),
                'u' => ("fun", TokenType::Fun),
                _ => ("", TokenType::Identifier),
            },
            'i' => ("if", TokenType::If),
            'n' => ("nil", TokenType::Nil),
            'o' => ("or", TokenType::Or),
            'p' => ("print", TokenType::Print),
            'r' => ("return", TokenType::Return),
            's' => ("super", TokenType::Super),
            't' => match c1 {
                'h' => ("this", TokenType::This),
                'r' => ("true", TokenType::True),
                _ => ("", TokenType::Identifier),
            },
            'v' => ("var", TokenType::Var),
            'w' => ("while", TokenType::While),
            _ => ("", TokenType::Identifier),
        };
        proof {
            reveal_strlit("and");
            reveal_strlit("class");
            reveal_strlit("else");
            reveal_strlit("false");
            reveal_strlit("for");
            reveal_strlit("fun");
            reveal_strlit("if");
            reveal_strlit("nil");
            reveal_strlit("or");
            reveal_strlit("print");
            reveal_strlit("return");
            reveal_strlit("super");
            reveal_strlit("this");
            reveal_strlit("true");
            reveal_strlit("var");
            reveal_strlit("while");
            reveal_strlit("");
            assert("and"@ =~= seq!['a', 'n', 'd']);
            assert("class"@ =~= seq!['c', 'l', 'a', 's', 's']);
            assert("else"@ =~= seq!['e', 'l', 's', 'e']);
            assert("false"@ =~= seq!['f', 'a', 'l', 's', 'e']);
            assert("for"@ =~= seq!['f', 'o', 'r']);
            assert("fun"@ =~= seq!['f', 'u', 'n']);
            assert("if"@ =~= seq!['i', 'f']);
            assert("nil"@ =~= seq!['n', 'i', 'l']);
            assert("or"@ =~= seq!['o', 'r']);
            assert("print"@ =~= seq!['p', 'r', 'i', 'n', 't']);
            assert("return"@ =~= seq!['r', 'e', 't', 'u', 'r', 'n']);
            assert("super"@ =~= seq!['s', 'u', 'p', 'e', 'r']);
            assert("this"@ =~= seq!['t', 'h', 'i', 's']);
            assert("true"@ =~= seq!['t', 'r', 'u', 'e']);
            assert("var"@ =~= seq!['v', 'a', 'r']);
            assert("while"@ =~= seq!['w', 'h', 'i', 'l', 'e']);
            Self::lemma_dispatch(word@, rest@, kind);
        }
        if Self::same_chars(word, rest) {
            kind
        } else {
            TokenType::Identifier
        }
    }

    /// A word whose first two characters select the keyword `rest` is that
    /// keyword's kind when it spells `rest`, and an identifier otherwise.
    proof fn lemma_dispatch(w: Seq<char>, rest: Seq<char>, kind: TokenType)
        requires
            w.len() >= 2,
            kind == TokenType::Identifier ==> rest.len() == 0,
            kind != TokenType::Identifier ==> keyword_type(rest) == kind,
            forall|k: Seq<char>|
                #![trigger keyword_type(k)]
                k.len() >= 2 && k[0] == w[0] && k[1] == w[1] && keyword_type(k)
                    != TokenType::Identifier ==> k == rest,
        ensures
            keyword_type(w) == if w == rest {
                kind
            } else {
                TokenType::Identifier
            },
    {
        if keyword_type(w) != TokenType::Identifier {
            assert(w == rest);
        }
    }

    proof fn lemma_keyword_lengths(w: Seq<char>)
        requires
            w.len() < 2 || w.len() > 6,
        ensures
            keyword_type(w) == TokenType::Identifier,
    {
        if w.len() < 2 || w.len() > 6 {
            assert(seq!['a', 'n', 'd'].len() == 3);
            assert(seq!['i', 'f'].len() == 2);
            assert(seq!['o', 'r'].len() == 2);
            assert(seq!['r', 'e', 't', 'u', 'r', 'n'].len() == 6);
        }
    }

    /// Whether two strings hold the same characters.
    fn same_chars(a: &str, b: &str) -> (r: bool)
        ensures
            r == (a@ == b@),
    {
        let n = a.unicode_len();
        if n != b.unicode_len() {
            return false;
        }
        let mut i: usize = 0;
        while i < n
            invariant
                n == a@.len(),
                n == b@.len(),
                i <= n,
                a@.subrange(0, i as int) == b@.subrange(0, i as int),
            decreases n - i,
        {
            if a.get_char(i) != b.get_char(i) {
                return false;
            }
            proof {
                assert(a@.subrange(0, i + 1) == a@.subrange(0, i as int).push(a@[i as int]));
                assert(b@.subrange(0, i + 1) == b@.subrange(0, i as int).push(b@[i as int]));
            }
            i = i + 1;
        }
        proof {
            assert(a@.subrange(0, n as int) == a@);
            assert(b@.subrange(0, n as int) == b@);
        }
        true
    }

    /// Skips spaces, tabs, line breaks and `//` comments.
    fn skip_whitespace(&mut self)
        requires
            old(self).wf(),
        ensures
            final(self).wf(),
            final(self).source == old(self).source,
            final(self).start == old(self).start,
            final(self).current == ws_end(old(self).source@, old(self).current as int, false),
    {
        let ghost s = self.source@;
        let ghost p0 = self.current as int;
        let mut in_comment = false;
        loop
            invariant_except_break
                self.wf(),
                self.source == old(self).source,
                self.start == old(self).start,
                s == old(self).source@,
                p0 == old(self).current,
                ws_end(s, p0, false) == ws_end(s, self.current as int, in_comment),
            ensures
                self.wf(),
                self.source == old(self).source,
                self.start == old(self).start,
                ws_end(s, p0, false) == self.current,
            decreases s.len() - self.current, if in_comment {
                1int
            } else {
                0int
            },
        {
            let c = match self.peek(0) {
                Some(c) => c,
                None => {
                    break;
                },
            };
            if in_comment {
                if c == '\n' {
                    in_comment = false;
                } else {
                    self.advance();
                }
            } else if c == ' ' || c == '\r' || c == '\t' || c == '\n' {
                self.advance();
            } else if c == '/' && self.peek(1) == Some('/') {
                self.advance();
                self.advance();
                in_comment = true;
            } else {
                break;
            }
        }
    }

    /// Scans the next token. After the end of the source every call gives an
    /// `EOF` token.
    pub fn lex_token(&mut self) -> (r: Token<'a>)
        requires
            old(self).wf(),
        ensures
            final(self).wf(),
            final(self).text() == old(self).text(),
            0 <= final(self).position() <= final(self).text().len(),
            ({
                let s = old(self).text();
                let p = ws_end(s, old(self).position(), false);
                &&& (r.token_type, final(self).position()) == scan(s, p)
                &&& r.token_type == TokenType::Error ==> r.lexeme@ == error_message(s, p)
                &&& r.token_type != TokenType::Error ==> r.lexeme@ == s.subrange(
                    p,
                    final(self).position(),
                )
                &&& r.line == line_at(s, final(self).position())
            }),
    {
        self.skip_whitespace();
        self.start = self.current;
        if self.is_at_end() {
            return self.make_token(TokenType::EOF);
        }
        let c = self.advance();
        let ghost s = self.source@;
        let ghost p = self.start as int;
        match c {
            '(' => self.make_token(TokenType::LeftParen),
            ')' => self.make_token(TokenType::RightParen),
            '{' => self.make_token(TokenType::LeftBrace),
            '}' => self.make_token(TokenType::RightBrace),
            ';' => self.make_token(TokenType::Semicolon),
            ',' => self.make_token(TokenType::Comma),
            '.' => self.make_token(TokenType::Dot),
            '-' => self.make_token(TokenType::Minus),
            '+' => self.make_token(TokenType::Plus),
            '/' => self.make_token(TokenType::Slash),
            '*' => self.make_token(TokenType::Star),
            '!' => {
                let t = if self.check('=') {
                    TokenType::BangEqual
                } else {
                    TokenType::Bang
                };
                self.make_token(t)
            },
            '=' => {
                let t = if self.check('=') {
                    TokenType::EqualEqual
                } else {
                    TokenType::Equal
                };
                self.make_token(t)
            },
            '<' => {
                let t = if self.check('=') {
                    TokenType::LessEqual
                } else {
                    TokenType::Less
                };
                self.make_token(t)
            },
            '>' => {
                let t = if self.check('=') {
                    TokenType::GreaterEqual
                } else {
                    TokenType::Greater
                };
                self.make_token(t)
            },
            '"' => self.string_token(),
            '0'..='9' => self.number_token(),
            _ => {
                if is_alphabetic(c) {
                    self.identifier_token()
                } else {
                    proof {
                        reveal_strlit("Unexpected character");
                    }
                    self.error_token("Unexpected character")
                }
            },
        }
    }
}

} // verus!
