//! Tokenizer: turns source text into a finite sequence of positioned tokens.
//!
//! `token_seq` is the mathematical definition of the token sequence that a
//! given character sequence denotes, starting from a given line and column;
//! `tokenise` returns a `Tokens` value whose `next` method is proved to
//! enumerate exactly that sequence.

use vstd::prelude::*;
use vstd::std_specs::iter::IteratorSpec;

verus! {

broadcast use vstd::string::group_string_axioms;

/// Single-character operator and punctuation tokens.
///
/// `Comma` is part of the token vocabulary that the declaration parser
/// consumes; the tokenizer itself recognizes only the other symbols, so
/// source text that holds a comma stops lexing there, the way any
/// unrecognized character ends the token stream.
#[derive(Debug, PartialEq, Eq, Clone, Copy)]
pub enum Symbol {
    Ampersand,
    Asterisk,
    BraceLeft,
    BraceRight,
    BracketLeft,
    BracketRight,
    Comma,
    Equal,
    Minus,
    Slash,
    ParenthesisLeft,
    ParenthesisRight,
    GreaterThan,
    LesserThan,
    Caret,
    VerticalBar,
    Percent,
    Plus,
    Colon,
    Semicolon,
}

/// Reserved words, matched case-sensitively against alphanumeric runs.
#[derive(Debug, PartialEq, Eq, Clone, Copy)]
pub enum Keyword {
    Function,
    U8,
    U16,
    U32,
    U64,
    U128,
    UBIG,
    I8,
    I16,
    I32,
    I64,
    I128,
    IBIG,
    F32,
    F64,
    Decimal,
    As,
    Else,
    For,
    If,
    Let,
    Return,
    Revert,
    While,
    Malleable,
    Asset,
    Address,
}

/// The classification of one token, with its text where it has any.
#[derive(Debug, PartialEq, Eq, Clone)]
pub enum TokenKind {
    Identifier(String),
    NumberLiteral(String),
    Keyword(Keyword),
    String(String),
    Symbol(Symbol),
}

/// A line/column pair; both components start at 1.
#[derive(Debug, PartialEq, Eq, Clone, Copy)]
pub struct Position {
    pub column: usize,
    pub line: usize,
}

impl Position {
    pub fn new(column: usize, line: usize) -> (p: Position)
        ensures
            p.column == column,
            p.line == line,
    {
        Position { column, line }
    }
}

impl Default for Position {
    /// The position of the first character of a source text: line 1, column 1.
    fn default() -> (p: Position)
        ensures
            p.column == 1,
            p.line == 1,
    {
        Position::new(1, 1)
    }
}

/// A classified, positioned lexical unit.
#[derive(Debug, PartialEq, Eq, Clone)]
pub struct Token {
    pub kind: TokenKind,
    pub position: Position,
}

impl Token {
    pub fn new(kind: TokenKind, position: Position) -> (t: Token)
        ensures
            t.kind == kind,
            t.position == position,
    {
        Token { kind, position }
    }
}

/// Mathematical counterpart of `TokenKind`: token text as a `Seq<char>`.
pub enum TokenKindView {
    Identifier(Seq<char>),
    NumberLiteral(Seq<char>),
    Keyword(Keyword),
    StringLit(Seq<char>),
    Symbol(Symbol),
}

/// Mathematical counterpart of `Token`: kind plus unbounded line and column.
pub struct TokenView {
    pub kind: TokenKindView,
    pub line: nat,
    pub column: nat,
}

impl View for TokenKind {
    type V = TokenKindView;

    open spec fn view(&self) -> TokenKindView {
        match self {
            TokenKind::Identifier(s) => TokenKindView::Identifier(s@),
            TokenKind::NumberLiteral(s) => TokenKindView::NumberLiteral(s@),
            TokenKind::Keyword(k) => TokenKindView::Keyword(*k),
            TokenKind::String(s) => TokenKindView::StringLit(s@),
            TokenKind::Symbol(s) => TokenKindView::Symbol(*s),
        }
    }
}

impl View for Token {
    type V = TokenView;

    open spec fn view(&self) -> TokenView {
        TokenView {
            kind: self.kind@,
            line: self.position.line as nat,
            column: self.position.column as nat,
        }
    }
}

// ---------------------------------------------------------------------------
// Character classes
// ---------------------------------------------------------------------------
/// Whitespace, the set that `char::is_whitespace` recognizes.
pub open spec fn is_blank_char(c: char) -> bool {
    let u = c as u32;
    u == 0x09 || u == 0x0A || u == 0x0B || u == 0x0C || u == 0x0D || u == 0x20 || u == 0x85 || u
        == 0xA0 || u == 0x1680 || (0x2000 <= u && u <= 0x200A) || u == 0x2028 || u == 0x2029 || u
        == 0x202F || u == 0x205F || u == 0x3000
}

pub open spec fn is_digit_char(c: char) -> bool {
    0x30 <= c as u32 && c as u32 <= 0x39
}

pub open spec fn is_alpha_char(c: char) -> bool {
    let u = c as u32;
    (0x41 <= u && u <= 0x5A) || (0x61 <= u && u <= 0x7A)
}

/// A character that an identifier may contain: ASCII alphanumeric only.
pub open spec fn is_word_char(c: char) -> bool {
    is_alpha_char(c) || is_digit_char(c)
}

/// The symbol that a single character denotes on its own. `/` is absent:
/// it is resolved against comments first. `,` is absent from the source
/// vocabulary altogether.
pub open spec fn simple_symbol_of(c: char) -> Option<Symbol> {
    if c == ':' {
        Some(Symbol::Colon)
    } else if c == ';' {
        Some(Symbol::Semicolon)
    } else if c == '+' {
        Some(Symbol::Plus)
    } else if c == '-' {
        Some(Symbol::Minus)
    } else if c == '=' {
        Some(Symbol::Equal)
    } else if c == '>' {
        Some(Symbol::GreaterThan)
    } else if c == '<' {
        Some(Symbol::LesserThan)
    } else if c == '^' {
        Some(Symbol::Caret)
    } else if c == '%' {
        Some(Symbol::Percent)
    } else if c == '|' {
        Some(Symbol::VerticalBar)
    } else if c == '&' {
        Some(Symbol::Ampersand)
    } else if c == '*' {
        Some(Symbol::Asterisk)
    } else if c == '(' {
        Some(Symbol::ParenthesisLeft)
    } else if c == ')' {
        Some(Symbol::ParenthesisRight)
    } else if c == '{' {
        Some(Symbol::BraceLeft)
    } else if c == '}' {
        Some(Symbol::BraceRight)
    } else if c == '[' {
        Some(Symbol::BracketLeft)
    } else if c == ']' {
        Some(Symbol::BracketRight)
    } else {
        None
    }
}

/// The keyword that an alphanumeric run denotes, if any.
pub open spec fn keyword_of(w: Seq<char>) -> Option<Keyword> {
    if w == "function"@ {
        Some(Keyword::Function)
    } else if w == "let"@ {
        Some(Keyword::Let)
    } else if w == "u8"@ {
        Some(Keyword::U8)
    } else if w == "u16"@ {
        Some(Keyword::U16)
    } else if w == "u32"@ {
        Some(Keyword::U32)
    } else if w == "u64"@ {
        Some(Keyword::U64)
    } else if w == "u128"@ {
        Some(Keyword::U128)
    } else if w == "ubig"@ {
        Some(Keyword::UBIG)
    } else if w == "i8"@ {
        Some(Keyword::I8)
    } else if w == "i16"@ {
        Some(Keyword::I16)
    } else if w == "i32"@ {
        Some(Keyword::I32)
    } else if w == "i64"@ {
        Some(Keyword::I64)
    } else if w == "i128"@ {
        Some(Keyword::I128)
    } else if w == "ibig"@ {
        Some(Keyword::IBIG)
    } else if w == "f32"@ {
        Some(Keyword::F32)
    } else if w == "f64"@ {
        Some(Keyword::F64)
    } else if w == "decimal"@ {
        Some(Keyword::Decimal)
    } else if w == "malleable"@ {
        Some(Keyword::Malleable)
    } else if w == "asset"@ {
        Some(Keyword::Asset)
    } else if w == "address"@ {
        Some(Keyword::Address)
    } else if w == "revert"@ {
        Some(Keyword::Revert)
    } else if w == "if"@ {
        Some(Keyword::If)
    } else if w == "as"@ {
        Some(Keyword::As)
    } else if w == "else"@ {
        Some(Keyword::Else)
    } else if w == "return"@ {
        Some(Keyword::Return)
    } else if w == "while"@ {
        Some(Keyword::While)
    } else if w == "for"@ {
        Some(Keyword::For)
    } else {
        None
    }
}

/// The kind of token that an alphanumeric run yields: a keyword where the
/// run matches one exactly, an identifier otherwise.
pub open spec fn word_kind(w: Seq<char>) -> TokenKindView {
    match keyword_of(w) {
        Some(k) => TokenKindView::Keyword(k),
        None => TokenKindView::Identifier(w),
    }
}

// ---------------------------------------------------------------------------
// Scanning helpers
// ---------------------------------------------------------------------------
/// Index just past the number literal that continues at `i`: digits, with
/// at most one dot over the whole literal. `dot_seen` says whether the
/// literal already holds its dot; a second one ends it.
pub open spec fn number_run_end(s: Seq<char>, i: nat, dot_seen: bool) -> nat
    decreases s.len() - i,
{
    if i < s.len() && is_digit_char(s[i as int]) {
        number_run_end(s, i + 1, dot_seen)
    } else if i < s.len() && s[i as int] == '.' && !dot_seen {
        number_run_end(s, i + 1, true)
    } else {
        i
    }
}

/// Index just past the run of identifier characters that starts at `i`.
pub open spec fn word_run_end(s: Seq<char>, i: nat) -> nat
    decreases s.len() - i,
{
    if i < s.len() && is_word_char(s[i as int]) {
        word_run_end(s, i + 1)
    } else {
        i
    }
}

/// Index just past the run of whitespace that starts at `i`.
pub open spec fn blank_run_end(s: Seq<char>, i: nat) -> nat
    decreases s.len() - i,
{
    if i < s.len() && is_blank_char(s[i as int]) {
        blank_run_end(s, i + 1)
    } else {
        i
    }
}

/// Least index `j >= i` with `s[j] == c`, or `s.len()` if there is none.
pub open spec fn find_char(s: Seq<char>, i: nat, c: char) -> nat
    decreases s.len() - i,
{
    if i >= s.len() {
        s.len()
    } else if s[i as int] == c {
        i
    } else {
        find_char(s, i + 1, c)
    }
}

/// Least index `j >= i` where the two characters `*/` begin, or `s.len()`
/// if they occur nowhere at or after `i`.
pub open spec fn find_block_end(s: Seq<char>, i: nat) -> nat
    decreases s.len() - i,
{
    if i + 1 >= s.len() {
        s.len()
    } else if s[i as int] == '*' && s[i + 1int] == '/' {
        i
    } else {
        find_block_end(s, i + 1)
    }
}

/// The line and column reached after consuming `s` from line `line`,
/// column `col`: a newline starts the next line at column 1, any other
/// character advances the column by one.
pub open spec fn pos_after(s: Seq<char>, line: nat, col: nat) -> (nat, nat)
    decreases s.len(),
{
    if s.len() == 0 {
        (line, col)
    } else if s[0] == '\n' {
        pos_after(s.skip(1int), line + 1, 1)
    } else {
        pos_after(s.skip(1int), line, col + 1)
    }
}

// ---------------------------------------------------------------------------
// The token sequence of a source text
// ---------------------------------------------------------------------------
pub open spec fn sym_tv(s: Symbol, line: nat, col: nat) -> TokenView {
    TokenView { kind: TokenKindView::Symbol(s), line, column: col }
}

/// The sequence of tokens that `s` denotes when scanning starts at `line`,
/// `col`. Whitespace and comments yield nothing; a `/` that opens no
/// comment is the division symbol; a line break advances the line wherever
/// it is consumed, quoted spans and comments included; a quoted span
/// without its closing delimiter extends to the end of the input, as does
/// an unterminated comment; a character that starts no token ends the
/// sequence.
pub open spec fn token_seq(s: Seq<char>, line: nat, col: nat) -> Seq<TokenView>
    decreases s.len(), via token_seq_decreases
{
    if s.len() == 0 {
        Seq::empty()
    } else {
        let c = s[0];
        if c == '\n' {
            token_seq(s.skip(1int), line + 1, 1)
        } else if is_blank_char(c) {
            token_seq(s.skip(1int), line, col + 1)
        } else if c == '/' {
            if s.len() >= 2 && s[1] == '/' {
                let j = find_char(s, 2, '\n');
                if j < s.len() {
                    token_seq(s.skip(j + 1int), line + 1, 1)
                } else {
                    Seq::empty()
                }
            } else if s.len() >= 2 && s[1] == '*' {
                let j = find_block_end(s, 2);
                if j + 1 < s.len() {
                    let p = pos_after(s.take(j + 2int), line, col);
                    token_seq(s.skip(j + 2int), p.0, p.1)
                } else {
                    Seq::empty()
                }
            } else {
                seq![sym_tv(Symbol::Slash, line, col)] + token_seq(s.skip(1int), line, col + 1)
            }
        } else if simple_symbol_of(c) is Some {
            seq![sym_tv(simple_symbol_of(c)->0, line, col)] + token_seq(s.skip(1int), line, col + 1)
        } else if c == '"' || c == '\'' {
            let j = find_char(s, 1, c);
            if j < s.len() {
                let p = pos_after(s.take(j + 1int), line, col);
                seq![
                    TokenView {
                        kind: TokenKindView::StringLit(s.subrange(1, j as int)),
                        line,
                        column: col,
                    },
                ] + token_seq(s.skip(j + 1int), p.0, p.1)
            } else {
                seq![TokenView { kind: TokenKindView::StringLit(s.skip(1)), line, column: col }]
            }
        } else if is_digit_char(c) {
            let j = number_run_end(s, 0, false);
            seq![
                TokenView {
                    kind: TokenKindView::NumberLiteral(s.take(j as int)),
                    line,
                    column: col,
                },
            ] + token_seq(s.skip(j as int), line, col + j)
        } else if is_alpha_char(c) {
            let j = word_run_end(s, 0);
            seq![TokenView { kind: word_kind(s.take(j as int)), line, column: col }] + token_seq(
                s.skip(j as int),
                line,
                col + j,
            )
        } else {
            Seq::empty()
        }
    }
}

/// Bounds of `number_run_end`: the literal stays inside the sequence.
pub proof fn lemma_number_run_end_bounds(s: Seq<char>, i: nat, dot_seen: bool)
    ensures
        i <= number_run_end(s, i, dot_seen),
        i <= s.len() ==> number_run_end(s, i, dot_seen) <= s.len(),
    decreases s.len() - i,
{
    if i < s.len() && is_digit_char(s[i as int]) {
        lemma_number_run_end_bounds(s, i + 1, dot_seen);
    } else if i < s.len() && s[i as int] == '.' && !dot_seen {
        lemma_number_run_end_bounds(s, i + 1, true);
    }
}

/// Bounds of `word_run_end`: the run stays inside the sequence.
pub proof fn lemma_word_run_end_bounds(s: Seq<char>, i: nat)
    ensures
        i <= word_run_end(s, i),
        i <= s.len() ==> word_run_end(s, i) <= s.len(),
    decreases s.len() - i,
{
    if i < s.len() && is_word_char(s[i as int]) {
        lemma_word_run_end_bounds(s, i + 1);
    }
}

#[via_fn]
proof fn token_seq_decreases(s: Seq<char>, line: nat, col: nat) {
    if s.len() > 0 {
        if is_digit_char(s[0]) {
            assert(number_run_end(s, 0, false) == number_run_end(s, 1, false));
            lemma_number_run_end_bounds(s, 1, false);
        }
        if is_alpha_char(s[0]) {
            assert(word_run_end(s, 0) == word_run_end(s, 1));
            lemma_word_run_end_bounds(s, 1);
        }
    }
}

// ---------------------------------------------------------------------------
// The token stream
// ---------------------------------------------------------------------------
/// The lazy, finite, non-restartable stream of tokens of one source text.
/// Each call of `next` performs bounded work; the consumed prefix of the
/// input cannot be revisited.
pub struct Tokens {
    input: Vec<char>,
    idx: usize,
    position: Position,
}

/// What a `Tokens` value still has to scan, and the position the scan has
/// reached.
pub struct TokensView {
    pub remaining: Seq<char>,
    pub line: nat,
    pub column: nat,
}

impl View for Tokens {
    type V = TokensView;

    closed spec fn view(&self) -> TokensView {
        TokensView {
            remaining: self.input@.skip(self.idx as int),
            line: self.position.line as nat,
            column: self.position.column as nat,
        }
    }
}

/// Relies on `String::push`: appends one character at the end.
#[verifier::external_body]
fn push_char(s: &mut String, c: char)
    ensures
        final(s)@ == old(s)@.push(c),
{
    s.push(c);
}

impl Tokens {
    /// Bounds that every `Tokens` value satisfies: the scan index stays
    /// inside the input, positions start at 1, and neither position counter
    /// can overflow while any input is left, since one consumed character
    /// advances each counter by at most one.
    pub closed spec fn wf(&self) -> bool {
        &&& self.input@.len() < usize::MAX
        &&& self.idx <= self.input@.len()
        &&& 1 <= self.position.line
        &&& 1 <= self.position.column
        &&& self.position.line + (self.input@.len() - self.idx) <= usize::MAX
        &&& self.position.column + (self.input@.len() - self.idx) <= usize::MAX
    }

    /// The tokens this stream has yet to yield.
    pub open spec fn tokens(&self) -> Seq<TokenView> {
        token_seq(self@.remaining, self@.line, self@.column)
    }

    fn new(input: &str) -> (t: Tokens)
        requires
            input@.len() < usize::MAX,
        ensures
            t.wf(),
            t@.remaining == input@,
            t@.line == 1,
            t@.column == 1,
    {
        let mut v: Vec<char> = Vec::new();
        let mut it = input.chars();
        loop
            invariant
                v@ + it.remaining() == input@,
            ensures
                v@ == input@,
            decreases input@.len() - v@.len(),
        {
            let ghost prev = it.remaining();
            match it.next() {
                Some(c) => {
                    proof {
                        assert(v@.push(c) + prev.drop_first() =~= v@ + prev);
                    }
                    v.push(c);
                }
                None => {
                    proof {
                        assert(prev.len() == 0);
                        assert(v@ + prev =~= v@);
                    }
                    break ;
                }
            }
        }
        let t = Tokens { input: v, idx: 0, position: Position::new(1, 1) };
        proof {
            assert(t@.remaining =~= input@);
        }
        t
    }

    /// Consumes one character that is not treated as a line break: the
    /// column advances, the line stays.
    fn consume_character(&mut self) -> (c: char)
        requires
            old(self).wf(),
            old(self)@.remaining.len() > 0,
        ensures
            final(self).wf(),
            c == old(self)@.remaining[0],
            final(self)@.remaining == old(self)@.remaining.skip(1),
            final(self)@.line == old(self)@.line,
            final(self)@.column == old(self)@.column + 1,
    {
        proof {
            assert(old(self)@.remaining.len() == self.input@.len() - self.idx);
        }
        let c = self.input[self.idx];
        self.idx = self.idx + 1;
        self.position.column = self.position.column + 1;
        proof {
            assert(final(self)@.remaining =~= old(self)@.remaining.skip(1));
        }
        c
    }

    /// Consumes one character as a line break: the line advances, the
    /// column resets to 1.
    fn consume_new_line(&mut self) -> (c: char)
        requires
            old(self).wf(),
            old(self)@.remaining.len() > 0,
        ensures
            final(self).wf(),
            c == old(self)@.remaining[0],
            final(self)@.remaining == old(self)@.remaining.skip(1),
            final(self)@.line == old(self)@.line + 1,
            final(self)@.column == 1,
    {
        proof {
            assert(old(self)@.remaining.len() == self.input@.len() - self.idx);
        }
        let c = self.input[self.idx];
        self.idx = self.idx + 1;
        self.position.column = 1;
        self.position.line = self.position.line + 1;
        proof {
            assert(final(self)@.remaining =~= old(self)@.remaining.skip(1));
        }
        c
    }

    /// Reads the next character without consuming it.
    fn peek(&self) -> (c: Option<char>)
        requires
            self.wf(),
        ensures
            match c {
                Some(ch) => self@.remaining.len() > 0 && ch == self@.remaining[0],
                None => self@.remaining.len() == 0,
            },
    {
        if self.idx < self.input.len() {
            Some(self.input[self.idx])
        } else {
            None
        }
    }

    /// Reads the character after the next one without consuming anything.
    fn peek_second(&self) -> (c: Option<char>)
        requires
            self.wf(),
        ensures
            match c {
                Some(ch) => self@.remaining.len() > 1 && ch == self@.remaining[1],
                None => self@.remaining.len() <= 1,
            },
    {
        proof {
            assert(self@.remaining.len() == self.input@.len() - self.idx);
        }
        if self.idx + 1 < self.input.len() {
            let c = self.input[self.idx + 1];
            proof {
                assert(self@.remaining[1] == self.input@[self.idx + 1]);
            }
            Some(c)
        } else {
            None
        }
    }

    /// Collects the number literal that starts here: digits, with at most
    /// one embedded dot; a second dot ends the literal.
    fn consume_number_literal(&mut self) -> (buf: String)
        requires
            old(self).wf(),
        ensures
            final(self).wf(),
            ({
                let s0 = old(self)@.remaining;
                let n = number_run_end(s0, 0, false);
                &&& buf@ == s0.take(n as int)
                &&& final(self)@.remaining == s0.skip(n as int)
                &&& final(self)@.line == old(self)@.line
                &&& final(self)@.column == old(self)@.column + n
            }),
    {
        let ghost s0 = self@.remaining;
        let ghost n = number_run_end(s0, 0, false);
        let mut buf = String::new();
        let mut dot_seen = false;
        loop
            invariant
                self.wf(),
                buf@.len() <= s0.len(),
                n == number_run_end(s0, buf@.len(), dot_seen),
                buf@ == s0.take(buf@.len() as int),
                self@.remaining == s0.skip(buf@.len() as int),
                self@.line == old(self)@.line,
                self@.column == old(self)@.column + buf@.len(),
            ensures
                buf@.len() == n,
            decreases s0.len() - buf@.len(),
        {
            let ghost k = buf@.len();
            match self.peek() {
                Some(c) => {
                    proof {
                        assert(c == s0[k as int]);
                    }
                    if is_digit(c) {
                        self.consume_character();
                        push_char(&mut buf, c);
                        proof {
                            assert(buf@ =~= s0.take(k as int + 1));
                            assert(self@.remaining =~= s0.skip(k as int + 1));
                        }
                    } else if c == '.' && !dot_seen {
                        dot_seen = true;
                        self.consume_character();
                        push_char(&mut buf, c);
                        proof {
                            assert(buf@ =~= s0.take(k as int + 1));
                            assert(self@.remaining =~= s0.skip(k as int + 1));
                        }
                    } else {
                        proof {
                            assert(k == n);
                        }
                        break ;
                    }
                }
                None => {
                    proof {
                        assert(k == s0.len());
                        assert(k == n);
                    }
                    break ;
                }
            }
        }
        buf
    }

    /// Collects the maximal run of ASCII alphanumeric characters that
    /// starts here.
    fn consume_identifier(&mut self) -> (buf: String)
        requires
            old(self).wf(),
        ensures
            final(self).wf(),
            ({
                let s0 = old(self)@.remaining;
                let n = word_run_end(s0, 0);
                &&& buf@ == s0.take(n as int)
                &&& final(self)@.remaining == s0.skip(n as int)
                &&& final(self)@.line == old(self)@.line
                &&& final(self)@.column == old(self)@.column + n
            }),
    {
        let ghost s0 = self@.remaining;
        let ghost n = word_run_end(s0, 0);
        proof {
            lemma_word_run_chars(s0, 0);
        }
        let mut buf = String::new();
        loop
            invariant
                self.wf(),
                n == word_run_end(s0, 0),
                n <= s0.len(),
                forall|k: int| 0 <= k < n ==> is_word_char(s0[k]),
                n < s0.len() ==> !is_word_char(s0[n as int]),
                buf@.len() <= n,
                buf@ == s0.take(buf@.len() as int),
                self@.remaining == s0.skip(buf@.len() as int),
                self@.line == old(self)@.line,
                self@.column == old(self)@.column + buf@.len(),
            ensures
                buf@.len() == n,
            decreases s0.len() - buf@.len(),
        {
            let ghost k = buf@.len();
            match self.peek() {
                Some(c) => {
                    if is_word(c) {
                        proof {
                            assert(c == s0[k as int]);
                            assert(k < n);
                        }
                        self.consume_character();
                        push_char(&mut buf, c);
                        proof {
                            assert(buf@ =~= s0.take(k as int + 1));
                            assert(self@.remaining =~= s0.skip(k as int + 1));
                        }
                    } else {
                        proof {
                            assert(c == s0[k as int]);
                            assert(k == n);
                        }
                        break ;
                    }
                }
                None => {
                    proof {
                        assert(k == s0.len());
                        assert(k == n);
                    }
                    break ;
                }
            }
        }
        buf
    }

    /// Collects a quoted span: the opening delimiter `c` is consumed, every
    /// character up to the next occurrence of `c` becomes the text, and the
    /// closing delimiter is consumed and excluded. A line break inside the
    /// span advances the line like any other consumed line break. Without a
    /// closing delimiter the text extends to the end of the input.
    fn consume_string_literal(&mut self, c: char) -> (buf: String)
        requires
            old(self).wf(),
            old(self)@.remaining.len() > 0,
            old(self)@.remaining[0] == c,
            c != '\n',
        ensures
            final(self).wf(),
            ({
                let s0 = old(self)@.remaining;
                let l0 = old(self)@.line;
                let c0 = old(self)@.column;
                let j = find_char(s0, 1, c);
                if j < s0.len() {
                    &&& buf@ == s0.subrange(1, j as int)
                    &&& final(self)@.remaining == s0.skip(j + 1int)
                    &&& final(self)@.line == pos_after(s0.take(j + 1int), l0, c0).0
                    &&& final(self)@.column == pos_after(s0.take(j + 1int), l0, c0).1
                } else {
                    &&& buf@ == s0.skip(1int)
                    &&& final(self)@.remaining.len() == 0
                    &&& final(self)@.line == pos_after(s0, l0, c0).0
                    &&& final(self)@.column == pos_after(s0, l0, c0).1
                }
            }),
    {
        let ghost s0 = self@.remaining;
        let ghost l0 = self@.line;
        let ghost c0 = self@.column;
        let mut buf = String::new();
        self.consume_character();
        proof {
            lemma_find_char_le(s0, 1, c);
            assert(s0.take(1int) =~= Seq::<char>::empty().push(s0[0int]));
            lemma_pos_after_push(Seq::<char>::empty(), s0[0int], l0, c0);
        }
        loop
            invariant_except_break
                self@.remaining == s0.skip(buf@.len() + 1int),
                self@.line == pos_after(s0.take(buf@.len() + 1int), l0, c0).0,
                self@.column == pos_after(s0.take(buf@.len() + 1int), l0, c0).1,
            invariant
                self.wf(),
                s0 == old(self)@.remaining,
                s0.len() > 0,
                s0[0] == c,
                c != '\n',
                buf@.len() + 1 <= s0.len(),
                buf@ == s0.subrange(1, buf@.len() + 1int),
                forall|m: int| 1 <= m < buf@.len() + 1 ==> s0[m] != c,
            ensures
                ({
                    let j = find_char(s0, 1, c);
                    if j < s0.len() {
                        &&& buf@ == s0.subrange(1, j as int)
                        &&& self@.remaining == s0.skip(j + 1int)
                        &&& self@.line == pos_after(s0.take(j + 1int), l0, c0).0
                        &&& self@.column == pos_after(s0.take(j + 1int), l0, c0).1
                    } else {
                        &&& buf@ == s0.skip(1int)
                        &&& self@.remaining.len() == 0
                        &&& self@.line == pos_after(s0, l0, c0).0
                        &&& self@.column == pos_after(s0, l0, c0).1
                    }
                }),
            decreases s0.len() - buf@.len(),
        {
            let ghost k = buf@.len();
            match self.peek() {
                Some(ch) => {
                    proof {
                        assert(ch == s0[k + 1int]);
                        assert(s0.take(k + 2int) =~= s0.take(k + 1int).push(s0[k + 1int]));
                        lemma_pos_after_push(s0.take(k + 1int), s0[k + 1int], l0, c0);
                    }
                    if ch == '\n' {
                        self.consume_new_line();
                    } else {
                        self.consume_character();
                    }
                    if ch == c {
                        proof {
                            lemma_find_char_found(s0, 1, c, (k + 1) as nat);
                            assert(self@.remaining =~= s0.skip(k + 2int));
                        }
                        break ;
                    } else {
                        push_char(&mut buf, ch);
                        proof {
                            assert(buf@ =~= s0.subrange(1, k + 2int));
                            assert(self@.remaining =~= s0.skip(k + 2int));
                        }
                    }
                }
                None => {
                    proof {
                        assert(k + 1 == s0.len());
                        lemma_find_char_none(s0, 1, c);
                        assert(buf@ =~= s0.skip(1int));
                        assert(s0.take(k + 1int) =~= s0);
                    }
                    break ;
                }
            }
        }
        buf
    }

    /// Resolves a `/` with one character of lookahead: `//` consumes a
    /// single-line comment through the end of the line, `/*` consumes a
    /// multi-line comment through its `*/` terminator, and anything else
    /// leaves the `/` consumed as the division symbol. An unterminated
    /// comment of either form consumes the rest of the input and yields
    /// nothing. Returns whether the `/` was the division symbol.
    fn consume_comment(&mut self) -> (division: bool)
        requires
            old(self).wf(),
            old(self)@.remaining.len() > 0,
            old(self)@.remaining[0] == '/',
        ensures
            final(self).wf(),
            ({
                let s0 = old(self)@.remaining;
                let l0 = old(self)@.line;
                let c0 = old(self)@.column;
                &&& division == (s0.len() < 2 || (s0[1int] != '/' && s0[1int] != '*'))
                &&& division ==> final(self)@.remaining == s0.skip(1int) && final(self)@.line == l0
                    && final(self)@.column == c0 + 1
                &&& (s0.len() >= 2 && s0[1int] == '/') ==> ({
                    let j = find_char(s0, 2, '\n');
                    if j < s0.len() {
                        final(self)@.remaining == s0.skip(j + 1int) && final(self)@.line == l0 + 1
                            && final(self)@.column == 1
                    } else {
                        &&& final(self)@.remaining.len() == 0
                        &&& final(self)@.line == l0
                        &&& final(self)@.column == c0 + s0.len()
                    }
                })
                &&& (s0.len() >= 2 && s0[1int] == '*') ==> ({
                    let j = find_block_end(s0, 2);
                    if j + 1 < s0.len() {
                        final(self)@.remaining == s0.skip(j + 2int) && final(self)@.line
                            == pos_after(s0.take(j + 2int), l0, c0).0 && final(self)@.column
                            == pos_after(s0.take(j + 2int), l0, c0).1
                    } else {
                        final(self)@.remaining.len() == 0 && final(self)@.line == pos_after(
                            s0,
                            l0,
                            c0,
                        ).0 && final(self)@.column == pos_after(s0, l0, c0).1
                    }
                })
            }),
    {
        let ghost s0 = self@.remaining;
        let ghost l0 = self@.line;
        let ghost c0 = self@.column;
        match self.peek_second() {
            None => {
                self.consume_character();
                true
            }
            Some(second) => {
                if second == '/' {
                    self.consume_single_line_comment();
                    false
                } else if second == '*' {
                    self.consume_multi_line_comment();
                    false
                } else {
                    self.consume_character();
                    true
                }
            }
        }
    }

    /// Consumes `//` and everything up to and including the next line
    /// break, or to the end of the input if the line never ends.
    fn consume_single_line_comment(&mut self)
        requires
            old(self).wf(),
            old(self)@.remaining.len() >= 2,
            old(self)@.remaining[0] == '/',
            old(self)@.remaining[1int] == '/',
        ensures
            final(self).wf(),
            ({
                let s0 = old(self)@.remaining;
                let j = find_char(s0, 2, '\n');
                if j < s0.len() {
                    final(self)@.remaining == s0.skip(j + 1int) && final(self)@.line == old(
                        self,
                    )@.line + 1 && final(self)@.column == 1
                } else {
                    final(self)@.remaining.len() == 0 && final(self)@.line == old(self)@.line
                        && final(self)@.column == old(self)@.column + s0.len()
                }
            }),
    {
        let ghost s0 = self@.remaining;
        let ghost l0 = self@.line;
        let ghost c0 = self@.column;
        self.consume_character();
        self.consume_character();
        proof {
            assert(self@.remaining =~= s0.skip(2int));
        }
        let ghost mut m: int = 2;
        loop
            invariant_except_break
                self@.remaining == s0.skip(m),
                self@.line == l0,
                self@.column == c0 + m,
            invariant
                self.wf(),
                2 <= m <= s0.len(),
                forall|k: int| 2 <= k < m ==> s0[k] != '\n',
            ensures
                ({
                    let j = find_char(s0, 2, '\n');
                    if j < s0.len() {
                        self@.remaining == s0.skip(j + 1int) && self@.line == l0 + 1
                            && self@.column == 1
                    } else {
                        self@.remaining.len() == 0 && self@.line == l0 && self@.column == c0
                            + s0.len()
                    }
                }),
            decreases s0.len() - m,
        {
            match self.peek() {
                None => {
                    proof {
                        assert(m == s0.len());
                        lemma_find_char_none(s0, 2, '\n');
                    }
                    break ;
                }
                Some(ch) => {
                    proof {
                        assert(ch == s0[m]);
                    }
                    if ch == '\n' {
                        self.consume_new_line();
                        proof {
                            lemma_find_char_found(s0, 2, '\n', m as nat);
                            assert(self@.remaining =~= s0.skip(m + 1));
                        }
                        break ;
                    } else {
                        self.consume_character();
                        proof {
                            assert(self@.remaining =~= s0.skip(m + 1));
                            m = m + 1;
                        }
                    }
                }
            }
        }
    }

    /// Consumes `/*` and everything up to and including the first `*/`
    /// terminator, or to the end of the input if there is none. The line
    /// count advances across every line break inside the comment; a `*`
    /// not followed by `/` is ordinary comment text.
    fn consume_multi_line_comment(&mut self)
        requires
            old(self).wf(),
            old(self)@.remaining.len() >= 2,
            old(self)@.remaining[0] == '/',
            old(self)@.remaining[1int] == '*',
        ensures
            final(self).wf(),
            ({
                let s0 = old(self)@.remaining;
                let l0 = old(self)@.line;
                let c0 = old(self)@.column;
                let j = find_block_end(s0, 2);
                if j + 1 < s0.len() {
                    final(self)@.remaining == s0.skip(j + 2int) && final(self)@.line == pos_after(
                        s0.take(j + 2int),
                        l0,
                        c0,
                    ).0 && final(self)@.column == pos_after(s0.take(j + 2int), l0, c0).1
                } else {
                    final(self)@.remaining.len() == 0 && final(self)@.line == pos_after(
                        s0,
                        l0,
                        c0,
                    ).0 && final(self)@.column == pos_after(s0, l0, c0).1
                }
            }),
    {
        let ghost s0 = self@.remaining;
        let ghost l0 = self@.line;
        let ghost c0 = self@.column;
        self.consume_character();
        self.consume_character();
        proof {
            assert(self@.remaining =~= s0.skip(2int));
            assert(s0.take(0int) =~= Seq::<char>::empty());
            assert(s0.take(1int) =~= s0.take(0int).push(s0[0int]));
            assert(s0.take(2int) =~= s0.take(1int).push(s0[1int]));
            lemma_pos_after_push(s0.take(0int), s0[0int], l0, c0);
            lemma_pos_after_push(s0.take(1int), s0[1int], l0, c0);
        }
        let mut star = false;
        let ghost mut m: int = 2;
        loop
            invariant_except_break
                self@.remaining == s0.skip(m),
                self@.line == pos_after(s0.take(m), l0, c0).0,
                self@.column == pos_after(s0.take(m), l0, c0).1,
                star == (m > 2 && s0[m - 1] == '*'),
            invariant
                self.wf(),
                2 <= m <= s0.len(),
                forall|k: int| 2 <= k < m - 1 ==> !(#[trigger] s0[k] == '*' && s0[k + 1] == '/'),
            ensures
                ({
                    let j = find_block_end(s0, 2);
                    if j + 1 < s0.len() {
                        self@.remaining == s0.skip(j + 2int) && self@.line == pos_after(
                            s0.take(j + 2int),
                            l0,
                            c0,
                        ).0 && self@.column == pos_after(s0.take(j + 2int), l0, c0).1
                    } else {
                        self@.remaining.len() == 0 && self@.line == pos_after(s0, l0, c0).0
                            && self@.column == pos_after(s0, l0, c0).1
                    }
                }),
            decreases s0.len() - m,
        {
            match self.peek() {
                None => {
                    proof {
                        assert(m == s0.len());
                        assert(s0.take(m) =~= s0);
                        lemma_find_block_end_none(s0, 2);
                    }
                    break ;
                }
                Some(ch) => {
                    proof {
                        assert(ch == s0[m]);
                        assert(s0.take(m + 1) =~= s0.take(m).push(s0[m]));
                        lemma_pos_after_push(s0.take(m), s0[m], l0, c0);
                    }
                    if ch == '\n' {
                        self.consume_new_line();
                        proof {
                            assert(self@.remaining =~= s0.skip(m + 1));
                            m = m + 1;
                        }
                        star = false;
                    } else {
                        self.consume_character();
                        if star && ch == '/' {
                            proof {
                                lemma_find_block_end_found(s0, 2, (m - 1) as nat);
                                assert(self@.remaining =~= s0.skip(m + 1));
                            }
                            break ;
                        }
                        proof {
                            assert(self@.remaining =~= s0.skip(m + 1));
                            m = m + 1;
                        }
                        star = ch == '*';
                    }
                }
            }
        }
    }

    /// Skips exactly the maximal whitespace prefix, emitting nothing; each
    /// line break inside it advances the line and resets the column, every
    /// other whitespace character advances the column.
    fn consume_whitespaces(&mut self)
        requires
            old(self).wf(),
        ensures
            final(self).wf(),
            final(self).tokens() == old(self).tokens(),
            ({
                let s0 = old(self)@.remaining;
                let n = blank_run_end(s0, 0);
                &&& final(self)@.remaining == s0.skip(n as int)
                &&& final(self)@.line == pos_after(s0.take(n as int), old(self)@.line, old(self)@.column).0
                &&& final(self)@.column == pos_after(s0.take(n as int), old(self)@.line, old(self)@.column).1
            }),
            final(self)@.remaining.len() <= old(self)@.remaining.len(),
            final(self)@.remaining.len() > 0 ==> !is_blank_char(final(self)@.remaining[0]),
    {
        let ghost s0 = self@.remaining;
        let ghost l0 = self@.line;
        let ghost c0 = self@.column;
        let ghost n = blank_run_end(s0, 0);
        let ghost mut m: int = 0;
        proof {
            assert(s0.skip(0int) =~= s0);
            assert(s0.take(0int) =~= Seq::<char>::empty());
        }
        loop
            invariant
                self.wf(),
                0 <= m <= s0.len(),
                n == blank_run_end(s0, m as nat),
                self.tokens() == old(self).tokens(),
                self@.remaining == s0.skip(m),
                self@.line == pos_after(s0.take(m), l0, c0).0,
                self@.column == pos_after(s0.take(m), l0, c0).1,
            ensures
                m == n,
                self.tokens() == old(self).tokens(),
                self@.remaining == s0.skip(m),
                self@.line == pos_after(s0.take(m), l0, c0).0,
                self@.column == pos_after(s0.take(m), l0, c0).1,
                self@.remaining.len() > 0 ==> !is_blank_char(self@.remaining[0]),
            decreases s0.len() - m,
        {
            match self.peek() {
                Some(c) => {
                    proof {
                        assert(c == s0[m]);
                        assert(s0.take(m + 1) =~= s0.take(m).push(s0[m]));
                        lemma_pos_after_push(s0.take(m), s0[m], l0, c0);
                    }
                    if c == '\n' {
                        self.consume_new_line();
                        proof {
                            assert(self@.remaining =~= s0.skip(m + 1));
                            m = m + 1;
                        }
                    } else if is_blank(c) {
                        self.consume_character();
                        proof {
                            assert(self@.remaining =~= s0.skip(m + 1));
                            m = m + 1;
                        }
                    } else {
                        break ;
                    }
                }
                None => {
                    break ;
                }
            }
        }
    }
}

impl Tokens {
    /// Yields the next token of the stream, or `None` once no further
    /// token can be produced: exactly the head of `token_seq` on what
    /// remains, with the rest of that sequence left in the stream.
    pub fn next(&mut self) -> (r: Option<Token>)
        requires
            old(self).wf(),
        ensures
            final(self).wf(),
            ({
                let toks = old(self).tokens();
                match r {
                    None => toks.len() == 0 && final(self).tokens().len() == 0,
                    Some(t) => toks.len() > 0 && t@ == toks[0] && final(self).tokens()
                        == toks.drop_first(),
                }
            }),
    {
        loop
            invariant
                self.wf(),
                self.tokens() == old(self).tokens(),
            decreases self@.remaining.len(),
        {
            self.consume_whitespaces();
            let ghost s_cur = self@.remaining;
            let ghost l_cur = self@.line;
            let ghost c_cur = self@.column;
            let ghost toks = token_seq(s_cur, l_cur, c_cur);
            match self.peek() {
                None => {
                    return None;
                }
                Some(c) => {
                    let position = Position {
                        column: self.position.column,
                        line: self.position.line,
                    };
                    if c == '/' {
                        let division = self.consume_comment();
                        if division {
                            let tok = Token::new(TokenKind::Symbol(Symbol::Slash), position);
                            proof {
                                assert(toks =~= seq![sym_tv(Symbol::Slash, l_cur, c_cur)]
                                    + self.tokens());
                                assert(self.tokens() =~= toks.drop_first());
                            }
                            return Some(tok);
                        }
                        proof {
                            assert(self.tokens() == toks);
                        }
                    } else {
                        match simple_symbol(c) {
                            Some(sym) => {
                                self.consume_character();
                                let tok = Token::new(TokenKind::Symbol(sym), position);
                                proof {
                                    assert(toks =~= seq![sym_tv(sym, l_cur, c_cur)]
                                        + self.tokens());
                                    assert(self.tokens() =~= toks.drop_first());
                                }
                                return Some(tok);
                            }
                            None => {
                                if c == '"' || c == '\'' {
                                    let value = self.consume_string_literal(c);
                                    let tok = Token::new(TokenKind::String(value), position);
                                    proof {
                                        let j = find_char(s_cur, 1, c);
                                        if j < s_cur.len() {
                                            assert(toks =~= seq![tok@] + self.tokens());
                                        } else {
                                            assert(toks =~= seq![tok@]);
                                        }
                                        assert(self.tokens() =~= toks.drop_first());
                                    }
                                    return Some(tok);
                                } else if is_digit(c) {
                                    let value = self.consume_number_literal();
                                    let tok = Token::new(
                                        TokenKind::NumberLiteral(value),
                                        position,
                                    );
                                    proof {
                                        assert(toks =~= seq![tok@] + self.tokens());
                                        assert(self.tokens() =~= toks.drop_first());
                                    }
                                    return Some(tok);
                                } else if is_alpha(c) {
                                    let name = self.consume_identifier();
                                    let ghost w = name@;
                                    match keyword_lookup(&name) {
                                        Some(k) => {
                                            let tok = Token::new(
                                                TokenKind::Keyword(k),
                                                position,
                                            );
                                            proof {
                                                assert(toks =~= seq![tok@] + self.tokens());
                                                assert(self.tokens() =~= toks.drop_first());
                                            }
                                            return Some(tok);
                                        }
                                        None => {
                                            let tok = Token::new(
                                                TokenKind::Identifier(name),
                                                position,
                                            );
                                            proof {
                                                assert(tok@.kind == word_kind(w));
                                                assert(toks =~= seq![tok@] + self.tokens());
                                                assert(self.tokens() =~= toks.drop_first());
                                            }
                                            return Some(tok);
                                        }
                                    }
                                } else {
                                    proof {
                                        assert(toks.len() == 0);
                                    }
                                    return None;
                                }
                            }
                        }
                    }
                }
            }
        }
    }

    /// Drains the stream: every remaining token, in order.
    pub fn into_vec(self) -> (v: Vec<Token>)
        requires
            self.wf(),
        ensures
            v@.map_values(|t: Token| t@) == self.tokens(),
    {
        let mut s = self;
        let mut v: Vec<Token> = Vec::new();
        loop
            invariant
                s.wf(),
                v@.map_values(|t: Token| t@) + s.tokens() == self.tokens(),
            ensures
                v@.map_values(|t: Token| t@) == self.tokens(),
            decreases s.tokens().len(),
        {
            let ghost before = s.tokens();
            match s.next() {
                Some(t) => {
                    proof {
                        assert(before =~= seq![before[0]] + before.drop_first());
                    }
                    v.push(t);
                    proof {
                        assert(v@.map_values(|t: Token| t@) + s.tokens() =~= self.tokens());
                    }
                }
                None => {
                    proof {
                        assert(v@.map_values(|t: Token| t@) + s.tokens() =~= v@.map_values(
                            |t: Token| t@,
                        ));
                    }
                    break ;
                }
            }
        }
        v
    }
}

/// The token stream of `source`, scanning from line 1, column 1. The
/// stream is finite and cannot be restarted; tokenizing the same text
/// again takes a fresh call. The length bound keeps the column counter
/// within the machine word.
pub fn tokenise(input: &str) -> (t: Tokens)
    requires
        input@.len() < usize::MAX,
    ensures
        t.wf(),
        t@.remaining == input@,
        t@.line == 1,
        t@.column == 1,
        t.tokens() == token_seq(input@, 1, 1),
{
    Tokens::new(input)
}

// ---------------------------------------------------------------------------
// Lemmas that connect the scanning loops to the scanning helpers
// ---------------------------------------------------------------------------
/// `find_char` never runs past the end.
proof fn lemma_find_char_le(s: Seq<char>, i: nat, c: char)
    ensures
        find_char(s, i, c) <= s.len(),
    decreases s.len() - i,
{
    if i < s.len() && s[i as int] != c {
        lemma_find_char_le(s, i + 1, c);
    }
}

/// An occurrence of `c` at `j`, with none between `i` and `j`, is what
/// `find_char` returns.
proof fn lemma_find_char_found(s: Seq<char>, i: nat, c: char, j: nat)
    requires
        i <= j < s.len(),
        s[j as int] == c,
        forall|k: int| i <= k < j ==> s[k] != c,
    ensures
        find_char(s, i, c) == j,
    decreases j - i,
{
    if i < j {
        lemma_find_char_found(s, i + 1, c, j);
    }
}

/// With no occurrence of `c` at or after `i`, `find_char` returns the length.
proof fn lemma_find_char_none(s: Seq<char>, i: nat, c: char)
    requires
        forall|k: int| i <= k < s.len() ==> s[k] != c,
    ensures
        find_char(s, i, c) == s.len(),
    decreases s.len() - i,
{
    if i < s.len() {
        lemma_find_char_none(s, i + 1, c);
    }
}

/// A `*/` pair at `j`, with none starting between `i` and `j`, is what
/// `find_block_end` returns.
proof fn lemma_find_block_end_found(s: Seq<char>, i: nat, j: nat)
    requires
        i <= j,
        j + 1 < s.len(),
        s[j as int] == '*' && s[j + 1int] == '/',
        forall|k: int| i <= k < j ==> !(#[trigger] s[k] == '*' && s[k + 1] == '/'),
    ensures
        find_block_end(s, i) == j,
    decreases j - i,
{
    if i < j {
        lemma_find_block_end_found(s, i + 1, j);
    }
}

/// With no `*/` pair starting at or after `i`, `find_block_end` returns the
/// length.
proof fn lemma_find_block_end_none(s: Seq<char>, i: nat)
    requires
        forall|k: int| i <= k && k + 1 < s.len() ==> !(#[trigger] s[k] == '*' && s[k + 1] == '/'),
    ensures
        find_block_end(s, i) == s.len(),
    decreases s.len() - i,
{
    if i + 1 < s.len() {
        lemma_find_block_end_none(s, i + 1);
    }
}

/// Every character before `word_run_end` is a word character, and the one
/// at it, if any, is not.
proof fn lemma_word_run_chars(s: Seq<char>, i: nat)
    requires
        i <= s.len(),
    ensures
        i <= word_run_end(s, i) <= s.len(),
        forall|k: int| i <= k < word_run_end(s, i) ==> is_word_char(s[k]),
        word_run_end(s, i) < s.len() ==> !is_word_char(s[word_run_end(s, i) as int]),
    decreases s.len() - i,
{
    if i < s.len() && is_word_char(s[i as int]) {
        lemma_word_run_chars(s, i + 1);
    }
}

/// Consuming one more character advances the position by one step.
proof fn lemma_pos_after_push(s: Seq<char>, x: char, line: nat, col: nat)
    ensures
        pos_after(s.push(x), line, col).0 == (if x == '\n' {
            pos_after(s, line, col).0 + 1
        } else {
            pos_after(s, line, col).0
        }),
        pos_after(s.push(x), line, col).1 == (if x == '\n' {
            1nat
        } else {
            pos_after(s, line, col).1 + 1
        }),
    decreases s.len(),
{
    if s.len() == 0 {
        assert(s.push(x)[0] == x);
        assert(s.push(x).skip(1int) =~= Seq::<char>::empty());
        if x == '\n' {
            assert(pos_after(s.push(x), line, col) == pos_after(Seq::<char>::empty(), line + 1, 1));
        } else {
            assert(pos_after(s.push(x), line, col) == pos_after(
                Seq::<char>::empty(),
                line,
                col + 1,
            ));
        }
    } else {
        assert(s.push(x)[0] == s[0]);
        assert(s.push(x).skip(1int) =~= s.skip(1int).push(x));
        if s[0] == '\n' {
            lemma_pos_after_push(s.skip(1int), x, line + 1, 1nat);
            assert(pos_after(s.push(x), line, col) == pos_after(
                s.skip(1int).push(x),
                line + 1,
                1nat,
            ));
            assert(pos_after(s, line, col) == pos_after(s.skip(1int), line + 1, 1nat));
        } else {
            lemma_pos_after_push(s.skip(1int), x, line, col + 1);
            assert(pos_after(s.push(x), line, col) == pos_after(
                s.skip(1int).push(x),
                line,
                col + 1,
            ));
            assert(pos_after(s, line, col) == pos_after(s.skip(1int), line, col + 1));
        }
    }
}

// ---------------------------------------------------------------------------
// Laws of the token sequence
// ---------------------------------------------------------------------------
/// The number of line breaks in a character sequence.
pub open spec fn newline_count(s: Seq<char>) -> nat
    decreases s.len(),
{
    if s.len() == 0 {
        0
    } else {
        (if s[0] == '\n' {
            1nat
        } else {
            0nat
        }) + newline_count(s.skip(1int))
    }
}

/// Line breaks are counted piecewise across a concatenation.
pub proof fn lemma_newline_count_concat(a: Seq<char>, b: Seq<char>)
    ensures
        newline_count(a + b) == newline_count(a) + newline_count(b),
    decreases a.len(),
{
    if a.len() == 0 {
        assert(a + b =~= b);
    } else {
        assert((a + b)[0] == a[0]);
        assert((a + b).skip(1int) =~= a.skip(1int) + b);
        lemma_newline_count_concat(a.skip(1int), b);
    }
}

/// Consuming `s` advances the line by exactly the number of line breaks
/// in `s`.
pub proof fn lemma_pos_after_line(s: Seq<char>, line: nat, col: nat)
    ensures
        pos_after(s, line, col).0 == line + newline_count(s),
    decreases s.len(),
{
    if s.len() > 0 {
        if s[0] == '\n' {
            lemma_pos_after_line(s.skip(1int), line + 1, 1);
        } else {
            lemma_pos_after_line(s.skip(1int), line, col + 1);
        }
    }
}

/// Every token of a scan lies at or after the line the scan starts on.
pub proof fn lemma_token_lines_bounded(s: Seq<char>, line: nat, col: nat)
    ensures
        forall|i: int|
            0 <= i < token_seq(s, line, col).len() ==> (#[trigger] token_seq(s, line, col)[i]).line
                >= line,
    decreases s.len(),
{
    let ts = token_seq(s, line, col);
    if s.len() > 0 {
        let c = s[0];
        if c == '\n' {
            lemma_token_lines_bounded(s.skip(1int), line + 1, 1);
            assert forall|i: int| 0 <= i < ts.len() implies (#[trigger] ts[i]).line >= line by {
                assert(ts[i] == token_seq(s.skip(1int), line + 1, 1)[i]);
            }
        } else if is_blank_char(c) {
            lemma_token_lines_bounded(s.skip(1int), line, col + 1);
            assert forall|i: int| 0 <= i < ts.len() implies (#[trigger] ts[i]).line >= line by {
                assert(ts[i] == token_seq(s.skip(1int), line, col + 1)[i]);
            }
        } else if c == '/' {
            if s.len() >= 2 && s[1] == '/' {
                let j = find_char(s, 2, '\n');
                if j < s.len() {
                    lemma_token_lines_bounded(s.skip(j + 1int), line + 1, 1);
                    assert forall|i: int| 0 <= i < ts.len() implies (#[trigger] ts[i]).line
                        >= line by {
                        assert(ts[i] == token_seq(s.skip(j + 1int), line + 1, 1)[i]);
                    }
                }
            } else if s.len() >= 2 && s[1] == '*' {
                let j = find_block_end(s, 2);
                if j + 1 < s.len() {
                    let p = pos_after(s.take(j + 2int), line, col);
                    lemma_pos_after_line(s.take(j + 2int), line, col);
                    lemma_token_lines_bounded(s.skip(j + 2int), p.0, p.1);
                    assert forall|i: int| 0 <= i < ts.len() implies (#[trigger] ts[i]).line
                        >= line by {
                        assert(ts[i] == token_seq(s.skip(j + 2int), p.0, p.1)[i]);
                    }
                }
            } else {
                let tail = token_seq(s.skip(1int), line, col + 1);
                lemma_token_lines_bounded(s.skip(1int), line, col + 1);
                assert forall|i: int| 0 <= i < ts.len() implies (#[trigger] ts[i]).line
                    >= line by {
                    if i > 0 {
                        assert(ts[i] == tail[i - 1]);
                    }
                }
            }
        } else if simple_symbol_of(c) is Some {
            let tail = token_seq(s.skip(1int), line, col + 1);
            lemma_token_lines_bounded(s.skip(1int), line, col + 1);
            assert forall|i: int| 0 <= i < ts.len() implies (#[trigger] ts[i]).line >= line by {
                if i > 0 {
                    assert(ts[i] == tail[i - 1]);
                }
            }
        } else if c == '"' || c == '\'' {
            let j = find_char(s, 1, c);
            if j < s.len() {
                let p = pos_after(s.take(j + 1int), line, col);
                let tail = token_seq(s.skip(j + 1int), p.0, p.1);
                lemma_pos_after_line(s.take(j + 1int), line, col);
                lemma_token_lines_bounded(s.skip(j + 1int), p.0, p.1);
                assert forall|i: int| 0 <= i < ts.len() implies (#[trigger] ts[i]).line
                    >= line by {
                    if i > 0 {
                        assert(ts[i] == tail[i - 1]);
                    }
                }
            }
        } else if is_digit_char(c) {
            let j = number_run_end(s, 0, false);
            assert(number_run_end(s, 0, false) == number_run_end(s, 1, false));
            lemma_number_run_end_bounds(s, 1, false);
            let tail = token_seq(s.skip(j as int), line, col + j);
            lemma_token_lines_bounded(s.skip(j as int), line, col + j);
            assert forall|i: int| 0 <= i < ts.len() implies (#[trigger] ts[i]).line >= line by {
                if i > 0 {
                    assert(ts[i] == tail[i - 1]);
                }
            }
        } else if is_alpha_char(c) {
            let j = word_run_end(s, 0);
            assert(word_run_end(s, 0) == word_run_end(s, 1));
            lemma_word_run_end_bounds(s, 1);
            let tail = token_seq(s.skip(j as int), line, col + j);
            lemma_token_lines_bounded(s.skip(j as int), line, col + j);
            assert forall|i: int| 0 <= i < ts.len() implies (#[trigger] ts[i]).line >= line by {
                if i > 0 {
                    assert(ts[i] == tail[i - 1]);
                }
            }
        }
    }
}

/// Law: an empty or whitespace-only text yields no tokens, whatever
/// position scanning starts at.
pub proof fn lemma_blank_text_yields_nothing(s: Seq<char>, line: nat, col: nat)
    requires
        forall|i: int| 0 <= i < s.len() ==> is_blank_char(#[trigger] s[i]),
    ensures
        token_seq(s, line, col) == Seq::<TokenView>::empty(),
    decreases s.len(),
{
    if s.len() > 0 {
        assert forall|i: int| 0 <= i < s.skip(1int).len() implies is_blank_char(
            #[trigger] s.skip(1int)[i],
        ) by {
            assert(s.skip(1int)[i] == s[i + 1]);
        }
        if s[0] == '\n' {
            lemma_blank_text_yields_nothing(s.skip(1int), line + 1, 1);
        } else {
            lemma_blank_text_yields_nothing(s.skip(1int), line, col + 1);
        }
    }
}

/// Law: a `/` that no second `/` and no `*` follows — or that ends the
/// input — is the division symbol: the token sequence starts with
/// `Slash` at the current position.
pub proof fn lemma_lone_slash_is_division(s: Seq<char>, line: nat, col: nat)
    requires
        s.len() > 0,
        s[0] == '/',
        s.len() == 1 || (s[1] != '/' && s[1] != '*'),
    ensures
        token_seq(s, line, col) == seq![sym_tv(Symbol::Slash, line, col)] + token_seq(
            s.skip(1int),
            line,
            col + 1,
        ),
{
}

/// Law: `//` opens a comment that runs to the end of the line and emits
/// nothing: scanning resumes on the next line — or the sequence ends
/// with the input — and in particular no token of the text, `Slash`
/// included, lies on the comment's own line.
pub proof fn lemma_line_comment_consumes_line(s: Seq<char>, line: nat, col: nat)
    requires
        s.len() >= 2,
        s[0] == '/',
        s[1] == '/',
    ensures
        token_seq(s, line, col) == (if find_char(s, 2, '\n') < s.len() {
            token_seq(s.skip(find_char(s, 2, '\n') + 1int), line + 1, 1)
        } else {
            Seq::<TokenView>::empty()
        }),
        forall|i: int|
            0 <= i < token_seq(s, line, col).len() ==> (#[trigger] token_seq(s, line, col)[i]).line
                > line,
{
    let ts = token_seq(s, line, col);
    let j = find_char(s, 2, '\n');
    if j < s.len() {
        lemma_token_lines_bounded(s.skip(j + 1int), line + 1, 1);
        assert forall|i: int| 0 <= i < ts.len() implies (#[trigger] ts[i]).line > line by {
            assert(ts[i] == token_seq(s.skip(j + 1int), line + 1, 1)[i]);
        }
    }
}

/// Law: a multi-line comment `/*`, body, `*/` — where the body nowhere
/// contains the terminator pair — consumes exactly through its
/// terminator and emits nothing: scanning resumes after the `*/` with
/// the line advanced by exactly the number of line breaks in the body,
/// however many `*` characters not followed by `/` the body contains.
pub proof fn lemma_block_comment(body: Seq<char>, rest: Seq<char>, line: nat, col: nat)
    requires
        forall|k: int|
            0 <= k < body.len() - 1 ==> !(#[trigger] body[k] == '*' && body[k + 1] == '/'),
    ensures
        ({
            let s = seq!['/', '*'] + body + seq!['*', '/'] + rest;
            let p = pos_after(seq!['/', '*'] + body + seq!['*', '/'], line, col);
            &&& token_seq(s, line, col) == token_seq(rest, p.0, p.1)
            &&& p.0 == line + newline_count(body)
        }),
{
    let opener = seq!['/', '*'];
    let closer = seq!['*', '/'];
    let comment = opener + body + closer;
    let s = comment + rest;
    let j = 2 + body.len() as int;
    assert(s[0] == '/');
    assert(s[1int] == '*');
    assert(s[j] == '*');
    assert(s[j + 1] == '/');
    assert forall|k: int| 2 <= k < j implies !(#[trigger] s[k] == '*' && s[k + 1] == '/') by {
        if k < j - 1 {
            assert(s[k] == body[k - 2] && s[k + 1] == body[k - 1]);
        } else {
            assert(s[k + 1] == '*');
        }
    }
    lemma_find_block_end_found(s, 2, (2 + body.len()) as nat);
    assert(s.skip(j + 2) =~= rest);
    assert(s.take(j + 2) =~= comment);
    lemma_pos_after_line(comment, line, col);
    lemma_newline_count_concat(opener + body, closer);
    lemma_newline_count_concat(opener, body);
    assert(opener + body + closer =~= (opener + body) + closer);
    lemma_newline_count_two(opener);
    lemma_newline_count_two(closer);
}

/// A two-character sequence without a line break counts none.
proof fn lemma_newline_count_two(s: Seq<char>)
    requires
        s.len() == 2,
        s[0] != '\n',
        s[1] != '\n',
    ensures
        newline_count(s) == 0,
{
    assert(s.skip(1int).skip(1int) =~= Seq::<char>::empty());
    assert(newline_count(s.skip(1int).skip(1int)) == 0);
    assert(newline_count(s.skip(1int)) == 0);
    assert(newline_count(s) == 0);
}

// ---------------------------------------------------------------------------
// Executable character classification
// ---------------------------------------------------------------------------
/// Whether `c` is whitespace; agrees with `char::is_whitespace`.
fn is_blank(c: char) -> (r: bool)
    ensures
        r == is_blank_char(c),
{
    let u = c as u32;
    u == 0x09 || u == 0x0A || u == 0x0B || u == 0x0C || u == 0x0D || u == 0x20 || u == 0x85 || u
        == 0xA0 || u == 0x1680 || (0x2000 <= u && u <= 0x200A) || u == 0x2028 || u == 0x2029 || u
        == 0x202F || u == 0x205F || u == 0x3000
}

fn is_digit(c: char) -> (r: bool)
    ensures
        r == is_digit_char(c),
{
    let u = c as u32;
    0x30 <= u && u <= 0x39
}

fn is_alpha(c: char) -> (r: bool)
    ensures
        r == is_alpha_char(c),
{
    let u = c as u32;
    (0x41 <= u && u <= 0x5A) || (0x61 <= u && u <= 0x7A)
}

fn is_word(c: char) -> (r: bool)
    ensures
        r == is_word_char(c),
{
    is_alpha(c) || is_digit(c)
}

fn simple_symbol(c: char) -> (r: Option<Symbol>)
    ensures
        r == simple_symbol_of(c),
{
    if c == ':' {
        Some(Symbol::Colon)
    } else if c == ';' {
        Some(Symbol::Semicolon)
    } else if c == '+' {
        Some(Symbol::Plus)
    } else if c == '-' {
        Some(Symbol::Minus)
    } else if c == '=' {
        Some(Symbol::Equal)
    } else if c == '>' {
        Some(Symbol::GreaterThan)
    } else if c == '<' {
        Some(Symbol::LesserThan)
    } else if c == '^' {
        Some(Symbol::Caret)
    } else if c == '%' {
        Some(Symbol::Percent)
    } else if c == '|' {
        Some(Symbol::VerticalBar)
    } else if c == '&' {
        Some(Symbol::Ampersand)
    } else if c == '*' {
        Some(Symbol::Asterisk)
    } else if c == '(' {
        Some(Symbol::ParenthesisLeft)
    } else if c == ')' {
        Some(Symbol::ParenthesisRight)
    } else if c == '{' {
        Some(Symbol::BraceLeft)
    } else if c == '}' {
        Some(Symbol::BraceRight)
    } else if c == '[' {
        Some(Symbol::BracketLeft)
    } else if c == ']' {
        Some(Symbol::BracketRight)
    } else {
        None
    }
}

/// Whether the string equals the given literal, character for character.
pub(crate) fn eq_str(a: &String, b: &str) -> (r: bool)
    ensures
        r == (a@ == b@),
{
    let owned: String = b.to_owned();
    *a == owned
}

/// The keyword that `name` spells, if any; agrees with `keyword_of`.
fn keyword_lookup(name: &String) -> (r: Option<Keyword>)
    ensures
        r == keyword_of(name@),
{
    if eq_str(name, "function") {
        Some(Keyword::Function)
    } else if eq_str(name, "let") {
        Some(Keyword::Let)
    } else if eq_str(name, "u8") {
        Some(Keyword::U8)
    } else if eq_str(name, "u16") {
        Some(Keyword::U16)
    } else if eq_str(name, "u32") {
        Some(Keyword::U32)
    } else if eq_str(name, "u64") {
        Some(Keyword::U64)
    } else if eq_str(name, "u128") {
        Some(Keyword::U128)
    } else if eq_str(name, "ubig") {
        Some(Keyword::UBIG)
    } else if eq_str(name, "i8") {
        Some(Keyword::I8)
    } else if eq_str(name, "i16") {
        Some(Keyword::I16)
    } else if eq_str(name, "i32") {
        Some(Keyword::I32)
    } else if eq_str(name, "i64") {
        Some(Keyword::I64)
    } else if eq_str(name, "i128") {
        Some(Keyword::I128)
    } else if eq_str(name, "ibig") {
        Some(Keyword::IBIG)
    } else if eq_str(name, "f32") {
        Some(Keyword::F32)
    } else if eq_str(name, "f64") {
        Some(Keyword::F64)
    } else if eq_str(name, "decimal") {
        Some(Keyword::Decimal)
    } else if eq_str(name, "malleable") {
        Some(Keyword::Malleable)
    } else if eq_str(name, "asset") {
        Some(Keyword::Asset)
    } else if eq_str(name, "address") {
        Some(Keyword::Address)
    } else if eq_str(name, "revert") {
        Some(Keyword::Revert)
    } else if eq_str(name, "if") {
        Some(Keyword::If)
    } else if eq_str(name, "as") {
        Some(Keyword::As)
    } else if eq_str(name, "else") {
        Some(Keyword::Else)
    } else if eq_str(name, "return") {
        Some(Keyword::Return)
    } else if eq_str(name, "while") {
        Some(Keyword::While)
    } else if eq_str(name, "for") {
        Some(Keyword::For)
    } else {
        None
    }
}

} // verus!
