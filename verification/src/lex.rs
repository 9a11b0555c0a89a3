//! The two-mode lexer: generic tokens (punctuation, identifiers, indent,
//! newline, comments) and escape-aware value/target scanning, over a single
//! byte cursor with a 1-based line counter.
//!
//! Every public operation is specified against spec functions that define,
//! byte for byte, what the lexer recognizes and where it leaves the cursor.

use vstd::prelude::*;

use crate::blob::{Blob, Builder};
use crate::intern::{Table, intern_sym, intern_table};

verus! {

pub const NEWLINE: u8 = 10;

pub const CARRIAGE_RETURN: u8 = 13;

pub const SPACE: u8 = 32;

pub const HASH: u8 = 35;

pub const DOLLAR: u8 = 36;

pub const COLON: u8 = 58;

pub const EQUALS: u8 = 61;

pub const OPEN_BRACE: u8 = 123;

pub const PIPE: u8 = 124;

pub const CLOSE_BRACE: u8 = 125;

/// A name interned into a [`Table`], abstracted as its symbol's ordinal.
#[derive(Clone, Copy, PartialEq, Eq, Hash, Structural)]
pub struct Identifier {
    id: crate::intern::Symbol,
}

impl View for Identifier {
    type V = int;

    closed spec fn view(&self) -> int {
        self.id@
    }
}

impl Identifier {
    /// Interns `name` and wraps the resulting symbol.
    pub fn new(arena: &mut Table, name: &[u8]) -> (r: Identifier)
        ensures
            r@ == intern_sym(old(arena)@, name@),
            final(arena)@ == intern_table(old(arena)@, name@),
    {
        Identifier { id: arena.insert(name) }
    }
}

/// Two identifiers are equal exactly when their symbol ordinals are equal.
pub proof fn lemma_identifier_eq(a: Identifier, b: Identifier)
    ensures
        (a == b) <==> (a@ == b@),
{
    crate::intern::lemma_symbol_eq(a.id, b.id);
}

/// One piece of an unexpanded value: literal text or a variable reference.
pub enum ValuePart {
    Text(Blob),
    Variable(Identifier),
}

/// The mathematical shape of a [`ValuePart`]: the literal bytes, or the
/// referenced variable's symbol ordinal.
pub enum PartView {
    Text(Seq<u8>),
    Variable(int),
}

impl View for ValuePart {
    type V = PartView;

    open spec fn view(&self) -> PartView {
        match self {
            ValuePart::Text(b) => PartView::Text(b@),
            ValuePart::Variable(i) => PartView::Variable(i@),
        }
    }
}

/// The part views of a sequence of parts, in order.
pub open spec fn parts_view(ps: Seq<ValuePart>) -> Seq<PartView> {
    Seq::new(ps.len(), |i: int| ps[i]@)
}

/// An unexpanded string: an ordered sequence of parts.
pub struct Value {
    pub parts: Vec<ValuePart>,
}

impl View for Value {
    type V = Seq<PartView>;

    open spec fn view(&self) -> Seq<PartView> {
        parts_view(self.parts@)
    }
}

/// Kinds of generic tokens.
#[derive(Clone, Copy, Debug, Eq, PartialEq, Structural)]
pub enum TokenKind {
    Pipe,
    PipePipe,
    Equal,
    Colon,
    Identifier,
    Newline,
    Indent,
}

/// Kinds of declaration-start tokens: a generic token reclassified at the
/// start of a declaration line.
#[derive(Clone, Copy, Debug, Eq, PartialEq, Structural)]
pub enum DeclKind {
    Default,
    Rule,
    Build,
    Pool,
    Include,
    Subninja,
    Identifier,
    Newline,
}

/// A half-open byte range plus the 1-based line it starts on.
#[derive(Clone, Copy, Debug, Eq, PartialEq)]
pub struct SourceLocation {
    start: usize,
    end: usize,
    line: usize,
}

impl SourceLocation {
    pub closed spec fn spec_start(&self) -> int {
        self.start as int
    }

    pub closed spec fn spec_end(&self) -> int {
        self.end as int
    }

    pub closed spec fn spec_line(&self) -> int {
        self.line as int
    }

    /// The token's half-open byte range in the source buffer.
    pub fn range(&self) -> (r: (usize, usize))
        ensures
            r.0 == self.spec_start(),
            r.1 == self.spec_end(),
    {
        (self.start, self.end)
    }

    /// The 1-based line the token starts on.
    pub fn line(&self) -> (r: usize)
        ensures
            r == self.spec_line(),
    {
        self.line
    }
}

/// A (kind, location) pair.
#[derive(Clone, Copy, Debug, Eq, PartialEq)]
pub struct Token<Kind> {
    kind: Kind,
    location: SourceLocation,
}

impl<Kind> Token<Kind> {
    pub closed spec fn spec_kind(&self) -> Kind {
        self.kind
    }

    pub closed spec fn loc(&self) -> SourceLocation {
        self.location
    }
}

impl<Kind: Copy> Token<Kind> {
    pub fn kind(&self) -> (k: Kind)
        ensures
            k == self.spec_kind(),
    {
        self.kind
    }

    pub fn location(&self) -> (l: SourceLocation)
        ensures
            l == self.loc(),
    {
        self.location
    }
}

/// Lexing failures: a malformed byte or escape, or a declaration line that
/// starts with something other than an identifier or newline.
#[derive(Clone, Copy, Debug, Eq, PartialEq, Structural)]
pub enum LexError {
    UnknownToken,
    InvalidDeclStart,
}

/// What one step of generic lexing produced.
enum Lexed {
    Token(Token<TokenKind>),
    Eof,
    Comment,
}

/// Bytes allowed in a bare (unbraced) variable name.
pub open spec fn is_bare_identifier_byte(b: u8) -> bool {
    (97 <= b && b <= 122) || (65 <= b && b <= 90) || (48 <= b && b <= 57) || b == 95 || b == 45
}

/// Bytes allowed in identifiers and braced variable names.
pub open spec fn is_identifier_byte(b: u8) -> bool {
    is_bare_identifier_byte(b) || b == 46
}

fn is_bare_identifier(b: u8) -> (r: bool)
    ensures
        r == is_bare_identifier_byte(b),
{
    (97 <= b && b <= 122) || (65 <= b && b <= 90) || (48 <= b && b <= 57) || b == 95 || b == 45
}

fn is_identifier(b: u8) -> (r: bool)
    ensures
        r == is_identifier_byte(b),
{
    is_bare_identifier(b) || b == 46
}

/// The position just past the maximal run of identifier bytes starting at `i`.
pub open spec fn ident_end(s: Seq<u8>, i: int) -> int
    decreases s.len() - i,
    when 0 <= i <= s.len()
{
    if i < s.len() && is_identifier_byte(s[i]) {
        ident_end(s, i + 1)
    } else {
        i
    }
}

/// The position just past the maximal run of bare-identifier bytes at `i`.
pub open spec fn bare_ident_end(s: Seq<u8>, i: int) -> int
    decreases s.len() - i,
    when 0 <= i <= s.len()
{
    if i < s.len() && is_bare_identifier_byte(s[i]) {
        bare_ident_end(s, i + 1)
    } else {
        i
    }
}

/// The position just past the maximal run of spaces starting at `i`.
pub open spec fn indent_end(s: Seq<u8>, i: int) -> int
    decreases s.len() - i,
    when 0 <= i <= s.len()
{
    if i < s.len() && s[i] == SPACE {
        indent_end(s, i + 1)
    } else {
        i
    }
}

/// The position just past the first newline at or after `i`, if any.
pub open spec fn comment_end(s: Seq<u8>, i: int) -> Option<int>
    decreases s.len() - i,
    when 0 <= i <= s.len()
{
    if i >= s.len() {
        None
    } else if s[i] == NEWLINE {
        Some(i + 1)
    } else {
        comment_end(s, i + 1)
    }
}

/// Where the cursor lands after skipping trailing whitespace: spaces, and
/// `$`-escaped line continuations (`$` followed by a newline, a space, or a
/// carriage return and newline).
pub open spec fn skip_ws(s: Seq<u8>, i: int) -> int
    decreases s.len() - i,
    when 0 <= i <= s.len()
{
    if i < s.len() && s[i] == SPACE {
        skip_ws(s, i + 1)
    } else if i < s.len() && s[i] == DOLLAR {
        if i + 1 < s.len() && (s[i + 1] == NEWLINE || s[i + 1] == SPACE) {
            skip_ws(s, i + 2)
        } else if i + 2 < s.len() && s[i + 1] == CARRIAGE_RETURN && s[i + 2] == NEWLINE {
            skip_ws(s, i + 3)
        } else {
            i
        }
    } else {
        i
    }
}

pub proof fn lemma_ident_end(s: Seq<u8>, i: int)
    requires
        0 <= i <= s.len(),
    ensures
        i <= ident_end(s, i) <= s.len(),
    decreases s.len() - i,
{
    if i < s.len() && is_identifier_byte(s[i]) {
        lemma_ident_end(s, i + 1);
    }
}

pub proof fn lemma_bare_ident_end(s: Seq<u8>, i: int)
    requires
        0 <= i <= s.len(),
    ensures
        i <= bare_ident_end(s, i) <= s.len(),
    decreases s.len() - i,
{
    if i < s.len() && is_bare_identifier_byte(s[i]) {
        lemma_bare_ident_end(s, i + 1);
    }
}

pub proof fn lemma_indent_end(s: Seq<u8>, i: int)
    requires
        0 <= i <= s.len(),
    ensures
        i <= indent_end(s, i) <= s.len(),
    decreases s.len() - i,
{
    if i < s.len() && s[i] == SPACE {
        lemma_indent_end(s, i + 1);
    }
}

pub proof fn lemma_comment_end(s: Seq<u8>, i: int)
    requires
        0 <= i <= s.len(),
    ensures
        match comment_end(s, i) {
            Some(e) => i < e <= s.len(),
            None => true,
        },
    decreases s.len() - i,
{
    if i < s.len() && s[i] != NEWLINE {
        lemma_comment_end(s, i + 1);
    }
}

pub proof fn lemma_skip_ws(s: Seq<u8>, i: int)
    requires
        0 <= i <= s.len(),
    ensures
        i <= skip_ws(s, i) <= s.len(),
    decreases s.len() - i,
{
    if i < s.len() && s[i] == SPACE {
        lemma_skip_ws(s, i + 1);
    } else if i < s.len() && s[i] == DOLLAR {
        if i + 1 < s.len() && (s[i + 1] == NEWLINE || s[i + 1] == SPACE) {
            lemma_skip_ws(s, i + 2);
        } else if i + 2 < s.len() && s[i + 1] == CARRIAGE_RETURN && s[i + 2] == NEWLINE {
            lemma_skip_ws(s, i + 3);
        }
    }
}

/// What one generic lexing step yields at `(pos, line)`: a token with its
/// range, reported line, and the line counter after it; end of input; a
/// discarded comment; or a lexing failure.
pub enum LexOneView {
    Token { kind: TokenKind, start: int, end: int, line: int, next_line: int },
    End,
    Comment { next_pos: int, next_line: int },
    Error,
}

/// One generic lexing step. Tokens are `=`, `:`, `|`, `||`, maximal
/// identifier runs, maximal space runs (indent), `\n` or `\r\n` newlines;
/// `#` starts a comment discarded through its newline; anything else is an
/// error, as is a comment that reaches end of input or a `\r` without `\n`.
pub open spec fn spec_lex_one(s: Seq<u8>, pos: int, line: int) -> LexOneView
    recommends
        0 <= pos <= s.len(),
{
    if pos >= s.len() {
        LexOneView::End
    } else {
        let b = s[pos];
        if b == EQUALS {
            LexOneView::Token { kind: TokenKind::Equal, start: pos, end: pos + 1, line, next_line: line }
        } else if b == COLON {
            LexOneView::Token { kind: TokenKind::Colon, start: pos, end: pos + 1, line, next_line: line }
        } else if b == PIPE {
            if pos + 1 < s.len() && s[pos + 1] == PIPE {
                LexOneView::Token { kind: TokenKind::PipePipe, start: pos, end: pos + 2, line, next_line: line }
            } else {
                LexOneView::Token { kind: TokenKind::Pipe, start: pos, end: pos + 1, line, next_line: line }
            }
        } else if is_identifier_byte(b) {
            LexOneView::Token { kind: TokenKind::Identifier, start: pos, end: ident_end(s, pos), line, next_line: line }
        } else if b == SPACE {
            LexOneView::Token { kind: TokenKind::Indent, start: pos, end: indent_end(s, pos), line, next_line: line }
        } else if b == CARRIAGE_RETURN {
            if pos + 1 < s.len() && s[pos + 1] == NEWLINE {
                LexOneView::Token { kind: TokenKind::Newline, start: pos, end: pos + 2, line, next_line: line + 1 }
            } else {
                LexOneView::Error
            }
        } else if b == NEWLINE {
            LexOneView::Token { kind: TokenKind::Newline, start: pos, end: pos + 1, line, next_line: line + 1 }
        } else if b == HASH {
            match comment_end(s, pos + 1) {
                Some(e) => LexOneView::Comment { next_pos: e, next_line: line + 1 },
                None => LexOneView::Error,
            }
        } else {
            LexOneView::Error
        }
    }
}

/// What lexing one token yields: the token plus the cursor and line counter
/// after it (trailing whitespace skipped unless the token is a newline), end
/// of input, or a failure.
pub enum LexView {
    Token { kind: TokenKind, start: int, end: int, line: int, next_pos: int, next_line: int },
    End { next_pos: int, next_line: int },
    Error,
}

/// Lexes one token at `(pos, line)`, discarding comments first; after any
/// token other than a newline, trailing whitespace is consumed.
pub open spec fn spec_lex(s: Seq<u8>, pos: int, line: int) -> LexView
    decreases s.len() - pos,
    when 0 <= pos <= s.len()
    via spec_lex_decreases
{
    match spec_lex_one(s, pos, line) {
        LexOneView::Token { kind, start, end, line: tl, next_line } => LexView::Token {
            kind,
            start,
            end,
            line: tl,
            next_pos: if kind == TokenKind::Newline { end } else { skip_ws(s, end) },
            next_line,
        },
        LexOneView::End => LexView::End { next_pos: pos, next_line: line },
        LexOneView::Comment { next_pos, next_line } => spec_lex(s, next_pos, next_line),
        LexOneView::Error => LexView::Error,
    }
}

#[via_fn]
proof fn spec_lex_decreases(s: Seq<u8>, pos: int, line: int) {
    if pos < s.len() {
        lemma_comment_end(s, pos + 1);
        lemma_ident_end(s, pos);
        lemma_indent_end(s, pos);
    }
}

/// Bounds of one lexing step: a token occupies a nonempty range starting at
/// the cursor, the cursor only moves forward and stays in the buffer, and
/// the line counter never runs ahead of the cursor by more than one.
pub proof fn lemma_spec_lex_bounds(s: Seq<u8>, pos: int, line: int)
    requires
        0 <= pos <= s.len(),
    ensures
        match spec_lex(s, pos, line) {
            LexView::Token { kind, start, end, line: tl, next_pos, next_line } => {
                &&& pos <= start < end <= next_pos <= s.len()
                &&& line <= tl
                &&& tl <= next_line
                &&& (1 <= line ==> 1 <= next_line)
                &&& (line <= pos + 1 ==> tl <= start + 1 && next_line <= next_pos + 1)
            },
            LexView::End { next_pos, next_line } => {
                &&& pos <= next_pos <= s.len()
                &&& line <= next_line
                &&& (1 <= line ==> 1 <= next_line)
                &&& (line <= pos + 1 ==> next_line <= next_pos + 1)
            },
            LexView::Error => true,
        },
    decreases s.len() - pos,
{
    match spec_lex_one(s, pos, line) {
        LexOneView::Token { kind, start, end, line: tl, next_line } => {
            if pos < s.len() {
                lemma_ident_end(s, pos);
                lemma_indent_end(s, pos);
                if is_identifier_byte(s[pos]) {
                    assert(ident_end(s, pos) == ident_end(s, pos + 1));
                    lemma_ident_end(s, pos + 1);
                }
                if s[pos] == SPACE {
                    assert(indent_end(s, pos) == indent_end(s, pos + 1));
                    lemma_indent_end(s, pos + 1);
                }
                lemma_skip_ws(s, end);
            }
        },
        LexOneView::Comment { next_pos, next_line } => {
            lemma_comment_end(s, pos + 1);
            lemma_spec_lex_bounds(s, next_pos, next_line);
        },
        _ => {},
    }
}

/// Out-of-grammar bytes. Any byte that starts no token --- not `=`, `:`,
/// `|`, an identifier byte, a space, a carriage return, a newline or `#` ---
/// fails lexing with an unknown-token error, at any position and line.
pub proof fn lemma_unknown_byte(s: Seq<u8>, pos: int, line: int)
    requires
        0 <= pos < s.len(),
        s[pos] != EQUALS,
        s[pos] != COLON,
        s[pos] != PIPE,
        !is_identifier_byte(s[pos]),
        s[pos] != SPACE,
        s[pos] != CARRIAGE_RETURN,
        s[pos] != NEWLINE,
        s[pos] != HASH,
    ensures
        spec_lex(s, pos, line) == LexView::Error,
{
}

/// The exact keyword spellings recognized at the start of a declaration.
pub open spec fn kw_default() -> Seq<u8> {
    seq![100u8, 101u8, 102u8, 97u8, 117u8, 108u8, 116u8]
}

pub open spec fn kw_rule() -> Seq<u8> {
    seq![114u8, 117u8, 108u8, 101u8]
}

pub open spec fn kw_build() -> Seq<u8> {
    seq![98u8, 117u8, 105u8, 108u8, 100u8]
}

pub open spec fn kw_pool() -> Seq<u8> {
    seq![112u8, 111u8, 111u8, 108u8]
}

pub open spec fn kw_include() -> Seq<u8> {
    seq![105u8, 110u8, 99u8, 108u8, 117u8, 100u8, 101u8]
}

pub open spec fn kw_subninja() -> Seq<u8> {
    seq![115u8, 117u8, 98u8, 110u8, 105u8, 110u8, 106u8, 97u8]
}

/// The declaration kind of an identifier lexeme: a keyword if it matches
/// one exactly, else a plain identifier.
pub open spec fn spec_keyword(lexeme: Seq<u8>) -> DeclKind {
    if lexeme == kw_default() {
        DeclKind::Default
    } else if lexeme == kw_rule() {
        DeclKind::Rule
    } else if lexeme == kw_build() {
        DeclKind::Build
    } else if lexeme == kw_pool() {
        DeclKind::Pool
    } else if lexeme == kw_include() {
        DeclKind::Include
    } else if lexeme == kw_subninja() {
        DeclKind::Subninja
    } else {
        DeclKind::Identifier
    }
}

/// How a generic token is reclassified at the start of a declaration line:
/// newlines pass through, identifiers go through keyword matching, anything
/// else is not a valid declaration start.
pub open spec fn spec_decl_of(kind: TokenKind, lexeme: Seq<u8>) -> Option<DeclKind> {
    if kind == TokenKind::Newline {
        Some(DeclKind::Newline)
    } else if kind == TokenKind::Identifier {
        Some(spec_keyword(lexeme))
    } else {
        None
    }
}

/// What lexing one declaration-start token yields.
pub enum DeclTokView {
    Token { kind: DeclKind, start: int, end: int, line: int, next_pos: int, next_line: int },
    End { next_pos: int, next_line: int },
    Error { err: LexError },
}

/// Lexes one declaration-start token: a generic token reclassified by
/// [`spec_decl_of`].
pub open spec fn spec_lex_decl(s: Seq<u8>, pos: int, line: int) -> DeclTokView {
    match spec_lex(s, pos, line) {
        LexView::Token { kind, start, end, line: tl, next_pos, next_line } => match spec_decl_of(
            kind,
            s.subrange(start, end),
        ) {
            Some(dk) => DeclTokView::Token { kind: dk, start, end, line: tl, next_pos, next_line },
            None => DeclTokView::Error { err: LexError::InvalidDeclStart },
        },
        LexView::End { next_pos, next_line } => DeclTokView::End { next_pos, next_line },
        LexView::Error => DeclTokView::Error { err: LexError::UnknownToken },
    }
}

/// A byte-oriented cursor over an immutable input buffer, tracking the
/// current position and a 1-based line counter.
pub struct Lexer<'a> {
    input: &'a [u8],
    pos: usize,
    line: usize,
}

impl<'a> Lexer<'a> {
    /// The input buffer being lexed.
    pub closed spec fn src(&self) -> Seq<u8> {
        self.input@
    }

    /// The cursor: the position of the next unread byte.
    pub closed spec fn cur(&self) -> int {
        self.pos as int
    }

    /// The current 1-based line number.
    pub closed spec fn cur_line(&self) -> int {
        self.line as int
    }

    /// The cursor stays inside the buffer and the line counter never runs
    /// ahead of it by more than one. The buffer is strictly smaller than the
    /// address space, which every real allocation satisfies.
    pub closed spec fn wf(&self) -> bool {
        &&& self.pos <= self.input@.len()
        &&& self.input@.len() < usize::MAX
        &&& 1 <= self.line
        &&& self.line <= self.pos + 1
    }

    /// A well-formed lexer's cursor stays inside its buffer.
    pub broadcast proof fn lemma_wf(l: Lexer<'a>)
        requires
            #[trigger] l.wf(),
        ensures
            0 <= l.cur() <= l.src().len(),
            l.src().len() < usize::MAX,
            1 <= l.cur_line(),
    {
    }

    /// A lexer at the start of `input`, on line 1.
    pub fn new(input: &'a [u8]) -> (l: Lexer<'a>)
        requires
            input@.len() < usize::MAX,
        ensures
            l.wf(),
            l.src() == input@,
            l.cur() == 0,
            l.cur_line() == 1,
    {
        Lexer { input, pos: 0, line: 1 }
    }

    /// The bytes a token's location covers.
    pub fn lexeme<Kind>(&self, token: Token<Kind>) -> (r: &'a [u8])
        requires
            0 <= token.loc().spec_start() <= token.loc().spec_end() <= self.src().len(),
        ensures
            r@ == self.src().subrange(token.loc().spec_start(), token.loc().spec_end()),
    {
        vstd::slice::slice_subrange(self.input, token.location.start, token.location.end)
    }

    /// Whether the next byte is a space, i.e. whether an indented line
    /// follows. Does not move the cursor.
    pub fn try_indent(&mut self) -> (r: bool)
        requires
            old(self).wf(),
        ensures
            *final(self) == *old(self),
            r == (old(self).cur() < old(self).src().len() && old(self).src()[old(self).cur()]
                == SPACE),
    {
        match self.peek() {
            Some(b) => b == SPACE,
            None => false,
        }
    }

    fn peek(&self) -> (r: Option<u8>)
        requires
            self.wf(),
        ensures
            r == if self.cur() < self.src().len() {
                Some(self.src()[self.cur()])
            } else {
                None::<u8>
            },
    {
        if self.pos < self.input.len() {
            Some(*vstd::slice::slice_index_get(self.input, self.pos))
        } else {
            None
        }
    }

    fn advance(&mut self)
        requires
            old(self).wf(),
            old(self).cur() < old(self).src().len(),
        ensures
            final(self).wf(),
            final(self).src() == old(self).src(),
            final(self).cur() == old(self).cur() + 1,
            final(self).cur_line() == old(self).cur_line(),
    {
        self.pos = self.pos + 1;
    }

    /// Builds a token spanning from `start` to the cursor, on the current
    /// line, and advances the line counter past a newline token.
    fn token(&mut self, kind: TokenKind, start: usize) -> (t: Token<TokenKind>)
        requires
            old(self).wf(),
            start < old(self).cur(),
            old(self).cur_line() <= start + 1,
        ensures
            final(self).wf(),
            final(self).src() == old(self).src(),
            final(self).cur() == old(self).cur(),
            t.spec_kind() == kind,
            t.loc().spec_start() == start,
            t.loc().spec_end() == old(self).cur(),
            t.loc().spec_line() == old(self).cur_line(),
            final(self).cur_line() == if kind == TokenKind::Newline {
                old(self).cur_line() + 1
            } else {
                old(self).cur_line()
            },
    {
        let location = SourceLocation { start, end: self.pos, line: self.line };
        if kind == TokenKind::Newline {
            self.line = self.line + 1;
        }
        Token { kind, location }
    }

    /// Consumes trailing whitespace: spaces and `$`-escaped line
    /// continuations. Never fails and never touches the line counter.
    fn skip_whitespace(&mut self)
        requires
            old(self).wf(),
        ensures
            final(self).wf(),
            final(self).src() == old(self).src(),
            final(self).cur_line() == old(self).cur_line(),
            final(self).cur() == skip_ws(old(self).src(), old(self).cur()),
    {
        let ghost s = self.src();
        let ghost pos0 = self.cur();
        let ghost line0 = self.cur_line();
        loop
            invariant
                self.wf(),
                self.src() == s,
                self.cur_line() == line0,
                pos0 <= self.cur(),
                skip_ws(s, pos0) == skip_ws(s, self.cur()),
            ensures
                self.wf(),
                self.src() == s,
                self.cur_line() == line0,
                self.cur() == skip_ws(s, pos0),
            decreases s.len() - self.cur(),
        {
            match self.peek() {
                Some(b) => {
                    if b == SPACE {
                        self.advance();
                    } else if b == DOLLAR {
                        let dollar = self.pos;
                        self.advance();
                        match self.peek() {
                            Some(b2) => {
                                if b2 == NEWLINE || b2 == SPACE {
                                    self.advance();
                                } else if b2 == CARRIAGE_RETURN {
                                    self.advance();
                                    match self.peek() {
                                        Some(b3) => {
                                            if b3 == NEWLINE {
                                                self.advance();
                                            } else {
                                                self.pos = dollar;
                                                break;
                                            }
                                        },
                                        None => {
                                            self.pos = dollar;
                                            break;
                                        },
                                    }
                                } else {
                                    self.pos = dollar;
                                    break;
                                }
                            },
                            None => {
                                self.pos = dollar;
                                break;
                            },
                        }
                    } else {
                        break;
                    }
                },
                None => {
                    break;
                },
            }
        }
    }


    /// One generic lexing step: one token, end of input, or one discarded
    /// comment, as [`spec_lex_one`] describes.
    fn lex_one(&mut self) -> (r: Result<Lexed, LexError>)
        requires
            old(self).wf(),
        ensures
            final(self).wf(),
            final(self).src() == old(self).src(),
            match spec_lex_one(old(self).src(), old(self).cur(), old(self).cur_line()) {
                LexOneView::Token { kind, start, end, line, next_line } => {
                    &&& r matches Ok(Lexed::Token(t))
                    &&& t.spec_kind() == kind
                    &&& t.loc().spec_start() == start
                    &&& t.loc().spec_end() == end
                    &&& t.loc().spec_line() == line
                    &&& final(self).cur() == end
                    &&& final(self).cur_line() == next_line
                },
                LexOneView::End => {
                    &&& r matches Ok(Lexed::Eof)
                    &&& *final(self) == *old(self)
                },
                LexOneView::Comment { next_pos, next_line } => {
                    &&& r matches Ok(Lexed::Comment)
                    &&& final(self).cur() == next_pos
                    &&& final(self).cur_line() == next_line
                },
                LexOneView::Error => r matches Err(e) && e == LexError::UnknownToken,
            },
    {
        let ghost s = self.src();
        let ghost line0 = self.cur_line();
        match self.peek() {
            None => Ok(Lexed::Eof),
            Some(b) => {
                let start = self.pos;
                if b == EQUALS {
                    self.advance();
                    Ok(Lexed::Token(self.token(TokenKind::Equal, start)))
                } else if b == COLON {
                    self.advance();
                    Ok(Lexed::Token(self.token(TokenKind::Colon, start)))
                } else if b == PIPE {
                    self.advance();
                    match self.peek() {
                        Some(b2) => {
                            if b2 == PIPE {
                                self.advance();
                                Ok(Lexed::Token(self.token(TokenKind::PipePipe, start)))
                            } else {
                                Ok(Lexed::Token(self.token(TokenKind::Pipe, start)))
                            }
                        },
                        None => Ok(Lexed::Token(self.token(TokenKind::Pipe, start))),
                    }
                } else if is_identifier(b) {
                    self.advance();
                    while self.pos < self.input.len() && is_identifier(*vstd::slice::slice_index_get(self.input, self.pos))
                        invariant
                            self.wf(),
                            self.src() == s,
                            s == old(self).src(),
                            start == old(self).cur(),
                            line0 == old(self).cur_line(),
                            line0 <= start + 1,
                            self.cur_line() == line0,
                            start < self.cur() <= s.len(),
                            ident_end(s, start as int) == ident_end(s, self.cur()),
                        decreases s.len() - self.cur(),
                    {
                        self.advance();
                    }
                    Ok(Lexed::Token(self.token(TokenKind::Identifier, start)))
                } else if b == SPACE {
                    self.advance();
                    while self.pos < self.input.len() && *vstd::slice::slice_index_get(self.input, self.pos) == SPACE
                        invariant
                            self.wf(),
                            self.src() == s,
                            s == old(self).src(),
                            start == old(self).cur(),
                            line0 == old(self).cur_line(),
                            line0 <= start + 1,
                            self.cur_line() == line0,
                            start < self.cur() <= s.len(),
                            indent_end(s, start as int) == indent_end(s, self.cur()),
                        decreases s.len() - self.cur(),
                    {
                        self.advance();
                    }
                    Ok(Lexed::Token(self.token(TokenKind::Indent, start)))
                } else if b == CARRIAGE_RETURN {
                    self.advance();
                    match self.peek() {
                        Some(b2) => {
                            if b2 == NEWLINE {
                                self.advance();
                                Ok(Lexed::Token(self.token(TokenKind::Newline, start)))
                            } else {
                                Err(LexError::UnknownToken)
                            }
                        },
                        None => Err(LexError::UnknownToken),
                    }
                } else if b == NEWLINE {
                    self.advance();
                    Ok(Lexed::Token(self.token(TokenKind::Newline, start)))
                } else if b == HASH {
                    self.advance();
                    while self.pos < self.input.len() && *vstd::slice::slice_index_get(self.input, self.pos) != NEWLINE
                        invariant
                            self.wf(),
                            self.src() == s,
                            s == old(self).src(),
                            start == old(self).cur(),
                            line0 == old(self).cur_line(),
                            line0 <= start + 1,
                            self.cur_line() == line0,
                            start < self.cur() <= s.len(),
                            s[start as int] == HASH,
                            comment_end(s, start + 1) == comment_end(s, self.cur()),
                        decreases s.len() - self.cur(),
                    {
                        self.advance();
                    }
                    if self.pos == self.input.len() {
                        return Err(LexError::UnknownToken);
                    }
                    self.advance();
                    self.line = self.line + 1;
                    Ok(Lexed::Comment)
                } else {
                    Err(LexError::UnknownToken)
                }
            },
        }
    }


    /// Scans one `$` escape, with the cursor just past the `$`.
    /// [`spec_lex_dollar`] gives the exact part, cursor, and intern table.
    fn lex_dollar(&mut self, arena: &mut Table) -> (r: Result<ValuePart, LexError>)
        requires
            old(self).wf(),
        ensures
            final(self).wf(),
            final(self).src() == old(self).src(),
            final(self).cur_line() == old(self).cur_line(),
            old(arena)@.is_prefix_of(final(arena)@),
            match spec_lex_dollar(old(self).src(), old(self).cur(), old(arena)@) {
                DollarRes::Part { part, next_pos, table } => {
                    &&& r matches Ok(p)
                    &&& p@ == part
                    &&& final(self).cur() == next_pos
                    &&& final(arena)@ == table
                },
                DollarRes::Fail => r matches Err(e) && e == LexError::UnknownToken,
            },
    {
        let ghost s = self.src();
        let ghost line0 = self.cur_line();
        let ghost t0 = arena@;
        proof {
            crate::intern::lemma_prefix_refl(t0);
        }
        match self.peek() {
            None => Err(LexError::UnknownToken),
            Some(b) => {
                if b == SPACE || b == COLON || b == DOLLAR {
                    self.advance();
                    let mut builder = Builder::new();
                    builder.push(b);
                    proof {
                        assert(builder@ =~= seq![b]);
                    }
                    Ok(ValuePart::Text(builder.blob()))
                } else if b == NEWLINE {
                    self.advance();
                    self.skip_whitespace();
                    Ok(ValuePart::Text(Blob::empty()))
                } else if b == CARRIAGE_RETURN {
                    self.advance();
                    match self.peek() {
                        Some(b2) => {
                            if b2 == NEWLINE {
                                self.advance();
                                self.skip_whitespace();
                                Ok(ValuePart::Text(Blob::empty()))
                            } else {
                                Err(LexError::UnknownToken)
                            }
                        },
                        None => Err(LexError::UnknownToken),
                    }
                } else if b == OPEN_BRACE {
                    self.advance();
                    let start = self.pos;
                    while self.pos < self.input.len() && is_identifier(
                        *vstd::slice::slice_index_get(self.input, self.pos),
                    )
                        invariant
                            self.wf(),
                            self.src() == s,
                            s == old(self).src(),
                            start as int == old(self).cur() + 1,
                            self.cur_line() == line0,
                            start <= self.cur() <= s.len(),
                            ident_end(s, start as int) == ident_end(s, self.cur()),
                        decreases s.len() - self.cur(),
                    {
                        self.advance();
                    }
                    match self.peek() {
                        Some(b2) => {
                            if b2 == CLOSE_BRACE {
                                let name = vstd::slice::slice_subrange(
                                    self.input,
                                    start,
                                    self.pos,
                                );
                                self.advance();
                                let variable = Identifier::new(arena, name);
                                proof {
                                    crate::intern::lemma_intern_extends(t0, name@);
                                }
                                Ok(ValuePart::Variable(variable))
                            } else {
                                Err(LexError::UnknownToken)
                            }
                        },
                        None => Err(LexError::UnknownToken),
                    }
                } else if is_bare_identifier(b) {
                    let start = self.pos;
                    self.advance();
                    while self.pos < self.input.len() && is_bare_identifier(
                        *vstd::slice::slice_index_get(self.input, self.pos),
                    )
                        invariant
                            self.wf(),
                            self.src() == s,
                            s == old(self).src(),
                            start as int == old(self).cur(),
                            self.cur_line() == line0,
                            start < self.cur() <= s.len(),
                            bare_ident_end(s, start as int) == bare_ident_end(s, self.cur()),
                        decreases s.len() - self.cur(),
                    {
                        self.advance();
                    }
                    let name = vstd::slice::slice_subrange(self.input, start, self.pos);
                    let variable = Identifier::new(arena, name);
                    proof {
                        crate::intern::lemma_intern_extends(t0, name@);
                    }
                    Ok(ValuePart::Variable(variable))
                } else {
                    Err(LexError::UnknownToken)
                }
            },
        }
    }

    /// Scans a value: accumulates literal and variable parts until an
    /// unescaped newline, which is not consumed. The scan never produces
    /// absence: an empty value is a value with no parts. [`spec_value_scan`]
    /// gives the exact parts, cursor, and intern table.
    pub fn lex_value(&mut self, arena: &mut Table) -> (r: Result<Option<Value>, LexError>)
        requires
            old(self).wf(),
        ensures
            final(self).wf(),
            final(self).src() == old(self).src(),
            final(self).cur_line() == old(self).cur_line(),
            old(arena)@.is_prefix_of(final(arena)@),
            match spec_value_scan(
                old(self).src(),
                old(self).cur(),
                old(arena)@,
                Seq::<PartView>::empty(),
            ) {
                ScanRes::Stopped { parts, next_pos, table } => {
                    &&& r matches Ok(Some(v))
                    &&& v@ == parts
                    &&& final(self).cur() == next_pos
                    &&& final(arena)@ == table
                },
                ScanRes::Fail => r matches Err(e) && e == LexError::UnknownToken,
            },
    {
        let ghost s = self.src();
        let ghost pos0 = self.cur();
        let ghost t0 = arena@;
        let mut parts: Vec<ValuePart> = Vec::new();
        proof {
            crate::intern::lemma_prefix_refl(t0);
            assert(parts_view(parts@) =~= Seq::<PartView>::empty());
        }
        loop
            invariant
                self.wf(),
                self.src() == s,
                s == old(self).src(),
                pos0 == old(self).cur(),
                t0 == old(arena)@,
                self.cur_line() == old(self).cur_line(),
                t0.is_prefix_of(arena@),
                spec_value_scan(s, pos0, t0, Seq::<PartView>::empty()) == spec_value_scan(
                    s,
                    self.cur(),
                    arena@,
                    parts_view(parts@),
                ),
            decreases s.len() - self.cur(),
        {
            match self.peek() {
                None => {
                    return Err(LexError::UnknownToken);
                },
                Some(b) => {
                    if b == NEWLINE {
                        return Ok(Some(Value { parts }));
                    } else if b == DOLLAR {
                        self.advance();
                        let ghost t_mid = arena@;
                        proof {
                            lemma_spec_lex_dollar(s, self.cur(), arena@);
                        }
                        match self.lex_dollar(arena) {
                            Err(e) => {
                                proof {
                                    crate::intern::lemma_prefix_trans(t0, t_mid, arena@);
                                }
                                return Err(e);
                            },
                            Ok(part) => {
                                proof {
                                    lemma_parts_view_push(parts@, part);
                                    crate::intern::lemma_prefix_trans(t0, t_mid, arena@);
                                }
                                parts.push(part);
                            },
                        }
                    } else {
                        self.advance();
                        let mut builder = Builder::new();
                        builder.push(b);
                        let part = ValuePart::Text(builder.blob());
                        proof {
                            assert(builder@ =~= seq![b]);
                            lemma_parts_view_push(parts@, part);
                        }
                        parts.push(part);
                    }
                },
            }
        }
    }

    /// Scans one target: accumulates parts until an unescaped `|`, `:`,
    /// space or newline, consumes trailing whitespace, and returns `None`
    /// when nothing was accumulated, which is how a caller detects the end
    /// of a space-separated target list. [`spec_lex_target`] gives the
    /// exact result.
    pub fn lex_target(&mut self, arena: &mut Table) -> (r: Result<Option<Value>, LexError>)
        requires
            old(self).wf(),
        ensures
            final(self).wf(),
            final(self).src() == old(self).src(),
            final(self).cur_line() == old(self).cur_line(),
            old(arena)@.is_prefix_of(final(arena)@),
            match spec_lex_target(old(self).src(), old(self).cur(), old(arena)@) {
                TargetRes::Present { parts, next_pos, table } => {
                    &&& r matches Ok(Some(v))
                    &&& v@ == parts
                    &&& final(self).cur() == next_pos
                    &&& final(arena)@ == table
                },
                TargetRes::Absent { next_pos, table } => {
                    &&& r matches Ok(o) && o is None
                    &&& final(self).cur() == next_pos
                    &&& final(arena)@ == table
                },
                TargetRes::Fail => r matches Err(e) && e == LexError::UnknownToken,
            },
    {
        let ghost s = self.src();
        let ghost pos0 = self.cur();
        let ghost t0 = arena@;
        let mut parts: Vec<ValuePart> = Vec::new();
        proof {
            crate::intern::lemma_prefix_refl(t0);
            assert(parts_view(parts@) =~= Seq::<PartView>::empty());
        }
        loop
            invariant
                self.wf(),
                self.src() == s,
                s == old(self).src(),
                pos0 == old(self).cur(),
                t0 == old(arena)@,
                self.cur_line() == old(self).cur_line(),
                t0.is_prefix_of(arena@),
                spec_target_scan(s, pos0, t0, Seq::<PartView>::empty()) == spec_target_scan(
                    s,
                    self.cur(),
                    arena@,
                    parts_view(parts@),
                ),
            ensures
                self.wf(),
                self.src() == s,
                self.cur_line() == old(self).cur_line(),
                t0.is_prefix_of(arena@),
                spec_target_scan(s, pos0, t0, Seq::<PartView>::empty()) == (ScanRes::Stopped {
                    parts: parts_view(parts@),
                    next_pos: self.cur(),
                    table: arena@,
                }),
            decreases s.len() - self.cur(),
        {
            match self.peek() {
                None => {
                    return Err(LexError::UnknownToken);
                },
                Some(b) => {
                    if b == PIPE || b == COLON || b == SPACE || b == NEWLINE {
                        break;
                    } else if b == DOLLAR {
                        self.advance();
                        let ghost t_mid = arena@;
                        proof {
                            lemma_spec_lex_dollar(s, self.cur(), arena@);
                        }
                        match self.lex_dollar(arena) {
                            Err(e) => {
                                proof {
                                    crate::intern::lemma_prefix_trans(t0, t_mid, arena@);
                                }
                                return Err(e);
                            },
                            Ok(part) => {
                                proof {
                                    lemma_parts_view_push(parts@, part);
                                    crate::intern::lemma_prefix_trans(t0, t_mid, arena@);
                                }
                                parts.push(part);
                            },
                        }
                    } else {
                        self.advance();
                        let mut builder = Builder::new();
                        builder.push(b);
                        let part = ValuePart::Text(builder.blob());
                        proof {
                            assert(builder@ =~= seq![b]);
                            lemma_parts_view_push(parts@, part);
                        }
                        parts.push(part);
                    }
                },
            }
        }
        proof {
            lemma_skip_ws(s, self.cur());
        }
        self.skip_whitespace();
        if parts.is_empty() {
            Ok(None)
        } else {
            Ok(Some(Value { parts }))
        }
    }

    /// Lexes the next generic token, discarding comments; after any token
    /// other than a newline, trailing whitespace is consumed. Returns `None`
    /// at end of input. [`spec_lex`] gives the exact result.
    #[verifier::loop_isolation(false)]
    pub fn lex(&mut self) -> (r: Result<Option<Token<TokenKind>>, LexError>)
        requires
            old(self).wf(),
        ensures
            final(self).wf(),
            final(self).src() == old(self).src(),
            match spec_lex(old(self).src(), old(self).cur(), old(self).cur_line()) {
                LexView::Token { kind, start, end, line, next_pos, next_line } => {
                    &&& r matches Ok(Some(t))
                    &&& t.spec_kind() == kind
                    &&& t.loc().spec_start() == start
                    &&& t.loc().spec_end() == end
                    &&& t.loc().spec_line() == line
                    &&& final(self).cur() == next_pos
                    &&& final(self).cur_line() == next_line
                },
                LexView::End { next_pos, next_line } => {
                    &&& r matches Ok(o) && o is None
                    &&& final(self).cur() == next_pos
                    &&& final(self).cur_line() == next_line
                },
                LexView::Error => r matches Err(e) && e == LexError::UnknownToken,
            },
    {
        let ghost s = self.src();
        let ghost pos0 = self.cur();
        let ghost line0 = self.cur_line();
        loop
            invariant
                self.wf(),
                self.src() == s,
                spec_lex(s, pos0, line0) == spec_lex(s, self.cur(), self.cur_line()),
            decreases s.len() - self.cur(),
        {
            let ghost p = self.cur();
            match self.lex_one() {
                Err(e) => {
                    return Err(e);
                },
                Ok(lexed) => match lexed {
                    Lexed::Token(token) => {
                        proof {
                            if token.spec_kind() != TokenKind::Newline {
                                lemma_skip_ws(s, self.cur());
                            }
                        }
                        if token.kind() != TokenKind::Newline {
                            self.skip_whitespace();
                        }
                        return Ok(Some(token));
                    },
                    Lexed::Eof => {
                        return Ok(None);
                    },
                    Lexed::Comment => {
                        proof {
                            lemma_comment_end(s, p + 1);
                        }
                    },
                },
            }
        }
    }

    /// Reclassifies a just-lexed generic token as a declaration-start token:
    /// a newline passes through, an identifier goes through keyword
    /// matching, anything else is no declaration start.
    fn decl(&self, token: Token<TokenKind>) -> (r: Option<Token<DeclKind>>)
        requires
            0 <= token.loc().spec_start() <= token.loc().spec_end() <= self.src().len(),
        ensures
            match spec_decl_of(
                token.spec_kind(),
                self.src().subrange(token.loc().spec_start(), token.loc().spec_end()),
            ) {
                Some(dk) => r matches Some(d) && d.spec_kind() == dk && d.loc() == token.loc(),
                None => r is None,
            },
    {
        let kind = match token.kind() {
            TokenKind::Newline => DeclKind::Newline,
            TokenKind::Identifier => self.keyword(token),
            _ => {
                return None;
            },
        };
        Some(Token { kind, location: token.location })
    }

    /// Matches an identifier token's lexeme against the keyword set.
    fn keyword(&self, token: Token<TokenKind>) -> (k: DeclKind)
        requires
            0 <= token.loc().spec_start() <= token.loc().spec_end() <= self.src().len(),
        ensures
            k == spec_keyword(
                self.src().subrange(token.loc().spec_start(), token.loc().spec_end()),
            ),
    {
        keyword_of(self.lexeme(token))
    }

    /// Lexes the next declaration-start token. [`spec_lex_decl`] gives the
    /// exact result.
    pub fn lex_decl(&mut self) -> (r: Result<Option<Token<DeclKind>>, LexError>)
        requires
            old(self).wf(),
        ensures
            final(self).wf(),
            final(self).src() == old(self).src(),
            match spec_lex_decl(old(self).src(), old(self).cur(), old(self).cur_line()) {
                DeclTokView::Token { kind, start, end, line, next_pos, next_line } => {
                    &&& r matches Ok(Some(t))
                    &&& t.spec_kind() == kind
                    &&& t.loc().spec_start() == start
                    &&& t.loc().spec_end() == end
                    &&& t.loc().spec_line() == line
                    &&& final(self).cur() == next_pos
                    &&& final(self).cur_line() == next_line
                },
                DeclTokView::End { next_pos, next_line } => {
                    &&& r matches Ok(o) && o is None
                    &&& final(self).cur() == next_pos
                    &&& final(self).cur_line() == next_line
                },
                DeclTokView::Error { err } => r matches Err(e) && e == err,
            },
    {
        proof {
            lemma_spec_lex_bounds(self.src(), self.cur(), self.cur_line());
        }
        match self.lex() {
            Err(e) => Err(e),
            Ok(None) => Ok(None),
            Ok(Some(token)) => match self.decl(token) {
                Some(decl) => Ok(Some(decl)),
                None => Err(LexError::InvalidDeclStart),
            },
        }
    }
}


/// What scanning one `$` escape yields, with the cursor just past the `$`:
/// a part, the cursor after it, and the intern table after it; or a failure.
pub enum DollarRes {
    Part { part: PartView, next_pos: int, table: Seq<Seq<u8>> },
    Fail,
}

/// One `$` escape: a space, colon or dollar becomes a one-byte literal; a
/// newline (or carriage return and newline) is a line continuation, consumed
/// together with any following spaces, leaving an empty literal; `{` opens a
/// braced variable name read up to a mandatory `}`; a bare-identifier byte
/// starts a variable name read to its maximal extent; anything else, or end
/// of input, fails. Variable names are interned.
pub open spec fn spec_lex_dollar(s: Seq<u8>, pos: int, t: Seq<Seq<u8>>) -> DollarRes
    recommends
        0 <= pos <= s.len(),
{
    if pos >= s.len() {
        DollarRes::Fail
    } else {
        let b = s[pos];
        if b == SPACE || b == COLON || b == DOLLAR {
            DollarRes::Part { part: PartView::Text(seq![b]), next_pos: pos + 1, table: t }
        } else if b == NEWLINE {
            DollarRes::Part {
                part: PartView::Text(Seq::empty()),
                next_pos: skip_ws(s, pos + 1),
                table: t,
            }
        } else if b == CARRIAGE_RETURN {
            if pos + 1 < s.len() && s[pos + 1] == NEWLINE {
                DollarRes::Part {
                    part: PartView::Text(Seq::empty()),
                    next_pos: skip_ws(s, pos + 2),
                    table: t,
                }
            } else {
                DollarRes::Fail
            }
        } else if b == OPEN_BRACE {
            let e = ident_end(s, pos + 1);
            if e < s.len() && s[e] == CLOSE_BRACE {
                let name = s.subrange(pos + 1, e);
                DollarRes::Part {
                    part: PartView::Variable(intern_sym(t, name)),
                    next_pos: e + 1,
                    table: intern_table(t, name),
                }
            } else {
                DollarRes::Fail
            }
        } else if is_bare_identifier_byte(b) {
            let e = bare_ident_end(s, pos);
            let name = s.subrange(pos, e);
            DollarRes::Part {
                part: PartView::Variable(intern_sym(t, name)),
                next_pos: e,
                table: intern_table(t, name),
            }
        } else {
            DollarRes::Fail
        }
    }
}

/// A successful `$` escape consumes at least one byte, stays inside the
/// buffer, and only ever grows the intern table.
pub proof fn lemma_spec_lex_dollar(s: Seq<u8>, pos: int, t: Seq<Seq<u8>>)
    requires
        0 <= pos <= s.len(),
    ensures
        match spec_lex_dollar(s, pos, t) {
            DollarRes::Part { part, next_pos, table } => pos < next_pos <= s.len()
                && t.is_prefix_of(table),
            DollarRes::Fail => true,
        },
{
    crate::intern::lemma_prefix_refl(t);
    if pos < s.len() {
        let b = s[pos];
        lemma_skip_ws(s, pos + 1);
        if pos + 1 < s.len() && s[pos + 1] == NEWLINE {
            lemma_skip_ws(s, pos + 2);
        }
        if b == OPEN_BRACE {
            lemma_ident_end(s, pos + 1);
            let e = ident_end(s, pos + 1);
            if e < s.len() && s[e] == CLOSE_BRACE {
                crate::intern::lemma_intern_extends(t, s.subrange(pos + 1, e));
            }
        }
        if is_bare_identifier_byte(b) {
            assert(bare_ident_end(s, pos) == bare_ident_end(s, pos + 1));
            lemma_bare_ident_end(s, pos + 1);
            crate::intern::lemma_intern_extends(t, s.subrange(pos, bare_ident_end(s, pos)));
        }
    }
}

/// What scanning free text yields: the accumulated parts, the cursor at the
/// stopping byte, and the intern table; or a failure.
pub enum ScanRes {
    Stopped { parts: Seq<PartView>, next_pos: int, table: Seq<Seq<u8>> },
    Fail,
}

/// Value scanning from `pos` with parts `acc` already accumulated: each
/// unescaped byte becomes a one-byte literal part, `$` starts an escape, and
/// an unescaped newline stops the scan without being consumed; end of input
/// mid-value fails.
pub open spec fn spec_value_scan(s: Seq<u8>, pos: int, t: Seq<Seq<u8>>, acc: Seq<PartView>) -> ScanRes
    decreases s.len() - pos,
    when 0 <= pos <= s.len()
    via spec_value_scan_decreases
{
    if pos >= s.len() {
        ScanRes::Fail
    } else if s[pos] == NEWLINE {
        ScanRes::Stopped { parts: acc, next_pos: pos, table: t }
    } else if s[pos] == DOLLAR {
        match spec_lex_dollar(s, pos + 1, t) {
            DollarRes::Part { part, next_pos, table } => spec_value_scan(
                s,
                next_pos,
                table,
                acc.push(part),
            ),
            DollarRes::Fail => ScanRes::Fail,
        }
    } else {
        spec_value_scan(s, pos + 1, t, acc.push(PartView::Text(seq![s[pos]])))
    }
}

#[via_fn]
proof fn spec_value_scan_decreases(s: Seq<u8>, pos: int, t: Seq<Seq<u8>>, acc: Seq<PartView>) {
    if 0 <= pos < s.len() {
        lemma_spec_lex_dollar(s, pos + 1, t);
    }
}

/// The bytes that stop a target scan when unescaped.
pub open spec fn is_target_stop(b: u8) -> bool {
    b == PIPE || b == COLON || b == SPACE || b == NEWLINE
}

/// Target scanning from `pos` with parts `acc` already accumulated: like
/// value scanning, but it stops at the first unescaped `|`, `:`, space or
/// newline, without consuming it.
pub open spec fn spec_target_scan(s: Seq<u8>, pos: int, t: Seq<Seq<u8>>, acc: Seq<PartView>) -> ScanRes
    decreases s.len() - pos,
    when 0 <= pos <= s.len()
    via spec_target_scan_decreases
{
    if pos >= s.len() {
        ScanRes::Fail
    } else if is_target_stop(s[pos]) {
        ScanRes::Stopped { parts: acc, next_pos: pos, table: t }
    } else if s[pos] == DOLLAR {
        match spec_lex_dollar(s, pos + 1, t) {
            DollarRes::Part { part, next_pos, table } => spec_target_scan(
                s,
                next_pos,
                table,
                acc.push(part),
            ),
            DollarRes::Fail => ScanRes::Fail,
        }
    } else {
        spec_target_scan(s, pos + 1, t, acc.push(PartView::Text(seq![s[pos]])))
    }
}

#[via_fn]
proof fn spec_target_scan_decreases(s: Seq<u8>, pos: int, t: Seq<Seq<u8>>, acc: Seq<PartView>) {
    if 0 <= pos < s.len() {
        lemma_spec_lex_dollar(s, pos + 1, t);
    }
}

/// A value scan stays inside the buffer, only grows the intern table, and
/// only appends to the accumulated parts.
pub proof fn lemma_spec_value_scan(s: Seq<u8>, pos: int, t: Seq<Seq<u8>>, acc: Seq<PartView>)
    requires
        0 <= pos <= s.len(),
    ensures
        match spec_value_scan(s, pos, t, acc) {
            ScanRes::Stopped { parts, next_pos, table } => pos <= next_pos <= s.len()
                && t.is_prefix_of(table) && acc.is_prefix_of(parts),
            ScanRes::Fail => true,
        },
    decreases s.len() - pos,
{
    crate::intern::lemma_prefix_refl(t);
    crate::intern::lemma_prefix_refl(acc);
    if pos < s.len() {
        if s[pos] == NEWLINE {
        } else if s[pos] == DOLLAR {
            lemma_spec_lex_dollar(s, pos + 1, t);
            match spec_lex_dollar(s, pos + 1, t) {
                DollarRes::Part { part, next_pos, table } => {
                    lemma_spec_value_scan(s, next_pos, table, acc.push(part));
                    lemma_push_prefix(acc, part);
                    match spec_value_scan(s, next_pos, table, acc.push(part)) {
                        ScanRes::Stopped { parts, next_pos: p2, table: t2 } => {
                            crate::intern::lemma_prefix_trans(t, table, t2);
                            crate::intern::lemma_prefix_trans(acc, acc.push(part), parts);
                        },
                        ScanRes::Fail => {},
                    }
                },
                DollarRes::Fail => {},
            }
        } else {
            let part = PartView::Text(seq![s[pos]]);
            lemma_spec_value_scan(s, pos + 1, t, acc.push(part));
            lemma_push_prefix(acc, part);
            match spec_value_scan(s, pos + 1, t, acc.push(part)) {
                ScanRes::Stopped { parts, next_pos: p2, table: t2 } => {
                    crate::intern::lemma_prefix_trans(acc, acc.push(part), parts);
                },
                ScanRes::Fail => {},
            }
        }
    }
}

/// A target scan stays inside the buffer, only grows the intern table, and
/// only appends to the accumulated parts.
pub proof fn lemma_spec_target_scan(s: Seq<u8>, pos: int, t: Seq<Seq<u8>>, acc: Seq<PartView>)
    requires
        0 <= pos <= s.len(),
    ensures
        match spec_target_scan(s, pos, t, acc) {
            ScanRes::Stopped { parts, next_pos, table } => pos <= next_pos <= s.len()
                && t.is_prefix_of(table) && acc.is_prefix_of(parts) && (next_pos == pos
                ==> parts == acc),
            ScanRes::Fail => true,
        },
    decreases s.len() - pos,
{
    crate::intern::lemma_prefix_refl(t);
    crate::intern::lemma_prefix_refl(acc);
    if pos < s.len() {
        if is_target_stop(s[pos]) {
        } else if s[pos] == DOLLAR {
            lemma_spec_lex_dollar(s, pos + 1, t);
            match spec_lex_dollar(s, pos + 1, t) {
                DollarRes::Part { part, next_pos, table } => {
                    lemma_spec_target_scan(s, next_pos, table, acc.push(part));
                    lemma_push_prefix(acc, part);
                    match spec_target_scan(s, next_pos, table, acc.push(part)) {
                        ScanRes::Stopped { parts, next_pos: p2, table: t2 } => {
                            crate::intern::lemma_prefix_trans(t, table, t2);
                            crate::intern::lemma_prefix_trans(acc, acc.push(part), parts);
                        },
                        ScanRes::Fail => {},
                    }
                },
                DollarRes::Fail => {},
            }
        } else {
            let part = PartView::Text(seq![s[pos]]);
            lemma_spec_target_scan(s, pos + 1, t, acc.push(part));
            lemma_push_prefix(acc, part);
            match spec_target_scan(s, pos + 1, t, acc.push(part)) {
                ScanRes::Stopped { parts, next_pos: p2, table: t2 } => {
                    crate::intern::lemma_prefix_trans(acc, acc.push(part), parts);
                },
                ScanRes::Fail => {},
            }
        }
    }
}

/// A sequence is a prefix of itself extended by one element.
proof fn lemma_push_prefix<A>(s: Seq<A>, x: A)
    ensures
        s.is_prefix_of(s.push(x)),
{
    assert(s.push(x).subrange(0, s.len() as int) =~= s);
}

/// Pushing a part commutes with taking part views.
pub proof fn lemma_parts_view_push(ps: Seq<ValuePart>, p: ValuePart)
    ensures
        parts_view(ps.push(p)) == parts_view(ps).push(p@),
{
    assert(parts_view(ps.push(p)) =~= parts_view(ps).push(p@));
}

/// What lexing one target yields: a present target's parts, the absence of a
/// target (the scan stopped before accumulating anything), or a failure; in
/// the first two cases, the cursor after trailing whitespace and the intern
/// table after the scan.
pub enum TargetRes {
    Present { parts: Seq<PartView>, next_pos: int, table: Seq<Seq<u8>> },
    Absent { next_pos: int, table: Seq<Seq<u8>> },
    Fail,
}

/// Lexes one space-separated target: scans up to the first unescaped stop
/// byte, consumes trailing whitespace, and reports absence when nothing was
/// accumulated.
pub open spec fn spec_lex_target(s: Seq<u8>, pos: int, t: Seq<Seq<u8>>) -> TargetRes {
    match spec_target_scan(s, pos, t, Seq::empty()) {
        ScanRes::Stopped { parts, next_pos, table } => {
            let p = skip_ws(s, next_pos);
            if parts.len() == 0 {
                TargetRes::Absent { next_pos: p, table }
            } else {
                TargetRes::Present { parts, next_pos: p, table }
            }
        },
        ScanRes::Fail => TargetRes::Fail,
    }
}

/// Matches a lexeme against the fixed keyword spellings.
fn keyword_of(lexeme: &[u8]) -> (k: DeclKind)
    ensures
        k == spec_keyword(lexeme@),
{
    if lexeme.len() == 7 && lexeme[0] == 100 && lexeme[1] == 101 && lexeme[2] == 102 && lexeme[3]
        == 97 && lexeme[4] == 117 && lexeme[5] == 108 && lexeme[6] == 116 {
        proof {
            assert(lexeme@ =~= kw_default());
        }
        DeclKind::Default
    } else if lexeme.len() == 4 && lexeme[0] == 114 && lexeme[1] == 117 && lexeme[2] == 108
        && lexeme[3] == 101 {
        proof {
            assert(lexeme@ =~= kw_rule());
        }
        DeclKind::Rule
    } else if lexeme.len() == 5 && lexeme[0] == 98 && lexeme[1] == 117 && lexeme[2] == 105
        && lexeme[3] == 108 && lexeme[4] == 100 {
        proof {
            assert(lexeme@ =~= kw_build());
        }
        DeclKind::Build
    } else if lexeme.len() == 4 && lexeme[0] == 112 && lexeme[1] == 111 && lexeme[2] == 111
        && lexeme[3] == 108 {
        proof {
            assert(lexeme@ =~= kw_pool());
        }
        DeclKind::Pool
    } else if lexeme.len() == 7 && lexeme[0] == 105 && lexeme[1] == 110 && lexeme[2] == 99
        && lexeme[3] == 108 && lexeme[4] == 117 && lexeme[5] == 100 && lexeme[6] == 101 {
        proof {
            assert(lexeme@ =~= kw_include());
        }
        DeclKind::Include
    } else if lexeme.len() == 8 && lexeme[0] == 115 && lexeme[1] == 117 && lexeme[2] == 98
        && lexeme[3] == 110 && lexeme[4] == 105 && lexeme[5] == 110 && lexeme[6] == 106
        && lexeme[7] == 97 {
        proof {
            assert(lexeme@ =~= kw_subninja());
        }
        DeclKind::Subninja
    } else {
        proof {
            assert(lexeme@ != kw_default());
            assert(lexeme@ != kw_rule());
            assert(lexeme@ != kw_build());
            assert(lexeme@ != kw_pool());
            assert(lexeme@ != kw_include());
            assert(lexeme@ != kw_subninja());
        }
        DeclKind::Identifier
    }
}

} // verus!
