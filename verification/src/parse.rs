//! The recursive-descent parser: drives the lexer over one buffer and builds
//! the declarations and scopes of a file, expanding every binding eagerly
//! against the top-level scope.
//!
//! The spec functions below define the grammar exactly: each one mirrors one
//! parsing step, threading the cursor, line counter, intern table, scope
//! store and declaration list through.

use vstd::prelude::*;

use crate::ast;
use crate::ast::{
    AstError, Binding, Build, Declarations, DeclarationView, File, Pool, Rule, ScopeView, Scope,
    Scopes, eval_parts, fold_bindings, bindings_view, targets_view,
};
use crate::blob::Builder;
use crate::intern::{Table, intern_sym, intern_table, lemma_prefix_refl, lemma_prefix_trans};
use crate::lex;
use crate::lex::{
    DeclKind, DeclTokView, Identifier, LexError, Lexer, LexView, PartView, ScanRes, TargetRes,
    Token, TokenKind, spec_lex, spec_lex_decl, spec_lex_target, spec_value_scan,
    lemma_spec_lex_bounds, lemma_spec_target_scan, lemma_spec_value_scan, SPACE,
};

verus! {

broadcast use lex::Lexer::lemma_wf, ast::Scopes::lemma_wf_auto;

/// Parse-level failures: a lexing or scope failure, or a grammar violation
/// with what was expected and what came instead.
#[derive(Clone, Copy, Debug, Eq, PartialEq, Structural)]
pub enum ParseError {
    LexError(LexError),
    AstError(AstError),
    MissingNewline,
    UnexpectedToken { got: TokenKind },
    UnexpectedEof,
    InvalidValue,
    PoolDepthInvalid,
    Expected { expected: TokenKind, got: TokenKind },
    Unimplemented,
}

/// The state a parse threads along: the cursor, the line counter, the intern
/// table, the scope store, and the declarations so far.
pub struct ParseSt {
    pub pos: int,
    pub line: int,
    pub table: Seq<Seq<u8>>,
    pub scopes: Seq<ScopeView>,
    pub decls: Seq<DeclarationView>,
}

/// The state a parse starts from: an empty declaration list and a scope
/// store holding only the empty top scope.
pub open spec fn init_st(pos: int, line: int, table: Seq<Seq<u8>>) -> ParseSt {
    ParseSt {
        pos,
        line,
        table,
        scopes: seq![ScopeView { bindings: Map::<int, Seq<u8>>::empty(), parent: None }],
        decls: Seq::empty(),
    }
}

/// Consumes one token of the expected kind: anything else is an error, as is
/// end of input.
pub open spec fn sp_consume(s: Seq<u8>, pos: int, line: int, expected: TokenKind) -> Result<
    (int, int, int, int),
    ParseError,
> {
    match spec_lex(s, pos, line) {
        LexView::Token { kind, start, end, line: _, next_pos, next_line } => if kind == expected {
            Ok((start, end, next_pos, next_line))
        } else {
            Err(ParseError::Expected { expected, got: kind })
        },
        LexView::End { .. } => Err(ParseError::UnexpectedEof),
        LexView::Error => Err(ParseError::LexError(LexError::UnknownToken)),
    }
}

pub proof fn lemma_sp_consume(s: Seq<u8>, pos: int, line: int, expected: TokenKind)
    requires
        0 <= pos <= s.len(),
    ensures
        match sp_consume(s, pos, line, expected) {
            Ok((start, end, next_pos, next_line)) => pos <= start < end <= next_pos <= s.len(),
            Err(_) => true,
        },
{
    lemma_spec_lex_bounds(s, pos, line);
}

/// Consumes one identifier token and interns its lexeme.
pub open spec fn sp_identifier(s: Seq<u8>, pos: int, line: int, t: Seq<Seq<u8>>) -> Result<
    (int, int, int, Seq<Seq<u8>>),
    ParseError,
> {
    match sp_consume(s, pos, line, TokenKind::Identifier) {
        Ok((start, end, next_pos, next_line)) => {
            let name = s.subrange(start, end);
            Ok((intern_sym(t, name), next_pos, next_line, intern_table(t, name)))
        },
        Err(e) => Err(e),
    }
}

pub proof fn lemma_sp_identifier(s: Seq<u8>, pos: int, line: int, t: Seq<Seq<u8>>)
    requires
        0 <= pos <= s.len(),
    ensures
        match sp_identifier(s, pos, line, t) {
            Ok((sym, next_pos, next_line, t2)) => pos < next_pos <= s.len(),
            Err(_) => true,
        },
{
    lemma_sp_consume(s, pos, line, TokenKind::Identifier);
}

/// Scans one value; value scanning always yields a (possibly empty) value.
pub open spec fn sp_value(s: Seq<u8>, pos: int, t: Seq<Seq<u8>>) -> Result<
    (Seq<PartView>, int, Seq<Seq<u8>>),
    ParseError,
> {
    match spec_value_scan(s, pos, t, Seq::empty()) {
        ScanRes::Stopped { parts, next_pos, table } => Ok((parts, next_pos, table)),
        ScanRes::Fail => Err(ParseError::LexError(LexError::UnknownToken)),
    }
}

pub proof fn lemma_sp_value(s: Seq<u8>, pos: int, t: Seq<Seq<u8>>)
    requires
        0 <= pos <= s.len(),
    ensures
        match sp_value(s, pos, t) {
            Ok((parts, next_pos, t2)) => pos <= next_pos <= s.len(),
            Err(_) => true,
        },
{
    lemma_spec_value_scan(s, pos, t, Seq::empty());
}

/// Parses `= value Newline` for a name already read, and expands the value
/// against the given top-level bindings.
pub open spec fn sp_top_binding(
    s: Seq<u8>,
    pos: int,
    line: int,
    t: Seq<Seq<u8>>,
    top: Map<int, Seq<u8>>,
    sym: int,
) -> Result<((int, Seq<u8>), int, int, Seq<Seq<u8>>), ParseError> {
    match sp_consume(s, pos, line, TokenKind::Equal) {
        Ok((_, _, p1, l1)) => match sp_value(s, p1, t) {
            Ok((parts, p2, t2)) => match sp_consume(s, p2, l1, TokenKind::Newline) {
                Ok((_, _, p3, l3)) => Ok(((sym, eval_parts(top, parts)), p3, l3, t2)),
                Err(e) => Err(e),
            },
            Err(e) => Err(e),
        },
        Err(e) => Err(e),
    }
}

pub proof fn lemma_sp_top_binding(
    s: Seq<u8>,
    pos: int,
    line: int,
    t: Seq<Seq<u8>>,
    top: Map<int, Seq<u8>>,
    sym: int,
)
    requires
        0 <= pos <= s.len(),
    ensures
        match sp_top_binding(s, pos, line, t, top, sym) {
            Ok((b, next_pos, next_line, t2)) => pos < next_pos <= s.len(),
            Err(_) => true,
        },
{
    lemma_sp_consume(s, pos, line, TokenKind::Equal);
    match sp_consume(s, pos, line, TokenKind::Equal) {
        Ok((_, _, p1, l1)) => {
            lemma_sp_value(s, p1, t);
            match sp_value(s, p1, t) {
                Ok((parts, p2, t2)) => {
                    lemma_sp_consume(s, p2, l1, TokenKind::Newline);
                },
                Err(_) => {},
            }
        },
        Err(_) => {},
    }
}

/// Parses one `name = value` binding, expanded against the given top-level
/// bindings.
pub open spec fn sp_binding(
    s: Seq<u8>,
    pos: int,
    line: int,
    t: Seq<Seq<u8>>,
    top: Map<int, Seq<u8>>,
) -> Result<((int, Seq<u8>), int, int, Seq<Seq<u8>>), ParseError> {
    match sp_identifier(s, pos, line, t) {
        Ok((sym, p1, l1, t1)) => sp_top_binding(s, p1, l1, t1, top, sym),
        Err(e) => Err(e),
    }
}

pub proof fn lemma_sp_binding(
    s: Seq<u8>,
    pos: int,
    line: int,
    t: Seq<Seq<u8>>,
    top: Map<int, Seq<u8>>,
)
    requires
        0 <= pos <= s.len(),
    ensures
        match sp_binding(s, pos, line, t, top) {
            Ok((b, next_pos, next_line, t2)) => pos < next_pos <= s.len(),
            Err(_) => true,
        },
{
    lemma_sp_identifier(s, pos, line, t);
    match sp_identifier(s, pos, line, t) {
        Ok((sym, p1, l1, t1)) => {
            lemma_sp_top_binding(s, p1, l1, t1, top, sym);
        },
        Err(_) => {},
    }
}

/// Parses the indented binding block that follows a declaration line: while
/// the next byte is a space, one indent token and one binding per line.
pub open spec fn sp_scope(
    s: Seq<u8>,
    pos: int,
    line: int,
    t: Seq<Seq<u8>>,
    top: Map<int, Seq<u8>>,
    acc: Seq<(int, Seq<u8>)>,
) -> Result<(Seq<(int, Seq<u8>)>, int, int, Seq<Seq<u8>>), ParseError>
    decreases s.len() - pos,
    when 0 <= pos <= s.len()
    via sp_scope_decreases
{
    if pos < s.len() && s[pos] == SPACE {
        match spec_lex(s, pos, line) {
            LexView::Token { kind: _, start: _, end: _, line: _, next_pos, next_line } => {
                match sp_binding(s, next_pos, next_line, t, top) {
                    Ok((b, p2, l2, t2)) => sp_scope(s, p2, l2, t2, top, acc.push(b)),
                    Err(e) => Err(e),
                }
            },
            _ => Err(ParseError::UnexpectedEof),
        }
    } else {
        Ok((acc, pos, line, t))
    }
}

#[via_fn]
proof fn sp_scope_decreases(
    s: Seq<u8>,
    pos: int,
    line: int,
    t: Seq<Seq<u8>>,
    top: Map<int, Seq<u8>>,
    acc: Seq<(int, Seq<u8>)>,
) {
    if 0 <= pos < s.len() {
        lemma_spec_lex_bounds(s, pos, line);
        match spec_lex(s, pos, line) {
            LexView::Token { kind: _, start: _, end: _, line: _, next_pos, next_line } => {
                lemma_sp_binding(s, next_pos, next_line, t, top);
            },
            _ => {},
        }
    }
}

pub proof fn lemma_sp_scope(
    s: Seq<u8>,
    pos: int,
    line: int,
    t: Seq<Seq<u8>>,
    top: Map<int, Seq<u8>>,
    acc: Seq<(int, Seq<u8>)>,
)
    requires
        0 <= pos <= s.len(),
    ensures
        match sp_scope(s, pos, line, t, top, acc) {
            Ok((bs, next_pos, next_line, t2)) => pos <= next_pos <= s.len(),
            Err(_) => true,
        },
    decreases s.len() - pos,
{
    if pos < s.len() && s[pos] == SPACE {
        lemma_spec_lex_bounds(s, pos, line);
        match spec_lex(s, pos, line) {
            LexView::Token { kind: _, start: _, end: _, line: _, next_pos, next_line } => {
                lemma_sp_binding(s, next_pos, next_line, t, top);
                match sp_binding(s, next_pos, next_line, t, top) {
                    Ok((b, p2, l2, t2)) => {
                        lemma_sp_scope(s, p2, l2, t2, top, acc.push(b));
                    },
                    Err(_) => {},
                }
            },
            _ => {},
        }
    }
}

/// Parses the indented binding block and allocates its scope, whose parent
/// is the top scope; a duplicate name fails with a wrapped
/// [`AstError::DuplicateBinding`].
pub open spec fn sp_scope_alloc(
    s: Seq<u8>,
    pos: int,
    line: int,
    t: Seq<Seq<u8>>,
    scopes: Seq<ScopeView>,
) -> Result<(int, int, int, Seq<Seq<u8>>, Seq<ScopeView>), ParseError> {
    match sp_scope(s, pos, line, t, scopes[0].bindings, Seq::empty()) {
        Ok((bs, p, l, t2)) => match fold_bindings(bs, Map::empty(), 0) {
            Ok(m) => Ok(
                (
                    scopes.len() as int,
                    p,
                    l,
                    t2,
                    scopes.push(ScopeView { bindings: m, parent: Some(0int) }),
                ),
            ),
            Err(e) => Err(ParseError::AstError(e)),
        },
        Err(e) => Err(e),
    }
}

pub proof fn lemma_sp_scope_alloc(
    s: Seq<u8>,
    pos: int,
    line: int,
    t: Seq<Seq<u8>>,
    scopes: Seq<ScopeView>,
)
    requires
        0 <= pos <= s.len(),
    ensures
        match sp_scope_alloc(s, pos, line, t, scopes) {
            Ok((sid, next_pos, next_line, t2, ss)) => pos <= next_pos <= s.len(),
            Err(_) => true,
        },
{
    lemma_sp_scope(s, pos, line, t, scopes[0].bindings, Seq::empty());
}

/// Parses a space-separated target list: targets until the lexer reports
/// that none follows.
pub open spec fn sp_targets(
    s: Seq<u8>,
    pos: int,
    t: Seq<Seq<u8>>,
    acc: Seq<Seq<PartView>>,
) -> Result<(Seq<Seq<PartView>>, int, Seq<Seq<u8>>), ParseError>
    decreases s.len() - pos,
    when 0 <= pos <= s.len()
    via sp_targets_decreases
{
    match spec_lex_target(s, pos, t) {
        TargetRes::Present { parts, next_pos, table } => sp_targets(
            s,
            next_pos,
            table,
            acc.push(parts),
        ),
        TargetRes::Absent { next_pos, table } => Ok((acc, next_pos, table)),
        TargetRes::Fail => Err(ParseError::LexError(LexError::UnknownToken)),
    }
}

/// A present target moves the cursor strictly forward; an absent one may
/// only consume trailing whitespace.
pub proof fn lemma_spec_lex_target_bounds(s: Seq<u8>, pos: int, t: Seq<Seq<u8>>)
    requires
        0 <= pos <= s.len(),
    ensures
        match spec_lex_target(s, pos, t) {
            TargetRes::Present { parts, next_pos, table } => pos < next_pos <= s.len()
                && parts.len() > 0,
            TargetRes::Absent { next_pos, table } => pos <= next_pos <= s.len(),
            TargetRes::Fail => true,
        },
{
    lemma_spec_target_scan(s, pos, t, Seq::empty());
    match lex::spec_target_scan(s, pos, t, Seq::<PartView>::empty()) {
        ScanRes::Stopped { parts, next_pos, table } => {
            lex::lemma_skip_ws(s, next_pos);
            if parts.len() > 0 {
                assert(parts != Seq::<PartView>::empty());
            }
        },
        ScanRes::Fail => {},
    }
}

#[via_fn]
proof fn sp_targets_decreases(s: Seq<u8>, pos: int, t: Seq<Seq<u8>>, acc: Seq<Seq<PartView>>) {
    if 0 <= pos <= s.len() {
        lemma_spec_lex_target_bounds(s, pos, t);
    }
}

pub proof fn lemma_sp_targets(s: Seq<u8>, pos: int, t: Seq<Seq<u8>>, acc: Seq<Seq<PartView>>)
    requires
        0 <= pos <= s.len(),
    ensures
        match sp_targets(s, pos, t, acc) {
            Ok((ts, next_pos, t2)) => pos <= next_pos <= s.len(),
            Err(_) => true,
        },
    decreases s.len() - pos,
{
    lemma_spec_lex_target_bounds(s, pos, t);
    match spec_lex_target(s, pos, t) {
        TargetRes::Present { parts, next_pos, table } => {
            lemma_sp_targets(s, next_pos, table, acc.push(parts));
        },
        _ => {},
    }
}

/// Parses `rule name Newline` plus an indented binding block.
pub open spec fn sp_rule(
    s: Seq<u8>,
    pos: int,
    line: int,
    t: Seq<Seq<u8>>,
    scopes: Seq<ScopeView>,
) -> Result<(DeclarationView, int, int, Seq<Seq<u8>>, Seq<ScopeView>), ParseError> {
    match sp_identifier(s, pos, line, t) {
        Ok((name, p1, l1, t1)) => match sp_consume(s, p1, l1, TokenKind::Newline) {
            Ok((_, _, p2, l2)) => match sp_scope_alloc(s, p2, l2, t1, scopes) {
                Ok((sid, p3, l3, t3, ss)) => Ok(
                    (DeclarationView::Rule { name, scope: sid }, p3, l3, t3, ss),
                ),
                Err(e) => Err(e),
            },
            Err(e) => Err(e),
        },
        Err(e) => Err(e),
    }
}

pub proof fn lemma_sp_rule(
    s: Seq<u8>,
    pos: int,
    line: int,
    t: Seq<Seq<u8>>,
    scopes: Seq<ScopeView>,
)
    requires
        0 <= pos <= s.len(),
    ensures
        match sp_rule(s, pos, line, t, scopes) {
            Ok((d, next_pos, next_line, t2, ss)) => pos <= next_pos <= s.len(),
            Err(_) => true,
        },
{
    lemma_sp_identifier(s, pos, line, t);
    match sp_identifier(s, pos, line, t) {
        Ok((name, p1, l1, t1)) => {
            lemma_sp_consume(s, p1, l1, TokenKind::Newline);
            match sp_consume(s, p1, l1, TokenKind::Newline) {
                Ok((_, _, p2, l2)) => {
                    lemma_sp_scope_alloc(s, p2, l2, t1, scopes);
                },
                Err(_) => {},
            }
        },
        Err(_) => {},
    }
}

/// Parses `default target... Newline`.
pub open spec fn sp_default(s: Seq<u8>, pos: int, line: int, t: Seq<Seq<u8>>) -> Result<
    (DeclarationView, int, int, Seq<Seq<u8>>),
    ParseError,
> {
    match sp_targets(s, pos, t, Seq::empty()) {
        Ok((targets, p1, t1)) => match sp_consume(s, p1, line, TokenKind::Newline) {
            Ok((_, _, p2, l2)) => Ok((DeclarationView::Default { targets }, p2, l2, t1)),
            Err(e) => Err(e),
        },
        Err(e) => Err(e),
    }
}

pub proof fn lemma_sp_default(s: Seq<u8>, pos: int, line: int, t: Seq<Seq<u8>>)
    requires
        0 <= pos <= s.len(),
    ensures
        match sp_default(s, pos, line, t) {
            Ok((d, next_pos, next_line, t2)) => pos <= next_pos <= s.len(),
            Err(_) => true,
        },
{
    lemma_sp_targets(s, pos, t, Seq::empty());
    match sp_targets(s, pos, t, Seq::<Seq<PartView>>::empty()) {
        Ok((targets, p1, t1)) => {
            lemma_sp_consume(s, p1, line, TokenKind::Newline);
        },
        Err(_) => {},
    }
}

/// The spelling of the one binding a pool block must hold.
pub open spec fn kw_depth() -> Seq<u8> {
    seq![100u8, 101u8, 112u8, 116u8, 104u8]
}

/// Whether all bytes are decimal digits.
pub open spec fn all_digits(s: Seq<u8>) -> bool {
    forall|i: int| 0 <= i < s.len() ==> 48 <= #[trigger] s[i] <= 57
}

/// The value of a base-10 digit string.
pub open spec fn digits_val(s: Seq<u8>) -> int
    decreases s.len(),
{
    if s.len() == 0 {
        0
    } else {
        digits_val(s.drop_last()) * 10 + (s.last() - 48)
    }
}

/// A pool's depth value: empty means zero; otherwise an optional `+` sign
/// followed by at least one digit, whose value must fit the machine's word;
/// anything else is malformed.
pub open spec fn spec_parse_depth(bytes: Seq<u8>) -> Option<int> {
    if bytes.len() == 0 {
        Some(0)
    } else {
        let digits = if bytes[0] == 43 {
            bytes.skip(1)
        } else {
            bytes
        };
        if digits.len() > 0 && all_digits(digits) && digits_val(digits) <= usize::MAX as int {
            Some(digits_val(digits))
        } else {
            None
        }
    }
}

/// Parses `pool name Newline` plus an indented binding block, which must
/// hold exactly one binding, named `depth`, whose expanded value is a valid
/// depth; any other shape fails with [`ParseError::PoolDepthInvalid`].
pub open spec fn sp_pool(
    s: Seq<u8>,
    pos: int,
    line: int,
    t: Seq<Seq<u8>>,
    scopes: Seq<ScopeView>,
) -> Result<(DeclarationView, int, int, Seq<Seq<u8>>, Seq<ScopeView>), ParseError> {
    match sp_identifier(s, pos, line, t) {
        Ok((name, p1, l1, t1)) => match sp_consume(s, p1, l1, TokenKind::Newline) {
            Ok((_, _, p2, l2)) => match sp_scope_alloc(s, p2, l2, t1, scopes) {
                Ok((sid, p3, l3, t3, ss)) => {
                    let m = ss[sid].bindings;
                    if m.dom().len() != 1 {
                        Err(ParseError::PoolDepthInvalid)
                    } else {
                        let dsym = intern_sym(t3, kw_depth());
                        let t4 = intern_table(t3, kw_depth());
                        if !m.dom().contains(dsym) {
                            Err(ParseError::PoolDepthInvalid)
                        } else {
                            match spec_parse_depth(m[dsym]) {
                                Some(d) => Ok(
                                    (DeclarationView::Pool { name, depth: d }, p3, l3, t4, ss),
                                ),
                                None => Err(ParseError::PoolDepthInvalid),
                            }
                        }
                    }
                },
                Err(e) => Err(e),
            },
            Err(e) => Err(e),
        },
        Err(e) => Err(e),
    }
}

pub proof fn lemma_sp_pool(
    s: Seq<u8>,
    pos: int,
    line: int,
    t: Seq<Seq<u8>>,
    scopes: Seq<ScopeView>,
)
    requires
        0 <= pos <= s.len(),
    ensures
        match sp_pool(s, pos, line, t, scopes) {
            Ok((d, next_pos, next_line, t2, ss)) => pos <= next_pos <= s.len(),
            Err(_) => true,
        },
{
    lemma_sp_identifier(s, pos, line, t);
    match sp_identifier(s, pos, line, t) {
        Ok((name, p1, l1, t1)) => {
            lemma_sp_consume(s, p1, l1, TokenKind::Newline);
            match sp_consume(s, p1, l1, TokenKind::Newline) {
                Ok((_, _, p2, l2)) => {
                    lemma_sp_scope_alloc(s, p2, l2, t1, scopes);
                },
                Err(_) => {},
            }
        },
        Err(_) => {},
    }
}

/// Parses a build declaration after its keyword: one or more outputs, an
/// optional `|` implicit-output list, a mandatory `:`, a rule name, inputs,
/// then exactly one of a newline, `| implicit-inputs` with an optional
/// `|| order-inputs`, or `|| order-inputs`, each newline-terminated; then an
/// indented binding block.
pub open spec fn sp_build(
    s: Seq<u8>,
    pos: int,
    line: int,
    t: Seq<Seq<u8>>,
    scopes: Seq<ScopeView>,
) -> Result<(DeclarationView, int, int, Seq<Seq<u8>>, Seq<ScopeView>), ParseError> {
    match sp_targets(s, pos, t, Seq::empty()) {
        Ok((outputs, p1, t1)) => match sp_build_outputs(s, p1, line, t1) {
            Ok((implicit_outputs, p2, l2, t2)) => match sp_identifier(s, p2, l2, t2) {
                Ok((rule, p3, l3, t3)) => match sp_targets(s, p3, t3, Seq::empty()) {
                    Ok((inputs, p4, t4)) => match sp_build_inputs(s, p4, l3, t4) {
                        Ok((implicit_inputs, order_inputs, p5, l5, t5)) => match sp_scope_alloc(
                            s,
                            p5,
                            l5,
                            t5,
                            scopes,
                        ) {
                            Ok((sid, p6, l6, t6, ss)) => Ok(
                                (
                                    DeclarationView::Build {
                                        outputs,
                                        implicit_outputs,
                                        rule,
                                        inputs,
                                        implicit_inputs,
                                        order_inputs,
                                        scope: sid,
                                    },
                                    p6,
                                    l6,
                                    t6,
                                    ss,
                                ),
                            ),
                            Err(e) => Err(e),
                        },
                        Err(e) => Err(e),
                    },
                    Err(e) => Err(e),
                },
                Err(e) => Err(e),
            },
            Err(e) => Err(e),
        },
        Err(e) => Err(e),
    }
}

/// After the outputs: either `:`, or `|`, an implicit-output list, and `:`.
pub open spec fn sp_build_outputs(s: Seq<u8>, pos: int, line: int, t: Seq<Seq<u8>>) -> Result<
    (Seq<Seq<PartView>>, int, int, Seq<Seq<u8>>),
    ParseError,
> {
    match spec_lex(s, pos, line) {
        LexView::Token { kind, start: _, end: _, line: _, next_pos, next_line } => {
            if kind == TokenKind::Pipe {
                match sp_targets(s, next_pos, t, Seq::empty()) {
                    Ok((implicit_outputs, p2, t2)) => match sp_consume(
                        s,
                        p2,
                        next_line,
                        TokenKind::Colon,
                    ) {
                        Ok((_, _, p3, l3)) => Ok((implicit_outputs, p3, l3, t2)),
                        Err(e) => Err(e),
                    },
                    Err(e) => Err(e),
                }
            } else if kind == TokenKind::Colon {
                Ok((Seq::empty(), next_pos, next_line, t))
            } else {
                Err(ParseError::UnexpectedToken { got: kind })
            }
        },
        LexView::End { .. } => Err(ParseError::UnexpectedEof),
        LexView::Error => Err(ParseError::LexError(LexError::UnknownToken)),
    }
}

/// After the inputs: a newline; or `|`, implicit inputs, and a newline or
/// `||`, order-only inputs, and a newline; or `||`, order-only inputs, and a
/// newline.
pub open spec fn sp_build_inputs(s: Seq<u8>, pos: int, line: int, t: Seq<Seq<u8>>) -> Result<
    (Seq<Seq<PartView>>, Seq<Seq<PartView>>, int, int, Seq<Seq<u8>>),
    ParseError,
> {
    match spec_lex(s, pos, line) {
        LexView::Token { kind, start: _, end: _, line: _, next_pos, next_line } => {
            if kind == TokenKind::Newline {
                Ok((Seq::empty(), Seq::empty(), next_pos, next_line, t))
            } else if kind == TokenKind::Pipe {
                match sp_targets(s, next_pos, t, Seq::empty()) {
                    Ok((implicit_inputs, p2, t2)) => match spec_lex(s, p2, next_line) {
                        LexView::Token { kind: kind2, start: _, end: _, line: _, next_pos: p3, next_line: l3 } => {
                            if kind2 == TokenKind::Newline {
                                Ok((implicit_inputs, Seq::empty(), p3, l3, t2))
                            } else if kind2 == TokenKind::PipePipe {
                                match sp_targets(s, p3, t2, Seq::empty()) {
                                    Ok((order_inputs, p4, t4)) => match sp_consume(
                                        s,
                                        p4,
                                        l3,
                                        TokenKind::Newline,
                                    ) {
                                        Ok((_, _, p5, l5)) => Ok(
                                            (implicit_inputs, order_inputs, p5, l5, t4),
                                        ),
                                        Err(e) => Err(e),
                                    },
                                    Err(e) => Err(e),
                                }
                            } else {
                                Err(ParseError::UnexpectedToken { got: kind2 })
                            }
                        },
                        LexView::End { .. } => Err(ParseError::UnexpectedEof),
                        LexView::Error => Err(ParseError::LexError(LexError::UnknownToken)),
                    },
                    Err(e) => Err(e),
                }
            } else if kind == TokenKind::PipePipe {
                match sp_targets(s, next_pos, t, Seq::empty()) {
                    Ok((order_inputs, p2, t2)) => match sp_consume(
                        s,
                        p2,
                        next_line,
                        TokenKind::Newline,
                    ) {
                        Ok((_, _, p3, l3)) => Ok((Seq::empty(), order_inputs, p3, l3, t2)),
                        Err(e) => Err(e),
                    },
                    Err(e) => Err(e),
                }
            } else {
                Err(ParseError::UnexpectedToken { got: kind })
            }
        },
        LexView::End { .. } => Err(ParseError::UnexpectedEof),
        LexView::Error => Err(ParseError::LexError(LexError::UnknownToken)),
    }
}

pub proof fn lemma_sp_build_outputs(s: Seq<u8>, pos: int, line: int, t: Seq<Seq<u8>>)
    requires
        0 <= pos <= s.len(),
    ensures
        match sp_build_outputs(s, pos, line, t) {
            Ok((ts, next_pos, next_line, t2)) => pos <= next_pos <= s.len(),
            Err(_) => true,
        },
{
    lemma_spec_lex_bounds(s, pos, line);
    match spec_lex(s, pos, line) {
        LexView::Token { kind, start: _, end: _, line: _, next_pos, next_line } => {
            if kind == TokenKind::Pipe {
                lemma_sp_targets(s, next_pos, t, Seq::empty());
                match sp_targets(s, next_pos, t, Seq::<Seq<PartView>>::empty()) {
                    Ok((implicit_outputs, p2, t2)) => {
                        lemma_sp_consume(s, p2, next_line, TokenKind::Colon);
                    },
                    Err(_) => {},
                }
            }
        },
        _ => {},
    }
}

pub proof fn lemma_sp_build_inputs(s: Seq<u8>, pos: int, line: int, t: Seq<Seq<u8>>)
    requires
        0 <= pos <= s.len(),
    ensures
        match sp_build_inputs(s, pos, line, t) {
            Ok((ii, oi, next_pos, next_line, t2)) => pos <= next_pos <= s.len(),
            Err(_) => true,
        },
{
    lemma_spec_lex_bounds(s, pos, line);
    match spec_lex(s, pos, line) {
        LexView::Token { kind, start: _, end: _, line: _, next_pos, next_line } => {
            if kind == TokenKind::Pipe {
                lemma_sp_targets(s, next_pos, t, Seq::empty());
                match sp_targets(s, next_pos, t, Seq::<Seq<PartView>>::empty()) {
                    Ok((implicit_inputs, p2, t2)) => {
                        lemma_spec_lex_bounds(s, p2, next_line);
                        match spec_lex(s, p2, next_line) {
                            LexView::Token { kind: kind2, start: _, end: _, line: _, next_pos: p3, next_line: l3 } => {
                                if kind2 == TokenKind::PipePipe {
                                    lemma_sp_targets(s, p3, t2, Seq::empty());
                                    match sp_targets(s, p3, t2, Seq::<Seq<PartView>>::empty()) {
                                        Ok((order_inputs, p4, t4)) => {
                                            lemma_sp_consume(s, p4, l3, TokenKind::Newline);
                                        },
                                        Err(_) => {},
                                    }
                                }
                            },
                            _ => {},
                        }
                    },
                    Err(_) => {},
                }
            } else if kind == TokenKind::PipePipe {
                lemma_sp_targets(s, next_pos, t, Seq::empty());
                match sp_targets(s, next_pos, t, Seq::<Seq<PartView>>::empty()) {
                    Ok((order_inputs, p2, t2)) => {
                        lemma_sp_consume(s, p2, next_line, TokenKind::Newline);
                    },
                    Err(_) => {},
                }
            }
        },
        _ => {},
    }
}

pub proof fn lemma_sp_build(
    s: Seq<u8>,
    pos: int,
    line: int,
    t: Seq<Seq<u8>>,
    scopes: Seq<ScopeView>,
)
    requires
        0 <= pos <= s.len(),
    ensures
        match sp_build(s, pos, line, t, scopes) {
            Ok((d, next_pos, next_line, t2, ss)) => pos <= next_pos <= s.len(),
            Err(_) => true,
        },
{
    lemma_sp_targets(s, pos, t, Seq::empty());
    match sp_targets(s, pos, t, Seq::<Seq<PartView>>::empty()) {
        Ok((outputs, p1, t1)) => {
            lemma_sp_build_outputs(s, p1, line, t1);
            match sp_build_outputs(s, p1, line, t1) {
                Ok((implicit_outputs, p2, l2, t2)) => {
                    lemma_sp_identifier(s, p2, l2, t2);
                    match sp_identifier(s, p2, l2, t2) {
                        Ok((rule, p3, l3, t3)) => {
                            lemma_sp_targets(s, p3, t3, Seq::empty());
                            match sp_targets(s, p3, t3, Seq::<Seq<PartView>>::empty()) {
                                Ok((inputs, p4, t4)) => {
                                    lemma_sp_build_inputs(s, p4, l3, t4);
                                    match sp_build_inputs(s, p4, l3, t4) {
                                        Ok((ii, oi, p5, l5, t5)) => {
                                            lemma_sp_scope_alloc(s, p5, l5, t5, scopes);
                                        },
                                        Err(_) => {},
                                    }
                                },
                                Err(_) => {},
                            }
                        },
                        Err(_) => {},
                    }
                },
                Err(_) => {},
            }
        },
        Err(_) => {},
    }
}

/// One parse step per declaration, from the given state to the final state
/// at end of input, or the first error. A top-level `name = value` line is
/// expanded and bound in the top scope; a blank line is skipped; `include`
/// and `subninja` are recognized but deliberately not implemented in this
/// core.
pub open spec fn sp_parse(s: Seq<u8>, st: ParseSt) -> Result<ParseSt, ParseError>
    decreases s.len() - st.pos,
    when 0 <= st.pos <= s.len()
    via sp_parse_decreases
{
    match spec_lex_decl(s, st.pos, st.line) {
        DeclTokView::End { next_pos, next_line } => Ok(
            ParseSt { pos: next_pos, line: next_line, table: st.table, scopes: st.scopes, decls: st.decls },
        ),
        DeclTokView::Error { err } => Err(ParseError::LexError(err)),
        DeclTokView::Token { kind, start, end, line: _, next_pos, next_line } => {
            if kind == DeclKind::Rule {
                match sp_rule(s, next_pos, next_line, st.table, st.scopes) {
                    Ok((d, p, l, t, ss)) => sp_parse(
                        s,
                        ParseSt { pos: p, line: l, table: t, scopes: ss, decls: st.decls.push(d) },
                    ),
                    Err(e) => Err(e),
                }
            } else if kind == DeclKind::Build {
                match sp_build(s, next_pos, next_line, st.table, st.scopes) {
                    Ok((d, p, l, t, ss)) => sp_parse(
                        s,
                        ParseSt { pos: p, line: l, table: t, scopes: ss, decls: st.decls.push(d) },
                    ),
                    Err(e) => Err(e),
                }
            } else if kind == DeclKind::Default {
                match sp_default(s, next_pos, next_line, st.table) {
                    Ok((d, p, l, t)) => sp_parse(
                        s,
                        ParseSt {
                            pos: p,
                            line: l,
                            table: t,
                            scopes: st.scopes,
                            decls: st.decls.push(d),
                        },
                    ),
                    Err(e) => Err(e),
                }
            } else if kind == DeclKind::Pool {
                match sp_pool(s, next_pos, next_line, st.table, st.scopes) {
                    Ok((d, p, l, t, ss)) => sp_parse(
                        s,
                        ParseSt { pos: p, line: l, table: t, scopes: ss, decls: st.decls.push(d) },
                    ),
                    Err(e) => Err(e),
                }
            } else if kind == DeclKind::Identifier {
                let name = s.subrange(start, end);
                let sym = intern_sym(st.table, name);
                let t1 = intern_table(st.table, name);
                match sp_top_binding(s, next_pos, next_line, t1, st.scopes[0].bindings, sym) {
                    Ok((b, p, l, t2)) => {
                        if st.scopes[0].bindings.dom().contains(b.0) {
                            Err(ParseError::AstError(AstError::DuplicateBinding))
                        } else {
                            sp_parse(
                                s,
                                ParseSt {
                                    pos: p,
                                    line: l,
                                    table: t2,
                                    scopes: st.scopes.update(
                                        0,
                                        ScopeView {
                                            bindings: st.scopes[0].bindings.insert(b.0, b.1),
                                            parent: st.scopes[0].parent,
                                        },
                                    ),
                                    decls: st.decls,
                                },
                            )
                        }
                    },
                    Err(e) => Err(e),
                }
            } else if kind == DeclKind::Newline {
                sp_parse(
                    s,
                    ParseSt {
                        pos: next_pos,
                        line: next_line,
                        table: st.table,
                        scopes: st.scopes,
                        decls: st.decls,
                    },
                )
            } else {
                Err(ParseError::Unimplemented)
            }
        },
    }
}

#[via_fn]
proof fn sp_parse_decreases(s: Seq<u8>, st: ParseSt) {
    if 0 <= st.pos <= s.len() {
        lemma_spec_lex_bounds(s, st.pos, st.line);
        match spec_lex_decl(s, st.pos, st.line) {
            DeclTokView::Token { kind, start, end, line: _, next_pos, next_line } => {
                lemma_sp_rule(s, next_pos, next_line, st.table, st.scopes);
                lemma_sp_build(s, next_pos, next_line, st.table, st.scopes);
                lemma_sp_default(s, next_pos, next_line, st.table);
                lemma_sp_pool(s, next_pos, next_line, st.table, st.scopes);
                if kind == DeclKind::Identifier {
                    let name = s.subrange(start, end);
                    let sym = intern_sym(st.table, name);
                    let t1 = intern_table(st.table, name);
                    lemma_sp_top_binding(
                        s,
                        next_pos,
                        next_line,
                        t1,
                        st.scopes[0].bindings,
                        sym,
                    );
                }
            },
            _ => {},
        }
    }
}


/// Digit strings are non-negative.
proof fn lemma_digits_val_nonneg(s: Seq<u8>)
    requires
        all_digits(s),
    ensures
        digits_val(s) >= 0,
    decreases s.len(),
{
    if s.len() > 0 {
        assert(all_digits(s.drop_last()));
        lemma_digits_val_nonneg(s.drop_last());
    }
}

/// Extending a digit string never decreases its value.
proof fn lemma_digits_val_prefix(u: Seq<u8>, w: Seq<u8>)
    requires
        u.is_prefix_of(w),
        all_digits(w),
    ensures
        digits_val(w) >= digits_val(u),
    decreases w.len(),
{
    assert(all_digits(u));
    lemma_digits_val_nonneg(u);
    if u.len() == w.len() {
        assert(u =~= w);
    } else {
        assert(u.is_prefix_of(w.drop_last()));
        assert(all_digits(w.drop_last()));
        lemma_digits_val_prefix(u, w.drop_last());
        lemma_digits_val_nonneg(w.drop_last());
    }
}

/// Parses a pool-depth value: empty means zero, else an optional `+` sign
/// and base-10 digits whose value fits in `usize`.
fn parse_depth(bytes: &[u8]) -> (r: Option<usize>)
    ensures
        match spec_parse_depth(bytes@) {
            Some(d) => r matches Some(x) && x as int == d,
            None => r is None,
        },
{
    let ghost w = bytes@;
    if bytes.len() == 0 {
        return Some(0);
    }
    let start: usize = if *vstd::slice::slice_index_get(bytes, 0) == 43 {
        1
    } else {
        0
    };
    let ghost digits = if w[0] == 43 {
        w.skip(1)
    } else {
        w
    };
    proof {
        assert(digits =~= w.subrange(start as int, w.len() as int));
    }
    if start == bytes.len() {
        return None;
    }
    let mut val: usize = 0;
    let mut i: usize = start;
    proof {
        assert(w.subrange(start as int, start as int) =~= Seq::<u8>::empty());
    }
    while i < bytes.len()
        invariant
            w == bytes@,
            w.len() > 0,
            start <= i <= w.len(),
            start <= 1,
            start < w.len(),
            digits == (if w[0] == 43 {
                w.skip(1)
            } else {
                w
            }),
            digits == w.subrange(start as int, w.len() as int),
            (start == 1) == (w[0] == 43),
            all_digits(w.subrange(start as int, i as int)),
            val as int == digits_val(w.subrange(start as int, i as int)),
        decreases w.len() - i,
    {
        let b = *vstd::slice::slice_index_get(bytes, i);
        let ghost sub = w.subrange(start as int, i as int);
        let ghost sub2 = w.subrange(start as int, i + 1);
        proof {
            assert(sub2.drop_last() =~= sub);
            assert(sub2.last() == w[i as int]);
            assert(digits[i - start] == w[i as int]);
        }
        if b < 48 || b > 57 {
            proof {
                assert(!all_digits(digits));
            }
            return None;
        }
        let wide: u128 = (val as u128) * 10 + ((b - 48) as u128);
        proof {
            lemma_digits_val_nonneg(sub);
            assert(digits_val(sub2) == digits_val(sub) * 10 + (w[i as int] - 48));
        }
        if wide > usize::MAX as u128 {
            proof {
                if all_digits(digits) {
                    assert(sub2.is_prefix_of(digits));
                    lemma_digits_val_prefix(sub2, digits);
                }
            }
            return None;
        }
        val = wide as usize;
        i = i + 1;
    }
    proof {
        assert(w.subrange(start as int, w.len() as int) =~= digits);
    }
    Some(val)
}

/// The recursive-descent parser over one input buffer.
pub struct Parser<'a> {
    lexer: Lexer<'a>,
}

impl<'a> Parser<'a> {
    /// The input buffer being parsed.
    pub closed spec fn src(&self) -> Seq<u8> {
        self.lexer.src()
    }

    /// The cursor: the position of the next unread byte.
    pub closed spec fn cur(&self) -> int {
        self.lexer.cur()
    }

    /// The current 1-based line number.
    pub closed spec fn cur_line(&self) -> int {
        self.lexer.cur_line()
    }

    pub closed spec fn wf(&self) -> bool {
        self.lexer.wf()
    }

    /// A parser at the start of `input`, on line 1.
    pub fn new(input: &'a [u8]) -> (p: Parser<'a>)
        requires
            input@.len() < usize::MAX,
        ensures
            p.wf(),
            p.src() == input@,
            p.cur() == 0,
            p.cur_line() == 1,
    {
        Parser { lexer: Lexer::new(input) }
    }

    /// Lexes the next generic token, wrapping lexing failures.
    fn advance(&mut self) -> (r: Result<Option<Token<TokenKind>>, ParseError>)
        requires
            old(self).wf(),
        ensures
            final(self).wf(),
            final(self).src() == old(self).src(),
            match spec_lex(old(self).src(), old(self).cur(), old(self).cur_line()) {
                LexView::Token { kind, start, end, line, next_pos, next_line } => {
                    &&& r matches Ok(Some(t))
                    &&& t.spec_kind() == kind
                    &&& t.loc().spec_start() == start
                    &&& t.loc().spec_end() == end
                    &&& t.loc().spec_line() == line
                    &&& final(self).cur() == next_pos
                    &&& final(self).cur_line() == next_line
                },
                LexView::End { next_pos, next_line } => {
                    &&& r matches Ok(o) && o is None
                    &&& final(self).cur() == next_pos
                    &&& final(self).cur_line() == next_line
                },
                LexView::Error => r matches Err(e) && e == ParseError::LexError(
                    LexError::UnknownToken,
                ),
            },
    {
        match self.lexer.lex() {
            Ok(token) => Ok(token),
            Err(error) => Err(ParseError::LexError(error)),
        }
    }

    /// Lexes the next declaration-start token, wrapping lexing failures.
    fn advance_decl(&mut self) -> (r: Result<Option<Token<DeclKind>>, ParseError>)
        requires
            old(self).wf(),
        ensures
            final(self).wf(),
            final(self).src() == old(self).src(),
            match spec_lex_decl(old(self).src(), old(self).cur(), old(self).cur_line()) {
                DeclTokView::Token { kind, start, end, line, next_pos, next_line } => {
                    &&& r matches Ok(Some(t))
                    &&& t.spec_kind() == kind
                    &&& t.loc().spec_start() == start
                    &&& t.loc().spec_end() == end
                    &&& t.loc().spec_line() == line
                    &&& final(self).cur() == next_pos
                    &&& final(self).cur_line() == next_line
                },
                DeclTokView::End { next_pos, next_line } => {
                    &&& r matches Ok(o) && o is None
                    &&& final(self).cur() == next_pos
                    &&& final(self).cur_line() == next_line
                },
                DeclTokView::Error { err } => r matches Err(e) && e == ParseError::LexError(err),
            },
    {
        match self.lexer.lex_decl() {
            Ok(token) => Ok(token),
            Err(error) => Err(ParseError::LexError(error)),
        }
    }

    /// Consumes one token of the expected kind; anything else is an error.
    fn consume(&mut self, expected: TokenKind) -> (r: Result<Token<TokenKind>, ParseError>)
        requires
            old(self).wf(),
        ensures
            final(self).wf(),
            final(self).src() == old(self).src(),
            match spec_lex(old(self).src(), old(self).cur(), old(self).cur_line()) {
                LexView::Token { kind, start, end, line, next_pos, next_line } => {
                    &&& final(self).cur() == next_pos
                    &&& final(self).cur_line() == next_line
                    &&& (kind == expected ==> (r matches Ok(t) && t.spec_kind() == kind
                        && t.loc().spec_start() == start && t.loc().spec_end() == end
                        && t.loc().spec_line() == line))
                    &&& (kind != expected ==> (r matches Err(e) && e == (ParseError::Expected {
                        expected,
                        got: kind,
                    })))
                },
                LexView::End { next_pos, next_line } => {
                    &&& final(self).cur() == next_pos
                    &&& final(self).cur_line() == next_line
                    &&& r matches Err(e) && e == ParseError::UnexpectedEof
                },
                LexView::Error => r matches Err(e) && e == ParseError::LexError(
                    LexError::UnknownToken,
                ),
            },
    {
        match self.advance() {
            Err(e) => Err(e),
            Ok(None) => Err(ParseError::UnexpectedEof),
            Ok(Some(token)) => {
                let got = token.kind();
                if got == expected {
                    Ok(token)
                } else {
                    Err(ParseError::Expected { expected, got })
                }
            },
        }
    }

    /// Consumes one identifier token and interns its lexeme.
    fn parse_identifier(&mut self, arena: &mut Table) -> (r: Result<Identifier, ParseError>)
        requires
            old(self).wf(),
        ensures
            final(self).wf(),
            final(self).src() == old(self).src(),
            old(arena)@.is_prefix_of(final(arena)@),
            match sp_identifier(
                old(self).src(),
                old(self).cur(),
                old(self).cur_line(),
                old(arena)@,
            ) {
                Ok((sym, next_pos, next_line, t2)) => {
                    &&& r matches Ok(id)
                    &&& id@ == sym
                    &&& final(self).cur() == next_pos
                    &&& final(self).cur_line() == next_line
                    &&& final(arena)@ == t2
                },
                Err(e) => r matches Err(e2) && e2 == e,
            },
    {
        proof {
            lemma_prefix_refl(arena@);
            lemma_spec_lex_bounds(self.src(), self.cur(), self.cur_line());
        }
        match self.consume(TokenKind::Identifier) {
            Err(e) => Err(e),
            Ok(token) => {
                let name = self.lexer.lexeme(token);
                proof {
                    crate::intern::lemma_intern_extends(arena@, name@);
                }
                Ok(Identifier::new(arena, name))
            },
        }
    }

    /// Scans one value, wrapping lexing failures.
    fn parse_value(&mut self, arena: &mut Table) -> (r: Result<Option<ast::Value>, ParseError>)
        requires
            old(self).wf(),
        ensures
            final(self).wf(),
            final(self).src() == old(self).src(),
            final(self).cur_line() == old(self).cur_line(),
            old(arena)@.is_prefix_of(final(arena)@),
            match sp_value(old(self).src(), old(self).cur(), old(arena)@) {
                Ok((parts, next_pos, t2)) => {
                    &&& r matches Ok(o)
                    &&& o matches Some(v)
                    &&& v@ == parts
                    &&& final(self).cur() == next_pos
                    &&& final(arena)@ == t2
                },
                Err(e) => r matches Err(e2) && e2 == e,
            },
    {
        match self.lexer.lex_value(arena) {
            Err(error) => Err(ParseError::LexError(error)),
            Ok(None) => Ok(None),
            Ok(Some(value)) => Ok(Some(ast::Value::new(value))),
        }
    }

    /// Scans one target, wrapping lexing failures; `None` means the target
    /// list has ended.
    fn parse_target(&mut self, arena: &mut Table) -> (r: Result<Option<ast::Target>, ParseError>)
        requires
            old(self).wf(),
        ensures
            final(self).wf(),
            final(self).src() == old(self).src(),
            final(self).cur_line() == old(self).cur_line(),
            old(arena)@.is_prefix_of(final(arena)@),
            match spec_lex_target(old(self).src(), old(self).cur(), old(arena)@) {
                TargetRes::Present { parts, next_pos, table } => {
                    &&& r matches Ok(o)
                    &&& o matches Some(tg)
                    &&& tg@ == parts
                    &&& final(self).cur() == next_pos
                    &&& final(arena)@ == table
                },
                TargetRes::Absent { next_pos, table } => {
                    &&& r matches Ok(o) && o is None
                    &&& final(self).cur() == next_pos
                    &&& final(arena)@ == table
                },
                TargetRes::Fail => r matches Err(e) && e == ParseError::LexError(
                    LexError::UnknownToken,
                ),
            },
    {
        match self.lexer.lex_target(arena) {
            Err(error) => Err(ParseError::LexError(error)),
            Ok(None) => Ok(None),
            Ok(Some(value)) => Ok(Some(ast::Target::new(value))),
        }
    }

    /// Collects targets until the lexer reports that none follows.
    fn parse_target_list(&mut self, arena: &mut Table) -> (r: Result<Vec<ast::Target>, ParseError>)
        requires
            old(self).wf(),
        ensures
            final(self).wf(),
            final(self).src() == old(self).src(),
            final(self).cur_line() == old(self).cur_line(),
            old(arena)@.is_prefix_of(final(arena)@),
            match sp_targets(
                old(self).src(),
                old(self).cur(),
                old(arena)@,
                Seq::<Seq<PartView>>::empty(),
            ) {
                Ok((ts, next_pos, t2)) => {
                    &&& r matches Ok(v)
                    &&& targets_view(v@) == ts
                    &&& final(self).cur() == next_pos
                    &&& final(arena)@ == t2
                },
                Err(e) => r matches Err(e2) && e2 == e,
            },
    {
        let ghost s = self.src();
        let ghost pos0 = self.cur();
        let ghost t0 = arena@;
        let mut targets: Vec<ast::Target> = Vec::new();
        proof {
            lemma_prefix_refl(t0);
            assert(targets_view(targets@) =~= Seq::<Seq<PartView>>::empty());
        }
        loop
            invariant
                self.wf(),
                self.src() == s,
                s == old(self).src(),
                pos0 == old(self).cur(),
                t0 == old(arena)@,
                self.cur_line() == old(self).cur_line(),
                t0.is_prefix_of(arena@),
                sp_targets(s, pos0, t0, Seq::<Seq<PartView>>::empty()) == sp_targets(
                    s,
                    self.cur(),
                    arena@,
                    targets_view(targets@),
                ),
            decreases s.len() - self.cur(),
        {
            let ghost t_mid = arena@;
            let ghost p_mid = self.cur();
            proof {
                lemma_spec_lex_target_bounds(s, p_mid, t_mid);
            }
            match self.parse_target(arena) {
                Err(e) => {
                    proof {
                        lemma_prefix_trans(t0, t_mid, arena@);
                    }
                    return Err(e);
                },
                Ok(None) => {
                    return Ok(targets);
                },
                Ok(Some(target)) => {
                    proof {
                        ast::lemma_targets_view_push(targets@, target);
                        lemma_prefix_trans(t0, t_mid, arena@);
                    }
                    targets.push(target);
                },
            }
        }
    }

    /// Parses `= value Newline` for a name already read, expanding the value
    /// against the top-level scope only.
    fn parse_top_level_binding(
        &mut self,
        scopes: &mut Scopes,
        arena: &mut Table,
        identifier: Identifier,
    ) -> (r: Result<Binding, ParseError>)
        requires
            old(self).wf(),
            old(scopes).wf(),
        ensures
            final(self).wf(),
            final(self).src() == old(self).src(),
            *final(scopes) == *old(scopes),
            old(arena)@.is_prefix_of(final(arena)@),
            match sp_top_binding(
                old(self).src(),
                old(self).cur(),
                old(self).cur_line(),
                old(arena)@,
                old(scopes)@[0].bindings,
                identifier@,
            ) {
                Ok((b, next_pos, next_line, t2)) => {
                    &&& r matches Ok(binding)
                    &&& binding@ == b
                    &&& final(self).cur() == next_pos
                    &&& final(self).cur_line() == next_line
                    &&& final(arena)@ == t2
                },
                Err(e) => r matches Err(e2) && e2 == e,
            },
    {
        proof {
            lemma_prefix_refl(arena@);
        }
        match self.consume(TokenKind::Equal) {
            Err(e) => {
                return Err(e);
            },
            Ok(_) => (),
        }
        let value = match self.parse_value(arena) {
            Err(e) => {
                return Err(e);
            },
            Ok(Some(value)) => value,
            Ok(None) => {
                return Err(ParseError::InvalidValue);
            },
        };
        match self.consume(TokenKind::Newline) {
            Err(e) => {
                return Err(e);
            },
            Ok(_) => (),
        }
        let top = scopes.top();
        let bytes = scopes.get_scope(top).evaluate(&value);
        Ok(Binding::new(identifier, bytes))
    }

    /// Parses one `name = value` binding line, expanding the value against
    /// the top-level scope only.
    fn parse_binding(&mut self, scopes: &mut Scopes, arena: &mut Table) -> (r: Result<
        Binding,
        ParseError,
    >)
        requires
            old(self).wf(),
            old(scopes).wf(),
        ensures
            final(self).wf(),
            final(self).src() == old(self).src(),
            *final(scopes) == *old(scopes),
            old(arena)@.is_prefix_of(final(arena)@),
            match sp_binding(
                old(self).src(),
                old(self).cur(),
                old(self).cur_line(),
                old(arena)@,
                old(scopes)@[0].bindings,
            ) {
                Ok((b, next_pos, next_line, t2)) => {
                    &&& r matches Ok(binding)
                    &&& binding@ == b
                    &&& final(self).cur() == next_pos
                    &&& final(self).cur_line() == next_line
                    &&& final(arena)@ == t2
                },
                Err(e) => r matches Err(e2) && e2 == e,
            },
    {
        let ghost t0 = arena@;
        let identifier = match self.parse_identifier(arena) {
            Err(e) => {
                return Err(e);
            },
            Ok(identifier) => identifier,
        };
        let ghost t_mid = arena@;
        match self.parse_top_level_binding(scopes, arena, identifier) {
            Err(e) => {
                proof {
                    lemma_prefix_trans(t0, t_mid, arena@);
                }
                Err(e)
            },
            Ok(binding) => {
                proof {
                    lemma_prefix_trans(t0, t_mid, arena@);
                }
                Ok(binding)
            },
        }
    }

    /// Parses the indented binding block that follows a declaration line and
    /// allocates its scope, whose parent is the top scope.
    fn parse_scope(&mut self, scopes: &mut Scopes, arena: &mut Table) -> (r: Result<
        crate::arena::Id<Scope>,
        ParseError,
    >)
        requires
            old(self).wf(),
            old(scopes).wf(),
        ensures
            final(self).wf(),
            final(self).src() == old(self).src(),
            final(scopes).wf(),
            final(scopes).spec_top() == old(scopes).spec_top(),
            old(arena)@.is_prefix_of(final(arena)@),
            match sp_scope_alloc(
                old(self).src(),
                old(self).cur(),
                old(self).cur_line(),
                old(arena)@,
                old(scopes)@,
            ) {
                Ok((sid, next_pos, next_line, t2, ss)) => {
                    &&& r matches Ok(id)
                    &&& id@ == sid
                    &&& final(self).cur() == next_pos
                    &&& final(self).cur_line() == next_line
                    &&& final(arena)@ == t2
                    &&& final(scopes)@ == ss
                },
                Err(e) => r matches Err(e2) && e2 == e,
            },
    {
        let ghost s = self.src();
        let ghost pos0 = self.cur();
        let ghost line0 = self.cur_line();
        let ghost t0 = arena@;
        let ghost top_map = old(scopes)@[0].bindings;
        let mut bindings: Vec<Binding> = Vec::new();
        proof {
            lemma_prefix_refl(t0);
            assert(bindings_view(bindings@) =~= Seq::<(int, Seq<u8>)>::empty());
        }
        loop
            invariant
                self.wf(),
                self.src() == s,
                s == old(self).src(),
                pos0 == old(self).cur(),
                line0 == old(self).cur_line(),
                t0 == old(arena)@,
                *scopes == *old(scopes),
                scopes.wf(),
                top_map == old(scopes)@[0].bindings,
                t0.is_prefix_of(arena@),
                sp_scope(s, pos0, line0, t0, top_map, Seq::<(int, Seq<u8>)>::empty()) == sp_scope(
                    s,
                    self.cur(),
                    self.cur_line(),
                    arena@,
                    top_map,
                    bindings_view(bindings@),
                ),
            decreases s.len() - self.cur(),
        {
            let ghost c0 = self.cur();
            let ghost l0 = self.cur_line();
            proof {
                lemma_spec_lex_bounds(s, c0, l0);
            }
            if !self.lexer.try_indent() {
                match scopes.new_scope(bindings) {
                    Ok(id) => {
                        return Ok(id);
                    },
                    Err(error) => {
                        return Err(ParseError::AstError(error));
                    },
                }
            }
            let _indent = self.consume(TokenKind::Indent);
            let ghost t_mid = arena@;
            let ghost p_mid = self.cur();
            let ghost l_mid = self.cur_line();
            proof {
                lemma_sp_binding(s, p_mid, l_mid, t_mid, top_map);
            }
            match self.parse_binding(scopes, arena) {
                Err(e) => {
                    proof {
                        lemma_prefix_trans(t0, t_mid, arena@);
                    }
                    return Err(e);
                },
                Ok(binding) => {
                    proof {
                        ast::lemma_bindings_view_push(bindings@, binding);
                        lemma_prefix_trans(t0, t_mid, arena@);
                    }
                    bindings.push(binding);
                },
            }
        }
    }

    /// Parses `rule name Newline` plus an indented binding block.
    fn parse_rule(&mut self, scopes: &mut Scopes, arena: &mut Table) -> (r: Result<
        Rule,
        ParseError,
    >)
        requires
            old(self).wf(),
            old(scopes).wf(),
        ensures
            final(self).wf(),
            final(self).src() == old(self).src(),
            final(scopes).wf(),
            final(scopes).spec_top() == old(scopes).spec_top(),
            old(arena)@.is_prefix_of(final(arena)@),
            match sp_rule(
                old(self).src(),
                old(self).cur(),
                old(self).cur_line(),
                old(arena)@,
                old(scopes)@,
            ) {
                Ok((d, next_pos, next_line, t2, ss)) => {
                    &&& r matches Ok(rule)
                    &&& rule@ == d
                    &&& final(self).cur() == next_pos
                    &&& final(self).cur_line() == next_line
                    &&& final(arena)@ == t2
                    &&& final(scopes)@ == ss
                },
                Err(e) => r matches Err(e2) && e2 == e,
            },
    {
        let ghost t0 = arena@;
        let name = match self.parse_identifier(arena) {
            Err(e) => {
                return Err(e);
            },
            Ok(name) => name,
        };
        let ghost t_mid = arena@;
        match self.consume(TokenKind::Newline) {
            Err(e) => {
                return Err(e);
            },
            Ok(_) => (),
        }
        match self.parse_scope(scopes, arena) {
            Err(e) => {
                proof {
                    lemma_prefix_trans(t0, t_mid, arena@);
                }
                Err(e)
            },
            Ok(scope) => {
                proof {
                    lemma_prefix_trans(t0, t_mid, arena@);
                }
                Ok(Rule::new(name, scope))
            },
        }
    }

    /// Parses `default target... Newline`.
    fn parse_default(&mut self, arena: &mut Table) -> (r: Result<ast::Default, ParseError>)
        requires
            old(self).wf(),
        ensures
            final(self).wf(),
            final(self).src() == old(self).src(),
            old(arena)@.is_prefix_of(final(arena)@),
            match sp_default(old(self).src(), old(self).cur(), old(self).cur_line(), old(arena)@) {
                Ok((d, next_pos, next_line, t2)) => {
                    &&& r matches Ok(default)
                    &&& default@ == d
                    &&& final(self).cur() == next_pos
                    &&& final(self).cur_line() == next_line
                    &&& final(arena)@ == t2
                },
                Err(e) => r matches Err(e2) && e2 == e,
            },
    {
        let targets = match self.parse_target_list(arena) {
            Err(e) => {
                return Err(e);
            },
            Ok(targets) => targets,
        };
        match self.consume(TokenKind::Newline) {
            Err(e) => {
                return Err(e);
            },
            Ok(_) => (),
        }
        Ok(ast::Default::new(targets))
    }

    /// Parses `pool name Newline` plus an indented block that must hold
    /// exactly one binding named `depth` with a valid depth value.
    fn parse_pool(&mut self, scopes: &mut Scopes, arena: &mut Table) -> (r: Result<
        Pool,
        ParseError,
    >)
        requires
            old(self).wf(),
            old(scopes).wf(),
        ensures
            final(self).wf(),
            final(self).src() == old(self).src(),
            final(scopes).wf(),
            final(scopes).spec_top() == old(scopes).spec_top(),
            old(arena)@.is_prefix_of(final(arena)@),
            match sp_pool(
                old(self).src(),
                old(self).cur(),
                old(self).cur_line(),
                old(arena)@,
                old(scopes)@,
            ) {
                Ok((d, next_pos, next_line, t2, ss)) => {
                    &&& r matches Ok(pool)
                    &&& pool@ == d
                    &&& final(self).cur() == next_pos
                    &&& final(self).cur_line() == next_line
                    &&& final(arena)@ == t2
                    &&& final(scopes)@ == ss
                },
                Err(e) => r matches Err(e2) && e2 == e,
            },
    {
        let ghost t0 = arena@;
        let name = match self.parse_identifier(arena) {
            Err(e) => {
                return Err(e);
            },
            Ok(name) => name,
        };
        let ghost t_mid = arena@;
        match self.consume(TokenKind::Newline) {
            Err(e) => {
                return Err(e);
            },
            Ok(_) => (),
        }
        let scope_id = match self.parse_scope(scopes, arena) {
            Err(e) => {
                proof {
                    lemma_prefix_trans(t0, t_mid, arena@);
                }
                return Err(e);
            },
            Ok(scope_id) => scope_id,
        };
        proof {
            lemma_prefix_trans(t0, t_mid, arena@);
        }
        let ghost t_scope = arena@;
        let scope = scopes.get_scope(scope_id);
        if scope.size() != 1 {
            return Err(ParseError::PoolDepthInvalid);
        }
        let mut name_builder = Builder::new();
        name_builder.push(100);
        name_builder.push(101);
        name_builder.push(112);
        name_builder.push(116);
        name_builder.push(104);
        let depth_blob = name_builder.blob();
        proof {
            assert(depth_blob@ =~= kw_depth());
            crate::intern::lemma_intern_extends(t_scope, kw_depth());
        }
        let depth = Identifier::new(arena, depth_blob.as_bytes());
        proof {
            lemma_prefix_trans(t0, t_scope, arena@);
        }
        let depth_bytes = match scope.get(depth) {
            None => {
                return Err(ParseError::PoolDepthInvalid);
            },
            Some(depth_bytes) => depth_bytes,
        };
        match parse_depth(depth_bytes) {
            None => Err(ParseError::PoolDepthInvalid),
            Some(d) => Ok(Pool::new(name, d)),
        }
    }

    /// Parses a build declaration after its keyword.
    #[verifier::rlimit(100)]
    fn parse_build(&mut self, scopes: &mut Scopes, arena: &mut Table) -> (r: Result<
        Build,
        ParseError,
    >)
        requires
            old(self).wf(),
            old(scopes).wf(),
        ensures
            final(self).wf(),
            final(self).src() == old(self).src(),
            final(scopes).wf(),
            final(scopes).spec_top() == old(scopes).spec_top(),
            old(arena)@.is_prefix_of(final(arena)@),
            match sp_build(
                old(self).src(),
                old(self).cur(),
                old(self).cur_line(),
                old(arena)@,
                old(scopes)@,
            ) {
                Ok((d, next_pos, next_line, t2, ss)) => {
                    &&& r matches Ok(build)
                    &&& build@ == d
                    &&& final(self).cur() == next_pos
                    &&& final(self).cur_line() == next_line
                    &&& final(arena)@ == t2
                    &&& final(scopes)@ == ss
                },
                Err(e) => r matches Err(e2) && e2 == e,
            },
    {
        let ghost s = self.src();
        let ghost t0 = arena@;
        proof {
            assert(targets_view(Seq::<ast::Target>::empty()) =~= Seq::<Seq<PartView>>::empty());
        }
        let outputs = match self.parse_target_list(arena) {
            Err(e) => {
                return Err(e);
            },
            Ok(outputs) => outputs,
        };
        let ghost t1 = arena@;
        let implicit_outputs = match self.advance() {
            Err(e) => {
                return Err(e);
            },
            Ok(None) => {
                return Err(ParseError::UnexpectedEof);
            },
            Ok(Some(token)) => match token.kind() {
                TokenKind::Pipe => {
                    let ios = match self.parse_target_list(arena) {
                        Err(e) => {
                            proof {
                                lemma_prefix_trans(t0, t1, arena@);
                            }
                            return Err(e);
                        },
                        Ok(ios) => ios,
                    };
                    match self.consume(TokenKind::Colon) {
                        Err(e) => {
                            proof {
                                lemma_prefix_trans(t0, t1, arena@);
                            }
                            return Err(e);
                        },
                        Ok(_) => (),
                    }
                    ios
                },
                TokenKind::Colon => Vec::new(),
                got => {
                    return Err(ParseError::UnexpectedToken { got });
                },
            },
        };
        let ghost t2 = arena@;
        proof {
            lemma_prefix_trans(t0, t1, t2);
        }
        let rule = match self.parse_identifier(arena) {
            Err(e) => {
                proof {
                    lemma_prefix_trans(t0, t2, arena@);
                }
                return Err(e);
            },
            Ok(rule) => rule,
        };
        let ghost t3 = arena@;
        proof {
            lemma_prefix_trans(t0, t2, t3);
        }
        let inputs = match self.parse_target_list(arena) {
            Err(e) => {
                proof {
                    lemma_prefix_trans(t0, t3, arena@);
                }
                return Err(e);
            },
            Ok(inputs) => inputs,
        };
        let ghost t4 = arena@;
        proof {
            lemma_prefix_trans(t0, t3, t4);
        }
        let mut implicit_inputs: Vec<ast::Target> = Vec::new();
        let mut order_inputs: Vec<ast::Target> = Vec::new();
        match self.advance() {
            Err(e) => {
                proof {
                    lemma_prefix_trans(t0, t4, arena@);
                }
                return Err(e);
            },
            Ok(None) => {
                proof {
                    lemma_prefix_trans(t0, t4, arena@);
                }
                return Err(ParseError::UnexpectedEof);
            },
            Ok(Some(token)) => match token.kind() {
                TokenKind::Newline => (),
                TokenKind::Pipe => {
                    implicit_inputs = match self.parse_target_list(arena) {
                        Err(e) => {
                            proof {
                                lemma_prefix_trans(t0, t4, arena@);
                            }
                            return Err(e);
                        },
                        Ok(ii) => ii,
                    };
                    let ghost t5 = arena@;
                    proof {
                        lemma_prefix_trans(t0, t4, t5);
                    }
                    match self.advance() {
                        Err(e) => {
                            proof {
                                lemma_prefix_trans(t0, t5, arena@);
                            }
                            return Err(e);
                        },
                        Ok(None) => {
                            proof {
                                lemma_prefix_trans(t0, t5, arena@);
                            }
                            return Err(ParseError::UnexpectedEof);
                        },
                        Ok(Some(token2)) => match token2.kind() {
                            TokenKind::Newline => (),
                            TokenKind::PipePipe => {
                                order_inputs = match self.parse_target_list(arena) {
                                    Err(e) => {
                                        proof {
                                            lemma_prefix_trans(t0, t5, arena@);
                                        }
                                        return Err(e);
                                    },
                                    Ok(oi) => oi,
                                };
                                let ghost t6 = arena@;
                                proof {
                                    lemma_prefix_trans(t0, t5, t6);
                                }
                                match self.consume(TokenKind::Newline) {
                                    Err(e) => {
                                        proof {
                                            lemma_prefix_trans(t0, t5, t6);
                                        }
                                        return Err(e);
                                    },
                                    Ok(_) => (),
                                }
                            },
                            got => {
                                proof {
                                    lemma_prefix_trans(t0, t5, arena@);
                                }
                                return Err(ParseError::UnexpectedToken { got });
                            },
                        },
                    }
                },
                TokenKind::PipePipe => {
                    order_inputs = match self.parse_target_list(arena) {
                        Err(e) => {
                            proof {
                                lemma_prefix_trans(t0, t4, arena@);
                            }
                            return Err(e);
                        },
                        Ok(oi) => oi,
                    };
                    let ghost t5 = arena@;
                    proof {
                        lemma_prefix_trans(t0, t4, t5);
                    }
                    match self.consume(TokenKind::Newline) {
                        Err(e) => {
                            proof {
                                lemma_prefix_trans(t0, t4, t5);
                            }
                            return Err(e);
                        },
                        Ok(_) => (),
                    }
                },
                got => {
                    proof {
                        lemma_prefix_trans(t0, t4, arena@);
                    }
                    return Err(ParseError::UnexpectedToken { got });
                },
            },
        }
        let ghost t7 = arena@;
        proof {
            lemma_prefix_trans(t0, t7, arena@);
        }
        match self.parse_scope(scopes, arena) {
            Err(e) => {
                proof {
                    lemma_prefix_trans(t0, t7, arena@);
                }
                Err(e)
            },
            Ok(scope) => {
                proof {
                    lemma_prefix_trans(t0, t7, arena@);
                }
                Ok(
                    Build::new(
                        outputs,
                        implicit_outputs,
                        rule,
                        inputs,
                        implicit_inputs,
                        order_inputs,
                        scope,
                    ),
                )
            },
        }
    }

    /// Parses the whole buffer into a file: reads declaration-start tokens
    /// and dispatches until end of input or the first error. [`sp_parse`]
    /// from [`init_st`] gives the exact result.
    #[verifier::rlimit(100)]
    pub fn parse(&mut self, arena: &mut Table) -> (r: Result<File, ParseError>)
        requires
            old(self).wf(),
        ensures
            final(self).wf(),
            final(self).src() == old(self).src(),
            old(arena)@.is_prefix_of(final(arena)@),
            match sp_parse(
                old(self).src(),
                init_st(old(self).cur(), old(self).cur_line(), old(arena)@),
            ) {
                Ok(st) => {
                    &&& r matches Ok(f)
                    &&& f@.declarations == st.decls
                    &&& f@.scopes == st.scopes
                    &&& final(arena)@ == st.table
                    &&& final(self).cur() == st.pos
                    &&& final(self).cur_line() == st.line
                },
                Err(e) => r matches Err(e2) && e2 == e,
            },
    {
        let ghost s = self.src();
        let ghost st0 = init_st(self.cur(), self.cur_line(), arena@);
        let ghost t0 = arena@;
        let mut declarations = Declarations::new();
        let mut scopes = Scopes::new();
        proof {
            lemma_prefix_refl(t0);
            assert(scopes@ == st0.scopes);
            assert(declarations@ == st0.decls);
        }
        loop
            invariant
                self.wf(),
                self.src() == s,
                s == old(self).src(),
                st0 == init_st(old(self).cur(), old(self).cur_line(), old(arena)@),
                t0 == old(arena)@,
                scopes.wf(),
                t0.is_prefix_of(arena@),
                sp_parse(s, st0) == sp_parse(
                    s,
                    ParseSt {
                        pos: self.cur(),
                        line: self.cur_line(),
                        table: arena@,
                        scopes: scopes@,
                        decls: declarations@,
                    },
                ),
            decreases s.len() - self.cur(),
        {
            proof {
                lemma_spec_lex_bounds(s, self.cur(), self.cur_line());
            }
            let ghost t_mid = arena@;
            match self.advance_decl() {
                Err(e) => {
                    return Err(e);
                },
                Ok(None) => {
                    return Ok(File::new(declarations, scopes));
                },
                Ok(Some(token)) => {
                    match token.kind() {
                        DeclKind::Rule => {
                            proof {
                                lemma_sp_rule(
                                    s,
                                    self.cur(),
                                    self.cur_line(),
                                    arena@,
                                    scopes@,
                                );
                            }
                            match self.parse_rule(&mut scopes, arena) {
                                Err(e) => {
                                    proof {
                                        lemma_prefix_trans(t0, t_mid, arena@);
                                    }
                                    return Err(e);
                                },
                                Ok(rule) => {
                                    proof {
                                        lemma_prefix_trans(t0, t_mid, arena@);
                                    }
                                    match declarations.add_rule(rule) {
                                        Ok(()) => (),
                                        Err(error) => {
                                            return Err(ParseError::AstError(error));
                                        },
                                    }
                                },
                            }
                        },
                        DeclKind::Build => {
                            proof {
                                lemma_sp_build(
                                    s,
                                    self.cur(),
                                    self.cur_line(),
                                    arena@,
                                    scopes@,
                                );
                            }
                            match self.parse_build(&mut scopes, arena) {
                                Err(e) => {
                                    proof {
                                        lemma_prefix_trans(t0, t_mid, arena@);
                                    }
                                    return Err(e);
                                },
                                Ok(build) => {
                                    proof {
                                        lemma_prefix_trans(t0, t_mid, arena@);
                                    }
                                    match declarations.add_build(build) {
                                        Ok(()) => (),
                                        Err(error) => {
                                            return Err(ParseError::AstError(error));
                                        },
                                    }
                                },
                            }
                        },
                        DeclKind::Default => {
                            proof {
                                lemma_sp_default(s, self.cur(), self.cur_line(), arena@);
                            }
                            match self.parse_default(arena) {
                                Err(e) => {
                                    proof {
                                        lemma_prefix_trans(t0, t_mid, arena@);
                                    }
                                    return Err(e);
                                },
                                Ok(default) => {
                                    proof {
                                        lemma_prefix_trans(t0, t_mid, arena@);
                                    }
                                    match declarations.add_default(default) {
                                        Ok(()) => (),
                                        Err(error) => {
                                            return Err(ParseError::AstError(error));
                                        },
                                    }
                                },
                            }
                        },
                        DeclKind::Subninja => {
                            return Err(ParseError::Unimplemented);
                        },
                        DeclKind::Include => {
                            return Err(ParseError::Unimplemented);
                        },
                        DeclKind::Pool => {
                            proof {
                                lemma_sp_pool(
                                    s,
                                    self.cur(),
                                    self.cur_line(),
                                    arena@,
                                    scopes@,
                                );
                            }
                            match self.parse_pool(&mut scopes, arena) {
                                Err(e) => {
                                    proof {
                                        lemma_prefix_trans(t0, t_mid, arena@);
                                    }
                                    return Err(e);
                                },
                                Ok(pool) => {
                                    proof {
                                        lemma_prefix_trans(t0, t_mid, arena@);
                                    }
                                    match declarations.add_pool(pool) {
                                        Ok(()) => (),
                                        Err(error) => {
                                            return Err(ParseError::AstError(error));
                                        },
                                    }
                                },
                            }
                        },
                        DeclKind::Identifier => {
                            let name = self.lexer.lexeme(token);
                            let ghost t_name = arena@;
                            let identifier = Identifier::new(arena, name);
                            proof {
                                crate::intern::lemma_intern_extends(t_name, name@);
                                lemma_prefix_trans(t0, t_name, arena@);
                                lemma_sp_top_binding(
                                    s,
                                    self.cur(),
                                    self.cur_line(),
                                    arena@,
                                    scopes@[0].bindings,
                                    identifier@,
                                );
                            }
                            let ghost t_id = arena@;
                            match self.parse_top_level_binding(&mut scopes, arena, identifier) {
                                Err(e) => {
                                    proof {
                                        lemma_prefix_trans(t0, t_id, arena@);
                                    }
                                    return Err(e);
                                },
                                Ok(binding) => {
                                    proof {
                                        lemma_prefix_trans(t0, t_id, arena@);
                                    }
                                    let ghost ss_before = scopes@;
                                    let top = scopes.top();
                                    match scopes.get_scope_mut(top).push(binding) {
                                        Err(error) => {
                                            return Err(ParseError::AstError(error));
                                        },
                                        Ok(()) => (),
                                    }
                                },
                            }
                        },
                        DeclKind::Newline => (),
                    }
                },
            }
        }
    }
}

} // verus!
