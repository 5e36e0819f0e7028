//! Recursive-descent solver: parses the token stream and compiles it, in one
//! left-to-right pass, into a postfix instruction list.
//!
//! The grammar has two precedence tiers, both left-associative:
//!
//! ```text
//! expr   := term ( ('+' | '-') term )*
//! term   := factor ( ('*' | '/') factor )*
//! factor := Number | '(' expr ')'
//! ```
//!
//! Unary minus is not part of the grammar: a leading `-` is rejected as an
//! unexpected token.  Instead of computing with machine floating-point
//! numbers — which this crate keeps out of its verified core — the solver
//! emits each number and operator in evaluation order, so that folding the
//! emitted list over any numeric domain applies the operators with the
//! precedence, associativity and grouping the grammar prescribes.  The first
//! defect met anywhere in scanning or parsing aborts the pass and is returned
//! with its byte offset.

use crate::tokenizer::{
    spec_tokens, token_pos, token_views, Token, TokenView, Tokenizer, remaining_tokens,
};
use vstd::prelude::*;

verus! {

/// A binary arithmetic operator.
#[derive(Debug, Clone, Copy, PartialEq, Eq, Structural)]
pub enum Operator {
    Add,
    Sub,
    Mul,
    Div,
}

/// What the solver was looking for when it met the wrong token.
/// `Number` stands for the start of a factor: a number or `(`.
#[derive(Debug, Clone, Copy, PartialEq, Eq, Structural)]
pub enum Expected {
    Number,
    Operator,
    CloseParenthesis,
}

/// One step of the compiled expression: push a literal's text (with its byte
/// offset), or apply an operator to the two most recently produced values.
#[derive(Debug)]
pub enum Instr {
    Push { pos: usize, raw: Vec<u8> },
    Apply { op: Operator },
}

/// Mathematical image of an [`Instr`].
pub enum InstrView {
    Push { pos: int, raw: Seq<u8> },
    Apply { op: Operator },
}

impl View for Instr {
    type V = InstrView;

    open spec fn view(&self) -> InstrView {
        match self {
            Instr::Push { pos, raw } => InstrView::Push { pos: *pos as int, raw: raw@ },
            Instr::Apply { op } => InstrView::Apply { op: *op },
        }
    }
}

/// Views of a sequence of instructions, element by element.
pub open spec fn instr_views(s: Seq<Instr>) -> Seq<InstrView> {
    s.map_values(|x: Instr| x@)
}

/// Why an evaluation failed.  Every variant carries the byte offset of the
/// offending place in the source, except end-of-input, which has none.
#[derive(Debug)]
pub enum EvalError {
    LexicalError { position: usize, context: Vec<u8> },
    UnexpectedToken { position: usize, raw: Vec<u8>, expected: Expected },
    UnexpectedEndOfInput { expected: Expected },
    UnmatchedParenthesis { position: usize },
}

/// Mathematical image of an [`EvalError`].
pub enum EvalErrorView {
    LexicalError { position: int, context: Seq<u8> },
    UnexpectedToken { position: int, raw: Seq<u8>, expected: Expected },
    UnexpectedEndOfInput { expected: Expected },
    UnmatchedParenthesis { position: int },
}

impl View for EvalError {
    type V = EvalErrorView;

    open spec fn view(&self) -> EvalErrorView {
        match self {
            EvalError::LexicalError { position, context } => EvalErrorView::LexicalError {
                position: *position as int,
                context: context@,
            },
            EvalError::UnexpectedToken { position, raw, expected } => {
                EvalErrorView::UnexpectedToken {
                    position: *position as int,
                    raw: raw@,
                    expected: *expected,
                }
            },
            EvalError::UnexpectedEndOfInput { expected } => EvalErrorView::UnexpectedEndOfInput {
                expected: *expected,
            },
            EvalError::UnmatchedParenthesis { position } => EvalErrorView::UnmatchedParenthesis {
                position: *position as int,
            },
        }
    }
}

/// The text a token is reported with in an error: a number's matched
/// substring, an operator's or parenthesis' single character, an invalid
/// token's context window.
pub open spec fn token_raw(t: TokenView) -> Seq<u8> {
    match t {
        TokenView::Number { raw, .. } => raw,
        TokenView::AdditionOperator { .. } => seq![43u8],
        TokenView::SubtractionOperator { .. } => seq![45u8],
        TokenView::MultiplicationOperator { .. } => seq![42u8],
        TokenView::DivisionOperator { .. } => seq![47u8],
        TokenView::OpenParenthesis { .. } => seq![40u8],
        TokenView::CloseParenthesis { .. } => seq![41u8],
        TokenView::InvalidToken { context, .. } => context,
    }
}

/// The error a token draws when it fills the wrong grammar position: an
/// invalid token surfaces as a lexical error with its context window,
/// whatever was expected of it; any other token as an unexpected-token error
/// at its own offset.
pub open spec fn reject(t: TokenView, expected: Expected) -> EvalErrorView {
    match t {
        TokenView::InvalidToken { pos, context } => EvalErrorView::LexicalError {
            position: pos,
            context,
        },
        _ => EvalErrorView::UnexpectedToken {
            position: token_pos(t),
            raw: token_raw(t),
            expected,
        },
    }
}

/// Outcome of parsing one grammar rule at token index `i`: the instructions
/// it emitted and the index it stopped at, or the first error it met.
pub enum ParseStep {
    Parsed { emitted: Seq<InstrView>, next: int },
    Failed { err: EvalErrorView },
}

/// Parse one factor at token index `i`: a number, or a parenthesized
/// sub-expression.  A number emits one push; a group emits its body's
/// instructions.  End of input here is `UnexpectedEndOfInput`; a group whose
/// `)` never comes before the input ends is `UnmatchedParenthesis` at the
/// offset of its `(`.
pub open spec fn sp_factor(ts: Seq<TokenView>, i: int) -> ParseStep
    decreases ts.len() - i, 0int,
{
    if i < 0 || i >= ts.len() {
        ParseStep::Failed {
            err: EvalErrorView::UnexpectedEndOfInput { expected: Expected::Number },
        }
    } else {
        match ts[i] {
            TokenView::Number { pos, raw } => ParseStep::Parsed {
                emitted: seq![InstrView::Push { pos, raw }],
                next: i + 1,
            },
            TokenView::OpenParenthesis { pos } => match sp_expr(ts, i + 1) {
                ParseStep::Failed { err } => ParseStep::Failed { err },
                ParseStep::Parsed { emitted, next } => {
                    if next < ts.len() && ts[next] is CloseParenthesis {
                        ParseStep::Parsed { emitted, next: next + 1 }
                    } else if next >= ts.len() {
                        ParseStep::Failed {
                            err: EvalErrorView::UnmatchedParenthesis { position: pos },
                        }
                    } else {
                        ParseStep::Failed { err: reject(ts[next], Expected::CloseParenthesis) }
                    }
                },
            },
            _ => ParseStep::Failed { err: reject(ts[i], Expected::Number) },
        }
    }
}

/// Parse one term at token index `i`: a factor followed by any run of `*` or
/// `/` factors, folded left to right.
pub open spec fn sp_term(ts: Seq<TokenView>, i: int) -> ParseStep
    decreases ts.len() - i, 1int,
{
    match sp_factor(ts, i) {
        ParseStep::Failed { err } => ParseStep::Failed { err },
        ParseStep::Parsed { emitted, next } => {
            if i < next && next <= ts.len() {
                sp_term_more(ts, next, emitted)
            } else {
                ParseStep::Parsed { emitted, next }
            }
        },
    }
}

/// Continue a term at token index `i`: as long as a `*` or `/` follows, parse
/// the next factor and emit its instructions and then the operator, so the
/// running product grows from the left.
pub open spec fn sp_term_more(ts: Seq<TokenView>, i: int, acc: Seq<InstrView>) -> ParseStep
    decreases ts.len() - i, 0int,
{
    if 0 <= i && i < ts.len() && (ts[i] is MultiplicationOperator || ts[i] is DivisionOperator) {
        let op = if ts[i] is MultiplicationOperator {
            Operator::Mul
        } else {
            Operator::Div
        };
        match sp_factor(ts, i + 1) {
            ParseStep::Failed { err } => ParseStep::Failed { err },
            ParseStep::Parsed { emitted, next } => {
                let grown = acc + emitted + seq![InstrView::Apply { op }];
                if i < next && next <= ts.len() {
                    sp_term_more(ts, next, grown)
                } else {
                    ParseStep::Parsed { emitted: grown, next }
                }
            },
        }
    } else {
        ParseStep::Parsed { emitted: acc, next: i }
    }
}

/// Parse one expression at token index `i`: a term followed by any run of `+`
/// or `-` terms, folded left to right.
pub open spec fn sp_expr(ts: Seq<TokenView>, i: int) -> ParseStep
    decreases ts.len() - i, 2int,
{
    match sp_term(ts, i) {
        ParseStep::Failed { err } => ParseStep::Failed { err },
        ParseStep::Parsed { emitted, next } => {
            if i < next && next <= ts.len() {
                sp_expr_more(ts, next, emitted)
            } else {
                ParseStep::Parsed { emitted, next }
            }
        },
    }
}

/// Continue an expression at token index `i`: as long as a `+` or `-`
/// follows, parse the next term and emit its instructions and then the
/// operator, so the running sum grows from the left.
pub open spec fn sp_expr_more(ts: Seq<TokenView>, i: int, acc: Seq<InstrView>) -> ParseStep
    decreases ts.len() - i, 0int,
{
    if 0 <= i && i < ts.len() && (ts[i] is AdditionOperator || ts[i] is SubtractionOperator) {
        let op = if ts[i] is AdditionOperator {
            Operator::Add
        } else {
            Operator::Sub
        };
        match sp_term(ts, i + 1) {
            ParseStep::Failed { err } => ParseStep::Failed { err },
            ParseStep::Parsed { emitted, next } => {
                let grown = acc + emitted + seq![InstrView::Apply { op }];
                if i < next && next <= ts.len() {
                    sp_expr_more(ts, next, grown)
                } else {
                    ParseStep::Parsed { emitted: grown, next }
                }
            },
        }
    } else {
        ParseStep::Parsed { emitted: acc, next: i }
    }
}

/// What solving a token sequence yields: the instructions of the one
/// expression the sequence spells, or the first error.  A token left over
/// after a complete expression is itself an error: a lexical one if it is
/// invalid, else an unexpected token where an operator could continue.
pub open spec fn spec_solve(ts: Seq<TokenView>) -> Result<Seq<InstrView>, EvalErrorView> {
    match sp_expr(ts, 0) {
        ParseStep::Failed { err } => Err(err),
        ParseStep::Parsed { emitted, next } => {
            if next == ts.len() {
                Ok(emitted)
            } else {
                Err(reject(ts[next], Expected::Operator))
            }
        },
    }
}

/// Net number of values that folding `p` over a stack leaves on it: each
/// push adds one, each apply consumes two and produces one.
pub open spec fn net_values(p: Seq<InstrView>) -> int
    decreases p.len(),
{
    if p.len() == 0 {
        0
    } else {
        net_values(p.drop_last()) + (if p.last() is Push {
            1int
        } else {
            -1int
        })
    }
}

/// A well-formed postfix program: folded over a stack of values it never
/// wants for operands — where an apply stands, at least two values have been
/// produced and not yet consumed — and exactly one value remains at the end.
pub open spec fn wf_program(p: Seq<InstrView>) -> bool {
    &&& net_values(p) == 1
    &&& forall|k: int|
        0 <= k < p.len() && (#[trigger] p[k]) is Apply ==> net_values(p.take(k)) >= 2
}

proof fn lemma_net_single(x: InstrView)
    ensures
        net_values(seq![x]) == (if x is Push {
            1int
        } else {
            -1int
        }),
{
    assert(seq![x].drop_last() =~= Seq::<InstrView>::empty());
    assert(seq![x].last() == x);
    assert(net_values(Seq::<InstrView>::empty()) == 0);
}

proof fn lemma_net_concat(a: Seq<InstrView>, b: Seq<InstrView>)
    ensures
        net_values(a + b) == net_values(a) + net_values(b),
    decreases b.len(),
{
    if b.len() == 0 {
        assert(a + b =~= a);
    } else {
        lemma_net_concat(a, b.drop_last());
        assert((a + b).drop_last() =~= a + b.drop_last());
        assert((a + b).last() == b.last());
    }
}

/// Growing a well-formed program by a well-formed operand and one apply
/// keeps it well-formed.
proof fn lemma_wf_extend(acc: Seq<InstrView>, em: Seq<InstrView>, op: Operator)
    requires
        wf_program(acc),
        wf_program(em),
    ensures
        wf_program(acc + em + seq![InstrView::Apply { op }]),
{
    let grown = acc + em + seq![InstrView::Apply { op }];
    lemma_net_concat(acc, em);
    lemma_net_concat(acc + em, seq![InstrView::Apply { op }]);
    lemma_net_single(InstrView::Apply { op });
    assert forall|k: int|
        0 <= k < grown.len() && (#[trigger] grown[k]) is Apply implies net_values(grown.take(k))
        >= 2 by {
        if k < acc.len() {
            assert(grown[k] == acc[k]);
            assert(grown.take(k) =~= acc.take(k));
        } else if k < acc.len() + em.len() {
            let k2 = k - acc.len();
            assert(grown[k] == em[k2]);
            assert(grown.take(k) =~= acc + em.take(k2));
            lemma_net_concat(acc, em.take(k2));
        } else {
            assert(k == acc.len() + em.len());
            assert(grown.take(k) =~= acc + em);
        }
    }
}

proof fn lemma_factor_wf(ts: Seq<TokenView>, i: int)
    ensures
        sp_factor(ts, i) matches ParseStep::Parsed { emitted, .. } ==> wf_program(emitted),
    decreases ts.len() - i, 0int,
{
    if 0 <= i && i < ts.len() {
        match ts[i] {
            TokenView::Number { pos, raw } => {
                lemma_net_single(InstrView::Push { pos, raw });
            },
            TokenView::OpenParenthesis { pos } => {
                lemma_expr_wf(ts, i + 1);
            },
            _ => {},
        }
    }
}

proof fn lemma_term_wf(ts: Seq<TokenView>, i: int)
    ensures
        sp_term(ts, i) matches ParseStep::Parsed { emitted, .. } ==> wf_program(emitted),
    decreases ts.len() - i, 1int,
{
    lemma_factor_wf(ts, i);
    match sp_factor(ts, i) {
        ParseStep::Failed { .. } => {},
        ParseStep::Parsed { emitted, next } => {
            if i < next && next <= ts.len() {
                lemma_term_more_wf(ts, next, emitted);
            }
        },
    }
}

proof fn lemma_term_more_wf(ts: Seq<TokenView>, i: int, acc: Seq<InstrView>)
    requires
        wf_program(acc),
    ensures
        sp_term_more(ts, i, acc) matches ParseStep::Parsed { emitted, .. } ==> wf_program(emitted),
    decreases ts.len() - i, 0int,
{
    if 0 <= i && i < ts.len() && (ts[i] is MultiplicationOperator || ts[i] is DivisionOperator) {
        let op = if ts[i] is MultiplicationOperator {
            Operator::Mul
        } else {
            Operator::Div
        };
        lemma_factor_wf(ts, i + 1);
        match sp_factor(ts, i + 1) {
            ParseStep::Failed { .. } => {},
            ParseStep::Parsed { emitted, next } => {
                lemma_wf_extend(acc, emitted, op);
                if i < next && next <= ts.len() {
                    lemma_term_more_wf(ts, next, acc + emitted + seq![InstrView::Apply { op }]);
                }
            },
        }
    }
}

proof fn lemma_expr_wf(ts: Seq<TokenView>, i: int)
    ensures
        sp_expr(ts, i) matches ParseStep::Parsed { emitted, .. } ==> wf_program(emitted),
    decreases ts.len() - i, 2int,
{
    lemma_term_wf(ts, i);
    match sp_term(ts, i) {
        ParseStep::Failed { .. } => {},
        ParseStep::Parsed { emitted, next } => {
            if i < next && next <= ts.len() {
                lemma_expr_more_wf(ts, next, emitted);
            }
        },
    }
}

proof fn lemma_expr_more_wf(ts: Seq<TokenView>, i: int, acc: Seq<InstrView>)
    requires
        wf_program(acc),
    ensures
        sp_expr_more(ts, i, acc) matches ParseStep::Parsed { emitted, .. } ==> wf_program(emitted),
    decreases ts.len() - i, 0int,
{
    if 0 <= i && i < ts.len() && (ts[i] is AdditionOperator || ts[i] is SubtractionOperator) {
        let op = if ts[i] is AdditionOperator {
            Operator::Add
        } else {
            Operator::Sub
        };
        lemma_term_wf(ts, i + 1);
        match sp_term(ts, i + 1) {
            ParseStep::Failed { .. } => {},
            ParseStep::Parsed { emitted, next } => {
                lemma_wf_extend(acc, emitted, op);
                if i < next && next <= ts.len() {
                    lemma_expr_more_wf(ts, next, acc + emitted + seq![InstrView::Apply { op }]);
                }
            },
        }
    }
}

/// Law: whatever token sequence solving succeeds on, the compiled program is
/// well-formed — folding it over a stack of values, every apply finds its two
/// operands, and exactly one value remains at the end.  A caller evaluating
/// the instruction list therefore never underflows its stack.
pub proof fn lemma_solve_wf(ts: Seq<TokenView>)
    ensures
        spec_solve(ts) matches Ok(emitted) ==> wf_program(emitted),
{
    lemma_expr_wf(ts, 0);
}

/// Appending one instruction appends its view.
proof fn lemma_instr_views_push(s: Seq<Instr>, x: Instr)
    ensures
        instr_views(s.push(x)) =~= instr_views(s).push(x@),
{
}

/// Copy of a byte vector.
fn copy_bytes(v: &Vec<u8>) -> (r: Vec<u8>)
    ensures
        r@ == v@,
{
    let mut r: Vec<u8> = Vec::new();
    let mut k: usize = 0;
    while k < v.len()
        invariant
            k <= v@.len(),
            r@ == v@.subrange(0, k as int),
        decreases v@.len() - k,
    {
        let b = v[k];
        r.push(b);
        proof {
            assert(v@.subrange(0, k as int + 1) =~= v@.subrange(0, k as int).push(v@[k as int]));
        }
        k = k + 1;
    }
    proof {
        assert(v@.subrange(0, v@.len() as int) =~= v@);
    }
    r
}

/// A one-byte vector.
fn byte_vec(b: u8) -> (r: Vec<u8>)
    ensures
        r@ == seq![b],
{
    let mut r: Vec<u8> = Vec::new();
    r.push(b);
    proof {
        assert(r@ =~= seq![b]);
    }
    r
}

/// Build the error with which the solver rejects token `t`.
fn reject_token(t: &Token, expected: Expected) -> (e: EvalError)
    ensures
        e@ == reject(t@, expected),
{
    match t {
        Token::InvalidToken { pos, context } => EvalError::LexicalError {
            position: *pos,
            context: copy_bytes(context),
        },
        Token::Number { pos, raw } => EvalError::UnexpectedToken {
            position: *pos,
            raw: copy_bytes(raw),
            expected,
        },
        Token::AdditionOperator { pos } => EvalError::UnexpectedToken {
            position: *pos,
            raw: byte_vec(43),
            expected,
        },
        Token::SubtractionOperator { pos } => EvalError::UnexpectedToken {
            position: *pos,
            raw: byte_vec(45),
            expected,
        },
        Token::MultiplicationOperator { pos } => EvalError::UnexpectedToken {
            position: *pos,
            raw: byte_vec(42),
            expected,
        },
        Token::DivisionOperator { pos } => EvalError::UnexpectedToken {
            position: *pos,
            raw: byte_vec(47),
            expected,
        },
        Token::OpenParenthesis { pos } => EvalError::UnexpectedToken {
            position: *pos,
            raw: byte_vec(40),
            expected,
        },
        Token::CloseParenthesis { pos } => EvalError::UnexpectedToken {
            position: *pos,
            raw: byte_vec(41),
            expected,
        },
    }
}

/// Parse one factor at token index `i`, appending its instructions to `out`.
fn parse_factor(ts: &Vec<Token>, i: usize, out: &mut Vec<Instr>) -> (r: Result<usize, EvalError>)
    requires
        i <= ts@.len(),
    ensures
        match sp_factor(token_views(ts@), i as int) {
            ParseStep::Parsed { emitted, next } => {
                &&& r matches Ok(n) && n as int == next
                &&& i < next <= ts@.len()
                &&& instr_views(final(out)@) == instr_views(old(out)@) + emitted
            },
            ParseStep::Failed { err } => r matches Err(e) && e@ == err,
        },
    decreases ts@.len() - i, 0int,
{
    let ghost tv = token_views(ts@);
    if i >= ts.len() {
        return Err(EvalError::UnexpectedEndOfInput { expected: Expected::Number });
    }
    proof {
        assert(tv[i as int] == ts@[i as int]@);
    }
    match &ts[i] {
        Token::Number { pos, raw } => {
            let instr = Instr::Push { pos: *pos, raw: copy_bytes(raw) };
            let ghost prev = out@;
            out.push(instr);
            proof {
                lemma_instr_views_push(prev, instr);
                assert(instr_views(out@) =~= instr_views(prev) + seq![instr@]);
            }
            Ok(i + 1)
        },
        Token::OpenParenthesis { pos } => {
            let p = *pos;
            match parse_expr(ts, i + 1, out) {
                Err(e) => Err(e),
                Ok(j) => {
                    if j < ts.len() {
                        proof {
                            assert(tv[j as int] == ts@[j as int]@);
                        }
                        match &ts[j] {
                            Token::CloseParenthesis { .. } => Ok(j + 1),
                            other => Err(reject_token(other, Expected::CloseParenthesis)),
                        }
                    } else {
                        Err(EvalError::UnmatchedParenthesis { position: p })
                    }
                },
            }
        },
        other => Err(reject_token(other, Expected::Number)),
    }
}

/// Parse one term at token index `i`, appending its instructions to `out`.
fn parse_term(ts: &Vec<Token>, i: usize, out: &mut Vec<Instr>) -> (r: Result<usize, EvalError>)
    requires
        i <= ts@.len(),
    ensures
        match sp_term(token_views(ts@), i as int) {
            ParseStep::Parsed { emitted, next } => {
                &&& r matches Ok(n) && n as int == next
                &&& i < next <= ts@.len()
                &&& instr_views(final(out)@) == instr_views(old(out)@) + emitted
            },
            ParseStep::Failed { err } => r matches Err(e) && e@ == err,
        },
    decreases ts@.len() - i, 1int,
{
    let ghost tv = token_views(ts@);
    let ghost base = instr_views(out@);
    let mut j: usize = match parse_factor(ts, i, out) {
        Err(e) => {
            return Err(e);
        },
        Ok(n) => n,
    };
    let ghost mut acc: Seq<InstrView> = sp_factor(tv, i as int)->Parsed_emitted;
    loop
        invariant
            i < ts@.len(),
            (i as int) < j as int && j as int <= ts@.len(),
            tv == token_views(ts@),
            instr_views(out@) == base + acc,
            sp_term(tv, i as int) == sp_term_more(tv, j as int, acc),
        ensures
            (i as int) < j as int && j as int <= ts@.len(),
            instr_views(out@) == base + acc,
            sp_term(tv, i as int) == (ParseStep::Parsed { emitted: acc, next: j as int }),
        decreases ts@.len() - j,
    {
        if j >= ts.len() {
            break ;
        }
        proof {
            assert(tv[j as int] == ts@[j as int]@);
        }
        let op: Operator;
        match &ts[j] {
            Token::MultiplicationOperator { .. } => {
                op = Operator::Mul;
            },
            Token::DivisionOperator { .. } => {
                op = Operator::Div;
            },
            _ => {
                break ;
            },
        }
        match parse_factor(ts, j + 1, out) {
            Err(e) => {
                return Err(e);
            },
            Ok(k) => {
                let ghost prev = out@;
                out.push(Instr::Apply { op });
                proof {
                    let em = sp_factor(tv, j as int + 1)->Parsed_emitted;
                    lemma_instr_views_push(prev, Instr::Apply { op });
                    assert(instr_views(out@) =~= base + (acc + em + seq![
                        InstrView::Apply { op },
                    ]));
                    acc = acc + em + seq![InstrView::Apply { op }];
                }
                j = k;
            },
        }
    }
    Ok(j)
}

/// Parse one expression at token index `i`, appending its instructions to
/// `out`.
fn parse_expr(ts: &Vec<Token>, i: usize, out: &mut Vec<Instr>) -> (r: Result<usize, EvalError>)
    requires
        i <= ts@.len(),
    ensures
        match sp_expr(token_views(ts@), i as int) {
            ParseStep::Parsed { emitted, next } => {
                &&& r matches Ok(n) && n as int == next
                &&& i < next <= ts@.len()
                &&& instr_views(final(out)@) == instr_views(old(out)@) + emitted
            },
            ParseStep::Failed { err } => r matches Err(e) && e@ == err,
        },
    decreases ts@.len() - i, 2int,
{
    let ghost tv = token_views(ts@);
    let ghost base = instr_views(out@);
    let mut j: usize = match parse_term(ts, i, out) {
        Err(e) => {
            return Err(e);
        },
        Ok(n) => n,
    };
    let ghost mut acc: Seq<InstrView> = sp_term(tv, i as int)->Parsed_emitted;
    loop
        invariant
            i < ts@.len(),
            (i as int) < j as int && j as int <= ts@.len(),
            tv == token_views(ts@),
            instr_views(out@) == base + acc,
            sp_expr(tv, i as int) == sp_expr_more(tv, j as int, acc),
        ensures
            (i as int) < j as int && j as int <= ts@.len(),
            instr_views(out@) == base + acc,
            sp_expr(tv, i as int) == (ParseStep::Parsed { emitted: acc, next: j as int }),
        decreases ts@.len() - j,
    {
        if j >= ts.len() {
            break ;
        }
        proof {
            assert(tv[j as int] == ts@[j as int]@);
        }
        let op: Operator;
        match &ts[j] {
            Token::AdditionOperator { .. } => {
                op = Operator::Add;
            },
            Token::SubtractionOperator { .. } => {
                op = Operator::Sub;
            },
            _ => {
                break ;
            },
        }
        match parse_term(ts, j + 1, out) {
            Err(e) => {
                return Err(e);
            },
            Ok(k) => {
                let ghost prev = out@;
                out.push(Instr::Apply { op });
                proof {
                    let em = sp_term(tv, j as int + 1)->Parsed_emitted;
                    lemma_instr_views_push(prev, Instr::Apply { op });
                    assert(instr_views(out@) =~= base + (acc + em + seq![
                        InstrView::Apply { op },
                    ]));
                    acc = acc + em + seq![InstrView::Apply { op }];
                }
                j = k;
            },
        }
    }
    Ok(j)
}

/// Drive the scanner to its end and solve the expression it spells: the
/// result is the compiled instruction list of the one complete expression
/// the tokens form, or the first error met, exactly as [`spec_solve`]
/// prescribes over the scanner's remaining tokens.
pub fn solve(tokens: &mut Tokenizer) -> (r: Result<Vec<Instr>, EvalError>)
    requires
        old(tokens).wf(),
    ensures
        match spec_solve(spec_tokens(old(tokens).src(), old(tokens).pos())) {
            Ok(em) => r matches Ok(p) && instr_views(p@) == em,
            Err(err) => r matches Err(e) && e@ == err,
        },
{
    let toks = remaining_tokens(tokens);
    let ghost tv = token_views(toks@);
    let mut out: Vec<Instr> = Vec::new();
    proof {
        assert(instr_views(out@) =~= Seq::<InstrView>::empty());
    }
    match parse_expr(&toks, 0, &mut out) {
        Err(e) => Err(e),
        Ok(j) => {
            proof {
                assert(Seq::<InstrView>::empty() + sp_expr(tv, 0)->Parsed_emitted =~= sp_expr(
                    tv,
                    0,
                )->Parsed_emitted);
            }
            if j == toks.len() {
                Ok(out)
            } else {
                proof {
                    assert(tv[j as int] == toks@[j as int]@);
                }
                Err(reject_token(&toks[j], Expected::Operator))
            }
        },
    }
}

/// Scan and solve `expr` in one call.
pub fn compile(expr: Vec<u8>) -> (r: Result<Vec<Instr>, EvalError>)
    ensures
        match spec_solve(spec_tokens(expr@, 0)) {
            Ok(em) => r matches Ok(p) && instr_views(p@) == em,
            Err(err) => r matches Err(e) && e@ == err,
        },
{
    let mut t = Tokenizer::new(expr);
    solve(&mut t)
}

} // verus!
