//! Lexical scanner: turns the bytes of an expression into typed tokens.
//!
//! The scanner walks the source once, left to right.  On each pull it skips a
//! maximal run of whitespace, then matches the longest numeral
//! (`digits ['.' digits*]` or `'.' digits+`), else a single-character
//! operator or parenthesis, else it reports the unrecognized byte as an
//! invalid token carrying a small window of surrounding text.  Every token
//! records the byte offset of its first character in the original source.

use vstd::prelude::*;

verus! {

/// One lexeme of the source text, tagged with the byte offset of its first
/// character.  `Number` carries the exact matched substring; `InvalidToken`
/// carries a bounded window of source text around the offending byte.
#[derive(Debug)]
pub enum Token {
    Number { pos: usize, raw: Vec<u8> },
    AdditionOperator { pos: usize },
    SubtractionOperator { pos: usize },
    MultiplicationOperator { pos: usize },
    DivisionOperator { pos: usize },
    OpenParenthesis { pos: usize },
    CloseParenthesis { pos: usize },
    InvalidToken { pos: usize, context: Vec<u8> },
}

/// Mathematical image of a [`Token`]: offsets as `int`, text as `Seq<u8>`.
pub enum TokenView {
    Number { pos: int, raw: Seq<u8> },
    AdditionOperator { pos: int },
    SubtractionOperator { pos: int },
    MultiplicationOperator { pos: int },
    DivisionOperator { pos: int },
    OpenParenthesis { pos: int },
    CloseParenthesis { pos: int },
    InvalidToken { pos: int, context: Seq<u8> },
}

impl View for Token {
    type V = TokenView;

    open spec fn view(&self) -> TokenView {
        match self {
            Token::Number { pos, raw } => TokenView::Number { pos: *pos as int, raw: raw@ },
            Token::AdditionOperator { pos } => TokenView::AdditionOperator { pos: *pos as int },
            Token::SubtractionOperator { pos } => TokenView::SubtractionOperator {
                pos: *pos as int,
            },
            Token::MultiplicationOperator { pos } => TokenView::MultiplicationOperator {
                pos: *pos as int,
            },
            Token::DivisionOperator { pos } => TokenView::DivisionOperator { pos: *pos as int },
            Token::OpenParenthesis { pos } => TokenView::OpenParenthesis { pos: *pos as int },
            Token::CloseParenthesis { pos } => TokenView::CloseParenthesis { pos: *pos as int },
            Token::InvalidToken { pos, context } => TokenView::InvalidToken {
                pos: *pos as int,
                context: context@,
            },
        }
    }
}

/// The byte offset a token reports for itself.
pub open spec fn token_pos(t: TokenView) -> int {
    match t {
        TokenView::Number { pos, .. } => pos,
        TokenView::AdditionOperator { pos } => pos,
        TokenView::SubtractionOperator { pos } => pos,
        TokenView::MultiplicationOperator { pos } => pos,
        TokenView::DivisionOperator { pos } => pos,
        TokenView::OpenParenthesis { pos } => pos,
        TokenView::CloseParenthesis { pos } => pos,
        TokenView::InvalidToken { pos, .. } => pos,
    }
}

/// Views of a sequence of tokens, element by element.
pub open spec fn token_views(s: Seq<Token>) -> Seq<TokenView> {
    s.map_values(|t: Token| t@)
}

/// Whitespace, as the scanner skips it: space, tab, line feed, vertical tab,
/// form feed, carriage return.
pub open spec fn is_space(b: u8) -> bool {
    b == 32 || (9 <= b && b <= 13)
}

/// An ASCII decimal digit.
pub open spec fn is_digit(b: u8) -> bool {
    48 <= b && b <= 57
}

/// Index of the first non-whitespace byte at or after `i` (or `s.len()`).
pub open spec fn skip_ws(s: Seq<u8>, i: int) -> int
    recommends
        0 <= i <= s.len(),
    decreases s.len() - i,
{
    if i < s.len() && is_space(s[i]) {
        skip_ws(s, i + 1)
    } else {
        i
    }
}

/// Index just past the maximal run of digits starting at `i`.
pub open spec fn digits_end(s: Seq<u8>, i: int) -> int
    recommends
        0 <= i <= s.len(),
    decreases s.len() - i,
{
    if i < s.len() && is_digit(s[i]) {
        digits_end(s, i + 1)
    } else {
        i
    }
}

/// Longest-match numeral recognition at `i`: `Some(e)` when a numeral of the
/// grammar `digits ['.' digits*] | '.' digits+` starts at `i` and its longest
/// match ends just before `e`; `None` when no numeral starts at `i`.
pub open spec fn numeral_end(s: Seq<u8>, i: int) -> Option<int>
    recommends
        0 <= i <= s.len(),
{
    if i < s.len() && is_digit(s[i]) {
        let d = digits_end(s, i);
        if d < s.len() && s[d] == 46 {
            Some(digits_end(s, d + 1))
        } else {
            Some(d)
        }
    } else if i + 1 < s.len() && s[i] == 46 && is_digit(s[i + 1]) {
        Some(digits_end(s, i + 1))
    } else {
        None
    }
}

/// `raw` is one whole numeral: the longest numeral match starting at its
/// first byte reaches its end.
pub open spec fn is_numeral(raw: Seq<u8>) -> bool {
    raw.len() > 0 && numeral_end(raw, 0) == Some(raw.len() as int)
}

/// The token a single operator or parenthesis byte denotes, if any.
pub open spec fn op_token_at(b: u8, pos: int) -> Option<TokenView> {
    if b == 43 {
        Some(TokenView::AdditionOperator { pos })
    } else if b == 45 {
        Some(TokenView::SubtractionOperator { pos })
    } else if b == 42 {
        Some(TokenView::MultiplicationOperator { pos })
    } else if b == 47 {
        Some(TokenView::DivisionOperator { pos })
    } else if b == 40 {
        Some(TokenView::OpenParenthesis { pos })
    } else if b == 41 {
        Some(TokenView::CloseParenthesis { pos })
    } else {
        None
    }
}

/// The diagnostic window reported for an unrecognized byte at `i`: up to five
/// bytes before it and up to five after, clamped to the source bounds.
pub open spec fn snippet(s: Seq<u8>, i: int) -> Seq<u8>
    recommends
        0 <= i < s.len(),
{
    let lo = if i >= 5 {
        i - 5
    } else {
        0
    };
    let hi = if i + 6 <= s.len() {
        i + 6
    } else {
        s.len() as int
    };
    s.subrange(lo, hi)
}

/// One scanning step from offset `i`: `None` when only whitespace remains,
/// else the next token and the offset the cursor advances to.
pub open spec fn spec_next(s: Seq<u8>, i: int) -> Option<(TokenView, int)>
    recommends
        0 <= i <= s.len(),
{
    let j = skip_ws(s, i);
    if j >= s.len() {
        None
    } else {
        match numeral_end(s, j) {
            Some(e) => Some((TokenView::Number { pos: j, raw: s.subrange(j, e) }, e)),
            None => match op_token_at(s[j], j) {
                Some(t) => Some((t, j + 1)),
                None => Some((TokenView::InvalidToken { pos: j, context: snippet(s, j) }, j + 1)),
            },
        }
    }
}

/// The whole token sequence the scanner yields from offset `i` to the end.
pub open spec fn spec_tokens(s: Seq<u8>, i: int) -> Seq<TokenView>
    recommends
        0 <= i <= s.len(),
    decreases s.len() - i,
    via spec_tokens_decreases
{
    match spec_next(s, i) {
        None => Seq::empty(),
        Some((t, j)) => seq![t] + spec_tokens(s, j),
    }
}

/// `skip_ws` lands between `i` and the end of the source, on a
/// non-whitespace byte unless the source is exhausted, and every byte it
/// skipped was whitespace.
pub proof fn lemma_skip_ws(s: Seq<u8>, i: int)
    ensures
        i <= skip_ws(s, i),
        i <= s.len() ==> skip_ws(s, i) <= s.len(),
        i <= s.len() && skip_ws(s, i) < s.len() ==> !is_space(s[skip_ws(s, i)]),
        forall|k: int| i <= k < skip_ws(s, i) ==> is_space(s[k]),
    decreases s.len() - i,
{
    if i < s.len() && is_space(s[i]) {
        lemma_skip_ws(s, i + 1);
    }
}

/// `digits_end` lands between `i` and the end of the source, just past a run
/// of digits, on a non-digit byte unless the source is exhausted.
pub proof fn lemma_digits_end(s: Seq<u8>, i: int)
    ensures
        i <= digits_end(s, i),
        i <= s.len() ==> digits_end(s, i) <= s.len(),
        i <= s.len() && digits_end(s, i) < s.len() ==> !is_digit(s[digits_end(s, i)]),
        forall|k: int| i <= k < digits_end(s, i) ==> is_digit(s[k]),
    decreases s.len() - i,
{
    if i < s.len() && is_digit(s[i]) {
        lemma_digits_end(s, i + 1);
    }
}

/// A matched numeral is non-empty and ends within the source.
pub proof fn lemma_numeral_end(s: Seq<u8>, i: int)
    ensures
        numeral_end(s, i) matches Some(e) ==> i < e <= s.len(),
{
    if i < s.len() && is_digit(s[i]) {
        lemma_digits_end(s, i);
        let d = digits_end(s, i);
        if d < s.len() && s[d] == 46 {
            lemma_digits_end(s, d + 1);
        }
    } else if i + 1 < s.len() && s[i] == 46 && is_digit(s[i + 1]) {
        lemma_digits_end(s, i + 1);
    }
}

/// Every scanning step advances the cursor: termination of the scan.
pub proof fn lemma_next_progress(s: Seq<u8>, i: int)
    ensures
        spec_next(s, i) matches Some(tn) ==> i < tn.1 <= s.len(),
{
    lemma_skip_ws(s, i);
    lemma_numeral_end(s, skip_ws(s, i));
}

#[via_fn]
proof fn spec_tokens_decreases(s: Seq<u8>, i: int) {
    lemma_next_progress(s, i);
}

/// Whitespace from `i` to the end means the scan is already over.
proof fn lemma_skip_ws_all_space(s: Seq<u8>, i: int)
    requires
        0 <= i <= s.len(),
        forall|k: int| i <= k < s.len() ==> is_space(s[k]),
    ensures
        skip_ws(s, i) == s.len(),
    decreases s.len() - i,
{
    if i < s.len() {
        lemma_skip_ws_all_space(s, i + 1);
    }
}

/// Scanning an empty or whitespace-only source yields no tokens.
pub proof fn lemma_whitespace_only(s: Seq<u8>)
    requires
        forall|k: int| 0 <= k < s.len() ==> is_space(s[k]),
    ensures
        spec_tokens(s, 0) == Seq::<TokenView>::empty(),
{
    lemma_skip_ws_all_space(s, 0);
}

/// A source that is one whole numeral scans to exactly one token: a number
/// at offset zero whose raw text is the entire source.  The numeric value of
/// such a token is therefore always the standard decimal parse of the
/// matched text, which is the source itself.
pub proof fn lemma_numeral_scans_to_one_token(s: Seq<u8>)
    requires
        is_numeral(s),
    ensures
        spec_tokens(s, 0) == seq![TokenView::Number { pos: 0, raw: s }],
{
    assert(!is_space(s[0]));
    assert(skip_ws(s, 0) == 0);
    assert(s.subrange(0, s.len() as int) =~= s);
    assert(skip_ws(s, s.len() as int) == s.len());
    assert(spec_tokens(s, s.len() as int) =~= Seq::<TokenView>::empty());
    assert(spec_tokens(s, 0) =~= seq![TokenView::Number { pos: 0, raw: s }]);
}

/// A maximal run of digits is exactly what `digits_end` finds.
proof fn lemma_digits_end_char(s: Seq<u8>, i: int, d: int)
    requires
        0 <= i <= d <= s.len(),
        forall|k: int| i <= k < d ==> is_digit(s[k]),
        d < s.len() ==> !is_digit(s[d]),
    ensures
        digits_end(s, i) == d,
    decreases d - i,
{
    if i < d {
        lemma_digits_end_char(s, i + 1, d);
    }
}

/// The text of a numeral matched inside a larger source is itself one whole
/// numeral.
proof fn lemma_numeral_subrange(s: Seq<u8>, j: int)
    requires
        0 <= j < s.len(),
        numeral_end(s, j) is Some,
    ensures
        is_numeral(s.subrange(j, numeral_end(s, j)->Some_0)),
{
    let e = numeral_end(s, j)->Some_0;
    lemma_numeral_end(s, j);
    let raw = s.subrange(j, e);
    if is_digit(s[j]) {
        let d = digits_end(s, j);
        lemma_digits_end(s, j);
        if d < s.len() && s[d] == 46 {
            lemma_digits_end(s, d + 1);
            assert forall|k: int| 0 <= k < d - j implies is_digit(raw[k]) by {
                assert(raw[k] == s[j + k]);
            }
            assert(raw[d - j] == s[d]);
            lemma_digits_end_char(raw, 0, d - j);
            assert forall|k: int| d - j + 1 <= k < e - j implies is_digit(raw[k]) by {
                assert(raw[k] == s[j + k]);
            }
            lemma_digits_end_char(raw, d - j + 1, e - j);
        } else {
            assert forall|k: int| 0 <= k < e - j implies is_digit(raw[k]) by {
                assert(raw[k] == s[j + k]);
            }
            lemma_digits_end_char(raw, 0, e - j);
        }
    } else {
        lemma_digits_end(s, j + 1);
        assert(raw[0] == s[j]);
        assert(raw[1] == s[j + 1]);
        assert forall|k: int| 1 <= k < e - j implies is_digit(raw[k]) by {
            assert(raw[k] == s[j + k]);
        }
        lemma_digits_end_char(raw, 1, e - j);
    }
}

/// Every number token the scanner yields carries one whole numeral as its
/// raw text: scanned alone, that text is again a single number token (see
/// [`lemma_numeral_scans_to_one_token`]), and the standard decimal parse of
/// the matched text is defined on it.
pub proof fn lemma_number_tokens_are_numerals(s: Seq<u8>, i: int)
    requires
        0 <= i <= s.len(),
    ensures
        forall|k: int|
            0 <= k < spec_tokens(s, i).len() && (#[trigger] spec_tokens(s, i)[k]) is Number
                ==> is_numeral(spec_tokens(s, i)[k]->Number_raw),
    decreases s.len() - i,
{
    lemma_skip_ws(s, i);
    lemma_next_progress(s, i);
    match spec_next(s, i) {
        None => {},
        Some((t, nxt)) => {
            let j = skip_ws(s, i);
            if numeral_end(s, j) is Some {
                lemma_numeral_subrange(s, j);
            }
            lemma_number_tokens_are_numerals(s, nxt);
            let toks = spec_tokens(s, i);
            let tail = spec_tokens(s, nxt);
            assert(toks == seq![t] + tail);
            assert forall|k: int|
                0 <= k < toks.len() && (#[trigger] toks[k]) is Number implies is_numeral(
                toks[k]->Number_raw,
            ) by {
                if k == 0 {
                    assert(toks[k] == t);
                } else {
                    assert(toks[k] == tail[k - 1]);
                }
            }
        },
    }
}

/// Token `t` reports the byte offset of the first character of its own
/// lexeme in `s`: a number's text stands in the source at its offset, an
/// operator's or parenthesis' character stands at its offset, and an invalid
/// token's offset holds the unrecognized byte, with the reported context
/// window taken around it.
pub open spec fn token_at_position(s: Seq<u8>, t: TokenView) -> bool {
    match t {
        TokenView::Number { pos, raw } => {
            &&& 0 <= pos
            &&& pos + raw.len() <= s.len()
            &&& raw.len() > 0
            &&& raw == s.subrange(pos, pos + raw.len())
        },
        TokenView::AdditionOperator { pos } => 0 <= pos < s.len() && s[pos] == 43,
        TokenView::SubtractionOperator { pos } => 0 <= pos < s.len() && s[pos] == 45,
        TokenView::MultiplicationOperator { pos } => 0 <= pos < s.len() && s[pos] == 42,
        TokenView::DivisionOperator { pos } => 0 <= pos < s.len() && s[pos] == 47,
        TokenView::OpenParenthesis { pos } => 0 <= pos < s.len() && s[pos] == 40,
        TokenView::CloseParenthesis { pos } => 0 <= pos < s.len() && s[pos] == 41,
        TokenView::InvalidToken { pos, context } => 0 <= pos < s.len() && context == snippet(
            s,
            pos,
        ),
    }
}

/// Every token the scanner yields from offset `i` stands at its reported
/// position in the source, positions never fall before `i`, and they
/// strictly increase from each token to the next.
pub proof fn lemma_token_positions(s: Seq<u8>, i: int)
    requires
        0 <= i <= s.len(),
    ensures
        forall|k: int|
            0 <= k < spec_tokens(s, i).len() ==> token_at_position(
                s,
                #[trigger] spec_tokens(s, i)[k],
            ),
        forall|k: int|
            0 <= k < spec_tokens(s, i).len() ==> i <= token_pos(#[trigger] spec_tokens(s, i)[k]),
        forall|k: int|
            0 <= k && k + 1 < spec_tokens(s, i).len() ==> token_pos(
                #[trigger] spec_tokens(s, i)[k],
            ) < token_pos(spec_tokens(s, i)[k + 1]),
    decreases s.len() - i,
{
    lemma_skip_ws(s, i);
    lemma_next_progress(s, i);
    let j = skip_ws(s, i);
    match spec_next(s, i) {
        None => {},
        Some((t, nxt)) => {
            lemma_numeral_end(s, j);
            let toks = spec_tokens(s, i);
            let tail = spec_tokens(s, nxt);
            assert(toks == seq![t] + tail);
            assert(token_at_position(s, t) && i <= token_pos(t) && token_pos(t) < nxt) by {
                if numeral_end(s, j) is Some {
                    let e = numeral_end(s, j)->Some_0;
                    assert(t->Number_raw == s.subrange(j, e));
                    assert(s.subrange(j, e).len() == e - j);
                }
            }
            lemma_token_positions(s, nxt);
            assert forall|k: int| 0 <= k < toks.len() implies token_at_position(s, toks[k]) && i
                <= token_pos(toks[k]) by {
                if k == 0 {
                    assert(toks[k] == t);
                } else {
                    assert(toks[k] == tail[k - 1]);
                }
            }
            assert forall|k: int| 0 <= k && k + 1 < toks.len() implies token_pos(
                #[trigger] toks[k],
            ) < token_pos(toks[k + 1]) by {
                if k == 0 {
                    assert(toks[0] == t);
                    assert(toks[1] == tail[0]);
                    assert(nxt <= token_pos(tail[0]));
                } else {
                    assert(toks[k] == tail[k - 1]);
                    assert(toks[k + 1] == tail[k]);
                }
            }
        },
    }
}

/// The scanner: the source bytes and a cursor that only moves forward.
pub struct Tokenizer {
    expr: Vec<u8>,
    index: usize,
}

impl Tokenizer {
    /// The source text being scanned.
    pub closed spec fn src(&self) -> Seq<u8> {
        self.expr@
    }

    /// The current cursor offset.
    pub closed spec fn pos(&self) -> int {
        self.index as int
    }

    /// The cursor stays within the source.
    pub open spec fn wf(&self) -> bool {
        0 <= self.pos() <= self.src().len()
    }

    /// A fresh scanner over `expr`, cursor at the start.
    pub fn new(expr: Vec<u8>) -> (t: Tokenizer)
        ensures
            t.src() == expr@,
            t.pos() == 0,
            t.wf(),
    {
        Tokenizer { expr, index: 0 }
    }

    /// Advance the cursor past a maximal run of whitespace.
    fn skip_whitespace(&mut self)
        requires
            old(self).wf(),
        ensures
            final(self).wf(),
            final(self).src() == old(self).src(),
            final(self).pos() == skip_ws(old(self).src(), old(self).pos()),
    {
        let ghost s = self.expr@;
        let ghost i0 = self.index as int;
        loop
            invariant
                self.expr@ == s,
                self.index as int <= s.len(),
                skip_ws(s, self.index as int) == skip_ws(s, i0),
            ensures
                self.expr@ == s,
                self.index as int == skip_ws(s, i0),
            decreases s.len() - self.index,
        {
            if self.index >= self.expr.len() {
                break ;
            }
            let b = self.expr[self.index];
            if !(b == 32 || (9 <= b && b <= 13)) {
                break ;
            }
            self.index = self.index + 1;
        }
    }

    /// Index just past the maximal digit run starting at `from`.
    fn scan_digits(&self, from: usize) -> (e: usize)
        requires
            self.wf(),
            from <= self.src().len(),
        ensures
            e as int == digits_end(self.src(), from as int),
            from <= e <= self.src().len(),
    {
        let mut k = from;
        loop
            invariant
                from <= k <= self.expr@.len(),
                digits_end(self.expr@, k as int) == digits_end(self.expr@, from as int),
            ensures
                k as int == digits_end(self.expr@, from as int),
                from <= k <= self.expr@.len(),
            decreases self.expr@.len() - k,
        {
            if k >= self.expr.len() {
                break ;
            }
            let b = self.expr[k];
            if !(48 <= b && b <= 57) {
                break ;
            }
            k = k + 1;
        }
        k
    }

    /// Copy of the source bytes in `[from, to)`.
    fn copy_range(&self, from: usize, to: usize) -> (r: Vec<u8>)
        requires
            from <= to <= self.src().len(),
        ensures
            r@ == self.src().subrange(from as int, to as int),
    {
        let mut r: Vec<u8> = Vec::new();
        let mut k = from;
        while k < to
            invariant
                from <= k <= to <= self.expr@.len(),
                r@ == self.expr@.subrange(from as int, k as int),
            decreases to - k,
        {
            let b = self.expr[k];
            r.push(b);
            proof {
                assert(self.expr@.subrange(from as int, k as int + 1) =~= self.expr@.subrange(
                    from as int,
                    k as int,
                ).push(self.expr@[k as int]));
            }
            k = k + 1;
        }
        r
    }

    /// The diagnostic window around the cursor: up to five bytes on either
    /// side of the offending byte, clamped to the source bounds.
    fn error_slice(&self) -> (r: Vec<u8>)
        requires
            self.wf(),
            self.pos() < self.src().len(),
        ensures
            r@ == snippet(self.src(), self.pos()),
    {
        let lo = if self.index >= 5 {
            self.index - 5
        } else {
            0
        };
        let hi = if self.expr.len() - self.index >= 6 {
            self.index + 6
        } else {
            self.expr.len()
        };
        self.copy_range(lo, hi)
    }

    /// Pull the next token, advancing the cursor past it, or `None` when only
    /// whitespace remains (the cursor then rests at the end of the source).
    pub fn next(&mut self) -> (r: Option<Token>)
        requires
            old(self).wf(),
        ensures
            final(self).wf(),
            final(self).src() == old(self).src(),
            old(self).pos() <= final(self).pos(),
            match spec_next(old(self).src(), old(self).pos()) {
                None => r is None && final(self).pos() == old(self).src().len(),
                Some(tn) => {
                    &&& r matches Some(t) && t@ == tn.0
                    &&& final(self).pos() == tn.1
                    &&& old(self).pos() < final(self).pos()
                },
            },
    {
        proof {
            lemma_skip_ws(self.src(), self.pos());
        }
        self.skip_whitespace();
        if self.index >= self.expr.len() {
            return None;
        }
        let j = self.index;
        let b = self.expr[j];
        let mut num_end: usize = 0;
        let mut is_num = false;
        if 48 <= b && b <= 57 {
            let d = self.scan_digits(j);
            if d < self.expr.len() && self.expr[d] == 46 {
                num_end = self.scan_digits(d + 1);
            } else {
                num_end = d;
            }
            is_num = true;
        } else if b == 46 && j + 1 < self.expr.len() {
            let c = self.expr[j + 1];
            if 48 <= c && c <= 57 {
                num_end = self.scan_digits(j + 1);
                is_num = true;
            }
        }
        if is_num {
            proof {
                lemma_numeral_end(self.src(), j as int);
                assert(numeral_end(self.src(), j as int) == Some(num_end as int));
            }
            let raw = self.copy_range(j, num_end);
            self.index = num_end;
            return Some(Token::Number { pos: j, raw });
        }
        assert(numeral_end(self.src(), j as int) is None);
        if b == 43 {
            self.index = j + 1;
            return Some(Token::AdditionOperator { pos: j });
        }
        if b == 45 {
            self.index = j + 1;
            return Some(Token::SubtractionOperator { pos: j });
        }
        if b == 42 {
            self.index = j + 1;
            return Some(Token::MultiplicationOperator { pos: j });
        }
        if b == 47 {
            self.index = j + 1;
            return Some(Token::DivisionOperator { pos: j });
        }
        if b == 40 {
            self.index = j + 1;
            return Some(Token::OpenParenthesis { pos: j });
        }
        if b == 41 {
            self.index = j + 1;
            return Some(Token::CloseParenthesis { pos: j });
        }
        let context = self.error_slice();
        self.index = j + 1;
        Some(Token::InvalidToken { pos: j, context })
    }
}

/// Scan `expr` to the end and return every token in order.
pub fn tokenize(expr: Vec<u8>) -> (r: Vec<Token>)
    ensures
        token_views(r@) == spec_tokens(expr@, 0),
{
    let mut t = Tokenizer::new(expr);
    remaining_tokens(&mut t)
}

/// Pull tokens from `t` until the source is exhausted.
pub(crate) fn remaining_tokens(t: &mut Tokenizer) -> (r: Vec<Token>)
    requires
        old(t).wf(),
    ensures
        final(t).wf(),
        final(t).src() == old(t).src(),
        token_views(r@) == spec_tokens(old(t).src(), old(t).pos()),
{
    let ghost s = t.src();
    let ghost i0 = t.pos();
    let mut out: Vec<Token> = Vec::new();
    loop
        invariant
            t.wf(),
            t.src() == s,
            token_views(out@) + spec_tokens(s, t.pos()) == spec_tokens(s, i0),
        ensures
            t.wf(),
            t.src() == s,
            token_views(out@) == spec_tokens(s, i0),
        decreases s.len() - t.pos(),
    {
        let ghost p = t.pos();
        let tok = t.next();
        match tok {
            None => {
                proof {
                    assert(token_views(out@) + spec_tokens(s, t.pos()) =~= token_views(out@));
                }
                break ;
            },
            Some(tk) => {
                proof {
                    let tn = spec_next(s, p)->Some_0;
                    assert(token_views(out@.push(tk)) =~= token_views(out@).push(tk@));
                    assert(token_views(out@.push(tk)) + spec_tokens(s, tn.1) =~= token_views(out@)
                        + spec_tokens(s, p));
                }
                out.push(tk);
            },
        }
    }
    out
}

} // verus!
