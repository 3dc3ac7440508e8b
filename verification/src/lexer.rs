//! The tokenizer: a single forward cursor over the input's codepoints,
//! emitting one token per structural symbol or digit and one token per
//! maximal run of other characters.
//!
//! The mathematical model is [`scan_spec`]: a recursive function over the
//! input character sequence. [`Lexer::scan`] is proved to produce exactly
//! its value.

use vstd::prelude::*;
use vstd::string::StrSliceExecFns;

use crate::token::{token_literal, Span, Token, TokenView};

verus! {

/// The structural symbols of the dialect.
pub open spec fn is_symbol_char(c: char) -> bool {
    ||| c == '#'
    ||| c == '*'
    ||| c == '!'
    ||| c == '_'
    ||| c == '-'
    ||| c == '.'
    ||| c == '\\'
    ||| c == '('
    ||| c == ')'
    ||| c == '['
    ||| c == ']'
    ||| c == ' '
    ||| c == '\t'
    ||| c == '\n'
}

/// ASCII decimal digits, each of which is its own token.
pub open spec fn is_digit_char(c: char) -> bool {
    '0' <= c && c <= '9'
}

/// Characters that end a text run.
pub open spec fn is_stop_char(c: char) -> bool {
    is_symbol_char(c) || is_digit_char(c)
}

/// The token emitted for a structural symbol.
pub open spec fn symbol_token(c: char) -> TokenView
    recommends
        is_symbol_char(c),
{
    if c == '#' {
        TokenView::Hash
    } else if c == '*' {
        TokenView::Star
    } else if c == '!' {
        TokenView::Bang
    } else if c == '_' {
        TokenView::Underscore
    } else if c == '-' {
        TokenView::Dash
    } else if c == '.' {
        TokenView::Dot
    } else if c == '\\' {
        TokenView::Backslash
    } else if c == '(' {
        TokenView::LeftParen
    } else if c == ')' {
        TokenView::RightParen
    } else if c == '[' {
        TokenView::LeftSquareBracket
    } else if c == ']' {
        TokenView::RightSquareBracket
    } else if c == ' ' {
        TokenView::Space
    } else if c == '\t' {
        TokenView::Tab
    } else {
        TokenView::Newline
    }
}

/// A line or column count one higher, saturating at `usize::MAX` so that
/// positions stay well defined on astronomically long inputs.
pub open spec fn bump(n: int) -> int {
    if n < usize::MAX {
        n + 1
    } else {
        n
    }
}

/// A column count `k` higher, saturating at `usize::MAX`.
pub open spec fn bump_by(n: int, k: int) -> int
    recommends
        0 <= n,
        0 <= k,
{
    if n + k <= usize::MAX {
        n + k
    } else {
        usize::MAX as int
    }
}

/// The first position at or after `i` holding a structural symbol or digit,
/// or the input length if there is none: the exclusive end of a text run.
pub open spec fn run_end(input: Seq<char>, i: int) -> int
    recommends
        0 <= i <= input.len(),
    decreases input.len() - i,
{
    if i < 0 || i >= input.len() {
        input.len() as int
    } else if is_stop_char(input[i]) {
        i
    } else {
        run_end(input, i + 1)
    }
}

pub proof fn lemma_run_end_bounds(input: Seq<char>, i: int)
    requires
        0 <= i <= input.len(),
    ensures
        i <= run_end(input, i) <= input.len(),
        forall|j: int| i <= j < run_end(input, i) ==> !is_stop_char(input[j]),
        run_end(input, i) == input.len() || is_stop_char(input[run_end(input, i)]),
    decreases input.len() - i,
{
    if i < input.len() && !is_stop_char(input[i]) {
        lemma_run_end_bounds(input, i + 1);
    }
}

/// A maximal clean run pins down `run_end` exactly.
proof fn lemma_run_end_of_clean_prefix(input: Seq<char>, i: int, k: int)
    requires
        0 <= i <= k <= input.len(),
        forall|j: int| i <= j < k ==> !is_stop_char(input[j]),
        k == input.len() || is_stop_char(input[k]),
    ensures
        run_end(input, i) == k,
    decreases k - i,
{
    if i < k {
        lemma_run_end_of_clean_prefix(input, i + 1, k);
    }
}

/// The token sequence produced from position `i` onward, with the cursor at
/// 1-based line `line` and column `col`. Every call ends in exactly one
/// end-of-input token, so tokenization is total.
pub open spec fn scan_from(input: Seq<char>, i: int, line: int, col: int) -> Seq<
    (TokenView, (int, int)),
>
    recommends
        0 <= i <= input.len(),
    decreases input.len() - i,
        via scan_from_decreases
{
    if i >= input.len() {
        seq![(TokenView::EndOfFile, (line, col))]
    } else if input[i] == '\n' {
        seq![(TokenView::Newline, (line, col))] + scan_from(input, i + 1, bump(line), 1)
    } else if is_symbol_char(input[i]) {
        seq![(symbol_token(input[i]), (line, col))] + scan_from(input, i + 1, line, bump(col))
    } else if is_digit_char(input[i]) {
        seq![(TokenView::Digit(seq![input[i]]), (line, col))] + scan_from(
            input,
            i + 1,
            line,
            bump(col),
        )
    } else {
        let j = run_end(input, i + 1);
        seq![(TokenView::Text(input.subrange(i, j)), (line, col))] + scan_from(
            input,
            j,
            line,
            bump_by(col, j - i),
        )
    }
}

#[via_fn]
proof fn scan_from_decreases(input: Seq<char>, i: int, line: int, col: int) {
    if 0 <= i + 1 <= input.len() {
        lemma_run_end_bounds(input, i + 1);
    }
}

/// The tokens of a whole input, starting at line 1, column 1.
pub open spec fn scan_spec(input: Seq<char>) -> Seq<(TokenView, (int, int))> {
    scan_from(input, 0, 1, 1)
}

/// The concatenation of the literal text of a token sequence.
pub open spec fn literals_concat(toks: Seq<(TokenView, (int, int))>) -> Seq<char>
    decreases toks.len(),
{
    if toks.len() == 0 {
        Seq::<char>::empty()
    } else {
        token_literal(toks[0].0) + literals_concat(toks.drop_first())
    }
}

proof fn lemma_literals_concat_cons(x: (TokenView, (int, int)), rest: Seq<(TokenView, (int, int))>)
    ensures
        literals_concat(seq![x] + rest) == token_literal(x.0) + literals_concat(rest),
{
    let whole = seq![x] + rest;
    assert(whole[0] == x);
    assert(whole.drop_first() =~= rest);
}

proof fn lemma_scan_from_literals(input: Seq<char>, i: int, line: int, col: int)
    requires
        0 <= i <= input.len(),
    ensures
        literals_concat(scan_from(input, i, line, col)) == input.subrange(i, input.len() as int),
    decreases input.len() - i,
{
    let n = input.len() as int;
    if i >= n {
        let toks = scan_from(input, i, line, col);
        assert(toks.drop_first() =~= Seq::<(TokenView, (int, int))>::empty());
        assert(literals_concat(toks.drop_first()) == Seq::<char>::empty());
        assert(literals_concat(toks) =~= input.subrange(i, n));
    } else if input[i] == '\n' {
        lemma_scan_from_literals(input, i + 1, bump(line), 1);
        lemma_literals_concat_cons(
            (TokenView::Newline, (line, col)),
            scan_from(input, i + 1, bump(line), 1),
        );
        assert(seq!['\n'] + input.subrange(i + 1, n) =~= input.subrange(i, n));
    } else if is_symbol_char(input[i]) {
        lemma_scan_from_literals(input, i + 1, line, bump(col));
        lemma_literals_concat_cons(
            (symbol_token(input[i]), (line, col)),
            scan_from(input, i + 1, line, bump(col)),
        );
        assert(token_literal(symbol_token(input[i])) =~= seq![input[i]]);
        assert(seq![input[i]] + input.subrange(i + 1, n) =~= input.subrange(i, n));
    } else if is_digit_char(input[i]) {
        lemma_scan_from_literals(input, i + 1, line, bump(col));
        lemma_literals_concat_cons(
            (TokenView::Digit(seq![input[i]]), (line, col)),
            scan_from(input, i + 1, line, bump(col)),
        );
        assert(seq![input[i]] + input.subrange(i + 1, n) =~= input.subrange(i, n));
    } else {
        let j = run_end(input, i + 1);
        lemma_run_end_bounds(input, i + 1);
        lemma_scan_from_literals(input, j, line, bump_by(col, j - i));
        lemma_literals_concat_cons(
            (TokenView::Text(input.subrange(i, j)), (line, col)),
            scan_from(input, j, line, bump_by(col, j - i)),
        );
        assert(input.subrange(i, j) + input.subrange(j, n) =~= input.subrange(i, n));
    }
}

/// Nothing is lost or reordered by tokenization: the literal text of the
/// tokens of an input, concatenated in order, is exactly that input. In
/// particular every codepoint of the input, multi-byte or not, lands intact
/// in exactly one token.
pub proof fn lemma_scan_literal_concat(input: Seq<char>)
    ensures
        literals_concat(scan_spec(input)) == input,
{
    lemma_scan_from_literals(input, 0, 1, 1);
    assert(input.subrange(0, input.len() as int) =~= input);
}

/// Spans are ordered: `a` does not come after `b` in (line, column)
/// lexicographic order.
pub open spec fn span_le(a: (int, int), b: (int, int)) -> bool {
    a.0 < b.0 || (a.0 == b.0 && a.1 <= b.1)
}

/// Token spans never decrease across the token sequence.
pub open spec fn spans_monotone(toks: Seq<(TokenView, (int, int))>) -> bool {
    forall|p: int, q: int| 0 <= p <= q < toks.len() ==> span_le(toks[p].1, toks[q].1)
}

proof fn lemma_scan_from_spans(input: Seq<char>, i: int, line: int, col: int)
    requires
        0 <= i <= input.len(),
        1 <= line,
        1 <= col <= usize::MAX,
        line + (input.len() - i) <= usize::MAX,
    ensures
        spans_monotone(scan_from(input, i, line, col)),
        forall|k: int|
            0 <= k < scan_from(input, i, line, col).len() ==> span_le(
                (line, col),
                #[trigger] scan_from(input, i, line, col)[k].1,
            ),
    decreases input.len() - i,
{
    let n = input.len() as int;
    let toks = scan_from(input, i, line, col);
    if i >= n {
    } else {
        let (next_i, next_line, next_col): (int, int, int) = if input[i] == '\n' {
            (i + 1, bump(line), 1)
        } else if is_stop_char(input[i]) {
            (i + 1, line, bump(col))
        } else {
            (run_end(input, i + 1), line, bump_by(col, run_end(input, i + 1) - i))
        };
        if !(input[i] == '\n') && !is_stop_char(input[i]) {
            lemma_run_end_bounds(input, i + 1);
        }
        lemma_scan_from_spans(input, next_i, next_line, next_col);
        let rest = scan_from(input, next_i, next_line, next_col);
        assert(toks == seq![toks[0]] + rest);
        assert(span_le((line, col), (next_line, next_col)));
        assert forall|k: int| 0 <= k < toks.len() implies span_le((line, col), toks[k].1) by {
            if k > 0 {
                assert(toks[k] == rest[k - 1]);
            }
        }
        assert forall|p: int, q: int| 0 <= p <= q < toks.len() implies span_le(
            toks[p].1,
            toks[q].1,
        ) by {
            if p > 0 {
                assert(toks[p] == rest[p - 1]);
                assert(toks[q] == rest[q - 1]);
            } else if q > 0 {
                assert(toks[q] == rest[q - 1]);
                assert(span_le((next_line, next_col), rest[q - 1].1));
            }
        }
    }
}

/// Positions attached to tokens are monotonically non-decreasing in
/// (line, column) lexicographic order, for any input short enough that its
/// line numbers cannot saturate.
pub proof fn lemma_scan_spans_monotone(input: Seq<char>)
    requires
        input.len() < usize::MAX,
    ensures
        spans_monotone(scan_spec(input)),
{
    lemma_scan_from_spans(input, 0, 1, 1);
}

proof fn lemma_scan_from_eof(input: Seq<char>, i: int, line: int, col: int)
    requires
        0 <= i <= input.len(),
    ensures
        scan_from(input, i, line, col).len() >= 1,
        scan_from(input, i, line, col).last().0 == TokenView::EndOfFile,
        forall|k: int|
            0 <= k < scan_from(input, i, line, col).len() - 1 ==> !(#[trigger] scan_from(
                input,
                i,
                line,
                col,
            )[k].0 is EndOfFile),
    decreases input.len() - i,
{
    let n = input.len() as int;
    if i < n {
        let (next_i, next_line, next_col): (int, int, int) = if input[i] == '\n' {
            (i + 1, bump(line), 1)
        } else if is_stop_char(input[i]) {
            (i + 1, line, bump(col))
        } else {
            (run_end(input, i + 1), line, bump_by(col, run_end(input, i + 1) - i))
        };
        if !(input[i] == '\n') && !is_stop_char(input[i]) {
            lemma_run_end_bounds(input, i + 1);
        }
        lemma_scan_from_eof(input, next_i, next_line, next_col);
        let toks = scan_from(input, i, line, col);
        let rest = scan_from(input, next_i, next_line, next_col);
        assert(toks == seq![toks[0]] + rest);
        assert(toks.last() == rest.last());
        assert forall|k: int| 0 <= k < toks.len() - 1 implies !(toks[k].0 is EndOfFile) by {
            if k > 0 {
                assert(toks[k] == rest[k - 1]);
            }
        }
    }
}

/// The token sequence of an input ends in exactly one end-of-input token.
pub proof fn lemma_scan_single_eof(input: Seq<char>)
    ensures
        scan_spec(input).len() >= 1,
        scan_spec(input).last().0 == TokenView::EndOfFile,
        forall|k: int|
            0 <= k < scan_spec(input).len() - 1 ==> !(#[trigger] scan_spec(input)[k].0
                is EndOfFile),
{
    lemma_scan_from_eof(input, 0, 1, 1);
}

/// The mathematical value of a produced token sequence: each token paired
/// with its span as a pair of integers.
pub open spec fn toks_view<'a>(s: Seq<(Token<'a>, Span)>) -> Seq<(TokenView, (int, int))> {
    Seq::new(s.len(), |k: int| (s[k].0@, (s[k].1.line as int, s[k].1.col as int)))
}

/// Appending one exec token appends its value.
proof fn lemma_toks_view_push<'a>(
    done: Seq<(Token<'a>, Span)>,
    t: Token<'a>,
    sp: Span,
)
    ensures
        toks_view(done.push((t, sp))) == toks_view(done) + seq![
            (t@, (sp.line as int, sp.col as int)),
        ],
{
    assert(toks_view(done.push((t, sp))) =~= toks_view(done) + seq![
        (t@, (sp.line as int, sp.col as int)),
    ]);
}

/// One scanning step preserves the running equation "tokens so far plus
/// tokens still to come equals the tokens of the whole input".
proof fn lemma_scan_step<'a>(
    done: Seq<(Token<'a>, Span)>,
    pushed: Seq<(Token<'a>, Span)>,
    t: Token<'a>,
    sp: Span,
    input: Seq<char>,
    i0: int,
    l0: int,
    c0: int,
    i1: int,
    l1: int,
    c1: int,
)
    requires
        pushed == done.push((t, sp)),
        sp.line == l0,
        sp.col == c0,
        scan_from(input, i0, l0, c0) == seq![(t@, (l0, c0))] + scan_from(input, i1, l1, c1),
    ensures
        toks_view(pushed) + scan_from(input, i1, l1, c1) == toks_view(done) + scan_from(
            input,
            i0,
            l0,
            c0,
        ),
{
    lemma_toks_view_push(done, t, sp);
    assert(toks_view(pushed) + scan_from(input, i1, l1, c1) =~= toks_view(done) + (seq![
        (t@, (l0, c0)),
    ] + scan_from(input, i1, l1, c1)));
}

/// Tokenizes the restricted Markdown dialect. The cursor walks the input
/// one codepoint at a time; positions are counted in codepoints, lines are
/// 1-based and columns reset to 1 after every newline.
pub struct Lexer<'a> {
    source: &'a str,
    /// number of codepoints in `source`
    len: usize,
    /// index of the next codepoint to consume
    current: usize,
    line: usize,
    col: usize,
}

impl<'a> Lexer<'a> {
    /// The input as a character sequence.
    pub closed spec fn src(&self) -> Seq<char> {
        self.source@
    }

    pub closed spec fn wf(&self) -> bool {
        &&& self.len == self.source@.len()
        &&& self.current <= self.len
        &&& 1 <= self.line
        &&& 1 <= self.col
    }

    /// A lexer that has not consumed anything yet.
    pub closed spec fn at_start(&self) -> bool {
        &&& self.wf()
        &&& self.current == 0
        &&& self.line == 1
        &&& self.col == 1
    }

    pub fn new(input: &'a str) -> (r: Lexer<'a>)
        ensures
            r.at_start(),
            r.src() == input@,
    {
        let len: usize = input.unicode_len();
        Lexer { source: input, len, current: 0, line: 1, col: 1 }
    }

    /// Tokenizes the whole input: the returned sequence is exactly the value
    /// of [`scan_spec`] on the input, ending in one end-of-input token.
    #[verifier::loop_isolation(false)]
    pub fn scan(&mut self) -> (r: Vec<(Token<'a>, Span)>)
        requires
            old(self).at_start(),
        ensures
            toks_view(r@) == scan_spec(old(self).src()),
    {
        let ghost input = self.src();
        let mut tokens: Vec<(Token<'a>, Span)> = Vec::new();
        proof {
            assert(toks_view(tokens@) + scan_from(input, 0, 1, 1) =~= scan_spec(input));
        }
        while !self.is_at_end()
            invariant
                self.wf(),
                self.src() == input,
                toks_view(tokens@) + scan_from(
                    input,
                    self.current as int,
                    self.line as int,
                    self.col as int,
                ) == scan_spec(input),
            decreases self.len - self.current,
        {
            self.scan_token(&mut tokens);
        }
        let ghost done = tokens@;
        let span = Span { line: self.line, col: self.col };
        tokens.push((Token::EndOfFile, span));
        proof {
            lemma_toks_view_push(done, Token::EndOfFile, span);
            assert(scan_from(input, self.current as int, self.line as int, self.col as int)
                =~= seq![(TokenView::EndOfFile, (self.line as int, self.col as int))]);
            assert(toks_view(tokens@) =~= scan_spec(input));
        }
        tokens
    }

    /// Consumes one token's worth of input and appends the token.
    fn scan_token(&mut self, tokens: &mut Vec<(Token<'a>, Span)>)
        requires
            old(self).wf(),
            old(self).current < old(self).len,
        ensures
            final(self).wf(),
            final(self).source == old(self).source,
            final(self).len == old(self).len,
            final(self).current > old(self).current,
            toks_view(final(tokens)@) + scan_from(
                old(self).src(),
                final(self).current as int,
                final(self).line as int,
                final(self).col as int,
            ) == toks_view(old(tokens)@) + scan_from(
                old(self).src(),
                old(self).current as int,
                old(self).line as int,
                old(self).col as int,
            ),
    {
        let ghost input = self.src();
        let ghost toks0 = tokens@;
        let ghost i0 = self.current as int;
        let ghost l0 = self.line as int;
        let ghost c0 = self.col as int;
        let start = self.current;
        let span = Span { line: self.line, col: self.col };
        let copt = self.advance();
        let c = match copt {
            Some(ch) => ch,
            None => ' ',  // unreachable: the cursor is not at the end
        };
        proof {
            assert(c == input[i0]);
        }
        if self.is_token_char(c) {
            let tok: Token<'a> = if c == '\n' {
                Token::Newline
            } else if c == '#' {
                Token::Hash
            } else if c == '*' {
                Token::Star
            } else if c == '!' {
                Token::Bang
            } else if c == '_' {
                Token::Underscore
            } else if c == '-' {
                Token::Dash
            } else if c == '.' {
                Token::Dot
            } else if c == '\\' {
                Token::Backslash
            } else if c == '(' {
                Token::LeftParen
            } else if c == ')' {
                Token::RightParen
            } else if c == '[' {
                Token::LeftSquareBracket
            } else if c == ']' {
                Token::RightSquareBracket
            } else if c == ' ' {
                Token::Space
            } else if c == '\t' {
                Token::Tab
            } else {
                Token::Digit(self.source.substring_char(start, start + 1))
            };
            self.add_token(tokens, tok, span);
            proof {
                if is_digit_char(input[i0]) {
                    assert(input.subrange(i0, i0 + 1) =~= seq![input[i0]]);
                }
                lemma_scan_step(
                    toks0,
                    tokens@,
                    tok,
                    span,
                    input,
                    i0,
                    l0,
                    c0,
                    self.current as int,
                    self.line as int,
                    self.col as int,
                );
            }
        } else {
            let value = self.handle_string();
            self.add_token(tokens, Token::Text(value), span);
            proof {
                lemma_run_end_bounds(input, i0 + 1);
                lemma_scan_step(
                    toks0,
                    tokens@,
                    Token::Text(value),
                    span,
                    input,
                    i0,
                    l0,
                    c0,
                    self.current as int,
                    self.line as int,
                    self.col as int,
                );
            }
        }
    }

    /// Whether the character is a structural symbol or digit, that is, forms
    /// a token of its own.
    fn is_token_char(&self, c: char) -> (r: bool)
        ensures
            r == is_stop_char(c),
    {
        c == '#' || c == '*' || c == '!' || c == '_' || c == '-' || c == '.' || c == '\\' || c
            == '(' || c == ')' || c == '[' || c == ']' || c == ' ' || c == '\t' || c == '\n' || (c
            >= '0' && c <= '9')
    }

    /// Whether the lookahead ends the current text run.
    fn is_token(&self, c: Option<char>) -> (r: bool)
        ensures
            r == (c is Some && is_stop_char(c->0)),
    {
        match c {
            Some(ch) => self.is_token_char(ch),
            None => false,
        }
    }

    /// Consumes the remainder of a text run whose first character was just
    /// consumed, and returns the whole run as a borrowed slice.
    #[verifier::loop_isolation(false)]
    fn handle_string(&mut self) -> (r: &'a str)
        requires
            old(self).wf(),
            1 <= old(self).current,
            !is_stop_char(old(self).src()[old(self).current - 1]),
        ensures
            final(self).wf(),
            final(self).source == old(self).source,
            final(self).len == old(self).len,
            final(self).line == old(self).line,
            final(self).current as int == run_end(old(self).src(), old(self).current as int),
            final(self).col as int == bump_by(
                old(self).col as int,
                final(self).current - old(self).current,
            ),
            r@ == old(self).src().subrange(old(self).current - 1, final(self).current as int),
    {
        let ghost input = self.src();
        let ghost cur0 = self.current as int;
        let start = self.current - 1;
        while !self.is_at_end() && !self.is_token(self.peek())
            invariant
                self.wf(),
                self.source == old(self).source,
                self.len == old(self).len,
                self.line == old(self).line,
                cur0 <= self.current as int,
                forall|j: int| cur0 <= j < self.current as int ==> !is_stop_char(input[j]),
                self.col as int == bump_by(old(self).col as int, self.current as int - cur0),
            decreases self.len - self.current,
        {
            self.advance();
        }
        proof {
            lemma_run_end_of_clean_prefix(input, cur0, self.current as int);
        }
        self.source.substring_char(start, self.current)
    }

    fn is_at_end(&self) -> (r: bool)
        ensures
            r == (self.current >= self.len),
    {
        self.current >= self.len
    }

    fn add_token(&self, tokens: &mut Vec<(Token<'a>, Span)>, token: Token<'a>, span: Span)
        ensures
            final(tokens)@ == old(tokens)@.push((token, span)),
    {
        tokens.push((token, span));
    }

    /// Looks up the next character, but does not consume it.
    fn peek(&self) -> (r: Option<char>)
        requires
            self.wf(),
        ensures
            r == if self.current < self.len {
                Some(self.src()[self.current as int])
            } else {
                None::<char>
            },
    {
        if self.is_at_end() {
            return None;
        }
        Some(self.source.get_char(self.current))
    }

    /// Consumes the next codepoint, advancing the position: a newline moves
    /// to the next line and resets the column, anything else moves one
    /// column to the right (saturating instead of overflowing).
    fn advance(&mut self) -> (r: Option<char>)
        requires
            old(self).wf(),
        ensures
            final(self).wf(),
            final(self).source == old(self).source,
            final(self).len == old(self).len,
            old(self).current < old(self).len ==> {
                &&& r == Some(old(self).src()[old(self).current as int])
                &&& final(self).current == old(self).current + 1
                &&& if old(self).src()[old(self).current as int] == '\n' {
                    final(self).line as int == bump(old(self).line as int) && final(self).col == 1
                } else {
                    final(self).line == old(self).line && final(self).col as int == bump(
                        old(self).col as int,
                    )
                }
            },
            old(self).current >= old(self).len ==> r is None && final(self).current == old(
                self,
            ).current && final(self).line == old(self).line && final(self).col == old(self).col,
    {
        if self.current >= self.len {
            return None;
        }
        let c = self.source.get_char(self.current);
        if c == '\n' {
            if self.line < usize::MAX {
                self.line = self.line + 1;
            }
            self.col = 1;
        } else {
            if self.col < usize::MAX {
                self.col = self.col + 1;
            }
        }
        self.current = self.current + 1;
        Some(c)
    }
}

} // verus!
