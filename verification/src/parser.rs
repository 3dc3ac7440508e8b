//! The recursive-descent parser. It consumes the token sequence left to
//! right with a single cursor, and disambiguates links and strong emphasis
//! by a speculative forward scan: a marker records candidate boundaries,
//! the cursor rewinds, and the parser either commits (re-slicing the token
//! range and recursing on it) or degrades the opening delimiter to literal
//! text. Every token sequence yields some document forest: parsing is total.

use vstd::prelude::*;

use crate::ast::{
    block_wf, forest_wf, inline_wf, inlines_wf, lemma_inline_push, linebreak_free,
    no_adjacent_linebreaks, Header, Link, Node, Paragraph, Strong,
};
use crate::marker::{InlineMarker, LinkMarker};
use crate::token::{token_literal, Span, Token, TokenView};

verus! {

/// Tokens that neither open a construct nor end an inline run: inside a
/// paragraph they become literal text, one node per token.
pub open spec fn plain_token(t: TokenView) -> bool {
    match t {
        TokenView::Text(_) => true,
        TokenView::Digit(_) => true,
        TokenView::Space => true,
        TokenView::Dash => true,
        TokenView::Dot => true,
        TokenView::Underscore => true,
        TokenView::Bang => true,
        TokenView::Tab => true,
        TokenView::LeftParen => true,
        TokenView::RightParen => true,
        TokenView::RightSquareBracket => true,
        TokenView::Backslash => true,
        _ => false,
    }
}

/// Tokens that carry no content at all: blank structure and the end marker.
pub open spec fn trivial_token(t: TokenView) -> bool {
    t is Newline || t is EndOfFile
}

/// Every token in `[lo, hi)` is trivial.
pub open spec fn all_trivial<'s>(s: Seq<(Token<'s>, Span)>, lo: int, hi: int) -> bool {
    forall|i: int| lo <= i < hi ==> trivial_token(#[trigger] s[i].0@)
}

/// The node is the literal text node of the token value `t`.
pub open spec fn literal_text_node(n: Node, t: TokenView) -> bool {
    n matches Node::Text(s) && s@ == token_literal(t)
}

/// The tokens from `lo` on are a heading line and nothing else: `k` hashes
/// starting at column 1, a space, then plain tokens up to the end marker.
pub open spec fn heading_run<'s>(s: Seq<(Token<'s>, Span)>, lo: int, k: int) -> bool {
    &&& 1 <= k <= 6
    &&& 0 <= lo
    &&& lo + k + 2 <= s.len()
    &&& forall|i: int| lo <= i < lo + k ==> (#[trigger] s[i].0@) is Hash
    &&& s[lo].1.col == 1
    &&& s[lo + k].0@ is Space
    &&& forall|i: int| lo + k + 1 <= i < s.len() - 1 ==> plain_token(#[trigger] s[i].0@)
    &&& s[s.len() - 1].0@ is EndOfFile
}

/// The node is a header of level `k` holding exactly the literal text of
/// the tokens after the `k` hashes and the space, in order.
pub open spec fn header_of_literals<'s>(
    n: Node,
    s: Seq<(Token<'s>, Span)>,
    lo: int,
    k: int,
) -> bool {
    n matches Node::Header(h) && h.level as int == k && h.children@.len() == s.len() - (lo + k + 2) && (
    forall|j: int|
        0 <= j < h.children@.len() ==> literal_text_node(
            #[trigger] h.children@[j],
            s[lo + k + 1 + j].0@,
        ))
}

/// The state of the speculative link scan: nothing seen, an open `[`, or a
/// closed `[text](` waiting for its `)`.
pub enum LinkScanState {
    Empty,
    OpenText { start_text: int },
    OpenUrl { start_text: int, end_text: int },
}

/// What the speculative link scan decides: the exact boundaries of the
/// earliest complete `[text](url)` shape, or a degrade.
pub enum LinkOutcome {
    Complete { start_text: int, end_text: int, end_url: int },
    Degrade,
}

/// The outcome of the link scan from position `c` in state `st`: one `[`
/// opens the text, the earliest `]` immediately followed by `(` closes it,
/// the earliest later `)` completes the link; a blank line or the end of
/// the tokens degrades.
pub open spec fn link_scan_from<'s>(
    s: Seq<(Token<'s>, Span)>,
    c: int,
    st: LinkScanState,
) -> LinkOutcome
    decreases s.len() - c,
{
    if c < 0 || c >= s.len() {
        LinkOutcome::Degrade
    } else {
        let t = s[c].0@;
        if t is LeftSquareBracket && st is Empty {
            link_scan_from(s, c + 1, LinkScanState::OpenText { start_text: c + 1 })
        } else if t is RightSquareBracket && st is OpenText && c + 1 < s.len() && s[c + 1].0@
            is LeftParen {
            link_scan_from(
                s,
                c + 1,
                LinkScanState::OpenUrl { start_text: st->OpenText_start_text, end_text: c },
            )
        } else if t is RightParen && st is OpenUrl {
            LinkOutcome::Complete {
                start_text: st->OpenUrl_start_text,
                end_text: st->OpenUrl_end_text,
                end_url: c,
            }
        } else if t is Newline && c + 1 < s.len() && s[c + 1].0@ is Newline {
            LinkOutcome::Degrade
        } else {
            link_scan_from(s, c + 1, st)
        }
    }
}

/// The outcome of the whole speculative link scan at `lo`.
pub open spec fn link_scan<'s>(s: Seq<(Token<'s>, Span)>, lo: int) -> LinkOutcome {
    link_scan_from(s, lo, LinkScanState::Empty)
}

/// The link-scan state a marker stands for while the scan is incomplete.
pub open spec fn link_marker_state(m: LinkMarker) -> LinkScanState {
    if m.start_text is None {
        LinkScanState::Empty
    } else if m.end_text is None {
        LinkScanState::OpenText { start_text: m.start_text->0 as int }
    } else {
        LinkScanState::OpenUrl {
            start_text: m.start_text->0 as int,
            end_text: m.end_text->0 as int,
        }
    }
}

/// A token that refuses to sit right next to a `**` delimiter.
pub open spec fn strong_break_token(t: TokenView) -> bool {
    t is Space || t is Newline || t is EndOfFile
}

/// What the speculative strong scan decides: the exact body boundaries of
/// the earliest valid `**body**` shape, or a degrade.
pub enum StrongOutcome {
    Complete { start: int, end: int },
    Degrade,
}

/// The state of the speculative strong scan: nothing seen, or an open `**`
/// whose body starts at `start`.
pub enum StrongScanState {
    Empty,
    Open { start: int },
}

/// The outcome of the strong scan from position `c` in state `st`: a
/// doubled `*` not followed by a space, newline or the end opens the body;
/// a later doubled `*` not preceded by one closes it at `end`; anything
/// else before an opening, a failed doubling test, a blank line or the end
/// of the tokens degrades.
pub open spec fn strong_scan_from<'s>(
    s: Seq<(Token<'s>, Span)>,
    c: int,
    st: StrongScanState,
) -> StrongOutcome
    decreases s.len() - c,
{
    if c < 0 || c >= s.len() {
        StrongOutcome::Degrade
    } else {
        let t = s[c].0@;
        if t is Star {
            if c + 1 < s.len() && s[c + 1].0@ is Star {
                if st is Empty && !(c + 2 < s.len() && strong_break_token(s[c + 2].0@)) {
                    strong_scan_from(s, c + 1, StrongScanState::Open { start: c + 2 })
                } else if st is Open && 1 <= c && !strong_break_token(s[c - 1].0@) {
                    StrongOutcome::Complete { start: st->Open_start, end: c }
                } else {
                    StrongOutcome::Degrade
                }
            } else {
                strong_scan_from(s, c + 1, st)
            }
        } else if t is Newline && c + 1 < s.len() && s[c + 1].0@ is Newline {
            StrongOutcome::Degrade
        } else if !(t is Newline) && st is Empty {
            StrongOutcome::Degrade
        } else {
            strong_scan_from(s, c + 1, st)
        }
    }
}

/// The outcome of the whole speculative strong scan at `lo`.
pub open spec fn strong_scan<'s>(s: Seq<(Token<'s>, Span)>, lo: int) -> StrongOutcome {
    strong_scan_from(s, lo, StrongScanState::Empty)
}

/// The strong-scan state a marker stands for while the scan is incomplete.
pub open spec fn strong_marker_state(m: InlineMarker) -> StrongScanState {
    if m.start is None {
        StrongScanState::Empty
    } else {
        StrongScanState::Open { start: m.start->0 as int }
    }
}

/// A link scan that meets a blank line at `b` before any `]` degrades.
pub proof fn lemma_link_scan_aborts<'s>(
    s: Seq<(Token<'s>, Span)>,
    c: int,
    b: int,
    st: LinkScanState,
)
    requires
        0 <= c <= b,
        b + 1 < s.len(),
        s[b].0@ is Newline,
        s[b + 1].0@ is Newline,
        forall|j: int| c <= j < b ==> !((#[trigger] s[j].0@) is RightSquareBracket),
        st is Empty || st is OpenText,
    ensures
        link_scan_from(s, c, st) is Degrade,
    decreases b - c,
{
    if c < b {
        let t = s[c].0@;
        if t is LeftSquareBracket && st is Empty {
            lemma_link_scan_aborts(s, c + 1, b, LinkScanState::OpenText { start_text: c + 1 });
        } else if !(t is Newline && c + 1 < s.len() && s[c + 1].0@ is Newline) {
            lemma_link_scan_aborts(s, c + 1, b, st);
        }
    }
}

/// A strong scan that meets a blank line at `b` before any doubled `*`
/// degrades.
pub proof fn lemma_strong_scan_aborts<'s>(
    s: Seq<(Token<'s>, Span)>,
    c: int,
    b: int,
    st: StrongScanState,
)
    requires
        0 <= c <= b,
        b + 1 < s.len(),
        s[b].0@ is Newline,
        s[b + 1].0@ is Newline,
        forall|i: int| c <= i < b - 1 ==> !((#[trigger] s[i].0@) is Star && s[i + 1].0@ is Star),
    ensures
        strong_scan_from(s, c, st) is Degrade,
    decreases b - c,
{
    if c < b {
        let t = s[c].0@;
        if t is Star {
            if c + 1 < s.len() && s[c + 1].0@ is Star {
                assert(c + 1 < b ==> false);
                assert(c + 1 == b ==> !(s[b].0@ is Star));
            } else {
                lemma_strong_scan_aborts(s, c + 1, b, st);
            }
        } else if t is Newline && c + 1 < s.len() && s[c + 1].0@ is Newline {
        } else if !(t is Newline) && st is Empty {
        } else {
            lemma_strong_scan_aborts(s, c + 1, b, st);
        }
    }
}

/// No closing `]` stands strictly between `i` and `b`, so a `[` at `i`
/// cannot complete before the blank line at `b`. (Opaque: revealed only in
/// the pointwise lemma.)
#[verifier::opaque]
pub open spec fn no_close_before<'s>(s: Seq<(Token<'s>, Span)>, i: int, b: int) -> bool {
    forall|j: int| i < j < b ==> !((#[trigger] s[j].0@) is RightSquareBracket)
}

proof fn lemma_no_close_before_at<'s>(s: Seq<(Token<'s>, Span)>, i: int, b: int, j: int)
    requires
        no_close_before(s, i, b),
        i < j < b,
    ensures
        !(s[j].0@ is RightSquareBracket),
{
    reveal(no_close_before);
}

/// The tokens from `lo` up to a blank line at `b` all degrade to literal
/// text: plain tokens and hashes, `[`s that cannot close before the blank,
/// `*`s never doubled before it.
pub open spec fn literal_until_blank<'s>(s: Seq<(Token<'s>, Span)>, lo: int, b: int) -> bool {
    &&& 0 <= lo < b
    &&& b + 1 < s.len()
    &&& s[b].0@ is Newline
    &&& s[b + 1].0@ is Newline
    &&& forall|i: int|
        lo <= i < b ==> (lit_token(#[trigger] s[i].0@) || (s[i].0@ is LeftSquareBracket
            && no_close_before(s, i, b)) || s[i].0@ is Star)
    &&& forall|i: int|
        lo <= i < b - 1 ==> !((#[trigger] s[i].0@) is Star && s[i + 1].0@ is Star)
}

/// The tokens are two literal runs separated by one blank line at `b`,
/// neither opening a heading: the paragraph-break shape. (Opaque: revealed
/// only where the parse loop crosses the blank line.)
#[verifier::opaque]
pub open spec fn split_literal_runs<'s>(s: Seq<(Token<'s>, Span)>, lo: int, b: int) -> bool {
    &&& literal_until_blank(s, lo, b)
    &&& !(s[lo].0@ is Hash && s[lo].1.col == 1 && starts_heading(s, lo))
    &&& b + 2 < s.len()
    &&& literal_run(s, b + 2)
    &&& !(s[b + 2].0@ is Hash && s[b + 2].1.col == 1 && starts_heading(s, b + 2))
}

/// The tokens hold one complete link at `lo`: a `[`, link text made of
/// plain tokens other than `]`, then `](`, a URL made of plain tokens
/// other than `)`, and the closing `)` at position `q`.
pub open spec fn link_run<'s>(s: Seq<(Token<'s>, Span)>, lo: int, p: int, q: int) -> bool {
    &&& 0 <= lo < p
    &&& p + 2 <= q < s.len()
    &&& s[lo].0@ is LeftSquareBracket
    &&& forall|i: int|
        lo < i < p ==> (plain_token(#[trigger] s[i].0@) && !(s[i].0@ is RightSquareBracket))
    &&& s[p].0@ is RightSquareBracket
    &&& s[p + 1].0@ is LeftParen
    &&& forall|i: int|
        p + 2 <= i < q ==> (plain_token(#[trigger] s[i].0@) && !(s[i].0@ is RightParen))
    &&& s[q].0@ is RightParen
}

/// The node is a link whose text and URL are exactly the literal text of
/// the tokens in `(lo, p)` and in `(p + 1, q)` respectively.
pub open spec fn link_of_literals<'s>(
    n: Node,
    s: Seq<(Token<'s>, Span)>,
    lo: int,
    p: int,
    q: int,
) -> bool {
    n matches Node::Link(l) && l.children@.len() == p - (lo + 1) && (forall|j: int|
        0 <= j < l.children@.len() ==> literal_text_node(
            #[trigger] l.children@[j],
            s[lo + 1 + j].0@,
        )) && l.url@.len() == q - (p + 2) && (forall|j: int|
        0 <= j < l.url@.len() ==> literal_text_node(#[trigger] l.url@[j], s[p + 2 + j].0@))
}

/// The tokens hold one complete strong-emphasis construct at `lo`: a
/// doubled `*`, a non-empty body of plain tokens other than `*` that does
/// not start or end with a space, and a closing doubled `*` whose first
/// star sits at position `e`.
pub open spec fn strong_run<'s>(s: Seq<(Token<'s>, Span)>, lo: int, e: int) -> bool {
    &&& 0 <= lo
    &&& lo + 3 <= e
    &&& e + 1 < s.len()
    &&& s[lo].0@ is Star
    &&& s[lo + 1].0@ is Star
    &&& forall|i: int| lo + 2 <= i < e ==> (plain_token(#[trigger] s[i].0@) && !(s[i].0@ is Star))
    &&& !(s[lo + 2].0@ is Space)
    &&& !(s[e - 1].0@ is Space)
    &&& s[e].0@ is Star
    &&& s[e + 1].0@ is Star
}

/// The node is a strong-emphasis element whose body is exactly the literal
/// text of the tokens in `(lo + 1, e)`.
pub open spec fn strong_of_literals<'s>(n: Node, s: Seq<(Token<'s>, Span)>, lo: int, e: int) -> bool {
    n matches Node::Strong(st) && st.children@.len() == e - (lo + 2) && (forall|j: int|
        0 <= j < st.children@.len() ==> literal_text_node(
            #[trigger] st.children@[j],
            s[lo + 2 + j].0@,
        ))
}

/// The number of consecutive `#` tokens starting at `i`.
pub open spec fn hash_count<'s>(s: Seq<(Token<'s>, Span)>, i: int) -> int
    decreases s.len() - i,
{
    if i < 0 || i >= s.len() || !(s[i].0@ is Hash) {
        0
    } else {
        1 + hash_count(s, i + 1)
    }
}

/// The hash run at `lo` is one the parser accepts as a heading, ignoring
/// the column gate: one to six hashes followed by a space.
pub open spec fn starts_heading<'s>(s: Seq<(Token<'s>, Span)>, lo: int) -> bool {
    &&& 1 <= hash_count(s, lo) <= 6
    &&& lo + hash_count(s, lo) < s.len()
    &&& s[lo + hash_count(s, lo)].0@ is Space
}

/// No closing `]` stands anywhere after position `i`, so a `[` at `i` can
/// never complete into a link. (Opaque: revealed only in pointwise lemmas.)
#[verifier::opaque]
pub open spec fn no_close_after<'s>(s: Seq<(Token<'s>, Span)>, i: int) -> bool {
    forall|j: int| i < j < s.len() ==> !(#[trigger] s[j].0@ is RightSquareBracket)
}

/// No doubled `*` stands anywhere from `lo` on, so no `*` can ever open or
/// close strong emphasis. (Opaque: revealed only in pointwise lemmas.)
#[verifier::opaque]
pub open spec fn no_double_star<'s>(s: Seq<(Token<'s>, Span)>, lo: int) -> bool {
    forall|i: int|
        lo <= i < s.len() - 1 ==> !(#[trigger] s[i].0@ is Star && s[i + 1].0@ is Star)
}

proof fn lemma_no_close_after_at<'s>(s: Seq<(Token<'s>, Span)>, i: int, j: int)
    requires
        no_close_after(s, i),
        i < j < s.len(),
    ensures
        !(s[j].0@ is RightSquareBracket),
{
    reveal(no_close_after);
}

proof fn lemma_no_double_star_at<'s>(s: Seq<(Token<'s>, Span)>, lo: int, i: int)
    requires
        no_double_star(s, lo),
        lo <= i < s.len() - 1,
    ensures
        !(s[i].0@ is Star && s[i + 1].0@ is Star),
{
    reveal(no_double_star);
}

proof fn lemma_no_double_star_sub<'s>(s: Seq<(Token<'s>, Span)>, lo: int, i: int)
    requires
        no_double_star(s, lo),
        lo <= i,
    ensures
        no_double_star(s, i),
{
    reveal(no_double_star);
}

/// The token at `i` ends up as literal paragraph text: a plain token or a
/// `#`, a `[` that can never complete a link, or a `*` (unpaired under
/// [`no_double_star`]).
pub open spec fn literal_token_at<'s>(s: Seq<(Token<'s>, Span)>, i: int) -> bool {
    ||| lit_token(s[i].0@)
    ||| (s[i].0@ is LeftSquareBracket && no_close_after(s, i))
    ||| s[i].0@ is Star
}

/// Every token from `lo` up to the final end marker degrades to literal
/// text: plain tokens and hashes, hopeless `[`s, unpaired `*`s.
pub open spec fn literal_run<'s>(s: Seq<(Token<'s>, Span)>, lo: int) -> bool {
    &&& lo + 2 <= s.len()
    &&& forall|i: int| lo <= i < s.len() - 1 ==> #[trigger] literal_token_at(s, i)
    &&& no_double_star(s, lo)
    &&& s[s.len() - 1].0@ is EndOfFile
}

/// A literal run whose first token does not open a heading: either it is
/// not a `#` at column 1, or the hash run is not followed by a space, or it
/// is longer than six.
pub open spec fn literal_block_run<'s>(s: Seq<(Token<'s>, Span)>, lo: int) -> bool {
    &&& literal_run(s, lo)
    &&& !(s[lo].0@ is Hash && s[lo].1.col == 1 && starts_heading(s, lo))
}

/// A heading recognized in place: `k` hashes starting at column 1 at `m`,
/// followed by a space.
pub open spec fn heading_at<'s>(s: Seq<(Token<'s>, Span)>, m: int, k: int) -> bool {
    &&& 0 <= m
    &&& 1 <= k <= 6
    &&& m + k < s.len()
    &&& s[m].1.col == 1
    &&& forall|i: int| m <= i < m + k ==> (#[trigger] s[i].0@) is Hash
    &&& s[m + k].0@ is Space
}

/// No blank line in `[lo, hi)`: no position `i` there starts two adjacent
/// newline tokens. (Opaque: revealed only where the scans extend it.)
#[verifier::opaque]
pub open spec fn no_blank_between<'s>(s: Seq<(Token<'s>, Span)>, lo: int, hi: int) -> bool {
    forall|i: int|
        lo <= i < hi ==> !(#[trigger] s[i].0@ is Newline && s[i + 1].0@ is Newline)
}

/// An empty range holds no blank line.
proof fn lemma_no_blank_trivial<'s>(s: Seq<(Token<'s>, Span)>, lo: int, hi: int)
    requires
        hi <= lo,
    ensures
        no_blank_between(s, lo, hi),
{
    reveal(no_blank_between);
}

/// A blank-free range extends by one position that starts no blank line.
proof fn lemma_no_blank_extend<'s>(s: Seq<(Token<'s>, Span)>, lo: int, hi: int)
    requires
        no_blank_between(s, lo, hi - 1),
        lo <= hi - 1 ==> !(s[hi - 1].0@ is Newline && s[hi].0@ is Newline),
    ensures
        no_blank_between(s, lo, hi),
{
    reveal(no_blank_between);
}

/// Headers arise from nowhere but a recognized heading: if the node is a
/// header, a column-1 hash run of its level followed by a space stands at
/// or after `lo`.
pub open spec fn header_from_heading_at<'s>(n: Node, s: Seq<(Token<'s>, Span)>, lo: int) -> bool {
    n matches Node::Header(h) ==> exists|m: int| lo <= m && heading_at(s, m, h.level as int)
}

/// A hash count counts hashes: everything inside it is a `#` token.
pub proof fn lemma_hash_count_hashes<'s>(s: Seq<(Token<'s>, Span)>, i: int)
    requires
        0 <= i <= s.len(),
    ensures
        0 <= hash_count(s, i),
        i + hash_count(s, i) <= s.len(),
        forall|j: int| i <= j < i + hash_count(s, i) ==> (#[trigger] s[j].0@) is Hash,
    decreases s.len() - i,
{
    if i < s.len() && s[i].0@ is Hash {
        lemma_hash_count_hashes(s, i + 1);
    }
}

/// A maximal all-hash prefix pins down `hash_count` exactly.
proof fn lemma_hash_count_prefix<'s>(s: Seq<(Token<'s>, Span)>, lo: int, c: int)
    requires
        0 <= lo <= c <= s.len(),
        forall|i: int| lo <= i < c ==> (#[trigger] s[i].0@) is Hash,
        c == s.len() || !(s[c].0@ is Hash),
    ensures
        hash_count(s, lo) == c - lo,
    decreases c - lo,
{
    if lo < c {
        lemma_hash_count_prefix(s, lo + 1, c);
    }
}

/// The node is a paragraph holding exactly the literal text of the tokens
/// in `[lo, hi)`, in order.
pub open spec fn paragraph_of_literals<'s>(
    n: Node,
    s: Seq<(Token<'s>, Span)>,
    lo: int,
    hi: int,
) -> bool {
    n matches Node::Paragraph(p) && p.children@.len() == hi - lo && (forall|k: int|
        0 <= k < hi - lo ==> literal_text_node(#[trigger] p.children@[k], s[lo + k].0@))
}

/// Recursive-descent parser over a borrowed token slice.
pub struct Parser<'s> {
    current: usize,
    tokens: &'s [(Token<'s>, Span)],
}

impl<'s> Parser<'s> {
    /// The token sequence being parsed.
    pub closed spec fn toks(&self) -> Seq<(Token<'s>, Span)> {
        self.tokens@
    }

    /// The cursor: how many tokens have been consumed.
    pub closed spec fn cursor(&self) -> int {
        self.current as int
    }

    pub closed spec fn wf(&self) -> bool {
        self.current <= self.tokens@.len()
    }

    /// The value of the token at position `i`.
    pub open spec fn tok_at(&self, i: int) -> TokenView {
        self.toks()[i].0@
    }

    pub fn new(tokens: &'s [(Token<'s>, Span)]) -> (r: Parser<'s>)
        ensures
            r.toks() == tokens@,
            r.cursor() == 0,
            r.wf(),
    {
        Self { tokens, current: 0 }
    }

    fn is_at_end(&self) -> (r: bool)
        ensures
            r == (self.cursor() >= self.toks().len()),
    {
        self.current >= self.tokens.len()
    }

    fn peek(&self) -> (r: Option<&'s (Token<'s>, Span)>)
        ensures
            r is Some <==> self.cursor() < self.toks().len(),
            r matches Some(p) ==> *p == self.toks()[self.cursor()],
    {
        let toks: &'s [(Token<'s>, Span)] = self.tokens;
        if self.current < toks.len() {
            Some(&toks[self.current])
        } else {
            None
        }
    }

    /// Gets the token after the next one, but does not consume it.
    fn peek_next(&self) -> (r: Option<&'s (Token<'s>, Span)>)
        ensures
            r is Some <==> self.cursor() + 1 < self.toks().len(),
            r matches Some(p) ==> *p == self.toks()[self.cursor() + 1],
    {
        let toks: &'s [(Token<'s>, Span)] = self.tokens;
        if self.current < toks.len() && self.current + 1 < toks.len() {
            Some(&toks[self.current + 1])
        } else {
            None
        }
    }

    fn peek_token(&self) -> (r: Option<&'s Token<'s>>)
        ensures
            r is Some <==> self.cursor() < self.toks().len(),
            r matches Some(t) ==> *t == self.toks()[self.cursor()].0,
    {
        match self.peek() {
            Some(pair) => Some(&pair.0),
            None => None,
        }
    }

    fn peek_next_token(&self) -> (r: Option<&'s Token<'s>>)
        ensures
            r is Some <==> self.cursor() + 1 < self.toks().len(),
            r matches Some(t) ==> *t == self.toks()[self.cursor() + 1].0,
    {
        match self.peek_next() {
            Some(pair) => Some(&pair.0),
            None => None,
        }
    }

    fn previous(&self) -> (r: Option<&'s (Token<'s>, Span)>)
        requires
            self.cursor() >= 1,
        ensures
            r is Some <==> self.cursor() - 1 < self.toks().len(),
            r matches Some(p) ==> *p == self.toks()[self.cursor() - 1],
    {
        let toks: &'s [(Token<'s>, Span)] = self.tokens;
        if self.current - 1 < toks.len() {
            Some(&toks[self.current - 1])
        } else {
            None
        }
    }

    fn advance(&mut self) -> (r: Option<&'s (Token<'s>, Span)>)
        requires
            old(self).wf(),
        ensures
            final(self).wf(),
            final(self).tokens == old(self).tokens,
            old(self).cursor() < old(self).toks().len() ==> {
                &&& final(self).cursor() == old(self).cursor() + 1
                &&& r matches Some(p) && *p == old(self).toks()[old(self).cursor()]
            },
            old(self).cursor() >= old(self).toks().len() ==> r is None && final(self).cursor()
                == old(self).cursor(),
    {
        if self.current >= self.tokens.len() {
            return None;
        }
        self.current = self.current + 1;
        self.previous()
    }

    /// Walks back the given number of steps, but never past the start.
    fn step_back(&mut self, num_steps: usize) -> (r: Option<&'s (Token<'s>, Span)>)
        requires
            old(self).wf(),
        ensures
            final(self).wf(),
            final(self).tokens == old(self).tokens,
            final(self).cursor() == if num_steps <= old(self).cursor() {
                old(self).cursor() - num_steps
            } else {
                0
            },
            r is Some <==> final(self).cursor() < final(self).toks().len(),
            r matches Some(p) ==> *p == final(self).toks()[final(self).cursor()],
    {
        self.current = if num_steps <= self.current {
            self.current - num_steps
        } else {
            0
        };
        self.peek()
    }

    /// Jumps straight to a specific position.
    fn rewind(&mut self, to_position: usize)
        requires
            to_position <= old(self).toks().len(),
        ensures
            final(self).wf(),
            final(self).tokens == old(self).tokens,
            final(self).cursor() == to_position,
    {
        self.current = to_position;
    }

    /// Compares the current token, but does not consume it.
    fn check(&self, token: &Token) -> (r: bool)
        ensures
            r == (self.cursor() < self.toks().len() && self.tok_at(self.cursor()) == token@),
    {
        match self.peek() {
            Some(pair) => pair.0 == *token,
            None => false,
        }
    }

    /// Compares the given token to the one after the next, but does not
    /// consume it.
    fn check_next(&self, token: Token) -> (r: bool)
        ensures
            r == (self.cursor() + 1 < self.toks().len() && self.tok_at(self.cursor() + 1)
                == token@),
    {
        match self.peek_next() {
            Some(pair) => pair.0 == token,
            None => false,
        }
    }

    /// Consumes the next token if it is the expected one.
    fn match_token(&mut self, expected: Token) -> (r: bool)
        requires
            old(self).wf(),
        ensures
            final(self).wf(),
            final(self).tokens == old(self).tokens,
            r == (old(self).cursor() < old(self).toks().len() && old(self).tok_at(
                old(self).cursor(),
            ) == expected@),
            r ==> final(self).cursor() == old(self).cursor() + 1,
            !r ==> final(self).cursor() == old(self).cursor(),
    {
        if self.is_at_end() {
            return false;
        }
        if self.check(&expected) {
            self.advance();
            return true;
        }
        false
    }

    /// Consumes the next token, which the caller has already confirmed.
    fn consume(&mut self, kind: &Token) -> (r: &'s Token<'s>)
        requires
            old(self).wf(),
            old(self).cursor() < old(self).toks().len(),
            old(self).tok_at(old(self).cursor()) == kind@,
        ensures
            final(self).wf(),
            final(self).tokens == old(self).tokens,
            final(self).cursor() == old(self).cursor() + 1,
            *r == old(self).toks()[old(self).cursor()].0,
    {
        let toks: &'s [(Token<'s>, Span)] = self.tokens;
        let t = &toks[self.current].0;
        self.current = self.current + 1;
        t
    }
}

/// Tokens that a literal inline node is built from: the plain tokens plus
/// `#`, which is only structural at the start of a block.
pub open spec fn lit_token(t: TokenView) -> bool {
    plain_token(t) || t is Hash
}

/// The end-of-input marker appears nowhere but as the last token. Every
/// token sequence the tokenizer produces has this shape, and so does every
/// inner range a speculative scan commits to.
pub open spec fn eof_at_end_only<'s>(s: Seq<(Token<'s>, Span)>) -> bool {
    forall|i: int| 0 <= i < s.len() - 1 ==> !(#[trigger] s[i].0@ is EndOfFile)
}

/// The cursor only moves forward over an unchanged token sequence.
pub open spec fn steps_ok<'s>(pre: Parser<'s>, post: Parser<'s>) -> bool {
    &&& post.toks() == pre.toks()
    &&& post.wf()
    &&& pre.cursor() <= post.cursor()
}

/// Appending the literal node of the next token extends a pointwise
/// literal run by one.
proof fn lemma_literal_run_push<'s>(
    s: Seq<Node>,
    node: Node,
    toks: Seq<(Token<'s>, Span)>,
    lo: int,
)
    requires
        forall|k: int| 0 <= k < s.len() ==> literal_text_node(#[trigger] s[k], toks[lo + k].0@),
        literal_text_node(node, toks[lo + s.len()].0@),
    ensures
        forall|k: int|
            0 <= k < s.len() + 1 ==> literal_text_node(
                #[trigger] s.push(node)[k],
                toks[lo + k].0@,
            ),
{
    assert forall|k: int| 0 <= k < s.len() + 1 implies literal_text_node(
        #[trigger] s.push(node)[k],
        toks[lo + k].0@,
    ) by {
        if k < s.len() {
            assert(s.push(node)[k] == s[k]);
        } else {
            assert(s.push(node)[k] == node);
        }
    }
}

impl<'s> Parser<'s> {
    /// Parses the whole token sequence into a document forest. Always
    /// terminates with a well-formed forest; the forest is empty exactly
    /// when the tokens hold no content, and a run of plain tokens is one
    /// paragraph of their literal text.
    #[verifier::loop_isolation(false)]
    #[verifier::rlimit(100)]
    #[verifier::spinoff_prover]
    pub fn parse(&mut self) -> (r: Vec<Node<'s>>)
        requires
            old(self).wf(),
            eof_at_end_only(old(self).toks()),
        ensures
            final(self).toks() == old(self).toks(),
            final(self).cursor() == old(self).toks().len(),
            forest_wf(r@),
            r@.len() == 0 <==> all_trivial(
                old(self).toks(),
                old(self).cursor(),
                old(self).toks().len() as int,
            ),
            literal_block_run(old(self).toks(), old(self).cursor()) ==> r@.len() == 1
                && paragraph_of_literals(
                r@[0],
                old(self).toks(),
                old(self).cursor(),
                old(self).toks().len() - 1,
            ),
            forall|j: int|
                0 <= j < r@.len() ==> header_from_heading_at(
                    #[trigger] r@[j],
                    old(self).toks(),
                    old(self).cursor(),
                ),
            forall|b: int|
                split_literal_runs(old(self).toks(), old(self).cursor(), b) ==> (r@.len() == 2
                    && paragraph_of_literals(r@[0], old(self).toks(), old(self).cursor(), b)
                    && paragraph_of_literals(
                    r@[1],
                    old(self).toks(),
                    b + 2,
                    old(self).toks().len() - 1,
                )),
            forall|k: int|
                heading_run(old(self).toks(), old(self).cursor(), k) ==> r@.len() == 1
                    && header_of_literals(r@[0], old(self).toks(), old(self).cursor(), k),
            forall|p: int, q: int|
                (link_run(old(self).toks(), old(self).cursor(), p, q) && q + 2 == old(
                    self,
                ).toks().len() && old(self).tok_at(old(self).toks().len() - 1) is EndOfFile) ==> (
                r@.len() == 1 && (r@[0] matches Node::Paragraph(par) && par.children@.len() == 1
                    && link_of_literals(par.children@[0], old(self).toks(), old(self).cursor(), p, q))),
            forall|e: int|
                (strong_run(old(self).toks(), old(self).cursor(), e) && e + 3 == old(
                    self,
                ).toks().len() && old(self).tok_at(old(self).toks().len() - 1) is EndOfFile) ==> (
                r@.len() == 1 && (r@[0] matches Node::Paragraph(par) && par.children@.len() == 1
                    && strong_of_literals(par.children@[0], old(self).toks(), old(self).cursor(), e))),
        decreases old(self).toks().len(), 9int,
    {
        let ghost toks = self.toks();
        let ghost n = self.toks().len() as int;
        let ghost lo = self.cursor();
        let mut nodes: Vec<Node<'s>> = Vec::new();
        while !self.is_at_end()
            invariant
                self.wf(),
                self.tokens == old(self).tokens,
                lo <= self.cursor(),
                forest_wf(nodes@),
                nodes@.len() == 0 ==> all_trivial(toks, lo, self.cursor()),
                all_trivial(toks, lo, n) ==> nodes@.len() == 0,
                literal_block_run(toks, lo) ==> ((self.cursor() == lo && nodes@.len() == 0) || (
                self.cursor() == n && nodes@.len() == 1 && paragraph_of_literals(
                    nodes@[0],
                    toks,
                    lo,
                    n - 1,
                ))),
                forall|j: int|
                    0 <= j < nodes@.len() ==> header_from_heading_at(
                        #[trigger] nodes@[j],
                        toks,
                        lo,
                    ),
                forall|b: int|
                    split_literal_runs(toks, lo, b) ==> ((self.cursor() == lo && nodes@.len()
                        == 0) || (self.cursor() == b && nodes@.len() == 1
                        && paragraph_of_literals(nodes@[0], toks, lo, b)) || (self.cursor() == n
                        && nodes@.len() == 2 && paragraph_of_literals(nodes@[0], toks, lo, b)
                        && paragraph_of_literals(nodes@[1], toks, b + 2, n - 1))),
                forall|k: int|
                    heading_run(toks, lo, k) ==> ((self.cursor() == lo && nodes@.len() == 0) || (
                    self.cursor() == n && nodes@.len() == 1 && header_of_literals(
                        nodes@[0],
                        toks,
                        lo,
                        k,
                    ))),
                forall|p: int, q: int|
                    (link_run(toks, lo, p, q) && q + 2 == n && toks[n - 1].0@ is EndOfFile) ==> ((
                    self.cursor() == lo && nodes@.len() == 0) || (self.cursor() == n
                        && nodes@.len() == 1 && (nodes@[0] matches Node::Paragraph(par)
                        && par.children@.len() == 1 && link_of_literals(
                        par.children@[0],
                        toks,
                        lo,
                        p,
                        q,
                    )))),
                forall|e: int|
                    (strong_run(toks, lo, e) && e + 3 == n && toks[n - 1].0@ is EndOfFile) ==> ((
                    self.cursor() == lo && nodes@.len() == 0) || (self.cursor() == n
                        && nodes@.len() == 1 && (nodes@[0] matches Node::Paragraph(par)
                        && par.children@.len() == 1 && strong_of_literals(
                        par.children@[0],
                        toks,
                        lo,
                        e,
                    )))),
            decreases n - self.cursor(),
        {
            let ghost cur0 = self.cursor();
            match self.block() {
                Some(node) => {
                    proof {
                        assert forall|b: int| split_literal_runs(toks, lo, b) implies ((cur0
                            == lo ==> (paragraph_of_literals(node, toks, lo, b) && self.cursor()
                            == b && lo < b < n)) && (cur0 == b ==> (paragraph_of_literals(
                            node,
                            toks,
                            b + 2,
                            n - 1,
                        ) && self.cursor() == n)) && b + 2 < n) by {
                            reveal(split_literal_runs);
                            if cur0 == b {
                                assert forall|i: int| b <= i < b + 2 implies (
                                #[trigger] toks[i].0@) is Newline by {
                                    assert(toks[b].0@ is Newline);
                                    assert(toks[b + 1].0@ is Newline);
                                }
                                assert(literal_block_run(toks, b + 2));
                            }
                        }
                    }
                    nodes.push(node);
                },
                None => {
                    proof {
                        assert forall|b: int| split_literal_runs(toks, lo, b) implies false by {
                            reveal(split_literal_runs);
                            if cur0 == b {
                                assert forall|i: int| b <= i < b + 2 implies (
                                #[trigger] toks[i].0@) is Newline by {
                                    assert(toks[b].0@ is Newline);
                                    assert(toks[b + 1].0@ is Newline);
                                }
                                assert(literal_block_run(toks, b + 2));
                            }
                        }
                    }
                },
            }
        }
        proof {
            assert forall|b: int| split_literal_runs(toks, lo, b) implies (nodes@.len() == 2
                && paragraph_of_literals(nodes@[0], toks, lo, b) && paragraph_of_literals(
                nodes@[1],
                toks,
                b + 2,
                n - 1,
            )) by {
                reveal(split_literal_runs);
            }
        }
        nodes
    }

    /// Parses nested inline elements only, for a token range sliced out of
    /// another inline element (link text, link URL, strong body).
    #[verifier::loop_isolation(false)]
    fn parse_inline(&mut self) -> (r: Vec<Node<'s>>)
        requires
            old(self).wf(),
            eof_at_end_only(old(self).toks()),
        ensures
            steps_ok(*old(self), *final(self)),
            inlines_wf(r@),
            no_adjacent_linebreaks(r@),
            (forall|i: int|
                old(self).cursor() <= i < old(self).toks().len() ==> lit_token(
                    #[trigger] old(self).toks()[i].0@,
                )) ==> (final(self).cursor() == old(self).toks().len() && r@.len() == old(
                self,
            ).toks().len() - old(self).cursor() && (forall|j: int|
                0 <= j < r@.len() ==> literal_text_node(
                    #[trigger] r@[j],
                    old(self).toks()[old(self).cursor() + j].0@,
                ))),
        decreases old(self).toks().len(), 6int,
    {
        let ghost toks = self.toks();
        let ghost n = self.toks().len() as int;
        let ghost lo = self.cursor();
        let ghost all_plain = forall|i: int|
            lo <= i < n ==> lit_token(#[trigger] toks[i].0@);
        let mut nodes: Vec<Node<'s>> = Vec::new();
        let mut halted = false;
        while !halted && !self.is_at_end()
            invariant
                self.wf(),
                self.tokens == old(self).tokens,
                lo <= self.cursor(),
                inlines_wf(nodes@),
                no_adjacent_linebreaks(nodes@),
                (nodes@.len() > 0 && nodes@.last() is LineBreak) ==> (self.cursor() == n || !(
                self.tok_at(self.cursor()) is Newline)),
                all_plain ==> (self.cursor() - lo == nodes@.len() && (forall|j: int|
                    0 <= j < nodes@.len() ==> literal_text_node(
                        #[trigger] nodes@[j],
                        toks[lo + j].0@,
                    ))),
                halted ==> (self.cursor() == n || (self.cursor() < n && self.tok_at(
                    self.cursor(),
                ) is Newline)),
            decreases n - self.cursor(), (if halted {
                0int
            } else {
                1int
            }),
        {
            let before = self.current;
            match self.inline() {
                Some(node) => {
                    proof {
                        lemma_inline_push(nodes@, node);
                        if all_plain {
                            lemma_literal_run_push(nodes@, node, toks, lo);
                        }
                    }
                    nodes.push(node);
                },
                None => {
                    // a blank line inside the range ends the run
                    if self.current == before {
                        halted = true;
                    }
                },
            }
        }
        nodes
    }

    /// Parses one block: a heading if a `#` run starts at column 1, else a
    /// paragraph. Leading blank lines are skipped and produce no node.
    #[verifier::loop_isolation(false)]
    fn block(&mut self) -> (r: Option<Node<'s>>)
        requires
            old(self).wf(),
            eof_at_end_only(old(self).toks()),
        ensures
            steps_ok(*old(self), *final(self)),
            old(self).cursor() < old(self).toks().len() ==> final(self).cursor() > old(
                self,
            ).cursor(),
            r matches Some(node) ==> block_wf(node),
            r is None ==> all_trivial(old(self).toks(), old(self).cursor(), final(self).cursor()),
            all_trivial(old(self).toks(), old(self).cursor(), old(self).toks().len() as int)
                ==> r is None,
            literal_block_run(old(self).toks(), old(self).cursor()) ==> (r matches Some(node)
                && paragraph_of_literals(
                node,
                old(self).toks(),
                old(self).cursor(),
                old(self).toks().len() - 1,
            ) && final(self).cursor() == old(self).toks().len()),
            forall|m: int|
                ((forall|i: int|
                    old(self).cursor() <= i < m ==> (#[trigger] old(self).toks()[i].0@)
                        is Newline) && old(self).cursor() <= m && literal_block_run(
                    old(self).toks(),
                    m,
                )) ==> (r matches Some(node) && paragraph_of_literals(
                    node,
                    old(self).toks(),
                    m,
                    old(self).toks().len() - 1,
                ) && final(self).cursor() == old(self).toks().len()),
            forall|b: int|
                (literal_until_blank(old(self).toks(), old(self).cursor(), b) && !(old(
                    self,
                ).toks()[old(self).cursor()].0@ is Hash && old(self).toks()[old(
                    self,
                ).cursor()].1.col == 1 && starts_heading(old(self).toks(), old(self).cursor())))
                    ==> (r matches Some(node) && paragraph_of_literals(
                    node,
                    old(self).toks(),
                    old(self).cursor(),
                    b,
                ) && final(self).cursor() == b),
            r matches Some(node) ==> header_from_heading_at(node, old(self).toks(), old(
                self,
            ).cursor()),
            forall|k: int|
                heading_run(old(self).toks(), old(self).cursor(), k) ==> (r matches Some(node)
                    && header_of_literals(node, old(self).toks(), old(self).cursor(), k) && final(self).cursor() == old(
                    self,
                ).toks().len()),
            forall|p: int, q: int|
                (link_run(old(self).toks(), old(self).cursor(), p, q) && q + 2 == old(
                    self,
                ).toks().len() && old(self).tok_at(old(self).toks().len() - 1) is EndOfFile) ==> (
                r matches Some(node) && node matches Node::Paragraph(par) && par.children@.len()
                    == 1 && link_of_literals(
                    par.children@[0],
                    old(self).toks(),
                    old(self).cursor(),
                    p,
                    q,
                ) && final(self).cursor() == old(self).toks().len()),
            forall|e: int|
                (strong_run(old(self).toks(), old(self).cursor(), e) && e + 3 == old(
                    self,
                ).toks().len() && old(self).tok_at(old(self).toks().len() - 1) is EndOfFile) ==> (
                r matches Some(node) && node matches Node::Paragraph(par) && par.children@.len()
                    == 1 && strong_of_literals(
                    par.children@[0],
                    old(self).toks(),
                    old(self).cursor(),
                    e,
                ) && final(self).cursor() == old(self).toks().len()),
        decreases old(self).toks().len(), 8int,
    {
        let ghost toks = self.toks();
        let ghost n = self.toks().len() as int;
        let ghost lo = self.cursor();
        while self.check(&Token::Newline)
            invariant
                self.wf(),
                self.tokens == old(self).tokens,
                lo <= self.cursor(),
                all_trivial(toks, lo, self.cursor()),
            decreases n - self.cursor(),
        {
            self.consume(&Token::Newline);
        }
        proof {
            if literal_run(toks, lo) && self.cursor() > lo {
                assert(trivial_token(toks[lo].0@));
                assert(literal_token_at(toks, lo));
                assert(false);
            }
            assert forall|b: int| literal_until_blank(toks, lo, b) implies self.cursor()
                == lo by {
                assert(lit_token(toks[lo].0@) || toks[lo].0@ is LeftSquareBracket || toks[lo].0@
                    is Star);
                assert(self.cursor() > lo ==> trivial_token(toks[lo].0@));
            }
            assert forall|m: int|
                ((forall|i: int| lo <= i < m ==> (#[trigger] toks[i].0@) is Newline) && lo <= m
                    && literal_block_run(toks, m)) implies self.cursor() == m by {
                assert(literal_token_at(toks, m));
                assert(self.cursor() > m ==> trivial_token(toks[m].0@));
                if self.cursor() < m {
                    assert(toks[self.cursor()].0@ is Newline);
                }
            }
            assert forall|k: int| heading_run(toks, lo, k) implies self.cursor() == lo by {
                assert(toks[lo].0@ is Hash);
                assert(self.cursor() > lo ==> trivial_token(toks[lo].0@));
            }
            assert forall|p: int, q: int| link_run(toks, lo, p, q) implies self.cursor() == lo by {
                assert(toks[lo].0@ is LeftSquareBracket);
                assert(self.cursor() > lo ==> trivial_token(toks[lo].0@));
            }
            assert forall|e: int| strong_run(toks, lo, e) implies self.cursor() == lo by {
                assert(toks[lo].0@ is Star);
                assert(self.cursor() > lo ==> trivial_token(toks[lo].0@));
            }
        }
        let ghost mid = self.cursor();
        // Headings can only start as the very first token in a line
        match self.peek() {
            Some(pair) => {
                if matches!(pair.0, Token::Hash) && pair.1.col == 1 {
                    let ghost before = *self;
                    let heading = self.maybe_heading();
                    proof {
                        if heading is Some && heading->0 is Header {
                            let h = heading->0->Header_0;
                            assert(1 <= h.level <= 6);
                            assert(toks[mid].1.col == 1);
                            assert(mid + h.level < n);
                            assert forall|i: int| mid <= i < mid + h.level implies (
                            #[trigger] toks[i].0@) is Hash by {
                                assert(before.tok_at(i) is Hash);
                            }
                            assert(before.tok_at(mid + h.level) is Space);
                            assert(heading_at(toks, mid, h.level as int));
                        }
                    }
                    return heading;
                }
            },
            None => {},
        }
        self.maybe_paragraph()
    }

    /// Counts a `#` run. A run of 1 to 6 hashes followed by a space is a
    /// heading whose children run to the end of the line; any other run is
    /// restored by rewinding and read again as literal paragraph text.
    #[verifier::loop_isolation(false)]
    fn maybe_heading(&mut self) -> (r: Option<Node<'s>>)
        requires
            old(self).wf(),
            eof_at_end_only(old(self).toks()),
            old(self).cursor() < old(self).toks().len(),
            old(self).tok_at(old(self).cursor()) is Hash,
        ensures
            steps_ok(*old(self), *final(self)),
            final(self).cursor() > old(self).cursor(),
            r is Some,
            r matches Some(node) ==> block_wf(node),
            forall|k: int|
                heading_run(old(self).toks(), old(self).cursor(), k) ==> (r matches Some(node)
                    && header_of_literals(node, old(self).toks(), old(self).cursor(), k) && final(self).cursor() == old(
                    self,
                ).toks().len()),
            r matches Some(node) ==> (node matches Node::Header(h) ==> (1 <= h.level <= 6
                && old(self).cursor() + h.level < old(self).toks().len() && (forall|i: int|
                old(self).cursor() <= i < old(self).cursor() + h.level ==> (#[trigger] old(
                    self,
                ).tok_at(i)) is Hash) && old(self).tok_at(old(self).cursor() + h.level)
                is Space)),
            (literal_run(old(self).toks(), old(self).cursor()) && !starts_heading(
                old(self).toks(),
                old(self).cursor(),
            )) ==> (r matches Some(node) && paragraph_of_literals(
                node,
                old(self).toks(),
                old(self).cursor(),
                old(self).toks().len() - 1,
            ) && final(self).cursor() == old(self).toks().len()),
            forall|b: int|
                (literal_until_blank(old(self).toks(), old(self).cursor(), b) && !starts_heading(
                    old(self).toks(),
                    old(self).cursor(),
                )) ==> (r matches Some(node) && paragraph_of_literals(
                    node,
                    old(self).toks(),
                    old(self).cursor(),
                    b,
                ) && final(self).cursor() == b),
        decreases old(self).toks().len(), 7int,
    {
        let ghost toks = self.toks();
        let ghost n = self.toks().len() as int;
        let ghost lo = self.cursor();
        let mut heading_level: usize = 0;
        while self.match_token(Token::Hash)
            invariant
                self.wf(),
                self.tokens == old(self).tokens,
                self.cursor() == lo + heading_level,
                forall|i: int| lo <= i < self.cursor() ==> (#[trigger] toks[i].0@) is Hash,
                forall|k: int| heading_run(toks, lo, k) ==> self.cursor() <= lo + k,
            decreases n - self.cursor(),
        {
            heading_level = heading_level + 1;
        }
        proof {
            assert forall|k: int| heading_run(toks, lo, k) implies heading_level == k by {
                if self.cursor() < lo + k {
                    assert(toks[self.cursor()].0@ is Hash);
                }
            }
            lemma_hash_count_prefix(toks, lo, self.cursor());
            if literal_run(toks, lo) && self.cursor() == n {
                assert(toks[n - 1].0@ is EndOfFile);
                assert(toks[n - 1].0@ is Hash);
                assert(false);
            }
            assert forall|b: int| literal_until_blank(toks, lo, b) implies self.cursor()
                <= b by {
                if self.cursor() > b {
                    assert(toks[b].0@ is Newline);
                    assert(toks[b].0@ is Hash);
                }
            }
        }
        if heading_level >= 1 && heading_level <= 6 && self.match_token(Token::Space) {
            let ghost body_lo = lo + heading_level + 1;
            let mut inline_elements: Vec<Node<'s>> = Vec::new();
            let mut halted = false;
            while !halted
                invariant
                    self.wf(),
                    self.tokens == old(self).tokens,
                    lo < self.cursor(),
                    inlines_wf(inline_elements@),
                    no_adjacent_linebreaks(inline_elements@),
                    linebreak_free(inline_elements@),
                    halted ==> (self.cursor() == n || (self.cursor() < n && self.tok_at(
                        self.cursor(),
                    ) is Newline) || (self.cursor() >= 1 && (self.tok_at(self.cursor() - 1)
                        is EndOfFile || self.tok_at(self.cursor() - 1) is Newline))),
                    heading_run(toks, lo, heading_level as int) ==> ((body_lo <= self.cursor()
                        <= n - 1 && inline_elements@.len() == self.cursor() - body_lo && (forall|
                        j: int,
                    |
                        0 <= j < inline_elements@.len() ==> literal_text_node(
                            #[trigger] inline_elements@[j],
                            toks[body_lo + j].0@,
                        ))) || (self.cursor() == n && inline_elements@.len() == n - 1 - body_lo
                        && (forall|j: int|
                        0 <= j < inline_elements@.len() ==> literal_text_node(
                            #[trigger] inline_elements@[j],
                            toks[body_lo + j].0@,
                        )))),
                decreases n - self.cursor(), (if halted {
                    0int
                } else {
                    1int
                }),
            {
                match self.inline() {
                    Some(node) => {
                        if matches!(node, Node::LineBreak) {
                            halted = true;
                        } else {
                            proof {
                                lemma_inline_push(inline_elements@, node);
                                if heading_run(toks, lo, heading_level as int) {
                                    lemma_literal_run_push(inline_elements@, node, toks, body_lo);
                                }
                            }
                            inline_elements.push(node);
                        }
                    },
                    None => { halted = true; },
                }
            }
            proof {
                if heading_run(toks, lo, heading_level as int) {
                    if self.cursor() < n {
                        assert(!(toks[self.cursor()].0@ is Newline)) by {
                            if self.cursor() < n - 1 {
                                assert(plain_token(toks[self.cursor()].0@));
                            } else {
                                assert(toks[n - 1].0@ is EndOfFile);
                            }
                        }
                        assert(self.cursor() >= 1);
                        assert(!(toks[self.cursor() - 1].0@ is EndOfFile)) by {
                            if self.cursor() - 1 < n - 1 {
                                if self.cursor() - 1 >= body_lo {
                                    assert(plain_token(toks[self.cursor() - 1].0@));
                                } else if self.cursor() - 1 == body_lo - 1 {
                                    assert(toks[lo + heading_level].0@ is Space);
                                }
                            }
                        }
                        assert(!(toks[self.cursor() - 1].0@ is Newline)) by {
                            if self.cursor() - 1 < n - 1 {
                                if self.cursor() - 1 >= body_lo {
                                    assert(plain_token(toks[self.cursor() - 1].0@));
                                } else if self.cursor() - 1 == body_lo - 1 {
                                    assert(toks[lo + heading_level].0@ is Space);
                                }
                            } else {
                                assert(toks[n - 1].0@ is EndOfFile);
                            }
                        }
                        assert(false);
                    }
                    assert(self.cursor() == n);
                }
            }
            return Some(
                Node::Header(Header { level: heading_level as u8, children: inline_elements }),
            );
        }
        // the hashes are not a valid heading: rewind and let them be
        // handled as normal text
        if heading_level > 0 {
            self.step_back(heading_level);
        }
        self.maybe_paragraph()
    }

    /// Accumulates inline nodes into a paragraph; blank lines before the
    /// paragraph are consumed and discarded, and no node at all is produced
    /// for an empty run.
    #[verifier::loop_isolation(false)]
    #[verifier::rlimit(100)]
    #[verifier::spinoff_prover]
    fn maybe_paragraph(&mut self) -> (r: Option<Node<'s>>)
        requires
            old(self).wf(),
            eof_at_end_only(old(self).toks()),
        ensures
            steps_ok(*old(self), *final(self)),
            old(self).cursor() < old(self).toks().len() ==> final(self).cursor() > old(
                self,
            ).cursor(),
            r matches Some(node) ==> block_wf(node) && node is Paragraph,
            r is None ==> all_trivial(old(self).toks(), old(self).cursor(), final(self).cursor()),
            all_trivial(old(self).toks(), old(self).cursor(), old(self).toks().len() as int)
                ==> r is None,
            (old(self).cursor() < old(self).toks().len() && lit_token(
                old(self).tok_at(old(self).cursor()),
            )) ==> r is Some,
            literal_run(old(self).toks(), old(self).cursor()) ==> (r matches Some(node)
                && paragraph_of_literals(
                node,
                old(self).toks(),
                old(self).cursor(),
                old(self).toks().len() - 1,
            ) && final(self).cursor() == old(self).toks().len()),
            forall|b: int|
                literal_until_blank(old(self).toks(), old(self).cursor(), b) ==> (r matches Some(
                    node,
                ) && paragraph_of_literals(node, old(self).toks(), old(self).cursor(), b)
                    && final(self).cursor() == b),
            forall|p: int, q: int|
                (link_run(old(self).toks(), old(self).cursor(), p, q) && q + 2 == old(
                    self,
                ).toks().len() && old(self).tok_at(old(self).toks().len() - 1) is EndOfFile) ==> (
                r matches Some(node) && node matches Node::Paragraph(par) && par.children@.len()
                    == 1 && link_of_literals(
                    par.children@[0],
                    old(self).toks(),
                    old(self).cursor(),
                    p,
                    q,
                ) && final(self).cursor() == old(self).toks().len()),
            forall|e: int|
                (strong_run(old(self).toks(), old(self).cursor(), e) && e + 3 == old(
                    self,
                ).toks().len() && old(self).tok_at(old(self).toks().len() - 1) is EndOfFile) ==> (
                r matches Some(node) && node matches Node::Paragraph(par) && par.children@.len()
                    == 1 && strong_of_literals(
                    par.children@[0],
                    old(self).toks(),
                    old(self).cursor(),
                    e,
                ) && final(self).cursor() == old(self).toks().len()),
        decreases old(self).toks().len(), 6int,
    {
        let ghost toks = self.toks();
        let ghost n = self.toks().len() as int;
        let ghost lo = self.cursor();
        while self.check(&Token::Newline)
            invariant
                self.wf(),
                self.tokens == old(self).tokens,
                lo <= self.cursor(),
                all_trivial(toks, lo, self.cursor()),
            decreases n - self.cursor(),
        {
            self.consume(&Token::Newline);
        }
        proof {
            if literal_run(toks, lo) && self.cursor() > lo {
                assert(trivial_token(toks[lo].0@));
                assert(literal_token_at(toks, lo));
                assert(false);
            }
            assert forall|b: int| literal_until_blank(toks, lo, b) implies self.cursor()
                == lo by {
                assert(lit_token(toks[lo].0@) || toks[lo].0@ is LeftSquareBracket || toks[lo].0@
                    is Star);
                assert(self.cursor() > lo ==> trivial_token(toks[lo].0@));
            }
            assert forall|m: int|
                ((forall|i: int| lo <= i < m ==> (#[trigger] toks[i].0@) is Newline) && lo <= m
                    && literal_block_run(toks, m)) implies self.cursor() == m by {
                assert(literal_token_at(toks, m));
                assert(self.cursor() > m ==> trivial_token(toks[m].0@));
                if self.cursor() < m {
                    assert(toks[self.cursor()].0@ is Newline);
                }
            }
            assert forall|p: int, q: int| link_run(toks, lo, p, q) implies self.cursor() == lo by {
                assert(toks[lo].0@ is LeftSquareBracket);
                assert(self.cursor() > lo ==> trivial_token(toks[lo].0@));
            }
            assert forall|e: int| strong_run(toks, lo, e) implies self.cursor() == lo by {
                assert(toks[lo].0@ is Star);
                assert(self.cursor() > lo ==> trivial_token(toks[lo].0@));
            }
            if lo < n && lit_token(toks[lo].0@) && self.cursor() > lo {
                assert(trivial_token(toks[lo].0@));
                assert(false);
            }
            assert forall|b: int| literal_until_blank(toks, lo, b) implies self.cursor()
                == lo by {
                assert(lit_token(toks[lo].0@) || toks[lo].0@ is LeftSquareBracket || toks[lo].0@
                    is Star);
                assert(self.cursor() > lo ==> trivial_token(toks[lo].0@));
            }
        }
        let ghost mid = self.cursor();
        let inline_elements = self.paragraph_items();
        if inline_elements.len() == 0 {
            return None;
        }
        Some(Node::Paragraph(Paragraph { children: inline_elements }))
    }

    /// Accumulates inline nodes until the run ends: at the end of the
    /// tokens, at the end marker, or at a blank line.
    #[verifier::loop_isolation(false)]
    #[verifier::rlimit(100)]
    #[verifier::spinoff_prover]
    fn paragraph_items(&mut self) -> (items: Vec<Node<'s>>)
        requires
            old(self).wf(),
            eof_at_end_only(old(self).toks()),
        ensures
            steps_ok(*old(self), *final(self)),
            inlines_wf(items@),
            no_adjacent_linebreaks(items@),
            items@.len() > 0 ==> final(self).cursor() > old(self).cursor(),
            items@.len() == 0 ==> all_trivial(
                old(self).toks(),
                old(self).cursor(),
                final(self).cursor(),
            ),
            items@.len() == 0 ==> ((final(self).cursor() == old(self).cursor() && (old(
                self,
            ).cursor() == old(self).toks().len() || (old(self).tok_at(old(self).cursor())
                is Newline && old(self).cursor() + 1 < old(self).toks().len() && old(self).tok_at(
                old(self).cursor() + 1,
            ) is Newline))) || (final(self).cursor() == old(self).cursor() + 1 && old(
                self,
            ).tok_at(old(self).cursor()) is EndOfFile)),
            (all_trivial(old(self).toks(), old(self).cursor(), old(self).toks().len() as int)
                && (old(self).cursor() == old(self).toks().len() || !(old(self).tok_at(
                old(self).cursor(),
            ) is Newline))) ==> items@.len() == 0,
            (old(self).cursor() < old(self).toks().len() && lit_token(
                old(self).tok_at(old(self).cursor()),
            )) ==> items@.len() > 0,
            literal_run(old(self).toks(), old(self).cursor()) ==> (items@.len() == old(
                self,
            ).toks().len() - 1 - old(self).cursor() && (forall|k: int|
                0 <= k < items@.len() ==> literal_text_node(
                    #[trigger] items@[k],
                    old(self).toks()[old(self).cursor() + k].0@,
                )) && final(self).cursor() == old(self).toks().len()),
            forall|b: int|
                literal_until_blank(old(self).toks(), old(self).cursor(), b) ==> (items@.len()
                    == b - old(self).cursor() && (forall|k: int|
                    0 <= k < items@.len() ==> literal_text_node(
                        #[trigger] items@[k],
                        old(self).toks()[old(self).cursor() + k].0@,
                    )) && final(self).cursor() == b),
            forall|p: int, q: int|
                (link_run(old(self).toks(), old(self).cursor(), p, q) && q + 2 == old(
                    self,
                ).toks().len() && old(self).tok_at(old(self).toks().len() - 1) is EndOfFile) ==> (
                items@.len() == 1 && link_of_literals(
                    items@[0],
                    old(self).toks(),
                    old(self).cursor(),
                    p,
                    q,
                ) && final(self).cursor() == old(self).toks().len()),
            forall|e: int|
                (strong_run(old(self).toks(), old(self).cursor(), e) && e + 3 == old(
                    self,
                ).toks().len() && old(self).tok_at(old(self).toks().len() - 1) is EndOfFile) ==> (
                items@.len() == 1 && strong_of_literals(
                    items@[0],
                    old(self).toks(),
                    old(self).cursor(),
                    e,
                ) && final(self).cursor() == old(self).toks().len()),
        decreases old(self).toks().len(), 5int,
    {
        let ghost toks = self.toks();
        let ghost n = self.toks().len() as int;
        let ghost mid = self.cursor();
        let mut inline_elements: Vec<Node<'s>> = Vec::new();
        let mut halted = false;
        while !halted
            invariant
                self.wf(),
                self.tokens == old(self).tokens,
                mid <= self.cursor(),
                inlines_wf(inline_elements@),
                no_adjacent_linebreaks(inline_elements@),
                (inline_elements@.len() > 0 && inline_elements@.last() is LineBreak) ==> (
                self.cursor() == n || !(self.tok_at(self.cursor()) is Newline)),
                inline_elements@.len() == 0 ==> (self.cursor() == mid || (self.cursor() == mid + 1
                    && self.tok_at(mid) is EndOfFile)),
                inline_elements@.len() > 0 ==> self.cursor() > mid,
                (all_trivial(toks, mid, n) && (mid == n || !(toks[mid].0@ is Newline)))
                    ==> inline_elements@.len() == 0,
                halted ==> (self.cursor() == n || (self.tok_at(self.cursor()) is Newline
                    && self.cursor() + 1 < n && self.tok_at(self.cursor() + 1) is Newline) || (
                self.cursor() >= mid + 1 && self.tok_at(self.cursor() - 1) is EndOfFile)),
                forall|p: int, q: int|
                    (link_run(toks, mid, p, q) && q + 2 == n && toks[n - 1].0@ is EndOfFile) ==> ((
                    self.cursor() == mid && inline_elements@.len() == 0) || ((self.cursor() == q
                        + 1 || self.cursor() == n) && inline_elements@.len() == 1
                        && link_of_literals(inline_elements@[0], toks, mid, p, q))),
                forall|e: int|
                    (strong_run(toks, mid, e) && e + 3 == n && toks[n - 1].0@ is EndOfFile) ==> ((
                    self.cursor() == mid && inline_elements@.len() == 0) || ((self.cursor() == e
                        + 2 || self.cursor() == n) && inline_elements@.len() == 1
                        && strong_of_literals(inline_elements@[0], toks, mid, e))),
                literal_run(toks, mid) ==> (self.cursor() <= n && inline_elements@.len() == (
                if self.cursor() <= n - 1 {
                    self.cursor() - mid
                } else {
                    n - 1 - mid
                }) && (forall|k: int|
                    0 <= k < inline_elements@.len() ==> literal_text_node(
                        #[trigger] inline_elements@[k],
                        toks[mid + k].0@,
                    ))),
                forall|b: int|
                    literal_until_blank(toks, mid, b) ==> (self.cursor() <= b
                        && inline_elements@.len() == self.cursor() - mid && (forall|k: int|
                        0 <= k < inline_elements@.len() ==> literal_text_node(
                            #[trigger] inline_elements@[k],
                            toks[mid + k].0@,
                        ))),
            decreases n - self.cursor(), (if halted {
                0int
            } else {
                1int
            }),
        {
            match self.inline() {
                Some(node) => {
                    proof {
                        lemma_inline_push(inline_elements@, node);
                        if literal_run(toks, mid) {
                            let idx = mid + inline_elements@.len() as int;
                            assert(literal_token_at(toks, idx));
                            if !lit_token(toks[idx].0@) {
                                if toks[idx].0@ is LeftSquareBracket {
                                    assert(no_close_after(toks, idx));
                                } else {
                                    assert(toks[idx].0@ is Star);
                                    lemma_no_double_star_sub(toks, mid, idx);
                                }
                            }
                            lemma_literal_run_push(inline_elements@, node, toks, mid);
                        }
                        assert forall|b: int| literal_until_blank(toks, mid, b) implies (
                        self.cursor() <= b && inline_elements@.push(node).len() == self.cursor()
                            - mid && (forall|k: int|
                            0 <= k < inline_elements@.push(node).len() ==> literal_text_node(
                                #[trigger] inline_elements@.push(node)[k],
                                toks[mid + k].0@,
                            ))) by {
                            let idx = mid + inline_elements@.len() as int;
                            if idx == b {
                                assert(false);
                            } else {
                                if !lit_token(toks[idx].0@) {
                                    if toks[idx].0@ is LeftSquareBracket {
                                        assert forall|j: int| idx <= j < b implies !((
                                        #[trigger] toks[j].0@) is RightSquareBracket) by {
                                            if j > idx {
                                                lemma_no_close_before_at(toks, idx, b, j);
                                            }
                                        }
                                        lemma_link_scan_aborts(
                                            toks,
                                            idx,
                                            b,
                                            LinkScanState::Empty,
                                        );
                                    } else {
                                        assert(toks[idx].0@ is Star);
                                        lemma_strong_scan_aborts(
                                            toks,
                                            idx,
                                            b,
                                            StrongScanState::Empty,
                                        );
                                    }
                                }
                                lemma_literal_run_push(inline_elements@, node, toks, mid);
                            }
                        }
                    }
                    inline_elements.push(node);
                },
                None => { halted = true; },
            }
        }
        proof {
            if literal_run(toks, mid) && self.cursor() < n {
                if self.cursor() < n - 1 {
                    assert(literal_token_at(toks, self.cursor()));
                }
                if mid <= self.cursor() - 1 && self.cursor() - 1 < n - 1 {
                    assert(literal_token_at(toks, self.cursor() - 1));
                }
                assert(false);
            }
        }
        inline_elements
    }

    /// Parses one inline element. Two consecutive newlines produce nothing,
    /// so the caller can start a fresh block; a single newline is a line
    /// break; `*` and `[` open speculative scans; every other token is
    /// literal text.
    fn inline(&mut self) -> (r: Option<Node<'s>>)
        requires
            old(self).wf(),
            eof_at_end_only(old(self).toks()),
        ensures
            steps_ok(*old(self), *final(self)),
            r matches Some(node) ==> inline_wf(node) && final(self).cursor() > old(self).cursor(),
            (r matches Some(node) && node is LineBreak) ==> (old(self).tok_at(
                old(self).cursor(),
            ) is Newline && final(self).cursor() == old(self).cursor() + 1 && (final(self).cursor()
                == old(self).toks().len() || !(old(self).tok_at(
                final(self).cursor(),
            ) is Newline))),
            r is None ==> ((final(self).cursor() == old(self).cursor() && (old(self).cursor()
                == old(self).toks().len() || (old(self).tok_at(old(self).cursor()) is Newline
                && old(self).cursor() + 1 < old(self).toks().len() && old(self).tok_at(
                old(self).cursor() + 1,
            ) is Newline))) || (final(self).cursor() == old(self).cursor() + 1 && old(self).tok_at(
                old(self).cursor(),
            ) is EndOfFile)),
            (old(self).cursor() < old(self).toks().len() && lit_token(
                old(self).tok_at(old(self).cursor()),
            )) ==> (r matches Some(node) && literal_text_node(
                node,
                old(self).tok_at(old(self).cursor()),
            ) && final(self).cursor() == old(self).cursor() + 1),
            old(self).cursor() == old(self).toks().len() ==> r is None,
            (old(self).cursor() < old(self).toks().len() && old(self).tok_at(
                old(self).cursor(),
            ) is EndOfFile) ==> r is None,
            (old(self).cursor() + 1 < old(self).toks().len() && old(self).tok_at(
                old(self).cursor(),
            ) is Newline && old(self).tok_at(old(self).cursor() + 1) is Newline) ==> (r is None
                && final(self).cursor() == old(self).cursor()),
            forall|p: int, q: int|
                link_run(old(self).toks(), old(self).cursor(), p, q) ==> (r matches Some(node)
                    && link_of_literals(node, old(self).toks(), old(self).cursor(), p, q)
                    && final(self).cursor() == q + 1),
            forall|e: int|
                strong_run(old(self).toks(), old(self).cursor(), e) ==> (r matches Some(node)
                    && strong_of_literals(node, old(self).toks(), old(self).cursor(), e)
                    && final(self).cursor() == e + 2),
            (old(self).cursor() < old(self).toks().len() && old(self).tok_at(
                old(self).cursor(),
            ) is Newline && !(old(self).cursor() + 1 < old(self).toks().len() && old(self).tok_at(
                old(self).cursor() + 1,
            ) is Newline)) ==> (r matches Some(node) && node is LineBreak && final(self).cursor()
                == old(self).cursor() + 1),
            (old(self).cursor() < old(self).toks().len() && old(self).tok_at(
                old(self).cursor(),
            ) is LeftSquareBracket && no_close_after(old(self).toks(), old(self).cursor())) ==> (
            r matches Some(node) && literal_text_node(node, TokenView::LeftSquareBracket)
                && final(self).cursor() == old(self).cursor() + 1),
            (old(self).cursor() < old(self).toks().len() && old(self).tok_at(
                old(self).cursor(),
            ) is Star && no_double_star(old(self).toks(), old(self).cursor())) ==> (r matches Some(
                node,
            ) && literal_text_node(node, TokenView::Star) && final(self).cursor() == old(
                self,
            ).cursor() + 1),
            (r matches Some(node) && (node is Link || node is Strong)) ==> no_blank_between(
                old(self).toks(),
                old(self).cursor(),
                final(self).cursor() - 1,
            ),
            (old(self).cursor() < old(self).toks().len() && old(self).tok_at(
                old(self).cursor(),
            ) is LeftSquareBracket) ==> ({
                let outcome = link_scan(old(self).toks(), old(self).cursor());
                &&& (outcome matches LinkOutcome::Complete { start_text, end_text, end_url }
                    ==> (r matches Some(node) && node is Link && final(self).cursor() == end_url
                    + 1))
                &&& (outcome is Degrade ==> (r matches Some(node) && literal_text_node(
                    node,
                    TokenView::LeftSquareBracket,
                ) && final(self).cursor() == old(self).cursor() + 1))
            }),
            (old(self).cursor() < old(self).toks().len() && old(self).tok_at(
                old(self).cursor(),
            ) is Star) ==> ({
                let outcome = strong_scan(old(self).toks(), old(self).cursor());
                &&& (outcome matches StrongOutcome::Complete { start, end } ==> ((start < end
                    ==> (r matches Some(node) && node is Strong && final(self).cursor() == end
                    + 2)) && (start >= end ==> (r matches Some(node) && literal_text_node(
                    node,
                    TokenView::Star,
                ) && final(self).cursor() == old(self).cursor() + 1))))
                &&& (outcome is Degrade ==> (r matches Some(node) && literal_text_node(
                    node,
                    TokenView::Star,
                ) && final(self).cursor() == old(self).cursor() + 1))
            }),
        decreases old(self).toks().len(), 4int,
    {
        if self.is_at_end() {
            return None;
        }
        let pair = match self.peek() {
            Some(p) => p,
            // unreachable: the cursor is not at the end
            None => { return None },
        };
        match &pair.0 {
            Token::EndOfFile => {
                self.advance();
                None
            },
            Token::Newline => {
                // two consecutive newlines break off from any inline
                // element, so a new block can be constructed
                if self.check_next(Token::Newline) {
                    return None;
                }
                self.advance();
                Some(Node::LineBreak)
            },
            Token::Star => self.maybe_bold(),
            Token::LeftSquareBracket => self.maybe_link(),
            _ => {
                let node = Node::Text(pair.0.literal());
                self.advance();
                Some(node)
            },
        }
    }

    /// The speculative forward scan for a link: walks ahead from the `[`
    /// filling a marker, then rewinds the cursor to where it started. The
    /// marker is complete exactly on a well-formed `[text](url)` shape.
    #[verifier::loop_isolation(false)]
    #[verifier::rlimit(100)]
    #[verifier::spinoff_prover]
    fn scan_link_marker(&mut self) -> (marker: LinkMarker)
        requires
            old(self).wf(),
            old(self).cursor() < old(self).toks().len(),
            old(self).tok_at(old(self).cursor()) is LeftSquareBracket,
        ensures
            final(self).tokens == old(self).tokens,
            final(self).wf(),
            final(self).cursor() == old(self).cursor(),
            marker.is_link_spec() ==> {
                &&& old(self).cursor() + 1 <= marker.start_text->0
                &&& marker.start_text->0 <= marker.end_text->0
                &&& marker.start_url->0 == marker.end_text->0 + 2
                &&& marker.start_url->0 <= marker.end_url->0
                &&& marker.end_url->0 + 1 <= old(self).toks().len()
            },
            forall|p: int, q: int|
                link_run(old(self).toks(), old(self).cursor(), p, q) ==> (marker.is_link_spec()
                    && marker.start_text->0 == old(self).cursor() + 1 && marker.end_text->0 == p
                    && marker.start_url->0 == p + 2 && marker.end_url->0 == q),
            no_close_after(old(self).toks(), old(self).cursor()) ==> !marker.is_link_spec(),
            marker.is_link_spec() ==> no_blank_between(
                old(self).toks(),
                old(self).cursor(),
                marker.end_url->0 as int,
            ),
            ({
                let outcome = link_scan(old(self).toks(), old(self).cursor());
                &&& (outcome matches LinkOutcome::Complete { start_text, end_text, end_url }
                    ==> (marker.is_link_spec() && marker.start_text->0 == start_text
                    && marker.end_text->0 == end_text && marker.start_url->0 == end_text + 2
                    && marker.end_url->0 == end_url))
                &&& (outcome is Degrade ==> !marker.is_link_spec())
            }),
    {
        let ghost toks = self.toks();
        let ghost n = self.toks().len() as int;
        let mut marker = LinkMarker::new();
        let rewind_position = self.current;
        let ghost rp = rewind_position as int;
        let mut aborted = false;
        proof {
            lemma_no_blank_trivial(toks, rp, rp - 1);
        }
        while !aborted && !marker.is_link() && !self.is_at_end()
            invariant
                self.wf(),
                self.tokens == old(self).tokens,
                rewind_position == old(self).current,
                rewind_position <= self.cursor(),
                marker.is_empty_spec() || marker.has_open_text_spec()
                    || marker.has_open_url_spec() || marker.is_link_spec(),
                marker.has_open_text_spec() ==> {
                    &&& rewind_position + 1 <= marker.start_text->0
                    &&& marker.start_text->0 <= self.cursor()
                },
                marker.has_open_url_spec() ==> {
                    &&& rewind_position + 1 <= marker.start_text->0
                    &&& marker.start_text->0 <= marker.end_text->0
                    &&& marker.start_url->0 == marker.end_text->0 + 2
                    &&& marker.end_text->0 + 1 < n
                    &&& self.tok_at(marker.end_text->0 + 1) is LeftParen
                    &&& marker.end_text->0 + 1 <= self.cursor()
                },
                marker.is_link_spec() ==> {
                    &&& rewind_position + 1 <= marker.start_text->0
                    &&& marker.start_text->0 <= marker.end_text->0
                    &&& marker.start_url->0 == marker.end_text->0 + 2
                    &&& marker.start_url->0 <= marker.end_url->0
                    &&& marker.end_url->0 + 1 <= n
                    &&& marker.end_url->0 + 1 == self.cursor()
                },
                forall|p: int, q: int|
                    link_run(toks, rp, p, q) ==> {
                        let c = self.cursor();
                        &&& !aborted
                        &&& c <= q + 1
                        &&& (c == rp ==> marker.is_empty_spec())
                        &&& (rp < c <= p ==> (marker.has_open_text_spec()
                            && marker.start_text->0 == rp + 1))
                        &&& (p < c <= q ==> (marker.has_open_url_spec() && marker.start_text->0
                            == rp + 1 && marker.end_text->0 == p && marker.start_url->0 == p + 2))
                        &&& (c == q + 1 ==> (marker.is_link_spec() && marker.start_text->0
                            == rp + 1 && marker.end_text->0 == p && marker.end_url->0 == q))
                    },
                no_close_after(toks, rp) ==> (marker.is_empty_spec()
                    || marker.has_open_text_spec()),
                aborted ==> !marker.is_link_spec(),
                (!aborted && rp < self.cursor() && self.tok_at(self.cursor() - 1) is Newline)
                    ==> (self.cursor() >= n || !(self.tok_at(self.cursor()) is Newline)),
                no_blank_between(toks, rp, self.cursor() - 1),
                if marker.is_link_spec() {
                    link_scan(toks, rp) == (LinkOutcome::Complete {
                        start_text: marker.start_text->0 as int,
                        end_text: marker.end_text->0 as int,
                        end_url: marker.end_url->0 as int,
                    })
                } else if aborted {
                    link_scan(toks, rp) is Degrade
                } else {
                    link_scan(toks, rp) == link_scan_from(
                        toks,
                        self.cursor(),
                        link_marker_state(marker),
                    )
                },
            decreases n - self.cursor(),
        {
            match self.advance() {
                Some(pair) => {
                    match &pair.0 {
                        Token::LeftSquareBracket => {
                            if marker.is_empty() {
                                marker.set_start_text(self.current);
                            }
                        },
                        // the closing text of a link must be followed by "("
                        Token::RightSquareBracket => {
                            if marker.has_open_text() {
                                let next_is_paren = match self.peek_token() {
                                    Some(t) => matches!(t, Token::LeftParen),
                                    None => false,
                                };
                                if next_is_paren {
                                    proof {
                                        if no_close_after(toks, rp) && rp < self.cursor() - 1 {
                                            lemma_no_close_after_at(toks, rp, self.cursor() - 1);
                                        }
                                    }
                                    marker.set_end_text(self.current - 1);
                                    marker.set_start_url(self.current + 1);
                                }
                            }
                        },
                        Token::RightParen => {
                            if marker.has_open_url() {
                                marker.set_end_url(self.current - 1);
                            }
                        },
                        // a blank line terminates the speculative scan
                        Token::Newline => {
                            if self.check(&Token::Newline) {
                                aborted = true;
                            }
                        },
                        _ => {},
                    }
                },
                None => {},
            }
            proof {
                lemma_no_blank_extend(toks, rp, self.cursor() - 1);
            }
        }
        self.rewind(rewind_position);
        marker
    }

    /// Scans forward for a complete `[text](url)` shape. On success the two
    /// inner ranges are re-parsed by fresh sub-parsers and the whole span is
    /// consumed; otherwise only the `[` is consumed, as literal text.
    #[verifier::rlimit(100)]
    #[verifier::spinoff_prover]
    fn maybe_link(&mut self) -> (r: Option<Node<'s>>)
        requires
            old(self).wf(),
            eof_at_end_only(old(self).toks()),
            old(self).cursor() < old(self).toks().len(),
            old(self).tok_at(old(self).cursor()) is LeftSquareBracket,
        ensures
            steps_ok(*old(self), *final(self)),
            final(self).cursor() > old(self).cursor(),
            r is Some,
            r matches Some(node) ==> inline_wf(node) && !(node is LineBreak),
            forall|p: int, q: int|
                link_run(old(self).toks(), old(self).cursor(), p, q) ==> (r matches Some(node)
                    && link_of_literals(node, old(self).toks(), old(self).cursor(), p, q)
                    && final(self).cursor() == q + 1),
            no_close_after(old(self).toks(), old(self).cursor()) ==> (r matches Some(node)
                && literal_text_node(node, TokenView::LeftSquareBracket) && final(self).cursor()
                == old(self).cursor() + 1),
            r matches Some(node) ==> (node is Link || node is Text),
            (r matches Some(node) && node is Link) ==> no_blank_between(
                old(self).toks(),
                old(self).cursor(),
                final(self).cursor() - 1,
            ),
            ({
                let outcome = link_scan(old(self).toks(), old(self).cursor());
                &&& (outcome matches LinkOutcome::Complete { start_text, end_text, end_url }
                    ==> (r matches Some(node) && node is Link && final(self).cursor() == end_url
                    + 1))
                &&& (outcome is Degrade ==> (r matches Some(node) && literal_text_node(
                    node,
                    TokenView::LeftSquareBracket,
                ) && final(self).cursor() == old(self).cursor() + 1))
            }),
            ({
                let outcome = link_scan(old(self).toks(), old(self).cursor());
                outcome matches LinkOutcome::Complete { start_text, end_text, end_url } ==> (((
                forall|i: int|
                    start_text <= i < end_text ==> lit_token(#[trigger] old(self).toks()[i].0@))
                    ==> (r matches Some(node) && node matches Node::Link(l)
                    && l.children@.len() == end_text - start_text && (forall|j: int|
                    0 <= j < l.children@.len() ==> literal_text_node(
                        #[trigger] l.children@[j],
                        old(self).toks()[start_text + j].0@,
                    )))) && ((forall|i: int|
                    end_text + 2 <= i < end_url ==> lit_token(#[trigger] old(self).toks()[i].0@))
                    ==> (r matches Some(node) && node matches Node::Link(l2) && l2.url@.len()
                    == end_url - (end_text + 2) && (forall|j: int|
                    0 <= j < l2.url@.len() ==> literal_text_node(
                        #[trigger] l2.url@[j],
                        old(self).toks()[end_text + 2 + j].0@,
                    )))))
            }),
        decreases old(self).toks().len(), 3int,
    {
        let total = self.tokens.len();
        let ghost toks = self.toks();
        let ghost n = self.toks().len() as int;
        let toks_slice: &'s [(Token<'s>, Span)] = self.tokens;
        let ghost rp = self.cursor();
        let marker = self.scan_link_marker();
        proof {
            assert(n == total as int);
        }
        match marker.ranges() {
            Some((text_range, url_range)) => {
                let text_slice = &toks_slice[text_range.start..text_range.end];
                proof {
                    assert forall|i: int| 0 <= i < text_slice@.len() implies !(
                    #[trigger] text_slice@[i].0@ is EndOfFile) by {
                        assert(text_slice@[i] == toks[text_range.start + i]);
                    }
                }
                let mut text_parser = Parser::new(text_slice);
                let text_nodes = text_parser.parse_inline();
                let url_slice = &toks_slice[url_range.start..url_range.end];
                proof {
                    assert forall|i: int| 0 <= i < url_slice@.len() implies !(
                    #[trigger] url_slice@[i].0@ is EndOfFile) by {
                        assert(url_slice@[i] == toks[url_range.start + i]);
                    }
                }
                let mut url_parser = Parser::new(url_slice);
                let url_nodes = url_parser.parse_inline();
                self.current = url_range.end + 1;
                proof {
                    if forall|i: int|
                        text_range.start <= i < text_range.end ==> lit_token(
                            #[trigger] toks[i].0@,
                        ) {
                        assert forall|i: int| 0 <= i < text_slice@.len() implies lit_token(
                            #[trigger] text_slice@[i].0@,
                        ) by {
                            assert(text_slice@[i] == toks[text_range.start + i]);
                        }
                        assert forall|j: int| 0 <= j < text_nodes@.len() implies literal_text_node(
                            #[trigger] text_nodes@[j],
                            toks[text_range.start + j].0@,
                        ) by {
                            assert(literal_text_node(text_nodes@[j], text_slice@[j].0@));
                            assert(text_slice@[j] == toks[text_range.start + j]);
                        }
                    }
                    if forall|i: int|
                        url_range.start <= i < url_range.end ==> lit_token(
                            #[trigger] toks[i].0@,
                        ) {
                        assert forall|i: int| 0 <= i < url_slice@.len() implies lit_token(
                            #[trigger] url_slice@[i].0@,
                        ) by {
                            assert(url_slice@[i] == toks[url_range.start + i]);
                        }
                        assert forall|j: int| 0 <= j < url_nodes@.len() implies literal_text_node(
                            #[trigger] url_nodes@[j],
                            toks[url_range.start + j].0@,
                        ) by {
                            assert(literal_text_node(url_nodes@[j], url_slice@[j].0@));
                            assert(url_slice@[j] == toks[url_range.start + j]);
                        }
                    }
                    assert forall|p: int, q: int| link_run(toks, rp, p, q) implies (text_range.end
                        == p && text_range.start == rp + 1 && url_range.start == p + 2
                        && url_range.end == q && text_nodes@.len() == p - (rp + 1) && (forall|
                        j: int,
                    |
                        0 <= j < text_nodes@.len() ==> literal_text_node(
                            #[trigger] text_nodes@[j],
                            toks[rp + 1 + j].0@,
                        )) && url_nodes@.len() == q - (p + 2) && (forall|j: int|
                        0 <= j < url_nodes@.len() ==> literal_text_node(
                            #[trigger] url_nodes@[j],
                            toks[p + 2 + j].0@,
                        ))) by {
                        assert forall|i: int| 0 <= i < text_slice@.len() implies lit_token(
                            #[trigger] text_slice@[i].0@,
                        ) by {
                            assert(text_slice@[i] == toks[text_range.start + i]);
                        }
                        assert forall|i: int| 0 <= i < url_slice@.len() implies lit_token(
                            #[trigger] url_slice@[i].0@,
                        ) by {
                            assert(url_slice@[i] == toks[url_range.start + i]);
                        }
                        assert forall|j: int| 0 <= j < text_nodes@.len() implies literal_text_node(
                            #[trigger] text_nodes@[j],
                            toks[rp + 1 + j].0@,
                        ) by {
                            assert(literal_text_node(text_nodes@[j], text_slice@[j].0@));
                            assert(text_slice@[j] == toks[text_range.start + j]);
                        }
                        assert forall|j: int| 0 <= j < url_nodes@.len() implies literal_text_node(
                            #[trigger] url_nodes@[j],
                            toks[p + 2 + j].0@,
                        ) by {
                            assert(literal_text_node(url_nodes@[j], url_slice@[j].0@));
                            assert(url_slice@[j] == toks[url_range.start + j]);
                        }
                    }
                }
                Some(Node::Link(Link { children: text_nodes, url: url_nodes }))
            },
            None => {
                // bail: the `[` degrades to literal text and the rest is
                // handled as ordinary inline content
                self.consume(&Token::LeftSquareBracket);
                Some(Node::Text(Token::LeftSquareBracket.literal()))
            },
        }
    }

    /// The speculative forward scan for strong emphasis: walks ahead from
    /// the `*` filling a marker, then rewinds the cursor to where it
    /// started. The marker is closed exactly when a doubled `*` opening
    /// (not followed by a space, newline or the end) meets a later doubled
    /// `*` closing (not preceded by one).
    #[verifier::loop_isolation(false)]
    #[verifier::rlimit(100)]
    #[verifier::spinoff_prover]
    fn scan_strong_marker(&mut self) -> (marker: InlineMarker)
        requires
            old(self).wf(),
            old(self).cursor() < old(self).toks().len(),
            old(self).tok_at(old(self).cursor()) is Star,
        ensures
            final(self).tokens == old(self).tokens,
            final(self).wf(),
            final(self).cursor() == old(self).cursor(),
            marker.is_closed_spec() ==> {
                &&& old(self).cursor() + 2 <= marker.start->0
                &&& marker.end->0 + 2 <= old(self).toks().len()
                &&& old(self).tok_at(marker.end->0 as int) is Star
                &&& old(self).tok_at(marker.end->0 + 1) is Star
            },
            forall|e: int|
                strong_run(old(self).toks(), old(self).cursor(), e) ==> (marker.is_closed_spec()
                    && marker.start->0 == old(self).cursor() + 2 && marker.end->0 == e),
            no_double_star(old(self).toks(), old(self).cursor()) ==> !marker.is_closed_spec(),
            marker.is_closed_spec() ==> no_blank_between(
                old(self).toks(),
                old(self).cursor(),
                marker.end->0 + 1,
            ),
            ({
                let outcome = strong_scan(old(self).toks(), old(self).cursor());
                &&& (outcome matches StrongOutcome::Complete { start, end } ==> (
                marker.is_closed_spec() && marker.start->0 == start && marker.end->0 == end))
                &&& (outcome is Degrade ==> !marker.is_closed_spec())
            }),
    {
        let ghost toks = self.toks();
        let ghost n = self.toks().len() as int;
        let toks_slice: &'s [(Token<'s>, Span)] = self.tokens;
        let rewind_position = self.current;
        let ghost rp = rewind_position as int;
        let mut marker = InlineMarker::new();
        let mut aborted = false;
        proof {
            lemma_no_blank_trivial(toks, rp, rp - 1);
        }
        while !aborted && !marker.is_closed() && !self.is_at_end()
            invariant
                self.wf(),
                self.tokens == old(self).tokens,
                rewind_position == old(self).current,
                rewind_position <= self.cursor(),
                marker.end is Some ==> marker.start is Some,
                marker.is_open_spec() ==> {
                    &&& rewind_position + 2 <= marker.start->0
                    &&& marker.start->0 <= self.cursor() + 1
                },
                marker.is_closed_spec() ==> {
                    &&& rewind_position + 2 <= marker.start->0
                    &&& marker.end->0 + 2 <= n
                    &&& self.tok_at(marker.end->0 as int) is Star
                    &&& self.tok_at(marker.end->0 + 1) is Star
                    &&& marker.end->0 + 1 == self.cursor()
                },
                forall|e: int|
                    strong_run(toks, rp, e) ==> {
                        let c = self.cursor();
                        &&& !aborted
                        &&& c <= e + 1
                        &&& (c == rp ==> marker.is_empty_spec())
                        &&& (rp < c <= e ==> (marker.is_open_spec() && marker.start->0 == rp
                            + 2))
                        &&& (c == e + 1 ==> (marker.is_closed_spec() && marker.start->0 == rp + 2
                            && marker.end->0 == e))
                    },
                no_double_star(toks, rp) ==> marker.is_empty_spec(),
                aborted ==> !marker.is_closed_spec(),
                (!aborted && rp < self.cursor() && self.tok_at(self.cursor() - 1) is Newline)
                    ==> (self.cursor() >= n || !(self.tok_at(self.cursor()) is Newline)),
                no_blank_between(toks, rp, self.cursor() - 1),
                if marker.is_closed_spec() {
                    strong_scan(toks, rp) == (StrongOutcome::Complete {
                        start: marker.start->0 as int,
                        end: marker.end->0 as int,
                    })
                } else if aborted {
                    strong_scan(toks, rp) is Degrade
                } else {
                    strong_scan(toks, rp) == strong_scan_from(
                        toks,
                        self.cursor(),
                        strong_marker_state(marker),
                    )
                },
            decreases n - self.cursor(),
        {
            match self.advance() {
                Some(pair) => {
                    match &pair.0 {
                        Token::Star => {
                            if self.check(&Token::Star) {
                                let next_is_break = match self.peek_next_token() {
                                    Some(t) => matches!(
                                        t,
                                        Token::Space | Token::Newline | Token::EndOfFile
                                    ),
                                    None => false,
                                };
                                if marker.is_empty() && !next_is_break {
                                    proof {
                                        if no_double_star(toks, rp) {
                                            lemma_no_double_star_at(toks, rp, self.cursor() - 1);
                                        }
                                    }
                                    // no empty or leading-space emphasis
                                    marker.open(self.current + 1);
                                } else {
                                    let mut can_close = false;
                                    if marker.is_open() {
                                        proof {
                                            assert(self.cursor() >= marker.start->0);
                                        }
                                        let two_back = &toks_slice[self.current - 2];
                                        can_close = !matches!(
                                            two_back.0,
                                            Token::Space | Token::Newline | Token::EndOfFile
                                        );
                                    }
                                    if can_close {
                                        proof {
                                            lemma_no_blank_extend(toks, rp, self.cursor() - 1);
                                        }
                                        marker.close(self.current - 1);
                                        break;
                                    } else {
                                        aborted = true;
                                    }
                                }
                            }
                        },
                        // a blank line terminates the speculative scan
                        Token::Newline => {
                            if self.check(&Token::Newline) {
                                aborted = true;
                            }
                        },
                        _ => {
                            // tokens before a `**` opening cannot begin a
                            // strong element
                            if marker.is_empty() {
                                aborted = true;
                            }
                        },
                    }
                },
                None => {},
            }
            proof {
                lemma_no_blank_extend(toks, rp, self.cursor() - 1);
            }
        }
        proof {
            if marker.start.is_some() && marker.end.is_some() {
                lemma_no_blank_extend(toks, rp, marker.end->0 + 1);
            }
        }
        self.rewind(rewind_position);
        marker
    }

    /// Scans forward for a doubled `**` opening and a matching doubled `**`
    /// closing. On success the body range is re-parsed by a fresh
    /// sub-parser and the whole span is consumed; otherwise only the `*` is
    /// consumed, as literal text.
    #[verifier::rlimit(100)]
    #[verifier::spinoff_prover]
    fn maybe_bold(&mut self) -> (r: Option<Node<'s>>)
        requires
            old(self).wf(),
            eof_at_end_only(old(self).toks()),
            old(self).cursor() < old(self).toks().len(),
            old(self).tok_at(old(self).cursor()) is Star,
        ensures
            steps_ok(*old(self), *final(self)),
            final(self).cursor() > old(self).cursor(),
            r is Some,
            r matches Some(node) ==> inline_wf(node) && !(node is LineBreak),
            forall|e: int|
                strong_run(old(self).toks(), old(self).cursor(), e) ==> (r matches Some(node)
                    && strong_of_literals(node, old(self).toks(), old(self).cursor(), e)
                    && final(self).cursor() == e + 2),
            no_double_star(old(self).toks(), old(self).cursor()) ==> (r matches Some(node)
                && literal_text_node(node, TokenView::Star) && final(self).cursor() == old(
                self,
            ).cursor() + 1),
            r matches Some(node) ==> (node is Strong || node is Text),
            (r matches Some(node) && node is Strong) ==> no_blank_between(
                old(self).toks(),
                old(self).cursor(),
                final(self).cursor() - 1,
            ),
            ({
                let outcome = strong_scan(old(self).toks(), old(self).cursor());
                &&& (outcome matches StrongOutcome::Complete { start, end } ==> ((start < end
                    ==> (r matches Some(node) && node is Strong && final(self).cursor() == end
                    + 2)) && (start >= end ==> (r matches Some(node) && literal_text_node(
                    node,
                    TokenView::Star,
                ) && final(self).cursor() == old(self).cursor() + 1))))
                &&& (outcome is Degrade ==> (r matches Some(node) && literal_text_node(
                    node,
                    TokenView::Star,
                ) && final(self).cursor() == old(self).cursor() + 1))
            }),
            ({
                let outcome = strong_scan(old(self).toks(), old(self).cursor());
                outcome matches StrongOutcome::Complete { start, end } ==> ((start < end && (
                forall|i: int|
                    start <= i < end ==> lit_token(#[trigger] old(self).toks()[i].0@))) ==> (
                r matches Some(node) && node matches Node::Strong(st) && st.children@.len()
                    == end - start && (forall|j: int|
                    0 <= j < st.children@.len() ==> literal_text_node(
                        #[trigger] st.children@[j],
                        old(self).toks()[start + j].0@,
                    ))))
            }),
        decreases old(self).toks().len(), 3int,
    {
        let total = self.tokens.len();
        let ghost toks = self.toks();
        let ghost n = self.toks().len() as int;
        let toks_slice: &'s [(Token<'s>, Span)] = self.tokens;
        let ghost rp = self.cursor();
        let marker = self.scan_strong_marker();
        proof {
            assert(n == total as int);
        }
        match marker.range() {
            Some(bold_text_range) => {
                let text_slice = &toks_slice[bold_text_range.start..bold_text_range.end];
                proof {
                    assert forall|i: int| 0 <= i < text_slice@.len() implies !(
                    #[trigger] text_slice@[i].0@ is EndOfFile) by {
                        assert(text_slice@[i] == toks[bold_text_range.start + i]);
                    }
                }
                let mut text_parser = Parser::new(text_slice);
                let text_nodes = text_parser.parse_inline();
                self.current = bold_text_range.end + 2;
                proof {
                    if forall|i: int|
                        bold_text_range.start <= i < bold_text_range.end ==> lit_token(
                            #[trigger] toks[i].0@,
                        ) {
                        assert forall|i: int| 0 <= i < text_slice@.len() implies lit_token(
                            #[trigger] text_slice@[i].0@,
                        ) by {
                            assert(text_slice@[i] == toks[bold_text_range.start + i]);
                        }
                        assert forall|j: int| 0 <= j < text_nodes@.len() implies literal_text_node(
                            #[trigger] text_nodes@[j],
                            toks[bold_text_range.start + j].0@,
                        ) by {
                            assert(literal_text_node(text_nodes@[j], text_slice@[j].0@));
                            assert(text_slice@[j] == toks[bold_text_range.start + j]);
                        }
                    }
                    assert forall|e: int| strong_run(toks, rp, e) implies (bold_text_range.start
                        == rp + 2 && bold_text_range.end == e && text_nodes@.len() == e - (rp + 2)
                        && (forall|j: int|
                        0 <= j < text_nodes@.len() ==> literal_text_node(
                            #[trigger] text_nodes@[j],
                            toks[rp + 2 + j].0@,
                        ))) by {
                        assert forall|i: int| 0 <= i < text_slice@.len() implies lit_token(
                            #[trigger] text_slice@[i].0@,
                        ) by {
                            assert(text_slice@[i] == toks[bold_text_range.start + i]);
                        }
                        assert forall|j: int| 0 <= j < text_nodes@.len() implies literal_text_node(
                            #[trigger] text_nodes@[j],
                            toks[rp + 2 + j].0@,
                        ) by {
                            assert(literal_text_node(text_nodes@[j], text_slice@[j].0@));
                            assert(text_slice@[j] == toks[bold_text_range.start + j]);
                        }
                    }
                }
                Some(Node::Strong(Strong { children: text_nodes }))
            },
            None => {
                // bail: the `*` degrades to literal text and the rest is
                // handled as ordinary inline content
                self.consume(&Token::Star);
                Some(Node::Text(Token::Star.literal()))
            },
        }
    }
}

} // verus!
