//! The renderer: a pure fold over the document forest producing HTML text.
//! No escaping of HTML-significant characters is performed — the output is
//! the literal text of the tree; callers needing safe embedding must escape
//! upstream.
//!
//! The mathematical model is [`html_of_nodes`]; the executable renderer is
//! proved to produce exactly its value, and [`render_html`] composes the
//! three verified stages.

use vstd::prelude::*;
use vstd::string::StringExecFns;

use crate::ast::{block_wf, forest_wf, inline_wf, inlines_wf, Node};
use crate::lexer::{
    bump, bump_by, is_stop_char, lemma_run_end_bounds, lemma_scan_literal_concat,
    lemma_scan_single_eof, literals_concat, run_end, scan_from, scan_spec, toks_view, Lexer,
};
use crate::parser::{
    all_trivial, hash_count, heading_run, lemma_hash_count_hashes, link_run, lit_token,
    literal_block_run, literal_run, literal_token_at, literal_text_node, literal_until_blank,
    no_close_after, no_close_before, no_double_star, paragraph_of_literals, plain_token,
    split_literal_runs, starts_heading, strong_run, trivial_token, Parser,
};
use crate::token::{token_literal, Span, Token, TokenView};

verus! {

/// The digit character of a heading level in `1..=6`.
pub open spec fn level_char(level: u8) -> char {
    if level == 1 {
        '1'
    } else if level == 2 {
        '2'
    } else if level == 3 {
        '3'
    } else if level == 4 {
        '4'
    } else if level == 5 {
        '5'
    } else {
        '6'
    }
}

/// Paragraph children with a single trailing line break suppressed: the
/// paragraph element is itself a block, so the break is not rendered.
pub open spec fn trim_trailing_break(s: Seq<Node>) -> Seq<Node> {
    if s.len() > 0 && s.last() is LineBreak {
        s.drop_last()
    } else {
        s
    }
}

/// The HTML text of one document node.
pub open spec fn html_of_node(n: Node) -> Seq<char>
    decreases n,
{
    match n {
        Node::Header(h) => seq!['<', 'h', level_char(h.level), '>'] + html_of_nodes(h.children@)
            + seq!['<', '/', 'h', level_char(h.level), '>'],
        Node::Paragraph(p) => seq!['<', 'p', '>'] + html_of_nodes(
            trim_trailing_break(p.children@),
        ) + seq!['<', '/', 'p', '>'],
        Node::Link(l) => seq!['<', 'a', ' ', 'h', 'r', 'e', 'f', '=', '"'] + html_of_nodes(l.url@)
            + seq!['"', '>'] + html_of_nodes(l.children@) + seq!['<', '/', 'a', '>'],
        Node::Strong(st) => seq!['<', 's', 't', 'r', 'o', 'n', 'g', '>'] + html_of_nodes(
            st.children@,
        ) + seq!['<', '/', 's', 't', 'r', 'o', 'n', 'g', '>'],
        Node::Emphasis(e) => seq!['<', 'e', 'm', '>'] + html_of_nodes(e.children@) + seq![
            '<',
            '/',
            'e',
            'm',
            '>',
        ],
        Node::Digit(d) => d@,
        Node::Text(t) => t@,
        Node::LineBreak => seq!['<', 'b', 'r', '>'],
    }
}

/// The HTML text of a node sequence, in order.
pub open spec fn html_of_nodes(s: Seq<Node>) -> Seq<char>
    decreases s,
{
    if s.len() == 0 {
        Seq::<char>::empty()
    } else {
        html_of_node(s[0]) + html_of_nodes(s.drop_first())
    }
}

/// Rendering distributes over appending one node.
proof fn lemma_html_of_nodes_snoc(s: Seq<Node>, n: Node)
    ensures
        html_of_nodes(s.push(n)) == html_of_nodes(s) + html_of_node(n),
    decreases s.len(),
{
    if s.len() == 0 {
        assert(s.push(n)[0] == n);
        assert(s.push(n).drop_first() =~= Seq::<Node>::empty());
        assert(html_of_nodes(s.push(n).drop_first()) == Seq::<char>::empty());
        assert(html_of_nodes(s.push(n)) =~= html_of_nodes(s) + html_of_node(n));
    } else {
        assert(s.push(n)[0] == s[0]);
        assert(s.push(n).drop_first() =~= s.drop_first().push(n));
        lemma_html_of_nodes_snoc(s.drop_first(), n);
        assert(html_of_nodes(s.push(n)) =~= html_of_nodes(s) + html_of_node(n));
    }
}

/// Renders a whole forest into an owned HTML string.
#[verifier::loop_isolation(false)]
fn render(ast: Vec<Node>) -> (r: String)
    requires
        forest_wf(ast@),
    ensures
        r@ == html_of_nodes(ast@),
{
    let mut text = String::new();
    let total = ast.len();
    let mut idx: usize = 0;
    while idx < total
        invariant
            idx <= total,
            text@ == html_of_nodes(ast@.take(idx as int)),
        decreases total - idx,
    {
        proof {
            assert(ast@.take(idx + 1) =~= ast@.take(idx as int).push(ast@[idx as int]));
            lemma_html_of_nodes_snoc(ast@.take(idx as int), ast@[idx as int]);
        }
        visit(&mut text, &ast[idx]);
        idx = idx + 1;
    }
    proof {
        assert(ast@.take(total as int) =~= ast@);
    }
    text
}

/// Renders one top-level node.
fn visit(buffer: &mut String, node: &Node)
    requires
        block_wf(*node) || inline_wf(*node),
    ensures
        final(buffer)@ == old(buffer)@ + html_of_node(*node),
    decreases node, 1int,
{
    match node {
        Node::Header(_) | Node::Paragraph(_) => visit_block(buffer, node),
        other => visit_inline(buffer, other),
    }
}

/// Renders a block node: a header with its numbered tag, or a paragraph
/// with a single trailing line break suppressed.
#[verifier::loop_isolation(false)]
fn visit_block(buffer: &mut String, node: &Node)
    requires
        block_wf(*node),
    ensures
        final(buffer)@ == old(buffer)@ + html_of_node(*node),
    decreases node, 0int,
{
    proof {
        reveal_strlit("<h1>");
        reveal_strlit("</h1>");
        reveal_strlit("<h2>");
        reveal_strlit("</h2>");
        reveal_strlit("<h3>");
        reveal_strlit("</h3>");
        reveal_strlit("<h4>");
        reveal_strlit("</h4>");
        reveal_strlit("<h5>");
        reveal_strlit("</h5>");
        reveal_strlit("<h6>");
        reveal_strlit("</h6>");
        reveal_strlit("<p>");
        reveal_strlit("</p>");
    }
    match node {
        Node::Header(header) => {
            if header.level == 1 {
                buffer.append("<h1>");
            } else if header.level == 2 {
                buffer.append("<h2>");
            } else if header.level == 3 {
                buffer.append("<h3>");
            } else if header.level == 4 {
                buffer.append("<h4>");
            } else if header.level == 5 {
                buffer.append("<h5>");
            } else {
                buffer.append("<h6>");
            }
            visit_inline_nodes(buffer, &header.children);
            if header.level == 1 {
                buffer.append("</h1>");
            } else if header.level == 2 {
                buffer.append("</h2>");
            } else if header.level == 3 {
                buffer.append("</h3>");
            } else if header.level == 4 {
                buffer.append("</h4>");
            } else if header.level == 5 {
                buffer.append("</h5>");
            } else {
                buffer.append("</h6>");
            }
        },
        Node::Paragraph(paragraph) => {
            buffer.append("<p>");
            // a single line break just before the closing tag is not
            // rendered: the paragraph is itself a block
            let child_count = paragraph.children.len();
            let limit = if child_count > 0 && matches!(
                paragraph.children[child_count - 1],
                Node::LineBreak,
            ) {
                child_count - 1
            } else {
                child_count
            };
            proof {
                assert(paragraph.children@.take(limit as int) =~= trim_trailing_break(
                    paragraph.children@,
                ));
            }
            let ghost trimmed = trim_trailing_break(paragraph.children@);
            let mut idx: usize = 0;
            while idx < limit
                invariant
                    idx <= limit,
                    buffer@ == old(buffer)@ + seq!['<', 'p', '>'] + html_of_nodes(
                        trimmed.take(idx as int),
                    ),
                decreases limit - idx,
            {
                proof {
                    assert(trimmed.take(idx + 1) =~= trimmed.take(idx as int).push(
                        trimmed[idx as int],
                    ));
                    lemma_html_of_nodes_snoc(trimmed.take(idx as int), trimmed[idx as int]);
                    assert(trimmed[idx as int] == paragraph.children@[idx as int]);
                }
                visit_inline(buffer, &paragraph.children[idx]);
                idx = idx + 1;
            }
            proof {
                assert(trimmed.take(limit as int) =~= trimmed);
            }
            buffer.append("</p>");
        },
        _ => {},
    }
}

/// Renders an inline node.
fn visit_inline(buffer: &mut String, node: &Node)
    requires
        inline_wf(*node),
    ensures
        final(buffer)@ == old(buffer)@ + html_of_node(*node),
    decreases node, 0int,
{
    proof {
        reveal_strlit("<strong>");
        reveal_strlit("</strong>");
        reveal_strlit("<em>");
        reveal_strlit("</em>");
        reveal_strlit("<br>");
        reveal_strlit("<a href=\"");
        reveal_strlit("\">");
        reveal_strlit("</a>");
    }
    match node {
        Node::Text(txt) => {
            buffer.append(txt);
        },
        Node::Strong(strong) => {
            buffer.append("<strong>");
            visit_inline_nodes(buffer, &strong.children);
            buffer.append("</strong>");
        },
        Node::Digit(d) => {
            buffer.append(d);
        },
        Node::LineBreak => {
            buffer.append("<br>");
        },
        Node::Emphasis(italic) => {
            buffer.append("<em>");
            visit_inline_nodes(buffer, &italic.children);
            buffer.append("</em>");
        },
        Node::Link(link) => {
            buffer.append("<a href=\"");
            visit_inline_nodes(buffer, &link.url);
            buffer.append("\">");
            visit_inline_nodes(buffer, &link.children);
            buffer.append("</a>");
        },
        _ => {},
    }
}

/// Renders a sequence of inline nodes, in order.
#[verifier::loop_isolation(false)]
fn visit_inline_nodes(buffer: &mut String, nodes: &Vec<Node>)
    requires
        inlines_wf(nodes@),
    ensures
        final(buffer)@ == old(buffer)@ + html_of_nodes(nodes@),
    decreases nodes, 0int,
{
    let total = nodes.len();
    let mut idx: usize = 0;
    while idx < total
        invariant
            idx <= total,
            buffer@ == old(buffer)@ + html_of_nodes(nodes@.take(idx as int)),
        decreases total - idx,
    {
        proof {
            assert(nodes@.take(idx + 1) =~= nodes@.take(idx as int).push(nodes@[idx as int]));
            lemma_html_of_nodes_snoc(nodes@.take(idx as int), nodes@[idx as int]);
        }
        visit_inline(buffer, &nodes[idx]);
        idx = idx + 1;
    }
    proof {
        assert(nodes@.take(total as int) =~= nodes@);
    }
}

/// Text with none of the characters that open structure: no emphasis, no
/// links, no line breaks, and no `#` at the very start (the only place a
/// hash can be structural, since there are no newlines).
pub open spec fn unstructured_text(s: Seq<char>) -> bool {
    &&& forall|i: int|
        0 <= i < s.len() ==> (#[trigger] s[i] != '*' && s[i] != '[' && s[i] != '\n')
    &&& s.len() > 0 ==> s[0] != '#'
}

/// On text without `*`, `[` or newlines, every token the tokenizer
/// produces before the end marker is a plain token or a hash, and the
/// first token is a hash only where the first character is `#`.
proof fn lemma_scan_from_plain(input: Seq<char>, i: int, line: int, col: int)
    requires
        0 <= i <= input.len(),
        forall|j: int|
            0 <= j < input.len() ==> (#[trigger] input[j] != '*' && input[j] != '['
                && input[j] != '\n'),
    ensures
        scan_from(input, i, line, col).len() >= 1,
        i < input.len() ==> scan_from(input, i, line, col).len() >= 2,
        forall|k: int|
            0 <= k < scan_from(input, i, line, col).len() - 1 ==> lit_token(
                #[trigger] scan_from(input, i, line, col)[k].0,
            ),
        (i < input.len() && input[i] != '#') ==> !(scan_from(input, i, line, col)[0].0 is Hash),
    decreases input.len() - i,
{
    let n = input.len() as int;
    if i < n {
        let (next_i, next_line, next_col): (int, int, int) = if is_stop_char(input[i]) {
            (i + 1, line, bump(col))
        } else {
            (
                run_end(input, i + 1),
                line,
                bump_by(col, run_end(input, i + 1) - i),
            )
        };
        if !is_stop_char(input[i]) {
            lemma_run_end_bounds(input, i + 1);
        }
        lemma_scan_from_plain(input, next_i, next_line, next_col);
        let toks = scan_from(input, i, line, col);
        let rest = scan_from(input, next_i, next_line, next_col);
        assert(toks == seq![toks[0]] + rest);
        assert(lit_token(toks[0].0));
        assert forall|k: int| 0 <= k < toks.len() - 1 implies lit_token(
            #[trigger] toks[k].0,
        ) by {
            if k > 0 {
                assert(toks[k] == rest[k - 1]);
            }
        }
    }
}

/// The literal text of a token sequence splits off its last token.
proof fn lemma_literals_concat_split_last(s: Seq<(TokenView, (int, int))>)
    requires
        s.len() >= 1,
    ensures
        literals_concat(s) == literals_concat(s.subrange(0, s.len() - 1)) + token_literal(
            s.last().0,
        ),
    decreases s.len(),
{
    if s.len() == 1 {
        assert(s.drop_first() =~= Seq::<(TokenView, (int, int))>::empty());
        assert(literals_concat(s.drop_first()) == Seq::<char>::empty());
        assert(s.subrange(0, 0) =~= Seq::<(TokenView, (int, int))>::empty());
        assert(literals_concat(s.subrange(0, 0)) == Seq::<char>::empty());
        assert(literals_concat(s) =~= literals_concat(s.subrange(0, s.len() - 1))
            + token_literal(s.last().0));
    } else {
        lemma_literals_concat_split_last(s.drop_first());
        let front = s.subrange(0, s.len() - 1);
        assert(s.drop_first().subrange(0, s.drop_first().len() - 1) =~= front.drop_first());
        assert(s.drop_first().last() == s.last());
        assert(front[0] == s[0]);
        assert(literals_concat(s) =~= literals_concat(front) + token_literal(s.last().0));
    }
}

/// A sequence of literal text nodes, one per token starting at `off`,
/// renders to the same text as those tokens' literals.
proof fn lemma_literal_children_html<'s>(
    children: Seq<Node>,
    toks: Seq<(Token<'s>, Span)>,
    off: int,
    k: int,
)
    requires
        0 <= k <= children.len(),
        0 <= off,
        off + children.len() < toks.len(),
        forall|j: int|
            0 <= j < children.len() ==> literal_text_node(
                #[trigger] children[j],
                toks[off + j].0@,
            ),
    ensures
        html_of_nodes(children.subrange(k, children.len() as int)) == literals_concat(
            toks_view(toks).subrange(off + k, off + children.len() as int),
        ),
    decreases children.len() - k,
{
    let clen = children.len() as int;
    let tv = toks_view(toks);
    if k == clen {
        assert(children.subrange(k, clen) =~= Seq::<Node>::empty());
        assert(tv.subrange(off + k, off + clen) =~= Seq::<(TokenView, (int, int))>::empty());
        assert(html_of_nodes(children.subrange(k, clen)) == Seq::<char>::empty());
        assert(literals_concat(tv.subrange(off + k, off + clen)) == Seq::<char>::empty());
    } else {
        lemma_literal_children_html(children, toks, off, k + 1);
        let sub_c = children.subrange(k, clen);
        let sub_t = tv.subrange(off + k, off + clen);
        assert(sub_c[0] == children[k]);
        assert(sub_c.drop_first() =~= children.subrange(k + 1, clen));
        assert(sub_t[0] == tv[off + k]);
        assert(sub_t.drop_first() =~= tv.subrange(off + k + 1, off + clen));
        assert(html_of_node(children[k]) == token_literal(toks[off + k].0@));
        assert(tv[off + k].0 == toks[off + k].0@);
        assert(html_of_nodes(sub_c) =~= literals_concat(sub_t));
    }
}

/// The literal text of an input's tokens before the end marker is the
/// input itself: it connects the literal-paragraph clause of
/// [`render_html`] back to the raw text.
pub proof fn lemma_scan_literals_before_eof(input: Seq<char>)
    ensures
        literals_concat(scan_spec(input).subrange(0, scan_spec(input).len() - 1)) == input,
{
    let tv = scan_spec(input);
    lemma_scan_single_eof(input);
    lemma_scan_literal_concat(input);
    lemma_literals_concat_split_last(tv);
    assert(literals_concat(tv) =~= literals_concat(tv.subrange(0, tv.len() - 1)));
}

/// The token values of a blank input: only newlines before the end marker.
pub open spec fn blank_tokens(tv: Seq<(TokenView, (int, int))>) -> bool {
    forall|i: int|
        0 <= i < tv.len() ==> ((#[trigger] tv[i].0) is Newline || tv[i].0 is EndOfFile)
}

/// The token values of an input that is all literal text: every token
/// before the end marker is plain or a hash, a `[` never followed by `]`,
/// or a `*` never doubled — and the input does not open a heading.
pub open spec fn literal_tokens(tv: Seq<(TokenView, (int, int))>) -> bool {
    &&& 2 <= tv.len()
    &&& tv.last().0 is EndOfFile
    &&& forall|i: int|
        0 <= i < tv.len() - 1 ==> (lit_token(#[trigger] tv[i].0) || (tv[i].0
            is LeftSquareBracket && (forall|j: int|
            i < j < tv.len() ==> !((#[trigger] tv[j].0) is RightSquareBracket))) || tv[i].0
            is Star)
    &&& forall|i: int|
        0 <= i < tv.len() - 1 ==> !((#[trigger] tv[i].0) is Star && tv[i + 1].0 is Star)
    &&& !(tv[0].0 is Hash && tv[0].1.1 == 1 && (exists|k: int|
        1 <= k <= 6 && k < tv.len() && (forall|i: int|
            0 <= i < k ==> (#[trigger] tv[i].0) is Hash) && tv[k].0 is Space))
}

/// The token values of an input that is exactly one heading line: `k`
/// hashes at column 1, a space, plain text, the end marker.
pub open spec fn heading_line_tokens(tv: Seq<(TokenView, (int, int))>, k: int) -> bool {
    &&& 1 <= k <= 6
    &&& k + 2 <= tv.len()
    &&& forall|i: int| 0 <= i < k ==> (#[trigger] tv[i].0) is Hash
    &&& tv[0].1.1 == 1
    &&& tv[k].0 is Space
    &&& forall|i: int| k + 1 <= i < tv.len() - 1 ==> plain_token(#[trigger] tv[i].0)
    &&& tv.last().0 is EndOfFile
}

/// The token values of an input that is exactly one link: `[`, plain link
/// text, `](`, plain URL, `)` at `q`, the end marker.
pub open spec fn link_line_tokens(tv: Seq<(TokenView, (int, int))>, p: int, q: int) -> bool {
    &&& 0 < p
    &&& p + 2 <= q
    &&& q + 2 == tv.len()
    &&& tv[0].0 is LeftSquareBracket
    &&& forall|i: int|
        0 < i < p ==> (plain_token(#[trigger] tv[i].0) && !(tv[i].0 is RightSquareBracket))
    &&& tv[p].0 is RightSquareBracket
    &&& tv[p + 1].0 is LeftParen
    &&& forall|i: int|
        p + 2 <= i < q ==> (plain_token(#[trigger] tv[i].0) && !(tv[i].0 is RightParen))
    &&& tv[q].0 is RightParen
    &&& tv.last().0 is EndOfFile
}

/// The token values of an input that is exactly one strong element: `**`,
/// a plain body not starting or ending with a space, `**` at `e` and
/// `e + 1`, the end marker.
pub open spec fn strong_line_tokens(tv: Seq<(TokenView, (int, int))>, e: int) -> bool {
    &&& 3 <= e
    &&& e + 3 == tv.len()
    &&& tv[0].0 is Star
    &&& tv[1].0 is Star
    &&& forall|i: int| 2 <= i < e ==> (plain_token(#[trigger] tv[i].0) && !(tv[i].0 is Star))
    &&& !(tv[2].0 is Space)
    &&& !(tv[e - 1].0 is Space)
    &&& tv[e].0 is Star
    &&& tv[e + 1].0 is Star
    &&& tv.last().0 is EndOfFile
}

/// The token values of two literal runs separated by one blank line at
/// `b`, neither opening a heading: the paragraph-break shape.
pub open spec fn split_literal_tokens(tv: Seq<(TokenView, (int, int))>, b: int) -> bool {
    &&& 0 < b
    &&& b + 4 <= tv.len()
    &&& tv[b].0 is Newline
    &&& tv[b + 1].0 is Newline
    &&& forall|i: int|
        0 <= i < b ==> (lit_token(#[trigger] tv[i].0) || (tv[i].0 is LeftSquareBracket && (
        forall|j: int| i < j < b ==> !((#[trigger] tv[j].0) is RightSquareBracket))) || tv[i].0
            is Star)
    &&& forall|i: int|
        0 <= i < b - 1 ==> !((#[trigger] tv[i].0) is Star && tv[i + 1].0 is Star)
    &&& !(tv[0].0 is Hash && tv[0].1.1 == 1 && (exists|k: int|
        1 <= k <= 6 && k < tv.len() && (forall|i: int|
            0 <= i < k ==> (#[trigger] tv[i].0) is Hash) && tv[k].0 is Space))
    &&& tv.last().0 is EndOfFile
    &&& forall|i: int|
        b + 2 <= i < tv.len() - 1 ==> (lit_token(#[trigger] tv[i].0) || (tv[i].0
            is LeftSquareBracket && (forall|j: int|
            i < j < tv.len() ==> !((#[trigger] tv[j].0) is RightSquareBracket))) || tv[i].0
            is Star)
    &&& forall|i: int|
        b + 2 <= i < tv.len() - 1 ==> !((#[trigger] tv[i].0) is Star && tv[i + 1].0 is Star)
    &&& !(tv[b + 2].0 is Hash && tv[b + 2].1.1 == 1 && (exists|k: int|
        1 <= k <= 6 && b + 2 + k < tv.len() && (forall|i: int|
            b + 2 <= i < b + 2 + k ==> (#[trigger] tv[i].0) is Hash) && (#[trigger] tv[b + 2
            + k].0) is Space))
}

/// The paragraph-break token shape implies the parser-level split shape.
proof fn lemma_split_bridge<'s>(toks: Seq<(Token<'s>, Span)>, b: int)
    requires
        split_literal_tokens(toks_view(toks), b),
    ensures
        split_literal_runs(toks, 0, b),
{
    let tv = toks_view(toks);
    let n = toks.len() as int;
    assert forall|i: int|
        0 <= i < n implies ((#[trigger] toks[i].0@) == tv[i].0 && toks[i].1.col as int
        == tv[i].1.1) by {
        assert(toks_view(toks)[i] == tv[i]);
    }
    reveal(split_literal_runs);
    assert forall|i: int|
        0 <= i < b implies (lit_token(#[trigger] toks[i].0@) || (toks[i].0@
        is LeftSquareBracket && no_close_before(toks, i, b)) || toks[i].0@ is Star) by {
        if !lit_token(tv[i].0) && tv[i].0 is LeftSquareBracket {
            assert(no_close_before(toks, i, b)) by {
                reveal(no_close_before);
                assert forall|j: int| i < j < b implies !((#[trigger] toks[j].0@)
                    is RightSquareBracket) by {
                    assert(toks[j].0@ == tv[j].0);
                }
            }
        }
    }
    assert forall|i: int| 0 <= i < b - 1 implies !((#[trigger] toks[i].0@) is Star && toks[i
        + 1].0@ is Star) by {
        assert(toks[i].0@ == tv[i].0);
        assert(toks[i + 1].0@ == tv[i + 1].0);
    }
    assert(literal_until_blank(toks, 0, b));
    if toks[0].0@ is Hash && toks[0].1.col == 1 && starts_heading(toks, 0) {
        let hc = hash_count(toks, 0);
        lemma_hash_count_hashes(toks, 0);
        assert forall|i: int| 0 <= i < hc implies (#[trigger] tv[i].0) is Hash by {
            assert(toks[i].0@ is Hash);
        }
        assert(tv[hc].0 is Space);
        assert(tv[0].1.1 == 1);
        assert(false);
    }
    assert forall|i: int| b + 2 <= i < n - 1 implies #[trigger] literal_token_at(toks, i) by {
        if !lit_token(tv[i].0) && tv[i].0 is LeftSquareBracket {
            assert(no_close_after(toks, i)) by {
                reveal(no_close_after);
                assert forall|j: int| i < j < n implies !((#[trigger] toks[j].0@)
                    is RightSquareBracket) by {
                    assert(toks[j].0@ == tv[j].0);
                }
            }
        }
    }
    assert(no_double_star(toks, b + 2)) by {
        reveal(no_double_star);
        assert forall|i: int| b + 2 <= i < n - 1 implies !((#[trigger] toks[i].0@) is Star
            && toks[i + 1].0@ is Star) by {
            assert(toks[i].0@ == tv[i].0);
            assert(toks[i + 1].0@ == tv[i + 1].0);
        }
    }
    assert(toks[n - 1].0@ is EndOfFile);
    assert(literal_run(toks, b + 2));
    if toks[b + 2].0@ is Hash && toks[b + 2].1.col == 1 && starts_heading(toks, b + 2) {
        let hc = hash_count(toks, b + 2);
        lemma_hash_count_hashes(toks, b + 2);
        assert forall|i: int| b + 2 <= i < b + 2 + hc implies (#[trigger] tv[i].0) is Hash by {
            assert(toks[i].0@ is Hash);
        }
        assert(tv[b + 2 + hc].0 is Space);
        assert(tv[b + 2].1.1 == 1);
        assert(false);
    }
}

/// One paragraph node of literal text nodes renders to the tokens'
/// literals inside one paragraph element.
proof fn lemma_paragraph_node_html<'s>(
    toks: Seq<(Token<'s>, Span)>,
    node: Node,
    lo: int,
    hi: int,
)
    requires
        0 <= lo <= hi < toks.len(),
        paragraph_of_literals(node, toks, lo, hi),
    ensures
        html_of_node(node) == seq!['<', 'p', '>'] + literals_concat(
            toks_view(toks).subrange(lo, hi),
        ) + seq!['<', '/', 'p', '>'],
{
    let par = node->Paragraph_0;
    let children = par.children@;
    assert forall|j: int| 0 <= j < children.len() implies !(#[trigger] children[j]
        is LineBreak) by {
        assert(literal_text_node(children[j], toks[lo + j].0@));
    }
    assert(trim_trailing_break(children) == children);
    lemma_literal_children_html(children, toks, lo, 0);
    assert(children.subrange(0, children.len() as int) =~= children);
}

/// A two-paragraph forest of literal text nodes renders to the two runs'
/// literals in two sibling paragraph elements.
proof fn lemma_split_html<'s>(
    toks: Seq<(Token<'s>, Span)>,
    forest: Seq<Node>,
    html: Seq<char>,
    b: int,
)
    requires
        0 < b,
        b + 4 <= toks.len(),
        forest.len() == 2,
        paragraph_of_literals(forest[0], toks, 0, b),
        paragraph_of_literals(forest[1], toks, b + 2, toks.len() - 1),
        html == html_of_nodes(forest),
    ensures
        html == (seq!['<', 'p', '>'] + literals_concat(toks_view(toks).subrange(0, b)) + seq![
            '<',
            '/',
            'p',
            '>',
        ]) + (seq!['<', 'p', '>'] + literals_concat(
            toks_view(toks).subrange(b + 2, toks.len() - 1),
        ) + seq!['<', '/', 'p', '>']),
{
    lemma_paragraph_node_html(toks, forest[0], 0, b);
    lemma_paragraph_node_html(toks, forest[1], b + 2, toks.len() - 1);
    assert(forest.drop_first() =~= seq![forest[1]]);
    assert(seq![forest[1]][0] == forest[1]);
    assert(seq![forest[1]].drop_first() =~= Seq::<Node>::empty());
    assert(html_of_nodes(seq![forest[1]].drop_first()) == Seq::<char>::empty());
    assert(html_of_nodes(seq![forest[1]]) =~= html_of_node(forest[1]));
    assert(html =~= html_of_node(forest[0]) + html_of_node(forest[1]));
}

/// A one-paragraph forest of literal text nodes renders to the tokens'
/// literals inside one paragraph element.
proof fn lemma_literal_paragraph_html<'s>(
    toks: Seq<(Token<'s>, Span)>,
    forest: Seq<Node>,
    html: Seq<char>,
)
    requires
        2 <= toks.len(),
        forest.len() == 1,
        crate::parser::paragraph_of_literals(forest[0], toks, 0, toks.len() - 1),
        html == html_of_nodes(forest),
    ensures
        html == seq!['<', 'p', '>'] + literals_concat(
            toks_view(toks).subrange(0, toks.len() - 1),
        ) + seq!['<', '/', 'p', '>'],
{
    let node = forest[0];
    let par = node->Paragraph_0;
    let children = par.children@;
    assert(forest.drop_first() =~= Seq::<Node>::empty());
    assert(html_of_nodes(forest.drop_first()) == Seq::<char>::empty());
    assert forall|j: int| 0 <= j < children.len() implies !(#[trigger] children[j]
        is LineBreak) by {
        assert(literal_text_node(children[j], toks[j].0@));
    }
    assert(trim_trailing_break(children) == children);
    lemma_literal_children_html(children, toks, 0, 0);
    assert(children.subrange(0, children.len() as int) =~= children);
    assert(html_of_nodes(forest) =~= html_of_node(node));
    assert(html =~= seq!['<', 'p', '>'] + literals_concat(
        toks_view(toks).subrange(0, toks.len() - 1),
    ) + seq!['<', '/', 'p', '>']);
}

/// A one-header forest of literal text nodes renders to a numbered heading
/// element holding the body tokens' literals.
proof fn lemma_heading_html<'s>(
    toks: Seq<(Token<'s>, Span)>,
    forest: Seq<Node>,
    html: Seq<char>,
    k: int,
)
    requires
        1 <= k <= 6,
        k + 2 <= toks.len(),
        forest.len() == 1,
        crate::parser::header_of_literals(forest[0], toks, 0, k),
        html == html_of_nodes(forest),
    ensures
        html == seq!['<', 'h', level_char(k as u8), '>'] + literals_concat(
            toks_view(toks).subrange(k + 1, toks.len() - 1),
        ) + seq!['<', '/', 'h', level_char(k as u8), '>'],
{
    let node = forest[0];
    let h = node->Header_0;
    assert(forest.drop_first() =~= Seq::<Node>::empty());
    assert(html_of_nodes(forest.drop_first()) == Seq::<char>::empty());
    lemma_literal_children_html(h.children@, toks, k + 1, 0);
    assert(h.children@.subrange(0, h.children@.len() as int) =~= h.children@);
    assert(h.level == k as u8);
    assert(html_of_nodes(forest) =~= html_of_node(node));
    assert(html =~= seq!['<', 'h', level_char(k as u8), '>'] + literals_concat(
        toks_view(toks).subrange(k + 1, toks.len() - 1),
    ) + seq!['<', '/', 'h', level_char(k as u8), '>']);
}

/// A one-paragraph forest holding one link of literal text renders to an
/// anchor element inside one paragraph element.
proof fn lemma_link_html<'s>(
    toks: Seq<(Token<'s>, Span)>,
    forest: Seq<Node>,
    html: Seq<char>,
    p: int,
    q: int,
)
    requires
        0 < p,
        p + 2 <= q,
        q + 2 == toks.len(),
        forest.len() == 1,
        forest[0] is Paragraph,
        forest[0]->Paragraph_0.children@.len() == 1,
        crate::parser::link_of_literals(forest[0]->Paragraph_0.children@[0], toks, 0, p, q),
        html == html_of_nodes(forest),
    ensures
        html == seq!['<', 'p', '>'] + (seq!['<', 'a', ' ', 'h', 'r', 'e', 'f', '=', '"']
            + literals_concat(toks_view(toks).subrange(p + 2, q)) + seq!['"', '>']
            + literals_concat(toks_view(toks).subrange(1, p)) + seq!['<', '/', 'a', '>']) + seq![
            '<',
            '/',
            'p',
            '>',
        ],
{
    let node = forest[0];
    let par = node->Paragraph_0;
    let link_node = par.children@[0];
    let l = link_node->Link_0;
    lemma_literal_children_html(l.children@, toks, 1, 0);
    assert(l.children@.subrange(0, l.children@.len() as int) =~= l.children@);
    assert(html_of_nodes(l.children@) == literals_concat(toks_view(toks).subrange(1, p)));
    lemma_literal_children_html(l.url@, toks, p + 2, 0);
    assert(l.url@.subrange(0, l.url@.len() as int) =~= l.url@);
    assert(html_of_nodes(l.url@) == literals_concat(toks_view(toks).subrange(p + 2, q)));
    assert(par.children@.last() == link_node);
    assert(trim_trailing_break(par.children@) == par.children@);
    assert(par.children@.drop_first() =~= Seq::<Node>::empty());
    assert(html_of_nodes(par.children@.drop_first()) == Seq::<char>::empty());
    assert(html_of_nodes(par.children@) =~= html_of_node(link_node));
    assert(forest.drop_first() =~= Seq::<Node>::empty());
    assert(html_of_nodes(forest.drop_first()) == Seq::<char>::empty());
    assert(html_of_nodes(forest) =~= html_of_node(node));
}

/// A one-paragraph forest holding one strong element of literal text
/// renders to a strong element inside one paragraph element.
proof fn lemma_strong_html<'s>(
    toks: Seq<(Token<'s>, Span)>,
    forest: Seq<Node>,
    html: Seq<char>,
    e: int,
)
    requires
        3 <= e,
        e + 3 == toks.len(),
        forest.len() == 1,
        forest[0] is Paragraph,
        forest[0]->Paragraph_0.children@.len() == 1,
        crate::parser::strong_of_literals(forest[0]->Paragraph_0.children@[0], toks, 0, e),
        html == html_of_nodes(forest),
    ensures
        html == seq!['<', 'p', '>'] + (seq!['<', 's', 't', 'r', 'o', 'n', 'g', '>']
            + literals_concat(toks_view(toks).subrange(2, e)) + seq![
            '<',
            '/',
            's',
            't',
            'r',
            'o',
            'n',
            'g',
            '>',
        ]) + seq!['<', '/', 'p', '>'],
{
    let node = forest[0];
    let par = node->Paragraph_0;
    let strong_node = par.children@[0];
    let st = strong_node->Strong_0;
    lemma_literal_children_html(st.children@, toks, 2, 0);
    assert(st.children@.subrange(0, st.children@.len() as int) =~= st.children@);
    assert(html_of_nodes(st.children@) == literals_concat(toks_view(toks).subrange(2, e)));
    assert(par.children@.last() == strong_node);
    assert(trim_trailing_break(par.children@) == par.children@);
    assert(par.children@.drop_first() =~= Seq::<Node>::empty());
    assert(html_of_nodes(par.children@.drop_first()) == Seq::<char>::empty());
    assert(html_of_nodes(par.children@) =~= html_of_node(strong_node));
    assert(forest.drop_first() =~= Seq::<Node>::empty());
    assert(html_of_nodes(forest.drop_first()) == Seq::<char>::empty());
    assert(html_of_nodes(forest) =~= html_of_node(node));
}

/// Converts the given Markdown text to HTML: tokenize, parse, render.
///
/// The function is total: every input yields a string, the rendering of
/// some well-formed document forest. The contract pins the string exactly
/// on each family the parser's laws cover, stated over the input's token
/// values [`scan_spec`]: blank input renders to nothing; text that opens no
/// construct — including over-long or space-less hash runs, a `[` that
/// never closes, and unpaired `*`s — renders to one paragraph holding its
/// literal text (verbatim, when the characters are unstructured); two such
/// runs split by one blank line render to two sibling paragraph elements;
/// one heading line renders to its numbered heading element; one link or
/// one strong element renders to its anchor or strong element inside one
/// paragraph element.
#[verifier::rlimit(100)]
#[verifier::spinoff_prover]
pub fn render_html(markdown: &str) -> (html: String)
    ensures
        exists|ast: Seq<Node>| forest_wf(ast) && html@ == html_of_nodes(ast),
        markdown@.len() == 0 ==> html@ == Seq::<char>::empty(),
        (markdown@.len() > 0 && unstructured_text(markdown@)) ==> html@ == seq!['<', 'p', '>']
            + markdown@ + seq!['<', '/', 'p', '>'],
        blank_tokens(scan_spec(markdown@)) ==> html@ == Seq::<char>::empty(),
        literal_tokens(scan_spec(markdown@)) ==> html@ == seq!['<', 'p', '>'] + literals_concat(
            scan_spec(markdown@).subrange(0, scan_spec(markdown@).len() - 1),
        ) + seq!['<', '/', 'p', '>'],
        forall|k: int|
            heading_line_tokens(scan_spec(markdown@), k) ==> html@ == seq![
                '<',
                'h',
                level_char(k as u8),
                '>',
            ] + literals_concat(
                scan_spec(markdown@).subrange(k + 1, scan_spec(markdown@).len() - 1),
            ) + seq!['<', '/', 'h', level_char(k as u8), '>'],
        forall|p: int, q: int|
            link_line_tokens(scan_spec(markdown@), p, q) ==> html@ == seq!['<', 'p', '>'] + (seq![
                '<',
                'a',
                ' ',
                'h',
                'r',
                'e',
                'f',
                '=',
                '"',
            ] + literals_concat(scan_spec(markdown@).subrange(p + 2, q)) + seq!['"', '>']
                + literals_concat(scan_spec(markdown@).subrange(1, p)) + seq![
                '<',
                '/',
                'a',
                '>',
            ]) + seq!['<', '/', 'p', '>'],
        forall|e: int|
            strong_line_tokens(scan_spec(markdown@), e) ==> html@ == seq!['<', 'p', '>'] + (seq![
                '<',
                's',
                't',
                'r',
                'o',
                'n',
                'g',
                '>',
            ] + literals_concat(scan_spec(markdown@).subrange(2, e)) + seq![
                '<',
                '/',
                's',
                't',
                'r',
                'o',
                'n',
                'g',
                '>',
            ]) + seq!['<', '/', 'p', '>'],
        forall|b: int|
            split_literal_tokens(scan_spec(markdown@), b) ==> html@ == (seq!['<', 'p', '>']
                + literals_concat(scan_spec(markdown@).subrange(0, b)) + seq!['<', '/', 'p', '>'])
                + (seq!['<', 'p', '>'] + literals_concat(
                scan_spec(markdown@).subrange(b + 2, scan_spec(markdown@).len() - 1),
            ) + seq!['<', '/', 'p', '>']),
{
    let ghost input = markdown@;
    let mut lexer = Lexer::new(markdown);
    let tokens = lexer.scan();
    proof {
        lemma_scan_single_eof(input);
        assert(tokens@.len() == scan_spec(input).len());
        assert forall|i: int| 0 <= i < tokens@.len() - 1 implies !(#[trigger] tokens@[i].0@
            is EndOfFile) by {
            assert(toks_view(tokens@)[i].0 == tokens@[i].0@);
        }
    }
    let mut parser = Parser::new(tokens.as_slice());
    let ast = parser.parse();
    let ghost forest = ast@;
    let html = render(ast);
    proof {
        let tv = scan_spec(input);
        let n = tokens@.len() as int;
        if input.len() == 0 {
            assert(tv =~= seq![(TokenView::EndOfFile, (1int, 1int))]);
            assert(tokens@[0].0@ == toks_view(tokens@)[0].0);
            assert(all_trivial(tokens@, 0, n));
            assert(html_of_nodes(forest) == Seq::<char>::empty());
        }
        if input.len() > 0 && unstructured_text(input) {
            lemma_scan_from_plain(input, 0, 1, 1);
            assert forall|i: int| 0 <= i < n - 1 implies lit_token(
                #[trigger] tokens@[i].0@,
            ) by {
                assert(toks_view(tokens@)[i].0 == tokens@[i].0@);
            }
            assert(tokens@[n - 1].0@ == toks_view(tokens@)[n - 1].0);
            assert forall|i: int| 0 <= i < n - 1 implies #[trigger] literal_token_at(
                tokens@,
                i,
            ) by {
                assert(lit_token(tokens@[i].0@));
            }
            assert forall|i: int| 0 <= i < n - 1 implies !(#[trigger] tokens@[i].0@ is Star
                && tokens@[i + 1].0@ is Star) by {
                assert(lit_token(tokens@[i].0@));
            }
            assert(no_double_star(tokens@, 0)) by {
                reveal(no_double_star);
            }
            assert(literal_run(tokens@, 0));
            assert(tokens@[0].0@ == toks_view(tokens@)[0].0);
            assert(!(tokens@[0].0@ is Hash));
            assert(literal_block_run(tokens@, 0));
            // the forest is one paragraph of the tokens' literal text
            let node = forest[0];
            let children = node->Paragraph_0.children@;
            assert(children.len() == n - 1);
            assert forall|j: int| 0 <= j < children.len() implies !(#[trigger] children[j]
                is LineBreak) by {
                assert(literal_text_node(children[j], tokens@[j].0@));
            }
            assert(trim_trailing_break(children) == children);
            lemma_literal_children_html(children, tokens@, 0, 0);
            assert(children.subrange(0, n - 1) =~= children);
            assert(toks_view(tokens@) =~= tv);
            lemma_literals_concat_split_last(tv);
            lemma_scan_literal_concat(input);
            assert(tv.last().0 == tokens@[n - 1].0@);
            assert(literals_concat(tv) =~= literals_concat(tv.subrange(0, n - 1)));
            assert(html_of_nodes(children) == input);
            assert(forest.drop_first() =~= Seq::<Node>::empty());
            assert(html_of_nodes(forest.drop_first()) == Seq::<char>::empty());
            assert(html_of_node(node) =~= seq!['<', 'p', '>'] + input + seq!['<', '/', 'p', '>']);
            assert(html_of_nodes(forest) =~= html_of_node(node));
        }
        assert(toks_view(tokens@) =~= tv);
        assert forall|i: int|
            0 <= i < n implies (#[trigger] tokens@[i].0@) == tv[i].0 && tokens@[i].1.col as int
            == tv[i].1.1 by {
            assert(toks_view(tokens@)[i] == tv[i]);
        }
        if blank_tokens(tv) {
            assert forall|i: int| 0 <= i < n implies trivial_token(
                #[trigger] tokens@[i].0@,
            ) by {
                assert(tokens@[i].0@ == tv[i].0);
            }
            assert(all_trivial(tokens@, 0, n));
            assert(forest.len() == 0);
            assert(html_of_nodes(forest) == Seq::<char>::empty());
        }
        if literal_tokens(tv) {
            assert forall|i: int| 0 <= i < n - 1 implies #[trigger] literal_token_at(
                tokens@,
                i,
            ) by {
                if !lit_token(tv[i].0) && tv[i].0 is LeftSquareBracket {
                    assert forall|j: int| i < j < n implies !((#[trigger] tokens@[j].0@)
                        is RightSquareBracket) by {
                        assert(tokens@[j].0@ == tv[j].0);
                    }
                    assert(no_close_after(tokens@, i)) by {
                        reveal(no_close_after);
                    }
                }
            }
            assert forall|i: int| 0 <= i < n - 1 implies !((#[trigger] tokens@[i].0@) is Star
                && tokens@[i + 1].0@ is Star) by {
                assert(tokens@[i].0@ == tv[i].0);
                assert(tokens@[i + 1].0@ == tv[i + 1].0);
            }
            assert(no_double_star(tokens@, 0)) by {
                reveal(no_double_star);
            }
            if tokens@[0].0@ is Hash && tokens@[0].1.col == 1 && starts_heading(tokens@, 0) {
                let hc = hash_count(tokens@, 0);
                crate::parser::lemma_hash_count_hashes(tokens@, 0);
                assert forall|i: int| 0 <= i < hc implies (#[trigger] tv[i].0) is Hash by {
                    assert(tokens@[i].0@ is Hash);
                }
                assert(tv[hc as int].0 is Space);
                assert(tv[0].1.1 == 1);
                assert(false);
            }
            assert(literal_run(tokens@, 0));
            assert(literal_block_run(tokens@, 0));
            lemma_literal_paragraph_html(tokens@, forest, html@);
            assert(toks_view(tokens@).subrange(0, n - 1) == tv.subrange(0, n - 1));
        }
        assert forall|k: int| heading_line_tokens(tv, k) implies html@ == seq![
            '<',
            'h',
            level_char(k as u8),
            '>',
        ] + literals_concat(tv.subrange(k + 1, tv.len() - 1)) + seq![
            '<',
            '/',
            'h',
            level_char(k as u8),
            '>',
        ] by {
            assert forall|i: int| 0 <= i < k implies (#[trigger] tokens@[i].0@) is Hash by {
                assert(tokens@[i].0@ == tv[i].0);
            }
            assert forall|i: int| k + 1 <= i < n - 1 implies plain_token(
                #[trigger] tokens@[i].0@,
            ) by {
                assert(tokens@[i].0@ == tv[i].0);
            }
            assert(tokens@[0].1.col == 1);
            assert(tokens@[k].0@ is Space);
            assert(tokens@[n - 1].0@ is EndOfFile);
            assert(heading_run(tokens@, 0, k));
            lemma_heading_html(tokens@, forest, html@, k);
            assert(toks_view(tokens@).subrange(k + 1, n - 1) == tv.subrange(k + 1, n - 1));
        }
        assert forall|p: int, q: int| link_line_tokens(tv, p, q) implies html@ == seq![
            '<',
            'p',
            '>',
        ] + (seq!['<', 'a', ' ', 'h', 'r', 'e', 'f', '=', '"'] + literals_concat(
            tv.subrange(p + 2, q),
        ) + seq!['"', '>'] + literals_concat(tv.subrange(1, p)) + seq!['<', '/', 'a', '>'])
            + seq!['<', '/', 'p', '>'] by {
            assert forall|i: int| 0 < i < p implies (plain_token(#[trigger] tokens@[i].0@) && !(
            tokens@[i].0@ is RightSquareBracket)) by {
                assert(tokens@[i].0@ == tv[i].0);
            }
            assert forall|i: int| p + 2 <= i < q implies (plain_token(#[trigger] tokens@[i].0@)
                && !(tokens@[i].0@ is RightParen)) by {
                assert(tokens@[i].0@ == tv[i].0);
            }
            assert(tokens@[0].0@ is LeftSquareBracket);
            assert(tokens@[p].0@ is RightSquareBracket);
            assert(tokens@[p + 1].0@ is LeftParen);
            assert(tokens@[q].0@ is RightParen);
            assert(tokens@[n - 1].0@ is EndOfFile);
            assert(link_run(tokens@, 0, p, q));
            lemma_link_html(tokens@, forest, html@, p, q);
            assert(toks_view(tokens@).subrange(p + 2, q) == tv.subrange(p + 2, q));
            assert(toks_view(tokens@).subrange(1, p) == tv.subrange(1, p));
        }
        assert forall|e: int| strong_line_tokens(tv, e) implies html@ == seq!['<', 'p', '>'] + (
        seq!['<', 's', 't', 'r', 'o', 'n', 'g', '>'] + literals_concat(tv.subrange(2, e)) + seq![
            '<',
            '/',
            's',
            't',
            'r',
            'o',
            'n',
            'g',
            '>',
        ]) + seq!['<', '/', 'p', '>'] by {
            assert forall|i: int| 2 <= i < e implies (plain_token(#[trigger] tokens@[i].0@) && !(
            tokens@[i].0@ is Star)) by {
                assert(tokens@[i].0@ == tv[i].0);
            }
            assert(tokens@[0].0@ is Star);
            assert(tokens@[1].0@ is Star);
            assert(!(tokens@[2].0@ is Space));
            assert(!(tokens@[e - 1].0@ is Space));
            assert(tokens@[e].0@ is Star);
            assert(tokens@[e + 1].0@ is Star);
            assert(tokens@[n - 1].0@ is EndOfFile);
            assert(strong_run(tokens@, 0, e));
            lemma_strong_html(tokens@, forest, html@, e);
            assert(toks_view(tokens@).subrange(2, e) == tv.subrange(2, e));
        }
        assert forall|b: int| split_literal_tokens(tv, b) implies html@ == (seq!['<', 'p', '>']
            + literals_concat(tv.subrange(0, b)) + seq!['<', '/', 'p', '>']) + (seq![
            '<',
            'p',
            '>',
        ] + literals_concat(tv.subrange(b + 2, tv.len() - 1)) + seq!['<', '/', 'p', '>']) by {
            lemma_split_bridge(tokens@, b);
            lemma_split_html(tokens@, forest, html@, b);
            assert(toks_view(tokens@).subrange(0, b) == tv.subrange(0, b));
            assert(toks_view(tokens@).subrange(b + 2, n - 1) == tv.subrange(b + 2, n - 1));
        }
    }
    html
}

} // verus!
