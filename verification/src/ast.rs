//! The document tree: an ordered forest of block nodes (headers and
//! paragraphs) whose children are inline nodes. Nodes are built bottom-up
//! during parsing and never mutated afterwards; text payloads borrow from
//! the source buffer.

use vstd::prelude::*;

verus! {

#[derive(Debug)]
pub enum Node<'s> {
    Header(Header<'s>),
    Paragraph(Paragraph<'s>),
    Link(Link<'s>),
    Strong(Strong<'s>),
    Emphasis(Emphasis<'s>),
    Digit(&'s str),
    Text(&'s str),
    LineBreak,
}

/// A heading with a level that is always in `1..=6`.
#[derive(Debug)]
pub struct Header<'s> {
    pub level: u8,
    pub children: Vec<Node<'s>>,
}

#[derive(Debug)]
pub struct Paragraph<'s> {
    pub children: Vec<Node<'s>>,
}

#[derive(Debug)]
pub struct Link<'s> {
    /// The link text, itself an inline forest.
    pub children: Vec<Node<'s>>,
    /// The link destination, itself an inline forest.
    pub url: Vec<Node<'s>>,
}

#[derive(Debug)]
pub struct Strong<'s> {
    pub children: Vec<Node<'s>>,
}

#[derive(Debug)]
pub struct Emphasis<'s> {
    pub children: Vec<Node<'s>>,
}

/// No element of the sequence is a line break.
pub open spec fn linebreak_free(s: Seq<Node>) -> bool {
    forall|i: int| 0 <= i < s.len() ==> !(#[trigger] s[i] is LineBreak)
}

/// No two consecutive line breaks: an inline run never spans a blank line.
pub open spec fn no_adjacent_linebreaks(s: Seq<Node>) -> bool {
    forall|i: int|
        0 <= i < s.len() - 1 ==> !(#[trigger] s[i] is LineBreak && s[i + 1] is LineBreak)
}

/// A well-formed inline node: no block node nested in an inline position,
/// and no inline construct whose body spans a blank line.
pub open spec fn inline_wf(n: Node) -> bool
    decreases n,
{
    match n {
        Node::Header(_) => false,
        Node::Paragraph(_) => false,
        Node::Link(l) => inlines_wf(l.children@) && inlines_wf(l.url@) && no_adjacent_linebreaks(
            l.children@,
        ) && no_adjacent_linebreaks(l.url@),
        Node::Strong(s) => inlines_wf(s.children@) && no_adjacent_linebreaks(s.children@),
        Node::Emphasis(e) => inlines_wf(e.children@) && no_adjacent_linebreaks(e.children@),
        Node::Digit(_) => true,
        Node::Text(_) => true,
        Node::LineBreak => true,
    }
}

/// Every node of the sequence is a well-formed inline node.
pub open spec fn inlines_wf(s: Seq<Node>) -> bool
    decreases s,
{
    forall|i: int| 0 <= i < s.len() ==> inline_wf(#[trigger] s[i])
}

/// A well-formed block node: a header with a level in `1..=6` and
/// line-break-free children, or a non-empty paragraph.
pub open spec fn block_wf(n: Node) -> bool {
    match n {
        Node::Header(h) => 1 <= h.level <= 6 && inlines_wf(h.children@) && linebreak_free(
            h.children@,
        ),
        Node::Paragraph(p) => p.children@.len() > 0 && inlines_wf(p.children@)
            && no_adjacent_linebreaks(p.children@),
        _ => false,
    }
}

/// A well-formed document forest: block nodes only at the top.
pub open spec fn forest_wf(s: Seq<Node>) -> bool {
    forall|i: int| 0 <= i < s.len() ==> block_wf(#[trigger] s[i])
}

/// Appending a well-formed inline node keeps an inline forest well formed,
/// provided a line break is never appended right after another one.
pub proof fn lemma_inline_push(s: Seq<Node>, n: Node)
    requires
        inlines_wf(s),
        no_adjacent_linebreaks(s),
        inline_wf(n),
        n is LineBreak ==> (s.len() == 0 || !(s.last() is LineBreak)),
    ensures
        inlines_wf(s.push(n)),
        no_adjacent_linebreaks(s.push(n)),
        s.push(n).last() == n,
        linebreak_free(s) && !(n is LineBreak) ==> linebreak_free(s.push(n)),
{
    let t = s.push(n);
    assert forall|i: int| 0 <= i < t.len() implies inline_wf(#[trigger] t[i]) by {
        if i < s.len() {
            assert(t[i] == s[i]);
        } else {
            assert(t[i] == n);
        }
    }
    assert forall|i: int| 0 <= i < t.len() - 1 implies !(#[trigger] t[i] is LineBreak && t[i + 1]
        is LineBreak) by {
        if i + 1 < s.len() {
            assert(t[i] == s[i]);
            assert(t[i + 1] == s[i + 1]);
        } else {
            assert(t[i] == s[i]);
            assert(t[i + 1] == n);
            assert(s[i] == s.last());
        }
    }
    if linebreak_free(s) && !(n is LineBreak) {
        assert forall|i: int| 0 <= i < t.len() implies !(#[trigger] t[i] is LineBreak) by {
            if i < s.len() {
                assert(t[i] == s[i]);
            } else {
                assert(t[i] == n);
            }
        }
    }
}

} // verus!
