//! A verified Markdown dialect renderer.
//!
//! The pipeline has three stages: a position-tracking tokenizer
//! ([`lexer::Lexer`]), a recursive-descent parser with speculative lookahead
//! for ambiguous inline constructs ([`parser::Parser`]), and a tree-to-HTML
//! renderer ([`renderer::render_html`]). Every stage is total: each input
//! produces an output, never a panic.
//!
//! What is proved, beyond totality and termination:
//! - scanning returns exactly the value of the mathematical tokenizer
//!   [`lexer::scan_spec`]; the concatenated literal text of the tokens is
//!   the input itself ([`lexer::lemma_scan_literal_concat`]), token spans
//!   never decrease ([`lexer::lemma_scan_spans_monotone`]), and the
//!   sequence ends in exactly one end-of-input token
//!   ([`lexer::lemma_scan_single_eof`]);
//! - parsing yields a well-formed forest ([`ast::forest_wf`]): heading
//!   levels stay in `1..=6`, paragraphs are non-empty, and no inline run
//!   holds two adjacent line breaks. The forest is empty exactly when the
//!   tokens are blank; a heading line, a single link or a single strong
//!   element parse to exactly the expected nodes; a run that opens no
//!   construct parses to exactly one paragraph of literal text; two such
//!   runs split by a blank line parse to exactly two sibling paragraphs
//!   ([`parser::split_literal_runs`]); a header node arises only from a
//!   column-1 hash run of its level followed by a space
//!   ([`parser::header_from_heading_at`]); and the token span a committed
//!   link or strong element consumed holds no blank line
//!   ([`parser::no_blank_between`]);
//! - each speculative scan is pinned on every input by a spec-level state
//!   machine of its own ([`parser::link_scan`], [`parser::strong_scan`]):
//!   a completed scan commits the construct over the exact inner ranges
//!   the machine names and moves the cursor just past it, and a failed
//!   scan consumes exactly the one opening delimiter as literal text;
//! - rendering produces exactly the value of [`renderer::html_of_nodes`],
//!   and [`renderer::render_html`] pins the whole pipeline for each of
//!   those input families: blank input renders to nothing, literal runs to
//!   one paragraph holding the text verbatim — or to two sibling
//!   paragraphs around a blank line — a heading line to its numbered
//!   heading element, a sole link or strong element to its anchor or
//!   strong element inside one paragraph.

pub mod token;

pub mod lexer;

pub mod ast;

pub mod marker;

pub mod parser;

pub mod renderer;
