//! The lexical vocabulary: tokens over a fixed alphabet of structural
//! symbols, single digits, maximal text runs, and an end-of-input marker,
//! each paired with a source position.

use vstd::prelude::*;
use vstd::string::StrSliceExecFns;

verus! {

/// One lexical symbol. `Digit` and `Text` borrow their characters from the
/// source buffer, which must outlive the token sequence.
#[derive(Debug)]
pub enum Token<'a> {
    Hash,
    Star,
    Bang,
    Underscore,
    Newline,
    Tab,
    Space,
    Dot,
    Dash,
    Backslash,
    LeftParen,
    RightParen,
    LeftSquareBracket,
    RightSquareBracket,
    Digit(&'a str),
    Text(&'a str),
    EndOfFile,
}

/// The mathematical value of a token: the same tag, with borrowed text
/// abstracted to its character sequence.
pub enum TokenView {
    Hash,
    Star,
    Bang,
    Underscore,
    Newline,
    Tab,
    Space,
    Dot,
    Dash,
    Backslash,
    LeftParen,
    RightParen,
    LeftSquareBracket,
    RightSquareBracket,
    Digit(Seq<char>),
    Text(Seq<char>),
    EndOfFile,
}

impl<'a> View for Token<'a> {
    type V = TokenView;

    open spec fn view(&self) -> TokenView {
        match self {
            Token::Hash => TokenView::Hash,
            Token::Star => TokenView::Star,
            Token::Bang => TokenView::Bang,
            Token::Underscore => TokenView::Underscore,
            Token::Newline => TokenView::Newline,
            Token::Tab => TokenView::Tab,
            Token::Space => TokenView::Space,
            Token::Dot => TokenView::Dot,
            Token::Dash => TokenView::Dash,
            Token::Backslash => TokenView::Backslash,
            Token::LeftParen => TokenView::LeftParen,
            Token::RightParen => TokenView::RightParen,
            Token::LeftSquareBracket => TokenView::LeftSquareBracket,
            Token::RightSquareBracket => TokenView::RightSquareBracket,
            Token::Digit(d) => TokenView::Digit(d@),
            Token::Text(t) => TokenView::Text(t@),
            Token::EndOfFile => TokenView::EndOfFile,
        }
    }
}

/// The literal character sequence a token stands for in the source text.
pub open spec fn token_literal(t: TokenView) -> Seq<char> {
    match t {
        TokenView::Hash => seq!['#'],
        TokenView::Star => seq!['*'],
        TokenView::Bang => seq!['!'],
        TokenView::Underscore => seq!['_'],
        TokenView::Newline => seq!['\n'],
        TokenView::Tab => seq!['\t'],
        TokenView::Space => seq![' '],
        TokenView::Dot => seq!['.'],
        TokenView::Dash => seq!['-'],
        TokenView::Backslash => seq!['\\'],
        TokenView::LeftParen => seq!['('],
        TokenView::RightParen => seq![')'],
        TokenView::LeftSquareBracket => seq!['['],
        TokenView::RightSquareBracket => seq![']'],
        TokenView::Digit(d) => d,
        TokenView::Text(t) => t,
        TokenView::EndOfFile => Seq::<char>::empty(),
    }
}

impl<'a> Token<'a> {
    /// Literal string representation of a given token.
    pub fn literal(&self) -> (r: &'a str)
        ensures
            r@ == token_literal(self@),
    {
        proof {
            reveal_strlit("#");
            reveal_strlit("*");
            reveal_strlit("!");
            reveal_strlit("_");
            reveal_strlit("\n");
            reveal_strlit("\t");
            reveal_strlit(" ");
            reveal_strlit(".");
            reveal_strlit("-");
            reveal_strlit("\\");
            reveal_strlit("(");
            reveal_strlit(")");
            reveal_strlit("[");
            reveal_strlit("]");
            reveal_strlit("");
        }
        match self {
            Token::Hash => "#",
            Token::Star => "*",
            Token::Bang => "!",
            Token::Underscore => "_",
            Token::Newline => "\n",
            Token::Tab => "\t",
            Token::Space => " ",
            Token::Dot => ".",
            Token::Dash => "-",
            Token::Backslash => "\\",
            Token::LeftParen => "(",
            Token::RightParen => ")",
            Token::LeftSquareBracket => "[",
            Token::RightSquareBracket => "]",
            Token::Digit(d) => d,
            Token::Text(t) => t,
            Token::EndOfFile => "",
        }
    }

    /// Whether the token can open a block-level construct (only `#` can).
    pub fn is_block_level_token(&self) -> (r: bool)
        ensures
            r == (self@ is Hash),
    {
        matches!(self, Token::Hash)
    }
}

/// Character-by-character string comparison, so that token equality can be
/// stated over character sequences.
#[verifier::loop_isolation(false)]
fn str_eq_chars(a: &str, b: &str) -> (r: bool)
    ensures
        r == (a@ == b@),
{
    let a_len: usize = a.unicode_len();
    let b_len: usize = b.unicode_len();
    if a_len != b_len {
        return false;
    }
    let mut i: usize = 0;
    while i < a_len
        invariant
            a_len == a@.len(),
            b_len == b@.len(),
            a_len == b_len,
            i <= a_len,
            forall|j: int| 0 <= j < i ==> a@[j] == b@[j],
        decreases a_len - i,
    {
        if a.get_char(i) != b.get_char(i) {
            return false;
        }
        i = i + 1;
    }
    proof {
        assert(a@ =~= b@);
    }
    true
}

impl<'a> PartialEq for Token<'a> {
    fn eq(&self, other: &Self) -> (r: bool) {
        match (self, other) {
            (Token::Hash, Token::Hash) => true,
            (Token::Star, Token::Star) => true,
            (Token::Bang, Token::Bang) => true,
            (Token::Underscore, Token::Underscore) => true,
            (Token::Newline, Token::Newline) => true,
            (Token::Tab, Token::Tab) => true,
            (Token::Space, Token::Space) => true,
            (Token::Dot, Token::Dot) => true,
            (Token::Dash, Token::Dash) => true,
            (Token::Backslash, Token::Backslash) => true,
            (Token::LeftParen, Token::LeftParen) => true,
            (Token::RightParen, Token::RightParen) => true,
            (Token::LeftSquareBracket, Token::LeftSquareBracket) => true,
            (Token::RightSquareBracket, Token::RightSquareBracket) => true,
            (Token::Digit(a), Token::Digit(b)) => str_eq_chars(a, b),
            (Token::Text(a), Token::Text(b)) => str_eq_chars(a, b),
            (Token::EndOfFile, Token::EndOfFile) => true,
            _ => false,
        }
    }
}

impl<'a> vstd::std_specs::cmp::PartialEqSpecImpl for Token<'a> {
    open spec fn obeys_eq_spec() -> bool {
        true
    }

    open spec fn eq_spec(&self, other: &Self) -> bool {
        self@ == other@
    }
}

/// The source position of a token: 1-based line and column of its first
/// character, counted in codepoints.
#[derive(Clone, Copy, Debug, PartialEq, Eq, Structural)]
pub struct Span {
    pub line: usize,
    pub col: usize,
}

} // verus!
