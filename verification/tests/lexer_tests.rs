use md_parser::lexer::Lexer;
use md_parser::token::{Span, Token};

#[test]
fn accept_multi_byte_chars() {
    let markdown = r"
        ## This is a title
        
        This should include emojis and **bold text**.
        🤡😜🎉 text 🐙👪.
        ";
    let mut lexer = Lexer::new(markdown);
    let result = lexer.scan();
    assert_eq!(result.len(), 80);
}

#[test]
fn tokenize_symbols_digits_and_text() {
    let mut lexer = Lexer::new("a#1\n b");
    let tokens = lexer.scan();
    assert_eq!(tokens.len(), 7);
    assert_eq!(tokens[0].0, Token::Text("a"));
    assert_eq!(tokens[1].0, Token::Hash);
    assert_eq!(tokens[2].0, Token::Digit("1"));
    assert_eq!(tokens[3].0, Token::Newline);
    assert_eq!(tokens[4].0, Token::Space);
    assert_eq!(tokens[5].0, Token::Text("b"));
    assert_eq!(tokens[6].0, Token::EndOfFile);
}

#[test]
fn spans_track_lines_and_columns() {
    let mut lexer = Lexer::new("a#1\n b");
    let tokens = lexer.scan();
    assert_eq!(tokens[0].1, Span { line: 1, col: 1 });
    assert_eq!(tokens[1].1, Span { line: 1, col: 2 });
    assert_eq!(tokens[2].1, Span { line: 1, col: 3 });
    assert_eq!(tokens[3].1, Span { line: 1, col: 4 });
    assert_eq!(tokens[4].1, Span { line: 2, col: 1 });
    assert_eq!(tokens[5].1, Span { line: 2, col: 2 });
    assert_eq!(tokens[6].1, Span { line: 2, col: 3 });
}

#[test]
fn multi_digit_numbers_stay_separate_tokens() {
    let mut lexer = Lexer::new("12");
    let tokens = lexer.scan();
    assert_eq!(tokens.len(), 3);
    assert_eq!(tokens[0].0, Token::Digit("1"));
    assert_eq!(tokens[1].0, Token::Digit("2"));
    assert_eq!(tokens[2].0, Token::EndOfFile);
}

#[test]
fn multi_byte_text_merges_into_one_token() {
    let mut lexer = Lexer::new("héé🤡x");
    let tokens = lexer.scan();
    assert_eq!(tokens.len(), 2);
    assert_eq!(tokens[0].0, Token::Text("héé🤡x"));
    assert_eq!(tokens[1].0, Token::EndOfFile);
}

#[test]
fn multi_byte_chars_count_one_column_each() {
    let mut lexer = Lexer::new("🤡🤡#");
    let tokens = lexer.scan();
    assert_eq!(tokens.len(), 3);
    assert_eq!(tokens[0].0, Token::Text("🤡🤡"));
    assert_eq!(tokens[1].0, Token::Hash);
    assert_eq!(tokens[1].1, Span { line: 1, col: 3 });
}

#[test]
fn empty_input_gives_only_end_of_file() {
    let mut lexer = Lexer::new("");
    let tokens = lexer.scan();
    assert_eq!(tokens.len(), 1);
    assert_eq!(tokens[0].0, Token::EndOfFile);
    assert_eq!(tokens[0].1, Span { line: 1, col: 1 });
}

#[test]
fn token_literals_reproduce_the_input() {
    let input = "# a **b** [c](d)\n\t\\!_-.1";
    let mut lexer = Lexer::new(input);
    let tokens = lexer.scan();
    let mut rebuilt = String::new();
    for (token, _) in tokens.iter() {
        rebuilt.push_str(token.literal());
    }
    assert_eq!(rebuilt, input);
}

#[test]
fn token_equality_compares_text_contents() {
    assert_eq!(Token::Text("ab"), Token::Text("ab"));
    assert_ne!(Token::Text("ab"), Token::Text("ac"));
    assert_ne!(Token::Text("#"), Token::Hash);
    assert_eq!(Token::Digit("7"), Token::Digit("7"));
    assert_eq!(Token::Hash, Token::Hash);
    assert_ne!(Token::Star, Token::Underscore);
}

#[test]
fn only_hash_is_block_level() {
    assert!(Token::Hash.is_block_level_token());
    assert!(!Token::Star.is_block_level_token());
    assert!(!Token::Text("x").is_block_level_token());
}

#[test]
fn token_literal_strings() {
    assert_eq!(Token::Hash.literal(), "#");
    assert_eq!(Token::Star.literal(), "*");
    assert_eq!(Token::Bang.literal(), "!");
    assert_eq!(Token::Underscore.literal(), "_");
    assert_eq!(Token::Newline.literal(), "\n");
    assert_eq!(Token::Tab.literal(), "\t");
    assert_eq!(Token::Space.literal(), " ");
    assert_eq!(Token::Dot.literal(), ".");
    assert_eq!(Token::Dash.literal(), "-");
    assert_eq!(Token::Backslash.literal(), "\\");
    assert_eq!(Token::LeftParen.literal(), "(");
    assert_eq!(Token::RightParen.literal(), ")");
    assert_eq!(Token::LeftSquareBracket.literal(), "[");
    assert_eq!(Token::RightSquareBracket.literal(), "]");
    assert_eq!(Token::Digit("3").literal(), "3");
    assert_eq!(Token::Text("abc").literal(), "abc");
    assert_eq!(Token::EndOfFile.literal(), "");
}
