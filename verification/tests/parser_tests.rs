use md_parser::ast::Node;
use md_parser::lexer::Lexer;
use md_parser::parser::Parser;

#[test]
fn parse_builds_a_heading_and_a_paragraph() {
    let mut lexer = Lexer::new("## Title\n\nbody");
    let tokens = lexer.scan();
    let mut parser = Parser::new(&tokens);
    let ast = parser.parse();
    assert_eq!(ast.len(), 2);
    match &ast[0] {
        Node::Header(header) => {
            assert_eq!(header.level, 2);
            assert_eq!(header.children.len(), 1);
            assert!(matches!(header.children[0], Node::Text("Title")));
        }
        other => panic!("expected a header, got {:?}", other),
    }
    match &ast[1] {
        Node::Paragraph(paragraph) => {
            assert_eq!(paragraph.children.len(), 1);
            assert!(matches!(paragraph.children[0], Node::Text("body")));
        }
        other => panic!("expected a paragraph, got {:?}", other),
    }
}

#[test]
fn parse_builds_a_link_with_sub_forests() {
    let mut lexer = Lexer::new("[a](b)");
    let tokens = lexer.scan();
    let mut parser = Parser::new(&tokens);
    let ast = parser.parse();
    assert_eq!(ast.len(), 1);
    let Node::Paragraph(paragraph) = &ast[0] else {
        panic!("expected a paragraph");
    };
    assert_eq!(paragraph.children.len(), 1);
    let Node::Link(link) = &paragraph.children[0] else {
        panic!("expected a link");
    };
    assert_eq!(link.children.len(), 1);
    assert!(matches!(link.children[0], Node::Text("a")));
    assert_eq!(link.url.len(), 1);
    assert!(matches!(link.url[0], Node::Text("b")));
}

#[test]
fn parse_builds_strong_emphasis() {
    let mut lexer = Lexer::new("**x**");
    let tokens = lexer.scan();
    let mut parser = Parser::new(&tokens);
    let ast = parser.parse();
    assert_eq!(ast.len(), 1);
    let Node::Paragraph(paragraph) = &ast[0] else {
        panic!("expected a paragraph");
    };
    let Node::Strong(strong) = &paragraph.children[0] else {
        panic!("expected strong emphasis");
    };
    assert_eq!(strong.children.len(), 1);
    assert!(matches!(strong.children[0], Node::Text("x")));
}

#[test]
fn parse_keeps_digit_tokens_as_text_nodes() {
    let mut lexer = Lexer::new("42");
    let tokens = lexer.scan();
    let mut parser = Parser::new(&tokens);
    let ast = parser.parse();
    assert_eq!(ast.len(), 1);
    let Node::Paragraph(paragraph) = &ast[0] else {
        panic!("expected a paragraph");
    };
    assert_eq!(paragraph.children.len(), 2);
    assert!(matches!(paragraph.children[0], Node::Text("4")));
    assert!(matches!(paragraph.children[1], Node::Text("2")));
}

#[test]
fn parse_of_blank_input_is_empty() {
    let mut lexer = Lexer::new("\n\n");
    let tokens = lexer.scan();
    let mut parser = Parser::new(&tokens);
    let ast = parser.parse();
    assert_eq!(ast.len(), 0);
}

#[test]
fn seven_hashes_parse_as_paragraph_text() {
    let mut lexer = Lexer::new("####### x");
    let tokens = lexer.scan();
    let mut parser = Parser::new(&tokens);
    let ast = parser.parse();
    assert_eq!(ast.len(), 1);
    let Node::Paragraph(paragraph) = &ast[0] else {
        panic!("expected a paragraph, not a header");
    };
    assert_eq!(paragraph.children.len(), 9);
    assert!(matches!(paragraph.children[0], Node::Text("#")));
}

#[test]
fn single_newline_parses_as_line_break() {
    let mut lexer = Lexer::new("a\nb");
    let tokens = lexer.scan();
    let mut parser = Parser::new(&tokens);
    let ast = parser.parse();
    assert_eq!(ast.len(), 1);
    let Node::Paragraph(paragraph) = &ast[0] else {
        panic!("expected a paragraph");
    };
    assert_eq!(paragraph.children.len(), 3);
    assert!(matches!(paragraph.children[1], Node::LineBreak));
}
