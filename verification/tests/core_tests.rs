use lib::core_types::{ASTNode, NodeKind, ParserState, TokenType, Type};
use lib::parserlearnmaterial::{parse, parse_checked};

fn num(s: &str) -> TokenType {
    TokenType::Number(s.to_string())
}

fn num_node(s: &str) -> ASTNode {
    ASTNode::new(NodeKind::Number(s.to_string()))
}

#[test]
fn test_type_text() {
    assert_eq!(Type::Num.to_text(), "num");
    assert_eq!(Type::Int.to_text(), "int");
    assert_eq!(Type::Flag.to_text(), "flag");
    assert_eq!(Type::Text.to_text(), "text");
    assert_eq!(Type::NoneType.to_text(), "none");
    assert_eq!(Type::Layout("Point".to_string()).to_text(), "layout Point");
    assert_eq!(
        Type::Pointer(Box::new(Type::Array(Box::new(Type::Int), 12))).to_text(),
        "*[int; 12]"
    );
    assert_eq!(Type::Array(Box::new(Type::Num), 0).to_text(), "[num; 0]");
}

#[test]
fn test_type_write_text_appends() {
    let mut out = String::from("t: ");
    Type::Pointer(Box::new(Type::Flag)).write_text(&mut out);
    assert_eq!(out, "t: *flag");
}

#[test]
fn test_parser_state_cursor() {
    let mut st = ParserState::new(vec![TokenType::Slot, TokenType::Identifier("x".to_string())]);
    assert_eq!(st.peek(), Some(&TokenType::Slot));
    assert!(st.check(&TokenType::Slot));
    assert!(!st.check(&TokenType::Emit));
    st.consume(&TokenType::Slot);
    assert!(st.check(&TokenType::Identifier(String::new())));
    assert_eq!(st.advance(), Some(TokenType::Identifier("x".to_string())));
    assert_eq!(st.peek(), None);
    assert_eq!(st.advance(), None);
}

#[test]
fn test_sums_left_associative() {
    let mut st = ParserState::new(vec![num("1.0"), TokenType::Plus, num("2.0"), TokenType::Minus, num("3.0"), num("4.5")]);
    let mut list: Vec<NodeKind> = Vec::new();
    parse(&mut st, &mut list);
    let one_plus_two = NodeKind::BinaryOp {
        left: Box::new(num_node("1.0")),
        op: TokenType::Plus,
        right: Box::new(num_node("2.0")),
    };
    let chain = NodeKind::BinaryOp {
        left: Box::new(ASTNode::new(one_plus_two)),
        op: TokenType::Minus,
        right: Box::new(num_node("3.0")),
    };
    assert_eq!(list, vec![chain, NodeKind::Number("4.5".to_string())]);
    assert_eq!(st.peek(), None);
}

#[test]
fn test_sums_errors() {
    let mut list: Vec<NodeKind> = Vec::new();
    let mut st = ParserState::new(vec![num("1.0"), TokenType::Plus]);
    assert!(!parse_checked(&mut st, &mut list));
    let mut st2 = ParserState::new(vec![TokenType::IntNumber(1)]);
    assert!(!parse_checked(&mut st2, &mut list));
    let mut st3 = ParserState::new(vec![num("1.0"), TokenType::Star, num("2.0")]);
    assert!(!parse_checked(&mut st3, &mut list));
    let mut st4 = ParserState::new(vec![]);
    assert!(parse_checked(&mut st4, &mut list));
}

#[test]
fn test_sums_append_to_list() {
    let mut list: Vec<NodeKind> = vec![NodeKind::Boolean(true)];
    let mut st = ParserState::new(vec![num("7.0")]);
    assert!(parse_checked(&mut st, &mut list));
    assert_eq!(list, vec![NodeKind::Boolean(true), NodeKind::Number("7.0".to_string())]);
}
