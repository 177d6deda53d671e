use lib::core_types::{ASTNode, LayoutDef, LayoutField, NodeKind, ProcParam, TokenType, Type};
use lib::lexer::Lexer;
use lib::parser::Parser;

fn parse(src: &str) -> Option<Vec<ASTNode>> {
    let toks = Lexer::new(src).tokenize();
    Parser::new(toks).parse_program_checked()
}

fn expr(src: &str) -> Option<ASTNode> {
    let toks = Lexer::new(src).tokenize();
    Parser::new(toks).parse_expression_checked()
}

fn node(kind: NodeKind) -> ASTNode {
    ASTNode::new(kind)
}

fn int_node(n: i64) -> ASTNode {
    node(NodeKind::IntNumber(n))
}

fn id(s: &str) -> ASTNode {
    node(NodeKind::Identifier(s.to_string()))
}

fn bin(l: ASTNode, op: TokenType, r: ASTNode) -> ASTNode {
    node(NodeKind::BinaryOp { left: Box::new(l), op, right: Box::new(r) })
}

#[test]
fn test_parse_precedence() {
    assert_eq!(
        expr("1 + 2 * 3"),
        Some(bin(int_node(1), TokenType::Plus, bin(int_node(2), TokenType::Star, int_node(3))))
    );
    assert_eq!(
        expr("(1 + 2) * 3"),
        Some(bin(bin(int_node(1), TokenType::Plus, int_node(2)), TokenType::Star, int_node(3)))
    );
}

#[test]
fn test_parse_left_associative() {
    assert_eq!(
        expr("a - b - c"),
        Some(bin(bin(id("a"), TokenType::Minus, id("b")), TokenType::Minus, id("c")))
    );
}

#[test]
fn test_parse_logical_and_comparison_levels() {
    assert_eq!(
        expr("a || b && c == d < e"),
        Some(bin(
            id("a"),
            TokenType::PipePipe,
            bin(
                id("b"),
                TokenType::AmpAmp,
                bin(id("c"), TokenType::EqualEqual, bin(id("d"), TokenType::Less, id("e"))),
            ),
        ))
    );
}

#[test]
fn test_parse_unary_operators() {
    assert_eq!(
        expr("-!x"),
        Some(node(NodeKind::UnaryOp {
            op: TokenType::Minus,
            operand: Box::new(node(NodeKind::UnaryOp { op: TokenType::Bang, operand: Box::new(id("x")) })),
        }))
    );
    assert_eq!(
        expr("*&x"),
        Some(node(NodeKind::Deref(Box::new(node(NodeKind::AddressOf(Box::new(id("x"))))))))
    );
}

#[test]
fn test_parse_postfix_chain() {
    let a_b = node(NodeKind::FieldAccess { object: Box::new(id("a")), field: "b".to_string() });
    let idx = node(NodeKind::ArrayIndex { array: Box::new(a_b), index: Box::new(int_node(1)) });
    let c = node(NodeKind::FieldAccess { object: Box::new(idx), field: "c".to_string() });
    assert_eq!(expr("a.b[1].c"), Some(c));
}

#[test]
fn test_parse_calls_and_literals() {
    assert_eq!(
        expr("f(1, 2,)"),
        Some(node(NodeKind::Call { callee: "f".to_string(), args: vec![int_node(1), int_node(2)] }))
    );
    assert_eq!(expr("g()"), Some(node(NodeKind::Call { callee: "g".to_string(), args: vec![] })));
    assert_eq!(expr("[1, 2]"), Some(node(NodeKind::ArrayLiteral(vec![int_node(1), int_node(2)]))));
    assert_eq!(expr("claim(8)"), Some(node(NodeKind::Claim(Box::new(int_node(8))))));
    assert_eq!(expr("purge(p)"), Some(node(NodeKind::Purge(Box::new(id("p"))))));
    assert_eq!(expr("yes"), Some(node(NodeKind::Boolean(true))));
    assert_eq!(expr("\"hi\""), Some(node(NodeKind::StringLit("hi".to_string()))));
    assert_eq!(expr("2.5"), Some(node(NodeKind::Number("2.5".to_string()))));
}

#[test]
fn test_parse_expression_errors() {
    assert_eq!(expr("1 +"), None);
    assert_eq!(expr("(1"), None);
    assert_eq!(expr("f(1"), None);
    assert_eq!(expr("a."), None);
    assert_eq!(expr("claim 8"), None);
    assert_eq!(expr(";"), None);
}

#[test]
fn test_parse_slot_declarations() {
    let prog = parse("slot x; slot y: int; slot z = 3; slot w: num = 1.5;").unwrap();
    assert_eq!(
        prog,
        vec![
            node(NodeKind::SlotDecl { name: "x".to_string(), slot_type: None, value: None }),
            node(NodeKind::SlotDecl { name: "y".to_string(), slot_type: Some(Type::Int), value: None }),
            node(NodeKind::SlotDecl { name: "z".to_string(), slot_type: None, value: Some(Box::new(int_node(3))) }),
            node(NodeKind::SlotDecl {
                name: "w".to_string(),
                slot_type: Some(Type::Num),
                value: Some(Box::new(node(NodeKind::Number("1.5".to_string())))),
            }),
        ]
    );
}

#[test]
fn test_parse_types() {
    let prog = parse("slot a: *[int; 4]; slot b: layout P; slot c: P; slot d: none;").unwrap();
    let types: Vec<Option<Type>> = prog
        .into_iter()
        .map(|n| match n.kind {
            NodeKind::SlotDecl { slot_type, .. } => slot_type,
            _ => None,
        })
        .collect();
    assert_eq!(
        types,
        vec![
            Some(Type::Pointer(Box::new(Type::Array(Box::new(Type::Int), 4)))),
            Some(Type::Layout("P".to_string())),
            Some(Type::Layout("P".to_string())),
            Some(Type::NoneType),
        ]
    );
}

#[test]
fn test_parse_layout_offsets() {
    let prog = parse("layout P { a: int, b: num, c: text }").unwrap();
    assert_eq!(
        prog,
        vec![node(NodeKind::LayoutDecl(LayoutDef {
            name: "P".to_string(),
            fields: vec![
                LayoutField { name: "a".to_string(), field_type: Type::Int, offset: 0 },
                LayoutField { name: "b".to_string(), field_type: Type::Num, offset: 8 },
                LayoutField { name: "c".to_string(), field_type: Type::Text, offset: 16 },
            ],
            total_size: 24,
        }))]
    );
}

#[test]
fn test_parse_empty_layout() {
    let prog = parse("layout E { }").unwrap();
    assert_eq!(
        prog,
        vec![node(NodeKind::LayoutDecl(LayoutDef { name: "E".to_string(), fields: vec![], total_size: 0 }))]
    );
}

#[test]
fn test_parse_proc_declarations() {
    let prog = parse("proc f(a: int, b: *num) -> flag { yield a; } proc g() { yield; }").unwrap();
    assert_eq!(
        prog,
        vec![
            node(NodeKind::ProcDecl {
                name: "f".to_string(),
                params: vec![
                    ProcParam { name: "a".to_string(), param_type: Type::Int },
                    ProcParam { name: "b".to_string(), param_type: Type::Pointer(Box::new(Type::Num)) },
                ],
                return_type: Type::Flag,
                body: vec![node(NodeKind::Yield(Some(Box::new(id("a")))))],
            }),
            node(NodeKind::ProcDecl {
                name: "g".to_string(),
                params: vec![],
                return_type: Type::NoneType,
                body: vec![node(NodeKind::Yield(None))],
            }),
        ]
    );
}

#[test]
fn test_parse_when_otherwise_chain() {
    let prog = parse("when a { emit 1; } otherwise when b { } otherwise { }").unwrap();
    let inner = node(NodeKind::When { condition: Box::new(id("b")), then_branch: vec![], else_branch: Some(vec![]) });
    assert_eq!(
        prog,
        vec![node(NodeKind::When {
            condition: Box::new(id("a")),
            then_branch: vec![node(NodeKind::Emit(Box::new(int_node(1))))],
            else_branch: Some(vec![inner]),
        })]
    );
}

#[test]
fn test_parse_during_block_and_assignment() {
    let prog = parse("during x < 3 { x = x + 1; } { f(); }").unwrap();
    assert_eq!(
        prog,
        vec![
            node(NodeKind::During {
                condition: Box::new(bin(id("x"), TokenType::Less, int_node(3))),
                body: vec![node(NodeKind::Assignment {
                    target: Box::new(id("x")),
                    value: Box::new(bin(id("x"), TokenType::Plus, int_node(1))),
                })],
            }),
            node(NodeKind::Block(vec![node(NodeKind::ExprStatement(Box::new(node(NodeKind::Call {
                callee: "f".to_string(),
                args: vec![],
            }))))])),
        ]
    );
}

#[test]
fn test_parse_program_stops_at_eof() {
    let toks = vec![
        TokenType::Identifier("x".to_string()),
        TokenType::Semicolon,
        TokenType::Eof,
        TokenType::Identifier("y".to_string()),
    ];
    let prog = Parser::new(toks).parse_program_checked().unwrap();
    assert_eq!(prog, vec![node(NodeKind::ExprStatement(Box::new(id("x"))))]);
}

#[test]
fn test_parse_program_without_eof() {
    let toks = vec![TokenType::Emit, TokenType::IntNumber(1), TokenType::Semicolon];
    let prog = Parser::new(toks).parse_program();
    assert_eq!(prog, vec![node(NodeKind::Emit(Box::new(int_node(1))))]);
}

#[test]
fn test_parse_empty_program() {
    assert_eq!(parse(""), Some(vec![]));
}

#[test]
fn test_parse_statement_errors() {
    assert_eq!(parse("slot ;"), None);
    assert_eq!(parse("{ emit 1;"), None);
    assert_eq!(parse("emit 1"), None);
    assert_eq!(parse("layout P { x int }"), None);
    assert_eq!(parse("proc f(a) { }"), None);
    assert_eq!(parse("when x emit 1;"), None);
    assert_eq!(parse("slot a: [int 4];"), None);
    assert_eq!(parse("x = ;"), None);
}

#[test]
fn test_parse_expression_public() {
    let toks = Lexer::new("1 + 2").tokenize();
    let mut p = Parser::new(toks);
    assert_eq!(p.parse_expression(), bin(int_node(1), TokenType::Plus, int_node(2)));
}

#[test]
fn test_parse_layout_decl_public() {
    let toks = vec![
        TokenType::Layout,
        TokenType::Identifier("P".to_string()),
        TokenType::LeftBrace,
        TokenType::Identifier("x".to_string()),
        TokenType::Colon,
        TokenType::TypeInt,
        TokenType::Identifier("y".to_string()),
        TokenType::Colon,
        TokenType::TypeNum,
        TokenType::RightBrace,
    ];
    let n = Parser::new(toks).parse_layout_decl().unwrap();
    assert_eq!(
        n,
        node(NodeKind::LayoutDecl(LayoutDef {
            name: "P".to_string(),
            fields: vec![
                LayoutField { name: "x".to_string(), field_type: Type::Int, offset: 0 },
                LayoutField { name: "y".to_string(), field_type: Type::Num, offset: 8 },
            ],
            total_size: 16,
        }))
    );
}

#[test]
fn test_clone_nodes() {
    let prog = parse("proc f(a: *int) -> flag { when a[0] < 2 { yield yes; } } slot s: layout P = f(claim(8));").unwrap();
    let copy: Vec<ASTNode> = prog.iter().map(|n| n.clone()).collect();
    assert_eq!(copy, prog);
    let k = prog[0].kind.clone();
    assert_eq!(node(k), prog[0]);
}
