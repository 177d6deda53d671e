//! The parser: tokens to a syntax tree, by recursive descent.
use vstd::prelude::*;
use crate::core_types::{
    ASTNode, FieldV, LayoutDef, LayoutField, LayoutV, Node, NodeKind, ParamV, ParserState,
    ProcParam, Tok, TokenType, Ty, Type, fields_view, lemma_nodes_view_push, lemma_same_kind,
    nodes_view, params_view, tok_kind, toks_view,
};

verus! {

// ---------------------------------------------------------------------------
// The grammar
// ---------------------------------------------------------------------------
//
// Each `p_*` function reads from position `p` of `toks` and gives the tree it reads and the
// position after it, or `None` where the tokens do not fit the grammar there. Where reading
// goes on after a part, the definitions ask that the part moved forward (`fwd`), so that each
// is well founded; the parse methods, whose contracts say that they always move forward when
// they succeed, show that this never cuts a parse short.

/// The token at `p`, if any.
pub open spec fn at(toks: Seq<Tok>, p: int) -> Option<Tok> {
    if 0 <= p < toks.len() {
        Some(toks[p])
    } else {
        None
    }
}

/// Whether the token at `p` is `t`.
pub open spec fn is_at(toks: Seq<Tok>, p: int, t: Tok) -> bool {
    0 <= p < toks.len() && toks[p] == t
}

/// Whether `q` lies strictly after `p` and within the tokens.
pub open spec fn fwd(toks: Seq<Tok>, p: int, q: int) -> bool {
    p < q <= toks.len()
}

/// The position after an optional comma at `q`.
pub open spec fn skip_comma(toks: Seq<Tok>, q: int) -> int {
    if is_at(toks, q, Tok::Comma) {
        q + 1
    } else {
        q
    }
}

/// A type: `num`, `int`, `flag`, `text`, `none`, `*T`, `[T; n]`, `layout Name` or `Name`.
pub open spec fn p_type(toks: Seq<Tok>, p: int) -> Option<(Ty, int)>
    decreases toks.len() - p,
{
    match at(toks, p) {
        Some(Tok::TypeNum) => Some((Ty::Num, p + 1)),
        Some(Tok::TypeInt) => Some((Ty::Int, p + 1)),
        Some(Tok::TypeFlag) => Some((Ty::Flag, p + 1)),
        Some(Tok::TypeText) => Some((Ty::Text, p + 1)),
        Some(Tok::TypeNone) => Some((Ty::NoneType, p + 1)),
        Some(Tok::Star) => match p_type(toks, p + 1) {
            Some((t, q)) => Some((Ty::Pointer(Box::new(t)), q)),
            None => None,
        },
        Some(Tok::LeftBracket) => match p_type(toks, p + 1) {
            Some((t, q)) => if is_at(toks, q, Tok::Semicolon) && is_at(toks, q + 2, Tok::RightBracket) {
                match at(toks, q + 1) {
                    Some(Tok::IntNumber(n)) => Some((Ty::Array(Box::new(t), n as usize), q + 3)),
                    _ => None,
                }
            } else {
                None
            },
            None => None,
        },
        Some(Tok::Layout) => match at(toks, p + 1) {
            Some(Tok::Identifier(name)) => Some((Ty::Layout(name), p + 2)),
            _ => None,
        },
        Some(Tok::Identifier(name)) => Some((Ty::Layout(name), p + 1)),
        _ => None,
    }
}

/// The operators of a binary precedence level: 1 multiplicative, 2 additive, 3 relational,
/// 4 equality, 5 logical and, 6 logical or.
pub open spec fn level_op(level: nat, t: Tok) -> bool {
    if level == 1 {
        t == Tok::Star || t == Tok::Slash || t == Tok::Percent
    } else if level == 2 {
        t == Tok::Plus || t == Tok::Minus
    } else if level == 3 {
        t == Tok::Less || t == Tok::LessEqual || t == Tok::Greater || t == Tok::GreaterEqual
    } else if level == 4 {
        t == Tok::EqualEqual || t == Tok::BangEqual
    } else if level == 5 {
        t == Tok::AmpAmp
    } else {
        t == Tok::PipePipe
    }
}

pub open spec fn bin(left: Node, op: Tok, right: Node) -> Node {
    Node::BinaryOp { left: Box::new(left), op, right: Box::new(right) }
}

// In the mutually recursive definitions below, the second component of each `decreases`
// orders the functions that call one another at the same position.

/// An expression: a logical `or`, the loosest level.
pub open spec fn p_expr(toks: Seq<Tok>, p: int) -> Option<(Node, int)>
    decreases toks.len() - p, 18nat,
{
    p_binary(toks, p, 6)
}

/// An operand of `level`: the next tighter level, or a unary expression below level 2.
pub open spec fn p_operand(toks: Seq<Tok>, p: int, level: nat) -> Option<(Node, int)>
    decreases toks.len() - p, 2 * level + 4,
{
    if level <= 1 {
        p_unary(toks, p)
    } else {
        p_binary(toks, p, (level - 1) as nat)
    }
}

/// The operands of `level` joined by its operators, to the left.
pub open spec fn p_binary(toks: Seq<Tok>, p: int, level: nat) -> Option<(Node, int)>
    decreases toks.len() - p, 2 * level + 5,
{
    match p_operand(toks, p, level) {
        Some((left, q)) => if fwd(toks, p, q) {
            binary_rest(toks, q, level, left)
        } else {
            None
        },
        None => None,
    }
}

/// Given `left`, the rest of a chain of the operators of `level`.
pub open spec fn binary_rest(toks: Seq<Tok>, q: int, level: nat, left: Node) -> Option<(Node, int)>
    decreases toks.len() - q, 0nat,
{
    if 0 <= q < toks.len() && level_op(level, toks[q]) {
        match p_operand(toks, q + 1, level) {
            Some((right, q2)) => if fwd(toks, q, q2) {
                binary_rest(toks, q2, level, bin(left, toks[q], right))
            } else {
                None
            },
            None => None,
        }
    } else {
        Some((left, q))
    }
}

/// A unary expression: `!`, `-`, `&` or `*` before a unary expression, or a postfix one.
pub open spec fn p_unary(toks: Seq<Tok>, p: int) -> Option<(Node, int)>
    decreases toks.len() - p, 3nat,
{
    match at(toks, p) {
        Some(Tok::Bang) | Some(Tok::Minus) => match p_unary(toks, p + 1) {
            Some((e, q)) => Some((Node::UnaryOp { op: toks[p], operand: Box::new(e) }, q)),
            None => None,
        },
        Some(Tok::Ampersand) => match p_unary(toks, p + 1) {
            Some((e, q)) => Some((Node::AddressOf(Box::new(e)), q)),
            None => None,
        },
        Some(Tok::Star) => match p_unary(toks, p + 1) {
            Some((e, q)) => Some((Node::Deref(Box::new(e)), q)),
            None => None,
        },
        _ => p_postfix(toks, p),
    }
}

/// A primary expression followed by field accesses `.f` and indexings `[e]`.
pub open spec fn p_postfix(toks: Seq<Tok>, p: int) -> Option<(Node, int)>
    decreases toks.len() - p, 2nat,
{
    match p_primary(toks, p) {
        Some((e, q)) => if fwd(toks, p, q) {
            postfix_rest(toks, q, e)
        } else {
            None
        },
        None => None,
    }
}

/// Given `e`, the rest of a chain of field accesses and indexings.
pub open spec fn postfix_rest(toks: Seq<Tok>, q: int, e: Node) -> Option<(Node, int)>
    decreases toks.len() - q, 0nat,
{
    match at(toks, q) {
        Some(Tok::Dot) => match at(toks, q + 1) {
            Some(Tok::Identifier(f)) => postfix_rest(
                toks,
                q + 2,
                Node::FieldAccess { object: Box::new(e), field: f },
            ),
            _ => None,
        },
        Some(Tok::LeftBracket) => match p_closed_by(toks, q + 1, Tok::RightBracket) {
            Some((i, q2)) => if fwd(toks, q, q2) {
                postfix_rest(toks, q2, Node::ArrayIndex { array: Box::new(e), index: Box::new(i) })
            } else {
                None
            },
            None => None,
        },
        _ => Some((e, q)),
    }
}

/// An expression followed by the token `close`.
pub open spec fn p_closed_by(toks: Seq<Tok>, q: int, close: Tok) -> Option<(Node, int)>
    decreases toks.len() - q, 19nat,
{
    match p_expr(toks, q) {
        Some((e, q2)) => if is_at(toks, q2, close) {
            Some((e, q2 + 1))
        } else {
            None
        },
        None => None,
    }
}

/// Given the elements `acc` read so far, the rest of a list of expressions up to and
/// including `close`; an element may be followed by a comma.
pub open spec fn p_list(toks: Seq<Tok>, q: int, close: Tok, acc: Seq<Node>) -> Option<(Seq<Node>, int)>
    decreases toks.len() - q, 19nat,
{
    if is_at(toks, q, close) {
        Some((acc, q + 1))
    } else {
        match p_expr(toks, q) {
            Some((e, q2)) => {
                let q3 = skip_comma(toks, q2);
                if fwd(toks, q, q3) {
                    p_list(toks, q3, close, acc.push(e))
                } else {
                    None
                }
            },
            None => None,
        }
    }
}

/// A primary expression: a literal, `claim(e)`, `purge(e)`, a call, a variable, an expression
/// in parentheses, or an array literal.
pub open spec fn p_primary(toks: Seq<Tok>, p: int) -> Option<(Node, int)>
    decreases toks.len() - p, 1nat,
{
    match at(toks, p) {
        Some(Tok::Number(t)) => Some((Node::Number(t), p + 1)),
        Some(Tok::IntNumber(n)) => Some((Node::IntNumber(n), p + 1)),
        Some(Tok::StringLit(s)) => Some((Node::StringLit(s), p + 1)),
        Some(Tok::Yes) => Some((Node::Boolean(true), p + 1)),
        Some(Tok::No) => Some((Node::Boolean(false), p + 1)),
        Some(Tok::Claim) => if is_at(toks, p + 1, Tok::LeftParen) {
            match p_closed_by(toks, p + 2, Tok::RightParen) {
                Some((e, q)) => Some((Node::Claim(Box::new(e)), q)),
                None => None,
            }
        } else {
            None
        },
        Some(Tok::Purge) => if is_at(toks, p + 1, Tok::LeftParen) {
            match p_closed_by(toks, p + 2, Tok::RightParen) {
                Some((e, q)) => Some((Node::Purge(Box::new(e)), q)),
                None => None,
            }
        } else {
            None
        },
        Some(Tok::Identifier(name)) => if is_at(toks, p + 1, Tok::LeftParen) {
            match p_list(toks, p + 2, Tok::RightParen, Seq::empty()) {
                Some((args, q)) => Some((Node::Call { callee: name, args }, q)),
                None => None,
            }
        } else {
            Some((Node::Identifier(name), p + 1))
        },
        Some(Tok::LeftParen) => p_closed_by(toks, p + 1, Tok::RightParen),
        Some(Tok::LeftBracket) => match p_list(toks, p + 1, Tok::RightBracket, Seq::empty()) {
            Some((elems, q)) => Some((Node::ArrayLiteral(elems), q)),
            None => None,
        },
        _ => None,
    }
}

/// Given the fields read so far and the offset of the next one, the rest of a layout's fields
/// `name: type`, each may be followed by a comma, up to and including `}`: the fields, the
/// total size and the position after `}`. Each field takes eight bytes.
pub open spec fn fields_rest(toks: Seq<Tok>, q: int, acc: Seq<FieldV>, offset: int) -> Option<
    (Seq<FieldV>, int, int),
>
    decreases toks.len() - q,
{
    if is_at(toks, q, Tok::RightBrace) {
        Some((acc, offset, q + 1))
    } else {
        match at(toks, q) {
            Some(Tok::Identifier(name)) => if is_at(toks, q + 1, Tok::Colon) {
                match p_type(toks, q + 2) {
                    Some((t, q2)) => {
                        let q3 = skip_comma(toks, q2);
                        if 0 <= offset && offset + 8 <= usize::MAX && fwd(toks, q, q3) {
                            fields_rest(
                                toks,
                                q3,
                                acc.push(FieldV { name, field_type: t, offset: offset as usize }),
                                offset + 8,
                            )
                        } else {
                            None
                        }
                    },
                    None => None,
                }
            } else {
                None
            },
            _ => None,
        }
    }
}

/// A layout declaration `layout Name { fields }`.
pub open spec fn p_layout(toks: Seq<Tok>, p: int) -> Option<(Node, int)> {
    if is_at(toks, p, Tok::Layout) && is_at(toks, p + 2, Tok::LeftBrace) {
        match at(toks, p + 1) {
            Some(Tok::Identifier(name)) => match fields_rest(toks, p + 3, Seq::empty(), 0) {
                Some((fields, total, q)) => Some(
                    (Node::LayoutDecl(LayoutV { name, fields, total_size: total as usize }), q),
                ),
                None => None,
            },
            _ => None,
        }
    } else {
        None
    }
}

/// Given the parameters read so far, the rest of a parameter list `name: type`, each may be
/// followed by a comma, up to and including `)`.
pub open spec fn params_rest(toks: Seq<Tok>, q: int, acc: Seq<ParamV>) -> Option<(Seq<ParamV>, int)>
    decreases toks.len() - q,
{
    if is_at(toks, q, Tok::RightParen) {
        Some((acc, q + 1))
    } else {
        match at(toks, q) {
            Some(Tok::Identifier(name)) => if is_at(toks, q + 1, Tok::Colon) {
                match p_type(toks, q + 2) {
                    Some((t, q2)) => {
                        let q3 = skip_comma(toks, q2);
                        if fwd(toks, q, q3) {
                            params_rest(toks, q3, acc.push(ParamV { name, param_type: t }))
                        } else {
                            None
                        }
                    },
                    None => None,
                }
            } else {
                None
            },
            _ => None,
        }
    }
}

/// An optional `-> type` at `q`; `none` where it is absent.
pub open spec fn return_type(toks: Seq<Tok>, q: int) -> Option<(Ty, int)> {
    if is_at(toks, q, Tok::Arrow) {
        p_type(toks, q + 1)
    } else {
        Some((Ty::NoneType, q))
    }
}

/// An optional `: type` at `q`.
pub open spec fn slot_type_part(toks: Seq<Tok>, q: int) -> Option<(Option<Ty>, int)> {
    if is_at(toks, q, Tok::Colon) {
        match p_type(toks, q + 1) {
            Some((t, q2)) => Some((Some(t), q2)),
            None => None,
        }
    } else {
        Some((None, q))
    }
}

/// An optional `= expression` at `q`.
pub open spec fn slot_value(toks: Seq<Tok>, q: int) -> Option<(Option<Box<Node>>, int)>
    decreases toks.len() - q, 0nat,
{
    if is_at(toks, q, Tok::Equal) {
        match p_expr(toks, q + 1) {
            Some((e, q2)) => Some((Some(Box::new(e)), q2)),
            None => None,
        }
    } else {
        Some((None, q))
    }
}

/// A procedure declaration `proc name(params) -> type { body }`; without `-> type` it
/// returns `none`.
pub open spec fn p_proc(toks: Seq<Tok>, p: int) -> Option<(Node, int)>
    decreases toks.len() - p, 0nat,
{
    if is_at(toks, p, Tok::Proc) && is_at(toks, p + 2, Tok::LeftParen) {
        match at(toks, p + 1) {
            Some(Tok::Identifier(name)) => match params_rest(toks, p + 3, Seq::empty()) {
                Some((params, q)) => match return_type(toks, q) {
                    Some((rt, q2)) => if fwd(toks, p, q2) {
                        match p_block(toks, q2) {
                            Some((body, q3)) => Some(
                                (Node::ProcDecl { name, params, return_type: rt, body }, q3),
                            ),
                            None => None,
                        }
                    } else {
                        None
                    },
                    None => None,
                },
                None => None,
            },
            _ => None,
        }
    } else {
        None
    }
}

/// A variable declaration `slot name: type = value;`, where the type and the value may each
/// be left out.
pub open spec fn p_slot(toks: Seq<Tok>, p: int) -> Option<(Node, int)>
    decreases toks.len() - p, 0nat,
{
    if is_at(toks, p, Tok::Slot) {
        match at(toks, p + 1) {
            Some(Tok::Identifier(name)) => match slot_type_part(toks, p + 2) {
                Some((slot_type, q)) => if fwd(toks, p, q) {
                    match slot_value(toks, q) {
                        Some((value, q2)) => if is_at(toks, q2, Tok::Semicolon) {
                            Some((Node::SlotDecl { name, slot_type, value }, q2 + 1))
                        } else {
                            None
                        },
                        None => None,
                    }
                } else {
                    None
                },
                None => None,
            },
            _ => None,
        }
    } else {
        None
    }
}

/// An output statement `emit e;`.
pub open spec fn p_emit(toks: Seq<Tok>, p: int) -> Option<(Node, int)>
    decreases toks.len() - p, 0nat,
{
    if is_at(toks, p, Tok::Emit) {
        match p_closed_by(toks, p + 1, Tok::Semicolon) {
            Some((e, q)) => Some((Node::Emit(Box::new(e)), q)),
            None => None,
        }
    } else {
        None
    }
}

/// A conditional `when c { .. }`, optionally followed by `otherwise { .. }` or by
/// `otherwise when ..`, which stands as the only statement of the else branch.
pub open spec fn p_when(toks: Seq<Tok>, p: int) -> Option<(Node, int)>
    decreases toks.len() - p, 0nat,
{
    if is_at(toks, p, Tok::When) {
        match p_expr(toks, p + 1) {
            Some((c, q)) => if fwd(toks, p, q) {
                match p_block(toks, q) {
                    Some((then_branch, q2)) => if fwd(toks, p, q2) {
                        match when_else(toks, q2) {
                            Some((else_branch, q3)) => Some(
                                (
                                    Node::When { condition: Box::new(c), then_branch, else_branch },
                                    q3,
                                ),
                            ),
                            None => None,
                        }
                    } else {
                        None
                    },
                    None => None,
                }
            } else {
                None
            },
            None => None,
        }
    } else {
        None
    }
}

/// The optional else branch of a conditional, at `q`.
pub open spec fn when_else(toks: Seq<Tok>, q: int) -> Option<(Option<Seq<Node>>, int)>
    decreases toks.len() - q, 0nat,
{
    if is_at(toks, q, Tok::Otherwise) {
        if is_at(toks, q + 1, Tok::When) {
            match p_when(toks, q + 1) {
                Some((w, q2)) => Some((Some(seq![w]), q2)),
                None => None,
            }
        } else {
            match p_block(toks, q + 1) {
                Some((b, q2)) => Some((Some(b), q2)),
                None => None,
            }
        }
    } else {
        Some((None, q))
    }
}

/// A loop `during c { .. }`.
pub open spec fn p_during(toks: Seq<Tok>, p: int) -> Option<(Node, int)>
    decreases toks.len() - p, 0nat,
{
    if is_at(toks, p, Tok::During) {
        match p_expr(toks, p + 1) {
            Some((c, q)) => if fwd(toks, p, q) {
                match p_block(toks, q) {
                    Some((body, q2)) => Some((Node::During { condition: Box::new(c), body }, q2)),
                    None => None,
                }
            } else {
                None
            },
            None => None,
        }
    } else {
        None
    }
}

/// A return statement `yield;` or `yield e;`.
pub open spec fn p_yield(toks: Seq<Tok>, p: int) -> Option<(Node, int)>
    decreases toks.len() - p, 0nat,
{
    if is_at(toks, p, Tok::Yield) {
        if is_at(toks, p + 1, Tok::Semicolon) {
            Some((Node::Yield(None), p + 2))
        } else {
            match p_closed_by(toks, p + 1, Tok::Semicolon) {
                Some((e, q)) => Some((Node::Yield(Some(Box::new(e))), q)),
                None => None,
            }
        }
    } else {
        None
    }
}

/// An assignment `target = value;` or an expression statement `e;`.
pub open spec fn p_assign(toks: Seq<Tok>, p: int) -> Option<(Node, int)>
    decreases toks.len() - p, 19nat,
{
    match p_expr(toks, p) {
        Some((e, q)) => if fwd(toks, p, q) {
            if is_at(toks, q, Tok::Equal) {
                match p_closed_by(toks, q + 1, Tok::Semicolon) {
                    Some((v, q2)) => Some(
                        (Node::Assignment { target: Box::new(e), value: Box::new(v) }, q2),
                    ),
                    None => None,
                }
            } else if is_at(toks, q, Tok::Semicolon) {
                Some((Node::ExprStatement(Box::new(e)), q + 1))
            } else {
                None
            }
        } else {
            None
        },
        None => None,
    }
}

/// A block `{ statements }`: the statements and the position after `}`.
pub open spec fn p_block(toks: Seq<Tok>, p: int) -> Option<(Seq<Node>, int)>
    decreases toks.len() - p, 0nat,
{
    if is_at(toks, p, Tok::LeftBrace) {
        block_rest(toks, p + 1, Seq::empty())
    } else {
        None
    }
}

/// Given the statements `acc` read so far, the rest of a block up to and including `}`.
pub open spec fn block_rest(toks: Seq<Tok>, q: int, acc: Seq<Node>) -> Option<(Seq<Node>, int)>
    decreases toks.len() - q, 21nat,
{
    if is_at(toks, q, Tok::RightBrace) {
        Some((acc, q + 1))
    } else if 0 <= q < toks.len() {
        match p_decl(toks, q) {
            Some((s, q2)) => if fwd(toks, q, q2) {
                block_rest(toks, q2, acc.push(s))
            } else {
                None
            },
            None => None,
        }
    } else {
        None
    }
}

/// A declaration or a statement, chosen by its first token.
pub open spec fn p_decl(toks: Seq<Tok>, p: int) -> Option<(Node, int)>
    decreases toks.len() - p, 20nat,
{
    match at(toks, p) {
        Some(Tok::Layout) => p_layout(toks, p),
        Some(Tok::Proc) => p_proc(toks, p),
        Some(Tok::Slot) => p_slot(toks, p),
        Some(Tok::Emit) => p_emit(toks, p),
        Some(Tok::When) => p_when(toks, p),
        Some(Tok::During) => p_during(toks, p),
        Some(Tok::Yield) => p_yield(toks, p),
        Some(Tok::LeftBrace) => match p_block(toks, p) {
            Some((b, q)) => Some((Node::Block(b), q)),
            None => None,
        },
        _ => p_assign(toks, p),
    }
}

/// Given the nodes `acc` read so far, the rest of a program: declarations and statements up
/// to the end of the tokens or an end-of-input token, and the position where it stops.
pub open spec fn program_rest(toks: Seq<Tok>, q: int, acc: Seq<Node>) -> Option<(Seq<Node>, int)>
    decreases toks.len() - q,
{
    if q >= toks.len() || is_at(toks, q, Tok::Eof) {
        Some((acc, q))
    } else {
        match p_decl(toks, q) {
            Some((s, q2)) => if fwd(toks, q, q2) {
                program_rest(toks, q2, acc.push(s))
            } else {
                None
            },
            None => None,
        }
    }
}

/// The program read from position `p`: its nodes and the position where reading stops, or
/// `None` where the tokens are not a program.
pub open spec fn program(toks: Seq<Tok>, p: int) -> Option<(Seq<Node>, int)> {
    program_rest(toks, p, Seq::empty())
}


// ---------------------------------------------------------------------------
// Laws of the grammar
// ---------------------------------------------------------------------------

proof fn lemma_program_rest_stops(toks: Seq<Tok>, q: int, acc: Seq<Node>)
    requires
        program_rest(toks, q, acc) is Some,
    ensures
        ({
            let e = (program_rest(toks, q, acc)->0).1;
            e >= toks.len() || is_at(toks, e, Tok::Eof)
        }),
    decreases toks.len() - q,
{
    if !(q >= toks.len() || is_at(toks, q, Tok::Eof)) {
        let (s, q2) = p_decl(toks, q)->0;
        lemma_program_rest_stops(toks, q2, acc.push(s));
    }
}

/// Reading a program stops only at the end of the tokens or at an end-of-input token.
pub proof fn lemma_program_stops_at_end(toks: Seq<Tok>, p: int)
    requires
        program(toks, p) is Some,
    ensures
        ({
            let e = (program(toks, p)->0).1;
            e >= toks.len() || is_at(toks, e, Tok::Eof)
        }),
{
    lemma_program_rest_stops(toks, p, Seq::empty());
}

proof fn lemma_fields_rest_offsets(toks: Seq<Tok>, q: int, acc: Seq<FieldV>, offset: int)
    requires
        fields_rest(toks, q, acc, offset) is Some,
        offset == 8 * acc.len(),
        offset <= usize::MAX,
        forall|i: int| 0 <= i < acc.len() ==> acc[i].offset == 8 * i,
    ensures
        ({
            let (fields, total, _) = fields_rest(toks, q, acc, offset)->0;
            &&& total == 8 * fields.len()
            &&& total <= usize::MAX
            &&& forall|i: int| 0 <= i < fields.len() ==> fields[i].offset == 8 * i
        }),
    decreases toks.len() - q,
{
    if !is_at(toks, q, Tok::RightBrace) {
        let name = toks[q]->Identifier_0;
        let (t, q2) = p_type(toks, q + 2)->0;
        let q3 = skip_comma(toks, q2);
        let next = acc.push(FieldV { name, field_type: t, offset: offset as usize });
        lemma_fields_rest_offsets(toks, q3, next, offset + 8);
    }
}

/// In a layout declaration, field `i` lies at byte offset `8 * i`, and the layout's size is
/// eight bytes per field.
pub proof fn lemma_layout_offsets(toks: Seq<Tok>, p: int)
    requires
        p_layout(toks, p) is Some,
    ensures
        (p_layout(toks, p)->0).0 matches Node::LayoutDecl(l) && l.total_size == 8 * l.fields.len()
            && forall|i: int| 0 <= i < l.fields.len() ==> l.fields[i].offset == 8 * i,
{
    lemma_fields_rest_offsets(toks, p + 3, Seq::empty(), 0);
}

/// Whether `t` is a token that is by itself a whole primary expression: a literal or a name.
pub open spec fn is_atom(t: Tok) -> bool {
    t is Number || t is IntNumber || t is StringLit || t is Identifier || t is Yes || t is No
}

/// The node of an atom.
pub open spec fn atom_node(t: Tok) -> Node {
    match t {
        Tok::Number(x) => Node::Number(x),
        Tok::IntNumber(n) => Node::IntNumber(n),
        Tok::StringLit(x) => Node::StringLit(x),
        Tok::Identifier(x) => Node::Identifier(x),
        Tok::Yes => Node::Boolean(true),
        _ => Node::Boolean(false),
    }
}

/// The multiplicative operators.
pub open spec fn is_mul_op(t: Tok) -> bool {
    t == Tok::Star || t == Tok::Slash || t == Tok::Percent
}

/// The additive operators.
pub open spec fn is_add_op(t: Tok) -> bool {
    t == Tok::Plus || t == Tok::Minus
}

proof fn lemma_unary_atom(toks: Seq<Tok>, p: int)
    requires
        0 <= p < toks.len(),
        is_atom(toks[p]),
        p + 1 == toks.len() || is_mul_op(toks[p + 1]) || is_add_op(toks[p + 1]),
    ensures
        p_unary(toks, p) == Some((atom_node(toks[p]), p + 1)),
{
    assert(at(toks, p) == Some(toks[p]));
    if p + 1 < toks.len() {
        assert(!is_at(toks, p + 1, Tok::LeftParen));
        assert(at(toks, p + 1) == Some(toks[p + 1]));
    }
    assert(p_primary(toks, p) == Some((atom_node(toks[p]), p + 1)));
    assert(postfix_rest(toks, p + 1, atom_node(toks[p])) == Some((atom_node(toks[p]), p + 1)));
    assert(p_postfix(toks, p) == Some((atom_node(toks[p]), p + 1)));
}

proof fn lemma_binary_lift(toks: Seq<Tok>, p: int, level: nat, e: Node)
    requires
        1 <= level <= 6,
        p_binary(toks, p, level) == Some((e, toks.len() as int)),
        p < toks.len(),
    ensures
        p_binary(toks, p, 6) == Some((e, toks.len() as int)),
    decreases 6 - level,
{
    if level < 6 {
        let l2 = (level + 1) as nat;
        assert(p_operand(toks, p, l2) == p_binary(toks, p, level));
        assert(binary_rest(toks, toks.len() as int, l2, e) == Some((e, toks.len() as int)));
        lemma_binary_lift(toks, p, l2, e);
    }
}

/// Multiplicative operators bind tighter than additive ones, on either side: for any atoms
/// `x`, `y`, `z`, any additive operator `a` and any multiplicative operator `m`, the
/// expression `x a y m z` reads as `x a (y m z)` and `x m y a z` as `(x m y) a z`.
pub proof fn lemma_mul_binds_tighter(x: Tok, a: Tok, y: Tok, m: Tok, z: Tok)
    requires
        is_atom(x),
        is_atom(y),
        is_atom(z),
        is_add_op(a),
        is_mul_op(m),
    ensures
        p_expr(seq![x, a, y, m, z], 0) == Some(
            (bin(atom_node(x), a, bin(atom_node(y), m, atom_node(z))), 5int),
        ),
        p_expr(seq![x, m, y, a, z], 0) == Some(
            (bin(bin(atom_node(x), m, atom_node(y)), a, atom_node(z)), 5int),
        ),
{
    let t1 = seq![x, a, y, m, z];
    lemma_unary_atom(t1, 0);
    assert(p_operand(t1, 0, 1) == p_unary(t1, 0));
    assert(p_operand(t1, 0, 2) == p_binary(t1, 0, 1));
    lemma_unary_atom(t1, 2);
    assert(p_operand(t1, 2, 1) == p_unary(t1, 2));
    assert(p_operand(t1, 2, 2) == p_binary(t1, 2, 1));
    lemma_unary_atom(t1, 4);
    assert(p_operand(t1, 4, 1) == p_unary(t1, 4));
    assert(p_operand(t1, 4, 2) == p_binary(t1, 4, 1));
    let yz = bin(atom_node(y), m, atom_node(z));
    assert(binary_rest(t1, 5, 1, yz) == Some((yz, 5int)));
    assert(binary_rest(t1, 3, 1, atom_node(y)) == Some((yz, 5int)));
    assert(p_binary(t1, 2, 1) == Some((yz, 5int)));
    assert(binary_rest(t1, 1, 1, atom_node(x)) == Some((atom_node(x), 1int)));
    assert(p_binary(t1, 0, 1) == Some((atom_node(x), 1int)));
    let e1 = bin(atom_node(x), a, yz);
    assert(binary_rest(t1, 5, 2, e1) == Some((e1, 5int)));
    assert(binary_rest(t1, 1, 2, atom_node(x)) == Some((e1, 5int)));
    assert(p_binary(t1, 0, 2) == Some((e1, 5int)));
    lemma_binary_lift(t1, 0, 2, e1);
    let t2 = seq![x, m, y, a, z];
    lemma_unary_atom(t2, 0);
    assert(p_operand(t2, 0, 1) == p_unary(t2, 0));
    assert(p_operand(t2, 0, 2) == p_binary(t2, 0, 1));
    lemma_unary_atom(t2, 2);
    assert(p_operand(t2, 2, 1) == p_unary(t2, 2));
    assert(p_operand(t2, 2, 2) == p_binary(t2, 2, 1));
    lemma_unary_atom(t2, 4);
    assert(p_operand(t2, 4, 1) == p_unary(t2, 4));
    assert(p_operand(t2, 4, 2) == p_binary(t2, 4, 1));
    let xy = bin(atom_node(x), m, atom_node(y));
    assert(binary_rest(t2, 3, 1, xy) == Some((xy, 3int)));
    assert(binary_rest(t2, 1, 1, atom_node(x)) == Some((xy, 3int)));
    assert(p_binary(t2, 0, 1) == Some((xy, 3int)));
    assert(binary_rest(t2, 5, 1, atom_node(z)) == Some((atom_node(z), 5int)));
    assert(p_binary(t2, 4, 1) == Some((atom_node(z), 5int)));
    let e2 = bin(xy, a, atom_node(z));
    assert(binary_rest(t2, 5, 2, e2) == Some((e2, 5int)));
    assert(binary_rest(t2, 3, 2, xy) == Some((e2, 5int)));
    assert(p_binary(t2, 0, 2) == Some((e2, 5int)));
    lemma_binary_lift(t2, 0, 2, e2);
}

// ---------------------------------------------------------------------------
// The parser
// ---------------------------------------------------------------------------

/// The outcome of a parse method agrees with the grammar's result `res` at its start: the
/// node it returns is the one the grammar reads and the cursor stands after it, or it
/// returns nothing where the grammar fails.
pub open spec fn parsed(res: Option<(Node, int)>, r: Option<ASTNode>, q_final: int) -> bool {
    match res {
        Some((n, q)) => r matches Some(x) && x@ == n && q_final == q,
        None => r is None,
    }
}

/// As `parsed`, for a method that reads a sequence of nodes.
pub open spec fn parsed_seq(res: Option<(Seq<Node>, int)>, r: Option<Vec<ASTNode>>, q_final: int) -> bool {
    match res {
        Some((ns, q)) => r matches Some(v) && nodes_view(v@) == ns && q_final == q,
        None => r is None,
    }
}

/// A recursive-descent parser over a token sequence.
pub struct Parser {
    state: ParserState,
}

impl Parser {
    /// The models of the tokens.
    pub closed spec fn toks(&self) -> Seq<Tok> {
        self.state.toks()
    }

    /// The index of the next token to read.
    pub closed spec fn pos(&self) -> int {
        self.state.pos()
    }

    /// The cursor stands within the tokens or just after them.
    pub closed spec fn wf(&self) -> bool {
        &&& self.state.wf()
        &&& 0 <= self.state.pos() <= self.state.toks().len()
    }

    /// A parser at the start of `tokens`.
    pub fn new(tokens: Vec<TokenType>) -> (r: Self)
        ensures
            r.wf(),
            r.pos() == 0,
            r.toks() == toks_view(tokens@),
    {
        let r = Parser { state: ParserState::new(tokens) };
        proof {
            assert(r.toks() =~= toks_view(tokens@));
        }
        r
    }

    /// Whether the next token is `t`, a token that carries nothing.
    fn next_is(&self, t: &TokenType) -> (b: bool)
        requires
            self.wf(),
            tok_kind(t@) >= 4,
        ensures
            b == is_at(self.toks(), self.pos(), t@),
    {
        let b = self.state.check(t);
        proof {
            if b {
                lemma_same_kind(self.toks()[self.pos()], t@);
            }
        }
        b
    }

    /// Moves past the next token, which is `t`, a token that carries nothing.
    fn expect(&mut self, t: &TokenType) -> (ok: bool)
        requires
            old(self).wf(),
            tok_kind(t@) >= 4,
        ensures
            final(self).wf(),
            final(self).toks() == old(self).toks(),
            ok == is_at(old(self).toks(), old(self).pos(), t@),
            ok ==> final(self).pos() == old(self).pos() + 1,
            !ok ==> final(self).pos() == old(self).pos(),
    {
        if self.next_is(t) {
            self.state.consume(t);
            true
        } else {
            false
        }
    }

    /// Reads the next token, if any.
    fn next_token(&mut self) -> (r: Option<TokenType>)
        requires
            old(self).wf(),
        ensures
            final(self).wf(),
            final(self).toks() == old(self).toks(),
            match at(old(self).toks(), old(self).pos()) {
                Some(t) => r matches Some(x) && x@ == t && final(self).pos() == old(self).pos() + 1,
                None => r is None,
            },
    {
        self.state.advance()
    }

    /// A type (see `p_type`).
    fn parse_type(&mut self) -> (r: Option<Type>)
        requires
            old(self).wf(),
        ensures
            final(self).wf(),
            final(self).toks() == old(self).toks(),
            match p_type(old(self).toks(), old(self).pos()) {
                Some((t, q)) => r matches Some(x) && x@ == t && final(self).pos() == q,
                None => r is None,
            },
            r is Some ==> old(self).pos() < final(self).pos(),
        decreases old(self).toks().len() - old(self).pos(),
    {
        match self.next_token() {
            Some(TokenType::TypeNum) => Some(Type::Num),
            Some(TokenType::TypeInt) => Some(Type::Int),
            Some(TokenType::TypeFlag) => Some(Type::Flag),
            Some(TokenType::TypeText) => Some(Type::Text),
            Some(TokenType::TypeNone) => Some(Type::NoneType),
            Some(TokenType::Star) => match self.parse_type() {
                Some(inner) => Some(Type::Pointer(Box::new(inner))),
                None => None,
            },
            Some(TokenType::LeftBracket) => {
                let inner = match self.parse_type() {
                    Some(t) => t,
                    None => return None,
                };
                if !self.expect(&TokenType::Semicolon) {
                    return None;
                }
                let len = match self.next_token() {
                    Some(TokenType::IntNumber(n)) => n as usize,
                    _ => return None,
                };
                if !self.expect(&TokenType::RightBracket) {
                    return None;
                }
                Some(Type::Array(Box::new(inner), len))
            },
            Some(TokenType::Layout) => match self.next_token() {
                Some(TokenType::Identifier(name)) => Some(Type::Layout(name)),
                _ => None,
            },
            Some(TokenType::Identifier(name)) => Some(Type::Layout(name)),
            _ => None,
        }
    }

    /// Whether a token is left to read.
    fn has_next(&self) -> (b: bool)
        requires
            self.wf(),
        ensures
            b == (self.pos() < self.toks().len()),
    {
        self.state.peek().is_some()
    }

    /// Whether the next token is an operator of binary `level`.
    fn at_level_op(&self, level: u8) -> (b: bool)
        requires
            self.wf(),
            1 <= level <= 6,
        ensures
            b == (self.pos() < self.toks().len() && level_op(level as nat, self.toks()[self.pos()])),
    {
        if level == 1 {
            self.next_is(&TokenType::Star) || self.next_is(&TokenType::Slash) || self.next_is(
                &TokenType::Percent,
            )
        } else if level == 2 {
            self.next_is(&TokenType::Plus) || self.next_is(&TokenType::Minus)
        } else if level == 3 {
            self.next_is(&TokenType::Less) || self.next_is(&TokenType::LessEqual) || self.next_is(
                &TokenType::Greater,
            ) || self.next_is(&TokenType::GreaterEqual)
        } else if level == 4 {
            self.next_is(&TokenType::EqualEqual) || self.next_is(&TokenType::BangEqual)
        } else if level == 5 {
            self.next_is(&TokenType::AmpAmp)
        } else {
            self.next_is(&TokenType::PipePipe)
        }
    }

    /// An expression (see `p_expr`), or `None` where the tokens do not form one.
    pub fn parse_expression_checked(&mut self) -> (r: Option<ASTNode>)
        requires
            old(self).wf(),
        ensures
            final(self).wf(),
            final(self).toks() == old(self).toks(),
            parsed(p_expr(old(self).toks(), old(self).pos()), r, final(self).pos()),
            r is Some ==> old(self).pos() < final(self).pos(),
        decreases old(self).toks().len() - old(self).pos(), 18nat,
    {
        self.parse_binary(6)
    }

    /// An operand of binary `level` (see `p_operand`).
    fn parse_operand(&mut self, level: u8) -> (r: Option<ASTNode>)
        requires
            old(self).wf(),
            1 <= level <= 6,
        ensures
            final(self).wf(),
            final(self).toks() == old(self).toks(),
            parsed(p_operand(old(self).toks(), old(self).pos(), level as nat), r, final(self).pos()),
            r is Some ==> old(self).pos() < final(self).pos(),
        decreases old(self).toks().len() - old(self).pos(), 2 * level + 4,
    {
        if level <= 1 {
            self.parse_unary()
        } else {
            self.parse_binary(level - 1)
        }
    }

    /// The operands of binary `level` joined by its operators, to the left (see `p_binary`).
    fn parse_binary(&mut self, level: u8) -> (r: Option<ASTNode>)
        requires
            old(self).wf(),
            1 <= level <= 6,
        ensures
            final(self).wf(),
            final(self).toks() == old(self).toks(),
            parsed(p_binary(old(self).toks(), old(self).pos(), level as nat), r, final(self).pos()),
            r is Some ==> old(self).pos() < final(self).pos(),
        decreases old(self).toks().len() - old(self).pos(), 2 * level + 5,
    {
        let ghost toks = self.toks();
        let ghost p = self.pos();
        let mut left = match self.parse_operand(level) {
            Some(e) => e,
            None => return None,
        };
        while self.at_level_op(level)
            invariant
                self.wf(),
                self.toks() == toks,
                p < self.pos() <= toks.len(),
                1 <= level <= 6,
                toks == old(self).toks(),
                p == old(self).pos(),
                binary_rest(toks, self.pos(), level as nat, left@) == p_binary(toks, p, level as nat),
            decreases toks.len() - self.pos(),
        {
            let op = self.next_token().unwrap();
            let right = match self.parse_operand(level) {
                Some(e) => e,
                None => return None,
            };
            left = ASTNode::new(NodeKind::BinaryOp { left: Box::new(left), op, right: Box::new(right) });
        }
        Some(left)
    }

    /// A unary expression (see `p_unary`).
    fn parse_unary(&mut self) -> (r: Option<ASTNode>)
        requires
            old(self).wf(),
        ensures
            final(self).wf(),
            final(self).toks() == old(self).toks(),
            parsed(p_unary(old(self).toks(), old(self).pos()), r, final(self).pos()),
            r is Some ==> old(self).pos() < final(self).pos(),
        decreases old(self).toks().len() - old(self).pos(), 3nat,
    {
        if self.next_is(&TokenType::Bang) || self.next_is(&TokenType::Minus) {
            let op = self.next_token().unwrap();
            match self.parse_unary() {
                Some(e) => Some(ASTNode::new(NodeKind::UnaryOp { op, operand: Box::new(e) })),
                None => None,
            }
        } else if self.expect(&TokenType::Ampersand) {
            match self.parse_unary() {
                Some(e) => Some(ASTNode::new(NodeKind::AddressOf(Box::new(e)))),
                None => None,
            }
        } else if self.expect(&TokenType::Star) {
            match self.parse_unary() {
                Some(e) => Some(ASTNode::new(NodeKind::Deref(Box::new(e)))),
                None => None,
            }
        } else {
            self.parse_postfix()
        }
    }

    /// A primary expression with its field accesses and indexings (see `p_postfix`).
    fn parse_postfix(&mut self) -> (r: Option<ASTNode>)
        requires
            old(self).wf(),
        ensures
            final(self).wf(),
            final(self).toks() == old(self).toks(),
            parsed(p_postfix(old(self).toks(), old(self).pos()), r, final(self).pos()),
            r is Some ==> old(self).pos() < final(self).pos(),
        decreases old(self).toks().len() - old(self).pos(), 2nat,
    {
        let ghost toks = self.toks();
        let ghost p = self.pos();
        let mut expr = match self.parse_primary() {
            Some(e) => e,
            None => return None,
        };
        while self.next_is(&TokenType::Dot) || self.next_is(&TokenType::LeftBracket)
            invariant
                self.wf(),
                self.toks() == toks,
                p < self.pos() <= toks.len(),
                toks == old(self).toks(),
                p == old(self).pos(),
                postfix_rest(toks, self.pos(), expr@) == p_postfix(toks, p),
            decreases toks.len() - self.pos(),
        {
            if self.expect(&TokenType::Dot) {
                let field = match self.next_token() {
                    Some(TokenType::Identifier(f)) => f,
                    _ => return None,
                };
                expr = ASTNode::new(NodeKind::FieldAccess { object: Box::new(expr), field });
            } else {
                self.state.consume(&TokenType::LeftBracket);
                let index = match self.parse_closed_by(&TokenType::RightBracket) {
                    Some(i) => i,
                    None => return None,
                };
                expr = ASTNode::new(NodeKind::ArrayIndex { array: Box::new(expr), index: Box::new(index) });
            }
        }
        Some(expr)
    }

    /// An expression followed by `close` (see `p_closed_by`).
    fn parse_closed_by(&mut self, close: &TokenType) -> (r: Option<ASTNode>)
        requires
            old(self).wf(),
            tok_kind(close@) >= 4,
        ensures
            final(self).wf(),
            final(self).toks() == old(self).toks(),
            parsed(p_closed_by(old(self).toks(), old(self).pos(), close@), r, final(self).pos()),
            r is Some ==> old(self).pos() < final(self).pos(),
        decreases old(self).toks().len() - old(self).pos(), 19nat,
    {
        let e = match self.parse_expression_checked() {
            Some(e) => e,
            None => return None,
        };
        if self.expect(close) {
            Some(e)
        } else {
            None
        }
    }

    /// The expressions of a list up to and including `close` (see `p_list`).
    fn parse_list(&mut self, close: &TokenType) -> (r: Option<Vec<ASTNode>>)
        requires
            old(self).wf(),
            tok_kind(close@) >= 4,
        ensures
            final(self).wf(),
            final(self).toks() == old(self).toks(),
            parsed_seq(p_list(old(self).toks(), old(self).pos(), close@, Seq::empty()), r, final(self).pos()),
            r is Some ==> old(self).pos() < final(self).pos(),
        decreases old(self).toks().len() - old(self).pos(), 19nat,
    {
        let ghost toks = self.toks();
        let ghost p = self.pos();
        let mut items: Vec<ASTNode> = Vec::new();
        proof {
            assert(nodes_view(items@) =~= Seq::<Node>::empty());
        }
        while !self.next_is(close)
            invariant
                self.wf(),
                self.toks() == toks,
                p <= self.pos() <= toks.len(),
                tok_kind(close@) >= 4,
                toks == old(self).toks(),
                p == old(self).pos(),
                p_list(toks, self.pos(), close@, nodes_view(items@)) == p_list(toks, p, close@, Seq::empty()),
            decreases toks.len() - self.pos(),
        {
            let e = match self.parse_expression_checked() {
                Some(e) => e,
                None => return None,
            };
            if self.next_is(&TokenType::Comma) {
                self.state.consume(&TokenType::Comma);
            }
            proof {
                lemma_nodes_view_push(items@, e);
            }
            items.push(e);
        }
        self.state.consume(close);
        Some(items)
    }

    /// A primary expression (see `p_primary`).
    fn parse_primary(&mut self) -> (r: Option<ASTNode>)
        requires
            old(self).wf(),
        ensures
            final(self).wf(),
            final(self).toks() == old(self).toks(),
            parsed(p_primary(old(self).toks(), old(self).pos()), r, final(self).pos()),
            r is Some ==> old(self).pos() < final(self).pos(),
        decreases old(self).toks().len() - old(self).pos(), 1nat,
    {
        match self.next_token() {
            Some(TokenType::Number(t)) => Some(ASTNode::new(NodeKind::Number(t))),
            Some(TokenType::IntNumber(n)) => Some(ASTNode::new(NodeKind::IntNumber(n))),
            Some(TokenType::StringLit(s)) => Some(ASTNode::new(NodeKind::StringLit(s))),
            Some(TokenType::Yes) => Some(ASTNode::new(NodeKind::Boolean(true))),
            Some(TokenType::No) => Some(ASTNode::new(NodeKind::Boolean(false))),
            Some(TokenType::Claim) => {
                if !self.expect(&TokenType::LeftParen) {
                    return None;
                }
                match self.parse_closed_by(&TokenType::RightParen) {
                    Some(e) => Some(ASTNode::new(NodeKind::Claim(Box::new(e)))),
                    None => None,
                }
            },
            Some(TokenType::Purge) => {
                if !self.expect(&TokenType::LeftParen) {
                    return None;
                }
                match self.parse_closed_by(&TokenType::RightParen) {
                    Some(e) => Some(ASTNode::new(NodeKind::Purge(Box::new(e)))),
                    None => None,
                }
            },
            Some(TokenType::Identifier(name)) => {
                if self.expect(&TokenType::LeftParen) {
                    match self.parse_list(&TokenType::RightParen) {
                        Some(args) => Some(ASTNode::new(NodeKind::Call { callee: name, args })),
                        None => None,
                    }
                } else {
                    Some(ASTNode::new(NodeKind::Identifier(name)))
                }
            },
            Some(TokenType::LeftParen) => self.parse_closed_by(&TokenType::RightParen),
            Some(TokenType::LeftBracket) => match self.parse_list(&TokenType::RightBracket) {
                Some(elements) => Some(ASTNode::new(NodeKind::ArrayLiteral(elements))),
                None => None,
            },
            _ => None,
        }
    }

    /// A declaration or a statement, chosen by its first token (see `p_decl`).
    fn parse_declaration_or_statement(&mut self) -> (r: Option<ASTNode>)
        requires
            old(self).wf(),
        ensures
            final(self).wf(),
            final(self).toks() == old(self).toks(),
            parsed(p_decl(old(self).toks(), old(self).pos()), r, final(self).pos()),
            r is Some ==> old(self).pos() < final(self).pos(),
        decreases old(self).toks().len() - old(self).pos(), 20nat,
    {
        if self.next_is(&TokenType::Layout) {
            self.parse_layout_decl()
        } else if self.next_is(&TokenType::Proc) {
            self.parse_proc_decl()
        } else if self.next_is(&TokenType::Slot) {
            self.parse_slot_decl()
        } else if self.next_is(&TokenType::Emit) {
            self.parse_emit()
        } else if self.next_is(&TokenType::When) {
            self.parse_when()
        } else if self.next_is(&TokenType::During) {
            self.parse_during()
        } else if self.next_is(&TokenType::Yield) {
            self.parse_yield()
        } else if self.next_is(&TokenType::LeftBrace) {
            match self.parse_block_statements() {
                Some(stmts) => Some(ASTNode::new(NodeKind::Block(stmts))),
                None => None,
            }
        } else {
            self.parse_assignment_or_expr_stmt()
        }
    }

    /// A layout declaration (see `p_layout`). Its fields lie eight bytes apart, from offset 0,
    /// in the order written, and its size is eight bytes per field.
    pub fn parse_layout_decl(&mut self) -> (r: Option<ASTNode>)
        requires
            old(self).wf(),
        ensures
            final(self).wf(),
            final(self).toks() == old(self).toks(),
            parsed(p_layout(old(self).toks(), old(self).pos()), r, final(self).pos()),
            r is Some ==> old(self).pos() < final(self).pos(),
            r matches Some(n) ==> (n.kind matches NodeKind::LayoutDecl(d) && d.total_size == 8
                * d.fields.len() && forall|i: int|
                0 <= i < d.fields.len() ==> d.fields@[i].offset == 8 * i),
    {
        let ghost toks = self.toks();
        let ghost p = self.pos();
        if !self.expect(&TokenType::Layout) {
            return None;
        }
        let name = match self.next_token() {
            Some(TokenType::Identifier(n)) => n,
            _ => return None,
        };
        if !self.expect(&TokenType::LeftBrace) {
            return None;
        }
        let mut fields: Vec<LayoutField> = Vec::new();
        let mut offset: usize = 0;
        proof {
            assert(fields_view(fields@) =~= Seq::<FieldV>::empty());
        }
        while !self.next_is(&TokenType::RightBrace)
            invariant
                self.wf(),
                self.toks() == toks,
                p + 3 <= self.pos() <= toks.len(),
                toks == old(self).toks(),
                p == old(self).pos(),
                fields_rest(toks, self.pos(), fields_view(fields@), offset as int) == fields_rest(
                    toks,
                    p + 3,
                    Seq::empty(),
                    0,
                ),
            decreases toks.len() - self.pos(),
        {
            let field_name = match self.next_token() {
                Some(TokenType::Identifier(f)) => f,
                _ => return None,
            };
            if !self.expect(&TokenType::Colon) {
                return None;
            }
            let field_type = match self.parse_type() {
                Some(t) => t,
                None => return None,
            };
            if offset > usize::MAX - 8 {
                return None;
            }
            let ghost before = fields_view(fields@);
            let field = LayoutField { name: field_name, field_type, offset };
            fields.push(field);
            proof {
                assert(fields_view(fields@) =~= before.push(field@));
            }
            offset = offset + 8;
            if self.next_is(&TokenType::Comma) {
                self.state.consume(&TokenType::Comma);
            }
        }
        self.state.consume(&TokenType::RightBrace);
        let r = ASTNode::new(NodeKind::LayoutDecl(LayoutDef { name, fields, total_size: offset }));
        proof {
            lemma_layout_offsets(toks, p);
            assert forall|i: int| 0 <= i < fields@.len() implies fields@[i].offset == 8 * i by {
                assert(fields_view(fields@)[i] == fields@[i]@);
            }
        }
        Some(r)
    }

    /// A procedure declaration (see `p_proc`).
    fn parse_proc_decl(&mut self) -> (r: Option<ASTNode>)
        requires
            old(self).wf(),
        ensures
            final(self).wf(),
            final(self).toks() == old(self).toks(),
            parsed(p_proc(old(self).toks(), old(self).pos()), r, final(self).pos()),
            r is Some ==> old(self).pos() < final(self).pos(),
        decreases old(self).toks().len() - old(self).pos(), 0nat,
    {
        let ghost toks = self.toks();
        let ghost p = self.pos();
        if !self.expect(&TokenType::Proc) {
            return None;
        }
        let name = match self.next_token() {
            Some(TokenType::Identifier(n)) => n,
            _ => return None,
        };
        if !self.expect(&TokenType::LeftParen) {
            return None;
        }
        let mut params: Vec<ProcParam> = Vec::new();
        proof {
            assert(params_view(params@) =~= Seq::<ParamV>::empty());
        }
        while !self.next_is(&TokenType::RightParen)
            invariant
                self.wf(),
                self.toks() == toks,
                p + 3 <= self.pos() <= toks.len(),
                toks == old(self).toks(),
                p == old(self).pos(),
                params_rest(toks, self.pos(), params_view(params@)) == params_rest(
                    toks,
                    p + 3,
                    Seq::empty(),
                ),
            decreases toks.len() - self.pos(),
        {
            let param_name = match self.next_token() {
                Some(TokenType::Identifier(n)) => n,
                _ => return None,
            };
            if !self.expect(&TokenType::Colon) {
                return None;
            }
            let param_type = match self.parse_type() {
                Some(t) => t,
                None => return None,
            };
            let ghost before = params_view(params@);
            let param = ProcParam { name: param_name, param_type };
            params.push(param);
            proof {
                assert(params_view(params@) =~= before.push(param@));
            }
            if self.next_is(&TokenType::Comma) {
                self.state.consume(&TokenType::Comma);
            }
        }
        self.state.consume(&TokenType::RightParen);
        let return_type = if self.expect(&TokenType::Arrow) {
            match self.parse_type() {
                Some(t) => t,
                None => return None,
            }
        } else {
            Type::NoneType
        };
        let body = match self.parse_block_statements() {
            Some(b) => b,
            None => return None,
        };
        Some(ASTNode::new(NodeKind::ProcDecl { name, params, return_type, body }))
    }

    /// A variable declaration (see `p_slot`).
    fn parse_slot_decl(&mut self) -> (r: Option<ASTNode>)
        requires
            old(self).wf(),
        ensures
            final(self).wf(),
            final(self).toks() == old(self).toks(),
            parsed(p_slot(old(self).toks(), old(self).pos()), r, final(self).pos()),
            r is Some ==> old(self).pos() < final(self).pos(),
        decreases old(self).toks().len() - old(self).pos(), 0nat,
    {
        if !self.expect(&TokenType::Slot) {
            return None;
        }
        let name = match self.next_token() {
            Some(TokenType::Identifier(n)) => n,
            _ => return None,
        };
        let slot_type = if self.expect(&TokenType::Colon) {
            match self.parse_type() {
                Some(t) => Some(t),
                None => return None,
            }
        } else {
            None
        };
        let value = if self.expect(&TokenType::Equal) {
            match self.parse_expression_checked() {
                Some(e) => Some(Box::new(e)),
                None => return None,
            }
        } else {
            None
        };
        if !self.expect(&TokenType::Semicolon) {
            return None;
        }
        Some(ASTNode::new(NodeKind::SlotDecl { name, slot_type, value }))
    }

    /// An output statement (see `p_emit`).
    fn parse_emit(&mut self) -> (r: Option<ASTNode>)
        requires
            old(self).wf(),
        ensures
            final(self).wf(),
            final(self).toks() == old(self).toks(),
            parsed(p_emit(old(self).toks(), old(self).pos()), r, final(self).pos()),
            r is Some ==> old(self).pos() < final(self).pos(),
        decreases old(self).toks().len() - old(self).pos(), 0nat,
    {
        if !self.expect(&TokenType::Emit) {
            return None;
        }
        match self.parse_closed_by(&TokenType::Semicolon) {
            Some(e) => Some(ASTNode::new(NodeKind::Emit(Box::new(e)))),
            None => None,
        }
    }

    /// A conditional (see `p_when`).
    fn parse_when(&mut self) -> (r: Option<ASTNode>)
        requires
            old(self).wf(),
        ensures
            final(self).wf(),
            final(self).toks() == old(self).toks(),
            parsed(p_when(old(self).toks(), old(self).pos()), r, final(self).pos()),
            r is Some ==> old(self).pos() < final(self).pos(),
        decreases old(self).toks().len() - old(self).pos(), 0nat,
    {
        if !self.expect(&TokenType::When) {
            return None;
        }
        let condition = match self.parse_expression_checked() {
            Some(c) => c,
            None => return None,
        };
        let then_branch = match self.parse_block_statements() {
            Some(b) => b,
            None => return None,
        };
        let else_branch = if self.expect(&TokenType::Otherwise) {
            if self.next_is(&TokenType::When) {
                let nested = match self.parse_when() {
                    Some(w) => w,
                    None => return None,
                };
                let mut v: Vec<ASTNode> = Vec::new();
                proof {
                    lemma_nodes_view_push(v@, nested);
                    assert(nodes_view(v@) =~= Seq::<Node>::empty());
                }
                v.push(nested);
                Some(v)
            } else {
                match self.parse_block_statements() {
                    Some(b) => Some(b),
                    None => return None,
                }
            }
        } else {
            None
        };
        Some(
            ASTNode::new(
                NodeKind::When { condition: Box::new(condition), then_branch, else_branch },
            ),
        )
    }

    /// A loop (see `p_during`).
    fn parse_during(&mut self) -> (r: Option<ASTNode>)
        requires
            old(self).wf(),
        ensures
            final(self).wf(),
            final(self).toks() == old(self).toks(),
            parsed(p_during(old(self).toks(), old(self).pos()), r, final(self).pos()),
            r is Some ==> old(self).pos() < final(self).pos(),
        decreases old(self).toks().len() - old(self).pos(), 0nat,
    {
        if !self.expect(&TokenType::During) {
            return None;
        }
        let condition = match self.parse_expression_checked() {
            Some(c) => c,
            None => return None,
        };
        match self.parse_block_statements() {
            Some(body) => Some(ASTNode::new(NodeKind::During { condition: Box::new(condition), body })),
            None => None,
        }
    }

    /// A return statement (see `p_yield`).
    fn parse_yield(&mut self) -> (r: Option<ASTNode>)
        requires
            old(self).wf(),
        ensures
            final(self).wf(),
            final(self).toks() == old(self).toks(),
            parsed(p_yield(old(self).toks(), old(self).pos()), r, final(self).pos()),
            r is Some ==> old(self).pos() < final(self).pos(),
        decreases old(self).toks().len() - old(self).pos(), 0nat,
    {
        if !self.expect(&TokenType::Yield) {
            return None;
        }
        if self.expect(&TokenType::Semicolon) {
            Some(ASTNode::new(NodeKind::Yield(None)))
        } else {
            match self.parse_closed_by(&TokenType::Semicolon) {
                Some(e) => Some(ASTNode::new(NodeKind::Yield(Some(Box::new(e))))),
                None => None,
            }
        }
    }

    /// The statements of a block, braces included (see `p_block`).
    fn parse_block_statements(&mut self) -> (r: Option<Vec<ASTNode>>)
        requires
            old(self).wf(),
        ensures
            final(self).wf(),
            final(self).toks() == old(self).toks(),
            parsed_seq(p_block(old(self).toks(), old(self).pos()), r, final(self).pos()),
            r is Some ==> old(self).pos() < final(self).pos(),
        decreases old(self).toks().len() - old(self).pos(), 0nat,
    {
        let ghost toks = self.toks();
        let ghost p = self.pos();
        if !self.expect(&TokenType::LeftBrace) {
            return None;
        }
        let mut stmts: Vec<ASTNode> = Vec::new();
        proof {
            assert(nodes_view(stmts@) =~= Seq::<Node>::empty());
        }
        while !self.next_is(&TokenType::RightBrace) && self.has_next()
            invariant
                self.wf(),
                self.toks() == toks,
                p < self.pos() <= toks.len(),
                toks == old(self).toks(),
                p == old(self).pos(),
                block_rest(toks, self.pos(), nodes_view(stmts@)) == p_block(toks, p),
            decreases toks.len() - self.pos(),
        {
            let s = match self.parse_declaration_or_statement() {
                Some(s) => s,
                None => return None,
            };
            proof {
                lemma_nodes_view_push(stmts@, s);
            }
            stmts.push(s);
        }
        if !self.expect(&TokenType::RightBrace) {
            return None;
        }
        Some(stmts)
    }

    /// An assignment or an expression statement (see `p_assign`).
    fn parse_assignment_or_expr_stmt(&mut self) -> (r: Option<ASTNode>)
        requires
            old(self).wf(),
        ensures
            final(self).wf(),
            final(self).toks() == old(self).toks(),
            parsed(p_assign(old(self).toks(), old(self).pos()), r, final(self).pos()),
            r is Some ==> old(self).pos() < final(self).pos(),
        decreases old(self).toks().len() - old(self).pos(), 19nat,
    {
        let expr = match self.parse_expression_checked() {
            Some(e) => e,
            None => return None,
        };
        if self.expect(&TokenType::Equal) {
            match self.parse_closed_by(&TokenType::Semicolon) {
                Some(value) => Some(
                    ASTNode::new(NodeKind::Assignment { target: Box::new(expr), value: Box::new(value) }),
                ),
                None => None,
            }
        } else if self.expect(&TokenType::Semicolon) {
            Some(ASTNode::new(NodeKind::ExprStatement(Box::new(expr))))
        } else {
            None
        }
    }

    /// Reads declarations and statements up to the end of the tokens or an end-of-input
    /// token (see `program`); `None` where the tokens are not a program.
    pub fn parse_program_checked(&mut self) -> (r: Option<Vec<ASTNode>>)
        requires
            old(self).wf(),
        ensures
            final(self).wf(),
            final(self).toks() == old(self).toks(),
            parsed_seq(program(old(self).toks(), old(self).pos()), r, final(self).pos()),
    {
        let ghost toks = self.toks();
        let ghost p = self.pos();
        let mut nodes: Vec<ASTNode> = Vec::new();
        proof {
            assert(nodes_view(nodes@) =~= Seq::<Node>::empty());
        }
        while self.has_next() && !self.next_is(&TokenType::Eof)
            invariant
                self.wf(),
                self.toks() == toks,
                p <= self.pos() <= toks.len(),
                toks == old(self).toks(),
                p == old(self).pos(),
                program_rest(toks, self.pos(), nodes_view(nodes@)) == program(toks, p),
            decreases toks.len() - self.pos(),
        {
            let node = match self.parse_declaration_or_statement() {
                Some(n) => n,
                None => return None,
            };
            proof {
                lemma_nodes_view_push(nodes@, node);
            }
            nodes.push(node);
        }
        Some(nodes)
    }

    /// Reads the program from the cursor on; the tokens must form one (see `program`).
    pub fn parse_program(&mut self) -> (r: Vec<ASTNode>)
        requires
            old(self).wf(),
            program(old(self).toks(), old(self).pos()) is Some,
        ensures
            final(self).wf(),
            final(self).toks() == old(self).toks(),
            nodes_view(r@) == (program(old(self).toks(), old(self).pos())->0).0,
            final(self).pos() == (program(old(self).toks(), old(self).pos())->0).1,
    {
        self.parse_program_checked().unwrap()
    }

    /// Reads an expression at the cursor; the tokens there must form one (see `p_expr`).
    pub fn parse_expression(&mut self) -> (r: ASTNode)
        requires
            old(self).wf(),
            p_expr(old(self).toks(), old(self).pos()) is Some,
        ensures
            final(self).wf(),
            final(self).toks() == old(self).toks(),
            r@ == (p_expr(old(self).toks(), old(self).pos())->0).0,
            final(self).pos() == (p_expr(old(self).toks(), old(self).pos())->0).1,
    {
        self.parse_expression_checked().unwrap()
    }
}

} // verus!
