//! The generator of three-address intermediate code.
use vstd::prelude::*;
use crate::core_types::{
    ASTNode, LayoutDef, LayoutV, FieldV, Node, NodeKind, ParamV, ProcParam, Tok, TokenType, Ty,
    Type, nodes_view, params_view,
};
use crate::text::{decimal, lemma_decimal_injective, push_char, push_decimal};

verus! {

/// An instruction of the three-address intermediate form.
///
/// `LoadFloatConst` carries the text of a `num` literal, as the source wrote it.
#[derive(Debug, Clone, PartialEq)]
#[allow(inconsistent_fields)]
pub enum IRInstruction {
    LoadFloatConst { dest: usize, val: String },
    LoadIntConst { dest: usize, val: i64 },
    LoadStringConst { dest: usize, str_id: usize },
    LoadBoolConst { dest: usize, val: bool },
    LoadVar { dest: usize, name: String },
    StoreVar { name: String, src: usize },
    Add { dest: usize, src1: usize, src2: usize, is_float: bool },
    Sub { dest: usize, src1: usize, src2: usize, is_float: bool },
    Mul { dest: usize, src1: usize, src2: usize, is_float: bool },
    Div { dest: usize, src1: usize, src2: usize, is_float: bool },
    Mod { dest: usize, src1: usize, src2: usize },
    CmpEq { dest: usize, src1: usize, src2: usize, is_float: bool },
    CmpNeq { dest: usize, src1: usize, src2: usize, is_float: bool },
    CmpLt { dest: usize, src1: usize, src2: usize, is_float: bool },
    CmpLte { dest: usize, src1: usize, src2: usize, is_float: bool },
    CmpGt { dest: usize, src1: usize, src2: usize, is_float: bool },
    CmpGte { dest: usize, src1: usize, src2: usize, is_float: bool },
    LogAnd { dest: usize, src1: usize, src2: usize },
    LogOr { dest: usize, src1: usize, src2: usize },
    LogNot { dest: usize, src: usize },
    Emit { reg: usize, reg_type: Type },
    Label(String),
    Jump(String),
    JumpIfFalse { cond_reg: usize, label: String },
    Call { dest: Option<usize>, name: String, args: Vec<usize> },
    Yield(Option<usize>),
    ComputeAddr { dest: usize, var_name: String },
    LoadDeref { dest: usize, ptr_reg: usize },
    StoreDeref { ptr_reg: usize, val_reg: usize },
    ComputeFieldAddr { dest: usize, base_reg: usize, byte_offset: usize },
    ComputeIndexAddr { dest: usize, base_reg: usize, index_reg: usize, elem_size: usize },
    Alloc { dest: usize, size_reg: usize },
    Free { ptr_reg: usize },
}

/// The model of an instruction.
#[allow(inconsistent_fields)]
pub enum Ins {
    LoadFloatConst { dest: usize, val: Seq<char> },
    LoadIntConst { dest: usize, val: i64 },
    LoadStringConst { dest: usize, str_id: usize },
    LoadBoolConst { dest: usize, val: bool },
    LoadVar { dest: usize, name: Seq<char> },
    StoreVar { name: Seq<char>, src: usize },
    Add { dest: usize, src1: usize, src2: usize, is_float: bool },
    Sub { dest: usize, src1: usize, src2: usize, is_float: bool },
    Mul { dest: usize, src1: usize, src2: usize, is_float: bool },
    Div { dest: usize, src1: usize, src2: usize, is_float: bool },
    Mod { dest: usize, src1: usize, src2: usize },
    CmpEq { dest: usize, src1: usize, src2: usize, is_float: bool },
    CmpNeq { dest: usize, src1: usize, src2: usize, is_float: bool },
    CmpLt { dest: usize, src1: usize, src2: usize, is_float: bool },
    CmpLte { dest: usize, src1: usize, src2: usize, is_float: bool },
    CmpGt { dest: usize, src1: usize, src2: usize, is_float: bool },
    CmpGte { dest: usize, src1: usize, src2: usize, is_float: bool },
    LogAnd { dest: usize, src1: usize, src2: usize },
    LogOr { dest: usize, src1: usize, src2: usize },
    LogNot { dest: usize, src: usize },
    Emit { reg: usize, reg_type: Ty },
    Label(Seq<char>),
    Jump(Seq<char>),
    JumpIfFalse { cond_reg: usize, label: Seq<char> },
    Call { dest: Option<usize>, name: Seq<char>, args: Seq<usize> },
    Yield(Option<usize>),
    ComputeAddr { dest: usize, var_name: Seq<char> },
    LoadDeref { dest: usize, ptr_reg: usize },
    StoreDeref { ptr_reg: usize, val_reg: usize },
    ComputeFieldAddr { dest: usize, base_reg: usize, byte_offset: usize },
    ComputeIndexAddr { dest: usize, base_reg: usize, index_reg: usize, elem_size: usize },
    Alloc { dest: usize, size_reg: usize },
    Free { ptr_reg: usize },
}

impl View for IRInstruction {
    type V = Ins;

    open spec fn view(&self) -> Ins {
        match self {
            IRInstruction::LoadFloatConst { dest, val } => Ins::LoadFloatConst {
                dest: *dest,
                val: val@,
            },
            IRInstruction::LoadIntConst { dest, val } => Ins::LoadIntConst {
                dest: *dest,
                val: *val,
            },
            IRInstruction::LoadStringConst { dest, str_id } => Ins::LoadStringConst {
                dest: *dest,
                str_id: *str_id,
            },
            IRInstruction::LoadBoolConst { dest, val } => Ins::LoadBoolConst {
                dest: *dest,
                val: *val,
            },
            IRInstruction::LoadVar { dest, name } => Ins::LoadVar {
                dest: *dest,
                name: name@,
            },
            IRInstruction::StoreVar { name, src } => Ins::StoreVar {
                name: name@,
                src: *src,
            },
            IRInstruction::Add { dest, src1, src2, is_float } => Ins::Add {
                dest: *dest,
                src1: *src1,
                src2: *src2,
                is_float: *is_float,
            },
            IRInstruction::Sub { dest, src1, src2, is_float } => Ins::Sub {
                dest: *dest,
                src1: *src1,
                src2: *src2,
                is_float: *is_float,
            },
            IRInstruction::Mul { dest, src1, src2, is_float } => Ins::Mul {
                dest: *dest,
                src1: *src1,
                src2: *src2,
                is_float: *is_float,
            },
            IRInstruction::Div { dest, src1, src2, is_float } => Ins::Div {
                dest: *dest,
                src1: *src1,
                src2: *src2,
                is_float: *is_float,
            },
            IRInstruction::Mod { dest, src1, src2 } => Ins::Mod {
                dest: *dest,
                src1: *src1,
                src2: *src2,
            },
            IRInstruction::CmpEq { dest, src1, src2, is_float } => Ins::CmpEq {
                dest: *dest,
                src1: *src1,
                src2: *src2,
                is_float: *is_float,
            },
            IRInstruction::CmpNeq { dest, src1, src2, is_float } => Ins::CmpNeq {
                dest: *dest,
                src1: *src1,
                src2: *src2,
                is_float: *is_float,
            },
            IRInstruction::CmpLt { dest, src1, src2, is_float } => Ins::CmpLt {
                dest: *dest,
                src1: *src1,
                src2: *src2,
                is_float: *is_float,
            },
            IRInstruction::CmpLte { dest, src1, src2, is_float } => Ins::CmpLte {
                dest: *dest,
                src1: *src1,
                src2: *src2,
                is_float: *is_float,
            },
            IRInstruction::CmpGt { dest, src1, src2, is_float } => Ins::CmpGt {
                dest: *dest,
                src1: *src1,
                src2: *src2,
                is_float: *is_float,
            },
            IRInstruction::CmpGte { dest, src1, src2, is_float } => Ins::CmpGte {
                dest: *dest,
                src1: *src1,
                src2: *src2,
                is_float: *is_float,
            },
            IRInstruction::LogAnd { dest, src1, src2 } => Ins::LogAnd {
                dest: *dest,
                src1: *src1,
                src2: *src2,
            },
            IRInstruction::LogOr { dest, src1, src2 } => Ins::LogOr {
                dest: *dest,
                src1: *src1,
                src2: *src2,
            },
            IRInstruction::LogNot { dest, src } => Ins::LogNot {
                dest: *dest,
                src: *src,
            },
            IRInstruction::Emit { reg, reg_type } => Ins::Emit {
                reg: *reg,
                reg_type: reg_type@,
            },
            IRInstruction::Label(x) => Ins::Label(x@),
            IRInstruction::Jump(x) => Ins::Jump(x@),
            IRInstruction::JumpIfFalse { cond_reg, label } => Ins::JumpIfFalse {
                cond_reg: *cond_reg,
                label: label@,
            },
            IRInstruction::Call { dest, name, args } => Ins::Call {
                dest: *dest,
                name: name@,
                args: args@,
            },
            IRInstruction::Yield(x) => Ins::Yield(*x),
            IRInstruction::ComputeAddr { dest, var_name } => Ins::ComputeAddr {
                dest: *dest,
                var_name: var_name@,
            },
            IRInstruction::LoadDeref { dest, ptr_reg } => Ins::LoadDeref {
                dest: *dest,
                ptr_reg: *ptr_reg,
            },
            IRInstruction::StoreDeref { ptr_reg, val_reg } => Ins::StoreDeref {
                ptr_reg: *ptr_reg,
                val_reg: *val_reg,
            },
            IRInstruction::ComputeFieldAddr { dest, base_reg, byte_offset } => Ins::ComputeFieldAddr {
                dest: *dest,
                base_reg: *base_reg,
                byte_offset: *byte_offset,
            },
            IRInstruction::ComputeIndexAddr { dest, base_reg, index_reg, elem_size } => Ins::ComputeIndexAddr {
                dest: *dest,
                base_reg: *base_reg,
                index_reg: *index_reg,
                elem_size: *elem_size,
            },
            IRInstruction::Alloc { dest, size_reg } => Ins::Alloc {
                dest: *dest,
                size_reg: *size_reg,
            },
            IRInstruction::Free { ptr_reg } => Ins::Free {
                ptr_reg: *ptr_reg,
            },
        }
    }
}

// ---------------------------------------------------------------------------
// The model of code generation
// ---------------------------------------------------------------------------

/// The value bound to `k` in a list of bindings, the latest binding winning.
pub open spec fn lookup<V>(s: Seq<(Seq<char>, V)>, k: Seq<char>) -> Option<V>
    decreases s.len(),
{
    if s.len() == 0 {
        None
    } else if s.last().0 == k {
        Some(s.last().1)
    } else {
        lookup(s.drop_last(), k)
    }
}

/// The index of the first occurrence of `x` in `s`.
pub open spec fn first_index(s: Seq<Seq<char>>, x: Seq<char>) -> Option<nat>
    decreases s.len(),
{
    if s.len() == 0 {
        None
    } else if s[0] == x {
        Some(0)
    } else {
        match first_index(s.drop_first(), x) {
            Some(i) => Some(i + 1),
            None => None,
        }
    }
}

/// The string table after `x` is added, and the index of `x` in it: strings are stored once.
pub open spec fn intern(s: Seq<Seq<char>>, x: Seq<char>) -> (Seq<Seq<char>>, nat) {
    match first_index(s, x) {
        Some(i) => (s, i),
        None => (s.push(x), s.len()),
    }
}

/// The first field of the given name.
pub open spec fn find_field(fields: Seq<FieldV>, name: Seq<char>) -> Option<FieldV>
    decreases fields.len(),
{
    if fields.len() == 0 {
        None
    } else if fields[0].name == name {
        Some(fields[0])
    } else {
        find_field(fields.drop_first(), name)
    }
}

/// The state of the generator: its counters and what it knows of names.
pub struct GenV {
    pub next_reg: usize,
    pub next_label: usize,
    /// The types of variables, the latest binding winning.
    pub symbols: Seq<(Seq<char>, Ty)>,
    /// The layouts, the latest definition of a name winning.
    pub layouts: Seq<(Seq<char>, LayoutV)>,
}

/// A fresh register, or `None` where the counter would overflow.
pub open spec fn fresh_reg(g: GenV) -> Option<(GenV, usize)> {
    if g.next_reg < usize::MAX {
        Some(
            (
                GenV {
                    next_reg: (g.next_reg + 1) as usize,
                    next_label: g.next_label,
                    symbols: g.symbols,
                    layouts: g.layouts,
                },
                g.next_reg,
            ),
        )
    } else {
        None
    }
}

/// A fresh label `prefix_n`, or `None` where the counter would overflow.
pub open spec fn fresh_label(g: GenV, prefix: Seq<char>) -> Option<(GenV, Seq<char>)> {
    if g.next_label < usize::MAX {
        Some(
            (
                GenV {
                    next_reg: g.next_reg,
                    next_label: (g.next_label + 1) as usize,
                    symbols: g.symbols,
                    layouts: g.layouts,
                },
                prefix + seq!['_'] + decimal(g.next_label as nat),
            ),
        )
    } else {
        None
    }
}

pub open spec fn bind(g: GenV, name: Seq<char>, t: Ty) -> GenV {
    GenV {
        next_reg: g.next_reg,
        next_label: g.next_label,
        symbols: g.symbols.push((name, t)),
        layouts: g.layouts,
    }
}

/// What generating an expression gives: the new state and string table, the code, the
/// register that holds the value (if any) and the value's type.
pub struct ExprOut {
    pub gen: GenV,
    pub strings: Seq<Seq<char>>,
    pub code: Seq<Ins>,
    pub reg: Option<usize>,
    pub ty: Ty,
}

/// What generating an address gives: the register that holds the address and the type of
/// what it points at.
pub struct AddrOut {
    pub gen: GenV,
    pub strings: Seq<Seq<char>>,
    pub code: Seq<Ins>,
    pub reg: usize,
    pub ty: Ty,
}

/// What generating call arguments gives: the registers of the arguments, in order.
pub struct ArgsOut {
    pub gen: GenV,
    pub strings: Seq<Seq<char>>,
    pub code: Seq<Ins>,
    pub regs: Seq<usize>,
}

/// What generating statements gives.
pub struct StmtOut {
    pub gen: GenV,
    pub strings: Seq<Seq<char>>,
    pub code: Seq<Ins>,
}

/// The instruction of a binary operator, where it has one.
pub open spec fn binary_ins(op: Tok, dest: usize, a: usize, b: usize, is_float: bool) -> Option<Ins> {
    match op {
        Tok::Plus => Some(Ins::Add { dest, src1: a, src2: b, is_float }),
        Tok::Minus => Some(Ins::Sub { dest, src1: a, src2: b, is_float }),
        Tok::Star => Some(Ins::Mul { dest, src1: a, src2: b, is_float }),
        Tok::Slash => Some(Ins::Div { dest, src1: a, src2: b, is_float }),
        Tok::Percent => Some(Ins::Mod { dest, src1: a, src2: b }),
        Tok::EqualEqual => Some(Ins::CmpEq { dest, src1: a, src2: b, is_float }),
        Tok::BangEqual => Some(Ins::CmpNeq { dest, src1: a, src2: b, is_float }),
        Tok::Less => Some(Ins::CmpLt { dest, src1: a, src2: b, is_float }),
        Tok::LessEqual => Some(Ins::CmpLte { dest, src1: a, src2: b, is_float }),
        Tok::Greater => Some(Ins::CmpGt { dest, src1: a, src2: b, is_float }),
        Tok::GreaterEqual => Some(Ins::CmpGte { dest, src1: a, src2: b, is_float }),
        Tok::AmpAmp => Some(Ins::LogAnd { dest, src1: a, src2: b }),
        Tok::PipePipe => Some(Ins::LogOr { dest, src1: a, src2: b }),
        _ => None,
    }
}

/// The arithmetic operators, whose result has the type of the left operand; the others give
/// a `flag`.
pub open spec fn is_arith(op: Tok) -> bool {
    op == Tok::Plus || op == Tok::Minus || op == Tok::Star || op == Tok::Slash || op == Tok::Percent
}

/// The layout a field access goes through: that of a layout, or of a pointer to one.
pub open spec fn layout_of(t: Ty) -> Option<Seq<char>> {
    match t {
        Ty::Layout(n) => Some(n),
        Ty::Pointer(inner) => match *inner {
            Ty::Layout(n) => Some(n),
            _ => None,
        },
        _ => None,
    }
}

/// The type a pointer points at; `int` for a value that is no pointer.
pub open spec fn pointee(t: Ty) -> Ty {
    match t {
        Ty::Pointer(inner) => *inner,
        _ => Ty::Int,
    }
}

/// The type of the elements of an array or of what a pointer points at; `int` otherwise.
pub open spec fn element_of(t: Ty) -> Ty {
    match t {
        Ty::Array(inner, _) => *inner,
        Ty::Pointer(inner) => *inner,
        _ => Ty::Int,
    }
}

pub open spec fn float_zero() -> Seq<char> {
    seq!['0', '.', '0']
}

/// The code of a one-register constant load.
pub open spec fn load(g: GenV, st: Seq<Seq<char>>, ins: spec_fn(usize) -> Ins, ty: Ty) -> Option<ExprOut> {
    match fresh_reg(g) {
        Some((g1, d)) => Some(ExprOut { gen: g1, strings: st, code: seq![ins(d)], reg: Some(d), ty }),
        None => None,
    }
}

/// The code of an expression. `None` where generation fails: a value is missing where one
/// is needed, a layout or a field is unknown, a node has no address, an operator is not
/// supported, or a counter would overflow.
pub open spec fn gen_expr(g: GenV, st: Seq<Seq<char>>, n: Node) -> Option<ExprOut>
    decreases n, 1nat,
{
    match n {
        Node::Number(t) => load(g, st, |d: usize| Ins::LoadFloatConst { dest: d, val: t }, Ty::Num),
        Node::IntNumber(v) => load(g, st, |d: usize| Ins::LoadIntConst { dest: d, val: v }, Ty::Int),
        Node::StringLit(s) => {
            let (st1, id) = intern(st, s);
            load(g, st1, |d: usize| Ins::LoadStringConst { dest: d, str_id: id as usize }, Ty::Text)
        },
        Node::Boolean(b) => load(g, st, |d: usize| Ins::LoadBoolConst { dest: d, val: b }, Ty::Flag),
        Node::Identifier(name) => load(
            g,
            st,
            |d: usize| Ins::LoadVar { dest: d, name },
            match lookup(g.symbols, name) {
                Some(t) => t,
                None => Ty::Int,
            },
        ),
        Node::BinaryOp { left, op, right } => match gen_expr(g, st, *left) {
            Some(l) => match gen_expr(l.gen, l.strings, *right) {
                Some(r) => match fresh_reg(r.gen) {
                    Some((g3, d)) => match (l.reg, r.reg) {
                        (Some(a), Some(b)) => match binary_ins(op, d, a, b, l.ty == Ty::Num) {
                            Some(ins) => Some(
                                ExprOut {
                                    gen: g3,
                                    strings: r.strings,
                                    code: l.code + r.code + seq![ins],
                                    reg: Some(d),
                                    ty: if is_arith(op) {
                                        l.ty
                                    } else {
                                        Ty::Flag
                                    },
                                },
                            ),
                            None => None,
                        },
                        _ => None,
                    },
                    None => None,
                },
                None => None,
            },
            None => None,
        },
        Node::UnaryOp { op, operand } => match gen_expr(g, st, *operand) {
            Some(o) => match (fresh_reg(o.gen), o.reg) {
                (Some((g1, d)), Some(s)) => if op == Tok::Bang {
                    Some(
                        ExprOut {
                            gen: g1,
                            strings: o.strings,
                            code: o.code + seq![Ins::LogNot { dest: d, src: s }],
                            reg: Some(d),
                            ty: Ty::Flag,
                        },
                    )
                } else if op == Tok::Minus {
                    match fresh_reg(g1) {
                        Some((g2, z)) => Some(
                            ExprOut {
                                gen: g2,
                                strings: o.strings,
                                code: o.code + if o.ty == Ty::Num {
                                    seq![
                                        Ins::LoadFloatConst { dest: z, val: float_zero() },
                                        Ins::Sub { dest: d, src1: z, src2: s, is_float: true },
                                    ]
                                } else {
                                    seq![
                                        Ins::LoadIntConst { dest: z, val: 0 },
                                        Ins::Sub { dest: d, src1: z, src2: s, is_float: false },
                                    ]
                                },
                                reg: Some(d),
                                ty: o.ty,
                            },
                        ),
                        None => None,
                    }
                } else {
                    None
                },
                _ => None,
            },
            None => None,
        },
        Node::Call { callee, args } => match gen_args(g, st, args) {
            Some(a) => match fresh_reg(a.gen) {
                Some((g1, d)) => Some(
                    ExprOut {
                        gen: g1,
                        strings: a.strings,
                        code: a.code + seq![Ins::Call { dest: Some(d), name: callee, args: a.regs }],
                        reg: Some(d),
                        ty: Ty::Int,
                    },
                ),
                None => None,
            },
            None => None,
        },
        Node::AddressOf(inner) => match gen_addr(g, st, *inner) {
            Some(a) => Some(
                ExprOut {
                    gen: a.gen,
                    strings: a.strings,
                    code: a.code,
                    reg: Some(a.reg),
                    ty: Ty::Pointer(Box::new(a.ty)),
                },
            ),
            None => None,
        },
        Node::Deref(inner) => match gen_expr(g, st, *inner) {
            Some(e) => match (fresh_reg(e.gen), e.reg) {
                (Some((g1, d)), Some(p)) => Some(
                    ExprOut {
                        gen: g1,
                        strings: e.strings,
                        code: e.code + seq![Ins::LoadDeref { dest: d, ptr_reg: p }],
                        reg: Some(d),
                        ty: pointee(e.ty),
                    },
                ),
                _ => None,
            },
            None => None,
        },
        Node::Claim(size) => match gen_expr(g, st, *size) {
            Some(e) => match (fresh_reg(e.gen), e.reg) {
                (Some((g1, d)), Some(s)) => Some(
                    ExprOut {
                        gen: g1,
                        strings: e.strings,
                        code: e.code + seq![Ins::Alloc { dest: d, size_reg: s }],
                        reg: Some(d),
                        ty: Ty::Pointer(Box::new(Ty::NoneType)),
                    },
                ),
                _ => None,
            },
            None => None,
        },
        Node::Purge(ptr) => match gen_expr(g, st, *ptr) {
            Some(e) => match e.reg {
                Some(p) => Some(
                    ExprOut {
                        gen: e.gen,
                        strings: e.strings,
                        code: e.code + seq![Ins::Free { ptr_reg: p }],
                        reg: None,
                        ty: Ty::NoneType,
                    },
                ),
                None => None,
            },
            None => None,
        },
        Node::ArrayIndex { .. } | Node::FieldAccess { .. } => match gen_addr(g, st, n) {
            Some(a) => match fresh_reg(a.gen) {
                Some((g1, d)) => Some(
                    ExprOut {
                        gen: g1,
                        strings: a.strings,
                        code: a.code + seq![Ins::LoadDeref { dest: d, ptr_reg: a.reg }],
                        reg: Some(d),
                        ty: a.ty,
                    },
                ),
                None => None,
            },
            None => None,
        },
        _ => Some(ExprOut { gen: g, strings: st, code: Seq::empty(), reg: None, ty: Ty::NoneType }),
    }
}

/// The code that computes an address: of a variable, of what a pointer points at, of a field
/// of a layout, or of an element of an array. `None` for any other node, and where
/// generation fails.
pub open spec fn gen_addr(g: GenV, st: Seq<Seq<char>>, n: Node) -> Option<AddrOut>
    decreases n, 0nat,
{
    match n {
        Node::Identifier(name) => match fresh_reg(g) {
            Some((g1, d)) => Some(
                AddrOut {
                    gen: g1,
                    strings: st,
                    code: seq![Ins::ComputeAddr { dest: d, var_name: name }],
                    reg: d,
                    ty: match lookup(g.symbols, name) {
                        Some(t) => t,
                        None => Ty::Int,
                    },
                },
            ),
            None => None,
        },
        Node::Deref(inner) => match gen_expr(g, st, *inner) {
            Some(e) => match e.reg {
                Some(p) => Some(
                    AddrOut { gen: e.gen, strings: e.strings, code: e.code, reg: p, ty: pointee(e.ty) },
                ),
                None => None,
            },
            None => None,
        },
        Node::FieldAccess { object, field } => match gen_addr(g, st, *object) {
            Some(b) => match layout_of(b.ty) {
                Some(lname) => match lookup(b.gen.layouts, lname) {
                    Some(def) => match find_field(def.fields, field) {
                        Some(f) => match fresh_reg(b.gen) {
                            Some((g1, d)) => Some(
                                AddrOut {
                                    gen: g1,
                                    strings: b.strings,
                                    code: b.code + seq![
                                        Ins::ComputeFieldAddr {
                                            dest: d,
                                            base_reg: b.reg,
                                            byte_offset: f.offset,
                                        },
                                    ],
                                    reg: d,
                                    ty: f.field_type,
                                },
                            ),
                            None => None,
                        },
                        None => None,
                    },
                    None => None,
                },
                None => None,
            },
            None => None,
        },
        Node::ArrayIndex { array, index } => match gen_addr(g, st, *array) {
            Some(b) => match gen_expr(b.gen, b.strings, *index) {
                Some(i) => match (fresh_reg(i.gen), i.reg) {
                    (Some((g1, d)), Some(ir)) => Some(
                        AddrOut {
                            gen: g1,
                            strings: i.strings,
                            code: b.code + i.code + seq![
                                Ins::ComputeIndexAddr {
                                    dest: d,
                                    base_reg: b.reg,
                                    index_reg: ir,
                                    elem_size: 8,
                                },
                            ],
                            reg: d,
                            ty: element_of(b.ty),
                        },
                    ),
                    _ => None,
                },
                None => None,
            },
            None => None,
        },
        _ => None,
    }
}

/// The code of call arguments, evaluated in order; each must give a value.
pub open spec fn gen_args(g: GenV, st: Seq<Seq<char>>, args: Seq<Node>) -> Option<ArgsOut>
    decreases args, 2nat,
{
    if args.len() == 0 {
        Some(ArgsOut { gen: g, strings: st, code: Seq::empty(), regs: Seq::empty() })
    } else {
        match gen_args(g, st, args.drop_last()) {
            Some(a) => match gen_expr(a.gen, a.strings, args.last()) {
                Some(e) => match e.reg {
                    Some(r) => Some(
                        ArgsOut {
                            gen: e.gen,
                            strings: e.strings,
                            code: a.code + e.code,
                            regs: a.regs.push(r),
                        },
                    ),
                    None => None,
                },
                None => None,
            },
            None => None,
        }
    }
}

pub open spec fn else_prefix() -> Seq<char> {
    seq!['e', 'l', 's', 'e']
}

pub open spec fn end_when_prefix() -> Seq<char> {
    seq!['e', 'n', 'd', '_', 'w', 'h', 'e', 'n']
}

pub open spec fn during_start_prefix() -> Seq<char> {
    seq!['d', 'u', 'r', 'i', 'n', 'g', '_', 's', 't', 'a', 'r', 't']
}

pub open spec fn during_end_prefix() -> Seq<char> {
    seq!['d', 'u', 'r', 'i', 'n', 'g', '_', 'e', 'n', 'd']
}

/// The code of a slot declaration: the variable's type is the declared one, or else that of
/// its initial value.
pub open spec fn gen_slot(g: GenV, st: Seq<Seq<char>>, n: Node) -> Option<StmtOut>
    decreases n, 2nat,
{
    match n {
        Node::SlotDecl { name, slot_type, value } => match value {
            Some(v) => match gen_expr(g, st, *v) {
                Some(e) => {
                    let actual = match slot_type {
                        Some(t) => t,
                        None => e.ty,
                    };
                    Some(
                        StmtOut {
                            gen: bind(e.gen, name, actual),
                            strings: e.strings,
                            code: e.code + match e.reg {
                                Some(r) => seq![Ins::StoreVar { name, src: r }],
                                None => Seq::empty(),
                            },
                        },
                    )
                },
                None => None,
            },
            None => match slot_type {
                Some(t) => Some(StmtOut { gen: bind(g, name, t), strings: st, code: Seq::empty() }),
                None => Some(StmtOut { gen: g, strings: st, code: Seq::empty() }),
            },
        },
        _ => None,
    }
}

/// The code of an assignment: the value first, then the store to the target, which must be
/// a variable, a dereference, a field or an array element.
pub open spec fn gen_assign(g: GenV, st: Seq<Seq<char>>, n: Node) -> Option<StmtOut>
    decreases n, 2nat,
{
    match n {
        Node::Assignment { target, value } => match gen_expr(g, st, *value) {
            Some(e) => match e.reg {
                Some(vr) => match *target {
                    Node::Identifier(name) => Some(
                        StmtOut {
                            gen: e.gen,
                            strings: e.strings,
                            code: e.code + seq![Ins::StoreVar { name, src: vr }],
                        },
                    ),
                    Node::Deref(inner) => match gen_expr(e.gen, e.strings, *inner) {
                        Some(p) => match p.reg {
                            Some(pr) => Some(
                                StmtOut {
                                    gen: p.gen,
                                    strings: p.strings,
                                    code: e.code + p.code + seq![
                                        Ins::StoreDeref { ptr_reg: pr, val_reg: vr },
                                    ],
                                },
                            ),
                            None => None,
                        },
                        None => None,
                    },
                    Node::FieldAccess { .. } | Node::ArrayIndex { .. } => match gen_addr(
                        e.gen,
                        e.strings,
                        *target,
                    ) {
                        Some(a) => Some(
                            StmtOut {
                                gen: a.gen,
                                strings: a.strings,
                                code: e.code + a.code + seq![
                                    Ins::StoreDeref { ptr_reg: a.reg, val_reg: vr },
                                ],
                            },
                        ),
                        None => None,
                    },
                    _ => None,
                },
                None => None,
            },
            None => None,
        },
        _ => None,
    }
}

/// The code of a `when`: a jump past the first branch where the condition fails, and,
/// where there is an `otherwise` branch, a jump past it at the end of the first.
pub open spec fn gen_when(g: GenV, st: Seq<Seq<char>>, n: Node) -> Option<StmtOut>
    decreases n, 2nat,
{
    match n {
        Node::When { condition, then_branch, else_branch } => match gen_expr(g, st, *condition) {
            Some(c) => match c.reg {
                Some(cr) => match fresh_label(c.gen, else_prefix()) {
                    Some((g1, el)) => match fresh_label(g1, end_when_prefix()) {
                        Some((g2, en)) => match gen_stmts(g2, c.strings, then_branch) {
                            Some(t) => match else_branch {
                                None => Some(
                                    StmtOut {
                                        gen: t.gen,
                                        strings: t.strings,
                                        code: c.code + seq![Ins::JumpIfFalse { cond_reg: cr, label: el }]
                                            + t.code + seq![Ins::Label(el)],
                                    },
                                ),
                                Some(eb) => match gen_stmts(t.gen, t.strings, eb) {
                                    Some(e) => Some(
                                        StmtOut {
                                            gen: e.gen,
                                            strings: e.strings,
                                            code: c.code + seq![
                                                Ins::JumpIfFalse { cond_reg: cr, label: el },
                                            ] + t.code + seq![Ins::Jump(en), Ins::Label(el)]
                                                + e.code + seq![Ins::Label(en)],
                                        },
                                    ),
                                    None => None,
                                },
                            },
                            None => None,
                        },
                        None => None,
                    },
                    None => None,
                },
                None => None,
            },
            None => None,
        },
        _ => None,
    }
}

/// The code of a `during` loop: a label at its start, the condition, a jump past the loop
/// where it fails, the body, and a jump back.
pub open spec fn gen_during(g: GenV, st: Seq<Seq<char>>, n: Node) -> Option<StmtOut>
    decreases n, 2nat,
{
    match n {
        Node::During { condition, body } => match fresh_label(g, during_start_prefix()) {
            Some((g1, sl)) => match fresh_label(g1, during_end_prefix()) {
                Some((g2, el)) => match gen_expr(g2, st, *condition) {
                    Some(c) => match c.reg {
                        Some(cr) => match gen_stmts(c.gen, c.strings, body) {
                            Some(b) => Some(
                                StmtOut {
                                    gen: b.gen,
                                    strings: b.strings,
                                    code: seq![Ins::Label(sl)] + c.code + seq![
                                        Ins::JumpIfFalse { cond_reg: cr, label: el },
                                    ] + b.code + seq![Ins::Jump(sl), Ins::Label(el)],
                                },
                            ),
                            None => None,
                        },
                        None => None,
                    },
                    None => None,
                },
                None => None,
            },
            None => None,
        },
        _ => None,
    }
}

/// The code of a statement. Declarations of layouts and procedures, and the nodes that are
/// no statement, give no code.
pub open spec fn gen_stmt(g: GenV, st: Seq<Seq<char>>, n: Node) -> Option<StmtOut>
    decreases n, 3nat,
{
    match n {
        Node::SlotDecl { .. } => gen_slot(g, st, n),
        Node::Assignment { .. } => gen_assign(g, st, n),
        Node::When { .. } => gen_when(g, st, n),
        Node::During { .. } => gen_during(g, st, n),
        Node::Emit(x) => match gen_expr(g, st, *x) {
            Some(e) => Some(
                StmtOut {
                    gen: e.gen,
                    strings: e.strings,
                    code: e.code + match e.reg {
                        Some(r) => seq![Ins::Emit { reg: r, reg_type: e.ty }],
                        None => Seq::empty(),
                    },
                },
            ),
            None => None,
        },
        Node::Yield(x) => match x {
            Some(e) => match gen_expr(g, st, *e) {
                Some(o) => Some(
                    StmtOut { gen: o.gen, strings: o.strings, code: o.code + seq![Ins::Yield(o.reg)] },
                ),
                None => None,
            },
            None => Some(StmtOut { gen: g, strings: st, code: seq![Ins::Yield(None)] }),
        },
        Node::Block(stmts) => gen_stmts(g, st, stmts),
        Node::ExprStatement(x) => match gen_expr(g, st, *x) {
            Some(e) => Some(StmtOut { gen: e.gen, strings: e.strings, code: e.code }),
            None => None,
        },
        _ => Some(StmtOut { gen: g, strings: st, code: Seq::empty() }),
    }
}

/// The code of statements, in order.
pub open spec fn gen_stmts(g: GenV, st: Seq<Seq<char>>, ns: Seq<Node>) -> Option<StmtOut>
    decreases ns, 3nat,
{
    if ns.len() == 0 {
        Some(StmtOut { gen: g, strings: st, code: Seq::empty() })
    } else {
        match gen_stmts(g, st, ns.drop_last()) {
            Some(a) => match gen_stmt(a.gen, a.strings, ns.last()) {
                Some(b) => Some(StmtOut { gen: b.gen, strings: b.strings, code: a.code + b.code }),
                None => None,
            },
            None => None,
        }
    }
}

// ---------------------------------------------------------------------------
// The model of programs
// ---------------------------------------------------------------------------

/// The model of a procedure of the intermediate form.
pub struct ProcV {
    pub name: Seq<char>,
    pub params: Seq<(Seq<char>, Ty)>,
    pub return_type: Ty,
    pub instructions: Seq<Ins>,
}

/// The model of a program of the intermediate form.
pub struct ProgV {
    pub procs: Seq<ProcV>,
    pub main: Seq<Ins>,
    pub strings: Seq<Seq<char>>,
    /// The layouts, the latest definition of a name winning.
    pub layouts: Seq<(Seq<char>, LayoutV)>,
}

pub open spec fn proc_names(ps: Seq<ProcV>) -> Seq<Seq<char>> {
    ps.map_values(|q: ProcV| q.name)
}

pub open spec fn append_code(q: ProcV, code: Seq<Ins>) -> ProcV {
    ProcV { name: q.name, params: q.params, return_type: q.return_type, instructions: q.instructions + code }
}

/// `p` with `code` appended where instructions go: to the main code outside procedures, and
/// inside the procedure `name` to the first procedure of that name (nowhere if there is none).
pub open spec fn emit_code(p: ProgV, in_proc: Option<Seq<char>>, code: Seq<Ins>) -> ProgV {
    match in_proc {
        None => ProgV { procs: p.procs, main: p.main + code, strings: p.strings, layouts: p.layouts },
        Some(name) => match first_index(proc_names(p.procs), name) {
            Some(k) => ProgV {
                procs: p.procs.update(k as int, append_code(p.procs[k as int], code)),
                main: p.main,
                strings: p.strings,
                layouts: p.layouts,
            },
            None => p,
        },
    }
}

/// `p` after `code` was emitted and the string table became `strings`.
pub open spec fn after(p: ProgV, in_proc: Option<Seq<char>>, code: Seq<Ins>, strings: Seq<Seq<char>>) -> ProgV {
    let e = emit_code(p, in_proc, code);
    ProgV { procs: e.procs, main: e.main, strings, layouts: e.layouts }
}

pub open spec fn param_entries(ps: Seq<ParamV>) -> Seq<(Seq<char>, Ty)> {
    ps.map_values(|q: ParamV| (q.name, q.param_type))
}

/// Generating a procedure: its parameters are bound for its body, it is added to the program,
/// its body's code goes where code of its name goes, and the variables bound before it are
/// restored after it.
pub open spec fn gen_proc(
    g: GenV,
    p: ProgV,
    name: Seq<char>,
    params: Seq<ParamV>,
    ret: Ty,
    body: Seq<Node>,
) -> Option<(GenV, ProgV)> {
    let entries = param_entries(params);
    let g1 = GenV {
        next_reg: g.next_reg,
        next_label: g.next_label,
        symbols: g.symbols + entries,
        layouts: g.layouts,
    };
    let p1 = ProgV {
        procs: p.procs.push(ProcV { name, params: entries, return_type: ret, instructions: Seq::empty() }),
        main: p.main,
        strings: p.strings,
        layouts: p.layouts,
    };
    match gen_stmts(g1, p1.strings, body) {
        Some(b) => Some(
            (
                GenV {
                    next_reg: b.gen.next_reg,
                    next_label: b.gen.next_label,
                    symbols: g.symbols,
                    layouts: b.gen.layouts,
                },
                after(p1, Some(name), b.code, b.strings),
            ),
        ),
        None => None,
    }
}

/// Generating the procedures among the nodes, in order.
pub open spec fn gen_procs(g: GenV, p: ProgV, ast: Seq<Node>) -> Option<(GenV, ProgV)>
    decreases ast.len(),
{
    if ast.len() == 0 {
        Some((g, p))
    } else {
        match gen_procs(g, p, ast.drop_last()) {
            Some((g1, p1)) => match ast.last() {
                Node::ProcDecl { name, params, return_type, body } => gen_proc(
                    g1,
                    p1,
                    name,
                    params,
                    return_type,
                    body,
                ),
                _ => Some((g1, p1)),
            },
            None => None,
        }
    }
}

/// The layouts declared among the nodes, in order, each under its name.
pub open spec fn layout_entries(ast: Seq<Node>) -> Seq<(Seq<char>, LayoutV)>
    decreases ast.len(),
{
    if ast.len() == 0 {
        Seq::empty()
    } else {
        layout_entries(ast.drop_last()) + match ast.last() {
            Node::LayoutDecl(d) => seq![(d.name, d)],
            _ => Seq::empty(),
        }
    }
}

pub open spec fn empty_prog() -> ProgV {
    ProgV { procs: Seq::empty(), main: Seq::empty(), strings: Seq::empty(), layouts: Seq::empty() }
}

/// Generating a program: first its layouts become known, then its procedures are generated
/// in order, then the rest of its nodes, in order, as the main code.
pub open spec fn gen_program(g: GenV, ast: Seq<Node>) -> Option<(GenV, ProgV)> {
    let defs = layout_entries(ast);
    let g1 = GenV {
        next_reg: g.next_reg,
        next_label: g.next_label,
        symbols: g.symbols,
        layouts: g.layouts + defs,
    };
    let p0 = ProgV { procs: Seq::empty(), main: Seq::empty(), strings: Seq::empty(), layouts: defs };
    match gen_procs(g1, p0, ast) {
        Some((g2, p1)) => match gen_stmts(g2, p1.strings, ast) {
            Some(m) => Some((m.gen, after(p1, None, m.code, m.strings))),
            None => None,
        },
        None => None,
    }
}

// ---------------------------------------------------------------------------
// Lemmas on the model
// ---------------------------------------------------------------------------

pub proof fn lemma_first_index(s: Seq<Seq<char>>, x: Seq<char>)
    ensures
        match first_index(s, x) {
            Some(k) => k < s.len() && s[k as int] == x && forall|j: int| 0 <= j < k ==> s[j] != x,
            None => forall|j: int| 0 <= j < s.len() ==> s[j] != x,
        },
    decreases s.len(),
{
    if s.len() > 0 && s[0] != x {
        lemma_first_index(s.drop_first(), x);
        match first_index(s.drop_first(), x) {
            Some(k) => {
                assert forall|j: int| 0 <= j < k + 1 implies s[j] != x by {
                    if j > 0 {
                        assert(s[j] == s.drop_first()[j - 1]);
                    }
                }
            },
            None => {
                assert forall|j: int| 0 <= j < s.len() implies s[j] != x by {
                    if j > 0 {
                        assert(s[j] == s.drop_first()[j - 1]);
                    }
                }
            },
        }
    }
}

/// Whether no string occurs twice in `s`.
pub open spec fn distinct(s: Seq<Seq<char>>) -> bool {
    forall|i: int, j: int| 0 <= i < j < s.len() ==> s[i] != s[j]
}

/// Adding a string to the table: the index it gives holds the string, the strings already
/// there keep their places, and at most the one string is added.
pub proof fn lemma_intern_finds(s: Seq<Seq<char>>, x: Seq<char>)
    ensures
        ({
            let (t, i) = intern(s, x);
            &&& i < t.len()
            &&& t[i as int] == x
            &&& s.is_prefix_of(t)
            &&& t.len() <= s.len() + 1
        }),
{
    lemma_first_index(s, x);
}

/// Adding a string that was just added changes nothing and gives the same index.
pub proof fn lemma_intern_idempotent(s: Seq<Seq<char>>, x: Seq<char>)
    ensures
        intern(intern(s, x).0, x) == intern(s, x),
{
    lemma_first_index(s, x);
    let t = intern(s, x).0;
    lemma_first_index(t, x);
    if first_index(s, x) is None {
        assert(t[s.len() as int] == x);
    }
}

/// A table in which no string occurs twice stays so when a string is added.
pub proof fn lemma_intern_distinct(s: Seq<Seq<char>>, x: Seq<char>)
    requires
        distinct(s),
    ensures
        distinct(intern(s, x).0),
{
    lemma_first_index(s, x);
}

pub proof fn lemma_after_after(
    p: ProgV,
    ip: Option<Seq<char>>,
    a: Seq<Ins>,
    s1: Seq<Seq<char>>,
    b: Seq<Ins>,
    s2: Seq<Seq<char>>,
)
    ensures
        after(after(p, ip, a, s1), ip, b, s2) == after(p, ip, a + b, s2),
{
    match ip {
        None => {
            assert(p.main + a + b =~= p.main + (a + b));
        },
        Some(name) => {
            match first_index(proc_names(p.procs), name) {
                Some(k) => {
                    lemma_first_index(proc_names(p.procs), name);
                    let q = after(p, ip, a, s1);
                    assert(proc_names(q.procs) =~= proc_names(p.procs));
                    assert(p.procs[k as int].instructions + a + b =~= p.procs[k as int].instructions + (a + b));
                    assert(q.procs.update(k as int, append_code(q.procs[k as int], b)) =~= p.procs.update(
                        k as int,
                        append_code(p.procs[k as int], a + b),
                    ));
                },
                None => {},
            }
        },
    }
}

pub proof fn lemma_after_empty(p: ProgV, ip: Option<Seq<char>>, s: Seq<Seq<char>>)
    ensures
        after(p, ip, Seq::empty(), s) == (ProgV { procs: p.procs, main: p.main, strings: s, layouts: p.layouts }),
{
    match ip {
        None => {
            assert(p.main + Seq::<Ins>::empty() =~= p.main);
        },
        Some(name) => {
            match first_index(proc_names(p.procs), name) {
                Some(k) => {
                    lemma_first_index(proc_names(p.procs), name);
                    assert(p.procs[k as int].instructions + Seq::<Ins>::empty() =~= p.procs[k as int].instructions);
                    assert(p.procs.update(k as int, append_code(p.procs[k as int], Seq::empty())) =~= p.procs);
                },
                None => {},
            }
        },
    }
}

// ---------------------------------------------------------------------------
// Laws of generation
// ---------------------------------------------------------------------------

/// The state `(g2, st2)` is no earlier than `(g, st)`: neither counter went back, the string
/// table kept its strings in their places, and if it held no string twice it still holds none.
pub open spec fn advances(g: GenV, st: Seq<Seq<char>>, g2: GenV, st2: Seq<Seq<char>>) -> bool {
    &&& g.next_reg <= g2.next_reg
    &&& g.next_label <= g2.next_label
    &&& st.len() <= st2.len()
    &&& forall|i: int| 0 <= i < st.len() ==> st2[i] == st[i]
    &&& distinct(st) ==> distinct(st2)
}

/// Generating an expression moves the state forward, and the register that holds the value
/// is a new one: at or above the register counter before, and below it after.
pub proof fn lemma_gen_expr_fresh(g: GenV, st: Seq<Seq<char>>, n: Node)
    ensures
        gen_expr(g, st, n) matches Some(o) ==> {
            &&& advances(g, st, o.gen, o.strings)
            &&& (o.reg matches Some(r) ==> g.next_reg <= r < o.gen.next_reg)
        },
    decreases n, 1nat,
{
    match n {
        Node::StringLit(s) => {
            lemma_intern_finds(st, s);
            if distinct(st) {
                lemma_intern_distinct(st, s);
            }
        },
        Node::BinaryOp { left, op, right } => {
            lemma_gen_expr_fresh(g, st, *left);
            if let Some(l) = gen_expr(g, st, *left) {
                lemma_gen_expr_fresh(l.gen, l.strings, *right);
            }
        },
        Node::UnaryOp { op, operand } => {
            lemma_gen_expr_fresh(g, st, *operand);
        },
        Node::Call { callee, args } => {
            lemma_gen_args_fresh(g, st, args);
        },
        Node::AddressOf(inner) => {
            lemma_gen_addr_fresh(g, st, *inner);
        },
        Node::Deref(inner) => {
            lemma_gen_expr_fresh(g, st, *inner);
        },
        Node::Claim(inner) => {
            lemma_gen_expr_fresh(g, st, *inner);
        },
        Node::Purge(inner) => {
            lemma_gen_expr_fresh(g, st, *inner);
        },
        Node::ArrayIndex { .. } => {
            lemma_gen_addr_fresh(g, st, n);
        },
        Node::FieldAccess { .. } => {
            lemma_gen_addr_fresh(g, st, n);
        },
        _ => {},
    }
}

/// Generating an address moves the state forward, and the register that holds the address
/// is a new one.
pub proof fn lemma_gen_addr_fresh(g: GenV, st: Seq<Seq<char>>, n: Node)
    ensures
        gen_addr(g, st, n) matches Some(a) ==> {
            &&& advances(g, st, a.gen, a.strings)
            &&& g.next_reg <= a.reg < a.gen.next_reg
        },
    decreases n, 0nat,
{
    match n {
        Node::Deref(inner) => {
            lemma_gen_expr_fresh(g, st, *inner);
        },
        Node::FieldAccess { object, field } => {
            lemma_gen_addr_fresh(g, st, *object);
        },
        Node::ArrayIndex { array, index } => {
            lemma_gen_addr_fresh(g, st, *array);
            if let Some(b) = gen_addr(g, st, *array) {
                lemma_gen_expr_fresh(b.gen, b.strings, *index);
            }
        },
        _ => {},
    }
}

/// Generating call arguments moves the state forward, and each argument's value lies in a
/// new register, each above the one before.
pub proof fn lemma_gen_args_fresh(g: GenV, st: Seq<Seq<char>>, args: Seq<Node>)
    ensures
        gen_args(g, st, args) matches Some(a) ==> {
            &&& advances(g, st, a.gen, a.strings)
            &&& a.regs.len() == args.len()
            &&& forall|i: int| 0 <= i < a.regs.len() ==> g.next_reg <= #[trigger] a.regs[i] < a.gen.next_reg
            &&& forall|i: int, j: int| 0 <= i < j < a.regs.len() ==> a.regs[i] < a.regs[j]
        },
    decreases args, 2nat,
{
    if args.len() > 0 {
        lemma_gen_args_fresh(g, st, args.drop_last());
        if let Some(a) = gen_args(g, st, args.drop_last()) {
            lemma_gen_expr_fresh(a.gen, a.strings, args.last());
        }
    }
}

proof fn lemma_gen_slot_advances(g: GenV, st: Seq<Seq<char>>, n: Node)
    ensures
        gen_slot(g, st, n) matches Some(o) ==> advances(g, st, o.gen, o.strings),
{
    if let Node::SlotDecl { name, slot_type, value } = n {
        if let Some(v) = value {
            lemma_gen_expr_fresh(g, st, *v);
        }
    }
}

proof fn lemma_gen_assign_advances(g: GenV, st: Seq<Seq<char>>, n: Node)
    ensures
        gen_assign(g, st, n) matches Some(o) ==> advances(g, st, o.gen, o.strings),
{
    if let Node::Assignment { target, value } = n {
        lemma_gen_expr_fresh(g, st, *value);
        if let Some(e) = gen_expr(g, st, *value) {
            match *target {
                Node::Deref(inner) => {
                    lemma_gen_expr_fresh(e.gen, e.strings, *inner);
                },
                _ => {
                    lemma_gen_addr_fresh(e.gen, e.strings, *target);
                },
            }
        }
    }
}

#[verifier::spinoff_prover]
proof fn lemma_gen_when_advances(g: GenV, st: Seq<Seq<char>>, n: Node)
    ensures
        gen_when(g, st, n) matches Some(o) ==> advances(g, st, o.gen, o.strings),
    decreases n, 2nat,
{
    if let Node::When { condition, then_branch, else_branch } = n {
        lemma_gen_expr_fresh(g, st, *condition);
        if let Some(c) = gen_expr(g, st, *condition) {
            if let Some((g1, el)) = fresh_label(c.gen, else_prefix()) {
                if let Some((g2, en)) = fresh_label(g1, end_when_prefix()) {
                    lemma_gen_stmts_advances(g2, c.strings, then_branch);
                    if let Some(t) = gen_stmts(g2, c.strings, then_branch) {
                        if let Some(eb) = else_branch {
                            lemma_gen_stmts_advances(t.gen, t.strings, eb);
                        }
                    }
                }
            }
        }
    }
}

#[verifier::spinoff_prover]
proof fn lemma_gen_during_advances(g: GenV, st: Seq<Seq<char>>, n: Node)
    ensures
        gen_during(g, st, n) matches Some(o) ==> advances(g, st, o.gen, o.strings),
    decreases n, 2nat,
{
    if let Node::During { condition, body } = n {
        if let Some((g1, sl)) = fresh_label(g, during_start_prefix()) {
            if let Some((g2, el)) = fresh_label(g1, during_end_prefix()) {
                lemma_gen_expr_fresh(g2, st, *condition);
                if let Some(c) = gen_expr(g2, st, *condition) {
                    lemma_gen_stmts_advances(c.gen, c.strings, body);
                }
            }
        }
    }
}

/// Generating a statement moves the state forward.
pub proof fn lemma_gen_stmt_advances(g: GenV, st: Seq<Seq<char>>, n: Node)
    ensures
        gen_stmt(g, st, n) matches Some(o) ==> advances(g, st, o.gen, o.strings),
    decreases n, 3nat,
{
    match n {
        Node::SlotDecl { .. } => {
            lemma_gen_slot_advances(g, st, n);
        },
        Node::Assignment { .. } => {
            lemma_gen_assign_advances(g, st, n);
        },
        Node::When { .. } => {
            lemma_gen_when_advances(g, st, n);
        },
        Node::During { .. } => {
            lemma_gen_during_advances(g, st, n);
        },
        Node::Emit(x) => {
            lemma_gen_expr_fresh(g, st, *x);
        },
        Node::Yield(x) => {
            if let Some(e) = x {
                lemma_gen_expr_fresh(g, st, *e);
            }
        },
        Node::Block(stmts) => {
            lemma_gen_stmts_advances(g, st, stmts);
        },
        Node::ExprStatement(x) => {
            lemma_gen_expr_fresh(g, st, *x);
        },
        _ => {},
    }
}

/// Generating statements moves the state forward.
pub proof fn lemma_gen_stmts_advances(g: GenV, st: Seq<Seq<char>>, ns: Seq<Node>)
    ensures
        gen_stmts(g, st, ns) matches Some(o) ==> advances(g, st, o.gen, o.strings),
    decreases ns, 3nat,
{
    if ns.len() > 0 {
        lemma_gen_stmts_advances(g, st, ns.drop_last());
        if let Some(a) = gen_stmts(g, st, ns.drop_last()) {
            lemma_gen_stmt_advances(a.gen, a.strings, ns.last());
        }
    }
}

proof fn lemma_gen_procs_advances(g: GenV, p: ProgV, ast: Seq<Node>)
    ensures
        gen_procs(g, p, ast) matches Some((g1, p1)) ==> advances(g, p.strings, g1, p1.strings),
    decreases ast.len(),
{
    if ast.len() > 0 {
        lemma_gen_procs_advances(g, p, ast.drop_last());
        if let Some((g1, p1)) = gen_procs(g, p, ast.drop_last()) {
            if let Node::ProcDecl { name, params, return_type, body } = ast.last() {
                let gb = GenV {
                    next_reg: g1.next_reg,
                    next_label: g1.next_label,
                    symbols: g1.symbols + param_entries(params),
                    layouts: g1.layouts,
                };
                lemma_gen_stmts_advances(gb, p1.strings, body);
            }
        }
    }
}

/// A generated program's string table holds no string twice, and generating it moves
/// neither counter back.
pub proof fn lemma_gen_program_advances(g: GenV, ast: Seq<Node>)
    ensures
        gen_program(g, ast) matches Some((g2, p)) ==> {
            &&& distinct(p.strings)
            &&& g.next_reg <= g2.next_reg
            &&& g.next_label <= g2.next_label
        },
{
    let defs = layout_entries(ast);
    let g1 = GenV {
        next_reg: g.next_reg,
        next_label: g.next_label,
        symbols: g.symbols,
        layouts: g.layouts + defs,
    };
    let p0 = ProgV { procs: Seq::empty(), main: Seq::empty(), strings: Seq::empty(), layouts: defs };
    lemma_gen_procs_advances(g1, p0, ast);
    if let Some((g2, p1)) = gen_procs(g1, p0, ast) {
        lemma_gen_stmts_advances(g2, p1.strings, ast);
    }
}

/// Every string constant that `code` loads is among the first `n` strings of the table.
pub open spec fn loads_within(code: Seq<Ins>, n: nat) -> bool {
    forall|i: int|
        0 <= i < code.len() ==> (#[trigger] code[i] matches Ins::LoadStringConst { str_id, .. } ==> str_id
            < n)
}

proof fn lemma_loads_within_concat(a: Seq<Ins>, b: Seq<Ins>, n: nat)
    requires
        loads_within(a, n),
        loads_within(b, n),
    ensures
        loads_within(a + b, n),
{
    assert forall|i: int| 0 <= i < (a + b).len() implies (#[trigger] (a + b)[i] matches Ins::LoadStringConst {
        str_id,
        ..
    } ==> str_id < n) by {
        if i < a.len() {
            assert((a + b)[i] == a[i]);
        } else {
            assert((a + b)[i] == b[i - a.len()]);
        }
    }
}

proof fn lemma_loads_within_grow(a: Seq<Ins>, n: nat, m: nat)
    requires
        loads_within(a, n),
        n <= m,
    ensures
        loads_within(a, m),
{
}

/// The code of an expression loads only strings that its string table holds.
#[verifier::spinoff_prover]
#[verifier::rlimit(40)]
pub proof fn lemma_gen_expr_loads(g: GenV, st: Seq<Seq<char>>, n: Node)
    ensures
        gen_expr(g, st, n) matches Some(o) ==> loads_within(o.code, o.strings.len()),
    decreases n, 2nat,
{
    match n {
        Node::StringLit(s) => {
            lemma_intern_finds(st, s);
        },
        Node::BinaryOp { left, op, right } => {
            lemma_gen_expr_loads(g, st, *left);
            if let Some(l) = gen_expr(g, st, *left) {
                lemma_gen_expr_loads(l.gen, l.strings, *right);
                lemma_gen_expr_fresh(l.gen, l.strings, *right);
                if let Some(r) = gen_expr(l.gen, l.strings, *right) {
                    lemma_loads_within_grow(l.code, l.strings.len(), r.strings.len());
                    lemma_loads_within_concat(l.code, r.code, r.strings.len());
                    if let Some((g3, d)) = fresh_reg(r.gen) {
                        if let (Some(a), Some(b)) = (l.reg, r.reg) {
                            if let Some(ins) = binary_ins(op, d, a, b, l.ty == Ty::Num) {
                                lemma_loads_within_concat(l.code + r.code, seq![ins], r.strings.len());
                            }
                        }
                    }
                }
            }
        },
        Node::UnaryOp { op, operand } => {
            lemma_gen_expr_loads(g, st, *operand);
            if let Some(o) = gen_expr(g, st, *operand) {
                if let (Some((g1, d)), Some(s)) = (fresh_reg(o.gen), o.reg) {
                    if let Some((g2, z)) = fresh_reg(g1) {
                        let tail = if o.ty == Ty::Num {
                            seq![
                                Ins::LoadFloatConst { dest: z, val: float_zero() },
                                Ins::Sub { dest: d, src1: z, src2: s, is_float: true },
                            ]
                        } else {
                            seq![
                                Ins::LoadIntConst { dest: z, val: 0 },
                                Ins::Sub { dest: d, src1: z, src2: s, is_float: false },
                            ]
                        };
                        lemma_loads_within_concat(o.code, tail, o.strings.len());
                    }
                    lemma_loads_within_concat(
                        o.code,
                        seq![Ins::LogNot { dest: d, src: s }],
                        o.strings.len(),
                    );
                }
            }
        },
        Node::Call { callee, args } => {
            lemma_gen_args_loads(g, st, args);
            if let Some(a) = gen_args(g, st, args) {
                if let Some((g1, d)) = fresh_reg(a.gen) {
                    lemma_loads_within_concat(
                        a.code,
                        seq![Ins::Call { dest: Some(d), name: callee, args: a.regs }],
                        a.strings.len(),
                    );
                }
            }
        },
        Node::AddressOf(inner) => {
            lemma_gen_addr_loads(g, st, *inner);
        },
        Node::Deref(inner) => {
            lemma_gen_expr_loads(g, st, *inner);
            if let Some(e) = gen_expr(g, st, *inner) {
                if let (Some((g1, d)), Some(p)) = (fresh_reg(e.gen), e.reg) {
                    lemma_loads_within_concat(
                        e.code,
                        seq![Ins::LoadDeref { dest: d, ptr_reg: p }],
                        e.strings.len(),
                    );
                }
            }
        },
        Node::Claim(inner) => {
            lemma_gen_expr_loads(g, st, *inner);
            if let Some(e) = gen_expr(g, st, *inner) {
                if let (Some((g1, d)), Some(s)) = (fresh_reg(e.gen), e.reg) {
                    lemma_loads_within_concat(
                        e.code,
                        seq![Ins::Alloc { dest: d, size_reg: s }],
                        e.strings.len(),
                    );
                }
            }
        },
        Node::Purge(inner) => {
            lemma_gen_expr_loads(g, st, *inner);
            if let Some(e) = gen_expr(g, st, *inner) {
                if let Some(p) = e.reg {
                    lemma_loads_within_concat(e.code, seq![Ins::Free { ptr_reg: p }], e.strings.len());
                }
            }
        },
        Node::ArrayIndex { .. } => {
            lemma_gen_expr_loads_via_addr(g, st, n);
        },
        Node::FieldAccess { .. } => {
            lemma_gen_expr_loads_via_addr(g, st, n);
        },
        _ => {},
    }
}

proof fn lemma_gen_expr_loads_via_addr(g: GenV, st: Seq<Seq<char>>, n: Node)
    requires
        n is ArrayIndex || n is FieldAccess,
    ensures
        gen_expr(g, st, n) matches Some(o) ==> loads_within(o.code, o.strings.len()),
    decreases n, 1nat,
{
    lemma_gen_addr_loads(g, st, n);
    if let Some(a) = gen_addr(g, st, n) {
        if let Some((g1, d)) = fresh_reg(a.gen) {
            lemma_loads_within_concat(
                a.code,
                seq![Ins::LoadDeref { dest: d, ptr_reg: a.reg }],
                a.strings.len(),
            );
        }
    }
}

/// The code of an address loads only strings that its string table holds.
pub proof fn lemma_gen_addr_loads(g: GenV, st: Seq<Seq<char>>, n: Node)
    ensures
        gen_addr(g, st, n) matches Some(a) ==> loads_within(a.code, a.strings.len()),
    decreases n, 0nat,
{
    match n {
        Node::Deref(inner) => {
            lemma_gen_expr_loads(g, st, *inner);
        },
        Node::FieldAccess { object, field } => {
            lemma_gen_addr_loads(g, st, *object);
            if let Some(b) = gen_addr(g, st, *object) {
                if let Some(lname) = layout_of(b.ty) {
                    if let Some(def) = lookup(b.gen.layouts, lname) {
                        if let Some(f) = find_field(def.fields, field) {
                            if let Some((g1, d)) = fresh_reg(b.gen) {
                                lemma_loads_within_concat(
                                    b.code,
                                    seq![
                                        Ins::ComputeFieldAddr {
                                            dest: d,
                                            base_reg: b.reg,
                                            byte_offset: f.offset,
                                        },
                                    ],
                                    b.strings.len(),
                                );
                            }
                        }
                    }
                }
            }
        },
        Node::ArrayIndex { array, index } => {
            lemma_gen_addr_loads(g, st, *array);
            if let Some(b) = gen_addr(g, st, *array) {
                lemma_gen_expr_loads(b.gen, b.strings, *index);
                lemma_gen_expr_fresh(b.gen, b.strings, *index);
                if let Some(i) = gen_expr(b.gen, b.strings, *index) {
                    lemma_loads_within_grow(b.code, b.strings.len(), i.strings.len());
                    lemma_loads_within_concat(b.code, i.code, i.strings.len());
                    if let (Some((g1, d)), Some(ir)) = (fresh_reg(i.gen), i.reg) {
                        lemma_loads_within_concat(
                            b.code + i.code,
                            seq![
                                Ins::ComputeIndexAddr {
                                    dest: d,
                                    base_reg: b.reg,
                                    index_reg: ir,
                                    elem_size: 8,
                                },
                            ],
                            i.strings.len(),
                        );
                    }
                }
            }
        },
        _ => {},
    }
}

/// The code of call arguments loads only strings that its string table holds.
pub proof fn lemma_gen_args_loads(g: GenV, st: Seq<Seq<char>>, args: Seq<Node>)
    ensures
        gen_args(g, st, args) matches Some(a) ==> loads_within(a.code, a.strings.len()),
    decreases args, 3nat,
{
    if args.len() > 0 {
        lemma_gen_args_loads(g, st, args.drop_last());
        if let Some(a) = gen_args(g, st, args.drop_last()) {
            lemma_gen_expr_loads(a.gen, a.strings, args.last());
            lemma_gen_expr_fresh(a.gen, a.strings, args.last());
            if let Some(e) = gen_expr(a.gen, a.strings, args.last()) {
                lemma_loads_within_grow(a.code, a.strings.len(), e.strings.len());
                lemma_loads_within_concat(a.code, e.code, e.strings.len());
            }
        }
    }
}

proof fn lemma_gen_slot_loads(g: GenV, st: Seq<Seq<char>>, n: Node)
    ensures
        gen_slot(g, st, n) matches Some(o) ==> loads_within(o.code, o.strings.len()),
{
    if let Node::SlotDecl { name, slot_type, value } = n {
        if let Some(v) = value {
            lemma_gen_expr_loads(g, st, *v);
            if let Some(e) = gen_expr(g, st, *v) {
                if let Some(r) = e.reg {
                    lemma_loads_within_concat(e.code, seq![Ins::StoreVar { name, src: r }], e.strings.len());
                } else {
                    assert(e.code + Seq::<Ins>::empty() =~= e.code);
                }
            }
        }
    }
}

proof fn lemma_gen_assign_loads(g: GenV, st: Seq<Seq<char>>, n: Node)
    ensures
        gen_assign(g, st, n) matches Some(o) ==> loads_within(o.code, o.strings.len()),
{
    if let Node::Assignment { target, value } = n {
        lemma_gen_expr_loads(g, st, *value);
        if let Some(e) = gen_expr(g, st, *value) {
            if let Some(vr) = e.reg {
                match *target {
                    Node::Identifier(name) => {
                        lemma_loads_within_concat(
                            e.code,
                            seq![Ins::StoreVar { name, src: vr }],
                            e.strings.len(),
                        );
                    },
                    Node::Deref(inner) => {
                        lemma_gen_expr_loads(e.gen, e.strings, *inner);
                        lemma_gen_expr_fresh(e.gen, e.strings, *inner);
                        if let Some(p) = gen_expr(e.gen, e.strings, *inner) {
                            if let Some(pr) = p.reg {
                                lemma_loads_within_grow(e.code, e.strings.len(), p.strings.len());
                                lemma_loads_within_concat(e.code, p.code, p.strings.len());
                                lemma_loads_within_concat(
                                    e.code + p.code,
                                    seq![Ins::StoreDeref { ptr_reg: pr, val_reg: vr }],
                                    p.strings.len(),
                                );
                            }
                        }
                    },
                    _ => {
                        lemma_gen_addr_loads(e.gen, e.strings, *target);
                        lemma_gen_addr_fresh(e.gen, e.strings, *target);
                        if let Some(a) = gen_addr(e.gen, e.strings, *target) {
                            lemma_loads_within_grow(e.code, e.strings.len(), a.strings.len());
                            lemma_loads_within_concat(e.code, a.code, a.strings.len());
                            lemma_loads_within_concat(
                                e.code + a.code,
                                seq![Ins::StoreDeref { ptr_reg: a.reg, val_reg: vr }],
                                a.strings.len(),
                            );
                        }
                    },
                }
            }
        }
    }
}

#[verifier::spinoff_prover]
proof fn lemma_gen_when_loads(g: GenV, st: Seq<Seq<char>>, n: Node)
    ensures
        gen_when(g, st, n) matches Some(o) ==> loads_within(o.code, o.strings.len()),
    decreases n, 2nat,
{
    if let Node::When { condition, then_branch, else_branch } = n {
        lemma_gen_expr_loads(g, st, *condition);
        if let Some(c) = gen_expr(g, st, *condition) {
            if let Some(cr) = c.reg {
                if let Some((g1, el)) = fresh_label(c.gen, else_prefix()) {
                    if let Some((g2, en)) = fresh_label(g1, end_when_prefix()) {
                        lemma_gen_stmts_loads(g2, c.strings, then_branch);
                        lemma_gen_stmts_advances(g2, c.strings, then_branch);
                        if let Some(t) = gen_stmts(g2, c.strings, then_branch) {
                            let jump = seq![Ins::JumpIfFalse { cond_reg: cr, label: el }];
                            lemma_loads_within_grow(c.code, c.strings.len(), t.strings.len());
                            lemma_loads_within_concat(c.code, jump, t.strings.len());
                            lemma_loads_within_concat(c.code + jump, t.code, t.strings.len());
                            match else_branch {
                                None => {
                                    lemma_loads_within_concat(
                                        c.code + jump + t.code,
                                        seq![Ins::Label(el)],
                                        t.strings.len(),
                                    );
                                },
                                Some(eb) => {
                                    lemma_gen_stmts_loads(t.gen, t.strings, eb);
                                    lemma_gen_stmts_advances(t.gen, t.strings, eb);
                                    if let Some(e) = gen_stmts(t.gen, t.strings, eb) {
                                        let mid = seq![Ins::Jump(en), Ins::Label(el)];
                                        let head = c.code + jump + t.code;
                                        lemma_loads_within_grow(head, t.strings.len(), e.strings.len());
                                        lemma_loads_within_concat(head, mid, e.strings.len());
                                        lemma_loads_within_concat(head + mid, e.code, e.strings.len());
                                        lemma_loads_within_concat(
                                            head + mid + e.code,
                                            seq![Ins::Label(en)],
                                            e.strings.len(),
                                        );
                                    }
                                },
                            }
                        }
                    }
                }
            }
        }
    }
}

#[verifier::spinoff_prover]
proof fn lemma_gen_during_loads(g: GenV, st: Seq<Seq<char>>, n: Node)
    ensures
        gen_during(g, st, n) matches Some(o) ==> loads_within(o.code, o.strings.len()),
    decreases n, 2nat,
{
    if let Node::During { condition, body } = n {
        if let Some((g1, sl)) = fresh_label(g, during_start_prefix()) {
            if let Some((g2, el)) = fresh_label(g1, during_end_prefix()) {
                lemma_gen_expr_loads(g2, st, *condition);
                if let Some(c) = gen_expr(g2, st, *condition) {
                    if let Some(cr) = c.reg {
                        lemma_gen_stmts_loads(c.gen, c.strings, body);
                        lemma_gen_stmts_advances(c.gen, c.strings, body);
                        if let Some(b) = gen_stmts(c.gen, c.strings, body) {
                            let start = seq![Ins::Label(sl)];
                            let jump = seq![Ins::JumpIfFalse { cond_reg: cr, label: el }];
                            lemma_loads_within_grow(c.code, c.strings.len(), b.strings.len());
                            lemma_loads_within_concat(start, c.code, b.strings.len());
                            lemma_loads_within_concat(start + c.code, jump, b.strings.len());
                            lemma_loads_within_concat(start + c.code + jump, b.code, b.strings.len());
                            lemma_loads_within_concat(
                                start + c.code + jump + b.code,
                                seq![Ins::Jump(sl), Ins::Label(el)],
                                b.strings.len(),
                            );
                        }
                    }
                }
            }
        }
    }
}

/// The code of a statement loads only strings that its string table holds.
pub proof fn lemma_gen_stmt_loads(g: GenV, st: Seq<Seq<char>>, n: Node)
    ensures
        gen_stmt(g, st, n) matches Some(o) ==> loads_within(o.code, o.strings.len()),
    decreases n, 3nat,
{
    match n {
        Node::SlotDecl { .. } => {
            lemma_gen_slot_loads(g, st, n);
        },
        Node::Assignment { .. } => {
            lemma_gen_assign_loads(g, st, n);
        },
        Node::When { .. } => {
            lemma_gen_when_loads(g, st, n);
        },
        Node::During { .. } => {
            lemma_gen_during_loads(g, st, n);
        },
        Node::Emit(x) => {
            lemma_gen_expr_loads(g, st, *x);
            if let Some(e) = gen_expr(g, st, *x) {
                if let Some(r) = e.reg {
                    lemma_loads_within_concat(
                        e.code,
                        seq![Ins::Emit { reg: r, reg_type: e.ty }],
                        e.strings.len(),
                    );
                } else {
                    assert(e.code + Seq::<Ins>::empty() =~= e.code);
                }
            }
        },
        Node::Yield(x) => {
            if let Some(e) = x {
                lemma_gen_expr_loads(g, st, *e);
                if let Some(o) = gen_expr(g, st, *e) {
                    lemma_loads_within_concat(o.code, seq![Ins::Yield(o.reg)], o.strings.len());
                }
            }
        },
        Node::Block(stmts) => {
            lemma_gen_stmts_loads(g, st, stmts);
        },
        Node::ExprStatement(x) => {
            lemma_gen_expr_loads(g, st, *x);
        },
        _ => {},
    }
}

/// The code of statements loads only strings that its string table holds.
pub proof fn lemma_gen_stmts_loads(g: GenV, st: Seq<Seq<char>>, ns: Seq<Node>)
    ensures
        gen_stmts(g, st, ns) matches Some(o) ==> loads_within(o.code, o.strings.len()),
    decreases ns, 3nat,
{
    if ns.len() > 0 {
        lemma_gen_stmts_loads(g, st, ns.drop_last());
        if let Some(a) = gen_stmts(g, st, ns.drop_last()) {
            lemma_gen_stmt_loads(a.gen, a.strings, ns.last());
            lemma_gen_stmt_advances(a.gen, a.strings, ns.last());
            if let Some(b) = gen_stmt(a.gen, a.strings, ns.last()) {
                lemma_loads_within_grow(a.code, a.strings.len(), b.strings.len());
                lemma_loads_within_concat(a.code, b.code, b.strings.len());
            }
        }
    }
}

/// Every string constant that a program's code loads, in its procedures and in its main
/// code, is in its string table.
pub open spec fn prog_loads_within(p: ProgV) -> bool {
    &&& loads_within(p.main, p.strings.len())
    &&& forall|k: int|
        0 <= k < p.procs.len() ==> loads_within(#[trigger] p.procs[k].instructions, p.strings.len())
}

proof fn lemma_after_loads(p: ProgV, ip: Option<Seq<char>>, code: Seq<Ins>, strings: Seq<Seq<char>>)
    requires
        prog_loads_within(p),
        p.strings.len() <= strings.len(),
        loads_within(code, strings.len()),
    ensures
        prog_loads_within(after(p, ip, code, strings)),
{
    let q = after(p, ip, code, strings);
    lemma_loads_within_grow(p.main, p.strings.len(), strings.len());
    match ip {
        None => {
            lemma_loads_within_concat(p.main, code, strings.len());
            assert forall|k: int| 0 <= k < q.procs.len() implies loads_within(
                #[trigger] q.procs[k].instructions,
                strings.len(),
            ) by {
                lemma_loads_within_grow(p.procs[k].instructions, p.strings.len(), strings.len());
            }
        },
        Some(name) => {
            match first_index(proc_names(p.procs), name) {
                Some(i) => {
                    lemma_first_index(proc_names(p.procs), name);
                    assert forall|k: int| 0 <= k < q.procs.len() implies loads_within(
                        #[trigger] q.procs[k].instructions,
                        strings.len(),
                    ) by {
                        lemma_loads_within_grow(p.procs[k].instructions, p.strings.len(), strings.len());
                        if k == i {
                            lemma_loads_within_concat(p.procs[k].instructions, code, strings.len());
                        }
                    }
                },
                None => {
                    assert forall|k: int| 0 <= k < q.procs.len() implies loads_within(
                        #[trigger] q.procs[k].instructions,
                        strings.len(),
                    ) by {
                        lemma_loads_within_grow(p.procs[k].instructions, p.strings.len(), strings.len());
                    }
                },
            }
        },
    }
}

proof fn lemma_gen_procs_loads(g: GenV, p: ProgV, ast: Seq<Node>)
    requires
        prog_loads_within(p),
    ensures
        gen_procs(g, p, ast) matches Some((g1, p1)) ==> prog_loads_within(p1),
    decreases ast.len(),
{
    if ast.len() > 0 {
        lemma_gen_procs_loads(g, p, ast.drop_last());
        if let Some((g1, p1)) = gen_procs(g, p, ast.drop_last()) {
            if let Node::ProcDecl { name, params, return_type, body } = ast.last() {
                let entries = param_entries(params);
                let gb = GenV {
                    next_reg: g1.next_reg,
                    next_label: g1.next_label,
                    symbols: g1.symbols + entries,
                    layouts: g1.layouts,
                };
                let pb = ProgV {
                    procs: p1.procs.push(
                        ProcV { name, params: entries, return_type, instructions: Seq::empty() },
                    ),
                    main: p1.main,
                    strings: p1.strings,
                    layouts: p1.layouts,
                };
                assert(prog_loads_within(pb)) by {
                    assert forall|k: int| 0 <= k < pb.procs.len() implies loads_within(
                        #[trigger] pb.procs[k].instructions,
                        pb.strings.len(),
                    ) by {
                        if k < p1.procs.len() {
                            assert(pb.procs[k] == p1.procs[k]);
                        }
                    }
                }
                lemma_gen_stmts_loads(gb, pb.strings, body);
                lemma_gen_stmts_advances(gb, pb.strings, body);
                if let Some(b) = gen_stmts(gb, pb.strings, body) {
                    lemma_after_loads(pb, Some(name), b.code, b.strings);
                }
            }
        }
    }
}

/// Every string constant that a generated program loads, in its procedures and in its main
/// code, is in its string table.
pub proof fn lemma_gen_program_loads(g: GenV, ast: Seq<Node>)
    ensures
        gen_program(g, ast) matches Some((g2, p)) ==> prog_loads_within(p),
{
    let defs = layout_entries(ast);
    let g1 = GenV {
        next_reg: g.next_reg,
        next_label: g.next_label,
        symbols: g.symbols,
        layouts: g.layouts + defs,
    };
    let p0 = ProgV { procs: Seq::empty(), main: Seq::empty(), strings: Seq::empty(), layouts: defs };
    lemma_gen_procs_loads(g1, p0, ast);
    lemma_gen_procs_advances(g1, p0, ast);
    if let Some((g2, p1)) = gen_procs(g1, p0, ast) {
        lemma_gen_stmts_loads(g2, p1.strings, ast);
        lemma_gen_stmts_advances(g2, p1.strings, ast);
        if let Some(m) = gen_stmts(g2, p1.strings, ast) {
            lemma_after_loads(p1, None, m.code, m.strings);
        }
    }
}

/// The register an instruction writes, if any.
pub open spec fn dest_of(ins: Ins) -> Option<usize> {
    match ins {
        Ins::LoadFloatConst { dest, .. } => Some(dest),
        Ins::LoadIntConst { dest, .. } => Some(dest),
        Ins::LoadStringConst { dest, .. } => Some(dest),
        Ins::LoadBoolConst { dest, .. } => Some(dest),
        Ins::LoadVar { dest, .. } => Some(dest),
        Ins::Add { dest, .. } => Some(dest),
        Ins::Sub { dest, .. } => Some(dest),
        Ins::Mul { dest, .. } => Some(dest),
        Ins::Div { dest, .. } => Some(dest),
        Ins::Mod { dest, .. } => Some(dest),
        Ins::CmpEq { dest, .. } => Some(dest),
        Ins::CmpNeq { dest, .. } => Some(dest),
        Ins::CmpLt { dest, .. } => Some(dest),
        Ins::CmpLte { dest, .. } => Some(dest),
        Ins::CmpGt { dest, .. } => Some(dest),
        Ins::CmpGte { dest, .. } => Some(dest),
        Ins::LogAnd { dest, .. } => Some(dest),
        Ins::LogOr { dest, .. } => Some(dest),
        Ins::LogNot { dest, .. } => Some(dest),
        Ins::Call { dest, .. } => dest,
        Ins::ComputeAddr { dest, .. } => Some(dest),
        Ins::LoadDeref { dest, .. } => Some(dest),
        Ins::ComputeFieldAddr { dest, .. } => Some(dest),
        Ins::ComputeIndexAddr { dest, .. } => Some(dest),
        Ins::Alloc { dest, .. } => Some(dest),
        _ => None,
    }
}

/// Every register that `code` writes lies in `[lo, hi)`, and no register is written twice.
pub open spec fn writes_fresh(code: Seq<Ins>, lo: int, hi: int) -> bool {
    &&& forall|i: int|
        0 <= i < code.len() && (#[trigger] dest_of(code[i])) is Some ==> lo <= dest_of(code[i])->0 < hi
    &&& forall|i: int, j: int|
        0 <= i < j < code.len() && (#[trigger] dest_of(code[i])) is Some ==> dest_of(code[i]) != #[trigger] dest_of(
            code[j],
        )
}

proof fn lemma_writes_fresh_concat(a: Seq<Ins>, b: Seq<Ins>, lo: int, mid: int, hi: int)
    requires
        writes_fresh(a, lo, mid),
        writes_fresh(b, mid, hi),
        lo <= mid <= hi,
    ensures
        writes_fresh(a + b, lo, hi),
{
    let c = a + b;
    assert forall|i: int| 0 <= i < c.len() && (#[trigger] dest_of(c[i])) is Some implies lo <= dest_of(
        c[i],
    )->0 < hi by {
        if i < a.len() {
            assert(dest_of(c[i]) == dest_of(a[i]));
        } else {
            assert(dest_of(c[i]) == dest_of(b[i - a.len()]));
        }
    }
    assert forall|i: int, j: int|
        0 <= i < j < c.len() && (#[trigger] dest_of(c[i])) is Some implies dest_of(c[i])
            != #[trigger] dest_of(c[j]) by {
        if j < a.len() {
            assert(dest_of(c[i]) == dest_of(a[i]) && dest_of(c[j]) == dest_of(a[j]));
        } else if i >= a.len() {
            assert(dest_of(c[i]) == dest_of(b[i - a.len()]) && dest_of(c[j]) == dest_of(b[j - a.len()]));
        } else {
            assert(dest_of(c[i]) == dest_of(a[i]) && dest_of(c[j]) == dest_of(b[j - a.len()]));
        }
    }
}

proof fn lemma_writes_fresh_widen(a: Seq<Ins>, lo: int, hi: int, lo2: int, hi2: int)
    requires
        writes_fresh(a, lo, hi),
        lo2 <= lo,
        hi <= hi2,
    ensures
        writes_fresh(a, lo2, hi2),
{
}

/// The code of an expression writes only new registers: each one once, all at or above the
/// register counter before and below it after.
/// The code of an expression writes only new registers: each one once, all at or above the
/// register counter before and below it after.
pub proof fn lemma_gen_expr_writes(g: GenV, st: Seq<Seq<char>>, n: Node)
    ensures
        gen_expr(g, st, n) matches Some(o) ==> writes_fresh(o.code, g.next_reg as int, o.gen.next_reg as int),
    decreases n, 2nat,
{
    match n {
        Node::BinaryOp { .. } => {
            lemma_gen_binary_writes(g, st, n);
        },
        Node::UnaryOp { .. } => {
            lemma_gen_unary_writes(g, st, n);
        },
        Node::Call { .. } | Node::AddressOf(_) | Node::Deref(_) | Node::Claim(_) | Node::Purge(_) => {
            lemma_gen_other_writes(g, st, n);
        },
        Node::ArrayIndex { .. } => {
            lemma_gen_expr_writes_via_addr(g, st, n);
        },
        Node::FieldAccess { .. } => {
            lemma_gen_expr_writes_via_addr(g, st, n);
        },
        _ => {
            lemma_gen_expr_fresh(g, st, n);
        },
    }
}

#[verifier::spinoff_prover]
proof fn lemma_gen_binary_writes(g: GenV, st: Seq<Seq<char>>, n: Node)
    requires
        n is BinaryOp,
    ensures
        gen_expr(g, st, n) matches Some(o) ==> writes_fresh(o.code, g.next_reg as int, o.gen.next_reg as int),
    decreases n, 1nat,
{
    lemma_gen_expr_fresh(g, st, n);
    if let Node::BinaryOp { left, op, right } = n {
        lemma_gen_expr_writes(g, st, *left);
        lemma_gen_expr_fresh(g, st, *left);
        if let Some(l) = gen_expr(g, st, *left) {
            lemma_gen_expr_writes(l.gen, l.strings, *right);
            lemma_gen_expr_fresh(l.gen, l.strings, *right);
            if let Some(r) = gen_expr(l.gen, l.strings, *right) {
                lemma_writes_fresh_concat(
                    l.code,
                    r.code,
                    g.next_reg as int,
                    l.gen.next_reg as int,
                    r.gen.next_reg as int,
                );
                if let Some((g3, d)) = fresh_reg(r.gen) {
                    if let (Some(a), Some(b)) = (l.reg, r.reg) {
                        if let Some(ins) = binary_ins(op, d, a, b, l.ty == Ty::Num) {
                            lemma_writes_fresh_concat(
                                l.code + r.code,
                                seq![ins],
                                g.next_reg as int,
                                r.gen.next_reg as int,
                                g3.next_reg as int,
                            );
                        }
                    }
                }
            }
        }
    }
}

#[verifier::spinoff_prover]
proof fn lemma_gen_unary_writes(g: GenV, st: Seq<Seq<char>>, n: Node)
    requires
        n is UnaryOp,
    ensures
        gen_expr(g, st, n) matches Some(o) ==> writes_fresh(o.code, g.next_reg as int, o.gen.next_reg as int),
    decreases n, 1nat,
{
    lemma_gen_expr_fresh(g, st, n);
    if let Node::UnaryOp { op, operand } = n {
        lemma_gen_expr_writes(g, st, *operand);
        lemma_gen_expr_fresh(g, st, *operand);
        if let Some(o) = gen_expr(g, st, *operand) {
            if let (Some((g1, d)), Some(s)) = (fresh_reg(o.gen), o.reg) {
                lemma_writes_fresh_concat(
                    o.code,
                    seq![Ins::LogNot { dest: d, src: s }],
                    g.next_reg as int,
                    o.gen.next_reg as int,
                    g1.next_reg as int,
                );
                if let Some((g2, z)) = fresh_reg(g1) {
                    let tail = if o.ty == Ty::Num {
                        seq![
                            Ins::LoadFloatConst { dest: z, val: float_zero() },
                            Ins::Sub { dest: d, src1: z, src2: s, is_float: true },
                        ]
                    } else {
                        seq![
                            Ins::LoadIntConst { dest: z, val: 0 },
                            Ins::Sub { dest: d, src1: z, src2: s, is_float: false },
                        ]
                    };
                    assert(writes_fresh(tail, o.gen.next_reg as int, g2.next_reg as int));
                    lemma_writes_fresh_concat(
                        o.code,
                        tail,
                        g.next_reg as int,
                        o.gen.next_reg as int,
                        g2.next_reg as int,
                    );
                }
            }
        }
    }
}

#[verifier::spinoff_prover]
proof fn lemma_gen_other_writes(g: GenV, st: Seq<Seq<char>>, n: Node)
    requires
        n is Call || n is AddressOf || n is Deref || n is Claim || n is Purge,
    ensures
        gen_expr(g, st, n) matches Some(o) ==> writes_fresh(o.code, g.next_reg as int, o.gen.next_reg as int),
    decreases n, 1nat,
{
    lemma_gen_expr_fresh(g, st, n);
    match n {
        Node::Call { callee, args } => {
            lemma_gen_args_writes(g, st, args);
            lemma_gen_args_fresh(g, st, args);
            if let Some(a) = gen_args(g, st, args) {
                if let Some((g1, d)) = fresh_reg(a.gen) {
                    lemma_writes_fresh_concat(
                        a.code,
                        seq![Ins::Call { dest: Some(d), name: callee, args: a.regs }],
                        g.next_reg as int,
                        a.gen.next_reg as int,
                        g1.next_reg as int,
                    );
                }
            }
        },
        Node::AddressOf(inner) => {
            lemma_gen_addr_writes(g, st, *inner);
        },
        Node::Deref(inner) => {
            lemma_gen_expr_writes(g, st, *inner);
            lemma_gen_expr_fresh(g, st, *inner);
            if let Some(e) = gen_expr(g, st, *inner) {
                if let (Some((g1, d)), Some(p)) = (fresh_reg(e.gen), e.reg) {
                    lemma_writes_fresh_concat(
                        e.code,
                        seq![Ins::LoadDeref { dest: d, ptr_reg: p }],
                        g.next_reg as int,
                        e.gen.next_reg as int,
                        g1.next_reg as int,
                    );
                }
            }
        },
        Node::Claim(inner) => {
            lemma_gen_expr_writes(g, st, *inner);
            lemma_gen_expr_fresh(g, st, *inner);
            if let Some(e) = gen_expr(g, st, *inner) {
                if let (Some((g1, d)), Some(sr)) = (fresh_reg(e.gen), e.reg) {
                    lemma_writes_fresh_concat(
                        e.code,
                        seq![Ins::Alloc { dest: d, size_reg: sr }],
                        g.next_reg as int,
                        e.gen.next_reg as int,
                        g1.next_reg as int,
                    );
                }
            }
        },
        Node::Purge(inner) => {
            lemma_gen_expr_writes(g, st, *inner);
            lemma_gen_expr_fresh(g, st, *inner);
            if let Some(e) = gen_expr(g, st, *inner) {
                if let Some(p) = e.reg {
                    lemma_writes_fresh_concat(
                        e.code,
                        seq![Ins::Free { ptr_reg: p }],
                        g.next_reg as int,
                        e.gen.next_reg as int,
                        e.gen.next_reg as int,
                    );
                }
            }
        },
        _ => {},
    }
}

proof fn lemma_gen_expr_writes_via_addr(g: GenV, st: Seq<Seq<char>>, n: Node)
    requires
        n is ArrayIndex || n is FieldAccess,
    ensures
        gen_expr(g, st, n) matches Some(o) ==> writes_fresh(o.code, g.next_reg as int, o.gen.next_reg as int),
    decreases n, 1nat,
{
    lemma_gen_addr_writes(g, st, n);
    lemma_gen_addr_fresh(g, st, n);
    if let Some(a) = gen_addr(g, st, n) {
        if let Some((g1, d)) = fresh_reg(a.gen) {
            lemma_writes_fresh_concat(
                a.code,
                seq![Ins::LoadDeref { dest: d, ptr_reg: a.reg }],
                g.next_reg as int,
                a.gen.next_reg as int,
                g1.next_reg as int,
            );
        }
    }
}

/// The code of an address writes only new registers, each once.
pub proof fn lemma_gen_addr_writes(g: GenV, st: Seq<Seq<char>>, n: Node)
    ensures
        gen_addr(g, st, n) matches Some(a) ==> writes_fresh(a.code, g.next_reg as int, a.gen.next_reg as int),
    decreases n, 0nat,
{
    match n {
        Node::Deref(inner) => {
            lemma_gen_expr_writes(g, st, *inner);
        },
        Node::FieldAccess { object, field } => {
            lemma_gen_addr_writes(g, st, *object);
            lemma_gen_addr_fresh(g, st, *object);
            if let Some(b) = gen_addr(g, st, *object) {
                if let Some(lname) = layout_of(b.ty) {
                    if let Some(def) = lookup(b.gen.layouts, lname) {
                        if let Some(f) = find_field(def.fields, field) {
                            if let Some((g1, d)) = fresh_reg(b.gen) {
                                lemma_writes_fresh_concat(
                                    b.code,
                                    seq![
                                        Ins::ComputeFieldAddr {
                                            dest: d,
                                            base_reg: b.reg,
                                            byte_offset: f.offset,
                                        },
                                    ],
                                    g.next_reg as int,
                                    b.gen.next_reg as int,
                                    g1.next_reg as int,
                                );
                            }
                        }
                    }
                }
            }
        },
        Node::ArrayIndex { array, index } => {
            lemma_gen_addr_writes(g, st, *array);
            lemma_gen_addr_fresh(g, st, *array);
            if let Some(b) = gen_addr(g, st, *array) {
                lemma_gen_expr_writes(b.gen, b.strings, *index);
                lemma_gen_expr_fresh(b.gen, b.strings, *index);
                if let Some(i) = gen_expr(b.gen, b.strings, *index) {
                    lemma_writes_fresh_concat(
                        b.code,
                        i.code,
                        g.next_reg as int,
                        b.gen.next_reg as int,
                        i.gen.next_reg as int,
                    );
                    if let (Some((g1, d)), Some(ir)) = (fresh_reg(i.gen), i.reg) {
                        lemma_writes_fresh_concat(
                            b.code + i.code,
                            seq![
                                Ins::ComputeIndexAddr {
                                    dest: d,
                                    base_reg: b.reg,
                                    index_reg: ir,
                                    elem_size: 8,
                                },
                            ],
                            g.next_reg as int,
                            i.gen.next_reg as int,
                            g1.next_reg as int,
                        );
                    }
                }
            }
        },
        _ => {},
    }
}

/// The code of call arguments writes only new registers, each once.
pub proof fn lemma_gen_args_writes(g: GenV, st: Seq<Seq<char>>, args: Seq<Node>)
    ensures
        gen_args(g, st, args) matches Some(a) ==> writes_fresh(a.code, g.next_reg as int, a.gen.next_reg as int),
    decreases args, 3nat,
{
    if args.len() > 0 {
        lemma_gen_args_writes(g, st, args.drop_last());
        lemma_gen_args_fresh(g, st, args.drop_last());
        if let Some(a) = gen_args(g, st, args.drop_last()) {
            lemma_gen_expr_writes(a.gen, a.strings, args.last());
            lemma_gen_expr_fresh(a.gen, a.strings, args.last());
            if let Some(e) = gen_expr(a.gen, a.strings, args.last()) {
                lemma_writes_fresh_concat(
                    a.code,
                    e.code,
                    g.next_reg as int,
                    a.gen.next_reg as int,
                    e.gen.next_reg as int,
                );
            }
        }
    }
}

proof fn lemma_gen_slot_writes(g: GenV, st: Seq<Seq<char>>, n: Node)
    ensures
        gen_slot(g, st, n) matches Some(o) ==> writes_fresh(o.code, g.next_reg as int, o.gen.next_reg as int),
{
    if let Node::SlotDecl { name, slot_type, value } = n {
        if let Some(v) = value {
            lemma_gen_expr_writes(g, st, *v);
            lemma_gen_expr_fresh(g, st, *v);
            if let Some(e) = gen_expr(g, st, *v) {
                let lo = g.next_reg as int;
                let hi = e.gen.next_reg as int;
                if let Some(r) = e.reg {
                    lemma_writes_fresh_concat(e.code, seq![Ins::StoreVar { name, src: r }], lo, hi, hi);
                } else {
                    assert(e.code + Seq::<Ins>::empty() =~= e.code);
                }
            }
        }
    }
}

proof fn lemma_gen_assign_writes(g: GenV, st: Seq<Seq<char>>, n: Node)
    ensures
        gen_assign(g, st, n) matches Some(o) ==> writes_fresh(o.code, g.next_reg as int, o.gen.next_reg as int),
{
    if let Node::Assignment { target, value } = n {
        lemma_gen_expr_writes(g, st, *value);
        lemma_gen_expr_fresh(g, st, *value);
        if let Some(e) = gen_expr(g, st, *value) {
            let lo = g.next_reg as int;
            let mid = e.gen.next_reg as int;
            if let Some(vr) = e.reg {
                match *target {
                    Node::Identifier(name) => {
                        lemma_writes_fresh_concat(e.code, seq![Ins::StoreVar { name, src: vr }], lo, mid, mid);
                    },
                    Node::Deref(inner) => {
                        lemma_gen_expr_writes(e.gen, e.strings, *inner);
                        lemma_gen_expr_fresh(e.gen, e.strings, *inner);
                        if let Some(p) = gen_expr(e.gen, e.strings, *inner) {
                            if let Some(pr) = p.reg {
                                let hi = p.gen.next_reg as int;
                                lemma_writes_fresh_concat(e.code, p.code, lo, mid, hi);
                                lemma_writes_fresh_concat(
                                    e.code + p.code,
                                    seq![Ins::StoreDeref { ptr_reg: pr, val_reg: vr }],
                                    lo,
                                    hi,
                                    hi,
                                );
                            }
                        }
                    },
                    _ => {
                        lemma_gen_addr_writes(e.gen, e.strings, *target);
                        lemma_gen_addr_fresh(e.gen, e.strings, *target);
                        if let Some(a) = gen_addr(e.gen, e.strings, *target) {
                            let hi = a.gen.next_reg as int;
                            lemma_writes_fresh_concat(e.code, a.code, lo, mid, hi);
                            lemma_writes_fresh_concat(
                                e.code + a.code,
                                seq![Ins::StoreDeref { ptr_reg: a.reg, val_reg: vr }],
                                lo,
                                hi,
                                hi,
                            );
                        }
                    },
                }
            }
        }
    }
}

proof fn lemma_when_code_writes(
    ccode: Seq<Ins>,
    cr: usize,
    el: Seq<char>,
    en: Seq<char>,
    tcode: Seq<Ins>,
    ecode: Seq<Ins>,
    lo: int,
    m1: int,
    m2: int,
    m3: int,
)
    requires
        writes_fresh(ccode, lo, m1),
        writes_fresh(tcode, m1, m2),
        writes_fresh(ecode, m2, m3),
        lo <= m1 <= m2 <= m3,
    ensures
        writes_fresh(
            ccode + seq![Ins::JumpIfFalse { cond_reg: cr, label: el }] + tcode + seq![Ins::Label(el)],
            lo,
            m2,
        ),
        writes_fresh(
            ccode + seq![Ins::JumpIfFalse { cond_reg: cr, label: el }] + tcode + seq![
                Ins::Jump(en),
                Ins::Label(el),
            ] + ecode + seq![Ins::Label(en)],
            lo,
            m3,
        ),
{
    let jump = seq![Ins::JumpIfFalse { cond_reg: cr, label: el }];
    lemma_writes_fresh_concat(ccode, jump, lo, m1, m1);
    lemma_writes_fresh_concat(ccode + jump, tcode, lo, m1, m2);
    let head = ccode + jump + tcode;
    lemma_writes_fresh_concat(head, seq![Ins::Label(el)], lo, m2, m2);
    let mid = seq![Ins::Jump(en), Ins::Label(el)];
    lemma_writes_fresh_concat(head, mid, lo, m2, m2);
    lemma_writes_fresh_concat(head + mid, ecode, lo, m2, m3);
    lemma_writes_fresh_concat(head + mid + ecode, seq![Ins::Label(en)], lo, m3, m3);
}

#[verifier::spinoff_prover]
proof fn lemma_gen_when_writes(g: GenV, st: Seq<Seq<char>>, n: Node)
    ensures
        gen_when(g, st, n) matches Some(o) ==> writes_fresh(o.code, g.next_reg as int, o.gen.next_reg as int),
    decreases n, 2nat,
{
    if let Node::When { condition, then_branch, else_branch } = n {
        lemma_gen_expr_writes(g, st, *condition);
        lemma_gen_expr_fresh(g, st, *condition);
        if let Some(c) = gen_expr(g, st, *condition) {
            if let Some(cr) = c.reg {
                if let Some((g1, el)) = fresh_label(c.gen, else_prefix()) {
                    if let Some((g2, en)) = fresh_label(g1, end_when_prefix()) {
                        lemma_gen_stmts_writes(g2, c.strings, then_branch);
                        lemma_gen_stmts_advances(g2, c.strings, then_branch);
                        if let Some(t) = gen_stmts(g2, c.strings, then_branch) {
                            let lo = g.next_reg as int;
                            let m1 = c.gen.next_reg as int;
                            let m2 = t.gen.next_reg as int;
                            match else_branch {
                                None => {
                                    lemma_when_code_writes(
                                        c.code,
                                        cr,
                                        el,
                                        en,
                                        t.code,
                                        Seq::empty(),
                                        lo,
                                        m1,
                                        m2,
                                        m2,
                                    );
                                },
                                Some(eb) => {
                                    lemma_gen_stmts_writes(t.gen, t.strings, eb);
                                    lemma_gen_stmts_advances(t.gen, t.strings, eb);
                                    if let Some(e) = gen_stmts(t.gen, t.strings, eb) {
                                        lemma_when_code_writes(
                                            c.code,
                                            cr,
                                            el,
                                            en,
                                            t.code,
                                            e.code,
                                            lo,
                                            m1,
                                            m2,
                                            e.gen.next_reg as int,
                                        );
                                    }
                                },
                            }
                        }
                    }
                }
            }
        }
    }
}

#[verifier::spinoff_prover]
#[verifier::rlimit(80)]
proof fn lemma_gen_during_writes(g: GenV, st: Seq<Seq<char>>, n: Node)
    ensures
        gen_during(g, st, n) matches Some(o) ==> writes_fresh(o.code, g.next_reg as int, o.gen.next_reg as int),
    decreases n, 2nat,
{
    if let Node::During { condition, body } = n {
        if let Some((g1, sl)) = fresh_label(g, during_start_prefix()) {
            if let Some((g2, el)) = fresh_label(g1, during_end_prefix()) {
                lemma_gen_expr_writes(g2, st, *condition);
                lemma_gen_expr_fresh(g2, st, *condition);
                if let Some(c) = gen_expr(g2, st, *condition) {
                    if let Some(cr) = c.reg {
                        lemma_gen_stmts_writes(c.gen, c.strings, body);
                        lemma_gen_stmts_advances(c.gen, c.strings, body);
                        if let Some(b) = gen_stmts(c.gen, c.strings, body) {
                            let lo = g.next_reg as int;
                            let m1 = c.gen.next_reg as int;
                            let m2 = b.gen.next_reg as int;
                            let start = seq![Ins::Label(sl)];
                            let jump = seq![Ins::JumpIfFalse { cond_reg: cr, label: el }];
                            lemma_writes_fresh_concat(start, c.code, lo, lo, m1);
                            lemma_writes_fresh_concat(start + c.code, jump, lo, m1, m1);
                            lemma_writes_fresh_concat(start + c.code + jump, b.code, lo, m1, m2);
                            lemma_writes_fresh_concat(
                                start + c.code + jump + b.code,
                                seq![Ins::Jump(sl), Ins::Label(el)],
                                lo,
                                m2,
                                m2,
                            );
                        }
                    }
                }
            }
        }
    }
}

/// The code of a statement writes only new registers, each once.
pub proof fn lemma_gen_stmt_writes(g: GenV, st: Seq<Seq<char>>, n: Node)
    ensures
        gen_stmt(g, st, n) matches Some(o) ==> writes_fresh(o.code, g.next_reg as int, o.gen.next_reg as int),
    decreases n, 3nat,
{
    match n {
        Node::SlotDecl { .. } => {
            lemma_gen_slot_writes(g, st, n);
        },
        Node::Assignment { .. } => {
            lemma_gen_assign_writes(g, st, n);
        },
        Node::When { .. } => {
            lemma_gen_when_writes(g, st, n);
        },
        Node::During { .. } => {
            lemma_gen_during_writes(g, st, n);
        },
        Node::Emit(x) => {
            lemma_gen_expr_writes(g, st, *x);
            lemma_gen_expr_fresh(g, st, *x);
            if let Some(e) = gen_expr(g, st, *x) {
                let hi = e.gen.next_reg as int;
                if let Some(r) = e.reg {
                    lemma_writes_fresh_concat(
                        e.code,
                        seq![Ins::Emit { reg: r, reg_type: e.ty }],
                        g.next_reg as int,
                        hi,
                        hi,
                    );
                } else {
                    assert(e.code + Seq::<Ins>::empty() =~= e.code);
                }
            }
        },
        Node::Yield(x) => {
            if let Some(e) = x {
                lemma_gen_expr_writes(g, st, *e);
                lemma_gen_expr_fresh(g, st, *e);
                if let Some(o) = gen_expr(g, st, *e) {
                    let hi = o.gen.next_reg as int;
                    lemma_writes_fresh_concat(o.code, seq![Ins::Yield(o.reg)], g.next_reg as int, hi, hi);
                }
            }
        },
        Node::Block(stmts) => {
            lemma_gen_stmts_writes(g, st, stmts);
        },
        Node::ExprStatement(x) => {
            lemma_gen_expr_writes(g, st, *x);
        },
        _ => {},
    }
}

/// The code of statements writes only new registers, each once.
pub proof fn lemma_gen_stmts_writes(g: GenV, st: Seq<Seq<char>>, ns: Seq<Node>)
    ensures
        gen_stmts(g, st, ns) matches Some(o) ==> writes_fresh(o.code, g.next_reg as int, o.gen.next_reg as int),
    decreases ns, 3nat,
{
    if ns.len() > 0 {
        lemma_gen_stmts_writes(g, st, ns.drop_last());
        lemma_gen_stmts_advances(g, st, ns.drop_last());
        if let Some(a) = gen_stmts(g, st, ns.drop_last()) {
            lemma_gen_stmt_writes(a.gen, a.strings, ns.last());
            lemma_gen_stmt_advances(a.gen, a.strings, ns.last());
            if let Some(b) = gen_stmt(a.gen, a.strings, ns.last()) {
                lemma_writes_fresh_concat(
                    a.code,
                    b.code,
                    g.next_reg as int,
                    a.gen.next_reg as int,
                    b.gen.next_reg as int,
                );
            }
        }
    }
}

/// The instruction lists of a program: its main code first, then each procedure's.
pub open spec fn code_lists(p: ProgV) -> Seq<Seq<Ins>> {
    seq![p.main] + p.procs.map_values(|q: ProcV| q.instructions)
}

/// Each list writes only registers in `[lo, hi)`, each once, and no register is written in
/// two lists.
pub open spec fn lists_write_fresh(ls: Seq<Seq<Ins>>, lo: int, hi: int) -> bool {
    &&& forall|a: int| 0 <= a < ls.len() ==> writes_fresh(#[trigger] ls[a], lo, hi)
    &&& forall|a: int, b: int, i: int, j: int|
        0 <= a < b < ls.len() && 0 <= i < ls[a].len() && 0 <= j < ls[b].len() && (#[trigger] dest_of(
            ls[a][i],
        )) is Some ==> dest_of(ls[a][i]) != #[trigger] dest_of(ls[b][j])
}

proof fn lemma_lists_append(ls: Seq<Seq<Ins>>, k: int, code: Seq<Ins>, lo: int, hi: int, hi2: int)
    requires
        lists_write_fresh(ls, lo, hi),
        writes_fresh(code, hi, hi2),
        0 <= k < ls.len(),
        lo <= hi <= hi2,
    ensures
        lists_write_fresh(ls.update(k, ls[k] + code), lo, hi2),
{
    let ls2 = ls.update(k, ls[k] + code);
    let n = ls[k].len();
    assert forall|a: int| 0 <= a < ls2.len() implies writes_fresh(#[trigger] ls2[a], lo, hi2) by {
        assert(writes_fresh(ls[a], lo, hi));
        if a == k {
            lemma_writes_fresh_concat(ls[k], code, lo, hi, hi2);
        }
    }
    assert forall|a: int, b: int, i: int, j: int|
        0 <= a < b < ls2.len() && 0 <= i < ls2[a].len() && 0 <= j < ls2[b].len() && (#[trigger] dest_of(
            ls2[a][i],
        )) is Some implies dest_of(ls2[a][i]) != #[trigger] dest_of(ls2[b][j]) by {
        assert(writes_fresh(ls[a], lo, hi));
        assert(writes_fresh(ls[b], lo, hi));
        if a == k {
            if i < n {
                assert(ls2[a][i] == ls[a][i]);
                assert(ls2[b][j] == ls[b][j]);
                assert(dest_of(ls[a][i]) != dest_of(ls[b][j]));
            } else {
                assert(ls2[a][i] == code[i - n]);
                assert(dest_of(code[i - n]) is Some);
                assert(ls2[b][j] == ls[b][j]);
                if dest_of(ls[b][j]) is Some {
                    assert(dest_of(ls[b][j])->0 < hi);
                }
            }
        } else if b == k {
            assert(ls2[a][i] == ls[a][i]);
            assert(lo <= dest_of(ls[a][i])->0 < hi);
            if j < n {
                assert(ls2[b][j] == ls[b][j]);
                assert(dest_of(ls[a][i]) != dest_of(ls[b][j]));
            } else {
                assert(ls2[b][j] == code[j - n]);
                if dest_of(code[j - n]) is Some {
                    assert(hi <= dest_of(code[j - n])->0);
                }
            }
        } else {
            assert(ls2[a][i] == ls[a][i]);
            assert(ls2[b][j] == ls[b][j]);
            assert(dest_of(ls[a][i]) != dest_of(ls[b][j]));
        }
    }
}

proof fn lemma_lists_widen(ls: Seq<Seq<Ins>>, lo: int, hi: int, hi2: int)
    requires
        lists_write_fresh(ls, lo, hi),
        hi <= hi2,
    ensures
        lists_write_fresh(ls, lo, hi2),
{
    assert forall|a: int| 0 <= a < ls.len() implies writes_fresh(#[trigger] ls[a], lo, hi2) by {
        lemma_writes_fresh_widen(ls[a], lo, hi, lo, hi2);
    }
}

proof fn lemma_lists_push_empty(ls: Seq<Seq<Ins>>, lo: int, hi: int)
    requires
        lists_write_fresh(ls, lo, hi),
    ensures
        lists_write_fresh(ls.push(Seq::empty()), lo, hi),
{
    let ls2 = ls.push(Seq::<Ins>::empty());
    assert forall|a: int| 0 <= a < ls2.len() implies writes_fresh(#[trigger] ls2[a], lo, hi) by {
        if a < ls.len() {
            assert(ls2[a] == ls[a]);
        }
    }
    assert forall|a: int, b: int, i: int, j: int|
        0 <= a < b < ls2.len() && 0 <= i < ls2[a].len() && 0 <= j < ls2[b].len() && (#[trigger] dest_of(
            ls2[a][i],
        )) is Some implies dest_of(ls2[a][i]) != #[trigger] dest_of(ls2[b][j]) by {
        assert(ls2[a] == ls[a]);
        assert(ls2[b] == ls[b]);
    }
}

proof fn lemma_after_writes(p: ProgV, ip: Option<Seq<char>>, code: Seq<Ins>, strings: Seq<Seq<char>>, lo: int, hi: int, hi2: int)
    requires
        lists_write_fresh(code_lists(p), lo, hi),
        writes_fresh(code, hi, hi2),
        lo <= hi <= hi2,
    ensures
        lists_write_fresh(code_lists(after(p, ip, code, strings)), lo, hi2),
{
    let ls = code_lists(p);
    let q = after(p, ip, code, strings);
    match ip {
        None => {
            lemma_lists_append(ls, 0, code, lo, hi, hi2);
            assert(code_lists(q) =~= ls.update(0, ls[0] + code));
        },
        Some(name) => {
            match first_index(proc_names(p.procs), name) {
                Some(k) => {
                    lemma_first_index(proc_names(p.procs), name);
                    let kk = k as int + 1;
                    lemma_lists_append(ls, kk, code, lo, hi, hi2);
                    assert(code_lists(q) =~= ls.update(kk, ls[kk] + code));
                },
                None => {
                    lemma_lists_widen(ls, lo, hi, hi2);
                    assert(code_lists(q) =~= ls);
                },
            }
        },
    }
}

proof fn lemma_gen_procs_writes(g: GenV, p: ProgV, ast: Seq<Node>, lo: int)
    requires
        lists_write_fresh(code_lists(p), lo, g.next_reg as int),
        lo <= g.next_reg,
    ensures
        gen_procs(g, p, ast) matches Some((g1, p1)) ==> lists_write_fresh(
            code_lists(p1),
            lo,
            g1.next_reg as int,
        ),
    decreases ast.len(),
{
    lemma_gen_procs_advances(g, p, ast);
    if ast.len() > 0 {
        lemma_gen_procs_writes(g, p, ast.drop_last(), lo);
        lemma_gen_procs_advances(g, p, ast.drop_last());
        if let Some((g1, p1)) = gen_procs(g, p, ast.drop_last()) {
            if let Node::ProcDecl { name, params, return_type, body } = ast.last() {
                let entries = param_entries(params);
                let gb = GenV {
                    next_reg: g1.next_reg,
                    next_label: g1.next_label,
                    symbols: g1.symbols + entries,
                    layouts: g1.layouts,
                };
                let pb = ProgV {
                    procs: p1.procs.push(
                        ProcV { name, params: entries, return_type, instructions: Seq::empty() },
                    ),
                    main: p1.main,
                    strings: p1.strings,
                    layouts: p1.layouts,
                };
                lemma_lists_push_empty(code_lists(p1), lo, g1.next_reg as int);
                assert(code_lists(pb) =~= code_lists(p1).push(Seq::empty()));
                lemma_gen_stmts_writes(gb, pb.strings, body);
                lemma_gen_stmts_advances(gb, pb.strings, body);
                if let Some(b) = gen_stmts(gb, pb.strings, body) {
                    lemma_after_writes(
                        pb,
                        Some(name),
                        b.code,
                        b.strings,
                        lo,
                        g1.next_reg as int,
                        b.gen.next_reg as int,
                    );
                }
            }
        }
    }
}

/// No register is written twice in a generated program, neither within one instruction list
/// (the main code or a procedure's) nor in two of them; every register written lies between
/// the register counter before generation and after it.
pub proof fn lemma_gen_program_writes_fresh(g: GenV, ast: Seq<Node>)
    ensures
        gen_program(g, ast) matches Some((g2, p)) ==> lists_write_fresh(
            code_lists(p),
            g.next_reg as int,
            g2.next_reg as int,
        ),
{
    let defs = layout_entries(ast);
    let g1 = GenV {
        next_reg: g.next_reg,
        next_label: g.next_label,
        symbols: g.symbols,
        layouts: g.layouts + defs,
    };
    let p0 = ProgV { procs: Seq::empty(), main: Seq::empty(), strings: Seq::empty(), layouts: defs };
    let lo = g.next_reg as int;
    assert(code_lists(p0) =~= seq![Seq::<Ins>::empty()]);
    lemma_gen_procs_writes(g1, p0, ast, lo);
    lemma_gen_procs_advances(g1, p0, ast);
    if let Some((g2, p1)) = gen_procs(g1, p0, ast) {
        lemma_gen_stmts_writes(g2, p1.strings, ast);
        lemma_gen_stmts_advances(g2, p1.strings, ast);
        if let Some(m) = gen_stmts(g2, p1.strings, ast) {
            lemma_after_writes(p1, None, m.code, m.strings, lo, g2.next_reg as int, m.gen.next_reg as int);
        }
    }
}

/// The label an instruction jumps to, if any.
pub open spec fn jump_target(ins: Ins) -> Option<Seq<char>> {
    match ins {
        Ins::Jump(l) => Some(l),
        Ins::JumpIfFalse { label, .. } => Some(label),
        _ => None,
    }
}

/// Whether `code` holds the label `l`.
pub open spec fn has_label(code: Seq<Ins>, l: Seq<char>) -> bool {
    exists|j: int| 0 <= j < code.len() && #[trigger] code[j] == Ins::Label(l)
}

/// Every jump in `code` goes to a label that `code` holds.
pub open spec fn jumps_resolved(code: Seq<Ins>) -> bool {
    forall|i: int|
        0 <= i < code.len() && (#[trigger] jump_target(code[i])) is Some ==> has_label(
            code,
            jump_target(code[i])->0,
        )
}

proof fn lemma_jumps_resolved_concat(a: Seq<Ins>, b: Seq<Ins>)
    requires
        jumps_resolved(a),
        jumps_resolved(b),
    ensures
        jumps_resolved(a + b),
{
    let c = a + b;
    assert forall|i: int| 0 <= i < c.len() && (#[trigger] jump_target(c[i])) is Some implies has_label(
        c,
        jump_target(c[i])->0,
    ) by {
        if i < a.len() {
            assert(c[i] == a[i]);
            let l = jump_target(a[i])->0;
            let j = choose|j: int| 0 <= j < a.len() && #[trigger] a[j] == Ins::Label(l);
            assert(c[j] == a[j]);
        } else {
            let k = i - a.len();
            assert(c[i] == b[k]);
            let l = jump_target(b[k])->0;
            let j = choose|j: int| 0 <= j < b.len() && #[trigger] b[j] == Ins::Label(l);
            assert(c[j + a.len()] == b[j]);
        }
    }
}

/// The code of an expression holds no jump and no label.
pub proof fn lemma_gen_expr_no_control(g: GenV, st: Seq<Seq<char>>, n: Node)
    ensures
        gen_expr(g, st, n) matches Some(o) ==> forall|i: int|
            0 <= i < o.code.len() ==> #[trigger] jump_target(o.code[i]) is None && o.code[i] !is Label,
    decreases n, 2nat,
{
    match n {
        Node::BinaryOp { left, op, right } => {
            lemma_gen_expr_no_control(g, st, *left);
            if let Some(l) = gen_expr(g, st, *left) {
                lemma_gen_expr_no_control(l.gen, l.strings, *right);
            }
        },
        Node::UnaryOp { operand, .. } => {
            lemma_gen_expr_no_control(g, st, *operand);
        },
        Node::Call { args, .. } => {
            lemma_gen_args_no_control(g, st, args);
        },
        Node::AddressOf(inner) => {
            lemma_gen_addr_no_control(g, st, *inner);
        },
        Node::Deref(inner) => {
            lemma_gen_expr_no_control(g, st, *inner);
        },
        Node::Claim(inner) => {
            lemma_gen_expr_no_control(g, st, *inner);
        },
        Node::Purge(inner) => {
            lemma_gen_expr_no_control(g, st, *inner);
        },
        Node::ArrayIndex { .. } => {
            lemma_gen_addr_no_control(g, st, n);
        },
        Node::FieldAccess { .. } => {
            lemma_gen_addr_no_control(g, st, n);
        },
        _ => {},
    }
}

/// The code of an address holds no jump and no label.
pub proof fn lemma_gen_addr_no_control(g: GenV, st: Seq<Seq<char>>, n: Node)
    ensures
        gen_addr(g, st, n) matches Some(a) ==> forall|i: int|
            0 <= i < a.code.len() ==> #[trigger] jump_target(a.code[i]) is None && a.code[i] !is Label,
    decreases n, 0nat,
{
    match n {
        Node::Deref(inner) => {
            lemma_gen_expr_no_control(g, st, *inner);
        },
        Node::FieldAccess { object, .. } => {
            lemma_gen_addr_no_control(g, st, *object);
        },
        Node::ArrayIndex { array, index } => {
            lemma_gen_addr_no_control(g, st, *array);
            if let Some(b) = gen_addr(g, st, *array) {
                lemma_gen_expr_no_control(b.gen, b.strings, *index);
            }
        },
        _ => {},
    }
}

/// The code of call arguments holds no jump and no label.
pub proof fn lemma_gen_args_no_control(g: GenV, st: Seq<Seq<char>>, args: Seq<Node>)
    ensures
        gen_args(g, st, args) matches Some(a) ==> forall|i: int|
            0 <= i < a.code.len() ==> #[trigger] jump_target(a.code[i]) is None && a.code[i] !is Label,
    decreases args, 3nat,
{
    if args.len() > 0 {
        lemma_gen_args_no_control(g, st, args.drop_last());
        if let Some(a) = gen_args(g, st, args.drop_last()) {
            lemma_gen_expr_no_control(a.gen, a.strings, args.last());
        }
    }
}

/// Whether `code` holds neither a jump nor a label.
pub open spec fn no_control(code: Seq<Ins>) -> bool {
    forall|i: int| 0 <= i < code.len() ==> #[trigger] jump_target(code[i]) is None && code[i] !is Label
}

/// Every jump in `code` goes to a label that `w` holds.
pub open spec fn jumps_into(code: Seq<Ins>, w: Seq<Ins>) -> bool {
    forall|i: int|
        0 <= i < code.len() && (#[trigger] jump_target(code[i])) is Some ==> has_label(
            w,
            jump_target(code[i])->0,
        )
}

proof fn lemma_jumps_into_concat(a: Seq<Ins>, b: Seq<Ins>, w: Seq<Ins>)
    requires
        jumps_into(a, w),
        jumps_into(b, w),
    ensures
        jumps_into(a + b, w),
{
    let c = a + b;
    assert forall|i: int| 0 <= i < c.len() && (#[trigger] jump_target(c[i])) is Some implies has_label(
        w,
        jump_target(c[i])->0,
    ) by {
        if i < a.len() {
            assert(c[i] == a[i]);
        } else {
            assert(c[i] == b[i - a.len()]);
        }
    }
}

proof fn lemma_jumps_into_within(x: Seq<Ins>, p: Seq<Ins>, q: Seq<Ins>)
    requires
        jumps_into(x, x),
    ensures
        jumps_into(x, p + x + q),
{
    let w = p + x + q;
    assert forall|i: int| 0 <= i < x.len() && (#[trigger] jump_target(x[i])) is Some implies has_label(
        w,
        jump_target(x[i])->0,
    ) by {
        let l = jump_target(x[i])->0;
        let j = choose|j: int| 0 <= j < x.len() && #[trigger] x[j] == Ins::Label(l);
        assert(w[p.len() + j] == x[j]);
    }
}

proof fn lemma_when_code_resolved(
    ccode: Seq<Ins>,
    cr: usize,
    el: Seq<char>,
    en: Seq<char>,
    tcode: Seq<Ins>,
    ecode: Seq<Ins>,
)
    requires
        no_control(ccode),
        jumps_resolved(tcode),
        jumps_resolved(ecode),
    ensures
        jumps_resolved(
            ccode + seq![Ins::JumpIfFalse { cond_reg: cr, label: el }] + tcode + seq![Ins::Label(el)],
        ),
        jumps_resolved(
            ccode + seq![Ins::JumpIfFalse { cond_reg: cr, label: el }] + tcode + seq![
                Ins::Jump(en),
                Ins::Label(el),
            ] + ecode + seq![Ins::Label(en)],
        ),
{
    let j = seq![Ins::JumpIfFalse { cond_reg: cr, label: el }];
    let f1 = seq![Ins::Label(el)];
    let w1 = ccode + j + tcode + f1;
    assert(w1[w1.len() - 1] == Ins::Label(el));
    assert(jumps_into(ccode, w1));
    assert(jumps_into(j, w1));
    lemma_jumps_into_within(tcode, ccode + j, f1);
    assert(ccode + j + tcode + f1 =~= (ccode + j) + tcode + f1);
    assert(jumps_into(f1, w1));
    lemma_jumps_into_concat(ccode, j, w1);
    lemma_jumps_into_concat(ccode + j, tcode, w1);
    lemma_jumps_into_concat(ccode + j + tcode, f1, w1);
    let m = seq![Ins::Jump(en), Ins::Label(el)];
    let f2 = seq![Ins::Label(en)];
    let w2 = ccode + j + tcode + m + ecode + f2;
    let k = ccode.len() as int + 1 + tcode.len() + 1;
    assert(w2[k] == Ins::Label(el));
    assert(w2[w2.len() - 1] == Ins::Label(en));
    assert(jumps_into(ccode, w2));
    assert(jumps_into(j, w2));
    assert(jumps_into(m, w2));
    assert(jumps_into(f2, w2));
    lemma_jumps_into_within(tcode, ccode + j, m + ecode + f2);
    assert(w2 =~= (ccode + j) + tcode + (m + ecode + f2));
    lemma_jumps_into_within(ecode, ccode + j + tcode + m, f2);
    lemma_jumps_into_concat(ccode, j, w2);
    lemma_jumps_into_concat(ccode + j, tcode, w2);
    lemma_jumps_into_concat(ccode + j + tcode, m, w2);
    lemma_jumps_into_concat(ccode + j + tcode + m, ecode, w2);
    lemma_jumps_into_concat(ccode + j + tcode + m + ecode, f2, w2);
}

proof fn lemma_during_code_resolved(sl: Seq<char>, ccode: Seq<Ins>, cr: usize, el: Seq<char>, bcode: Seq<Ins>)
    requires
        no_control(ccode),
        jumps_resolved(bcode),
    ensures
        jumps_resolved(
            seq![Ins::Label(sl)] + ccode + seq![Ins::JumpIfFalse { cond_reg: cr, label: el }] + bcode
                + seq![Ins::Jump(sl), Ins::Label(el)],
        ),
{
    let s0 = seq![Ins::Label(sl)];
    let j = seq![Ins::JumpIfFalse { cond_reg: cr, label: el }];
    let f = seq![Ins::Jump(sl), Ins::Label(el)];
    let w = s0 + ccode + j + bcode + f;
    assert(w[0] == Ins::Label(sl));
    assert(w[w.len() - 1] == Ins::Label(el));
    assert(jumps_into(s0, w));
    assert(jumps_into(ccode, w));
    assert(jumps_into(j, w));
    assert(jumps_into(f, w));
    lemma_jumps_into_within(bcode, s0 + ccode + j, f);
    lemma_jumps_into_concat(s0, ccode, w);
    lemma_jumps_into_concat(s0 + ccode, j, w);
    lemma_jumps_into_concat(s0 + ccode + j, bcode, w);
    lemma_jumps_into_concat(s0 + ccode + j + bcode, f, w);
}

proof fn lemma_no_control_concat(a: Seq<Ins>, b: Seq<Ins>)
    requires
        no_control(a),
        no_control(b),
    ensures
        no_control(a + b),
{
    assert forall|i: int| 0 <= i < (a + b).len() implies #[trigger] jump_target((a + b)[i]) is None && (a
        + b)[i] !is Label by {
        if i < a.len() {
            assert((a + b)[i] == a[i]);
        } else {
            assert((a + b)[i] == b[i - a.len()]);
        }
    }
}

proof fn lemma_gen_assign_no_control(g: GenV, st: Seq<Seq<char>>, n: Node)
    ensures
        gen_assign(g, st, n) matches Some(o) ==> no_control(o.code),
{
    if let Node::Assignment { target, value } = n {
        lemma_gen_expr_no_control(g, st, *value);
        if let Some(e) = gen_expr(g, st, *value) {
            if let Some(vr) = e.reg {
                match *target {
                    Node::Identifier(name) => {
                        lemma_no_control_concat(e.code, seq![Ins::StoreVar { name, src: vr }]);
                    },
                    Node::Deref(inner) => {
                        lemma_gen_expr_no_control(e.gen, e.strings, *inner);
                        if let Some(p) = gen_expr(e.gen, e.strings, *inner) {
                            if let Some(pr) = p.reg {
                                lemma_no_control_concat(e.code, p.code);
                                lemma_no_control_concat(
                                    e.code + p.code,
                                    seq![Ins::StoreDeref { ptr_reg: pr, val_reg: vr }],
                                );
                            }
                        }
                    },
                    _ => {
                        lemma_gen_addr_no_control(e.gen, e.strings, *target);
                        if let Some(a) = gen_addr(e.gen, e.strings, *target) {
                            lemma_no_control_concat(e.code, a.code);
                            lemma_no_control_concat(
                                e.code + a.code,
                                seq![Ins::StoreDeref { ptr_reg: a.reg, val_reg: vr }],
                            );
                        }
                    },
                }
            }
        }
    }
}

#[verifier::spinoff_prover]
proof fn lemma_gen_when_resolved(g: GenV, st: Seq<Seq<char>>, n: Node)
    ensures
        gen_when(g, st, n) matches Some(o) ==> jumps_resolved(o.code),
    decreases n, 2nat,
{
    if let Node::When { condition, then_branch, else_branch } = n {
        lemma_gen_expr_no_control(g, st, *condition);
        if let Some(c) = gen_expr(g, st, *condition) {
            if let Some(cr) = c.reg {
                if let Some((g1, el)) = fresh_label(c.gen, else_prefix()) {
                    if let Some((g2, en)) = fresh_label(g1, end_when_prefix()) {
                        lemma_gen_stmts_resolved(g2, c.strings, then_branch);
                        if let Some(t) = gen_stmts(g2, c.strings, then_branch) {
                            match else_branch {
                                None => {
                                    lemma_when_code_resolved(c.code, cr, el, en, t.code, Seq::empty());
                                },
                                Some(eb) => {
                                    lemma_gen_stmts_resolved(t.gen, t.strings, eb);
                                    if let Some(e) = gen_stmts(t.gen, t.strings, eb) {
                                        lemma_when_code_resolved(c.code, cr, el, en, t.code, e.code);
                                    }
                                },
                            }
                        }
                    }
                }
            }
        }
    }
}

#[verifier::spinoff_prover]
proof fn lemma_gen_during_resolved(g: GenV, st: Seq<Seq<char>>, n: Node)
    ensures
        gen_during(g, st, n) matches Some(o) ==> jumps_resolved(o.code),
    decreases n, 2nat,
{
    if let Node::During { condition, body } = n {
        if let Some((g1, sl)) = fresh_label(g, during_start_prefix()) {
            if let Some((g2, el)) = fresh_label(g1, during_end_prefix()) {
                lemma_gen_expr_no_control(g2, st, *condition);
                if let Some(c) = gen_expr(g2, st, *condition) {
                    if let Some(cr) = c.reg {
                        lemma_gen_stmts_resolved(c.gen, c.strings, body);
                        if let Some(b) = gen_stmts(c.gen, c.strings, body) {
                            lemma_during_code_resolved(sl, c.code, cr, el, b.code);
                        }
                    }
                }
            }
        }
    }
}

/// Every jump in the code of a statement goes to a label of that code.
pub proof fn lemma_gen_stmt_resolved(g: GenV, st: Seq<Seq<char>>, n: Node)
    ensures
        gen_stmt(g, st, n) matches Some(o) ==> jumps_resolved(o.code),
    decreases n, 3nat,
{
    match n {
        Node::SlotDecl { name, slot_type, value } => {
            if let Some(v) = value {
                lemma_gen_expr_no_control(g, st, *v);
                if let Some(e) = gen_expr(g, st, *v) {
                    if let Some(r) = e.reg {
                        lemma_no_control_concat(e.code, seq![Ins::StoreVar { name, src: r }]);
                    } else {
                        assert(e.code + Seq::<Ins>::empty() =~= e.code);
                    }
                }
            }
        },
        Node::Assignment { .. } => {
            lemma_gen_assign_no_control(g, st, n);
        },
        Node::When { .. } => {
            lemma_gen_when_resolved(g, st, n);
        },
        Node::During { .. } => {
            lemma_gen_during_resolved(g, st, n);
        },
        Node::Emit(x) => {
            lemma_gen_expr_no_control(g, st, *x);
            if let Some(e) = gen_expr(g, st, *x) {
                if let Some(r) = e.reg {
                    lemma_no_control_concat(e.code, seq![Ins::Emit { reg: r, reg_type: e.ty }]);
                } else {
                    assert(e.code + Seq::<Ins>::empty() =~= e.code);
                }
            }
        },
        Node::Yield(x) => {
            if let Some(e) = x {
                lemma_gen_expr_no_control(g, st, *e);
                if let Some(o) = gen_expr(g, st, *e) {
                    lemma_no_control_concat(o.code, seq![Ins::Yield(o.reg)]);
                }
            }
        },
        Node::Block(stmts) => {
            lemma_gen_stmts_resolved(g, st, stmts);
        },
        Node::ExprStatement(x) => {
            lemma_gen_expr_no_control(g, st, *x);
        },
        _ => {},
    }
}

/// Every jump in the code of statements goes to a label of that code.
pub proof fn lemma_gen_stmts_resolved(g: GenV, st: Seq<Seq<char>>, ns: Seq<Node>)
    ensures
        gen_stmts(g, st, ns) matches Some(o) ==> jumps_resolved(o.code),
    decreases ns, 3nat,
{
    if ns.len() > 0 {
        lemma_gen_stmts_resolved(g, st, ns.drop_last());
        if let Some(a) = gen_stmts(g, st, ns.drop_last()) {
            lemma_gen_stmt_resolved(a.gen, a.strings, ns.last());
            if let Some(b) = gen_stmt(a.gen, a.strings, ns.last()) {
                lemma_jumps_resolved_concat(a.code, b.code);
            }
        }
    }
}

/// Every jump in every instruction list of a program goes to a label of that list.
pub open spec fn prog_jumps_resolved(p: ProgV) -> bool {
    forall|a: int| 0 <= a < code_lists(p).len() ==> jumps_resolved(#[trigger] code_lists(p)[a])
}

proof fn lemma_after_resolved(p: ProgV, ip: Option<Seq<char>>, code: Seq<Ins>, strings: Seq<Seq<char>>)
    requires
        prog_jumps_resolved(p),
        jumps_resolved(code),
    ensures
        prog_jumps_resolved(after(p, ip, code, strings)),
{
    let ls = code_lists(p);
    let q = after(p, ip, code, strings);
    match ip {
        None => {
            assert(jumps_resolved(ls[0]));
            lemma_jumps_resolved_concat(ls[0], code);
            assert(code_lists(q) =~= ls.update(0, ls[0] + code));
        },
        Some(name) => {
            match first_index(proc_names(p.procs), name) {
                Some(k) => {
                    lemma_first_index(proc_names(p.procs), name);
                    let kk = k as int + 1;
                    assert(jumps_resolved(ls[kk]));
                    lemma_jumps_resolved_concat(ls[kk], code);
                    assert(code_lists(q) =~= ls.update(kk, ls[kk] + code));
                },
                None => {
                    assert(code_lists(q) =~= ls);
                },
            }
        },
    }
}

proof fn lemma_gen_procs_resolved(g: GenV, p: ProgV, ast: Seq<Node>)
    requires
        prog_jumps_resolved(p),
    ensures
        gen_procs(g, p, ast) matches Some((g1, p1)) ==> prog_jumps_resolved(p1),
    decreases ast.len(),
{
    if ast.len() > 0 {
        lemma_gen_procs_resolved(g, p, ast.drop_last());
        if let Some((g1, p1)) = gen_procs(g, p, ast.drop_last()) {
            if let Node::ProcDecl { name, params, return_type, body } = ast.last() {
                let entries = param_entries(params);
                let gb = GenV {
                    next_reg: g1.next_reg,
                    next_label: g1.next_label,
                    symbols: g1.symbols + entries,
                    layouts: g1.layouts,
                };
                let pb = ProgV {
                    procs: p1.procs.push(
                        ProcV { name, params: entries, return_type, instructions: Seq::empty() },
                    ),
                    main: p1.main,
                    strings: p1.strings,
                    layouts: p1.layouts,
                };
                assert(code_lists(pb) =~= code_lists(p1).push(Seq::empty()));
                assert(prog_jumps_resolved(pb)) by {
                    assert forall|a: int| 0 <= a < code_lists(pb).len() implies jumps_resolved(
                        #[trigger] code_lists(pb)[a],
                    ) by {
                        if a < code_lists(p1).len() {
                            assert(code_lists(pb)[a] == code_lists(p1)[a]);
                        }
                    }
                }
                lemma_gen_stmts_resolved(gb, pb.strings, body);
                if let Some(b) = gen_stmts(gb, pb.strings, body) {
                    lemma_after_resolved(pb, Some(name), b.code, b.strings);
                }
            }
        }
    }
}

/// Every jump in a generated program goes to a label of the same instruction list.
pub proof fn lemma_gen_program_jumps_resolved(g: GenV, ast: Seq<Node>)
    ensures
        gen_program(g, ast) matches Some((g2, p)) ==> prog_jumps_resolved(p),
{
    let defs = layout_entries(ast);
    let g1 = GenV {
        next_reg: g.next_reg,
        next_label: g.next_label,
        symbols: g.symbols,
        layouts: g.layouts + defs,
    };
    let p0 = ProgV { procs: Seq::empty(), main: Seq::empty(), strings: Seq::empty(), layouts: defs };
    assert(code_lists(p0) =~= seq![Seq::<Ins>::empty()]);
    lemma_gen_procs_resolved(g1, p0, ast);
    if let Some((g2, p1)) = gen_procs(g1, p0, ast) {
        lemma_gen_stmts_resolved(g2, p1.strings, ast);
        if let Some(m) = gen_stmts(g2, p1.strings, ast) {
            lemma_after_resolved(p1, None, m.code, m.strings);
        }
    }
}

/// The prefixes of the labels that generation makes.
pub open spec fn label_prefix(p: Seq<char>) -> bool {
    p == else_prefix() || p == end_when_prefix() || p == during_start_prefix() || p
        == during_end_prefix()
}

/// The label made with prefix `p` at counter value `n`.
pub open spec fn label_text(p: Seq<char>, n: nat) -> Seq<char> {
    p + seq!['_'] + decimal(n)
}

proof fn lemma_label_text_injective(p1: Seq<char>, n1: nat, p2: Seq<char>, n2: nat)
    requires
        label_prefix(p1),
        label_prefix(p2),
        label_text(p1, n1) == label_text(p2, n2),
    ensures
        n1 == n2,
{
    let a = label_text(p1, n1);
    let b = label_text(p2, n2);
    assert(a[0] == p1[0] && b[0] == p2[0]);
    assert(a[1] == p1[1] && b[1] == p2[1]);
    if p1.len() > 7 && p2.len() > 7 {
        assert(a[7] == p1[7] && b[7] == p2[7]);
    }
    assert(p1 == p2);
    let k = p1.len() as int + 1;
    assert(a.skip(k) =~= decimal(n1));
    assert(b.skip(k) =~= decimal(n2));
    lemma_decimal_injective(n1, n2);
}

/// Whether `l` is a label made with one of the prefixes at a counter value in `ns`.
pub open spec fn made_label(l: Seq<char>, ns: spec_fn(int) -> bool) -> bool {
    exists|p: Seq<char>, n: nat| label_prefix(p) && ns(n as int) && l == #[trigger] label_text(p, n)
}

/// Every label of `code` was made at a counter value in `ns`, and no label occurs twice.
pub open spec fn labels_in(code: Seq<Ins>, ns: spec_fn(int) -> bool) -> bool {
    &&& forall|i: int| 0 <= i < code.len() && #[trigger] code[i] is Label ==> made_label(code[i]->Label_0, ns)
    &&& forall|i: int, j: int|
        0 <= i < j < code.len() && #[trigger] code[i] is Label && #[trigger] code[j] is Label ==> code[i]->Label_0
            != code[j]->Label_0
}

/// The counter values `[lo, hi)`.
pub open spec fn range(lo: int, hi: int) -> spec_fn(int) -> bool {
    |n: int| lo <= n < hi
}

/// Every label of `code` was made at a counter value in `[lo, hi)`, and no label occurs twice.
pub open spec fn labels_fresh(code: Seq<Ins>, lo: int, hi: int) -> bool {
    labels_in(code, range(lo, hi))
}

proof fn lemma_made_labels_differ(l1: Seq<char>, l2: Seq<char>, s1: spec_fn(int) -> bool, s2: spec_fn(int) -> bool)
    requires
        made_label(l1, s1),
        made_label(l2, s2),
        forall|n: int| !(#[trigger] s1(n) && s2(n)),
    ensures
        l1 != l2,
{
    let (p1, n1) = choose|p: Seq<char>, n: nat| label_prefix(p) && s1(n as int) && l1 == #[trigger] label_text(p, n);
    let (p2, n2) = choose|p: Seq<char>, n: nat| label_prefix(p) && s2(n as int) && l2 == #[trigger] label_text(p, n);
    if l1 == l2 {
        lemma_label_text_injective(p1, n1, p2, n2);
        assert(s1(n1 as int) && s2(n1 as int));
    }
}

proof fn lemma_made_label_weaken(l: Seq<char>, s1: spec_fn(int) -> bool, s2: spec_fn(int) -> bool)
    requires
        made_label(l, s1),
        forall|n: int| #[trigger] s1(n) ==> s2(n),
    ensures
        made_label(l, s2),
{
    let (p, n) = choose|p: Seq<char>, n: nat| label_prefix(p) && s1(n as int) && l == #[trigger] label_text(p, n);
    assert(l == label_text(p, n));
}

proof fn lemma_labels_in_weaken(a: Seq<Ins>, s1: spec_fn(int) -> bool, s2: spec_fn(int) -> bool)
    requires
        labels_in(a, s1),
        forall|n: int| #[trigger] s1(n) ==> s2(n),
    ensures
        labels_in(a, s2),
{
    assert forall|i: int| 0 <= i < a.len() && #[trigger] a[i] is Label implies made_label(a[i]->Label_0, s2) by {
        lemma_made_label_weaken(a[i]->Label_0, s1, s2);
    }
}

proof fn lemma_labels_in_concat(a: Seq<Ins>, b: Seq<Ins>, sa: spec_fn(int) -> bool, sb: spec_fn(int) -> bool, s: spec_fn(int) -> bool)
    requires
        labels_in(a, sa),
        labels_in(b, sb),
        forall|n: int| !(#[trigger] sa(n) && sb(n)),
        forall|n: int| #[trigger] sa(n) ==> s(n),
        forall|n: int| #[trigger] sb(n) ==> s(n),
    ensures
        labels_in(a + b, s),
{
    let c = a + b;
    assert forall|i: int| 0 <= i < c.len() && #[trigger] c[i] is Label implies made_label(c[i]->Label_0, s) by {
        if i < a.len() {
            assert(c[i] == a[i]);
            lemma_made_label_weaken(a[i]->Label_0, sa, s);
        } else {
            assert(c[i] == b[i - a.len()]);
            lemma_made_label_weaken(b[i - a.len()]->Label_0, sb, s);
        }
    }
    assert forall|i: int, j: int|
        0 <= i < j < c.len() && #[trigger] c[i] is Label && #[trigger] c[j] is Label implies c[i]->Label_0
            != c[j]->Label_0 by {
        if j < a.len() {
            assert(c[i] == a[i] && c[j] == a[j]);
        } else if i >= a.len() {
            assert(c[i] == b[i - a.len()] && c[j] == b[j - a.len()]);
        } else {
            assert(c[i] == a[i] && c[j] == b[j - a.len()]);
            lemma_made_labels_differ(a[i]->Label_0, b[j - a.len()]->Label_0, sa, sb);
        }
    }
}

/// A code without labels.
proof fn lemma_labels_in_none(a: Seq<Ins>, s: spec_fn(int) -> bool)
    requires
        no_control(a),
    ensures
        labels_in(a, s),
{
    assert forall|i: int| 0 <= i < a.len() implies #[trigger] a[i] !is Label by {
        assert(jump_target(a[i]) is None && a[i] !is Label);
    }
}

proof fn lemma_labels_in_one(p: Seq<char>, k: nat)
    requires
        label_prefix(p),
    ensures
        labels_in(seq![Ins::Label(label_text(p, k))], range(k as int, k as int + 1)),
{
    let c = seq![Ins::Label(label_text(p, k))];
    assert(range(k as int, k as int + 1)(k as int));
    assert(made_label(c[0]->Label_0, range(k as int, k as int + 1)));
}

proof fn lemma_when_code_labels(ccode: Seq<Ins>, cr: usize, k: nat, tcode: Seq<Ins>, ecode: Seq<Ins>, t: int, e: int)
    requires
        no_control(ccode),
        labels_fresh(tcode, k as int + 2, t),
        labels_fresh(ecode, t, e),
        k + 2 <= t <= e,
    ensures
        labels_fresh(
            ccode + seq![
                Ins::JumpIfFalse { cond_reg: cr, label: label_text(else_prefix(), k) },
            ] + tcode + seq![Ins::Label(label_text(else_prefix(), k))],
            k as int,
            t,
        ),
        labels_fresh(
            ccode + seq![
                Ins::JumpIfFalse { cond_reg: cr, label: label_text(else_prefix(), k) },
            ] + tcode + seq![
                Ins::Jump(label_text(end_when_prefix(), k + 1)),
                Ins::Label(label_text(else_prefix(), k)),
            ] + ecode + seq![Ins::Label(label_text(end_when_prefix(), k + 1))],
            k as int,
            e,
        ),
{
    let el = label_text(else_prefix(), k);
    let en = label_text(end_when_prefix(), (k + 1) as nat);
    let none = |n: int| false;
    let j = seq![Ins::JumpIfFalse { cond_reg: cr, label: el }];
    let x1 = ccode + j;
    lemma_labels_in_none(ccode, none);
    assert(labels_in(j, none));
    lemma_labels_in_concat(ccode, j, none, none, none);
    lemma_labels_in_concat(x1, tcode, none, range(k as int + 2, t), range(k as int + 2, t));
    let head = x1 + tcode;
    lemma_labels_in_one(else_prefix(), k);
    lemma_labels_in_concat(head, seq![Ins::Label(el)], range(k as int + 2, t), range(k as int, k as int + 1), range(k as int, t));
    let m = seq![Ins::Jump(en), Ins::Label(el)];
    assert(labels_in(m, range(k as int, k as int + 1))) by {
        assert(m[1]->Label_0 == label_text(else_prefix(), k));
        assert(range(k as int, k as int + 1)(k as int));
    }
    let s1 = |n: int| n == k || k + 2 <= n < t;
    lemma_labels_in_concat(head, m, range(k as int + 2, t), range(k as int, k as int + 1), s1);
    let s2 = |n: int| n == k || k + 2 <= n < e;
    lemma_labels_in_concat(head + m, ecode, s1, range(t, e), s2);
    lemma_labels_in_one(end_when_prefix(), (k + 1) as nat);
    lemma_labels_in_concat(head + m + ecode, seq![Ins::Label(en)], s2, range(k as int + 1, k as int + 2), range(k as int, e));
}

proof fn lemma_during_code_labels(k: nat, ccode: Seq<Ins>, cr: usize, bcode: Seq<Ins>, b: int)
    requires
        no_control(ccode),
        labels_fresh(bcode, k as int + 2, b),
        k + 2 <= b,
    ensures
        labels_fresh(
            seq![Ins::Label(label_text(during_start_prefix(), k))] + ccode + seq![
                Ins::JumpIfFalse { cond_reg: cr, label: label_text(during_end_prefix(), k + 1) },
            ] + bcode + seq![
                Ins::Jump(label_text(during_start_prefix(), k)),
                Ins::Label(label_text(during_end_prefix(), k + 1)),
            ],
            k as int,
            b,
        ),
{
    let sl = label_text(during_start_prefix(), k);
    let el = label_text(during_end_prefix(), (k + 1) as nat);
    let none = |n: int| false;
    let s0 = seq![Ins::Label(sl)];
    let j = seq![Ins::JumpIfFalse { cond_reg: cr, label: el }];
    let mid = ccode + j;
    lemma_labels_in_none(ccode, none);
    assert(labels_in(j, none));
    lemma_labels_in_concat(ccode, j, none, none, none);
    lemma_labels_in_one(during_start_prefix(), k);
    let one = range(k as int, k as int + 1);
    lemma_labels_in_concat(s0, mid, one, none, one);
    assert(s0 + mid =~= s0 + ccode + j);
    let s1 = |n: int| n == k || k + 2 <= n < b;
    lemma_labels_in_concat(s0 + ccode + j, bcode, one, range(k as int + 2, b), s1);
    let f = seq![Ins::Jump(sl), Ins::Label(el)];
    assert(labels_in(f, range(k as int + 1, k as int + 2))) by {
        assert(f[1]->Label_0 == label_text(during_end_prefix(), (k + 1) as nat));
        assert(range(k as int + 1, k as int + 2)(k as int + 1));
    }
    lemma_labels_in_concat(s0 + ccode + j + bcode, f, s1, range(k as int + 1, k as int + 2), range(k as int, b));
}

proof fn lemma_gen_simple_no_control(g: GenV, st: Seq<Seq<char>>, n: Node)
    requires
        n is SlotDecl || n is Assignment || n is Emit || n is Yield || n is ExprStatement,
    ensures
        gen_stmt(g, st, n) matches Some(o) ==> no_control(o.code),
{
    match n {
        Node::SlotDecl { name, slot_type, value } => {
            if let Some(v) = value {
                lemma_gen_expr_no_control(g, st, *v);
                if let Some(e) = gen_expr(g, st, *v) {
                    if let Some(r) = e.reg {
                        lemma_no_control_concat(e.code, seq![Ins::StoreVar { name, src: r }]);
                    } else {
                        assert(e.code + Seq::<Ins>::empty() =~= e.code);
                    }
                }
            }
        },
        Node::Assignment { .. } => {
            lemma_gen_assign_no_control(g, st, n);
        },
        Node::Emit(x) => {
            lemma_gen_expr_no_control(g, st, *x);
            if let Some(e) = gen_expr(g, st, *x) {
                if let Some(r) = e.reg {
                    lemma_no_control_concat(e.code, seq![Ins::Emit { reg: r, reg_type: e.ty }]);
                } else {
                    assert(e.code + Seq::<Ins>::empty() =~= e.code);
                }
            }
        },
        Node::Yield(x) => {
            if let Some(e) = x {
                lemma_gen_expr_no_control(g, st, *e);
                if let Some(o) = gen_expr(g, st, *e) {
                    lemma_no_control_concat(o.code, seq![Ins::Yield(o.reg)]);
                }
            }
        },
        Node::ExprStatement(x) => {
            lemma_gen_expr_no_control(g, st, *x);
        },
        _ => {},
    }
}

#[verifier::spinoff_prover]
proof fn lemma_gen_when_labels(g: GenV, st: Seq<Seq<char>>, n: Node)
    ensures
        gen_when(g, st, n) matches Some(o) ==> labels_fresh(o.code, g.next_label as int, o.gen.next_label as int),
    decreases n, 2nat,
{
    if let Node::When { condition, then_branch, else_branch } = n {
        lemma_gen_expr_no_control(g, st, *condition);
        lemma_gen_expr_fresh(g, st, *condition);
        if let Some(c) = gen_expr(g, st, *condition) {
            if let Some(cr) = c.reg {
                if let Some((g1, el)) = fresh_label(c.gen, else_prefix()) {
                    if let Some((g2, en)) = fresh_label(g1, end_when_prefix()) {
                        let k = c.gen.next_label as nat;
                        lemma_gen_stmts_labels(g2, c.strings, then_branch);
                        lemma_gen_stmts_advances(g2, c.strings, then_branch);
                        if let Some(t) = gen_stmts(g2, c.strings, then_branch) {
                            let tt = t.gen.next_label as int;
                            match else_branch {
                                None => {
                                    assert(labels_in(Seq::<Ins>::empty(), range(tt, tt)));
                                    lemma_when_code_labels(c.code, cr, k, t.code, Seq::empty(), tt, tt);
                                    lemma_labels_in_weaken(
                                        c.code + seq![Ins::JumpIfFalse { cond_reg: cr, label: el }] + t.code
                                            + seq![Ins::Label(el)],
                                        range(k as int, tt),
                                        range(g.next_label as int, tt),
                                    );
                                },
                                Some(eb) => {
                                    lemma_gen_stmts_labels(t.gen, t.strings, eb);
                                    lemma_gen_stmts_advances(t.gen, t.strings, eb);
                                    if let Some(e) = gen_stmts(t.gen, t.strings, eb) {
                                        let ee = e.gen.next_label as int;
                                        lemma_when_code_labels(c.code, cr, k, t.code, e.code, tt, ee);
                                        lemma_labels_in_weaken(
                                            c.code + seq![Ins::JumpIfFalse { cond_reg: cr, label: el }]
                                                + t.code + seq![Ins::Jump(en), Ins::Label(el)] + e.code
                                                + seq![Ins::Label(en)],
                                            range(k as int, ee),
                                            range(g.next_label as int, ee),
                                        );
                                    }
                                },
                            }
                        }
                    }
                }
            }
        }
    }
}

#[verifier::spinoff_prover]
proof fn lemma_gen_during_labels(g: GenV, st: Seq<Seq<char>>, n: Node)
    ensures
        gen_during(g, st, n) matches Some(o) ==> labels_fresh(o.code, g.next_label as int, o.gen.next_label as int),
    decreases n, 2nat,
{
    if let Node::During { condition, body } = n {
        if let Some((g1, sl)) = fresh_label(g, during_start_prefix()) {
            if let Some((g2, el)) = fresh_label(g1, during_end_prefix()) {
                let k = g.next_label as nat;
                lemma_gen_expr_no_control(g2, st, *condition);
                lemma_gen_expr_fresh(g2, st, *condition);
                if let Some(c) = gen_expr(g2, st, *condition) {
                    if let Some(cr) = c.reg {
                        lemma_gen_stmts_labels(c.gen, c.strings, body);
                        lemma_gen_stmts_advances(c.gen, c.strings, body);
                        if let Some(b) = gen_stmts(c.gen, c.strings, body) {
                            let bb = b.gen.next_label as int;
                            lemma_labels_in_weaken(
                                b.code,
                                range(c.gen.next_label as int, bb),
                                range(k as int + 2, bb),
                            );
                            lemma_during_code_labels(k, c.code, cr, b.code, bb);
                        }
                    }
                }
            }
        }
    }
}

/// The labels of a statement's code were made with the label counter between its values before
/// and after, and no label occurs twice.
pub proof fn lemma_gen_stmt_labels(g: GenV, st: Seq<Seq<char>>, n: Node)
    ensures
        gen_stmt(g, st, n) matches Some(o) ==> labels_fresh(o.code, g.next_label as int, o.gen.next_label as int),
    decreases n, 3nat,
{
    match n {
        Node::When { .. } => {
            lemma_gen_when_labels(g, st, n);
        },
        Node::During { .. } => {
            lemma_gen_during_labels(g, st, n);
        },
        Node::Block(stmts) => {
            lemma_gen_stmts_labels(g, st, stmts);
        },
        Node::SlotDecl { .. } | Node::Assignment { .. } | Node::Emit(_) | Node::Yield(_) | Node::ExprStatement(_) => {
            lemma_gen_simple_no_control(g, st, n);
            if let Some(o) = gen_stmt(g, st, n) {
                lemma_labels_in_none(o.code, range(g.next_label as int, o.gen.next_label as int));
            }
        },
        _ => {},
    }
}

/// The labels of statements' code were made with the label counter between its values before
/// and after, and no label occurs twice.
pub proof fn lemma_gen_stmts_labels(g: GenV, st: Seq<Seq<char>>, ns: Seq<Node>)
    ensures
        gen_stmts(g, st, ns) matches Some(o) ==> labels_fresh(o.code, g.next_label as int, o.gen.next_label as int),
    decreases ns, 3nat,
{
    if ns.len() > 0 {
        lemma_gen_stmts_labels(g, st, ns.drop_last());
        lemma_gen_stmts_advances(g, st, ns.drop_last());
        if let Some(a) = gen_stmts(g, st, ns.drop_last()) {
            lemma_gen_stmt_labels(a.gen, a.strings, ns.last());
            lemma_gen_stmt_advances(a.gen, a.strings, ns.last());
            if let Some(b) = gen_stmt(a.gen, a.strings, ns.last()) {
                lemma_labels_in_concat(
                    a.code,
                    b.code,
                    range(g.next_label as int, a.gen.next_label as int),
                    range(a.gen.next_label as int, b.gen.next_label as int),
                    range(g.next_label as int, b.gen.next_label as int),
                );
            }
        }
    }
}

/// Each list's labels were made at counter values in `[lo, hi)` and none occurs twice in it,
/// and no label occurs in two lists.
pub open spec fn lists_labels_fresh(ls: Seq<Seq<Ins>>, lo: int, hi: int) -> bool {
    &&& forall|a: int| 0 <= a < ls.len() ==> labels_fresh(#[trigger] ls[a], lo, hi)
    &&& forall|a: int, b: int, i: int, j: int|
        0 <= a < b < ls.len() && 0 <= i < ls[a].len() && 0 <= j < ls[b].len() && #[trigger] ls[a][i] is Label
            && #[trigger] ls[b][j] is Label ==> ls[a][i]->Label_0 != ls[b][j]->Label_0
}

proof fn lemma_lists_labels_append(ls: Seq<Seq<Ins>>, k: int, code: Seq<Ins>, lo: int, hi: int, hi2: int)
    requires
        lists_labels_fresh(ls, lo, hi),
        labels_fresh(code, hi, hi2),
        0 <= k < ls.len(),
        lo <= hi <= hi2,
    ensures
        lists_labels_fresh(ls.update(k, ls[k] + code), lo, hi2),
{
    let ls2 = ls.update(k, ls[k] + code);
    let n = ls[k].len();
    assert forall|a: int| 0 <= a < ls2.len() implies labels_fresh(#[trigger] ls2[a], lo, hi2) by {
        assert(labels_fresh(ls[a], lo, hi));
        if a == k {
            lemma_labels_in_concat(ls[k], code, range(lo, hi), range(hi, hi2), range(lo, hi2));
        } else {
            lemma_labels_in_weaken(ls[a], range(lo, hi), range(lo, hi2));
        }
    }
    assert forall|a: int, b: int, i: int, j: int|
        0 <= a < b < ls2.len() && 0 <= i < ls2[a].len() && 0 <= j < ls2[b].len() && #[trigger] ls2[a][i] is Label
            && #[trigger] ls2[b][j] is Label implies ls2[a][i]->Label_0 != ls2[b][j]->Label_0 by {
        assert(labels_fresh(ls[a], lo, hi));
        assert(labels_fresh(ls[b], lo, hi));
        if a == k && i >= n {
            assert(ls2[a][i] == code[i - n]);
            assert(ls2[b][j] == ls[b][j]);
            lemma_made_labels_differ(ls[b][j]->Label_0, code[i - n]->Label_0, range(lo, hi), range(hi, hi2));
        } else if b == k && j >= n {
            assert(ls2[a][i] == ls[a][i]);
            assert(ls2[b][j] == code[j - n]);
            lemma_made_labels_differ(ls[a][i]->Label_0, code[j - n]->Label_0, range(lo, hi), range(hi, hi2));
        } else {
            assert(ls2[a][i] == ls[a][i]);
            assert(ls2[b][j] == ls[b][j]);
        }
    }
}

proof fn lemma_after_labels(p: ProgV, ip: Option<Seq<char>>, code: Seq<Ins>, strings: Seq<Seq<char>>, lo: int, hi: int, hi2: int)
    requires
        lists_labels_fresh(code_lists(p), lo, hi),
        labels_fresh(code, hi, hi2),
        lo <= hi <= hi2,
    ensures
        lists_labels_fresh(code_lists(after(p, ip, code, strings)), lo, hi2),
{
    let ls = code_lists(p);
    let q = after(p, ip, code, strings);
    match ip {
        None => {
            lemma_lists_labels_append(ls, 0, code, lo, hi, hi2);
            assert(code_lists(q) =~= ls.update(0, ls[0] + code));
        },
        Some(name) => {
            match first_index(proc_names(p.procs), name) {
                Some(k) => {
                    lemma_first_index(proc_names(p.procs), name);
                    let kk = k as int + 1;
                    lemma_lists_labels_append(ls, kk, code, lo, hi, hi2);
                    assert(code_lists(q) =~= ls.update(kk, ls[kk] + code));
                },
                None => {
                    assert(code_lists(q) =~= ls);
                    assert forall|a: int| 0 <= a < ls.len() implies labels_fresh(#[trigger] ls[a], lo, hi2) by {
                        lemma_labels_in_weaken(ls[a], range(lo, hi), range(lo, hi2));
                    }
                },
            }
        },
    }
}

proof fn lemma_gen_procs_labels(g: GenV, p: ProgV, ast: Seq<Node>, lo: int)
    requires
        lists_labels_fresh(code_lists(p), lo, g.next_label as int),
        lo <= g.next_label,
    ensures
        gen_procs(g, p, ast) matches Some((g1, p1)) ==> lists_labels_fresh(
            code_lists(p1),
            lo,
            g1.next_label as int,
        ),
    decreases ast.len(),
{
    lemma_gen_procs_advances(g, p, ast);
    if ast.len() > 0 {
        lemma_gen_procs_labels(g, p, ast.drop_last(), lo);
        lemma_gen_procs_advances(g, p, ast.drop_last());
        if let Some((g1, p1)) = gen_procs(g, p, ast.drop_last()) {
            if let Node::ProcDecl { name, params, return_type, body } = ast.last() {
                let entries = param_entries(params);
                let gb = GenV {
                    next_reg: g1.next_reg,
                    next_label: g1.next_label,
                    symbols: g1.symbols + entries,
                    layouts: g1.layouts,
                };
                let pb = ProgV {
                    procs: p1.procs.push(
                        ProcV { name, params: entries, return_type, instructions: Seq::empty() },
                    ),
                    main: p1.main,
                    strings: p1.strings,
                    layouts: p1.layouts,
                };
                let ls1 = code_lists(p1);
                let lsb = code_lists(pb);
                assert(lsb =~= ls1.push(Seq::empty()));
                assert(lists_labels_fresh(lsb, lo, g1.next_label as int)) by {
                    assert forall|a: int| 0 <= a < lsb.len() implies labels_fresh(
                        #[trigger] lsb[a],
                        lo,
                        g1.next_label as int,
                    ) by {
                        if a < ls1.len() {
                            assert(lsb[a] == ls1[a]);
                        }
                    }
                    assert forall|a: int, b: int, i: int, j: int|
                        0 <= a < b < lsb.len() && 0 <= i < lsb[a].len() && 0 <= j < lsb[b].len()
                            && #[trigger] lsb[a][i] is Label && #[trigger] lsb[b][j] is Label implies lsb[a][i]->Label_0
                            != lsb[b][j]->Label_0 by {
                        assert(lsb[a] == ls1[a]);
                        assert(lsb[b] == ls1[b]);
                    }
                }
                lemma_gen_stmts_labels(gb, pb.strings, body);
                lemma_gen_stmts_advances(gb, pb.strings, body);
                if let Some(b) = gen_stmts(gb, pb.strings, body) {
                    lemma_after_labels(
                        pb,
                        Some(name),
                        b.code,
                        b.strings,
                        lo,
                        g1.next_label as int,
                        b.gen.next_label as int,
                    );
                }
            }
        }
    }
}

/// No label occurs twice in a generated program, neither within one instruction list nor in
/// two of them; every label was made with the label counter between its values before
/// generation and after it.
pub proof fn lemma_gen_program_labels_fresh(g: GenV, ast: Seq<Node>)
    ensures
        gen_program(g, ast) matches Some((g2, p)) ==> lists_labels_fresh(
            code_lists(p),
            g.next_label as int,
            g2.next_label as int,
        ),
{
    let defs = layout_entries(ast);
    let g1 = GenV {
        next_reg: g.next_reg,
        next_label: g.next_label,
        symbols: g.symbols,
        layouts: g.layouts + defs,
    };
    let p0 = ProgV { procs: Seq::empty(), main: Seq::empty(), strings: Seq::empty(), layouts: defs };
    let lo = g.next_label as int;
    assert(code_lists(p0) =~= seq![Seq::<Ins>::empty()]);
    assert(labels_fresh(code_lists(p0)[0], lo, lo));
    lemma_gen_procs_labels(g1, p0, ast, lo);
    lemma_gen_procs_advances(g1, p0, ast);
    if let Some((g2, p1)) = gen_procs(g1, p0, ast) {
        lemma_gen_stmts_labels(g2, p1.strings, ast);
        lemma_gen_stmts_advances(g2, p1.strings, ast);
        if let Some(m) = gen_stmts(g2, p1.strings, ast) {
            lemma_after_labels(p1, None, m.code, m.strings, lo, g2.next_label as int, m.gen.next_label as int);
        }
    }
}

/// Whether `ins` reads register `r`.
pub open spec fn reads_reg(ins: Ins, r: usize) -> bool {
    match ins {
        Ins::StoreVar { src, .. } => src == r,
        Ins::Add { src1, src2, .. } => src1 == r || src2 == r,
        Ins::Sub { src1, src2, .. } => src1 == r || src2 == r,
        Ins::Mul { src1, src2, .. } => src1 == r || src2 == r,
        Ins::Div { src1, src2, .. } => src1 == r || src2 == r,
        Ins::CmpEq { src1, src2, .. } => src1 == r || src2 == r,
        Ins::CmpNeq { src1, src2, .. } => src1 == r || src2 == r,
        Ins::CmpLt { src1, src2, .. } => src1 == r || src2 == r,
        Ins::CmpLte { src1, src2, .. } => src1 == r || src2 == r,
        Ins::CmpGt { src1, src2, .. } => src1 == r || src2 == r,
        Ins::CmpGte { src1, src2, .. } => src1 == r || src2 == r,
        Ins::Mod { src1, src2, .. } => src1 == r || src2 == r,
        Ins::LogAnd { src1, src2, .. } => src1 == r || src2 == r,
        Ins::LogOr { src1, src2, .. } => src1 == r || src2 == r,
        Ins::LogNot { src, .. } => src == r,
        Ins::Emit { reg, .. } => reg == r,
        Ins::JumpIfFalse { cond_reg, .. } => cond_reg == r,
        Ins::Call { args, .. } => args.contains(r),
        Ins::Yield(x) => x == Some(r),
        Ins::LoadDeref { ptr_reg, .. } => ptr_reg == r,
        Ins::StoreDeref { ptr_reg, val_reg } => ptr_reg == r || val_reg == r,
        Ins::ComputeFieldAddr { base_reg, .. } => base_reg == r,
        Ins::ComputeIndexAddr { base_reg, index_reg, .. } => base_reg == r || index_reg == r,
        Ins::Alloc { size_reg, .. } => size_reg == r,
        Ins::Free { ptr_reg } => ptr_reg == r,
        _ => false,
    }
}

/// Whether an instruction of `code` before position `i` writes `r`.
pub open spec fn written_before(code: Seq<Ins>, i: int, r: usize) -> bool {
    exists|j: int| 0 <= j < i && j < code.len() && #[trigger] dest_of(code[j]) == Some(r)
}

/// Every register that an instruction of `code` reads is written by an earlier instruction of
/// `code`.
pub open spec fn reads_after_writes(code: Seq<Ins>) -> bool {
    forall|i: int, r: usize|
        0 <= i < code.len() && #[trigger] reads_reg(code[i], r) ==> written_before(code, i, r)
}

/// Whether some instruction of `code` writes `r`.
pub open spec fn writes(code: Seq<Ins>, r: usize) -> bool {
    written_before(code, code.len() as int, r)
}

proof fn lemma_writes_left(a: Seq<Ins>, b: Seq<Ins>, r: usize)
    requires
        writes(a, r),
    ensures
        writes(a + b, r),
{
    let j = choose|j: int| 0 <= j < a.len() && j < a.len() && #[trigger] dest_of(a[j]) == Some(r);
    assert((a + b)[j] == a[j]);
}

proof fn lemma_writes_right(a: Seq<Ins>, b: Seq<Ins>, r: usize)
    requires
        writes(b, r),
    ensures
        writes(a + b, r),
{
    let j = choose|j: int| 0 <= j < b.len() && j < b.len() && #[trigger] dest_of(b[j]) == Some(r);
    assert((a + b)[a.len() + j] == b[j]);
}

proof fn lemma_reads_concat(a: Seq<Ins>, b: Seq<Ins>)
    requires
        reads_after_writes(a),
        reads_after_writes(b),
    ensures
        reads_after_writes(a + b),
{
    let c = a + b;
    assert forall|i: int, r: usize| 0 <= i < c.len() && #[trigger] reads_reg(c[i], r) implies written_before(c, i, r) by {
        if i < a.len() {
            assert(c[i] == a[i]);
            assert(reads_reg(a[i], r));
            let j = choose|j: int| 0 <= j < i && j < a.len() && #[trigger] dest_of(a[j]) == Some(r);
            assert(c[j] == a[j]);
        } else {
            let k = i - a.len();
            assert(c[i] == b[k]);
            assert(reads_reg(b[k], r));
            let j = choose|j: int| 0 <= j < k && j < b.len() && #[trigger] dest_of(b[j]) == Some(r);
            assert(c[a.len() + j] == b[j]);
        }
    }
}

/// Appending an instruction whose reads `a` writes keeps reads after writes, and the
/// instruction's own register is then written.
proof fn lemma_reads_push(a: Seq<Ins>, ins: Ins)
    requires
        reads_after_writes(a),
        forall|r: usize| #[trigger] reads_reg(ins, r) ==> writes(a, r),
    ensures
        reads_after_writes(a + seq![ins]),
        forall|r: usize| writes(a, r) ==> #[trigger] writes(a + seq![ins], r),
        dest_of(ins) matches Some(d) ==> writes(a + seq![ins], d),
{
    let c = a + seq![ins];
    assert forall|i: int, r: usize| 0 <= i < c.len() && #[trigger] reads_reg(c[i], r) implies written_before(c, i, r) by {
        if i < a.len() {
            assert(c[i] == a[i]);
            assert(reads_reg(a[i], r));
            let j = choose|j: int| 0 <= j < i && j < a.len() && #[trigger] dest_of(a[j]) == Some(r);
            assert(c[j] == a[j]);
        } else {
            assert(c[i] == ins);
            let j = choose|j: int| 0 <= j < a.len() && j < a.len() && #[trigger] dest_of(a[j]) == Some(r);
            assert(c[j] == a[j]);
        }
    }
    assert forall|r: usize| writes(a, r) implies #[trigger] writes(c, r) by {
        lemma_writes_left(a, seq![ins], r);
    }
    if let Some(d) = dest_of(ins) {
        assert(c[a.len() as int] == ins);
    }
}

proof fn lemma_reads_one(ins: Ins)
    requires
        forall|r: usize| !(#[trigger] reads_reg(ins, r)),
    ensures
        reads_after_writes(seq![ins]),
        dest_of(ins) matches Some(d) ==> writes(seq![ins], d),
{
    if let Some(d) = dest_of(ins) {
        assert(seq![ins][0] == ins);
    }
}

proof fn lemma_reads_two(a: Ins, b: Ins)
    requires
        forall|r: usize| !(#[trigger] reads_reg(a, r)),
        forall|r: usize| !(#[trigger] reads_reg(b, r)),
    ensures
        reads_after_writes(seq![a, b]),
{
    let m = seq![a, b];
    assert forall|i: int, r: usize| 0 <= i < m.len() && #[trigger] reads_reg(m[i], r) implies written_before(m, i, r) by {
        if i == 0 {
            assert(m[0] == a);
        } else {
            assert(m[1] == b);
        }
    }
}

/// What an expression's code gives: reads only registers written before them, and the value's
/// register, if any, is written by the code.
pub open spec fn expr_reads_ok(o: ExprOut) -> bool {
    &&& reads_after_writes(o.code)
    &&& (o.reg matches Some(r) ==> writes(o.code, r))
}

/// Every register that the code of an expression reads is written earlier in that code, and
/// the register that holds its value is written by it.
pub proof fn lemma_gen_expr_reads(g: GenV, st: Seq<Seq<char>>, n: Node)
    ensures
        gen_expr(g, st, n) matches Some(o) ==> expr_reads_ok(o),
    decreases n, 2nat,
{
    match n {
        Node::Number(t) => {
            if let Some((g1, d)) = fresh_reg(g) {
                lemma_reads_one(Ins::LoadFloatConst { dest: d, val: t });
            }
        },
        Node::IntNumber(v) => {
            if let Some((g1, d)) = fresh_reg(g) {
                lemma_reads_one(Ins::LoadIntConst { dest: d, val: v });
            }
        },
        Node::StringLit(x) => {
            let (st1, id) = intern(st, x);
            if let Some((g1, d)) = fresh_reg(g) {
                lemma_reads_one(Ins::LoadStringConst { dest: d, str_id: id as usize });
            }
        },
        Node::Boolean(b) => {
            if let Some((g1, d)) = fresh_reg(g) {
                lemma_reads_one(Ins::LoadBoolConst { dest: d, val: b });
            }
        },
        Node::Identifier(name) => {
            if let Some((g1, d)) = fresh_reg(g) {
                lemma_reads_one(Ins::LoadVar { dest: d, name });
            }
        },
        Node::BinaryOp { .. } => {
            lemma_gen_binary_reads(g, st, n);
        },
        Node::UnaryOp { .. } => {
            lemma_gen_unary_reads(g, st, n);
        },
        Node::Call { .. } | Node::AddressOf(_) | Node::Deref(_) | Node::Claim(_) | Node::Purge(_) => {
            lemma_gen_other_reads(g, st, n);
        },
        Node::ArrayIndex { .. } | Node::FieldAccess { .. } => {
            lemma_gen_addr_reads(g, st, n);
            if let Some(a) = gen_addr(g, st, n) {
                if let Some((g1, d)) = fresh_reg(a.gen) {
                    lemma_reads_push(a.code, Ins::LoadDeref { dest: d, ptr_reg: a.reg });
                }
            }
        },
        _ => {},
    }
}

#[verifier::spinoff_prover]
proof fn lemma_gen_binary_reads(g: GenV, st: Seq<Seq<char>>, n: Node)
    requires
        n is BinaryOp,
    ensures
        gen_expr(g, st, n) matches Some(o) ==> expr_reads_ok(o),
    decreases n, 1nat,
{
    if let Node::BinaryOp { left, op, right } = n {
        lemma_gen_expr_reads(g, st, *left);
        if let Some(l) = gen_expr(g, st, *left) {
            lemma_gen_expr_reads(l.gen, l.strings, *right);
            if let Some(r) = gen_expr(l.gen, l.strings, *right) {
                lemma_reads_concat(l.code, r.code);
                if let Some((g3, d)) = fresh_reg(r.gen) {
                    if let (Some(a), Some(b)) = (l.reg, r.reg) {
                        lemma_writes_left(l.code, r.code, a);
                        lemma_writes_right(l.code, r.code, b);
                        if let Some(ins) = binary_ins(op, d, a, b, l.ty == Ty::Num) {
                            lemma_reads_push(l.code + r.code, ins);
                        }
                    }
                }
            }
        }
    }
}

#[verifier::spinoff_prover]
proof fn lemma_gen_unary_reads(g: GenV, st: Seq<Seq<char>>, n: Node)
    requires
        n is UnaryOp,
    ensures
        gen_expr(g, st, n) matches Some(o) ==> expr_reads_ok(o),
    decreases n, 1nat,
{
    if let Node::UnaryOp { op, operand } = n {
        lemma_gen_expr_reads(g, st, *operand);
        if let Some(o) = gen_expr(g, st, *operand) {
            if let (Some((g1, d)), Some(s)) = (fresh_reg(o.gen), o.reg) {
                lemma_reads_push(o.code, Ins::LogNot { dest: d, src: s });
                if let Some((g2, z)) = fresh_reg(g1) {
                    let load = if o.ty == Ty::Num {
                        Ins::LoadFloatConst { dest: z, val: float_zero() }
                    } else {
                        Ins::LoadIntConst { dest: z, val: 0 }
                    };
                    let sub = Ins::Sub { dest: d, src1: z, src2: s, is_float: o.ty == Ty::Num };
                    lemma_reads_push(o.code, load);
                    lemma_reads_push(o.code + seq![load], sub);
                    assert(o.code + seq![load] + seq![sub] =~= o.code + seq![load, sub]);
                }
            }
        }
    }
}

#[verifier::spinoff_prover]
proof fn lemma_gen_other_reads(g: GenV, st: Seq<Seq<char>>, n: Node)
    requires
        n is Call || n is AddressOf || n is Deref || n is Claim || n is Purge,
    ensures
        gen_expr(g, st, n) matches Some(o) ==> expr_reads_ok(o),
    decreases n, 1nat,
{
    match n {
        Node::Call { callee, args } => {
            lemma_gen_args_reads(g, st, args);
            if let Some(a) = gen_args(g, st, args) {
                if let Some((g1, d)) = fresh_reg(a.gen) {
                    let ins = Ins::Call { dest: Some(d), name: callee, args: a.regs };
                    assert forall|r: usize| #[trigger] reads_reg(ins, r) implies writes(a.code, r) by {
                        let k = choose|k: int| 0 <= k < a.regs.len() && a.regs[k] == r;
                    }
                    lemma_reads_push(a.code, ins);
                }
            }
        },
        Node::AddressOf(inner) => {
            lemma_gen_addr_reads(g, st, *inner);
        },
        Node::Deref(inner) => {
            lemma_gen_expr_reads(g, st, *inner);
            if let Some(e) = gen_expr(g, st, *inner) {
                if let (Some((g1, d)), Some(p)) = (fresh_reg(e.gen), e.reg) {
                    lemma_reads_push(e.code, Ins::LoadDeref { dest: d, ptr_reg: p });
                }
            }
        },
        Node::Claim(inner) => {
            lemma_gen_expr_reads(g, st, *inner);
            if let Some(e) = gen_expr(g, st, *inner) {
                if let (Some((g1, d)), Some(sr)) = (fresh_reg(e.gen), e.reg) {
                    lemma_reads_push(e.code, Ins::Alloc { dest: d, size_reg: sr });
                }
            }
        },
        Node::Purge(inner) => {
            lemma_gen_expr_reads(g, st, *inner);
            if let Some(e) = gen_expr(g, st, *inner) {
                if let Some(p) = e.reg {
                    lemma_reads_push(e.code, Ins::Free { ptr_reg: p });
                }
            }
        },
        _ => {},
    }
}

/// Every register that the code of an address reads is written earlier in that code, and the
/// register that holds the address is written by it.
pub proof fn lemma_gen_addr_reads(g: GenV, st: Seq<Seq<char>>, n: Node)
    ensures
        gen_addr(g, st, n) matches Some(a) ==> reads_after_writes(a.code) && writes(a.code, a.reg),
    decreases n, 0nat,
{
    match n {
        Node::Identifier(name) => {
            if let Some((g1, d)) = fresh_reg(g) {
                lemma_reads_one(Ins::ComputeAddr { dest: d, var_name: name });
            }
        },
        Node::Deref(inner) => {
            lemma_gen_expr_reads(g, st, *inner);
        },
        Node::FieldAccess { object, field } => {
            lemma_gen_addr_reads(g, st, *object);
            if let Some(b) = gen_addr(g, st, *object) {
                if let Some(lname) = layout_of(b.ty) {
                    if let Some(def) = lookup(b.gen.layouts, lname) {
                        if let Some(f) = find_field(def.fields, field) {
                            if let Some((g1, d)) = fresh_reg(b.gen) {
                                lemma_reads_push(
                                    b.code,
                                    Ins::ComputeFieldAddr { dest: d, base_reg: b.reg, byte_offset: f.offset },
                                );
                            }
                        }
                    }
                }
            }
        },
        Node::ArrayIndex { array, index } => {
            lemma_gen_addr_reads(g, st, *array);
            if let Some(b) = gen_addr(g, st, *array) {
                lemma_gen_expr_reads(b.gen, b.strings, *index);
                if let Some(i) = gen_expr(b.gen, b.strings, *index) {
                    lemma_reads_concat(b.code, i.code);
                    if let (Some((g1, d)), Some(ir)) = (fresh_reg(i.gen), i.reg) {
                        lemma_writes_left(b.code, i.code, b.reg);
                        lemma_writes_right(b.code, i.code, ir);
                        lemma_reads_push(
                            b.code + i.code,
                            Ins::ComputeIndexAddr { dest: d, base_reg: b.reg, index_reg: ir, elem_size: 8 },
                        );
                    }
                }
            }
        },
        _ => {},
    }
}

/// Every register that the code of call arguments reads is written earlier in that code, and
/// each argument's register is written by it.
pub proof fn lemma_gen_args_reads(g: GenV, st: Seq<Seq<char>>, args: Seq<Node>)
    ensures
        gen_args(g, st, args) matches Some(a) ==> reads_after_writes(a.code) && forall|k: int|
            0 <= k < a.regs.len() ==> writes(a.code, #[trigger] a.regs[k]),
    decreases args, 3nat,
{
    if args.len() > 0 {
        lemma_gen_args_reads(g, st, args.drop_last());
        if let Some(a) = gen_args(g, st, args.drop_last()) {
            lemma_gen_expr_reads(a.gen, a.strings, args.last());
            if let Some(e) = gen_expr(a.gen, a.strings, args.last()) {
                lemma_reads_concat(a.code, e.code);
                if let Some(r) = e.reg {
                    let regs = a.regs.push(r);
                    assert forall|k: int| 0 <= k < regs.len() implies writes(a.code + e.code, #[trigger] regs[k]) by {
                        if k < a.regs.len() {
                            lemma_writes_left(a.code, e.code, a.regs[k]);
                        } else {
                            lemma_writes_right(a.code, e.code, r);
                        }
                    }
                }
            }
        }
    }
}

#[verifier::spinoff_prover]
proof fn lemma_gen_assign_reads(g: GenV, st: Seq<Seq<char>>, n: Node)
    ensures
        gen_assign(g, st, n) matches Some(o) ==> reads_after_writes(o.code),
{
    if let Node::Assignment { target, value } = n {
        lemma_gen_expr_reads(g, st, *value);
        if let Some(e) = gen_expr(g, st, *value) {
            if let Some(vr) = e.reg {
                match *target {
                    Node::Identifier(name) => {
                        lemma_reads_push(e.code, Ins::StoreVar { name, src: vr });
                    },
                    Node::Deref(inner) => {
                        lemma_gen_expr_reads(e.gen, e.strings, *inner);
                        if let Some(p) = gen_expr(e.gen, e.strings, *inner) {
                            if let Some(pr) = p.reg {
                                lemma_reads_concat(e.code, p.code);
                                lemma_writes_left(e.code, p.code, vr);
                                lemma_writes_right(e.code, p.code, pr);
                                lemma_reads_push(e.code + p.code, Ins::StoreDeref { ptr_reg: pr, val_reg: vr });
                            }
                        }
                    },
                    _ => {
                        lemma_gen_addr_reads(e.gen, e.strings, *target);
                        if let Some(a) = gen_addr(e.gen, e.strings, *target) {
                            lemma_reads_concat(e.code, a.code);
                            lemma_writes_left(e.code, a.code, vr);
                            lemma_writes_right(e.code, a.code, a.reg);
                            lemma_reads_push(e.code + a.code, Ins::StoreDeref { ptr_reg: a.reg, val_reg: vr });
                        }
                    },
                }
            }
        }
    }
}

#[verifier::spinoff_prover]
proof fn lemma_gen_when_reads(g: GenV, st: Seq<Seq<char>>, n: Node)
    ensures
        gen_when(g, st, n) matches Some(o) ==> reads_after_writes(o.code),
    decreases n, 2nat,
{
    if let Node::When { condition, then_branch, else_branch } = n {
        lemma_gen_expr_reads(g, st, *condition);
        if let Some(c) = gen_expr(g, st, *condition) {
            if let Some(cr) = c.reg {
                if let Some((g1, el)) = fresh_label(c.gen, else_prefix()) {
                    if let Some((g2, en)) = fresh_label(g1, end_when_prefix()) {
                        lemma_gen_stmts_reads(g2, c.strings, then_branch);
                        if let Some(t) = gen_stmts(g2, c.strings, then_branch) {
                            let jump = Ins::JumpIfFalse { cond_reg: cr, label: el };
                            lemma_reads_push(c.code, jump);
                            let head = c.code + seq![jump] + t.code;
                            lemma_reads_concat(c.code + seq![jump], t.code);
                            lemma_reads_one(Ins::Label(el));
                            lemma_reads_concat(head, seq![Ins::Label(el)]);
                            if let Some(eb) = else_branch {
                                lemma_gen_stmts_reads(t.gen, t.strings, eb);
                                if let Some(e) = gen_stmts(t.gen, t.strings, eb) {
                                    let mid = seq![Ins::Jump(en), Ins::Label(el)];
                                    lemma_reads_two(Ins::Jump(en), Ins::Label(el));
                                    lemma_reads_concat(head, mid);
                                    lemma_reads_concat(head + mid, e.code);
                                    lemma_reads_one(Ins::Label(en));
                                    lemma_reads_concat(head + mid + e.code, seq![Ins::Label(en)]);
                                }
                            }
                        }
                    }
                }
            }
        }
    }
}

#[verifier::spinoff_prover]
proof fn lemma_gen_during_reads(g: GenV, st: Seq<Seq<char>>, n: Node)
    ensures
        gen_during(g, st, n) matches Some(o) ==> reads_after_writes(o.code),
    decreases n, 2nat,
{
    if let Node::During { condition, body } = n {
        if let Some((g1, sl)) = fresh_label(g, during_start_prefix()) {
            if let Some((g2, el)) = fresh_label(g1, during_end_prefix()) {
                lemma_gen_expr_reads(g2, st, *condition);
                if let Some(c) = gen_expr(g2, st, *condition) {
                    if let Some(cr) = c.reg {
                        lemma_gen_stmts_reads(c.gen, c.strings, body);
                        if let Some(b) = gen_stmts(c.gen, c.strings, body) {
                            let s0 = seq![Ins::Label(sl)];
                            lemma_reads_one(Ins::Label(sl));
                            lemma_reads_concat(s0, c.code);
                            lemma_writes_right(s0, c.code, cr);
                            let jump = Ins::JumpIfFalse { cond_reg: cr, label: el };
                            lemma_reads_push(s0 + c.code, jump);
                            lemma_reads_concat(s0 + c.code + seq![jump], b.code);
                            lemma_reads_two(Ins::Jump(sl), Ins::Label(el));
                            lemma_reads_concat(
                                s0 + c.code + seq![jump] + b.code,
                                seq![Ins::Jump(sl), Ins::Label(el)],
                            );
                        }
                    }
                }
            }
        }
    }
}

/// Every register that the code of a statement reads is written earlier in that code.
pub proof fn lemma_gen_stmt_reads(g: GenV, st: Seq<Seq<char>>, n: Node)
    ensures
        gen_stmt(g, st, n) matches Some(o) ==> reads_after_writes(o.code),
    decreases n, 3nat,
{
    match n {
        Node::SlotDecl { name, slot_type, value } => {
            if let Some(v) = value {
                lemma_gen_expr_reads(g, st, *v);
                if let Some(e) = gen_expr(g, st, *v) {
                    if let Some(r) = e.reg {
                        lemma_reads_push(e.code, Ins::StoreVar { name, src: r });
                    } else {
                        assert(e.code + Seq::<Ins>::empty() =~= e.code);
                    }
                }
            }
        },
        Node::Assignment { .. } => {
            lemma_gen_assign_reads(g, st, n);
        },
        Node::When { .. } => {
            lemma_gen_when_reads(g, st, n);
        },
        Node::During { .. } => {
            lemma_gen_during_reads(g, st, n);
        },
        Node::Emit(x) => {
            lemma_gen_expr_reads(g, st, *x);
            if let Some(e) = gen_expr(g, st, *x) {
                if let Some(r) = e.reg {
                    lemma_reads_push(e.code, Ins::Emit { reg: r, reg_type: e.ty });
                } else {
                    assert(e.code + Seq::<Ins>::empty() =~= e.code);
                }
            }
        },
        Node::Yield(x) => {
            if let Some(e) = x {
                lemma_gen_expr_reads(g, st, *e);
                if let Some(o) = gen_expr(g, st, *e) {
                    lemma_reads_push(o.code, Ins::Yield(o.reg));
                }
            } else {
                lemma_reads_one(Ins::Yield(None));
            }
        },
        Node::Block(stmts) => {
            lemma_gen_stmts_reads(g, st, stmts);
        },
        Node::ExprStatement(x) => {
            lemma_gen_expr_reads(g, st, *x);
        },
        _ => {},
    }
}

/// Every register that the code of statements reads is written earlier in that code.
pub proof fn lemma_gen_stmts_reads(g: GenV, st: Seq<Seq<char>>, ns: Seq<Node>)
    ensures
        gen_stmts(g, st, ns) matches Some(o) ==> reads_after_writes(o.code),
    decreases ns, 3nat,
{
    if ns.len() > 0 {
        lemma_gen_stmts_reads(g, st, ns.drop_last());
        if let Some(a) = gen_stmts(g, st, ns.drop_last()) {
            lemma_gen_stmt_reads(a.gen, a.strings, ns.last());
            if let Some(b) = gen_stmt(a.gen, a.strings, ns.last()) {
                lemma_reads_concat(a.code, b.code);
            }
        }
    }
}

/// In every instruction list of a program, each register an instruction reads is written by
/// an earlier instruction of the same list.
pub open spec fn prog_reads_after_writes(p: ProgV) -> bool {
    forall|a: int| 0 <= a < code_lists(p).len() ==> reads_after_writes(#[trigger] code_lists(p)[a])
}

proof fn lemma_after_reads(p: ProgV, ip: Option<Seq<char>>, code: Seq<Ins>, strings: Seq<Seq<char>>)
    requires
        prog_reads_after_writes(p),
        reads_after_writes(code),
    ensures
        prog_reads_after_writes(after(p, ip, code, strings)),
{
    let ls = code_lists(p);
    let q = after(p, ip, code, strings);
    match ip {
        None => {
            assert(reads_after_writes(ls[0]));
            lemma_reads_concat(ls[0], code);
            assert(code_lists(q) =~= ls.update(0, ls[0] + code));
        },
        Some(name) => {
            match first_index(proc_names(p.procs), name) {
                Some(k) => {
                    lemma_first_index(proc_names(p.procs), name);
                    let kk = k as int + 1;
                    assert(reads_after_writes(ls[kk]));
                    lemma_reads_concat(ls[kk], code);
                    assert(code_lists(q) =~= ls.update(kk, ls[kk] + code));
                },
                None => {
                    assert(code_lists(q) =~= ls);
                },
            }
        },
    }
}

proof fn lemma_gen_procs_reads(g: GenV, p: ProgV, ast: Seq<Node>)
    requires
        prog_reads_after_writes(p),
    ensures
        gen_procs(g, p, ast) matches Some((g1, p1)) ==> prog_reads_after_writes(p1),
    decreases ast.len(),
{
    if ast.len() > 0 {
        lemma_gen_procs_reads(g, p, ast.drop_last());
        if let Some((g1, p1)) = gen_procs(g, p, ast.drop_last()) {
            if let Node::ProcDecl { name, params, return_type, body } = ast.last() {
                let entries = param_entries(params);
                let gb = GenV {
                    next_reg: g1.next_reg,
                    next_label: g1.next_label,
                    symbols: g1.symbols + entries,
                    layouts: g1.layouts,
                };
                let pb = ProgV {
                    procs: p1.procs.push(
                        ProcV { name, params: entries, return_type, instructions: Seq::empty() },
                    ),
                    main: p1.main,
                    strings: p1.strings,
                    layouts: p1.layouts,
                };
                assert(code_lists(pb) =~= code_lists(p1).push(Seq::empty()));
                assert(prog_reads_after_writes(pb)) by {
                    assert forall|a: int| 0 <= a < code_lists(pb).len() implies reads_after_writes(
                        #[trigger] code_lists(pb)[a],
                    ) by {
                        if a < code_lists(p1).len() {
                            assert(code_lists(pb)[a] == code_lists(p1)[a]);
                        }
                    }
                }
                lemma_gen_stmts_reads(gb, pb.strings, body);
                if let Some(b) = gen_stmts(gb, pb.strings, body) {
                    lemma_after_reads(pb, Some(name), b.code, b.strings);
                }
            }
        }
    }
}

/// In every instruction list of a generated program, each register an instruction reads is
/// written by an earlier instruction of the same list.
pub proof fn lemma_gen_program_reads_after_writes(g: GenV, ast: Seq<Node>)
    ensures
        gen_program(g, ast) matches Some((g2, p)) ==> prog_reads_after_writes(p),
{
    let defs = layout_entries(ast);
    let g1 = GenV {
        next_reg: g.next_reg,
        next_label: g.next_label,
        symbols: g.symbols,
        layouts: g.layouts + defs,
    };
    let p0 = ProgV { procs: Seq::empty(), main: Seq::empty(), strings: Seq::empty(), layouts: defs };
    assert(code_lists(p0) =~= seq![Seq::<Ins>::empty()]);
    lemma_gen_procs_reads(g1, p0, ast);
    if let Some((g2, p1)) = gen_procs(g1, p0, ast) {
        lemma_gen_stmts_reads(g2, p1.strings, ast);
        if let Some(m) = gen_stmts(g2, p1.strings, ast) {
            lemma_after_reads(p1, None, m.code, m.strings);
        }
    }
}

/// The first and second operand registers of a two-operand instruction.
pub open spec fn operands(ins: Ins) -> Option<(usize, usize)> {
    match ins {
        Ins::Add { src1, src2, .. } => Some((src1, src2)),
        Ins::Sub { src1, src2, .. } => Some((src1, src2)),
        Ins::Mul { src1, src2, .. } => Some((src1, src2)),
        Ins::Div { src1, src2, .. } => Some((src1, src2)),
        Ins::Mod { src1, src2, .. } => Some((src1, src2)),
        Ins::CmpEq { src1, src2, .. } => Some((src1, src2)),
        Ins::CmpNeq { src1, src2, .. } => Some((src1, src2)),
        Ins::CmpLt { src1, src2, .. } => Some((src1, src2)),
        Ins::CmpLte { src1, src2, .. } => Some((src1, src2)),
        Ins::CmpGt { src1, src2, .. } => Some((src1, src2)),
        Ins::CmpGte { src1, src2, .. } => Some((src1, src2)),
        Ins::LogAnd { src1, src2, .. } => Some((src1, src2)),
        Ins::LogOr { src1, src2, .. } => Some((src1, src2)),
        _ => None,
    }
}

/// The operator that a two-operand instruction computes.
pub open spec fn operator_of(ins: Ins) -> Option<Tok> {
    match ins {
        Ins::Add { .. } => Some(Tok::Plus),
        Ins::Sub { .. } => Some(Tok::Minus),
        Ins::Mul { .. } => Some(Tok::Star),
        Ins::Div { .. } => Some(Tok::Slash),
        Ins::Mod { .. } => Some(Tok::Percent),
        Ins::CmpEq { .. } => Some(Tok::EqualEqual),
        Ins::CmpNeq { .. } => Some(Tok::BangEqual),
        Ins::CmpLt { .. } => Some(Tok::Less),
        Ins::CmpLte { .. } => Some(Tok::LessEqual),
        Ins::CmpGt { .. } => Some(Tok::Greater),
        Ins::CmpGte { .. } => Some(Tok::GreaterEqual),
        Ins::LogAnd { .. } => Some(Tok::AmpAmp),
        Ins::LogOr { .. } => Some(Tok::PipePipe),
        _ => None,
    }
}

/// The code of `left op right` is the code of `left`, then that of `right`, then one
/// instruction that computes `op` into the expression's register, with the register of
/// `left`'s value as its first operand and that of `right`'s value as its second.
pub proof fn lemma_binary_operands(g: GenV, st: Seq<Seq<char>>, left: Node, op: Tok, right: Node)
    requires
        gen_expr(g, st, Node::BinaryOp { left: Box::new(left), op, right: Box::new(right) }) is Some,
    ensures
        ({
            let o = gen_expr(g, st, Node::BinaryOp { left: Box::new(left), op, right: Box::new(right) })->0;
            let l = gen_expr(g, st, left)->0;
            let r = gen_expr(l.gen, l.strings, right)->0;
            &&& gen_expr(g, st, left) is Some
            &&& gen_expr(l.gen, l.strings, right) is Some
            &&& o.code.len() == l.code.len() + r.code.len() + 1
            &&& o.code.take(l.code.len() as int) == l.code
            &&& o.code.subrange(l.code.len() as int, l.code.len() as int + r.code.len()) == r.code
            &&& operator_of(o.code.last()) == Some(op)
            &&& operands(o.code.last()) == Some((l.reg->0, r.reg->0))
            &&& dest_of(o.code.last()) == o.reg
        }),
{
    let n = Node::BinaryOp { left: Box::new(left), op, right: Box::new(right) };
    let l = gen_expr(g, st, left)->0;
    let r = gen_expr(l.gen, l.strings, right)->0;
    let o = gen_expr(g, st, n)->0;
    let (g3, d) = fresh_reg(r.gen)->0;
    let ins = binary_ins(op, d, l.reg->0, r.reg->0, l.ty == Ty::Num)->0;
    assert(o.code == l.code + r.code + seq![ins]);
    assert(o.code.take(l.code.len() as int) =~= l.code);
    assert(o.code.subrange(l.code.len() as int, l.code.len() as int + r.code.len()) =~= r.code);
    assert(o.code.last() == ins);
}

/// Labels made with one prefix at different values of the label counter differ; as the
/// counter only goes up, a generator never makes the same label twice.
pub proof fn lemma_fresh_labels_differ(g1: GenV, g2: GenV, prefix: Seq<char>)
    requires
        g1.next_label != g2.next_label,
        fresh_label(g1, prefix) is Some,
        fresh_label(g2, prefix) is Some,
    ensures
        (fresh_label(g1, prefix)->0).1 != (fresh_label(g2, prefix)->0).1,
{
    let a = (fresh_label(g1, prefix)->0).1;
    let b = (fresh_label(g2, prefix)->0).1;
    if a == b {
        let k = prefix.len() as int + 1;
        assert(a.skip(k) =~= decimal(g1.next_label as nat));
        assert(b.skip(k) =~= decimal(g2.next_label as nat));
        lemma_decimal_injective(g1.next_label as nat, g2.next_label as nat);
    }
}

/// The variables bound inside a procedure are not seen after it: generating a procedure
/// leaves the bindings as they were before it.
pub proof fn lemma_gen_proc_restores_symbols(
    g: GenV,
    p: ProgV,
    name: Seq<char>,
    params: Seq<ParamV>,
    ret: Ty,
    body: Seq<Node>,
)
    ensures
        gen_proc(g, p, name, params, ret, body) matches Some((g2, _)) ==> g2.symbols == g.symbols,
{
}

// ---------------------------------------------------------------------------
// Programs of the intermediate form
// ---------------------------------------------------------------------------

pub open spec fn ins_view(v: Seq<IRInstruction>) -> Seq<Ins> {
    v.map_values(|i: IRInstruction| i@)
}

pub open spec fn param_list_view(v: Seq<(String, Type)>) -> Seq<(Seq<char>, Ty)> {
    v.map_values(|e: (String, Type)| (e.0@, e.1@))
}

pub open spec fn strings_view(v: Seq<String>) -> Seq<Seq<char>> {
    v.map_values(|x: String| x@)
}

/// A procedure of the intermediate form.
#[derive(Debug, Clone, PartialEq)]
pub struct IRProc {
    pub name: String,
    pub params: Vec<(String, Type)>,
    pub return_type: Type,
    pub instructions: Vec<IRInstruction>,
}

impl View for IRProc {
    type V = ProcV;

    open spec fn view(&self) -> ProcV {
        ProcV {
            name: self.name@,
            params: param_list_view(self.params@),
            return_type: self.return_type@,
            instructions: ins_view(self.instructions@),
        }
    }
}

pub open spec fn procs_view(v: Seq<IRProc>) -> Seq<ProcV> {
    v.map_values(|q: IRProc| q@)
}

/// Layout definitions by name; a later definition of a name hides an earlier one.
#[derive(Debug, Clone)]
pub struct LayoutTable {
    defs: Vec<LayoutDef>,
}

impl View for LayoutTable {
    type V = Seq<(Seq<char>, LayoutV)>;

    closed spec fn view(&self) -> Seq<(Seq<char>, LayoutV)> {
        self.defs@.map_values(|d: LayoutDef| (d.name@, d@))
    }
}

impl LayoutTable {
    pub fn new() -> (r: Self)
        ensures
            r@ == Seq::<(Seq<char>, LayoutV)>::empty(),
    {
        let r = LayoutTable { defs: Vec::new() };
        proof {
            assert(r@ =~= Seq::<(Seq<char>, LayoutV)>::empty());
        }
        r
    }

    /// Adds a definition under its name.
    pub fn insert(&mut self, def: LayoutDef)
        ensures
            final(self)@ == old(self)@.push((def.name@, def@)),
    {
        self.defs.push(def);
        proof {
            assert(self@ =~= old(self)@.push((def.name@, def@)));
        }
    }

    /// The definition of the given name.
    pub fn get(&self, name: &String) -> (r: Option<&LayoutDef>)
        ensures
            match lookup(self@, name@) {
                Some(d) => r matches Some(x) && x@ == d,
                None => r is None,
            },
    {
        let mut i = self.defs.len();
        proof {
            assert(self@.take(i as int) =~= self@);
        }
        while i > 0
            invariant
                i <= self.defs.len(),
                lookup(self@, name@) == lookup(self@.take(i as int), name@),
            decreases i,
        {
            proof {
                assert(self@.take(i as int).drop_last() =~= self@.take(i - 1));
            }
            if self.defs[i - 1].name == *name {
                return Some(&self.defs[i - 1]);
            }
            i = i - 1;
        }
        None
    }
}

/// A program of the intermediate form.
#[derive(Debug, Clone)]
pub struct IRProgram {
    pub procs: Vec<IRProc>,
    pub main_instructions: Vec<IRInstruction>,
    pub string_literals: Vec<String>,
    pub layouts: LayoutTable,
}

impl View for IRProgram {
    type V = ProgV;

    open spec fn view(&self) -> ProgV {
        ProgV {
            procs: procs_view(self.procs@),
            main: ins_view(self.main_instructions@),
            strings: strings_view(self.string_literals@),
            layouts: self.layouts@,
        }
    }
}

impl IRProgram {
    pub fn new() -> (r: Self)
        ensures
            r@ == empty_prog(),
    {
        let r = IRProgram {
            procs: Vec::new(),
            main_instructions: Vec::new(),
            string_literals: Vec::new(),
            layouts: LayoutTable::new(),
        };
        proof {
            assert(r@.procs =~= Seq::<ProcV>::empty());
            assert(r@.main =~= Seq::<Ins>::empty());
            assert(r@.strings =~= Seq::<Seq<char>>::empty());
        }
        r
    }

    /// The index of `s` in the string table, adding it where it is not there yet.
    pub fn add_string(&mut self, s: String) -> (idx: usize)
        ensures
            final(self).procs == old(self).procs,
            final(self).main_instructions == old(self).main_instructions,
            final(self).layouts == old(self).layouts,
            (final(self)@.strings, idx as nat) == intern(old(self)@.strings, s@),
    {
        let ghost strs = old(self)@.strings;
        proof {
            lemma_first_index(strs, s@);
        }
        let mut i: usize = 0;
        while i < self.string_literals.len()
            invariant
                self == old(self),
                strs == strings_view(self.string_literals@),
                i <= self.string_literals.len(),
                forall|j: int| 0 <= j < i ==> strs[j] != s@,
            decreases self.string_literals.len() - i,
        {
            proof {
                assert(strs[i as int] == self.string_literals@[i as int]@);
            }
            if self.string_literals[i] == s {
                proof {
                    lemma_first_index(strs, s@);
                    match first_index(strs, s@) {
                        Some(k) => {
                            assert(k == i);
                        },
                        None => {},
                    }
                }
                return i;
            }
            i = i + 1;
        }
        let idx = self.string_literals.len();
        self.string_literals.push(s);
        proof {
            assert(strings_view(self.string_literals@) =~= strs.push(s@));
        }
        idx
    }
}

/// Variable types by name; a later binding of a name hides an earlier one.
struct SymbolTable {
    entries: Vec<(String, Type)>,
}

impl View for SymbolTable {
    type V = Seq<(Seq<char>, Ty)>;

    closed spec fn view(&self) -> Seq<(Seq<char>, Ty)> {
        param_list_view(self.entries@)
    }
}

impl SymbolTable {
    fn new() -> (r: Self)
        ensures
            r@ == Seq::<(Seq<char>, Ty)>::empty(),
    {
        let r = SymbolTable { entries: Vec::new() };
        proof {
            assert(r@ =~= Seq::<(Seq<char>, Ty)>::empty());
        }
        r
    }

    fn insert(&mut self, name: String, t: Type)
        ensures
            final(self)@ == old(self)@.push((name@, t@)),
    {
        self.entries.push((name, t));
        proof {
            assert(self@ =~= old(self)@.push((name@, t@)));
        }
    }

    /// The type bound to `name`, or `int` where it is unbound.
    fn type_of(&self, name: &String) -> (r: Type)
        ensures
            r@ == match lookup(self@, name@) {
                Some(t) => t,
                None => Ty::Int,
            },
    {
        let mut i = self.entries.len();
        proof {
            assert(self@.take(i as int) =~= self@);
        }
        while i > 0
            invariant
                i <= self.entries.len(),
                lookup(self@, name@) == lookup(self@.take(i as int), name@),
            decreases i,
        {
            proof {
                assert(self@.take(i as int).drop_last() =~= self@.take(i - 1));
            }
            if self.entries[i - 1].0 == *name {
                return self.entries[i - 1].1.duplicate();
            }
            i = i - 1;
        }
        Type::Int
    }

    fn duplicate(&self) -> (r: Self)
        ensures
            r@ == self@,
    {
        let mut entries: Vec<(String, Type)> = Vec::new();
        let mut i: usize = 0;
        while i < self.entries.len()
            invariant
                i <= self.entries.len(),
                entries@.len() == i,
                forall|j: int| 0 <= j < i ==> (#[trigger] entries@[j]).0@ == self.entries@[j].0@ && entries@[j].1@ == self.entries@[j].1@,
            decreases self.entries.len() - i,
        {
            let e = (self.entries[i].0.clone(), self.entries[i].1.duplicate());
            entries.push(e);
            i = i + 1;
        }
        let r = SymbolTable { entries };
        proof {
            assert(r@ =~= self@);
        }
        r
    }
}

// ---------------------------------------------------------------------------
// The generator
// ---------------------------------------------------------------------------

/// What a generated expression gives, against the model.
pub open spec fn expr_result(
    g0: GenV,
    p0: ProgV,
    ip: Option<Seq<char>>,
    n: Node,
    r: Option<(Option<usize>, Type)>,
    g1: GenV,
    p1: ProgV,
) -> bool {
    match gen_expr(g0, p0.strings, n) {
        Some(o) => r matches Some((reg, ty)) && reg == o.reg && ty@ == o.ty && g1 == o.gen && p1
            == after(p0, ip, o.code, o.strings),
        None => r is None,
    }
}

/// What a generated address gives, against the model.
pub open spec fn addr_result(
    g0: GenV,
    p0: ProgV,
    ip: Option<Seq<char>>,
    n: Node,
    r: Option<(usize, Type)>,
    g1: GenV,
    p1: ProgV,
) -> bool {
    match gen_addr(g0, p0.strings, n) {
        Some(o) => r matches Some((reg, ty)) && reg == o.reg && ty@ == o.ty && g1 == o.gen && p1
            == after(p0, ip, o.code, o.strings),
        None => r is None,
    }
}

/// What generated statements give, against the model.
pub open spec fn stmts_result(
    o: Option<StmtOut>,
    p0: ProgV,
    ip: Option<Seq<char>>,
    r: Option<()>,
    g1: GenV,
    p1: ProgV,
) -> bool {
    match o {
        Some(o) => r is Some && g1 == o.gen && p1 == after(p0, ip, o.code, o.strings),
        None => r is None,
    }
}

/// The exact type that a layout field access goes through.
fn layout_name_of(t: &Type) -> (r: Option<&String>)
    ensures
        match layout_of(t@) {
            Some(n) => r matches Some(s) && s@ == n,
            None => r is None,
        },
{
    match t {
        Type::Layout(n) => Some(n),
        Type::Pointer(inner) => direct_layout_name(inner),
        _ => None,
    }
}

/// The name of a layout type.
fn direct_layout_name(t: &Type) -> (r: Option<&String>)
    ensures
        match t@ {
            Ty::Layout(n) => r matches Some(s) && s@ == n,
            _ => r is None,
        },
{
    match t {
        Type::Layout(n) => Some(n),
        _ => None,
    }
}

/// The first field of the given name.
fn find_field_named<'a>(fields: &'a Vec<crate::core_types::LayoutField>, name: &String) -> (r: Option<&'a crate::core_types::LayoutField>)
    ensures
        match find_field(crate::core_types::fields_view(fields@), name@) {
            Some(f) => r matches Some(x) && x@ == f,
            None => r is None,
        },
{
    let ghost fv = crate::core_types::fields_view(fields@);
    let mut i: usize = 0;
    proof {
        assert(fv.skip(0) =~= fv);
    }
    while i < fields.len()
        invariant
            fv == crate::core_types::fields_view(fields@),
            i <= fields.len(),
            find_field(fv, name@) == find_field(fv.skip(i as int), name@),
        decreases fields.len() - i,
    {
        proof {
            assert(fv.skip(i as int)[0] == fields@[i as int]@);
            assert(fv.skip(i as int).drop_first() =~= fv.skip(i + 1));
        }
        if fields[i].name == *name {
            return Some(&fields[i]);
        }
        i = i + 1;
    }
    None
}

/// The generator of intermediate code: register and label counters, the types of variables,
/// the known layouts, and the procedure being generated, if any.
pub struct IRGenerator {
    next_reg: usize,
    next_label: usize,
    symbol_types: SymbolTable,
    layouts: LayoutTable,
    in_proc: Option<String>,
}

impl IRGenerator {
    /// The model of the generator's state.
    pub closed spec fn gen(&self) -> GenV {
        GenV {
            next_reg: self.next_reg,
            next_label: self.next_label,
            symbols: self.symbol_types@,
            layouts: self.layouts@,
        }
    }

    /// The name of the procedure being generated, if any.
    pub closed spec fn in_proc(&self) -> Option<Seq<char>> {
        match self.in_proc {
            Some(s) => Some(s@),
            None => None,
        }
    }

    pub fn new() -> (r: Self)
        ensures
            r.gen() == (GenV {
                next_reg: 0,
                next_label: 0,
                symbols: Seq::empty(),
                layouts: Seq::empty(),
            }),
            r.in_proc() is None,
    {
        IRGenerator {
            next_reg: 0,
            next_label: 0,
            symbol_types: SymbolTable::new(),
            layouts: LayoutTable::new(),
            in_proc: None,
        }
    }

    /// A fresh register; the counter must not be at its maximum.
    pub fn new_register(&mut self) -> (r: usize)
        requires
            old(self).gen().next_reg < usize::MAX,
        ensures
            fresh_reg(old(self).gen()) == Some((final(self).gen(), r)),
            final(self).in_proc() == old(self).in_proc(),
    {
        let r = self.next_reg;
        self.next_reg += 1;
        r
    }

    /// A fresh register, or `None` where the counter is at its maximum.
    fn fresh_register(&mut self) -> (r: Option<usize>)
        ensures
            match fresh_reg(old(self).gen()) {
                Some((g1, d)) => r == Some(d) && final(self).gen() == g1,
                None => r is None,
            },
            final(self).in_proc() == old(self).in_proc(),
    {
        if self.next_reg < usize::MAX {
            Some(self.new_register())
        } else {
            None
        }
    }

    /// A fresh label `prefix_n`; the counter must not be at its maximum.
    pub fn new_label(&mut self, prefix: &str) -> (r: String)
        requires
            old(self).gen().next_label < usize::MAX,
        ensures
            fresh_label(old(self).gen(), prefix@) == Some((final(self).gen(), r@)),
            final(self).in_proc() == old(self).in_proc(),
    {
        let mut l = String::from_str(prefix);
        push_char(&mut l, '_');
        push_decimal(&mut l, self.next_label);
        self.next_label += 1;
        proof {
            assert(l@ =~= prefix@ + seq!['_'] + decimal(old(self).next_label as nat));
        }
        l
    }

    /// A fresh label, or `None` where the counter is at its maximum.
    fn fresh_label_named(&mut self, prefix: &str) -> (r: Option<String>)
        ensures
            match fresh_label(old(self).gen(), prefix@) {
                Some((g1, l)) => r matches Some(s) && s@ == l && final(self).gen() == g1,
                None => r is None,
            },
            final(self).in_proc() == old(self).in_proc(),
    {
        if self.next_label < usize::MAX {
            Some(self.new_label(prefix))
        } else {
            None
        }
    }

    /// Appends an instruction where code goes: to the main code, or to the procedure being
    /// generated.
    fn emit_ins(&self, program: &mut IRProgram, ins: IRInstruction)
        ensures
            final(program)@ == after(old(program)@, self.in_proc(), seq![ins@], old(program)@.strings),
    {
        let ghost p0 = program@;
        match &self.in_proc {
            Some(p_name) => {
                let ghost names = proc_names(p0.procs);
                let mut k: usize = 0;
                let mut found = false;
                while k < program.procs.len()
                    invariant
                        program@ == p0,
                        names == proc_names(p0.procs),
                        k <= program.procs.len(),
                        forall|j: int| 0 <= j < k ==> names[j] != p_name@,
                        found ==> k < program.procs.len() && names[k as int] == p_name@,
                    ensures
                        program@ == p0,
                        forall|j: int| 0 <= j < k ==> names[j] != p_name@,
                        found ==> k < program.procs.len() && names[k as int] == p_name@,
                        !found ==> k == program.procs.len(),
                    decreases program.procs.len() - k + if found { 0int } else { 1int },
                {
                    proof {
                        assert(names[k as int] == program.procs@[k as int].name@);
                    }
                    if program.procs[k].name == *p_name {
                        found = true;
                        break;
                    }
                    k = k + 1;
                }
                proof {
                    lemma_first_index(names, p_name@);
                }
                if found {
                    proof {
                        assert(first_index(names, p_name@) == Some(k as nat));
                    }
                    let mut q = program.procs.remove(k);
                    q.instructions.push(ins);
                    program.procs.insert(k, q);
                    proof {
                        assert(ins_view(q.instructions@) =~= p0.procs[k as int].instructions + seq![ins@]);
                        assert(procs_view(program.procs@) =~= p0.procs.update(
                            k as int,
                            append_code(p0.procs[k as int], seq![ins@]),
                        ));
                    }
                } else {
                    proof {
                        assert(first_index(names, p_name@) is None);
                    }
                }
            },
            None => {
                program.main_instructions.push(ins);
                proof {
                    assert(ins_view(program.main_instructions@) =~= p0.main + seq![ins@]);
                }
            },
        }
    }
}

impl IRGenerator {
    /// The code of an expression; returns the register holding its value (if any) and its
    /// type. `None` where generation fails (see `gen_expr`).
    fn generate_expression(&mut self, node: &ASTNode, program: &mut IRProgram) -> (r: Option<(Option<usize>, Type)>)
        ensures
            final(self).in_proc() == old(self).in_proc(),
            expr_result(old(self).gen(), old(program)@, old(self).in_proc(), node@, r, final(self).gen(), final(program)@),
        decreases node, 2nat,
    {
        let ghost g0 = self.gen();
        let ghost p0 = program@;
        let ghost ip = self.in_proc();
        match &node.kind {
            NodeKind::Number(_) | NodeKind::IntNumber(_) | NodeKind::StringLit(_) | NodeKind::Boolean(_) | NodeKind::Identifier(_) => self.generate_constant(node, program),
            NodeKind::BinaryOp { .. } => self.generate_binary(node, program),
            NodeKind::UnaryOp { .. } => self.generate_unary(node, program),
            NodeKind::Call { .. } => self.generate_call(node, program),
            NodeKind::AddressOf(_) | NodeKind::Deref(_) | NodeKind::Claim(_) | NodeKind::Purge(_) => self.generate_pointer_op(node, program),
            NodeKind::ArrayIndex { .. } | NodeKind::FieldAccess { .. } => {
                let (addr_reg, elem_type) = match self.generate_address(node, program) {
                    Some(x) => x,
                    None => return None,
                };
                let ghost a = gen_addr(g0, p0.strings, node@)->0;
                let dest = match self.fresh_register() {
                    Some(d) => d,
                    None => return None,
                };
                self.emit_ins(program, IRInstruction::LoadDeref { dest, ptr_reg: addr_reg });
                proof {
                    lemma_after_after(p0, ip, a.code, a.strings, seq![Ins::LoadDeref { dest, ptr_reg: addr_reg }], a.strings);
                }
                Some((Some(dest), elem_type))
            },
            _ => {
                proof {
                    lemma_after_empty(p0, ip, p0.strings);
                }
                Some((None, Type::NoneType))
            },
        }
    }

    /// The code of a constant or a variable read.
    fn generate_constant(&mut self, node: &ASTNode, program: &mut IRProgram) -> (r: Option<(Option<usize>, Type)>)
        requires
            node.kind is Number || node.kind is IntNumber || node.kind is StringLit || node.kind is Boolean || node.kind is Identifier,
        ensures
            final(self).in_proc() == old(self).in_proc(),
            expr_result(old(self).gen(), old(program)@, old(self).in_proc(), node@, r, final(self).gen(), final(program)@),
        decreases node, 1nat,
    {
        let ghost g0 = self.gen();
        let ghost p0 = program@;
        let ghost ip = self.in_proc();
        match &node.kind {
            NodeKind::Number(n) => {
                let dest = match self.fresh_register() {
                    Some(d) => d,
                    None => return None,
                };
                self.emit_ins(program, IRInstruction::LoadFloatConst { dest, val: n.clone() });
                Some((Some(dest), Type::Num))
            },
            NodeKind::IntNumber(n) => {
                let dest = match self.fresh_register() {
                    Some(d) => d,
                    None => return None,
                };
                self.emit_ins(program, IRInstruction::LoadIntConst { dest, val: *n });
                Some((Some(dest), Type::Int))
            },
            NodeKind::StringLit(s) => {
                let str_id = program.add_string(s.clone());
                let ghost p1 = program@;
                proof {
                    lemma_after_empty(p0, ip, p1.strings);
                }
                let dest = match self.fresh_register() {
                    Some(d) => d,
                    None => return None,
                };
                self.emit_ins(program, IRInstruction::LoadStringConst { dest, str_id });
                proof {
                    lemma_after_after(p0, ip, Seq::empty(), p1.strings, seq![Ins::LoadStringConst { dest, str_id }], p1.strings);
                    assert(Seq::<Ins>::empty() + seq![Ins::LoadStringConst { dest, str_id }] =~= seq![Ins::LoadStringConst { dest, str_id }]);
                }
                Some((Some(dest), Type::Text))
            },
            NodeKind::Boolean(b) => {
                let dest = match self.fresh_register() {
                    Some(d) => d,
                    None => return None,
                };
                self.emit_ins(program, IRInstruction::LoadBoolConst { dest, val: *b });
                Some((Some(dest), Type::Flag))
            },
            NodeKind::Identifier(name) => {
                let dest = match self.fresh_register() {
                    Some(d) => d,
                    None => return None,
                };
                let sym_type = self.symbol_types.type_of(name);
                self.emit_ins(program, IRInstruction::LoadVar { dest, name: name.clone() });
                Some((Some(dest), sym_type))
            },
            _ => {
                proof {
                    assert(false);
                }
                None
            },
        }
    }

    /// The code of a binary operation.
    fn generate_binary(&mut self, node: &ASTNode, program: &mut IRProgram) -> (r: Option<(Option<usize>, Type)>)
        requires
            node.kind is BinaryOp,
        ensures
            final(self).in_proc() == old(self).in_proc(),
            expr_result(old(self).gen(), old(program)@, old(self).in_proc(), node@, r, final(self).gen(), final(program)@),
        decreases node, 1nat,
    {
        let ghost g0 = self.gen();
        let ghost p0 = program@;
        let ghost ip = self.in_proc();
        match &node.kind {
            NodeKind::BinaryOp { left, op, right } => {
                proof {
                    assert(decreases_to!(*node => node.kind));
                }
                let (l_reg, l_type) = match self.generate_expression(left, program) {
                    Some(x) => x,
                    None => return None,
                };
                let ghost l = gen_expr(g0, p0.strings, (**left)@)->0;
                let ghost p1 = program@;
                let (r_reg, _) = match self.generate_expression(right, program) {
                    Some(x) => x,
                    None => return None,
                };
                let ghost rr = gen_expr(l.gen, l.strings, (**right)@)->0;
                proof {
                    lemma_after_after(p0, ip, l.code, l.strings, rr.code, rr.strings);
                }
                let ghost p2 = program@;
                let dest = match self.fresh_register() {
                    Some(d) => d,
                    None => return None,
                };
                let is_float = l_type.is_num();
                let (a, b) = match (l_reg, r_reg) {
                    (Some(a), Some(b)) => (a, b),
                    _ => return None,
                };
                let (ins, arith) = match op {
                    TokenType::Plus => (IRInstruction::Add { dest, src1: a, src2: b, is_float }, true),
                    TokenType::Minus => (IRInstruction::Sub { dest, src1: a, src2: b, is_float }, true),
                    TokenType::Star => (IRInstruction::Mul { dest, src1: a, src2: b, is_float }, true),
                    TokenType::Slash => (IRInstruction::Div { dest, src1: a, src2: b, is_float }, true),
                    TokenType::Percent => (IRInstruction::Mod { dest, src1: a, src2: b }, true),
                    TokenType::EqualEqual => (IRInstruction::CmpEq { dest, src1: a, src2: b, is_float }, false),
                    TokenType::BangEqual => (IRInstruction::CmpNeq { dest, src1: a, src2: b, is_float }, false),
                    TokenType::Less => (IRInstruction::CmpLt { dest, src1: a, src2: b, is_float }, false),
                    TokenType::LessEqual => (IRInstruction::CmpLte { dest, src1: a, src2: b, is_float }, false),
                    TokenType::Greater => (IRInstruction::CmpGt { dest, src1: a, src2: b, is_float }, false),
                    TokenType::GreaterEqual => (IRInstruction::CmpGte { dest, src1: a, src2: b, is_float }, false),
                    TokenType::AmpAmp => (IRInstruction::LogAnd { dest, src1: a, src2: b }, false),
                    TokenType::PipePipe => (IRInstruction::LogOr { dest, src1: a, src2: b }, false),
                    _ => return None,
                };
                proof {
                    assert(binary_ins(op@, dest, a, b, is_float) == Some(ins@));
                    assert(is_arith(op@) == arith);
                }
                self.emit_ins(program, ins);
                proof {
                    lemma_after_after(p0, ip, l.code + rr.code, rr.strings, seq![ins@], rr.strings);
                }
                if arith {
                    Some((Some(dest), l_type))
                } else {
                    Some((Some(dest), Type::Flag))
                }
            },
            _ => {
                proof {
                    assert(false);
                }
                None
            },
        }
    }

    /// The code of a unary operation.
    fn generate_unary(&mut self, node: &ASTNode, program: &mut IRProgram) -> (r: Option<(Option<usize>, Type)>)
        requires
            node.kind is UnaryOp,
        ensures
            final(self).in_proc() == old(self).in_proc(),
            expr_result(old(self).gen(), old(program)@, old(self).in_proc(), node@, r, final(self).gen(), final(program)@),
        decreases node, 1nat,
    {
        let ghost g0 = self.gen();
        let ghost p0 = program@;
        let ghost ip = self.in_proc();
        match &node.kind {
            NodeKind::UnaryOp { op, operand } => {
                let (reg, op_type) = match self.generate_expression(operand, program) {
                    Some(x) => x,
                    None => return None,
                };
                let ghost o = gen_expr(g0, p0.strings, (**operand)@)->0;
                let dest = match self.fresh_register() {
                    Some(d) => d,
                    None => return None,
                };
                let src = match reg {
                    Some(s) => s,
                    None => return None,
                };
                match op {
                    TokenType::Bang => {
                        self.emit_ins(program, IRInstruction::LogNot { dest, src });
                        proof {
                            lemma_after_after(p0, ip, o.code, o.strings, seq![Ins::LogNot { dest, src }], o.strings);
                        }
                        Some((Some(dest), Type::Flag))
                    },
                    TokenType::Minus => {
                        let zero = match self.fresh_register() {
                            Some(z) => z,
                            None => return None,
                        };
                        let f = op_type.is_num();
                        let (i1, i2) = if f {
                            (IRInstruction::LoadFloatConst { dest: zero, val: float_zero_text() },
                             IRInstruction::Sub { dest, src1: zero, src2: src, is_float: true })
                        } else {
                            (IRInstruction::LoadIntConst { dest: zero, val: 0 },
                             IRInstruction::Sub { dest, src1: zero, src2: src, is_float: false })
                        };
                        let ghost v1 = i1@;
                        let ghost v2 = i2@;
                        self.emit_ins(program, i1);
                        self.emit_ins(program, i2);
                        proof {
                            lemma_after_after(p0, ip, o.code, o.strings, seq![v1], o.strings);
                            lemma_after_after(p0, ip, o.code + seq![v1], o.strings, seq![v2], o.strings);
                            assert(o.code + seq![v1] + seq![v2] =~= o.code + seq![v1, v2]);
                        }
                        Some((Some(dest), op_type))
                    },
                    _ => None,
                }
            },
            _ => {
                proof {
                    assert(false);
                }
                None
            },
        }
    }

    /// The code of a call.
    fn generate_call(&mut self, node: &ASTNode, program: &mut IRProgram) -> (r: Option<(Option<usize>, Type)>)
        requires
            node.kind is Call,
        ensures
            final(self).in_proc() == old(self).in_proc(),
            expr_result(old(self).gen(), old(program)@, old(self).in_proc(), node@, r, final(self).gen(), final(program)@),
        decreases node, 1nat,
    {
        let ghost g0 = self.gen();
        let ghost p0 = program@;
        let ghost ip = self.in_proc();
        match &node.kind {
            NodeKind::Call { callee, args } => {
                let arg_regs = match self.generate_args(args, program) {
                    Some(v) => v,
                    None => return None,
                };
                let ghost a = gen_args(g0, p0.strings, nodes_view(args@))->0;
                let dest = match self.fresh_register() {
                    Some(d) => d,
                    None => return None,
                };
                let ghost regs = arg_regs@;
                self.emit_ins(program, IRInstruction::Call { dest: Some(dest), name: callee.clone(), args: arg_regs });
                proof {
                    lemma_after_after(p0, ip, a.code, a.strings, seq![Ins::Call { dest: Some(dest), name: callee@, args: regs }], a.strings);
                }
                Some((Some(dest), Type::Int))
            },
            _ => {
                proof {
                    assert(false);
                }
                None
            },
        }
    }

    /// The code of taking an address, reading through a pointer, claiming or purging memory.
    fn generate_pointer_op(&mut self, node: &ASTNode, program: &mut IRProgram) -> (r: Option<(Option<usize>, Type)>)
        requires
            node.kind is AddressOf || node.kind is Deref || node.kind is Claim || node.kind is Purge,
        ensures
            final(self).in_proc() == old(self).in_proc(),
            expr_result(old(self).gen(), old(program)@, old(self).in_proc(), node@, r, final(self).gen(), final(program)@),
        decreases node, 1nat,
    {
        let ghost g0 = self.gen();
        let ghost p0 = program@;
        let ghost ip = self.in_proc();
        match &node.kind {
            NodeKind::AddressOf(inner) => {
                let (addr_reg, inner_type) = match self.generate_address(inner, program) {
                    Some(x) => x,
                    None => return None,
                };
                let ghost iv = inner_type@;
                let pt = Type::Pointer(Box::new(inner_type));
                assert(pt@ == Ty::Pointer(Box::new(iv)));
                Some((Some(addr_reg), pt))
            },
            NodeKind::Deref(inner) => {
                let (ptr_reg, ptr_type) = match self.generate_expression(inner, program) {
                    Some(x) => x,
                    None => return None,
                };
                let ghost e = gen_expr(g0, p0.strings, (**inner)@)->0;
                let elem_type = match ptr_type {
                    Type::Pointer(t) => *t,
                    _ => Type::Int,
                };
                let dest = match self.fresh_register() {
                    Some(d) => d,
                    None => return None,
                };
                let p = match ptr_reg {
                    Some(p) => p,
                    None => return None,
                };
                self.emit_ins(program, IRInstruction::LoadDeref { dest, ptr_reg: p });
                proof {
                    lemma_after_after(p0, ip, e.code, e.strings, seq![Ins::LoadDeref { dest, ptr_reg: p }], e.strings);
                }
                Some((Some(dest), elem_type))
            },
            NodeKind::Claim(size_expr) => {
                let (s_reg, _) = match self.generate_expression(size_expr, program) {
                    Some(x) => x,
                    None => return None,
                };
                let ghost e = gen_expr(g0, p0.strings, (**size_expr)@)->0;
                let dest = match self.fresh_register() {
                    Some(d) => d,
                    None => return None,
                };
                let sr = match s_reg {
                    Some(x) => x,
                    None => return None,
                };
                self.emit_ins(program, IRInstruction::Alloc { dest, size_reg: sr });
                proof {
                    lemma_after_after(p0, ip, e.code, e.strings, seq![Ins::Alloc { dest, size_reg: sr }], e.strings);
                }
                let none_type = Type::NoneType;
                assert(none_type@ == Ty::NoneType);
                let pt = Type::Pointer(Box::new(none_type));
                assert(pt@ == Ty::Pointer(Box::new(Ty::NoneType)));
                Some((Some(dest), pt))
            },
            NodeKind::Purge(ptr_expr) => {
                let (p_reg, _) = match self.generate_expression(ptr_expr, program) {
                    Some(x) => x,
                    None => return None,
                };
                let ghost e = gen_expr(g0, p0.strings, (**ptr_expr)@)->0;
                let pr = match p_reg {
                    Some(x) => x,
                    None => return None,
                };
                self.emit_ins(program, IRInstruction::Free { ptr_reg: pr });
                proof {
                    lemma_after_after(p0, ip, e.code, e.strings, seq![Ins::Free { ptr_reg: pr }], e.strings);
                }
                Some((None, Type::NoneType))
            },
            _ => {
                proof {
                    assert(false);
                }
                None
            },
        }
    }

    /// The code of call arguments, in order; each must give a value.
    fn generate_args(&mut self, args: &Vec<ASTNode>, program: &mut IRProgram) -> (r: Option<Vec<usize>>)
        ensures
            final(self).in_proc() == old(self).in_proc(),
            match gen_args(old(self).gen(), old(program)@.strings, nodes_view(args@)) {
                Some(o) => r matches Some(v) && v@ == o.regs && final(self).gen() == o.gen
                    && final(program)@ == after(old(program)@, old(self).in_proc(), o.code, o.strings),
                None => r is None,
            },
        decreases args, 3nat,
    {
        let ghost g0 = self.gen();
        let ghost p0 = program@;
        let ghost ip = self.in_proc();
        let ghost nv = nodes_view(args@);
        proof {
            broadcast use crate::core_types::lemma_nodes_view;
            assert(nv.take(0) =~= Seq::<Node>::empty());
            lemma_after_empty(p0, ip, p0.strings);
        }
        let mut arg_regs: Vec<usize> = Vec::new();
        let mut i: usize = 0;
        while i < args.len()
            invariant
                g0 == old(self).gen(),
                p0 == old(program)@,
                ip == old(self).in_proc(),
                self.in_proc() == ip,
                nv == nodes_view(args@),
                nv.len() == args.len(),
                i <= args.len(),
                gen_args(g0, p0.strings, nv.take(i as int)) matches Some(o) && arg_regs@ == o.regs
                    && self.gen() == o.gen && program@ == after(p0, ip, o.code, o.strings),
            decreases args.len() - i,
        {
            let ghost o = gen_args(g0, p0.strings, nv.take(i as int))->0;
            proof {
                broadcast use crate::core_types::lemma_nodes_view;
                assert(nv.take(i + 1).drop_last() =~= nv.take(i as int));
                assert(nv.take(i + 1).last() == args@[i as int]@);
                assert(decreases_to!(*args => args@));
                assert(decreases_to!(args@ => args@[i as int]));
            }
            let (ar, _) = match self.generate_expression(&args[i], program) {
                Some(x) => x,
                None => {
                    proof {
                        assert(gen_args(g0, p0.strings, nv.take(i + 1)) is None);
                        lemma_gen_args_prefix_none(g0, p0.strings, nv, i + 1);
                        assert(nv.take(args.len() as int) =~= nv);
                    }
                    return None;
                },
            };
            let ghost e = gen_expr(o.gen, o.strings, args@[i as int]@)->0;
            proof {
                lemma_after_after(p0, ip, o.code, o.strings, e.code, e.strings);
            }
            match ar {
                Some(x) => arg_regs.push(x),
                None => {
                    proof {
                        assert(gen_args(g0, p0.strings, nv.take(i + 1)) is None);
                        lemma_gen_args_prefix_none(g0, p0.strings, nv, i + 1);
                        assert(nv.take(args.len() as int) =~= nv);
                    }
                    return None;
                },
            }
            i = i + 1;
        }
        proof {
            assert(nv.take(args.len() as int) =~= nv);
        }
        Some(arg_regs)
    }
}

/// The text `0.0` of the floating-point zero.
fn float_zero_text() -> (r: String)
    ensures
        r@ == float_zero(),
{
    let mut s = String::new();
    push_char(&mut s, '0');
    push_char(&mut s, '.');
    push_char(&mut s, '0');
    proof {
        assert(s@ =~= float_zero());
    }
    s
}

/// Where the arguments up to `k` fail to generate, so do all of them.
proof fn lemma_gen_args_prefix_none(g: GenV, st: Seq<Seq<char>>, args: Seq<Node>, k: int)
    requires
        0 <= k <= args.len(),
        gen_args(g, st, args.take(k)) is None,
    ensures
        gen_args(g, st, args) is None,
    decreases args.len() - k,
{
    if k < args.len() {
        assert(args.take(k + 1).drop_last() =~= args.take(k));
        lemma_gen_args_prefix_none(g, st, args, k + 1);
    } else {
        assert(args.take(k) =~= args);
    }
}

impl IRGenerator {
    /// The code that computes the address of a node; returns the register holding the
    /// address and the type of what it points at. `None` where generation fails (see
    /// `gen_addr`).
    fn generate_address(&mut self, node: &ASTNode, program: &mut IRProgram) -> (r: Option<(usize, Type)>)
        ensures
            final(self).in_proc() == old(self).in_proc(),
            addr_result(old(self).gen(), old(program)@, old(self).in_proc(), node@, r, final(self).gen(), final(program)@),
        decreases node, 1nat,
    {
        let ghost g0 = self.gen();
        let ghost p0 = program@;
        let ghost ip = self.in_proc();
        match &node.kind {
            NodeKind::Identifier(name) => {
                let dest = match self.fresh_register() {
                    Some(d) => d,
                    None => return None,
                };
                let sym_type = self.symbol_types.type_of(name);
                self.emit_ins(program, IRInstruction::ComputeAddr { dest, var_name: name.clone() });
                Some((dest, sym_type))
            },
            NodeKind::Deref(inner) => {
                let (ptr_reg, ptr_type) = match self.generate_expression(inner, program) {
                    Some(x) => x,
                    None => return None,
                };
                let target_type = match ptr_type {
                    Type::Pointer(t) => *t,
                    _ => Type::Int,
                };
                match ptr_reg {
                    Some(p) => Some((p, target_type)),
                    None => None,
                }
            },
            NodeKind::FieldAccess { object, field } => {
                let (base_addr, obj_type) = match self.generate_address(object, program) {
                    Some(x) => x,
                    None => return None,
                };
                let ghost b = gen_addr(g0, p0.strings, (**object)@)->0;
                let (byte_offset, field_type) = {
                    let layout_name = match layout_name_of(&obj_type) {
                        Some(n) => n,
                        None => return None,
                    };
                    let def = match self.layouts.get(layout_name) {
                        Some(d) => d,
                        None => return None,
                    };
                    let field_info = match find_field_named(&def.fields, field) {
                        Some(f) => f,
                        None => return None,
                    };
                    (field_info.offset, field_info.field_type.duplicate())
                };
                let dest = match self.fresh_register() {
                    Some(d) => d,
                    None => return None,
                };
                self.emit_ins(program, IRInstruction::ComputeFieldAddr { dest, base_reg: base_addr, byte_offset });
                proof {
                    lemma_after_after(p0, ip, b.code, b.strings, seq![Ins::ComputeFieldAddr { dest, base_reg: base_addr, byte_offset }], b.strings);
                }
                Some((dest, field_type))
            },
            NodeKind::ArrayIndex { array, index } => {
                let (base_addr, arr_type) = match self.generate_address(array, program) {
                    Some(x) => x,
                    None => return None,
                };
                let ghost b = gen_addr(g0, p0.strings, (**array)@)->0;
                let elem_type = match arr_type {
                    Type::Array(t, _) => *t,
                    Type::Pointer(t) => *t,
                    _ => Type::Int,
                };
                let (idx_reg, _) = match self.generate_expression(index, program) {
                    Some(x) => x,
                    None => return None,
                };
                let ghost i = gen_expr(b.gen, b.strings, (**index)@)->0;
                proof {
                    lemma_after_after(p0, ip, b.code, b.strings, i.code, i.strings);
                }
                let dest = match self.fresh_register() {
                    Some(d) => d,
                    None => return None,
                };
                let ir = match idx_reg {
                    Some(x) => x,
                    None => return None,
                };
                self.emit_ins(program, IRInstruction::ComputeIndexAddr { dest, base_reg: base_addr, index_reg: ir, elem_size: 8 });
                proof {
                    lemma_after_after(p0, ip, b.code + i.code, i.strings, seq![Ins::ComputeIndexAddr { dest, base_reg: base_addr, index_reg: ir, elem_size: 8 }], i.strings);
                }
                Some((dest, elem_type))
            },
            _ => None,
        }
    }
}

/// Where the statements up to `k` fail to generate, so do all of them.
proof fn lemma_gen_stmts_prefix_none(g: GenV, st: Seq<Seq<char>>, ns: Seq<Node>, k: int)
    requires
        0 <= k <= ns.len(),
        gen_stmts(g, st, ns.take(k)) is None,
    ensures
        gen_stmts(g, st, ns) is None,
    decreases ns.len() - k,
{
    if k < ns.len() {
        assert(ns.take(k + 1).drop_last() =~= ns.take(k));
        lemma_gen_stmts_prefix_none(g, st, ns, k + 1);
    } else {
        assert(ns.take(k) =~= ns);
    }
}

impl IRGenerator {
    /// The code of a statement. `None` where generation fails (see `gen_stmt`).
    fn generate_statement(&mut self, node: &ASTNode, program: &mut IRProgram, inside_proc: bool) -> (r: Option<()>)
        ensures
            final(self).in_proc() == old(self).in_proc(),
            stmts_result(gen_stmt(old(self).gen(), old(program)@.strings, node@), old(program)@, old(self).in_proc(), r, final(self).gen(), final(program)@),
        decreases node, 4nat,
    {
        let ghost g0 = self.gen();
        let ghost p0 = program@;
        let ghost ip = self.in_proc();
        match &node.kind {
            NodeKind::SlotDecl { .. } => self.generate_slot_decl(node, program),
            NodeKind::Assignment { .. } => self.generate_assignment(node, program),
            NodeKind::When { .. } => self.generate_when(node, program, inside_proc),
            NodeKind::During { .. } => self.generate_during(node, program, inside_proc),
            NodeKind::Emit(expr) => {
                let (reg, expr_type) = match self.generate_expression(expr, program) {
                    Some(x) => x,
                    None => return None,
                };
                let ghost e = gen_expr(g0, p0.strings, (**expr)@)->0;
                match reg {
                    Some(r) => {
                        let ghost t = expr_type@;
                        self.emit_ins(program, IRInstruction::Emit { reg: r, reg_type: expr_type });
                        proof {
                            lemma_after_after(p0, ip, e.code, e.strings, seq![Ins::Emit { reg: r, reg_type: t }], e.strings);
                        }
                    },
                    None => {
                        proof {
                            assert(e.code + Seq::<Ins>::empty() =~= e.code);
                        }
                    },
                }
                Some(())
            },
            NodeKind::Yield(expr) => {
                let r = match expr {
                    Some(e) => {
                        match self.generate_expression(e, program) {
                            Some((reg, _)) => reg,
                            None => return None,
                        }
                    },
                    None => None,
                };
                let ghost p1 = program@;
                let ghost code = match (node@) {
                    Node::Yield(Some(e)) => gen_expr(g0, p0.strings, *e)->0.code,
                    _ => Seq::<Ins>::empty(),
                };
                let ghost strs = p1.strings;
                proof {
                    if expr is None {
                        lemma_after_empty(p0, ip, p0.strings);
                    }
                }
                self.emit_ins(program, IRInstruction::Yield(r));
                proof {
                    lemma_after_after(p0, ip, code, strs, seq![Ins::Yield(r)], strs);
                    if expr is None {
                        assert(Seq::<Ins>::empty() + seq![Ins::Yield(r)] =~= seq![Ins::Yield(r)]);
                    }
                }
                Some(())
            },
            NodeKind::Block(stmts) => self.generate_statements(stmts, program, inside_proc),
            NodeKind::ExprStatement(expr) => {
                match self.generate_expression(expr, program) {
                    Some(_) => Some(()),
                    None => None,
                }
            },
            _ => {
                proof {
                    lemma_after_empty(p0, ip, p0.strings);
                }
                Some(())
            },
        }
    }

    /// The code of statements, in order.
    fn generate_statements(&mut self, stmts: &Vec<ASTNode>, program: &mut IRProgram, inside_proc: bool) -> (r: Option<()>)
        ensures
            final(self).in_proc() == old(self).in_proc(),
            stmts_result(gen_stmts(old(self).gen(), old(program)@.strings, nodes_view(stmts@)), old(program)@, old(self).in_proc(), r, final(self).gen(), final(program)@),
        decreases stmts, 4nat,
    {
        let ghost g0 = self.gen();
        let ghost p0 = program@;
        let ghost ip = self.in_proc();
        let ghost nv = nodes_view(stmts@);
        proof {
            broadcast use crate::core_types::lemma_nodes_view;
            assert(nv.take(0) =~= Seq::<Node>::empty());
            lemma_after_empty(p0, ip, p0.strings);
        }
        let mut i: usize = 0;
        while i < stmts.len()
            invariant
                g0 == old(self).gen(),
                p0 == old(program)@,
                ip == old(self).in_proc(),
                self.in_proc() == ip,
                nv == nodes_view(stmts@),
                nv.len() == stmts.len(),
                i <= stmts.len(),
                gen_stmts(g0, p0.strings, nv.take(i as int)) matches Some(o) && self.gen() == o.gen
                    && program@ == after(p0, ip, o.code, o.strings),
            decreases stmts.len() - i,
        {
            let ghost o = gen_stmts(g0, p0.strings, nv.take(i as int))->0;
            proof {
                broadcast use crate::core_types::lemma_nodes_view;
                assert(nv.take(i + 1).drop_last() =~= nv.take(i as int));
                assert(nv.take(i + 1).last() == stmts@[i as int]@);
                assert(decreases_to!(*stmts => stmts@));
                assert(decreases_to!(stmts@ => stmts@[i as int]));
            }
            match self.generate_statement(&stmts[i], program, inside_proc) {
                Some(_) => {},
                None => {
                    proof {
                        assert(gen_stmts(g0, p0.strings, nv.take(i + 1)) is None);
                        lemma_gen_stmts_prefix_none(g0, p0.strings, nv, i + 1);
                    }
                    return None;
                },
            }
            let ghost b = gen_stmt(o.gen, o.strings, stmts@[i as int]@)->0;
            proof {
                lemma_after_after(p0, ip, o.code, o.strings, b.code, b.strings);
            }
            i = i + 1;
        }
        proof {
            assert(nv.take(stmts.len() as int) =~= nv);
        }
        Some(())
    }

    /// The code of a slot declaration: the variable's type is the declared one, or else that of
    /// its initial value.
    fn generate_slot_decl(&mut self, node: &ASTNode, program: &mut IRProgram) -> (r: Option<()>)
        requires
            node.kind is SlotDecl,
        ensures
            final(self).in_proc() == old(self).in_proc(),
            stmts_result(gen_slot(old(self).gen(), old(program)@.strings, node@), old(program)@, old(self).in_proc(), r, final(self).gen(), final(program)@),
        decreases node, 3nat,
    {
        let ghost g0 = self.gen();
        let ghost p0 = program@;
        let ghost ip = self.in_proc();
        match &node.kind {
            NodeKind::SlotDecl { name, slot_type, value } => {
                match value {
                    Some(val_node) => {
                        let (val_reg, inferred_type) = match self.generate_expression(val_node, program) {
                            Some(x) => x,
                            None => return None,
                        };
                        let ghost e = gen_expr(g0, p0.strings, (**val_node)@)->0;
                        let actual_type = match slot_type {
                            Some(t) => t.duplicate(),
                            None => inferred_type,
                        };
                        self.symbol_types.insert(name.clone(), actual_type);
                        match val_reg {
                            Some(vr) => {
                                self.emit_ins(program, IRInstruction::StoreVar { name: name.clone(), src: vr });
                                proof {
                                    lemma_after_after(p0, ip, e.code, e.strings, seq![Ins::StoreVar { name: name@, src: vr }], e.strings);
                                }
                            },
                            None => {
                                proof {
                                    assert(e.code + Seq::<Ins>::empty() =~= e.code);
                                }
                            },
                        }
                        Some(())
                    },
                    None => {
                        match slot_type {
                            Some(st) => {
                                self.symbol_types.insert(name.clone(), st.duplicate());
                            },
                            None => {},
                        }
                        proof {
                            lemma_after_empty(p0, ip, p0.strings);
                        }
                        Some(())
                    },
                }
            },
            _ => {
                proof {
                    assert(false);
                }
                None
            },
        }
    }

    /// The code of an assignment: the value first, then the store to the target.
    #[verifier::rlimit(60)]
    #[verifier::spinoff_prover]
    fn generate_assignment(&mut self, node: &ASTNode, program: &mut IRProgram) -> (r: Option<()>)
        requires
            node.kind is Assignment,
        ensures
            final(self).in_proc() == old(self).in_proc(),
            stmts_result(gen_assign(old(self).gen(), old(program)@.strings, node@), old(program)@, old(self).in_proc(), r, final(self).gen(), final(program)@),
        decreases node, 3nat,
    {
        let ghost g0 = self.gen();
        let ghost p0 = program@;
        let ghost ip = self.in_proc();
        match &node.kind {
            NodeKind::Assignment { target, value } => {
                let (val_reg, _) = match self.generate_expression(value, program) {
                    Some(x) => x,
                    None => return None,
                };
                let ghost e = gen_expr(g0, p0.strings, (**value)@)->0;
                let val_r = match val_reg {
                    Some(v) => v,
                    None => return None,
                };
                proof {
                    assert(decreases_to!(*node => node.kind));
                }
                match &target.kind {
                    NodeKind::Identifier(name) => {
                        self.emit_ins(program, IRInstruction::StoreVar { name: name.clone(), src: val_r });
                        proof {
                            lemma_after_after(p0, ip, e.code, e.strings, seq![Ins::StoreVar { name: name@, src: val_r }], e.strings);
                        }
                        Some(())
                    },
                    NodeKind::Deref(inner) => {
                        proof {
                            assert(decreases_to!(**target => target.kind));
                        }
                        let (ptr_reg, _) = match self.generate_expression(inner, program) {
                            Some(x) => x,
                            None => return None,
                        };
                        let ghost q = gen_expr(e.gen, e.strings, (**inner)@)->0;
                        proof {
                            lemma_after_after(p0, ip, e.code, e.strings, q.code, q.strings);
                        }
                        let pr = match ptr_reg {
                            Some(x) => x,
                            None => return None,
                        };
                        self.emit_ins(program, IRInstruction::StoreDeref { ptr_reg: pr, val_reg: val_r });
                        proof {
                            lemma_after_after(p0, ip, e.code + q.code, q.strings, seq![Ins::StoreDeref { ptr_reg: pr, val_reg: val_r }], q.strings);
                        }
                        Some(())
                    },
                    NodeKind::FieldAccess { .. } => {
                        let (addr_reg, _) = match self.generate_address(target, program) {
                            Some(x) => x,
                            None => return None,
                        };
                        let ghost a = gen_addr(e.gen, e.strings, (**target)@)->0;
                        proof {
                            lemma_after_after(p0, ip, e.code, e.strings, a.code, a.strings);
                        }
                        self.emit_ins(program, IRInstruction::StoreDeref { ptr_reg: addr_reg, val_reg: val_r });
                        proof {
                            lemma_after_after(p0, ip, e.code + a.code, a.strings, seq![Ins::StoreDeref { ptr_reg: addr_reg, val_reg: val_r }], a.strings);
                        }
                        Some(())
                    },
                    NodeKind::ArrayIndex { .. } => {
                        let (addr_reg, _) = match self.generate_address(target, program) {
                            Some(x) => x,
                            None => return None,
                        };
                        let ghost a = gen_addr(e.gen, e.strings, (**target)@)->0;
                        proof {
                            lemma_after_after(p0, ip, e.code, e.strings, a.code, a.strings);
                        }
                        self.emit_ins(program, IRInstruction::StoreDeref { ptr_reg: addr_reg, val_reg: val_r });
                        proof {
                            lemma_after_after(p0, ip, e.code + a.code, a.strings, seq![Ins::StoreDeref { ptr_reg: addr_reg, val_reg: val_r }], a.strings);
                        }
                        Some(())
                    },
                    _ => None,
                }
            },
            _ => {
                proof {
                    assert(false);
                }
                None
            },
        }
    }

    /// The code of a `when`: a jump past the first branch where the condition fails, and,
    /// where there is an `otherwise` branch, a jump past it at the end of the first.
    #[verifier::rlimit(60)]
    #[verifier::spinoff_prover]
    fn generate_when(&mut self, node: &ASTNode, program: &mut IRProgram, inside_proc: bool) -> (r: Option<()>)
        requires
            node.kind is When,
        ensures
            final(self).in_proc() == old(self).in_proc(),
            stmts_result(gen_when(old(self).gen(), old(program)@.strings, node@), old(program)@, old(self).in_proc(), r, final(self).gen(), final(program)@),
        decreases node, 3nat,
    {
        let ghost g0 = self.gen();
        let ghost p0 = program@;
        let ghost ip = self.in_proc();
        match &node.kind {
            NodeKind::When { condition, then_branch, else_branch } => {
                let (cond_reg, _) = match self.generate_expression(condition, program) {
                    Some(x) => x,
                    None => return None,
                };
                let ghost c = gen_expr(g0, p0.strings, (**condition)@)->0;
                let c_reg = match cond_reg {
                    Some(x) => x,
                    None => return None,
                };
                proof {
                    reveal_strlit("else");
                    reveal_strlit("end_when");
                    assert("else"@ =~= else_prefix());
                    assert("end_when"@ =~= end_when_prefix());
                }
                let else_label = match self.fresh_label_named("else") {
                    Some(l) => l,
                    None => return None,
                };
                let end_label = match self.fresh_label_named("end_when") {
                    Some(l) => l,
                    None => return None,
                };
                let ghost el = else_label@;
                let ghost en = end_label@;
                self.emit_ins(program, IRInstruction::JumpIfFalse { cond_reg: c_reg, label: else_label.clone() });
                let ghost code1 = c.code + seq![Ins::JumpIfFalse { cond_reg: c_reg, label: el }];
                proof {
                    lemma_after_after(p0, ip, c.code, c.strings, seq![Ins::JumpIfFalse { cond_reg: c_reg, label: el }], c.strings);
                }
                let ghost gt = self.gen();
                match self.generate_statements(then_branch, program, inside_proc) {
                    Some(_) => {},
                    None => return None,
                }
                let ghost t = gen_stmts(gt, c.strings, nodes_view(then_branch@))->0;
                proof {
                    lemma_after_after(p0, ip, code1, c.strings, t.code, t.strings);
                }
                let ghost code2 = code1 + t.code;
                if else_branch.is_some() {
                    self.emit_ins(program, IRInstruction::Jump(end_label.clone()));
                    proof {
                        lemma_after_after(p0, ip, code2, t.strings, seq![Ins::Jump(en)], t.strings);
                    }
                }
                let ghost code3 = if else_branch is Some { code2 + seq![Ins::Jump(en)] } else { code2 };
                self.emit_ins(program, IRInstruction::Label(else_label));
                proof {
                    lemma_after_after(p0, ip, code3, t.strings, seq![Ins::Label(el)], t.strings);
                }
                let ghost code4 = code3 + seq![Ins::Label(el)];
                match else_branch {
                    Some(eb) => {
                        let ghost ge = self.gen();
                        match self.generate_statements(eb, program, inside_proc) {
                            Some(_) => {},
                            None => return None,
                        }
                        let ghost e = gen_stmts(ge, t.strings, nodes_view(eb@))->0;
                        proof {
                            lemma_after_after(p0, ip, code4, t.strings, e.code, e.strings);
                        }
                        self.emit_ins(program, IRInstruction::Label(end_label));
                        proof {
                            lemma_after_after(p0, ip, code4 + e.code, e.strings, seq![Ins::Label(en)], e.strings);
                            assert(code4 + e.code + seq![Ins::Label(en)] =~= c.code + seq![
                                Ins::JumpIfFalse { cond_reg: c_reg, label: el },
                            ] + t.code + seq![Ins::Jump(en), Ins::Label(el)] + e.code + seq![Ins::Label(en)]);
                        }
                    },
                    None => {
                        proof {
                            assert(code4 =~= c.code + seq![Ins::JumpIfFalse { cond_reg: c_reg, label: el }]
                                + t.code + seq![Ins::Label(el)]);
                        }
                    },
                }
                Some(())
            },
            _ => {
                proof {
                    assert(false);
                }
                None
            },
        }
    }

    /// The code of a `during` loop: a label at its start, the condition, a jump past the loop
    /// where it fails, the body, and a jump back.
    #[verifier::rlimit(60)]
    #[verifier::spinoff_prover]
    fn generate_during(&mut self, node: &ASTNode, program: &mut IRProgram, inside_proc: bool) -> (r: Option<()>)
        requires
            node.kind is During,
        ensures
            final(self).in_proc() == old(self).in_proc(),
            stmts_result(gen_during(old(self).gen(), old(program)@.strings, node@), old(program)@, old(self).in_proc(), r, final(self).gen(), final(program)@),
        decreases node, 3nat,
    {
        let ghost g0 = self.gen();
        let ghost p0 = program@;
        let ghost ip = self.in_proc();
        match &node.kind {
            NodeKind::During { condition, body } => {
                proof {
                    reveal_strlit("during_start");
                    reveal_strlit("during_end");
                    assert("during_start"@ =~= during_start_prefix());
                    assert("during_end"@ =~= during_end_prefix());
                }
                let start_label = match self.fresh_label_named("during_start") {
                    Some(l) => l,
                    None => return None,
                };
                let end_label = match self.fresh_label_named("during_end") {
                    Some(l) => l,
                    None => return None,
                };
                let ghost sl = start_label@;
                let ghost el = end_label@;
                self.emit_ins(program, IRInstruction::Label(start_label.clone()));
                let ghost g2 = self.gen();
                let ghost code1 = seq![Ins::Label(sl)];
                proof {
                    assert(after(p0, ip, code1, p0.strings).strings == p0.strings);
                }
                let (cond_reg, _) = match self.generate_expression(condition, program) {
                    Some(x) => x,
                    None => return None,
                };
                let ghost c = gen_expr(g2, p0.strings, (**condition)@)->0;
                proof {
                    lemma_after_after(p0, ip, code1, p0.strings, c.code, c.strings);
                }
                let cr = match cond_reg {
                    Some(x) => x,
                    None => return None,
                };
                self.emit_ins(program, IRInstruction::JumpIfFalse { cond_reg: cr, label: end_label.clone() });
                proof {
                    lemma_after_after(p0, ip, code1 + c.code, c.strings, seq![Ins::JumpIfFalse { cond_reg: cr, label: el }], c.strings);
                }
                let ghost code2 = code1 + c.code + seq![Ins::JumpIfFalse { cond_reg: cr, label: el }];
                let ghost gb = self.gen();
                match self.generate_statements(body, program, inside_proc) {
                    Some(_) => {},
                    None => return None,
                }
                let ghost b = gen_stmts(gb, c.strings, nodes_view(body@))->0;
                proof {
                    lemma_after_after(p0, ip, code2, c.strings, b.code, b.strings);
                }
                self.emit_ins(program, IRInstruction::Jump(start_label));
                proof {
                    lemma_after_after(p0, ip, code2 + b.code, b.strings, seq![Ins::Jump(sl)], b.strings);
                }
                self.emit_ins(program, IRInstruction::Label(end_label));
                proof {
                    lemma_after_after(p0, ip, code2 + b.code + seq![Ins::Jump(sl)], b.strings, seq![Ins::Label(el)], b.strings);
                    assert(code2 + b.code + seq![Ins::Jump(sl)] + seq![Ins::Label(el)] =~= seq![Ins::Label(sl)] + c.code + seq![
                        Ins::JumpIfFalse { cond_reg: cr, label: el },
                    ] + b.code + seq![Ins::Jump(sl), Ins::Label(el)]);
                }
                Some(())
            },
            _ => {
                proof {
                    assert(false);
                }
                None
            },
        }
    }
}

impl IRGenerator {
    /// Generates a procedure: it is added to the program, its parameters are bound for its
    /// body, its body's code goes to it, and the procedure being generated and the variables
    /// bound before it are restored afterwards.
    fn generate_proc(
        &mut self,
        name: &String,
        params: &Vec<ProcParam>,
        return_type: &Type,
        body: &Vec<ASTNode>,
        program: &mut IRProgram,
    ) -> (r: Option<()>)
        ensures
            final(self).in_proc() == old(self).in_proc(),
            match gen_proc(old(self).gen(), old(program)@, name@, params_view(params@), return_type@, nodes_view(body@)) {
                Some((g1, p1)) => r is Some && final(self).gen() == g1 && final(program)@ == p1,
                None => r is None,
            },
    {
        let ghost g0 = self.gen();
        let ghost p0 = program@;
        let ghost pv = params_view(params@);
        let old_in_proc = match &self.in_proc {
            Some(n) => Some(n.clone()),
            None => None,
        };
        let old_symbols = self.symbol_types.duplicate();
        self.in_proc = Some(name.clone());
        let mut param_list: Vec<(String, Type)> = Vec::new();
        let mut i: usize = 0;
        proof {
            assert(pv.take(0) =~= Seq::<ParamV>::empty());
            assert(param_entries(pv.take(0)) =~= Seq::<(Seq<char>, Ty)>::empty());
            assert(g0.symbols + param_entries(pv.take(0)) =~= g0.symbols);
            assert(param_list_view(param_list@) =~= Seq::<(Seq<char>, Ty)>::empty());
        }
        while i < params.len()
            invariant
                pv == params_view(params@),
                i <= params.len(),
                self.next_reg == g0.next_reg,
                self.next_label == g0.next_label,
                self.layouts@ == g0.layouts,
                self.in_proc() == Some(name@),
                self.symbol_types@ == g0.symbols + param_entries(pv.take(i as int)),
                param_list_view(param_list@) == param_entries(pv.take(i as int)),
            decreases params.len() - i,
        {
            let pname = params[i].name.clone();
            let ptype = params[i].param_type.duplicate();
            self.symbol_types.insert(pname, ptype);
            param_list.push((params[i].name.clone(), params[i].param_type.duplicate()));
            proof {
                assert(pv.take(i + 1) =~= pv.take(i as int).push(params@[i as int]@));
                assert(param_entries(pv.take(i + 1)) =~= param_entries(pv.take(i as int)).push(
                    (params@[i as int].name@, params@[i as int].param_type@),
                ));
                assert(param_list_view(param_list@) =~= param_entries(pv.take(i + 1)));
                assert(g0.symbols + param_entries(pv.take(i + 1)) =~= (g0.symbols + param_entries(pv.take(i as int))).push(
                    (params@[i as int].name@, params@[i as int].param_type@),
                ));
            }
            i = i + 1;
        }
        proof {
            assert(pv.take(params.len() as int) =~= pv);
        }
        let instructions: Vec<IRInstruction> = Vec::new();
        proof {
            assert(ins_view(instructions@) =~= Seq::<Ins>::empty());
        }
        program.procs.push(IRProc {
            name: name.clone(),
            params: param_list,
            return_type: return_type.duplicate(),
            instructions,
        });
        proof {
            let q = ProcV { name: name@, params: param_entries(pv), return_type: return_type@, instructions: Seq::empty() };
            assert(procs_view(program.procs@) =~= p0.procs.push(q));
        }
        let res = self.generate_statements(body, program, true);
        self.in_proc = old_in_proc;
        self.symbol_types = old_symbols;
        res
    }

    /// The intermediate program of a syntax tree, or `None` where generation fails (see
    /// `gen_program`).
    pub fn generate_program_checked(&mut self, ast: Vec<ASTNode>) -> (r: Option<IRProgram>)
        requires
            old(self).in_proc() is None,
        ensures
            final(self).in_proc() is None,
            match gen_program(old(self).gen(), nodes_view(ast@)) {
                Some((g1, p)) => r matches Some(prog) && prog@ == p && final(self).gen() == g1,
                None => r is None,
            },
    {
        let ghost g0 = self.gen();
        let ghost nv = nodes_view(ast@);
        let mut program = IRProgram::new();
        proof {
            broadcast use crate::core_types::lemma_nodes_view;
            assert(nv.take(0) =~= Seq::<Node>::empty());
            assert(g0.layouts + layout_entries(nv.take(0)) =~= g0.layouts);
        }
        let mut i: usize = 0;
        while i < ast.len()
            invariant
                nv == nodes_view(ast@),
                nv.len() == ast.len(),
                i <= ast.len(),
                self.in_proc() is None,
                self.next_reg == g0.next_reg,
                self.next_label == g0.next_label,
                self.symbol_types@ == g0.symbols,
                self.layouts@ == g0.layouts + layout_entries(nv.take(i as int)),
                program@ == (ProgV {
                    procs: Seq::empty(),
                    main: Seq::empty(),
                    strings: Seq::empty(),
                    layouts: layout_entries(nv.take(i as int)),
                }),
            decreases ast.len() - i,
        {
            proof {
                broadcast use crate::core_types::lemma_nodes_view;
                assert(nv.take(i + 1).drop_last() =~= nv.take(i as int));
                assert(nv.take(i + 1).last() == ast@[i as int]@);
            }
            match &ast[i].kind {
                NodeKind::LayoutDecl(def) => {
                    self.layouts.insert(def.duplicate());
                    program.layouts.insert(def.duplicate());
                    proof {
                        assert(g0.layouts + layout_entries(nv.take(i + 1)) =~= (g0.layouts + layout_entries(nv.take(i as int))).push((def.name@, def@)));
                        assert(layout_entries(nv.take(i + 1)) =~= layout_entries(nv.take(i as int)).push((def.name@, def@)));
                    }
                },
                _ => {
                    proof {
                        assert(layout_entries(nv.take(i + 1)) =~= layout_entries(nv.take(i as int)));
                    }
                },
            }
            i = i + 1;
        }
        let ghost defs = layout_entries(nv);
        let ghost g1 = GenV { next_reg: g0.next_reg, next_label: g0.next_label, symbols: g0.symbols, layouts: g0.layouts + defs };
        let ghost pstart = ProgV { procs: Seq::empty(), main: Seq::empty(), strings: Seq::empty(), layouts: defs };
        proof {
            assert(nv.take(ast.len() as int) =~= nv);
            assert(nv.take(0) =~= Seq::<Node>::empty());
        }
        let mut i: usize = 0;
        while i < ast.len()
            invariant
                nv == nodes_view(ast@),
                nv.len() == ast.len(),
                i <= ast.len(),
                self.in_proc() is None,
                g0 == old(self).gen(),
                defs == layout_entries(nv),
                g1 == (GenV { next_reg: g0.next_reg, next_label: g0.next_label, symbols: g0.symbols, layouts: g0.layouts + defs }),
                pstart == (ProgV { procs: Seq::empty(), main: Seq::empty(), strings: Seq::empty(), layouts: defs }),
                gen_procs(g1, pstart, nv.take(i as int)) == Some((self.gen(), program@)),
            decreases ast.len() - i,
        {
            proof {
                broadcast use crate::core_types::lemma_nodes_view;
                assert(nv.take(i + 1).drop_last() =~= nv.take(i as int));
                assert(nv.take(i + 1).last() == ast@[i as int]@);
            }
            match &ast[i].kind {
                NodeKind::ProcDecl { name, params, return_type, body } => {
                    match self.generate_proc(name, params, return_type, body, &mut program) {
                        Some(_) => {},
                        None => {
                            proof {
                                lemma_gen_procs_prefix_none(g1, pstart, nv, i + 1);
                                assert(gen_program(g0, nv) is None);
                            }
                            return None;
                        },
                    }
                },
                _ => {},
            }
            i = i + 1;
        }
        let ghost g2 = self.gen();
        let ghost p1 = program@;
        proof {
            assert(nv.take(ast.len() as int) =~= nv);
            lemma_after_empty(p1, None, p1.strings);
        }
        let mut i: usize = 0;
        while i < ast.len()
            invariant
                nv == nodes_view(ast@),
                nv.len() == ast.len(),
                i <= ast.len(),
                self.in_proc() is None,
                g0 == old(self).gen(),
                defs == layout_entries(nv),
                g1 == (GenV { next_reg: g0.next_reg, next_label: g0.next_label, symbols: g0.symbols, layouts: g0.layouts + defs }),
                pstart == (ProgV { procs: Seq::empty(), main: Seq::empty(), strings: Seq::empty(), layouts: defs }),
                gen_procs(g1, pstart, nv) == Some((g2, p1)),
                gen_stmts(g2, p1.strings, nv.take(i as int)) matches Some(m) && self.gen() == m.gen
                    && program@ == after(p1, None, m.code, m.strings),
            decreases ast.len() - i,
        {
            let ghost m = gen_stmts(g2, p1.strings, nv.take(i as int))->0;
            proof {
                broadcast use crate::core_types::lemma_nodes_view;
                assert(nv.take(i + 1).drop_last() =~= nv.take(i as int));
                assert(nv.take(i + 1).last() == ast@[i as int]@);
            }
            match &ast[i].kind {
                NodeKind::LayoutDecl(_) | NodeKind::ProcDecl { .. } => {
                    proof {
                        assert(m.code + Seq::<Ins>::empty() =~= m.code);
                    }
                },
                _ => {
                    match self.generate_statement(&ast[i], &mut program, false) {
                        Some(_) => {},
                        None => {
                            proof {
                                lemma_gen_stmts_prefix_none(g2, p1.strings, nv, i + 1);
                                assert(gen_program(g0, nv) is None);
                            }
                            return None;
                        },
                    }
                    let ghost b = gen_stmt(m.gen, m.strings, ast@[i as int]@)->0;
                    proof {
                        lemma_after_after(p1, None, m.code, m.strings, b.code, b.strings);
                    }
                },
            }
            i = i + 1;
        }
        proof {
            assert(nv.take(ast.len() as int) =~= nv);
        }
        Some(program)
    }

    /// The intermediate program of a syntax tree, which must generate (see
    /// `generate_program_checked` for a version that reports a failure).
    pub fn generate_program(&mut self, ast: Vec<ASTNode>) -> (r: IRProgram)
        requires
            old(self).in_proc() is None,
            gen_program(old(self).gen(), nodes_view(ast@)) is Some,
        ensures
            final(self).in_proc() is None,
            r@ == (gen_program(old(self).gen(), nodes_view(ast@))->0).1,
            final(self).gen() == (gen_program(old(self).gen(), nodes_view(ast@))->0).0,
    {
        self.generate_program_checked(ast).unwrap()
    }
}

/// Where the procedures among the nodes up to `k` fail to generate, so do all of them.
proof fn lemma_gen_procs_prefix_none(g: GenV, p: ProgV, ast: Seq<Node>, k: int)
    requires
        0 <= k <= ast.len(),
        gen_procs(g, p, ast.take(k)) is None,
    ensures
        gen_procs(g, p, ast) is None,
    decreases ast.len() - k,
{
    if k < ast.len() {
        assert(ast.take(k + 1).drop_last() =~= ast.take(k));
        lemma_gen_procs_prefix_none(g, p, ast, k + 1);
    } else {
        assert(ast.take(k) =~= ast);
    }
}

} // verus!
