//! The language's data: types, tokens, syntax-tree nodes and the token cursor the parser reads.
use vstd::prelude::*;
use crate::text::{decimal, push_char, push_decimal, push_str_chars};

verus! {

/// A type of the language.
#[derive(Debug, PartialEq)]
pub enum Type {
    Num,
    Int,
    Flag,
    Text,
    Pointer(Box<Type>),
    Array(Box<Type>, usize),
    Layout(String),
    NoneType,
}

/// The mathematical model of a type.
pub enum Ty {
    Num,
    Int,
    Flag,
    Text,
    Pointer(Box<Ty>),
    Array(Box<Ty>, usize),
    Layout(Seq<char>),
    NoneType,
}

impl View for Type {
    type V = Ty;

    open spec fn view(&self) -> Ty
        decreases self,
    {
        match self {
            Type::Num => Ty::Num,
            Type::Int => Ty::Int,
            Type::Flag => Ty::Flag,
            Type::Text => Ty::Text,
            Type::Pointer(t) => Ty::Pointer(Box::new((**t).view())),
            Type::Array(t, n) => Ty::Array(Box::new((**t).view()), *n),
            Type::Layout(name) => Ty::Layout(name@),
            Type::NoneType => Ty::NoneType,
        }
    }
}

pub open spec fn opt_type_view(t: Option<Type>) -> Option<Ty> {
    match t {
        Some(t) => Some(t@),
        None => None,
    }
}

/// How a type is written: `num`, `int`, `flag`, `text`, `none`, `*T`, `[T; n]` or
/// `layout Name`.
pub open spec fn ty_text(t: Ty) -> Seq<char>
    decreases t,
{
    match t {
        Ty::Num => seq!['n', 'u', 'm'],
        Ty::Int => seq!['i', 'n', 't'],
        Ty::Flag => seq!['f', 'l', 'a', 'g'],
        Ty::Text => seq!['t', 'e', 'x', 't'],
        Ty::Pointer(inner) => seq!['*'] + ty_text(*inner),
        Ty::Array(inner, n) => seq!['['] + ty_text(*inner) + seq![';', ' '] + decimal(n as nat) + seq![
            ']',
        ],
        Ty::Layout(name) => seq!['l', 'a', 'y', 'o', 'u', 't', ' '] + name,
        Ty::NoneType => seq!['n', 'o', 'n', 'e'],
    }
}

impl Clone for Type {
    fn clone(&self) -> (r: Self)
        ensures
            r@ == self@,
    {
        self.duplicate()
    }
}

impl Type {
    /// A copy of this type.
    pub fn duplicate(&self) -> (r: Type)
        ensures
            r@ == self@,
        decreases self,
    {
        match self {
            Type::Num => Type::Num,
            Type::Int => Type::Int,
            Type::Flag => Type::Flag,
            Type::Text => Type::Text,
            Type::Pointer(t) => Type::Pointer(Box::new(t.duplicate())),
            Type::Array(t, n) => Type::Array(Box::new(t.duplicate()), *n),
            Type::Layout(name) => Type::Layout(name.clone()),
            Type::NoneType => Type::NoneType,
        }
    }

    /// Appends the text of this type (see `ty_text`) to `out`.
    pub fn write_text(&self, out: &mut String)
        ensures
            final(out)@ == old(out)@ + ty_text(self@),
        decreases self,
    {
        match self {
            Type::Num => {
                push_char(out, 'n');
                push_char(out, 'u');
                push_char(out, 'm');
            },
            Type::Int => {
                push_char(out, 'i');
                push_char(out, 'n');
                push_char(out, 't');
            },
            Type::Flag => {
                push_char(out, 'f');
                push_char(out, 'l');
                push_char(out, 'a');
                push_char(out, 'g');
            },
            Type::Text => {
                push_char(out, 't');
                push_char(out, 'e');
                push_char(out, 'x');
                push_char(out, 't');
            },
            Type::Pointer(inner) => {
                push_char(out, '*');
                inner.write_text(out);
            },
            Type::Array(inner, n) => {
                push_char(out, '[');
                inner.write_text(out);
                push_char(out, ';');
                push_char(out, ' ');
                push_decimal(out, *n);
                push_char(out, ']');
            },
            Type::Layout(name) => {
                push_char(out, 'l');
                push_char(out, 'a');
                push_char(out, 'y');
                push_char(out, 'o');
                push_char(out, 'u');
                push_char(out, 't');
                push_char(out, ' ');
                push_str_chars(out, name.as_str());
            },
            Type::NoneType => {
                push_char(out, 'n');
                push_char(out, 'o');
                push_char(out, 'n');
                push_char(out, 'e');
            },
        }
        proof {
            assert(final(out)@ =~= old(out)@ + ty_text(self@));
        }
    }

    /// The text of this type (see `ty_text`).
    pub fn to_text(&self) -> (r: String)
        ensures
            r@ == ty_text(self@),
    {
        let mut s = String::new();
        self.write_text(&mut s);
        proof {
            assert(s@ =~= ty_text(self@));
        }
        s
    }

    /// Whether this is the type `num`.
    pub fn is_num(&self) -> (b: bool)
        ensures
            b == (self@ == Ty::Num),
    {
        match self {
            Type::Num => true,
            _ => false,
        }
    }
}

/// A lexical token.
///
/// A floating-point literal is kept as the text it was written with (for example `3.25`);
/// the digits are exactly those of the source, so the value they denote is unchanged.
#[derive(Debug, PartialEq)]
pub enum TokenType {
    Number(String),
    IntNumber(i64),
    StringLit(String),
    Identifier(String),
    Yes,
    No,
    Emit,
    When,
    Otherwise,
    During,
    Proc,
    Yield,
    Layout,
    Slot,
    Claim,
    Purge,
    TypeNum,
    TypeInt,
    TypeFlag,
    TypeText,
    TypeNone,
    Plus,
    Minus,
    Star,
    Slash,
    Percent,
    EqualEqual,
    BangEqual,
    Less,
    LessEqual,
    Greater,
    GreaterEqual,
    AmpAmp,
    PipePipe,
    Bang,
    Ampersand,
    Equal,
    LeftParen,
    RightParen,
    LeftBrace,
    RightBrace,
    LeftBracket,
    RightBracket,
    Semicolon,
    Colon,
    Comma,
    Dot,
    Arrow,
    Eof,
}

/// The mathematical model of a token: strings become sequences of characters.
pub enum Tok {
    Number(Seq<char>),
    IntNumber(i64),
    StringLit(Seq<char>),
    Identifier(Seq<char>),
    Yes,
    No,
    Emit,
    When,
    Otherwise,
    During,
    Proc,
    Yield,
    Layout,
    Slot,
    Claim,
    Purge,
    TypeNum,
    TypeInt,
    TypeFlag,
    TypeText,
    TypeNone,
    Plus,
    Minus,
    Star,
    Slash,
    Percent,
    EqualEqual,
    BangEqual,
    Less,
    LessEqual,
    Greater,
    GreaterEqual,
    AmpAmp,
    PipePipe,
    Bang,
    Ampersand,
    Equal,
    LeftParen,
    RightParen,
    LeftBrace,
    RightBrace,
    LeftBracket,
    RightBracket,
    Semicolon,
    Colon,
    Comma,
    Dot,
    Arrow,
    Eof,
}

impl View for TokenType {
    type V = Tok;

    open spec fn view(&self) -> Tok {
        match self {
            TokenType::Number(s) => Tok::Number(s@),
            TokenType::IntNumber(n) => Tok::IntNumber(*n),
            TokenType::StringLit(s) => Tok::StringLit(s@),
            TokenType::Identifier(s) => Tok::Identifier(s@),
            TokenType::Yes => Tok::Yes,
            TokenType::No => Tok::No,
            TokenType::Emit => Tok::Emit,
            TokenType::When => Tok::When,
            TokenType::Otherwise => Tok::Otherwise,
            TokenType::During => Tok::During,
            TokenType::Proc => Tok::Proc,
            TokenType::Yield => Tok::Yield,
            TokenType::Layout => Tok::Layout,
            TokenType::Slot => Tok::Slot,
            TokenType::Claim => Tok::Claim,
            TokenType::Purge => Tok::Purge,
            TokenType::TypeNum => Tok::TypeNum,
            TokenType::TypeInt => Tok::TypeInt,
            TokenType::TypeFlag => Tok::TypeFlag,
            TokenType::TypeText => Tok::TypeText,
            TokenType::TypeNone => Tok::TypeNone,
            TokenType::Plus => Tok::Plus,
            TokenType::Minus => Tok::Minus,
            TokenType::Star => Tok::Star,
            TokenType::Slash => Tok::Slash,
            TokenType::Percent => Tok::Percent,
            TokenType::EqualEqual => Tok::EqualEqual,
            TokenType::BangEqual => Tok::BangEqual,
            TokenType::Less => Tok::Less,
            TokenType::LessEqual => Tok::LessEqual,
            TokenType::Greater => Tok::Greater,
            TokenType::GreaterEqual => Tok::GreaterEqual,
            TokenType::AmpAmp => Tok::AmpAmp,
            TokenType::PipePipe => Tok::PipePipe,
            TokenType::Bang => Tok::Bang,
            TokenType::Ampersand => Tok::Ampersand,
            TokenType::Equal => Tok::Equal,
            TokenType::LeftParen => Tok::LeftParen,
            TokenType::RightParen => Tok::RightParen,
            TokenType::LeftBrace => Tok::LeftBrace,
            TokenType::RightBrace => Tok::RightBrace,
            TokenType::LeftBracket => Tok::LeftBracket,
            TokenType::RightBracket => Tok::RightBracket,
            TokenType::Semicolon => Tok::Semicolon,
            TokenType::Colon => Tok::Colon,
            TokenType::Comma => Tok::Comma,
            TokenType::Dot => Tok::Dot,
            TokenType::Arrow => Tok::Arrow,
            TokenType::Eof => Tok::Eof,
        }
    }
}

/// The variant of a token, as a number: tokens of one variant share it, whatever they carry.
pub open spec fn tok_kind(t: Tok) -> nat {
    match t {
        Tok::Number(_) => 0,
        Tok::IntNumber(_) => 1,
        Tok::StringLit(_) => 2,
        Tok::Identifier(_) => 3,
        Tok::Yes => 4,
        Tok::No => 5,
        Tok::Emit => 6,
        Tok::When => 7,
        Tok::Otherwise => 8,
        Tok::During => 9,
        Tok::Proc => 10,
        Tok::Yield => 11,
        Tok::Layout => 12,
        Tok::Slot => 13,
        Tok::Claim => 14,
        Tok::Purge => 15,
        Tok::TypeNum => 16,
        Tok::TypeInt => 17,
        Tok::TypeFlag => 18,
        Tok::TypeText => 19,
        Tok::TypeNone => 20,
        Tok::Plus => 21,
        Tok::Minus => 22,
        Tok::Star => 23,
        Tok::Slash => 24,
        Tok::Percent => 25,
        Tok::EqualEqual => 26,
        Tok::BangEqual => 27,
        Tok::Less => 28,
        Tok::LessEqual => 29,
        Tok::Greater => 30,
        Tok::GreaterEqual => 31,
        Tok::AmpAmp => 32,
        Tok::PipePipe => 33,
        Tok::Bang => 34,
        Tok::Ampersand => 35,
        Tok::Equal => 36,
        Tok::LeftParen => 37,
        Tok::RightParen => 38,
        Tok::LeftBrace => 39,
        Tok::RightBrace => 40,
        Tok::LeftBracket => 41,
        Tok::RightBracket => 42,
        Tok::Semicolon => 43,
        Tok::Colon => 44,
        Tok::Comma => 45,
        Tok::Dot => 46,
        Tok::Arrow => 47,
        Tok::Eof => 48,
    }
}

/// Two tokens of the same variant are equal where the variant carries nothing.
pub proof fn lemma_same_kind(a: Tok, b: Tok)
    requires
        tok_kind(a) == tok_kind(b),
        tok_kind(b) >= 4,
    ensures
        a == b,
{
}

impl Clone for TokenType {
    fn clone(&self) -> (r: Self)
        ensures
            r@ == self@,
    {
        self.duplicate()
    }
}

impl TokenType {
    /// The number of this token's variant (see `tok_kind`).
    pub fn kind_code(&self) -> (k: u8)
        ensures
            k as nat == tok_kind(self@),
    {
        match self {
            TokenType::Number(_) => 0,
            TokenType::IntNumber(_) => 1,
            TokenType::StringLit(_) => 2,
            TokenType::Identifier(_) => 3,
            TokenType::Yes => 4,
            TokenType::No => 5,
            TokenType::Emit => 6,
            TokenType::When => 7,
            TokenType::Otherwise => 8,
            TokenType::During => 9,
            TokenType::Proc => 10,
            TokenType::Yield => 11,
            TokenType::Layout => 12,
            TokenType::Slot => 13,
            TokenType::Claim => 14,
            TokenType::Purge => 15,
            TokenType::TypeNum => 16,
            TokenType::TypeInt => 17,
            TokenType::TypeFlag => 18,
            TokenType::TypeText => 19,
            TokenType::TypeNone => 20,
            TokenType::Plus => 21,
            TokenType::Minus => 22,
            TokenType::Star => 23,
            TokenType::Slash => 24,
            TokenType::Percent => 25,
            TokenType::EqualEqual => 26,
            TokenType::BangEqual => 27,
            TokenType::Less => 28,
            TokenType::LessEqual => 29,
            TokenType::Greater => 30,
            TokenType::GreaterEqual => 31,
            TokenType::AmpAmp => 32,
            TokenType::PipePipe => 33,
            TokenType::Bang => 34,
            TokenType::Ampersand => 35,
            TokenType::Equal => 36,
            TokenType::LeftParen => 37,
            TokenType::RightParen => 38,
            TokenType::LeftBrace => 39,
            TokenType::RightBrace => 40,
            TokenType::LeftBracket => 41,
            TokenType::RightBracket => 42,
            TokenType::Semicolon => 43,
            TokenType::Colon => 44,
            TokenType::Comma => 45,
            TokenType::Dot => 46,
            TokenType::Arrow => 47,
            TokenType::Eof => 48,
        }
    }

    /// A copy of this token.
    pub fn duplicate(&self) -> (r: TokenType)
        ensures
            r@ == self@,
    {
        match self {
            TokenType::Number(s) => TokenType::Number(s.clone()),
            TokenType::IntNumber(n) => TokenType::IntNumber(*n),
            TokenType::StringLit(s) => TokenType::StringLit(s.clone()),
            TokenType::Identifier(s) => TokenType::Identifier(s.clone()),
            TokenType::Yes => TokenType::Yes,
            TokenType::No => TokenType::No,
            TokenType::Emit => TokenType::Emit,
            TokenType::When => TokenType::When,
            TokenType::Otherwise => TokenType::Otherwise,
            TokenType::During => TokenType::During,
            TokenType::Proc => TokenType::Proc,
            TokenType::Yield => TokenType::Yield,
            TokenType::Layout => TokenType::Layout,
            TokenType::Slot => TokenType::Slot,
            TokenType::Claim => TokenType::Claim,
            TokenType::Purge => TokenType::Purge,
            TokenType::TypeNum => TokenType::TypeNum,
            TokenType::TypeInt => TokenType::TypeInt,
            TokenType::TypeFlag => TokenType::TypeFlag,
            TokenType::TypeText => TokenType::TypeText,
            TokenType::TypeNone => TokenType::TypeNone,
            TokenType::Plus => TokenType::Plus,
            TokenType::Minus => TokenType::Minus,
            TokenType::Star => TokenType::Star,
            TokenType::Slash => TokenType::Slash,
            TokenType::Percent => TokenType::Percent,
            TokenType::EqualEqual => TokenType::EqualEqual,
            TokenType::BangEqual => TokenType::BangEqual,
            TokenType::Less => TokenType::Less,
            TokenType::LessEqual => TokenType::LessEqual,
            TokenType::Greater => TokenType::Greater,
            TokenType::GreaterEqual => TokenType::GreaterEqual,
            TokenType::AmpAmp => TokenType::AmpAmp,
            TokenType::PipePipe => TokenType::PipePipe,
            TokenType::Bang => TokenType::Bang,
            TokenType::Ampersand => TokenType::Ampersand,
            TokenType::Equal => TokenType::Equal,
            TokenType::LeftParen => TokenType::LeftParen,
            TokenType::RightParen => TokenType::RightParen,
            TokenType::LeftBrace => TokenType::LeftBrace,
            TokenType::RightBrace => TokenType::RightBrace,
            TokenType::LeftBracket => TokenType::LeftBracket,
            TokenType::RightBracket => TokenType::RightBracket,
            TokenType::Semicolon => TokenType::Semicolon,
            TokenType::Colon => TokenType::Colon,
            TokenType::Comma => TokenType::Comma,
            TokenType::Dot => TokenType::Dot,
            TokenType::Arrow => TokenType::Arrow,
            TokenType::Eof => TokenType::Eof,
        }
    }
}

/// The models of a sequence of tokens.
pub open spec fn toks_view(v: Seq<TokenType>) -> Seq<Tok> {
    v.map_values(|t: TokenType| t@)
}

/// A field of a layout: its name, its type and its byte offset in the layout.
#[derive(Debug, PartialEq)]
pub struct LayoutField {
    pub name: String,
    pub field_type: Type,
    pub offset: usize,
}

/// The model of a layout field.
pub struct FieldV {
    pub name: Seq<char>,
    pub field_type: Ty,
    pub offset: usize,
}

impl View for LayoutField {
    type V = FieldV;

    open spec fn view(&self) -> FieldV {
        FieldV { name: self.name@, field_type: self.field_type@, offset: self.offset }
    }
}

/// A layout (record) definition.
#[derive(Debug, PartialEq)]
pub struct LayoutDef {
    pub name: String,
    pub fields: Vec<LayoutField>,
    pub total_size: usize,
}

/// The model of a layout definition.
pub struct LayoutV {
    pub name: Seq<char>,
    pub fields: Seq<FieldV>,
    pub total_size: usize,
}

pub open spec fn fields_view(fields: Seq<LayoutField>) -> Seq<FieldV> {
    fields.map_values(|f: LayoutField| f@)
}

impl View for LayoutDef {
    type V = LayoutV;

    open spec fn view(&self) -> LayoutV {
        LayoutV { name: self.name@, fields: fields_view(self.fields@), total_size: self.total_size }
    }
}

impl Clone for LayoutField {
    fn clone(&self) -> (r: Self)
        ensures
            r@ == self@,
    {
        self.duplicate()
    }
}

impl LayoutField {
    /// A copy of this field.
    pub fn duplicate(&self) -> (r: LayoutField)
        ensures
            r@ == self@,
    {
        LayoutField {
            name: self.name.clone(),
            field_type: self.field_type.duplicate(),
            offset: self.offset,
        }
    }
}

impl Clone for LayoutDef {
    fn clone(&self) -> (r: Self)
        ensures
            r@ == self@,
    {
        self.duplicate()
    }
}

impl LayoutDef {
    /// A copy of this layout definition.
    pub fn duplicate(&self) -> (r: LayoutDef)
        ensures
            r@ == self@,
    {
        let mut fields: Vec<LayoutField> = Vec::new();
        let mut i: usize = 0;
        while i < self.fields.len()
            invariant
                i <= self.fields.len(),
                fields@.len() == i,
                forall|j: int| 0 <= j < i ==> fields@[j]@ == self.fields@[j]@,
            decreases self.fields.len() - i,
        {
            let f = self.fields[i].duplicate();
            fields.push(f);
            i = i + 1;
        }
        proof {
            assert(fields_view(fields@) =~= fields_view(self.fields@));
        }
        LayoutDef { name: self.name.clone(), fields, total_size: self.total_size }
    }
}

/// A parameter of a procedure.
#[derive(Debug, PartialEq)]
pub struct ProcParam {
    pub name: String,
    pub param_type: Type,
}

/// The model of a procedure parameter.
pub struct ParamV {
    pub name: Seq<char>,
    pub param_type: Ty,
}

impl Clone for ProcParam {
    fn clone(&self) -> (r: Self)
        ensures
            r@ == self@,
    {
        ProcParam { name: self.name.clone(), param_type: self.param_type.clone() }
    }
}

impl View for ProcParam {
    type V = ParamV;

    open spec fn view(&self) -> ParamV {
        ParamV { name: self.name@, param_type: self.param_type@ }
    }
}

pub open spec fn params_view(params: Seq<ProcParam>) -> Seq<ParamV> {
    params.map_values(|p: ProcParam| p@)
}

/// A node of the syntax tree.
#[derive(Debug, PartialEq)]
pub struct ASTNode {
    pub kind: NodeKind,
}

impl ASTNode {
    pub fn new(kind: NodeKind) -> (r: Self)
        ensures
            r.kind == kind,
    {
        ASTNode { kind }
    }
}

/// The kinds of syntax-tree node.
#[derive(Debug, PartialEq)]
#[allow(inconsistent_fields)]
pub enum NodeKind {
    Number(String),
    IntNumber(i64),
    StringLit(String),
    Boolean(bool),
    Identifier(String),
    SlotDecl {
        name: String,
        slot_type: Option<Type>,
        value: Option<Box<ASTNode>>,
    },
    LayoutDecl(LayoutDef),
    ProcDecl {
        name: String,
        params: Vec<ProcParam>,
        return_type: Type,
        body: Vec<ASTNode>,
    },
    Assignment {
        target: Box<ASTNode>,
        value: Box<ASTNode>,
    },
    Emit(Box<ASTNode>),
    When {
        condition: Box<ASTNode>,
        then_branch: Vec<ASTNode>,
        else_branch: Option<Vec<ASTNode>>,
    },
    During {
        condition: Box<ASTNode>,
        body: Vec<ASTNode>,
    },
    Yield(Option<Box<ASTNode>>),
    Claim(Box<ASTNode>),
    Purge(Box<ASTNode>),
    BinaryOp {
        left: Box<ASTNode>,
        op: TokenType,
        right: Box<ASTNode>,
    },
    UnaryOp {
        op: TokenType,
        operand: Box<ASTNode>,
    },
    Call {
        callee: String,
        args: Vec<ASTNode>,
    },
    AddressOf(Box<ASTNode>),
    Deref(Box<ASTNode>),
    FieldAccess {
        object: Box<ASTNode>,
        field: String,
    },
    ArrayIndex {
        array: Box<ASTNode>,
        index: Box<ASTNode>,
    },
    ArrayLiteral(Vec<ASTNode>),
    Block(Vec<ASTNode>),
    ExprStatement(Box<ASTNode>),
}

/// The mathematical model of a syntax-tree node.
#[allow(inconsistent_fields)]
pub enum Node {
    Number(Seq<char>),
    IntNumber(i64),
    StringLit(Seq<char>),
    Boolean(bool),
    Identifier(Seq<char>),
    SlotDecl {
        name: Seq<char>,
        slot_type: Option<Ty>,
        value: Option<Box<Node>>,
    },
    LayoutDecl(LayoutV),
    ProcDecl {
        name: Seq<char>,
        params: Seq<ParamV>,
        return_type: Ty,
        body: Seq<Node>,
    },
    Assignment {
        target: Box<Node>,
        value: Box<Node>,
    },
    Emit(Box<Node>),
    When {
        condition: Box<Node>,
        then_branch: Seq<Node>,
        else_branch: Option<Seq<Node>>,
    },
    During {
        condition: Box<Node>,
        body: Seq<Node>,
    },
    Yield(Option<Box<Node>>),
    Claim(Box<Node>),
    Purge(Box<Node>),
    BinaryOp {
        left: Box<Node>,
        op: Tok,
        right: Box<Node>,
    },
    UnaryOp {
        op: Tok,
        operand: Box<Node>,
    },
    Call {
        callee: Seq<char>,
        args: Seq<Node>,
    },
    AddressOf(Box<Node>),
    Deref(Box<Node>),
    FieldAccess {
        object: Box<Node>,
        field: Seq<char>,
    },
    ArrayIndex {
        array: Box<Node>,
        index: Box<Node>,
    },
    ArrayLiteral(Seq<Node>),
    Block(Seq<Node>),
    ExprStatement(Box<Node>),
}

impl View for ASTNode {
    type V = Node;

    open spec fn view(&self) -> Node
        decreases self,
    {
        match &self.kind {
            NodeKind::Number(x0) => Node::Number(x0@),
            NodeKind::IntNumber(x0) => Node::IntNumber(*x0),
            NodeKind::StringLit(x0) => Node::StringLit(x0@),
            NodeKind::Boolean(x0) => Node::Boolean(*x0),
            NodeKind::Identifier(x0) => Node::Identifier(x0@),
            NodeKind::SlotDecl { name, slot_type, value } => Node::SlotDecl {
                name: name@,
                slot_type: opt_type_view(*slot_type),
                value: match value { Some(b) => Some(Box::new((**b).view())), None => None },
            },
            NodeKind::LayoutDecl(x0) => Node::LayoutDecl(x0@),
            NodeKind::ProcDecl { name, params, return_type, body } => Node::ProcDecl {
                name: name@,
                params: params_view(params@),
                return_type: return_type@,
                body: nodes_view(body@),
            },
            NodeKind::Assignment { target, value } => Node::Assignment {
                target: Box::new((**target).view()),
                value: Box::new((**value).view()),
            },
            NodeKind::Emit(x0) => Node::Emit(Box::new((**x0).view())),
            NodeKind::When { condition, then_branch, else_branch } => Node::When {
                condition: Box::new((**condition).view()),
                then_branch: nodes_view(then_branch@),
                else_branch: match else_branch { Some(v) => Some(nodes_view(v@)), None => None },
            },
            NodeKind::During { condition, body } => Node::During {
                condition: Box::new((**condition).view()),
                body: nodes_view(body@),
            },
            NodeKind::Yield(x0) => Node::Yield(match x0 { Some(b) => Some(Box::new((**b).view())), None => None }),
            NodeKind::Claim(x0) => Node::Claim(Box::new((**x0).view())),
            NodeKind::Purge(x0) => Node::Purge(Box::new((**x0).view())),
            NodeKind::BinaryOp { left, op, right } => Node::BinaryOp {
                left: Box::new((**left).view()),
                op: op@,
                right: Box::new((**right).view()),
            },
            NodeKind::UnaryOp { op, operand } => Node::UnaryOp {
                op: op@,
                operand: Box::new((**operand).view()),
            },
            NodeKind::Call { callee, args } => Node::Call {
                callee: callee@,
                args: nodes_view(args@),
            },
            NodeKind::AddressOf(x0) => Node::AddressOf(Box::new((**x0).view())),
            NodeKind::Deref(x0) => Node::Deref(Box::new((**x0).view())),
            NodeKind::FieldAccess { object, field } => Node::FieldAccess {
                object: Box::new((**object).view()),
                field: field@,
            },
            NodeKind::ArrayIndex { array, index } => Node::ArrayIndex {
                array: Box::new((**array).view()),
                index: Box::new((**index).view()),
            },
            NodeKind::ArrayLiteral(x0) => Node::ArrayLiteral(nodes_view(x0@)),
            NodeKind::Block(x0) => Node::Block(nodes_view(x0@)),
            NodeKind::ExprStatement(x0) => Node::ExprStatement(Box::new((**x0).view())),
        }
    }
}

/// The models of a sequence of nodes, in order.
pub open spec fn nodes_view(v: Seq<ASTNode>) -> Seq<Node>
    decreases v,
{
    if v.len() == 0 {
        Seq::empty()
    } else {
        nodes_view(v.drop_last()).push(v.last().view())
    }
}

pub broadcast proof fn lemma_nodes_view(v: Seq<ASTNode>)
    ensures
        #[trigger] nodes_view(v).len() == v.len(),
        forall|i: int| 0 <= i < v.len() ==> nodes_view(v)[i] == v[i]@,
    decreases v.len(),
{
    if v.len() > 0 {
        lemma_nodes_view(v.drop_last());
        assert(nodes_view(v) == nodes_view(v.drop_last()).push(v.last().view()));
    } else {
        assert(nodes_view(v) == Seq::<Node>::empty());
    }
}

/// Appending a node appends its model.
pub proof fn lemma_nodes_view_push(v: Seq<ASTNode>, x: ASTNode)
    ensures
        nodes_view(v.push(x)) == nodes_view(v).push(x@),
{
    assert(v.push(x).drop_last() =~= v);
}

impl ASTNode {
    /// A copy of this node and of everything below it.
    pub fn duplicate(&self) -> (r: ASTNode)
        ensures
            r@ == self@,
        decreases self, 1nat,
    {
        ASTNode { kind: self.kind.duplicate() }
    }
}

impl NodeKind {
    /// A copy of this node kind and of everything below it.
    pub fn duplicate(&self) -> (r: NodeKind)
        ensures
            (ASTNode { kind: r })@ == (ASTNode { kind: *self })@,
        decreases self, 0nat,
    {
        match self {
            NodeKind::Number(x) => NodeKind::Number(x.clone()),
            NodeKind::IntNumber(x) => NodeKind::IntNumber(*x),
            NodeKind::StringLit(x) => NodeKind::StringLit(x.clone()),
            NodeKind::Boolean(x) => NodeKind::Boolean(*x),
            NodeKind::Identifier(x) => NodeKind::Identifier(x.clone()),
            NodeKind::SlotDecl { name, slot_type, value } => NodeKind::SlotDecl {
                name: name.clone(),
                slot_type: match slot_type {
                    Some(t) => Some(t.duplicate()),
                    None => None,
                },
                value: match value {
                    Some(v) => Some(Box::new((**v).duplicate())),
                    None => None,
                },
            },
            NodeKind::LayoutDecl(d) => NodeKind::LayoutDecl(d.duplicate()),
            NodeKind::ProcDecl { name, params, return_type, body } => NodeKind::ProcDecl {
                name: name.clone(),
                params: duplicate_params(params),
                return_type: return_type.duplicate(),
                body: duplicate_nodes(body),
            },
            NodeKind::Assignment { target, value } => NodeKind::Assignment {
                target: Box::new((**target).duplicate()),
                value: Box::new((**value).duplicate()),
            },
            NodeKind::Emit(x) => NodeKind::Emit(Box::new((**x).duplicate())),
            NodeKind::When { condition, then_branch, else_branch } => NodeKind::When {
                condition: Box::new((**condition).duplicate()),
                then_branch: duplicate_nodes(then_branch),
                else_branch: match else_branch {
                    Some(v) => Some(duplicate_nodes(v)),
                    None => None,
                },
            },
            NodeKind::During { condition, body } => NodeKind::During {
                condition: Box::new((**condition).duplicate()),
                body: duplicate_nodes(body),
            },
            NodeKind::Yield(x) => NodeKind::Yield(
                match x {
                    Some(v) => Some(Box::new((**v).duplicate())),
                    None => None,
                },
            ),
            NodeKind::Claim(x) => NodeKind::Claim(Box::new((**x).duplicate())),
            NodeKind::Purge(x) => NodeKind::Purge(Box::new((**x).duplicate())),
            NodeKind::BinaryOp { left, op, right } => NodeKind::BinaryOp {
                left: Box::new((**left).duplicate()),
                op: op.duplicate(),
                right: Box::new((**right).duplicate()),
            },
            NodeKind::UnaryOp { op, operand } => NodeKind::UnaryOp {
                op: op.duplicate(),
                operand: Box::new((**operand).duplicate()),
            },
            NodeKind::Call { callee, args } => NodeKind::Call {
                callee: callee.clone(),
                args: duplicate_nodes(args),
            },
            NodeKind::AddressOf(x) => NodeKind::AddressOf(Box::new((**x).duplicate())),
            NodeKind::Deref(x) => NodeKind::Deref(Box::new((**x).duplicate())),
            NodeKind::FieldAccess { object, field } => NodeKind::FieldAccess {
                object: Box::new((**object).duplicate()),
                field: field.clone(),
            },
            NodeKind::ArrayIndex { array, index } => NodeKind::ArrayIndex {
                array: Box::new((**array).duplicate()),
                index: Box::new((**index).duplicate()),
            },
            NodeKind::ArrayLiteral(v) => NodeKind::ArrayLiteral(duplicate_nodes(v)),
            NodeKind::Block(v) => NodeKind::Block(duplicate_nodes(v)),
            NodeKind::ExprStatement(x) => NodeKind::ExprStatement(Box::new((**x).duplicate())),
        }
    }
}

/// Copies of the nodes of `v`, in order.
pub fn duplicate_nodes(v: &Vec<ASTNode>) -> (r: Vec<ASTNode>)
    ensures
        nodes_view(r@) == nodes_view(v@),
    decreases v, 2nat,
{
    let mut r: Vec<ASTNode> = Vec::new();
    let mut i: usize = 0;
    proof {
        assert(nodes_view(r@) =~= nodes_view(v@.take(0)));
    }
    while i < v.len()
        invariant
            i <= v.len(),
            nodes_view(r@) == nodes_view(v@.take(i as int)),
        decreases v.len() - i,
    {
        proof {
            assert(decreases_to!(v => v@));
            assert(decreases_to!(v@ => v@[i as int]));
        }
        let x = v[i].duplicate();
        proof {
            lemma_nodes_view_push(r@, x);
            lemma_nodes_view_push(v@.take(i as int), v@[i as int]);
            assert(v@.take(i + 1) =~= v@.take(i as int).push(v@[i as int]));
        }
        r.push(x);
        i = i + 1;
    }
    proof {
        assert(v@.take(i as int) =~= v@);
    }
    r
}

/// Copies of the parameters of `v`, in order.
pub fn duplicate_params(v: &Vec<ProcParam>) -> (r: Vec<ProcParam>)
    ensures
        params_view(r@) == params_view(v@),
{
    let mut r: Vec<ProcParam> = Vec::new();
    let mut i: usize = 0;
    while i < v.len()
        invariant
            i <= v.len(),
            r@.len() == i,
            forall|j: int| 0 <= j < i ==> r@[j]@ == v@[j]@,
        decreases v.len() - i,
    {
        r.push(v[i].clone());
        i = i + 1;
    }
    proof {
        assert(params_view(r@) =~= params_view(v@));
    }
    r
}

impl Clone for ASTNode {
    fn clone(&self) -> (r: Self)
        ensures
            r@ == self@,
    {
        self.duplicate()
    }
}

impl Clone for NodeKind {
    fn clone(&self) -> (r: Self)
        ensures
            (ASTNode { kind: r })@ == (ASTNode { kind: *self })@,
    {
        self.duplicate()
    }
}

/// The cursor over a token sequence that the parser reads.
pub struct ParserState {
    tokens: Vec<TokenType>,
    position: usize,
}

impl ParserState {
    /// The models of the tokens.
    pub closed spec fn toks(&self) -> Seq<Tok> {
        self.tokens@.map_values(|t: TokenType| t@)
    }

    /// The index of the next token to read.
    pub closed spec fn pos(&self) -> int {
        self.position as int
    }

    /// The cursor never stands past the end of the tokens.
    pub closed spec fn wf(&self) -> bool {
        self.position <= self.tokens.len()
    }

    /// A well-formed cursor stands within the tokens or just after them.
    pub proof fn lemma_bounds(&self)
        requires
            self.wf(),
        ensures
            0 <= self.pos() <= self.toks().len(),
    {
    }

    pub fn new(tokens: Vec<TokenType>) -> (r: Self)
        ensures
            r.wf(),
            r.pos() == 0,
            r.toks() == tokens@.map_values(|t: TokenType| t@),
    {
        ParserState { tokens, position: 0 }
    }

    /// The next token, if any, without moving.
    pub fn peek(&self) -> (r: Option<&TokenType>)
        requires
            self.wf(),
        ensures
            self.pos() < self.toks().len() ==> (r matches Some(t) && t@ == self.toks()[self.pos()]),
            self.pos() >= self.toks().len() ==> r is None,
    {
        if self.position < self.tokens.len() {
            Some(&self.tokens[self.position])
        } else {
            None
        }
    }

    /// Reads the next token, if any: returns a copy and moves past it.
    pub fn advance(&mut self) -> (r: Option<TokenType>)
        requires
            old(self).wf(),
        ensures
            final(self).wf(),
            final(self).toks() == old(self).toks(),
            old(self).pos() < old(self).toks().len() ==> {
                &&& (r matches Some(t) && t@ == old(self).toks()[old(self).pos()])
                &&& final(self).pos() == old(self).pos() + 1
            },
            old(self).pos() >= old(self).toks().len() ==> (r is None && final(self).pos() == old(
                self,
            ).pos()),
    {
        if self.position < self.tokens.len() {
            let tok = self.tokens[self.position].duplicate();
            self.position += 1;
            Some(tok)
        } else {
            None
        }
    }

    /// Whether the next token is of the same variant as `expected` (its payload aside).
    pub fn check(&self, expected: &TokenType) -> (b: bool)
        requires
            self.wf(),
        ensures
            b == (self.pos() < self.toks().len() && tok_kind(self.toks()[self.pos()]) == tok_kind(
                expected@,
            )),
    {
        match self.peek() {
            Some(tok) => tok.kind_code() == expected.kind_code(),
            None => false,
        }
    }

    /// Moves past the next token, which must be of the same variant as `expected`.
    pub fn consume(&mut self, expected: &TokenType)
        requires
            old(self).wf(),
            old(self).pos() < old(self).toks().len(),
            tok_kind(old(self).toks()[old(self).pos()]) == tok_kind(expected@),
        ensures
            final(self).wf(),
            final(self).toks() == old(self).toks(),
            final(self).pos() == old(self).pos() + 1,
    {
        self.advance();
    }
}

} // verus!
