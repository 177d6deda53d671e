use lib::core_types::{ASTNode, Type};
use lib::ir::{IRGenerator, IRInstruction, IRProc, IRProgram};
use lib::lexer::Lexer;
use lib::parser::Parser;

fn ast(src: &str) -> Vec<ASTNode> {
    let toks = Lexer::new(src).tokenize();
    Parser::new(toks).parse_program()
}

fn gen(src: &str) -> Option<IRProgram> {
    IRGenerator::new().generate_program_checked(ast(src))
}

fn s(x: &str) -> String {
    x.to_string()
}

#[test]
fn test_ir_slot_and_emit() {
    let p = gen("slot x: int = 1 + 2; emit x;").unwrap();
    assert_eq!(
        p.main_instructions,
        vec![
            IRInstruction::LoadIntConst { dest: 0, val: 1 },
            IRInstruction::LoadIntConst { dest: 1, val: 2 },
            IRInstruction::Add { dest: 2, src1: 0, src2: 1, is_float: false },
            IRInstruction::StoreVar { name: s("x"), src: 2 },
            IRInstruction::LoadVar { dest: 3, name: s("x") },
            IRInstruction::Emit { reg: 3, reg_type: Type::Int },
        ]
    );
    assert!(p.procs.is_empty());
    assert!(p.string_literals.is_empty());
}

#[test]
fn test_ir_float_arithmetic_and_comparison() {
    let p = gen("emit 1.5 * 2.0; emit 1 < 2;").unwrap();
    assert_eq!(
        p.main_instructions,
        vec![
            IRInstruction::LoadFloatConst { dest: 0, val: s("1.5") },
            IRInstruction::LoadFloatConst { dest: 1, val: s("2.0") },
            IRInstruction::Mul { dest: 2, src1: 0, src2: 1, is_float: true },
            IRInstruction::Emit { reg: 2, reg_type: Type::Num },
            IRInstruction::LoadIntConst { dest: 3, val: 1 },
            IRInstruction::LoadIntConst { dest: 4, val: 2 },
            IRInstruction::CmpLt { dest: 5, src1: 3, src2: 4, is_float: false },
            IRInstruction::Emit { reg: 5, reg_type: Type::Flag },
        ]
    );
}

#[test]
fn test_ir_unary_minus_and_not() {
    let p = gen("emit -1.5; emit -3; emit !yes;").unwrap();
    assert_eq!(
        p.main_instructions,
        vec![
            IRInstruction::LoadFloatConst { dest: 0, val: s("1.5") },
            IRInstruction::LoadFloatConst { dest: 2, val: s("0.0") },
            IRInstruction::Sub { dest: 1, src1: 2, src2: 0, is_float: true },
            IRInstruction::Emit { reg: 1, reg_type: Type::Num },
            IRInstruction::LoadIntConst { dest: 3, val: 3 },
            IRInstruction::LoadIntConst { dest: 5, val: 0 },
            IRInstruction::Sub { dest: 4, src1: 5, src2: 3, is_float: false },
            IRInstruction::Emit { reg: 4, reg_type: Type::Int },
            IRInstruction::LoadBoolConst { dest: 6, val: true },
            IRInstruction::LogNot { dest: 7, src: 6 },
            IRInstruction::Emit { reg: 7, reg_type: Type::Flag },
        ]
    );
}

#[test]
fn test_ir_when_otherwise() {
    let p = gen("when yes { emit 1; } otherwise { emit 2; }").unwrap();
    assert_eq!(
        p.main_instructions,
        vec![
            IRInstruction::LoadBoolConst { dest: 0, val: true },
            IRInstruction::JumpIfFalse { cond_reg: 0, label: s("else_0") },
            IRInstruction::LoadIntConst { dest: 1, val: 1 },
            IRInstruction::Emit { reg: 1, reg_type: Type::Int },
            IRInstruction::Jump(s("end_when_1")),
            IRInstruction::Label(s("else_0")),
            IRInstruction::LoadIntConst { dest: 2, val: 2 },
            IRInstruction::Emit { reg: 2, reg_type: Type::Int },
            IRInstruction::Label(s("end_when_1")),
        ]
    );
}

#[test]
fn test_ir_when_without_otherwise() {
    let p = gen("when no { emit 1; }").unwrap();
    assert_eq!(
        p.main_instructions,
        vec![
            IRInstruction::LoadBoolConst { dest: 0, val: false },
            IRInstruction::JumpIfFalse { cond_reg: 0, label: s("else_0") },
            IRInstruction::LoadIntConst { dest: 1, val: 1 },
            IRInstruction::Emit { reg: 1, reg_type: Type::Int },
            IRInstruction::Label(s("else_0")),
        ]
    );
}

#[test]
fn test_ir_during_loop() {
    let p = gen("during no { }").unwrap();
    assert_eq!(
        p.main_instructions,
        vec![
            IRInstruction::Label(s("during_start_0")),
            IRInstruction::LoadBoolConst { dest: 0, val: false },
            IRInstruction::JumpIfFalse { cond_reg: 0, label: s("during_end_1") },
            IRInstruction::Jump(s("during_start_0")),
            IRInstruction::Label(s("during_end_1")),
        ]
    );
}

#[test]
fn test_ir_procedures_and_calls() {
    let p = gen("emit f(3); proc f(a: int) -> int { yield a; }").unwrap();
    assert_eq!(
        p.procs,
        vec![IRProc {
            name: s("f"),
            params: vec![(s("a"), Type::Int)],
            return_type: Type::Int,
            instructions: vec![
                IRInstruction::LoadVar { dest: 0, name: s("a") },
                IRInstruction::Yield(Some(0)),
            ],
        }]
    );
    assert_eq!(
        p.main_instructions,
        vec![
            IRInstruction::LoadIntConst { dest: 1, val: 3 },
            IRInstruction::Call { dest: Some(2), name: s("f"), args: vec![1] },
            IRInstruction::Emit { reg: 2, reg_type: Type::Int },
        ]
    );
}

#[test]
fn test_ir_string_constants_are_shared() {
    let p = gen("emit \"hi\"; emit \"yo\"; emit \"hi\";").unwrap();
    assert_eq!(p.string_literals, vec![s("hi"), s("yo")]);
    assert_eq!(
        p.main_instructions,
        vec![
            IRInstruction::LoadStringConst { dest: 0, str_id: 0 },
            IRInstruction::Emit { reg: 0, reg_type: Type::Text },
            IRInstruction::LoadStringConst { dest: 1, str_id: 1 },
            IRInstruction::Emit { reg: 1, reg_type: Type::Text },
            IRInstruction::LoadStringConst { dest: 2, str_id: 0 },
            IRInstruction::Emit { reg: 2, reg_type: Type::Text },
        ]
    );
}

#[test]
fn test_ir_layout_field_store() {
    let p = gen("layout P { x: int, y: num } slot p: P; p.y = 1.5;").unwrap();
    assert_eq!(
        p.main_instructions,
        vec![
            IRInstruction::LoadFloatConst { dest: 0, val: s("1.5") },
            IRInstruction::ComputeAddr { dest: 1, var_name: s("p") },
            IRInstruction::ComputeFieldAddr { dest: 2, base_reg: 1, byte_offset: 8 },
            IRInstruction::StoreDeref { ptr_reg: 2, val_reg: 0 },
        ]
    );
    assert!(p.layouts.get(&s("P")).is_some());
    assert!(p.layouts.get(&s("Q")).is_none());
}

#[test]
fn test_ir_pointers_and_arrays() {
    let p = gen("slot a: [int; 3]; emit a[1]; slot q = claim(8); *q = 5; purge(q);").unwrap();
    assert_eq!(
        p.main_instructions,
        vec![
            IRInstruction::ComputeAddr { dest: 0, var_name: s("a") },
            IRInstruction::LoadIntConst { dest: 1, val: 1 },
            IRInstruction::ComputeIndexAddr { dest: 2, base_reg: 0, index_reg: 1, elem_size: 8 },
            IRInstruction::LoadDeref { dest: 3, ptr_reg: 2 },
            IRInstruction::Emit { reg: 3, reg_type: Type::Int },
            IRInstruction::LoadIntConst { dest: 4, val: 8 },
            IRInstruction::Alloc { dest: 5, size_reg: 4 },
            IRInstruction::StoreVar { name: s("q"), src: 5 },
            IRInstruction::LoadIntConst { dest: 6, val: 5 },
            IRInstruction::LoadVar { dest: 7, name: s("q") },
            IRInstruction::StoreDeref { ptr_reg: 7, val_reg: 6 },
            IRInstruction::LoadVar { dest: 8, name: s("q") },
            IRInstruction::Free { ptr_reg: 8 },
        ]
    );
}

#[test]
fn test_ir_errors() {
    assert!(gen("layout P { x: int } slot p: P; emit p.z;").is_none());
    assert!(gen("emit q.z;").is_none());
    assert!(gen("1 = 2;").is_none());
    assert!(gen("emit purge(p) + 1;").is_none());
    assert!(gen("slot x = purge(p); emit x + 1;").is_some());
    assert!(gen("when purge(p) { }").is_none());
    assert!(gen("emit [1, 2];").is_some());
}

#[test]
fn test_ir_registers_are_fresh() {
    let p = gen("slot x = 1 + 2 * 3; emit f(x, 4, -x); when x < 2 { emit x; }").unwrap();
    let mut dests: Vec<usize> = Vec::new();
    for ins in &p.main_instructions {
        match ins {
            IRInstruction::LoadIntConst { dest, .. }
            | IRInstruction::LoadVar { dest, .. }
            | IRInstruction::Add { dest, .. }
            | IRInstruction::Sub { dest, .. }
            | IRInstruction::Mul { dest, .. }
            | IRInstruction::CmpLt { dest, .. } => dests.push(*dest),
            IRInstruction::Call { dest: Some(d), .. } => dests.push(*d),
            _ => {}
        }
    }
    let mut sorted = dests.clone();
    sorted.sort();
    sorted.dedup();
    assert_eq!(sorted.len(), dests.len());
}

#[test]
fn test_add_string() {
    let mut p = IRProgram::new();
    assert_eq!(p.add_string(s("a")), 0);
    assert_eq!(p.add_string(s("b")), 1);
    assert_eq!(p.add_string(s("a")), 0);
    assert_eq!(p.add_string(s("b")), 1);
    assert_eq!(p.string_literals, vec![s("a"), s("b")]);
}

#[test]
fn test_new_register_and_label() {
    let mut g = IRGenerator::new();
    assert_eq!(g.new_register(), 0);
    assert_eq!(g.new_register(), 1);
    assert_eq!(g.new_label("loop"), s("loop_0"));
    assert_eq!(g.new_label("loop"), s("loop_1"));
    assert_eq!(g.new_register(), 2);
}

#[test]
fn test_generate_program_public() {
    let p = IRGenerator::new().generate_program(ast("emit yes;"));
    assert_eq!(
        p.main_instructions,
        vec![
            IRInstruction::LoadBoolConst { dest: 0, val: true },
            IRInstruction::Emit { reg: 0, reg_type: Type::Flag },
        ]
    );
}

#[test]
fn test_ir_strings_in_procedures_and_main() {
    let p = gen("proc f() { emit \"a\"; } emit \"a\"; emit \"b\";").unwrap();
    assert_eq!(p.string_literals, vec![s("a"), s("b")]);
    assert_eq!(
        p.procs[0].instructions,
        vec![
            IRInstruction::LoadStringConst { dest: 0, str_id: 0 },
            IRInstruction::Emit { reg: 0, reg_type: Type::Text },
        ]
    );
    assert_eq!(
        p.main_instructions,
        vec![
            IRInstruction::LoadStringConst { dest: 1, str_id: 0 },
            IRInstruction::Emit { reg: 1, reg_type: Type::Text },
            IRInstruction::LoadStringConst { dest: 2, str_id: 1 },
            IRInstruction::Emit { reg: 2, reg_type: Type::Text },
        ]
    );
}

#[test]
fn test_ir_procedure_bindings_do_not_leak() {
    let p = gen("proc f(a: num) { emit a; } emit a;").unwrap();
    assert_eq!(
        p.procs[0].instructions,
        vec![
            IRInstruction::LoadVar { dest: 0, name: s("a") },
            IRInstruction::Emit { reg: 0, reg_type: Type::Num },
        ]
    );
    assert_eq!(
        p.main_instructions,
        vec![
            IRInstruction::LoadVar { dest: 1, name: s("a") },
            IRInstruction::Emit { reg: 1, reg_type: Type::Int },
        ]
    );
}

#[test]
fn test_ir_procedures_with_one_name_share_code() {
    let p = gen("proc f() { emit 1; } proc f() { emit 2; }").unwrap();
    assert_eq!(p.procs.len(), 2);
    assert_eq!(p.procs[0].instructions.len(), 4);
    assert!(p.procs[1].instructions.is_empty());
}

#[test]
fn test_ir_labels_unique_and_jumps_resolved() {
    let p = gen("proc f() { during yes { when no { } } } when yes { during no { } } otherwise { emit 1; }").unwrap();
    let mut lists: Vec<&Vec<IRInstruction>> = vec![&p.main_instructions];
    for q in &p.procs {
        lists.push(&q.instructions);
    }
    let mut all_labels: Vec<String> = Vec::new();
    for list in &lists {
        let labels: Vec<String> = list
            .iter()
            .filter_map(|i| match i {
                IRInstruction::Label(l) => Some(l.clone()),
                _ => None,
            })
            .collect();
        for i in list.iter() {
            match i {
                IRInstruction::Jump(l) | IRInstruction::JumpIfFalse { label: l, .. } => assert!(labels.contains(l)),
                _ => {}
            }
        }
        all_labels.extend(labels);
    }
    let n = all_labels.len();
    all_labels.sort();
    all_labels.dedup();
    assert_eq!(all_labels.len(), n);
    assert_eq!(n, 7);
}

#[test]
fn test_ir_clone_program() {
    let p = gen("emit \"s\"; proc g() { yield; }").unwrap();
    let q = p.clone();
    assert_eq!(q.main_instructions, p.main_instructions);
    assert_eq!(q.procs, p.procs);
    assert_eq!(q.string_literals, p.string_literals);
}

fn dest_of(i: &IRInstruction) -> Option<usize> {
    match i {
        IRInstruction::LoadFloatConst { dest, .. }
        | IRInstruction::LoadIntConst { dest, .. }
        | IRInstruction::LoadStringConst { dest, .. }
        | IRInstruction::LoadBoolConst { dest, .. }
        | IRInstruction::LoadVar { dest, .. }
        | IRInstruction::Add { dest, .. }
        | IRInstruction::Sub { dest, .. }
        | IRInstruction::Mul { dest, .. }
        | IRInstruction::Div { dest, .. }
        | IRInstruction::Mod { dest, .. }
        | IRInstruction::CmpEq { dest, .. }
        | IRInstruction::CmpNeq { dest, .. }
        | IRInstruction::CmpLt { dest, .. }
        | IRInstruction::CmpLte { dest, .. }
        | IRInstruction::CmpGt { dest, .. }
        | IRInstruction::CmpGte { dest, .. }
        | IRInstruction::LogAnd { dest, .. }
        | IRInstruction::LogOr { dest, .. }
        | IRInstruction::LogNot { dest, .. }
        | IRInstruction::ComputeAddr { dest, .. }
        | IRInstruction::LoadDeref { dest, .. }
        | IRInstruction::ComputeFieldAddr { dest, .. }
        | IRInstruction::ComputeIndexAddr { dest, .. }
        | IRInstruction::Alloc { dest, .. } => Some(*dest),
        IRInstruction::Call { dest, .. } => *dest,
        _ => None,
    }
}

#[test]
fn test_ir_program_registers_written_once_and_before_reads() {
    let p = gen("proc f(a: int) -> int { slot b = a * 2; yield -b; } slot x = f(3) + f(4); when x > 1 { emit x; } slot q = claim(8); *q = x; purge(q);").unwrap();
    let mut lists: Vec<&Vec<IRInstruction>> = vec![&p.main_instructions];
    for q in &p.procs {
        lists.push(&q.instructions);
    }
    let mut all: Vec<usize> = Vec::new();
    for list in &lists {
        let mut written: Vec<usize> = Vec::new();
        for ins in list.iter() {
            let reads: Vec<usize> = match ins {
                IRInstruction::StoreVar { src, .. } | IRInstruction::LogNot { src, .. } => vec![*src],
                IRInstruction::Add { src1, src2, .. }
                | IRInstruction::Sub { src1, src2, .. }
                | IRInstruction::Mul { src1, src2, .. }
                | IRInstruction::CmpGt { src1, src2, .. } => vec![*src1, *src2],
                IRInstruction::Emit { reg, .. } => vec![*reg],
                IRInstruction::JumpIfFalse { cond_reg, .. } => vec![*cond_reg],
                IRInstruction::Call { args, .. } => args.clone(),
                IRInstruction::Yield(Some(r)) => vec![*r],
                IRInstruction::StoreDeref { ptr_reg, val_reg } => vec![*ptr_reg, *val_reg],
                IRInstruction::Alloc { size_reg, .. } => vec![*size_reg],
                IRInstruction::Free { ptr_reg } => vec![*ptr_reg],
                _ => vec![],
            };
            for r in reads {
                assert!(written.contains(&r));
            }
            if let Some(d) = dest_of(ins) {
                written.push(d);
                all.push(d);
            }
        }
    }
    let n = all.len();
    all.sort();
    all.dedup();
    assert_eq!(all.len(), n);
}
