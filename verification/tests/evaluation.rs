use hash_visualiser::ast::{BinOp, DataDecl, Expr, FlowDirection, FnDef, NodeDecl, NodeKind, Param, PropValue, Property, Type};
use hash_visualiser::eval::node_value;
use hash_visualiser::graph::ValidatedGraph;
use hash_visualiser::word::apply_binop;

fn ident(x: &str) -> Expr {
    Expr::Ident(x.to_string())
}

fn bin(op: BinOp, l: Expr, r: Expr) -> Expr {
    Expr::BinOp { op, lhs: Box::new(l), rhs: Box::new(r) }
}

fn call(name: &str, args: Vec<Expr>) -> Expr {
    Expr::Call { name: name.to_string(), args }
}

fn not(e: Expr) -> Expr {
    Expr::Not(Box::new(e))
}

fn prop(name: &str, e: Expr) -> Property {
    Property { name: name.to_string(), value: PropValue::Expr(e) }
}

fn node(name: &str, kind: NodeKind, properties: Vec<Property>) -> NodeDecl {
    NodeDecl { name: name.to_string(), kind, properties }
}

fn source(name: &str, kind: NodeKind, data: &str) -> NodeDecl {
    node(name, kind, vec![prop("source", ident(data))])
}

fn compute(name: &str, e: Expr) -> NodeDecl {
    node(name, NodeKind::Operation, vec![prop("compute", e)])
}

fn func(name: &str, params: &[(&str, Type)], ret: Type, body: Expr) -> FnDef {
    let params = params
        .iter()
        .map(|(n, t)| Param { name: n.to_string(), ty: copy_type(t) })
        .collect();
    FnDef { name: name.to_string(), params, ret, body }
}

fn copy_type(t: &Type) -> Type {
    match t {
        Type::U8 => Type::U8,
        Type::U16 => Type::U16,
        Type::U32 => Type::U32,
        Type::U64 => Type::U64,
        Type::Array { element, len } => Type::Array { element: Box::new(copy_type(element)), len: *len },
    }
}

fn data(name: &str, value: u64) -> DataDecl {
    DataDecl { name: name.to_string(), value: Expr::HexLit(value) }
}

fn graph(word_size: Option<u64>, fn_defs: Vec<FnDef>, data: Vec<DataDecl>, nodes: Vec<NodeDecl>) -> ValidatedGraph {
    ValidatedGraph {
        nodes,
        fn_defs,
        data,
        wires: Vec::new(),
        edges: Vec::new(),
        layers: Vec::new(),
        flow: FlowDirection::LeftToRight,
        word_size,
    }
}

fn value_of(g: &ValidatedGraph, name: &str) -> Option<u64> {
    let decl = g.nodes.iter().find(|n| n.name == name).expect("node exists");
    node_value(decl, g)
}

fn and_fn() -> FnDef {
    func("And", &[("a", Type::U64), ("b", Type::U64)], Type::U64, bin(BinOp::And, ident("a"), ident("b")))
}

fn xor_fn() -> FnDef {
    func("Xor", &[("a", Type::U64), ("b", Type::U64)], Type::U64, bin(BinOp::Xor, ident("a"), ident("b")))
}

fn not_fn() -> FnDef {
    func("Not", &[("a", Type::U64)], Type::U64, not(ident("a")))
}

#[test]
fn should_apply_logical_shift_within_the_word() {
    // 64-bit logical right shift: every nibble moves down one place.
    assert_eq!(apply_binop(&BinOp::ShrU, 0xF0F0_F0F0_F0F0_F0F0, 4, 64), 0x0F0F_0F0F_0F0F_0F0F, "shr_u failed");
    // Left shift drops bits off the top of the word.
    assert_eq!(apply_binop(&BinOp::Shl, 0xF0F0_F0F0_F0F0_F0F0, 4, 64), 0x0F0F_0F0F_0F0F_0F00, "shl failed");
}

#[test]
fn should_propagate_the_sign_bit_in_arithmetic_shift() {
    // Negative (top bit set) → vacated high bits fill with 1s.
    assert_eq!(
        apply_binop(&BinOp::ShrS, 0x8000_0000_0000_0000, 4, 64),
        0xF800_0000_0000_0000,
        "shr_s (negative) failed"
    );
    // Positive → same as logical.
    assert_eq!(
        apply_binop(&BinOp::ShrS, 0x0800_0000_0000_0000, 4, 64),
        0x0080_0000_0000_0000,
        "shr_s (positive) failed"
    );
}

#[test]
fn should_wrap_bits_around_the_word_during_rotate() {
    // 8-bit rotate right by 4 of 0b1111_0000 == 0b0000_1111.
    assert_eq!(apply_binop(&BinOp::RotrU, 0xF0, 4, 8), 0x0F, "rotr failed");
    // Rotating by 0 is the identity (and must not shift by the full word width).
    assert_eq!(apply_binop(&BinOp::RotlU, 0xF0, 0, 8), 0xF0, "rotl by 0 failed");
}

#[test]
fn should_read_scalar_source_from_node_value() {
    // data N = 0x00000000000000B0
    // node x : register { source: N }
    let g = graph(None, vec![], vec![data("N", 0xB0)], vec![source("x", NodeKind::Register, "N")]);
    assert_eq!(value_of(&g, "x"), Some(0xB0));
}

#[test]
fn should_resolve_node_args_when_computing_node_value() {
    // fn ShiftRight(value: u64, amount: u64) -> u64 = value shr_u amount
    let g = graph(
        Some(64),
        vec![func(
            "ShiftRight",
            &[("value", Type::U64), ("amount", Type::U64)],
            Type::U64,
            bin(BinOp::ShrU, ident("value"), ident("amount")),
        )],
        vec![data("InputValue", 0xF0F0F0F0F0F0F0F0), data("ShiftAmount", 0x04)],
        vec![
            source("value", NodeKind::Register, "InputValue"),
            source("amount", NodeKind::Constant, "ShiftAmount"),
            compute("result", call("ShiftRight", vec![ident("value"), ident("amount")])),
        ],
    );
    // Inputs surface their literal data, and the operation surfaces the computed result.
    assert_eq!(value_of(&g, "value"), Some(0xF0F0_F0F0_F0F0_F0F0), "input value wrong");
    assert_eq!(value_of(&g, "result"), Some(0x0F0F_0F0F_0F0F_0F0F), "computed result wrong");
}

#[test]
fn should_apply_unary_not() {
    let g = graph(
        Some(64),
        vec![not_fn()],
        vec![data("A", 0xFF00FF00FF00FF00)],
        vec![source("a", NodeKind::Register, "A"), compute("result", call("Not", vec![ident("a")]))],
    );
    assert_eq!(value_of(&g, "result"), Some(0x00FF_00FF_00FF_00FF), "not wrong");
}

#[test]
fn should_compute_three_input_majority() {
    // fn Maj(a: u64, b: u64, c: u64) -> u64 = (a and b) xor (a and c) xor (b and c)
    let body = bin(
        BinOp::Xor,
        bin(
            BinOp::Xor,
            bin(BinOp::And, ident("a"), ident("b")),
            bin(BinOp::And, ident("a"), ident("c")),
        ),
        bin(BinOp::And, ident("b"), ident("c")),
    );
    let g = graph(
        Some(64),
        vec![func("Maj", &[("a", Type::U64), ("b", Type::U64), ("c", Type::U64)], Type::U64, body)],
        vec![data("A", 0xFF00FF00FF00FF00), data("B", 0xFFFF0000FFFF0000), data("C", 0xFFFFFFFF00000000)],
        vec![
            source("a", NodeKind::Register, "A"),
            source("b", NodeKind::Register, "B"),
            source("c", NodeKind::Register, "C"),
            compute("result", call("Maj", vec![ident("a"), ident("b"), ident("c")])),
        ],
    );
    assert_eq!(value_of(&g, "result"), Some(0xFFFF_FF00_FF00_0000), "majority wrong");
}

#[test]
fn should_expose_the_not_step_in_a_decomposed_choose() {
    let g = graph(
        Some(64),
        vec![not_fn(), and_fn(), xor_fn()],
        vec![data("E", 0xFF00FF00FF00FF00), data("F", 0xFFFF0000FFFF0000), data("G", 0xFFFFFFFF00000000)],
        vec![
            source("e", NodeKind::Register, "E"),
            source("f", NodeKind::Register, "F"),
            source("g", NodeKind::Register, "G"),
            compute("not_e", call("Not", vec![ident("e")])),
            compute("ef", call("And", vec![ident("e"), ident("f")])),
            compute("ng", call("And", vec![ident("not_e"), ident("g")])),
            compute("result", call("Xor", vec![ident("ef"), ident("ng")])),
        ],
    );
    for (node, want) in [
        ("not_e", 0x00FF_00FF_00FF_00FFu64),
        ("ef", 0xFF00_0000_FF00_0000),
        ("ng", 0x00FF_00FF_0000_0000),
        ("result", 0xFFFF_00FF_FF00_0000),
    ] {
        assert_eq!(value_of(&g, node), Some(want), "{node}");
    }
}

#[test]
fn should_expose_each_intermediate_in_a_decomposed_majority() {
    let g = graph(
        Some(64),
        vec![and_fn(), xor_fn()],
        vec![data("A", 0xFF00FF00FF00FF00), data("B", 0xFFFF0000FFFF0000), data("C", 0xFFFFFFFF00000000)],
        vec![
            source("a", NodeKind::Register, "A"),
            source("b", NodeKind::Register, "B"),
            source("c", NodeKind::Register, "C"),
            compute("ab", call("And", vec![ident("a"), ident("b")])),
            compute("ac", call("And", vec![ident("a"), ident("c")])),
            compute("bc", call("And", vec![ident("b"), ident("c")])),
            compute("ab_ac", call("Xor", vec![ident("ab"), ident("ac")])),
            compute("result", call("Xor", vec![ident("ab_ac"), ident("bc")])),
        ],
    );
    for (node, want) in [
        ("ab", 0xFF00_0000_FF00_0000u64),
        ("ac", 0xFF00_FF00_0000_0000),
        ("bc", 0xFFFF_0000_0000_0000),
        ("ab_ac", 0x0000_FF00_FF00_0000),
        ("result", 0xFFFF_FF00_FF00_0000),
    ] {
        assert_eq!(value_of(&g, node), Some(want), "{node}");
    }
}

#[test]
fn should_chain_one_operation_into_another() {
    // The `result` node's `compute` references another *operation* node (`ab`), so node_value must recurse through it.
    let g = graph(
        Some(64),
        vec![and_fn(), xor_fn()],
        vec![data("A", 0xFF00FF00FF00FF00), data("B", 0x0F0F0F0F0F0F0F0F), data("C", 0x00000000FFFFFFFF)],
        vec![
            source("a", NodeKind::Register, "A"),
            source("b", NodeKind::Register, "B"),
            source("c", NodeKind::Register, "C"),
            compute("ab", call("And", vec![ident("a"), ident("b")])),
            compute("result", call("Xor", vec![ident("ab"), ident("c")])),
        ],
    );
    assert_eq!(value_of(&g, "ab"), Some(0x0F00_0F00_0F00_0F00), "stage 1 wrong");
    assert_eq!(value_of(&g, "result"), Some(0x0F00_0F00_F0FF_F0FF), "stage 2 wrong");
}

#[test]
fn should_compute_tutorial_examples_as_documented() {
    let cases: &[(BinOp, u64, u64, u64)] = &[
        (BinOp::Shl, 0x0F0F_0F0F_0F0F_0F0F, 4, 0xF0F0_F0F0_F0F0_F0F0),
        (BinOp::ShrS, 0xFF00_0000_0000_0000, 8, 0xFFFF_0000_0000_0000),
        (BinOp::RotlU, 0x1234_5678_9ABC_DEF0, 8, 0x3456_789A_BCDE_F012),
        (BinOp::RotrU, 0x1234_5678_9ABC_DEF0, 8, 0xF012_3456_789A_BCDE),
        (BinOp::And, 0xFF00_FF00_FF00_FF00, 0x0F0F_0F0F_0F0F_0F0F, 0x0F00_0F00_0F00_0F00),
        (BinOp::Or, 0xFF00_FF00_FF00_FF00, 0x00FF_00FF_00FF_00FF, 0xFFFF_FFFF_FFFF_FFFF),
        (BinOp::Xor, 0xFF00_FF00_FF00_FF00, 0x0F0F_0F0F_0F0F_0F0F, 0xF00F_F00F_F00F_F00F),
        (BinOp::Add, 0xFFFF_FFFF_FFFF_FF00, 0x0000_0000_0000_0200, 0x0000_0000_0000_0100),
        (BinOp::Sub, 0x0000_0000_0000_0100, 0x0000_0000_0000_0200, 0xFFFF_FFFF_FFFF_FF00),
    ];
    for (op, a, b, expected) in cases {
        let got = apply_binop(op, *a, *b, 64);
        assert_eq!(got, *expected, "{op:?}({a:#018x}, {b:#018x})");
    }
}

#[test]
fn should_honour_nested_calls_and_word_size() {
    // fn Sigma(e: u32, r1: u32, r2: u32, r3: u32) -> u32 = (e rotr_u r1) xor (e rotr_u r2) xor (e rotr_u r3)
    // fn Sigma1(e: u32) -> u32 = Sigma(e, 6, 11, 25)
    let sigma = bin(
        BinOp::Xor,
        bin(
            BinOp::Xor,
            bin(BinOp::RotrU, ident("e"), ident("r1")),
            bin(BinOp::RotrU, ident("e"), ident("r2")),
        ),
        bin(BinOp::RotrU, ident("e"), ident("r3")),
    );
    let g = graph(
        Some(32),
        vec![
            func("Sigma", &[("e", Type::U32), ("r1", Type::U32), ("r2", Type::U32), ("r3", Type::U32)], Type::U32, sigma),
            func(
                "Sigma1",
                &[("e", Type::U32)],
                Type::U32,
                call("Sigma", vec![ident("e"), Expr::Integer(6), Expr::Integer(11), Expr::Integer(25)]),
            ),
        ],
        vec![data("E", 0x510E527F)],
        vec![source("e", NodeKind::Register, "E"), compute("s", call("Sigma1", vec![ident("e")]))],
    );
    let got = value_of(&g, "s").expect("Sigma1 did not evaluate");
    // Reference computation in 32-bit space.
    let e: u32 = 0x510E_527F;
    let want = (e.rotate_right(6) ^ e.rotate_right(11) ^ e.rotate_right(25)) as u64;
    assert_eq!(got, want, "Sigma1 mismatch");
}
