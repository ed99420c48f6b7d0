use hash_visualiser::ast::{
    BinOp, DataDecl, Expr, FlowDirection, FnDef, NodeDecl, NodeKind, Param, PropValue, Property, Type, Wire, WireEndpoint,
};
use hash_visualiser::eval::{eval_scalar_with, node_array, node_value};
use hash_visualiser::format::{
    byte_separators, expr_label, fill_for, format_digits, format_value, node_label, placeholder_value,
};
use hash_visualiser::graph::{ValidatedGraph, node_name};
use hash_visualiser::grid::{effective_matrix, grid_shape};
use hash_visualiser::layering::alap_layers;
use hash_visualiser::live::{Snapshot, changed_files, port_setting, sse_event};
use hash_visualiser::map::{comprehension_map, is_map_body, is_simple_map_body};
use hash_visualiser::reduce::apply_reduce;
use hash_visualiser::stepper::{StepAction, step_effect};
use hash_visualiser::value::{Value, as_matrix, as_row, as_scalar};
use hash_visualiser::viz::{build_viz_tree, map_node_values, map_reads};
use hash_visualiser::word::apply_binop;

fn ident(x: &str) -> Expr {
    Expr::Ident(x.to_string())
}

fn bin(op: BinOp, l: Expr, r: Expr) -> Expr {
    Expr::BinOp { op, lhs: Box::new(l), rhs: Box::new(r) }
}

fn call(name: &str, args: Vec<Expr>) -> Expr {
    Expr::Call { name: name.to_string(), args }
}

fn index(base: Expr, idx: Expr) -> Expr {
    Expr::Index { base: Box::new(base), index: Box::new(idx) }
}

fn comp(var: &str, start: u64, end: u64, body: Expr) -> Expr {
    Expr::Comprehension { var: var.to_string(), start, end, body: Box::new(body) }
}

fn hex_row(values: &[u64]) -> Expr {
    Expr::Array(values.iter().map(|v| Expr::HexLit(*v)).collect())
}

fn prop(name: &str, e: Expr) -> Property {
    Property { name: name.to_string(), value: PropValue::Expr(e) }
}

fn text(name: &str, s: &str) -> Property {
    Property { name: name.to_string(), value: PropValue::Str(s.to_string()) }
}

fn node(name: &str, kind: NodeKind, properties: Vec<Property>) -> NodeDecl {
    NodeDecl { name: name.to_string(), kind, properties }
}

fn wire(from: &str, to: &str) -> Wire {
    Wire { name: None, source: WireEndpoint::Node(from.to_string()), target: WireEndpoint::Node(to.to_string()) }
}

fn names(list: &[&str]) -> Vec<String> {
    list.iter().map(|s| s.to_string()).collect()
}

fn graph(fn_defs: Vec<FnDef>, data: Vec<DataDecl>, nodes: Vec<NodeDecl>, wires: Vec<Wire>) -> ValidatedGraph {
    let edges = wires
        .iter()
        .filter_map(|w| match (&w.source, &w.target) {
            (WireEndpoint::Node(a), WireEndpoint::Node(b)) => Some((a.clone(), b.clone())),
            _ => None,
        })
        .collect();
    ValidatedGraph { nodes, fn_defs, data, wires, edges, layers: Vec::new(), flow: FlowDirection::LeftToRight, word_size: None }
}

fn decl<'a>(g: &'a ValidatedGraph, name: &str) -> &'a NodeDecl {
    g.nodes.iter().find(|n| n.name == name).expect("node exists")
}

// - - - - - - - - - - - - - - - - - - - - - - - - - - - - - - - - - - - - - - - - - - - - - - - - - - - - - - - - - - -
// Word arithmetic
// - - - - - - - - - - - - - - - - - - - - - - - - - - - - - - - - - - - - - - - - - - - - - - - - - - - - - - - - - - -

#[test]
fn rotating_left_undoes_rotating_right() {
    for bits in [8u32, 13, 32, 64] {
        for (a, b) in [(0x1234_5678_9ABC_DEF0u64, 8u64), (0xF0, 3), (0xDEAD_BEEF, 70), (0x1, 0)] {
            let word = if bits == 64 { a } else { a & ((1u64 << bits) - 1) };
            let r = apply_binop(&BinOp::RotrU, a, b, bits);
            assert_eq!(apply_binop(&BinOp::RotlU, r, b, bits), word);
            let l = apply_binop(&BinOp::RotlS, a, b, bits);
            assert_eq!(apply_binop(&BinOp::RotrS, l, b, bits), word);
        }
    }
}

#[test]
fn xor_twice_and_subtracting_what_was_added_give_the_word_back() {
    let (a, b) = (0xFFFF_FFFF_FFFF_FF00u64, 0x0000_0000_0000_0200u64);
    assert_eq!(apply_binop(&BinOp::Xor, apply_binop(&BinOp::Xor, a, b, 64), b, 64), a);
    assert_eq!(apply_binop(&BinOp::Sub, apply_binop(&BinOp::Add, a, b, 64), b, 64), a);
    assert_eq!(apply_binop(&BinOp::Sub, apply_binop(&BinOp::Add, 0xF7, 0x0C, 8), 0x0C, 8), 0xF7);
}

#[test]
fn every_operator_stays_within_an_eight_bit_word() {
    let ops = [
        BinOp::Or, BinOp::Xor, BinOp::And, BinOp::Add, BinOp::Sub, BinOp::Mod, BinOp::Shl, BinOp::ShrU, BinOp::ShrS,
        BinOp::RotrU, BinOp::RotrS, BinOp::RotlU, BinOp::RotlS,
    ];
    for op in ops {
        for (a, b) in [(0xFFFFu64, 0x3u64), (0x80, 0x9), (0x1234, 0x0), (0xFF, 0xFF)] {
            assert!(apply_binop(&op, a, b, 8) < 0x100, "{op:?}");
        }
    }
    assert_eq!(apply_binop(&BinOp::Mod, 7, 0, 8), 0);
    assert_eq!(apply_binop(&BinOp::ShrS, 0x80, 1, 8), 0xC0);
}

// - - - - - - - - - - - - - - - - - - - - - - - - - - - - - - - - - - - - - - - - - - - - - - - - - - - - - - - - - - -
// Reductions
// - - - - - - - - - - - - - - - - - - - - - - - - - - - - - - - - - - - - - - - - - - - - - - - - - - - - - - - - - - -

#[test]
fn the_shown_fold_matches_the_evaluated_reduction() {
    let row = [0x0F00u64, 0x00F0, 0xFFFF, 0x1234];
    for op in [BinOp::Xor, BinOp::And, BinOp::Or, BinOp::Add] {
        // data R = [...]; node r : register { source: R }; node out : operation { compute: reduce <op> over r }
        let g = graph(
            vec![],
            vec![DataDecl { name: "R".to_string(), value: hex_row(&row) }],
            vec![
                node("r", NodeKind::Register, vec![prop("source", ident("R"))]),
                node("out", NodeKind::Operation, vec![prop("compute", Expr::Reduce { op, array: Box::new(ident("r")) })]),
            ],
            vec![],
        );
        assert_eq!(node_value(decl(&g, "out"), &g), apply_reduce(&op, &row), "{op:?}");
    }
    assert_eq!(apply_reduce(&BinOp::Add, &[u64::MAX, 2]), Some(1));
    assert!(apply_reduce(&BinOp::Sub, &[1, 2]).is_none());
}

// - - - - - - - - - - - - - - - - - - - - - - - - - - - - - - - - - - - - - - - - - - - - - - - - - - - - - - - - - - -
// Step controls
// - - - - - - - - - - - - - - - - - - - - - - - - - - - - - - - - - - - - - - - - - - - - - - - - - - - - - - - - - - -

#[test]
fn stepping_fills_the_row_arrived_at_and_blanks_the_row_left() {
    let range = (1usize, 4usize);
    let init = step_effect(StepAction::Init, 1, range);
    assert_eq!((init.current, init.fill, init.clear), (1, Some(1), None));
    let fwd = step_effect(StepAction::Forward, 1, range);
    assert_eq!((fwd.current, fwd.fill, fwd.clear), (2, Some(2), None));
    let back = step_effect(StepAction::Back, 2, range);
    assert_eq!((back.current, back.fill, back.clear), (1, None, Some(2)));
    // Stepping back at the start moves nothing and blanks nothing.
    let stuck = step_effect(StepAction::Back, 1, range);
    assert_eq!((stuck.current, stuck.fill, stuck.clear), (1, None, None));
    // Forward then back returns to the same row.
    for c in 1..3 {
        let f = step_effect(StepAction::Forward, c, range).current;
        assert_eq!(step_effect(StepAction::Back, f, range).current, c);
    }
}

#[test]
fn shown_output_rows_run_from_start_through_the_cursor() {
    let range = (1usize, 5usize);
    let clicks = [
        StepAction::Init,
        StepAction::Forward,
        StepAction::Forward,
        StepAction::Back,
        StepAction::Forward,
        StepAction::Forward,
        StepAction::Forward,
        StepAction::Back,
        StepAction::Back,
        StepAction::Back,
        StepAction::Back,
        StepAction::Forward,
    ];
    let mut current = range.0;
    let mut shown: Vec<bool> = vec![false; range.1 + 1];
    for action in clicks {
        let e = step_effect(action, current, range);
        if let Some(row) = e.fill {
            shown[row] = true;
        }
        if let Some(row) = e.clear {
            shown[row] = false;
        }
        current = e.current;
        assert!(current >= range.0 && current < range.1);
        for (row, &on) in shown.iter().enumerate() {
            assert_eq!(on, row >= range.0 && row <= current, "row {row} with the cursor at {current}");
        }
    }
    assert_eq!(current, 2);
}

// - - - - - - - - - - - - - - - - - - - - - - - - - - - - - - - - - - - - - - - - - - - - - - - - - - - - - - - - - - -
// Formatting
// - - - - - - - - - - - - - - - - - - - - - - - - - - - - - - - - - - - - - - - - - - - - - - - - - - - - - - - - - - -

#[test]
fn cell_text_is_grouped_into_bytes() {
    assert_eq!(format_value(0x1234, 4), "12 34");
    assert_eq!(format_value(0xAB, 2), "ab");
    assert_eq!(format_value(0x1_0005, 4), "00 05"); // masked to the 16-bit width
    assert_eq!(format_value(0x0123_4567_89AB_CDEF, 16), "01 23 45 67 89 ab cd ef");
    for (i, digits) in [(0usize, 2usize), (3, 4), (7, 8), (11, 16)] {
        let cell = format_value(placeholder_value(i), digits);
        assert_eq!(cell.chars().filter(char::is_ascii_hexdigit).count(), digits);
        assert_eq!(cell.matches(' ').count(), byte_separators(digits));
        assert_eq!(cell.len(), digits + byte_separators(digits));
    }
    assert_eq!(byte_separators(0), 0);
    assert_eq!(byte_separators(2), 0);
    assert_eq!(byte_separators(16), 7);
    assert_eq!(placeholder_value(0), 0x9E37_79B9_7F4A_7C15);
    assert_eq!(placeholder_value(1), 0x9E37_79B9_7F4A_7C15u64.wrapping_mul(2));
}

#[test]
fn format_digits_follow_the_format_property() {
    let mk = |f: Option<&str>| match f {
        Some(f) => node("n", NodeKind::Register, vec![prop("format", ident(f))]),
        None => node("n", NodeKind::Register, vec![]),
    };
    assert_eq!(format_digits(&mk(Some("hex8"))), 2);
    assert_eq!(format_digits(&mk(Some("hex16"))), 4);
    assert_eq!(format_digits(&mk(Some("hex32"))), 8);
    assert_eq!(format_digits(&mk(Some("hex64"))), 16);
    assert_eq!(format_digits(&mk(Some("octal"))), 2);
    assert_eq!(format_digits(&mk(None)), 2);
}

#[test]
fn expression_labels_substitute_the_index_and_parenthesise_operands() {
    // c[(x + 4) mod 5] with x = 2
    let e = index(ident("c"), bin(BinOp::Mod, bin(BinOp::Add, ident("x"), Expr::Integer(4)), Expr::Integer(5)));
    assert_eq!(expr_label(&e, "x", 2), "c[(2 + 4) MOD 5]");
    let e = call("rotl", vec![index(ident("c"), ident("x")), Expr::HexLit(0x1F)]);
    assert_eq!(expr_label(&e, "x", 12), "rotl(c[12], 0x1f)");
    assert_eq!(expr_label(&Expr::Not(Box::new(ident("a"))), "x", 0), "not a");
    assert_eq!(expr_label(&Expr::Array(vec![Expr::Integer(1), ident("x")]), "x", 7), "[1, 7]");
    assert_eq!(expr_label(&comp("y", 0, 5, ident("y")), "x", 0), "…");
}

#[test]
fn node_labels_and_fills() {
    let a = node("state", NodeKind::Register, vec![text("label", "A"), text("symbol", "S")]);
    let s = node("c", NodeKind::Operation, vec![text("symbol", "ThetaC")]);
    let n = node("plain", NodeKind::Constant, vec![prop("label", ident("notastring"))]);
    assert_eq!(node_label(&a), "A");
    assert_eq!(node_label(&s), "ThetaC");
    assert_eq!(node_label(&n), "plain");
    assert_eq!(fill_for(&NodeKind::Register), "steelblue");
    assert_eq!(fill_for(&NodeKind::User("x".to_string())), "dimgray");
}

// - - - - - - - - - - - - - - - - - - - - - - - - - - - - - - - - - - - - - - - - - - - - - - - - - - - - - - - - - - -
// Grids and values
// - - - - - - - - - - - - - - - - - - - - - - - - - - - - - - - - - - - - - - - - - - - - - - - - - - - - - - - - - - -

#[test]
fn a_scalar_value_fills_a_single_cell_and_placeholders_fill_the_rest() {
    let g = graph(
        vec![],
        vec![DataDecl { name: "N".to_string(), value: Expr::HexLit(0xB0) }],
        vec![node("x", NodeKind::Register, vec![prop("source", ident("N"))])],
        vec![],
    );
    let shape = grid_shape("x", decl(&g, "x"), &g).expect("x should be a grid");
    assert_eq!((shape.rows, shape.cols, shape.digits, shape.step_range), (1, 1, 2, (0, 1)));
    assert_eq!(shape.values, Some(vec![vec![0xB0]]));

    // A 2x3 matrix parameter with no data: placeholders numbered row by row.
    let g = graph(
        vec![FnDef {
            name: "f".to_string(),
            params: vec![Param {
                name: "m".to_string(),
                ty: Type::Array { element: Box::new(Type::Array { element: Box::new(Type::U64), len: 3 }), len: 2 },
            }],
            ret: Type::U64,
            body: ident("m"),
        }],
        vec![],
        vec![node("src", NodeKind::Register, vec![]), node("op", NodeKind::Operation, vec![text("symbol", "f")])],
        vec![wire("src", "op")],
    );
    let shape = grid_shape("src", decl(&g, "src"), &g).expect("src should be a grid");
    assert_eq!((shape.rows, shape.cols), (2, 3));
    assert!(shape.values.is_none());
    let m = effective_matrix(&shape);
    assert_eq!(m.len(), 2);
    for r in 0..2 {
        for c in 0..3 {
            assert_eq!(m[r][c], placeholder_value(r * 3 + c));
        }
    }
}

#[test]
fn nested_values_convert_to_rows_and_matrices() {
    let row = Value::Array(vec![Value::Scalar(1), Value::Scalar(2)]);
    assert_eq!(as_scalar(&Value::Scalar(7)), Some(7));
    assert_eq!(as_scalar(&row), None);
    assert_eq!(as_row(&row), Some(vec![1, 2]));
    assert_eq!(as_row(&Value::Scalar(7)), None);
    let matrix = Value::Array(vec![
        Value::Array(vec![Value::Scalar(1), Value::Scalar(2)]),
        Value::Array(vec![Value::Scalar(3), Value::Scalar(4)]),
    ]);
    assert_eq!(as_matrix(&matrix), Some(vec![vec![1, 2], vec![3, 4]]));
    assert_eq!(as_row(&matrix), None);
    assert_eq!(as_matrix(&row), None);
}

// - - - - - - - - - - - - - - - - - - - - - - - - - - - - - - - - - - - - - - - - - - - - - - - - - - - - - - - - - - -
// Map visualisation
// - - - - - - - - - - - - - - - - - - - - - - - - - - - - - - - - - - - - - - - - - - - - - - - - - - - - - - - - - - -

/// fn ThetaD(c: [u64; 5]) -> [u64; 5] = [ for x in 0..5 => c[(x + 4) mod 5] xor rotl_u(c[(x + 1) mod 5], 1) ]
fn theta_d_body() -> Expr {
    let left = index(ident("c"), bin(BinOp::Mod, bin(BinOp::Add, ident("x"), Expr::Integer(4)), Expr::Integer(5)));
    let right = bin(
        BinOp::RotlU,
        index(ident("c"), bin(BinOp::Mod, bin(BinOp::Add, ident("x"), Expr::Integer(1)), Expr::Integer(5))),
        Expr::Integer(1),
    );
    bin(BinOp::Xor, left, right)
}

fn theta_d_graph() -> ValidatedGraph {
    graph(
        vec![FnDef {
            name: "ThetaD".to_string(),
            params: vec![Param { name: "c".to_string(), ty: Type::Array { element: Box::new(Type::U64), len: 5 } }],
            ret: Type::Array { element: Box::new(Type::U64), len: 5 },
            body: comp("x", 0, 5, theta_d_body()),
        }],
        vec![DataDecl { name: "C".to_string(), value: hex_row(&[1, 2, 4, 8, 16]) }],
        vec![
            node("c", NodeKind::Register, vec![prop("source", ident("C"))]),
            node("d", NodeKind::Operation, vec![prop("compute", call("ThetaD", vec![ident("c")]))]),
        ],
        vec![],
    )
}

#[test]
fn a_one_dimensional_map_is_drawn_element_by_element() {
    let g = theta_d_graph();
    assert!(is_simple_map_body(&theta_d_body()));
    assert!(is_map_body(&comp("x", 0, 5, theta_d_body())));
    let map = comprehension_map("c", &g).expect("c feeds a map");
    assert_eq!(map.var, "x");
    assert_eq!(map.range, (0, 5));
    assert_eq!(map.array_param, "c");

    let mut nodes = Vec::new();
    let mut next_leaf = 0usize;
    let root = build_viz_tree(&map.body, &mut nodes, &mut next_leaf);
    // Leaves c[..] and 1, then the rotation, then the final xor.
    assert_eq!(root, nodes.len() - 1);
    assert_eq!(nodes.len(), 5);
    assert_eq!(next_leaf, 3);
    assert_eq!(nodes[0].leaf, Some(0));
    assert_eq!(nodes[1].leaf, Some(1));
    assert_eq!(nodes[2].leaf, Some(2));
    assert_eq!(nodes[3].children, vec![1, 2]);
    assert_eq!(nodes[3].op_label.as_deref(), Some("ROTL_U"));
    assert_eq!(nodes[3].row, 1);
    assert_eq!(nodes[4].children, vec![0, 3]);
    assert_eq!(nodes[4].op_label.as_deref(), Some("XOR"));
    assert_eq!(nodes[4].row, 2);
    assert!(nodes[0].read_index.is_some() && nodes[2].read_index.is_none());

    let input = node_array(decl(&g, "c"), &g).expect("c is an array");
    let values = map_node_values(&nodes, &map, &input, &g);
    let reads = map_reads(&nodes, &map, &input, &g);
    assert_eq!(values.len(), 5);
    assert_eq!(reads.len(), 5);
    for x in 0..5usize {
        let l = input[(x + 4) % 5];
        let r = input[(x + 1) % 5].rotate_left(1);
        assert_eq!(values[x][0], Some(l));
        assert_eq!(values[x][4], Some(l ^ r));
        assert_eq!(reads[x], vec![(x + 4) % 5, (x + 1) % 5]);
        assert_eq!(eval_scalar_with(&map.body, "x", x as u64, "c", &input, &g), Some(l ^ r));
    }
    // The operation node's whole output agrees with the per-element values.
    let d = node_array(decl(&g, "d"), &g).expect("d is an array");
    assert_eq!(d, values.iter().map(|v| v[4].unwrap()).collect::<Vec<u64>>());
}

// - - - - - - - - - - - - - - - - - - - - - - - - - - - - - - - - - - - - - - - - - - - - - - - - - - - - - - - - - - -
// Layering
// - - - - - - - - - - - - - - - - - - - - - - - - - - - - - - - - - - - - - - - - - - - - - - - - - - - - - - - - - - -

#[test]
fn inputs_move_next_to_the_operation_they_feed() {
    // a -> b -> op, x -> op: `x` starts in the first layer but moves next to `op`.
    let mut g = graph(
        vec![],
        vec![],
        vec![
            node("a", NodeKind::Register, vec![]),
            node("x", NodeKind::Register, vec![]),
            node("b", NodeKind::Operation, vec![]),
            node("op", NodeKind::Operation, vec![]),
        ],
        vec![wire("a", "b"), wire("b", "op"), wire("x", "op")],
    );
    g.layers = vec![names(&["x", "a"]), names(&["b"]), names(&["op"])];
    assert_eq!(alap_layers(&g), vec![names(&["a"]), names(&["b", "x"]), names(&["op"])]);

    // A node that feeds nothing keeps its longest-path layer; nodes share a layer in name order.
    g.layers = vec![names(&["x", "a", "lonely"]), names(&["b"]), names(&["op"])];
    assert_eq!(alap_layers(&g), vec![names(&["a", "lonely"]), names(&["b", "x"]), names(&["op"])]);

    g.layers = Vec::new();
    assert!(alap_layers(&g).is_empty());
}

// - - - - - - - - - - - - - - - - - - - - - - - - - - - - - - - - - - - - - - - - - - - - - - - - - - - - - - - - - - -
// Live reload
// - - - - - - - - - - - - - - - - - - - - - - - - - - - - - - - - - - - - - - - - - - - - - - - - - - - - - - - - - - -

#[test]
fn every_line_becomes_its_own_data_field() {
    assert_eq!(sse_event("node a\n  node b"), "data: node a\ndata:   node b\n\n");
    assert_eq!(sse_event(""), "data: \n\n");
    assert_eq!(sse_event("x\n"), "data: x\ndata: \n\n");
    // Reassembling the fields gives the content back.
    let content = "fn f(a: u64) -> u64 = a\n\n    node a : register {}";
    let event = sse_event(content);
    let body = event.strip_suffix("\n\n").expect("blank line ends the event");
    let lines: Vec<&str> = body.split('\n').map(|l| l.strip_prefix("data: ").expect("field prefix")).collect();
    assert_eq!(lines.join("\n"), content);
}

#[test]
fn only_changed_files_are_broadcast_and_only_once() {
    let mut last = Snapshot::new();
    let scan = vec![("a.hv".to_string(), "one".to_string()), ("b.hv".to_string(), "two".to_string())];
    let sent = changed_files(&mut last, &scan);
    assert_eq!(sent, scan);
    // The same scan again: nothing changed, nothing sent.
    assert!(changed_files(&mut last, &scan).is_empty());
    // One file edited.
    let scan2 = vec![("a.hv".to_string(), "one".to_string()), ("b.hv".to_string(), "TWO".to_string())];
    assert_eq!(changed_files(&mut last, &scan2), vec![("b.hv".to_string(), "TWO".to_string())]);
    assert_eq!(last.get("b.hv").map(|s| s.as_str()), Some("TWO"));
    assert_eq!(last.get("c.hv"), None);
}

#[test]
fn recording_a_file_again_replaces_its_record() {
    let mut last = Snapshot::new();
    last.insert("a.hv".to_string(), "one".to_string());
    last.insert("b.hv".to_string(), "two".to_string());
    last.insert("a.hv".to_string(), "ONE".to_string());
    assert_eq!(last.entries.len(), 2);
    assert_eq!(last.get("a.hv").map(|s| s.as_str()), Some("ONE"));
    assert_eq!(last.get("b.hv").map(|s| s.as_str()), Some("two"));
}

#[test]
fn the_port_setting_is_read_as_a_sixteen_bit_number() {
    assert_eq!(port_setting(None), 8000);
    assert_eq!(port_setting(Some("9000")), 9000);
    assert_eq!(port_setting(Some("+80")), 80);
    assert_eq!(port_setting(Some("65535")), 65535);
    assert_eq!(port_setting(Some("65536")), 8000);
    assert_eq!(port_setting(Some("")), 8000);
    assert_eq!(port_setting(Some("+")), 8000);
    assert_eq!(port_setting(Some("80a")), 8000);
    assert_eq!(port_setting(Some("-1")), 8000);
    for (text, value) in [("0", Some(0u16)), ("00080", Some(80)), ("99999999999", None), ("8 0", None)] {
        assert_eq!(text.parse::<u16>().ok(), value);
        assert_eq!(port_setting(Some(text)), value.unwrap_or(8000));
    }
}

#[test]
fn wire_endpoints_name_their_nodes() {
    assert_eq!(node_name(&WireEndpoint::Node("a".to_string())), Some("a"));
    assert_eq!(node_name(&WireEndpoint::Open), None);
}

#[test]
fn a_node_that_computes_itself_has_no_value() {
    // node x : operation { compute: x }
    let g = graph(vec![], vec![], vec![node("x", NodeKind::Operation, vec![prop("compute", ident("x"))])], vec![]);
    assert_eq!(node_value(decl(&g, "x"), &g), None);
    assert!(node_array(decl(&g, "x"), &g).is_none());
}
