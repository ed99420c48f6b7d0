use hash_visualiser::ast::{
    BinOp, DataDecl, Expr, FlowDirection, FnDef, NodeDecl, NodeKind, Param, PropValue, Property, Type, Wire, WireEndpoint,
};
use hash_visualiser::describe::description_html;
use hash_visualiser::format::{expr_label, op_symbol};
use hash_visualiser::graph::ValidatedGraph;
use hash_visualiser::grid::{effective_matrix, grid_shape};
use hash_visualiser::inspect::{inferred_grid_shape, reduction_label_source, reduction_op, step_back, step_forward, step_range};
use hash_visualiser::map::{is_map_operation, nested_map};
use hash_visualiser::reduce::apply_reduce;
use hash_visualiser::scene::{StepView, needs_transport, step_view};

// - - - - - - - - - - - - - - - - - - - - - - - - - - - - - - - - - - - - - - - - - - - - - - - - - - - - - - - - - - -
// Building programs
// - - - - - - - - - - - - - - - - - - - - - - - - - - - - - - - - - - - - - - - - - - - - - - - - - - - - - - - - - - -

fn ident(x: &str) -> Expr {
    Expr::Ident(x.to_string())
}

fn bin(op: BinOp, l: Expr, r: Expr) -> Expr {
    Expr::BinOp { op, lhs: Box::new(l), rhs: Box::new(r) }
}

fn call(name: &str, args: Vec<Expr>) -> Expr {
    Expr::Call { name: name.to_string(), args }
}

fn index(base: Expr, idx: Expr) -> Expr {
    Expr::Index { base: Box::new(base), index: Box::new(idx) }
}

fn comp(var: &str, start: u64, end: u64, body: Expr) -> Expr {
    Expr::Comprehension { var: var.to_string(), start, end, body: Box::new(body) }
}

fn reduce(op: BinOp, array: Expr) -> Expr {
    Expr::Reduce { op, array: Box::new(array) }
}

fn hex_row(values: &[u64]) -> Expr {
    Expr::Array(values.iter().map(|v| Expr::HexLit(*v)).collect())
}

fn hex_matrix(rows: &[&[u64]]) -> Expr {
    Expr::Array(rows.iter().map(|r| hex_row(r)).collect())
}

fn prop(name: &str, e: Expr) -> Property {
    Property { name: name.to_string(), value: PropValue::Expr(e) }
}

fn text(name: &str, s: &str) -> Property {
    Property { name: name.to_string(), value: PropValue::Str(s.to_string()) }
}

fn node(name: &str, kind: NodeKind, properties: Vec<Property>) -> NodeDecl {
    NodeDecl { name: name.to_string(), kind, properties }
}

fn array_type(element: Type, len: usize) -> Type {
    Type::Array { element: Box::new(element), len }
}

fn func(name: &str, params: Vec<(&str, Type)>, ret: Type, body: Expr) -> FnDef {
    let params = params.into_iter().map(|(n, ty)| Param { name: n.to_string(), ty }).collect();
    FnDef { name: name.to_string(), params, ret, body }
}

fn data(name: &str, value: Expr) -> DataDecl {
    DataDecl { name: name.to_string(), value }
}

fn wire(from: &str, to: &str) -> Wire {
    Wire { name: None, source: WireEndpoint::Node(from.to_string()), target: WireEndpoint::Node(to.to_string()) }
}

fn graph(fn_defs: Vec<FnDef>, data: Vec<DataDecl>, nodes: Vec<NodeDecl>, wires: Vec<Wire>, word_size: Option<u64>) -> ValidatedGraph {
    let edges = wires
        .iter()
        .filter_map(|w| match (&w.source, &w.target) {
            (WireEndpoint::Node(a), WireEndpoint::Node(b)) => Some((a.clone(), b.clone())),
            _ => None,
        })
        .collect();
    ValidatedGraph {
        nodes,
        fn_defs,
        data,
        wires,
        edges,
        layers: Vec::new(),
        flow: FlowDirection::LeftToRight,
        word_size,
    }
}

fn decl<'a>(g: &'a ValidatedGraph, name: &str) -> &'a NodeDecl {
    g.nodes.iter().find(|n| n.name == name).expect("node exists")
}

/// `fn ThetaC(a: [[<elem>; 5]; 5]) -> [<elem>; 5] = <body>`
fn theta_c(elem: fn() -> Type, body: Expr) -> FnDef {
    func("ThetaC", vec![("a", array_type(array_type(elem(), 5), 5))], array_type(elem(), 5), body)
}

/// `[ for x in 0..5 => reduce xor over a[x] ]`
fn column_parity() -> Expr {
    comp("x", 0, 5, reduce(BinOp::Xor, index(ident("a"), ident("x"))))
}

fn u8t() -> Type {
    Type::U8
}

fn u64t() -> Type {
    Type::U64
}

/// hash SHA3 {
///     fn ThetaC(a: [[u64; 5]; 5]) -> [u64; 5] = <body>
///     node state : register  { format: hex64 }
///     node c     : operation { symbol: "ThetaC" }
///     wire state -> c
/// }
fn sha3_state(body: Expr) -> ValidatedGraph {
    graph(
        vec![theta_c(u64t, body)],
        vec![],
        vec![
            node("state", NodeKind::Register, vec![prop("format", ident("hex64"))]),
            node("c", NodeKind::Operation, vec![text("symbol", "ThetaC")]),
        ],
        vec![wire("state", "c")],
        None,
    )
}

/// hash SHA3 {
///     fn ThetaC(a: [[u64; 5]; 5]) -> [u64; 5] = [ for x in 0..5 => reduce xor over a[x] ]
///     data A = <data>
///     node state : register  { format: hex64, source: A }
///     node c     : operation { symbol: "ThetaC", compute: ThetaC(state) }
///     wire state -> c        (when `wired`)
/// }
fn sha3_declared(values: Expr, wired: bool) -> ValidatedGraph {
    graph(
        vec![theta_c(u64t, column_parity())],
        vec![data("A", values)],
        vec![
            node("state", NodeKind::Register, vec![prop("format", ident("hex64")), prop("source", ident("A"))]),
            node(
                "c",
                NodeKind::Operation,
                vec![text("symbol", "ThetaC"), prop("compute", call("ThetaC", vec![ident("state")]))],
            ),
        ],
        if wired { vec![wire("state", "c")] } else { vec![] },
        None,
    )
}

/// context { word_size: 64 }
/// fn ThetaXor(a: [[u64; 5]; 5], d: [u64; 5]) -> [[u64; 5]; 5] = [ for x in 0..5 => [ for y in 0..5 => a[x][y] xor d[x] ] ]
/// data StateA = [ [0x00, …, 0x04], …, [0x40, …, 0x44] ]
/// data VecD = [ 0xFF, 0xF0, 0x0F, 0xFFFF0000, 0xFFFFFFFF00000000 ]
/// node state : register  { source: StateA }
/// node dvec  : register  { source: VecD }
/// node mixed : operation { compute: ThetaXor(state, dvec) }
fn theta_mix() -> ValidatedGraph {
    let leaf = bin(BinOp::Xor, index(index(ident("a"), ident("x")), ident("y")), index(ident("d"), ident("x")));
    graph(
        vec![func(
            "ThetaXor",
            vec![("a", array_type(array_type(u64t(), 5), 5)), ("d", array_type(u64t(), 5))],
            array_type(array_type(u64t(), 5), 5),
            comp("x", 0, 5, comp("y", 0, 5, leaf)),
        )],
        vec![
            data(
                "StateA",
                hex_matrix(&[
                    &[0x00, 0x01, 0x02, 0x03, 0x04],
                    &[0x10, 0x11, 0x12, 0x13, 0x14],
                    &[0x20, 0x21, 0x22, 0x23, 0x24],
                    &[0x30, 0x31, 0x32, 0x33, 0x34],
                    &[0x40, 0x41, 0x42, 0x43, 0x44],
                ]),
            ),
            data("VecD", hex_row(&[0xFF, 0xF0, 0x0F, 0xFFFF0000, 0xFFFFFFFF00000000])),
        ],
        vec![
            node("state", NodeKind::Register, vec![prop("source", ident("StateA"))]),
            node("dvec", NodeKind::Register, vec![prop("source", ident("VecD"))]),
            node("mixed", NodeKind::Operation, vec![prop("compute", call("ThetaXor", vec![ident("state"), ident("dvec")]))]),
        ],
        vec![],
        Some(64),
    )
}

// - - - - - - - - - - - - - - - - - - - - - - - - - - - - - - - - - - - - - - - - - - - - - - - - - - - - - - - - - - -
// Array-grid shape inference
// - - - - - - - - - - - - - - - - - - - - - - - - - - - - - - - - - - - - - - - - - - - - - - - - - - - - - - - - - - -

/// hash SHA3 {
///     fn ThetaC(a: [[u8; 5]; 5]) -> [u8; 5] = [ for x in 0..5 => reduce xor over a[x] ]
///     node state : register  { label: "A", format: hex8 }
///     node c     : operation { symbol: "ThetaC" }
///     wire state -> c
/// }
fn wired_theta_c() -> ValidatedGraph {
    graph(
        vec![theta_c(u8t, column_parity())],
        vec![],
        vec![
            node("state", NodeKind::Register, vec![text("label", "A"), prop("format", ident("hex8"))]),
            node("c", NodeKind::Operation, vec![text("symbol", "ThetaC")]),
        ],
        vec![wire("state", "c")],
        None,
    )
}

fn check_infer_grid_shape_from_wired_function_param() {
    let g = wired_theta_c();
    assert_eq!(inferred_grid_shape("state", &g), Some((5, 5)));
    // The operation node itself feeds nothing, so it is not a grid.
    assert!(inferred_grid_shape("c", &g).is_none(), "operation node 'c' should not be a grid");
}

fn check_infer_non_square_grid_shape() {
    // fn f(m: [[u8; 4]; 2]) -> u8 = reduce xor over m[0]
    // node src : register  { format: hex8 }
    // node op  : operation { symbol: "f" }
    // wire src -> op
    let g = graph(
        vec![func(
            "f",
            vec![("m", array_type(array_type(u8t(), 4), 2))],
            u8t(),
            reduce(BinOp::Xor, index(ident("m"), Expr::Integer(0))),
        )],
        vec![],
        vec![
            node("src", NodeKind::Register, vec![prop("format", ident("hex8"))]),
            node("op", NodeKind::Operation, vec![text("symbol", "f")]),
        ],
        vec![wire("src", "op")],
        None,
    );
    // outer length is rows, inner length is cols
    assert_eq!(inferred_grid_shape("src", &g), Some((2, 4)));
}

fn check_not_infer_grid_for_scalar_function_param() {
    // fn Ch(e: u32, f: u32, g: u32) -> u32 = (e and f) xor ((not e) and g)
    let body = bin(
        BinOp::Xor,
        bin(BinOp::And, ident("e"), ident("f")),
        bin(BinOp::And, Expr::Not(Box::new(ident("e"))), ident("g")),
    );
    let g = graph(
        vec![func("Ch", vec![("e", Type::U32), ("f", Type::U32), ("g", Type::U32)], Type::U32, body)],
        vec![],
        vec![
            node("e", NodeKind::Register, vec![prop("format", ident("hex32"))]),
            node("ch", NodeKind::Operation, vec![text("symbol", "Ch")]),
        ],
        vec![wire("e", "ch")],
        None,
    );
    assert!(inferred_grid_shape("e", &g).is_none(), "a scalar-param node should not be a grid");
}

fn check_not_infer_grid_for_unwired_node() {
    // fn ThetaC(a: [[u8; 5]; 5]) -> [u8; 5] = a
    // node lonely : register { format: hex8 }
    let g = graph(
        vec![theta_c(u8t, ident("a"))],
        vec![],
        vec![node("lonely", NodeKind::Register, vec![prop("format", ident("hex8"))])],
        vec![],
        None,
    );
    assert!(inferred_grid_shape("lonely", &g).is_none(), "an unwired node should not be a grid");
}

#[test]
fn unit_tests_should_infer_grid_shape_from_wired_function_param() {
    check_infer_grid_shape_from_wired_function_param();
}

#[test]
fn array_grid_should_infer_grid_shape_from_wired_function_param() {
    check_infer_grid_shape_from_wired_function_param();
}

#[test]
fn unit_tests_should_infer_non_square_grid_shape() {
    check_infer_non_square_grid_shape();
}

#[test]
fn array_grid_should_infer_non_square_grid_shape() {
    check_infer_non_square_grid_shape();
}

#[test]
fn unit_tests_should_not_infer_grid_for_scalar_function_param() {
    check_not_infer_grid_for_scalar_function_param();
}

#[test]
fn array_grid_should_not_infer_grid_for_scalar_function_param() {
    check_not_infer_grid_for_scalar_function_param();
}

#[test]
fn unit_tests_should_not_infer_grid_for_unwired_node() {
    check_not_infer_grid_for_unwired_node();
}

#[test]
fn array_grid_should_not_infer_grid_for_unwired_node() {
    check_not_infer_grid_for_unwired_node();
}

// - - - - - - - - - - - - - - - - - - - - - - - - - - - - - - - - - - - - - - - - - - - - - - - - - - - - - - - - - - -
// Step-button range: clamped to the comprehension's range, no wrap-around.
// - - - - - - - - - - - - - - - - - - - - - - - - - - - - - - - - - - - - - - - - - - - - - - - - - - - - - - - - - - -

fn check_derive_step_range_from_comprehension() {
    let g = sha3_state(column_parity());
    // Taken from the comprehension `for x in 0..5`, not just the row count.
    assert_eq!(step_range("state", &g, 5), (0, 5));
}

fn check_fall_back_to_row_span_without_comprehension() {
    let g = sha3_state(ident("a"));
    assert_eq!(step_range("state", &g, 5), (0, 5));
}

fn check_clamp_step_forward_at_last_row() {
    let range = (0, 5); // visits rows 0..=4
    assert_eq!(step_forward(0, range), 1);
    assert_eq!(step_forward(3, range), 4);
    assert_eq!(step_forward(4, range), 4); // no wrap past the last row
}

fn check_clamp_step_back_at_first_row() {
    let range = (0, 5);
    assert_eq!(step_back(4, range), 3);
    assert_eq!(step_back(1, range), 0);
    assert_eq!(step_back(0, range), 0); // no wrap before the first row
}

fn check_respect_a_nonzero_range_start() {
    let range = (1, 4); // visits rows 1..=3
    assert_eq!(step_back(1, range), 1); // clamped at start, not 0
    assert_eq!(step_forward(3, range), 3); // clamped at end-1
}

#[test]
fn unit_tests_should_derive_step_range_from_comprehension() {
    check_derive_step_range_from_comprehension();
}

#[test]
fn step_buttons_should_derive_step_range_from_comprehension() {
    check_derive_step_range_from_comprehension();
}

#[test]
fn unit_tests_should_fall_back_to_row_span_without_comprehension() {
    check_fall_back_to_row_span_without_comprehension();
}

#[test]
fn step_buttons_should_fall_back_to_row_span_without_comprehension() {
    check_fall_back_to_row_span_without_comprehension();
}

#[test]
fn unit_tests_should_clamp_step_forward_at_last_row() {
    check_clamp_step_forward_at_last_row();
}

#[test]
fn step_buttons_should_clamp_step_forward_at_last_row() {
    check_clamp_step_forward_at_last_row();
}

#[test]
fn unit_tests_should_clamp_step_back_at_first_row() {
    check_clamp_step_back_at_first_row();
}

#[test]
fn step_buttons_should_clamp_step_back_at_first_row() {
    check_clamp_step_back_at_first_row();
}

#[test]
fn unit_tests_should_respect_a_nonzero_range_start() {
    check_respect_a_nonzero_range_start();
}

#[test]
fn step_buttons_should_respect_a_nonzero_range_start() {
    check_respect_a_nonzero_range_start();
}

// - - - - - - - - - - - - - - - - - - - - - - - - - - - - - - - - - - - - - - - - - - - - - - - - - - - - - - - - - - -
// Declared node data: the grid takes its shape and values from `data`, overriding the function-param inference.
// - - - - - - - - - - - - - - - - - - - - - - - - - - - - - - - - - - - - - - - - - - - - - - - - - - - - - - - - - - -

fn check_take_grid_values_and_shape_from_declared_data() {
    let g = sha3_declared(hex_matrix(&[&[0x1, 0x2, 0x3], &[0x4, 0x5, 0x6]]), true);
    let spec = grid_shape("state", decl(&g, "state"), &g).expect("state should be a grid");
    // Shape comes from the 2x3 data literal, not the 5x5 function parameter type.
    assert_eq!((spec.rows, spec.cols), (2, 3));
    assert_eq!(spec.values, Some(vec![vec![1, 2, 3], vec![4, 5, 6]]));
}

#[test]
fn unit_tests_should_take_grid_values_and_shape_from_declared_data() {
    check_take_grid_values_and_shape_from_declared_data();
}

#[test]
fn declared_node_should_take_grid_values_and_shape_from_declared_data() {
    check_take_grid_values_and_shape_from_declared_data();
}

#[test]
fn should_render_a_one_dimensional_array_as_a_single_column() {
    // A 1-D vector (here a `[u64; 4]` data source) is laid out as a single column — one value per row.
    // data V = [ 0x1, 0x2, 0x3, 0x4 ]
    // node v : register { format: hex64, source: V }
    let g = graph(
        vec![],
        vec![data("V", hex_row(&[0x1, 0x2, 0x3, 0x4]))],
        vec![node("v", NodeKind::Register, vec![prop("format", ident("hex64")), prop("source", ident("V"))])],
        vec![],
        None,
    );
    let spec = grid_shape("v", decl(&g, "v"), &g).expect("v should be a grid");
    assert_eq!((spec.rows, spec.cols), (4, 1));
    assert_eq!(spec.values, Some(vec![vec![1], vec![2], vec![3], vec![4]]));
}

// - - - - - - - - - - - - - - - - - - - - - - - - - - - - - - - - - - - - - - - - - - - - - - - - - - - - - - - - - - -
// Inner reduction visualisation — pure helpers.
// - - - - - - - - - - - - - - - - - - - - - - - - - - - - - - - - - - - - - - - - - - - - - - - - - - - - - - - - - - -

fn check_extract_reduction_op_from_comprehension() {
    let g = sha3_state(column_parity());
    assert_eq!(reduction_op("state", &g), Some(BinOp::Xor));
}

fn check_left_fold_the_reduction() {
    assert_eq!(apply_reduce(&BinOp::Xor, &[0x1, 0x2, 0x3]), Some(0x1 ^ 0x2 ^ 0x3)); // == 0
    assert_eq!(apply_reduce(&BinOp::Add, &[10, 20, 12]), Some(42));
    assert_eq!(apply_reduce(&BinOp::Xor, &[0x5]), Some(0x5)); // single element folds to itself
    assert!(apply_reduce(&BinOp::Xor, &[]).is_none(), "an empty row has no reduction");
}

fn check_use_declared_data_as_the_effective_matrix() {
    let g = sha3_declared(hex_matrix(&[&[0x1, 0x2], &[0x3, 0x4]]), true);
    let spec = grid_shape("state", decl(&g, "state"), &g).expect("state should be a grid");
    assert_eq!(effective_matrix(&spec), vec![vec![1u64, 2], vec![3, 4]]);
}

fn check_label_working_row_with_substituted_index() {
    let g = sha3_state(column_parity());
    let (var, expr) = reduction_label_source("state", &g).expect("expected a comprehension reduction");
    assert_eq!(var.as_str(), "x");
    // The `over` operand `a[x]`, with the index variable bound to the current row.
    assert_eq!(expr_label(&expr, &var, 0), "a[0]");
    assert_eq!(expr_label(&expr, &var, 3), "a[3]");
}

fn check_find_reduction_via_compute_without_a_wire() {
    // No `wire state -> c`: the `compute: ThetaC(state)` link alone drives the reduction visualisation.
    let row: &[u64] = &[0x1, 0x2, 0x3, 0x4, 0x5];
    let g = sha3_declared(hex_matrix(&[row, row, row, row, row]), false);
    assert_eq!(reduction_op("state", &g), Some(BinOp::Xor));
    assert_eq!(inferred_grid_shape("state", &g), Some((5, 5)));
    let (var, _) = reduction_label_source("state", &g).expect("expected reduction found via compute");
    assert_eq!(var.as_str(), "x");
}

#[test]
fn unit_tests_should_extract_reduction_op_from_comprehension() {
    check_extract_reduction_op_from_comprehension();
}

#[test]
fn inner_reduction_should_extract_reduction_op_from_comprehension() {
    check_extract_reduction_op_from_comprehension();
}

#[test]
fn unit_tests_should_left_fold_the_reduction() {
    check_left_fold_the_reduction();
}

#[test]
fn inner_reduction_should_left_fold_the_reduction() {
    check_left_fold_the_reduction();
}

#[test]
fn should_label_reduction_operators() {
    assert_eq!(op_symbol(&BinOp::Xor), "xor");
    assert_eq!(op_symbol(&BinOp::And), "and");
    assert_eq!(op_symbol(&BinOp::Or), "or");
    assert_eq!(op_symbol(&BinOp::Add), "+");
}

#[test]
fn should_label_reduction_operators_in_uppercase() {
    // The operation-row boxes label themselves from the operator's display name (uppercase), matching the nested-map
    // visualisation.
    assert_eq!(BinOp::Xor.to_string(), "XOR");
    assert_eq!(BinOp::And.to_string(), "AND");
    assert_eq!(BinOp::Or.to_string(), "OR");
    assert_eq!(BinOp::Add.to_string(), "+");
}

#[test]
fn unit_tests_should_use_declared_data_as_the_effective_matrix() {
    check_use_declared_data_as_the_effective_matrix();
}

#[test]
fn inner_reduction_should_use_declared_data_as_the_effective_matrix() {
    check_use_declared_data_as_the_effective_matrix();
}

#[test]
fn unit_tests_should_label_working_row_with_substituted_index() {
    check_label_working_row_with_substituted_index();
}

#[test]
fn inner_reduction_should_label_working_row_with_substituted_index() {
    check_label_working_row_with_substituted_index();
}

#[test]
fn unit_tests_should_find_reduction_via_compute_without_a_wire() {
    check_find_reduction_via_compute_without_a_wire();
}

#[test]
fn inner_reduction_should_find_reduction_via_compute_without_a_wire() {
    check_find_reduction_via_compute_without_a_wire();
}

// - - - - - - - - - - - - - - - - - - - - - - - - - - - - - - - - - - - - - - - - - - - - - - - - - - - - - - - - - - -
// Nested maps
// - - - - - - - - - - - - - - - - - - - - - - - - - - - - - - - - - - - - - - - - - - - - - - - - - - - - - - - - - - -

#[test]
fn should_detect_a_nested_map_for_the_matrix_input_only() {
    let g = theta_mix();
    let matrix = nested_map("state", &g).expect("expected the matrix input to feed a nested map");
    assert_eq!(matrix.outer_range, (0usize, 5usize));
    assert_eq!(matrix.op_label.as_str(), "XOR");
    assert_eq!(matrix.vec_node.as_str(), "dvec");
    assert_eq!(matrix.op_node.as_str(), "mixed");
    // The broadcast vector is NOT the matrix input, so it gets no fold visualisation of its own.
    assert!(nested_map("dvec", &g).is_none(), "the broadcast vector should not trigger the nested-map viz");
}

#[test]
fn should_render_the_nested_map_operation_as_a_plain_box() {
    let g = theta_mix();
    // The operation node renders as a plain box (its output is built up by the viz), so it has no value grid.
    assert!(is_map_operation(decl(&g, "mixed"), &g), "the nested-map operation should render as a map box");
    assert!(
        grid_shape("mixed", decl(&g, "mixed"), &g).is_none(),
        "the nested-map operation should not draw its own value grid"
    );
    // The inputs still render as grids: the 5x5 state matrix and the broadcast vector as a 5x1 column.
    let state = grid_shape("state", decl(&g, "state"), &g).expect("state grid");
    assert_eq!((state.rows, state.cols), (5usize, 5usize));
    let dvec = grid_shape("dvec", decl(&g, "dvec"), &g).expect("dvec grid");
    assert_eq!((dvec.rows, dvec.cols), (5usize, 1usize));
}

// - - - - - - - - - - - - - - - - - - - - - - - - - - - - - - - - - - - - - - - - - - - - - - - - - - - - - - - - - - -
// Node descriptions: a node's markdown `description` is rendered to HTML for the docs panel.
// - - - - - - - - - - - - - - - - - - - - - - - - - - - - - - - - - - - - - - - - - - - - - - - - - - - - - - - - - - -

fn check_render_node_description_markdown_to_html() {
    let markdown = "\n# Theta-C\n\nXOR the five lanes via `theta_c`.\n\n```rust\nfn theta_c() {}\n```\n";
    let g = graph(
        vec![],
        vec![],
        vec![node("c", NodeKind::Operation, vec![text("symbol", "ThetaC"), text("description", markdown)])],
        vec![],
        None,
    );
    let html = description_html(decl(&g, "c")).expect("expected a rendered description");
    assert!(html.contains("<h1>"), "heading should render to <h1>");
    assert!(html.contains("<code>theta_c</code>"), "inline code should render");
    assert!(html.contains("<pre><code"), "fenced block should render to <pre><code>");
}

fn check_have_no_description_html_when_absent() {
    // node plain : register { format: hex8 }
    let g = graph(vec![], vec![], vec![node("plain", NodeKind::Register, vec![prop("format", ident("hex8"))])], vec![], None);
    assert!(description_html(decl(&g, "plain")).is_none(), "a node without a description should produce no HTML");
}

#[test]
fn unit_tests_should_render_node_description_markdown_to_html() {
    check_render_node_description_markdown_to_html();
}

#[test]
fn description_should_render_node_description_markdown_to_html() {
    check_render_node_description_markdown_to_html();
}

#[test]
fn unit_tests_should_have_no_description_html_when_absent() {
    check_have_no_description_html_when_absent();
}

#[test]
fn description_should_have_no_description_html_when_absent() {
    check_have_no_description_html_when_absent();
}

// - - - - - - - - - - - - - - - - - - - - - - - - - - - - - - - - - - - - - - - - - - - - - - - - - - - - - - - - - - -
// Which step visualisation a grid gets
// - - - - - - - - - - - - - - - - - - - - - - - - - - - - - - - - - - - - - - - - - - - - - - - - - - - - - - - - - - -

#[test]
fn step_view_picks_the_reduction_of_a_wired_column_parity() {
    let g = wired_theta_c();
    match step_view("state", &g) {
        StepView::Reduction { op, label_source } => {
            assert_eq!(op, BinOp::Xor);
            let (var, _) = label_source.expect("the reduction folds over an indexed row");
            assert_eq!(var, "x");
        }
        _ => panic!("expected the reduction visualisation"),
    }
    assert!(matches!(step_view("c", &g), StepView::Plain));
}

#[test]
fn step_view_picks_the_nested_map_for_the_matrix_input_only() {
    let g = theta_mix();
    match step_view("state", &g) {
        StepView::Nested(n) => assert_eq!(n.vec_node, "dvec"),
        _ => panic!("expected the nested-map visualisation"),
    }
    assert!(matches!(step_view("dvec", &g), StepView::Plain));
}

#[test]
fn transport_is_needed_only_when_some_grid_steps() {
    let g = theta_mix();
    assert!(needs_transport(&vec!["dvec".to_string(), "state".to_string()], &g));
    assert!(!needs_transport(&vec!["dvec".to_string()], &g));
    assert!(!needs_transport(&vec![], &g));
}
