//! A validated `.hv` program: its nodes, functions, data bindings and wires, with lookups by name.
//!
//! Every collection is kept in declaration order; a lookup by name finds the first entry with that name.

use vstd::prelude::*;

use crate::ast::{DataDecl, Expr, FnDef, FlowDirection, NodeDecl, PropValue, Property, Wire, WireEndpoint};
use crate::text::same_text;

verus! {

/// A program that passed validation, ready to be laid out and rendered.
#[derive(Debug)]
pub struct ValidatedGraph {
    /// Declared nodes.
    pub nodes: Vec<NodeDecl>,
    /// Function definitions in scope (the file's own and any imported ones).
    pub fn_defs: Vec<FnDef>,
    /// `data` bindings.
    pub data: Vec<DataDecl>,
    /// Declared wires, in source order.
    pub wires: Vec<Wire>,
    /// Node-to-node edges, `(source, target)`.
    pub edges: Vec<(String, String)>,
    /// Topological layering: every node sits in the layer after its deepest predecessor.
    pub layers: Vec<Vec<String>>,
    /// The direction data flows across the diagram.
    pub flow: FlowDirection,
    /// The configured word size in bits, if any.
    pub word_size: Option<u64>,
}

/// The index of the first element of `s` at or after `i` satisfying `p`.
pub open spec fn first_from<T>(s: Seq<T>, p: spec_fn(T) -> bool, i: int) -> Option<int>
    decreases s.len() - i,
{
    if i < 0 || i >= s.len() {
        None
    } else if p(s[i]) {
        Some(i)
    } else {
        first_from(s, p, i + 1)
    }
}

/// The index of the first element of `s` satisfying `p`.
pub open spec fn first_index<T>(s: Seq<T>, p: spec_fn(T) -> bool) -> Option<int> {
    first_from(s, p, 0)
}

/// The first element of `s` satisfying `p`.
pub open spec fn find_first<T>(s: Seq<T>, p: spec_fn(T) -> bool) -> Option<T> {
    match first_index(s, p) {
        Some(i) => Some(s[i]),
        None => None,
    }
}

/// What a search from `i` finds: a matching index with no match before it, or no match at all.
pub proof fn lemma_first_from<T>(s: Seq<T>, p: spec_fn(T) -> bool, i: int)
    requires
        0 <= i,
    ensures
        first_from(s, p, i) matches Some(k) ==> i <= k < s.len() && p(s[k]) && forall|j: int|
            i <= j < k ==> !p(#[trigger] s[j]),
        first_from(s, p, i) is None ==> forall|j: int| i <= j < s.len() ==> !p(#[trigger] s[j]),
    decreases s.len() - i,
{
    if i < s.len() && !p(s[i]) {
        lemma_first_from(s, p, i + 1);
    }
}

/// The value behind an optional reference.
pub open spec fn deref_opt<T>(r: Option<&T>) -> Option<T> {
    match r {
        Some(x) => Some(*x),
        None => None,
    }
}

/// The first `Some` that `f` gives over the elements of `s`, in order.
pub open spec fn first_some<T, U>(s: Seq<T>, f: spec_fn(T) -> Option<U>) -> Option<U>
    decreases s.len(),
{
    if s.len() == 0 {
        None
    } else {
        match f(s[0]) {
            Some(u) => Some(u),
            None => first_some(s.drop_first(), f),
        }
    }
}

/// One step of a `first_some` scan: the answer from position `i` on.
pub proof fn lemma_first_some_skip<T, U>(s: Seq<T>, f: spec_fn(T) -> Option<U>, i: int)
    requires
        0 <= i <= s.len(),
    ensures
        i == 0 ==> s.skip(i) == s,
        i == s.len() ==> first_some(s.skip(i), f) is None,
        i < s.len() ==> first_some(s.skip(i), f) == (match f(s[i]) {
            Some(u) => Some(u),
            None => first_some(s.skip(i + 1), f),
        }),
{
    if i == 0 {
        assert(s.skip(0) =~= s);
    }
    if i == s.len() {
        assert(s.skip(i) =~= Seq::<T>::empty());
    }
    if i < s.len() {
        assert(s.skip(i).drop_first() =~= s.skip(i + 1));
        assert(s.skip(i)[0] == s[i]);
    }
}

pub open spec fn node_named(name: Seq<char>) -> spec_fn(NodeDecl) -> bool {
    |d: NodeDecl| d.name@ == name
}

pub open spec fn fn_named(name: Seq<char>) -> spec_fn(FnDef) -> bool {
    |f: FnDef| f.name@ == name
}

pub open spec fn data_named(name: Seq<char>) -> spec_fn(DataDecl) -> bool {
    |d: DataDecl| d.name@ == name
}

pub open spec fn prop_named(name: Seq<char>) -> spec_fn(Property) -> bool {
    |p: Property| p.name@ == name
}

/// The node declared under `name`.
pub open spec fn node_lookup(g: ValidatedGraph, name: Seq<char>) -> Option<NodeDecl> {
    find_first(g.nodes@, node_named(name))
}

/// The function defined under `name`.
pub open spec fn fn_lookup(g: ValidatedGraph, name: Seq<char>) -> Option<FnDef> {
    find_first(g.fn_defs@, fn_named(name))
}

/// The literal bound by `data <name> = ...`.
pub open spec fn data_lookup(g: ValidatedGraph, name: Seq<char>) -> Option<Expr> {
    match find_first(g.data@, data_named(name)) {
        Some(d) => Some(d.value),
        None => None,
    }
}

/// The (first) property of a node called `key`.
pub open spec fn prop_lookup(decl: NodeDecl, key: Seq<char>) -> Option<PropValue> {
    match find_first(decl.properties@, prop_named(key)) {
        Some(p) => Some(p.value),
        None => None,
    }
}

/// The expression value of a node property (e.g. `source`, `compute`, `format`), if it has one.
pub open spec fn prop_expr(decl: NodeDecl, key: Seq<char>) -> Option<Expr> {
    match prop_lookup(decl, key) {
        Some(PropValue::Expr(e)) => Some(e),
        _ => None,
    }
}

/// The string value of a node property (e.g. `symbol: "ThetaC"`), if it has one.
pub open spec fn prop_str(decl: NodeDecl, key: Seq<char>) -> Option<Seq<char>> {
    match prop_lookup(decl, key) {
        Some(PropValue::Str(s)) => Some(s@),
        _ => None,
    }
}

/// The identifier value of a node property (e.g. `format: hex64`), if it has one.
pub open spec fn prop_ident(decl: NodeDecl, key: Seq<char>) -> Option<Seq<char>> {
    match prop_expr(decl, key) {
        Some(Expr::Ident(s)) => Some(s@),
        _ => None,
    }
}

/// Finds the node declared under `name`.
pub fn find_node<'a>(g: &'a ValidatedGraph, name: &str) -> (r: Option<&'a NodeDecl>)
    ensures
        r matches Some(d) ==> node_lookup(*g, name@) == Some(*d),
        r is None ==> node_lookup(*g, name@) is None,
{
    let ghost p = node_named(name@);
    let mut i: usize = 0;
    while i < g.nodes.len()
        invariant
            i <= g.nodes@.len(),
            p == node_named(name@),
            first_index(g.nodes@, p) == first_from(g.nodes@, p, i as int),
        decreases g.nodes.len() - i,
    {
        if same_text(g.nodes[i].name.as_str(), name) {
            return Some(&g.nodes[i]);
        }
        i += 1;
    }
    None
}

/// Finds the function defined under `name`.
pub fn find_fn<'a>(g: &'a ValidatedGraph, name: &str) -> (r: Option<&'a FnDef>)
    ensures
        r matches Some(f) ==> fn_lookup(*g, name@) == Some(*f),
        r is None ==> fn_lookup(*g, name@) is None,
{
    let ghost p = fn_named(name@);
    let mut i: usize = 0;
    while i < g.fn_defs.len()
        invariant
            i <= g.fn_defs@.len(),
            p == fn_named(name@),
            first_index(g.fn_defs@, p) == first_from(g.fn_defs@, p, i as int),
        decreases g.fn_defs.len() - i,
    {
        if same_text(g.fn_defs[i].name.as_str(), name) {
            return Some(&g.fn_defs[i]);
        }
        i += 1;
    }
    None
}

/// Finds the literal bound to the data name `name`.
pub fn find_data<'a>(g: &'a ValidatedGraph, name: &str) -> (r: Option<&'a Expr>)
    ensures
        r matches Some(e) ==> data_lookup(*g, name@) == Some(*e),
        r is None ==> data_lookup(*g, name@) is None,
{
    let ghost p = data_named(name@);
    let mut i: usize = 0;
    while i < g.data.len()
        invariant
            i <= g.data@.len(),
            p == data_named(name@),
            first_index(g.data@, p) == first_from(g.data@, p, i as int),
        decreases g.data.len() - i,
    {
        if same_text(g.data[i].name.as_str(), name) {
            return Some(&g.data[i].value);
        }
        i += 1;
    }
    None
}

/// Finds the (first) property of `decl` called `key`.
pub fn find_prop<'a>(decl: &'a NodeDecl, key: &str) -> (r: Option<&'a PropValue>)
    ensures
        r matches Some(v) ==> prop_lookup(*decl, key@) == Some(*v),
        r is None ==> prop_lookup(*decl, key@) is None,
{
    let ghost p = prop_named(key@);
    let mut i: usize = 0;
    while i < decl.properties.len()
        invariant
            i <= decl.properties@.len(),
            p == prop_named(key@),
            first_index(decl.properties@, p) == first_from(decl.properties@, p, i as int),
        decreases decl.properties.len() - i,
    {
        if same_text(decl.properties[i].name.as_str(), key) {
            return Some(&decl.properties[i].value);
        }
        i += 1;
    }
    None
}

/// The expression value of a node property (e.g. `source`, `compute`, `format`), if it has one.
pub fn prop_expr_of<'a>(decl: &'a NodeDecl, key: &str) -> (r: Option<&'a Expr>)
    ensures
        r matches Some(e) ==> prop_expr(*decl, key@) == Some(*e),
        r is None ==> prop_expr(*decl, key@) is None,
{
    match find_prop(decl, key) {
        Some(PropValue::Expr(e)) => Some(e),
        _ => None,
    }
}

/// The node name behind a wire endpoint, or `None` for an open (`?`) endpoint.
pub fn node_name(ep: &WireEndpoint) -> (r: Option<&str>)
    ensures
        r matches Some(n) ==> ep matches WireEndpoint::Node(s) && n@ == s@,
        r is None <==> ep is Open,
{
    match ep {
        WireEndpoint::Node(n) => Some(n.as_str()),
        WireEndpoint::Open => None,
    }
}

} // verus!
