//! The syntax tree of a `.hv` program: expressions, function definitions and node declarations.

use vstd::prelude::*;

verus! {

/// Binary operators of the DSL. Shifts and rotations come in signed (`_s`) and unsigned (`_u`) forms.
#[derive(Debug, PartialEq, Eq, Structural, Clone, Copy)]
pub enum BinOp {
    Or,
    Xor,
    And,
    Add,
    Sub,
    Mod,
    Shl,
    ShrU,
    ShrS,
    RotrU,
    RotrS,
    RotlU,
    RotlS,
}

/// An expression of the DSL.
#[derive(Debug)]
pub enum Expr {
    Integer(u64),
    HexLit(u64),
    Ident(String),
    Not(Box<Expr>),
    BinOp { op: BinOp, lhs: Box<Expr>, rhs: Box<Expr> },
    Call { name: String, args: Vec<Expr> },
    Index { base: Box<Expr>, index: Box<Expr> },
    Array(Vec<Expr>),
    Comprehension { var: String, start: u64, end: u64, body: Box<Expr> },
    Reduce { op: BinOp, array: Box<Expr> },
}

/// A parameter or value type: a word of a given width, or a fixed-length array.
#[derive(Debug)]
pub enum Type {
    U8,
    U16,
    U32,
    U64,
    Array { element: Box<Type>, len: usize },
}

/// A function parameter.
#[derive(Debug)]
pub struct Param {
    pub name: String,
    pub ty: Type,
}

/// `fn <name>(<params>) -> <ret> = <body>`
#[derive(Debug)]
pub struct FnDef {
    pub name: String,
    pub params: Vec<Param>,
    pub ret: Type,
    pub body: Expr,
}

/// The value of a node property: an expression (`compute: f(a)`, `format: hex8`) or a string (`label: "A"`).
#[derive(Debug)]
pub enum PropValue {
    Expr(Expr),
    Str(String),
}

/// `<name>: <value>` inside a node declaration.
#[derive(Debug)]
pub struct Property {
    pub name: String,
    pub value: PropValue,
}

/// The kind of a declared node.
#[derive(Debug)]
pub enum NodeKind {
    Register,
    Operation,
    Constant,
    Button,
    User(String),
}

/// `node <name> : <kind> { <properties> }`
#[derive(Debug)]
pub struct NodeDecl {
    pub name: String,
    pub kind: NodeKind,
    pub properties: Vec<Property>,
}

/// One end of a wire: a named node, or an open (`?`) end.
#[derive(Debug)]
pub enum WireEndpoint {
    Node(String),
    Open,
}

/// `wire <source> -> <target>`, optionally named.
#[derive(Debug)]
pub struct Wire {
    pub name: Option<String>,
    pub source: WireEndpoint,
    pub target: WireEndpoint,
}

/// The direction in which data flows across the diagram.
#[derive(Debug, PartialEq, Eq, Structural, Clone, Copy)]
pub enum FlowDirection {
    LeftToRight,
    RightToLeft,
    TopToBottom,
    BottomToTop,
}

/// `data <name> = <value>`: a named literal a node can take as its `source`.
#[derive(Debug)]
pub struct DataDecl {
    pub name: String,
    pub value: Expr,
}

/// A measure of an expression's size: one per node of the tree.
pub open spec fn expr_size(e: Expr) -> nat
    decreases e, 0nat,
{
    match e {
        Expr::Not(inner) => 1 + expr_size(*inner),
        Expr::BinOp { lhs, rhs, .. } => 1 + expr_size(*lhs) + expr_size(*rhs),
        Expr::Call { args, .. } => 1 + exprs_size(args@),
        Expr::Index { base, index } => 1 + expr_size(*base) + expr_size(*index),
        Expr::Array(elems) => 1 + exprs_size(elems@),
        Expr::Comprehension { body, .. } => 1 + expr_size(*body),
        Expr::Reduce { array, .. } => 1 + expr_size(*array),
        _ => 1,
    }
}

/// The total size of a sequence of expressions.
pub open spec fn exprs_size(s: Seq<Expr>) -> nat
    decreases s, s.len(),
{
    if s.len() == 0 {
        0
    } else {
        expr_size(s[0]) + exprs_size(s.drop_first())
    }
}

/// The mathematical model of an expression: names as character sequences, sub-expression lists as sequences.
pub enum ExprV {
    Integer(u64),
    HexLit(u64),
    Ident(Seq<char>),
    Not(Box<ExprV>),
    BinOp { op: BinOp, lhs: Box<ExprV>, rhs: Box<ExprV> },
    Call { name: Seq<char>, args: Seq<ExprV> },
    Index { base: Box<ExprV>, index: Box<ExprV> },
    Array(Seq<ExprV>),
    Comprehension { var: Seq<char>, start: u64, end: u64, body: Box<ExprV> },
    Reduce { op: BinOp, array: Box<ExprV> },
}

/// The model of an expression.
pub open spec fn expr_view(e: Expr) -> ExprV
    decreases e, 0nat,
{
    match e {
        Expr::Integer(n) => ExprV::Integer(n),
        Expr::HexLit(n) => ExprV::HexLit(n),
        Expr::Ident(s) => ExprV::Ident(s@),
        Expr::Not(inner) => ExprV::Not(Box::new(expr_view(*inner))),
        Expr::BinOp { op, lhs, rhs } => ExprV::BinOp {
            op,
            lhs: Box::new(expr_view(*lhs)),
            rhs: Box::new(expr_view(*rhs)),
        },
        Expr::Call { name, args } => ExprV::Call { name: name@, args: exprs_view(args@) },
        Expr::Index { base, index } => ExprV::Index {
            base: Box::new(expr_view(*base)),
            index: Box::new(expr_view(*index)),
        },
        Expr::Array(elems) => ExprV::Array(exprs_view(elems@)),
        Expr::Comprehension { var, start, end, body } => ExprV::Comprehension {
            var: var@,
            start,
            end,
            body: Box::new(expr_view(*body)),
        },
        Expr::Reduce { op, array } => ExprV::Reduce { op, array: Box::new(expr_view(*array)) },
    }
}

/// The models of a sequence of expressions.
pub open spec fn exprs_view(s: Seq<Expr>) -> Seq<ExprV>
    decreases s, s.len(),
{
    if s.len() == 0 {
        Seq::empty()
    } else {
        seq![expr_view(s[0])] + exprs_view(s.drop_first())
    }
}

impl View for Expr {
    type V = ExprV;

    open spec fn view(&self) -> ExprV {
        expr_view(*self)
    }
}

/// The model of a sequence has one entry per expression, each the model of that expression.
pub proof fn lemma_exprs_view(s: Seq<Expr>)
    ensures
        exprs_view(s).len() == s.len(),
        forall|i: int| 0 <= i < s.len() ==> #[trigger] exprs_view(s)[i] == expr_view(s[i]),
    decreases s.len(),
{
    if s.len() > 0 {
        lemma_exprs_view(s.drop_first());
        assert forall|i: int| 0 <= i < s.len() implies #[trigger] exprs_view(s)[i] == expr_view(s[i]) by {
            if i > 0 {
                assert(s.drop_first()[i - 1] == s[i]);
            }
        }
    }
}

/// Two sequences of expressions with equal element models have equal models.
pub proof fn lemma_exprs_view_eq(a: Seq<Expr>, b: Seq<Expr>)
    requires
        a.len() == b.len(),
        forall|i: int| 0 <= i < a.len() ==> expr_view(#[trigger] a[i]) == expr_view(b[i]),
    ensures
        exprs_view(a) == exprs_view(b),
{
    lemma_exprs_view(a);
    lemma_exprs_view(b);
    assert(exprs_view(a) =~= exprs_view(b));
}

/// Each element of a sequence is no larger than the whole sequence.
pub proof fn lemma_exprs_size_elem(s: Seq<Expr>, i: int)
    requires
        0 <= i < s.len(),
    ensures
        expr_size(s[i]) <= exprs_size(s),
    decreases s.len(),
{
    if i > 0 {
        lemma_exprs_size_elem(s.drop_first(), i - 1);
    }
}

/// A deep copy of an expression.
pub fn copy_expr(e: &Expr) -> (r: Expr)
    ensures
        r@ == e@,
    decreases expr_size(*e),
{
    match e {
        Expr::Integer(n) => Expr::Integer(*n),
        Expr::HexLit(n) => Expr::HexLit(*n),
        Expr::Ident(s) => Expr::Ident(s.clone()),
        Expr::Not(inner) => Expr::Not(Box::new(copy_expr(inner))),
        Expr::BinOp { op, lhs, rhs } => Expr::BinOp {
            op: *op,
            lhs: Box::new(copy_expr(lhs)),
            rhs: Box::new(copy_expr(rhs)),
        },
        Expr::Call { name, args } => Expr::Call { name: name.clone(), args: copy_exprs(args, Ghost(*e)) },
        Expr::Index { base, index } => Expr::Index {
            base: Box::new(copy_expr(base)),
            index: Box::new(copy_expr(index)),
        },
        Expr::Array(elems) => Expr::Array(copy_exprs(elems, Ghost(*e))),
        Expr::Comprehension { var, start, end, body } => Expr::Comprehension {
            var: var.clone(),
            start: *start,
            end: *end,
            body: Box::new(copy_expr(body)),
        },
        Expr::Reduce { op, array } => Expr::Reduce { op: *op, array: Box::new(copy_expr(array)) },
    }
}

/// A deep copy of the expressions held by `parent`.
fn copy_exprs(v: &Vec<Expr>, Ghost(parent): Ghost<Expr>) -> (r: Vec<Expr>)
    requires
        exprs_size(v@) < expr_size(parent),
    ensures
        exprs_view(r@) == exprs_view(v@),
        r@.len() == v@.len(),
    decreases expr_size(parent), 0nat,
{
    let mut out: Vec<Expr> = Vec::new();
    let mut i: usize = 0;
    while i < v.len()
        invariant
            i <= v.len(),
            out@.len() == i,
            forall|j: int| 0 <= j < i ==> expr_view(#[trigger] out@[j]) == expr_view(v@[j]),
            exprs_size(v@) < expr_size(parent),
        decreases v.len() - i,
    {
        proof {
            lemma_exprs_size_elem(v@, i as int);
        }
        out.push(copy_expr(&v[i]));
        i += 1;
    }
    proof {
        lemma_exprs_view_eq(out@, v@);
    }
    out
}

impl Clone for Expr {
    fn clone(&self) -> (r: Self)
        ensures
            r@ == self@,
    {
        copy_expr(self)
    }
}

} // verus!
