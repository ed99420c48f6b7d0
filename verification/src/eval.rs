//! A small evaluator: it computes a node's value so the renderer can show the "before" (input data) and "after"
//! (computed result) values flowing through an operation.
//!
//! Values are either a single word or a 1-D array of words (e.g. SHA-3's column-parity vector). A comprehension maps to
//! an array, `reduce` folds an array to a word, and indexing reads an element. Nested (2-D) arrays aren't evaluated —
//! state grids are shown from their literal data rather than computed.
//!
//! Evaluation is bounded: a chain of more than [`MAX_DEPTH`] node references or calls gives no value, so a cyclic
//! (malformed) program fails gracefully rather than recursing without end.

use vstd::prelude::*;

use crate::ast::{BinOp, Expr, NodeDecl, Param, expr_size, exprs_size, lemma_exprs_size_elem};
use crate::graph::{
    ValidatedGraph, data_lookup, find_data, find_fn, find_node, fn_lookup, node_lookup, prop_expr, prop_expr_of,
};
use crate::word::{apply_binop, binop_value, lemma_binop_in_word, lemma_not_low, low, mask};
use vstd::string::*;
use vstd::arithmetic::power2::{lemma_pow2_pos, pow2};

verus! {

/// Guards against runaway recursion through cyclic node/`compute` references.
pub const MAX_DEPTH: u32 = 64;

/// A value flowing through the graph: a single word, or a 1-D array of words.
#[derive(Debug)]
pub enum Value {
    Scalar(u64),
    Array(Vec<u64>),
}

/// The model of a [`Value`].
pub enum ValueV {
    Scalar(u64),
    Array(Seq<u64>),
}

impl View for Value {
    type V = ValueV;

    open spec fn view(&self) -> ValueV {
        match self {
            Value::Scalar(v) => ValueV::Scalar(*v),
            Value::Array(a) => ValueV::Array(a@),
        }
    }
}

pub open spec fn opt_view(r: Option<Value>) -> Option<ValueV> {
    match r {
        Some(v) => Some(v@),
        None => None,
    }
}

/// A binding environment: function parameters and comprehension variables, most recent binding last.
pub struct Env {
    pub entries: Vec<(String, Value)>,
}

/// The map of names to values that a list of bindings denotes: a later binding of a name hides an earlier one.
pub open spec fn env_map(s: Seq<(String, Value)>) -> Map<Seq<char>, ValueV>
    decreases s.len(),
{
    if s.len() == 0 {
        Map::empty()
    } else {
        env_map(s.drop_last()).insert(s.last().0@, s.last().1@)
    }
}

impl View for Env {
    type V = Map<Seq<char>, ValueV>;

    open spec fn view(&self) -> Map<Seq<char>, ValueV> {
        env_map(self.entries@)
    }
}

/// Bindings after position `k` that do not bind `name` leave its binding unchanged.
proof fn lemma_env_map_suffix(s: Seq<(String, Value)>, k: int, name: Seq<char>)
    requires
        0 <= k <= s.len(),
        forall|j: int| k <= j < s.len() ==> (#[trigger] s[j]).0@ != name,
    ensures
        env_map(s).contains_key(name) == env_map(s.take(k)).contains_key(name),
        env_map(s).contains_key(name) ==> env_map(s)[name] == env_map(s.take(k))[name],
    decreases s.len(),
{
    if k < s.len() {
        let t = s.drop_last();
        assert forall|j: int| k <= j < t.len() implies (#[trigger] t[j]).0@ != name by {
            assert(t[j] == s[j]);
        }
        lemma_env_map_suffix(t, k, name);
        assert(t.take(k) =~= s.take(k));
    } else {
        assert(s.take(k) =~= s);
    }
}

fn copy_words(v: &Vec<u64>) -> (r: Vec<u64>)
    ensures
        r@ == v@,
{
    let mut out: Vec<u64> = Vec::new();
    let mut i: usize = 0;
    while i < v.len()
        invariant
            i <= v.len(),
            out@ == v@.take(i as int),
        decreases v.len() - i,
    {
        out.push(v[i]);
        i += 1;
        proof {
            assert(out@ =~= v@.take(i as int));
        }
    }
    proof {
        assert(v@.take(v.len() as int) =~= v@);
    }
    out
}

fn copy_value(v: &Value) -> (r: Value)
    ensures
        r@ == v@,
{
    match v {
        Value::Scalar(s) => Value::Scalar(*s),
        Value::Array(a) => Value::Array(copy_words(a)),
    }
}

impl Env {
    pub fn new() -> (r: Env)
        ensures
            r@ == Map::<Seq<char>, ValueV>::empty(),
    {
        Env { entries: Vec::new() }
    }

    /// Binds `name` to `value`, hiding any earlier binding of `name`.
    pub fn insert(&mut self, name: String, value: Value)
        ensures
            final(self)@ == old(self)@.insert(name@, value@),
    {
        self.entries.push((name, value));
        proof {
            assert(self.entries@.drop_last() =~= old(self).entries@);
        }
    }

    /// The value bound to `name`.
    pub fn get(&self, name: &str) -> (r: Option<&Value>)
        ensures
            r matches Some(v) ==> self@.contains_key(name@) && self@[name@] == v@,
            r is None ==> !self@.contains_key(name@),
    {
        let mut i = self.entries.len();
        while i > 0
            invariant
                i <= self.entries@.len(),
                forall|j: int| i <= j < self.entries@.len() ==> (#[trigger] self.entries@[j]).0@ != name@,
            decreases i,
        {
            if crate::text::same_text(self.entries[i - 1].0.as_str(), name) {
                proof {
                    let s = self.entries@;
                    lemma_env_map_suffix(s, i as int, name@);
                    assert(s.take(i as int).drop_last() =~= s.take(i - 1));
                }
                return Some(&self.entries[i - 1].1);
            }
            i -= 1;
        }
        proof {
            lemma_env_map_suffix(self.entries@, 0, name@);
        }
        None
    }

    /// A copy of the environment.
    pub fn copy(&self) -> (r: Env)
        ensures
            r@ == self@,
    {
        let mut out = Env::new();
        let mut i: usize = 0;
        while i < self.entries.len()
            invariant
                i <= self.entries@.len(),
                out@ == env_map(self.entries@.take(i as int)),
            decreases self.entries.len() - i,
        {
            let name = self.entries[i].0.clone();
            let value = copy_value(&self.entries[i].1);
            out.insert(name, value);
            i += 1;
            proof {
                assert(self.entries@.take(i as int).drop_last() =~= self.entries@.take(i - 1));
            }
        }
        proof {
            assert(self.entries@.take(self.entries@.len() as int) =~= self.entries@);
        }
        out
    }
}

/// The configured word size in bits (default 64), clamped to `[1, 64]`.
pub open spec fn word_width(g: ValidatedGraph) -> nat {
    let w = match g.word_size {
        Some(w) => w,
        None => 64,
    };
    if w < 1 {
        1
    } else if w > 64 {
        64
    } else {
        w as nat
    }
}

/// Left fold of a non-empty sequence of words with `op` in a `bits`-wide word: `w0 op w1 op …`.
pub open spec fn fold_words(op: BinOp, s: Seq<u64>, bits: nat) -> u64
    decreases s.len(),
{
    if s.len() <= 1 {
        s[0]
    } else {
        binop_value(op, fold_words(op, s.drop_last(), bits), s.last(), bits) as u64
    }
}

/// The value of a node: the literal behind its `source` data binding, or the value of its `compute` expression.
pub open spec fn sem_node(decl: NodeDecl, g: ValidatedGraph, depth: nat) -> Option<ValueV>
    decreases 64 - depth, 1nat, 0nat, 0nat,
{
    if depth >= 64 {
        None
    } else {
        match prop_expr(decl, "source"@) {
            Some(Expr::Ident(source)) => match data_lookup(g, source@) {
                Some(lit) => sem_eval(lit, Map::empty(), g, depth),
                None => None,
            },
            _ => match prop_expr(decl, "compute"@) {
                Some(e) => sem_eval(e, Map::empty(), g, depth),
                None => None,
            },
        }
    }
}

/// The value of `e` when it must be a word.
pub open spec fn sem_scalar(e: Expr, env: Map<Seq<char>, ValueV>, g: ValidatedGraph, depth: nat) -> Option<u64>
    decreases 64 - depth, 0nat, expr_size(e), 1nat,
{
    if depth >= 64 {
        None
    } else {
        match sem_eval(e, env, g, depth) {
            Some(ValueV::Scalar(v)) => Some(v),
            _ => None,
        }
    }
}

/// The value of `e` when it must be an array.
pub open spec fn sem_array(e: Expr, env: Map<Seq<char>, ValueV>, g: ValidatedGraph, depth: nat) -> Option<
    Seq<u64>,
>
    decreases 64 - depth, 0nat, expr_size(e), 1nat,
{
    if depth >= 64 {
        None
    } else {
        match sem_eval(e, env, g, depth) {
            Some(ValueV::Array(a)) => Some(a),
            _ => None,
        }
    }
}

/// The words that the expressions `s` evaluate to, if each evaluates to a word.
pub open spec fn sem_scalars(s: Seq<Expr>, env: Map<Seq<char>, ValueV>, g: ValidatedGraph, depth: nat) -> Option<
    Seq<u64>,
>
    decreases 64 - depth, 0nat, exprs_size(s), 2nat,
{
    if depth >= 64 {
        None
    } else if s.len() == 0 {
        Some(Seq::empty())
    } else {
        match (sem_scalar(s[0], env, g, depth), sem_scalars(s.drop_first(), env, g, depth)) {
            (Some(v), Some(rest)) => Some(seq![v] + rest),
            _ => None,
        }
    }
}

/// The words `body` evaluates to with `var` bound to each of `x, x + 1, …, end - 1` in turn.
pub open spec fn sem_comp(
    var: Seq<char>,
    body: Expr,
    env: Map<Seq<char>, ValueV>,
    g: ValidatedGraph,
    depth: nat,
    x: int,
    end: int,
) -> Option<Seq<u64>>
    decreases 64 - depth, 0nat, expr_size(body), end - x,
{
    if depth >= 64 {
        None
    } else if x >= end {
        Some(Seq::empty())
    } else {
        match (
            sem_scalar(body, env.insert(var, ValueV::Scalar(x as u64)), g, depth + 1),
            sem_comp(var, body, env, g, depth, x + 1, end),
        ) {
            (Some(v), Some(rest)) => Some(seq![v] + rest),
            _ => None,
        }
    }
}

/// The environment a call builds: parameter `i` bound to the value of argument `i`, from position `i` on.
pub open spec fn sem_bind(
    params: Seq<Param>,
    args: Seq<Expr>,
    env: Map<Seq<char>, ValueV>,
    g: ValidatedGraph,
    depth: nat,
    i: int,
    acc: Map<Seq<char>, ValueV>,
) -> Option<Map<Seq<char>, ValueV>>
    decreases 64 - depth, 0nat, exprs_size(args), args.len() - i,
{
    if depth >= 64 {
        None
    } else if i < 0 || i >= args.len() {
        Some(acc)
    } else {
        match sem_eval(args[i], env, g, depth + 1) {
            Some(v) => sem_bind(params, args, env, g, depth, i + 1, acc.insert(params[i].name@, v)),
            None => None,
        }
    }
}

/// The value of `e` in environment `env`. A bare identifier not bound in `env` is a node reference and stands for
/// that node's value. Each node reference or call goes one level deeper; at depth 64 there is no value.
pub open spec fn sem_eval(e: Expr, env: Map<Seq<char>, ValueV>, g: ValidatedGraph, depth: nat) -> Option<ValueV>
    decreases 64 - depth, 0nat, expr_size(e), 0nat,
{
    if depth >= 64 {
        None
    } else {
        let bits = word_width(g);
        match e {
            Expr::Integer(n) => Some(ValueV::Scalar(n)),
            Expr::HexLit(n) => Some(ValueV::Scalar(n)),
            Expr::Ident(name) => if env.contains_key(name@) {
                Some(env[name@])
            } else {
                match node_lookup(g, name@) {
                    Some(decl) => sem_node(decl, g, depth + 1),
                    None => None,
                }
            },
            Expr::Not(inner) => match sem_scalar(*inner, env, g, depth) {
                Some(v) => Some(ValueV::Scalar(low((!v) as int, bits) as u64)),
                None => None,
            },
            Expr::BinOp { op, lhs, rhs } => match (
                sem_scalar(*lhs, env, g, depth),
                sem_scalar(*rhs, env, g, depth),
            ) {
                (Some(a), Some(b)) => Some(ValueV::Scalar(binop_value(op, a, b, bits) as u64)),
                _ => None,
            },
            Expr::Call { name, args } => match fn_lookup(g, name@) {
                Some(def) => if def.params@.len() != args@.len() {
                    None
                } else {
                    match sem_bind(def.params@, args@, env, g, depth, 0, Map::empty()) {
                        Some(child) => sem_eval(def.body, child, g, depth + 1),
                        None => None,
                    }
                },
                None => None,
            },
            Expr::Index { base, index } => match (
                sem_array(*base, env, g, depth),
                sem_scalar(*index, env, g, depth),
            ) {
                (Some(a), Some(i)) => if ((i as usize) as int) < a.len() {
                    Some(ValueV::Scalar(a[(i as usize) as int]))
                } else {
                    None
                },
                _ => None,
            },
            Expr::Array(elems) => match sem_scalars(elems@, env, g, depth) {
                Some(vs) => Some(ValueV::Array(vs)),
                None => None,
            },
            Expr::Comprehension { var, start, end, body } => match sem_comp(
                var@,
                *body,
                env,
                g,
                depth,
                start as int,
                end as int,
            ) {
                Some(vs) => Some(ValueV::Array(vs)),
                None => None,
            },
            Expr::Reduce { op, array } => match sem_array(*array, env, g, depth) {
                Some(vs) => if vs.len() == 0 {
                    None
                } else {
                    Some(ValueV::Scalar(fold_words(op, vs, bits)))
                },
                None => None,
            },
        }
    }
}

/// The configured word size in bits (default 64), clamped to a representable range.
pub fn word_bits(graph: &ValidatedGraph) -> (r: u32)
    ensures
        r as nat == word_width(*graph),
        1 <= r <= 64,
{
    let w = match graph.word_size {
        Some(w) => w,
        None => 64,
    };
    if w < 1 {
        1
    } else if w > 64 {
        64
    } else {
        w as u32
    }
}

/// The scalar value a node carries: the literal behind its `source` data binding, or the result of evaluating its
/// `compute` expression. `None` if it has no value, or its value is an array.
pub fn node_value(decl: &NodeDecl, graph: &ValidatedGraph) -> (r: Option<u64>)
    ensures
        r == (match sem_node(*decl, *graph, 0) {
            Some(ValueV::Scalar(v)) => Some(v),
            _ => None,
        }),
{
    match node_eval(decl, graph, 0) {
        Some(Value::Scalar(v)) => Some(v),
        _ => None,
    }
}

/// The 1-D array value a node carries (e.g. a `[u64; N]` data source or a comprehension result). `None` if it has no
/// value, or its value is scalar.
pub fn node_array(decl: &NodeDecl, graph: &ValidatedGraph) -> (r: Option<Vec<u64>>)
    ensures
        r matches Some(a) ==> sem_node(*decl, *graph, 0) == Some(ValueV::Array(a@)),
        r is None ==> !(sem_node(*decl, *graph, 0) matches Some(ValueV::Array(_))),
{
    match node_eval(decl, graph, 0) {
        Some(Value::Array(a)) => Some(a),
        _ => None,
    }
}

fn node_eval(decl: &NodeDecl, graph: &ValidatedGraph, depth: u32) -> (r: Option<Value>)
    ensures
        opt_view(r) == sem_node(*decl, *graph, depth as nat),
    decreases 64 - depth, 1nat, 0nat, 0nat,
{
    if depth >= MAX_DEPTH {
        return None;
    }
    // A literal data source, e.g. `source: InputData` with `data InputData = [ 0x…, … ]`.
    if let Some(Expr::Ident(source)) = prop_expr_of(decl, "source") {
        return match find_data(graph, source.as_str()) {
            Some(lit) => eval(lit, &Env::new(), graph, depth),
            None => None,
        };
    }
    // A computed value, e.g. `compute: ThetaD(c)`.
    if let Some(expr) = prop_expr_of(decl, "compute") {
        return eval(expr, &Env::new(), graph, depth);
    }
    None
}

/// Evaluates an expression. `env` binds function parameters / comprehension variables to values; a bare identifier not
/// in `env` is treated as a node reference and resolved to that node's value (so `compute: f(a)` resolves `a` to the
/// `a` node's data).
fn eval(expr: &Expr, env: &Env, graph: &ValidatedGraph, depth: u32) -> (r: Option<Value>)
    ensures
        opt_view(r) == sem_eval(*expr, env@, *graph, depth as nat),
    decreases 64 - depth, 0nat, expr_size(*expr), 0nat,
{
    if depth >= MAX_DEPTH {
        return None;
    }
    let bits = word_bits(graph);
    match expr {
        Expr::Integer(n) => Some(Value::Scalar(*n)),
        Expr::HexLit(n) => Some(Value::Scalar(*n)),
        Expr::Ident(name) => match env.get(name.as_str()) {
            Some(v) => Some(copy_value(v)),
            None => match find_node(graph, name.as_str()) {
                Some(decl) => node_eval(decl, graph, depth + 1),
                None => None,
            },
        },
        Expr::Not(e) => {
            let v = eval_scalar(e, env, graph, depth)?;
            Some(Value::Scalar(mask(!v, bits)))
        },
        Expr::BinOp { op, lhs, rhs } => {
            let a = eval_scalar(lhs, env, graph, depth);
            let b = eval_scalar(rhs, env, graph, depth);
            match (a, b) {
                (Some(a), Some(b)) => Some(Value::Scalar(apply_binop(op, a, b, bits))),
                _ => None,
            }
        },
        Expr::Call { name, args } => {
            let def = match find_fn(graph, name.as_str()) {
                Some(def) => def,
                None => return None,
            };
            if def.params.len() != args.len() {
                return None;
            }
            let mut child = Env::new();
            let mut i: usize = 0;
            while i < args.len()
                invariant
                    depth < 64,
                    *expr == (Expr::Call { name: *name, args: *args }),
                    i <= args@.len(),
                    args@.len() == def.params@.len(),
                    fn_lookup(*graph, name@) == Some(*def),
                    expr_size(*expr) == 1 + exprs_size(args@),
                    sem_bind(def.params@, args@, env@, *graph, depth as nat, 0, Map::empty()) == sem_bind(
                        def.params@,
                        args@,
                        env@,
                        *graph,
                        depth as nat,
                        i as int,
                        child@,
                    ),
                decreases args.len() - i,
            {
                let v = match eval(&args[i], env, graph, depth + 1) {
                    Some(v) => v,
                    None => {
                        proof {
                            assert(sem_bind(
                                def.params@,
                                args@,
                                env@,
                                *graph,
                                depth as nat,
                                i as int,
                                child@,
                            ) is None);
                        }
                        return None;
                    },
                };
                child.insert(def.params[i].name.clone(), v);
                i += 1;
            }
            eval(&def.body, &child, graph, depth + 1)
        },
        // `base[index]`: read one element of an array.
        Expr::Index { base, index } => {
            let array = eval_array(base, env, graph, depth);
            let i = eval_scalar(index, env, graph, depth);
            match (array, i) {
                (Some(array), Some(i)) => {
                    let i = i as usize;
                    if i < array.len() {
                        Some(Value::Scalar(array[i]))
                    } else {
                        None
                    }
                },
                _ => None,
            }
        },
        // `[ v0, v1, … ]`: a 1-D array literal of scalars.
        Expr::Array(elems) => {
            let mut values: Vec<u64> = Vec::new();
            let mut i: usize = 0;
            proof {
                assert(elems@.skip(0) =~= elems@);
                assert forall|rest: Seq<u64>| values@ + rest == rest by {
                    assert(values@ + rest =~= rest);
                }
            }
            while i < elems.len()
                invariant
                    depth < 64,
                    *expr == Expr::Array(*elems),
                    i <= elems@.len(),
                    expr_size(*expr) == 1 + exprs_size(elems@),
                    sem_scalars(elems@, env@, *graph, depth as nat) == (match sem_scalars(
                        elems@.skip(i as int),
                        env@,
                        *graph,
                        depth as nat,
                    ) {
                        Some(rest) => Some(values@ + rest),
                        None => None,
                    }),
                decreases elems.len() - i,
            {
                proof {
                    lemma_exprs_size_elem(elems@, i as int);
                    lemma_exprs_size_skip(elems@, i as int);
                    assert(elems@.skip(i as int).drop_first() =~= elems@.skip(i + 1));
                    assert(elems@.skip(i as int)[0] == elems@[i as int]);
                }
                let v = match eval_scalar(&elems[i], env, graph, depth) {
                    Some(v) => v,
                    None => {
                        proof {
                            assert(sem_scalars(elems@.skip(i as int), env@, *graph, depth as nat) is None);
                        }
                        return None;
                    },
                };
                let ghost before = values@;
                values.push(v);
                i += 1;
                proof {
                    assert(values@ == before + seq![v]);
                    assert forall|rest: Seq<u64>| before + (seq![v] + rest) == values@ + rest by {
                        assert(before + (seq![v] + rest) =~= values@ + rest);
                    }
                }
            }
            proof {
                assert(elems@.skip(i as int) =~= Seq::<Expr>::empty());
                assert(values@ + Seq::<u64>::empty() =~= values@);
            }
            Some(Value::Array(values))
        },
        // `[ for x in start..end => body ]`: map each `x` to a scalar, collecting an array.
        Expr::Comprehension { var, start, end, body } => {
            let mut out: Vec<u64> = Vec::new();
            let mut x: u64 = *start;
            proof {
                assert forall|rest: Seq<u64>| out@ + rest == rest by {
                    assert(out@ + rest =~= rest);
                }
            }
            while x < *end
                invariant
                    depth < 64,
                    *expr == (Expr::Comprehension { var: *var, start: *start, end: *end, body: *body }),
                    *start <= x || *end <= *start,
                    x <= *end || *end <= *start,
                    expr_size(*expr) == 1 + expr_size(**body),
                    sem_comp(var@, **body, env@, *graph, depth as nat, *start as int, *end as int) == (
                    match sem_comp(var@, **body, env@, *graph, depth as nat, x as int, *end as int) {
                        Some(rest) => Some(out@ + rest),
                        None => None,
                    }),
                decreases *end - x,
            {
                let mut child = env.copy();
                child.insert(var.clone(), Value::Scalar(x));
                let v = match eval_scalar(body, &child, graph, depth + 1) {
                    Some(v) => v,
                    None => {
                        proof {
                            assert(child@ == env@.insert(var@, ValueV::Scalar(x)));
                            assert(sem_comp(var@, **body, env@, *graph, depth as nat, x as int, *end as int)
                                is None);
                        }
                        return None;
                    },
                };
                let ghost before = out@;
                out.push(v);
                x += 1;
                proof {
                    assert forall|rest: Seq<u64>| before + (seq![v] + rest) == out@ + rest by {
                        assert(before + (seq![v] + rest) =~= out@ + rest);
                    }
                }
            }
            proof {
                assert(out@ + Seq::<u64>::empty() =~= out@);
            }
            Some(Value::Array(out))
        },
        // `reduce <op> over array`: fold an array to a scalar with an associative operator.
        Expr::Reduce { op, array } => {
            let values = eval_array(array, env, graph, depth)?;
            if values.len() == 0 {
                return None;
            }
            let mut acc = values[0];
            let mut i: usize = 1;
            while i < values.len()
                invariant
                    1 <= i <= values@.len(),
                    1 <= bits <= 64,
                    acc == fold_words(*op, values@.take(i as int), bits as nat),
                decreases values.len() - i,
            {
                proof {
                    assert(values@.take(i + 1).drop_last() =~= values@.take(i as int));
                }
                acc = apply_binop(op, acc, values[i], bits);
                i += 1;
            }
            proof {
                assert(values@.take(values@.len() as int) =~= values@);
            }
            Some(Value::Scalar(acc))
        },
    }
}

/// Splitting a sequence of expressions at `i` splits its size.
proof fn lemma_exprs_size_skip(s: Seq<Expr>, i: int)
    requires
        0 <= i <= s.len(),
    ensures
        exprs_size(s.skip(i)) <= exprs_size(s),
    decreases i,
{
    if i > 0 {
        lemma_exprs_size_skip(s.drop_first(), i - 1);
        assert(s.drop_first().skip(i - 1) =~= s.skip(i));
    } else {
        assert(s.skip(0) =~= s);
    }
}

/// Evaluates `expr`, requiring a scalar result.
fn eval_scalar(expr: &Expr, env: &Env, graph: &ValidatedGraph, depth: u32) -> (r: Option<u64>)
    ensures
        r == sem_scalar(*expr, env@, *graph, depth as nat),
    decreases 64 - depth, 0nat, expr_size(*expr), 1nat,
{
    if depth >= MAX_DEPTH {
        return None;
    }
    match eval(expr, env, graph, depth) {
        Some(Value::Scalar(v)) => Some(v),
        _ => None,
    }
}

/// Evaluates `expr`, requiring an array result.
fn eval_array(expr: &Expr, env: &Env, graph: &ValidatedGraph, depth: u32) -> (r: Option<Vec<u64>>)
    ensures
        r matches Some(a) ==> sem_array(*expr, env@, *graph, depth as nat) == Some(a@),
        r is None ==> sem_array(*expr, env@, *graph, depth as nat) is None,
    decreases 64 - depth, 0nat, expr_size(*expr), 1nat,
{
    if depth >= MAX_DEPTH {
        return None;
    }
    match eval(expr, env, graph, depth) {
        Some(Value::Array(a)) => Some(a),
        _ => None,
    }
}

/// Evaluates `expr` as a scalar with the comprehension variable `var` bound to `x` and the array parameter `array`
/// bound to `values`. The map visualiser uses this to compute each sub-expression of a comprehension body for a chosen
/// `x` (e.g. `c[(x + 1) mod 5]`, `rotl(…, 1)`, the final `xor`).
pub fn eval_scalar_with(
    expr: &Expr,
    var: &str,
    x: u64,
    array: &str,
    values: &[u64],
    graph: &ValidatedGraph,
) -> (r: Option<u64>)
    ensures
        r == sem_scalar(
            *expr,
            Map::empty().insert(var@, ValueV::Scalar(x)).insert(array@, ValueV::Array(values@)),
            *graph,
            0,
        ),
{
    let mut env = Env::new();
    env.insert(String::from_str(var), Value::Scalar(x));
    let mut copy: Vec<u64> = Vec::new();
    let mut i: usize = 0;
    while i < values.len()
        invariant
            i <= values@.len(),
            copy@ == values@.take(i as int),
        decreases values.len() - i,
    {
        copy.push(values[i]);
        i += 1;
        proof {
            assert(copy@ =~= values@.take(i as int));
        }
    }
    proof {
        assert(values@.take(values@.len() as int) =~= values@);
    }
    env.insert(String::from_str(array), Value::Array(copy));
    eval_scalar(expr, &env, graph, 0)
}

/// A node whose value is its own value has none: evaluation of such a cycle ends in no value rather than recursing
/// without end.
pub proof fn lemma_self_reference_has_no_value(decl: NodeDecl, g: ValidatedGraph, depth: nat)
    requires
        node_lookup(g, decl.name@) == Some(decl),
        !(prop_expr(decl, "source"@) matches Some(Expr::Ident(_))),
        prop_expr(decl, "compute"@) matches Some(Expr::Ident(n)) && n@ == decl.name@,
    ensures
        sem_node(decl, g, depth) is None,
    decreases 64 - depth,
{
    if depth < 64 {
        lemma_self_reference_has_no_value(decl, g, depth + 1);
    }
}


/// `not e` flips every bit of the configured word: its value is `2^bits - 1` minus the value of `e` reduced to the
/// word, and it has a value exactly when `e` has a word value.
pub proof fn lemma_not_complements_within_word(inner: Expr, env: Map<Seq<char>, ValueV>, g: ValidatedGraph, depth: nat)
    ensures
        sem_eval(Expr::Not(Box::new(inner)), env, g, depth) == (match sem_scalar(inner, env, g, depth) {
            Some(v) => Some(ValueV::Scalar((pow2(word_width(g)) - 1 - (v as int) % (pow2(word_width(g)) as int)) as u64)),
            None => None,
        }),
{
    if depth < 64 {
        match sem_scalar(inner, env, g, depth) {
            Some(v) => {
                lemma_not_low(v, word_width(g));
            },
            None => {},
        }
    }
}

/// The operators keep their results within the configured word: the value of `not e` or of `a op b` is below
/// `2^bits`.
pub proof fn lemma_operators_stay_in_word(e: Expr, env: Map<Seq<char>, ValueV>, g: ValidatedGraph, depth: nat)
    requires
        e is Not || e is BinOp,
    ensures
        sem_eval(e, env, g, depth) matches Some(ValueV::Scalar(w)) ==> w < pow2(word_width(g)),
{
    if depth < 64 {
        let bits = word_width(g);
        lemma_pow2_pos(bits);
        match e {
            Expr::Not(inner) => {
                lemma_not_complements_within_word(*inner, env, g, depth);
            },
            Expr::BinOp { op, lhs, rhs } => {
                match (sem_scalar(*lhs, env, g, depth), sem_scalar(*rhs, env, g, depth)) {
                    (Some(a), Some(b)) => {
                        lemma_binop_in_word(op, a, b, bits);
                    },
                    _ => {},
                }
            },
            _ => {},
        }
    }
}

} // verus!
