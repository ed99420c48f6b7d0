//! Text shown in the diagram: operator glyphs, node labels and fills, cell values grouped into bytes, and expression
//! labels with the index variable substituted.

use vstd::prelude::*;
use vstd::arithmetic::power2::{pow2, lemma_pow2_adds, lemma_pow2_pos, lemma_pow2_strictly_increases};
use vstd::arithmetic::div_mod::lemma_multiply_divide_lt;
use vstd::string::*;

use crate::ast::{BinOp, Expr, ExprV, NodeDecl, NodeKind, PropValue, expr_size, exprs_size, exprs_view, lemma_exprs_size_elem, lemma_exprs_view};
use crate::graph::{find_prop, prop_lookup, prop_ident};
use crate::inspect::ident_prop;
use crate::text::{padded_hex, push_char, push_padded_hex, push_radix, radix_text, same_text, lemma_radix_text_len};
use crate::word::{low, mask};

verus! {

// - - - - - - - - - - - - - - - - - - - - - - - - - - - - - - - - - - - - - - - - - - - - - - - - - - - - - - - - - - -
// Operators
// - - - - - - - - - - - - - - - - - - - - - - - - - - - - - - - - - - - - - - - - - - - - - - - - - - - - - - - - - - -

/// The display name of an operator: the DSL keyword in capitals, or the arithmetic sign.
pub open spec fn op_text(op: BinOp) -> Seq<char> {
    match op {
        BinOp::Or => "OR"@,
        BinOp::Xor => "XOR"@,
        BinOp::And => "AND"@,
        BinOp::Add => "+"@,
        BinOp::Sub => "-"@,
        BinOp::Mod => "MOD"@,
        BinOp::Shl => "SHL"@,
        BinOp::ShrU => "SHR_U"@,
        BinOp::ShrS => "SHR_S"@,
        BinOp::RotrU => "ROTR_U"@,
        BinOp::RotrS => "ROTR_S"@,
        BinOp::RotlU => "ROTL_U"@,
        BinOp::RotlS => "ROTL_S"@,
    }
}

impl BinOp {
    /// The display name of the operator (e.g. `XOR`), as shown in operation boxes.
    pub fn to_string(&self) -> (r: String)
        ensures
            r@ == op_text(*self),
    {
        let text = match self {
            BinOp::Or => "OR",
            BinOp::Xor => "XOR",
            BinOp::And => "AND",
            BinOp::Add => "+",
            BinOp::Sub => "-",
            BinOp::Mod => "MOD",
            BinOp::Shl => "SHL",
            BinOp::ShrU => "SHR_U",
            BinOp::ShrS => "SHR_S",
            BinOp::RotrU => "ROTR_U",
            BinOp::RotrS => "ROTR_S",
            BinOp::RotlU => "ROTL_U",
            BinOp::RotlS => "ROTL_S",
        };
        String::from_str(text)
    }
}

/// Display glyph for a reduction operator, shown in the operation-row boxes.
pub fn op_symbol(op: &BinOp) -> (r: &'static str)
    ensures
        r@ == (match *op {
            BinOp::Xor => "xor"@,
            BinOp::And => "and"@,
            BinOp::Or => "or"@,
            BinOp::Add => "+"@,
            _ => "?"@,
        }),
{
    match op {
        BinOp::Xor => "xor",
        BinOp::And => "and",
        BinOp::Or => "or",
        BinOp::Add => "+",
        _ => "?",
    }
}

// - - - - - - - - - - - - - - - - - - - - - - - - - - - - - - - - - - - - - - - - - - - - - - - - - - - - - - - - - - -
// Nodes
// - - - - - - - - - - - - - - - - - - - - - - - - - - - - - - - - - - - - - - - - - - - - - - - - - - - - - - - - - - -

/// Box fill colour for each node kind.
pub fn fill_for(kind: &NodeKind) -> (r: &'static str)
    ensures
        r@ == (match *kind {
            NodeKind::Register => "steelblue"@,
            NodeKind::Operation => "darkgoldenrod"@,
            NodeKind::Constant => "seagreen"@,
            NodeKind::Button => "slategray"@,
            NodeKind::User(_) => "dimgray"@,
        }),
{
    match kind {
        NodeKind::Register => "steelblue",
        NodeKind::Operation => "darkgoldenrod",
        NodeKind::Constant => "seagreen",
        NodeKind::Button => "slategray",
        NodeKind::User(_) => "dimgray",
    }
}

/// The visible label of a node: its `label` string property, else its `symbol` string property, else its name.
pub open spec fn label_of(decl: NodeDecl) -> Seq<char> {
    match prop_lookup(decl, "label"@) {
        Some(PropValue::Str(s)) => s@,
        _ => match prop_lookup(decl, "symbol"@) {
            Some(PropValue::Str(s)) => s@,
            _ => decl.name@,
        },
    }
}

/// Visible label: the `label` or `symbol` string property if present, otherwise the node name.
pub fn node_label(decl: &NodeDecl) -> (r: String)
    ensures
        r@ == label_of(*decl),
{
    if let Some(PropValue::Str(s)) = find_prop(decl, "label") {
        return s.clone();
    }
    if let Some(PropValue::Str(s)) = find_prop(decl, "symbol") {
        return s.clone();
    }
    decl.name.clone()
}

// - - - - - - - - - - - - - - - - - - - - - - - - - - - - - - - - - - - - - - - - - - - - - - - - - - - - - - - - - - -
// Cell values
// - - - - - - - - - - - - - - - - - - - - - - - - - - - - - - - - - - - - - - - - - - - - - - - - - - - - - - - - - - -

/// Number of inter-byte gaps in a `digits`-digit value: one fewer than the byte count (0 for a single-byte hex8 value).
pub fn byte_separators(digits: usize) -> (r: usize)
    ensures
        r == if digits / 2 >= 1 {
            digits / 2 - 1
        } else {
            0
        },
{
    let bytes = digits / 2;
    if bytes >= 1 {
        bytes - 1
    } else {
        0
    }
}

/// The number of hex digits a `format` identifier displays: 4 for `hex16`, 8 for `hex32`, 16 for `hex64`, and 2 (hex8)
/// for anything else.
pub open spec fn format_width(format: Option<Seq<char>>) -> usize {
    match format {
        Some(f) => if f == "hex16"@ {
            4
        } else if f == "hex32"@ {
            8
        } else if f == "hex64"@ {
            16
        } else {
            2
        },
        None => 2,
    }
}

/// Number of hex digits the node's `format` displays. Defaults to 2 (hex8) when absent or unrecognised.
pub fn format_digits(decl: &NodeDecl) -> (r: usize)
    ensures
        r == format_width(prop_ident(*decl, "format"@)),
{
    match ident_prop(decl, "format") {
        Some(f) => {
            if same_text(f.as_str(), "hex16") {
                4
            } else if same_text(f.as_str(), "hex32") {
                8
            } else if same_text(f.as_str(), "hex64") {
                16
            } else {
                2
            }
        },
        None => 2,
    }
}

/// `s` with a space before every character at an even position other than the first: the characters grouped in
/// pairs (bytes of hex digits), separated by single spaces.
pub open spec fn spaced_pairs(s: Seq<char>) -> Seq<char>
    decreases s.len(),
{
    if s.len() == 0 {
        Seq::empty()
    } else if s.len() >= 3 && (s.len() - 1) % 2 == 0 {
        spaced_pairs(s.drop_last()) + seq![' ', s.last()]
    } else {
        spaced_pairs(s.drop_last()).push(s.last())
    }
}

/// A value as shown in a cell of a `digits`-digit format: reduced to `4 * digits` bits, written in hexadecimal padded
/// with zeros to `digits` digits, and grouped into bytes.
pub open spec fn cell_text(value: u64, digits: nat) -> Seq<char> {
    spaced_pairs(padded_hex(low(value as int, 4 * digits) as nat, digits))
}

/// Formats a value for display: masked to the format's bit width and grouped into bytes (pairs of hex digits) separated
/// by a small gap. A single-byte hex8 value has no gap.
pub fn format_value(value: u64, digits: usize) -> (r: String)
    requires
        digits <= usize::MAX / 4,
    ensures
        r@ == cell_text(value, digits as nat),
{
    let bits = digits * 4;
    let masked = if bits >= 64 {
        value
    } else {
        mask(value, bits as u32)
    };
    proof {
        if bits >= 64 {
            lemma_pow2_le_bits_64(bits as nat);
            vstd::arithmetic::div_mod::lemma_small_mod(value as nat, pow2(bits as nat));
        }
    }
    let mut hex = String::new();
    push_padded_hex(&mut hex, masked, digits);
    let n = hex.as_str().unicode_len();
    let mut out = String::new();
    let mut i: usize = 0;
    while i < n
        invariant
            n == hex@.len(),
            i <= n,
            out@ == spaced_pairs(hex@.take(i as int)),
        decreases n - i,
    {
        let c = hex.as_str().get_char(i);
        if i >= 2 && i % 2 == 0 {
            push_char(&mut out, ' ');
        }
        push_char(&mut out, c);
        proof {
            let t = hex@.take(i + 1);
            assert(t.drop_last() =~= hex@.take(i as int));
            assert(out@ =~= spaced_pairs(t));
        }
        i += 1;
    }
    proof {
        assert(hex@.take(n as int) =~= hex@);
    }
    out
}

proof fn lemma_pow2_le_bits_64(bits: nat)
    requires
        bits >= 64,
    ensures
        pow2(bits) >= 0x1_0000_0000_0000_0000,
{
    vstd::arithmetic::power2::lemma2_to64();
    if bits > 64 {
        lemma_pow2_strictly_increases(64, bits);
    }
}

/// The placeholder of cell `index`: `index + 1` times a fixed odd constant, modulo `2^64`.
pub open spec fn placeholder(index: int) -> u64 {
    (((index + 1) * 0x9E37_79B9_7F4A_7C15) % 0x1_0000_0000_0000_0000) as u64
}

/// Grouping into pairs adds one space per pair after the first.
pub proof fn lemma_spaced_pairs_len(s: Seq<char>)
    ensures
        spaced_pairs(s).len() == if s.len() == 0 {
            0
        } else {
            s.len() + (s.len() - 1) / 2
        },
    decreases s.len(),
{
    if s.len() > 0 {
        lemma_spaced_pairs_len(s.drop_last());
    }
}

/// A number below `16^w` has at most `w` hex digits.
proof fn lemma_hex_len(n: nat, w: nat)
    requires
        w >= 1,
        n < pow2(4 * w),
    ensures
        radix_text(n, 16).len() <= w,
    decreases w,
{
    lemma_radix_text_len(n, 16);
    if n >= 16 {
        vstd::arithmetic::power2::lemma2_to64();
        if w == 1 {
            assert(pow2(4) == 16);
        } else {
            lemma_pow2_adds(4, (4 * w - 4) as nat);
            assert(4 + (4 * w - 4) == 4 * w);
            assert(pow2(4 * w) == 16 * pow2((4 * (w - 1)) as nat));
            lemma_multiply_divide_lt(n as int, 16, pow2((4 * (w - 1)) as nat) as int);
            lemma_hex_len(n / 16, (w - 1) as nat);
        }
    }
}

/// A cell of a `digits`-digit format (an even number of at least two) shows exactly `digits` hex digits and one gap
/// between each pair of bytes: as many gaps as [`byte_separators`] counts, so it fills the width the cell is given.
pub proof fn lemma_cell_text_width(value: u64, digits: nat)
    requires
        digits >= 2,
        digits % 2 == 0,
    ensures
        padded_hex(low(value as int, 4 * digits) as nat, digits).len() == digits,
        cell_text(value, digits).len() == digits + (digits / 2 - 1),
{
    let bits = 4 * digits;
    lemma_pow2_pos(bits);
    crate::word::lemma_low_range(value as int, bits);
    let n = low(value as int, bits) as nat;
    lemma_hex_len(n, digits);
    let t = radix_text(n, 16);
    assert(padded_hex(n, digits).len() == digits);
    lemma_spaced_pairs_len(padded_hex(n, digits));
}

/// Placeholder cell value used when a node declares no data: a deterministic spread so the full cell width is visibly
/// used.
pub fn placeholder_value(index: usize) -> (r: u64)
    requires
        index < u64::MAX,
    ensures
        r == placeholder(index as int),
{
    let i = index as u64;
    proof {
        assert(index as int == i as int);
    }
    (i + 1).wrapping_mul(0x9E37_79B9_7F4A_7C15)
}

// - - - - - - - - - - - - - - - - - - - - - - - - - - - - - - - - - - - - - - - - - - - - - - - - - - - - - - - - - - -
// Expression labels
// - - - - - - - - - - - - - - - - - - - - - - - - - - - - - - - - - - - - - - - - - - - - - - - - - - - - - - - - - - -

/// The label of an expression with the index variable `var` standing for `value`: identifiers and calls as written,
/// integers in decimal, hex literals as `0x` and lower-case hex digits, operands of a binary operator parenthesised
/// when they are binary operations themselves, and `…` for a nested comprehension or reduction.
pub open spec fn label_text(e: ExprV, var: Seq<char>, value: nat) -> Seq<char>
    decreases e, 0nat,
{
    match e {
        ExprV::Ident(s) => if s == var {
            radix_text(value, 10)
        } else {
            s
        },
        ExprV::Integer(n) => radix_text(n as nat, 10),
        ExprV::HexLit(n) => seq!['0', 'x'] + radix_text(n as nat, 16),
        ExprV::Index { base, index } => label_text(*base, var, value) + seq!['['] + label_text(*index, var, value)
            + seq![']'],
        ExprV::Call { name, args } => name + seq!['('] + labels_text(args, var, value) + seq![')'],
        ExprV::BinOp { op, lhs, rhs } => {
            let l = label_text(*lhs, var, value);
            let r = label_text(*rhs, var, value);
            let lp = if (*lhs) is BinOp {
                seq!['('] + l + seq![')']
            } else {
                l
            };
            let rp = if (*rhs) is BinOp {
                seq!['('] + r + seq![')']
            } else {
                r
            };
            lp + seq![' '] + op_text(op) + seq![' '] + rp
        },
        ExprV::Not(inner) => seq!['n', 'o', 't', ' '] + label_text(*inner, var, value),
        ExprV::Array(elems) => seq!['['] + labels_text(elems, var, value) + seq![']'],
        ExprV::Comprehension { .. } => seq!['…'],
        ExprV::Reduce { .. } => seq!['…'],
    }
}

/// The labels of a list of expressions, separated by `", "`.
pub open spec fn labels_text(es: Seq<ExprV>, var: Seq<char>, value: nat) -> Seq<char>
    decreases es, es.len(),
{
    if es.len() == 0 {
        Seq::empty()
    } else if es.len() == 1 {
        label_text(es[0], var, value)
    } else {
        labels_text(es.drop_last(), var, value) + seq![',', ' '] + label_text(es.last(), var, value)
    }
}

/// Renders an expression to a label string, substituting the index variable `var` with the concrete `value`.
/// e.g. `a[x]` with `var = "x"`, `value = 2` becomes `"a[2]"`.
pub fn expr_label(expr: &Expr, var: &str, value: usize) -> (r: String)
    ensures
        r@ == label_text(expr@, var@, value as nat),
{
    let mut out = String::new();
    push_label(&mut out, expr, var, value);
    proof {
        assert(out@ =~= label_text(expr@, var@, value as nat));
    }
    out
}

#[verifier::rlimit(60)]
/// Appends the label of `e` (see [`label_text`]).
fn push_label(out: &mut String, e: &Expr, var: &str, value: usize)
    ensures
        final(out)@ == old(out)@ + label_text(e@, var@, value as nat),
    decreases expr_size(*e), 1nat,
{
    let ghost start = out@;
    match e {
        Expr::Ident(s) => {
            if same_text(s.as_str(), var) {
                push_radix(out, value as u64, 10);
            } else {
                out.append(s.as_str());
            }
        },
        Expr::Integer(n) => {
            push_radix(out, *n, 10);
        },
        Expr::HexLit(n) => {
            push_char(out, '0');
            push_char(out, 'x');
            push_radix(out, *n, 16);
            proof {
                assert(out@ =~= start + label_text(e@, var@, value as nat));
            }
        },
        Expr::Index { base, index } => {
            push_label(out, base, var, value);
            push_char(out, '[');
            push_label(out, index, var, value);
            push_char(out, ']');
            proof {
                assert(out@ =~= start + label_text(e@, var@, value as nat));
            }
        },
        Expr::Call { name, args } => {
            out.append(name.as_str());
            push_char(out, '(');
            push_labels(out, args, var, value, Ghost(*e));
            push_char(out, ')');
            proof {
                assert(out@ =~= start + label_text(e@, var@, value as nat));
            }
        },
        Expr::BinOp { op, lhs, rhs } => {
            push_operand(out, lhs, var, value, Ghost(*e));
            push_char(out, ' ');
            let name = op.to_string();
            out.append(name.as_str());
            push_char(out, ' ');
            push_operand(out, rhs, var, value, Ghost(*e));
            proof {
                assert(out@ =~= start + label_text(e@, var@, value as nat));
            }
        },
        Expr::Not(inner) => {
            push_char(out, 'n');
            push_char(out, 'o');
            push_char(out, 't');
            push_char(out, ' ');
            push_label(out, inner, var, value);
            proof {
                assert(out@ =~= start + label_text(e@, var@, value as nat));
            }
        },
        Expr::Array(elems) => {
            push_char(out, '[');
            push_labels(out, elems, var, value, Ghost(*e));
            push_char(out, ']');
            proof {
                assert(out@ =~= start + label_text(e@, var@, value as nat));
            }
        },
        Expr::Comprehension { .. } => {
            push_char(out, '…');
            proof {
                assert(out@ =~= start + label_text(e@, var@, value as nat));
            }
        },
        Expr::Reduce { .. } => {
            push_char(out, '…');
            proof {
                assert(out@ =~= start + label_text(e@, var@, value as nat));
            }
        },
    }
}

/// Appends the label of an operand of a binary operation of `parent`, in parentheses when it is a binary operation.
fn push_operand(out: &mut String, e: &Expr, var: &str, value: usize, Ghost(parent): Ghost<Expr>)
    requires
        expr_size(*e) < expr_size(parent),
    ensures
        final(out)@ == old(out)@ + (if e@ is BinOp {
            seq!['('] + label_text(e@, var@, value as nat) + seq![')']
        } else {
            label_text(e@, var@, value as nat)
        }),
    decreases expr_size(parent), 0nat,
{
    let ghost start = out@;
    let wrap = matches!(*e, Expr::BinOp { .. });
    if wrap {
        push_char(out, '(');
    }
    push_label(out, e, var, value);
    if wrap {
        push_char(out, ')');
    }
    proof {
        assert(wrap == e@ is BinOp);
        if wrap {
            assert(out@ =~= start + (seq!['('] + label_text(e@, var@, value as nat) + seq![')']));
        }
    }
}

/// Appends the labels of the expressions `es` held by `parent`, separated by `", "`.
fn push_labels(out: &mut String, es: &Vec<Expr>, var: &str, value: usize, Ghost(parent): Ghost<Expr>)
    requires
        exprs_size(es@) < expr_size(parent),
    ensures
        final(out)@ == old(out)@ + labels_text(exprs_view(es@), var@, value as nat),
    decreases expr_size(parent), 0nat,
{
    let ghost mid = out@;
    let mut i: usize = 0;
    proof {
        lemma_exprs_view(es@);
    }
    while i < es.len()
        invariant
            i <= es.len(),
            exprs_size(es@) < expr_size(parent),
            exprs_view(es@).len() == es@.len(),
            forall|j: int| 0 <= j < es@.len() ==> #[trigger] exprs_view(es@)[j] == crate::ast::expr_view(es@[j]),
            out@ == mid + labels_text(exprs_view(es@).take(i as int), var@, value as nat),
        decreases es.len() - i,
    {
        proof {
            lemma_exprs_size_elem(es@, i as int);
        }
        if i > 0 {
            push_char(out, ',');
            push_char(out, ' ');
        }
        push_label(out, &es[i], var, value);
        proof {
            let t = exprs_view(es@).take(i + 1);
            assert(t.drop_last() =~= exprs_view(es@).take(i as int));
            assert(t.last() == exprs_view(es@)[i as int]);
            if i == 0 {
                assert(out@ =~= mid + labels_text(t, var@, value as nat));
            } else {
                assert(out@ =~= mid + labels_text(t, var@, value as nat));
            }
        }
        i += 1;
    }
    proof {
        assert(exprs_view(es@).take(es.len() as int) =~= exprs_view(es@));
    }
}

} // verus!
