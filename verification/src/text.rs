//! Text helpers: comparing names and writing numbers in decimal or hexadecimal.

use vstd::prelude::*;
use vstd::string::*;
use vstd::arithmetic::div_mod::lemma_div_decreases;

verus! {

/// Whether two strings hold the same characters.
pub fn same_text(a: &str, b: &str) -> (r: bool)
    ensures
        r == (a@ == b@),
{
    let n = a.unicode_len();
    let m = b.unicode_len();
    if n != m {
        return false;
    }
    let mut i: usize = 0;
    while i < n
        invariant
            n == a@.len(),
            m == b@.len(),
            n == m,
            i <= n,
            forall|j: int| 0 <= j < i ==> a@[j] == b@[j],
        decreases n - i,
    {
        if a.get_char(i) != b.get_char(i) {
            return false;
        }
        i += 1;
    }
    proof {
        assert(a@ =~= b@);
    }
    true
}

/// Appends one character (`String::push`).
#[verifier::external_body]
pub(crate) fn push_char(s: &mut String, c: char)
    ensures
        final(s)@ == old(s)@.push(c),
{
    s.push(c);
}

/// The character of a digit `d` (`0`-`9`, then `a`-`f`).
pub open spec fn digit_char(d: nat) -> char {
    if d < 10 {
        (48 + d) as char
    } else {
        (87 + d) as char
    }
}

/// `n` written in base `base`, most significant digit first, with no leading zeros (`0` is written `"0"`).
pub open spec fn radix_text(n: nat, base: nat) -> Seq<char>
    decreases n,
{
    if base < 2 || base > 16 {
        Seq::empty()
    } else if n < base {
        seq![digit_char(n)]
    } else {
        proof {
            lemma_div_decreases(n as int, base as int);
        }
        radix_text(n / base, base).push(digit_char(n % base))
    }
}

/// `n` in hexadecimal, left-padded with zeros to at least `width` digits.
pub open spec fn padded_hex(n: nat, width: nat) -> Seq<char> {
    let t = radix_text(n, 16);
    let pad: nat = if width > t.len() {
        (width - t.len()) as nat
    } else {
        0
    };
    Seq::new(pad, |i: int| '0') + t
}

fn digit(d: u64) -> (c: char)
    requires
        d < 16,
    ensures
        c == digit_char(d as nat),
{
    if d < 10 {
        ((48 + d) as u8) as char
    } else {
        ((87 + d) as u8) as char
    }
}

/// Appends `n` written in base `base`.
pub fn push_radix(s: &mut String, n: u64, base: u64)
    requires
        2 <= base <= 16,
    ensures
        final(s)@ == old(s)@ + radix_text(n as nat, base as nat),
    decreases n,
{
    if n < base {
        push_char(s, digit(n));
        proof {
            assert(radix_text(n as nat, base as nat) =~= seq![digit_char(n as nat)]);
        }
    } else {
        proof {
            lemma_div_decreases(n as int, base as int);
        }
        push_radix(s, n / base, base);
        push_char(s, digit(n % base));
        proof {
            assert(s@ =~= old(s)@ + radix_text(n as nat, base as nat));
        }
    }
}

/// The length of a number written in some base is at least one digit.
pub proof fn lemma_radix_text_len(n: nat, base: nat)
    requires
        2 <= base <= 16,
    ensures
        radix_text(n, base).len() >= 1,
    decreases n,
{
    if n >= base {
        lemma_div_decreases(n as int, base as int);
        lemma_radix_text_len(n / base, base);
    }
}

/// Appends `n` in hexadecimal, zero-padded to at least `width` digits.
pub fn push_padded_hex(s: &mut String, n: u64, width: usize)
    ensures
        final(s)@ == old(s)@ + padded_hex(n as nat, width as nat),
{
    let mut digits = String::new();
    push_radix(&mut digits, n, 16);
    let len = digits.as_str().unicode_len();
    let mut i = len;
    let ghost start = s@;
    while i < width
        invariant
            len == radix_text(n as nat, 16).len(),
            len <= i,
            i <= width || len > width,
            len > width ==> i == len,
            digits@ == radix_text(n as nat, 16),
            s@ == start + Seq::new((i - len) as nat, |k: int| '0'),
        decreases width - i,
    {
        push_char(s, '0');
        i += 1;
        proof {
            assert(s@ =~= start + Seq::new((i - len) as nat, |k: int| '0'));
        }
    }
    s.append(digits.as_str());
    proof {
        let t = radix_text(n as nat, 16);
        let pad: nat = if width > t.len() {
            (width - t.len()) as nat
        } else {
            0
        };
        assert(pad == i - len);
        assert(s@ =~= start + padded_hex(n as nat, width as nat));
    }
}

/// Lexicographic order of character sequences by code point, a proper prefix before any longer sequence. (This is the
/// order of `String`'s `Ord`, which compares UTF-8 bytes, an encoding that keeps code-point order.)
pub open spec fn text_lt(a: Seq<char>, b: Seq<char>) -> bool
    decreases a.len(),
{
    if a.len() == 0 {
        b.len() > 0
    } else if b.len() == 0 {
        false
    } else if a[0] != b[0] {
        (a[0] as int) < (b[0] as int)
    } else {
        text_lt(a.drop_first(), b.drop_first())
    }
}

/// No sequence comes before itself, and of two sequences at most one comes first.
pub proof fn lemma_text_lt_strict(a: Seq<char>, b: Seq<char>)
    ensures
        !text_lt(a, a),
        text_lt(a, b) ==> !text_lt(b, a),
    decreases a.len(),
{
    if a.len() > 0 && b.len() > 0 {
        lemma_text_lt_strict(a.drop_first(), b.drop_first());

    } else if a.len() > 0 {
        lemma_text_lt_strict(a.drop_first(), a.drop_first());
    }
}

/// The order is transitive.
pub proof fn lemma_text_lt_trans(a: Seq<char>, b: Seq<char>, c: Seq<char>)
    requires
        text_lt(a, b),
        text_lt(b, c),
    ensures
        text_lt(a, c),
    decreases a.len(),
{
    if a.len() > 0 && a[0] == b[0] && b[0] == c[0] {
        lemma_text_lt_trans(a.drop_first(), b.drop_first(), c.drop_first());
    }
}

/// Of two different sequences, one comes first.
pub proof fn lemma_text_lt_total(a: Seq<char>, b: Seq<char>)
    requires
        a != b,
    ensures
        text_lt(a, b) || text_lt(b, a),
    decreases a.len(),
{
    if a.len() > 0 && b.len() > 0 {
        if a[0] == b[0] {
            if a.drop_first() == b.drop_first() {
                assert(a =~= seq![a[0]] + a.drop_first());
                assert(b =~= seq![b[0]] + b.drop_first());
            }
            lemma_text_lt_total(a.drop_first(), b.drop_first());
        } else {

        }
    } else if a.len() == 0 && b.len() == 0 {
        assert(a =~= b);
    }
}

/// Skipping a common prefix does not change the order.
proof fn lemma_text_lt_skip(a: Seq<char>, b: Seq<char>, i: int)
    requires
        0 <= i <= a.len(),
        i <= b.len(),
        a.take(i) == b.take(i),
    ensures
        text_lt(a, b) == text_lt(a.skip(i), b.skip(i)),
    decreases i,
{
    if i > 0 {
        assert(a[0] == a.take(i)[0]);
        assert(b[0] == b.take(i)[0]);
        assert(a.drop_first().take(i - 1) =~= a.take(i).drop_first());
        assert(b.drop_first().take(i - 1) =~= b.take(i).drop_first());
        lemma_text_lt_skip(a.drop_first(), b.drop_first(), i - 1);
        assert(a.drop_first().skip(i - 1) =~= a.skip(i));
        assert(b.drop_first().skip(i - 1) =~= b.skip(i));
    } else {
        assert(a.skip(0) =~= a);
        assert(b.skip(0) =~= b);
    }
}

/// Whether `a` comes before `b` in the order of [`text_lt`].
pub fn text_less(a: &str, b: &str) -> (r: bool)
    ensures
        r == text_lt(a@, b@),
{
    let n = a.unicode_len();
    let m = b.unicode_len();
    let mut i: usize = 0;
    proof {
        assert(a@.take(0) =~= b@.take(0));
        lemma_text_lt_skip(a@, b@, 0);
    }
    while i < n && i < m
        invariant
            n == a@.len(),
            m == b@.len(),
            i <= n,
            i <= m,
            a@.take(i as int) == b@.take(i as int),
            text_lt(a@, b@) == text_lt(a@.skip(i as int), b@.skip(i as int)),
        decreases n - i,
    {
        let x = a.get_char(i);
        let y = b.get_char(i);
        assert(a@.skip(i as int)[0] == x);
        assert(b@.skip(i as int)[0] == y);
        if x != y {
            return (x as u32) < (y as u32);
        }
        proof {
            assert(a@.take(i + 1) =~= a@.take(i as int).push(x));
            assert(b@.take(i + 1) =~= b@.take(i as int).push(y));
            lemma_text_lt_skip(a@, b@, i + 1);
        }
        i += 1;
    }
    i < m && i == n
}

} // verus!
