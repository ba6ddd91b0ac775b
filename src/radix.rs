//! The mathematics of fixed-width positional text: byte strings read as
//! big-endian numbers, their digits in a power-of-two base, and the
//! lexicographic order of the resulting symbol strings.
use vstd::prelude::*;

verus! {

/// `b` raised to the power `e`.
pub open spec fn power(b: nat, e: nat) -> nat
    decreases e,
{
    if e == 0 {
        1
    } else {
        b * power(b, (e - 1) as nat)
    }
}

/// The value of a byte string read as a big-endian unsigned integer.
pub open spec fn be_value(b: Seq<u8>) -> nat
    decreases b.len(),
{
    if b.len() == 0 {
        0
    } else {
        be_value(b.drop_last()) * 256 + b.last() as nat
    }
}

/// The `n` low-order bytes of `v`, most significant first.
pub open spec fn be_bytes(v: nat, n: nat) -> Seq<u8>
    decreases n,
{
    if n == 0 {
        Seq::empty()
    } else {
        be_bytes(v / 256, (n - 1) as nat).push((v % 256) as u8)
    }
}

/// The `n` low-order digits of `v` in base `base`, most significant first.
pub open spec fn digits(v: nat, base: nat, n: nat) -> Seq<nat>
    decreases n,
{
    if n == 0 {
        Seq::empty()
    } else {
        digits(v / base, base, (n - 1) as nat).push(v % base)
    }
}

/// How many `k`-bit symbols carry `n` bytes: the bit count rounded up.
pub open spec fn text_len(n: nat, k: nat) -> nat {
    ((8 * n + k - 1) / (k as int)) as nat
}

/// The zero bits appended after `n` bytes to fill the last `k`-bit symbol.
pub open spec fn pad_bits(n: nat, k: nat) -> nat {
    (text_len(n, k) * k - 8 * n) as nat
}

/// The text of the bytes `b` with `k` bits per symbol, most significant bit
/// first, without padding characters: the bits of `b`, followed by zero bits
/// up to a whole symbol, cut into `k`-bit groups, each group written as the
/// symbol at its value.
pub open spec fn radix_text(symbols: Seq<char>, k: nat, b: Seq<u8>) -> Seq<char> {
    digits(
        be_value(b) * power(2, pad_bits(b.len(), k)),
        power(2, k),
        text_len(b.len(), k),
    ).map_values(|d: nat| symbols[d as int])
}

/// `a` and `b` agree before position `i`, and there `a` is the smaller: it
/// ends, or its character has the lower code point.
pub open spec fn first_less_at(a: Seq<char>, b: Seq<char>, i: int) -> bool {
    &&& 0 <= i <= a.len()
    &&& i < b.len()
    &&& a.take(i) == b.take(i)
    &&& (i == a.len() || (a[i] as u32) < (b[i] as u32))
}

/// Lexicographic order by code point, as `str` compares.
pub open spec fn lex_lt(a: Seq<char>, b: Seq<char>) -> bool {
    exists|i: int| #[trigger] first_less_at(a, b, i)
}

/// Each symbol has a higher code point than the one before it.
pub open spec fn strictly_ascending(s: Seq<char>) -> bool {
    forall|i: int, j: int| 0 <= i < j < s.len() ==> (#[trigger] s[i] as u32) < (#[trigger] s[j] as u32)
}

/// Each symbol from position `i` on has a higher code point than the one
/// before it, checked one neighbour at a time.
pub open spec fn ascending_from(s: Seq<char>, i: nat) -> bool
    decreases s.len() - i,
{
    if i + 1 >= s.len() {
        true
    } else {
        (s[i as int] as u32) < (s[i + 1int] as u32) && ascending_from(s, (i + 1) as nat)
    }
}

pub proof fn lemma_ascending(s: Seq<char>, i: nat)
    requires
        ascending_from(s, i),
    ensures
        forall|p: int, q: int| i <= p < q < s.len() ==> (s[p] as u32) < (s[q] as u32),
    decreases s.len() - i,
{
    if i + 1 < s.len() {
        lemma_ascending(s, (i + 1) as nat);
    }
}

/// No text is lexicographically below itself or above one it is below.
pub proof fn lemma_lex_asymmetric(a: Seq<char>, b: Seq<char>)
    ensures
        !(lex_lt(a, b) && lex_lt(b, a)),
        !lex_lt(a, a),
{
    if lex_lt(a, b) && lex_lt(b, a) {
        let i = choose|i: int| first_less_at(a, b, i);
        let j = choose|j: int| first_less_at(b, a, j);
        if i < j {
            assert(b.take(j)[i] == a.take(j)[i]);
        } else if j < i {
            assert(a.take(i)[j] == b.take(i)[j]);
        }
    }
    if lex_lt(a, a) {
        let i = choose|i: int| first_less_at(a, a, i);
    }
}

pub proof fn lemma_power_positive(b: nat, e: nat)
    requires
        b > 0,
    ensures
        power(b, e) > 0,
    decreases e,
{
    if e > 0 {
        lemma_power_positive(b, (e - 1) as nat);
        assert(b * power(b, (e - 1) as nat) > 0) by (nonlinear_arith)
            requires
                b > 0,
                power(b, (e - 1) as nat) > 0,
        ;
    }
}

pub proof fn lemma_power_adds(b: nat, e1: nat, e2: nat)
    ensures
        power(b, e1 + e2) == power(b, e1) * power(b, e2),
    decreases e1,
{
    if e1 > 0 {
        lemma_power_adds(b, (e1 - 1) as nat, e2);
        let x = power(b, (e1 - 1) as nat);
        let y = power(b, e2);
        assert(power(b, e1 + e2) == b * power(b, (e1 - 1 + e2) as nat));
        assert(((e1 - 1) as nat + e2) as nat == (e1 - 1 + e2) as nat);
        assert(power(b, (e1 - 1 + e2) as nat) == x * y);
        assert(power(b, e1) == b * x);
        assert(b * (x * y) == (b * x) * y) by (nonlinear_arith);
        assert(power(b, e1) * y == (b * x) * y);
    } else {
        assert(power(b, e1) == 1);
        assert(power(b, e1) * power(b, e2) == power(b, e2));
    }
}

pub proof fn lemma_power_multiplies(b: nat, e1: nat, e2: nat)
    ensures
        power(power(b, e1), e2) == power(b, e1 * e2),
    decreases e2,
{
    if e2 > 0 {
        lemma_power_multiplies(b, e1, (e2 - 1) as nat);
        assert(e1 * e2 == e1 + e1 * (e2 - 1)) by (nonlinear_arith);
        lemma_power_adds(b, e1, (e1 * (e2 - 1)) as nat);
    } else {
        assert(e1 * e2 == 0) by (nonlinear_arith)
            requires
                e2 == 0,
        ;
    }
}

pub proof fn lemma_power_le(b: nat, e1: nat, e2: nat)
    requires
        b >= 1,
        e1 <= e2,
    ensures
        power(b, e1) <= power(b, e2),
    decreases e2,
{
    if e1 < e2 {
        lemma_power_le(b, e1, (e2 - 1) as nat);
        lemma_power_positive(b, (e2 - 1) as nat);
        let p = power(b, (e2 - 1) as nat);
        assert(p <= b * p) by (nonlinear_arith)
            requires
                b >= 1,
                p > 0,
        ;
    }
}

/// `2^128`, the number of 16-byte values, is also `256^16`.
pub proof fn lemma_power_128()
    ensures
        power(2, 128) == 0x1_0000_0000_0000_0000_0000_0000_0000_0000,
        power(256, 16) == power(2, 128),
{
    reveal_with_fuel(power, 17);
    assert(power(2, 16) == 0x1_0000);
    lemma_power_adds(2, 16, 16);
    assert(power(2, 32) == 0x1_0000_0000);
    lemma_power_adds(2, 32, 32);
    assert(power(2, 64) == 0x1_0000_0000_0000_0000);
    lemma_power_adds(2, 64, 64);
    assert(power(2, 128) == 0x1_0000_0000_0000_0000_0000_0000_0000_0000);
    lemma_power_multiplies(2, 8, 16);
    assert(power(2, 8) == 256);
}

pub proof fn lemma_digits_shape(v: nat, base: nat, n: nat)
    requires
        base > 0,
    ensures
        digits(v, base, n).len() == n,
        forall|i: int| 0 <= i < n ==> #[trigger] digits(v, base, n)[i] < base,
    decreases n,
{
    if n > 0 {
        lemma_digits_shape(v / base, base, (n - 1) as nat);
    }
}

pub proof fn lemma_radix_text_shape(symbols: Seq<char>, k: nat, b: Seq<u8>)
    requires
        k > 0,
        symbols.len() == power(2, k),
    ensures
        radix_text(symbols, k, b).len() == text_len(b.len(), k),
        forall|i: int|
            0 <= i < text_len(b.len(), k) ==> symbols.contains(#[trigger] radix_text(symbols, k, b)[i]),
{
    let d = digits(be_value(b) * power(2, pad_bits(b.len(), k)), power(2, k), text_len(b.len(), k));
    lemma_power_positive(2, k);
    lemma_digits_shape(be_value(b) * power(2, pad_bits(b.len(), k)), power(2, k), text_len(b.len(), k));
    assert forall|i: int| 0 <= i < text_len(b.len(), k) implies symbols.contains(
        #[trigger] radix_text(symbols, k, b)[i],
    ) by {
        assert(d[i] < power(2, k));
        assert(radix_text(symbols, k, b)[i] == symbols[d[i] as int]);
    }
}

/// Values below `base^n` have distinct digit strings.
pub proof fn lemma_digits_injective(x: nat, y: nat, base: nat, n: nat)
    requires
        base > 1,
        x < power(base, n),
        y < power(base, n),
        digits(x, base, n) == digits(y, base, n),
    ensures
        x == y,
    decreases n,
{
    if n > 0 {
        let m = (n - 1) as nat;
        let dx = digits(x, base, n);
        let dy = digits(y, base, n);
        assert(dx.drop_last() == digits(x / base, base, m));
        assert(dy.drop_last() == digits(y / base, base, m));
        assert(dx.last() == x % base);
        assert(dy.last() == y % base);
        lemma_power_positive(base, m);
        assert(x / base < power(base, m)) by (nonlinear_arith)
            requires
                x < base * power(base, m),
                base > 0,
        ;
        assert(y / base < power(base, m)) by (nonlinear_arith)
            requires
                y < base * power(base, m),
                base > 0,
        ;
        lemma_digits_injective(x / base, y / base, base, m);
        assert(x == base * (x / base) + x % base) by (nonlinear_arith)
            requires
                base > 0,
        ;
        assert(y == base * (y / base) + y % base) by (nonlinear_arith)
            requires
                base > 0,
        ;
    } else {
        assert(x == 0 && y == 0);
    }
}

/// A smaller value below `base^n` has a digit string that is lexicographically
/// smaller digit by digit; the returned position is where they first differ.
pub proof fn lemma_digits_order(x: nat, y: nat, base: nat, n: nat) -> (i: int)
    requires
        base > 1,
        x < y,
        y < power(base, n),
    ensures
        0 <= i < n,
        digits(x, base, n).take(i) == digits(y, base, n).take(i),
        digits(x, base, n)[i] < digits(y, base, n)[i],
    decreases n,
{
    let m = (n - 1) as nat;
    if n == 0 {
        assert(false);
    }
    lemma_digits_shape(x, base, n);
    lemma_digits_shape(y, base, n);
    let dx = digits(x, base, n);
    let dy = digits(y, base, n);
    lemma_power_positive(base, m);
    assert(x / base <= y / base) by (nonlinear_arith)
        requires
            x < y,
            base > 0,
    ;
    assert(y / base < power(base, m)) by (nonlinear_arith)
        requires
            y < base * power(base, m),
            base > 0,
    ;
    if x / base < y / base {
        let j = lemma_digits_order(x / base, y / base, base, m);
        assert(dx.drop_last() =~= digits(x / base, base, m));
        assert(dy.drop_last() =~= digits(y / base, base, m));
        assert(dx.take(j) == dx.drop_last().take(j));
        assert(dy.take(j) == dy.drop_last().take(j));
        assert(dx[j] == dx.drop_last()[j]);
        assert(dy[j] == dy.drop_last()[j]);
        j
    } else {
        assert(x % base < y % base) by (nonlinear_arith)
            requires
                x / base == y / base,
                x < y,
                base > 0,
        ;
        assert(dx.take(m as int) == dx.drop_last());
        assert(dy.take(m as int) == dy.drop_last());
        m as int
    }
}

pub proof fn lemma_be_bytes(v: nat, n: nat)
    ensures
        be_bytes(v, n).len() == n,
        be_value(be_bytes(v, n)) == v % power(256, n),
    decreases n,
{
    if n > 0 {
        let m = (n - 1) as nat;
        lemma_be_bytes(v / 256, m);
        let b = be_bytes(v, n);
        assert(b.drop_last() == be_bytes(v / 256, m));
        lemma_power_positive(256, m);
        let p = power(256, m);
        assert((v / 256) % p * 256 + v % 256 == v % (256 * p)) by (nonlinear_arith)
            requires
                p > 0,
        {
            vstd::arithmetic::div_mod::lemma_mod_breakdown(v as int, 256, p as int);
        }
    } else {
        assert(v % 1 == 0);
    }
}

pub proof fn lemma_be_value_bound(b: Seq<u8>)
    ensures
        be_value(b) < power(256, b.len()),
    decreases b.len(),
{
    if b.len() > 0 {
        lemma_be_value_bound(b.drop_last());
        let p = power(256, b.drop_last().len());
        assert(be_value(b.drop_last()) * 256 + b.last() < 256 * p) by (nonlinear_arith)
            requires
                be_value(b.drop_last()) < p,
                b.last() < 256,
        ;
    }
}

/// Byte strings of one length with one value are the same.
pub proof fn lemma_be_value_injective(a: Seq<u8>, b: Seq<u8>)
    requires
        a.len() == b.len(),
        be_value(a) == be_value(b),
    ensures
        a == b,
    decreases a.len(),
{
    if a.len() > 0 {
        let va = be_value(a.drop_last());
        let vb = be_value(b.drop_last());
        assert(va == vb && a.last() == b.last()) by (nonlinear_arith)
            requires
                va * 256 + a.last() == vb * 256 + b.last(),
                a.last() < 256,
                b.last() < 256,
                va >= 0,
                vb >= 0,
        ;
        lemma_be_value_injective(a.drop_last(), b.drop_last());
        assert(a == a.drop_last().push(a.last()));
        assert(b == b.drop_last().push(b.last()));
    } else {
        assert(a =~= b);
    }
}

} // verus!
