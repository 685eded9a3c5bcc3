use vstd::arithmetic::div_mod::*;
use vstd::arithmetic::mul::*;
use vstd::prelude::*;

verus! {

/// Value of a digit sequence in the given base, most significant digit first.
pub open spec fn digits_value(d: Seq<nat>, base: nat) -> nat
    decreases d.len(),
{
    if d.len() == 0 {
        0
    } else {
        digits_value(d.drop_last(), base) * base + d.last()
    }
}

/// The shortest digit sequence of `n` in the given base, most significant
/// digit first; zero is written as the single digit 0.
pub open spec fn to_digits(n: nat, base: nat) -> Seq<nat>
    decreases n,
    via to_digits_decreases
{
    if base < 2 || n < base {
        seq![n]
    } else {
        to_digits(n / base, base).push(n % base)
    }
}

#[via_fn]
proof fn to_digits_decreases(n: nat, base: nat) {
    if !(base < 2 || n < base) {
        lemma_div_decreases(n as int, base as int);
    }
}

} // verus!

verus! {

/// Every digit is below the base.
pub open spec fn digits_below(d: Seq<nat>, base: nat) -> bool {
    forall|i: int| 0 <= i < d.len() ==> #[trigger] d[i] < base
}

/// No superfluous leading zero: the first digit is nonzero, or it is the only one.
pub open spec fn is_canonical(d: Seq<nat>) -> bool {
    d.len() >= 1 && (d[0] != 0 || d.len() == 1)
}

/// `k` zero digits.
pub open spec fn zero_digits(k: nat) -> Seq<nat> {
    Seq::new(k, |i: int| 0nat)
}

/// Length of the run of `x` at the front of `s`.
pub open spec fn lead_count<T>(s: Seq<T>, x: T) -> nat
    decreases s.len(),
{
    if s.len() == 0 || s[0] != x {
        0
    } else {
        1 + lead_count(s.drop_first(), x)
    }
}

/// Length of the run of `x` at the front of `s`, the last position left out:
/// the number of leading symbols (or bytes) that stand for a leading zero.
pub open spec fn leaders<T>(s: Seq<T>, x: T) -> nat {
    if s.len() == 0 {
        0
    } else {
        lead_count(s.drop_last(), x)
    }
}

pub proof fn lemma_to_digits(n: nat, base: nat)
    requires
        base >= 2,
    ensures
        is_canonical(to_digits(n, base)),
        digits_below(to_digits(n, base), base),
        digits_value(to_digits(n, base), base) == n,
        n == 0 ==> to_digits(n, base) == seq![0nat],
    decreases n,
{
    if n >= base {
        lemma_div_decreases(n as int, base as int);
        lemma_to_digits(n / base, base);
        lemma_fundamental_div_mod(n as int, base as int);
        lemma_mod_bound(n as int, base as int);
        lemma_mul_is_commutative(base as int, (n / base) as int);
        let p = to_digits(n / base, base);
        assert(to_digits(n, base).drop_last() =~= p);
        assert(n / base > 0) by {
            lemma_div_non_zero(n as int, base as int);
        }
        if p.len() == 1 {
            lemma_value_single(p[0], base);
            assert(p =~= seq![p[0]]);
        }
        assert(p[0] != 0);
        assert(to_digits(n, base)[0] == p[0]);
    } else {
        lemma_value_single(n, base);
    }
}

pub proof fn lemma_value_single(x: nat, base: nat)
    ensures
        digits_value(seq![x], base) == x,
{
    assert(seq![x].drop_last() =~= Seq::<nat>::empty());
    assert(digits_value(Seq::<nat>::empty(), base) == 0);
    lemma_mul_by_zero_is_zero(base as int);
    assert(digits_value(seq![x], base) == digits_value(seq![x].drop_last(), base) * base + x);
}

pub proof fn lemma_value_positive(d: Seq<nat>, base: nat, i: int)
    requires
        base >= 1,
        0 <= i < d.len(),
        d[i] != 0,
    ensures
        digits_value(d, base) >= 1,
    decreases d.len(),
{
    if i < d.len() - 1 {
        lemma_value_positive(d.drop_last(), base, i);
        lemma_mul_increases(base as int, digits_value(d.drop_last(), base) as int);
        lemma_mul_is_commutative(base as int, digits_value(d.drop_last(), base) as int);
    }
}

/// A canonical digit sequence is the one `to_digits` gives for its value.
pub proof fn lemma_canonical_digits(d: Seq<nat>, base: nat)
    requires
        base >= 2,
        is_canonical(d),
        digits_below(d, base),
    ensures
        to_digits(digits_value(d, base), base) == d,
    decreases d.len(),
{
    if d.len() == 1 {
        lemma_value_single(d[0], base);
        assert(d =~= seq![d[0]]);
        assert(to_digits(d[0], base) == seq![d[0]]);
        assert(to_digits(digits_value(d, base), base) =~= d);
    } else {
        let p = d.drop_last();
        let vp = digits_value(p, base);
        lemma_canonical_digits(p, base);
        lemma_value_positive(p, base, 0);
        let n = digits_value(d, base);
        assert(n == vp * base + d.last());
        lemma_fundamental_div_mod_converse(n as int, base as int, vp as int, d.last() as int);
        lemma_mul_increases(vp as int, base as int);
        lemma_mul_is_commutative(vp as int, base as int);
        assert(to_digits(n, base) =~= p.push(d.last()));
        assert(p.push(d.last()) =~= d);
    }
}

pub proof fn lemma_zero_prefix_value(k: nat, d: Seq<nat>, base: nat)
    ensures
        digits_value(zero_digits(k) + d, base) == digits_value(d, base),
    decreases d.len(), k,
{
    if d.len() == 0 {
        assert(zero_digits(k) + d =~= zero_digits(k));
        if k > 0 {
            assert(zero_digits(k).drop_last() =~= zero_digits((k - 1) as nat) + d);
            lemma_zero_prefix_value((k - 1) as nat, d, base);
            assert(digits_value(d, base) == 0);
            assert(digits_value(zero_digits(k), base) == 0 * base + 0);
        } else {
            assert(zero_digits(k) =~= d);
        }
    } else {
        let zd = zero_digits(k) + d;
        assert(zd.drop_last() =~= zero_digits(k) + d.drop_last());
        assert(zd.last() == d.last());
        lemma_zero_prefix_value(k, d.drop_last(), base);
        assert(digits_value(zd, base) == digits_value(zd.drop_last(), base) * base + zd.last());
    }
}

pub proof fn lemma_value_concat(a: Seq<nat>, b: Seq<nat>, base: nat)
    ensures
        digits_value(a + b, base) == digits_value(a, base) * vstd::arithmetic::power::pow(
            base as int,
            b.len(),
        ) + digits_value(b, base),
    decreases b.len(),
{
    if b.len() == 0 {
        assert(a + b =~= a);
        vstd::arithmetic::power::lemma_pow0(base as int);
    } else {
        assert((a + b).drop_last() =~= a + b.drop_last());
        lemma_value_concat(a, b.drop_last(), base);
        let va = digits_value(a, base) as int;
        let pp = vstd::arithmetic::power::pow(base as int, b.drop_last().len());
        let vb = digits_value(b.drop_last(), base) as int;
        assert(vstd::arithmetic::power::pow(base as int, b.len()) == pp * base) by {
            vstd::arithmetic::power::lemma_pow_adds(base as int, b.drop_last().len(), 1);
            vstd::arithmetic::power::lemma_pow1(base as int);
        }
        assert((va * pp + vb) * base == va * (pp * base) + vb * base) by (nonlinear_arith);
    }
}

pub proof fn lemma_lead_count<T>(s: Seq<T>, x: T)
    ensures
        lead_count(s, x) <= s.len(),
        forall|i: int| 0 <= i < lead_count(s, x) ==> s[i] == x,
        lead_count(s, x) < s.len() ==> s[lead_count(s, x) as int] != x,
    decreases s.len(),
{
    if s.len() > 0 && s[0] == x {
        lemma_lead_count(s.drop_first(), x);
        assert forall|i: int| 0 <= i < lead_count(s, x) implies s[i] == x by {
            if i > 0 {
                assert(s[i] == s.drop_first()[i - 1]);
            }
        }
    }
}

pub proof fn lemma_lead_count_is<T>(s: Seq<T>, x: T, z: nat)
    requires
        z <= s.len(),
        forall|i: int| 0 <= i < z ==> s[i] == x,
        z < s.len() ==> s[z as int] != x,
    ensures
        lead_count(s, x) == z,
    decreases s.len(),
{
    if z > 0 {
        assert forall|i: int| 0 <= i < z - 1 implies s.drop_first()[i] == x by {
            assert(s[i + 1] == x);
        }
        lemma_lead_count_is(s.drop_first(), x, (z - 1) as nat);
    }
}

/// The leading run of a nonempty sequence stops before its end, and what
/// follows it starts with another element or is the last element alone.
pub proof fn lemma_leaders<T>(s: Seq<T>, x: T)
    requires
        s.len() >= 1,
    ensures
        leaders(s, x) < s.len(),
        forall|i: int| 0 <= i < leaders(s, x) ==> s[i] == x,
        leaders(s, x) < s.len() - 1 ==> s[leaders(s, x) as int] != x,
{
    lemma_lead_count(s.drop_last(), x);
    assert forall|i: int| 0 <= i < leaders(s, x) implies s[i] == x by {
        assert(s[i] == s.drop_last()[i]);
    }
}

/// A run of `z` copies of `x` in front of a rest that does not start with `x`
/// (or is a single element) is what `leaders` counts.
pub proof fn lemma_leaders_is<T>(s: Seq<T>, x: T, z: nat)
    requires
        z < s.len(),
        forall|i: int| 0 <= i < z ==> s[i] == x,
        z < s.len() - 1 ==> s[z as int] != x,
    ensures
        leaders(s, x) == z,
{
    lemma_lead_count_is(s.drop_last(), x, z);
}

} // verus!

verus! {

/// The bytes of a buffer, as base-256 digits.
pub open spec fn byte_digits(b: Seq<u8>) -> Seq<nat> {
    b.map_values(|x: u8| x as nat)
}

/// The buffer read as one big-endian number.
pub open spec fn bytes_value(b: Seq<u8>) -> nat {
    digits_value(byte_digits(b), 256)
}

/// `k` zero bytes.
pub open spec fn zero_bytes(k: nat) -> Seq<u8> {
    Seq::new(k, |i: int| 0u8)
}

/// The shortest big-endian bytes of `n`; zero is the single byte 0.
pub open spec fn to_bytes(n: nat) -> Seq<u8> {
    to_digits(n, 256).map_values(|x: nat| x as u8)
}

/// An alphabet: at least two pairwise distinct symbols, and a base that fits in 32 bits.
pub open spec fn valid_alphabet(symbols: Seq<char>) -> bool {
    &&& 2 <= symbols.len() <= u32::MAX
    &&& symbols.no_duplicates()
}

/// The digits that encode `input` in the given base: a zero digit for each
/// leading zero byte (the last byte left out), then the digits of the
/// buffer's value. The empty buffer has no digits.
pub open spec fn encode_digits(input: Seq<u8>, base: nat) -> Seq<nat> {
    if input.len() == 0 {
        Seq::empty()
    } else {
        zero_digits(leaders(input, 0u8)) + to_digits(bytes_value(input), base)
    }
}

/// The string that encodes `input` over the alphabet `symbols`.
pub open spec fn encoded(symbols: Seq<char>, input: Seq<u8>) -> Seq<char> {
    encode_digits(input, symbols.len()).map_values(|d: nat| symbols[d as int])
}

/// Every character of `s` is a symbol of the alphabet.
pub open spec fn all_symbols(symbols: Seq<char>, s: Seq<char>) -> bool {
    forall|i: int| 0 <= i < s.len() ==> symbols.contains(#[trigger] s[i])
}

/// The digit of each character of `s`: its place in the alphabet.
pub open spec fn symbol_digits(symbols: Seq<char>, s: Seq<char>) -> Seq<nat> {
    s.map_values(|c: char| symbols.index_of(c) as nat)
}

/// The digit of a character, if it is a symbol of the alphabet.
pub open spec fn symbol_index(symbols: Seq<char>, c: char) -> Option<usize> {
    if symbols.contains(c) {
        Some(symbols.index_of(c) as usize)
    } else {
        None
    }
}

/// The bytes that `s` decodes to over the alphabet `symbols`, or `None` when
/// a character of `s` is not a symbol: a zero byte for each leading zero
/// symbol (the last symbol left out), then the bytes of the value of its digits.
pub open spec fn decoded(symbols: Seq<char>, s: Seq<char>) -> Option<Seq<u8>> {
    if s.len() == 0 {
        Some(Seq::empty())
    } else if !all_symbols(symbols, s) {
        None
    } else {
        Some(
            zero_bytes(leaders(s, symbols[0])) + to_bytes(
                digits_value(symbol_digits(symbols, s), symbols.len()),
            ),
        )
    }
}

} // verus!
