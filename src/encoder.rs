use crate::bigint::BigUint;
use crate::digits::{bytes_value, encoded, leaders, lemma_leaders_is, zero_digits};
use crate::radix::{lemma_lsb_canonical_digits, lsb_canonical, lsb_value, word_digits};
use crate::text::string_of;
use vstd::arithmetic::div_mod::*;
use vstd::arithmetic::mul::*;
use vstd::arithmetic::power::*;
use vstd::prelude::*;

verus! {

pub struct AsciiEncoder;

pub struct Utf8Encoder;

/// The number of leading zero bytes of a nonempty buffer, its last byte left out.
pub fn leading_zero_bytes(input: &[u8]) -> (z: usize)
    requires
        input@.len() > 0,
    ensures
        z == leaders(input@, 0u8),
{
    let n = input.len();
    let mut z: usize = 0;
    while z < n - 1 && input[z] == 0
        invariant
            n == input@.len(),
            n > 0,
            z <= n - 1,
            forall|i: int| 0 <= i < z ==> input@[i] == 0,
        decreases n - z,
    {
        z = z + 1;
    }
    proof {
        lemma_leaders_is(input@, 0u8, z as nat);
    }
    z
}

proof fn lemma_push_digit(l: int, p: int, r: int, b: int, q: int, d: int, y: int)
    by (nonlinear_arith)
    requires
        r == q * b + d,
    ensures
        l + d * p + (p * b) * (q + y) == l + p * (r + b * y),
{
}

proof fn lemma_lsb_push(v: Seq<u32>, x: u32, base: nat)
    ensures
        lsb_value(v.push(x), base) == lsb_value(v, base) + x * pow(base as int, v.len()),
        pow(base as int, v.push(x).len()) == pow(base as int, v.len()) * base,
{
    assert(v.push(x).drop_last() =~= v);
    lemma_pow_adds(base as int, v.len(), 1);
    lemma_pow1(base as int);
}

/// The digits of the buffer's value in base `base`, least significant first,
/// by repeated division of a `BigUint` by the largest power of `base` that
/// fits in a word, each remainder then split into digits.
pub fn big_digits(input: &[u8], base: u32) -> (out: Vec<u32>)
    requires
        2 <= base,
    ensures
        lsb_canonical(out@, base as nat),
        lsb_value(out@, base as nat) == bytes_value(input@),
{
    let ghost b = base as nat;
    let ghost total = bytes_value(input@) as int;
    let mut big_base: u32 = base;
    let mut big_pow: u32 = 1;
    proof {
        lemma_pow1(base as int);
    }
    while big_base <= u32::MAX / base
        invariant
            2 <= base,
            1 <= big_pow < big_base,
            2 <= big_base,
            big_base == pow(base as int, big_pow as nat),
        decreases u32::MAX - big_base,
    {
        proof {
            lemma_mul_upper_bound(big_base as int, (u32::MAX / base) as int, base as int, base as int);
            lemma_fundamental_div_mod(u32::MAX as int, base as int);
            lemma_mul_is_commutative(base as int, (u32::MAX / base) as int);
            lemma_mod_bound(u32::MAX as int, base as int);
            lemma_pow_adds(base as int, big_pow as nat, 1);
            lemma_pow1(base as int);
            assert(big_base * base >= big_base * 2) by (nonlinear_arith)
                requires
                    base >= 2,
                    big_base >= 0,
            ;
        }
        big_base = big_base * base;
        big_pow = big_pow + 1;
    }
    let mut big = BigUint::from_bytes_be(input);
    let mut out: Vec<u32> = Vec::new();
    proof {
        lemma_pow0(base as int);
    }
    loop
        invariant_except_break
            b == base as nat,
            2 <= base,
            2 <= big_base,
            big_base == pow(base as int, big_pow as nat),
            forall|i: int| 0 <= i < out@.len() ==> #[trigger] out@[i] < base,
            out@.len() == 0 || big@ > 0,
            lsb_value(out@, b) + pow(base as int, out@.len()) * big@ == total,
        ensures
            lsb_canonical(out@, b),
            lsb_value(out@, b) == total,
        decreases big@,
    {
        let ghost v = big@;
        let mut rem = big.rem_div(big_base);
        proof {
            lemma_fundamental_div_mod(v as int, big_base as int);
            lemma_mod_bound(v as int, big_base as int);
        }
        if big.is_zero() {
            proof {
                lemma_mul_by_zero_is_zero(big_base as int);
                assert(rem == v);
            }
            loop
                invariant_except_break
                    b == base as nat,
                    2 <= base,
                    forall|i: int| 0 <= i < out@.len() ==> #[trigger] out@[i] < base,
                    rem > 0 || out@.len() == 0,
                    lsb_value(out@, b) + pow(base as int, out@.len()) * rem == total,
                ensures
                    lsb_canonical(out@, b),
                    lsb_value(out@, b) == total,
                decreases rem,
            {
                let d = rem % base;
                let q = rem / base;
                let ghost before = out@;
                out.push(d);
                proof {
                    lemma_fundamental_div_mod(rem as int, base as int);
                    lemma_mul_is_commutative(base as int, q as int);
                    lemma_mod_bound(rem as int, base as int);
                    lemma_lsb_push(before, d, b);
                    lemma_push_digit(
                        lsb_value(before, b), pow(base as int, before.len()), rem as int,
                        base as int, q as int, d as int, 0,
                    );
                    lemma_mul_by_zero_is_zero(pow(base as int, out@.len()));
                }
                if q == 0 {
                    proof {
                        assert(d == rem);
                    }
                    break;
                }
                proof {
                    lemma_div_decreases(rem as int, base as int);
                }
                rem = q;
            }
            break;
        } else {
            let ghost v2 = big@;
            let mut k: u32 = 0;
            proof {
                lemma_pow_positive(base as int, big_pow as nat);
            }
            while k < big_pow
                invariant
                    b == base as nat,
                    2 <= base,
                    k <= big_pow,
                    big@ == v2,
                    v2 > 0,
                    forall|i: int| 0 <= i < out@.len() ==> #[trigger] out@[i] < base,
                    rem < pow(base as int, (big_pow - k) as nat),
                    lsb_value(out@, b) + pow(base as int, out@.len()) * (rem + pow(
                        base as int,
                        (big_pow - k) as nat,
                    ) * v2) == total,
                decreases big_pow - k,
            {
                let d = rem % base;
                let q = rem / base;
                let ghost before = out@;
                out.push(d);
                proof {
                    let qq = pow(base as int, (big_pow - k - 1) as nat);
                    lemma_pow_adds(base as int, (big_pow - k - 1) as nat, 1);
                    lemma_pow1(base as int);
                    lemma_mul_is_commutative(base as int, qq);
                    lemma_fundamental_div_mod(rem as int, base as int);
                    lemma_mul_is_commutative(base as int, q as int);
                    lemma_mod_bound(rem as int, base as int);
                    lemma_lsb_push(before, d, b);
                    lemma_push_digit(
                        lsb_value(before, b), pow(base as int, before.len()), rem as int,
                        base as int, q as int, d as int, qq * v2,
                    );
                    lemma_mul_is_associative(base as int, qq, v2 as int);
                    lemma_multiply_divide_lt(rem as int, base as int, qq);
                }
                rem = q;
                k = k + 1;
            }
            proof {
                lemma_pow0(base as int);
                assert(k == big_pow);
                assert(pow(base as int, (big_pow - k) as nat) == 1);
                assert(rem == 0);
                assert(rem + pow(base as int, (big_pow - k) as nat) * v2 == v2);
                assert(big@ == v2);
                lemma_div_decreases(v as int, big_base as int);
            }
        }
    }
    out
}

/// The characters of `lead` zero symbols followed by `digits` (least
/// significant first) from the most significant one.
pub fn spell(symbols: &[char], lead: usize, digits: &Vec<u32>) -> (r: Vec<char>)
    requires
        symbols@.len() >= 1,
        forall|i: int| 0 <= i < digits@.len() ==> #[trigger] digits@[i] < symbols@.len(),
    ensures
        r@ == (zero_digits(lead as nat) + word_digits(digits@).reverse()).map_values(
            |d: nat| symbols@[d as int],
        ),
{
    let ghost target = (zero_digits(lead as nat) + word_digits(digits@).reverse()).map_values(
        |d: nat| symbols@[d as int],
    );
    let mut r: Vec<char> = Vec::new();
    let zero = symbols[0];
    for i in 0..lead
        invariant
            symbols@.len() >= 1,
            zero == symbols@[0],
            target.len() == lead + digits@.len(),
            target == (zero_digits(lead as nat) + word_digits(digits@).reverse()).map_values(
                |d: nat| symbols@[d as int],
            ),
            r@.len() == i,
            forall|k: int| 0 <= k < i ==> r@[k] == target[k],
    {
        r.push(zero);
    }
    let n = digits.len();
    let mut j = n;
    while j > 0
        invariant
            j <= n == digits@.len(),
            target.len() == lead + n,
            target == (zero_digits(lead as nat) + word_digits(digits@).reverse()).map_values(
                |d: nat| symbols@[d as int],
            ),
            forall|i: int| 0 <= i < digits@.len() ==> #[trigger] digits@[i] < symbols@.len(),
            r@.len() == lead + (n - j),
            forall|k: int| 0 <= k < r@.len() ==> r@[k] == target[k],
        decreases j,
    {
        j = j - 1;
        let d = digits[j] as usize;
        r.push(symbols[d]);
    }
    proof {
        assert(r@ =~= target);
    }
    r
}

/// Encodes a nonempty buffer over the alphabet `symbols`.
fn encode_nonempty(symbols: &[char], input: &[u8]) -> (r: String)
    requires
        2 <= symbols@.len() <= u32::MAX,
        input@.len() > 0,
    ensures
        r@ == encoded(symbols@, input@),
{
    let base = symbols.len() as u32;
    let digits = big_digits(input, base);
    let lead = leading_zero_bytes(input);
    let chars = spell(symbols, lead, &digits);
    proof {
        lemma_lsb_canonical_digits(digits@, base as nat);
    }
    string_of(&chars)
}

impl AsciiEncoder {
    pub fn encode(alphabet: &[u8], input: &[u8]) -> (r: String)
        requires
            2 <= alphabet@.len() <= u32::MAX,
        ensures
            r@ == encoded(crate::alphabet::byte_symbols(alphabet@), input@),
    {
        if input.len() == 0 {
            let r = String::new();
            proof {
                assert(r@ =~= encoded(crate::alphabet::byte_symbols(alphabet@), input@));
            }
            return r;
        }
        let mut symbols: Vec<char> = Vec::new();
        for i in 0..alphabet.len()
            invariant
                symbols@ == crate::alphabet::byte_symbols(alphabet@).take(i as int),
        {
            symbols.push(alphabet[i] as char);
            proof {
                assert(symbols@ =~= crate::alphabet::byte_symbols(alphabet@).take(i + 1));
            }
        }
        proof {
            assert(symbols@ =~= crate::alphabet::byte_symbols(alphabet@));
        }
        encode_nonempty(symbols.as_slice(), input)
    }
}

impl Utf8Encoder {
    pub fn encode(alphabet: &[char], input: &[u8]) -> (r: String)
        requires
            2 <= alphabet@.len() <= u32::MAX,
        ensures
            r@ == encoded(alphabet@, input@),
    {
        if input.len() == 0 {
            let r = String::new();
            proof {
                assert(r@ =~= encoded(alphabet@, input@));
            }
            return r;
        }
        encode_nonempty(alphabet, input)
    }
}

} // verus!

verus! {

/// Bit `j` of `b`, counted from the most significant bit (`j` in 0..8).
pub open spec fn bit_of(b: u8, j: int) -> bool {
    (b >> ((7 - j) as u8)) & 1u8 == 1u8
}

/// The character of bit `j` of `b`: '1' or '0'.
pub open spec fn bit_char(b: u8, j: int) -> char {
    if bit_of(b, j) {
        '1'
    } else {
        '0'
    }
}

/// Eight characters '0'/'1' for each byte, most significant bit first.
pub open spec fn binary_chars(input: Seq<u8>) -> Seq<char> {
    Seq::new(8 * input.len(), |k: int| bit_char(input[k / 8], k % 8))
}

/// Writes each byte as its eight bits, most significant first, leading
/// zero bits kept.
pub fn encode_binary(input: &[u8]) -> (r: String)
    ensures
        r@ == binary_chars(input@),
        r@.len() == 8 * input@.len(),
        forall|i: int, j: int|
            0 <= i < input@.len() && 0 <= j < 8 ==> #[trigger] r@[8 * i + j] == bit_char(
                input@[i],
                j,
            ),
{
    let n = input.len();
    let mut out: Vec<char> = Vec::new();
    for i in 0..n
        invariant
            n == input@.len(),
            out@.len() == 8 * i,
            forall|a: int, j: int|
                0 <= a < i && 0 <= j < 8 ==> #[trigger] out@[8 * a + j] == bit_char(input@[a], j),
    {
        let byte = input[i];
        for j in 0..8u8
            invariant
                byte == input@[i as int],
                out@.len() == 8 * i + j,
                forall|a: int, b: int|
                    0 <= a < i && 0 <= b < 8 ==> #[trigger] out@[8 * a + b] == bit_char(
                        input@[a],
                        b,
                    ),
                forall|b: int| 0 <= b < j ==> #[trigger] out@[8 * i + b] == bit_char(byte, b),
        {
            let c = if (byte >> (7 - j)) & 1 == 1 {
                '1'
            } else {
                '0'
            };
            out.push(c);
        }
    }
    proof {
        assert forall|k: int| 0 <= k < out@.len() implies out@[k] == bit_char(input@[k / 8], k % 8) by {
            lemma_fundamental_div_mod(k, 8);
            let a = k / 8;
            let b = k % 8;
            assert(k == 8 * a + b);
            assert(out@[8 * a + b] == bit_char(input@[a], b));
        }
        assert(out@ =~= binary_chars(input@));
    }
    string_of(&out)
}

} // verus!
