use crate::alphabet::{byte_symbols, lemma_byte_symbols, valid_byte_alphabet, CharLookup};
use crate::digits::{all_symbols, decoded, digits_value, leaders, lemma_leaders_is, symbol_digits, symbol_index, to_bytes, valid_alphabet, zero_bytes};
use crate::radix::{lemma_lsb_canonical_digits, lsb_canonical, lsb_value, mul_add, word_digits};
use crate::text::chars_of;
use crate::DecodeError;
use vstd::arithmetic::mul::*;
use vstd::prelude::*;

verus! {

pub struct AsciiDecoder;

pub struct Utf8Decoder;

/// The number of leading `zero` symbols of a nonempty string, its last
/// symbol left out.
pub fn leading_symbols(chars: &Vec<char>, zero: char) -> (z: usize)
    requires
        chars@.len() > 0,
    ensures
        z == leaders(chars@, zero),
{
    let n = chars.len();
    let mut z: usize = 0;
    while z < n - 1 && chars[z] == zero
        invariant
            n == chars@.len(),
            n > 0,
            z <= n - 1,
            forall|i: int| 0 <= i < z ==> chars@[i] == zero,
        decreases n - z,
    {
        z = z + 1;
    }
    proof {
        lemma_leaders_is(chars@, zero, z as nat);
    }
    z
}

/// `lead` zero bytes, then the big-endian bytes of the value of `digits`
/// (in base `base`, most significant first), accumulated by Horner's rule.
pub fn digits_to_bytes(digits: &Vec<u32>, base: u32, lead: usize) -> (r: Vec<u8>)
    requires
        2 <= base,
        forall|i: int| 0 <= i < digits@.len() ==> #[trigger] digits@[i] < base,
    ensures
        r@ == zero_bytes(lead as nat) + to_bytes(digits_value(word_digits(digits@), base as nat)),
{
    let mut acc: Vec<u32> = vec![0];
    proof {
        assert(acc@.drop_last() =~= Seq::<u32>::empty());
        assert(lsb_value(Seq::<u32>::empty(), 256) == 0);
        lemma_mul_by_zero_is_zero(vstd::arithmetic::power::pow(256, 0));
        assert(lsb_value(acc@, 256) == 0);
        assert(word_digits(digits@.take(0)) =~= Seq::<nat>::empty());
        assert(digits_value(Seq::<nat>::empty(), base as nat) == 0);
    }
    let n = digits.len();
    for i in 0..n
        invariant
            n == digits@.len(),
            2 <= base,
            forall|k: int| 0 <= k < digits@.len() ==> #[trigger] digits@[k] < base,
            lsb_canonical(acc@, 256),
            lsb_value(acc@, 256) == digits_value(word_digits(digits@.take(i as int)), base as nat),
    {
        let ghost before = acc@;
        mul_add(&mut acc, 256, base, digits[i]);
        proof {
            assert(word_digits(digits@.take(i + 1)).drop_last() =~= word_digits(
                digits@.take(i as int),
            ));
            lemma_mul_is_commutative(base as int, lsb_value(before, 256));
        }
    }
    proof {
        assert(digits@.take(n as int) =~= digits@);
        lemma_lsb_canonical_digits(acc@, 256);
    }
    let ghost target = zero_bytes(lead as nat) + to_bytes(
        digits_value(word_digits(digits@), base as nat),
    );
    let mut r: Vec<u8> = Vec::new();
    for i in 0..lead
        invariant
            r@.len() == i,
            forall|k: int| 0 <= k < i ==> r@[k] == 0,
    {
        r.push(0);
    }
    let m = acc.len();
    let mut j = m;
    while j > 0
        invariant
            j <= m == acc@.len(),
            lsb_canonical(acc@, 256),
            r@.len() == lead + (m - j),
            forall|k: int| 0 <= k < lead ==> r@[k] == 0,
            forall|k: int| lead <= k < r@.len() ==> r@[k] == acc@[m - 1 - (k - lead)] as u8,
        decreases j,
    {
        j = j - 1;
        r.push(acc[j] as u8);
    }
    proof {
        assert(r@ =~= target);
    }
    r
}

/// The digit of each character, through `lookup`; `None` when a character
/// is not a symbol.
pub(crate) fn lookup_digits<L: CharLookup>(lookup: &L, chars: &Vec<char>, symbols: Ghost<Seq<char>>) -> (r:
    Option<Vec<u32>>)
    requires
        valid_alphabet(symbols@),
        forall|c: char| #[trigger] lookup.spec_get(c) == symbol_index(symbols@, c),
    ensures
        r is None <==> !all_symbols(symbols@, chars@),
        r matches Some(v) ==> word_digits(v@) == symbol_digits(symbols@, chars@) && (forall|i: int|
            0 <= i < v@.len() ==> #[trigger] v@[i] < symbols@.len()),
{
    let mut v: Vec<u32> = Vec::new();
    let n = chars.len();
    for i in 0..n
        invariant
            n == chars@.len(),
            valid_alphabet(symbols@),
            forall|c: char| #[trigger] lookup.spec_get(c) == symbol_index(symbols@, c),
            v@.len() == i,
            forall|k: int| 0 <= k < i ==> symbols@.contains(#[trigger] chars@[k]),
            forall|k: int| 0 <= k < i ==> #[trigger] v@[k] == symbols@.index_of(chars@[k]),
            forall|k: int| 0 <= k < i ==> #[trigger] v@[k] < symbols@.len(),
    {
        let c = chars[i];
        match lookup.get(c) {
            None => {
                return None;
            },
            Some(index) => {
                proof {
                    assert(symbols@.contains(c));
                    let m = symbols@.index_of(c);
                    assert(0 <= m < symbols@.len() && symbols@[m] == c);
                }
                v.push(index as u32);
            },
        }
    }
    proof {
        assert(word_digits(v@) =~= symbol_digits(symbols@, chars@));
    }
    Some(v)
}

/// The index of `c` in `alphabet`, by a scan from the front.
pub fn find_index(alphabet: &[char], c: char) -> (r: Option<usize>)
    requires
        alphabet@.no_duplicates(),
    ensures
        r == symbol_index(alphabet@, c),
{
    let n = alphabet.len();
    for i in 0..n
        invariant
            n == alphabet@.len(),
            alphabet@.no_duplicates(),
            forall|k: int| 0 <= k < i ==> alphabet@[k] != c,
    {
        if alphabet[i] == c {
            proof {
                assert(alphabet@.contains(c));
                let m = alphabet@.index_of(c);
                assert(alphabet@[m] == c);
                assert(0 <= m < alphabet@.len());
                assert(alphabet@[m] == alphabet@[i as int]);
                assert(m == i);
            }
            return Some(i);
        }
    }
    None
}

/// Decodes the characters `chars` over the alphabet `symbols`, whose first
/// symbol is `zero`, given the digits of the characters.
pub(crate) fn finish(chars: &Vec<char>, zero: char, digits: Option<Vec<u32>>, base: u32, symbols: Ghost<Seq<char>>) -> (r: Result<Vec<u8>, DecodeError>)
    requires
        valid_alphabet(symbols@),
        base == symbols@.len(),
        zero == symbols@[0],
        chars@.len() > 0,
        digits is None <==> !all_symbols(symbols@, chars@),
        digits matches Some(v) ==> word_digits(v@) == symbol_digits(symbols@, chars@) && (forall|i: int|
            0 <= i < v@.len() ==> #[trigger] v@[i] < symbols@.len()),
    ensures
        decoded(symbols@, chars@) is None <==> r is Err,
        r matches Ok(v) ==> decoded(symbols@, chars@) == Some(v@),
{
    match digits {
        None => Err(DecodeError),
        Some(d) => {
            let lead = leading_symbols(chars, zero);
            Ok(digits_to_bytes(&d, base, lead))
        },
    }
}

impl AsciiDecoder {
    pub fn decode(alphabet: &[u8], lookup: [u8; 256], input: &str) -> (r: Result<Vec<u8>, DecodeError>)
        requires
            valid_byte_alphabet(alphabet@),
            forall|c: char| #[trigger] lookup.spec_get(c) == symbol_index(byte_symbols(alphabet@), c),
        ensures
            decoded(byte_symbols(alphabet@), input@) is None <==> r is Err,
            r matches Ok(v) ==> decoded(byte_symbols(alphabet@), input@) == Some(v@),
    {
        let chars = chars_of(input);
        if chars.len() == 0 {
            return Ok(Vec::new());
        }
        let ghost symbols = byte_symbols(alphabet@);
        proof {
            lemma_byte_symbols(alphabet@);
        }
        let digits = lookup_digits(&lookup, &chars, Ghost(symbols));
        finish(&chars, alphabet[0] as char, digits, alphabet.len() as u32, Ghost(symbols))
    }
}

impl Utf8Decoder {
    pub fn decode(alphabet: &[char], input: &str) -> (r: Result<Vec<u8>, DecodeError>)
        requires
            valid_alphabet(alphabet@),
        ensures
            decoded(alphabet@, input@) is None <==> r is Err,
            r matches Ok(v) ==> decoded(alphabet@, input@) == Some(v@),
    {
        let chars = chars_of(input);
        if chars.len() == 0 {
            return Ok(Vec::new());
        }
        let mut v: Vec<u32> = Vec::new();
        let n = chars.len();
        for i in 0..n
            invariant
                n == chars@.len(),
                chars@ == input@,
                valid_alphabet(alphabet@),
                v@.len() == i,
                forall|k: int| 0 <= k < i ==> alphabet@.contains(#[trigger] chars@[k]),
                forall|k: int| 0 <= k < i ==> #[trigger] v@[k] == alphabet@.index_of(chars@[k]),
                forall|k: int| 0 <= k < i ==> #[trigger] v@[k] < alphabet@.len(),
        {
            match find_index(alphabet, chars[i]) {
                None => {
                    proof {
                        assert(!alphabet@.contains(chars@[i as int]));
                        assert(!all_symbols(alphabet@, input@));
                    }
                    return Err(DecodeError);
                },
                Some(index) => {
                    proof {
                        let m = alphabet@.index_of(chars@[i as int]);
                        assert(0 <= m < alphabet@.len() && alphabet@[m] == chars@[i as int]);
                    }
                    v.push(index as u32);
                },
            }
        }
        proof {
            assert(word_digits(v@) =~= symbol_digits(alphabet@, chars@));
        }
        finish(&chars, alphabet[0], Some(v), alphabet.len() as u32, Ghost(alphabet@))
    }
}

} // verus!
