//! Encode byte buffers as strings over any alphabet, and decode them back.
//!
//! ```
//! let decoded = base_x::decode("01", "11111111000000001111111100000000").unwrap();
//! let encoded = base_x::encode("01", &decoded);
//! assert_eq!(encoded, "11111111000000001111111100000000");
//! ```

pub mod digits;
pub mod radix;
pub mod text;
pub mod alphabet;
pub mod bigint;
pub mod encoder;
pub mod decoder;
pub mod laws;

pub use alphabet::{Alphabet, CharLookup};

use digits::{byte_digits, bytes_value, decoded, encoded, valid_alphabet};
use radix::{lemma_lsb_canonical_digits, lsb_canonical, lsb_value, mul_add};
use vstd::prelude::*;

verus! {

/// The input string holds a character that is not a symbol of the alphabet.
#[derive(Debug)]
pub struct DecodeError;

impl DecodeError {
    /// What went wrong, in words.
    pub fn description(&self) -> (r: &'static str)
        ensures
            r@ == "Can not decode the provided data"@,
    {
        "Can not decode the provided data"
    }
}

/// Encode an input vector using the given alphabet.
pub fn encode<A: Alphabet>(alphabet: A, input: &[u8]) -> (r: String)
    requires
        alphabet.valid(),
    ensures
        r@ == encoded(alphabet.symbols(), input@),
{
    proof {
        alphabet.lemma_valid();
    }
    if input.len() == 0 {
        let r = String::new();
        proof {
            assert(r@ =~= encoded(alphabet.symbols(), input@));
        }
        return r;
    }
    let base = alphabet.base() as u32;
    let mut digits: Vec<u32> = vec![0];
    proof {
        assert(digits@.drop_last() =~= Seq::<u32>::empty());
        vstd::arithmetic::mul::lemma_mul_by_zero_is_zero(vstd::arithmetic::power::pow(base as int, 0));
        assert(lsb_value(Seq::<u32>::empty(), base as nat) == 0);
        assert(byte_digits(input@.take(0)) =~= Seq::<nat>::empty());
        assert(digits::digits_value(Seq::<nat>::empty(), 256) == 0);
    }
    let n = input.len();
    for i in 0..n
        invariant
            n == input@.len(),
            2 <= base,
            lsb_canonical(digits@, base as nat),
            lsb_value(digits@, base as nat) == bytes_value(input@.take(i as int)),
    {
        let ghost before = digits@;
        mul_add(&mut digits, base, 256, input[i] as u32);
        proof {
            assert(byte_digits(input@.take(i + 1)).drop_last() =~= byte_digits(input@.take(i as int)));
            vstd::arithmetic::mul::lemma_mul_is_commutative(256, lsb_value(before, base as nat));
        }
    }
    proof {
        assert(input@.take(n as int) =~= input@);
        lemma_lsb_canonical_digits(digits@, base as nat);
    }
    let lead = encoder::leading_zero_bytes(input);
    let ghost target = encoded(alphabet.symbols(), input@);
    let mut out: Vec<char> = Vec::new();
    let zero = alphabet.get(0);
    for k in 0..lead
        invariant
            out@.len() == k,
            forall|j: int| 0 <= j < k ==> out@[j] == zero,
    {
        out.push(zero);
    }
    let m = digits.len();
    let mut j = m;
    while j > 0
        invariant
            j <= m == digits@.len(),
            alphabet.valid(),
            base == alphabet.symbols().len(),
            lsb_canonical(digits@, base as nat),
            out@.len() == lead + (m - j),
            forall|k: int| 0 <= k < lead ==> out@[k] == zero,
            forall|k: int|
                lead <= k < out@.len() ==> out@[k] == alphabet.symbols()[digits@[m - 1 - (k - lead)] as int],
        decreases j,
    {
        j = j - 1;
        out.push(alphabet.get(digits[j] as usize));
    }
    proof {
        assert(out@ =~= target);
    }
    text::string_of(&out)
}

/// Decode an input vector using the given alphabet.
pub fn decode<A: Alphabet>(alphabet: A, input: &str) -> (r: Result<Vec<u8>, DecodeError>)
    requires
        alphabet.valid(),
    ensures
        decoded(alphabet.symbols(), input@) is None <==> r is Err,
        r matches Ok(v) ==> decoded(alphabet.symbols(), input@) == Some(v@),
{
    let chars = text::chars_of(input);
    if chars.len() == 0 {
        return Ok(Vec::new());
    }
    proof {
        alphabet.lemma_valid();
    }
    let base = alphabet.base() as u32;
    let lookup = alphabet.lookup_table();
    let digits = decoder::lookup_digits(&lookup, &chars, Ghost(alphabet.symbols()));
    decoder::finish(&chars, alphabet.get(0), digits, base, Ghost(alphabet.symbols()))
}

} // verus!
