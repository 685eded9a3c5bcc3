use std::collections::HashMap;

use crate::digits::{encoded, symbol_index, valid_alphabet};
use crate::text::chars_of;
use vstd::prelude::*;

verus! {

broadcast use vstd::std_specs::hash::group_hash_axioms;

/// Marks a byte that is not a symbol in a byte lookup table.
pub const INVALID_INDEX: u8 = 0xFF;

pub trait Alphabet {
    type Lookup: CharLookup;

    /// The symbols, in digit order.
    spec fn symbols(&self) -> Seq<char>;

    /// What this alphabet needs to encode and decode.
    spec fn valid(&self) -> bool;

    /// The bytes that `as_bytes` gives.
    spec fn byte_view(&self) -> Seq<u8>;

    /// The string that `encode` gives for `input`.
    spec fn encoding(&self, input: Seq<u8>) -> Seq<char>;

    proof fn lemma_valid(&self)
        requires
            self.valid(),
        ensures
            valid_alphabet(self.symbols()),
    ;

    /// Encode `input` over this alphabet.
    fn encode(&self, input: &[u8]) -> (r: String)
        requires
            self.valid(),
        ensures
            r@ == self.encoding(input@),
    ;

    /// Get a character from Alphabet at index.
    fn get(&self, index: usize) -> (c: char)
        requires
            self.valid(),
            index < self.symbols().len(),
        ensures
            c == self.symbols()[index as int],
    ;

    /// Get a byte array of the alphabet. This can be useful
    /// for ASCII-based alphabets.
    fn as_bytes(&self) -> (r: &[u8])
        ensures
            r@ == self.byte_view(),
    ;

    /// Returns a lookup type used to find an index of a char
    /// in the Alphabet.
    fn lookup_table(&self) -> (r: Self::Lookup)
        requires
            self.valid(),
        ensures
            forall|c: char| #[trigger] r.spec_get(c) == symbol_index(self.symbols(), c),
    ;

    /// Get the base (length in characters) of the Alphabet.
    fn base(&self) -> (r: usize)
        requires
            self.valid(),
        ensures
            r == self.symbols().len(),
    ;
}

pub trait CharLookup: Sized {
    /// The index that the table holds for `c`.
    spec fn spec_get(&self, c: char) -> Option<usize>;

    /// Get the index of the `char` in the Alphabet. If `char`
    /// is not in the Alphabet return `None`.
    fn get(&self, c: char) -> (r: Option<usize>)
        ensures
            r == self.spec_get(c),
    ;
}

/// The symbols of a byte alphabet: each byte read as the character of that code.
pub open spec fn byte_symbols(bytes: Seq<u8>) -> Seq<char> {
    bytes.map_values(|b: u8| b as char)
}

/// A byte alphabet: at least two distinct bytes, and fewer than 256 so that
/// every index differs from `INVALID_INDEX`.
pub open spec fn valid_byte_alphabet(bytes: Seq<u8>) -> bool {
    &&& 2 <= bytes.len() <= 255
    &&& bytes.no_duplicates()
}

/// What a byte lookup table says of `c`.
pub open spec fn table_get(table: [u8; 256], c: char) -> Option<usize> {
    if (c as u32) < 256 && table@[c as u32 as int] != INVALID_INDEX {
        Some(table@[c as u32 as int] as usize)
    } else {
        None
    }
}

pub proof fn lemma_byte_symbols(bytes: Seq<u8>)
    requires
        valid_byte_alphabet(bytes),
    ensures
        valid_alphabet(byte_symbols(bytes)),
{
    let s = byte_symbols(bytes);
    assert forall|i: int, j: int| 0 <= i < s.len() && 0 <= j < s.len() && i != j implies s[i]
        != s[j] by {
        assert(bytes[i] != bytes[j]);
    }
}

/// The table of byte alphabet `bytes`: the index of each symbol byte, and
/// `INVALID_INDEX` elsewhere.
pub fn byte_lookup_table(bytes: &[u8]) -> (r: [u8; 256])
    requires
        valid_byte_alphabet(bytes@),
    ensures
        forall|c: char| #[trigger] table_get(r, c) == symbol_index(byte_symbols(bytes@), c),
{
    let mut lookup: [u8; 256] = [INVALID_INDEX; 256];
    let n = bytes.len();
    for i in 0..n
        invariant
            n == bytes@.len(),
            valid_byte_alphabet(bytes@),
            forall|j: int| 0 <= j < i ==> lookup@[bytes@[j] as int] == j,
            forall|b: int|
                0 <= b < 256 && #[trigger] lookup@[b] != INVALID_INDEX ==> lookup@[b] < i
                    && bytes@[lookup@[b] as int] == b,
    {
        lookup[bytes[i] as usize] = i as u8;
        proof {
            assert forall|j: int| 0 <= j < i implies lookup@[bytes@[j] as int] == j by {
                assert(bytes@[j] != bytes@[i as int]);
            }
        }
    }
    proof {
        let s = byte_symbols(bytes@);
        assert forall|c: char| #[trigger] table_get(lookup, c) == symbol_index(s, c) by {
            if (c as u32) < 256 && lookup@[c as u32 as int] != INVALID_INDEX {
                let k = lookup@[c as u32 as int] as int;
                assert(bytes@[k] as int == c as u32 as int);
                vstd::utf8::char_u32_cast(c, c as u32);
                assert(bytes@[k] as char == (c as u32) as char);
                assert(bytes@[k] as char == c);
                assert(s[k] == c);
                assert(s.contains(c));
                let m = s.index_of(c);
                assert(s[m] == c);
                assert(bytes@[m] == bytes@[k]);
            } else if s.contains(c) {
                let m = s.index_of(c);
                assert(s[m] == c);
                assert(lookup@[bytes@[m] as int] == m);
            }
        }
    }
    lookup
}

impl CharLookup for [u8; 256] {
    open spec fn spec_get(&self, c: char) -> Option<usize> {
        table_get(*self, c)
    }

    fn get(&self, byte: char) -> (r: Option<usize>) {
        let code = byte as u32;
        if code >= 256 {
            return None;
        }
        match self[code as usize] {
            INVALID_INDEX => None,
            index => Some(index as usize),
        }
    }
}

impl<'a> CharLookup for &'a [u8; 256] {
    open spec fn spec_get(&self, c: char) -> Option<usize> {
        table_get(**self, c)
    }

    fn get(&self, byte: char) -> (r: Option<usize>) {
        let code = byte as u32;
        if code >= 256 {
            return None;
        }
        match self[code as usize] {
            INVALID_INDEX => None,
            index => Some(index as usize),
        }
    }
}

impl CharLookup for HashMap<u32, usize> {
    open spec fn spec_get(&self, c: char) -> Option<usize> {
        if self@.contains_key(c as u32) {
            Some(self@[c as u32])
        } else {
            None
        }
    }

    fn get(&self, ch: char) -> (r: Option<usize>) {
        match HashMap::get(self, &(ch as u32)) {
            Some(index) => Some(*index),
            None => None,
        }
    }
}

} // verus!

verus! {

/// The digits of the binary alphabet.
pub const BINARY_DIGITS: [u8; 2] = [48, 49];

#[derive(Clone, Copy)]
pub struct Binary;

impl<'a> Alphabet for &'a [u8] {
    type Lookup = [u8; 256];

    open spec fn symbols(&self) -> Seq<char> {
        byte_symbols(self@)
    }

    open spec fn valid(&self) -> bool {
        valid_byte_alphabet(self@)
    }

    open spec fn byte_view(&self) -> Seq<u8> {
        self@
    }

    open spec fn encoding(&self, input: Seq<u8>) -> Seq<char> {
        encoded(self.symbols(), input)
    }

    proof fn lemma_valid(&self) {
        lemma_byte_symbols(self@);
    }

    fn encode(&self, input: &[u8]) -> (r: String) {
        crate::encoder::AsciiEncoder::encode(*self, input)
    }

    fn get(&self, index: usize) -> (c: char) {
        self[index] as char
    }

    fn as_bytes(&self) -> (r: &[u8]) {
        *self
    }

    /// Produces the lookup table matching byte index [0 - 255] to a
    /// corresponding alphabet byte.
    ///
    /// The table is built anew on every call: an implementation of
    /// `Alphabet` for a fixed alphabet may return a precomputed one.
    fn lookup_table(&self) -> (r: [u8; 256]) {
        byte_lookup_table(*self)
    }

    fn base(&self) -> (r: usize) {
        self.len()
    }
}

impl<'a> Alphabet for &'a str {
    type Lookup = HashMap<u32, usize>;

    open spec fn symbols(&self) -> Seq<char> {
        self@
    }

    open spec fn valid(&self) -> bool {
        valid_alphabet(self@)
    }

    open spec fn byte_view(&self) -> Seq<u8> {
        vstd::string::StringSliceAdditionalSpecFns::spec_bytes(*self)
    }

    open spec fn encoding(&self, input: Seq<u8>) -> Seq<char> {
        encoded(self.symbols(), input)
    }

    proof fn lemma_valid(&self) {
    }

    fn encode(&self, input: &[u8]) -> (r: String) {
        let alphabet = chars_of(*self);
        crate::encoder::Utf8Encoder::encode(alphabet.as_slice(), input)
    }

    fn get(&self, index: usize) -> (c: char) {
        vstd::string::StrSliceExecFns::get_char(*self, index)
    }

    fn as_bytes(&self) -> (r: &[u8]) {
        str::as_bytes(*self)
    }

    /// Produces the map from each symbol (by its code) to its index.
    fn lookup_table(&self) -> (r: HashMap<u32, usize>)
        ensures
            r@.len() == self@.len(),
            forall|k: u32| #[trigger]
                r@.contains_key(k) ==> exists|i: int| 0 <= i < self@.len() && k == self@[i] as u32,
    {
        let chars = chars_of(*self);
        let n = chars.len();
        let mut map: HashMap<u32, usize> = HashMap::new();
        for i in 0..n
            invariant
                n == chars@.len(),
                chars@.no_duplicates(),
                map@.dom().finite(),
                map@.len() == i,
                forall|k: int| 0 <= k < i ==> #[trigger] map@.contains_key(chars@[k] as u32)
                    && map@[chars@[k] as u32] == k,
                forall|key: u32| #[trigger]
                    map@.contains_key(key) ==> map@[key] < i && chars@[map@[key] as int] as u32
                        == key,
        {
            let ghost m0 = map@;
            proof {
                if m0.contains_key(chars@[i as int] as u32) {
                    let k = m0[chars@[i as int] as u32] as int;
                    vstd::utf8::char_u32_cast(chars@[k], chars@[k] as u32);
                    vstd::utf8::char_u32_cast(chars@[i as int], chars@[i as int] as u32);
                    assert(chars@[k] == chars@[i as int]);
                }
            }
            map.insert(chars[i] as u32, i);
            proof {
                assert(map@.dom() =~= m0.dom().insert(chars@[i as int] as u32));
                assert forall|k: int| 0 <= k < i implies #[trigger] map@.contains_key(
                    chars@[k] as u32,
                ) && map@[chars@[k] as u32] == k by {
                    assert(chars@[k] != chars@[i as int]);
                    assert(m0.contains_key(chars@[k] as u32));
                    vstd::utf8::char_u32_cast(chars@[k], chars@[k] as u32);
                    vstd::utf8::char_u32_cast(chars@[i as int], chars@[i as int] as u32);
                }
            }
        }
        proof {
            let s = chars@;
            assert forall|k: u32| #[trigger] map@.contains_key(k) implies exists|i: int|
                0 <= i < s.len() && k == s[i] as u32 by {
                assert(k == s[map@[k] as int] as u32);
            }
            assert forall|c: char| #[trigger] map.spec_get(c) == symbol_index(s, c) by {
                vstd::utf8::char_u32_cast(c, c as u32);
                if map@.contains_key(c as u32) {
                    let k = map@[c as u32] as int;
                    vstd::utf8::char_u32_cast(s[k], s[k] as u32);
                    assert(s[k] == c);
                    assert(s.contains(c));
                    let m = s.index_of(c);
                    assert(0 <= m < s.len() && s[m] == c);
                } else if s.contains(c) {
                    let m = s.index_of(c);
                    assert(0 <= m < s.len() && s[m] == c);
                    assert(map@.contains_key(s[m] as u32));
                }
            }
        }
        map
    }

    fn base(&self) -> (r: usize) {
        vstd::string::StrSliceExecFns::unicode_len(*self)
    }
}

impl Alphabet for Binary {
    type Lookup = [u8; 256];

    open spec fn symbols(&self) -> Seq<char> {
        seq!['0', '1']
    }

    open spec fn valid(&self) -> bool {
        true
    }

    open spec fn byte_view(&self) -> Seq<u8> {
        seq![48u8, 49u8]
    }

    /// Eight characters for each byte, most significant bit first.
    open spec fn encoding(&self, input: Seq<u8>) -> Seq<char> {
        crate::encoder::binary_chars(input)
    }

    proof fn lemma_valid(&self) {
    }

    /// Writes each byte as its eight bits, most significant first.
    fn encode(&self, input: &[u8]) -> (r: String) {
        crate::encoder::encode_binary(input)
    }

    fn get(&self, index: usize) -> (c: char) {
        if index == 0 {
            '0'
        } else {
            '1'
        }
    }

    fn as_bytes(&self) -> (r: &[u8]) {
        let r: &[u8] = &BINARY_DIGITS;
        proof {
            assert(r@ =~= seq![48u8, 49u8]);
        }
        r
    }

    fn lookup_table(&self) -> (r: [u8; 256]) {
        let r = byte_lookup_table(self.as_bytes());
        proof {
            assert(byte_symbols(seq![48u8, 49u8]) =~= seq!['0', '1']);
        }
        r
    }

    fn base(&self) -> (r: usize) {
        2
    }
}

} // verus!
