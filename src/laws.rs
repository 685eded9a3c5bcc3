use crate::alphabet::{byte_symbols, valid_byte_alphabet, Alphabet};
use crate::digits::{all_symbols, byte_digits, bytes_value, decoded, digits_below, digits_value, encode_digits, encoded, is_canonical, leaders, lemma_canonical_digits, lemma_leaders, lemma_leaders_is, lemma_to_digits, lemma_zero_prefix_value, symbol_digits, to_bytes, to_digits, valid_alphabet, zero_bytes, zero_digits};
use vstd::prelude::*;

verus! {

proof fn lemma_symbol_of_index(symbols: Seq<char>, d: nat)
    requires
        valid_alphabet(symbols),
        d < symbols.len(),
    ensures
        symbols.contains(symbols[d as int]),
        symbols.index_of(symbols[d as int]) == d,
{
    let c = symbols[d as int];
    assert(symbols.contains(c));
    let m = symbols.index_of(c);
    assert(0 <= m < symbols.len() && symbols[m] == c);
}

proof fn lemma_index_of_symbol(symbols: Seq<char>, c: char)
    requires
        symbols.contains(c),
    ensures
        0 <= symbols.index_of(c) < symbols.len(),
        symbols[symbols.index_of(c)] == c,
{
}

proof fn lemma_byte_digits_split(b: Seq<u8>, z: nat)
    requires
        z <= b.len(),
        forall|i: int| 0 <= i < z ==> b[i] == 0,
    ensures
        byte_digits(b) =~= zero_digits(z) + byte_digits(b.subrange(z as int, b.len() as int)),
        bytes_value(b) == bytes_value(b.subrange(z as int, b.len() as int)),
{
    let rest = b.subrange(z as int, b.len() as int);
    assert(byte_digits(b) =~= zero_digits(z) + byte_digits(rest));
    lemma_zero_prefix_value(z, byte_digits(rest), 256);
}

proof fn lemma_bytes_of_digits(t: Seq<nat>)
    requires
        digits_below(t, 256),
    ensures
        byte_digits(t.map_values(|x: nat| x as u8)) =~= t,
{
}

/// Decoding what was encoded gives back the input, over any alphabet and
/// for every buffer, leading zero bytes and the empty buffer included.
pub proof fn lemma_decode_encode(symbols: Seq<char>, input: Seq<u8>)
    requires
        valid_alphabet(symbols),
    ensures
        decoded(symbols, encoded(symbols, input)) == Some(input),
{
    let s = encoded(symbols, input);
    if input.len() == 0 {
        assert(s =~= Seq::<char>::empty());
        assert(input =~= Seq::<u8>::empty());
    } else {
        let base = symbols.len();
        let z = leaders(input, 0u8);
        let n = bytes_value(input);
        let d = to_digits(n, base);
        let e = zero_digits(z) + d;
        lemma_to_digits(n, base);
        assert(s == e.map_values(|x: nat| symbols[x as int]));
        assert forall|i: int| 0 <= i < s.len() implies symbols.contains(#[trigger] s[i])
            && symbols.index_of(s[i]) == e[i] by {
            assert(e[i] < base);
            lemma_symbol_of_index(symbols, e[i]);
        }
        assert(all_symbols(symbols, s));
        assert(symbol_digits(symbols, s) =~= e);
        lemma_zero_prefix_value(z, d, base);
        lemma_leaders(input, 0u8);
        assert forall|i: int| 0 <= i < z implies s[i] == symbols[0] by {
            assert(e[i] == 0);
        }
        if z < s.len() - 1 {
            assert(d.len() >= 2);
            assert(d[0] != 0);
            assert(s[z as int] == symbols[d[0] as int]);
            assert(symbols[d[0] as int] != symbols[0]);
        }
        lemma_leaders_is(s, symbols[0], z);
        let rest = input.subrange(z as int, input.len() as int);
        lemma_byte_digits_split(input, z);
        assert(is_canonical(byte_digits(rest))) by {
            assert(byte_digits(rest)[0] == input[z as int] as nat);
        }
        lemma_canonical_digits(byte_digits(rest), 256);
        assert(to_bytes(n) =~= rest);
        assert(zero_bytes(z) + rest =~= input);
    }
}

/// Encoding what was decoded gives back the string, for every string made
/// of the alphabet's symbols.
pub proof fn lemma_encode_decode(symbols: Seq<char>, s: Seq<char>)
    requires
        valid_alphabet(symbols),
        all_symbols(symbols, s),
    ensures
        decoded(symbols, s) is Some,
        encoded(symbols, decoded(symbols, s)->0) == s,
{
    if s.len() == 0 {
        assert(encoded(symbols, Seq::<u8>::empty()) =~= s);
    } else {
        let base = symbols.len();
        let x0 = symbols[0];
        let l = leaders(s, x0);
        let d = symbol_digits(symbols, s);
        let v = digits_value(d, base);
        let b = zero_bytes(l) + to_bytes(v);
        assert(decoded(symbols, s) == Some(b));
        assert forall|i: int| 0 <= i < s.len() implies #[trigger] d[i] < base && symbols[d[i] as int]
            == s[i] by {
            assert(symbols.contains(s[i]));
            lemma_index_of_symbol(symbols, s[i]);
        }
        lemma_leaders(s, x0);
        assert forall|i: int| 0 <= i < l implies d[i] == 0 by {
            assert(s[i] == x0);
            lemma_symbol_of_index(symbols, 0);
        }
        let dr = d.subrange(l as int, d.len() as int);
        assert(d =~= zero_digits(l) + dr);
        lemma_zero_prefix_value(l, dr, base);
        assert(is_canonical(dr)) by {
            if l < s.len() - 1 {
                assert(s[l as int] != x0);
                if d[l as int] == 0 {
                    assert(symbols[d[l as int] as int] == s[l as int]);
                }
            }
        }
        assert(digits_below(dr, base)) by {
            assert forall|i: int| 0 <= i < dr.len() implies #[trigger] dr[i] < base by {
                assert(dr[i] == d[i + l]);
            }
        }
        lemma_canonical_digits(dr, base);
        let t = to_digits(v, 256);
        lemma_to_digits(v, 256);
        lemma_bytes_of_digits(t);
        let tb = to_bytes(v);
        assert(byte_digits(b) =~= zero_digits(l) + t);
        lemma_zero_prefix_value(l, t, 256);
        assert(bytes_value(b) == v);
        assert forall|i: int| 0 <= i < l implies b[i] == 0u8 by {}
        if l < b.len() - 1 {
            assert(t.len() >= 2);
            assert(t[0] != 0);
            assert(b[l as int] == tb[0]);
            assert(tb[0] as nat == t[0]);
        }
        lemma_leaders_is(b, 0u8, l);
        assert(encode_digits(b, base) =~= d);
        assert(encoded(symbols, b) =~= s);
    }
}

/// `n` zero bytes encode to `n` copies of the alphabet's first symbol, and
/// that string decodes to `n` zero bytes.
pub proof fn lemma_leading_zeros(symbols: Seq<char>, n: nat)
    requires
        valid_alphabet(symbols),
        n >= 1,
    ensures
        encoded(symbols, zero_bytes(n)) == Seq::new(n, |i: int| symbols[0]),
        decoded(symbols, Seq::new(n, |i: int| symbols[0])) == Some(zero_bytes(n)),
{
    let b = zero_bytes(n);
    lemma_leaders_is(b, 0u8, (n - 1) as nat);
    lemma_byte_digits_split(b, n);
    assert(b.subrange(n as int, n as int) =~= Seq::<u8>::empty());
    assert(bytes_value(b.subrange(n as int, n as int)) == 0);
    lemma_to_digits(0, symbols.len());
    assert(encode_digits(b, symbols.len()) =~= zero_digits(n));
    assert(encoded(symbols, b) =~= Seq::new(n, |i: int| symbols[0]));
    lemma_decode_encode(symbols, b);
}

/// The empty buffer encodes to the empty string, and the empty string decodes
/// to the empty buffer.
pub proof fn lemma_empty(symbols: Seq<char>)
    ensures
        encoded(symbols, Seq::empty()) == Seq::<char>::empty(),
        decoded(symbols, Seq::empty()) == Some(Seq::<u8>::empty()),
{
    assert(encoded(symbols, Seq::empty()) =~= Seq::<char>::empty());
}

/// A string with a character that is not a symbol, wherever it stands, does
/// not decode.
pub proof fn lemma_invalid_symbol(symbols: Seq<char>, s: Seq<char>, i: int)
    requires
        0 <= i < s.len(),
        !symbols.contains(s[i]),
    ensures
        decoded(symbols, s) is None,
{
}

/// An ASCII string alphabet and the byte alphabet of its bytes are the same
/// alphabet: they encode and decode alike.
pub proof fn lemma_alphabet_kinds(bytes: &[u8], text: &str, input: Seq<u8>, s: Seq<char>)
    requires
        vstd::string::is_ascii(text),
        vstd::string::StringSliceAdditionalSpecFns::spec_bytes(text) == bytes@,
    ensures
        bytes.symbols() == text.symbols(),
        bytes.valid() ==> text.valid(),
        encoded(bytes.symbols(), input) == encoded(text.symbols(), input),
        decoded(bytes.symbols(), s) == decoded(text.symbols(), s),
{
    vstd::string::is_ascii_spec_bytes(text);
    assert forall|i: int| 0 <= i < text@.len() implies byte_symbols(bytes@)[i] == text@[i] by {
        let c = text@[i];
        assert('\0' <= c <= '\u{7f}');
        assert(bytes@[i] == c as u8);
        vstd::utf8::char_u32_cast(c, c as u32);
        assert(bytes@[i] as char == (c as u32) as char);
    }
    assert(byte_symbols(bytes@) =~= text@);
    if bytes.valid() {
        crate::alphabet::lemma_byte_symbols(bytes@);
    }
}

} // verus!
