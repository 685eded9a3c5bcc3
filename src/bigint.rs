use crate::digits::{byte_digits, bytes_value, digits_value, lemma_value_concat, lemma_value_positive, lemma_zero_prefix_value, zero_digits};
use crate::radix::word_digits;
use vstd::arithmetic::div_mod::*;
use vstd::arithmetic::mul::*;
use vstd::arithmetic::power::*;
use vstd::prelude::*;

verus! {

/// The radix of a word.
pub open spec fn word_base() -> nat {
    0x1_0000_0000
}

/// An unsigned integer of any size, held as 32-bit words, most significant first.
pub struct BigUint {
    pub chunks: Vec<u32>,
}

impl View for BigUint {
    type V = nat;

    open spec fn view(&self) -> nat {
        digits_value(word_digits(self.chunks@), word_base())
    }
}

proof fn lemma_pow_256_4()
    ensures
        pow(256, 4) == 0x1_0000_0000,
{
    reveal_with_fuel(pow, 5);
}

proof fn lemma_byte_prefix_step(b: Seq<u8>, start: int, k: int)
    requires
        0 <= start <= k < b.len(),
    ensures
        byte_digits(b.subrange(start, k + 1)).drop_last() =~= byte_digits(b.subrange(start, k)),
        byte_digits(b.subrange(start, k + 1)).last() == b[k] as nat,
{
}

/// The big-endian value of `bytes[start..end]`, at most four bytes.
fn slice_to_u32(bytes: &[u8], start: usize, end: usize) -> (r: u32)
    requires
        start <= end <= bytes@.len(),
        end - start <= 4,
    ensures
        r == bytes_value(bytes@.subrange(start as int, end as int)),
{
    let mut w: u32 = 0;
    let mut k = start;
    proof {
        assert(byte_digits(bytes@.subrange(start as int, start as int)) =~= Seq::<nat>::empty());
        lemma_pow0(256);
    }
    while k < end
        invariant
            start <= k <= end <= bytes@.len(),
            end - start <= 4,
            w == bytes_value(bytes@.subrange(start as int, k as int)),
            w < pow(256, (k - start) as nat),
        decreases end - k,
    {
        proof {
            lemma_byte_prefix_step(bytes@, start as int, k as int);
            assert(pow(256, (k + 1 - start) as nat) == 256 * pow(256, (k - start) as nat)) by {
                reveal(pow);
            }
            lemma_pow_increases(256, (k + 1 - start) as nat, 4);
            lemma_pow_256_4();
            assert(w * 256 + bytes[k as int] < 256 * pow(256, (k - start) as nat)) by (nonlinear_arith)
                requires
                    w < pow(256, (k - start) as nat),
                    bytes[k as int] < 256,
            ;
        }
        w = w * 256 + bytes[k] as u32;
        k = k + 1;
    }
    w
}

proof fn lemma_split_value(b: Seq<u8>, pos: int, end: int)
    requires
        0 <= pos <= end <= b.len(),
    ensures
        bytes_value(b.subrange(0, end)) == bytes_value(b.subrange(0, pos)) * pow(
            256,
            (end - pos) as nat,
        ) + bytes_value(b.subrange(pos, end)),
{
    assert(byte_digits(b.subrange(0, end)) =~= byte_digits(b.subrange(0, pos)) + byte_digits(
        b.subrange(pos, end),
    ));
    lemma_value_concat(byte_digits(b.subrange(0, pos)), byte_digits(b.subrange(pos, end)), 256);
}

proof fn lemma_long_division_step(lp: int, vp: int, carry: int, w: int, cur: int, q: int, r: int, d: int, base: int)
    by (nonlinear_arith)
    requires
        lp == vp * d + carry,
        cur == carry * base + w,
        cur == q * d + r,
    ensures
        lp * base + w == (vp * base + q) * d + r,
{
}

proof fn lemma_quotient_fits(carry: int, w: int, d: int, base: int)
    by (nonlinear_arith)
    requires
        0 <= carry < d,
        0 <= w < base,
    ensures
        0 <= carry * base + w < d * base,
{
}

impl BigUint {
    /// Reads a big-endian byte buffer as one number: the first word takes
    /// the bytes that do not fill a whole word, padded with zeros in front.
    pub fn from_bytes_be(bytes: &[u8]) -> (r: BigUint)
        ensures
            r@ == bytes_value(bytes@),
            r.chunks@.len() == (bytes@.len() + 3) / 4,
    {
        let n = bytes.len();
        let first = n % 4;
        let mut chunks: Vec<u32> = Vec::new();
        let mut pos: usize = 0;
        proof {
            assert(word_digits(chunks@) =~= Seq::<nat>::empty());
            assert(byte_digits(bytes@.subrange(0, 0)) =~= Seq::<nat>::empty());
        }
        if first > 0 {
            let w = slice_to_u32(bytes, 0, first);
            chunks.push(w);
            proof {
                assert(word_digits(chunks@) =~= seq![w as nat]);
                crate::digits::lemma_value_single(w as nat, word_base());
            }
            pos = first;
        }
        while pos < n
            invariant
                pos <= n == bytes@.len(),
                (n - pos) % 4 == 0,
                chunks@.len() == (pos + 3) / 4,
                digits_value(word_digits(chunks@), word_base()) == bytes_value(
                    bytes@.subrange(0, pos as int),
                ),
            decreases n - pos,
        {
            let w = slice_to_u32(bytes, pos, pos + 4);
            let ghost before = chunks@;
            chunks.push(w);
            proof {
                assert(word_digits(chunks@).drop_last() =~= word_digits(before));
                lemma_split_value(bytes@, pos as int, pos + 4);
                lemma_pow_256_4();
            }
            pos = pos + 4;
        }
        proof {
            assert(bytes@.subrange(0, n as int) =~= bytes@);
        }
        BigUint { chunks }
    }

    /// Divides the number by `divider` in place, and returns the remainder.
    pub fn rem_div(&mut self, divider: u32) -> (r: u32)
        requires
            divider > 0,
        ensures
            final(self).chunks@.len() == old(self).chunks@.len(),
            final(self)@ == old(self)@ / divider as nat,
            r == old(self)@ % divider as nat,
    {
        let ghost c0 = self.chunks@;
        let n = self.chunks.len();
        let mut carry: u64 = 0;
        let mut i: usize = 0;
        proof {
            assert(word_digits(c0.subrange(0, 0)) =~= Seq::<nat>::empty());
            assert(word_digits(self.chunks@.subrange(0, 0)) =~= Seq::<nat>::empty());
            assert(digits_value(Seq::<nat>::empty(), word_base()) == 0);
            lemma_mul_by_zero_is_zero(divider as int);
        }
        while i < n
            invariant
                self.chunks@.len() == n == c0.len(),
                i <= n,
                divider > 0,
                carry < divider,
                forall|k: int| i <= k < n ==> self.chunks@[k] == c0[k],
                digits_value(word_digits(c0.subrange(0, i as int)), word_base()) == digits_value(
                    word_digits(self.chunks@.subrange(0, i as int)),
                    word_base(),
                ) * divider + carry,
            decreases n - i,
        {
            let w = self.chunks[i];
            proof {
                lemma_quotient_fits(carry as int, w as int, divider as int, word_base() as int);
            }
            let cur: u64 = carry * 0x1_0000_0000u64 + w as u64;
            let q: u64 = cur / divider as u64;
            let rem: u64 = cur % divider as u64;
            proof {
                lemma_fundamental_div_mod(cur as int, divider as int);
                lemma_mul_is_commutative(divider as int, q as int);
                lemma_mod_bound(cur as int, divider as int);
                lemma_mul_is_commutative(divider as int, word_base() as int);
                lemma_multiply_divide_lt(cur as int, divider as int, word_base() as int);
            }
            let ghost before = self.chunks@;
            self.chunks.set(i, q as u32);
            proof {
                assert(word_digits(c0.subrange(0, i + 1)).drop_last() =~= word_digits(
                    c0.subrange(0, i as int),
                ));
                assert(word_digits(self.chunks@.subrange(0, i + 1)).drop_last() =~= word_digits(
                    before.subrange(0, i as int),
                ));
                lemma_long_division_step(
                    digits_value(word_digits(c0.subrange(0, i as int)), word_base()) as int,
                    digits_value(word_digits(before.subrange(0, i as int)), word_base()) as int,
                    carry as int, w as int, cur as int, q as int, rem as int, divider as int,
                    word_base() as int,
                );
            }
            carry = rem;
            i = i + 1;
        }
        proof {
            assert(c0.subrange(0, n as int) =~= c0);
            assert(self.chunks@.subrange(0, n as int) =~= self.chunks@);
            lemma_fundamental_div_mod_converse(
                old(self)@ as int,
                divider as int,
                self@ as int,
                carry as int,
            );
        }
        carry as u32
    }

    /// The last (least significant) word modulo `divider`.
    pub fn rem(&self, divider: u32) -> (r: u32)
        requires
            self.chunks@.len() > 0,
            divider > 0,
        ensures
            r == self.chunks@.last() % divider,
    {
        self.chunks[self.chunks.len() - 1] % divider
    }

    /// Whether every word is zero, which is whether the number is zero.
    pub fn is_zero(&self) -> (r: bool)
        ensures
            r == (self@ == 0),
    {
        let n = self.chunks.len();
        let mut i: usize = 0;
        while i < n
            invariant
                n == self.chunks@.len(),
                i <= n,
                forall|k: int| 0 <= k < i ==> self.chunks@[k] == 0,
            decreases n - i,
        {
            if self.chunks[i] != 0 {
                proof {
                    lemma_value_positive(word_digits(self.chunks@), word_base(), i as int);
                }
                return false;
            }
            i = i + 1;
        }
        proof {
            assert(word_digits(self.chunks@) =~= zero_digits(n as nat) + Seq::<nat>::empty());
            lemma_zero_prefix_value(n as nat, Seq::<nat>::empty(), word_base());
        }
        true
    }
}

} // verus!

verus! {

impl<'a> From<&'a [u8]> for BigUint {
    /// Reads the buffer as `from_bytes_be` does.
    fn from(bytes: &'a [u8]) -> (r: BigUint)
        ensures
            r@ == bytes_value(bytes@),
            r.chunks@.len() == (bytes@.len() + 3) / 4,
    {
        BigUint::from_bytes_be(bytes)
    }
}

impl<'a> vstd::std_specs::convert::FromSpecImpl<&'a [u8]> for BigUint {
    open spec fn obeys_from_spec() -> bool {
        false
    }

    open spec fn from_spec(v: &'a [u8]) -> BigUint {
        vstd::pervasive::arbitrary()
    }
}

impl core::ops::DivAssign<u32> for BigUint {
    /// Divides the number by `divider` in place; a zero divider leaves it unchanged.
    fn div_assign(&mut self, divider: u32)
        ensures
            divider > 0 ==> final(self)@ == old(self)@ / divider as nat,
            divider == 0 ==> *final(self) == *old(self),
            final(self).chunks@.len() == old(self).chunks@.len(),
    {
        if divider > 0 {
            self.rem_div(divider);
        }
    }
}

} // verus!

verus! {

impl core::ops::ShrAssign<u8> for BigUint {
    /// Shifts the number right by `shift` bits in place.
    fn shr_assign(&mut self, shift: u8)
        ensures
            final(self)@ == old(self)@ / pow(2, shift as nat) as nat,
            final(self).chunks@.len() == old(self).chunks@.len(),
    {
        let ghost v0 = self@;
        let ghost n0 = self.chunks@.len();
        let mut left: u8 = shift;
        proof {
            lemma_pow0(2);
            assert(pow(2, (shift - left) as nat) == 1);
            assert(v0 / 1 == v0);
        }
        while left > 0
            invariant
                left <= shift,
                pow(2, (shift - left) as nat) > 0,
                self@ == v0 / pow(2, (shift - left) as nat) as nat,
                self.chunks@.len() == n0,
            decreases left,
        {
            let step: u8 = if left > 31 {
                31
            } else {
                left
            };
            let mut d: u32 = 1;
            let mut k: u8 = 0;
            proof {
                lemma_pow0(2);
            }
            while k < step
                invariant
                    k <= step <= 31,
                    d == pow(2, k as nat),
                decreases step - k,
            {
                proof {
                    assert(pow(2, (k + 1) as nat) == 2 * pow(2, k as nat)) by {
                        reveal(pow);
                    }
                    lemma_pow_increases(2, (k + 1) as nat, 31);
                    vstd::arithmetic::power2::lemma2_to64();
                    vstd::arithmetic::power2::lemma_pow2(31);
                }
                d = d * 2;
                k = k + 1;
            }
            let ghost before = self@;
            let ghost done = (shift - left) as nat;
            proof {
                lemma_pow_positive(2, step as nat);
            }
            self.rem_div(d);
            proof {
                lemma_div_denominator(v0 as int, pow(2, done), pow(2, step as nat));
                lemma_pow_adds(2, done, step as nat);
                lemma_pow_positive(2, (done + step) as nat);
            }
            left = left - step;
        }
    }
}

} // verus!
