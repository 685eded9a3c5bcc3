use crate::digits::{digits_below, digits_value, is_canonical, lemma_canonical_digits, lemma_value_concat, lemma_value_single, to_digits};
use vstd::arithmetic::div_mod::*;
use vstd::arithmetic::mul::*;
use vstd::arithmetic::power::*;
use vstd::prelude::*;

verus! {

/// The digits of a word sequence, as numbers.
pub open spec fn word_digits(v: Seq<u32>) -> Seq<nat> {
    v.map_values(|x: u32| x as nat)
}

/// Value of a digit sequence in the given base, least significant digit first.
pub open spec fn lsb_value(v: Seq<u32>, base: nat) -> int
    decreases v.len(),
{
    if v.len() == 0 {
        0
    } else {
        lsb_value(v.drop_last(), base) + v.last() * pow(base as int, (v.len() - 1) as nat)
    }
}

/// A least-significant-first digit sequence in the given base without a
/// superfluous most significant zero.
pub open spec fn lsb_canonical(v: Seq<u32>, base: nat) -> bool {
    &&& v.len() >= 1
    &&& forall|i: int| 0 <= i < v.len() ==> #[trigger] v[i] < base
    &&& (v.len() == 1 || v.last() != 0)
}

proof fn lemma_lsb_bounds(v: Seq<u32>, base: nat)
    requires
        base >= 2,
        forall|i: int| 0 <= i < v.len() ==> #[trigger] v[i] < base,
    ensures
        0 <= lsb_value(v, base) < pow(base as int, v.len()),
        v.len() >= 1 && v.last() != 0 ==> lsb_value(v, base) >= pow(base as int, (v.len() - 1) as nat),
        v.len() >= 1 && v.last() == 0 ==> lsb_value(v, base) < pow(base as int, (v.len() - 1) as nat),
    decreases v.len(),
{
    lemma_pow_positive(base as int, v.len());
    if v.len() > 0 {
        let p = v.drop_last();
        lemma_lsb_bounds(p, base);
        let pp = pow(base as int, p.len());
        lemma_pow_positive(base as int, p.len());
        assert(pow(base as int, v.len()) == base * pp) by {
            reveal(pow);
        }
        let l = v.last() as int;
        let lp = lsb_value(p, base);
        assert(lp + l * pp < base * pp) by (nonlinear_arith)
            requires
                0 <= lp < pp,
                0 <= l < base,
        ;
        assert(l != 0 ==> lp + l * pp >= pp) by (nonlinear_arith)
            requires
                0 <= lp,
                0 <= l,
                0 < pp,
        ;
        assert(0 <= lp + l * pp) by (nonlinear_arith)
            requires
                0 <= lp,
                0 <= l,
                0 < pp,
        ;
    }
}

/// The least-significant-first value is the value of the reversed digits.
pub proof fn lemma_lsb_reverse(v: Seq<u32>, base: nat)
    ensures
        lsb_value(v, base) == digits_value(word_digits(v).reverse(), base),
    decreases v.len(),
{
    if v.len() > 0 {
        let p = v.drop_last();
        lemma_lsb_reverse(p, base);
        let r = word_digits(v).reverse();
        let rp = word_digits(p).reverse();
        assert(r =~= seq![v.last() as nat] + rp);
        lemma_value_concat(seq![v.last() as nat], rp, base);
        lemma_value_single(v.last() as nat, base);
        lemma_mul_is_commutative(v.last() as int, pow(base as int, rp.len()));
    }
}

/// Reversed, a canonical least-significant-first sequence is `to_digits` of its value.
pub proof fn lemma_lsb_canonical_digits(v: Seq<u32>, base: nat)
    requires
        base >= 2,
        lsb_canonical(v, base),
    ensures
        lsb_value(v, base) >= 0,
        to_digits(lsb_value(v, base) as nat, base) == word_digits(v).reverse(),
{
    lemma_lsb_reverse(v, base);
    let r = word_digits(v).reverse();
    assert(r[0] == v.last());
    assert(digits_below(r, base)) by {
        assert forall|i: int| 0 <= i < r.len() implies #[trigger] r[i] < base by {
            assert(r[i] == v[v.len() - 1 - i]);
        }
    }
    assert(is_canonical(r));
    lemma_canonical_digits(r, base);
}

proof fn lemma_step_value(l: int, lo: int, carry: int, o: int, c: int, q: int, r: int, p: int, base: int, mul: int, add: int)
    by (nonlinear_arith)
    requires
        c == carry + mul * o,
        c == q * base + r,
        l + carry * p == mul * lo + add,
    ensures
        l + r * p + q * (base * p) == mul * (lo + o * p) + add,
{
}

proof fn lemma_step_bound(carry: int, o: int, mul: int, base: int)
    by (nonlinear_arith)
    requires
        0 <= carry < mul,
        0 <= o < base,
    ensures
        0 <= carry + mul * o < mul * base,
{
}

/// Multiplies the number held in `acc` (digits in base `base`, least
/// significant first) by `mul` and adds `add`, in place.
pub fn mul_add(acc: &mut Vec<u32>, base: u32, mul: u32, add: u32)
    requires
        2 <= base,
        add < mul,
        lsb_canonical(old(acc)@, base as nat),
    ensures
        lsb_canonical(final(acc)@, base as nat),
        lsb_value(final(acc)@, base as nat) == mul * lsb_value(old(acc)@, base as nat) + add,
{
    let ghost a0 = acc@;
    let n = acc.len();
    let mut carry: u64 = add as u64;
    let mut j: usize = 0;
    proof {
        lemma_pow0(base as int);
        assert(acc@.subrange(0, 0) =~= Seq::<u32>::empty());
        assert(a0.subrange(0, 0) =~= Seq::<u32>::empty());
        lemma_mul_by_zero_is_zero(mul as int);
    }
    while j < n
        invariant
            acc.len() == n,
            a0.len() == n,
            j <= n,
            2 <= base,
            carry < mul,
            forall|i: int| j <= i < n ==> acc@[i] == a0[i],
            forall|i: int| 0 <= i < n ==> #[trigger] acc@[i] < base,
            lsb_value(acc@.subrange(0, j as int), base as nat) + carry * pow(base as int, j as nat)
                == mul * lsb_value(a0.subrange(0, j as int), base as nat) + add,
        decreases n - j,
    {
        let o = acc[j];
        proof {
            lemma_step_bound(carry as int, o as int, mul as int, base as int);
            lemma_mul_upper_bound(mul as int, u32::MAX as int, base as int, u32::MAX as int);
        }
        let c: u64 = carry + mul as u64 * o as u64;
        let r: u32 = (c % base as u64) as u32;
        let q: u64 = c / base as u64;
        let ghost before = acc@;
        acc.set(j, r);
        proof {
            lemma_fundamental_div_mod(c as int, base as int);
            lemma_mul_is_commutative(base as int, q as int);
            let p = pow(base as int, j as nat);
            lemma_step_value(
                lsb_value(before.subrange(0, j as int), base as nat),
                lsb_value(a0.subrange(0, j as int), base as nat),
                carry as int, o as int, c as int, q as int, r as int, p,
                base as int, mul as int, add as int,
            );
            assert(acc@.subrange(0, j + 1).drop_last() =~= before.subrange(0, j as int));
            assert(a0.subrange(0, j + 1).drop_last() =~= a0.subrange(0, j as int));
            assert(pow(base as int, (j + 1) as nat) == base * p) by {
                reveal(pow);
            }
            lemma_div_upper_bound_from(c as int, mul as int, base as int);
        }
        carry = q;
        j = j + 1;
    }
    proof {
        assert(acc@.subrange(0, n as int) =~= acc@);
        assert(a0.subrange(0, n as int) =~= a0);
    }
    while carry > 0
        invariant
            acc.len() >= n,
            n >= 1,
            2 <= base,
            forall|i: int| 0 <= i < acc.len() ==> #[trigger] acc@[i] < base,
            forall|i: int| 0 <= i < n ==> acc@[i] == (#[trigger] acc@.subrange(0, n as int))[i],
            acc.len() > n ==> (acc@.last() != 0 || carry > 0),
            acc@.subrange(0, n as int).len() == n,
            lsb_value(acc@, base as nat) + carry * pow(base as int, acc.len() as nat)
                == mul * lsb_value(a0, base as nat) + add,
        decreases carry,
    {
        let r: u32 = (carry % base as u64) as u32;
        let q: u64 = carry / base as u64;
        let ghost before = acc@;
        acc.push(r);
        proof {
            lemma_fundamental_div_mod(carry as int, base as int);
            lemma_mul_is_commutative(base as int, q as int);
            let p = pow(base as int, before.len());
            lemma_step_value(
                lsb_value(before, base as nat), 0, carry as int, 0, carry as int, q as int,
                r as int, p, base as int, mul as int, mul * lsb_value(a0, base as nat) + add,
            );
            assert(acc@.drop_last() =~= before);
            assert(pow(base as int, acc.len() as nat) == base * p) by {
                reveal(pow);
            }
            if q == 0 {
                assert(r == carry);
            }
            lemma_div_decreases(carry as int, base as int);
        }
        carry = q;
    }
    proof {
        lemma_mul_by_zero_is_zero(pow(base as int, acc.len() as nat));
        let v = lsb_value(acc@, base as nat);
        let v0 = lsb_value(a0, base as nat);
        if acc.len() == n && n >= 2 {
            lemma_lsb_bounds(acc@, base as nat);
            lemma_lsb_bounds(a0, base as nat);
            assert(v0 >= 0);
            assert(mul * v0 >= v0) by (nonlinear_arith)
                requires
                    mul >= 1,
                    v0 >= 0,
            ;
        }
    }
}

proof fn lemma_div_upper_bound_from(c: int, mul: int, base: int)
    requires
        0 <= c < mul * base,
        base > 0,
    ensures
        c / base < mul,
{
    lemma_mul_is_commutative(mul, base);
    lemma_multiply_divide_lt(c, base, mul);
}

} // verus!
