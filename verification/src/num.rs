//! Positional numerals: the value of a digit sequence in a given base, the
//! canonical digit sequence of a value, and the lemmas connecting the two.
//! The base-58 text codec reads and writes numbers through these notions.
use vstd::prelude::*;

verus! {

use vstd::arithmetic::div_mod::lemma_div_decreases;
use vstd::arithmetic::div_mod::lemma_fundamental_div_mod;
use vstd::arithmetic::div_mod::lemma_fundamental_div_mod_converse;
use vstd::arithmetic::div_mod::lemma_small_mod;
use vstd::arithmetic::power::pow;

/// Value of a big-endian digit sequence: the first digit is the most
/// significant one.
pub open spec fn be_val(s: Seq<u8>, base: nat) -> nat
    decreases s.len(),
{
    if s.len() == 0 {
        0
    } else {
        be_val(s.drop_last(), base) * base + s.last() as nat
    }
}

/// Value of a little-endian digit sequence: the first digit is the least
/// significant one.
pub open spec fn le_val(s: Seq<u8>, base: nat) -> nat
    decreases s.len(),
{
    if s.len() == 0 {
        0
    } else {
        s.first() as nat + base * le_val(s.drop_first(), base)
    }
}

/// The canonical big-endian digit sequence of `n`: no leading zero digit,
/// and empty exactly for zero.
pub open spec fn digits_be(n: nat, base: nat) -> Seq<u8>
    decreases n,
    when base >= 2
    via digits_be_dec
{
    if n == 0 {
        Seq::empty()
    } else {
        digits_be(n / base, base).push((n % base) as u8)
    }
}

#[via_fn]
proof fn digits_be_dec(n: nat, base: nat) {
    if n != 0 {
        lemma_div_decreases(n as int, base as int);
    }
}

/// Every digit of `s` is below `base`.
pub open spec fn digits_below(s: Seq<u8>, base: nat) -> bool {
    forall|i: int| 0 <= i < s.len() ==> s[i] < base
}

/// A little-endian digit sequence is canonical when its most significant
/// digit, the last one, is not zero.
pub open spec fn le_canonical(s: Seq<u8>) -> bool {
    s.len() > 0 ==> s.last() != 0
}

/// The canonical digit sequence of a positive value is nonempty and starts
/// with a nonzero digit.
pub proof fn lemma_digits_be_first_nonzero(n: nat, base: nat)
    requires
        2 <= base <= 256,
        n > 0,
    ensures
        digits_be(n, base).len() > 0,
        digits_be(n, base).first() != 0,
    decreases n,
{
    lemma_div_decreases(n as int, base as int);
    if n / base == 0 {
        assert(n < base) by {
            lemma_fundamental_div_mod(n as int, base as int);
        }
        lemma_small_mod(n, base);
        assert(digits_be((n / base) as nat, base) == Seq::<u8>::empty());
        assert(digits_be(n, base) =~= Seq::empty().push((n % base) as u8));
        assert(digits_be(n, base).first() == (n % base) as u8);
    } else {
        lemma_digits_be_first_nonzero(n / base, base);
        assert(digits_be(n, base).first() == digits_be(n / base, base).first());
    }
}

/// Digits produced by `digits_be` are below the base.
pub proof fn lemma_digits_be_below(n: nat, base: nat)
    requires
        base >= 2,
    ensures
        digits_below(digits_be(n, base), base),
    decreases n,
{
    if n != 0 {
        lemma_div_decreases(n as int, base as int);
        lemma_digits_be_below(n / base, base);
        assert(n % base < base) by {
            lemma_fundamental_div_mod(n as int, base as int);
            vstd::arithmetic::div_mod::lemma_mod_bound(n as int, base as int);
        }
    }
}

/// Reading back the canonical digits of `n` yields `n`.
pub proof fn lemma_be_val_digits_be(n: nat, base: nat)
    requires
        2 <= base <= 256,
    ensures
        be_val(digits_be(n, base), base) == n,
    decreases n,
{
    if n != 0 {
        lemma_div_decreases(n as int, base as int);
        lemma_be_val_digits_be(n / base, base);
        let prefix = digits_be(n / base, base);
        let whole = digits_be(n, base);
        assert(whole =~= prefix.push((n % base) as u8));
        assert(whole.len() > 0);
        assert(whole.drop_last() =~= prefix);
        assert(n % base < base) by {
            lemma_fundamental_div_mod(n as int, base as int);
            vstd::arithmetic::div_mod::lemma_mod_bound(n as int, base as int);
        }
        assert(whole.last() as nat == n % base);
        assert(be_val(whole, base) == be_val(prefix, base) * base + (n % base));
        lemma_fundamental_div_mod(n as int, base as int);
        assert((n / base) * base == base * (n / base)) by (nonlinear_arith);
    }
}

/// A nonempty digit sequence with a nonzero leading digit has a positive
/// value.
pub proof fn lemma_be_val_positive(s: Seq<u8>, base: nat)
    requires
        base >= 2,
        s.len() > 0,
        s.first() != 0,
    ensures
        be_val(s, base) > 0,
    decreases s.len(),
{
    if s.len() == 1 {
        assert(be_val(s.drop_last(), base) == 0);
    } else {
        assert(s.drop_last().first() == s.first());
        lemma_be_val_positive(s.drop_last(), base);
        assert(be_val(s.drop_last(), base) * base > 0) by (nonlinear_arith)
            requires
                be_val(s.drop_last(), base) > 0,
                base >= 2,
        ;
    }
}

/// A digit sequence without a leading zero is the canonical digit sequence
/// of its value.
pub proof fn lemma_digits_be_of_val(s: Seq<u8>, base: nat)
    requires
        2 <= base <= 256,
        digits_below(s, base),
        s.len() > 0 ==> s.first() != 0,
    ensures
        digits_be(be_val(s, base), base) == s,
    decreases s.len(),
{
    if s.len() == 0 {
        assert(digits_be(0, base) =~= s);
    } else {
        let v = be_val(s, base);
        let q = be_val(s.drop_last(), base);
        assert(v == q * base + s.last());
        lemma_be_val_positive(s, base);
        assert(s.last() < base);
        lemma_fundamental_div_mod_converse(v as int, base as int, q as int, s.last() as int);
        assert(v % base == s.last() && v / base == q);
        if s.len() == 1 {
            assert(q == 0);
            assert(digits_be((v / base) as nat, base) == Seq::<u8>::empty());
            assert(digits_be(v, base) =~= Seq::empty().push((v % base) as u8));
            assert((v % base) as u8 == s.last());
            assert(digits_be(v, base) =~= s);
        } else {
            assert(s.drop_last().first() == s.first());
            lemma_digits_be_of_val(s.drop_last(), base);
            assert(digits_be(v, base) =~= digits_be(q, base).push((v % base) as u8));
            assert(digits_be(v, base) =~= s);
        }
    }
}

/// Little-endian and big-endian readings of reversed sequences agree.
pub proof fn lemma_le_val_reverse(s: Seq<u8>, base: nat)
    ensures
        le_val(s, base) == be_val(s.reverse(), base),
    decreases s.len(),
{
    if s.len() > 0 {
        lemma_le_val_reverse(s.drop_first(), base);
        assert(s.reverse().drop_last() =~= s.drop_first().reverse());
        assert(s.reverse().last() == s.first());
        assert(be_val(s.reverse(), base) == be_val(s.drop_first().reverse(), base) * base
            + s.first());
        assert(le_val(s.drop_first(), base) * base == base * le_val(s.drop_first(), base))
            by (nonlinear_arith);
    }
}

/// Appending a digit at the most significant end of a little-endian
/// sequence adds its weighted value.
pub proof fn lemma_le_val_push(s: Seq<u8>, x: u8, base: nat)
    ensures
        le_val(s.push(x), base) == le_val(s, base) + pow(base as int, s.len()) * x,
    decreases s.len(),
{
    vstd::arithmetic::power::lemma_pow0(base as int);
    if s.len() == 0 {
        assert(s.push(x) =~= seq![x]);
        assert(seq![x].drop_first() =~= Seq::<u8>::empty());
        assert(le_val(Seq::<u8>::empty(), base) == 0);
        assert(le_val(seq![x], base) == x + base * le_val(Seq::<u8>::empty(), base));
        assert(base * 0nat == 0) by (nonlinear_arith);
        assert(le_val(s.push(x), base) == x as nat);
        assert(le_val(s, base) == 0);
        assert(pow(base as int, s.len()) == 1);
        assert(le_val(s, base) + pow(base as int, s.len()) * x == x);
    } else {
        lemma_le_val_push(s.drop_first(), x, base);
        assert(s.push(x).drop_first() =~= s.drop_first().push(x));
        assert(s.push(x).first() == s.first());
        let p = pow(base as int, (s.len() - 1) as nat);
        assert(pow(base as int, s.len()) == base * p) by {
            vstd::arithmetic::power::lemma_pow1(base as int);
            vstd::arithmetic::power::lemma_pow_adds(base as int, 1, (s.len() - 1) as nat);
        }
        let a = le_val(s.drop_first(), base);
        assert(le_val(s.push(x), base) == s.first() as nat + base * le_val(
            s.drop_first().push(x),
            base,
        ));
        assert(le_val(s.drop_first().push(x), base) == a + p * x);
        assert(base * (a + p * x) == base * a + (base * p) * x) by (nonlinear_arith);
        assert(le_val(s.push(x), base) == s.first() as nat + base * a + (base * p) * x);
        assert(le_val(s, base) == s.first() as nat + base * a);
        assert(pow(base as int, s.len()) * x == (base * p) * x);
    }
}

} // verus!
