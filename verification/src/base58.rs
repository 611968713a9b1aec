//! The base-58 text codec: arbitrary byte strings to and from the base-58
//! alphabet, with one leading `1` per leading zero byte.
use vstd::prelude::*;

verus! {

use crate::num::be_val;
use crate::num::digits_be;
use crate::num::digits_below;
use crate::num::le_canonical;
use crate::num::le_val;
use crate::num::lemma_be_val_digits_be;
use crate::num::lemma_digits_be_below;
use crate::num::lemma_digits_be_first_nonzero;
use crate::num::lemma_digits_be_of_val;
use crate::num::lemma_le_val_push;
use crate::num::lemma_le_val_reverse;
use vstd::arithmetic::div_mod::lemma_div_decreases;
use vstd::arithmetic::div_mod::lemma_fundamental_div_mod;
use vstd::arithmetic::div_mod::lemma_mod_bound;
use vstd::arithmetic::div_mod::lemma_multiply_divide_lt;
use vstd::arithmetic::div_mod::lemma_small_div_converse;
use vstd::arithmetic::div_mod::lemma_small_mod;
use vstd::arithmetic::power::pow;

/// The base-58 alphabet character for a digit: `1`-`9`, then the upper-case
/// letters without `I` and `O`, then the lower-case letters without `l`.
pub open spec fn alpha(d: u8) -> u8
    recommends
        d < 58,
{
    if d < 9 {
        (49 + d) as u8
    } else if d < 17 {
        (56 + d) as u8
    } else if d < 22 {
        (57 + d) as u8
    } else if d < 33 {
        (58 + d) as u8
    } else if d < 44 {
        (64 + d) as u8
    } else {
        (65 + d) as u8
    }
}

/// The digit value of an alphabet character, or -1 for a byte outside the
/// alphabet.
pub open spec fn digit_of(c: u8) -> int {
    if 49 <= c < 58 {
        c - 49
    } else if 65 <= c < 73 {
        c - 56
    } else if 74 <= c < 79 {
        c - 57
    } else if 80 <= c < 91 {
        c - 58
    } else if 97 <= c < 108 {
        c - 64
    } else if 109 <= c < 123 {
        c - 65
    } else {
        -1
    }
}

/// Every byte of `s` is an alphabet character.
pub open spec fn valid_b58(s: Seq<u8>) -> bool {
    forall|i: int| 0 <= i < s.len() ==> digit_of(s[i]) >= 0
}

/// `digit_of` undoes `alpha`, and only the digit zero maps to `1`.
pub proof fn lemma_alpha_digit()
    ensures
        forall|d: u8| d < 58 ==> #[trigger] digit_of(alpha(d)) == d,
        forall|d: u8| d < 58 ==> (alpha(d) == 49 <==> d == 0),
        forall|c: u8| digit_of(c) < 58,
{
}

/// The number of leading zero digits of a sequence.
pub open spec fn lead_zeros(s: Seq<u8>) -> nat
    decreases s.len(),
{
    if s.len() == 0 || s.first() != 0 {
        0
    } else {
        1 + lead_zeros(s.drop_first())
    }
}

/// What `lead_zeros` counts: a run of zeros ending at the first nonzero
/// digit or at the end.
pub proof fn lemma_lead_zeros(s: Seq<u8>)
    ensures
        lead_zeros(s) <= s.len(),
        forall|j: int| 0 <= j < lead_zeros(s) ==> s[j] == 0,
        lead_zeros(s) < s.len() ==> s[lead_zeros(s) as int] != 0,
    decreases s.len(),
{
    if s.len() > 0 && s.first() == 0 {
        lemma_lead_zeros(s.drop_first());
        let z = lead_zeros(s);
        assert(z == 1 + lead_zeros(s.drop_first()));
        assert forall|j: int| 0 <= j < z implies s[j] == 0 by {
            if j > 0 {
                assert(s.drop_first()[j - 1] == s[j]);
            }
        }
        if z < s.len() {
            assert(s.drop_first()[z - 1] == s[z as int]);
        }
    }
}

/// Any index with the run-of-zeros shape is the `lead_zeros` count.
pub proof fn lemma_lead_zeros_is(s: Seq<u8>, z: nat)
    requires
        z <= s.len(),
        forall|j: int| 0 <= j < z ==> s[j] == 0,
        z < s.len() ==> s[z as int] != 0,
    ensures
        lead_zeros(s) == z,
    decreases s.len(),
{
    if z == 0 {
    } else {
        assert(s.first() == 0);
        assert forall|j: int| 0 <= j < z - 1 implies s.drop_first()[j] == 0 by {
            assert(s.drop_first()[j] == s[j + 1]);
        }
        if z < s.len() {
            assert(s.drop_first()[z - 1] == s[z as int]);
        }
        lemma_lead_zeros_is(s.drop_first(), (z - 1) as nat);
    }
}

/// Multiplies the little-endian base-`radix` number `d` by `mult` and adds
/// `a`, in place.
fn mul_add(d: &mut Vec<u8>, radix: u16, mult: u16, a: u16)
    requires
        2 <= radix <= 256,
        2 <= mult,
        radix * mult <= 65536,
        a < mult,
        digits_below(old(d)@, radix as nat),
        le_canonical(old(d)@),
    ensures
        digits_below(final(d)@, radix as nat),
        le_canonical(final(d)@),
        le_val(final(d)@, radix as nat) == le_val(old(d)@, radix as nat) * mult + a,
{
    let ghost orig = d@;
    let ghost goal: int = le_val(orig, radix as nat) * mult + a;
    let n = d.len();
    let mut carry: u16 = a;
    let mut i: usize = 0;
    proof {
        vstd::arithmetic::power::lemma_pow0(radix as int);
        assert(d@.take(0) =~= Seq::<u8>::empty());
        assert(orig.skip(0) =~= orig);
        assert(mult * 1 * le_val(orig, radix as nat) == le_val(orig, radix as nat) * mult)
            by (nonlinear_arith);
    }
    while i < n
        invariant
            i <= n,
            n == d@.len(),
            d@.len() == orig.len(),
            2 <= radix <= 256,
            2 <= mult,
            radix * mult <= 65536,
            carry < mult,
            digits_below(orig, radix as nat),
            le_canonical(orig),
            goal == le_val(orig, radix as nat) * mult + a,
            forall|j: int| i <= j < n ==> d@[j] == orig[j],
            digits_below(d@.take(i as int), radix as nat),
            le_val(d@.take(i as int), radix as nat) + pow(radix as int, i as nat) * carry + mult
                * pow(radix as int, i as nat) * le_val(orig.skip(i as int), radix as nat) == goal,
            (i == n && n > 0) ==> (carry > 0 || d@.last() != 0),
        decreases n - i,
    {
        let ghost p = pow(radix as int, i as nat);
        let ghost lo = le_val(d@.take(i as int), radix as nat);
        let di = d[i];
        assert(di == orig[i as int]);
        assert(di as int * mult + carry < radix * mult) by (nonlinear_arith)
            requires
                di < radix,
                carry < mult,
        ;
        let t: u16 = (di as u16) * mult + carry;
        proof {
            lemma_fundamental_div_mod(t as int, radix as int);
            lemma_mod_bound(t as int, radix as int);
            lemma_multiply_divide_lt(t as int, radix as int, mult as int);
        }
        let nd: u8 = (t % radix) as u8;
        let ghost prev = d@;
        d[i] = nd;
        let nc: u16 = t / radix;
        proof {
            assert(d@.take(i + 1) =~= prev.take(i as int).push(nd));
            lemma_le_val_push(prev.take(i as int), nd, radix as nat);
            assert(orig.skip(i as int).drop_first() =~= orig.skip(i + 1));
            assert(le_val(orig.skip(i as int), radix as nat) == orig[i as int] + (radix as nat)
                * le_val(orig.skip(i + 1), radix as nat));
            assert(pow(radix as int, (i + 1) as nat) == radix * p) by {
                vstd::arithmetic::power::lemma_pow1(radix as int);
                vstd::arithmetic::power::lemma_pow_adds(radix as int, 1, i as nat);
            }
            let rest = le_val(orig.skip(i + 1), radix as nat);
            let oi = orig[i as int] as int;
            assert(p * carry + mult * p * oi == p * t) by (nonlinear_arith)
                requires
                    t == oi * mult + carry,
            ;
            assert(p * t == p * nd + (radix * p) * nc) by (nonlinear_arith)
                requires
                    t == radix * nc + nd,
            ;
            assert(mult * p * (oi + radix * rest) == mult * p * oi + mult * (radix * p) * rest)
                by (nonlinear_arith);
            assert(lo + p * nd + (radix * p) * nc + mult * (radix * p) * rest == lo + p * carry
                + mult * p * (oi + radix * rest));
            if i + 1 == n && n > 0 {
                if nc == 0 {
                    assert(t < radix) by {
                        lemma_small_div_converse(t as int, radix as int);
                    }
                    lemma_small_mod(t as nat, radix as nat);
                    assert(nd as int == t);
                    assert(t >= mult) by (nonlinear_arith)
                        requires
                            t == orig[i as int] * mult + carry,
                            orig[i as int] >= 1,
                    ;
                }
            }
        }
        carry = nc;
        i += 1;
    }
    proof {
        assert(d@.take(n as int) =~= d@);
        assert(orig.skip(n as int) =~= Seq::<u8>::empty());
        assert(mult * pow(radix as int, n as nat) * 0 == 0) by (nonlinear_arith);
        if carry == 0 && n > 0 {
            assert(d@.last() != 0);
        }
    }
    while carry > 0
        invariant
            2 <= radix <= 256,
            2 <= mult,
            carry < mult,
            digits_below(d@, radix as nat),
            le_val(d@, radix as nat) + pow(radix as int, d@.len()) * carry == goal,
            carry == 0 ==> le_canonical(d@),
        decreases carry,
    {
        proof {
            lemma_fundamental_div_mod(carry as int, radix as int);
            lemma_mod_bound(carry as int, radix as int);
            lemma_div_decreases(carry as int, radix as int);
            assert(carry < radix * mult) by (nonlinear_arith)
                requires
                    carry < mult,
                    radix >= 2,
                    mult >= 2,
            ;
            lemma_multiply_divide_lt(carry as int, radix as int, mult as int);
        }
        let nd: u8 = (carry % radix) as u8;
        let ghost prev = d@;
        let ghost pc = carry;
        d.push(nd);
        carry = carry / radix;
        proof {
            lemma_le_val_push(prev, nd, radix as nat);
            assert(pow(radix as int, d@.len()) == radix * pow(radix as int, prev.len())) by {
                vstd::arithmetic::power::lemma_pow1(radix as int);
                vstd::arithmetic::power::lemma_pow_adds(radix as int, 1, prev.len());
            }
            let p = pow(radix as int, prev.len());
            assert(le_val(prev, radix as nat) + p * nd + (radix * p) * carry == le_val(
                prev,
                radix as nat,
            ) + p * pc) by (nonlinear_arith)
                requires
                    pc == radix * carry + nd,
            ;
            if carry == 0 {
                assert(pc < radix) by {
                    lemma_small_div_converse(pc as int, radix as int);
                }
                lemma_small_mod(pc as nat, radix as nat);
                assert(nd as int == pc);
                assert(d@.last() == nd);
            }
        }
    }
}

/// `n` copies of the byte `b`.
pub open spec fn repeated(n: nat, b: u8) -> Seq<u8> {
    Seq::new(n, |i: int| b)
}

/// The digit value of every byte of `s`; bytes outside the alphabet map to
/// a nonzero placeholder.
pub open spec fn digit_seq(s: Seq<u8>) -> Seq<u8> {
    s.map_values(|c: u8| digit_of(c) as u8)
}

/// Every digit mapped to its alphabet character.
pub open spec fn alpha_seq(d: Seq<u8>) -> Seq<u8> {
    d.map_values(|x: u8| alpha(x))
}

/// The base-58 rendering of a byte string: one `1` per leading zero byte,
/// then the canonical base-58 digits of the value of the rest.
pub open spec fn b58_encode_spec(bytes: Seq<u8>) -> Seq<u8> {
    let z = lead_zeros(bytes);
    let v = be_val(bytes.skip(z as int), 256);
    repeated(z, 49) + alpha_seq(digits_be(v, 58))
}

/// The bytes a base-58 text denotes: one zero byte per leading `1`, then
/// the canonical base-256 digits of the value of the rest; nothing when a
/// byte falls outside the alphabet.
pub open spec fn b58_decode_spec(s: Seq<u8>) -> Option<Seq<u8>> {
    if valid_b58(s) {
        let ds = digit_seq(s);
        let z = lead_zeros(ds);
        Some(repeated(z, 0) + digits_be(be_val(ds.skip(z as int), 58), 256))
    } else {
        None
    }
}

/// The alphabet character of a digit.
fn alpha_exec(d: u8) -> (c: u8)
    requires
        d < 58,
    ensures
        c == alpha(d),
{
    if d < 9 {
        49 + d
    } else if d < 17 {
        56 + d
    } else if d < 22 {
        57 + d
    } else if d < 33 {
        58 + d
    } else if d < 44 {
        64 + d
    } else {
        65 + d
    }
}

/// The digit value of a byte, or nothing for a byte outside the alphabet.
fn digit_exec(c: u8) -> (r: Option<u8>)
    ensures
        digit_of(c) >= 0 ==> r == Some(digit_of(c) as u8),
        digit_of(c) < 0 ==> r == None::<u8>,
{
    if 49 <= c && c < 58 {
        Some(c - 49)
    } else if 65 <= c && c < 73 {
        Some(c - 56)
    } else if 74 <= c && c < 79 {
        Some(c - 57)
    } else if 80 <= c && c < 91 {
        Some(c - 58)
    } else if 97 <= c && c < 108 {
        Some(c - 64)
    } else if 109 <= c && c < 123 {
        Some(c - 65)
    } else {
        None
    }
}

/// Renders a byte string in base-58 text.
#[verifier::loop_isolation(false)]
pub fn b58_encode(input: &[u8]) -> (out: Vec<u8>)
    ensures
        out@ == b58_encode_spec(input@),
{
    let n = input.len();
    let mut z: usize = 0;
    while z < n && input[z] == 0
        invariant
            z <= n,
            n == input@.len(),
            forall|j: int| 0 <= j < z ==> input@[j] == 0,
        decreases n - z,
    {
        z += 1;
    }
    proof {
        lemma_lead_zeros_is(input@, z as nat);
    }
    let mut digits: Vec<u8> = Vec::new();
    let mut i: usize = z;
    while i < n
        invariant
            z <= i <= n,
            n == input@.len(),
            digits_below(digits@, 58),
            le_canonical(digits@),
            le_val(digits@, 58) == be_val(input@.subrange(z as int, i as int), 256),
        decreases n - i,
    {
        let ghost before = input@.subrange(z as int, i as int);
        let b = input[i];
        mul_add(&mut digits, 58, 256, b as u16);
        proof {
            assert(input@.subrange(z as int, i + 1).drop_last() =~= before);
            assert(input@.subrange(z as int, i + 1).last() == input@[i as int]);
        }
        i += 1;
    }
    let ghost v = be_val(input@.skip(z as int), 256);
    proof {
        assert(input@.subrange(z as int, n as int) =~= input@.skip(z as int));
        lemma_le_val_reverse(digits@, 58);
        assert(digits@.reverse().len() == digits@.len());
        assert(digits_below(digits@.reverse(), 58)) by {
            assert(forall|j: int|
                0 <= j < digits@.len() ==> digits@.reverse()[j] == digits@[digits@.len() - 1 - j]);
        }
        if digits@.len() > 0 {
            assert(digits@.reverse().first() == digits@.last());
        }
        lemma_digits_be_of_val(digits@.reverse(), 58);
        assert(digits_be(v, 58) == digits@.reverse());
    }
    let mut out: Vec<u8> = Vec::new();
    let mut k: usize = 0;
    while k < z
        invariant
            k <= z,
            out@.len() == k,
            forall|j: int| 0 <= j < k ==> out@[j] == 49,
        decreases z - k,
    {
        out.push(49);
        k += 1;
    }
    let m = digits.len();
    let mut k2: usize = 0;
    while k2 < m
        invariant
            k2 <= m,
            m == digits@.len(),
            digits_below(digits@, 58),
            digits_be(v, 58) == digits@.reverse(),
            out@.len() == z + k2,
            forall|j: int| 0 <= j < z ==> out@[j] == 49,
            forall|j: int|
                z <= j < z + k2 ==> #[trigger] out@[j] == alpha(digits@[m - 1 - (j - z)]),
        decreases m - k2,
    {
        let dk = digits[m - 1 - k2];
        out.push(alpha_exec(dk));
        k2 += 1;
    }
    proof {
        let spec_out = b58_encode_spec(input@);
        assert(digits_be(v, 58).len() == m);
        assert(forall|j: int|
            0 <= j < m ==> digits_be(v, 58)[j] == digits@[m - 1 - j]);
        assert(out@ =~= spec_out);
    }
    out
}

/// Reads base-58 text back into the bytes it denotes; nothing when a byte
/// falls outside the alphabet.
#[verifier::loop_isolation(false)]
pub fn b58_decode(s: &[u8]) -> (r: Option<Vec<u8>>)
    ensures
        match r {
            Some(v) => b58_decode_spec(s@) == Some(v@),
            None => b58_decode_spec(s@) is None,
        },
{
    let n = s.len();
    let mut z: usize = 0;
    while z < n && s[z] == 49
        invariant
            z <= n,
            n == s@.len(),
            forall|j: int| 0 <= j < z ==> s@[j] == 49,
        decreases n - z,
    {
        z += 1;
    }
    let mut bytes: Vec<u8> = Vec::new();
    let mut i: usize = z;
    while i < n
        invariant
            z <= i <= n,
            n == s@.len(),
            forall|j: int| 0 <= j < z ==> s@[j] == 49,
            z < n ==> s@[z as int] != 49,
            forall|j: int| 0 <= j < i ==> digit_of(s@[j]) >= 0,
            digits_below(bytes@, 256),
            le_canonical(bytes@),
            le_val(bytes@, 256) == be_val(digit_seq(s@.subrange(z as int, i as int)), 58),
        decreases n - i,
    {
        let ghost before = digit_seq(s@.subrange(z as int, i as int));
        match digit_exec(s[i]) {
            None => {
                proof {
                    assert(digit_of(s@[i as int]) < 0);
                    assert(!valid_b58(s@));
                }
                return None;
            },
            Some(d) => {
                mul_add(&mut bytes, 256, 58, d as u16);
                proof {
                    assert(digit_seq(s@.subrange(z as int, i + 1)).drop_last() =~= before);
                    assert(digit_seq(s@.subrange(z as int, i + 1)).last() == d);
                }
                i += 1;
            },
        }
    }
    proof {
        assert(valid_b58(s@));
        let ds = digit_seq(s@);
        assert forall|j: int| 0 <= j < z implies ds[j] == 0 by {
            assert(digit_of(s@[j]) == 0);
        }
        if z < n {
            assert(digit_of(s@[z as int]) != 0);
            assert(ds[z as int] != 0);
        }
        lemma_lead_zeros_is(ds, z as nat);
        assert(ds.skip(z as int) =~= digit_seq(s@.subrange(z as int, n as int)));
        lemma_le_val_reverse(bytes@, 256);
        assert(digits_below(bytes@.reverse(), 256)) by {
            assert(forall|j: int|
                0 <= j < bytes@.len() ==> bytes@.reverse()[j] == bytes@[bytes@.len() - 1 - j]);
        }
        if bytes@.len() > 0 {
            assert(bytes@.reverse().first() == bytes@.last());
        }
        lemma_digits_be_of_val(bytes@.reverse(), 256);
    }
    let ghost vd = be_val(digit_seq(s@).skip(z as int), 58);
    let mut out: Vec<u8> = Vec::new();
    let mut k: usize = 0;
    while k < z
        invariant
            k <= z,
            out@.len() == k,
            forall|j: int| 0 <= j < k ==> out@[j] == 0,
        decreases z - k,
    {
        out.push(0);
        k += 1;
    }
    let m = bytes.len();
    let mut k2: usize = 0;
    while k2 < m
        invariant
            k2 <= m,
            m == bytes@.len(),
            digits_be(vd, 256) == bytes@.reverse(),
            out@.len() == z + k2,
            forall|j: int| 0 <= j < z ==> out@[j] == 0,
            forall|j: int| z <= j < z + k2 ==> #[trigger] out@[j] == bytes@[m - 1 - (j - z)],
        decreases m - k2,
    {
        let bk = bytes[m - 1 - k2];
        out.push(bk);
        k2 += 1;
    }
    proof {
        assert(forall|j: int|
            0 <= j < m ==> digits_be(vd, 256)[j] == bytes@[m - 1 - j]);
        assert(out@ =~= repeated(z as nat, 0) + digits_be(vd, 256));
    }
    Some(out)
}

/// Decoding undoes encoding, for every byte string.
pub proof fn lemma_b58_round_trip(x: Seq<u8>)
    ensures
        b58_decode_spec(b58_encode_spec(x)) == Some(x),
{
    lemma_alpha_digit();
    let z = lead_zeros(x);
    lemma_lead_zeros(x);
    let tail = x.skip(z as int);
    let v = be_val(tail, 256);
    let dg = digits_be(v, 58);
    lemma_digits_be_below(v, 58);
    let e = b58_encode_spec(x);
    assert(e == repeated(z, 49) + alpha_seq(dg));
    assert(e.len() == z + dg.len());
    assert(forall|i: int| 0 <= i < z ==> e[i] == 49);
    assert(forall|i: int| z <= i < e.len() ==> e[i] == alpha(dg[i - z]));
    assert(valid_b58(e)) by {
        assert forall|i: int| 0 <= i < e.len() implies digit_of(e[i]) >= 0 by {
            if i < z {
                assert(e[i] == 49);
            } else {
                assert(dg[i - z] < 58);
                assert(digit_of(alpha(dg[i - z])) == dg[i - z]);
            }
        }
    }
    let ds = digit_seq(e);
    assert forall|j: int| 0 <= j < z implies ds[j] == 0 by {
        assert(e[j] == 49);
    }
    if v > 0 {
        lemma_digits_be_first_nonzero(v, 58);
        assert(ds[z as int] == dg[0]);
    }
    assert(z < ds.len() ==> ds[z as int] != 0) by {
        if z < ds.len() {
            assert(dg.len() > 0);
            assert(v > 0) by {
                if v == 0 {
                    assert(dg.len() == 0);
                }
            }
        }
    }
    lemma_lead_zeros_is(ds, z);
    assert(ds.skip(z as int) =~= dg) by {
        assert(forall|j: int|
            0 <= j < dg.len() ==> ds.skip(z as int)[j] == digit_of(alpha(dg[j])) as u8);
    }
    lemma_be_val_digits_be(v, 58);
    assert(be_val(ds.skip(z as int), 58) == v);
    assert(tail.len() > 0 ==> tail.first() != 0);
    lemma_digits_be_of_val(tail, 256);
    assert(digits_be(v, 256) == tail);
    assert(b58_decode_spec(e) == Some(repeated(z, 0) + tail));
    assert(repeated(z, 0) + tail =~= x) by {
        assert(forall|j: int| 0 <= j < z ==> x[j] == 0);
    }
}

} // verus!
