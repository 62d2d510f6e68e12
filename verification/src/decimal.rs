//! Exact decimal magnitudes.
//!
//! A magnitude is a sign together with a little-endian vector of decimal
//! digits and a scale: the represented value is the digit value divided by
//! ten to the scale, negated when the sign is set.  All arithmetic the
//! renderer needs (rounding half away from zero, division by a tier
//! divisor, comparison against a tier bound) is exact on this form.

use vstd::arithmetic::div_mod::*;
use vstd::prelude::*;
use vstd::seq_lib::*;

verus! {

/// Mathematical model of a decimal magnitude: the value is `n / 10^s`,
/// negated when `neg` is set.
pub ghost struct DecView {
    pub neg: bool,
    pub n: nat,
    pub s: nat,
}

/// Ten to the `k`.
pub open spec fn pow10(k: nat) -> nat
    decreases k,
{
    if k == 0 {
        1
    } else {
        10 * pow10((k - 1) as nat)
    }
}

/// Value of a little-endian sequence of decimal digits.
pub open spec fn val_of(ds: Seq<u8>) -> nat
    decreases ds.len(),
{
    if ds.len() == 0 {
        0
    } else {
        (ds[0] + 10 * val_of(ds.drop_first())) as nat
    }
}

/// Every entry is a single decimal digit.
pub open spec fn digits_wf(ds: Seq<u8>) -> bool {
    forall|i: int| 0 <= i < ds.len() ==> ds[i] < 10
}

pub broadcast proof fn lemma_pow10_pos(k: nat)
    ensures
        #[trigger] pow10(k) >= 1,
    decreases k,
{
    if k > 0 {
        lemma_pow10_pos((k - 1) as nat);
    }
}

pub proof fn lemma_pow10_adds(a: nat, b: nat)
    ensures
        pow10(a + b) == pow10(a) * pow10(b),
    decreases a,
{
    if a == 0 {
        assert(pow10(b) == 1 * pow10(b)) by (nonlinear_arith);
    } else {
        lemma_pow10_adds((a - 1) as nat, b);
        assert((a - 1) as nat + b == (a + b - 1) as nat);
        assert(10 * (pow10((a - 1) as nat) * pow10(b)) == (10 * pow10((a - 1) as nat)) * pow10(
            b,
        )) by (nonlinear_arith);
    }
}

pub proof fn lemma_pow10_increases(a: nat, b: nat)
    requires
        a <= b,
    ensures
        pow10(a) <= pow10(b),
    decreases b,
{
    if a < b {
        lemma_pow10_increases(a, (b - 1) as nat);
        lemma_pow10_pos((b - 1) as nat);
    }
}

pub proof fn lemma_val_of_push(ds: Seq<u8>, d: u8)
    ensures
        val_of(ds.push(d)) == val_of(ds) + d * pow10(ds.len() as nat),
    decreases ds.len(),
{
    if ds.len() == 0 {
        assert(ds.push(d).drop_first() =~= Seq::<u8>::empty());
        assert(ds.push(d)[0] == d);
        assert(val_of(Seq::<u8>::empty()) == 0);
        assert(val_of(ds.push(d)) == d);
        assert(d * 1 == d) by (nonlinear_arith);
    } else {
        lemma_val_of_push(ds.drop_first(), d);
        assert(ds.push(d).drop_first() =~= ds.drop_first().push(d));
        assert(ds.push(d)[0] == ds[0]);
        assert(val_of(ds.push(d)) == ds[0] + 10 * (val_of(ds.drop_first()) + d * pow10(
            (ds.len() - 1) as nat,
        )));
        assert(10 * (val_of(ds.drop_first()) + d * pow10((ds.len() - 1) as nat)) == 10 * val_of(
            ds.drop_first(),
        ) + d * (10 * pow10((ds.len() - 1) as nat))) by (nonlinear_arith);
    }
}

/// Splitting a digit sequence splits its value at the matching power of ten.
pub proof fn lemma_val_of_split(ds: Seq<u8>, k: int)
    requires
        0 <= k <= ds.len(),
    ensures
        val_of(ds) == val_of(ds.take(k)) + pow10(k as nat) * val_of(ds.skip(k)),
    decreases k,
{
    if k == 0 {
        assert(ds.take(0) =~= Seq::<u8>::empty());
        assert(ds.skip(0) =~= ds);
        assert(1 * val_of(ds) == val_of(ds)) by (nonlinear_arith);
    } else {
        lemma_val_of_split(ds.drop_first(), k - 1);
        assert(ds.take(k).drop_first() =~= ds.drop_first().take(k - 1));
        assert(ds.skip(k) =~= ds.drop_first().skip(k - 1));
        assert(ds.take(k).len() == k);
        assert(val_of(ds.take(k)) == ds[0] + 10 * val_of(ds.drop_first().take(k - 1)));
        let rest = val_of(ds.drop_first().skip(k - 1));
        assert(val_of(ds) == ds[0] + 10 * (val_of(ds.drop_first().take(k - 1)) + pow10(
            (k - 1) as nat,
        ) * rest));
        assert(10 * (val_of(ds.drop_first().take(k - 1)) + pow10((k - 1) as nat) * rest) == 10
            * val_of(ds.drop_first().take(k - 1)) + (10 * pow10((k - 1) as nat)) * rest)
            by (nonlinear_arith);
    }
}

/// A digit sequence of length `l` has value below `10^l`.
pub proof fn lemma_val_of_bound(ds: Seq<u8>)
    requires
        digits_wf(ds),
    ensures
        val_of(ds) < pow10(ds.len() as nat),
    decreases ds.len(),
{
    if ds.len() == 0 {
    } else {
        lemma_val_of_bound(ds.drop_first());
        assert(val_of(ds.drop_first()) <= pow10((ds.len() - 1) as nat) - 1);
        assert(10 * val_of(ds.drop_first()) <= 10 * (pow10((ds.len() - 1) as nat) - 1))
            by (nonlinear_arith)
            requires
                val_of(ds.drop_first()) <= pow10((ds.len() - 1) as nat) - 1,
        ;
    }
}

/// A digit sequence whose top digit is nonzero has value at least
/// `10^(l-1)`.
pub proof fn lemma_val_of_top(ds: Seq<u8>)
    requires
        ds.len() >= 1,
        ds.last() >= 1,
    ensures
        val_of(ds) >= pow10((ds.len() - 1) as nat),
    decreases ds.len(),
{
    lemma_val_of_split(ds, ds.len() - 1);
    assert(ds.skip(ds.len() - 1) =~= seq![ds.last()]);
    assert(seq![ds.last()].drop_first() =~= Seq::<u8>::empty());
    assert(seq![ds.last()][0] == ds.last());
    assert(val_of(Seq::<u8>::empty()) == 0);
    assert(val_of(seq![ds.last()]) == ds.last());
    assert(pow10((ds.len() - 1) as nat) * val_of(ds.skip(ds.len() - 1)) >= pow10(
        (ds.len() - 1) as nat,
    )) by (nonlinear_arith)
        requires
            val_of(ds.skip(ds.len() - 1)) >= 1,
    ;
}

/// Changing one digit changes the value at that digit's power of ten.
pub proof fn lemma_val_of_update(ds: Seq<u8>, i: int, v: u8)
    requires
        0 <= i < ds.len(),
    ensures
        val_of(ds.update(i, v)) + ds[i] * pow10(i as nat) == val_of(ds) + v * pow10(i as nat),
    decreases i,
{
    if i == 0 {
        assert(ds.update(0, v).drop_first() =~= ds.drop_first());
        assert(ds.update(0, v)[0] == v);
        assert(v * 1 == v && ds[0] * 1 == ds[0]) by (nonlinear_arith);
    } else {
        lemma_val_of_update(ds.drop_first(), i - 1, v);
        assert(ds.update(i, v).drop_first() =~= ds.drop_first().update(i - 1, v));
        assert(ds.update(i, v)[0] == ds[0]);
        let p = pow10((i - 1) as nat);
        let a = val_of(ds.drop_first().update(i - 1, v));
        let b = val_of(ds.drop_first());
        assert(a + ds.drop_first()[i - 1] * p == b + v * p);
        assert(ds.drop_first()[i - 1] == ds[i]);
        assert(10 * a + ds[i] * (10 * p) == 10 * b + v * (10 * p)) by (nonlinear_arith)
            requires
                a + ds[i] * p == b + v * p,
        ;
    }
}

/// Multiply a digit vector by a small constant.
pub(crate) fn mul_digits(ds: &Vec<u8>, k: u64) -> (r: Vec<u8>)
    requires
        digits_wf(ds@),
        1 <= k <= 10_000_000,
        ds@.len() + 8 <= usize::MAX,
    ensures
        digits_wf(r@),
        val_of(r@) == k * val_of(ds@),
        ds@.len() <= r@.len() <= ds@.len() + 8,
{
    let mut r: Vec<u8> = Vec::new();
    let mut carry: u64 = 0;
    let mut i: usize = 0;
    proof {
        assert(ds@.take(0) =~= Seq::<u8>::empty());
        assert(val_of(Seq::<u8>::empty()) == 0);
        assert(k * (0 as nat) == 0 && (0 as nat) * pow10(0) == 0) by (nonlinear_arith);
    }
    while i < ds.len()
        invariant
            digits_wf(ds@),
            1 <= k <= 10_000_000,
            ds@.len() + 8 <= usize::MAX,
            i <= ds@.len(),
            r@.len() == i,
            digits_wf(r@),
            carry < k,
            val_of(r@) + carry * pow10(i as nat) == k * val_of(ds@.take(i as int)),
        decreases ds@.len() - i,
    {
        proof {
            assert(k * (ds@[i as int] as u64) <= k * 9) by (nonlinear_arith)
                requires
                    ds@[i as int] < 10,
                    k >= 1,
            ;
        }
        let prod: u64 = k * (ds[i] as u64) + carry;
        let d: u8 = (prod % 10) as u8;
        let ghost old_r = r@;
        let ghost old_carry = carry as nat;
        r.push(d);
        carry = prod / 10;
        i += 1;
        proof {
            lemma_val_of_push(old_r, d);
            assert(ds@.take(i as int) =~= ds@.take(i - 1).push(ds@[i - 1]));
            lemma_val_of_push(ds@.take(i - 1), ds@[i - 1]);
            assert(ds@.take(i - 1).len() == i - 1);
            lemma_pow10_pos((i - 1) as nat);
            let p = pow10((i - 1) as nat);
            assert(val_of(old_r.push(d)) + (carry as nat) * (10 * p) == k * (val_of(
                ds@.take(i - 1),
            ) + (ds@[i - 1] as nat) * p) && carry < k) by (nonlinear_arith)
                requires
                    val_of(old_r.push(d)) == val_of(old_r) + d * p,
                    val_of(old_r) + old_carry * p == k * val_of(ds@.take(i - 1)),
                    d == (k * (ds@[i - 1] as u64) + old_carry) % 10,
                    carry == (k * (ds@[i - 1] as u64) + old_carry) / 10,
                    old_carry < k,
                    ds@[i - 1] < 10,
                    1 <= k <= 10_000_000,
                    p >= 1,
            ;
        }
    }
    proof {
        assert(ds@.take(ds@.len() as int) =~= ds@);
    }
    proof {
        reveal_with_fuel(pow10, 8);
        assert(pow10(7) == 10_000_000);
    }
    while carry > 0
        invariant
            digits_wf(r@),
            ds@.len() <= r@.len() <= ds@.len() + 7,
            (carry as nat) < pow10((ds@.len() + 7 - r@.len()) as nat),
            val_of(r@) + carry * pow10(r@.len() as nat) == k * val_of(ds@),
            ds@.len() + 8 <= usize::MAX,
        decreases carry,
    {
        let d: u8 = (carry % 10) as u8;
        let ghost old_r = r@;
        let ghost old_carry = carry as nat;
        r.push(d);
        carry = carry / 10;
        proof {
            lemma_val_of_push(old_r, d);
            let p = pow10(old_r.len() as nat);
            let ghost old_budget = (ds@.len() + 7 - old_r.len()) as nat;
            assert(old_budget >= 1) by {
                if old_budget == 0 {
                    assert(pow10(0) == 1);
                }
            };
            assert(pow10(old_budget) == 10 * pow10((old_budget - 1) as nat));
            assert(val_of(old_r.push(d)) + (carry as nat) * (10 * p) == val_of(old_r) + old_carry
                * p && (carry as nat) < pow10((old_budget - 1) as nat)) by (nonlinear_arith)
                requires
                    val_of(old_r.push(d)) == val_of(old_r) + d * p,
                    d == old_carry % 10,
                    carry == old_carry / 10,
                    old_carry < pow10(old_budget),
                    pow10(old_budget) == 10 * pow10((old_budget - 1) as nat),
            ;
        }
    }
    proof {
        assert((0 as nat) * pow10(r@.len() as nat) == 0) by (nonlinear_arith);
    }
    r
}

/// Add one to a digit vector.
pub(crate) fn inc_digits(ds: &mut Vec<u8>)
    requires
        digits_wf(old(ds)@),
        old(ds)@.len() + 1 <= usize::MAX,
    ensures
        digits_wf(final(ds)@),
        val_of(final(ds)@) == val_of(old(ds)@) + 1,
        old(ds)@.len() <= final(ds)@.len() <= old(ds)@.len() + 1,
{
    let mut i: usize = 0;
    proof {
        assert(pow10(0) == 1);
    }
    while i < ds.len()
        invariant
            i <= ds@.len(),
            ds@.len() == old(ds)@.len(),
            digits_wf(ds@),
            val_of(ds@) + pow10(i as nat) == val_of(old(ds)@) + 1,
        decreases ds@.len() - i,
    {
        let ghost before = ds@;
        if ds[i] < 9 {
            let d: u8 = ds[i] + 1;
            ds[i] = d;
            proof {
                lemma_val_of_update(before, i as int, d);
                assert(d * pow10(i as nat) == before[i as int] * pow10(i as nat) + pow10(i as nat))
                    by (nonlinear_arith)
                    requires
                        d == before[i as int] + 1,
                ;
            }
            return ;
        }
        ds[i] = 0;
        i = i + 1;
        proof {
            lemma_val_of_update(before, i - 1, 0);
            let p = pow10((i - 1) as nat);
            assert((0 as nat) * p == 0 && (9 as nat) * p + p == 10 * p) by (nonlinear_arith);
        }
    }
    let ghost before = ds@;
    ds.push(1);
    proof {
        lemma_val_of_push(before, 1);
        assert((1 as nat) * pow10(before.len() as nat) == pow10(before.len() as nat))
            by (nonlinear_arith);
    }
}

/// Copy the digits from position `k` upward.
pub(crate) fn copy_from(ds: &Vec<u8>, k: usize) -> (r: Vec<u8>)
    requires
        k <= ds@.len(),
    ensures
        r@ == ds@.skip(k as int),
{
    let mut r: Vec<u8> = Vec::new();
    let mut i: usize = k;
    while i < ds.len()
        invariant
            k <= i <= ds@.len(),
            r@ == ds@.subrange(k as int, i as int),
        decreases ds@.len() - i,
    {
        r.push(ds[i]);
        proof {
            assert(ds@.subrange(k as int, i + 1) =~= ds@.subrange(k as int, i as int).push(
                ds@[i as int],
            ));
        }
        i = i + 1;
    }
    proof {
        assert(ds@.skip(k as int) =~= ds@.subrange(k as int, ds@.len() as int));
    }
    r
}

/// Rounding half away from zero: `n / 10^s` rounded to `dec` fraction
/// digits, as a scaled pair.  When the scale is already small enough the
/// value is untouched.
pub open spec fn round_nat(n: nat, s: nat, dec: nat) -> (nat, nat) {
    if s <= dec {
        (n, s)
    } else {
        ((n + 5 * pow10((s - dec - 1) as nat)) / pow10((s - dec) as nat), dec)
    }
}

/// The character for one decimal digit.
pub open spec fn char_of_digit(d: nat) -> char {
    if d == 0 {
        '0'
    } else if d == 1 {
        '1'
    } else if d == 2 {
        '2'
    } else if d == 3 {
        '3'
    } else if d == 4 {
        '4'
    } else if d == 5 {
        '5'
    } else if d == 6 {
        '6'
    } else if d == 7 {
        '7'
    } else if d == 8 {
        '8'
    } else {
        '9'
    }
}

/// The usual decimal writing of a natural number, no leading zeros.
pub open spec fn dec_str(n: nat) -> Seq<char>
    decreases n,
{
    if n < 10 {
        seq![char_of_digit(n)]
    } else {
        dec_str(n / 10).push(char_of_digit(n % 10))
    }
}

/// `f` written with exactly `w` digits, zero-padded on the left.
pub open spec fn frac_str(f: nat, w: nat) -> Seq<char>
    decreases w,
{
    if w == 0 {
        Seq::<char>::empty()
    } else {
        frac_str(f / 10, (w - 1) as nat).push(char_of_digit(f % 10))
    }
}

/// Drop trailing zero fraction digits from the scaled pair `n / 10^s`.
pub open spec fn trim(n: nat, s: nat) -> (nat, nat)
    decreases s,
{
    if s > 0 && n % 10 == 0 {
        trim(n / 10, (s - 1) as nat)
    } else {
        (n, s)
    }
}

/// The full text of a decimal value: optional sign, integer part, and the
/// fraction part if any digits of it remain after trimming.
pub open spec fn mantissa_chars(neg: bool, n: nat, s: nat) -> Seq<char> {
    let t = trim(n, s);
    let sign = if neg {
        seq!['-']
    } else {
        Seq::<char>::empty()
    };
    if t.1 == 0 {
        sign + dec_str(t.0)
    } else {
        sign + dec_str(t.0 / pow10(t.1)) + seq!['.'] + frac_str(t.0 % pow10(t.1), t.1)
    }
}

/// The characters of a little-endian digit sequence, written most
/// significant first.
pub open spec fn chars_be(ds: Seq<u8>) -> Seq<char> {
    Seq::new(ds.len(), |i: int| char_of_digit(ds[ds.len() - 1 - i] as nat))
}

/// Peeling the lowest digit is division and remainder by ten.
pub proof fn lemma_val_of_low_digit(ds: Seq<u8>)
    requires
        digits_wf(ds),
        ds.len() >= 1,
    ensures
        val_of(ds) % 10 == ds[0],
        val_of(ds) / 10 == val_of(ds.drop_first()),
{
    let rest = val_of(ds.drop_first());
    assert(val_of(ds) == ds[0] + 10 * rest);
    lemma_fundamental_div_mod_converse_div(val_of(ds) as int, 10, rest as int, ds[0] as int);
    lemma_fundamental_div_mod_converse_mod(val_of(ds) as int, 10, rest as int, ds[0] as int);
}

/// An all-zero digit sequence has value zero.
pub proof fn lemma_val_of_zeros(ds: Seq<u8>)
    requires
        forall|j: int| 0 <= j < ds.len() ==> ds[j] == 0,
    ensures
        val_of(ds) == 0,
    decreases ds.len(),
{
    if ds.len() > 0 {
        lemma_val_of_zeros(ds.drop_first());
    }
}

/// A digit sequence with no leading zero writes as its digits, most
/// significant first.
pub proof fn lemma_dec_str_of_digits(ds: Seq<u8>)
    requires
        digits_wf(ds),
        ds.len() >= 1,
        ds.len() == 1 || ds.last() != 0,
    ensures
        dec_str(val_of(ds)) == chars_be(ds),
    decreases ds.len(),
{
    let n = val_of(ds);
    lemma_val_of_low_digit(ds);
    if ds.len() == 1 {
        assert(ds.drop_first() =~= Seq::<u8>::empty());
        assert(val_of(Seq::<u8>::empty()) == 0);
        assert(n == ds[0]);
        assert(dec_str(n) =~= chars_be(ds));
    } else {
        lemma_val_of_top(ds);
        lemma_pow10_increases(1, (ds.len() - 1) as nat);
        assert(pow10(1) == 10 * pow10(0));
        assert(n >= 10);
        assert(ds.drop_first().last() == ds.last());
        lemma_dec_str_of_digits(ds.drop_first());
        assert(dec_str(n) == dec_str(val_of(ds.drop_first())).push(char_of_digit(ds[0] as nat)));
        assert(dec_str(n) =~= chars_be(ds));
    }
}

/// A digit sequence writes as its digits when padded to its own width.
pub proof fn lemma_frac_str_of_digits(ds: Seq<u8>)
    requires
        digits_wf(ds),
    ensures
        frac_str(val_of(ds), ds.len() as nat) == chars_be(ds),
    decreases ds.len(),
{
    if ds.len() == 0 {
        assert(frac_str(val_of(ds), 0) =~= chars_be(ds));
    } else {
        lemma_val_of_low_digit(ds);
        lemma_frac_str_of_digits(ds.drop_first());
        assert(frac_str(val_of(ds), ds.len() as nat) == frac_str(
            val_of(ds.drop_first()),
            (ds.len() - 1) as nat,
        ).push(char_of_digit(ds[0] as nat)));
        assert(frac_str(val_of(ds), ds.len() as nat) =~= chars_be(ds));
    }
}

/// Trimming the scaled pair is dropping the low zero digits, up to the
/// first nonzero digit or the end of the fraction.
pub proof fn lemma_trim_digits(ds: Seq<u8>, s: nat, z: nat)
    requires
        digits_wf(ds),
        z <= s,
        s <= ds.len(),
        forall|j: int| 0 <= j < z ==> ds[j] == 0,
        z == s || ds[z as int] != 0,
    ensures
        trim(val_of(ds), s) == (val_of(ds.skip(z as int)), (s - z) as nat),
    decreases z,
{
    if z == 0 {
        assert(ds.skip(0) =~= ds);
        if s > 0 {
            lemma_val_of_low_digit(ds);
        }
    } else {
        lemma_val_of_low_digit(ds);
        lemma_trim_digits(ds.drop_first(), (s - 1) as nat, (z - 1) as nat);
        assert(ds.drop_first().skip(z - 1) =~= ds.skip(z as int));
    }
}

/// Trimming keeps the value: its first component is zero only for the
/// value zero.
pub proof fn lemma_trim_zero(n: nat, s: nat)
    ensures
        (trim(n, s).0 == 0) == (n == 0),
    decreases s,
{
    if s > 0 && n % 10 == 0 {
        lemma_trim_zero(n / 10, (s - 1) as nat);
        lemma_fundamental_div_mod(n as int, 10);
    }
}

/// The text of one digit.
pub(crate) fn digit_str(d: u8) -> (r: &'static str)
    requires
        d < 10,
    ensures
        r@ == seq![char_of_digit(d as nat)],
{
    let r: &'static str = match d {
        0 => "0",
        1 => "1",
        2 => "2",
        3 => "3",
        4 => "4",
        5 => "5",
        6 => "6",
        7 => "7",
        8 => "8",
        _ => "9",
    };
    proof {
        reveal_strlit("0");
        reveal_strlit("1");
        reveal_strlit("2");
        reveal_strlit("3");
        reveal_strlit("4");
        reveal_strlit("5");
        reveal_strlit("6");
        reveal_strlit("7");
        reveal_strlit("8");
        reveal_strlit("9");
        assert(r@ =~= seq![char_of_digit(d as nat)]);
    }
    r
}

/// Append the digits `ds[lo..hi]` to `r`, most significant first.
pub(crate) fn append_digits_desc(r: &mut String, ds: &Vec<u8>, lo: usize, hi: usize)
    requires
        digits_wf(ds@),
        lo <= hi <= ds@.len(),
    ensures
        final(r)@ == old(r)@ + chars_be(ds@.subrange(lo as int, hi as int)),
{
    let mut i: usize = hi;
    while i > lo
        invariant
            lo <= i <= hi <= ds@.len(),
            digits_wf(ds@),
            r@ == old(r)@ + Seq::new((hi - i) as nat, |j: int| char_of_digit(ds@[hi - 1 - j] as nat)),
        decreases i,
    {
        i = i - 1;
        let ghost before = r@;
        r.append(digit_str(ds[i]));
        proof {
            assert(Seq::new((hi - i) as nat, |j: int| char_of_digit(ds@[hi - 1 - j] as nat)) =~= Seq::new(
                (hi - i - 1) as nat,
                |j: int| char_of_digit(ds@[hi - 1 - j] as nat),
            ) + seq![char_of_digit(ds@[i as int] as nat)]);
            assert(r@ =~= old(r)@ + Seq::new((hi - i) as nat, |j: int| char_of_digit(ds@[hi - 1 - j] as nat)));
        }
    }
    proof {
        assert(Seq::new((hi - lo) as nat, |j: int| char_of_digit(ds@[hi - 1 - j] as nat)) =~= chars_be(
            ds@.subrange(lo as int, hi as int),
        ));
    }
}

/// Compare a digit vector's value against a small constant.
pub(crate) fn digits_ge(ds: &Vec<u8>, c: u64) -> (b: bool)
    requires
        digits_wf(ds@),
        c <= 1_000_000,
    ensures
        b == (val_of(ds@) >= c),
{
    if c == 0 {
        return true;
    }
    let mut acc: u64 = 0;
    let mut i: usize = ds.len();
    proof {
        assert(ds@.skip(ds@.len() as int) =~= Seq::<u8>::empty());
        assert(val_of(Seq::<u8>::empty()) == 0);
    }
    while i > 0
        invariant
            i <= ds@.len(),
            digits_wf(ds@),
            c <= 1_000_000,
            acc == val_of(ds@.skip(i as int)),
            acc < c,
        decreases i,
    {
        i = i - 1;
        let ghost prev = acc as nat;
        acc = acc * 10 + (ds[i] as u64);
        proof {
            assert(ds@.skip(i as int).drop_first() =~= ds@.skip(i + 1));
            assert(ds@.skip(i as int)[0] == ds@[i as int]);
            assert(val_of(ds@.skip(i as int)) == ds@[i as int] + 10 * prev);
        }
        if acc >= c {
            proof {
                lemma_val_of_split(ds@, i as int);
                lemma_pow10_pos(i as nat);
                assert(val_of(ds@) >= c) by (nonlinear_arith)
                    requires
                        val_of(ds@) == val_of(ds@.take(i as int)) + pow10(i as nat) * val_of(
                            ds@.skip(i as int),
                        ),
                        pow10(i as nat) >= 1,
                        val_of(ds@.skip(i as int)) >= c,
                ;
            }
            return true;
        }
    }
    proof {
        assert(ds@.skip(0) =~= ds@);
    }
    false
}

/// A decimal digit character.
pub open spec fn is_digit_char(c: char) -> bool {
    '0' <= c && c <= '9'
}

/// The value of a decimal digit character.
pub open spec fn digit_of_char(c: char) -> nat {
    (c as int - '0' as int) as nat
}

/// The digits of a number's text, little-endian, with the point removed.
pub open spec fn rev_digits(cs: Seq<char>) -> Seq<u8>
    decreases cs.len(),
{
    if cs.len() == 0 {
        Seq::<u8>::empty()
    } else if cs[0] == '.' {
        rev_digits(cs.drop_first())
    } else {
        rev_digits(cs.drop_first()).push(digit_of_char(cs[0]) as u8)
    }
}

/// How many characters follow the first point.
pub open spec fn frac_len(cs: Seq<char>) -> nat
    decreases cs.len(),
{
    if cs.len() == 0 {
        0
    } else if cs[0] == '.' {
        (cs.len() - 1) as nat
    } else {
        frac_len(cs.drop_first())
    }
}

/// An unsigned number's text: digits with at most one interior point.
pub open spec fn valid_body(cs: Seq<char>) -> bool {
    &&& cs.len() >= 1
    &&& forall|i: int| 0 <= i < cs.len() ==> (is_digit_char(cs[i]) || cs[i] == '.')
    &&& is_digit_char(cs[0])
    &&& is_digit_char(cs.last())
    &&& forall|i: int, j: int| 0 <= i < j < cs.len() && cs[i] == '.' ==> cs[j] != '.'
}

/// A number's text: an optional minus sign, then an unsigned body.
pub open spec fn valid_decimal(cs: Seq<char>) -> bool {
    if cs.len() > 0 && cs[0] == '-' {
        valid_body(cs.drop_first())
    } else {
        valid_body(cs)
    }
}

/// The value a number's text denotes, in canonical form: trailing
/// fraction zeros are dropped and the sign of zero is cleared, so two
/// texts of the same value read back equal.
pub open spec fn parsed_value(cs: Seq<char>) -> DecView {
    let neg = cs.len() > 0 && cs[0] == '-';
    let b = if neg {
        cs.drop_first()
    } else {
        cs
    };
    let t = trim(val_of(rev_digits(b)), frac_len(b));
    DecView { neg: neg && t.0 != 0, n: t.0, s: t.1 }
}

/// For characters in the ASCII range, the byte classes the parser tests
/// coincide with the character classes of the format.
proof fn lemma_ascii_char_class(c: char)
    requires
        '\0' <= c <= '\u{7f}',
    ensures
        (c as u8 == 45) == (c == '-'),
        (c as u8 == 46) == (c == '.'),
        (48 <= c as u8 && c as u8 <= 57) == is_digit_char(c),
        is_digit_char(c) ==> c as u8 >= 48 && ((c as u8 - 48) as nat == digit_of_char(c) && c
            as u8 - 48 < 10),
{
}

/// A number's text holds only characters in the ASCII range.
proof fn lemma_valid_decimal_ascii(cs: Seq<char>)
    requires
        valid_decimal(cs),
    ensures
        vstd::utf8::is_ascii_chars(cs),
{
    let neg = cs.len() > 0 && cs[0] == '-';
    let b = if neg {
        cs.drop_first()
    } else {
        cs
    };
    assert forall|i: int| 0 <= i < cs.len() implies '\0' <= #[trigger] cs[i] <= '\u{7f}' by {
        if neg && i == 0 {
        } else {
            let k = if neg {
                i - 1
            } else {
                i
            };
            assert(b[k] == cs[i]);
            assert(is_digit_char(b[k]) || b[k] == '.');
        }
    }
}

/// The count of fraction characters when the first point sits at `p`.
proof fn lemma_frac_len_at(cs: Seq<char>, p: int)
    requires
        0 <= p < cs.len(),
        cs[p] == '.',
        forall|k: int| 0 <= k < p ==> cs[k] != '.',
    ensures
        frac_len(cs) == cs.len() - 1 - p,
    decreases p,
{
    if p > 0 {
        lemma_frac_len_at(cs.drop_first(), p - 1);
    }
}

/// A text without a point has no fraction characters.
proof fn lemma_frac_len_none(cs: Seq<char>)
    requires
        forall|k: int| 0 <= k < cs.len() ==> cs[k] != '.',
    ensures
        frac_len(cs) == 0,
    decreases cs.len(),
{
    if cs.len() > 0 {
        lemma_frac_len_none(cs.drop_first());
    }
}

/// An exact decimal magnitude.
#[derive(Debug)]
pub struct Dec {
    pub(crate) neg: bool,
    pub(crate) digits: Vec<u8>,
    pub(crate) scale: usize,
}

impl View for Dec {
    type V = DecView;

    closed spec fn view(&self) -> DecView {
        DecView { neg: self.neg, n: val_of(self.digits@), s: self.scale as nat }
    }
}

impl Dec {
    /// Well-formed: all entries are digits and the integer part owns at
    /// least one digit slot.
    pub closed spec fn wf(&self) -> bool {
        &&& digits_wf(self.digits@)
        &&& self.scale < self.digits@.len()
    }

    /// How many digit slots can still be added before the machine limit;
    /// walking the tiers needs a little room to grow.
    pub closed spec fn room(&self) -> int {
        usize::MAX - self.digits@.len()
    }

    /// Representation equality: same sign, same digits, same scale.
    pub closed spec fn rep_eq(self, other: Dec) -> bool {
        self.neg == other.neg && self.digits@ == other.digits@ && self.scale == other.scale
    }

    /// Whether two magnitudes have the same representation.
    pub fn same_rep(&self, other: &Dec) -> (r: bool)
        ensures
            r == self.rep_eq(*other),
    {
        if self.neg != other.neg || self.scale != other.scale || self.digits.len()
            != other.digits.len() {
            return false;
        }
        let mut i: usize = 0;
        while i < self.digits.len()
            invariant
                i <= self.digits@.len(),
                self.digits@.len() == other.digits@.len(),
                forall|k: int| 0 <= k < i ==> self.digits@[k] == other.digits@[k],
            decreases self.digits@.len() - i,
        {
            if self.digits[i] != other.digits[i] {
                return false;
            }
            i = i + 1;
        }
        proof {
            assert(self.digits@ =~= other.digits@);
        }
        true
    }

    /// The same value in canonical form: trailing fraction zeros dropped,
    /// leading integer zeros dropped, and the sign of zero cleared.
    pub fn normalized(self) -> (r: Dec)
        requires
            self.wf(),
        ensures
            r.wf(),
            r.room() >= self.room(),
            r@ == (DecView {
                neg: self@.neg && trim(self@.n, self@.s).0 != 0,
                n: trim(self@.n, self@.s).0,
                s: trim(self@.n, self@.s).1,
            }),
    {
        let z = self.low_zeros();
        let mut digits = copy_from(&self.digits, z);
        let scale = self.scale - z;
        let ghost len0 = self.digits@.len();
        while digits.len() > scale + 1 && digits[digits.len() - 1] == 0
            invariant
                digits_wf(digits@),
                scale < digits@.len(),
                digits@.len() <= len0,
                val_of(digits@) == trim(self@.n, self@.s).0,
            decreases digits@.len(),
        {
            let ghost before = digits@;
            let _ = digits.pop();
            proof {
                assert(before =~= digits@.push(0));
                lemma_val_of_push(digits@, 0);
                assert((0 as nat) * pow10(digits@.len() as nat) == 0) by (nonlinear_arith);
            }
        }
        let neg = if digits_ge(&digits, 1) {
            self.neg
        } else {
            false
        };
        proof {
            lemma_trim_zero(self@.n, self@.s);
        }
        Dec { neg, digits, scale }
    }

    /// An identical copy.
    pub(crate) fn dup(&self) -> (r: Dec)
        ensures
            r@ == self@,
            r.wf() == self.wf(),
            r.room() == self.room(),
            r.digits@ == self.digits@,
            r.scale == self.scale,
            r.neg == self.neg,
    {
        let digits = copy_from(&self.digits, 0);
        proof {
            assert(self.digits@.skip(0) =~= self.digits@);
        }
        Dec { neg: self.neg, digits, scale: self.scale }
    }

    /// Round half away from zero to `dec` fraction digits.
    pub fn round_to(&self, dec: usize) -> (r: Dec)
        requires
            self.wf(),
        ensures
            r.wf(),
            r.room() >= self.room(),
            r@.neg == self@.neg,
            r@.n == round_nat(self@.n, self@.s, dec as nat).0,
            r@.s == round_nat(self@.n, self@.s, dec as nat).1,
            r@.s <= dec,
    {
        if self.scale <= dec {
            return self.dup();
        }
        let k = self.scale - dec;
        let top_dropped = self.digits[k - 1];
        let mut out = copy_from(&self.digits, k);
        let ghost ds = self.digits@;
        let ghost low = val_of(ds.take(k as int));
        let ghost high = val_of(ds.skip(k as int));
        let ghost p = pow10(k as nat);
        let ghost h = 5 * pow10((k - 1) as nat);
        proof {
            lemma_val_of_split(ds, k as int);
            lemma_pow10_pos((k - 1) as nat);
            assert(p == 10 * pow10((k - 1) as nat));
            // the top dropped digit decides which side of the midpoint the
            // dropped tail lies on
            lemma_val_of_split(ds.take(k as int), k - 1);
            assert(ds.take(k as int).take(k - 1) =~= ds.take(k - 1));
            assert(ds.take(k as int).skip(k - 1) =~= seq![ds[k - 1]]);
            assert(seq![ds[k - 1]].drop_first() =~= Seq::<u8>::empty());
            assert(seq![ds[k - 1]][0] == ds[k - 1]);
            assert(val_of(Seq::<u8>::empty()) == 0);
            assert(val_of(seq![ds[k - 1]]) == ds[k - 1]);
            lemma_val_of_bound(ds.take(k - 1));
            assert(low == val_of(ds.take(k - 1)) + pow10((k - 1) as nat) * (ds[k - 1] as nat));
            assert(low < p) by (nonlinear_arith)
                requires
                    low == val_of(ds.take(k - 1)) + pow10((k - 1) as nat) * (ds[k - 1] as nat),
                    val_of(ds.take(k - 1)) < pow10((k - 1) as nat),
                    ds[k - 1] < 10,
                    p == 10 * pow10((k - 1) as nat),
            ;
            assert((ds[k - 1] >= 5) == (low >= h)) by (nonlinear_arith)
                requires
                    low == val_of(ds.take(k - 1)) + pow10((k - 1) as nat) * (ds[k - 1] as nat),
                    val_of(ds.take(k - 1)) < pow10((k - 1) as nat),
                    ds[k - 1] < 10,
                    h == 5 * pow10((k - 1) as nat),
            ;
        }
        if top_dropped >= 5 {
            let total = self.digits.len();
            proof {
                assert(out@.len() == total - k);
                assert(out@.len() + 1 <= usize::MAX);
            }
            inc_digits(&mut out);
            proof {
                assert(self@.n + h == (high + 1) * p + (low + h - p)) by (nonlinear_arith)
                    requires
                        self@.n == low + p * high,
                ;
                lemma_fundamental_div_mod_converse_div(
                    (self@.n + h) as int,
                    p as int,
                    high as int + 1,
                    low + h - p,
                );
            }
        } else {
            proof {
                assert(self@.n + h == high * p + (low + h)) by (nonlinear_arith)
                    requires
                        self@.n == low + p * high,
                ;
                lemma_fundamental_div_mod_converse_div(
                    (self@.n + h) as int,
                    p as int,
                    high as int,
                    (low + h) as int,
                );
            }
        }
        Dec { neg: self.neg, digits: out, scale: dec }
    }

    /// The same magnitude under the given sign.
    pub fn with_neg(self, neg: bool) -> (r: Dec)
        ensures
            r.wf() == self.wf(),
            r.room() == self.room(),
            r@ == (DecView { neg, ..self@ }),
    {
        Dec { neg, ..self }
    }

    /// Whether the rounded value's magnitude reaches `c`, that is whether
    /// `n >= c * 10^s`.
    pub fn magnitude_reaches(&self, c: u64) -> (b: bool)
        requires
            self.wf(),
            self@.s <= 2,
            c <= 2048,
        ensures
            b == (self@.n >= c * pow10(self@.s)),
    {
        let bound: u64 = if self.scale == 0 {
            c
        } else if self.scale == 1 {
            c * 10
        } else {
            c * 100
        };
        proof {
            reveal_with_fuel(pow10, 3);
            if self.scale == 0 {
                assert(pow10(self@.s) == 1);
                assert(c * 1 == c) by (nonlinear_arith);
            } else if self.scale == 1 {
                assert(pow10(self@.s) == 10);
            } else {
                assert(pow10(self@.s) == 100);
            }
            assert(bound == c * pow10(self@.s));
        }
        digits_ge(&self.digits, bound)
    }

    /// Divide the value by the tier divisor `10^sh / k`: multiply the
    /// digits by `k` and raise the scale by `sh`.
    pub(crate) fn div_step(&self, k: u64, sh: usize) -> (r: Dec)
        requires
            self.wf(),
            1 <= k <= 10_000_000,
            sh <= 10,
            self.room() >= 12,
        ensures
            r.wf(),
            r.room() >= self.room() - 12,
            r@.neg == self@.neg,
            r@.n == k * self@.n,
            r@.s == self@.s + sh,
    {
        let mut digits = mul_digits(&self.digits, k);
        let scale = self.scale + sh;
        while digits.len() <= scale
            invariant
                digits_wf(digits@),
                val_of(digits@) == k * val_of(self.digits@),
                digits@.len() <= self.digits@.len() + 8 || digits@.len() <= scale + 1,
                scale + 1 <= usize::MAX,
            decreases scale + 1 - digits@.len(),
        {
            let ghost before = digits@;
            digits.push(0);
            proof {
                lemma_val_of_push(before, 0);
                assert((0 as nat) * pow10(before.len() as nat) == 0) by (nonlinear_arith);
            }
        }
        Dec { neg: self.neg, digits, scale }
    }

    /// How many zero digits sit at the bottom of the fraction.
    pub(crate) fn low_zeros(&self) -> (z: usize)
        requires
            self.wf(),
        ensures
            z <= self.scale,
            forall|j: int| 0 <= j < z ==> self.digits@[j] == 0,
            z == self.scale || self.digits@[z as int] != 0,
            trim(self@.n, self@.s) == (
                val_of(self.digits@.skip(z as int)),
                (self.scale - z) as nat,
            ),
    {
        let mut z: usize = 0;
        while z < self.scale && self.digits[z] == 0
            invariant
                z <= self.scale,
                self.wf(),
                forall|j: int| 0 <= j < z ==> self.digits@[j] == 0,
            decreases self.scale - z,
        {
            z = z + 1;
        }
        proof {
            lemma_trim_digits(self.digits@, self@.s, z as nat);
        }
        z
    }

    /// How many fraction digits the value still shows once trailing zeros
    /// are dropped.
    pub fn fraction_digits(&self) -> (r: usize)
        requires
            self.wf(),
        ensures
            r as nat == trim(self@.n, self@.s).1,
    {
        self.scale - self.low_zeros()
    }

    /// The textual mantissa: sign, integer part, and trimmed fraction.
    pub fn mantissa_text(&self) -> (r: String)
        requires
            self.wf(),
        ensures
            r@ == mantissa_chars(self@.neg, self@.n, self@.s),
    {
        let z = self.low_zeros();
        let s = self.scale;
        let mut top: usize = self.digits.len();
        while top > s + 1 && self.digits[top - 1] == 0
            invariant
                s + 1 <= top <= self.digits@.len(),
                self.wf(),
                s == self.scale,
                forall|j: int| top <= j < self.digits@.len() ==> self.digits@[j] == 0,
            decreases top,
        {
            top = top - 1;
        }
        let mut r = String::new();
        if self.neg {
            let sign = "-";
            proof {
                reveal_strlit("-");
                assert(sign@ =~= seq!['-']);
            }
            r.append(sign);
        }
        append_digits_desc(&mut r, &self.digits, s, top);
        let ghost ds = self.digits@;
        let ghost t = trim(self@.n, self@.s);
        proof {
            // the integer part of the trimmed value is the digits above the
            // scale, with high zeros stripped
            lemma_val_of_split(ds.skip(z as int), s - z);
            assert(ds.skip(z as int).take(s - z) =~= ds.subrange(z as int, s as int));
            assert(ds.skip(z as int).skip(s - z) =~= ds.skip(s as int));
            lemma_val_of_bound(ds.subrange(z as int, s as int));
            lemma_pow10_pos((s - z) as nat);
            let p = pow10((s - z) as nat) as int;
            let q = val_of(ds.skip(s as int)) as int;
            let rem = val_of(ds.subrange(z as int, s as int)) as int;
            assert(t.0 == val_of(ds.skip(z as int)));
            assert(t.0 as int == rem + p * q);
            assert(rem + p * q == q * p + rem) by (nonlinear_arith);
            assert(0 <= rem < p);
            lemma_fundamental_div_mod_converse_div(t.0 as int, p, q, rem);
            lemma_fundamental_div_mod_converse_mod(t.0 as int, p, q, rem);
            lemma_val_of_split(ds.skip(s as int), top - s);
            assert(ds.skip(s as int).take(top - s) =~= ds.subrange(s as int, top as int));
            assert(ds.skip(s as int).skip(top - s) =~= ds.skip(top as int));
            lemma_val_of_zeros(ds.skip(top as int));
            assert(pow10((top - s) as nat) * 0 == 0) by (nonlinear_arith);
            assert(val_of(ds.skip(s as int)) == val_of(ds.subrange(s as int, top as int)));
            assert(ds.subrange(s as int, top as int).len() == top - s);
            assert(top - s >= 1);
            if top - s > 1 {
                assert(ds.subrange(s as int, top as int).last() == ds[top - 1]);
                assert(ds[top - 1] != 0);
            }
            lemma_dec_str_of_digits(ds.subrange(s as int, top as int));
        }
        if s > z {
            let dot = ".";
            proof {
                reveal_strlit(".");
                assert(dot@ =~= seq!['.']);
            }
            r.append(dot);
            append_digits_desc(&mut r, &self.digits, z, s);
            proof {
                lemma_frac_str_of_digits(ds.subrange(z as int, s as int));
                assert(t.1 == (s - z) as nat && t.1 > 0);
                assert(r@ =~= mantissa_chars(self@.neg, self@.n, self@.s));
            }
        } else {
            proof {
                assert(z == s && t.1 == 0);
                assert(ds.skip(z as int) =~= ds.skip(s as int));
                assert(r@ =~= mantissa_chars(self@.neg, self@.n, self@.s));
            }
        }
        r
    }

    /// Read a magnitude from its plain decimal text: an optional minus
    /// sign, integer digits, and an optional point followed by fraction
    /// digits.  Anything else is refused, as is a text too long for the
    /// renderer's working room.  The result is canonical, so texts of the
    /// same value (`"1"` and `"1.0"`) read back equal.
    pub fn parse(s: &str) -> (r: Option<Dec>)
        ensures
            match r {
                Some(d) => {
                    &&& valid_decimal(s@)
                    &&& s@.len() + 140 <= usize::MAX
                    &&& d.wf()
                    &&& d.room() >= 132
                    &&& d@ == parsed_value(s@)
                },
                None => !valid_decimal(s@) || s@.len() + 140 > usize::MAX,
            },
    {
        broadcast use vstd::string::is_ascii_spec_bytes;

        if !s.is_ascii() {
            proof {
                if valid_decimal(s@) {
                    lemma_valid_decimal_ascii(s@);
                }
            }
            return None;
        }
        let bytes = s.as_bytes();
        let n = bytes.len();
        proof {
            assert(bytes@ =~= Seq::new(s@.len(), |i: int| s@[i] as u8));
        }
        if n > usize::MAX - 140 {
            return None;
        }
        if n == 0 {
            return None;
        }
        proof {
            lemma_ascii_char_class(s@[0]);
        }
        let neg = bytes[0] == 45;
        let start: usize = if neg {
            1
        } else {
            0
        };
        if start >= n {
            return None;
        }
        let ghost b = s@.skip(start as int);
        proof {
            assert(b.len() == n - start);
            if neg {
                assert(b =~= s@.drop_first());
            } else {
                assert(b =~= s@);
            }
            assert(valid_decimal(s@) == valid_body(b));
            assert(forall|k: int| 0 <= k < b.len() ==> b[k] == s@[k + start]);
        }
        let mut dot: usize = n;
        let mut i: usize = start;
        while i < n
            invariant
                start <= i <= n,
                n == s@.len(),
                start <= 1,
                b == s@.skip(start as int),
                b.len() == n - start,
                forall|k: int| 0 <= k < b.len() ==> b[k] == s@[k + start],
                valid_decimal(s@) == valid_body(b),
                bytes@ == Seq::new(s@.len(), |k: int| s@[k] as u8),
                vstd::utf8::is_ascii_chars(s@),
                dot == n || (start < dot < n - 1 && dot < i && s@[dot as int] == '.'),
                forall|k: int| start <= k < i && k != dot ==> is_digit_char(s@[k]),
                forall|k: int| start <= k < i && k != dot ==> s@[k] != '.',
            decreases n - i,
        {
            let c = bytes[i];
            proof {
                lemma_ascii_char_class(s@[i as int]);
            }
            if c == 46 {
                if dot != n || i == start || i == n - 1 {
                    proof {
                        assert(b[i - start] == '.');
                        if dot != n {
                            assert(b[dot - start] == '.');
                        }
                    }
                    return None;
                }
                dot = i;
            } else if !(48 <= c && c <= 57) {
                proof {
                    assert(!is_digit_char(b[i - start]) && b[i - start] != '.');
                }
                return None;
            }
            i = i + 1;
        }
        proof {
            assert(valid_body(b)) by {
                assert(b[0] == s@[start as int]);
                assert(b.last() == s@[n - 1]);
                assert forall|p: int, q: int|
                    #![trigger b[p], b[q]]
                    0 <= p < q < b.len() && b[p] == '.' implies b[q] != '.' by {
                    assert(b[p] == s@[p + start]);
                    assert(b[q] == s@[q + start]);
                }
            }
        }
        let mut digits: Vec<u8> = Vec::new();
        let mut j: usize = n;
        while j > start
            invariant
                start <= j <= n,
                n == s@.len(),
                bytes@ == Seq::new(s@.len(), |k: int| s@[k] as u8),
                vstd::utf8::is_ascii_chars(s@),
                dot == n || (start < dot < n - 1 && s@[dot as int] == '.'),
                forall|k: int| start <= k < n && k != dot ==> is_digit_char(s@[k]),
                digits@ == rev_digits(s@.subrange(j as int, n as int)),
                digits_wf(digits@),
                digits@.len() + (if j <= dot && dot < n {
                    1int
                } else {
                    0int
                }) == n - j,
            decreases j,
        {
            j = j - 1;
            let ghost tail = s@.subrange(j + 1, n as int);
            proof {
                assert(s@.subrange(j as int, n as int).drop_first() =~= tail);
                assert(s@.subrange(j as int, n as int)[0] == s@[j as int]);
                lemma_ascii_char_class(s@[j as int]);
            }
            if j != dot {
                digits.push(bytes[j] - 48);
            }
        }
        proof {
            assert(s@.subrange(start as int, n as int) =~= b);
        }
        let scale: usize = if dot == n {
            0
        } else {
            n - 1 - dot
        };
        proof {
            if dot == n {
                assert forall|k: int| 0 <= k < b.len() implies b[k] != '.' by {
                    assert(b[k] == s@[k + start]);
                }
                lemma_frac_len_none(b);
            } else {
                assert(b[dot - start] == '.');
                assert forall|k: int| 0 <= k < dot - start implies b[k] != '.' by {
                    assert(b[k] == s@[k + start]);
                }
                lemma_frac_len_at(b, dot - start);
            }
        }
        let raw = Dec { neg, digits, scale };
        Some(raw.normalized())
    }

    /// The magnitude of `v` as an exact decimal with no fraction digits.
    pub fn from_u64(v: u64) -> (r: Dec)
        ensures
            r.wf(),
            r.room() >= 1000,
            r@ == (DecView { neg: false, n: v as nat, s: 0 }),
    {
        let mut digits: Vec<u8> = Vec::new();
        let mut rest: u64 = v;
        proof {
            reveal_with_fuel(pow10, 21);
            assert(pow10(20) > 0xffff_ffff_ffff_ffff);
            assert(val_of(digits@) == 0);
            assert(pow10(0) == 1);
            assert((rest as nat) * 1 == rest as nat) by (nonlinear_arith);
        }
        while rest != 0
            invariant
                digits@.len() <= 20,
                (rest as nat) < pow10((20 - digits@.len()) as nat),
                digits_wf(digits@),
                val_of(digits@) + (rest as nat) * pow10(digits@.len() as nat) == v as nat,
            decreases rest,
        {
            let d: u8 = (rest % 10) as u8;
            let ghost old_digits = digits@;
            let ghost old_rest = rest as nat;
            digits.push(d);
            rest = rest / 10;
            proof {
                lemma_val_of_push(old_digits, d);
                assert((rest as nat) < pow10((20 - digits@.len()) as nat) && old_rest * pow10(
                    old_digits.len() as nat,
                ) == d * pow10(old_digits.len() as nat) + (rest as nat) * pow10(
                    digits@.len() as nat,
                )) by (nonlinear_arith)
                    requires
                        old_rest < pow10((20 - old_digits.len()) as nat),
                        old_rest > 0,
                        old_digits.len() < 20,
                        digits@.len() == old_digits.len() + 1,
                        d == old_rest % 10,
                        rest == old_rest / 10,
                        pow10((20 - old_digits.len()) as nat) == 10 * pow10(
                            (20 - digits@.len()) as nat,
                        ),
                        pow10(digits@.len() as nat) == 10 * pow10(old_digits.len() as nat),
                ;
            }
        }
        proof {
            assert((0 as nat) * pow10(digits@.len() as nat) == 0) by (nonlinear_arith);
        }
        if digits.len() == 0 {
            let ghost old_digits = digits@;
            digits.push(0);
            proof {
                lemma_val_of_push(old_digits, 0);
            }
        }
        Dec { neg: false, digits, scale: 0 }
    }

    /// The magnitude of `v` as an exact decimal with no fraction digits.
    pub fn from_u128(v: u128) -> (r: Dec)
        ensures
            r.wf(),
            r.room() >= 1000,
            r@ == (DecView { neg: false, n: v as nat, s: 0 }),
    {
        let mut digits: Vec<u8> = Vec::new();
        let mut rest: u128 = v;
        proof {
            reveal_with_fuel(pow10, 40);
            assert(pow10(39) > 0xffff_ffff_ffff_ffff_ffff_ffff_ffff_ffff);
            assert(val_of(digits@) == 0);
            assert(pow10(0) == 1);
            assert((rest as nat) * 1 == rest as nat) by (nonlinear_arith);
        }
        while rest != 0
            invariant
                digits@.len() <= 39,
                (rest as nat) < pow10((39 - digits@.len()) as nat),
                digits_wf(digits@),
                val_of(digits@) + (rest as nat) * pow10(digits@.len() as nat) == v as nat,
            decreases rest,
        {
            let d: u8 = (rest % 10) as u8;
            let ghost old_digits = digits@;
            let ghost old_rest = rest as nat;
            digits.push(d);
            rest = rest / 10;
            proof {
                lemma_val_of_push(old_digits, d);
                assert((rest as nat) < pow10((39 - digits@.len()) as nat) && old_rest * pow10(
                    old_digits.len() as nat,
                ) == d * pow10(old_digits.len() as nat) + (rest as nat) * pow10(
                    digits@.len() as nat,
                )) by (nonlinear_arith)
                    requires
                        old_rest < pow10((39 - old_digits.len()) as nat),
                        old_rest > 0,
                        old_digits.len() < 39,
                        digits@.len() == old_digits.len() + 1,
                        d == old_rest % 10,
                        rest == old_rest / 10,
                        pow10((39 - old_digits.len()) as nat) == 10 * pow10(
                            (39 - digits@.len()) as nat,
                        ),
                        pow10(digits@.len() as nat) == 10 * pow10(old_digits.len() as nat),
                ;
            }
        }
        proof {
            assert((0 as nat) * pow10(digits@.len() as nat) == 0) by (nonlinear_arith);
        }
        if digits.len() == 0 {
            let ghost old_digits = digits@;
            digits.push(0);
            proof {
                lemma_val_of_push(old_digits, 0);
            }
        }
        Dec { neg: false, digits, scale: 0 }
    }
}

} // verus!
