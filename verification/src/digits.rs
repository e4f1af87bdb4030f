//! Exact arithmetic on sequences of decimal digits.
//!
//! A magnitude such as `15.2` is kept as its integer digits and its
//! fractional digits, each a sequence of values below ten.  The byte count of
//! a size is then `int_value * m + (frac_value * m) / 10^k` where `m` is the
//! unit's multiplier and `k` the number of fractional digits — all of it
//! integer arithmetic, so it can be both specified and computed exactly.

use vstd::arithmetic::div_mod::lemma_fundamental_div_mod;
use vstd::arithmetic::div_mod::lemma_fundamental_div_mod_converse;
use vstd::prelude::*;

verus! {

/// Is `b` the ASCII code of a decimal digit?
pub open spec fn is_ascii_digit(b: u8) -> bool {
    48 <= b && b <= 57
}

/// Are all elements digit values, i.e. below ten?
pub open spec fn all_digits(ds: Seq<u8>) -> bool {
    forall|i: int| 0 <= i < ds.len() ==> ds[i] < 10
}

/// The number a big-endian sequence of digit values denotes.
pub open spec fn digits_val(ds: Seq<u8>) -> nat
    decreases ds.len(),
{
    if ds.len() == 0 {
        0
    } else {
        (digits_val(ds.drop_last()) * 10 + ds.last()) as nat
    }
}

/// Ten to the `n`-th power.
pub open spec fn pow10(n: nat) -> nat
    decreases n,
{
    if n == 0 {
        1
    } else {
        10 * pow10((n - 1) as nat)
    }
}

/// Digit values turned into ASCII codes.
pub open spec fn ascii_of(ds: Seq<u8>) -> Seq<u8> {
    ds.map_values(|d: u8| (d + 48) as u8)
}

/// ASCII digit codes turned into digit values.
pub open spec fn values_of(bs: Seq<u8>) -> Seq<u8> {
    bs.map_values(|b: u8| (b - 48) as u8)
}

/// The decimal digits of `n`, most significant first; empty for zero.
pub open spec fn dec_repr(n: nat) -> Seq<u8>
    decreases n,
{
    if n == 0 {
        Seq::empty()
    } else {
        dec_repr(n / 10).push((n % 10) as u8)
    }
}

/// The decimal digits of `n`, with zero written as a single digit.
pub open spec fn repr_norm(n: nat) -> Seq<u8> {
    if n == 0 {
        seq![0u8]
    } else {
        dec_repr(n)
    }
}

/// The first `l` digits of `fr`, padded on the right with zeros when `fr` is
/// shorter: the fraction cut (or extended) to exactly `l` places.
pub open spec fn frac_window(fr: Seq<u8>, l: nat) -> Seq<u8> {
    Seq::new(l, |i: int| if i < fr.len() { fr[i] } else { 0u8 })
}

/// A single digit denotes itself.
pub proof fn lemma_digits_val_single(d: u8)
    ensures
        digits_val(seq![d]) == d,
{
    let s = seq![d];
    assert(s.len() == 1);
    assert(s.drop_last() =~= Seq::<u8>::empty());
    assert(digits_val(Seq::<u8>::empty()) == 0);
    assert(s.last() == d);
    assert(digits_val(s) == (digits_val(s.drop_last()) * 10 + s.last()) as nat);
}

pub proof fn lemma_pow10_pos(n: nat)
    ensures
        pow10(n) >= 1,
    decreases n,
{
    if n > 0 {
        lemma_pow10_pos((n - 1) as nat);
    }
}

pub proof fn lemma_pow10_adds(a: nat, b: nat)
    ensures
        pow10(a + b) == pow10(a) * pow10(b),
    decreases a,
{
    if a == 0 {
        assert(pow10(b) == 1 * pow10(b));
    } else {
        lemma_pow10_adds((a - 1) as nat, b);
        assert(pow10((a + b - 1) as nat) == pow10((a - 1) as nat) * pow10(b));
        assert(10 * (pow10((a - 1) as nat) * pow10(b)) == (10 * pow10((a - 1) as nat)) * pow10(b))
            by (nonlinear_arith);
    }
}

/// The concrete powers of ten the unit table needs.
pub proof fn lemma_pow10_values()
    ensures
        pow10(0) == 1,
        pow10(3) == 1000,
        pow10(6) == 1000000,
        pow10(9) == 1000000000,
        pow10(10) == 10000000000,
        pow10(12) == 1000000000000,
        pow10(20) == 100000000000000000000,
        pow10(30) == 1000000000000000000000000000000,
        pow10(40) == 10000000000000000000000000000000000000000,
{
    reveal_with_fuel(pow10, 13);
    assert(pow10(12) == 1000000000000);
    assert(pow10(10) == 10000000000);
    lemma_pow10_adds(10, 10);
    lemma_pow10_adds(20, 10);
    lemma_pow10_adds(30, 10);
}

pub proof fn lemma_pow10_mono(a: nat, b: nat)
    requires
        a <= b,
    ensures
        pow10(a) <= pow10(b),
{
    lemma_pow10_adds(a, (b - a) as nat);
    lemma_pow10_pos((b - a) as nat);
    assert(pow10(a) * 1 <= pow10(a) * pow10((b - a) as nat)) by (nonlinear_arith)
        requires pow10((b - a) as nat) >= 1, pow10(a) >= 0;
    assert(pow10(b) == pow10(a) * pow10((b - a) as nat));
}

/// Appending one digit multiplies the value by ten and adds the digit.
pub proof fn lemma_digits_val_push(ds: Seq<u8>, d: u8)
    ensures
        digits_val(ds.push(d)) == digits_val(ds) * 10 + d,
{
    assert(ds.push(d).drop_last() =~= ds);
    assert(ds.push(d).last() == d);
}

/// The value of a concatenation: the left part shifted, plus the right part.
pub proof fn lemma_digits_val_concat(a: Seq<u8>, b: Seq<u8>)
    ensures
        digits_val(a + b) == digits_val(a) * pow10(b.len()) + digits_val(b),
    decreases b.len(),
{
    if b.len() == 0 {
        assert(a + b =~= a);
        assert(digits_val(a) * 1 == digits_val(a));
    } else {
        lemma_digits_val_concat(a, b.drop_last());
        assert((a + b).drop_last() =~= a + b.drop_last());
        assert((a + b).last() == b.last());
        let va = digits_val(a);
        let vb = digits_val(b.drop_last());
        let p = pow10((b.len() - 1) as nat);
        assert(digits_val(a + b) == (va * p + vb) * 10 + b.last());
        assert(digits_val(b) == vb * 10 + b.last());
        assert((va * p + vb) * 10 == va * (10 * p) + vb * 10) by (nonlinear_arith);
        assert(pow10(b.len()) == 10 * p);
    }
}

/// A sequence of digit values stays below ten to its length.
pub proof fn lemma_digits_val_bound(ds: Seq<u8>)
    requires
        all_digits(ds),
    ensures
        digits_val(ds) < pow10(ds.len()),
    decreases ds.len(),
{
    if ds.len() == 0 {
    } else {
        assert(all_digits(ds.drop_last()));
        lemma_digits_val_bound(ds.drop_last());
        let v = digits_val(ds.drop_last());
        let p = pow10((ds.len() - 1) as nat);
        assert(ds.last() < 10);
        assert(v <= p - 1);
        assert(v * 10 + ds.last() < p * 10) by (nonlinear_arith)
            requires v <= p - 1, ds.last() < 10, p >= 1;
        lemma_pow10_pos((ds.len() - 1) as nat);
        assert(pow10(ds.len()) == 10 * p);
    }
}

/// A run of zero digits denotes zero.
pub proof fn lemma_digits_val_zeros(ds: Seq<u8>)
    requires
        forall|i: int| 0 <= i < ds.len() ==> ds[i] == 0,
    ensures
        digits_val(ds) == 0,
    decreases ds.len(),
{
    if ds.len() > 0 {
        lemma_digits_val_zeros(ds.drop_last());
    }
}

/// Cancelling a common factor in numerator and denominator of a floor
/// division: `(a * c) / (b * c) == a / b`.
pub proof fn lemma_div_cancel_factor(a: nat, b: nat, c: nat)
    requires
        b >= 1,
        c >= 1,
    ensures
        (a * c) / (b * c) == a / b,
{
    let q = a / b;
    let r = a % b;
    lemma_fundamental_div_mod(a as int, b as int);
    assert(a == q * b + r && r < b);
    assert(a * c == q * (b * c) + r * c) by (nonlinear_arith)
        requires a == q * b + r;
    assert(r * c < b * c) by (nonlinear_arith)
        requires r < b, c >= 1;
    assert(r * c >= 0) by (nonlinear_arith)
        requires r >= 0, c >= 0;
    assert(b * c >= 1) by (nonlinear_arith)
        requires b >= 1, c >= 1;
    lemma_fundamental_div_mod_converse((a * c) as int, (b * c) as int, q as int, (r * c) as int);
}

/// The heart of the byte-count computation.  When `d * m == 10^l`, the exact
/// quotient `(v * m) / 10^n` over the full fraction `fr` (value `v`, length
/// `n`) equals the simple quotient `digits_val(frac_window(fr, l)) / d`: the
/// digits past the `l`-th place can never carry the floor over an integer
/// boundary, because every multiple of `m` below `10^l` stays at least `m`
/// away from `10^l`.
pub proof fn lemma_frac_quotient(fr: Seq<u8>, l: nat, m: nat, d: nat)
    requires
        all_digits(fr),
        m >= 1,
        d >= 1,
        d * m == pow10(l),
    ensures
        digits_val(frac_window(fr, l)) / d == (digits_val(fr) * m) / pow10(fr.len()),
{
    let n = fr.len();
    let v = digits_val(fr);
    let w = frac_window(fr, l);
    if l >= n {
        let k = (l - n) as nat;
        assert(w =~= fr + Seq::new(k, |i: int| 0u8));
        lemma_digits_val_concat(fr, Seq::new(k, |i: int| 0u8));
        lemma_digits_val_zeros(Seq::new(k, |i: int| 0u8));
        assert(digits_val(w) == v * pow10(k));
        lemma_pow10_adds(n, k);
        lemma_pow10_pos(n);
        lemma_pow10_pos(k);
        // (v * m) / 10^n == (v * m * 10^k) / (10^n * 10^k) == (v * 10^k) / d
        lemma_div_cancel_factor(v * m, pow10(n), pow10(k));
        assert((v * m) * pow10(k) == (v * pow10(k)) * m) by (nonlinear_arith);
        assert(pow10(n) * pow10(k) == d * m);
        lemma_div_cancel_factor(v * pow10(k), d, m);
        assert((v * pow10(k)) / d == ((v * pow10(k)) * m) / (d * m));
        assert((v * m) / pow10(n) == ((v * m) * pow10(k)) / (pow10(n) * pow10(k)));
    } else {
        let k = (n - l) as nat;
        assert(w =~= fr.take(l as int));
        let tail = fr.skip(l as int);
        let a = digits_val(w);
        let t = digits_val(tail);
        assert(fr =~= w + tail);
        lemma_digits_val_concat(w, tail);
        assert(tail.len() == k);
        assert(v == a * pow10(k) + t);
        assert(all_digits(tail)) by {
            assert(forall|i: int| 0 <= i < tail.len() ==> tail[i] == fr[i + l]);
        }
        lemma_digits_val_bound(tail);
        assert(t < pow10(k));
        let q = a / d;
        let r0 = a % d;
        lemma_fundamental_div_mod(a as int, d as int);
        assert(a == q * d + r0 && r0 < d);
        lemma_pow10_adds(l, k);
        lemma_pow10_pos(l);
        lemma_pow10_pos(k);
        // v * m == q * 10^n + rem, with rem < 10^n
        let rem = r0 * m * pow10(k) + t * m;
        assert(v * m == q * pow10(n) + rem) by (nonlinear_arith)
            requires
                v == a * pow10(k) + t,
                a == q * d + r0,
                d * m == pow10(l),
                pow10(n) == pow10(l) * pow10(k),
                rem == r0 * m * pow10(k) + t * m,
        ;
        assert(rem < pow10(n)) by (nonlinear_arith)
            requires
                rem == r0 * m * pow10(k) + t * m,
                r0 < d,
                r0 >= 0,
                t < pow10(k),
                t >= 0,
                m >= 1,
                d >= 1,
                pow10(k) >= 1,
                d * m == pow10(l),
                pow10(n) == pow10(l) * pow10(k),
        ;
        assert(rem >= 0) by (nonlinear_arith)
            requires rem == r0 * m * pow10(k) + t * m, r0 >= 0, t >= 0, m >= 1, pow10(k) >= 1;
        lemma_fundamental_div_mod_converse(
            (v * m) as int,
            pow10(n) as int,
            q as int,
            rem as int,
        );
    }
}

/// The digits of `n`, as `dec_repr` lays them out: value `n`, all below ten,
/// and no leading zero.
pub proof fn lemma_dec_repr(n: nat)
    ensures
        digits_val(dec_repr(n)) == n,
        all_digits(dec_repr(n)),
        n > 0 ==> dec_repr(n).len() >= 1 && dec_repr(n)[0] != 0,
    decreases n,
{
    if n > 0 {
        lemma_dec_repr(n / 10);
        lemma_digits_val_push(dec_repr(n / 10), (n % 10) as u8);
        lemma_fundamental_div_mod(n as int, 10);
        if n / 10 == 0 {
            assert(dec_repr(n) =~= seq![(n % 10) as u8]);
            assert(n % 10 != 0);
        } else {
            assert(dec_repr(n)[0] == dec_repr(n / 10)[0]);
        }
    }
}

/// The digits of `n` in normalized form: value `n`, all below ten, nonempty,
/// and no leading zero unless the whole number is the single digit zero.
pub proof fn lemma_repr_norm(n: nat)
    ensures
        digits_val(repr_norm(n)) == n,
        all_digits(repr_norm(n)),
        repr_norm(n).len() >= 1,
        repr_norm(n).len() > 1 ==> repr_norm(n)[0] != 0,
{
    lemma_dec_repr(n);
    if n == 0 {
        assert(seq![0u8].drop_last() =~= Seq::<u8>::empty());
        assert(digits_val(seq![0u8]) == 0);
    }
}

/// Computes the value of the first `l` fraction digits divided by `d`, by
/// long division, digit by digit.  With `d * m == 10^l` this is exactly
/// `floor(0.fr * m)`, the fraction's contribution to the byte count.
pub fn frac_quotient(fr: &[u8], l: usize, d: u128, Ghost(m): Ghost<nat>) -> (q: u64)
    requires
        all_digits(fr@),
        l <= 40,
        1 <= d,
        d <= 10000000000000000000000000000,
        (d as nat) * m == pow10(l as nat),
        m <= 1099511627776,
    ensures
        q as nat == (digits_val(fr@) * m) / pow10(fr@.len()),
{
    proof {
        lemma_pow10_pos(l as nat);
        assert(m >= 1) by (nonlinear_arith)
            requires (d as nat) * m == pow10(l as nat), pow10(l as nat) >= 1, d >= 1;
    }
    let ghost w = frac_window(fr@, l as nat);
    proof {
        assert(all_digits(w));
    }
    let mut q: u64 = 0;
    let mut r: u128 = 0;
    let mut i: usize = 0;
    while i < l
        invariant
            i <= l,
            l <= 40,
            all_digits(fr@),
            1 <= d,
            d <= 10000000000000000000000000000,
            (d as nat) * m == pow10(l as nat),
            m <= 1099511627776,
            w == frac_window(fr@, l as nat),
            all_digits(w),
            (r as nat) < d as nat,
            (q as nat) * (d as nat) + (r as nat) == digits_val(w.take(i as int)),
        decreases l - i,
    {
        let dig: u8 = if i < fr.len() {
            fr[i]
        } else {
            0
        };
        proof {
            assert(w[i as int] == dig);
            assert(w.take(i + 1).drop_last() =~= w.take(i as int));
            assert(w.take(i + 1).last() == dig);
            assert(all_digits(w.take(i as int)));
            lemma_digits_val_bound(w.take(i as int));
            lemma_pow10_mono(i as nat, l as nat);
            // q < m, so the updated quotient still fits easily in u64
            assert((q as nat) < m) by (nonlinear_arith)
                requires
                    (q as nat) * (d as nat) + (r as nat) == digits_val(w.take(i as int)),
                    digits_val(w.take(i as int)) < pow10(i as nat),
                    pow10(i as nat) <= pow10(l as nat),
                    (d as nat) * m == pow10(l as nat),
                    1 <= d as nat,
                    (r as nat) >= 0,
            ;
        }
        let rn: u128 = r * 10 + dig as u128;
        let qd: u128 = rn / d;
        proof {
            assert(rn < 10 * d);
            assert((rn as nat) / (d as nat) <= 9) by (nonlinear_arith)
                requires (rn as nat) < 10 * (d as nat), 1 <= d as nat;
        }
        let q2: u64 = q * 10 + qd as u64;
        let r2: u128 = rn % d;
        proof {
            assert((rn as nat) == (qd as nat) * (d as nat) + (r2 as nat)) by {
                lemma_fundamental_div_mod(rn as int, d as int);
            }
            let vi = digits_val(w.take(i as int));
            assert(digits_val(w.take(i + 1)) == vi * 10 + dig);
            assert((q2 as nat) * (d as nat) + (r2 as nat) == vi * 10 + dig) by (nonlinear_arith)
                requires
                    (q as nat) * (d as nat) + (r as nat) == vi,
                    (rn as nat) == (r as nat) * 10 + dig,
                    (rn as nat) == (qd as nat) * (d as nat) + (r2 as nat),
                    (q2 as nat) == (q as nat) * 10 + (qd as nat),
            ;
        }
        q = q2;
        r = r2;
        i += 1;
    }
    proof {
        assert(w.take(l as int) =~= w);
        lemma_fundamental_div_mod_converse(
            digits_val(w) as int,
            d as int,
            q as int,
            r as int,
        );
        lemma_frac_quotient(fr@, l as nat, m, d as nat);
    }
    q
}

/// Reads the integer digits into a number, capping at 2^64: the cap marks a
/// value too large for any byte count, which saturates anyway.
pub fn int_value_capped(ds: &[u8]) -> (r: u128)
    requires
        all_digits(ds@),
    ensures
        r <= 18446744073709551616,
        (r as nat) < 18446744073709551616 ==> r as nat == digits_val(ds@),
        (r as nat) == 18446744073709551616 ==> digits_val(ds@) >= 18446744073709551616,
{
    let mut r: u128 = 0;
    let mut i: usize = 0;
    while i < ds.len()
        invariant
            i <= ds@.len(),
            all_digits(ds@),
            r <= 18446744073709551616,
            (r as nat) < 18446744073709551616 ==> r as nat == digits_val(ds@.take(i as int)),
            (r as nat) == 18446744073709551616 ==> digits_val(ds@.take(i as int))
                >= 18446744073709551616,
        decreases ds@.len() - i,
    {
        let dig = ds[i];
        proof {
            assert(ds@.take(i + 1).drop_last() =~= ds@.take(i as int));
            assert(ds@.take(i + 1).last() == dig);
            let vi = digits_val(ds@.take(i as int));
            assert(digits_val(ds@.take(i + 1)) == vi * 10 + dig);
            assert(vi >= 18446744073709551616 ==> vi * 10 + dig >= 18446744073709551616)
                by (nonlinear_arith);
        }
        if r < 18446744073709551616 {
            r = r * 10 + dig as u128;
            if r > 18446744073709551616 {
                r = 18446744073709551616;
            }
        }
        i += 1;
    }
    proof {
        assert(ds@.take(ds@.len() as int) =~= ds@);
    }
    r
}

/// Appends the decimal digits of `n` (most significant first) to `out`;
/// appends nothing when `n` is zero.
pub fn push_dec_digits(n: u64, out: &mut Vec<u8>)
    ensures
        final(out)@ == old(out)@ + dec_repr(n as nat),
    decreases n,
{
    if n == 0 {
        proof {
            assert(old(out)@ + dec_repr(0) =~= old(out)@);
        }
        return ;
    }
    push_dec_digits(n / 10, out);
    out.push((n % 10) as u8);
    proof {
        assert(old(out)@ + dec_repr(n as nat) =~= (old(out)@ + dec_repr((n / 10) as nat)).push(
            (n % 10) as u8,
        ));
    }
}

} // verus!
