//! The library's laws: properties that relate parsing, byte counts and
//! rendering across function boundaries.

use crate::digits::ascii_of;
use crate::digits::all_digits;
use crate::digits::digits_val;
use crate::digits::is_ascii_digit;
use crate::digits::lemma_repr_norm;
use crate::digits::pow10;
use crate::digits::repr_norm;
use crate::digits::values_of;
use crate::size::dot_pos;
use crate::size::frac_text;
use crate::size::has_sign;
use crate::size::int_text;
use crate::size::is_number;
use crate::size::lemma_dot_pos_char;
use crate::size::lemma_dot_pos_le;
use crate::size::lemma_dot_pos_lower;
use crate::size::lemma_norm_int_wf;
use crate::size::lemma_split_of_concat;
use crate::size::lemma_strip_trailing_value;
use crate::size::model_abs_bytes;
use crate::size::model_bytes;
use crate::size::model_wf;
use crate::size::norm_int;
use crate::size::num_body;
use crate::size::number_model;
use crate::size::parse_spec;
use crate::size::render_spec;
use crate::size::split_of;
use crate::size::strip_trailing_zeros;
use crate::size::SizeModel;
use crate::error::SizeErrorKind;
use crate::unit::lemma_canonical_symbol;
use crate::unit::lemma_symbol_no_digits;
use crate::unit::multiplier;
use crate::unit::symbol_bytes;
use crate::unit::unit_of_symbol;
use crate::unit::Unit;
use vstd::prelude::*;

verus! {

/// For every whole number `n` and every recognized unit symbol, parsing the
/// decimal digits of `n` followed by that symbol succeeds and yields exactly
/// `n` times the unit's multiplier bytes (saturated at `u64::MAX`).
pub proof fn lemma_parse_integer_magnitude(n: nat, sym: Seq<u8>, u: Unit)
    requires
        unit_of_symbol(sym) == Some(u),
    ensures
        parse_spec(ascii_of(repr_norm(n)) + sym) == Ok::<SizeModel, SizeErrorKind>(SizeModel {
            neg: false,
            int_digits: repr_norm(n),
            frac_digits: Seq::<u8>::empty(),
            unit: u,
        }),
        model_bytes(parse_spec(ascii_of(repr_norm(n)) + sym)->Ok_0) == if n * multiplier(u)
            > 0xffff_ffff_ffff_ffff {
            0xffff_ffff_ffff_ffff as u64
        } else {
            (n * multiplier(u)) as u64
        },
{
    lemma_repr_norm(n);
    lemma_symbol_no_digits(sym);
    let ds = repr_norm(n);
    let a = ascii_of(ds);
    let s = a + sym;
    assert(a.len() == ds.len());
    assert(forall|i: int| 0 <= i < a.len() ==> a[i] == ds[i] + 48 && is_ascii_digit(a[i]));
    // the split point lies exactly between the digits and the symbol
    lemma_split_of_concat(a, sym);
    assert(is_ascii_digit(a.last()));
    assert(split_of(a) == a.len());
    assert(s.take(a.len() as int) =~= a);
    assert(s.skip(a.len() as int) =~= sym);
    assert(s.len() > 0);
    // the prefix is a signless whole number
    assert(!has_sign(a));
    assert(num_body(a) == a);
    lemma_dot_pos_lower(a, a.len());
    lemma_dot_pos_le(a);
    assert(dot_pos(a) == a.len());
    assert(int_text(a) =~= a);
    assert(frac_text(a) =~= Seq::<u8>::empty());
    assert(is_number(a));
    // its model is the digits of n with no fraction
    let m = number_model(a, u);
    assert(values_of(a) =~= ds);
    assert(norm_int(ds) =~= ds) by {
        if ds.len() > 1 {
            assert(ds[0] != 0);
        }
    }
    assert(values_of(frac_text(num_body(a))) =~= Seq::<u8>::empty());
    assert(strip_trailing_zeros(Seq::<u8>::empty()) =~= Seq::<u8>::empty());
    assert(m =~= (SizeModel {
        neg: false,
        int_digits: ds,
        frac_digits: Seq::<u8>::empty(),
        unit: u,
    }));
    assert(parse_spec(s) == Ok::<SizeModel, SizeErrorKind>(m));
    // and its byte count is exactly n times the multiplier
    assert(digits_val(m.frac_digits) == 0);
    assert(digits_val(m.frac_digits) * multiplier(u) == 0) by (nonlinear_arith)
        requires
            digits_val(m.frac_digits) == 0,
    ;
    assert(pow10(0) == 1);
    assert(model_abs_bytes(m) == n * multiplier(u));
}

/// For every successfully parsed non-negative size, the byte count is the
/// floor of the written decimal magnitude times the unit's multiplier,
/// computed from the raw digits of the input: with `iv` the integer part,
/// `fv` the value of the `k` written fraction digits and `m` the multiplier,
/// the count is `iv * m + (fv * m) / 10^k` — normalization never changes it.
pub proof fn lemma_parse_exact_floor(s: Seq<u8>)
    requires
        parse_spec(s) is Ok,
        !parse_spec(s)->Ok_0.neg,
    ensures
        ({
            let b = num_body(s.take(split_of(s) as int));
            let iv = digits_val(values_of(int_text(b)));
            let fv = digits_val(values_of(frac_text(b)));
            let k = frac_text(b).len();
            let m = multiplier(parse_spec(s)->Ok_0.unit);
            model_abs_bytes(parse_spec(s)->Ok_0) == iv * m + (fv * m) / pow10(k)
        }),
{
    let p = s.take(split_of(s) as int);
    let b = num_body(p);
    let u = parse_spec(s)->Ok_0.unit;
    let m = multiplier(u);
    let ivs = values_of(int_text(b));
    let fvs = values_of(frac_text(b));
    assert(all_digits(ivs)) by {
        assert(forall|i: int|
            0 <= i < ivs.len() ==> is_ascii_digit(int_text(b)[i]) && ivs[i] == (int_text(b)[i]
                - 48) as u8);
    }
    assert(all_digits(fvs)) by {
        assert(forall|i: int|
            0 <= i < fvs.len() ==> is_ascii_digit(frac_text(b)[i]) && fvs[i] == (frac_text(b)[i]
                - 48) as u8);
    }
    lemma_norm_int_wf(ivs);
    assert(m >= 1);
    lemma_strip_trailing_value(fvs, m);
}

/// Round trip: rendering any well-formed size and parsing the text back
/// yields the very same size — so in particular the same byte count.
pub proof fn lemma_render_parse_round_trip(m: SizeModel)
    requires
        model_wf(m),
    ensures
        parse_spec(render_spec(m)) == Ok::<SizeModel, SizeErrorKind>(m),
        model_bytes(parse_spec(render_spec(m))->Ok_0) == model_bytes(m),
{
    lemma_canonical_symbol(m.unit);
    let sgn: Seq<u8> = if m.neg {
        seq![45u8]
    } else {
        Seq::empty()
    };
    let ai = ascii_of(m.int_digits);
    let df: Seq<u8> = if m.frac_digits.len() > 0 {
        seq![46u8] + ascii_of(m.frac_digits)
    } else {
        Seq::empty()
    };
    let sy = symbol_bytes(m.unit);
    let a = sgn + ai + df;
    let s = render_spec(m);
    assert(s =~= a + sy);
    assert(forall|i: int|
        0 <= i < ai.len() ==> ai[i] == m.int_digits[i] + 48 && is_ascii_digit(ai[i]));
    assert(forall|i: int|
        0 <= i < m.frac_digits.len() ==> ascii_of(m.frac_digits)[i] == m.frac_digits[i] + 48
            && is_ascii_digit(ascii_of(m.frac_digits)[i]));
    // the rendered magnitude ends in a digit, so the split point is after it
    assert(is_ascii_digit(a.last())) by {
        if m.frac_digits.len() > 0 {
            assert(a.last() == ascii_of(m.frac_digits).last());
        } else {
            assert(a.last() == ai.last());
        }
    }
    lemma_split_of_concat(a, sy);
    assert(split_of(a) == a.len());
    assert(s.take(a.len() as int) =~= a);
    assert(s.skip(a.len() as int) =~= sy);
    assert(s.len() > 0);
    // the sign-stripped body splits at the decimal point we printed
    let b = num_body(a);
    assert(has_sign(a) == m.neg) by {
        if m.neg {
            assert(a[0] == 45);
        } else {
            assert(a[0] == ai[0]);
        }
    }
    assert(b =~= ai + df);
    if m.frac_digits.len() > 0 {
        lemma_dot_pos_char(b, ai.len());
        assert(int_text(b) =~= ai);
        assert(dot_pos(b) < b.len());
        assert(frac_text(b) =~= ascii_of(m.frac_digits));
    } else {
        assert(b =~= ai);
        lemma_dot_pos_lower(b, b.len());
        lemma_dot_pos_le(b);
        assert(int_text(b) =~= ai);
        assert(frac_text(b) =~= Seq::<u8>::empty());
    }
    assert(is_number(a));
    // normalization leaves the stored digits untouched
    let md = number_model(a, m.unit);
    assert(values_of(int_text(b)) =~= m.int_digits);
    assert(values_of(frac_text(b)) =~= m.frac_digits);
    assert(norm_int(m.int_digits) =~= m.int_digits) by {
        if m.int_digits.len() > 1 {
            assert(m.int_digits[0] != 0);
        }
    }
    assert(strip_trailing_zeros(m.frac_digits) =~= m.frac_digits) by {
        if m.frac_digits.len() > 0 {
            assert(m.frac_digits.last() != 0);
        }
    }
    assert(md.neg == m.neg) by {
        if m.neg {
            assert(a[0] == 45);
        }
    }
    assert(md =~= m);
    assert(parse_spec(s) == Ok::<SizeModel, SizeErrorKind>(m));
}

} // verus!
