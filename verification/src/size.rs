//! Sizes: parsing, byte counts, comparison and rendering.

use crate::digits::all_digits;
use crate::digits::ascii_of;
use crate::digits::digits_val;
use crate::digits::frac_quotient;
use crate::digits::int_value_capped;
use crate::digits::is_ascii_digit;
use crate::digits::lemma_digits_val_concat;
use crate::digits::lemma_digits_val_single;
use crate::digits::lemma_pow10_pos;
use crate::digits::lemma_pow10_values;
use crate::digits::lemma_repr_norm;
use crate::digits::pow10;
use crate::digits::push_dec_digits;
use crate::digits::repr_norm;
use crate::digits::values_of;
use crate::error::ParseSizeError;
use crate::error::SizeErrorKind;
use crate::unit::multiplier;
use crate::unit::symbol_bytes;
use crate::unit::unit_of_symbol;
use crate::unit::Unit;
use vstd::prelude::*;
use vstd::slice::slice_subrange;
use vstd::string::StringSliceAdditionalSpecFns;

verus! {

/// The mathematical content of a size: a sign, the integer digits and the
/// fractional digits of its magnitude (each a sequence of values below ten,
/// in normalized form), and its unit.
#[verifier::ext_equal]
pub ghost struct SizeModel {
    pub neg: bool,
    pub int_digits: Seq<u8>,
    pub frac_digits: Seq<u8>,
    pub unit: Unit,
}

/// Normalized digits: the integer part is nonempty with no leading zero
/// (except a lone zero), the fractional part has no trailing zero.
pub open spec fn model_wf(m: SizeModel) -> bool {
    &&& m.int_digits.len() >= 1
    &&& all_digits(m.int_digits)
    &&& all_digits(m.frac_digits)
    &&& (m.int_digits.len() > 1 ==> m.int_digits[0] != 0)
    &&& (m.frac_digits.len() > 0 ==> m.frac_digits.last() != 0)
}

/// The exact byte count of a non-negative magnitude: the integer part times
/// the multiplier, plus the floor of the fraction times the multiplier.
pub open spec fn model_abs_bytes(m: SizeModel) -> nat {
    digits_val(m.int_digits) * multiplier(m.unit) + (digits_val(m.frac_digits) * multiplier(
        m.unit,
    )) / pow10(m.frac_digits.len())
}

/// The byte count of a size, truncated toward zero and saturated at
/// `u64::MAX`: negative magnitudes truncate to zero.
pub open spec fn model_bytes(m: SizeModel) -> u64 {
    if m.neg {
        0
    } else if model_abs_bytes(m) > 0xffff_ffff_ffff_ffff {
        0xffff_ffff_ffff_ffff as u64
    } else {
        model_abs_bytes(m) as u64
    }
}

/// Where the numeric prefix of `s` ends: the unit suffix is the longest
/// trailing run free of ASCII digits, so the split point lies just after the
/// last digit (at zero when there is none).
pub open spec fn split_of(s: Seq<u8>) -> nat
    decreases s.len(),
{
    if s.len() == 0 {
        0
    } else if is_ascii_digit(s.last()) {
        s.len()
    } else {
        split_of(s.drop_last())
    }
}

/// Does the numeric prefix open with a sign?
pub open spec fn has_sign(p: Seq<u8>) -> bool {
    p.len() > 0 && (p[0] == 43 || p[0] == 45)
}

/// The numeric prefix with its sign removed.
pub open spec fn num_body(p: Seq<u8>) -> Seq<u8> {
    if has_sign(p) {
        p.skip(1)
    } else {
        p
    }
}

/// The position of the first decimal point, or the length when there is
/// none.
pub open spec fn dot_pos(b: Seq<u8>) -> nat
    decreases b.len(),
{
    if b.len() == 0 {
        0
    } else if b[0] == 46 {
        0
    } else {
        1 + dot_pos(b.drop_first())
    }
}

/// The ASCII text of the integer part.
pub open spec fn int_text(b: Seq<u8>) -> Seq<u8> {
    b.take(dot_pos(b) as int)
}

/// The ASCII text of the fractional part (what follows the decimal point).
pub open spec fn frac_text(b: Seq<u8>) -> Seq<u8> {
    if dot_pos(b) == b.len() {
        Seq::empty()
    } else {
        b.skip(dot_pos(b) + 1 as int)
    }
}

pub open spec fn all_ascii_digits(s: Seq<u8>) -> bool {
    forall|i: int| 0 <= i < s.len() ==> is_ascii_digit(s[i])
}

/// Is the prefix a plain decimal number: an optional sign, then digits with
/// at most one decimal point and at least one digit?
pub open spec fn is_number(p: Seq<u8>) -> bool {
    let b = num_body(p);
    &&& all_ascii_digits(int_text(b))
    &&& all_ascii_digits(frac_text(b))
    &&& int_text(b).len() + frac_text(b).len() >= 1
}

/// Leading zeros stripped from a digit-value sequence, a lone zero kept.
pub open spec fn norm_int(ds: Seq<u8>) -> Seq<u8>
    decreases ds.len(),
{
    if ds.len() == 0 {
        seq![0u8]
    } else if ds.len() == 1 {
        ds
    } else if ds[0] == 0 {
        norm_int(ds.drop_first())
    } else {
        ds
    }
}

/// Trailing zeros stripped from a digit-value sequence.
pub open spec fn strip_trailing_zeros(ds: Seq<u8>) -> Seq<u8>
    decreases ds.len(),
{
    if ds.len() == 0 {
        ds
    } else if ds.last() == 0 {
        strip_trailing_zeros(ds.drop_last())
    } else {
        ds
    }
}

/// The model a well-formed numeric prefix and a resolved unit denote.
pub open spec fn number_model(p: Seq<u8>, u: Unit) -> SizeModel {
    SizeModel {
        neg: has_sign(p) && p[0] == 45,
        int_digits: norm_int(values_of(int_text(num_body(p)))),
        frac_digits: strip_trailing_zeros(values_of(frac_text(num_body(p)))),
        unit: u,
    }
}

/// What parsing a size string yields: the model of the size, or the exact
/// failure.  An empty input is `Empty`; a prefix that is not a decimal
/// number, or a suffix that matches no unit symbol, is `InvalidUnit`.
pub open spec fn parse_spec(s: Seq<u8>) -> Result<SizeModel, SizeErrorKind> {
    if s.len() == 0 {
        Err(SizeErrorKind::Empty)
    } else {
        let p = s.take(split_of(s) as int);
        let suf = s.skip(split_of(s) as int);
        if !is_number(p) {
            Err(SizeErrorKind::InvalidUnit)
        } else {
            match unit_of_symbol(suf) {
                Some(u) => Ok(number_model(p, u)),
                None => Err(SizeErrorKind::InvalidUnit),
            }
        }
    }
}

/// The byte count a raw byte string parses to, or the failure.
pub open spec fn bytes_size_spec(s: Seq<u8>) -> Result<u64, SizeErrorKind> {
    match parse_spec(s) {
        Ok(m) => Ok(model_bytes(m)),
        Err(k) => Err(k),
    }
}

/// The canonical rendering of a model: sign, integer digits, decimal point
/// and fractional digits when present, then the unit's canonical symbol.
pub open spec fn render_spec(m: SizeModel) -> Seq<u8> {
    (if m.neg {
        seq![45u8]
    } else {
        Seq::empty()
    }) + ascii_of(m.int_digits) + (if m.frac_digits.len() > 0 {
        seq![46u8] + ascii_of(m.frac_digits)
    } else {
        Seq::empty()
    }) + symbol_bytes(m.unit)
}

/// The rendering as text.
pub open spec fn render_chars(m: SizeModel) -> Seq<char> {
    render_spec(m).map_values(|b: u8| b as char)
}

// ---------------------------------------------------------------------------
// Characterization lemmas: they tie the recursive spec functions above to the
// index arithmetic the executable scanners use.
// ---------------------------------------------------------------------------

/// A trailing digit pins the split point at the very end.
pub proof fn lemma_split_of_take(s: Seq<u8>, pos: nat)
    requires
        pos <= s.len(),
        split_of(s) == split_of(s.take(pos as int)),
        pos == 0 || is_ascii_digit(s[pos - 1]),
    ensures
        split_of(s) == pos,
{
    if pos == 0 {
        assert(s.take(0) =~= Seq::<u8>::empty());
    } else {
        assert(s.take(pos as int).last() == s[pos - 1]);
    }
}

/// Dropping a non-digit from the end leaves the split point alone.
pub proof fn lemma_split_of_step(s: Seq<u8>, pos: nat)
    requires
        1 <= pos <= s.len(),
        !is_ascii_digit(s[pos - 1]),
    ensures
        split_of(s.take(pos as int)) == split_of(s.take(pos - 1)),
{
    assert(s.take(pos as int).last() == s[pos - 1]);
    assert(s.take(pos as int).drop_last() =~= s.take(pos - 1));
}

/// Appending digit-free bytes does not move the split point.
pub proof fn lemma_split_of_concat(a: Seq<u8>, b: Seq<u8>)
    requires
        forall|i: int| 0 <= i < b.len() ==> !is_ascii_digit(b[i]),
    ensures
        split_of(a + b) == split_of(a),
    decreases b.len(),
{
    if b.len() == 0 {
        assert(a + b =~= a);
    } else {
        assert((a + b).drop_last() =~= a + b.drop_last());
        assert((a + b).last() == b.last());
        lemma_split_of_concat(a, b.drop_last());
    }
}

/// The first decimal point is where the digit scan stopped.
pub proof fn lemma_dot_pos_char(b: Seq<u8>, j: nat)
    requires
        j <= b.len(),
        forall|i: int| 0 <= i < j ==> b[i] != 46,
        j == b.len() || b[j as int] == 46,
    ensures
        dot_pos(b) == j,
    decreases b.len(),
{
    if b.len() == 0 {
    } else if b[0] == 46 {
        assert(j == 0);
    } else {
        assert(j >= 1);
        lemma_dot_pos_char(b.drop_first(), (j - 1) as nat);
    }
}

/// The decimal point cannot lie before a run of other bytes.
pub proof fn lemma_dot_pos_lower(b: Seq<u8>, k: nat)
    requires
        k <= b.len(),
        forall|i: int| 0 <= i < k ==> b[i] != 46,
    ensures
        dot_pos(b) >= k,
    decreases b.len(),
{
    if b.len() == 0 || k == 0 {
    } else {
        assert(b[0] != 46);
        lemma_dot_pos_lower(b.drop_first(), (k - 1) as nat);
    }
}

/// The decimal point position never passes the end.
pub proof fn lemma_dot_pos_le(b: Seq<u8>)
    ensures
        dot_pos(b) <= b.len(),
    decreases b.len(),
{
    if b.len() > 0 && b[0] != 46 {
        lemma_dot_pos_le(b.drop_first());
    }
}

/// What stripping leading zeros leaves: the suffix from the first nonzero
/// digit, or a lone zero when there is none.
pub proof fn lemma_norm_int_char(ds: Seq<u8>, k: nat)
    requires
        k <= ds.len(),
        forall|i: int| 0 <= i < k ==> ds[i] == 0,
        k == ds.len() || ds[k as int] != 0,
    ensures
        k == ds.len() ==> norm_int(ds) =~= seq![0u8],
        k < ds.len() ==> norm_int(ds) =~= ds.skip(k as int),
    decreases ds.len(),
{
    if ds.len() == 0 {
    } else if ds.len() == 1 {
        if k == 1 {
            assert(ds[0] == 0);
            assert(norm_int(ds) =~= seq![0u8]);
        } else {
            assert(ds.skip(0) =~= ds);
        }
    } else if ds[0] == 0 {
        assert(k >= 1);
        lemma_norm_int_char(ds.drop_first(), (k - 1) as nat);
        if k < ds.len() {
            assert(ds.drop_first().skip(k - 1) =~= ds.skip(k as int));
        }
    } else {
        assert(k == 0);
        assert(ds.skip(0) =~= ds);
    }
}

/// What stripping trailing zeros leaves: the prefix up to the last nonzero
/// digit.
pub proof fn lemma_strip_trailing_char(ds: Seq<u8>, k: nat)
    requires
        k <= ds.len(),
        forall|i: int| k <= i < ds.len() ==> ds[i] == 0,
        k == 0 || ds[k - 1] != 0,
    ensures
        strip_trailing_zeros(ds) =~= ds.take(k as int),
    decreases ds.len(),
{
    if ds.len() == 0 {
        assert(ds.take(0) =~= ds);
    } else if k == ds.len() {
        assert(ds.last() != 0);
        assert(ds.take(k as int) =~= ds);
    } else {
        assert(ds.last() == 0);
        lemma_strip_trailing_char(ds.drop_last(), k);
        assert(ds.drop_last().take(k as int) =~= ds.take(k as int));
    }
}

/// Stripping trailing zeros from a fraction does not change its
/// contribution to the byte count: the floor of the fraction's value times
/// the multiplier stays the same.
pub proof fn lemma_strip_trailing_value(ds: Seq<u8>, m: nat)
    requires
        all_digits(ds),
        m >= 1,
    ensures
        (digits_val(strip_trailing_zeros(ds)) * m) / pow10(strip_trailing_zeros(ds).len()) == (
        digits_val(ds) * m) / pow10(ds.len()),
    decreases ds.len(),
{
    if ds.len() == 0 || ds.last() != 0 {
    } else {
        assert(all_digits(ds.drop_last()));
        lemma_strip_trailing_value(ds.drop_last(), m);
        let v = digits_val(ds.drop_last());
        assert(digits_val(ds) == v * 10);
        lemma_pow10_pos((ds.len() - 1) as nat);
        crate::digits::lemma_div_cancel_factor(v * m, pow10((ds.len() - 1) as nat), 10);
        assert((v * m) * 10 == (v * 10) * m) by (nonlinear_arith);
        assert(pow10(ds.len()) == pow10((ds.len() - 1) as nat) * 10) by {
            assert(pow10(ds.len()) == 10 * pow10((ds.len() - 1) as nat));
        }
    }
}

/// A parsed number is well formed: normalization gives digit values below
/// ten, no leading zero in the integer part, no trailing zero in the
/// fraction.
pub proof fn lemma_number_model_wf(p: Seq<u8>, u: Unit)
    requires
        is_number(p),
    ensures
        model_wf(number_model(p, u)),
{
    let b = num_body(p);
    let iv = values_of(int_text(b));
    let fv = values_of(frac_text(b));
    assert(all_digits(iv)) by {
        assert(forall|i: int|
            0 <= i < iv.len() ==> is_ascii_digit(int_text(b)[i]) && iv[i] == (int_text(b)[i]
                - 48) as u8);
    }
    assert(all_digits(fv)) by {
        assert(forall|i: int|
            0 <= i < fv.len() ==> is_ascii_digit(frac_text(b)[i]) && fv[i] == (frac_text(b)[i]
                - 48) as u8);
    }
    lemma_norm_int_wf(iv);
    lemma_strip_trailing_wf(fv);
}

/// Normalizing keeps digits below ten and leaves no leading zero.
pub proof fn lemma_norm_int_wf(ds: Seq<u8>)
    requires
        all_digits(ds),
    ensures
        all_digits(norm_int(ds)),
        norm_int(ds).len() >= 1,
        norm_int(ds).len() > 1 ==> norm_int(ds)[0] != 0,
        digits_val(norm_int(ds)) == digits_val(ds),
    decreases ds.len(),
{
    if ds.len() == 0 {
        lemma_digits_val_single(0u8);
    } else if ds.len() == 1 {
    } else if ds[0] == 0 {
        lemma_norm_int_wf(ds.drop_first());
        assert(ds =~= seq![ds[0]] + ds.drop_first());
        lemma_digits_val_concat(seq![ds[0]], ds.drop_first());
        lemma_digits_val_single(ds[0]);
        lemma_pow10_pos(ds.drop_first().len());
        assert(digits_val(seq![ds[0]]) * pow10(ds.drop_first().len()) == 0) by (nonlinear_arith)
            requires digits_val(seq![ds[0]]) == 0;
    }
}

/// Stripping trailing zeros keeps digits below ten and leaves no trailing
/// zero.
pub proof fn lemma_strip_trailing_wf(ds: Seq<u8>)
    requires
        all_digits(ds),
    ensures
        all_digits(strip_trailing_zeros(ds)),
        strip_trailing_zeros(ds).len() > 0 ==> strip_trailing_zeros(ds).last() != 0,
    decreases ds.len(),
{
    if ds.len() == 0 {
    } else if ds.last() == 0 {
        assert(all_digits(ds.drop_last()));
        lemma_strip_trailing_wf(ds.drop_last());
    }
}

/// Every successfully parsed size is well formed.
pub proof fn lemma_parse_spec_wf(s: Seq<u8>)
    requires
        parse_spec(s) is Ok,
    ensures
        model_wf(parse_spec(s)->Ok_0),
{
    let p = s.take(split_of(s) as int);
    let u = unit_of_symbol(s.skip(split_of(s) as int))->Some_0;
    lemma_number_model_wf(p, u);
}

// ---------------------------------------------------------------------------
// The executable size type.
// ---------------------------------------------------------------------------

/// A size: a sign, the decimal digits of its magnitude, and a unit.  Built by
/// parsing a size string or from a whole number of units; immutable once
/// built.
#[derive(Debug)]
pub struct AutoSize {
    neg: bool,
    int_digits: Vec<u8>,
    frac_digits: Vec<u8>,
    unit: Unit,
}

impl View for AutoSize {
    type V = SizeModel;

    closed spec fn view(&self) -> SizeModel {
        SizeModel {
            neg: self.neg,
            int_digits: self.int_digits@,
            frac_digits: self.frac_digits@,
            unit: self.unit,
        }
    }
}

impl AutoSize {
    #[verifier::type_invariant]
    spec fn wf(&self) -> bool {
        model_wf(self@)
    }

    /// Builds a whole-number size: `value` of the given `unit`.
    pub fn new(value: u64, unit: Unit) -> (r: AutoSize)
        ensures
            r@ == (SizeModel {
                neg: false,
                int_digits: repr_norm(value as nat),
                frac_digits: Seq::<u8>::empty(),
                unit: unit,
            }),
            model_bytes(r@) == if (value as nat) * multiplier(unit) > 0xffff_ffff_ffff_ffff {
                0xffff_ffff_ffff_ffff as u64
            } else {
                ((value as nat) * multiplier(unit)) as u64
            },
    {
        let mut ds: Vec<u8> = Vec::new();
        if value == 0 {
            ds.push(0);
            proof {
                assert(ds@ =~= repr_norm(0));
            }
        } else {
            push_dec_digits(value, &mut ds);
            proof {
                assert(ds@ =~= repr_norm(value as nat));
            }
        }
        let fr: Vec<u8> = Vec::new();
        proof {
            lemma_repr_norm(value as nat);
            assert(fr@ =~= Seq::<u8>::empty());
            assert(model_wf(
                SizeModel {
                    neg: false,
                    int_digits: ds@,
                    frac_digits: fr@,
                    unit: unit,
                },
            ));
        }
        let r = AutoSize { neg: false, int_digits: ds, frac_digits: fr, unit };
        proof {
            assert(r@ =~= (SizeModel {
                neg: false,
                int_digits: repr_norm(value as nat),
                frac_digits: Seq::<u8>::empty(),
                unit: unit,
            }));
            assert(digits_val(r@.frac_digits) == 0);
            assert(digits_val(r@.frac_digits) * multiplier(unit) == 0) by (nonlinear_arith)
                requires digits_val(r@.frac_digits) == 0;
            assert(r@.frac_digits.len() == 0);
            assert(pow10(0) == 1);
            assert(model_abs_bytes(r@) == (value as nat) * multiplier(unit));
        }
        r
    }

    /// Parses a size string given as raw bytes, per [`parse_spec`]: a decimal
    /// magnitude followed by a unit symbol.  The bytes need not be valid
    /// UTF-8: a byte that is no ASCII digit simply ends up in the unit
    /// suffix, which then matches no symbol.
    pub fn parse(s: &[u8]) -> (r: Result<AutoSize, ParseSizeError>)
        ensures
            parse_spec(s@) is Ok ==> r is Ok && r->Ok_0@ == parse_spec(s@)->Ok_0,
            parse_spec(s@) is Err ==> r is Err && r->Err_0.kind_spec() == parse_spec(s@)->Err_0,
    {
        if s.len() == 0 {
            return Err(ParseSizeError::new(SizeErrorKind::Empty));
        }
        let mut pos: usize = s.len();
        proof {
            assert(s@.take(pos as int) =~= s@);
        }
        while pos > 0 && !(48 <= s[pos - 1] && s[pos - 1] <= 57)
            invariant
                pos <= s@.len(),
                split_of(s@) == split_of(s@.take(pos as int)),
            decreases pos,
        {
            proof {
                lemma_split_of_step(s@, pos as nat);
            }
            pos -= 1;
        }
        proof {
            lemma_split_of_take(s@, pos as nat);
        }
        let num = slice_subrange(s, 0, pos);
        let suf = slice_subrange(s, pos, s.len());
        proof {
            assert(num@ =~= s@.take(pos as int));
            assert(suf@ =~= s@.skip(pos as int));
        }
        match parse_number(num) {
            None => Err(ParseSizeError::new(SizeErrorKind::InvalidUnit)),
            Some((neg, ints, fracs)) => match Unit::from_symbol_bytes(suf) {
                None => Err(ParseSizeError::new(SizeErrorKind::InvalidUnit)),
                Some(u) => {
                    proof {
                        lemma_number_model_wf(num@, u);
                        assert((SizeModel {
                            neg: neg,
                            int_digits: ints@,
                            frac_digits: fracs@,
                            unit: u,
                        }) =~= number_model(num@, u));
                    }
                    let r = AutoSize { neg, int_digits: ints, frac_digits: fracs, unit: u };
                    proof {
                        assert(r@ =~= number_model(num@, u));
                    }
                    Ok(r)
                },
            },
        }
    }
}

/// A value that can be read as a byte count: a size, or text or raw bytes
/// that parse as one.
pub trait Size: PartialOrd {
    /// The byte count this value stands for, or the failure deciding it.
    spec fn size_spec(&self) -> Result<u64, SizeErrorKind>;

    /// The byte count, or the exact parse failure.
    fn safe_into_size_bytes(&self) -> (r: Result<u64, ParseSizeError>)
        ensures
            r is Ok <==> self.size_spec() is Ok,
            r is Ok ==> r->Ok_0 == self.size_spec()->Ok_0,
            r is Err ==> r->Err_0.kind_spec() == self.size_spec()->Err_0,
    ;

    /// The byte count, for callers that know the conversion succeeds.
    fn into_size_bytes(&self) -> (r: u64)
        requires
            self.size_spec() is Ok,
        ensures
            r == self.size_spec()->Ok_0,
    {
        match self.safe_into_size_bytes() {
            Ok(b) => b,
            Err(_) => vstd::pervasive::unreached(),
        }
    }
}

impl Size for AutoSize {
    open spec fn size_spec(&self) -> Result<u64, SizeErrorKind> {
        Ok(model_bytes(self@))
    }

    fn safe_into_size_bytes(&self) -> (r: Result<u64, ParseSizeError>) {
        Ok(self.compute_bytes())
    }
}

/// Parses raw bytes and converts them to a byte count in one step.
pub fn size_of_bytes(s: &[u8]) -> (r: Result<u64, ParseSizeError>)
    ensures
        r is Ok <==> bytes_size_spec(s@) is Ok,
        r is Ok ==> r->Ok_0 == bytes_size_spec(s@)->Ok_0,
        r is Err ==> r->Err_0.kind_spec() == bytes_size_spec(s@)->Err_0,
{
    match AutoSize::parse(s) {
        Ok(v) => Ok(v.compute_bytes()),
        Err(e) => Err(e),
    }
}

impl Size for [u8] {
    open spec fn size_spec(&self) -> Result<u64, SizeErrorKind> {
        bytes_size_spec(self@)
    }

    fn safe_into_size_bytes(&self) -> (r: Result<u64, ParseSizeError>) {
        size_of_bytes(self)
    }
}

impl Size for str {
    open spec fn size_spec(&self) -> Result<u64, SizeErrorKind> {
        bytes_size_spec(self.spec_bytes())
    }

    fn safe_into_size_bytes(&self) -> (r: Result<u64, ParseSizeError>) {
        size_of_bytes(self.as_bytes())
    }
}

impl Size for String {
    open spec fn size_spec(&self) -> Result<u64, SizeErrorKind> {
        bytes_size_spec(vstd::utf8::encode_utf8(self@))
    }

    fn safe_into_size_bytes(&self) -> (r: Result<u64, ParseSizeError>) {
        let s: &str = self.as_str();
        s.safe_into_size_bytes()
    }
}

impl core::str::FromStr for AutoSize {
    type Err = ParseSizeError;

    fn from_str(s: &str) -> Result<AutoSize, ParseSizeError> {
        AutoSize::parse(s.as_bytes())
    }
}

impl core::str::FromStr for Unit {
    type Err = ParseSizeError;

    fn from_str(s: &str) -> Result<Unit, ParseSizeError> {
        match Unit::from_symbol_bytes(s.as_bytes()) {
            Some(u) => Ok(u),
            None => Err(ParseSizeError::new(SizeErrorKind::InvalidUnit)),
        }
    }
}

impl PartialEq for AutoSize {
    fn eq(&self, other: &AutoSize) -> (r: bool) {
        self.compute_bytes() == other.compute_bytes()
    }
}

impl vstd::std_specs::cmp::PartialEqSpecImpl for AutoSize {
    open spec fn obeys_eq_spec() -> bool {
        true
    }

    /// Two sizes are equal exactly when they resolve to the same byte count,
    /// however they are expressed.
    open spec fn eq_spec(&self, other: &AutoSize) -> bool {
        model_bytes(self@) == model_bytes(other@)
    }
}

impl PartialOrd for AutoSize {
    fn partial_cmp(&self, other: &AutoSize) -> (r: Option<core::cmp::Ordering>) {
        let a = self.compute_bytes();
        let b = other.compute_bytes();
        if a < b {
            Some(core::cmp::Ordering::Less)
        } else if a == b {
            Some(core::cmp::Ordering::Equal)
        } else {
            Some(core::cmp::Ordering::Greater)
        }
    }
}

impl vstd::std_specs::cmp::PartialOrdSpecImpl for AutoSize {
    open spec fn obeys_partial_cmp_spec() -> bool {
        true
    }

    /// Sizes are ordered by their byte counts.
    open spec fn partial_cmp_spec(&self, other: &AutoSize) -> Option<core::cmp::Ordering> {
        if model_bytes(self@) < model_bytes(other@) {
            Some(core::cmp::Ordering::Less)
        } else if model_bytes(self@) == model_bytes(other@) {
            Some(core::cmp::Ordering::Equal)
        } else {
            Some(core::cmp::Ordering::Greater)
        }
    }
}

/// Fraction parameters of a unit: how many fraction digits can contribute to
/// the byte count (`l`), and the divisor `d` of the long division, chosen so
/// that `d * multiplier == 10^l`.
fn frac_params(u: Unit) -> (r: (usize, u128))
    ensures
        r.0 <= 40,
        1 <= r.1,
        r.1 <= 10000000000000000000000000000,
        (r.1 as nat) * multiplier(u) == pow10(r.0 as nat),
{
    proof {
        lemma_pow10_values();
    }
    match u {
        Unit::Byte => (0, 1),
        Unit::Kilobyte => (3, 1),
        Unit::Megabyte => (6, 1),
        Unit::Gigabyte => (9, 1),
        Unit::Terabyte => (12, 1),
        Unit::Kibibyte => (10, 9765625),
        Unit::Mebibyte => (20, 95367431640625),
        Unit::Gigibyte => (30, 931322574615478515625),
        Unit::Tebibyte => (40, 9094947017729282379150390625),
    }
}

impl AutoSize {
    /// The byte count of this size: magnitude times multiplier, truncated
    /// toward zero (negative magnitudes give zero) and saturated at
    /// `u64::MAX`.
    fn compute_bytes(&self) -> (r: u64)
        ensures
            r == model_bytes(self@),
    {
        proof {
            use_type_invariant(self);
        }
        if self.neg {
            return 0;
        }
        let (l, d) = frac_params(self.unit);
        let q = frac_quotient(self.frac_digits.as_slice(), l, d, Ghost(multiplier(self.unit)));
        let iv = int_value_capped(self.int_digits.as_slice());
        let m = self.unit.into_size_bytes();
        proof {
            assert(multiplier(self.unit) <= 1099511627776);
            assert((iv as nat) * (m as nat) <= 18446744073709551616 * 1099511627776)
                by (nonlinear_arith)
                requires
                    iv as nat <= 18446744073709551616,
                    m as nat <= 1099511627776,
            ;
        }
        let total: u128 = iv * (m as u128) + q as u128;
        let ghost ival = digits_val(self@.int_digits);
        proof {
            if iv == 18446744073709551616 {
                assert(ival >= 18446744073709551616);
                assert(ival * (m as nat) >= 18446744073709551616) by (nonlinear_arith)
                    requires
                        ival >= 18446744073709551616,
                        m as nat >= 1,
                ;
                assert(model_abs_bytes(self@) >= ival * (m as nat));
                assert((iv as nat) * (m as nat) >= 18446744073709551616) by (nonlinear_arith)
                    requires
                        iv as nat == 18446744073709551616,
                        m as nat >= 1,
                ;
            } else {
                assert(iv as nat == ival);
                assert(total as nat == model_abs_bytes(self@));
            }
        }
        if total > 18446744073709551615 {
            18446744073709551615
        } else {
            total as u64
        }
    }

    /// Renders this size as canonical ASCII text: the magnitude's digits,
    /// then the unit's canonical symbol.
    pub fn render_bytes(&self) -> (r: Vec<u8>)
        ensures
            r@ == render_spec(self@),
            forall|i: int| 0 <= i < r@.len() ==> r@[i] < 128,
    {
        proof {
            use_type_invariant(self);
        }
        let mut out: Vec<u8> = Vec::new();
        if self.neg {
            out.push(45);
        }
        let ghost pre1 = out@;
        proof {
            assert(pre1 =~= if self@.neg { seq![45u8] } else { Seq::<u8>::empty() });
        }
        let mut i: usize = 0;
        while i < self.int_digits.len()
            invariant
                i <= self@.int_digits.len(),
                all_digits(self@.int_digits),
                self.int_digits@ == self@.int_digits,
                out@ =~= pre1 + ascii_of(self@.int_digits.take(i as int)),
            decreases self@.int_digits.len() - i,
        {
            let dv = self.int_digits[i];
            out.push(dv + 48);
            i += 1;
            proof {
                assert(out@ =~= pre1 + ascii_of(self@.int_digits.take(i as int)));
            }
        }
        proof {
            assert(self@.int_digits.take(self@.int_digits.len() as int) =~= self@.int_digits);
        }
        let ghost pre2 = out@;
        if self.frac_digits.len() > 0 {
            out.push(46);
            let ghost pre3 = out@;
            let mut j: usize = 0;
            while j < self.frac_digits.len()
                invariant
                    j <= self@.frac_digits.len(),
                    all_digits(self@.frac_digits),
                    self.frac_digits@ == self@.frac_digits,
                    out@ =~= pre3 + ascii_of(self@.frac_digits.take(j as int)),
                    pre3 == pre2 + seq![46u8],
                decreases self@.frac_digits.len() - j,
            {
                let dv = self.frac_digits[j];
                out.push(dv + 48);
                j += 1;
                proof {
                    assert(out@ =~= pre3 + ascii_of(self@.frac_digits.take(j as int)));
                }
            }
            proof {
                assert(self@.frac_digits.take(self@.frac_digits.len() as int)
                    =~= self@.frac_digits);
            }
        }
        let ghost pre4 = out@;
        proof {
            assert(pre4 =~= pre1 + ascii_of(self@.int_digits) + (if self@.frac_digits.len() > 0 {
                seq![46u8] + ascii_of(self@.frac_digits)
            } else {
                Seq::<u8>::empty()
            }));
        }
        push_symbol(self.unit, &mut out);
        proof {
            assert(out@ =~= render_spec(self@));
            assert(forall|k: int| 0 <= k < out@.len() ==> out@[k] < 128) by {
                assert(forall|k: int|
                    0 <= k < symbol_bytes(self@.unit).len() ==> symbol_bytes(self@.unit)[k]
                        < 128);
            }
        }
        out
    }

    /// Renders this size as a string, e.g. `"15.5KiB"`.
    pub fn to_text(&self) -> (r: String)
        ensures
            r@ == render_chars(self@),
    {
        let bytes = self.render_bytes();
        ascii_to_string(bytes.as_slice())
    }
}

/// Appends the canonical symbol of `u` to `out`.
fn push_symbol(u: Unit, out: &mut Vec<u8>)
    ensures
        final(out)@ == old(out)@ + symbol_bytes(u),
{
    match u {
        Unit::Byte => {
            out.push(66);
            proof {
                assert(out@ =~= old(out)@ + symbol_bytes(u));
            }
        },
        Unit::Kilobyte => {
            out.push(107);
            out.push(66);
            proof {
                assert(out@ =~= old(out)@ + symbol_bytes(u));
            }
        },
        Unit::Megabyte => {
            out.push(77);
            out.push(66);
            proof {
                assert(out@ =~= old(out)@ + symbol_bytes(u));
            }
        },
        Unit::Gigabyte => {
            out.push(71);
            out.push(66);
            proof {
                assert(out@ =~= old(out)@ + symbol_bytes(u));
            }
        },
        Unit::Terabyte => {
            out.push(84);
            out.push(66);
            proof {
                assert(out@ =~= old(out)@ + symbol_bytes(u));
            }
        },
        Unit::Kibibyte => {
            out.push(75);
            out.push(105);
            out.push(66);
            proof {
                assert(out@ =~= old(out)@ + symbol_bytes(u));
            }
        },
        Unit::Mebibyte => {
            out.push(77);
            out.push(105);
            out.push(66);
            proof {
                assert(out@ =~= old(out)@ + symbol_bytes(u));
            }
        },
        Unit::Gigibyte => {
            out.push(71);
            out.push(105);
            out.push(66);
            proof {
                assert(out@ =~= old(out)@ + symbol_bytes(u));
            }
        },
        Unit::Tebibyte => {
            out.push(84);
            out.push(105);
            out.push(66);
            proof {
                assert(out@ =~= old(out)@ + symbol_bytes(u));
            }
        },
    }
}

/// Relies on `String::from_utf8_lossy`: ASCII bytes decode to themselves,
/// one character per byte, so for all-ASCII input the result is the bytes
/// read as characters.
#[verifier::external_body]
fn ascii_to_string(v: &[u8]) -> (r: String)
    requires
        forall|i: int| 0 <= i < v@.len() ==> v@[i] < 128,
    ensures
        r@ == v@.map_values(|b: u8| b as char),
{
    String::from_utf8_lossy(v).into_owned()
}

/// Scans a numeric prefix: an optional sign, integer digits, and an optional
/// decimal point with fraction digits.  Returns the sign and the normalized
/// digit values, or `None` when the prefix is not a decimal number.
#[verifier::rlimit(100)]
fn parse_number(num: &[u8]) -> (r: Option<(bool, Vec<u8>, Vec<u8>)>)
    ensures
        r is Some <==> is_number(num@),
        r is Some ==> r->Some_0.0 == (has_sign(num@) && num@[0] == 45),
        r is Some ==> r->Some_0.1@ == norm_int(values_of(int_text(num_body(num@)))),
        r is Some ==> r->Some_0.2@ == strip_trailing_zeros(values_of(frac_text(num_body(num@)))),
{
    let n = num.len();
    let mut i: usize = 0;
    let mut neg = false;
    if n > 0 && (num[0] == 43 || num[0] == 45) {
        neg = num[0] == 45;
        i = 1;
    }
    let sign_len = i;
    let ghost b = num_body(num@);
    proof {
        assert(b =~= num@.skip(sign_len as int));
    }
    while i < n && 48 <= num[i] && num[i] <= 57
        invariant
            sign_len <= i <= n,
            n == num@.len(),
            forall|j: int| sign_len <= j < i ==> is_ascii_digit(num@[j]),
        decreases n - i,
    {
        i += 1;
    }
    let int_end = i;
    let mut frac_start = i;
    let mut frac_end = i;
    let mut has_dot = false;
    if i < n && num[i] == 46 {
        has_dot = true;
        i += 1;
        frac_start = i;
        while i < n && 48 <= num[i] && num[i] <= 57
            invariant
                frac_start <= i <= n,
                n == num@.len(),
                forall|j: int| frac_start <= j < i ==> is_ascii_digit(num@[j]),
            decreases n - i,
        {
            i += 1;
        }
        frac_end = i;
    }
    proof {
        // where the decimal point sits in the sign-stripped body
        if has_dot {
            lemma_dot_pos_char(b, (int_end - sign_len) as nat);
            assert(int_text(b) =~= num@.subrange(sign_len as int, int_end as int));
            assert(frac_text(b) =~= num@.subrange(frac_start as int, n as int));
        } else {
            if int_end == n {
                lemma_dot_pos_char(b, (int_end - sign_len) as nat);
                assert(int_text(b) =~= num@.subrange(sign_len as int, int_end as int));
                assert(frac_text(b) =~= Seq::<u8>::empty());
            }
        }
    }
    if i != n {
        proof {
            // the offending byte sits in the integer or the fraction text
            if has_dot {
                assert(!is_ascii_digit(frac_text(b)[i - frac_start]));
            } else {
                lemma_dot_pos_lower(b, (int_end - sign_len + 1) as nat);
                lemma_dot_pos_le(b);
                assert(!is_ascii_digit(int_text(b)[int_end - sign_len]));
            }
        }
        return None;
    }
    if int_end == sign_len && frac_end == frac_start {
        proof {
            if has_dot {
                assert(int_text(b).len() == 0);
                assert(frac_text(b).len() == 0);
            } else {
                assert(b.len() == 0);
                assert(int_text(b).len() == 0 && frac_text(b).len() == 0);
            }
        }
        return None;
    }
    proof {
        assert(is_number(num@));
    }
    // strip leading zeros of the integer part, but keep a lone zero
    let mut z = sign_len;
    while z < int_end && num[z] == 48
        invariant
            sign_len <= z <= int_end <= n,
            n == num@.len(),
            forall|j: int| sign_len <= j < z ==> num@[j] == 48,
        decreases int_end - z,
    {
        z += 1;
    }
    let mut ints: Vec<u8> = Vec::new();
    let mut j = z;
    while j < int_end
        invariant
            z <= j <= int_end <= n,
            n == num@.len(),
            forall|k: int| sign_len <= k < int_end ==> is_ascii_digit(num@[k]),
            z >= sign_len,
            ints@ =~= values_of(num@.subrange(z as int, int_end as int)).take(j - z),
        decreases int_end - j,
    {
        ints.push(num[j] - 48);
        j += 1;
        proof {
            assert(ints@ =~= values_of(num@.subrange(z as int, int_end as int)).take(j - z));
        }
    }
    if ints.len() == 0 {
        ints.push(0);
    }
    proof {
        let iv = values_of(int_text(b));
        let k = (z - sign_len) as nat;
        assert(forall|x: int| 0 <= x < k ==> iv[x] == 0);
        assert(k < iv.len() ==> iv[k as int] != 0) by {
            if z < int_end {
                assert(is_ascii_digit(num@[z as int]) && num@[z as int] != 48);
            }
        }
        lemma_norm_int_char(iv, k);
        if k == iv.len() {
            assert(ints@ =~= seq![0u8]);
        } else {
            assert(iv.skip(k as int) =~= values_of(num@.subrange(z as int, int_end as int)));
            assert(ints@ =~= iv.skip(k as int));
        }
    }
    // strip trailing zeros of the fraction
    let mut fe = frac_end;
    while fe > frac_start && num[fe - 1] == 48
        invariant
            frac_start <= fe <= frac_end <= n,
            n == num@.len(),
            forall|j2: int| fe <= j2 < frac_end ==> num@[j2] == 48,
        decreases fe,
    {
        fe -= 1;
    }
    let mut fracs: Vec<u8> = Vec::new();
    let mut j2 = frac_start;
    while j2 < fe
        invariant
            frac_start <= j2 <= fe <= n,
            n == num@.len(),
            forall|k: int| frac_start <= k < fe ==> is_ascii_digit(num@[k]),
            fracs@ =~= values_of(num@.subrange(frac_start as int, fe as int)).take(j2 - frac_start),
        decreases fe - j2,
    {
        fracs.push(num[j2] - 48);
        j2 += 1;
        proof {
            assert(fracs@ =~= values_of(num@.subrange(frac_start as int, fe as int)).take(
                j2 - frac_start,
            ));
        }
    }
    proof {
        let fv = values_of(frac_text(b));
        let k = (fe - frac_start) as nat;
        assert(fv.len() == frac_end - frac_start);
        assert(forall|x: int| k <= x < fv.len() ==> fv[x] == 0);
        assert(k > 0 ==> fv[k - 1] != 0) by {
            if fe > frac_start {
                assert(is_ascii_digit(num@[fe - 1]) && num@[fe - 1] != 48);
            }
        }
        lemma_strip_trailing_char(fv, k);
        assert(fv.take(k as int) =~= values_of(num@.subrange(frac_start as int, fe as int)));
        assert(fracs@ =~= fv.take(k as int));
    }
    Some((neg, ints, fracs))
}

} // verus!
