//! Finite numbers as exact decimals in canonical scientific form.
//!
//! A `Num` is `(-1)^neg * 0.d1 d2 .. dm * 10^(exp+1)`, written here as
//! `d1.d2..dm * 10^exp`: `digits` holds the significant digits (first and
//! last nonzero), `exp` the scientific exponent.  Zero is the empty digit
//! sequence with `exp == 0` and no sign.  A magnitude that would not fit a
//! finite IEEE 754 binary64 value (that is, at least 2^1024 - 2^970) is
//! rejected at construction, which is what makes every `Num` "finite".

use vstd::prelude::*;
use vstd::string::StrSliceExecFns;

verus! {

/// Scientific exponents below this bound are clamped at construction, so
/// that a `Num` always reparses to itself.
pub const EXP_MIN: i64 = -1000000000000000000;

/// Largest scientific exponent a finite number can have.
pub const EXP_MAX: i64 = 308;

/// The decimal digits of 2^1024 - 2^970, the smallest magnitude with
/// scientific exponent 308 that rounds to infinity in binary64.
pub open spec fn threshold_text() -> Seq<char> {
    "179769313486231580793728971405303415079934132710037826936173778980444968292764750946649017977587207096330286416692887910946555547851940402630657488671505820681908902000708383676273854845817711531764475730270069855571366959622842914819860834936475292719074168444365510704342711559699508093042880177904174497792"@
}

/// One digit of the threshold, as a number.
pub open spec fn threshold_digit(i: int) -> int {
    threshold_text()[i] as int - 48
}

/// Whether the number with digit sequence `d` (scientific exponent 308)
/// is strictly below the overflow threshold; compares digit by digit from
/// position `i`, with `d` padded by zeros on the right.
pub open spec fn below_threshold(d: Seq<u8>, i: int) -> bool
    decreases 309 - i,
{
    if i >= 309 {
        false
    } else {
        let di: int = if i < d.len() { d[i] as int } else { 0 };
        if di < threshold_digit(i) {
            true
        } else if di > threshold_digit(i) {
            false
        } else {
            below_threshold(d, i + 1)
        }
    }
}

/// A nonzero decimal `d1.d2..dm * 10^exp` overflows binary64 exactly when
/// its magnitude is at least 2^1024 - 2^970 (the round-to-infinity cut).
pub open spec fn num_too_big(digits: Seq<u8>, exp: int) -> bool {
    exp > EXP_MAX as int || (exp == EXP_MAX as int && !below_threshold(digits, 0))
}

/// Canonical form: digits in 0..=9, no leading or trailing zero digit,
/// exponent in range, magnitude finite; zero is unsigned with exponent 0.
pub open spec fn num_wf(neg: bool, digits: Seq<u8>, exp: int) -> bool {
    &&& forall|i: int| 0 <= i < digits.len() ==> #[trigger] digits[i] <= 9
    &&& (digits.len() == 0 ==> !neg && exp == 0)
    &&& (digits.len() > 0 ==> digits[0] != 0 && digits[digits.len() - 1] != 0)
    &&& (digits.len() > 0 ==> EXP_MIN as int <= exp)
    &&& (digits.len() > 0 ==> !num_too_big(digits, exp))
}

/// Saturation bound for exponent literals: digit runs are evaluated up to
/// this value, beyond which the magnitude is already out of every range the
/// rest of the pipeline distinguishes.
pub const EXP_SAT: i128 = 10000000000000000000;

/// Value of a digit run, saturated at `EXP_SAT`.
pub open spec fn dec_val_sat(ds: Seq<u8>) -> int
    decreases ds.len(),
{
    if ds.len() == 0 {
        0
    } else {
        let p = dec_val_sat(ds.subrange(0, ds.len() - 1));
        let v = p * 10 + ds[ds.len() - 1];
        if v >= EXP_SAT as int {
            EXP_SAT as int
        } else {
            v
        }
    }
}

/// Number of leading zero digits.
pub open spec fn count_lead_zeros(ds: Seq<u8>) -> int
    decreases ds.len(),
{
    if ds.len() == 0 {
        0
    } else if ds[0] != 0 {
        0
    } else {
        1 + count_lead_zeros(ds.subrange(1, ds.len() as int))
    }
}

/// Number of trailing zero digits.
pub open spec fn count_trail_zeros(ds: Seq<u8>) -> int
    decreases ds.len(),
{
    if ds.len() == 0 {
        0
    } else if ds[ds.len() - 1] != 0 {
        0
    } else {
        1 + count_trail_zeros(ds.subrange(0, ds.len() - 1))
    }
}

/// Whether every digit is zero.
pub open spec fn all_zero(ds: Seq<u8>) -> bool {
    forall|i: int| 0 <= i < ds.len() ==> #[trigger] ds[i] == 0
}

/// Canonical significant digits of a nonzero digit string: leading and
/// trailing zeros stripped.
pub open spec fn canon_digits(dall: Seq<u8>) -> Seq<u8> {
    dall.subrange(count_lead_zeros(dall), dall.len() - count_trail_zeros(dall))
}

/// Scientific exponent of a number lexeme whose digits (integer part then
/// fraction) are `dall`, with `fraclen` fraction digits and the literal
/// exponent given by sign and digit run.
pub open spec fn canon_exp(dall: Seq<u8>, fraclen: int, eneg: bool, edigs: Seq<u8>) -> int {
    let e_lit = if eneg {
        -dec_val_sat(edigs)
    } else {
        dec_val_sat(edigs)
    };
    (dall.len() - count_lead_zeros(dall) - 1) + e_lit - fraclen
}

/// Wrapper for a decimal number that is finite (representable below the
/// binary64 overflow threshold).
#[derive(Debug, Clone, PartialEq, Eq)]
pub struct Num {
    neg: bool,
    digits: Vec<u8>,
    exp: i64,
}

impl Num {
    /// Sign of the number (`true` for negative).
    pub closed spec fn neg_spec(&self) -> bool {
        self.neg
    }

    /// Significant digits, most significant first.
    pub closed spec fn digits_spec(&self) -> Seq<u8> {
        self.digits@
    }

    /// Scientific exponent.
    pub closed spec fn exp_spec(&self) -> int {
        self.exp as int
    }

    /// Canonical-form invariant, established by every constructor.
    pub open spec fn wf(&self) -> bool {
        num_wf(self.neg_spec(), self.digits_spec(), self.exp_spec())
    }

    /// The number zero.
    pub fn zero() -> (r: Num)
        ensures
            r.wf(),
            !r.neg_spec(),
            r.digits_spec() == Seq::<u8>::empty(),
            r.exp_spec() == 0,
    {
        let r = Num { neg: false, digits: Vec::new(), exp: 0 };
        proof {
            assert(r.digits@ =~= Seq::<u8>::empty());
        }
        r
    }

    /// Sign accessor (`true` for negative).
    pub fn is_neg(&self) -> (r: bool)
        ensures
            r == self.neg_spec(),
    {
        self.neg
    }

    /// Digit accessor, most significant first.
    pub fn get_digits(&self) -> (r: &Vec<u8>)
        ensures
            r@ == self.digits_spec(),
    {
        &self.digits
    }

    /// Scientific-exponent accessor.
    pub fn get_exp(&self) -> (r: i64)
        ensures
            r as int == self.exp_spec(),
    {
        self.exp
    }

    /// Builds a number from parts already known to be canonical.
    pub fn from_canonical(neg: bool, digits: Vec<u8>, exp: i64) -> (r: Num)
        requires
            num_wf(neg, digits@, exp as int),
        ensures
            r.wf(),
            r.neg_spec() == neg,
            r.digits_spec() == digits@,
            r.exp_spec() == exp as int,
    {
        Num { neg, digits, exp }
    }

    /// Builds a number from canonical parts; rejects anything that is not
    /// in canonical form or not finite.
    pub fn new(neg: bool, digits: Vec<u8>, exp: i64) -> (r: Option<Num>)
        ensures
            r is Some <==> num_wf(neg, digits@, exp as int),
            r is Some ==> r->0.neg_spec() == neg && r->0.digits_spec() == digits@
                && r->0.exp_spec() == exp as int,
    {
        if digits.len() == 0 {
            if !neg && exp == 0 {
                Some(Num { neg, digits, exp })
            } else {
                None
            }
        } else {
            let mut all_small = true;
            let mut j: usize = 0;
            while j < digits.len()
                invariant
                    j <= digits.len(),
                    all_small == forall|i: int| 0 <= i < j ==> #[trigger] digits@[i] <= 9,
                decreases digits.len() - j,
            {
                if digits[j] > 9 {
                    all_small = false;
                }
                j = j + 1;
            }
            if !all_small {
                None
            } else if digits[0] == 0 || digits[digits.len() - 1] == 0 {
                None
            } else if exp < EXP_MIN {
                None
            } else if exp > EXP_MAX {
                None
            } else if exp == EXP_MAX && ge_threshold(&digits) {
                None
            } else {
                Some(Num { neg, digits, exp })
            }
        }
    }
}

/// Whether digit sequence `d`, read at scientific exponent 308, reaches the
/// overflow threshold.
pub fn ge_threshold(d: &Vec<u8>) -> (r: bool)
    ensures
        r == !below_threshold(d@, 0),
{
    let text = "179769313486231580793728971405303415079934132710037826936173778980444968292764750946649017977587207096330286416692887910946555547851940402630657488671505820681908902000708383676273854845817711531764475730270069855571366959622842914819860834936475292719074168444365510704342711559699508093042880177904174497792";
    proof {
        reveal_strlit(
            "179769313486231580793728971405303415079934132710037826936173778980444968292764750946649017977587207096330286416692887910946555547851940402630657488671505820681908902000708383676273854845817711531764475730270069855571366959622842914819860834936475292719074168444365510704342711559699508093042880177904174497792",
        );
        assert(text@.len() == 309);
    }
    let mut i: usize = 0;
    while i < 309
        invariant
            i <= 309,
            text@ == threshold_text(),
            text@.len() == 309,
            forall|k: int| 0 <= k < i ==> (
                if k < d@.len() { d@[k] as int } else { 0 }
            ) == threshold_digit(k),
        decreases 309 - i,
    {
        let di: u8 = if i < d.len() { d[i] } else { 0 };
        let tv: u32 = text.get_char(i) as u32;
        let dv: u32 = (di as u32) + 48;
        if dv < tv {
            proof {
                assert(below_threshold(d@, i as int));
                lemma_below_threshold_prefix(d@, 0, i as int);
            }
            return false;
        }
        if dv > tv {
            proof {
                assert(!below_threshold(d@, i as int));
                lemma_not_below_threshold_prefix(d@, 0, i as int);
            }
            return true;
        }
        i = i + 1;
    }
    proof {
        lemma_not_below_threshold_prefix(d@, 0, 309);
    }
    true
}

/// If digits agree with the threshold before `j` and the tail comparison at
/// `j` says "below", the whole comparison from `i` says "below".
proof fn lemma_below_threshold_prefix(d: Seq<u8>, i: int, j: int)
    requires
        0 <= i <= j <= 309,
        forall|k: int| i <= k < j ==> (
            if k < d.len() { d[k] as int } else { 0 }
        ) == threshold_digit(k),
        below_threshold(d, j),
    ensures
        below_threshold(d, i),
    decreases j - i,
{
    if i < j {
        lemma_below_threshold_prefix(d, i + 1, j);
    }
}

/// If digits agree with the threshold before `j` and the tail comparison at
/// `j` says "not below", the whole comparison from `i` says "not below".
proof fn lemma_not_below_threshold_prefix(d: Seq<u8>, i: int, j: int)
    requires
        0 <= i <= j <= 309,
        forall|k: int| i <= k < j ==> (
            if k < d.len() { d[k] as int } else { 0 }
        ) == threshold_digit(k),
        !below_threshold(d, j),
    ensures
        !below_threshold(d, i),
    decreases j - i,
{
    if i < j {
        lemma_not_below_threshold_prefix(d, i + 1, j);
    }
}

} // verus!
