//! The numbers of the timeline page, read exactly.
//!
//! The page writes the start of a reservation and the width of its element
//! as the text of a floating-point number. A `Number` is what such a text
//! denotes: not a number, an infinity, or a `Decimal`. A `Decimal` keeps the
//! whole part and every digit behind the decimal point, so that nothing
//! computed from it is rounded before its time. The one limit is that of the
//! machine: a whole part that does not fit in a `u64` counts as infinite.

use crate::text::{
    all_digits, chars_of, decimal_value, digit_of, digit_value, find_char, first_position,
    is_digit, lemma_decimal_value_grows, lemma_first_position, lemma_leading_zero,
};
use vstd::arithmetic::div_mod::{
    lemma_div_denominator, lemma_fundamental_div_mod_converse, lemma_hoist_over_denominator,
};
use vstd::prelude::*;
use vstd::slice::*;

verus! {

broadcast use vstd::slice::group_slice_axioms;

/// The largest exponent that is told apart from larger ones.
pub const EXPONENT_LIMIT: u64 = 0x7fff_ffff_ffff_ffff;

/// A finite decimal number: a sign, a whole part, and the digits behind the
/// decimal point, which are `leading_zeros` zeros followed by `digits`.
#[derive(Clone, Debug, PartialEq, Eq)]
pub struct Decimal {
    pub negative: bool,
    pub whole: u64,
    pub leading_zeros: u64,
    pub digits: Vec<char>,
}

/// What the text of a floating-point number denotes.
#[derive(Clone, Debug, PartialEq, Eq)]
pub enum Number {
    NotANumber,
    Infinite { negative: bool },
    Finite(Decimal),
}

/// A `Decimal` as plain mathematical values: the sign, the whole part, and
/// all digits behind the decimal point.
pub struct DecimalModel {
    pub negative: bool,
    pub whole: nat,
    pub fraction: Seq<char>,
}

/// A `Number` as plain mathematical values.
pub enum NumberModel {
    NotANumber,
    Infinite { negative: bool },
    Finite(DecimalModel),
}

/// `n` zeros.
pub open spec fn zeros(n: nat) -> Seq<char> {
    Seq::new(n, |i: int| '0')
}

/// Ten to the power `k`.
pub open spec fn pow10(k: nat) -> nat
    decreases k,
{
    if k == 0 {
        1
    } else {
        10 * pow10((k - 1) as nat)
    }
}

impl View for Decimal {
    type V = DecimalModel;

    open spec fn view(&self) -> DecimalModel {
        DecimalModel {
            negative: self.negative,
            whole: self.whole as nat,
            fraction: zeros(self.leading_zeros as nat) + self.digits@,
        }
    }
}

impl View for Number {
    type V = NumberModel;

    open spec fn view(&self) -> NumberModel {
        match self {
            Number::NotANumber => NumberModel::NotANumber,
            Number::Infinite { negative } => NumberModel::Infinite { negative: *negative },
            Number::Finite(decimal) => NumberModel::Finite(decimal@),
        }
    }
}

impl DecimalModel {
    /// The number of digits behind the decimal point: the number is
    /// `numerator()` divided by ten to this power.
    pub open spec fn scale(self) -> nat {
        self.fraction.len()
    }

    /// The number times ten to the power `scale()`: an integer.
    pub open spec fn numerator(self) -> int {
        let magnitude = self.whole * pow10(self.scale()) + decimal_value(self.fraction);
        if self.negative {
            -magnitude
        } else {
            magnitude as int
        }
    }
}

/// The whole part of `factor` times the number `0.g`, where `g` are the
/// digits behind the decimal point.
pub open spec fn carry_of(g: Seq<char>, factor: nat) -> nat
    decreases g.len(),
{
    if g.len() == 0 {
        0
    } else {
        (factor * digit_value(g[0]) + carry_of(g.drop_first(), factor)) / 10
    }
}

/// `s` spells a word, each letter in its small or its capital form; the two
/// forms of the word are equally long.
pub open spec fn spells(s: Seq<char>, small: Seq<char>, capital: Seq<char>) -> bool {
    &&& s.len() == small.len()
    &&& s.len() == capital.len()
    &&& forall|i: int| 0 <= i < s.len() ==> s[i] == small[i] || s[i] == capital[i]
}

/// Where the exponent of a number begins: the index of its first `e` or
/// `E`, or its length.
pub open spec fn exponent_mark(body: Seq<char>) -> int {
    let small = first_position(body, 'e');
    let capital = first_position(body, 'E');
    if small <= capital {
        small
    } else {
        capital
    }
}

/// The exponent that a text denotes: an optional sign, then at least one
/// digit. An exponent beyond `EXPONENT_LIMIT` counts as that limit.
pub open spec fn exponent_of(text: Seq<char>) -> Option<int> {
    let signed = text.len() > 0 && (text[0] == '-' || text[0] == '+');
    let digits = if signed {
        text.drop_first()
    } else {
        text
    };
    if digits.len() > 0 && all_digits(digits) {
        let size = if decimal_value(digits) > EXPONENT_LIMIT {
            EXPONENT_LIMIT as int
        } else {
            decimal_value(digits) as int
        };
        if text[0] == '-' {
            Some(-size)
        } else {
            Some(size)
        }
    } else {
        None
    }
}

/// The digits in front of the decimal point once it has moved `exponent`
/// places to the right (to the left for a negative exponent).
pub open spec fn shifted_whole(whole: Seq<char>, fraction: Seq<char>, exponent: int) -> Seq<char> {
    if exponent >= 0 {
        if exponent <= fraction.len() {
            whole + fraction.take(exponent)
        } else {
            whole + fraction + zeros((exponent - fraction.len()) as nat)
        }
    } else {
        if -exponent <= whole.len() {
            whole.take(whole.len() + exponent)
        } else {
            Seq::empty()
        }
    }
}

/// The digits behind the decimal point once it has moved `exponent` places
/// to the right (to the left for a negative exponent).
pub open spec fn shifted_fraction(whole: Seq<char>, fraction: Seq<char>, exponent: int) -> Seq<
    char,
> {
    if exponent >= 0 {
        if exponent <= fraction.len() {
            fraction.skip(exponent)
        } else {
            Seq::empty()
        }
    } else {
        if -exponent <= whole.len() {
            whole.skip(whole.len() + exponent) + fraction
        } else {
            zeros((-exponent - whole.len()) as nat) + whole + fraction
        }
    }
}

/// The digits in front of the decimal point of a mantissa.
pub open spec fn whole_digits(mantissa: Seq<char>) -> Seq<char> {
    mantissa.take(first_position(mantissa, '.'))
}

/// The digits behind the decimal point of a mantissa; none where there is no
/// point.
pub open spec fn fraction_digits(mantissa: Seq<char>) -> Seq<char> {
    let dot = first_position(mantissa, '.');
    if dot < mantissa.len() {
        mantissa.skip(dot + 1)
    } else {
        Seq::empty()
    }
}

/// What a number without sign denotes: digits with at most one decimal
/// point and at least one digit, then optionally `e` or `E` and an exponent.
/// The decimal point moves by the exponent; no digit is lost. A whole part
/// beyond `u64::MAX` makes the number infinite.
pub open spec fn unsigned_number(body: Seq<char>, negative: bool) -> Option<NumberModel> {
    let mark = exponent_mark(body);
    let mantissa = body.take(mark);
    let exponent = if mark < body.len() {
        exponent_of(body.skip(mark + 1))
    } else {
        Some(0int)
    };
    let whole = whole_digits(mantissa);
    let fraction = fraction_digits(mantissa);
    if whole.len() + fraction.len() > 0 && all_digits(whole) && all_digits(fraction)
        && exponent is Some {
        let value = decimal_value(shifted_whole(whole, fraction, exponent->0));
        if value > u64::MAX {
            Some(NumberModel::Infinite { negative })
        } else {
            Some(
                NumberModel::Finite(
                    DecimalModel {
                        negative,
                        whole: value,
                        fraction: shifted_fraction(whole, fraction, exponent->0),
                    },
                ),
            )
        }
    } else {
        None
    }
}

/// What a text without sign denotes: one of the words `inf`, `infinity` and
/// `nan`, in small or capital letters, or a number.
pub open spec fn unsigned_literal_number(body: Seq<char>, negative: bool) -> Option<NumberModel> {
    if spells(body, "inf"@, "INF"@) || spells(body, "infinity"@, "INFINITY"@) {
        Some(NumberModel::Infinite { negative })
    } else if spells(body, "nan"@, "NAN"@) {
        Some(NumberModel::NotANumber)
    } else {
        unsigned_number(body, negative)
    }
}

/// What the text of a floating-point number denotes: an optional `+` or
/// `-`, then a word or a number.
pub open spec fn float_literal(s: Seq<char>) -> Option<NumberModel> {
    if s.len() > 0 && s[0] == '-' {
        unsigned_literal_number(s.drop_first(), true)
    } else if s.len() > 0 && s[0] == '+' {
        unsigned_literal_number(s.drop_first(), false)
    } else {
        unsigned_literal_number(s, false)
    }
}

/// The quotient of `n` by `d`, rounded toward zero.
pub open spec fn truncated(n: int, d: int) -> int {
    if n >= 0 {
        n / d
    } else {
        -((-n) / d)
    }
}

/// `n` brought into the range of `u32`.
pub open spec fn clamped_u32(n: int) -> int {
    if n < 0 {
        0
    } else if n > u32::MAX {
        u32::MAX as int
    } else {
        n
    }
}

/// The number plus the integer `span`, rounded toward zero: both over the
/// common denominator, ten to the power of the number's scale.
pub open spec fn sum_truncated(d: DecimalModel, span: int) -> int {
    truncated(d.numerator() + span * pow10(d.scale()), pow10(d.scale()) as int)
}

/// Ten to any power is positive.
pub proof fn lemma_pow10_positive(k: nat)
    ensures
        pow10(k) >= 1,
    decreases k,
{
    if k > 0 {
        lemma_pow10_positive((k - 1) as nat);
    }
}

/// A run of digits denotes less than ten to the power of its length.
pub proof fn lemma_decimal_value_bound(s: Seq<char>)
    ensures
        decimal_value(s) < pow10(s.len()),
    decreases s.len(),
{
    if s.len() > 0 {
        lemma_decimal_value_bound(s.drop_last());
    }
}

/// A digit in front of a run of digits adds its value times ten to the power
/// of the run's length.
pub proof fn lemma_decimal_value_prepend(c: char, r: Seq<char>)
    ensures
        decimal_value(seq![c] + r) == digit_value(c) * pow10(r.len()) + decimal_value(r),
    decreases r.len(),
{
    let s = seq![c] + r;
    if r.len() == 0 {
        assert(s.drop_last() =~= Seq::<char>::empty());
        assert(decimal_value(s.drop_last()) == 0);
        assert(s.last() == c);
        assert(decimal_value(s) == digit_value(c));
        assert(pow10(0) == 1);
        assert(digit_value(c) * 1 == digit_value(c)) by (nonlinear_arith);
        assert(decimal_value(r) == 0);
    } else {
        let shorter = r.drop_last();
        assert(s.drop_last() =~= seq![c] + shorter);
        assert(s.last() == r.last());
        lemma_decimal_value_prepend(c, shorter);
        let p = pow10(shorter.len());
        assert(pow10(r.len()) == 10 * p);
        assert(decimal_value(s) == 10 * decimal_value(seq![c] + shorter) + digit_value(r.last()));
        assert(decimal_value(r) == 10 * decimal_value(shorter) + digit_value(r.last()));
        assert(10 * (digit_value(c) * p) == digit_value(c) * (10 * p)) by (nonlinear_arith);
    }
}

/// A run of digits behind another adds its own value to the other's value
/// times ten to the power of its length.
pub proof fn lemma_decimal_value_concat(a: Seq<char>, b: Seq<char>)
    ensures
        decimal_value(a + b) == decimal_value(a) * pow10(b.len()) + decimal_value(b),
    decreases b.len(),
{
    if b.len() == 0 {
        assert(a + b =~= a);
        assert(decimal_value(a) * 1 == decimal_value(a)) by (nonlinear_arith);
    } else {
        let shorter = b.drop_last();
        let p = pow10(shorter.len());
        assert((a + b).drop_last() =~= a + shorter);
        assert((a + b).last() == b.last());
        lemma_decimal_value_concat(a, shorter);
        assert(pow10(b.len()) == 10 * p);
        assert(10 * (decimal_value(a) * p) == decimal_value(a) * (10 * p)) by (nonlinear_arith);
    }
}

/// Moving the decimal point changes no digit: the number read is the
/// mantissa, taken as one run of digits, times ten to the power of the
/// exponent less the number of digits behind the mantissa's point.
pub proof fn lemma_shift_keeps_value(whole: Seq<char>, fraction: Seq<char>, exponent: int)
    ensures
        ({
            let front = shifted_whole(whole, fraction, exponent);
            let back = shifted_fraction(whole, fraction, exponent);
            let numerator = decimal_value(front) * pow10(back.len()) + decimal_value(back);
            &&& exponent <= fraction.len() ==> numerator == decimal_value(whole + fraction)
                && back.len() == fraction.len() - exponent
            &&& exponent > fraction.len() ==> numerator == decimal_value(whole + fraction) * pow10(
                (exponent - fraction.len()) as nat,
            ) && back.len() == 0
        }),
{
    let front = shifted_whole(whole, fraction, exponent);
    let back = shifted_fraction(whole, fraction, exponent);
    let all = whole + fraction;
    lemma_decimal_value_concat(front, back);
    if exponent > fraction.len() {
        let pad = (exponent - fraction.len()) as nat;
        lemma_decimal_value_concat(all, zeros(pad));
        lemma_zero_stays_zero(Seq::<char>::empty(), pad);
        assert(Seq::<char>::empty() + zeros(pad) =~= zeros(pad));
        assert(front + back =~= front);
        assert(decimal_value(front) * 1 == decimal_value(front)) by (nonlinear_arith);
        assert(pow10(0) == 1);
    } else if exponent >= 0 {
        assert(front + back =~= all);
    } else if -exponent <= whole.len() {
        assert(front + back =~= all);
    } else {
        let pad = (-exponent - whole.len()) as nat;
        assert(front =~= Seq::<char>::empty());
        assert(front + back =~= zeros(pad) + all);
        lemma_leading_zeros(all, pad);
    }
}

/// `carry_of` is the whole part of the product: `factor` times the digits,
/// divided by ten to the power of their number.
pub proof fn lemma_carry_is_quotient(g: Seq<char>, factor: nat)
    ensures
        carry_of(g, factor) == (factor * decimal_value(g)) / pow10(g.len()),
    decreases g.len(),
{
    if g.len() == 0 {
        assert(factor * 0 == 0) by (nonlinear_arith);
    } else {
        let r = g.drop_first();
        let p = pow10(r.len());
        let x = factor * digit_value(g[0]);
        let y = factor * decimal_value(r);
        lemma_carry_is_quotient(r, factor);
        lemma_pow10_positive(r.len());
        assert(g =~= seq![g[0]] + r);
        lemma_decimal_value_prepend(g[0], r);
        assert(factor * decimal_value(g) == x * p + y) by (nonlinear_arith)
            requires
                decimal_value(g) == digit_value(g[0]) * p + decimal_value(r),
                x == factor * digit_value(g[0]),
                y == factor * decimal_value(r),
        ;
        assert(x * p >= 0 && y >= 0) by (nonlinear_arith)
            requires
                x >= 0,
                p >= 0,
                y >= 0,
        ;
        lemma_hoist_over_denominator(y as int, x as int, p);
        lemma_div_denominator((x * p + y) as int, p as int, 10);
        assert(p * 10 == pow10(g.len()));
    }
}

/// The carry of a product is no larger than the factor.
pub proof fn lemma_carry_bound(g: Seq<char>, factor: nat)
    ensures
        carry_of(g, factor) <= factor,
    decreases g.len(),
{
    if g.len() > 0 {
        lemma_carry_bound(g.drop_first(), factor);
        assert(factor * digit_value(g[0]) <= factor * 9) by (nonlinear_arith)
            requires
                digit_value(g[0]) <= 9,
        ;
    }
}

/// Zeros behind a run of digits that denotes zero leave it at zero.
pub proof fn lemma_zero_stays_zero(s: Seq<char>, n: nat)
    requires
        decimal_value(s) == 0,
    ensures
        decimal_value(s + zeros(n)) == 0,
    decreases n,
{
    if n == 0 {
        assert(s + zeros(0) =~= s);
    } else {
        let longer = s + zeros(n);
        assert(longer.drop_last() =~= s + zeros((n - 1) as nat));
        assert(longer.last() == '0');
        lemma_zero_stays_zero(s, (n - 1) as nat);
    }
}

/// Zeros in front of the digits behind the point divide the carry by ten,
/// once for each zero; a carry of zero stays zero.
pub proof fn lemma_carry_of_zeros(g: Seq<char>, factor: nat, n: nat)
    ensures
        n > 0 ==> carry_of(zeros(n) + g, factor) == carry_of(zeros((n - 1) as nat) + g, factor)
            / 10,
        carry_of(g, factor) == 0 ==> carry_of(zeros(n) + g, factor) == 0,
    decreases n,
{
    if n == 0 {
        assert(zeros(0) + g =~= g);
    } else {
        let s = zeros(n) + g;
        assert(s.drop_first() =~= zeros((n - 1) as nat) + g);
        assert(s[0] == '0');
        assert(factor * 0 == 0) by (nonlinear_arith);
        lemma_carry_of_zeros(g, factor, (n - 1) as nat);
    }
}

/// Zeros in front of a run of digits do not change what it denotes.
pub proof fn lemma_leading_zeros(g: Seq<char>, n: nat)
    ensures
        decimal_value(zeros(n) + g) == decimal_value(g),
    decreases n,
{
    if n == 0 {
        assert(zeros(0) + g =~= g);
    } else {
        assert(zeros(n) + g =~= seq!['0'] + (zeros((n - 1) as nat) + g));
        lemma_leading_zero(zeros((n - 1) as nat) + g);
        lemma_leading_zeros(g, (n - 1) as nat);
    }
}

/// A decimal rounded toward zero is its whole part, with its sign.
pub proof fn lemma_whole_part(d: DecimalModel)
    ensures
        truncated(d.numerator(), pow10(d.scale()) as int) == if d.negative {
            -(d.whole as int)
        } else {
            d.whole as int
        },
{
    let p = pow10(d.scale()) as int;
    let m = decimal_value(d.fraction) as int;
    let size = d.whole * p + m;
    lemma_pow10_positive(d.scale());
    lemma_decimal_value_bound(d.fraction);
    assert(d.whole * p >= 0) by (nonlinear_arith)
        requires
            d.whole >= 0,
            p >= 0,
    ;
    lemma_fundamental_div_mod_converse(size, p, d.whole as int, m);
}

/// A decimal plus an integer, rounded toward zero, from the whole part and
/// from whether any digit behind the point is not zero.
pub proof fn lemma_sum_truncated(d: DecimalModel, span: int)
    ensures
        !d.negative && d.whole + span >= 0 ==> sum_truncated(d, span) == d.whole + span,
        !d.negative && d.whole + span < 0 ==> sum_truncated(d, span) <= 0,
        d.negative && span - d.whole >= 1 && decimal_value(d.fraction) == 0 ==> sum_truncated(
            d,
            span,
        ) == span - d.whole,
        d.negative && span - d.whole >= 1 && decimal_value(d.fraction) != 0 ==> sum_truncated(
            d,
            span,
        ) == span - d.whole - 1,
        d.negative && span - d.whole < 1 ==> sum_truncated(d, span) <= 0,
{
    let p = pow10(d.scale()) as int;
    let m = decimal_value(d.fraction) as int;
    let w = d.whole as int;
    lemma_pow10_positive(d.scale());
    lemma_decimal_value_bound(d.fraction);
    let x = d.numerator() + span * p;
    if !d.negative {
        let t = w + span;
        assert(x == t * p + m) by (nonlinear_arith)
            requires
                x == (w * p + m) + span * p,
                t == w + span,
        ;
        if t >= 0 {
            assert(t * p >= 0) by (nonlinear_arith)
                requires
                    t >= 0,
                    p >= 0,
            ;
            lemma_fundamental_div_mod_converse(x, p, t, m);
        } else {
            assert(t * p <= -p) by (nonlinear_arith)
                requires
                    t <= -1,
                    p >= 1,
            ;
            assert((-x) / p >= 0) by (nonlinear_arith)
                requires
                    x < 0,
                    p >= 1,
            ;
        }
    } else {
        let t = span - w;
        assert(x == t * p - m) by (nonlinear_arith)
            requires
                x == -(w * p + m) + span * p,
                t == span - w,
        ;
        if t >= 1 {
            if m == 0 {
                assert(t * p >= 0) by (nonlinear_arith)
                    requires
                        t >= 1,
                        p >= 1,
                ;
                lemma_fundamental_div_mod_converse(x, p, t, 0);
            } else {
                assert(x == (t - 1) * p + (p - m)) by (nonlinear_arith)
                    requires
                        x == t * p - m,
                ;
                assert((t - 1) * p >= 0) by (nonlinear_arith)
                    requires
                        t >= 1,
                        p >= 1,
                ;
                lemma_fundamental_div_mod_converse(x, p, t - 1, p - m);
            }
        } else {
            assert(t * p <= 0) by (nonlinear_arith)
                requires
                    t <= 0,
                    p >= 1,
            ;
            if x < 0 {
                assert((-x) / p >= 0) by (nonlinear_arith)
                    requires
                        x < 0,
                        p >= 1,
                ;
            } else {
                assert(x == 0);
                assert(0int / p == 0) by (nonlinear_arith)
                    requires
                        p >= 1,
                ;
            }
        }
    }
}

/// Whether all of `s` are digits.
pub fn only_digits(s: &[char]) -> (all: bool)
    ensures
        all == all_digits(s@),
{
    let mut i: usize = 0;
    while i < s.len()
        invariant
            0 <= i <= s.len(),
            forall|j: int| 0 <= j < i ==> is_digit(#[trigger] s@[j]),
        decreases s.len() - i,
    {
        if digit_of(s[i]).is_none() {
            return false;
        }
        i += 1;
    }
    true
}

/// Whether `s` spells a word, each letter in its small or its capital form.
pub fn spells_word(s: &[char], small: &str, capital: &str) -> (same: bool)
    ensures
        same == spells(s@, small@, capital@),
{
    let lower = chars_of(small);
    let upper = chars_of(capital);
    if s.len() != lower.len() || lower.len() != upper.len() {
        return false;
    }
    let mut i: usize = 0;
    while i < s.len()
        invariant
            0 <= i <= s.len(),
            lower@ == small@,
            upper@ == capital@,
            s.len() == lower.len(),
            s.len() == upper.len(),
            forall|j: int| 0 <= j < i ==> s@[j] == lower@[j] || s@[j] == upper@[j],
        decreases s.len() - i,
    {
        if s[i] != lower[i] && s[i] != upper[i] {
            assert(!(s@[i as int] == small@[i as int] || s@[i as int] == capital@[i as int]));
            return false;
        }
        i += 1;
    }
    true
}

/// The value of `before` followed by `more`, from the value of `before`;
/// `None` where it does not fit in a `u64`.
fn extend_whole(acc: u64, more: &[char], Ghost(before): Ghost<Seq<char>>) -> (value: Option<u64>)
    requires
        acc == decimal_value(before),
    ensures
        match value {
            Some(v) => v == decimal_value(before + more@),
            None => decimal_value(before + more@) > u64::MAX,
        },
{
    let ghost all = before + more@;
    let mut total = acc;
    let mut i: usize = 0;
    assert(before + more@.take(0) =~= before);
    while i < more.len()
        invariant
            0 <= i <= more.len(),
            all == before + more@,
            total == decimal_value(before + more@.take(i as int)),
        decreases more.len() - i,
    {
        let ghost next = before + more@.take(i + 1);
        proof {
            assert(next.drop_last() =~= before + more@.take(i as int));
            assert(next.last() == more@[i as int]);
            assert(all.take(before.len() + i + 1) =~= next);
            lemma_decimal_value_grows(all, before.len() + i + 1);
        }
        let digit: u64 = match digit_of(more[i]) {
            Some(digit) => digit as u64,
            None => 0,
        };
        let tens = match total.checked_mul(10) {
            Some(tens) => tens,
            None => {
                return None;
            },
        };
        total = match tens.checked_add(digit) {
            Some(sum) => sum,
            None => {
                return None;
            },
        };
        i += 1;
    }
    assert(more@.take(i as int) =~= more@);
    Some(total)
}

/// The value of `before` followed by `count` zeros, from the value of
/// `before`; `None` where it does not fit in a `u64`.
fn pad_whole(acc: u64, count: u64, Ghost(before): Ghost<Seq<char>>) -> (value: Option<u64>)
    requires
        acc == decimal_value(before),
    ensures
        match value {
            Some(v) => v == decimal_value(before + zeros(count as nat)),
            None => decimal_value(before + zeros(count as nat)) > u64::MAX,
        },
{
    if acc == 0 {
        proof {
            lemma_zero_stays_zero(before, count as nat);
        }
        return Some(0);
    }
    let ghost all = before + zeros(count as nat);
    let mut total = acc;
    let mut i: u64 = 0;
    assert(before + zeros(0) =~= before);
    while i < count
        invariant
            0 <= i <= count,
            all == before + zeros(count as nat),
            total == decimal_value(before + zeros(i as nat)),
        decreases count - i,
    {
        let ghost next = before + zeros((i + 1) as nat);
        proof {
            assert(next.drop_last() =~= before + zeros(i as nat));
            assert(next.last() == '0');
            assert(all.take(before.len() + i + 1) =~= next);
            lemma_decimal_value_grows(all, before.len() + i + 1);
        }
        total = match total.checked_mul(10) {
            Some(tens) => tens,
            None => {
                return None;
            },
        };
        i += 1;
    }
    Some(total)
}

/// The digits of `first` followed by those of `second`.
fn joined(first: &[char], second: &[char]) -> (all: Vec<char>)
    ensures
        all@ == first@ + second@,
{
    let mut all = slice_to_vec(first);
    all.extend_from_slice(second);
    all
}

/// Reads an exponent: its sign and its size.
pub fn read_exponent(text: &[char]) -> (exponent: Option<(bool, u64)>)
    ensures
        exponent is Some == exponent_of(text@) is Some,
        exponent matches Some(e) ==> e.1 <= EXPONENT_LIMIT && exponent_of(text@) == Some(
            if e.0 {
                -(e.1 as int)
            } else {
                e.1 as int
            },
        ) && (e.0 ==> text@.len() > 0 && text@[0] == '-'),
{
    let signed = text.len() > 0 && (text[0] == '-' || text[0] == '+');
    let negative = text.len() > 0 && text[0] == '-';
    let digits = if signed {
        assert(text@.subrange(1, text@.len() as int) =~= text@.drop_first());
        slice_subrange(text, 1, text.len())
    } else {
        assert(text@.subrange(0, text@.len() as int) =~= text@);
        slice_subrange(text, 0, text.len())
    };
    if digits.len() == 0 || !only_digits(digits) {
        return None;
    }
    assert(Seq::<char>::empty() + digits@ =~= digits@);
    let size = match extend_whole(0, digits, Ghost(Seq::empty())) {
        Some(size) => if size > EXPONENT_LIMIT {
            EXPONENT_LIMIT
        } else {
            size
        },
        None => EXPONENT_LIMIT,
    };
    Some((negative, size))
}

/// Whether the digits behind the point of `decimal` are all zeros.
pub fn is_whole(decimal: &Decimal) -> (whole: bool)
    ensures
        whole == (decimal_value(decimal@.fraction) == 0),
{
    let mut i: usize = 0;
    assert(decimal.digits@.take(0) =~= Seq::<char>::empty());
    while i < decimal.digits.len()
        invariant
            0 <= i <= decimal.digits.len(),
            decimal_value(decimal.digits@.take(i as int)) == 0,
        decreases decimal.digits.len() - i,
    {
        proof {
            let next = decimal.digits@.take(i + 1);
            assert(next.drop_last() =~= decimal.digits@.take(i as int));
            assert(next.last() == decimal.digits@[i as int]);
            lemma_decimal_value_grows(decimal.digits@, i + 1);
            lemma_leading_zeros(decimal.digits@, decimal.leading_zeros as nat);
        }
        match digit_of(decimal.digits[i]) {
            Some(digit) => if digit != 0 {
                return false;
            },
            None => {},
        }
        i += 1;
    }
    proof {
        assert(decimal.digits@.take(i as int) =~= decimal.digits@);
        lemma_leading_zeros(decimal.digits@, decimal.leading_zeros as nat);
    }
    true
}

/// The whole part of `factor` times what stands behind the point of
/// `decimal`.
pub fn fraction_carry(decimal: &Decimal, factor: u32) -> (carry: u64)
    ensures
        carry == carry_of(decimal@.fraction, factor as nat),
        carry <= factor,
{
    let mut carry: u64 = 0;
    let mut i: usize = decimal.digits.len();
    assert(decimal.digits@.skip(i as int) =~= Seq::<char>::empty());
    while i > 0
        invariant
            0 <= i <= decimal.digits.len(),
            carry == carry_of(decimal.digits@.skip(i as int), factor as nat),
            carry <= factor,
        decreases i,
    {
        i -= 1;
        let digit: u64 = match digit_of(decimal.digits[i]) {
            Some(digit) => digit as u64,
            None => 0,
        };
        proof {
            let rest = decimal.digits@.skip(i as int);
            assert(rest[0] == decimal.digits@[i as int]);
            assert(rest.drop_first() =~= decimal.digits@.skip(i + 1));
            lemma_carry_bound(rest, factor as nat);
            assert((factor as nat) * (digit as nat) <= 9 * factor) by (nonlinear_arith)
                requires
                    digit <= 9,
            ;
        }
        carry = (factor as u64 * digit + carry) / 10;
    }
    assert(decimal.digits@.skip(0) =~= decimal.digits@);
    let mut done: u64 = 0;
    assert(zeros(0) + decimal.digits@ =~= decimal.digits@);
    while done < decimal.leading_zeros && carry > 0
        invariant
            0 <= done <= decimal.leading_zeros,
            carry == carry_of(zeros(done as nat) + decimal.digits@, factor as nat),
            carry <= factor,
        decreases decimal.leading_zeros - done,
    {
        proof {
            lemma_carry_of_zeros(decimal.digits@, factor as nat, (done + 1) as nat);
        }
        carry = carry / 10;
        done += 1;
    }
    proof {
        if done < decimal.leading_zeros {
            let sofar = zeros(done as nat) + decimal.digits@;
            let left = (decimal.leading_zeros - done) as nat;
            lemma_carry_of_zeros(sofar, factor as nat, left);
            assert(zeros(left) + sofar =~= zeros(decimal.leading_zeros as nat) + decimal.digits@);
        }
    }
    carry
}

/// Moves the decimal point `places` to the right: the whole part, or `None`
/// where it does not fit in a `u64`, and the digits left behind the point.
fn move_right(whole: &[char], fraction: &[char], places: u64) -> (parts: (Option<u64>, Vec<char>))
    ensures
        match parts.0 {
            Some(v) => v == decimal_value(shifted_whole(whole@, fraction@, places as int)),
            None => decimal_value(shifted_whole(whole@, fraction@, places as int)) > u64::MAX,
        },
        parts.1@ == shifted_fraction(whole@, fraction@, places as int),
{
    let ghost front = shifted_whole(whole@, fraction@, places as int);
    assert(Seq::<char>::empty() + whole@ =~= whole@);
    let base = extend_whole(0, whole, Ghost(Seq::empty()));
    if places <= fraction.len() as u64 {
        let moved = slice_subrange(fraction, 0, places as usize);
        assert(moved@ =~= fraction@.take(places as int));
        let value = match base {
            Some(base) => extend_whole(base, moved, Ghost(whole@)),
            None => {
                proof {
                    assert(front.take(whole@.len() as int) =~= whole@);
                    lemma_decimal_value_grows(front, whole@.len() as int);
                }
                None
            },
        };
        let rest = slice_to_vec(slice_subrange(fraction, places as usize, fraction.len()));
        assert(rest@ =~= fraction@.skip(places as int));
        (value, rest)
    } else {
        let ghost both = whole@ + fraction@;
        let full = match base {
            Some(base) => extend_whole(base, fraction, Ghost(whole@)),
            None => {
                proof {
                    assert(both.take(whole@.len() as int) =~= whole@);
                    lemma_decimal_value_grows(both, whole@.len() as int);
                }
                None
            },
        };
        let value = match full {
            Some(full) => pad_whole(full, places - fraction.len() as u64, Ghost(both)),
            None => {
                proof {
                    assert(front.take(both.len() as int) =~= both);
                    lemma_decimal_value_grows(front, both.len() as int);
                }
                None
            },
        };
        (value, Vec::new())
    }
}

/// Moves the decimal point `places` to the left, `places` being more than
/// zero: the whole part, or `None` where it does not fit in a `u64`, and the
/// digits behind the point as a number of zeros and the digits after them.
fn move_left(whole: &[char], fraction: &[char], places: u64) -> (parts: (Option<u64>, u64, Vec<char>))
    requires
        places > 0,
    ensures
        match parts.0 {
            Some(v) => v == decimal_value(shifted_whole(whole@, fraction@, -(places as int))),
            None => decimal_value(shifted_whole(whole@, fraction@, -(places as int))) > u64::MAX,
        },
        zeros(parts.1 as nat) + parts.2@ == shifted_fraction(whole@, fraction@, -(places as int)),
{
    if places <= whole.len() as u64 {
        let kept = whole.len() - places as usize;
        let front = slice_subrange(whole, 0, kept);
        assert(front@ =~= whole@.take(whole@.len() - places));
        assert(Seq::<char>::empty() + front@ =~= front@);
        let value = extend_whole(0, front, Ghost(Seq::empty()));
        let digits = joined(slice_subrange(whole, kept, whole.len()), fraction);
        assert(zeros(0) + digits@ =~= whole@.skip(whole@.len() - places) + fraction@);
        (value, 0, digits)
    } else {
        assert(decimal_value(Seq::<char>::empty()) == 0);
        let digits = joined(whole, fraction);
        let leading = places - whole.len() as u64;
        assert(zeros(leading as nat) + digits@ =~= zeros(leading as nat) + whole@ + fraction@);
        (Some(0), leading, digits)
    }
}

/// Reads a number without sign.
pub fn read_unsigned_number(body: &[char], negative: bool) -> (number: Option<Number>)
    ensures
        number is Some == unsigned_number(body@, negative) is Some,
        number matches Some(n) ==> unsigned_number(body@, negative) == Some(n@),
{
    let small = find_char(body, 'e');
    let capital = find_char(body, 'E');
    let mark = if small <= capital {
        small
    } else {
        capital
    };
    proof {
        lemma_first_position(body@, 'e');
        lemma_first_position(body@, 'E');
    }
    let mantissa = slice_subrange(body, 0, mark);
    assert(mantissa@ =~= body@.take(mark as int));
    let exponent = if mark < body.len() {
        let text = slice_subrange(body, mark + 1, body.len());
        assert(text@ =~= body@.skip(mark + 1));
        match read_exponent(text) {
            Some(exponent) => exponent,
            None => {
                return None;
            },
        }
    } else {
        (false, 0)
    };
    let dot = find_char(mantissa, '.');
    proof {
        lemma_first_position(mantissa@, '.');
    }
    let whole = slice_subrange(mantissa, 0, dot);
    assert(whole@ =~= whole_digits(mantissa@));
    let fraction = if dot < mantissa.len() {
        slice_subrange(mantissa, dot + 1, mantissa.len())
    } else {
        slice_subrange(mantissa, dot, dot)
    };
    assert(fraction@ =~= fraction_digits(mantissa@));
    if whole.len() + fraction.len() == 0 || !only_digits(whole) || !only_digits(fraction) {
        return None;
    }
    if exponent.0 && exponent.1 > 0 {
        let (value, leading_zeros, digits) = move_left(whole, fraction, exponent.1);
        match value {
            Some(whole) => Some(Number::Finite(Decimal { negative, whole, leading_zeros, digits })),
            None => Some(Number::Infinite { negative }),
        }
    } else {
        let (value, digits) = move_right(whole, fraction, exponent.1);
        assert(zeros(0) + digits@ =~= digits@);
        match value {
            Some(whole) => Some(
                Number::Finite(Decimal { negative, whole, leading_zeros: 0, digits }),
            ),
            None => Some(Number::Infinite { negative }),
        }
    }
}

/// Reads a word or a number without sign.
pub fn read_unsigned_literal(body: &[char], negative: bool) -> (number: Option<Number>)
    ensures
        number is Some == unsigned_literal_number(body@, negative) is Some,
        number matches Some(n) ==> unsigned_literal_number(body@, negative) == Some(n@),
{
    proof {
        reveal_strlit("inf");
        reveal_strlit("INF");
        reveal_strlit("infinity");
        reveal_strlit("INFINITY");
        reveal_strlit("nan");
        reveal_strlit("NAN");
    }
    if spells_word(body, "inf", "INF") || spells_word(body, "infinity", "INFINITY") {
        Some(Number::Infinite { negative })
    } else if spells_word(body, "nan", "NAN") {
        Some(Number::NotANumber)
    } else {
        read_unsigned_number(body, negative)
    }
}

/// Reads the text of a floating-point number.
pub fn read_number(s: &[char]) -> (number: Option<Number>)
    ensures
        number is Some == float_literal(s@) is Some,
        number matches Some(n) ==> float_literal(s@) == Some(n@),
{
    let signed = s.len() > 0 && (s[0] == '-' || s[0] == '+');
    let negative = s.len() > 0 && s[0] == '-';
    let body = if signed {
        assert(s@.subrange(1, s@.len() as int) =~= s@.drop_first());
        slice_subrange(s, 1, s.len())
    } else {
        assert(s@.subrange(0, s@.len() as int) =~= s@);
        slice_subrange(s, 0, s.len())
    };
    read_unsigned_literal(body, negative)
}

impl Decimal {
    /// The number without what stands behind the point, brought into the
    /// range of `u32`.
    pub fn whole_clamped(&self) -> (n: u32)
        ensures
            n == clamped_u32(truncated(self@.numerator(), pow10(self@.scale()) as int)),
    {
        proof {
            lemma_whole_part(self@);
        }
        if self.negative || self.whole == 0 {
            0
        } else if self.whole > 0xffff_ffff {
            0xffff_ffff
        } else {
            self.whole as u32
        }
    }

    /// The number plus the integer `span`, without what stands behind the
    /// point of the sum, brought into the range of `u32`.
    pub fn plus_clamped(&self, span: i128) -> (n: u32)
        ensures
            n == clamped_u32(sum_truncated(self@, span as int)),
    {
        proof {
            lemma_sum_truncated(self@, span as int);
        }
        let sum: i128 = if self.negative {
            match span.checked_sub(self.whole as i128) {
                Some(above) => if above >= 1 && !is_whole(self) {
                    above - 1
                } else {
                    above
                },
                None => 0,
            }
        } else {
            match span.checked_add(self.whole as i128) {
                Some(sum) => sum,
                None => 0xffff_ffff,
            }
        };
        if sum <= 0 {
            0
        } else if sum > 0xffff_ffff {
            0xffff_ffff
        } else {
            sum as u32
        }
    }
}

impl Number {
    /// Reads the text of a floating-point number.
    pub fn parse(text: &str) -> (number: Option<Number>)
        ensures
            number is Some == float_literal(text@) is Some,
            number matches Some(n) ==> float_literal(text@) == Some(n@),
    {
        let chars = chars_of(text);
        read_number(chars.as_slice())
    }
}

} // verus!
