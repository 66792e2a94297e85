//! Parsing of a single interaction count.
//!
//! A count is written as a decimal literal: an optional sign, digits with an
//! optional decimal point, and an optional decimal exponent. The words
//! `inf`, `infinity` and `nan` (in any letter case) are literals too. A
//! literal is a count when it is not signed negative and denotes a whole
//! number that fits in 64 bits.

use vstd::arithmetic::div_mod::lemma_fundamental_div_mod_converse;
use vstd::prelude::*;
use vstd::slice::slice_subrange;
use crate::text::{decimal_string, decimal_text};
use vstd::string::{StringExecFns, StringSliceAdditionalSpecFns};

verus! {

/// The digit `0`.
pub const DIGIT_0: u8 = 48;

/// The digit `9`.
pub const DIGIT_9: u8 = 57;

/// The sign `+`.
pub const PLUS: u8 = 43;

/// The sign `-`.
pub const MINUS: u8 = 45;

/// The decimal point `.`.
pub const POINT: u8 = 46;

/// The letter `A`.
pub const UPPER_A: u8 = 65;

/// The letter `Z`.
pub const UPPER_Z: u8 = 90;

/// The letter `a`.
pub const LOWER_A: u8 = 97;

/// The letter `e`.
pub const LOWER_E: u8 = 101;

/// The letter `f`.
pub const LOWER_F: u8 = 102;

/// The letter `i`.
pub const LOWER_I: u8 = 105;

/// The letter `n`.
pub const LOWER_N: u8 = 110;

/// The letter `t`.
pub const LOWER_T: u8 = 116;

/// The letter `y`.
pub const LOWER_Y: u8 = 121;

/// Why a token is not a numeric literal at all.
#[derive(Debug, Clone, Copy, PartialEq, Eq)]
pub enum FloatSyntaxError {
    /// The token is empty.
    Empty,
    /// The token is not empty and does not follow the literal grammar.
    Invalid,
}

/// [`ParseFieldError`] kinds.
#[derive(Debug, Clone, Copy, PartialEq, Eq)]
pub enum ParseFieldErrorKind {
    /// The field is not a numeric literal.
    ParseFloat(FloatSyntaxError),
    /// The field carries a minus sign.
    IsNegative,
    /// The field does not denote a whole number.
    NotAnInteger,
    /// The field denotes a whole number that does not fit in 64 bits, or
    /// adding it would take the total of its column beyond 64 bits.
    TooLarge,
}

/// Errors that may occur while parsing interaction field data.
#[derive(Debug, PartialEq, Eq)]
pub struct ParseFieldError {
    pub line_nr: usize,
    pub field_nr: usize,
    pub field_value: String,
    pub kind: ParseFieldErrorKind,
}

impl ParseFieldErrorKind {
    /// What the kind says of a field, in words.
    pub open spec fn text(self) -> Seq<char> {
        match self {
            ParseFieldErrorKind::ParseFloat(FloatSyntaxError::Empty) => {
                "cannot parse float from empty string"@
            },
            ParseFieldErrorKind::ParseFloat(FloatSyntaxError::Invalid) => "invalid float literal"@,
            ParseFieldErrorKind::IsNegative => "value must be a positive number"@,
            ParseFieldErrorKind::NotAnInteger => "value must be positive"@,
            ParseFieldErrorKind::TooLarge => "value is too large"@,
        }
    }

    /// What the kind says of a field, in words.
    pub fn message(&self) -> (text: String)
        ensures
            text@ == self.text(),
    {
        match self {
            ParseFieldErrorKind::ParseFloat(FloatSyntaxError::Empty) => String::from_str(
                "cannot parse float from empty string",
            ),
            ParseFieldErrorKind::ParseFloat(FloatSyntaxError::Invalid) => String::from_str(
                "invalid float literal",
            ),
            ParseFieldErrorKind::IsNegative => String::from_str("value must be a positive number"),
            ParseFieldErrorKind::NotAnInteger => String::from_str("value must be positive"),
            ParseFieldErrorKind::TooLarge => String::from_str("value is too large"),
        }
    }
}

/// What is said of a field that holds no count: its text, where it stands
/// and why it holds none.
pub open spec fn field_error_text(
    line_nr: usize,
    field_nr: usize,
    field_value: Seq<char>,
    kind: ParseFieldErrorKind,
) -> Seq<char> {
    "unable to parse input field value '"@ + field_value + "' (line "@ + decimal_text(
        line_nr as nat,
    ) + ", field "@ + decimal_text(field_nr as nat) + "): "@ + kind.text()
}

impl ParseFieldError {
    /// The error in words.
    pub fn message(&self) -> (text: String)
        ensures
            text@ == field_error_text(self.line_nr, self.field_nr, self.field_value@, self.kind),
    {
        let mut text = String::from_str("unable to parse input field value '");
        text.append(self.field_value.as_str());
        text.append("' (line ");
        text.append(decimal_string(self.line_nr).as_str());
        text.append(", field ");
        text.append(decimal_string(self.field_nr).as_str());
        text.append("): ");
        text.append(self.kind.message().as_str());
        text
    }
}

/// The finite part of a literal: `digits` holds the digits before and after
/// the decimal point, of which the last `fraction_len` stood after it.
pub ghost struct Decimal {
    pub digits: Seq<u8>,
    pub fraction_len: nat,
    pub exponent: int,
}

/// What a literal denotes, its sign aside.
pub ghost enum Magnitude {
    Infinite,
    NotANumber,
    Finite(Decimal),
}

/// A token that follows the literal grammar.
pub ghost struct Literal {
    pub negative: bool,
    pub magnitude: Magnitude,
}

/// Whether a byte is a decimal digit.
pub open spec fn is_digit(b: u8) -> bool {
    DIGIT_0 <= b <= DIGIT_9
}

/// The lower-case letter of an upper-case letter; any other byte itself.
pub open spec fn to_lower(b: u8) -> u8 {
    if UPPER_A <= b <= UPPER_Z {
        (b + 32) as u8
    } else {
        b
    }
}

/// Ten to the power of `n`.
pub open spec fn pow10(n: nat) -> nat
    decreases n,
{
    if n == 0 {
        1
    } else {
        10 * pow10((n - 1) as nat)
    }
}

/// The number that a sequence of decimal digits denotes.
pub open spec fn digits_value(digits: Seq<u8>) -> nat
    decreases digits.len(),
{
    if digits.len() == 0 {
        0
    } else {
        (10 * digits_value(digits.drop_last()) + (digits.last() - DIGIT_0)) as nat
    }
}

/// The first position at or after `from` that holds no digit.
pub open spec fn digit_run_end(s: Seq<u8>, from: int) -> int
    decreases s.len() - from,
{
    if 0 <= from < s.len() && is_digit(s[from]) {
        digit_run_end(s, from + 1)
    } else {
        from
    }
}

/// 1 where a sign stands at position `at`, else 0.
pub open spec fn sign_len(s: Seq<u8>, at: int) -> int {
    if 0 <= at < s.len() && (s[at] == PLUS || s[at] == MINUS) {
        1
    } else {
        0
    }
}

/// Whether `s` spells `word` (given in lower case), letter case aside.
pub open spec fn spells(s: Seq<u8>, word: Seq<u8>) -> bool {
    s.len() == word.len() && forall|i: int| 0 <= i < s.len() ==> to_lower(#[trigger] s[i]) == word[i]
}

/// The word `inf`.
pub open spec fn word_inf() -> Seq<u8> {
    seq![LOWER_I, LOWER_N, LOWER_F]
}

/// The word `infinity`.
pub open spec fn word_infinity() -> Seq<u8> {
    seq![LOWER_I, LOWER_N, LOWER_F, LOWER_I, LOWER_N, LOWER_I, LOWER_T, LOWER_Y]
}

/// The word `nan`.
pub open spec fn word_nan() -> Seq<u8> {
    seq![LOWER_N, LOWER_A, LOWER_N]
}

/// Reads `Digit* ('.' Digit*)? (('e' | 'E') Sign? Digit+)?` with at least one
/// digit before the exponent; `None` where `body` is not of that form.
pub open spec fn decimal(body: Seq<u8>) -> Option<Decimal> {
    let int_end = digit_run_end(body, 0);
    let has_point = int_end < body.len() && body[int_end] == POINT;
    let frac_start = if has_point { int_end + 1 } else { int_end };
    let frac_end = digit_run_end(body, frac_start);
    let digits = body.subrange(0, int_end) + body.subrange(frac_start, frac_end);
    let fraction_len = (frac_end - frac_start) as nat;
    if digits.len() == 0 {
        None
    } else if frac_end == body.len() {
        Some(Decimal { digits, fraction_len, exponent: 0 })
    } else if to_lower(body[frac_end]) == LOWER_E {
        let exp_start = frac_end + 1 + sign_len(body, frac_end + 1);
        let exp_end = digit_run_end(body, exp_start);
        let magnitude = digits_value(body.subrange(exp_start, exp_end)) as int;
        if exp_start < exp_end && exp_end == body.len() {
            Some(
                Decimal {
                    digits,
                    fraction_len,
                    exponent: if body[frac_end + 1] == MINUS {
                        -magnitude
                    } else {
                        magnitude
                    },
                },
            )
        } else {
            None
        }
    } else {
        None
    }
}

/// Reads `Sign? ('inf' | 'infinity' | 'nan' | Decimal)`, where `Sign` is
/// `+` or `-`; `None` where `token` is not of that form.
pub open spec fn literal(token: Seq<u8>) -> Option<Literal> {
    let start = sign_len(token, 0);
    let negative = start == 1 && token[0] == MINUS;
    let body = token.skip(start);
    if spells(body, word_inf()) || spells(body, word_infinity()) {
        Some(Literal { negative, magnitude: Magnitude::Infinite })
    } else if spells(body, word_nan()) {
        Some(Literal { negative, magnitude: Magnitude::NotANumber })
    } else {
        match decimal(body) {
            Some(d) => Some(Literal { negative, magnitude: Magnitude::Finite(d) }),
            None => None,
        }
    }
}

/// The count that a finite, unsigned literal denotes: its digits, read as
/// one number, times ten to the power of its exponent less the number of its
/// fraction digits. That number must be whole and fit in 64 bits.
pub open spec fn decimal_count(d: Decimal) -> Result<u64, ParseFieldErrorKind> {
    let mantissa = digits_value(d.digits);
    let shift = d.exponent - d.fraction_len;
    if shift >= 0 {
        if mantissa * pow10(shift as nat) <= u64::MAX {
            Ok((mantissa * pow10(shift as nat)) as u64)
        } else {
            Err(ParseFieldErrorKind::TooLarge)
        }
    } else if mantissa % pow10((-shift) as nat) != 0 {
        Err(ParseFieldErrorKind::NotAnInteger)
    } else if mantissa / pow10((-shift) as nat) <= u64::MAX {
        Ok((mantissa / pow10((-shift) as nat)) as u64)
    } else {
        Err(ParseFieldErrorKind::TooLarge)
    }
}

/// What parsing the token with the given bytes yields. The checks come in
/// this order: that the token is a literal, that it has no minus sign, that
/// it denotes a whole number, that the number fits in 64 bits.
pub open spec fn field_count(token: Seq<u8>) -> Result<u64, ParseFieldErrorKind> {
    if token.len() == 0 {
        Err(ParseFieldErrorKind::ParseFloat(FloatSyntaxError::Empty))
    } else {
        match literal(token) {
            None => Err(ParseFieldErrorKind::ParseFloat(FloatSyntaxError::Invalid)),
            Some(l) => if l.negative {
                Err(ParseFieldErrorKind::IsNegative)
            } else {
                match l.magnitude {
                    Magnitude::Finite(d) => decimal_count(d),
                    _ => Err(ParseFieldErrorKind::NotAnInteger),
                }
            },
        }
    }
}

/// Interaction field.
pub struct InteractionField;

/// Exponents at or beyond this bound all behave alike: no token is long
/// enough to make up for them.
const EXPONENT_CAP: u128 = 0x1_0000_0000_0000_0000_0000_0000;

/// Where the parts of a decimal literal stand in its bytes.
struct Parts {
    int_end: usize,
    frac_start: usize,
    frac_end: usize,
    exp_negative: bool,
    exp_start: usize,
    exp_end: usize,
}

impl Parts {
    /// Whether the parts are those of the literal `d` that `body` spells.
    spec fn describes(self, body: Seq<u8>, d: Decimal) -> bool {
        &&& self.int_end <= self.frac_start <= self.frac_end <= self.exp_start <= self.exp_end
            <= body.len()
        &&& d.digits == body.subrange(0, self.int_end as int) + body.subrange(
            self.frac_start as int,
            self.frac_end as int,
        )
        &&& d.fraction_len == self.frac_end - self.frac_start
        &&& d.exponent == if self.exp_negative {
            -(digits_value(body.subrange(self.exp_start as int, self.exp_end as int)) as int)
        } else {
            digits_value(body.subrange(self.exp_start as int, self.exp_end as int)) as int
        }
        &&& forall|i: int| 0 <= i < self.int_end ==> is_digit(#[trigger] body[i])
        &&& forall|i: int| self.frac_start <= i < self.frac_end ==> is_digit(#[trigger] body[i])
        &&& forall|i: int| self.exp_start <= i < self.exp_end ==> is_digit(#[trigger] body[i])
    }
}

/// Whether every byte is a decimal digit.
spec fn all_digits(digits: Seq<u8>) -> bool {
    forall|i: int| 0 <= i < digits.len() ==> is_digit(#[trigger] digits[i])
}

/// A power of ten is one or more.
proof fn lemma_pow10_positive(n: nat)
    ensures
        pow10(n) >= 1,
    decreases n,
{
    if n > 0 {
        lemma_pow10_positive((n - 1) as nat);
    }
}

/// Ten to a sum is the product of the powers.
proof fn lemma_pow10_adds(a: nat, b: nat)
    ensures
        pow10(a + b) == pow10(a) * pow10(b),
    decreases b,
{
    if b == 0 {
        assert(pow10(b) == 1);
        assert(pow10(a) * 1 == pow10(a)) by (nonlinear_arith);
    } else {
        let c = (b - 1) as nat;
        lemma_pow10_adds(a, c);
        assert(a + b - 1 == a + c);
        assert(pow10(a + b) == 10 * pow10(a + c));
        assert(pow10(b) == 10 * pow10(c));
        assert(10 * (pow10(a) * pow10(c)) == pow10(a) * (10 * pow10(c))) by (nonlinear_arith);
    }
}

/// The powers of ten grow with the exponent.
proof fn lemma_pow10_increases(a: nat, b: nat)
    requires
        a <= b,
    ensures
        pow10(a) <= pow10(b),
{
    lemma_pow10_adds(a, (b - a) as nat);
    lemma_pow10_positive((b - a) as nat);
    lemma_pow10_positive(a);
    assert(pow10(a) * 1 <= pow10(a) * pow10((b - a) as nat)) by (nonlinear_arith)
        requires
            pow10(a) >= 1,
            pow10((b - a) as nat) >= 1,
    ;
}

/// Twenty decimal digits no longer fit in 64 bits.
proof fn lemma_pow10_twenty()
    ensures
        pow10(20) > u64::MAX,
{
    reveal_with_fuel(pow10, 21);
}

/// Splitting a digit sequence splits its value at the matching power of ten.
proof fn lemma_digits_value_split(digits: Seq<u8>, k: int)
    requires
        all_digits(digits),
        0 <= k <= digits.len(),
    ensures
        digits_value(digits) == digits_value(digits.subrange(0, k)) * pow10(
            (digits.len() - k) as nat,
        ) + digits_value(digits.subrange(k, digits.len() as int)),
    decreases digits.len(),
{
    let n = digits.len() as int;
    let a = digits_value(digits.subrange(0, k)) as int;
    if k == n {
        assert(digits.subrange(0, k) =~= digits);
        assert(digits.subrange(k, n) =~= Seq::<u8>::empty());
        assert(pow10(0) == 1);
        assert(a * 1 == a) by (nonlinear_arith);
    } else {
        let front = digits.drop_last();
        let back = digits.subrange(k, n);
        assert(is_digit(digits[n - 1]));
        lemma_digits_value_split(front, k);
        assert(front.subrange(0, k) =~= digits.subrange(0, k));
        assert(back.drop_last() =~= front.subrange(k, n - 1));
        assert(back.last() == digits.last());
        let p = pow10((n - 1 - k) as nat) as int;
        let b = digits_value(front.subrange(k, n - 1)) as int;
        let last = (digits.last() - DIGIT_0) as int;
        assert(digits_value(front) == a * p + b);
        assert(digits_value(digits) == (10 * digits_value(front) + last) as nat);
        assert(digits_value(back) == (10 * b + last) as nat);
        assert(pow10((n - k) as nat) == 10 * p);
        assert(10 * (a * p + b) == a * (10 * p) + 10 * b) by (nonlinear_arith);
    }
}

/// The value of `n` digits is below ten to the power of `n`.
proof fn lemma_digits_value_bound(digits: Seq<u8>)
    requires
        all_digits(digits),
    ensures
        digits_value(digits) < pow10(digits.len()),
    decreases digits.len(),
{
    if digits.len() > 0 {
        lemma_digits_value_bound(digits.drop_last());
    }
}

/// Digits denote zero exactly if each of them is `0`.
proof fn lemma_digits_value_zero(digits: Seq<u8>)
    requires
        all_digits(digits),
    ensures
        digits_value(digits) == 0 <==> forall|i: int|
            0 <= i < digits.len() ==> #[trigger] digits[i] == DIGIT_0,
    decreases digits.len(),
{
    if digits.len() > 0 {
        let front = digits.drop_last();
        lemma_digits_value_zero(front);
        if digits_value(digits) == 0 {
            assert forall|i: int| 0 <= i < digits.len() implies #[trigger] digits[i] == DIGIT_0 by {
                if i < front.len() {
                    assert(front[i] == digits[i]);
                }
            }
        } else {
            if forall|i: int| 0 <= i < digits.len() ==> #[trigger] digits[i] == DIGIT_0 {
                assert forall|i: int| 0 <= i < front.len() implies #[trigger] front[i]
                    == DIGIT_0 by {
                    assert(front[i] == digits[i]);
                }
                assert(digits.last() == digits[digits.len() - 1]);
            }
        }
    }
}

/// The lower-case letter of an upper-case letter; any other byte itself.
fn lower(b: u8) -> (r: u8)
    ensures
        r == to_lower(b),
{
    if b >= UPPER_A && b <= UPPER_Z {
        b + 32
    } else {
        b
    }
}

/// Whether `body` spells `inf`, letter case aside.
fn spells_inf(body: &[u8]) -> (r: bool)
    ensures
        r == spells(body@, word_inf()),
{
    let r = body.len() == 3 && lower(body[0]) == LOWER_I && lower(body[1]) == LOWER_N && lower(
        body[2],
    ) == LOWER_F;
    proof {
        if spells(body@, word_inf()) {
            assert(to_lower(body@[0]) == word_inf()[0]);
            assert(to_lower(body@[1]) == word_inf()[1]);
            assert(to_lower(body@[2]) == word_inf()[2]);
        }
    }
    r
}

/// Whether `body` spells `nan`, letter case aside.
fn spells_nan(body: &[u8]) -> (r: bool)
    ensures
        r == spells(body@, word_nan()),
{
    let r = body.len() == 3 && lower(body[0]) == LOWER_N && lower(body[1]) == LOWER_A && lower(
        body[2],
    ) == LOWER_N;
    proof {
        if spells(body@, word_nan()) {
            assert(to_lower(body@[0]) == word_nan()[0]);
            assert(to_lower(body@[1]) == word_nan()[1]);
            assert(to_lower(body@[2]) == word_nan()[2]);
        }
    }
    r
}

/// Whether `body` spells `infinity`, letter case aside.
fn spells_infinity(body: &[u8]) -> (r: bool)
    ensures
        r == spells(body@, word_infinity()),
{
    let r = body.len() == 8 && lower(body[0]) == LOWER_I && lower(body[1]) == LOWER_N && lower(
        body[2],
    ) == LOWER_F && lower(body[3]) == LOWER_I && lower(body[4]) == LOWER_N && lower(body[5])
        == LOWER_I && lower(body[6]) == LOWER_T && lower(body[7]) == LOWER_Y;
    proof {
        if spells(body@, word_infinity()) {
            assert(to_lower(body@[0]) == word_infinity()[0]);
            assert(to_lower(body@[1]) == word_infinity()[1]);
            assert(to_lower(body@[2]) == word_infinity()[2]);
            assert(to_lower(body@[3]) == word_infinity()[3]);
            assert(to_lower(body@[4]) == word_infinity()[4]);
            assert(to_lower(body@[5]) == word_infinity()[5]);
            assert(to_lower(body@[6]) == word_infinity()[6]);
            assert(to_lower(body@[7]) == word_infinity()[7]);
        }
    }
    r
}

/// The first position at or after `from` that holds no digit.
fn digit_run(s: &[u8], from: usize) -> (end: usize)
    requires
        from <= s.len(),
    ensures
        end == digit_run_end(s@, from as int),
        from <= end <= s.len(),
        forall|i: int| from <= i < end ==> is_digit(#[trigger] s@[i]),
{
    let mut i: usize = from;
    while i < s.len() && s[i] >= DIGIT_0 && s[i] <= DIGIT_9
        invariant
            from <= i <= s.len(),
            digit_run_end(s@, from as int) == digit_run_end(s@, i as int),
            forall|k: int| from <= k < i ==> is_digit(#[trigger] s@[k]),
        decreases s.len() - i,
    {
        i = i + 1;
    }
    i
}

/// Finds the parts of a decimal literal, or finds that `body` is none.
fn scan_decimal(body: &[u8]) -> (r: Option<Parts>)
    ensures
        match decimal(body@) {
            Some(d) => r is Some && r->0.describes(body@, d),
            None => r is None,
        },
{
    let n: usize = body.len();
    let int_end: usize = digit_run(body, 0);
    let has_point = int_end < n && body[int_end] == POINT;
    let frac_start: usize = if has_point {
        int_end + 1
    } else {
        int_end
    };
    let frac_end: usize = digit_run(body, frac_start);
    if int_end + (frac_end - frac_start) == 0 {
        return None;
    }
    if frac_end == n {
        proof {
            assert(body@.subrange(n as int, n as int) =~= Seq::<u8>::empty());
        }
        return Some(
            Parts { int_end, frac_start, frac_end, exp_negative: false, exp_start: n, exp_end: n },
        );
    }
    if lower(body[frac_end]) != LOWER_E {
        return None;
    }
    let signed = frac_end + 1 < n && (body[frac_end + 1] == PLUS || body[frac_end + 1] == MINUS);
    let exp_negative = frac_end + 1 < n && body[frac_end + 1] == MINUS;
    let exp_start: usize = if signed {
        frac_end + 2
    } else {
        frac_end + 1
    };
    let exp_end: usize = digit_run(body, exp_start);
    if exp_start < exp_end && exp_end == n {
        Some(Parts { int_end, frac_start, frac_end, exp_negative, exp_start, exp_end })
    } else {
        None
    }
}

/// The value of the digits in `s[from..to]`, or the cap if it is less.
fn capped_value(s: &[u8], from: usize, to: usize) -> (v: u128)
    requires
        from <= to <= s.len(),
        forall|i: int| from <= i < to ==> is_digit(#[trigger] s@[i]),
    ensures
        v <= EXPONENT_CAP,
        v < EXPONENT_CAP ==> v == digits_value(s@.subrange(from as int, to as int)),
        v == EXPONENT_CAP ==> digits_value(s@.subrange(from as int, to as int)) >= EXPONENT_CAP,
{
    let mut v: u128 = 0;
    let mut i: usize = from;
    while i < to
        invariant
            from <= i <= to <= s.len(),
            forall|k: int| from <= k < to ==> is_digit(#[trigger] s@[k]),
            v <= EXPONENT_CAP,
            v < EXPONENT_CAP ==> v == digits_value(s@.subrange(from as int, i as int)),
            v == EXPONENT_CAP ==> digits_value(s@.subrange(from as int, i as int))
                >= EXPONENT_CAP,
        decreases to - i,
    {
        proof {
            let next = s@.subrange(from as int, i + 1);
            assert(next.drop_last() =~= s@.subrange(from as int, i as int));
            assert(next.last() == s@[i as int]);
        }
        if v < EXPONENT_CAP {
            v = v * 10 + (s[i] - DIGIT_0) as u128;
            if v > EXPONENT_CAP {
                v = EXPONENT_CAP;
            }
        }
        i = i + 1;
    }
    v
}

/// Where the digits of a literal split once the exponent has moved the
/// decimal point: the digits before `split` make up the whole part.
spec fn point_split(d: Decimal) -> int {
    let point = d.digits.len() - d.fraction_len + d.exponent;
    if point <= 0 {
        0
    } else if point >= d.digits.len() {
        d.digits.len() as int
    } else {
        point
    }
}

/// A literal whose decimal point stays inside or before its digits is whole
/// exactly if the digits after the point are all zero; its value is then the
/// value of the digits before the point.
proof fn lemma_count_with_fraction(d: Decimal)
    requires
        all_digits(d.digits),
        d.fraction_len <= d.digits.len(),
        d.exponent - d.fraction_len < 0,
    ensures
        ({
            let split = point_split(d);
            let whole = digits_value(d.digits.subrange(0, split));
            let rest = d.digits.subrange(split, d.digits.len() as int);
            if exists|i: int| 0 <= i < rest.len() && rest[i] != DIGIT_0 {
                decimal_count(d) == Err::<u64, ParseFieldErrorKind>(
                    ParseFieldErrorKind::NotAnInteger,
                )
            } else if whole <= u64::MAX {
                decimal_count(d) == Ok::<u64, ParseFieldErrorKind>(whole as u64)
            } else {
                decimal_count(d) == Err::<u64, ParseFieldErrorKind>(ParseFieldErrorKind::TooLarge)
            }
        }),
{
    let total = d.digits.len() as int;
    let split = point_split(d);
    let k = (d.fraction_len - d.exponent) as nat;
    let front = d.digits.subrange(0, split);
    let rest = d.digits.subrange(split, total);
    let mantissa = digits_value(d.digits) as int;
    let whole = digits_value(front) as int;
    let low = digits_value(rest) as int;
    lemma_digits_value_split(d.digits, split);
    lemma_digits_value_bound(rest);
    lemma_digits_value_zero(rest);
    lemma_pow10_positive(k);
    lemma_pow10_increases((total - split) as nat, k);
    if total - k >= 0 {
        assert(total - split == k);
        lemma_fundamental_div_mod_converse(mantissa, pow10(k) as int, whole, low);
    } else {
        assert(split == 0);
        assert(front =~= Seq::<u8>::empty());
        assert(whole == 0);
        assert(whole * pow10((total - split) as nat) == 0) by (nonlinear_arith)
            requires
                whole == 0,
        ;
        assert(mantissa == 0 * pow10(k) + low) by (nonlinear_arith)
            requires
                mantissa == low,
        ;
        lemma_fundamental_div_mod_converse(mantissa, pow10(k) as int, 0, low);
    }
    assert(mantissa % (pow10(k) as int) == low);
    assert(mantissa / (pow10(k) as int) == whole);
    if exists|i: int| 0 <= i < rest.len() && rest[i] != DIGIT_0 {
        assert(low != 0);
    } else {
        assert(low == 0);
    }
}

/// Copies the digits before and after the decimal point into one vector.
fn mantissa_digits(body: &[u8], parts: &Parts) -> (digits: Vec<u8>)
    requires
        parts.int_end <= parts.frac_start <= parts.frac_end <= body.len(),
    ensures
        digits@ == body@.subrange(0, parts.int_end as int) + body@.subrange(
            parts.frac_start as int,
            parts.frac_end as int,
        ),
{
    let mut digits: Vec<u8> = Vec::new();
    let mut i: usize = 0;
    while i < parts.int_end
        invariant
            i <= parts.int_end <= body.len(),
            digits@ == body@.subrange(0, i as int),
        decreases parts.int_end - i,
    {
        digits.push(body[i]);
        i = i + 1;
        assert(digits@ =~= body@.subrange(0, i as int));
    }
    let mut j: usize = parts.frac_start;
    while j < parts.frac_end
        invariant
            parts.frac_start <= j <= parts.frac_end <= body.len(),
            digits@ == body@.subrange(0, parts.int_end as int) + body@.subrange(
                parts.frac_start as int,
                j as int,
            ),
        decreases parts.frac_end - j,
    {
        digits.push(body[j]);
        j = j + 1;
        assert(digits@ =~= body@.subrange(0, parts.int_end as int) + body@.subrange(
            parts.frac_start as int,
            j as int,
        ));
    }
    digits
}

/// The count that a decimal literal denotes.
#[verifier::loop_isolation(false)]
fn count_of(body: &[u8], parts: &Parts, Ghost(d): Ghost<Decimal>) -> (r: Result<
    u64,
    ParseFieldErrorKind,
>)
    requires
        parts.describes(body@, d),
    ensures
        r == decimal_count(d),
{
    let digits = mantissa_digits(body, parts);
    let total: usize = digits.len();
    let magnitude: u128 = capped_value(body, parts.exp_start, parts.exp_end);
    let point: i128 = if parts.exp_negative {
        parts.int_end as i128 - magnitude as i128
    } else {
        parts.int_end as i128 + magnitude as i128
    };
    let split: usize = if point <= 0 {
        0
    } else if point >= total as i128 {
        total
    } else {
        point as usize
    };
    let ghost shift = d.exponent - d.fraction_len;
    proof {
        assert(all_digits(d.digits));
        assert(total == parts.int_end + d.fraction_len);
        assert(split == point_split(d));
        if shift < 0 {
            lemma_count_with_fraction(d);
        }
    }
    let mut j: usize = split;
    while j < total
        invariant
            split <= j <= total,
            total == digits.len(),
            forall|i: int| split <= i < j ==> #[trigger] digits@[i] == DIGIT_0,
        decreases total - j,
    {
        if digits[j] != DIGIT_0 {
            proof {
                let rest = digits@.subrange(split as int, total as int);
                assert(rest[j - split] != DIGIT_0);
            }
            return Err(ParseFieldErrorKind::NotAnInteger);
        }
        j = j + 1;
    }
    proof {
        let rest = digits@.subrange(split as int, total as int);
        assert forall|i: int| 0 <= i < rest.len() implies rest[i] == DIGIT_0 by {
            assert(rest[i] == digits@[split + i]);
        }
    }
    let ghost whole = digits_value(digits@.subrange(0, split as int));
    let mut value: u64 = 0;
    let mut j: usize = 0;
    while j < split
        invariant
            j <= split <= total,
            total == digits.len(),
            all_digits(digits@),
            value == digits_value(digits@.subrange(0, j as int)),
            whole == digits_value(digits@.subrange(0, split as int)),
        decreases split - j,
    {
        let digit: u64 = (digits[j] - DIGIT_0) as u64;
        proof {
            let next = digits@.subrange(0, j + 1);
            assert(next.drop_last() =~= digits@.subrange(0, j as int));
            assert(next.last() == digits@[j as int]);
        }
        if value > (u64::MAX - digit) / 10 {
            proof {
                let front = digits@.subrange(0, split as int);
                assert(all_digits(front));
                lemma_digits_value_split(front, j + 1);
                assert(front.subrange(0, j + 1) =~= digits@.subrange(0, j + 1));
                lemma_pow10_positive((split - (j + 1)) as nat);
                let head = digits_value(front.subrange(0, j + 1)) as int;
                let scale = pow10((split - (j + 1)) as nat) as int;
                assert(head * scale >= head) by (nonlinear_arith)
                    requires
                        head >= 0,
                        scale >= 1,
                ;
                assert(whole > u64::MAX);
                if shift >= 0 {
                    assert(digits@.subrange(0, split as int) =~= digits@);
                    lemma_pow10_positive(shift as nat);
                    assert(whole * pow10(shift as nat) >= whole) by (nonlinear_arith)
                        requires
                            whole >= 0,
                            pow10(shift as nat) >= 1,
                    ;
                }
            }
            return Err(ParseFieldErrorKind::TooLarge);
        }
        value = value * 10 + digit;
        j = j + 1;
    }
    if point <= total as i128 || value == 0 {
        proof {
            if shift >= 0 {
                assert(digits@.subrange(0, split as int) =~= digits@);
                if value == 0 {
                    assert(0 * pow10(shift as nat) == 0) by (nonlinear_arith);
                } else {
                    assert(shift == 0);
                    assert(pow10(0) == 1);
                    assert(whole * 1 == whole) by (nonlinear_arith);
                }
            }
        }
        return Ok(value);
    }
    assert(shift > 0);
    assert(digits@.subrange(0, split as int) =~= digits@);
    let mut remaining: i128 = point - total as i128;
    let ghost steps = remaining as int;
    let ghost done: nat = 0;
    proof {
        assert(pow10(0) == 1);
        assert(whole * 1 == whole) by (nonlinear_arith);
    }
    while remaining > 0
        invariant
            0 <= remaining,
            remaining == steps - done,
            steps <= shift,
            magnitude < EXPONENT_CAP ==> steps == shift,
            magnitude == EXPONENT_CAP ==> steps > 20,
            whole >= 1,
            value == whole * pow10(done),
        decreases remaining,
    {
        if value > u64::MAX / 10 {
            proof {
                lemma_pow10_increases(done + 1, shift as nat);
                assert(whole * pow10(done + 1) == 10 * (whole * pow10(done))) by (nonlinear_arith)
                    requires
                        pow10(done + 1) == 10 * pow10(done),
                ;
                assert(whole * pow10(shift as nat) >= whole * pow10(done + 1)) by (nonlinear_arith)
                    requires
                        whole >= 1,
                        pow10(shift as nat) >= pow10(done + 1),
                ;
            }
            return Err(ParseFieldErrorKind::TooLarge);
        }
        proof {
            assert(whole * pow10(done + 1) == 10 * (whole * pow10(done))) by (nonlinear_arith)
                requires
                    pow10(done + 1) == 10 * pow10(done),
            ;
        }
        value = value * 10;
        remaining = remaining - 1;
        proof {
            done = done + 1;
        }
    }
    proof {
        if magnitude == EXPONENT_CAP {
            lemma_pow10_twenty();
            lemma_pow10_increases(20, done);
            assert(whole * pow10(done) >= pow10(done)) by (nonlinear_arith)
                requires
                    whole >= 1,
                    pow10(done) >= 0,
            ;
        }
    }
    Ok(value)
}

impl InteractionField {
    /// Reads a count from the text of a field.
    pub fn parse(field_value: &str) -> (r: Result<u64, ParseFieldErrorKind>)
        ensures
            r == field_count(field_value.spec_bytes()),
    {
        let token = field_value.as_bytes();
        if token.len() == 0 {
            return Err(ParseFieldErrorKind::ParseFloat(FloatSyntaxError::Empty));
        }
        let negative = token[0] == MINUS;
        let start: usize = if token[0] == PLUS || token[0] == MINUS {
            1
        } else {
            0
        };
        let body = slice_subrange(token, start, token.len());
        proof {
            assert(body@ =~= token@.skip(start as int));
        }
        if spells_inf(body) || spells_infinity(body) || spells_nan(body) {
            return Err(
                if negative {
                    ParseFieldErrorKind::IsNegative
                } else {
                    ParseFieldErrorKind::NotAnInteger
                },
            );
        }
        match scan_decimal(body) {
            None => Err(ParseFieldErrorKind::ParseFloat(FloatSyntaxError::Invalid)),
            Some(parts) => if negative {
                Err(ParseFieldErrorKind::IsNegative)
            } else {
                count_of(body, &parts, Ghost(decimal(body@)->0))
            },
        }
    }
}

} // verus!
