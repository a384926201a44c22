//! Prices as exact decimal numbers, and their display form.

use crate::text::chars_of;
use vstd::prelude::*;

verus! {

/// A decimal number written out in digits: the mathematical value of a
/// [`Price`].
///
/// `whole` holds the digits before the decimal point and `fraction` those
/// after it, each digit a number from 0 to 9, the most significant first.
pub struct Decimal {
    pub negative: bool,
    pub whole: Seq<u8>,
    pub fraction: Seq<u8>,
}

/// The number that `digits` write, the most significant digit first.
pub open spec fn digits_value(digits: Seq<u8>) -> nat
    decreases digits.len(),
{
    if digits.len() == 0 {
        0
    } else {
        digits_value(digits.drop_last()) * 10 + digits.last() as nat
    }
}

/// Ten to the power of `n`.
pub open spec fn power_of_ten(n: nat) -> nat
    decreases n,
{
    if n == 0 {
        1
    } else {
        10 * power_of_ten((n - 1) as nat)
    }
}

impl Decimal {
    /// The digits of the number read without the decimal point. The number
    /// itself is this value divided by ten to the power of `self.scale()`,
    /// with the sign.
    pub open spec fn unscaled(self) -> nat {
        digits_value(self.whole + self.fraction)
    }

    /// The number of digits after the decimal point.
    pub open spec fn scale(self) -> nat {
        self.fraction.len()
    }

    /// The number is zero.
    pub open spec fn is_zero(self) -> bool {
        &&& forall|i: int| 0 <= i < self.whole.len() ==> self.whole[i] == 0
        &&& forall|i: int| 0 <= i < self.fraction.len() ==> self.fraction[i] == 0
    }

    /// The number equals its rounded integer: no digit follows the decimal
    /// point. This reads a number in canonical form, where the fraction ends
    /// in a digit other than zero.
    pub open spec fn is_integral(self) -> bool {
        self.fraction.len() == 0
    }

    /// The number is in canonical form, the one form in which each number is
    /// written: at least one digit before the point and none of them a
    /// needless leading zero, no trailing zero after the point, and no sign
    /// on zero.
    pub open spec fn wf(self) -> bool {
        &&& self.whole.len() >= 1
        &&& forall|i: int| 0 <= i < self.whole.len() ==> self.whole[i] <= 9
        &&& forall|i: int| 0 <= i < self.fraction.len() ==> self.fraction[i] <= 9
        &&& self.whole.len() > 1 ==> self.whole[0] != 0
        &&& self.fraction.len() > 0 ==> self.fraction.last() != 0
        &&& self.negative ==> !self.is_zero()
    }
}

/// The price of a dish: an exact decimal number in canonical form.
#[derive(Debug, PartialEq, Eq)]
pub struct Price {
    negative: bool,
    whole: Vec<u8>,
    fraction: Vec<u8>,
}

impl View for Price {
    type V = Decimal;

    closed spec fn view(&self) -> Decimal {
        Decimal { negative: self.negative, whole: self.whole@, fraction: self.fraction@ }
    }
}

impl Price {
    #[verifier::type_invariant]
    spec fn canonical(self) -> bool {
        self@.wf()
    }
}

impl Clone for Price {
    fn clone(&self) -> (copy: Price)
        ensures
            copy@ == self@,
            self@.wf(),
    {
        proof {
            use_type_invariant(self);
        }
        Price {
            negative: self.negative,
            whole: self.whole.clone(),
            fraction: self.fraction.clone(),
        }
    }
}

/// The value of an optional price.
pub open spec fn price_value(price: Option<Price>) -> Option<Decimal> {
    match price {
        Some(p) => Some(p@),
        None => None,
    }
}

/// `c` is one of the ten decimal digits.
pub open spec fn is_digit(c: char) -> bool {
    '0' <= c <= '9'
}

/// The number that the digit `c` stands for.
pub open spec fn digit_value(c: char) -> u8 {
    (c as int - '0' as int) as u8
}

/// The character that writes the digit `d`.
pub open spec fn digit_char(d: u8) -> char {
    ('0' as int + d) as char
}

/// Every character of `text` is a decimal digit.
pub open spec fn all_digits(text: Seq<char>) -> bool {
    forall|i: int| 0 <= i < text.len() ==> is_digit(#[trigger] text[i])
}

/// The numbers that the digits of `text` stand for.
pub open spec fn digits_of(text: Seq<char>) -> Seq<u8> {
    text.map_values(|c: char| digit_value(c))
}

/// The characters that write `digits`.
pub open spec fn chars_of_digits(digits: Seq<u8>) -> Seq<char> {
    digits.map_values(|d: u8| digit_char(d))
}

/// The place of the first `mark` in `text`, or the length of `text` if it
/// holds none.
pub open spec fn first_index_of(text: Seq<char>, mark: char) -> int
    decreases text.len(),
{
    if text.len() == 0 || text[0] == mark {
        0
    } else {
        1 + first_index_of(text.drop_first(), mark)
    }
}

/// `digits` without its leading zeros; the last digit always stays.
pub open spec fn without_leading_zeros(digits: Seq<u8>) -> Seq<u8>
    decreases digits.len(),
{
    if digits.len() > 1 && digits[0] == 0 {
        without_leading_zeros(digits.drop_first())
    } else {
        digits
    }
}

/// `digits` without its trailing zeros.
pub open spec fn without_trailing_zeros(digits: Seq<u8>) -> Seq<u8>
    decreases digits.len(),
{
    if digits.len() > 0 && digits.last() == 0 {
        without_trailing_zeros(digits.drop_last())
    } else {
        digits
    }
}

/// The number written with the digits `whole` before the decimal point and
/// `fraction` after it, in canonical form. Zero carries no sign.
pub open spec fn decimal_of(negative: bool, whole: Seq<u8>, fraction: Seq<u8>) -> Decimal {
    let unsigned = Decimal {
        negative: false,
        whole: without_leading_zeros(whole),
        fraction: without_trailing_zeros(fraction),
    };
    Decimal { negative: negative && !unsigned.is_zero(), ..unsigned }
}

/// The number that `text` writes, with `mark` as the decimal separator.
///
/// A number is written as an optional minus sign, one or more digits, and
/// optionally the separator followed by one or more digits. Any other text
/// writes no number.
pub open spec fn parsed(text: Seq<char>, mark: char) -> Option<Decimal> {
    let signed = text.len() > 0 && text[0] == '-';
    let body = if signed {
        text.drop_first()
    } else {
        text
    };
    let cut = first_index_of(body, mark);
    let whole = body.take(cut);
    let fraction = if cut < body.len() {
        body.skip(cut + 1)
    } else {
        Seq::empty()
    };
    if whole.len() > 0 && all_digits(whole) && all_digits(fraction) && (cut < body.len()
        ==> fraction.len() > 0) {
        Some(decimal_of(signed, digits_of(whole), digits_of(fraction)))
    } else {
        None
    }
}

/// The currency suffix that ends a displayed price.
pub open spec fn currency_suffix() -> Seq<char> {
    seq![' ', 'P', 'L', 'N']
}

/// The minus sign of a negative number, and nothing for any other.
pub open spec fn sign_of(d: Decimal) -> Seq<char> {
    if d.negative {
        seq!['-']
    } else {
        Seq::empty()
    }
}

/// The number `d` written out with `mark` as the decimal separator: the
/// integer alone where `d` equals its rounded integer, else the integer part,
/// the separator, and the digits of the fraction.
pub open spec fn numeral(d: Decimal, mark: char) -> Seq<char> {
    if d.is_integral() {
        sign_of(d) + chars_of_digits(d.whole)
    } else {
        sign_of(d) + chars_of_digits(d.whole) + seq![mark] + chars_of_digits(d.fraction)
    }
}

/// The display form of the price `d`: the number, with a comma as the
/// decimal separator, followed by the currency suffix.
pub open spec fn formatted(d: Decimal) -> Seq<char> {
    numeral(d, ',') + currency_suffix()
}

/// The number that a displayed price shows: the text in front of the
/// currency suffix, read with the comma as the decimal separator.
pub open spec fn read_back(text: Seq<char>) -> Option<Decimal> {
    let n = text.len() - currency_suffix().len();
    if n >= 0 && text.skip(n) == currency_suffix() {
        parsed(text.take(n), ',')
    } else {
        None
    }
}

/// Where the first `mark` of a text stands: nothing before that place is the
/// mark, and the place holds the mark unless it is the end of the text.
pub proof fn lemma_first_index_of(text: Seq<char>, mark: char)
    ensures
        0 <= first_index_of(text, mark) <= text.len(),
        forall|j: int| 0 <= j < first_index_of(text, mark) ==> text[j] != mark,
        first_index_of(text, mark) < text.len() ==> text[first_index_of(text, mark)] == mark,
    decreases text.len(),
{
    if !(text.len() == 0 || text[0] == mark) {
        let rest = text.drop_first();
        lemma_first_index_of(rest, mark);
        assert forall|j: int| 0 <= j < first_index_of(text, mark) implies text[j] != mark by {
            if j > 0 {
                assert(rest[j - 1] == text[j]);
            }
        }
    }
}

/// A place that holds the mark, with no mark before it, is the first.
pub proof fn lemma_first_index_found(text: Seq<char>, mark: char, cut: int)
    requires
        0 <= cut <= text.len(),
        forall|j: int| 0 <= j < cut ==> text[j] != mark,
        cut < text.len() ==> text[cut] == mark,
    ensures
        first_index_of(text, mark) == cut,
{
    lemma_first_index_of(text, mark);
}

/// Digits written as characters read back as the same digits.
pub proof fn lemma_digits_round_trip(digits: Seq<u8>)
    requires
        forall|i: int| 0 <= i < digits.len() ==> digits[i] <= 9,
    ensures
        all_digits(chars_of_digits(digits)),
        digits_of(chars_of_digits(digits)) == digits,
{
    assert(digits_of(chars_of_digits(digits)) =~= digits);
}

/// Canonical digits have no zero to strip.
proof fn lemma_canonical_digits_stay(d: Decimal)
    requires
        d.wf(),
    ensures
        without_leading_zeros(d.whole) == d.whole,
        without_trailing_zeros(d.fraction) == d.fraction,
        decimal_of(d.negative, d.whole, d.fraction) == d,
{
}

/// Stripping zeros leaves canonical digits.
proof fn lemma_decimal_of_is_canonical(negative: bool, whole: Seq<u8>, fraction: Seq<u8>)
    requires
        whole.len() >= 1,
        forall|i: int| 0 <= i < whole.len() ==> whole[i] <= 9,
        forall|i: int| 0 <= i < fraction.len() ==> fraction[i] <= 9,
    ensures
        decimal_of(negative, whole, fraction).wf(),
{
    lemma_leading_zeros_stripped(whole);
    lemma_trailing_zeros_stripped(fraction);
}

/// What is left once the leading zeros are stripped: a tail of the digits
/// that starts with a digit other than zero, unless it is a single digit.
proof fn lemma_leading_zeros_stripped(digits: Seq<u8>)
    requires
        digits.len() >= 1,
    ensures
        1 <= without_leading_zeros(digits).len() <= digits.len(),
        without_leading_zeros(digits).len() > 1 ==> without_leading_zeros(digits)[0] != 0,
        without_leading_zeros(digits) == digits.skip(
            digits.len() - without_leading_zeros(digits).len(),
        ),
    decreases digits.len(),
{
    if digits.len() > 1 && digits[0] == 0 {
        let rest = digits.drop_first();
        lemma_leading_zeros_stripped(rest);
        let kept = without_leading_zeros(rest);
        assert(rest.skip(rest.len() - kept.len()) =~= digits.skip(digits.len() - kept.len()));
    } else {
        assert(digits.skip(0) =~= digits);
    }
}

/// What is left once the trailing zeros are stripped: a head of the digits
/// that does not end in zero.
proof fn lemma_trailing_zeros_stripped(digits: Seq<u8>)
    ensures
        without_trailing_zeros(digits).len() <= digits.len(),
        without_trailing_zeros(digits).len() > 0 ==> without_trailing_zeros(digits).last() != 0,
        without_trailing_zeros(digits) == digits.take(without_trailing_zeros(digits).len() as int),
    decreases digits.len(),
{
    if digits.len() > 0 && digits.last() == 0 {
        let rest = digits.drop_last();
        lemma_trailing_zeros_stripped(rest);
        let kept = without_trailing_zeros(rest);
        assert(rest.take(kept.len() as int) =~= digits.take(kept.len() as int));
    } else {
        assert(digits.take(digits.len() as int) =~= digits);
    }
}

/// A number that was written out reads back as the same number, whatever
/// the decimal separator is, as long as it is no digit and no minus sign.
pub proof fn lemma_numeral_round_trip(d: Decimal, mark: char)
    requires
        d.wf(),
        !is_digit(mark),
        mark != '-',
    ensures
        parsed(numeral(d, mark), mark) == Some(d),
{
    let shown = numeral(d, mark);
    let whole_text = chars_of_digits(d.whole);
    let fraction_text = chars_of_digits(d.fraction);
    lemma_digits_round_trip(d.whole);
    lemma_digits_round_trip(d.fraction);
    assert(is_digit(whole_text[0]));
    let signed = shown.len() > 0 && shown[0] == '-';
    assert(signed == d.negative);
    let body = if signed {
        shown.drop_first()
    } else {
        shown
    };
    let tail = if d.is_integral() {
        Seq::<char>::empty()
    } else {
        seq![mark] + fraction_text
    };
    assert(body =~= whole_text + tail);
    let cut = d.whole.len() as int;
    assert forall|j: int| 0 <= j < cut implies body[j] != mark by {
        assert(is_digit(whole_text[j]));
    }
    lemma_first_index_found(body, mark, cut);
    assert(body.take(cut) =~= whole_text);
    let fraction = if cut < body.len() {
        body.skip(cut + 1)
    } else {
        Seq::empty()
    };
    assert(fraction =~= fraction_text);
    lemma_canonical_digits_stay(d);
    assert(parsed(shown, mark) == Some(
        decimal_of(signed, digits_of(whole_text), digits_of(fraction_text)),
    ));
}

/// A displayed price reads back as the price it displays. So formatting
/// what was read back from a displayed price gives the same text again.
pub proof fn lemma_format_round_trip(d: Decimal)
    requires
        d.wf(),
    ensures
        read_back(formatted(d)) == Some(d),
        formatted(read_back(formatted(d)).unwrap()) == formatted(d),
{
    let text = formatted(d);
    let n = text.len() - currency_suffix().len();
    assert(text.skip(n) =~= currency_suffix());
    assert(text.take(n) =~= numeral(d, ','));
    lemma_numeral_round_trip(d, ',');
}

/// A displayed price holds no ampersand, the character that escaping
/// rewrites.
pub proof fn lemma_formatted_has_no_ampersand(d: Decimal)
    requires
        d.wf(),
    ensures
        forall|i: int| 0 <= i < formatted(d).len() ==> formatted(d)[i] != '&',
{
    lemma_digits_round_trip(d.whole);
    lemma_digits_round_trip(d.fraction);
    let whole_text = chars_of_digits(d.whole);
    let fraction_text = chars_of_digits(d.fraction);
    let text = formatted(d);
    assert forall|i: int| 0 <= i < text.len() implies text[i] != '&' by {
        let sign = sign_of(d).len();
        if i < sign {
        } else if i < sign + whole_text.len() {
            assert(text[i] == whole_text[i - sign]);
            assert(is_digit(whole_text[i - sign]));
        } else if d.fraction.len() > 0 && i == sign + whole_text.len() {
        } else if d.fraction.len() > 0 && i < sign + whole_text.len() + 1 + fraction_text.len() {
            let k = i - sign - whole_text.len() - 1;
            assert(text[i] == fraction_text[k]);
            assert(is_digit(fraction_text[k]));
        } else {
        }
    }
}

/// A zero in front of the digits does not change the number they write.
proof fn lemma_leading_zero_is_nothing(digits: Seq<u8>)
    ensures
        digits_value(seq![0u8] + digits) == digits_value(digits),
    decreases digits.len(),
{
    let longer = seq![0u8] + digits;
    if digits.len() == 0 {
        assert(longer.drop_last() =~= Seq::<u8>::empty());
        assert(digits_value(longer.drop_last()) == 0);
    } else {
        lemma_leading_zero_is_nothing(digits.drop_last());
        assert(longer.drop_last() =~= seq![0u8] + digits.drop_last());
    }
}

/// Leading zeros do not change the number that the digits write.
proof fn lemma_leading_zeros_are_nothing(whole: Seq<u8>, fraction: Seq<u8>)
    ensures
        digits_value(without_leading_zeros(whole) + fraction) == digits_value(whole + fraction),
    decreases whole.len(),
{
    if whole.len() > 1 && whole[0] == 0 {
        let rest = whole.drop_first();
        lemma_leading_zeros_are_nothing(rest, fraction);
        lemma_leading_zero_is_nothing(rest + fraction);
        assert(seq![0u8] + (rest + fraction) =~= whole + fraction);
    }
}

/// Each trailing zero that is stripped divides the unscaled number by ten.
proof fn lemma_trailing_zeros_scale(whole: Seq<u8>, fraction: Seq<u8>)
    ensures
        without_trailing_zeros(fraction).len() <= fraction.len(),
        digits_value(whole + fraction) == digits_value(whole + without_trailing_zeros(fraction))
            * power_of_ten((fraction.len() - without_trailing_zeros(fraction).len()) as nat),
    decreases fraction.len(),
{
    if fraction.len() > 0 && fraction.last() == 0 {
        let rest = fraction.drop_last();
        lemma_trailing_zeros_scale(whole, rest);
        let kept = without_trailing_zeros(rest);
        let k = (rest.len() - kept.len()) as nat;
        assert((whole + fraction).drop_last() =~= whole + rest);
        assert(digits_value(whole + fraction) == digits_value(whole + rest) * 10);
        assert(power_of_ten(k + 1) == 10 * power_of_ten(k));
        let value = digits_value(whole + kept);
        assert(value * power_of_ten(k) * 10 == value * (10 * power_of_ten(k)))
            by (nonlinear_arith);
        assert(without_trailing_zeros(fraction) == kept);
        assert((fraction.len() - kept.len()) as nat == k + 1);
    } else {
        assert(without_trailing_zeros(fraction) == fraction);
        assert(power_of_ten(0) == 1);
        assert(digits_value(whole + fraction) * 1 == digits_value(whole + fraction))
            by (nonlinear_arith);
    }
}

/// The canonical form of a number is the same number: where `fraction`
/// loses trailing zeros, the unscaled value and the scale shrink together.
pub proof fn lemma_canonical_form_keeps_the_number(
    negative: bool,
    whole: Seq<u8>,
    fraction: Seq<u8>,
)
    ensures
        decimal_of(negative, whole, fraction).scale() <= fraction.len(),
        digits_value(whole + fraction) == decimal_of(negative, whole, fraction).unscaled()
            * power_of_ten(
            (fraction.len() - decimal_of(negative, whole, fraction).scale()) as nat,
        ),
{
    lemma_trailing_zeros_scale(whole, fraction);
    lemma_leading_zeros_are_nothing(whole, without_trailing_zeros(fraction));
}

/// A number in canonical form equals its rounded integer exactly if it is
/// written without a fraction: a fraction that is written ends in a digit
/// other than zero, so the number is no multiple of one.
pub proof fn lemma_integral_means_whole_number(d: Decimal)
    requires
        d.wf(),
    ensures
        d.is_integral() <==> d.unscaled() % power_of_ten(d.scale()) == 0,
{
    if d.is_integral() {
        assert(power_of_ten(0) == 1);
    } else {
        let digits = d.whole + d.fraction;
        let scale = d.scale();
        assert(digits.last() == d.fraction.last());
        let head = digits_value(digits.drop_last());
        let last = digits.last() as nat;
        assert(d.unscaled() == head * 10 + last);
        let rest = power_of_ten((scale - 1) as nat);
        assert(power_of_ten(scale) == 10 * rest);
        assert(0 < last < 10);
        assert(d.unscaled() % power_of_ten(scale) != 0) by {
            lemma_power_of_ten_is_positive((scale - 1) as nat);
            lemma_last_digit_blocks_division(head, last, rest);
        }
    }
}

/// Powers of ten are positive.
proof fn lemma_power_of_ten_is_positive(n: nat)
    ensures
        power_of_ten(n) > 0,
    decreases n,
{
    if n > 0 {
        lemma_power_of_ten_is_positive((n - 1) as nat);
    }
}

/// A number whose last digit is not zero is no multiple of a multiple of
/// ten.
proof fn lemma_last_digit_blocks_division(head: nat, last: nat, rest: nat)
    requires
        0 < last < 10,
        rest > 0,
    ensures
        (head * 10 + last) % (10 * rest) != 0,
{
    let n = head * 10 + last;
    let m = 10 * rest;
    if n % m == 0 {
        let q = n / m;
        assert(n == q * m) by {
            vstd::arithmetic::div_mod::lemma_fundamental_div_mod(n as int, m as int);
            assert(m * q == q * m) by (nonlinear_arith);
        }
        assert(q * (10 * rest) == (q * rest) * 10) by (nonlinear_arith);
        assert(last == (q * rest) * 10 - head * 10);
        assert((q * rest) * 10 - head * 10 == (q * rest - head) * 10) by (nonlinear_arith);
        let t = q * rest - head;
        assert(last == t * 10);
        assert(false) by (nonlinear_arith)
            requires
                0 < last < 10,
                last == t * 10,
        ;
    }
}

/// What is read from a text is a number in canonical form.
pub proof fn lemma_parsed_is_canonical(text: Seq<char>, mark: char)
    ensures
        parsed(text, mark) matches Some(d) ==> d.wf(),
{
    if parsed(text, mark) is Some {
        let signed = text.len() > 0 && text[0] == '-';
        let body = if signed {
            text.drop_first()
        } else {
            text
        };
        let cut = first_index_of(body, mark);
        lemma_first_index_of(body, mark);
        let whole = body.take(cut);
        let fraction = if cut < body.len() {
            body.skip(cut + 1)
        } else {
            Seq::empty()
        };
        assert forall|i: int| 0 <= i < digits_of(whole).len() implies digits_of(whole)[i]
            <= 9 by {
            assert(is_digit(whole[i]));
        }
        assert forall|i: int| 0 <= i < digits_of(fraction).len() implies digits_of(fraction)[i]
            <= 9 by {
            assert(is_digit(fraction[i]));
        }
        lemma_decimal_of_is_canonical(signed, digits_of(whole), digits_of(fraction));
    }
}

/// Whether `c` is a decimal digit.
fn is_digit_char(c: char) -> (b: bool)
    ensures
        b == is_digit(c),
{
    '0' <= c && c <= '9'
}

/// The number that the digit `c` stands for.
fn value_of_digit(c: char) -> (d: u8)
    requires
        is_digit(c),
    ensures
        d == digit_value(c),
        d <= 9,
{
    (c as u32 - '0' as u32) as u8
}

/// The character that writes the digit `d`.
pub(crate) fn char_of_digit(d: u8) -> (c: char)
    requires
        d <= 9,
    ensures
        c == digit_char(d),
{
    (48u8 + d) as char
}

/// Appends the characters that write `digits` to `out`.
fn push_digits(out: &mut String, digits: &Vec<u8>)
    requires
        forall|i: int| 0 <= i < digits.len() ==> digits@[i] <= 9,
    ensures
        final(out)@ == old(out)@ + chars_of_digits(digits@),
{
    let mut i: usize = 0;
    while i < digits.len()
        invariant
            i <= digits.len(),
            forall|i: int| 0 <= i < digits.len() ==> digits@[i] <= 9,
            out@ == old(out)@ + chars_of_digits(digits@.take(i as int)),
        decreases digits.len() - i,
    {
        out.push(char_of_digit(digits[i]));
        proof {
            assert(chars_of_digits(digits@.take(i + 1)) =~= chars_of_digits(
                digits@.take(i as int),
            ).push(digit_char(digits@[i as int])));
        }
        i = i + 1;
    }
    proof {
        assert(digits@.take(digits.len() as int) == digits@);
    }
}

/// The decimal digit characters of `chars` from `from` up to `to`, as
/// numbers; `None` if one of the characters is no digit.
fn read_digits(chars: &Vec<char>, from: usize, to: usize) -> (digits: Option<Vec<u8>>)
    requires
        from <= to <= chars.len(),
    ensures
        digits is Some <==> all_digits(chars@.subrange(from as int, to as int)),
        digits matches Some(ds) ==> {
            &&& ds@ == digits_of(chars@.subrange(from as int, to as int))
            &&& forall|i: int| 0 <= i < ds.len() ==> ds@[i] <= 9
        },
{
    let ghost text = chars@.subrange(from as int, to as int);
    let mut digits: Vec<u8> = Vec::new();
    let mut i: usize = from;
    while i < to
        invariant
            from <= i <= to <= chars.len(),
            text == chars@.subrange(from as int, to as int),
            all_digits(text.take(i - from)),
            digits@ == digits_of(text.take(i - from)),
            forall|k: int| 0 <= k < digits.len() ==> digits@[k] <= 9,
        decreases to - i,
    {
        let c = chars[i];
        if !is_digit_char(c) {
            proof {
                assert(text[i - from] == c);
            }
            return None;
        }
        digits.push(value_of_digit(c));
        proof {
            assert(text.take(i + 1 - from) == text.take(i - from).push(c));
            assert(digits_of(text.take(i + 1 - from)) =~= digits_of(text.take(i - from)).push(
                digit_value(c),
            ));
        }
        i = i + 1;
    }
    proof {
        assert(text.take(to - from) == text);
    }
    Some(digits)
}

impl Price {
    /// The number written with the digits `whole` and `fraction`, in
    /// canonical form.
    fn canonical_from(negative: bool, whole: Vec<u8>, fraction: Vec<u8>) -> (price: Price)
        requires
            whole.len() >= 1,
            forall|i: int| 0 <= i < whole.len() ==> whole@[i] <= 9,
            forall|i: int| 0 <= i < fraction.len() ==> fraction@[i] <= 9,
        ensures
            price@ == decimal_of(negative, whole@, fraction@),
    {
        let mut whole = whole;
        let mut fraction = fraction;
        let ghost given_whole = whole@;
        let ghost given_fraction = fraction@;
        let mut zeros: usize = 0;
        proof {
            assert(given_whole.skip(0) == given_whole);
        }
        while zeros + 1 < whole.len() && whole[zeros] == 0
            invariant
                zeros < whole.len(),
                whole@ == given_whole,
                without_leading_zeros(given_whole.skip(zeros as int)) == without_leading_zeros(
                    given_whole,
                ),
            decreases whole.len() - zeros,
        {
            proof {
                assert(given_whole.skip(zeros as int).drop_first() == given_whole.skip(zeros + 1));
            }
            zeros = zeros + 1;
        }
        let kept = whole.split_off(zeros);
        while fraction.len() > 0 && fraction[fraction.len() - 1] == 0
            invariant
                without_trailing_zeros(fraction@) == without_trailing_zeros(given_fraction),
                fraction@.len() <= given_fraction.len(),
                fraction@ == given_fraction.take(fraction@.len() as int),
            decreases fraction.len(),
        {
            let ghost longer = fraction@;
            fraction.pop();
            proof {
                assert(fraction@ == longer.drop_last());
            }
        }
        let is_zero = kept.len() == 1 && kept[0] == 0 && fraction.len() == 0;
        proof {
            lemma_decimal_of_is_canonical(negative, given_whole, given_fraction);
            assert(kept@ == without_leading_zeros(given_whole));
            assert(fraction@ == without_trailing_zeros(given_fraction));
            let unsigned = Decimal { negative: false, whole: kept@, fraction: fraction@ };
            assert(is_zero == unsigned.is_zero()) by {
                if unsigned.is_zero() {
                    if fraction@.len() > 0 {
                        assert(fraction@[fraction@.len() - 1] == 0);
                    }
                    if kept@.len() > 1 {
                        assert(kept@[0] == 0);
                    }
                }
            }
        }
        Price { negative: negative && !is_zero, whole: kept, fraction }
    }

    /// Reads the number that the first `end` characters of `chars` write,
    /// with `mark` as the decimal separator.
    fn parse_chars(chars: &Vec<char>, end: usize, mark: char) -> (price: Option<Price>)
        requires
            end <= chars.len(),
        ensures
            price_value(price) == parsed(chars@.take(end as int), mark),
    {
        let ghost text = chars@.take(end as int);
        let signed = end > 0 && chars[0] == '-';
        let start: usize = if signed {
            1
        } else {
            0
        };
        let ghost body = if signed {
            text.drop_first()
        } else {
            text
        };
        proof {
            assert(body =~= chars@.subrange(start as int, end as int));
            lemma_first_index_of(body, mark);
        }
        let mut i: usize = start;
        while i < end && chars[i] != mark
            invariant
                start <= i <= end <= chars.len(),
                body == chars@.subrange(start as int, end as int),
                forall|j: int| 0 <= j < i - start ==> body[j] != mark,
            decreases end - i,
        {
            i = i + 1;
        }
        proof {
            lemma_first_index_found(body, mark, i - start);
            assert(body.take(i - start) =~= chars@.subrange(start as int, i as int));
            if i < end {
                assert(body.skip(i - start + 1) =~= chars@.subrange(i + 1, end as int));
            }
        }
        if i == start {
            return None;
        }
        let whole = match read_digits(chars, start, i) {
            Some(digits) => digits,
            None => {
                return None;
            },
        };
        let fraction = if i < end {
            if i + 1 == end {
                return None;
            }
            match read_digits(chars, i + 1, end) {
                Some(digits) => digits,
                None => {
                    return None;
                },
            }
        } else {
            proof {
                assert(digits_of(Seq::<char>::empty()) =~= Seq::<u8>::empty());
            }
            Vec::new()
        };
        Some(Price::canonical_from(signed, whole, fraction))
    }

    /// Reads a price written as a decimal number: an optional minus sign,
    /// one or more digits, and optionally a decimal point followed by one or
    /// more digits. Returns `None` for any other text.
    ///
    /// The number is kept exactly, in canonical form: `042.50` and `42.5`
    /// give the same price.
    pub fn parse(text: &str) -> (price: Option<Price>)
        ensures
            price_value(price) == parsed(text@, '.'),
            price matches Some(p) ==> p@.wf(),
    {
        let chars = chars_of(text);
        proof {
            assert(chars@.take(chars.len() as int) == chars@);
            lemma_parsed_is_canonical(text@, '.');
        }
        Price::parse_chars(&chars, chars.len(), '.')
    }

    /// Reads back a displayed price: the number in front of the currency
    /// suffix, with the comma as the decimal separator. Returns `None` for
    /// text that does not end in the suffix or shows no number before it.
    pub fn parse_formatted(text: &str) -> (price: Option<Price>)
        ensures
            price_value(price) == read_back(text@),
            price matches Some(p) ==> p@.wf(),
    {
        let chars = chars_of(text);
        let len = chars.len();
        proof {
            lemma_parsed_is_canonical(text@.take(text@.len() - 4), ',');
        }
        if len < 4 {
            return None;
        }
        let n = len - 4;
        if chars[n] == ' ' && chars[n + 1] == 'P' && chars[n + 2] == 'L' && chars[n + 3] == 'N' {
            proof {
                assert(chars@.skip(n as int) =~= currency_suffix());
            }
            Price::parse_chars(&chars, n, ',')
        } else {
            proof {
                let tail = chars@.skip(n as int);
                assert(tail[0] == chars@[n as int] && tail[1] == chars@[n + 1] && tail[2]
                    == chars@[n + 2] && tail[3] == chars@[n + 3]);
            }
            None
        }
    }

    /// Whether the price equals its rounded integer.
    pub fn is_integral(&self) -> (b: bool)
        ensures
            b == self@.is_integral(),
            self@.wf(),
    {
        proof {
            use_type_invariant(self);
        }
        self.fraction.len() == 0
    }

    /// The price written as a decimal number with a decimal point, the text
    /// that [`Price::parse`] reads back as this price.
    pub fn decimal_text(&self) -> (out: String)
        ensures
            out@ == numeral(self@, '.'),
            parsed(out@, '.') == Some(self@),
            self@.wf(),
    {
        let mut out = String::new();
        push_numeral(&mut out, self, '.');
        proof {
            use_type_invariant(self);
            lemma_numeral_round_trip(self@, '.');
        }
        out
    }
}

/// Appends the number of `price` to `out`, with `mark` as the decimal
/// separator.
fn push_numeral(out: &mut String, price: &Price, mark: char)
    ensures
        final(out)@ == old(out)@ + numeral(price@, mark),
{
    proof {
        use_type_invariant(price);
    }
    if price.negative {
        out.push('-');
    }
    push_digits(out, &price.whole);
    if price.fraction.len() > 0 {
        out.push(mark);
        push_digits(out, &price.fraction);
    }
    proof {
        assert(out@ =~= old(out)@ + numeral(price@, mark));
    }
}

/// Formats a price for display: the number followed by the currency suffix.
///
/// A price that equals its rounded integer is shown as that integer, as in
/// `42 PLN`. Any other price is shown with a comma as the decimal separator,
/// as in `42,5 PLN`.
///
/// The text reads back as the price: formatting what [`Price::parse_formatted`]
/// reads from it gives the same text again.
pub fn do_format_price(price: &Price) -> (out: String)
    ensures
        out@ == formatted(price@),
        read_back(out@) == Some(price@),
        price@.wf(),
{
    let mut out = String::new();
    push_numeral(&mut out, price, ',');
    out.push(' ');
    out.push('P');
    out.push('L');
    out.push('N');
    proof {
        use_type_invariant(price);
        assert(out@ =~= formatted(price@));
        lemma_format_round_trip(price@);
    }
    out
}

/// Formats an optional price for display; `placeholder` is shown for a price
/// that is not listed.
pub fn format_price_or(price: Option<&Price>, placeholder: &str) -> (out: String)
    ensures
        out@ == match price {
            Some(p) => formatted(p@),
            None => placeholder@,
        },
{
    match price {
        Some(p) => do_format_price(p),
        None => placeholder.to_owned(),
    }
}

/// Formats an optional price for display; a price that is not listed is
/// shown as nothing.
pub fn format_price(price: Option<&Price>) -> (out: String)
    ensures
        out@ == match price {
            Some(p) => formatted(p@),
            None => Seq::<char>::empty(),
        },
{
    match price {
        Some(p) => do_format_price(p),
        None => String::new(),
    }
}

} // verus!
