//! Exact decimal numbers, as a device writes them: a sign, the digits before
//! the point and the digits after it. Nothing is rounded.

use crate::chars::first_index;
use crate::chars::lemma_first_index_bounds;
use crate::chars::lemma_first_index_is;
use vstd::prelude::*;

verus! {

/// The number that the decimal digits `digits` write, most significant first.
pub open spec fn digits_value(digits: Seq<u8>) -> nat
    decreases digits.len(),
{
    if digits.len() == 0 {
        0
    } else {
        digits_value(digits.drop_last()) * 10 + digits.last() as nat
    }
}

/// Ten to the power of `n`.
pub open spec fn pow10(n: nat) -> nat
    decreases n,
{
    if n == 0 {
        1
    } else {
        10 * pow10((n - 1) as nat)
    }
}

/// Whether every item of `digits` is a decimal digit, 0 to 9.
pub open spec fn are_digits(digits: Seq<u8>) -> bool {
    forall|i: int| 0 <= i < digits.len() ==> #[trigger] digits[i] <= 9
}

/// `n` zeros.
pub open spec fn zeros(n: nat) -> Seq<u8> {
    Seq::new(n, |i: int| 0u8)
}

/// The decimal digits of `n`, most significant first, without leading zeros.
/// Zero is written as one digit.
pub open spec fn decimal_digits(n: nat) -> Seq<u8>
    decreases n,
{
    if n < 10 {
        seq![n as u8]
    } else {
        decimal_digits(n / 10).push((n % 10) as u8)
    }
}

/// `digits` with zeros put before it until it has at least `width` digits.
pub open spec fn pad_left(digits: Seq<u8>, width: nat) -> Seq<u8> {
    if digits.len() >= width {
        digits
    } else {
        zeros((width - digits.len()) as nat) + digits
    }
}

/// `digits` with zeros put behind it until it has at least `width` digits.
pub open spec fn pad_right(digits: Seq<u8>, width: nat) -> Seq<u8> {
    if digits.len() >= width {
        digits
    } else {
        digits + zeros((width - digits.len()) as nat)
    }
}

/// Whether `c` is one of the characters `0` to `9`.
pub open spec fn is_digit(c: char) -> bool {
    48 <= c as u32 <= 57
}

/// The digit that the character `c` writes.
pub open spec fn digit_of(c: char) -> u8 {
    (c as u32 - 48) as u8
}

/// The character that writes the digit `d`.
pub open spec fn char_of_digit(d: u8) -> char {
    (d + 48) as u8 as char
}

/// Whether `text` holds nothing but the characters `0` to `9`.
pub open spec fn all_digits(text: Seq<char>) -> bool {
    forall|i: int| 0 <= i < text.len() ==> is_digit(#[trigger] text[i])
}

/// The digits that the characters of `text` write.
pub open spec fn digits_of_text(text: Seq<char>) -> Seq<u8> {
    Seq::new(text.len(), |i: int| digit_of(text[i]))
}

/// The characters that write `digits`.
pub open spec fn text_of_digits(digits: Seq<u8>) -> Seq<char> {
    Seq::new(digits.len(), |i: int| char_of_digit(digits[i]))
}

/// A decimal number as mathematics sees it: minus or not, the digits before
/// the point, the digits after it. It stands for
/// `unscaled() / 10^scale()`, negated where `negative` holds.
pub struct DecimalView {
    pub negative: bool,
    pub int_digits: Seq<u8>,
    pub frac_digits: Seq<u8>,
}

impl DecimalView {
    /// The number that all the digits write when the point is left out.
    pub open spec fn unscaled(self) -> nat {
        digits_value(self.int_digits + self.frac_digits)
    }

    /// How many digits stand after the point.
    pub open spec fn scale(self) -> nat {
        self.frac_digits.len()
    }

    /// Whether both parts hold decimal digits only.
    pub open spec fn well_formed(self) -> bool {
        are_digits(self.int_digits) && are_digits(self.frac_digits)
    }

    /// The number divided by `10^places`: the point moves `places` digits to
    /// the left, over zeros where the digits run out.
    pub open spec fn shift_left(self, places: nat) -> DecimalView {
        let padded = pad_left(self.int_digits, places);
        DecimalView {
            negative: self.negative,
            int_digits: padded.take(padded.len() - places),
            frac_digits: padded.skip(padded.len() - places) + self.frac_digits,
        }
    }

    /// The number multiplied by `10^places`: the point moves `places` digits
    /// to the right, over zeros where the digits run out.
    pub open spec fn shift_right(self, places: nat) -> DecimalView {
        let padded = pad_right(self.frac_digits, places);
        DecimalView {
            negative: self.negative,
            int_digits: self.int_digits + padded.take(places as int),
            frac_digits: padded.skip(places as int),
        }
    }

    /// The number as text: a minus sign where it is negative, the digits
    /// before the point (one zero where there are none), and, where digits
    /// follow the point, the point and those digits.
    pub open spec fn text(self) -> Seq<char> {
        let sign = if self.negative {
            seq!['-']
        } else {
            Seq::<char>::empty()
        };
        let whole = if self.int_digits.len() == 0 {
            seq!['0']
        } else {
            text_of_digits(self.int_digits)
        };
        let fraction = if self.frac_digits.len() == 0 {
            Seq::<char>::empty()
        } else {
            seq!['.'] + text_of_digits(self.frac_digits)
        };
        sign + whole + fraction
    }
}

/// The number that `text` writes, where `text` is a decimal literal: an
/// optional minus sign, digits, and optionally a point and more digits, with
/// at least one digit before or after the point. Any other text writes no
/// number.
pub open spec fn literal(text: Seq<char>) -> Option<DecimalView> {
    let negative = text.len() > 0 && text[0] == '-';
    let body = if negative {
        text.skip(1)
    } else {
        text
    };
    let dot = first_index(body, '.');
    let whole = body.take(dot);
    let fraction = if dot < body.len() {
        body.skip(dot + 1)
    } else {
        Seq::<char>::empty()
    };
    if all_digits(whole) && all_digits(fraction) && whole.len() + fraction.len() > 0 {
        Some(
            DecimalView {
                negative,
                int_digits: digits_of_text(whole),
                frac_digits: digits_of_text(fraction),
            },
        )
    } else {
        None
    }
}

/// The duration of `secs` seconds and `nanos` nanoseconds, in seconds, where
/// `nanos` is less than a second: the seconds before the point and the
/// nanoseconds in nine digits after it.
pub open spec fn duration_secs(secs: u64, nanos: u32) -> DecimalView {
    DecimalView {
        negative: false,
        int_digits: decimal_digits(secs as nat),
        frac_digits: pad_left(decimal_digits(nanos as nat), 9),
    }
}

/// The decimal digits of a number are digits, there is at least one, and they
/// write that number.
pub proof fn lemma_decimal_digits(n: nat)
    ensures
        are_digits(decimal_digits(n)),
        digits_value(decimal_digits(n)) == n,
        decimal_digits(n).len() >= 1,
        n < pow10(decimal_digits(n).len()),
    decreases n,
{
    reveal_with_fuel(digits_value, 2);
    reveal_with_fuel(pow10, 2);
    if n < 10 {
        assert(decimal_digits(n).drop_last() =~= Seq::<u8>::empty());
    } else {
        lemma_decimal_digits(n / 10);
        let d = decimal_digits(n);
        assert(d.drop_last() =~= decimal_digits(n / 10));
    }
}

/// Digits written one behind the other: the first number moves up by as many
/// places as the second has digits.
pub proof fn lemma_digits_value_concat(a: Seq<u8>, b: Seq<u8>)
    ensures
        digits_value(a + b) == digits_value(a) * pow10(b.len()) + digits_value(b),
    decreases b.len(),
{
    if b.len() == 0 {
        assert(a + b =~= a);
        let x = digits_value(a);
        let one = pow10(b.len());
        assert(one == 1);
        assert(x * one == x) by (nonlinear_arith)
            requires
                one == 1,
        ;
    } else {
        lemma_digits_value_concat(a, b.drop_last());
        assert((a + b).drop_last() =~= a + b.drop_last());
        assert((a + b).last() == b.last());
        let x = digits_value(a);
        let p = pow10((b.len() - 1) as nat);
        let y = digits_value(b.drop_last());
        assert(b.drop_last().len() == b.len() - 1);
        assert(digits_value(a + b) == (x * p + y) * 10 + b.last() as nat);
        assert(pow10(b.len()) == 10 * p);
        assert((x * p + y) * 10 == x * (10 * p) + y * 10) by (nonlinear_arith);
    }
}

/// Zeros are digits and write zero.
pub proof fn lemma_zeros_value(n: nat)
    ensures
        digits_value(zeros(n)) == 0,
        are_digits(zeros(n)),
    decreases n,
{
    if n > 0 {
        lemma_zeros_value((n - 1) as nat);
        assert(zeros(n).drop_last() =~= zeros((n - 1) as nat));
    }
}

/// Moving the point to the left changes no digit's worth but for the scale:
/// the unscaled number stays, and the scale grows by the places moved. So the
/// result stands for the number divided by `10^places`.
pub proof fn lemma_shift_left_divides(d: DecimalView, places: nat)
    requires
        d.well_formed(),
    ensures
        d.shift_left(places).well_formed(),
        d.shift_left(places).negative == d.negative,
        d.shift_left(places).unscaled() == d.unscaled(),
        d.shift_left(places).scale() == d.scale() + places,
{
    let padded = pad_left(d.int_digits, places);
    let r = d.shift_left(places);
    assert(r.int_digits + r.frac_digits =~= padded + d.frac_digits);
    if d.int_digits.len() >= places {
    } else {
        let z = zeros((places - d.int_digits.len()) as nat);
        lemma_zeros_value(z.len());
        assert(padded + d.frac_digits =~= z + (d.int_digits + d.frac_digits));
        lemma_digits_value_concat(z, d.int_digits + d.frac_digits);
        assert(0 * pow10((d.int_digits + d.frac_digits).len()) == 0);
    }
    assert(are_digits(padded)) by {
        lemma_zeros_value((places - d.int_digits.len()) as nat);
    }
}

/// Moving the point to the right multiplies by `10^places`: where the digits
/// after the point suffice, the unscaled number stays and the scale shrinks by
/// the places moved; where they run out, the scale is zero and the unscaled
/// number is multiplied by ten for every place that was missing.
pub proof fn lemma_shift_right_multiplies(d: DecimalView, places: nat)
    requires
        d.well_formed(),
    ensures
        d.shift_right(places).well_formed(),
        d.shift_right(places).negative == d.negative,
        d.scale() >= places ==> d.shift_right(places).unscaled() == d.unscaled() && d.shift_right(
            places,
        ).scale() == d.scale() - places,
        d.scale() < places ==> d.shift_right(places).unscaled() == d.unscaled() * pow10(
            (places - d.scale()) as nat,
        ) && d.shift_right(places).scale() == 0,
{
    let padded = pad_right(d.frac_digits, places);
    let r = d.shift_right(places);
    assert(r.int_digits + r.frac_digits =~= d.int_digits + padded);
    if d.frac_digits.len() >= places {
    } else {
        let z = zeros((places - d.frac_digits.len()) as nat);
        lemma_zeros_value(z.len());
        assert(d.int_digits + padded =~= (d.int_digits + d.frac_digits) + z);
        lemma_digits_value_concat(d.int_digits + d.frac_digits, z);
        assert(r.frac_digits =~= Seq::<u8>::empty());
    }
    assert(are_digits(padded)) by {
        lemma_zeros_value((places - d.frac_digits.len()) as nat);
    }
}

/// Dividing by a power of ten and multiplying by it again gives a number with
/// the same sign, the same unscaled digits' worth and the same scale.
pub proof fn lemma_shift_left_then_right(d: DecimalView, places: nat)
    requires
        d.well_formed(),
    ensures
        d.shift_left(places).shift_right(places).negative == d.negative,
        d.shift_left(places).shift_right(places).unscaled() == d.unscaled(),
        d.shift_left(places).shift_right(places).scale() == d.scale(),
{
    lemma_shift_left_divides(d, places);
    lemma_shift_right_multiplies(d.shift_left(places), places);
}

/// The characters that write digits are digits, and they write the digits
/// that they were made from.
pub proof fn lemma_text_of_digits(digits: Seq<u8>)
    requires
        are_digits(digits),
    ensures
        all_digits(text_of_digits(digits)),
        digits_of_text(text_of_digits(digits)) == digits,
        forall|i: int|
            0 <= i < digits.len() ==> (#[trigger] text_of_digits(digits)[i]) != '.'
                && text_of_digits(digits)[i] != '-',
{
    let text = text_of_digits(digits);
    assert forall|i: int| 0 <= i < digits.len() implies is_digit(#[trigger] text[i]) && digit_of(
        text[i],
    ) == digits[i] && text[i] != '.' && text[i] != '-' by {
        let d = digits[i];
        assert(d <= 9);
        assert(text[i] == char_of_digit(d));
        assert(char_of_digit(d) as u32 == d + 48);
    }
    assert(digits_of_text(text) =~= digits);
}

/// The text of a number reads back as the same number: with the same sign,
/// the same digits after the point, and the same digits before it, but for
/// the one zero that the text puts before a bare fraction. So what is read
/// back has the same unscaled number and the same scale.
pub proof fn lemma_text_reads_back(d: DecimalView)
    requires
        d.well_formed(),
    ensures
        literal(d.text()).is_some(),
        literal(d.text()).unwrap().negative == d.negative,
        literal(d.text()).unwrap().frac_digits == d.frac_digits,
        literal(d.text()).unwrap().int_digits == if d.int_digits.len() == 0 {
            seq![0u8]
        } else {
            d.int_digits
        },
        literal(d.text()).unwrap().unscaled() == d.unscaled(),
        literal(d.text()).unwrap().scale() == d.scale(),
{
    let sign = if d.negative {
        seq!['-']
    } else {
        Seq::<char>::empty()
    };
    let whole_digits = if d.int_digits.len() == 0 {
        seq![0u8]
    } else {
        d.int_digits
    };
    let whole = text_of_digits(whole_digits);
    let fraction = if d.frac_digits.len() == 0 {
        Seq::<char>::empty()
    } else {
        seq!['.'] + text_of_digits(d.frac_digits)
    };
    let text = d.text();
    assert(are_digits(whole_digits));
    assert(whole =~= if d.int_digits.len() == 0 {
        seq!['0']
    } else {
        text_of_digits(d.int_digits)
    }) by {
        assert(char_of_digit(0u8) == '0');
    }
    assert(text == sign + whole + fraction);
    lemma_text_of_digits(whole_digits);
    lemma_text_of_digits(d.frac_digits);
    let body = whole + fraction;
    assert(whole.len() >= 1);
    if d.negative {
        assert(text[0] == '-');
        assert(text.skip(1) =~= body);
    } else {
        assert(text[0] == whole[0]);
        assert(text =~= body);
    }
    assert forall|i: int| 0 <= i < whole.len() implies body[i] != '.' by {
        assert(body[i] == whole[i]);
    }
    if d.frac_digits.len() > 0 {
        assert(body[whole.len() as int] == '.');
    }
    lemma_first_index_is(body, '.', whole.len() as int);
    assert(body.take(whole.len() as int) =~= whole);
    if d.frac_digits.len() > 0 {
        assert(body.skip(whole.len() as int + 1) =~= text_of_digits(d.frac_digits));
    }
    let r = literal(text).unwrap();
    assert(r.int_digits == whole_digits);
    assert(r.frac_digits == d.frac_digits) by {
        if d.frac_digits.len() == 0 {
            assert(digits_of_text(Seq::<char>::empty()) =~= d.frac_digits);
        }
    }
    if d.int_digits.len() == 0 {
        lemma_zeros_value(1);
        assert(zeros(1) =~= seq![0u8]);
        assert(seq![0u8] + d.frac_digits =~= zeros(1) + (d.int_digits + d.frac_digits));
        lemma_digits_value_concat(zeros(1), d.int_digits + d.frac_digits);
        assert(0 * pow10((d.int_digits + d.frac_digits).len()) == 0);
    }
}

/// A duration in seconds is worth its seconds and nanoseconds together.
pub proof fn lemma_duration_secs_value(secs: u64, nanos: u32)
    requires
        nanos < 1_000_000_000,
    ensures
        duration_secs(secs, nanos).well_formed(),
        duration_secs(secs, nanos).scale() == 9,
        duration_secs(secs, nanos).unscaled() == secs * 1_000_000_000 + nanos,
{
    let d = duration_secs(secs, nanos);
    lemma_decimal_digits(secs as nat);
    lemma_decimal_digits(nanos as nat);
    let nd = decimal_digits(nanos as nat);
    assert(pow10(9) == 1_000_000_000) by {
        reveal_with_fuel(pow10, 10);
    }
    assert(nd.len() <= 9) by {
        if nd.len() > 9 {
            lemma_digits_at_least(nanos as nat);
            lemma_pow10_monotonic(9, (nd.len() - 1) as nat);
        }
    }
    let z = zeros((9 - nd.len()) as nat);
    lemma_zeros_value(z.len());
    assert(d.frac_digits =~= z + nd);
    lemma_digits_value_concat(z, nd);
    assert(0 * pow10(nd.len()) == 0);
    lemma_digits_value_concat(d.int_digits, d.frac_digits);
}

/// A higher power of ten is no smaller.
pub proof fn lemma_pow10_monotonic(a: nat, b: nat)
    requires
        a <= b,
    ensures
        pow10(a) <= pow10(b),
    decreases b,
{
    if a < b {
        lemma_pow10_monotonic(a, (b - 1) as nat);
    }
}

/// A number with more than one digit is at least ten to the number of its
/// digits less one.
pub proof fn lemma_digits_at_least(n: nat)
    ensures
        decimal_digits(n).len() > 1 ==> n >= pow10((decimal_digits(n).len() - 1) as nat),
    decreases n,
{
    reveal_with_fuel(pow10, 2);
    if n < 10 {
    } else {
        lemma_digits_at_least(n / 10);
        lemma_decimal_digits(n / 10);
    }
}

/// An exact decimal number: a sign, the digits before the point and the digits
/// after it.
#[derive(Debug)]
pub struct Decimal {
    negative: bool,
    int_digits: Vec<u8>,
    frac_digits: Vec<u8>,
}

impl View for Decimal {
    type V = DecimalView;

    closed spec fn view(&self) -> DecimalView {
        DecimalView {
            negative: self.negative,
            int_digits: self.int_digits@,
            frac_digits: self.frac_digits@,
        }
    }
}

impl Clone for Decimal {
    fn clone(&self) -> (copy: Self)
        ensures
            copy@ == self@,
    {
        proof {
            use_type_invariant(self);
        }
        let int_digits = self.int_digits.clone();
        let frac_digits = self.frac_digits.clone();
        assert(int_digits@ =~= self.int_digits@);
        assert(frac_digits@ =~= self.frac_digits@);
        Decimal { negative: self.negative, int_digits, frac_digits }
    }
}

/// Whether `c` is one of the characters `0` to `9`.
pub fn is_digit_char(c: char) -> (digit: bool)
    ensures
        digit == is_digit(c),
{
    let u = c as u32;
    48 <= u && u <= 57
}

/// The decimal digits of `n`, most significant first, with zeros before them
/// where they are fewer than `width`.
pub fn digits_padded(n: u64, width: usize) -> (digits: Vec<u8>)
    ensures
        digits@ == pad_left(decimal_digits(n as nat), width as nat),
        are_digits(digits@),
{
    let mut digits: Vec<u8> = Vec::new();
    digits.push((n % 10) as u8);
    let mut m: u64 = n / 10;
    while m > 0
        invariant
            decimal_digits(n as nat) == if m > 0 {
                decimal_digits(m as nat) + digits@
            } else {
                digits@
            },
        decreases m,
    {
        let d = (m % 10) as u8;
        let ghost before = digits@;
        digits.insert(0, d);
        proof {
            assert(digits@ =~= seq![d] + before);
            if m >= 10 {
                assert(decimal_digits(m as nat) + before =~= decimal_digits((m / 10) as nat)
                    + digits@);
            } else {
                assert(decimal_digits(m as nat) + before =~= digits@);
            }
        }
        m = m / 10;
    }
    let ghost plain = digits@;
    assert(digits@ =~= zeros(0) + plain);
    while digits.len() < width
        invariant
            plain.len() <= digits.len(),
            digits.len() == plain.len() || digits.len() <= width,
            digits@ == zeros((digits.len() - plain.len()) as nat) + plain,
        decreases width - digits.len(),
    {
        digits.insert(0, 0);
        assert(digits@ =~= zeros((digits.len() - plain.len()) as nat) + plain);
    }
    proof {
        lemma_decimal_digits(n as nat);
        lemma_zeros_value((digits.len() - plain.len()) as nat);
        if plain.len() >= width {
            assert(digits@ =~= plain);
        }
    }
    digits
}

impl Decimal {
    #[verifier::type_invariant]
    spec fn digits_only(&self) -> bool {
        are_digits(self.int_digits@) && are_digits(self.frac_digits@)
    }

    /// Reads a decimal literal. Text that is no decimal literal gives nothing.
    #[verifier::loop_isolation(false)]
    pub fn parse(text: &[char]) -> (number: Option<Decimal>)
        ensures
            match number {
                Some(d) => literal(text@) == Some(d@) && d@.well_formed(),
                None => literal(text@).is_none(),
            },
    {
        let n = text.len();
        let negative = n > 0 && text[0] == '-';
        let start: usize = if negative {
            1
        } else {
            0
        };
        let ghost body = text@.skip(start as int);
        proof {
            if !negative {
                assert(body =~= text@);
            }
            lemma_first_index_bounds(body, '.');
        }
        let ghost dot = first_index(body, '.');
        let mut int_digits: Vec<u8> = Vec::new();
        let mut i: usize = start;
        while i < n && text[i] != '.'
            invariant
                start <= i <= n,
                i - start <= dot,
                forall|j: int| 0 <= j < i - start ==> body[j] != '.',
                int_digits@ == digits_of_text(body.take(i - start)),
                all_digits(body.take(i - start)),
                are_digits(int_digits@),
            decreases n - i,
        {
            let c = text[i];
            assert(body[i - start] == c);
            assert(i - start < dot) by {
                if dot < body.len() {
                    assert(body[dot] == '.');
                }
            }
            if !is_digit_char(c) {
                assert(!all_digits(body.take(dot))) by {
                    assert(body.take(dot)[i - start] == c);
                }
                return None;
            }
            int_digits.push((c as u32 - 48) as u8);
            proof {
                let now = body.take(i + 1 - start);
                assert(now.drop_last() =~= body.take(i - start));
                assert(int_digits@ =~= digits_of_text(now));
                assert forall|j: int| 0 <= j < now.len() implies is_digit(#[trigger] now[j]) by {
                    if j < now.len() - 1 {
                        assert(now[j] == body.take(i - start)[j]);
                    }
                }
            }
            i += 1;
        }
        proof {
            if i < n {
                assert(body[i - start] == text@[i as int]);
            }
            lemma_first_index_is(body, '.', i - start);
        }
        let ghost fraction = if dot < body.len() {
            body.skip(dot + 1)
        } else {
            Seq::<char>::empty()
        };
        let mut frac_digits: Vec<u8> = Vec::new();
        if i < n {
            i += 1;
            let first: usize = i;
            while i < n
                invariant
                    first <= i <= n,
                    frac_digits@ == digits_of_text(fraction.take(i - first)),
                    all_digits(fraction.take(i - first)),
                    are_digits(frac_digits@),
                decreases n - i,
            {
                let c = text[i];
                assert(fraction[i - first] == c);
                if !is_digit_char(c) {
                    return None;
                }
                frac_digits.push((c as u32 - 48) as u8);
                proof {
                    let now = fraction.take(i + 1 - first);
                    assert(now.drop_last() =~= fraction.take(i - first));
                    assert(frac_digits@ =~= digits_of_text(now));
                    assert forall|j: int| 0 <= j < now.len() implies is_digit(
                        #[trigger] now[j],
                    ) by {
                        if j < now.len() - 1 {
                            assert(now[j] == fraction.take(i - first)[j]);
                        }
                    }
                }
                i += 1;
            }
            assert(fraction.take(i - first) =~= fraction);
        } else {
            assert(frac_digits@ =~= digits_of_text(fraction));
        }
        if int_digits.len() == 0 && frac_digits.len() == 0 {
            return None;
        }
        Some(Decimal { negative, int_digits, frac_digits })
    }

    /// The duration of `secs` seconds and `nanos` nanoseconds, in seconds.
    /// The nanoseconds are less than a second.
    pub fn from_duration(secs: u64, nanos: u32) -> (d: Decimal)
        requires
            nanos < 1_000_000_000,
        ensures
            d@ == duration_secs(secs, nanos),
            d@.well_formed(),
    {
        Decimal {
            negative: false,
            int_digits: digits_padded(secs, 1),
            frac_digits: digits_padded(nanos as u64, 9),
        }
    }

    /// Whether the number has a minus sign.
    pub fn is_negative(&self) -> (negative: bool)
        ensures
            negative == self@.negative,
    {
        self.negative
    }

    /// The digits before the point, most significant first.
    pub fn int_digits(&self) -> (digits: &Vec<u8>)
        ensures
            digits@ == self@.int_digits,
            are_digits(digits@),
    {
        proof {
            use_type_invariant(self);
        }
        &self.int_digits
    }

    /// The digits after the point, most significant first.
    pub fn frac_digits(&self) -> (digits: &Vec<u8>)
        ensures
            digits@ == self@.frac_digits,
            are_digits(digits@),
    {
        proof {
            use_type_invariant(self);
        }
        &self.frac_digits
    }

    /// The number divided by `10^places`.
    pub fn shift_left(&self, places: usize) -> (shifted: Decimal)
        ensures
            shifted@ == self@.shift_left(places as nat),
            shifted@.well_formed(),
    {
        proof {
            use_type_invariant(self);
        }
        let n = self.int_digits.len();
        let mut int_digits: Vec<u8> = Vec::new();
        let mut frac_digits: Vec<u8> = Vec::new();
        let ghost padded = pad_left(self.int_digits@, places as nat);
        let ghost cut = padded.len() - places;
        proof {
            lemma_zeros_value((places - n) as nat);
        }
        let keep: usize = if n >= places {
            n - places
        } else {
            0
        };
        let mut i: usize = 0;
        while i < keep
            invariant
                i <= keep <= n,
                n == self.int_digits.len(),
                int_digits@ == self.int_digits@.take(i as int),
            decreases keep - i,
        {
            int_digits.push(self.int_digits[i]);
            assert(int_digits@ =~= self.int_digits@.take(i + 1));
            i += 1;
        }
        let missing: usize = if n >= places {
            0
        } else {
            places - n
        };
        let mut z: usize = 0;
        assert(frac_digits@ =~= zeros(0));
        while z < missing
            invariant
                z <= missing,
                frac_digits@ == zeros(z as nat),
            decreases missing - z,
        {
            frac_digits.push(0);
            assert(frac_digits@ =~= zeros((z + 1) as nat));
            z += 1;
        }
        assert(frac_digits@ =~= padded.skip(cut).take(frac_digits@.len() as int));
        let ghost head = frac_digits@;
        while i < n
            invariant
                keep <= i <= n,
                n == self.int_digits.len(),
                frac_digits@ == head + self.int_digits@.subrange(keep as int, i as int),
            decreases n - i,
        {
            frac_digits.push(self.int_digits[i]);
            assert(frac_digits@ =~= head + self.int_digits@.subrange(keep as int, i + 1));
            i += 1;
        }
        assert(frac_digits@ =~= padded.skip(cut));
        assert(int_digits@ =~= padded.take(cut));
        let ghost moved = frac_digits@;
        let m = self.frac_digits.len();
        let mut j: usize = 0;
        while j < m
            invariant
                j <= m,
                m == self.frac_digits.len(),
                frac_digits@ == moved + self.frac_digits@.take(j as int),
            decreases m - j,
        {
            frac_digits.push(self.frac_digits[j]);
            assert(frac_digits@ =~= moved + self.frac_digits@.take(j + 1));
            j += 1;
        }
        assert(self.frac_digits@.take(m as int) =~= self.frac_digits@);
        proof {
            lemma_shift_left_divides(self@, places as nat);
        }
        Decimal { negative: self.negative, int_digits, frac_digits }
    }

    /// The number multiplied by `10^places`.
    pub fn shift_right(&self, places: usize) -> (shifted: Decimal)
        ensures
            shifted@ == self@.shift_right(places as nat),
            shifted@.well_formed(),
    {
        proof {
            use_type_invariant(self);
        }
        let n = self.int_digits.len();
        let m = self.frac_digits.len();
        let ghost padded = pad_right(self.frac_digits@, places as nat);
        let mut int_digits: Vec<u8> = Vec::new();
        let mut i: usize = 0;
        while i < n
            invariant
                i <= n,
                n == self.int_digits.len(),
                int_digits@ == self.int_digits@.take(i as int),
            decreases n - i,
        {
            int_digits.push(self.int_digits[i]);
            assert(int_digits@ =~= self.int_digits@.take(i + 1));
            i += 1;
        }
        assert(self.int_digits@.take(n as int) =~= self.int_digits@);
        let mut j: usize = 0;
        assert(int_digits@ =~= self.int_digits@ + padded.take(0));
        while j < places
            invariant
                j <= places,
                m == self.frac_digits.len(),
                padded == pad_right(self.frac_digits@, places as nat),
                int_digits@ == self.int_digits@ + padded.take(j as int),
            decreases places - j,
        {
            let d: u8 = if j < m {
                self.frac_digits[j]
            } else {
                0
            };
            int_digits.push(d);
            assert(int_digits@ =~= self.int_digits@ + padded.take(j + 1));
            j += 1;
        }
        let mut frac_digits: Vec<u8> = Vec::new();
        if m > places {
            let mut k: usize = places;
            assert(frac_digits@ =~= padded.subrange(places as int, places as int));
            while k < m
                invariant
                    places <= k <= m,
                    m == self.frac_digits.len(),
                    padded == self.frac_digits@,
                    frac_digits@ == padded.subrange(places as int, k as int),
                decreases m - k,
            {
                frac_digits.push(self.frac_digits[k]);
                assert(frac_digits@ =~= padded.subrange(places as int, k + 1));
                k += 1;
            }
        }
        assert(frac_digits@ =~= padded.skip(places as int));
        proof {
            lemma_shift_right_multiplies(self@, places as nat);
        }
        Decimal { negative: self.negative, int_digits, frac_digits }
    }

    /// The number as text, in a form that reads back as the same number.
    pub fn to_string(&self) -> (text: String)
        ensures
            text@ == self@.text(),
    {
        proof {
            use_type_invariant(self);
        }
        let mut text = String::new();
        if self.negative {
            text.push('-');
        }
        let ghost sign = text@;
        let n = self.int_digits.len();
        if n == 0 {
            text.push('0');
        } else {
            let mut i: usize = 0;
            assert(text@ =~= sign + text_of_digits(self.int_digits@.take(0)));
            while i < n
                invariant
                    i <= n,
                    n == self.int_digits.len(),
                    are_digits(self.int_digits@),
                    text@ == sign + text_of_digits(self.int_digits@.take(i as int)),
                decreases n - i,
            {
                let d = self.int_digits[i];
                text.push((d + 48) as char);
                assert(text@ =~= sign + text_of_digits(self.int_digits@.take(i + 1)));
                i += 1;
            }
            assert(self.int_digits@.take(n as int) =~= self.int_digits@);
        }
        let ghost whole = text@;
        let m = self.frac_digits.len();
        if m > 0 {
            text.push('.');
            let mut j: usize = 0;
            assert(text@ =~= whole + (seq!['.'] + text_of_digits(self.frac_digits@.take(0))));
            while j < m
                invariant
                    j <= m,
                    m == self.frac_digits.len(),
                    are_digits(self.frac_digits@),
                    text@ == whole + (seq!['.'] + text_of_digits(self.frac_digits@.take(j as int))),
                decreases m - j,
            {
                let d = self.frac_digits[j];
                text.push((d + 48) as char);
                assert(text@ =~= whole + (seq!['.'] + text_of_digits(
                    self.frac_digits@.take(j + 1),
                )));
                j += 1;
            }
            assert(self.frac_digits@.take(m as int) =~= self.frac_digits@);
        } else {
            assert(text@ =~= whole + Seq::<char>::empty());
        }
        assert(text@ =~= self@.text());
        text
    }
}

} // verus!
