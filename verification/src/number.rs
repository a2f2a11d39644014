//! Numbers as text: reading unsigned integers and writing them in a radix.

use vstd::arithmetic::div_mod::{lemma_div_decreases, lemma_fundamental_div_mod};
use vstd::prelude::*;

use crate::text::string_of;

verus! {

/// Why a text is not a number.
#[derive(Clone, Copy, PartialEq, Eq, Structural, Debug)]
pub enum NumberError {
    /// There is no character at all.
    Empty,
    /// A character is not a digit.
    InvalidDigit,
    /// The number is above the largest that was asked for.
    Overflow,
}

impl NumberError {
    /// What the error says.
    pub open spec fn text(self) -> Seq<char> {
        match self {
            NumberError::Empty => "cannot parse integer from empty string"@,
            NumberError::InvalidDigit => "invalid digit found in string"@,
            NumberError::Overflow => "number too large to fit in target type"@,
        }
    }

    /// What the error says.
    pub fn message(self) -> (text: String)
        ensures
            text@ == self.text(),
    {
        match self {
            NumberError::Empty => "cannot parse integer from empty string".to_string(),
            NumberError::InvalidDigit => "invalid digit found in string".to_string(),
            NumberError::Overflow => "number too large to fit in target type".to_string(),
        }
    }
}

/// The value of a digit in a radix of at most sixteen.
pub open spec fn digit_value(c: char, radix: nat) -> Option<nat> {
    let value: int = if '0' <= c <= '9' {
        c as int - '0' as int
    } else if 'a' <= c <= 'f' {
        c as int - 'a' as int + 10
    } else if 'A' <= c <= 'F' {
        c as int - 'A' as int + 10
    } else {
        16
    };
    if value < radix && value < 16 {
        Some(value as nat)
    } else {
        None
    }
}

/// The digit that stands for `value` in a radix of at most sixteen.
pub open spec fn digit_char(value: nat) -> char {
    if value < 10 {
        ((value + 48) as u8) as char
    } else {
        ((value + 87) as u8) as char
    }
}

/// The number that the digits `text` make behind the digits of `high`.
pub open spec fn digits_value(text: Seq<char>, high: nat, radix: nat, max: nat) -> Result<
    nat,
    NumberError,
>
    decreases text.len(),
{
    if text.len() == 0 {
        Ok(high)
    } else {
        match digit_value(text[0], radix) {
            None => Err(NumberError::InvalidDigit),
            Some(value) => {
                let next = high * radix + value;
                if next > max {
                    Err(NumberError::Overflow)
                } else {
                    digits_value(text.drop_first(), next, radix, max)
                }
            },
        }
    }
}

/// The number that `text` stands for: digits, behind at most one plus sign.
pub open spec fn number_value(text: Seq<char>, radix: nat, max: nat) -> Result<nat, NumberError> {
    if text.len() == 0 {
        Err(NumberError::Empty)
    } else if text.len() == 1 && text[0] == '+' {
        Err(NumberError::InvalidDigit)
    } else if text[0] == '+' {
        digits_value(text.drop_first(), 0, radix, max)
    } else {
        digits_value(text, 0, radix, max)
    }
}

/// `result` as a result over natural numbers.
pub open spec fn as_nat(result: Result<u64, NumberError>) -> Result<nat, NumberError> {
    match result {
        Ok(value) => Ok(value as nat),
        Err(error) => Err(error),
    }
}

fn digit_of(c: char, radix: u64) -> (value: Option<u64>)
    requires
        2 <= radix <= 16,
    ensures
        match value {
            Some(v) => digit_value(c, radix as nat) == Some(v as nat) && v < radix,
            None => digit_value(c, radix as nat) is None,
        },
{
    let value: u64 = if '0' <= c && c <= '9' {
        (c as u64) - 48
    } else if 'a' <= c && c <= 'f' {
        (c as u64) - 87
    } else if 'A' <= c && c <= 'F' {
        (c as u64) - 55
    } else {
        16
    };
    if value < radix {
        Some(value)
    } else {
        None
    }
}

/// Reads an unsigned number of at most `max`.
pub fn parse_number(text: &[char], radix: u64, max: u64) -> (result: Result<u64, NumberError>)
    requires
        2 <= radix <= 16,
    ensures
        as_nat(result) == number_value(text@, radix as nat, max as nat),
        result matches Ok(value) ==> value <= max,
{
    if text.len() == 0 {
        return Err(NumberError::Empty);
    }
    if text.len() == 1 && text[0] == '+' {
        return Err(NumberError::InvalidDigit);
    }
    let mut i: usize = if text[0] == '+' {
        1
    } else {
        0
    };
    let mut high: u64 = 0;
    let ghost whole = number_value(text@, radix as nat, max as nat);
    proof {
        assert(text@.skip(0) =~= text@);
        assert(text@.skip(1) =~= text@.drop_first());
    }
    while i < text.len()
        invariant
            2 <= radix <= 16,
            i <= text@.len(),
            high <= max,
            whole == number_value(text@, radix as nat, max as nat),
            whole == digits_value(text@.skip(i as int), high as nat, radix as nat, max as nat),
        decreases text@.len() - i,
    {
        proof {
            assert(text@.skip(i as int)[0] == text@[i as int]);
            assert(text@.skip(i as int).drop_first() =~= text@.skip(i + 1));
            assert(high * radix + 16 <= 0xffff_ffff_ffff_ffff * 16 + 16) by (nonlinear_arith)
                requires
                    high <= 0xffff_ffff_ffff_ffff,
                    radix <= 16,
            ;
            assert(0 <= high * radix) by (nonlinear_arith);
        }
        match digit_of(text[i], radix) {
            None => {
                return Err(NumberError::InvalidDigit);
            },
            Some(value) => {
                let next: u128 = (high as u128) * (radix as u128) + (value as u128);
                if next > max as u128 {
                    return Err(NumberError::Overflow);
                }
                high = next as u64;
            },
        }
        i = i + 1;
    }
    assert(text@.skip(i as int).len() == 0);
    Ok(high)
}

/// The digits of `n` in `radix`, most significant first.
pub open spec fn digits(n: nat, radix: nat) -> Seq<char>
    decreases n,
{
    if radix < 2 || n < radix {
        seq![digit_char(n)]
    } else {
        proof {
            lemma_div_decreases(n as int, radix as int);
        }
        digits(n / radix, radix).push(digit_char(n % radix))
    }
}

/// The decimal digits of `n`.
pub open spec fn decimal_text(n: nat) -> Seq<char> {
    digits(n, 10)
}

/// The hexadecimal digits of `n`, in lower case.
pub open spec fn hex_text(n: nat) -> Seq<char> {
    digits(n, 16)
}

/// `text` behind as many zeros as make its length at least `width`.
pub open spec fn zero_padded(text: Seq<char>, width: nat) -> Seq<char>
    decreases width - text.len(),
{
    if text.len() >= width {
        text
    } else {
        zero_padded(seq!['0'] + text, width)
    }
}

fn digit(value: u8) -> (c: char)
    requires
        value < 16,
    ensures
        c == digit_char(value as nat),
{
    if value < 10 {
        (value + 48) as char
    } else {
        (value + 87) as char
    }
}

fn write_digits(n: u128, radix: u128) -> (text: Vec<char>)
    requires
        radix == 10 || radix == 16,
    ensures
        text@ == digits(n as nat, radix as nat),
    decreases n,
{
    if n < radix {
        let mut text: Vec<char> = Vec::new();
        text.push(digit(n as u8));
        assert(text@ =~= digits(n as nat, radix as nat));
        text
    } else {
        let mut text = write_digits(n / radix, radix);
        text.push(digit((n % radix) as u8));
        text
    }
}

/// `n` in decimal.
pub fn decimal(n: u64) -> (text: String)
    ensures
        text@ == decimal_text(n as nat),
{
    let chars = write_digits(n as u128, 10);
    string_of(chars.as_slice())
}

/// `n` in hexadecimal, in lower case.
pub fn hex(n: u128) -> (text: String)
    ensures
        text@ == hex_text(n as nat),
{
    let chars = write_digits(n, 16);
    string_of(chars.as_slice())
}

/// `n` in hexadecimal, in lower case, padded with zeros to eight digits.
pub fn hex8(n: u32) -> (text: String)
    ensures
        text@ == zero_padded(hex_text(n as nat), 8),
{
    let mut chars = write_digits(n as u128, 16);
    while chars.len() < 8
        invariant
            zero_padded(chars@, 8) == zero_padded(hex_text(n as nat), 8),
        decreases 8 - chars@.len(),
    {
        let ghost before = chars@;
        chars.insert(0, '0');
        assert(chars@ =~= seq!['0'] + before);
    }
    string_of(chars.as_slice())
}

// ---------------------------------------------------------------------------
// Laws

/// A digit reads back as its value.
pub proof fn lemma_digit_reads_back(value: nat, radix: nat)
    requires
        value < radix <= 16,
    ensures
        digit_value(digit_char(value), radix) == Some(value),
        digit_char(value) != '+',
{
}

/// The number made by digits with one more digit behind them.
proof fn lemma_digits_value_push(text: Seq<char>, c: char, high: nat, radix: nat, max: nat)
    requires
        digits_value(text, high, radix, max) is Ok,
        digit_value(c, radix) is Some,
        digits_value(text, high, radix, max)->Ok_0 * radix + digit_value(c, radix)->Some_0 <= max,
    ensures
        digits_value(text.push(c), high, radix, max) == Ok::<nat, NumberError>(
            digits_value(text, high, radix, max)->Ok_0 * radix + digit_value(c, radix)->Some_0,
        ),
    decreases text.len(),
{
    let more = text.push(c);
    if text.len() == 0 {
        assert(more.drop_first() =~= Seq::<char>::empty());
        assert(digits_value(more.drop_first(), high * radix + digit_value(c, radix)->Some_0, radix, max)
            is Ok);
    } else {
        assert(more[0] == text[0]);
        assert(more.drop_first() =~= text.drop_first().push(c));
        let next = high * radix + digit_value(text[0], radix)->Some_0;
        lemma_digits_value_push(text.drop_first(), c, next, radix, max);
    }
}

/// The digits of a number read back as that number.
pub proof fn lemma_digits_read_back(n: nat, radix: nat, max: nat)
    requires
        2 <= radix <= 16,
        n <= max,
    ensures
        digits(n, radix).len() > 0,
        digits(n, radix)[0] != '+',
        digits_value(digits(n, radix), 0, radix, max) == Ok::<nat, NumberError>(n),
        number_value(digits(n, radix), radix, max) == Ok::<nat, NumberError>(n),
    decreases n,
{
    if n < radix {
        lemma_digit_reads_back(n, radix);
        let text = digits(n, radix);
        assert(text.drop_first() =~= Seq::<char>::empty());
        assert(0 * radix == 0);
        assert(digits_value(text.drop_first(), n, radix, max) == Ok::<nat, NumberError>(n));
    } else {
        lemma_div_decreases(n as int, radix as int);
        lemma_fundamental_div_mod(n as int, radix as int);
        lemma_digits_read_back(n / radix, radix, max);
        lemma_digit_reads_back(n % radix, radix);
        assert((n / radix) * radix + n % radix == n) by (nonlinear_arith)
            requires
                n as int == radix as int * (n as int / radix as int) + n as int % radix as int,
        ;
        lemma_digits_value_push(
            digits(n / radix, radix),
            digit_char(n % radix),
            0,
            radix,
            max,
        );
    }
}

/// Zeros in front of digits do not change the number.
pub proof fn lemma_padding_reads_back(text: Seq<char>, width: nat, radix: nat, max: nat)
    requires
        2 <= radix <= 16,
    ensures
        digits_value(zero_padded(text, width), 0, radix, max) == digits_value(text, 0, radix, max),
    decreases width - text.len(),
{
    if text.len() < width {
        let padded = seq!['0'] + text;
        assert(padded.drop_first() =~= text);
        assert(0 * radix == 0);
        lemma_padding_reads_back(padded, width, radix, max);
    }
}

/// A character that stands in a decimal or a hexadecimal number.
pub open spec fn number_char(c: char, radix: nat) -> bool {
    '0' <= c <= '9' || (radix == 16 && 'a' <= c <= 'f')
}

/// What the digits of a number look like.
pub proof fn lemma_digits_look(n: nat, radix: nat)
    requires
        radix == 10 || radix == 16,
    ensures
        digits(n, radix).len() > 0,
        forall|i: int| 0 <= i < digits(n, radix).len() ==> number_char(
            #[trigger] digits(n, radix)[i],
            radix,
        ),
    decreases n,
{
    if n >= radix {
        lemma_div_decreases(n as int, radix as int);
        lemma_digits_look(n / radix, radix);
        assert(n % radix < radix) by (nonlinear_arith)
            requires
                radix > 0,
        ;
    }
}

/// What padded digits look like.
pub proof fn lemma_padding_looks(text: Seq<char>, width: nat, radix: nat)
    requires
        forall|i: int| 0 <= i < text.len() ==> number_char(#[trigger] text[i], radix),
    ensures
        zero_padded(text, width).len() >= text.len(),
        forall|i: int| 0 <= i < zero_padded(text, width).len() ==> number_char(
            #[trigger] zero_padded(text, width)[i],
            radix,
        ),
    decreases width - text.len(),
{
    if text.len() < width {
        let longer = seq!['0'] + text;
        assert forall|i: int| 0 <= i < longer.len() implies number_char(
            #[trigger] longer[i],
            radix,
        ) by {
            if i > 0 {
                assert(longer[i] == text[i - 1]);
            }
        }
        lemma_padding_looks(longer, width, radix);
    }
}

/// What a digit is worth by itself.
pub open spec fn digit_worth(c: char) -> nat {
    if '0' <= c <= '9' {
        (c as int - 48) as nat
    } else if 'a' <= c <= 'f' {
        (c as int - 87) as nat
    } else {
        (c as int - 55) as nat
    }
}

/// What digits are worth together: each digit counts `radix` times as much as
/// it would one place further to the right.
pub open spec fn worth(text: Seq<char>, radix: nat) -> nat
    decreases text.len(),
{
    if text.len() == 0 {
        0
    } else {
        radix * worth(text.drop_last(), radix) + digit_worth(text.last())
    }
}

/// A text of one or more decimal digits.
pub open spec fn all_digits(text: Seq<char>) -> bool {
    text.len() > 0 && forall|i: int| 0 <= i < text.len() ==> '0' <= #[trigger] text[i] <= '9'
}

/// A number is written in digits that are worth it, with no zero in front but
/// for zero itself. Only one text is like that.
pub proof fn law_number_is_written(n: nat, radix: nat)
    requires
        radix == 10 || radix == 16,
    ensures
        worth(digits(n, radix), radix) == n,
        digits(n, radix).len() > 0,
        forall|i: int| 0 <= i < digits(n, radix).len() ==> number_char(
            #[trigger] digits(n, radix)[i],
            radix,
        ),
        digits(n, radix)[0] == '0' ==> n == 0 && digits(n, radix).len() == 1,
    decreases n,
{
    lemma_digits_look(n, radix);
    let text = digits(n, radix);
    if n < radix {
        assert(text.drop_last() =~= Seq::<char>::empty());
        assert(worth(text.drop_last(), radix) == 0);
        assert(radix * 0 == 0);
    } else {
        lemma_div_decreases(n as int, radix as int);
        lemma_fundamental_div_mod(n as int, radix as int);
        law_number_is_written(n / radix, radix);
        assert(n / radix >= 1) by (nonlinear_arith)
            requires
                n >= radix,
                radix > 0,
        ;
        assert(n % radix < radix) by (nonlinear_arith)
            requires
                radix > 0,
        ;
        assert(text.drop_last() =~= digits(n / radix, radix));
        assert(text[0] == digits(n / radix, radix)[0]);
    }
}

/// Two numbers with the same digits are the same number.
pub proof fn law_digits_tell_number(a: nat, b: nat, radix: nat)
    requires
        radix == 10 || radix == 16,
        digits(a, radix) == digits(b, radix),
    ensures
        a == b,
{
    law_number_is_written(a, radix);
    law_number_is_written(b, radix);
}

proof fn lemma_digits_value_behind(text: Seq<char>, c: char, high: nat, radix: nat, max: nat)
    ensures
        digits_value(text.push(c), high, radix, max) == match digits_value(text, high, radix, max) {
            Err(error) => Err(error),
            Ok(value) => match digit_value(c, radix) {
                None => Err(NumberError::InvalidDigit),
                Some(last) => if value * radix + last > max {
                    Err(NumberError::Overflow)
                } else {
                    Ok(value * radix + last)
                },
            },
        },
    decreases text.len(),
{
    let more = text.push(c);
    if text.len() == 0 {
        assert(more.drop_first() =~= Seq::<char>::empty());
        reveal_with_fuel(digits_value, 2);
    } else {
        assert(more[0] == text[0]);
        assert(more.drop_first() =~= text.drop_first().push(c));
        if digit_value(text[0], radix) is Some {
            let next = high * radix + digit_value(text[0], radix)->Some_0;
            lemma_digits_value_behind(text.drop_first(), c, next, radix, max);
        }
    }
}

proof fn lemma_decimal_digits(text: Seq<char>, max: nat)
    requires
        forall|i: int| 0 <= i < text.len() ==> '0' <= #[trigger] text[i] <= '9',
    ensures
        digits_value(text, 0, 10, max) == if worth(text, 10) <= max {
            Ok::<nat, NumberError>(worth(text, 10))
        } else {
            Err(NumberError::Overflow)
        },
    decreases text.len(),
{
    if text.len() > 0 {
        let front = text.drop_last();
        assert(front.push(text.last()) =~= text);
        assert forall|i: int| 0 <= i < front.len() implies '0' <= #[trigger] front[i] <= '9' by {
            assert(front[i] == text[i]);
        }
        lemma_decimal_digits(front, max);
        lemma_digits_value_behind(front, text.last(), 0, 10, max);
    }
}

proof fn lemma_read_digits(text: Seq<char>, high: nat, max: nat)
    requires
        digits_value(text, high, 10, max) is Ok,
    ensures
        forall|i: int| 0 <= i < text.len() ==> '0' <= #[trigger] text[i] <= '9',
    decreases text.len(),
{
    if text.len() > 0 {
        let next = high * 10 + digit_value(text[0], 10)->Some_0;
        lemma_read_digits(text.drop_first(), next, max);
        assert forall|i: int| 0 <= i < text.len() implies '0' <= #[trigger] text[i] <= '9' by {
            if i > 0 {
                assert(text[i] == text.drop_first()[i - 1]);
            }
        }
    }
}

/// A text of decimal digits is read as what they are worth, up to the largest
/// number that was asked for. A plus sign in front of it changes nothing.
pub proof fn law_decimal_is_read(text: Seq<char>, max: nat)
    requires
        text.len() > 0,
        forall|i: int| 0 <= i < text.len() ==> '0' <= #[trigger] text[i] <= '9',
    ensures
        worth(text, 10) <= max ==> number_value(text, 10, max) == Ok::<nat, NumberError>(
            worth(text, 10),
        ),
        worth(text, 10) > max ==> number_value(text, 10, max) == Err::<nat, NumberError>(
            NumberError::Overflow,
        ),
        number_value(seq!['+'] + text, 10, max) == number_value(text, 10, max),
{
    lemma_decimal_digits(text, max);
    assert('0' <= text[0] <= '9');
    assert((seq!['+'] + text).drop_first() =~= text);
}

/// A text without the plus sign in front of it.
pub open spec fn unsigned(text: Seq<char>) -> Seq<char> {
    if text.len() > 0 && text[0] == '+' {
        text.drop_first()
    } else {
        text
    }
}

/// Only decimal digits, behind at most one plus sign, are read as a number.
pub proof fn law_only_decimal_is_read(text: Seq<char>, max: nat)
    requires
        number_value(text, 10, max) is Ok,
    ensures
        unsigned(text).len() > 0,
        forall|i: int| 0 <= i < unsigned(text).len() ==> '0' <= #[trigger] unsigned(text)[i] <= '9',
        number_value(text, 10, max)->Ok_0 == worth(unsigned(text), 10),
        worth(unsigned(text), 10) <= max,
{
    lemma_read_digits(unsigned(text), 0, max);
    lemma_decimal_digits(unsigned(text), max);
}

/// A text of decimal digits, behind a plus sign or not, is read as what they are
/// worth, up to the largest number that was asked for.
pub proof fn law_numeral_is_read(text: Seq<char>, max: nat)
    requires
        all_digits(unsigned(text)),
    ensures
        worth(unsigned(text), 10) <= max ==> number_value(text, 10, max) == Ok::<nat, NumberError>(
            worth(unsigned(text), 10),
        ),
        worth(unsigned(text), 10) > max ==> number_value(text, 10, max) == Err::<nat, NumberError>(
            NumberError::Overflow,
        ),
{
    law_decimal_is_read(unsigned(text), max);
    if text.len() > 0 && text[0] == '+' {
        assert(seq!['+'] + unsigned(text) =~= text);
    }
}

/// Padding puts zeros in front, as many as the width leaves room for.
pub proof fn law_padding_is_zeros(text: Seq<char>, width: nat)
    ensures
        zero_padded(text, width).len() == if text.len() < width {
            width
        } else {
            text.len()
        },
        zero_padded(text, width).skip(zero_padded(text, width).len() - text.len()) == text,
        forall|i: int|
            0 <= i < zero_padded(text, width).len() - text.len() ==> #[trigger] zero_padded(
                text,
                width,
            )[i] == '0',
    decreases width - text.len(),
{
    let all = zero_padded(text, width);
    if text.len() < width {
        let longer = seq!['0'] + text;
        law_padding_is_zeros(longer, width);
        let at = all.len() - longer.len();
        assert(all.skip(at)[0] == '0');
        assert(all[at] == '0');
        assert(all.skip(at + 1) =~= all.skip(at).skip(1));
        assert(longer.skip(1) =~= text);
    } else {
        assert(all.skip(0) =~= text);
    }
}

/// A result that was computed is the same number in proofs.
pub proof fn law_results_as_numbers(result: Result<u64, NumberError>)
    ensures
        result matches Ok(value) ==> as_nat(result) == Ok::<nat, NumberError>(value as nat),
        result matches Err(error) ==> as_nat(result) == Err::<nat, NumberError>(error),
{
}

/// A hexadecimal digit, in either case.
pub open spec fn hex_char(c: char) -> bool {
    '0' <= c <= '9' || 'a' <= c <= 'f' || 'A' <= c <= 'F'
}

proof fn lemma_hex_digits(text: Seq<char>, max: nat)
    requires
        forall|i: int| 0 <= i < text.len() ==> hex_char(#[trigger] text[i]),
    ensures
        digits_value(text, 0, 16, max) == if worth(text, 16) <= max {
            Ok::<nat, NumberError>(worth(text, 16))
        } else {
            Err(NumberError::Overflow)
        },
    decreases text.len(),
{
    if text.len() > 0 {
        let front = text.drop_last();
        assert(front.push(text.last()) =~= text);
        assert forall|i: int| 0 <= i < front.len() implies hex_char(#[trigger] front[i]) by {
            assert(front[i] == text[i]);
        }
        lemma_hex_digits(front, max);
        assert(hex_char(text[text.len() - 1]));
        lemma_digits_value_behind(front, text.last(), 0, 16, max);
    }
}

/// A text of hexadecimal digits in either case is read as what they are worth, up
/// to the largest number that was asked for.
pub proof fn law_hex_is_read(text: Seq<char>, max: nat)
    requires
        text.len() > 0,
        forall|i: int| 0 <= i < text.len() ==> hex_char(#[trigger] text[i]),
    ensures
        worth(text, 16) <= max ==> number_value(text, 16, max) == Ok::<nat, NumberError>(
            worth(text, 16),
        ),
        worth(text, 16) > max ==> number_value(text, 16, max) == Err::<nat, NumberError>(
            NumberError::Overflow,
        ),
{
    lemma_hex_digits(text, max);
    assert(hex_char(text[0]));
}

/// What is no number says so: nothing at all, a sign alone, a character that is
/// no digit, or more than the largest number that was asked for.
pub proof fn law_why_no_number(text: Seq<char>, max: nat)
    requires
        text.len() > 0,
        !('0' <= text[0] <= '9'),
        text[0] != '+',
    ensures
        number_value(Seq::empty(), 10, max) == Err::<nat, NumberError>(NumberError::Empty),
        number_value(seq!['+'], 10, max) == Err::<nat, NumberError>(NumberError::InvalidDigit),
        number_value(text, 10, max) == Err::<nat, NumberError>(NumberError::InvalidDigit),
        NumberError::Empty.text() == "cannot parse integer from empty string"@,
        NumberError::InvalidDigit.text() == "invalid digit found in string"@,
        NumberError::Overflow.text() == "number too large to fit in target type"@,
{
}

/// A number in decimal is worth that number in tens, and one in hexadecimal in
/// sixteens.
pub proof fn law_decimal_and_hexadecimal(n: nat)
    ensures
        all_digits(decimal_text(n)),
        worth(decimal_text(n), 10) == n,
        hex_text(n).len() > 0,
        forall|i: int| 0 <= i < hex_text(n).len() ==> number_char(#[trigger] hex_text(n)[i], 16),
        worth(hex_text(n), 16) == n,
{
    law_number_is_written(n, 10);
    law_number_is_written(n, 16);
    let text = decimal_text(n);
    assert forall|i: int| 0 <= i < text.len() implies '0' <= #[trigger] text[i] <= '9' by {
        assert(number_char(text[i], 10));
    }
}

} // verus!
