//! The numbers of a playlist as text: unsigned integers in decimal digits, and
//! the form of a floating-point literal.
use vstd::prelude::*;
use vstd::string::*;
use vstd::utf8::*;

use crate::encoding::{
    ascii, lemma_ascii_start, lemma_encode_ascii, lemma_encode_concat, lemma_encode_empty,
    lemma_first_byte,
};

verus! {

/// The byte of the plus sign.
const PLUS: u8 = 0x2b;

/// The byte of the minus sign.
const MINUS: u8 = 0x2d;

/// The byte of the decimal point.
const POINT: u8 = 0x2e;

/// The byte of the digit zero.
const ZERO: u8 = 0x30;

/// The byte of the digit nine.
const NINE: u8 = 0x39;

/// The byte of the first upper-case letter.
const UPPER_A: u8 = 0x41;

/// The byte of the last upper-case letter.
const UPPER_Z: u8 = 0x5a;

/// The byte of the letter that starts an exponent, in upper case.
const UPPER_E: u8 = 0x45;

/// The byte of the letter that starts an exponent, in lower case.
const LOWER_E: u8 = 0x65;

/// Why a text is no unsigned integer of the width asked for.
#[derive(Debug, PartialEq, Eq, Clone, Copy)]
pub enum NumberError {
    /// The text is empty.
    Empty,
    /// The text holds a character that is no digit, or no digit at all.
    InvalidDigit,
    /// The digits stand for a number above the largest of the width.
    TooLarge,
}

impl NumberError {
    /// The sentence that describes the error.
    pub open spec fn sentence(self) -> Seq<char> {
        match self {
            NumberError::Empty => "cannot parse integer from empty string"@,
            NumberError::InvalidDigit => "invalid digit found in string"@,
            NumberError::TooLarge => "number too large to fit in target type"@,
        }
    }

    /// The sentence that describes the error.
    pub fn message(&self) -> (text: &'static str)
        ensures
            text@ == self.sentence(),
    {
        match self {
            NumberError::Empty => "cannot parse integer from empty string",
            NumberError::InvalidDigit => "invalid digit found in string",
            NumberError::TooLarge => "number too large to fit in target type",
        }
    }
}

/// Whether `c` is a decimal digit.
pub open spec fn is_digit(c: char) -> bool {
    '0' <= c && c <= '9'
}

/// The number that the digit `c` stands for.
pub open spec fn digit_value(c: char) -> nat {
    (c as nat - '0' as nat) as nat
}

/// Whether `s` holds digits only.
pub open spec fn all_digits(s: Seq<char>) -> bool {
    forall|i: int| 0 <= i < s.len() ==> is_digit(#[trigger] s[i])
}

/// The number that the digits `s` stand for in decimal.
pub open spec fn digits_value(s: Seq<char>) -> nat
    decreases s.len(),
{
    if s.len() == 0 {
        0
    } else {
        digits_value(s.drop_last()) * 10 + digit_value(s.last())
    }
}

/// `s` without the plus sign that it may start with.
pub open spec fn unsigned_digits(s: Seq<char>) -> Seq<char> {
    if s.len() > 0 && s[0] == '+' {
        s.skip(1)
    } else {
        s
    }
}

/// How many digits `s` starts with.
pub open spec fn digit_run(s: Seq<char>) -> int
    decreases s.len(),
{
    if s.len() > 0 && is_digit(s[0]) {
        1 + digit_run(s.drop_first())
    } else {
        0
    }
}

/// The unsigned integer up to `max` that `s` stands for: decimal digits, at
/// least one, after an optional plus sign. The text is read from the left:
/// where its first digits stand for a number above `max`, the number is too
/// large, whatever follows them; where a character that is no digit follows
/// them, that is an invalid digit.
pub open spec fn unsigned(s: Seq<char>, max: nat) -> Result<nat, NumberError> {
    let digits = unsigned_digits(s);
    let number = digits_value(digits.take(digit_run(digits)));
    if s.len() == 0 {
        Err(NumberError::Empty)
    } else if digits.len() == 0 {
        Err(NumberError::InvalidDigit)
    } else if number > max {
        Err(NumberError::TooLarge)
    } else if digit_run(digits) < digits.len() {
        Err(NumberError::InvalidDigit)
    } else {
        Ok(number)
    }
}

/// A count with the two properties of `digit_run` is `digit_run`.
pub proof fn lemma_digit_run_is(s: Seq<char>, n: int)
    requires
        0 <= n <= s.len(),
        forall|k: int| 0 <= k < n ==> is_digit(#[trigger] s[k]),
        n < s.len() ==> !is_digit(s[n]),
    ensures
        digit_run(s) == n,
    decreases s.len(),
{
    if n > 0 {
        let rest = s.drop_first();
        assert(is_digit(s[0]));
        assert forall|k: int| 0 <= k < n - 1 implies is_digit(#[trigger] rest[k]) by {
            assert(rest[k] == s[k + 1]);
        }
        if n - 1 < rest.len() {
            assert(rest[n - 1] == s[n]);
        }
        lemma_digit_run_is(rest, n - 1);
    }
}

/// One more digit multiplies the value by ten and adds the digit.
pub proof fn lemma_digits_value_push(s: Seq<char>, c: char)
    ensures
        digits_value(s.push(c)) == digits_value(s) * 10 + digit_value(c),
{
    assert(s.push(c).drop_last() =~= s);
}

/// The characters of an ASCII text are its bytes, one for one.
proof fn lemma_ascii_bytes(s: &str)
    requires
        is_ascii_chars(s@),
    ensures
        s.spec_bytes().len() == s@.len(),
        forall|i: int| 0 <= i < s@.len() ==> #[trigger] s.spec_bytes()[i] == s@[i] as u8,
        forall|i: int| 0 <= i < s@.len() ==> #[trigger] s.spec_bytes()[i] < 0x80,
{
    is_ascii_chars_encode_utf8(s@);
}

/// The unsigned integer up to `max` that `s` stands for.
fn parse_unsigned(s: &str, max: u64) -> (number: Result<u64, NumberError>)
    requires
        max <= u32::MAX,
    ensures
        match number {
            Ok(value) => unsigned(s@, max as nat) == Ok::<nat, NumberError>(value as nat),
            Err(error) => unsigned(s@, max as nat) == Err::<nat, NumberError>(error),
        },
{
    let bytes = s.as_bytes();
    let n = bytes.len();
    proof {
        lemma_encode_empty(s@);
    }
    if n == 0 {
        return Err(NumberError::Empty);
    }
    proof {
        lemma_first_byte(s@, PLUS);
    }
    let start: usize = if bytes[0] == PLUS {
        1
    } else {
        0
    };
    let ghost digits = unsigned_digits(s@);
    proof {
        lemma_ascii_start(s@, start as int);
        lemma_encode_empty(digits);
    }
    if start == n {
        return Err(NumberError::InvalidDigit);
    }
    let mut value: u64 = 0;
    let mut i: usize = start;
    while i < n && ZERO <= bytes[i] && bytes[i] <= NINE
        invariant
            start <= i <= n,
            n == bytes@.len(),
            encode_utf8(digits) == bytes@.skip(start as int),
            i - start <= digits.len(),
            forall|k: int| 0 <= k < i - start ==> is_digit(#[trigger] digits[k]),
            max <= u32::MAX,
            value <= max + 1,
            digits_value(digits.take(i - start)) <= max ==> value == digits_value(
                digits.take(i - start),
            ),
            digits_value(digits.take(i - start)) > max ==> value == max + 1,
        decreases n - i,
    {
        let b = bytes[i];
        proof {
            let k = i - start;
            assert forall|j: int| 0 <= j < k + 1 implies encode_utf8(digits)[j] < 0x80 by {
                assert(encode_utf8(digits)[j] == bytes@[start + j]);
                if j < k {
                    lemma_first_digit_byte(digits, j);
                }
            }
            lemma_ascii_start(digits, k + 1);
            let c = digits[k];
            assert(c == ascii(b));
            assert(is_digit(c));
            assert(digit_value(c) == b - ZERO);
            let before = digits.take(k);
            assert(digits.take(k + 1) =~= before.push(c));
            lemma_digits_value_push(before, c);
        }
        if value <= max {
            value = value * 10 + (b - ZERO) as u64;
            if value > max {
                value = max + 1;
            }
        }
        i += 1;
    }
    proof {
        let k = i - start;
        assert forall|j: int| 0 <= j < k implies encode_utf8(digits)[j] < 0x80 by {
            lemma_first_digit_byte(digits, j);
        }
        lemma_ascii_start(digits, k);
        let rest = digits.skip(k);
        lemma_encode_empty(rest);
        if i < n {
            assert(encode_utf8(rest)[0] == bytes@[i as int]);
            assert(rest[0] == digits[k]);
            if is_digit(digits[k]) {
                lemma_first_byte(rest, digits[k] as u8);
            }
        }
        lemma_digit_run_is(digits, k);
    }
    if value > max {
        Err(NumberError::TooLarge)
    } else if i < n {
        Err(NumberError::InvalidDigit)
    } else {
        proof {
            assert(digits.take(digits.len() as int) =~= digits);
        }
        Ok(value)
    }
}

/// The byte that encodes a digit among the first characters of a text is an
/// ASCII byte.
proof fn lemma_first_digit_byte(digits: Seq<char>, j: int)
    requires
        0 <= j < digits.len(),
        forall|k: int| 0 <= k <= j ==> is_digit(#[trigger] digits[k]),
    ensures
        j < encode_utf8(digits).len(),
        encode_utf8(digits)[j] < 0x80,
    decreases j,
{
    lemma_encode_empty(digits);
    let first = digits[0] as u8;
    lemma_first_byte(digits, first);
    if j > 0 {
        let rest = digits.drop_first();
        assert(digits =~= seq![ascii(first)] + rest);
        lemma_encode_ascii(first);
        lemma_encode_concat(seq![ascii(first)], rest);
        assert forall|k: int| 0 <= k <= j - 1 implies is_digit(#[trigger] rest[k]) by {
            assert(rest[k] == digits[k + 1]);
        }
        lemma_first_digit_byte(rest, j - 1);
        assert(encode_utf8(digits)[j] == encode_utf8(rest)[j - 1]);
    }
}

/// The `u8` that `s` stands for.
pub fn parse_u8(s: &str) -> (number: Result<u8, NumberError>)
    ensures
        match number {
            Ok(value) => unsigned(s@, u8::MAX as nat) == Ok::<nat, NumberError>(value as nat),
            Err(error) => unsigned(s@, u8::MAX as nat) == Err::<nat, NumberError>(error),
        },
{
    match parse_unsigned(s, 0xff) {
        Ok(value) => Ok(value as u8),
        Err(error) => Err(error),
    }
}

/// The `u32` that `s` stands for.
pub fn parse_u32(s: &str) -> (number: Result<u32, NumberError>)
    ensures
        match number {
            Ok(value) => unsigned(s@, u32::MAX as nat) == Ok::<nat, NumberError>(value as nat),
            Err(error) => unsigned(s@, u32::MAX as nat) == Err::<nat, NumberError>(error),
        },
{
    match parse_unsigned(s, 0xffff_ffff) {
        Ok(value) => Ok(value as u32),
        Err(error) => Err(error),
    }
}

/// The digit that stands for `d`, a number below ten.
pub open spec fn digit_char(d: nat) -> char {
    ('0' as nat + d) as char
}

/// `n` in decimal digits, without leading zeros.
pub open spec fn decimal(n: nat) -> Seq<char>
    decreases n,
{
    if n < 10 {
        seq![digit_char(n)]
    } else {
        decimal(n / 10).push(digit_char(n % 10))
    }
}

/// The decimal digits of a number are digits, and stand for the number.
pub proof fn lemma_decimal(n: nat)
    ensures
        decimal(n).len() > 0,
        all_digits(decimal(n)),
        digits_value(decimal(n)) == n,
    decreases n,
{
    if n < 10 {
        let s = decimal(n);
        assert(s.drop_last() =~= Seq::<char>::empty());
        assert(digits_value(s.drop_last()) == 0);
    } else {
        lemma_decimal(n / 10);
        lemma_digits_value_push(decimal(n / 10), digit_char(n % 10));
    }
}

/// A number up to `max` is read back from its decimal digits.
pub proof fn lemma_unsigned_decimal(n: nat, max: nat)
    requires
        n <= max,
    ensures
        unsigned(decimal(n), max) == Ok::<nat, NumberError>(n),
{
    let digits = decimal(n);
    lemma_decimal(n);
    assert(is_digit(digits[0]));
    lemma_digit_run_is(digits, digits.len() as int);
    assert(digits.take(digits.len() as int) =~= digits);
}

/// The digit that stands for `d`.
fn digit_text(d: u8) -> (text: &'static str)
    requires
        d < 10,
    ensures
        text@ == seq![digit_char(d as nat)],
{
    proof {
        reveal_strlit("0");
        reveal_strlit("1");
        reveal_strlit("2");
        reveal_strlit("3");
        reveal_strlit("4");
        reveal_strlit("5");
        reveal_strlit("6");
        reveal_strlit("7");
        reveal_strlit("8");
        reveal_strlit("9");
    }
    let text = match d {
        0 => "0",
        1 => "1",
        2 => "2",
        3 => "3",
        4 => "4",
        5 => "5",
        6 => "6",
        7 => "7",
        8 => "8",
        _ => "9",
    };
    assert(text@ =~= seq![digit_char(d as nat)]);
    text
}

/// Appends `n` in decimal digits to `text`.
pub fn push_decimal(text: &mut String, n: u32)
    ensures
        final(text)@ == old(text)@ + decimal(n as nat),
    decreases n,
{
    if n >= 10 {
        push_decimal(text, n / 10);
    }
    text.append(digit_text((n % 10) as u8));
    proof {
        if n >= 10 {
            assert(text@ =~= old(text)@ + decimal(n as nat));
        }
    }
}

/// The lower-case letter of an upper-case ASCII letter, and any other character
/// as it is.
pub open spec fn lower(c: char) -> char {
    if 'A' <= c && c <= 'Z' {
        (c as u32 + 32) as char
    } else {
        c
    }
}

/// `s` with each character in lower case.
pub open spec fn lowered(s: Seq<char>) -> Seq<char> {
    Seq::new(s.len(), |i: int| lower(s[i]))
}

/// `s` without the sign that it may start with.
pub open spec fn unsign(s: Seq<char>) -> Seq<char> {
    if s.len() > 0 && (s[0] == '+' || s[0] == '-') {
        s.skip(1)
    } else {
        s
    }
}

/// Whether `s` is an exponent: the letter `e` in either case, an optional
/// sign, and digits, at least one, up to the end.
pub open spec fn is_exponent(s: Seq<char>) -> bool {
    s.len() > 0 && (s[0] == 'e' || s[0] == 'E') && {
        let digits = unsign(s.skip(1));
        digits.len() > 0 && digit_run(digits) == digits.len()
    }
}

/// Whether `s` is a decimal number: digits with at most one point before,
/// among or after them, at least one digit in all, and then an optional
/// exponent.
pub open spec fn is_number(s: Seq<char>) -> bool {
    let whole = digit_run(s);
    let after = s.skip(whole);
    let point = after.len() > 0 && after[0] == '.';
    let fraction = if point {
        digit_run(after.skip(1))
    } else {
        0
    };
    let rest = if point {
        after.skip(1 + fraction)
    } else {
        after
    };
    whole + fraction > 0 && (rest.len() == 0 || is_exponent(rest))
}

/// Whether `s` is one of the words for infinity and for what is no number,
/// in any case of its letters.
pub open spec fn is_special(s: Seq<char>) -> bool {
    lowered(s) == "inf"@ || lowered(s) == "infinity"@ || lowered(s) == "nan"@
}

/// Whether `s` is a floating-point literal: after an optional sign, a decimal
/// number or one of the special words.
pub open spec fn is_float_literal(s: Seq<char>) -> bool {
    is_special(unsign(s)) || is_number(unsign(s))
}

/// Why a text that is no floating-point literal is none.
pub open spec fn float_sentence(s: Seq<char>) -> Seq<char> {
    if s.len() == 0 {
        "cannot parse float from empty string"@
    } else {
        "invalid float literal"@
    }
}

/// The digits that `s` starts with are digits, and no more than `s` is long.
pub proof fn lemma_digit_run(s: Seq<char>)
    ensures
        0 <= digit_run(s) <= s.len(),
        forall|k: int| 0 <= k < digit_run(s) ==> is_digit(#[trigger] s[k]),
    decreases s.len(),
{
    if s.len() > 0 && is_digit(s[0]) {
        let rest = s.drop_first();
        lemma_digit_run(rest);
        assert forall|k: int| 0 <= k < digit_run(s) implies is_digit(#[trigger] s[k]) by {
            if k > 0 {
                assert(s[k] == rest[k - 1]);
            }
        }
    }
}

proof fn lemma_special_ascii(s: Seq<char>)
    requires
        is_special(s),
    ensures
        is_ascii_chars(s),
{
    reveal_strlit("inf");
    reveal_strlit("infinity");
    reveal_strlit("nan");
    let low = lowered(s);
    assert forall|i: int| 0 <= i < s.len() implies '\0' <= #[trigger] s[i] <= '\u{7f}' by {
        assert(low[i] == lower(s[i]));
        assert(low.len() == s.len());
        assert(i == 0 || i == 1 || i == 2 || i == 3 || i == 4 || i == 5 || i == 6 || i == 7);
        assert('a' <= low[i] <= 'z');
    }
}

proof fn lemma_exponent_ascii(s: Seq<char>)
    requires
        is_exponent(s),
    ensures
        is_ascii_chars(s),
{
    let power = s.skip(1);
    let digits = unsign(power);
    lemma_digit_run(digits);
    assert forall|i: int| 0 <= i < s.len() implies '\0' <= #[trigger] s[i] <= '\u{7f}' by {
        if i > 0 {
            assert(s[i] == power[i - 1]);
            if digits.len() < power.len() {
                if i > 1 {
                    assert(power[i - 1] == digits[i - 2]);
                }
            } else {
                assert(power[i - 1] == digits[i - 1]);
            }
        }
    }
}

proof fn lemma_number_ascii(s: Seq<char>)
    requires
        is_number(s),
    ensures
        is_ascii_chars(s),
{
    let whole = digit_run(s);
    let after = s.skip(whole);
    lemma_digit_run(s);
    let point = after.len() > 0 && after[0] == '.';
    let fraction = if point {
        digit_run(after.skip(1))
    } else {
        0
    };
    let rest = if point {
        after.skip(1 + fraction)
    } else {
        after
    };
    if point {
        lemma_digit_run(after.skip(1));
    }
    if rest.len() > 0 {
        lemma_exponent_ascii(rest);
    }
    assert forall|i: int| 0 <= i < s.len() implies '\0' <= #[trigger] s[i] <= '\u{7f}' by {
        if i >= whole {
            assert(s[i] == after[i - whole]);
            if point {
                if i > whole {
                    if i - whole - 1 < fraction {
                        assert(after[i - whole] == after.skip(1)[i - whole - 1]);
                    } else {
                        assert(after[i - whole] == rest[i - whole - 1 - fraction]);
                    }
                }
            }
        }
    }
}

/// A floating-point literal is ASCII text.
pub proof fn lemma_float_ascii(s: Seq<char>)
    requires
        is_float_literal(s),
    ensures
        is_ascii_chars(s),
{
    let rest = unsign(s);
    if is_special(rest) {
        lemma_special_ascii(rest);
    } else {
        lemma_number_ascii(rest);
    }
    assert forall|i: int| 0 <= i < s.len() implies '\0' <= #[trigger] s[i] <= '\u{7f}' by {
        if rest.len() < s.len() {
            if i > 0 {
                assert(s[i] == rest[i - 1]);
            }
        }
    }
}

/// Whether `bytes` are the characters of the ASCII text `s`, one for one.
spec fn bytes_of(s: Seq<char>, bytes: Seq<u8>) -> bool {
    &&& is_ascii_chars(s)
    &&& bytes.len() == s.len()
    &&& forall|k: int| 0 <= k < s.len() ==> #[trigger] bytes[k] as int == s[k] as int
}

/// How many digits stand in `bytes` from `start` on.
fn count_digits(bytes: &[u8], start: usize, Ghost(s): Ghost<Seq<char>>) -> (n: usize)
    requires
        bytes_of(s, bytes@),
        start <= bytes@.len(),
    ensures
        n == digit_run(s.skip(start as int)),
        start + n <= bytes@.len(),
{
    let mut i: usize = start;
    while i < bytes.len() && ZERO <= bytes[i] && bytes[i] <= NINE
        invariant
            bytes_of(s, bytes@),
            start <= i <= bytes@.len(),
            forall|k: int| start <= k < i ==> is_digit(#[trigger] s[k]),
        decreases bytes@.len() - i,
    {
        i += 1;
    }
    proof {
        let t = s.skip(start as int);
        assert forall|k: int| 0 <= k < i - start implies is_digit(#[trigger] t[k]) by {
            assert(t[k] == s[start + k]);
        }
        if i < bytes@.len() {
            assert(t[i - start] == s[i as int]);
            assert(bytes@[i as int] as int == s[i as int] as int);
        }
        lemma_digit_run_is(t, i - start);
    }
    i - start
}

/// Whether the rest of `bytes` from `start` on is `word` but for the case of
/// its letters.
fn is_word(bytes: &[u8], start: usize, word: &str, Ghost(s): Ghost<Seq<char>>) -> (same: bool)
    requires
        bytes_of(s, bytes@),
        start <= bytes@.len(),
        is_ascii_chars(word@),
    ensures
        same <==> lowered(s.skip(start as int)) == word@,
{
    let letters = word.as_bytes();
    let ghost t = lowered(s.skip(start as int));
    proof {
        is_ascii_chars_encode_utf8(word@);
    }
    if letters.len() != bytes.len() - start {
        return false;
    }
    let mut i: usize = 0;
    while i < letters.len()
        invariant
            bytes_of(s, bytes@),
            bytes_of(word@, letters@),
            start <= bytes@.len() <= usize::MAX,
            letters@.len() == bytes@.len() - start,
            t == lowered(s.skip(start as int)),
            0 <= i <= letters@.len(),
            forall|k: int| 0 <= k < i ==> t[k] == word@[k],
        decreases letters@.len() - i,
    {
        let b = bytes[start + i];
        let low = if UPPER_A <= b && b <= UPPER_Z {
            b + 32
        } else {
            b
        };
        proof {
            let c = s[start + i];
            assert(s.skip(start as int)[i as int] == c);
            assert(b as int == c as int);
            assert(low as int == lower(c) as int);
            assert(t[i as int] == lower(c));
            assert(letters@[i as int] as int == word@[i as int] as int);
        }
        if low != letters[i] {
            return false;
        }
        i += 1;
    }
    proof {
        assert(t =~= word@);
    }
    true
}

/// Whether the rest of `bytes` from `start` on is one of the special words.
fn is_special_at(bytes: &[u8], start: usize, Ghost(s): Ghost<Seq<char>>) -> (special: bool)
    requires
        bytes_of(s, bytes@),
        start <= bytes@.len(),
    ensures
        special == is_special(s.skip(start as int)),
{
    proof {
        reveal_strlit("inf");
        reveal_strlit("infinity");
        reveal_strlit("nan");
    }
    is_word(bytes, start, "inf", Ghost(s)) || is_word(bytes, start, "infinity", Ghost(s))
        || is_word(bytes, start, "nan", Ghost(s))
}

/// Whether the rest of `bytes` from `start` on is an exponent.
fn is_exponent_at(bytes: &[u8], start: usize, Ghost(s): Ghost<Seq<char>>) -> (exponent: bool)
    requires
        bytes_of(s, bytes@),
        start <= bytes@.len(),
    ensures
        exponent == is_exponent(s.skip(start as int)),
{
    let n = bytes.len();
    let ghost rest = s.skip(start as int);
    if start == n {
        return false;
    }
    proof {
        assert(rest[0] == s[start as int]);
        assert(bytes@[start as int] as int == s[start as int] as int);
    }
    if bytes[start] != LOWER_E && bytes[start] != UPPER_E {
        return false;
    }
    let mark = start + 1;
    let sign = mark < n && (bytes[mark] == PLUS || bytes[mark] == MINUS);
    let from = if sign {
        mark + 1
    } else {
        mark
    };
    proof {
        let power = rest.skip(1);
        assert(power =~= s.skip(mark as int));
        if mark < n {
            assert(power[0] == s[mark as int]);
            assert(bytes@[mark as int] as int == s[mark as int] as int);
        }
        assert(unsign(power) =~= s.skip(from as int));
    }
    let digits = count_digits(bytes, from, Ghost(s));
    digits > 0 && from + digits == n
}

/// Whether the rest of `bytes` from `start` on is a decimal number.
fn is_number_at(bytes: &[u8], start: usize, Ghost(s): Ghost<Seq<char>>) -> (number: bool)
    requires
        bytes_of(s, bytes@),
        start <= bytes@.len(),
    ensures
        number == is_number(s.skip(start as int)),
{
    let n = bytes.len();
    let ghost t = s.skip(start as int);
    let whole = count_digits(bytes, start, Ghost(s));
    let dot = start + whole;
    let point = dot < n && bytes[dot] == POINT;
    let ghost after = t.skip(whole as int);
    proof {
        assert(after =~= s.skip(dot as int));
        if dot < n {
            assert(after[0] == s[dot as int]);
            assert(bytes@[dot as int] as int == s[dot as int] as int);
        }
    }
    if point {
        proof {
            assert(after.skip(1) =~= s.skip(dot + 1));
        }
        let fraction = count_digits(bytes, dot + 1, Ghost(s));
        let end = dot + 1 + fraction;
        proof {
            assert(after.skip(1 + fraction) =~= s.skip(end as int));
        }
        whole + fraction > 0 && (end == n || is_exponent_at(bytes, end, Ghost(s)))
    } else {
        whole > 0 && (dot == n || is_exponent_at(bytes, dot, Ghost(s)))
    }
}

/// Whether `s` is a floating-point literal.
pub fn is_float(s: &str) -> (float: bool)
    ensures
        float == is_float_literal(s@),
{
    if !s.is_ascii() {
        proof {
            if is_float_literal(s@) {
                lemma_float_ascii(s@);
            }
        }
        return false;
    }
    let bytes = s.as_bytes();
    let n = bytes.len();
    proof {
        lemma_ascii_bytes(s);
    }
    let signed = n > 0 && (bytes[0] == PLUS || bytes[0] == MINUS);
    let start: usize = if signed {
        1
    } else {
        0
    };
    assert(unsign(s@) == s@.skip(start as int));
    is_special_at(bytes, start, Ghost(s@)) || is_number_at(bytes, start, Ghost(s@))
}

} // verus!
