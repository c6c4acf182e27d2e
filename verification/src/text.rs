//! Characters, decimal numbers and hexadecimal digits.

use vstd::arithmetic::div_mod::lemma_div_denominator;
use vstd::arithmetic::power::{lemma_pow0, lemma_pow1, lemma_pow_adds, lemma_pow_positive, pow};
use vstd::prelude::*;

verus! {

/// `String::push` of std: appends one character.
pub assume_specification[ std::string::String::push ](text: &mut std::string::String, c: char)
    ensures
        final(text)@ == old(text)@.push(c),
;

/// The characters of `text`, in order.
pub fn to_chars(text: &str) -> (chars: Vec<char>)
    ensures
        chars@ == text@,
{
    let mut chars: Vec<char> = Vec::new();
    for c in it: text.chars()
        invariant
            it.seq() == text@,
            chars@ == text@.take(it.index() as int),
    {
        chars.push(c);
        assert(chars@ =~= text@.take(it.index() as int + 1));
    }
    assert(text@.take(text@.len() as int) =~= text@);
    chars
}

/// The text made of `chars[from..to]`.
pub fn from_chars(chars: &[char], from: usize, to: usize) -> (text: String)
    requires
        from <= to <= chars@.len(),
    ensures
        text@ == chars@.subrange(from as int, to as int),
{
    let mut text = String::new();
    let mut i: usize = from;
    while i < to
        invariant
            from <= i <= to <= chars@.len(),
            text@ == chars@.subrange(from as int, i as int),
        decreases to - i,
    {
        text.push(chars[i]);
        i = i + 1;
        assert(text@ =~= chars@.subrange(from as int, i as int));
    }
    text
}

/// Are the two texts equal?
pub fn same_text(a: &str, b: &str) -> (res: bool)
    ensures
        res == (a@ == b@),
{
    let x = a.as_bytes();
    let y = b.as_bytes();
    proof {
        vstd::utf8::encode_utf8_decode_utf8(a@);
        vstd::utf8::encode_utf8_decode_utf8(b@);
    }
    if x.len() != y.len() {
        return false;
    }
    let mut i: usize = 0;
    while i < x.len()
        invariant
            i <= x@.len(),
            x@.len() == y@.len(),
            x@ == vstd::utf8::encode_utf8(a@),
            y@ == vstd::utf8::encode_utf8(b@),
            forall|k: int| 0 <= k < i ==> x@[k] == y@[k],
        decreases x.len() - i,
    {
        if x[i] != y[i] {
            return false;
        }
        i = i + 1;
    }
    assert(x@ =~= y@);
    true
}

/// Is `c` one of `0` to `9`?
pub open spec fn is_digit(c: char) -> bool {
    48 <= c as int <= 57
}

/// The number that the digit `c` stands for.
pub open spec fn digit_value(c: char) -> nat {
    (c as int - 48) as nat
}

/// The digit that stands for `d`.
pub open spec fn digit_char(d: nat) -> char {
    (48 + d) as char
}

/// The number `n` in decimal, without leading zeros.
pub open spec fn decimal(n: nat) -> Seq<char>
    decreases n,
{
    if n < 10 {
        seq![digit_char(n)]
    } else {
        decimal(n / 10).push(digit_char(n % 10))
    }
}

/// The digit for `d`, executable.
fn digit(d: u64) -> (c: char)
    requires
        d < 10,
    ensures
        c == digit_char(d as nat),
{
    (48u8 + d as u8) as char
}

/// Appends `n` in decimal.
pub fn push_decimal(text: &mut String, n: u64)
    ensures
        final(text)@ == old(text)@ + decimal(n as nat),
    decreases n,
{
    if n >= 10 {
        push_decimal(text, n / 10);
    }
    text.push(digit(n % 10));
    assert(text@ =~= old(text)@ + decimal(n as nat));
}

/// The number `n` in decimal, with a minus sign if it is negative.
pub open spec fn signed_decimal(n: int) -> Seq<char> {
    if n < 0 {
        seq!['-'] + decimal((-n) as nat)
    } else {
        decimal(n as nat)
    }
}

/// Appends `n` in decimal.
pub fn push_signed_decimal(text: &mut String, n: i64)
    ensures
        final(text)@ == old(text)@ + signed_decimal(n as int),
{
    if n < 0 {
        text.push('-');
        push_decimal(text, (-(n as i128)) as u64);
        assert(text@ =~= old(text)@ + signed_decimal(n as int));
    } else {
        push_decimal(text, n as u64);
    }
}

/// `count` zeros.
pub open spec fn zeros(count: nat) -> Seq<char> {
    Seq::new(count, |i: int| '0')
}

/// The number `n` in decimal, with zeros before it up to `width` characters.
pub open spec fn padded_decimal(n: nat, width: nat) -> Seq<char> {
    if decimal(n).len() < width {
        zeros((width - decimal(n).len()) as nat) + decimal(n)
    } else {
        decimal(n)
    }
}

/// Appends `n` in decimal, with zeros before it up to `width` characters.
pub fn push_padded_decimal(text: &mut String, n: u64, width: usize)
    ensures
        final(text)@ == old(text)@ + padded_decimal(n as nat, width as nat),
{
    let mut digits: usize = 1;
    let mut rest: u64 = n / 10;
    proof {
        lemma_decimal_len(n as nat);
    }
    while rest > 0
        invariant
            digits + (if rest == 0 { 0 } else { decimal(rest as nat).len() as int }) == decimal(
                n as nat,
            ).len(),
            decimal(n as nat).len() <= 20,
        decreases rest,
    {
        proof {
            lemma_decimal_len(rest as nat);
        }
        digits = digits + 1;
        rest = rest / 10;
    }
    let mut i: usize = digits;
    while i < width
        invariant
            digits <= i,
            digits <= width ==> i <= width,
            digits > width ==> i == digits,
            text@ == old(text)@ + zeros((i - digits) as nat),
        decreases width - i,
    {
        text.push('0');
        i = i + 1;
        assert(text@ =~= old(text)@ + zeros((i - digits) as nat));
    }
    push_decimal(text, n);
    assert(text@ =~= old(text)@ + padded_decimal(n as nat, width as nat));
}

/// A number has one digit, or one more than its tenth; 64 bits make at most
/// 20.
proof fn lemma_decimal_len(n: nat)
    ensures
        decimal(n).len() == 1 + (if n < 10 { 0 } else { decimal(n / 10).len() as int }),
        n <= u64::MAX ==> decimal(n).len() <= 20,
{
    reveal_with_fuel(decimal, 21);
}

/// Does `chars[from..to]` spell `text`?
pub fn spells(chars: &[char], from: usize, to: usize, text: &str) -> (res: bool)
    requires
        from <= to <= chars@.len(),
    ensures
        res == (chars@.subrange(from as int, to as int) == text@),
{
    let wanted = to_chars(text);
    if wanted.len() != to - from {
        return false;
    }
    let mut i: usize = 0;
    while i < wanted.len()
        invariant
            from <= to <= chars@.len(),
            wanted@ == text@,
            wanted@.len() == to - from,
            i <= wanted@.len(),
            forall|k: int| 0 <= k < i ==> chars@[from + k] == wanted@[k],
        decreases wanted.len() - i,
    {
        if chars[from + i] != wanted[i] {
            assert(chars@.subrange(from as int, to as int)[i as int] != text@[i as int]);
            return false;
        }
        i = i + 1;
    }
    assert(chars@.subrange(from as int, to as int) =~= text@);
    true
}

/// Why a text is not a decimal number.
#[derive(Debug, Clone, Copy, PartialEq, Eq, Structural)]
pub enum DecimalError {
    /// There is no character to read.
    Empty,
    /// A character is no digit.
    InvalidDigit,
    /// The number is above the largest one allowed.
    Overflow,
}

impl DecimalError {
    /// The message for this error.
    pub fn message(&self) -> (text: &'static str)
        ensures
            text@ == self.message_spec(),
    {
        match self {
            DecimalError::Empty => "cannot parse integer from empty string",
            DecimalError::InvalidDigit => "invalid digit found in string",
            DecimalError::Overflow => "number too large to fit in target type",
        }
    }

    pub open spec fn message_spec(&self) -> Seq<char> {
        match self {
            DecimalError::Empty => "cannot parse integer from empty string"@,
            DecimalError::InvalidDigit => "invalid digit found in string"@,
            DecimalError::Overflow => "number too large to fit in target type"@,
        }
    }
}

/// Reads the digits of `s` from the left. The first character that is no
/// digit, or that takes the number above `max`, decides the error.
pub open spec fn read_digits(s: Seq<char>, max: nat) -> Result<nat, DecimalError>
    decreases s.len(),
{
    if s.len() == 0 {
        Ok(0)
    } else {
        match read_digits(s.drop_last(), max) {
            Err(e) => Err(e),
            Ok(v) => if !is_digit(s.last()) {
                Err(DecimalError::InvalidDigit)
            } else if v * 10 + digit_value(s.last()) > max {
                Err(DecimalError::Overflow)
            } else {
                Ok(v * 10 + digit_value(s.last()))
            },
        }
    }
}

/// What `s` reads as: an optional `+`, then one digit or more.
pub open spec fn read_decimal(s: Seq<char>, max: nat) -> Result<nat, DecimalError> {
    if s.len() == 0 {
        Err(DecimalError::Empty)
    } else if s[0] == '+' && s.len() > 1 {
        read_digits(s.subrange(1, s.len() as int), max)
    } else {
        read_digits(s, max)
    }
}

/// Once the digits before `j` fail to read, every longer prefix fails alike.
proof fn lemma_read_digits_error(s: Seq<char>, j: int, max: nat)
    requires
        0 <= j <= s.len(),
        read_digits(s.take(j), max) is Err,
    ensures
        read_digits(s, max) == read_digits(s.take(j), max),
    decreases s.len(),
{
    if j == s.len() {
        assert(s.take(j) =~= s);
    } else {
        assert(s.drop_last().take(j) =~= s.take(j));
        lemma_read_digits_error(s.drop_last(), j, max);
    }
}

/// What reads as digits holds nothing else.
pub proof fn lemma_digits_only(s: Seq<char>, max: nat)
    ensures
        read_digits(s, max) is Ok ==> forall|i: int|
            0 <= i < s.len() ==> is_digit(#[trigger] s[i]),
    decreases s.len(),
{
    if s.len() > 0 {
        lemma_digits_only(s.drop_last(), max);
        if read_digits(s, max) is Ok {
            assert forall|i: int| 0 <= i < s.len() implies is_digit(#[trigger] s[i]) by {
                if i < s.len() - 1 {
                    assert(s[i] == s.drop_last()[i]);
                }
            }
        }
    }
}

/// Reads `chars[from..to]` as a number of at most `max`: an optional `+`,
/// then one digit or more.
pub fn parse_decimal(chars: &[char], from: usize, to: usize, max: u64) -> (res: Result<
    u64,
    DecimalError,
>)
    requires
        from <= to <= chars@.len(),
    ensures
        res matches Ok(v) ==> read_decimal(chars@.subrange(from as int, to as int), max as nat)
            == Ok::<nat, DecimalError>(v as nat),
        res matches Err(e) ==> read_decimal(chars@.subrange(from as int, to as int), max as nat)
            == Err::<nat, DecimalError>(e),
{
    let ghost s = chars@.subrange(from as int, to as int);
    if from == to {
        return Err(DecimalError::Empty);
    }
    let mut start: usize = from;
    if chars[from] == '+' && to - from > 1 {
        start = from + 1;
    }
    let ghost d = chars@.subrange(start as int, to as int);
    proof {
        if start == from {
            assert(d =~= s);
        } else {
            assert(d =~= s.subrange(1, s.len() as int));
        }
    }
    let mut value: u64 = 0;
    let mut i: usize = start;
    while i < to
        invariant
            start <= i <= to <= chars@.len(),
            d == chars@.subrange(start as int, to as int),
            value <= max,
            read_digits(d.take(i - start), max as nat) == Ok::<nat, DecimalError>(value as nat),
            read_decimal(s, max as nat) == read_digits(d, max as nat),
            s == chars@.subrange(from as int, to as int),
        decreases to - i,
    {
        let ch: char = chars[i];
        let c = ch as u32;
        proof {
            assert(d.take(i - start + 1).drop_last() =~= d.take(i - start));
            assert(d.take(i - start + 1).last() == chars@[i as int]);
            vstd::utf8::char_is_scalar(ch);
            vstd::utf8::char_u32_cast(ch, c);
        }
        if c < 48 || c > 57 {
            proof {
                lemma_read_digits_error(d, i - start + 1, max as nat);
            }
            return Err(DecimalError::InvalidDigit);
        }
        let wide: u128 = value as u128 * 10 + (c - 48) as u128;
        assert(wide == value as nat * 10 + digit_value(chars@[i as int]));
        if wide > max as u128 {
            proof {
                lemma_read_digits_error(d, i - start + 1, max as nat);
            }
            return Err(DecimalError::Overflow);
        }
        value = wide as u64;
        i = i + 1;
    }
    proof {
        assert(d.take(to - start) =~= d);
    }
    Ok(value)
}

/// A number in decimal reads back as itself, and starts with a digit.
pub proof fn lemma_decimal_reads_back(n: nat, max: nat)
    requires
        n <= max,
    ensures
        read_digits(decimal(n), max) == Ok::<nat, DecimalError>(n),
        read_decimal(decimal(n), max) == Ok::<nat, DecimalError>(n),
        decimal(n).len() >= 1,
        forall|i: int| 0 <= i < decimal(n).len() ==> is_digit(#[trigger] decimal(n)[i]),
    decreases n,
{
    reveal_with_fuel(read_digits, 2);
    if n < 10 {
        assert(decimal(n).drop_last() =~= Seq::<char>::empty());
    } else {
        lemma_decimal_reads_back(n / 10, max);
        assert(decimal(n).drop_last() =~= decimal(n / 10));
    }
}

/// Zeros before digits do not change what they read as.
proof fn lemma_leading_zeros(count: nat, s: Seq<char>, max: nat)
    ensures
        read_digits(zeros(count) + s, max) == read_digits(s, max),
    decreases count + s.len(),
{
    let padded = zeros(count) + s;
    if s.len() > 0 {
        assert(padded.drop_last() =~= zeros(count) + s.drop_last());
        lemma_leading_zeros(count, s.drop_last(), max);
    } else if count > 0 {
        assert(padded.drop_last() =~= zeros((count - 1) as nat) + s);
        lemma_leading_zeros((count - 1) as nat, s, max);
    } else {
        assert(padded =~= s);
    }
}

/// A padded number reads back as itself, and has nothing but digits.
pub proof fn lemma_padded_reads_back(n: nat, width: nat, max: nat)
    requires
        n <= max,
    ensures
        read_digits(padded_decimal(n, width), max) == Ok::<nat, DecimalError>(n),
        forall|i: int|
            0 <= i < padded_decimal(n, width).len() ==> is_digit(
                #[trigger] padded_decimal(n, width)[i],
            ),
{
    lemma_decimal_reads_back(n, max);
    if decimal(n).len() < width {
        lemma_leading_zeros((width - decimal(n).len()) as nat, decimal(n), max);
    }
    lemma_digits_only(padded_decimal(n, width), max);
}

/// Does `a` come before `b` where texts are sorted character by character?
pub open spec fn sorts_before(a: Seq<char>, b: Seq<char>) -> bool {
    exists|i: int| #[trigger] differs_first(a, b, i) && (a[i] as int) < (b[i] as int)
}

/// Is `i` the first position in which `a` and `b` differ?
pub open spec fn differs_first(a: Seq<char>, b: Seq<char>, i: int) -> bool {
    0 <= i < a.len() && i < b.len() && a.take(i) == b.take(i) && a[i] != b[i]
}

/// Digits of the same length sort as the numbers that they read as.
pub proof fn lemma_digits_sort(a: Seq<char>, b: Seq<char>, max: nat)
    requires
        a.len() == b.len(),
        read_digits(a, max) is Ok,
        read_digits(b, max) is Ok,
    ensures
        read_digits(a, max)->Ok_0 < read_digits(b, max)->Ok_0 ==> sorts_before(a, b),
        read_digits(a, max)->Ok_0 == read_digits(b, max)->Ok_0 ==> a == b,
    decreases a.len(),
{
    if a.len() > 0 {
        let (c, d) = (a.drop_last(), b.drop_last());
        lemma_digits_sort(c, d, max);
        let (x, y) = (read_digits(c, max)->Ok_0, read_digits(d, max)->Ok_0);
        let last = a.len() - 1;
        if x < y {
            let i = choose|i: int| #[trigger]
                differs_first(c, d, i) && (c[i] as int) < (d[i] as int);
            assert(a.take(i) =~= c.take(i));
            assert(b.take(i) =~= d.take(i));
            assert(differs_first(a, b, i));
        } else if x == y {
            assert(a.take(last) =~= c);
            assert(b.take(last) =~= d);
            if read_digits(a, max)->Ok_0 < read_digits(b, max)->Ok_0 {
                assert(differs_first(a, b, last));
            } else if read_digits(a, max)->Ok_0 == read_digits(b, max)->Ok_0 {
                assert(a.last() == b.last());
                assert(a =~= c.push(a.last()));
                assert(b =~= d.push(b.last()));
            }
        }
    } else {
        assert(a =~= b);
    }
}

/// A number of up to six digits, padded to six, has six characters.
pub proof fn lemma_six_digits(n: nat)
    requires
        n < 1_000_000,
    ensures
        padded_decimal(n, 6).len() == 6,
{
    reveal_with_fuel(decimal, 7);
}

/// The value of a hexadecimal digit of either case.
pub open spec fn hex_value(c: char) -> Option<nat> {
    if is_digit(c) {
        Some(digit_value(c))
    } else if 97 <= c as int <= 102 {
        Some((c as int - 87) as nat)
    } else if 65 <= c as int <= 70 {
        Some((c as int - 55) as nat)
    } else {
        None
    }
}

/// The lower-case hexadecimal digit for `d`.
pub open spec fn hex_char(d: nat) -> char {
    if d < 10 {
        (48 + d) as char
    } else {
        (87 + d) as char
    }
}

/// Two hexadecimal digits per byte, most significant first.
pub open spec fn hex(bytes: Seq<u8>) -> Seq<char> {
    Seq::new(
        2 * bytes.len(),
        |i: int|
            if i % 2 == 0 {
                hex_char((bytes[i / 2] / 16) as nat)
            } else {
                hex_char((bytes[i / 2] % 16) as nat)
            },
    )
}

/// The bytes that pairs of hexadecimal digits stand for.
pub open spec fn unhex(s: Seq<char>) -> Seq<u8> {
    Seq::new(
        s.len() / 2,
        |i: int| (hex_value(s[2 * i])->0 * 16 + hex_value(s[2 * i + 1])->0) as u8,
    )
}

/// Is every character of `s` a hexadecimal digit?
pub open spec fn is_hex(s: Seq<char>) -> bool {
    forall|i: int| 0 <= i < s.len() ==> hex_value(#[trigger] s[i]) is Some
}

/// The digit for `d`, executable.
fn hex_digit(d: u8) -> (c: char)
    requires
        d < 16,
    ensures
        c == hex_char(d as nat),
{
    if d < 10 {
        (48u8 + d) as char
    } else {
        (87u8 + d) as char
    }
}

/// Appends two hexadecimal digits for each byte.
pub fn push_hex(text: &mut String, bytes: &[u8])
    ensures
        final(text)@ == old(text)@ + hex(bytes@),
{
    let mut i: usize = 0;
    while i < bytes.len()
        invariant
            i <= bytes@.len(),
            text@ == old(text)@ + hex(bytes@.take(i as int)),
        decreases bytes.len() - i,
    {
        text.push(hex_digit(bytes[i] / 16));
        text.push(hex_digit(bytes[i] % 16));
        i = i + 1;
        assert(text@ =~= old(text)@ + hex(bytes@.take(i as int)));
    }
    assert(bytes@.take(bytes@.len() as int) =~= bytes@);
}

/// The value of the hexadecimal digit `c`.
pub fn hex_digit_value(c: char) -> (value: Option<u8>)
    ensures
        value is Some <==> hex_value(c) is Some,
        value matches Some(v) ==> v < 16 && hex_value(c) == Some(v as nat),
{
    let n = c as u32;
    if 48 <= n && n <= 57 {
        Some((n - 48) as u8)
    } else if 97 <= n && n <= 102 {
        Some((n - 87) as u8)
    } else if 65 <= n && n <= 70 {
        Some((n - 55) as u8)
    } else {
        None
    }
}

/// Bytes written in hexadecimal read back as themselves.
pub proof fn lemma_hex_reads_back(bytes: Seq<u8>)
    ensures
        is_hex(hex(bytes)),
        unhex(hex(bytes)) == bytes,
        hex(bytes).len() == 2 * bytes.len(),
{
    assert(unhex(hex(bytes)) =~= bytes);
}

/// The message of the error that `std::str::from_utf8` has for bytes that are
/// not valid UTF-8.
pub uninterp spec fn utf8_fault(bytes: Seq<u8>) -> Seq<char>;

/// What the bytes are the UTF-8 form of, or `fault` if they are not valid.
pub open spec fn utf8_text(bytes: Seq<u8>, fault: Seq<char>) -> Result<Seq<char>, Seq<char>> {
    if vstd::utf8::valid_utf8(bytes) {
        Ok(vstd::utf8::decode_utf8(bytes))
    } else {
        Err(fault)
    }
}

/// A result with its texts as sequences of characters.
pub open spec fn text_result(res: Result<String, String>) -> Result<Seq<char>, Seq<char>> {
    match res {
        Ok(text) => Ok(text@),
        Err(text) => Err(text@),
    }
}

/// The text that `bytes` are the UTF-8 form of.
///
/// Calls `std::str::from_utf8`: it succeeds exactly on valid UTF-8, with the
/// text whose UTF-8 form the bytes are; [`utf8_fault`] names the message of
/// its error.
#[verifier::external_body]
pub(crate) fn text_of_utf8(bytes: &[u8]) -> (res: Result<String, String>)
    ensures
        text_result(res) == utf8_text(bytes@, utf8_fault(bytes@)),
{
    std::str::from_utf8(bytes).map(|s| s.to_string()).map_err(|e| e.to_string())
}

/// The quoted and escaped form that `format!("{:?}")` of std gives a text.
pub uninterp spec fn quoted_chars(text: Seq<char>) -> Seq<char>;

/// The quoted form of `text`. Calls the `Debug` form of `str`, which
/// [`quoted_chars`] names.
#[verifier::external_body]
pub(crate) fn quoted(text: &str) -> (res: String)
    ensures
        res@ == quoted_chars(text@),
{
    format!("{:?}", text)
}

/// The UTF-8 form of `text`.
pub fn utf8_of_text(text: &str) -> (bytes: Vec<u8>)
    ensures
        bytes@ == vstd::utf8::encode_utf8(text@),
{
    vstd::slice::slice_to_vec(text.as_bytes())
}

/// Character `i` of a number in decimal is its digit of weight ten to the power
/// of how many characters follow.
pub proof fn lemma_decimal_digit(n: nat, i: int)
    requires
        0 <= i < decimal(n).len(),
    ensures
        decimal(n)[i] as int == 48 + (n as int / pow(10, (decimal(n).len() - 1 - i) as nat)) % 10,
    decreases n,
{
    let len = decimal(n).len();
    lemma_pow0(10);
    if n >= 10 && i < len - 1 {
        lemma_decimal_digit(n / 10, i);
        let e = (len - 2 - i) as nat;
        lemma_pow_positive(10, e);
        lemma_pow_adds(10, 1, e);
        lemma_pow1(10);
        lemma_div_denominator(n as int, 10, pow(10, e));
    }
}

/// A number in decimal has as many characters as it needs: it does not begin
/// with a zero, unless it is zero.
pub proof fn lemma_no_leading_zero(n: nat)
    ensures
        decimal(n).len() >= 1,
        n > 0 ==> decimal(n)[0] != '0',
        n == 0 ==> decimal(n) == seq!['0'],
    decreases n,
{
    if n >= 10 {
        lemma_no_leading_zero(n / 10);
        assert(decimal(n)[0] == decimal(n / 10)[0]);
    }
}

/// The number that digits stand for, most significant first.
pub open spec fn digits_value(s: Seq<char>) -> int {
    s.fold_left(0int, |v: int, c: char| 10 * v + (c as int - 48))
}

/// Characters read as a number exactly if all of them are digits and the
/// number is not too large; it is the number that the digits stand for.
pub proof fn lemma_read_digits_value(s: Seq<char>, max: nat)
    ensures
        read_digits(s, max) is Ok <==> digits_value(s) <= max && forall|i: int|
            0 <= i < s.len() ==> 48 <= (#[trigger] s[i]) as int <= 57,
        read_digits(s, max) matches Ok(v) ==> v == digits_value(s),
        (forall|i: int| 0 <= i < s.len() ==> 48 <= (#[trigger] s[i]) as int <= 57)
            ==> digits_value(s) >= 0,
    decreases s.len(),
{
    if s.len() > 0 {
        let rest = s.drop_last();
        let last = s.len() - 1;
        lemma_read_digits_value(rest, max);
        assert(digits_value(s) == 10 * digits_value(rest) + (s.last() as int - 48));
        assert(s[last] == s.last());
        assert(forall|i: int| 0 <= i < last ==> #[trigger] rest[i] == s[i]);
        if forall|i: int| 0 <= i < s.len() ==> 48 <= (#[trigger] s[i]) as int <= 57 {
            assert forall|i: int| 0 <= i < rest.len() implies 48 <= (#[trigger] rest[i]) as int
                <= 57 by {
                assert(rest[i] == s[i]);
            }
        }
        if read_digits(s, max) is Ok {
            assert forall|i: int| 0 <= i < s.len() implies 48 <= (#[trigger] s[i]) as int
                <= 57 by {
                if i < last {
                    assert(rest[i] == s[i]);
                }
            }
        }
    }
}

/// A number is read with or without a plus sign before it, which must not stand
/// alone; an empty text is no number.
pub proof fn lemma_plus_sign(s: Seq<char>, max: nat)
    ensures
        s.len() == 0 ==> read_decimal(s, max) is Err,
        s.len() > 0 && s[0] != '+' ==> read_decimal(s, max) == read_digits(s, max),
        s.len() > 0 ==> read_decimal(seq!['+'] + s, max) == read_digits(s, max),
        read_decimal(seq!['+'], max) is Err,
{
    let signed = seq!['+'] + s;
    assert(signed.subrange(1, signed.len() as int) =~= s);
    reveal_with_fuel(read_digits, 2);
}

/// The hexadecimal digits are `0` to `9`, and `a` to `f` in either case.
pub proof fn lemma_hex_digits(c: char)
    ensures
        48 <= c as int <= 57 ==> hex_value(c) == Some((c as int - 48) as nat),
        97 <= c as int <= 102 ==> hex_value(c) == Some((c as int - 97 + 10) as nat),
        65 <= c as int <= 70 ==> hex_value(c) == Some((c as int - 65 + 10) as nat),
        hex_value(c) is Some ==> 48 <= c as int <= 57 || 97 <= c as int <= 102 || 65 <= c as int
            <= 70,
{
}

/// Two lower-case digits stand for each byte, the more significant first.
pub proof fn lemma_hex_of_byte(bytes: Seq<u8>, i: int)
    requires
        0 <= i < bytes.len(),
    ensures
        hex(bytes).len() == 2 * bytes.len(),
        hex_value(hex(bytes)[2 * i]) is Some,
        hex_value(hex(bytes)[2 * i + 1]) is Some,
        bytes[i] as int == 16 * hex_value(hex(bytes)[2 * i])->0 + hex_value(
            hex(bytes)[2 * i + 1],
        )->0,
        !(65 <= hex(bytes)[2 * i] as int <= 70),
        !(65 <= hex(bytes)[2 * i + 1] as int <= 70),
{
}

/// A negative number is its positive counterpart behind a minus sign.
pub proof fn lemma_minus_sign(n: nat)
    ensures
        signed_decimal(n as int) == decimal(n),
        n > 0 ==> signed_decimal(-(n as int)) == seq!['-'] + decimal(n),
{
}

} // verus!
