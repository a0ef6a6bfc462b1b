//! Numbers and bytes as text: lower-case hexadecimal, decimal, and the reading
//! of a decimal count.

use vstd::prelude::*;
use vstd::string::*;

verus! {

/// The decimal digit for `d`, for `d` from 0 to 9.
pub open spec fn digit_char(d: int) -> char {
    (48 + d) as char
}

/// The lower-case hexadecimal digit for `n`, for `n` from 0 to 15.
pub open spec fn hex_char(n: int) -> char {
    if n < 10 {
        digit_char(n)
    } else {
        (87 + n) as char
    }
}

/// Two digits for each byte, the high half first.
pub open spec fn hex_text(bytes: Seq<u8>) -> Seq<char> {
    Seq::new(
        2 * bytes.len(),
        |i: int|
            if i % 2 == 0 {
                hex_char(bytes[i / 2] as int / 16)
            } else {
                hex_char(bytes[i / 2] as int % 16)
            },
    )
}

/// `n` in decimal, without leading zeros.
pub open spec fn decimal_text(n: nat) -> Seq<char>
    decreases n,
{
    if n < 10 {
        seq![digit_char(n as int)]
    } else {
        decimal_text(n / 10).push(digit_char((n % 10) as int))
    }
}

pub open spec fn is_digit(c: char) -> bool {
    '0' <= c && c <= '9'
}

/// Why a text is not a count.
#[derive(Debug, Clone, Copy, PartialEq, Eq, Structural)]
pub enum CountError {
    /// There is no text.
    Empty,
    /// A character stands where a digit should, or no digit follows the sign.
    InvalidDigit,
    /// The digits say more than a `usize` holds.
    TooLarge,
}

/// What the digits of `s` come to, or what is wrong with the first character
/// that cannot be taken.
pub open spec fn digits_value(s: Seq<char>) -> Result<usize, CountError>
    decreases s.len(),
{
    if s.len() == 0 {
        Ok(0)
    } else {
        match digits_value(s.drop_last()) {
            Err(e) => Err(e),
            Ok(v) => {
                if !is_digit(s.last()) {
                    Err(CountError::InvalidDigit)
                } else if v * 10 + (s.last() as int - 48) > usize::MAX {
                    Err(CountError::TooLarge)
                } else {
                    Ok((v * 10 + (s.last() as int - 48)) as usize)
                }
            },
        }
    }
}

/// A count is an optional `+` and then at least one digit, and nothing else.
pub open spec fn count_value(s: Seq<char>) -> Result<usize, CountError> {
    if s.len() == 0 {
        Err(CountError::Empty)
    } else if s[0] == '+' {
        if s.len() == 1 {
            Err(CountError::InvalidDigit)
        } else {
            digits_value(s.skip(1))
        }
    } else {
        digits_value(s)
    }
}

/// What is said of a text that is not a count.
pub open spec fn count_error_text(error: CountError) -> Seq<char> {
    match error {
        CountError::Empty => "cannot parse integer from empty string"@,
        CountError::InvalidDigit => "invalid digit found in string"@,
        CountError::TooLarge => "number too large to fit in target type"@,
    }
}

impl CountError {
    /// What is said of a text that is not a count.
    pub fn message(self) -> (s: &'static str)
        ensures
            s@ == count_error_text(self),
    {
        match self {
            CountError::Empty => "cannot parse integer from empty string",
            CountError::InvalidDigit => "invalid digit found in string",
            CountError::TooLarge => "number too large to fit in target type",
        }
    }
}

/// The characters of `s`, so that they can be reached by position.
pub fn chars_of(s: &str) -> (r: Vec<char>)
    ensures
        r@ == s@,
{
    let mut r: Vec<char> = Vec::new();
    for c in it: s.chars()
        invariant
            it.seq() == s@,
            r@ == s@.take(it.index() as int),
    {
        r.push(c);
    }
    assert(s@.take(s@.len() as int) == s@);
    r
}

fn hex_digit(n: u8) -> (r: &'static str)
    requires
        n < 16,
    ensures
        r@ == seq![hex_char(n as int)],
{
    proof {
        reveal_strlit("0");
        reveal_strlit("1");
        reveal_strlit("2");
        reveal_strlit("3");
        reveal_strlit("4");
        reveal_strlit("5");
        reveal_strlit("6");
        reveal_strlit("7");
        reveal_strlit("8");
        reveal_strlit("9");
        reveal_strlit("a");
        reveal_strlit("b");
        reveal_strlit("c");
        reveal_strlit("d");
        reveal_strlit("e");
        reveal_strlit("f");
    }
    match n {
        0 => "0",
        1 => "1",
        2 => "2",
        3 => "3",
        4 => "4",
        5 => "5",
        6 => "6",
        7 => "7",
        8 => "8",
        9 => "9",
        10 => "a",
        11 => "b",
        12 => "c",
        13 => "d",
        14 => "e",
        _ => "f",
    }
}

/// `bytes` in lower-case hexadecimal.
pub fn hex(bytes: &[u8]) -> (s: String)
    ensures
        s@ == hex_text(bytes@),
{
    let mut s: String = String::new();
    let mut i: usize = 0;
    while i < bytes.len()
        invariant
            i <= bytes@.len(),
            s@ == hex_text(bytes@.take(i as int)),
        decreases bytes@.len() - i,
    {
        let b: u8 = bytes[i];
        s.append(hex_digit(b / 16));
        s.append(hex_digit(b % 16));
        i = i + 1;
    }
    assert(bytes@.take(bytes@.len() as int) == bytes@);
    s
}

/// `n` in decimal.
pub fn decimal(n: u128) -> (s: String)
    ensures
        s@ == decimal_text(n as nat),
    decreases n,
{
    if n < 10 {
        let mut s: String = String::new();
        s.append(hex_digit(n as u8));
        s
    } else {
        let mut s: String = decimal(n / 10);
        s.append(hex_digit((n % 10) as u8));
        s
    }
}

/// Reads a count: an optional `+` and then decimal digits.
pub fn parse_count(s: &str) -> (r: Result<usize, CountError>)
    ensures
        r == count_value(s@),
{
    let chars: Vec<char> = chars_of(s);
    if chars.len() == 0 {
        return Err(CountError::Empty);
    }
    let start: usize = if chars[0] == '+' { 1 } else { 0 };
    if start == chars.len() {
        return Err(CountError::InvalidDigit);
    }
    let ghost digits = s@.skip(start as int);
    assert(s@.skip(0) == s@);
    let mut value: usize = 0;
    let mut i: usize = start;
    while i < chars.len()
        invariant
            start <= i <= chars@.len(),
            digits == chars@.skip(start as int),
            count_value(s@) == digits_value(digits),
            digits_value(digits.take(i - start)) == Ok::<usize, CountError>(value),
        decreases chars@.len() - i,
    {
        let c: char = chars[i];
        proof {
            assert(digits.take(i - start + 1).drop_last() == digits.take(i - start));
            assert(digits.take(i - start + 1).last() == c);
        }
        if c < '0' || c > '9' {
            proof { lemma_first_fault_decides(digits, i - start + 1); }
            return Err(CountError::InvalidDigit);
        }
        let d: usize = c as usize - 48;
        if value > (usize::MAX - d) / 10 {
            proof { lemma_first_fault_decides(digits, i - start + 1); }
            return Err(CountError::TooLarge);
        }
        value = value * 10 + d;
        i = i + 1;
    }
    assert(digits.take(digits.len() as int) == digits);
    Ok(value)
}

/// A fault in the first `n` characters is the fault of the whole.
proof fn lemma_first_fault_decides(s: Seq<char>, n: int)
    requires
        0 <= n <= s.len(),
        digits_value(s.take(n)) is Err,
    ensures
        digits_value(s) == digits_value(s.take(n)),
    decreases s.len() - n,
{
    if n == s.len() {
        assert(s.take(n) == s);
    } else {
        assert(s.take(n + 1).drop_last() == s.take(n));
        lemma_first_fault_decides(s, n + 1);
    }
}

/// Two numbers with the same decimal text are the same.
pub proof fn decimal_text_is_injective(a: nat, b: nat)
    requires
        decimal_text(a) == decimal_text(b),
    ensures
        a == b,
    decreases a,
{
    lemma_decimal_nonempty(a / 10);
    lemma_decimal_nonempty(b / 10);
    let s = decimal_text(a);
    let t = decimal_text(b);
    assert(s.last() == digit_char((a % 10) as int));
    assert(t.last() == digit_char((b % 10) as int));
    if a >= 10 && b >= 10 {
        assert(s.drop_last() == decimal_text(a / 10));
        assert(t.drop_last() == decimal_text(b / 10));
        decimal_text_is_injective(a / 10, b / 10);
    }
}

/// Two sequences of bytes with the same hexadecimal text are the same.
pub proof fn hex_text_is_injective(a: Seq<u8>, b: Seq<u8>)
    requires
        hex_text(a) == hex_text(b),
    ensures
        a == b,
{
    let s = hex_text(a);
    let t = hex_text(b);
    assert(s.len() == 2 * a.len() && t.len() == 2 * b.len());
    assert forall|k: int| 0 <= k < a.len() implies a[k] == b[k] by {
        assert(s[2 * k] == hex_char(a[k] as int / 16) && t[2 * k] == hex_char(b[k] as int / 16));
        assert(s[2 * k + 1] == hex_char(a[k] as int % 16));
        assert(t[2 * k + 1] == hex_char(b[k] as int % 16));
        assert(a[k] as int / 16 == b[k] as int / 16);
        assert(a[k] as int % 16 == b[k] as int % 16);
    }
    assert(a == b);
}

/// To read a number that was written in decimal gives the number.
pub proof fn count_reads_back_decimal(n: usize)
    ensures
        count_value(decimal_text(n as nat)) == Ok::<usize, CountError>(n),
{
    let s = decimal_text(n as nat);
    lemma_decimal_nonempty(n as nat);
    lemma_decimal_chars(n as nat);
    lemma_digits_read_back(n);
    assert(is_digit(s[0]));
}

/// What a row of decimal digits is worth, each place ten times the next.
pub open spec fn worth(digits: Seq<char>) -> int
    decreases digits.len(),
{
    if digits.len() == 0 {
        0
    } else {
        10 * worth(digits.drop_last()) + (digits.last() as int - '0' as int)
    }
}

/// Whether there is nothing but decimal digits.
pub open spec fn all_digits(s: Seq<char>) -> bool {
    forall|i: int| 0 <= i < s.len() ==> '0' <= #[trigger] s[i] && s[i] <= '9'
}

/// What is left of `s` without the `+` that it may start with.
pub open spec fn unsigned(s: Seq<char>) -> Seq<char> {
    if s.len() > 0 && s[0] == '+' {
        s.skip(1)
    } else {
        s
    }
}

/// A text is read as a count exactly if it is a row of digits, at least one, with or
/// without a `+` before it, and is worth no more than the largest count. The count is what
/// it is worth, however many digits that takes.
pub proof fn count_is_what_its_digits_are_worth(s: &str, r: Result<usize, CountError>)
    requires
        call_ensures(parse_count, (s,), r),
    ensures
        r is Ok <==> unsigned(s@).len() > 0 && all_digits(unsigned(s@)) && worth(unsigned(s@))
            <= usize::MAX,
        r matches Ok(n) ==> n == worth(unsigned(s@)),
        r == Err::<usize, CountError>(CountError::Empty) <==> s@.len() == 0,
        r == Err::<usize, CountError>(CountError::TooLarge) ==> worth(unsigned(s@)) > usize::MAX
            || !all_digits(unsigned(s@)),
        all_digits(unsigned(s@)) && worth(unsigned(s@)) > usize::MAX ==> r == Err::<
            usize,
            CountError,
        >(CountError::TooLarge),
{
    lemma_count_worth(s@);
}

pub(crate) proof fn lemma_count_worth(s: Seq<char>)
    ensures
        count_value(s) is Ok <==> unsigned(s).len() > 0 && all_digits(unsigned(s)) && worth(
            unsigned(s),
        ) <= usize::MAX,
        count_value(s) matches Ok(n) ==> n == worth(unsigned(s)),
        count_value(s) == Err::<usize, CountError>(CountError::Empty) <==> s.len() == 0,
        all_digits(unsigned(s)) && worth(unsigned(s)) > usize::MAX ==> count_value(s) == Err::<
            usize,
            CountError,
        >(CountError::TooLarge),
        unsigned(s).len() > 0 && all_digits(unsigned(s)) && worth(unsigned(s)) <= usize::MAX
            ==> count_value(s) == Ok::<usize, CountError>(worth(unsigned(s)) as usize),
{
    lemma_digits_worth(unsigned(s));
}

proof fn lemma_digits_worth(s: Seq<char>)
    ensures
        digits_value(s) is Ok <==> all_digits(s) && worth(s) <= usize::MAX,
        digits_value(s) matches Ok(n) ==> n == worth(s),
        digits_value(s) != Err::<usize, CountError>(CountError::Empty),
        all_digits(s) ==> worth(s) >= 0,
        all_digits(s) && worth(s) > usize::MAX ==> digits_value(s) == Err::<usize, CountError>(
            CountError::TooLarge,
        ),
    decreases s.len(),
{
    if s.len() > 0 {
        let front = s.drop_last();
        lemma_digits_worth(front);
        if all_digits(s) {
            assert(all_digits(front));
            assert('0' <= s.last() && s.last() <= '9');
        } else if all_digits(front) && is_digit(s.last()) {
            assert forall|i: int| 0 <= i < s.len() implies '0' <= #[trigger] s[i] && s[i]
                <= '9' by {
                if i < front.len() {
                    assert(front[i] == s[i]);
                }
            }
        }
    }
}

/// A number in decimal is a row of digits that is worth the number and does not start with
/// a zero, unless it is zero.
pub proof fn decimal_is_worth_its_number(n: u128, s: String)
    requires
        call_ensures(decimal, (n,), s),
    ensures
        s@.len() > 0,
        all_digits(s@),
        worth(s@) == n,
        s@[0] == '0' ==> n == 0 && s@.len() == 1,
{
    lemma_decimal_worth(n as nat);
}

pub(crate) proof fn lemma_decimal_worth(n: nat)
    ensures
        decimal_text(n).len() > 0,
        all_digits(decimal_text(n)),
        worth(decimal_text(n)) == n,
        decimal_text(n)[0] == '0' ==> n == 0,
        n < 10 ==> decimal_text(n).len() == 1,
    decreases n,
{
    let s = decimal_text(n);
    if n < 10 {
        assert(s.drop_last() == Seq::<char>::empty());
        assert(worth(s.drop_last()) == 0);
        assert(s.last() == digit_char(n as int));
    } else {
        lemma_decimal_worth(n / 10);
        assert(s.drop_last() == decimal_text(n / 10));
        assert(s.last() == digit_char((n % 10) as int));
        assert(s[0] == decimal_text(n / 10)[0]);
        assert forall|i: int| 0 <= i < s.len() implies '0' <= #[trigger] s[i] && s[i] <= '9' by {
            if i < s.len() - 1 {
                assert(s[i] == decimal_text(n / 10)[i]);
            }
        }
    }
}

/// What a lower-case hexadecimal digit is worth.
pub open spec fn hex_worth(c: char) -> int {
    if '0' <= c && c <= '9' {
        c as int - '0' as int
    } else {
        c as int - 'a' as int + 10
    }
}

/// The hexadecimal text of some bytes has two digits for each byte, in lower case, which
/// are worth the byte.
pub proof fn hex_is_worth_its_bytes(bytes: &[u8], s: String)
    requires
        call_ensures(hex, (bytes,), s),
    ensures
        s@.len() == 2 * bytes@.len(),
        forall|i: int|
            0 <= i < s@.len() ==> ('0' <= #[trigger] s@[i] && s@[i] <= '9') || ('a' <= s@[i]
                && s@[i] <= 'f'),
        forall|i: int|
            0 <= i < bytes@.len() ==> #[trigger] bytes@[i] == 16 * hex_worth(s@[2 * i])
                + hex_worth(s@[2 * i + 1]),
{
    assert forall|i: int| 0 <= i < bytes@.len() implies #[trigger] bytes@[i] == 16 * hex_worth(
        s@[2 * i],
    ) + hex_worth(s@[2 * i + 1]) by {
        assert(s@[2 * i] == hex_char(bytes@[i] as int / 16));
        assert(s@[2 * i + 1] == hex_char(bytes@[i] as int % 16));
    }
}

proof fn lemma_digits_read_back(n: usize)
    ensures
        digits_value(decimal_text(n as nat)) == Ok::<usize, CountError>(n),
    decreases n,
{
    let s = decimal_text(n as nat);
    if n >= 10 {
        lemma_digits_read_back(n / 10);
        assert(s.drop_last() == decimal_text((n / 10) as nat));
        assert(s.last() == digit_char((n % 10) as int));
    } else {
        assert(s.drop_last() == Seq::<char>::empty());
        assert(s.last() == digit_char(n as int));
        assert(digits_value(s.drop_last()) == Ok::<usize, CountError>(0));
        assert(is_digit(s.last()));
    }
}

proof fn lemma_decimal_nonempty(n: nat)
    ensures
        decimal_text(n).len() > 0,
    decreases n,
{
    if n >= 10 {
        lemma_decimal_nonempty(n / 10);
    }
}

pub(crate) proof fn lemma_decimal_chars(n: nat)
    ensures
        forall|i: int| 0 <= i < decimal_text(n).len() ==> is_digit(#[trigger] decimal_text(n)[i]),
    decreases n,
{
    if n >= 10 {
        lemma_decimal_chars(n / 10);
        let front = decimal_text(n / 10);
        assert forall|i: int| 0 <= i < decimal_text(n).len() implies is_digit(
            #[trigger] decimal_text(n)[i],
        ) by {
            if i < front.len() {
                assert(decimal_text(n)[i] == front[i]);
            }
        }
    }
}

pub(crate) proof fn lemma_hex_chars(bytes: Seq<u8>)
    ensures
        forall|i: int|
            0 <= i < hex_text(bytes).len() ==> (#[trigger] hex_text(bytes)[i]) != '.' && hex_text(
                bytes,
            )[i] != '/',
{
}

} // verus!
