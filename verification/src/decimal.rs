//! Decimal rendering and parsing of `usize` values.
use vstd::prelude::*;
use crate::text::{chars_of, push_char};

verus! {

/// The ASCII digit for `d` (`d < 10`).
pub open spec fn digit_char(d: nat) -> char {
    (d + 48) as char
}

/// The decimal digits of `n`, most significant first, without leading zeros.
pub open spec fn decimal(n: nat) -> Seq<char>
    decreases n,
{
    if n < 10 {
        seq![digit_char(n)]
    } else {
        decimal(n / 10).push(digit_char(n % 10))
    }
}

fn digit_of(d: usize) -> (c: char)
    requires
        d < 10,
    ensures
        c == digit_char(d as nat),
{
    let b: u8 = d as u8 + 48u8;
    b as char
}

/// Appends the decimal digits of `n` to `s`.
pub fn push_decimal(s: &mut String, n: usize)
    ensures
        final(s)@ == old(s)@ + decimal(n as nat),
    decreases n,
{
    if n >= 10 {
        push_decimal(s, n / 10);
    }
    let c = digit_of(n % 10);
    push_char(s, c);
    proof {
        if n >= 10 {
            assert(final(s)@ =~= old(s)@ + decimal(n as nat));
        } else {
            assert(final(s)@ =~= old(s)@ + decimal(n as nat));
        }
    }
}

/// Why a string is not a `usize` in decimal notation.
#[derive(Debug, Clone, Copy, PartialEq, Eq, Structural)]
pub enum IntErrorKind {
    /// The string is empty.
    Empty,
    /// A character is not a digit (a lone sign counts as one).
    InvalidDigit,
    /// The value does not fit in `usize`.
    PosOverflow,
}

impl IntErrorKind {
    /// The text that describes this error.
    pub fn message(&self) -> (res: String)
        ensures
            res@ == self.spec_message(),
    {
        match self {
            IntErrorKind::Empty => String::from_str("cannot parse integer from empty string"),
            IntErrorKind::InvalidDigit => String::from_str("invalid digit found in string"),
            IntErrorKind::PosOverflow => String::from_str("number too large to fit in target type"),
        }
    }

    pub open spec fn spec_message(&self) -> Seq<char> {
        match self {
            IntErrorKind::Empty => "cannot parse integer from empty string"@,
            IntErrorKind::InvalidDigit => "invalid digit found in string"@,
            IntErrorKind::PosOverflow => "number too large to fit in target type"@,
        }
    }
}

pub open spec fn is_digit(c: char) -> bool {
    '0' <= c && c <= '9'
}

pub open spec fn digit_value(c: char) -> int {
    c as int - 48
}

/// Reads the digits `s[i..]` onto the value `acc` read so far, left to
/// right: the first character that is not a digit is an invalid digit; the
/// first digit that takes the value past `usize::MAX` is an overflow.
pub open spec fn parse_digits_from(s: Seq<char>, i: int, acc: int) -> Result<int, IntErrorKind>
    decreases s.len() - i,
{
    if i >= s.len() {
        Ok(acc)
    } else if !is_digit(s[i]) {
        Err(IntErrorKind::InvalidDigit)
    } else if acc * 10 + digit_value(s[i]) > usize::MAX {
        Err(IntErrorKind::PosOverflow)
    } else {
        parse_digits_from(s, i + 1, acc * 10 + digit_value(s[i]))
    }
}

/// `s` read as a `usize`: an optional `+` and then decimal digits.
pub open spec fn parse_usize_spec(s: Seq<char>) -> Result<int, IntErrorKind> {
    if s.len() == 0 {
        Err(IntErrorKind::Empty)
    } else if (s[0] == '+' || s[0] == '-') && s.len() == 1 {
        Err(IntErrorKind::InvalidDigit)
    } else if s[0] == '+' {
        parse_digits_from(s, 1, 0)
    } else {
        parse_digits_from(s, 0, 0)
    }
}

proof fn lemma_parse_digits_bounded(s: Seq<char>, i: int, acc: int)
    requires
        0 <= acc <= usize::MAX,
    ensures
        parse_digits_from(s, i, acc) matches Ok(v) ==> 0 <= v <= usize::MAX,
    decreases s.len() - i,
{
    if i < s.len() && is_digit(s[i]) && acc * 10 + digit_value(s[i]) <= usize::MAX {
        lemma_parse_digits_bounded(s, i + 1, acc * 10 + digit_value(s[i]));
    }
}

/// Parses `value` as a `usize` in decimal, the way `str::parse::<usize>` does.
pub fn parse_usize(value: &str) -> (res: Result<usize, IntErrorKind>)
    ensures
        match res {
            Ok(n) => parse_usize_spec(value@) == Ok::<int, IntErrorKind>(n as int),
            Err(e) => parse_usize_spec(value@) == Err::<int, IntErrorKind>(e),
        },
{
    let chars = chars_of(value);
    if chars.len() == 0 {
        return Err(IntErrorKind::Empty);
    }
    if (chars[0] == '+' || chars[0] == '-') && chars.len() == 1 {
        return Err(IntErrorKind::InvalidDigit);
    }
    let mut i: usize = if chars[0] == '+' { 1 } else { 0 };
    let mut acc: usize = 0;
    while i < chars.len()
        invariant
            chars@ == value@,
            i <= chars.len(),
            parse_usize_spec(value@) == parse_digits_from(value@, i as int, acc as int),
        decreases chars.len() - i,
    {
        let c = chars[i];
        if !('0' <= c && c <= '9') {
            return Err(IntErrorKind::InvalidDigit);
        }
        let d: usize = (c as u32 - 48u32) as usize;
        if acc > (usize::MAX - d) / 10 {
            proof {
                assert(acc * 10 + d > usize::MAX) by (nonlinear_arith)
                    requires
                        acc > (usize::MAX - d) / 10,
                        d <= 9,
                ;
            }
            return Err(IntErrorKind::PosOverflow);
        }
        proof {
            assert(acc * 10 + d <= usize::MAX) by (nonlinear_arith)
                requires
                    acc <= (usize::MAX - d) / 10,
                    d <= 9,
            ;
        }
        acc = acc * 10 + d;
        i = i + 1;
    }
    Ok(acc)
}

/// Reading back the decimal digits of `n` gives `n`.
pub proof fn lemma_parse_decimal_roundtrip(n: usize)
    ensures
        parse_usize_spec(decimal(n as nat)) == Ok::<int, IntErrorKind>(n as int),
{
    lemma_decimal_digits(n as nat);
    lemma_digits_value_decimal(n as nat);
    lemma_parse_digits_value(decimal(n as nat), n as nat);
}

/// `decimal(n)` is a non-empty run of digits whose value is `n`.
proof fn lemma_decimal_digits(n: nat)
    ensures
        decimal(n).len() > 0,
        forall|j: int| 0 <= j < decimal(n).len() ==> is_digit(#[trigger] decimal(n)[j]),
        n >= 10 ==> decimal(n)[0] != '0',
    decreases n,
{
    if n >= 10 {
        lemma_decimal_digits(n / 10);
    }
}

/// The value of a run of digits.
pub open spec fn digits_value(s: Seq<char>) -> int
    decreases s.len(),
{
    if s.len() == 0 {
        0
    } else {
        digits_value(s.drop_last()) * 10 + digit_value(s.last())
    }
}

proof fn lemma_digits_value_decimal(n: nat)
    ensures
        digits_value(decimal(n)) == n,
    decreases n,
{
    if n >= 10 {
        lemma_digits_value_decimal(n / 10);
        assert(decimal(n).drop_last() =~= decimal(n / 10));
        assert(digit_value(digit_char(n % 10)) == n % 10);
        assert((n / 10) * 10 + n % 10 == n) by (nonlinear_arith);
        assert(decimal(n).last() == digit_char(n % 10));
        assert(digits_value(decimal(n)) == digits_value(decimal(n / 10)) * 10 + digit_value(
            digit_char(n % 10),
        ));
    } else {
        assert(digit_value(digit_char(n)) == n);
        assert(decimal(n).last() == digit_char(n));
        assert(decimal(n).drop_last() =~= Seq::<char>::empty());
        assert(digits_value(Seq::<char>::empty()) == 0);
    }
}

proof fn lemma_digits_value_monotone(s: Seq<char>, k: int)
    requires
        0 <= k <= s.len(),
        forall|j: int| 0 <= j < s.len() ==> is_digit(#[trigger] s[j]),
    ensures
        0 <= digits_value(s.take(k)) <= digits_value(s),
    decreases s.len(),
{
    if s.len() > 0 {
        if k == s.len() {
            assert(s.take(k) =~= s);
            lemma_digits_value_monotone(s.drop_last(), k - 1);
            assert(s.drop_last().take(k - 1) =~= s.drop_last());
        } else {
            lemma_digits_value_monotone(s.drop_last(), k);
            assert(s.drop_last().take(k) =~= s.take(k));
        }
    } else {
        assert(s.take(k) =~= s);
    }
}

proof fn lemma_parse_digits_value(s: Seq<char>, n: nat)
    requires
        s.len() > 0,
        n <= usize::MAX,
        forall|j: int| 0 <= j < s.len() ==> is_digit(#[trigger] s[j]),
        digits_value(s) == n,
        s[0] != '+' && s[0] != '-',
    ensures
        parse_usize_spec(s) == Ok::<int, IntErrorKind>(n as int),
{
    assert forall|i: int| 0 <= i <= s.len() implies parse_digits_from(s, i, digits_value(s.take(i)))
        == Ok::<int, IntErrorKind>(n as int) by {
        lemma_parse_digits_suffix(s, i, n);
    }
    assert(s.take(0) =~= Seq::<char>::empty());
}

proof fn lemma_parse_digits_suffix(s: Seq<char>, i: int, n: nat)
    requires
        0 <= i <= s.len(),
        n <= usize::MAX,
        forall|j: int| 0 <= j < s.len() ==> is_digit(#[trigger] s[j]),
        digits_value(s) == n,
    ensures
        parse_digits_from(s, i, digits_value(s.take(i))) == Ok::<int, IntErrorKind>(n as int),
    decreases s.len() - i,
{
    if i == s.len() {
        assert(s.take(i) =~= s);
    } else {
        assert(s.take(i + 1).drop_last() =~= s.take(i));
        lemma_digits_value_monotone(s, i + 1);
        lemma_parse_digits_suffix(s, i + 1, n);
    }
}

proof fn lemma_parse_digits_result(s: Seq<char>, start: int, i: int, acc: int)
    requires
        0 <= start <= i <= s.len(),
        acc == digits_value(s.subrange(start, i)),
        forall|j: int| start <= j < i ==> is_digit(#[trigger] s[j]),
        parse_digits_from(s, i, acc) is Ok,
    ensures
        forall|j: int| start <= j < s.len() ==> is_digit(#[trigger] s[j]),
        parse_digits_from(s, i, acc) == Ok::<int, IntErrorKind>(
            digits_value(s.subrange(start, s.len() as int)),
        ),
    decreases s.len() - i,
{
    if i < s.len() {
        let next = acc * 10 + digit_value(s[i]);
        assert(s.subrange(start, i + 1).drop_last() =~= s.subrange(start, i));
        assert(s.subrange(start, i + 1).last() == s[i]);
        lemma_parse_digits_result(s, start, i + 1, next);
    }
}

/// `s` without a leading `+`.
pub open spec fn digits_after_sign(s: Seq<char>) -> Seq<char> {
    if s.len() > 0 && s[0] == '+' {
        s.drop_first()
    } else {
        s
    }
}

/// A text is read as the number `n` only when it is an optional `+`
/// followed by one or more ASCII digits whose decimal value is `n`; and
/// every such text whose value fits in `usize` is read as that value.
pub proof fn lemma_parse_usize_reads_digits(s: Seq<char>)
    ensures
        parse_usize_spec(s) matches Ok(n) ==> {
            &&& digits_after_sign(s).len() > 0
            &&& forall|j: int|
                0 <= j < digits_after_sign(s).len() ==> '0' <= #[trigger] digits_after_sign(s)[j]
                    && digits_after_sign(s)[j] <= '9'
            &&& n == digits_value(digits_after_sign(s))
        },
        s.len() > 0 && (forall|j: int| 0 <= j < s.len() ==> '0' <= #[trigger] s[j] && s[j] <= '9')
            && digits_value(s) <= usize::MAX ==> parse_usize_spec(s) == Ok::<int, IntErrorKind>(
            digits_value(s),
        ),
{
    if parse_usize_spec(s) is Ok {
        let start: int = if s[0] == '+' {
            1
        } else {
            0
        };
        assert(digits_value(s.subrange(start, start)) == 0) by {
            assert(s.subrange(start, start) =~= Seq::<char>::empty());
        }
        lemma_parse_digits_result(s, start, start, 0);
        assert(digits_after_sign(s) =~= s.subrange(start, s.len() as int));
    }
    if s.len() > 0 && (forall|j: int| 0 <= j < s.len() ==> '0' <= #[trigger] s[j] && s[j] <= '9')
        && digits_value(s) <= usize::MAX {
        lemma_digits_value_nonneg(s);
        lemma_parse_digits_value(s, digits_value(s) as nat);
    }
}

proof fn lemma_digits_value_nonneg(s: Seq<char>)
    requires
        forall|j: int| 0 <= j < s.len() ==> is_digit(#[trigger] s[j]),
    ensures
        digits_value(s) >= 0,
    decreases s.len(),
{
    if s.len() > 0 {
        lemma_digits_value_nonneg(s.drop_last());
    }
}

} // verus!
