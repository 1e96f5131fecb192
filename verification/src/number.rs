use crate::text::lemma_encode_utf8_ascii_char;
use crate::text::lemma_encode_utf8_concat;
use vstd::prelude::*;
use vstd::string::*;
use vstd::utf8::*;

verus! {

/// True of the ten decimal digits `0` to `9`.
pub open spec fn is_digit(c: char) -> bool {
    '0' <= c <= '9'
}

/// The number that a decimal digit stands for.
pub open spec fn digit_value(c: char) -> nat {
    (c as u32 - 48) as nat
}

/// The decimal digit that stands for `d`, for `d` below ten.
pub open spec fn digit_char(d: nat) -> char {
    ((d + 48) as u8) as char
}

/// The code of a character that is known to be a `char`: the digits have the
/// codes 48 to 57, and a code below 128 fits in a byte.
pub proof fn lemma_char_code(c: char)
    ensures
        is_digit(c) <==> 48 <= c as u32 <= 57,
        c == '-' <==> c as u32 == 45,
        '\0' <= c <= '\u{7f}' <==> (c as u32) < 128,
        (c as u32) < 128 ==> c as u8 == c as u32,
{
}

/// True if every character of `s` is a decimal digit.
pub open spec fn all_digits(s: Seq<char>) -> bool {
    forall|i: int| 0 <= i < s.len() ==> is_digit(#[trigger] s[i])
}

/// The number that a run of decimal digits denotes, most significant digit
/// first. The empty run denotes zero.
pub open spec fn digits_value(s: Seq<char>) -> nat
    decreases s.len(),
{
    if s.len() == 0 {
        0
    } else {
        10 * digits_value(s.drop_last()) + digit_value(s.last())
    }
}

/// The integer that a text denotes, if it is an integer text: an optional
/// `-` followed by one or more decimal digits and nothing else.
pub open spec fn integer_of_text(s: Seq<char>) -> Option<int> {
    if s.len() > 0 && s[0] == '-' {
        let digits = s.skip(1);
        if digits.len() > 0 && all_digits(digits) {
            Some(-(digits_value(digits) as int))
        } else {
            None
        }
    } else if s.len() > 0 && all_digits(s) {
        Some(digits_value(s) as int)
    } else {
        None
    }
}

/// The decimal text of a natural number, without leading zeros.
pub open spec fn text_of_nat(n: nat) -> Seq<char>
    decreases n,
{
    if n < 10 {
        seq![digit_char(n)]
    } else {
        text_of_nat(n / 10).push(digit_char(n % 10))
    }
}

/// The decimal text of an integer: a `-` in front of a negative one.
pub open spec fn text_of_integer(n: int) -> Seq<char> {
    if n < 0 {
        seq!['-'] + text_of_nat((-n) as nat)
    } else {
        text_of_nat(n as nat)
    }
}

/// The decimal text of a natural number is a non-empty run of digits that
/// denotes that number.
pub proof fn lemma_text_of_nat(n: nat)
    ensures
        text_of_nat(n).len() > 0,
        all_digits(text_of_nat(n)),
        digits_value(text_of_nat(n)) == n,
    decreases n,
{
    lemma_char_code(digit_char(n % 10));
    if n < 10 {
        let t = text_of_nat(n);
        assert(t.drop_last().len() == 0);
        assert(digits_value(t.drop_last()) == 0);
        assert(t.last() == digit_char(n));
    } else {
        lemma_text_of_nat(n / 10);
        let head = text_of_nat(n / 10);
        let t = text_of_nat(n);
        assert(t.drop_last() =~= head);
        assert(t.last() == digit_char(n % 10));
        assert forall|i: int| 0 <= i < t.len() implies is_digit(#[trigger] t[i]) by {
            if i < head.len() {
                assert(t[i] == head[i]);
            }
        }
    }
}

/// Reading back the decimal text of an integer gives that integer.
pub proof fn lemma_integer_text_round_trip(n: int)
    ensures
        integer_of_text(text_of_integer(n)) == Some(n),
{
    if n < 0 {
        let m = (-n) as nat;
        lemma_text_of_nat(m);
        let t = text_of_integer(n);
        assert(t.skip(1) =~= text_of_nat(m));
        assert(t[0] == '-');
    } else {
        lemma_text_of_nat(n as nat);
        let t = text_of_nat(n as nat);
        assert(is_digit(t[0]));
        lemma_char_code(t[0]);
    }
}

/// The 64-bit integer that a text denotes: none if it is no integer text or
/// if the integer does not fit.
pub open spec fn spec_parse_integer(s: Seq<char>) -> Option<i64> {
    match integer_of_text(s) {
        Some(n) => if i64::MIN <= n <= i64::MAX {
            Some(n as i64)
        } else {
            None
        },
        None => None,
    }
}

/// A run of digits denotes at least what any of its prefixes denotes.
proof fn lemma_digits_value_prefix(s: Seq<char>, k: int)
    requires
        0 <= k <= s.len(),
    ensures
        digits_value(s.take(k)) <= digits_value(s),
    decreases s.len(),
{
    if k == s.len() {
        assert(s.take(k) =~= s);
    } else {
        lemma_digits_value_prefix(s.drop_last(), k);
        assert(s.drop_last().take(k) =~= s.take(k));
    }
}

/// An integer text holds no character outside ASCII.
proof fn lemma_integer_text_is_ascii(s: Seq<char>)
    requires
        integer_of_text(s) is Some,
    ensures
        is_ascii_chars(s),
{
    assert forall|i: int| 0 <= i < s.len() implies '\0' <= #[trigger] s[i] <= '\u{7f}' by {
        lemma_char_code(s[i]);
        if s[0] == '-' {
            if i > 0 {
                assert(s[i] == s.skip(1)[i - 1]);
                assert(is_digit(s.skip(1)[i - 1]));
            }
        } else {
            assert(is_digit(s[i]));
        }
    }
}

/// Reads a decimal integer: an optional `-`, then one or more digits. Any
/// other text, and an integer outside the 64-bit range, gives `None`.
pub fn parse_integer(text: &str) -> (r: Option<i64>)
    ensures
        r == spec_parse_integer(text@),
{
    broadcast use is_ascii_spec_bytes;

    if !text.is_ascii() {
        proof {
            if integer_of_text(text@) is Some {
                lemma_integer_text_is_ascii(text@);
            }
        }
        return None;
    }
    let bytes = text.as_bytes();
    let n: usize = bytes.len();
    assert(n == text@.len());
    assert(forall|i: int| 0 <= i < n ==> bytes@[i] == text@[i] as u8);
    if n == 0 {
        return None;
    }
    let negative = bytes[0] == 45u8;
    proof {
        lemma_char_code(text@[0]);
    }
    assert(negative == (text@[0] == '-'));
    let start: usize = if negative {
        1
    } else {
        0
    };
    if start == n {
        return None;
    }
    let limit: u64 = if negative {
        9223372036854775808
    } else {
        9223372036854775807
    };
    let ghost digits = text@.skip(start as int);
    let mut acc: u64 = 0;
    let mut i: usize = start;
    while i < n
        invariant
            start <= i <= n,
            n == text@.len(),
            n == bytes@.len(),
            digits == text@.skip(start as int),
            forall|j: int| 0 <= j < n ==> bytes@[j] == text@[j] as u8,
            is_ascii_chars(text@),
            all_digits(digits.take(i - start)),
            acc == digits_value(digits.take(i - start)),
            acc <= limit,
            negative == (text@[0] == '-'),
            start == if negative { 1usize } else { 0usize },
            limit == if negative { 9223372036854775808u64 } else { 9223372036854775807u64 },
        decreases n - i,
    {
        let b: u8 = bytes[i];
        assert(digits[i - start] == text@[i as int]);
        proof {
            lemma_char_code(text@[i as int]);
        }
        if b < 48 || b > 57 {
            assert(!is_digit(digits[i - start]));
            assert(!negative ==> digits =~= text@);
            return None;
        }
        let d: u64 = (b - 48) as u64;
        let ghost next = digits.take(i - start + 1);
        proof {
            assert(next.drop_last() =~= digits.take(i - start));
            assert(next.last() == digits[i - start]);
            assert(digit_value(next.last()) == d);
            assert(digits_value(next) == 10 * acc + d);
            assert forall|j: int| 0 <= j < next.len() implies is_digit(#[trigger] next[j]) by {
                if j < i - start {
                    assert(next[j] == digits.take(i - start)[j]);
                }
            }
        }
        if acc > (limit - d) / 10 {
            proof {
                lemma_digits_value_prefix(digits, i - start + 1);
                assert(!negative ==> digits =~= text@);
            }
            return None;
        }
        acc = acc * 10 + d;
        i = i + 1;
    }
    assert(digits.take(i - start) =~= digits);
    if negative {
        if acc == 9223372036854775808 {
            Some(i64::MIN)
        } else {
            Some(-(acc as i64))
        }
    } else {
        assert(digits =~= text@);
        Some(acc as i64)
    }
}

/// Appends the decimal text of `n` to `out`.
pub fn push_nat(out: &mut Vec<u8>, n: u64)
    ensures
        final(out)@ == old(out)@ + encode_utf8(text_of_nat(n as nat)),
    decreases n,
{
    if n >= 10 {
        push_nat(out, n / 10);
    }
    let d: u8 = (n % 10) as u8;
    let b: u8 = 48 + d;
    out.push(b);
    proof {
        let c = digit_char(d as nat);
        lemma_char_code(c);
        assert(c as u8 == b);
        lemma_encode_utf8_ascii_char(c);
        if n >= 10 {
            let head = text_of_nat((n / 10) as nat);
            assert(text_of_nat(n as nat) =~= head + seq![c]);
            lemma_encode_utf8_concat(head, seq![c]);
            assert(final(out)@ =~= old(out)@ + (encode_utf8(head) + seq![b]));
        } else {
            assert(final(out)@ =~= old(out)@ + seq![b]);
        }
    }
}

/// Appends the decimal text of `n` to `out`, with a `-` in front if it is
/// negative.
pub fn push_integer(out: &mut Vec<u8>, n: i64)
    ensures
        final(out)@ == old(out)@ + encode_utf8(text_of_integer(n as int)),
{
    if n < 0 {
        let magnitude: u64 = if n == i64::MIN {
            9223372036854775808
        } else {
            (-n) as u64
        };
        out.push(45u8);
        push_nat(out, magnitude);
        proof {
            let digits = text_of_nat(magnitude as nat);
            lemma_encode_utf8_ascii_char('-');
            lemma_encode_utf8_concat(seq!['-'], digits);
            assert(final(out)@ =~= old(out)@ + (seq![45u8] + encode_utf8(digits)));
        }
    } else {
        push_nat(out, n as u64);
    }
}

} // verus!
