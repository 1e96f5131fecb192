use crate::number::lemma_char_code;
use crate::number::push_nat;
use crate::number::push_integer;
use crate::number::text_of_integer;
use crate::resp::MyError;
use crate::text::has_delimiter;
use crate::text::has_line_break;
use crate::text::is_delimiter;
use crate::text::lemma_encode_utf8_ascii_char;
use crate::text::lemma_encode_utf8_concat;
use crate::text::lemma_line_break_bytes;
use crate::text::CR;
use crate::text::LF;
use crate::value::lemma_array_view;
use crate::value::views;
use crate::value::SpecValue;
use crate::value::Value;
use vstd::prelude::*;
use vstd::string::*;
use vstd::utf8::*;

verus! {

/// The greatest length that a header can announce.
pub const MAX_LENGTH: u64 = 9223372036854775807;

/// True of the values that have a wire form: no error message holds a line
/// break, and every length fits in a header.
pub open spec fn encodable(v: SpecValue) -> bool
    decreases v,
{
    match v {
        SpecValue::Null => true,
        SpecValue::Number(_) => true,
        SpecValue::Error(text) => !has_line_break(text),
        SpecValue::String(text) => encode_utf8(text).len() <= MAX_LENGTH,
        SpecValue::Array(items) => items.len() <= MAX_LENGTH && forall|i: int|
            0 <= i < items.len() ==> encodable(#[trigger] items[i]),
    }
}

/// The bytes of one line: the text in UTF-8, then carriage return and line
/// feed.
pub open spec fn line(text: Seq<char>) -> Seq<u8> {
    encode_utf8(text) + seq![CR, LF]
}

/// The wire form of a value. A text is always written as a bulk string, and
/// the absent value as the null bulk string.
pub open spec fn wire(v: SpecValue) -> Seq<u8>
    decreases v,
{
    match v {
        SpecValue::Null => line(seq!['$', '-', '1']),
        SpecValue::Number(n) => line(seq![':'] + text_of_integer(n as int)),
        SpecValue::Error(text) => line(seq!['-'] + text),
        SpecValue::String(text) => line(
            seq!['$'] + text_of_integer(encode_utf8(text).len() as int),
        ) + encode_utf8(text) + seq![CR, LF],
        SpecValue::Array(items) => line(seq!['*'] + text_of_integer(items.len() as int))
            + wire_all(items),
    }
}

/// The wire forms of a sequence of values, one after the other.
pub open spec fn wire_all(items: Seq<SpecValue>) -> Seq<u8>
    decreases items,
{
    if items.len() == 0 {
        Seq::empty()
    } else {
        wire(items[0]) + wire_all(items.drop_first())
    }
}

/// The wire forms of a sequence with one more value at its end.
pub proof fn lemma_wire_all_push(items: Seq<SpecValue>, last: SpecValue)
    ensures
        wire_all(items.push(last)) == wire_all(items) + wire(last),
    decreases items.len(),
{
    let whole = items.push(last);
    if items.len() == 0 {
        assert(whole.drop_first() =~= Seq::<SpecValue>::empty());
        assert(wire_all(whole.drop_first()) =~= Seq::<u8>::empty());
        assert(wire_all(whole) =~= wire_all(items) + wire(last));
    } else {
        assert(whole.drop_first() =~= items.drop_first().push(last));
        lemma_wire_all_push(items.drop_first(), last);
        assert(wire_all(whole) =~= wire_all(items) + wire(last));
    }
}

/// A line that begins with an ASCII character is that character's byte,
/// then the rest of the text in UTF-8, then the terminator.
pub proof fn lemma_line_with_tag(tag: char, rest: Seq<char>)
    requires
        (tag as u32) < 128,
    ensures
        line(seq![tag] + rest) == seq![tag as u8] + encode_utf8(rest) + seq![CR, LF],
{
    lemma_encode_utf8_ascii_char(tag);
    lemma_encode_utf8_concat(seq![tag], rest);
}

/// Tells whether a carriage return or a line feed is among the bytes.
fn contains_delimiter(bytes: &[u8]) -> (r: bool)
    ensures
        r == has_delimiter(bytes@),
{
    let mut i: usize = 0;
    while i < bytes.len()
        invariant
            i <= bytes@.len(),
            forall|j: int| 0 <= j < i ==> !is_delimiter(#[trigger] bytes@[j]),
        decreases bytes@.len() - i,
    {
        if bytes[i] == CR || bytes[i] == LF {
            return true;
        }
        i = i + 1;
    }
    false
}

/// Appends `bytes` to `out`.
fn push_bytes(out: &mut Vec<u8>, bytes: &[u8])
    ensures
        final(out)@ == old(out)@ + bytes@,
{
    out.extend_from_slice(bytes);
    assert(final(out)@ =~= old(out)@ + bytes@);
}

/// Appends a header line to `out`: the tag, the decimal length, and the
/// line terminator.
fn push_header(out: &mut Vec<u8>, tag: u8, length: u64)
    requires
        tag < 128,
    ensures
        final(out)@ == old(out)@ + line(seq![tag as char] + text_of_integer(length as int)),
{
    out.push(tag);
    push_nat(out, length);
    out.push(CR);
    out.push(LF);
    proof {
        let digits = text_of_integer(length as int);
        lemma_char_code(tag as char);
        lemma_line_with_tag(tag as char, digits);
        assert(final(out)@ =~= old(out)@ + (seq![tag] + encode_utf8(digits) + seq![CR, LF]));
    }
}

/// Appends the wire form of `value` to `out`. On an error `out` holds a
/// part of the wire form behind what it held.
pub fn encode_into(value: &Value, out: &mut Vec<u8>) -> (r: Result<(), MyError>)
    ensures
        match r {
            Ok(_) => encodable(value@) && final(out)@ == old(out)@ + wire(value@),
            Err(e) => !encodable(value@) && e == MyError::EncodeError,
        },
    decreases value,
{
    match value {
        Value::Null => {
            out.push(36u8);
            out.push(45u8);
            out.push(49u8);
            out.push(CR);
            out.push(LF);
            proof {
                lemma_line_with_tag('$', seq!['-', '1']);
                lemma_encode_utf8_concat(seq!['-'], seq!['1']);
                lemma_encode_utf8_ascii_char('-');
                lemma_encode_utf8_ascii_char('1');
                assert(seq!['$', '-', '1'] =~= seq!['$'] + seq!['-', '1']);
                assert(seq!['-', '1'] =~= seq!['-'] + seq!['1']);
                assert(encode_utf8(seq!['-', '1']) =~= seq![45u8, 49u8]);
                assert(final(out)@ =~= old(out)@ + wire(value@));
            }
            Ok(())
        },
        Value::Number(n) => {
            out.push(58u8);
            push_integer(out, *n);
            out.push(CR);
            out.push(LF);
            proof {
                let digits = text_of_integer(*n as int);
                lemma_line_with_tag(':', digits);
                assert(final(out)@ =~= old(out)@ + (seq![58u8] + encode_utf8(digits) + seq![
                    CR,
                    LF,
                ]));
            }
            Ok(())
        },
        Value::Error(text) => {
            let bytes = text.as_str().as_bytes();
            proof {
                lemma_line_break_bytes(text@);
            }
            if contains_delimiter(bytes) {
                return Err(MyError::EncodeError);
            }
            out.push(45u8);
            push_bytes(out, bytes);
            out.push(CR);
            out.push(LF);
            proof {
                lemma_line_with_tag('-', text@);
                assert(final(out)@ =~= old(out)@ + (seq![45u8] + encode_utf8(text@) + seq![
                    CR,
                    LF,
                ]));
            }
            Ok(())
        },
        Value::String(text) => {
            let bytes = text.as_str().as_bytes();
            let length: usize = bytes.len();
            if length as u64 > MAX_LENGTH {
                return Err(MyError::EncodeError);
            }
            push_header(out, 36u8, length as u64);
            push_bytes(out, bytes);
            out.push(CR);
            out.push(LF);
            proof {
                lemma_char_code('$');
                assert(final(out)@ =~= old(out)@ + wire(value@));
            }
            Ok(())
        },
        Value::Array(items) => {
            let count: usize = items.len();
            proof {
                lemma_array_view(*items);
            }
            if count as u64 > MAX_LENGTH {
                return Err(MyError::EncodeError);
            }
            push_header(out, 42u8, count as u64);
            let ghost header = out@;
            let ghost models = views(items@);
            let mut i: usize = 0;
            while i < count
                invariant
                    i <= count,
                    count == items@.len(),
                    models == views(items@),
                    value@ == SpecValue::Array(models),
                    *value == Value::Array(*items),
                    forall|j: int| 0 <= j < i ==> encodable(#[trigger] models[j]),
                    out@ == header + wire_all(models.take(i as int)),
                decreases count - i,
            {
                let ghost before = out@;
                match encode_into(&items[i], out) {
                    Ok(()) => {},
                    Err(e) => {
                        assert(!encodable(models[i as int]));
                        return Err(e);
                    },
                }
                proof {
                    assert(models.take(i + 1) =~= models.take(i as int).push(models[i as int]));
                    lemma_wire_all_push(models.take(i as int), models[i as int]);
                    assert(out@ =~= header + wire_all(models.take(i + 1)));
                }
                i = i + 1;
            }
            proof {
                lemma_char_code('*');
                assert(models.take(i as int) =~= models);
                assert(final(out)@ =~= old(out)@ + wire(value@));
            }
            Ok(())
        },
    }
}

/// Writes a value in the wire format. A value that has no wire form gives
/// `EncodeError`.
pub fn encode(value: &Value) -> (r: Result<Vec<u8>, MyError>)
    ensures
        match r {
            Ok(bytes) => encodable(value@) && bytes@ == wire(value@),
            Err(e) => !encodable(value@) && e == MyError::EncodeError,
        },
{
    let mut out: Vec<u8> = Vec::new();
    match encode_into(value, &mut out) {
        Ok(()) => {
            assert(out@ =~= wire(value@));
            Ok(out)
        },
        Err(e) => Err(e),
    }
}

} // verus!
