use vstd::prelude::*;
use vstd::utf8::*;

verus! {

/// The carriage-return byte.
pub const CR: u8 = 13;

/// The line-feed byte.
pub const LF: u8 = 10;

/// True of the two bytes that end a line: carriage return and line feed.
pub open spec fn is_delimiter(b: u8) -> bool {
    b == CR || b == LF
}

/// True if some byte of `s` is a carriage return or a line feed.
pub open spec fn has_delimiter(s: Seq<u8>) -> bool {
    exists|i: int| 0 <= i < s.len() && is_delimiter(#[trigger] s[i])
}

/// True of the two characters that end a line.
pub open spec fn is_line_break(c: char) -> bool {
    c == '\r' || c == '\n'
}

/// True if some character of `t` is a carriage return or a line feed.
pub open spec fn has_line_break(t: Seq<char>) -> bool {
    exists|i: int| 0 <= i < t.len() && is_line_break(#[trigger] t[i])
}

/// The UTF-8 bytes of a concatenation are the concatenation of the UTF-8
/// bytes.
pub proof fn lemma_encode_utf8_concat(a: Seq<char>, b: Seq<char>)
    ensures
        encode_utf8(a + b) == encode_utf8(a) + encode_utf8(b),
    decreases a.len(),
{
    if a.len() == 0 {
        assert(a + b =~= b);
        assert(encode_utf8(a) =~= Seq::<u8>::empty());
        assert(encode_utf8(a) + encode_utf8(b) =~= encode_utf8(b));
    } else {
        let ab = a + b;
        assert(ab[0] == a[0]);
        assert(ab.drop_first() =~= a.drop_first() + b);
        lemma_encode_utf8_concat(a.drop_first(), b);
        assert(encode_utf8(ab) =~= encode_utf8(a) + encode_utf8(b));
    }
}

/// A character below 128 is encoded as the one byte of its code.
pub proof fn lemma_encode_utf8_ascii_char(c: char)
    requires
        (c as u32) < 128,
    ensures
        encode_utf8(seq![c]) == seq![c as u8],
{
    let t = seq![c];
    let v = c as u32;
    assert(v as u8 == leading_byte_width_1(v)) by (bit_vector)
        requires
            has_width_1_encoding(v),
    ;
    assert(t.drop_first().len() == 0);
    assert(encode_utf8(t.drop_first()) =~= Seq::<u8>::empty());
    assert(encode_utf8(t) =~= seq![c as u8]);
}

/// The UTF-8 bytes of one character hold a delimiter exactly if the
/// character is a line break.
proof fn lemma_scalar_delimiter(c: char)
    ensures
        has_delimiter(encode_scalar(c as u32)) == is_line_break(c),
{
    let v = c as u32;
    let e = encode_scalar(v);
    char_is_scalar(c);
    if has_width_1_encoding(v) {
        assert(v as u8 == leading_byte_width_1(v)) by (bit_vector)
            requires
                has_width_1_encoding(v),
        ;
        assert(e[0] == v as u8);
        if is_line_break(c) {
            assert(is_delimiter(e[0]));
        }
    } else {
        assert(leading_byte_width_2(v) >= 0x80 && leading_byte_width_3(v) >= 0x80
            && leading_byte_width_4(v) >= 0x80 && last_continuation_byte(v) >= 0x80
            && second_last_continuation_byte(v) >= 0x80 && third_last_continuation_byte(v)
            >= 0x80) by (bit_vector);
        assert forall|i: int| 0 <= i < e.len() implies !is_delimiter(#[trigger] e[i]) by {}
    }
}

/// A text holds a line break exactly if its UTF-8 bytes hold a delimiter.
pub proof fn lemma_line_break_bytes(t: Seq<char>)
    ensures
        has_delimiter(encode_utf8(t)) == has_line_break(t),
    decreases t.len(),
{
    if t.len() == 0 {
        assert(encode_utf8(t).len() == 0);
    } else {
        let head = encode_scalar(t[0] as u32);
        let tail = encode_utf8(t.drop_first());
        let all = encode_utf8(t);
        assert(all == head + tail);
        lemma_scalar_delimiter(t[0]);
        lemma_line_break_bytes(t.drop_first());
        if has_line_break(t) {
            let i = choose|i: int| 0 <= i < t.len() && is_line_break(#[trigger] t[i]);
            if i == 0 {
                let j = choose|j: int| 0 <= j < head.len() && is_delimiter(#[trigger] head[j]);
                assert(all[j] == head[j]);
            } else {
                assert(t.drop_first()[i - 1] == t[i]);
                assert(has_line_break(t.drop_first()));
                let j = choose|j: int| 0 <= j < tail.len() && is_delimiter(#[trigger] tail[j]);
                assert(all[head.len() + j] == tail[j]);
            }
            assert(has_delimiter(all));
        }
        if has_delimiter(all) {
            let j = choose|j: int| 0 <= j < all.len() && is_delimiter(#[trigger] all[j]);
            if j < head.len() {
                assert(head[j] == all[j]);
                assert(has_delimiter(head));
                assert(is_line_break(t[0]));
            } else {
                assert(tail[j - head.len()] == all[j]);
                assert(has_delimiter(tail));
                let i = choose|i: int|
                    0 <= i < t.drop_first().len() && is_line_break(#[trigger] t.drop_first()[i]);
                assert(t[i + 1] == t.drop_first()[i]);
            }
            assert(has_line_break(t));
        }
    }
}

/// Calls `String::from_utf8`: the bytes become a text exactly if they are
/// well-formed UTF-8, and the text is then the one that they encode.
#[verifier::external_body]
pub(crate) fn string_from_utf8(bytes: Vec<u8>) -> (r: Option<String>)
    ensures
        r is Some == valid_utf8(bytes@),
        r matches Some(text) ==> text@ == decode_utf8(bytes@),
{
    match String::from_utf8(bytes) {
        Ok(text) => Some(text),
        Err(_) => None,
    }
}

} // verus!
