use crate::encoder::encodable;
use crate::encoder::line;
use crate::encoder::wire;
use crate::encoder::wire_all;
use crate::encoder::MAX_LENGTH;
use crate::frame::lemma_line_end_at;
use crate::frame::lemma_line_end_first;
use crate::frame::line_end;
use crate::frame::spec_read_exact;
use crate::frame::spec_read_line;
use crate::frame::Progress;
use crate::number::is_digit;
use crate::number::lemma_char_code;
use crate::number::integer_of_text;
use crate::number::lemma_integer_text_round_trip;
use crate::number::lemma_text_of_nat;
use crate::number::spec_parse_integer;
use crate::number::text_of_integer;
use crate::number::text_of_nat;
use crate::resp::lemma_decode_used;
use crate::resp::spec_decode;
use crate::resp::spec_decode_bulk;
use crate::resp::spec_decode_items;
use crate::resp::spec_parse;
use crate::resp::MyError;
use crate::text::has_line_break;
use crate::text::is_delimiter;
use crate::text::is_line_break;
use crate::text::lemma_line_break_bytes;
use crate::text::CR;
use crate::text::LF;
use crate::value::SpecValue;
use vstd::prelude::*;
use vstd::utf8::*;

verus! {

/// A line that was read stays as it was read when more bytes arrive behind
/// it, and when the stream ends.
pub proof fn lemma_read_line_stable(s: Seq<u8>, more: Seq<u8>, eof: bool)
    requires
        !(spec_read_line(s, false) is Incomplete),
    ensures
        spec_read_line(s + more, eof) == spec_read_line(s, false),
{
    let k = line_end(s) as int;
    let longer = s + more;
    lemma_line_end_first(s);
    assert forall|j: int| 0 <= j < k implies !is_delimiter(#[trigger] longer[j]) by {
        assert(longer[j] == s[j]);
    }
    assert(longer[k] == s[k]);
    lemma_line_end_at(longer, k);
    if k + 1 < s.len() {
        assert(longer[k + 1] == s[k + 1]);
    }
    assert(longer.take(k) =~= s.take(k));
}

/// A block that was read stays as it was read when more bytes arrive behind
/// it, and when the stream ends.
pub proof fn lemma_read_exact_stable(s: Seq<u8>, more: Seq<u8>, eof: bool, n: nat)
    requires
        !(spec_read_exact(s, false, n) is Incomplete),
    ensures
        spec_read_exact(s + more, eof, n) == spec_read_exact(s, false, n),
{
    let longer = s + more;
    assert(longer[n as int] == s[n as int]);
    if n + 1 < s.len() {
        assert(longer[n as int + 1] == s[n as int + 1]);
    }
    assert(longer.take(n as int) =~= s.take(n as int));
}

/// What the decoder made of the bytes of an open stream, it makes of them
/// whatever arrives behind them and whether or not the stream then ends: a
/// value read stays that value, an error stays that error. The same holds of
/// a run of `count` values.
pub proof fn lemma_decode_stable(s: Seq<u8>, more: Seq<u8>, eof: bool, count: nat)
    ensures
        !(spec_decode(s, false) is Incomplete) ==> spec_decode(s + more, eof) == spec_decode(
            s,
            false,
        ),
        !(spec_decode_items(s, false, count) is Incomplete) ==> spec_decode_items(
            s + more,
            eof,
            count,
        ) == spec_decode_items(s, false, count),
    decreases s.len(), count,
{
    let longer = s + more;
    lemma_line_end_first(s);
    if !(spec_decode(s, false) is Incomplete) {
        lemma_read_line_stable(s, more, eof);
        if let Progress::Complete { value: line, used } = spec_read_line(s, false) {
            assert(longer.skip(used as int) =~= s.skip(used as int) + more);
            if line.len() > 0 {
                if let Some(n) = spec_parse_integer(line.skip(1)) {
                    if n >= 0 {
                        if line[0] == '$' {
                            lemma_read_exact_stable(s.skip(used as int), more, eof, n as nat);
                        } else if line[0] == '*' {
                            lemma_decode_stable(s.skip(used as int), more, eof, n as nat);
                        }
                    }
                }
            }
        }
    }
    if count > 0 && !(spec_decode_items(s, false, count) is Incomplete) {
        if let Progress::Complete { value: first, used } = spec_decode(s, false) {
            lemma_decode_used(s, false, count);
            assert(longer.skip(used as int) =~= s.skip(used as int) + more);
            lemma_decode_stable(s.skip(used as int), more, eof, (count - 1) as nat);
        }
    }
}

/// A header that is no integer is refused: where the first line holds the
/// tag of an integer, of a bulk string or of an array and then anything but
/// an integer text, the frame is malformed, whatever follows the line.
pub proof fn lemma_header_must_be_integer(s: Seq<u8>, eof: bool)
    requires
        spec_read_line(s, eof) matches Progress::Complete { value: line, .. } && line.len() > 0
            && (line[0] == ':' || line[0] == '$' || line[0] == '*') && integer_of_text(
            line.skip(1),
        ) is None,
    ensures
        spec_decode(s, eof) == Progress::<SpecValue>::Rejected(MyError::MalformedFrame),
{
}

/// The bytes handed over in chunks, one after the other.
pub open spec fn joined(chunks: Seq<Seq<u8>>) -> Seq<u8>
    decreases chunks.len(),
{
    if chunks.len() == 0 {
        Seq::empty()
    } else {
        chunks[0] + joined(chunks.drop_first())
    }
}

/// What comes of a reader that holds `held`, is handed the chunks one by
/// one and asked for a request after each, as long as it calls for more
/// bytes, and is told the end of the stream behind the last chunk.
pub open spec fn spec_parse_chunked(held: Seq<u8>, chunks: Seq<Seq<u8>>) -> Progress<SpecValue>
    decreases chunks.len(),
{
    if chunks.len() == 0 {
        spec_parse(held, true)
    } else if spec_parse(held + chunks[0], false) is Incomplete {
        spec_parse_chunked(held + chunks[0], chunks.drop_first())
    } else {
        spec_parse(held + chunks[0], false)
    }
}

/// A request that was read from the bytes of an open stream is read from
/// them whatever arrives behind them, and so is an error.
pub proof fn lemma_parse_stable(s: Seq<u8>, more: Seq<u8>, eof: bool)
    requires
        !(spec_parse(s, false) is Incomplete),
    ensures
        spec_parse(s + more, eof) == spec_parse(s, false),
{
    lemma_decode_stable(s, more, eof, 0);
}

/// Chunk boundaries do not matter: however the bytes of a stream are cut
/// into chunks, a single byte each or all in one, the reader arrives at what
/// it reads from the whole stream at once.
pub proof fn lemma_chunks_do_not_matter(held: Seq<u8>, chunks: Seq<Seq<u8>>)
    ensures
        spec_parse_chunked(held, chunks) == spec_parse(held + joined(chunks), true),
    decreases chunks.len(),
{
    if chunks.len() == 0 {
        assert(held + joined(chunks) =~= held);
    } else {
        let now = held + chunks[0];
        let later = joined(chunks.drop_first());
        assert(now + later =~= held + joined(chunks));
        if spec_parse(now, false) is Incomplete {
            lemma_chunks_do_not_matter(now, chunks.drop_first());
        } else {
            lemma_parse_stable(now, later, true);
        }
    }
}

/// The decimal text of an integer holds no line break.
proof fn lemma_integer_text_no_line_break(n: int)
    ensures
        !has_line_break(text_of_integer(n)),
{
    let t = text_of_integer(n);
    let m = if n < 0 {
        (-n) as nat
    } else {
        n as nat
    };
    lemma_text_of_nat(m);
    assert forall|i: int| 0 <= i < t.len() implies !is_line_break(#[trigger] t[i]) by {
        lemma_char_code(t[i]);
        if n < 0 && i > 0 {
            assert(t[i] == text_of_nat(m)[i - 1]);
            assert(is_digit(text_of_nat(m)[i - 1]));
        } else if n >= 0 {
            assert(is_digit(t[i]));
        }
    }
}

/// Reading a line back: a text without a line break, written as a line, is
/// read as that text, whatever follows the line.
pub proof fn lemma_read_line_of_line(text: Seq<char>, rest: Seq<u8>, eof: bool)
    requires
        !has_line_break(text),
    ensures
        spec_read_line(line(text) + rest, eof) == (Progress::Complete {
            value: text,
            used: line(text).len(),
        }),
{
    let bytes = encode_utf8(text);
    let s = line(text) + rest;
    let k = bytes.len() as int;
    lemma_line_break_bytes(text);
    assert forall|j: int| 0 <= j < k implies !is_delimiter(#[trigger] s[j]) by {
        assert(s[j] == bytes[j]);
    }
    assert(s[k] == CR);
    assert(s[k + 1] == LF);
    lemma_line_end_at(s, k);
    assert(s.take(k) =~= bytes);
    encode_utf8_valid_utf8(text);
    encode_utf8_decode_utf8(text);
}

/// Reading a header back: a tag and a length, written as a line, are read as
/// a line that holds the tag and then an integer text for that length.
proof fn lemma_read_header(tag: char, n: int, rest: Seq<u8>, eof: bool)
    requires
        !is_line_break(tag),
        i64::MIN <= n <= i64::MAX,
    ensures
        spec_read_line(line(seq![tag] + text_of_integer(n)) + rest, eof) == (Progress::Complete {
            value: seq![tag] + text_of_integer(n),
            used: line(seq![tag] + text_of_integer(n)).len(),
        }),
        (seq![tag] + text_of_integer(n)).len() > 0,
        (seq![tag] + text_of_integer(n))[0] == tag,
        spec_parse_integer((seq![tag] + text_of_integer(n)).skip(1)) == Some(n as i64),
{
    let header = seq![tag] + text_of_integer(n);
    lemma_integer_text_no_line_break(n);
    assert forall|i: int| 0 <= i < header.len() implies !is_line_break(#[trigger] header[i]) by {
        if i > 0 {
            assert(header[i] == text_of_integer(n)[i - 1]);
        }
    }
    lemma_read_line_of_line(header, rest, eof);
    assert(header.skip(1) =~= text_of_integer(n));
    lemma_integer_text_round_trip(n);
}

/// Round trip of the absent value.
proof fn lemma_round_trip_null(rest: Seq<u8>, eof: bool)
    ensures
        spec_decode(wire(SpecValue::Null) + rest, eof) == (Progress::Complete {
            value: SpecValue::Null,
            used: wire(SpecValue::Null).len(),
        }),
{
    lemma_char_code('$');
    assert(text_of_nat(1) =~= seq!['1']);
    assert(seq!['$', '-', '1'] =~= seq!['$'] + text_of_integer(-1));
    lemma_read_header('$', -1, rest, eof);
}

/// Round trip of an integer.
proof fn lemma_round_trip_number(n: i64, rest: Seq<u8>, eof: bool)
    ensures
        spec_decode(wire(SpecValue::Number(n)) + rest, eof) == (Progress::Complete {
            value: SpecValue::Number(n),
            used: wire(SpecValue::Number(n)).len(),
        }),
{
    lemma_char_code(':');
    lemma_read_header(':', n as int, rest, eof);
}

/// Round trip of an error message without a line break.
proof fn lemma_round_trip_error(text: Seq<char>, rest: Seq<u8>, eof: bool)
    requires
        !has_line_break(text),
    ensures
        spec_decode(wire(SpecValue::Error(text)) + rest, eof) == (Progress::Complete {
            value: SpecValue::Error(text),
            used: wire(SpecValue::Error(text)).len(),
        }),
{
    lemma_char_code('-');
    let whole = seq!['-'] + text;
    assert forall|i: int| 0 <= i < whole.len() implies !is_line_break(#[trigger] whole[i]) by {
        if i > 0 {
            assert(whole[i] == text[i - 1]);
        }
    }
    lemma_read_line_of_line(whole, rest, eof);
    assert(whole.skip(1) =~= text);
    assert(whole[0] == '-');
}

/// Round trip of a text, which may hold any character.
proof fn lemma_round_trip_string(text: Seq<char>, rest: Seq<u8>, eof: bool)
    requires
        encode_utf8(text).len() <= MAX_LENGTH,
    ensures
        spec_decode(wire(SpecValue::String(text)) + rest, eof) == (Progress::Complete {
            value: SpecValue::String(text),
            used: wire(SpecValue::String(text)).len(),
        }),
{
    lemma_char_code('$');
    let s = wire(SpecValue::String(text)) + rest;
    let block = encode_utf8(text);
    let n = block.len() as int;
    let head = seq!['$'] + text_of_integer(n);
    let header = line(head);
    let behind = block + seq![CR, LF] + rest;
    assert(s =~= header + behind);
    lemma_read_header('$', n, behind, eof);
    assert(s.skip(header.len() as int) =~= behind);
    assert(behind[n] == CR);
    assert(behind[n + 1] == LF);
    assert(behind.take(n) =~= block);
    encode_utf8_valid_utf8(text);
    encode_utf8_decode_utf8(text);
    assert(spec_read_exact(behind, eof, n as nat) == (Progress::Complete {
        value: block,
        used: (n + 2) as nat,
    }));
    assert(spec_decode_bulk(behind, eof, n as nat, header.len()) == (Progress::Complete {
        value: SpecValue::String(text),
        used: (header.len() + n + 2) as nat,
    }));
    assert(spec_read_line(s, eof) == (Progress::Complete { value: head, used: header.len() }));
}

/// Round trip: the wire form of a value that has one is read back as that
/// value, and takes up exactly its own bytes, whatever follows it in the
/// stream and whether or not the stream has ended.
pub proof fn lemma_round_trip(v: SpecValue, rest: Seq<u8>, eof: bool)
    requires
        encodable(v),
    ensures
        spec_decode(wire(v) + rest, eof) == (Progress::Complete {
            value: v,
            used: wire(v).len(),
        }),
        spec_parse(wire(v) + rest, eof) == spec_decode(wire(v) + rest, eof),
    decreases v,
{
    match v {
        SpecValue::Null => {
            lemma_round_trip_null(rest, eof);
        },
        SpecValue::Number(n) => {
            lemma_round_trip_number(n, rest, eof);
        },
        SpecValue::Error(text) => {
            lemma_round_trip_error(text, rest, eof);
        },
        SpecValue::String(text) => {
            lemma_round_trip_string(text, rest, eof);
        },
        SpecValue::Array(items) => {
            lemma_char_code('*');
            let s = wire(v) + rest;
            let n = items.len() as int;
            let head = seq!['*'] + text_of_integer(n);
            let header = line(head);
            let behind = wire_all(items) + rest;
            assert(s =~= header + behind);
            lemma_read_header('*', n, behind, eof);
            assert(s.skip(header.len() as int) =~= behind);
            lemma_round_trip_all(items, rest, eof);
            assert(spec_read_line(s, eof) == (Progress::Complete {
                value: head,
                used: header.len(),
            }));
        },
    }
    lemma_decode_used(wire(v) + rest, eof, 0);
}

/// Round trip of a run of values: their wire forms, one after the other, are
/// read back as those values in that order.
pub proof fn lemma_round_trip_all(items: Seq<SpecValue>, rest: Seq<u8>, eof: bool)
    requires
        forall|i: int| 0 <= i < items.len() ==> encodable(#[trigger] items[i]),
    ensures
        spec_decode_items(wire_all(items) + rest, eof, items.len()) == (Progress::Complete {
            value: items,
            used: wire_all(items).len(),
        }),
    decreases items,
{
    let s = wire_all(items) + rest;
    if items.len() == 0 {
        assert(items =~= Seq::<SpecValue>::empty());
    } else {
        let first = items[0];
        let tail = items.drop_first();
        let behind = wire_all(tail) + rest;
        assert(s =~= wire(first) + behind);
        lemma_round_trip(first, behind, eof);
        assert forall|i: int| 0 <= i < tail.len() implies encodable(#[trigger] tail[i]) by {
            assert(tail[i] == items[i + 1]);
        }
        lemma_round_trip_all(tail, rest, eof);
        assert(s.skip(wire(first).len() as int) =~= behind);
        assert(seq![first] + tail =~= items);
    }
}

} // verus!
