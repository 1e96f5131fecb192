use crate::frame::lemma_line_end_first;
use crate::frame::scan_exact;
use crate::frame::scan_line;
use crate::frame::spec_read_exact;
use crate::frame::spec_read_line;
use crate::frame::Progress;
use crate::number::parse_integer;
use crate::number::spec_parse_integer;
use crate::text::string_from_utf8;
use crate::value::lemma_array_view;
use crate::value::views;
use crate::value::SpecValue;
use crate::value::Value;
use vstd::prelude::*;
use vstd::string::*;
use vstd::utf8::*;

verus! {

/// Why a value could not be read from a stream or written to one.
#[derive(Debug, Clone, Copy, PartialEq, Eq)]
pub enum MyError {
    /// The underlying stream failed. The library reads no stream itself:
    /// this is for the loop around it to name what it met.
    IoFailure,
    /// The stream ended where a request would begin: there is no request.
    ConnectionClosed,
    /// The stream ended in the middle of a frame.
    IncompleteFrame,
    /// The bytes break the grammar of the wire format.
    MalformedFrame,
    /// A value cannot be written in the wire format.
    EncodeError,
}

/// The bulk string of `n` bytes that follows a `$` header of `used` bytes:
/// the block must be well-formed UTF-8.
pub open spec fn spec_decode_bulk(rest: Seq<u8>, eof: bool, n: nat, used: nat) -> Progress<
    SpecValue,
> {
    match spec_read_exact(rest, eof, n) {
        Progress::Complete { value: block, used: more } => if valid_utf8(block) {
            Progress::Complete { value: SpecValue::String(decode_utf8(block)), used: used + more }
        } else {
            Progress::Rejected(MyError::MalformedFrame)
        },
        Progress::Incomplete => Progress::Incomplete,
        Progress::Rejected(e) => Progress::Rejected(e),
    }
}

/// The items `done`, which took up `used` bytes, followed by what came of
/// reading the items behind them.
pub open spec fn items_after(done: Seq<SpecValue>, used: nat, more: Progress<Seq<SpecValue>>)
    -> Progress<Seq<SpecValue>> {
    match more {
        Progress::Complete { value, used: further } => Progress::Complete {
            value: done + value,
            used: used + further,
        },
        Progress::Incomplete => Progress::Incomplete,
        Progress::Rejected(e) => Progress::Rejected(e),
    }
}

/// One value read from the front of `s`, where `eof` says that the stream
/// has ended behind `s`. The first line holds the type tag and the header;
/// a bulk string and the items of an array follow it.
pub open spec fn spec_decode(s: Seq<u8>, eof: bool) -> Progress<SpecValue>
    decreases s.len(), 0nat, 0nat,
{
    match spec_read_line(s, eof) {
        Progress::Incomplete => Progress::Incomplete,
        Progress::Rejected(e) => Progress::Rejected(e),
        Progress::Complete { value: line, used } => {
            if line.len() == 0 {
                Progress::Rejected(MyError::MalformedFrame)
            } else if line[0] == '+' {
                Progress::Complete { value: SpecValue::String(line.skip(1)), used }
            } else if line[0] == '-' {
                Progress::Complete { value: SpecValue::Error(line.skip(1)), used }
            } else if line[0] == ':' {
                match spec_parse_integer(line.skip(1)) {
                    Some(n) => Progress::Complete { value: SpecValue::Number(n), used },
                    None => Progress::Rejected(MyError::MalformedFrame),
                }
            } else if line[0] == '$' {
                match spec_parse_integer(line.skip(1)) {
                    Some(n) => if n == -1 {
                        Progress::Complete { value: SpecValue::Null, used }
                    } else if n < -1 {
                        Progress::Rejected(MyError::MalformedFrame)
                    } else {
                        spec_decode_bulk(s.skip(used as int), eof, n as nat, used)
                    },
                    None => Progress::Rejected(MyError::MalformedFrame),
                }
            } else if line[0] == '*' {
                match spec_parse_integer(line.skip(1)) {
                    Some(n) => if n == -1 {
                        Progress::Complete { value: SpecValue::Null, used }
                    } else if n < -1 {
                        Progress::Rejected(MyError::MalformedFrame)
                    } else {
                        proof {
                            lemma_line_end_first(s);
                        }
                        match spec_decode_items(s.skip(used as int), eof, n as nat) {
                            Progress::Complete { value: items, used: more } => Progress::Complete {
                                value: SpecValue::Array(items),
                                used: used + more,
                            },
                            Progress::Incomplete => Progress::Incomplete,
                            Progress::Rejected(e) => Progress::Rejected(e),
                        }
                    },
                    None => Progress::Rejected(MyError::MalformedFrame),
                }
            } else {
                Progress::Rejected(MyError::MalformedFrame)
            }
        },
    }
}

/// `count` values read one after the other from the front of `s`. (No value
/// takes up more bytes than there are: the test of `used` only shows that
/// the recursion ends.)
pub open spec fn spec_decode_items(s: Seq<u8>, eof: bool, count: nat) -> Progress<Seq<SpecValue>>
    decreases s.len(), 1nat, count,
{
    if count == 0 {
        Progress::Complete { value: Seq::empty(), used: 0 }
    } else {
        match spec_decode(s, eof) {
            Progress::Complete { value: first, used } => if used <= s.len() {
                items_after(
                    seq![first],
                    used,
                    spec_decode_items(s.skip(used as int), eof, (count - 1) as nat),
                )
            } else {
                Progress::Rejected(MyError::MalformedFrame)
            },
            Progress::Incomplete => Progress::Incomplete,
            Progress::Rejected(e) => Progress::Rejected(e),
        }
    }
}

/// One request read from the front of `s`. A stream that has ended with no
/// byte left holds no request; everything else is read as a value.
pub open spec fn spec_parse(s: Seq<u8>, eof: bool) -> Progress<SpecValue> {
    if s.len() == 0 && eof {
        Progress::Rejected(MyError::ConnectionClosed)
    } else {
        spec_decode(s, eof)
    }
}

/// What an attempt to read gave, against what the model says of it: the
/// value with the index of the byte behind it, a call for more bytes, or
/// the error.
pub open spec fn decoded(
    r: Result<Option<(Value, usize)>, MyError>,
    start: usize,
    expected: Progress<SpecValue>,
) -> bool {
    match expected {
        Progress::Complete { value, used } => r matches Ok(Some(found)) && found.0@ == value
            && found.1 == start + used,
        Progress::Incomplete => r matches Ok(None),
        Progress::Rejected(e) => r matches Err(got) && got == e,
    }
}

/// Reading items one after the other: the items read so far, put in front
/// of what comes of the rest, are what comes of the whole.
proof fn lemma_items_step(
    done: Seq<SpecValue>,
    used: nat,
    first: SpecValue,
    step: nat,
    more: Progress<Seq<SpecValue>>,
)
    ensures
        items_after(done, used, items_after(seq![first], step, more)) == items_after(
            done.push(first),
            used + step,
            more,
        ),
{
    if let Progress::Complete { value, used: further } = more {
        assert(done + (seq![first] + value) =~= done.push(first) + value);
    }
}

/// Reads the value that begins at `buf[start]`. On success the result holds
/// the value and the index of the byte behind it; `Ok(None)` says that more
/// bytes are needed.
#[verifier::loop_isolation(false)]
pub fn decode_at(buf: &[u8], start: usize, eof: bool) -> (r: Result<Option<(Value, usize)>, MyError>)
    requires
        start <= buf@.len(),
    ensures
        decoded(r, start, spec_decode(buf@.skip(start as int), eof)),
        r matches Ok(Some(found)) ==> start < found.1 <= buf@.len(),
    decreases buf@.len() - start,
{
    let ghost pending = buf@.skip(start as int);
    let (line, next) = match scan_line(buf, start, eof) {
        Ok(Some(found)) => found,
        Ok(None) => {
            return Ok(None);
        },
        Err(e) => {
            return Err(e);
        },
    };
    proof {
        lemma_line_end_first(pending);
    }
    let ghost rest = pending.skip(next - start);
    assert(rest =~= buf@.skip(next as int));
    let text: &str = line.as_str();
    let length: usize = text.unicode_len();
    if length == 0 {
        return Err(MyError::MalformedFrame);
    }
    let tag: char = text.get_char(0);
    let header: &str = text.substring_char(1, length);
    assert(header@ =~= line@.skip(1));
    if tag == '+' {
        Ok(Some((Value::String(header.to_owned()), next)))
    } else if tag == '-' {
        Ok(Some((Value::Error(header.to_owned()), next)))
    } else if tag == ':' {
        match parse_integer(header) {
            Some(n) => Ok(Some((Value::Number(n), next))),
            None => Err(MyError::MalformedFrame),
        }
    } else if tag == '$' {
        match parse_integer(header) {
            Some(n) => if n == -1 {
                Ok(Some((Value::Null, next)))
            } else if n < -1 {
                Err(MyError::MalformedFrame)
            } else {
                match scan_exact(buf, next, eof, n as u64) {
                    Ok(Some((block, end))) => match string_from_utf8(block) {
                        Some(payload) => Ok(Some((Value::String(payload), end))),
                        None => Err(MyError::MalformedFrame),
                    },
                    Ok(None) => Ok(None),
                    Err(e) => Err(e),
                }
            },
            None => Err(MyError::MalformedFrame),
        }
    } else if tag == '*' {
        match parse_integer(header) {
            Some(n) => if n == -1 {
                Ok(Some((Value::Null, next)))
            } else if n < -1 {
                Err(MyError::MalformedFrame)
            } else {
                let count: u64 = n as u64;
                let ghost whole = spec_decode_items(rest, eof, count as nat);
                let mut items: Vec<Value> = Vec::new();
                let mut pos: usize = next;
                let mut i: u64 = 0;
                while i < count
                    invariant
                        start < next <= pos <= buf@.len(),
                        i <= count,
                        whole == items_after(
                            views(items@),
                            (pos - next) as nat,
                            spec_decode_items(buf@.skip(pos as int), eof, (count - i) as nat),
                        ),
                    decreases count - i,
                {
                    let ghost here = buf@.skip(pos as int);
                    let ghost before = views(items@);
                    match decode_at(buf, pos, eof) {
                        Ok(Some((item, after))) => {
                            proof {
                                let step = (after - pos) as nat;
                                assert(here.skip(step as int) =~= buf@.skip(after as int));
                                lemma_items_step(
                                    before,
                                    (pos - next) as nat,
                                    item@,
                                    step,
                                    spec_decode_items(
                                        buf@.skip(after as int),
                                        eof,
                                        (count - i - 1) as nat,
                                    ),
                                );
                            }
                            items.push(item);
                            assert(views(items@) =~= before.push(item@));
                            pos = after;
                            i = i + 1;
                        },
                        Ok(None) => {
                            return Ok(None);
                        },
                        Err(e) => {
                            return Err(e);
                        },
                    }
                }
                proof {
                    lemma_array_view(items);
                    assert(views(items@) + Seq::<SpecValue>::empty() =~= views(items@));
                }
                Ok(Some((Value::Array(items), pos)))
            },
            None => Err(MyError::MalformedFrame),
        }
    } else {
        Err(MyError::MalformedFrame)
    }
}

/// A value that was read takes up at least one byte and no more bytes than
/// there are; so does a run of values, but that an empty run takes up none.
pub proof fn lemma_decode_used(s: Seq<u8>, eof: bool, count: nat)
    ensures
        spec_read_line(s, eof) matches Progress::Complete { used, .. } ==> 0 < used <= s.len(),
        forall|n: nat| #[trigger]
            spec_read_exact(s, eof, n) matches Progress::Complete { used, .. } ==> n <= used
                <= s.len(),
        spec_decode(s, eof) matches Progress::Complete { used, .. } ==> 0 < used <= s.len(),
        spec_decode_items(s, eof, count) matches Progress::Complete { used, .. } ==> used
            <= s.len(),
    decreases s.len(), count,
{
    lemma_line_end_first(s);
    if let Progress::Complete { value: line, used } = spec_read_line(s, eof) {
        let rest = s.skip(used as int);
        if line.len() > 0 {
            if let Some(n) = spec_parse_integer(line.skip(1)) {
                if n >= 0 {
                    if line[0] == '$' {
                        lemma_line_end_first(rest);
                    } else if line[0] == '*' {
                        lemma_decode_used(rest, eof, n as nat);
                    }
                }
            }
        }
    }
    if count > 0 {
        if let Progress::Complete { value: first, used } = spec_decode(s, eof) {
            lemma_decode_used(s.skip(used as int), eof, (count - 1) as nat);
        }
    }
}

/// Once the stream has ended, a line is read or refused: nothing is left to
/// wait for. The same holds of a block, of a value and of a run of values.
pub proof fn lemma_decided_at_end(s: Seq<u8>, count: nat)
    ensures
        !(spec_read_line(s, true) is Incomplete),
        forall|n: nat| !(#[trigger] spec_read_exact(s, true, n) is Incomplete),
        !(spec_decode(s, true) is Incomplete),
        !(spec_decode_items(s, true, count) is Incomplete),
        !(spec_parse(s, true) is Incomplete),
    decreases s.len(), count,
{
    lemma_line_end_first(s);
    if let Progress::Complete { value: line, used } = spec_read_line(s, true) {
        if line.len() > 0 && line[0] == '*' {
            if let Some(n) = spec_parse_integer(line.skip(1)) {
                if n >= 0 {
                    lemma_decided_at_end(s.skip(used as int), n as nat);
                }
            }
        }
    }
    if count > 0 {
        if let Progress::Complete { value: first, used } = spec_decode(s, true) {
            if used <= s.len() {
                lemma_decided_at_end(s.skip(used as int), (count - 1) as nat);
            }
        }
    }
}

/// A frame reader and decoder over the bytes of one stream. The bytes are
/// handed to it as they arrive; it reads lines, blocks and whole values from
/// the front of what it holds and keeps the rest.
pub struct Parser {
    buffer: Vec<u8>,
    closed: bool,
}

impl Parser {
    /// The bytes that were handed over and not yet consumed.
    pub closed spec fn pending(self) -> Seq<u8> {
        self.buffer@
    }

    /// True once the end of the stream has been announced.
    pub closed spec fn is_closed(self) -> bool {
        self.closed
    }

    /// A reader over an open stream of which `buffer` has arrived so far.
    pub fn new(buffer: Vec<u8>) -> (parser: Self)
        ensures
            parser.pending() == buffer@,
            !parser.is_closed(),
    {
        Parser { buffer, closed: false }
    }

    /// Hands over the bytes that arrived next.
    pub fn feed(&mut self, bytes: &[u8])
        ensures
            final(self).pending() == old(self).pending() + bytes@,
            final(self).is_closed() == old(self).is_closed(),
    {
        self.buffer.extend_from_slice(bytes);
        assert(self.buffer@ =~= old(self).buffer@ + bytes@);
    }

    /// Announces the end of the stream: no byte follows what was handed over.
    pub fn close(&mut self)
        ensures
            final(self).pending() == old(self).pending(),
            final(self).is_closed(),
    {
        self.closed = true;
    }

    /// Drops the first `count` bytes held.
    fn consume(&mut self, count: usize)
        requires
            count <= old(self).pending().len(),
        ensures
            final(self).pending() == old(self).pending().skip(count as int),
            final(self).is_closed() == old(self).is_closed(),
    {
        let rest = self.buffer.split_off(count);
        self.buffer = rest;
    }

    /// Reads one line and consumes it with its terminator. `Ok(None)` says
    /// that more bytes are needed; then, and on an error, nothing is consumed.
    pub fn read_line(&mut self) -> (r: Result<Option<String>, MyError>)
        ensures
            final(self).is_closed() == old(self).is_closed(),
            match spec_read_line(old(self).pending(), old(self).is_closed()) {
                Progress::Complete { value, used } => r matches Ok(Some(text)) && text@ == value
                    && final(self).pending() == old(self).pending().skip(used as int),
                Progress::Incomplete => r matches Ok(None) && final(self).pending() == old(
                    self,
                ).pending(),
                Progress::Rejected(e) => r matches Err(got) && got == e && final(self).pending()
                    == old(self).pending(),
            },
    {
        assert(self.buffer@.skip(0) =~= self.buffer@);
        match scan_line(self.buffer.as_slice(), 0, self.closed) {
            Ok(Some((text, next))) => {
                self.consume(next);
                Ok(Some(text))
            },
            Ok(None) => Ok(None),
            Err(e) => Err(e),
        }
    }

    /// Reads a block of exactly `n` bytes and consumes it with the line
    /// terminator behind it. `Ok(None)` says that more bytes are needed;
    /// then, and on an error, nothing is consumed.
    pub fn read_exact(&mut self, n: usize) -> (r: Result<Option<Vec<u8>>, MyError>)
        ensures
            final(self).is_closed() == old(self).is_closed(),
            match spec_read_exact(old(self).pending(), old(self).is_closed(), n as nat) {
                Progress::Complete { value, used } => r matches Ok(Some(block)) && block@ == value
                    && final(self).pending() == old(self).pending().skip(used as int),
                Progress::Incomplete => r matches Ok(None) && final(self).pending() == old(
                    self,
                ).pending(),
                Progress::Rejected(e) => r matches Err(got) && got == e && final(self).pending()
                    == old(self).pending(),
            },
    {
        assert(self.buffer@.skip(0) =~= self.buffer@);
        match scan_exact(self.buffer.as_slice(), 0, self.closed, n as u64) {
            Ok(Some((block, next))) => {
                self.consume(next);
                Ok(Some(block))
            },
            Ok(None) => Ok(None),
            Err(e) => Err(e),
        }
    }

    /// Reads one request and consumes it. `Ok(None)` says that more bytes
    /// are needed; then, and on an error, nothing is consumed.
    pub fn parse(&mut self) -> (r: Result<Option<Value>, MyError>)
        ensures
            final(self).is_closed() == old(self).is_closed(),
            match spec_parse(old(self).pending(), old(self).is_closed()) {
                Progress::Complete { value, used } => r matches Ok(Some(request)) && request@
                    == value && final(self).pending() == old(self).pending().skip(used as int),
                Progress::Incomplete => r matches Ok(None) && final(self).pending() == old(
                    self,
                ).pending(),
                Progress::Rejected(e) => r matches Err(got) && got == e && final(self).pending()
                    == old(self).pending(),
            },
    {
        assert(self.buffer@.skip(0) =~= self.buffer@);
        if self.closed && self.buffer.len() == 0 {
            return Err(MyError::ConnectionClosed);
        }
        match decode_at(self.buffer.as_slice(), 0, self.closed) {
            Ok(Some((request, next))) => {
                self.consume(next);
                Ok(Some(request))
            },
            Ok(None) => Ok(None),
            Err(e) => Err(e),
        }
    }
}

/// Reads the first value of a stream that holds the bytes of `line` and
/// ends behind them.
pub fn parse(line: &String) -> (r: Result<Value, MyError>)
    ensures
        match spec_parse(encode_utf8(line@), true) {
            Progress::Complete { value, used } => r matches Ok(found) && found@ == value,
            Progress::Incomplete => false,
            Progress::Rejected(e) => r matches Err(got) && got == e,
        },
{
    proof {
        lemma_decided_at_end(encode_utf8(line@), 0);
    }
    let mut parser = Parser::new(line.as_str().as_bytes_vec());
    parser.close();
    match parser.parse() {
        Ok(Some(value)) => Ok(value),
        Ok(None) => Err(MyError::IncompleteFrame),
        Err(e) => Err(e),
    }
}

} // verus!
