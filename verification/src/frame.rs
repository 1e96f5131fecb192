use crate::resp::MyError;
use crate::text::is_delimiter;
use crate::text::string_from_utf8;
use crate::text::CR;
use crate::text::LF;
use vstd::prelude::*;
use vstd::slice::slice_subrange;
use vstd::slice::slice_to_vec;
use vstd::utf8::*;

verus! {

/// How far an attempt to read from the front of the buffered bytes got.
pub enum Progress<T> {
    /// The item is whole: its value, and the number of bytes it takes up.
    Complete { value: T, used: nat },
    /// The bytes so far are the beginning of an item, and the stream is
    /// still open: more bytes are needed to tell.
    Incomplete,
    /// No item can be read, whatever follows.
    Rejected(MyError),
}

/// The index of the first delimiter in `s`, or the length of `s` if it holds
/// none.
pub open spec fn line_end(s: Seq<u8>) -> nat
    decreases s.len(),
{
    if s.len() == 0 || is_delimiter(s[0]) {
        0
    } else {
        1 + line_end(s.drop_first())
    }
}

/// The length of the line terminator that begins at the delimiter `s[k]`:
/// two for a carriage return with a line feed behind it, else one. A carriage
/// return that is the last byte buffered of an open stream cannot be told
/// yet: the line feed may still come.
pub open spec fn terminator_len(s: Seq<u8>, k: int, eof: bool) -> Option<nat> {
    if s[k] == CR && k + 1 < s.len() && s[k + 1] == LF {
        Some(2)
    } else if s[k] == CR && k + 1 == s.len() && !eof {
        None
    } else {
        Some(1)
    }
}

/// One line read from the front of `s`, where `eof` says that the stream has
/// ended behind `s`. The line runs up to the first delimiter and must be
/// well-formed UTF-8; its terminator is consumed with it.
pub open spec fn spec_read_line(s: Seq<u8>, eof: bool) -> Progress<Seq<char>> {
    let k = line_end(s) as int;
    if k >= s.len() {
        if eof {
            Progress::Rejected(MyError::IncompleteFrame)
        } else {
            Progress::Incomplete
        }
    } else {
        match terminator_len(s, k, eof) {
            None => Progress::Incomplete,
            Some(t) => if valid_utf8(s.take(k)) {
                Progress::Complete { value: decode_utf8(s.take(k)), used: (k + t) as nat }
            } else {
                Progress::Rejected(MyError::MalformedFrame)
            },
        }
    }
}

/// A block of exactly `n` bytes read from the front of `s`, with the line
/// terminator that must follow it. A stream that ends within the block, or
/// behind it and before its terminator, has ended in the middle of a frame;
/// any other byte in the terminator's place makes the frame malformed.
pub open spec fn spec_read_exact(s: Seq<u8>, eof: bool, n: nat) -> Progress<Seq<u8>> {
    if s.len() <= n {
        if eof {
            Progress::Rejected(MyError::IncompleteFrame)
        } else {
            Progress::Incomplete
        }
    } else if !is_delimiter(s[n as int]) {
        Progress::Rejected(MyError::MalformedFrame)
    } else {
        match terminator_len(s, n as int, eof) {
            None => Progress::Incomplete,
            Some(t) => Progress::Complete { value: s.take(n as int), used: n + t },
        }
    }
}

/// The first delimiter of `s` is where no delimiter stands before.
pub proof fn lemma_line_end_at(s: Seq<u8>, k: int)
    requires
        0 <= k <= s.len(),
        forall|j: int| 0 <= j < k ==> !is_delimiter(#[trigger] s[j]),
        k == s.len() || is_delimiter(s[k]),
    ensures
        line_end(s) == k,
    decreases s.len(),
{
    if k > 0 {
        let rest = s.drop_first();
        assert forall|j: int| 0 <= j < k - 1 implies !is_delimiter(#[trigger] rest[j]) by {
            assert(rest[j] == s[j + 1]);
        }
        lemma_line_end_at(rest, k - 1);
    }
}

/// No delimiter stands before the end of the first line, and one stands at
/// it unless the line runs to the end of `s`.
pub proof fn lemma_line_end_first(s: Seq<u8>)
    ensures
        line_end(s) <= s.len(),
        forall|j: int| 0 <= j < line_end(s) ==> !is_delimiter(#[trigger] s[j]),
        line_end(s) < s.len() ==> is_delimiter(s[line_end(s) as int]),
    decreases s.len(),
{
    if s.len() == 0 || is_delimiter(s[0]) {
    } else {
        let rest = s.drop_first();
        lemma_line_end_first(rest);
        assert forall|j: int| 0 <= j < line_end(s) implies !is_delimiter(#[trigger] s[j]) by {
            if j > 0 {
                assert(s[j] == rest[j - 1]);
            }
        }
        if line_end(s) < s.len() {
            assert(s[line_end(s) as int] == rest[line_end(rest) as int]);
        }
    }
}

/// Measures the line terminator that begins at the delimiter `buf[k]`.
fn measure_terminator(buf: &[u8], start: usize, k: usize, eof: bool) -> (r: Option<usize>)
    requires
        start <= k < buf@.len(),
        is_delimiter(buf@[k as int]),
    ensures
        match terminator_len(buf@.skip(start as int), k - start, eof) {
            Some(t) => r == Some(t as usize) && k + t <= buf@.len(),
            None => r is None,
        },
{
    let n: usize = buf.len();
    if buf[k] == CR {
        if k + 1 < n {
            if buf[k + 1] == LF {
                Some(2)
            } else {
                Some(1)
            }
        } else if eof {
            Some(1)
        } else {
            None
        }
    } else {
        Some(1)
    }
}

/// Reads the line that begins at `buf[start]`. On success the result holds
/// the text of the line and the index of the byte behind its terminator;
/// `Ok(None)` says that more bytes are needed.
pub fn scan_line(buf: &[u8], start: usize, eof: bool) -> (r: Result<
    Option<(String, usize)>,
    MyError,
>)
    requires
        start <= buf@.len(),
    ensures
        match spec_read_line(buf@.skip(start as int), eof) {
            Progress::Complete { value, used } => r matches Ok(Some(found)) && found.0@ == value
                && found.1 == start + used && found.1 <= buf@.len(),
            Progress::Incomplete => r matches Ok(None),
            Progress::Rejected(e) => r matches Err(got) && got == e,
        },
{
    let n: usize = buf.len();
    let ghost pending = buf@.skip(start as int);
    let mut k: usize = start;
    while k < n && buf[k] != CR && buf[k] != LF
        invariant
            start <= k <= n,
            n == buf@.len(),
            forall|j: int| start <= j < k ==> !is_delimiter(#[trigger] buf@[j]),
        decreases n - k,
    {
        k = k + 1;
    }
    proof {
        assert forall|j: int| 0 <= j < k - start implies !is_delimiter(#[trigger] pending[j]) by {
            assert(pending[j] == buf@[start + j]);
        }
        lemma_line_end_at(pending, k - start);
    }
    if k == n {
        return if eof {
            Err(MyError::IncompleteFrame)
        } else {
            Ok(None)
        };
    }
    match measure_terminator(buf, start, k, eof) {
        None => Ok(None),
        Some(t) => {
            let line = slice_to_vec(slice_subrange(buf, start, k));
            assert(line@ =~= pending.take(k - start));
            match string_from_utf8(line) {
                Some(text) => Ok(Some((text, k + t))),
                None => Err(MyError::MalformedFrame),
            }
        },
    }
}

/// Reads the block of `n` bytes that begins at `buf[start]` and the line
/// terminator behind it. On success the result holds the block and the index
/// of the byte behind the terminator; `Ok(None)` says that more bytes are
/// needed.
pub fn scan_exact(buf: &[u8], start: usize, eof: bool, n: u64) -> (r: Result<
    Option<(Vec<u8>, usize)>,
    MyError,
>)
    requires
        start <= buf@.len(),
    ensures
        match spec_read_exact(buf@.skip(start as int), eof, n as nat) {
            Progress::Complete { value, used } => r matches Ok(Some(found)) && found.0@ == value
                && found.1 == start + used && found.1 <= buf@.len(),
            Progress::Incomplete => r matches Ok(None),
            Progress::Rejected(e) => r matches Err(got) && got == e,
        },
{
    let ghost pending = buf@.skip(start as int);
    let available: usize = buf.len() - start;
    if n >= available as u64 {
        return if eof {
            Err(MyError::IncompleteFrame)
        } else {
            Ok(None)
        };
    }
    let end: usize = start + n as usize;
    assert(pending[n as int] == buf@[end as int]);
    if buf[end] != CR && buf[end] != LF {
        return Err(MyError::MalformedFrame);
    }
    match measure_terminator(buf, start, end, eof) {
        None => Ok(None),
        Some(t) => {
            let block = slice_to_vec(slice_subrange(buf, start, end));
            assert(block@ =~= pending.take(n as int));
            Ok(Some((block, end + t)))
        },
    }
}

} // verus!
