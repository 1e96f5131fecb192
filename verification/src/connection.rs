use crate::encoder::encodable;
use crate::encoder::encode;
use crate::encoder::wire;
use crate::frame::Progress;
use crate::resp::spec_parse;
use crate::resp::MyError;
use crate::resp::Parser;
use crate::text::has_line_break;
use crate::text::is_line_break;
use crate::value::SpecValue;
use crate::value::Value;
use vstd::prelude::*;
use vstd::string::*;

verus! {

/// What happened on a connection since its loop last asked what to do.
pub enum Event {
    /// Nothing new: the stream was just accepted, or a reply was written.
    Ready,
    /// These bytes were read from the stream.
    Received(Vec<u8>),
    /// The stream has ended.
    Ended,
    /// Reading from the stream or writing to it failed.
    Failed,
    /// The command executor answered the request with this value.
    Replied(Value),
}

/// What the loop around a connection does next.
pub enum Action {
    /// Read from the stream and come back with what was read.
    Read,
    /// Hand this request to the command executor and come back with its
    /// reply.
    Execute(Value),
    /// Write these bytes to the stream and come back when they are written.
    Write(Vec<u8>),
    /// Write these bytes to the stream, then release it.
    WriteAndClose(Vec<u8>),
    /// Release the stream.
    Close,
}

/// The mathematical model of an action.
pub enum SpecAction {
    Read,
    Execute(SpecValue),
    Write(Seq<u8>),
    WriteAndClose(Seq<u8>),
    Close,
}

impl View for Action {
    type V = SpecAction;

    open spec fn view(&self) -> SpecAction {
        match self {
            Action::Read => SpecAction::Read,
            Action::Execute(request) => SpecAction::Execute(request@),
            Action::Write(bytes) => SpecAction::Write(bytes@),
            Action::WriteAndClose(bytes) => SpecAction::WriteAndClose(bytes@),
            Action::Close => SpecAction::Close,
        }
    }
}

/// The message of the error reply that a malformed frame is answered with.
pub open spec fn protocol_error_text() -> Seq<char> {
    "ERR Protocol error: malformed frame"@
}

/// What a request read, or not read, from the stream leads to: a request
/// goes to the executor, a call for more bytes to the stream. A malformed
/// frame is answered with an error reply and ends the connection; every
/// other error ends it without a word.
pub open spec fn spec_poll(outcome: Progress<SpecValue>) -> SpecAction {
    match outcome {
        Progress::Complete { value, used } => SpecAction::Execute(value),
        Progress::Incomplete => SpecAction::Read,
        Progress::Rejected(MyError::MalformedFrame) => SpecAction::WriteAndClose(
            wire(SpecValue::Error(protocol_error_text())),
        ),
        Progress::Rejected(_) => SpecAction::Close,
    }
}

/// What the reply of the executor leads to: it is written in its wire form;
/// a reply that has none ends the connection.
pub open spec fn spec_reply(reply: SpecValue) -> SpecAction {
    if encodable(reply) {
        SpecAction::Write(wire(reply))
    } else {
        SpecAction::Close
    }
}

/// The bytes that stay behind once a request has been looked for.
pub open spec fn spec_left(pending: Seq<u8>, closed: bool) -> Seq<u8> {
    match spec_parse(pending, closed) {
        Progress::Complete { value, used } => pending.skip(used as int),
        _ => pending,
    }
}

/// The message of the protocol error holds no line break.
proof fn lemma_protocol_error_text()
    ensures
        !has_line_break(protocol_error_text()),
{
    reveal_strlit("ERR Protocol error: malformed frame");
    let t = protocol_error_text();
    assert forall|i: int| 0 <= i < t.len() implies !is_line_break(#[trigger] t[i]) by {}
}

/// The decisions of one connection: it holds the bytes read and not yet
/// decoded, and says for each event what the loop around it does next.
pub struct Connection {
    parser: Parser,
}

impl Connection {
    /// The bytes read from the stream and not yet decoded.
    pub closed spec fn pending(self) -> Seq<u8> {
        self.parser.pending()
    }

    /// True once the end of the stream has been seen.
    pub closed spec fn is_closed(self) -> bool {
        self.parser.is_closed()
    }

    /// A connection over a stream that was just accepted.
    pub fn new() -> (connection: Self)
        ensures
            connection.pending() == Seq::<u8>::empty(),
            !connection.is_closed(),
    {
        Connection { parser: Parser::new(Vec::new()) }
    }

    /// Looks for the next request among the bytes held.
    fn poll(&mut self) -> (action: Action)
        ensures
            action@ == spec_poll(spec_parse(old(self).pending(), old(self).is_closed())),
            final(self).pending() == spec_left(old(self).pending(), old(self).is_closed()),
            final(self).is_closed() == old(self).is_closed(),
    {
        match self.parser.parse() {
            Ok(Some(request)) => Action::Execute(request),
            Ok(None) => Action::Read,
            Err(MyError::MalformedFrame) => {
                proof {
                    lemma_protocol_error_text();
                }
                let message = "ERR Protocol error: malformed frame".to_owned();
                match encode(&Value::Error(message)) {
                    Ok(bytes) => Action::WriteAndClose(bytes),
                    Err(_) => Action::Close,
                }
            },
            Err(_) => Action::Close,
        }
    }

    /// Takes in an event and says what to do next. Bytes that were read are
    /// kept, in order, until a whole request has been decoded from them; a
    /// request is consumed as it is handed out.
    pub fn step(&mut self, event: Event) -> (action: Action)
        ensures
            match event {
                Event::Ready => {
                    &&& action@ == spec_poll(
                        spec_parse(old(self).pending(), old(self).is_closed()),
                    )
                    &&& final(self).pending() == spec_left(
                        old(self).pending(),
                        old(self).is_closed(),
                    )
                    &&& final(self).is_closed() == old(self).is_closed()
                },
                Event::Received(bytes) => {
                    &&& action@ == spec_poll(
                        spec_parse(old(self).pending() + bytes@, old(self).is_closed()),
                    )
                    &&& final(self).pending() == spec_left(
                        old(self).pending() + bytes@,
                        old(self).is_closed(),
                    )
                    &&& final(self).is_closed() == old(self).is_closed()
                },
                Event::Ended => {
                    &&& action@ == spec_poll(spec_parse(old(self).pending(), true))
                    &&& final(self).pending() == spec_left(old(self).pending(), true)
                    &&& final(self).is_closed()
                },
                Event::Failed => {
                    &&& action@ == SpecAction::Close
                    &&& final(self).pending() == old(self).pending()
                    &&& final(self).is_closed() == old(self).is_closed()
                },
                Event::Replied(reply) => {
                    &&& action@ == spec_reply(reply@)
                    &&& final(self).pending() == old(self).pending()
                    &&& final(self).is_closed() == old(self).is_closed()
                },
            },
    {
        match event {
            Event::Ready => self.poll(),
            Event::Received(bytes) => {
                self.parser.feed(bytes.as_slice());
                self.poll()
            },
            Event::Ended => {
                self.parser.close();
                self.poll()
            },
            Event::Failed => Action::Close,
            Event::Replied(reply) => match encode(&reply) {
                Ok(bytes) => Action::Write(bytes),
                Err(_) => Action::Close,
            },
        }
    }
}

} // verus!
