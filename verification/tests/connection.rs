use redis_lite::connection::Action;
use redis_lite::connection::Connection;
use redis_lite::connection::Event;
use redis_lite::value::Value;

fn same(action: Action, expected: Action) -> bool {
    match (action, expected) {
        (Action::Read, Action::Read) => true,
        (Action::Close, Action::Close) => true,
        (Action::Execute(a), Action::Execute(b)) => a == b,
        (Action::Write(a), Action::Write(b)) => a == b,
        (Action::WriteAndClose(a), Action::WriteAndClose(b)) => a == b,
        _ => false,
    }
}

#[test]
fn new_connection_reads_first() {
    let mut connection = Connection::new();
    assert!(same(connection.step(Event::Ready), Action::Read));
}

#[test]
fn request_goes_to_the_executor_and_the_reply_to_the_stream() {
    let mut connection = Connection::new();
    assert!(same(connection.step(Event::Ready), Action::Read));
    assert!(same(
        connection.step(Event::Received(b"*1\r\n$4\r\npi".to_vec())),
        Action::Read
    ));
    assert!(same(
        connection.step(Event::Received(b"ng\r\n".to_vec())),
        Action::Execute(Value::Array(vec![Value::String("ping".to_string())]))
    ));
    assert!(same(
        connection.step(Event::Replied(Value::String("PONG".to_string()))),
        Action::Write(b"$4\r\nPONG\r\n".to_vec())
    ));
    assert!(same(connection.step(Event::Ready), Action::Read));
}

#[test]
fn requests_that_arrived_together_are_answered_in_order() {
    let mut connection = Connection::new();
    assert!(same(
        connection.step(Event::Received(b":1\r\n:2\r\n".to_vec())),
        Action::Execute(Value::Number(1))
    ));
    assert!(same(
        connection.step(Event::Replied(Value::Number(10))),
        Action::Write(b":10\r\n".to_vec())
    ));
    assert!(same(
        connection.step(Event::Ready),
        Action::Execute(Value::Number(2))
    ));
    assert!(same(
        connection.step(Event::Replied(Value::Number(20))),
        Action::Write(b":20\r\n".to_vec())
    ));
    assert!(same(connection.step(Event::Ready), Action::Read));
}

#[test]
fn end_of_stream_between_requests_closes() {
    let mut connection = Connection::new();
    assert!(same(connection.step(Event::Ended), Action::Close));
}

#[test]
fn end_of_stream_inside_a_request_closes() {
    let mut connection = Connection::new();
    assert!(same(
        connection.step(Event::Received(b"$5\r\nhel".to_vec())),
        Action::Read
    ));
    assert!(same(connection.step(Event::Ended), Action::Close));
}

#[test]
fn end_of_stream_behind_a_bulk_payload_without_terminator_closes() {
    let mut connection = Connection::new();
    assert!(same(
        connection.step(Event::Received(b":1\r\n$5\r\nhello".to_vec())),
        Action::Execute(Value::Number(1))
    ));
    assert!(same(
        connection.step(Event::Replied(Value::Number(1))),
        Action::Write(b":1\r\n".to_vec())
    ));
    assert!(same(connection.step(Event::Ready), Action::Read));
    assert!(same(connection.step(Event::Ended), Action::Close));
}

#[test]
fn end_of_stream_settles_a_last_carriage_return() {
    let mut connection = Connection::new();
    assert!(same(
        connection.step(Event::Received(b"+OK\r".to_vec())),
        Action::Read
    ));
    assert!(same(
        connection.step(Event::Ended),
        Action::Execute(Value::String("OK".to_string()))
    ));
    assert!(same(connection.step(Event::Ready), Action::Close));
}

#[test]
fn malformed_frame_is_answered_and_closes() {
    let mut connection = Connection::new();
    assert!(same(
        connection.step(Event::Received(b"$abc\r\nhello\r\n".to_vec())),
        Action::WriteAndClose(b"-ERR Protocol error: malformed frame\r\n".to_vec())
    ));
}

#[test]
fn failure_of_the_stream_closes() {
    let mut connection = Connection::new();
    assert!(same(
        connection.step(Event::Received(b"+O".to_vec())),
        Action::Read
    ));
    assert!(same(connection.step(Event::Failed), Action::Close));
}

#[test]
fn reply_without_wire_form_closes() {
    let mut connection = Connection::new();
    assert!(same(
        connection.step(Event::Replied(Value::Error("a\nb".to_string()))),
        Action::Close
    ));
}

#[test]
fn error_reply_is_written_like_any_other() {
    let mut connection = Connection::new();
    assert!(same(
        connection.step(Event::Replied(Value::Error("ERR unknown command".to_string()))),
        Action::Write(b"-ERR unknown command\r\n".to_vec())
    ));
}
