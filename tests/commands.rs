use kvserver::command::{
    handle_echo, handle_get_at, handle_ping, handle_set_at, RequestCommand, RequestCommandError,
    SetOptions,
};
use kvserver::database::RedisDatabase;
use kvserver::frame::Frame;

fn bulk(s: &str) -> Frame {
    Frame::BulkString(s.to_string())
}

fn request(args: &[&str]) -> Frame {
    Frame::Array(args.iter().map(|a| bulk(a)).collect())
}

fn set(key: &str, value: &str, expiration: Option<u64>) -> RequestCommand {
    RequestCommand::SetValue(Box::new(SetOptions {
        key: key.to_string(),
        value: value.to_string(),
        expiration,
    }))
}

#[test]
fn ping_in_any_case() {
    assert_eq!(RequestCommand::try_from(request(&["PING"])), Ok(RequestCommand::Ping));
    assert_eq!(RequestCommand::try_from(request(&["ping"])), Ok(RequestCommand::Ping));
    assert_eq!(RequestCommand::try_from(request(&[" PiNg \t"])), Ok(RequestCommand::Ping));
}

#[test]
fn ping_ignores_extra_arguments() {
    assert_eq!(
        RequestCommand::try_from(request(&["PING", "x", "y"])),
        Ok(RequestCommand::Ping)
    );
}

#[test]
fn echo_takes_one_text() {
    assert_eq!(
        RequestCommand::try_from(request(&["ECHO", "hello"])),
        Ok(RequestCommand::Echo("hello".to_string()))
    );
    assert_eq!(
        RequestCommand::try_from(Frame::Array(vec![
            bulk("echo"),
            Frame::SimpleString("hi".to_string())
        ])),
        Ok(RequestCommand::Echo("hi".to_string()))
    );
}

#[test]
fn echo_with_wrong_arguments() {
    assert_eq!(
        RequestCommand::try_from(request(&["ECHO"])),
        Err(RequestCommandError::ParseFramesError)
    );
    assert_eq!(
        RequestCommand::try_from(request(&["ECHO", "a", "b"])),
        Err(RequestCommandError::ParseFramesError)
    );
    assert_eq!(
        RequestCommand::try_from(Frame::Array(vec![bulk("ECHO"), Frame::Integer(3)])),
        Err(RequestCommandError::ParseFramesError)
    );
}

#[test]
fn get_takes_one_key() {
    assert_eq!(
        RequestCommand::try_from(request(&["GET", "foo"])),
        Ok(RequestCommand::Get("foo".to_string()))
    );
    assert_eq!(
        RequestCommand::try_from(request(&["GET"])),
        Err(RequestCommandError::ParseFramesError)
    );
    assert_eq!(
        RequestCommand::try_from(request(&["GET", "a", "b"])),
        Err(RequestCommandError::ParseFramesError)
    );
}

#[test]
fn set_without_expiry() {
    assert_eq!(
        RequestCommand::try_from(request(&["SET", "foo", "bar"])),
        Ok(set("foo", "bar", None))
    );
}

#[test]
fn set_with_px_as_text_or_integer() {
    assert_eq!(
        RequestCommand::try_from(request(&["SET", "k", "v", "PX", "100"])),
        Ok(set("k", "v", Some(100)))
    );
    assert_eq!(
        RequestCommand::try_from(request(&["set", "k", "v", "px", "100"])),
        Ok(set("k", "v", Some(100)))
    );
    assert_eq!(
        RequestCommand::try_from(Frame::Array(vec![
            bulk("SET"),
            bulk("k"),
            bulk("v"),
            bulk("Px"),
            Frame::Integer(250)
        ])),
        Ok(set("k", "v", Some(250)))
    );
}

#[test]
fn set_with_other_trailing_shape_has_no_expiry() {
    assert_eq!(
        RequestCommand::try_from(request(&["SET", "k", "v", "EX", "100"])),
        Ok(set("k", "v", None))
    );
    assert_eq!(
        RequestCommand::try_from(request(&["SET", "k", "v", "PX", "soon"])),
        Ok(set("k", "v", None))
    );
    assert_eq!(
        RequestCommand::try_from(request(&["SET", "k", "v", "PX"])),
        Ok(set("k", "v", None))
    );
    assert_eq!(
        RequestCommand::try_from(Frame::Array(vec![
            bulk("SET"),
            bulk("k"),
            bulk("v"),
            bulk("PX"),
            Frame::Null
        ])),
        Ok(set("k", "v", None))
    );
}

#[test]
fn set_with_too_few_arguments() {
    assert_eq!(
        RequestCommand::try_from(request(&["SET", "k"])),
        Err(RequestCommandError::ParseFramesError)
    );
    assert_eq!(
        RequestCommand::try_from(Frame::Array(vec![bulk("SET"), bulk("k"), Frame::Null])),
        Err(RequestCommandError::ParseFramesError)
    );
}

#[test]
fn unknown_command() {
    assert_eq!(
        RequestCommand::try_from(request(&["FOO"])),
        Err(RequestCommandError::UnknownCommand)
    );
}

#[test]
fn wrong_shapes_are_parse_errors() {
    assert_eq!(
        RequestCommand::try_from(Frame::Array(vec![])),
        Err(RequestCommandError::ParseFramesError)
    );
    assert_eq!(
        RequestCommand::try_from(bulk("PING")),
        Err(RequestCommandError::ParseFramesError)
    );
    assert_eq!(
        RequestCommand::try_from(Frame::Array(vec![Frame::SimpleString("PING".to_string())])),
        Err(RequestCommandError::ParseFramesError)
    );
}

#[test]
fn from_word_takes_the_normalised_word() {
    let args = vec![bulk("WHATEVER"), bulk("x")];
    assert_eq!(
        RequestCommand::from_word("echo", &args),
        Ok(RequestCommand::Echo("x".to_string()))
    );
    assert_eq!(
        RequestCommand::from_word("ECHO", &args),
        Err(RequestCommandError::UnknownCommand)
    );
}

#[test]
fn replies() {
    assert_eq!(handle_ping(), Frame::SimpleString("PONG".to_string()));
    assert_eq!(handle_echo("hey"), Frame::SimpleString("hey".to_string()));
    let mut db = RedisDatabase::new();
    assert_eq!(handle_get_at(&db, "k", 0), Frame::Null);
    let opts = SetOptions { key: "k".to_string(), value: "v".to_string(), expiration: Some(5) };
    assert_eq!(handle_set_at(&mut db, &opts, 10), Frame::SimpleString("OK".to_string()));
    assert_eq!(handle_get_at(&db, "k", 15), bulk("v"));
    assert_eq!(handle_get_at(&db, "k", 16), Frame::Null);
}

#[test]
fn handle_command_runs_requests() {
    let mut db = RedisDatabase::new();
    assert_eq!(
        set("a", "1", None).handle_command(&mut db),
        Frame::SimpleString("OK".to_string())
    );
    assert_eq!(
        RequestCommand::Get("a".to_string()).handle_command(&mut db),
        bulk("1")
    );
    assert_eq!(
        RequestCommand::Ping.handle_command_at(&mut db, 0),
        Frame::SimpleString("PONG".to_string())
    );
    assert_eq!(
        RequestCommand::Get("a".to_string()).handle_read(&db),
        Some(bulk("1"))
    );
    assert_eq!(set("a", "2", None).handle_read(&db), None);
    assert_eq!(
        RequestCommand::Echo("e".to_string()).handle_read(&db),
        Some(Frame::SimpleString("e".to_string()))
    );
}
