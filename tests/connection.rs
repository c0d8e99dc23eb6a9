use kvserver::command::RequestCommandError;
use kvserver::connection::{ClientConnection, ClientError};
use kvserver::database::RedisDatabase;
use kvserver::frame::{Frame, FrameParseError};

/// Runs every whole request waiting in the connection and collects the replies.
fn serve(conn: &mut ClientConnection, db: &mut RedisDatabase) -> Result<Vec<u8>, ClientError> {
    let mut out = Vec::new();
    while let Some(cmd) = conn.read_request()? {
        cmd.handle_command(db).write_to(&mut out);
    }
    Ok(out)
}

#[test]
fn end_to_end_echo_set_get() {
    let mut db = RedisDatabase::new();
    let mut conn = ClientConnection::new();
    conn.receive(b"*2\r\n$4\r\nECHO\r\n$5\r\nhello\r\n");
    assert_eq!(serve(&mut conn, &mut db), Ok(b"+hello\r\n".to_vec()));
    conn.receive(b"*3\r\n$3\r\nSET\r\n$3\r\nfoo\r\n$3\r\nbar\r\n");
    assert_eq!(serve(&mut conn, &mut db), Ok(b"+OK\r\n".to_vec()));
    conn.receive(b"*2\r\n$3\r\nGET\r\n$3\r\nfoo\r\n");
    assert_eq!(serve(&mut conn, &mut db), Ok(b"$3\r\nbar\r\n".to_vec()));
    assert_eq!(conn.end_of_input(), Ok(()));
}

#[test]
fn get_of_missing_key_replies_null() {
    let mut db = RedisDatabase::new();
    let mut conn = ClientConnection::new();
    conn.receive(b"*2\r\n$3\r\nGET\r\n$4\r\nnone\r\n");
    assert_eq!(serve(&mut conn, &mut db), Ok(b"_\r\n".to_vec()));
}

#[test]
fn ping_replies_pong() {
    let mut db = RedisDatabase::new();
    let mut conn = ClientConnection::new();
    conn.receive(b"*1\r\n$4\r\nPING\r\n");
    assert_eq!(serve(&mut conn, &mut db), Ok(b"+PONG\r\n".to_vec()));
}

#[test]
fn unknown_command_closes_without_reply() {
    let mut db = RedisDatabase::new();
    let mut conn = ClientConnection::new();
    conn.receive(b"*1\r\n$3\r\nFOO\r\n");
    assert_eq!(
        serve(&mut conn, &mut db),
        Err(ClientError::CommandError(RequestCommandError::UnknownCommand))
    );
}

#[test]
fn malformed_frame_closes_without_reply() {
    let mut conn = ClientConnection::new();
    conn.receive(b"!oops\r\n");
    assert_eq!(
        conn.read_request(),
        Err(ClientError::ParseCommandError(FrameParseError::InvalidData))
    );
}

#[test]
fn non_array_request_is_a_command_error() {
    let mut conn = ClientConnection::new();
    conn.receive(b"+PING\r\n");
    assert_eq!(
        conn.read_request(),
        Err(ClientError::CommandError(RequestCommandError::ParseFramesError))
    );
}

#[test]
fn byte_by_byte_delivery() {
    let mut db = RedisDatabase::new();
    let mut conn = ClientConnection::new();
    let bytes = b"*2\r\n$4\r\nECHO\r\n$5\r\nhello\r\n";
    for (i, b) in bytes.iter().enumerate() {
        conn.receive(&[*b]);
        let out = serve(&mut conn, &mut db).unwrap();
        if i + 1 < bytes.len() {
            assert!(out.is_empty());
        } else {
            assert_eq!(out, b"+hello\r\n".to_vec());
        }
    }
}

#[test]
fn pipelined_requests() {
    let mut db = RedisDatabase::new();
    let mut conn = ClientConnection::new();
    conn.receive(b"*1\r\n$4\r\nPING\r\n*2\r\n$4\r\nECHO\r\n$1\r\nx\r\n*1\r\n$4\r\nPI");
    assert_eq!(serve(&mut conn, &mut db), Ok(b"+PONG\r\n+x\r\n".to_vec()));
    assert_eq!(conn.end_of_input(), Err(ClientError::ConnectionReset));
    conn.receive(b"NG\r\n");
    assert_eq!(serve(&mut conn, &mut db), Ok(b"+PONG\r\n".to_vec()));
    assert_eq!(conn.end_of_input(), Ok(()));
}

#[test]
fn parse_frame_consumes_one_frame() {
    let mut conn = ClientConnection::new();
    assert_eq!(conn.parse_frame(), Ok(None));
    conn.receive(b"+a\r\n:1");
    assert_eq!(conn.parse_frame(), Ok(Some(Frame::SimpleString("a".to_string()))));
    assert_eq!(conn.parse_frame(), Ok(None));
    conn.receive(b"\r\n");
    assert_eq!(conn.parse_frame(), Ok(Some(Frame::Integer(1))));
    assert_eq!(conn.end_of_input(), Ok(()));
}

#[test]
fn expiry_through_the_protocol() {
    let mut db = RedisDatabase::new();
    let mut conn = ClientConnection::new();
    conn.receive(b"*5\r\n$3\r\nSET\r\n$1\r\nk\r\n$1\r\nv\r\n$2\r\nPX\r\n$3\r\n100\r\n");
    let cmd = conn.read_request().unwrap().unwrap();
    assert_eq!(cmd.handle_command_at(&mut db, 1000), Frame::SimpleString("OK".to_string()));
    assert_eq!(db.get_at("k", 1100), Some(&"v".to_string()));
    assert_eq!(db.get_at("k", 1101), None);
}
