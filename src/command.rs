use vstd::prelude::*;
use vstd::utf8::encode_utf8;

use crate::database::{insert_spec, lookup, EntryView, RedisDatabase};
use crate::frame::{
    get_number_from_line, lemma_views_of, number_of, views_of, Frame, FrameView,
};

verus! {

/// What `str::trim` leaves of a text: the text without its leading and trailing
/// Unicode white space.
pub uninterp spec fn trimmed(s: Seq<char>) -> Seq<char>;

/// Relies on `str::trim`.
#[verifier::external_body]
fn trim_text(s: &str) -> (r: &str)
    ensures
        r@ == trimmed(s@),
{
    s.trim()
}

pub open spec fn lower_char(c: char) -> char {
    if 'A' <= c && c <= 'Z' {
        ((c as u32) + 32) as char
    } else {
        c
    }
}

/// A text with its ASCII capitals made small; other characters stay.
pub open spec fn ascii_lower(s: Seq<char>) -> Seq<char> {
    s.map_values(|c: char| lower_char(c))
}

/// Relies on `str::to_ascii_lowercase`: each ASCII capital becomes its small letter.
#[verifier::external_body]
fn ascii_lowercase(s: &str) -> (r: String)
    ensures
        r@ == ascii_lower(s@),
{
    s.to_ascii_lowercase()
}

/// The word that names a command: its first argument, in small letters, trimmed.
pub open spec fn command_word(name: Seq<char>) -> Seq<char> {
    trimmed(ascii_lower(name))
}

/// The options of a `SET`.
#[derive(Debug, PartialEq, Eq)]
pub struct SetOptions {
    pub key: String,
    pub value: String,
    pub expiration: Option<u64>,
}

/// A request that the server knows how to run.
#[derive(Debug, PartialEq, Eq)]
pub enum RequestCommand {
    Ping,
    Echo(String),
    SetValue(Box<SetOptions>),
    Get(String),
}

/// Why a frame is no request.
#[derive(Debug, Clone, Copy, PartialEq, Eq, Structural)]
pub enum RequestCommandError {
    /// The frame does not have the shape of the request it names.
    ParseFramesError,
    /// The request names no command that the server knows.
    UnknownCommand,
}

pub enum CommandView {
    Ping,
    Echo(Seq<char>),
    SetValue(Seq<char>, Seq<char>, Option<u64>),
    Get(Seq<char>),
}

impl View for RequestCommand {
    type V = CommandView;

    open spec fn view(&self) -> CommandView {
        match self {
            RequestCommand::Ping => CommandView::Ping,
            RequestCommand::Echo(s) => CommandView::Echo(s@),
            RequestCommand::SetValue(o) => CommandView::SetValue(o.key@, o.value@, o.expiration),
            RequestCommand::Get(k) => CommandView::Get(k@),
        }
    }
}

/// The text of an argument given as a bulk or simple string.
pub open spec fn text_arg(f: FrameView) -> Option<Seq<char>> {
    match f {
        FrameView::BulkString(t) | FrameView::SimpleString(t) => Some(t),
        _ => None,
    }
}

/// A number given as an integer frame or as decimal text.
pub open spec fn numeric_arg(f: FrameView) -> Option<u64> {
    match f {
        FrameView::Integer(n) => Some(n),
        _ => match text_arg(f) {
            Some(t) => match number_of(encode_utf8(t)) {
                Ok(n) => Some(n),
                Err(_) => None,
            },
            None => None,
        },
    }
}

/// The expiry of a `SET`: `PX` in any case as fourth element and a number after it.
pub open spec fn expiry_arg(args: Seq<FrameView>) -> Option<u64> {
    if args.len() >= 5 && text_arg(args[3]) is Some && ascii_lower(text_arg(args[3])->0)
        == "px"@ {
        numeric_arg(args[4])
    } else {
        None
    }
}

/// The request that `args` (the command name first) make, given the command word.
pub open spec fn interpret_word(word: Seq<char>, args: Seq<FrameView>) -> Result<
    CommandView,
    RequestCommandError,
> {
    if word == "ping"@ {
        Ok(CommandView::Ping)
    } else if word == "echo"@ {
        if args.len() == 2 && text_arg(args[1]) is Some {
            Ok(CommandView::Echo(text_arg(args[1])->0))
        } else {
            Err(RequestCommandError::ParseFramesError)
        }
    } else if word == "get"@ {
        if args.len() == 2 && text_arg(args[1]) is Some {
            Ok(CommandView::Get(text_arg(args[1])->0))
        } else {
            Err(RequestCommandError::ParseFramesError)
        }
    } else if word == "set"@ {
        if args.len() >= 3 && text_arg(args[1]) is Some && text_arg(args[2]) is Some {
            Ok(CommandView::SetValue(text_arg(args[1])->0, text_arg(args[2])->0, expiry_arg(args)))
        } else {
            Err(RequestCommandError::ParseFramesError)
        }
    } else {
        Err(RequestCommandError::UnknownCommand)
    }
}

/// The request that a frame makes: a non-empty array whose first element, a bulk
/// string, names the command.
pub open spec fn interpret(f: FrameView) -> Result<CommandView, RequestCommandError> {
    match f {
        FrameView::Array(args) => if args.len() > 0 && args[0] is BulkString {
            interpret_word(command_word(args[0]->BulkString_0), args)
        } else {
            Err(RequestCommandError::ParseFramesError)
        },
        _ => Err(RequestCommandError::ParseFramesError),
    }
}

pub open spec fn command_result(r: Result<RequestCommand, RequestCommandError>) -> Result<
    CommandView,
    RequestCommandError,
> {
    match r {
        Ok(c) => Ok(c@),
        Err(e) => Err(e),
    }
}

fn text_of_frame(f: &Frame) -> (r: Option<String>)
    ensures
        match r {
            Some(t) => text_arg(f@) == Some(t@),
            None => text_arg(f@) is None,
        },
{
    match f.extract_string_from_frame() {
        Some(s) => Some(s.to_owned()),
        None => None,
    }
}

fn numeric_of_frame(f: &Frame) -> (r: Option<u64>)
    ensures
        r == numeric_arg(f@),
{
    match f {
        Frame::Integer(n) => Some(*n),
        _ => match f.extract_string_from_frame() {
            Some(s) => match get_number_from_line(s.as_bytes()) {
                Ok(n) => Some(n),
                Err(_) => None,
            },
            None => None,
        },
    }
}

fn same_text(a: &str, b: &str) -> (r: bool)
    ensures
        r == (a@ == b@),
{
    a.to_owned() == b.to_owned()
}

/// Reads the options of a `SET` from its arguments, the command name first.
fn get_set_command(data: &Vec<Frame>) -> (r: Result<Box<SetOptions>, RequestCommandError>)
    ensures
        match r {
            Ok(o) => interpret_word("set"@, views_of(data@)) == Ok::<
                CommandView,
                RequestCommandError,
            >(CommandView::SetValue(o.key@, o.value@, o.expiration)),
            Err(e) => interpret_word("set"@, views_of(data@)) == Err::<
                CommandView,
                RequestCommandError,
            >(e),
        },
{
    proof {
        lemma_views_of(data@);
        reveal_strlit("ping");
        reveal_strlit("echo");
        reveal_strlit("get");
        reveal_strlit("set");
        assert("set"@.len() != "ping"@.len());
        assert("set"@.len() != "echo"@.len());
        assert("set"@[0] != "get"@[0]);
    }
    let ghost args = views_of(data@);
    if data.len() < 3 {
        return Err(RequestCommandError::ParseFramesError);
    }
    let key = match text_of_frame(&data[1]) {
        Some(k) => k,
        None => return Err(RequestCommandError::ParseFramesError),
    };
    let value = match text_of_frame(&data[2]) {
        Some(v) => v,
        None => return Err(RequestCommandError::ParseFramesError),
    };
    let mut expiration: Option<u64> = None;
    if data.len() >= 5 {
        match data[3].extract_string_from_frame() {
            Some(token) => {
                let lowered = ascii_lowercase(token);
                if same_text(lowered.as_str(), "px") {
                    expiration = numeric_of_frame(&data[4]);
                }
            },
            None => {},
        }
    }
    assert(expiration == expiry_arg(args));
    Ok(Box::new(SetOptions { key, value, expiration }))
}

impl RequestCommand {
    /// The request that `args` make, the command name first, once that name has been
    /// brought to its command word.
    pub fn from_word(word: &str, args: &Vec<Frame>) -> (r: Result<RequestCommand, RequestCommandError>)
        ensures
            command_result(r) == interpret_word(word@, views_of(args@)),
    {
        proof {
            lemma_views_of(args@);
    reveal_strlit("ping");
            reveal_strlit("echo");
            reveal_strlit("get");
            reveal_strlit("set");
        }
        if same_text(word, "ping") {
            Ok(RequestCommand::Ping)
        } else if same_text(word, "echo") {
            if args.len() != 2 {
                return Err(RequestCommandError::ParseFramesError);
            }
            match text_of_frame(&args[1]) {
                Some(s) => Ok(RequestCommand::Echo(s)),
                None => Err(RequestCommandError::ParseFramesError),
            }
        } else if same_text(word, "get") {
            if args.len() != 2 {
                return Err(RequestCommandError::ParseFramesError);
            }
            match text_of_frame(&args[1]) {
                Some(s) => Ok(RequestCommand::Get(s)),
                None => Err(RequestCommandError::ParseFramesError),
            }
        } else if same_text(word, "set") {
            match get_set_command(args) {
                Ok(o) => Ok(RequestCommand::SetValue(o)),
                Err(e) => Err(e),
            }
        } else {
            Err(RequestCommandError::UnknownCommand)
        }
    }

    /// The request that a frame makes.
    pub fn try_from(value: Frame) -> (r: Result<RequestCommand, RequestCommandError>)
        ensures
            command_result(r) == interpret(value@),
    {
        match value {
            Frame::Array(args) => {
                proof {
                    lemma_views_of(args@);
                }
                if args.len() == 0 {
                    return Err(RequestCommandError::ParseFramesError);
                }
                match &args[0] {
                    Frame::BulkString(name) => {
                        let lowered = ascii_lowercase(name.as_str());
                        let word = trim_text(lowered.as_str());
                        Self::from_word(word, &args)
                    },
                    _ => Err(RequestCommandError::ParseFramesError),
                }
            },
            _ => Err(RequestCommandError::ParseFramesError),
        }
    }
}

/// The reply to a read: the value as a bulk string, or null.
pub open spec fn get_reply(r: Option<Seq<char>>) -> FrameView {
    match r {
        Some(v) => FrameView::BulkString(v),
        None => FrameView::Null,
    }
}

/// Running a request at instant `now` on store `m`: the store after it, and the reply.
pub open spec fn execute(c: CommandView, m: Map<Seq<char>, EntryView>, now: u64) -> (
    Map<Seq<char>, EntryView>,
    FrameView,
) {
    match c {
        CommandView::Ping => (m, FrameView::SimpleString("PONG"@)),
        CommandView::Echo(t) => (m, FrameView::SimpleString(t)),
        CommandView::SetValue(k, v, e) => (
            insert_spec(m, k, v, e, now),
            FrameView::SimpleString("OK"@),
        ),
        CommandView::Get(k) => (m, get_reply(lookup(m, k, now))),
    }
}

/// The reply to `PING`.
pub fn handle_ping() -> (r: Frame)
    ensures
        r@ == FrameView::SimpleString("PONG"@),
{
    Frame::SimpleString("PONG".to_owned())
}

/// The reply to `ECHO`: the text itself.
pub fn handle_echo(response: &str) -> (r: Frame)
    ensures
        r@ == FrameView::SimpleString(response@),
{
    Frame::SimpleString(response.to_owned())
}

/// Runs a `SET` at instant `now` of the store's clock.
pub fn handle_set_at(database: &mut RedisDatabase, set: &SetOptions, now: u64) -> (r: Frame)
    requires
        old(database).wf(),
    ensures
        final(database).wf(),
        final(database)@ == insert_spec(old(database)@, set.key@, set.value@, set.expiration, now),
        r@ == FrameView::SimpleString("OK"@),
{
    let _ = database.insert_at(set.key.as_str(), set.value.as_str(), set.expiration, now);
    Frame::SimpleString("OK".to_owned())
}

/// Runs a `SET` now.
pub fn handle_set(database: &mut RedisDatabase, set: &SetOptions) -> (r: Frame)
    requires
        old(database).wf(),
    ensures
        final(database).wf(),
        exists|now: u64|
            final(database)@ == insert_spec(old(database)@, set.key@, set.value@, set.expiration, now),
        r@ == FrameView::SimpleString("OK"@),
{
    let _ = database.insert(set.key.as_str(), set.value.as_str(), set.expiration);
    Frame::SimpleString("OK".to_owned())
}

fn get_reply_frame(value: Option<&String>) -> (r: Frame)
    ensures
        r@ == get_reply(
            match value {
                Some(v) => Some(v@),
                None => None,
            },
        ),
{
    match value {
        Some(v) => Frame::BulkString(v.clone()),
        None => Frame::Null,
    }
}

/// Runs a `GET` at instant `now` of the store's clock.
pub fn handle_get_at(database: &RedisDatabase, key: &str, now: u64) -> (r: Frame)
    requires
        database.wf(),
    ensures
        r@ == get_reply(lookup(database@, key@, now)),
{
    get_reply_frame(database.get_at(key, now))
}

/// Runs a `GET` now.
pub fn handle_get(database: &RedisDatabase, key: &str) -> (r: Frame)
    requires
        database.wf(),
    ensures
        exists|now: u64| r@ == get_reply(lookup(database@, key@, now)),
{
    get_reply_frame(database.get(key))
}

impl RequestCommand {
    /// Runs this request at instant `now` of the store's clock and gives the reply.
    pub fn handle_command_at(&self, database: &mut RedisDatabase, now: u64) -> (r: Frame)
        requires
            old(database).wf(),
        ensures
            final(database).wf(),
            (final(database)@, r@) == execute(self@, old(database)@, now),
    {
        match self {
            RequestCommand::Ping => handle_ping(),
            RequestCommand::Echo(response) => handle_echo(response.as_str()),
            RequestCommand::SetValue(data) => handle_set_at(database, data, now),
            RequestCommand::Get(key) => handle_get_at(database, key.as_str(), now),
        }
    }

    /// Runs this request now and gives the reply.
    pub fn handle_command(&self, database: &mut RedisDatabase) -> (r: Frame)
        requires
            old(database).wf(),
        ensures
            final(database).wf(),
            exists|now: u64| (final(database)@, r@) == execute(self@, old(database)@, now),
    {
        match self {
            RequestCommand::Ping => {
                let r = handle_ping();
                assert((database@, r@) == execute(self@, old(database)@, 0));
                r
            },
            RequestCommand::Echo(response) => {
                let r = handle_echo(response.as_str());
                assert((database@, r@) == execute(self@, old(database)@, 0));
                r
            },
            RequestCommand::SetValue(data) => {
                let r = handle_set(database, data);
                proof {
                    let now = choose|now: u64|
                        database@ == insert_spec(old(database)@, data.key@, data.value@, data.expiration, now);
                    assert((database@, r@) == execute(self@, old(database)@, now));
                }
                r
            },
            RequestCommand::Get(key) => {
                let r = handle_get(database, key.as_str());
                proof {
                    let now = choose|now: u64| r@ == get_reply(lookup(database@, key@, now));
                    assert((database@, r@) == execute(self@, old(database)@, now));
                }
                r
            },
        }
    }

    /// Runs this request now if it only reads the store; a `SET` gives `None` and is left
    /// for `handle_command`.
    pub fn handle_read(&self, database: &RedisDatabase) -> (r: Option<Frame>)
        requires
            database.wf(),
        ensures
            r is None <==> self is SetValue,
            r matches Some(f) ==> exists|now: u64| (database@, f@) == execute(self@, database@, now),
    {
        match self {
            RequestCommand::Ping => {
                let r = handle_ping();
                assert((database@, r@) == execute(self@, database@, 0));
                Some(r)
            },
            RequestCommand::Echo(response) => {
                let r = handle_echo(response.as_str());
                assert((database@, r@) == execute(self@, database@, 0));
                Some(r)
            },
            RequestCommand::SetValue(_) => None,
            RequestCommand::Get(key) => {
                let r = handle_get(database, key.as_str());
                proof {
                    let now = choose|now: u64| r@ == get_reply(lookup(database@, key@, now));
                    assert((database@, r@) == execute(self@, database@, now));
                }
                Some(r)
            },
        }
    }
}

} // verus!
