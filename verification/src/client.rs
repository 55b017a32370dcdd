use vstd::prelude::*;
use crate::protocol::{
    Command, ProtocolError, Response, ResponseModel, command_result_view, command_text, encode_command,
    parse_command, parse_command_spec, parse_response, parse_response_spec, response_result_view,
};
use crate::text::{decimal, decimal_text, lossy_string, owned, utf8_lossy};

verus! {

#[verifier::external_type_specification]
#[verifier::external_body]
pub struct ExIoError(std::io::Error);

/// Why a request to a cache node failed.
#[derive(Debug)]
pub enum ClientError {
    /// The connection failed.
    Io(std::io::Error),
    /// The node answered with an error, or with a reply that does not fit
    /// the request.
    Remote(String),
}

impl From<std::io::Error> for ClientError {
    fn from(error: std::io::Error) -> (e: Self) {
        ClientError::Io(error)
    }
}

impl vstd::std_specs::convert::FromSpecImpl<std::io::Error> for ClientError {
    open spec fn obeys_from_spec() -> bool {
        true
    }

    open spec fn from_spec(v: std::io::Error) -> Self {
        ClientError::Io(v)
    }
}

/// What `{:?}` writes for a string: it in double quotes, with quotes,
/// backslashes and unprintable characters escaped.
pub uninterp spec fn debug_quoted(s: Seq<char>) -> Seq<char>;

/// `<str as Debug>::fmt`, through `format!("{:?}", s)`: `s` quoted and
/// escaped. The escaping rules are left to the name `debug_quoted`.
#[verifier::external_body]
fn quoted(s: &str) -> (q: String)
    ensures
        q@ == debug_quoted(s@),
{
    format!("{:?}", s)
}

/// `<std::io::Error as Display>::fmt`, through `to_string`: the error's
/// message. What it says depends on the operating system, so nothing is
/// stated of it.
#[verifier::external_body]
fn io_error_text(error: &std::io::Error) -> (text: String) {
    error.to_string()
}

/// The bytes of a value as a list writes them: decimal numbers separated
/// by `, `.
pub open spec fn byte_list(v: Seq<u8>) -> Seq<char>
    decreases v.len(),
{
    if v.len() == 0 {
        Seq::empty()
    } else if v.len() == 1 {
        decimal(v[0] as nat)
    } else {
        byte_list(v.drop_last()) + ", "@ + decimal(v.last() as nat)
    }
}

/// How a reply reads in a report of an unexpected reply: its variant's
/// name, and its payload in brackets.
pub open spec fn reply_text(r: ResponseModel) -> Seq<char> {
    match r {
        ResponseModel::Pong => "Pong"@,
        ResponseModel::Okay => "Ok"@,
        ResponseModel::NotFound => "NotFound"@,
        ResponseModel::Value(v) => "Value(["@ + byte_list(v) + "])"@,
        ResponseModel::Error(m) => "Error("@ + debug_quoted(m) + ")"@,
        ResponseModel::Info(t) => "Info("@ + debug_quoted(t) + ")"@,
    }
}

/// The message of a reply that does not fit the request.
pub open spec fn unexpected_message(r: ResponseModel) -> Seq<char> {
    "unexpected response "@ + reply_text(r)
}

/// The message for a reply that does not fit the request.
pub fn unexpected(response: &Response) -> (message: String)
    ensures
        message@ == unexpected_message(response@),
{
    let mut message = owned("unexpected response ");
    match response {
        Response::Pong => message.append("Pong"),
        Response::Okay => message.append("Ok"),
        Response::NotFound => message.append("NotFound"),
        Response::Value(v) => {
            message.append("Value([");
            let mut i: usize = 0;
            let ghost head = message@;
            while i < v.len()
                invariant
                    i <= v@.len(),
                    message@ == head + byte_list(v@.take(i as int)),
                decreases v@.len() - i,
            {
                if i > 0 {
                    message.append(", ");
                }
                let d = decimal_text(v[i] as u64);
                message.append(d.as_str());
                proof {
                    let t = v@.take(i + 1);
                    assert(t.drop_last() =~= v@.take(i as int));
                    assert(t.last() == v@[i as int]);
                    if i == 0 {
                        assert(v@.take(0) =~= Seq::<u8>::empty());
                    }
                }
                i = i + 1;
            }
            assert(v@.take(v@.len() as int) =~= v@);
            message.append("])");
        },
        Response::Error(m) => {
            message.append("Error(");
            let q = quoted(m.as_str());
            message.append(q.as_str());
            message.append(")");
        },
        Response::Info(t) => {
            message.append("Info(");
            let q = quoted(t.as_str());
            message.append(q.as_str());
            message.append(")");
        },
    }
    message
}

/// What a GET's reply means: the value, no value, or the node's error.
pub fn get_reply(response: Response) -> (r: Result<Option<Vec<u8>>, ClientError>)
    ensures
        match response@ {
            ResponseModel::Value(v) => r matches Ok(Some(x)) && x@ == v,
            ResponseModel::NotFound => r matches Ok(None),
            ResponseModel::Error(m) => r matches Err(ClientError::Remote(t)) && t@ == m,
            other => r matches Err(ClientError::Remote(t)) && t@ == unexpected_message(other),
        },
{
    match response {
        Response::Value(value) => Ok(Some(value)),
        Response::NotFound => Ok(None),
        Response::Error(message) => Err(ClientError::Remote(message)),
        other => Err(ClientError::Remote(unexpected(&other))),
    }
}

/// What a SET's reply means: done, or the node's error.
pub fn set_reply(response: Response) -> (r: Result<(), ClientError>)
    ensures
        match response@ {
            ResponseModel::Okay => r is Ok,
            ResponseModel::Error(m) => r matches Err(ClientError::Remote(t)) && t@ == m,
            other => r matches Err(ClientError::Remote(t)) && t@ == unexpected_message(other),
        },
{
    match response {
        Response::Okay => Ok(()),
        Response::Error(message) => Err(ClientError::Remote(message)),
        other => Err(ClientError::Remote(unexpected(&other))),
    }
}

/// What a DELETE's reply means: whether the key was stored, or the node's
/// error.
pub fn delete_reply(response: Response) -> (r: Result<bool, ClientError>)
    ensures
        match response@ {
            ResponseModel::Okay => r == Ok::<bool, ClientError>(true),
            ResponseModel::NotFound => r == Ok::<bool, ClientError>(false),
            ResponseModel::Error(m) => r matches Err(ClientError::Remote(t)) && t@ == m,
            other => r matches Err(ClientError::Remote(t)) && t@ == unexpected_message(other),
        },
{
    match response {
        Response::Okay => Ok(true),
        Response::NotFound => Ok(false),
        Response::Error(message) => Err(ClientError::Remote(message)),
        other => Err(ClientError::Remote(unexpected(&other))),
    }
}

impl ClientError {
    /// The error as a sentence: `io error: ` and the connection's error, or
    /// `remote error: ` and the node's message.
    pub fn message(&self) -> (text: String)
        ensures
            match self {
                ClientError::Remote(m) => text@ == "remote error: "@ + m@,
                ClientError::Io(_) => text@.len() >= 10 && text@.take(10) == "io error: "@,
            },
    {
        match self {
            ClientError::Remote(m) => {
                let mut text = owned("remote error: ");
                text.append(m.as_str());
                text
            },
            ClientError::Io(error) => {
                let mut text = owned("io error: ");
                let detail = io_error_text(error);
                let ghost head = text@;
                text.append(detail.as_str());
                proof {
                    reveal_strlit("io error: ");
                    assert(text@.take(10) =~= head);
                }
                text
            },
        }
    }
}

/// The line a client sends for `command`, with its line feed.
pub fn request_line(command: &Command) -> (line: String)
    ensures
        line@ == command_text(command@) + "\n"@,
{
    let mut line = encode_command(command);
    line.append("\n");
    line
}

/// Reads the reply line a node sent, as received.
pub fn read_reply(bytes: &[u8]) -> (reply: Result<Response, ProtocolError>)
    ensures
        response_result_view(reply) == parse_response_spec(utf8_lossy(bytes@)),
{
    let text = lossy_string(bytes);
    parse_response(text.as_str())
}

/// Reads a command typed at the client's prompt, as the server would.
pub fn parse_command_line(line: &str) -> (parsed: Result<Command, ProtocolError>)
    ensures
        command_result_view(parsed) == parse_command_spec(line@),
{
    parse_command(line)
}

} // verus!
