use vstd::prelude::*;
use crate::proto::{JsonRpcError, JsonRpcRequestId, JsonRpcResponse, Request, Response};
use crate::connection::{InitRequest, InitResponse, WeirdProtocolVersion};
use crate::event::Event;

verus! {

/// Why a client call failed.
#[derive(Debug)]
pub enum WeirdClientError {
    /// A needed environment variable is not set.
    EnvVarNotSet { env_var: &'static str },
    /// The channel to the server closed unexpectedly.
    ChannelClosed,
    /// Reading or writing the socket failed; the text is the I/O error's message.
    IoError(String),
    /// The server answered with an error.
    RpcError(JsonRpcError),
    /// The server answered with another kind of response than expected.
    RpcUnexpectedResponse { expected: &'static str, actual: &'static str },
}

/// Settings of a client before it connects.
#[derive(Debug)]
pub struct WeirdClientBuilder {
    pub app: Option<String>,
}

impl Default for WeirdClientBuilder {
    fn default() -> (r: WeirdClientBuilder)
        ensures
            r.app is None,
    {
        WeirdClientBuilder { app: None }
    }
}

impl WeirdClientBuilder {
    /// These settings, naming the app behind the client `app`.
    pub fn app(self, app: &str) -> (r: Self)
        ensures
            r.app is Some && r.app->0@ == app@,
    {
        let name = app.to_string();
        proof {
            vstd::string::to_string_from_display_ensures_for_str(app, name);
        }
        WeirdClientBuilder { app: Some(name) }
    }

    /// The request a client with these settings opens its connection with:
    /// the current protocol version, the client library's name and the app.
    pub fn init_request(self) -> (r: InitRequest)
        ensures
            r.weird_protocol_version == WeirdProtocolVersion::CURRENT,
            r.client is Some && r.client->0@ == "weird-client"@,
            r.app == self.app,
    {
        let client = "weird-client".to_string();
        proof {
            vstd::string::to_string_from_display_ensures_for_str("weird-client", client);
        }
        InitRequest { weird_protocol_version: WeirdProtocolVersion::CURRENT, client: Some(client), app: self.app }
    }
}

/// Where the server's socket is.
#[derive(Debug, PartialEq, Eq)]
pub enum SocketPath {
    /// The path that `WEIRD_SOCKET` gives.
    Given(String),
    /// The file `weird.sock` in the directory that `XDG_RUNTIME_DIR` gives.
    InRuntimeDir(String),
}

/// Where the server's socket is, from the values of `WEIRD_SOCKET` and
/// `XDG_RUNTIME_DIR`: the first wins; without either the socket cannot be found.
pub fn socket_path(weird_socket: Option<String>, runtime_dir: Option<String>) -> (r: Result<SocketPath, WeirdClientError>)
    ensures
        weird_socket is Some ==> r == Ok::<SocketPath, WeirdClientError>(SocketPath::Given(weird_socket->0)),
        weird_socket is None && runtime_dir is Some ==> r == Ok::<SocketPath, WeirdClientError>(
            SocketPath::InRuntimeDir(runtime_dir->0)),
        weird_socket is None && runtime_dir is None ==> (r matches Err(WeirdClientError::EnvVarNotSet { env_var })
            && env_var@ == "XDG_RUNTIME_DIR"@),
{
    proof {
        reveal_strlit("XDG_RUNTIME_DIR");
    }
    match weird_socket {
        Some(p) => Ok(SocketPath::Given(p)),
        None => match runtime_dir {
            Some(d) => Ok(SocketPath::InRuntimeDir(d)),
            None => Err(WeirdClientError::EnvVarNotSet { env_var: "XDG_RUNTIME_DIR" }),
        },
    }
}

/// Whether `response` answers the request with the numeric identity `id`.
pub fn answers(response: &JsonRpcResponse<Response>, id: i64) -> (r: bool)
    ensures
        r == (crate::proto::response_id(*response) == Some(JsonRpcRequestId::Number(id))),
{
    match response.id() {
        Some(JsonRpcRequestId::Number(n)) => *n == id,
        _ => false,
    }
}

/// The result a response carries, or the error the server sent.
pub fn request_result(response: JsonRpcResponse<Response>) -> (r: Result<Response, WeirdClientError>)
    ensures
        match response {
            JsonRpcResponse::Result(res) => r == Ok::<Response, WeirdClientError>(res.result),
            JsonRpcResponse::Error(err) => r == Err::<Response, WeirdClientError>(WeirdClientError::RpcError(err.error)),
        },
{
    match response {
        JsonRpcResponse::Result(res) => Ok(res.result),
        JsonRpcResponse::Error(err) => Err(WeirdClientError::RpcError(err.error)),
    }
}

/// What the answer to the opening request tells the client: the server's
/// `init` response, or the error it sent, or that it sent something else.
pub fn init_result(response: JsonRpcResponse<Response>) -> (r: Result<InitResponse, WeirdClientError>)
    ensures
        match response {
            JsonRpcResponse::Result(res) => match res.result {
                Response::Init(i) => r == Ok::<InitResponse, WeirdClientError>(i),
                other => (r matches Err(WeirdClientError::RpcUnexpectedResponse { expected, actual })
                    && expected@ == "init"@ && actual@ == response_kind(other)),
            },
            JsonRpcResponse::Error(err) => r == Err::<InitResponse, WeirdClientError>(WeirdClientError::RpcError(err.error)),
        },
{
    proof {
        reveal_strlit("init");
    }
    match request_result(response) {
        Ok(Response::Init(i)) => Ok(i),
        Ok(other) => {
            let actual = other.kind();
            Err(WeirdClientError::RpcUnexpectedResponse { expected: "init", actual })
        },
        Err(e) => Err(e),
    }
}

/// The name of a kind of response.
pub open spec fn response_kind(r: Response) -> Seq<char> {
    match r {
        Response::Empty => "empty"@,
        Response::WorldDidChange(_) => "worldDidChange"@,
        Response::Event(_) => "event"@,
        Response::Init(_) => "init"@,
    }
}

/// What the answer to a request for the next event tells the client: an
/// event, or that there is none (the server had none, or the channel
/// closed), or an error.
pub fn next_event_result(result: Result<Response, WeirdClientError>) -> (r: Result<Option<Event>, WeirdClientError>)
    ensures
        match result {
            Ok(Response::Event(e)) => r == Ok::<Option<Event>, WeirdClientError>(Some(e)),
            Ok(Response::Empty) => r == Ok::<Option<Event>, WeirdClientError>(None),
            Err(WeirdClientError::ChannelClosed) => r == Ok::<Option<Event>, WeirdClientError>(None),
            Ok(other) => (r matches Err(WeirdClientError::RpcUnexpectedResponse { expected, actual })
                && expected@ == "event"@ && actual@ == response_kind(other)),
            Err(e) => r == Err::<Option<Event>, WeirdClientError>(e),
        },
{
    proof {
        reveal_strlit("event");
    }
    match result {
        Ok(Response::Event(e)) => Ok(Some(e)),
        Ok(Response::Empty) => Ok(None),
        Err(WeirdClientError::ChannelClosed) => Ok(None),
        Ok(other) => {
            let actual = other.kind();
            Err(WeirdClientError::RpcUnexpectedResponse { expected: "event", actual })
        },
        Err(e) => Err(e),
    }
}

/// Whether a failed render is only reported (the server refused it) rather
/// than fatal to the client.
pub fn render_error_is_reported(error: &WeirdClientError) -> (r: bool)
    ensures
        r == (error is RpcError),
{
    match error {
        WeirdClientError::RpcError(_) => true,
        _ => false,
    }
}

/// The request that renders `nodes`.
pub fn render_request(nodes: Vec<crate::node::Node>) -> (r: Request)
    ensures
        r == Request::Render(nodes),
{
    Request::Render(nodes)
}

} // verus!
