use vstd::prelude::*;
use crate::json::JsonValue;
use crate::node::Node;
use crate::event::{Event, TriggerEvent};
use crate::change::WorldDidChangeResponse;
use crate::connection::{InitRequest, InitResponse};

verus! {

/// The JSON-RPC protocol version.
#[derive(Debug, Clone, Copy, PartialEq, Eq, Structural)]
pub enum JsonRpcVersion {
    V2_0,
}

/// The identity that a client gives a request, echoed in its response.
#[derive(Debug, Clone, PartialEq, Eq, PartialOrd, Ord, Hash)]
pub enum JsonRpcRequestId {
    String(String),
    Number(i64),
}

/// The view of a request identity: its text or its number.
pub enum JsonRpcRequestIdView {
    String(Seq<char>),
    Number(i64),
}

impl View for JsonRpcRequestId {
    type V = JsonRpcRequestIdView;

    open spec fn view(&self) -> JsonRpcRequestIdView {
        match self {
            JsonRpcRequestId::String(s) => JsonRpcRequestIdView::String(s@),
            JsonRpcRequestId::Number(n) => JsonRpcRequestIdView::Number(*n),
        }
    }
}

impl JsonRpcRequestId {
    /// Whether two request identities are equal.
    pub fn same_as(&self, other: &JsonRpcRequestId) -> (r: bool)
        ensures
            r == (self@ == other@),
    {
        match (self, other) {
            (JsonRpcRequestId::String(a), JsonRpcRequestId::String(b)) => crate::json::string_eq(a, b),
            (JsonRpcRequestId::Number(a), JsonRpcRequestId::Number(b)) => *a == *b,
            _ => false,
        }
    }

    /// A copy of this identity.
    pub fn duplicate(&self) -> (r: JsonRpcRequestId)
        ensures
            r == *self,
    {
        match self {
            JsonRpcRequestId::String(s) => JsonRpcRequestId::String(s.clone()),
            JsonRpcRequestId::Number(n) => JsonRpcRequestId::Number(*n),
        }
    }
}

impl From<String> for JsonRpcRequestId {
    fn from(value: String) -> (r: JsonRpcRequestId) {
        JsonRpcRequestId::String(value)
    }
}

impl vstd::std_specs::convert::FromSpecImpl<String> for JsonRpcRequestId {
    open spec fn obeys_from_spec() -> bool {
        true
    }

    open spec fn from_spec(v: String) -> JsonRpcRequestId {
        JsonRpcRequestId::String(v)
    }
}

impl From<i64> for JsonRpcRequestId {
    fn from(value: i64) -> (r: JsonRpcRequestId) {
        JsonRpcRequestId::Number(value)
    }
}

impl vstd::std_specs::convert::FromSpecImpl<i64> for JsonRpcRequestId {
    open spec fn obeys_from_spec() -> bool {
        true
    }

    open spec fn from_spec(v: i64) -> JsonRpcRequestId {
        JsonRpcRequestId::Number(v)
    }
}

/// A copy of an optional request identity.
pub fn duplicate_id(id: &Option<JsonRpcRequestId>) -> (r: Option<JsonRpcRequestId>)
    ensures
        r == *id,
{
    match id {
        Some(i) => Some(i.duplicate()),
        None => None,
    }
}

/// A JSON-RPC request carrying `body`.
#[derive(Debug)]
pub struct JsonRpcRequest<Body> {
    pub json_rpc: JsonRpcVersion,
    pub id: Option<JsonRpcRequestId>,
    pub body: Body,
}

impl<Body> JsonRpcRequest<Body> {
    /// A version 2.0 request with identity `id` and body `body`.
    pub fn new(id: Option<JsonRpcRequestId>, body: Body) -> (r: Self)
        ensures
            r.json_rpc == JsonRpcVersion::V2_0,
            r.id == id,
            r.body == body,
    {
        JsonRpcRequest { json_rpc: JsonRpcVersion::V2_0, id, body }
    }
}

/// An error reported to a client.
#[derive(Debug, PartialEq, Eq)]
pub struct JsonRpcError {
    pub code: u32,
    pub message: String,
    pub data: JsonValue,
}

/// A successful response to the request with identity `id`.
#[derive(Debug)]
pub struct JsonRpcResponseResult<T> {
    pub json_rpc: JsonRpcVersion,
    pub id: Option<JsonRpcRequestId>,
    pub result: T,
}

impl<T> JsonRpcResponseResult<T> {
    /// A version 2.0 result for the request with identity `id`.
    pub fn new(id: Option<JsonRpcRequestId>, result: T) -> (r: Self)
        ensures
            r.json_rpc == JsonRpcVersion::V2_0,
            r.id == id,
            r.result == result,
    {
        JsonRpcResponseResult { json_rpc: JsonRpcVersion::V2_0, id, result }
    }
}

/// A failed response to the request with identity `id`.
#[derive(Debug)]
pub struct JsonRpcResponseError {
    pub json_rpc: JsonRpcVersion,
    pub id: Option<JsonRpcRequestId>,
    pub error: JsonRpcError,
}

impl JsonRpcResponseError {
    /// A version 2.0 error for the request with identity `id`.
    pub fn new(id: Option<JsonRpcRequestId>, error: JsonRpcError) -> (r: Self)
        ensures
            r.json_rpc == JsonRpcVersion::V2_0,
            r.id == id,
            r.error == error,
    {
        JsonRpcResponseError { json_rpc: JsonRpcVersion::V2_0, id, error }
    }
}

/// The identity of the request that a response answers.
pub open spec fn response_id<T>(r: JsonRpcResponse<T>) -> Option<JsonRpcRequestId> {
    match r {
        JsonRpcResponse::Result(res) => res.id,
        JsonRpcResponse::Error(err) => err.id,
    }
}

/// The successful version 2.0 response carrying `result` for the request `id`.
pub open spec fn ok_response<T>(id: Option<JsonRpcRequestId>, result: T) -> JsonRpcResponse<T> {
    JsonRpcResponse::Result(JsonRpcResponseResult { json_rpc: JsonRpcVersion::V2_0, id, result })
}

/// A JSON-RPC response: a result or an error.
#[derive(Debug)]
pub enum JsonRpcResponse<T> {
    Result(JsonRpcResponseResult<T>),
    Error(JsonRpcResponseError),
}

impl<T> JsonRpcResponse<T> {
    /// The response to the request with identity `id` that `result` calls for.
    pub fn new(id: Option<JsonRpcRequestId>, result: Result<T, JsonRpcError>) -> (r: Self)
        ensures
            match result {
                Ok(v) => r == JsonRpcResponse::Result(JsonRpcResponseResult { json_rpc: JsonRpcVersion::V2_0, id, result: v }),
                Err(e) => r == JsonRpcResponse::<T>::Error(JsonRpcResponseError { json_rpc: JsonRpcVersion::V2_0, id, error: e }),
            },
    {
        match result {
            Ok(v) => JsonRpcResponse::Result(JsonRpcResponseResult::new(id, v)),
            Err(e) => JsonRpcResponse::Error(JsonRpcResponseError::new(id, e)),
        }
    }

    /// A successful response to the request with identity `id`.
    pub fn result(id: Option<JsonRpcRequestId>, result: T) -> (r: Self)
        ensures
            r == JsonRpcResponse::Result(JsonRpcResponseResult { json_rpc: JsonRpcVersion::V2_0, id, result }),
    {
        JsonRpcResponse::Result(JsonRpcResponseResult { json_rpc: JsonRpcVersion::V2_0, result, id })
    }

    /// A failed response to the request with identity `id`.
    pub fn error(id: Option<JsonRpcRequestId>, error: JsonRpcError) -> (r: Self)
        ensures
            r == JsonRpcResponse::<T>::Error(JsonRpcResponseError { json_rpc: JsonRpcVersion::V2_0, id, error }),
    {
        JsonRpcResponse::Error(JsonRpcResponseError { json_rpc: JsonRpcVersion::V2_0, error, id })
    }

    /// The identity of the request this responds to.
    pub fn id(&self) -> (r: Option<&JsonRpcRequestId>)
        ensures
            r == match self {
                JsonRpcResponse::Result(res) => match res.id {
                    Some(i) => Some(&i),
                    None => None,
                },
                JsonRpcResponse::Error(err) => match err.id {
                    Some(i) => Some(&i),
                    None => None,
                },
            },
    {
        match self {
            JsonRpcResponse::Result(res) => res.id.as_ref(),
            JsonRpcResponse::Error(err) => err.id.as_ref(),
        }
    }
}

/// What a client asks of the server.
#[derive(Debug)]
pub enum Request {
    /// Send the whole world, then every change to it.
    SyncWorld,
    /// Send the next event on the client's nodes, or nothing once there is none.
    NextEvent,
    /// Trigger an event on a node.
    TriggerEvent(TriggerEvent),
    /// Render these nodes as the content of the client's window.
    Render(Vec<Node>),
    /// Open the connection.
    Init(InitRequest),
}

/// What the server answers.
#[derive(Debug)]
pub enum Response {
    Empty,
    WorldDidChange(WorldDidChangeResponse),
    Event(Event),
    Init(InitResponse),
}

impl Response {
    /// The name of this kind of response.
    pub fn kind(&self) -> (r: &'static str)
        ensures
            r@ == match self {
                Response::Empty => "empty"@,
                Response::WorldDidChange(_) => "worldDidChange"@,
                Response::Event(_) => "event"@,
                Response::Init(_) => "init"@,
            },
    {
        proof {
            reveal_strlit("empty");
            reveal_strlit("worldDidChange");
            reveal_strlit("event");
            reveal_strlit("init");
        }
        match self {
            Response::Empty => "empty",
            Response::WorldDidChange(_) => "worldDidChange",
            Response::Event(_) => "event",
            Response::Init(_) => "init",
        }
    }
}

} // verus!
