use vstd::prelude::*;
use crate::ids::{ConnectionId, NodeId, ROOT_NODE_RAW};
use crate::json::JsonValue;
use crate::node::{Element, Node, flat_of};
use crate::proto::{
    JsonRpcError, JsonRpcRequest, JsonRpcRequestId, JsonRpcResponse, JsonRpcResponseError, JsonRpcVersion, Request,
    Response, ok_response,
};
use crate::change::WorldDidChangeResponse;
use crate::connection::{
    InitRequest, InitResponse, SetNodeChildrenFailed, TriggerEventFailed, WeirdProtocolVersion, clone_opt_string,
};
use crate::event::{Event, TriggerOutcome};
use crate::world::{World, holds_tree, closes_window, created_views, deleted_views, opt_text};
use crate::tree::bfs_entries;
use crate::removal::{without, lemma_without};
use crate::tree::forest_size;

verus! {

/// The server's settings.
#[derive(Debug)]
pub struct Config {
    /// The web origins allowed to connect.
    pub allow_origins: Vec<String>,
}

/// The origins allowed when the settings name none: the local development server.
pub fn default_allow_origins() -> (r: Vec<String>)
    ensures
        r@.len() == 1,
        r@[0]@ == "http://localhost:5173"@,
{
    let origin = "http://localhost:5173".to_string();
    proof {
        vstd::string::to_string_from_display_ensures_for_str("http://localhost:5173", origin);
    }
    let mut v = Vec::new();
    v.push(origin);
    v
}

impl Default for Config {
    fn default() -> (r: Config)
        ensures
            r.allow_origins@.len() == 1,
            r.allow_origins@[0]@ == "http://localhost:5173"@,
    {
        Config { allow_origins: default_allow_origins() }
    }
}

impl Config {
    /// Whether the web origin `origin` may connect.
    pub fn allows(&self, origin: &String) -> (r: bool)
        ensures
            r == exists|i: int| 0 <= i < self.allow_origins@.len() && #[trigger] self.allow_origins@[i]@ == origin@,
    {
        let n = self.allow_origins.len();
        for i in 0..n
            invariant
                n == self.allow_origins@.len(),
                forall|j: int| 0 <= j < i ==> #[trigger] self.allow_origins@[j]@ != origin@,
        {
            if crate::json::string_eq(&self.allow_origins[i], origin) {
                return true;
            }
        }
        false
    }
}

/// The text `a` followed by the text `b`.
fn join_text(a: &str, b: &str) -> (r: String)
    ensures
        r@ == a@ + b@,
{
    let first = a.to_string();
    proof {
        vstd::string::to_string_from_display_ensures_for_str(a, first);
    }
    first.concat(b)
}

/// The name of a failure to set children, as the server reports it.
pub fn set_children_failure_name(error: &SetNodeChildrenFailed) -> (r: &'static str)
    ensures
        r@ == match error {
            SetNodeChildrenFailed::NodeNotFound => "NodeNotFound"@,
            SetNodeChildrenFailed::InvalidNodeType => "InvalidNodeType"@,
        },
{
    proof {
        reveal_strlit("NodeNotFound");
        reveal_strlit("InvalidNodeType");
    }
    match error {
        SetNodeChildrenFailed::NodeNotFound => "NodeNotFound",
        SetNodeChildrenFailed::InvalidNodeType => "InvalidNodeType",
    }
}

/// The error the server answers a render it could not apply with.
pub fn render_error(error: &SetNodeChildrenFailed) -> (r: JsonRpcError)
    ensures
        r.code == 1,
        r.message@ == "failed to update node in render request: "@ + set_children_failure_name_spec(*error),
        r.data@ == crate::json::JsonView::Null,
{
    let message = join_text("failed to update node in render request: ", set_children_failure_name(error));
    JsonRpcError { code: 1, message, data: JsonValue::Null }
}

/// The name of a failure to set children.
pub open spec fn set_children_failure_name_spec(error: SetNodeChildrenFailed) -> Seq<char> {
    match error {
        SetNodeChildrenFailed::NodeNotFound => "NodeNotFound"@,
        SetNodeChildrenFailed::InvalidNodeType => "InvalidNodeType"@,
    }
}

/// The error the server answers an event it could not trigger with.
pub fn trigger_error(error: &TriggerEventFailed) -> (r: JsonRpcError)
    ensures
        r.code == 2,
        r.message@ == "trigger event error: NoConnectionForNode"@,
        r.data@ == crate::json::JsonView::Null,
{
    let name = match error {
        TriggerEventFailed::NoConnectionForNode => "NoConnectionForNode",
    };
    proof {
        reveal_strlit("NoConnectionForNode");
        reveal_strlit("trigger event error: ");
        reveal_strlit("trigger event error: NoConnectionForNode");
    }
    let message = join_text("trigger event error: ", name);
    proof {
        assert(message@ =~= "trigger event error: NoConnectionForNode"@);
    }
    JsonRpcError { code: 2, message, data: JsonValue::Null }
}

/// What the server does after one request of a client.
#[derive(Debug)]
pub enum Reply {
    /// Send this response.
    Send(JsonRpcResponse<Response>),
    /// Send this response, then keep sending every later batch of changes,
    /// as results for the request with this identity.
    SendAndFollow(JsonRpcResponse<Response>, Option<JsonRpcRequestId>),
    /// Wait for the connection's next event and send it (or an empty
    /// result once there is none) for the request with this identity.
    AwaitEvent(Option<JsonRpcRequestId>),
    /// Send this response; the world forgot `connection`, so its client
    /// gets no more events.
    SendAndRelease(JsonRpcResponse<Response>, ConnectionId),
    /// Hand `event` to `connection`, then answer the request with this
    /// identity with an empty result, or, if the connection is gone, with
    /// [`trigger_error`].
    Deliver { connection: ConnectionId, event: Event, id: Option<JsonRpcRequestId> },
}

/// The state of one client's connection on the server.
#[derive(Debug)]
pub struct Session {
    /// The connection the client speaks for.
    pub connection: ConnectionId,
    /// The window that the client's renders fill, once it has one.
    pub window_node: Option<NodeId>,
}

/// How many nodes a request may add to the world.
pub open spec fn request_size(r: Request) -> nat {
    match r {
        Request::Render(nodes) => 1 + forest_size(nodes@),
        _ => 0,
    }
}

impl Session {
    /// Whether the world can take `request`: it still has its root, and
    /// the nodes the request may add still get identities.
    pub fn fits(world: &World, request: &Request) -> (r: bool)
        ensures
            r == (world.child_map().contains_key(ROOT_NODE_RAW) && world.spec_next_node_id() + request_size(*request)
                <= u64::MAX),
    {
        if !world.has_children_list(NodeId(ROOT_NODE_RAW)) {
            return false;
        }
        let next = world.next_node_id();
        match request {
            Request::Render(nodes) => match crate::tree::forest_size_checked(nodes) {
                Some(k) => k < u64::MAX && next <= u64::MAX - k - 1,
                None => false,
            },
            _ => true,
        }
    }

    /// A session for `connection`, without a window yet.
    pub fn new(connection: ConnectionId) -> (r: Session)
        ensures
            r.connection == connection,
            r.window_node is None,
    {
        Session { connection, window_node: None }
    }

    /// Handles one request: returns what to do next and, when the world
    /// changed, the changes to announce.
    ///
    /// A first render places a `Window` holding the rendered nodes at the
    /// top of the world and remembers it; later renders set its children.
    pub fn handle(&mut self, world: &mut World, request: JsonRpcRequest<Request>) -> (r: (
        Reply,
        Option<WorldDidChangeResponse>,
    ))
        requires
            old(world).wf(),
            old(world).child_map().contains_key(ROOT_NODE_RAW),
            old(world).spec_next_node_id() + request_size(request.body) <= u64::MAX,
        ensures
            final(world).wf(),
            final(self).connection == old(self).connection,
            r.1 matches Some(ch) ==> ch@.len() > 0,
            match request.body {
                Request::SyncWorld => (r.0 matches Reply::SendAndFollow(JsonRpcResponse::Result(res), fid)
                    && fid == request.id && res.id == request.id && res.json_rpc == crate::proto::JsonRpcVersion::V2_0
                    && (res.result matches Response::WorldDidChange(ev) && ev@ == old(world).removal_of(
                    old(world).child_map()[ROOT_NODE_RAW]).map_values(|z: u64| old(world).created_now(z))))
                    && r.1 is None && *final(world) == *old(world) && final(self).window_node == old(self).window_node,
                Request::NextEvent => (if old(world).connection_map().contains_key(old(self).connection.0) {
                    r.0 == Reply::AwaitEvent(request.id)
                } else {
                    r.0 == Reply::Send(ok_response(request.id, Response::Empty))
                }) && r.1 is None && *final(world) == *old(world) && final(self).window_node == old(self).window_node,
                Request::Init(_) => r.0 == Reply::Send(ok_response(request.id, Response::Init(InitResponse {
                    weird_protocol_version: WeirdProtocolVersion::CURRENT,
                    connection_id: old(self).connection,
                }))) && r.1 is None && *final(world) == *old(world) && final(self).window_node == old(self).window_node,
                Request::Render(nodes) => match old(self).window_node {
                    None => {
                        let top = old(world).spec_next_node_id();
                        &&& final(self).window_node == Some(NodeId(top))
                        &&& r.0 == Reply::Send(ok_response(request.id, Response::Empty))
                        &&& final(world).node_map().contains_key(top)
                        &&& final(world).node_map()[top] == crate::node::FlatNodeView::Element(
                            crate::node::FlatElementView { tag: "Window"@, attributes: Map::empty() })
                        &&& final(world).parent_map().contains_key(top)
                        &&& final(world).parent_map()[top].0 == ROOT_NODE_RAW
                        &&& final(world).child_map().contains_key(top)
                        &&& final(world).child_map()[top].len() == nodes@.len()
                        &&& forall|i: int| 0 <= i < nodes@.len() ==> holds_tree(*final(world),
                            #[trigger] final(world).child_map()[top][i], nodes@[i])
                        &&& r.1 matches Some(ch) && exists|win: Node| #![trigger flat_of(win)] {
                            &&& win is Element
                            &&& win->Element_0.children@ == nodes@
                            &&& flat_of(win) == crate::node::FlatNodeView::Element(
                                crate::node::FlatElementView { tag: "Window"@, attributes: Map::empty() })
                            &&& ch@ == created_views(bfs_entries(seq![(win, ROOT_NODE_RAW)], top as int), top as int)
                        }
                        &&& forall|z: u64| #[trigger] old(world).node_map().contains_key(z) ==> final(world).node_map().contains_key(z)
                            && final(world).node_map()[z] == old(world).node_map()[z]
                        &&& forall|z: u64| #[trigger] old(world).parent_map().contains_key(z) ==> final(world).parent_map().contains_key(z)
                            && final(world).parent_map()[z].0 == old(world).parent_map()[z].0
                        &&& forall|p: u64| #[trigger] old(world).child_map().contains_key(p) ==> final(world).child_map().contains_key(p)
                            && final(world).child_map()[p] == if p == ROOT_NODE_RAW {
                            old(world).child_map()[p].push(top)
                        } else {
                            old(world).child_map()[p]
                        }
                    },
                    Some(w) => final(self).window_node == Some(w) && (
                        if !old(world).node_map().contains_key(w.0) || old(world).node_map()[w.0] is Text {
                            r.0 == Reply::Send(JsonRpcResponse::Error(JsonRpcResponseError {
                                json_rpc: JsonRpcVersion::V2_0,
                                id: request.id,
                                error: JsonRpcError {
                                    code: 1,
                                    message: r.0->Send_0->Error_0.error.message,
                                    data: r.0->Send_0->Error_0.error.data,
                                },
                            })) && r.0->Send_0->Error_0.error.message@ == "failed to update node in render request: "@
                                + set_children_failure_name_spec(
                                if !old(world).node_map().contains_key(w.0) {
                                    SetNodeChildrenFailed::NodeNotFound
                                } else {
                                    SetNodeChildrenFailed::InvalidNodeType
                                },
                            ) && r.0->Send_0->Error_0.error.data@ == crate::json::JsonView::Null && r.1 is None
                                && *final(world) == *old(world)
                        } else {
                            &&& r.0 == Reply::Send(ok_response(request.id, Response::Empty))
                            &&& match r.1 {
                                Some(ch) => ch@.len() > 0 && World::renders(*old(world), *final(world), w.0, nodes@, ch@),
                                None => World::renders(*old(world), *final(world), w.0, nodes@, Seq::empty()),
                            }
                        }),
                },
                Request::TriggerEvent(te) => final(self).window_node == old(self).window_node && {
                    let t = te.target_node_id.0;
                    let owned = old(world).owner_map().contains_key(t) && old(world).connection_map().contains_key(
                        old(world).owner_map()[t]);
                    let c = old(world).owner_map()[t];
                    &&& !owned ==> r.0 == Reply::Send(JsonRpcResponse::Error(JsonRpcResponseError {
                        json_rpc: JsonRpcVersion::V2_0,
                        id: request.id,
                        error: JsonRpcError {
                            code: 2,
                            message: r.0->Send_0->Error_0.error.message,
                            data: r.0->Send_0->Error_0.error.data,
                        },
                    })) && r.0->Send_0->Error_0.error.message@ == "trigger event error: NoConnectionForNode"@
                        && r.0->Send_0->Error_0.error.data@ == crate::json::JsonView::Null && r.1 is None
                        && *final(world) == *old(world)
                    &&& owned && closes_window(*old(world), t, te.event@) ==> r.0 == Reply::SendAndRelease(
                        ok_response(request.id, Response::Empty), ConnectionId(c))
                        && (r.1 matches Some(ch) && ch@ == deleted_views(old(world).removal_of(seq![t])))
                        && final(world).node_map() == old(world).node_map().remove_keys(
                        old(world).removal_of(seq![t]).to_set())
                        && !final(world).connection_map().contains_key(c)
                    &&& owned && !closes_window(*old(world), t, te.event@) ==> *final(world) == *old(world) && r.1 is None
                        && (r.0 matches Reply::Deliver { connection, event, id } && id == request.id && connection.0 == c
                        && event.target_node_id == te.target_node_id && event.event == te.event
                        && event.params == te.params
                        && opt_text(event.target_id) == crate::node::flat_id(old(world).node_map()[t]))
                },
            },
    {
        let id = request.id;
        match request.body {
            Request::SyncWorld => {
                let event = world.initial_event();
                let id2 = crate::proto::duplicate_id(&id);
                (Reply::SendAndFollow(JsonRpcResponse::result(id, Response::WorldDidChange(event)), id2), None)
            },
            Request::NextEvent => {
                if world.has_connection(self.connection) {
                    (Reply::AwaitEvent(id), None)
                } else {
                    (Reply::Send(JsonRpcResponse::result(id, Response::Empty)), None)
                }
            },
            Request::Init(_) => {
                let response = InitResponse {
                    weird_protocol_version: WeirdProtocolVersion::CURRENT,
                    connection_id: self.connection,
                };
                (Reply::Send(JsonRpcResponse::result(id, Response::Init(response))), None)
            },
            Request::Render(nodes) => {
                match self.window_node {
                    None => {
                        let ghost kids = nodes@;
                        let window = Node::Element(Element::new("Window").children(nodes));
                        proof {
                            assert(window->Element_0.children@ =~= kids);
                            assert(crate::tree::tree_size(window) == 1 + forest_size(kids));
                        }
                        let ghost w0 = *world;
                        let (top, changes) = world.append_node(window, NodeId(ROOT_NODE_RAW), self.connection);
                        proof {
                            assert(!w0.replaces(window, ROOT_NODE_RAW, self.connection.0));
                            assert(w0.replaced_by(window, ROOT_NODE_RAW, self.connection.0) =~= Set::<u64>::empty());
                            assert forall|q: Seq<u64>| q.to_set() == Set::<u64>::empty() implies #[trigger] w0.removal_of(q)
                                == Seq::<u64>::empty() by {
                                w0.lemma_removal_of_none(q);
                            }
                            assert(deleted_views(Seq::<u64>::empty()) + created_views(bfs_entries(seq![(window, ROOT_NODE_RAW)],
                                top.0 as int), top.0 as int) =~= created_views(bfs_entries(seq![(window, ROOT_NODE_RAW)],
                                top.0 as int), top.0 as int));
                            assert(Seq::<u64>::empty().to_set() =~= Set::<u64>::empty());
                            assert forall|l: Seq<u64>| #[trigger] without(l, Set::<u64>::empty()) == l by {
                                lemma_without(l, Set::<u64>::empty());
                            }
                        }
                        self.window_node = Some(top);
                        let announce = if changes.is_empty() {
                            None
                        } else {
                            Some(changes)
                        };
                        (Reply::Send(JsonRpcResponse::result(id, Response::Empty)), announce)
                    },
                    Some(w) => {
                        proof {
                            assert(forest_size(nodes@) <= request_size(Request::Render(nodes)));
                        }
                        match world.set_node_children(w, nodes, self.connection) {
                            Ok((changed, changes)) => {
                                proof {
                                    if !changed {
                                        assert(changes@ =~= Seq::<crate::change::ChangeView>::empty());
                                    }
                                }
                                let announce = if changed {
                                    Some(changes)
                                } else {
                                    None
                                };
                                (Reply::Send(JsonRpcResponse::result(id, Response::Empty)), announce)
                            },
                            Err(e) => (Reply::Send(JsonRpcResponse::error(id, render_error(&e))), None),
                        }
                    },
                }
            },
            Request::TriggerEvent(te) => {
                proof {
                    old(world).lemma_removal_of_first(seq![te.target_node_id.0]);
                }
                let owner = world.owner_of(te.target_node_id);
                match world.trigger_event(te) {
                    Ok(TriggerOutcome::WindowClosed(changes)) => {
                        let announce = if changes.is_empty() {
                            None
                        } else {
                            Some(changes)
                        };
                        match owner {
                            Some(c) => (Reply::SendAndRelease(JsonRpcResponse::result(id, Response::Empty), c), announce),
                            None => (Reply::Send(JsonRpcResponse::result(id, Response::Empty)), announce),
                        }
                    },
                    Ok(TriggerOutcome::Deliver(connection, event)) => (Reply::Deliver { connection, event, id }, None),
                    Err(e) => (Reply::Send(JsonRpcResponse::error(id, trigger_error(&e))), None),
                }
            },
        }
    }
}

/// What a web client's socket gives the server next.
pub enum ClientFrame {
    /// The socket ended without a close message.
    Ended,
    /// Reading from the socket failed.
    Failed,
    /// The client closed the connection.
    Close,
    Ping,
    Pong,
    Text(String),
    Binary(Vec<u8>),
}

/// What the server does with a frame of a web client: stop serving the
/// client, wait for the next frame, or read a request from the text.
pub enum FrameAction {
    Stop,
    Skip,
    Read(String),
}

/// The text that `bytes` encode, if they are valid UTF-8. The contract
/// claims of `String::from_utf8` that it succeeds exactly on valid UTF-8,
/// and then gives the characters that the bytes encode.
#[verifier::external_body]
fn text_of_bytes(bytes: Vec<u8>) -> (r: Option<String>)
    ensures
        r is Some <==> vstd::utf8::valid_utf8(bytes@),
        r matches Some(s) ==> s@ == vstd::utf8::decode_utf8(bytes@),
{
    String::from_utf8(bytes).ok()
}

/// What the server does with a frame of a web client: it stops when the
/// socket ends, fails or is closed, and on a binary frame that is not
/// UTF-8; it skips pings and pongs; it reads a request from a text frame,
/// and from the text that a binary frame encodes.
pub fn frame_action(frame: ClientFrame) -> (r: FrameAction)
    ensures
        match frame {
            ClientFrame::Text(t) => r matches FrameAction::Read(s) && s@ == t@,
            ClientFrame::Binary(b) => if vstd::utf8::valid_utf8(b@) {
                r matches FrameAction::Read(s) && s@ == vstd::utf8::decode_utf8(b@)
            } else {
                r is Stop
            },
            ClientFrame::Ping => r is Skip,
            ClientFrame::Pong => r is Skip,
            _ => r is Stop,
        },
{
    match frame {
        ClientFrame::Ended => FrameAction::Stop,
        ClientFrame::Failed => FrameAction::Stop,
        ClientFrame::Close => FrameAction::Stop,
        ClientFrame::Ping => FrameAction::Skip,
        ClientFrame::Pong => FrameAction::Skip,
        ClientFrame::Text(t) => FrameAction::Read(t),
        ClientFrame::Binary(b) => match text_of_bytes(b) {
            Some(t) => FrameAction::Read(t),
            None => FrameAction::Stop,
        },
    }
}

/// The answer to a request that could not be read, `detail` saying why:
/// an error with code 1 and no request identity.
pub fn unreadable_request(detail: &str) -> (r: JsonRpcResponse<Response>)
    ensures
        r matches JsonRpcResponse::Error(e) && {
            &&& e.id is None
            &&& e.error.code == 1
            &&& e.error.message@ == "received invalid JSON RPC request: "@ + detail@
            &&& e.error.data@ == crate::json::JsonView::Null
        },
{
    let message = join_text("received invalid JSON RPC request: ", detail);
    JsonRpcResponse::error(None, JsonRpcError { code: 1, message, data: JsonValue::Null })
}

/// The answer to a first request when the connection could not be opened,
/// `detail` saying why: an error with code 3 for the request `id`.
pub fn open_failed(id: Option<JsonRpcRequestId>, detail: &str) -> (r: JsonRpcResponse<Response>)
    ensures
        r matches JsonRpcResponse::Error(e) && {
            &&& e.id == id
            &&& e.error.code == 3
            &&& e.error.message@ == "failed to open connection: "@ + detail@
            &&& e.error.data@ == crate::json::JsonView::Null
        },
{
    let message = join_text("failed to open connection: ", detail);
    JsonRpcResponse::error(id, JsonRpcError { code: 3, message, data: JsonValue::Null })
}

/// The settings a connection opens with: those of the client's first
/// request when it is an `init` request, the defaults otherwise.
pub fn opening_request(first: &Request) -> (r: InitRequest)
    ensures
        match first {
            Request::Init(i) => r == *i,
            _ => r.weird_protocol_version == WeirdProtocolVersion::CURRENT && r.client is None && r.app is None,
        },
{
    match first {
        Request::Init(i) => InitRequest {
            weird_protocol_version: i.weird_protocol_version,
            client: clone_opt_string(&i.client),
            app: clone_opt_string(&i.app),
        },
        _ => InitRequest::default(),
    }
}

/// What connecting to the socket path left by an earlier server found.
pub enum SocketProbe {
    /// A server accepted the connection.
    Listening,
    /// Nothing is at the path.
    NotFound,
    /// A socket is at the path but no server listens on it.
    Refused,
    /// Connecting failed in another way.
    Failed,
}

/// What the server does about the socket path before it binds it.
pub enum SocketCleanup {
    /// Refuse to start: another server is running.
    Refuse,
    /// Remove the dead socket, then bind.
    Remove,
    /// Bind without removing anything.
    Bind,
}

/// What to do about an old socket path: refuse to start while a server
/// listens on it, remove a dead socket, and bind otherwise.
pub fn old_socket_cleanup(probe: SocketProbe) -> (r: SocketCleanup)
    ensures
        match probe {
            SocketProbe::Listening => r is Refuse,
            SocketProbe::Refused => r is Remove,
            _ => r is Bind,
        },
{
    match probe {
        SocketProbe::Listening => SocketCleanup::Refuse,
        SocketProbe::NotFound => SocketCleanup::Bind,
        SocketProbe::Refused => SocketCleanup::Remove,
        SocketProbe::Failed => SocketCleanup::Bind,
    }
}

/// The answer to a request whose event was handed on: an empty result when
/// the connection took it, else the error for a node without a connection.
pub fn delivery_reply(id: Option<JsonRpcRequestId>, delivered: bool) -> (r: JsonRpcResponse<Response>)
    ensures
        delivered ==> r == ok_response(id, Response::Empty),
        !delivered ==> (r matches JsonRpcResponse::Error(e) && e.id == id && e.json_rpc == JsonRpcVersion::V2_0
            && e.error.code == 2 && e.error.message@ == "trigger event error: NoConnectionForNode"@
            && e.error.data@ == crate::json::JsonView::Null),
{
    if delivered {
        JsonRpcResponse::result(id, Response::Empty)
    } else {
        JsonRpcResponse::error(id, trigger_error(&TriggerEventFailed::NoConnectionForNode))
    }
}

} // verus!
