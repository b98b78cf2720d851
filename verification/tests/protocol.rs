use weird_core::change::WorldDidChangeResponse;
use weird_core::client::{
    answers, init_result, next_event_result, render_error_is_reported, socket_path, SocketPath, WeirdClientBuilder,
    WeirdClientError,
};
use weird_core::connection::{ConnectionSource, InitRequest, InitResponse, SetNodeChildrenFailed, TriggerEventFailed, WeirdProtocolVersion};
use weird_core::event::{Event, TriggerEvent};
use weird_core::ids::{root_node_id, ConnectionId, NodeId};
use weird_core::json::JsonValue;
use weird_core::node::Node;
use weird_core::proto::{
    JsonRpcError, JsonRpcRequest, JsonRpcRequestId, JsonRpcResponse, JsonRpcResponseError, JsonRpcResponseResult,
    JsonRpcVersion, Request, Response,
};
use weird_core::server::{
    default_allow_origins, delivery_reply, frame_action, old_socket_cleanup, open_failed, opening_request, render_error, trigger_error, unreadable_request, ClientFrame, Config, FrameAction, SocketCleanup, SocketProbe,
    Reply, Session,
};
use weird_core::world::World;

fn error(code: u32, message: &str) -> JsonRpcError {
    JsonRpcError { code, message: message.to_string(), data: JsonValue::Null }
}

#[test]
fn json_rpc_request_new_sets_version_and_fields() {
    let r = JsonRpcRequest::new(Some(JsonRpcRequestId::Number(7)), 5u8);
    assert_eq!(r.json_rpc, JsonRpcVersion::V2_0);
    assert_eq!(r.id, Some(JsonRpcRequestId::Number(7)));
    assert_eq!(r.body, 5);
}

#[test]
fn json_rpc_response_result_new_sets_fields() {
    let r = JsonRpcResponseResult::new(Some(JsonRpcRequestId::from("a".to_string())), 3u8);
    assert_eq!(r.json_rpc, JsonRpcVersion::V2_0);
    assert_eq!(r.id, Some(JsonRpcRequestId::String("a".to_string())));
    assert_eq!(r.result, 3);
    let e = JsonRpcResponseError::new(None, error(4, "bad"));
    assert_eq!(e.id, None);
    assert_eq!(e.error, error(4, "bad"));
}

#[test]
fn json_rpc_response_new_picks_variant() {
    let ok = JsonRpcResponse::<u8>::new(Some(JsonRpcRequestId::from(1i64)), Ok(9));
    match ok {
        JsonRpcResponse::Result(r) => assert_eq!(r.result, 9),
        JsonRpcResponse::Error(_) => panic!("expected a result"),
    }
    let err = JsonRpcResponse::<u8>::new(Some(JsonRpcRequestId::from(2i64)), Err(error(1, "x")));
    assert_eq!(err.id(), Some(&JsonRpcRequestId::Number(2)));
    match err {
        JsonRpcResponse::Error(e) => assert_eq!(e.error.code, 1),
        JsonRpcResponse::Result(_) => panic!("expected an error"),
    }
}

#[test]
fn response_kinds() {
    assert_eq!(Response::Empty.kind(), "empty");
    assert_eq!(Response::WorldDidChange(WorldDidChangeResponse::default()).kind(), "worldDidChange");
    assert_eq!(
        Response::Init(InitResponse { weird_protocol_version: WeirdProtocolVersion::V0_1_0, connection_id: ConnectionId(1) })
            .kind(),
        "init"
    );
}

#[test]
fn request_ids_compare() {
    assert!(JsonRpcRequestId::Number(3).same_as(&JsonRpcRequestId::Number(3)));
    assert!(!JsonRpcRequestId::Number(3).same_as(&JsonRpcRequestId::String("3".to_string())));
}

#[test]
fn builder_app_sets_app() {
    let b = WeirdClientBuilder::default();
    assert_eq!(b.app, None);
    let b = b.app("my app");
    assert_eq!(b.app, Some("my app".to_string()));
    let init = b.init_request();
    assert_eq!(init.app, Some("my app".to_string()));
    assert_eq!(init.client, Some("weird-client".to_string()));
    assert_eq!(init.weird_protocol_version, WeirdProtocolVersion::CURRENT);
}

#[test]
fn socket_path_prefers_weird_socket() {
    assert_eq!(
        socket_path(Some("/tmp/s".to_string()), Some("/run/u".to_string())).unwrap(),
        SocketPath::Given("/tmp/s".to_string())
    );
    assert_eq!(socket_path(None, Some("/run/u".to_string())).unwrap(), SocketPath::InRuntimeDir("/run/u".to_string()));
    match socket_path(None, None) {
        Err(WeirdClientError::EnvVarNotSet { env_var }) => assert_eq!(env_var, "XDG_RUNTIME_DIR"),
        other => panic!("unexpected {other:?}"),
    }
}

#[test]
fn client_response_handling() {
    let init = InitResponse { weird_protocol_version: WeirdProtocolVersion::V0_1_0, connection_id: ConnectionId(4) };
    let response = JsonRpcResponse::result(Some(JsonRpcRequestId::Number(1)), Response::Init(init));
    assert!(answers(&response, 1));
    assert!(!answers(&response, 2));
    assert_eq!(
        init_result(response).unwrap(),
        InitResponse { weird_protocol_version: WeirdProtocolVersion::V0_1_0, connection_id: ConnectionId(4) }
    );
    match init_result(JsonRpcResponse::result(None, Response::Empty)) {
        Err(WeirdClientError::RpcUnexpectedResponse { expected, actual }) => {
            assert_eq!(expected, "init");
            assert_eq!(actual, "empty");
        },
        other => panic!("unexpected {other:?}"),
    }
    match init_result(JsonRpcResponse::error(None, error(5, "no"))) {
        Err(WeirdClientError::RpcError(e)) => assert_eq!(e, error(5, "no")),
        other => panic!("unexpected {other:?}"),
    }
    assert!(matches!(next_event_result(Ok(Response::Empty)), Ok(None)));
    assert!(matches!(next_event_result(Err(WeirdClientError::ChannelClosed)), Ok(None)));
    let event = Event { target_id: None, target_node_id: NodeId(3), event: "e".to_string(), params: JsonValue::Null };
    match next_event_result(Ok(Response::Event(event))) {
        Ok(Some(e)) => assert_eq!(e.target_node_id, NodeId(3)),
        other => panic!("unexpected {other:?}"),
    }
    assert!(render_error_is_reported(&WeirdClientError::RpcError(error(1, "x"))));
    assert!(!render_error_is_reported(&WeirdClientError::ChannelClosed));
}

#[test]
fn config_defaults() {
    assert_eq!(default_allow_origins(), vec!["http://localhost:5173".to_string()]);
    let config = Config::default();
    assert!(config.allows(&"http://localhost:5173".to_string()));
    assert!(!config.allows(&"http://example.com".to_string()));
}

#[test]
fn server_error_messages() {
    assert_eq!(render_error(&SetNodeChildrenFailed::NodeNotFound), error(1, "failed to update node in render request: NodeNotFound"));
    assert_eq!(
        render_error(&SetNodeChildrenFailed::InvalidNodeType),
        error(1, "failed to update node in render request: InvalidNodeType")
    );
    assert_eq!(trigger_error(&TriggerEventFailed::NoConnectionForNode), error(2, "trigger event error: NoConnectionForNode"));
}

fn request(id: i64, body: Request) -> JsonRpcRequest<Request> {
    JsonRpcRequest::new(Some(JsonRpcRequestId::Number(id)), body)
}

#[test]
fn session_renders_into_its_window() {
    let mut world = World::new();
    let (conn, _, _) = world.create_connection(InitRequest::default(), ConnectionSource::Other).unwrap();
    let mut session = Session::new(conn);

    let init = request(1, Request::Init(InitRequest::default()));
    assert!(Session::fits(&world, &init.body));
    match session.handle(&mut world, init) {
        (Reply::Send(JsonRpcResponse::Result(r)), None) => match r.result {
            Response::Init(i) => assert_eq!(i.connection_id, conn),
            other => panic!("unexpected {other:?}"),
        },
        other => panic!("unexpected {other:?}"),
    }

    let first = request(2, Request::Render(vec![Node::text("hello")]));
    let (reply, changes) = session.handle(&mut world, first);
    assert!(matches!(reply, Reply::Send(JsonRpcResponse::Result(_))));
    assert_eq!(changes.unwrap().changes.len(), 2);
    let window = session.window_node.unwrap();
    let nodes = world.get_nodes();
    let text = nodes.iter().find(|(id, _)| id.0 == window.0 + 1).unwrap();
    assert_eq!(&*text.1, &weird_core::node::FlatNode::Text("hello".to_string()));

    let same = request(3, Request::Render(vec![Node::text("hello")]));
    let (reply, changes) = session.handle(&mut world, same);
    assert!(matches!(reply, Reply::Send(JsonRpcResponse::Result(_))));
    assert!(changes.is_none());

    let sync = request(4, Request::SyncWorld);
    match session.handle(&mut world, sync) {
        (Reply::SendAndFollow(JsonRpcResponse::Result(r), Some(JsonRpcRequestId::Number(4))), None) => match r.result {
            Response::WorldDidChange(w) => assert_eq!(w.changes.len(), 2),
            other => panic!("unexpected {other:?}"),
        },
        other => panic!("unexpected {other:?}"),
    }

    let next = request(5, Request::NextEvent);
    assert!(matches!(session.handle(&mut world, next), (Reply::AwaitEvent(Some(JsonRpcRequestId::Number(5))), None)));

    let click = request(6, Request::TriggerEvent(TriggerEvent { target_node_id: window, event: "click".to_string(), params: JsonValue::Null }));
    match session.handle(&mut world, click) {
        (Reply::Deliver { connection, event, .. }, None) => {
            assert_eq!(connection, conn);
            assert_eq!(event.event, "click");
        },
        other => panic!("unexpected {other:?}"),
    }

    let close = request(7, Request::TriggerEvent(TriggerEvent { target_node_id: window, event: "close".to_string(), params: JsonValue::Null }));
    let (reply, changes) = session.handle(&mut world, close);
    match reply {
        Reply::SendAndRelease(JsonRpcResponse::Result(_), released) => assert_eq!(released, conn),
        other => panic!("unexpected {other:?}"),
    }
    assert_eq!(changes.unwrap().changes.len(), 2);
    let next = request(10, Request::NextEvent);
    assert!(matches!(session.handle(&mut world, next), (Reply::Send(JsonRpcResponse::Result(_)), None)));

    let again = request(8, Request::Render(vec![]));
    match session.handle(&mut world, again) {
        (Reply::Send(JsonRpcResponse::Error(e)), None) => {
            assert_eq!(e.id, Some(JsonRpcRequestId::Number(8)));
            assert_eq!(e.error, error(1, "failed to update node in render request: NodeNotFound"));
        },
        other => panic!("unexpected {other:?}"),
    }

    let missing = request(9, Request::TriggerEvent(TriggerEvent { target_node_id: window, event: "click".to_string(), params: JsonValue::Null }));
    match session.handle(&mut world, missing) {
        (Reply::Send(JsonRpcResponse::Error(e)), None) => {
            assert_eq!(e.id, Some(JsonRpcRequestId::Number(9)));
            assert_eq!(e.error, error(2, "trigger event error: NoConnectionForNode"));
        },
        other => panic!("unexpected {other:?}"),
    }
    assert!(world.has_children_list(root_node_id()));
}

#[test]
fn web_frames_are_read_skipped_or_end_the_connection() {
    assert!(matches!(frame_action(ClientFrame::Ended), FrameAction::Stop));
    assert!(matches!(frame_action(ClientFrame::Failed), FrameAction::Stop));
    assert!(matches!(frame_action(ClientFrame::Close), FrameAction::Stop));
    assert!(matches!(frame_action(ClientFrame::Ping), FrameAction::Skip));
    assert!(matches!(frame_action(ClientFrame::Pong), FrameAction::Skip));
    assert!(matches!(frame_action(ClientFrame::Text("{}".to_string())), FrameAction::Read(t) if t == "{}"));
    assert!(matches!(
        frame_action(ClientFrame::Binary(vec![0x68, 0xc3, 0xa9])),
        FrameAction::Read(t) if t == "h\u{e9}"
    ));
    assert!(matches!(frame_action(ClientFrame::Binary(vec![0xff, 0x41])), FrameAction::Stop));
    assert!(matches!(frame_action(ClientFrame::Binary(vec![0xed, 0xa0, 0x80])), FrameAction::Stop));
}

#[test]
fn unreadable_requests_are_answered_with_code_one() {
    let response = unreadable_request("expected value at line 1 column 1");
    match response {
        JsonRpcResponse::Error(e) => {
            assert_eq!(e.json_rpc, JsonRpcVersion::V2_0);
            assert_eq!(e.id, None);
            assert_eq!(e.error, error(1, "received invalid JSON RPC request: expected value at line 1 column 1"));
        },
        JsonRpcResponse::Result(_) => panic!("expected an error response"),
    }
}

#[test]
fn a_connection_that_cannot_open_is_answered_with_code_three() {
    match open_failed(Some(JsonRpcRequestId::Number(4)), "version mismatch") {
        JsonRpcResponse::Error(e) => {
            assert_eq!(e.json_rpc, JsonRpcVersion::V2_0);
            assert_eq!(e.id, Some(JsonRpcRequestId::Number(4)));
            assert_eq!(e.error, error(3, "failed to open connection: version mismatch"));
        },
        JsonRpcResponse::Result(_) => panic!("expected an error response"),
    }
}

#[test]
fn a_connection_opens_with_the_settings_of_its_init_request() {
    let init = InitRequest {
        weird_protocol_version: WeirdProtocolVersion::CURRENT,
        client: Some("weird-client".to_string()),
        app: Some("hello".to_string()),
    };
    let copy = InitRequest {
        weird_protocol_version: WeirdProtocolVersion::CURRENT,
        client: Some("weird-client".to_string()),
        app: Some("hello".to_string()),
    };
    assert_eq!(opening_request(&Request::Init(init)), copy);
    assert_eq!(opening_request(&Request::SyncWorld), InitRequest::default());
    assert_eq!(opening_request(&Request::Render(vec![])), InitRequest::default());
}

#[test]
fn an_old_socket_is_removed_only_when_dead() {
    assert!(matches!(old_socket_cleanup(SocketProbe::Listening), SocketCleanup::Refuse));
    assert!(matches!(old_socket_cleanup(SocketProbe::Refused), SocketCleanup::Remove));
    assert!(matches!(old_socket_cleanup(SocketProbe::NotFound), SocketCleanup::Bind));
    assert!(matches!(old_socket_cleanup(SocketProbe::Failed), SocketCleanup::Bind));
}

#[test]
fn a_delivered_event_is_answered_with_an_empty_result() {
    match delivery_reply(Some(JsonRpcRequestId::Number(9)), true) {
        JsonRpcResponse::Result(res) => {
            assert_eq!(res.id, Some(JsonRpcRequestId::Number(9)));
            assert!(matches!(res.result, Response::Empty));
        },
        JsonRpcResponse::Error(_) => panic!("expected a result"),
    }
    match delivery_reply(Some(JsonRpcRequestId::Number(9)), false) {
        JsonRpcResponse::Error(e) => {
            assert_eq!(e.id, Some(JsonRpcRequestId::Number(9)));
            assert_eq!(e.error, error(2, "trigger event error: NoConnectionForNode"));
        },
        JsonRpcResponse::Result(_) => panic!("expected an error"),
    }
}
