//! Tests of the client machinery: scheme selection, request correlation,
//! response routing, and the reconnect state machine.
use bonsaidb::client::{
    check_protocol_version, current_protocol_version, default_port, effective_port,
    interpret_create_database_response, route_response, transport_for_scheme, ClientAction,
    ClientEvent, ClientLoop, OutstandingRequests, RoutingAction, Transport,
};
use bonsaidb::error::Error;
use bonsaidb::wire::{
    DatabaseResponse, Payload, Request, Response, ServerRequest, ServerResponse, Wrapped,
};

#[test]
fn schemes_select_transports_and_ports() {
    assert_eq!(transport_for_scheme("bonsaidb"), Some(Transport::Bonsai));
    assert_eq!(transport_for_scheme("ws"), Some(Transport::WebSocket));
    assert_eq!(transport_for_scheme("wss"), Some(Transport::SecureWebSocket));
    assert_eq!(transport_for_scheme("http"), None);

    assert_eq!(default_port(Transport::Bonsai), 5645);
    assert_eq!(default_port(Transport::WebSocket), 80);
    assert_eq!(default_port(Transport::SecureWebSocket), 443);
    assert_eq!(effective_port(Transport::Bonsai, Some(12346)), 12346);
    assert_eq!(effective_port(Transport::Bonsai, None), 5645);
}

#[test]
fn request_ids_start_at_zero_and_are_unique() {
    let mut outstanding = OutstandingRequests::new();
    let first = outstanding.register_request();
    let second = outstanding.register_request();
    assert_eq!(first, 0);
    assert_eq!(second, 1);
    assert_eq!(outstanding.len(), 2);
    assert!(outstanding.resolve(first));
    assert!(!outstanding.resolve(first));
    assert_eq!(outstanding.len(), 1);
}

fn response_payload(id: Option<u32>, response: Response) -> Payload {
    Payload { session_id: None, id, wrapped: Wrapped::Response(response) }
}

#[test]
fn responses_with_ids_answer_their_requests() {
    let mut outstanding = OutstandingRequests::new();
    let id = outstanding.register_request();
    let action = route_response(&response_payload(Some(id), Response::Completed), &mut outstanding);
    assert!(matches!(action, RoutingAction::Respond(i) if i == id));
    // The id was resolved: a second response under it has no responder.
    let action = route_response(&response_payload(Some(id), Response::Completed), &mut outstanding);
    assert!(matches!(action, RoutingAction::MissingResponder(i) if i == id));
}

#[test]
fn unsolicited_frames_route_by_shape() {
    let mut outstanding = OutstandingRequests::new();
    let action = route_response(
        &response_payload(
            None,
            Response::Api { name: b"ping".to_vec(), response: b"Pong".to_vec() },
        ),
        &mut outstanding,
    );
    assert!(matches!(action, RoutingAction::ApiCallback));

    let action = route_response(
        &response_payload(
            None,
            Response::Database(DatabaseResponse::MessageReceived {
                subscriber_id: 3,
                topic: b"a".to_vec(),
                payload: b"m1".to_vec(),
            }),
        ),
        &mut outstanding,
    );
    assert!(matches!(action, RoutingAction::DeliverMessage { subscriber_id: 3 }));

    let action = route_response(
        &response_payload(None, Response::Server(ServerResponse::DatabaseCreated)),
        &mut outstanding,
    );
    assert!(matches!(action, RoutingAction::Ignore));

    let action = route_response(
        &Payload {
            session_id: None,
            id: None,
            wrapped: Wrapped::Request(Request::Server(ServerRequest::ListDatabases)),
        },
        &mut outstanding,
    );
    assert!(matches!(action, RoutingAction::Ignore));
}

#[test]
fn response_shapes_are_checked() {
    assert!(interpret_create_database_response(&Response::Server(
        ServerResponse::DatabaseCreated
    ))
    .is_ok());
    assert!(matches!(
        interpret_create_database_response(&Response::Error {
            code: 1,
            message: b"taken".to_vec()
        }),
        Err(Error::Database(_))
    ));
    assert!(matches!(
        interpret_create_database_response(&Response::Completed),
        Err(Error::UnexpectedResponse)
    ));
}

#[test]
fn the_reconnect_loop_never_retries_a_request() {
    let mut client = ClientLoop::new();
    // A request triggers a connect; a failed connect answers that request
    // with the error and goes back to waiting.
    assert_eq!(
        client.on_event(ClientEvent::RequestArrived),
        ClientAction::Connect { delay_millis: 0 }
    );
    assert_eq!(
        client.on_event(ClientEvent::ConnectFailed),
        ClientAction::FailPendingRequest
    );
    // The next request triggers a fresh connect, now backed off.
    assert_eq!(
        client.on_event(ClientEvent::RequestArrived),
        ClientAction::Connect { delay_millis: 100 }
    );
    assert_eq!(
        client.on_event(ClientEvent::ConnectSucceeded),
        ClientAction::SendPendingAndRead
    );
    // A transport error fails the in-flight requests; nothing is resent.
    assert_eq!(
        client.on_event(ClientEvent::TransportError),
        ClientAction::FailInFlightRequests
    );
    assert_eq!(
        client.on_event(ClientEvent::RequestArrived),
        ClientAction::Connect { delay_millis: 100 }
    );
    // Dropping the client exits the loop.
    assert_eq!(client.on_event(ClientEvent::QueueClosed), ClientAction::Exit);
}

#[test]
fn the_backoff_doubles_to_a_cap_and_resets_on_success() {
    let mut client = ClientLoop::new();
    let mut expected: u64 = 0;
    for failure in 0..10 {
        assert_eq!(
            client.on_event(ClientEvent::RequestArrived),
            ClientAction::Connect { delay_millis: expected }
        );
        assert_eq!(
            client.on_event(ClientEvent::ConnectFailed),
            ClientAction::FailPendingRequest
        );
        expected = if expected == 0 { 100 } else { (expected * 2).min(5000) };
        if failure >= 6 {
            assert_eq!(expected, 5000);
        }
    }
    // Success resets the schedule.
    assert_eq!(
        client.on_event(ClientEvent::RequestArrived),
        ClientAction::Connect { delay_millis: 5000 }
    );
    assert_eq!(
        client.on_event(ClientEvent::ConnectSucceeded),
        ClientAction::SendPendingAndRead
    );
    assert_eq!(
        client.on_event(ClientEvent::TransportError),
        ClientAction::FailInFlightRequests
    );
    assert_eq!(
        client.on_event(ClientEvent::RequestArrived),
        ClientAction::Connect { delay_millis: 100 }
    );
}

#[test]
fn protocol_versions_must_match() {
    assert!(check_protocol_version(current_protocol_version()).is_ok());
    assert!(matches!(
        check_protocol_version("bonsai/pre/999"),
        Err(Error::Transport(_))
    ));
}

#[test]
fn error_messages_name_their_kind() {
    assert_eq!(Error::Disconnected.message(), "disconnected");
    assert_eq!(Error::Transport(String::from("refused")).message(), "transport error");
    assert_eq!(Error::UnexpectedResponse.message(), "unexpected response");
}
