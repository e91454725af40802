//! Tests of the wire protocol: round trips for requests and responses, the
//! custom-api ping exchange, and rejection of malformed frames.
use bonsaidb::client::{route_response, OutstandingRequests, RoutingAction};
use bonsaidb::wire::{
    decode_payload, encode_payload, DatabaseRequest, DatabaseResponse, Payload, Request, Response,
    ServerRequest, ServerResponse, Wrapped,
};

fn round_trip(payload: &Payload) -> Payload {
    let bytes = encode_payload(payload);
    decode_payload(&bytes).expect("an encoded payload must decode")
}

fn request_payload(id: u32, request: Request) -> Payload {
    Payload { session_id: Some(9), id: Some(id), wrapped: Wrapped::Request(request) }
}

#[test]
fn create_database_request_round_trips() {
    let p = request_payload(
        0,
        Request::Server(ServerRequest::CreateDatabase {
            name: b"b1".to_vec(),
            schema: b"S".to_vec(),
            only_if_needed: true,
        }),
    );
    let decoded = round_trip(&p);
    assert_eq!(decoded.session_id, Some(9));
    assert_eq!(decoded.id, Some(0));
    match decoded.wrapped {
        Wrapped::Request(Request::Server(ServerRequest::CreateDatabase {
            name,
            schema,
            only_if_needed,
        })) => {
            assert_eq!(name, b"b1".to_vec());
            assert_eq!(schema, b"S".to_vec());
            assert!(only_if_needed);
        },
        _ => panic!("the decoded request must match"),
    }
}

#[test]
fn every_server_request_round_trips() {
    let requests = vec![
        ServerRequest::CreateDatabase {
            name: b"n".to_vec(),
            schema: b"s".to_vec(),
            only_if_needed: false,
        },
        ServerRequest::DeleteDatabase { name: b"n".to_vec() },
        ServerRequest::ListDatabases,
        ServerRequest::ListAvailableSchemas,
        ServerRequest::CreateUser { username: b"alice".to_vec() },
        ServerRequest::DeleteUser { user_id: 7 },
        ServerRequest::SetUserPassword { user_id: 7, password: b"secret".to_vec() },
        ServerRequest::Authenticate { user_id: 7, password: b"secret".to_vec() },
        ServerRequest::AssumeIdentity { user_id: 7 },
        ServerRequest::AlterUserPermissionGroupMembership {
            user_id: 7,
            group_id: 1,
            should_be_member: true,
        },
        ServerRequest::AlterUserRoleMembership {
            user_id: 7,
            role_id: 2,
            should_be_member: false,
        },
    ];
    for (i, request) in requests.into_iter().enumerate() {
        let p = request_payload(i as u32, Request::Server(request));
        let bytes = encode_payload(&p);
        let decoded = decode_payload(&bytes).expect("must decode");
        // Re-encoding the decoded payload reproduces the frame exactly.
        assert_eq!(encode_payload(&decoded), bytes);
        assert_eq!(decoded.id, Some(i as u32));
    }
}

#[test]
fn every_database_request_round_trips() {
    let requests = vec![
        DatabaseRequest::CreateSubscriber,
        DatabaseRequest::Subscribe { subscriber_id: 3, topic: b"a".to_vec() },
        DatabaseRequest::Unsubscribe { subscriber_id: 3, topic: b"a".to_vec() },
        DatabaseRequest::Publish { topic: b"a".to_vec(), payload: b"m1".to_vec() },
        DatabaseRequest::UnregisterSubscriber { subscriber_id: 3 },
        DatabaseRequest::LastTransactionId,
    ];
    for request in requests {
        let p = request_payload(
            1,
            Request::Database { name: b"db".to_vec(), request },
        );
        let bytes = encode_payload(&p);
        let decoded = decode_payload(&bytes).expect("must decode");
        assert_eq!(encode_payload(&decoded), bytes);
    }
}

#[test]
fn every_response_round_trips() {
    let responses = vec![
        Response::Completed,
        Response::Server(ServerResponse::DatabaseCreated),
        Response::Server(ServerResponse::DatabaseDeleted),
        Response::Server(ServerResponse::Databases(vec![
            (b"_admin".to_vec(), b"admin".to_vec()),
            (b"b1".to_vec(), b"S".to_vec()),
        ])),
        Response::Server(ServerResponse::AvailableSchemas(vec![
            b"admin".to_vec(),
            b"S".to_vec(),
        ])),
        Response::Server(ServerResponse::UserCreated { id: 7 }),
        Response::Server(ServerResponse::Authenticated { session_id: 1, user_id: 7 }),
        Response::Database(DatabaseResponse::SubscriberCreated { subscriber_id: 3 }),
        Response::Database(DatabaseResponse::MessageReceived {
            subscriber_id: 3,
            topic: b"a".to_vec(),
            payload: b"m1".to_vec(),
        }),
        Response::Database(DatabaseResponse::LastTransactionId(None)),
        Response::Database(DatabaseResponse::LastTransactionId(Some(42))),
        Response::Api { name: b"ping".to_vec(), response: b"pong".to_vec() },
        Response::Error { code: 3, message: b"database not found".to_vec() },
    ];
    for response in responses {
        let p = Payload { session_id: None, id: Some(2), wrapped: Wrapped::Response(response) };
        let bytes = encode_payload(&p);
        let decoded = decode_payload(&bytes).expect("must decode");
        assert_eq!(encode_payload(&decoded), bytes);
    }
}

#[test]
fn the_frame_layout_is_fixed() {
    // Envelope: session id flag, request id flag + 4 bytes little-endian,
    // direction, request tag, server-request tag.
    let p = request_payload(5, Request::Server(ServerRequest::ListDatabases));
    let mut expected = vec![1u8];
    expected.extend_from_slice(&[9, 0, 0, 0, 0, 0, 0, 0]);
    expected.extend_from_slice(&[1, 5, 0, 0, 0]);
    expected.extend_from_slice(&[0, 0, 2]);
    assert_eq!(encode_payload(&p), expected);
}

#[test]
fn malformed_frames_are_refused() {
    let p = request_payload(5, Request::Server(ServerRequest::ListDatabases));
    let mut bytes = encode_payload(&p);
    // Trailing bytes are refused.
    bytes.push(0);
    assert!(decode_payload(&bytes).is_none());
    bytes.pop();
    // A truncated frame is refused.
    bytes.pop();
    assert!(decode_payload(&bytes).is_none());
    // An unknown direction tag is refused.
    assert!(decode_payload(&[0, 0, 9]).is_none());
    // An empty frame is refused.
    assert!(decode_payload(&[]).is_none());
}

#[test]
fn custom_api_ping_pong_over_the_wire() {
    // The client sends `Ping` as a custom-api request under its request id.
    let mut outstanding = OutstandingRequests::new();
    let id = outstanding.register_request();
    let request = Payload {
        session_id: None,
        id: Some(id),
        wrapped: Wrapped::Request(Request::Api {
            name: b"ping-api".to_vec(),
            request: b"Ping".to_vec(),
        }),
    };
    let frame = encode_payload(&request);

    // The server decodes the request and answers `Pong` under the same id.
    let decoded = decode_payload(&frame).expect("the server must decode the request");
    let (api_name, api_request) = match decoded.wrapped {
        Wrapped::Request(Request::Api { name, request }) => (name, request),
        _ => panic!("expected the custom-api request"),
    };
    assert_eq!(api_request, b"Ping".to_vec());
    let response = Payload {
        session_id: decoded.session_id,
        id: decoded.id,
        wrapped: Wrapped::Response(Response::Api { name: api_name, response: b"Pong".to_vec() }),
    };
    let response_frame = encode_payload(&response);

    // The client decodes the response and routes it to the waiting request.
    let received = decode_payload(&response_frame).expect("the client must decode the response");
    match route_response(&received, &mut outstanding) {
        RoutingAction::Respond(request_id) => assert_eq!(request_id, id),
        _ => panic!("the response must answer the outstanding request"),
    }
    match received.wrapped {
        Wrapped::Response(Response::Api { response, .. }) => {
            assert_eq!(response, b"Pong".to_vec());
        },
        _ => panic!("expected the custom-api response"),
    }
}
