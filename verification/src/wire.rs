//! The wire protocol: the payload envelope (session id, request id, wrapped
//! request or response) and its length-prefixed binary form. Encoding is a
//! function of the payload alone, and decoding an encoded payload restores it
//! exactly.
use vstd::bytes::{
    spec_u32_from_le_bytes, spec_u32_to_le_bytes, spec_u64_from_le_bytes, spec_u64_to_le_bytes,
    u32_from_le_bytes, u32_to_le_bytes, u64_from_le_bytes, u64_to_le_bytes,
};
use vstd::prelude::*;

verus! {

// ---------------------------------------------------------------------------
// Models
// ---------------------------------------------------------------------------
/// The model of a storage-level request.
pub enum ServerRequestV {
    CreateDatabase { name: Seq<u8>, schema: Seq<u8>, only_if_needed: bool },
    DeleteDatabase { name: Seq<u8> },
    ListDatabases,
    ListAvailableSchemas,
    CreateUser { username: Seq<u8> },
    DeleteUser { user_id: u64 },
    SetUserPassword { user_id: u64, password: Seq<u8> },
    Authenticate { user_id: u64, password: Seq<u8> },
    AssumeIdentity { user_id: u64 },
    AlterUserPermissionGroupMembership { user_id: u64, group_id: u64, should_be_member: bool },
    AlterUserRoleMembership { user_id: u64, role_id: u64, should_be_member: bool },
}

/// The model of a database-level request.
pub enum DatabaseRequestV {
    CreateSubscriber,
    Subscribe { subscriber_id: u64, topic: Seq<u8> },
    Unsubscribe { subscriber_id: u64, topic: Seq<u8> },
    Publish { topic: Seq<u8>, payload: Seq<u8> },
    UnregisterSubscriber { subscriber_id: u64 },
    LastTransactionId,
}

/// The model of a request.
pub enum RequestV {
    Server(ServerRequestV),
    Database { name: Seq<u8>, request: DatabaseRequestV },
    Api { name: Seq<u8>, request: Seq<u8> },
}

/// The model of a storage-level response.
pub enum ServerResponseV {
    DatabaseCreated,
    DatabaseDeleted,
    Databases(Seq<(Seq<u8>, Seq<u8>)>),
    AvailableSchemas(Seq<Seq<u8>>),
    UserCreated { id: u64 },
    Authenticated { session_id: u64, user_id: u64 },
}

/// The model of a database-level response.
pub enum DatabaseResponseV {
    SubscriberCreated { subscriber_id: u64 },
    MessageReceived { subscriber_id: u64, topic: Seq<u8>, payload: Seq<u8> },
    LastTransactionId(Option<u64>),
}

/// The model of a response.
pub enum ResponseV {
    Completed,
    Server(ServerResponseV),
    Database(DatabaseResponseV),
    Api { name: Seq<u8>, response: Seq<u8> },
    Error { code: u8, message: Seq<u8> },
}

/// The model of the wrapped half of an envelope.
pub enum WrappedV {
    Request(RequestV),
    Response(ResponseV),
}

/// The model of one envelope.
pub struct PayloadV {
    pub session_id: Option<u64>,
    pub id: Option<u32>,
    pub wrapped: WrappedV,
}

// ---------------------------------------------------------------------------
// Size limits: every byte field and list fits its u32 length prefix.
// ---------------------------------------------------------------------------
/// The bound a length prefix can carry.
pub open spec fn fits_u32(n: nat) -> bool {
    n <= u32::MAX
}

/// Whether a server request's fields fit their length prefixes.
pub open spec fn server_request_wf(r: ServerRequestV) -> bool {
    match r {
        ServerRequestV::CreateDatabase { name, schema, .. } => fits_u32(name.len())
            && fits_u32(schema.len()),
        ServerRequestV::DeleteDatabase { name } => fits_u32(name.len()),
        ServerRequestV::CreateUser { username } => fits_u32(username.len()),
        ServerRequestV::SetUserPassword { password, .. } => fits_u32(password.len()),
        ServerRequestV::Authenticate { password, .. } => fits_u32(password.len()),
        _ => true,
    }
}

/// Whether a database request's fields fit their length prefixes.
pub open spec fn database_request_wf(r: DatabaseRequestV) -> bool {
    match r {
        DatabaseRequestV::Subscribe { topic, .. } => fits_u32(topic.len()),
        DatabaseRequestV::Unsubscribe { topic, .. } => fits_u32(topic.len()),
        DatabaseRequestV::Publish { topic, payload } => fits_u32(topic.len()) && fits_u32(
            payload.len(),
        ),
        _ => true,
    }
}

/// Whether a request's fields fit their length prefixes.
pub open spec fn request_wf(r: RequestV) -> bool {
    match r {
        RequestV::Server(s) => server_request_wf(s),
        RequestV::Database { name, request } => fits_u32(name.len()) && database_request_wf(
            request,
        ),
        RequestV::Api { name, request } => fits_u32(name.len()) && fits_u32(request.len()),
    }
}

/// Whether a server response's fields fit their length prefixes.
pub open spec fn server_response_wf(r: ServerResponseV) -> bool {
    match r {
        ServerResponseV::Databases(l) => fits_u32(l.len()) && forall|i: int| 0 <= i < l.len()
            ==> fits_u32(#[trigger] l[i].0.len()) && fits_u32(l[i].1.len()),
        ServerResponseV::AvailableSchemas(l) => fits_u32(l.len()) && forall|i: int|
            0 <= i < l.len() ==> fits_u32(#[trigger] l[i].len()),
        _ => true,
    }
}

/// Whether a database response's fields fit their length prefixes.
pub open spec fn database_response_wf(r: DatabaseResponseV) -> bool {
    match r {
        DatabaseResponseV::MessageReceived { topic, payload, .. } => fits_u32(topic.len())
            && fits_u32(payload.len()),
        _ => true,
    }
}

/// Whether a response's fields fit their length prefixes.
pub open spec fn response_wf(r: ResponseV) -> bool {
    match r {
        ResponseV::Completed => true,
        ResponseV::Server(s) => server_response_wf(s),
        ResponseV::Database(d) => database_response_wf(d),
        ResponseV::Api { name, response } => fits_u32(name.len()) && fits_u32(response.len()),
        ResponseV::Error { message, .. } => fits_u32(message.len()),
    }
}

/// Whether an envelope's fields fit their length prefixes.
pub open spec fn payload_wf(p: PayloadV) -> bool {
    match p.wrapped {
        WrappedV::Request(r) => request_wf(r),
        WrappedV::Response(r) => response_wf(r),
    }
}

// ---------------------------------------------------------------------------
// Spec encoders
// ---------------------------------------------------------------------------
/// One flag byte.
pub open spec fn enc_bool(b: bool) -> Seq<u8> {
    seq![if b { 1u8 } else { 0u8 }]
}

/// A length-prefixed byte string.
pub open spec fn enc_bytes(b: Seq<u8>) -> Seq<u8> {
    spec_u32_to_le_bytes(b.len() as u32) + b
}

/// An optional u64: a flag byte, then the value when present.
pub open spec fn enc_opt_u64(x: Option<u64>) -> Seq<u8> {
    match x {
        Some(v) => seq![1u8] + spec_u64_to_le_bytes(v),
        None => seq![0u8],
    }
}

/// An optional u32: a flag byte, then the value when present.
pub open spec fn enc_opt_u32(x: Option<u32>) -> Seq<u8> {
    match x {
        Some(v) => seq![1u8] + spec_u32_to_le_bytes(v),
        None => seq![0u8],
    }
}

/// A list of byte strings, without its count prefix.
pub open spec fn enc_bytes_items(l: Seq<Seq<u8>>) -> Seq<u8>
    decreases l.len(),
{
    if l.len() == 0 {
        Seq::empty()
    } else {
        enc_bytes(l.first()) + enc_bytes_items(l.drop_first())
    }
}

/// A counted list of byte strings.
pub open spec fn enc_bytes_list(l: Seq<Seq<u8>>) -> Seq<u8> {
    spec_u32_to_le_bytes(l.len() as u32) + enc_bytes_items(l)
}

/// A list of byte-string pairs, without its count prefix.
pub open spec fn enc_pair_items(l: Seq<(Seq<u8>, Seq<u8>)>) -> Seq<u8>
    decreases l.len(),
{
    if l.len() == 0 {
        Seq::empty()
    } else {
        enc_bytes(l.first().0) + enc_bytes(l.first().1) + enc_pair_items(l.drop_first())
    }
}

/// A counted list of byte-string pairs.
pub open spec fn enc_pair_list(l: Seq<(Seq<u8>, Seq<u8>)>) -> Seq<u8> {
    spec_u32_to_le_bytes(l.len() as u32) + enc_pair_items(l)
}

/// The encoding of a server request: a tag byte, then its fields.
pub open spec fn enc_server_request(r: ServerRequestV) -> Seq<u8> {
    match r {
        ServerRequestV::CreateDatabase { name, schema, only_if_needed } => seq![0u8] + enc_bytes(
            name,
        ) + enc_bytes(schema) + enc_bool(only_if_needed),
        ServerRequestV::DeleteDatabase { name } => seq![1u8] + enc_bytes(name),
        ServerRequestV::ListDatabases => seq![2u8],
        ServerRequestV::ListAvailableSchemas => seq![3u8],
        ServerRequestV::CreateUser { username } => seq![4u8] + enc_bytes(username),
        ServerRequestV::DeleteUser { user_id } => seq![5u8] + spec_u64_to_le_bytes(user_id),
        ServerRequestV::SetUserPassword { user_id, password } => seq![6u8] + spec_u64_to_le_bytes(
            user_id,
        ) + enc_bytes(password),
        ServerRequestV::Authenticate { user_id, password } => seq![7u8] + spec_u64_to_le_bytes(
            user_id,
        ) + enc_bytes(password),
        ServerRequestV::AssumeIdentity { user_id } => seq![8u8] + spec_u64_to_le_bytes(user_id),
        ServerRequestV::AlterUserPermissionGroupMembership { user_id, group_id, should_be_member } =>
            seq![9u8] + spec_u64_to_le_bytes(user_id) + spec_u64_to_le_bytes(group_id) + enc_bool(
            should_be_member,
        ),
        ServerRequestV::AlterUserRoleMembership { user_id, role_id, should_be_member } => seq![
            10u8,
        ] + spec_u64_to_le_bytes(user_id) + spec_u64_to_le_bytes(role_id) + enc_bool(
            should_be_member,
        ),
    }
}

/// The encoding of a database request: a tag byte, then its fields.
pub open spec fn enc_database_request(r: DatabaseRequestV) -> Seq<u8> {
    match r {
        DatabaseRequestV::CreateSubscriber => seq![0u8],
        DatabaseRequestV::Subscribe { subscriber_id, topic } => seq![1u8] + spec_u64_to_le_bytes(
            subscriber_id,
        ) + enc_bytes(topic),
        DatabaseRequestV::Unsubscribe { subscriber_id, topic } => seq![2u8] + spec_u64_to_le_bytes(
            subscriber_id,
        ) + enc_bytes(topic),
        DatabaseRequestV::Publish { topic, payload } => seq![3u8] + enc_bytes(topic) + enc_bytes(
            payload,
        ),
        DatabaseRequestV::UnregisterSubscriber { subscriber_id } => seq![4u8]
            + spec_u64_to_le_bytes(subscriber_id),
        DatabaseRequestV::LastTransactionId => seq![5u8],
    }
}

/// The encoding of a request: a tag byte, then its parts.
pub open spec fn enc_request(r: RequestV) -> Seq<u8> {
    match r {
        RequestV::Server(s) => seq![0u8] + enc_server_request(s),
        RequestV::Database { name, request } => seq![1u8] + enc_bytes(name) + enc_database_request(
            request,
        ),
        RequestV::Api { name, request } => seq![2u8] + enc_bytes(name) + enc_bytes(request),
    }
}

/// The encoding of a server response: a tag byte, then its fields.
pub open spec fn enc_server_response(r: ServerResponseV) -> Seq<u8> {
    match r {
        ServerResponseV::DatabaseCreated => seq![0u8],
        ServerResponseV::DatabaseDeleted => seq![1u8],
        ServerResponseV::Databases(l) => seq![2u8] + enc_pair_list(l),
        ServerResponseV::AvailableSchemas(l) => seq![3u8] + enc_bytes_list(l),
        ServerResponseV::UserCreated { id } => seq![4u8] + spec_u64_to_le_bytes(id),
        ServerResponseV::Authenticated { session_id, user_id } => seq![5u8]
            + spec_u64_to_le_bytes(session_id) + spec_u64_to_le_bytes(user_id),
    }
}

/// The encoding of a database response: a tag byte, then its fields.
pub open spec fn enc_database_response(r: DatabaseResponseV) -> Seq<u8> {
    match r {
        DatabaseResponseV::SubscriberCreated { subscriber_id } => seq![0u8]
            + spec_u64_to_le_bytes(subscriber_id),
        DatabaseResponseV::MessageReceived { subscriber_id, topic, payload } => seq![1u8]
            + spec_u64_to_le_bytes(subscriber_id) + enc_bytes(topic) + enc_bytes(payload),
        DatabaseResponseV::LastTransactionId(t) => seq![2u8] + enc_opt_u64(t),
    }
}

/// The encoding of a response: a tag byte, then its parts.
pub open spec fn enc_response(r: ResponseV) -> Seq<u8> {
    match r {
        ResponseV::Completed => seq![0u8],
        ResponseV::Server(s) => seq![1u8] + enc_server_response(s),
        ResponseV::Database(d) => seq![2u8] + enc_database_response(d),
        ResponseV::Api { name, response } => seq![3u8] + enc_bytes(name) + enc_bytes(response),
        ResponseV::Error { code, message } => seq![4u8, code] + enc_bytes(message),
    }
}

/// The encoding of one envelope: the session id, the request id, a direction
/// tag, and the wrapped request or response.
pub open spec fn enc_payload(p: PayloadV) -> Seq<u8> {
    enc_opt_u64(p.session_id) + enc_opt_u32(p.id) + match p.wrapped {
        WrappedV::Request(r) => seq![0u8] + enc_request(r),
        WrappedV::Response(r) => seq![1u8] + enc_response(r),
    }
}

// ---------------------------------------------------------------------------
// Spec decoders: each consumes a prefix and hands back the rest.
// ---------------------------------------------------------------------------
/// Reads one byte.
pub open spec fn dec_u8(s: Seq<u8>) -> Option<(u8, Seq<u8>)> {
    if s.len() >= 1 {
        Some((s[0], s.skip(1)))
    } else {
        None
    }
}

/// Reads a little-endian u32.
pub open spec fn dec_u32(s: Seq<u8>) -> Option<(u32, Seq<u8>)> {
    if s.len() >= 4 {
        Some((spec_u32_from_le_bytes(s.take(4)), s.skip(4)))
    } else {
        None
    }
}

/// Reads a little-endian u64.
pub open spec fn dec_u64(s: Seq<u8>) -> Option<(u64, Seq<u8>)> {
    if s.len() >= 8 {
        Some((spec_u64_from_le_bytes(s.take(8)), s.skip(8)))
    } else {
        None
    }
}

/// Reads a flag byte.
pub open spec fn dec_bool(s: Seq<u8>) -> Option<(bool, Seq<u8>)> {
    match dec_u8(s) {
        Some((b, rest)) => if b == 0 || b == 1 {
            Some((b == 1, rest))
        } else {
            None
        },
        None => None,
    }
}

/// Reads a length-prefixed byte string.
pub open spec fn dec_bytes(s: Seq<u8>) -> Option<(Seq<u8>, Seq<u8>)> {
    match dec_u32(s) {
        Some((n, rest)) => if rest.len() >= n {
            Some((rest.take(n as int), rest.skip(n as int)))
        } else {
            None
        },
        None => None,
    }
}

/// Reads an optional u64.
pub open spec fn dec_opt_u64(s: Seq<u8>) -> Option<(Option<u64>, Seq<u8>)> {
    match dec_u8(s) {
        Some((tag, rest)) => if tag == 0 {
            Some((None, rest))
        } else if tag == 1 {
            match dec_u64(rest) {
                Some((v, rest2)) => Some((Some(v), rest2)),
                None => None,
            }
        } else {
            None
        },
        None => None,
    }
}

/// Reads an optional u32.
pub open spec fn dec_opt_u32(s: Seq<u8>) -> Option<(Option<u32>, Seq<u8>)> {
    match dec_u8(s) {
        Some((tag, rest)) => if tag == 0 {
            Some((None, rest))
        } else if tag == 1 {
            match dec_u32(rest) {
                Some((v, rest2)) => Some((Some(v), rest2)),
                None => None,
            }
        } else {
            None
        },
        None => None,
    }
}

/// Reads `count` byte strings.
pub open spec fn dec_bytes_items(s: Seq<u8>, count: nat) -> Option<(Seq<Seq<u8>>, Seq<u8>)>
    decreases count,
{
    if count == 0 {
        Some((Seq::empty(), s))
    } else {
        match dec_bytes(s) {
            Some((b, rest)) => match dec_bytes_items(rest, (count - 1) as nat) {
                Some((l, rest2)) => Some((seq![b] + l, rest2)),
                None => None,
            },
            None => None,
        }
    }
}

/// Reads a counted list of byte strings.
pub open spec fn dec_bytes_list(s: Seq<u8>) -> Option<(Seq<Seq<u8>>, Seq<u8>)> {
    match dec_u32(s) {
        Some((n, rest)) => dec_bytes_items(rest, n as nat),
        None => None,
    }
}

/// Reads `count` byte-string pairs.
pub open spec fn dec_pair_items(s: Seq<u8>, count: nat) -> Option<
    (Seq<(Seq<u8>, Seq<u8>)>, Seq<u8>),
>
    decreases count,
{
    if count == 0 {
        Some((Seq::empty(), s))
    } else {
        match dec_bytes(s) {
            Some((a, rest)) => match dec_bytes(rest) {
                Some((b, rest2)) => match dec_pair_items(rest2, (count - 1) as nat) {
                    Some((l, rest3)) => Some((seq![(a, b)] + l, rest3)),
                    None => None,
                },
                None => None,
            },
            None => None,
        }
    }
}

/// Reads a counted list of byte-string pairs.
pub open spec fn dec_pair_list(s: Seq<u8>) -> Option<(Seq<(Seq<u8>, Seq<u8>)>, Seq<u8>)> {
    match dec_u32(s) {
        Some((n, rest)) => dec_pair_items(rest, n as nat),
        None => None,
    }
}

/// Decodes a server request from its tag on.
pub open spec fn dec_server_request(s: Seq<u8>) -> Option<(ServerRequestV, Seq<u8>)> {
    match dec_u8(s) {
        Some((tag, r)) => {
            if tag == 0 {
                match dec_bytes(r) {
                    Some((name, r1)) => match dec_bytes(r1) {
                        Some((schema, r2)) => match dec_bool(r2) {
                            Some((only_if_needed, r3)) => Some((
                                ServerRequestV::CreateDatabase { name, schema, only_if_needed },
                                r3,
                            )),
                            None => None,
                        },
                        None => None,
                    },
                    None => None,
                }
            } else if tag == 1 {
                match dec_bytes(r) {
                    Some((name, r1)) => Some((ServerRequestV::DeleteDatabase { name }, r1)),
                    None => None,
                }
            } else if tag == 2 {
                Some((ServerRequestV::ListDatabases, r))
            } else if tag == 3 {
                Some((ServerRequestV::ListAvailableSchemas, r))
            } else if tag == 4 {
                match dec_bytes(r) {
                    Some((username, r1)) => Some((ServerRequestV::CreateUser { username }, r1)),
                    None => None,
                }
            } else if tag == 5 {
                match dec_u64(r) {
                    Some((user_id, r1)) => Some((ServerRequestV::DeleteUser { user_id }, r1)),
                    None => None,
                }
            } else if tag == 6 {
                match dec_u64(r) {
                    Some((user_id, r1)) => match dec_bytes(r1) {
                        Some((password, r2)) => Some((
                            ServerRequestV::SetUserPassword { user_id, password },
                            r2,
                        )),
                        None => None,
                    },
                    None => None,
                }
            } else if tag == 7 {
                match dec_u64(r) {
                    Some((user_id, r1)) => match dec_bytes(r1) {
                        Some((password, r2)) => Some((
                            ServerRequestV::Authenticate { user_id, password },
                            r2,
                        )),
                        None => None,
                    },
                    None => None,
                }
            } else if tag == 8 {
                match dec_u64(r) {
                    Some((user_id, r1)) => Some((ServerRequestV::AssumeIdentity { user_id }, r1)),
                    None => None,
                }
            } else if tag == 9 {
                match dec_u64(r) {
                    Some((user_id, r1)) => match dec_u64(r1) {
                        Some((group_id, r2)) => match dec_bool(r2) {
                            Some((should_be_member, r3)) => Some((
                                ServerRequestV::AlterUserPermissionGroupMembership {
                                    user_id,
                                    group_id,
                                    should_be_member,
                                },
                                r3,
                            )),
                            None => None,
                        },
                        None => None,
                    },
                    None => None,
                }
            } else if tag == 10 {
                match dec_u64(r) {
                    Some((user_id, r1)) => match dec_u64(r1) {
                        Some((role_id, r2)) => match dec_bool(r2) {
                            Some((should_be_member, r3)) => Some((
                                ServerRequestV::AlterUserRoleMembership {
                                    user_id,
                                    role_id,
                                    should_be_member,
                                },
                                r3,
                            )),
                            None => None,
                        },
                        None => None,
                    },
                    None => None,
                }
            } else {
                None
            }
        },
        None => None,
    }
}

/// Decodes a database request from its tag on.
pub open spec fn dec_database_request(s: Seq<u8>) -> Option<(DatabaseRequestV, Seq<u8>)> {
    match dec_u8(s) {
        Some((tag, r)) => {
            if tag == 0 {
                Some((DatabaseRequestV::CreateSubscriber, r))
            } else if tag == 1 {
                match dec_u64(r) {
                    Some((subscriber_id, r1)) => match dec_bytes(r1) {
                        Some((topic, r2)) => Some((
                            DatabaseRequestV::Subscribe { subscriber_id, topic },
                            r2,
                        )),
                        None => None,
                    },
                    None => None,
                }
            } else if tag == 2 {
                match dec_u64(r) {
                    Some((subscriber_id, r1)) => match dec_bytes(r1) {
                        Some((topic, r2)) => Some((
                            DatabaseRequestV::Unsubscribe { subscriber_id, topic },
                            r2,
                        )),
                        None => None,
                    },
                    None => None,
                }
            } else if tag == 3 {
                match dec_bytes(r) {
                    Some((topic, r1)) => match dec_bytes(r1) {
                        Some((payload, r2)) => Some((
                            DatabaseRequestV::Publish { topic, payload },
                            r2,
                        )),
                        None => None,
                    },
                    None => None,
                }
            } else if tag == 4 {
                match dec_u64(r) {
                    Some((subscriber_id, r1)) => Some((
                        DatabaseRequestV::UnregisterSubscriber { subscriber_id },
                        r1,
                    )),
                    None => None,
                }
            } else if tag == 5 {
                Some((DatabaseRequestV::LastTransactionId, r))
            } else {
                None
            }
        },
        None => None,
    }
}

/// Decodes a request from its tag on.
pub open spec fn dec_request(s: Seq<u8>) -> Option<(RequestV, Seq<u8>)> {
    match dec_u8(s) {
        Some((tag, r)) => {
            if tag == 0 {
                match dec_server_request(r) {
                    Some((sr, r1)) => Some((RequestV::Server(sr), r1)),
                    None => None,
                }
            } else if tag == 1 {
                match dec_bytes(r) {
                    Some((name, r1)) => match dec_database_request(r1) {
                        Some((dr, r2)) => Some((RequestV::Database { name, request: dr }, r2)),
                        None => None,
                    },
                    None => None,
                }
            } else if tag == 2 {
                match dec_bytes(r) {
                    Some((name, r1)) => match dec_bytes(r1) {
                        Some((request, r2)) => Some((RequestV::Api { name, request }, r2)),
                        None => None,
                    },
                    None => None,
                }
            } else {
                None
            }
        },
        None => None,
    }
}

/// Decodes a server response from its tag on.
pub open spec fn dec_server_response(s: Seq<u8>) -> Option<(ServerResponseV, Seq<u8>)> {
    match dec_u8(s) {
        Some((tag, r)) => {
            if tag == 0 {
                Some((ServerResponseV::DatabaseCreated, r))
            } else if tag == 1 {
                Some((ServerResponseV::DatabaseDeleted, r))
            } else if tag == 2 {
                match dec_pair_list(r) {
                    Some((l, r1)) => Some((ServerResponseV::Databases(l), r1)),
                    None => None,
                }
            } else if tag == 3 {
                match dec_bytes_list(r) {
                    Some((l, r1)) => Some((ServerResponseV::AvailableSchemas(l), r1)),
                    None => None,
                }
            } else if tag == 4 {
                match dec_u64(r) {
                    Some((id, r1)) => Some((ServerResponseV::UserCreated { id }, r1)),
                    None => None,
                }
            } else if tag == 5 {
                match dec_u64(r) {
                    Some((session_id, r1)) => match dec_u64(r1) {
                        Some((user_id, r2)) => Some((
                            ServerResponseV::Authenticated { session_id, user_id },
                            r2,
                        )),
                        None => None,
                    },
                    None => None,
                }
            } else {
                None
            }
        },
        None => None,
    }
}

/// Decodes a database response from its tag on.
pub open spec fn dec_database_response(s: Seq<u8>) -> Option<(DatabaseResponseV, Seq<u8>)> {
    match dec_u8(s) {
        Some((tag, r)) => {
            if tag == 0 {
                match dec_u64(r) {
                    Some((subscriber_id, r1)) => Some((
                        DatabaseResponseV::SubscriberCreated { subscriber_id },
                        r1,
                    )),
                    None => None,
                }
            } else if tag == 1 {
                match dec_u64(r) {
                    Some((subscriber_id, r1)) => match dec_bytes(r1) {
                        Some((topic, r2)) => match dec_bytes(r2) {
                            Some((payload, r3)) => Some((
                                DatabaseResponseV::MessageReceived {
                                    subscriber_id,
                                    topic,
                                    payload,
                                },
                                r3,
                            )),
                            None => None,
                        },
                        None => None,
                    },
                    None => None,
                }
            } else if tag == 2 {
                match dec_opt_u64(r) {
                    Some((t, r1)) => Some((DatabaseResponseV::LastTransactionId(t), r1)),
                    None => None,
                }
            } else {
                None
            }
        },
        None => None,
    }
}

/// Decodes a response from its tag on.
pub open spec fn dec_response(s: Seq<u8>) -> Option<(ResponseV, Seq<u8>)> {
    match dec_u8(s) {
        Some((tag, r)) => {
            if tag == 0 {
                Some((ResponseV::Completed, r))
            } else if tag == 1 {
                match dec_server_response(r) {
                    Some((sr, r1)) => Some((ResponseV::Server(sr), r1)),
                    None => None,
                }
            } else if tag == 2 {
                match dec_database_response(r) {
                    Some((dr, r1)) => Some((ResponseV::Database(dr), r1)),
                    None => None,
                }
            } else if tag == 3 {
                match dec_bytes(r) {
                    Some((name, r1)) => match dec_bytes(r1) {
                        Some((response, r2)) => Some((ResponseV::Api { name, response }, r2)),
                        None => None,
                    },
                    None => None,
                }
            } else if tag == 4 {
                match dec_u8(r) {
                    Some((code, r1)) => match dec_bytes(r1) {
                        Some((message, r2)) => Some((ResponseV::Error { code, message }, r2)),
                        None => None,
                    },
                    None => None,
                }
            } else {
                None
            }
        },
        None => None,
    }
}

/// Decodes one envelope; a decoded envelope consumes the frame exactly.
pub open spec fn dec_payload(s: Seq<u8>) -> Option<PayloadV> {
    match dec_opt_u64(s) {
        Some((session_id, r)) => match dec_opt_u32(r) {
            Some((id, r1)) => match dec_u8(r1) {
                Some((dir, r2)) => {
                    if dir == 0 {
                        match dec_request(r2) {
                            Some((req, r3)) => if r3.len() == 0 {
                                Some(
                                    PayloadV {
                                        session_id,
                                        id,
                                        wrapped: WrappedV::Request(req),
                                    },
                                )
                            } else {
                                None
                            },
                            None => None,
                        }
                    } else if dir == 1 {
                        match dec_response(r2) {
                            Some((resp, r3)) => if r3.len() == 0 {
                                Some(
                                    PayloadV {
                                        session_id,
                                        id,
                                        wrapped: WrappedV::Response(resp),
                                    },
                                )
                            } else {
                                None
                            },
                            None => None,
                        }
                    } else {
                        None
                    }
                },
                None => None,
            },
            None => None,
        },
        None => None,
    }
}

// ---------------------------------------------------------------------------
// The wire round-trip law: decoding an encoding restores the payload.
// ---------------------------------------------------------------------------
/// One byte decodes to itself.
proof fn lemma_rt_u8(b: u8, rest: Seq<u8>)
    ensures dec_u8(seq![b] + rest) == Some((b, rest)),
{
    let s = seq![b] + rest;
    assert(s[0] == b);
    assert(s.skip(1) =~= rest);
}

/// A little-endian u32 decodes to itself.
proof fn lemma_rt_u32(x: u32, rest: Seq<u8>)
    ensures dec_u32(spec_u32_to_le_bytes(x) + rest) == Some((x, rest)),
{
    vstd::bytes::lemma_auto_spec_u32_to_from_le_bytes();
    let s = spec_u32_to_le_bytes(x) + rest;
    assert(s.take(4) =~= spec_u32_to_le_bytes(x));
    assert(s.skip(4) =~= rest);
}

/// A little-endian u64 decodes to itself.
proof fn lemma_rt_u64(x: u64, rest: Seq<u8>)
    ensures dec_u64(spec_u64_to_le_bytes(x) + rest) == Some((x, rest)),
{
    vstd::bytes::lemma_auto_spec_u64_to_from_le_bytes();
    let s = spec_u64_to_le_bytes(x) + rest;
    assert(s.take(8) =~= spec_u64_to_le_bytes(x));
    assert(s.skip(8) =~= rest);
}

/// A flag byte decodes to itself.
proof fn lemma_rt_bool(b: bool, rest: Seq<u8>)
    ensures dec_bool(enc_bool(b) + rest) == Some((b, rest)),
{
    lemma_rt_u8(if b { 1u8 } else { 0u8 }, rest);
    assert(enc_bool(b) + rest =~= seq![if b { 1u8 } else { 0u8 }] + rest);
}

/// A length-prefixed byte string decodes to itself.
proof fn lemma_rt_bytes(b: Seq<u8>, rest: Seq<u8>)
    requires fits_u32(b.len()),
    ensures dec_bytes(enc_bytes(b) + rest) == Some((b, rest)),
{
    vstd::bytes::lemma_auto_spec_u32_to_from_le_bytes();
    let s = enc_bytes(b) + rest;
    assert(s =~= spec_u32_to_le_bytes(b.len() as u32) + (b + rest));
    lemma_rt_u32(b.len() as u32, b + rest);
    assert((b + rest).take(b.len() as int) =~= b);
    assert((b + rest).skip(b.len() as int) =~= rest);
}

/// An optional u64 decodes to itself.
proof fn lemma_rt_opt_u64(x: Option<u64>, rest: Seq<u8>)
    ensures dec_opt_u64(enc_opt_u64(x) + rest) == Some((x, rest)),
{
    match x {
        Some(v) => {
            assert(enc_opt_u64(x) + rest =~= seq![1u8] + (spec_u64_to_le_bytes(v) + rest));
            lemma_rt_u8(1, spec_u64_to_le_bytes(v) + rest);
            lemma_rt_u64(v, rest);
        },
        None => {
            assert(enc_opt_u64(x) + rest =~= seq![0u8] + rest);
            lemma_rt_u8(0, rest);
        },
    }
}

/// An optional u32 decodes to itself.
proof fn lemma_rt_opt_u32(x: Option<u32>, rest: Seq<u8>)
    ensures dec_opt_u32(enc_opt_u32(x) + rest) == Some((x, rest)),
{
    match x {
        Some(v) => {
            assert(enc_opt_u32(x) + rest =~= seq![1u8] + (spec_u32_to_le_bytes(v) + rest));
            lemma_rt_u8(1, spec_u32_to_le_bytes(v) + rest);
            lemma_rt_u32(v, rest);
        },
        None => {
            assert(enc_opt_u32(x) + rest =~= seq![0u8] + rest);
            lemma_rt_u8(0, rest);
        },
    }
}

/// A run of byte strings decodes to itself.
proof fn lemma_rt_bytes_items(l: Seq<Seq<u8>>, rest: Seq<u8>)
    requires forall|i: int| 0 <= i < l.len() ==> fits_u32(#[trigger] l[i].len()),
    ensures dec_bytes_items(enc_bytes_items(l) + rest, l.len()) == Some((l, rest)),
    decreases l.len(),
{
    if l.len() == 0 {
        assert(enc_bytes_items(l) + rest =~= rest);
        assert(Seq::<Seq<u8>>::empty() =~= l);
    } else {
        assert(enc_bytes_items(l) + rest =~= enc_bytes(l.first()) + (enc_bytes_items(
            l.drop_first(),
        ) + rest));
        assert(l.first().len() == l[0].len());
        lemma_rt_bytes(l.first(), enc_bytes_items(l.drop_first()) + rest);
        assert forall|i: int| 0 <= i < l.drop_first().len() implies fits_u32(
            #[trigger] l.drop_first()[i].len(),
        ) by {
            assert(l.drop_first()[i] == l[i + 1]);
        }
        lemma_rt_bytes_items(l.drop_first(), rest);
        assert(seq![l.first()] + l.drop_first() =~= l);
    }
}

/// A counted list of byte strings decodes to itself.
proof fn lemma_rt_bytes_list(l: Seq<Seq<u8>>, rest: Seq<u8>)
    requires
        fits_u32(l.len()),
        forall|i: int| 0 <= i < l.len() ==> fits_u32(#[trigger] l[i].len()),
    ensures dec_bytes_list(enc_bytes_list(l) + rest) == Some((l, rest)),
{
    vstd::bytes::lemma_auto_spec_u32_to_from_le_bytes();
    assert(enc_bytes_list(l) + rest =~= spec_u32_to_le_bytes(l.len() as u32) + (enc_bytes_items(l)
        + rest));
    lemma_rt_u32(l.len() as u32, enc_bytes_items(l) + rest);
    lemma_rt_bytes_items(l, rest);
}

/// A run of byte-string pairs decodes to itself.
proof fn lemma_rt_pair_items(l: Seq<(Seq<u8>, Seq<u8>)>, rest: Seq<u8>)
    requires
        forall|i: int| 0 <= i < l.len() ==> fits_u32(#[trigger] l[i].0.len()) && fits_u32(
            l[i].1.len(),
        ),
    ensures dec_pair_items(enc_pair_items(l) + rest, l.len()) == Some((l, rest)),
    decreases l.len(),
{
    if l.len() == 0 {
        assert(enc_pair_items(l) + rest =~= rest);
        assert(Seq::<(Seq<u8>, Seq<u8>)>::empty() =~= l);
    } else {
        assert(enc_pair_items(l) + rest =~= enc_bytes(l.first().0) + (enc_bytes(l.first().1)
            + (enc_pair_items(l.drop_first()) + rest)));
        assert(l.first() == l[0]);
        lemma_rt_bytes(l.first().0, enc_bytes(l.first().1) + (enc_pair_items(l.drop_first())
            + rest));
        lemma_rt_bytes(l.first().1, enc_pair_items(l.drop_first()) + rest);
        assert forall|i: int| 0 <= i < l.drop_first().len() implies fits_u32(
            #[trigger] l.drop_first()[i].0.len(),
        ) && fits_u32(l.drop_first()[i].1.len()) by {
            assert(l.drop_first()[i] == l[i + 1]);
        }
        lemma_rt_pair_items(l.drop_first(), rest);
        assert(seq![l.first()] + l.drop_first() =~= l);
    }
}

/// A counted list of byte-string pairs decodes to itself.
proof fn lemma_rt_pair_list(l: Seq<(Seq<u8>, Seq<u8>)>, rest: Seq<u8>)
    requires
        fits_u32(l.len()),
        forall|i: int| 0 <= i < l.len() ==> fits_u32(#[trigger] l[i].0.len()) && fits_u32(
            l[i].1.len(),
        ),
    ensures dec_pair_list(enc_pair_list(l) + rest) == Some((l, rest)),
{
    vstd::bytes::lemma_auto_spec_u32_to_from_le_bytes();
    assert(enc_pair_list(l) + rest =~= spec_u32_to_le_bytes(l.len() as u32) + (enc_pair_items(l)
        + rest));
    lemma_rt_u32(l.len() as u32, enc_pair_items(l) + rest);
    lemma_rt_pair_items(l, rest);
}

/// An encoded server request decodes to itself.
#[verifier::rlimit(40)]
proof fn lemma_rt_server_request(r: ServerRequestV, rest: Seq<u8>)
    requires server_request_wf(r),
    ensures dec_server_request(enc_server_request(r) + rest) == Some((r, rest)),
{
    match r {
        ServerRequestV::CreateDatabase { name, schema, only_if_needed } => {
            assert(enc_server_request(r) + rest =~= seq![0u8] + (enc_bytes(name) + (enc_bytes(
                schema,
            ) + (enc_bool(only_if_needed) + rest))));
            lemma_rt_u8(0, enc_bytes(name) + (enc_bytes(schema) + (enc_bool(only_if_needed)
                + rest)));
            lemma_rt_bytes(name, enc_bytes(schema) + (enc_bool(only_if_needed) + rest));
            lemma_rt_bytes(schema, enc_bool(only_if_needed) + rest);
            lemma_rt_bool(only_if_needed, rest);
        },
        ServerRequestV::DeleteDatabase { name } => {
            assert(enc_server_request(r) + rest =~= seq![1u8] + (enc_bytes(name) + rest));
            lemma_rt_u8(1, enc_bytes(name) + rest);
            lemma_rt_bytes(name, rest);
        },
        ServerRequestV::ListDatabases => {
            assert(enc_server_request(r) + rest =~= seq![2u8] + rest);
            lemma_rt_u8(2, rest);
        },
        ServerRequestV::ListAvailableSchemas => {
            assert(enc_server_request(r) + rest =~= seq![3u8] + rest);
            lemma_rt_u8(3, rest);
        },
        ServerRequestV::CreateUser { username } => {
            assert(enc_server_request(r) + rest =~= seq![4u8] + (enc_bytes(username) + rest));
            lemma_rt_u8(4, enc_bytes(username) + rest);
            lemma_rt_bytes(username, rest);
        },
        ServerRequestV::DeleteUser { user_id } => {
            assert(enc_server_request(r) + rest =~= seq![5u8] + (spec_u64_to_le_bytes(user_id)
                + rest));
            lemma_rt_u8(5, spec_u64_to_le_bytes(user_id) + rest);
            lemma_rt_u64(user_id, rest);
        },
        ServerRequestV::SetUserPassword { user_id, password } => {
            assert(enc_server_request(r) + rest =~= seq![6u8] + (spec_u64_to_le_bytes(user_id)
                + (enc_bytes(password) + rest)));
            lemma_rt_u8(6, spec_u64_to_le_bytes(user_id) + (enc_bytes(password) + rest));
            lemma_rt_u64(user_id, enc_bytes(password) + rest);
            lemma_rt_bytes(password, rest);
        },
        ServerRequestV::Authenticate { user_id, password } => {
            assert(enc_server_request(r) + rest =~= seq![7u8] + (spec_u64_to_le_bytes(user_id)
                + (enc_bytes(password) + rest)));
            lemma_rt_u8(7, spec_u64_to_le_bytes(user_id) + (enc_bytes(password) + rest));
            lemma_rt_u64(user_id, enc_bytes(password) + rest);
            lemma_rt_bytes(password, rest);
        },
        ServerRequestV::AssumeIdentity { user_id } => {
            assert(enc_server_request(r) + rest =~= seq![8u8] + (spec_u64_to_le_bytes(user_id)
                + rest));
            lemma_rt_u8(8, spec_u64_to_le_bytes(user_id) + rest);
            lemma_rt_u64(user_id, rest);
        },
        ServerRequestV::AlterUserPermissionGroupMembership { user_id, group_id, should_be_member } => {
            assert(enc_server_request(r) + rest =~= seq![9u8] + (spec_u64_to_le_bytes(user_id)
                + (spec_u64_to_le_bytes(group_id) + (enc_bool(should_be_member) + rest))));
            lemma_rt_u8(9, spec_u64_to_le_bytes(user_id) + (spec_u64_to_le_bytes(group_id)
                + (enc_bool(should_be_member) + rest)));
            lemma_rt_u64(user_id, spec_u64_to_le_bytes(group_id) + (enc_bool(should_be_member)
                + rest));
            lemma_rt_u64(group_id, enc_bool(should_be_member) + rest);
            lemma_rt_bool(should_be_member, rest);
        },
        ServerRequestV::AlterUserRoleMembership { user_id, role_id, should_be_member } => {
            assert(enc_server_request(r) + rest =~= seq![10u8] + (spec_u64_to_le_bytes(user_id)
                + (spec_u64_to_le_bytes(role_id) + (enc_bool(should_be_member) + rest))));
            lemma_rt_u8(10, spec_u64_to_le_bytes(user_id) + (spec_u64_to_le_bytes(role_id)
                + (enc_bool(should_be_member) + rest)));
            lemma_rt_u64(user_id, spec_u64_to_le_bytes(role_id) + (enc_bool(should_be_member)
                + rest));
            lemma_rt_u64(role_id, enc_bool(should_be_member) + rest);
            lemma_rt_bool(should_be_member, rest);
        },
    }
}

/// An encoded database request decodes to itself.
#[verifier::rlimit(40)]
proof fn lemma_rt_database_request(r: DatabaseRequestV, rest: Seq<u8>)
    requires database_request_wf(r),
    ensures dec_database_request(enc_database_request(r) + rest) == Some((r, rest)),
{
    match r {
        DatabaseRequestV::CreateSubscriber => {
            assert(enc_database_request(r) + rest =~= seq![0u8] + rest);
            lemma_rt_u8(0, rest);
        },
        DatabaseRequestV::Subscribe { subscriber_id, topic } => {
            assert(enc_database_request(r) + rest =~= seq![1u8] + (spec_u64_to_le_bytes(
                subscriber_id,
            ) + (enc_bytes(topic) + rest)));
            lemma_rt_u8(1, spec_u64_to_le_bytes(subscriber_id) + (enc_bytes(topic) + rest));
            lemma_rt_u64(subscriber_id, enc_bytes(topic) + rest);
            lemma_rt_bytes(topic, rest);
        },
        DatabaseRequestV::Unsubscribe { subscriber_id, topic } => {
            assert(enc_database_request(r) + rest =~= seq![2u8] + (spec_u64_to_le_bytes(
                subscriber_id,
            ) + (enc_bytes(topic) + rest)));
            lemma_rt_u8(2, spec_u64_to_le_bytes(subscriber_id) + (enc_bytes(topic) + rest));
            lemma_rt_u64(subscriber_id, enc_bytes(topic) + rest);
            lemma_rt_bytes(topic, rest);
        },
        DatabaseRequestV::Publish { topic, payload } => {
            assert(enc_database_request(r) + rest =~= seq![3u8] + (enc_bytes(topic) + (enc_bytes(
                payload,
            ) + rest)));
            lemma_rt_u8(3, enc_bytes(topic) + (enc_bytes(payload) + rest));
            lemma_rt_bytes(topic, enc_bytes(payload) + rest);
            lemma_rt_bytes(payload, rest);
        },
        DatabaseRequestV::UnregisterSubscriber { subscriber_id } => {
            assert(enc_database_request(r) + rest =~= seq![4u8] + (spec_u64_to_le_bytes(
                subscriber_id,
            ) + rest));
            lemma_rt_u8(4, spec_u64_to_le_bytes(subscriber_id) + rest);
            lemma_rt_u64(subscriber_id, rest);
        },
        DatabaseRequestV::LastTransactionId => {
            assert(enc_database_request(r) + rest =~= seq![5u8] + rest);
            lemma_rt_u8(5, rest);
        },
    }
}

/// An encoded request decodes to itself.
#[verifier::rlimit(40)]
proof fn lemma_rt_request(r: RequestV, rest: Seq<u8>)
    requires request_wf(r),
    ensures dec_request(enc_request(r) + rest) == Some((r, rest)),
{
    match r {
        RequestV::Server(s) => {
            assert(enc_request(r) + rest =~= seq![0u8] + (enc_server_request(s) + rest));
            lemma_rt_u8(0, enc_server_request(s) + rest);
            lemma_rt_server_request(s, rest);
        },
        RequestV::Database { name, request } => {
            assert(enc_request(r) + rest =~= seq![1u8] + (enc_bytes(name) + (enc_database_request(
                request,
            ) + rest)));
            lemma_rt_u8(1, enc_bytes(name) + (enc_database_request(request) + rest));
            lemma_rt_bytes(name, enc_database_request(request) + rest);
            lemma_rt_database_request(request, rest);
        },
        RequestV::Api { name, request } => {
            assert(enc_request(r) + rest =~= seq![2u8] + (enc_bytes(name) + (enc_bytes(request)
                + rest)));
            lemma_rt_u8(2, enc_bytes(name) + (enc_bytes(request) + rest));
            lemma_rt_bytes(name, enc_bytes(request) + rest);
            lemma_rt_bytes(request, rest);
        },
    }
}

/// An encoded server response decodes to itself.
#[verifier::rlimit(40)]
proof fn lemma_rt_server_response(r: ServerResponseV, rest: Seq<u8>)
    requires server_response_wf(r),
    ensures dec_server_response(enc_server_response(r) + rest) == Some((r, rest)),
{
    match r {
        ServerResponseV::DatabaseCreated => {
            assert(enc_server_response(r) + rest =~= seq![0u8] + rest);
            lemma_rt_u8(0, rest);
        },
        ServerResponseV::DatabaseDeleted => {
            assert(enc_server_response(r) + rest =~= seq![1u8] + rest);
            lemma_rt_u8(1, rest);
        },
        ServerResponseV::Databases(l) => {
            assert(enc_server_response(r) + rest =~= seq![2u8] + (enc_pair_list(l) + rest));
            lemma_rt_u8(2, enc_pair_list(l) + rest);
            lemma_rt_pair_list(l, rest);
        },
        ServerResponseV::AvailableSchemas(l) => {
            assert(enc_server_response(r) + rest =~= seq![3u8] + (enc_bytes_list(l) + rest));
            lemma_rt_u8(3, enc_bytes_list(l) + rest);
            lemma_rt_bytes_list(l, rest);
        },
        ServerResponseV::UserCreated { id } => {
            assert(enc_server_response(r) + rest =~= seq![4u8] + (spec_u64_to_le_bytes(id)
                + rest));
            lemma_rt_u8(4, spec_u64_to_le_bytes(id) + rest);
            lemma_rt_u64(id, rest);
        },
        ServerResponseV::Authenticated { session_id, user_id } => {
            assert(enc_server_response(r) + rest =~= seq![5u8] + (spec_u64_to_le_bytes(session_id)
                + (spec_u64_to_le_bytes(user_id) + rest)));
            lemma_rt_u8(5, spec_u64_to_le_bytes(session_id) + (spec_u64_to_le_bytes(user_id)
                + rest));
            lemma_rt_u64(session_id, spec_u64_to_le_bytes(user_id) + rest);
            lemma_rt_u64(user_id, rest);
        },
    }
}

/// An encoded database response decodes to itself.
#[verifier::rlimit(40)]
proof fn lemma_rt_database_response(r: DatabaseResponseV, rest: Seq<u8>)
    requires database_response_wf(r),
    ensures dec_database_response(enc_database_response(r) + rest) == Some((r, rest)),
{
    match r {
        DatabaseResponseV::SubscriberCreated { subscriber_id } => {
            assert(enc_database_response(r) + rest =~= seq![0u8] + (spec_u64_to_le_bytes(
                subscriber_id,
            ) + rest));
            lemma_rt_u8(0, spec_u64_to_le_bytes(subscriber_id) + rest);
            lemma_rt_u64(subscriber_id, rest);
        },
        DatabaseResponseV::MessageReceived { subscriber_id, topic, payload } => {
            assert(enc_database_response(r) + rest =~= seq![1u8] + (spec_u64_to_le_bytes(
                subscriber_id,
            ) + (enc_bytes(topic) + (enc_bytes(payload) + rest))));
            lemma_rt_u8(1, spec_u64_to_le_bytes(subscriber_id) + (enc_bytes(topic) + (enc_bytes(
                payload,
            ) + rest)));
            lemma_rt_u64(subscriber_id, enc_bytes(topic) + (enc_bytes(payload) + rest));
            lemma_rt_bytes(topic, enc_bytes(payload) + rest);
            lemma_rt_bytes(payload, rest);
        },
        DatabaseResponseV::LastTransactionId(t) => {
            assert(enc_database_response(r) + rest =~= seq![2u8] + (enc_opt_u64(t) + rest));
            lemma_rt_u8(2, enc_opt_u64(t) + rest);
            lemma_rt_opt_u64(t, rest);
        },
    }
}

/// An encoded response decodes to itself.
#[verifier::rlimit(40)]
proof fn lemma_rt_response(r: ResponseV, rest: Seq<u8>)
    requires response_wf(r),
    ensures dec_response(enc_response(r) + rest) == Some((r, rest)),
{
    match r {
        ResponseV::Completed => {
            assert(enc_response(r) + rest =~= seq![0u8] + rest);
            lemma_rt_u8(0, rest);
        },
        ResponseV::Server(s) => {
            assert(enc_response(r) + rest =~= seq![1u8] + (enc_server_response(s) + rest));
            lemma_rt_u8(1, enc_server_response(s) + rest);
            lemma_rt_server_response(s, rest);
        },
        ResponseV::Database(d) => {
            assert(enc_response(r) + rest =~= seq![2u8] + (enc_database_response(d) + rest));
            lemma_rt_u8(2, enc_database_response(d) + rest);
            lemma_rt_database_response(d, rest);
        },
        ResponseV::Api { name, response } => {
            assert(enc_response(r) + rest =~= seq![3u8] + (enc_bytes(name) + (enc_bytes(response)
                + rest)));
            lemma_rt_u8(3, enc_bytes(name) + (enc_bytes(response) + rest));
            lemma_rt_bytes(name, enc_bytes(response) + rest);
            lemma_rt_bytes(response, rest);
        },
        ResponseV::Error { code, message } => {
            assert(enc_response(r) + rest =~= seq![4u8] + (seq![code] + (enc_bytes(message)
                + rest)));
            lemma_rt_u8(4, seq![code] + (enc_bytes(message) + rest));
            lemma_rt_u8(code, enc_bytes(message) + rest);
            lemma_rt_bytes(message, rest);
        },
    }
}

// ---------------------------------------------------------------------------
// Executable wire types
// ---------------------------------------------------------------------------
/// A storage-level request on the wire.
#[derive(Debug)]
pub enum ServerRequest {
    CreateDatabase { name: Vec<u8>, schema: Vec<u8>, only_if_needed: bool },
    DeleteDatabase { name: Vec<u8> },
    ListDatabases,
    ListAvailableSchemas,
    CreateUser { username: Vec<u8> },
    DeleteUser { user_id: u64 },
    SetUserPassword { user_id: u64, password: Vec<u8> },
    Authenticate { user_id: u64, password: Vec<u8> },
    AssumeIdentity { user_id: u64 },
    AlterUserPermissionGroupMembership { user_id: u64, group_id: u64, should_be_member: bool },
    AlterUserRoleMembership { user_id: u64, role_id: u64, should_be_member: bool },
}

impl View for ServerRequest {
    type V = ServerRequestV;

    open spec fn view(&self) -> ServerRequestV {
        match self {
            ServerRequest::CreateDatabase { name, schema, only_if_needed } =>
                ServerRequestV::CreateDatabase {
                name: name@,
                schema: schema@,
                only_if_needed: *only_if_needed,
            },
            ServerRequest::DeleteDatabase { name } => ServerRequestV::DeleteDatabase {
                name: name@,
            },
            ServerRequest::ListDatabases => ServerRequestV::ListDatabases,
            ServerRequest::ListAvailableSchemas => ServerRequestV::ListAvailableSchemas,
            ServerRequest::CreateUser { username } => ServerRequestV::CreateUser {
                username: username@,
            },
            ServerRequest::DeleteUser { user_id } => ServerRequestV::DeleteUser {
                user_id: *user_id,
            },
            ServerRequest::SetUserPassword { user_id, password } =>
                ServerRequestV::SetUserPassword { user_id: *user_id, password: password@ },
            ServerRequest::Authenticate { user_id, password } => ServerRequestV::Authenticate {
                user_id: *user_id,
                password: password@,
            },
            ServerRequest::AssumeIdentity { user_id } => ServerRequestV::AssumeIdentity {
                user_id: *user_id,
            },
            ServerRequest::AlterUserPermissionGroupMembership {
                user_id,
                group_id,
                should_be_member,
            } => ServerRequestV::AlterUserPermissionGroupMembership {
                user_id: *user_id,
                group_id: *group_id,
                should_be_member: *should_be_member,
            },
            ServerRequest::AlterUserRoleMembership { user_id, role_id, should_be_member } =>
                ServerRequestV::AlterUserRoleMembership {
                user_id: *user_id,
                role_id: *role_id,
                should_be_member: *should_be_member,
            },
        }
    }
}

/// A database-level request on the wire.
#[derive(Debug)]
pub enum DatabaseRequest {
    CreateSubscriber,
    Subscribe { subscriber_id: u64, topic: Vec<u8> },
    Unsubscribe { subscriber_id: u64, topic: Vec<u8> },
    Publish { topic: Vec<u8>, payload: Vec<u8> },
    UnregisterSubscriber { subscriber_id: u64 },
    LastTransactionId,
}

impl View for DatabaseRequest {
    type V = DatabaseRequestV;

    open spec fn view(&self) -> DatabaseRequestV {
        match self {
            DatabaseRequest::CreateSubscriber => DatabaseRequestV::CreateSubscriber,
            DatabaseRequest::Subscribe { subscriber_id, topic } => DatabaseRequestV::Subscribe {
                subscriber_id: *subscriber_id,
                topic: topic@,
            },
            DatabaseRequest::Unsubscribe { subscriber_id, topic } =>
                DatabaseRequestV::Unsubscribe { subscriber_id: *subscriber_id, topic: topic@ },
            DatabaseRequest::Publish { topic, payload } => DatabaseRequestV::Publish {
                topic: topic@,
                payload: payload@,
            },
            DatabaseRequest::UnregisterSubscriber { subscriber_id } =>
                DatabaseRequestV::UnregisterSubscriber { subscriber_id: *subscriber_id },
            DatabaseRequest::LastTransactionId => DatabaseRequestV::LastTransactionId,
        }
    }
}

/// A request on the wire.
#[derive(Debug)]
pub enum Request {
    Server(ServerRequest),
    Database { name: Vec<u8>, request: DatabaseRequest },
    Api { name: Vec<u8>, request: Vec<u8> },
}

impl View for Request {
    type V = RequestV;

    open spec fn view(&self) -> RequestV {
        match self {
            Request::Server(s) => RequestV::Server(s@),
            Request::Database { name, request } => RequestV::Database {
                name: name@,
                request: request@,
            },
            Request::Api { name, request } => RequestV::Api { name: name@, request: request@ },
        }
    }
}

/// A storage-level response on the wire.
#[derive(Debug)]
pub enum ServerResponse {
    DatabaseCreated,
    DatabaseDeleted,
    Databases(Vec<(Vec<u8>, Vec<u8>)>),
    AvailableSchemas(Vec<Vec<u8>>),
    UserCreated { id: u64 },
    Authenticated { session_id: u64, user_id: u64 },
}

impl View for ServerResponse {
    type V = ServerResponseV;

    open spec fn view(&self) -> ServerResponseV {
        match self {
            ServerResponse::DatabaseCreated => ServerResponseV::DatabaseCreated,
            ServerResponse::DatabaseDeleted => ServerResponseV::DatabaseDeleted,
            ServerResponse::Databases(l) => ServerResponseV::Databases(
                Seq::new(l@.len(), |i: int| (l@[i].0@, l@[i].1@)),
            ),
            ServerResponse::AvailableSchemas(l) => ServerResponseV::AvailableSchemas(
                Seq::new(l@.len(), |i: int| l@[i]@),
            ),
            ServerResponse::UserCreated { id } => ServerResponseV::UserCreated { id: *id },
            ServerResponse::Authenticated { session_id, user_id } =>
                ServerResponseV::Authenticated {
                session_id: *session_id,
                user_id: *user_id,
            },
        }
    }
}

/// A database-level response on the wire.
#[derive(Debug)]
pub enum DatabaseResponse {
    SubscriberCreated { subscriber_id: u64 },
    MessageReceived { subscriber_id: u64, topic: Vec<u8>, payload: Vec<u8> },
    LastTransactionId(Option<u64>),
}

impl View for DatabaseResponse {
    type V = DatabaseResponseV;

    open spec fn view(&self) -> DatabaseResponseV {
        match self {
            DatabaseResponse::SubscriberCreated { subscriber_id } =>
                DatabaseResponseV::SubscriberCreated { subscriber_id: *subscriber_id },
            DatabaseResponse::MessageReceived { subscriber_id, topic, payload } =>
                DatabaseResponseV::MessageReceived {
                subscriber_id: *subscriber_id,
                topic: topic@,
                payload: payload@,
            },
            DatabaseResponse::LastTransactionId(t) => DatabaseResponseV::LastTransactionId(*t),
        }
    }
}

/// A response on the wire.
#[derive(Debug)]
pub enum Response {
    Completed,
    Server(ServerResponse),
    Database(DatabaseResponse),
    Api { name: Vec<u8>, response: Vec<u8> },
    Error { code: u8, message: Vec<u8> },
}

impl View for Response {
    type V = ResponseV;

    open spec fn view(&self) -> ResponseV {
        match self {
            Response::Completed => ResponseV::Completed,
            Response::Server(s) => ResponseV::Server(s@),
            Response::Database(d) => ResponseV::Database(d@),
            Response::Api { name, response } => ResponseV::Api {
                name: name@,
                response: response@,
            },
            Response::Error { code, message } => ResponseV::Error {
                code: *code,
                message: message@,
            },
        }
    }
}

/// The wrapped half of an envelope.
#[derive(Debug)]
pub enum Wrapped {
    Request(Request),
    Response(Response),
}

impl View for Wrapped {
    type V = WrappedV;

    open spec fn view(&self) -> WrappedV {
        match self {
            Wrapped::Request(r) => WrappedV::Request(r@),
            Wrapped::Response(r) => WrappedV::Response(r@),
        }
    }
}

/// One envelope: an optional session id, an optional request id (absent for
/// unsolicited server pushes), and the wrapped request or response.
#[derive(Debug)]
pub struct Payload {
    pub session_id: Option<u64>,
    pub id: Option<u32>,
    pub wrapped: Wrapped,
}

impl View for Payload {
    type V = PayloadV;

    open spec fn view(&self) -> PayloadV {
        PayloadV { session_id: self.session_id, id: self.id, wrapped: self.wrapped@ }
    }
}

/// The wire round-trip law: decoding the encoding of any well-formed envelope
/// — request or response — restores it exactly.
#[verifier::rlimit(40)]
pub proof fn lemma_payload_round_trip(p: PayloadV)
    requires payload_wf(p),
    ensures dec_payload(enc_payload(p)) == Some(p),
{
    let empty = Seq::<u8>::empty();
    match p.wrapped {
        WrappedV::Request(r) => {
            assert(enc_payload(p) =~= enc_opt_u64(p.session_id) + (enc_opt_u32(p.id) + (seq![0u8]
                + (enc_request(r) + empty))));
            lemma_rt_opt_u64(p.session_id, enc_opt_u32(p.id) + (seq![0u8] + (enc_request(r)
                + empty)));
            lemma_rt_opt_u32(p.id, seq![0u8] + (enc_request(r) + empty));
            lemma_rt_u8(0, enc_request(r) + empty);
            assert(enc_request(r) + empty =~= enc_request(r) + empty);
            lemma_rt_request(r, empty);
        },
        WrappedV::Response(r) => {
            assert(enc_payload(p) =~= enc_opt_u64(p.session_id) + (enc_opt_u32(p.id) + (seq![1u8]
                + (enc_response(r) + empty))));
            lemma_rt_opt_u64(p.session_id, enc_opt_u32(p.id) + (seq![1u8] + (enc_response(r)
                + empty)));
            lemma_rt_opt_u32(p.id, seq![1u8] + (enc_response(r) + empty));
            lemma_rt_u8(1, enc_response(r) + empty);
            lemma_rt_response(r, empty);
        },
    }
}

// ---------------------------------------------------------------------------
// Executable encoder
// ---------------------------------------------------------------------------
/// Appends one byte.
fn put_u8(out: &mut Vec<u8>, b: u8)
    ensures final(out)@ == old(out)@ + seq![b],
{
    out.push(b);
    proof { assert(out@ =~= old(out)@ + seq![b]); }
}

/// Appends a little-endian u32.
fn put_u32(out: &mut Vec<u8>, x: u32)
    ensures final(out)@ == old(out)@ + spec_u32_to_le_bytes(x),
{
    let mut bs = u32_to_le_bytes(x);
    out.append(&mut bs);
}

/// Appends a little-endian u64.
fn put_u64(out: &mut Vec<u8>, x: u64)
    ensures final(out)@ == old(out)@ + spec_u64_to_le_bytes(x),
{
    let mut bs = u64_to_le_bytes(x);
    out.append(&mut bs);
}

/// Appends a flag byte.
fn put_bool(out: &mut Vec<u8>, b: bool)
    ensures final(out)@ == old(out)@ + enc_bool(b),
{
    put_u8(out, if b { 1 } else { 0 });
}

/// Appends a length-prefixed byte string.
fn put_bytes(out: &mut Vec<u8>, b: &Vec<u8>)
    requires b@.len() <= u32::MAX,
    ensures final(out)@ == old(out)@ + enc_bytes(b@),
{
    put_u32(out, b.len() as u32);
    let mut copy = crate::codec::bytes_of(b.as_slice());
    out.append(&mut copy);
    proof { assert(out@ =~= old(out)@ + enc_bytes(b@)); }
}

/// Appends an optional u64.
fn put_opt_u64(out: &mut Vec<u8>, x: Option<u64>)
    ensures final(out)@ == old(out)@ + enc_opt_u64(x),
{
    match x {
        Some(v) => {
            put_u8(out, 1);
            put_u64(out, v);
            proof { assert(out@ =~= old(out)@ + enc_opt_u64(x)); }
        },
        None => {
            put_u8(out, 0);
            proof { assert(out@ =~= old(out)@ + enc_opt_u64(x)); }
        },
    }
}

/// Appends an optional u32.
fn put_opt_u32(out: &mut Vec<u8>, x: Option<u32>)
    ensures final(out)@ == old(out)@ + enc_opt_u32(x),
{
    match x {
        Some(v) => {
            put_u8(out, 1);
            put_u32(out, v);
            proof { assert(out@ =~= old(out)@ + enc_opt_u32(x)); }
        },
        None => {
            put_u8(out, 0);
            proof { assert(out@ =~= old(out)@ + enc_opt_u32(x)); }
        },
    }
}

/// The byte strings of `l`, as the spec sees them.
pub open spec fn bytes_list_view(l: Seq<Vec<u8>>) -> Seq<Seq<u8>> {
    Seq::new(l.len(), |i: int| l[i]@)
}

/// The byte-string pairs of `l`, as the spec sees them.
pub open spec fn pair_list_view(l: Seq<(Vec<u8>, Vec<u8>)>) -> Seq<(Seq<u8>, Seq<u8>)> {
    Seq::new(l.len(), |i: int| (l[i].0@, l[i].1@))
}

/// Appends the items of `l` from index `from` on.
fn put_bytes_items(out: &mut Vec<u8>, l: &Vec<Vec<u8>>, from: usize)
    requires
        from <= l@.len(),
        forall|i: int| 0 <= i < l@.len() ==> (#[trigger] l@[i])@.len() <= u32::MAX,
    ensures final(out)@ == old(out)@ + enc_bytes_items(bytes_list_view(l@).skip(from as int)),
    decreases l@.len() - from,
{
    if from < l.len() {
        put_bytes(out, &l[from]);
        put_bytes_items(out, l, from + 1);
        proof {
            let s = bytes_list_view(l@);
            assert(s.skip(from as int).first() == l@[from as int]@);
            assert(s.skip(from as int).drop_first() =~= s.skip(from + 1 as int));
            assert(out@ =~= old(out)@ + enc_bytes_items(s.skip(from as int)));
        }
    } else {
        proof {
            assert(bytes_list_view(l@).skip(from as int) =~= Seq::<Seq<u8>>::empty());
            assert(out@ =~= old(out)@ + enc_bytes_items(bytes_list_view(l@).skip(from as int)));
        }
    }
}

/// Appends a counted list of byte strings.
fn put_bytes_list(out: &mut Vec<u8>, l: &Vec<Vec<u8>>)
    requires
        l@.len() <= u32::MAX,
        forall|i: int| 0 <= i < l@.len() ==> (#[trigger] l@[i])@.len() <= u32::MAX,
    ensures final(out)@ == old(out)@ + enc_bytes_list(bytes_list_view(l@)),
{
    put_u32(out, l.len() as u32);
    put_bytes_items(out, l, 0);
    proof {
        assert(bytes_list_view(l@).skip(0) =~= bytes_list_view(l@));
        assert(out@ =~= old(out)@ + enc_bytes_list(bytes_list_view(l@)));
    }
}

/// Appends the pairs of `l` from index `from` on.
fn put_pair_items(out: &mut Vec<u8>, l: &Vec<(Vec<u8>, Vec<u8>)>, from: usize)
    requires
        from <= l@.len(),
        forall|i: int| 0 <= i < l@.len() ==> (#[trigger] l@[i]).0@.len() <= u32::MAX
            && l@[i].1@.len() <= u32::MAX,
    ensures final(out)@ == old(out)@ + enc_pair_items(pair_list_view(l@).skip(from as int)),
    decreases l@.len() - from,
{
    if from < l.len() {
        put_bytes(out, &l[from].0);
        put_bytes(out, &l[from].1);
        put_pair_items(out, l, from + 1);
        proof {
            let s = pair_list_view(l@);
            assert(s.skip(from as int).first() == (l@[from as int].0@, l@[from as int].1@));
            assert(s.skip(from as int).drop_first() =~= s.skip(from + 1 as int));
            assert(out@ =~= old(out)@ + enc_pair_items(s.skip(from as int)));
        }
    } else {
        proof {
            assert(pair_list_view(l@).skip(from as int) =~= Seq::<(Seq<u8>, Seq<u8>)>::empty());
            assert(out@ =~= old(out)@ + enc_pair_items(pair_list_view(l@).skip(from as int)));
        }
    }
}

/// Appends a counted list of byte-string pairs.
fn put_pair_list(out: &mut Vec<u8>, l: &Vec<(Vec<u8>, Vec<u8>)>)
    requires
        l@.len() <= u32::MAX,
        forall|i: int| 0 <= i < l@.len() ==> (#[trigger] l@[i]).0@.len() <= u32::MAX
            && l@[i].1@.len() <= u32::MAX,
    ensures final(out)@ == old(out)@ + enc_pair_list(pair_list_view(l@)),
{
    put_u32(out, l.len() as u32);
    put_pair_items(out, l, 0);
    proof {
        assert(pair_list_view(l@).skip(0) =~= pair_list_view(l@));
        assert(out@ =~= old(out)@ + enc_pair_list(pair_list_view(l@)));
    }
}

/// Whether an executable server request fits its length prefixes.
pub fn server_request_fits(r: &ServerRequest) -> (ok: bool)
    ensures ok == server_request_wf(r@),
{
    match r {
        ServerRequest::CreateDatabase { name, schema, .. } => name.len() <= u32::MAX as usize
            && schema.len() <= u32::MAX as usize,
        ServerRequest::DeleteDatabase { name } => name.len() <= u32::MAX as usize,
        ServerRequest::CreateUser { username } => username.len() <= u32::MAX as usize,
        ServerRequest::SetUserPassword { password, .. } => password.len() <= u32::MAX as usize,
        ServerRequest::Authenticate { password, .. } => password.len() <= u32::MAX as usize,
        _ => true,
    }
}

/// Encodes a server request.
fn encode_server_request(out: &mut Vec<u8>, r: &ServerRequest)
    requires server_request_wf(r@),
    ensures final(out)@ == old(out)@ + enc_server_request(r@),
{
    match r {
        ServerRequest::CreateDatabase { name, schema, only_if_needed } => {
            put_u8(out, 0);
            put_bytes(out, name);
            put_bytes(out, schema);
            put_bool(out, *only_if_needed);
        },
        ServerRequest::DeleteDatabase { name } => {
            put_u8(out, 1);
            put_bytes(out, name);
        },
        ServerRequest::ListDatabases => {
            put_u8(out, 2);
        },
        ServerRequest::ListAvailableSchemas => {
            put_u8(out, 3);
        },
        ServerRequest::CreateUser { username } => {
            put_u8(out, 4);
            put_bytes(out, username);
        },
        ServerRequest::DeleteUser { user_id } => {
            put_u8(out, 5);
            put_u64(out, *user_id);
        },
        ServerRequest::SetUserPassword { user_id, password } => {
            put_u8(out, 6);
            put_u64(out, *user_id);
            put_bytes(out, password);
        },
        ServerRequest::Authenticate { user_id, password } => {
            put_u8(out, 7);
            put_u64(out, *user_id);
            put_bytes(out, password);
        },
        ServerRequest::AssumeIdentity { user_id } => {
            put_u8(out, 8);
            put_u64(out, *user_id);
        },
        ServerRequest::AlterUserPermissionGroupMembership {
            user_id,
            group_id,
            should_be_member,
        } => {
            put_u8(out, 9);
            put_u64(out, *user_id);
            put_u64(out, *group_id);
            put_bool(out, *should_be_member);
        },
        ServerRequest::AlterUserRoleMembership { user_id, role_id, should_be_member } => {
            put_u8(out, 10);
            put_u64(out, *user_id);
            put_u64(out, *role_id);
            put_bool(out, *should_be_member);
        },
    }
    proof { assert(out@ =~= old(out)@ + enc_server_request(r@)); }
}

/// Encodes a database request.
fn encode_database_request(out: &mut Vec<u8>, r: &DatabaseRequest)
    requires database_request_wf(r@),
    ensures final(out)@ == old(out)@ + enc_database_request(r@),
{
    match r {
        DatabaseRequest::CreateSubscriber => {
            put_u8(out, 0);
        },
        DatabaseRequest::Subscribe { subscriber_id, topic } => {
            put_u8(out, 1);
            put_u64(out, *subscriber_id);
            put_bytes(out, topic);
        },
        DatabaseRequest::Unsubscribe { subscriber_id, topic } => {
            put_u8(out, 2);
            put_u64(out, *subscriber_id);
            put_bytes(out, topic);
        },
        DatabaseRequest::Publish { topic, payload } => {
            put_u8(out, 3);
            put_bytes(out, topic);
            put_bytes(out, payload);
        },
        DatabaseRequest::UnregisterSubscriber { subscriber_id } => {
            put_u8(out, 4);
            put_u64(out, *subscriber_id);
        },
        DatabaseRequest::LastTransactionId => {
            put_u8(out, 5);
        },
    }
    proof { assert(out@ =~= old(out)@ + enc_database_request(r@)); }
}

/// Encodes a request.
fn encode_request(out: &mut Vec<u8>, r: &Request)
    requires request_wf(r@),
    ensures final(out)@ == old(out)@ + enc_request(r@),
{
    match r {
        Request::Server(s) => {
            put_u8(out, 0);
            encode_server_request(out, s);
        },
        Request::Database { name, request } => {
            put_u8(out, 1);
            put_bytes(out, name);
            encode_database_request(out, request);
        },
        Request::Api { name, request } => {
            put_u8(out, 2);
            put_bytes(out, name);
            put_bytes(out, request);
        },
    }
    proof { assert(out@ =~= old(out)@ + enc_request(r@)); }
}

/// Encodes a server response.
fn encode_server_response(out: &mut Vec<u8>, r: &ServerResponse)
    requires server_response_wf(r@),
    ensures final(out)@ == old(out)@ + enc_server_response(r@),
{
    match r {
        ServerResponse::DatabaseCreated => {
            put_u8(out, 0);
        },
        ServerResponse::DatabaseDeleted => {
            put_u8(out, 1);
        },
        ServerResponse::Databases(l) => {
            put_u8(out, 2);
            proof {
                assert forall|i: int| 0 <= i < l@.len() implies (#[trigger] l@[i]).0@.len()
                    <= u32::MAX && l@[i].1@.len() <= u32::MAX by {
                    match r@ {
                        ServerResponseV::Databases(lm) => {
                            assert(lm[i] == (l@[i].0@, l@[i].1@));
                            assert(fits_u32(lm[i].0.len()) && fits_u32(lm[i].1.len()));
                        },
                        _ => {},
                    }
                }
            }
            put_pair_list(out, l);
        },
        ServerResponse::AvailableSchemas(l) => {
            put_u8(out, 3);
            proof {
                assert forall|i: int| 0 <= i < l@.len() implies (#[trigger] l@[i])@.len()
                    <= u32::MAX by {
                    match r@ {
                        ServerResponseV::AvailableSchemas(lm) => {
                            assert(lm[i] == l@[i]@);
                            assert(fits_u32(lm[i].len()));
                        },
                        _ => {},
                    }
                }
            }
            put_bytes_list(out, l);
        },
        ServerResponse::UserCreated { id } => {
            put_u8(out, 4);
            put_u64(out, *id);
        },
        ServerResponse::Authenticated { session_id, user_id } => {
            put_u8(out, 5);
            put_u64(out, *session_id);
            put_u64(out, *user_id);
        },
    }
    proof { assert(out@ =~= old(out)@ + enc_server_response(r@)); }
}

/// Encodes a database response.
fn encode_database_response(out: &mut Vec<u8>, r: &DatabaseResponse)
    requires database_response_wf(r@),
    ensures final(out)@ == old(out)@ + enc_database_response(r@),
{
    match r {
        DatabaseResponse::SubscriberCreated { subscriber_id } => {
            put_u8(out, 0);
            put_u64(out, *subscriber_id);
        },
        DatabaseResponse::MessageReceived { subscriber_id, topic, payload } => {
            put_u8(out, 1);
            put_u64(out, *subscriber_id);
            put_bytes(out, topic);
            put_bytes(out, payload);
        },
        DatabaseResponse::LastTransactionId(t) => {
            put_u8(out, 2);
            put_opt_u64(out, *t);
        },
    }
    proof { assert(out@ =~= old(out)@ + enc_database_response(r@)); }
}

/// Encodes a response.
fn encode_response(out: &mut Vec<u8>, r: &Response)
    requires response_wf(r@),
    ensures final(out)@ == old(out)@ + enc_response(r@),
{
    match r {
        Response::Completed => {
            put_u8(out, 0);
        },
        Response::Server(s) => {
            put_u8(out, 1);
            encode_server_response(out, s);
        },
        Response::Database(d) => {
            put_u8(out, 2);
            encode_database_response(out, d);
        },
        Response::Api { name, response } => {
            put_u8(out, 3);
            put_bytes(out, name);
            put_bytes(out, response);
        },
        Response::Error { code, message } => {
            put_u8(out, 4);
            put_u8(out, *code);
            put_bytes(out, message);
        },
    }
    proof { assert(out@ =~= old(out)@ + enc_response(r@)); }
}

/// Encodes one envelope into its wire form.
pub fn encode_payload(p: &Payload) -> (r: Vec<u8>)
    requires payload_wf(p@),
    ensures r@ == enc_payload(p@),
{
    let mut out: Vec<u8> = Vec::new();
    put_opt_u64(&mut out, p.session_id);
    put_opt_u32(&mut out, p.id);
    match &p.wrapped {
        Wrapped::Request(req) => {
            put_u8(&mut out, 0);
            encode_request(&mut out, req);
        },
        Wrapped::Response(resp) => {
            put_u8(&mut out, 1);
            encode_response(&mut out, resp);
        },
    }
    proof { assert(out@ =~= enc_payload(p@)); }
    out
}

// ---------------------------------------------------------------------------
// Executable decoder
// ---------------------------------------------------------------------------
/// A cursor over the frame being decoded.
struct Reader<'a> {
    bytes: &'a [u8],
    pos: usize,
}

impl<'a> Reader<'a> {
    /// The bytes not yet consumed.
    spec fn remaining(&self) -> Seq<u8> {
        self.bytes@.skip(self.pos as int)
    }

    /// The cursor lies within the frame.
    spec fn wf(&self) -> bool {
        self.pos <= self.bytes@.len()
    }

    fn read_u8(&mut self) -> (r: Option<u8>)
        requires old(self).wf(),
        ensures
            final(self).wf(),
            final(self).bytes == old(self).bytes,
            match r {
                Some(b) => dec_u8(old(self).remaining()) == Some((b, final(self).remaining())),
                None => dec_u8(old(self).remaining()) is None,
            },
    {
        if self.pos < self.bytes.len() {
            let b = self.bytes[self.pos];
            self.pos = self.pos + 1;
            proof {
                assert(old(self).remaining()[0] == b);
                assert(old(self).remaining().skip(1) =~= self.remaining());
            }
            Some(b)
        } else {
            None
        }
    }

    fn read_u32(&mut self) -> (r: Option<u32>)
        requires old(self).wf(),
        ensures
            final(self).wf(),
            final(self).bytes == old(self).bytes,
            match r {
                Some(x) => dec_u32(old(self).remaining()) == Some((x, final(self).remaining())),
                None => dec_u32(old(self).remaining()) is None,
            },
    {
        if self.bytes.len() - self.pos >= 4 {
            let chunk = vstd::slice::slice_subrange(self.bytes, self.pos, self.pos + 4);
            let x = u32_from_le_bytes(chunk);
            self.pos = self.pos + 4;
            proof {
                assert(chunk@ =~= old(self).remaining().take(4));
                assert(old(self).remaining().skip(4) =~= self.remaining());
            }
            Some(x)
        } else {
            None
        }
    }

    fn read_u64(&mut self) -> (r: Option<u64>)
        requires old(self).wf(),
        ensures
            final(self).wf(),
            final(self).bytes == old(self).bytes,
            match r {
                Some(x) => dec_u64(old(self).remaining()) == Some((x, final(self).remaining())),
                None => dec_u64(old(self).remaining()) is None,
            },
    {
        if self.bytes.len() - self.pos >= 8 {
            let chunk = vstd::slice::slice_subrange(self.bytes, self.pos, self.pos + 8);
            let x = u64_from_le_bytes(chunk);
            self.pos = self.pos + 8;
            proof {
                assert(chunk@ =~= old(self).remaining().take(8));
                assert(old(self).remaining().skip(8) =~= self.remaining());
            }
            Some(x)
        } else {
            None
        }
    }

    fn read_bool(&mut self) -> (r: Option<bool>)
        requires old(self).wf(),
        ensures
            final(self).wf(),
            final(self).bytes == old(self).bytes,
            match r {
                Some(b) => dec_bool(old(self).remaining()) == Some((b, final(self).remaining())),
                None => dec_bool(old(self).remaining()) is None,
            },
    {
        match self.read_u8() {
            Some(0) => Some(false),
            Some(1) => Some(true),
            Some(_) => None,
            None => None,
        }
    }

    fn read_bytes(&mut self) -> (r: Option<Vec<u8>>)
        requires old(self).wf(),
        ensures
            final(self).wf(),
            final(self).bytes == old(self).bytes,
            match r {
                Some(b) => dec_bytes(old(self).remaining()) == Some((b@, final(self).remaining())),
                None => dec_bytes(old(self).remaining()) is None,
            },
    {
        let n = match self.read_u32() {
            Some(n) => n,
            None => {
                return None;
            },
        };
        let ghost mid = self.remaining();
        if self.bytes.len() - self.pos >= n as usize {
            let chunk = vstd::slice::slice_subrange(self.bytes, self.pos, self.pos + n as usize);
            let b = vstd::slice::slice_to_vec(chunk);
            self.pos = self.pos + n as usize;
            proof {
                assert(b@ =~= mid.take(n as int));
                assert(mid.skip(n as int) =~= self.remaining());
            }
            Some(b)
        } else {
            None
        }
    }

    fn read_opt_u64(&mut self) -> (r: Option<Option<u64>>)
        requires old(self).wf(),
        ensures
            final(self).wf(),
            final(self).bytes == old(self).bytes,
            match r {
                Some(x) => dec_opt_u64(old(self).remaining()) == Some(
                    (x, final(self).remaining()),
                ),
                None => dec_opt_u64(old(self).remaining()) is None,
            },
    {
        match self.read_u8() {
            Some(0) => Some(None),
            Some(1) => {
                match self.read_u64() {
                    Some(v) => Some(Some(v)),
                    None => None,
                }
            },
            Some(_) => None,
            None => None,
        }
    }

    fn read_opt_u32(&mut self) -> (r: Option<Option<u32>>)
        requires old(self).wf(),
        ensures
            final(self).wf(),
            final(self).bytes == old(self).bytes,
            match r {
                Some(x) => dec_opt_u32(old(self).remaining()) == Some(
                    (x, final(self).remaining()),
                ),
                None => dec_opt_u32(old(self).remaining()) is None,
            },
    {
        match self.read_u8() {
            Some(0) => Some(None),
            Some(1) => {
                match self.read_u32() {
                    Some(v) => Some(Some(v)),
                    None => None,
                }
            },
            Some(_) => None,
            None => None,
        }
    }

    fn read_bytes_items(&mut self, count: u32) -> (r: Option<Vec<Vec<u8>>>)
        requires old(self).wf(),
        ensures
            final(self).wf(),
            final(self).bytes == old(self).bytes,
            match r {
                Some(l) => dec_bytes_items(old(self).remaining(), count as nat) == Some(
                    (bytes_list_view(l@), final(self).remaining()),
                ),
                None => dec_bytes_items(old(self).remaining(), count as nat) is None,
            },
        decreases count,
    {
        if count == 0 {
            let l: Vec<Vec<u8>> = Vec::new();
            proof { assert(bytes_list_view(l@) =~= Seq::<Seq<u8>>::empty()); }
            Some(l)
        } else {
            let b = match self.read_bytes() {
                Some(b) => b,
                None => {
                    return None;
                },
            };
            match self.read_bytes_items(count - 1) {
                Some(mut l) => {
                    let ghost tail_view = bytes_list_view(l@);
                    l.insert(0, b);
                    proof {
                        assert(bytes_list_view(l@) =~= seq![b@] + tail_view);
                    }
                    Some(l)
                },
                None => None,
            }
        }
    }

    fn read_pair_items(&mut self, count: u32) -> (r: Option<Vec<(Vec<u8>, Vec<u8>)>>)
        requires old(self).wf(),
        ensures
            final(self).wf(),
            final(self).bytes == old(self).bytes,
            match r {
                Some(l) => dec_pair_items(old(self).remaining(), count as nat) == Some(
                    (pair_list_view(l@), final(self).remaining()),
                ),
                None => dec_pair_items(old(self).remaining(), count as nat) is None,
            },
        decreases count,
    {
        if count == 0 {
            let l: Vec<(Vec<u8>, Vec<u8>)> = Vec::new();
            proof { assert(pair_list_view(l@) =~= Seq::<(Seq<u8>, Seq<u8>)>::empty()); }
            Some(l)
        } else {
            let a = match self.read_bytes() {
                Some(a) => a,
                None => {
                    return None;
                },
            };
            let b = match self.read_bytes() {
                Some(b) => b,
                None => {
                    return None;
                },
            };
            match self.read_pair_items(count - 1) {
                Some(mut l) => {
                    let ghost tail_view = pair_list_view(l@);
                    l.insert(0, (a, b));
                    proof {
                        assert(pair_list_view(l@) =~= seq![(a@, b@)] + tail_view);
                    }
                    Some(l)
                },
                None => None,
            }
        }
    }

    fn read_server_request(&mut self) -> (r: Option<ServerRequest>)
        requires old(self).wf(),
        ensures
            final(self).wf(),
            final(self).bytes == old(self).bytes,
            match r {
                Some(v) => dec_server_request(old(self).remaining()) == Some(
                    (v@, final(self).remaining()),
                ),
                None => dec_server_request(old(self).remaining()) is None,
            },
    {
        let tag = match self.read_u8() {
            Some(t) => t,
            None => {
                return None;
            },
        };
        if tag == 0 {
            let name = match self.read_bytes() {
                Some(v) => v,
                None => { return None; },
            };
            let schema = match self.read_bytes() {
                Some(v) => v,
                None => { return None; },
            };
            let only_if_needed = match self.read_bool() {
                Some(v) => v,
                None => { return None; },
            };
            Some(ServerRequest::CreateDatabase { name, schema, only_if_needed })
        } else if tag == 1 {
            let name = match self.read_bytes() {
                Some(v) => v,
                None => { return None; },
            };
            Some(ServerRequest::DeleteDatabase { name })
        } else if tag == 2 {
            Some(ServerRequest::ListDatabases)
        } else if tag == 3 {
            Some(ServerRequest::ListAvailableSchemas)
        } else if tag == 4 {
            let username = match self.read_bytes() {
                Some(v) => v,
                None => { return None; },
            };
            Some(ServerRequest::CreateUser { username })
        } else if tag == 5 {
            let user_id = match self.read_u64() {
                Some(v) => v,
                None => { return None; },
            };
            Some(ServerRequest::DeleteUser { user_id })
        } else if tag == 6 {
            let user_id = match self.read_u64() {
                Some(v) => v,
                None => { return None; },
            };
            let password = match self.read_bytes() {
                Some(v) => v,
                None => { return None; },
            };
            Some(ServerRequest::SetUserPassword { user_id, password })
        } else if tag == 7 {
            let user_id = match self.read_u64() {
                Some(v) => v,
                None => { return None; },
            };
            let password = match self.read_bytes() {
                Some(v) => v,
                None => { return None; },
            };
            Some(ServerRequest::Authenticate { user_id, password })
        } else if tag == 8 {
            let user_id = match self.read_u64() {
                Some(v) => v,
                None => { return None; },
            };
            Some(ServerRequest::AssumeIdentity { user_id })
        } else if tag == 9 {
            let user_id = match self.read_u64() {
                Some(v) => v,
                None => { return None; },
            };
            let group_id = match self.read_u64() {
                Some(v) => v,
                None => { return None; },
            };
            let should_be_member = match self.read_bool() {
                Some(v) => v,
                None => { return None; },
            };
            Some(ServerRequest::AlterUserPermissionGroupMembership {
                user_id,
                group_id,
                should_be_member,
            })
        } else if tag == 10 {
            let user_id = match self.read_u64() {
                Some(v) => v,
                None => { return None; },
            };
            let role_id = match self.read_u64() {
                Some(v) => v,
                None => { return None; },
            };
            let should_be_member = match self.read_bool() {
                Some(v) => v,
                None => { return None; },
            };
            Some(ServerRequest::AlterUserRoleMembership { user_id, role_id, should_be_member })
        } else {
            None
        }
    }

    fn read_database_request(&mut self) -> (r: Option<DatabaseRequest>)
        requires old(self).wf(),
        ensures
            final(self).wf(),
            final(self).bytes == old(self).bytes,
            match r {
                Some(v) => dec_database_request(old(self).remaining()) == Some(
                    (v@, final(self).remaining()),
                ),
                None => dec_database_request(old(self).remaining()) is None,
            },
    {
        let tag = match self.read_u8() {
            Some(t) => t,
            None => { return None; },
        };
        if tag == 0 {
            Some(DatabaseRequest::CreateSubscriber)
        } else if tag == 1 {
            let subscriber_id = match self.read_u64() {
                Some(v) => v,
                None => { return None; },
            };
            let topic = match self.read_bytes() {
                Some(v) => v,
                None => { return None; },
            };
            Some(DatabaseRequest::Subscribe { subscriber_id, topic })
        } else if tag == 2 {
            let subscriber_id = match self.read_u64() {
                Some(v) => v,
                None => { return None; },
            };
            let topic = match self.read_bytes() {
                Some(v) => v,
                None => { return None; },
            };
            Some(DatabaseRequest::Unsubscribe { subscriber_id, topic })
        } else if tag == 3 {
            let topic = match self.read_bytes() {
                Some(v) => v,
                None => { return None; },
            };
            let payload = match self.read_bytes() {
                Some(v) => v,
                None => { return None; },
            };
            Some(DatabaseRequest::Publish { topic, payload })
        } else if tag == 4 {
            let subscriber_id = match self.read_u64() {
                Some(v) => v,
                None => { return None; },
            };
            Some(DatabaseRequest::UnregisterSubscriber { subscriber_id })
        } else if tag == 5 {
            Some(DatabaseRequest::LastTransactionId)
        } else {
            None
        }
    }

    fn read_request(&mut self) -> (r: Option<Request>)
        requires old(self).wf(),
        ensures
            final(self).wf(),
            final(self).bytes == old(self).bytes,
            match r {
                Some(v) => dec_request(old(self).remaining()) == Some(
                    (v@, final(self).remaining()),
                ),
                None => dec_request(old(self).remaining()) is None,
            },
    {
        let tag = match self.read_u8() {
            Some(t) => t,
            None => { return None; },
        };
        if tag == 0 {
            match self.read_server_request() {
                Some(s) => Some(Request::Server(s)),
                None => None,
            }
        } else if tag == 1 {
            let name = match self.read_bytes() {
                Some(v) => v,
                None => { return None; },
            };
            match self.read_database_request() {
                Some(request) => Some(Request::Database { name, request }),
                None => None,
            }
        } else if tag == 2 {
            let name = match self.read_bytes() {
                Some(v) => v,
                None => { return None; },
            };
            let request = match self.read_bytes() {
                Some(v) => v,
                None => { return None; },
            };
            Some(Request::Api { name, request })
        } else {
            None
        }
    }

    fn read_server_response(&mut self) -> (r: Option<ServerResponse>)
        requires old(self).wf(),
        ensures
            final(self).wf(),
            final(self).bytes == old(self).bytes,
            match r {
                Some(v) => dec_server_response(old(self).remaining()) == Some(
                    (v@, final(self).remaining()),
                ),
                None => dec_server_response(old(self).remaining()) is None,
            },
    {
        let tag = match self.read_u8() {
            Some(t) => t,
            None => { return None; },
        };
        if tag == 0 {
            Some(ServerResponse::DatabaseCreated)
        } else if tag == 1 {
            Some(ServerResponse::DatabaseDeleted)
        } else if tag == 2 {
            let count = match self.read_u32() {
                Some(v) => v,
                None => { return None; },
            };
            match self.read_pair_items(count) {
                Some(l) => {
                    let r = ServerResponse::Databases(l);
                    proof {
                        match r@ {
                            ServerResponseV::Databases(lm) => {
                                assert(lm =~= pair_list_view(l@));
                            },
                            _ => {},
                        }
                    }
                    Some(r)
                },
                None => None,
            }
        } else if tag == 3 {
            let count = match self.read_u32() {
                Some(v) => v,
                None => { return None; },
            };
            match self.read_bytes_items(count) {
                Some(l) => {
                    let r = ServerResponse::AvailableSchemas(l);
                    proof {
                        match r@ {
                            ServerResponseV::AvailableSchemas(lm) => {
                                assert(lm =~= bytes_list_view(l@));
                            },
                            _ => {},
                        }
                    }
                    Some(r)
                },
                None => None,
            }
        } else if tag == 4 {
            let id = match self.read_u64() {
                Some(v) => v,
                None => { return None; },
            };
            Some(ServerResponse::UserCreated { id })
        } else if tag == 5 {
            let session_id = match self.read_u64() {
                Some(v) => v,
                None => { return None; },
            };
            let user_id = match self.read_u64() {
                Some(v) => v,
                None => { return None; },
            };
            Some(ServerResponse::Authenticated { session_id, user_id })
        } else {
            None
        }
    }

    fn read_database_response(&mut self) -> (r: Option<DatabaseResponse>)
        requires old(self).wf(),
        ensures
            final(self).wf(),
            final(self).bytes == old(self).bytes,
            match r {
                Some(v) => dec_database_response(old(self).remaining()) == Some(
                    (v@, final(self).remaining()),
                ),
                None => dec_database_response(old(self).remaining()) is None,
            },
    {
        let tag = match self.read_u8() {
            Some(t) => t,
            None => { return None; },
        };
        if tag == 0 {
            let subscriber_id = match self.read_u64() {
                Some(v) => v,
                None => { return None; },
            };
            Some(DatabaseResponse::SubscriberCreated { subscriber_id })
        } else if tag == 1 {
            let subscriber_id = match self.read_u64() {
                Some(v) => v,
                None => { return None; },
            };
            let topic = match self.read_bytes() {
                Some(v) => v,
                None => { return None; },
            };
            let payload = match self.read_bytes() {
                Some(v) => v,
                None => { return None; },
            };
            Some(DatabaseResponse::MessageReceived { subscriber_id, topic, payload })
        } else if tag == 2 {
            match self.read_opt_u64() {
                Some(t) => Some(DatabaseResponse::LastTransactionId(t)),
                None => None,
            }
        } else {
            None
        }
    }

    fn read_response(&mut self) -> (r: Option<Response>)
        requires old(self).wf(),
        ensures
            final(self).wf(),
            final(self).bytes == old(self).bytes,
            match r {
                Some(v) => dec_response(old(self).remaining()) == Some(
                    (v@, final(self).remaining()),
                ),
                None => dec_response(old(self).remaining()) is None,
            },
    {
        let tag = match self.read_u8() {
            Some(t) => t,
            None => { return None; },
        };
        if tag == 0 {
            Some(Response::Completed)
        } else if tag == 1 {
            match self.read_server_response() {
                Some(s) => Some(Response::Server(s)),
                None => None,
            }
        } else if tag == 2 {
            match self.read_database_response() {
                Some(d) => Some(Response::Database(d)),
                None => None,
            }
        } else if tag == 3 {
            let name = match self.read_bytes() {
                Some(v) => v,
                None => { return None; },
            };
            let response = match self.read_bytes() {
                Some(v) => v,
                None => { return None; },
            };
            Some(Response::Api { name, response })
        } else if tag == 4 {
            let code = match self.read_u8() {
                Some(v) => v,
                None => { return None; },
            };
            let message = match self.read_bytes() {
                Some(v) => v,
                None => { return None; },
            };
            Some(Response::Error { code, message })
        } else {
            None
        }
    }
}

/// Decodes one envelope from its wire form; a frame with trailing bytes or an
/// unknown tag is refused.
pub fn decode_payload(bytes: &[u8]) -> (r: Option<Payload>)
    ensures
        match r {
            Some(p) => dec_payload(bytes@) == Some(p@),
            None => dec_payload(bytes@) is None,
        },
{
    let mut rd = Reader { bytes, pos: 0 };
    proof { assert(rd.remaining() =~= bytes@); }
    let session_id = match rd.read_opt_u64() {
        Some(v) => v,
        None => { return None; },
    };
    let id = match rd.read_opt_u32() {
        Some(v) => v,
        None => { return None; },
    };
    let dir = match rd.read_u8() {
        Some(v) => v,
        None => { return None; },
    };
    if dir == 0 {
        let req = match rd.read_request() {
            Some(v) => v,
            None => { return None; },
        };
        if rd.pos == rd.bytes.len() {
            proof { assert(rd.remaining().len() == 0); }
            Some(Payload { session_id, id, wrapped: Wrapped::Request(req) })
        } else {
            proof { assert(rd.remaining().len() != 0); }
            None
        }
    } else if dir == 1 {
        let resp = match rd.read_response() {
            Some(v) => v,
            None => { return None; },
        };
        if rd.pos == rd.bytes.len() {
            proof { assert(rd.remaining().len() == 0); }
            Some(Payload { session_id, id, wrapped: Wrapped::Response(resp) })
        } else {
            proof { assert(rd.remaining().len() != 0); }
            None
        }
    } else {
        None
    }
}

} // verus!
