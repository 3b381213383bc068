use wire_binding::api::binding::{catch_all, has_char, header_value, same_header};
use wire_binding::api::metadata::{AuthScheme, Lifecycle, Method, Paths, Version};
use wire_binding::api::{compile, EndpointSpec, FieldDescriptor, Placement};
use wire_binding::error::{DecodingError, EncodingError};
use wire_binding::urlencoded::de::Part;
use wire_binding::urlencoded::value::{Shape, Value};
use wire_binding::validate_msisdn_by_phone_number::{definition, Request, Response};
use wire_binding::wire::{FieldValue, WireMessage};

fn pair(key: &str, value: &str) -> (String, String) {
    (key.to_owned(), value.to_owned())
}

fn field(name: &str, placement: Placement) -> FieldDescriptor {
    FieldDescriptor { name: name.to_owned(), value_type: "String".to_owned(), placement }
}

fn text(value: &str) -> FieldValue {
    FieldValue::Text(value.to_owned())
}

fn scalar(value: &str) -> FieldValue {
    FieldValue::Query(Value::Scalar(Part(value.to_owned())))
}

fn sequence(values: &[&str]) -> FieldValue {
    FieldValue::Query(Value::Sequence(values.iter().map(|v| Part((*v).to_owned())).collect()))
}

const STABLE: &str = "/_matrix/client/v3/rooms/{room_id}/send/{txn_id}";
const R0: &str = "/_matrix/client/r0/rooms/{room_id}/send/{txn_id}";

fn endpoint(request_fields: Vec<FieldDescriptor>) -> EndpointSpec {
    EndpointSpec {
        description: "Send an event to a room.".to_owned(),
        method: Method::Put,
        name: "send_event".to_owned(),
        paths: Paths { unstable: None, r0: Some(R0.to_owned()), stable: Some(STABLE.to_owned()) },
        lifecycle: Lifecycle {
            added: Some(Version { major: 1, minor: 0 }),
            deprecated: None,
            removed: None,
        },
        authentication: AuthScheme::Unauthenticated,
        rate_limited: false,
        request_fields,
        response_fields: vec![
            field("etag", Placement::Header("ETag".to_owned())),
            field("file", Placement::RawBody),
        ],
        error_type: None,
    }
}

fn request_fields() -> Vec<FieldDescriptor> {
    vec![
        field("room_id", Placement::Path),
        field("txn_id", Placement::Path),
        field("ts", Placement::Query(Shape::Scalar)),
        field("via", Placement::Query(Shape::Sequence)),
        field("rest", Placement::QueryMap),
        field("content_type", Placement::Header("Content-Type".to_owned())),
        field("content", Placement::Body),
    ]
}

fn request_values() -> Vec<FieldValue> {
    vec![
        text("!room:example.org"),
        text("txn 1"),
        scalar("12"),
        sequence(&["a.org", "b.org"]),
        FieldValue::Entries(vec![pair("x", "1"), pair("y", "2"), pair("x", "3")]),
        text("application/json"),
        FieldValue::InPayload,
    ]
}

fn request_message(path: &str) -> WireMessage {
    WireMessage {
        method: Method::Put,
        path: path.to_owned(),
        query: vec![
            pair("ts", "12"),
            pair("via", "a.org"),
            pair("via", "b.org"),
            pair("x", "1"),
            pair("y", "2"),
            pair("x", "3"),
        ],
        headers: vec![pair("Content-Type", "application/json")],
        body: b"{\"body\":\"hi\"}".to_vec(),
    }
}

#[test]
fn a_request_is_written_to_the_wire() {
    let (_, request, _) = compile(endpoint(request_fields())).unwrap();
    let message = request.to_wire(&request_values(), b"{\"body\":\"hi\"}".to_vec(), STABLE);
    assert_eq!(message, Ok(request_message("/_matrix/client/v3/rooms/!room:example.org/send/txn 1")));
    let message = message.unwrap();
    assert_eq!(message.query_string(), "ts=12&via=a.org&via=b.org&x=1&y=2&x=3");
    let legacy = request.to_wire(&request_values(), vec![], R0).unwrap();
    assert_eq!(legacy.path, "/_matrix/client/r0/rooms/!room:example.org/send/txn 1");
    assert_eq!(legacy.body, Vec::<u8>::new());
}

#[test]
fn a_request_is_read_from_the_wire() {
    let (_, request, _) = compile(endpoint(request_fields())).unwrap();
    let message = request_message("/_matrix/client/v3/rooms/!room:example.org/send/txn 1");
    assert_eq!(request.from_wire(&message), Ok(request_values()));
    let legacy = request_message("/_matrix/client/r0/rooms/!room:example.org/send/txn 1");
    assert_eq!(request.from_wire(&legacy), Ok(request_values()));
}

#[test]
fn reading_undoes_writing() {
    let (_, request, response) = compile(endpoint(request_fields())).unwrap();
    let written = request.to_wire(&request_values(), vec![1, 2, 3], STABLE).unwrap();
    assert_eq!(request.from_wire(&written), Ok(request_values()));
    let values = vec![text("\"abc\""), FieldValue::Raw(vec![0, 159, 146, 150])];
    let written = response.to_wire(&values, vec![9, 9], STABLE).unwrap();
    assert_eq!(written.body, vec![0, 159, 146, 150]);
    assert_eq!(written.headers, vec![pair("ETag", "\"abc\"")]);
    assert_eq!(written.path, "/_matrix/client/v3/rooms/{room_id}/send/{txn_id}");
    assert_eq!(response.from_wire(&written), Ok(values));
}

#[test]
fn values_must_suit_their_fields() {
    let (_, request, _) = compile(endpoint(request_fields())).unwrap();
    let mut values = request_values();
    values[0] = scalar("!room:example.org");
    assert_eq!(
        request.to_wire(&values, vec![], STABLE),
        Err(EncodingError::Unrepresentable)
    );
    let mut values = request_values();
    values[0] = text("a/b");
    assert_eq!(
        request.to_wire(&values, vec![], STABLE),
        Err(EncodingError::Unrepresentable)
    );
    let mut values = request_values();
    values[6] = FieldValue::Raw(vec![]);
    assert_eq!(
        request.to_wire(&values, vec![], STABLE),
        Err(EncodingError::Unrepresentable)
    );
    let mut values = request_values();
    values.pop();
    assert_eq!(
        request.to_wire(&values, vec![], STABLE),
        Err(EncodingError::Unrepresentable)
    );
    let mut values = request_values();
    values[2] = text("12");
    values[4] = scalar("x");
    assert_eq!(
        request.to_wire(&values, vec![], STABLE),
        Err(EncodingError::Unrepresentable)
    );
}

#[test]
fn the_template_must_bind_the_path_fields() {
    let (_, request, _) = compile(endpoint(request_fields())).unwrap();
    assert_eq!(
        request.to_wire(&request_values(), vec![], "/rooms/{room_id}/send/{other}"),
        Err(EncodingError::UnboundPathField)
    );
    assert_eq!(
        request.to_wire(&request_values(), vec![], "/rooms/{room_id}"),
        Err(EncodingError::UnboundPathField)
    );
    assert_eq!(
        request
            .to_wire(&request_values(), vec![], "/{txn_id}/{room_id}/{other}/{txn_id}")
            .map(|m| m.path),
        Ok("/txn 1/!room:example.org/{other}/txn 1".to_owned())
    );
}

#[test]
fn missing_fields_are_reported() {
    let (_, request, _) = compile(endpoint(request_fields())).unwrap();
    let sound = request_message("/_matrix/client/v3/rooms/!room:example.org/send/txn 1");
    let mut message = sound.clone();
    message.path = "/_matrix/client/v3/rooms/!room:example.org".to_owned();
    assert_eq!(request.from_wire(&message), Err(DecodingError::MissingField));
    let mut message = sound.clone();
    message.path = "/_matrix/client/unstable/rooms/!room:example.org/send/1".to_owned();
    assert_eq!(request.from_wire(&message), Err(DecodingError::MissingField));
    let mut message = sound.clone();
    message.query.remove(0);
    assert_eq!(request.from_wire(&message), Err(DecodingError::MissingField));
    let mut message = sound.clone();
    message.headers.clear();
    assert_eq!(request.from_wire(&message), Err(DecodingError::MissingField));
    let mut message = sound;
    message.headers = vec![pair("content-type", "text/plain"), pair("Content-Type", "x")];
    assert_eq!(request.from_wire(&message).map(|values| values[5].clone()), Ok(text("text/plain")));
}

#[test]
fn excess_query_keys_are_ignored_without_a_query_map() {
    let fields = vec![
        field("room_id", Placement::Path),
        field("txn_id", Placement::Path),
        field("ts", Placement::Query(Shape::Scalar)),
    ];
    let (_, request, _) = compile(endpoint(fields)).unwrap();
    let message = request_message("/_matrix/client/v3/rooms/r/send/t");
    assert_eq!(request.from_wire(&message), Ok(vec![text("r"), text("t"), scalar("12")]));
}

#[test]
fn a_query_map_catches_what_no_field_takes() {
    let fields = request_fields();
    let query = vec![
        pair("ts", "12"),
        pair("x", "1"),
        pair("room_id", "shadow"),
        pair("rest", "named like the map"),
        pair("content", "named like a body field"),
        pair("via", "a"),
    ];
    assert_eq!(
        catch_all(&query, &fields),
        vec![
            pair("x", "1"),
            pair("rest", "named like the map"),
            pair("content", "named like a body field"),
        ]
    );
    assert_eq!(catch_all(&query, &vec![]), query);
}

#[test]
fn header_names_ignore_ascii_case() {
    assert!(same_header("Content-Type", "content-type"));
    assert!(same_header("ETAG", "etag"));
    assert!(same_header("", ""));
    assert!(!same_header("Content-Type", "Content_Type"));
    assert!(!same_header("a", "ab"));
    assert!(!same_header("É", "é"));
    assert!(!same_header("@", "`"));
    assert!(!same_header("[", "{"));
    let headers = vec![pair("A", "1"), pair("b", "2"), pair("a", "3")];
    assert_eq!(header_value(&headers, "a"), Some("1".to_owned()));
    assert_eq!(header_value(&headers, "B"), Some("2".to_owned()));
    assert_eq!(header_value(&headers, "c"), None);
    assert!(has_char("a/b", '/'));
    assert!(!has_char("ab", '/'));
}

#[test]
fn the_endpoint_definition_compiles() {
    let (metadata, request, response) = compile(definition()).unwrap();
    assert_eq!(metadata.description, "Validate ownership of an email address.");
    assert_eq!(metadata.method, Method::Get);
    assert_eq!(metadata.name, "validate_email_by_end_user");
    assert_eq!(
        metadata.paths,
        Paths {
            unstable: None,
            r0: None,
            stable: Some("/_matrix/identity/v2/validate/msisdn/submitToken".to_owned()),
        }
    );
    assert_eq!(metadata.authentication, AuthScheme::AccessToken);
    assert!(!metadata.rate_limited);
    assert_eq!(
        metadata.lifecycle,
        Lifecycle { added: Some(Version { major: 1, minor: 0 }), deprecated: None, removed: None }
    );
    assert_eq!(request.resolved().query.len(), 3);
    assert!(response.resolved().body.is_empty());
}

#[test]
fn the_endpoint_request_travels_in_the_query() {
    let (metadata, binding, _) = compile(definition()).unwrap();
    let request = Request::new("sid 1".to_owned(), "s3cr&t".to_owned(), "tøken".to_owned());
    let template = metadata.paths.stable.unwrap();
    let message = binding.to_wire(&request.to_values(), vec![], &template).unwrap();
    assert_eq!(message.method, Method::Get);
    assert_eq!(message.path, "/_matrix/identity/v2/validate/msisdn/submitToken");
    assert_eq!(
        message.query,
        vec![pair("sid", "sid 1"), pair("client_secret", "s3cr&t"), pair("token", "tøken")]
    );
    assert_eq!(message.query_string(), "sid=sid+1&client_secret=s3cr%26t&token=t%C3%B8ken");
    assert_eq!(wire_binding::urlencoded::ser::to_string(&request.to_record()), message.query_string());
    let back = Request::from_values(binding.from_wire(&message).unwrap());
    assert_eq!(back, Ok(request));
}

#[test]
fn the_endpoint_request_needs_three_scalars() {
    assert_eq!(Request::from_values(vec![]), Err(DecodingError::StructuralMismatch));
    assert_eq!(
        Request::from_values(vec![scalar("a"), scalar("b"), sequence(&["c", "d"])]),
        Err(DecodingError::StructuralMismatch)
    );
    assert_eq!(
        Request::from_values(vec![scalar("a"), text("b"), scalar("c")]),
        Err(DecodingError::StructuralMismatch)
    );
    let (_, binding, _) = compile(definition()).unwrap();
    let message = WireMessage {
        method: Method::Get,
        path: "/anywhere".to_owned(),
        query: vec![pair("sid", "1"), pair("token", "t"), pair("client_secret", "c"), pair("sid", "2")],
        headers: vec![],
        body: vec![],
    };
    assert_eq!(binding.from_wire(&message), Err(DecodingError::StructuralMismatch));
}

#[test]
fn a_sequence_of_one_is_read_back_as_a_sequence() {
    let (_, request, _) = compile(endpoint(request_fields())).unwrap();
    let mut values = request_values();
    values[3] = sequence(&["only.org"]);
    let written = request.to_wire(&values, vec![], STABLE).unwrap();
    assert_eq!(
        written.query,
        vec![pair("ts", "12"), pair("via", "only.org"), pair("x", "1"), pair("y", "2"), pair("x", "3")]
    );
    assert_eq!(request.from_wire(&written), Ok(values));
}

#[test]
fn an_empty_sequence_is_written_as_no_pair_and_read_as_missing() {
    let (_, request, _) = compile(endpoint(request_fields())).unwrap();
    let mut values = request_values();
    values[3] = sequence(&[]);
    let written = request.to_wire(&values, vec![], STABLE).unwrap();
    assert_eq!(
        written.query,
        vec![pair("ts", "12"), pair("x", "1"), pair("y", "2"), pair("x", "3")]
    );
    assert_eq!(request.from_wire(&written), Err(DecodingError::MissingField));
}

#[test]
fn a_scalar_query_field_given_twice_is_a_structural_mismatch() {
    let (_, request, _) = compile(endpoint(request_fields())).unwrap();
    let mut message = request_message("/_matrix/client/v3/rooms/!room:example.org/send/txn 1");
    message.query.push(pair("ts", "13"));
    assert_eq!(request.from_wire(&message), Err(DecodingError::StructuralMismatch));
}

#[test]
fn a_query_value_must_have_the_shape_of_its_field() {
    let (_, request, _) = compile(endpoint(request_fields())).unwrap();
    let mut values = request_values();
    values[2] = sequence(&["12"]);
    assert_eq!(request.to_wire(&values, vec![], STABLE), Err(EncodingError::Unrepresentable));
    let mut values = request_values();
    values[3] = scalar("a.org");
    assert_eq!(request.to_wire(&values, vec![], STABLE), Err(EncodingError::Unrepresentable));
    let mut values = request_values();
    values[3] = sequence(&["a.org", "b.org", "c.org"]);
    let written = request.to_wire(&values, vec![], STABLE).unwrap();
    assert_eq!(request.from_wire(&written), Ok(values));
}

#[test]
fn the_endpoint_response_is_empty() {
    assert_eq!(Response::new(), Response {});
    assert_eq!(Response::new(), Response::default());
}
