use wire_binding::api::metadata::{AuthScheme, Lifecycle, Metadata, Method, Paths, Version};
use wire_binding::api::{
    compile, parse_request, parse_response, resolve, Api, EndpointSpec, ErrorType, FieldDescriptor,
    Kind, Placement, ResolvedFieldSet,
};
use wire_binding::error::DefinitionError;
use wire_binding::urlencoded::value::Shape;

fn field(name: &str, placement: Placement) -> FieldDescriptor {
    FieldDescriptor { name: name.to_owned(), value_type: "String".to_owned(), placement }
}

fn version(major: u8, minor: u8) -> Option<Version> {
    Some(Version { major, minor })
}

fn endpoint() -> EndpointSpec {
    EndpointSpec {
        description: "Send an event to a room.".to_owned(),
        method: Method::Put,
        name: "send_event".to_owned(),
        paths: Paths {
            unstable: None,
            r0: Some("/_matrix/client/r0/rooms/{room_id}/send/{txn_id}".to_owned()),
            stable: Some("/_matrix/client/v3/rooms/{room_id}/send/{txn_id}".to_owned()),
        },
        lifecycle: Lifecycle { added: version(1, 0), deprecated: version(1, 1), removed: None },
        authentication: AuthScheme::AccessToken,
        rate_limited: true,
        request_fields: vec![
            field("room_id", Placement::Path),
            field("txn_id", Placement::Path),
            field("ts", Placement::Query(Shape::Scalar)),
            field("content_type", Placement::Header("Content-Type".to_owned())),
            field("content", Placement::Body),
        ],
        response_fields: vec![field("event_id", Placement::Body)],
        error_type: None,
    }
}

#[test]
fn a_sound_definition_compiles() {
    let spec = endpoint();
    let (metadata, request, response) = compile(spec.clone()).unwrap();
    assert_eq!(
        metadata,
        Metadata {
            description: spec.description.clone(),
            method: Method::Put,
            name: spec.name.clone(),
            paths: spec.paths.clone(),
            lifecycle: spec.lifecycle,
            rate_limited: true,
            authentication: AuthScheme::AccessToken,
        }
    );
    assert_eq!(request.resolved().path.len(), 2);
    assert_eq!(request.resolved().body, vec![field("content", Placement::Body)]);
    assert_eq!(response.resolved().body, vec![field("event_id", Placement::Body)]);
    assert_eq!(response.error_type(), "MatrixError");
}

#[test]
fn a_definition_without_paths_has_no_path() {
    let mut spec = endpoint();
    spec.paths = Paths { unstable: None, r0: None, stable: None };
    assert_eq!(compile(spec).err(), Some(DefinitionError::NoPath));
    let mut spec = endpoint();
    spec.paths =
        Paths { unstable: Some("".to_owned()), r0: Some("".to_owned()), stable: Some("".to_owned()) };
    assert_eq!(compile(spec).err(), Some(DefinitionError::NoPath));
    let mut spec = endpoint();
    spec.paths = Paths { unstable: Some("".to_owned()), r0: None, stable: None };
    assert_eq!(compile(spec).err(), Some(DefinitionError::NoPath));
}

#[test]
fn raw_body_beside_body_is_conflicting() {
    let mut spec = endpoint();
    spec.request_fields.push(field("raw", Placement::RawBody));
    assert_eq!(compile(spec).err(), Some(DefinitionError::ConflictingBodyPlacement));
    let mut spec = endpoint();
    spec.response_fields.push(field("raw", Placement::RawBody));
    assert_eq!(compile(spec).err(), Some(DefinitionError::ConflictingBodyPlacement));
}

#[test]
fn deprecated_before_added_is_an_invalid_lifecycle() {
    let mut spec = endpoint();
    spec.lifecycle = Lifecycle { added: version(1, 2), deprecated: version(1, 1), removed: None };
    assert_eq!(compile(spec).err(), Some(DefinitionError::InvalidLifecycle));
    let mut spec = endpoint();
    spec.lifecycle =
        Lifecycle { added: version(1, 2), deprecated: version(1, 1), removed: version(1, 3) };
    assert_eq!(compile(spec).err(), Some(DefinitionError::InvalidLifecycle));
    let mut spec = endpoint();
    spec.lifecycle =
        Lifecycle { added: version(1, 0), deprecated: version(1, 3), removed: version(1, 2) };
    assert_eq!(compile(spec).err(), Some(DefinitionError::InvalidLifecycle));
    let mut spec = endpoint();
    spec.lifecycle = Lifecycle { added: version(2, 0), deprecated: None, removed: version(1, 9) };
    assert_eq!(compile(spec).err(), Some(DefinitionError::InvalidLifecycle));
}

#[test]
fn lifecycles_in_order_are_valid() {
    for lifecycle in [
        Lifecycle { added: None, deprecated: None, removed: None },
        Lifecycle { added: version(1, 0), deprecated: None, removed: None },
        Lifecycle { added: version(1, 1), deprecated: version(1, 1), removed: version(1, 1) },
        Lifecycle { added: version(0, 9), deprecated: version(1, 0), removed: version(2, 0) },
        Lifecycle { added: None, deprecated: version(1, 0), removed: version(1, 0) },
    ] {
        assert!(lifecycle.is_valid());
        let mut spec = endpoint();
        spec.lifecycle = lifecycle;
        assert!(compile(spec).is_ok());
    }
    assert!(Version { major: 1, minor: 9 }.le(&Version { major: 2, minor: 0 }));
    assert!(!Version { major: 2, minor: 0 }.le(&Version { major: 1, minor: 9 }));
}

#[test]
fn a_path_field_without_placeholder_is_unbound() {
    let mut spec = endpoint();
    spec.request_fields.push(field("session_id", Placement::Path));
    assert_eq!(compile(spec).err(), Some(DefinitionError::UnboundPathField));
}

#[test]
fn a_path_field_must_be_bound_in_every_template() {
    let mut spec = endpoint();
    spec.paths.unstable = Some("/_matrix/client/unstable/rooms/{room_id}/send".to_owned());
    assert_eq!(compile(spec).err(), Some(DefinitionError::UnboundPathField));
    let mut spec = endpoint();
    spec.paths.unstable = Some("".to_owned());
    assert!(compile(spec).is_ok());
    let mut spec = endpoint();
    spec.response_fields.push(field("session_id", Placement::Path));
    assert_eq!(compile(spec).err(), Some(DefinitionError::UnboundPathField));
}

#[test]
fn placements_on_the_error_type_are_unsupported() {
    let mut spec = endpoint();
    spec.error_type = Some(ErrorType { name: "Custom".to_owned(), placements: vec![Placement::Body] });
    assert_eq!(compile(spec).err(), Some(DefinitionError::UnsupportedPlacement));
    let mut spec = endpoint();
    spec.error_type = Some(ErrorType { name: "Custom".to_owned(), placements: vec![] });
    let (_, _, response) = compile(spec).unwrap();
    assert_eq!(response.error_type(), "Custom");
}

#[test]
fn two_query_maps_are_unsupported() {
    let mut spec = endpoint();
    spec.request_fields.push(field("rest", Placement::QueryMap));
    assert!(compile(spec.clone()).is_ok());
    spec.request_fields.push(field("more", Placement::QueryMap));
    assert_eq!(compile(spec).err(), Some(DefinitionError::UnsupportedPlacement));
}

#[test]
fn the_first_fault_decides() {
    let mut spec = endpoint();
    spec.paths = Paths { unstable: None, r0: None, stable: None };
    spec.lifecycle = Lifecycle { added: version(1, 2), deprecated: version(1, 1), removed: None };
    spec.request_fields.push(field("raw", Placement::RawBody));
    assert_eq!(compile(spec.clone()).err(), Some(DefinitionError::NoPath));
    spec.paths.stable = Some("/x".to_owned());
    assert_eq!(compile(spec.clone()).err(), Some(DefinitionError::InvalidLifecycle));
    spec.lifecycle.deprecated = None;
    assert_eq!(compile(spec.clone()).err(), Some(DefinitionError::ConflictingBodyPlacement));
    spec.request_fields.pop();
    assert_eq!(compile(spec).err(), Some(DefinitionError::UnboundPathField));
}

#[test]
fn compiling_twice_gives_equal_metadata() {
    let spec = endpoint();
    let (first, first_request, first_response) = compile(spec.clone()).unwrap();
    let (second, second_request, second_response) = compile(spec).unwrap();
    assert_eq!(first, second);
    assert_eq!(first_request, second_request);
    assert_eq!(first_response, second_response);
    let mut broken = endpoint();
    broken.paths = Paths { unstable: None, r0: None, stable: None };
    assert_eq!(compile(broken.clone()).err(), compile(broken).err());
}

#[test]
fn parsing_and_expanding_is_compiling() {
    let api = Api::parse(endpoint()).ok().unwrap();
    let (metadata, request, response) = api.expand_all();
    let (m, rq, rs) = compile(endpoint()).unwrap();
    assert_eq!(metadata, m);
    assert_eq!(request, rq);
    assert_eq!(response, rs);
    assert!(Api::parse(EndpointSpec { rate_limited: false, ..endpoint() }).is_ok());
}

#[test]
fn fields_are_resolved_by_placement_in_order() {
    let fields = vec![
        field("b1", Placement::Body),
        field("q1", Placement::Query(Shape::Scalar)),
        field("p1", Placement::Path),
        field("h1", Placement::Header("X-One".to_owned())),
        field("b2", Placement::Body),
        field("m", Placement::QueryMap),
        field("q2", Placement::Query(Shape::Scalar)),
        field("h2", Placement::Header("X-Two".to_owned())),
        field("p2", Placement::Path),
    ];
    assert_eq!(
        resolve(&fields),
        Ok(ResolvedFieldSet {
            body: vec![field("b1", Placement::Body), field("b2", Placement::Body)],
            query: vec![field("q1", Placement::Query(Shape::Scalar)), field("q2", Placement::Query(Shape::Scalar))],
            query_map: Some(field("m", Placement::QueryMap)),
            path: vec![field("p1", Placement::Path), field("p2", Placement::Path)],
            header: vec![
                field("h1", Placement::Header("X-One".to_owned())),
                field("h2", Placement::Header("X-Two".to_owned())),
            ],
            raw_body: None,
        })
    );
    assert_eq!(resolve(&vec![]).map(|set| set.body.len()), Ok(0));
}

#[test]
fn a_lone_raw_body_resolves() {
    let fields = vec![field("file", Placement::RawBody), field("name", Placement::Query(Shape::Scalar))];
    let set = resolve(&fields).unwrap();
    assert_eq!(set.raw_body, Some(field("file", Placement::RawBody)));
    assert!(set.body.is_empty());
}

#[test]
fn body_conflicts_are_found() {
    let two = vec![field("a", Placement::RawBody), field("b", Placement::RawBody)];
    assert_eq!(resolve(&two), Err(DefinitionError::ConflictingBodyPlacement));
    let mixed = vec![field("a", Placement::Body), field("b", Placement::RawBody)];
    assert_eq!(resolve(&mixed), Err(DefinitionError::ConflictingBodyPlacement));
    let both = vec![
        field("m1", Placement::QueryMap),
        field("m2", Placement::QueryMap),
        field("a", Placement::RawBody),
        field("b", Placement::RawBody),
    ];
    assert_eq!(resolve(&both), Err(DefinitionError::ConflictingBodyPlacement));
}

#[test]
fn sections_are_parsed() {
    let spec = endpoint();
    let request = parse_request(spec.method, &spec.paths, &spec.request_fields).unwrap();
    assert_eq!(request.resolved().query, vec![field("ts", Placement::Query(Shape::Scalar))]);
    let response =
        parse_response(spec.method, &spec.paths, &spec.response_fields, "E".to_owned()).unwrap();
    assert_eq!(response.error_type(), "E");
    let bad = vec![field("a", Placement::RawBody), field("b", Placement::RawBody)];
    assert_eq!(
        parse_request(spec.method, &spec.paths, &bad).err(),
        Some(DefinitionError::ConflictingBodyPlacement)
    );
    assert_eq!(
        parse_response(spec.method, &spec.paths, &bad, "E".to_owned()).err(),
        Some(DefinitionError::ConflictingBodyPlacement)
    );
}

#[test]
fn placements_have_kinds() {
    assert_eq!(Placement::Body.kind(), Kind::Body);
    assert_eq!(Placement::Query(Shape::Scalar).kind(), Kind::Query);
    assert_eq!(Placement::Query(Shape::Sequence).kind(), Kind::Query);
    assert_eq!(
        Placement::Query(Shape::Sequence).duplicate(),
        Placement::Query(Shape::Sequence)
    );
    assert_eq!(Placement::QueryMap.kind(), Kind::QueryMap);
    assert_eq!(Placement::Path.kind(), Kind::Path);
    assert_eq!(Placement::Header("A".to_owned()).kind(), Kind::Header);
    assert_eq!(Placement::RawBody.kind(), Kind::RawBody);
    assert_eq!(Placement::Header("A".to_owned()).duplicate(), Placement::Header("A".to_owned()));
}
