//! `GET /_matrix/identity/*/validate/msisdn/submitToken`
//!
//! Endpoint to validate the ownership of a phone number by the end user.

use vstd::prelude::*;
use crate::api::metadata::{AuthScheme, Lifecycle, Method, Paths, Version};
use crate::api::{EndpointSpec, FieldDescriptor, Placement};
use crate::error::DecodingError;
use crate::urlencoded::de::Part;
use crate::urlencoded::value::{Shape, Value, ValueView};
use crate::wire::{FieldValue, FieldValueView};

verus! {

/// The request: the three values travel in the query.
#[derive(Clone, Debug, PartialEq, Eq)]
pub struct Request {
    /// The session ID, generated by the `requestToken` call.
    pub sid: String,
    /// The client secret that was supplied to the `requestToken` call.
    pub client_secret: String,
    /// The token generated by the `requestToken` call and sent to the user.
    pub token: String,
}

impl Request {
    /// Create a new `Request` with the given session ID, client secret and
    /// token.
    pub fn new(sid: String, client_secret: String, token: String) -> (r: Self)
        ensures
            r.sid == sid,
            r.client_secret == client_secret,
            r.token == token,
    {
        Self { sid, client_secret, token }
    }

    /// The values of the fields as they travel, in declaration order:
    /// three scalars in the query.
    pub fn to_values(&self) -> (r: Vec<FieldValue>)
        ensures
            r.deep_view() == seq![
                FieldValueView::Query(ValueView::Scalar(self.sid@)),
                FieldValueView::Query(ValueView::Scalar(self.client_secret@)),
                FieldValueView::Query(ValueView::Scalar(self.token@)),
            ],
    {
        let mut r: Vec<FieldValue> = Vec::new();
        r.push(FieldValue::Query(Value::Scalar(Part(self.sid.clone()))));
        r.push(FieldValue::Query(Value::Scalar(Part(self.client_secret.clone()))));
        r.push(FieldValue::Query(Value::Scalar(Part(self.token.clone()))));
        assert(r.deep_view() =~= seq![
            FieldValueView::Query(ValueView::Scalar(self.sid@)),
            FieldValueView::Query(ValueView::Scalar(self.client_secret@)),
            FieldValueView::Query(ValueView::Scalar(self.token@)),
        ]);
        r
    }

    /// The request that the values of its fields make. There must be three
    /// values, each a scalar of the query: anything else is a structural
    /// mismatch.
    pub fn from_values(values: Vec<FieldValue>) -> (r: Result<Request, DecodingError>)
        ensures
            match r {
                Ok(request) => values.deep_view() == seq![
                    FieldValueView::Query(ValueView::Scalar(request.sid@)),
                    FieldValueView::Query(ValueView::Scalar(request.client_secret@)),
                    FieldValueView::Query(ValueView::Scalar(request.token@)),
                ],
                Err(e) => e == DecodingError::StructuralMismatch && !(values.len() == 3
                    && forall|i: int|
                    0 <= i < 3 ==> (#[trigger] values.deep_view()[i]) matches FieldValueView::Query(
                        ValueView::Scalar(_),
                    )),
            },
    {
        let mut values = values;
        let ghost all = values.deep_view();
        if values.len() != 3 {
            return Err(DecodingError::StructuralMismatch);
        }
        let token = values.pop();
        let client_secret = values.pop();
        let sid = values.pop();
        match (sid, client_secret, token) {
            (
                Some(FieldValue::Query(Value::Scalar(sid))),
                Some(FieldValue::Query(Value::Scalar(client_secret))),
                Some(FieldValue::Query(Value::Scalar(token))),
            ) => {
                assert(all =~= seq![
                    FieldValueView::Query(ValueView::Scalar(sid@)),
                    FieldValueView::Query(ValueView::Scalar(client_secret@)),
                    FieldValueView::Query(ValueView::Scalar(token@)),
                ]);
                Ok(Request { sid: sid.0, client_secret: client_secret.0, token: token.0 })
            },
            _ => {
                assert(all[0] == sid->0@);
                assert(all[1] == client_secret->0@);
                assert(all[2] == token->0@);
                Err(DecodingError::StructuralMismatch)
            },
        }
    }

    /// The fields of the request as the codec takes them: three scalars
    /// under the names `sid`, `client_secret` and `token`.
    pub fn to_record(&self) -> (r: Vec<(String, Value)>)
        ensures
            r.deep_view() == seq![
                ("sid"@, ValueView::Scalar(self.sid@)),
                ("client_secret"@, ValueView::Scalar(self.client_secret@)),
                ("token"@, ValueView::Scalar(self.token@)),
            ],
    {
        let mut r: Vec<(String, Value)> = Vec::new();
        r.push(("sid".to_owned(), Value::Scalar(Part(self.sid.clone()))));
        r.push(("client_secret".to_owned(), Value::Scalar(Part(self.client_secret.clone()))));
        r.push(("token".to_owned(), Value::Scalar(Part(self.token.clone()))));
        assert(r.deep_view() =~= seq![
            ("sid"@, ValueView::Scalar(self.sid@)),
            ("client_secret"@, ValueView::Scalar(self.client_secret@)),
            ("token"@, ValueView::Scalar(self.token@)),
        ]);
        r
    }
}

/// The response: it has no content.
#[derive(Clone, Copy, Debug, Default, PartialEq, Eq, Structural)]
pub struct Response {}

impl Response {
    /// Create a new empty `Response`.
    pub fn new() -> (r: Self)
        ensures
            r == (Response {  }),
    {
        Self {  }
    }
}

/// A query field of the given name.
fn query_field(name: &str, value_type: &str) -> (r: FieldDescriptor)
    ensures
        r@.name == name@,
        r@.value_type == value_type@,
        r@.placement == crate::api::PlacementView::Query(Shape::Scalar),
{
    FieldDescriptor {
        name: name.to_owned(),
        value_type: value_type.to_owned(),
        placement: Placement::Query(Shape::Scalar),
    }
}

/// The definition of the endpoint. It has no fault.
pub fn definition() -> (r: EndpointSpec)
    ensures
        r@.fault() is None,
        r@.description == "Validate ownership of an email address."@,
        r@.method == Method::Get,
        r@.name == "validate_email_by_end_user"@,
        r@.paths.unstable is None,
        r@.paths.r0 is None,
        r@.paths.stable == Some("/_matrix/identity/v2/validate/msisdn/submitToken"@),
        r@.lifecycle == (Lifecycle {
            added: Some(Version { major: 1, minor: 0 }),
            deprecated: None,
            removed: None,
        }),
        r@.authentication == AuthScheme::AccessToken,
        !r@.rate_limited,
        r@.request_fields.len() == 3,
        r@.request_fields[0].name == "sid"@,
        r@.request_fields[1].name == "client_secret"@,
        r@.request_fields[2].name == "token"@,
        forall|i: int|
            0 <= i < 3 ==> (#[trigger] r@.request_fields[i]).placement
                == crate::api::PlacementView::Query(Shape::Scalar),
        r@.response_fields.len() == 0,
        r@.error_type is None,
{
    let mut request_fields: Vec<FieldDescriptor> = Vec::new();
    request_fields.push(query_field("sid", "SessionId"));
    request_fields.push(query_field("client_secret", "ClientSecret"));
    request_fields.push(query_field("token", "str"));
    let spec = EndpointSpec {
        description: "Validate ownership of an email address.".to_owned(),
        method: Method::Get,
        name: "validate_email_by_end_user".to_owned(),
        paths: Paths {
            unstable: None,
            r0: None,
            stable: Some("/_matrix/identity/v2/validate/msisdn/submitToken".to_owned()),
        },
        lifecycle: Lifecycle {
            added: Some(Version { major: 1, minor: 0 }),
            deprecated: None,
            removed: None,
        },
        authentication: AuthScheme::AccessToken,
        rate_limited: false,
        request_fields,
        response_fields: Vec::new(),
        error_type: None,
    };
    proof {
        reveal_strlit("/_matrix/identity/v2/validate/msisdn/submitToken");
        lemma_no_special_fields(spec@.request_fields);
        lemma_no_special_fields(spec@.response_fields);
    }
    spec
}

/// Fields that all travel in the query resolve, and none of them needs a
/// placeholder.
proof fn lemma_no_special_fields(fields: Seq<crate::api::FieldView>)
    requires
        forall|i: int|
            0 <= i < fields.len() ==> (#[trigger] fields[i]).placement
                == crate::api::PlacementView::Query(Shape::Scalar),
    ensures
        crate::api::resolved(fields) is Ok,
        forall|paths: crate::api::metadata::PathsView| crate::api::all_bound(paths, fields),
{
    lemma_none_placed(fields, crate::api::Kind::RawBody);
    lemma_none_placed(fields, crate::api::Kind::QueryMap);
}

/// Among fields that all travel in the query, none is of another kind.
proof fn lemma_none_placed(fields: Seq<crate::api::FieldView>, kind: crate::api::Kind)
    requires
        kind != crate::api::Kind::Query,
        forall|i: int|
            0 <= i < fields.len() ==> (#[trigger] fields[i]).placement
                == crate::api::PlacementView::Query(Shape::Scalar),
    ensures
        crate::api::placed(fields, kind).len() == 0,
    decreases fields.len(),
{
    if fields.len() > 0 {
        let front = fields.drop_last();
        assert forall|i: int| 0 <= i < front.len() implies (#[trigger] front[i]).placement
            == crate::api::PlacementView::Query(Shape::Scalar) by {
            assert(front[i] == fields[i]);
        }
        lemma_none_placed(front, kind);
        assert(fields.last() == fields[fields.len() - 1]);
    }
}

} // verus!
