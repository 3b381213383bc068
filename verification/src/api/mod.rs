//! Endpoint definitions and their validation.
//!
//! An endpoint is defined by an [`EndpointSpec`]. [`compile`] checks the
//! definition as a whole and, if it holds, gives the endpoint's
//! [`Metadata`] and the bindings of its request and response. A definition
//! that is refused is refused with the first fault found, in a fixed order.

use vstd::prelude::*;
use crate::error::DefinitionError;
use crate::path::{has_placeholder, segments_of, PathTemplate};
use crate::urlencoded::value::Shape;

pub mod binding;
pub mod laws;
pub mod metadata;
pub mod request;
pub mod response;

use self::metadata::{
    is_present, opt_text, present, AuthScheme, Lifecycle, Metadata, MetadataView, Method, Paths,
    PathsView,
};
use self::request::{RequestBinding, RequestView};
use self::response::{ResponseBinding, ResponseView};

verus! {

/// Where the value of a field travels on the wire.
#[derive(Clone, Debug, PartialEq, Eq)]
pub enum Placement {
    /// In the structured payload of the body.
    Body,
    /// In the query, under the field's name, as one value or as any
    /// number of values in order.
    Query(Shape),
    /// In the query, as any number of entries under keys of their own.
    QueryMap,
    /// In the path, at the placeholder of the field's name.
    Path,
    /// In the header of the given name.
    Header(String),
    /// As the whole body, verbatim.
    RawBody,
}

/// The kind of a placement.
#[derive(Clone, Copy, Debug, PartialEq, Eq, Structural)]
pub enum Kind {
    Body,
    Query,
    QueryMap,
    Path,
    Header,
    RawBody,
}

/// The content of a [`Placement`].
pub enum PlacementView {
    Body,
    Query(Shape),
    QueryMap,
    Path,
    Header(Seq<char>),
    RawBody,
}

impl PlacementView {
    /// The kind of the placement.
    pub open spec fn kind(self) -> Kind {
        match self {
            PlacementView::Body => Kind::Body,
            PlacementView::Query(_) => Kind::Query,
            PlacementView::QueryMap => Kind::QueryMap,
            PlacementView::Path => Kind::Path,
            PlacementView::Header(_) => Kind::Header,
            PlacementView::RawBody => Kind::RawBody,
        }
    }
}

impl View for Placement {
    type V = PlacementView;

    open spec fn view(&self) -> PlacementView {
        match self {
            Placement::Body => PlacementView::Body,
            Placement::Query(shape) => PlacementView::Query(*shape),
            Placement::QueryMap => PlacementView::QueryMap,
            Placement::Path => PlacementView::Path,
            Placement::Header(name) => PlacementView::Header(name@),
            Placement::RawBody => PlacementView::RawBody,
        }
    }
}

impl Placement {
    /// The kind of the placement.
    pub fn kind(&self) -> (r: Kind)
        ensures
            r == self@.kind(),
    {
        match self {
            Placement::Body => Kind::Body,
            Placement::Query(_) => Kind::Query,
            Placement::QueryMap => Kind::QueryMap,
            Placement::Path => Kind::Path,
            Placement::Header(_) => Kind::Header,
            Placement::RawBody => Kind::RawBody,
        }
    }

    /// A copy of the placement.
    pub fn duplicate(&self) -> (r: Placement)
        ensures
            r@ == self@,
    {
        match self {
            Placement::Body => Placement::Body,
            Placement::Query(shape) => Placement::Query(*shape),
            Placement::QueryMap => Placement::QueryMap,
            Placement::Path => Placement::Path,
            Placement::Header(name) => Placement::Header(name.clone()),
            Placement::RawBody => Placement::RawBody,
        }
    }
}

/// A field of a request or a response.
#[derive(Clone, Debug, PartialEq, Eq)]
pub struct FieldDescriptor {
    pub name: String,
    pub value_type: String,
    pub placement: Placement,
}

/// The content of a [`FieldDescriptor`].
pub struct FieldView {
    pub name: Seq<char>,
    pub value_type: Seq<char>,
    pub placement: PlacementView,
}

impl View for FieldDescriptor {
    type V = FieldView;

    open spec fn view(&self) -> FieldView {
        FieldView { name: self.name@, value_type: self.value_type@, placement: self.placement@ }
    }
}

impl DeepView for FieldDescriptor {
    type V = FieldView;

    open spec fn deep_view(&self) -> FieldView {
        self@
    }
}

impl FieldDescriptor {
    /// A copy of the field.
    pub fn duplicate(&self) -> (r: FieldDescriptor)
        ensures
            r@ == self@,
    {
        FieldDescriptor {
            name: self.name.clone(),
            value_type: self.value_type.clone(),
            placement: self.placement.duplicate(),
        }
    }
}

/// A copy of each field, in order.
pub(crate) fn duplicate_fields(fields: &Vec<FieldDescriptor>) -> (r: Vec<FieldDescriptor>)
    ensures
        r.deep_view() == fields.deep_view(),
{
    let mut r: Vec<FieldDescriptor> = Vec::new();
    let mut i: usize = 0;
    while i < fields.len()
        invariant
            i <= fields.len(),
            r.len() == i,
            forall|j: int| 0 <= j < i ==> (#[trigger] r.deep_view()[j]) == fields.deep_view()[j],
        decreases fields.len() - i,
    {
        let ghost before = r.deep_view();
        r.push(fields[i].duplicate());
        assert(r.deep_view() =~= before.push(fields[i as int]@));
        i += 1;
    }
    assert(r.deep_view() =~= fields.deep_view());
    r
}

/// The fields of the given kind of placement, in declaration order.
pub open spec fn placed(fields: Seq<FieldView>, kind: Kind) -> Seq<FieldView>
    decreases fields.len(),
{
    if fields.len() == 0 {
        Seq::empty()
    } else if fields.last().placement.kind() == kind {
        placed(fields.drop_last(), kind).push(fields.last())
    } else {
        placed(fields.drop_last(), kind)
    }
}

/// The fields of a message, sorted by where they travel.
#[derive(Clone, Debug, PartialEq, Eq)]
pub struct ResolvedFieldSet {
    /// The body fields, in the order in which the payload holds them.
    pub body: Vec<FieldDescriptor>,
    /// The query fields.
    pub query: Vec<FieldDescriptor>,
    /// The field that catches the query keys that no other field takes.
    pub query_map: Option<FieldDescriptor>,
    /// The path fields.
    pub path: Vec<FieldDescriptor>,
    /// The header fields.
    pub header: Vec<FieldDescriptor>,
    /// The field that is the whole body.
    pub raw_body: Option<FieldDescriptor>,
}

/// The content of a [`ResolvedFieldSet`].
pub struct ResolvedView {
    pub body: Seq<FieldView>,
    pub query: Seq<FieldView>,
    pub query_map: Option<FieldView>,
    pub path: Seq<FieldView>,
    pub header: Seq<FieldView>,
    pub raw_body: Option<FieldView>,
}

/// The content of an optional field.
pub open spec fn opt_field(field: Option<FieldDescriptor>) -> Option<FieldView> {
    match field {
        Some(f) => Some(f@),
        None => None,
    }
}

/// The only element of a sequence of at most one.
pub open spec fn single(fields: Seq<FieldView>) -> Option<FieldView> {
    if fields.len() == 0 {
        None
    } else {
        Some(fields[0])
    }
}

impl View for ResolvedFieldSet {
    type V = ResolvedView;

    open spec fn view(&self) -> ResolvedView {
        ResolvedView {
            body: self.body.deep_view(),
            query: self.query.deep_view(),
            query_map: opt_field(self.query_map),
            path: self.path.deep_view(),
            header: self.header.deep_view(),
            raw_body: opt_field(self.raw_body),
        }
    }
}

/// What resolving the fields of a message gives. A message has at most one
/// raw body field, and none beside body fields: both are two ways to write
/// the same payload. It has at most one query map. The first of these
/// rules that is broken decides the error.
pub open spec fn resolved(fields: Seq<FieldView>) -> Result<ResolvedView, DefinitionError> {
    let raw = placed(fields, Kind::RawBody);
    let maps = placed(fields, Kind::QueryMap);
    if raw.len() > 1 || (raw.len() == 1 && placed(fields, Kind::Body).len() > 0) {
        Err(DefinitionError::ConflictingBodyPlacement)
    } else if maps.len() > 1 {
        Err(DefinitionError::UnsupportedPlacement)
    } else {
        Ok(
            ResolvedView {
                body: placed(fields, Kind::Body),
                query: placed(fields, Kind::Query),
                query_map: single(maps),
                path: placed(fields, Kind::Path),
                header: placed(fields, Kind::Header),
                raw_body: single(raw),
            },
        )
    }
}

/// Sorts the fields of a message by where they travel and checks the
/// rules on placements. The order of the fields is kept within each place.
pub fn resolve(fields: &Vec<FieldDescriptor>) -> (r: Result<ResolvedFieldSet, DefinitionError>)
    ensures
        match r {
            Ok(set) => resolved(fields.deep_view()) == Ok::<ResolvedView, DefinitionError>(set@),
            Err(e) => resolved(fields.deep_view()) == Err::<ResolvedView, DefinitionError>(e),
        },
{
    let mut body: Vec<FieldDescriptor> = Vec::new();
    let mut query: Vec<FieldDescriptor> = Vec::new();
    let mut maps: Vec<FieldDescriptor> = Vec::new();
    let mut path: Vec<FieldDescriptor> = Vec::new();
    let mut header: Vec<FieldDescriptor> = Vec::new();
    let mut raw: Vec<FieldDescriptor> = Vec::new();
    let ghost all = fields.deep_view();
    let mut i: usize = 0;
    assert(all.take(0) =~= Seq::empty());
    assert(body.deep_view() =~= Seq::empty());
    assert(query.deep_view() =~= Seq::empty());
    assert(maps.deep_view() =~= Seq::empty());
    assert(path.deep_view() =~= Seq::empty());
    assert(header.deep_view() =~= Seq::empty());
    assert(raw.deep_view() =~= Seq::empty());
    while i < fields.len()
        invariant
            i <= fields.len(),
            all == fields.deep_view(),
            body.deep_view() == placed(all.take(i as int), Kind::Body),
            query.deep_view() == placed(all.take(i as int), Kind::Query),
            maps.deep_view() == placed(all.take(i as int), Kind::QueryMap),
            path.deep_view() == placed(all.take(i as int), Kind::Path),
            header.deep_view() == placed(all.take(i as int), Kind::Header),
            raw.deep_view() == placed(all.take(i as int), Kind::RawBody),
        decreases fields.len() - i,
    {
        let field = fields[i].duplicate();
        assert(all.take(i + 1).drop_last() =~= all.take(i as int));
        assert(all.take(i + 1).last() == fields[i as int]@);
        match field.placement.kind() {
            Kind::Body => {
                let ghost before = body.deep_view();
                body.push(field);
                assert(body.deep_view() =~= before.push(field@));
            },
            Kind::Query => {
                let ghost before = query.deep_view();
                query.push(field);
                assert(query.deep_view() =~= before.push(field@));
            },
            Kind::QueryMap => {
                let ghost before = maps.deep_view();
                maps.push(field);
                assert(maps.deep_view() =~= before.push(field@));
            },
            Kind::Path => {
                let ghost before = path.deep_view();
                path.push(field);
                assert(path.deep_view() =~= before.push(field@));
            },
            Kind::Header => {
                let ghost before = header.deep_view();
                header.push(field);
                assert(header.deep_view() =~= before.push(field@));
            },
            Kind::RawBody => {
                let ghost before = raw.deep_view();
                raw.push(field);
                assert(raw.deep_view() =~= before.push(field@));
            },
        }
        i += 1;
    }
    assert(all.take(fields.len() as int) =~= all);
    if raw.len() > 1 || (raw.len() == 1 && body.len() > 0) {
        return Err(DefinitionError::ConflictingBodyPlacement);
    }
    if maps.len() > 1 {
        return Err(DefinitionError::UnsupportedPlacement);
    }
    let ghost raw_view = raw.deep_view();
    let ghost maps_view = maps.deep_view();
    let raw_body = raw.pop();
    let query_map = maps.pop();
    assert(opt_field(raw_body) == single(raw_view));
    assert(opt_field(query_map) == single(maps_view));
    Ok(ResolvedFieldSet { body, query, query_map, path, header, raw_body })
}

/// The type that non-success responses are decoded as.
#[derive(Clone, Debug, PartialEq, Eq)]
pub struct ErrorType {
    /// The name of the type.
    pub name: String,
    /// The placements written on it. There is no place for an error type
    /// to travel, so a definition that writes any is refused.
    pub placements: Vec<Placement>,
}

/// The definition of an endpoint, as its author writes it.
#[derive(Clone, Debug, PartialEq, Eq)]
pub struct EndpointSpec {
    pub description: String,
    pub method: Method,
    pub name: String,
    pub paths: Paths,
    pub lifecycle: Lifecycle,
    pub authentication: AuthScheme,
    pub rate_limited: bool,
    pub request_fields: Vec<FieldDescriptor>,
    pub response_fields: Vec<FieldDescriptor>,
    pub error_type: Option<ErrorType>,
}

/// The content of an [`EndpointSpec`]. Of the error type it holds the name
/// and the number of placements written on it.
pub struct EndpointView {
    pub description: Seq<char>,
    pub method: Method,
    pub name: Seq<char>,
    pub paths: PathsView,
    pub lifecycle: Lifecycle,
    pub authentication: AuthScheme,
    pub rate_limited: bool,
    pub request_fields: Seq<FieldView>,
    pub response_fields: Seq<FieldView>,
    pub error_type: Option<(Seq<char>, nat)>,
}

impl View for EndpointSpec {
    type V = EndpointView;

    open spec fn view(&self) -> EndpointView {
        EndpointView {
            description: self.description@,
            method: self.method,
            name: self.name@,
            paths: self.paths@,
            lifecycle: self.lifecycle,
            authentication: self.authentication,
            rate_limited: self.rate_limited,
            request_fields: self.request_fields.deep_view(),
            response_fields: self.response_fields.deep_view(),
            error_type: match self.error_type {
                Some(t) => Some((t.name@, t.placements@.len())),
                None => None,
            },
        }
    }
}

/// The name of the protocol's standard error type.
pub open spec fn standard_error() -> Seq<char> {
    seq!['M', 'a', 't', 'r', 'i', 'x', 'E', 'r', 'r', 'o', 'r']
}

/// The template, if present, has a placeholder of the given name.
pub open spec fn bound_in(template: Option<Seq<char>>, name: Seq<char>) -> bool {
    present(template) ==> has_placeholder(segments_of(template->0), name)
}

/// Every template that is present has a placeholder of the given name.
pub open spec fn bound(paths: PathsView, name: Seq<char>) -> bool {
    bound_in(paths.unstable, name) && bound_in(paths.r0, name) && bound_in(paths.stable, name)
}

/// Every path field among `fields` is bound in every template that is
/// present.
pub open spec fn all_bound(paths: PathsView, fields: Seq<FieldView>) -> bool {
    forall|i: int|
        0 <= i < fields.len() && (#[trigger] fields[i]).placement.kind() == Kind::Path ==> bound(
            paths,
            fields[i].name,
        )
}

impl EndpointView {
    /// The first fault of the definition, if it has one. The checks run
    /// in this order: a path template is present; the lifecycle markers are
    /// in order; the request fields resolve; the response fields resolve;
    /// the error type has no placement; every path field is bound in every
    /// template that is present.
    pub open spec fn fault(self) -> Option<DefinitionError> {
        if !self.paths.any() {
            Some(DefinitionError::NoPath)
        } else if !self.lifecycle.valid() {
            Some(DefinitionError::InvalidLifecycle)
        } else if resolved(self.request_fields) is Err {
            Some(resolved(self.request_fields)->Err_0)
        } else if resolved(self.response_fields) is Err {
            Some(resolved(self.response_fields)->Err_0)
        } else if self.error_type matches Some(t) && t.1 > 0 {
            Some(DefinitionError::UnsupportedPlacement)
        } else if !all_bound(self.paths, self.request_fields) || !all_bound(
            self.paths,
            self.response_fields,
        ) {
            Some(DefinitionError::UnboundPathField)
        } else {
            None
        }
    }

    /// The metadata of the endpoint: taken over from the definition as it
    /// stands.
    pub open spec fn metadata(self) -> MetadataView {
        MetadataView {
            description: self.description,
            method: self.method,
            name: self.name,
            paths: self.paths,
            lifecycle: self.lifecycle,
            rate_limited: self.rate_limited,
            authentication: self.authentication,
        }
    }

    /// The binding of the request.
    pub open spec fn request(self) -> RequestView {
        RequestView { method: self.method, paths: self.paths, fields: self.request_fields }
    }

    /// The binding of the response.
    pub open spec fn response(self) -> ResponseView {
        ResponseView {
            method: self.method,
            paths: self.paths,
            fields: self.response_fields,
            error_type: match self.error_type {
                Some(t) => t.0,
                None => standard_error(),
            },
        }
    }
}

/// A checked endpoint definition, ready to give its metadata and bindings.
pub struct Api {
    metadata: Metadata,
    request: RequestBinding,
    response: ResponseBinding,
}

/// The content of an [`Api`].
pub struct ApiView {
    pub metadata: MetadataView,
    pub request: RequestView,
    pub response: ResponseView,
}

impl View for Api {
    type V = ApiView;

    closed spec fn view(&self) -> ApiView {
        ApiView { metadata: self.metadata@, request: self.request@, response: self.response@ }
    }
}

/// Whether a template has a placeholder of the given name, if it is present.
fn is_bound_in(template: &Option<String>, name: &str) -> (r: bool)
    ensures
        r == bound_in(opt_text(*template), name@),
{
    if is_present(template) {
        match template {
            Some(t) => PathTemplate::new(t.as_str()).binds(name),
            None => true,
        }
    } else {
        true
    }
}

/// Whether every path field among `fields` is bound in every template
/// that is present.
fn are_bound(paths: &Paths, fields: &Vec<FieldDescriptor>) -> (r: bool)
    ensures
        r == all_bound(paths@, fields.deep_view()),
{
    let mut i: usize = 0;
    while i < fields.len()
        invariant
            i <= fields.len(),
            forall|j: int|
                0 <= j < i && (#[trigger] fields.deep_view()[j]).placement.kind() == Kind::Path
                    ==> bound(paths@, fields.deep_view()[j].name),
        decreases fields.len() - i,
    {
        assert(fields.deep_view()[i as int] == fields[i as int]@);
        if fields[i].placement.kind() == Kind::Path {
            let name = fields[i].name.as_str();
            if !(is_bound_in(&paths.unstable, name) && is_bound_in(&paths.r0, name) && is_bound_in(
                &paths.stable,
                name,
            )) {
                return false;
            }
        }
        i += 1;
    }
    true
}

/// Resolves the fields of the request of an endpoint and binds them to
/// the endpoint's method and path templates.
pub fn parse_request(method: Method, paths: &Paths, fields: &Vec<FieldDescriptor>) -> (r: Result<
    RequestBinding,
    DefinitionError,
>)
    ensures
        match r {
            Ok(binding) => resolved(fields.deep_view()) is Ok && binding@ == (RequestView {
                method,
                paths: paths@,
                fields: fields.deep_view(),
            }),
            Err(e) => resolved(fields.deep_view()) == Err::<ResolvedView, DefinitionError>(e),
        },
{
    match resolve(fields) {
        Ok(set) => Ok(RequestBinding::new(method, paths.duplicate(), duplicate_fields(fields), set)),
        Err(e) => Err(e),
    }
}

/// Resolves the fields of the response of an endpoint and binds them to
/// the endpoint's method and path templates, together with the type that
/// non-success responses are decoded as.
pub fn parse_response(
    method: Method,
    paths: &Paths,
    fields: &Vec<FieldDescriptor>,
    error_type: String,
) -> (r: Result<ResponseBinding, DefinitionError>)
    ensures
        match r {
            Ok(binding) => resolved(fields.deep_view()) is Ok && binding@ == (ResponseView {
                method,
                paths: paths@,
                fields: fields.deep_view(),
                error_type: error_type@,
            }),
            Err(e) => resolved(fields.deep_view()) == Err::<ResolvedView, DefinitionError>(e),
        },
{
    match resolve(fields) {
        Ok(set) => Ok(
            ResponseBinding::new(method, paths.duplicate(), duplicate_fields(fields), error_type, set),
        ),
        Err(e) => Err(e),
    }
}

impl Api {
    /// Checks a definition. It is accepted if and only if it has no fault,
    /// and refused with its first fault otherwise.
    pub fn parse(spec: EndpointSpec) -> (r: Result<Api, DefinitionError>)
        ensures
            match r {
                Ok(api) => spec@.fault() is None && api@ == (ApiView {
                    metadata: spec@.metadata(),
                    request: spec@.request(),
                    response: spec@.response(),
                }),
                Err(e) => spec@.fault() == Some(e),
            },
    {
        if !spec.paths.has_any() {
            return Err(DefinitionError::NoPath);
        }
        if !spec.lifecycle.is_valid() {
            return Err(DefinitionError::InvalidLifecycle);
        }
        let request = parse_request(spec.method, &spec.paths, &spec.request_fields)?;
        let error_type = match &spec.error_type {
            Some(t) => t.name.clone(),
            None => {
                proof {
                    reveal_strlit("MatrixError");
                }
                assert("MatrixError"@ =~= standard_error());
                "MatrixError".to_owned()
            },
        };
        let response = parse_response(spec.method, &spec.paths, &spec.response_fields, error_type)?;
        match &spec.error_type {
            Some(t) => {
                if t.placements.len() > 0 {
                    return Err(DefinitionError::UnsupportedPlacement);
                }
            },
            None => {},
        }
        if !are_bound(&spec.paths, &spec.request_fields) || !are_bound(
            &spec.paths,
            &spec.response_fields,
        ) {
            return Err(DefinitionError::UnboundPathField);
        }
        let metadata = Metadata {
            description: spec.description,
            method: spec.method,
            name: spec.name,
            paths: spec.paths,
            lifecycle: spec.lifecycle,
            rate_limited: spec.rate_limited,
            authentication: spec.authentication,
        };
        Ok(Api { metadata, request, response })
    }

    /// Gives out the metadata and the bindings of the endpoint.
    pub fn expand_all(self) -> (r: (Metadata, RequestBinding, ResponseBinding))
        ensures
            r.0@ == self@.metadata,
            r.1@ == self@.request,
            r.2@ == self@.response,
    {
        (self.metadata, self.request, self.response)
    }
}

/// What [`compile`] gives for a definition: the first fault if there is
/// one, else the metadata and bindings that the definition determines.
pub open spec fn compiled(
    spec: EndpointView,
    r: Result<(Metadata, RequestBinding, ResponseBinding), DefinitionError>,
) -> bool {
    match r {
        Ok((metadata, request, response)) => {
            &&& spec.fault() is None
            &&& metadata@ == spec.metadata()
            &&& request@ == spec.request()
            &&& response@ == spec.response()
        },
        Err(e) => spec.fault() == Some(e),
    }
}

/// Validates an endpoint definition and gives its metadata and the
/// bindings of its request and response.
pub fn compile(spec: EndpointSpec) -> (r: Result<
    (Metadata, RequestBinding, ResponseBinding),
    DefinitionError,
>)
    ensures
        compiled(spec@, r),
{
    match Api::parse(spec) {
        Ok(api) => Ok(api.expand_all()),
        Err(e) => Err(e),
    }
}

/// Compiling is a function of the definition: two definitions with the
/// same content, such as a definition and its clone, are both accepted or
/// both refused with the same error, and if accepted give the same
/// metadata and the same bindings.
pub proof fn lemma_compile_deterministic(
    first: EndpointSpec,
    second: EndpointSpec,
    r1: Result<(Metadata, RequestBinding, ResponseBinding), DefinitionError>,
    r2: Result<(Metadata, RequestBinding, ResponseBinding), DefinitionError>,
)
    requires
        first@ == second@,
        compiled(first@, r1),
        compiled(second@, r2),
    ensures
        r1 is Ok <==> r2 is Ok,
        r1 is Err ==> r1->Err_0 == r2->Err_0,
        r1 is Ok ==> {
            &&& r1->Ok_0.0@ == r2->Ok_0.0@
            &&& r1->Ok_0.1@ == r2->Ok_0.1@
            &&& r1->Ok_0.2@ == r2->Ok_0.2@
        },
{
}

} // verus!
