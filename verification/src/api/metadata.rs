//! Metadata of an endpoint.

use vstd::prelude::*;

verus! {

/// The HTTP verb of an endpoint.
#[derive(Clone, Copy, Debug, PartialEq, Eq, Structural)]
pub enum Method {
    Get,
    Post,
    Put,
    Delete,
    Head,
    Options,
    Connect,
    Patch,
    Trace,
}

/// How a request to an endpoint is authenticated.
#[derive(Clone, Copy, Debug, PartialEq, Eq, Structural)]
pub enum AuthScheme {
    /// No authentication.
    Unauthenticated,
    /// An access token in a header or in the query.
    AccessToken,
    /// A signature of the sending server.
    ServerSignature,
    /// An access token in the query only.
    QueryOnlyAccessToken,
}

/// A version of the protocol.
#[derive(Clone, Copy, Debug, PartialEq, Eq, Structural)]
pub struct Version {
    pub major: u8,
    pub minor: u8,
}

impl Version {
    /// `self` is `other` or comes before it.
    pub open spec fn at_most(self, other: Version) -> bool {
        self.major < other.major || (self.major == other.major && self.minor <= other.minor)
    }

    /// Whether `self` is `other` or comes before it.
    pub fn le(&self, other: &Version) -> (r: bool)
        ensures
            r == self.at_most(*other),
    {
        self.major < other.major || (self.major == other.major && self.minor <= other.minor)
    }
}

/// The versions at which an endpoint was added, deprecated and removed.
#[derive(Clone, Copy, Debug, PartialEq, Eq)]
pub struct Lifecycle {
    pub added: Option<Version>,
    pub deprecated: Option<Version>,
    pub removed: Option<Version>,
}

/// `earlier` and `later` are in order, if both are present.
pub open spec fn in_order(earlier: Option<Version>, later: Option<Version>) -> bool {
    match (earlier, later) {
        (Some(a), Some(b)) => a.at_most(b),
        _ => true,
    }
}

impl Lifecycle {
    /// The markers that are present are in order: added, then deprecated,
    /// then removed.
    pub open spec fn valid(self) -> bool {
        &&& in_order(self.added, self.deprecated)
        &&& in_order(self.deprecated, self.removed)
        &&& in_order(self.added, self.removed)
    }

    /// Whether the markers that are present are in order.
    pub fn is_valid(&self) -> (r: bool)
        ensures
            r == self.valid(),
    {
        ordered(&self.added, &self.deprecated) && ordered(&self.deprecated, &self.removed)
            && ordered(&self.added, &self.removed)
    }
}

/// Whether two markers are in order, if both are present.
fn ordered(earlier: &Option<Version>, later: &Option<Version>) -> (r: bool)
    ensures
        r == in_order(*earlier, *later),
{
    match (earlier, later) {
        (Some(a), Some(b)) => a.le(b),
        _ => true,
    }
}

/// The text of an optional string.
pub open spec fn opt_text(text: Option<String>) -> Option<Seq<char>> {
    match text {
        Some(t) => Some(t@),
        None => None,
    }
}

/// A copy of an optional string.
pub(crate) fn duplicate_opt(text: &Option<String>) -> (r: Option<String>)
    ensures
        opt_text(r) == opt_text(*text),
{
    match text {
        Some(t) => Some(t.clone()),
        None => None,
    }
}

/// The path templates of an endpoint, one for each stability tier.
#[derive(Clone, Debug, PartialEq, Eq)]
pub struct Paths {
    pub unstable: Option<String>,
    pub r0: Option<String>,
    pub stable: Option<String>,
}

/// The text of the path templates of an endpoint.
pub struct PathsView {
    pub unstable: Option<Seq<char>>,
    pub r0: Option<Seq<char>>,
    pub stable: Option<Seq<char>>,
}

/// The template is there: given and not empty.
pub open spec fn present(template: Option<Seq<char>>) -> bool {
    template matches Some(t) && t.len() > 0
}

impl PathsView {
    /// At least one template is present.
    pub open spec fn any(self) -> bool {
        present(self.unstable) || present(self.r0) || present(self.stable)
    }
}

impl View for Paths {
    type V = PathsView;

    open spec fn view(&self) -> PathsView {
        PathsView {
            unstable: opt_text(self.unstable),
            r0: opt_text(self.r0),
            stable: opt_text(self.stable),
        }
    }
}

/// Whether a template is given and not empty.
pub fn is_present(template: &Option<String>) -> (r: bool)
    ensures
        r == present(opt_text(*template)),
{
    match template {
        Some(t) => t.as_str().unicode_len() > 0,
        None => false,
    }
}

impl Paths {
    /// Whether at least one template is present.
    pub fn has_any(&self) -> (r: bool)
        ensures
            r == self@.any(),
    {
        is_present(&self.unstable) || is_present(&self.r0) || is_present(&self.stable)
    }

    /// A copy of the templates.
    pub fn duplicate(&self) -> (r: Paths)
        ensures
            r@ == self@,
    {
        Paths {
            unstable: duplicate_opt(&self.unstable),
            r0: duplicate_opt(&self.r0),
            stable: duplicate_opt(&self.stable),
        }
    }
}

/// What the transport and the version negotiation need to know of an
/// endpoint. It is made once, when the endpoint is defined, and only read
/// afterwards.
#[derive(Clone, Debug, PartialEq, Eq)]
pub struct Metadata {
    /// A human-readable description of the endpoint.
    pub description: String,
    /// The HTTP verb.
    pub method: Method,
    /// A unique identifier of the endpoint.
    pub name: String,
    /// The path templates.
    pub paths: Paths,
    /// The lifecycle markers.
    pub lifecycle: Lifecycle,
    /// Whether the endpoint is rate-limited.
    pub rate_limited: bool,
    /// How requests are authenticated.
    pub authentication: AuthScheme,
}

/// The content of a [`Metadata`].
pub struct MetadataView {
    pub description: Seq<char>,
    pub method: Method,
    pub name: Seq<char>,
    pub paths: PathsView,
    pub lifecycle: Lifecycle,
    pub rate_limited: bool,
    pub authentication: AuthScheme,
}

impl View for Metadata {
    type V = MetadataView;

    open spec fn view(&self) -> MetadataView {
        MetadataView {
            description: self.description@,
            method: self.method,
            name: self.name@,
            paths: self.paths@,
            lifecycle: self.lifecycle,
            rate_limited: self.rate_limited,
            authentication: self.authentication,
        }
    }
}

} // verus!
