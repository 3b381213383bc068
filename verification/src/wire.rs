//! The wire message: the HTTP-like message that a transport sends and
//! receives. The transport owns it; the bindings read and write only what
//! the placements of their fields call for.

use vstd::prelude::*;
use crate::api::metadata::Method;
use crate::urlencoded::ser::{encode_pairs, encoded};
use crate::urlencoded::value::{Value, ValueView};

verus! {

/// An HTTP-like message.
#[derive(Clone, Debug, PartialEq, Eq)]
pub struct WireMessage {
    /// The HTTP verb.
    pub method: Method,
    /// The path, with the values of the path fields filled in.
    pub path: String,
    /// The query as unescaped pairs, in order.
    pub query: Vec<(String, String)>,
    /// The headers as pairs of name and value.
    pub headers: Vec<(String, String)>,
    /// The body.
    pub body: Vec<u8>,
}

/// The content of a [`WireMessage`].
pub struct MessageView {
    pub method: Method,
    pub path: Seq<char>,
    pub query: Seq<(Seq<char>, Seq<char>)>,
    pub headers: Seq<(Seq<char>, Seq<char>)>,
    pub body: Seq<u8>,
}

impl View for WireMessage {
    type V = MessageView;

    open spec fn view(&self) -> MessageView {
        MessageView {
            method: self.method,
            path: self.path@,
            query: self.query.deep_view(),
            headers: self.headers.deep_view(),
            body: self.body@,
        }
    }
}

impl WireMessage {
    /// The query as `application/x-www-form-urlencoded` text.
    pub fn query_string(&self) -> (r: String)
        ensures
            r@ == encoded(self@.query),
    {
        encode_pairs(&self.query)
    }
}

/// The value of one field of a message, as it travels.
#[derive(Clone, Debug, PartialEq, Eq)]
pub enum FieldValue {
    /// The value of a path field or of a header field.
    Text(String),
    /// The value of a query field: a scalar or a sequence of scalars.
    Query(Value),
    /// The entries of a query map.
    Entries(Vec<(String, String)>),
    /// The value of a raw body field.
    Raw(Vec<u8>),
    /// The value of a body field travels in the structured payload, which
    /// a body codec outside this crate writes and reads.
    InPayload,
}

/// The content of a [`FieldValue`].
pub enum FieldValueView {
    Text(Seq<char>),
    Query(ValueView),
    Entries(Seq<(Seq<char>, Seq<char>)>),
    Raw(Seq<u8>),
    InPayload,
}

impl View for FieldValue {
    type V = FieldValueView;

    open spec fn view(&self) -> FieldValueView {
        match self {
            FieldValue::Text(text) => FieldValueView::Text(text@),
            FieldValue::Query(value) => FieldValueView::Query(value@),
            FieldValue::Entries(entries) => FieldValueView::Entries(entries.deep_view()),
            FieldValue::Raw(bytes) => FieldValueView::Raw(bytes@),
            FieldValue::InPayload => FieldValueView::InPayload,
        }
    }
}

impl DeepView for FieldValue {
    type V = FieldValueView;

    open spec fn deep_view(&self) -> FieldValueView {
        self@
    }
}

} // verus!
