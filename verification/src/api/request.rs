//! The binding of a request.

use vstd::prelude::*;
use crate::api::binding::{read, read_fields, write_fields, written};
use crate::api::metadata::{Method, Paths, PathsView};
use crate::api::{resolved, FieldDescriptor, FieldView, ResolvedFieldSet, ResolvedView};
use crate::error::{DecodingError, DefinitionError, EncodingError};
use crate::wire::{FieldValue, FieldValueView, WireMessage, MessageView};

verus! {

/// How the fields of a request travel on the wire.
#[derive(Debug, PartialEq, Eq)]
pub struct RequestBinding {
    method: Method,
    paths: Paths,
    fields: Vec<FieldDescriptor>,
    resolved: ResolvedFieldSet,
}

/// The content of a [`RequestBinding`].
pub struct RequestView {
    pub method: Method,
    pub paths: PathsView,
    pub fields: Seq<FieldView>,
}

impl View for RequestBinding {
    type V = RequestView;

    closed spec fn view(&self) -> RequestView {
        RequestView { method: self.method, paths: self.paths@, fields: self.fields.deep_view() }
    }
}

impl RequestBinding {
    #[verifier::type_invariant]
    spec fn well_formed(self) -> bool {
        resolved(self.fields.deep_view()) == Ok::<ResolvedView, DefinitionError>(self.resolved@)
    }

    /// Binds resolved fields to a method and path templates.
    pub(crate) fn new(
        method: Method,
        paths: Paths,
        fields: Vec<FieldDescriptor>,
        set: ResolvedFieldSet,
    ) -> (r: RequestBinding)
        requires
            resolved(fields.deep_view()) == Ok::<ResolvedView, DefinitionError>(set@),
        ensures
            r@ == (RequestView { method, paths: paths@, fields: fields.deep_view() }),
    {
        RequestBinding { method, paths, fields, resolved: set }
    }

    /// Writes a request to the wire. `values` holds one value for each
    /// field, in declaration order; `payload` is the structured payload of
    /// the body fields, as the body codec wrote it; `chosen_template` is the
    /// path template that the version negotiation picked.
    pub fn to_wire(
        &self,
        values: &Vec<FieldValue>,
        payload: Vec<u8>,
        chosen_template: &str,
    ) -> (r: Result<WireMessage, EncodingError>)
        ensures
            match r {
                Ok(message) => written(
                    self@.method,
                    self@.fields,
                    values.deep_view(),
                    payload@,
                    chosen_template@,
                ) == Ok::<MessageView, EncodingError>(message@),
                Err(e) => written(
                    self@.method,
                    self@.fields,
                    values.deep_view(),
                    payload@,
                    chosen_template@,
                ) == Err::<MessageView, EncodingError>(e),
            },
    {
        write_fields(self.method, &self.fields, values, payload, chosen_template)
    }

    /// Reads a request from the wire: one value for each field, in
    /// declaration order.
    pub fn from_wire(&self, message: &WireMessage) -> (r: Result<Vec<FieldValue>, DecodingError>)
        ensures
            match r {
                Ok(values) => read(self@.paths, self@.fields, message@) == Ok::<
                    Seq<FieldValueView>,
                    DecodingError,
                >(values.deep_view()),
                Err(e) => read(self@.paths, self@.fields, message@) == Err::<
                    Seq<FieldValueView>,
                    DecodingError,
                >(e),
            },
    {
        read_fields(&self.paths, &self.fields, message)
    }

    /// The fields sorted by where they travel.
    pub fn resolved(&self) -> (r: &ResolvedFieldSet)
        ensures
            resolved(self@.fields) == Ok::<ResolvedView, DefinitionError>(r@),
    {
        proof {
            use_type_invariant(self);
        }
        &self.resolved
    }
}

} // verus!
