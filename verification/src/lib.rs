//! Binding layer between declarative endpoint definitions and wire messages.
//!
//! The crate has two halves. [`urlencoded`] is a codec for the flat
//! `application/x-www-form-urlencoded` key/value format used by query strings
//! and form bodies. [`api`] validates an endpoint definition and produces its
//! metadata together with the request and response bindings that move typed
//! values into and out of a [`wire::WireMessage`].

pub mod api;
pub mod error;
pub mod path;
pub mod text;
pub mod urlencoded;
pub mod wire;
pub mod validate_msisdn_by_phone_number;
