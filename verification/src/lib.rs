//! Verified core of a Solid server: the in-memory LDP resource store, the
//! access-control decisions of the request pipeline, CORS header values,
//! and the integration-test runner's suite selection and TAP report.

pub mod auth;
pub mod cors;
pub mod runner;
pub mod store;
pub mod text;

pub use store::{Entry, EntryView, LdpStore};
