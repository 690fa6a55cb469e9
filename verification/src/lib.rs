//! Webhook protocol between a DNS-record driver and a pluggable provider:
//! the endpoint model, the reconciliation diff, and the wire rules that
//! both sides of the protocol follow.
//!
//! * [`endpoint`]: DNS records and their identities.
//! * [`change`]: single changes, batches of changes, and the conversion
//!   between the two.
//! * [`diff`]: the changes that lead from the current records to the
//!   desired ones, and what holds of them.
//! * [`reconcile`]: a difference, applied, gives the desired records.
//! * [`wire`]: media type, payloads and statuses.
//! * [`client`]: the requests of a driver, and the decoding of responses.
//! * [`provider`]: the route table of a provider, and its responses.
//!
//! Nothing here reads or writes a socket: the requests and responses are
//! values, to be sent and received by the caller.

pub mod change;
pub mod client;
pub mod diff;
pub mod endpoint;
pub mod provider;
pub mod reconcile;
pub mod sequences;
pub mod wire;

pub use change::{Change, Changes};
pub use client::{Client, Error};
pub use diff::EndpointDiff;
pub use endpoint::{Endpoint, EndpointIdent, ProviderSpecificProperty};
