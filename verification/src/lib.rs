//! Persistence and query core for the relation graph of a room's timeline:
//! a total position order with opaque pagination tokens, a relation index
//! mapping target events to their referrers, a depth-bounded transitive
//! traversal, and a cursor-based pagination and filter engine.

pub mod data;
pub mod paginate;
pub mod pdu;
pub mod position;
pub mod service;
pub mod traverse;

pub use paginate::Response;
pub use pdu::PduEvent;
pub use position::parse;
pub use position::Direction;
pub use position::ParseError;
pub use position::PduCount;
pub use service::Service;
pub use service::StoreError;
