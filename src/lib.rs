//! A verified codec for the DNS wire format (header, questions, resource
//! records, and names with compression pointers), together with the small
//! state machine that tracks which network the host is attached to.

pub mod error;
pub mod header;
pub mod name;
pub mod message;
pub mod laws;
pub mod network;
pub mod ui;
