//! A client for a cloud-storage account: the catalog of the files found in it,
//! kept in a container that a small cipher obscures, and the session that
//! fills the catalog over the wire. Beside it, what the same program needs
//! around that: requests through `curl`, notices through a message service,
//! and the reading of requests for a small server.
//!
//! Text is bytes throughout: what comes off a socket or out of a file is read
//! as it is, and bytes that are no UTF-8 stay what they are. Only white space
//! is looked for in its UTF-8 form.
//!
//! The library does no input or output. Where an operation talks to a host, it
//! is split into the request to send and the reading of what came back, and
//! the caller carries the bytes between the two.

pub mod codec;
pub mod container;
pub mod error;
pub mod protocol;
pub mod sal_file;
pub mod sal_http;
pub mod sal_notice;
pub mod sal_server;
pub mod text;
