//! A server for version 4 of the Network Lock Manager protocol: the wire codec
//! of its records, the table of held and pending byte-range locks, and the
//! dispatcher that turns the bytes of a call into the bytes of its reply.

pub mod codec_laws;
pub mod lock_laws;
pub mod lock_model;
pub mod lock_table;
pub mod nlm;
pub mod nlm_handlers;
pub mod rpc;
pub mod xdr;
