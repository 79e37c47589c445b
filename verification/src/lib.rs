//! Measurement core for a packet-rate probing tool.
//!
//! A client paces UDP datagrams at a requested rate toward a server; the
//! server folds the observed 32-bit sequence numbers into a compact report of
//! still-missing ranges and duplicates, and both sides talk over a
//! zero-terminated JSON control channel.  This crate holds the verified core:
//! the wrap-aware sequence analyzer, the pacing state machine, the rate
//! search, and the wire codecs.  The unverified binary around it only moves
//! bytes between sockets and these functions.

pub mod analysis;
pub mod control;
pub mod flow;
pub mod payload;
pub mod search;
pub mod seqnum;
pub mod sequence;
