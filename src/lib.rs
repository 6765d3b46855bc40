//! Writing the index of a pack: content identifiers, ordering by identifier, the
//! fan-out table and the byte layout of the index file, with what holds of every file
//! written. Also the packet-line reader and the configuration-file whitespace and
//! comment skipper used around it.

pub mod bytes;
pub mod fanout;
pub mod laws;
pub mod layout;
pub mod oid;
pub mod order;
pub mod packet_line;
pub mod parse;
pub mod sections;
pub mod write;
