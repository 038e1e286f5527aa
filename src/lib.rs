//! A recursive DNS resolver's core: a codec for DNS messages over a
//! fixed-size buffer, with name compression on decode, and the decisions of
//! iterative resolution down the delegation chain.
use vstd::prelude::*;

pub mod dns;
pub mod name;
pub mod packet;
pub mod resolver;

pub use dns::{Header, Packet, QueryType, Question, Record, ResponseCode};
pub use packet::{BytePacketBuffer, DnsError, Result, LIMIT_OF_BUFFER};
pub use resolver::{
    build_response, next_step, query_packet, Action, Lookup, Resolution, Step, DNS_PORT,
    MAX_DEPTH, QUERY_ID, ROOT_SERVER,
};

verus! {

} // verus!
