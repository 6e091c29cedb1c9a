//! Standard assigned DNS record-type codes (RFC 1035 and successors).

use vstd::prelude::*;

verus! {

pub const A: u16 = 1;

pub const NS: u16 = 2;

pub const CNAME: u16 = 5;

pub const SOA: u16 = 6;

pub const MX: u16 = 15;

pub const TXT: u16 = 16;

pub const AAAA: u16 = 28;

pub const SRV: u16 = 33;

} // verus!
