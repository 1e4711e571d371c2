//! The fixed catalog of ports that common development servers bind.

use vstd::prelude::*;

verus! {

/// The ports conventionally used by common front-end and development
/// servers, in the order callers are expected to scan them.
pub open spec fn common_ports() -> Seq<u16> {
    seq![4200u16, 4201u16, 3000u16, 3001u16, 5173u16, 5000u16]
}

/// Returns the fixed, ordered list of candidate ports to scan for
/// development-server conflicts. Every call returns the same six ports
/// in the same order.
pub fn scan_common_ports() -> (ports: Vec<u16>)
    ensures
        ports@ == common_ports(),
        ports@.len() == 6,
{
    let mut ports: Vec<u16> = Vec::new();
    ports.push(4200);
    ports.push(4201);
    ports.push(3000);
    ports.push(3001);
    ports.push(5173);
    ports.push(5000);
    proof {
        assert(ports@ =~= common_ports());
    }
    ports
}

} // verus!
