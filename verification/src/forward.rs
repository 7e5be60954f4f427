//! The forwarding manager: plans the outbound channel a forwarding request
//! spawns.
//!
//! The plan targets a fixed placeholder destination — deliberately not the
//! caller-supplied one: the data path is a stub — writes one fixed
//! informational payload, then closes the channel's write side. The edge runs
//! the plan as a detached task: the handshake step that requested it returns
//! success at once and never waits; a failure to open or write is logged and
//! the task dropped, never surfaced to the requesting connection.

use vstd::prelude::*;

verus! {

/// The outbound channel one forwarding request opens: destination, the one
/// payload to write, and the order to close the write side after it.
pub struct ForwardAction {
    pub address: String,
    pub port: u32,
    pub payload: String,
    pub close_after_write: bool,
}

/// The one plan every forwarding request produces: the placeholder
/// destination, the fixed informational payload, then end-of-file.
pub open spec fn is_forward_plan(a: ForwardAction) -> bool {
    &&& a.address@ == "1.2.3.4"@
    &&& a.port == 1234
    &&& a.payload@ == "Hello from a forwarded port"@
    &&& a.close_after_write
}

/// Plans the outbound forwarded channel for a request toward
/// (`requested_address`, `requested_port`). The plan is the same for every
/// request: the placeholder destination, the fixed payload, then end-of-file.
pub fn forward(_requested_address: &str, _requested_port: u32) -> (a: ForwardAction)
    ensures
        is_forward_plan(a),
{
    ForwardAction {
        address: "1.2.3.4".to_owned(),
        port: 1234,
        payload: "Hello from a forwarded port".to_owned(),
        close_after_write: true,
    }
}

} // verus!
