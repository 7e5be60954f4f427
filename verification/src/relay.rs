//! The broadcast relay: a payload goes to every channel except the origin's.
//!
//! Sending suspends on transport backpressure, so the plan below is computed
//! under the registry's exclusive access and the sends happen outside it: the
//! unverified edge copies the targets out, then delivers best-effort, logging
//! and continuing past any per-peer failure.

use crate::registry::entry_key;
use crate::registry::seq_has_key;
use crate::registry::ConnectionRegistry;
use vstd::prelude::*;

verus! {

/// One planned delivery: the channel to send to, the handle token under which
/// the edge keeps that channel's transport handle, and the payload.
pub struct Delivery {
    pub conn: u64,
    pub chan: u64,
    pub handle: u64,
    pub payload: Vec<u8>,
}

/// The registry key a delivery targets.
pub open spec fn delivery_key(d: Delivery) -> (u64, u64) {
    (d.conn, d.chan)
}

/// What a correct relay plan is, against one consistent read of the registry
/// mapping `m`: every target is a registered channel of another connection
/// and carries the payload; no target repeats; and every registered channel
/// of another connection is targeted.
pub open spec fn is_relay_plan(
    m: Map<(u64, u64), u64>,
    origin: u64,
    payload: Seq<u8>,
    ds: Seq<Delivery>,
) -> bool {
    &&& forall|j: int|
        0 <= j < ds.len() ==> (#[trigger] ds[j]).conn != origin && m.dom().contains(
            delivery_key(ds[j]),
        ) && m[delivery_key(ds[j])] == ds[j].handle && ds[j].payload@ == payload
    &&& forall|j1: int, j2: int|
        0 <= j1 < j2 < ds.len() ==> #[trigger] delivery_key(ds[j1]) != #[trigger] delivery_key(
            ds[j2],
        )
    &&& forall|k: (u64, u64)|
        #[trigger] m.dom().contains(k) && k.0 != origin ==> exists|j: int|
            0 <= j < ds.len() && delivery_key(#[trigger] ds[j]) == k
}

/// Copies a payload.
pub(crate) fn copy_payload(payload: &[u8]) -> (r: Vec<u8>)
    ensures
        r@ == payload@,
{
    let mut r: Vec<u8> = Vec::new();
    let mut i: usize = 0;
    while i < payload.len()
        invariant
            0 <= i <= payload@.len(),
            r@ == payload@.take(i as int),
        decreases payload@.len() - i,
    {
        r.push(payload[i]);
        proof {
            assert(r@ =~= payload@.take(i as int + 1));
        }
        i = i + 1;
    }
    proof {
        assert(payload@.take(payload@.len() as int) =~= payload@);
    }
    r
}

/// Plans the delivery of `payload` to every channel currently registered to a
/// connection other than `origin` — exactly those, each once, in unspecified
/// order, as of this one consistent registry read.
pub fn relay(registry: &ConnectionRegistry, origin: u64, payload: &[u8]) -> (ds: Vec<Delivery>)
    requires
        registry.wf(),
    ensures
        is_relay_plan(registry@, origin, payload@, ds@),
{
    let targets = registry.channels_except(origin);
    let mut ds: Vec<Delivery> = Vec::new();
    let mut i: usize = 0;
    while i < targets.len()
        invariant
            0 <= i <= targets@.len(),
            ds@.len() == i,
            forall|j: int|
                0 <= j < i ==> delivery_key(#[trigger] ds@[j]) == entry_key(targets@[j])
                    && ds@[j].handle == targets@[j].handle && ds@[j].payload@ == payload@,
        decreases targets@.len() - i,
    {
        let t = &targets[i];
        ds.push(Delivery { conn: t.conn, chan: t.chan, handle: t.handle, payload: copy_payload(payload) });
        i = i + 1;
    }
    proof {
        assert forall|k: (u64, u64)|
            #[trigger] registry@.dom().contains(k) && k.0 != origin implies exists|j: int|
            0 <= j < ds@.len() && delivery_key(#[trigger] ds@[j]) == k by {
            assert(seq_has_key(targets@, k));
            let j = choose|j: int|
                0 <= j < targets@.len() && entry_key(#[trigger] targets@[j]) == k;
            assert(delivery_key(ds@[j]) == k);
        }
    }
    ds
}

} // verus!
