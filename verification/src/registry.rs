//! The shared registry of open channels across all connections.
//!
//! One table maps (connection id, channel id) — the primary key, unique at
//! every instant — to the handle used to push data to that channel's peer.
//! All mutation and all relay enumeration go through this one object under a
//! single exclusion discipline; the unverified edge wraps it in one lock and
//! never sends to a peer while holding it.

use crate::errors::BrokerError;
use vstd::prelude::*;

verus! {

/// One open channel: its registry key (connection id, channel id) and the
/// token under which the unverified edge keeps the transport's send handle.
#[derive(Clone, Copy, Debug, PartialEq, Eq, Structural)]
pub struct ChannelEntry {
    pub conn: u64,
    pub chan: u64,
    pub handle: u64,
}

/// The registry key of an entry.
pub open spec fn entry_key(e: ChannelEntry) -> (u64, u64) {
    (e.conn, e.chan)
}

/// Whether some entry of `s` has key `k`.
pub open spec fn seq_has_key(s: Seq<ChannelEntry>, k: (u64, u64)) -> bool {
    exists|i: int| 0 <= i < s.len() && entry_key(#[trigger] s[i]) == k
}

/// The handle of the entry of `s` holding key `k`.
pub open spec fn seq_handle_of(s: Seq<ChannelEntry>, k: (u64, u64)) -> u64 {
    let i = choose|i: int| 0 <= i < s.len() && entry_key(#[trigger] s[i]) == k;
    s[i].handle
}

/// No two entries of `s` share a key.
pub open spec fn seq_unique_keys(s: Seq<ChannelEntry>) -> bool {
    forall|i: int, j: int|
        0 <= i < j < s.len() ==> #[trigger] entry_key(s[i]) != #[trigger] entry_key(s[j])
}

/// The mapping that an entry sequence represents.
pub open spec fn map_of(s: Seq<ChannelEntry>) -> Map<(u64, u64), u64> {
    Map::new(|k: (u64, u64)| seq_has_key(s, k), |k: (u64, u64)| seq_handle_of(s, k))
}

/// Every registry key a connection can own.
pub open spec fn conn_keys(conn: u64) -> Set<(u64, u64)> {
    Set::new(|k: (u64, u64)| k.0 == conn)
}

/// With unique keys, the entry at index `i` is the one its key names.
proof fn lemma_handle_at(s: Seq<ChannelEntry>, i: int)
    requires
        seq_unique_keys(s),
        0 <= i < s.len(),
    ensures
        seq_has_key(s, entry_key(s[i])),
        seq_handle_of(s, entry_key(s[i])) == s[i].handle,
{
    let k = entry_key(s[i]);
    assert(seq_has_key(s, k));
    let j = choose|j: int| 0 <= j < s.len() && entry_key(#[trigger] s[j]) == k;
    if i < j {
        assert(entry_key(s[i]) != entry_key(s[j]));
    } else if j < i {
        assert(entry_key(s[j]) != entry_key(s[i]));
    }
}

/// Appending an entry with a fresh key inserts exactly that binding.
proof fn lemma_map_of_push(s: Seq<ChannelEntry>, e: ChannelEntry)
    requires
        seq_unique_keys(s),
        !seq_has_key(s, entry_key(e)),
    ensures
        seq_unique_keys(s.push(e)),
        map_of(s.push(e)) =~= map_of(s).insert(entry_key(e), e.handle),
{
    let t = s.push(e);
    assert forall|i: int, j: int|
        0 <= i < j < t.len() implies #[trigger] entry_key(t[i]) != #[trigger] entry_key(t[j]) by {
        if j < s.len() {
            assert(entry_key(s[i]) != entry_key(s[j]));
        } else {
            assert(t[i] == s[i]);
            assert(t[j] == e);
            assert(entry_key(s[i]) != entry_key(e));
        }
    }
    assert forall|k: (u64, u64)| seq_has_key(t, k) implies seq_has_key(s, k) || k == entry_key(
        e,
    ) by {
        let i = choose|i: int| 0 <= i < t.len() && entry_key(#[trigger] t[i]) == k;
        if i < s.len() {
            assert(t[i] == s[i]);
            assert(seq_has_key(s, k));
        }
    }
    assert forall|k: (u64, u64)| seq_has_key(s, k) implies seq_has_key(t, k) by {
        let i = choose|i: int| 0 <= i < s.len() && entry_key(#[trigger] s[i]) == k;
        assert(t[i] == s[i]);
        assert(entry_key(t[i]) == k);
    }
    lemma_handle_at(t, s.len() as int);
    assert forall|k: (u64, u64)| seq_has_key(s, k) implies seq_handle_of(t, k) == seq_handle_of(
        s,
        k,
    ) by {
        let i = choose|i: int| 0 <= i < s.len() && entry_key(#[trigger] s[i]) == k;
        lemma_handle_at(s, i);
        assert(t[i] == s[i]);
        lemma_handle_at(t, i);
    }
    assert(map_of(t) =~= map_of(s).insert(entry_key(e), e.handle));
}

/// Removing the entry at index `i` removes exactly its binding.
proof fn lemma_map_of_remove_at(s: Seq<ChannelEntry>, i: int)
    requires
        seq_unique_keys(s),
        0 <= i < s.len(),
    ensures
        seq_unique_keys(s.remove(i)),
        map_of(s.remove(i)) =~= map_of(s).remove(entry_key(s[i])),
{
    let t = s.remove(i);
    let k0 = entry_key(s[i]);
    s.remove_ensures(i);
    assert forall|a: int, b: int|
        0 <= a < b < t.len() implies #[trigger] entry_key(t[a]) != #[trigger] entry_key(t[b]) by {
        let a0 = if a < i {
            a
        } else {
            a + 1
        };
        let b0 = if b < i {
            b
        } else {
            b + 1
        };
        assert(t[a] == s[a0]);
        assert(t[b] == s[b0]);
        assert(entry_key(s[a0]) != entry_key(s[b0]));
    }
    assert forall|k: (u64, u64)| seq_has_key(t, k) implies seq_has_key(s, k) && k != k0 by {
        let a = choose|a: int| 0 <= a < t.len() && entry_key(#[trigger] t[a]) == k;
        let a0 = if a < i {
            a
        } else {
            a + 1
        };
        assert(t[a] == s[a0]);
        assert(entry_key(s[a0]) == k);
        if a0 != i {
            if a0 < i {
                assert(entry_key(s[a0]) != entry_key(s[i]));
            } else {
                assert(entry_key(s[i]) != entry_key(s[a0]));
            }
        }
    }
    assert forall|k: (u64, u64)| seq_has_key(s, k) && k != k0 implies seq_has_key(t, k)
        && seq_handle_of(t, k) == seq_handle_of(s, k) by {
        let a0 = choose|a0: int| 0 <= a0 < s.len() && entry_key(#[trigger] s[a0]) == k;
        lemma_handle_at(s, a0);
        let a = if a0 < i {
            a0
        } else {
            a0 - 1
        };
        assert(t[a] == s[a0]);
        assert(entry_key(t[a]) == k);
        lemma_handle_at(t, a);
    }
    assert(map_of(t) =~= map_of(s).remove(k0));
}

/// A well-formed entry sequence represents a mapping of exactly its length.
proof fn lemma_map_of_len(s: Seq<ChannelEntry>)
    requires
        seq_unique_keys(s),
    ensures
        map_of(s).dom().finite(),
        map_of(s).dom().len() == s.len(),
    decreases s.len(),
{
    if s.len() == 0 {
        assert(map_of(s).dom() =~= Set::<(u64, u64)>::empty());
    } else {
        let s0 = s.drop_last();
        let e = s.last();
        assert forall|a: int, b: int|
            0 <= a < b < s0.len() implies #[trigger] entry_key(s0[a]) != #[trigger] entry_key(
            s0[b],
        ) by {
            assert(entry_key(s[a]) != entry_key(s[b]));
        }
        assert(!seq_has_key(s0, entry_key(e))) by {
            if seq_has_key(s0, entry_key(e)) {
                let a = choose|a: int|
                    0 <= a < s0.len() && entry_key(#[trigger] s0[a]) == entry_key(e);
                assert(entry_key(s[a]) != entry_key(s[s.len() - 1]));
            }
        }
        lemma_map_of_push(s0, e);
        assert(s0.push(e) =~= s);
        lemma_map_of_len(s0);
        assert(map_of(s).dom() =~= map_of(s0).dom().insert(entry_key(e)));
    }
}

/// The shared table of all open channels.
pub struct ConnectionRegistry {
    entries: Vec<ChannelEntry>,
}

impl View for ConnectionRegistry {
    type V = Map<(u64, u64), u64>;

    closed spec fn view(&self) -> Map<(u64, u64), u64> {
        map_of(self.entries@)
    }
}

impl ConnectionRegistry {
    /// The registry never holds two entries with the same key.
    pub closed spec fn wf(self) -> bool {
        seq_unique_keys(self.entries@)
    }

    /// An empty registry.
    pub fn new() -> (r: ConnectionRegistry)
        ensures
            r.wf(),
            r@ == Map::<(u64, u64), u64>::empty(),
    {
        let r = ConnectionRegistry { entries: Vec::new() };
        proof {
            assert(r@ =~= Map::<(u64, u64), u64>::empty());
        }
        r
    }

    /// Index of the entry keyed (conn, chan), when one is registered.
    fn index_of(&self, conn: u64, chan: u64) -> (r: Option<usize>)
        ensures
            match r {
                Some(i) => 0 <= i < self.entries@.len() && entry_key(self.entries@[i as int]) == (
                    conn,
                    chan,
                ),
                None => !seq_has_key(self.entries@, (conn, chan)),
            },
    {
        let mut i: usize = 0;
        while i < self.entries.len()
            invariant
                0 <= i <= self.entries@.len(),
                forall|j: int| 0 <= j < i ==> entry_key(#[trigger] self.entries@[j]) != (conn, chan),
            decreases self.entries@.len() - i,
        {
            let e = self.entries[i];
            if e.conn == conn && e.chan == chan {
                return Some(i);
            }
            i = i + 1;
        }
        None
    }

    /// Whether the key (conn, chan) is registered.
    pub fn contains(&self, conn: u64, chan: u64) -> (b: bool)
        ensures
            b == self@.dom().contains((conn, chan)),
    {
        match self.index_of(conn, chan) {
            Some(i) => {
                proof {
                    assert(seq_has_key(self.entries@, (conn, chan)));
                }
                true
            },
            None => false,
        }
    }

    /// Registers a channel under its (conn, chan) key. A duplicate key is a
    /// programming invariant violation: the registry is left unchanged and
    /// the defect is reported, never a crash.
    pub fn insert(&mut self, conn: u64, chan: u64, handle: u64) -> (r: Result<(), BrokerError>)
        requires
            old(self).wf(),
        ensures
            final(self).wf(),
            match r {
                Ok(()) => !old(self)@.dom().contains((conn, chan)) && final(self)@ == old(
                    self,
                )@.insert((conn, chan), handle),
                Err(e) => {
                    &&& e == BrokerError::RegistryInvariantViolation
                    &&& old(self)@.dom().contains((conn, chan))
                    &&& final(self)@ == old(self)@
                },
            },
    {
        if self.contains(conn, chan) {
            return Err(BrokerError::RegistryInvariantViolation);
        }
        let e = ChannelEntry { conn, chan, handle };
        let ghost pre = self.entries@;
        self.entries.push(e);
        proof {
            lemma_map_of_push(pre, e);
        }
        Ok(())
    }

    /// Unregisters the channel keyed (conn, chan). Removing an absent key is
    /// a programming invariant violation, reported the same way.
    pub fn remove(&mut self, conn: u64, chan: u64) -> (r: Result<(), BrokerError>)
        requires
            old(self).wf(),
        ensures
            final(self).wf(),
            match r {
                Ok(()) => old(self)@.dom().contains((conn, chan)) && final(self)@ == old(
                    self,
                )@.remove((conn, chan)),
                Err(e) => {
                    &&& e == BrokerError::RegistryInvariantViolation
                    &&& !old(self)@.dom().contains((conn, chan))
                    &&& final(self)@ == old(self)@
                },
            },
    {
        match self.index_of(conn, chan) {
            Some(i) => {
                proof {
                    assert(seq_has_key(self.entries@, (conn, chan)));
                    lemma_map_of_remove_at(self.entries@, i as int);
                }
                self.entries.remove(i);
                Ok(())
            },
            None => Err(BrokerError::RegistryInvariantViolation),
        }
    }

    /// Every registered channel whose connection differs from `origin`, each
    /// exactly once, in unspecified order: the enumeration the relay uses.
    pub fn channels_except(&self, origin: u64) -> (r: Vec<ChannelEntry>)
        requires
            self.wf(),
        ensures
            seq_unique_keys(r@),
            forall|j: int|
                0 <= j < r@.len() ==> (#[trigger] r@[j]).conn != origin && self@.dom().contains(
                    entry_key(r@[j]),
                ) && self@[entry_key(r@[j])] == r@[j].handle,
            forall|k: (u64, u64)| self@.dom().contains(k) && k.0 != origin ==> seq_has_key(r@, k),
    {
        let mut kept: Vec<ChannelEntry> = Vec::new();
        let mut i: usize = 0;
        while i < self.entries.len()
            invariant
                0 <= i <= self.entries@.len(),
                seq_unique_keys(self.entries@),
                seq_unique_keys(kept@),
                forall|j: int| 0 <= j < kept@.len() ==> (#[trigger] kept@[j]).conn != origin,
                map_of(kept@) =~= map_of(self.entries@.take(i as int)).remove_keys(
                    conn_keys(origin),
                ),
            decreases self.entries@.len() - i,
        {
            let e = self.entries[i];
            let ghost prefix = self.entries@.take(i as int);
            let ghost prefix1 = self.entries@.take(i as int + 1);
            proof {
                assert(prefix1 =~= prefix.push(self.entries@[i as int]));
                assert forall|a: int, b: int|
                    0 <= a < b < prefix.len() implies #[trigger] entry_key(prefix[a])
                    != #[trigger] entry_key(prefix[b]) by {
                    assert(entry_key(self.entries@[a]) != entry_key(self.entries@[b]));
                }
                assert(!seq_has_key(prefix, entry_key(self.entries@[i as int]))) by {
                    if seq_has_key(prefix, entry_key(self.entries@[i as int])) {
                        let a = choose|a: int|
                            0 <= a < prefix.len() && entry_key(#[trigger] prefix[a]) == entry_key(
                                self.entries@[i as int],
                            );
                        assert(entry_key(self.entries@[a]) != entry_key(
                            self.entries@[i as int],
                        ));
                    }
                }
                lemma_map_of_push(prefix, self.entries@[i as int]);
            }
            if e.conn != origin {
                proof {
                    assert(!seq_has_key(kept@, entry_key(e))) by {
                        if seq_has_key(kept@, entry_key(e)) {
                            assert(map_of(kept@).dom().contains(entry_key(e)));
                            assert(seq_has_key(prefix, entry_key(e)));
                        }
                    }
                    lemma_map_of_push(kept@, e);
                }
                kept.push(e);
                proof {
                    assert(map_of(kept@) =~= map_of(prefix1).remove_keys(conn_keys(origin)));
                }
            } else {
                proof {
                    assert(map_of(kept@) =~= map_of(prefix1).remove_keys(conn_keys(origin)));
                }
            }
            i = i + 1;
        }
        proof {
            assert(self.entries@.take(self.entries@.len() as int) =~= self.entries@);
            assert forall|j: int|
                0 <= j < kept@.len() implies (#[trigger] kept@[j]).conn != origin
                && self@.dom().contains(entry_key(kept@[j])) && self@[entry_key(kept@[j])]
                == kept@[j].handle by {
                lemma_handle_at(kept@, j);
                assert(map_of(kept@).dom().contains(entry_key(kept@[j])));
                assert(map_of(kept@)[entry_key(kept@[j])] == kept@[j].handle);
            }
            assert forall|k: (u64, u64)|
                self@.dom().contains(k) && k.0 != origin implies seq_has_key(kept@, k) by {
                assert(self@.remove_keys(conn_keys(origin)).dom().contains(k));
                assert(map_of(kept@).dom().contains(k));
            }
        }
        kept
    }

    /// Removes every channel the connection owns; a connection with none is a
    /// no-op. Called exactly once at a connection's teardown.
    pub fn remove_connection(&mut self, conn: u64)
        requires
            old(self).wf(),
        ensures
            final(self).wf(),
            final(self)@ == old(self)@.remove_keys(conn_keys(conn)),
    {
        let kept = self.channels_except(conn);
        proof {
            assert forall|k: (u64, u64)| #[trigger]
                map_of(kept@).dom().contains(k) implies old(self)@.remove_keys(
                conn_keys(conn),
            ).dom().contains(k) && map_of(kept@)[k] == old(self)@[k] by {
                let j = choose|j: int| 0 <= j < kept@.len() && entry_key(#[trigger] kept@[j]) == k;
                lemma_handle_at(kept@, j);
            }
            assert forall|k: (u64, u64)| #[trigger]
                old(self)@.remove_keys(conn_keys(conn)).dom().contains(k) implies map_of(
                kept@,
            ).dom().contains(k) by {
                assert(seq_has_key(kept@, k));
            }
            assert(map_of(kept@) =~= old(self)@.remove_keys(conn_keys(conn)));
        }
        self.entries = kept;
    }

    /// How many channels are registered in all.
    pub fn len(&self) -> (n: usize)
        requires
            self.wf(),
        ensures
            n == self@.dom().len(),
            self@.dom().finite(),
    {
        proof {
            lemma_map_of_len(self.entries@);
        }
        self.entries.len()
    }

    /// Whether no channel at all is registered.
    pub fn is_empty(&self) -> (b: bool)
        ensures
            b <==> self@ =~= Map::<(u64, u64), u64>::empty(),
    {
        let b = self.entries.is_empty();
        proof {
            if self.entries@.len() == 0 {
                assert(self@ =~= Map::<(u64, u64), u64>::empty());
            } else {
                assert(seq_has_key(self.entries@, entry_key(self.entries@[0])));
                assert(self@.dom().contains(entry_key(self.entries@[0])));
            }
        }
        b
    }
}

/// Inserting a fresh key and then removing that same key restores the
/// registry's mapping exactly: the enumeration any later relay sees is the
/// one from before the insert.
pub proof fn lemma_insert_then_remove_is_identity(
    m: Map<(u64, u64), u64>,
    conn: u64,
    chan: u64,
    handle: u64,
)
    requires
        !m.dom().contains((conn, chan)),
    ensures
        m.insert((conn, chan), handle).remove((conn, chan)) == m,
{
    assert(m.insert((conn, chan), handle).remove((conn, chan)) =~= m);
}

/// One atomic registry operation, as a connection's dispatcher sequences
/// them: a channel open, or the connection's teardown.
pub enum RegistryOp {
    Open { conn: u64, chan: u64, handle: u64 },
    Disconnect { conn: u64 },
}

/// The mapping after one operation.
pub open spec fn apply_op(m: Map<(u64, u64), u64>, op: RegistryOp) -> Map<(u64, u64), u64> {
    match op {
        RegistryOp::Open { conn, chan, handle } => m.insert((conn, chan), handle),
        RegistryOp::Disconnect { conn } => m.remove_keys(conn_keys(conn)),
    }
}

/// The mapping after a whole interleaving of operations.
pub open spec fn apply_ops(m: Map<(u64, u64), u64>, ops: Seq<RegistryOp>) -> Map<(u64, u64), u64>
    decreases ops.len(),
{
    if ops.len() == 0 {
        m
    } else {
        apply_ops(apply_op(m, ops[0]), ops.drop_first())
    }
}

/// Whether some operation of `ops` disconnects `conn`.
pub open spec fn disconnects(ops: Seq<RegistryOp>, conn: u64) -> bool {
    exists|j: int| 0 <= j < ops.len() && ops[j] == (RegistryOp::Disconnect { conn })
}

/// Every open in `ops` is followed, later in `ops`, by its connection's
/// disconnect.
pub open spec fn opens_are_closed(ops: Seq<RegistryOp>) -> bool {
    forall|i: int|
        0 <= i < ops.len() ==> match #[trigger] ops[i] {
            RegistryOp::Open { conn, chan, handle } => exists|j: int|
                i < j < ops.len() && ops[j] == (RegistryOp::Disconnect { conn }),
            RegistryOp::Disconnect { conn } => true,
        }
}

/// However concurrent connections' opens and disconnects interleave: once
/// every open is followed by its connection's disconnect, and every
/// connection already holding a channel disconnects somewhere, the registry
/// ends empty — no entry leaks and none is duplicated.
pub proof fn lemma_interleaved_teardown(m: Map<(u64, u64), u64>, ops: Seq<RegistryOp>)
    requires
        forall|k: (u64, u64)| #[trigger] m.dom().contains(k) ==> disconnects(ops, k.0),
        opens_are_closed(ops),
    ensures
        apply_ops(m, ops) =~= Map::<(u64, u64), u64>::empty(),
    decreases ops.len(),
{
    if ops.len() == 0 {
        assert(m =~= Map::<(u64, u64), u64>::empty());
    } else {
        let op = ops[0];
        let rest = ops.drop_first();
        let m1 = apply_op(m, op);
        assert forall|i: int| 0 <= i < rest.len() implies match #[trigger] rest[i] {
            RegistryOp::Open { conn, chan, handle } => exists|j: int|
                i < j < rest.len() && rest[j] == (RegistryOp::Disconnect { conn }),
            RegistryOp::Disconnect { conn } => true,
        } by {
            assert(rest[i] == ops[i + 1]);
            match ops[i + 1] {
                RegistryOp::Open { conn, chan, handle } => {
                    let j = choose|j: int|
                        i + 1 < j < ops.len() && ops[j] == (RegistryOp::Disconnect { conn });
                    assert(rest[j - 1] == ops[j]);
                    assert(i < j - 1 < rest.len());
                },
                RegistryOp::Disconnect { .. } => {},
            }
        }
        match op {
            RegistryOp::Open { conn, chan, handle } => {
                assert forall|k: (u64, u64)| #[trigger]
                    m1.dom().contains(k) implies disconnects(rest, k.0) by {
                    if k == ((conn, chan)) {
                        let j = choose|j: int|
                            0 < j < ops.len() && ops[j] == (RegistryOp::Disconnect { conn });
                        assert(rest[j - 1] == ops[j]);
                    } else {
                        assert(m.dom().contains(k));
                        let j = choose|j: int|
                            0 <= j < ops.len() && ops[j] == (RegistryOp::Disconnect {
                                conn: k.0,
                            });
                        assert(j != 0);
                        assert(rest[j - 1] == ops[j]);
                    }
                }
                lemma_interleaved_teardown(m1, rest);
            },
            RegistryOp::Disconnect { conn } => {
                assert forall|k: (u64, u64)| #[trigger]
                    m1.dom().contains(k) implies disconnects(rest, k.0) by {
                    assert(m.dom().contains(k));
                    assert(k.0 != conn);
                    let j = choose|j: int|
                        0 <= j < ops.len() && ops[j] == (RegistryOp::Disconnect { conn: k.0 });
                    assert(j != 0);
                    assert(rest[j - 1] == ops[j]);
                }
                lemma_interleaved_teardown(m1, rest);
            },
        }
    }
}

} // verus!
