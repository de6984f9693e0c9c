//! Transport-independent bridge core.
//!
//! The bridge owns the single physical channel to the target's Wishbone
//! bus. This module holds the verified part of it: address translation
//! (the configured offset is applied exactly once, on entry), the
//! connection lifecycle (a fatal transport error makes every later call
//! surface `Disconnected`), and the single-flight transaction protocol. The
//! physical exchange itself (USB, Ethernet, serial, SPI or PCIe) happens
//! outside: a caller obtains the translated access from [`BridgeCore::begin`],
//! performs the wire exchange, and reports the outcome to
//! [`BridgeCore::finish`]. A ghost log of entry/exit events witnesses that
//! transactions never overlap.

use vstd::prelude::*;

use crate::errors::BridgeError;

verus! {

/// The physical medium a bridge speaks over. Immutable after connect.
#[derive(Clone, Copy, Debug, PartialEq, Eq, Structural)]
pub enum BridgeKind {
    Usb,
    Ethernet,
    Serial,
    Spi,
    Pcie,
}

/// Lifecycle of the one live transport handle.
#[derive(Clone, Copy, Debug, PartialEq, Eq, Structural)]
pub enum LinkState {
    /// Not yet connected.
    Idle,
    /// The transport is open and usable.
    Connected,
    /// A fatal transport error occurred; the bridge is dead.
    Failed,
}

/// One 32-bit bus transaction, as handed to the physical transport.
#[derive(Clone, Copy, Debug, PartialEq, Eq, Structural)]
pub enum BusAccess {
    Read { address: u32 },
    Write { address: u32, value: u32 },
}

/// What the physical transport reports back for one transaction.
#[derive(Clone, Copy, Debug, PartialEq, Eq, Structural)]
pub enum TransportOutcome {
    /// A read completed with this word.
    Word(u32),
    /// A write completed.
    Done,
    /// The target did not answer within the transport's deadline.
    TimedOut,
    /// The medium failed; the bridge is unusable from now on.
    Failed,
}

/// Entry/exit observation of one transaction on the physical channel.
#[derive(Clone, Copy, Debug, PartialEq, Eq, Structural)]
pub enum BusEvent {
    Enter(BusAccess),
    Exit,
}

/// Number of transactions open after the events `t`: entries minus exits.
pub open spec fn depth(t: Seq<BusEvent>) -> int
    decreases t.len(),
{
    if t.len() == 0 {
        0
    } else {
        depth(t.drop_last()) + (if t.last() is Enter {
            1int
        } else {
            -1int
        })
    }
}

/// The channel log `t` is serialized: at every point at most one
/// transaction is open, and no exit happens without an open entry.
pub open spec fn serialized(t: Seq<BusEvent>) -> bool {
    forall|i: int| 0 <= i <= t.len() ==> 0 <= depth(#[trigger] t.take(i)) <= 1
}

/// `address` shifted by the configured offset, modulo the 32-bit address
/// space.
pub open spec fn spec_translate(address: u32, offset: u32) -> u32 {
    ((address + offset) % 0x1_0000_0000) as u32
}

/// The access `a` with its address translated by `offset`.
pub open spec fn spec_translate_access(a: BusAccess, offset: u32) -> BusAccess {
    match a {
        BusAccess::Read { address } => BusAccess::Read {
            address: spec_translate(address, offset),
        },
        BusAccess::Write { address, value } => BusAccess::Write {
            address: spec_translate(address, offset),
            value,
        },
    }
}

/// `address` shifted by `offset`, wrapping at the 32-bit boundary.
pub fn translate(address: u32, offset: u32) -> (r: u32)
    ensures
        r == spec_translate(address, offset),
{
    let s: u64 = address as u64 + offset as u64;
    if s > 0xFFFF_FFFF {
        (s - 0x1_0000_0000) as u32
    } else {
        s as u32
    }
}

proof fn lemma_depth_push(t: Seq<BusEvent>, e: BusEvent)
    ensures
        depth(t.push(e)) == depth(t) + (if e is Enter {
            1int
        } else {
            -1int
        }),
{
    assert(t.push(e).drop_last() =~= t);
    assert(t.push(e).last() == e);
}

proof fn lemma_depth_take_succ(t: Seq<BusEvent>, i: int)
    requires
        0 <= i < t.len(),
    ensures
        depth(t.take(i + 1)) == depth(t.take(i)) + (if t[i] is Enter {
            1int
        } else {
            -1int
        }),
{
    assert(t.take(i + 1).drop_last() =~= t.take(i));
    assert(t.take(i + 1).last() == t[i]);
}

proof fn lemma_serialized_push(t: Seq<BusEvent>, e: BusEvent)
    requires
        serialized(t),
        e is Enter ==> depth(t) == 0,
        e is Exit ==> depth(t) == 1,
    ensures
        serialized(t.push(e)),
        depth(t.push(e)) == depth(t) + (if e is Enter {
            1int
        } else {
            -1int
        }),
{
    lemma_depth_push(t, e);
    assert forall|i: int| 0 <= i <= t.push(e).len() implies 0 <= depth(#[trigger] t.push(e).take(i))
        <= 1 by {
        if i <= t.len() {
            assert(t.push(e).take(i) =~= t.take(i));
            assert(0 <= depth(t.take(i)) <= 1);
        } else {
            assert(t.push(e).take(i) =~= t.push(e));
        }
    }
}

/// Law: on a serialized channel log, two entries are always separated by an
/// exit — no two transactions ever overlap on the transport.
pub proof fn lemma_serialized_no_overlap(t: Seq<BusEvent>, i: int, j: int)
    requires
        serialized(t),
        0 <= i < j < t.len(),
        t[i] is Enter,
        t[j] is Enter,
    ensures
        exists|k: int| i < k < j && t[k] is Exit,
{
    lemma_depth_take_succ(t, i);
    lemma_depth_take_succ(t, j);
    assert(0 <= depth(t.take(i)));
    assert(depth(t.take(i + 1)) <= 1);
    assert(depth(t.take(i + 1)) == 1);
    assert(depth(t.take(j)) == 0);
    if i + 1 == j {
        assert(false);
    }
    lemma_depth_take_succ(t, i + 1);
    assert(depth(t.take(i + 2)) <= 1);
    assert(t[i + 1] is Exit);
}

/// Verified core of the bridge: configuration, connection state, and the
/// single-flight transaction protocol, with a ghost log of channel events.
pub struct BridgeCore {
    kind: BridgeKind,
    address_offset: u32,
    link: LinkState,
    in_flight: bool,
    log: Ghost<Seq<BusEvent>>,
}

impl BridgeCore {
    /// The medium this bridge was configured for.
    pub closed spec fn spec_kind(self) -> BridgeKind {
        self.kind
    }

    /// The configured address offset.
    pub closed spec fn offset(self) -> u32 {
        self.address_offset
    }

    /// Connection lifecycle state.
    pub closed spec fn link(self) -> LinkState {
        self.link
    }

    /// Whether a transaction is currently open on the channel.
    pub closed spec fn in_flight(self) -> bool {
        self.in_flight
    }

    /// The ghost log of channel entry/exit events so far.
    pub closed spec fn log(self) -> Seq<BusEvent> {
        self.log@
    }

    /// Well-formedness: the event log is serialized and its open-transaction
    /// count matches the in-flight flag.
    pub closed spec fn wf(self) -> bool {
        &&& serialized(self.log@)
        &&& depth(self.log@) == (if self.in_flight {
            1int
        } else {
            0int
        })
    }

    /// A well-formed bridge core always carries a serialized channel log.
    pub proof fn lemma_wf_serialized(self)
        requires
            self.wf(),
        ensures
            serialized(self.log()),
    {
    }

    /// Whether a transaction is currently open on the channel. A caller must
    /// see `false` here before it may open the next one.
    pub fn is_in_flight(&self) -> (r: bool)
        ensures
            r == self.in_flight(),
    {
        self.in_flight
    }

    /// A fresh, not yet connected bridge core.
    pub fn new(kind: BridgeKind, address_offset: u32) -> (b: BridgeCore)
        ensures
            b.wf(),
            b.spec_kind() == kind,
            b.offset() == address_offset,
            b.link() is Idle,
            !b.in_flight(),
            b.log() == Seq::<BusEvent>::empty(),
    {
        let b = BridgeCore {
            kind,
            address_offset,
            link: LinkState::Idle,
            in_flight: false,
            log: Ghost(Seq::empty()),
        };
        proof {
            assert forall|i: int| 0 <= i <= b.log@.len() implies 0 <= depth(
                #[trigger] b.log@.take(i),
            ) <= 1 by {
                assert(b.log@.take(i) =~= b.log@);
            }
        }
        b
    }

    /// Record that the transport was opened successfully.
    pub fn connection_opened(&mut self)
        requires
            old(self).wf(),
            old(self).link() is Idle,
        ensures
            final(self).wf(),
            final(self).link() is Connected,
            final(self).spec_kind() == old(self).spec_kind(),
            final(self).offset() == old(self).offset(),
            final(self).in_flight() == old(self).in_flight(),
            final(self).log() == old(self).log(),
    {
        self.link = LinkState::Connected;
    }

    /// Record that opening the transport failed, or that the medium died.
    pub fn connection_failed(&mut self)
        requires
            old(self).wf(),
        ensures
            final(self).wf(),
            final(self).link() is Failed,
            final(self).spec_kind() == old(self).spec_kind(),
            final(self).offset() == old(self).offset(),
            final(self).in_flight() == old(self).in_flight(),
            final(self).log() == old(self).log(),
    {
        self.link = LinkState::Failed;
    }

    /// Open one bus transaction. Returns the access to hand to the physical
    /// transport, with the configured offset applied to its address exactly
    /// once. Before connect and after a fatal failure the bridge refuses
    /// with `Disconnected`.
    ///
    /// The caller holds the channel: no transaction may already be open.
    pub fn begin(&mut self, access: BusAccess) -> (r: Result<BusAccess, BridgeError>)
        requires
            old(self).wf(),
            !old(self).in_flight(),
        ensures
            final(self).wf(),
            final(self).spec_kind() == old(self).spec_kind(),
            final(self).offset() == old(self).offset(),
            final(self).link() == old(self).link(),
            old(self).link() is Connected ==> {
                &&& r == Ok::<BusAccess, BridgeError>(
                    spec_translate_access(access, old(self).offset()),
                )
                &&& final(self).in_flight()
                &&& final(self).log() == old(self).log().push(
                    BusEvent::Enter(spec_translate_access(access, old(self).offset())),
                )
            },
            !(old(self).link() is Connected) ==> {
                &&& r == Err::<BusAccess, BridgeError>(BridgeError::Disconnected)
                &&& !final(self).in_flight()
                &&& final(self).log() == old(self).log()
            },
    {
        match self.link {
            LinkState::Connected => {
                let translated = match access {
                    BusAccess::Read { address } => BusAccess::Read {
                        address: translate(address, self.address_offset),
                    },
                    BusAccess::Write { address, value } => BusAccess::Write {
                        address: translate(address, self.address_offset),
                        value,
                    },
                };
                proof {
                    lemma_serialized_push(
                        self.log@,
                        BusEvent::Enter(spec_translate_access(access, self.address_offset)),
                    );
                }
                self.log = Ghost(self.log@.push(BusEvent::Enter(translated)));
                self.in_flight = true;
                Ok(translated)
            },
            _ => Err(BridgeError::Disconnected),
        }
    }

    /// Close the open bus transaction with the outcome the transport
    /// reported. A read yields its word, a write yields zero; a transport
    /// failure is fatal: the link moves to `Failed` for good.
    pub fn finish(&mut self, outcome: TransportOutcome) -> (r: Result<u32, BridgeError>)
        requires
            old(self).wf(),
            old(self).in_flight(),
        ensures
            final(self).wf(),
            !final(self).in_flight(),
            final(self).spec_kind() == old(self).spec_kind(),
            final(self).offset() == old(self).offset(),
            final(self).log() == old(self).log().push(BusEvent::Exit),
            match outcome {
                TransportOutcome::Word(w) => r == Ok::<u32, BridgeError>(w) && final(self).link()
                    == old(self).link(),
                TransportOutcome::Done => r == Ok::<u32, BridgeError>(0u32) && final(self).link()
                    == old(self).link(),
                TransportOutcome::TimedOut => r == Err::<u32, BridgeError>(BridgeError::Timeout)
                    && final(self).link() == old(self).link(),
                TransportOutcome::Failed => r == Err::<u32, BridgeError>(
                    BridgeError::TransportError,
                ) && final(self).link() is Failed,
            },
    {
        proof {
            lemma_serialized_push(self.log@, BusEvent::Exit);
        }
        self.log = Ghost(self.log@.push(BusEvent::Exit));
        self.in_flight = false;
        match outcome {
            TransportOutcome::Word(w) => Ok(w),
            TransportOutcome::Done => Ok(0),
            TransportOutcome::TimedOut => Err(BridgeError::Timeout),
            TransportOutcome::Failed => {
                self.link = LinkState::Failed;
                Err(BridgeError::TransportError)
            },
        }
    }
}

} // verus!
