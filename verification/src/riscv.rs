//! RISC-V debug-module client.
//!
//! Drives an external debug module, reached through word-sized bus
//! transactions at a configurable base address, to control one hart:
//! halt/resume/step, register and memory access, and breakpoints. The run
//! state moves only through these documented operations; every register,
//! memory or breakpoint operation other than `halt` demands a halted hart
//! and fails with `NotHalted` otherwise. Software breakpoints save the
//! original instruction word and restore exactly that word on clear;
//! hardware breakpoints program a trigger, or fail with `Unsupported` when
//! the target exposes none.

use vstd::prelude::*;

use crate::assoc::assoc_map;
use crate::assoc::lemma_assoc_absent;
use crate::assoc::lemma_assoc_match;
use crate::assoc::lemma_assoc_push;
use crate::assoc::lemma_assoc_remove;
use crate::assoc::lemma_unique_remove;
use crate::assoc::unique_keys;
use crate::bridge::translate;
use crate::bus::DebugBus;
use crate::errors::BridgeError;
use crate::errors::DebugError;

verus! {

/// Debug-module register offsets, relative to the module's base address.
pub const REG_STATUS: u32 = 0x00;

pub const REG_CONTROL: u32 = 0x04;

pub const REG_REGNO: u32 = 0x08;

pub const REG_REGVALUE: u32 = 0x0C;

pub const REG_CMD: u32 = 0x10;

pub const REG_SBADDR: u32 = 0x14;

pub const REG_SBDATA: u32 = 0x18;

pub const REG_TSELECT: u32 = 0x1C;

pub const REG_TDATA: u32 = 0x20;

/// Status-register bits.
pub const STATUS_HALTED: u32 = 0x1;

pub const STATUS_BUSY: u32 = 0x2;

pub const STATUS_CMDERR: u32 = 0x4;

pub const STATUS_RESUME_ACK: u32 = 0x8;

/// Control-register request bits.
pub const CONTROL_HALT_REQ: u32 = 0x1;

pub const CONTROL_RESUME_REQ: u32 = 0x2;

pub const CONTROL_STEP_REQ: u32 = 0x4;

pub const CONTROL_CLEAR_ERR: u32 = 0x8;

/// Abstract-command codes.
pub const CMD_READ_REG: u32 = 1;

pub const CMD_WRITE_REG: u32 = 2;

/// The RISC-V `ebreak` instruction, planted as a software breakpoint.
pub const EBREAK: u32 = 0x0010_0073;

/// Register index of the program counter in target register order
/// (after the 32 integer registers).
pub const REG_PC: u32 = 32;

/// How many trigger slots the client will program at most.
pub const MAX_TRIGGERS: u32 = 16;

/// Run state of the debugged hart, as last confirmed over the bus.
#[derive(Clone, Copy, Debug, PartialEq, Eq, Structural)]
pub enum RunState {
    Unknown,
    Running,
    Halted,
}

/// No value occurs twice in the list.
pub open spec fn unique_vals(s: Seq<u32>) -> bool {
    forall|i: int, j: int| 0 <= i < j < s.len() ==> s[i] != s[j]
}

/// Byte `k` (little-endian) of the word `w`.
pub open spec fn spec_word_byte(w: u32, k: u32) -> u8 {
    if k == 0 {
        (w % 256) as u8
    } else if k == 1 {
        ((w / 256) % 256) as u8
    } else if k == 2 {
        ((w / 65536) % 256) as u8
    } else {
        (w / 16777216) as u8
    }
}

/// The word `w` with its byte `k` (little-endian) replaced by `b`.
pub open spec fn spec_word_set_byte(w: u32, k: u32, b: u8) -> u32 {
    (if k == 0 {
        b as int
    } else {
        w as int % 256
    } + 256 * (if k == 1 {
        b as int
    } else {
        (w as int / 256) % 256
    }) + 65536 * (if k == 2 {
        b as int
    } else {
        (w as int / 65536) % 256
    }) + 16777216 * (if k == 3 {
        b as int
    } else {
        w as int / 16777216
    })) as u32
}

/// Byte `k` (little-endian) of the word `w`.
pub fn word_byte(w: u32, k: u32) -> (r: u8)
    requires
        k < 4,
    ensures
        r == spec_word_byte(w, k),
{
    if k == 0 {
        (w % 256) as u8
    } else if k == 1 {
        ((w / 256) % 256) as u8
    } else if k == 2 {
        ((w / 65536) % 256) as u8
    } else {
        (w / 16777216) as u8
    }
}

/// The word `w` with its byte `k` (little-endian) replaced by `b`.
pub fn word_set_byte(w: u32, k: u32, b: u8) -> (r: u32)
    requires
        k < 4,
    ensures
        r == spec_word_set_byte(w, k, b),
{
    let b0: u32 = if k == 0 {
        b as u32
    } else {
        w % 256
    };
    let b1: u32 = if k == 1 {
        b as u32
    } else {
        (w / 256) % 256
    };
    let b2: u32 = if k == 2 {
        b as u32
    } else {
        (w / 65536) % 256
    };
    let b3: u32 = if k == 3 {
        b as u32
    } else {
        w / 16777216
    };
    b0 + 256 * b1 + 65536 * b2 + 16777216 * b3
}

/// Poll `address` until the bits in `mask` are (`want_set`) or are not all
/// clear, giving up after `limit` reads. On success the returned status
/// word shows the wanted bit state; the only failures are the poll budget
/// running out and a bus failure.
fn poll_status<B: DebugBus>(
    bus: &mut B,
    address: u32,
    mask: u32,
    want_set: bool,
    limit: u32,
) -> (r: Result<u32, DebugError>)
    ensures
        r matches Ok(w) ==> ((w & mask) != 0) == want_set,
        r is Err ==> r == Err::<u32, DebugError>(DebugError::Timeout) || r matches Err(
            DebugError::Bus(_),
        ),
{
    let mut tries: u32 = 0;
    while tries < limit
        invariant
            tries <= limit,
        decreases limit - tries,
    {
        match bus.read_word(address) {
            Ok(w) => {
                let set = (w & mask) != 0;
                if set == want_set {
                    return Ok(w);
                }
            },
            Err(e) => {
                return Err(DebugError::Bus(e));
            },
        }
        tries = tries + 1;
    }
    Err(DebugError::Timeout)
}

/// Wait for an abstract command to leave its busy state. A sticky error is
/// cleared and waited out once more; a second error, or exhausting the
/// retry budget while busy, fails with `CommandError`. On success the
/// returned status word shows the command neither busy nor in error.
fn wait_abstract<B: DebugBus>(
    bus: &mut B,
    status_address: u32,
    control_address: u32,
    limit: u32,
) -> (r: Result<u32, DebugError>)
    ensures
        r matches Ok(w) ==> (w & STATUS_BUSY) == 0 && (w & STATUS_CMDERR) == 0,
        r is Err ==> r == Err::<u32, DebugError>(DebugError::CommandError) || r matches Err(
            DebugError::Bus(_),
        ),
{
    let mut tries: u32 = 0;
    let mut cleared: bool = false;
    while tries < limit
        invariant
            tries <= limit,
        decreases
                limit - tries,
                (if cleared {
                    0int
                } else {
                    1int
                }),
    {
        let w = match bus.read_word(status_address) {
            Ok(w) => w,
            Err(e) => {
                return Err(DebugError::Bus(e));
            },
        };
        if (w & STATUS_BUSY) != 0 {
            tries = tries + 1;
        } else if (w & STATUS_CMDERR) != 0 {
            if cleared {
                return Err(DebugError::CommandError);
            }
            match bus.write_word(control_address, CONTROL_CLEAR_ERR) {
                Ok(u) => u,
                Err(e) => {
                    return Err(DebugError::Bus(e));
                },
            };
            cleared = true;
        } else {
            return Ok(w);
        }
    }
    Err(DebugError::CommandError)
}

/// Read the word at bus address `address` through the system-bus-access
/// window at `base`. Only a bus failure can fail it.
fn sb_read<B: DebugBus>(bus: &mut B, base: u32, address: u32) -> (r: Result<u32, DebugError>)
    ensures
        r is Err ==> r matches Err(DebugError::Bus(_)),
{
    match bus.write_word(translate(base, REG_SBADDR), address) {
        Ok(u) => u,
        Err(e) => {
            return Err(DebugError::Bus(e));
        },
    };
    match bus.read_word(translate(base, REG_SBDATA)) {
        Ok(w) => Ok(w),
        Err(e) => Err(DebugError::Bus(e)),
    }
}

/// Write the word at bus address `address` through the system-bus-access
/// window at `base`. Only a bus failure can fail it.
fn sb_write<B: DebugBus>(bus: &mut B, base: u32, address: u32, value: u32) -> (r: Result<
    (),
    DebugError,
>)
    ensures
        r is Err ==> r matches Err(DebugError::Bus(_)),
{
    match bus.write_word(translate(base, REG_SBADDR), address) {
        Ok(u) => u,
        Err(e) => {
            return Err(DebugError::Bus(e));
        },
    };
    match bus.write_word(translate(base, REG_SBDATA), value) {
        Ok(u) => Ok(u),
        Err(e) => Err(DebugError::Bus(e)),
    }
}

/// Law: planting a breakpoint and then clearing it restores exactly the
/// instruction word observed before insertion. `set_breakpoint` saves the
/// observed word under the address; `clear_breakpoint` writes back and
/// returns precisely the saved word, and the saved map returns to its
/// previous state.
pub proof fn lemma_breakpoint_round_trip(bps: Map<u32, u32>, address: u32, observed: u32)
    requires
        !bps.contains_key(address),
    ensures
        bps.insert(address, observed)[address] == observed,
        bps.insert(address, observed).remove(address) == bps,
{
    assert(bps.insert(address, observed).remove(address) =~= bps);
}

/// Client of one external debug module, driving one hart over the bus `B`.
pub struct DebugModule<B: DebugBus> {
    bus: B,
    base: u32,
    has_triggers: bool,
    poll_limit: u32,
    retry_limit: u32,
    run_state: RunState,
    reg_cache: Vec<(u32, u32)>,
    breakpoints: Vec<(u32, u32)>,
    hw_breakpoints: Vec<u32>,
}

impl<B: DebugBus> DebugModule<B> {
    /// The bus the client drives.
    pub closed spec fn spec_bus(self) -> B {
        self.bus
    }

    /// Bus address of the debug module's first register.
    pub closed spec fn base(self) -> u32 {
        self.base
    }

    /// Whether the target exposes trigger registers (hardware breakpoints).
    pub closed spec fn triggers(self) -> bool {
        self.has_triggers
    }

    /// Poll budget for halt/resume/step state changes.
    pub closed spec fn spec_poll_limit(self) -> u32 {
        self.poll_limit
    }

    /// Retry budget for busy abstract commands.
    pub closed spec fn spec_retry_limit(self) -> u32 {
        self.retry_limit
    }

    /// Run state as last confirmed over the bus.
    pub closed spec fn run_state(self) -> RunState {
        self.run_state
    }

    /// Software breakpoints: address to saved original instruction word.
    pub closed spec fn bp_map(self) -> Map<u32, u32> {
        assoc_map(self.breakpoints@)
    }

    /// Register cache: register index to last transferred value.
    pub closed spec fn cache_map(self) -> Map<u32, u32> {
        assoc_map(self.reg_cache@)
    }

    /// Addresses with a programmed hardware trigger.
    pub closed spec fn hw_list(self) -> Seq<u32> {
        self.hw_breakpoints@
    }

    /// Well-formedness: breakpoint addresses are unique within the session,
    /// for software and hardware breakpoints alike.
    pub closed spec fn wf(self) -> bool {
        &&& unique_keys(self.breakpoints@)
        &&& unique_vals(self.hw_breakpoints@)
    }

    /// The configuration does not change after construction.
    pub open spec fn same_config(self, other: Self) -> bool {
        &&& self.base() == other.base()
        &&& self.triggers() == other.triggers()
        &&& self.spec_poll_limit() == other.spec_poll_limit()
        &&& self.spec_retry_limit() == other.spec_retry_limit()
    }

    /// A fresh client in the `Unknown` run state, with no breakpoints and an
    /// empty register cache.
    pub fn new(bus: B, base: u32, has_triggers: bool, poll_limit: u32, retry_limit: u32) -> (dm:
        DebugModule<B>)
        ensures
            dm.wf(),
            dm.base() == base,
            dm.triggers() == has_triggers,
            dm.spec_poll_limit() == poll_limit,
            dm.spec_retry_limit() == retry_limit,
            dm.run_state() is Unknown,
            dm.bp_map() == Map::<u32, u32>::empty(),
            dm.cache_map() == Map::<u32, u32>::empty(),
            dm.hw_list() == Seq::<u32>::empty(),
    {
        DebugModule {
            bus,
            base,
            has_triggers,
            poll_limit,
            retry_limit,
            run_state: RunState::Unknown,
            reg_cache: Vec::new(),
            breakpoints: Vec::new(),
            hw_breakpoints: Vec::new(),
        }
    }

    /// Borrow the underlying bus (for inspection by callers that own it).
    pub fn bus_ref(&self) -> (r: &B)
        ensures
            *r == self.spec_bus(),
    {
        &self.bus
    }

    /// The run state as last confirmed over the bus.
    pub fn current_state(&self) -> (r: RunState)
        ensures
            r == self.run_state(),
    {
        self.run_state
    }

    /// Whether the target exposes hardware triggers.
    pub fn triggers_supported(&self) -> (r: bool)
        ensures
            r == self.triggers(),
    {
        self.has_triggers
    }

    /// Whether a software breakpoint is planted at `address`.
    pub fn has_sw_breakpoint_at(&self, address: u32) -> (r: bool)
        requires
            self.wf(),
        ensures
            r == self.bp_map().contains_key(address),
    {
        match self.bp_index(address) {
            Some(i) => {
                proof {
                    self.lemma_bp_index_match(i as int);
                }
                true
            },
            None => {
                proof {
                    lemma_assoc_absent(self.breakpoints@, address);
                }
                false
            },
        }
    }

    /// Index of the saved entry for `address`, if a breakpoint is planted
    /// there.
    fn bp_index(&self, address: u32) -> (r: Option<usize>)
        ensures
            match r {
                Some(i) => i < self.breakpoints@.len() && self.breakpoints@[i as int].0 == address,
                None => forall|j: int|
                    0 <= j < self.breakpoints@.len() ==> (#[trigger] self.breakpoints@[j]).0
                        != address,
            },
    {
        let mut i: usize = 0;
        while i < self.breakpoints.len()
            invariant
                i <= self.breakpoints@.len(),
                forall|j: int| 0 <= j < i ==> (#[trigger] self.breakpoints@[j]).0 != address,
            decreases self.breakpoints@.len() - i,
        {
            if self.breakpoints[i].0 == address {
                return Some(i);
            }
            i = i + 1;
        }
        None
    }

    proof fn lemma_bp_index_match(&self, i: int)
        requires
            self.wf(),
            0 <= i < self.breakpoints@.len(),
        ensures
            self.bp_map().contains_key(self.breakpoints@[i].0),
            self.bp_map()[self.breakpoints@[i].0] == self.breakpoints@[i].1,
    {
        lemma_assoc_match(self.breakpoints@, i);
    }

    /// Value cached for register `regno`, if any.
    fn cache_get(&self, regno: u32) -> (r: Option<u32>)
        ensures
            r == if self.cache_map().contains_key(regno) {
                Some(self.cache_map()[regno])
            } else {
                None::<u32>
            },
    {
        let mut i: usize = self.reg_cache.len();
        while i > 0
            invariant
                i <= self.reg_cache@.len(),
                forall|j: int|
                    i <= j < self.reg_cache@.len() ==> (#[trigger] self.reg_cache@[j]).0 != regno,
            decreases i,
        {
            i = i - 1;
            if self.reg_cache[i].0 == regno {
                proof {
                    lemma_assoc_match(self.reg_cache@, i as int);
                }
                return Some(self.reg_cache[i].1);
            }
        }
        proof {
            lemma_assoc_absent(self.reg_cache@, regno);
        }
        None
    }

    /// Probe the target once and adopt its current run state.
    pub fn initialize(&mut self) -> (r: Result<(), DebugError>)
        requires
            old(self).wf(),
        ensures
            final(self).wf(),
            old(self).same_config(*final(self)),
            final(self).bp_map() == old(self).bp_map(),
            final(self).cache_map() == old(self).cache_map(),
            final(self).hw_list() == old(self).hw_list(),
            r is Ok ==> !(final(self).run_state() is Unknown),
            r is Err ==> final(self).run_state() == old(self).run_state() && r matches Err(
                DebugError::Bus(_),
            ),
    {
        match self.bus.read_word(translate(self.base, REG_STATUS)) {
            Ok(w) => {
                if (w & STATUS_HALTED) != 0 {
                    self.run_state = RunState::Halted;
                } else {
                    self.run_state = RunState::Running;
                }
                Ok(())
            },
            Err(e) => Err(DebugError::Bus(e)),
        }
    }

    /// Request a halt and poll until the halted bit is seen. Succeeds only
    /// once the hart is confirmed halted; a halted hart halts trivially.
    pub fn halt(&mut self) -> (r: Result<(), DebugError>)
        requires
            old(self).wf(),
        ensures
            final(self).wf(),
            old(self).same_config(*final(self)),
            final(self).bp_map() == old(self).bp_map(),
            final(self).cache_map() == old(self).cache_map(),
            final(self).hw_list() == old(self).hw_list(),
            old(self).run_state() is Halted ==> r == Ok::<(), DebugError>(()),
            r is Ok ==> final(self).run_state() is Halted,
            r is Err ==> final(self).run_state() == old(self).run_state() && (r == Err::<
                (),
                DebugError,
            >(DebugError::Timeout) || r matches Err(DebugError::Bus(_))),
    {
        if self.run_state == RunState::Halted {
            return Ok(());
        }
        match self.bus.write_word(translate(self.base, REG_CONTROL), CONTROL_HALT_REQ) {
            Ok(u) => u,
            Err(e) => {
                return Err(DebugError::Bus(e));
            },
        };
        match poll_status(
            &mut self.bus,
            translate(self.base, REG_STATUS),
            STATUS_HALTED,
            true,
            self.poll_limit,
        ) {
            Ok(_) => {
                self.run_state = RunState::Halted;
                Ok(())
            },
            Err(e) => Err(e),
        }
    }

    /// Block until the running hart halts of its own accord (a breakpoint, a
    /// completed step), within the poll budget.
    pub fn wait_for_halt(&mut self) -> (r: Result<(), DebugError>)
        requires
            old(self).wf(),
        ensures
            final(self).wf(),
            old(self).same_config(*final(self)),
            final(self).bp_map() == old(self).bp_map(),
            final(self).cache_map() == old(self).cache_map(),
            final(self).hw_list() == old(self).hw_list(),
            r is Ok ==> final(self).run_state() is Halted,
            r is Err ==> final(self).run_state() == old(self).run_state() && (r == Err::<
                (),
                DebugError,
            >(DebugError::Timeout) || r matches Err(DebugError::Bus(_))),
    {
        match poll_status(
            &mut self.bus,
            translate(self.base, REG_STATUS),
            STATUS_HALTED,
            true,
            self.poll_limit,
        ) {
            Ok(_) => {
                self.run_state = RunState::Halted;
                Ok(())
            },
            Err(e) => Err(e),
        }
    }

    /// Let the halted hart run. The register cache is invalidated. On
    /// success the hart was confirmed resumed; on a failure after the
    /// request went out, the run state is honestly `Unknown`.
    pub fn resume(&mut self) -> (r: Result<(), DebugError>)
        requires
            old(self).wf(),
        ensures
            final(self).wf(),
            old(self).same_config(*final(self)),
            final(self).bp_map() == old(self).bp_map(),
            final(self).hw_list() == old(self).hw_list(),
            !(old(self).run_state() is Halted) ==> r == Err::<(), DebugError>(DebugError::NotHalted)
                && final(self).run_state() == old(self).run_state() && final(self).cache_map()
                == old(self).cache_map(),
            r is Ok ==> final(self).run_state() is Running && final(self).cache_map() == Map::<
                u32,
                u32,
            >::empty(),
            old(self).run_state() is Halted && r is Err ==> final(self).run_state() is Unknown && (
            r == Err::<(), DebugError>(DebugError::Timeout) || r matches Err(DebugError::Bus(_))),
    {
        if !(self.run_state == RunState::Halted) {
            return Err(DebugError::NotHalted);
        }
        self.reg_cache = Vec::new();
        self.run_state = RunState::Unknown;
        match self.bus.write_word(translate(self.base, REG_CONTROL), CONTROL_RESUME_REQ) {
            Ok(u) => u,
            Err(e) => {
                return Err(DebugError::Bus(e));
            },
        };
        match poll_status(
            &mut self.bus,
            translate(self.base, REG_STATUS),
            STATUS_RESUME_ACK,
            true,
            self.poll_limit,
        ) {
            Ok(_) => {
                self.run_state = RunState::Running;
                Ok(())
            },
            Err(e) => Err(e),
        }
    }

    /// Retire exactly one instruction on the halted hart and halt again.
    /// The register cache is invalidated.
    pub fn step(&mut self) -> (r: Result<(), DebugError>)
        requires
            old(self).wf(),
        ensures
            final(self).wf(),
            old(self).same_config(*final(self)),
            final(self).bp_map() == old(self).bp_map(),
            final(self).hw_list() == old(self).hw_list(),
            !(old(self).run_state() is Halted) ==> r == Err::<(), DebugError>(DebugError::NotHalted)
                && final(self).run_state() == old(self).run_state() && final(self).cache_map()
                == old(self).cache_map(),
            r is Ok ==> final(self).run_state() is Halted && final(self).cache_map() == Map::<
                u32,
                u32,
            >::empty(),
            old(self).run_state() is Halted && r is Err ==> final(self).run_state() is Unknown && (
            r == Err::<(), DebugError>(DebugError::Timeout) || r matches Err(DebugError::Bus(_))),
    {
        if !(self.run_state == RunState::Halted) {
            return Err(DebugError::NotHalted);
        }
        self.reg_cache = Vec::new();
        self.run_state = RunState::Unknown;
        match self.bus.write_word(translate(self.base, REG_CONTROL), CONTROL_STEP_REQ) {
            Ok(u) => u,
            Err(e) => {
                return Err(DebugError::Bus(e));
            },
        };
        match poll_status(
            &mut self.bus,
            translate(self.base, REG_STATUS),
            STATUS_HALTED,
            true,
            self.poll_limit,
        ) {
            Ok(_) => {
                self.run_state = RunState::Halted;
                Ok(())
            },
            Err(e) => Err(e),
        }
    }

    /// Read register `regno` through an abstract command, serving repeated
    /// reads from the cache. Demands a halted hart.
    pub fn read_register(&mut self, regno: u32) -> (r: Result<u32, DebugError>)
        requires
            old(self).wf(),
        ensures
            final(self).wf(),
            old(self).same_config(*final(self)),
            final(self).run_state() == old(self).run_state(),
            final(self).bp_map() == old(self).bp_map(),
            final(self).hw_list() == old(self).hw_list(),
            !(old(self).run_state() is Halted) ==> r == Err::<u32, DebugError>(
                DebugError::NotHalted,
            ),
            old(self).run_state() is Halted && old(self).cache_map().contains_key(regno) ==> r
                == Ok::<u32, DebugError>(old(self).cache_map()[regno]),
            old(self).run_state() is Halted && r is Err ==> r == Err::<u32, DebugError>(
                DebugError::CommandError,
            ) || r matches Err(DebugError::Bus(_)),
            r matches Ok(w) ==> final(self).cache_map() == old(self).cache_map().insert(regno, w),
            r is Err ==> final(self).cache_map() == old(self).cache_map(),
    {
        if !(self.run_state == RunState::Halted) {
            return Err(DebugError::NotHalted);
        }
        match self.cache_get(regno) {
            Some(w) => {
                proof {
                    assert(self.cache_map() =~= self.cache_map().insert(regno, w));
                }
                return Ok(w);
            },
            None => {},
        }
        match self.bus.write_word(translate(self.base, REG_REGNO), regno) {
            Ok(u) => u,
            Err(e) => {
                return Err(DebugError::Bus(e));
            },
        };
        match self.bus.write_word(translate(self.base, REG_CMD), CMD_READ_REG) {
            Ok(u) => u,
            Err(e) => {
                return Err(DebugError::Bus(e));
            },
        };
        match wait_abstract(
            &mut self.bus,
            translate(self.base, REG_STATUS),
            translate(self.base, REG_CONTROL),
            self.retry_limit,
        ) {
            Ok(u) => u,
            Err(e) => {
                return Err(e);
            },
        };
        match self.bus.read_word(translate(self.base, REG_REGVALUE)) {
            Ok(w) => {
                proof {
                    lemma_assoc_push(self.reg_cache@, (regno, w));
                }
                self.reg_cache.push((regno, w));
                Ok(w)
            },
            Err(e) => Err(DebugError::Bus(e)),
        }
    }

    /// Write register `regno` through an abstract command and remember the
    /// value in the cache. Demands a halted hart.
    pub fn write_register(&mut self, regno: u32, value: u32) -> (r: Result<(), DebugError>)
        requires
            old(self).wf(),
        ensures
            final(self).wf(),
            old(self).same_config(*final(self)),
            final(self).run_state() == old(self).run_state(),
            final(self).bp_map() == old(self).bp_map(),
            final(self).hw_list() == old(self).hw_list(),
            !(old(self).run_state() is Halted) ==> r == Err::<(), DebugError>(
                DebugError::NotHalted,
            ),
            old(self).run_state() is Halted && r is Err ==> r == Err::<(), DebugError>(
                DebugError::CommandError,
            ) || r matches Err(DebugError::Bus(_)),
            r is Ok ==> final(self).cache_map() == old(self).cache_map().insert(regno, value),
            r is Err ==> final(self).cache_map() == old(self).cache_map(),
    {
        if !(self.run_state == RunState::Halted) {
            return Err(DebugError::NotHalted);
        }
        match self.bus.write_word(translate(self.base, REG_REGNO), regno) {
            Ok(u) => u,
            Err(e) => {
                return Err(DebugError::Bus(e));
            },
        };
        match self.bus.write_word(translate(self.base, REG_REGVALUE), value) {
            Ok(u) => u,
            Err(e) => {
                return Err(DebugError::Bus(e));
            },
        };
        match self.bus.write_word(translate(self.base, REG_CMD), CMD_WRITE_REG) {
            Ok(u) => u,
            Err(e) => {
                return Err(DebugError::Bus(e));
            },
        };
        match wait_abstract(
            &mut self.bus,
            translate(self.base, REG_STATUS),
            translate(self.base, REG_CONTROL),
            self.retry_limit,
        ) {
            Ok(u) => u,
            Err(e) => {
                return Err(e);
            },
        };
        proof {
            lemma_assoc_push(self.reg_cache@, (regno, value));
        }
        self.reg_cache.push((regno, value));
        Ok(())
    }

    /// Read `length` bytes starting at `address` over the system-bus path.
    /// Bytes at non-word-aligned boundaries are extracted from their
    /// containing word, so adjacent bytes are never touched. Demands a
    /// halted hart.
    pub fn read_memory(&mut self, address: u32, length: u32) -> (r: Result<Vec<u8>, DebugError>)
        requires
            old(self).wf(),
        ensures
            final(self).wf(),
            old(self).same_config(*final(self)),
            final(self).run_state() == old(self).run_state(),
            final(self).bp_map() == old(self).bp_map(),
            final(self).cache_map() == old(self).cache_map(),
            final(self).hw_list() == old(self).hw_list(),
            !(old(self).run_state() is Halted) ==> r == Err::<Vec<u8>, DebugError>(
                DebugError::NotHalted,
            ),
            old(self).run_state() is Halted && length == 0 ==> (r matches Ok(v) && v@ == Seq::<
                u8,
            >::empty()),
            old(self).run_state() is Halted && r is Err ==> r matches Err(DebugError::Bus(_)),
            r matches Ok(v) ==> v@.len() == length,
    {
        if !(self.run_state == RunState::Halted) {
            return Err(DebugError::NotHalted);
        }
        let mut out: Vec<u8> = Vec::new();
        let mut i: u32 = 0;
        while i < length
            invariant
                i <= length,
                out@.len() == i,
                old(self).run_state() is Halted,
                self.wf(),
                old(self).same_config(*self),
                self.run_state() == old(self).run_state(),
                self.bp_map() == old(self).bp_map(),
                self.cache_map() == old(self).cache_map(),
                self.hw_list() == old(self).hw_list(),
            decreases length - i,
        {
            let a = translate(address, i);
            let k = a % 4;
            let aligned = a - k;
            let w = match sb_read(&mut self.bus, self.base, aligned) {
                Ok(w) => w,
                Err(e) => {
                    return Err(e);
                },
            };
            out.push(word_byte(w, k));
            i = i + 1;
        }
        Ok(out)
    }

    /// Write `data` starting at `address` over the system-bus path, by
    /// read-modify-write of each containing word: bytes adjacent to a
    /// non-word-aligned boundary are preserved. Demands a halted hart.
    pub fn write_memory(&mut self, address: u32, data: &Vec<u8>) -> (r: Result<(), DebugError>)
        requires
            old(self).wf(),
            data@.len() <= 0xFFFF_FFFF,
        ensures
            final(self).wf(),
            old(self).same_config(*final(self)),
            final(self).run_state() == old(self).run_state(),
            final(self).bp_map() == old(self).bp_map(),
            final(self).cache_map() == old(self).cache_map(),
            final(self).hw_list() == old(self).hw_list(),
            !(old(self).run_state() is Halted) ==> r == Err::<(), DebugError>(
                DebugError::NotHalted,
            ),
            old(self).run_state() is Halted && data@.len() == 0 ==> r == Ok::<(), DebugError>(()),
            old(self).run_state() is Halted && r is Err ==> r matches Err(DebugError::Bus(_)),
    {
        if !(self.run_state == RunState::Halted) {
            return Err(DebugError::NotHalted);
        }
        let mut i: usize = 0;
        while i < data.len()
            invariant
                i <= data@.len(),
                data@.len() <= 0xFFFF_FFFF,
                old(self).run_state() is Halted,
                self.wf(),
                old(self).same_config(*self),
                self.run_state() == old(self).run_state(),
                self.bp_map() == old(self).bp_map(),
                self.cache_map() == old(self).cache_map(),
                self.hw_list() == old(self).hw_list(),
            decreases data@.len() - i,
        {
            let a = translate(address, i as u32);
            let k = a % 4;
            let aligned = a - k;
            let w = match sb_read(&mut self.bus, self.base, aligned) {
                Ok(w) => w,
                Err(e) => {
                    return Err(e);
                },
            };
            let merged = word_set_byte(w, k, data[i]);
            match sb_write(&mut self.bus, self.base, aligned, merged) {
                Ok(u) => u,
                Err(e) => {
                    return Err(e);
                },
            };
            i = i + 1;
        }
        Ok(())
    }

    /// Plant a software breakpoint: save the instruction word observed at
    /// `address`, then write the trap instruction over it. Returns the
    /// saved word. Planting where one is already planted keeps the first
    /// saved word. Demands a halted hart.
    pub fn set_breakpoint(&mut self, address: u32) -> (r: Result<u32, DebugError>)
        requires
            old(self).wf(),
        ensures
            final(self).wf(),
            old(self).same_config(*final(self)),
            final(self).run_state() == old(self).run_state(),
            final(self).cache_map() == old(self).cache_map(),
            final(self).hw_list() == old(self).hw_list(),
            !(old(self).run_state() is Halted) ==> r == Err::<u32, DebugError>(
                DebugError::NotHalted,
            ),
            old(self).run_state() is Halted && old(self).bp_map().contains_key(address) ==> r
                == Ok::<u32, DebugError>(old(self).bp_map()[address]),
            old(self).run_state() is Halted && r is Err ==> r matches Err(DebugError::Bus(_)),
            r matches Ok(w) ==> final(self).bp_map() == old(self).bp_map().insert(address, w) && (
            old(self).bp_map().contains_key(address) ==> w == old(self).bp_map()[address]),
            r is Err ==> final(self).bp_map() == old(self).bp_map(),
    {
        if !(self.run_state == RunState::Halted) {
            return Err(DebugError::NotHalted);
        }
        match self.bp_index(address) {
            Some(i) => {
                let w = self.breakpoints[i].1;
                proof {
                    self.lemma_bp_index_match(i as int);
                    assert(self.bp_map() =~= self.bp_map().insert(address, w));
                }
                return Ok(w);
            },
            None => {
                proof {
                    lemma_assoc_absent(self.breakpoints@, address);
                }
            },
        }
        let w = match sb_read(&mut self.bus, self.base, address) {
            Ok(w) => w,
            Err(e) => {
                return Err(e);
            },
        };
        match sb_write(&mut self.bus, self.base, address, EBREAK) {
            Ok(u) => u,
            Err(e) => {
                return Err(e);
            },
        };
        proof {
            lemma_assoc_push(self.breakpoints@, (address, w));
            lemma_assoc_absent(self.breakpoints@, address);
            assert(self.breakpoints@.push((address, w)).drop_last() =~= self.breakpoints@);
        }
        self.breakpoints.push((address, w));
        Ok(w)
    }

    /// Remove the software breakpoint at `address`, writing the saved
    /// instruction word — exactly the word observed when it was planted —
    /// back over the trap instruction. Returns the restored word. Demands a
    /// halted hart.
    pub fn clear_breakpoint(&mut self, address: u32) -> (r: Result<u32, DebugError>)
        requires
            old(self).wf(),
        ensures
            final(self).wf(),
            old(self).same_config(*final(self)),
            final(self).run_state() == old(self).run_state(),
            final(self).cache_map() == old(self).cache_map(),
            final(self).hw_list() == old(self).hw_list(),
            !(old(self).run_state() is Halted) ==> r == Err::<u32, DebugError>(
                DebugError::NotHalted,
            ),
            old(self).run_state() is Halted && !old(self).bp_map().contains_key(address) ==> r
                == Err::<u32, DebugError>(DebugError::CommandError),
            old(self).run_state() is Halted && old(self).bp_map().contains_key(address) ==> r
                != Err::<u32, DebugError>(DebugError::CommandError),
            old(self).run_state() is Halted && r is Err ==> r == Err::<u32, DebugError>(
                DebugError::CommandError,
            ) || r matches Err(DebugError::Bus(_)),
            r matches Ok(w) ==> old(self).bp_map().contains_key(address) && w == old(
                self,
            ).bp_map()[address] && final(self).bp_map() == old(self).bp_map().remove(address),
            r is Err ==> final(self).bp_map() == old(self).bp_map(),
    {
        if !(self.run_state == RunState::Halted) {
            return Err(DebugError::NotHalted);
        }
        let i = match self.bp_index(address) {
            Some(i) => i,
            None => {
                proof {
                    lemma_assoc_absent(self.breakpoints@, address);
                }
                return Err(DebugError::CommandError);
            },
        };
        let w = self.breakpoints[i].1;
        proof {
            self.lemma_bp_index_match(i as int);
        }
        match sb_write(&mut self.bus, self.base, address, w) {
            Ok(u) => u,
            Err(e) => {
                return Err(e);
            },
        };
        proof {
            lemma_assoc_remove(self.breakpoints@, i as int);
            lemma_unique_remove(self.breakpoints@, i as int);
        }
        self.breakpoints.remove(i);
        Ok(w)
    }

    /// The addresses that currently carry a software breakpoint.
    pub fn breakpoint_addresses(&self) -> (r: Vec<u32>)
        requires
            self.wf(),
        ensures
            forall|i: int| 0 <= i < r@.len() ==> self.bp_map().contains_key(#[trigger] r@[i]),
    {
        let mut r: Vec<u32> = Vec::new();
        let mut i: usize = 0;
        while i < self.breakpoints.len()
            invariant
                self.wf(),
                i <= self.breakpoints@.len(),
                forall|k: int| 0 <= k < r@.len() ==> self.bp_map().contains_key(#[trigger] r@[k]),
            decreases self.breakpoints@.len() - i,
        {
            proof {
                self.lemma_bp_index_match(i as int);
            }
            r.push(self.breakpoints[i].0);
            i = i + 1;
        }
        r
    }

    /// Clear every software breakpoint of this session from the target,
    /// best-effort: one that cannot be restored is skipped and left planted,
    /// never fatal. Clearing only ever removes entries: the final map is a
    /// restriction of the old one, no saved word is added or rewritten.
    /// Used at session teardown.
    pub fn clear_all_breakpoints(&mut self)
        requires
            old(self).wf(),
        ensures
            final(self).wf(),
            old(self).same_config(*final(self)),
            final(self).run_state() == old(self).run_state(),
            final(self).cache_map() == old(self).cache_map(),
            final(self).hw_list() == old(self).hw_list(),
            final(self).bp_map().submap_of(old(self).bp_map()),
    {
        let addresses = self.breakpoint_addresses();
        let mut i: usize = 0;
        while i < addresses.len()
            invariant
                self.wf(),
                old(self).same_config(*self),
                self.run_state() == old(self).run_state(),
                self.cache_map() == old(self).cache_map(),
                self.hw_list() == old(self).hw_list(),
                self.bp_map().submap_of(old(self).bp_map()),
            decreases addresses@.len() - i,
        {
            let ghost before = self.bp_map();
            let _ = self.clear_breakpoint(addresses[i]);
            proof {
                assert(self.bp_map().submap_of(before));
            }
            i = i + 1;
        }
    }

    /// Whether a hardware trigger is programmed at `address`.
    pub fn has_hw_breakpoint_at(&self, address: u32) -> (r: bool)
        ensures
            r == self.hw_list().contains(address),
    {
        match self.hw_index(address) {
            Some(i) => {
                proof {
                    assert(self.hw_list()[i as int] == address);
                }
                true
            },
            None => {
                proof {
                    assert(forall|j: int|
                        0 <= j < self.hw_list().len() ==> self.hw_list()[j] != address);
                }
                false
            },
        }
    }

    /// Index of `address` in the programmed-trigger list.
    fn hw_index(&self, address: u32) -> (r: Option<usize>)
        ensures
            match r {
                Some(i) => i < self.hw_breakpoints@.len() && self.hw_breakpoints@[i as int]
                    == address,
                None => forall|j: int|
                    0 <= j < self.hw_breakpoints@.len() ==> self.hw_breakpoints@[j] != address,
            },
    {
        let mut i: usize = 0;
        while i < self.hw_breakpoints.len()
            invariant
                i <= self.hw_breakpoints@.len(),
                forall|j: int| 0 <= j < i ==> self.hw_breakpoints@[j] != address,
            decreases self.hw_breakpoints@.len() - i,
        {
            if self.hw_breakpoints[i] == address {
                return Some(i);
            }
            i = i + 1;
        }
        None
    }

    /// Program a hardware trigger at `address`. Fails with `Unsupported`
    /// when the target exposes no triggers or all slots are taken. Demands
    /// a halted hart.
    pub fn set_hw_breakpoint(&mut self, address: u32) -> (r: Result<(), DebugError>)
        requires
            old(self).wf(),
        ensures
            final(self).wf(),
            old(self).same_config(*final(self)),
            final(self).run_state() == old(self).run_state(),
            final(self).bp_map() == old(self).bp_map(),
            final(self).cache_map() == old(self).cache_map(),
            !(old(self).run_state() is Halted) ==> r == Err::<(), DebugError>(
                DebugError::NotHalted,
            ),
            old(self).run_state() is Halted && !old(self).triggers() ==> r == Err::<(), DebugError>(
                DebugError::Unsupported,
            ),
            old(self).run_state() is Halted && old(self).triggers() && old(
                self,
            ).hw_list().contains(address) ==> r == Ok::<(), DebugError>(()),
            old(self).run_state() is Halted && old(self).triggers() && r is Err ==> r == Err::<
                (),
                DebugError,
            >(DebugError::Unsupported) || r matches Err(DebugError::Bus(_)),
            r is Ok ==> final(self).hw_list().contains(address),
            r is Err ==> final(self).hw_list() == old(self).hw_list(),
    {
        if !(self.run_state == RunState::Halted) {
            return Err(DebugError::NotHalted);
        }
        if !self.has_triggers {
            return Err(DebugError::Unsupported);
        }
        match self.hw_index(address) {
            Some(i) => {
                proof {
                    assert(self.hw_list()[i as int] == address);
                }
                return Ok(());
            },
            None => {},
        }
        if self.hw_breakpoints.len() >= MAX_TRIGGERS as usize {
            return Err(DebugError::Unsupported);
        }
        let slot = self.hw_breakpoints.len() as u32;
        match self.bus.write_word(translate(self.base, REG_TSELECT), slot) {
            Ok(u) => u,
            Err(e) => {
                return Err(DebugError::Bus(e));
            },
        };
        match self.bus.write_word(translate(self.base, REG_TDATA), address) {
            Ok(u) => u,
            Err(e) => {
                return Err(DebugError::Bus(e));
            },
        };
        proof {
            assert(forall|j: int|
                0 <= j < self.hw_breakpoints@.len() ==> self.hw_breakpoints@[j] != address);
        }
        self.hw_breakpoints.push(address);
        proof {
            assert(self.hw_list()[self.hw_list().len() - 1] == address);
        }
        Ok(())
    }

    /// Disarm the hardware trigger at `address`. Demands a halted hart.
    pub fn clear_hw_breakpoint(&mut self, address: u32) -> (r: Result<(), DebugError>)
        requires
            old(self).wf(),
        ensures
            final(self).wf(),
            old(self).same_config(*final(self)),
            final(self).run_state() == old(self).run_state(),
            final(self).bp_map() == old(self).bp_map(),
            final(self).cache_map() == old(self).cache_map(),
            !(old(self).run_state() is Halted) ==> r == Err::<(), DebugError>(
                DebugError::NotHalted,
            ),
            old(self).run_state() is Halted && !old(self).triggers() ==> r == Err::<(), DebugError>(
                DebugError::Unsupported,
            ),
            old(self).run_state() is Halted && old(self).triggers() && old(
                self,
            ).hw_list().contains(address) ==> r != Err::<(), DebugError>(DebugError::CommandError),
            old(self).run_state() is Halted && old(self).triggers() && r is Err ==> r == Err::<
                (),
                DebugError,
            >(DebugError::CommandError) || r matches Err(DebugError::Bus(_)),
            r is Ok ==> !final(self).hw_list().contains(address),
            r is Err ==> final(self).hw_list() == old(self).hw_list(),
    {
        if !(self.run_state == RunState::Halted) {
            return Err(DebugError::NotHalted);
        }
        if !self.has_triggers {
            return Err(DebugError::Unsupported);
        }
        let i = match self.hw_index(address) {
            Some(i) => i,
            None => {
                return Err(DebugError::CommandError);
            },
        };
        let slot = i as u32;
        match self.bus.write_word(translate(self.base, REG_TSELECT), slot) {
            Ok(u) => u,
            Err(e) => {
                return Err(DebugError::Bus(e));
            },
        };
        match self.bus.write_word(translate(self.base, REG_TDATA), 0) {
            Ok(u) => u,
            Err(e) => {
                return Err(DebugError::Bus(e));
            },
        };
        proof {
            self.hw_breakpoints@.remove_ensures(i as int);
        }
        let ghost before = self.hw_breakpoints@;
        self.hw_breakpoints.remove(i);
        proof {
            assert forall|j: int| 0 <= j < self.hw_breakpoints@.len() implies self.hw_breakpoints@[j]
                != address by {
                if j < i {
                    assert(self.hw_breakpoints@[j] == before[j]);
                } else {
                    assert(self.hw_breakpoints@[j] == before[j + 1]);
                }
            }
            assert forall|a: int, b: int|
                0 <= a < b < self.hw_breakpoints@.len() implies self.hw_breakpoints@[a]
                != self.hw_breakpoints@[b] by {
                let oa = if a < i {
                    a
                } else {
                    a + 1
                };
                let ob = if b < i {
                    b
                } else {
                    b + 1
                };
                assert(self.hw_breakpoints@[a] == before[oa]);
                assert(self.hw_breakpoints@[b] == before[ob]);
            }
        }
        Ok(())
    }
}

} // verus!
