//! Word-addressed bus access.
//!
//! Everything above the bridge — the debug-module client, the bus server —
//! issues aligned 32-bit reads and writes through [`DebugBus`]. A real
//! implementation drives the bridge and a physical transport; [`MapBus`] is
//! an in-memory implementation, verified to behave as a map of words, used
//! as a loopback target.

use vstd::prelude::*;

use crate::assoc::assoc_map;
use crate::assoc::lemma_assoc_absent;
use crate::assoc::lemma_assoc_match;
use crate::assoc::lemma_assoc_push;
use crate::errors::BridgeError;

verus! {

/// One uniform bus-transaction primitive: aligned 32-bit word read/write.
/// Implementations decide everything about the outcome; callers state what
/// holds of their own behaviour whatever comes back.
pub trait DebugBus {
    /// Read one 32-bit word at `address`.
    fn read_word(&mut self, address: u32) -> Result<u32, BridgeError>;

    /// Write one 32-bit word at `address`.
    fn write_word(&mut self, address: u32, value: u32) -> Result<(), BridgeError>;
}

/// An in-memory bus: a sparse map of 32-bit words, every unwritten address
/// reading as zero. Reads and writes never fail.
pub struct MapBus {
    cells: Vec<(u32, u32)>,
}

impl MapBus {
    /// The words written so far, as a map.
    pub closed spec fn view(&self) -> Map<u32, u32> {
        assoc_map(self.cells@)
    }

    /// An empty bus: every address reads as zero.
    pub fn new() -> (r: MapBus)
        ensures
            r@ == Map::<u32, u32>::empty(),
    {
        MapBus { cells: Vec::new() }
    }

    /// The word at `address`: the last value written there, zero if none.
    pub fn get(&self, address: u32) -> (r: u32)
        ensures
            r == if self@.contains_key(address) {
                self@[address]
            } else {
                0u32
            },
    {
        let mut i: usize = self.cells.len();
        while i > 0
            invariant
                i <= self.cells.len(),
                forall|j: int|
                    i <= j < self.cells@.len() ==> (#[trigger] self.cells@[j]).0 != address,
            decreases i,
        {
            i = i - 1;
            if self.cells[i].0 == address {
                proof {
                    lemma_assoc_match(self.cells@, i as int);
                }
                return self.cells[i].1;
            }
        }
        proof {
            lemma_assoc_absent(self.cells@, address);
        }
        0
    }

    /// Store `value` at `address`.
    pub fn set(&mut self, address: u32, value: u32)
        ensures
            final(self)@ == old(self)@.insert(address, value),
    {
        proof {
            lemma_assoc_push(self.cells@, (address, value));
        }
        self.cells.push((address, value));
    }
}

impl DebugBus for MapBus {
    fn read_word(&mut self, address: u32) -> Result<u32, BridgeError> {
        Ok(self.get(address))
    }

    fn write_word(&mut self, address: u32, value: u32) -> Result<(), BridgeError> {
        self.set(address, value);
        Ok(())
    }
}

} // verus!
