//! Host-side core of a Wishbone bus debug bridge.
//!
//! The crate bridges a host computer to an on-chip Wishbone bus: a
//! transport-independent bridge core that translates and serializes bus
//! transactions, a RISC-V debug-module client driving halt/resume/step,
//! register, memory and breakpoint operations over that bus, a GDB Remote
//! Serial Protocol engine, a minimal wire codec for the raw bus server, and
//! a register-name map. Physical transports (USB, Ethernet, serial, SPI,
//! PCIe) perform the actual I/O outside this crate and are driven through
//! the plain-value interfaces defined here.

pub mod assoc;
pub mod bridge;
pub mod bus;
pub mod errors;
pub mod gdb;
pub mod registers;
pub mod riscv;
pub mod rsp;
pub mod wishbone;

pub use errors::BridgeError;
pub use errors::ConfigError;
pub use errors::DebugError;
