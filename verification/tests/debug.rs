use std::collections::HashMap;

use wishbone_tool::bridge::BridgeCore;
use wishbone_tool::bridge::BridgeKind;
use wishbone_tool::bridge::BusAccess;
use wishbone_tool::bridge::TransportOutcome;
use wishbone_tool::bridge::translate;
use wishbone_tool::bus::DebugBus;
use wishbone_tool::bus::MapBus;
use wishbone_tool::errors::BridgeError;
use wishbone_tool::errors::DebugError;
use wishbone_tool::gdb::GdbSession;
use wishbone_tool::gdb::GdbCommand;
use wishbone_tool::gdb::parse_command;
use wishbone_tool::gdb::process_packet;
use wishbone_tool::riscv::CMD_READ_REG;
use wishbone_tool::riscv::CMD_WRITE_REG;
use wishbone_tool::riscv::CONTROL_HALT_REQ;
use wishbone_tool::riscv::CONTROL_RESUME_REQ;
use wishbone_tool::riscv::CONTROL_STEP_REQ;
use wishbone_tool::riscv::DebugModule;
use wishbone_tool::riscv::EBREAK;
use wishbone_tool::riscv::REG_CMD;
use wishbone_tool::riscv::REG_CONTROL;
use wishbone_tool::riscv::REG_REGNO;
use wishbone_tool::riscv::REG_REGVALUE;
use wishbone_tool::riscv::REG_SBADDR;
use wishbone_tool::riscv::REG_SBDATA;
use wishbone_tool::riscv::REG_STATUS;
use wishbone_tool::riscv::RunState;
use wishbone_tool::riscv::STATUS_HALTED;
use wishbone_tool::riscv::STATUS_RESUME_ACK;
use wishbone_tool::rsp::decode_packet;
use wishbone_tool::rsp::encode_packet;
use wishbone_tool::rsp::expand_runs;

const DM_BASE: u32 = 0xF00F_0000;

/// An in-process target: sparse word memory, one hart with 32 integer
/// registers and a pc, and the debug-module register window at `DM_BASE`.
/// Resuming executes by advancing the pc one word at a time until the word
/// under the pc is the trap instruction.
struct StubTarget {
    mem: HashMap<u32, u32>,
    regs: [u32; 32],
    pc: u32,
    halted: bool,
    resume_ack: bool,
    regno: u32,
    reg_latch: u32,
    sb_addr: u32,
}

impl StubTarget {
    fn new() -> StubTarget {
        StubTarget {
            mem: HashMap::new(),
            regs: [0; 32],
            pc: 0,
            halted: false,
            resume_ack: false,
            regno: 0,
            reg_latch: 0,
            sb_addr: 0,
        }
    }

    fn mem_word(&self, address: u32) -> u32 {
        *self.mem.get(&address).unwrap_or(&0)
    }

    fn run(&mut self) {
        self.halted = false;
        for _ in 0..100_000 {
            if self.mem_word(self.pc) == EBREAK {
                self.halted = true;
                return;
            }
            self.pc = self.pc.wrapping_add(4);
        }
    }
}

impl DebugBus for StubTarget {
    fn read_word(&mut self, address: u32) -> Result<u32, BridgeError> {
        let reg = address.wrapping_sub(DM_BASE);
        let v = match reg {
            REG_STATUS => {
                (if self.halted { STATUS_HALTED } else { 0 })
                    | (if self.resume_ack { STATUS_RESUME_ACK } else { 0 })
            }
            REG_REGVALUE => self.reg_latch,
            REG_SBDATA => self.mem_word(self.sb_addr),
            _ => 0,
        };
        Ok(v)
    }

    fn write_word(&mut self, address: u32, value: u32) -> Result<(), BridgeError> {
        let reg = address.wrapping_sub(DM_BASE);
        match reg {
            REG_CONTROL => {
                if value & CONTROL_HALT_REQ != 0 {
                    self.halted = true;
                }
                if value & CONTROL_RESUME_REQ != 0 {
                    self.resume_ack = true;
                    self.pc = self.pc.wrapping_add(4);
                    self.run();
                }
                if value & CONTROL_STEP_REQ != 0 {
                    self.pc = self.pc.wrapping_add(4);
                    self.halted = true;
                }
            }
            REG_REGNO => self.regno = value,
            REG_REGVALUE => self.reg_latch = value,
            REG_CMD => {
                if value == CMD_READ_REG {
                    self.reg_latch = if self.regno == 32 {
                        self.pc
                    } else {
                        self.regs[self.regno as usize]
                    };
                } else if value == CMD_WRITE_REG {
                    if self.regno == 32 {
                        self.pc = self.reg_latch;
                    } else {
                        self.regs[self.regno as usize] = self.reg_latch;
                    }
                }
            }
            REG_SBADDR => self.sb_addr = value,
            REG_SBDATA => {
                self.mem.insert(self.sb_addr, value);
            }
            _ => {}
        }
        Ok(())
    }
}

fn halted_dm() -> DebugModule<StubTarget> {
    let mut target = StubTarget::new();
    target.halted = true;
    let mut dm = DebugModule::new(target, DM_BASE, false, 16, 16);
    dm.initialize().expect("initialize");
    assert_eq!(dm.current_state(), RunState::Halted);
    dm
}

// --- bridge -----------------------------------------------------------

#[test]
fn bridge_offset_applied_exactly_once() {
    let mut bridge = BridgeCore::new(BridgeKind::Pcie, 0x2000);
    bridge.connection_opened();
    // the transport stub observes the poke of 0x1000 at 0x3000
    let observed = bridge.begin(BusAccess::Write { address: 0x1000, value: 7 }).unwrap();
    assert_eq!(observed, BusAccess::Write { address: 0x3000, value: 7 });
    assert_eq!(bridge.finish(TransportOutcome::Done), Ok(0));
    // and the peek of 0x1000 at 0x3000 too
    let observed = bridge.begin(BusAccess::Read { address: 0x1000 }).unwrap();
    assert_eq!(observed, BusAccess::Read { address: 0x3000 });
    assert_eq!(bridge.finish(TransportOutcome::Word(42)), Ok(42));
}

#[test]
fn bridge_translate_wraps() {
    assert_eq!(translate(0xFFFF_FFFF, 1), 0);
    assert_eq!(translate(0xFFFF_F000, 0x2000), 0x1000);
    assert_eq!(translate(0x1000, 0), 0x1000);
}

#[test]
fn bridge_refuses_before_connect_and_after_failure() {
    let mut bridge = BridgeCore::new(BridgeKind::Usb, 0);
    assert_eq!(
        bridge.begin(BusAccess::Read { address: 4 }),
        Err(BridgeError::Disconnected)
    );
    bridge.connection_opened();
    bridge.begin(BusAccess::Read { address: 4 }).unwrap();
    // the medium dies mid-transaction: fatal from then on
    assert_eq!(
        bridge.finish(TransportOutcome::Failed),
        Err(BridgeError::TransportError)
    );
    assert_eq!(
        bridge.begin(BusAccess::Read { address: 4 }),
        Err(BridgeError::Disconnected)
    );
}

#[test]
fn bridge_serializes_interleaved_callers() {
    // two callers take turns; each transaction is begun and finished before
    // the next begins, and each sees its own outcome
    let mut bridge = BridgeCore::new(BridgeKind::Ethernet, 0);
    bridge.connection_opened();
    for round in 0..10u32 {
        let a = bridge.begin(BusAccess::Read { address: round }).unwrap();
        assert_eq!(a, BusAccess::Read { address: round });
        assert_eq!(bridge.finish(TransportOutcome::Word(round)), Ok(round));
        let b = bridge
            .begin(BusAccess::Write { address: round, value: round })
            .unwrap();
        assert_eq!(b, BusAccess::Write { address: round, value: round });
        assert_eq!(bridge.finish(TransportOutcome::Done), Ok(0));
    }
}

#[test]
fn bridge_timeout_is_not_fatal() {
    let mut bridge = BridgeCore::new(BridgeKind::Serial, 0);
    bridge.connection_opened();
    bridge.begin(BusAccess::Read { address: 0 }).unwrap();
    assert_eq!(
        bridge.finish(TransportOutcome::TimedOut),
        Err(BridgeError::Timeout)
    );
    // a timeout is recoverable: the next call still goes out
    assert!(bridge.begin(BusAccess::Read { address: 0 }).is_ok());
    assert_eq!(bridge.finish(TransportOutcome::Word(1)), Ok(1));
}

// --- map bus ----------------------------------------------------------

#[test]
fn map_bus_reads_back_writes() {
    let mut bus = MapBus::new();
    assert_eq!(bus.get(0x40), 0);
    bus.set(0x40, 0xAB);
    bus.set(0x44, 0xCD);
    bus.set(0x40, 0xEF);
    assert_eq!(bus.get(0x40), 0xEF);
    assert_eq!(bus.get(0x44), 0xCD);
    assert_eq!(bus.read_word(0x44), Ok(0xCD));
    assert_eq!(bus.write_word(0x48, 9), Ok(()));
    assert_eq!(bus.get(0x48), 9);
}

// --- debug module state machine ----------------------------------------

#[test]
fn halt_from_running_reaches_halted() {
    let mut dm = DebugModule::new(StubTarget::new(), DM_BASE, false, 16, 16);
    dm.initialize().expect("initialize");
    assert_eq!(dm.current_state(), RunState::Running);
    dm.halt().expect("halt");
    assert_eq!(dm.current_state(), RunState::Halted);
    // halting a halted hart is trivially successful
    dm.halt().expect("halt again");
    assert_eq!(dm.current_state(), RunState::Halted);
}

#[test]
fn step_from_halted_returns_to_halted() {
    let mut dm = halted_dm();
    let pc_before = dm.read_register(32).expect("pc");
    dm.step().expect("step");
    assert_eq!(dm.current_state(), RunState::Halted);
    // exactly one retired instruction
    let pc_after = dm.read_register(32).expect("pc");
    assert_eq!(pc_after, pc_before.wrapping_add(4));
}

#[test]
fn resume_from_halted_reaches_running() {
    let mut dm = halted_dm();
    dm.resume().expect("resume");
    assert_eq!(dm.current_state(), RunState::Running);
}

#[test]
fn operations_while_running_fail_with_not_halted() {
    let mut dm = DebugModule::new(StubTarget::new(), DM_BASE, false, 16, 16);
    dm.initialize().expect("initialize");
    assert_eq!(dm.current_state(), RunState::Running);
    assert_eq!(dm.read_register(1), Err(DebugError::NotHalted));
    assert_eq!(dm.write_register(1, 5), Err(DebugError::NotHalted));
    assert_eq!(dm.read_memory(0, 4), Err(DebugError::NotHalted));
    assert_eq!(dm.write_memory(0, &vec![1]), Err(DebugError::NotHalted));
    assert_eq!(dm.set_breakpoint(0x1000), Err(DebugError::NotHalted));
    assert_eq!(dm.clear_breakpoint(0x1000), Err(DebugError::NotHalted));
    assert_eq!(dm.set_hw_breakpoint(0x1000), Err(DebugError::NotHalted));
    assert_eq!(dm.resume(), Err(DebugError::NotHalted));
    assert_eq!(dm.step(), Err(DebugError::NotHalted));
}

#[test]
fn register_write_read_round_trip() {
    let mut dm = halted_dm();
    dm.write_register(5, 0xDEAD_BEEF).expect("write");
    assert_eq!(dm.read_register(5), Ok(0xDEAD_BEEF));
    // the cache is invalidated on resume; the value still comes from the target
    dm.resume().expect("resume");
    dm.halt().expect("halt");
    assert_eq!(dm.read_register(5), Ok(0xDEAD_BEEF));
}

#[test]
fn memory_round_trip_unaligned() {
    let mut dm = halted_dm();
    dm.write_memory(0x1002, &vec![0xAA, 0xBB, 0xCC, 0xDD])
        .expect("write");
    // bytes straddle the boundary words 0x1000 and 0x1004
    assert_eq!(
        dm.read_memory(0x1002, 4).expect("read"),
        vec![0xAA, 0xBB, 0xCC, 0xDD]
    );
    // the neighbours in the boundary words are preserved
    dm.write_memory(0x1000, &vec![0x11, 0x22]).expect("write head");
    assert_eq!(
        dm.read_memory(0x1000, 8).expect("read"),
        vec![0x11, 0x22, 0xAA, 0xBB, 0xCC, 0xDD, 0x00, 0x00]
    );
}

#[test]
fn breakpoint_set_then_clear_restores_observed_bytes() {
    let mut dm = halted_dm();
    dm.write_memory(0x1000, &vec![0x78, 0x56, 0x34, 0x12])
        .expect("seed");
    let before = dm.read_memory(0x1000, 4).expect("before");
    let saved = dm.set_breakpoint(0x1000).expect("set");
    assert_eq!(saved, 0x1234_5678);
    // the trap instruction sits there while the breakpoint is planted
    assert_eq!(dm.read_memory(0x1000, 4).expect("planted"), vec![0x73, 0x00, 0x10, 0x00]);
    let restored = dm.clear_breakpoint(0x1000).expect("clear");
    assert_eq!(restored, saved);
    assert_eq!(dm.read_memory(0x1000, 4).expect("after"), before);
}

#[test]
fn breakpoint_reinsertion_keeps_first_saved_word() {
    let mut dm = halted_dm();
    dm.write_memory(0x2000, &vec![0x01, 0x02, 0x03, 0x04])
        .expect("seed");
    let first = dm.set_breakpoint(0x2000).expect("set");
    let second = dm.set_breakpoint(0x2000).expect("set again");
    assert_eq!(first, second);
    assert_eq!(dm.clear_breakpoint(0x2000), Ok(first));
    assert_eq!(
        dm.clear_breakpoint(0x2000),
        Err(DebugError::CommandError)
    );
}

#[test]
fn hardware_breakpoints_unsupported_without_triggers() {
    let mut dm = halted_dm();
    assert!(!dm.triggers_supported());
    assert_eq!(dm.set_hw_breakpoint(0x1000), Err(DebugError::Unsupported));
    let mut target = StubTarget::new();
    target.halted = true;
    let mut dm = DebugModule::new(target, DM_BASE, true, 16, 16);
    dm.initialize().expect("initialize");
    dm.set_hw_breakpoint(0x1000).expect("set");
    assert!(dm.has_hw_breakpoint_at(0x1000));
    dm.clear_hw_breakpoint(0x1000).expect("clear");
    assert!(!dm.has_hw_breakpoint_at(0x1000));
}

// --- GDB engine --------------------------------------------------------

fn exchange(
    session: &mut GdbSession,
    dm: &mut DebugModule<StubTarget>,
    payload: &[u8],
) -> Vec<u8> {
    let packet = encode_packet(&payload.to_vec());
    let response = process_packet(session, dm, &packet);
    let reply = response.reply.expect("a well-framed packet gets a reply");
    let reply_payload = decode_packet(&reply).expect("replies are well-formed");
    expand_runs(&reply_payload).expect("replies expand")
}

#[test]
fn parse_command_forms() {
    assert_eq!(parse_command(&b"?".to_vec()), GdbCommand::QueryHaltReason);
    assert_eq!(parse_command(&b"g".to_vec()), GdbCommand::ReadRegisters);
    assert_eq!(
        parse_command(&b"m1000,4".to_vec()),
        GdbCommand::ReadMemory { address: 0x1000, length: 4 }
    );
    assert_eq!(
        parse_command(&b"M1000,2:abcd".to_vec()),
        GdbCommand::WriteMemory { address: 0x1000, data: vec![0xAB, 0xCD] }
    );
    assert_eq!(
        parse_command(&b"M1000,3:abcd".to_vec()),
        GdbCommand::Unknown
    );
    assert_eq!(parse_command(&b"c".to_vec()), GdbCommand::ContinueAt { address: None });
    assert_eq!(
        parse_command(&b"c2000".to_vec()),
        GdbCommand::ContinueAt { address: Some(0x2000) }
    );
    assert_eq!(parse_command(&b"s".to_vec()), GdbCommand::StepAt { address: None });
    assert_eq!(
        parse_command(&b"Z0,1000,4".to_vec()),
        GdbCommand::InsertSwBreak { address: 0x1000 }
    );
    assert_eq!(
        parse_command(&b"z0,1000,4".to_vec()),
        GdbCommand::RemoveSwBreak { address: 0x1000 }
    );
    assert_eq!(
        parse_command(&b"Z1,1000,4".to_vec()),
        GdbCommand::InsertHwBreak { address: 0x1000 }
    );
    assert_eq!(parse_command(&b"QStartNoAckMode".to_vec()), GdbCommand::StartNoAckMode);
    assert_eq!(parse_command(&b"vCont?".to_vec()), GdbCommand::VContQuery);
    assert_eq!(parse_command(&b"qSupported:xmlRegisters=i386".to_vec()), GdbCommand::QuerySupported);
    assert_eq!(parse_command(&b"qSupported".to_vec()), GdbCommand::QuerySupported);
    assert_eq!(parse_command(&b"qAttached".to_vec()), GdbCommand::QueryAttached);
    assert_eq!(parse_command(&b"qAttached:17".to_vec()), GdbCommand::QueryAttached);
    // only the exact command names match: other q packets are unsupported
    assert_eq!(parse_command(&b"qSymbol::".to_vec()), GdbCommand::Unknown);
    assert_eq!(parse_command(&b"qSearch".to_vec()), GdbCommand::Unknown);
    assert_eq!(parse_command(&b"qSupportedX".to_vec()), GdbCommand::Unknown);
    assert_eq!(parse_command(&b"qAttach".to_vec()), GdbCommand::Unknown);
    assert_eq!(parse_command(&b"X1000,4:ab".to_vec()), GdbCommand::Unknown);
    assert_eq!(parse_command(&b"".to_vec()), GdbCommand::Unknown);
}

#[test]
fn engine_acks_and_rejects_bad_checksums() {
    let mut session = GdbSession::new();
    let mut dm = halted_dm();
    let response = process_packet(&mut session, &mut dm, &b"$?#00".to_vec());
    assert_eq!(response.ack, Some(b'-'));
    assert!(response.reply.is_none());
    let response = process_packet(&mut session, &mut dm, &encode_packet(&b"?".to_vec()));
    assert_eq!(response.ack, Some(b'+'));
    assert!(response.reply.is_some());
}

#[test]
fn engine_no_ack_mode_suppresses_acks() {
    let mut session = GdbSession::new();
    let mut dm = halted_dm();
    assert_eq!(exchange(&mut session, &mut dm, b"QStartNoAckMode"), b"OK".to_vec());
    let response = process_packet(&mut session, &mut dm, &encode_packet(&b"?".to_vec()));
    assert_eq!(response.ack, None);
}

#[test]
fn engine_unknown_command_gets_empty_reply() {
    let mut session = GdbSession::new();
    let mut dm = halted_dm();
    assert_eq!(exchange(&mut session, &mut dm, b"Xsomething"), Vec::<u8>::new());
    // the session survives and keeps answering
    assert_eq!(exchange(&mut session, &mut dm, b"?"), b"S00".to_vec());
}

#[test]
fn engine_not_halted_operations_error() {
    let mut session = GdbSession::new();
    let mut dm = DebugModule::new(StubTarget::new(), DM_BASE, false, 16, 16);
    dm.initialize().expect("initialize");
    assert_eq!(dm.current_state(), RunState::Running);
    // NotHalted carries code 13 = 0x0d
    assert_eq!(exchange(&mut session, &mut dm, b"m1000,4"), b"E0d".to_vec());
    assert_eq!(exchange(&mut session, &mut dm, b"g"), b"E0d".to_vec());
}

#[test]
fn engine_register_and_memory_exchange() {
    let mut session = GdbSession::new();
    let mut dm = halted_dm();
    // all 33 registers read as zero at reset: 264 hex digits
    let regs = exchange(&mut session, &mut dm, b"g");
    assert_eq!(regs.len(), 264);
    assert!(regs.iter().all(|b| *b == b'0'));
    // write memory, read it back through the protocol
    assert_eq!(exchange(&mut session, &mut dm, b"M1000,4:deadbeef"), b"OK".to_vec());
    assert_eq!(exchange(&mut session, &mut dm, b"m1000,4"), b"deadbeef".to_vec());
}

#[test]
fn end_to_end_breakpoint_scenario() {
    let mut session = GdbSession::new();
    let mut target = StubTarget::new();
    target.halted = true;
    target.mem.insert(0x1000, 0x1234_5678);
    let mut dm = DebugModule::new(target, DM_BASE, false, 64, 16);
    dm.initialize().expect("initialize");

    // the initial stop report carries no signal
    assert_eq!(exchange(&mut session, &mut dm, b"?"), b"S00".to_vec());
    // plant a breakpoint at 0x1000 and continue
    assert_eq!(exchange(&mut session, &mut dm, b"Z0,1000,4"), b"OK".to_vec());
    let stop = exchange(&mut session, &mut dm, b"c");
    // the target ran to 0x1000 and halted: a trap-signal stop packet
    assert_eq!(stop, b"S05".to_vec());
    assert_eq!(dm.read_register(32), Ok(0x1000));
    // remove the breakpoint; the original bytes are intact
    assert_eq!(exchange(&mut session, &mut dm, b"z0,1000,4"), b"OK".to_vec());
    assert_eq!(exchange(&mut session, &mut dm, b"m1000,4"), b"78563412".to_vec());
    // the last stop reason is remembered
    assert_eq!(exchange(&mut session, &mut dm, b"?"), b"S05".to_vec());
}

#[test]
fn engine_step_reports_trap() {
    let mut session = GdbSession::new();
    let mut dm = halted_dm();
    assert_eq!(exchange(&mut session, &mut dm, b"s"), b"S05".to_vec());
    assert_eq!(dm.current_state(), RunState::Halted);
}

#[test]
fn engine_capability_negotiation() {
    let mut session = GdbSession::new();
    let mut dm = halted_dm();
    // no triggers: hardware breakpoints are not advertised, Z1 is "unsupported"
    assert_eq!(
        exchange(&mut session, &mut dm, b"qSupported:hwbreak+"),
        b"QStartNoAckMode+".to_vec()
    );
    assert_eq!(exchange(&mut session, &mut dm, b"Z1,1000,4"), Vec::<u8>::new());
    assert_eq!(exchange(&mut session, &mut dm, b"vCont?"), Vec::<u8>::new());
    assert_eq!(exchange(&mut session, &mut dm, b"qAttached"), b"1".to_vec());
    // with triggers both are on
    let mut target = StubTarget::new();
    target.halted = true;
    let mut dm = DebugModule::new(target, DM_BASE, true, 16, 16);
    dm.initialize().expect("initialize");
    assert_eq!(
        exchange(&mut session, &mut dm, b"qSupported"),
        b"QStartNoAckMode+;hwbreak+".to_vec()
    );
    assert_eq!(exchange(&mut session, &mut dm, b"Z1,1000,4"), b"OK".to_vec());
    assert_eq!(exchange(&mut session, &mut dm, b"z1,1000,4"), b"OK".to_vec());
}

/// A bus whose medium is gone: every transaction fails.
struct DeadBus;

impl DebugBus for DeadBus {
    fn read_word(&mut self, _address: u32) -> Result<u32, BridgeError> {
        Err(BridgeError::Disconnected)
    }

    fn write_word(&mut self, _address: u32, _value: u32) -> Result<(), BridgeError> {
        Err(BridgeError::Disconnected)
    }
}

#[test]
fn bus_failures_surface_as_debug_errors() {
    let mut dm = DebugModule::new(DeadBus, DM_BASE, false, 4, 4);
    assert_eq!(dm.initialize(), Err(DebugError::Bus(BridgeError::Disconnected)));
    assert_eq!(dm.halt(), Err(DebugError::Bus(BridgeError::Disconnected)));
}

#[test]
fn continue_without_breakpoint_times_out() {
    let mut session = GdbSession::new();
    let mut target = StubTarget::new();
    target.halted = true;
    let mut dm = DebugModule::new(target, DM_BASE, false, 8, 8);
    dm.initialize().expect("initialize");
    // nothing to run into: the bounded poll gives up, code 14 = 0x0e
    assert_eq!(exchange(&mut session, &mut dm, b"c"), b"E0e".to_vec());
}

#[test]
fn teardown_clears_breakpoints_from_target() {
    let mut dm = halted_dm();
    dm.write_memory(0x1000, &vec![0x11, 0x22, 0x33, 0x44]).expect("seed");
    dm.write_memory(0x2000, &vec![0x55, 0x66, 0x77, 0x88]).expect("seed");
    dm.set_breakpoint(0x1000).expect("set");
    dm.set_breakpoint(0x2000).expect("set");
    dm.clear_all_breakpoints();
    assert_eq!(dm.read_memory(0x1000, 4).expect("read"), vec![0x11, 0x22, 0x33, 0x44]);
    assert_eq!(dm.read_memory(0x2000, 4).expect("read"), vec![0x55, 0x66, 0x77, 0x88]);
    assert_eq!(dm.clear_breakpoint(0x1000), Err(DebugError::CommandError));
}

#[test]
fn debug_error_codes() {
    assert_eq!(DebugError::Timeout.code(), 14);
    assert_eq!(DebugError::CommandError.code(), 22);
    assert_eq!(DebugError::NotHalted.code(), 13);
    assert_eq!(DebugError::Unsupported.code(), 95);
    assert_eq!(DebugError::Bus(BridgeError::Timeout).code(), 5);
}
