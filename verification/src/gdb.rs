//! GDB Remote Serial Protocol engine.
//!
//! Translates decoded RSP payloads into debug-module operations and builds
//! protocol-correct replies: stop replies carrying a signal code derived
//! from the stop cause, `OK`, `E<code>` on a debug error, and — by RSP
//! convention — the empty reply for a malformed or unrecognized command,
//! which keeps the connection open. [`process_packet`] wraps one framed
//! packet end to end: acknowledgement, run-length expansion on decode,
//! command dispatch, and a framed, run-length-compressed reply.

use vstd::prelude::*;

use crate::bus::DebugBus;
use crate::errors::DebugError;
use crate::riscv::DebugModule;
use crate::riscv::REG_PC;
use crate::riscv::word_byte;
use crate::rsp::STAR;
use crate::rsp::compress_runs;
use crate::rsp::decode_packet;
use crate::rsp::encode_packet;
use crate::rsp::expand_runs;
use crate::rsp::expand_spec;
use crate::rsp::find_byte;
use crate::rsp::first_index;
use crate::rsp::hex_digit;
use crate::rsp::hex_value;
use crate::rsp::parse_hex_u32;
use crate::rsp::spec_hex_digit;
use crate::rsp::spec_hex_value;
use crate::rsp::spec_parse_hex_u32;
use crate::rsp::unframe_spec;

verus! {

/// `,` between command arguments.
pub const COMMA: u8 = 0x2C;

/// `:` before the data of a memory write.
pub const COLON: u8 = 0x3A;

/// Number of registers in target order: 32 integer registers and the pc.
pub const REG_COUNT: u32 = 33;

/// Bytes written by a string of hex-digit pairs, `None` when the string is
/// odd or holds a non-digit.
pub open spec fn spec_hex_bytes(s: Seq<u8>) -> Option<Seq<u8>>
    decreases s.len(),
{
    if s.len() == 0 {
        Some(Seq::empty())
    } else if s.len() == 1 {
        None
    } else {
        match (spec_hex_value(s[0]), spec_hex_value(s[1]), spec_hex_bytes(s.skip(2))) {
            (Some(h), Some(l), Some(rest)) => Some(seq![(h * 16 + l) as u8] + rest),
            _ => None,
        }
    }
}

/// Decode `s[start..end]` as hex-digit pairs.
fn decode_hex_bytes(s: &Vec<u8>, start: usize, end: usize) -> (r: Option<Vec<u8>>)
    requires
        start <= end <= s@.len(),
    ensures
        match r {
            Some(v) => spec_hex_bytes(s@.subrange(start as int, end as int)) == Some(v@),
            None => spec_hex_bytes(s@.subrange(start as int, end as int)) is None,
        },
{
    let ghost sub = s@.subrange(start as int, end as int);
    let mut out: Vec<u8> = Vec::new();
    let mut i: usize = start;
    proof {
        assert(sub.skip(0) =~= sub);
        match spec_hex_bytes(sub) {
            Some(rest) => {
                assert(out@ + rest =~= rest);
            },
            None => {},
        }
    }
    while i < end
        invariant
            start <= i <= end <= s@.len(),
            sub == s@.subrange(start as int, end as int),
            match spec_hex_bytes(sub.skip(i - start)) {
                Some(rest) => spec_hex_bytes(sub) == Some(out@ + rest),
                None => spec_hex_bytes(sub) is None,
            },
        decreases end - i,
    {
        let ghost tail = sub.skip(i - start);
        proof {
            assert(tail.len() == end - i);
            assert(tail[0] == s@[i as int]);
            if tail.len() >= 2 {
                assert(tail[1] == s@[i + 1]);
            }
        }
        if i + 1 >= end {
            return None;
        }
        let h = match hex_value(s[i]) {
            Some(h) => h,
            None => {
                return None;
            },
        };
        let l = match hex_value(s[i + 1]) {
            Some(l) => l,
            None => {
                return None;
            },
        };
        out.push(h * 16 + l);
        proof {
            assert(tail.skip(2) =~= sub.skip(i + 2 - start));
            match spec_hex_bytes(sub.skip(i + 2 - start)) {
                Some(rest) => {
                    assert(spec_hex_bytes(tail) == Some(seq![(h * 16 + l) as u8] + rest));
                    assert(out@.drop_last() + (seq![(h * 16 + l) as u8] + rest) =~= out@ + rest);
                },
                None => {},
            }
        }
        i = i + 2;
    }
    proof {
        assert(sub.skip(end - start) =~= Seq::<u8>::empty());
        assert(out@ + Seq::<u8>::empty() =~= out@);
    }
    Some(out)
}

/// A hex digit is never the run marker (its codes sit above `0x2F`).
proof fn lemma_hex_digit_not_star(n: u8)
    requires
        n < 16,
    ensures
        spec_hex_digit(n) != STAR,
{
}

/// Append the two hex digits of `b`.
fn push_hex_byte(out: &mut Vec<u8>, b: u8)
    ensures
        final(out)@ == old(out)@ + seq![
            spec_hex_digit((b / 16) as u8),
            spec_hex_digit((b % 16) as u8),
        ],
        spec_hex_digit((b / 16) as u8) != STAR,
        spec_hex_digit((b % 16) as u8) != STAR,
{
    out.push(hex_digit(b / 16));
    out.push(hex_digit(b % 16));
    proof {
        assert(out@ =~= old(out)@ + seq![
            spec_hex_digit((b / 16) as u8),
            spec_hex_digit((b % 16) as u8),
        ]);
    }
}

/// One decoded GDB command.
#[derive(Debug, Clone, PartialEq, Eq)]
pub enum GdbCommand {
    /// `?` — report the last stop reason.
    QueryHaltReason,
    /// `g` — read the full register set.
    ReadRegisters,
    /// `G<data>` — write the full register set.
    WriteRegisters(Vec<u8>),
    /// `m addr,len` — read memory.
    ReadMemory { address: u32, length: u32 },
    /// `M addr,len:data` — write memory.
    WriteMemory { address: u32, data: Vec<u8> },
    /// `c [addr]` — continue, optionally from an address.
    ContinueAt { address: Option<u32> },
    /// `s [addr]` — single-step, optionally from an address.
    StepAt { address: Option<u32> },
    /// `Z0,addr,kind` — plant a software breakpoint.
    InsertSwBreak { address: u32 },
    /// `z0,addr,kind` — remove a software breakpoint.
    RemoveSwBreak { address: u32 },
    /// `Z1,addr,kind` — program a hardware breakpoint.
    InsertHwBreak { address: u32 },
    /// `z1,addr,kind` — disarm a hardware breakpoint.
    RemoveHwBreak { address: u32 },
    /// `qSupported…` — capability negotiation.
    QuerySupported,
    /// `vCont?` — supported continue actions.
    VContQuery,
    /// `qAttached…` — how the session was attached.
    QueryAttached,
    /// `QStartNoAckMode` — stop exchanging `+`/`-` acknowledgements.
    StartNoAckMode,
    /// Anything else: answered with the empty reply.
    Unknown,
}

/// Mathematical image of a decoded command.
pub enum SpecCommand {
    QueryHaltReason,
    ReadRegisters,
    WriteRegisters(Seq<u8>),
    ReadMemory { address: u32, length: u32 },
    WriteMemory { address: u32, data: Seq<u8> },
    ContinueAt { address: Option<u32> },
    StepAt { address: Option<u32> },
    InsertSwBreak { address: u32 },
    RemoveSwBreak { address: u32 },
    InsertHwBreak { address: u32 },
    RemoveHwBreak { address: u32 },
    QuerySupported,
    VContQuery,
    QueryAttached,
    StartNoAckMode,
    Unknown,
}

impl View for GdbCommand {
    type V = SpecCommand;

    open spec fn view(&self) -> SpecCommand {
        match self {
            GdbCommand::QueryHaltReason => SpecCommand::QueryHaltReason,
            GdbCommand::ReadRegisters => SpecCommand::ReadRegisters,
            GdbCommand::WriteRegisters(d) => SpecCommand::WriteRegisters(d@),
            GdbCommand::ReadMemory { address, length } => SpecCommand::ReadMemory {
                address: *address,
                length: *length,
            },
            GdbCommand::WriteMemory { address, data } => SpecCommand::WriteMemory {
                address: *address,
                data: data@,
            },
            GdbCommand::ContinueAt { address } => SpecCommand::ContinueAt { address: *address },
            GdbCommand::StepAt { address } => SpecCommand::StepAt { address: *address },
            GdbCommand::InsertSwBreak { address } => SpecCommand::InsertSwBreak {
                address: *address,
            },
            GdbCommand::RemoveSwBreak { address } => SpecCommand::RemoveSwBreak {
                address: *address,
            },
            GdbCommand::InsertHwBreak { address } => SpecCommand::InsertHwBreak {
                address: *address,
            },
            GdbCommand::RemoveHwBreak { address } => SpecCommand::RemoveHwBreak {
                address: *address,
            },
            GdbCommand::QuerySupported => SpecCommand::QuerySupported,
            GdbCommand::VContQuery => SpecCommand::VContQuery,
            GdbCommand::QueryAttached => SpecCommand::QueryAttached,
            GdbCommand::StartNoAckMode => SpecCommand::StartNoAckMode,
            GdbCommand::Unknown => SpecCommand::Unknown,
        }
    }
}

/// `vCont?` as bytes.
pub open spec fn vcont_query_seq() -> Seq<u8> {
    seq![0x76u8, 0x43, 0x6F, 0x6E, 0x74, 0x3F]
}

/// `qSupported` as bytes.
pub open spec fn qsupported_seq() -> Seq<u8> {
    seq![0x71u8, 0x53, 0x75, 0x70, 0x70, 0x6F, 0x72, 0x74, 0x65, 0x64]
}

/// `qAttached` as bytes.
pub open spec fn qattached_seq() -> Seq<u8> {
    seq![0x71u8, 0x41, 0x74, 0x74, 0x61, 0x63, 0x68, 0x65, 0x64]
}

/// Whether `p` is exactly the command `name`, or `name` followed by a
/// `:`-separated argument — never a longer command that merely shares a
/// prefix.
pub open spec fn spec_named_query(p: Seq<u8>, name: Seq<u8>) -> bool {
    &&& p.len() >= name.len()
    &&& p.take(name.len() as int) == name
    &&& (p.len() == name.len() || p[name.len() as int] == COLON)
}

fn qsupported_name() -> (v: Vec<u8>)
    ensures
        v@ == qsupported_seq(),
{
    let mut v: Vec<u8> = Vec::new();
    v.push(0x71);
    v.push(0x53);
    v.push(0x75);
    v.push(0x70);
    v.push(0x70);
    v.push(0x6F);
    v.push(0x72);
    v.push(0x74);
    v.push(0x65);
    v.push(0x64);
    proof {
        assert(v@ =~= qsupported_seq());
    }
    v
}

fn qattached_name() -> (v: Vec<u8>)
    ensures
        v@ == qattached_seq(),
{
    let mut v: Vec<u8> = Vec::new();
    v.push(0x71);
    v.push(0x41);
    v.push(0x74);
    v.push(0x74);
    v.push(0x61);
    v.push(0x63);
    v.push(0x68);
    v.push(0x65);
    v.push(0x64);
    proof {
        assert(v@ =~= qattached_seq());
    }
    v
}

/// Whether `p` is the command `name`, bare or with a `:` argument.
fn matches_named_query(p: &Vec<u8>, name: &Vec<u8>) -> (r: bool)
    ensures
        r == spec_named_query(p@, name@),
{
    if p.len() < name.len() {
        return false;
    }
    let mut i: usize = 0;
    while i < name.len()
        invariant
            i <= name@.len() <= p@.len(),
            forall|j: int| 0 <= j < i ==> p@[j] == name@[j],
        decreases name@.len() - i,
    {
        if p[i] != name[i] {
            proof {
                assert(p@.take(name@.len() as int)[i as int] == p@[i as int]);
            }
            return false;
        }
        i = i + 1;
    }
    proof {
        assert(p@.take(name@.len() as int) =~= name@);
    }
    if p.len() == name.len() {
        true
    } else {
        p[name.len()] == COLON
    }
}

/// `QStartNoAckMode` as bytes.
pub open spec fn qstart_no_ack_seq() -> Seq<u8> {
    seq![0x51u8, 0x53, 0x74, 0x61, 0x72, 0x74, 0x4E, 0x6F, 0x41, 0x63, 0x6B, 0x4D, 0x6F, 0x64,
        0x65]
}

/// `m addr,len` or the two addresses of a breakpoint command: `addr,num`.
pub open spec fn spec_parse_pair(rest: Seq<u8>) -> Option<(u32, u32)> {
    match first_index(rest, COMMA) {
        Some(ci) => {
            match (spec_parse_hex_u32(rest, 0, ci), spec_parse_hex_u32(rest, ci + 1, rest.len() as int)) {
                (Some(a), Some(b)) => Some((a, b)),
                _ => None,
            }
        },
        None => None,
    }
}

/// `M addr,len:data` after the leading `M`.
pub open spec fn spec_parse_write_mem(rest: Seq<u8>) -> SpecCommand {
    match first_index(rest, COMMA) {
        Some(ci) => {
            match first_index(rest.skip(ci + 1), COLON) {
                Some(di) => {
                    let a = spec_parse_hex_u32(rest, 0, ci);
                    let l = spec_parse_hex_u32(rest, ci + 1, ci + 1 + di);
                    let d = spec_hex_bytes(rest.skip(ci + 1 + di + 1));
                    match (a, l, d) {
                        (Some(address), Some(length), Some(data)) => if data.len() == length {
                            SpecCommand::WriteMemory { address, data }
                        } else {
                            SpecCommand::Unknown
                        },
                        _ => SpecCommand::Unknown,
                    }
                },
                None => SpecCommand::Unknown,
            }
        },
        None => SpecCommand::Unknown,
    }
}

/// The command a payload denotes. A payload that fits no supported form
/// denotes `Unknown`, which the engine answers with the empty reply.
pub open spec fn spec_parse_command(p: Seq<u8>) -> SpecCommand {
    if p.len() == 0 {
        SpecCommand::Unknown
    } else if p[0] == 0x3F {  // '?'
        if p.len() == 1 {
            SpecCommand::QueryHaltReason
        } else {
            SpecCommand::Unknown
        }
    } else if p[0] == 0x67 {  // 'g'
        if p.len() == 1 {
            SpecCommand::ReadRegisters
        } else {
            SpecCommand::Unknown
        }
    } else if p[0] == 0x47 {  // 'G'
        match spec_hex_bytes(p.skip(1)) {
            Some(d) => if d.len() > 0 {
                SpecCommand::WriteRegisters(d)
            } else {
                SpecCommand::Unknown
            },
            None => SpecCommand::Unknown,
        }
    } else if p[0] == 0x6D {  // 'm'
        match spec_parse_pair(p.skip(1)) {
            Some((address, length)) => SpecCommand::ReadMemory { address, length },
            None => SpecCommand::Unknown,
        }
    } else if p[0] == 0x4D {  // 'M'
        spec_parse_write_mem(p.skip(1))
    } else if p[0] == 0x63 {  // 'c'
        if p.len() == 1 {
            SpecCommand::ContinueAt { address: None }
        } else {
            match spec_parse_hex_u32(p, 1, p.len() as int) {
                Some(a) => SpecCommand::ContinueAt { address: Some(a) },
                None => SpecCommand::Unknown,
            }
        }
    } else if p[0] == 0x73 {  // 's'
        if p.len() == 1 {
            SpecCommand::StepAt { address: None }
        } else {
            match spec_parse_hex_u32(p, 1, p.len() as int) {
                Some(a) => SpecCommand::StepAt { address: Some(a) },
                None => SpecCommand::Unknown,
            }
        }
    } else if p[0] == 0x5A || p[0] == 0x7A {  // 'Z' / 'z'
        if p.len() >= 3 && (p[1] == 0x30 || p[1] == 0x31) && p[2] == COMMA {
            match spec_parse_pair(p.skip(3)) {
                Some((address, _kind)) => if p[0] == 0x5A && p[1] == 0x30 {
                    SpecCommand::InsertSwBreak { address }
                } else if p[0] == 0x7A && p[1] == 0x30 {
                    SpecCommand::RemoveSwBreak { address }
                } else if p[0] == 0x5A {
                    SpecCommand::InsertHwBreak { address }
                } else {
                    SpecCommand::RemoveHwBreak { address }
                },
                None => SpecCommand::Unknown,
            }
        } else {
            SpecCommand::Unknown
        }
    } else if p[0] == 0x71 {  // 'q'
        if spec_named_query(p, qsupported_seq()) {
            SpecCommand::QuerySupported
        } else if spec_named_query(p, qattached_seq()) {
            SpecCommand::QueryAttached
        } else {
            SpecCommand::Unknown
        }
    } else if p[0] == 0x76 {  // 'v'
        if p == vcont_query_seq() {
            SpecCommand::VContQuery
        } else {
            SpecCommand::Unknown
        }
    } else if p[0] == 0x51 {  // 'Q'
        if p == qstart_no_ack_seq() {
            SpecCommand::StartNoAckMode
        } else {
            SpecCommand::Unknown
        }
    } else {
        SpecCommand::Unknown
    }
}

/// Parse `addr,num` from `p[start..]`.
fn parse_pair(p: &Vec<u8>, start: usize) -> (r: Option<(u32, u32)>)
    requires
        start <= p@.len(),
    ensures
        r == spec_parse_pair(p@.skip(start as int)),
{
    let ghost rest = p@.skip(start as int);
    let n = p.len();
    match find_byte(p, start, COMMA) {
        Some(ci) => {
            let a = parse_hex_u32(p, start, ci);
            let b = parse_hex_u32(p, ci + 1, n);
            proof {
                assert(p@.subrange(start as int, ci as int) =~= rest.subrange(0, ci - start));
                assert(p@.subrange(ci + 1, p@.len() as int) =~= rest.subrange(
                    ci + 1 - start,
                    rest.len() as int,
                ));
            }
            match (a, b) {
                (Some(a), Some(b)) => Some((a, b)),
                _ => None,
            }
        },
        None => None,
    }
}

/// Decode one payload into the command it denotes.
pub fn parse_command(p: &Vec<u8>) -> (r: GdbCommand)
    ensures
        r@ == spec_parse_command(p@),
{
    if p.len() == 0 {
        return GdbCommand::Unknown;
    }
    let c0 = p[0];
    if c0 == 0x3F {
        if p.len() == 1 {
            GdbCommand::QueryHaltReason
        } else {
            GdbCommand::Unknown
        }
    } else if c0 == 0x67 {
        if p.len() == 1 {
            GdbCommand::ReadRegisters
        } else {
            GdbCommand::Unknown
        }
    } else if c0 == 0x47 {
        proof {
            assert(p@.subrange(1, p@.len() as int) =~= p@.skip(1));
        }
        match decode_hex_bytes(p, 1, p.len()) {
            Some(d) => {
                if d.len() > 0 {
                    GdbCommand::WriteRegisters(d)
                } else {
                    GdbCommand::Unknown
                }
            },
            None => GdbCommand::Unknown,
        }
    } else if c0 == 0x6D {
        match parse_pair(p, 1) {
            Some((address, length)) => GdbCommand::ReadMemory { address, length },
            None => GdbCommand::Unknown,
        }
    } else if c0 == 0x4D {
        parse_write_mem(p)
    } else if c0 == 0x63 {
        if p.len() == 1 {
            GdbCommand::ContinueAt { address: None }
        } else {
            match parse_hex_u32(p, 1, p.len()) {
                Some(a) => GdbCommand::ContinueAt { address: Some(a) },
                None => GdbCommand::Unknown,
            }
        }
    } else if c0 == 0x73 {
        if p.len() == 1 {
            GdbCommand::StepAt { address: None }
        } else {
            match parse_hex_u32(p, 1, p.len()) {
                Some(a) => GdbCommand::StepAt { address: Some(a) },
                None => GdbCommand::Unknown,
            }
        }
    } else if c0 == 0x5A || c0 == 0x7A {
        if p.len() >= 3 && (p[1] == 0x30 || p[1] == 0x31) && p[2] == COMMA {
            match parse_pair(p, 3) {
                Some((address, _kind)) => {
                    if c0 == 0x5A && p[1] == 0x30 {
                        GdbCommand::InsertSwBreak { address }
                    } else if c0 == 0x7A && p[1] == 0x30 {
                        GdbCommand::RemoveSwBreak { address }
                    } else if c0 == 0x5A {
                        GdbCommand::InsertHwBreak { address }
                    } else {
                        GdbCommand::RemoveHwBreak { address }
                    }
                },
                None => GdbCommand::Unknown,
            }
        } else {
            GdbCommand::Unknown
        }
    } else if c0 == 0x71 {
        let qs = qsupported_name();
        let qa = qattached_name();
        if matches_named_query(p, &qs) {
            GdbCommand::QuerySupported
        } else if matches_named_query(p, &qa) {
            GdbCommand::QueryAttached
        } else {
            GdbCommand::Unknown
        }
    } else if c0 == 0x76 {
        if p.len() == 6 && p[1] == 0x43 && p[2] == 0x6F && p[3] == 0x6E && p[4] == 0x74 && p[5]
            == 0x3F {
            proof {
                assert(p@ =~= vcont_query_seq());
            }
            GdbCommand::VContQuery
        } else {
            proof {
                if p@ == vcont_query_seq() {
                    assert(p@.len() == 6);
                    assert(p@[1] == 0x43 && p@[2] == 0x6F && p@[3] == 0x6E && p@[4] == 0x74
                        && p@[5] == 0x3F);
                }
            }
            GdbCommand::Unknown
        }
    } else if c0 == 0x51 {
        if p.len() == 15 && p[1] == 0x53 && p[2] == 0x74 && p[3] == 0x61 && p[4] == 0x72 && p[5]
            == 0x74 && p[6] == 0x4E && p[7] == 0x6F && p[8] == 0x41 && p[9] == 0x63 && p[10]
            == 0x6B && p[11] == 0x4D && p[12] == 0x6F && p[13] == 0x64 && p[14] == 0x65 {
            proof {
                assert(p@ =~= qstart_no_ack_seq());
            }
            GdbCommand::StartNoAckMode
        } else {
            proof {
                if p@ == qstart_no_ack_seq() {
                    assert(p@.len() == 15);
                    assert(p@[1] == 0x53 && p@[2] == 0x74 && p@[3] == 0x61 && p@[4] == 0x72
                        && p@[5] == 0x74 && p@[6] == 0x4E && p@[7] == 0x6F && p@[8] == 0x41
                        && p@[9] == 0x63 && p@[10] == 0x6B && p@[11] == 0x4D && p@[12] == 0x6F
                        && p@[13] == 0x64 && p@[14] == 0x65);
                }
            }
            GdbCommand::Unknown
        }
    } else {
        GdbCommand::Unknown
    }
}

/// Parse `M addr,len:data`.
fn parse_write_mem(p: &Vec<u8>) -> (r: GdbCommand)
    requires
        p@.len() >= 1,
        p@[0] == 0x4D,
    ensures
        r@ == spec_parse_write_mem(p@.skip(1)),
{
    let ghost rest = p@.skip(1);
    let n = p.len();
    let ci = match find_byte(p, 1, COMMA) {
        Some(ci) => ci,
        None => {
            return GdbCommand::Unknown;
        },
    };
    let di = match find_byte(p, ci + 1, COLON) {
        Some(di) => di,
        None => {
            proof {
                assert(p@.skip(ci + 1) =~= rest.skip(ci - 1 + 1));
            }
            return GdbCommand::Unknown;
        },
    };
    proof {
        assert(p@.skip(ci + 1) =~= rest.skip(ci - 1 + 1));
    }
    let a = parse_hex_u32(p, 1, ci);
    let l = parse_hex_u32(p, ci + 1, di);
    proof {
        assert(p@.subrange(1, ci as int) =~= rest.subrange(0, ci - 1));
        assert(p@.subrange(ci + 1, di as int) =~= rest.subrange(ci - 1 + 1, ci - 1 + 1 + (di - ci
            - 1)));
    }
    let d = decode_hex_bytes(p, di + 1, n);
    proof {
        assert(p@.subrange(di + 1, p@.len() as int) =~= rest.skip(ci - 1 + 1 + (di - ci - 1) + 1));
    }
    match (a, l, d) {
        (Some(address), Some(length), Some(data)) => {
            if data.len() as u64 == length as u64 {
                GdbCommand::WriteMemory { address, data }
            } else {
                GdbCommand::Unknown
            }
        },
        _ => GdbCommand::Unknown,
    }
}

/// Why the target last stopped, as reported in stop replies.
#[derive(Clone, Copy, Debug, PartialEq, Eq, Structural)]
pub enum StopReason {
    /// No stop has been reported yet: the "no signal" reply.
    NotStarted,
    /// The hart halted on an explicit request.
    HaltRequest,
    /// The hart hit a breakpoint.
    Breakpoint,
    /// A single step completed.
    StepDone,
}

/// The RSP signal code for a stop cause: trap for breakpoints and completed
/// steps, interrupt for an explicit halt, zero before the first stop.
pub open spec fn spec_signal(r: StopReason) -> u8 {
    match r {
        StopReason::NotStarted => 0u8,
        StopReason::HaltRequest => 2u8,
        StopReason::Breakpoint => 5u8,
        StopReason::StepDone => 5u8,
    }
}

/// The stop reply `S<signal>` for a stop cause.
pub open spec fn spec_stop_reply(r: StopReason) -> Seq<u8> {
    seq![0x53u8, spec_hex_digit((spec_signal(r) / 16) as u8), spec_hex_digit(
        (spec_signal(r) % 16) as u8,
    )]
}

/// The `OK` reply.
pub open spec fn spec_ok_reply() -> Seq<u8> {
    seq![0x4Fu8, 0x4B]
}

/// The `E<code>` error reply.
pub open spec fn spec_error_reply(code: u8) -> Seq<u8> {
    seq![0x45u8, spec_hex_digit((code / 16) as u8), spec_hex_digit((code % 16) as u8)]
}

/// Whether `s` is an `E<code>` error reply.
pub open spec fn spec_is_error_reply(s: Seq<u8>) -> bool {
    exists|code: u8| s == #[trigger] spec_error_reply(code)
}

/// The `qSupported` reply: no-ack mode always, hardware breakpoints only
/// when the target exposes triggers — `QStartNoAckMode+[;hwbreak+]`.
pub open spec fn spec_supported_reply(triggers: bool) -> Seq<u8> {
    let base = seq![
        0x51u8, 0x53, 0x74, 0x61, 0x72, 0x74, 0x4E, 0x6F, 0x41, 0x63, 0x6B, 0x4D, 0x6F, 0x64,
        0x65, 0x2B,
    ];
    if triggers {
        base + seq![0x3Bu8, 0x68, 0x77, 0x62, 0x72, 0x65, 0x61, 0x6B, 0x2B]
    } else {
        base
    }
}

fn stop_reply(r: StopReason) -> (v: Vec<u8>)
    ensures
        v@ == spec_stop_reply(r),
        forall|j: int| 0 <= j < v@.len() ==> v@[j] != STAR,
{
    let sig: u8 = match r {
        StopReason::NotStarted => 0,
        StopReason::HaltRequest => 2,
        StopReason::Breakpoint => 5,
        StopReason::StepDone => 5,
    };
    let mut v: Vec<u8> = Vec::new();
    v.push(0x53);
    v.push(hex_digit(sig / 16));
    v.push(hex_digit(sig % 16));
    proof {
        assert(v@ =~= spec_stop_reply(r));
        lemma_hex_digit_not_star((sig / 16) as u8);
        lemma_hex_digit_not_star((sig % 16) as u8);
        assert forall|j: int| 0 <= j < v@.len() implies v@[j] != STAR by {
            assert(j == 0 || j == 1 || j == 2);
        }
    }
    v
}

fn ok_reply() -> (v: Vec<u8>)
    ensures
        v@ == spec_ok_reply(),
        forall|j: int| 0 <= j < v@.len() ==> v@[j] != STAR,
{
    let mut v: Vec<u8> = Vec::new();
    v.push(0x4F);
    v.push(0x4B);
    proof {
        assert(v@ =~= spec_ok_reply());
        assert forall|j: int| 0 <= j < v@.len() implies v@[j] != STAR by {
            assert(j == 0 || j == 1);
        }
    }
    v
}

fn error_reply(e: DebugError) -> (v: Vec<u8>)
    ensures
        v@ == spec_error_reply(e.spec_code()),
        spec_is_error_reply(v@),
        forall|j: int| 0 <= j < v@.len() ==> v@[j] != STAR,
{
    let code = e.code();
    let mut v: Vec<u8> = Vec::new();
    v.push(0x45);
    v.push(hex_digit(code / 16));
    v.push(hex_digit(code % 16));
    proof {
        assert(v@ =~= spec_error_reply(e.spec_code()));
        lemma_hex_digit_not_star((code / 16) as u8);
        lemma_hex_digit_not_star((code % 16) as u8);
        assert forall|j: int| 0 <= j < v@.len() implies v@[j] != STAR by {
            assert(j == 0 || j == 1 || j == 2);
        }
    }
    v
}

/// State of one GDB connection.
pub struct GdbSession {
    no_ack: bool,
    last_stop: StopReason,
}

impl GdbSession {
    /// Whether `QStartNoAckMode` has been accepted.
    pub closed spec fn no_ack(self) -> bool {
        self.no_ack
    }

    /// The last reported stop reason.
    pub closed spec fn last_stop(self) -> StopReason {
        self.last_stop
    }

    /// A fresh session: acknowledgements on, nothing reported yet.
    pub fn new() -> (s: GdbSession)
        ensures
            !s.no_ack(),
            s.last_stop() is NotStarted,
    {
        GdbSession { no_ack: false, last_stop: StopReason::NotStarted }
    }

    /// Carry out one decoded command against the debug module and build the
    /// reply payload. An `Unknown` command gets the empty reply and touches
    /// nothing; a register, memory, breakpoint, continue or step command
    /// against a hart that is not halted gets `E<NotHalted>`.
    #[verifier::rlimit(60)]
    #[verifier::spinoff_prover]
    pub fn handle_command<B: DebugBus>(
        &mut self,
        dm: &mut DebugModule<B>,
        cmd: &GdbCommand,
    ) -> (r: Vec<u8>)
        requires
            old(dm).wf(),
        ensures
            final(dm).wf(),
            old(dm).same_config(*final(dm)),
            final(self).no_ack() == (old(self).no_ack() || *cmd is StartNoAckMode),
            *cmd is Unknown ==> r@ == Seq::<u8>::empty() && *final(dm) == *old(dm)
                && final(self).last_stop() == old(self).last_stop(),
            *cmd is StartNoAckMode ==> r@ == spec_ok_reply(),
            *cmd is QueryHaltReason ==> r@ == spec_stop_reply(old(self).last_stop())
                && final(self).last_stop() == old(self).last_stop(),
            !(old(dm).run_state() is Halted) && (*cmd is ReadRegisters || *cmd is ReadMemory
                || *cmd is WriteMemory || *cmd is InsertSwBreak || *cmd is RemoveSwBreak
                || *cmd is InsertHwBreak || *cmd is RemoveHwBreak || *cmd is ContinueAt
                || *cmd is StepAt) ==> r@ == spec_error_reply(DebugError::NotHalted.spec_code()),
            *cmd is QuerySupported ==> r@ == spec_supported_reply(old(dm).triggers()),
            *cmd is QueryAttached ==> r@ == seq![0x31u8],
            *cmd is VContQuery ==> r@ == Seq::<u8>::empty(),
            *cmd is StepAt ==> (spec_is_error_reply(r@)
                && final(self).last_stop() == old(self).last_stop())
                || (r@ == spec_stop_reply(StopReason::StepDone)
                && final(self).last_stop() is StepDone),
            *cmd is ContinueAt ==> (spec_is_error_reply(r@)
                && final(self).last_stop() == old(self).last_stop())
                || (r@ == spec_stop_reply(final(self).last_stop())
                && (final(self).last_stop() is Breakpoint
                || final(self).last_stop() is HaltRequest)),
            forall|j: int| 0 <= j < r@.len() ==> r@[j] != STAR,
            *cmd matches GdbCommand::InsertSwBreak { address } ==> (r@ == spec_ok_reply()
                || spec_is_error_reply(r@)) && (r@ == spec_ok_reply() ==> final(dm).bp_map()
                == old(dm).bp_map().insert(address, final(dm).bp_map()[address])),
            *cmd matches GdbCommand::RemoveSwBreak { address } ==> (r@ == spec_ok_reply()
                || spec_is_error_reply(r@)) && (r@ == spec_ok_reply() ==> old(
                dm,
            ).bp_map().contains_key(address) && final(dm).bp_map() == old(dm).bp_map().remove(
                address,
            )),
            *cmd is InsertHwBreak ==> r@ == spec_ok_reply() || spec_is_error_reply(r@) || r@
                == Seq::<u8>::empty(),
            *cmd matches GdbCommand::InsertHwBreak { address } ==> (r@ == spec_ok_reply()
                ==> final(dm).hw_list().contains(address)),
            *cmd is RemoveHwBreak ==> r@ == spec_ok_reply() || spec_is_error_reply(r@) || r@
                == Seq::<u8>::empty(),
            *cmd matches GdbCommand::RemoveHwBreak { address } ==> (r@ == spec_ok_reply()
                ==> !final(dm).hw_list().contains(address)),
            *cmd matches GdbCommand::ReadMemory { length, .. } ==> spec_is_error_reply(r@)
                || r@.len() == 2 * length,
            *cmd matches GdbCommand::WriteMemory { data, .. } ==> (data@.len() <= 0xFFFF_FFFF
                ==> r@ == spec_ok_reply() || spec_is_error_reply(r@)),
            *cmd is ReadRegisters ==> spec_is_error_reply(r@) || r@.len() == 8 * REG_COUNT,
            *cmd matches GdbCommand::WriteRegisters(data) ==> (data@.len() == 4 * REG_COUNT
                ==> r@ == spec_ok_reply() || spec_is_error_reply(r@)),
    {
        match cmd {
            GdbCommand::Unknown => Vec::new(),
            GdbCommand::StartNoAckMode => {
                self.no_ack = true;
                ok_reply()
            },
            GdbCommand::QueryHaltReason => stop_reply(self.last_stop),
            GdbCommand::QuerySupported => {
                // advertise only what is supported: no-ack mode, and
                // hardware breakpoints only with trigger support
                let mut v: Vec<u8> = Vec::new();
                v.push(0x51);  // Q
                v.push(0x53);  // S
                v.push(0x74);  // t
                v.push(0x61);  // a
                v.push(0x72);  // r
                v.push(0x74);  // t
                v.push(0x4E);  // N
                v.push(0x6F);  // o
                v.push(0x41);  // A
                v.push(0x63);  // c
                v.push(0x6B);  // k
                v.push(0x4D);  // M
                v.push(0x6F);  // o
                v.push(0x64);  // d
                v.push(0x65);  // e
                v.push(0x2B);  // +
                if dm.triggers_supported() {
                    v.push(0x3B);  // ;
                    v.push(0x68);  // h
                    v.push(0x77);  // w
                    v.push(0x62);  // b
                    v.push(0x72);  // r
                    v.push(0x65);  // e
                    v.push(0x61);  // a
                    v.push(0x6B);  // k
                    v.push(0x2B);  // +
                }
                proof {
                    assert(v@ =~= spec_supported_reply(old(dm).triggers()));
                    assert forall|j: int| 0 <= j < v@.len() implies v@[j] != STAR by {
                        assert(0 <= j < 25);
                    }
                }
                v
            },
            GdbCommand::VContQuery => Vec::new(),
            GdbCommand::QueryAttached => {
                let mut v: Vec<u8> = Vec::new();
                v.push(0x31);  // "1": attached to an existing process
                proof {
                    assert(v@ =~= seq![0x31u8]);
                    assert(v@[0] != STAR);
                }
                v
            },
            GdbCommand::ReadRegisters => {
                let mut payload: Vec<u8> = Vec::new();
                let mut regno: u32 = 0;
                while regno < REG_COUNT
                    invariant
                        dm.wf(),
                        old(dm).same_config(*dm),
                        dm.run_state() == old(dm).run_state(),
                        regno > 0 ==> old(dm).run_state() is Halted,
                        *cmd is ReadRegisters,
                        self.no_ack() == old(self).no_ack(),
                        self.last_stop() == old(self).last_stop(),
                        regno <= REG_COUNT,
                        payload@.len() == 8 * regno,
                        forall|j: int| 0 <= j < payload@.len() ==> payload@[j] != STAR,
                    decreases REG_COUNT - regno,
                {
                    let w = match dm.read_register(regno) {
                        Ok(w) => w,
                        Err(e) => {
                            return error_reply(e);
                        },
                    };
                    push_hex_byte(&mut payload, word_byte(w, 0));
                    push_hex_byte(&mut payload, word_byte(w, 1));
                    push_hex_byte(&mut payload, word_byte(w, 2));
                    push_hex_byte(&mut payload, word_byte(w, 3));
                    regno = regno + 1;
                }
                payload
            },
            GdbCommand::WriteRegisters(data) => {
                if data.len() != 4 * REG_COUNT as usize {
                    if !(dm.current_state() == crate::riscv::RunState::Halted) {
                        return error_reply(DebugError::NotHalted);
                    }
                    return Vec::new();
                }
                let mut regno: u32 = 0;
                while regno < REG_COUNT
                    invariant
                        dm.wf(),
                        old(dm).same_config(*dm),
                        dm.run_state() == old(dm).run_state(),
                        data@.len() == 4 * REG_COUNT,
                        *cmd is WriteRegisters,
                        self.no_ack() == old(self).no_ack(),
                        self.last_stop() == old(self).last_stop(),
                    decreases REG_COUNT - regno,
                {
                    let base = (regno as usize) * 4;
                    let w: u32 = data[base] as u32 + 256 * (data[base + 1] as u32) + 65536 * (
                    data[base + 2] as u32) + 16777216 * (data[base + 3] as u32);
                    match dm.write_register(regno, w) {
                        Ok(u) => u,
                        Err(e) => {
                            return error_reply(e);
                        },
                    };
                    regno = regno + 1;
                }
                ok_reply()
            },
            GdbCommand::ReadMemory { address, length } => {
                let bytes = match dm.read_memory(*address, *length) {
                    Ok(v) => v,
                    Err(e) => {
                        return error_reply(e);
                    },
                };
                let mut payload: Vec<u8> = Vec::new();
                let mut i: usize = 0;
                while i < bytes.len()
                    invariant
                        i <= bytes@.len(),
                        payload@.len() == 2 * i,
                        forall|j: int| 0 <= j < payload@.len() ==> payload@[j] != STAR,
                    decreases bytes@.len() - i,
                {
                    push_hex_byte(&mut payload, bytes[i]);
                    i = i + 1;
                }
                payload
            },
            GdbCommand::WriteMemory { address, data } => {
                if data.len() > 0xFFFF_FFFF {
                    if !(dm.current_state() == crate::riscv::RunState::Halted) {
                        return error_reply(DebugError::NotHalted);
                    }
                    return Vec::new();
                }
                match dm.write_memory(*address, data) {
                    Ok(_) => ok_reply(),
                    Err(e) => error_reply(e),
                }
            },
            GdbCommand::InsertSwBreak { address } => {
                match dm.set_breakpoint(*address) {
                    Ok(_) => ok_reply(),
                    Err(e) => error_reply(e),
                }
            },
            GdbCommand::RemoveSwBreak { address } => {
                match dm.clear_breakpoint(*address) {
                    Ok(_) => ok_reply(),
                    Err(e) => error_reply(e),
                }
            },
            GdbCommand::InsertHwBreak { address } => {
                match dm.set_hw_breakpoint(*address) {
                    Ok(_) => {
                        let v = ok_reply();
                        proof {
                            assert(dm.hw_list().contains(*address));
                        }
                        v
                    },
                    Err(e) => {
                        if matches!(e, DebugError::Unsupported) && matches!(
                            dm.current_state(),
                            crate::riscv::RunState::Halted,
                        ) {
                            // no trigger support: by convention, "unsupported"
                            let v: Vec<u8> = Vec::new();
                            proof {
                                assert(spec_ok_reply().len() == 2);
                                assert(v@ != spec_ok_reply());
                            }
                            v
                        } else {
                            let v = error_reply(e);
                            proof {
                                assert(spec_ok_reply().len() == 2);
                                assert(v@ != spec_ok_reply());
                            }
                            v
                        }
                    },
                }
            },
            GdbCommand::RemoveHwBreak { address } => {
                match dm.clear_hw_breakpoint(*address) {
                    Ok(_) => {
                        let v = ok_reply();
                        proof {
                            assert(!dm.hw_list().contains(*address));
                        }
                        v
                    },
                    Err(e) => {
                        if matches!(e, DebugError::Unsupported) && matches!(
                            dm.current_state(),
                            crate::riscv::RunState::Halted,
                        ) {
                            let v: Vec<u8> = Vec::new();
                            proof {
                                assert(spec_ok_reply().len() == 2);
                                assert(v@ != spec_ok_reply());
                            }
                            v
                        } else {
                            let v = error_reply(e);
                            proof {
                                assert(spec_ok_reply().len() == 2);
                                assert(v@ != spec_ok_reply());
                            }
                            v
                        }
                    },
                }
            },
            GdbCommand::ContinueAt { address } => {
                match address {
                    Some(a) => {
                        match dm.write_register(REG_PC, *a) {
                            Ok(u) => u,
                            Err(e) => {
                                return error_reply(e);
                            },
                        };
                    },
                    None => {},
                }
                match dm.resume() {
                    Ok(u) => u,
                    Err(e) => {
                        return error_reply(e);
                    },
                };
                match dm.wait_for_halt() {
                    Ok(u) => u,
                    Err(e) => {
                        return error_reply(e);
                    },
                };
                let pc = match dm.read_register(REG_PC) {
                    Ok(w) => w,
                    Err(e) => {
                        return error_reply(e);
                    },
                };
                if dm.has_sw_breakpoint_at(pc) || dm.has_hw_breakpoint_at(pc) {
                    self.last_stop = StopReason::Breakpoint;
                } else {
                    self.last_stop = StopReason::HaltRequest;
                }
                stop_reply(self.last_stop)
            },
            GdbCommand::StepAt { address } => {
                match address {
                    Some(a) => {
                        match dm.write_register(REG_PC, *a) {
                            Ok(u) => u,
                            Err(e) => {
                                return error_reply(e);
                            },
                        };
                    },
                    None => {},
                }
                match dm.step() {
                    Ok(u) => u,
                    Err(e) => {
                        return error_reply(e);
                    },
                };
                self.last_stop = StopReason::StepDone;
                stop_reply(self.last_stop)
            },
        }
    }
}

/// What the engine sends back for one inbound packet: an optional
/// acknowledgement byte (`+` or `-`, absent in no-ack mode) and, for a
/// well-framed packet, a framed reply.
pub struct GdbResponse {
    /// `+` (packet accepted) or `-` (retransmit), absent in no-ack mode.
    pub ack: Option<u8>,
    /// The framed reply packet; absent when the inbound frame was bad.
    pub reply: Option<Vec<u8>>,
}

/// The command a framed inbound packet carries, when its frame, checksum
/// and run-length coding are all well-formed.
pub open spec fn spec_packet_command(packet: Seq<u8>) -> Option<SpecCommand> {
    match unframe_spec(packet) {
        Some(pl) => match expand_spec(pl) {
            Some(xp) => Some(spec_parse_command(xp)),
            None => None,
        },
        None => None,
    }
}

/// The payload a framed reply carries, after run-length expansion.
pub open spec fn spec_reply_payload(v: Seq<u8>) -> Option<Seq<u8>> {
    match unframe_spec(v) {
        Some(pl) => expand_spec(pl),
        None => None,
    }
}

/// Process one framed inbound packet: acknowledge it, expand repeat-count
/// runs, carry out the command, and frame the reply, compressed where that
/// shortens it. A bad frame or checksum asks for retransmission with `-`
/// (suppressed in no-ack mode) and touches nothing; a payload whose
/// run-length coding is malformed gets the empty reply, by convention.
/// Every reply sent is a well-formed packet whose payload expands, and
/// no-ack mode turns on exactly on a well-formed `QStartNoAckMode` packet.
pub fn process_packet<B: DebugBus>(
    session: &mut GdbSession,
    dm: &mut DebugModule<B>,
    packet: &Vec<u8>,
) -> (r: GdbResponse)
    requires
        old(dm).wf(),
    ensures
        final(dm).wf(),
        old(dm).same_config(*final(dm)),
        unframe_spec(packet@) is None ==> r.reply is None && *final(dm) == *old(dm)
            && *final(session) == *old(session) && r.ack == (if old(session).no_ack() {
            None::<u8>
        } else {
            Some(0x2Du8)
        }),
        unframe_spec(packet@) is Some ==> r.ack == (if old(session).no_ack() {
            None::<u8>
        } else {
            Some(0x2Bu8)
        }),
        final(session).no_ack() == (old(session).no_ack() || spec_packet_command(packet@) == Some(
            SpecCommand::StartNoAckMode,
        )),
        r.reply matches Some(v) ==> spec_reply_payload(v@) is Some,
        spec_packet_command(packet@) == Some(SpecCommand::Unknown) ==> (r.reply matches Some(v)
            && spec_reply_payload(v@) == Some(Seq::<u8>::empty())),
        spec_packet_command(packet@) == Some(SpecCommand::StartNoAckMode) ==> (r.reply matches Some(
            v,
        ) && spec_reply_payload(v@) == Some(spec_ok_reply())),
        spec_packet_command(packet@) == Some(SpecCommand::QueryHaltReason) ==> (r.reply
            matches Some(v) && spec_reply_payload(v@) == Some(
            spec_stop_reply(old(session).last_stop()),
        )),
        (unframe_spec(packet@) matches Some(pl) && expand_spec(pl) is None) ==> (r.reply
            matches Some(v) && spec_reply_payload(v@) == Some(Seq::<u8>::empty())),
{
    let payload = match decode_packet(packet) {
        Some(p) => p,
        None => {
            let ack = if session.no_ack {
                None
            } else {
                Some(0x2Du8)  // '-'
            };
            return GdbResponse { ack, reply: None };
        },
    };
    let ack = if session.no_ack {
        None
    } else {
        Some(0x2Bu8)  // '+'
    };
    let expanded = expand_runs(&payload);
    let reply_payload = match expanded {
        Some(p) => {
            let cmd = parse_command(&p);
            proof {
                assert(spec_packet_command(packet@) == Some(cmd@));
            }
            session.handle_command(dm, &cmd)
        },
        None => Vec::new(),  // malformed coding: the empty reply, by convention
    };
    let compressed = compress_runs(&reply_payload);
    proof {
        crate::rsp::lemma_packet_round_trip(compressed@);
    }
    let framed = encode_packet(&compressed);
    GdbResponse { ack, reply: Some(framed) }
}

} // verus!
