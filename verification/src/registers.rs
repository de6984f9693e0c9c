//! Register map: symbolic register names resolved to bus addresses.
//!
//! Loaded once from a comma-separated descriptor, one register per line:
//! `name,address[,width[,…]]`, the address written in hex (with a `0x`
//! prefix) or in decimal, the width in decimal and four bytes when absent;
//! any further fields are ignored. The map is read-only after loading, and
//! carries an optional base offset applied to every address it resolves,
//! exactly once.

use vstd::prelude::*;

use crate::bridge::spec_translate;
use crate::bridge::translate;
use crate::errors::ConfigError;
use crate::rsp::find_byte;
use crate::rsp::first_index;
use crate::rsp::lemma_first_index_in_range;
use crate::rsp::parse_hex_u32;
use crate::rsp::spec_parse_hex_u32;

verus! {

/// `,` — the field separator.
pub const SEP: u8 = 0x2C;

/// Value of a decimal digit.
pub open spec fn spec_dec_value(c: u8) -> Option<u8> {
    if 0x30 <= c && c <= 0x39 {
        Some((c - 0x30) as u8)
    } else {
        None
    }
}

/// 10 to the power `n`.
pub open spec fn pow10(n: nat) -> nat
    decreases n,
{
    if n == 0 {
        1
    } else {
        10 * pow10((n - 1) as nat)
    }
}

proof fn lemma_pow10_bound(n: nat)
    requires
        n <= 10,
    ensures
        pow10(n) <= 10_000_000_000,
    decreases n,
{
    assert(pow10(0) == 1);
    if n > 0 {
        lemma_pow10_bound((n - 1) as nat);
        assert(pow10(10) == 10 * pow10(9));
        assert(pow10(9) == 10 * pow10(8));
        assert(pow10(8) == 10 * pow10(7));
        assert(pow10(7) == 10 * pow10(6));
        assert(pow10(6) == 10 * pow10(5));
        assert(pow10(5) == 10 * pow10(4));
        assert(pow10(4) == 10 * pow10(3));
        assert(pow10(3) == 10 * pow10(2));
        assert(pow10(2) == 10 * pow10(1));
        assert(pow10(1) == 10);
    }
}

/// Value of a big-endian string of decimal digits; `None` on a non-digit.
pub open spec fn dec_val_rec(s: Seq<u8>) -> Option<nat>
    decreases s.len(),
{
    if s.len() == 0 {
        Some(0nat)
    } else {
        match (dec_val_rec(s.drop_last()), spec_dec_value(s.last())) {
            (Some(v), Some(d)) => Some((v * 10 + d) as nat),
            _ => None,
        }
    }
}

proof fn lemma_dec_val_bound(s: Seq<u8>)
    ensures
        dec_val_rec(s) matches Some(v) ==> v < pow10(s.len() as nat),
    decreases s.len(),
{
    if s.len() > 0 {
        lemma_dec_val_bound(s.drop_last());
    }
}

proof fn lemma_dec_none_rest(s: Seq<u8>, i: int)
    requires
        0 <= i < s.len(),
        spec_dec_value(s[i]) is None,
    ensures
        dec_val_rec(s) is None,
    decreases s.len(),
{
    if i < s.len() - 1 {
        assert(s.drop_last()[i] == s[i]);
        lemma_dec_none_rest(s.drop_last(), i);
    }
}

/// The number written by the decimal digits `s[start..end]`, at most ten
/// of them, when it fits 32 bits.
pub open spec fn spec_parse_dec_u32(s: Seq<u8>, start: int, end: int) -> Option<u32> {
    let digits = s.subrange(start, end);
    if 1 <= digits.len() <= 10 {
        match dec_val_rec(digits) {
            Some(v) => if v <= 0xFFFF_FFFF {
                Some(v as u32)
            } else {
                None
            },
            None => None,
        }
    } else {
        None
    }
}

/// Parse `s[start..end]` as a decimal number that fits 32 bits.
pub fn parse_dec_u32(s: &Vec<u8>, start: usize, end: usize) -> (r: Option<u32>)
    requires
        start <= end <= s@.len(),
    ensures
        r == spec_parse_dec_u32(s@, start as int, end as int),
{
    let ghost digits = s@.subrange(start as int, end as int);
    if end - start < 1 || end - start > 10 {
        return None;
    }
    let mut acc: u64 = 0;
    let mut i: usize = start;
    while i < end
        invariant
            start <= i <= end <= s@.len(),
            end - start <= 10,
            digits == s@.subrange(start as int, end as int),
            dec_val_rec(digits.take(i - start)) == Some(acc as nat),
            acc < pow10((i - start) as nat),
        decreases end - i,
    {
        let c = s[i];
        if c < 0x30 || c > 0x39 {
            proof {
                assert(digits.take(i + 1 - start).drop_last() =~= digits.take(i - start));
                assert(digits.take(i + 1 - start).last() == s@[i as int]);
                assert(digits =~= digits.take(end - start));
                lemma_dec_none_rest(digits, i - start);
            }
            return None;
        }
        let d = c - 0x30;
        proof {
            lemma_pow10_bound((i - start) as nat);
            assert(pow10((i - start + 1) as nat) == 10 * pow10((i - start) as nat));
            lemma_pow10_bound((i - start + 1) as nat);
            assert(digits.take(i + 1 - start).drop_last() =~= digits.take(i - start));
            assert(digits.take(i + 1 - start).last() == s@[i as int]);
        }
        acc = acc * 10 + d as u64;
        i = i + 1;
    }
    proof {
        assert(digits.take(end - start) =~= digits);
        lemma_dec_val_bound(digits);
    }
    if acc > 0xFFFF_FFFF {
        None
    } else {
        Some(acc as u32)
    }
}

/// The number written by `s[start..end]`: hex after a `0x` prefix, else
/// decimal.
pub open spec fn spec_parse_number(s: Seq<u8>, start: int, end: int) -> Option<u32> {
    if end - start > 2 && s[start] == 0x30 && s[start + 1] == 0x78 {
        spec_parse_hex_u32(s, start + 2, end)
    } else {
        spec_parse_dec_u32(s, start, end)
    }
}

/// Parse `s[start..end]` as a number: hex after a `0x` prefix, else
/// decimal.
pub fn parse_number(s: &Vec<u8>, start: usize, end: usize) -> (r: Option<u32>)
    requires
        start <= end <= s@.len(),
    ensures
        r == spec_parse_number(s@, start as int, end as int),
{
    if end - start > 2 && s[start] == 0x30 && s[start + 1] == 0x78 {
        parse_hex_u32(s, start + 2, end)
    } else {
        parse_dec_u32(s, start, end)
    }
}

/// One register of the map.
pub struct RegisterEntry {
    /// Symbolic name.
    pub name: Vec<u8>,
    /// Bus address, as written in the descriptor (before the base offset).
    pub address: u32,
    /// Width in bytes.
    pub width: u32,
}

/// What a descriptor line denotes: name, address, width.
pub open spec fn spec_parse_csr_line(l: Seq<u8>) -> Option<(Seq<u8>, u32, u32)> {
    match first_index(l, SEP) {
        Some(c1) => {
            if c1 == 0 {
                None
            } else {
                let name = l.subrange(0, c1);
                let astart = c1 + 1;
                let aend = match first_index(l.skip(astart), SEP) {
                    Some(c2) => astart + c2,
                    None => l.len() as int,
                };
                match spec_parse_number(l, astart, aend) {
                    Some(addr) => {
                        if aend == l.len() {
                            Some((name, addr, 4u32))
                        } else {
                            let wstart = aend + 1;
                            let wend = match first_index(l.skip(wstart), SEP) {
                                Some(c3) => wstart + c3,
                                None => l.len() as int,
                            };
                            match spec_parse_dec_u32(l, wstart, wend) {
                                Some(w) => Some((name, addr, w)),
                                None => None,
                            }
                        }
                    },
                    None => None,
                }
            }
        },
        None => None,
    }
}

/// What a whole descriptor denotes: the entries of its non-empty lines in
/// order — name, address and width each — or `None` when some non-empty
/// line is malformed. Lines are split at line feeds, and one trailing
/// carriage return is dropped from each.
pub open spec fn spec_parse_descriptor(text: Seq<u8>) -> Option<Seq<(Seq<u8>, u32, u32)>>
    decreases text.len(),
    via spec_parse_descriptor_decreases
{
    if text.len() == 0 {
        Some(Seq::empty())
    } else {
        let end = match first_index(text, 0x0A) {
            Some(e) => e,
            None => text.len() as int,
        };
        let stop = if end > 0 && text[end - 1] == 0x0D {
            end - 1
        } else {
            end
        };
        let rest_start = if end < text.len() {
            end + 1
        } else {
            text.len() as int
        };
        let rest = spec_parse_descriptor(text.skip(rest_start));
        if stop <= 0 {
            rest
        } else {
            match (spec_parse_csr_line(text.subrange(0, stop)), rest) {
                (Some(e), Some(entries)) => Some(seq![e] + entries),
                _ => None,
            }
        }
    }
}

#[via_fn]
proof fn spec_parse_descriptor_decreases(text: Seq<u8>) {
    lemma_first_index_in_range(text, 0x0A);
}

/// Copy `s[start..end]` into a fresh vector.
fn copy_range(s: &Vec<u8>, start: usize, end: usize) -> (r: Vec<u8>)
    requires
        start <= end <= s@.len(),
    ensures
        r@ == s@.subrange(start as int, end as int),
{
    let mut r: Vec<u8> = Vec::new();
    let mut i: usize = start;
    while i < end
        invariant
            start <= i <= end <= s@.len(),
            r@ =~= s@.subrange(start as int, i as int),
        decreases end - i,
    {
        r.push(s[i]);
        proof {
            assert(r@ =~= s@.subrange(start as int, i + 1));
        }
        i = i + 1;
    }
    r
}

/// Parse one descriptor line into a register entry.
pub fn parse_csr_line(l: &Vec<u8>) -> (r: Option<RegisterEntry>)
    ensures
        match r {
            Some(e) => spec_parse_csr_line(l@) == Some((e.name@, e.address, e.width)),
            None => spec_parse_csr_line(l@) is None,
        },
{
    let n = l.len();
    let c1 = match find_byte(l, 0, SEP) {
        Some(c1) => c1,
        None => {
            proof {
                assert(l@.skip(0) =~= l@);
            }
            return None;
        },
    };
    proof {
        assert(l@.skip(0) =~= l@);
    }
    if c1 == 0 {
        return None;
    }
    let astart = c1 + 1;
    let aend = match find_byte(l, astart, SEP) {
        Some(c2) => c2,
        None => n,
    };
    let addr = match parse_number(l, astart, aend) {
        Some(a) => a,
        None => {
            return None;
        },
    };
    let width: u32;
    if aend == n {
        width = 4;
    } else {
        let wstart = aend + 1;
        let wend = match find_byte(l, wstart, SEP) {
            Some(c3) => c3,
            None => n,
        };
        width = match parse_dec_u32(l, wstart, wend) {
            Some(w) => w,
            None => {
                return None;
            },
        };
    }
    let name = copy_range(l, 0, c1);
    Some(RegisterEntry { name, address: addr, width })
}

/// First entry of `s` whose name is `name`: its address and width.
pub open spec fn spec_lookup(s: Seq<RegisterEntry>, name: Seq<u8>) -> Option<(u32, u32)>
    decreases s.len(),
{
    if s.len() == 0 {
        None
    } else if s[0].name@ == name {
        Some((s[0].address, s[0].width))
    } else {
        spec_lookup(s.skip(1), name)
    }
}

proof fn lemma_lookup_at(s: Seq<RegisterEntry>, name: Seq<u8>, i: int)
    requires
        0 <= i < s.len(),
        s[i].name@ == name,
        forall|j: int| 0 <= j < i ==> (#[trigger] s[j]).name@ != name,
    ensures
        spec_lookup(s, name) == Some((s[i].address, s[i].width)),
    decreases s.len(),
{
    if i > 0 {
        assert forall|j: int| 0 <= j < i - 1 implies (#[trigger] s.skip(1)[j]).name@ != name by {
            assert(s.skip(1)[j] == s[j + 1]);
        }
        assert(s.skip(1)[i - 1] == s[i]);
        lemma_lookup_at(s.skip(1), name, i - 1);
    }
}

proof fn lemma_lookup_none(s: Seq<RegisterEntry>, name: Seq<u8>)
    requires
        forall|j: int| 0 <= j < s.len() ==> (#[trigger] s[j]).name@ != name,
    ensures
        spec_lookup(s, name) is None,
    decreases s.len(),
{
    if s.len() > 0 {
        assert forall|j: int| 0 <= j < s.skip(1).len() implies (#[trigger] s.skip(1)[j]).name@
            != name by {
            assert(s.skip(1)[j] == s[j + 1]);
        }
        lemma_lookup_none(s.skip(1), name);
    }
}

/// Whether two byte strings are equal.
fn bytes_eq(a: &Vec<u8>, b: &Vec<u8>) -> (r: bool)
    ensures
        r == (a@ == b@),
{
    if a.len() != b.len() {
        return false;
    }
    let mut i: usize = 0;
    while i < a.len()
        invariant
            i <= a@.len(),
            a@.len() == b@.len(),
            forall|j: int| 0 <= j < i ==> a@[j] == b@[j],
        decreases a@.len() - i,
    {
        if a[i] != b[i] {
            return false;
        }
        i = i + 1;
    }
    proof {
        assert(a@ =~= b@);
    }
    true
}

/// The name-to-address table, read-only after loading, with a base offset
/// applied to every address it resolves.
pub struct RegisterMap {
    entries: Vec<RegisterEntry>,
    offset: u32,
}

impl RegisterMap {
    /// The loaded entries, in descriptor order.
    pub closed spec fn entries_view(self) -> Seq<RegisterEntry> {
        self.entries@
    }

    /// The base offset applied on resolution.
    pub closed spec fn spec_offset(self) -> u32 {
        self.offset
    }

    /// An empty map with the given base offset.
    pub fn new(offset: u32) -> (m: RegisterMap)
        ensures
            m.entries_view() == Seq::<RegisterEntry>::empty(),
            m.spec_offset() == offset,
    {
        RegisterMap { entries: Vec::new(), offset }
    }

    /// Load one descriptor line. A line that parses is appended; any other
    /// line is reported `false` and ignored.
    pub fn load_line(&mut self, line: &Vec<u8>) -> (r: bool)
        ensures
            final(self).spec_offset() == old(self).spec_offset(),
            r == (spec_parse_csr_line(line@) is Some),
            match spec_parse_csr_line(line@) {
                Some((name, address, width)) => {
                    &&& final(self).entries_view().len() == old(self).entries_view().len() + 1
                    &&& final(self).entries_view().last().name@ == name
                    &&& final(self).entries_view().last().address == address
                    &&& final(self).entries_view().last().width == width
                    &&& final(self).entries_view().drop_last() == old(self).entries_view()
                },
                None => final(self).entries_view() == old(self).entries_view(),
            },
    {
        match parse_csr_line(line) {
            Some(e) => {
                self.entries.push(e);
                proof {
                    assert(self.entries@.drop_last() =~= old(self).entries@);
                }
                true
            },
            None => false,
        }
    }

    /// Load a whole descriptor: one register per line, lines separated by
    /// line feeds, carriage returns and blank lines ignored. Entries load
    /// in order up to the first malformed line, which fails the descriptor
    /// with `InvalidConfig`; on success the appended entries are exactly
    /// what the descriptor's non-empty lines denote, in order, and their
    /// count is returned.
    #[verifier::rlimit(100)]
    #[verifier::spinoff_prover]
    pub fn load_descriptor(&mut self, text: &Vec<u8>) -> (r: Result<usize, ConfigError>)
        ensures
            final(self).spec_offset() == old(self).spec_offset(),
            r is Ok <==> spec_parse_descriptor(text@) is Some,
            r matches Ok(n) ==> (spec_parse_descriptor(text@) matches Some(parsed) && {
                &&& n == parsed.len()
                &&& final(self).entries_view().len() == old(self).entries_view().len()
                    + parsed.len()
                &&& final(self).entries_view().take(old(self).entries_view().len() as int) == old(
                    self,
                ).entries_view()
                &&& forall|i: int|
                    0 <= i < parsed.len() ==> {
                        let e = #[trigger] final(self).entries_view()[old(
                            self,
                        ).entries_view().len() + i];
                        e.name@ == parsed[i].0 && e.address == parsed[i].1 && e.width
                            == parsed[i].2
                    }
            }),
            r is Err ==> r == Err::<usize, ConfigError>(ConfigError::InvalidConfig),
    {
        let ghost orig = self.entries@;
        let ghost mut loaded: Seq<(Seq<u8>, u32, u32)> = Seq::empty();
        let mut added: usize = 0;
        let mut start: usize = 0;
        let n = text.len();
        proof {
            assert(text@.skip(0) =~= text@);
            match spec_parse_descriptor(text@) {
                Some(entries) => {
                    assert(loaded + entries =~= entries);
                },
                None => {},
            }
            assert(self.entries@.take(orig.len() as int) =~= orig);
        }
        while start < n
            invariant
                start <= text@.len(),
                n == text@.len(),
                self.spec_offset() == old(self).spec_offset(),
                orig == old(self).entries@,
                added <= start,
                added == loaded.len(),
                self.entries@.len() == orig.len() + loaded.len(),
                self.entries@.take(orig.len() as int) == orig,
                forall|i: int|
                    0 <= i < loaded.len() ==> {
                        let e = #[trigger] self.entries@[orig.len() + i];
                        e.name@ == loaded[i].0 && e.address == loaded[i].1 && e.width
                            == loaded[i].2
                    },
                match spec_parse_descriptor(text@.skip(start as int)) {
                    Some(entries) => spec_parse_descriptor(text@) == Some(loaded + entries),
                    None => spec_parse_descriptor(text@) is None,
                },
            decreases text@.len() - start,
        {
            let ghost tail = text@.skip(start as int);
            let end = match find_byte(text, start, 0x0A) {
                Some(e) => e,
                None => n,
            };
            proof {
                if end > start {
                    assert(tail[end - 1 - start] == text@[end - 1]);
                }
            }
            // drop a trailing carriage return
            let stop = if end > start && text[end - 1] == 0x0D {
                end - 1
            } else {
                end
            };
            let next = if end < n {
                end + 1
            } else {
                n
            };
            proof {
                assert(tail.skip(next - start) =~= text@.skip(next as int));
            }
            if stop > start {
                let line = copy_range(text, start, stop);
                proof {
                    assert(line@ =~= tail.subrange(0, stop - start));
                }
                if !self.load_line(&line) {
                    return Err(ConfigError::InvalidConfig);
                }
                proof {
                    let t = match spec_parse_csr_line(line@) {
                        Some(t) => t,
                        None => (Seq::<u8>::empty(), 0u32, 0u32),
                    };
                    assert(self.entries@.take(orig.len() as int) =~= self.entries@.drop_last().take(
                        orig.len() as int,
                    ));
                    let prev_loaded = loaded;
                    loaded = loaded.push(t);
                    assert(loaded.drop_last() =~= prev_loaded);
                    assert(loaded.last() == t);
                    assert forall|i: int| 0 <= i < loaded.len() implies {
                        let e = #[trigger] self.entries@[orig.len() + i];
                        e.name@ == loaded[i].0 && e.address == loaded[i].1 && e.width
                            == loaded[i].2
                    } by {
                        if i < loaded.len() - 1 {
                            assert(self.entries@[orig.len() + i] == self.entries@.drop_last()[orig.len()
                                + i]);
                            assert(loaded[i] == prev_loaded[i]);
                        } else {
                            assert(self.entries@[orig.len() + i] == self.entries@.last());
                            assert(loaded[i] == t);
                        }
                    }
                    match spec_parse_descriptor(text@.skip(next as int)) {
                        Some(entries) => {
                            assert(spec_parse_descriptor(tail) == Some(seq![t] + entries));
                            assert(prev_loaded + (seq![t] + entries) =~= loaded + entries);
                        },
                        None => {},
                    }
                }
                added = added + 1;
            } else {
                proof {
                    match spec_parse_descriptor(text@.skip(next as int)) {
                        Some(entries) => {
                            assert(spec_parse_descriptor(tail) == Some(entries));
                        },
                        None => {},
                    }
                }
            }
            start = next;
        }
        proof {
            assert(text@.skip(n as int) =~= Seq::<u8>::empty());
            match spec_parse_descriptor(text@) {
                Some(entries) => {
                    assert(loaded + Seq::<(Seq<u8>, u32, u32)>::empty() =~= loaded);
                },
                None => {},
            }
        }
        Ok(added)
    }

    /// Resolve `name` to its bus address, with the base offset applied.
    pub fn lookup(&self, name: &Vec<u8>) -> (r: Option<u32>)
        ensures
            r == match spec_lookup(self.entries_view(), name@) {
                Some((address, _)) => Some(spec_translate(address, self.spec_offset())),
                None => None::<u32>,
            },
    {
        let mut i: usize = 0;
        while i < self.entries.len()
            invariant
                i <= self.entries@.len(),
                forall|j: int| 0 <= j < i ==> (#[trigger] self.entries@[j]).name@ != name@,
            decreases self.entries@.len() - i,
        {
            if bytes_eq(&self.entries[i].name, name) {
                proof {
                    lemma_lookup_at(self.entries@, name@, i as int);
                }
                return Some(translate(self.entries[i].address, self.offset));
            }
            i = i + 1;
        }
        proof {
            lemma_lookup_none(self.entries@, name@);
        }
        None
    }

    /// Resolve `name` to its width in bytes.
    pub fn lookup_width(&self, name: &Vec<u8>) -> (r: Option<u32>)
        ensures
            r == match spec_lookup(self.entries_view(), name@) {
                Some((_, width)) => Some(width),
                None => None::<u32>,
            },
    {
        let mut i: usize = 0;
        while i < self.entries.len()
            invariant
                i <= self.entries@.len(),
                forall|j: int| 0 <= j < i ==> (#[trigger] self.entries@[j]).name@ != name@,
            decreases self.entries@.len() - i,
        {
            if bytes_eq(&self.entries[i].name, name) {
                proof {
                    lemma_lookup_at(self.entries@, name@, i as int);
                }
                return Some(self.entries[i].width);
            }
            i = i + 1;
        }
        proof {
            lemma_lookup_none(self.entries@, name@);
        }
        None
    }
}

} // verus!
