//! GDB Remote Serial Protocol packet framing.
//!
//! A packet is `$<payload>#<2-digit hex checksum>`, the checksum being the
//! sum of the payload bytes modulo 256. Framing and unframing are verified
//! to be exact inverses for every payload, and the checksum is verified
//! against an independently defined modular sum.

use vstd::prelude::*;

verus! {

/// `$` — start of a packet.
pub const PACKET_START: u8 = 0x24;
/// `#` — end of payload, start of checksum.
pub const PACKET_END: u8 = 0x23;

/// Sum of the bytes of `s` modulo 256: the RSP packet checksum.
pub open spec fn sum_mod(s: Seq<u8>) -> u8
    decreases s.len(),
{
    if s.len() == 0 {
        0u8
    } else {
        ((sum_mod(s.drop_last()) + s.last()) % 256) as u8
    }
}

/// ASCII code of the lower-case hex digit for `n` (`n < 16`).
pub open spec fn spec_hex_digit(n: u8) -> u8 {
    if n < 10 {
        (0x30 + n) as u8
    } else {
        (0x57 + n) as u8
    }
}

/// Value of the ASCII hex digit `c`, accepting both cases.
pub open spec fn spec_hex_value(c: u8) -> Option<u8> {
    if 0x30 <= c && c <= 0x39 {
        Some((c - 0x30) as u8)
    } else if 0x61 <= c && c <= 0x66 {
        Some((c - 0x57) as u8)
    } else if 0x41 <= c && c <= 0x46 {
        Some((c - 0x37) as u8)
    } else {
        None
    }
}

/// The framed form of payload `p`: `$ p # hi lo`.
pub open spec fn frame_spec(p: Seq<u8>) -> Seq<u8> {
    seq![PACKET_START] + p + seq![
        PACKET_END,
        spec_hex_digit((sum_mod(p) / 16) as u8),
        spec_hex_digit((sum_mod(p) % 16) as u8),
    ]
}

/// The payload of a well-formed framed packet `b`, `None` when the shape or
/// the checksum is wrong.
pub open spec fn unframe_spec(b: Seq<u8>) -> Option<Seq<u8>> {
    if b.len() < 4 {
        None
    } else if b[0] != PACKET_START {
        None
    } else if b[b.len() - 3] != PACKET_END {
        None
    } else {
        let p = b.subrange(1, b.len() - 3);
        match (spec_hex_value(b[b.len() - 2]), spec_hex_value(b[b.len() - 1])) {
            (Some(hi), Some(lo)) => if hi * 16 + lo == sum_mod(p) {
                Some(p)
            } else {
                None
            },
            _ => None,
        }
    }
}

/// Checksum of `data`: the sum of its bytes modulo 256.
pub fn checksum(data: &Vec<u8>) -> (r: u8)
    ensures
        r == sum_mod(data@),
{
    let mut acc: u8 = 0;
    let mut i: usize = 0;
    while i < data.len()
        invariant
            i <= data.len(),
            acc == sum_mod(data@.take(i as int)),
        decreases data.len() - i,
    {
        let v: u16 = acc as u16 + data[i] as u16;
        acc = (v % 256) as u8;
        i = i + 1;
        proof {
            assert(data@.take(i as int).drop_last() =~= data@.take(i - 1));
            assert(data@.take(i as int).last() == data@[i - 1]);
        }
    }
    proof {
        assert(data@.take(data.len() as int) =~= data@);
    }
    acc
}

/// ASCII code of the lower-case hex digit for `n`.
pub fn hex_digit(n: u8) -> (r: u8)
    requires
        n < 16,
    ensures
        r == spec_hex_digit(n),
{
    if n < 10 {
        0x30 + n
    } else {
        0x57 + n
    }
}

/// Value of the ASCII hex digit `c`; `None` when `c` is no hex digit.
pub fn hex_value(c: u8) -> (r: Option<u8>)
    ensures
        r == spec_hex_value(c),
{
    if 0x30 <= c && c <= 0x39 {
        Some(c - 0x30)
    } else if 0x61 <= c && c <= 0x66 {
        Some(c - 0x57)
    } else if 0x41 <= c && c <= 0x46 {
        Some(c - 0x37)
    } else {
        None
    }
}

/// Frames `payload` as `$<payload>#<checksum>`.
pub fn encode_packet(payload: &Vec<u8>) -> (r: Vec<u8>)
    ensures
        r@ == frame_spec(payload@),
{
    let mut out: Vec<u8> = Vec::new();
    out.push(PACKET_START);
    let mut i: usize = 0;
    while i < payload.len()
        invariant
            i <= payload.len(),
            out@ =~= seq![PACKET_START] + payload@.take(i as int),
        decreases payload.len() - i,
    {
        out.push(payload[i]);
        i = i + 1;
    }
    let ck = checksum(payload);
    out.push(PACKET_END);
    out.push(hex_digit(ck / 16));
    out.push(hex_digit(ck % 16));
    proof {
        assert(payload@.take(payload.len() as int) =~= payload@);
        assert(out@ =~= frame_spec(payload@));
    }
    out
}

/// Unframes `packet`, returning its payload when the framing and the
/// checksum are well-formed, `None` otherwise.
pub fn decode_packet(packet: &Vec<u8>) -> (r: Option<Vec<u8>>)
    ensures
        match r {
            Some(p) => unframe_spec(packet@) == Some(p@),
            None => unframe_spec(packet@) is None,
        },
{
    if packet.len() < 4 {
        return None;
    }
    if packet[0] != PACKET_START {
        return None;
    }
    if packet[packet.len() - 3] != PACKET_END {
        return None;
    }
    let mut payload: Vec<u8> = Vec::new();
    let mut i: usize = 1;
    while i < packet.len() - 3
        invariant
            1 <= i <= packet.len() - 3,
            packet.len() >= 4,
            payload@ =~= packet@.subrange(1, i as int),
        decreases packet.len() - 3 - i,
    {
        payload.push(packet[i]);
        i = i + 1;
    }
    let hi = match hex_value(packet[packet.len() - 2]) {
        Some(v) => v,
        None => {
            return None;
        },
    };
    let lo = match hex_value(packet[packet.len() - 1]) {
        Some(v) => v,
        None => {
            return None;
        },
    };
    let ck = checksum(&payload);
    if hi as u16 * 16 + lo as u16 == ck as u16 {
        Some(payload)
    } else {
        None
    }
}

/// `*` — marks a repeat-count run.
pub const STAR: u8 = 0x2A;

/// 16 to the power `n`.
pub open spec fn pow16(n: nat) -> nat
    decreases n,
{
    if n == 0 {
        1
    } else {
        16 * pow16((n - 1) as nat)
    }
}

proof fn lemma_pow16_bound(n: nat)
    requires
        n <= 8,
    ensures
        pow16(n) <= 0x1_0000_0000,
    decreases n,
{
    assert(pow16(0) == 1);
    if n > 0 {
        lemma_pow16_bound((n - 1) as nat);
        assert(pow16(8) == 16 * pow16(7));
        assert(pow16(7) == 16 * pow16(6));
        assert(pow16(6) == 16 * pow16(5));
        assert(pow16(5) == 16 * pow16(4));
        assert(pow16(4) == 16 * pow16(3));
        assert(pow16(3) == 16 * pow16(2));
        assert(pow16(2) == 16 * pow16(1));
        assert(pow16(1) == 16);
    }
}

/// Value of a big-endian string of hex digits; `None` on a non-digit.
pub open spec fn hex_val_rec(s: Seq<u8>) -> Option<nat>
    decreases s.len(),
{
    if s.len() == 0 {
        Some(0nat)
    } else {
        match (hex_val_rec(s.drop_last()), spec_hex_value(s.last())) {
            (Some(v), Some(d)) => Some((v * 16 + d) as nat),
            _ => None,
        }
    }
}

proof fn lemma_hex_val_bound(s: Seq<u8>)
    ensures
        hex_val_rec(s) matches Some(v) ==> v < pow16(s.len() as nat),
    decreases s.len(),
{
    if s.len() > 0 {
        lemma_hex_val_bound(s.drop_last());
    }
}

/// The number written by the hex digits `s[start..end]`, when they are
/// between one and eight digits, all valid.
pub open spec fn spec_parse_hex_u32(s: Seq<u8>, start: int, end: int) -> Option<u32> {
    let digits = s.subrange(start, end);
    if 1 <= digits.len() <= 8 {
        match hex_val_rec(digits) {
            Some(v) => Some(v as u32),
            None => None,
        }
    } else {
        None
    }
}

/// Parse `s[start..end]` as a big-endian hex number of at most eight
/// digits.
pub fn parse_hex_u32(s: &Vec<u8>, start: usize, end: usize) -> (r: Option<u32>)
    requires
        start <= end <= s@.len(),
    ensures
        r == spec_parse_hex_u32(s@, start as int, end as int),
{
    let ghost digits = s@.subrange(start as int, end as int);
    if end - start < 1 || end - start > 8 {
        return None;
    }
    let mut acc: u32 = 0;
    let mut i: usize = start;
    while i < end
        invariant
            start <= i <= end <= s@.len(),
            end - start <= 8,
            digits == s@.subrange(start as int, end as int),
            hex_val_rec(digits.take(i - start)) == Some(acc as nat),
            acc < pow16((i - start) as nat),
        decreases end - i,
    {
        let d = match hex_value(s[i]) {
            Some(d) => d,
            None => {
                proof {
                    assert(digits.take(i + 1 - start).drop_last() =~= digits.take(i - start));
                    assert(digits.take(i + 1 - start).last() == s@[i as int]);
                    assert(digits =~= digits.take(end - start));
                    lemma_hex_none_rest(digits, i - start);
                }
                return None;
            },
        };
        proof {
            lemma_pow16_bound((i - start) as nat);
            assert(pow16((i - start + 1) as nat) == 16 * pow16((i - start) as nat));
            lemma_pow16_bound((i - start + 1) as nat);
            assert(digits.take(i + 1 - start).drop_last() =~= digits.take(i - start));
            assert(digits.take(i + 1 - start).last() == s@[i as int]);
        }
        acc = acc * 16 + d as u32;
        i = i + 1;
    }
    proof {
        assert(digits.take(end - start) =~= digits);
        lemma_hex_val_bound(digits);
    }
    Some(acc)
}

proof fn lemma_hex_none_rest(s: Seq<u8>, i: int)
    requires
        0 <= i < s.len(),
        spec_hex_value(s[i]) is None,
    ensures
        hex_val_rec(s) is None,
    decreases s.len(),
{
    if i < s.len() - 1 {
        assert(s.drop_last()[i] == s[i]);
        lemma_hex_none_rest(s.drop_last(), i);
    }
}

/// Index of the first occurrence of `b` in `s`.
pub open spec fn first_index(s: Seq<u8>, b: u8) -> Option<int>
    decreases s.len(),
{
    if s.len() == 0 {
        None
    } else if s[0] == b {
        Some(0int)
    } else {
        match first_index(s.skip(1), b) {
            Some(i) => Some(i + 1),
            None => None,
        }
    }
}

proof fn lemma_first_index_found(s: Seq<u8>, b: u8, i: int)
    requires
        0 <= i < s.len(),
        s[i] == b,
        forall|j: int| 0 <= j < i ==> s[j] != b,
    ensures
        first_index(s, b) == Some(i),
    decreases s.len(),
{
    if i > 0 {
        assert forall|j: int| 0 <= j < i - 1 implies s.skip(1)[j] != b by {
            assert(s.skip(1)[j] == s[j + 1]);
        }
        assert(s.skip(1)[i - 1] == s[i]);
        lemma_first_index_found(s.skip(1), b, i - 1);
    }
}

proof fn lemma_first_index_none(s: Seq<u8>, b: u8)
    requires
        forall|j: int| 0 <= j < s.len() ==> s[j] != b,
    ensures
        first_index(s, b) is None,
    decreases s.len(),
{
    if s.len() > 0 {
        assert forall|j: int| 0 <= j < s.skip(1).len() implies s.skip(1)[j] != b by {
            assert(s.skip(1)[j] == s[j + 1]);
        }
        lemma_first_index_none(s.skip(1), b);
    }
}

/// A found index is in range and hits `b`.
pub proof fn lemma_first_index_in_range(s: Seq<u8>, b: u8)
    ensures
        first_index(s, b) matches Some(i) ==> 0 <= i < s.len() && s[i] == b,
    decreases s.len(),
{
    if s.len() > 0 && s[0] != b {
        lemma_first_index_in_range(s.skip(1), b);
    }
}

/// First position of `b` in `s` at or after `start`.
pub fn find_byte(s: &Vec<u8>, start: usize, b: u8) -> (r: Option<usize>)
    requires
        start <= s@.len(),
    ensures
        match r {
            Some(i) => start <= i < s@.len() && first_index(s@.skip(start as int), b) == Some(
                i - start,
            ),
            None => first_index(s@.skip(start as int), b) is None,
        },
{
    let mut i: usize = start;
    while i < s.len()
        invariant
            start <= i <= s@.len(),
            forall|j: int| start <= j < i ==> s@[j] != b,
        decreases s@.len() - i,
    {
        if s[i] == b {
            proof {
                let sub = s@.skip(start as int);
                assert(sub[i - start] == s@[i as int]);
                assert forall|j: int| 0 <= j < i - start implies sub[j] != b by {
                    assert(sub[j] == s@[j + start]);
                }
                lemma_first_index_found(sub, b, i - start);
            }
            return Some(i);
        }
        i = i + 1;
    }
    proof {
        let sub = s@.skip(start as int);
        assert forall|j: int| 0 <= j < sub.len() implies sub[j] != b by {
            assert(sub[j] == s@[j + start]);
        }
        lemma_first_index_none(sub, b);
    }
    None
}

/// The run-length expansion of `s`: `X*n` stands for `X` repeated `n - 29`
/// further times, `n` being a printable count byte. `None` when a `*` has
/// no preceding byte or no valid count.
pub open spec fn expand_spec(s: Seq<u8>) -> Option<Seq<u8>>
    decreases s.len(),
{
    if s.len() == 0 {
        Some(Seq::empty())
    } else if s[0] == STAR {
        None
    } else if s.len() >= 2 && s[1] == STAR {
        if s.len() >= 3 && 32 <= s[2] <= 126 {
            match expand_spec(s.skip(3)) {
                Some(rest) => Some(Seq::new((s[2] - 29 + 1) as nat, |k: int| s[0]) + rest),
                None => None,
            }
        } else {
            None
        }
    } else {
        match expand_spec(s.skip(1)) {
            Some(rest) => Some(seq![s[0]] + rest),
            None => None,
        }
    }
}

/// Expansion distributes over concatenation at a chunk boundary.
proof fn lemma_expand_concat(x: Seq<u8>, y: Seq<u8>)
    requires
        expand_spec(x) is Some,
        expand_spec(y) is Some,
        y.len() > 0 ==> y[0] != STAR,
    ensures
        expand_spec(x + y) == Some(expand_spec(x).unwrap() + expand_spec(y).unwrap()),
    decreases x.len(),
{
    if x.len() == 0 {
        assert(x + y =~= y);
        assert(expand_spec(x).unwrap() + expand_spec(y).unwrap() =~= expand_spec(y).unwrap());
    } else if x.len() >= 2 && x[1] == STAR {
        if x.skip(3).len() > 0 {
            assert(x.skip(3)[0] != STAR);
        }
        lemma_expand_concat(x.skip(3), y);
        assert((x + y).skip(3) =~= x.skip(3) + y);
        assert((x + y).len() >= 3 && (x + y)[0] == x[0] && (x + y)[1] == x[1] && (x + y)[2]
            == x[2]);
        assert(Seq::new((x[2] - 29 + 1) as nat, |k: int| x[0]) + (expand_spec(x.skip(3)).unwrap()
            + expand_spec(y).unwrap()) =~= (Seq::new((x[2] - 29 + 1) as nat, |k: int| x[0])
            + expand_spec(x.skip(3)).unwrap()) + expand_spec(y).unwrap());
    } else {
        if x.skip(1).len() > 0 {
            assert(x.skip(1)[0] != STAR);
        }
        lemma_expand_concat(x.skip(1), y);
        assert((x + y).skip(1) =~= x.skip(1) + y);
        if x.len() == 1 {
            assert((x + y).len() >= 2 ==> (x + y)[1] == y[0]);
        } else {
            assert((x + y)[1] == x[1]);
        }
        assert(seq![x[0]] + (expand_spec(x.skip(1)).unwrap() + expand_spec(y).unwrap()) =~= (
        seq![x[0]] + expand_spec(x.skip(1)).unwrap()) + expand_spec(y).unwrap());
    }
}

/// Expand the repeat-count runs of `data`, as a receiver does on decode.
pub fn expand_runs(data: &Vec<u8>) -> (r: Option<Vec<u8>>)
    ensures
        match r {
            Some(v) => expand_spec(data@) == Some(v@),
            None => expand_spec(data@) is None,
        },
{
    let mut out: Vec<u8> = Vec::new();
    let mut i: usize = 0;
    proof {
        assert(data@.skip(0) =~= data@);
        match expand_spec(data@) {
            Some(rest) => {
                assert(out@ + rest =~= rest);
            },
            None => {},
        }
    }
    while i < data.len()
        invariant
            i <= data@.len(),
            match expand_spec(data@.skip(i as int)) {
                Some(rest) => expand_spec(data@) == Some(out@ + rest),
                None => expand_spec(data@) is None,
            },
        decreases data@.len() - i,
    {
        let ghost tail = data@.skip(i as int);
        proof {
            assert(tail.len() == data@.len() - i);
            assert(tail[0] == data@[i as int]);
        }
        let c = data[i];
        if c == STAR {
            return None;
        }
        if i + 1 < data.len() && data[i + 1] == STAR {
            proof {
                assert(tail[1] == data@[i + 1]);
            }
            if i + 2 >= data.len() {
                return None;
            }
            let n = data[i + 2];
            proof {
                assert(tail[2] == data@[i + 2]);
            }
            if n < 32 || n > 126 {
                return None;
            }
            let reps: usize = (n - 29) as usize + 1;
            let ghost base = out@;
            let mut k: usize = 0;
            while k < reps
                invariant
                    k <= reps,
                    out@ =~= base + Seq::new(k as nat, |q: int| c),
                decreases reps - k,
            {
                out.push(c);
                proof {
                    assert(out@ =~= base + Seq::new((k + 1) as nat, |q: int| c));
                }
                k = k + 1;
            }
            proof {
                assert(tail.skip(3) =~= data@.skip(i + 3));
                assert(Seq::new((n - 29 + 1) as nat, |k: int| tail[0]) =~= Seq::new(
                    (n - 29 + 1) as nat,
                    |q: int| c,
                ));
                assert(out@ =~= base + Seq::new((n - 29 + 1) as nat, |q: int| c));
                match expand_spec(data@.skip(i + 3)) {
                    Some(rest) => {
                        assert(expand_spec(tail) == Some(
                            Seq::new((n - 29 + 1) as nat, |q: int| c) + rest,
                        ));
                        assert(base + (Seq::new((n - 29 + 1) as nat, |q: int| c) + rest) =~= out@
                            + rest);
                    },
                    None => {},
                }
            }
            i = i + 3;
        } else {
            out.push(c);
            proof {
                assert(tail.skip(1) =~= data@.skip(i + 1));
                if tail.len() >= 2 {
                    assert(tail[1] == data@[i + 1]);
                }
                match expand_spec(data@.skip(i + 1)) {
                    Some(rest) => {
                        assert(expand_spec(tail) == Some(seq![c] + rest));
                        assert((out@.drop_last() + (seq![c] + rest)) =~= out@ + rest);
                    },
                    None => {},
                }
            }
            i = i + 1;
        }
    }
    proof {
        assert(data@.skip(data@.len() as int) =~= Seq::<u8>::empty());
        assert(out@ + Seq::<u8>::empty() =~= out@);
    }
    Some(out)
}

/// Law: compressing and expanding is the identity, and compression never
/// lengthens; runs are emitted only where they shorten the output. Payloads
/// must not contain a literal `*`, which the run syntax cannot carry.
pub fn compress_runs(data: &Vec<u8>) -> (r: Vec<u8>)
    requires
        forall|j: int| 0 <= j < data@.len() ==> data@[j] != STAR,
    ensures
        expand_spec(r@) == Some(data@),
        r@.len() <= data@.len(),
{
    let mut out: Vec<u8> = Vec::new();
    let mut i: usize = 0;
    while i < data.len()
        invariant
            i <= data@.len(),
            forall|j: int| 0 <= j < data@.len() ==> data@[j] != STAR,
            expand_spec(out@) == Some(data@.take(i as int)),
            out@.len() <= i,
        decreases data@.len() - i,
    {
        let c = data[i];
        // measure the run of c, capped so the count byte stays printable
        let mut j: usize = i;
        while j < data.len() && j - i < 98 && data[j] == c
            invariant
                i <= j <= data@.len(),
                j - i <= 98,
                forall|q: int| i <= q < j ==> data@[q] == c,
            decreases data@.len() - j,
        {
            j = j + 1;
        }
        let mut take_n: usize = j - i;
        // avoid count bytes that collide with packet punctuation
        if 28 + take_n == 36 {
            take_n = take_n - 2;
        } else if 28 + take_n == 35 || 28 + take_n == 43 || 28 + take_n == 45 {
            take_n = take_n - 1;
        }
        let ghost before = out@;
        if take_n >= 4 {
            let n: u8 = (28 + take_n) as u8;
            out.push(c);
            out.push(STAR);
            out.push(n);
            proof {
                let chunk = seq![c, STAR, n];
                assert(c != STAR);
                assert(out@ =~= before + chunk);
                assert(chunk[0] == c && chunk[1] == STAR && chunk[2] == n && chunk.len() == 3);
                assert(chunk.skip(3) =~= Seq::<u8>::empty());
                assert(expand_spec(Seq::<u8>::empty()) == Some(Seq::<u8>::empty()));
                assert(expand_spec(chunk) is Some);
                assert(expand_spec(chunk).unwrap() =~= Seq::new(take_n as nat, |q: int| c));
                lemma_expand_concat(before, chunk);
                assert(data@.take(i as int) + Seq::new(take_n as nat, |q: int| c) =~= data@.take(
                    i + take_n,
                ));
            }
            i = i + take_n;
        } else {
            // a short run: emit the bytes themselves
            let stop = i + if take_n == 0 {
                1
            } else {
                take_n
            };
            while i < stop
                invariant
                    i <= stop <= data@.len(),
                    forall|j2: int| 0 <= j2 < data@.len() ==> data@[j2] != STAR,
                    expand_spec(out@) == Some(data@.take(i as int)),
                    out@.len() <= i,
                decreases stop - i,
            {
                let ghost prev = out@;
                let b = data[i];
                out.push(b);
                proof {
                    let chunk = seq![b];
                    assert(b != STAR);
                    assert(out@ =~= prev + chunk);
                    assert(chunk[0] == b && chunk.len() == 1);
                    assert(chunk.skip(1) =~= Seq::<u8>::empty());
                    assert(expand_spec(Seq::<u8>::empty()) == Some(Seq::<u8>::empty()));
                    assert(expand_spec(chunk) is Some);
                    assert(expand_spec(chunk).unwrap() =~= seq![b]);
                    lemma_expand_concat(prev, chunk);
                    assert(data@.take(i as int) + seq![b] =~= data@.take(i + 1));
                }
                i = i + 1;
            }
        }
    }
    proof {
        assert(data@.take(data@.len() as int) =~= data@);
    }
    out
}

/// Law: unframing a framed packet yields the payload back, for every
/// payload, and the checksum it carries is the modulo-256 byte sum.
pub proof fn lemma_packet_round_trip(p: Seq<u8>)
    ensures
        unframe_spec(frame_spec(p)) == Some(p),
{
    let b = frame_spec(p);
    assert(b.len() == p.len() + 4);
    assert(b[0] == PACKET_START);
    assert(b[b.len() - 3] == PACKET_END);
    assert(b.subrange(1, b.len() - 3) =~= p);
    let ck = sum_mod(p);
    assert(ck / 16 < 16);
    assert(spec_hex_value(spec_hex_digit((ck / 16) as u8)) == Some((ck / 16) as u8));
    assert(spec_hex_value(spec_hex_digit((ck % 16) as u8)) == Some((ck % 16) as u8));
    assert((ck / 16) * 16 + (ck % 16) == ck);
}

} // verus!
