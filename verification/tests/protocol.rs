use wishbone_tool::registers::RegisterMap;
use wishbone_tool::registers::parse_csr_line;
use wishbone_tool::rsp::checksum;
use wishbone_tool::rsp::compress_runs;
use wishbone_tool::rsp::decode_packet;
use wishbone_tool::rsp::encode_packet;
use wishbone_tool::rsp::expand_runs;
use wishbone_tool::rsp::hex_value;
use wishbone_tool::rsp::parse_hex_u32;
use wishbone_tool::wishbone::WishboneRequest;
use wishbone_tool::wishbone::WishboneResponse;
use wishbone_tool::wishbone::decode_request;
use wishbone_tool::wishbone::decode_response;
use wishbone_tool::wishbone::encode_request;
use wishbone_tool::wishbone::encode_response;

fn lcg(state: &mut u64) -> u8 {
    *state = state.wrapping_mul(6364136223846793005).wrapping_add(1442695040888963407);
    (*state >> 33) as u8
}

#[test]
fn checksum_matches_independent_sum() {
    let payload = b"OK".to_vec();
    assert_eq!(checksum(&payload), ((0x4Fu32 + 0x4B) % 256) as u8);
    let payload = b"m1000,4".to_vec();
    let mut sum: u32 = 0;
    for b in payload.iter() {
        sum = (sum + *b as u32) % 256;
    }
    assert_eq!(checksum(&payload) as u32, sum);
}

#[test]
fn packet_frame_exact_bytes() {
    let framed = encode_packet(&b"OK".to_vec());
    assert_eq!(framed, b"$OK#9a".to_vec());
    let framed = encode_packet(&Vec::new());
    assert_eq!(framed, b"$#00".to_vec());
}

#[test]
fn packet_round_trip_simple() {
    let payload = b"qSupported:multiprocess+".to_vec();
    let decoded = decode_packet(&encode_packet(&payload));
    assert_eq!(decoded, Some(payload));
}

#[test]
fn packet_round_trip_hash_and_dollar_in_payload() {
    let payload = b"ab#cd$ef".to_vec();
    let decoded = decode_packet(&encode_packet(&payload));
    assert_eq!(decoded, Some(payload));
}

#[test]
fn packet_round_trip_randomized() {
    let mut state: u64 = 7;
    for round in 0..200 {
        let len = (round * 3) % 40;
        let mut payload: Vec<u8> = Vec::new();
        for _ in 0..len {
            payload.push(lcg(&mut state));
        }
        let decoded = decode_packet(&encode_packet(&payload));
        assert_eq!(decoded, Some(payload));
    }
}

#[test]
fn packet_bad_checksum_rejected() {
    let mut framed = encode_packet(&b"OK".to_vec());
    let n = framed.len();
    framed[n - 1] = if framed[n - 1] == b'0' { b'1' } else { b'0' };
    assert_eq!(decode_packet(&framed), None);
}

#[test]
fn packet_bad_framing_rejected() {
    assert_eq!(decode_packet(&b"OK#9a".to_vec()), None);
    assert_eq!(decode_packet(&b"$OK9a".to_vec()), None);
    assert_eq!(decode_packet(&b"$#0".to_vec()), None);
}

#[test]
fn run_length_expand_exact() {
    // '!' is 33: 33 - 29 = 4 further repeats, 5 bytes in all
    let expanded = expand_runs(&b"x*!y".to_vec());
    assert_eq!(expanded, Some(b"xxxxxy".to_vec()));
    // a leading '*' has nothing to repeat
    assert_eq!(expand_runs(&b"*!".to_vec()), None);
    // a count below the printable range is invalid
    assert_eq!(expand_runs(&vec![b'x', b'*', 10]), None);
}

#[test]
fn run_length_compress_round_trip() {
    let cases: Vec<Vec<u8>> = vec![
        b"".to_vec(),
        b"abc".to_vec(),
        b"aaaaaaa".to_vec(),
        b"0000000000000000".to_vec(),
        b"xxxxxxxyyyyyyyz".to_vec(),
        b"abba".to_vec(),
    ];
    for payload in cases {
        let compressed = compress_runs(&payload);
        assert!(compressed.len() <= payload.len());
        assert_eq!(expand_runs(&compressed), Some(payload));
    }
}

#[test]
fn run_length_compress_shortens_long_runs() {
    let payload = vec![b'0'; 16];
    let compressed = compress_runs(&payload);
    assert!(compressed.len() < payload.len());
}

#[test]
fn hex_digits_and_numbers() {
    assert_eq!(hex_value(b'0'), Some(0));
    assert_eq!(hex_value(b'f'), Some(15));
    assert_eq!(hex_value(b'A'), Some(10));
    assert_eq!(hex_value(b'g'), None);
    let s = b"1000".to_vec();
    assert_eq!(parse_hex_u32(&s, 0, 4), Some(0x1000));
    let s = b"ffffffff".to_vec();
    assert_eq!(parse_hex_u32(&s, 0, 8), Some(0xFFFF_FFFF));
    let s = b"123456789".to_vec();
    assert_eq!(parse_hex_u32(&s, 0, 9), None); // nine digits
    let s = b"12x4".to_vec();
    assert_eq!(parse_hex_u32(&s, 0, 4), None);
}

#[test]
fn csr_line_parses_name_address_width() {
    let line = b"ctrl_reset,0xe0001000,4,rw".to_vec();
    let entry = parse_csr_line(&line).expect("line should parse");
    assert_eq!(entry.name, b"ctrl_reset".to_vec());
    assert_eq!(entry.address, 0xE000_1000);
    assert_eq!(entry.width, 4);
}

#[test]
fn csr_line_defaults_and_rejects() {
    let entry = parse_csr_line(&b"uart_txfull,0x40".to_vec()).expect("line should parse");
    assert_eq!(entry.address, 0x40);
    assert_eq!(entry.width, 4);
    let entry = parse_csr_line(&b"timer,4096,8".to_vec()).expect("decimal address");
    assert_eq!(entry.address, 4096);
    assert_eq!(entry.width, 8);
    assert!(parse_csr_line(&b"no_fields_here".to_vec()).is_none());
    assert!(parse_csr_line(&b",0x40".to_vec()).is_none());
    assert!(parse_csr_line(&b"name,notanumber".to_vec()).is_none());
}

#[test]
fn register_map_applies_offset_once() {
    let mut map = RegisterMap::new(0x2000);
    assert!(map.load_line(&b"ctrl,0x1000".to_vec()));
    assert_eq!(map.lookup(&b"ctrl".to_vec()), Some(0x3000));
    assert_eq!(map.lookup(&b"missing".to_vec()), None);
}

#[test]
fn register_map_width_and_order() {
    let mut map = RegisterMap::new(0);
    assert!(map.load_line(&b"a,0x10,2".to_vec()));
    assert!(map.load_line(&b"a,0x20,8".to_vec()));
    // the first entry wins
    assert_eq!(map.lookup(&b"a".to_vec()), Some(0x10));
    assert_eq!(map.lookup_width(&b"a".to_vec()), Some(2));
    assert!(!map.load_line(&b"garbage".to_vec()));
}

#[test]
fn register_map_loads_whole_descriptor() {
    let mut map = RegisterMap::new(0x100);
    let text = b"ctrl,0x0\r\nuart_tx,0x10,1\n\ntimer,0x20\n".to_vec();
    assert_eq!(map.load_descriptor(&text), Ok(3));
    assert_eq!(map.lookup(&b"uart_tx".to_vec()), Some(0x110));
    assert_eq!(map.lookup_width(&b"uart_tx".to_vec()), Some(1));
    let mut map = RegisterMap::new(0);
    assert_eq!(
        map.load_descriptor(&b"good,0x0\nbad line\n".to_vec()),
        Err(wishbone_tool::errors::ConfigError::InvalidConfig)
    );
}

#[test]
fn wishbone_request_round_trip() {
    let read = WishboneRequest::Read { address: 0xDEAD_BEEF };
    assert_eq!(decode_request(&encode_request(&read)), Some(read));
    let write = WishboneRequest::Write { address: 0x1000_0000, value: 0x1234_5678 };
    assert_eq!(decode_request(&encode_request(&write)), Some(write));
}

#[test]
fn wishbone_request_exact_bytes() {
    let read = WishboneRequest::Read { address: 0x12345678 };
    assert_eq!(encode_request(&read), vec![0, 0x12, 0x34, 0x56, 0x78]);
    let write = WishboneRequest::Write { address: 0x1000, value: 0xA0B0C0D0 };
    assert_eq!(
        encode_request(&write),
        vec![1, 0x00, 0x00, 0x10, 0x00, 0xA0, 0xB0, 0xC0, 0xD0]
    );
}

#[test]
fn wishbone_response_round_trip() {
    for resp in [
        WishboneResponse::ReadOk { value: 0xCAFE_F00D },
        WishboneResponse::WriteOk,
        WishboneResponse::Failed,
    ] {
        assert_eq!(decode_response(&encode_response(&resp)), Some(resp));
    }
    assert_eq!(decode_response(&vec![7]), None);
    assert_eq!(decode_response(&vec![]), None);
}
