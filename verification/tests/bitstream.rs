use splattar::bitstream::{to_rbsp, BitReader, H264Error};

#[test]
fn exp_golomb() {
    // 1 → 0; 010 → 1; 011 → 2; 00100 → 3
    let data = [0b1_010_011_0, 0b0100_0000];
    let mut r = BitReader::new(&data);
    assert_eq!(r.ue().unwrap(), 0);
    assert_eq!(r.ue().unwrap(), 1);
    assert_eq!(r.ue().unwrap(), 2);
    assert_eq!(r.ue().unwrap(), 3);
}

#[test]
fn rbsp_strips_emulation() {
    assert_eq!(to_rbsp(&[0, 0, 3, 1, 0, 0, 3, 3]), vec![0, 0, 1, 0, 0, 3]);
    assert_eq!(to_rbsp(&[1, 2, 3]), vec![1, 2, 3]);
}

#[test]
fn fixed_width_reads_cross_bytes() {
    let data = [0xab, 0xcd, 0xef, 0x01, 0x23];
    let mut r = BitReader::new(&data);
    assert_eq!(r.u(4).unwrap(), 0xa);
    assert_eq!(r.u(12).unwrap(), 0xbcd);
    assert_eq!(r.bit_pos(), 16);
    assert_eq!(r.u(24).unwrap(), 0xef0123);
    assert!(matches!(r.flag(), Err(H264Error::Eof)));
}

#[test]
fn signed_codes_alternate() {
    // ue 1, 2, 3, 4 → se 1, -1, 2, -2
    let data = [0b010_011_00, 0b100_00101, 0b1000_0000];
    let mut r = BitReader::new(&data);
    assert_eq!(r.se().unwrap(), 1);
    assert_eq!(r.se().unwrap(), -1);
    assert_eq!(r.se().unwrap(), 2);
    assert_eq!(r.se().unwrap(), -2);
}

#[test]
fn trailing_bits_are_no_data() {
    let data = [0b1010_0000, 0b1000_0000];
    let mut r = BitReader::new(&data);
    assert!(r.has_more_rbsp_data());
    r.u(8).unwrap();
    assert!(!r.has_more_rbsp_data());
}

#[test]
fn errors_have_their_messages() {
    assert_eq!(H264Error::Eof.message(), "bitstream ended early");
    assert_eq!(H264Error::Unsupported("x".to_string()).message(), "unsupported: x");
    assert_eq!(H264Error::Malformed("y".to_string()).message(), "malformed: y");
}

#[test]
fn escaping_is_undone_for_short_payloads() {
    // A three is put in wherever two zeros and a byte up to three follow.
    let payloads: [&[u8]; 4] = [&[0, 0, 0], &[0, 0, 1, 0, 0, 2], &[5, 0, 0, 3, 0], &[0, 0, 0, 0, 0, 1]];
    for p in payloads {
        let mut escaped: Vec<u8> = Vec::new();
        let mut zeros = 0;
        for &b in p {
            if zeros >= 2 && b <= 3 {
                escaped.push(3);
                zeros = 0;
            }
            escaped.push(b);
            zeros = if b == 0 { zeros + 1 } else { 0 };
        }
        assert_eq!(to_rbsp(&escaped), p.to_vec());
    }
}
