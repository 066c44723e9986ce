//! Tests of the ICMP Echo Request codec, with the reference checksum of the
//! bare request header pinned by hand from the RFC 792 algorithm.

use russh::codec::{build_echo_request, checksum, fresh_echo_request, verify_checksum};

// The bare header — type 8, code 0, identifier 0, sequence 0, the checksum
// field zeroed, no payload — sums to 0x0800, so its checksum is the
// complement, 0xF7FF.
#[test]
fn reference_header_checksum_is_pinned() {
    let header: [u8; 8] = [8, 0, 0, 0, 0, 0, 0, 0];
    assert_eq!(checksum(&header), 0xF7FF);
}

#[test]
fn checksum_folds_carries() {
    // 0xFFFF + 0x0001 wraps: end-around carry gives 0x0001, complement 0xFFFE
    let data: [u8; 4] = [0xFF, 0xFF, 0x00, 0x01];
    assert_eq!(checksum(&data), 0xFFFE);
}

#[test]
fn checksum_pads_odd_trailing_byte() {
    // one byte 0x12 is the word 0x1200
    let data: [u8; 1] = [0x12];
    assert_eq!(checksum(&data), 0xFFFF - 0x1200);
}

#[test]
fn built_request_has_type_code_fields_and_checksum() {
    let p = build_echo_request(0x1234, 0xABCD);
    assert_eq!(p.len(), 16);
    assert_eq!(p[0], 8); // Echo Request
    assert_eq!(p[1], 0); // code 0
    assert_eq!(p[4], 0xAB); // identifier, big-endian
    assert_eq!(p[5], 0xCD);
    assert_eq!(p[6], 0x12); // sequence, big-endian
    assert_eq!(p[7], 0x34);
    for i in 8..16 {
        assert_eq!(p[i], 0); // zero payload
    }
    assert!(verify_checksum(&p));
}

#[test]
fn zero_request_checksum_matches_reference() {
    let p = build_echo_request(0, 0);
    // all-zero id, seq and payload: same ones'-complement sum as the bare
    // header, so the same pinned checksum
    assert_eq!(p[2], 0xF7);
    assert_eq!(p[3], 0xFF);
}

#[test]
fn corrupted_packet_fails_validation() {
    let mut p = build_echo_request(7, 9);
    p[10] = 1; // flip a payload byte
    assert!(!verify_checksum(&p));
}

#[test]
fn fresh_request_is_well_formed_whatever_was_drawn() {
    let p = fresh_echo_request();
    assert_eq!(p.len(), 16);
    assert_eq!(p[0], 8);
    assert_eq!(p[1], 0);
    assert!(verify_checksum(&p));
}

#[test]
fn empty_data_checksum_is_all_ones() {
    let data: [u8; 0] = [];
    assert_eq!(checksum(&data), 0xFFFF);
}
