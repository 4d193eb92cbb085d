use modes_beam::crc::{fix_bit_errors, modes_checksum, modes_compute_crc, modes_init_error_info};

/// The canonical DF17 identity frame used across the decoder tests.
fn canonical_frame() -> Vec<u8> {
    vec![
        0x8D, 0x48, 0x40, 0xD6, 0x20, 0x2C, 0xC3, 0x71, 0xC3, 0x2C, 0xE0, 0x57, 0x60, 0x98,
    ]
}

#[test]
fn test_canonical_frame_checksum_zero() {
    let msg = canonical_frame();
    assert_eq!(modes_checksum(&msg), 0);
}

#[test]
fn test_encode_then_checksum_zero_long() {
    // Self-consistency: writing the computed CRC into the last three
    // bytes yields a zero checksum, for a long frame.
    let mut msg: Vec<u8> = vec![0x8D, 0x01, 0x02, 0x03, 0x55, 0xAA, 0x12, 0x34, 0x56, 0x78, 0x9A, 0, 0, 0];
    let crc = modes_compute_crc(&msg);
    msg[11] = (crc >> 16) as u8;
    msg[12] = (crc >> 8) as u8;
    msg[13] = crc as u8;
    assert_eq!(modes_checksum(&msg), 0);
}

#[test]
fn test_encode_then_checksum_zero_short() {
    let mut msg: Vec<u8> = vec![0x5D, 0x48, 0x40, 0xD6, 0, 0, 0];
    let crc = modes_compute_crc(&msg);
    msg[4] = (crc >> 16) as u8;
    msg[5] = (crc >> 8) as u8;
    msg[6] = crc as u8;
    assert_eq!(modes_checksum(&msg), 0);
}

#[test]
fn test_single_bit_flips_repaired() {
    // Error-table round trip: every single-bit flip at position
    // i in [5, 112) of an all-zero long frame is found and repaired.
    let table = modes_init_error_info();
    for i in 5..112usize {
        let mut msg = vec![0u8; 14];
        msg[i / 8] ^= 1 << (7 - i % 8);
        let n = fix_bit_errors(&mut msg, &table);
        assert_eq!(n, 1, "bit {} not repaired", i);
        assert!(msg.iter().all(|&b| b == 0), "bit {} left damage", i);
        assert_eq!(modes_checksum(&msg), 0);
    }
}

#[test]
fn test_double_bit_flips_repaired() {
    let table = modes_init_error_info();
    for i in 5..112usize {
        for j in (i + 1)..112usize {
            let mut msg = vec![0u8; 14];
            msg[i / 8] ^= 1 << (7 - i % 8);
            msg[j / 8] ^= 1 << (7 - j % 8);
            let n = fix_bit_errors(&mut msg, &table);
            assert_eq!(n, 2, "pair ({}, {}) not repaired", i, j);
            assert!(msg.iter().all(|&b| b == 0), "pair ({}, {}) left damage", i, j);
        }
    }
}

#[test]
fn test_flipped_bit_40_repaired() {
    // One-bit flip on the canonical frame: nonzero checksum, a
    // single-bit repair, and the original bytes back.
    let good = canonical_frame();
    let mut msg = good.clone();
    msg[5] ^= 0x80;
    assert_ne!(modes_checksum(&msg), 0);
    let table = modes_init_error_info();
    let n = fix_bit_errors(&mut msg, &table);
    assert_eq!(n, 1);
    assert_eq!(modes_checksum(&msg), 0);
    assert_eq!(msg, good);
}

#[test]
fn test_compute_crc_ignores_last_three_bytes() {
    let mut a: Vec<u8> = vec![0x8D, 1, 2, 3, 4, 5, 6, 7, 8, 9, 10, 0, 0, 0];
    let c0 = modes_compute_crc(&a);
    a[11] = 0xFF;
    a[12] = 0x55;
    a[13] = 0xAA;
    assert_eq!(modes_compute_crc(&a), c0);
}
