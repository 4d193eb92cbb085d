use modes_beam::crc::{modes_checksum, modes_compute_crc, modes_init_error_info};
use modes_beam::decode::{
    brute_force_ap, process_result, was_addr_recently_seen, MessageSpecific, ProcessStreamResult,
    SeenMap,
};

#[test]
fn test_getbits() {
}

fn candidate(msg: Vec<u8>) -> ProcessStreamResult {
    ProcessStreamResult {
        snr_milli: 1500,
        msg: msg,
        samples: vec![0i16; 8],
        ndx: 42,
        thetas_micro: vec![100000],
        amplitudes_milli: vec![1000, 1000],
        pipe_ndx: 1,
    }
}

fn canonical_frame() -> Vec<u8> {
    vec![
        0x8D, 0x48, 0x40, 0xD6, 0x20, 0x2C, 0xC3, 0x71, 0xC3, 0x2C, 0xE0, 0x57, 0x60, 0x98,
    ]
}

/// Pad a short frame out to the full demodulated window.
fn pad14(mut msg: Vec<u8>) -> Vec<u8> {
    while msg.len() < 14 {
        msg.push(0xEE);
    }
    msg
}

#[test]
fn test_decode_canonical_identity_frame() {
    let table = modes_init_error_info();
    let mut seen = SeenMap::new();
    let r = process_result(candidate(canonical_frame()), &table, &mut seen, 100);
    let m = r.ok().expect("frame should decode");
    assert!(m.common.crc_ok);
    assert_eq!(m.common.ndx, 42);
    match m.specific {
        MessageSpecific::AircraftIdenAndCat { hdr, aircraft_type, flight } => {
            assert_eq!(hdr.addr, 0x4840D6);
            assert_eq!(aircraft_type, 3);
            let s: String = flight.into_iter().collect();
            assert_eq!(s, "KLM1023 ");
        },
        _ => panic!("wrong variant"),
    }
    // The CRC-valid DF17 marks its address as seen.
    assert!(was_addr_recently_seen(0x4840D6, &seen, 100));
}

#[test]
fn test_decode_repairs_flipped_bit() {
    // The same record comes out of the frame with bit 40 flipped.
    let table = modes_init_error_info();
    let mut seen = SeenMap::new();
    let mut msg = canonical_frame();
    msg[5] ^= 0x80;
    let r = process_result(candidate(msg), &table, &mut seen, 100);
    let m = r.ok().expect("repaired frame should decode");
    assert!(m.common.crc_ok);
    assert_eq!(m.common.msg, canonical_frame());
    match m.specific {
        MessageSpecific::AircraftIdenAndCat { hdr, aircraft_type, flight } => {
            assert_eq!(hdr.addr, 0x4840D6);
            assert_eq!(aircraft_type, 3);
            let s: String = flight.into_iter().collect();
            assert_eq!(s, "KLM1023 ");
        },
        _ => panic!("wrong variant"),
    }
    // A repaired frame does not mark the seen map.
    assert!(!was_addr_recently_seen(0x4840D6, &seen, 100));
}

#[test]
fn test_short_df11_truncated_and_marked_seen() {
    // A DF11 candidate is cut to 7 bytes, checksums to zero, and its
    // address lands in the seen map.
    let mut short: Vec<u8> = vec![0x5D, 0x48, 0x40, 0xD6, 0, 0, 0];
    let crc = modes_compute_crc(&short);
    short[4] = (crc >> 16) as u8;
    short[5] = (crc >> 8) as u8;
    short[6] = crc as u8;
    assert_eq!(modes_checksum(&short), 0);

    let table = modes_init_error_info();
    let mut seen = SeenMap::new();
    let r = process_result(candidate(pad14(short.clone())), &table, &mut seen, 7);
    let m = r.ok().expect("DF11 should decode");
    assert_eq!(m.common.msg.len(), 7);
    assert_eq!(m.common.msg, short);
    assert!(matches!(m.specific, MessageSpecific::Other));
    assert!(was_addr_recently_seen(0x4840D6, &seen, 7));
    assert!(was_addr_recently_seen(0x4840D6, &seen, 66));
    assert!(!was_addr_recently_seen(0x4840D6, &seen, 67));
}

/// A DF0 frame whose address-parity field carries the given address.
fn df0_for_addr(addr: u32) -> Vec<u8> {
    let mut msg: Vec<u8> = vec![0x00, 0x11, 0x22, 0x33, 0, 0, 0];
    let crc = modes_compute_crc(&msg);
    let ap = crc ^ addr;
    msg[4] = (ap >> 16) as u8;
    msg[5] = (ap >> 8) as u8;
    msg[6] = ap as u8;
    msg
}

#[test]
fn test_ap_coded_df0_accepted_when_seen() {
    let table = modes_init_error_info();
    let mut seen = SeenMap::new();
    seen.mark(0x4840D6, 50);
    let msg = df0_for_addr(0x4840D6);
    assert!(brute_force_ap(&msg, &seen, 60));
    let r = process_result(candidate(pad14(msg)), &table, &mut seen, 60);
    let m = r.ok().expect("seen AP address should be accepted");
    assert!(m.common.crc_ok);
    assert!(matches!(m.specific, MessageSpecific::Other));
}

#[test]
fn test_ap_coded_df0_rejected_when_unseen() {
    let table = modes_init_error_info();
    let mut seen = SeenMap::new();
    let msg = df0_for_addr(0x4840D6);
    assert!(!brute_force_ap(&msg, &seen, 60));
    let r = process_result(candidate(pad14(msg)), &table, &mut seen, 60);
    assert!(r.is_err());
}

#[test]
fn test_squawk_of_canonical_frame() {
    let table = modes_init_error_info();
    let mut seen = SeenMap::new();
    let r = process_result(candidate(canonical_frame()), &table, &mut seen, 0);
    let m = r.ok().unwrap();
    match m.specific {
        MessageSpecific::AircraftIdenAndCat { hdr, .. } => {
            assert_eq!(hdr.identity, 4403);
            assert_eq!(hdr.capability, 0x8D & 7);
            assert_eq!(hdr.metype, 4);
            assert_eq!(hdr.mesub, 0);
        },
        _ => panic!("wrong variant"),
    }
}

/// Build a CRC-valid DF17 frame from payload bytes 4..=10.
fn df17_frame(me: [u8; 7]) -> Vec<u8> {
    let mut msg = vec![0x8D, 0x48, 0x40, 0xD6];
    msg.extend_from_slice(&me);
    msg.extend_from_slice(&[0, 0, 0]);
    let crc = modes_compute_crc(&msg);
    msg[11] = (crc >> 16) as u8;
    msg[12] = (crc >> 8) as u8;
    msg[13] = crc as u8;
    msg
}

#[test]
fn test_airborne_position_altitude_and_flags() {
    // ME type 11, Q-bit set, N = 16: altitude 16 * 25 - 1000 = -600.
    let msg = df17_frame([11 << 3, 0x03, 0x04, 0x81, 0x01, 0x02, 0x03]);
    let table = modes_init_error_info();
    let mut seen = SeenMap::new();
    let r = process_result(candidate(msg), &table, &mut seen, 0);
    let m = r.ok().unwrap();
    match m.specific {
        MessageSpecific::AirbornePositionMessage { f_flag, t_flag, altitude, raw_lat, raw_lon, .. } => {
            assert_eq!(altitude, -600);
            assert_eq!(f_flag, (0x04 >> 2) & 1 == 1);
            assert_eq!(t_flag, (0x04 >> 3) & 1 == 1);
            // raw_lat: ((0x04 & 3) << 15) | (0x81 << 7) | (0x01 >> 1)
            assert_eq!(raw_lat, (0x81 << 7) | 0);
            // raw_lon: ((0x01 & 1) << 16) | (0x02 << 8) | 0x03
            assert_eq!(raw_lon, (1 << 16) | (0x02 << 8) | 0x03);
        },
        _ => panic!("wrong variant"),
    }
}

#[test]
fn test_velocity_groundspeed_fields() {
    // ME type 19 subtype 1.
    let msg = df17_frame([(19 << 3) | 1, 0x05, 0x22, 0x83, 0x20, 0x04, 0x00]);
    let table = modes_init_error_info();
    let mut seen = SeenMap::new();
    let r = process_result(candidate(msg), &table, &mut seen, 0);
    let m = r.ok().unwrap();
    match m.specific {
        MessageSpecific::AirborneVelocityMessage {
            ew_dir,
            ew_velocity,
            ns_dir,
            ns_velocity,
            vert_rate_source,
            vert_rate_sign,
            vert_rate,
            ..
        } => {
            assert_eq!(ew_dir, 1);
            assert_eq!(ew_velocity, (1 << 8) | 0x22);
            assert_eq!(ns_dir, 1);
            assert_eq!(ns_velocity, (0x03 << 3) | 1);
            assert_eq!(vert_rate_source, 0);
            assert_eq!(vert_rate_sign, 0);
            assert_eq!(vert_rate, 1);
        },
        _ => panic!("wrong variant"),
    }
}

#[test]
fn test_velocity_airspeed_heading_units() {
    // ME type 19 subtype 3.
    let msg = df17_frame([(19 << 3) | 3, 0x01, 0x40, 0, 0, 0, 0]);
    let table = modes_init_error_info();
    let mut seen = SeenMap::new();
    let r = process_result(candidate(msg), &table, &mut seen, 0);
    let m = r.ok().unwrap();
    match m.specific {
        MessageSpecific::AirborneVelocityMessageShort { heading_units, .. } => {
            assert_eq!(heading_units, (1 << 5) | (0x40 >> 3));
        },
        _ => panic!("wrong variant"),
    }
}

#[test]
fn test_unrepairable_frame_rejected() {
    let table = modes_init_error_info();
    let mut seen = SeenMap::new();
    // Flip three bits: beyond the table's reach.
    let mut msg = canonical_frame();
    msg[5] ^= 0x80;
    msg[7] ^= 0x01;
    msg[9] ^= 0x10;
    let r = process_result(candidate(msg), &table, &mut seen, 0);
    assert!(r.is_err());
}
