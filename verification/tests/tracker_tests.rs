use modes_beam::decode::{DfHeader1, Message, MessageCommon, MessageSpecific};
use modes_beam::entity::{evict_stale, init_entity_if_not, process_messages, EntityTable};
use modes_beam::pipemgmt::{PipeManagement, ThreadTxMessage};

fn hdr(addr: u32) -> DfHeader1 {
    DfHeader1 { capability: 5, addr: addr, metype: 19, mesub: 3, fs: 5, identity: 0 }
}

fn velocity_msg(addr: u32, theta_micro: i32, snr_milli: u32, pipe_ndx: usize) -> Message {
    Message {
        common: MessageCommon {
            msg: vec![0u8; 7],
            samples: Vec::new(),
            ndx: 0,
            snr_milli: snr_milli,
            thetas_micro: vec![theta_micro],
            amplitudes_milli: vec![1000, 1000],
            crc_ok: true,
            pipe_ndx: pipe_ndx,
        },
        specific: MessageSpecific::AirborneVelocityMessageShort { hdr: hdr(addr), heading_units: 0 },
    }
}

fn position_msg(addr: u32, f_flag: bool, raw_lat: u32, raw_lon: u32) -> Message {
    Message {
        common: MessageCommon {
            msg: vec![0u8; 14],
            samples: Vec::new(),
            ndx: 0,
            snr_milli: 2000,
            thetas_micro: vec![0],
            amplitudes_milli: vec![1000, 1000],
            crc_ok: true,
            pipe_ndx: 0,
        },
        specific: MessageSpecific::AirbornePositionMessage {
            hdr: hdr(addr),
            f_flag: f_flag,
            t_flag: false,
            altitude: 32000,
            raw_lat: raw_lat,
            raw_lon: raw_lon,
        },
    }
}

#[test]
fn test_tracker_converges_on_steady_observation() {
    // Feeding the same observation twenty times: the rolling average
    // settles on the observed angles immediately, the address gets a
    // pipe, and every later message counts as in-beam.
    let addr = 0xABCDEF;
    let mut entities = EntityTable::new(1, 2);
    let mut pm = PipeManagement::new(2, 2);
    let mut total_cmds = 0;
    for k in 0..20u64 {
        let msgs = vec![(k * 1000, velocity_msg(addr, 1_500_000, 2000, 0))];
        let cmds = process_messages(msgs, &mut entities, 0, &mut pm, 40, 3);
        total_cmds += cmds.len();
        for (worker, c) in cmds {
            assert!(worker < 2);
            match c {
                ThreadTxMessage::SetWeights(_, thetas, amps) => {
                    assert_eq!(thetas, vec![1_500_000]);
                    assert_eq!(amps, Some(vec![1000, 1000]));
                },
                _ => panic!("unexpected command"),
            }
        }
    }
    assert_eq!(total_cmds, 20);
    assert_eq!(pm.get_addr_pipe_ndx(addr), Some(0));
    let e = entities.get_by_addr(addr).expect("entity exists");
    assert_eq!(e.message_count, 20);
    // The first message arrived before any binding; the other 19 hit
    // the bound pipe.
    assert_eq!(e.inbeam, 19);
    // The window is trimmed to the configured depth.
    assert_eq!(e.thetas.len(), 3);
    assert_eq!(e.thetas[0], vec![1_500_000]);
    assert_eq!(e.last_update, 0);
}

#[test]
fn test_position_pairing_decodes_location() {
    // An even and an odd frame within ten seconds produce a position.
    let addr = 0x4840D6;
    let mut entities = EntityTable::new(1, 2);
    let mut pm = PipeManagement::new(1, 1);
    let t0: u64 = 1_000_000_000;
    let m1 = vec![(0u64, position_msg(addr, true, 74158, 50194))];
    process_messages(m1, &mut entities, t0, &mut pm, 40, 3);
    {
        let e = entities.get_by_addr(addr).unwrap();
        assert!(e.lat_e6.is_none());
        assert_eq!(e.alt, Some(32000));
        assert_eq!(e.last_update, t0);
    }
    let m2 = vec![(2_000_000u64, position_msg(addr, false, 93000, 51372))];
    process_messages(m2, &mut entities, t0, &mut pm, 40, 3);
    let e = entities.get_by_addr(addr).unwrap();
    let lat = e.lat_e6.expect("latitude decoded");
    let lon = e.lon_e6.expect("longitude decoded");
    assert!((lat - 52_257_202).abs() < 500);
    assert!((lon - 3_919_373).abs() < 500);
    assert_eq!(e.last_update, t0 + 2_000_000);
}

#[test]
fn test_position_pairing_rejects_wide_time_gap() {
    // Frames more than ten seconds apart never pair.
    let addr = 0x123456;
    let mut entities = EntityTable::new(1, 2);
    let mut pm = PipeManagement::new(1, 1);
    let m1 = vec![(0u64, position_msg(addr, false, 93000, 51372))];
    process_messages(m1, &mut entities, 0, &mut pm, 40, 3);
    let m2 = vec![(30_000_000u64, position_msg(addr, true, 74158, 50194))];
    process_messages(m2, &mut entities, 0, &mut pm, 40, 3);
    let e = entities.get_by_addr(addr).unwrap();
    assert!(e.lat_e6.is_none());
}

#[test]
fn test_eviction_removes_stale_entity_and_frees_slot() {
    // An entity more than sixty seconds of samples behind is dropped
    // and its pipe slot is released; a fresh one survives.
    let stale_addr = 0x111111;
    let fresh_addr = 0x222222;
    let mut entities = EntityTable::new(1, 2);
    let mut pm = PipeManagement::new(1, 2);
    process_messages(
        vec![(0u64, velocity_msg(stale_addr, 0, 1000, 0))],
        &mut entities,
        0,
        &mut pm,
        40,
        3,
    );
    process_messages(
        vec![(130_000_000u64, velocity_msg(fresh_addr, 0, 1000, 0))],
        &mut entities,
        0,
        &mut pm,
        40,
        3,
    );
    assert_eq!(pm.get_addr_pipe_ndx(stale_addr), Some(0));
    assert_eq!(pm.get_addr_pipe_ndx(fresh_addr), Some(1));
    assert_eq!(entities.len(), 2);

    // Velocity messages never advance last_update, so both entities
    // still read zero; push the fresh one forward with a position.
    process_messages(
        vec![(130_000_000u64, position_msg(fresh_addr, false, 1, 1))],
        &mut entities,
        0,
        &mut pm,
        40,
        3,
    );

    let cmds = evict_stale(&mut entities, &mut pm, 130_000_000);
    assert_eq!(entities.len(), 1);
    assert!(entities.get_by_addr(stale_addr).is_none());
    assert!(entities.get_by_addr(fresh_addr).is_some());
    assert_eq!(pm.get_addr_pipe_ndx(stale_addr), None);
    assert_eq!(pm.get_addr_pipe_ndx(fresh_addr), Some(1));
    assert_eq!(cmds.len(), 1);
    match &cmds[0] {
        (worker, ThreadTxMessage::UnsetWeights(local)) => {
            assert_eq!(*worker, 0);
            assert_eq!(*local, 0);
        },
        _ => panic!("expected a release command"),
    }
    // Slot 0 is free again: the next new address takes it.
    let mut e2 = EntityTable::new(1, 2);
    process_messages(
        vec![(0u64, velocity_msg(0x333333, 0, 1000, 0))],
        &mut e2,
        0,
        &mut pm,
        40,
        3,
    );
    assert_eq!(pm.get_addr_pipe_ndx(0x333333), Some(0));
}

#[test]
fn test_pipe_bindings_stay_mutual() {
    // The address map and the slot map agree in both directions while
    // binding and releasing.
    let mut pm = PipeManagement::new(2, 3);
    let (ok_a, _) = pm.set_addr_to_theta(0xA, vec![1], None);
    let (ok_b, _) = pm.set_addr_to_theta(0xB, vec![2], None);
    assert!(ok_a && ok_b);
    assert_eq!(pm.get_addr_pipe_ndx(0xA), Some(0));
    assert_eq!(pm.get_addr_pipe_ndx(0xB), Some(1));
    pm.unset_addr(0xA);
    assert_eq!(pm.get_addr_pipe_ndx(0xA), None);
    assert_eq!(pm.get_addr_pipe_ndx(0xB), Some(1));
    // Lowest free slot wins for the next binding.
    let (ok_c, cmd) = pm.set_addr_to_theta(0xC, vec![3], None);
    assert!(ok_c);
    assert_eq!(pm.get_addr_pipe_ndx(0xC), Some(0));
    match cmd {
        Some((worker, ThreadTxMessage::SetWeights(local, thetas, None))) => {
            assert_eq!(worker, 0);
            assert_eq!(local, 0);
            assert_eq!(thetas, vec![3]);
        },
        _ => panic!("expected a set command"),
    }
    // Releasing an unbound address is idempotent.
    assert!(pm.unset_addr(0xDEAD).is_none());
}

#[test]
fn test_pool_exhaustion_refuses_binding() {
    let mut pm = PipeManagement::new(1, 1);
    let (ok1, _) = pm.set_addr_to_theta(0x1, vec![0], None);
    let (ok2, cmd2) = pm.set_addr_to_theta(0x2, vec![0], None);
    assert!(ok1);
    assert!(!ok2);
    assert!(cmd2.is_none());
    // Refreshing the bound address still works.
    let (ok3, _) = pm.set_addr_to_theta(0x1, vec![7], None);
    assert!(ok3);
}

#[test]
fn test_init_entity_if_not_is_idempotent() {
    let mut entities = EntityTable::new(1, 2);
    let i1 = init_entity_if_not(0x42, &mut entities);
    let i2 = init_entity_if_not(0x42, &mut entities);
    assert_eq!(i1, i2);
    assert_eq!(entities.len(), 1);
    let e = entities.get_by_addr(0x42).unwrap();
    assert_eq!(e.message_count, 0);
    assert_eq!(e.addr, 0x42);
}
