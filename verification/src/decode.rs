//! Mode-S frame decoder.
//!
//! A demodulated candidate is truncated to its true length, checked and
//! (for DF11/17/18) repaired against the CRC, gated through the
//! address-parity rules, and its ME payload classified into a typed
//! record.  Angles, amplitudes and signal-to-noise ratios ride along as
//! fixed-point integers: micro-radians, milli-units and milli-units.

use vstd::prelude::*;
use std::collections::HashMap;
use crate::crc::{
    modes_checksum, fix_bit_errors, modes_compute_crc, spec_checksum, spec_compute_crc, spec_fix,
    table_wf, valid_msg_len,
};

verus! {

broadcast use vstd::std_specs::hash::group_hash_axioms;

/// The AIS six-bit character set used for flight identifiers; unused
/// code points are kept as `?` verbatim.
pub const AIS_CHARSET: [char; 64] = [
    '?', 'A', 'B', 'C', 'D', 'E', 'F', 'G', 'H', 'I', 'J', 'K', 'L', 'M', 'N', 'O',
    'P', 'Q', 'R', 'S', 'T', 'U', 'V', 'W', 'X', 'Y', 'Z', '?', '?', '?', '?', '?',
    ' ', '?', '?', '?', '?', '?', '?', '?', '?', '?', '?', '?', '?', '?', '?', '?',
    '0', '1', '2', '3', '4', '5', '6', '7', '8', '9', '?', '?', '?', '?', '?', '?',
];

/// Fields common to every decoded message.
pub struct MessageCommon {
    /// The bytes that comprise the message after demodulation and repair.
    pub msg: Vec<u8>,
    /// The raw I/Q sample window the message was demodulated from.
    pub samples: Vec<i16>,
    /// The sample index the message was found at.
    pub ndx: u64,
    /// Signal-to-noise score of the preamble, in milli-units.
    pub snr_milli: u32,
    /// The steering-vector angles used during beamforming, micro-radians.
    pub thetas_micro: Vec<i32>,
    /// The per-antenna amplitudes used during beamforming, milli-units.
    pub amplitudes_milli: Vec<u32>,
    /// Whether the message passed (or was repaired to pass) CRC gating.
    pub crc_ok: bool,
    /// The global pipe index whose weights produced this candidate.
    pub pipe_ndx: usize,
}

/// A message after demodulation and decoding.
pub struct Message {
    pub common: MessageCommon,
    /// The decoded, type-specific payload.
    pub specific: MessageSpecific,
}

/// Header fields shared by the DF17/18 payload variants.
pub struct DfHeader1 {
    pub capability: u8,
    /// The 24-bit transponder address.
    pub addr: u32,
    pub metype: u8,
    pub mesub: u8,
    pub fs: u8,
    /// The squawk code.
    pub identity: u32,
}

/// The decoded payload of a message.
pub enum MessageSpecific {
    AircraftIdenAndCat { hdr: DfHeader1, aircraft_type: u8, flight: Vec<char> },
    SurfacePositionMessage {
        hdr: DfHeader1,
        movement: u8,
        ground_track: u8,
        f_flag: bool,
        t_flag: bool,
        raw_lat: u32,
        raw_lon: u32,
    },
    AirbornePositionMessage {
        hdr: DfHeader1,
        f_flag: bool,
        t_flag: bool,
        /// Altitude in feet from the AC12 field.
        altitude: i32,
        raw_lat: u32,
        raw_lon: u32,
    },
    AirborneVelocityMessage {
        hdr: DfHeader1,
        ew_dir: u8,
        ew_velocity: u16,
        ns_dir: u8,
        ns_velocity: u16,
        vert_rate_source: u8,
        vert_rate_sign: u8,
        vert_rate: u16,
    },
    AirborneVelocityMessageShort {
        hdr: DfHeader1,
        /// Heading in units of 360/128 degrees.
        heading_units: u8,
    },
    Other,
}

/// A reason for not being able to decode a message.
pub enum MessageErrorReason {
    /// The message failed CRC gating and could not be repaired.
    BitErrors,
}

/// A demodulated candidate before decoding.
pub struct ProcessStreamResult {
    /// Signal-to-noise score of the preamble, in milli-units.
    pub snr_milli: u32,
    /// The demodulated bytes, always a full long-message window.
    pub msg: Vec<u8>,
    /// The raw I/Q sample window.
    pub samples: Vec<i16>,
    /// Sample index within the buffer where the preamble starts.
    pub ndx: usize,
    /// Steering-vector angles used, micro-radians.
    pub thetas_micro: Vec<i32>,
    /// Per-antenna amplitudes used, milli-units.
    pub amplitudes_milli: Vec<u32>,
    /// The global pipe index.
    pub pipe_ndx: usize,
}

/// The last-reception-time map of addresses whose frames recently
/// passed CRC, shared by the address-parity acceptance rules.
pub struct SeenMap {
    map: HashMap<u32, u64>,
}

impl View for SeenMap {
    type V = Map<u32, u64>;

    closed spec fn view(&self) -> Map<u32, u64> {
        self.map@
    }
}

impl SeenMap {
    /// An empty seen map.
    pub fn new() -> (s: SeenMap)
        ensures
            s@ == Map::<u32, u64>::empty(),
    {
        SeenMap { map: HashMap::new() }
    }

    /// Record that `addr` was received valid at time `now` (seconds).
    pub fn mark(&mut self, addr: u32, now: u64)
        ensures
            final(self)@ == old(self)@.insert(addr, now),
    {
        self.map.insert(addr, now);
    }
}

/// An address counts as recently seen when it was marked no more than
/// 59 seconds before `now` (and not in the future).
pub open spec fn spec_recently_seen(seen: Map<u32, u64>, addr: u32, now: u64) -> bool {
    seen.contains_key(addr) && seen[addr] <= now && now - seen[addr] < 60
}

/// Whether `addr` was marked within the last 60 seconds before `now`.
pub fn was_addr_recently_seen(addr: u32, seen: &SeenMap, now: u64) -> (r: bool)
    ensures
        r == spec_recently_seen(seen@, addr, now),
{
    match seen.map.get(&addr) {
        Some(t) => *t <= now && now - *t < 60,
        None => false,
    }
}

/// Downlink format: the top five bits of the first byte.
pub open spec fn spec_df(m: Seq<u8>) -> u8 {
    m[0] >> 3u8
}

/// The formats whose CRC covers the whole frame (repairable set).
pub open spec fn crc_df_set(df: u8) -> bool {
    df == 11 || df == 17 || df == 18
}

/// The address-parity coded formats.
pub open spec fn ap_df_set(df: u8) -> bool {
    df == 0 || df == 4 || df == 5 || df == 16 || df == 20 || df == 21 || df == 24
}

/// The address recovered from an AP-coded frame: the computed CRC
/// XORed back into the last three message bytes.
pub open spec fn spec_ap_addr(m: Seq<u8>) -> u32 {
    let crc = spec_compute_crc(m);
    let l = m.len() - 1;
    (((m[l] as u32) ^ (crc & 0xff)) | (((m[l - 1] as u32) ^ ((crc >> 8u32) & 0xff)) << 8u32) | ((
    (m[l - 2] as u32) ^ ((crc >> 16u32) & 0xff)) << 16u32)) as u32
}

/// AP acceptance: for an AP-coded format, the recovered address must
/// have been seen recently; all other formats are rejected here.
pub open spec fn spec_brute_force_ap(m: Seq<u8>, seen: Map<u32, u64>, now: u64) -> bool {
    if ap_df_set(spec_df(m)) {
        spec_recently_seen(seen, spec_ap_addr(m), now)
    } else {
        false
    }
}

/// Recover the AP-coded address and test it against the seen map.
pub fn brute_force_ap(msg: &Vec<u8>, seen: &SeenMap, now: u64) -> (r: bool)
    requires
        valid_msg_len(msg@.len() as int),
    ensures
        r == spec_brute_force_ap(msg@, seen@, now),
{
    let msgtype = msg[0] >> 3;

    if msgtype == 0 || msgtype == 4 || msgtype == 5 || msgtype == 16 || msgtype == 20 || msgtype
        == 21 || msgtype == 24 {
        let crc = modes_compute_crc(msg);
        let last_byte = msg.len() - 1;
        let aux0 = (msg[last_byte] as u32) ^ (crc & 0xff);
        let aux1 = (msg[last_byte - 1] as u32) ^ ((crc >> 8) & 0xff);
        let aux2 = (msg[last_byte - 2] as u32) ^ ((crc >> 16) & 0xff);
        let addr = aux0 | (aux1 << 8) | (aux2 << 16);
        assert(addr == spec_ap_addr(msg@));
        was_addr_recently_seen(addr, seen, now)
    } else {
        false
    }
}

/// Whether the frame is long: bit 4 of the downlink format.
pub open spec fn spec_is_long(m: Seq<u8>) -> bool {
    ((m[0] >> 3u8) & 0x10) == 0x10
}

/// A candidate cut to its true length: long frames keep all 14 bytes,
/// short ones their first 7.
pub open spec fn spec_truncated(m: Seq<u8>) -> Seq<u8> {
    if spec_is_long(m) {
        m
    } else {
        m.subrange(0, 7)
    }
}

/// Whether a CRC repair is attempted: nonzero syndrome on a repairable
/// format.
pub open spec fn spec_attempted(msg0: Seq<u8>) -> bool {
    let m1 = spec_truncated(msg0);
    spec_checksum(m1) != 0 && crc_df_set(spec_df(m1))
}

/// The message bytes after the repair step.
pub open spec fn spec_m2(msg0: Seq<u8>, t: Map<u32, u16>) -> Seq<u8> {
    let m1 = spec_truncated(msg0);
    if spec_attempted(msg0) {
        spec_fix(m1, t).0
    } else {
        m1
    }
}

/// How many bits the repair step corrected.
pub open spec fn spec_nfixed(msg0: Seq<u8>, t: Map<u32, u16>) -> u8 {
    if spec_attempted(msg0) {
        spec_fix(spec_truncated(msg0), t).1
    } else {
        0u8
    }
}

/// The 24-bit address carried in bytes 1 to 3.
pub open spec fn spec_addr(m: Seq<u8>) -> u32 {
    (((m[1] as u32) << 16u32) | ((m[2] as u32) << 8u32) | (m[3] as u32)) as u32
}

/// The seen map after processing: a repairable-format frame whose
/// syndrome was zero as received marks its address at time `now`.
pub open spec fn spec_seen_after(msg0: Seq<u8>, seen: Map<u32, u64>, now: u64) -> Map<u32, u64> {
    let m1 = spec_truncated(msg0);
    if crc_df_set(spec_df(m1)) && spec_checksum(m1) == 0 {
        seen.insert(spec_addr(m1), now)
    } else {
        seen
    }
}

/// Whether the frame is accepted: repairable formats need a zero
/// syndrome after repair (DF11 also passes on a small syndrome with a
/// recently seen address); AP-coded formats pass through AP acceptance;
/// a failed repair rejects outright.
pub open spec fn spec_accepted(msg0: Seq<u8>, t: Map<u32, u16>, seen: Map<u32, u64>, now: u64) -> bool {
    let m1 = spec_truncated(msg0);
    let df = spec_df(m1);
    if spec_attempted(msg0) && spec_nfixed(msg0, t) == 0 {
        false
    } else {
        let m2 = spec_m2(msg0, t);
        let s2 = spec_checksum(m2);
        if !crc_df_set(df) {
            spec_brute_force_ap(m2, seen, now)
        } else {
            s2 == 0 || (df == 11 && s2 < 80 && spec_recently_seen(
                spec_seen_after(msg0, seen, now),
                spec_addr(m2),
                now,
            ))
        }
    }
}

/// The squawk (identity) code, Gillham-packed across bytes 2 and 3,
/// as four decimal digits.
pub open spec fn spec_squawk(m: Seq<u8>) -> u32 {
    let a = ((m[3] & 0x80) >> 5u8) | (m[2] & 0x02) | ((m[2] & 0x08) >> 3u8);
    let b = ((m[3] & 0x02) << 1u8) | ((m[3] & 0x08) >> 2u8) | ((m[3] & 0x20) >> 5u8);
    let c = ((m[2] & 0x01) << 2u8) | ((m[2] & 0x04) >> 1u8) | ((m[2] & 0x10) >> 4u8);
    let d = ((m[3] & 0x01) << 2u8) | ((m[3] & 0x04) >> 1u8) | ((m[3] & 0x10) >> 4u8);
    ((a as u32) * 1000 + (b as u32) * 100 + (c as u32) * 10 + (d as u32)) as u32
}

/// The 12-bit AC altitude field value `N`, valid when the Q bit is set.
pub open spec fn spec_ac12_n(m: Seq<u8>) -> u32 {
    (((m[5] as u32) >> 1u32) << 4u32) | (((m[6] as u32) & 0xf0) >> 4u32)
}

/// Altitude in feet from the AC12 field: `25 * N - 1000` with the Q bit
/// set, zero otherwise.
pub open spec fn spec_ac12_alt(m: Seq<u8>) -> int {
    if m[5] & 1 == 1 {
        25 * (spec_ac12_n(m) as int) - 1000
    } else {
        0
    }
}

/// Altitude decode of the AC12 field.
pub fn decode_ac12_field(msg: &Vec<u8>) -> (alt: i32)
    requires
        msg@.len() >= 7,
    ensures
        alt as int == spec_ac12_alt(msg@),
{
    if msg[5] & 1 == 1 {
        let n: u32 = (((msg[5] as u32) >> 1) << 4) | ((msg[6] as u32 & 0xf0) >> 4);
        let b5 = msg[5];
        let b6 = msg[6];
        assert((((b5 as u32) >> 1u32) << 4u32) | (((b6 as u32) & 0xf0) >> 4u32) < 2048u32)
            by (bit_vector);
        (n as i32) * 25 - 1000
    } else {
        0
    }
}

/// The common header of a DF17/18 payload has the fields the frame
/// carries: capability, address, ME type and subtype, flight status and
/// squawk.
pub open spec fn spec_hdr_ok(m: Seq<u8>, hdr: DfHeader1) -> bool {
    &&& hdr.capability == m[0] & 7
    &&& hdr.addr == spec_addr(m)
    &&& hdr.metype == m[4] >> 3u8
    &&& hdr.mesub == m[4] & 7
    &&& hdr.fs == m[0] & 7
    &&& hdr.identity == spec_squawk(m)
}

/// Raw CPR latitude: 17 bits across bytes 6 to 8.
pub open spec fn spec_raw_lat(m: Seq<u8>) -> u32 {
    ((((m[6] as u32) & 3) << 15u32) | ((m[7] as u32) << 7u32) | ((m[8] as u32) >> 1u32)) as u32
}

/// Raw CPR longitude: 17 bits across bytes 8 to 10.
pub open spec fn spec_raw_lon(m: Seq<u8>) -> u32 {
    ((((m[8] as u32) & 1) << 16u32) | ((m[9] as u32) << 8u32) | (m[10] as u32)) as u32
}

/// The typed payload `sp` is the correct decoding of the accepted
/// message `m`: the variant is selected by the pre-repair downlink
/// format `df` and the ME type and subtype, and every carried field
/// equals its bit-field formula over the repaired bytes.
pub open spec fn spec_specific_ok(df: u8, m: Seq<u8>, sp: MessageSpecific) -> bool {
    let metype = m[4] >> 3u8;
    let mesub = m[4] & 7;
    if df != 17 && df != 18 {
        sp is Other
    } else if 1 <= metype <= 4 {
        match sp {
            MessageSpecific::AircraftIdenAndCat { hdr, aircraft_type, flight } => {
                &&& spec_hdr_ok(m, hdr)
                &&& aircraft_type == metype - 1
                &&& flight@.len() == 8
                &&& flight@[0] == AIS_CHARSET@[((m[5] as u32) >> 2u32) as int]
                &&& flight@[1] == AIS_CHARSET@[((((m[5] as u32) & 3) << 4u32) | ((m[6] as u32)
                    >> 4u32)) as int]
                &&& flight@[2] == AIS_CHARSET@[((((m[6] as u32) & 15) << 2u32) | ((m[7] as u32)
                    >> 6u32)) as int]
                &&& flight@[3] == AIS_CHARSET@[((m[7] as u32) & 63) as int]
                &&& flight@[4] == AIS_CHARSET@[((m[8] as u32) >> 2u32) as int]
                &&& flight@[5] == AIS_CHARSET@[((((m[8] as u32) & 3) << 4u32) | ((m[9] as u32)
                    >> 4u32)) as int]
                &&& flight@[6] == AIS_CHARSET@[((((m[9] as u32) & 15) << 2u32) | ((m[10] as u32)
                    >> 6u32)) as int]
                &&& flight@[7] == AIS_CHARSET@[((m[10] as u32) & 63) as int]
            },
            _ => false,
        }
    } else if 5 <= metype <= 8 {
        match sp {
            MessageSpecific::SurfacePositionMessage {
                hdr,
                movement,
                ground_track,
                f_flag,
                t_flag,
                raw_lat,
                raw_lon,
            } => {
                &&& spec_hdr_ok(m, hdr)
                &&& movement == ((m[4] & 0x07) << 4u8) | (m[5] >> 4u8)
                &&& ground_track == ((m[5] & 0x07) << 4u8) | (m[6] >> 4u8)
                &&& f_flag == ((m[6] >> 2u8) & 1 == 1)
                &&& t_flag == ((m[6] >> 3u8) & 1 == 1)
                &&& raw_lat == spec_raw_lat(m)
                &&& raw_lon == spec_raw_lon(m)
            },
            _ => false,
        }
    } else if 9 <= metype <= 18 {
        match sp {
            MessageSpecific::AirbornePositionMessage { hdr, f_flag, t_flag, altitude, raw_lat, raw_lon } => {
                &&& spec_hdr_ok(m, hdr)
                &&& f_flag == ((m[6] >> 2u8) & 1 == 1)
                &&& t_flag == ((m[6] >> 3u8) & 1 == 1)
                &&& altitude as int == spec_ac12_alt(m)
                &&& raw_lat == spec_raw_lat(m)
                &&& raw_lon == spec_raw_lon(m)
            },
            _ => false,
        }
    } else if metype == 19 && (mesub == 1 || mesub == 2) {
        match sp {
            MessageSpecific::AirborneVelocityMessage {
                hdr,
                ew_dir,
                ew_velocity,
                ns_dir,
                ns_velocity,
                vert_rate_source,
                vert_rate_sign,
                vert_rate,
            } => {
                &&& spec_hdr_ok(m, hdr)
                &&& ew_dir == (m[5] & 4) >> 2u8
                &&& ew_velocity == (((m[5] as u16) & 3) << 8u16) | (m[6] as u16)
                &&& ns_dir == (m[7] & 0x80) >> 7u8
                &&& ns_velocity == (((m[7] as u16) & 0x7f) << 3u16) | (((m[8] as u16) & 0xe0)
                    >> 5u16)
                &&& vert_rate_source == (m[8] & 0x10) >> 4u8
                &&& vert_rate_sign == (m[8] & 0x8) >> 3u8
                &&& vert_rate == (((m[8] as u16) & 7) << 6u16) | (((m[9] as u16) & 0xfc) >> 2u16)
            },
            _ => false,
        }
    } else if metype == 19 && (mesub == 3 || mesub == 4) {
        match sp {
            MessageSpecific::AirborneVelocityMessageShort { hdr, heading_units } => {
                &&& spec_hdr_ok(m, hdr)
                &&& heading_units == ((m[5] & 3) << 5u8) | (m[6] >> 3u8)
            },
            _ => false,
        }
    } else {
        sp is Other
    }
}

/// Decode one demodulated candidate: truncate to its true length, gate
/// and repair through the CRC, apply the seen-map address rules, and
/// classify the ME payload.  On rejection, `BitErrors`.
pub fn process_result(
    result: ProcessStreamResult,
    bit_error_table: &HashMap<u32, u16>,
    seen: &mut SeenMap,
    now: u64,
) -> (r: Result<Message, MessageErrorReason>)
    requires
        result.msg@.len() == 14,
        table_wf(bit_error_table@),
    ensures
        final(seen)@ == spec_seen_after(result.msg@, old(seen)@, now),
        r is Ok <==> spec_accepted(result.msg@, bit_error_table@, old(seen)@, now),
        r is Err ==> r == Err::<Message, MessageErrorReason>(MessageErrorReason::BitErrors),
        r matches Ok(m) ==> {
            &&& m.common.msg@ == spec_m2(result.msg@, bit_error_table@)
            &&& m.common.crc_ok
            &&& m.common.ndx == result.ndx as u64
            &&& m.common.snr_milli == result.snr_milli
            &&& m.common.samples@ == result.samples@
            &&& m.common.thetas_micro@ == result.thetas_micro@
            &&& m.common.amplitudes_milli@ == result.amplitudes_milli@
            &&& m.common.pipe_ndx == result.pipe_ndx
            &&& spec_specific_ok(
                spec_df(spec_truncated(result.msg@)),
                spec_m2(result.msg@, bit_error_table@),
                m.specific,
            )
        },
{
    let ghost msg0 = result.msg@;
    let mut msg = result.msg;

    let is_long: bool = ((msg[0] >> 3) & 0x10) == 0x10;
    if !is_long {
        msg.truncate(7);
    }
    assert(msg@ == spec_truncated(msg0));

    let msgtype = msg[0] >> 3;
    assert(msgtype == spec_df(msg@));
    let mut crc_syndrome = modes_checksum(&msg);
    let mut crc_ok = crc_syndrome == 0u32;
    let mut nfixed: u8 = 0;

    if !crc_ok && (msgtype == 11 || msgtype == 17 || msgtype == 18) {
        nfixed = fix_bit_errors(&mut msg, bit_error_table);

        if nfixed == 0 {
            assert(!spec_accepted(msg0, bit_error_table@, seen@, now));
            return Err(MessageErrorReason::BitErrors);
        }

        crc_syndrome = modes_checksum(&msg);
        crc_ok = crc_syndrome == 0;
    }
    assert(msg@ == spec_m2(msg0, bit_error_table@));
    assert(nfixed == spec_nfixed(msg0, bit_error_table@));
    assert(crc_syndrome == spec_checksum(msg@));

    let aa1 = msg[1];
    let aa2 = msg[2];
    let aa3 = msg[3];
    let addr = ((aa1 as u32) << 16) | ((aa2 as u32) << 8) | (aa3 as u32);
    assert(addr == spec_addr(msg@));

    if msgtype != 11 && msgtype != 17 && msgtype != 18 {
        if brute_force_ap(&msg, seen, now) {
            crc_ok = true;
        } else {
            crc_ok = false;
        }
    } else {
        if crc_ok && nfixed == 0 {
            seen.mark(addr, now);
        }

        if msgtype == 11 && !crc_ok && crc_syndrome < 80 {
            if was_addr_recently_seen(addr, seen, now) {
                crc_ok = true;
            }
        }
    }
    assert(seen@ == spec_seen_after(msg0, old(seen)@, now));
    assert(crc_ok == spec_accepted(msg0, bit_error_table@, old(seen)@, now));

    if !crc_ok {
        return Err(MessageErrorReason::BitErrors);
    }

    let ca = msg[0] & 7;
    let metype = msg[4] >> 3;
    let mesub = msg[4] & 7;
    let fs = msg[0] & 7;

    let identity: u32;
    {
        let a = ((msg[3] & 0x80) >> 5) | (msg[2] & 0x02) | ((msg[2] & 0x08) >> 3);
        let b = ((msg[3] & 0x02) << 1) | ((msg[3] & 0x08) >> 2) | ((msg[3] & 0x20) >> 5);
        let c = ((msg[2] & 0x01) << 2) | ((msg[2] & 0x04) >> 1) | ((msg[2] & 0x10) >> 4);
        let d = ((msg[3] & 0x01) << 2) | ((msg[3] & 0x04) >> 1) | ((msg[3] & 0x10) >> 4);
        identity = (a as u32) * 1000 + (b as u32) * 100 + (c as u32) * 10 + (d as u32);
    }
    assert(identity == spec_squawk(msg@));

    let specific: MessageSpecific;
    if msgtype == 17 || msgtype == 18 {
        proof {
            let b = msg0[0];
            assert(((b >> 3u8) & 0x10) != 0x10 ==> (b >> 3u8) < 16) by (bit_vector);
            assert(spec_is_long(msg0));
        }
        assert(msg@.len() == 14);
        let hdr = DfHeader1 {
            capability: ca,
            addr: addr,
            metype: metype,
            mesub: mesub,
            fs: fs,
            identity: identity,
        };
        assert(spec_hdr_ok(msg@, hdr));

        if metype >= 1 && metype <= 4 {
            let b5 = msg[5];
            let b6 = msg[6];
            let b7 = msg[7];
            let b8 = msg[8];
            let b9 = msg[9];
            let b10 = msg[10];
            assert(((b5 as u32) >> 2u32) < 64 && ((((b5 as u32) & 3) << 4u32) | ((b6 as u32)
                >> 4u32)) < 64 && ((((b6 as u32) & 15) << 2u32) | ((b7 as u32) >> 6u32)) < 64 && ((
            b7 as u32) & 63) < 64 && ((b8 as u32) >> 2u32) < 64 && ((((b8 as u32) & 3) << 4u32) | ((
            b9 as u32) >> 4u32)) < 64 && ((((b9 as u32) & 15) << 2u32) | ((b10 as u32) >> 6u32))
                < 64 && ((b10 as u32) & 63) < 64) by (bit_vector);
            let mut flight: Vec<char> = Vec::new();
            flight.push(AIS_CHARSET[((b5 as u32) >> 2) as usize]);
            flight.push(AIS_CHARSET[((((b5 as u32) & 3) << 4) | ((b6 as u32) >> 4)) as usize]);
            flight.push(AIS_CHARSET[((((b6 as u32) & 15) << 2) | ((b7 as u32) >> 6)) as usize]);
            flight.push(AIS_CHARSET[((b7 as u32) & 63) as usize]);
            flight.push(AIS_CHARSET[((b8 as u32) >> 2) as usize]);
            flight.push(AIS_CHARSET[((((b8 as u32) & 3) << 4) | ((b9 as u32) >> 4)) as usize]);
            flight.push(AIS_CHARSET[((((b9 as u32) & 15) << 2) | ((b10 as u32) >> 6)) as usize]);
            flight.push(AIS_CHARSET[((b10 as u32) & 63) as usize]);
            specific = MessageSpecific::AircraftIdenAndCat {
                hdr: hdr,
                aircraft_type: metype - 1,
                flight: flight,
            };
        } else if metype >= 5 && metype <= 8 {
            specific = MessageSpecific::SurfacePositionMessage {
                hdr: hdr,
                movement: ((msg[4] & 0x07) << 4) | (msg[5] >> 4),
                ground_track: ((msg[5] & 0x07) << 4) | (msg[6] >> 4),
                f_flag: (msg[6] >> 2) & 1 == 1,
                t_flag: (msg[6] >> 3) & 1 == 1,
                raw_lat: (((msg[6] as u32) & 3) << 15) | ((msg[7] as u32) << 7) | ((msg[8] as u32)
                    >> 1),
                raw_lon: (((msg[8] as u32) & 1) << 16) | ((msg[9] as u32) << 8) | (msg[10] as u32),
            };
        } else if metype >= 9 && metype <= 18 {
            specific = MessageSpecific::AirbornePositionMessage {
                hdr: hdr,
                f_flag: (msg[6] >> 2) & 1 == 1,
                t_flag: (msg[6] >> 3) & 1 == 1,
                altitude: decode_ac12_field(&msg),
                raw_lat: (((msg[6] as u32) & 3) << 15) | ((msg[7] as u32) << 7) | ((msg[8] as u32)
                    >> 1),
                raw_lon: (((msg[8] as u32) & 1) << 16) | ((msg[9] as u32) << 8) | (msg[10] as u32),
            };
        } else if metype == 19 && (mesub == 1 || mesub == 2) {
            specific = MessageSpecific::AirborneVelocityMessage {
                hdr: hdr,
                ew_dir: (msg[5] & 4) >> 2,
                ew_velocity: (((msg[5] as u16) & 3) << 8) | (msg[6] as u16),
                ns_dir: (msg[7] & 0x80) >> 7,
                ns_velocity: (((msg[7] as u16) & 0x7f) << 3) | (((msg[8] as u16) & 0xe0) >> 5),
                vert_rate_source: (msg[8] & 0x10) >> 4,
                vert_rate_sign: (msg[8] & 0x8) >> 3,
                vert_rate: (((msg[8] as u16) & 7) << 6) | (((msg[9] as u16) & 0xfc) >> 2),
            };
        } else if metype == 19 && (mesub == 3 || mesub == 4) {
            specific = MessageSpecific::AirborneVelocityMessageShort {
                hdr: hdr,
                heading_units: ((msg[5] & 3) << 5) | (msg[6] >> 3),
            };
        } else {
            specific = MessageSpecific::Other;
        }
    } else {
        specific = MessageSpecific::Other;
    }
    assert(spec_specific_ok(spec_df(spec_truncated(msg0)), msg@, specific));

    Ok(
        Message {
            common: MessageCommon {
                msg: msg,
                ndx: result.ndx as u64,
                snr_milli: result.snr_milli,
                thetas_micro: result.thetas_micro,
                samples: result.samples,
                amplitudes_milli: result.amplitudes_milli,
                crc_ok: crc_ok,
                pipe_ndx: result.pipe_ndx,
            },
            specific: specific,
        },
    )
}

} // verus!
