//! Mode-S 24-bit CRC engine.
//!
//! A message carries its CRC in its last three bytes.  The checksum of a
//! message is the XOR of the CRC computed over its leading bits with that
//! trailing remainder; a checksum of zero means the message is valid.

use vstd::prelude::*;
use std::collections::HashMap;

verus! {

broadcast use vstd::std_specs::hash::group_hash_axioms;

/// The 112 MSB-first CRC constants of the Mode-S polynomial, one per bit
/// position of a long message.  Short (56 bit) messages use the suffix
/// starting at offset 56.
pub const MODES_CHECKSUM_TABLE: [u32; 112] = [
    0x3935ea, 0x1c9af5, 0xf1b77e, 0x78dbbf, 0xc397db, 0x9e31e9, 0xb0e2f0, 0x587178,
    0x2c38bc, 0x161c5e, 0x0b0e2f, 0xfa7d13, 0x82c48d, 0xbe9842, 0x5f4c21, 0xd05c14,
    0x682e0a, 0x341705, 0xe5f186, 0x72f8c3, 0xc68665, 0x9cb936, 0x4e5c9b, 0xd8d449,
    0x939020, 0x49c810, 0x24e408, 0x127204, 0x093902, 0x049c81, 0xfdb444, 0x7eda22,
    0x3f6d11, 0xe04c8c, 0x702646, 0x381323, 0xe3f395, 0x8e03ce, 0x4701e7, 0xdc7af7,
    0x91c77f, 0xb719bb, 0xa476d9, 0xadc168, 0x56e0b4, 0x2b705a, 0x15b82d, 0xf52612,
    0x7a9309, 0xc2b380, 0x6159c0, 0x30ace0, 0x185670, 0x0c2b38, 0x06159c, 0x030ace,
    0x018567, 0xff38b7, 0x80665f, 0xbfc92b, 0xa01e91, 0xaff54c, 0x57faa6, 0x2bfd53,
    0xea04ad, 0x8af852, 0x457c29, 0xdd4410, 0x6ea208, 0x375104, 0x1ba882, 0x0dd441,
    0xf91024, 0x7c8812, 0x3e4409, 0xe0d800, 0x706c00, 0x383600, 0x1c1b00, 0x0e0d80,
    0x0706c0, 0x038360, 0x01c1b0, 0x00e0d8, 0x00706c, 0x003836, 0x001c1b, 0xfff409,
    0x000000, 0x000000, 0x000000, 0x000000, 0x000000, 0x000000, 0x000000, 0x000000,
    0x000000, 0x000000, 0x000000, 0x000000, 0x000000, 0x000000, 0x000000, 0x000000,
    0x000000, 0x000000, 0x000000, 0x000000, 0x000000, 0x000000, 0x000000, 0x000000,
];

/// A message length in bytes is valid when it is a short or a long frame.
pub open spec fn valid_msg_len(len: int) -> bool {
    len == 7 || len == 14
}

/// Offset of a message's first bit within the 112-bit long-message space.
pub open spec fn crc_offset(len: int) -> int {
    112 - 8 * len
}

/// Bit `j` of a message, MSB-first across its bytes.
pub open spec fn msg_bit(msg: Seq<u8>, j: int) -> bool {
    ((msg[j / 8] >> ((7 - (j % 8)) as u8)) & 1) == 1
}

/// CRC accumulated over the first `n` message bits.
pub open spec fn crc_upto(msg: Seq<u8>, n: int) -> u32
    decreases n,
{
    if n <= 0 {
        0u32
    } else if msg_bit(msg, n - 1) {
        crc_upto(msg, n - 1) ^ MODES_CHECKSUM_TABLE@[crc_offset(msg.len() as int) + n - 1]
    } else {
        crc_upto(msg, n - 1)
    }
}

/// The CRC of a message: the accumulator over all bits before the
/// trailing 24-bit remainder, masked to 24 bits.
pub open spec fn spec_compute_crc(msg: Seq<u8>) -> u32 {
    crc_upto(msg, 8 * msg.len() - 24) & 0xffffff
}

/// The 24-bit remainder carried in a message's last three bytes.
pub open spec fn spec_rem(msg: Seq<u8>) -> u32 {
    (((msg[msg.len() - 3] as u32) << 16u32) | ((msg[msg.len() - 2] as u32) << 8u32)
        | (msg[msg.len() - 1] as u32)) as u32
}

/// The checksum: computed CRC XORed with the carried remainder.  Zero
/// means the message is consistent.
pub open spec fn spec_checksum(msg: Seq<u8>) -> u32 {
    (spec_compute_crc(msg) ^ spec_rem(msg)) & 0xffffff
}

proof fn lemma_mask_bit(b: u8, k: u8)
    requires
        k < 8,
    ensures
        ((b & (1u8 << k)) != 0) <==> (((b >> k) & 1) == 1),
{
    assert(((b & (1u8 << k)) != 0) <==> (((b >> k) & 1) == 1)) by (bit_vector)
        requires
            k < 8,
    ;
}

/// Compute the 24-bit CRC over the leading bits of a short or long
/// message; the trailing three bytes do not enter the computation.
pub fn modes_compute_crc(msg: &Vec<u8>) -> (r: u32)
    requires
        valid_msg_len(msg@.len() as int),
    ensures
        r == spec_compute_crc(msg@),
        r < 0x1000000,
{
    let bits: usize = msg.len() * 8;
    let offset: usize = if bits == 112 {
        0
    } else {
        112 - 56
    };

    let mut crc: u32 = 0u32;

    assert(offset == crc_offset(msg@.len() as int));

    for j in 0..bits - 24
        invariant
            valid_msg_len(msg@.len() as int),
            bits == msg@.len() * 8,
            offset == crc_offset(msg@.len() as int),
            crc == crc_upto(msg@, j as int),
    {
        let bytendx: usize = j / 8;
        let bitndx: usize = j % 8;
        assert(bytendx < msg@.len() && bitndx < 8) by (nonlinear_arith)
            requires
                j < bits - 24 && bits == msg@.len() * 8 && valid_msg_len(msg@.len() as int)
                    && bytendx == j / 8 && bitndx == j % 8,
        ;
        let bitmask: u8 = 1 << ((7 - bitndx) as u8);

        proof {
            lemma_mask_bit(msg@[j as int / 8], (7 - (j as int % 8)) as u8);
        }

        if msg[bytendx] & bitmask != 0 {
            crc = crc ^ MODES_CHECKSUM_TABLE[offset + j];
        }
        assert(crc == crc_upto(msg@, j + 1));
    }

    assert((crc & 0xffffff) < 0x1000000) by (bit_vector);
    crc & 0xffffff
}

/// Checksum of a message: its computed CRC XORed with the 24-bit
/// remainder carried in its last three bytes.  Zero means valid.
pub fn modes_checksum(msg: &Vec<u8>) -> (r: u32)
    requires
        valid_msg_len(msg@.len() as int),
    ensures
        r == spec_checksum(msg@),
        r < 0x1000000,
{
    let crc = modes_compute_crc(msg);
    let sz = msg.len();
    let rem = ((msg[sz - 3] as u32) << 16) | ((msg[sz - 2] as u32) << 8) | (msg[sz - 1] as u32);
    let r = (crc ^ rem) & 0xffffff;
    assert((crc ^ rem) & 0xffffff < 0x1000000) by (bit_vector);
    r
}

/// The CRC reads only bits before the remainder, so two messages of one
/// length that agree on all bytes but the last three have the same CRC.
proof fn lemma_crc_upto_agree(m1: Seq<u8>, m2: Seq<u8>, n: int)
    requires
        m1.len() == m2.len(),
        valid_msg_len(m1.len() as int),
        0 <= n <= 8 * m1.len() - 24,
        forall|i: int| 0 <= i < m1.len() - 3 ==> m1[i] == m2[i],
    ensures
        crc_upto(m1, n) == crc_upto(m2, n),
    decreases n,
{
    if n > 0 {
        lemma_crc_upto_agree(m1, m2, n - 1);
        assert((n - 1) / 8 < m1.len() - 3) by (nonlinear_arith)
            requires
                0 < n <= 8 * m1.len() - 24 && m1.len() >= 4,
        ;
        assert(m1[(n - 1) / 8] == m2[(n - 1) / 8]);
    }
}

/// A message with its own CRC written into its last three bytes.
pub open spec fn spec_encode(msg: Seq<u8>) -> Seq<u8> {
    let c = spec_compute_crc(msg);
    let l = msg.len() as int;
    msg.update(l - 3, (c >> 16u32) as u8).update(l - 2, ((c >> 8u32) & 0xff) as u8).update(
        l - 1,
        (c & 0xff) as u8,
    )
}

/// CRC self-consistency: writing a message's computed CRC into its last
/// three bytes yields a message whose checksum is zero.
pub proof fn lemma_crc_self_consistency(msg: Seq<u8>)
    requires
        valid_msg_len(msg.len() as int),
    ensures
        spec_checksum(spec_encode(msg)) == 0,
{
    let c = spec_compute_crc(msg);
    let e = spec_encode(msg);
    assert(e.len() == msg.len());
    assert(forall|i: int| 0 <= i < msg.len() - 3 ==> msg[i] == e[i]);
    lemma_crc_upto_agree(msg, e, 8 * msg.len() - 24);
    assert(spec_compute_crc(e) == c);
    assert(e[e.len() - 3] == (c >> 16u32) as u8);
    assert(e[e.len() - 2] == ((c >> 8u32) & 0xff) as u8);
    assert(e[e.len() - 1] == (c & 0xff) as u8);
    let c0 = crc_upto(msg, 8 * msg.len() - 24);
    assert(c == (c0 & 0xffffff) && c < 0x1000000) by (bit_vector)
        requires
            c == (c0 & 0xffffff),
    ;
    assert(((((c >> 16u32) as u8) as u32) << 16u32) | (((((c >> 8u32) & 0xff) as u8) as u32)
        << 8u32) | (((c & 0xff) as u8) as u32) == c) by (bit_vector)
        requires
            c < 0x1000000,
    ;
    assert(spec_rem(e) == c);
    assert((c ^ c) & 0xffffff == 0) by (bit_vector);
}

/// The all-zero long message over which the error table is built.
pub open spec fn zero_msg() -> Seq<u8> {
    Seq::new(14, |i: int| 0u8)
}

/// Mask selecting bit `i` (MSB-first) within its byte.
pub open spec fn bit_mask(i: int) -> u8 {
    1u8 << ((7 - (i % 8)) as u8)
}

/// The message with bit `i` flipped.
pub open spec fn flip_bit(m: Seq<u8>, i: int) -> Seq<u8> {
    m.update(i / 8, m[i / 8] ^ bit_mask(i))
}

/// Encoded error location: low byte holds the first bit position, high
/// byte the second (or zero for a single-bit error).
pub open spec fn pair_code(i: int, j: int) -> u16 {
    ((i as u16) | ((j as u16) << 8u16)) as u16
}

/// The table entries still to be made for first position `i`, second
/// positions `j` and up, folded over an accumulated table.
pub open spec fn table_inner(t: Map<u32, u16>, i: int, j: int) -> Map<u32, u16>
    decreases 112 - j,
{
    if j < 0 || j >= 112 {
        t
    } else {
        table_inner(
            t.insert(spec_checksum(flip_bit(flip_bit(zero_msg(), i), j)), pair_code(i, j)),
            i,
            j + 1,
        )
    }
}

/// The table entries still to be made for first positions `i` and up:
/// for each, the single flip at `i`, then every pair `(i, j)`.
pub open spec fn table_outer(t: Map<u32, u16>, i: int) -> Map<u32, u16>
    decreases 112 - i,
{
    if i < 5 || i >= 112 {
        t
    } else {
        table_outer(
            table_inner(t.insert(spec_checksum(flip_bit(zero_msg(), i)), i as u16), i, i + 1),
            i + 1,
        )
    }
}

/// The complete syndrome table: every single-bit flip at position
/// `i` in `[5, 112)` and every pair `(i, j)` with `i < j < 112`, outer
/// position ascending, inner ascending; later insertions overwrite.
pub open spec fn spec_error_table() -> Map<u32, u16> {
    table_outer(Map::empty(), 5)
}

/// A stored error location names a first bit in `[5, 112)` and either no
/// second bit or one strictly after the first and below 112.
pub open spec fn entry_wf(e: u16) -> bool {
    let a = (e & 0xff) as int;
    let b = (e >> 8u16) as int;
    5 <= a < 112 && (b == 0 || (a < b && b < 112))
}

/// Every entry of a table names well-formed error locations.
pub open spec fn table_wf(t: Map<u32, u16>) -> bool {
    forall|s: u32| t.contains_key(s) ==> entry_wf(#[trigger] t[s])
}

proof fn lemma_pair_code_wf(i: int, j: int)
    requires
        5 <= i < 112,
        i < j < 112,
    ensures
        entry_wf(pair_code(i, j)),
        entry_wf(i as u16),
{
    let iu = i as u16;
    let ju = j as u16;
    assert((iu | (ju << 8u16)) & 0xff == iu && (iu | (ju << 8u16)) >> 8u16 == ju) by (bit_vector)
        requires
            iu < 112 && ju < 112,
    ;
    assert(iu & 0xff == iu && iu >> 8u16 == 0) by (bit_vector)
        requires
            iu < 112,
    ;
}

proof fn lemma_table_inner_wf(t: Map<u32, u16>, i: int, j: int)
    requires
        table_wf(t),
        5 <= i < 112,
        i < j,
    ensures
        table_wf(table_inner(t, i, j)),
    decreases 112 - j,
{
    if 0 <= j < 112 {
        lemma_pair_code_wf(i, j);
        lemma_table_inner_wf(
            t.insert(spec_checksum(flip_bit(flip_bit(zero_msg(), i), j)), pair_code(i, j)),
            i,
            j + 1,
        );
    }
}

proof fn lemma_table_outer_wf(t: Map<u32, u16>, i: int)
    requires
        table_wf(t),
        5 <= i,
    ensures
        table_wf(table_outer(t, i)),
    decreases 112 - i,
{
    if i < 112 {
        let iu = i as u16;
        assert(iu & 0xff == iu && iu >> 8u16 == 0) by (bit_vector)
            requires
                iu < 112,
        ;
        let t1 = t.insert(spec_checksum(flip_bit(zero_msg(), i)), i as u16);
        lemma_table_inner_wf(t1, i, i + 1);
        lemma_table_outer_wf(table_inner(t1, i, i + 1), i + 1);
    }
}

/// The built syndrome table only stores well-formed error locations.
pub proof fn lemma_error_table_wf()
    ensures
        table_wf(spec_error_table()),
{
    lemma_table_outer_wf(Map::empty(), 5);
}

proof fn lemma_xor_twice(b: u8, m: u8)
    ensures
        (b ^ m) ^ m == b,
{
    assert((b ^ m) ^ m == b) by (bit_vector);
}

/// Build the syndrome table over the 112-bit long-message space: for
/// every single-bit flip at `i` in `[5, 112)` and every two-bit flip at
/// `(i, j)` with `i < j < 112`, record the encoded locations keyed by
/// the flipped message's checksum.
pub fn modes_init_error_info() -> (t: HashMap<u32, u16>)
    ensures
        t@ == spec_error_table(),
        table_wf(t@),
{
    let mut msg: Vec<u8> = Vec::new();
    for k in 0..14usize
        invariant
            msg@.len() == k,
            forall|x: int| 0 <= x < k ==> msg@[x] == 0u8,
    {
        msg.push(0u8);
    }
    assert(msg@ =~= zero_msg());

    let mut tbl: HashMap<u32, u16> = HashMap::new();
    assert(tbl@ =~= Map::<u32, u16>::empty());

    for i in 5..112usize
        invariant
            msg@ == zero_msg(),
            table_outer(tbl@, i as int) == spec_error_table(),
    {
        let bytepos0: usize = i / 8;
        let mask0: u8 = 1 << ((7 - i % 8) as u8);
        assert(bytepos0 < 14 && i % 8 < 8) by (nonlinear_arith)
            requires
                5 <= i < 112 && bytepos0 == i / 8,
        ;
        let ghost m_zero = msg@;
        msg.set(bytepos0, msg[bytepos0] ^ mask0);
        assert(msg@ == flip_bit(zero_msg(), i as int));
        let crc0 = modes_checksum(&msg);
        tbl.insert(crc0, i as u16);

        for j in (i + 1)..112usize
            invariant
                5 <= i < 112,
                msg@ == flip_bit(zero_msg(), i as int),
                msg@.len() == 14,
                table_outer(table_inner(tbl@, i as int, j as int), i as int + 1)
                    == spec_error_table(),
        {
            let bytepos1: usize = j / 8;
            let mask1: u8 = 1 << ((7 - j % 8) as u8);
            assert(bytepos1 < 14 && j % 8 < 8) by (nonlinear_arith)
                requires
                    5 <= j < 112 && bytepos1 == j / 8,
            ;
            let ghost m_single = msg@;
            msg.set(bytepos1, msg[bytepos1] ^ mask1);
            assert(msg@ == flip_bit(flip_bit(zero_msg(), i as int), j as int));
            let crc1 = modes_checksum(&msg);
            tbl.insert(crc1, (i as u16) | ((j as u16) << 8));
            assert((i as u16) | ((j as u16) << 8u16) == pair_code(i as int, j as int));
            msg.set(bytepos1, msg[bytepos1] ^ mask1);
            proof {
                lemma_xor_twice(m_single[bytepos1 as int], mask1);
                assert(msg@ =~= m_single);
            }
        }

        msg.set(bytepos0, msg[bytepos0] ^ mask0);
        proof {
            lemma_xor_twice(m_zero[bytepos0 as int], mask0);
            assert(msg@ =~= m_zero);
        }
    }
    proof {
        lemma_error_table_wf();
    }
    tbl
}

/// The result of a repair attempt: the (possibly corrected) message and
/// the number of bits corrected, zero when no applicable entry exists.
pub open spec fn spec_fix(msg: Seq<u8>, t: Map<u32, u16>) -> (Seq<u8>, u8) {
    let s = spec_checksum(msg);
    let off = crc_offset(msg.len() as int);
    if !t.contains_key(s) {
        (msg, 0u8)
    } else {
        let e = t[s];
        let a = (e & 0xff) as int;
        let b = (e >> 8u16) as int;
        if b != 0 {
            if a < off || b < off {
                (msg, 0u8)
            } else {
                (flip_bit(flip_bit(msg, a - off), b - off), 2u8)
            }
        } else if a < off {
            (msg, 0u8)
        } else {
            (flip_bit(msg, a - off), 1u8)
        }
    }
}

/// Look the message's syndrome up in the error table and, if the stored
/// bit positions fall inside this message's bit space, flip them in
/// place.  Returns how many bits were corrected: 0, 1 or 2.
pub fn fix_bit_errors(msg: &mut Vec<u8>, bit_error_table: &HashMap<u32, u16>) -> (n: u8)
    requires
        valid_msg_len(old(msg)@.len() as int),
        table_wf(bit_error_table@),
    ensures
        final(msg)@ == spec_fix(old(msg)@, bit_error_table@).0,
        n == spec_fix(old(msg)@, bit_error_table@).1,
        final(msg)@.len() == old(msg)@.len(),
{
    let syndrome = modes_checksum(msg);
    let offset: usize = 112 - msg.len() * 8;
    match bit_error_table.get(&syndrome) {
        Some(pei) => {
            let e: u16 = *pei;
            let a = (e & 0xff) as usize;
            let b = ((e >> 8) & 0xff) as usize;
            assert(a == (e & 0xff) as int && b == (e >> 8u16) as int && a < 112 && b < 112)
                by (bit_vector)
                requires
                    a == ((e & 0xff) as usize) && b == (((e >> 8u16) & 0xff) as usize) && (5 <= (e
                        & 0xff) < 112) && ((e >> 8u16) == 0 || (e >> 8u16) < 112),
            ;

            if b != 0 {
                if offset > a {
                    return 0;
                }
                if offset > b {
                    return 0;
                }
                let bitpos0 = a - offset;
                let bitpos1 = b - offset;
                assert(bitpos0 / 8 < msg@.len() && bitpos0 % 8 < 8 && bitpos1 / 8 < msg@.len()
                    && bitpos1 % 8 < 8) by (nonlinear_arith)
                    requires
                        bitpos0 < 8 * msg@.len() && bitpos1 < 8 * msg@.len() && msg@.len() >= 1,
                ;
                msg.set(bitpos0 / 8, msg[bitpos0 / 8] ^ (1u8 << ((7 - bitpos0 % 8) as u8)));
                assert(msg@ == flip_bit(old(msg)@, bitpos0 as int));
                msg.set(bitpos1 / 8, msg[bitpos1 / 8] ^ (1u8 << ((7 - bitpos1 % 8) as u8)));
                assert(msg@ == flip_bit(flip_bit(old(msg)@, bitpos0 as int), bitpos1 as int));
                2
            } else {
                if offset > a {
                    return 0;
                }
                let bitpos0 = a - offset;
                assert(bitpos0 / 8 < msg@.len() && bitpos0 % 8 < 8) by (nonlinear_arith)
                    requires
                        bitpos0 < 8 * msg@.len() && msg@.len() >= 1,
                ;
                msg.set(bitpos0 / 8, msg[bitpos0 / 8] ^ (1u8 << ((7 - bitpos0 % 8) as u8)));
                assert(msg@ == flip_bit(old(msg)@, bitpos0 as int));
                1
            }
        },
        None => 0,
    }
}

} // verus!
