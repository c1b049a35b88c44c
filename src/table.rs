//! Construction of the CRC-32 lookup table, and its mathematical definition.
use vstd::prelude::*;

verus! {

/// Standard CRC-32 polynomial (IEEE 802.3 et al.), in reflected bit order.
pub const POLY_CRC: u32 = 0xEDB8_8320;

/// Initial value of the accumulator; also XORed into the result to close it.
pub const INIT_CRC: u32 = 0xFFFF_FFFF;

/// A CRC table: one entry per byte value.
pub type CRCTable = [u32; 256];

/// One step of the bit-serial (shift register) division by the polynomial.
pub open spec fn crc_step(r: u32) -> u32 {
    (r >> 1) ^ (if r & 1 == 1 { POLY_CRC } else { 0 })
}

/// Eight steps of the shift register: the bit-serial table entry of `i`
/// when `i < 256`, and the bit-serial update of a whole accumulator otherwise.
pub open spec fn bit_serial_entry(i: u32) -> u32 {
    crc_step(crc_step(crc_step(crc_step(crc_step(crc_step(crc_step(crc_step(i))))))))
}

/// The standard CRC-32 table, entry by entry from the bit-serial definition.
pub open spec fn crc_table_spec() -> Seq<u32> {
    Seq::new(256, |i: int| bit_serial_entry(i as u32))
}

/// `t` when `k` has any of the bits of `m` set, else 0.
pub open spec fn pick(k: u32, m: u32, t: u32) -> u32 {
    if k & m != 0 {
        t
    } else {
        0
    }
}

/// XOR of the values `t0..t7` selected by the low eight bits of `k`.
pub open spec fn combine(
    k: u32,
    t0: u32,
    t1: u32,
    t2: u32,
    t3: u32,
    t4: u32,
    t5: u32,
    t6: u32,
    t7: u32,
) -> u32 {
    pick(k, 1, t0) ^ pick(k, 2, t1) ^ pick(k, 4, t2) ^ pick(k, 8, t3) ^ pick(k, 16, t4) ^ pick(
        k,
        32,
        t5,
    ) ^ pick(k, 64, t6) ^ pick(k, 128, t7)
}

/// Entry `k` of the table that the doubling construction builds from `seed`:
/// the seed sits at index 128, each lower power of two holds one more
/// shift-register step, and every other index is the XOR of the entries of
/// its bits.
pub open spec fn seeded_entry(seed: u32, k: u32) -> u32 {
    let t7 = seed;
    let t6 = crc_step(t7);
    let t5 = crc_step(t6);
    let t4 = crc_step(t5);
    let t3 = crc_step(t4);
    let t2 = crc_step(t3);
    let t1 = crc_step(t2);
    let t0 = crc_step(t1);
    combine(k, t0, t1, t2, t3, t4, t5, t6, t7)
}

/// The whole table that the doubling construction builds from `seed`.
pub open spec fn seeded_table(seed: u32) -> Seq<u32> {
    Seq::new(256, |k: int| seeded_entry(seed, k as u32))
}

proof fn lemma_combine_powers(t0: u32, t1: u32, t2: u32, t3: u32, t4: u32, t5: u32, t6: u32, t7: u32)
    by (bit_vector)
    ensures
        combine(0, t0, t1, t2, t3, t4, t5, t6, t7) == 0,
        combine(1, t0, t1, t2, t3, t4, t5, t6, t7) == t0,
        combine(2, t0, t1, t2, t3, t4, t5, t6, t7) == t1,
        combine(4, t0, t1, t2, t3, t4, t5, t6, t7) == t2,
        combine(8, t0, t1, t2, t3, t4, t5, t6, t7) == t3,
        combine(16, t0, t1, t2, t3, t4, t5, t6, t7) == t4,
        combine(32, t0, t1, t2, t3, t4, t5, t6, t7) == t5,
        combine(64, t0, t1, t2, t3, t4, t5, t6, t7) == t6,
        combine(128, t0, t1, t2, t3, t4, t5, t6, t7) == t7,
{
}

proof fn lemma_pick_disjoint(a: u32, b: u32, m: u32, t: u32)
    by (bit_vector)
    requires
        a & b == 0,
        m == 1 || m == 2 || m == 4 || m == 8 || m == 16 || m == 32 || m == 64 || m == 128,
    ensures
        pick(a | b, m, t) == pick(a, m, t) ^ pick(b, m, t),
{
}

proof fn lemma_xor_regroup(
    y0: u32,
    y1: u32,
    y2: u32,
    y3: u32,
    y4: u32,
    y5: u32,
    y6: u32,
    y7: u32,
    z0: u32,
    z1: u32,
    z2: u32,
    z3: u32,
    z4: u32,
    z5: u32,
    z6: u32,
    z7: u32,
)
    by (bit_vector)
    ensures
        (y0 ^ z0) ^ (y1 ^ z1) ^ (y2 ^ z2) ^ (y3 ^ z3) ^ (y4 ^ z4) ^ (y5 ^ z5) ^ (y6 ^ z6) ^ (y7
            ^ z7) == (y0 ^ y1 ^ y2 ^ y3 ^ y4 ^ y5 ^ y6 ^ y7) ^ (z0 ^ z1 ^ z2 ^ z3 ^ z4 ^ z5 ^ z6
            ^ z7),
{
}

proof fn lemma_combine_disjoint(
    a: u32,
    b: u32,
    t0: u32,
    t1: u32,
    t2: u32,
    t3: u32,
    t4: u32,
    t5: u32,
    t6: u32,
    t7: u32,
)
    requires
        a & b == 0,
    ensures
        combine(a | b, t0, t1, t2, t3, t4, t5, t6, t7) == combine(a, t0, t1, t2, t3, t4, t5, t6, t7)
            ^ combine(b, t0, t1, t2, t3, t4, t5, t6, t7),
{
    lemma_pick_disjoint(a, b, 1, t0);
    lemma_pick_disjoint(a, b, 2, t1);
    lemma_pick_disjoint(a, b, 4, t2);
    lemma_pick_disjoint(a, b, 8, t3);
    lemma_pick_disjoint(a, b, 16, t4);
    lemma_pick_disjoint(a, b, 32, t5);
    lemma_pick_disjoint(a, b, 64, t6);
    lemma_pick_disjoint(a, b, 128, t7);
    lemma_xor_regroup(
        pick(a, 1, t0),
        pick(a, 2, t1),
        pick(a, 4, t2),
        pick(a, 8, t3),
        pick(a, 16, t4),
        pick(a, 32, t5),
        pick(a, 64, t6),
        pick(a, 128, t7),
        pick(b, 1, t0),
        pick(b, 2, t1),
        pick(b, 4, t2),
        pick(b, 8, t3),
        pick(b, 16, t4),
        pick(b, 32, t5),
        pick(b, 64, t6),
        pick(b, 128, t7),
    );
}

/// One of the powers of two below 256.
pub open spec fn is_low_power(i: int) -> bool {
    i == 1 || i == 2 || i == 4 || i == 8 || i == 16 || i == 32 || i == 64 || i == 128
}

proof fn lemma_power_plus_lower(i: u32, j: u32)
    by (bit_vector)
    requires
        i == 1 || i == 2 || i == 4 || i == 8 || i == 16 || i == 32 || i == 64 || i == 128,
        j < i,
    ensures
        i & j == 0,
        i | j == i + j,
{
}

proof fn lemma_seeded_sum(seed: u32, i: u32, j: u32)
    requires
        is_low_power(i as int),
        j < i,
    ensures
        seeded_entry(seed, (i + j) as u32) == seeded_entry(seed, i) ^ seeded_entry(seed, j),
{
    lemma_power_plus_lower(i, j);
    let t7 = seed;
    let t6 = crc_step(t7);
    let t5 = crc_step(t6);
    let t4 = crc_step(t5);
    let t3 = crc_step(t4);
    let t2 = crc_step(t3);
    let t1 = crc_step(t2);
    let t0 = crc_step(t1);
    lemma_combine_disjoint(i, j, t0, t1, t2, t3, t4, t5, t6, t7);
}

proof fn lemma_seeded_halving(seed: u32)
    ensures
        seeded_entry(seed, 0) == 0,
        seeded_entry(seed, 128) == seed,
        seeded_entry(seed, 64) == crc_step(seeded_entry(seed, 128)),
        seeded_entry(seed, 32) == crc_step(seeded_entry(seed, 64)),
        seeded_entry(seed, 16) == crc_step(seeded_entry(seed, 32)),
        seeded_entry(seed, 8) == crc_step(seeded_entry(seed, 16)),
        seeded_entry(seed, 4) == crc_step(seeded_entry(seed, 8)),
        seeded_entry(seed, 2) == crc_step(seeded_entry(seed, 4)),
        seeded_entry(seed, 1) == crc_step(seeded_entry(seed, 2)),
{
    let t7 = seed;
    let t6 = crc_step(t7);
    let t5 = crc_step(t6);
    let t4 = crc_step(t5);
    let t3 = crc_step(t4);
    let t2 = crc_step(t3);
    let t1 = crc_step(t2);
    let t0 = crc_step(t1);
    lemma_combine_powers(t0, t1, t2, t3, t4, t5, t6, t7);
}

proof fn lemma_seeded_half(seed: u32, i: u32)
    requires
        i == 1 || i == 2 || i == 4 || i == 8 || i == 16 || i == 32 || i == 64,
    ensures
        seeded_entry(seed, i) == crc_step(seeded_entry(seed, (2 * i) as u32)),
{
    lemma_seeded_halving(seed);
    if i == 1 {
    } else if i == 2 {
    } else if i == 4 {
    } else if i == 8 {
    } else if i == 16 {
    } else if i == 32 {
    } else {
    }
}

/// Fast CRC table construction: the entries at the powers of two come from
/// the shift register started at `seed`, every other entry is the XOR of two
/// entries built before it. With `seed == POLY_CRC` this is the standard
/// CRC-32 table (see `lemma_table_equivalence`).
pub fn make_crc_table_fast(crc_table: &mut CRCTable, seed: u32)
    ensures
        final(crc_table)@ == seeded_table(seed),
{
    proof {
        lemma_seeded_halving(seed);
    }
    let mut r: u32 = seed;
    crc_table[0] = 0;
    crc_table[128] = seed;

    let mut i: usize = 64;
    while i > 0
        invariant
            i == 64 || i == 32 || i == 16 || i == 8 || i == 4 || i == 2 || i == 1 || i == 0,
            i > 0 ==> r == seeded_entry(seed, (2 * i) as u32),
            crc_table@.len() == 256,
            forall|k: int|
                (k == 0 || (is_low_power(k) && k > i)) ==> #[trigger] crc_table@[k]
                    == seeded_entry(seed, k as u32),
        decreases i,
    {
        let ghost prev = r;
        r = (r >> 1) ^ (if r & 1 == 1 { POLY_CRC } else { 0 });
        proof {
            lemma_seeded_half(seed, i as u32);
        }
        crc_table[i] = r;
        assert(i >> 1 == i / 2) by (bit_vector);
        i >>= 1;
    }

    i = 2;
    while i < 256
        invariant
            i == 2 || i == 4 || i == 8 || i == 16 || i == 32 || i == 64 || i == 128 || i == 256,
            crc_table@.len() == 256,
            forall|k: int|
                (0 <= k < i || (is_low_power(k) && k >= i)) ==> #[trigger] crc_table@[k]
                    == seeded_entry(seed, k as u32),
        decreases 256 - i,
    {
        for j in 1..i
            invariant
                is_low_power(i as int),
                i < 256,
                crc_table@.len() == 256,
                forall|k: int|
                    (0 <= k < i + j || (is_low_power(k) && k >= i)) ==> #[trigger] crc_table@[k]
                        == seeded_entry(seed, k as u32),
        {
            proof {
                lemma_seeded_sum(seed, i as u32, j as u32);
            }
            crc_table[i + j] = crc_table[i] ^ crc_table[j];
        }
        assert(i << 1 == i * 2) by (bit_vector)
            requires
                i < 256,
        ;
        i <<= 1;
    }
    assert(crc_table@ =~= seeded_table(seed));
}

proof fn lemma_entry_equivalence(k: u32)
    by (bit_vector)
    requires
        k < 256,
    ensures
        seeded_entry(POLY_CRC, k) == bit_serial_entry(k),
{
}

/// The doubling construction seeded with the polynomial and the bit-serial
/// construction give the same table.
pub proof fn lemma_table_equivalence()
    ensures
        seeded_table(POLY_CRC) == crc_table_spec(),
{
    assert forall|k: int| 0 <= k < 256 implies seeded_table(POLY_CRC)[k] == crc_table_spec()[k] by {
        lemma_entry_equivalence(k as u32);
    }
    assert(seeded_table(POLY_CRC) =~= crc_table_spec());
}

proof fn lemma_step_linear(a: u32, b: u32)
    by (bit_vector)
    ensures
        crc_step(a ^ b) == crc_step(a) ^ crc_step(b),
{
}

/// The shift register is linear over XOR.
pub proof fn lemma_bit_serial_linear(a: u32, b: u32)
    ensures
        bit_serial_entry(a ^ b) == bit_serial_entry(a) ^ bit_serial_entry(b),
{
    lemma_step_linear(a, b);
    lemma_step_linear(crc_step(a), crc_step(b));
    lemma_step_linear(crc_step(crc_step(a)), crc_step(crc_step(b)));
    lemma_step_linear(crc_step(crc_step(crc_step(a))), crc_step(crc_step(crc_step(b))));
    lemma_step_linear(
        crc_step(crc_step(crc_step(crc_step(a)))),
        crc_step(crc_step(crc_step(crc_step(b)))),
    );
    lemma_step_linear(
        crc_step(crc_step(crc_step(crc_step(crc_step(a))))),
        crc_step(crc_step(crc_step(crc_step(crc_step(b))))),
    );
    lemma_step_linear(
        crc_step(crc_step(crc_step(crc_step(crc_step(crc_step(a)))))),
        crc_step(crc_step(crc_step(crc_step(crc_step(crc_step(b)))))),
    );
    lemma_step_linear(
        crc_step(crc_step(crc_step(crc_step(crc_step(crc_step(crc_step(a))))))),
        crc_step(crc_step(crc_step(crc_step(crc_step(crc_step(crc_step(b))))))),
    );
}

} // verus!
