//! The single-byte update rule, the CRC of a byte sequence, and the rolling
//! table that retires the oldest byte of a window.
use vstd::prelude::*;

use crate::table::{CRCTable, INIT_CRC, bit_serial_entry, crc_table_spec, lemma_bit_serial_linear};

verus! {

/// The update rule: the accumulator `crc` extended by the byte `c`.
pub open spec fn update_spec(t: Seq<u32>, crc: u32, c: u8) -> u32 {
    t[((crc ^ (c as u32)) & 0xff) as int] ^ (crc >> 8)
}

/// The open (not yet finalized) CRC of `s`, starting from the accumulator `init`.
pub open spec fn crc_open(t: Seq<u32>, init: u32, s: Seq<u8>) -> u32
    decreases s.len(),
{
    if s.len() == 0 {
        init
    } else {
        update_spec(t, crc_open(t, init, s.drop_last()), s.last())
    }
}

/// Closing an accumulator, and reopening a closed value: XOR with the initial value.
pub open spec fn crc_close(x: u32) -> u32 {
    x ^ INIT_CRC
}

/// The CRC of `s` under table `t`, started at the initial value and closed.
pub open spec fn crc_with(t: Seq<u32>, s: Seq<u8>) -> u32 {
    crc_close(crc_open(t, INIT_CRC, s))
}

/// The standard CRC-32 of `s`.
pub open spec fn crc32(s: Seq<u8>) -> u32 {
    crc_with(crc_table_spec(), s)
}

/// A table whose entries combine by XOR as their indices do.
pub open spec fn is_linear_table(t: Seq<u32>) -> bool {
    &&& t.len() == 256
    &&& forall|a: u32, b: u32|
        a < 256 && b < 256 ==> #[trigger] t[(a ^ b) as int] == t[a as int] ^ t[b as int]
}

/// `n` zero bytes.
pub open spec fn zeros(n: nat) -> Seq<u8> {
    Seq::new(n, |i: int| 0u8)
}

/// Byte-wise XOR of two sequences of the same length.
pub open spec fn xor_bytes(s1: Seq<u8>, s2: Seq<u8>) -> Seq<u8> {
    Seq::new(s1.len(), |i: int| s1[i] ^ s2[i])
}

/// Entry `c` of the rolling table for window size `w`: the open CRC of `c`
/// followed by `w` zero bytes, XOR the open CRC of `w` zero bytes.
pub open spec fn rolling_entry(t: Seq<u32>, w: nat, c: u8) -> u32 {
    crc_open(t, INIT_CRC, seq![c] + zeros(w)) ^ crc_open(t, INIT_CRC, zeros(w))
}

/// The rolling table for window size `w`.
pub open spec fn rolling_table_spec(t: Seq<u32>, w: nat) -> Seq<u32> {
    Seq::new(256, |c: int| rolling_entry(t, w, c as u8))
}

/// Extending a sequence by one byte applies the update rule once.
pub proof fn lemma_open_push(t: Seq<u32>, init: u32, s: Seq<u8>, b: u8)
    ensures
        crc_open(t, init, s.push(b)) == update_spec(t, crc_open(t, init, s), b),
{
    assert(s.push(b).drop_last() =~= s);
}

/// The CRC of a concatenation continues from the CRC of its first part.
pub proof fn lemma_open_concat(t: Seq<u32>, init: u32, s1: Seq<u8>, s2: Seq<u8>)
    ensures
        crc_open(t, init, s1 + s2) == crc_open(t, crc_open(t, init, s1), s2),
    decreases s2.len(),
{
    if s2.len() == 0 {
        assert(s1 + s2 =~= s1);
    } else {
        lemma_open_concat(t, init, s1, s2.drop_last());
        assert((s1 + s2).drop_last() =~= s1 + s2.drop_last());
        assert((s1 + s2).last() == s2.last());
    }
}

/// The standard table is linear.
pub proof fn lemma_standard_table_linear()
    ensures
        is_linear_table(crc_table_spec()),
{
    assert forall|a: u32, b: u32| a < 256 && b < 256 implies #[trigger] crc_table_spec()[(a
        ^ b) as int] == crc_table_spec()[a as int] ^ crc_table_spec()[b as int] by {
        assert(a ^ b < 256) by (bit_vector)
            requires
                a < 256 && b < 256,
        ;
        lemma_bit_serial_linear(a, b);
    }
}

/// The update rule is linear in the accumulator and the byte together.
pub proof fn lemma_update_linear(t: Seq<u32>, a: u32, b: u32, c: u8, d: u8)
    requires
        is_linear_table(t),
    ensures
        update_spec(t, a ^ b, c ^ d) == update_spec(t, a, c) ^ update_spec(t, b, d),
{
    let i1: u32 = (a ^ (c as u32)) & 0xff;
    let i2: u32 = (b ^ (d as u32)) & 0xff;
    assert(((a ^ b) ^ ((c ^ d) as u32)) & 0xff == i1 ^ i2 && i1 < 256 && i2 < 256 && (a ^ b)
        >> 8 == (a >> 8) ^ (b >> 8)) by (bit_vector)
        requires
            i1 == (a ^ (c as u32)) & 0xff,
            i2 == (b ^ (d as u32)) & 0xff,
    ;
    assert(t[(i1 ^ i2) as int] == t[i1 as int] ^ t[i2 as int]);
    let t1 = t[i1 as int];
    let t2 = t[i2 as int];
    let s1 = a >> 8;
    let s2 = b >> 8;
    assert((t1 ^ t2) ^ (s1 ^ s2) == (t1 ^ s1) ^ (t2 ^ s2)) by (bit_vector);
}

/// The open CRC is linear: XOR of the starting accumulators and of the
/// messages (of equal length) gives the XOR of the results.
pub proof fn lemma_open_linear(t: Seq<u32>, a: u32, b: u32, s1: Seq<u8>, s2: Seq<u8>)
    requires
        is_linear_table(t),
        s1.len() == s2.len(),
    ensures
        crc_open(t, a ^ b, xor_bytes(s1, s2)) == crc_open(t, a, s1) ^ crc_open(t, b, s2),
    decreases s1.len(),
{
    if s1.len() > 0 {
        lemma_open_linear(t, a, b, s1.drop_last(), s2.drop_last());
        assert(xor_bytes(s1, s2).drop_last() =~= xor_bytes(s1.drop_last(), s2.drop_last()));
        lemma_update_linear(
            t,
            crc_open(t, a, s1.drop_last()),
            crc_open(t, b, s2.drop_last()),
            s1.last(),
            s2.last(),
        );
    }
}

/// Retiring the oldest byte of a full window: extending the open CRC of the
/// window `win` by `y`, then XORing in the rolling entry of the window's first
/// byte, gives the open CRC of the window shifted by one byte.
pub proof fn lemma_roll(t: Seq<u32>, win: Seq<u8>, y: u8)
    requires
        is_linear_table(t),
        win.len() >= 1,
    ensures
        update_spec(t, crc_open(t, INIT_CRC, win), y) ^ rolling_entry(t, win.len(), win[0])
            == crc_open(t, INIT_CRC, win.drop_first().push(y)),
{
    let w = win.len();
    let x = win[0];
    let q = win.drop_first().push(y);
    let a = win.push(y);
    let b = seq![x] + zeros(w);
    lemma_open_push(t, INIT_CRC, win, y);
    // The message and the correction cancel on the first byte.
    assert forall|i: int| 0 <= i < a.len() implies #[trigger] xor_bytes(a, b)[i] == (seq![0u8]
        + q)[i] by {
        if i == 0 {
            assert(a[0] == x && b[0] == x);
            assert(x ^ x == 0) by (bit_vector);
        } else {
            assert(b[i] == 0);
            assert(a[i] == q[i - 1]);
            let v = a[i];
            assert(v ^ 0 == v) by (bit_vector);
        }
    }
    assert(xor_bytes(a, b) =~= seq![0u8] + q);
    lemma_open_linear(t, INIT_CRC, INIT_CRC, a, b);
    assert(INIT_CRC ^ INIT_CRC == 0) by (bit_vector);
    // A leading zero byte leaves a zero accumulator unchanged.
    assert(t[0] == 0) by {
        assert(0u32 ^ 0u32 == 0u32) by (bit_vector);
        assert(t[(0u32 ^ 0u32) as int] == t[0u32 as int] ^ t[0u32 as int]);
        let z = t[0];
        assert(z == z ^ z ==> z == 0) by (bit_vector);
    }
    assert(update_spec(t, 0, 0) == 0) by {
        assert((0u32 ^ (0u8 as u32)) & 0xff == 0 && (0u32 >> 8) == 0) by (bit_vector);
        let z = t[0];
        assert(z ^ 0 == 0) by (bit_vector)
            requires
                z == 0,
        ;
    }
    lemma_open_concat(t, 0, seq![0u8], q);
    assert(seq![0u8] =~= Seq::<u8>::empty().push(0u8));
    lemma_open_push(t, 0, Seq::<u8>::empty(), 0u8);
    // Removing the initial value's trace over the `w` trailing bytes.
    assert forall|i: int| 0 <= i < q.len() implies #[trigger] xor_bytes(q, zeros(w))[i]
        == q[i] by {
        let v = q[i];
        assert(v ^ 0 == v) by (bit_vector);
    }
    assert(xor_bytes(q, zeros(w)) =~= q);
    lemma_open_linear(t, 0, INIT_CRC, q, zeros(w));
    assert(0u32 ^ INIT_CRC == INIT_CRC) by (bit_vector);
    let ca = crc_open(t, INIT_CRC, a);
    let cb = crc_open(t, INIT_CRC, b);
    let cz = crc_open(t, INIT_CRC, zeros(w));
    assert(ca ^ (cb ^ cz) == (ca ^ cb) ^ cz) by (bit_vector);
}

/// The bit-at-a-time update with no table: XOR the byte into the low bits of
/// the accumulator, then run the shift register eight steps.
pub open spec fn bitwise_update(crc: u32, c: u8) -> u32 {
    bit_serial_entry(crc ^ (c as u32))
}

/// The open CRC of `s` by the bit-at-a-time update.
pub open spec fn bitwise_open(init: u32, s: Seq<u8>) -> u32
    decreases s.len(),
{
    if s.len() == 0 {
        init
    } else {
        bitwise_update(bitwise_open(init, s.drop_last()), s.last())
    }
}

/// CRC-32 (ISO 3309) computed bit by bit, with no table.
pub open spec fn reference_crc32(s: Seq<u8>) -> u32 {
    crc_close(bitwise_open(INIT_CRC, s))
}

proof fn lemma_split_low_byte(crc: u32, c: u8)
    by (bit_vector)
    ensures
        bit_serial_entry(crc ^ (c as u32)) == bit_serial_entry((crc ^ (c as u32)) & 0xff) ^ (crc
            >> 8),
        (crc ^ (c as u32)) & 0xff < 256,
{
}

/// The table-driven CRC over the standard table is the bit-at-a-time CRC-32.
pub proof fn lemma_matches_bitwise(s: Seq<u8>)
    ensures
        crc32(s) == reference_crc32(s),
        crc_open(crc_table_spec(), INIT_CRC, s) == bitwise_open(INIT_CRC, s),
    decreases s.len(),
{
    if s.len() > 0 {
        lemma_matches_bitwise(s.drop_last());
        lemma_split_low_byte(crc_open(crc_table_spec(), INIT_CRC, s.drop_last()), s.last());
    }
}

/// Extends the accumulator `crc` by the byte `c`.
pub fn update_crc(crc: u32, crc_table: &CRCTable, c: u8) -> (r: u32)
    ensures
        r == update_spec(crc_table@, crc, c),
{
    let i: u32 = (crc ^ (c as u32)) & 0xff;
    assert(i < 256) by (bit_vector)
        requires
            i == (crc ^ (c as u32)) & 0xff,
    ;
    crc_table[i as usize] ^ (crc >> 8)
}

/// Closes an open CRC, or reopens a closed one.
pub fn finish_crc(crc: u32) -> (r: u32)
    ensures
        r == crc_close(crc),
{
    crc ^ INIT_CRC
}

/// Standard (non-rolling) CRC of the whole buffer.
pub fn calc_crc(buf: &[u8], crc_table: &CRCTable) -> (r: u32)
    ensures
        r == crc_with(crc_table@, buf@),
{
    let mut crc: u32 = INIT_CRC;
    let mut i: usize = 0;
    while i < buf.len()
        invariant
            i <= buf@.len(),
            crc == crc_open(crc_table@, INIT_CRC, buf@.subrange(0, i as int)),
        decreases buf@.len() - i,
    {
        proof {
            lemma_open_push(crc_table@, INIT_CRC, buf@.subrange(0, i as int), buf@[i as int]);
            assert(buf@.subrange(0, i as int).push(buf@[i as int]) =~= buf@.subrange(
                0,
                i + 1,
            ));
        }
        crc = update_crc(crc, crc_table, buf[i]);
        i += 1;
    }
    assert(buf@.subrange(0, i as int) =~= buf@);
    finish_crc(crc)
}

/// Builds the rolling table for window size `winsize` from the CRC table.
pub fn make_rolling_crc_table(
    winsize: usize,
    crc_table: &CRCTable,
    rolling_crc_table: &mut CRCTable,
)
    ensures
        final(rolling_crc_table)@ == rolling_table_spec(crc_table@, winsize as nat),
{
    let ghost t = crc_table@;
    let mut c: usize = 0;
    while c < 256
        invariant
            c <= 256,
            t == crc_table@,
            rolling_crc_table@.len() == 256,
            forall|k: int|
                0 <= k < c ==> #[trigger] rolling_crc_table@[k] == rolling_entry(
                    t,
                    winsize as nat,
                    k as u8,
                ),
        decreases 256 - c,
    {
        let ghost cb = c as u8;
        proof {
            lemma_open_push(t, INIT_CRC, Seq::<u8>::empty(), cb);
            assert(Seq::<u8>::empty().push(cb) =~= seq![cb] + zeros(0));
            assert(zeros(0) =~= Seq::<u8>::empty());
        }
        let mut x: u32 = update_crc(INIT_CRC, crc_table, c as u8);
        let mut y: u32 = INIT_CRC;
        for k in 0..winsize
            invariant
                t == crc_table@,
                cb == c as u8,
                x == crc_open(t, INIT_CRC, seq![cb] + zeros(k as nat)),
                y == crc_open(t, INIT_CRC, zeros(k as nat)),
        {
            proof {
                lemma_open_push(t, INIT_CRC, seq![cb] + zeros(k as nat), 0u8);
                lemma_open_push(t, INIT_CRC, zeros(k as nat), 0u8);
                assert((seq![cb] + zeros(k as nat)).push(0u8) =~= seq![cb] + zeros(
                    (k + 1) as nat,
                ));
                assert(zeros(k as nat).push(0u8) =~= zeros((k + 1) as nat));
            }
            x = update_crc(x, crc_table, 0);
            y = update_crc(y, crc_table, 0);
        }
        rolling_crc_table[c] = x ^ y;
        c += 1;
    }
    assert(rolling_crc_table@ =~= rolling_table_spec(t, winsize as nat));
}

} // verus!
