//! The rolling context (tables for one window size) and the per-stream
//! rolling engine.
use vstd::prelude::*;

use crate::checksum::{
    calc_crc,
    crc32,
    crc_open,
    finish_crc,
    lemma_roll,
    lemma_standard_table_linear,
    make_rolling_crc_table,
    rolling_table_spec,
    update_crc,
};
use crate::table::{CRCTable, INIT_CRC, POLY_CRC, crc_table_spec, lemma_table_equivalence, make_crc_table_fast};

verus! {

/// What a push returns once the stream read so far is `h`: the CRC of its
/// last `w` bytes, once there are that many and `w` is not zero.
pub open spec fn emitted(w: nat, h: Seq<u8>) -> Option<u32> {
    if w > 0 && h.len() >= w {
        Some(crc32(h.subrange(h.len() - w, h.len() as int)))
    } else {
        None
    }
}

/// Slot of the ring buffer of size `w` that holds the `i`-th oldest byte,
/// when the oldest sits at `start`.
pub open spec fn ring_slot(start: int, i: int, w: int) -> int {
    if start + i < w {
        start + i
    } else {
        start + i - w
    }
}

/// Tables needed for rolling CRCs over windows of one size.
#[derive(Clone, Debug)]
pub struct RollingCRCContext {
    /// Size of the window.
    window_size: usize,
    /// Standard CRC table.
    crc_table: CRCTable,
    /// Rolling table for this window size (all zero, and unused, for size 0).
    rolling_crc_table: CRCTable,
}

impl RollingCRCContext {
    /// The window size of this context.
    pub closed spec fn window(&self) -> nat {
        self.window_size as nat
    }

    /// The tables are the standard table and the rolling table of the window size.
    pub closed spec fn wf(&self) -> bool {
        &&& self.crc_table@ == crc_table_spec()
        &&& self.window_size >= 1 ==> self.rolling_crc_table@ == rolling_table_spec(
            crc_table_spec(),
            self.window_size as nat,
        )
    }

    /// Makes a context for this window size: builds the standard table, and
    /// the rolling table when the size is not zero.
    pub fn new(window_size: usize) -> (r: Self)
        ensures
            r.wf(),
            r.window() == window_size,
    {
        let mut crc_table: CRCTable = [0u32; 256];
        make_crc_table_fast(&mut crc_table, POLY_CRC);
        proof {
            lemma_table_equivalence();
        }
        let mut rolling_crc_table: CRCTable = [0u32; 256];
        if window_size >= 1 {
            make_rolling_crc_table(window_size, &crc_table, &mut rolling_crc_table);
        }
        RollingCRCContext { window_size, crc_table, rolling_crc_table }
    }

    /// The window size of this context.
    pub fn window_size(&self) -> (r: usize)
        ensures
            r == self.window(),
    {
        self.window_size
    }

    /// The standard (non-rolling) CRC-32 of the given bytes.
    pub fn crc(&self, bytes: &[u8]) -> (r: u32)
        requires
            self.wf(),
        ensures
            r == crc32(bytes@),
    {
        calc_crc(bytes, &self.crc_table)
    }
}

/// An in-progress rolling CRC over one stream.
#[derive(Clone)]
pub struct RollingCRC<'a> {
    /// Tables for the window size.
    context: &'a RollingCRCContext,
    /// Number of bytes pushed so far.
    count: usize,
    /// Bytes in the window, as a ring buffer once it is full.
    bytes: Vec<u8>,
    /// Slot of the oldest byte of a full window, the next to be replaced.
    index: usize,
    /// Open CRC of the current full window.
    last_crc: Option<u32>,
    /// Every byte pushed so far.
    history: Ghost<Seq<u8>>,
}

impl<'a> RollingCRC<'a> {
    /// The bytes pushed so far, in order.
    pub closed spec fn history(&self) -> Seq<u8> {
        self.history@
    }

    /// The window size of the context.
    pub closed spec fn window(&self) -> nat {
        self.context.window()
    }

    /// The engine's state agrees with its history: a window that is not yet
    /// full holds every byte read, a full one holds the last window-size
    /// bytes as a ring starting at `index`, with their open CRC.
    pub closed spec fn wf(&self) -> bool {
        let w = self.context.window_size as int;
        let h = self.history@;
        let c = self.count as int;
        &&& self.context.wf()
        &&& c == h.len()
        &&& w == 0 ==> self.bytes@.len() == 0 && self.last_crc is None
        &&& (w > 0 && c < w) ==> self.bytes@ == h && self.index == 0 && self.last_crc is None
        &&& (w > 0 && c >= w) ==> {
            &&& self.bytes@.len() == w
            &&& self.index < w
            &&& forall|i: int|
                0 <= i < w ==> #[trigger] self.bytes@[ring_slot(self.index as int, i, w)] == h[c
                    - w + i]
            &&& self.last_crc == Some(crc_open(crc_table_spec(), INIT_CRC, h.subrange(c - w, c)))
        }
    }

    /// Starts a rolling CRC in the given context. With a window size of 0
    /// it never returns a CRC.
    pub fn new(context: &'a RollingCRCContext) -> (r: Self)
        requires
            context.wf(),
        ensures
            r.wf(),
            r.history() == Seq::<u8>::empty(),
            r.window() == context.window(),
    {
        RollingCRC {
            context,
            count: 0,
            bytes: Vec::new(),
            index: 0,
            last_crc: None,
            history: Ghost(Seq::empty()),
        }
    }

    /// Number of bytes pushed so far.
    pub fn count(&self) -> (r: usize)
        requires
            self.wf(),
        ensures
            r == self.history().len(),
    {
        self.count
    }

    /// The window size of the context.
    pub fn context_window_size(&self) -> (r: usize)
        requires
            self.wf(),
        ensures
            r == self.window(),
    {
        self.context.window_size
    }

    /// Rolls one byte through: returns the CRC of the last window-size bytes
    /// once that many have been pushed, `None` before that or when the window
    /// size is 0.
    pub fn push(&mut self, byte: u8) -> (r: Option<u32>)
        requires
            old(self).wf(),
            old(self).history().len() < usize::MAX,
        ensures
            final(self).wf(),
            final(self).window() == old(self).window(),
            final(self).history() == old(self).history().push(byte),
            r == emitted(final(self).window(), final(self).history()),
    {
        let ghost h0 = self.history@;
        self.count = self.count + 1;
        self.history = Ghost(self.history@.push(byte));
        let ghost h = self.history@;
        let w = self.context.window_size;
        if w == 0 {
            return None;
        }
        if self.count < w {
            self.bytes.push(byte);
            return None;
        }
        if self.count == w {
            self.bytes.push(byte);
            let crc = self.context.crc(self.bytes.as_slice());
            proof {
                assert(h.subrange(0, w as int) =~= h);
                let o = crc_open(crc_table_spec(), INIT_CRC, h);
                assert(o ^ INIT_CRC ^ INIT_CRC == o) by (bit_vector);
                assert forall|i: int| 0 <= i < w implies #[trigger] self.bytes@[ring_slot(
                    0,
                    i,
                    w as int,
                )] == h[i] by {}
            }
            self.last_crc = Some(finish_crc(crc));
            return Some(crc);
        }
        let ghost c0 = h0.len() as int;
        let ghost win = h0.subrange(c0 - w, c0);
        let ghost idx = self.index as int;
        assert(self.bytes@[ring_slot(idx, 0, w as int)] == h0[c0 - w]);
        let roll_out = self.bytes[self.index];
        let last_crc = self.last_crc.unwrap();
        proof {
            lemma_standard_table_linear();
            lemma_roll(crc_table_spec(), win, byte);
            assert(win.drop_first().push(byte) =~= h.subrange(c0 + 1 - w, c0 + 1));
        }
        let crc = update_crc(last_crc, &self.context.crc_table, byte)
            ^ self.context.rolling_crc_table[roll_out as usize];
        let ghost old_bytes = self.bytes@;
        self.bytes.set(self.index, byte);
        self.index = self.index + 1;
        if self.index >= w {
            self.index = 0;
        }
        proof {
            let ni = self.index as int;
            assert forall|i: int| 0 <= i < w implies #[trigger] self.bytes@[ring_slot(
                ni,
                i,
                w as int,
            )] == h[c0 + 1 - w + i] by {
                if i < w - 1 {
                    assert(ring_slot(ni, i, w as int) == ring_slot(idx, i + 1, w as int));
                    assert(old_bytes[ring_slot(idx, i + 1, w as int)] == h0[c0 - w + i + 1]);
                } else {
                    assert(ring_slot(ni, i, w as int) == idx);
                }
            }
        }
        self.last_crc = Some(crc);
        Some(finish_crc(crc))
    }
}

} // verus!
