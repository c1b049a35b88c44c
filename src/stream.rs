//! Stream adapters: drive a rolling CRC over a queue of bytes (or of byte
//! results) and hand out `(position, CRC)` pairs, one window at a time.
use vstd::prelude::*;

use std::collections::VecDeque;

use crate::checksum::crc32;
use crate::rolling::{RollingCRC, emitted};

verus! {

/// The pairs that pushing `s`, byte by byte, into an engine that has already
/// read `h` hands out: for each push that yields a CRC, the position of the
/// first byte of its window and the CRC.
pub open spec fn pushes_output(w: nat, h: Seq<u8>, s: Seq<u8>) -> Seq<(int, u32)>
    decreases s.len(),
{
    if s.len() == 0 {
        Seq::empty()
    } else {
        let prev = pushes_output(w, h, s.drop_last());
        let hh = h + s;
        match emitted(w, hh) {
            Some(c) => prev.push((hh.len() - w, c)),
            None => prev,
        }
    }
}

/// The values of the `Ok` items of `s`, in order.
pub open spec fn oks<T, E>(s: Seq<Result<T, E>>) -> Seq<T>
    decreases s.len(),
{
    if s.len() == 0 {
        Seq::empty()
    } else {
        match s.last() {
            Ok(v) => oks(s.drop_last()).push(v),
            Err(_) => oks(s.drop_last()),
        }
    }
}

/// The errors of the `Err` items of `s`, in order.
pub open spec fn errs<T, E>(s: Seq<Result<T, E>>) -> Seq<E>
    decreases s.len(),
{
    if s.len() == 0 {
        Seq::empty()
    } else {
        match s.last() {
            Ok(_) => errs(s.drop_last()),
            Err(e) => errs(s.drop_last()).push(e),
        }
    }
}

/// What the error-preserving adapter hands out for the items `s`, after the
/// engine has read `h`: each error where it stands, and a pair for each byte
/// whose push yields a CRC. Errors are not pushed.
pub open spec fn results_output<E>(w: nat, h: Seq<u8>, s: Seq<Result<u8, E>>) -> Seq<
    Result<(int, u32), E>,
>
    decreases s.len(),
{
    if s.len() == 0 {
        Seq::empty()
    } else {
        let prev = results_output(w, h, s.drop_last());
        match s.last() {
            Err(e) => prev.push(Err(e)),
            Ok(_) => {
                let hh = h + oks(s);
                match emitted(w, hh) {
                    Some(c) => prev.push(Ok((hh.len() - w, c))),
                    None => prev,
                }
            },
        }
    }
}

/// Maps a queue of bytes to the positions and CRCs of its successive windows.
/// Made by `RollingCRC::iter`.
pub struct RollingCRCMap<'a> {
    rolling_crc: RollingCRC<'a>,
    bytes: VecDeque<u8>,
}

/// Maps a queue of byte results to the positions and CRCs of its successive
/// windows, handing errors on where they stand. Made by
/// `RollingCRC::iter_result`.
pub struct RollingCRCMapResult<'a, E> {
    rolling_crc: RollingCRC<'a>,
    bytes: VecDeque<Result<u8, E>>,
}

impl<'a> RollingCRC<'a> {
    /// An adapter that pushes the given bytes, in order, through this
    /// rolling CRC.
    pub fn iter(self, bytes: VecDeque<u8>) -> (r: RollingCRCMap<'a>)
        requires
            self.wf(),
            self.history().len() + bytes@.len() <= usize::MAX,
        ensures
            r.wf(),
            r.window() == self.window(),
            r.history() == self.history(),
            r.remaining() == bytes@,
    {
        RollingCRCMap { rolling_crc: self, bytes }
    }

    /// Like `iter`, over byte results: errors are handed on, not pushed.
    pub fn iter_result<E>(self, bytes: VecDeque<Result<u8, E>>) -> (r: RollingCRCMapResult<'a, E>)
        requires
            self.wf(),
            self.history().len() + bytes@.len() <= usize::MAX,
        ensures
            r.wf(),
            r.window() == self.window(),
            r.history() == self.history(),
            r.remaining() == bytes@,
    {
        RollingCRCMapResult { rolling_crc: self, bytes }
    }
}

impl<'a> RollingCRCMap<'a> {
    /// Bytes not yet pushed.
    pub closed spec fn remaining(&self) -> Seq<u8> {
        self.bytes@
    }

    /// Bytes pushed so far through the engine.
    pub closed spec fn history(&self) -> Seq<u8> {
        self.rolling_crc.history()
    }

    /// The window size of the engine.
    pub closed spec fn window(&self) -> nat {
        self.rolling_crc.window()
    }

    /// The engine is well formed, and its byte count cannot overflow while
    /// the remaining items are read.
    pub closed spec fn wf(&self) -> bool {
        &&& self.rolling_crc.wf()
        &&& self.rolling_crc.history().len() + self.bytes@.len() <= usize::MAX
    }

    /// Pushes bytes up to and including the next one that yields a CRC, and
    /// returns the position of that window's first byte with the CRC; `None`
    /// once the bytes run out without one.
    pub fn next(&mut self) -> (r: Option<(usize, u32)>)
        requires
            old(self).wf(),
        ensures
            final(self).wf(),
            final(self).window() == old(self).window(),
            ({
                let w = old(self).window();
                let h = old(self).history();
                let s = old(self).remaining();
                let k = s.len() - final(self).remaining().len();
                &&& 0 <= k <= s.len()
                &&& final(self).remaining() == s.subrange(k, s.len() as int)
                &&& final(self).history() == h + s.subrange(0, k)
                &&& match r {
                    Some(v) => {
                        &&& k > 0
                        &&& pushes_output(w, h, s.subrange(0, k - 1)) == Seq::<(int, u32)>::empty()
                        &&& pushes_output(w, h, s.subrange(0, k)) == seq![(v.0 as int, v.1)]
                    },
                    None => {
                        &&& k == s.len()
                        &&& pushes_output(w, h, s) == Seq::<(int, u32)>::empty()
                    },
                }
            }),
    {
        let ghost w = self.window();
        let ghost h0 = self.history();
        let ghost s0 = self.remaining();
        let ghost mut k: int = 0;
        let window_size = self.rolling_crc.context_window_size();
        loop
            invariant
                self.rolling_crc.wf(),
                self.window() == w,
                window_size == w,
                0 <= k <= s0.len(),
                self.bytes@ == s0.subrange(k, s0.len() as int),
                self.history() == h0 + s0.subrange(0, k),
                w == old(self).window(),
                h0 == old(self).history(),
                s0 == old(self).remaining(),
                pushes_output(w, h0, s0.subrange(0, k)) == Seq::<(int, u32)>::empty(),
                h0.len() + s0.len() <= usize::MAX,
            decreases self.bytes@.len(),
        {
            let next = self.bytes.pop_front();
            match next {
                None => {
                    assert(s0.subrange(0, k) =~= s0);
                    return None;
                },
                Some(byte) => {
                    let crc = self.rolling_crc.push(byte);
                    proof {
                        assert(s0.subrange(0, k + 1).drop_last() =~= s0.subrange(0, k));
                        assert((h0 + s0.subrange(0, k)).push(byte) =~= h0 + s0.subrange(0, k + 1));
                        assert(self.bytes@ =~= s0.subrange(k + 1, s0.len() as int));
                        k = k + 1;
                    }
                    match crc {
                        Some(c) => {
                            let index = self.rolling_crc.count() - window_size;
                            return Some((index, c));
                        },
                        None => {},
                    }
                },
            }
        }
    }
}

impl<'a, E> RollingCRCMapResult<'a, E> {
    /// Items not yet read.
    pub closed spec fn remaining(&self) -> Seq<Result<u8, E>> {
        self.bytes@
    }

    /// Bytes pushed so far through the engine.
    pub closed spec fn history(&self) -> Seq<u8> {
        self.rolling_crc.history()
    }

    /// The window size of the engine.
    pub closed spec fn window(&self) -> nat {
        self.rolling_crc.window()
    }

    /// The engine is well formed, and its byte count cannot overflow while
    /// the remaining items are read.
    pub closed spec fn wf(&self) -> bool {
        &&& self.rolling_crc.wf()
        &&& self.rolling_crc.history().len() + self.bytes@.len() <= usize::MAX
    }

    /// Reads items up to and including the next error, or the next byte
    /// that yields a CRC: hands on the error, or returns the position of that
    /// window's first byte with the CRC; `None` once the items run out
    /// without either.
    pub fn next(&mut self) -> (r: Option<Result<(usize, u32), E>>)
        requires
            old(self).wf(),
        ensures
            final(self).wf(),
            final(self).window() == old(self).window(),
            ({
                let w = old(self).window();
                let h = old(self).history();
                let s = old(self).remaining();
                let k = s.len() - final(self).remaining().len();
                &&& 0 <= k <= s.len()
                &&& final(self).remaining() == s.subrange(k, s.len() as int)
                &&& final(self).history() == h + oks(s.subrange(0, k))
                &&& match r {
                    Some(v) => {
                        &&& k > 0
                        &&& results_output(w, h, s.subrange(0, k - 1)) == Seq::<
                            Result<(int, u32), E>,
                        >::empty()
                        &&& results_output(w, h, s.subrange(0, k)) == seq![
                            match v {
                                Ok(p) => Ok((p.0 as int, p.1)),
                                Err(e) => Err(e),
                            },
                        ]
                    },
                    None => {
                        &&& k == s.len()
                        &&& results_output(w, h, s) == Seq::<Result<(int, u32), E>>::empty()
                    },
                }
            }),
    {
        let ghost w = self.window();
        let ghost h0 = self.history();
        let ghost s0 = self.remaining();
        let ghost mut k: int = 0;
        let window_size = self.rolling_crc.context_window_size();
        loop
            invariant
                self.rolling_crc.wf(),
                self.window() == w,
                window_size == w,
                0 <= k <= s0.len(),
                self.bytes@ == s0.subrange(k, s0.len() as int),
                self.history() == h0 + oks(s0.subrange(0, k)),
                oks(s0.subrange(0, k)).len() <= k,
                w == old(self).window(),
                h0 == old(self).history(),
                s0 == old(self).remaining(),
                results_output(w, h0, s0.subrange(0, k)) == Seq::<Result<(int, u32), E>>::empty(),
                h0.len() + s0.len() <= usize::MAX,
            decreases self.bytes@.len(),
        {
            let next = self.bytes.pop_front();
            match next {
                None => {
                    assert(s0.subrange(0, k) =~= s0);
                    return None;
                },
                Some(item) => {
                    proof {
                        assert(s0.subrange(0, k + 1).drop_last() =~= s0.subrange(0, k));
                        assert(self.bytes@ =~= s0.subrange(k + 1, s0.len() as int));
                        k = k + 1;
                        lemma_oks_len(s0.subrange(0, k));
                    }
                    match item {
                        Err(e) => {
                            return Some(Err(e));
                        },
                        Ok(byte) => {
                            let crc = self.rolling_crc.push(byte);
                            proof {
                                assert((h0 + oks(s0.subrange(0, k - 1))).push(byte) =~= h0 + oks(
                                    s0.subrange(0, k),
                                ));
                            }
                            match crc {
                                Some(c) => {
                                    let index = self.rolling_crc.count() - window_size;
                                    return Some(Ok((index, c)));
                                },
                                None => {},
                            }
                        },
                    }
                },
            }
        }
    }
}

proof fn lemma_oks_len<T, E>(s: Seq<Result<T, E>>)
    ensures
        oks(s).len() <= s.len(),
    decreases s.len(),
{
    if s.len() > 0 {
        lemma_oks_len(s.drop_last());
    }
}

/// The pairs that a fresh engine with window size `w` hands out over the
/// stream `s`: one per window, `(i, crc32(s[i .. i + w]))` for every `i`
/// from 0 to `s.len() - w`; none when `w` is 0 or exceeds the length.
pub open spec fn window_checksums(w: nat, s: Seq<u8>) -> Seq<(int, u32)> {
    let n: int = if w > 0 && s.len() >= w {
        s.len() - w + 1
    } else {
        0
    };
    Seq::new(n as nat, |i: int| (i, crc32(s.subrange(i, i + w))))
}

/// Rolling equals recomputing, with exact position accounting: over any
/// stream, a fresh engine hands out, in order, the CRC of each window at each
/// start position from 0 to `n - w`, and nothing when the window size is 0
/// or larger than the stream.
pub proof fn lemma_rolling_matches_recompute(w: nat, s: Seq<u8>)
    ensures
        pushes_output(w, Seq::empty(), s) == window_checksums(w, s),
    decreases s.len(),
{
    if s.len() > 0 {
        let p = s.drop_last();
        lemma_rolling_matches_recompute(w, p);
        assert(Seq::<u8>::empty() + s =~= s);
        let prev = window_checksums(w, p);
        let cur = window_checksums(w, s);
        assert forall|i: int| 0 <= i < prev.len() implies #[trigger] prev[i] == cur[i] by {
            assert(p.subrange(i, i + w) =~= s.subrange(i, i + w));
        }
        if w > 0 && s.len() >= w {
            assert(cur =~= prev.push((s.len() - w, crc32(s.subrange(s.len() - w, s.len() as int)))));
        } else {
            assert(cur =~= prev);
        }
    }
}

/// A window size of 0 never yields a CRC, however many bytes are pushed.
pub proof fn lemma_zero_window(h: Seq<u8>, s: Seq<u8>)
    ensures
        pushes_output(0, h, s) == Seq::<(int, u32)>::empty(),
    decreases s.len(),
{
    if s.len() > 0 {
        lemma_zero_window(h, s.drop_last());
    }
}

/// Reading a stream in two parts hands out the pairs of the first part, then
/// those of the second part read after it.
pub proof fn lemma_output_concat(w: nat, h: Seq<u8>, s1: Seq<u8>, s2: Seq<u8>)
    ensures
        pushes_output(w, h, s1 + s2) == pushes_output(w, h, s1) + pushes_output(w, h + s1, s2),
    decreases s2.len(),
{
    if s2.len() == 0 {
        assert(s1 + s2 =~= s1);
        assert(pushes_output(w, h, s1) + Seq::<(int, u32)>::empty() =~= pushes_output(w, h, s1));
    } else {
        lemma_output_concat(w, h, s1, s2.drop_last());
        assert((s1 + s2).drop_last() =~= s1 + s2.drop_last());
        assert(h + (s1 + s2) =~= (h + s1) + s2);
        let a = pushes_output(w, h, s1);
        let b = pushes_output(w, h + s1, s2.drop_last());
        let hh = (h + s1) + s2;
        match emitted(w, hh) {
            Some(c) => {
                assert(a + b.push((hh.len() - w, c)) =~= (a + b).push((hh.len() - w, c)));
            },
            None => {},
        }
    }
}

/// Errors pass through: the pairs that the error-preserving adapter hands
/// out are exactly those of the stream with its errors left out, and the
/// errors come out in their order, between them.
pub proof fn lemma_errors_pass_through<E>(w: nat, h: Seq<u8>, s: Seq<Result<u8, E>>)
    ensures
        oks(results_output(w, h, s)) == pushes_output(w, h, oks(s)),
        errs(results_output(w, h, s)) == errs(s),
    decreases s.len(),
{
    if s.len() > 0 {
        let p = s.drop_last();
        lemma_errors_pass_through(w, h, p);
        let prev = results_output(w, h, p);
        match s.last() {
            Err(e) => {
                assert(prev.push(Err(e)).drop_last() =~= prev);
            },
            Ok(b) => {
                assert(oks(s).drop_last() =~= oks(p));
                match emitted(w, h + oks(s)) {
                    Some(c) => {
                        assert(prev.push(Ok((h.len() + oks(s).len() - w, c))).drop_last() =~= prev);
                    },
                    None => {},
                }
            },
        }
    }
}

} // verus!
