//! The COBS encoder and the sink capability it writes through.

use vstd::prelude::*;

use crate::model::{cobs_encode, encode_blocks, lemma_run_len_is};
use crate::statistics::{counter_after, CobsStatistics};

verus! {

/// The sink capability the encoder writes through. `accepted()` is the
/// model of the sink: every byte it has durably taken so far, in order. A
/// successful `send` call must accept the entire chunk offered in that call;
/// a failing call promises nothing about the sink's state.
pub trait CobsSenderOperation {
    /// All bytes the sink has accepted so far, in order.
    spec fn accepted(&self) -> Seq<u8>;

    /// Offers `buf` to the sink. On success the whole chunk was taken and
    /// its length is returned; on failure the write could not be completed.
    fn send(&mut self, buf: &[u8]) -> (r: Option<usize>)
        ensures
            r is Some ==> final(self).accepted() == old(self).accepted() + buf@ && r == Some(
                buf@.len() as usize,
            ),
    ;
}

/// A sink that collects everything into a memory buffer and never fails.
pub struct Send2Mem {
    data: Vec<u8>,
}

impl Send2Mem {
    pub fn new() -> (r: Send2Mem)
        ensures
            r.accepted() == Seq::<u8>::empty(),
    {
        Send2Mem { data: Vec::new() }
    }

    /// The bytes accepted so far.
    pub fn data(&self) -> (r: &Vec<u8>)
        ensures
            r@ == self.accepted(),
    {
        &self.data
    }
}

impl CobsSenderOperation for Send2Mem {
    closed spec fn accepted(&self) -> Seq<u8> {
        self.data@
    }

    fn send(&mut self, buf: &[u8]) -> (r: Option<usize>) {
        let mut i: usize = 0;
        while i < buf.len()
            invariant
                i <= buf@.len(),
                self.data@ == old(self).data@ + buf@.take(i as int),
            decreases buf@.len() - i,
        {
            self.data.push(buf[i]);
            proof {
                assert(self.data@ =~= old(self).data@ + buf@.take(i as int + 1));
            }
            i = i + 1;
        }
        proof {
            assert(buf@.take(buf@.len() as int) =~= buf@);
        }
        Some(buf.len())
    }
}

/// Encodes raw buffers into COBS frames, delivering each frame to the bound
/// sink and keeping cumulative statistics.
pub struct CobsSender<S: CobsSenderOperation> {
    stats: CobsStatistics,
    sender: S,
}

impl<S: CobsSenderOperation> CobsSender<S> {
    /// The statistics counter of this encoder.
    pub closed spec fn spec_stats(&self) -> CobsStatistics {
        self.stats
    }

    /// The sink this encoder is bound to.
    pub closed spec fn spec_sink(&self) -> S {
        self.sender
    }

    /// Binds a new encoder, with zeroed statistics, to `sender`.
    pub fn new(sender: S) -> (r: CobsSender<S>)
        ensures
            r.spec_sink() == sender,
            r.spec_stats().raw_total() == 0,
            r.spec_stats().encoded_total() == 0,
    {
        CobsSender { stats: CobsStatistics::new(), sender }
    }

    /// The cumulative statistics of all completed `send` calls.
    pub fn stats(&self) -> (r: &CobsStatistics)
        ensures
            *r == self.spec_stats(),
    {
        &self.stats
    }

    /// The sink this encoder writes through.
    pub fn sink(&self) -> (r: &S)
        ensures
            *r == self.spec_sink(),
    {
        &self.sender
    }

    /// Encodes `buf` as one COBS frame and writes it to the sink: the
    /// length-code and data bytes of each block, then the single 0x00
    /// terminator. On success the sink has accepted exactly
    /// `cobs_encode(buf@)` and the returned count is that frame's length;
    /// the statistics then grow by the raw and encoded byte counts of this
    /// call. The frame is a function of `buf` alone, so two calls with the
    /// same buffer deliver byte-identical frames. A sink failure aborts the
    /// call at once: bytes already accepted stay with the sink, and the
    /// statistics do not move.
    pub fn send(&mut self, buf: &[u8]) -> (r: Option<usize>)
        requires
            cobs_encode(buf@).len() <= usize::MAX,
        ensures
            match r {
                Some(total) => {
                    &&& total == cobs_encode(buf@).len()
                    &&& final(self).spec_sink().accepted() == old(self).spec_sink().accepted()
                        + cobs_encode(buf@)
                    &&& final(self).spec_stats().raw_total() == counter_after(
                        old(self).spec_stats().raw_total(),
                        buf@.len() as int,
                    )
                    &&& final(self).spec_stats().encoded_total() == counter_after(
                        old(self).spec_stats().encoded_total(),
                        cobs_encode(buf@).len() as int,
                    )
                },
                None => final(self).spec_stats() == old(self).spec_stats(),
            },
    {
        let ghost base = self.sender.accepted();
        let ghost whole = encode_blocks(buf@);
        let mut total: usize = 0;
        let mut i: usize = 0;
        let ghost mut done: Seq<u8> = Seq::empty();
        proof {
            assert(buf@.skip(0) =~= buf@);
            assert(done + encode_blocks(buf@.skip(0)) =~= whole);
        }

        loop
            invariant_except_break
                done + encode_blocks(buf@.skip(i as int)) == whole,
            invariant
                i <= buf@.len(),
                self.sender.accepted() == base + done,
                total == done.len(),
                whole == encode_blocks(buf@),
                whole.len() + 1 <= usize::MAX,
                self.stats == old(self).stats,
                base == old(self).sender.accepted(),
            ensures
                done == whole,
                total == done.len(),
                self.sender.accepted() == base + done,
                self.stats == old(self).stats,
            decreases buf@.len() - i,
        {
            let mut code: u8 = 1;
            let start: usize = i;

            while i < buf.len() && buf[i] != 0 && code != 0xff
                invariant
                    start <= i <= buf@.len(),
                    code == i - start + 1,
                    1 <= code <= 255,
                    forall|j: int| start <= j < i ==> buf@[j] != 0,
                decreases buf@.len() - i,
            {
                code = code + 1;
                i = i + 1;
            }

            proof {
                let s = buf@.skip(start as int);
                let n: int = i - start;
                assert forall|j: int| 0 <= j < n implies s[j] != 0 by {
                    assert(s[j] == buf@[j + start]);
                }
                if !(n == 254 || n == s.len()) {
                    assert(buf@[i as int] == 0);
                    assert(s[n as int] == buf@[i as int]);
                }
                lemma_run_len_is(s, n as int);
            }

            let code_chunk: [u8; 1] = [code];
            match self.sender.send(code_chunk.as_slice()) {
                Some(_) => {},
                None => {
                    return None;
                },
            }

            if code > 0x01 {
                let data = vstd::slice::slice_subrange(buf, start, i);
                match self.sender.send(data) {
                    Some(_) => {},
                    None => {
                        return None;
                    },
                }
            }

            proof {
                let s = buf@.skip(start as int);
                let n: int = i - start;
                let block = seq![(n + 1) as u8] + s.take(n as int);
                assert(code_chunk@ =~= seq![(n + 1) as u8]);
                assert(s.take(n as int) =~= buf@.subrange(start as int, i as int));
                if code > 1 {
                    assert(self.sender.accepted() =~= base + done + block);
                } else {
                    assert(block =~= code_chunk@);
                    assert(self.sender.accepted() =~= base + done + block);
                }
                done = done + block;
                assert(self.sender.accepted() =~= base + done);
                // One unfolding of encode_blocks at the current scan position
                // carries the loop's main invariant to the next run.
                if n >= s.len() {
                    assert(encode_blocks(s) == block);
                } else if n == 254 {
                    assert(encode_blocks(s) == block + encode_blocks(s.skip(n as int)));
                } else {
                    assert(s[n as int] == 0);
                    assert(encode_blocks(s) == block + encode_blocks(s.skip(n + 1)));
                }
                assert(done.len() == total + code);
                assert(done.len() <= whole.len()) by {
                    if n >= s.len() {
                        assert(done == whole);
                    } else if n == 254 {
                        assert(done + encode_blocks(s.skip(n as int)) == whole);
                        assert(s.skip(n as int) =~= buf@.skip(i as int));
                    } else {
                        assert(done + encode_blocks(s.skip(n + 1)) == whole);
                    }
                }
            }
            total = total + code as usize;

            if i >= buf.len() {
                proof {
                    let s = buf@.skip(start as int);
                    assert(s.len() == i - start);
                    assert(done == whole);
                }
                break;
            }

            if buf[i] == 0 && code < 0xff {
                proof {
                    let s = buf@.skip(start as int);
                    let n: int = i - start;
                    assert(s.skip(n + 1) =~= buf@.skip(i + 1));
                    assert(done + encode_blocks(buf@.skip(i as int + 1)) =~= whole);
                }
                i = i + 1;
            } else {
                proof {
                    let s = buf@.skip(start as int);
                    let n: int = i - start;
                    assert(n == 254);
                    assert(s.skip(n as int) =~= buf@.skip(i as int));
                    assert(done + encode_blocks(buf@.skip(i as int)) =~= whole);
                }
            }
        }

        let term_chunk: [u8; 1] = [0u8];
        match self.sender.send(term_chunk.as_slice()) {
            Some(_) => {},
            None => {
                return None;
            },
        }
        proof {
            assert(term_chunk@ =~= seq![0u8]);
            assert(self.sender.accepted() =~= base + cobs_encode(buf@));
        }
        total = total + 1;

        self.stats.update(buf.len(), total);

        Some(total)
    }
}

} // verus!
