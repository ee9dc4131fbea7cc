//! The COBS decoder and the source capability it reads from.

use vstd::prelude::*;

use crate::model::{cobs_parse, parse_blocks};
use crate::statistics::{counter_after, CobsStatistics};

verus! {

/// The source capability the decoder reads from. `pending()` is the model
/// of the source: every byte it can still deliver, in order. A successful
/// `recv` call must deliver exactly the requested count of bytes, taken from
/// the front of `pending()`; a source that cannot supply the full count
/// signals failure and delivers nothing.
pub trait CobsReceiverOperation {
    /// All bytes the source can still deliver, in order.
    spec fn pending(&self) -> Seq<u8>;

    /// Requests exactly `len` bytes. On success the returned buffer holds
    /// the first `len` pending bytes, which are consumed; on failure
    /// nothing is consumed.
    fn recv(&mut self, len: usize) -> (r: Option<Vec<u8>>)
        ensures
            match r {
                Some(v) => {
                    &&& len <= old(self).pending().len()
                    &&& v@ == old(self).pending().take(len as int)
                    &&& final(self).pending() == old(self).pending().skip(len as int)
                },
                None => final(self).pending() == old(self).pending(),
            },
    ;
}

/// A source that serves a memory buffer. A request that reaches past the
/// end of the buffer fails outright rather than answering short, so a
/// truncated frame makes the decoder fail instead of desynchronizing.
pub struct Mem2Recv {
    data: Vec<u8>,
    offset: usize,
}

impl Mem2Recv {
    pub fn new(pattern: &[u8]) -> (r: Mem2Recv)
        ensures
            r.pending() == pattern@,
    {
        let r = Mem2Recv { data: vstd::slice::slice_to_vec(pattern), offset: 0 };
        proof {
            assert(r.data@.skip(0) =~= pattern@);
        }
        r
    }
}

impl CobsReceiverOperation for Mem2Recv {
    closed spec fn pending(&self) -> Seq<u8> {
        if self.offset <= self.data@.len() {
            self.data@.skip(self.offset as int)
        } else {
            Seq::empty()
        }
    }

    fn recv(&mut self, len: usize) -> (r: Option<Vec<u8>>) {
        if len > self.data.len() || self.offset > self.data.len() - len {
            return None;
        }
        let chunk = vstd::slice::slice_subrange(self.data.as_slice(), self.offset, self.offset
            + len);
        let out = vstd::slice::slice_to_vec(chunk);
        proof {
            assert(out@ =~= old(self).pending().take(len as int));
            assert(self.data@.skip(self.offset + len) =~= old(self).pending().skip(len as int));
        }
        self.offset = self.offset + len;
        Some(out)
    }
}

/// Decodes one COBS frame pulled from the bound source, keeping cumulative
/// statistics.
pub struct CobsReceiver<R: CobsReceiverOperation> {
    stats: CobsStatistics,
    receiver: R,
}

impl<R: CobsReceiverOperation> CobsReceiver<R> {
    /// The statistics counter of this decoder.
    pub closed spec fn spec_stats(&self) -> CobsStatistics {
        self.stats
    }

    /// The source this decoder is bound to.
    pub closed spec fn spec_source(&self) -> R {
        self.receiver
    }

    /// Binds a new decoder, with zeroed statistics, to `receiver`.
    pub fn new(receiver: R) -> (r: CobsReceiver<R>)
        ensures
            r.spec_source() == receiver,
            r.spec_stats().raw_total() == 0,
            r.spec_stats().encoded_total() == 0,
    {
        CobsReceiver { stats: CobsStatistics::new(), receiver }
    }

    /// The cumulative statistics of all completed `recv` calls.
    pub fn stats(&self) -> (r: &CobsStatistics)
        ensures
            *r == self.spec_stats(),
    {
        &self.stats
    }

    /// Pulls one whole frame from the source and reconstructs the raw
    /// buffer it encodes: code bytes steer the state machine, each block's
    /// data bytes are appended, and an implicit zero is reinserted before
    /// every block except the first and those after a 255 code. On success
    /// the result and the bytes consumed are exactly what
    /// `cobs_parse` gives for the source's pending bytes — a function of
    /// those bytes alone, so identical streams decode identically — and the
    /// statistics grow by the decoded and consumed byte counts. Any failed
    /// source read aborts the call at once, and the statistics do not move.
    pub fn recv(&mut self) -> (r: Option<Vec<u8>>)
        requires
            old(self).spec_source().pending().len() <= usize::MAX,
        ensures
            match r {
                Some(v) => {
                    &&& cobs_parse(old(self).spec_source().pending()) is Some
                    &&& v@ == cobs_parse(old(self).spec_source().pending()).unwrap().0
                    &&& final(self).spec_source().pending() == old(
                        self,
                    ).spec_source().pending().skip(
                        cobs_parse(old(self).spec_source().pending()).unwrap().1,
                    )
                    &&& final(self).spec_stats().raw_total() == counter_after(
                        old(self).spec_stats().raw_total(),
                        v@.len() as int,
                    )
                    &&& final(self).spec_stats().encoded_total() == counter_after(
                        old(self).spec_stats().encoded_total(),
                        cobs_parse(old(self).spec_source().pending()).unwrap().1,
                    )
                },
                None => final(self).spec_stats() == old(self).spec_stats(),
            },
    {
        let ghost stream = self.receiver.pending();
        let mut data: Vec<u8> = Vec::new();
        let mut encoded: usize = 0;
        let mut lead = false;

        proof {
            assert(stream.skip(0) =~= stream);
        }

        loop
            invariant_except_break
                parse_blocks(stream, false) == (match parse_blocks(
                    stream.skip(encoded as int),
                    lead,
                ) {
                    Some(p) => Some((data@ + p.0, encoded + p.1)),
                    None => None::<(Seq<u8>, int)>,
                }),
            invariant
                encoded <= stream.len(),
                stream.len() <= usize::MAX,
                self.receiver.pending() == stream.skip(encoded as int),
                self.stats == old(self).stats,
                stream == old(self).spec_source().pending(),
            ensures
                cobs_parse(stream) == Some((data@, encoded as int)),
                self.receiver.pending() == stream.skip(encoded as int),
                self.stats == old(self).stats,
            decreases stream.len() - encoded,
        {
            let ghost at_top = stream.skip(encoded as int);
            let ghost enc0: int = encoded as int;
            let ghost data0 = data@;
            let cbuf = match self.receiver.recv(1) {
                Some(v) => v,
                None => {
                    return None;
                },
            };
            let c: u8 = cbuf[0];
            proof {
                assert(cbuf@ == at_top.take(1));
                assert(at_top.take(1)[0] == at_top[0]);
                assert(at_top.skip(1) =~= stream.skip(encoded as int + 1));
            }
            encoded = encoded + 1;

            if c == 0 {
                proof {
                    assert(parse_blocks(at_top, lead) == Some((Seq::<u8>::empty(), 1int)));
                    assert(data@ + Seq::<u8>::empty() =~= data@);
                }
                break;
            }

            if lead {
                data.push(0);
            }

            if c > 1 {
                let want: usize = (c - 1) as usize;
                let mut dbuf = match self.receiver.recv(want) {
                    Some(v) => v,
                    None => {
                        return None;
                    },
                };
                proof {
                    assert(dbuf@ == stream.skip(encoded as int).take(want as int));
                    assert(stream.skip(encoded as int) =~= at_top.skip(1));
                }
                data.append(&mut dbuf);
                proof {
                    assert(stream.skip(encoded as int).skip(want as int) =~= stream.skip(
                        encoded as int + want as int,
                    ));
                }
                encoded = encoded + want;
            }

            proof {
                let code: int = c as int;
                // One unfolding of parse_blocks at the block that was just
                // consumed carries the loop's main invariant forward.
                assert(at_top[0] == c);
                assert(at_top.len() >= code);
                let body = (if lead {
                    seq![0u8]
                } else {
                    Seq::<u8>::empty()
                }) + at_top.subrange(1, code);
                assert(at_top.subrange(1, code) =~= at_top.skip(1).take(code - 1));
                assert(parse_blocks(at_top, lead) == (match parse_blocks(
                    at_top.skip(code),
                    code != 255,
                ) {
                    Some(p) => Some((body + p.0, code + p.1)),
                    None => None::<(Seq<u8>, int)>,
                }));
                assert(at_top.skip(code) =~= stream.skip(encoded as int));
                assert(data@ =~= data0 + body);
                assert(encoded == enc0 + code);
                match parse_blocks(at_top.skip(code), code != 255) {
                    Some(p) => {
                        assert(data0 + (body + p.0) =~= data@ + p.0);
                    },
                    None => {},
                }
            }

            lead = c != 0xff;
        }

        self.stats.update(data.len(), encoded);

        Some(data)
    }
}

} // verus!
