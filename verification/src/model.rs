//! The mathematical model of the COBS wire format.
//!
//! An encoded frame is a sequence of blocks, each a length-code byte
//! followed by `code - 1` literal data bytes, closed by a single 0x00
//! terminator. A code `n < 255` stands for `n - 1` non-zero bytes followed by
//! an implicit zero (reinserted on decode except before the first block); the
//! code 255 stands for 254 non-zero bytes with no implicit zero.
//!
//! [`cobs_encode`] and [`cobs_parse`] define the codec as pure functions on
//! byte sequences; the executable encoder and decoder are proved against
//! them. [`lemma_encode_zero_free`] and [`lemma_round_trip`] state the two
//! central laws: the encoded frame holds no zero byte before its terminator,
//! and parsing an encoded frame gives back exactly the bytes that were
//! encoded.

use vstd::prelude::*;

verus! {

/// Length of the run of bytes that the encoder turns into the next block:
/// the longest prefix of `b` that holds no zero byte, capped at 254.
pub open spec fn run_len(b: Seq<u8>) -> int
    decreases b.len(),
{
    if b.len() == 0 || b[0] == 0 {
        0
    } else {
        let rest: int = run_len(b.skip(1));
        if rest >= 253 {
            254
        } else {
            1 + rest
        }
    }
}

/// What `run_len` yields: a value within bounds whose bytes are all
/// non-zero, stopped by the buffer's end, a zero byte, or the cap of 254.
pub proof fn lemma_run_len_bounds(b: Seq<u8>)
    ensures
        0 <= run_len(b) <= 254,
        run_len(b) <= b.len(),
        forall|i: int| 0 <= i < run_len(b) ==> b[i] != 0,
        run_len(b) < b.len() && run_len(b) < 254 ==> b[run_len(b)] == 0,
    decreases b.len(),
{
    if b.len() == 0 || b[0] == 0 {
    } else {
        lemma_run_len_bounds(b.skip(1));
        assert forall|i: int| 0 <= i < run_len(b) implies b[i] != 0 by {
            if i > 0 {
                assert(b.skip(1)[i - 1] == b[i]);
            }
        }
        if run_len(b) < b.len() && run_len(b) < 254 {
            assert(b.skip(1)[run_len(b) - 1] == b[run_len(b)]);
        }
    }
}

/// A length `n` that satisfies the run conditions is the run length: its
/// bytes are non-zero and it ends at the cap, the buffer's end, or a zero.
pub proof fn lemma_run_len_is(b: Seq<u8>, n: int)
    requires
        0 <= n <= 254,
        n <= b.len(),
        forall|i: int| 0 <= i < n ==> b[i] != 0,
        n == 254 || n == b.len() || b[n] == 0,
    ensures
        run_len(b) == n,
    decreases b.len(),
{
    if n == 0 {
        if b.len() > 0 && b[0] != 0 {
            assert(b[0] == 0);
        }
    } else {
        assert(b[0] != 0);
        assert forall|i: int| 0 <= i < n - 1 implies b.skip(1)[i] != 0 by {
            assert(b.skip(1)[i] == b[i + 1]);
        }
        if n < 254 && n < b.len() {
            assert(b.skip(1)[n - 1] == b[n]);
        }
        if n == 254 {
            if b.len() == n {
                lemma_run_len_is(b.skip(1), n - 1);
            } else {
                // The first 253 bytes behind b[0] are non-zero, so the run of
                // the remainder reaches at least 253, which saturates the cap.
                lemma_run_len_at_least(b.skip(1), 253);
            }
        } else {
            lemma_run_len_is(b.skip(1), n - 1);
        }
    }
}

/// A prefix of `n <= 254` non-zero bytes pushes the run length to at least `n`.
pub proof fn lemma_run_len_at_least(b: Seq<u8>, n: int)
    requires
        0 <= n <= 254,
        n <= b.len(),
        forall|i: int| 0 <= i < n ==> b[i] != 0,
    ensures
        run_len(b) >= n,
    decreases b.len(),
{
    lemma_run_len_bounds(b);
    if n > 0 {
        assert(b[0] != 0);
        assert forall|i: int| 0 <= i < n - 1 implies b.skip(1)[i] != 0 by {
            assert(b.skip(1)[i] == b[i + 1]);
        }
        lemma_run_len_at_least(b.skip(1), n - 1);
    }
}

/// The blocks that encode `b`: everything of the frame except the final
/// 0x00 terminator.
pub open spec fn encode_blocks(b: Seq<u8>) -> Seq<u8>
    decreases b.len(),
    via encode_blocks_decreases
{
    let n: int = run_len(b);
    let block = seq![(n + 1) as u8] + b.take(n);
    if n >= b.len() {
        block
    } else if n == 254 {
        block + encode_blocks(b.skip(n))
    } else {
        block + encode_blocks(b.skip(n + 1))
    }
}

#[via_fn]
proof fn encode_blocks_decreases(b: Seq<u8>) {
    lemma_run_len_bounds(b);
}

/// The complete encoded frame for the raw buffer `b`.
pub open spec fn cobs_encode(b: Seq<u8>) -> Seq<u8> {
    encode_blocks(b) + seq![0u8]
}

/// What the decoder's state machine makes of the stream `e`: `None` when the
/// stream runs dry before the terminator, otherwise the decoded bytes
/// together with the number of stream bytes consumed. `lead_zero` says
/// whether an implicit zero has to be reinserted before the next data block:
/// false at the start of a frame and after a 255 code, true after any other
/// code.
pub open spec fn parse_blocks(e: Seq<u8>, lead_zero: bool) -> Option<(Seq<u8>, int)>
    decreases e.len(),
{
    if e.len() == 0 {
        None
    } else {
        let code: int = e[0] as int;
        if code == 0 {
            Some((Seq::empty(), 1))
        } else if e.len() < code {
            None
        } else {
            let body = (if lead_zero {
                seq![0u8]
            } else {
                Seq::<u8>::empty()
            }) + e.subrange(1, code);
            match parse_blocks(e.skip(code), code != 255) {
                Some(p) => Some((body + p.0, code + p.1)),
                None => None,
            }
        }
    }
}

/// The decoded content and consumed length of the frame at the front of `e`,
/// if `e` holds a complete frame.
pub open spec fn cobs_parse(e: Seq<u8>) -> Option<(Seq<u8>, int)> {
    parse_blocks(e, false)
}

/// The encoded blocks of `b` hold no zero byte at all, so the frame's final
/// 0x00 terminator is its only zero (zero-freedom).
pub proof fn lemma_encode_blocks_zero_free(b: Seq<u8>)
    ensures
        forall|i: int| 0 <= i < encode_blocks(b).len() ==> encode_blocks(b)[i] != 0,
    decreases b.len(),
{
    lemma_run_len_bounds(b);
    let n: int = run_len(b);
    let block = seq![(n + 1) as u8] + b.take(n);
    assert forall|i: int| 0 <= i < block.len() implies block[i] != 0 by {
        if i > 0 {
            assert(block[i] == b[i - 1]);
        }
    }
    if n >= b.len() {
        assert(encode_blocks(b) == block);
    } else if n == 254 {
        lemma_encode_blocks_zero_free(b.skip(n));
        let rest = encode_blocks(b.skip(n));
        assert(encode_blocks(b) == block + rest);
        assert forall|i: int| 0 <= i < encode_blocks(b).len() implies encode_blocks(b)[i] != 0 by {
            if i < block.len() {
                assert(encode_blocks(b)[i] == block[i]);
            } else {
                assert(encode_blocks(b)[i] == rest[i - block.len()]);
            }
        }
    } else {
        lemma_encode_blocks_zero_free(b.skip(n + 1));
        let rest = encode_blocks(b.skip(n + 1));
        assert(encode_blocks(b) == block + rest);
        assert forall|i: int| 0 <= i < encode_blocks(b).len() implies encode_blocks(b)[i] != 0 by {
            if i < block.len() {
                assert(encode_blocks(b)[i] == block[i]);
            } else {
                assert(encode_blocks(b)[i] == rest[i - block.len()]);
            }
        }
    }
}

/// Zero-freedom of the whole frame: `cobs_encode(b)` ends in a single 0x00
/// byte and holds no other zero.
pub proof fn lemma_encode_zero_free(b: Seq<u8>)
    ensures
        cobs_encode(b).len() >= 2,
        cobs_encode(b)[cobs_encode(b).len() - 1] == 0,
        forall|i: int| 0 <= i < cobs_encode(b).len() - 1 ==> cobs_encode(b)[i] != 0,
{
    lemma_encode_blocks_zero_free(b);
    assert(encode_blocks(b).len() >= 1) by {
        lemma_run_len_bounds(b);
    }
    assert forall|i: int| 0 <= i < cobs_encode(b).len() - 1 implies cobs_encode(b)[i] != 0 by {
        assert(cobs_encode(b)[i] == encode_blocks(b)[i]);
    }
}

/// Parsing inverts encoding, block by block: with any `tail` behind the
/// frame, the parser takes back exactly `b` (behind the pending implicit
/// zero, when one is owed) and consumes exactly the frame.
proof fn lemma_parse_encode_blocks(b: Seq<u8>, tail: Seq<u8>, lead_zero: bool)
    ensures
        parse_blocks(encode_blocks(b) + seq![0u8] + tail, lead_zero) == Some((
            (if lead_zero {
                seq![0u8]
            } else {
                Seq::<u8>::empty()
            }) + b,
            encode_blocks(b).len() + 1int,
        )),
    decreases b.len(),
{
    lemma_run_len_bounds(b);
    let n: int = run_len(b);
    let lead = if lead_zero {
        seq![0u8]
    } else {
        Seq::<u8>::empty()
    };
    let e = encode_blocks(b) + seq![0u8] + tail;
    let code: int = n + 1;
    assert(e[0] == code as u8);
    assert(e[0] as int == code);
    if n >= b.len() {
        // A single final block: code byte, all of b, then the terminator.
        assert(n == b.len());
        assert(encode_blocks(b) == seq![(n + 1) as u8] + b.take(n));
        assert(b.take(n) == b);
        assert(e.len() == n + 2 + tail.len());
        assert(e.subrange(1, code) =~= b);
        assert(e.skip(code)[0] == e[code]);
        assert(e[code] == 0);
        assert(parse_blocks(e.skip(code), code != 255) == Some((Seq::<u8>::empty(), 1int)));
        assert((lead + e.subrange(1, code)) + Seq::<u8>::empty() =~= lead + b);
        assert(parse_blocks(e, lead_zero) == Some((lead + b, code + 1)));
    } else if n == 254 {
        let rest = b.skip(n);
        assert(encode_blocks(b) == (seq![(n + 1) as u8] + b.take(n)) + encode_blocks(rest));
        assert(e.subrange(1, code) =~= b.take(n));
        assert(e.skip(code) =~= encode_blocks(rest) + seq![0u8] + tail);
        lemma_parse_encode_blocks(rest, tail, false);
        assert(parse_blocks(e.skip(code), false) == Some((
            rest,
            encode_blocks(rest).len() + 1int,
        )));
        assert(code == 255);
        assert((lead + e.subrange(1, code)) + rest =~= lead + b);
        assert(code + (encode_blocks(rest).len() + 1) == encode_blocks(b).len() + 1);
    } else {
        // The run ended at a literal zero: b[n] == 0, encoded implicitly by
        // the block boundary.
        assert(b[n] == 0);
        let rest = b.skip(n + 1);
        assert(encode_blocks(b) == (seq![(n + 1) as u8] + b.take(n)) + encode_blocks(rest));
        assert(e.subrange(1, code) =~= b.take(n));
        assert(e.skip(code) =~= encode_blocks(rest) + seq![0u8] + tail);
        lemma_parse_encode_blocks(rest, tail, true);
        assert(parse_blocks(e.skip(code), true) == Some((
            seq![0u8] + rest,
            encode_blocks(rest).len() + 1int,
        )));
        assert(code != 255);
        assert((lead + e.subrange(1, code)) + (seq![0u8] + rest) =~= lead + b);
        assert(code + (encode_blocks(rest).len() + 1) == encode_blocks(b).len() + 1);
    }
}

/// The encoder's overhead is small: the whole frame is never longer than
/// the raw buffer plus one code byte per block plus the terminator, and so
/// at most twice the raw length plus two. Callers use this to discharge the
/// encoder's machine-limit precondition from the buffer's length alone.
pub proof fn lemma_encode_len_bound(b: Seq<u8>)
    ensures
        cobs_encode(b).len() <= 2 * b.len() + 2,
    decreases b.len(),
{
    lemma_run_len_bounds(b);
    let n: int = run_len(b);
    if n >= b.len() {
    } else if n == 254 {
        lemma_encode_len_bound(b.skip(n));
        assert(cobs_encode(b.skip(n)).len() == encode_blocks(b.skip(n)).len() + 1);
    } else {
        lemma_encode_len_bound(b.skip(n + 1));
        assert(cobs_encode(b.skip(n + 1)).len() == encode_blocks(b.skip(n + 1)).len() + 1);
    }
}

/// Round-trip identity: decoding the frame that encodes `b` yields exactly
/// `b` and consumes exactly the frame, for every byte sequence `b`,
/// including the empty one.
pub proof fn lemma_round_trip(b: Seq<u8>)
    ensures
        cobs_parse(cobs_encode(b)) == Some((b, cobs_encode(b).len() as int)),
{
    lemma_parse_encode_blocks(b, Seq::empty(), false);
    assert(encode_blocks(b) + seq![0u8] + Seq::<u8>::empty() =~= cobs_encode(b));
    assert(Seq::<u8>::empty() + b =~= b);
}

} // verus!
