//! Incremental decoder for inbound Git pkt-line streams.
//!
//! The decoder is fed byte chunks in any segmentation and yields one decoded
//! frame per `next` call: `Data`, `Flush`, `Delimiter`, or a protocol error.
//! Its behaviour is specified by `spec_items`, a function of the unconsumed
//! bytes alone, so the decoded sequence is independent of how the stream was
//! chunked (`lemma_chunk_independence`).
use vstd::prelude::*;

use crate::pkt_line::{encoded_frame, hex4_of, hex_digit};

verus! {

/// A decoded inbound frame.
#[derive(Debug, PartialEq)]
pub enum GitPacketLine {
    Data(Vec<u8>),
    Flush,
    Delimiter,
}

/// A framing error in the inbound stream.
#[derive(Clone, Copy, Debug, PartialEq, Eq, Structural)]
pub enum PktError {
    /// The 4 length bytes were not hex digits.
    InvalidHexLength,
    /// The length was the reserved value 2 or 3.
    InvalidFrame,
    /// The stream ended with bytes left in the buffer.
    UnexpectedEof,
}

/// A decoded frame or error at the specification level.
pub enum SpecItem {
    Data(Seq<u8>),
    Flush,
    Delimiter,
    Error(PktError),
}

/// The specification-level value of one decoder result.
pub open spec fn item_view(r: Result<GitPacketLine, PktError>) -> SpecItem {
    match r {
        Ok(GitPacketLine::Data(v)) => SpecItem::Data(v@),
        Ok(GitPacketLine::Flush) => SpecItem::Flush,
        Ok(GitPacketLine::Delimiter) => SpecItem::Delimiter,
        Err(e) => SpecItem::Error(e),
    }
}

/// Whether a byte is an ASCII hex digit (either case).
pub open spec fn is_hex(b: u8) -> bool {
    (0x30 <= b && b <= 0x39) || (0x61 <= b && b <= 0x66) || (0x41 <= b && b <= 0x46)
}

/// The value of one hex digit byte.
pub open spec fn hex_val(b: u8) -> nat
    recommends
        is_hex(b),
{
    if 0x30 <= b && b <= 0x39 {
        (b - 0x30) as nat
    } else if 0x61 <= b && b <= 0x66 {
        (b - 0x57) as nat
    } else {
        (b - 0x37) as nat
    }
}

/// Whether a 4-byte header consists of hex digits.
pub open spec fn header_is_hex(h: Seq<u8>) -> bool {
    h.len() == 4 && is_hex(h[0]) && is_hex(h[1]) && is_hex(h[2]) && is_hex(h[3])
}

/// The value of a 4-hex-digit header.
pub open spec fn header_val(h: Seq<u8>) -> nat
    recommends
        header_is_hex(h),
{
    hex_val(h[0]) * 4096 + hex_val(h[1]) * 256 + hex_val(h[2]) * 16 + hex_val(h[3])
}

/// The rank used to show the decoding recursion terminates.
pub open spec fn pending_rank(pending: Option<nat>) -> int {
    if pending is Some {
        1
    } else {
        0
    }
}

/// All frames decodable from the buffered bytes, given the payload length of
/// an already-parsed data header (`pending`), in order.  A data frame whose
/// payload is not fully buffered yields nothing yet.
pub open spec fn spec_items(buffer: Seq<u8>, pending: Option<nat>) -> Seq<SpecItem>
    decreases buffer.len(), pending_rank(pending),
{
    match pending {
        Some(m) => if buffer.len() >= m {
            seq![SpecItem::Data(buffer.take(m as int))] + spec_items(buffer.skip(m as int), None)
        } else {
            Seq::empty()
        },
        None => if buffer.len() < 4 {
            Seq::empty()
        } else {
            let h = buffer.take(4);
            let rest = buffer.skip(4);
            if !header_is_hex(h) {
                seq![SpecItem::Error(PktError::InvalidHexLength)] + spec_items(rest, None)
            } else {
                let n = header_val(h);
                if n == 0 {
                    seq![SpecItem::Flush] + spec_items(rest, None)
                } else if n == 1 {
                    seq![SpecItem::Delimiter] + spec_items(rest, None)
                } else if n < 4 {
                    seq![SpecItem::Error(PktError::InvalidFrame)] + spec_items(rest, None)
                } else {
                    spec_items(rest, Some((n - 4) as nat))
                }
            }
        },
    }
}

/// The stuck state left after decoding every complete frame: the bytes and
/// parsed header that still await more input.
pub open spec fn spec_leftover(buffer: Seq<u8>, pending: Option<nat>) -> (Seq<u8>, Option<nat>)
    decreases buffer.len(), pending_rank(pending),
{
    match pending {
        Some(m) => if buffer.len() >= m {
            spec_leftover(buffer.skip(m as int), None)
        } else {
            (buffer, pending)
        },
        None => if buffer.len() < 4 {
            (buffer, pending)
        } else {
            let h = buffer.take(4);
            let rest = buffer.skip(4);
            if !header_is_hex(h) {
                spec_leftover(rest, None)
            } else {
                let n = header_val(h);
                if n == 0 || n == 1 || n < 4 {
                    spec_leftover(rest, None)
                } else {
                    spec_leftover(rest, Some((n - 4) as nat))
                }
            }
        },
    }
}

fn is_hex_exec(b: u8) -> (r: bool)
    ensures
        r == is_hex(b),
{
    (0x30 <= b && b <= 0x39) || (0x61 <= b && b <= 0x66) || (0x41 <= b && b <= 0x46)
}

fn hex_val_exec(b: u8) -> (r: u8)
    requires
        is_hex(b),
    ensures
        r as nat == hex_val(b),
        r < 16,
{
    if 0x30 <= b && b <= 0x39 {
        b - 0x30
    } else if 0x61 <= b && b <= 0x66 {
        b - 0x57
    } else {
        b - 0x37
    }
}

/// Removes and returns the first `k` bytes of `v`.
fn split_front(v: &mut Vec<u8>, k: usize) -> (r: Vec<u8>)
    requires
        k <= old(v)@.len(),
    ensures
        r@ == old(v)@.take(k as int),
        final(v)@ == old(v)@.skip(k as int),
{
    let mut front: Vec<u8> = Vec::new();
    let mut i: usize = 0;
    while i < k
        invariant
            i <= k,
            k <= v@.len(),
            v@ == old(v)@,
            front@ == old(v)@.take(i as int),
        decreases k - i,
    {
        front.push(v[i]);
        i = i + 1;
        assert(front@ =~= old(v)@.take(i as int));
    }
    let mut rest: Vec<u8> = Vec::new();
    let mut j: usize = k;
    while j < v.len()
        invariant
            k <= j <= v@.len(),
            v@ == old(v)@,
            rest@ == old(v)@.subrange(k as int, j as int),
        decreases v@.len() - j,
    {
        rest.push(v[j]);
        j = j + 1;
        assert(rest@ =~= old(v)@.subrange(k as int, j as int));
    }
    assert(rest@ =~= old(v)@.skip(k as int));
    *v = rest;
    front
}

/// An incremental pkt-line decoder: a buffer of unconsumed bytes plus the
/// payload length of a data header that has been parsed but not yet satisfied.
pub struct PktDecoder {
    buffer: Vec<u8>,
    pending: Option<usize>,
}

impl View for PktDecoder {
    type V = (Seq<u8>, Option<nat>);

    closed spec fn view(&self) -> (Seq<u8>, Option<nat>) {
        (
            self.buffer@,
            match self.pending {
                Some(m) => Some(m as nat),
                None => None,
            },
        )
    }
}

impl PktDecoder {
    /// A decoder with nothing buffered.
    pub fn new() -> (r: PktDecoder)
        ensures
            r@.0 == Seq::<u8>::empty(),
            r@.1 is None,
    {
        PktDecoder { buffer: Vec::new(), pending: None }
    }

    /// Appends one received chunk to the buffer.
    pub fn feed(&mut self, chunk: &[u8])
        ensures
            final(self)@.0 == old(self)@.0 + chunk@,
            final(self)@.1 == old(self)@.1,
    {
        let mut i: usize = 0;
        while i < chunk.len()
            invariant
                i <= chunk@.len(),
                self.buffer@ == old(self)@.0 + chunk@.take(i as int),
                self.pending == old(self).pending,
            decreases chunk@.len() - i,
        {
            let b = chunk[i];
            self.buffer.push(b);
            i = i + 1;
            assert(self.buffer@ =~= old(self)@.0 + chunk@.take(i as int));
        }
        assert(self.buffer@ =~= old(self)@.0 + chunk@);
    }

    /// Decodes the next complete frame, if one is buffered.  `None` means
    /// more input is needed; the already-decodable frames and the stuck
    /// state are unchanged by the call.
    pub fn next(&mut self) -> (r: Option<Result<GitPacketLine, PktError>>)
        ensures
            ({
                let items = spec_items(old(self)@.0, old(self)@.1);
                &&& (match r {
                    Some(x) => items.len() > 0 && item_view(x) == items[0] && spec_items(
                        final(self)@.0,
                        final(self)@.1,
                    ) == items.drop_first(),
                    None => items.len() == 0 && spec_items(final(self)@.0, final(self)@.1) == items,
                })
                &&& spec_leftover(final(self)@.0, final(self)@.1) == spec_leftover(
                    old(self)@.0,
                    old(self)@.1,
                )
            }),
    {
        let ghost items0 = spec_items(old(self)@.0, old(self)@.1);
        if self.pending.is_none() && self.buffer.len() >= 4 {
            let b0 = self.buffer[0];
            let b1 = self.buffer[1];
            let b2 = self.buffer[2];
            let b3 = self.buffer[3];
            let ghost h = old(self)@.0.take(4);
            let ghost rest = old(self)@.0.skip(4);
            assert(h.len() == 4 && h[0] == b0 && h[1] == b1 && h[2] == b2 && h[3] == b3);
            if !(is_hex_exec(b0) && is_hex_exec(b1) && is_hex_exec(b2) && is_hex_exec(b3)) {
                let _ = split_front(&mut self.buffer, 4);
                proof {
                    assert(!header_is_hex(h));
                    assert(items0 == seq![SpecItem::Error(PktError::InvalidHexLength)]
                        + spec_items(rest, None));
                    assert(items0.drop_first() =~= spec_items(rest, None));
                }
                return Some(Err(PktError::InvalidHexLength));
            }
            let n: usize = (hex_val_exec(b0) as usize) * 4096 + (hex_val_exec(b1) as usize) * 256
                + (hex_val_exec(b2) as usize) * 16 + (hex_val_exec(b3) as usize);
            assert(header_is_hex(h) && n == header_val(h));
            let _ = split_front(&mut self.buffer, 4);
            if n == 0 {
                proof {
                    assert(items0 == seq![SpecItem::Flush] + spec_items(rest, None));
                    assert(items0.drop_first() =~= spec_items(rest, None));
                }
                return Some(Ok(GitPacketLine::Flush));
            } else if n == 1 {
                proof {
                    assert(items0 == seq![SpecItem::Delimiter] + spec_items(rest, None));
                    assert(items0.drop_first() =~= spec_items(rest, None));
                }
                return Some(Ok(GitPacketLine::Delimiter));
            } else if n < 4 {
                proof {
                    assert(items0 == seq![SpecItem::Error(PktError::InvalidFrame)] + spec_items(
                        rest,
                        None,
                    ));
                    assert(items0.drop_first() =~= spec_items(rest, None));
                }
                return Some(Err(PktError::InvalidFrame));
            } else {
                self.pending = Some(n - 4);
                assert(spec_items(self@.0, self@.1) == items0);
                assert(spec_leftover(self@.0, self@.1) == spec_leftover(old(self)@.0, old(self)@.1));
            }
        }
        assert(spec_items(self@.0, self@.1) == items0);
        assert(spec_leftover(self@.0, self@.1) == spec_leftover(old(self)@.0, old(self)@.1));
        let ghost buf1 = self@.0;
        match self.pending {
            Some(m) => {
                if self.buffer.len() >= m {
                    let data = split_front(&mut self.buffer, m);
                    self.pending = None;
                    proof {
                        assert(items0 == seq![SpecItem::Data(buf1.take(m as int))] + spec_items(
                            buf1.skip(m as int),
                            None,
                        ));
                        assert(items0.drop_first() =~= spec_items(buf1.skip(m as int), None));
                        assert(data@ == buf1.take(m as int));
                    }
                    Some(Ok(GitPacketLine::Data(data)))
                } else {
                    assert(items0 =~= Seq::<SpecItem>::empty());
                    None
                }
            },
            None => {
                assert(items0 =~= Seq::<SpecItem>::empty());
                None
            },
        }
    }

    /// The error to report when the byte stream has ended: end-of-stream with
    /// buffered bytes is an unexpected EOF; with an empty buffer it is a
    /// clean termination.
    pub fn eof_error(&self) -> (r: Option<PktError>)
        ensures
            r == if self@.0.len() > 0 {
                Some(PktError::UnexpectedEof)
            } else {
                None::<PktError>
            },
    {
        if self.buffer.len() > 0 {
            Some(PktError::UnexpectedEof)
        } else {
            None
        }
    }
}

/// The 4 hex digits written for a length parse back to that length.
pub proof fn lemma_hex4_val(n: u16)
    ensures
        header_is_hex(hex4_of(n)),
        header_val(hex4_of(n)) == n,
{
    let d0 = ((n >> 12) & 0xf) as u8;
    let d1 = ((n >> 8) & 0xf) as u8;
    let d2 = ((n >> 4) & 0xf) as u8;
    let d3 = (n & 0xf) as u8;
    assert(d0 < 16 && d1 < 16 && d2 < 16 && d3 < 16 && n == d0 * 4096 + d1 * 256 + d2 * 16
        + d3) by (bit_vector)
        requires
            d0 == ((n >> 12) & 0xf) as u8 && d1 == ((n >> 8) & 0xf) as u8 && d2 == ((n >> 4)
                & 0xf) as u8 && d3 == (n & 0xf) as u8,
    ;
    assert(is_hex(hex_digit(d0)) && hex_val(hex_digit(d0)) == d0);
    assert(is_hex(hex_digit(d1)) && hex_val(hex_digit(d1)) == d1);
    assert(is_hex(hex_digit(d2)) && hex_val(hex_digit(d2)) == d2);
    assert(is_hex(hex_digit(d3)) && hex_val(hex_digit(d3)) == d3);
}

/// Pkt-line round trip: a payload encoded as a single data frame decodes to
/// exactly that payload, with nothing left over.
pub proof fn lemma_round_trip(payload: Seq<u8>)
    requires
        payload.len() + 4 <= 0xffff,
    ensures
        spec_items(encoded_frame(payload), None) =~= seq![SpecItem::Data(payload)],
        spec_leftover(encoded_frame(payload), None) == (Seq::<u8>::empty(), None::<nat>),
{
    let n = (payload.len() + 4) as u16;
    let enc = encoded_frame(payload);
    lemma_hex4_val(n);
    assert(enc.take(4) =~= hex4_of(n));
    assert(enc.skip(4) =~= payload);
    assert(header_val(enc.take(4)) == payload.len() + 4);
    assert(spec_items(enc, None) == spec_items(payload, Some(payload.len())));
    assert(payload.take(payload.len() as int) =~= payload);
    assert(payload.skip(payload.len() as int) =~= Seq::<u8>::empty());
    assert(spec_items(payload, Some(payload.len())) =~= seq![SpecItem::Data(payload)] + spec_items(
        Seq::<u8>::empty(),
        None,
    ));
    assert(spec_items(Seq::<u8>::empty(), None) =~= Seq::<SpecItem>::empty());
    assert(spec_leftover(enc, None) == spec_leftover(payload, Some(payload.len())));
    assert(spec_leftover(payload, Some(payload.len())) == spec_leftover(
        payload.skip(payload.len() as int),
        None,
    ));
    assert(spec_leftover(payload.skip(payload.len() as int), None) == (
        payload.skip(payload.len() as int),
        None::<nat>,
    ));
}

/// Framing boundary independence: feeding more bytes extends the decoded
/// sequence exactly by what the stuck state plus the new bytes decode to, so
/// the frames produced depend only on the concatenation of all chunks, not
/// on where the stream was split.
pub proof fn lemma_chunk_independence(buffer: Seq<u8>, pending: Option<nat>, extra: Seq<u8>)
    ensures
        spec_items(buffer + extra, pending) =~= spec_items(buffer, pending) + spec_items(
            spec_leftover(buffer, pending).0 + extra,
            spec_leftover(buffer, pending).1,
        ),
        spec_leftover(buffer + extra, pending) == spec_leftover(
            spec_leftover(buffer, pending).0 + extra,
            spec_leftover(buffer, pending).1,
        ),
    decreases buffer.len(), pending_rank(pending),
{
    match pending {
        Some(m) => {
            if buffer.len() >= m {
                assert((buffer + extra).len() >= m);
                assert((buffer + extra).take(m as int) =~= buffer.take(m as int));
                assert((buffer + extra).skip(m as int) =~= buffer.skip(m as int) + extra);
                lemma_chunk_independence(buffer.skip(m as int), None, extra);
            } else {
                assert(spec_leftover(buffer, pending) == (buffer, pending));
                assert(spec_items(buffer, pending) =~= Seq::<SpecItem>::empty());
            }
        },
        None => {
            if buffer.len() < 4 {
                assert(spec_leftover(buffer, pending) == (buffer, pending));
                assert(spec_items(buffer, pending) =~= Seq::<SpecItem>::empty());
            } else {
                assert((buffer + extra).len() >= 4);
                assert((buffer + extra).take(4) =~= buffer.take(4));
                assert((buffer + extra).skip(4) =~= buffer.skip(4) + extra);
                let h = buffer.take(4);
                let rest = buffer.skip(4);
                if !header_is_hex(h) {
                    lemma_chunk_independence(rest, None, extra);
                } else {
                    let n = header_val(h);
                    if n < 4 {
                        lemma_chunk_independence(rest, None, extra);
                    } else {
                        lemma_chunk_independence(rest, Some((n - 4) as nat), extra);
                    }
                }
            }
        },
    }
}

} // verus!
