//! Encoder for Git pkt-line framing: each frame is a 4-digit lowercase hex
//! length prefix (payload length + 4) followed by the payload, with the
//! special frames `0000` (flush) and `0001` (delimiter).
use vstd::prelude::*;

verus! {

/// The lowercase hex digit for a nibble.
pub open spec fn hex_digit(n: u8) -> u8
    recommends
        n < 16,
{
    if n < 10 {
        (0x30 + n) as u8
    } else {
        (0x57 + n) as u8
    }
}

/// The 4 lowercase hex digits of a 16-bit length, most significant first.
pub open spec fn hex4_of(n: u16) -> Seq<u8> {
    seq![
        hex_digit(((n >> 12) & 0xf) as u8),
        hex_digit(((n >> 8) & 0xf) as u8),
        hex_digit(((n >> 4) & 0xf) as u8),
        hex_digit((n & 0xf) as u8),
    ]
}

/// The wire encoding of one data frame: hex length (payload + 4), then payload.
pub open spec fn encoded_frame(payload: Seq<u8>) -> Seq<u8>
    recommends
        payload.len() + 4 <= 0xffff,
{
    hex4_of((payload.len() + 4) as u16) + payload
}

/// The flush frame `0000`.
pub open spec fn flush_bytes() -> Seq<u8> {
    seq![0x30u8, 0x30u8, 0x30u8, 0x30u8]
}

/// The delimiter frame `0001`.
pub open spec fn delim_bytes() -> Seq<u8> {
    seq![0x30u8, 0x30u8, 0x30u8, 0x31u8]
}

fn hex_digit_exec(n: u8) -> (r: u8)
    requires
        n < 16,
    ensures
        r == hex_digit(n),
{
    if n < 10 {
        0x30 + n
    } else {
        0x57 + n
    }
}

/// An outbound pkt-line message under construction.
pub struct PktLine {
    data: Vec<u8>,
}

impl View for PktLine {
    type V = Seq<u8>;

    closed spec fn view(&self) -> Seq<u8> {
        self.data@
    }
}

impl PktLine {
    /// An empty message.
    pub fn new() -> (r: PktLine)
        ensures
            r@ == Seq::<u8>::empty(),
    {
        PktLine { data: Vec::new() }
    }

    /// Appends one data frame: the 4-hex-digit length `payload + 4`, then the
    /// payload verbatim.
    pub fn add(self, data: &[u8]) -> (r: Self)
        requires
            data@.len() + 4 <= 0xffff,
        ensures
            r@ == self@ + encoded_frame(data@),
    {
        let mut buf = self.data;
        let n: u16 = (data.len() + 4) as u16;
        let d0: u8 = ((n >> 12) & 0xf) as u8;
        let d1: u8 = ((n >> 8) & 0xf) as u8;
        let d2: u8 = ((n >> 4) & 0xf) as u8;
        let d3: u8 = (n & 0xf) as u8;
        assert(d0 < 16 && d1 < 16 && d2 < 16 && d3 < 16) by (bit_vector)
            requires
                d0 == ((n >> 12) & 0xf) as u8 && d1 == ((n >> 8) & 0xf) as u8 && d2 == ((n >> 4)
                    & 0xf) as u8 && d3 == (n & 0xf) as u8,
        ;
        buf.push(hex_digit_exec(d0));
        buf.push(hex_digit_exec(d1));
        buf.push(hex_digit_exec(d2));
        buf.push(hex_digit_exec(d3));
        let ghost after_header = self.data@ + hex4_of(n);
        assert(buf@ =~= after_header);
        let mut i: usize = 0;
        while i < data.len()
            invariant
                i <= data@.len(),
                buf@ == after_header + data@.take(i as int),
            decreases data@.len() - i,
        {
            buf.push(data[i]);
            i = i + 1;
            assert(buf@ =~= after_header + data@.take(i as int));
        }
        assert(buf@ =~= self@ + encoded_frame(data@));
        PktLine { data: buf }
    }

    /// Appends the flush frame `0000`.
    pub fn flush(self) -> (r: Self)
        ensures
            r@ == self@ + flush_bytes(),
    {
        let mut buf = self.data;
        buf.push(0x30);
        buf.push(0x30);
        buf.push(0x30);
        buf.push(0x30);
        assert(buf@ =~= self@ + flush_bytes());
        PktLine { data: buf }
    }

    /// Appends the delimiter frame `0001`.
    pub fn delimit(self) -> (r: Self)
        ensures
            r@ == self@ + delim_bytes(),
    {
        let mut buf = self.data;
        buf.push(0x30);
        buf.push(0x30);
        buf.push(0x30);
        buf.push(0x31);
        assert(buf@ =~= self@ + delim_bytes());
        PktLine { data: buf }
    }

    /// Returns the accumulated bytes.
    pub fn take(self) -> (r: Vec<u8>)
        ensures
            r@ == self@,
    {
        self.data
    }
}

} // verus!
