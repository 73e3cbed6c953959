//! Side-band demultiplexing: inside a pack response, the first byte of each
//! data frame selects a channel (1 = pack bytes, 2 = progress text,
//! 3 = error text); anything else is passed through unrecognized.
use vstd::prelude::*;

use crate::text::{all_ascii, ascii_chars, lossy_of, utf8_lossy};

verus! {

/// A demultiplexed inner frame of a pack response.
#[derive(Debug, PartialEq)]
pub enum SideBand {
    PackData(Vec<u8>),
    Progress(String),
    ErrorMessage(String),
    Unknown(Vec<u8>),
}

fn tail_of(v: &Vec<u8>) -> (r: Vec<u8>)
    requires
        v@.len() >= 1,
    ensures
        r@ == v@.skip(1),
{
    let mut out: Vec<u8> = Vec::new();
    let mut i: usize = 1;
    while i < v.len()
        invariant
            1 <= i <= v@.len(),
            out@ == v@.subrange(1, i as int),
        decreases v@.len() - i,
    {
        out.push(v[i]);
        i = i + 1;
        assert(out@ =~= v@.subrange(1, i as int));
    }
    assert(out@ =~= v@.skip(1));
    out
}

impl SideBand {
    /// Interprets byte 0 of a data frame as the side-band channel.
    pub fn from(data: Vec<u8>) -> (r: SideBand)
        ensures
            ({
                let d = data@;
                if d.len() == 0 {
                    r matches SideBand::Unknown(b) && b@ == d
                } else if d[0] == 1 {
                    r matches SideBand::PackData(p) && p@ == d.skip(1)
                } else if d[0] == 2 {
                    r matches SideBand::Progress(s) && s@ == lossy_of(d.skip(1)) && (all_ascii(
                        d.skip(1),
                    ) ==> s@ == ascii_chars(d.skip(1)))
                } else if d[0] == 3 {
                    r matches SideBand::ErrorMessage(s) && s@ == lossy_of(d.skip(1)) && (all_ascii(
                        d.skip(1),
                    ) ==> s@ == ascii_chars(d.skip(1)))
                } else {
                    r matches SideBand::Unknown(b) && b@ == d
                }
            }),
    {
        if data.len() == 0 {
            return SideBand::Unknown(data);
        }
        let channel = data[0];
        if channel == 1 {
            SideBand::PackData(tail_of(&data))
        } else if channel == 2 {
            let payload = tail_of(&data);
            SideBand::Progress(utf8_lossy(payload.as_slice()))
        } else if channel == 3 {
            let payload = tail_of(&data);
            SideBand::ErrorMessage(utf8_lossy(payload.as_slice()))
        } else {
            SideBand::Unknown(data)
        }
    }
}

} // verus!
