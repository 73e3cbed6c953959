//! The Smart-HTTP v2 protocol driver's wire logic: building `ls-refs` and
//! `fetch` request bodies, parsing `ls-refs` responses into ref records, and
//! the state machine that consumes a `fetch` response (shallow-info,
//! side-band pack data, unknown sections).  The caller performs the HTTP
//! exchange and feeds the decoded frames through these functions.
use vstd::prelude::*;

use crate::decoder::{GitPacketLine, SpecItem};
use crate::pkt_line::{delim_bytes, encoded_frame, flush_bytes, PktLine};
use crate::shallow::{delta_add, delta_sha, ShallowInfo};
use crate::sideband::SideBand;
use crate::text::{
    has_prefix, lossy_of, spec_split, split_char, strip_lf, strip_prefix, usize_to_string,
    utf8_bytes, utf8_lossy, utf8_of, without_lf, decimal_of,
};

verus! {

/// A remote ref record from `ls-refs`.
#[derive(Debug, Clone)]
pub struct RefInfo {
    pub sha: String,
    pub refname: String,
    pub peeled: Option<String>,
}

/// The mathematical content of a ref record.
pub open spec fn ref_view(r: RefInfo) -> (Seq<char>, Seq<char>, Option<Seq<char>>) {
    (
        r.sha@,
        r.refname@,
        match r.peeled {
            Some(p) => Some(p@),
            None => None,
        },
    )
}

/// What one `ls-refs` data frame parses to: after stripping a trailing line
/// feed, 2 fields are sha and refname; 3 fields add a `peeled:` attribute;
/// anything else is skipped.
pub open spec fn spec_ref_line(bytes: Seq<u8>) -> Option<(Seq<char>, Seq<char>, Option<Seq<char>>)> {
    let t = lossy_of(strip_lf(bytes));
    let ps = spec_split(t, ' ');
    if ps.len() == 2 {
        Some((ps[0], ps[1], None))
    } else if ps.len() == 3 {
        Some(
            (
                ps[0],
                ps[1],
                if has_prefix(ps[2], "peeled:"@) {
                    Some(ps[2].skip(("peeled:"@).len() as int))
                } else {
                    None
                },
            ),
        )
    } else {
        None
    }
}

/// Parses one `ls-refs` data frame.
pub fn parse_ref_line(frame: &Vec<u8>) -> (r: Option<RefInfo>)
    ensures
        match r {
            Some(ri) => spec_ref_line(frame@) == Some(ref_view(ri)),
            None => spec_ref_line(frame@) is None,
        },
{
    let data = without_lf(frame);
    let s = utf8_lossy(data.as_slice());
    let parts = split_char(s.as_str(), ' ');
    let ghost ps = spec_split(s@, ' ');
    if parts.len() == 2 {
        let ri = RefInfo { sha: parts[0].clone(), refname: parts[1].clone(), peeled: None };
        proof {
            assert(ri.sha@ == ps[0] && ri.refname@ == ps[1]);
        }
        Some(ri)
    } else if parts.len() == 3 {
        let peeled = strip_prefix(parts[2].as_str(), "peeled:");
        let ri = RefInfo { sha: parts[0].clone(), refname: parts[1].clone(), peeled };
        proof {
            assert(ri.sha@ == ps[0] && ri.refname@ == ps[1]);
        }
        Some(ri)
    } else {
        None
    }
}

/// The specification-level value of a decoded frame.
pub open spec fn line_view(l: GitPacketLine) -> SpecItem {
    match l {
        GitPacketLine::Data(v) => SpecItem::Data(v@),
        GitPacketLine::Flush => SpecItem::Flush,
        GitPacketLine::Delimiter => SpecItem::Delimiter,
    }
}

/// The ref records of an `ls-refs` response: data frames parsed in order
/// until the first flush; delimiters and unparsable frames are skipped.
pub open spec fn spec_refs(items: Seq<SpecItem>) -> Seq<(Seq<char>, Seq<char>, Option<Seq<char>>)>
    decreases items.len(),
{
    if items.len() == 0 {
        Seq::empty()
    } else {
        match items[0] {
            SpecItem::Flush => Seq::empty(),
            SpecItem::Data(b) => match spec_ref_line(b) {
                Some(t) => seq![t] + spec_refs(items.drop_first()),
                None => spec_refs(items.drop_first()),
            },
            _ => spec_refs(items.drop_first()),
        }
    }
}

/// Parses the decoded frames of an `ls-refs` response into ref records.
#[verifier::loop_isolation(false)]
pub fn parse_ls_refs_response(items: &Vec<GitPacketLine>) -> (r: Vec<RefInfo>)
    ensures
        r@.map_values(|x: RefInfo| ref_view(x)) == spec_refs(
            items@.map_values(|l: GitPacketLine| line_view(l)),
        ),
{
    let ghost iv = items@.map_values(|l: GitPacketLine| line_view(l));
    let mut out: Vec<RefInfo> = Vec::new();
    let mut i: usize = 0;
    proof {
        assert(iv.skip(0) =~= iv);
    }
    while i < items.len()
        invariant
            i <= items@.len(),
            spec_refs(iv) =~= out@.map_values(|x: RefInfo| ref_view(x)) + spec_refs(
                iv.skip(i as int),
            ),
        decreases items@.len() - i,
    {
        let ghost rem = iv.skip(i as int);
        proof {
            assert(rem[0] == iv[i as int]);
            assert(rem.drop_first() =~= iv.skip(i as int + 1));
        }
        match &items[i] {
            GitPacketLine::Data(v) => {
                let ghost out0 = out@;
                match parse_ref_line(v) {
                    Some(ri) => {
                        out.push(ri);
                        proof {
                            let f = |x: RefInfo| ref_view(x);
                            assert(out@.map_values(f) =~= out0.map_values(f).push(ref_view(
                                out@.last(),
                            )));
                        }
                    },
                    None => {},
                }
            },
            GitPacketLine::Flush => {
                proof {
                    assert(spec_refs(rem) =~= Seq::<(
                        Seq<char>,
                        Seq<char>,
                        Option<Seq<char>>,
                    )>::empty());
                }
                return out;
            },
            GitPacketLine::Delimiter => {},
        }
        i = i + 1;
    }
    proof {
        assert(iv.skip(iv.len() as int) =~= Seq::<SpecItem>::empty());
    }
    out
}

/// The `ref-prefix` frames of an `ls-refs` request, one per prefix.
pub open spec fn spec_prefix_frames(ps: Seq<Seq<char>>) -> Seq<u8>
    decreases ps.len(),
{
    if ps.len() == 0 {
        Seq::empty()
    } else {
        encoded_frame(utf8_of("ref-prefix "@ + ps[0] + "\n"@)) + spec_prefix_frames(
            ps.drop_first(),
        )
    }
}

proof fn lemma_prefix_frames_snoc(ps: Seq<Seq<char>>, x: Seq<char>)
    ensures
        spec_prefix_frames(ps.push(x)) == spec_prefix_frames(ps) + encoded_frame(
            utf8_of("ref-prefix "@ + x + "\n"@),
        ),
    decreases ps.len(),
{
    if ps.len() == 0 {
        assert(ps.push(x)[0] == x);
        assert(ps.push(x).drop_first() =~= Seq::<Seq<char>>::empty());
        assert(spec_prefix_frames(ps.push(x).drop_first()) == Seq::<u8>::empty());
        assert(spec_prefix_frames(ps) == Seq::<u8>::empty());
        assert(spec_prefix_frames(ps.push(x)) =~= spec_prefix_frames(ps) + encoded_frame(
            utf8_of("ref-prefix "@ + x + "\n"@),
        ));
    } else {
        assert(ps.push(x)[0] == ps[0]);
        assert(ps.push(x).drop_first() =~= ps.drop_first().push(x));
        lemma_prefix_frames_snoc(ps.drop_first(), x);
        assert(spec_prefix_frames(ps.push(x)) =~= spec_prefix_frames(ps) + encoded_frame(
            utf8_of("ref-prefix "@ + x + "\n"@),
        ));
    }
}

/// The whole `ls-refs` request body.
pub open spec fn spec_ls_refs_request(prefixes: Seq<Seq<char>>) -> Seq<u8> {
    encoded_frame(utf8_of("command=ls-refs\n"@)) + encoded_frame(utf8_of("agent=git-sleipnir/0\n"@))
        + encoded_frame(utf8_of("object-format=sha1\n"@)) + delim_bytes() + encoded_frame(
        utf8_of("peel\n"@),
    ) + spec_prefix_frames(prefixes) + flush_bytes()
}

/// Whether every frame of the request fits in a pkt-line length.
pub open spec fn ls_refs_request_fits(prefixes: Seq<Seq<char>>) -> bool {
    utf8_of("command=ls-refs\n"@).len() + 4 <= 0xffff && utf8_of(
        "agent=git-sleipnir/0\n"@,
    ).len() + 4 <= 0xffff && utf8_of("object-format=sha1\n"@).len() + 4 <= 0xffff && utf8_of(
        "peel\n"@,
    ).len() + 4 <= 0xffff && forall|k: int|
        0 <= k < prefixes.len() ==> utf8_of("ref-prefix "@ + #[trigger] prefixes[k] + "\n"@).len()
            + 4 <= 0xffff
}

/// Builds the `ls-refs` request body; `None` when a prefix makes a frame
/// too long for pkt-line framing.
#[verifier::loop_isolation(false)]
pub fn build_ls_refs_request(ref_prefixes: &Vec<String>) -> (r: Option<Vec<u8>>)
    ensures
        r is Some <==> ls_refs_request_fits(crate::fallback::names_view(ref_prefixes@)),
        r matches Some(v) ==> v@ == spec_ls_refs_request(
            crate::fallback::names_view(ref_prefixes@),
        ),
{
    let ghost pv = crate::fallback::names_view(ref_prefixes@);
    let f1 = utf8_bytes("command=ls-refs\n");
    let f2 = utf8_bytes("agent=git-sleipnir/0\n");
    let f3 = utf8_bytes("object-format=sha1\n");
    let f4 = utf8_bytes("peel\n");
    if f1.len() > 0xffff - 4 || f2.len() > 0xffff - 4 || f3.len() > 0xffff - 4 || f4.len() > 0xffff
        - 4 {
        return None;
    }
    let mut pkt = PktLine::new().add(f1.as_slice()).add(f2.as_slice()).add(
        f3.as_slice(),
    ).delimit().add(f4.as_slice());
    let ghost head = encoded_frame(utf8_of("command=ls-refs\n"@)) + encoded_frame(
        utf8_of("agent=git-sleipnir/0\n"@),
    ) + encoded_frame(utf8_of("object-format=sha1\n"@)) + delim_bytes() + encoded_frame(
        utf8_of("peel\n"@),
    );
    proof {
        assert(pkt@ =~= head);
        assert(pv.take(0) =~= Seq::<Seq<char>>::empty());
    }
    let mut i: usize = 0;
    while i < ref_prefixes.len()
        invariant
            i <= ref_prefixes@.len(),
            pkt@ == head + spec_prefix_frames(pv.take(i as int)),
            forall|k: int|
                0 <= k < i ==> utf8_of("ref-prefix "@ + #[trigger] pv[k] + "\n"@).len() + 4
                    <= 0xffff,
        decreases ref_prefixes@.len() - i,
    {
        let mut line = String::from_str("ref-prefix ");
        line.append(ref_prefixes[i].as_str());
        line.append("\n");
        proof {
            assert(line@ == "ref-prefix "@ + pv[i as int] + "\n"@);
        }
        let fb = utf8_bytes(line.as_str());
        if fb.len() > 0xffff - 4 {
            return None;
        }
        pkt = pkt.add(fb.as_slice());
        proof {
            lemma_prefix_frames_snoc(pv.take(i as int), pv[i as int]);
            assert(pv.take(i as int).push(pv[i as int]) =~= pv.take(i as int + 1));
            assert(pkt@ =~= head + spec_prefix_frames(pv.take(i as int + 1)));
        }
        i = i + 1;
    }
    proof {
        assert(pv.take(pv.len() as int) =~= pv);
    }
    let v = pkt.flush().take();
    proof {
        assert(v@ =~= spec_ls_refs_request(pv));
    }
    Some(v)
}

/// The `shallow` frames of a `fetch` request, one per boundary sha.
pub open spec fn spec_shallow_frames(ss: Seq<Seq<char>>) -> Seq<u8>
    decreases ss.len(),
{
    if ss.len() == 0 {
        Seq::empty()
    } else {
        encoded_frame(utf8_of("shallow "@ + ss[0])) + spec_shallow_frames(ss.drop_first())
    }
}

proof fn lemma_shallow_frames_snoc(ss: Seq<Seq<char>>, x: Seq<char>)
    ensures
        spec_shallow_frames(ss.push(x)) == spec_shallow_frames(ss) + encoded_frame(
            utf8_of("shallow "@ + x),
        ),
    decreases ss.len(),
{
    if ss.len() == 0 {
        assert(ss.push(x)[0] == x);
        assert(ss.push(x).drop_first() =~= Seq::<Seq<char>>::empty());
        assert(spec_shallow_frames(ss.push(x).drop_first()) == Seq::<u8>::empty());
        assert(spec_shallow_frames(ss) == Seq::<u8>::empty());
        assert(spec_shallow_frames(ss.push(x)) =~= spec_shallow_frames(ss) + encoded_frame(
            utf8_of("shallow "@ + x),
        ));
    } else {
        assert(ss.push(x)[0] == ss[0]);
        assert(ss.push(x).drop_first() =~= ss.drop_first().push(x));
        lemma_shallow_frames_snoc(ss.drop_first(), x);
        assert(spec_shallow_frames(ss.push(x)) =~= spec_shallow_frames(ss) + encoded_frame(
            utf8_of("shallow "@ + x),
        ));
    }
}

/// The whole `fetch` request body for one want at one depth.
pub open spec fn spec_fetch_request(want: Seq<char>, shallows: Seq<Seq<char>>, depth: nat) -> Seq<
    u8,
> {
    encoded_frame(utf8_of("command=fetch"@)) + encoded_frame(utf8_of("agent=git-sleipnir/0\n"@))
        + encoded_frame(utf8_of("object-format=sha1"@)) + delim_bytes() + encoded_frame(
        utf8_of("want "@ + want),
    ) + spec_shallow_frames(shallows) + encoded_frame(utf8_of("deepen "@ + decimal_of(depth)))
        + encoded_frame(utf8_of("include-tag"@)) + encoded_frame(utf8_of("done\n"@))
        + flush_bytes()
}

/// Whether every frame of the fetch request fits in a pkt-line length.
pub open spec fn fetch_request_fits(want: Seq<char>, shallows: Seq<Seq<char>>, depth: nat) -> bool {
    utf8_of("command=fetch"@).len() + 4 <= 0xffff && utf8_of("agent=git-sleipnir/0\n"@).len() + 4
        <= 0xffff && utf8_of("object-format=sha1"@).len() + 4 <= 0xffff && utf8_of(
        "want "@ + want,
    ).len() + 4 <= 0xffff && utf8_of("deepen "@ + decimal_of(depth)).len() + 4 <= 0xffff
        && utf8_of("include-tag"@).len() + 4 <= 0xffff && utf8_of("done\n"@).len() + 4 <= 0xffff
        && forall|k: int|
        0 <= k < shallows.len() ==> utf8_of("shallow "@ + #[trigger] shallows[k]).len() + 4
            <= 0xffff
}

/// Builds the `fetch` request body; `None` when a sha or the depth makes a
/// frame too long for pkt-line framing.
#[verifier::loop_isolation(false)]
pub fn build_fetch_request(want: &String, shallow_shas: &Vec<String>, depth: usize) -> (r: Option<
    Vec<u8>,
>)
    ensures
        r is Some <==> fetch_request_fits(
            want@,
            crate::fallback::names_view(shallow_shas@),
            depth as nat,
        ),
        r matches Some(v) ==> v@ == spec_fetch_request(
            want@,
            crate::fallback::names_view(shallow_shas@),
            depth as nat,
        ),
{
    let ghost sv = crate::fallback::names_view(shallow_shas@);
    let f1 = utf8_bytes("command=fetch");
    let f2 = utf8_bytes("agent=git-sleipnir/0\n");
    let f3 = utf8_bytes("object-format=sha1");
    let mut want_line = String::from_str("want ");
    want_line.append(want.as_str());
    let f4 = utf8_bytes(want_line.as_str());
    let mut deepen_line = String::from_str("deepen ");
    let depth_str = usize_to_string(depth);
    deepen_line.append(depth_str.as_str());
    let f5 = utf8_bytes(deepen_line.as_str());
    let f6 = utf8_bytes("include-tag");
    let f7 = utf8_bytes("done\n");
    if f1.len() > 0xffff - 4 || f2.len() > 0xffff - 4 || f3.len() > 0xffff - 4 || f4.len() > 0xffff
        - 4 || f5.len() > 0xffff - 4 || f6.len() > 0xffff - 4 || f7.len() > 0xffff - 4 {
        return None;
    }
    let mut pkt = PktLine::new().add(f1.as_slice()).add(f2.as_slice()).add(
        f3.as_slice(),
    ).delimit().add(f4.as_slice());
    let ghost head = encoded_frame(utf8_of("command=fetch"@)) + encoded_frame(
        utf8_of("agent=git-sleipnir/0\n"@),
    ) + encoded_frame(utf8_of("object-format=sha1"@)) + delim_bytes() + encoded_frame(
        utf8_of("want "@ + want@),
    );
    proof {
        assert(pkt@ =~= head);
        assert(sv.take(0) =~= Seq::<Seq<char>>::empty());
    }
    let mut i: usize = 0;
    while i < shallow_shas.len()
        invariant
            i <= shallow_shas@.len(),
            pkt@ == head + spec_shallow_frames(sv.take(i as int)),
            forall|k: int|
                0 <= k < i ==> utf8_of("shallow "@ + #[trigger] sv[k]).len() + 4 <= 0xffff,
        decreases shallow_shas@.len() - i,
    {
        let mut line = String::from_str("shallow ");
        line.append(shallow_shas[i].as_str());
        proof {
            assert(line@ == "shallow "@ + sv[i as int]);
        }
        let fb = utf8_bytes(line.as_str());
        if fb.len() > 0xffff - 4 {
            return None;
        }
        pkt = pkt.add(fb.as_slice());
        proof {
            lemma_shallow_frames_snoc(sv.take(i as int), sv[i as int]);
            assert(sv.take(i as int).push(sv[i as int]) =~= sv.take(i as int + 1));
            assert(pkt@ =~= head + spec_shallow_frames(sv.take(i as int + 1)));
        }
        i = i + 1;
    }
    proof {
        assert(sv.take(sv.len() as int) =~= sv);
    }
    let v = pkt.add(f5.as_slice()).add(f6.as_slice()).add(f7.as_slice()).flush().take();
    proof {
        assert(v@ =~= spec_fetch_request(want@, sv, depth as nat));
    }
    Some(v)
}

/// Where the fetch-response reader stands.
#[derive(Clone, Copy, Debug, PartialEq, Eq, Structural)]
pub enum FetchState {
    /// Between sections.
    Top,
    /// Inside `shallow-info`, until the next delimiter.
    InShallowInfo,
    /// Inside an unknown section, skipped until the next delimiter.
    InUnknown,
    /// Inside the pack stream, demultiplexing side-band frames.
    InPack,
    /// The response is over.
    Done,
}

/// What the caller must do with one consumed frame.
#[derive(Debug, PartialEq)]
pub enum FetchAction {
    /// Nothing; keep feeding frames.
    Continue,
    /// Write these bytes to the pack indexer's stdin.
    PackBytes(Vec<u8>),
    /// Echo this progress text.
    Progress(String),
    /// Echo this server-side error text.
    RemoteError(String),
    /// Log this unrecognized side-band frame.
    UnknownChannel(Vec<u8>),
    /// The response is complete; stop feeding frames.
    Finished,
}

/// A `fetch` response in progress: the reader's position and the shallow
/// deltas collected from `shallow-info`.
pub struct FetchSession {
    pub state: FetchState,
    pub deltas: Vec<ShallowInfo>,
}

/// Whether `p` starts `b`.
pub open spec fn bytes_have_prefix(b: Seq<u8>, p: Seq<u8>) -> bool {
    b.len() >= p.len() && b.take(p.len() as int) == p
}

fn bytes_strip_prefix(v: &Vec<u8>, p: &Vec<u8>) -> (r: Option<Vec<u8>>)
    ensures
        match r {
            Some(t) => bytes_have_prefix(v@, p@) && t@ == v@.skip(p@.len() as int),
            None => !bytes_have_prefix(v@, p@),
        },
{
    if v.len() < p.len() {
        return None;
    }
    let mut i: usize = 0;
    while i < p.len()
        invariant
            i <= p@.len() <= v@.len(),
            forall|j: int| 0 <= j < i ==> v@[j] == p@[j],
        decreases p@.len() - i,
    {
        if v[i] != p[i] {
            proof {
                assert(v@.take(p@.len() as int)[i as int] != p@[i as int]);
            }
            return None;
        }
        i = i + 1;
    }
    let mut out: Vec<u8> = Vec::new();
    let mut j: usize = p.len();
    while j < v.len()
        invariant
            p@.len() <= j <= v@.len(),
            out@ == v@.subrange(p@.len() as int, j as int),
        decreases v@.len() - j,
    {
        out.push(v[j]);
        j = j + 1;
        assert(out@ =~= v@.subrange(p@.len() as int, j as int));
    }
    proof {
        assert(v@.take(p@.len() as int) =~= p@);
        assert(out@ =~= v@.skip(p@.len() as int));
    }
    Some(out)
}

impl FetchSession {
    /// A reader at the start of a response, with no deltas yet.
    pub fn new() -> (r: FetchSession)
        ensures
            r.state == FetchState::Top,
            r.deltas@ == Seq::<ShallowInfo>::empty(),
    {
        FetchSession { state: FetchState::Top, deltas: Vec::new() }
    }

    /// Consumes one decoded frame and says what to do with it, following the
    /// response layout: a `packfile` frame starts the side-band pack stream;
    /// a `shallow-info` frame starts shallow deltas up to a delimiter; any
    /// other section is skipped up to a delimiter; a top-level flush, or the
    /// end of the pack stream, ends the response.
    pub fn step(&mut self, item: GitPacketLine) -> (r: FetchAction)
        ensures
            ({
                let st = old(self).state;
                let d0 = old(self).deltas@;
                match st {
                    FetchState::Done => final(self).state == FetchState::Done && final(self).deltas@ == d0 && r == FetchAction::Finished,
                    FetchState::Top => match item {
                        GitPacketLine::Flush => final(self).state == FetchState::Done && final(self).deltas@ == d0 && r == FetchAction::Finished,
                        GitPacketLine::Delimiter => final(self).state == FetchState::Top && final(self).deltas@ == d0 && r == FetchAction::Continue,
                        GitPacketLine::Data(v) => final(self).deltas@ == d0 && r
                            == FetchAction::Continue && final(self).state == (if strip_lf(v@)
                            == utf8_of("packfile"@) {
                            FetchState::InPack
                        } else if strip_lf(v@) == utf8_of("shallow-info"@) {
                            FetchState::InShallowInfo
                        } else {
                            FetchState::InUnknown
                        }),
                    },
                    FetchState::InShallowInfo => match item {
                        GitPacketLine::Flush => final(self).state == FetchState::Done && final(self).deltas@ == d0 && r == FetchAction::Finished,
                        GitPacketLine::Delimiter => final(self).state == FetchState::Top && final(self).deltas@ == d0 && r == FetchAction::Continue,
                        GitPacketLine::Data(v) => final(self).state == FetchState::InShallowInfo
                            && r == FetchAction::Continue && (if bytes_have_prefix(
                            v@,
                            utf8_of("shallow "@),
                        ) {
                            final(self).deltas@.len() == d0.len() + 1 && final(self).deltas@.take(
                                d0.len() as int,
                            ) == d0 && delta_add(final(self).deltas@.last()) && delta_sha(
                                final(self).deltas@.last(),
                            ) == lossy_of(v@.skip(utf8_of("shallow "@).len() as int))
                        } else if bytes_have_prefix(v@, utf8_of("unshallow "@)) {
                            final(self).deltas@.len() == d0.len() + 1 && final(self).deltas@.take(
                                d0.len() as int,
                            ) == d0 && !delta_add(final(self).deltas@.last()) && delta_sha(
                                final(self).deltas@.last(),
                            ) == lossy_of(v@.skip(utf8_of("unshallow "@).len() as int))
                        } else {
                            final(self).deltas@ == d0
                        }),
                    },
                    FetchState::InUnknown => match item {
                        GitPacketLine::Flush => final(self).state == FetchState::Top && final(self).deltas@ == d0 && r == FetchAction::Continue,
                        GitPacketLine::Delimiter => final(self).state == FetchState::Top && final(self).deltas@ == d0 && r == FetchAction::Continue,
                        GitPacketLine::Data(_) => final(self).state == FetchState::InUnknown
                            && final(self).deltas@ == d0 && r == FetchAction::Continue,
                    },
                    FetchState::InPack => match item {
                        GitPacketLine::Flush => final(self).state == FetchState::Done && final(self).deltas@ == d0 && r == FetchAction::Finished,
                        GitPacketLine::Delimiter => final(self).state == FetchState::Done && final(self).deltas@ == d0 && r == FetchAction::Finished,
                        GitPacketLine::Data(v) => final(self).state == FetchState::InPack && final(self).deltas@ == d0 && (if v@.len() == 0 {
                            r matches FetchAction::UnknownChannel(b) && b@ == v@
                        } else if v@[0] == 1 {
                            r matches FetchAction::PackBytes(p) && p@ == v@.skip(1)
                        } else if v@[0] == 2 {
                            r matches FetchAction::Progress(s) && s@ == lossy_of(v@.skip(1))
                        } else if v@[0] == 3 {
                            r matches FetchAction::RemoteError(s) && s@ == lossy_of(v@.skip(1))
                        } else {
                            r matches FetchAction::UnknownChannel(b) && b@ == v@
                        }),
                    },
                }
            }),
    {
        match self.state {
            FetchState::Done => FetchAction::Finished,
            FetchState::Top => match item {
                GitPacketLine::Flush => {
                    self.state = FetchState::Done;
                    FetchAction::Finished
                },
                GitPacketLine::Delimiter => FetchAction::Continue,
                GitPacketLine::Data(v) => {
                    let body = without_lf(&v);
                    let pack_word = utf8_bytes("packfile");
                    let shallow_word = utf8_bytes("shallow-info");
                    if crate::text::bytes_eq(&body, pack_word.as_slice()) {
                        self.state = FetchState::InPack;
                    } else if crate::text::bytes_eq(&body, shallow_word.as_slice()) {
                        self.state = FetchState::InShallowInfo;
                    } else {
                        self.state = FetchState::InUnknown;
                    }
                    FetchAction::Continue
                },
            },
            FetchState::InShallowInfo => match item {
                GitPacketLine::Flush => {
                    self.state = FetchState::Done;
                    FetchAction::Finished
                },
                GitPacketLine::Delimiter => {
                    self.state = FetchState::Top;
                    FetchAction::Continue
                },
                GitPacketLine::Data(v) => {
                    let shallow_pfx = utf8_bytes("shallow ");
                    let unshallow_pfx = utf8_bytes("unshallow ");
                    match bytes_strip_prefix(&v, &shallow_pfx) {
                        Some(sha) => {
                            self.deltas.push(ShallowInfo::Shallow(utf8_lossy(sha.as_slice())));
                        },
                        None => match bytes_strip_prefix(&v, &unshallow_pfx) {
                            Some(sha) => {
                                self.deltas.push(
                                    ShallowInfo::NotShallow(utf8_lossy(sha.as_slice())),
                                );
                            },
                            None => {},
                        },
                    }
                    FetchAction::Continue
                },
            },
            FetchState::InUnknown => match item {
                GitPacketLine::Flush => {
                    self.state = FetchState::Top;
                    FetchAction::Continue
                },
                GitPacketLine::Delimiter => {
                    self.state = FetchState::Top;
                    FetchAction::Continue
                },
                GitPacketLine::Data(_) => FetchAction::Continue,
            },
            FetchState::InPack => match item {
                GitPacketLine::Flush => {
                    self.state = FetchState::Done;
                    FetchAction::Finished
                },
                GitPacketLine::Delimiter => {
                    self.state = FetchState::Done;
                    FetchAction::Finished
                },
                GitPacketLine::Data(v) => match SideBand::from(v) {
                    SideBand::PackData(p) => FetchAction::PackBytes(p),
                    SideBand::Progress(s) => FetchAction::Progress(s),
                    SideBand::ErrorMessage(s) => FetchAction::RemoteError(s),
                    SideBand::Unknown(b) => FetchAction::UnknownChannel(b),
                },
            },
        }
    }

    /// Hands back the shallow deltas collected so far.
    pub fn into_deltas(self) -> (r: Vec<ShallowInfo>)
        ensures
            r@ == self.deltas@,
    {
        self.deltas
    }
}


/// The preview of a failed response's body: at most 1024 characters, with a
/// truncation marker appended when shortened.
pub fn response_error_preview(body: &String) -> (r: String)
    ensures
        r@ == if body@.len() > 1024 {
            body@.take(1024) + "...\n[truncated]"@
        } else {
            body@
        },
{
    let n: usize = body.as_str().unicode_len();
    if n > 1024 {
        let piece = body.as_str().substring_char(0, 1024);
        let mut m = String::from_str(piece);
        m.append("...\n[truncated]");
        m
    } else {
        body.clone()
    }
}

} // verus!
