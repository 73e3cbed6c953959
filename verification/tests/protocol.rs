use git_sleipnir::decoder::{GitPacketLine, PktDecoder};
use git_sleipnir::protocol::{
    build_fetch_request, build_ls_refs_request, parse_ls_refs_response, response_error_preview,
    FetchAction, FetchSession, FetchState,
};
use git_sleipnir::shallow::ShallowInfo;

fn data(s: &str) -> GitPacketLine {
    GitPacketLine::Data(s.as_bytes().to_vec())
}

fn decode_all(bytes: &[u8]) -> Vec<GitPacketLine> {
    let mut d = PktDecoder::new();
    d.feed(bytes);
    let mut out = Vec::new();
    while let Some(item) = d.next() {
        out.push(item.unwrap());
    }
    assert_eq!(d.eof_error(), None);
    out
}

#[test]
fn ls_refs_parses_two_and_three_field_rows() {
    let sha1 = "1111111111111111111111111111111111111111";
    let sha2 = "2222222222222222222222222222222222222222";
    let sha3 = "3333333333333333333333333333333333333333";
    let sha4 = "4444444444444444444444444444444444444444";
    let items = vec![
        data(&format!("{} refs/heads/main", sha1)),
        data(&format!("{} refs/tags/v1 peeled:{}", sha2, sha3)),
        data(&format!("{} refs/heads/dev\n", sha4)),
        GitPacketLine::Flush,
    ];
    let refs = parse_ls_refs_response(&items);
    assert_eq!(refs.len(), 3);
    assert_eq!(refs[0].sha, sha1);
    assert_eq!(refs[0].refname, "refs/heads/main");
    assert_eq!(refs[0].peeled, None);
    assert_eq!(refs[1].sha, sha2);
    assert_eq!(refs[1].refname, "refs/tags/v1");
    assert_eq!(refs[1].peeled, Some(sha3.to_string()));
    assert_eq!(refs[2].sha, sha4);
    assert_eq!(refs[2].refname, "refs/heads/dev");
    assert_eq!(refs[2].peeled, None);
}

#[test]
fn ls_refs_skips_malformed_rows_and_stops_at_flush() {
    let items = vec![
        data("not-a-ref-row-without-spaces"),
        data("a b c d"),
        data("abc refs/heads/kept"),
        GitPacketLine::Delimiter,
        GitPacketLine::Flush,
        data("zzz refs/heads/after-flush"),
    ];
    let refs = parse_ls_refs_response(&items);
    assert_eq!(refs.len(), 1);
    assert_eq!(refs[0].refname, "refs/heads/kept");
}

#[test]
fn ls_refs_request_frames() {
    let prefixes = vec!["refs/heads/".to_string(), "refs/tags/v".to_string()];
    let body = build_ls_refs_request(&prefixes).unwrap();
    let items = decode_all(&body);
    assert_eq!(
        items,
        vec![
            data("command=ls-refs\n"),
            data("agent=git-sleipnir/0\n"),
            data("object-format=sha1\n"),
            GitPacketLine::Delimiter,
            data("peel\n"),
            data("ref-prefix refs/heads/\n"),
            data("ref-prefix refs/tags/v\n"),
            GitPacketLine::Flush,
        ]
    );
}

#[test]
fn fetch_request_frames() {
    let want = "1234567890123456789012345678901234567890".to_string();
    let shallows = vec!["aaaa".to_string(), "bbbb".to_string()];
    let body = build_fetch_request(&want, &shallows, 51).unwrap();
    let items = decode_all(&body);
    assert_eq!(
        items,
        vec![
            data("command=fetch"),
            data("agent=git-sleipnir/0\n"),
            data("object-format=sha1"),
            GitPacketLine::Delimiter,
            data(&format!("want {}", want)),
            data("shallow aaaa"),
            data("shallow bbbb"),
            data("deepen 51"),
            data("include-tag"),
            data("done\n"),
            GitPacketLine::Flush,
        ]
    );
}

#[test]
fn fetch_session_collects_shallow_info_and_demuxes_pack() {
    let mut s = FetchSession::new();
    assert_eq!(s.step(data("shallow-info")), FetchAction::Continue);
    assert_eq!(s.step(data("shallow aaa")), FetchAction::Continue);
    assert_eq!(s.step(data("unshallow bbb")), FetchAction::Continue);
    assert_eq!(s.step(data("something odd")), FetchAction::Continue);
    assert_eq!(s.step(GitPacketLine::Delimiter), FetchAction::Continue);
    assert_eq!(s.state, FetchState::Top);
    assert_eq!(s.step(data("wanted-refs")), FetchAction::Continue);
    assert_eq!(s.state, FetchState::InUnknown);
    assert_eq!(s.step(data("ignored")), FetchAction::Continue);
    assert_eq!(s.step(GitPacketLine::Delimiter), FetchAction::Continue);
    assert_eq!(s.step(data("packfile")), FetchAction::Continue);
    assert_eq!(s.state, FetchState::InPack);
    assert_eq!(
        s.step(GitPacketLine::Data(b"\x01PACKDATA".to_vec())),
        FetchAction::PackBytes(b"PACKDATA".to_vec())
    );
    assert_eq!(
        s.step(GitPacketLine::Data(b"\x02resolving".to_vec())),
        FetchAction::Progress("resolving".to_string())
    );
    assert_eq!(
        s.step(GitPacketLine::Data(b"\x03broken".to_vec())),
        FetchAction::RemoteError("broken".to_string())
    );
    assert_eq!(
        s.step(GitPacketLine::Data(b"\x09odd".to_vec())),
        FetchAction::UnknownChannel(b"\x09odd".to_vec())
    );
    assert_eq!(s.step(GitPacketLine::Flush), FetchAction::Finished);
    assert_eq!(s.state, FetchState::Done);

    let deltas = s.into_deltas();
    assert_eq!(deltas.len(), 2);
    match &deltas[0] {
        ShallowInfo::Shallow(sha) => assert_eq!(sha, "aaa"),
        _ => panic!("expected a shallow delta"),
    }
    match &deltas[1] {
        ShallowInfo::NotShallow(sha) => assert_eq!(sha, "bbb"),
        _ => panic!("expected an unshallow delta"),
    }
}

#[test]
fn fetch_session_flush_inside_shallow_info_ends_response() {
    let mut s = FetchSession::new();
    assert_eq!(s.step(data("shallow-info")), FetchAction::Continue);
    assert_eq!(s.step(data("shallow aaa")), FetchAction::Continue);
    assert_eq!(s.step(GitPacketLine::Flush), FetchAction::Finished);
    assert_eq!(s.state, FetchState::Done);
    assert_eq!(s.into_deltas().len(), 1);
}

#[test]
fn response_preview_truncates_at_1024() {
    let short = "tiny body".to_string();
    assert_eq!(response_error_preview(&short), "tiny body");
    let long: String = std::iter::repeat('x').take(2000).collect();
    let preview = response_error_preview(&long);
    assert_eq!(preview.len(), 1024 + "...\n[truncated]".len());
    assert!(preview.ends_with("...\n[truncated]"));
    assert!(preview.starts_with("xxxx"));
}

#[test]
fn fetch_session_ends_on_top_level_flush() {
    let mut s = FetchSession::new();
    assert_eq!(s.step(GitPacketLine::Flush), FetchAction::Finished);
    assert_eq!(s.state, FetchState::Done);
    assert!(s.into_deltas().is_empty());
}
