//! Core logic of a shallow, tag-aware Git clone client speaking the
//! Smart-HTTP v2 protocol: pkt-line framing, side-band demultiplexing,
//! `ls-refs` and `fetch` request and response handling, branch-fallback
//! resolution, shallow-boundary bookkeeping, and the clone orchestrator's
//! decisions.  The surrounding binary performs the HTTP exchanges, file
//! operations and `git` subprocess calls that these modules direct.
pub mod clone_logic;
pub mod decoder;
pub mod fallback;
pub mod pkt_line;
pub mod protocol;
pub mod repo;
pub mod shallow;
pub mod sideband;
pub mod text;
