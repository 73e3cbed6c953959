//! The shallow-boundary store: reading the newline-delimited shallow file,
//! merging server deltas into the set, and rendering the canonical (sorted,
//! deduplicated) replacement contents.  The caller writes the rendered text
//! to a temporary file and renames it into place.
use vstd::prelude::*;

use crate::text::{lex_less, lex_lt, push_char, spec_split, spec_trim, split_char, trim};

verus! {

/// A single delta to the shallow boundaries, as sent in `shallow-info`.
#[derive(Debug)]
pub enum ShallowInfo {
    Shallow(String),
    NotShallow(String),
}

/// Whether a delta inserts (rather than removes) its sha.
pub open spec fn delta_add(d: ShallowInfo) -> bool {
    d matches ShallowInfo::Shallow(_)
}

/// The sha a delta is about.
pub open spec fn delta_sha(d: ShallowInfo) -> Seq<char> {
    match d {
        ShallowInfo::Shallow(s) => s@,
        ShallowInfo::NotShallow(s) => s@,
    }
}

/// The set of names a list of strings holds.
pub open spec fn seqs_set(l: Seq<Seq<char>>) -> Set<Seq<char>> {
    Set::new(|x: Seq<char>| exists|i: int| 0 <= i < l.len() && l[i] == x)
}

/// The set read from the shallow file: its lines, trimmed, with blank lines
/// ignored.
pub open spec fn lines_set(c: Seq<char>) -> Set<Seq<char>> {
    Set::new(
        |x: Seq<char>|
            x.len() > 0 && exists|i: int|
                0 <= i < spec_split(c, '\n').len() && spec_trim(
                    #[trigger] spec_split(c, '\n')[i],
                ) == x,
    )
}

/// One delta applied to the set.
pub open spec fn apply_one(s: Set<Seq<char>>, d: ShallowInfo) -> Set<Seq<char>> {
    if delta_add(d) {
        s.insert(delta_sha(d))
    } else {
        s.remove(delta_sha(d))
    }
}

/// All deltas applied in order.
pub open spec fn apply_deltas(s: Set<Seq<char>>, ds: Seq<ShallowInfo>) -> Set<Seq<char>>
    decreases ds.len(),
{
    if ds.len() == 0 {
        s
    } else {
        apply_deltas(apply_one(s, ds[0]), ds.drop_first())
    }
}

/// The last delta that mentions `x`, if any: `Some(true)` for an insert,
/// `Some(false)` for a removal.
pub open spec fn last_touch(ds: Seq<ShallowInfo>, x: Seq<char>) -> Option<bool>
    decreases ds.len(),
{
    if ds.len() == 0 {
        None
    } else if delta_sha(ds.last()) == x {
        Some(delta_add(ds.last()))
    } else {
        last_touch(ds.drop_last(), x)
    }
}

proof fn lemma_apply_snoc(s: Set<Seq<char>>, ds: Seq<ShallowInfo>, d: ShallowInfo)
    ensures
        apply_deltas(s, ds.push(d)) == apply_one(apply_deltas(s, ds), d),
    decreases ds.len(),
{
    if ds.len() == 0 {
        assert(ds.push(d)[0] == d);
        let e = ds.push(d).drop_first();
        assert(e =~= Seq::<ShallowInfo>::empty());
        assert(apply_deltas(s, ds.push(d)) == apply_deltas(apply_one(s, d), e));
        assert(apply_deltas(apply_one(s, d), e) == apply_one(s, d));
    } else {
        assert(ds.push(d)[0] == ds[0]);
        assert(ds.push(d).drop_first() =~= ds.drop_first().push(d));
        assert(apply_deltas(s, ds.push(d)) == apply_deltas(
            apply_one(s, ds[0]),
            ds.drop_first().push(d),
        ));
        lemma_apply_snoc(apply_one(s, ds[0]), ds.drop_first(), d);
        assert(apply_deltas(s, ds) == apply_deltas(apply_one(s, ds[0]), ds.drop_first()));
    }
}

/// Membership after applying deltas: the last delta that mentions a sha
/// decides it; a sha no delta mentions keeps its old membership.
pub proof fn lemma_apply_membership(s: Set<Seq<char>>, ds: Seq<ShallowInfo>, x: Seq<char>)
    ensures
        apply_deltas(s, ds).contains(x) == match last_touch(ds, x) {
            Some(b) => b,
            None => s.contains(x),
        },
    decreases ds.len(),
{
    if ds.len() > 0 {
        let ds0 = ds.drop_last();
        let d = ds.last();
        assert(ds0.push(d) =~= ds);
        lemma_apply_snoc(s, ds0, d);
        lemma_apply_membership(s, ds0, x);
    }
}

/// Shallow idempotence: applying the same list of deltas twice leaves the
/// same set as applying it once.
pub proof fn lemma_shallow_update_idempotent(s: Set<Seq<char>>, ds: Seq<ShallowInfo>)
    ensures
        apply_deltas(apply_deltas(s, ds), ds) == apply_deltas(s, ds),
{
    let a = apply_deltas(s, ds);
    assert forall|x: Seq<char>| apply_deltas(a, ds).contains(x) == a.contains(x) by {
        lemma_apply_membership(s, ds, x);
        lemma_apply_membership(a, ds, x);
    }
    assert(apply_deltas(a, ds) =~= a);
}

/// No two entries hold the same name.
pub open spec fn unique_strs(v: Seq<String>) -> bool {
    forall|i: int, j: int| 0 <= i < j < v.len() ==> (#[trigger] v[i])@ != (#[trigger] v[j])@
}

/// The set of names a vector of strings holds.
pub open spec fn strs_set(v: Seq<String>) -> Set<Seq<char>> {
    Set::new(|x: Seq<char>| exists|i: int| 0 <= i < v.len() && (#[trigger] v[i])@ == x)
}

/// Whether the list holds this name.
#[verifier::loop_isolation(false)]
pub fn vec_contains_string(v: &Vec<String>, x: &String) -> (r: bool)
    ensures
        r == strs_set(v@).contains(x@),
{
    let mut i: usize = 0;
    while i < v.len()
        invariant
            i <= v@.len(),
            forall|j: int| 0 <= j < i ==> (#[trigger] v@[j])@ != x@,
        decreases v@.len() - i,
    {
        if v[i].eq(x) {
            assert(strs_set(v@).contains(x@));
            return true;
        }
        i = i + 1;
    }
    assert(!strs_set(v@).contains(x@));
    false
}

/// Reads the shallow file's contents into a deduplicated list of shas:
/// lines are trimmed and blank lines ignored.
#[verifier::loop_isolation(false)]
pub fn parse_shallow_lines(content: &str) -> (r: Vec<String>)
    ensures
        unique_strs(r@),
        strs_set(r@) == lines_set(content@),
{
    let parts = split_char(content, '\n');
    let ghost pv = spec_split(content@, '\n');
    let mut out: Vec<String> = Vec::new();
    let mut i: usize = 0;
    while i < parts.len()
        invariant
            i <= parts@.len(),
            parts@.map_values(|p: String| p@) == pv,
            unique_strs(out@),
            strs_set(out@) =~= Set::new(
                |x: Seq<char>|
                    x.len() > 0 && exists|j: int|
                        0 <= j < i && spec_trim(#[trigger] pv[j]) == x,
            ),
        decreases parts@.len() - i,
    {
        let t = trim(parts[i].as_str());
        proof {
            assert(pv[i as int] == parts@[i as int]@);
            assert(t@ == spec_trim(pv[i as int]));
        }
        let tn: usize = t.as_str().unicode_len();
        if tn > 0 && !vec_contains_string(&out, &t) {
            let ghost out0 = out@;
            out.push(t);
            proof {
                assert forall|x: Seq<char>| strs_set(out@).contains(x) implies (x.len() > 0
                    && exists|j: int| 0 <= j < i + 1 && spec_trim(#[trigger] pv[j]) == x) by {
                    let w = choose|w: int| 0 <= w < out@.len() && (#[trigger] out@[w])@ == x;
                    if w < out0.len() {
                        assert(strs_set(out0).contains(x));
                    } else {
                        assert(spec_trim(pv[i as int]) == x);
                    }
                }
                assert forall|x: Seq<char>|
                    x.len() > 0 && (exists|j: int| 0 <= j < i + 1 && spec_trim(#[trigger] pv[j])
                        == x) implies strs_set(out@).contains(x) by {
                    let j = choose|j: int| 0 <= j < i + 1 && spec_trim(#[trigger] pv[j]) == x;
                    if j < i {
                        assert(strs_set(out0).contains(x));
                        let w = choose|w: int| 0 <= w < out0.len() && (#[trigger] out0[w])@ == x;
                        assert(out@[w]@ == x);
                    } else {
                        assert(out@[out@.len() - 1]@ == x);
                    }
                }
                assert(strs_set(out@) =~= Set::new(
                    |x: Seq<char>|
                        x.len() > 0 && exists|j: int|
                            0 <= j < i + 1 && spec_trim(#[trigger] pv[j]) == x,
                ));
            }
        } else {
            proof {
                assert forall|x: Seq<char>|
                    x.len() > 0 && (exists|j: int| 0 <= j < i + 1 && spec_trim(#[trigger] pv[j])
                        == x) implies strs_set(out@).contains(x) by {
                    let j = choose|j: int| 0 <= j < i + 1 && spec_trim(#[trigger] pv[j]) == x;
                    if j < i {
                        assert(strs_set(out@).contains(x));
                    } else {
                        assert(x == t@);
                        assert(strs_set(out@).contains(x));
                    }
                }
                assert(strs_set(out@) =~= Set::new(
                    |x: Seq<char>|
                        x.len() > 0 && exists|j: int|
                            0 <= j < i + 1 && spec_trim(#[trigger] pv[j]) == x,
                ));
            }
        }
        i = i + 1;
    }
    proof {
        assert(strs_set(out@) =~= lines_set(content@));
    }
    out
}

#[verifier::loop_isolation(false)]
fn remove_string(v: &mut Vec<String>, x: &String)
    requires
        unique_strs(old(v)@),
    ensures
        unique_strs(final(v)@),
        strs_set(final(v)@) == strs_set(old(v)@).remove(x@),
{
    let mut i: usize = 0;
    while i < v.len()
        invariant
            i <= v@.len(),
            v@ == old(v)@,
            forall|j: int| 0 <= j < i ==> (#[trigger] v@[j])@ != x@,
        decreases v@.len() - i,
    {
        if v[i].eq(x) {
            let ghost v0 = v@;
            proof {
                assert((v0[i as int])@ == x@);
            }
            let _ = v.remove(i);
            proof {
                assert(v@ =~= v0.take(i as int) + v0.skip(i as int + 1));
                assert forall|a: int, b: int| 0 <= a < b < v@.len() implies (#[trigger] v@[a])@ != (
                #[trigger] v@[b])@ by {
                    let a0 = if a < i as int {
                        a
                    } else {
                        a + 1
                    };
                    let b0 = if b < i as int {
                        b
                    } else {
                        b + 1
                    };
                    assert(v@[a] == v0[a0] && v@[b] == v0[b0]);
                    assert(0 <= a0 < b0 < v0.len());
                    assert((v0[a0])@ != (v0[b0])@);
                }
                assert forall|y: Seq<char>| strs_set(v@).contains(y) implies strs_set(
                    v0,
                ).remove(x@).contains(y) by {
                    let w = choose|w: int| 0 <= w < v@.len() && (#[trigger] v@[w])@ == y;
                    let w0 = if w < i as int {
                        w
                    } else {
                        w + 1
                    };
                    assert(v0[w0]@ == y);
                    if w0 < i as int {
                        assert((v0[w0])@ != (v0[i as int])@);
                    } else {
                        assert((v0[i as int])@ != (v0[w0])@);
                    }
                    assert(y != x@);
                }
                assert forall|y: Seq<char>| strs_set(v0).remove(x@).contains(y) implies strs_set(
                    v@,
                ).contains(y) by {
                    let w0 = choose|w0: int| 0 <= w0 < v0.len() && (#[trigger] v0[w0])@ == y;
                    assert(v0[i as int]@ == x@);
                    let w = if w0 < i as int {
                        w0
                    } else {
                        w0 - 1
                    };
                    assert(v@[w]@ == y);
                }
                assert(strs_set(v@) =~= strs_set(v0).remove(x@));
            }
            return ;
        }
        i = i + 1;
    }
    proof {
        assert(!strs_set(v@).contains(x@));
        assert(strs_set(v@) =~= strs_set(v@).remove(x@));
    }
}

/// Applies the server's deltas to the current set of shallow shas:
/// `Shallow` inserts, `NotShallow` removes (a no-op when absent).
#[verifier::loop_isolation(false)]
pub fn update_shallow_set(set: Vec<String>, deltas: &Vec<ShallowInfo>) -> (r: Vec<String>)
    requires
        unique_strs(set@),
    ensures
        unique_strs(r@),
        strs_set(r@) == apply_deltas(strs_set(set@), deltas@),
{
    let mut cur = set;
    let mut i: usize = 0;
    proof {
        assert(deltas@.skip(0) =~= deltas@);
    }
    while i < deltas.len()
        invariant
            i <= deltas@.len(),
            unique_strs(cur@),
            apply_deltas(strs_set(set@), deltas@) == apply_deltas(
                strs_set(cur@),
                deltas@.skip(i as int),
            ),
        decreases deltas@.len() - i,
    {
        let ghost pre = strs_set(cur@);
        let ghost rem = deltas@.skip(i as int);
        proof {
            assert(rem.len() > 0 && rem[0] == deltas@[i as int]);
            assert(rem.drop_first() =~= deltas@.skip(i as int + 1));
        }
        match &deltas[i] {
            ShallowInfo::Shallow(sha) => {
                if !vec_contains_string(&cur, sha) {
                    let ghost cur0 = cur@;
                    cur.push(sha.clone());
                    proof {
                        assert forall|a: int, b: int| 0 <= a < b < cur@.len() implies (
                        #[trigger] cur@[a])@ != (#[trigger] cur@[b])@ by {
                            if b < cur@.len() - 1 {
                                assert(cur@[a] == cur0[a] && cur@[b] == cur0[b]);
                            } else {
                                assert(cur@[b]@ == sha@ && cur@[a] == cur0[a]);
                                assert(strs_set(cur0).contains(cur0[a]@));
                            }
                        }
                        assert forall|y: Seq<char>| strs_set(cur@).contains(y) implies pre.insert(
                            sha@,
                        ).contains(y) by {
                            let w = choose|w: int| 0 <= w < cur@.len() && (#[trigger] cur@[w])@
                                == y;
                            if w < cur0.len() {
                                assert(cur0[w]@ == y);
                            }
                        }
                        assert forall|y: Seq<char>| pre.insert(sha@).contains(y) implies strs_set(
                            cur@,
                        ).contains(y) by {
                            if y == sha@ {
                                assert(cur@[cur@.len() - 1]@ == y);
                            } else {
                                let w = choose|w: int|
                                    0 <= w < cur0.len() && (#[trigger] cur0[w])@ == y;
                                assert(cur@[w]@ == y);
                            }
                        }
                        assert(strs_set(cur@) =~= pre.insert(sha@));
                        assert(apply_one(pre, deltas@[i as int]) == strs_set(cur@));
                    }
                } else {
                    proof {
                        assert(pre.insert(sha@) =~= pre);
                        assert(apply_one(pre, deltas@[i as int]) == strs_set(cur@));
                    }
                }
            },
            ShallowInfo::NotShallow(sha) => {
                remove_string(&mut cur, sha);
                proof {
                    assert(apply_one(pre, deltas@[i as int]) == strs_set(cur@));
                }
            },
        }
        i = i + 1;
    }
    proof {
        assert(deltas@.skip(deltas@.len() as int) =~= Seq::<ShallowInfo>::empty());
    }
    cur
}

/// Whether the names are in strictly ascending lexicographic order.
pub open spec fn strict_sorted(l: Seq<Seq<char>>) -> bool {
    forall|i: int, j: int| 0 <= i < j < l.len() ==> lex_lt(#[trigger] l[i], #[trigger] l[j])
}

/// Sorts unique names into strictly ascending lexicographic order.
#[verifier::loop_isolation(false)]
pub fn sort_strings(v: Vec<String>) -> (r: Vec<String>)
    requires
        unique_strs(v@),
    ensures
        strict_sorted(r@.map_values(|s: String| s@)),
        strs_set(r@) == strs_set(v@),
{
    let mut out: Vec<String> = Vec::new();
    let mut i: usize = 0;
    while i < v.len()
        invariant
            i <= v@.len(),
            unique_strs(v@),
            strict_sorted(out@.map_values(|s: String| s@)),
            strs_set(out@) =~= strs_set(v@.take(i as int)),
        decreases v@.len() - i,
    {
        let x = v[i].clone();
        proof {
            assert(!strs_set(out@).contains(x@)) by {
                if strs_set(v@.take(i as int)).contains(x@) {
                    let w = choose|w: int|
                        0 <= w < i && (#[trigger] v@.take(i as int)[w])@ == x@;
                    assert(v@[w]@ == v@[i as int]@);
                }
            }
        }
        let mut idx: usize = 0;
        while idx < out.len() && lex_less(out[idx].as_str(), x.as_str())
            invariant
                idx <= out@.len(),
                forall|j: int|
                    0 <= j < idx ==> lex_lt((#[trigger] out@[j])@, x@),
            decreases out@.len() - idx,
        {
            idx = idx + 1;
        }
        let ghost out0 = out@;
        proof {
            if (idx as int) < out0.len() {
                assert(!lex_lt(out0[idx as int]@, x@));
                assert(out0[idx as int]@ != x@) by {
                    assert(strs_set(out0).contains(out0[idx as int]@));
                }
                crate::text::lemma_lex_connected(out0[idx as int]@, x@);
                assert(lex_lt(x@, out0[idx as int]@));
            }
        }
        out.insert(idx, x);
        proof {
            let m = |s: String| s@;
            let ov = out0.map_values(m);
            let nv = out@.map_values(m);
            assert(out@ =~= out0.take(idx as int).push(v@[i as int]) + out0.skip(idx as int));
            assert forall|a: int, b: int| 0 <= a < b < nv.len() implies lex_lt(
                #[trigger] nv[a],
                #[trigger] nv[b],
            ) by {
                let a0 = if a < idx as int {
                    a
                } else {
                    a - 1
                };
                let b0 = if b < idx as int {
                    b
                } else {
                    b - 1
                };
                if a == idx as int {
                    assert(nv[a] == x@ && nv[b] == ov[b0]);
                    assert(lex_lt(x@, ov[idx as int])) by {}
                    if b0 > idx as int {
                        assert(lex_lt(ov[idx as int], ov[b0]));
                        crate::text::lemma_lex_trans(x@, ov[idx as int], ov[b0]);
                    }
                } else if b == idx as int {
                    assert(nv[b] == x@ && nv[a] == ov[a0]);
                    assert(lex_lt(ov[a0], x@));
                } else {
                    assert(nv[a] == ov[a0] && nv[b] == ov[b0]);
                    assert(lex_lt(ov[a0], ov[b0]));
                }
            }
            assert forall|y: Seq<char>| strs_set(out@).contains(y) implies strs_set(
                v@.take(i as int + 1),
            ).contains(y) by {
                let w = choose|w: int| 0 <= w < out@.len() && (#[trigger] out@[w])@ == y;
                if w == idx as int {
                    assert(v@.take(i as int + 1)[i as int]@ == y);
                } else {
                    let w0 = if w < idx as int {
                        w
                    } else {
                        w - 1
                    };
                    assert(out0[w0]@ == y);
                    assert(strs_set(v@.take(i as int)).contains(y));
                    let u = choose|u: int|
                        0 <= u < i && (#[trigger] v@.take(i as int)[u])@ == y;
                    assert(v@.take(i as int + 1)[u]@ == y);
                }
            }
            assert forall|y: Seq<char>| strs_set(v@.take(i as int + 1)).contains(y)
                implies strs_set(out@).contains(y) by {
                let u = choose|u: int| 0 <= u < i + 1 && (#[trigger] v@.take(i as int + 1)[u])@
                    == y;
                if u < i {
                    assert(strs_set(v@.take(i as int)).contains(y)) by {
                        assert(v@.take(i as int)[u]@ == y);
                    }
                    let w0 = choose|w0: int| 0 <= w0 < out0.len() && (#[trigger] out0[w0])@ == y;
                    let w = if w0 < idx as int {
                        w0
                    } else {
                        w0 + 1
                    };
                    assert(out@[w]@ == y);
                } else {
                    assert(out@[idx as int]@ == y);
                }
            }
            assert(strs_set(out@) =~= strs_set(v@.take(i as int + 1)));
        }
        i = i + 1;
    }
    proof {
        assert(v@.take(v@.len() as int) =~= v@);
    }
    out
}

/// Strictly sorted lists with the same contents are the same list, so the
/// rendered file is determined by the set of shas alone.
pub proof fn lemma_canonical_unique(a: Seq<Seq<char>>, b: Seq<Seq<char>>)
    requires
        strict_sorted(a),
        strict_sorted(b),
        seqs_set(a) == seqs_set(b),
    ensures
        a == b,
    decreases a.len(),
{
    if a.len() == 0 {
        if b.len() > 0 {
            assert(b[0] == b[0]);
            assert(seqs_set(b).contains(b[0]));
            assert(seqs_set(a).contains(b[0]));
            let w = choose|w: int| 0 <= w < a.len() && a[w] == b[0];
            assert(false);
        }
        assert(a =~= b);
    } else if b.len() == 0 {
        assert(a[0] == a[0]);
        assert(seqs_set(a).contains(a[0]));
        assert(seqs_set(b).contains(a[0]));
        let w = choose|w: int| 0 <= w < b.len() && b[w] == a[0];
        assert(false);
    } else {
        assert(a[a.len() - 1] == a.last());
        assert(b[b.len() - 1] == b.last());
        assert(seqs_set(a).contains(a.last()));
        assert(seqs_set(b).contains(b.last()));
        assert(seqs_set(b).contains(a.last()));
        assert(seqs_set(a).contains(b.last()));
        let ia = choose|i: int| 0 <= i < a.len() && a[i] == b.last();
        let ib = choose|i: int| 0 <= i < b.len() && b[i] == a.last();
        if a.last() != b.last() {
            crate::text::lemma_lex_connected(a.last(), b.last());
            if lex_lt(a.last(), b.last()) {
                assert(ia < a.len() - 1);
                assert(lex_lt(a[ia], a.last()));
                crate::text::lemma_lex_irrefl(a.last());
                crate::text::lemma_lex_trans(a.last(), b.last(), a.last());
                assert(false);
            } else {
                assert(ib < b.len() - 1);
                assert(lex_lt(b[ib], b.last()));
                crate::text::lemma_lex_irrefl(b.last());
                crate::text::lemma_lex_trans(b.last(), a.last(), b.last());
                assert(false);
            }
        }
        let a0 = a.drop_last();
        let b0 = b.drop_last();
        assert forall|x: Seq<char>| seqs_set(a0).contains(x) implies seqs_set(b0).contains(x) by {
            let i = choose|i: int| 0 <= i < a0.len() && (#[trigger] a0[i]) == x;
            assert(a[i] == x);
            assert(lex_lt(x, a.last()));
            assert(seqs_set(b).contains(x));
            let j = choose|j: int| 0 <= j < b.len() && (#[trigger] b[j]) == x;
            if j == b.len() - 1 {
                crate::text::lemma_lex_irrefl(x);
                assert(false);
            }
            assert(b0[j] == x);
        }
        assert forall|x: Seq<char>| seqs_set(b0).contains(x) implies seqs_set(a0).contains(x) by {
            let i = choose|i: int| 0 <= i < b0.len() && (#[trigger] b0[i]) == x;
            assert(b[i] == x);
            assert(lex_lt(x, b.last()));
            assert(seqs_set(a).contains(x));
            let j = choose|j: int| 0 <= j < a.len() && (#[trigger] a[j]) == x;
            if j == a.len() - 1 {
                crate::text::lemma_lex_irrefl(x);
                assert(false);
            }
            assert(a0[j] == x);
        }
        assert(seqs_set(a0) =~= seqs_set(b0));
        lemma_canonical_unique(a0, b0);
        assert(a0.len() == b0.len());
        assert(a.len() == b.len());
        assert forall|i: int| 0 <= i < a.len() implies a[i] == b[i] by {
            if i < a.len() - 1 {
                assert(a0[i] == b0[i]);
                assert(a[i] == a0[i]);
                assert(b[i] == b0[i]);
            } else {
                assert(a[i] == a.last() && b[i] == b.last());
            }
        }
        assert(a =~= b);
    }
}

/// The file text for a list of shas: each followed by a line feed.
pub open spec fn spec_render(l: Seq<Seq<char>>) -> Seq<char>
    decreases l.len(),
{
    if l.len() == 0 {
        Seq::empty()
    } else {
        l[0] + seq!['\n'] + spec_render(l.drop_first())
    }
}

proof fn lemma_render_snoc(l: Seq<Seq<char>>, x: Seq<char>)
    ensures
        spec_render(l.push(x)) == spec_render(l) + x + seq!['\n'],
    decreases l.len(),
{
    if l.len() == 0 {
        assert(l.push(x)[0] == x);
        assert(l.push(x).drop_first() =~= Seq::<Seq<char>>::empty());
        assert(spec_render(l.push(x).drop_first()) == Seq::<char>::empty());
        assert(spec_render(l) == Seq::<char>::empty());
        assert(spec_render(l.push(x)) == x + seq!['\n'] + spec_render(l.push(x).drop_first()));
        assert(spec_render(l.push(x)) =~= spec_render(l) + x + seq!['\n']);
    } else {
        assert(l.push(x)[0] == l[0]);
        assert(l.push(x).drop_first() =~= l.drop_first().push(x));
        lemma_render_snoc(l.drop_first(), x);
        assert(spec_render(l.push(x)) == l[0] + seq!['\n'] + spec_render(
            l.drop_first().push(x),
        ));
        assert(spec_render(l) == l[0] + seq!['\n'] + spec_render(l.drop_first()));
        assert(l[0] + seq!['\n'] + (spec_render(l.drop_first()) + x + seq!['\n']) =~= (l[0]
            + seq!['\n'] + spec_render(l.drop_first())) + x + seq!['\n']);
        assert(spec_render(l.push(x)) == l[0] + seq!['\n'] + (spec_render(l.drop_first()) + x
            + seq!['\n']));
    }
}

/// Renders the shas one per line, each terminated by a line feed.
#[verifier::loop_isolation(false)]
pub fn render_lines(v: &Vec<String>) -> (r: String)
    ensures
        r@ == spec_render(v@.map_values(|s: String| s@)),
{
    let mut out = String::new();
    let mut i: usize = 0;
    proof {
        assert(v@.map_values(|s: String| s@).take(0) =~= Seq::<Seq<char>>::empty());
    }
    while i < v.len()
        invariant
            i <= v@.len(),
            out@ == spec_render(v@.map_values(|s: String| s@).take(i as int)),
        decreases v@.len() - i,
    {
        let ghost m = v@.map_values(|s: String| s@);
        out.append(v[i].as_str());
        push_char(&mut out, '\n');
        proof {
            assert(m.take(i as int + 1) =~= m.take(i as int).push(m[i as int]));
            lemma_render_snoc(m.take(i as int), m[i as int]);
            assert(out@ =~= spec_render(m.take(i as int + 1)));
        }
        i = i + 1;
    }
    proof {
        assert(v@.map_values(|s: String| s@).take(v@.len() as int) =~= v@.map_values(
            |s: String| s@,
        ));
    }
    out
}

/// The replacement contents of the shallow file after applying `deltas` to
/// the current `content`: the updated set, sorted, one sha per line.
pub fn shallow_file_contents(content: &str, deltas: &Vec<ShallowInfo>) -> (r: String)
    ensures
        exists|l: Seq<Seq<char>>|
            strict_sorted(l) && seqs_set(l) == apply_deltas(lines_set(content@), deltas@) && r@
                == spec_render(l),
{
    let cur = parse_shallow_lines(content);
    let merged = update_shallow_set(cur, deltas);
    let sorted = sort_strings(merged);
    let r = render_lines(&sorted);
    proof {
        let l = sorted@.map_values(|s: String| s@);
        assert(seqs_set(l) =~= strs_set(sorted@)) by {
            assert forall|x: Seq<char>| seqs_set(l).contains(x) implies strs_set(
                sorted@,
            ).contains(x) by {
                let i = choose|i: int| 0 <= i < l.len() && (#[trigger] l[i]) == x;
                assert(sorted@[i]@ == x);
            }
            assert forall|x: Seq<char>| strs_set(sorted@).contains(x) implies seqs_set(
                l,
            ).contains(x) by {
                let i = choose|i: int| 0 <= i < sorted@.len() && (#[trigger] sorted@[i])@ == x;
                assert(l[i] == x);
            }
        }
        assert(strict_sorted(l) && seqs_set(l) == apply_deltas(lines_set(content@), deltas@) && r@
            == spec_render(l));
    }
    r
}

} // verus!
