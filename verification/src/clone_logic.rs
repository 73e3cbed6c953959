//! The clone orchestrator's decisions: which ref prefixes to request, which
//! refs are branches or reachable tags, when the deepening loop stops, the
//! local directory name for a URL path, and the natural-order choice of a
//! tag.  The caller performs the network and subprocess work.
use vstd::prelude::*;

use crate::fallback::{
    names_view, parse_error_msg_matches, parse_ok, parse_scan, reaches, resolve, rules_view,
    spec_bfs, spec_lookup, BranchFallback, lookup_last,
};
use crate::protocol::RefInfo;
use crate::text::{has_prefix, spec_split, split_char, strip_prefix};

verus! {

/// What `natord::compare` returns for two names.
pub uninterp spec fn nat_cmp_of(a: Seq<char>, b: Seq<char>) -> core::cmp::Ordering;

/// Relies on `natord::compare`: the natural-order comparison of two names
/// (digit runs compared as numbers) is a function of their characters alone.
#[verifier::external_body]
fn natural_cmp(a: &str, b: &str) -> (r: core::cmp::Ordering)
    ensures
        r == nat_cmp_of(a@, b@),
{
    natord::compare(a, b)
}

/// The running maximum of a natural-order scan: a later name replaces the
/// best one unless the best compares greater.
pub open spec fn max_fold(acc: Seq<char>, rest: Seq<Seq<char>>) -> Seq<char>
    decreases rest.len(),
{
    if rest.len() == 0 {
        acc
    } else {
        max_fold(
            if nat_cmp_of(acc, rest[0]) == core::cmp::Ordering::Greater {
                acc
            } else {
                rest[0]
            },
            rest.drop_first(),
        )
    }
}

/// The last maximal name under natural order, if any.
pub open spec fn spec_max_natural(ts: Seq<Seq<char>>) -> Option<Seq<char>> {
    if ts.len() == 0 {
        None
    } else {
        Some(max_fold(ts[0], ts.drop_first()))
    }
}

/// The running minimum of a natural-order scan: a later name replaces the
/// best one only when the best compares greater.
pub open spec fn min_fold(acc: Seq<char>, rest: Seq<Seq<char>>) -> Seq<char>
    decreases rest.len(),
{
    if rest.len() == 0 {
        acc
    } else {
        min_fold(
            if nat_cmp_of(acc, rest[0]) == core::cmp::Ordering::Greater {
                rest[0]
            } else {
                acc
            },
            rest.drop_first(),
        )
    }
}

/// The first minimal name under natural order, if any.
pub open spec fn spec_min_natural(ts: Seq<Seq<char>>) -> Option<Seq<char>> {
    if ts.len() == 0 {
        None
    } else {
        Some(min_fold(ts[0], ts.drop_first()))
    }
}

/// Picks the maximum name under natural order (ties keep the later name).
#[verifier::loop_isolation(false)]
pub fn max_natural(tags: &Vec<String>) -> (r: Option<String>)
    ensures
        match r {
            Some(t) => spec_max_natural(names_view(tags@)) == Some(t@),
            None => tags@.len() == 0,
        },
{
    let ghost tv = names_view(tags@);
    if tags.len() == 0 {
        return None;
    }
    let mut acc = tags[0].clone();
    let mut i: usize = 1;
    proof {
        assert(tv.skip(1) =~= tv.drop_first());
    }
    while i < tags.len()
        invariant
            1 <= i <= tags@.len(),
            max_fold(tv[0], tv.drop_first()) == max_fold(acc@, tv.skip(i as int)),
        decreases tags@.len() - i,
    {
        let ghost rem = tv.skip(i as int);
        proof {
            assert(rem[0] == tv[i as int]);
            assert(rem.drop_first() =~= tv.skip(i as int + 1));
        }
        let c = natural_cmp(acc.as_str(), tags[i].as_str());
        match c {
            core::cmp::Ordering::Greater => {},
            _ => {
                acc = tags[i].clone();
            },
        }
        i = i + 1;
    }
    proof {
        assert(tv.skip(tags@.len() as int) =~= Seq::<Seq<char>>::empty());
    }
    Some(acc)
}

/// Picks the minimum name under natural order (ties keep the earlier name).
#[verifier::loop_isolation(false)]
pub fn min_natural(tags: &Vec<String>) -> (r: Option<String>)
    ensures
        match r {
            Some(t) => spec_min_natural(names_view(tags@)) == Some(t@),
            None => tags@.len() == 0,
        },
{
    let ghost tv = names_view(tags@);
    if tags.len() == 0 {
        return None;
    }
    let mut acc = tags[0].clone();
    let mut i: usize = 1;
    proof {
        assert(tv.skip(1) =~= tv.drop_first());
    }
    while i < tags.len()
        invariant
            1 <= i <= tags@.len(),
            min_fold(tv[0], tv.drop_first()) == min_fold(acc@, tv.skip(i as int)),
        decreases tags@.len() - i,
    {
        let ghost rem = tv.skip(i as int);
        proof {
            assert(rem[0] == tv[i as int]);
            assert(rem.drop_first() =~= tv.skip(i as int + 1));
        }
        let c = natural_cmp(acc.as_str(), tags[i].as_str());
        match c {
            core::cmp::Ordering::Greater => {
                acc = tags[i].clone();
            },
            _ => {},
        }
        i = i + 1;
    }
    proof {
        assert(tv.skip(tags@.len() as int) =~= Seq::<Seq<char>>::empty());
    }
    Some(acc)
}

/// The peeled shas of a ref list, in order: the commits that tags point at.
pub open spec fn spec_peeled(rs: Seq<RefInfo>) -> Seq<Seq<char>>
    decreases rs.len(),
{
    if rs.len() == 0 {
        Seq::empty()
    } else {
        (match rs[0].peeled {
            Some(p) => seq![p@],
            None => Seq::empty(),
        }) + spec_peeled(rs.drop_first())
    }
}

/// Collects the peeled shas of the ref list: the tagged commits.
#[verifier::loop_isolation(false)]
pub fn tagged_commits(refs: &Vec<RefInfo>) -> (r: Vec<String>)
    ensures
        names_view(r@) == spec_peeled(refs@),
{
    let mut out: Vec<String> = Vec::new();
    let mut i: usize = 0;
    proof {
        assert(refs@.skip(0) =~= refs@);
    }
    while i < refs.len()
        invariant
            i <= refs@.len(),
            spec_peeled(refs@) =~= names_view(out@) + spec_peeled(refs@.skip(i as int)),
        decreases refs@.len() - i,
    {
        let ghost rem = refs@.skip(i as int);
        proof {
            assert(rem[0] == refs@[i as int]);
            assert(rem.drop_first() =~= refs@.skip(i as int + 1));
        }
        match &refs[i].peeled {
            Some(p) => {
                let ghost out0 = out@;
                out.push(p.clone());
                proof {
                    assert(names_view(out@) =~= names_view(out0).push(out@.last()@));
                }
            },
            None => {},
        }
        i = i + 1;
    }
    proof {
        assert(refs@.skip(refs@.len() as int) =~= Seq::<RefInfo>::empty());
    }
    out
}

/// Whether the two lists share a name: does the fetched history reach a
/// tagged commit?
pub fn any_common(commits: &Vec<String>, tagged: &Vec<String>) -> (r: bool)
    ensures
        r == exists|i: int, j: int|
            0 <= i < commits@.len() && 0 <= j < tagged@.len() && (#[trigger] commits@[i])@ == (
            #[trigger] tagged@[j])@,
{
    let mut i: usize = 0;
    while i < commits.len()
        invariant
            i <= commits@.len(),
            forall|a: int, b: int|
                0 <= a < i && 0 <= b < tagged@.len() ==> (#[trigger] commits@[a])@ != (
                #[trigger] tagged@[b])@,
        decreases commits@.len() - i,
    {
        if crate::shallow::vec_contains_string(tagged, &commits[i]) {
            proof {
                let b = choose|b: int| 0 <= b < tagged@.len() && (#[trigger] tagged@[b])@ == (
                commits@[i as int])@;
                assert((commits@[i as int])@ == (tagged@[b])@);
            }
            return true;
        }
        proof {
            assert forall|b: int| 0 <= b < tagged@.len() implies (commits@[i as int])@ != (
            #[trigger] tagged@[b])@ by {
                assert(!crate::shallow::strs_set(tagged@).contains((commits@[i as int])@));
            }
        }
        i = i + 1;
    }
    false
}

/// How much deeper the next fetch reaches when no tag was found yet.
pub const DEPTH_STEP: usize = 50;

/// The next depth of the deepening loop.
pub fn next_depth(depth: usize) -> (r: usize)
    requires
        depth + DEPTH_STEP <= usize::MAX,
    ensures
        r == depth + DEPTH_STEP,
{
    depth + DEPTH_STEP
}

/// Whether `suf` ends `s`.
pub open spec fn has_suffix(s: Seq<char>, suf: Seq<char>) -> bool {
    s.len() >= suf.len() && s.skip((s.len() - suf.len()) as int) == suf
}

fn ends_with(s: &str, suf: &str) -> (r: bool)
    ensures
        r == has_suffix(s@, suf@),
{
    let sn: usize = s.unicode_len();
    let mn: usize = suf.unicode_len();
    if sn < mn {
        proof {
            assert(!has_suffix(s@, suf@));
        }
        return false;
    }
    let mut i: usize = 0;
    while i < mn
        invariant
            i <= mn <= sn,
            sn == s@.len(),
            mn == suf@.len(),
            forall|j: int| 0 <= j < i ==> s@[sn - mn + j] == suf@[j],
        decreases mn - i,
    {
        if s.get_char(sn - mn + i) != suf.get_char(i) {
            proof {
                assert(s@.skip((sn - mn) as int)[i as int] != suf@[i as int]);
            }
            return false;
        }
        i = i + 1;
    }
    proof {
        assert(s@.skip((sn - mn) as int) =~= suf@);
    }
    true
}

/// The local directory name for a repository URL path: the last segment,
/// without a trailing `.git`.
pub open spec fn spec_dir_name(path: Seq<char>) -> Seq<char> {
    let last = spec_split(path, '/').last();
    if has_suffix(last, ".git"@) {
        last.take((last.len() - (".git"@).len()) as int)
    } else {
        last
    }
}

/// Derives the local directory name from a URL path.
pub fn local_dir_name(path: &str) -> (r: String)
    ensures
        r@ == spec_dir_name(path@),
{
    let parts = split_char(path, '/');
    proof {
        crate::text::lemma_split_nonempty(path@, '/');
    }
    let last = parts[parts.len() - 1].clone();
    proof {
        assert(names_view(parts@).last() == last@);
    }
    let n: usize = last.as_str().unicode_len();
    let m: usize = ".git".unicode_len();
    if ends_with(last.as_str(), ".git") {
        let stripped = last.as_str().substring_char(0, n - m);
        String::from_str(stripped)
    } else {
        last
    }
}

/// The ref prefix that selects the wanted branches.
pub fn heads_prefix(branches_starting_with: &Option<String>) -> (r: String)
    ensures
        r@ == "refs/heads/"@ + (match branches_starting_with {
            Some(b) => b@,
            None => Seq::<char>::empty(),
        }),
{
    let mut p = String::from_str("refs/heads/");
    match branches_starting_with {
        Some(b) => {
            p.append(b.as_str());
        },
        None => {
            proof {
                assert(p@ =~= "refs/heads/"@ + Seq::<char>::empty());
            }
        },
    }
    p
}

/// The ref prefix that selects the wanted tags.
pub fn tags_prefix(tags_starting_with: &Option<String>) -> (r: String)
    ensures
        r@ == "refs/tags/"@ + (match tags_starting_with {
            Some(t) => t@,
            None => Seq::<char>::empty(),
        }),
{
    let mut p = String::from_str("refs/tags/");
    match tags_starting_with {
        Some(t) => {
            p.append(t.as_str());
        },
        None => {
            proof {
                assert(p@ =~= "refs/tags/"@ + Seq::<char>::empty());
            }
        },
    }
    p
}

/// The branch refs of a ref list: for each ref under `refs/heads/`, its
/// short name and its index in the list.
#[verifier::loop_isolation(false)]
pub fn head_branches(refs: &Vec<RefInfo>) -> (r: (Vec<String>, Vec<usize>))
    ensures
        r.0@.len() == r.1@.len(),
        forall|j: int|
            0 <= j < r.1@.len() ==> (#[trigger] r.1@[j]) < refs@.len() && has_prefix(
                refs@[r.1@[j] as int].refname@,
                "refs/heads/"@,
            ) && (r.0@[j])@ == refs@[r.1@[j] as int].refname@.skip(("refs/heads/"@).len() as int),
        forall|j1: int, j2: int| 0 <= j1 < j2 < r.1@.len() ==> r.1@[j1] < r.1@[j2],
        forall|k: int|
            0 <= k < refs@.len() && has_prefix((#[trigger] refs@[k]).refname@, "refs/heads/"@)
                ==> exists|j: int| 0 <= j < r.1@.len() && #[trigger] r.1@[j] == k,
{
    let mut names: Vec<String> = Vec::new();
    let mut idx: Vec<usize> = Vec::new();
    let mut i: usize = 0;
    while i < refs.len()
        invariant
            i <= refs@.len(),
            names@.len() == idx@.len(),
            forall|j: int|
                0 <= j < idx@.len() ==> (#[trigger] idx@[j]) < i && has_prefix(
                    refs@[idx@[j] as int].refname@,
                    "refs/heads/"@,
                ) && (names@[j])@ == refs@[idx@[j] as int].refname@.skip(
                    ("refs/heads/"@).len() as int,
                ),
            forall|j1: int, j2: int| 0 <= j1 < j2 < idx@.len() ==> idx@[j1] < idx@[j2],
            forall|k: int|
                0 <= k < i && has_prefix((#[trigger] refs@[k]).refname@, "refs/heads/"@) ==> exists|
                    j: int,
                |
                    0 <= j < idx@.len() && #[trigger] idx@[j] == k,
        decreases refs@.len() - i,
    {
        match strip_prefix(refs[i].refname.as_str(), "refs/heads/") {
            Some(short) => {
                let ghost idx0 = idx@;
                names.push(short);
                idx.push(i);
                proof {
                    assert(idx@.last() == i);
                    assert forall|k: int|
                        0 <= k < i + 1 && has_prefix(
                            (#[trigger] refs@[k]).refname@,
                            "refs/heads/"@,
                        ) implies exists|j: int| 0 <= j < idx@.len() && #[trigger] idx@[j] == k by {
                        if k < i {
                            let j = choose|j: int|
                                0 <= j < idx0.len() && #[trigger] idx0[j] == k;
                            assert(idx@[j] == k);
                        } else {
                            assert(idx@[idx@.len() - 1] == k);
                        }
                    }
                }
            },
            None => {},
        }
        i = i + 1;
    }
    (names, idx)
}

/// The refs whose peeled commit was fetched: for each tag ref under
/// `refs/tags/` whose peeled sha is among `commits`, its index.
#[verifier::loop_isolation(false)]
pub fn reachable_tag_indices(refs: &Vec<RefInfo>, commits: &Vec<String>) -> (r: Vec<usize>)
    ensures
        forall|j1: int, j2: int| 0 <= j1 < j2 < r@.len() ==> r@[j1] < r@[j2],
        forall|j: int| 0 <= j < r@.len() ==> (#[trigger] r@[j]) < refs@.len(),
        forall|k: int|
            0 <= k < refs@.len() ==> ((exists|j: int| 0 <= j < r@.len() && #[trigger] r@[j] == k)
                <==> (has_prefix(refs@[k].refname@, "refs/tags/"@) && match refs@[k].peeled {
                Some(p) => crate::shallow::strs_set(commits@).contains(p@),
                None => false,
            })),
{
    let mut out: Vec<usize> = Vec::new();
    let mut i: usize = 0;
    while i < refs.len()
        invariant
            i <= refs@.len(),
            forall|j1: int, j2: int| 0 <= j1 < j2 < out@.len() ==> out@[j1] < out@[j2],
            forall|j: int| 0 <= j < out@.len() ==> (#[trigger] out@[j]) < i,
            forall|k: int|
                0 <= k < i ==> ((exists|j: int|
                    0 <= j < out@.len() && #[trigger] out@[j] == k) <==> (has_prefix(
                    refs@[k].refname@,
                    "refs/tags/"@,
                ) && match refs@[k].peeled {
                    Some(p) => crate::shallow::strs_set(commits@).contains(p@),
                    None => false,
                })),
        decreases refs@.len() - i,
    {
        let is_tag = crate::text::starts_with(refs[i].refname.as_str(), "refs/tags/");
        let mut qualifies = false;
        match &refs[i].peeled {
            Some(p) => {
                if is_tag && crate::shallow::vec_contains_string(commits, p) {
                    qualifies = true;
                }
            },
            None => {},
        }
        if qualifies {
            let ghost out0 = out@;
            out.push(i);
            proof {
                assert(out@.last() == i);
                assert forall|k: int|
                    0 <= k < i + 1 implies ((exists|j: int|
                    0 <= j < out@.len() && #[trigger] out@[j] == k) <==> (has_prefix(
                    refs@[k].refname@,
                    "refs/tags/"@,
                ) && match refs@[k].peeled {
                    Some(p) => crate::shallow::strs_set(commits@).contains(p@),
                    None => false,
                })) by {
                    if k < i {
                        if exists|j: int| 0 <= j < out@.len() && #[trigger] out@[j] == k {
                            let j = choose|j: int| 0 <= j < out@.len() && #[trigger] out@[j] == k;
                            assert(j < out@.len() - 1);
                            assert(out0[j] == k);
                        }
                        if exists|j: int| 0 <= j < out0.len() && #[trigger] out0[j] == k {
                            let j = choose|j: int| 0 <= j < out0.len() && #[trigger] out0[j] == k;
                            assert(out@[j] == k);
                        }
                    } else {
                        assert(out@[out@.len() - 1] == k);
                    }
                }
            }
        } else {
            proof {
                assert forall|k: int|
                    0 <= k < i + 1 implies ((exists|j: int|
                    0 <= j < out@.len() && #[trigger] out@[j] == k) <==> (has_prefix(
                    refs@[k].refname@,
                    "refs/tags/"@,
                ) && match refs@[k].peeled {
                    Some(p) => crate::shallow::strs_set(commits@).contains(p@),
                    None => false,
                })) by {
                    if k == i {
                        if exists|j: int| 0 <= j < out@.len() && #[trigger] out@[j] == k {
                            let j = choose|j: int| 0 <= j < out@.len() && #[trigger] out@[j] == k;
                            assert(out@[j] < i);
                        }
                    }
                }
            }
        }
        i = i + 1;
    }
    out
}

/// The tag's short name, from a `refs/tags/` refname.
pub fn tag_short_name(refname: &String) -> (r: Option<String>)
    ensures
        match r {
            Some(t) => has_prefix(refname@, "refs/tags/"@) && t@ == refname@.skip(
                ("refs/tags/"@).len() as int,
            ),
            None => !has_prefix(refname@, "refs/tags/"@),
        },
{
    strip_prefix(refname.as_str(), "refs/tags/")
}

/// The rules a list of rule strings parses to (meaningful when each string
/// parses).
pub open spec fn spec_rules(ss: Seq<Seq<char>>) -> Seq<(Seq<char>, Seq<char>)> {
    Seq::new(ss.len(), |k: int| (parse_scan(ss[k]).0[0], parse_scan(ss[k]).0[1]))
}

/// Finds the branch the target resolves to: parses the rule strings, runs
/// the fallback resolution, and falls back to the default branch; errors
/// carry the first rule's parse error, or report that no branch suits.
#[verifier::loop_isolation(false)]
pub fn find_branch(
    target: &String,
    rule_strings: &Vec<String>,
    default_branch: &Option<String>,
    names: &Vec<String>,
) -> (r: Result<usize, String>)
    ensures
        ({
            let ss = names_view(rule_strings@);
            let nv = names_view(names@);
            let rv = spec_rules(ss);
            if forall|k: int| 0 <= k < ss.len() ==> parse_ok(#[trigger] ss[k]) {
                match spec_bfs(rv, nv, seq![target@]) {
                    Some(bi) => r matches Ok(i) && i as int == bi && i < names@.len() && reaches(
                        rv,
                        target@,
                        (nv[i as int]),
                    ) && spec_lookup(nv, nv[i as int]) == Some(i as int),
                    None => if (default_branch matches Some(d) && spec_lookup(nv, d@) is Some) {
                        r matches Ok(i) && spec_lookup(nv, default_branch.unwrap()@) == Some(
                            i as int,
                        )
                    } else {
                        r matches Err(m) && m@ == "No suitable branch found"@
                    },
                }
            } else {
                r matches Err(m) && exists|k: int|
                    0 <= k < ss.len() && !parse_ok(#[trigger] ss[k]) && (forall|j: int|
                        0 <= j < k ==> parse_ok(#[trigger] ss[j])) && parse_error_msg_matches(
                        ss[k],
                        m@,
                    )
            }
        }),
{
    let ghost ss = names_view(rule_strings@);
    let ghost nv = names_view(names@);
    let mut rules: Vec<BranchFallback> = Vec::new();
    let mut i: usize = 0;
    while i < rule_strings.len()
        invariant
            i <= rule_strings@.len(),
            rules@.len() == i,
            forall|j: int| 0 <= j < i ==> parse_ok(#[trigger] ss[j]),
            forall|j: int|
                0 <= j < i ==> (#[trigger] rules@[j]).wf() && rules@[j].pattern@ == parse_scan(
                    ss[j],
                ).0[0] && rules@[j].replacement@ == parse_scan(ss[j]).0[1],
        decreases rule_strings@.len() - i,
    {
        match BranchFallback::parse(rule_strings[i].as_str()) {
            Ok(fb) => {
                rules.push(fb);
            },
            Err(m) => {
                proof {
                    assert(!parse_ok(ss[i as int]));
                    assert(parse_error_msg_matches(ss[i as int], m@));
                }
                return Err(m);
            },
        }
        i = i + 1;
    }
    proof {
        assert(rules_view(rules@) =~= spec_rules(ss));
    }
    let ghost rv = spec_rules(ss);
    match resolve(target, &rules, names) {
        Some(i) => {
            proof {
                assert(reaches(rv, target@, nv[i as int]) && spec_lookup(nv, nv[i as int]) == Some(
                    i as int,
                ));
            }
            Ok(i)
        },
        None => {
            match default_branch {
                Some(d) => {
                    match lookup_last(names, d) {
                        Some(j) => Ok(j),
                        None => Err(String::from_str("No suitable branch found")),
                    }
                },
                None => Err(String::from_str("No suitable branch found")),
            }
        },
    }
}

} // verus!
