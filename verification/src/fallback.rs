//! Branch-fallback rules and resolution.
//!
//! A rule is written `<D>pattern<D>replacement<D>` where `<D>` is the first
//! character of the input; a backslash escapes `<D>` and is otherwise kept
//! verbatim.  Resolution runs a breadth-first search over rewrites of the
//! target name, enqueuing a rewrite only when it is strictly shorter, which
//! bounds every rewrite chain by the target's length.
use vstd::prelude::*;

use vstd::arithmetic::power::pow;

use crate::text::{has_prefix, push_char};

verus! {

/// Whether the regex crate accepts a pattern.
pub uninterp spec fn regex_valid(pat: Seq<char>) -> bool;

/// What replacing every match of `pat` in `input` by `rep` (with `$n`
/// back-references) returns.
pub uninterp spec fn replace_all_of(pat: Seq<char>, rep: Seq<char>, input: Seq<char>) -> Seq<char>;

/// Relies on `regex::Regex::new`: whether compilation succeeds depends on
/// the pattern alone; on failure the error's rendering is returned.
#[verifier::external_body]
fn regex_compile_error(pat: &str) -> (r: Option<String>)
    ensures
        r is None <==> regex_valid(pat@),
{
    match regex::Regex::new(pat) {
        Ok(_) => None,
        Err(e) => Some(format!("{}", e)),
    }
}

/// Relies on `regex::Regex::new` and `regex::Regex::replace_all`: for a
/// pattern that compiles, the result of replacing every match is a function
/// of pattern, replacement and input alone.
#[verifier::external_body]
fn regex_replace_all(pat: &str, rep: &str, input: &str) -> (r: String)
    requires
        regex_valid(pat@),
    ensures
        r@ == replace_all_of(pat@, rep@, input@),
{
    let re = regex::Regex::new(pat).unwrap();
    re.replace_all(input, rep).into_owned()
}

/// A rewrite rule: a regular expression and a replacement template.
#[derive(Debug)]
pub struct BranchFallback {
    pub pattern: String,
    pub replacement: String,
}

impl BranchFallback {
    /// A rule is well formed when its pattern compiles.
    pub open spec fn wf(&self) -> bool {
        regex_valid(self.pattern@)
    }
}

/// One left-to-right pass of the rule scanner: `parts` are the fields closed
/// so far, `current` the field being built, `esc` whether a backslash is
/// pending.  A backslash before the delimiter yields the bare delimiter;
/// before anything else both characters are kept.  Only the first two
/// delimiters close fields.
pub open spec fn scan(
    s: Seq<char>,
    delim: char,
    parts: Seq<Seq<char>>,
    current: Seq<char>,
    esc: bool,
) -> (Seq<Seq<char>>, Seq<char>, bool)
    decreases s.len(),
{
    if s.len() == 0 {
        (parts, current, esc)
    } else {
        let c = s[0];
        let rest = s.skip(1);
        if esc {
            if c != delim {
                scan(rest, delim, parts, current + seq!['\\', c], false)
            } else {
                scan(rest, delim, parts, current + seq![c], false)
            }
        } else if c == '\\' {
            scan(rest, delim, parts, current, true)
        } else if c == delim && parts.len() < 2 {
            scan(rest, delim, parts.push(current), Seq::empty(), false)
        } else {
            scan(rest, delim, parts, current + seq![c], false)
        }
    }
}

/// The scanner's result on a rule string (first character is the delimiter).
pub open spec fn parse_scan(s: Seq<char>) -> (Seq<Seq<char>>, Seq<char>, bool)
    recommends
        s.len() > 0,
{
    scan(s.skip(1), s[0], Seq::empty(), Seq::empty(), false)
}

/// Whether a rule string has the required shape: no trailing escape, exactly
/// two closed fields, and an empty trailing field.
pub open spec fn parse_shape_ok(s: Seq<char>) -> bool {
    s.len() > 0 && !parse_scan(s).2 && parse_scan(s).1.len() == 0 && parse_scan(s).0.len() == 2
}

/// Whether a rule string parses: right shape and a pattern that compiles.
pub open spec fn parse_ok(s: Seq<char>) -> bool {
    parse_shape_ok(s) && regex_valid(parse_scan(s).0[0])
}

/// The error text for a rule string of the wrong shape.
pub open spec fn expected_format_msg(d: char) -> Seq<char> {
    "Expected format: "@ + seq![d] + "regex"@ + seq![d] + "replacement"@ + seq![d]
}

/// The fixed start of the error text for a pattern that does not compile.
pub open spec fn invalid_regex_prefix(pat: Seq<char>) -> Seq<char> {
    "Invalid regex '"@ + pat + "': "@
}

/// What the parse error for a rule string says: empty input, a trailing
/// escape, a wrong shape, or a pattern the regex crate refused.
pub open spec fn parse_error_msg_matches(s: Seq<char>, m: Seq<char>) -> bool {
    if s.len() == 0 {
        m == "Empty fallback string"@
    } else if parse_scan(s).2 {
        m == "Trailing escape character"@
    } else if !(parse_scan(s).1.len() == 0 && parse_scan(s).0.len() == 2) {
        m == expected_format_msg(s[0])
    } else {
        has_prefix(m, invalid_regex_prefix(parse_scan(s).0[0]))
    }
}

impl BranchFallback {
    /// Parses `<D>pattern<D>replacement<D>`.
    pub fn parse(s: &str) -> (r: Result<BranchFallback, String>)
        ensures
            r is Ok <==> parse_ok(s@),
            r matches Ok(fb) ==> fb.pattern@ == parse_scan(s@).0[0] && fb.replacement@ == parse_scan(
                s@,
            ).0[1] && fb.wf(),
            r matches Err(m) ==> parse_error_msg_matches(s@, m@),
    {
        let n: usize = s.unicode_len();
        if n == 0 {
            return Err(String::from_str("Empty fallback string"));
        }
        let delim = s.get_char(0);
        let mut parts: Vec<String> = Vec::new();
        let mut cur: String = String::new();
        let mut esc: bool = false;
        let mut i: usize = 1;
        proof {
            assert(parts@.map_values(|p: String| p@) =~= Seq::<Seq<char>>::empty());
            assert(s@.skip(1).skip(0) =~= s@.skip(1));
        }
        while i < n
            invariant
                1 <= i <= n,
                n == s@.len(),
                delim == s@[0],
                parse_scan(s@) == scan(
                    s@.skip(i as int),
                    delim,
                    parts@.map_values(|p: String| p@),
                    cur@,
                    esc,
                ),
                parts@.len() <= 2,
            decreases n - i,
        {
            let c = s.get_char(i);
            let ghost rem = s@.skip(i as int);
            let ghost rem2 = s@.skip(i as int + 1);
            let ghost parts0 = parts@;
            let ghost cur0 = cur@;
            proof {
                assert(rem.len() > 0 && rem[0] == c);
                assert(rem.skip(1) =~= rem2);
            }
            if esc {
                if c != delim {
                    push_char(&mut cur, '\\');
                    push_char(&mut cur, c);
                    proof {
                        assert(cur@ =~= cur0 + seq!['\\', c]);
                    }
                } else {
                    push_char(&mut cur, c);
                    proof {
                        assert(cur@ =~= cur0 + seq![c]);
                    }
                }
                esc = false;
            } else if c == '\\' {
                esc = true;
            } else if c == delim && parts.len() < 2 {
                let done = cur;
                cur = String::new();
                parts.push(done);
                proof {
                    assert(parts@.map_values(|p: String| p@) =~= parts0.map_values(
                        |p: String| p@,
                    ).push(cur0));
                }
            } else {
                push_char(&mut cur, c);
                proof {
                    assert(cur@ =~= cur0 + seq![c]);
                }
            }
            i = i + 1;
        }
        proof {
            assert(s@.skip(n as int) =~= Seq::<char>::empty());
        }
        if esc {
            return Err(String::from_str("Trailing escape character"));
        }
        let cur_len: usize = cur.as_str().unicode_len();
        if cur_len != 0 || parts.len() != 2 {
            let mut m = String::from_str("Expected format: ");
            push_char(&mut m, delim);
            m.append("regex");
            push_char(&mut m, delim);
            m.append("replacement");
            push_char(&mut m, delim);
            proof {
                assert(m@ =~= expected_format_msg(delim));
            }
            return Err(m);
        }
        let replacement = parts.pop().unwrap();
        let pattern = parts.pop().unwrap();
        proof {
            assert(pattern@ == parse_scan(s@).0[0]);
            assert(replacement@ == parse_scan(s@).0[1]);
        }
        match regex_compile_error(pattern.as_str()) {
            None => Ok(BranchFallback { pattern, replacement }),
            Some(e) => {
                let mut m = String::from_str("Invalid regex '");
                m.append(pattern.as_str());
                m.append("': ");
                let ghost pfx = m@;
                m.append(e.as_str());
                proof {
                    assert(pfx =~= invalid_regex_prefix(pattern@));
                    assert(m@.take(pfx.len() as int) =~= pfx);
                }
                Err(m)
            },
        }
    }
}

/// The character sequences of a list of names.
pub open spec fn names_view(v: Seq<String>) -> Seq<Seq<char>> {
    v.map_values(|s: String| s@)
}

/// The mathematical content of a rule list.
pub open spec fn rules_view(fbs: Seq<BranchFallback>) -> Seq<(Seq<char>, Seq<char>)> {
    fbs.map_values(|fb: BranchFallback| (fb.pattern@, fb.replacement@))
}

/// One admissible rewrite: some rule maps `from` to `to`, changing it and
/// making it strictly shorter.
pub open spec fn step_of(
    rules: Seq<(Seq<char>, Seq<char>)>,
    from: Seq<char>,
    to: Seq<char>,
) -> bool {
    exists|k: int|
        0 <= k < rules.len() && to == replace_all_of(rules[k].0, rules[k].1, from) && to != from
            && to.len() < from.len()
}

/// A non-empty sequence of names where each one rewrites to the next.
pub open spec fn is_chain(rules: Seq<(Seq<char>, Seq<char>)>, ch: Seq<Seq<char>>) -> bool {
    ch.len() >= 1 && forall|i: int|
        0 <= i < ch.len() - 1 ==> step_of(rules, ch[i], #[trigger] ch[i + 1])
}

/// Whether `b` can be reached from `a` by admissible rewrites.
pub open spec fn reaches(rules: Seq<(Seq<char>, Seq<char>)>, a: Seq<char>, b: Seq<char>) -> bool {
    exists|ch: Seq<Seq<char>>| is_chain(rules, ch) && ch[0] == a && ch.last() == b
}

/// The index a name lookup returns: the last position holding the key.
pub open spec fn spec_lookup(names: Seq<Seq<char>>, key: Seq<char>) -> Option<int>
    decreases names.len(),
{
    if names.len() == 0 {
        None
    } else if names.last() == key {
        Some(names.len() - 1)
    } else {
        spec_lookup(names.drop_last(), key)
    }
}

/// What a successful or failed lookup says about the sequence.
pub proof fn lemma_lookup_props(names: Seq<Seq<char>>, key: Seq<char>)
    ensures
        match spec_lookup(names, key) {
            Some(i) => 0 <= i < names.len() && names[i] == key,
            None => forall|j: int| 0 <= j < names.len() ==> names[j] != key,
        },
    decreases names.len(),
{
    if names.len() > 0 && names.last() != key {
        lemma_lookup_props(names.drop_last(), key);
        match spec_lookup(names, key) {
            Some(i) => {
                assert(names.drop_last()[i] == names[i]);
            },
            None => {
                assert forall|j: int| 0 <= j < names.len() implies names[j] != key by {
                    if j < names.len() - 1 {
                        assert(names.drop_last()[j] == names[j]);
                    } else {
                        assert(names[j] == names.last());
                    }
                }
            },
        }
    }
}

/// Looks a name up, returning the last index that holds it.
pub fn lookup_last(names: &Vec<String>, key: &String) -> (r: Option<usize>)
    ensures
        match r {
            Some(i) => spec_lookup(names_view(names@), key@) == Some(i as int),
            None => spec_lookup(names_view(names@), key@) is None,
        },
{
    let ghost nv = names_view(names@);
    proof {
        assert(nv.take(names@.len() as int) =~= nv);
    }
    let mut i: usize = names.len();
    while i > 0
        invariant
            i <= names@.len(),
            nv == names_view(names@),
            spec_lookup(nv, key@) == spec_lookup(nv.take(i as int), key@),
        decreases i,
    {
        i = i - 1;
        if names[i].eq(key) {
            proof {
                assert(nv.take(i as int + 1).last() == key@);
            }
            return Some(i);
        }
        proof {
            assert(nv.take(i as int + 1).last() != key@);
            assert(nv.take(i as int + 1).drop_last() =~= nv.take(i as int));
        }
    }
    proof {
        assert(nv.take(0) =~= Seq::<Seq<char>>::empty());
    }
    None
}

/// The termination potential of the unprocessed queue: the sum of
/// `b ^ length` over its entries.
pub open spec fn pot(q: Seq<Seq<char>>, b: nat) -> int
    decreases q.len(),
{
    if q.len() == 0 {
        0
    } else {
        pow(b as int, q[0].len() as nat) + pot(q.drop_first(), b)
    }
}

proof fn lemma_pot_push(q: Seq<Seq<char>>, b: nat, x: Seq<char>)
    ensures
        pot(q.push(x), b) == pot(q, b) + pow(b as int, x.len() as nat),
    decreases q.len(),
{
    assert(q.push(x).len() == q.len() + 1);
    if q.len() == 0 {
        assert(q.push(x)[0] == x);
        assert(q.push(x).drop_first() =~= Seq::<Seq<char>>::empty());
        assert(pot(q.push(x), b) == pow(b as int, x.len() as nat) + pot(
            Seq::<Seq<char>>::empty(),
            b,
        ));
        assert(pot(Seq::<Seq<char>>::empty(), b) == 0);
        assert(pot(q, b) == 0);
    } else {
        assert(q.push(x).drop_first() =~= q.drop_first().push(x));
        assert(q.push(x)[0] == q[0]);
        lemma_pot_push(q.drop_first(), b, x);
        assert(pot(q.push(x), b) == pow(b as int, q[0].len() as nat) + pot(
            q.push(x).drop_first(),
            b,
        ));
    }
}

proof fn lemma_pot_nonneg(q: Seq<Seq<char>>, b: nat)
    requires
        b >= 1,
    ensures
        pot(q, b) >= 0,
    decreases q.len(),
{
    if q.len() > 0 {
        vstd::arithmetic::power::lemma_pow_positive(b as int, q[0].len() as nat);
        lemma_pot_nonneg(q.drop_first(), b);
    }
}

proof fn lemma_pot_concat(a: Seq<Seq<char>>, c: Seq<Seq<char>>, b: nat)
    ensures
        pot(a + c, b) == pot(a, b) + pot(c, b),
    decreases a.len(),
{
    if a.len() == 0 {
        assert(a + c =~= c);
    } else {
        assert((a + c)[0] == a[0]);
        assert((a + c).drop_first() =~= a.drop_first() + c);
        lemma_pot_concat(a.drop_first(), c, b);
    }
}

/// The strictly shorter rewrites of a candidate, one per rule that changes
/// and shortens it, in rule order.
pub open spec fn children_of(rules: Seq<(Seq<char>, Seq<char>)>, c: Seq<char>) -> Seq<Seq<char>>
    decreases rules.len(),
{
    if rules.len() == 0 {
        Seq::empty()
    } else {
        let t = replace_all_of(rules[0].0, rules[0].1, c);
        (if t != c && t.len() < c.len() {
            seq![t]
        } else {
            Seq::empty()
        }) + children_of(rules.drop_first(), c)
    }
}

proof fn lemma_children_snoc(rules: Seq<(Seq<char>, Seq<char>)>, r1: (Seq<char>, Seq<char>), c: Seq<char>)
    ensures
        children_of(rules.push(r1), c) == children_of(rules, c) + ({
            let t = replace_all_of(r1.0, r1.1, c);
            if t != c && t.len() < c.len() {
                seq![t]
            } else {
                Seq::<Seq<char>>::empty()
            }
        }),
    decreases rules.len(),
{
    let t1 = replace_all_of(r1.0, r1.1, c);
    let tail = if t1 != c && t1.len() < c.len() {
        seq![t1]
    } else {
        Seq::<Seq<char>>::empty()
    };
    if rules.len() == 0 {
        assert(rules.push(r1)[0] == r1);
        assert(rules.push(r1).drop_first() =~= Seq::<(Seq<char>, Seq<char>)>::empty());
        assert(children_of(rules.push(r1).drop_first(), c) == Seq::<Seq<char>>::empty());
        assert(children_of(rules, c) == Seq::<Seq<char>>::empty());
        assert(children_of(rules.push(r1), c) =~= children_of(rules, c) + tail);
    } else {
        assert(rules.push(r1)[0] == rules[0]);
        assert(rules.push(r1).drop_first() =~= rules.drop_first().push(r1));
        lemma_children_snoc(rules.drop_first(), r1, c);
        assert(children_of(rules.push(r1), c) =~= children_of(rules, c) + tail);
    }
}

proof fn lemma_children_pot(rules: Seq<(Seq<char>, Seq<char>)>, c: Seq<char>, b: nat)
    requires
        b >= 1,
    ensures
        pot(children_of(rules, c), b) <= rules.len() * (if c.len() >= 1 {
            pow(b as int, (c.len() - 1) as nat)
        } else {
            0
        }),
    decreases rules.len(),
{
    let pb: int = if c.len() >= 1 {
        pow(b as int, (c.len() - 1) as nat)
    } else {
        0
    };
    if rules.len() == 0 {
        assert(pot(children_of(rules, c), b) == 0);
    } else {
        let t = replace_all_of(rules[0].0, rules[0].1, c);
        let head: Seq<Seq<char>> = if t != c && t.len() < c.len() {
            seq![t]
        } else {
            Seq::<Seq<char>>::empty()
        };
        lemma_pot_concat(head, children_of(rules.drop_first(), c), b);
        lemma_children_pot(rules.drop_first(), c, b);
        if t != c && t.len() < c.len() {
            assert(head[0] == t);
            assert(head.drop_first() =~= Seq::<Seq<char>>::empty());
            assert(pot(Seq::<Seq<char>>::empty(), b) == 0);
            assert(pot(head, b) == pow(b as int, t.len() as nat) + pot(head.drop_first(), b));
            vstd::arithmetic::power::lemma_pow_increases(b, t.len() as nat, (c.len() - 1) as nat);
            assert(pot(head, b) <= pb);
        } else {
            assert(pot(head, b) == 0);
            if c.len() >= 1 {
                vstd::arithmetic::power::lemma_pow_positive(b as int, (c.len() - 1) as nat);
            }
        }
        assert((rules.len() as int) * pb == pb + (rules.len() - 1) * pb) by (nonlinear_arith);
        if c.len() >= 1 {
            vstd::arithmetic::power::lemma_pow_positive(b as int, (c.len() - 1) as nat);
            assert(pot(head, b) <= pb);
        }
    }
}

/// The name the breadth-first search returns for a queue of candidates: the
/// front candidate's place in `names` if it is available, else the search
/// goes on with its strictly shorter rewrites enqueued behind the rest.
pub open spec fn spec_bfs(
    rules: Seq<(Seq<char>, Seq<char>)>,
    names: Seq<Seq<char>>,
    queue: Seq<Seq<char>>,
) -> Option<int>
    decreases pot(queue, (rules.len() + 1) as nat)
    via spec_bfs_decreases
{
    if queue.len() == 0 {
        None
    } else if spec_lookup(names, queue[0]) is Some {
        spec_lookup(names, queue[0])
    } else {
        spec_bfs(rules, names, queue.drop_first() + children_of(rules, queue[0]))
    }
}

#[via_fn]
proof fn spec_bfs_decreases(
    rules: Seq<(Seq<char>, Seq<char>)>,
    names: Seq<Seq<char>>,
    queue: Seq<Seq<char>>,
) {
    let b = (rules.len() + 1) as nat;
    lemma_pot_nonneg(queue, b);
    if queue.len() > 0 && !(spec_lookup(names, queue[0]) is Some) {
        let c = queue[0];
        let next = queue.drop_first() + children_of(rules, c);
        lemma_pot_concat(queue.drop_first(), children_of(rules, c), b);
        lemma_children_pot(rules, c, b);
        lemma_pot_nonneg(queue.drop_first(), b);
        lemma_pot_nonneg(children_of(rules, c), b);
        assert(pot(queue, b) == pow(b as int, c.len() as nat) + pot(queue.drop_first(), b)) by {
            assert(queue.drop_first() =~= queue.skip(1));
            lemma_pot_skip_unfold(queue, b, 0);
            assert(queue.skip(0) =~= queue);
        }
        if c.len() >= 1 {
            let p = pow(b as int, (c.len() - 1) as nat);
            vstd::arithmetic::power::lemma_pow_positive(b as int, (c.len() - 1) as nat);
            vstd::arithmetic::power::lemma_pow1(b as int);
            vstd::arithmetic::power::lemma_pow_adds(b as int, 1, (c.len() - 1) as nat);
            assert(c.len() as nat == 1 + ((c.len() - 1) as nat));
            assert(pow(b as int, c.len() as nat) == (b as int) * p);
            assert((rules.len() as int) * p < (b as int) * p) by (nonlinear_arith)
                requires
                    p >= 1,
                    b == rules.len() + 1,
            ;
        } else {
            vstd::arithmetic::power::lemma_pow0(b as int);
            assert(children_of(rules, c).len() == 0 || pot(children_of(rules, c), b) <= 0) by {
                lemma_children_pot(rules, c, b);
            }
        }
    }
}

proof fn lemma_pot_skip_unfold(q: Seq<Seq<char>>, b: nat, i: int)
    requires
        0 <= i < q.len(),
    ensures
        pot(q.skip(i), b) == pow(b as int, q[i].len() as nat) + pot(q.skip(i + 1), b),
{
    assert(q.skip(i).len() > 0);
    assert(q.skip(i)[0] == q[i]);
    assert(q.skip(i).drop_first() =~= q.skip(i + 1));
}

/// A rewrite never grows a name, so the names of a chain strictly shrink:
/// position `i` is at least `i` shorter than the start.
pub proof fn lemma_chain_shrinks(rules: Seq<(Seq<char>, Seq<char>)>, ch: Seq<Seq<char>>, i: int)
    requires
        is_chain(rules, ch),
        0 <= i < ch.len(),
    ensures
        ch[i].len() + i <= ch[0].len(),
    decreases i,
{
    if i > 0 {
        lemma_chain_shrinks(rules, ch, i - 1);
        assert(step_of(rules, ch[i - 1], ch[(i - 1) + 1]));
        assert(step_of(rules, ch[i - 1], ch[i]));
    }
}

/// Fallback termination: a rewrite chain that starts from a target of length
/// `L` passes through at most `L + 1` names, since every rewrite is strictly
/// shorter than the name it came from.
pub proof fn lemma_fallback_termination(rules: Seq<(Seq<char>, Seq<char>)>, ch: Seq<Seq<char>>)
    requires
        is_chain(rules, ch),
    ensures
        ch.len() <= ch[0].len() + 1,
{
    lemma_chain_shrinks(rules, ch, ch.len() - 1);
}

proof fn lemma_reaches_refl(rules: Seq<(Seq<char>, Seq<char>)>, a: Seq<char>)
    ensures
        reaches(rules, a, a),
{
    let ch = seq![a];
    assert(is_chain(rules, ch) && ch[0] == a && ch.last() == a);
}

proof fn lemma_reaches_step(
    rules: Seq<(Seq<char>, Seq<char>)>,
    a: Seq<char>,
    m: Seq<char>,
    c: Seq<char>,
)
    requires
        reaches(rules, a, m),
        step_of(rules, m, c),
    ensures
        reaches(rules, a, c),
{
    let ch = choose|ch: Seq<Seq<char>>| is_chain(rules, ch) && ch[0] == a && ch.last() == m;
    let ch2 = ch.push(c);
    assert forall|i: int| 0 <= i < ch2.len() - 1 implies step_of(rules, ch2[i], #[trigger] ch2[i
        + 1]) by {
        if i < ch.len() - 1 {
            assert(ch2[i] == ch[i] && ch2[i + 1] == ch[i + 1]);
            assert(step_of(rules, ch[i], ch[i + 1]));
        } else {
            assert(ch2[i] == ch.last() && ch2[i + 1] == c);
        }
    }
    assert(is_chain(rules, ch2) && ch2[0] == a && ch2.last() == c);
}

proof fn lemma_chain_covered(
    rules: Seq<(Seq<char>, Seq<char>)>,
    qv: Seq<Seq<char>>,
    ch: Seq<Seq<char>>,
    i: int,
)
    requires
        is_chain(rules, ch),
        qv.contains(ch[0]),
        0 <= i < ch.len(),
        forall|j: int, c: Seq<char>|
            0 <= j < qv.len() && #[trigger] step_of(rules, qv[j], c) ==> qv.contains(c),
    ensures
        qv.contains(ch[i]),
    decreases i,
{
    if i > 0 {
        lemma_chain_covered(rules, qv, ch, i - 1);
        let j = choose|j: int| 0 <= j < qv.len() && qv[j] == ch[i - 1];
        assert(step_of(rules, ch[i - 1], ch[(i - 1) + 1]));
        assert(step_of(rules, qv[j], ch[i]));
    }
}

/// Finds the available branch the target resolves to: the breadth-first
/// search tries the target, then every strictly shorter rewrite, in rule
/// order, returning the first name present in `names`.
#[verifier::loop_isolation(false)]
pub fn resolve(target: &String, fallbacks: &Vec<BranchFallback>, names: &Vec<String>) -> (r: Option<
    usize,
>)
    requires
        forall|k: int| 0 <= k < fallbacks@.len() ==> (#[trigger] fallbacks@[k]).wf(),
    ensures
        ({
            let rules = rules_view(fallbacks@);
            let nv = names_view(names@);
            &&& (match r {
                Some(i) => i < names@.len() && reaches(rules, target@, nv[i as int]) && spec_lookup(
                    nv,
                    nv[i as int],
                ) == Some(i as int),
                None => forall|c: Seq<char>|
                    reaches(rules, target@, c) ==> spec_lookup(nv, c) is None,
            })
            &&& (spec_lookup(nv, target@) is Some ==> r is Some && spec_lookup(nv, target@)
                == Some(r.unwrap() as int) && nv[r.unwrap() as int] == target@)
            &&& (match r {
                Some(i) => spec_bfs(rules, nv, seq![target@]) == Some(i as int),
                None => spec_bfs(rules, nv, seq![target@]) is None,
            })
        }),
{
    let ghost rules = rules_view(fallbacks@);
    let ghost nv = names_view(names@);
    let ghost b: nat = (fallbacks@.len() + 1) as nat;
    let mut queue: Vec<String> = Vec::new();
    queue.push(target.clone());
    let mut qi: usize = 0;
    proof {
        lemma_reaches_refl(rules, target@);
        assert(names_view(queue@) =~= seq![target@]);
        assert(names_view(queue@)[0] == target@);
    }
    while qi < queue.len()
        invariant
            qi <= queue@.len(),
            queue@.len() >= 1,
            names_view(queue@)[0] == target@,
            forall|j: int|
                0 <= j < queue@.len() ==> reaches(
                    rules,
                    target@,
                    #[trigger] names_view(queue@)[j],
                ),
            forall|j: int|
                0 <= j < qi ==> spec_lookup(nv, #[trigger] names_view(queue@)[j])
                    is None,
            forall|j: int, c: Seq<char>|
                0 <= j < qi && #[trigger] step_of(rules, names_view(queue@)[j], c)
                    ==> names_view(queue@).contains(c),
            qi > 0 ==> spec_lookup(nv, target@) is None,
            spec_bfs(rules, nv, names_view(queue@).skip(qi as int)) == spec_bfs(
                rules,
                nv,
                seq![target@],
            ),
        decreases pot(names_view(queue@).skip(qi as int), b),
    {
        let cand: String = queue[qi].clone();
        let ghost qv0 = names_view(queue@);
        proof {
            assert(qv0[qi as int] == cand@);
        }
        match lookup_last(names, &cand) {
            Some(i) => {
                proof {
                    lemma_lookup_props(nv, cand@);
                    assert(qv0.skip(qi as int)[0] == cand@);
                    assert(spec_bfs(rules, nv, qv0.skip(qi as int)) == spec_lookup(nv, cand@));
                }
                return Some(i);
            },
            None => {},
        }
        let mut k: usize = 0;
        let ghost clen = cand@.len();
        proof {
            assert(rules.take(0) =~= Seq::<(Seq<char>, Seq<char>)>::empty());
            assert(children_of(rules.take(0), cand@) == Seq::<Seq<char>>::empty());
            assert(names_view(queue@) =~= qv0 + children_of(rules.take(0), cand@));
        }
        while k < fallbacks.len()
            invariant
                k <= fallbacks@.len(),
                queue@.len() >= qv0.len(),
                names_view(queue@) == qv0 + children_of(rules.take(k as int), cand@),
                names_view(queue@).take(qv0.len() as int) == qv0,
                forall|j: int|
                    qv0.len() <= j < queue@.len() ==> step_of(
                        rules,
                        cand@,
                        #[trigger] names_view(queue@)[j],
                    ),
                forall|k2: int|
                    0 <= k2 < k ==> {
                        let t = replace_all_of(#[trigger] rules[k2].0, rules[k2].1, cand@);
                        t == cand@ || t.len() >= clen || names_view(queue@).contains(t)
                    },
                pot(names_view(queue@).skip(qi as int + 1), b) <= pot(
                    qv0.skip(qi as int + 1),
                    b,
                ) + k * (if clen >= 1 {
                    pow(b as int, (clen - 1) as nat)
                } else {
                    0
                }),
            decreases fallbacks@.len() - k,
        {
            let fb = &fallbacks[k];
            let new_cand = regex_replace_all(
                fb.pattern.as_str(),
                fb.replacement.as_str(),
                cand.as_str(),
            );
            let ghost qv_pre = names_view(queue@);
            let ghost t = replace_all_of(rules[k as int].0, rules[k as int].1, cand@);
            proof {
                assert(rules[k as int] == (fb.pattern@, fb.replacement@));
                assert(new_cand@ == t);
            }
            let changed = !new_cand.eq(&cand);
            if changed {
                let shorter = new_cand.as_str().unicode_len() < cand.as_str().unicode_len();
                if shorter {
                    proof {
                        assert(step_of(rules, cand@, new_cand@));
                        vstd::arithmetic::power::lemma_pow_increases(
                            b,
                            new_cand@.len() as nat,
                            (clen - 1) as nat,
                        );
                        vstd::arithmetic::power::lemma_pow_positive(b as int, (clen - 1) as nat);
                    }
                    queue.push(new_cand);
                    proof {
                        let qv_post = names_view(queue@);
                        assert(qv_post =~= qv_pre.push(t));
                        assert(qv_post.take(qv0.len() as int) =~= qv_pre.take(qv0.len() as int));
                        assert(qv_post.skip(qi as int + 1) =~= qv_pre.skip(qi as int + 1).push(t));
                        lemma_pot_push(qv_pre.skip(qi as int + 1), b, t);
                        assert(qv_post.contains(t)) by {
                            assert(qv_post[qv_post.len() - 1] == t);
                        }
                        assert forall|c: Seq<char>| qv_pre.contains(c) implies qv_post.contains(
                            c,
                        ) by {
                            let w = choose|w: int| 0 <= w < qv_pre.len() && qv_pre[w] == c;
                            assert(qv_post[w] == c);
                        }
                    }
                }
            }
            proof {
                if clen >= 1 {
                    let p = pow(b as int, (clen - 1) as nat);
                    vstd::arithmetic::power::lemma_pow_positive(b as int, (clen - 1) as nat);
                    assert((k as int + 1) * p == (k as int) * p + p) by (nonlinear_arith);
                    assert((k as int) * p <= (k as int + 1) * p);
                }
                lemma_children_snoc(rules.take(k as int), rules[k as int], cand@);
                assert(rules.take(k as int).push(rules[k as int]) =~= rules.take(k as int + 1));
                assert(names_view(queue@) =~= qv0 + children_of(rules.take(k as int + 1), cand@));
            }
            k = k + 1;
        }
        proof {
            let qv1 = names_view(queue@);
            // Every admissible rewrite of the processed candidate is enqueued.
            assert forall|c: Seq<char>| step_of(rules, cand@, c) implies qv1.contains(c) by {
                let k2 = choose|k2: int|
                    0 <= k2 < rules.len() && c == replace_all_of(rules[k2].0, rules[k2].1, cand@)
                        && c != cand@ && c.len() < cand@.len();
                assert(replace_all_of(rules[k2].0, rules[k2].1, cand@) == c);
            }
            // The potential strictly decreases across the iteration.
            lemma_pot_skip_unfold(qv0, b, qi as int);
            lemma_pot_nonneg(qv1.skip(qi as int + 1), b);
            lemma_pot_nonneg(qv0.skip(qi as int + 1), b);
            if clen >= 1 {
                let p = pow(b as int, (clen - 1) as nat);
                vstd::arithmetic::power::lemma_pow_positive(b as int, (clen - 1) as nat);
                vstd::arithmetic::power::lemma_pow1(b as int);
                vstd::arithmetic::power::lemma_pow_adds(b as int, 1, (clen - 1) as nat);
                assert(clen as nat == 1 + ((clen - 1) as nat));
                assert(pow(b as int, clen as nat) == (b as int) * p);
                assert((fallbacks@.len() as int) * p < (b as int) * p) by (nonlinear_arith)
                    requires
                        p >= 1,
                        b == fallbacks@.len() + 1,
                ;
            } else {
                vstd::arithmetic::power::lemma_pow0(b as int);
                assert(pow(b as int, clen as nat) == 1);
            }
            // Old entries keep their properties under the new view.
            assert forall|j: int| 0 <= j < qv0.len() implies qv1[j] == qv0[j] by {
                assert(qv1.take(qv0.len() as int)[j] == qv1[j]);
            }
            assert(reaches(rules, target@, cand@));
            assert forall|j: int| 0 <= j < qv1.len() implies reaches(
                rules,
                target@,
                #[trigger] qv1[j],
            ) by {
                if j >= qv0.len() {
                    lemma_reaches_step(rules, target@, cand@, qv1[j]);
                }
            }
            assert forall|j: int, c: Seq<char>|
                0 <= j < qi as int + 1 && #[trigger] step_of(rules, qv1[j], c) implies qv1.contains(
                c,
            ) by {
                if j < qi as int {
                    assert(step_of(rules, qv0[j], c));
                    assert(qv0.contains(c));
                    let w = choose|w: int| 0 <= w < qv0.len() && qv0[w] == c;
                    assert(qv1[w] == c);
                } else {
                    assert(qv1[j] == cand@);
                }
            }
            assert forall|j: int| 0 <= j < qi as int + 1 implies spec_lookup(
                nv,
                #[trigger] qv1[j],
            ) is None by {
                if j < qi as int {
                    assert(qv1[j] == qv0[j]);
                }
            }
            assert(rules.take(rules.len() as int) =~= rules);
            assert(qv1 == qv0 + children_of(rules, cand@));
            assert(qv1.skip(qi as int + 1) =~= qv0.skip(qi as int + 1) + children_of(
                rules,
                cand@,
            ));
            assert(qv0.skip(qi as int)[0] == cand@);
            assert(qv0.skip(qi as int).drop_first() =~= qv0.skip(qi as int + 1));
            assert(spec_bfs(rules, nv, qv0.skip(qi as int)) == spec_bfs(
                rules,
                nv,
                qv0.skip(qi as int).drop_first() + children_of(rules, cand@),
            ));
            assert(qv0.skip(qi as int).drop_first() + children_of(rules, cand@) =~= qv1.skip(
                qi as int + 1,
            ));
        }
        qi = qi + 1;
    }
    proof {
        let qv = names_view(queue@);
        assert(qv.skip(qi as int) =~= Seq::<Seq<char>>::empty());
        assert(spec_bfs(rules, nv, Seq::<Seq<char>>::empty()) is None);
        assert forall|c: Seq<char>| reaches(rules, target@, c) implies spec_lookup(nv, c)
            is None by {
            let ch = choose|ch: Seq<Seq<char>>|
                is_chain(rules, ch) && ch[0] == target@ && ch.last() == c;
            assert(qv.contains(ch[0])) by {
                assert(qv[0] == target@);
            }
            lemma_chain_covered(rules, qv, ch, ch.len() - 1);
            let j = choose|j: int| 0 <= j < qv.len() && qv[j] == c;
            assert(spec_lookup(nv, qv[j]) is None);
        }
    }
    None
}

} // verus!
