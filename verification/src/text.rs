//! Text helpers shared by the protocol and resolver modules: conversions
//! between bytes and characters, splitting, trimming, prefix handling, and
//! decimal rendering.
use vstd::prelude::*;

verus! {

/// Whether every byte is ASCII.
pub open spec fn all_ascii(b: Seq<u8>) -> bool {
    forall|i: int| 0 <= i < b.len() ==> b[i] < 0x80
}

/// The characters of an ASCII byte sequence.
pub open spec fn ascii_chars(b: Seq<u8>) -> Seq<char> {
    Seq::new(b.len(), |i: int| b[i] as char)
}

/// What `String::from_utf8_lossy` returns for a byte sequence.
pub uninterp spec fn lossy_of(b: Seq<u8>) -> Seq<char>;

/// Relies on `String::from_utf8_lossy`: the result is a function of the
/// bytes alone, and ASCII input decodes to the same characters.
#[verifier::external_body]
pub fn utf8_lossy(b: &[u8]) -> (r: String)
    ensures
        r@ == lossy_of(b@),
        all_ascii(b@) ==> r@ == ascii_chars(b@),
{
    String::from_utf8_lossy(b).into_owned()
}

/// Relies on `String::push`: appends exactly the one character.
#[verifier::external_body]
pub fn push_char(s: &mut String, c: char)
    ensures
        final(s)@ == old(s)@.push(c),
{
    s.push(c);
}

/// The pieces of `s` between occurrences of `sep`; always non-empty.
pub open spec fn spec_split(s: Seq<char>, sep: char) -> Seq<Seq<char>>
    decreases s.len(),
{
    if s.len() == 0 {
        seq![Seq::<char>::empty()]
    } else {
        let rest = spec_split(s.skip(1), sep);
        if s[0] == sep {
            seq![Seq::<char>::empty()] + rest
        } else {
            seq![seq![s[0]] + rest[0]] + rest.drop_first()
        }
    }
}

/// Splitting yields at least one piece.
pub proof fn lemma_split_nonempty(s: Seq<char>, sep: char)
    ensures
        spec_split(s, sep).len() >= 1,
    decreases s.len(),
{
    if s.len() > 0 {
        lemma_split_nonempty(s.skip(1), sep);
    }
}

/// Splits `s` at every occurrence of `sep`.
pub fn split_char(s: &str, sep: char) -> (r: Vec<String>)
    ensures
        r@.map_values(|p: String| p@) == spec_split(s@, sep),
{
    let n: usize = s.unicode_len();
    let mut parts: Vec<String> = Vec::new();
    let mut cur: String = String::new();
    let mut i: usize = 0;
    proof {
        lemma_split_nonempty(s@, sep);
        assert(s@.skip(0) =~= s@);
    }
    while i < n
        invariant
            i <= n,
            n == s@.len(),
            spec_split(s@, sep) =~= parts@.map_values(|p: String| p@) + (seq![cur@ + spec_split(
                s@.skip(i as int),
                sep,
            )[0]] + spec_split(s@.skip(i as int), sep).drop_first()),
            spec_split(s@.skip(i as int), sep).len() >= 1,
        decreases n - i,
    {
        let c = s.get_char(i);
        let ghost rem = s@.skip(i as int);
        let ghost rem2 = s@.skip(i as int + 1);
        let ghost cur0 = cur@;
        let ghost parts0 = parts@;
        proof {
            assert(rem.len() > 0 && rem[0] == c);
            assert(rem.skip(1) =~= rem2);
            lemma_split_nonempty(rem2, sep);
        }
        if c == sep {
            let done = cur;
            cur = String::new();
            parts.push(done);
            proof {
                let f = |p: String| p@;
                let sp2 = spec_split(rem2, sep);
                assert(spec_split(rem, sep) == seq![Seq::<char>::empty()] + sp2);
                assert((seq![Seq::<char>::empty()] + sp2)[0] =~= Seq::<char>::empty());
                assert((seq![Seq::<char>::empty()] + sp2).drop_first() =~= sp2);
                assert(cur0 + (seq![Seq::<char>::empty()] + sp2)[0] =~= cur0);
                assert(parts@.map_values(f) =~= parts0.map_values(f).push(cur0));
                assert(seq![cur@ + sp2[0]] + sp2.drop_first() =~= sp2);
                assert(parts0.map_values(f) + (seq![cur0 + spec_split(rem, sep)[0]] + spec_split(
                    rem,
                    sep,
                ).drop_first()) =~= parts@.map_values(f) + (seq![cur@ + sp2[0]]
                    + sp2.drop_first()));
            }
        } else {
            push_char(&mut cur, c);
            proof {
                let f = |p: String| p@;
                let sp2 = spec_split(rem2, sep);
                assert(spec_split(rem, sep) == seq![seq![c] + sp2[0]] + sp2.drop_first());
                assert((seq![seq![c] + sp2[0]] + sp2.drop_first())[0] =~= seq![c] + sp2[0]);
                assert((seq![seq![c] + sp2[0]] + sp2.drop_first()).drop_first() =~= sp2.drop_first());
                assert(cur@ + sp2[0] =~= cur0 + (seq![c] + sp2[0]));
                assert(parts0.map_values(f) + (seq![cur0 + spec_split(rem, sep)[0]] + spec_split(
                    rem,
                    sep,
                ).drop_first()) =~= parts@.map_values(f) + (seq![cur@ + sp2[0]]
                    + sp2.drop_first()));
            }
        }
        i = i + 1;
    }
    proof {
        assert(s@.skip(n as int) =~= Seq::<char>::empty());
        assert(spec_split(Seq::<char>::empty(), sep) =~= seq![Seq::<char>::empty()]);
        assert(cur@ + Seq::<char>::empty() =~= cur@);
    }
    parts.push(cur);
    proof {
        assert(parts@.map_values(|p: String| p@) =~= parts@.drop_last().map_values(
            |p: String| p@,
        ).push(parts@.last()@));
        assert(parts@.map_values(|p: String| p@) =~= spec_split(s@, sep));
    }
    parts
}

/// Whether a character counts as surrounding whitespace when reading the
/// shallow file.
pub open spec fn is_space(c: char) -> bool {
    c == ' ' || c == '\t' || c == '\r' || c == '\n' || c == '\u{b}' || c == '\u{c}'
}

fn is_space_exec(c: char) -> (r: bool)
    ensures
        r == is_space(c),
{
    c == ' ' || c == '\t' || c == '\r' || c == '\n' || c == '\u{b}' || c == '\u{c}'
}

/// `s` without leading whitespace.
pub open spec fn spec_trim_start(s: Seq<char>) -> Seq<char>
    decreases s.len(),
{
    if s.len() > 0 && is_space(s[0]) {
        spec_trim_start(s.skip(1))
    } else {
        s
    }
}

/// `s` without trailing whitespace.
pub open spec fn spec_trim_end(s: Seq<char>) -> Seq<char>
    decreases s.len(),
{
    if s.len() > 0 && is_space(s[s.len() - 1]) {
        spec_trim_end(s.drop_last())
    } else {
        s
    }
}

/// `s` without surrounding whitespace.
pub open spec fn spec_trim(s: Seq<char>) -> Seq<char> {
    spec_trim_end(spec_trim_start(s))
}

proof fn lemma_trim_start_at(s: Seq<char>, i: int)
    requires
        0 <= i <= s.len(),
        forall|j: int| 0 <= j < i ==> is_space(s[j]),
        i == s.len() || !is_space(s[i]),
    ensures
        spec_trim_start(s) == s.skip(i),
    decreases i,
{
    if i == 0 {
        assert(s.skip(0) =~= s);
    } else {
        assert(is_space(s[0]));
        lemma_trim_start_at(s.skip(1), i - 1);
        assert(s.skip(1).skip(i - 1) =~= s.skip(i));
    }
}

proof fn lemma_trim_end_at(s: Seq<char>, i: int)
    requires
        0 <= i <= s.len(),
        forall|j: int| i <= j < s.len() ==> is_space(s[j]),
        i == 0 || !is_space(s[i - 1]),
    ensures
        spec_trim_end(s) == s.take(i),
    decreases s.len() - i,
{
    if i == s.len() {
        assert(s.take(i) =~= s);
    } else {
        assert(is_space(s[s.len() - 1]));
        lemma_trim_end_at(s.drop_last(), i);
        assert(s.drop_last().take(i) =~= s.take(i));
    }
}

/// Removes surrounding whitespace.
pub fn trim(s: &str) -> (r: String)
    ensures
        r@ == spec_trim(s@),
{
    let n: usize = s.unicode_len();
    let mut start: usize = 0;
    while start < n && is_space_exec(s.get_char(start))
        invariant
            start <= n,
            n == s@.len(),
            forall|j: int| 0 <= j < start ==> is_space(s@[j]),
        decreases n - start,
    {
        start = start + 1;
    }
    proof {
        lemma_trim_start_at(s@, start as int);
    }
    let mut end: usize = n;
    while end > start && is_space_exec(s.get_char(end - 1))
        invariant
            start <= end <= n,
            n == s@.len(),
            forall|j: int| end <= j < n ==> is_space(s@[j]),
        decreases end,
    {
        end = end - 1;
    }
    proof {
        let t = s@.skip(start as int);
        lemma_trim_end_at(t, end - start);
        assert(t.take(end - start) =~= s@.subrange(start as int, end as int));
    }
    let piece = s.substring_char(start, end);
    String::from_str(piece)
}

/// Whether `p` is a prefix of `s`.
pub open spec fn has_prefix(s: Seq<char>, p: Seq<char>) -> bool {
    s.len() >= p.len() && s.take(p.len() as int) == p
}

/// Tests whether `s` starts with `p`.
pub fn starts_with(s: &str, p: &str) -> (r: bool)
    ensures
        r == has_prefix(s@, p@),
{
    let sn: usize = s.unicode_len();
    let pn: usize = p.unicode_len();
    if sn < pn {
        assert(!has_prefix(s@, p@));
        return false;
    }
    let mut i: usize = 0;
    while i < pn
        invariant
            i <= pn <= sn,
            sn == s@.len(),
            pn == p@.len(),
            forall|j: int| 0 <= j < i ==> s@[j] == p@[j],
        decreases pn - i,
    {
        if s.get_char(i) != p.get_char(i) {
            assert(s@.take(pn as int)[i as int] != p@[i as int]);
            return false;
        }
        i = i + 1;
    }
    assert(s@.take(pn as int) =~= p@);
    true
}

/// Removes the prefix `p` from `s` if present.
pub fn strip_prefix(s: &str, p: &str) -> (r: Option<String>)
    ensures
        match r {
            Some(t) => has_prefix(s@, p@) && t@ == s@.skip(p@.len() as int),
            None => !has_prefix(s@, p@),
        },
{
    if starts_with(s, p) {
        let sn: usize = s.unicode_len();
        let pn: usize = p.unicode_len();
        let piece = s.substring_char(pn, sn);
        assert(piece@ =~= s@.skip(p@.len() as int));
        Some(String::from_str(piece))
    } else {
        None
    }
}

/// A frame body without its trailing line feed, if it has one.
pub open spec fn strip_lf(b: Seq<u8>) -> Seq<u8> {
    if b.len() > 0 && b[b.len() - 1] == 0x0a {
        b.drop_last()
    } else {
        b
    }
}

/// Removes one trailing line feed from a frame body, if present.
pub fn without_lf(bytes: &Vec<u8>) -> (r: Vec<u8>)
    ensures
        r@ == strip_lf(bytes@),
{
    let n = bytes.len();
    let mut out: Vec<u8> = Vec::new();
    let keep: usize = if n > 0 && bytes[n - 1] == 0x0a {
        n - 1
    } else {
        n
    };
    let mut i: usize = 0;
    while i < keep
        invariant
            i <= keep <= bytes@.len(),
            out@ == bytes@.take(i as int),
        decreases keep - i,
    {
        out.push(bytes[i]);
        i = i + 1;
        assert(out@ =~= bytes@.take(i as int));
    }
    proof {
        if n > 0 && bytes@[n - 1] == 0x0a {
            assert(out@ =~= bytes@.drop_last());
        } else {
            assert(out@ =~= bytes@);
        }
    }
    out
}

/// The decimal digits of `n`, most significant first.
pub open spec fn decimal_of(n: nat) -> Seq<char>
    decreases n,
{
    if n < 10 {
        seq![digit_char(n)]
    } else {
        decimal_of(n / 10) + seq![digit_char(n % 10)]
    }
}

/// The character for one decimal digit.
pub open spec fn digit_char(d: nat) -> char
    recommends
        d < 10,
{
    (0x30 + d) as char
}

/// Renders `n` in decimal.
pub fn usize_to_string(n: usize) -> (r: String)
    ensures
        r@ == decimal_of(n as nat),
{
    let mut digits: Vec<char> = Vec::new();
    let mut m: usize = n;
    if m == 0 {
        let mut s = String::new();
        push_char(&mut s, '0');
        assert(decimal_of(0) =~= seq!['0']);
        assert(s@ =~= decimal_of(0));
        return s;
    }
    while m > 0
        invariant
            decimal_of(n as nat) =~= if m > 0 {
                decimal_of(m as nat) + digits@.reverse()
            } else {
                digits@.reverse()
            },
        decreases m,
    {
        let d: u8 = (m % 10) as u8;
        let c: char = (0x30 + d) as char;
        let ghost prev = digits@;
        digits.push(c);
        proof {
            assert(c == digit_char((m % 10) as nat));
            assert(digits@.reverse() =~= seq![c] + prev.reverse());
            if m >= 10 {
                assert(decimal_of(m as nat) == decimal_of((m as nat) / 10) + seq![digit_char(
                    (m as nat) % 10,
                )]);
                assert(decimal_of((m / 10) as nat) + digits@.reverse() =~= decimal_of(m as nat)
                    + prev.reverse());
            } else {
                assert(decimal_of(m as nat) =~= seq![c]);
                assert(digits@.reverse() =~= decimal_of(m as nat) + prev.reverse());
            }
        }
        m = m / 10;
    }
    let mut s = String::new();
    let mut i: usize = digits.len();
    while i > 0
        invariant
            i <= digits@.len(),
            s@ == digits@.subrange(i as int, digits@.len() as int).reverse(),
        decreases i,
    {
        i = i - 1;
        push_char(&mut s, digits[i]);
        assert(s@ =~= digits@.subrange(i as int, digits@.len() as int).reverse());
    }
    assert(digits@.subrange(0, digits@.len() as int) =~= digits@);
    s
}


/// Strict lexicographic order on character sequences, by code point.
pub open spec fn lex_lt(a: Seq<char>, b: Seq<char>) -> bool
    decreases a.len(),
{
    if b.len() == 0 {
        false
    } else if a.len() == 0 {
        true
    } else if a[0] != b[0] {
        a[0] < b[0]
    } else {
        lex_lt(a.drop_first(), b.drop_first())
    }
}

/// The order is irreflexive.
pub proof fn lemma_lex_irrefl(a: Seq<char>)
    ensures
        !lex_lt(a, a),
    decreases a.len(),
{
    if a.len() > 0 {
        lemma_lex_irrefl(a.drop_first());
    }
}

/// Different sequences are ordered one way or the other.
pub proof fn lemma_lex_connected(a: Seq<char>, b: Seq<char>)
    requires
        a != b,
    ensures
        lex_lt(a, b) || lex_lt(b, a),
    decreases a.len(),
{
    if a.len() == 0 && b.len() == 0 {
        assert(a =~= b);
    }
    if a.len() > 0 && b.len() > 0 && a[0] == b[0] {
        if a.drop_first() == b.drop_first() {
            assert(a.drop_first().len() == b.drop_first().len());
            assert(a.len() == b.len());
            assert forall|i: int| 0 <= i < a.len() implies a[i] == b[i] by {
                if i > 0 {
                    assert(a.drop_first()[i - 1] == b.drop_first()[i - 1]);
                }
            }
            assert(a =~= b);
        }
        lemma_lex_connected(a.drop_first(), b.drop_first());
    } else if a.len() == 0 {
        assert(b.len() > 0);
        assert(lex_lt(a, b));
    } else if b.len() == 0 {
        assert(lex_lt(b, a));
    } else {
        assert(a[0] != b[0]);
        assert(lex_lt(a, b) || lex_lt(b, a));
    }
}

/// The order is transitive.
pub proof fn lemma_lex_trans(a: Seq<char>, b: Seq<char>, c: Seq<char>)
    requires
        lex_lt(a, b),
        lex_lt(b, c),
    ensures
        lex_lt(a, c),
    decreases a.len(),
{
    if a.len() > 0 && b.len() > 0 && c.len() > 0 {
        if a[0] == b[0] && b[0] == c[0] {
            lemma_lex_trans(a.drop_first(), b.drop_first(), c.drop_first());
        }
    }
}

proof fn lemma_lex_skip(a: Seq<char>, b: Seq<char>, i: int)
    requires
        0 <= i <= a.len(),
        i <= b.len(),
        forall|j: int| 0 <= j < i ==> a[j] == b[j],
    ensures
        lex_lt(a, b) == lex_lt(a.skip(i), b.skip(i)),
    decreases i,
{
    if i > 0 {
        assert(a.len() > 0 && b.len() > 0 && a[0] == b[0]);
        assert(a.drop_first() =~= a.skip(1));
        assert(b.drop_first() =~= b.skip(1));
        lemma_lex_skip(a.skip(1), b.skip(1), i - 1);
        assert(a.skip(1).skip(i - 1) =~= a.skip(i));
        assert(b.skip(1).skip(i - 1) =~= b.skip(i));
    } else {
        assert(a.skip(0) =~= a);
        assert(b.skip(0) =~= b);
    }
}

/// Compares two names in lexicographic order.
pub fn lex_less(a: &str, b: &str) -> (r: bool)
    ensures
        r == (lex_lt(a@, b@)),
{
    let an: usize = a.unicode_len();
    let bn: usize = b.unicode_len();
    let stop: usize = if an < bn {
        an
    } else {
        bn
    };
    let mut i: usize = 0;
    while i < stop
        invariant
            stop <= an,
            stop <= bn,
            (stop == an || stop == bn),
            i <= stop,
            an == a@.len(),
            bn == b@.len(),
            forall|j: int| 0 <= j < i ==> a@[j] == b@[j],
        decreases stop - i,
    {
        let ca = a.get_char(i);
        let cb = b.get_char(i);
        if ca != cb {
            proof {
                lemma_lex_skip(a@, b@, i as int);
                assert(a@.skip(i as int)[0] == ca);
                assert(b@.skip(i as int)[0] == cb);
            }
            return ca < cb;
        }
        i = i + 1;
    }
    proof {
        lemma_lex_skip(a@, b@, i as int);
        if an < bn {
            assert(i == an);
            assert(a@.skip(i as int).len() == 0);
            assert(b@.skip(i as int).len() > 0);
        } else if bn < an {
            assert(i == bn);
            assert(b@.skip(i as int).len() == 0);
        } else {
            assert(a@.skip(i as int).len() == 0);
            assert(b@.skip(i as int).len() == 0);
        }
    }
    an < bn
}


/// Whether every character is ASCII.
pub open spec fn all_ascii_chars(s: Seq<char>) -> bool {
    forall|i: int| 0 <= i < s.len() ==> (s[i] as u32) < 0x80
}

/// The bytes of an ASCII character sequence.
pub open spec fn ascii_bytes(s: Seq<char>) -> Seq<u8> {
    Seq::new(s.len(), |i: int| s[i] as u8)
}

/// What encoding a character sequence as UTF-8 yields.
pub uninterp spec fn utf8_of(s: Seq<char>) -> Seq<u8>;

/// Relies on `str::as_bytes`: the UTF-8 encoding is a function of the
/// characters alone, and ASCII text encodes to its code points.
#[verifier::external_body]
pub fn utf8_bytes(s: &str) -> (r: Vec<u8>)
    ensures
        r@ == utf8_of(s@),
        all_ascii_chars(s@) ==> r@ == ascii_bytes(s@),
{
    s.as_bytes().to_vec()
}

/// Compares byte strings.
pub fn bytes_eq(a: &Vec<u8>, b: &[u8]) -> (r: bool)
    ensures
        r == (a@ == b@),
{
    if a.len() != b.len() {
        proof {
            if a@ == b@ {
                assert(a@.len() == b@.len());
            }
        }
        return false;
    }
    let mut i: usize = 0;
    while i < a.len()
        invariant
            i <= a@.len(),
            a@.len() == b@.len(),
            forall|j: int| 0 <= j < i ==> a@[j] == b@[j],
        decreases a@.len() - i,
    {
        if a[i] != b[i] {
            return false;
        }
        i = i + 1;
    }
    assert(a@ =~= b@);
    true
}

} // verus!
