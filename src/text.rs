//! Operations on `/`-delimited keys, stated over their character sequences.

use vstd::prelude::*;

verus! {

/// The separator that gives keys their hierarchy.
pub open spec fn is_delimiter(c: char) -> bool {
    c == '/'
}

/// Whether `p` is a prefix of `s`.
pub open spec fn has_prefix(s: Seq<char>, p: Seq<char>) -> bool {
    p.len() <= s.len() && s.subrange(0, p.len() as int) == p
}

/// Whether `p` is a suffix of `s`.
pub open spec fn has_suffix(s: Seq<char>, p: Seq<char>) -> bool {
    p.len() <= s.len() && s.subrange(s.len() - p.len(), s.len() as int) == p
}

/// The segments of `s` between delimiters, in order. A string without a
/// delimiter is one segment; a trailing delimiter ends with an empty segment.
pub open spec fn split_path(s: Seq<char>) -> Seq<Seq<char>>
    decreases s.len(),
{
    if s.len() == 0 {
        seq![Seq::empty()]
    } else {
        let init = split_path(s.drop_last());
        if is_delimiter(s.last()) {
            init.push(Seq::empty())
        } else {
            init.update(init.len() - 1, init.last().push(s.last()))
        }
    }
}

/// Whether `t` occurs in `s` as a run of consecutive characters.
pub open spec fn is_substring(s: Seq<char>, t: Seq<char>) -> bool {
    exists|i: int| 0 <= i <= s.len() - t.len() && #[trigger] s.subrange(i, i + t.len()) == t
}

/// Whether two strings hold the same characters.
pub fn str_eq(a: &str, b: &str) -> (r: bool)
    ensures
        r == (a@ == b@),
{
    let n = a.unicode_len();
    if n != b.unicode_len() {
        return false;
    }
    let mut i: usize = 0;
    while i < n
        invariant
            n == a@.len(),
            n == b@.len(),
            i <= n,
            a@.subrange(0, i as int) == b@.subrange(0, i as int),
        decreases n - i,
    {
        if a.get_char(i) != b.get_char(i) {
            return false;
        }
        assert(a@.subrange(0, i + 1) == a@.subrange(0, i as int).push(a@[i as int]));
        assert(b@.subrange(0, i + 1) == b@.subrange(0, i as int).push(b@[i as int]));
        i = i + 1;
    }
    assert(a@ == a@.subrange(0, n as int));
    assert(b@ == b@.subrange(0, n as int));
    true
}


/// Whether `s` begins with `p`.
pub fn starts_with(s: &str, p: &str) -> (r: bool)
    ensures
        r == has_prefix(s@, p@),
{
    let n = s.unicode_len();
    let m = p.unicode_len();
    if m > n {
        return false;
    }
    let head = s.substring_char(0, m);
    str_eq(head, p)
}

/// Whether `t` occurs in `s`.
pub fn contains(s: &str, t: &str) -> (r: bool)
    ensures
        r == is_substring(s@, t@),
{
    let n = s.unicode_len();
    let m = t.unicode_len();
    if m > n {
        return false;
    }
    if m == 0 {
        assert(s@.subrange(0, 0 + t@.len() as int) =~= t@);
        return true;
    }
    let mut i: usize = 0;
    while i <= n - m
        invariant
            n == s@.len(),
            m == t@.len(),
            1 <= m <= n,
            i <= n - m + 1,
            forall|k: int| 0 <= k < i ==> #[trigger] s@.subrange(k, k + m) != t@,
        decreases n - m + 1 - i,
    {
        if str_eq(s.substring_char(i, i + m), t) {
            return true;
        }
        i = i + 1;
    }
    false
}

/// Whether `s` ends with `p`.
pub fn ends_with(s: &str, p: &str) -> (r: bool)
    ensures
        r == has_suffix(s@, p@),
{
    let n = s.unicode_len();
    let m = p.unicode_len();
    if m > n {
        return false;
    }
    let tail = s.substring_char(n - m, n);
    str_eq(tail, p)
}

/// `s` without its leading `p`, or `None` where `s` does not begin with `p`.
pub fn strip_prefix(s: &str, p: &str) -> (r: Option<String>)
    ensures
        r is Some <==> has_prefix(s@, p@),
        r matches Some(t) ==> t@ == s@.subrange(p@.len() as int, s@.len() as int),
{
    if !starts_with(s, p) {
        return None;
    }
    let n = s.unicode_len();
    let m = p.unicode_len();
    Some(s.substring_char(m, n).to_owned())
}

/// Splits `s` at every delimiter.
pub fn split_path_segments(s: &str) -> (r: Vec<&str>)
    ensures
        r@.map_values(|x: &str| x@) == split_path(s@),
{
    let n = s.unicode_len();
    let mut parts: Vec<&str> = Vec::new();
    let mut start: usize = 0;
    let mut i: usize = 0;
    assert(s@.subrange(0, 0) == Seq::<char>::empty());
    assert(parts@.map_values(|x: &str| x@) == Seq::<Seq<char>>::empty());
    while i < n
        invariant
            n == s@.len(),
            start <= i <= n,
            parts@.map_values(|x: &str| x@).push(s@.subrange(start as int, i as int))
                == split_path(s@.subrange(0, i as int)),
        decreases n - i,
    {
        let c = s.get_char(i);
        proof {
            let t = s@.subrange(0, i + 1);
            assert(t.drop_last() == s@.subrange(0, i as int));
            assert(t.last() == c);
        }
        if c == '/' {
            let seg = s.substring_char(start, i);
            parts.push(seg);
            start = i + 1;
            assert(s@.subrange(start as int, i + 1) == Seq::<char>::empty());
        } else {
            assert(s@.subrange(start as int, i + 1) == s@.subrange(start as int, i as int).push(c));
        }
        i = i + 1;
    }
    let seg = s.substring_char(start, n);
    parts.push(seg);
    assert(s@.subrange(0, n as int) == s@);
    parts
}

/// The final segment of `s`: what follows its last delimiter, or all of `s`.
pub fn last_segment(s: &str) -> (r: &str)
    ensures
        r@ == split_path(s@).last(),
{
    let parts = split_path_segments(s);
    proof {
        lemma_split_path_nonempty(s@);
    }
    let k = parts.len() - 1;
    assert(parts@.map_values(|x: &str| x@)[k as int] == parts@[k as int]@);
    parts[k]
}

/// Splitting never yields an empty sequence of segments.
pub proof fn lemma_split_path_nonempty(s: Seq<char>)
    ensures
        split_path(s).len() >= 1,
    decreases s.len(),
{
    if s.len() > 0 {
        lemma_split_path_nonempty(s.drop_last());
    }
}

/// `s` with every occurrence of the non-empty `p` taken out, scanning from
/// the left and resuming after each occurrence.
pub open spec fn remove_all(s: Seq<char>, p: Seq<char>) -> Seq<char>
    decreases s.len(),
{
    if p.len() == 0 || s.len() < p.len() {
        s
    } else if s.subrange(0, p.len() as int) == p {
        remove_all(s.subrange(p.len() as int, s.len() as int), p)
    } else {
        seq![s[0]] + remove_all(s.subrange(1, s.len() as int), p)
    }
}

/// `s` with every occurrence of `p` taken out.
pub fn remove_all_occurrences(s: &str, p: &str) -> (r: String)
    requires
        p@.len() > 0,
    ensures
        r@ == remove_all(s@, p@),
{
    let n = s.unicode_len();
    let m = p.unicode_len();
    let mut out = String::new();
    let mut i: usize = 0;
    assert(s@.subrange(0, n as int) == s@);
    assert(out@ + s@ == s@);
    while i < n
        invariant
            n == s@.len(),
            m == p@.len(),
            m > 0,
            i <= n,
            out@ + remove_all(s@.subrange(i as int, n as int), p@) == remove_all(s@, p@),
        decreases n - i,
    {
        let ghost rest = s@.subrange(i as int, n as int);
        if m <= n - i && str_eq(s.substring_char(i, i + m), p) {
            assert(rest.subrange(0, m as int) == s@.subrange(i as int, i + m));
            assert(rest.subrange(m as int, rest.len() as int) == s@.subrange(i + m, n as int));
            i = i + m;
        } else {
            let c = s.substring_char(i, i + 1);
            let ghost before = out@;
            out.append(c);
            proof {
                if m <= n - i {
                    assert(rest.subrange(0, m as int) == s@.subrange(i as int, i + m));
                    assert(seq![rest[0]] == c@);
                    assert(rest.subrange(1, rest.len() as int) == s@.subrange(i + 1, n as int));
                    assert(out@ == before + seq![rest[0]]);
                } else {
                    assert(remove_all(rest, p@) == rest);
                    assert(remove_all(s@.subrange(i + 1, n as int), p@) == s@.subrange(i + 1, n as int));
                    assert(rest == c@ + s@.subrange(i + 1, n as int));
                }
            }
            i = i + 1;
        }
    }
    assert(remove_all(s@.subrange(n as int, n as int), p@) == Seq::<char>::empty());
    assert(out@ + Seq::<char>::empty() == out@);
    out
}

/// Whether `a` comes before `b` in lexicographic order of characters.
pub open spec fn seq_lt(a: Seq<char>, b: Seq<char>) -> bool
    decreases a.len(),
{
    if b.len() == 0 {
        false
    } else if a.len() == 0 {
        true
    } else if a[0] != b[0] {
        a[0] < b[0]
    } else {
        seq_lt(a.drop_first(), b.drop_first())
    }
}

/// Whether `a` comes before `b` in lexicographic order of characters, which
/// is the order of their UTF-8 bytes.
pub fn str_lt(a: &str, b: &str) -> (r: bool)
    ensures
        r == seq_lt(a@, b@),
{
    let n = a.unicode_len();
    let m = b.unicode_len();
    let mut i: usize = 0;
    assert(a@.subrange(0, n as int) == a@);
    assert(b@.subrange(0, m as int) == b@);
    while i < n && i < m
        invariant
            n == a@.len(),
            m == b@.len(),
            i <= n,
            i <= m,
            a@.subrange(0, i as int) == b@.subrange(0, i as int),
            seq_lt(a@, b@) == seq_lt(a@.subrange(i as int, n as int), b@.subrange(i as int, m as int)),
        decreases n - i,
    {
        let x = a.get_char(i);
        let y = b.get_char(i);
        let ghost ra = a@.subrange(i as int, n as int);
        let ghost rb = b@.subrange(i as int, m as int);
        assert(ra[0] == x && rb[0] == y);
        if x != y {
            return x < y;
        }
        assert(ra.drop_first() == a@.subrange(i + 1, n as int));
        assert(rb.drop_first() == b@.subrange(i + 1, m as int));
        assert(a@.subrange(0, i + 1) == a@.subrange(0, i as int).push(x));
        assert(b@.subrange(0, i + 1) == b@.subrange(0, i as int).push(y));
        i = i + 1;
    }
    i < m
}

} // verus!
