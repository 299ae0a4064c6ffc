//! Character-level string utilities.
//!
//! The engine reasons about text as sequences of characters. This module
//! provides the small set of executable primitives the rest of the crate
//! builds on: turning a string into a vector of its characters and back,
//! substring search, prefix tests, splitting and trimming.

use vstd::prelude::*;

verus! {

/// Relies on String::push: appends one character at the end.
#[verifier::external_body]
pub fn push_char(s: &mut String, c: char)
    ensures
        final(s)@ == old(s)@.push(c),
{
    s.push(c);
}

/// The characters of `s`, in order, as a vector.
pub fn chars_of(s: &str) -> (v: Vec<char>)
    ensures
        v@ == s@,
{
    let n: usize = s.unicode_len();
    let mut v: Vec<char> = Vec::new();
    let mut i: usize = 0;
    while i < n
        invariant
            n == s@.len(),
            i <= n,
            v@ == s@.subrange(0, i as int),
        decreases n - i,
    {
        v.push(s.get_char(i));
        i = i + 1;
        proof {
            assert(v@ =~= s@.subrange(0, i as int));
        }
    }
    proof {
        assert(v@ =~= s@);
    }
    v
}

/// The string holding exactly the characters of `v`, in order.
pub fn string_of(v: &Vec<char>) -> (s: String)
    ensures
        s@ == v@,
{
    let mut s = String::new();
    let mut i: usize = 0;
    while i < v.len()
        invariant
            i <= v@.len(),
            s@ == v@.subrange(0, i as int),
        decreases v@.len() - i,
    {
        push_char(&mut s, v[i]);
        i = i + 1;
        proof {
            assert(s@ =~= v@.subrange(0, i as int));
        }
    }
    proof {
        assert(s@ =~= v@);
    }
    s
}

/// `p` occurs in `s` starting at position `i`.
pub open spec fn occurs_at(s: Seq<char>, p: Seq<char>, i: int) -> bool {
    0 <= i && i + p.len() <= s.len() && s.subrange(i, i + p.len()) == p
}

/// `p` is a prefix of `s`.
pub open spec fn is_prefix_of(p: Seq<char>, s: Seq<char>) -> bool {
    occurs_at(s, p, 0)
}

/// `p` occurs somewhere in `s`.
pub open spec fn contains_seq(s: Seq<char>, p: Seq<char>) -> bool {
    exists|i: int| occurs_at(s, p, i)
}

/// Whether the characters of `s` starting at `at` are exactly `p`.
pub fn matches_at(s: &Vec<char>, p: &Vec<char>, at: usize) -> (r: bool)
    requires
        at + p@.len() <= s@.len(),
    ensures
        r == occurs_at(s@, p@, at as int),
{
    let n: usize = s.len();
    let m: usize = p.len();
    let mut j: usize = 0;
    while j < m
        invariant
            n == s@.len(),
            m == p@.len(),
            at + m <= n,
            j <= m,
            forall|k: int| 0 <= k < j ==> s@[at + k] == p@[k],
        decreases m - j,
    {
        if s[at + j] != p[j] {
            proof {
                assert(s@.subrange(at as int, at + p@.len())[j as int] == s@[at + j]);
            }
            return false;
        }
        j = j + 1;
    }
    proof {
        assert(s@.subrange(at as int, at + p@.len()) =~= p@);
    }
    true
}

/// Position of the first occurrence of `p` in `s`, if any.
pub fn find_seq(s: &Vec<char>, p: &Vec<char>) -> (r: Option<usize>)
    ensures
        match r {
            Some(i) => occurs_at(s@, p@, i as int) && forall|k: int|
                0 <= k < i ==> !occurs_at(s@, p@, k),
            None => !contains_seq(s@, p@),
        },
{
    let n: usize = s.len();
    let m: usize = p.len();
    if m > n {
        proof {
            assert(forall|i: int| !occurs_at(s@, p@, i));
        }
        return None;
    }
    let last: usize = n - m;
    let mut i: usize = 0;
    loop
        invariant
            n == s@.len(),
            m == p@.len(),
            m <= n,
            last == n - m,
            i <= last,
            forall|k: int| 0 <= k < i ==> !occurs_at(s@, p@, k),
        decreases last - i,
    {
        if matches_at(s, p, i) {
            return Some(i);
        }
        if i == last {
            proof {
                assert(forall|k: int| occurs_at(s@, p@, k) ==> 0 <= k <= last);
            }
            return None;
        }
        i = i + 1;
    }
}

/// Whether `p` occurs somewhere in `s`.
pub fn contains_chars(s: &Vec<char>, p: &Vec<char>) -> (r: bool)
    ensures
        r == contains_seq(s@, p@),
{
    match find_seq(s, p) {
        Some(_) => true,
        None => false,
    }
}

/// Appends the characters of `src` to `dst`.
pub fn append_chars(dst: &mut Vec<char>, src: &Vec<char>)
    ensures
        final(dst)@ == old(dst)@ + src@,
{
    let n: usize = src.len();
    let mut i: usize = 0;
    proof {
        assert(dst@ =~= old(dst)@ + src@.subrange(0, 0));
    }
    while i < n
        invariant
            n == src@.len(),
            i <= n,
            dst@ == old(dst)@ + src@.subrange(0, i as int),
        decreases n - i,
    {
        dst.push(src[i]);
        i = i + 1;
        proof {
            assert(dst@ =~= old(dst)@ + src@.subrange(0, i as int));
        }
    }
    proof {
        assert(src@.subrange(0, n as int) =~= src@);
    }
}

/// Whether `a` and `b` hold the same characters.
pub fn chars_eq(a: &Vec<char>, b: &Vec<char>) -> (r: bool)
    ensures
        r == (a@ == b@),
{
    if a.len() != b.len() {
        return false;
    }
    let r = matches_at(a, b, 0);
    proof {
        if a@ == b@ {
            assert(a@.subrange(0, b@.len() as int) =~= b@);
        }
        if r {
            assert(a@.subrange(0, b@.len() as int) =~= a@);
        }
    }
    r
}

/// Whether `p` is a prefix of `s`.
pub fn starts_with_chars(s: &Vec<char>, p: &Vec<char>) -> (r: bool)
    ensures
        r == is_prefix_of(p@, s@),
{
    if p.len() > s.len() {
        return false;
    }
    matches_at(s, p, 0)
}

/// The subrange of `v` from `from` (inclusive) to `to` (exclusive).
pub fn slice_chars(v: &Vec<char>, from: usize, to: usize) -> (r: Vec<char>)
    requires
        from <= to <= v@.len(),
    ensures
        r@ == v@.subrange(from as int, to as int),
{
    let mut r: Vec<char> = Vec::new();
    let mut i: usize = from;
    while i < to
        invariant
            from <= i <= to <= v@.len(),
            r@ == v@.subrange(from as int, i as int),
        decreases to - i,
    {
        r.push(v[i]);
        i = i + 1;
        proof {
            assert(r@ =~= v@.subrange(from as int, i as int));
        }
    }
    r
}

/// Splitting `s` at each occurrence of `sep`: the fields, in order,
/// without the separators. A string with no separator is one field;
/// each separator ends the field before it, so `n` separators give
/// `n + 1` fields.
pub open spec fn split_spec(s: Seq<char>, sep: char) -> Seq<Seq<char>>
    decreases s.len(),
{
    if s.len() == 0 {
        seq![Seq::<char>::empty()]
    } else if s[0] == sep {
        seq![Seq::<char>::empty()] + split_spec(s.subrange(1, s.len() as int), sep)
    } else {
        let rest = split_spec(s.subrange(1, s.len() as int), sep);
        seq![seq![s[0]] + rest[0]] + rest.subrange(1, rest.len() as int)
    }
}

pub proof fn lemma_split_len(s: Seq<char>, sep: char)
    ensures
        split_spec(s, sep).len() >= 1,
    decreases s.len(),
{
    if s.len() == 0 {
    } else {
        lemma_split_len(s.subrange(1, s.len() as int), sep);
    }
}

/// A string free of the separator splits into the single field that is
/// the string itself.
pub proof fn lemma_split_no_sep(s: Seq<char>, sep: char)
    requires
        forall|k: int| 0 <= k < s.len() ==> s[k] != sep,
    ensures
        split_spec(s, sep) == seq![s],
    decreases s.len(),
{
    if s.len() == 0 {
        assert(split_spec(s, sep) =~~= seq![s]);
    } else {
        let t = s.subrange(1, s.len() as int);
        lemma_split_no_sep(t, sep);
        lemma_split_len(t, sep);
        assert(seq![s[0]] + t =~= s);
        assert(split_spec(s, sep) =~~= seq![s]);
    }
}

/// Splitting at the first separator: the field before it, then the
/// fields of what follows it.
pub proof fn lemma_split_at(s: Seq<char>, sep: char, i: int)
    requires
        0 <= i < s.len(),
        s[i] == sep,
        forall|k: int| 0 <= k < i ==> s[k] != sep,
    ensures
        split_spec(s, sep) == seq![s.subrange(0, i)] + split_spec(
            s.subrange(i + 1, s.len() as int),
            sep,
        ),
    decreases i,
{
    if i == 0 {
        assert(s.subrange(0, 0) =~= Seq::<char>::empty());
        assert(split_spec(s, sep) =~~= seq![s.subrange(0, i)] + split_spec(
            s.subrange(i + 1, s.len() as int),
            sep,
        ));
    } else {
        let t = s.subrange(1, s.len() as int);
        assert(t[i - 1] == sep);
        lemma_split_at(t, sep, i - 1);
        lemma_split_len(t, sep);
        assert(t.subrange(i, t.len() as int) =~= s.subrange(i + 1, s.len() as int));
        assert(split_spec(t, sep)[0] == t.subrange(0, i - 1));
        assert(seq![s[0]] + t.subrange(0, i - 1) =~= s.subrange(0, i));
        assert(split_spec(t, sep).subrange(1, split_spec(t, sep).len() as int) =~= split_spec(
            s.subrange(i + 1, s.len() as int),
            sep,
        ));
        assert(split_spec(s, sep) =~~= seq![s.subrange(0, i)] + split_spec(
            s.subrange(i + 1, s.len() as int),
            sep,
        ));
    }
}

/// First index of `c` at or after `from` in `v`, if any.
pub fn scan_for(v: &Vec<char>, c: char, from: usize) -> (r: Option<usize>)
    requires
        from <= v@.len(),
    ensures
        match r {
            Some(i) => from <= i < v@.len() && v@[i as int] == c && forall|k: int|
                from <= k < i ==> v@[k] != c,
            None => forall|k: int| from <= k < v@.len() ==> v@[k] != c,
        },
{
    let n: usize = v.len();
    let mut i: usize = from;
    while i < n
        invariant
            n == v@.len(),
            from <= i <= n,
            forall|k: int| from <= k < i ==> v@[k] != c,
        decreases n - i,
    {
        if v[i] == c {
            return Some(i);
        }
        i = i + 1;
    }
    None
}

/// Splits `v` at each occurrence of `sep`.
pub fn split_char(v: &Vec<char>, sep: char) -> (r: Vec<Vec<char>>)
    ensures
        r.deep_view() == split_spec(v@, sep),
{
    let n: usize = v.len();
    let mut fields: Vec<Vec<char>> = Vec::new();
    let mut start: usize = 0;
    proof {
        assert(v@.subrange(0, n as int) =~= v@);
        assert(fields.deep_view() + split_spec(v@, sep) =~~= split_spec(v@, sep));
    }
    loop
        invariant
            n == v@.len(),
            start <= n,
            fields.deep_view() + split_spec(v@.subrange(start as int, n as int), sep)
                == split_spec(v@, sep),
        decreases n - start,
    {
        let ghost pre = fields.deep_view();
        let ghost rest = v@.subrange(start as int, n as int);
        match scan_for(v, sep, start) {
            Some(i) => {
                let ghost st0 = start as int;
                let field = slice_chars(v, start, i);
                fields.push(field);
                proof {
                    assert(rest[i - st0] == v@[i as int]);
                    assert(forall|k: int| 0 <= k < i - st0 ==> rest[k] == v@[st0 + k] && rest[k]
                        != sep);
                    lemma_split_at(rest, sep, i - st0);
                    assert(rest.subrange(0, i - st0) =~= field@);
                    assert(rest.subrange(i - st0 + 1, rest.len() as int) =~= v@.subrange(
                        i + 1,
                        n as int,
                    ));
                    assert(fields.deep_view() =~~= pre.push(field@));
                    assert(pre.push(field@) =~~= pre + seq![field@]);
                    assert((pre + seq![field@]) + split_spec(v@.subrange(i + 1, n as int), sep)
                        =~~= pre + (seq![field@] + split_spec(v@.subrange(i + 1, n as int), sep)));
                }
                start = i + 1;
            },
            None => {
                let field = slice_chars(v, start, n);
                fields.push(field);
                proof {
                    assert(forall|k: int| 0 <= k < rest.len() ==> rest[k] == v@[start + k]
                        && rest[k] != sep);
                    lemma_split_no_sep(rest, sep);
                    assert(field@ =~= rest);
                    assert(fields.deep_view() =~~= pre.push(field@));
                    assert(pre.push(field@) =~~= pre + seq![rest]);
                    assert(fields.deep_view() =~~= split_spec(v@, sep));
                }
                return fields;
            },
        }
    }
}

/// Characters the engine strips from both ends of a fingerprint path
/// field: space, tab and carriage return.
pub open spec fn is_trim_char(c: char) -> bool {
    c == ' ' || c == '\t' || c == '\r'
}

/// `s` with leading and trailing trim characters removed.
pub open spec fn trim_spec(s: Seq<char>) -> Seq<char>
    decreases s.len(),
{
    if s.len() > 0 && is_trim_char(s[0]) {
        trim_spec(s.subrange(1, s.len() as int))
    } else if s.len() > 0 && is_trim_char(s[s.len() - 1]) {
        trim_spec(s.subrange(0, s.len() - 1))
    } else {
        s
    }
}

fn is_trim_char_exec(c: char) -> (r: bool)
    ensures
        r == is_trim_char(c),
{
    c == ' ' || c == '\t' || c == '\r'
}

/// Removes leading and trailing spaces, tabs and carriage returns.
pub fn trim_chars(v: &Vec<char>) -> (r: Vec<char>)
    ensures
        r@ == trim_spec(v@),
{
    let n: usize = v.len();
    let mut lo: usize = 0;
    let mut hi: usize = n;
    proof {
        assert(v@.subrange(0, n as int) =~= v@);
    }
    while lo < hi && is_trim_char_exec(v[lo])
        invariant
            n == v@.len(),
            lo <= hi <= n,
            hi == n,
            trim_spec(v@) == trim_spec(v@.subrange(lo as int, hi as int)),
        decreases hi - lo,
    {
        proof {
            let cur = v@.subrange(lo as int, hi as int);
            assert(cur[0] == v@[lo as int]);
            assert(cur.subrange(1, cur.len() as int) =~= v@.subrange(lo + 1, hi as int));
        }
        lo = lo + 1;
    }
    while lo < hi && is_trim_char_exec(v[hi - 1])
        invariant
            n == v@.len(),
            lo <= hi <= n,
            trim_spec(v@) == trim_spec(v@.subrange(lo as int, hi as int)),
            lo < hi ==> !is_trim_char(v@[lo as int]),
        decreases hi - lo,
    {
        proof {
            let cur = v@.subrange(lo as int, hi as int);
            assert(cur[cur.len() - 1] == v@[hi - 1]);
            assert(cur[0] == v@[lo as int]);
            assert(cur.subrange(0, cur.len() - 1) =~= v@.subrange(lo as int, hi - 1));
        }
        hi = hi - 1;
    }
    proof {
        let cur = v@.subrange(lo as int, hi as int);
        if cur.len() > 0 {
            assert(cur[0] == v@[lo as int]);
            assert(cur[cur.len() - 1] == v@[hi - 1]);
        }
        assert(trim_spec(cur) == cur);
    }
    slice_chars(v, lo, hi)
}

} // verus!
