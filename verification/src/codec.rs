//! Path codec: opaque archive-namespace tokens and the path arithmetic
//! around them.
//!
//! A token is an unguessable identifier assigned to each top-level
//! selected input at backup time. Archive entries are named `<token>`
//! (lone file without extension), `<token>.<ext>` (lone file with
//! extension) or `<token>/<relative-path>` (anything under a folder
//! input), so entries never collide even when two inputs share a
//! basename. This module also holds the pure path helpers the engine
//! uses: basename/parent splitting, extension extraction, separator
//! canonicalization and the best-effort home-directory adjustment.

use vstd::prelude::*;

verus! {

use crate::strutil::{chars_of, is_prefix_of, matches_at, scan_for, slice_chars, string_of};

/// Characters a token may hold: lowercase hexadecimal digits and
/// hyphens. None of them is a path separator, a dot, a colon or a line
/// break, which keeps entry names and fingerprint lines unambiguous.
pub open spec fn is_token_char(c: char) -> bool {
    c == '-' || ('0' <= c && c <= '9') || ('a' <= c && c <= 'f')
}

/// Shape of a token: 36 characters drawn from the token alphabet.
pub open spec fn is_token(s: Seq<char>) -> bool {
    s.len() == 36 && forall|i: int| 0 <= i < s.len() ==> is_token_char(#[trigger] s[i])
}

/// Relies on uuid::Uuid::new_v4 and its Display form: a fresh random
/// identifier printed hyphenated as 36 lowercase hexadecimal digits and
/// hyphens. The value is random, so nothing more is promised of it.
#[verifier::external_body]
pub fn fresh_token() -> (r: String)
    ensures
        is_token(r@),
{
    uuid::Uuid::new_v4().to_string()
}

/// A separator as the backed-up paths use them: the native one of
/// either platform family.
pub open spec fn is_sep(c: char) -> bool {
    c == '/' || c == '\\'
}

fn is_sep_exec(c: char) -> (r: bool)
    ensures
        r == is_sep(c),
{
    c == '/' || c == '\\'
}

/// Position right after the last separator of `s`: 0 when `s` holds no
/// separator.
pub open spec fn basename_start(s: Seq<char>) -> int {
    if exists|i: int| 0 <= i < s.len() && is_sep(s[i]) {
        (choose|i: int|
            0 <= i < s.len() && is_sep(s[i]) && forall|k: int| i < k < s.len() ==> !is_sep(s[k]))
            + 1
    } else {
        0
    }
}

proof fn lemma_basename_start(s: Seq<char>)
    ensures
        0 <= basename_start(s) <= s.len(),
        basename_start(s) > 0 ==> is_sep(s[basename_start(s) - 1]),
        forall|k: int| basename_start(s) <= k < s.len() ==> !is_sep(#[trigger] s[k]),
    decreases s.len(),
{
    if exists|i: int| 0 <= i < s.len() && is_sep(s[i]) {
        let w = choose|i: int| 0 <= i < s.len() && is_sep(s[i]);
        if is_sep(s[s.len() - 1]) {
            let j = s.len() - 1;
            assert(0 <= j < s.len() && is_sep(s[j]) && forall|k: int|
                j < k < s.len() ==> !is_sep(s[k]));
        } else {
            let t = s.subrange(0, s.len() - 1);
            assert(t[w] == s[w]);
            lemma_basename_start(t);
            let j = choose|i: int|
                0 <= i < t.len() && is_sep(t[i]) && forall|k: int|
                    i < k < t.len() ==> !is_sep(t[k]);
            assert(is_sep(s[j]));
            assert(forall|k: int| j < k < s.len() - 1 ==> s[k] == t[k] && !is_sep(s[k]));
            assert(0 <= j < s.len() && is_sep(s[j]) && forall|k: int|
                j < k < s.len() ==> !is_sep(s[k]));
        }
        let i0 = choose|i: int|
            0 <= i < s.len() && is_sep(s[i]) && forall|k: int| i < k < s.len() ==> !is_sep(s[k]);
        assert(basename_start(s) == i0 + 1);
    }
}

/// The item name of a path: everything after its last separator.
pub open spec fn base_name_spec(s: Seq<char>) -> Seq<char> {
    s.subrange(basename_start(s), s.len() as int)
}

/// An item name holds no separator.
pub proof fn lemma_basename_chars(path: Seq<char>)
    ensures
        forall|k: int|
            0 <= k < base_name_spec(path).len() ==> !is_sep(#[trigger] base_name_spec(path)[k]),
{
    lemma_basename_start(path);
    assert forall|k: int|
        0 <= k < base_name_spec(path).len() implies !is_sep(
        #[trigger] base_name_spec(path)[k]) by {
        assert(base_name_spec(path)[k] == path[basename_start(path) + k]);
    }
}

/// The parent label of a path: everything before its last separator,
/// the empty string when it has none.
pub open spec fn parent_label_spec(s: Seq<char>) -> Seq<char> {
    if basename_start(s) == 0 {
        Seq::<char>::empty()
    } else {
        s.subrange(0, basename_start(s) - 1)
    }
}

/// Splits a path into its parent label and its item name at the last
/// separator of either platform family.
pub fn split_parent_name(path: &Vec<char>) -> (r: (Vec<char>, Vec<char>))
    ensures
        r.0@ == parent_label_spec(path@),
        r.1@ == base_name_spec(path@),
{
    let n: usize = path.len();
    let mut i: usize = n;
    while i > 0 && !is_sep_exec(path[i - 1])
        invariant
            n == path@.len(),
            i <= n,
            forall|k: int| i <= k < n ==> !is_sep(#[trigger] path@[k]),
        decreases i,
    {
        i = i - 1;
    }
    proof {
        lemma_basename_start(path@);
        if i > 0 {
            assert(is_sep(path@[i - 1]));
            let b = basename_start(path@);
            if b < i {
                assert(!is_sep(path@[i - 1]));
            }
            if b > i {
                assert(!is_sep(path@[b - 1]));
            }
            assert(b == i);
        } else {
            assert(forall|k: int| 0 <= k < path@.len() ==> !is_sep(#[trigger] path@[k]));
            if exists|k: int| 0 <= k < path@.len() && is_sep(path@[k]) {
                let w = choose|k: int| 0 <= k < path@.len() && is_sep(path@[k]);
                assert(!is_sep(path@[w]));
            }
            assert(basename_start(path@) == 0);
        }
    }
    if i == 0 {
        let name = slice_chars(path, 0, n);
        let parent: Vec<char> = Vec::new();
        proof {
            assert(parent@ =~= parent_label_spec(path@));
        }
        (parent, name)
    } else {
        let parent = slice_chars(path, 0, i - 1);
        let name = slice_chars(path, i, n);
        (parent, name)
    }
}

/// The extension of a path's item name, as the original filesystem
/// library reports it: the part after the last dot of the name, absent
/// when the name holds no dot or only its leading character is a dot.
pub open spec fn extension_spec(path: Seq<char>) -> Option<Seq<char>> {
    let name = base_name_spec(path);
    if exists|i: int| 1 <= i < name.len() && name[i] == '.' {
        let d = last_dot(name);
        Some(name.subrange(d + 1, name.len() as int))
    } else {
        None
    }
}

/// The greatest index of a dot at or after position 1 of `name`,
/// assuming one exists.
pub open spec fn last_dot(name: Seq<char>) -> int {
    choose|i: int|
        1 <= i < name.len() && name[i] == '.' && forall|k: int|
            i < k < name.len() ==> name[k] != '.'
}

proof fn lemma_last_dot(name: Seq<char>)
    requires
        exists|i: int| 1 <= i < name.len() && name[i] == '.',
    ensures
        1 <= last_dot(name) < name.len(),
        name[last_dot(name)] == '.',
        forall|k: int| last_dot(name) < k < name.len() ==> name[k] != '.',
    decreases name.len(),
{
    let w = choose|i: int| 1 <= i < name.len() && name[i] == '.';
    if name[name.len() - 1] == '.' && name.len() >= 2 {
        let j = name.len() - 1;
        assert(1 <= j < name.len() && name[j] == '.' && forall|k: int|
            j < k < name.len() ==> name[k] != '.');
    } else {
        let t = name.subrange(0, name.len() - 1);
        assert(t[w] == name[w]);
        lemma_last_dot(t);
        let j = last_dot(t);
        assert(name[j] == '.');
        assert(forall|k: int| j < k < name.len() - 1 ==> name[k] == t[k] && name[k] != '.');
        assert(1 <= j < name.len() && name[j] == '.' && forall|k: int|
            j < k < name.len() ==> name[k] != '.');
    }
}

/// Bounds of the last dot of a name that has one.
pub proof fn lemma_last_dot_pub(name: Seq<char>)
    requires
        exists|i: int| 1 <= i < name.len() && name[i] == '.',
    ensures
        1 <= last_dot(name) < name.len(),
        name[last_dot(name)] == '.',
        forall|k: int| last_dot(name) < k < name.len() ==> name[k] != '.',
{
    lemma_last_dot(name);
}

/// The extension of the item name of `path`, when it has one.
pub fn file_extension(path: &Vec<char>) -> (r: Option<Vec<char>>)
    ensures
        match r {
            Some(e) => extension_spec(path@) == Some(e@),
            None => extension_spec(path@) is None,
        },
{
    let (_, name) = split_parent_name(path);
    let n: usize = name.len();
    let mut i: usize = n;
    while i > 1 && name[i - 1] != '.'
        invariant
            n == name@.len(),
            i <= n,
            forall|k: int| i <= k < n ==> name@[k] != '.',
        decreases i,
    {
        i = i - 1;
    }
    if i <= 1 {
        proof {
            if exists|k: int| 1 <= k < name@.len() && name@[k] == '.' {
                let w = choose|k: int| 1 <= k < name@.len() && name@[k] == '.';
                assert(name@[w] != '.');
            }
        }
        return None;
    }
    proof {
        assert(name@[i - 1] == '.');
        lemma_last_dot(name@);
        let d = last_dot(name@);
        if d < i - 1 {
            assert(name@[i - 1] != '.');
        }
        if d > i - 1 {
            assert(name@[d] != '.');
        }
        assert(d == i - 1);
    }
    let ext = slice_chars(&name, i, n);
    Some(ext)
}

/// Separator canonicalization: every backslash becomes a forward slash,
/// so selections compare consistently across platforms.
pub open spec fn canon_spec(s: Seq<char>) -> Seq<char> {
    s.map_values(|c: char| if c == '\\' { '/' } else { c })
}

/// Normalizes a path-like string by turning backslashes into slashes.
pub fn canon(s: &Vec<char>) -> (r: Vec<char>)
    ensures
        r@ == canon_spec(s@),
{
    let n: usize = s.len();
    let mut r: Vec<char> = Vec::new();
    let mut i: usize = 0;
    while i < n
        invariant
            n == s@.len(),
            i <= n,
            r@ == canon_spec(s@.subrange(0, i as int)),
        decreases n - i,
    {
        let c = s[i];
        if c == '\\' {
            r.push('/');
        } else {
            r.push(c);
        }
        i = i + 1;
        proof {
            assert(r@ =~= canon_spec(s@.subrange(0, i as int)));
        }
    }
    proof {
        assert(s@.subrange(0, n as int) =~= s@);
    }
    r
}

/// Result of adjusting a recorded path to the running account: when the
/// original starts with the recognized home-directory pattern, the
/// pattern and the username segment after it are replaced by the
/// current home directory; otherwise the original is kept verbatim.
pub open spec fn adjust_spec(og: Seq<char>, home: Seq<char>) -> Seq<char> {
    if is_prefix_of("C:\\Users\\"@, og) {
        home + og.subrange(after_username(og), og.len() as int)
    } else {
        og
    }
}

/// Position right after the username segment that follows the
/// recognized home-directory pattern: the first backslash at or past
/// position 9, or the end of the path.
pub open spec fn after_username(og: Seq<char>) -> int {
    if exists|i: int| 9 <= i < og.len() && og[i] == '\\' {
        choose|i: int|
            9 <= i < og.len() && og[i] == '\\' && forall|k: int| 9 <= k < i ==> og[k] != '\\'
    } else {
        og.len() as int
    }
}

/// Adjusts a recorded path to the current account's home directory.
///
/// A path recorded under another user's home keeps its relative
/// remainder but is re-rooted under `current_home`; any other path is
/// returned unchanged.
pub fn adjust_path(original: &Vec<char>, current_home: &Vec<char>) -> (r: Vec<char>)
    ensures
        r@ == adjust_spec(original@, current_home@),
{
    let pat: Vec<char> = chars_of("C:\\Users\\");
    proof {
        reveal_strlit("C:\\Users\\");
    }
    if original.len() < pat.len() || !matches_at(original, &pat, 0) {
        return slice_chars(original, 0, original.len());
    }
    let n: usize = original.len();
    let cut: usize = match scan_for(original, '\\', 9) {
        Some(i) => {
            proof {
                let a = after_username(original@);
                assert(original@[i as int] == '\\');
                if a < i {
                    assert(original@[a] != '\\');
                }
                if a > i {
                    if exists|k: int| 9 <= k < original@.len() && original@[k] == '\\' {
                        assert(original@[a] == '\\' && original@[i as int] != '\\');
                    }
                }
                assert(a == i as int);
            }
            i
        },
        None => {
            proof {
                if exists|k: int| 9 <= k < original@.len() && original@[k] == '\\' {
                    let w = choose|k: int| 9 <= k < original@.len() && original@[k] == '\\';
                    assert(original@[w] != '\\');
                }
            }
            n
        },
    };
    let mut r = slice_chars(current_home, 0, current_home.len());
    let tail = slice_chars(original, cut, n);
    let mut j: usize = 0;
    while j < tail.len()
        invariant
            j <= tail@.len(),
            r@ == current_home@ + tail@.subrange(0, j as int),
        decreases tail@.len() - j,
    {
        r.push(tail[j]);
        j = j + 1;
        proof {
            assert(r@ =~= current_home@ + tail@.subrange(0, j as int));
        }
    }
    proof {
        assert(current_home@ =~= current_home@.subrange(0, current_home@.len() as int));
        assert(tail@.subrange(0, tail@.len() as int) =~= tail@);
        assert(r@ =~= adjust_spec(original@, current_home@));
    }
    r
}

/// Adjusts a recorded path given as a string, returning a string.
pub fn adjust_path_str(original: &str, current_home: &str) -> (r: String)
    ensures
        r@ == adjust_spec(original@, current_home@),
{
    let o = chars_of(original);
    let h = chars_of(current_home);
    let a = adjust_path(&o, &h);
    string_of(&a)
}

} // verus!
