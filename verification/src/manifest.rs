//! The fingerprint: the archive's embedded metadata record.
//!
//! Every archive starts with a `fingerprint.txt` entry whose text holds
//! the build marker on its first line, a section caption, and one line
//! `<token>: <original-path>` per backed-up top-level input. The text is
//! the only mapping back from archive namespace to original paths: an
//! archive is valid exactly when its fingerprint text contains the
//! reading program's build marker, and the token table is recovered by
//! parsing the delimited lines, later lines overriding earlier ones
//! with the same token.

use vstd::prelude::*;

verus! {

use crate::strutil::{
    contains_seq, occurs_at, split_spec, trim_spec, split_char, trim_chars, find_seq, slice_chars,
    string_of, push_char, chars_of,
};

/// The build-identity marker this build embeds in and expects from
/// every archive.
pub open spec fn build_marker() -> Seq<char> {
    "DEFAULT_FINGERPRINT"@
}

/// Returns the build fingerprint marker used to gate archive validity.
pub fn get_fingered() -> (r: &'static str)
    ensures
        r@ == build_marker(),
{
    "DEFAULT_FINGERPRINT"
}

/// The fixed name of the fingerprint entry inside an archive.
pub open spec fn fingerprint_name() -> Seq<char> {
    "fingerprint.txt"@
}

/// Returns the name of the fingerprint entry.
pub fn fingerprint_entry_name() -> (r: &'static str)
    ensures
        r@ == fingerprint_name(),
{
    "fingerprint.txt"
}

/// The delimiter separating a token from its path on a mapping line.
pub open spec fn delim() -> Seq<char> {
    ": "@
}

/// A line carries a mapping exactly when it holds the delimiter.
pub open spec fn has_delim(l: Seq<char>) -> bool {
    contains_seq(l, delim())
}

/// Position of the first delimiter occurrence in `l`.
pub open spec fn delim_pos(l: Seq<char>) -> int {
    choose|i: int|
        occurs_at(l, delim(), i) && forall|k: int| 0 <= k < i ==> !occurs_at(l, delim(), k)
}

/// The token of a mapping line: everything before the first delimiter.
pub open spec fn line_token(l: Seq<char>) -> Seq<char> {
    l.subrange(0, delim_pos(l))
}

/// The path of a mapping line: everything after the first delimiter,
/// trimmed.
pub open spec fn line_path(l: Seq<char>) -> Seq<char> {
    trim_spec(l.subrange(delim_pos(l) + 2, l.len() as int))
}

/// Whether the token table `m` has an entry for token `k`.
pub open spec fn has_key(m: Seq<(Seq<char>, Seq<char>)>, k: Seq<char>) -> bool {
    exists|j: int| 0 <= j < m.len() && m[j].0 == k
}

/// Index of the entry for `k` in `m`, assuming it exists and keys are
/// unique.
pub open spec fn key_index(m: Seq<(Seq<char>, Seq<char>)>, k: Seq<char>) -> int {
    choose|j: int| 0 <= j < m.len() && m[j].0 == k
}

/// The recorded path for token `k`, if any.
pub open spec fn lookup(m: Seq<(Seq<char>, Seq<char>)>, k: Seq<char>) -> Option<Seq<char>> {
    if has_key(m, k) {
        Some(m[key_index(m, k)].1)
    } else {
        None
    }
}

/// No token appears twice in the table.
pub open spec fn distinct_keys(m: Seq<(Seq<char>, Seq<char>)>) -> bool {
    forall|i: int, j: int| 0 <= i < j < m.len() ==> m[i].0 != m[j].0
}

/// Adds or replaces the entry for `k`: insertion keeps table order, a
/// repeated token overwrites in place.
pub open spec fn upsert(
    m: Seq<(Seq<char>, Seq<char>)>,
    k: Seq<char>,
    v: Seq<char>,
) -> Seq<(Seq<char>, Seq<char>)> {
    if has_key(m, k) {
        m.update(key_index(m, k), (k, v))
    } else {
        m.push((k, v))
    }
}

/// The token table described by a sequence of fingerprint lines:
/// delimited lines become entries in order, other lines are ignored.
pub open spec fn parse_lines_spec(lines: Seq<Seq<char>>) -> Seq<(Seq<char>, Seq<char>)>
    decreases lines.len(),
{
    if lines.len() == 0 {
        Seq::empty()
    } else {
        let m = parse_lines_spec(lines.drop_last());
        let l = lines.last();
        if has_delim(l) {
            upsert(m, line_token(l), line_path(l))
        } else {
            m
        }
    }
}

/// The token table of a fingerprint text: its lines parsed in order.
pub open spec fn parse_map_spec(text: Seq<char>) -> Seq<(Seq<char>, Seq<char>)> {
    parse_lines_spec(split_spec(text, '\n'))
}

/// Parsing never yields a repeated token.
#[verifier::rlimit(60)]
pub proof fn lemma_parse_distinct(lines: Seq<Seq<char>>)
    ensures
        distinct_keys(parse_lines_spec(lines)),
    decreases lines.len(),
{
    if lines.len() > 0 {
        lemma_parse_distinct(lines.drop_last());
        let m = parse_lines_spec(lines.drop_last());
        let l = lines.last();
        if has_delim(l) {
            if has_key(m, line_token(l)) {
                let j = key_index(m, line_token(l));
                assert(0 <= j < m.len() && m[j].0 == line_token(l));
                assert(distinct_keys(upsert(m, line_token(l), line_path(l))));
            }
        }
    }
}

/// The header of a fingerprint text: the marker line, then the section
/// caption.
pub open spec fn manifest_header(marker: Seq<char>) -> Seq<char> {
    marker + "\n[Backup Info]\n"@
}

/// One rendered mapping line.
pub open spec fn manifest_line(tok: Seq<char>, path: Seq<char>) -> Seq<char> {
    tok + ": "@ + path + "\n"@
}

/// The rendered mapping lines of a token table, in order.
pub open spec fn manifest_lines(entries: Seq<(Seq<char>, Seq<char>)>) -> Seq<char>
    decreases entries.len(),
{
    if entries.len() == 0 {
        Seq::empty()
    } else {
        manifest_lines(entries.drop_last()) + manifest_line(
            entries.last().0,
            entries.last().1,
        )
    }
}

/// The full fingerprint text for a marker and a token table.
pub open spec fn manifest_text(marker: Seq<char>, entries: Seq<(Seq<char>, Seq<char>)>) -> Seq<
    char,
> {
    manifest_header(marker) + manifest_lines(entries)
}

/// Renders the fingerprint text for the given token table under this
/// build's marker.
pub fn render_fingerprint(entries: &Vec<(String, String)>) -> (r: String)
    ensures
        r@ == manifest_text(build_marker(), entries.deep_view()),
{
    let mut r = String::new();
    r.append(get_fingered());
    push_char(&mut r, '\n');
    r.append("[Backup Info]");
    push_char(&mut r, '\n');
    proof {
        reveal_strlit("\n[Backup Info]\n");
        reveal_strlit("[Backup Info]");
        reveal_strlit("\n");
        assert(r@ =~= manifest_header(build_marker()));
        assert(manifest_lines(entries.deep_view().subrange(0, 0)) =~= Seq::<char>::empty());
        assert(r@ =~= manifest_header(build_marker()) + manifest_lines(
            entries.deep_view().subrange(0, 0),
        ));
    }
    let n: usize = entries.len();
    let mut i: usize = 0;
    while i < n
        invariant
            n == entries@.len(),
            i <= n,
            r@ == manifest_header(build_marker()) + manifest_lines(
                entries.deep_view().subrange(0, i as int),
            ),
        decreases n - i,
    {
        let ghost pre = r@;
        let ghost dv = entries.deep_view();
        r.append(entries[i].0.as_str());
        r.append(": ");
        r.append(entries[i].1.as_str());
        push_char(&mut r, '\n');
        proof {
            reveal_strlit(": ");
            reveal_strlit("\n");
            assert(entries.deep_view()[i as int] == (entries@[i as int].0@, entries@[
                i as int].1@));
            assert(r@ =~= pre + manifest_line(dv[i as int].0, dv[i as int].1));
            let cur = dv.subrange(0, i + 1);
            assert(cur.drop_last() =~= dv.subrange(0, i as int));
            assert(cur.last() == dv[i as int]);
            assert(manifest_lines(cur) == manifest_lines(dv.subrange(0, i as int))
                + manifest_line(dv[i as int].0, dv[i as int].1));
            assert(r@ =~= manifest_header(build_marker()) + manifest_lines(cur));
        }
        i = i + 1;
    }
    proof {
        assert(entries.deep_view().subrange(0, n as int) =~= entries.deep_view());
    }
    r
}

/// Whether a fingerprint text authenticates against this build: it
/// must contain the build marker as a substring.
pub fn marker_matches(text: &Vec<char>) -> (r: bool)
    ensures
        r == contains_seq(text@, build_marker()),
{
    let m = chars_of(get_fingered());
    crate::strutil::contains_chars(text, &m)
}

/// Index of the entry whose token equals `k`, if any.
fn find_key(m: &Vec<(String, String)>, k: &String) -> (r: Option<usize>)
    ensures
        match r {
            Some(j) => 0 <= j < m@.len() && m.deep_view()[j as int].0 == k@,
            None => !has_key(m.deep_view(), k@),
        },
{
    let n: usize = m.len();
    let mut j: usize = 0;
    while j < n
        invariant
            n == m@.len(),
            j <= n,
            forall|t: int| 0 <= t < j ==> m.deep_view()[t].0 != k@,
        decreases n - j,
    {
        proof {
            assert(m.deep_view()[j as int].0 == m@[j as int].0@);
        }
        if m[j].0 == *k {
            return Some(j);
        }
        j = j + 1;
    }
    proof {
        if has_key(m.deep_view(), k@) {
            let ki = key_index(m.deep_view(), k@);
            assert(0 <= ki < m.deep_view().len() && m.deep_view()[ki].0 == k@);
            assert(false);
        }
    }
    None
}

/// Recovers the token table from a fingerprint text: each line holding
/// the delimiter contributes its token and trimmed path, later lines
/// overriding earlier entries with the same token.
pub fn parse_fingerprint_text(text: &Vec<char>) -> (m: Vec<(String, String)>)
    ensures
        m.deep_view() == parse_map_spec(text@),
        distinct_keys(m.deep_view()),
{
    let lines = split_char(text, '\n');
    let ghost lv = lines.deep_view();
    let delim_chars = chars_of(": ");
    proof {
        reveal_strlit(": ");
    }
    let mut m: Vec<(String, String)> = Vec::new();
    let n: usize = lines.len();
    let mut i: usize = 0;
    proof {
        assert(lv.subrange(0, 0) =~= Seq::<Seq<char>>::empty());
    }
    while i < n
        invariant
            n == lines@.len(),
            lv == lines.deep_view(),
            delim_chars@ == delim(),
            delim().len() == 2,
            i <= n,
            m.deep_view() == parse_lines_spec(lv.subrange(0, i as int)),
            distinct_keys(m.deep_view()),
        decreases n - i,
    {
        let ghost pre = m.deep_view();
        let line = &lines[i];
        let llen: usize = line.len();
        proof {
            assert(lv[i as int] == lines@[i as int]@);
            assert(lv.subrange(0, i + 1).drop_last() =~= lv.subrange(0, i as int));
            assert(lv.subrange(0, i + 1).last() == lv[i as int]);
        }
        match find_seq(line, &delim_chars) {
            Some(p) => {
                proof {
                    let l = lv[i as int];
                    let d = delim_pos(l);
                    assert(occurs_at(l, delim(), p as int));
                    if d < p {
                        assert(!occurs_at(l, delim(), d));
                    }
                    if d > p {
                        assert(!occurs_at(l, delim(), p as int));
                    }
                    assert(d == p as int);
                }
                let tok = string_of(&slice_chars(line, 0, p));
                let path_part = slice_chars(line, p + 2, llen);
                let path = string_of(&trim_chars(&path_part));
                proof {
                    let l = lv[i as int];
                    assert(tok@ =~= line_token(l));
                    assert(path_part@ =~= l.subrange(delim_pos(l) + 2, l.len() as int));
                    assert(path@ == line_path(l));
                }
                match find_key(&m, &tok) {
                    Some(j) => {
                        m.set(j, (tok.clone(), path.clone()));
                        proof {
                            assert(has_key(pre, tok@));
                            let ki = key_index(pre, tok@);
                            assert(0 <= ki < pre.len() && pre[ki].0 == tok@);
                            if ki != j as int {
                                assert(false);
                            }
                            assert(m.deep_view() =~~= pre.update(j as int, (tok@, path@)));
                            assert(m.deep_view() == upsert(pre, tok@, path@));
                            assert(distinct_keys(m.deep_view()));
                        }
                    },
                    None => {
                        m.push((tok, path));
                        proof {
                            assert(m.deep_view() =~~= pre.push((tok@, path@)));
                            assert(m.deep_view() == upsert(pre, tok@, path@));
                            assert(distinct_keys(m.deep_view()));
                        }
                    },
                }
                proof {
                    let l = lv[i as int];
                    assert(has_delim(l));
                    assert(m.deep_view() == parse_lines_spec(lv.subrange(0, i + 1)));
                }
            },
            None => {
                proof {
                    let l = lv[i as int];
                    assert(!has_delim(l));
                    assert(m.deep_view() == parse_lines_spec(lv.subrange(0, i + 1)));
                }
            },
        }
        i = i + 1;
    }
    proof {
        assert(lv.subrange(0, n as int) =~= lv);
    }
    m
}

/// Looks a token up in a recovered table.
pub fn map_get(m: &Vec<(String, String)>, k: &String) -> (r: Option<String>)
    requires
        distinct_keys(m.deep_view()),
    ensures
        match r {
            Some(p) => lookup(m.deep_view(), k@) == Some(p@),
            None => lookup(m.deep_view(), k@) is None,
        },
{
    match find_key(m, k) {
        Some(j) => {
            proof {
                assert(has_key(m.deep_view(), k@));
                let ki = key_index(m.deep_view(), k@);
                assert(0 <= ki < m.deep_view().len() && m.deep_view()[ki].0 == k@);
                if ki != j as int {
                    assert(false);
                }
                assert(m.deep_view()[j as int].1 == m@[j as int].1@);
            }
            Some(m[j].1.clone())
        },
        None => None,
    }
}

} // verus!
