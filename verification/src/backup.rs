//! Archive writer: packs the selected inputs into a container.
//!
//! Each top-level input receives a fresh token. The fingerprint entry
//! is written first, mapping every token to its original path; then a
//! lone file is stored as `<token>` or `<token>.<ext>`, and every
//! descendant of a folder input — empty directories included — as
//! `<token>/<relative-path>`. Progress counts completed files against
//! the precomputed file total, floored at one, and ends with the
//! terminal sentinel.

use vstd::prelude::*;

verus! {

use crate::codec::{extension_spec, file_extension, fresh_token, is_token};
use crate::manifest::{
    build_marker, manifest_text, fingerprint_name, fingerprint_entry_name, render_fingerprint,
};
use crate::progress::{Progress, pct_seq};
use crate::strutil::{chars_of, string_of, append_chars};
use crate::tarc::{ArchiveBuilder, builder_log, tar_encoding, tar_builder_new, tar_append,
    tar_finish};
use vstd::string::StrSliceExecFns;

/// One descendant of a folder input: its path relative to the folder
/// root (empty for the root itself, which preserves empty folders),
/// whether it is a directory, its payload and its recorded metadata.
pub struct DirMember {
    pub rel: String,
    pub is_dir: bool,
    pub data: Vec<u8>,
    pub mode: u32,
    pub mtime: u64,
}

/// One top-level selected input: a single file with its payload, or a
/// folder with every descendant enumerated.
pub enum BackupInput {
    FileInput { path: String, data: Vec<u8>, mode: u32, mtime: u64 },
    DirInput { path: String, members: Vec<DirMember> },
}

/// The original absolute path of an input.
pub open spec fn input_path(inp: BackupInput) -> Seq<char> {
    match inp {
        BackupInput::FileInput { path, .. } => path@,
        BackupInput::DirInput { path, .. } => path@,
    }
}

/// The archive entry name of a lone file: the token, with the
/// original's extension appended when it has one, so restore can tell
/// a lone file from a folder root without consulting the fingerprint.
pub open spec fn lone_entry_name(tok: Seq<char>, path: Seq<char>) -> Seq<char> {
    match extension_spec(path) {
        Some(e) => tok + seq!['.'] + e,
        None => tok,
    }
}

/// The archive entry name of a folder descendant: the token, a slash,
/// and the relative path.
pub open spec fn member_entry_name(tok: Seq<char>, rel: Seq<char>) -> Seq<char> {
    tok + seq!['/'] + rel
}

/// The records a folder input's members contribute, in order.
pub open spec fn member_records(ms: Seq<DirMember>, tok: Seq<char>) -> Seq<
    (Seq<char>, Seq<u8>, bool, u32, u64),
> {
    Seq::new(
        ms.len(),
        |i: int|
            (
                member_entry_name(tok, ms[i].rel@),
                ms[i].data@,
                ms[i].is_dir,
                ms[i].mode,
                ms[i].mtime,
            ),
    )
}

/// The records one input contributes under its token.
pub open spec fn input_records(inp: BackupInput, tok: Seq<char>) -> Seq<
    (Seq<char>, Seq<u8>, bool, u32, u64),
> {
    match inp {
        BackupInput::FileInput { path, data, mode, mtime } => seq![
            (lone_entry_name(tok, path@), data@, false, mode, mtime),
        ],
        BackupInput::DirInput { path, members } => member_records(members@, tok),
    }
}

/// The payload records of the first `i` inputs, in order.
pub open spec fn payload_pre(
    inputs: Seq<BackupInput>,
    toks: Seq<Seq<char>>,
    i: int,
) -> Seq<(Seq<char>, Seq<u8>, bool, u32, u64)>
    decreases i,
{
    if i <= 0 {
        Seq::empty()
    } else {
        payload_pre(inputs, toks, i - 1) + input_records(inputs[i - 1], toks[i - 1])
    }
}

/// The fingerprint's token table: one line per input, in order.
pub open spec fn manifest_pairs(
    inputs: Seq<BackupInput>,
    toks: Seq<Seq<char>>,
) -> Seq<(Seq<char>, Seq<char>)> {
    Seq::new(inputs.len(), |i: int| (toks[i], input_path(inputs[i])))
}

/// The fingerprint record: first in every archive, holding the
/// rendered token table.
pub open spec fn fp_record(
    inputs: Seq<BackupInput>,
    toks: Seq<Seq<char>>,
    now: u64,
) -> (Seq<char>, Seq<u8>, bool, u32, u64) {
    (
        fingerprint_name(),
        vstd::utf8::encode_utf8(manifest_text(build_marker(), manifest_pairs(inputs, toks))),
        false,
        0o644u32,
        now,
    )
}

/// Every record a backup writes: the fingerprint first, then each
/// input's records in order.
pub open spec fn backup_records(
    inputs: Seq<BackupInput>,
    toks: Seq<Seq<char>>,
    now: u64,
) -> Seq<(Seq<char>, Seq<u8>, bool, u32, u64)> {
    seq![fp_record(inputs, toks, now)] + payload_pre(inputs, toks, inputs.len() as int)
}

/// How many files the first `k` members of a folder hold.
pub open spec fn member_files_pre(ms: Seq<DirMember>, k: int) -> int
    decreases k,
{
    if k <= 0 {
        0
    } else {
        member_files_pre(ms, k - 1) + (if ms[k - 1].is_dir {
            0int
        } else {
            1int
        })
    }
}

/// How many files one input holds: one for a lone file, the non-dir
/// members for a folder.
pub open spec fn input_files(inp: BackupInput) -> int {
    match inp {
        BackupInput::FileInput { .. } => 1,
        BackupInput::DirInput { members, .. } => member_files_pre(members@, members@.len() as int),
    }
}

/// How many files the first `i` inputs hold.
pub open spec fn files_pre(inputs: Seq<BackupInput>, i: int) -> int
    decreases i,
{
    if i <= 0 {
        0
    } else {
        files_pre(inputs, i - 1) + input_files(inputs[i - 1])
    }
}

/// The file count of a backup.
pub open spec fn backup_file_count(inputs: Seq<BackupInput>) -> int {
    files_pre(inputs, inputs.len() as int)
}

/// The progress denominator of a backup: its file count, floored at
/// one so all-empty-folder backups divide safely.
pub open spec fn backup_total(inputs: Seq<BackupInput>) -> int {
    if backup_file_count(inputs) == 0 {
        1
    } else {
        backup_file_count(inputs)
    }
}

proof fn lemma_member_files_bounds(ms: Seq<DirMember>, k: int)
    ensures
        0 <= member_files_pre(ms, k),
        k >= 0 ==> member_files_pre(ms, k) <= k,
    decreases k,
{
    if k > 0 {
        lemma_member_files_bounds(ms, k - 1);
    }
}

proof fn lemma_member_files_mono(ms: Seq<DirMember>, k: int, l: int)
    requires
        k <= l,
    ensures
        member_files_pre(ms, k) <= member_files_pre(ms, l),
    decreases l - k,
{
    if k < l {
        lemma_member_files_mono(ms, k, l - 1);
        lemma_member_files_bounds(ms, l);
    }
}

proof fn lemma_input_files_nonneg(inp: BackupInput)
    ensures
        0 <= input_files(inp),
{
    match inp {
        BackupInput::FileInput { .. } => {},
        BackupInput::DirInput { members, .. } => {
            lemma_member_files_bounds(members@, members@.len() as int);
        },
    }
}

proof fn lemma_files_pre_mono(inputs: Seq<BackupInput>, i: int, j: int)
    requires
        i <= j,
    ensures
        files_pre(inputs, i) <= files_pre(inputs, j),
    decreases j - i,
{
    if i < j {
        lemma_files_pre_mono(inputs, i, j - 1);
        lemma_input_files_nonneg(inputs[j - 1]);
    }
}


/// Relies on chrono::Local::now formatted as year-month-day_hour-minute-second:
/// ASCII digits joined by hyphens and one underscore, at least 19
/// characters. The value depends on the clock, so nothing else is
/// promised.
#[verifier::external_body]
fn local_timestamp() -> (r: String)
    ensures
        r@.len() >= 19,
        forall|i: int|
            0 <= i < r@.len() ==> (('0' <= #[trigger] r@[i] && r@[i] <= '9') || r@[i] == '-'
                || r@[i] == '_'),
{
    chrono::Local::now().format("%Y-%m-%d_%H-%M-%S").to_string()
}

/// Relies on chrono::Local::now and its Unix timestamp, used only as
/// the fingerprint entry's modification time. The value depends on the
/// clock, so nothing is promised of it.
#[verifier::external_body]
fn local_unix_time() -> (r: u64)
{
    let t = chrono::Local::now().timestamp();
    t as u64
}

/// All tokens differ pairwise.
pub open spec fn distinct_seqs(ts: Seq<Seq<char>>) -> bool {
    forall|i: int, j: int| 0 <= i < j < ts.len() ==> ts[i] != ts[j]
}

/// Draws one fresh token per input and checks that they differ; a
/// collision of the random generator is reported as an error rather
/// than silently producing a colliding archive.
fn make_tokens(n: usize) -> (r: Result<Vec<String>, String>)
    ensures
        r matches Ok(toks) ==> {
            &&& toks@.len() == n
            &&& forall|k: int| 0 <= k < n ==> is_token(#[trigger] toks.deep_view()[k])
            &&& distinct_seqs(toks.deep_view())
        },
{
    let mut toks: Vec<String> = Vec::new();
    let mut i: usize = 0;
    while i < n
        invariant
            i <= n,
            toks@.len() == i,
            forall|k: int| 0 <= k < i ==> is_token(#[trigger] toks.deep_view()[k]),
        decreases n - i,
    {
        let ghost pre = toks.deep_view();
        let t = fresh_token();
        toks.push(t);
        proof {
            assert(toks.deep_view() =~~= pre.push(t@));
            assert(forall|k: int| 0 <= k < i ==> toks.deep_view()[k] == pre[k]);
        }
        i = i + 1;
    }
    let mut a: usize = 0;
    while a < n
        invariant
            n == toks@.len(),
            a <= n,
            forall|k: int| 0 <= k < n ==> is_token(#[trigger] toks.deep_view()[k]),
            forall|x: int, y: int| 0 <= x < y < toks.deep_view().len() && x < a ==> toks.deep_view()[x]
                != toks.deep_view()[y],
        decreases n - a,
    {
        let mut b: usize = a + 1;
        while b < n
            invariant
                n == toks@.len(),
                a < b || b == a + 1,
                a < n,
                b <= n,
                forall|y: int| a < y < b ==> toks.deep_view()[a as int] != (
                #[trigger] toks.deep_view()[y]),
            decreases n - b,
        {
            proof {
                assert(toks.deep_view()[a as int] == toks@[a as int]@);
                assert(toks.deep_view()[b as int] == toks@[b as int]@);
            }
            if toks[a] == toks[b] {
                return Err(String::from_str("token collision"));
            }
            b = b + 1;
        }
        a = a + 1;
    }
    Ok(toks)
}

/// The archive file name for a timestamp.
pub open spec fn archive_name_spec(ts: Seq<char>) -> Seq<char> {
    "backup_"@ + ts + ".tar"@
}

/// Names the archive file after the moment the backup started.
fn archive_file_name() -> (r: String)
    ensures
        exists|ts: Seq<char>| r@ == archive_name_spec(ts),
{
    let ts = local_timestamp();
    let mut r = String::from_str("backup_");
    r.append(ts.as_str());
    r.append(".tar");
    proof {
        reveal_strlit("backup_");
        reveal_strlit(".tar");
        assert(r@ == archive_name_spec(ts@));
    }
    r
}

/// Writes the container for the given inputs and tokens: the
/// fingerprint entry first, then every input's records in order,
/// reporting progress per completed file and the terminal sentinel at
/// the end.
#[verifier::rlimit(100)]
pub fn write_archive(
    inputs: &Vec<BackupInput>,
    tokens: &Vec<String>,
    now: u64,
    progress: &mut Progress,
) -> (r: Result<Vec<u8>, String>)
    requires
        tokens@.len() == inputs@.len(),
    ensures
        r matches Ok(bytes) ==> bytes@ == tar_encoding(
            backup_records(inputs@, tokens.deep_view(), now),
        ),
        r matches Ok(bytes) ==> final(progress)@ == old(progress)@ + pct_seq(
            backup_file_count(inputs@),
            backup_total(inputs@),
        ).push(crate::PROGRESS_DONE),
{
    let ghost iv = inputs@;
    let ghost tv = tokens.deep_view();
    let n: usize = inputs.len();

    let mut total_files: usize = 0;
    let mut i: usize = 0;
    while i < n
        invariant
            n == inputs@.len(),
            iv == inputs@,
            i <= n,
            total_files as int == files_pre(iv, i as int),
            total_files <= i || total_files as int <= files_pre(iv, i as int),
        decreases n - i,
    {
        proof {
            lemma_files_pre_mono(iv, 0, i as int);
            lemma_input_files_nonneg(iv[i as int]);
        }
        match &inputs[i] {
            BackupInput::FileInput { .. } => {
                total_files = match total_files.checked_add(1) {
                    Some(v) => v,
                    None => {
                        return Err(String::from_str("too many files"));
                    },
                };
            },
            BackupInput::DirInput { members, .. } => {
                let m: usize = members.len();
                let mut k: usize = 0;
                while k < m
                    invariant
                        m == members@.len(),
                        k <= m,
                        total_files as int == files_pre(iv, i as int) + member_files_pre(
                            members@,
                            k as int,
                        ),
                        i < n,
                        n == inputs@.len(),
                        iv == inputs@,
                        inputs@[i as int] matches BackupInput::DirInput { members: mm, .. }
                            && mm@ == members@,
                    decreases m - k,
                {
                    if !members[k].is_dir {
                        total_files = match total_files.checked_add(1) {
                            Some(v) => v,
                            None => {
                                return Err(String::from_str("too many files"));
                            },
                        };
                    }
                    k = k + 1;
                }
            },
        }
        i = i + 1;
    }
    proof {
        assert(total_files as int == backup_file_count(iv));
    }
    let total: usize = if total_files == 0 {
        1
    } else {
        total_files
    };
    let ghost total_g = total as int;

    let mut pairs: Vec<(String, String)> = Vec::new();
    let mut i: usize = 0;
    while i < n
        invariant
            n == inputs@.len(),
            iv == inputs@,
            tv == tokens.deep_view(),
            tv.len() == n,
            i <= n,
            pairs@.len() == i,
            pairs.deep_view() == manifest_pairs(iv, tv).subrange(0, i as int),
        decreases n - i,
    {
        let ghost pre = pairs.deep_view();
        let tok = tokens[i].clone();
        let path = match &inputs[i] {
            BackupInput::FileInput { path, .. } => path.clone(),
            BackupInput::DirInput { path, .. } => path.clone(),
        };
        pairs.push((tok, path));
        proof {
            assert(tokens.deep_view()[i as int] == tokens@[i as int]@);
            assert(pairs.deep_view() =~~= pre.push((tv[i as int], input_path(iv[i as int]))));
            assert(pairs.deep_view() =~~= manifest_pairs(iv, tv).subrange(0, i + 1));
        }
        i = i + 1;
    }
    proof {
        assert(manifest_pairs(iv, tv).subrange(0, n as int) =~= manifest_pairs(iv, tv));
    }
    let text = render_fingerprint(&pairs);
    let data = text.as_str().as_bytes_vec();
    let mut tb = tar_builder_new();
    let fpn = String::from_str(fingerprint_entry_name());
    match tar_append(&mut tb, &fpn, &data, false, 0o644, now) {
        Ok(_) => {},
        Err(e) => {
            return Err(e);
        },
    }
    proof {
        assert(builder_log(tb) =~= seq![fp_record(iv, tv, now)] + payload_pre(iv, tv, 0));
    }

    let mut done: usize = 0;
    let mut i: usize = 0;
    proof {
        assert(progress@ =~= old(progress)@ + pct_seq(0, total_g));
    }
    while i < n
        invariant
            n == inputs@.len(),
            iv == inputs@,
            tv == tokens.deep_view(),
            tv.len() == n,
            total as int == total_g,
            1 <= total_g,
            backup_file_count(iv) <= total_g,
            i <= n,
            done as int == files_pre(iv, i as int),
            builder_log(tb) == seq![fp_record(iv, tv, now)] + payload_pre(iv, tv, i as int),
            progress@ == old(progress)@ + pct_seq(done as int, total_g),
        decreases n - i,
    {
        let ghost pre_log = builder_log(tb);
        proof {
            assert(tokens.deep_view()[i as int] == tokens@[i as int]@);
        }
        match &inputs[i] {
            BackupInput::FileInput { path, data, mode, mtime } => {
                let pc = chars_of(path.as_str());
                let name = match file_extension(&pc) {
                    Some(ext) => {
                        let mut nc = chars_of(tokens[i].as_str());
                        nc.push('.');
                        append_chars(&mut nc, &ext);
                        proof {
                            assert(nc@ =~= lone_entry_name(tv[i as int], path@));
                        }
                        string_of(&nc)
                    },
                    None => {
                        proof {
                            assert(tokens@[i as int]@ =~= lone_entry_name(tv[i as int], path@));
                        }
                        tokens[i].clone()
                    },
                };
                match tar_append(&mut tb, &name, data, false, *mode, *mtime) {
                    Ok(_) => {},
                    Err(e) => {
                        return Err(e);
                    },
                }
                proof {
                    assert(input_records(iv[i as int], tv[i as int]) =~= seq![
                        (lone_entry_name(tv[i as int], path@), data@, false, *mode, *mtime),
                    ]);
                    assert(builder_log(tb) =~= seq![fp_record(iv, tv, now)] + payload_pre(
                        iv,
                        tv,
                        i + 1,
                    ));
                    lemma_files_pre_mono(iv, i + 1, n as int);
                }
                done = done + 1;
                let big: u128 = ((done as u128) * 100) / (total as u128);
                proof {
                    assert(done as int <= total_g);
                    assert(((done as int) * 100) / total_g <= 100) by (nonlinear_arith)
                        requires
                            1 <= total_g,
                            done as int <= total_g,
                    ;
                    assert(0 <= ((done as int) * 100) / total_g);
                    assert(big as int == ((done as int) * 100) / total_g);
                }
                let pct: u32 = big as u32;
                progress.set(pct);
                proof {
                    assert(pct_seq(done as int, total_g) =~= pct_seq(done as int - 1, total_g)
                        .push(pct));
                    assert(progress@ =~= old(progress)@ + pct_seq(done as int, total_g));
                }
            },
            BackupInput::DirInput { path, members } => {
                let m: usize = members.len();
                let mut k: usize = 0;
                while k < m
                    invariant
                        m == members@.len(),
                        n == inputs@.len(),
                        iv == inputs@,
                        tv == tokens.deep_view(),
                        tv.len() == n,
                        total as int == total_g,
                        1 <= total_g,
                        backup_file_count(iv) <= total_g,
                        i < n,
                        tokens@[i as int]@ == tv[i as int],
                        inputs@[i as int] matches BackupInput::DirInput { members: mm, .. }
                            && mm@ == members@,
                        k <= m,
                        done as int == files_pre(iv, i as int) + member_files_pre(
                            members@,
                            k as int,
                        ),
                        builder_log(tb) == seq![fp_record(iv, tv, now)] + payload_pre(
                            iv,
                            tv,
                            i as int,
                        ) + member_records(members@, tv[i as int]).subrange(0, k as int),
                        progress@ == old(progress)@ + pct_seq(done as int, total_g),
                    decreases m - k,
                {
                    let ghost pre_log2 = builder_log(tb);
                    let mut nc = chars_of(tokens[i].as_str());
                    nc.push('/');
                    let rc = chars_of(members[k].rel.as_str());
                    append_chars(&mut nc, &rc);
                    proof {
                        assert(nc@ =~= member_entry_name(tv[i as int], members@[k as int].rel@));
                    }
                    let name = string_of(&nc);
                    let is_dir = members[k].is_dir;
                    match tar_append(&mut tb, &name, &members[k].data, is_dir, members[k].mode,
                        members[k].mtime) {
                        Ok(_) => {},
                        Err(e) => {
                            return Err(e);
                        },
                    }
                    proof {
                        assert(member_records(members@, tv[i as int]).subrange(0, k + 1) =~=
                            member_records(members@, tv[i as int]).subrange(0, k as int).push(
                            member_records(members@, tv[i as int])[k as int],
                        ));
                        assert(builder_log(tb) =~= seq![fp_record(iv, tv, now)] + payload_pre(
                            iv,
                            tv,
                            i as int,
                        ) + member_records(members@, tv[i as int]).subrange(0, k + 1));
                    }
                    if !is_dir {
                        proof {
                            lemma_member_files_mono(members@, k + 1, m as int);
                            lemma_files_pre_mono(iv, i + 1, n as int);
                            assert(files_pre(iv, i + 1) == files_pre(iv, i as int) + input_files(
                                iv[i as int],
                            ));
                        }
                        done = done + 1;
                        let big: u128 = ((done as u128) * 100) / (total as u128);
                        proof {
                            assert(done as int <= total_g);
                            assert(((done as int) * 100) / total_g <= 100) by (nonlinear_arith)
                                requires
                                    1 <= total_g,
                                    done as int <= total_g,
                            ;
                            assert(0 <= ((done as int) * 100) / total_g);
                            assert(big as int == ((done as int) * 100) / total_g);
                        }
                        let pct: u32 = big as u32;
                        progress.set(pct);
                        proof {
                            assert(pct_seq(done as int, total_g) =~= pct_seq(
                                done as int - 1,
                                total_g,
                            ).push(pct));
                            assert(progress@ =~= old(progress)@ + pct_seq(done as int, total_g));
                        }
                    }
                    k = k + 1;
                }
                proof {
                    assert(member_records(members@, tv[i as int]).subrange(0, m as int) =~=
                        member_records(members@, tv[i as int]));
                    assert(builder_log(tb) =~= seq![fp_record(iv, tv, now)] + payload_pre(
                        iv,
                        tv,
                        i + 1,
                    ));
                }
            },
        }
        i = i + 1;
    }
    let bytes = match tar_finish(tb) {
        Ok(b) => b,
        Err(e) => {
            return Err(e);
        },
    };
    progress.done();
    proof {
        assert(payload_pre(iv, tv, n as int) == payload_pre(iv, tv, iv.len() as int));
        assert(bytes@ == tar_encoding(backup_records(iv, tv, now)));
    }
    Ok(bytes)
}

/// Creates a backup archive of the given inputs: assigns one fresh
/// token per input, writes the fingerprint and every entry, and names
/// the archive file after the current time. On success the container
/// bytes and the file name are returned; progress runs from the
/// per-file percentages to the terminal sentinel.
pub fn backup_gui(inputs: &Vec<BackupInput>, progress: &mut Progress) -> (r: Result<
    (Vec<u8>, String),
    String,
>)
    ensures
        r matches Ok(p) ==> exists|toks: Seq<Seq<char>>, now: u64|
            {
                &&& p.0@ == tar_encoding(#[trigger] backup_records(inputs@, toks, now))
                &&& toks.len() == inputs@.len()
                &&& (forall|k: int| 0 <= k < toks.len() ==> is_token(#[trigger] toks[k]))
                &&& distinct_seqs(toks)
            },
        r matches Ok(p) ==> final(progress)@ == old(progress)@ + pct_seq(
            backup_file_count(inputs@),
            backup_total(inputs@),
        ).push(crate::PROGRESS_DONE),
        r matches Ok(p) ==> exists|ts: Seq<char>| p.1@ == archive_name_spec(ts),
{
    let name = archive_file_name();
    let tokens = match make_tokens(inputs.len()) {
        Ok(t) => t,
        Err(e) => {
            return Err(e);
        },
    };
    let now = local_unix_time();
    let bytes = match write_archive(inputs, &tokens, now, progress) {
        Ok(b) => b,
        Err(e) => {
            return Err(e);
        },
    };
    proof {
        let toks = tokens.deep_view();
        assert(bytes@ == tar_encoding(backup_records(inputs@, toks, now)));
    }
    Ok((bytes, name))
}

proof fn lemma_files_bound(inputs: Seq<BackupInput>, i: int)
    requires
        0 <= i,
    ensures
        0 <= files_pre(inputs, i),
{
    lemma_files_pre_mono(inputs, 0, i);
}

} // verus!
