//! General properties of the engine, stated and proved once over the
//! specifications the public functions already carry.

use vstd::prelude::*;

verus! {

use crate::PROGRESS_DONE;
use crate::PROGRESS_MAX;
use crate::progress::{non_decreasing, pct_seq};
use crate::manifest::{has_key, key_index, distinct_keys};
use crate::restore::{
    fp_map, non_fp_names, restore_taken, restore_total, taken_pre, actions_pre, entry_taken,
    first_pos, dest_known, dest_of, root_component, rel_part, lemma_taken_le_counted,
};
use crate::backup::{lone_entry_name, BackupInput};
use crate::codec::{is_token, is_token_char, adjust_spec, extension_spec, base_name_spec,
    last_dot, is_sep};
use crate::tarc::tar_scan;

/// Reading the same valid archive's fingerprint twice yields an
/// identical token table and entry listing: both are pure functions of
/// the archive's immutable bytes, as the reader's contract states.
pub proof fn lemma_fingerprint_idempotent(
    bytes: Seq<u8>,
    es1: Seq<Seq<char>>,
    pm1: Seq<(Seq<char>, Seq<char>)>,
    es2: Seq<Seq<char>>,
    pm2: Seq<(Seq<char>, Seq<char>)>,
)
    requires
        es1 == non_fp_names(tar_scan(bytes).1),
        pm1 == fp_map(bytes),
        es2 == non_fp_names(tar_scan(bytes).1),
        pm2 == fp_map(bytes),
    ensures
        es1 == es2,
        pm1 == pm2,
{
}

/// The percentages reported over `count` completed items never
/// decrease, never pass the in-progress maximum, and the appended
/// terminal sentinel stands strictly above all of them, so it occurs
/// exactly once, at the end.
pub proof fn lemma_progress_trace(count: int, total: int)
    requires
        0 <= count <= total,
        1 <= total,
    ensures
        non_decreasing(pct_seq(count, total).push(PROGRESS_DONE)),
        forall|k: int| 0 <= k < count ==> (#[trigger] pct_seq(count, total)[k]) <= PROGRESS_MAX,
        pct_seq(count, total).push(PROGRESS_DONE).last() == PROGRESS_DONE,
        forall|k: int|
            0 <= k < count ==> (#[trigger] pct_seq(count, total).push(PROGRESS_DONE)[k])
                != PROGRESS_DONE,
{
    let t = pct_seq(count, total);
    assert forall|k: int| 0 <= k < count implies (#[trigger] t[k]) <= PROGRESS_MAX by {
        assert(((k + 1) * 100) / total <= 100 && 0 <= ((k + 1) * 100) / total)
            by (nonlinear_arith)
            requires
                0 <= k < count <= total,
                1 <= total,
        ;
    }
    assert forall|i: int, j: int| 0 <= i <= j < t.push(PROGRESS_DONE).len() implies t.push(
        PROGRESS_DONE,
    )[i] <= t.push(PROGRESS_DONE)[j] by {
        if j < count {
            assert(((i + 1) * 100) / total <= ((j + 1) * 100) / total) by (nonlinear_arith)
                requires
                    0 <= i <= j,
                    1 <= total,
            ;
            assert(0 <= ((i + 1) * 100) / total) by (nonlinear_arith)
                requires
                    0 <= i,
                    1 <= total,
            ;
            assert(((j + 1) * 100) / total <= 100) by (nonlinear_arith)
                requires
                    0 <= j < count <= total,
                    1 <= total,
            ;
        } else if i < count {
            assert(((i + 1) * 100) / total <= 100 && 0 <= ((i + 1) * 100) / total)
                by (nonlinear_arith)
                requires
                    0 <= i < count <= total,
                    1 <= total,
            ;
        }
    }
}

/// A restore never extracts more entries than its progress denominator
/// counts, so the trace of `restore_backup` satisfies the premises of
/// `lemma_progress_trace`.
pub proof fn lemma_restore_trace_bounds(bytes: Seq<u8>, osel: Option<Seq<Seq<char>>>)
    ensures
        0 <= restore_taken(bytes, osel) <= restore_total(bytes, osel),
        1 <= restore_total(bytes, osel),
{
    let lv = tar_scan(bytes).1;
    let pm = fp_map(bytes);
    lemma_taken_le_counted(lv, pm, osel, lv.len() as int);
}

/// A backup completes no more files than its progress denominator
/// counts, so the trace of `backup_gui` satisfies the premises of
/// `lemma_progress_trace`.
pub proof fn lemma_backup_trace_bounds(inputs: Seq<BackupInput>)
    ensures
        0 <= crate::backup::backup_file_count(inputs) ==> crate::backup::backup_file_count(inputs)
            <= crate::backup::backup_total(inputs),
        crate::backup::backup_file_count(inputs) >= 0 ==> 1 <= crate::backup::backup_total(
            inputs,
        ),
{
}

/// Every token of a table is token-shaped.
pub open spec fn tokens_wf(pm: Seq<(Seq<char>, Seq<char>)>) -> bool {
    forall|j: int| 0 <= j < pm.len() ==> is_token((#[trigger] pm[j]).0)
}

/// Lone-file disambiguation: the entry written for a single backed-up
/// file is the bare token when the original has no extension and the
/// token with the original's extension otherwise, and either name
/// restores to the adjusted original path without consulting the
/// fingerprint's own extension — the name alone decides.
///
/// The restore side resolves the name through the token table alone:
/// for any table of well-formed, pairwise distinct tokens holding
/// `tok`, the lone entry name resolves, and its destination is exactly
/// the adjusted original path.
#[verifier::rlimit(60)]
pub proof fn lemma_lone_file_disambiguation(
    pm: Seq<(Seq<char>, Seq<char>)>,
    tok: Seq<char>,
    orig: Seq<char>,
    home: Seq<char>,
)
    requires
        distinct_keys(pm),
        tokens_wf(pm),
        has_key(pm, tok),
        pm[key_index(pm, tok)].1 == orig,
        is_token(tok),
    ensures
        dest_known(pm, lone_entry_name(tok, orig)),
        dest_of(pm, home, lone_entry_name(tok, orig)) == adjust_spec(orig, home),
{
    let name = lone_entry_name(tok, orig);
    crate::codec::lemma_basename_chars(orig);
    match extension_spec(orig) {
        None => {
            assert(name == tok);
            assert forall|k: int| 0 <= k < name.len() implies name[k] != '/' by {
                assert(is_token_char(name[k]));
            }
            lemma_first_pos_none(name, '/');
            assert(root_component(name) =~= name);
            assert(has_key(pm, root_component(name)));
            assert(rel_part(name).len() == 0);
            assert(key_index(pm, root_component(name)) == key_index(pm, tok));
        },
        Some(e) => {
            assert(name == tok + seq!['.'] + e);
            let bn = base_name_spec(orig);
            let d = last_dot(bn);
            crate::codec::lemma_last_dot_pub(bn);
            assert(e =~= bn.subrange(d + 1, bn.len() as int));
            assert forall|k: int| 0 <= k < name.len() implies name[k] != '/' by {
                if k < 36 {
                    assert(is_token_char(name[k]));
                } else if k == 36 {
                    assert(name[k] == '.');
                } else {
                    assert(name[k] == bn[d + 1 + (k - 37)]);
                    assert(!is_sep(bn[d + 1 + (k - 37)]));
                }
            }
            lemma_first_pos_none(name, '/');
            assert(root_component(name) =~= name);
            let root = root_component(name);
            assert(!has_key(pm, root)) by {
                if has_key(pm, root) {
                    let j = key_index(pm, root);
                    assert(is_token(pm[j].0));
                    assert(pm[j].0.len() == 36);
                    assert(root.len() > 36);
                }
            }
            assert(root[36] == '.');
            assert forall|k: int| 0 <= k < 36 implies root[k] != '.' by {
                assert(root[k] == tok[k]);
                assert(is_token_char(tok[k]));
            }
            lemma_first_pos_at(root, '.', 36);
            assert(root.subrange(0, 36) =~= tok);
            assert(has_key(pm, tok));
            assert(dest_known(pm, name));
            assert(dest_of(pm, home, name) == adjust_spec(pm[key_index(pm, tok)].1, home));
        },
    }
}

/// When `c` does not occur in `s`, its first position is the length.
proof fn lemma_first_pos_none(s: Seq<char>, c: char)
    requires
        forall|k: int| 0 <= k < s.len() ==> s[k] != c,
    ensures
        first_pos(s, c) == s.len(),
{
    if exists|i: int| 0 <= i < s.len() && s[i] == c {
        let w = choose|i: int| 0 <= i < s.len() && s[i] == c;
        assert(s[w] != c);
    }
}

/// When `c` first occurs at `p`, that is its first position.
proof fn lemma_first_pos_at(s: Seq<char>, c: char, p: int)
    requires
        0 <= p < s.len(),
        s[p] == c,
        forall|k: int| 0 <= k < p ==> s[k] != c,
    ensures
        first_pos(s, c) == p,
{
    assert(exists|i: int| 0 <= i < s.len() && s[i] == c) by {
        assert(0 <= p < s.len() && s[p] == c);
    }
    let f = first_pos(s, c);
    assert(0 <= f < s.len() && s[f] == c && forall|k: int| 0 <= k < f ==> s[k] != c) by {
        let w = choose|i: int|
            0 <= i < s.len() && s[i] == c && forall|k: int| 0 <= k < i ==> s[k] != c;
        assert(0 <= p < s.len() && s[p] == c && forall|k: int| 0 <= k < p ==> s[k] != c);
    }
    if f < p {
        assert(s[f] != c);
    }
    if f > p {
        assert(s[p] != c);
    }
}

/// Every extracted entry appears in the restore actions, at the
/// position given by how many entries were taken before it, with its
/// resolved destination and its directory flag: in particular a
/// backed-up empty directory, stored as a directory entry under its
/// token, becomes a create-directory action at its adjusted
/// destination.
pub proof fn lemma_action_of_taken_entry(
    bytes: Seq<u8>,
    listing: Seq<(Seq<char>, bool, bool)>,
    pm: Seq<(Seq<char>, Seq<char>)>,
    osel: Option<Seq<Seq<char>>>,
    home: Seq<char>,
    i: int,
    j: int,
)
    requires
        0 <= i < j <= listing.len(),
        entry_taken(listing[i], pm, osel),
    ensures
        actions_pre(bytes, listing, pm, osel, home, j).len() == taken_pre(listing, pm, osel, j),
        0 <= taken_pre(listing, pm, osel, i) < actions_pre(bytes, listing, pm, osel, home, j).len(),
        actions_pre(bytes, listing, pm, osel, home, j)[taken_pre(listing, pm, osel, i)] == (
            dest_of(pm, home, listing[i].0),
            listing[i].1,
            if listing[i].1 {
                Seq::<u8>::empty()
            } else {
                crate::tarc::tar_payload(bytes, i).1
            },
        ),
    decreases j,
{
    lemma_actions_len(bytes, listing, pm, osel, home, j);
    lemma_actions_len(bytes, listing, pm, osel, home, i);
    lemma_taken_nonneg(listing, pm, osel, i);
    if j == i + 1 {
        lemma_actions_len(bytes, listing, pm, osel, home, i);
        assert(actions_pre(bytes, listing, pm, osel, home, j) == actions_pre(
            bytes,
            listing,
            pm,
            osel,
            home,
            i,
        ) + seq![
            (
                dest_of(pm, home, listing[i].0),
                listing[i].1,
                if listing[i].1 {
                    Seq::<u8>::empty()
                } else {
                    crate::tarc::tar_payload(bytes, i).1
                },
            ),
        ]);
    } else {
        lemma_action_of_taken_entry(bytes, listing, pm, osel, home, i, j - 1);
        lemma_taken_mono(listing, pm, osel, i, j - 1);
    }
}

/// As many actions accumulate as entries are taken.
pub proof fn lemma_actions_len(
    bytes: Seq<u8>,
    listing: Seq<(Seq<char>, bool, bool)>,
    pm: Seq<(Seq<char>, Seq<char>)>,
    osel: Option<Seq<Seq<char>>>,
    home: Seq<char>,
    j: int,
)
    ensures
        actions_pre(bytes, listing, pm, osel, home, j).len() == taken_pre(listing, pm, osel, j),
        taken_pre(listing, pm, osel, j) >= 0,
    decreases j,
{
    if j > 0 {
        lemma_actions_len(bytes, listing, pm, osel, home, j - 1);
    }
}

proof fn lemma_taken_nonneg(
    listing: Seq<(Seq<char>, bool, bool)>,
    pm: Seq<(Seq<char>, Seq<char>)>,
    osel: Option<Seq<Seq<char>>>,
    i: int,
)
    ensures
        taken_pre(listing, pm, osel, i) >= 0,
    decreases i,
{
    if i > 0 {
        lemma_taken_nonneg(listing, pm, osel, i - 1);
    }
}

proof fn lemma_taken_mono(
    listing: Seq<(Seq<char>, bool, bool)>,
    pm: Seq<(Seq<char>, Seq<char>)>,
    osel: Option<Seq<Seq<char>>>,
    i: int,
    j: int,
)
    requires
        0 <= i < j,
        entry_taken(listing[i], pm, osel),
    ensures
        taken_pre(listing, pm, osel, i) < taken_pre(listing, pm, osel, j),
    decreases j - i,
{
    if j == i + 1 {
    } else {
        lemma_taken_mono(listing, pm, osel, i, j - 1);
    }
}


/// Round trip of a lone-file backup: reconstructing the tree from the
/// one entry name and the one fingerprint mapping a single-file backup
/// writes, then selecting everything, yields exactly one checked leaf,
/// whose human path is the original's parent label joined with its
/// item name.
#[verifier::rlimit(100)]
pub proof fn lemma_round_trip_lone_file(tok: Seq<char>, path: Seq<char>)
    requires
        is_token(tok),
    ensures
        ({
            let tree = crate::tree::build_tree_model(
                seq![lone_entry_name(tok, path)],
                seq![(tok, path)],
            );
            crate::tree::m_collect_kids(
                crate::tree::m_set_checked(tree, true).kids,
                Seq::empty(),
            ) == seq![
                crate::codec::parent_label_spec(path) + seq!['/'] + base_name_spec(path),
            ]
        }),
{
    let name = lone_entry_name(tok, path);
    let entries = seq![name];
    let pm = seq![(tok, path)];
    let parent_name = crate::codec::parent_label_spec(path);
    let item_name = base_name_spec(path);
    let prefix = tok.push('/');

    // the lone entry name never carries the token-slash prefix
    assert(!crate::strutil::is_prefix_of(prefix, name)) by {
        crate::codec::lemma_basename_chars(path);
        match extension_spec(path) {
            None => {
                assert(name == tok);
                assert(prefix.len() > name.len());
            },
            Some(e) => {
                assert(name == tok + seq!['.'] + e);
                if crate::strutil::is_prefix_of(prefix, name) {
                    assert(name.subrange(0, 37) == prefix);
                    assert(name.subrange(0, 37)[36] == name[36]);
                    assert(name[36] == '.');
                    assert(prefix[36] == '/');
                }
            },
        }
    }
    assert(!(exists|j: int|
        0 <= j < entries.len() && crate::strutil::is_prefix_of(prefix, #[trigger] entries[j])))
        by {
        if exists|j: int|
            0 <= j < entries.len() && crate::strutil::is_prefix_of(prefix, #[trigger] entries[j]) {
            let j = choose|j: int|
                0 <= j < entries.len() && crate::strutil::is_prefix_of(
                    prefix,
                    #[trigger] entries[j],
                );
            assert(entries[j] == name);
        }
    }

    let root0 = crate::tree::m_node_default();
    assert(!crate::tree::m_has(root0.kids, parent_name));
    let parent0 = crate::tree::m_child_or_default(root0, parent_name);
    assert(parent0 == crate::tree::m_node_default());
    assert(!crate::tree::m_has(parent0.kids, item_name));
    let item0 = crate::tree::m_child_or_default(parent0, item_name);
    assert(item0 == crate::tree::m_node_default());
    let item1 = crate::tree::TreeModel { is_file: true, ..item0 };
    let parent1 = crate::tree::m_upsert(parent0, item_name, item1);
    let root1 = crate::tree::m_upsert(root0, parent_name, parent1);
    assert(crate::tree::m_process_mapping(root0, entries, tok, path) == root1);

    let tree = crate::tree::build_tree_model(entries, pm);
    assert(pm.drop_first() =~= Seq::<(Seq<char>, Seq<char>)>::empty());
    assert(pm[0] == (tok, path));
    assert(crate::tree::m_build(root1, entries, pm.drop_first()) == root1);
    assert(crate::tree::m_build(root0, entries, pm) == crate::tree::m_build(
        crate::tree::m_process_mapping(root0, entries, tok, path),
        entries,
        pm.drop_first(),
    ));
    assert(tree == root1);
    assert(parent1.kids =~= seq![(item_name, item1)]);
    assert(root1.kids =~= seq![(parent_name, parent1)]);

    let checked = crate::tree::m_set_checked(tree, true);
    let item2 = crate::tree::m_set_checked(item1, true);
    let parent2 = crate::tree::m_set_checked(parent1, true);
    assert(item2.kids =~= Seq::<(Seq<char>, crate::tree::TreeModel)>::empty());
    assert(item2.is_file && item2.checked);
    assert(parent2.kids =~= seq![(item_name, item2)]) by {
        assert(parent1.kids.drop_first() =~= Seq::<(Seq<char>, crate::tree::TreeModel)>::empty());
    }
    assert(checked.kids =~= seq![(parent_name, parent2)]) by {
        assert(root1.kids.drop_first() =~= Seq::<(Seq<char>, crate::tree::TreeModel)>::empty());
    }
    assert(!parent2.is_file);

    let stack0 = Seq::<Seq<char>>::empty();
    let with1 = stack0.push(parent_name);
    let with2 = with1.push(item_name);
    assert(crate::tree::join_slash(with2) == parent_name + seq!['/'] + item_name) by {
        assert(with2.drop_last() =~= with1);
        assert(with1.drop_last() =~= stack0);
        assert(with2.len() == 2 && with1.len() == 1);
        assert(crate::tree::join_slash(with1) == parent_name);
    }
    assert(crate::tree::m_collect_kids(item2.kids, with2) =~= Seq::<Seq<char>>::empty());
    assert(crate::tree::m_collect_kids(parent2.kids, with1) =~= seq![
        parent_name + seq!['/'] + item_name,
    ]) by {
        assert(parent2.kids.drop_first() =~= Seq::<(Seq<char>, crate::tree::TreeModel)>::empty());
        assert(parent2.kids[0] == (item_name, item2));
        assert(with1.push(parent2.kids[0].0) == with2);
        assert(crate::tree::m_collect_kids(item2.kids, with2) =~= Seq::<Seq<char>>::empty());
        assert(crate::tree::m_collect_kids(parent2.kids.drop_first(), with1) =~= Seq::<
            Seq<char>,
        >::empty());
    }
    assert(crate::tree::m_collect_kids(checked.kids, stack0) =~= seq![
        parent_name + seq!['/'] + item_name,
    ]) by {
        assert(checked.kids.drop_first() =~= Seq::<(Seq<char>, crate::tree::TreeModel)>::empty());
        assert(checked.kids[0] == (parent_name, parent2));
        assert(!parent2.is_file);
        assert(stack0.push(checked.kids[0].0) == with1);
        assert(crate::tree::m_collect_kids(checked.kids.drop_first(), stack0) =~= Seq::<
            Seq<char>,
        >::empty());
    }
}


proof fn lemma_canon_concat(a: Seq<char>, b: Seq<char>)
    ensures
        crate::codec::canon_spec(a + b) == crate::codec::canon_spec(a)
            + crate::codec::canon_spec(b),
{
    assert(crate::codec::canon_spec(a + b) =~= crate::codec::canon_spec(a)
        + crate::codec::canon_spec(b));
}

proof fn lemma_canon_fixed(s: Seq<char>)
    requires
        forall|k: int| 0 <= k < s.len() ==> s[k] != '\\',
    ensures
        crate::codec::canon_spec(s) == s,
{
    assert(crate::codec::canon_spec(s) =~= s);
}

proof fn lemma_canon_idempotent(s: Seq<char>)
    ensures
        crate::codec::canon_spec(crate::codec::canon_spec(s)) == crate::codec::canon_spec(s),
{
    assert(crate::codec::canon_spec(crate::codec::canon_spec(s)) =~= crate::codec::canon_spec(
        s,
    ));
}

/// Selective-extraction correctness for a folder item: selecting one
/// path beneath a backed-up item puts exactly one entry name in the
/// extraction set — the item's token joined with the canonicalized
/// remainder — and nothing else, so no sibling entry is extracted.
#[verifier::rlimit(100)]
pub proof fn lemma_selective_extraction(
    tok: Seq<char>,
    path: Seq<char>,
    rest: Seq<char>,
    name: Seq<char>,
)
    requires
        is_token(tok),
        rest.len() > 0,
        forall|k: int|
            0 <= k < base_name_spec(path).len() ==> (#[trigger] base_name_spec(path)[k]) != '\\',
    ensures
        crate::restore::in_extract(
            seq![(tok, path)],
            seq![crate::restore::base_of(path) + seq!['/'] + rest],
            name,
        ) <==> name == tok + seq!['/'] + crate::codec::canon_spec(rest),
{
    let base = crate::restore::base_of(path);
    let sel = base + seq!['/'] + rest;
    let sv = seq![sel];
    let pm = seq![(tok, path)];
    let cr = crate::codec::canon_spec(rest);

    // the selection canonicalizes to the base, a slash, and the
    // canonicalized remainder
    assert(crate::codec::canon_spec(base) == base) by {
        let p = crate::codec::canon_spec(crate::codec::parent_label_spec(path));
        lemma_canon_concat(p + seq!['/'], base_name_spec(path));
        lemma_canon_concat(p, seq!['/']);
        lemma_canon_idempotent(crate::codec::parent_label_spec(path));
        lemma_canon_fixed(seq!['/']);
        lemma_canon_fixed(base_name_spec(path));
        assert(base == (p + seq!['/']) + base_name_spec(path));
    }
    assert(crate::codec::canon_spec(sel) == base + seq!['/'] + cr) by {
        lemma_canon_concat(base + seq!['/'], rest);
        lemma_canon_concat(base, seq!['/']);
        lemma_canon_fixed(seq!['/']);
        assert(sel == (base + seq!['/']) + rest);
    }
    assert(crate::restore::sel_canon(sv) =~= seq![base + seq!['/'] + cr]);

    // the whole item is never an exact match of this selection
    assert(!crate::restore::seq_has(crate::restore::sel_canon(sv), base)) by {
        if crate::restore::seq_has(crate::restore::sel_canon(sv), base) {
            let w = choose|i: int|
                0 <= i < crate::restore::sel_canon(sv).len() && crate::restore::sel_canon(
                    sv,
                )[i] == base;
            assert(crate::restore::sel_canon(sv)[w].len() == base.len() + 1 + cr.len());
        }
    }

    // the selection lies beneath the item, contributing exactly one
    // token-prefixed name
    assert(crate::strutil::is_prefix_of(base.push('/'), crate::codec::canon_spec(sel))) by {
        assert(crate::codec::canon_spec(sel).subrange(0, base.len() as int + 1) =~= base.push(
            '/',
        ));
    }
    assert(crate::codec::canon_spec(sel).subrange(
        base.len() as int + 1,
        crate::codec::canon_spec(sel).len() as int,
    ) =~= cr);

    if name == tok + seq!['/'] + cr {
        assert(crate::restore::in_extract_for(tok, path, sv, name)) by {
            assert(0 <= 0 < sv.len() && crate::strutil::is_prefix_of(base.push('/'), canon_of(
                sv[0],
            )) && name == tok + seq!['/'] + canon_of(sv[0]).subrange(
                base.len() as int + 1,
                canon_of(sv[0]).len() as int,
            ));
        }
        assert(crate::restore::in_extract(pm, sv, name)) by {
            assert(0 <= 0 < pm.len() && crate::restore::in_extract_for(pm[0].0, pm[0].1, sv,
            name));
        }
    }
    if crate::restore::in_extract(pm, sv, name) {
        let j = choose|j: int|
            0 <= j < pm.len() && crate::restore::in_extract_for(
                (#[trigger] pm[j]).0,
                pm[j].1,
                sv,
                name,
            );
        assert(j == 0);
        assert(crate::restore::in_extract_for(tok, path, sv, name));
        if !(name == tok + seq!['/'] + cr) {
            let h = choose|h: int|
                0 <= h < sv.len() && crate::strutil::is_prefix_of(base.push('/'), canon_of(
                    #[trigger] sv[h],
                )) && name == tok + seq!['/'] + canon_of(sv[h]).subrange(
                    base.len() as int + 1,
                    canon_of(sv[h]).len() as int,
                );
            assert(h == 0);
            assert(false);
        }
    }
}

/// The canonicalized form of one selection string.
pub open spec fn canon_of(s: Seq<char>) -> Seq<char> {
    crate::codec::canon_spec(s)
}


/// Joined human path of one fingerprint mapping.
pub open spec fn mapping_path(path: Seq<char>) -> Seq<char> {
    crate::codec::parent_label_spec(path) + seq!['/'] + base_name_spec(path)
}

/// Checking a tree whose root gained one more child checks the
/// original children and the new one.
proof fn lemma_set_checked_push(
    kids: Seq<(Seq<char>, crate::tree::TreeModel)>,
    x: (Seq<char>, crate::tree::TreeModel),
    val: bool,
)
    ensures
        crate::tree::m_set_checked_kids(kids.push(x), val) == crate::tree::m_set_checked_kids(
            kids,
            val,
        ).push((x.0, crate::tree::m_set_checked(x.1, val))),
{
    crate::tree::lemma_set_checked_kids_pub(kids.push(x), val);
    crate::tree::lemma_set_checked_kids_pub(kids, val);
    assert(crate::tree::m_set_checked_kids(kids.push(x), val) =~= crate::tree::m_set_checked_kids(
        kids,
        val,
    ).push((x.0, crate::tree::m_set_checked(x.1, val))));
}

/// Folding any run of lone-file mappings with pairwise distinct, fresh
/// parent labels onto a tree appends, per mapping, exactly one checked
/// leaf at the mapping's parent label and item name.
#[verifier::rlimit(100)]
proof fn lemma_lone_fold(
    t: crate::tree::TreeModel,
    entries: Seq<Seq<char>>,
    pm: Seq<(Seq<char>, Seq<char>)>,
)
    requires
        forall|j: int, k: int|
            0 <= j < entries.len() && 0 <= k < entries[j].len() ==> (#[trigger] entries[j][k])
                != '/',
        forall|j: int|
            0 <= j < pm.len() ==> !crate::tree::m_has(
                t.kids,
                crate::codec::parent_label_spec((#[trigger] pm[j]).1),
            ),
        forall|i: int, j: int|
            0 <= i < j < pm.len() ==> crate::codec::parent_label_spec(pm[i].1)
                != crate::codec::parent_label_spec(pm[j].1),
    ensures
        crate::tree::m_collect_kids(
            crate::tree::m_set_checked(crate::tree::m_build(t, entries, pm), true).kids,
            Seq::empty(),
        ) == crate::tree::m_collect_kids(
            crate::tree::m_set_checked(t, true).kids,
            Seq::empty(),
        ) + Seq::new(pm.len(), |j: int| mapping_path(pm[j].1)),
        forall|name: Seq<char>|
            crate::tree::m_has(crate::tree::m_build(t, entries, pm).kids, name)
                <==> crate::tree::m_has(t.kids, name) || (exists|j: int|
                0 <= j < pm.len() && name == crate::codec::parent_label_spec(
                    (#[trigger] pm[j]).1,
                )),
    decreases pm.len(),
{
    if pm.len() == 0 {
        assert(crate::tree::m_collect_kids(
            crate::tree::m_set_checked(crate::tree::m_build(t, entries, pm), true).kids,
            Seq::empty(),
        ) =~= crate::tree::m_collect_kids(
            crate::tree::m_set_checked(t, true).kids,
            Seq::empty(),
        ) + Seq::new(pm.len(), |j: int| mapping_path(pm[j].1)));
    } else {
        let tok0 = pm[0].0;
        let path0 = pm[0].1;
        let p0 = crate::codec::parent_label_spec(path0);
        let i0 = base_name_spec(path0);
        let prefix = tok0.push('/');

        // no slash-free entry carries the token-slash prefix
        assert(!(exists|j: int|
            0 <= j < entries.len() && crate::strutil::is_prefix_of(
                prefix,
                #[trigger] entries[j],
            ))) by {
            if exists|j: int|
                0 <= j < entries.len() && crate::strutil::is_prefix_of(
                    prefix,
                    #[trigger] entries[j],
                ) {
                let j = choose|j: int|
                    0 <= j < entries.len() && crate::strutil::is_prefix_of(
                        prefix,
                        #[trigger] entries[j],
                    );
                assert(entries[j].subrange(0, prefix.len() as int) == prefix);
                let pl = prefix.len() as int;
                assert(entries[j].subrange(0, pl)[pl - 1] == entries[j][pl - 1]);
                assert(prefix[pl - 1] == '/');
            }
        }

        // one mapping appends one fresh parent with one file leaf
        let parent0 = crate::tree::m_child_or_default(t, p0);
        assert(parent0 == crate::tree::m_node_default());
        let item0 = crate::tree::m_child_or_default(parent0, i0);
        assert(item0 == crate::tree::m_node_default());
        let leaf = crate::tree::TreeModel { is_file: true, ..item0 };
        let pnode = crate::tree::m_upsert(parent0, i0, leaf);
        assert(pnode.kids =~= seq![(i0, leaf)]);
        assert(!pnode.is_file);
        let t1 = crate::tree::m_upsert(t, p0, pnode);
        assert(crate::tree::m_process_mapping(t, entries, tok0, path0) == t1);
        assert(t1.kids == t.kids.push((p0, pnode)));

        // the remaining parents stay fresh in the grown tree
        assert forall|j: int| 0 <= j < pm.drop_first().len() implies !crate::tree::m_has(
            t1.kids,
            crate::codec::parent_label_spec((#[trigger] pm.drop_first()[j]).1),
        ) by {
            assert(pm.drop_first()[j] == pm[j + 1]);
            let pj = crate::codec::parent_label_spec(pm[j + 1].1);
            assert(pj != p0);
            assert(!crate::tree::m_has(t.kids, pj));
            if crate::tree::m_has(t1.kids, pj) {
                let w = choose|w: int| 0 <= w < t1.kids.len() && t1.kids[w].0 == pj;
                if w < t.kids.len() {
                    assert(t.kids[w].0 == pj);
                }
            }
        }
        assert(forall|i: int, j: int|
            0 <= i < j < pm.drop_first().len()
                ==> crate::codec::parent_label_spec(pm.drop_first()[i].1)
                != crate::codec::parent_label_spec(pm.drop_first()[j].1)) by {
            assert(forall|i: int|
                0 <= i < pm.drop_first().len() ==> pm.drop_first()[i] == pm[i + 1]);
        }
        lemma_lone_fold(t1, entries, pm.drop_first());

        // collecting the checked grown tree appends the new leaf path
        let ck = crate::tree::m_set_checked(t, true);
        let ck1 = crate::tree::m_set_checked(t1, true);
        let pnode_c = crate::tree::m_set_checked(pnode, true);
        lemma_set_checked_push(t.kids, (p0, pnode), true);
        assert(ck1.kids == ck.kids.push((p0, pnode_c)));
        let leaf_c = crate::tree::m_set_checked(leaf, true);
        assert(pnode_c.kids =~= seq![(i0, leaf_c)]) by {
            assert(pnode.kids.drop_first() =~= Seq::<
                (Seq<char>, crate::tree::TreeModel),
            >::empty());
        }
        assert(leaf_c.is_file && leaf_c.checked);
        assert(leaf_c.kids =~= Seq::<(Seq<char>, crate::tree::TreeModel)>::empty());
        assert(!pnode_c.is_file);

        let stack0 = Seq::<Seq<char>>::empty();
        let with1 = stack0.push(p0);
        let with2 = with1.push(i0);
        assert(crate::tree::join_slash(with2) == mapping_path(path0)) by {
            assert(with2.drop_last() =~= with1);
            assert(with1.drop_last() =~= stack0);
            assert(with2.len() == 2 && with1.len() == 1);
            assert(crate::tree::join_slash(with1) == p0);
        }
        assert(crate::tree::m_collect_kids(pnode_c.kids, with1) =~= seq![mapping_path(path0)])
            by {
            assert(pnode_c.kids.drop_first() =~= Seq::<
                (Seq<char>, crate::tree::TreeModel),
            >::empty());
            assert(pnode_c.kids[0] == (i0, leaf_c));
            assert(with1.push(pnode_c.kids[0].0) == with2);
            assert(crate::tree::m_collect_kids(leaf_c.kids, with2) =~= Seq::<Seq<char>>::empty());
            assert(crate::tree::m_collect_kids(pnode_c.kids.drop_first(), with1) =~= Seq::<
                Seq<char>,
            >::empty());
        }
        crate::tree::lemma_collect_snoc(ck1.kids, stack0, ck1.kids.len() - 1);
        assert(ck1.kids.subrange(0, ck1.kids.len() - 1) =~= ck.kids);
        assert(ck1.kids.subrange(0, ck1.kids.len() as int) =~= ck1.kids);
        assert(ck1.kids[ck1.kids.len() - 1] == (p0, pnode_c));
        assert(crate::tree::m_collect_kids(ck1.kids, stack0) =~= crate::tree::m_collect_kids(
            ck.kids,
            stack0,
        ) + seq![mapping_path(path0)]);

        // stitch the step and the tail together
        assert(crate::tree::m_build(t, entries, pm) == crate::tree::m_build(
            t1,
            entries,
            pm.drop_first(),
        ));
        assert(crate::tree::m_collect_kids(
            crate::tree::m_set_checked(crate::tree::m_build(t, entries, pm), true).kids,
            Seq::empty(),
        ) =~= crate::tree::m_collect_kids(ck.kids, Seq::empty()) + Seq::new(
            pm.len(),
            |j: int| mapping_path(pm[j].1),
        )) by {
            assert(Seq::new(pm.drop_first().len(), |j: int| mapping_path(pm.drop_first()[j].1))
                =~= Seq::new(pm.len(), |j: int| mapping_path(pm[j].1)).drop_first());
            assert(seq![mapping_path(path0)] + Seq::new(
                pm.len(),
                |j: int| mapping_path(pm[j].1),
            ).drop_first() =~= Seq::new(pm.len(), |j: int| mapping_path(pm[j].1)));
        }

        // name membership in the grown tree
        assert forall|name: Seq<char>|
            crate::tree::m_has(crate::tree::m_build(t, entries, pm).kids, name) <==> crate::tree::m_has(
                t.kids,
                name,
            ) || (exists|j: int|
                0 <= j < pm.len() && name == crate::codec::parent_label_spec(
                    (#[trigger] pm[j]).1,
                )) by {
            if crate::tree::m_has(t1.kids, name) {
                let w = choose|w: int| 0 <= w < t1.kids.len() && t1.kids[w].0 == name;
                if w < t.kids.len() {
                    assert(t.kids[w].0 == name);
                } else {
                    assert(name == p0);
                    assert(name == crate::codec::parent_label_spec(pm[0].1));
                }
            }
            if crate::tree::m_has(t.kids, name) {
                let w = choose|w: int| 0 <= w < t.kids.len() && t.kids[w].0 == name;
                assert(t1.kids[w].0 == name);
            }
            if name == p0 {
                assert(t1.kids[t1.kids.len() - 1].0 == name);
            }
            assert(forall|j: int|
                0 <= j < pm.drop_first().len() ==> (#[trigger] pm.drop_first()[j]) == pm[j + 1]);
            if exists|j: int|
                0 <= j < pm.len() && name == crate::codec::parent_label_spec(
                    (#[trigger] pm[j]).1,
                ) {
                let j = choose|j: int|
                    0 <= j < pm.len() && name == crate::codec::parent_label_spec(
                        (#[trigger] pm[j]).1,
                    );
                if j > 0 {
                    assert(pm.drop_first()[j - 1] == pm[j]);
                }
            }
        }
    }
}

/// Round-trip property for any run of lone-file backups whose parent
/// labels differ pairwise: rebuilding the tree from the entry names
/// and fingerprint mappings such a backup writes, then selecting
/// everything, yields exactly the original paths as checked leaves, in
/// backup order.
pub proof fn lemma_round_trip_lone_files(pm: Seq<(Seq<char>, Seq<char>)>)
    requires
        forall|j: int| 0 <= j < pm.len() ==> is_token((#[trigger] pm[j]).0),
        forall|i: int, j: int|
            0 <= i < j < pm.len() ==> crate::codec::parent_label_spec(pm[i].1)
                != crate::codec::parent_label_spec(pm[j].1),
    ensures
        ({
            let entries = Seq::new(pm.len(), |j: int| lone_entry_name(pm[j].0, pm[j].1));
            let tree = crate::tree::build_tree_model(entries, pm);
            crate::tree::m_collect_kids(
                crate::tree::m_set_checked(tree, true).kids,
                Seq::empty(),
            ) == Seq::new(pm.len(), |j: int| mapping_path(pm[j].1))
        }),
{
    let entries = Seq::new(pm.len(), |j: int| lone_entry_name(pm[j].0, pm[j].1));
    assert forall|j: int, k: int|
        0 <= j < entries.len() && 0 <= k < entries[j].len() implies (#[trigger] entries[j][k])
        != '/' by {
        let tok = pm[j].0;
        let path = pm[j].1;
        crate::codec::lemma_basename_chars(path);
        assert(entries[j] == lone_entry_name(tok, path));
        match extension_spec(path) {
            None => {
                assert(entries[j][k] == tok[k]);
                assert(is_token_char(tok[k]));
            },
            Some(e) => {
                let bn = base_name_spec(path);
                let d = last_dot(bn);
                crate::codec::lemma_last_dot_pub(bn);
                assert(entries[j] == tok + seq!['.'] + e);
                if k < 36 {
                    assert(entries[j][k] == tok[k]);
                    assert(is_token_char(tok[k]));
                } else if k == 36 {
                    assert(entries[j][k] == '.');
                } else {
                    assert(entries[j][k] == bn[d + 1 + (k - 37)]);
                    assert(!is_sep(bn[d + 1 + (k - 37)]));
                }
            },
        }
    }
    let t0 = crate::tree::m_node_default();
    assert(forall|j: int|
        0 <= j < pm.len() ==> !crate::tree::m_has(
            t0.kids,
            crate::codec::parent_label_spec((#[trigger] pm[j]).1),
        ));
    lemma_lone_fold(t0, entries, pm);
    assert(crate::tree::m_set_checked(t0, true).kids =~= Seq::<
        (Seq<char>, crate::tree::TreeModel),
    >::empty());
    assert(crate::tree::m_collect_kids(
        crate::tree::m_set_checked(t0, true).kids,
        Seq::empty(),
    ) =~= Seq::<Seq<char>>::empty());
    assert(crate::tree::m_collect_kids(
        crate::tree::m_set_checked(crate::tree::build_tree_model(entries, pm), true).kids,
        Seq::empty(),
    ) =~= Seq::new(pm.len(), |j: int| mapping_path(pm[j].1)));
}


/// A checked file leaf with no children.
pub open spec fn m_file_leaf() -> crate::tree::TreeModel {
    crate::tree::TreeModel { kids: Seq::empty(), checked: false, is_file: true }
}

/// Collecting over children that are all checked file leaves yields
/// one joined path per child, in order.
proof fn lemma_collect_leaves(kids: Seq<(Seq<char>, crate::tree::TreeModel)>, stack: Seq<Seq<char>>)
    requires
        forall|j: int|
            0 <= j < kids.len() ==> (#[trigger] kids[j]).1.is_file && kids[j].1.checked
                && kids[j].1.kids.len() == 0,
    ensures
        crate::tree::m_collect_kids(kids, stack) == Seq::new(
            kids.len(),
            |j: int| crate::tree::join_slash(stack.push(kids[j].0)),
        ),
    decreases kids.len(),
{
    if kids.len() == 0 {
        assert(crate::tree::m_collect_kids(kids, stack) =~= Seq::new(
            kids.len(),
            |j: int| crate::tree::join_slash(stack.push(kids[j].0)),
        ));
    } else {
        lemma_collect_leaves(kids.drop_first(), stack);
        assert(kids[0].1.kids =~= Seq::<(Seq<char>, crate::tree::TreeModel)>::empty());
        assert(crate::tree::m_collect_kids(kids[0].1.kids, stack.push(kids[0].0)) =~= Seq::<
            Seq<char>,
        >::empty());
        assert(forall|j: int|
            0 <= j < kids.drop_first().len() ==> (#[trigger] kids.drop_first()[j]) == kids[j
                + 1]);
        assert(crate::tree::m_collect_kids(kids, stack) =~= Seq::new(
            kids.len(),
            |j: int| crate::tree::join_slash(stack.push(kids[j].0)),
        ));
    }
}

/// Applying one member entry per relative name beneath an item node
/// appends one file leaf per name, in order.
#[verifier::rlimit(100)]
proof fn lemma_apply_members(
    item: crate::tree::TreeModel,
    tok: Seq<char>,
    rels: Seq<Seq<char>>,
)
    requires
        forall|j: int| 0 <= j < rels.len() ==> (#[trigger] rels[j]).len() > 0,
        forall|j: int, k: int|
            0 <= j < rels.len() && 0 <= k < rels[j].len() ==> (#[trigger] rels[j][k]) != '/',
        forall|i: int, j: int| 0 <= i < j < rels.len() ==> rels[i] != rels[j],
        forall|j: int| 0 <= j < rels.len() ==> !crate::tree::m_has(item.kids, #[trigger] rels[j]),
    ensures
        ({
            let es = Seq::new(
                rels.len(),
                |j: int| crate::backup::member_entry_name(tok, rels[j]),
            );
            let r = crate::tree::m_apply_entries(item, es, tok.push('/'));
            &&& r.kids == item.kids + Seq::new(rels.len(), |j: int| (rels[j], m_file_leaf()))
            &&& r.checked == item.checked
            &&& r.is_file == item.is_file
        }),
    decreases rels.len(),
{
    let prefix = tok.push('/');
    let es = Seq::new(rels.len(), |j: int| crate::backup::member_entry_name(tok, rels[j]));
    if rels.len() == 0 {
        assert(item.kids + Seq::new(rels.len(), |j: int| (rels[j], m_file_leaf())) =~= item.kids);
        assert(es.len() == 0);
        assert(crate::tree::m_apply_entries(item, es, prefix) == item);
    } else {
        let r0 = rels[0];
        let e0 = crate::backup::member_entry_name(tok, r0);
        assert(es[0] == e0);
        assert(crate::strutil::is_prefix_of(prefix, e0)) by {
            assert(e0.subrange(0, prefix.len() as int) =~= prefix);
        }
        assert(e0.subrange(prefix.len() as int, e0.len() as int) =~= r0);
        assert(r0[r0.len() - 1] != '/');
        assert(crate::tree::strip_trailing_slashes(r0) == r0);
        crate::strutil::lemma_split_no_sep(r0, '/');
        let segs = seq![r0];
        assert(segs.drop_first() =~= Seq::<Seq<char>>::empty());
        assert(!crate::tree::m_has(item.kids, r0));
        assert(crate::tree::m_child_or_default(item, r0) == crate::tree::m_node_default());
        assert(crate::tree::m_descend(crate::tree::m_node_default(), segs.drop_first())
            == m_file_leaf());
        let item1 = crate::tree::m_upsert(item, r0, m_file_leaf());
        assert(crate::tree::m_descend(item, segs) == item1);
        assert(crate::tree::m_apply_entry(item, e0, prefix) == item1);
        assert(item1.kids == item.kids.push((r0, m_file_leaf())));

        let tail = rels.drop_first();
        assert forall|j: int| 0 <= j < tail.len() implies !crate::tree::m_has(
            item1.kids,
            #[trigger] tail[j],
        ) by {
            assert(tail[j] == rels[j + 1]);
            assert(rels[j + 1] != r0);
            assert(!crate::tree::m_has(item.kids, rels[j + 1]));
            if crate::tree::m_has(item1.kids, tail[j]) {
                let w = choose|w: int| 0 <= w < item1.kids.len() && item1.kids[w].0 == tail[j];
                if w < item.kids.len() {
                    assert(item.kids[w].0 == tail[j]);
                }
            }
        }
        assert(forall|j: int| 0 <= j < tail.len() ==> (#[trigger] tail[j]) == rels[j + 1]);
        lemma_apply_members(item1, tok, tail);
        assert(es.drop_first() =~= Seq::new(
            tail.len(),
            |j: int| crate::backup::member_entry_name(tok, tail[j]),
        ));
        let r = crate::tree::m_apply_entries(item, es, prefix);
        assert(r == crate::tree::m_apply_entries(item1, es.drop_first(), prefix));
        assert(r.kids =~= item.kids + Seq::new(rels.len(), |j: int| (rels[j], m_file_leaf())))
            by {
            assert(r.kids == item1.kids + Seq::new(tail.len(), |j: int| (tail[j], m_file_leaf())));
        }
    }
}

/// Round-trip property for a folder backup of single-level members:
/// rebuilding the tree from the entries such a backup writes (the
/// folder-root placeholder, then one member entry per relative name)
/// and its one fingerprint mapping, then selecting everything, yields
/// exactly the members' human paths as checked leaves, in order, while
/// the folder node itself is no file leaf.
#[verifier::rlimit(100)]
pub proof fn lemma_round_trip_folder(tok: Seq<char>, path: Seq<char>, rels: Seq<Seq<char>>)
    requires
        is_token(tok),
        forall|j: int| 0 <= j < rels.len() ==> (#[trigger] rels[j]).len() > 0,
        forall|j: int, k: int|
            0 <= j < rels.len() && 0 <= k < rels[j].len() ==> (#[trigger] rels[j][k]) != '/',
        forall|i: int, j: int| 0 <= i < j < rels.len() ==> rels[i] != rels[j],
    ensures
        ({
            let entries = seq![crate::backup::member_entry_name(tok, Seq::<char>::empty())]
                + Seq::new(rels.len(), |j: int| crate::backup::member_entry_name(tok, rels[j]));
            let tree = crate::tree::build_tree_model(entries, seq![(tok, path)]);
            crate::tree::m_collect_kids(
                crate::tree::m_set_checked(tree, true).kids,
                Seq::empty(),
            ) == Seq::new(rels.len(), |j: int| mapping_path(path) + seq!['/'] + rels[j])
        }),
{
    let prefix = tok.push('/');
    let e_root = crate::backup::member_entry_name(tok, Seq::<char>::empty());
    let member_es = Seq::new(rels.len(), |j: int| crate::backup::member_entry_name(tok, rels[j]));
    let entries = seq![e_root] + member_es;
    let pm = seq![(tok, path)];
    let parent_name = crate::codec::parent_label_spec(path);
    let item_name = base_name_spec(path);

    assert(e_root =~= prefix);
    assert(crate::strutil::is_prefix_of(prefix, e_root)) by {
        assert(e_root.subrange(0, prefix.len() as int) =~= prefix);
    }
    assert(exists|j: int|
        0 <= j < entries.len() && crate::strutil::is_prefix_of(prefix, #[trigger] entries[j]))
        by {
        assert(entries[0] == e_root);
        assert(crate::strutil::is_prefix_of(prefix, entries[0]));
    }

    let root0 = crate::tree::m_node_default();
    let parent0 = crate::tree::m_child_or_default(root0, parent_name);
    assert(parent0 == root0);
    let item0 = crate::tree::m_child_or_default(parent0, item_name);
    assert(item0 == root0);
    let item_open = crate::tree::TreeModel { is_file: false, ..item0 };

    // the placeholder contributes nothing, the members one leaf each
    assert(e_root.subrange(prefix.len() as int, e_root.len() as int) =~= Seq::<char>::empty());
    assert(crate::tree::strip_trailing_slashes(Seq::<char>::empty()) =~= Seq::<char>::empty());
    assert(crate::tree::m_apply_entry(item_open, e_root, prefix) == item_open);
    assert(entries.drop_first() =~= member_es);
    assert(forall|j: int|
        0 <= j < rels.len() ==> !crate::tree::m_has(item_open.kids, #[trigger] rels[j]));
    lemma_apply_members(item_open, tok, rels);
    let item1 = crate::tree::m_apply_entries(item_open, member_es, prefix);
    assert(crate::tree::m_apply_entries(item_open, entries, prefix) == item1);
    assert(item1.kids =~= Seq::new(rels.len(), |j: int| (rels[j], m_file_leaf())));
    assert(!item1.is_file);

    let parent1 = crate::tree::m_upsert(parent0, item_name, item1);
    let root1 = crate::tree::m_upsert(root0, parent_name, parent1);
    assert(crate::tree::m_process_mapping(root0, entries, tok, path) == root1);
    let tree = crate::tree::build_tree_model(entries, pm);
    assert(pm.drop_first() =~= Seq::<(Seq<char>, Seq<char>)>::empty());
    assert(pm[0] == (tok, path));
    assert(crate::tree::m_build(root1, entries, pm.drop_first()) == root1);
    assert(tree == root1);
    assert(parent1.kids =~= seq![(item_name, item1)]);
    assert(root1.kids =~= seq![(parent_name, parent1)]);

    // check everything and collect
    let checked = crate::tree::m_set_checked(tree, true);
    let item2 = crate::tree::m_set_checked(item1, true);
    let parent2 = crate::tree::m_set_checked(parent1, true);
    crate::tree::lemma_set_checked_kids_pub(item1.kids, true);
    assert(item2.kids.len() == rels.len());
    assert forall|j: int| 0 <= j < item2.kids.len() implies (#[trigger] item2.kids[j]).0
        == rels[j] && item2.kids[j].1.is_file && item2.kids[j].1.checked
        && item2.kids[j].1.kids.len() == 0 by {
        assert(item1.kids[j] == (rels[j], m_file_leaf()));
        assert(item2.kids[j] == (item1.kids[j].0, crate::tree::m_set_checked(
            item1.kids[j].1,
            true,
        )));
    }
    assert(!item2.is_file);
    assert(parent2.kids =~= seq![(item_name, item2)]) by {
        crate::tree::lemma_set_checked_kids_pub(parent1.kids, true);
        assert(parent2.kids[0] == (parent1.kids[0].0, crate::tree::m_set_checked(
            parent1.kids[0].1,
            true,
        )));
        assert(parent1.kids[0] == (item_name, item1));
    }
    assert(!parent2.is_file);
    assert(checked.kids =~= seq![(parent_name, parent2)]) by {
        crate::tree::lemma_set_checked_kids_pub(root1.kids, true);
        assert(checked.kids[0] == (root1.kids[0].0, crate::tree::m_set_checked(
            root1.kids[0].1,
            true,
        )));
        assert(root1.kids[0] == (parent_name, parent1));
    }

    let stack0 = Seq::<Seq<char>>::empty();
    let with1 = stack0.push(parent_name);
    let with2 = with1.push(item_name);
    lemma_collect_leaves(item2.kids, with2);
    assert forall|j: int| 0 <= j < rels.len() implies crate::tree::join_slash(with2.push(
        item2.kids[j].0,
    )) == mapping_path(path) + seq!['/'] + rels[j] by {
        let w3 = with2.push(rels[j]);
        assert(w3.drop_last() =~= with2);
        assert(with2.drop_last() =~= with1);
        assert(with1.drop_last() =~= stack0);
        assert(w3.len() == 3 && with2.len() == 2 && with1.len() == 1);
        assert(crate::tree::join_slash(with1) == parent_name);
        assert(crate::tree::join_slash(with2) == parent_name + seq!['/'] + item_name);
    }
    let full_paths = Seq::new(rels.len(), |j: int| mapping_path(path) + seq!['/'] + rels[j]);
    assert(crate::tree::m_collect_kids(item2.kids, with2) =~= full_paths);
    assert(crate::tree::m_collect_kids(parent2.kids, with1) =~= full_paths) by {
        assert(parent2.kids.drop_first() =~= Seq::<
            (Seq<char>, crate::tree::TreeModel),
        >::empty());
        assert(parent2.kids[0] == (item_name, item2));
        assert(with1.push(parent2.kids[0].0) == with2);
        assert(!item2.is_file);
        assert(crate::tree::m_collect_kids(parent2.kids.drop_first(), with1) =~= Seq::<
            Seq<char>,
        >::empty());
    }
    assert(crate::tree::m_collect_kids(checked.kids, stack0) =~= full_paths) by {
        assert(checked.kids.drop_first() =~= Seq::<(Seq<char>, crate::tree::TreeModel)>::empty());
        assert(checked.kids[0] == (parent_name, parent2));
        assert(stack0.push(checked.kids[0].0) == with1);
        assert(!parent2.is_file);
        assert(crate::tree::m_collect_kids(checked.kids.drop_first(), stack0) =~= Seq::<
            Seq<char>,
        >::empty());
    }
}


/// Unfolding a join at the front: the first segment, a slash, then the
/// join of the rest.
proof fn lemma_join_front(x: Seq<char>, t: Seq<Seq<char>>)
    requires
        t.len() >= 1,
    ensures
        crate::tree::join_slash(seq![x] + t) == x + seq!['/'] + crate::tree::join_slash(t),
    decreases t.len(),
{
    let whole = seq![x] + t;
    if t.len() == 1 {
        assert(whole.drop_last() =~= seq![x]);
        assert(whole.last() == t[0]);
        assert(crate::tree::join_slash(seq![x]) == x);
        assert(crate::tree::join_slash(t) == t[0]);
    } else {
        assert(whole.drop_last() =~= seq![x] + t.drop_last());
        lemma_join_front(x, t.drop_last());
        assert(whole.last() == t.last());
        assert(crate::tree::join_slash(whole) == (x + seq!['/'] + crate::tree::join_slash(
            t.drop_last(),
        )) + seq!['/'] + t.last());
        assert(crate::tree::join_slash(t) == crate::tree::join_slash(t.drop_last()) + seq!['/']
            + t.last());
        assert((x + seq!['/'] + crate::tree::join_slash(t.drop_last())) + seq!['/'] + t.last()
            =~= x + seq!['/'] + crate::tree::join_slash(t));
    }
}

/// Splitting a string at slashes and joining the fields with slashes
/// gives the string back.
pub proof fn lemma_join_split_identity(s: Seq<char>)
    ensures
        crate::tree::join_slash(crate::strutil::split_spec(s, '/')) == s,
    decreases s.len(),
{
    if exists|i: int| 0 <= i < s.len() && s[i] == '/' {
        let i = choose|i: int|
            0 <= i < s.len() && s[i] == '/' && forall|k: int| 0 <= k < i ==> s[k] != '/';
        assert(exists|i0: int|
            0 <= i0 < s.len() && s[i0] == '/' && forall|k: int| 0 <= k < i0 ==> s[k] != '/')
            by {
            let w = choose|w: int| 0 <= w < s.len() && s[w] == '/';
            lemma_first_pos_exists(s, '/');
        }
        crate::strutil::lemma_split_at(s, '/', i);
        let tail = s.subrange(i + 1, s.len() as int);
        lemma_join_split_identity(tail);
        crate::strutil::lemma_split_len(tail, '/');
        lemma_join_front(s.subrange(0, i), crate::strutil::split_spec(tail, '/'));
        assert(s.subrange(0, i) + seq!['/'] + tail =~= s);
    } else {
        crate::strutil::lemma_split_no_sep(s, '/');
    }
}

/// Some least occurrence exists whenever any occurrence does.
proof fn lemma_first_pos_exists(s: Seq<char>, c: char)
    requires
        exists|i: int| 0 <= i < s.len() && s[i] == c,
    ensures
        exists|i: int|
            0 <= i < s.len() && s[i] == c && forall|k: int| 0 <= k < i ==> s[k] != c,
    decreases s.len(),
{
    let w = choose|i: int| 0 <= i < s.len() && s[i] == c;
    if s[0] == c {
        assert(0 <= 0 < s.len() && s[0] == c && forall|k: int| 0 <= k < 0 ==> s[k] != c);
    } else {
        let t = s.subrange(1, s.len() as int);
        assert(t[w - 1] == c);
        lemma_first_pos_exists(t, c);
        let j = choose|i: int|
            0 <= i < t.len() && t[i] == c && forall|k: int| 0 <= k < i ==> t[k] != c;
        assert(s[j + 1] == t[j]);
        assert forall|k: int| 0 <= k < j + 1 implies s[k] != c by {
            if k > 0 {
                assert(t[k - 1] == s[k]);
                assert(t[k - 1] != c);
            }
        }
        assert(0 <= j + 1 < s.len() && s[j + 1] == c && forall|k: int|
            0 <= k < j + 1 ==> s[k] != c);
    }
}

/// The single-child chain a descent along `segs` builds beneath a
/// fresh node: one node per segment, the last marked as a file.
pub open spec fn chain_of(segs: Seq<Seq<char>>) -> crate::tree::TreeModel
    decreases segs.len(),
{
    if segs.len() == 0 {
        crate::tree::TreeModel { kids: Seq::empty(), checked: false, is_file: true }
    } else {
        crate::tree::TreeModel {
            kids: seq![(segs[0], chain_of(segs.drop_first()))],
            checked: false,
            is_file: false,
        }
    }
}

/// Descending along `segs` from a fresh node builds exactly the chain.
proof fn lemma_descend_chain(segs: Seq<Seq<char>>)
    ensures
        crate::tree::m_descend(crate::tree::m_node_default(), segs) == chain_of(segs),
    decreases segs.len(),
{
    if segs.len() == 0 {
        assert(crate::tree::m_descend(crate::tree::m_node_default(), segs) =~~= chain_of(segs));
    } else {
        lemma_descend_chain(segs.drop_first());
        let d = crate::tree::m_node_default();
        assert(!crate::tree::m_has(d.kids, segs[0]));
        assert(crate::tree::m_child_or_default(d, segs[0]) == d);
        assert(crate::tree::m_descend(d, segs) == crate::tree::m_upsert(d, segs[0], chain_of(
            segs.drop_first(),
        )));
        assert(crate::tree::m_descend(d, segs).kids =~= chain_of(segs).kids);
        assert(crate::tree::m_descend(d, segs) =~~= chain_of(segs));
    }
}

/// Collecting a fully checked chain yields the one path to its leaf.
proof fn lemma_collect_chain(segs: Seq<Seq<char>>, stack: Seq<Seq<char>>)
    requires
        segs.len() >= 1,
    ensures
        crate::tree::m_collect_kids(
            crate::tree::m_set_checked(chain_of(segs), true).kids,
            stack,
        ) == seq![crate::tree::join_slash(stack + segs)],
    decreases segs.len(),
{
    let c = chain_of(segs);
    let cc = crate::tree::m_set_checked(c, true);
    crate::tree::lemma_set_checked_kids_pub(c.kids, true);
    let child = crate::tree::m_set_checked(chain_of(segs.drop_first()), true);
    assert(cc.kids =~= seq![(segs[0], child)]);
    let with = stack.push(segs[0]);
    assert(cc.kids[0] == (segs[0], child));
    assert(cc.kids.drop_first() =~= Seq::<(Seq<char>, crate::tree::TreeModel)>::empty());
    assert(crate::tree::m_collect_kids(cc.kids.drop_first(), stack) =~= Seq::<Seq<char>>::empty());
    if segs.len() == 1 {
        assert(child.is_file && child.checked);
        assert(child.kids =~= Seq::<(Seq<char>, crate::tree::TreeModel)>::empty());
        assert(crate::tree::m_collect_kids(child.kids, with) =~= Seq::<Seq<char>>::empty());
        assert(with =~= stack + segs);
        assert(crate::tree::m_collect_kids(cc.kids, stack) =~= seq![
            crate::tree::join_slash(stack + segs),
        ]);
    } else {
        assert(!child.is_file);
        lemma_collect_chain(segs.drop_first(), with);
        assert(crate::tree::m_set_checked(chain_of(segs.drop_first()), true).kids == child.kids);
        assert(crate::tree::m_collect_kids(child.kids, with) == seq![
            crate::tree::join_slash(with + segs.drop_first()),
        ]);
        assert(with + segs.drop_first() =~= stack + segs);
        assert(crate::tree::m_collect_kids(cc.kids, stack) =~= seq![
            crate::tree::join_slash(stack + segs),
        ]);
    }
}

/// Round-trip property for one nested folder member: a member stored
/// at any depth beneath its token reconstructs as a chain of nodes,
/// and selecting everything yields exactly the member's full human
/// path — parent label, item name, and the relative path verbatim.
#[verifier::rlimit(100)]
pub proof fn lemma_round_trip_nested_member(tok: Seq<char>, path: Seq<char>, rel: Seq<char>)
    requires
        is_token(tok),
        rel.len() > 0,
        rel[rel.len() - 1] != '/',
    ensures
        ({
            let entries = seq![
                crate::backup::member_entry_name(tok, Seq::<char>::empty()),
                crate::backup::member_entry_name(tok, rel),
            ];
            let tree = crate::tree::build_tree_model(entries, seq![(tok, path)]);
            crate::tree::m_collect_kids(
                crate::tree::m_set_checked(tree, true).kids,
                Seq::empty(),
            ) == seq![mapping_path(path) + seq!['/'] + rel]
        }),
{
    let prefix = tok.push('/');
    let e_root = crate::backup::member_entry_name(tok, Seq::<char>::empty());
    let e1 = crate::backup::member_entry_name(tok, rel);
    let entries = seq![e_root, e1];
    let pm = seq![(tok, path)];
    let parent_name = crate::codec::parent_label_spec(path);
    let item_name = base_name_spec(path);

    assert(e_root =~= prefix);
    assert(crate::strutil::is_prefix_of(prefix, e_root)) by {
        assert(e_root.subrange(0, prefix.len() as int) =~= prefix);
    }
    assert(exists|j: int|
        0 <= j < entries.len() && crate::strutil::is_prefix_of(prefix, #[trigger] entries[j]))
        by {
        assert(crate::strutil::is_prefix_of(prefix, entries[0]));
    }

    let root0 = crate::tree::m_node_default();
    let parent0 = crate::tree::m_child_or_default(root0, parent_name);
    assert(parent0 == root0);
    let item0 = crate::tree::m_child_or_default(parent0, item_name);
    assert(item0 == root0);
    let item_open = crate::tree::TreeModel { is_file: false, ..item0 };

    assert(e_root.subrange(prefix.len() as int, e_root.len() as int) =~= Seq::<char>::empty());
    assert(crate::tree::strip_trailing_slashes(Seq::<char>::empty()) =~= Seq::<char>::empty());
    assert(crate::tree::m_apply_entry(item_open, e_root, prefix) == item_open);

    assert(crate::strutil::is_prefix_of(prefix, e1)) by {
        assert(e1.subrange(0, prefix.len() as int) =~= prefix);
    }
    assert(e1.subrange(prefix.len() as int, e1.len() as int) =~= rel);
    assert(crate::tree::strip_trailing_slashes(rel) == rel);
    let segs = crate::strutil::split_spec(rel, '/');
    crate::strutil::lemma_split_len(rel, '/');
    assert(item_open =~~= crate::tree::m_node_default());
    lemma_descend_chain(segs);
    let item1 = chain_of(segs);
    assert(crate::tree::m_apply_entry(item_open, e1, prefix) == item1);
    assert(entries.drop_first() =~= seq![e1]);
    assert(seq![e1].drop_first() =~= Seq::<Seq<char>>::empty());
    assert(crate::tree::m_apply_entries(item1, Seq::<Seq<char>>::empty(), prefix) == item1);
    assert(crate::tree::m_apply_entries(item_open, seq![e1], prefix) == item1);
    assert(crate::tree::m_apply_entries(item_open, entries, prefix) == item1);
    assert(!item1.is_file);

    let parent1 = crate::tree::m_upsert(parent0, item_name, item1);
    let root1 = crate::tree::m_upsert(root0, parent_name, parent1);
    assert(crate::tree::m_process_mapping(root0, entries, tok, path) == root1);
    let tree = crate::tree::build_tree_model(entries, pm);
    assert(pm.drop_first() =~= Seq::<(Seq<char>, Seq<char>)>::empty());
    assert(pm[0] == (tok, path));
    assert(crate::tree::m_build(root1, entries, pm.drop_first()) == root1);
    assert(tree == root1);
    assert(parent1.kids =~= seq![(item_name, item1)]);
    assert(root1.kids =~= seq![(parent_name, parent1)]);

    let checked = crate::tree::m_set_checked(tree, true);
    let item2 = crate::tree::m_set_checked(item1, true);
    let parent2 = crate::tree::m_set_checked(parent1, true);
    assert(parent2.kids =~= seq![(item_name, item2)]) by {
        crate::tree::lemma_set_checked_kids_pub(parent1.kids, true);
        assert(parent2.kids[0] == (parent1.kids[0].0, crate::tree::m_set_checked(
            parent1.kids[0].1,
            true,
        )));
        assert(parent1.kids[0] == (item_name, item1));
    }
    assert(!parent2.is_file);
    assert(checked.kids =~= seq![(parent_name, parent2)]) by {
        crate::tree::lemma_set_checked_kids_pub(root1.kids, true);
        assert(checked.kids[0] == (root1.kids[0].0, crate::tree::m_set_checked(
            root1.kids[0].1,
            true,
        )));
        assert(root1.kids[0] == (parent_name, parent1));
    }
    assert(!item2.is_file) by {
        assert(segs.len() >= 1);
    }

    let stack0 = Seq::<Seq<char>>::empty();
    let with1 = stack0.push(parent_name);
    let with2 = with1.push(item_name);
    lemma_collect_chain(segs, with2);
    lemma_join_split_identity(rel);
    assert(crate::tree::join_slash(with2 + segs) == mapping_path(path) + seq!['/'] + rel) by {
        lemma_join_front(item_name, segs);
        lemma_join_front(parent_name, seq![item_name] + segs);
        assert(with2 + segs =~= seq![parent_name] + (seq![item_name] + segs));
        assert(crate::tree::join_slash(seq![item_name] + segs) == item_name + seq!['/']
            + crate::tree::join_slash(segs));
        assert(mapping_path(path) + seq!['/'] + rel =~= parent_name + seq!['/'] + (item_name
            + seq!['/'] + crate::tree::join_slash(segs)));
    }
    assert(crate::tree::m_collect_kids(item2.kids, with2) == seq![
        mapping_path(path) + seq!['/'] + rel,
    ]) by {
        assert(item2.kids == crate::tree::m_set_checked(item1, true).kids);
    }
    let full = mapping_path(path) + seq!['/'] + rel;
    assert(crate::tree::m_collect_kids(parent2.kids, with1) =~= seq![full]) by {
        assert(parent2.kids.drop_first() =~= Seq::<
            (Seq<char>, crate::tree::TreeModel),
        >::empty());
        assert(parent2.kids[0] == (item_name, item2));
        assert(with1.push(parent2.kids[0].0) == with2);
        assert(!item2.is_file);
        assert(crate::tree::m_collect_kids(parent2.kids.drop_first(), with1) =~= Seq::<
            Seq<char>,
        >::empty());
    }
    assert(crate::tree::m_collect_kids(checked.kids, stack0) =~= seq![full]) by {
        assert(checked.kids.drop_first() =~= Seq::<(Seq<char>, crate::tree::TreeModel)>::empty());
        assert(checked.kids[0] == (parent_name, parent2));
        assert(stack0.push(checked.kids[0].0) == with1);
        assert(!parent2.is_file);
        assert(crate::tree::m_collect_kids(checked.kids.drop_first(), stack0) =~= Seq::<
            Seq<char>,
        >::empty());
    }
}

} // verus!
