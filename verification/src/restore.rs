//! Archive reader, selection resolver and restore executor.
//!
//! Reading is two passes over the container: the first finds and parses
//! the fingerprint, the second lists every other entry name. Restoring
//! validates the fingerprint against this build's marker, translates
//! the user's selection into the exact set of entry names to extract,
//! and turns each matching entry into a restore action whose
//! destination is the recorded original path adjusted to the current
//! account. Entries whose names match no known token are skipped, not
//! errors.

use vstd::prelude::*;

verus! {

use vstd::utf8::{valid_utf8, decode_utf8};
use crate::strutil::{chars_of, string_of, contains_seq, is_prefix_of, slice_chars, scan_for};
use crate::manifest::{
    parse_map_spec, parse_fingerprint_text, fingerprint_name, fingerprint_entry_name,
    distinct_keys, has_key, key_index, map_get, build_marker, marker_matches,
};
use crate::tarc::{tar_scan, tar_payload, tar_list, tar_entry_data};
use crate::codec::{
    adjust_spec, adjust_path_str, canon_spec, canon, parent_label_spec, base_name_spec,
    extension_spec, split_parent_name, file_extension,
};
use crate::progress::{Progress, pct_seq};

/// Relies on String::from_utf8: succeeds exactly on valid UTF-8 and
/// yields the characters those bytes encode.
#[verifier::external_body]
fn bytes_to_string(v: &Vec<u8>) -> (r: Result<String, String>)
    ensures
        (r is Ok) == valid_utf8(v@),
        r matches Ok(s) ==> s@ == decode_utf8(v@),
{
    match String::from_utf8(v.clone()) {
        Ok(s) => Ok(s),
        Err(e) => Err(e.to_string()),
    }
}

/// Whether a listing holds a fingerprint entry.
pub open spec fn has_fp(listing: Seq<(Seq<char>, bool, bool)>) -> bool {
    exists|i: int| 0 <= i < listing.len() && listing[i].0 == fingerprint_name()
}

/// Position of the first fingerprint entry of a listing, assuming one
/// exists.
pub open spec fn fp_pos(listing: Seq<(Seq<char>, bool, bool)>) -> int {
    choose|i: int|
        0 <= i < listing.len() && listing[i].0 == fingerprint_name() && forall|k: int|
            0 <= k < i ==> listing[k].0 != fingerprint_name()
}

proof fn lemma_fp_pos(listing: Seq<(Seq<char>, bool, bool)>)
    requires
        has_fp(listing),
    ensures
        0 <= fp_pos(listing) < listing.len(),
        listing[fp_pos(listing)].0 == fingerprint_name(),
        forall|k: int| 0 <= k < fp_pos(listing) ==> listing[k].0 != fingerprint_name(),
    decreases listing.len(),
{
    let w = choose|i: int| 0 <= i < listing.len() && listing[i].0 == fingerprint_name();
    if listing[0].0 == fingerprint_name() {
        assert(0 <= 0 < listing.len() && listing[0].0 == fingerprint_name() && forall|k: int|
            0 <= k < 0 ==> listing[k].0 != fingerprint_name());
    } else {
        let t = listing.drop_first();
        assert(t[w - 1] == listing[w]);
        lemma_fp_pos(t);
        let j = fp_pos(t);
        assert(listing[j + 1] == t[j]);
        assert(forall|k: int|
            1 <= k < j + 1 ==> listing[k] == t[k - 1] && listing[k].0 != fingerprint_name());
        assert(0 <= j + 1 < listing.len() && listing[j + 1].0 == fingerprint_name() && forall|
            k: int,
        | 0 <= k < j + 1 ==> listing[k].0 != fingerprint_name());
    }
}

/// Whether the fingerprint of an archive can be recovered: the listing
/// scans fully, and when a fingerprint entry exists its payload reads
/// back as valid text.
pub open spec fn fp_readable(bytes: Seq<u8>) -> bool {
    &&& tar_scan(bytes).0
    &&& (has_fp(tar_scan(bytes).1) ==> {
        &&& tar_payload(bytes, fp_pos(tar_scan(bytes).1)).0
        &&& valid_utf8(tar_payload(bytes, fp_pos(tar_scan(bytes).1)).1)
    })
}

/// The fingerprint text of an archive, as characters; empty when the
/// archive has no fingerprint entry.
pub open spec fn fp_text(bytes: Seq<u8>) -> Seq<char> {
    if has_fp(tar_scan(bytes).1) {
        decode_utf8(tar_payload(bytes, fp_pos(tar_scan(bytes).1)).1)
    } else {
        Seq::empty()
    }
}

/// The token table of an archive: the parsed fingerprint text, empty
/// when the archive has no fingerprint entry.
pub open spec fn fp_map(bytes: Seq<u8>) -> Seq<(Seq<char>, Seq<char>)> {
    if has_fp(tar_scan(bytes).1) {
        parse_map_spec(fp_text(bytes))
    } else {
        Seq::empty()
    }
}

/// The entry names of a listing other than the fingerprint's, in
/// order.
pub open spec fn non_fp_names(listing: Seq<(Seq<char>, bool, bool)>) -> Seq<Seq<char>>
    decreases listing.len(),
{
    if listing.len() == 0 {
        Seq::empty()
    } else {
        non_fp_names(listing.drop_last()) + (if listing.last().0 == fingerprint_name() {
            Seq::<Seq<char>>::empty()
        } else {
            seq![listing.last().0]
        })
    }
}

/// Finds the first fingerprint entry of a listing.
fn find_fp(listing: &Vec<(String, bool, bool)>) -> (r: Option<usize>)
    ensures
        match r {
            Some(i) => has_fp(listing.deep_view()) && i as int == fp_pos(listing.deep_view()),
            None => !has_fp(listing.deep_view()),
        },
{
    let ghost lv = listing.deep_view();
    let fpn = String::from_str(fingerprint_entry_name());
    let n: usize = listing.len();
    let mut i: usize = 0;
    while i < n
        invariant
            n == listing@.len(),
            lv == listing.deep_view(),
            fpn@ == fingerprint_name(),
            i <= n,
            forall|k: int| 0 <= k < i ==> lv[k].0 != fingerprint_name(),
        decreases n - i,
    {
        proof {
            assert(lv[i as int] == (listing@[i as int].0@, listing@[i as int].1, listing@[
                i as int].2));
        }
        if listing[i].0 == fpn {
            proof {
                assert(lv[i as int].0 == fingerprint_name());
                let ii: int = i as int;
                assert(has_fp(lv)) by {
                    assert(0 <= ii < lv.len() && lv[ii].0 == fingerprint_name());
                }
                lemma_fp_pos(lv);
                let p = fp_pos(lv);
                if p < i as int {
                    assert(lv[p].0 != fingerprint_name());
                }
                if p > i as int {
                    assert(lv[i as int].0 != fingerprint_name());
                }
                assert(p == i as int);
            }
            return Some(i);
        }
        i = i + 1;
    }
    proof {
        if has_fp(lv) {
            let w = choose|k: int| 0 <= k < lv.len() && lv[k].0 == fingerprint_name();
            assert(lv[w].0 != fingerprint_name());
        }
    }
    None
}

/// Collects every entry name of a listing but the fingerprint's.
fn collect_non_fp(listing: &Vec<(String, bool, bool)>) -> (entries: Vec<String>)
    ensures
        entries.deep_view() == non_fp_names(listing.deep_view()),
{
    let ghost lv = listing.deep_view();
    let fpn = String::from_str(fingerprint_entry_name());
    let mut entries: Vec<String> = Vec::new();
    let n: usize = listing.len();
    let mut i: usize = 0;
    proof {
        assert(lv.subrange(0, 0) =~= Seq::<(Seq<char>, bool, bool)>::empty());
        assert(entries.deep_view() =~= non_fp_names(lv.subrange(0, 0)));
    }
    while i < n
        invariant
            n == listing@.len(),
            lv == listing.deep_view(),
            fpn@ == fingerprint_name(),
            i <= n,
            entries.deep_view() == non_fp_names(lv.subrange(0, i as int)),
        decreases n - i,
    {
        let ghost pre = entries.deep_view();
        proof {
            assert(lv[i as int] == (listing@[i as int].0@, listing@[i as int].1, listing@[
                i as int].2));
            let cur = lv.subrange(0, i + 1);
            assert(cur.drop_last() =~= lv.subrange(0, i as int));
            assert(cur.last() == lv[i as int]);
        }
        if !(listing[i].0 == fpn) {
            entries.push(listing[i].0.clone());
            proof {
                assert(entries.deep_view() =~~= pre.push(lv[i as int].0));
                assert(entries.deep_view() =~~= non_fp_names(lv.subrange(0, i + 1)));
            }
        } else {
            proof {
                assert(entries.deep_view() =~~= non_fp_names(lv.subrange(0, i + 1)));
            }
        }
        i = i + 1;
    }
    proof {
        assert(lv.subrange(0, n as int) =~= lv);
    }
    entries
}

/// Recovers the token table from an archive whose listing is given:
/// parses the first fingerprint entry's payload, or yields the empty
/// table when there is none.
fn read_fp_map(archive: &Vec<u8>, listing: &Vec<(String, bool, bool)>) -> (r: Result<
    Vec<(String, String)>,
    String,
>)
    requires
        tar_scan(archive@).0,
        listing.deep_view() == tar_scan(archive@).1,
    ensures
        (r is Ok) == fp_readable(archive@),
        r matches Ok(pm) ==> pm.deep_view() == fp_map(archive@) && distinct_keys(pm.deep_view()),
{
    let ghost lv = listing.deep_view();
    match find_fp(listing) {
        Some(i) => {
            let data = match tar_entry_data(archive, i) {
                Ok(d) => d,
                Err(e) => {
                    return Err(e);
                },
            };
            let text = match bytes_to_string(&data) {
                Ok(t) => t,
                Err(e) => {
                    return Err(e);
                },
            };
            let tchars = chars_of(text.as_str());
            let pm = parse_fingerprint_text(&tchars);
            Ok(pm)
        },
        None => {
            let pm: Vec<(String, String)> = Vec::new();
            proof {
                assert(pm.deep_view() =~= fp_map(archive@));
                assert(distinct_keys(pm.deep_view()));
            }
            Ok(pm)
        },
    }
}

/// Reads the fingerprint of a backup archive and lists its entries.
///
/// Pass one finds and parses the fingerprint entry to rebuild the
/// token table; pass two collects every other entry name. An archive
/// without a fingerprint entry yields an empty table, not an error;
/// an unreadable container or fingerprint payload is an error.
pub fn parse_fingerprint(archive: &Vec<u8>) -> (r: Result<
    (Vec<String>, Vec<(String, String)>),
    String,
>)
    ensures
        (r is Ok) == fp_readable(archive@),
        r matches Ok((es, pm)) ==> {
            &&& es.deep_view() == non_fp_names(tar_scan(archive@).1)
            &&& pm.deep_view() == fp_map(archive@)
            &&& distinct_keys(pm.deep_view())
        },
{
    let listing = match tar_list(archive) {
        Ok(l) => l,
        Err(e) => {
            return Err(e);
        },
    };
    let pm = match read_fp_map(archive, &listing) {
        Ok(m) => m,
        Err(e) => {
            return Err(e);
        },
    };
    let entries = collect_non_fp(&listing);
    Ok((entries, pm))
}


/// The selection strings with separators canonicalized.
pub open spec fn sel_canon(sel: Seq<Seq<char>>) -> Seq<Seq<char>> {
    sel.map_values(|s: Seq<char>| canon_spec(s))
}

/// Whether `s` occurs among `xs`.
pub open spec fn seq_has(xs: Seq<Seq<char>>, s: Seq<char>) -> bool {
    exists|i: int| 0 <= i < xs.len() && xs[i] == s
}

proof fn lemma_seq_has_push(xs: Seq<Seq<char>>, x: Seq<char>, s: Seq<char>)
    ensures
        seq_has(xs.push(x), s) <==> seq_has(xs, s) || s == x,
{
    if seq_has(xs.push(x), s) {
        let i = choose|i: int| 0 <= i < xs.push(x).len() && xs.push(x)[i] == s;
        if i < xs.len() {
            assert(xs[i] == s);
        }
    }
    if seq_has(xs, s) {
        let i = choose|i: int| 0 <= i < xs.len() && xs[i] == s;
        assert(xs.push(x)[i] == s);
    }
    if s == x {
        assert(xs.push(x)[xs.len() as int] == s);
    }
}

/// The human tree path a mapping is shown under: the canonicalized
/// parent label, a slash, and the item name.
pub open spec fn base_of(orig: Seq<char>) -> Seq<char> {
    canon_spec(parent_label_spec(orig)) + seq!['/'] + base_name_spec(orig)
}

/// The entry names one mapping contributes to the extraction set for a
/// selection: the bare token (and the token with the original's
/// extension) when the item itself is selected, and the token-prefixed
/// relative path of every selected string beneath the item.
pub open spec fn in_extract_for(
    u: Seq<char>,
    orig: Seq<char>,
    sel: Seq<Seq<char>>,
    name: Seq<char>,
) -> bool {
    ||| (seq_has(sel_canon(sel), base_of(orig)) && (name == u || (match extension_spec(orig) {
        Some(e) => name == u + seq!['.'] + e,
        None => false,
    })))
    ||| (exists|h: int|
        0 <= h < sel.len() && is_prefix_of(base_of(orig).push('/'), canon_spec(#[trigger] sel[h]))
            && name == u + seq!['/'] + canon_spec(sel[h]).subrange(
            base_of(orig).len() as int + 1,
            canon_spec(sel[h]).len() as int,
        ))
}

/// Membership in the extraction set: some mapping contributes the
/// name.
pub open spec fn in_extract(
    pm: Seq<(Seq<char>, Seq<char>)>,
    sel: Seq<Seq<char>>,
    name: Seq<char>,
) -> bool {
    exists|j: int| 0 <= j < pm.len() && in_extract_for(pm[j].0, pm[j].1, sel, name)
}

/// Whether `s` occurs among the character vectors `xs`.
fn seq_has_exec(xs: &Vec<Vec<char>>, s: &Vec<char>) -> (r: bool)
    ensures
        r == seq_has(xs.deep_view(), s@),
{
    let ghost xv = xs.deep_view();
    let n: usize = xs.len();
    let mut i: usize = 0;
    while i < n
        invariant
            n == xs@.len(),
            xv == xs.deep_view(),
            i <= n,
            forall|k: int| 0 <= k < i ==> xv[k] != s@,
        decreases n - i,
    {
        proof {
            assert(xv[i as int] == xs@[i as int]@);
        }
        if crate::strutil::chars_eq(&xs[i], s) {
            proof {
                let ii: int = i as int;
                assert(seq_has(xv, s@)) by {
                    assert(0 <= ii < xv.len() && xv[ii] == s@);
                }
            }
            return true;
        }
        i = i + 1;
    }
    proof {
        if seq_has(xv, s@) {
            let w = choose|k: int| 0 <= k < xv.len() && xv[k] == s@;
            assert(xv[w] != s@);
        }
    }
    false
}

/// Adds the extraction names one mapping contributes for a selection.
#[verifier::rlimit(60)]
fn extract_for_row(
    u: &String,
    orig: &String,
    sel: &Vec<String>,
    selc: &Vec<Vec<char>>,
    out: &mut Vec<String>,
)
    requires
        selc.deep_view() == sel_canon(sel.deep_view()),
    ensures
        forall|name: Seq<char>|
            seq_has(final(out).deep_view(), name) <==> seq_has(old(out).deep_view(), name)
                || in_extract_for(u@, orig@, sel.deep_view(), name),
{
    let ghost sv = sel.deep_view();
    let oc = chars_of(orig.as_str());
    let (parent, item) = split_parent_name(&oc);
    let mut base = canon(&parent);
    base.push('/');
    crate::strutil::append_chars(&mut base, &item);
    proof {
        assert(base@ =~= base_of(orig@));
    }
    let uc = chars_of(u.as_str());
    let hit = seq_has_exec(selc, &base);
    let ghost after_a = |name: Seq<char>|
        seq_has(old(out).deep_view(), name) || (seq_has(sel_canon(sv), base_of(orig@)) && (name
            == u@ || (match extension_spec(orig@) {
            Some(e) => name == u@ + seq!['.'] + e,
            None => false,
        })));
    if hit {
        let ghost pre = out.deep_view();
        out.push(u.clone());
        proof {
            assert(out.deep_view() =~~= pre.push(u@));
            assert forall|name: Seq<char>| seq_has(out.deep_view(), name) <==> seq_has(pre, name)
                || name == u@ by {
                lemma_seq_has_push(pre, u@, name);
            }
        }
        match file_extension(&oc) {
            Some(ext) => {
                let ghost pre2 = out.deep_view();
                let mut nm = slice_chars(&uc, 0, uc.len());
                nm.push('.');
                crate::strutil::append_chars(&mut nm, &ext);
                let nms = string_of(&nm);
                out.push(nms);
                proof {
                    assert(nm@ =~= u@ + seq!['.'] + ext@);
                    assert(out.deep_view() =~~= pre2.push(nm@));
                    assert forall|name: Seq<char>| seq_has(out.deep_view(), name) <==> seq_has(
                        pre2,
                        name,
                    ) || name == nm@ by {
                        lemma_seq_has_push(pre2, nm@, name);
                    }
                    assert forall|name: Seq<char>| seq_has(out.deep_view(), name) <==> after_a(
                        name,
                    ) by {
                        assert(seq_has(out.deep_view(), name) <==> seq_has(pre2, name) || name
                            == nm@);
                        assert(seq_has(pre2, name) <==> seq_has(pre, name) || name == u@);
                    }
                }
            },
            None => {
                proof {
                    assert forall|name: Seq<char>| seq_has(out.deep_view(), name) <==> after_a(
                        name,
                    ) by {
                        assert(seq_has(out.deep_view(), name) <==> seq_has(pre, name) || name
                            == u@);
                    }
                }
            },
        }
    } else {
        proof {
            assert forall|name: Seq<char>| seq_has(out.deep_view(), name) <==> after_a(name) by {
                if seq_has(sel_canon(sv), base_of(orig@)) {
                    assert(seq_has(selc.deep_view(), base@));
                }
            }
        }
    }
    let mut basep = slice_chars(&base, 0, base.len());
    basep.push('/');
    proof {
        assert(basep@ =~= base_of(orig@).push('/'));
    }
    let ghost out_a = out.deep_view();
    let n: usize = selc.len();
    let mut h: usize = 0;
    while h < n
        invariant
            n == selc@.len(),
            selc.deep_view() == sel_canon(sv),
            sv.len() == n,
            basep@ == base_of(orig@).push('/'),
            uc@ == u@,
            h <= n,
            row_prefix_ok(out.deep_view(), out_a, u@, orig@, sv, h as int),
        decreases n - h,
    {
        proof {
            assert(selc.deep_view()[h as int] == selc@[h as int]@);
            assert(sel_canon(sv)[h as int] == canon_spec(sv[h as int]));
        }
        if crate::strutil::starts_with_chars(&selc[h], &basep) {
            let ghost pre = out.deep_view();
            let rest = slice_chars(&selc[h], basep.len(), selc[h].len());
            let mut nm = slice_chars(&uc, 0, uc.len());
            nm.push('/');
            crate::strutil::append_chars(&mut nm, &rest);
            let nms = string_of(&nm);
            out.push(nms);
            proof {
                assert(nm@ =~= u@ + seq!['/'] + canon_spec(sv[h as int]).subrange(
                    base_of(orig@).len() as int + 1,
                    canon_spec(sv[h as int]).len() as int,
                ));
                assert(out.deep_view() =~~= pre.push(nm@));
                assert forall|name: Seq<char>| seq_has(out.deep_view(), name) <==> seq_has(
                    pre,
                    name,
                ) || name == nm@ by {
                    lemma_seq_has_push(pre, nm@, name);
                }
                let ghost h0 = h as int;
                assert forall|name: Seq<char>| seq_has(out.deep_view(), name) implies seq_has(
                    out_a,
                    name,
                ) || (exists|t: int|
                    0 <= t < h0 + 1 && is_prefix_of(base_of(orig@).push('/'), canon_spec(
                        #[trigger] sv[t],
                    )) && name == u@ + seq!['/'] + canon_spec(sv[t]).subrange(
                        base_of(orig@).len() as int + 1,
                        canon_spec(sv[t]).len() as int,
                    )) by {
                    if name == nm@ {
                        assert(is_prefix_of(base_of(orig@).push('/'), canon_spec(sv[h0])));
                    }
                }
                assert forall|name: Seq<char>|
                    seq_has(out_a, name) || (exists|t: int|
                        0 <= t < h0 + 1 && is_prefix_of(base_of(orig@).push('/'), canon_spec(
                            #[trigger] sv[t],
                        )) && name == u@ + seq!['/'] + canon_spec(sv[t]).subrange(
                            base_of(orig@).len() as int + 1,
                            canon_spec(sv[t]).len() as int,
                        )) implies seq_has(out.deep_view(), name) by {
                    if !seq_has(out_a, name) {
                        let t = choose|t: int|
                            0 <= t < h0 + 1 && is_prefix_of(base_of(orig@).push('/'), canon_spec(
                                #[trigger] sv[t],
                            )) && name == u@ + seq!['/'] + canon_spec(sv[t]).subrange(
                                base_of(orig@).len() as int + 1,
                                canon_spec(sv[t]).len() as int,
                            );
                        if t == h0 {
                            assert(name == nm@);
                        }
                    }
                }
                assert(row_prefix_ok(out.deep_view(), out_a, u@, orig@, sv, h0 + 1));
            }
        } else {
            proof {
                let ghost h0 = h as int;
                assert forall|name: Seq<char>|
                    seq_has(out_a, name) || (exists|t: int|
                        0 <= t < h0 + 1 && is_prefix_of(base_of(orig@).push('/'), canon_spec(
                            #[trigger] sv[t],
                        )) && name == u@ + seq!['/'] + canon_spec(sv[t]).subrange(
                            base_of(orig@).len() as int + 1,
                            canon_spec(sv[t]).len() as int,
                        )) implies seq_has(out.deep_view(), name) by {
                    if !seq_has(out_a, name) {
                        let t = choose|t: int|
                            0 <= t < h0 + 1 && is_prefix_of(base_of(orig@).push('/'), canon_spec(
                                #[trigger] sv[t],
                            )) && name == u@ + seq!['/'] + canon_spec(sv[t]).subrange(
                                base_of(orig@).len() as int + 1,
                                canon_spec(sv[t]).len() as int,
                            );
                        if t == h0 {
                            assert(canon_spec(sv[h0]) == selc.deep_view()[h0]);
                            assert(false);
                        }
                    }
                }
                assert(row_prefix_ok(out.deep_view(), out_a, u@, orig@, sv, h0 + 1));
            }
        }
        h = h + 1;
    }
    proof {
        assert(forall|name: Seq<char>|
            seq_has(out.deep_view(), name) <==> seq_has(old(out).deep_view(), name)
                || in_extract_for(u@, orig@, sv, name));
    }
}

/// The names `outv` holds are exactly those the first `j` mappings
/// contribute for the selection `sv`.
pub open spec fn extract_prefix_ok(
    outv: Seq<Seq<char>>,
    pmv: Seq<(Seq<char>, Seq<char>)>,
    sv: Seq<Seq<char>>,
    j: int,
) -> bool {
    forall|name: Seq<char>|
        seq_has(outv, name) <==> (exists|t: int|
            0 <= t < j && in_extract_for((#[trigger] pmv[t]).0, pmv[t].1, sv, name))
}

/// The names contributed to `outv` by one loop of the per-mapping
/// selection scan, up to selection index `h`.
pub open spec fn row_prefix_ok(
    outv: Seq<Seq<char>>,
    base: Seq<Seq<char>>,
    u: Seq<char>,
    orig: Seq<char>,
    sv: Seq<Seq<char>>,
    h: int,
) -> bool {
    forall|name: Seq<char>|
        seq_has(outv, name) <==> seq_has(base, name) || (exists|t: int|
            0 <= t < h && is_prefix_of(base_of(orig).push('/'), canon_spec(#[trigger] sv[t]))
                && name == u + seq!['/'] + canon_spec(sv[t]).subrange(
                base_of(orig).len() as int + 1,
                canon_spec(sv[t]).len() as int,
            ))
}

/// The names `outv` holds are exactly the extraction set of the
/// selection `sv` under the token table `pmv`.
pub open spec fn is_extract_set(
    outv: Seq<Seq<char>>,
    pmv: Seq<(Seq<char>, Seq<char>)>,
    sv: Seq<Seq<char>>,
) -> bool {
    forall|name: Seq<char>| seq_has(outv, name) <==> in_extract(pmv, sv, name)
}

/// Translates a selection into the exact set of entry names to
/// extract.
pub fn build_extract_set(pm: &Vec<(String, String)>, sel: &Vec<String>) -> (out: Vec<
    String,
>)
    ensures
        is_extract_set(out.deep_view(), pm.deep_view(), sel.deep_view()),
{
    let ghost sv = sel.deep_view();
    let ghost pmv = pm.deep_view();
    let mut selc: Vec<Vec<char>> = Vec::new();
    let ns: usize = sel.len();
    let mut h: usize = 0;
    while h < ns
        invariant
            ns == sel@.len(),
            sv == sel.deep_view(),
            h <= ns,
            selc@.len() == h,
            forall|t: int| 0 <= t < h ==> canon_spec(sv[t]) == (#[trigger] selc.deep_view()[t]),
        decreases ns - h,
    {
        let ghost pre = selc.deep_view();
        let sc = chars_of(sel[h].as_str());
        let cc = canon(&sc);
        selc.push(cc);
        proof {
            assert(sv[h as int] == sel@[h as int]@);
            assert(selc.deep_view() =~~= pre.push(canon_spec(sv[h as int])));
            assert forall|t: int| 0 <= t < h + 1 implies canon_spec(sv[t]) == (
            #[trigger] selc.deep_view()[t]) by {
                if t < h {
                    assert(selc.deep_view()[t] == pre[t]);
                }
            }
        }
        h = h + 1;
    }
    proof {
        assert(selc.deep_view() =~~= sel_canon(sv));
    }
    let mut out: Vec<String> = Vec::new();
    let n: usize = pm.len();
    let mut j: usize = 0;
    while j < n
        invariant
            n == pm@.len(),
            pmv == pm.deep_view(),
            sv == sel.deep_view(),
            selc.deep_view() == sel_canon(sv),
            j <= n,
            extract_prefix_ok(out.deep_view(), pmv, sv, j as int),
        decreases n - j,
    {
        proof {
            assert(pmv[j as int] == (pm@[j as int].0@, pm@[j as int].1@));
        }
        extract_for_row(&pm[j].0, &pm[j].1, sel, &selc, &mut out);
        j = j + 1;
    }
    out
}

/// One restore action: write a file or create a directory at the
/// destination.
#[derive(Debug)]
pub struct RestoreAction {
    pub dest: String,
    pub is_dir: bool,
    pub data: Vec<u8>,
}

impl View for RestoreAction {
    type V = (Seq<char>, bool, Seq<u8>);

    open spec fn view(&self) -> (Seq<char>, bool, Seq<u8>) {
        (self.dest@, self.is_dir, self.data@)
    }
}

impl DeepView for RestoreAction {
    type V = (Seq<char>, bool, Seq<u8>);

    open spec fn deep_view(&self) -> (Seq<char>, bool, Seq<u8>) {
        self.view()
    }
}

/// The least position of `c` in `s`, or the length of `s` when `c`
/// does not occur.
pub open spec fn first_pos(s: Seq<char>, c: char) -> int {
    if exists|i: int| 0 <= i < s.len() && s[i] == c {
        choose|i: int|
            0 <= i < s.len() && s[i] == c && forall|k: int| 0 <= k < i ==> s[k] != c
    } else {
        s.len() as int
    }
}

proof fn lemma_first_pos(s: Seq<char>, c: char)
    ensures
        0 <= first_pos(s, c) <= s.len(),
        first_pos(s, c) < s.len() ==> s[first_pos(s, c)] == c,
        forall|k: int| 0 <= k < first_pos(s, c) ==> s[k] != c,
    decreases s.len(),
{
    if exists|i: int| 0 <= i < s.len() && s[i] == c {
        let w = choose|i: int| 0 <= i < s.len() && s[i] == c;
        if s[0] == c {
            assert(0 <= 0 < s.len() && s[0] == c && forall|k: int| 0 <= k < 0 ==> s[k] != c);
        } else {
            let t = s.subrange(1, s.len() as int);
            assert(t[w - 1] == s[w]);
            lemma_first_pos(t, c);
            assert(exists|i: int| 0 <= i < t.len() && t[i] == c) by {
                assert(0 <= w - 1 < t.len() && t[w - 1] == c);
            }
            let j = first_pos(t, c);
            assert(s[j + 1] == t[j]);
            assert forall|k: int| 1 <= k < j + 1 implies s[k] != c by {
                assert(t[k - 1] == s[k]);
                assert(t[k - 1] != c);
            }
            assert(0 <= j + 1 < s.len() && s[j + 1] == c && forall|k: int|
                0 <= k < j + 1 ==> s[k] != c);
            let p = first_pos(s, c);
            if p < j + 1 {
                assert(s[p] != c);
            }
            if p > j + 1 {
                assert(s[j + 1] != c);
            }
        }
    }
}

/// The leading path component of an entry name: everything before its
/// first slash.
pub open spec fn root_component(name: Seq<char>) -> Seq<char> {
    name.subrange(0, first_pos(name, '/'))
}

/// What follows the first slash of an entry name, empty when it has
/// none.
pub open spec fn rel_part(name: Seq<char>) -> Seq<char> {
    if first_pos(name, '/') == name.len() {
        Seq::empty()
    } else {
        name.subrange(first_pos(name, '/') + 1, name.len() as int)
    }
}

/// Whether an entry name resolves to a destination: its root component
/// is a known folder token, or the part of the root before its first
/// dot is a known lone-file token.
pub open spec fn dest_known(pm: Seq<(Seq<char>, Seq<char>)>, name: Seq<char>) -> bool {
    let root = root_component(name);
    ||| has_key(pm, root)
    ||| (first_pos(root, '.') < root.len() && has_key(pm, root.subrange(0, first_pos(root, '.'))))
}

/// The destination path of a resolvable entry name: the recorded
/// original path adjusted to the current home, with the relative
/// remainder appended for entries under a folder token.
pub open spec fn dest_of(pm: Seq<(Seq<char>, Seq<char>)>, home: Seq<char>, name: Seq<char>) -> Seq<
    char,
> {
    let root = root_component(name);
    if has_key(pm, root) {
        let adj = adjust_spec(pm[key_index(pm, root)].1, home);
        if rel_part(name).len() == 0 {
            adj
        } else {
            adj + seq!['/'] + rel_part(name)
        }
    } else {
        adjust_spec(pm[key_index(pm, root.subrange(0, first_pos(root, '.')))].1, home)
    }
}

/// Whether the selection admits an entry name: every name when the
/// whole archive is restored, else membership in the extraction set.
pub open spec fn sel_admits(
    osel: Option<Seq<Seq<char>>>,
    pm: Seq<(Seq<char>, Seq<char>)>,
    name: Seq<char>,
) -> bool {
    match osel {
        Some(sv) => in_extract(pm, sv, name),
        None => true,
    }
}

/// Whether an entry counts toward the progress denominator: a file or
/// directory entry admitted by the selection.
pub open spec fn entry_counted(
    e: (Seq<char>, bool, bool),
    pm: Seq<(Seq<char>, Seq<char>)>,
    osel: Option<Seq<Seq<char>>>,
) -> bool {
    (e.1 || e.2) && sel_admits(osel, pm, e.0)
}

/// Whether an entry is extracted: counted, not the fingerprint, and
/// resolvable to a destination.
pub open spec fn entry_taken(
    e: (Seq<char>, bool, bool),
    pm: Seq<(Seq<char>, Seq<char>)>,
    osel: Option<Seq<Seq<char>>>,
) -> bool {
    entry_counted(e, pm, osel) && e.0 != fingerprint_name() && dest_known(pm, e.0)
}

/// How many of the first `i` entries count toward the denominator.
pub open spec fn counted_pre(
    listing: Seq<(Seq<char>, bool, bool)>,
    pm: Seq<(Seq<char>, Seq<char>)>,
    osel: Option<Seq<Seq<char>>>,
    i: int,
) -> int
    decreases i,
{
    if i <= 0 {
        0
    } else {
        counted_pre(listing, pm, osel, i - 1) + (if entry_counted(listing[i - 1], pm, osel) {
            1int
        } else {
            0int
        })
    }
}

/// How many of the first `i` entries are extracted.
pub open spec fn taken_pre(
    listing: Seq<(Seq<char>, bool, bool)>,
    pm: Seq<(Seq<char>, Seq<char>)>,
    osel: Option<Seq<Seq<char>>>,
    i: int,
) -> int
    decreases i,
{
    if i <= 0 {
        0
    } else {
        taken_pre(listing, pm, osel, i - 1) + (if entry_taken(listing[i - 1], pm, osel) {
            1int
        } else {
            0int
        })
    }
}

/// No prefix extracts more entries than it counts.
pub proof fn lemma_taken_le_counted(
    listing: Seq<(Seq<char>, bool, bool)>,
    pm: Seq<(Seq<char>, Seq<char>)>,
    osel: Option<Seq<Seq<char>>>,
    i: int,
)
    ensures
        0 <= taken_pre(listing, pm, osel, i) <= counted_pre(listing, pm, osel, i),
    decreases i,
{
    if i > 0 {
        lemma_taken_le_counted(listing, pm, osel, i - 1);
    }
}

/// Counting over a longer prefix never shrinks.
pub proof fn lemma_counted_mono(
    listing: Seq<(Seq<char>, bool, bool)>,
    pm: Seq<(Seq<char>, Seq<char>)>,
    osel: Option<Seq<Seq<char>>>,
    i: int,
    j: int,
)
    requires
        i <= j,
    ensures
        counted_pre(listing, pm, osel, i) <= counted_pre(listing, pm, osel, j),
    decreases j - i,
{
    if i < j {
        lemma_counted_mono(listing, pm, osel, i, j - 1);
    }
}

/// The restore actions of the first `i` entries: destination, kind,
/// and payload bytes for files.
pub open spec fn actions_pre(
    bytes: Seq<u8>,
    listing: Seq<(Seq<char>, bool, bool)>,
    pm: Seq<(Seq<char>, Seq<char>)>,
    osel: Option<Seq<Seq<char>>>,
    home: Seq<char>,
    i: int,
) -> Seq<(Seq<char>, bool, Seq<u8>)>
    decreases i,
{
    if i <= 0 {
        Seq::empty()
    } else {
        actions_pre(bytes, listing, pm, osel, home, i - 1) + (if entry_taken(
            listing[i - 1],
            pm,
            osel,
        ) {
            seq![
                (
                    dest_of(pm, home, listing[i - 1].0),
                    listing[i - 1].1,
                    if listing[i - 1].1 {
                        Seq::<u8>::empty()
                    } else {
                        tar_payload(bytes, i - 1).1
                    },
                ),
            ]
        } else {
            Seq::<(Seq<char>, bool, Seq<u8>)>::empty()
        })
    }
}

/// Every extracted file entry's payload reads back.
pub open spec fn taken_payloads_ok(
    bytes: Seq<u8>,
    listing: Seq<(Seq<char>, bool, bool)>,
    pm: Seq<(Seq<char>, Seq<char>)>,
    osel: Option<Seq<Seq<char>>>,
) -> bool {
    forall|i: int|
        0 <= i < listing.len() && entry_taken(#[trigger] listing[i], pm, osel) && !listing[i].1
            ==> tar_payload(bytes, i).0
}

/// Whether an archive passes the validity gate: its fingerprint is
/// readable and its text contains this build's marker.
pub open spec fn restore_accepts(bytes: Seq<u8>) -> bool {
    &&& fp_readable(bytes)
    &&& has_fp(tar_scan(bytes).1)
    &&& contains_seq(fp_text(bytes), build_marker())
}

/// The selection as sequences of characters.
pub open spec fn osel_of(selected: Option<Vec<String>>) -> Option<Seq<Seq<char>>> {
    match selected {
        Some(v) => Some(v.deep_view()),
        None => None,
    }
}

/// Whether `s` occurs among the strings `xs`.
fn str_vec_has(xs: &Vec<String>, s: &String) -> (r: bool)
    ensures
        r == seq_has(xs.deep_view(), s@),
{
    let ghost xv = xs.deep_view();
    let n: usize = xs.len();
    let mut i: usize = 0;
    while i < n
        invariant
            n == xs@.len(),
            xv == xs.deep_view(),
            i <= n,
            forall|k: int| 0 <= k < i ==> xv[k] != s@,
        decreases n - i,
    {
        proof {
            assert(xv[i as int] == xs@[i as int]@);
        }
        if xs[i] == *s {
            proof {
                let ii: int = i as int;
                assert(seq_has(xv, s@)) by {
                    assert(0 <= ii < xv.len() && xv[ii] == s@);
                }
            }
            return true;
        }
        i = i + 1;
    }
    proof {
        if seq_has(xv, s@) {
            let w = choose|k: int| 0 <= k < xv.len() && xv[k] == s@;
            assert(xv[w] != s@);
        }
    }
    false
}


/// Resolves an entry name to its restore destination: under a known
/// folder token the adjusted original path plus the relative
/// remainder, for a known lone-file token the adjusted original path
/// itself, and nothing for an unrecognized name.
fn resolve_dest(pm: &Vec<(String, String)>, home: &String, name: &String) -> (r: Option<String>)
    requires
        distinct_keys(pm.deep_view()),
    ensures
        (r is Some) == dest_known(pm.deep_view(), name@),
        r matches Some(d) ==> d@ == dest_of(pm.deep_view(), home@, name@),
{
    let ghost pmv = pm.deep_view();
    let nc = chars_of(name.as_str());
    let nlen: usize = nc.len();
    let sp: usize = match scan_for(&nc, '/', 0) {
        Some(p) => {
            proof {
                lemma_first_pos(nc@, '/');
                let f = first_pos(nc@, '/');
                if f < p as int {
                    assert(nc@[f] != '/');
                }
                if f > p as int {
                    assert(nc@[p as int] != '/');
                }
                assert(f == p as int);
            }
            p
        },
        None => {
            proof {
                lemma_first_pos(nc@, '/');
                let f = first_pos(nc@, '/');
                if f < nc@.len() {
                    assert(nc@[f] != '/');
                }
            }
            nlen
        },
    };
    let root = slice_chars(&nc, 0, sp);
    proof {
        assert(root@ == root_component(name@));
    }
    let root_s = string_of(&root);
    match map_get(pm, &root_s) {
        Some(orig) => {
            proof {
                assert(has_key(pmv, root@));
                assert(orig@ == pmv[key_index(pmv, root@)].1);
            }
            let adjusted = adjust_path_str(orig.as_str(), home.as_str());
            if sp == nlen || sp + 1 == nlen {
                proof {
                    assert(rel_part(name@).len() == 0);
                }
                Some(adjusted)
            } else {
                let rel = slice_chars(&nc, sp + 1, nlen);
                proof {
                    assert(rel@ == rel_part(name@));
                }
                let mut dc = chars_of(adjusted.as_str());
                dc.push('/');
                crate::strutil::append_chars(&mut dc, &rel);
                proof {
                    assert(dc@ =~= dest_of(pmv, home@, name@));
                }
                Some(string_of(&dc))
            }
        },
        None => {
            proof {
                assert(!has_key(pmv, root@));
            }
            let rlen: usize = root.len();
            match scan_for(&root, '.', 0) {
                Some(d) => {
                    proof {
                        lemma_first_pos(root@, '.');
                        let f = first_pos(root@, '.');
                        if f < d as int {
                            assert(root@[f] != '.');
                        }
                        if f > d as int {
                            assert(root@[d as int] != '.');
                        }
                        assert(f == d as int);
                    }
                    let u = slice_chars(&root, 0, d);
                    let u_s = string_of(&u);
                    match map_get(pm, &u_s) {
                        Some(orig) => {
                            proof {
                                assert(has_key(pmv, u@));
                                assert(orig@ == pmv[key_index(pmv, u@)].1);
                            }
                            Some(adjust_path_str(orig.as_str(), home.as_str()))
                        },
                        None => None,
                    }
                },
                None => {
                    proof {
                        lemma_first_pos(root@, '.');
                        let f = first_pos(root@, '.');
                        if f < root@.len() {
                            assert(root@[f] != '.');
                        }
                        assert(!dest_known(pmv, name@));
                    }
                    None
                },
            }
        },
    }
}

/// Restores from a backup archive: validates the fingerprint against
/// this build's marker, resolves the selection (all entries when it is
/// absent), and yields one action per matching entry, reporting
/// progress along the way and the terminal sentinel at the end. An
/// invalid or foreign archive is rejected before any action is
/// produced or any progress reported.
#[verifier::rlimit(100)]
pub fn restore_backup(
    archive: &Vec<u8>,
    selected: Option<Vec<String>>,
    current_home: &String,
    progress: &mut Progress,
) -> (r: Result<Vec<RestoreAction>, String>)
    ensures
        !restore_accepts(archive@) ==> r is Err && final(progress)@ == old(progress)@,
        restore_accepts(archive@) ==> ((r is Ok) == restore_payloads_ok(
            archive@,
            osel_of(selected),
        )),
        restore_accepts(archive@) ==> (match r {
            Ok(acts) => {
                &&& acts.deep_view() == restore_actions(
                    archive@,
                    osel_of(selected),
                    current_home@,
                )
                &&& final(progress)@ == old(progress)@ + pct_seq(
                    restore_taken(archive@, osel_of(selected)),
                    restore_total(archive@, osel_of(selected)),
                ).push(crate::PROGRESS_DONE)
            },
            Err(_) => true,
        }),
{
    let ghost osv = osel_of(selected);
    let listing = match tar_list(archive) {
        Ok(l) => l,
        Err(e) => {
            return Err(e);
        },
    };
    let ghost lv = listing.deep_view();
    let fpi = match find_fp(&listing) {
        Some(i) => i,
        None => {
            return Err(String::from_str("Invalid backup fingerprint."));
        },
    };
    let data = match tar_entry_data(archive, fpi) {
        Ok(d) => d,
        Err(e) => {
            return Err(e);
        },
    };
    let text = match bytes_to_string(&data) {
        Ok(t) => t,
        Err(e) => {
            return Err(e);
        },
    };
    let tchars = chars_of(text.as_str());
    if !marker_matches(&tchars) {
        return Err(String::from_str("Invalid backup fingerprint."));
    }
    let pm = parse_fingerprint_text(&tchars);
    let ghost pmv = pm.deep_view();
    proof {
        assert(restore_accepts(archive@));
        assert(pmv == fp_map(archive@));
    }
    let to_extract: Option<Vec<String>> = match &selected {
        Some(sel) => Some(build_extract_set(&pm, sel)),
        None => None,
    };
    proof {
        match &to_extract {
            Some(x) => {
                assert(osv matches Some(sv) && is_extract_set(x.deep_view(), pmv, sv));
            },
            None => {
                assert(osv is None);
            },
        }
    }
    let fpn = String::from_str(fingerprint_entry_name());
    let n: usize = listing.len();
    let mut cnt: usize = 0;
    let mut i: usize = 0;
    while i < n
        invariant
            restore_accepts(archive@),
            n == listing@.len(),
            lv == listing.deep_view(),
            pmv == pm.deep_view(),
            osv == osel_of(selected),
            (to_extract matches Some(x) ==> (osv matches Some(sv) && is_extract_set(
                x.deep_view(),
                pmv,
                sv,
            ))),
            (to_extract is None ==> osv is None),
            i <= n,
            cnt <= i,
            cnt as int == counted_pre(lv, pmv, osv, i as int),
        decreases n - i,
    {
        proof {
            assert(lv[i as int] == (listing@[i as int].0@, listing@[i as int].1, listing@[
                i as int].2));
        }
        let kind_ok = listing[i].1 || listing[i].2;
        if kind_ok {
            let admitted = match &to_extract {
                Some(x) => str_vec_has(x, &listing[i].0),
                None => true,
            };
            if admitted {
                cnt = cnt + 1;
            }
            proof {
                assert(admitted == sel_admits(osv, pmv, lv[i as int].0));
                assert(cnt as int == counted_pre(lv, pmv, osv, i + 1));
            }
        } else {
            proof {
                assert(cnt as int == counted_pre(lv, pmv, osv, i + 1));
            }
        }
        i = i + 1;
    }
    let total: usize = if cnt == 0 {
        1
    } else {
        cnt
    };
    let ghost total_g = total as int;
    let mut acts: Vec<RestoreAction> = Vec::new();
    let mut done: usize = 0;
    let mut j: usize = 0;
    proof {
        assert(acts.deep_view() =~= actions_pre(archive@, lv, pmv, osv, current_home@, 0));
        assert(progress@ =~= old(progress)@ + pct_seq(0, total_g));
    }
    while j < n
        invariant
            restore_accepts(archive@),
            n == listing@.len(),
            lv == listing.deep_view(),
            lv == tar_scan(archive@).1,
            pmv == pm.deep_view(),
            pmv == fp_map(archive@),
            distinct_keys(pmv),
            osv == osel_of(selected),
            (to_extract matches Some(x) ==> (osv matches Some(sv) && is_extract_set(
                x.deep_view(),
                pmv,
                sv,
            ))),
            (to_extract is None ==> osv is None),
            fpn@ == fingerprint_name(),
            total as int == total_g,
            1 <= total_g,
            counted_pre(lv, pmv, osv, n as int) <= total_g,
            j <= n,
            done as int == taken_pre(lv, pmv, osv, j as int),
            acts.deep_view() == actions_pre(archive@, lv, pmv, osv, current_home@, j as int),
            progress@ == old(progress)@ + pct_seq(done as int, total_g),
            forall|k: int|
                0 <= k < j && entry_taken(#[trigger] lv[k], pmv, osv) && !lv[k].1 ==> tar_payload(
                    archive@,
                    k,
                ).0,
        decreases n - j,
    {
        let ghost pre_acts = acts.deep_view();
        proof {
            assert(lv[j as int] == (listing@[j as int].0@, listing@[j as int].1, listing@[
                j as int].2));
        }
        let is_dir = listing[j].1;
        let is_file = listing[j].2;
        let mut skip = false;
        if listing[j].0 == fpn {
            skip = true;
            proof {
                assert(!entry_taken(lv[j as int], pmv, osv));
            }
        } else if !(is_dir || is_file) {
            skip = true;
            proof {
                assert(!entry_taken(lv[j as int], pmv, osv));
            }
        } else {
            let admitted = match &to_extract {
                Some(x) => str_vec_has(x, &listing[j].0),
                None => true,
            };
            if !admitted {
                skip = true;
                proof {
                    assert(!sel_admits(osv, pmv, lv[j as int].0));
                    assert(!entry_taken(lv[j as int], pmv, osv));
                }
            }
        }
        if !skip {
            match resolve_dest(&pm, current_home, &listing[j].0) {
                Some(dest) => {
                    proof {
                        assert(entry_taken(lv[j as int], pmv, osv));
                        lemma_taken_le_counted(lv, pmv, osv, j + 1);
                        lemma_counted_mono(lv, pmv, osv, j + 1, n as int);
                        assert(taken_pre(lv, pmv, osv, j + 1) <= total_g);
                    }
                    let data: Vec<u8> = if is_dir {
                        Vec::new()
                    } else {
                        match tar_entry_data(archive, j) {
                            Ok(d) => d,
                            Err(e) => {
                                proof {
                                    assert(!tar_payload(archive@, j as int).0);
                                    assert(!taken_payloads_ok(archive@, lv, pmv, osv));
                                }
                                return Err(e);
                            },
                        }
                    };
                    acts.push(RestoreAction { dest, is_dir, data });
                    done = done + 1;
                    let big: u128 = ((done as u128) * 100) / (total as u128);
                    proof {
                        assert((done as u128) * 100 == (done as int) * 100);
                        assert(done as int <= total_g);
                        assert(((done as int) * 100) / total_g <= 100) by (nonlinear_arith)
                            requires
                                1 <= total_g,
                                done as int <= total_g,
                        ;
                        assert(0 <= ((done as int) * 100) / total_g);
                        assert(big as int == ((done as int) * 100) / total_g);
                    }
                    let pct: u32 = big as u32;
                    progress.set(pct);
                    proof {
                        assert(acts.deep_view() =~~= pre_acts.push(
                            (
                                dest_of(pmv, current_home@, lv[j as int].0),
                                lv[j as int].1,
                                if lv[j as int].1 {
                                    Seq::<u8>::empty()
                                } else {
                                    tar_payload(archive@, j as int).1
                                },
                            ),
                        ));
                        assert(acts.deep_view() =~~= actions_pre(
                            archive@,
                            lv,
                            pmv,
                            osv,
                            current_home@,
                            j + 1,
                        ));
                        assert(pct_seq(done as int, total_g) =~= pct_seq(
                            done as int - 1,
                            total_g,
                        ).push(pct));
                        assert(progress@ =~= old(progress)@ + pct_seq(done as int, total_g));
                    }
                },
                None => {
                    proof {
                        assert(!entry_taken(lv[j as int], pmv, osv));
                        assert(acts.deep_view() =~~= actions_pre(
                            archive@,
                            lv,
                            pmv,
                            osv,
                            current_home@,
                            j + 1,
                        ));
                    }
                },
            }
        } else {
            proof {
                assert(acts.deep_view() =~~= actions_pre(
                    archive@,
                    lv,
                    pmv,
                    osv,
                    current_home@,
                    j + 1,
                ));
            }
        }
        j = j + 1;
    }
    progress.done();
    proof {
        assert(taken_payloads_ok(archive@, lv, pmv, osv));
        assert(acts.deep_view() == restore_actions(archive@, osv, current_home@));
        assert(progress@ =~= old(progress)@ + pct_seq(
            restore_taken(archive@, osv),
            restore_total(archive@, osv),
        ).push(crate::PROGRESS_DONE));
    }
    Ok(acts)
}

/// How many entries a restore of `bytes` under a selection extracts.
pub open spec fn restore_taken(bytes: Seq<u8>, osel: Option<Seq<Seq<char>>>) -> int {
    taken_pre(
        tar_scan(bytes).1,
        fp_map(bytes),
        osel,
        tar_scan(bytes).1.len() as int,
    )
}

/// The progress denominator of a restore: the counted entries, floored
/// at one.
pub open spec fn restore_total(bytes: Seq<u8>, osel: Option<Seq<Seq<char>>>) -> int {
    let c = counted_pre(
        tar_scan(bytes).1,
        fp_map(bytes),
        osel,
        tar_scan(bytes).1.len() as int,
    );
    if c == 0 {
        1
    } else {
        c
    }
}

/// The actions a restore of `bytes` under a selection produces.
pub open spec fn restore_actions(
    bytes: Seq<u8>,
    osel: Option<Seq<Seq<char>>>,
    home: Seq<char>,
) -> Seq<(Seq<char>, bool, Seq<u8>)> {
    actions_pre(
        bytes,
        tar_scan(bytes).1,
        fp_map(bytes),
        osel,
        home,
        tar_scan(bytes).1.len() as int,
    )
}

/// Whether every payload a restore of `bytes` must read reads back.
pub open spec fn restore_payloads_ok(bytes: Seq<u8>, osel: Option<Seq<Seq<char>>>) -> bool {
    taken_payloads_ok(bytes, tar_scan(bytes).1, fp_map(bytes), osel)
}

} // verus!
