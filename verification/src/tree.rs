//! Tree reconstructor: the restore-side view of an archive.
//!
//! From the fingerprint's token table and the archive's entry listing
//! the engine rebuilds a hierarchical tree keyed by the original human
//! paths, grouped by parent directory. The presentation layer renders
//! it as a checkbox tree and hands back the checked leaf paths.
//!
//! The executable tree is a vector-of-children node; its mathematical
//! counterpart is `TreeModel`, a sequence-of-children node over
//! character sequences, related by `tree_model`. Every operation here
//! is specified as a pure function on models.

use vstd::prelude::*;

verus! {

use crate::strutil::{
    is_prefix_of, split_spec, split_char, slice_chars, string_of, chars_of, starts_with_chars,
};

/// A node in the restore/backup folder tree: named children in
/// insertion order, a selection flag, and whether the node stands for
/// a file.
pub struct FolderTreeNode {
    pub children: Vec<(String, FolderTreeNode)>,
    pub checked: bool,
    pub is_file: bool,
}

/// Mathematical counterpart of a tree node.
#[verifier::ext_equal]
pub struct TreeModel {
    pub kids: Seq<(Seq<char>, TreeModel)>,
    pub checked: bool,
    pub is_file: bool,
}

/// The models of a children vector, in order.
pub open spec fn kids_model(kids: Seq<(String, FolderTreeNode)>) -> Seq<(Seq<char>, TreeModel)>
    decreases kids,
{
    if kids.len() == 0 {
        Seq::empty()
    } else {
        seq![(kids[0].0@, tree_model(kids[0].1))] + kids_model(kids.drop_first())
    }
}

/// The model of a tree node.
pub open spec fn tree_model(n: FolderTreeNode) -> TreeModel
    decreases n,
{
    TreeModel { kids: kids_model(n.children@), checked: n.checked, is_file: n.is_file }
}

/// The children models line up index by index with the children.
pub proof fn lemma_kids_model(kids: Seq<(String, FolderTreeNode)>)
    ensures
        kids_model(kids).len() == kids.len(),
        forall|i: int|
            0 <= i < kids.len() ==> kids_model(kids)[i] == (
                kids[i].0@,
                tree_model(kids[i].1),
            ),
    decreases kids,
{
    if kids.len() > 0 {
        lemma_kids_model(kids.drop_first());
        assert(forall|i: int|
            1 <= i < kids.len() ==> kids_model(kids)[i] == kids_model(kids.drop_first())[i - 1]);
        assert(forall|i: int|
            1 <= i < kids.len() ==> kids.drop_first()[i - 1] == kids[i]);
    }
}

/// An empty, unchecked, non-file node.
pub open spec fn m_node_default() -> TreeModel {
    TreeModel { kids: Seq::empty(), checked: false, is_file: false }
}

/// Creates an empty, unchecked, non-file node.
pub fn node_default() -> (n: FolderTreeNode)
    ensures
        tree_model(n) == m_node_default(),
{
    let n = FolderTreeNode { children: Vec::new(), checked: false, is_file: false };
    proof {
        assert(tree_model(n) =~~= m_node_default());
    }
    n
}

/// Whether a children sequence holds a child of the given name.
pub open spec fn m_has(kids: Seq<(Seq<char>, TreeModel)>, name: Seq<char>) -> bool {
    exists|j: int| 0 <= j < kids.len() && kids[j].0 == name
}

/// First index of the child of the given name, assuming one exists.
pub open spec fn m_pos(kids: Seq<(Seq<char>, TreeModel)>, name: Seq<char>) -> int {
    choose|j: int|
        0 <= j < kids.len() && kids[j].0 == name && forall|t: int| 0 <= t < j ==> kids[t].0 != name
}

proof fn lemma_m_pos(kids: Seq<(Seq<char>, TreeModel)>, name: Seq<char>)
    requires
        m_has(kids, name),
    ensures
        0 <= m_pos(kids, name) < kids.len(),
        kids[m_pos(kids, name)].0 == name,
        forall|t: int| 0 <= t < m_pos(kids, name) ==> kids[t].0 != name,
    decreases kids.len(),
{
    let w = choose|j: int| 0 <= j < kids.len() && kids[j].0 == name;
    if kids[0].0 == name {
        assert(0 <= 0 < kids.len() && kids[0].0 == name && forall|t: int|
            0 <= t < 0 ==> kids[t].0 != name);
    } else {
        let rest = kids.drop_first();
        assert(rest[w - 1] == kids[w]);
        lemma_m_pos(rest, name);
        let j = m_pos(rest, name);
        assert(kids[j + 1] == rest[j]);
        assert(forall|t: int| 1 <= t < j + 1 ==> kids[t] == rest[t - 1] && kids[t].0 != name);
        assert(0 <= j + 1 < kids.len() && kids[j + 1].0 == name && forall|t: int|
            0 <= t < j + 1 ==> kids[t].0 != name);
    }
}

/// Replaces the named child when present, else appends it.
pub open spec fn m_upsert(m: TreeModel, name: Seq<char>, c: TreeModel) -> TreeModel {
    if m_has(m.kids, name) {
        TreeModel { kids: m.kids.update(m_pos(m.kids, name), (name, c)), ..m }
    } else {
        TreeModel { kids: m.kids.push((name, c)), ..m }
    }
}

/// The named child when present, else a fresh default node.
pub open spec fn m_child_or_default(m: TreeModel, name: Seq<char>) -> TreeModel {
    if m_has(m.kids, name) {
        m.kids[m_pos(m.kids, name)].1
    } else {
        m_node_default()
    }
}

/// First position of the named child of `n`, if any.
fn child_pos(n: &FolderTreeNode, name: &String) -> (r: Option<usize>)
    ensures
        match r {
            Some(j) => m_has(tree_model(*n).kids, name@) && j as int == m_pos(
                tree_model(*n).kids,
                name@,
            ),
            None => !m_has(tree_model(*n).kids, name@),
        },
{
    proof {
        lemma_kids_model(n.children@);
    }
    let ghost kids = tree_model(*n).kids;
    let len: usize = n.children.len();
    let mut j: usize = 0;
    while j < len
        invariant
            len == n.children@.len(),
            kids == tree_model(*n).kids,
            kids.len() == len,
            forall|t: int| 0 <= t < len ==> kids[t] == (
                n.children@[t].0@,
                tree_model(n.children@[t].1),
            ),
            j <= len,
            forall|t: int| 0 <= t < j ==> kids[t].0 != name@,
        decreases len - j,
    {
        if n.children[j].0 == *name {
            proof {
                assert(kids[j as int] == (n.children@[j as int].0@, tree_model(
                    n.children@[j as int].1,
                )));
                assert(kids[j as int].0 == name@);
                let ji: int = j as int;
                assert(m_has(kids, name@)) by {
                    assert(0 <= ji < kids.len() && kids[ji].0 == name@);
                }
                lemma_m_pos(kids, name@);
                let p = m_pos(kids, name@);
                if p < j as int {
                    assert(kids[p].0 != name@);
                }
                if p > j as int {
                    assert(kids[j as int].0 != name@);
                }
                assert(p == j as int);
            }
            return Some(j);
        }
        proof {
            assert(kids[j as int] == (n.children@[j as int].0@, tree_model(
                n.children@[j as int].1,
            )));
        }
        j = j + 1;
    }
    proof {
        if m_has(kids, name@) {
            let w = choose|t: int| 0 <= t < kids.len() && kids[t].0 == name@;
            assert(kids[w].0 != name@);
        }
    }
    None
}

/// Removes the named child of `n` and hands it out, or hands out a
/// fresh default node when `n` has none. The returned position is
/// where the child sat, for `put_back` to restore order.
fn take_or_default(n: FolderTreeNode, name: &String) -> (r: (
    FolderTreeNode,
    FolderTreeNode,
    Option<usize>,
))
    ensures
        tree_model(r.1) == m_child_or_default(tree_model(n), name@),
        match r.2 {
            Some(j) => m_has(tree_model(n).kids, name@) && j as int == m_pos(
                tree_model(n).kids,
                name@,
            ) && tree_model(r.0).kids == tree_model(n).kids.remove(j as int) && tree_model(
                r.0,
            ).checked == tree_model(n).checked && tree_model(r.0).is_file == tree_model(
                n,
            ).is_file && j < tree_model(n).kids.len(),
            None => !m_has(tree_model(n).kids, name@) && tree_model(r.0) == tree_model(n),
        },
{
    let ghost kids0 = tree_model(n).kids;
    match child_pos(&n, name) {
        Some(j) => {
            let mut n = n;
            let ghost nv0 = n.children@;
            proof {
                lemma_m_pos(kids0, name@);
                lemma_kids_model(nv0);
            }
            let (_, c) = n.children.remove(j);
            proof {
                lemma_kids_model(n.children@);
                assert(n.children@ =~= nv0.remove(j as int));
                assert(tree_model(n).kids =~= kids0.remove(j as int));
                assert(c == nv0[j as int].1);
                assert(tree_model(c) == kids0[j as int].1);
            }
            (n, c, Some(j))
        },
        None => {
            let d = node_default();
            (n, d, None)
        },
    }
}

/// Puts a child taken by `take_or_default` back at its old position,
/// so the pair of calls acts as `m_upsert` on the original node.
fn put_back(n: FolderTreeNode, name: String, c: FolderTreeNode, pos: Option<usize>) -> (r:
    FolderTreeNode)
    requires
        match pos {
            Some(j) => j <= n.children@.len(),
            None => !m_has(tree_model(n).kids, name@),
        },
    ensures
        tree_model(r).checked == tree_model(n).checked,
        tree_model(r).is_file == tree_model(n).is_file,
        tree_model(r).kids == match pos {
            Some(j) => tree_model(n).kids.insert(j as int, (name@, tree_model(c))),
            None => tree_model(n).kids.push((name@, tree_model(c))),
        },
{
    let ghost kids0 = tree_model(n).kids;
    let mut n = n;
    let ghost nv0 = n.children@;
    proof {
        lemma_kids_model(nv0);
    }
    match pos {
        Some(j) => {
            n.children.insert(j, (name, c));
            proof {
                lemma_kids_model(n.children@);
                assert(n.children@ =~= nv0.insert(j as int, (name, c)));
                assert(tree_model(n).kids =~= kids0.insert(j as int, (name@, tree_model(c))));
            }
            n
        },
        None => {
            n.children.push((name, c));
            proof {
                lemma_kids_model(n.children@);
                assert(n.children@ =~= nv0.push((name, c)));
                assert(tree_model(n).kids =~= kids0.push((name@, tree_model(c))));
            }
            n
        },
    }
}

/// Taking a child out and putting its replacement back in place is the
/// model-level upsert.
proof fn lemma_take_put_upsert(m: TreeModel, name: Seq<char>, c: TreeModel)
    requires
        m_has(m.kids, name),
    ensures
        m.kids.remove(m_pos(m.kids, name)).insert(m_pos(m.kids, name), (name, c))
            == m_upsert(m, name, c).kids,
{
    lemma_m_pos(m.kids, name);
    let j = m_pos(m.kids, name);
    assert(m.kids.remove(j).insert(j, (name, c)) =~= m.kids.update(j, (name, c)));
}

/// Descending along `segs` from a node: intermediate children are
/// created as default nodes, and the node at the end of the path is
/// marked as a file.
pub open spec fn m_descend(m: TreeModel, segs: Seq<Seq<char>>) -> TreeModel
    decreases segs.len(),
{
    if segs.len() == 0 {
        TreeModel { is_file: true, ..m }
    } else {
        m_upsert(m, segs[0], m_descend(m_child_or_default(m, segs[0]), segs.drop_first()))
    }
}

/// Inserts the path `segs[i..]` beneath `n`, marking the final node as
/// a file.
fn descend_insert(n: FolderTreeNode, segs: &Vec<String>, i: usize) -> (r: FolderTreeNode)
    requires
        i <= segs@.len(),
    ensures
        tree_model(r) == m_descend(tree_model(n), segs.deep_view().subrange(
            i as int,
            segs@.len() as int,
        )),
    decreases segs@.len() - i,
{
    let ghost m0 = tree_model(n);
    let ghost rest = segs.deep_view().subrange(i as int, segs@.len() as int);
    if i == segs.len() {
        let mut n = n;
        n.is_file = true;
        proof {
            assert(tree_model(n) =~~= TreeModel { is_file: true, ..m0 });
        }
        n
    } else {
        let seg = segs[i].clone();
        proof {
            assert(seg@ == segs.deep_view()[i as int]);
            assert(rest[0] == seg@);
            assert(rest.drop_first() =~= segs.deep_view().subrange(
                i + 1,
                segs@.len() as int,
            ));
        }
        let (n1, child, pos) = take_or_default(n, &seg);
        let child1 = descend_insert(child, segs, i + 1);
        proof {
            lemma_kids_model(n1.children@);
        }
        let r = put_back(n1, seg, child1, pos);
        proof {
            if m_has(m0.kids, rest[0]) {
                lemma_take_put_upsert(m0, rest[0], tree_model(child1));
                assert(tree_model(r) =~~= m_upsert(m0, rest[0], tree_model(child1)));
            } else {
                assert(tree_model(r) =~~= m_upsert(m0, rest[0], tree_model(child1)));
            }
        }
        r
    }
}

/// `s` with every trailing slash removed.
pub open spec fn strip_trailing_slashes(s: Seq<char>) -> Seq<char>
    decreases s.len(),
{
    if s.len() > 0 && s[s.len() - 1] == '/' {
        strip_trailing_slashes(s.drop_last())
    } else {
        s
    }
}

/// Removes every trailing slash of `v`.
fn strip_trailing_slashes_exec(v: &Vec<char>) -> (r: Vec<char>)
    ensures
        r@ == strip_trailing_slashes(v@),
{
    let n: usize = v.len();
    let mut hi: usize = n;
    proof {
        assert(v@.subrange(0, n as int) =~= v@);
    }
    while hi > 0 && v[hi - 1] == '/'
        invariant
            n == v@.len(),
            hi <= n,
            strip_trailing_slashes(v@) == strip_trailing_slashes(v@.subrange(0, hi as int)),
        decreases hi,
    {
        proof {
            let cur = v@.subrange(0, hi as int);
            assert(cur[cur.len() - 1] == v@[hi - 1]);
            assert(cur.drop_last() =~= v@.subrange(0, hi - 1));
        }
        hi = hi - 1;
    }
    proof {
        let cur = v@.subrange(0, hi as int);
        if cur.len() > 0 {
            assert(cur[cur.len() - 1] == v@[hi - 1]);
        }
        assert(strip_trailing_slashes(cur) == cur);
    }
    slice_chars(v, 0, hi)
}

/// Effect of one archive entry name on an item node: an entry under
/// the token prefix contributes its relative path as nested children,
/// the bare folder-root placeholder and unrelated entries contribute
/// nothing.
pub open spec fn m_apply_entry(item: TreeModel, e: Seq<char>, prefix: Seq<char>) -> TreeModel {
    if is_prefix_of(prefix, e) {
        let rest = strip_trailing_slashes(e.subrange(prefix.len() as int, e.len() as int));
        if rest.len() == 0 {
            item
        } else {
            m_descend(item, split_spec(rest, '/'))
        }
    } else {
        item
    }
}

/// Effect of the archive entries from position `i` on, applied in
/// order.
pub open spec fn m_apply_entries(
    item: TreeModel,
    entries: Seq<Seq<char>>,
    prefix: Seq<char>,
) -> TreeModel
    decreases entries.len(),
{
    if entries.len() == 0 {
        item
    } else {
        m_apply_entries(m_apply_entry(item, entries[0], prefix), entries.drop_first(), prefix)
    }
}

/// Applies every entry name to an item node in order.
fn apply_entries(item: FolderTreeNode, entries: &Vec<String>, prefix: &Vec<char>) -> (r:
    FolderTreeNode)
    ensures
        tree_model(r) == m_apply_entries(tree_model(item), entries.deep_view(), prefix@),
{
    let ghost ev = entries.deep_view();
    let ghost minit = tree_model(item);
    let n: usize = entries.len();
    let mut item = item;
    let mut i: usize = 0;
    proof {
        assert(ev.subrange(0, n as int) =~= ev);
    }
    while i < n
        invariant
            n == entries@.len(),
            ev == entries.deep_view(),
            i <= n,
            m_apply_entries(tree_model(item), ev.subrange(i as int, n as int), prefix@)
                == m_apply_entries(minit, ev, prefix@),
        decreases n - i,
    {
        let ghost m0 = tree_model(item);
        let e = chars_of(entries[i].as_str());
        proof {
            assert(e@ == ev[i as int]);
            assert(ev.subrange(i as int, n as int)[0] == ev[i as int]);
            assert(ev.subrange(i as int, n as int).drop_first() =~= ev.subrange(
                i + 1,
                n as int,
            ));
        }
        if starts_with_chars(&e, prefix) {
            let rest_raw = slice_chars(&e, prefix.len(), e.len());
            let rest = strip_trailing_slashes_exec(&rest_raw);
            if rest.len() > 0 {
                let seg_chars = split_char(&rest, '/');
                let mut segs: Vec<String> = Vec::new();
                let mut k: usize = 0;
                proof {
                    assert(segs.deep_view() =~= seg_chars.deep_view().subrange(0, 0));
                }
                while k < seg_chars.len()
                    invariant
                        k <= seg_chars@.len(),
                        segs.deep_view() == seg_chars.deep_view().subrange(0, k as int),
                    decreases seg_chars@.len() - k,
                {
                    let ghost k0 = k as int;
                    let ghost pre = segs.deep_view();
                    let s = string_of(&seg_chars[k]);
                    segs.push(s);
                    k = k + 1;
                    proof {
                        assert(segs.deep_view() =~~= pre.push(s@));
                        assert(seg_chars.deep_view()[k0] == seg_chars@[k0]@);
                        assert(pre.push(s@) =~~= seg_chars.deep_view().subrange(0, k as int));
                    }
                }
                proof {
                    assert(segs.deep_view() =~~= seg_chars.deep_view());
                    assert(segs.deep_view().subrange(0, segs@.len() as int) =~= segs.deep_view());
                }
                item = descend_insert(item, &segs, 0);
                proof {
                    assert(tree_model(item) == m_apply_entry(m0, ev[i as int], prefix@));
                }
            } else {
                proof {
                    assert(tree_model(item) == m_apply_entry(m0, ev[i as int], prefix@));
                }
            }
        } else {
            proof {
                assert(tree_model(item) == m_apply_entry(m0, ev[i as int], prefix@));
            }
        }
        i = i + 1;
    }
    proof {
        assert(ev.subrange(n as int, n as int) =~= Seq::<Seq<char>>::empty());
    }
    item
}

/// Whether some entry name starts with the given prefix.
fn any_with_prefix(entries: &Vec<String>, prefix: &Vec<char>) -> (r: bool)
    ensures
        r == exists|j: int|
            0 <= j < entries.deep_view().len() && is_prefix_of(
                prefix@,
                #[trigger] entries.deep_view()[j],
            ),
{
    let ghost ev = entries.deep_view();
    let n: usize = entries.len();
    let mut i: usize = 0;
    while i < n
        invariant
            n == entries@.len(),
            ev == entries.deep_view(),
            i <= n,
            forall|j: int| 0 <= j < i ==> !is_prefix_of(prefix@, #[trigger] ev[j]),
        decreases n - i,
    {
        let e = chars_of(entries[i].as_str());
        proof {
            assert(e@ == ev[i as int]);
        }
        if starts_with_chars(&e, prefix) {
            return true;
        }
        i = i + 1;
    }
    false
}

/// Effect of one fingerprint mapping on the tree root: the parent
/// label and item name become first- and second-level nodes; when some
/// entry carries the token prefix the item is a directory backup and
/// its entries are applied beneath it, otherwise the item itself is a
/// lone file.
pub open spec fn m_process_mapping(
    root: TreeModel,
    entries: Seq<Seq<char>>,
    uuid: Seq<char>,
    path: Seq<char>,
) -> TreeModel {
    let parent_name = crate::codec::parent_label_spec(path);
    let item_name = crate::codec::base_name_spec(path);
    let parent0 = m_child_or_default(root, parent_name);
    let item0 = m_child_or_default(parent0, item_name);
    let prefix = uuid.push('/');
    let dir_backup = exists|j: int|
        0 <= j < entries.len() && is_prefix_of(prefix, #[trigger] entries[j]);
    let item1 = if dir_backup {
        m_apply_entries(TreeModel { is_file: false, ..item0 }, entries, prefix)
    } else {
        TreeModel { is_file: true, ..item0 }
    };
    m_upsert(root, parent_name, m_upsert(parent0, item_name, item1))
}

/// Applies one fingerprint mapping to the tree root.
fn process_mapping(
    root: FolderTreeNode,
    entries: &Vec<String>,
    uuid: &String,
    path: &String,
) -> (r: FolderTreeNode)
    ensures
        tree_model(r) == m_process_mapping(tree_model(root), entries.deep_view(), uuid@, path@),
{
    let ghost root0 = tree_model(root);
    let pchars = chars_of(path.as_str());
    let (pl, bn) = crate::codec::split_parent_name(&pchars);
    let parent_name = string_of(&pl);
    let item_name = string_of(&bn);
    let mut prefix = chars_of(uuid.as_str());
    prefix.push('/');
    let (root1, parent0, ppos) = take_or_default(root, &parent_name);
    let ghost pm0 = tree_model(parent0);
    let (parent0b, item0, ipos) = take_or_default(parent0, &item_name);
    let dir_backup = any_with_prefix(entries, &prefix);
    let item1 = if dir_backup {
        let mut it = item0;
        it.is_file = false;
        proof {
            assert(tree_model(it) =~~= TreeModel {
                is_file: false,
                ..m_child_or_default(pm0, item_name@)
            });
        }
        apply_entries(it, entries, &prefix)
    } else {
        let mut it = item0;
        it.is_file = true;
        proof {
            assert(tree_model(it) =~~= TreeModel {
                is_file: true,
                ..m_child_or_default(pm0, item_name@)
            });
        }
        it
    };
    proof {
        lemma_kids_model(parent0b.children@);
    }
    let parent1 = put_back(parent0b, item_name, item1, ipos);
    proof {
        if m_has(pm0.kids, bn@) {
            lemma_take_put_upsert(pm0, bn@, tree_model(item1));
        }
        assert(tree_model(parent1) =~~= m_upsert(pm0, bn@, tree_model(item1)));
        lemma_kids_model(root1.children@);
    }
    let root2 = put_back(root1, parent_name, parent1, ppos);
    proof {
        if m_has(root0.kids, pl@) {
            lemma_take_put_upsert(root0, pl@, tree_model(parent1));
        }
        assert(tree_model(root2) =~~= m_upsert(root0, pl@, tree_model(parent1)));
        assert(tree_model(root2) =~~= m_process_mapping(root0, entries.deep_view(), uuid@,
        path@));
    }
    root2
}

/// The tree that results from applying the fingerprint mappings from
/// position 0 on to `root`, in table order.
pub open spec fn m_build(
    root: TreeModel,
    entries: Seq<Seq<char>>,
    pm: Seq<(Seq<char>, Seq<char>)>,
) -> TreeModel
    decreases pm.len(),
{
    if pm.len() == 0 {
        root
    } else {
        m_build(m_process_mapping(root, entries, pm[0].0, pm[0].1), entries, pm.drop_first())
    }
}

/// The reconstructed tree of an archive: the fingerprint's token table
/// applied, mapping by mapping, to an empty root.
pub open spec fn build_tree_model(
    entries: Seq<Seq<char>>,
    pm: Seq<(Seq<char>, Seq<char>)>,
) -> TreeModel {
    m_build(m_node_default(), entries, pm)
}

/// Constructs the user-facing tree from the archive entry names and
/// the fingerprint's token table: one node per backed-up item beneath
/// its parent label, with the contents of folder backups nested below.
pub fn build_human_tree(entries: Vec<String>, path_map: Vec<(String, String)>) -> (root:
    FolderTreeNode)
    ensures
        tree_model(root) == build_tree_model(entries.deep_view(), path_map.deep_view()),
{
    let ghost ev = entries.deep_view();
    let ghost pmv = path_map.deep_view();
    let mut root = node_default();
    let n: usize = path_map.len();
    let mut i: usize = 0;
    proof {
        assert(pmv.subrange(0, n as int) =~= pmv);
    }
    while i < n
        invariant
            n == path_map@.len(),
            ev == entries.deep_view(),
            pmv == path_map.deep_view(),
            i <= n,
            m_build(tree_model(root), ev, pmv.subrange(i as int, n as int)) == m_build(
                m_node_default(),
                ev,
                pmv,
            ),
        decreases n - i,
    {
        proof {
            assert(path_map.deep_view()[i as int] == (path_map@[i as int].0@, path_map@[
                i as int].1@));
            assert(pmv.subrange(i as int, n as int)[0] == pmv[i as int]);
            assert(pmv.subrange(i as int, n as int).drop_first() =~= pmv.subrange(
                i + 1,
                n as int,
            ));
        }
        root = process_mapping(root, &entries, &path_map[i].0, &path_map[i].1);
        i = i + 1;
    }
    proof {
        assert(pmv.subrange(n as int, n as int) =~= Seq::<(Seq<char>, Seq<char>)>::empty());
    }
    root
}

/// The segments of a tree path joined with slashes.
pub open spec fn join_slash(parts: Seq<Seq<char>>) -> Seq<char>
    decreases parts.len(),
{
    if parts.len() == 0 {
        Seq::empty()
    } else if parts.len() == 1 {
        parts[0]
    } else {
        join_slash(parts.drop_last()) + seq!['/'] + parts.last()
    }
}

/// Joins path segments with slashes.
pub fn join_slash_exec(parts: &Vec<String>) -> (r: String)
    ensures
        r@ == join_slash(parts.deep_view()),
{
    let ghost dv = parts.deep_view();
    let n: usize = parts.len();
    let mut r = String::new();
    let mut i: usize = 0;
    proof {
        assert(dv.subrange(0, 0) =~= Seq::<Seq<char>>::empty());
    }
    while i < n
        invariant
            n == parts@.len(),
            dv == parts.deep_view(),
            i <= n,
            r@ == join_slash(dv.subrange(0, i as int)),
        decreases n - i,
    {
        let ghost pre = r@;
        if i > 0 {
            crate::strutil::push_char(&mut r, '/');
        }
        r.append(parts[i].as_str());
        proof {
            assert(dv[i as int] == parts@[i as int]@);
            let cur = dv.subrange(0, i + 1);
            assert(cur.drop_last() =~= dv.subrange(0, i as int));
            assert(cur.last() == dv[i as int]);
            if i == 0 {
                assert(r@ =~= join_slash(cur));
            } else {
                assert(r@ =~= pre + seq!['/'] + dv[i as int]);
                assert(r@ =~= join_slash(cur));
            }
        }
        i = i + 1;
    }
    proof {
        assert(dv.subrange(0, n as int) =~= dv);
    }
    r
}

/// The checked file paths beneath a children sequence, depth first in
/// child order: a child that is a checked file contributes the joined
/// path of the names on the stack plus its own, and every child's own
/// subtree follows.
pub open spec fn m_collect_kids(
    kids: Seq<(Seq<char>, TreeModel)>,
    stack: Seq<Seq<char>>,
) -> Seq<Seq<char>>
    decreases kids,
{
    if kids.len() == 0 {
        Seq::empty()
    } else {
        let with = stack.push(kids[0].0);
        let here = if kids[0].1.is_file && kids[0].1.checked {
            seq![join_slash(with)]
        } else {
            Seq::empty()
        };
        here + m_collect_kids(kids[0].1.kids, with) + m_collect_kids(kids.drop_first(), stack)
    }
}

/// Walks the tree beneath `node`, appending the joined path of every
/// checked file node to `output`; `path` is the stack of names above
/// `node` and is restored before returning.
pub fn collect_recursive(node: &FolderTreeNode, path: &mut Vec<String>, output: &mut Vec<String>)
    ensures
        final(path)@ == old(path)@,
        final(output).deep_view() == old(output).deep_view() + m_collect_kids(
            tree_model(*node).kids,
            old(path).deep_view(),
        ),
    decreases *node,
{
    let ghost kids = tree_model(*node).kids;
    let ghost stack = path.deep_view();
    proof {
        lemma_kids_model(node.children@);
    }
    let n: usize = node.children.len();
    let mut j: usize = 0;
    while j < n
        invariant
            n == node.children@.len(),
            kids == tree_model(*node).kids,
            kids.len() == n,
            forall|t: int| 0 <= t < n ==> kids[t] == (
                node.children@[t].0@,
                tree_model(node.children@[t].1),
            ),
            j <= n,
            path.deep_view() == stack,
            path@.len() == old(path)@.len(),
            stack == old(path).deep_view(),
            path@ == old(path)@,
            output.deep_view() == old(output).deep_view() + m_collect_kids(
                kids.subrange(0, j as int),
                stack,
            ).add(Seq::empty()),
        decreases n - j,
    {
        let ghost out_pre = output.deep_view();
        let ghost path_pre = path@;
        let name = node.children[j].0.clone();
        let child = &node.children[j].1;
        path.push(name);
        proof {
            assert(path.deep_view() =~~= stack.push(kids[j as int].0));
        }
        if child.is_file && child.checked {
            let full = join_slash_exec(path);
            output.push(full);
            proof {
                assert(output.deep_view() =~~= out_pre.push(join_slash(stack.push(
                    kids[j as int].0,
                ))));
            }
        }
        collect_recursive(child, path, output);
        path.pop();
        proof {
            assert(path@ =~= path_pre);
            assert(path.deep_view() =~~= stack);
            let sub1 = kids.subrange(0, j + 1);
            lemma_collect_snoc(kids, stack, j as int);
            assert(output.deep_view() =~~= old(output).deep_view() + m_collect_kids(
                kids.subrange(0, j + 1),
                stack,
            ));
            assert(output.deep_view() =~~= old(output).deep_view() + m_collect_kids(
                kids.subrange(0, j + 1),
                stack,
            ).add(Seq::empty()));
        }
        j = j + 1;
    }
    proof {
        assert(kids.subrange(0, n as int) =~= kids);
        assert(m_collect_kids(kids, stack).add(Seq::empty()) =~= m_collect_kids(kids, stack));
    }
}

/// Collecting over one more child appends that child's own
/// contribution.
pub proof fn lemma_collect_snoc(kids: Seq<(Seq<char>, TreeModel)>, stack: Seq<Seq<char>>, j: int)
    requires
        0 <= j < kids.len(),
    ensures
        m_collect_kids(kids.subrange(0, j + 1), stack) == m_collect_kids(
            kids.subrange(0, j),
            stack,
        ) + ({
            let with = stack.push(kids[j].0);
            let here = if kids[j].1.is_file && kids[j].1.checked {
                seq![join_slash(with)]
            } else {
                Seq::<Seq<char>>::empty()
            };
            here + m_collect_kids(kids[j].1.kids, with)
        }),
    decreases j,
{
    if j == 0 {
        let s1 = kids.subrange(0, 1);
        assert(s1[0] == kids[0]);
        assert(s1.drop_first() =~= Seq::<(Seq<char>, TreeModel)>::empty());
        assert(kids.subrange(0, 0) =~= Seq::<(Seq<char>, TreeModel)>::empty());
        assert(m_collect_kids(s1, stack) =~= m_collect_kids(kids.subrange(0, 0), stack) + ({
            let with = stack.push(kids[0].0);
            let here = if kids[0].1.is_file && kids[0].1.checked {
                seq![join_slash(with)]
            } else {
                Seq::<Seq<char>>::empty()
            };
            here + m_collect_kids(kids[0].1.kids, with)
        }));
    } else {
        let t = kids.drop_first();
        lemma_collect_snoc(t, stack, j - 1);
        assert(t.subrange(0, j) =~= kids.subrange(0, j + 1).drop_first());
        assert(t.subrange(0, j - 1) =~= kids.subrange(0, j).drop_first());
        assert(t[j - 1] == kids[j]);
        let sA = kids.subrange(0, j + 1);
        let sB = kids.subrange(0, j);
        assert(sA[0] == kids[0]);
        assert(sB[0] == kids[0]);
        assert(m_collect_kids(sA, stack) =~= m_collect_kids(sB, stack) + ({
            let with = stack.push(kids[j].0);
            let here = if kids[j].1.is_file && kids[j].1.checked {
                seq![join_slash(with)]
            } else {
                Seq::<Seq<char>>::empty()
            };
            here + m_collect_kids(kids[j].1.kids, with)
        }));
    }
}

/// Collects all checked file paths beneath the root, in tree order.
pub fn collect_paths(root: &FolderTreeNode) -> (r: Vec<String>)
    ensures
        r.deep_view() == m_collect_kids(tree_model(*root).kids, Seq::empty()),
{
    let mut result: Vec<String> = Vec::new();
    let mut path: Vec<String> = Vec::new();
    proof {
        assert(path.deep_view() =~= Seq::<Seq<char>>::empty());
        assert(result.deep_view() =~= Seq::<Seq<char>>::empty());
    }
    collect_recursive(root, &mut path, &mut result);
    proof {
        assert(result.deep_view() =~= m_collect_kids(tree_model(*root).kids, Seq::empty()));
    }
    result
}

/// Every node of a children sequence with its selection flag set to
/// `val`, recursively.
pub open spec fn m_set_checked_kids(
    kids: Seq<(Seq<char>, TreeModel)>,
    val: bool,
) -> Seq<(Seq<char>, TreeModel)>
    decreases kids,
{
    if kids.len() == 0 {
        Seq::empty()
    } else {
        seq![(kids[0].0, m_set_checked(kids[0].1, val))] + m_set_checked_kids(
            kids.drop_first(),
            val,
        )
    }
}

/// The tree with every node's selection flag set to `val`.
pub open spec fn m_set_checked(m: TreeModel, val: bool) -> TreeModel
    decreases m,
{
    TreeModel { kids: m_set_checked_kids(m.kids, val), checked: val, is_file: m.is_file }
}

pub proof fn lemma_set_checked_kids_pub(kids: Seq<(Seq<char>, TreeModel)>, val: bool)
    ensures
        m_set_checked_kids(kids, val).len() == kids.len(),
        forall|i: int|
            0 <= i < kids.len() ==> m_set_checked_kids(kids, val)[i] == (
                kids[i].0,
                m_set_checked(kids[i].1, val),
            ),
{
    lemma_set_checked_kids(kids, val);
}

proof fn lemma_set_checked_kids(kids: Seq<(Seq<char>, TreeModel)>, val: bool)
    ensures
        m_set_checked_kids(kids, val).len() == kids.len(),
        forall|i: int|
            0 <= i < kids.len() ==> m_set_checked_kids(kids, val)[i] == (
                kids[i].0,
                m_set_checked(kids[i].1, val),
            ),
    decreases kids,
{
    if kids.len() > 0 {
        lemma_set_checked_kids(kids.drop_first(), val);
        assert(forall|i: int|
            1 <= i < kids.len() ==> m_set_checked_kids(kids, val)[i] == m_set_checked_kids(
                kids.drop_first(),
                val,
            )[i - 1]);
        assert(forall|i: int| 1 <= i < kids.len() ==> kids.drop_first()[i - 1] == kids[i]);
    }
}

fn set_checked_kids(kids: &Vec<(String, FolderTreeNode)>, i: usize, checked: bool) -> (r: Vec<
    (String, FolderTreeNode),
>)
    requires
        i <= kids@.len(),
    ensures
        r@.len() == kids@.len() - i,
        forall|t: int|
            0 <= t < r@.len() ==> (#[trigger] r@[t]).0@ == kids@[i + t].0@ && tree_model(r@[t].1)
                == m_set_checked(tree_model(kids@[i + t].1), checked),
    decreases *kids, kids@.len() - i,
{
    if i == kids.len() {
        Vec::new()
    } else {
        let nm = kids[i].0.clone();
        proof {
            vstd::std_specs::vec::axiom_vec_index_decreases(*kids, i as int);
        }
        let c2 = set_all_checked_val(&kids[i].1, checked);
        let mut rest = set_checked_kids(kids, i + 1, checked);
        rest.insert(0, (nm, c2));
        proof {
            assert(forall|t: int|
                1 <= t < rest@.len() ==> rest@[t] == rest@.subrange(1, rest@.len() as int)[t
                    - 1]);
        }
        rest
    }
}

fn set_all_checked_val(n: &FolderTreeNode, checked: bool) -> (r: FolderTreeNode)
    ensures
        tree_model(r) == m_set_checked(tree_model(*n), checked),
    decreases *n, 0int,
{
    let new_children = set_checked_kids(&n.children, 0, checked);
    let r = FolderTreeNode { children: new_children, checked, is_file: n.is_file };
    proof {
        lemma_kids_model(n.children@);
        lemma_kids_model(r.children@);
        lemma_set_checked_kids(tree_model(*n).kids, checked);
        assert(forall|t: int|
            0 <= t < r.children@.len() ==> (#[trigger] r.children@[t]).0@ == n.children@[t].0@
                && tree_model(r.children@[t].1) == m_set_checked(
                tree_model(n.children@[t].1),
                checked,
            ));
        assert(tree_model(r).kids =~= m_set_checked_kids(tree_model(*n).kids, checked));
        assert(tree_model(r) =~~= m_set_checked(tree_model(*n), checked));
    }
    r
}

/// Recursively sets the selection flag of a node and all its
/// descendants, so toggling a folder toggles everything beneath it.
pub fn set_all_checked(node: &mut FolderTreeNode, checked: bool)
    ensures
        tree_model(*final(node)) == m_set_checked(tree_model(*old(node)), checked),
{
    let r = set_all_checked_val(node, checked);
    *node = r;
}

/// One display path inserted beneath a node: children created along
/// the way start out checked, and the node at the end of the path is
/// marked as a file.
pub open spec fn m_insert_display_path(root: TreeModel, parts: Seq<Seq<char>>) -> TreeModel
    decreases parts.len(),
{
    if parts.len() == 0 {
        TreeModel { is_file: true, ..root }
    } else {
        let child = if m_has(root.kids, parts[0]) {
            root.kids[m_pos(root.kids, parts[0])].1
        } else {
            TreeModel { kids: Seq::empty(), checked: true, is_file: false }
        };
        m_upsert(root, parts[0], m_insert_display_path(child, parts.drop_first()))
    }
}

/// The non-empty fields of a split, in order.
pub open spec fn drop_empty(s: Seq<Seq<char>>) -> Seq<Seq<char>>
    decreases s.len(),
{
    if s.len() == 0 {
        Seq::empty()
    } else {
        drop_empty(s.drop_last()) + (if s.last().len() > 0 {
            seq![s.last()]
        } else {
            Seq::<Seq<char>>::empty()
        })
    }
}

/// The display tree of a list of slash-separated paths, each inserted
/// in order with its empty segments dropped.
pub open spec fn display_tree_model(paths: Seq<Seq<char>>) -> TreeModel
    decreases paths.len(),
{
    if paths.len() == 0 {
        m_node_default()
    } else {
        m_insert_display_path(
            display_tree_model(paths.drop_last()),
            drop_empty(split_spec(paths.last(), '/')),
        )
    }
}

fn insert_display_path(n: FolderTreeNode, segs: &Vec<String>, i: usize) -> (r: FolderTreeNode)
    requires
        i <= segs@.len(),
    ensures
        tree_model(r) == m_insert_display_path(tree_model(n), segs.deep_view().subrange(
            i as int,
            segs@.len() as int,
        )),
    decreases segs@.len() - i,
{
    let ghost m0 = tree_model(n);
    let ghost rest = segs.deep_view().subrange(i as int, segs@.len() as int);
    if i == segs.len() {
        let mut n = n;
        n.is_file = true;
        proof {
            assert(tree_model(n) =~~= TreeModel { is_file: true, ..m0 });
        }
        n
    } else {
        let seg = segs[i].clone();
        proof {
            assert(seg@ == segs.deep_view()[i as int]);
            assert(rest[0] == seg@);
            assert(rest.drop_first() =~= segs.deep_view().subrange(i + 1, segs@.len() as int));
        }
        let (n1, child0, pos) = take_or_default(n, &seg);
        let child = match pos {
            Some(_) => child0,
            None => {
                let mut d = child0;
                d.checked = true;
                proof {
                    assert(tree_model(d) =~~= TreeModel {
                        kids: Seq::empty(),
                        checked: true,
                        is_file: false,
                    });
                }
                d
            },
        };
        let child1 = insert_display_path(child, segs, i + 1);
        proof {
            lemma_kids_model(n1.children@);
        }
        let r = put_back(n1, seg, child1, pos);
        proof {
            if m_has(m0.kids, rest[0]) {
                lemma_take_put_upsert(m0, rest[0], tree_model(child1));
            }
            assert(tree_model(r) =~~= m_upsert(m0, rest[0], tree_model(child1)));
        }
        r
    }
}

/// Builds a display tree from a list of slash-separated path strings,
/// one node per segment; created nodes start out checked and the last
/// segment of each path is marked as a file.
pub fn build_tree_from_paths(paths: &Vec<String>) -> (root: FolderTreeNode)
    ensures
        tree_model(root) == display_tree_model(paths.deep_view()),
{
    let ghost pv = paths.deep_view();
    let mut root = node_default();
    let n: usize = paths.len();
    let mut i: usize = 0;
    proof {
        assert(pv.subrange(0, 0) =~= Seq::<Seq<char>>::empty());
    }
    while i < n
        invariant
            n == paths@.len(),
            pv == paths.deep_view(),
            i <= n,
            tree_model(root) == display_tree_model(pv.subrange(0, i as int)),
        decreases n - i,
    {
        let pchars = chars_of(paths[i].as_str());
        let seg_chars = split_char(&pchars, '/');
        let ghost sv = seg_chars.deep_view();
        let mut segs: Vec<String> = Vec::new();
        let m: usize = seg_chars.len();
        let mut k: usize = 0;
        proof {
            lemma_kids_model(root.children@);
            assert(sv.subrange(0, 0) =~= Seq::<Seq<char>>::empty());
            assert(segs.deep_view() =~= drop_empty(sv.subrange(0, 0)));
        }
        while k < m
            invariant
                m == seg_chars@.len(),
                sv == seg_chars.deep_view(),
                k <= m,
                segs.deep_view() == drop_empty(sv.subrange(0, k as int)),
            decreases m - k,
        {
            let ghost pre = segs.deep_view();
            let field = &seg_chars[k];
            if field.len() > 0 {
                segs.push(string_of(field));
            }
            k = k + 1;
            proof {
                assert(sv[(k - 1) as int] == seg_chars@[(k - 1) as int]@);
                let cur = sv.subrange(0, k as int);
                assert(cur.drop_last() =~= sv.subrange(0, (k - 1) as int));
                assert(cur.last() == sv[(k - 1) as int]);
                if seg_chars@[(k - 1) as int]@.len() > 0 {
                    assert(segs.deep_view() =~~= pre.push(sv[(k - 1) as int]));
                    assert(segs.deep_view() =~~= drop_empty(cur));
                } else {
                    assert(segs.deep_view() =~~= drop_empty(cur));
                }
            }
        }
        proof {
            assert(sv.subrange(0, m as int) =~= sv);
            assert(pchars@ == pv[i as int]);
            assert(segs.deep_view().subrange(0, segs@.len() as int) =~= segs.deep_view());
            assert(pv.subrange(0, i + 1).drop_last() =~= pv.subrange(0, i as int));
            assert(pv.subrange(0, i + 1).last() == pv[i as int]);
        }
        root = insert_display_path(root, &segs, 0);
        i = i + 1;
        proof {
            assert(tree_model(root) == display_tree_model(pv.subrange(0, i as int)));
        }
    }
    proof {
        assert(pv.subrange(0, n as int) =~= pv);
    }
    root
}

} // verus!
