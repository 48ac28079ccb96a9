use vstd::prelude::*;

use crate::formatter::{bundle_text, lemma_bundle_text_of_models};
use crate::path::{file_name_of, is_dot_name, last_index_of, parent_of, strip_tail};
use crate::scan_laws::{lemma_key_index, lemma_tree_of_sorted, reported_file};
use crate::scanner::{
    add_file, dir_map, ensure_ancestors, ensure_dir, file_models, file_order, files_in, key_index,
    lemma_last_index_of_bound, lemma_max_key_len, lemma_parent_shorter,
    lemma_scan_files_deterministic, lemma_tree_of_shape, max_key_len, parent_or_root,
    opt_chars, scanned_files, subdir_trees, tree_of, DirModel, ScanResult, ScannedItem,
};
use crate::sorting::{
    lemma_sort_by_order_deterministic, lemma_sort_by_order_permutation, ordered_when_different,
    sort_by_order,
};
use crate::tree::{
    lemma_node_order, lemma_sort_trees, node_order, same_key, sort_entries, sort_trees, Node,
};

verus! {

// The tree and the bundle of a scan do not depend on the order in which the
// walk reports what it finds.

/// The last component of `p`: what follows its last `/`.
pub open spec fn last_component(p: Seq<char>) -> Seq<char> {
    p.skip(last_index_of(p, '/') + 1)
}

/// A relative path of names separated by single `/`: no empty component, and
/// no `.` or `..`.
pub open spec fn well_formed_path(p: Seq<char>) -> bool
    decreases p.len(),
{
    let i = last_index_of(p, '/');
    let name = last_component(p);
    &&& name.len() > 0
    &&& !is_dot_name(name)
    &&& (i >= 0 ==> {
        proof {
            lemma_last_index_of_bound(p, '/');
        }
        well_formed_path(p.take(i))
    })
}

/// No `c` follows the last `c`.
proof fn lemma_last_index_of_after(s: Seq<char>, c: char)
    ensures
        forall|j: int| last_index_of(s, c) < j < s.len() ==> s[j] != c,
    decreases s.len(),
{
    lemma_last_index_of_bound(s, c);
    if s.len() > 0 && s.last() != c {
        lemma_last_index_of_bound(s.drop_last(), c);
        lemma_last_index_of_after(s.drop_last(), c);
        assert forall|j: int| last_index_of(s, c) < j < s.len() implies s[j] != c by {
            if j < s.len() - 1 {
                assert(s.drop_last()[j] == s[j]);
            }
        }
    }
}

/// A well-formed path is its parent, a `/` and its name, or its name alone.
pub proof fn lemma_well_formed_path(p: Seq<char>)
    requires
        well_formed_path(p),
    ensures
        strip_tail(p) == p,
        file_name_of(p) == Some(last_component(p)),
        last_index_of(p, '/') < 0 ==> parent_or_root(p) == Seq::<char>::empty() && p
            == last_component(p),
        last_index_of(p, '/') >= 0 ==> parent_or_root(p) == p.take(last_index_of(p, '/'))
            && well_formed_path(parent_or_root(p)) && p == parent_or_root(p) + seq!['/']
            + last_component(p),
        parent_or_root(p).len() < p.len(),
{
    let i = last_index_of(p, '/');
    let name = last_component(p);
    lemma_last_index_of_bound(p, '/');
    lemma_last_index_of_after(p, '/');
    assert(p.last() == name.last());
    if p.len() >= 2 && p.last() == '.' && p[p.len() - 2] == '/' {
        assert(i == p.len() - 2);
        assert(name =~= seq!['.']);
    }
    assert(strip_tail(p) == p);
    if i >= 0 {
        assert(p =~= p.take(i) + seq!['/'] + name);
    } else {
        assert(p =~= name);
    }
}

/// Two well-formed paths with the same parent and the same name are the same.
pub proof fn lemma_path_from_parent_and_name(p1: Seq<char>, p2: Seq<char>)
    requires
        well_formed_path(p1),
        well_formed_path(p2),
        parent_or_root(p1) == parent_or_root(p2),
        file_name_of(p1) == file_name_of(p2),
    ensures
        p1 == p2,
{
    lemma_well_formed_path(p1);
    lemma_well_formed_path(p2);
    let q = parent_or_root(p1);
    if last_index_of(p1, '/') >= 0 && last_index_of(p2, '/') < 0 {
        assert(q.len() == 0);
        lemma_well_formed_path(q);
    }
    if last_index_of(p2, '/') >= 0 && last_index_of(p1, '/') < 0 {
        assert(q.len() == 0);
        lemma_well_formed_path(q);
    }
}


/// Whether the directory `k` is among `ms`.
pub open spec fn has_key(ms: Seq<DirModel>, k: Seq<char>) -> bool {
    key_index(ms, k) >= 0
}

/// No directory is among `ms` twice.
pub open spec fn keys_distinct(ms: Seq<DirModel>) -> bool {
    forall|i: int, j: int|
        0 <= i < j < ms.len() ==> (#[trigger] ms[i]).rel_path != (#[trigger] ms[j]).rel_path
}

/// Every directory but the root has a well-formed path, and every file is
/// a file node with a well-formed path, found in the directory that holds
/// it and named by its last component; files with the same path are the
/// same node.
pub open spec fn dirs_well_formed(ms: Seq<DirModel>) -> bool {
    &&& forall|j: int|
        0 <= j < ms.len() ==> (#[trigger] ms[j]).rel_path.len() == 0 || well_formed_path(
            ms[j].rel_path,
        )
    &&& forall|j: int, f: Node|
        0 <= j < ms.len() && #[trigger] ms[j].files.contains(f) ==> {
            &&& f is File
            &&& well_formed_path(f->File_rel_path)
            &&& parent_or_root(f->File_rel_path) == ms[j].rel_path
            &&& f.name() == last_component(f->File_rel_path)
        }
    &&& forall|j: int, f: Node, g: Node|
        0 <= j < ms.len() && #[trigger] ms[j].files.contains(f) && #[trigger] ms[j].files.contains(
            g,
        ) && f->File_rel_path == g->File_rel_path ==> f == g
}

/// What lies in `subdir_trees(ms, rel, j)` is the tree of a directory at an
/// index from `j` on that lies directly in `rel`.
proof fn lemma_subdir_trees_members(ms: Seq<DirModel>, rel: Seq<char>, j: int, t: Node)
    requires
        0 <= j,
        subdir_trees(ms, rel, j).contains(t),
    ensures
        exists|i: int|
            j <= i < ms.len() && parent_of(ms[i].rel_path) == Some(rel) && t == tree_of(
                ms,
                #[trigger] ms[i].rel_path,
            ),
    decreases ms.len() - j,
{
    if j < ms.len() {
        let rest = subdir_trees(ms, rel, j + 1);
        let k = ms[j].rel_path;
        if parent_of(k) == Some(rel) && t == tree_of(ms, k) {
        } else {
            if parent_of(k) == Some(rel) {
                assert(subdir_trees(ms, rel, j) == seq![tree_of(ms, k)] + rest);
                let x = choose|x: int|
                    0 <= x < subdir_trees(ms, rel, j).len() && subdir_trees(ms, rel, j)[x] == t;
                assert(rest[x - 1] == t);
            }
            assert(rest.contains(t));
            lemma_subdir_trees_members(ms, rel, j + 1, t);
        }
    }
}

/// With distinct directories, a tree is in `subdir_trees(ms, rel, j)` once
/// when it is the tree of a directory from index `j` on that lies directly
/// in `rel`, and not at all otherwise.
proof fn lemma_subdir_trees_count(ms: Seq<DirModel>, rel: Seq<char>, j: int, t: Node)
    requires
        0 <= j,
        keys_distinct(ms),
    ensures
        subdir_trees(ms, rel, j).to_multiset().count(t) == if exists|i: int|
            j <= i < ms.len() && parent_of(ms[i].rel_path) == Some(rel) && t == tree_of(
                ms,
                #[trigger] ms[i].rel_path,
            ) {
            1nat
        } else {
            0nat
        },
    decreases ms.len() - j,
{
    broadcast use vstd::multiset::group_multiset_axioms;
    broadcast use vstd::seq_lib::to_multiset_insert;
    broadcast use vstd::seq_lib::to_multiset_contains;

    if j >= ms.len() {
        assert(subdir_trees(ms, rel, j) =~= Seq::<Node>::empty());
        assert(Seq::<Node>::empty().to_multiset() =~= vstd::multiset::Multiset::<Node>::empty());
    } else {
        lemma_subdir_trees_count(ms, rel, j + 1, t);
        let rest = subdir_trees(ms, rel, j + 1);
        let k = ms[j].rel_path;
        if parent_of(k) == Some(rel) {
            assert(subdir_trees(ms, rel, j) == seq![tree_of(ms, k)] + rest);
            assert(seq![tree_of(ms, k)] + rest =~= rest.insert(0, tree_of(ms, k)));
            if t == tree_of(ms, k) {
                // No later directory has the same tree: its path would be `k`.
                assert forall|i: int|
                    j + 1 <= i < ms.len() && parent_of(ms[i].rel_path) == Some(rel) implies t
                    != tree_of(ms, #[trigger] ms[i].rel_path) by {
                    lemma_tree_of_shape(ms, k);
                    lemma_tree_of_shape(ms, ms[i].rel_path);
                    assert(ms[j].rel_path != ms[i].rel_path);
                }
            }
        } else {
            assert(subdir_trees(ms, rel, j) == rest);
        }
    }
}


/// Two sets of directories with the same directories, each with the same
/// files in any order, give the same tree: the tree does not depend on the
/// order in which directories and files are listed.
pub proof fn lemma_tree_of_congruent(ms1: Seq<DirModel>, ms2: Seq<DirModel>, rel: Seq<char>)
    requires
        keys_distinct(ms1),
        keys_distinct(ms2),
        forall|k: Seq<char>| #[trigger] has_key(ms1, k) <==> has_key(ms2, k),
        forall|k: Seq<char>|
            (#[trigger] files_in(ms1, k)).to_multiset() == files_in(ms2, k).to_multiset(),
        dirs_well_formed(ms1),
        rel.len() <= max_key_len(ms1),
    ensures
        tree_of(ms1, rel) == tree_of(ms2, rel),
    decreases max_key_len(ms1) - rel.len(),
{
    broadcast use vstd::multiset::group_multiset_axioms;
    broadcast use vstd::seq_lib::to_multiset_contains;
    broadcast use vstd::seq_lib::lemma_multiset_commutative;

    let f1 = files_in(ms1, rel);
    let f2 = files_in(ms2, rel);
    let s1 = subdir_trees(ms1, rel, 0);
    let s2 = subdir_trees(ms2, rel, 0);
    let c1 = f1 + s1;
    let c2 = f2 + s2;
    assert(f1.to_multiset() == f2.to_multiset());

    // The trees of the directories in `rel` agree.
    assert forall|k: Seq<char>|
        #[trigger] has_key(ms1, k) && parent_of(k) == Some(rel) implies tree_of(ms1, k) == tree_of(
            ms2,
            k,
        ) by {
        lemma_key_index(ms1, k);
        lemma_max_key_len(ms1, key_index(ms1, k));
        lemma_parent_shorter(k);
        lemma_tree_of_congruent(ms1, ms2, k);
    }

    // The same subtrees, as many times each.
    assert forall|t: Node| s1.to_multiset().count(t) == s2.to_multiset().count(t) by {
        lemma_subdir_trees_count(ms1, rel, 0, t);
        lemma_subdir_trees_count(ms2, rel, 0, t);
        if exists|i: int|
            0 <= i < ms1.len() && parent_of(ms1[i].rel_path) == Some(rel) && t == tree_of(
                ms1,
                #[trigger] ms1[i].rel_path,
            ) {
            let i = choose|i: int|
                0 <= i < ms1.len() && parent_of(ms1[i].rel_path) == Some(rel) && t == tree_of(
                    ms1,
                    #[trigger] ms1[i].rel_path,
                );
            let k = ms1[i].rel_path;
            lemma_key_index(ms1, k);
            assert(has_key(ms1, k));
            assert(has_key(ms2, k));
            lemma_key_index(ms2, k);
            let i2 = key_index(ms2, k);
            assert(ms2[i2].rel_path == k);
            assert(t == tree_of(ms2, ms2[i2].rel_path));
        }
        if exists|i: int|
            0 <= i < ms2.len() && parent_of(ms2[i].rel_path) == Some(rel) && t == tree_of(
                ms2,
                #[trigger] ms2[i].rel_path,
            ) {
            let i = choose|i: int|
                0 <= i < ms2.len() && parent_of(ms2[i].rel_path) == Some(rel) && t == tree_of(
                    ms2,
                    #[trigger] ms2[i].rel_path,
                );
            let k = ms2[i].rel_path;
            lemma_key_index(ms2, k);
            assert(has_key(ms2, k));
            assert(has_key(ms1, k));
            lemma_key_index(ms1, k);
            let i1 = key_index(ms1, k);
            assert(ms1[i1].rel_path == k);
            assert(t == tree_of(ms1, ms1[i1].rel_path));
        }
    }
    assert(s1.to_multiset() =~= s2.to_multiset());
    assert(c1.to_multiset() =~= c2.to_multiset());

    // Every entry is sorted already.
    assert forall|f: Node| #[trigger] f1.contains(f) implies f is File by {
        lemma_key_index(ms1, rel);
        if key_index(ms1, rel) < 0 {
            assert(f1.len() == 0);
        }
        assert(ms1[key_index(ms1, rel)].files.contains(f));
    }
    assert forall|f: Node| #[trigger] f2.contains(f) implies f is File by {
        assert(f2.to_multiset().count(f) > 0);
        assert(f1.contains(f));
    }
    lemma_fixed_entries(ms1, rel);
    lemma_fixed_entries(ms2, rel);

    // No two different entries are unordered.
    lemma_node_order();
    assert(ordered_when_different(c1, node_order())) by {
        assert forall|a: Node, b: Node|
            c1.contains(a) && c1.contains(b) && !#[trigger] node_order()(a, b)
                && !#[trigger] node_order()(b, a) implies a == b by {
            assert(same_key(a, b));
            lemma_entry_kinds(ms1, rel, a);
            lemma_entry_kinds(ms1, rel, b);
            if f1.contains(a) && f1.contains(b) {
                lemma_key_index(ms1, rel);
                let j = key_index(ms1, rel);
                assert(ms1[j].files.contains(a) && ms1[j].files.contains(b));
                let pa = a->File_rel_path;
                let pb = b->File_rel_path;
                lemma_well_formed_path(pa);
                lemma_well_formed_path(pb);
                lemma_path_from_parent_and_name(pa, pb);
            } else if s1.contains(a) && s1.contains(b) {
                lemma_subdir_trees_members(ms1, rel, 0, a);
                lemma_subdir_trees_members(ms1, rel, 0, b);
                let ia = choose|i: int|
                    0 <= i < ms1.len() && parent_of(ms1[i].rel_path) == Some(rel) && a == tree_of(
                        ms1,
                        #[trigger] ms1[i].rel_path,
                    );
                let ib = choose|i: int|
                    0 <= i < ms1.len() && parent_of(ms1[i].rel_path) == Some(rel) && b == tree_of(
                        ms1,
                        #[trigger] ms1[i].rel_path,
                    );
                let ka = ms1[ia].rel_path;
                let kb = ms1[ib].rel_path;
                lemma_tree_of_shape(ms1, ka);
                lemma_tree_of_shape(ms1, kb);
                lemma_well_formed_path(ka);
                lemma_well_formed_path(kb);
                lemma_path_from_parent_and_name(ka, kb);
            }
        }
    }
    lemma_sort_by_order_deterministic(c1, c2, node_order());
    assert(sort_entries(c1) == sort_entries(c2));
}

/// The entries of the tree of `rel`, before sorting, are its files and the
/// trees of the directories in it: files are file nodes from the directory
/// `rel`, trees are directories.
proof fn lemma_entry_kinds(ms: Seq<DirModel>, rel: Seq<char>, a: Node)
    requires
        (files_in(ms, rel) + subdir_trees(ms, rel, 0)).contains(a),
        dirs_well_formed(ms),
    ensures
        files_in(ms, rel).contains(a) || subdir_trees(ms, rel, 0).contains(a),
        files_in(ms, rel).contains(a) ==> a is File && key_index(ms, rel) >= 0,
        subdir_trees(ms, rel, 0).contains(a) ==> a is Directory,
{
    let f = files_in(ms, rel);
    let s = subdir_trees(ms, rel, 0);
    let c = f + s;
    let x = choose|x: int| 0 <= x < c.len() && c[x] == a;
    if x < f.len() {
        assert(f[x] == a);
    } else {
        assert(s[x - f.len()] == a);
    }
    if f.contains(a) {
        lemma_key_index(ms, rel);
        if key_index(ms, rel) < 0 {
            assert(f.len() == 0);
        }
        let j = key_index(ms, rel);
        assert(ms[j].files.contains(a));
    }
    if s.contains(a) {
        lemma_subdir_trees_members(ms, rel, 0, a);
        let i = choose|i: int|
            0 <= i < ms.len() && parent_of(ms[i].rel_path) == Some(rel) && a == tree_of(
                ms,
                #[trigger] ms[i].rel_path,
            );
        lemma_tree_of_shape(ms, ms[i].rel_path);
    }
}

/// Sorting leaves each entry of the tree of `rel` as it is, so sorting the
/// trees of the entries changes nothing.
proof fn lemma_fixed_entries(ms: Seq<DirModel>, rel: Seq<char>)
    requires
        forall|f: Node| #[trigger] files_in(ms, rel).contains(f) ==> f is File,
    ensures
        sort_trees(files_in(ms, rel) + subdir_trees(ms, rel, 0)) == files_in(ms, rel)
            + subdir_trees(ms, rel, 0),
{
    let c = files_in(ms, rel) + subdir_trees(ms, rel, 0);
    lemma_sort_trees(c);
    assert forall|i: int| 0 <= i < c.len() implies #[trigger] sort_trees(c)[i] == c[i] by {
        let f = files_in(ms, rel);
        let s = subdir_trees(ms, rel, 0);
        if i < f.len() {
            assert(f.contains(c[i]));
        } else {
            assert(s[i - f.len()] == c[i]);
            assert(s.contains(c[i]));
            lemma_subdir_trees_members(ms, rel, 0, c[i]);
            let j = choose|j: int|
                0 <= j < ms.len() && parent_of(ms[j].rel_path) == Some(rel) && c[i] == tree_of(
                    ms,
                    #[trigger] ms[j].rel_path,
                );
            lemma_tree_of_sorted(ms, ms[j].rel_path);
        }
    }
    assert(sort_trees(c) =~= c);
}


// ---------------------------------------------------------------------------
// The directories that the items of a walk make up
// ---------------------------------------------------------------------------

/// `k` is `p` or a directory above it, but the root.
pub open spec fn is_above(k: Seq<char>, p: Seq<char>) -> bool
    decreases p.len(),
{
    if p.len() == 0 {
        false
    } else {
        proof {
            lemma_parent_shorter(p);
        }
        k == p || is_above(k, parent_or_root(p))
    }
}

/// The item makes the directory `k` one of the scan's: a directory reported
/// at `k`, or a file in `k` or below it.
pub open spec fn item_adds_dir(x: ScannedItem, k: Seq<char>) -> bool {
    match x {
        ScannedItem::Dir(p) => file_name_of(p@) is Some && p@ == k,
        ScannedItem::File { rel_path, .. } => file_name_of(rel_path@) is Some && is_above(
            k,
            parent_or_root(rel_path@),
        ),
    }
}

/// `k` is one of the directories that the items make up.
pub open spec fn dir_of_items(items: Seq<ScannedItem>, k: Seq<char>) -> bool {
    k.len() == 0 || exists|i: int| 0 <= i < items.len() && item_adds_dir(#[trigger] items[i], k)
}

/// The files that the items report in the directory `k`, in order.
pub open spec fn files_for(items: Seq<ScannedItem>, k: Seq<char>) -> Seq<Node>
    decreases items.len(),
{
    if items.len() == 0 {
        Seq::empty()
    } else {
        let r = files_for(items.drop_last(), k);
        match reported_file(items.last()) {
            Some((par, f)) => if par == k {
                r.push(f)
            } else {
                r
            },
            None => r,
        }
    }
}

/// Where directories are found depends only on their paths.
proof fn lemma_key_index_paths(ms1: Seq<DirModel>, ms2: Seq<DirModel>, k: Seq<char>)
    requires
        ms1.len() == ms2.len(),
        forall|j: int| 0 <= j < ms1.len() ==> (#[trigger] ms1[j]).rel_path == ms2[j].rel_path,
    ensures
        key_index(ms1, k) == key_index(ms2, k),
    decreases ms1.len(),
{
    if ms1.len() > 0 {
        assert forall|j: int| 0 <= j < ms1.len() - 1 implies (#[trigger] ms1.drop_last()[j]).rel_path
            == ms2.drop_last()[j].rel_path by {
            assert(ms1.drop_last()[j] == ms1[j]);
            assert(ms2.drop_last()[j] == ms2[j]);
        }
        lemma_key_index_paths(ms1.drop_last(), ms2.drop_last(), k);
        assert(ms1.last().rel_path == ms2.last().rel_path);
    }
}

/// Adding a directory adds just that directory and keeps the files.
proof fn lemma_ensure_dir_facts(ms: Seq<DirModel>, p: Seq<char>)
    requires
        keys_distinct(ms),
    ensures
        keys_distinct(ensure_dir(ms, p)),
        forall|k: Seq<char>| #[trigger] has_key(ensure_dir(ms, p), k) <==> has_key(ms, k) || k == p,
        forall|k: Seq<char>| #[trigger] files_in(ensure_dir(ms, p), k) == files_in(ms, k),
{
    lemma_key_index(ms, p);
    let ms2 = ensure_dir(ms, p);
    if key_index(ms, p) < 0 {
        assert(ms2.drop_last() == ms);
        assert forall|k: Seq<char>| #[trigger] has_key(ms2, k) <==> has_key(ms, k) || k == p by {
            lemma_key_index(ms, k);
        }
        assert forall|k: Seq<char>| #[trigger] files_in(ms2, k) == files_in(ms, k) by {
            lemma_key_index(ms, k);
            lemma_key_index(ms2, k);
            if k == p {
                assert(key_index(ms2, k) == ms.len());
            }
        }
    }
}

/// Adding a directory and those above it adds just those and keeps the files.
proof fn lemma_ensure_ancestors_facts(ms: Seq<DirModel>, p: Seq<char>)
    requires
        keys_distinct(ms),
    ensures
        keys_distinct(ensure_ancestors(ms, p)),
        forall|k: Seq<char>| #[trigger]
            has_key(ensure_ancestors(ms, p), k) <==> has_key(ms, k) || is_above(k, p),
        forall|k: Seq<char>| #[trigger] files_in(ensure_ancestors(ms, p), k) == files_in(ms, k),
    decreases p.len(),
{
    if p.len() > 0 {
        lemma_parent_shorter(p);
        let q = parent_or_root(p);
        lemma_ensure_dir_facts(ms, p);
        lemma_ensure_ancestors_facts(ensure_dir(ms, p), q);
        assert forall|k: Seq<char>| #[trigger]
            has_key(ensure_ancestors(ms, p), k) <==> has_key(ms, k) || is_above(k, p) by {
            assert(has_key(ensure_dir(ms, p), k) <==> has_key(ms, k) || k == p);
        }
        assert forall|k: Seq<char>| #[trigger] files_in(ensure_ancestors(ms, p), k) == files_in(
            ms,
            k,
        ) by {
            assert(files_in(ensure_dir(ms, p), k) == files_in(ms, k));
        }
    }
}

/// Adding a file to a directory keeps the directories and adds the file to
/// that directory's files only.
proof fn lemma_add_file_facts(ms: Seq<DirModel>, p: Seq<char>, f: Node)
    requires
        keys_distinct(ms),
        has_key(ms, p),
    ensures
        keys_distinct(add_file(ms, p, f)),
        forall|k: Seq<char>| #[trigger] has_key(add_file(ms, p, f), k) <==> has_key(ms, k),
        forall|k: Seq<char>| #[trigger]
            files_in(add_file(ms, p, f), k) == if k == p {
                files_in(ms, k).push(f)
            } else {
                files_in(ms, k)
            },
{
    let ms2 = add_file(ms, p, f);
    let i = key_index(ms, p);
    lemma_key_index(ms, p);
    assert forall|j: int| 0 <= j < ms.len() implies (#[trigger] ms[j]).rel_path
        == ms2[j].rel_path by {}
    assert forall|k: Seq<char>| #[trigger] files_in(ms2, k) == if k == p {
        files_in(ms, k).push(f)
    } else {
        files_in(ms, k)
    } by {
        lemma_key_index_paths(ms, ms2, k);
        lemma_key_index(ms, k);
    }
    assert forall|k: Seq<char>| #[trigger] has_key(ms2, k) <==> has_key(ms, k) by {
        lemma_key_index_paths(ms, ms2, k);
    }
}

/// The directories of a walk are the root and those the items make up, each
/// once, and each holds the files reported in it, in the order reported.
pub proof fn lemma_dir_map_facts(items: Seq<ScannedItem>)
    ensures
        keys_distinct(dir_map(items)),
        forall|k: Seq<char>| #[trigger] has_key(dir_map(items), k) <==> dir_of_items(items, k),
        forall|k: Seq<char>| #[trigger] files_in(dir_map(items), k) == files_for(items, k),
    decreases items.len(),
{
    if items.len() == 0 {
        let ms = dir_map(items);
        assert forall|k: Seq<char>| #[trigger] has_key(ms, k) <==> dir_of_items(items, k) by {
            lemma_key_index(ms, k);
            if k.len() == 0 {
                assert(ms[0].rel_path == k);
            }
        }
        assert forall|k: Seq<char>| #[trigger] files_in(ms, k) == files_for(items, k) by {
            lemma_key_index(ms, k);
        }
    } else {
        let init = items.drop_last();
        let x = items.last();
        lemma_dir_map_facts(init);
        let ms = dir_map(init);
        assert forall|k: Seq<char>| dir_of_items(items, k) <==> #[trigger] dir_of_items(init, k)
            || item_adds_dir(x, k) by {
            if dir_of_items(items, k) && k.len() > 0 {
                let i = choose|i: int| 0 <= i < items.len() && item_adds_dir(#[trigger] items[i], k);
                if i < items.len() - 1 {
                    assert(init[i] == items[i]);
                }
            }
            if dir_of_items(init, k) && k.len() > 0 {
                let i = choose|i: int| 0 <= i < init.len() && item_adds_dir(#[trigger] init[i], k);
                assert(items[i] == init[i]);
            }
            if item_adds_dir(x, k) && k.len() > 0 {
                assert(items[items.len() - 1] == x);
            }
        }
        match x {
            ScannedItem::Dir(p) => {
                if file_name_of(p@) is Some {
                    lemma_ensure_dir_facts(ms, p@);
                }
            },
            ScannedItem::File { rel_path, content } => {
                if file_name_of(rel_path@) is Some {
                    let par = parent_or_root(rel_path@);
                    let name = file_name_of(rel_path@)->0;
                    let f = Node::File { name, rel_path: rel_path@, is_binary: content is None };
                    lemma_ensure_ancestors_facts(ms, par);
                    let ms1 = ensure_ancestors(ms, par);
                    lemma_ensure_dir_facts(ms1, par);
                    let ms2 = ensure_dir(ms1, par);
                    assert(has_key(ms2, par));
                    lemma_add_file_facts(ms2, par, f);
                    assert(dir_map(items) == add_file(ms2, par, f));
                    assert(reported_file(x) == Some((par, f)));
                }
            },
        }
    }
}


/// The path of what an item reports.
pub open spec fn item_path(x: ScannedItem) -> Seq<char> {
    match x {
        ScannedItem::Dir(p) => p@,
        ScannedItem::File { rel_path, .. } => rel_path@,
    }
}

/// What a walk reports: well-formed paths, and a file reported twice at the
/// same path is reported the same way, binary or not.
pub open spec fn items_well_formed(items: Seq<ScannedItem>) -> bool {
    &&& forall|i: int| 0 <= i < items.len() ==> well_formed_path(item_path(#[trigger] items[i]))
    &&& forall|i: int, j: int|
        0 <= i < items.len() && 0 <= j < items.len() && (#[trigger] items[i] is File)
            && (#[trigger] items[j] is File) && items[i]->File_rel_path@
            == items[j]->File_rel_path@ ==> (items[i]->File_content is None)
            == (items[j]->File_content is None)
}

/// A directory at or above a well-formed path has a well-formed path.
proof fn lemma_above_well_formed(k: Seq<char>, p: Seq<char>)
    requires
        is_above(k, p),
        well_formed_path(p),
    ensures
        well_formed_path(k),
    decreases p.len(),
{
    lemma_well_formed_path(p);
    lemma_parent_shorter(p);
    if k != p {
        lemma_above_well_formed(k, parent_or_root(p));
    }
}

/// A file reported in `k` comes from an item that reports it there.
proof fn lemma_files_for_member(items: Seq<ScannedItem>, k: Seq<char>, f: Node)
    requires
        files_for(items, k).contains(f),
    ensures
        exists|i: int| 0 <= i < items.len() && reported_file(#[trigger] items[i]) == Some((k, f)),
    decreases items.len(),
{
    let init = items.drop_last();
    let r = files_for(init, k);
    if r.contains(f) {
        lemma_files_for_member(init, k, f);
        let i = choose|i: int| 0 <= i < init.len() && reported_file(#[trigger] init[i]) == Some((k, f));
        assert(items[i] == init[i]);
    } else {
        let x = choose|x: int| 0 <= x < files_for(items, k).len() && files_for(items, k)[x] == f;
        assert(reported_file(items[items.len() - 1]) == Some((k, f)));
    }
}

/// The directories of a well-formed walk are well formed.
pub proof fn lemma_dir_map_well_formed(items: Seq<ScannedItem>)
    requires
        items_well_formed(items),
    ensures
        dirs_well_formed(dir_map(items)),
{
    let ms = dir_map(items);
    lemma_dir_map_facts(items);
    assert forall|j: int| 0 <= j < ms.len() implies (#[trigger] ms[j]).rel_path.len() == 0
        || well_formed_path(ms[j].rel_path) by {
        let k = ms[j].rel_path;
        lemma_key_index(ms, k);
        assert(has_key(ms, k));
        assert(dir_of_items(items, k));
        if k.len() > 0 {
            let i = choose|i: int| 0 <= i < items.len() && item_adds_dir(#[trigger] items[i], k);
            assert(well_formed_path(item_path(items[i])));
            match items[i] {
                ScannedItem::Dir(p) => {},
                ScannedItem::File { rel_path, .. } => {
                    lemma_well_formed_path(rel_path@);
                    let par = parent_or_root(rel_path@);
                    if par.len() == 0 {
                        assert(!is_above(k, par));
                    } else {
                        lemma_above_well_formed(k, par);
                    }
                },
            }
        }
    }
    assert forall|j: int, f: Node|
        0 <= j < ms.len() && #[trigger] ms[j].files.contains(f) implies {
        &&& f is File
        &&& well_formed_path(f->File_rel_path)
        &&& parent_or_root(f->File_rel_path) == ms[j].rel_path
        &&& f.name() == last_component(f->File_rel_path)
    } by {
        let k = ms[j].rel_path;
        lemma_key_index(ms, k);
        assert(key_index(ms, k) == j);
        assert(files_in(ms, k) == ms[j].files);
        assert(files_for(items, k).contains(f));
        lemma_files_for_member(items, k, f);
        let i = choose|i: int| 0 <= i < items.len() && reported_file(#[trigger] items[i]) == Some((k, f));
        assert(well_formed_path(item_path(items[i])));
        lemma_well_formed_path(item_path(items[i]));
    }
    assert forall|j: int, f: Node, g: Node|
        0 <= j < ms.len() && #[trigger] ms[j].files.contains(f) && #[trigger] ms[j].files.contains(g)
            && f->File_rel_path == g->File_rel_path implies f == g by {
        let k = ms[j].rel_path;
        lemma_key_index(ms, k);
        assert(key_index(ms, k) == j);
        assert(files_in(ms, k) == ms[j].files);
        assert(files_for(items, k).contains(f));
        assert(files_for(items, k).contains(g));
        lemma_files_for_member(items, k, f);
        lemma_files_for_member(items, k, g);
        let a = choose|i: int| 0 <= i < items.len() && reported_file(#[trigger] items[i]) == Some((k, f));
        let b = choose|i: int| 0 <= i < items.len() && reported_file(#[trigger] items[i]) == Some((k, g));
        assert(items[a] is File && items[b] is File);
    }
}


/// What `g` picks from the elements of `s`, in order.
pub open spec fn collect<A, B>(s: Seq<A>, g: spec_fn(A) -> Option<B>) -> Seq<B>
    decreases s.len(),
{
    if s.len() == 0 {
        Seq::empty()
    } else {
        let r = collect(s.drop_last(), g);
        match g(s.last()) {
            Some(b) => r.push(b),
            None => r,
        }
    }
}

/// Picking from two runs one after the other.
proof fn lemma_collect_add<A, B>(a: Seq<A>, b: Seq<A>, g: spec_fn(A) -> Option<B>)
    ensures
        collect(a + b, g) == collect(a, g) + collect(b, g),
    decreases b.len(),
{
    if b.len() == 0 {
        assert(a + b =~= a);
        assert(collect(a, g) + Seq::<B>::empty() =~= collect(a, g));
    } else {
        lemma_collect_add(a, b.drop_last(), g);
        assert((a + b).drop_last() =~= a + b.drop_last());
        assert((a + b).last() == b.last());
        let r = collect(a, g);
        let rb = collect(b.drop_last(), g);
        match g(b.last()) {
            Some(y) => {
                assert(r + rb.push(y) =~= (r + rb).push(y));
            },
            None => {},
        }
    }
}

/// Picking from the same elements in any order picks the same elements, in
/// some order.
proof fn lemma_collect_permutation<A, B>(s1: Seq<A>, s2: Seq<A>, g: spec_fn(A) -> Option<B>)
    requires
        s1.to_multiset() == s2.to_multiset(),
    ensures
        collect(s1, g).to_multiset() == collect(s2, g).to_multiset(),
    decreases s1.len(),
{
    broadcast use vstd::multiset::group_multiset_axioms;
    broadcast use vstd::seq_lib::to_multiset_contains;
    broadcast use vstd::seq_lib::to_multiset_len;
    broadcast use vstd::seq_lib::to_multiset_remove;
    broadcast use vstd::seq_lib::to_multiset_build;
    broadcast use vstd::seq_lib::lemma_multiset_commutative;

    assert(s1.to_multiset().len() == s1.len());
    assert(s2.to_multiset().len() == s2.len());
    if s1.len() == 0 {
        assert(s2.len() == 0);
        assert(s1 =~= s2);
    } else {
        let x = s1.last();
        let init = s1.drop_last();
        assert(s1 =~= init.push(x));
        assert(s1.contains(x));
        assert(s1.to_multiset().count(x) > 0);
        assert(s2.contains(x));
        let j = choose|j: int| 0 <= j < s2.len() && s2[j] == x;
        let rest = s2.remove(j);
        assert(rest.to_multiset() =~= s2.to_multiset().remove(x));
        assert(init.to_multiset() =~= s1.to_multiset().remove(x));
        lemma_collect_permutation(init, rest, g);
        let a = s2.take(j);
        let c = s2.skip(j + 1);
        assert(s2 =~= a + seq![x] + c);
        assert(rest =~= a + c);
        lemma_collect_add(a, seq![x], g);
        lemma_collect_add(a + seq![x], c, g);
        lemma_collect_add(a, c, g);
        lemma_collect_add(init, seq![x], g);
        assert(init + seq![x] =~= s1);
        assert(seq![x].drop_last() =~= Seq::<A>::empty());
        let fx = collect(seq![x], g);
        assert(collect(s1, g).to_multiset() =~= collect(init, g).to_multiset().add(
            fx.to_multiset(),
        ));
        assert(collect(s2, g).to_multiset() =~= collect(a, g).to_multiset().add(
            fx.to_multiset(),
        ).add(collect(c, g).to_multiset()));
        assert(collect(rest, g).to_multiset() =~= collect(a, g).to_multiset().add(
            collect(c, g).to_multiset(),
        ));
    }
}

/// The file that an item reports in the directory `k`, if any.
pub open spec fn file_in(k: Seq<char>) -> spec_fn(ScannedItem) -> Option<Node> {
    |x: ScannedItem|
        match reported_file(x) {
            Some((par, f)) => if par == k {
                Some(f)
            } else {
                None
            },
            None => None,
        }
}

/// The files reported in `k` are those that `file_in(k)` picks.
proof fn lemma_files_for_collect(items: Seq<ScannedItem>, k: Seq<char>)
    ensures
        files_for(items, k) == collect(items, file_in(k)),
    decreases items.len(),
{
    if items.len() > 0 {
        lemma_files_for_collect(items.drop_last(), k);
    }
}

/// The file, with its text, that an item reports, if any.
pub open spec fn scanned_file_of(x: ScannedItem) -> Option<(Seq<char>, Option<Seq<char>>)> {
    match x {
        ScannedItem::File { rel_path, content, .. } => if file_name_of(rel_path@) is Some {
            Some(
                (
                    rel_path@,
                    match content {
                        Some(t) => Some(t@),
                        None => None,
                    },
                ),
            )
        } else {
            None
        },
        ScannedItem::Dir(_) => None,
    }
}

/// The files of a walk are those that `scanned_file_of` picks.
proof fn lemma_scanned_files_collect(items: Seq<ScannedItem>)
    ensures
        scanned_files(items) == collect(items, |x: ScannedItem| scanned_file_of(x)),
    decreases items.len(),
{
    if items.len() > 0 {
        lemma_scanned_files_collect(items.drop_last());
    }
}

/// Walks that report the same items, in any order, report the same files,
/// in some order.
pub proof fn lemma_scanned_files_permutation(items1: Seq<ScannedItem>, items2: Seq<ScannedItem>)
    requires
        items1.to_multiset() == items2.to_multiset(),
    ensures
        scanned_files(items1).to_multiset() == scanned_files(items2).to_multiset(),
{
    lemma_scanned_files_collect(items1);
    lemma_scanned_files_collect(items2);
    lemma_collect_permutation(items1, items2, |x: ScannedItem| scanned_file_of(x));
}

/// The tree of a scan does not depend on the order in which the walk
/// reported what it found: two walks that report the same items, in any
/// order, give the same tree, when their paths are well formed and a file
/// reported twice is reported the same way.
pub proof fn lemma_scan_tree_deterministic(items1: Seq<ScannedItem>, items2: Seq<ScannedItem>)
    requires
        items1.to_multiset() == items2.to_multiset(),
        items_well_formed(items1),
    ensures
        tree_of(dir_map(items1), Seq::empty()) == tree_of(dir_map(items2), Seq::empty()),
{
    broadcast use vstd::seq_lib::to_multiset_contains;

    let ms1 = dir_map(items1);
    let ms2 = dir_map(items2);
    lemma_dir_map_facts(items1);
    lemma_dir_map_facts(items2);
    lemma_dir_map_well_formed(items1);
    assert forall|k: Seq<char>| #[trigger] has_key(ms1, k) <==> has_key(ms2, k) by {
        if k.len() > 0 {
            if dir_of_items(items1, k) {
                let i = choose|i: int| 0 <= i < items1.len() && item_adds_dir(#[trigger] items1[i], k);
                assert(items1.contains(items1[i]));
                assert(items1.to_multiset().count(items1[i]) > 0);
                assert(items2.contains(items1[i]));
                let j = choose|j: int| 0 <= j < items2.len() && items2[j] == items1[i];
                assert(item_adds_dir(items2[j], k));
            }
            if dir_of_items(items2, k) {
                let i = choose|i: int| 0 <= i < items2.len() && item_adds_dir(#[trigger] items2[i], k);
                assert(items2.contains(items2[i]));
                assert(items2.to_multiset().count(items2[i]) > 0);
                assert(items1.contains(items2[i]));
                let j = choose|j: int| 0 <= j < items1.len() && items1[j] == items2[i];
                assert(item_adds_dir(items1[j], k));
            }
        }
    }
    assert forall|k: Seq<char>|
        (#[trigger] files_in(ms1, k)).to_multiset() == files_in(ms2, k).to_multiset() by {
        lemma_files_for_collect(items1, k);
        lemma_files_for_collect(items2, k);
        lemma_collect_permutation(items1, items2, file_in(k));
    }
    assert(has_key(ms1, Seq::empty()));
    lemma_key_index(ms1, Seq::empty());
    lemma_max_key_len(ms1, key_index(ms1, Seq::empty()));
    lemma_tree_of_congruent(ms1, ms2, Seq::empty());
}


/// No two files that a walk reports share a path.
pub open spec fn file_paths_distinct(items: Seq<ScannedItem>) -> bool {
    forall|i: int, j: int|
        0 <= i < j < items.len() && (#[trigger] items[i] is File) && (#[trigger] items[j] is File)
            ==> items[i]->File_rel_path@ != items[j]->File_rel_path@
}

/// A file of the walk comes from an item before index `items.len()`.
proof fn lemma_scanned_files_member(items: Seq<ScannedItem>, e: (Seq<char>, Option<Seq<char>>))
    requires
        scanned_files(items).contains(e),
    ensures
        exists|i: int|
            0 <= i < items.len() && (#[trigger] items[i] is File) && items[i]->File_rel_path@
                == e.0,
    decreases items.len(),
{
    let init = items.drop_last();
    if scanned_files(init).contains(e) {
        lemma_scanned_files_member(init, e);
        let i = choose|i: int|
            0 <= i < init.len() && (#[trigger] init[i] is File) && init[i]->File_rel_path@ == e.0;
        assert(items[i] == init[i]);
    } else {
        assert(items[items.len() - 1] is File);
    }
}

/// When no two files share a path, neither do two files of the walk.
proof fn lemma_scanned_files_distinct(items: Seq<ScannedItem>)
    requires
        file_paths_distinct(items),
    ensures
        forall|i: int, j: int|
            0 <= i < j < scanned_files(items).len() ==> (#[trigger] scanned_files(items)[i]).0
                != (#[trigger] scanned_files(items)[j]).0,
    decreases items.len(),
{
    let init = items.drop_last();
    if items.len() > 0 {
        assert(file_paths_distinct(init)) by {
            assert forall|i: int, j: int|
                0 <= i < j < init.len() && (#[trigger] init[i] is File) && (#[trigger] init[j] is File)
                    implies init[i]->File_rel_path@ != init[j]->File_rel_path@ by {
                assert(init[i] == items[i] && init[j] == items[j]);
            }
        }
        lemma_scanned_files_distinct(init);
        let s = scanned_files(items);
        let r = scanned_files(init);
        if s.len() > r.len() {
            assert forall|i: int, j: int| 0 <= i < j < s.len() implies (#[trigger] s[i]).0 != (
            #[trigger] s[j]).0 by {
                if j == s.len() - 1 {
                    assert(s[i] == r[i]);
                    assert(r.contains(r[i]));
                    lemma_scanned_files_member(init, r[i]);
                    let k = choose|k: int|
                        0 <= k < init.len() && (#[trigger] init[k] is File)
                            && init[k]->File_rel_path@ == r[i].0;
                    assert(items[k] == init[k]);
                    assert(items[items.len() - 1] is File);
                } else {
                    assert(s[i] == r[i] && s[j] == r[j]);
                }
            }
        }
    }
}

/// The bundle of a scan does not depend on the order in which the walk
/// reported what it found: two walks that report the same items, in any
/// order, give the same bundle, when their paths are well formed and no two
/// files share a path. `r1` and `r2` are what `assemble_scan` gives for them.
pub proof fn lemma_scan_bundle_deterministic(
    items1: Seq<ScannedItem>,
    items2: Seq<ScannedItem>,
    r1: ScanResult,
    r2: ScanResult,
)
    requires
        items1.to_multiset() == items2.to_multiset(),
        items_well_formed(items1),
        file_paths_distinct(items1),
        r1.root_node@ == tree_of(dir_map(items1), Seq::empty()),
        file_models(r1.files@) == sort_by_order(scanned_files(items1), file_order()),
        r2.root_node@ == tree_of(dir_map(items2), Seq::empty()),
        file_models(r2.files@) == sort_by_order(scanned_files(items2), file_order()),
    ensures
        bundle_text(r1) == bundle_text(r2),
{
    lemma_scan_tree_deterministic(items1, items2);
    lemma_scanned_files_permutation(items1, items2);
    lemma_scanned_files_distinct(items1);
    lemma_scan_files_deterministic(items1, items2);
    lemma_bundle_text_of_models(r1, r2);
}

/// Whether the walk reported `x` as a file with a name.
pub open spec fn is_named_file(x: ScannedItem) -> bool {
    x is File && file_name_of(x->File_rel_path@) is Some
}

/// The test of `is_named_file`, as a function.
pub open spec fn named_file_test() -> spec_fn(ScannedItem) -> bool {
    |x: ScannedItem| is_named_file(x)
}

/// The path of a reported file and its text, if it has one.
pub open spec fn reported_path_and_text(x: ScannedItem) -> (Seq<char>, Option<Seq<char>>) {
    (x->File_rel_path@, opt_chars(x->File_content))
}

/// The path and text of a reported file, as a function.
pub open spec fn reported_entry() -> spec_fn(ScannedItem) -> (Seq<char>, Option<Seq<char>>) {
    |x: ScannedItem| reported_path_and_text(x)
}

/// The files of a walk are the files it reported with a name, in the order
/// reported, each with its path and text.
proof fn lemma_scanned_files_items(items: Seq<ScannedItem>)
    ensures
        scanned_files(items) == items.filter(named_file_test()).map_values(reported_entry()),
    decreases items.len(),
{
    reveal(Seq::filter);
    if items.len() > 0 {
        let init = items.drop_last();
        lemma_scanned_files_items(init);
        let x = items.last();
        let fi = init.filter(named_file_test());
        if is_named_file(x) {
            assert(items.filter(named_file_test()) == fi.push(x));
            assert(fi.push(x).map_values(reported_entry()) =~= fi.map_values(reported_entry()).push(
                reported_path_and_text(x),
            ));
        } else {
            assert(items.filter(named_file_test()) == fi);
        }
    } else {
        assert(items.filter(named_file_test()).map_values(reported_entry()) =~= Seq::<
            (Seq<char>, Option<Seq<char>>),
        >::empty());
    }
}

/// The files of a scan are those the walk reported: every file reported with
/// a name is there with its path and its text, an empty text as much as any
/// other, and they are, in some order, exactly the files reported with a
/// name, as many times as each was reported.
pub proof fn lemma_scan_files_law(items: Seq<ScannedItem>)
    ensures
        ({
            let fs = sort_by_order(scanned_files(items), file_order());
            let named = items.filter(
                |x: ScannedItem| x is File && file_name_of(x->File_rel_path@) is Some,
            );
            &&& fs.to_multiset() == named.map_values(
                |x: ScannedItem| (x->File_rel_path@, opt_chars(x->File_content)),
            ).to_multiset()
            &&& fs.len() == named.len()
            &&& forall|i: int|
                0 <= i < items.len() && #[trigger] items[i] is File && file_name_of(
                    items[i]->File_rel_path@,
                ) is Some ==> fs.contains(
                    (items[i]->File_rel_path@, opt_chars(items[i]->File_content)),
                )
        }),
{
    broadcast use vstd::seq_lib::to_multiset_contains, vstd::seq_lib::to_multiset_len;

    let sf = scanned_files(items);
    let fs = sort_by_order(sf, file_order());
    lemma_scanned_files_items(items);
    lemma_sort_by_order_permutation(sf, file_order());
    assert((|x: ScannedItem| x is File && file_name_of(x->File_rel_path@) is Some)
        =~= named_file_test());
    assert((|x: ScannedItem| (x->File_rel_path@, opt_chars(x->File_content))) =~= reported_entry());
    let named = items.filter(named_file_test());
    assert(fs.len() == fs.to_multiset().len());
    assert(sf.len() == sf.to_multiset().len());
    assert forall|i: int|
        0 <= i < items.len() && #[trigger] items[i] is File && file_name_of(
            items[i]->File_rel_path@,
        ) is Some implies fs.contains((items[i]->File_rel_path@, opt_chars(items[i]->File_content)))
        by {
        assert(named_file_test()(items[i]));
        items.lemma_filter_contains(named_file_test(), i);
        let j = choose|j: int| 0 <= j < named.len() && named[j] == items[i];
        assert(sf[j] == reported_path_and_text(items[i]));
        assert(sf.contains(reported_path_and_text(items[i])));
        assert(sf.to_multiset().count(reported_path_and_text(items[i])) > 0);
    }
}

} // verus!
