use vstd::prelude::*;

use crate::path::parent_of;
use crate::scanner::{
    add_file, apply_item, dir_map, ensure_ancestors, ensure_dir, files_in, key_index,
    lemma_parent_shorter, parent_or_root, subdir_trees, tree_of, DirModel, ScannedItem,
};
use crate::path::file_name_of;
use crate::tree::{
    lemma_sort_entries_permutation, lemma_sort_tree_idempotent, lemma_sort_trees, sort_entries,
    sort_tree, sort_trees, Node,
};

verus! {

// Every file that the walk reports is in the tree of the scan.

/// `x` is `n` or lies somewhere below it.
pub open spec fn node_contains(n: Node, x: Node) -> bool
    decreases n,
{
    n == x || match n {
        Node::File { .. } => false,
        Node::Directory { children, .. } => exists|i: int|
            0 <= i < children.len() && node_contains(#[trigger] children[i], x),
    }
}

/// Lying below is transitive.
pub proof fn lemma_node_contains_transitive(a: Node, b: Node, c: Node)
    requires
        node_contains(a, b),
        node_contains(b, c),
    ensures
        node_contains(a, c),
    decreases a,
{
    if a != b {
        match a {
            Node::File { .. } => {},
            Node::Directory { children, .. } => {
                let i = choose|i: int| 0 <= i < children.len() && node_contains(#[trigger] children[i], b);
                assert(decreases_to!(a => children[i]));
                lemma_node_contains_transitive(children[i], b, c);
            },
        }
    }
}

/// A node that sorting leaves as it is and that is an entry of a directory is
/// an entry of the sorted directory.
proof fn lemma_sorted_dir_has_entry(name: Seq<char>, rel: Seq<char>, xs: Seq<Node>, y: Node)
    requires
        xs.contains(y),
        sort_tree(y) == y,
    ensures
        node_contains(sort_tree(Node::Directory { name, rel_path: rel, children: xs }), y),
{
    broadcast use vstd::seq_lib::to_multiset_contains;

    let st = sort_trees(xs);
    lemma_sort_trees(xs);
    let k = choose|k: int| 0 <= k < xs.len() && xs[k] == y;
    assert(st[k] == y);
    assert(st.contains(y));
    let e = sort_entries(st);
    lemma_sort_entries_permutation(st);
    assert(st.to_multiset().count(y) > 0);
    assert(e.contains(y));
    let i = choose|i: int| 0 <= i < e.len() && e[i] == y;
    let d = sort_tree(Node::Directory { name, rel_path: rel, children: xs });
    assert(d->Directory_children == e);
    assert(node_contains(e[i], y));
}

/// The tree of a directory is sorted already.
pub proof fn lemma_tree_of_sorted(ms: Seq<DirModel>, rel: Seq<char>)
    ensures
        sort_tree(tree_of(ms, rel)) == tree_of(ms, rel),
{
    lemma_sort_tree_idempotent(
        Node::Directory {
            name: crate::scanner::dir_name_of(rel),
            rel_path: rel,
            children: files_in(ms, rel) + subdir_trees(ms, rel, 0),
        },
    );
}

/// The trees of the directories after index `i` that lie in `rel` include
/// that of the directory at index `j`.
proof fn lemma_subdir_trees_has(ms: Seq<DirModel>, rel: Seq<char>, i: int, j: int)
    requires
        0 <= i <= j < ms.len(),
        parent_of(ms[j].rel_path) == Some(rel),
    ensures
        subdir_trees(ms, rel, i).contains(tree_of(ms, ms[j].rel_path)),
    decreases j - i,
{
    let t = tree_of(ms, ms[j].rel_path);
    if i == j {
        assert(subdir_trees(ms, rel, i) == seq![t] + subdir_trees(ms, rel, i + 1));
        assert(subdir_trees(ms, rel, i)[0] == t);
    } else {
        lemma_subdir_trees_has(ms, rel, i + 1, j);
        let rest = subdir_trees(ms, rel, i + 1);
        let k = choose|k: int| 0 <= k < rest.len() && rest[k] == t;
        let k_ = ms[i].rel_path;
        if parent_of(k_) == Some(rel) {
            assert(subdir_trees(ms, rel, i) == seq![tree_of(ms, k_)] + rest);
            assert(subdir_trees(ms, rel, i)[k + 1] == t);
        } else {
            assert(subdir_trees(ms, rel, i) == rest);
        }
    }
}

/// The directory at index `j` lies in the tree of the directory that holds it.
proof fn lemma_tree_has_subdir(ms: Seq<DirModel>, rel: Seq<char>, j: int)
    requires
        0 <= j < ms.len(),
        parent_of(ms[j].rel_path) == Some(rel),
    ensures
        node_contains(tree_of(ms, rel), tree_of(ms, ms[j].rel_path)),
{
    lemma_subdir_trees_has(ms, rel, 0, j);
    let xs = files_in(ms, rel) + subdir_trees(ms, rel, 0);
    let t = tree_of(ms, ms[j].rel_path);
    let sub = subdir_trees(ms, rel, 0);
    let k = choose|k: int| 0 <= k < sub.len() && sub[k] == t;
    assert(xs[files_in(ms, rel).len() + k] == t);
    assert(xs.contains(t));
    lemma_tree_of_sorted(ms, ms[j].rel_path);
    lemma_sorted_dir_has_entry(crate::scanner::dir_name_of(rel), rel, xs, t);
}

/// A file found directly in a directory lies in its tree.
proof fn lemma_tree_has_file(ms: Seq<DirModel>, rel: Seq<char>, f: Node)
    requires
        files_in(ms, rel).contains(f),
        f is File,
    ensures
        node_contains(tree_of(ms, rel), f),
{
    let xs = files_in(ms, rel) + subdir_trees(ms, rel, 0);
    let k = choose|k: int| 0 <= k < files_in(ms, rel).len() && files_in(ms, rel)[k] == f;
    assert(xs[k] == f);
    assert(xs.contains(f));
    lemma_sorted_dir_has_entry(crate::scanner::dir_name_of(rel), rel, xs, f);
}

/// `key_index` finds the first directory with path `k`.
pub proof fn lemma_key_index(ms: Seq<DirModel>, k: Seq<char>)
    ensures
        -1 <= key_index(ms, k) < ms.len(),
        key_index(ms, k) >= 0 ==> ms[key_index(ms, k)].rel_path == k && forall|l: int|
            0 <= l < key_index(ms, k) ==> #[trigger] ms[l].rel_path != k,
        key_index(ms, k) < 0 ==> forall|l: int| 0 <= l < ms.len() ==> #[trigger] ms[l].rel_path != k,
    decreases ms.len(),
{
    if ms.len() > 0 {
        lemma_key_index(ms.drop_last(), k);
        assert(forall|l: int| 0 <= l < ms.len() - 1 ==> ms.drop_last()[l] == #[trigger] ms[l]);
    }
}

/// The directory `p` and every directory above it, but the root, are in `ms`.
pub open spec fn chain_present(ms: Seq<DirModel>, p: Seq<char>) -> bool
    decreases p.len(),
{
    if p.len() == 0 {
        true
    } else {
        proof {
            lemma_parent_shorter(p);
        }
        key_index(ms, p) >= 0 && chain_present(ms, parent_or_root(p))
    }
}

/// A directory lies in the tree of the root when it and every directory
/// above it are there.
proof fn lemma_root_has_chain(ms: Seq<DirModel>, p: Seq<char>)
    requires
        chain_present(ms, p),
    ensures
        node_contains(tree_of(ms, Seq::empty()), tree_of(ms, p)),
    decreases p.len(),
{
    if p.len() == 0 {
        assert(p == Seq::<char>::empty());
    } else {
        let q = parent_or_root(p);
        lemma_parent_shorter(p);
        lemma_root_has_chain(ms, q);
        lemma_key_index(ms, p);
        let j = key_index(ms, p);
        lemma_tree_has_subdir(ms, q, j);
        lemma_node_contains_transitive(tree_of(ms, Seq::empty()), tree_of(ms, q), tree_of(ms, p));
    }
}

/// `ms2` keeps every directory of `ms` at its place, with the files it had
/// still first among its files.
pub open spec fn grows(ms: Seq<DirModel>, ms2: Seq<DirModel>) -> bool {
    &&& ms.len() <= ms2.len()
    &&& forall|j: int|
        0 <= j < ms.len() ==> (#[trigger] ms2[j]).rel_path == ms[j].rel_path && ms[j].files.len()
            <= ms2[j].files.len() && ms2[j].files.take(ms[j].files.len() as int) == ms[j].files
}

/// Growing keeps where directories are found.
proof fn lemma_grows_key_index(ms: Seq<DirModel>, ms2: Seq<DirModel>, k: Seq<char>)
    requires
        grows(ms, ms2),
        key_index(ms, k) >= 0,
    ensures
        key_index(ms2, k) == key_index(ms, k),
{
    lemma_key_index(ms, k);
    lemma_key_index(ms2, k);
    let j = key_index(ms, k);
    assert(ms2[j].rel_path == k);
    if key_index(ms2, k) < j {
        let l = key_index(ms2, k);
        assert(ms2[l].rel_path == ms[l].rel_path);
    }
}

/// Growing keeps the chain of directories above `p`.
proof fn lemma_grows_chain(ms: Seq<DirModel>, ms2: Seq<DirModel>, p: Seq<char>)
    requires
        grows(ms, ms2),
        chain_present(ms, p),
    ensures
        chain_present(ms2, p),
    decreases p.len(),
{
    if p.len() > 0 {
        lemma_parent_shorter(p);
        lemma_grows_key_index(ms, ms2, p);
        lemma_grows_chain(ms, ms2, parent_or_root(p));
    }
}

/// Growing keeps the files of a directory.
proof fn lemma_grows_files(ms: Seq<DirModel>, ms2: Seq<DirModel>, k: Seq<char>, f: Node)
    requires
        grows(ms, ms2),
        files_in(ms, k).contains(f),
    ensures
        files_in(ms2, k).contains(f),
{
    if key_index(ms, k) < 0 {
        assert(files_in(ms, k).len() == 0);
    }
    lemma_key_index(ms, k);
    lemma_grows_key_index(ms, ms2, k);
    let j = key_index(ms, k);
    let i = choose|i: int| 0 <= i < ms[j].files.len() && ms[j].files[i] == f;
    assert(ms2[j].files.take(ms[j].files.len() as int)[i] == f);
    assert(ms2[j].files[i] == f);
    assert(files_in(ms2, k) == ms2[j].files);
}

/// Growing is transitive.
proof fn lemma_grows_transitive(a: Seq<DirModel>, b: Seq<DirModel>, c: Seq<DirModel>)
    requires
        grows(a, b),
        grows(b, c),
    ensures
        grows(a, c),
{
    assert forall|j: int| 0 <= j < a.len() implies (#[trigger] c[j]).rel_path == a[j].rel_path
        && a[j].files.len() <= c[j].files.len() && c[j].files.take(a[j].files.len() as int)
        == a[j].files by {
        assert(c[j].files.take(b[j].files.len() as int) == b[j].files);
        assert(c[j].files.take(a[j].files.len() as int) =~= c[j].files.take(
            b[j].files.len() as int,
        ).take(a[j].files.len() as int));
    }
}

/// Adding a directory grows the directories and puts it among them.
proof fn lemma_ensure_dir(ms: Seq<DirModel>, k: Seq<char>)
    ensures
        grows(ms, ensure_dir(ms, k)),
        key_index(ensure_dir(ms, k), k) >= 0,
{
    lemma_key_index(ms, k);
    let ms2 = ensure_dir(ms, k);
    assert forall|j: int| 0 <= j < ms.len() implies (#[trigger] ms2[j]).rel_path == ms[j].rel_path
        && ms[j].files.len() <= ms2[j].files.len() && ms2[j].files.take(ms[j].files.len() as int)
        == ms[j].files by {
        assert(ms2[j] == ms[j]);
        assert(ms[j].files.take(ms[j].files.len() as int) =~= ms[j].files);
    }
    if key_index(ms, k) < 0 {
        assert(ms2.drop_last() == ms);
        assert(key_index(ms2, k) == ms.len());
    }
}

/// Adding a directory and those above it grows the directories and puts the
/// whole chain among them.
proof fn lemma_ensure_ancestors(ms: Seq<DirModel>, p: Seq<char>)
    ensures
        grows(ms, ensure_ancestors(ms, p)),
        chain_present(ensure_ancestors(ms, p), p),
    decreases p.len(),
{
    if p.len() == 0 {
        assert forall|j: int| 0 <= j < ms.len() implies (#[trigger] ms[j]).rel_path
            == ms[j].rel_path && ms[j].files.len() <= ms[j].files.len() && ms[j].files.take(
            ms[j].files.len() as int,
        ) == ms[j].files by {
            assert(ms[j].files.take(ms[j].files.len() as int) =~= ms[j].files);
        }
    } else {
        lemma_parent_shorter(p);
        let ms1 = ensure_dir(ms, p);
        lemma_ensure_dir(ms, p);
        let q = parent_or_root(p);
        lemma_ensure_ancestors(ms1, q);
        let ms2 = ensure_ancestors(ms1, q);
        assert(ms2 == ensure_ancestors(ms, p));
        lemma_grows_transitive(ms, ms1, ms2);
        lemma_grows_key_index(ms1, ms2, p);
    }
}

/// Adding a file to a directory grows the directories and puts it among the
/// files of that directory.
proof fn lemma_add_file(ms: Seq<DirModel>, k: Seq<char>, f: Node)
    requires
        key_index(ms, k) >= 0,
    ensures
        grows(ms, add_file(ms, k, f)),
        files_in(add_file(ms, k, f), k).contains(f),
{
    lemma_key_index(ms, k);
    let i = key_index(ms, k);
    let ms2 = add_file(ms, k, f);
    assert forall|j: int| 0 <= j < ms.len() implies (#[trigger] ms2[j]).rel_path == ms[j].rel_path
        && ms[j].files.len() <= ms2[j].files.len() && ms2[j].files.take(ms[j].files.len() as int)
        == ms[j].files by {
        if j == i {
            assert(ms[j].files.push(f).take(ms[j].files.len() as int) =~= ms[j].files);
        } else {
            assert(ms[j].files.take(ms[j].files.len() as int) =~= ms[j].files);
        }
    }
    lemma_grows_key_index(ms, ms2, k);
    assert(ms2[i].files[ms[i].files.len() as int] == f);
}

/// Taking in an item grows the directories.
proof fn lemma_apply_item_grows(ms: Seq<DirModel>, item: ScannedItem)
    ensures
        grows(ms, apply_item(ms, item)),
{
    match item {
        ScannedItem::Dir(p) => {
            lemma_ensure_dir(ms, p@);
            if file_name_of(p@) is None {
                assert forall|j: int| 0 <= j < ms.len() implies (#[trigger] ms[j]).rel_path
                    == ms[j].rel_path && ms[j].files.len() <= ms[j].files.len()
                    && ms[j].files.take(ms[j].files.len() as int) == ms[j].files by {
                    assert(ms[j].files.take(ms[j].files.len() as int) =~= ms[j].files);
                }
            }
        },
        ScannedItem::File { rel_path, content } => {
            match file_name_of(rel_path@) {
                None => {
                    assert forall|j: int| 0 <= j < ms.len() implies (#[trigger] ms[j]).rel_path
                        == ms[j].rel_path && ms[j].files.len() <= ms[j].files.len()
                        && ms[j].files.take(ms[j].files.len() as int) == ms[j].files by {
                        assert(ms[j].files.take(ms[j].files.len() as int) =~= ms[j].files);
                    }
                },
                Some(name) => {
                    let par = parent_or_root(rel_path@);
                    let ms1 = ensure_ancestors(ms, par);
                    lemma_ensure_ancestors(ms, par);
                    let ms2 = ensure_dir(ms1, par);
                    lemma_ensure_dir(ms1, par);
                    let f = Node::File { name, rel_path: rel_path@, is_binary: content is None };
                    lemma_add_file(ms2, par, f);
                    lemma_grows_transitive(ms, ms1, ms2);
                    lemma_grows_transitive(ms, ms2, add_file(ms2, par, f));
                },
            }
        },
    }
}

/// The node of a reported file, when it has a name.
pub open spec fn reported_file(item: ScannedItem) -> Option<(Seq<char>, Node)> {
    match item {
        ScannedItem::File { rel_path, content } => match file_name_of(rel_path@) {
            Some(name) => Some(
                (parent_or_root(rel_path@), Node::File { name, rel_path: rel_path@, is_binary: content is None }),
            ),
            None => None,
        },
        ScannedItem::Dir(_) => None,
    }
}

/// After the items, each file reported with a name is among the files of
/// the directory that holds it, and that directory and those above it are
/// there.
proof fn lemma_dir_map_has_file(items: Seq<ScannedItem>, i: int)
    requires
        0 <= i < items.len(),
        reported_file(items[i]) is Some,
    ensures
        chain_present(dir_map(items), (reported_file(items[i])->0).0),
        files_in(dir_map(items), (reported_file(items[i])->0).0).contains(
            (reported_file(items[i])->0).1,
        ),
    decreases items.len(),
{
    let (par, f) = reported_file(items[i])->0;
    let init = items.drop_last();
    if i < items.len() - 1 {
        assert(init[i] == items[i]);
        lemma_dir_map_has_file(init, i);
        lemma_apply_item_grows(dir_map(init), items.last());
        lemma_grows_chain(dir_map(init), dir_map(items), par);
        lemma_grows_files(dir_map(init), dir_map(items), par, f);
    } else {
        let ms = dir_map(init);
        let ms1 = ensure_ancestors(ms, par);
        lemma_ensure_ancestors(ms, par);
        let ms2 = ensure_dir(ms1, par);
        lemma_ensure_dir(ms1, par);
        lemma_add_file(ms2, par, f);
        lemma_grows_chain(ms1, ms2, par);
        lemma_grows_chain(ms2, add_file(ms2, par, f), par);
        assert(dir_map(items) == add_file(ms2, par, f));
    }
}

/// Every file that the walk reports with a name lies in the tree of the scan.
pub proof fn lemma_scan_tree_has_every_file(items: Seq<ScannedItem>, i: int)
    requires
        0 <= i < items.len(),
        reported_file(items[i]) is Some,
    ensures
        node_contains(tree_of(dir_map(items), Seq::empty()), (reported_file(items[i])->0).1),
{
    let (par, f) = reported_file(items[i])->0;
    let ms = dir_map(items);
    lemma_dir_map_has_file(items, i);
    lemma_root_has_chain(ms, par);
    lemma_tree_has_file(ms, par, f);
    lemma_node_contains_transitive(tree_of(ms, Seq::empty()), tree_of(ms, par), f);
}


/// The walk reported the directory `a`, under a path that has a name.
pub open spec fn dir_reported(items: Seq<ScannedItem>, a: Seq<char>) -> bool {
    &&& file_name_of(a) is Some
    &&& exists|i: int| 0 <= i < items.len() && (#[trigger] items[i] matches ScannedItem::Dir(s) && s@ == a)
}

/// The walk reported `p` and every directory above it, but the root.
pub open spec fn reported_with_ancestors(items: Seq<ScannedItem>, p: Seq<char>) -> bool
    decreases p.len(),
{
    if p.len() == 0 {
        true
    } else {
        proof {
            lemma_parent_shorter(p);
        }
        dir_reported(items, p) && reported_with_ancestors(items, parent_or_root(p))
    }
}

/// A reported directory is among the directories of the scan.
proof fn lemma_dir_map_has_dir(items: Seq<ScannedItem>, a: Seq<char>)
    requires
        dir_reported(items, a),
    ensures
        key_index(dir_map(items), a) >= 0,
    decreases items.len(),
{
    let i = choose|i: int|
        0 <= i < items.len() && (#[trigger] items[i] matches ScannedItem::Dir(s) && s@ == a);
    let init = items.drop_last();
    if i < items.len() - 1 {
        assert(init[i] == items[i]);
        lemma_dir_map_has_dir(init, a);
        lemma_apply_item_grows(dir_map(init), items.last());
        lemma_grows_key_index(dir_map(init), dir_map(items), a);
    } else {
        lemma_ensure_dir(dir_map(init), a);
    }
}

/// When the walk reported a directory and those above it, they are all
/// among the directories of the scan.
proof fn lemma_dir_map_has_chain(items: Seq<ScannedItem>, p: Seq<char>)
    requires
        reported_with_ancestors(items, p),
    ensures
        chain_present(dir_map(items), p),
    decreases p.len(),
{
    if p.len() > 0 {
        lemma_parent_shorter(p);
        lemma_dir_map_has_dir(items, p);
        lemma_dir_map_has_chain(items, parent_or_root(p));
    }
}

/// A directory that the walk reported, together with those above it, lies
/// in the tree of the scan, as the directory at that path.
pub proof fn lemma_scan_tree_has_reported_dir(items: Seq<ScannedItem>, p: Seq<char>)
    requires
        reported_with_ancestors(items, p),
    ensures
        node_contains(tree_of(dir_map(items), Seq::empty()), tree_of(dir_map(items), p)),
        tree_of(dir_map(items), p) is Directory,
        tree_of(dir_map(items), p)->Directory_rel_path == p,
{
    lemma_dir_map_has_chain(items, p);
    lemma_root_has_chain(dir_map(items), p);
    crate::scanner::lemma_tree_of_shape(dir_map(items), p);
}

} // verus!
