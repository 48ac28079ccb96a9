use vstd::prelude::*;

use crate::path::{file_name, file_name_of, last_index_of, parent, parent_of};
use crate::sorting::{
    lemma_insert_by_at, lemma_sort_by_order_permutation, lemma_sort_by_order_sorted,
    lemma_sorted_before_later,
    lemma_sort_by_order_deterministic, lemma_sort_by_order_stable, ordered_when_different,
    sort_by_order, sorted_by, strict_weak_order, unordered_with,
};
use crate::cli::Cli;
use vstd::utf8::{decode_utf8, valid_utf8};
use crate::text::{
    chars_of, lemma_ranked_lt_irreflexive, lemma_ranked_lt_total, lemma_ranked_lt_transitive,
    path_less, path_lt,
};
use crate::tree::{lemma_sort_tree_sorted, nodes_view, sort_tree, tree_sorted, FileNode, Node};

verus! {

/// A file found by the scan: its path relative to the scanned root, and its
/// text, or `None` when it is binary or was skipped.
pub struct ScannedFile {
    pub rel_path: String,
    pub content: Option<String>,
}

/// What a scan found: the tree of the scanned directory and its files.
pub struct ScanResult {
    pub root_node: FileNode,
    pub files: Vec<ScannedFile>,
}

// ---------------------------------------------------------------------------
// The tree of the scanned directories
// ---------------------------------------------------------------------------

/// A file that goes into the tree.
pub struct FileEntry {
    pub name: String,
    pub rel_path: String,
    pub is_binary: bool,
}

/// A directory found by the scan, with the files found directly in it.
pub struct DirEntry {
    pub rel_path: String,
    pub files: Vec<FileEntry>,
}

/// The model of a directory found by the scan: its path and its files.
pub struct DirModel {
    pub rel_path: Seq<char>,
    pub files: Seq<Node>,
}

/// The tree node of a file.
pub open spec fn file_node(f: FileEntry) -> Node {
    Node::File { name: f.name@, rel_path: f.rel_path@, is_binary: f.is_binary }
}

/// The model of a directory entry.
pub open spec fn dir_model(e: DirEntry) -> DirModel {
    DirModel { rel_path: e.rel_path@, files: e.files@.map_values(|f: FileEntry| file_node(f)) }
}

/// The models of directory entries.
pub open spec fn dir_models(es: Seq<DirEntry>) -> Seq<DirModel> {
    es.map_values(|e: DirEntry| dir_model(e))
}

/// The length of the longest directory path.
pub open spec fn max_key_len(ms: Seq<DirModel>) -> int
    decreases ms.len(),
{
    if ms.len() == 0 {
        0
    } else {
        let m = max_key_len(ms.drop_last());
        let l = ms.last().rel_path.len() as int;
        if l > m {
            l
        } else {
            m
        }
    }
}

/// No directory path is longer than `max_key_len`.
pub proof fn lemma_max_key_len(ms: Seq<DirModel>, j: int)
    requires
        0 <= j < ms.len(),
    ensures
        ms[j].rel_path.len() <= max_key_len(ms),
        max_key_len(ms) >= 0,
    decreases ms.len(),
{
    if j < ms.len() - 1 {
        lemma_max_key_len(ms.drop_last(), j);
    } else if ms.len() > 1 {
        lemma_max_key_len(ms.drop_last(), 0);
    }
}

/// A directory's path is longer than the path of the directory that holds it.
pub proof fn lemma_parent_shorter(p: Seq<char>)
    ensures
        parent_of(p) matches Some(q) ==> q.len() < p.len(),
    decreases p.len(),
{
    if p.len() > 0 && last_index_of(p, '/') >= 0 {
        lemma_last_index_of_bound(p, '/');
    }
}

/// `last_index_of` finds an index of `s`.
pub proof fn lemma_last_index_of_bound(s: Seq<char>, c: char)
    ensures
        -1 <= last_index_of(s, c) < s.len(),
        last_index_of(s, c) >= 0 ==> s[last_index_of(s, c)] == c,
    decreases s.len(),
{
    if s.len() > 0 && s.last() != c {
        lemma_last_index_of_bound(s.drop_last(), c);
    }
}

/// The index of the first directory with path `k`, or -1.
pub open spec fn key_index(ms: Seq<DirModel>, k: Seq<char>) -> int
    decreases ms.len(),
{
    if ms.len() == 0 {
        -1
    } else if key_index(ms.drop_last(), k) >= 0 {
        key_index(ms.drop_last(), k)
    } else if ms.last().rel_path == k {
        ms.len() - 1
    } else {
        -1
    }
}

/// The files found directly in the directory `rel`.
pub open spec fn files_in(ms: Seq<DirModel>, rel: Seq<char>) -> Seq<Node> {
    if key_index(ms, rel) >= 0 {
        ms[key_index(ms, rel)].files
    } else {
        Seq::empty()
    }
}

/// The name of the directory `rel`: its last component, `.` for the root.
pub open spec fn dir_name_of(rel: Seq<char>) -> Seq<char> {
    if rel.len() == 0 {
        "."@
    } else {
        match file_name_of(rel) {
            Some(n) => n,
            None => "."@,
        }
    }
}

/// The tree of the directory `rel`: its files and the trees of the
/// directories directly in it, sorted at every level.
pub open spec fn tree_of(ms: Seq<DirModel>, rel: Seq<char>) -> Node
    decreases max_key_len(ms) - rel.len(), ms.len() + 1,
{
    sort_tree(
        Node::Directory {
            name: dir_name_of(rel),
            rel_path: rel,
            children: files_in(ms, rel) + subdir_trees(ms, rel, 0),
        },
    )
}

/// The trees of the directories among `ms[j..]` that lie directly in `rel`.
pub open spec fn subdir_trees(ms: Seq<DirModel>, rel: Seq<char>, j: int) -> Seq<Node>
    decreases max_key_len(ms) - rel.len(), ms.len() - j,
{
    if j < 0 || j >= ms.len() {
        Seq::empty()
    } else {
        let k = ms[j].rel_path;
        let rest = subdir_trees(ms, rel, j + 1);
        if parent_of(k) == Some(rel) {
            proof {
                lemma_max_key_len(ms, j);
                lemma_parent_shorter(k);
            }
            seq![tree_of(ms, k)] + rest
        } else {
            rest
        }
    }
}


/// Finding a directory in a prefix finds it in the whole sequence.
proof fn lemma_key_index_prefix(ms: Seq<DirModel>, t: int, k: Seq<char>)
    requires
        0 <= t <= ms.len(),
        key_index(ms.take(t), k) >= 0,
    ensures
        key_index(ms, k) == key_index(ms.take(t), k),
    decreases ms.len() - t,
{
    if t < ms.len() {
        assert(ms.take(t + 1).drop_last() == ms.take(t));
        lemma_key_index_prefix(ms, t + 1, k);
    } else {
        assert(ms.take(t) == ms);
    }
}

/// Where the directory `rel_path` is among `dir_entries`.
fn find_dir(dir_entries: &Vec<DirEntry>, rel_path: &String) -> (r: Option<usize>)
    ensures
        match r {
            Some(i) => i < dir_entries@.len() && i == key_index(
                dir_models(dir_entries@),
                rel_path@,
            ),
            None => key_index(dir_models(dir_entries@), rel_path@) == -1,
        },
{
    let ghost ms = dir_models(dir_entries@);
    let n = dir_entries.len();
    assert(ms.take(0).len() == 0);
    for j in 0..n
        invariant
            n == dir_entries@.len(),
            ms == dir_models(dir_entries@),
            key_index(ms.take(j as int), rel_path@) == -1,
    {
        assert(ms.take(j + 1).drop_last() == ms.take(j as int));
        if dir_entries[j].rel_path == *rel_path {
            assert(key_index(ms.take(j + 1), rel_path@) == j);
            proof {
                lemma_key_index_prefix(ms, j + 1, rel_path@);
            }
            return Some(j);
        }
    }
    assert(ms.take(n as int) == ms);
    None
}

/// The name of the directory `rel_path`: its last component, `.` for the root.
fn dir_name(rel_path: &String) -> (r: String)
    ensures
        r@ == dir_name_of(rel_path@),
{
    if rel_path.as_str().is_empty() {
        ".".to_owned()
    } else {
        match file_name(rel_path.as_str()) {
            Some(n) => n,
            None => ".".to_owned(),
        }
    }
}

/// The length of the longest path among `dir_entries`, in characters.
fn longest_dir_path(dir_entries: &Vec<DirEntry>) -> (r: usize)
    ensures
        r == max_key_len(dir_models(dir_entries@)),
{
    let ghost ms = dir_models(dir_entries@);
    let mut m: usize = 0;
    let n = dir_entries.len();
    assert(ms.take(0) =~= Seq::<DirModel>::empty());
    for j in 0..n
        invariant
            n == dir_entries@.len(),
            ms == dir_models(dir_entries@),
            m == max_key_len(ms.take(j as int)),
    {
        assert(ms.take(j + 1).drop_last() == ms.take(j as int));
        let l = dir_entries[j].rel_path.as_str().unicode_len();
        if l > m {
            m = l;
        }
    }
    assert(ms.take(n as int) == ms);
    m
}

/// Builds the tree of the directory `rel_path` from the directories found by
/// the scan: its files, then the trees of the directories directly in it,
/// sorted at every level.
fn build_node_tree(rel_path: &String, dir_entries: &Vec<DirEntry>, bound: usize) -> (node: FileNode)
    requires
        bound == max_key_len(dir_models(dir_entries@)),
    ensures
        node@ == tree_of(dir_models(dir_entries@), rel_path@),
    decreases bound - rel_path@.len(),
{
    let ghost ms = dir_models(dir_entries@);
    let ghost rel = rel_path@;
    let mut children: Vec<FileNode> = Vec::new();
    match find_dir(dir_entries, rel_path) {
        Some(i) => {
            let files = &dir_entries[i].files;
            let ghost fs = ms[i as int].files;
            assert(fs == files@.map_values(|f: FileEntry| file_node(f)));
            for k in 0..files.len()
                invariant
                    fs == files@.map_values(|f: FileEntry| file_node(f)),
                    nodes_view(children@) == fs.take(k as int),
            {
                let f = &files[k];
                let node = FileNode::File {
                    name: f.name.clone(),
                    rel_path: f.rel_path.clone(),
                    is_binary: f.is_binary,
                };
                let ghost before = children@;
                assert(node@ == fs[k as int]);
                children.push(node);
                assert(children@.subrange(0, children@.len() - 1) == before);
                assert(nodes_view(children@) == nodes_view(before).push(fs[k as int]));
                assert(fs.take(k + 1) == fs.take(k as int).push(fs[k as int]));
            }
            assert(fs.take(files@.len() as int) == fs);
        },
        None => {
            assert(nodes_view(children@) == Seq::<Node>::empty());
        },
    }
    let ghost head = nodes_view(children@);
    assert(head == files_in(ms, rel));
    let n = dir_entries.len();
    for j in 0..n
        invariant
            n == dir_entries@.len(),
            ms == dir_models(dir_entries@),
            rel == rel_path@,
            bound == max_key_len(ms),
            nodes_view(children@) + subdir_trees(ms, rel, j as int) == head + subdir_trees(
                ms,
                rel,
                0,
            ),
    {
        let key = &dir_entries[j].rel_path;
        let ghost before = children@;
        let is_child = match parent(key.as_str()) {
            Some(p) => p == *rel_path,
            None => false,
        };
        if is_child {
            proof {
                lemma_max_key_len(ms, j as int);
                lemma_parent_shorter(key@);
            }
            let child = build_node_tree(key, dir_entries, bound);
            children.push(child);
            assert(children@.subrange(0, children@.len() - 1) == before);
            assert(nodes_view(children@) == nodes_view(before).push(child@));
            assert(nodes_view(before) + subdir_trees(ms, rel, j as int) == nodes_view(children@)
                + subdir_trees(ms, rel, j + 1));
        }
    }
    assert(nodes_view(children@) + Seq::<Node>::empty() == nodes_view(children@));
    let name = dir_name(rel_path);
    let mut node = FileNode::Directory { name, rel_path: rel_path.clone(), children };
    node.sort_children();
    node
}


// ---------------------------------------------------------------------------
// Putting together what the walk of the directory found
// ---------------------------------------------------------------------------

/// What the walk reports of one entry below the scanned root: a directory,
/// or a file with its text as reading it gave it (see `classify_content`),
/// `None` when it is binary or was skipped. The tree marks a file binary
/// exactly when it has no text.
pub enum ScannedItem {
    Dir(String),
    File { rel_path: String, content: Option<String> },
}

/// `ms` with the directory `k` in it.
pub open spec fn ensure_dir(ms: Seq<DirModel>, k: Seq<char>) -> Seq<DirModel> {
    if key_index(ms, k) >= 0 {
        ms
    } else {
        ms.push(DirModel { rel_path: k, files: Seq::empty() })
    }
}

/// `ms` with the directory `p` and every directory above it in it, but the
/// root.
pub open spec fn ensure_ancestors(ms: Seq<DirModel>, p: Seq<char>) -> Seq<DirModel>
    decreases p.len(),
{
    if p.len() == 0 {
        ms
    } else {
        match parent_of(p) {
            Some(q) => {
                proof {
                    lemma_parent_shorter(p);
                }
                ensure_ancestors(ensure_dir(ms, p), q)
            },
            None => ensure_dir(ms, p),
        }
    }
}

/// The directory that holds the entry at `p`, the root for a single component.
pub open spec fn parent_or_root(p: Seq<char>) -> Seq<char> {
    match parent_of(p) {
        Some(q) => q,
        None => Seq::empty(),
    }
}

/// `ms` with `f` added to the files of the directory `k`.
pub open spec fn add_file(ms: Seq<DirModel>, k: Seq<char>, f: Node) -> Seq<DirModel> {
    let i = key_index(ms, k);
    if i >= 0 {
        ms.update(i, DirModel { rel_path: ms[i].rel_path, files: ms[i].files.push(f) })
    } else {
        ms
    }
}

/// The directories after taking in one more item of the walk. Entries
/// without a file name are passed over.
pub open spec fn apply_item(ms: Seq<DirModel>, item: ScannedItem) -> Seq<DirModel> {
    match item {
        ScannedItem::Dir(p) => if file_name_of(p@) is Some {
            ensure_dir(ms, p@)
        } else {
            ms
        },
        ScannedItem::File { rel_path, content } => match file_name_of(rel_path@) {
            None => ms,
            Some(name) => {
                let par = parent_or_root(rel_path@);
                add_file(
                    ensure_dir(ensure_ancestors(ms, par), par),
                    par,
                    Node::File { name, rel_path: rel_path@, is_binary: content is None },
                )
            },
        },
    }
}

/// The directories, each with its files, that the items of a walk make up:
/// the root, every directory reported, and every directory above a file.
pub open spec fn dir_map(items: Seq<ScannedItem>) -> Seq<DirModel>
    decreases items.len(),
{
    if items.len() == 0 {
        seq![DirModel { rel_path: Seq::empty(), files: Seq::empty() }]
    } else {
        apply_item(dir_map(items.drop_last()), items.last())
    }
}

/// The model of a scanned file: its path and its text.
pub open spec fn file_model(f: ScannedFile) -> (Seq<char>, Option<Seq<char>>) {
    (
        f.rel_path@,
        match f.content {
            Some(t) => Some(t@),
            None => None,
        },
    )
}

/// The files that the items of a walk report, in the order reported.
pub open spec fn scanned_files(items: Seq<ScannedItem>) -> Seq<(Seq<char>, Option<Seq<char>>)>
    decreases items.len(),
{
    if items.len() == 0 {
        Seq::empty()
    } else {
        let init = scanned_files(items.drop_last());
        match items.last() {
            ScannedItem::File { rel_path, content, .. } => if file_name_of(rel_path@) is Some {
                init.push(
                    (
                        rel_path@,
                        match content {
                            Some(t) => Some(t@),
                            None => None,
                        },
                    ),
                )
            } else {
                init
            },
            ScannedItem::Dir(_) => init,
        }
    }
}

/// Files ordered by path, as `Path`'s `Ord` orders them.
pub open spec fn file_order() -> spec_fn((Seq<char>, Option<Seq<char>>), (Seq<char>, Option<Seq<char>>)) -> bool {
    |a: (Seq<char>, Option<Seq<char>>), b: (Seq<char>, Option<Seq<char>>)| path_lt(a.0, b.0)
}

/// Makes sure the directory `rel_path` is among `dirs`; gives its index.
fn ensure_dir_entry(dirs: &mut Vec<DirEntry>, rel_path: &String) -> (i: usize)
    ensures
        dir_models(final(dirs)@) == ensure_dir(dir_models(old(dirs)@), rel_path@),
        i < final(dirs)@.len(),
        i == key_index(dir_models(final(dirs)@), rel_path@),
{
    match find_dir(dirs, rel_path) {
        Some(i) => i,
        None => {
            let ghost ms = dir_models(dirs@);
            dirs.push(DirEntry { rel_path: rel_path.clone(), files: Vec::new() });
            let ghost ms2 = dir_models(dirs@);
            assert(ms2 == ms.push(DirModel { rel_path: rel_path@, files: Seq::empty() })) by {
                let last = dirs@[dirs@.len() - 1];
                assert(last.files@.map_values(|f: FileEntry| file_node(f)) =~= Seq::<Node>::empty());
                assert(ms2.last() == DirModel { rel_path: rel_path@, files: Seq::empty() });
                assert(ms2.drop_last() =~= ms);
                assert(ms2 =~= ms2.drop_last().push(ms2.last()));
            }
            assert(ms2.drop_last() == ms);
            dirs.len() - 1
        },
    }
}

/// Makes sure `rel_path` and every directory above it, but the root, are
/// among `dirs`.
fn ensure_ancestor_entries(dirs: &mut Vec<DirEntry>, rel_path: &String)
    ensures
        dir_models(final(dirs)@) == ensure_ancestors(dir_models(old(dirs)@), rel_path@),
{
    let ghost target = ensure_ancestors(dir_models(dirs@), rel_path@);
    let mut current = rel_path.clone();
    while !current.as_str().is_empty()
        invariant
            target == ensure_ancestors(dir_models(dirs@), current@),
        decreases current@.len(),
    {
        ensure_dir_entry(dirs, &current);
        proof {
            lemma_parent_shorter(current@);
        }
        current = match parent(current.as_str()) {
            Some(p) => p,
            None => String::new(),
        };
    }
}

/// Adds `f` to the files of the directory at index `i`.
fn add_file_entry(dirs: &mut Vec<DirEntry>, i: usize, f: FileEntry)
    requires
        i < old(dirs)@.len(),
    ensures
        dir_models(final(dirs)@) == dir_models(old(dirs)@).update(
            i as int,
            DirModel {
                rel_path: dir_models(old(dirs)@)[i as int].rel_path,
                files: dir_models(old(dirs)@)[i as int].files.push(file_node(f)),
            },
        ),
{
    let ghost ms = dir_models(dirs@);
    let ghost fv = file_node(f);
    let mut e = dirs.remove(i);
    let ghost old_files = e.files@;
    e.files.push(f);
    assert(e.files@.map_values(|g: FileEntry| file_node(g)) =~= old_files.map_values(
        |g: FileEntry| file_node(g),
    ).push(fv));
    dirs.insert(i, e);
    assert(dir_models(dirs@) =~= ms.update(
        i as int,
        DirModel { rel_path: ms[i as int].rel_path, files: ms[i as int].files.push(fv) },
    ));
}


/// The models of scanned files.
pub open spec fn file_models(fs: Seq<ScannedFile>) -> Seq<(Seq<char>, Option<Seq<char>>)> {
    fs.map_values(|f: ScannedFile| file_model(f))
}

/// Sorts files by path, keeping the order of files with the same path.
fn sort_files_by_path(files: Vec<ScannedFile>) -> (r: Vec<ScannedFile>)
    ensures
        file_models(r@) == sort_by_order(file_models(files@), file_order()),
{
    let ghost m = file_models(files@);
    let mut sorted: Vec<ScannedFile> = Vec::new();
    proof {
        lemma_file_order();
    }
    assert(m.take(0) =~= Seq::<(Seq<char>, Option<Seq<char>>)>::empty());
    assert(file_models(sorted@) =~= Seq::<(Seq<char>, Option<Seq<char>>)>::empty());
    for f in it: files
        invariant
            it.seq() == files@,
            m == file_models(files@),
            strict_weak_order(file_order()),
            file_models(sorted@) == sort_by_order(m.take(it.index() as int), file_order()),
    {
        let ghost i = it.index();
        let ghost sv = file_models(sorted@);
        let ghost fm = file_model(f);
        assert(fm == m[i]);
        proof {
            lemma_sort_by_order_sorted(m.take(i), file_order());
        }
        // The first place where `f` comes before the file there.
        let mut lo: usize = 0;
        let mut hi: usize = sorted.len();
        while lo < hi
            invariant
                lo <= hi <= sorted@.len(),
                sv == file_models(sorted@),
                sorted_by(sv, file_order()),
                strict_weak_order(file_order()),
                fm == file_model(f),
                forall|j: int| 0 <= j < lo ==> !file_order()(fm, #[trigger] sv[j]),
                forall|j: int| hi <= j < sv.len() ==> file_order()(fm, #[trigger] sv[j]),
            decreases hi - lo,
        {
            let mid = lo + (hi - lo) / 2;
            assert(sv[mid as int] == file_model(sorted@[mid as int]));
            if path_less(f.rel_path.as_str(), sorted[mid].rel_path.as_str()) {
                proof {
                    assert forall|j: int| mid <= j < sv.len() implies file_order()(
                        fm,
                        #[trigger] sv[j],
                    ) by {
                        lemma_sorted_before_later(sv, file_order(), fm, mid as int, j);
                    }
                }
                hi = mid;
            } else {
                proof {
                    assert forall|j: int| 0 <= j < mid + 1 implies !file_order()(
                        fm,
                        #[trigger] sv[j],
                    ) by {
                        if file_order()(fm, sv[j]) {
                            lemma_sorted_before_later(sv, file_order(), fm, j, mid as int);
                        }
                    }
                }
                lo = mid + 1;
            }
        }
        let p = lo;
        proof {
            lemma_insert_by_at(sv, fm, file_order(), p as int);
            assert(m.take(i + 1).drop_last() == m.take(i));
            assert(m.take(i + 1).last() == fm);
        }
        sorted.insert(p, f);
        assert(file_models(sorted@) =~= sv.take(p as int).push(fm) + sv.skip(p as int));
    }
    assert(m.take(m.len() as int) == m);
    sorted
}

/// Puts together what the walk of a directory found: the tree of the
/// directory, every directory sorted, and the files sorted by path.
pub fn assemble_scan(items: Vec<ScannedItem>) -> (r: ScanResult)
    ensures
        r.root_node@ == tree_of(dir_map(items@), Seq::empty()),
        file_models(r.files@) == sort_by_order(scanned_files(items@), file_order()),
{
    let mut dirs: Vec<DirEntry> = Vec::new();
    dirs.push(DirEntry { rel_path: String::new(), files: Vec::new() });
    assert(dir_models(dirs@) =~= dir_map(Seq::<ScannedItem>::empty())) by {
        assert(dirs@[0].files@.map_values(|f: FileEntry| file_node(f)) =~= Seq::<Node>::empty());
    }
    let mut files: Vec<ScannedFile> = Vec::new();
    let ghost all = items@;
    assert(all.take(0) =~= Seq::<ScannedItem>::empty());
    assert(file_models(files@) =~= Seq::<(Seq<char>, Option<Seq<char>>)>::empty());
    for item in it: items
        invariant
            it.seq() == all,
            dir_models(dirs@) == dir_map(all.take(it.index() as int)),
            file_models(files@) == scanned_files(all.take(it.index() as int)),
    {
        let ghost i = it.index();
        assert(item == all[i]);
        assert(all.take(i + 1).drop_last() == all.take(i));
        assert(all.take(i + 1).last() == item);
        let ghost before_files = files@;
        match item {
            ScannedItem::Dir(p) => {
                if file_name(p.as_str()).is_some() {
                    ensure_dir_entry(&mut dirs, &p);
                }
            },
            ScannedItem::File { rel_path, content } => {
                match file_name(rel_path.as_str()) {
                    None => {},
                    Some(name) => {
                        let par = match parent(rel_path.as_str()) {
                            Some(q) => q,
                            None => String::new(),
                        };
                        ensure_ancestor_entries(&mut dirs, &par);
                        let idx = ensure_dir_entry(&mut dirs, &par);
                        let entry = FileEntry {
                            name,
                            rel_path: rel_path.clone(),
                            is_binary: content.is_none(),
                        };
                        add_file_entry(&mut dirs, idx, entry);
                        files.push(ScannedFile { rel_path, content });
                        assert(file_models(files@) =~= file_models(before_files).push(
                            file_model(files@.last()),
                        ));
                    },
                }
            },
        }
    }
    assert(all.take(all.len() as int) == all);
    let bound = longest_dir_path(&dirs);
    let root = String::new();
    let root_node = build_node_tree(&root, &dirs, bound);
    let files = sort_files_by_path(files);
    ScanResult { root_node, files }
}


/// The characters of an optional string.
pub open spec fn opt_chars(s: Option<String>) -> Option<Seq<char>> {
    match s {
        Some(t) => Some(t@),
        None => None,
    }
}

/// The name under which a scanned single file goes into the bundle: its file
/// name, `file` when it has none.
pub open spec fn single_file_name(file_name: Option<String>) -> Seq<char> {
    match file_name {
        Some(n) => n@,
        None => "file"@,
    }
}

/// What a scan of a single file found: the file alone, under its name (see
/// `single_file_name`) both as the tree and as the one file with its text,
/// binary exactly when it has no text.
pub fn single_file_scan(file_name: Option<String>, content: Option<String>) -> (r: ScanResult)
    ensures
        r.root_node@ == (Node::File {
            name: single_file_name(file_name),
            rel_path: single_file_name(file_name),
            is_binary: content is None,
        }),
        file_models(r.files@) == seq![(single_file_name(file_name), opt_chars(content))],
{
    let name = match file_name {
        Some(n) => n,
        None => "file".to_owned(),
    };
    proof {
        reveal_strlit("file");
    }
    let is_binary = content.is_none();
    let root_node = FileNode::File { name: name.clone(), rel_path: name.clone(), is_binary };
    let mut files: Vec<ScannedFile> = Vec::new();
    files.push(ScannedFile { rel_path: name, content });
    assert(file_models(files@) =~= seq![file_model(files@[0])]);
    ScanResult { root_node, files }
}

// ---------------------------------------------------------------------------
// Which files the walk takes
// ---------------------------------------------------------------------------

/// The glob that keeps the files matching `p`: `p` itself when it starts with
/// `/` or `*`, else `p` under any directory.
pub open spec fn include_glob(p: Seq<char>) -> Seq<char> {
    if p.len() > 0 && (p[0] == '/' || p[0] == '*') {
        p
    } else {
        "**/"@ + p
    }
}

/// The glob that leaves out the files matching `p`: `p` itself when it
/// already starts with `!`, else `p` behind a `!`.
pub open spec fn exclude_glob(p: Seq<char>) -> Seq<char> {
    if p.len() > 0 && p[0] == '!' {
        p
    } else {
        "!"@ + p
    }
}

/// The globs of the walk's overrides: those that keep files, then those
/// that leave files out, each in the order given.
pub open spec fn override_globs_of(
    includes: Option<Seq<String>>,
    excludes: Option<Seq<String>>,
) -> Seq<Seq<char>> {
    let i = match includes {
        Some(v) => v.map_values(|p: String| include_glob(p@)),
        None => Seq::empty(),
    };
    let e = match excludes {
        Some(v) => v.map_values(|p: String| exclude_glob(p@)),
        None => Seq::empty(),
    };
    i + e
}

/// The glob that keeps the files matching `pat` (see `include_glob`).
pub fn include_pattern(pat: &String) -> (r: String)
    ensures
        r@ == include_glob(pat@),
{
    let v = chars_of(pat.as_str());
    if v.len() > 0 && (v[0] == '/' || v[0] == '*') {
        pat.clone()
    } else {
        let mut r = "**/".to_owned();
        r.append(pat.as_str());
        r
    }
}

/// The glob that leaves out the files matching `pat` (see `exclude_glob`).
pub fn exclude_pattern(pat: &String) -> (r: String)
    ensures
        r@ == exclude_glob(pat@),
{
    let v = chars_of(pat.as_str());
    if v.len() > 0 && v[0] == '!' {
        pat.clone()
    } else {
        let mut r = "!".to_owned();
        r.append(pat.as_str());
        r
    }
}

/// Appends to `out` a glob for each of `pats`: one that keeps the files
/// matching it when `keep` holds, one that leaves them out otherwise.
fn push_globs(out: &mut Vec<String>, pats: &Vec<String>, keep: bool)
    ensures
        final(out)@.len() == old(out)@.len() + pats@.len(),
        forall|j: int| 0 <= j < old(out)@.len() ==> #[trigger] final(out)@[j] == old(out)@[j],
        forall|j: int|
            0 <= j < pats@.len() ==> #[trigger] final(out)@[old(out)@.len() + j]@ == (if keep {
                include_glob(pats@[j]@)
            } else {
                exclude_glob(pats@[j]@)
            }),
{
    let ghost start = out@;
    for k in 0..pats.len()
        invariant
            out@.len() == start.len() + k,
            forall|j: int| 0 <= j < start.len() ==> #[trigger] out@[j] == start[j],
            forall|j: int|
                0 <= j < k ==> #[trigger] out@[start.len() + j]@ == (if keep {
                    include_glob(pats@[j]@)
                } else {
                    exclude_glob(pats@[j]@)
                }),
    {
        let g = if keep {
            include_pattern(&pats[k])
        } else {
            exclude_pattern(&pats[k])
        };
        out.push(g);
    }
}

/// A list of strings that may be missing, as a sequence.
pub open spec fn opt_strings(o: Option<Vec<String>>) -> Option<Seq<String>> {
    match o {
        Some(v) => Some(v@),
        None => None,
    }
}

/// The globs to give the walk's overrides for `config`; the walk has
/// overrides only when globs to keep or to leave out were given at all.
pub fn override_globs(config: &Cli) -> (r: Vec<String>)
    ensures
        r@.len() == override_globs_of(
            opt_strings(config.include_globs),
            opt_strings(config.exclude_globs),
        ).len(),
        forall|j: int|
            0 <= j < r@.len() ==> #[trigger] r@[j]@ == override_globs_of(
                opt_strings(config.include_globs),
                opt_strings(config.exclude_globs),
            )[j],
{
    let ghost target = override_globs_of(
        opt_strings(config.include_globs),
        opt_strings(config.exclude_globs),
    );
    let ghost inc = match opt_strings(config.include_globs) {
        Some(v) => v.map_values(|p: String| include_glob(p@)),
        None => Seq::empty(),
    };
    let ghost exc = match opt_strings(config.exclude_globs) {
        Some(v) => v.map_values(|p: String| exclude_glob(p@)),
        None => Seq::empty(),
    };
    assert(target == inc + exc);
    let mut r: Vec<String> = Vec::new();
    if let Some(pats) = &config.include_globs {
        push_globs(&mut r, pats, true);
        assert forall|j: int| 0 <= j < inc.len() implies #[trigger] r@[j]@ == inc[j] by {
            assert(r@[0 + j]@ == include_glob(pats@[j]@));
        }
    }
    assert(r@.len() == inc.len());
    assert(forall|j: int| 0 <= j < inc.len() ==> #[trigger] r@[j]@ == inc[j]);
    let ghost mid = r@;
    if let Some(pats) = &config.exclude_globs {
        push_globs(&mut r, pats, false);
        assert forall|j: int| 0 <= j < exc.len() implies #[trigger] r@[inc.len() + j]@ == exc[j] by {
            assert(r@[mid.len() + j]@ == exclude_glob(pats@[j]@));
        }
    }
    assert(forall|j: int| 0 <= j < exc.len() ==> #[trigger] r@[inc.len() + j]@ == exc[j]);
    assert(r@.len() == inc.len() + exc.len());
    assert forall|j: int| 0 <= j < r@.len() implies #[trigger] r@[j]@ == target[j] by {
        if j < inc.len() {
            assert(r@[j] == mid[j]);
        } else {
            assert(r@[inc.len() + (j - inc.len())]@ == exc[j - inc.len()]);
            assert(exc[j - inc.len()] == target[j]);
        }
    }
    r
}


// ---------------------------------------------------------------------------
// What is read of a file
// ---------------------------------------------------------------------------

/// The first index of `needle` in `haystack`.
///
/// Calls `memchr::memchr`, whose documentation says that it returns the index
/// of the first occurrence of `needle` in `haystack`, or `None` when there is
/// none; the contract says that.
#[verifier::external_body]
fn memchr(needle: u8, haystack: &[u8]) -> (r: Option<usize>)
    ensures
        match r {
            Some(i) => i < haystack@.len() && haystack@[i as int] == needle && forall|j: int|
                0 <= j < i ==> haystack@[j] != needle,
            None => forall|j: int| 0 <= j < haystack@.len() ==> haystack@[j] != needle,
        },
{
    memchr::memchr(needle, haystack)
}

/// The text that `bytes` encode in UTF-8, when they are valid UTF-8.
///
/// Calls `String::from_utf8`, which by its documentation gives the string that
/// the bytes encode when they are valid UTF-8 and an error otherwise; the
/// contract says that, with vstd's definitions of validity and decoding.
#[verifier::external_body]
fn string_from_utf8(bytes: Vec<u8>) -> (r: Option<String>)
    ensures
        match r {
            Some(s) => valid_utf8(bytes@) && s@ == decode_utf8(bytes@),
            None => !valid_utf8(bytes@),
        },
{
    match String::from_utf8(bytes) {
        Ok(s) => Some(s),
        Err(_) => None,
    }
}

/// The text of a file with contents `bytes`: none when they hold a zero byte
/// or are not valid UTF-8, the text they encode otherwise.
pub open spec fn text_of(bytes: Seq<u8>) -> Option<Seq<char>> {
    if bytes.contains(0u8) || !valid_utf8(bytes) {
        None
    } else {
        Some(decode_utf8(bytes))
    }
}

/// Tells binary contents from text: binary when they hold a zero byte or are
/// not valid UTF-8; for text, also gives the text.
pub fn classify_content(bytes: Vec<u8>) -> (r: (bool, Option<String>))
    ensures
        r.0 == text_of(bytes@) is None,
        match r.1 {
            Some(s) => text_of(bytes@) == Some(s@),
            None => text_of(bytes@) is None,
        },
{
    if memchr(0, bytes.as_slice()).is_some() {
        (true, None)
    } else {
        match string_from_utf8(bytes) {
            Some(text) => (false, Some(text)),
            None => (true, None),
        }
    }
}

/// Whether a file of `file_len` bytes, when its size is known, is over the
/// limit `max_bytes`; 0 means no limit.
pub fn exceeds_limit(max_bytes: u64, file_len: Option<u64>) -> (r: bool)
    ensures
        r == (max_bytes > 0 && (file_len matches Some(l) && l > max_bytes)),
{
    max_bytes > 0 && match file_len {
        Some(l) => l > max_bytes,
        None => false,
    }
}


/// Whether a file at `p` is kept: always when no changed files are given,
/// else when it is one of them.
pub open spec fn kept_by_diff(diff_files: Option<Seq<String>>, p: Seq<char>) -> bool {
    match diff_files {
        None => true,
        Some(v) => listed(v, p),
    }
}

/// Whether `p` is one of the strings `v`.
pub open spec fn listed(v: Seq<String>, p: Seq<char>) -> bool {
    exists|i: int| 0 <= i < v.len() && #[trigger] v[i]@ == p
}

/// Whether the walk keeps the file at `rel_path` (see `kept_by_diff`).
pub fn is_kept_by_diff(diff_files: &Option<Vec<String>>, rel_path: &String) -> (r: bool)
    ensures
        r == kept_by_diff(opt_strings(*diff_files), rel_path@),
{
    match diff_files {
        None => true,
        Some(v) => {
            for i in 0..v.len()
                invariant
                    *diff_files == Some(*v),
                    forall|j: int| 0 <= j < i ==> #[trigger] v@[j]@ != rel_path@,
            {
                if v[i] == *rel_path {
                    assert(opt_strings(*diff_files) == Some(v@));
                    assert(v@[i as int]@ == rel_path@);
                    assert(listed(v@, rel_path@));
                    return true;
                }
            }
            false
        },
    }
}


/// With no list of changed files every file is kept; with one, a file is kept
/// exactly when its path is on the list, so a listed file is always kept and
/// a file missing from the list never is.
pub proof fn lemma_kept_by_diff_law(v: Seq<String>, p: Seq<char>)
    ensures
        kept_by_diff(None, p),
        kept_by_diff(Some(v), p) <==> exists|i: int| 0 <= i < v.len() && v[i]@ == p,
        forall|i: int| 0 <= i < v.len() && v[i]@ == p ==> kept_by_diff(Some(v), p),
        (forall|i: int| 0 <= i < v.len() ==> v[i]@ != p) ==> !kept_by_diff(Some(v), p),
{
}

/// Every glob that leaves files out is a negation: it starts with `!`, and a
/// pattern that does not start with `!` gets one put in front of it. A
/// pattern already negated is kept as it is.
pub proof fn lemma_exclude_glob_law(p: Seq<char>)
    ensures
        exclude_glob(p).len() > 0,
        exclude_glob(p)[0] == '!',
        (p.len() == 0 || p[0] != '!') ==> exclude_glob(p) == seq!['!'] + p,
        (p.len() > 0 && p[0] == '!') ==> exclude_glob(p) == p,
{
    reveal_strlit("!");
    if !(p.len() > 0 && p[0] == '!') {
        assert("!"@ =~= seq!['!']);
    }
}

/// Every glob that keeps files ends with the pattern given; a pattern that
/// starts with neither `/` nor `*` is matched under any directory, behind
/// `**/`, and one that does is kept as it is. No glob that keeps files is a
/// negation unless its pattern is.
pub proof fn lemma_include_glob_law(p: Seq<char>)
    ensures
        p.is_suffix_of(include_glob(p)),
        (p.len() == 0 || (p[0] != '/' && p[0] != '*')) ==> include_glob(p) == seq!['*', '*', '/']
            + p,
        (p.len() > 0 && (p[0] == '/' || p[0] == '*')) ==> include_glob(p) == p,
        include_glob(p).len() > 0 && include_glob(p)[0] == '!' ==> p.len() > 0 && p[0] == '!',
{
    reveal_strlit("**/");
    let g = include_glob(p);
    if p.len() == 0 || (p[0] != '/' && p[0] != '*') {
        assert("**/"@ =~= seq!['*', '*', '/']);
        assert(g.subrange(g.len() - p.len(), g.len() as int) =~= p);
    } else {
        assert(g.subrange(g.len() - p.len(), g.len() as int) =~= p);
    }
}

/// The globs of the overrides: first one for each pattern to keep, in the
/// order given, then one for each pattern to leave out, in the order given;
/// those that leave files out are all negations.
pub proof fn lemma_override_globs_law(includes: Option<Seq<String>>, excludes: Option<Seq<String>>)
    ensures
        ({
            let g = override_globs_of(includes, excludes);
            let ni = match includes {
                Some(v) => v.len(),
                None => 0,
            };
            let ne = match excludes {
                Some(v) => v.len(),
                None => 0,
            };
            &&& g.len() == ni + ne
            &&& forall|j: int| 0 <= j < ni ==> #[trigger] g[j] == include_glob(includes->0[j]@)
            &&& forall|j: int|
                0 <= j < ne ==> #[trigger] g[ni + j] == exclude_glob(excludes->0[j]@)
                    && g[ni + j][0] == '!'
        }),
{
    let g = override_globs_of(includes, excludes);
    let ni = match includes {
        Some(v) => v.len(),
        None => 0,
    };
    let ne = match excludes {
        Some(v) => v.len(),
        None => 0,
    };
    assert forall|j: int| 0 <= j < ne implies #[trigger] g[ni + j] == exclude_glob(excludes->0[j]@)
        && g[ni + j][0] == '!' by {
        lemma_exclude_glob_law(excludes->0[j]@);
    }
}

// ---------------------------------------------------------------------------
// Laws of the scan
// ---------------------------------------------------------------------------

/// The tree of a directory is that directory, with its name and path, and
/// the entries of every directory in it are in order.
pub proof fn lemma_tree_of_shape(ms: Seq<DirModel>, rel: Seq<char>)
    ensures
        tree_of(ms, rel) is Directory,
        tree_of(ms, rel).name() == dir_name_of(rel),
        tree_of(ms, rel)->Directory_rel_path == rel,
        tree_sorted(tree_of(ms, rel)),
{
    let n = Node::Directory {
        name: dir_name_of(rel),
        rel_path: rel,
        children: files_in(ms, rel) + subdir_trees(ms, rel, 0),
    };
    lemma_sort_tree_sorted(n);
}

/// The root of a scan is the directory `.` at the empty path.
pub proof fn lemma_scan_root(items: Seq<ScannedItem>)
    ensures
        tree_of(dir_map(items), Seq::empty()) is Directory,
        tree_of(dir_map(items), Seq::empty()).name() == "."@,
        tree_of(dir_map(items), Seq::empty())->Directory_rel_path == Seq::<char>::empty(),
{
    lemma_tree_of_shape(dir_map(items), Seq::empty());
}

/// Files are ordered by a strict weak order, and two files are unordered
/// exactly when they have the same path.
pub proof fn lemma_file_order()
    ensures
        strict_weak_order(file_order()),
        forall|a: (Seq<char>, Option<Seq<char>>), b: (Seq<char>, Option<Seq<char>>)|
            !#[trigger] file_order()(a, b) && !file_order()(b, a) <==> a.0 == b.0,
{
    assert forall|a: (Seq<char>, Option<Seq<char>>), b: (Seq<char>, Option<Seq<char>>)|
        !#[trigger] file_order()(a, b) && !file_order()(b, a) <==> a.0 == b.0 by {
        lemma_ranked_lt_total(a.0, b.0, true);
        lemma_ranked_lt_irreflexive(a.0, true);
        if path_lt(a.0, b.0) && path_lt(b.0, a.0) {
            lemma_ranked_lt_transitive(a.0, b.0, a.0, true);
        }
    }
    assert forall|a: (Seq<char>, Option<Seq<char>>)| !#[trigger] file_order()(a, a) by {
        lemma_ranked_lt_irreflexive(a.0, true);
    }
    assert forall|
        a: (Seq<char>, Option<Seq<char>>),
        b: (Seq<char>, Option<Seq<char>>),
        c: (Seq<char>, Option<Seq<char>>),
    | #[trigger] file_order()(a, b) && #[trigger] file_order()(b, c) implies file_order()(a, c) by {
        lemma_ranked_lt_transitive(a.0, b.0, c.0, true);
    }
}

/// The files of a scan come sorted by path, each file reported is there once
/// for each time it was reported, and files with the same path keep the order
/// in which they were reported.
pub proof fn lemma_scan_files_sorted(items: Seq<ScannedItem>, k: (Seq<char>, Option<Seq<char>>))
    ensures
        sorted_by(sort_by_order(scanned_files(items), file_order()), file_order()),
        sort_by_order(scanned_files(items), file_order()).to_multiset() =~= scanned_files(
            items,
        ).to_multiset(),
        sort_by_order(scanned_files(items), file_order()).filter(unordered_with(file_order(), k))
            == scanned_files(items).filter(unordered_with(file_order(), k)),
{
    lemma_file_order();
    lemma_sort_by_order_sorted(scanned_files(items), file_order());
    lemma_sort_by_order_permutation(scanned_files(items), file_order());
    lemma_sort_by_order_stable(scanned_files(items), file_order(), k);
}


/// The output is deterministic: two walks that report the same files, in any
/// order, give the same sorted files, when no two files share a path.
pub proof fn lemma_scan_files_deterministic(items1: Seq<ScannedItem>, items2: Seq<ScannedItem>)
    requires
        scanned_files(items1).to_multiset() == scanned_files(items2).to_multiset(),
        forall|i: int, j: int|
            0 <= i < j < scanned_files(items1).len() ==> (#[trigger] scanned_files(items1)[i]).0
                != (#[trigger] scanned_files(items1)[j]).0,
    ensures
        sort_by_order(scanned_files(items1), file_order()) == sort_by_order(
            scanned_files(items2),
            file_order(),
        ),
{
    let s = scanned_files(items1);
    lemma_file_order();
    assert(ordered_when_different(s, file_order())) by {
        assert forall|a: (Seq<char>, Option<Seq<char>>), b: (Seq<char>, Option<Seq<char>>)|
            s.contains(a) && s.contains(b) && !#[trigger] file_order()(a, b)
                && !#[trigger] file_order()(b, a) implies a == b by {
            let i = choose|i: int| 0 <= i < s.len() && s[i] == a;
            let j = choose|j: int| 0 <= j < s.len() && s[j] == b;
            assert(a.0 == b.0);
            if i < j {
                assert(s[i].0 != s[j].0);
            } else if j < i {
                assert(s[j].0 != s[i].0);
            }
        }
    }
    lemma_sort_by_order_deterministic(scanned_files(items1), scanned_files(items2), file_order());
}

} // verus!
