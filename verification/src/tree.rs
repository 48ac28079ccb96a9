use vstd::prelude::*;

use crate::sorting::{
    insert_by, lemma_insert_by_at, lemma_sort_by_order_of_sorted, lemma_sort_by_order_permutation,
    lemma_sort_by_order_sorted, lemma_sort_by_order_stable, sort_by_order, sorted_by,
    strict_weak_order, unordered_with,
};
use crate::text::{
    chars_less, chars_lt, chars_of, lemma_chars_lt_irreflexive, lemma_chars_lt_total,
    lemma_chars_lt_transitive,
};

verus! {

/// One entry of a directory tree: a file, or a directory with its entries.
#[derive(Debug, PartialEq, Eq)]
pub enum FileNode {
    File { name: String, rel_path: String, is_binary: bool },
    Directory { name: String, rel_path: String, children: Vec<FileNode> },
}

/// The mathematical value of a `FileNode`.
pub enum Node {
    File { name: Seq<char>, rel_path: Seq<char>, is_binary: bool },
    Directory { name: Seq<char>, rel_path: Seq<char>, children: Seq<Node> },
}

/// The model of a node.
pub open spec fn node_view(n: FileNode) -> Node
    decreases n,
{
    match n {
        FileNode::File { name, rel_path, is_binary } => Node::File {
            name: name@,
            rel_path: rel_path@,
            is_binary,
        },
        FileNode::Directory { name, rel_path, children } => Node::Directory {
            name: name@,
            rel_path: rel_path@,
            children: nodes_view(children@),
        },
    }
}

/// The models of a sequence of nodes.
pub open spec fn nodes_view(s: Seq<FileNode>) -> Seq<Node>
    decreases s,
{
    if s.len() == 0 {
        Seq::empty()
    } else {
        nodes_view(s.subrange(0, s.len() - 1)).push(node_view(s[s.len() - 1]))
    }
}

impl View for FileNode {
    type V = Node;

    open spec fn view(&self) -> Node {
        node_view(*self)
    }
}


impl Node {
    /// The entry's name.
    pub open spec fn name(self) -> Seq<char> {
        match self {
            Node::File { name, .. } => name,
            Node::Directory { name, .. } => name,
        }
    }

    /// Whether the entry is a directory.
    pub open spec fn is_dir(self) -> bool {
        self is Directory
    }
}

impl FileNode {
    /// The entry's name.
    pub fn name(&self) -> (r: &str)
        ensures
            r@ == self@.name(),
    {
        match self {
            FileNode::File { name, .. } => name.as_str(),
            FileNode::Directory { name, .. } => name.as_str(),
        }
    }

    /// Whether the entry is a directory.
    pub fn is_dir(&self) -> (r: bool)
        ensures
            r == self@.is_dir(),
    {
        match self {
            FileNode::Directory { .. } => true,
            FileNode::File { .. } => false,
        }
    }
}

// ---------------------------------------------------------------------------
// Rendering
// ---------------------------------------------------------------------------

/// The text of the connector in front of an entry.
pub open spec fn connector(is_last: bool) -> Seq<char> {
    if is_last {
        "└── "@
    } else {
        "├── "@
    }
}

/// What the entries of a directory add to the prefix of their parent.
pub open spec fn child_prefix(is_last: bool) -> Seq<char> {
    if is_last {
        "    "@
    } else {
        "│   "@
    }
}

/// The lines that show `n`, drawn under `prefix`, as the last entry of its
/// directory or not.
pub open spec fn render_node_text(n: Node, prefix: Seq<char>, is_last: bool) -> Seq<char>
    decreases n, 0int,
{
    match n {
        Node::Directory { name, children, .. } => prefix + connector(is_last) + name + "/\n"@
            + render_entries(children, prefix + child_prefix(is_last), 0),
        Node::File { name, .. } => prefix + connector(is_last) + name + "\n"@,
    }
}

/// The lines that show the entries `cs[i..]` of one directory under `prefix`.
pub open spec fn render_entries(cs: Seq<Node>, prefix: Seq<char>, i: int) -> Seq<char>
    decreases cs, cs.len() - i,
{
    if i < 0 || i >= cs.len() {
        Seq::empty()
    } else {
        render_node_text(cs[i], prefix, i == cs.len() - 1) + render_entries(cs, prefix, i + 1)
    }
}

/// The text that `render_tree` gives for `n`: the entries of a directory, one
/// line each and nested ones indented, or the name of a file.
pub open spec fn render_tree_text(n: Node) -> Seq<char> {
    match n {
        Node::Directory { children, .. } => render_entries(children, Seq::empty(), 0),
        Node::File { name, .. } => name + "\n"@,
    }
}


/// The models of a sequence of nodes are the models of its elements.
pub proof fn lemma_nodes_view(s: Seq<FileNode>)
    ensures
        nodes_view(s).len() == s.len(),
        forall|i: int| 0 <= i < s.len() ==> #[trigger] nodes_view(s)[i] == s[i]@,
    decreases s.len(),
{
    if s.len() > 0 {
        lemma_nodes_view(s.subrange(0, s.len() - 1));
    }
}

impl FileNode {
    /// Draws the tree below this node: for a directory, one line for each
    /// entry below it, nested entries indented; for a file, its name.
    pub fn render_tree(&self) -> (out: String)
        ensures
            out@ == render_tree_text(self@),
    {
        let mut out = String::new();
        match self {
            FileNode::Directory { children, .. } => {
                let n = children.len();
                let ghost cs = nodes_view(children@);
                proof {
                    lemma_nodes_view(children@);
                }
                for i in 0..n
                    invariant
                        n == children@.len(),
                        cs == nodes_view(children@),
                        cs.len() == n,
                        forall|j: int| 0 <= j < n ==> #[trigger] cs[j] == children@[j]@,
                        out@ + render_entries(cs, Seq::empty(), i as int) == render_entries(
                            cs,
                            Seq::empty(),
                            0,
                        ),
                {
                    let ghost before = out@;
                    let empty = "";
                    proof {
                        reveal_strlit("");
                        assert(empty@ == Seq::<char>::empty());
                    }
                    children[i].render_node(empty, i == n - 1, &mut out);
                    assert(before + render_entries(cs, Seq::empty(), i as int) == out@
                        + render_entries(cs, Seq::empty(), i + 1));
                }
                assert(out@ + Seq::<char>::empty() == out@);
            },
            FileNode::File { name, .. } => {
                out.append(name.as_str());
                out.append("\n");
            },
        }
        out
    }

    /// Appends to `out` the lines that draw this node under `prefix`.
    pub fn render_node(&self, prefix: &str, is_last: bool, out: &mut String)
        ensures
            final(out)@ == old(out)@ + render_node_text(self@, prefix@, is_last),
        decreases self,
    {
        let connector = if is_last {
            "└── "
        } else {
            "├── "
        };
        let child_prefix = if is_last {
            "    "
        } else {
            "│   "
        };
        match self {
            FileNode::Directory { name, children, .. } => {
                out.append(prefix);
                out.append(connector);
                out.append(name.as_str());
                out.append("/\n");
                let mut new_prefix = prefix.to_owned();
                new_prefix.append(child_prefix);
                let ghost start = out@;
                let n = children.len();
                let ghost cs = nodes_view(children@);
                proof {
                    lemma_nodes_view(children@);
                    assert(decreases_to!(*children => children@));
                    assert(decreases_to!(*self => children@));
                }
                for i in 0..n
                    invariant
                        n == children@.len(),
                        cs == nodes_view(children@),
                        cs.len() == n,
                        forall|j: int| 0 <= j < n ==> #[trigger] cs[j] == children@[j]@,
                        decreases_to!(*self => children@),
                        out@ + render_entries(cs, new_prefix@, i as int) == start
                            + render_entries(cs, new_prefix@, 0),
                {
                    let ghost before = out@;
                    proof {
                        assert(decreases_to!(children@ => children@[i as int]));
                        assert(decreases_to!(*self => children@[i as int]));
                    }
                    children[i].render_node(new_prefix.as_str(), i == n - 1, out);
                    assert(before + render_entries(cs, new_prefix@, i as int) == out@
                        + render_entries(cs, new_prefix@, i + 1));
                }
                assert(out@ + Seq::<char>::empty() == out@);
            },
            FileNode::File { name, .. } => {
                out.append(prefix);
                out.append(connector);
                out.append(name.as_str());
                out.append("\n");
            },
        }
    }
}


// ---------------------------------------------------------------------------
// Sorting
// ---------------------------------------------------------------------------

/// The order of the entries of a directory: directories come before files,
/// and entries of the same kind are ordered by name.
pub open spec fn node_lt(a: Node, b: Node) -> bool {
    ||| a.is_dir() && !b.is_dir()
    ||| a.is_dir() == b.is_dir() && chars_lt(a.name(), b.name())
}

/// The order of entries as a function value.
pub open spec fn node_order() -> spec_fn(Node, Node) -> bool {
    |a: Node, b: Node| node_lt(a, b)
}

/// The entries `s` stably sorted by `node_lt`: entries in order, and entries
/// of the same kind and name kept in the order they had.
pub open spec fn sort_entries(s: Seq<Node>) -> Seq<Node> {
    sort_by_order(s, node_order())
}

/// `n` with the entries of every directory in it sorted.
pub open spec fn sort_tree(n: Node) -> Node
    decreases n,
{
    match n {
        Node::File { .. } => n,
        Node::Directory { name, rel_path, children } => Node::Directory {
            name,
            rel_path,
            children: sort_entries(sort_trees(children)),
        },
    }
}

/// `sort_tree` applied to each element of `cs`.
pub open spec fn sort_trees(cs: Seq<Node>) -> Seq<Node>
    decreases cs,
{
    if cs.len() == 0 {
        cs
    } else {
        sort_trees(cs.subrange(0, cs.len() - 1)).push(sort_tree(cs[cs.len() - 1]))
    }
}

/// `sort_trees` works element by element.
pub proof fn lemma_sort_trees(cs: Seq<Node>)
    ensures
        sort_trees(cs).len() == cs.len(),
        forall|i: int| 0 <= i < cs.len() ==> #[trigger] sort_trees(cs)[i] == sort_tree(cs[i]),
    decreases cs.len(),
{
    if cs.len() > 0 {
        lemma_sort_trees(cs.subrange(0, cs.len() - 1));
    }
}

/// Decides `node_lt`.
fn node_less(a: &FileNode, b: &FileNode) -> (r: bool)
    ensures
        r == node_lt(a@, b@),
{
    let ad = a.is_dir();
    let bd = b.is_dir();
    if ad && !bd {
        true
    } else if ad != bd {
        false
    } else {
        chars_less(&chars_of(a.name()), &chars_of(b.name()))
    }
}

/// Where `x` goes among the sorted entries `sorted`: in front of the first
/// one that comes after it.
fn insertion_point(sorted: &Vec<FileNode>, x: &FileNode) -> (p: usize)
    ensures
        p <= sorted@.len(),
        forall|j: int| 0 <= j < p ==> !node_lt(x@, #[trigger] sorted@[j]@),
        p < sorted@.len() ==> node_lt(x@, sorted@[p as int]@),
{
    let mut p: usize = 0;
    while p < sorted.len() && !node_less(x, &sorted[p])
        invariant
            p <= sorted@.len(),
            forall|j: int| 0 <= j < p ==> !node_lt(x@, #[trigger] sorted@[j]@),
        decreases sorted@.len() - p,
    {
        p = p + 1;
    }
    p
}

impl FileNode {
    /// Sorts the entries of this directory and of every directory below it:
    /// directories first, then files, each group by name.
    pub fn sort_children(&mut self)
        ensures
            final(self)@ == sort_tree(old(self)@),
        decreases *old(self),
    {
        match self {
            FileNode::Directory { children, .. } => {
                let mut rest: Vec<FileNode> = Vec::new();
                std::mem::swap(&mut rest, children);
                let ghost orig = rest@;
                let ghost m = sort_trees(nodes_view(orig));
                proof {
                    lemma_nodes_view(orig);
                    lemma_sort_trees(nodes_view(orig));
                    assert(decreases_to!(*old(self) => orig));
                }
                let mut sorted: Vec<FileNode> = Vec::new();
                let n = rest.len();
                let mut i: usize = 0;
                while i < n
                    invariant
                        n == orig.len(),
                        i <= n,
                        rest@ == orig.skip(i as int),
                        m.len() == n,
                        forall|j: int| 0 <= j < n ==> #[trigger] m[j] == sort_tree(orig[j]@),
                        decreases_to!(*old(self) => orig),
                        sorted@.len() == sort_entries(m.take(i as int)).len(),
                        forall|j: int|
                            0 <= j < sorted@.len() ==> #[trigger] sorted@[j]@ == sort_entries(
                                m.take(i as int),
                            )[j],
                    decreases n - i,
                {
                    let mut child = rest.remove(0);
                    proof {
                        assert(child == orig[i as int]);
                        assert(decreases_to!(orig => orig[i as int]));
                    }
                    child.sort_children();
                    let p = insertion_point(&sorted, &child);
                    let ghost before = sorted@;
                    let ghost sv = sort_entries(m.take(i as int));
                    proof {
                        assert forall|j: int| 0 <= j < p implies !node_lt(
                            child@,
                            #[trigger] sv[j],
                        ) by {
                            assert(sv[j] == before[j]@);
                        }
                        lemma_insert_by_at(sv, child@, node_order(), p as int);
                        assert(m.take(i + 1).drop_last() == m.take(i as int));
                        assert(sort_entries(m.take(i + 1)) == insert_by(sv, child@, node_order()));
                    }
                    sorted.insert(p, child);
                    assert(rest@ == orig.skip(i + 1));
                    i = i + 1;
                }
                proof {
                    assert(m.take(n as int) == m);
                    lemma_nodes_view(sorted@);
                    assert(nodes_view(sorted@) == sort_entries(m));
                }
                *children = sorted;
            },
            FileNode::File { .. } => {},
        }
    }
}


// ---------------------------------------------------------------------------
// Laws of the order of entries
// ---------------------------------------------------------------------------

/// Entries that neither comes before the other: same kind and same name.
pub open spec fn same_key(a: Node, b: Node) -> bool {
    a.is_dir() == b.is_dir() && a.name() == b.name()
}

/// The entries with the same kind and name as `k`.
pub open spec fn key_of(k: Node) -> spec_fn(Node) -> bool {
    |n: Node| same_key(n, k)
}

/// The order of entries is a strict weak order, and two entries are
/// unordered exactly when they have the same kind and name.
pub proof fn lemma_node_order()
    ensures
        strict_weak_order(node_order()),
        forall|a: Node, b: Node|
            !node_lt(a, b) && !node_lt(b, a) <==> #[trigger] same_key(a, b),
{
    assert forall|a: Node, b: Node|
        !node_lt(a, b) && !node_lt(b, a) <==> #[trigger] same_key(a, b) by {
        lemma_chars_lt_total(a.name(), b.name());
        lemma_chars_lt_irreflexive(a.name());
        if chars_lt(a.name(), b.name()) && chars_lt(b.name(), a.name()) {
            lemma_chars_lt_transitive(a.name(), b.name(), a.name());
        }
    }
    assert forall|a: Node| !#[trigger] node_order()(a, a) by {
        lemma_chars_lt_irreflexive(a.name());
    }
    assert forall|a: Node, b: Node, c: Node|
        #[trigger] node_order()(a, b) && #[trigger] node_order()(b, c) implies node_order()(a, c) by {
        if a.is_dir() == b.is_dir() && b.is_dir() == c.is_dir() {
            lemma_chars_lt_transitive(a.name(), b.name(), c.name());
        }
    }
    assert forall|a: Node, b: Node, c: Node|
        #![trigger node_order()(a, b), node_order()(b, c)]
        !node_order()(a, b) && !node_order()(b, a) && !node_order()(b, c) && !node_order()(
            c,
            b,
        ) implies !node_order()(a, c) && !node_order()(c, a) by {
        assert(same_key(a, b) && same_key(b, c));
        assert(same_key(a, c));
    }
}

/// Sorting gives entries in order: no entry comes before one in front of it.
pub proof fn lemma_sort_entries_sorted(s: Seq<Node>)
    ensures
        sorted_by(sort_entries(s), node_order()),
{
    lemma_node_order();
    lemma_sort_by_order_sorted(s, node_order());
}

/// Sorting rearranges the entries: it keeps each one as often as it was there.
pub proof fn lemma_sort_entries_permutation(s: Seq<Node>)
    ensures
        sort_entries(s).to_multiset() =~= s.to_multiset(),
{
    lemma_sort_by_order_permutation(s, node_order());
}

/// Sorting is stable: the entries of one kind and name keep their order.
pub proof fn lemma_sort_entries_stable(s: Seq<Node>, k: Node)
    ensures
        sort_entries(s).filter(key_of(k)) == s.filter(key_of(k)),
{
    lemma_node_order();
    lemma_sort_by_order_stable(s, node_order(), k);
    assert(unordered_with(node_order(), k) =~= key_of(k));
}

/// Sorting a tree a second time changes nothing.
pub proof fn lemma_sort_tree_idempotent(n: Node)
    ensures
        sort_tree(sort_tree(n)) == sort_tree(n),
    decreases n,
{
    broadcast use vstd::seq_lib::to_multiset_contains;

    match n {
        Node::File { .. } => {},
        Node::Directory { name, rel_path, children } => {
            let st = sort_trees(children);
            let e = sort_entries(st);
            lemma_sort_trees(children);
            lemma_sort_trees(e);
            lemma_sort_entries_permutation(st);
            assert forall|i: int| 0 <= i < e.len() implies #[trigger] sort_tree(e[i]) == e[i] by {
                assert(e.contains(e[i]));
                assert(e.to_multiset().count(e[i]) > 0);
                assert(st.contains(e[i]));
                let k = choose|k: int| 0 <= k < st.len() && st[k] == e[i];
                assert(decreases_to!(children => children[k]));
                lemma_sort_tree_idempotent(children[k]);
            }
            assert(sort_trees(e) =~= e);
            lemma_sort_entries_sorted(st);
            lemma_sort_by_order_of_sorted(e, node_order());
        },
    }
}


/// The entries of every directory in the tree are in order.
pub open spec fn tree_sorted(n: Node) -> bool
    decreases n,
{
    match n {
        Node::File { .. } => true,
        Node::Directory { children, .. } => sorted_by(children, node_order()) && forall|i: int|
            0 <= i < children.len() ==> tree_sorted(#[trigger] children[i]),
    }
}

/// After sorting, the entries of every directory in the tree are in order:
/// directories first, then files, each by name.
pub proof fn lemma_sort_tree_sorted(n: Node)
    ensures
        tree_sorted(sort_tree(n)),
    decreases n,
{
    broadcast use vstd::seq_lib::to_multiset_contains;

    match n {
        Node::File { .. } => {},
        Node::Directory { name, rel_path, children } => {
            let st = sort_trees(children);
            let e = sort_entries(st);
            lemma_sort_trees(children);
            lemma_sort_entries_permutation(st);
            lemma_sort_entries_sorted(st);
            assert forall|i: int| 0 <= i < e.len() implies tree_sorted(#[trigger] e[i]) by {
                assert(e.contains(e[i]));
                assert(e.to_multiset().count(e[i]) > 0);
                assert(st.contains(e[i]));
                let k = choose|k: int| 0 <= k < st.len() && st[k] == e[i];
                assert(decreases_to!(children => children[k]));
                lemma_sort_tree_sorted(children[k]);
            }
        },
    }
}

/// Sorting keeps the kind, name and path of a node.
pub proof fn lemma_sort_tree_keeps_node(n: Node)
    ensures
        sort_tree(n).is_dir() == n.is_dir(),
        sort_tree(n).name() == n.name(),
        match (sort_tree(n), n) {
            (Node::Directory { rel_path: a, .. }, Node::Directory { rel_path: b, .. }) => a == b,
            (Node::File { rel_path: a, is_binary: x, .. }, Node::File { rel_path: b, is_binary: y, .. }) => a == b && x == y,
            _ => false,
        },
{
}


// ---------------------------------------------------------------------------
// One line for each entry
// ---------------------------------------------------------------------------

/// How often `c` occurs in `s`.
pub open spec fn count_char(s: Seq<char>, c: char) -> nat
    decreases s.len(),
{
    if s.len() == 0 {
        0
    } else {
        count_char(s.drop_last(), c) + if s.last() == c {
            1nat
        } else {
            0nat
        }
    }
}

/// Counting adds up over concatenation.
pub proof fn lemma_count_char_add(a: Seq<char>, b: Seq<char>, c: char)
    ensures
        count_char(a + b, c) == count_char(a, c) + count_char(b, c),
    decreases b.len(),
{
    if b.len() == 0 {
        assert(a + b =~= a);
    } else {
        lemma_count_char_add(a, b.drop_last(), c);
        assert((a + b).drop_last() =~= a + b.drop_last());
    }
}

/// No name in the tree holds a line feed.
pub open spec fn names_on_one_line(n: Node) -> bool
    decreases n,
{
    count_char(n.name(), '\n') == 0 && match n {
        Node::File { .. } => true,
        Node::Directory { children, .. } => forall|i: int|
            0 <= i < children.len() ==> names_on_one_line(#[trigger] children[i]),
    }
}

/// The number of entries below `n`, at any depth.
pub open spec fn entries_below(n: Node) -> nat
    decreases n, 0int,
{
    match n {
        Node::File { .. } => 0,
        Node::Directory { children, .. } => entries_in(children, 0),
    }
}

/// The number of entries `cs[i..]` and of the entries below them.
pub open spec fn entries_in(cs: Seq<Node>, i: int) -> nat
    decreases cs, cs.len() - i,
{
    if i < 0 || i >= cs.len() {
        0
    } else {
        1 + entries_below(cs[i]) + entries_in(cs, i + 1)
    }
}

/// The connectors and prefixes hold no line feed; the ends of lines hold one.
proof fn lemma_pieces_count()
    ensures
        count_char(connector(true), '\n') == 0,
        count_char(connector(false), '\n') == 0,
        count_char(child_prefix(true), '\n') == 0,
        count_char(child_prefix(false), '\n') == 0,
        count_char("/\n"@, '\n') == 1,
        count_char("\n"@, '\n') == 1,
{
    reveal_strlit("└── ");
    reveal_strlit("├── ");
    reveal_strlit("    ");
    reveal_strlit("│   ");
    reveal_strlit("/\n");
    reveal_strlit("\n");
    reveal_with_fuel(count_char, 5);
}

/// Each entry drawn under a prefix without line feeds takes one line, and so
/// does every entry below it.
pub proof fn lemma_render_node_lines(n: Node, prefix: Seq<char>, is_last: bool)
    requires
        names_on_one_line(n),
        count_char(prefix, '\n') == 0,
    ensures
        count_char(render_node_text(n, prefix, is_last), '\n') == 1 + entries_below(n),
    decreases n, 0int,
{
    lemma_pieces_count();
    let head = prefix + connector(is_last) + n.name();
    lemma_count_char_add(prefix, connector(is_last), '\n');
    lemma_count_char_add(prefix + connector(is_last), n.name(), '\n');
    match n {
        Node::Directory { name, children, .. } => {
            let np = prefix + child_prefix(is_last);
            lemma_count_char_add(prefix, child_prefix(is_last), '\n');
            lemma_render_entries_lines(children, np, 0);
            lemma_count_char_add(head, "/\n"@, '\n');
            lemma_count_char_add(head + "/\n"@, render_entries(children, np, 0), '\n');
        },
        Node::File { name, .. } => {
            lemma_count_char_add(head, "\n"@, '\n');
        },
    }
}

/// The entries `cs[i..]` drawn under a prefix without line feeds take one
/// line each, and so does every entry below them.
pub proof fn lemma_render_entries_lines(cs: Seq<Node>, prefix: Seq<char>, i: int)
    requires
        forall|j: int| 0 <= j < cs.len() ==> names_on_one_line(#[trigger] cs[j]),
        count_char(prefix, '\n') == 0,
    ensures
        count_char(render_entries(cs, prefix, i), '\n') == entries_in(cs, i),
    decreases cs, cs.len() - i,
{
    if 0 <= i < cs.len() {
        lemma_render_node_lines(cs[i], prefix, i == cs.len() - 1);
        lemma_render_entries_lines(cs, prefix, i + 1);
        lemma_count_char_add(
            render_node_text(cs[i], prefix, i == cs.len() - 1),
            render_entries(cs, prefix, i + 1),
            '\n',
        );
    }
}

/// `render_tree` draws one line for each entry below a directory, and one
/// line for a file.
pub proof fn lemma_render_tree_lines(n: Node)
    requires
        names_on_one_line(n),
    ensures
        count_char(render_tree_text(n), '\n') == if n is Directory {
            entries_below(n)
        } else {
            1
        },
{
    lemma_pieces_count();
    match n {
        Node::Directory { children, .. } => {
            lemma_render_entries_lines(children, Seq::empty(), 0);
        },
        Node::File { name, .. } => {
            lemma_count_char_add(name, "\n"@, '\n');
        },
    }
}

// ---------------------------------------------------------------------------
// Every line under its prefix
// ---------------------------------------------------------------------------

/// Whether a line of `s` begins at `i`: at the start of `s`, or just after a
/// line feed.
pub open spec fn line_begins_at(s: Seq<char>, i: int) -> bool {
    0 <= i < s.len() && (i == 0 || s[i - 1] == '\n')
}

/// Whether every line of `s` begins with `p`.
pub open spec fn lines_begin_with(s: Seq<char>, p: Seq<char>) -> bool {
    forall|i: int| #[trigger]
        line_begins_at(s, i) ==> i + p.len() <= s.len() && s.subrange(i, i + p.len()) == p
}

/// A character that `s` does not hold is at no index of `s`.
proof fn lemma_count_char_zero(s: Seq<char>, c: char)
    requires
        count_char(s, c) == 0,
    ensures
        forall|i: int| 0 <= i < s.len() ==> s[i] != c,
    decreases s.len(),
{
    if s.len() > 0 {
        lemma_count_char_zero(s.drop_last(), c);
        assert forall|i: int| 0 <= i < s.len() implies s[i] != c by {
            if i < s.len() - 1 {
                assert(s[i] == s.drop_last()[i]);
            }
        }
    }
}

/// Text that starts with `p` and holds a line feed at most at its end is one
/// line, and it begins with `p`.
proof fn lemma_one_line(t: Seq<char>, p: Seq<char>)
    requires
        p.len() <= t.len(),
        t.subrange(0, p.len() as int) == p,
        forall|i: int| 0 <= i < t.len() - 1 ==> t[i] != '\n',
    ensures
        lines_begin_with(t, p),
{
    assert forall|i: int| #[trigger] line_begins_at(t, i) implies i + p.len() <= t.len()
        && t.subrange(i, i + p.len()) == p by {
        if i > 0 {
            assert(t[i - 1] == '\n');
        }
    }
}

/// Lines that begin with `p`, followed by more such lines, still begin with
/// `p`.
proof fn lemma_lines_concat(a: Seq<char>, b: Seq<char>, p: Seq<char>)
    requires
        lines_begin_with(a, p),
        lines_begin_with(b, p),
        a.len() == 0 || a.last() == '\n',
    ensures
        lines_begin_with(a + b, p),
{
    let s = a + b;
    assert forall|i: int| #[trigger] line_begins_at(s, i) implies i + p.len() <= s.len()
        && s.subrange(i, i + p.len()) == p by {
        if i < a.len() {
            if i > 0 {
                assert(s[i - 1] == a[i - 1]);
            }
            assert(line_begins_at(a, i));
            assert(s.subrange(i, i + p.len()) =~= a.subrange(i, i + p.len()));
        } else {
            let j = i - a.len();
            if j > 0 {
                assert(s[i - 1] == b[j - 1]);
            }
            assert(line_begins_at(b, j));
            assert(s.subrange(i, i + p.len()) =~= b.subrange(j, j + p.len()));
        }
    }
}

/// Lines that begin with `p + q` begin with `p`.
proof fn lemma_lines_shorter_prefix(s: Seq<char>, p: Seq<char>, q: Seq<char>)
    requires
        lines_begin_with(s, p + q),
    ensures
        lines_begin_with(s, p),
{
    assert forall|i: int| #[trigger] line_begins_at(s, i) implies i + p.len() <= s.len()
        && s.subrange(i, i + p.len()) == p by {
        assert(s.subrange(i, i + (p + q).len()) == p + q);
        assert(s.subrange(i, i + p.len()) =~= s.subrange(i, i + (p + q).len()).subrange(
            0,
            p.len() as int,
        ));
        assert((p + q).subrange(0, p.len() as int) =~= p);
    }
}

/// The line that shows an entry itself: `prefix`, the connector, the name
/// and `end`, a line feed with or without a slash before it.
proof fn lemma_entry_line(prefix: Seq<char>, is_last: bool, name: Seq<char>, end: Seq<char>)
    requires
        count_char(prefix, '\n') == 0,
        count_char(name, '\n') == 0,
        end == "/\n"@ || end == "\n"@,
    ensures
        lines_begin_with(prefix + connector(is_last) + name + end, prefix),
        (prefix + connector(is_last) + name + end).len() > 0,
        (prefix + connector(is_last) + name + end).last() == '\n',
{
    lemma_pieces_count();
    reveal_strlit("/\n");
    reveal_strlit("\n");
    let head = prefix + connector(is_last) + name;
    let t = head + end;
    lemma_count_char_add(prefix, connector(is_last), '\n');
    lemma_count_char_add(prefix + connector(is_last), name, '\n');
    lemma_count_char_zero(head, '\n');
    assert forall|i: int| 0 <= i < t.len() - 1 implies t[i] != '\n' by {
        if i < head.len() {
            assert(t[i] == head[i]);
        } else {
            assert(t[i] == '/');
        }
    }
    assert(t.subrange(0, prefix.len() as int) =~= prefix);
    lemma_one_line(t, prefix);
}

/// Every line that draws an entry, and the entries below it, begins with the
/// prefix it is drawn under, when neither that prefix nor a name holds a line
/// feed; the drawing ends with a line feed.
pub proof fn lemma_render_node_prefix(n: Node, prefix: Seq<char>, is_last: bool)
    requires
        names_on_one_line(n),
        count_char(prefix, '\n') == 0,
    ensures
        lines_begin_with(render_node_text(n, prefix, is_last), prefix),
        render_node_text(n, prefix, is_last).len() > 0,
        render_node_text(n, prefix, is_last).last() == '\n',
    decreases n, 0int,
{
    match n {
        Node::Directory { name, children, .. } => {
            let line = prefix + connector(is_last) + name + "/\n"@;
            lemma_entry_line(prefix, is_last, name, "/\n"@);
            let np = prefix + child_prefix(is_last);
            lemma_pieces_count();
            lemma_count_char_add(prefix, child_prefix(is_last), '\n');
            lemma_render_entries_prefix(children, np, 0);
            lemma_lines_shorter_prefix(render_entries(children, np, 0), prefix, child_prefix(is_last));
            let rest = render_entries(children, np, 0);
            lemma_lines_concat(line, rest, prefix);
            let t = line + rest;
            if rest.len() == 0 {
                assert(t =~= line);
            } else {
                assert(t.last() == rest.last());
            }
        },
        Node::File { name, .. } => {
            lemma_entry_line(prefix, is_last, name, "\n"@);
        },
    }
}

/// The entries `cs[i..]` drawn under a prefix without line feeds, with names
/// without line feeds: every line begins with the prefix, and the drawing is
/// empty or ends with a line feed.
pub proof fn lemma_render_entries_prefix(cs: Seq<Node>, prefix: Seq<char>, i: int)
    requires
        forall|j: int| 0 <= j < cs.len() ==> names_on_one_line(#[trigger] cs[j]),
        count_char(prefix, '\n') == 0,
    ensures
        lines_begin_with(render_entries(cs, prefix, i), prefix),
        render_entries(cs, prefix, i).len() == 0 || render_entries(cs, prefix, i).last() == '\n',
    decreases cs, cs.len() - i,
{
    if 0 <= i < cs.len() {
        let a = render_node_text(cs[i], prefix, i == cs.len() - 1);
        let b = render_entries(cs, prefix, i + 1);
        lemma_render_node_prefix(cs[i], prefix, i == cs.len() - 1);
        lemma_render_entries_prefix(cs, prefix, i + 1);
        lemma_lines_concat(a, b, prefix);
    } else {
        let e = render_entries(cs, prefix, i);
        assert forall|k: int| #[trigger] line_begins_at(e, k) implies k + prefix.len() <= e.len()
            && e.subrange(k, k + prefix.len()) == prefix by {}
    }
}

} // verus!
