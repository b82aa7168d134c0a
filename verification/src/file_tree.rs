//! The project file tree shown in the sidebar, built from the flat list of
//! file paths that the storage backends return.
use vstd::prelude::*;
use crate::text::{
    str_equal, chars_of, find_char, first_index_of, lemma_first_index_of, lowercase,
    slice_chars, string_of, to_lowercase,
};

verus! {

/// A node of the file tree.
#[derive(Debug)]
pub enum FileTreeNode {
    File { name: String, path: String },
    Directory { name: String, path: String, children: Vec<FileTreeNode>, expanded: bool },
}

/// The name a node shows.
pub open spec fn node_name(n: FileTreeNode) -> Seq<char> {
    match n {
        FileTreeNode::File { name, .. } => name@,
        FileTreeNode::Directory { name, .. } => name@,
    }
}

/// The path a node carries.
pub open spec fn node_path(n: FileTreeNode) -> Seq<char> {
    match n {
        FileTreeNode::File { path, .. } => path@,
        FileTreeNode::Directory { path, .. } => path@,
    }
}

/// The node is a directory.
pub open spec fn is_dir(n: FileTreeNode) -> bool {
    n is Directory
}

impl FileTreeNode {
    /// The node's name.
    pub fn name(&self) -> (r: &str)
        ensures
            r@ == node_name(*self),
    {
        match self {
            FileTreeNode::File { name, .. } => name.as_str(),
            FileTreeNode::Directory { name, .. } => name.as_str(),
        }
    }

    /// The node's path.
    pub fn path(&self) -> (r: &str)
        ensures
            r@ == node_path(*self),
    {
        match self {
            FileTreeNode::File { path, .. } => path.as_str(),
            FileTreeNode::Directory { path, .. } => path.as_str(),
        }
    }

    /// The node is a directory.
    pub fn is_directory(&self) -> (r: bool)
        ensures
            r == is_dir(*self),
    {
        match self {
            FileTreeNode::Directory { .. } => true,
            FileTreeNode::File { .. } => false,
        }
    }
}

// ---------------------------------------------------------------------------
// Paths
// ---------------------------------------------------------------------------
/// `str::split` with a character: the pieces between its occurrences.
pub open spec fn split_on(s: Seq<char>, c: char) -> Seq<Seq<char>>
    decreases s.len(),
{
    match first_index_of(s, c) {
        Some(i) => {
            proof {
                lemma_first_index_of(s, c);
            }
            seq![s.take(i)] + split_on(s.skip(i + 1), c)
        },
        None => seq![s],
    }
}

/// The pieces joined again with `c` between them.
pub open spec fn join_on(parts: Seq<Seq<char>>, c: char) -> Seq<char>
    decreases parts.len(),
{
    if parts.len() == 0 {
        Seq::empty()
    } else if parts.len() == 1 {
        parts[0]
    } else {
        parts[0] + seq![c] + join_on(parts.drop_first(), c)
    }
}

/// The components of a path.
pub open spec fn split_path(p: Seq<char>) -> Seq<Seq<char>> {
    split_on(p, '/')
}

/// Joining the pieces of a split gives the text back; so two texts with the
/// same pieces are equal.
pub proof fn lemma_join_split(s: Seq<char>, c: char)
    ensures
        join_on(split_on(s, c), c) == s,
        split_on(s, c).len() >= 1,
    decreases s.len(),
{
    lemma_first_index_of(s, c);
    match first_index_of(s, c) {
        Some(i) => {
            lemma_join_split(s.skip(i + 1), c);
            let parts = split_on(s, c);
            assert(parts.drop_first() =~= split_on(s.skip(i + 1), c));
            assert(s =~= s.take(i) + seq![c] + s.skip(i + 1));
        },
        None => {},
    }
}

/// Text before the first separator is the first piece, and the rest is split
/// after it; text without the separator is one piece.
pub proof fn lemma_split_on_first(a: Seq<char>, b: Seq<char>, c: char)
    requires
        forall|i: int| 0 <= i < a.len() ==> a[i] != c,
    ensures
        split_on(a + seq![c] + b, c) == seq![a] + split_on(b, c),
        split_on(a, c) == seq![a],
{
    let s = a + seq![c] + b;
    lemma_first_index_of(s, c);
    lemma_first_index_of(a, c);
    assert(s[a.len() as int] == c);
    match first_index_of(s, c) {
        Some(i) => {
            if i < a.len() {
                assert(s[i] == a[i]);
            }
            assert(i == a.len());
            assert(s.take(i) =~= a);
            assert(s.skip(i + 1) =~= b);
        },
        None => {},
    }
}

/// Joining one piece more adds the separator and that piece at the end.
pub proof fn lemma_join_on_push(parts: Seq<Seq<char>>, x: Seq<char>, c: char)
    ensures
        parts.len() == 0 ==> join_on(parts.push(x), c) == x,
        parts.len() > 0 ==> join_on(parts.push(x), c) == join_on(parts, c) + seq![c] + x,
    decreases parts.len(),
{
    if parts.len() == 1 {
        assert(parts.push(x).drop_first() =~= seq![x]);
        assert(join_on(seq![x], c) == x);
    } else if parts.len() > 1 {
        lemma_join_on_push(parts.drop_first(), x, c);
        assert(parts.push(x).drop_first() =~= parts.drop_first().push(x));
    } else {
        assert(parts.push(x) =~= seq![x]);
    }
}

/// Pieces without the separator, joined with it and split again, come back.
pub proof fn lemma_split_join(parts: Seq<Seq<char>>, c: char)
    requires
        parts.len() >= 1,
        forall|i: int, j: int| 0 <= i < parts.len() && 0 <= j < parts[i].len() ==> parts[i][j] != c,
    ensures
        split_on(join_on(parts, c), c) == parts,
    decreases parts.len(),
{
    if parts.len() == 1 {
        lemma_split_on_first(parts[0], Seq::empty(), c);
        assert(parts =~= seq![parts[0]]);
    } else {
        let rest = parts.drop_first();
        assert forall|i: int, j: int| 0 <= i < rest.len() && 0 <= j < rest[i].len() implies rest[i][j] != c by {
            assert(rest[i] == parts[i + 1]);
        }
        lemma_split_join(rest, c);
        lemma_split_on_first(parts[0], join_on(rest, c), c);
        assert(parts =~= seq![parts[0]] + rest);
    }
}

/// `p` holds `/.` at index `i`.
pub open spec fn slash_dot_at(p: Seq<char>, i: int) -> bool {
    p[i] == '/' && p[i + 1] == '.'
}

/// A hidden path: it starts with `.` or holds `/.`.
pub open spec fn hidden(p: Seq<char>) -> bool {
    (p.len() > 0 && p[0] == '.') || exists|i: int| 0 <= i < p.len() - 1 && #[trigger] slash_dot_at(p, i)
}

fn is_hidden(p: &[char]) -> (r: bool)
    ensures
        r == hidden(p@),
{
    if p.len() > 0 && p[0] == '.' {
        return true;
    }
    let mut i: usize = 0;
    while p.len() > 0 && i < p.len() - 1
        invariant
            i <= p.len(),
            forall|j: int| 0 <= j < i ==> !#[trigger] slash_dot_at(p@, j),
        decreases p.len() - i,
    {
        if p[i] == '/' && p[i + 1] == '.' {
            assert(slash_dot_at(p@, i as int));
            return true;
        }
        i = i + 1;
    }
    false
}

/// The pieces of `p` between the separators `c`, as `split(c)` yields them.
pub fn split_text(p: &[char], c: char) -> (r: Vec<String>)
    ensures
        r@.map_values(|s: String| s@) == split_on(p@, c),
{
    let mut parts: Vec<String> = Vec::new();
    let mut rest: Vec<char> = slice_chars(p, 0, p.len());
    assert(rest@ == p@);
    loop
        invariant
            split_on(p@, c) == parts@.map_values(|s: String| s@) + split_on(rest@, c),
        decreases rest.len(),
    {
        proof {
            lemma_first_index_of(rest@, c);
        }
        match find_char(&rest, c) {
            Some(i) => {
                let piece = string_of(&slice_chars(&rest, 0, i));
                let next = slice_chars(&rest, i + 1, rest.len());
                let ghost before = parts@.map_values(|s: String| s@);
                assert(piece@ == rest@.take(i as int));
                assert(next@ == rest@.skip(i + 1));
                parts.push(piece);
                assert(parts@.map_values(|s: String| s@) =~= before.push(piece@));
                assert(before + split_on(rest@, c) =~= before.push(piece@) + split_on(next@, c));
                rest = next;
            },
            None => {
                let ghost before = parts@.map_values(|s: String| s@);
                let piece = string_of(&rest);
                parts.push(piece);
                assert(parts@.map_values(|s: String| s@) =~= before + split_on(rest@, c));
                return parts;
            },
        }
    }
}

/// The pieces of `v` between the separators `c`, as character vectors.
pub fn split_chars(v: &[char], c: char) -> (r: Vec<Vec<char>>)
    ensures
        r@.map_values(|s: Vec<char>| s@) == split_on(v@, c),
{
    let mut parts: Vec<Vec<char>> = Vec::new();
    let mut rest: Vec<char> = slice_chars(v, 0, v.len());
    assert(rest@ == v@);
    assert(parts@.map_values(|s: Vec<char>| s@) + split_on(rest@, c) =~= split_on(v@, c));
    loop
        invariant
            split_on(v@, c) == parts@.map_values(|s: Vec<char>| s@) + split_on(rest@, c),
        decreases rest.len(),
    {
        proof {
            lemma_first_index_of(rest@, c);
        }
        match find_char(&rest, c) {
            Some(i) => {
                let piece = slice_chars(&rest, 0, i);
                let next = slice_chars(&rest, i + 1, rest.len());
                let ghost before = parts@.map_values(|s: Vec<char>| s@);
                parts.push(piece);
                assert(parts@.map_values(|s: Vec<char>| s@) =~= before.push(rest@.take(i as int)));
                assert(before + split_on(rest@, c) =~= before.push(rest@.take(i as int)) + split_on(
                    next@, c));
                rest = next;
            },
            None => {
                let ghost before = parts@.map_values(|s: Vec<char>| s@);
                let ghost last = rest@;
                parts.push(rest);
                assert(parts@.map_values(|s: Vec<char>| s@) =~= before + split_on(last, c));
                return parts;
            },
        }
    }
}

// ---------------------------------------------------------------------------
// The tree's contents
// ---------------------------------------------------------------------------
/// The paths of the files under a node (the node itself, for a file).
pub open spec fn node_files(n: FileTreeNode) -> Set<Seq<char>>
    decreases n,
{
    match n {
        FileTreeNode::File { path, .. } => set![path@],
        FileTreeNode::Directory { children, .. } => forest_files(children@),
    }
}

/// The paths of the files under a list of nodes.
pub open spec fn forest_files(ns: Seq<FileTreeNode>) -> Set<Seq<char>>
    decreases ns,
{
    if ns.len() == 0 {
        Set::empty()
    } else {
        node_files(ns[0]).union(forest_files(ns.drop_first()))
    }
}

/// A node placed under the directories `prefix`: a file's path has exactly
/// the components `prefix` and its name; a directory's path is the first
/// component of that location, and its children are placed under it.
pub open spec fn node_wf(n: FileTreeNode, prefix: Seq<Seq<char>>) -> bool
    decreases n,
{
    match n {
        FileTreeNode::File { name, path } => split_path(path@) == prefix.push(name@),
        FileTreeNode::Directory { name, path, children, .. } => {
            &&& path@ == prefix.push(name@)[0]
            &&& forest_wf(children@, prefix.push(name@))
        },
    }
}

/// Every node of the list is placed under `prefix`.
pub open spec fn forest_wf(ns: Seq<FileTreeNode>, prefix: Seq<Seq<char>>) -> bool
    decreases ns,
{
    if ns.len() == 0 {
        true
    } else {
        node_wf(ns[0], prefix) && forest_wf(ns.drop_first(), prefix)
    }
}

pub proof fn lemma_forest_files(ns: Seq<FileTreeNode>)
    ensures
        forall|x: Seq<char>| #[trigger] forest_files(ns).contains(x) <==> exists|i: int| 0 <= i < ns.len() && node_files(ns[i]).contains(x),
    decreases ns.len(),
{
    if ns.len() > 0 {
        lemma_forest_files(ns.drop_first());
        assert forall|x: Seq<char>| #[trigger] forest_files(ns).contains(x) <==> exists|i: int| 0 <= i < ns.len() && node_files(ns[i]).contains(x) by {
            if forest_files(ns.drop_first()).contains(x) {
                let i = choose|i: int| 0 <= i < ns.len() - 1 && node_files(ns.drop_first()[i]).contains(x);
                assert(node_files(ns[i + 1]).contains(x));
            }
            if exists|i: int| 0 <= i < ns.len() && node_files(ns[i]).contains(x) {
                let i = choose|i: int| 0 <= i < ns.len() && node_files(ns[i]).contains(x);
                if i > 0 {
                    assert(ns.drop_first()[i - 1] == ns[i]);
                }
            }
        }
    }
}

pub proof fn lemma_forest_wf(ns: Seq<FileTreeNode>, prefix: Seq<Seq<char>>)
    ensures
        forest_wf(ns, prefix) <==> forall|i: int| 0 <= i < ns.len() ==> node_wf(#[trigger] ns[i], prefix),
    decreases ns.len(),
{
    if ns.len() > 0 {
        lemma_forest_wf(ns.drop_first(), prefix);
        if forall|i: int| 0 <= i < ns.len() ==> node_wf(#[trigger] ns[i], prefix) {
            assert forall|i: int| 0 <= i < ns.len() - 1 implies node_wf(#[trigger] ns.drop_first()[i], prefix) by {
                assert(ns.drop_first()[i] == ns[i + 1]);
            }
        }
        if forest_wf(ns, prefix) {
            assert forall|i: int| 0 <= i < ns.len() implies node_wf(#[trigger] ns[i], prefix) by {
                if i > 0 {
                    assert(ns.drop_first()[i - 1] == ns[i]);
                }
            }
        }
    }
}

proof fn lemma_update_files(ns: Seq<FileTreeNode>, k: int, n2: FileTreeNode, x: Seq<char>)
    requires
        0 <= k < ns.len(),
        node_files(n2) == node_files(ns[k]).insert(x),
    ensures
        forest_files(ns.update(k, n2)) == forest_files(ns).insert(x),
{
    let ms = ns.update(k, n2);
    lemma_forest_files(ns);
    lemma_forest_files(ms);
    assert forall|y: Seq<char>| forest_files(ms).contains(y) <==> forest_files(ns).insert(x).contains(y) by {
        if forest_files(ms).contains(y) {
            let i = choose|i: int| 0 <= i < ms.len() && node_files(ms[i]).contains(y);
            if i != k {
                assert(node_files(ns[i]).contains(y));
            } else if y != x {
                assert(node_files(ns[k]).contains(y));
            }
        }
        if forest_files(ns).insert(x).contains(y) {
            if y == x {
                assert(node_files(ms[k]).contains(y));
            } else {
                let i = choose|i: int| 0 <= i < ns.len() && node_files(ns[i]).contains(y);
                if i != k {
                    assert(node_files(ms[i]).contains(y));
                } else {
                    assert(node_files(ms[k]).contains(y));
                }
            }
        }
    }
    assert(forest_files(ms) =~= forest_files(ns).insert(x));
}

proof fn lemma_push_files(ns: Seq<FileTreeNode>, n2: FileTreeNode)
    ensures
        forest_files(ns.push(n2)) == forest_files(ns).union(node_files(n2)),
{
    let ms = ns.push(n2);
    lemma_forest_files(ns);
    lemma_forest_files(ms);
    assert forall|y: Seq<char>| forest_files(ms).contains(y) <==> forest_files(ns).union(node_files(n2)).contains(y) by {
        if forest_files(ms).contains(y) {
            let i = choose|i: int| 0 <= i < ms.len() && node_files(ms[i]).contains(y);
            if i < ns.len() {
                assert(node_files(ns[i]).contains(y));
            }
        }
        if forest_files(ns).contains(y) {
            let i = choose|i: int| 0 <= i < ns.len() && node_files(ns[i]).contains(y);
            assert(node_files(ms[i]).contains(y));
        }
        if node_files(n2).contains(y) {
            assert(node_files(ms[ns.len() as int]).contains(y));
        }
    }
    assert(forest_files(ms) =~= forest_files(ns).union(node_files(n2)));
}

proof fn lemma_wf_update(ns: Seq<FileTreeNode>, k: int, n2: FileTreeNode, prefix: Seq<Seq<char>>)
    requires
        0 <= k < ns.len(),
        forest_wf(ns, prefix),
        node_wf(n2, prefix),
    ensures
        forest_wf(ns.update(k, n2), prefix),
{
    lemma_forest_wf(ns, prefix);
    lemma_forest_wf(ns.update(k, n2), prefix);
    assert forall|i: int| 0 <= i < ns.len() implies node_wf(#[trigger] ns.update(k, n2)[i], prefix) by {
        if i != k {
            assert(node_wf(ns[i], prefix));
        }
    }
}

proof fn lemma_wf_push(ns: Seq<FileTreeNode>, n2: FileTreeNode, prefix: Seq<Seq<char>>)
    requires
        forest_wf(ns, prefix),
        node_wf(n2, prefix),
    ensures
        forest_wf(ns.push(n2), prefix),
{
    lemma_forest_wf(ns, prefix);
    lemma_forest_wf(ns.push(n2), prefix);
    assert forall|i: int| 0 <= i < ns.len() + 1 implies node_wf(#[trigger] ns.push(n2)[i], prefix) by {
        if i < ns.len() {
            assert(node_wf(ns[i], prefix));
        }
    }
}

// ---------------------------------------------------------------------------
// Shape: one node per kind and name, open and non-empty directories
// ---------------------------------------------------------------------------
/// What tells a node from its siblings: its kind and its name.
pub open spec fn node_slot(n: FileTreeNode) -> (bool, Seq<char>) {
    (is_dir(n), node_name(n))
}

/// The kinds and names of a list of nodes.
pub open spec fn slots(ns: Seq<FileTreeNode>) -> Seq<(bool, Seq<char>)> {
    ns.map_values(|n: FileTreeNode| node_slot(n))
}

/// No two nodes of the list are of the same kind with the same name.
pub open spec fn level_distinct(ns: Seq<FileTreeNode>) -> bool {
    slots(ns).no_duplicates()
}

/// Every directory under the node is open, holds at least one node, and
/// holds no two nodes of the same kind and name.
pub open spec fn node_tidy(n: FileTreeNode) -> bool
    decreases n,
{
    match n {
        FileTreeNode::File { .. } => true,
        FileTreeNode::Directory { children, expanded, .. } => {
            &&& expanded
            &&& children@.len() > 0
            &&& level_distinct(children@)
            &&& all_tidy(children@)
        },
    }
}

/// Every node of the list is tidy within.
pub open spec fn all_tidy(ns: Seq<FileTreeNode>) -> bool
    decreases ns,
{
    if ns.len() == 0 {
        true
    } else {
        node_tidy(ns[0]) && all_tidy(ns.drop_first())
    }
}

/// The list holds no two nodes of the same kind and name, and every
/// directory under it is open, non-empty and likewise without such twins.
pub open spec fn tree_tidy(ns: Seq<FileTreeNode>) -> bool {
    level_distinct(ns) && all_tidy(ns)
}

proof fn lemma_all_tidy(ns: Seq<FileTreeNode>)
    ensures
        all_tidy(ns) <==> forall|i: int| 0 <= i < ns.len() ==> node_tidy(#[trigger] ns[i]),
    decreases ns.len(),
{
    if ns.len() > 0 {
        lemma_all_tidy(ns.drop_first());
        if forall|i: int| 0 <= i < ns.len() ==> node_tidy(#[trigger] ns[i]) {
            assert forall|i: int| 0 <= i < ns.len() - 1 implies node_tidy(#[trigger] ns.drop_first()[i]) by {
                assert(ns.drop_first()[i] == ns[i + 1]);
            }
        }
        if all_tidy(ns) {
            assert forall|i: int| 0 <= i < ns.len() implies node_tidy(#[trigger] ns[i]) by {
                if i > 0 {
                    assert(ns.drop_first()[i - 1] == ns[i]);
                }
            }
        }
    }
}

/// `m` is `n` with nodes perhaps added at the ends of directory listings:
/// the same kind, name, path and open state, and every node under `n` kept
/// in its place.
pub open spec fn node_extends(n: FileTreeNode, m: FileTreeNode) -> bool
    decreases n,
{
    match n {
        FileTreeNode::File { name, path } => m matches FileTreeNode::File { name: name2, path: path2 } && name2@ == name@
            && path2@ == path@,
        FileTreeNode::Directory { name, path, children, expanded } => match m {
            FileTreeNode::Directory { name: name2, path: path2, children: children2, expanded: expanded2 } => {
                &&& name2@ == name@
                &&& path2@ == path@
                &&& expanded2 == expanded
                &&& forest_extends(children@, children2@)
            },
            FileTreeNode::File { .. } => false,
        },
    }
}

/// `b` starts with the nodes of `a`, each extended.
pub open spec fn forest_extends(a: Seq<FileTreeNode>, b: Seq<FileTreeNode>) -> bool
    decreases a,
{
    if a.len() == 0 {
        true
    } else {
        b.len() > 0 && node_extends(a[0], b[0]) && forest_extends(a.drop_first(), b.drop_first())
    }
}

proof fn lemma_forest_extends(a: Seq<FileTreeNode>, b: Seq<FileTreeNode>)
    ensures
        forest_extends(a, b) <==> (a.len() <= b.len() && forall|i: int|
            0 <= i < a.len() ==> node_extends(#[trigger] a[i], b[i])),
    decreases a.len(),
{
    if a.len() > 0 && b.len() > 0 {
        lemma_forest_extends(a.drop_first(), b.drop_first());
        if a.len() <= b.len() && forall|i: int| 0 <= i < a.len() ==> node_extends(#[trigger] a[i], b[i]) {
            assert forall|i: int| 0 <= i < a.len() - 1 implies node_extends(
                #[trigger] a.drop_first()[i],
                b.drop_first()[i],
            ) by {
                assert(a.drop_first()[i] == a[i + 1]);
                assert(node_extends(a[i + 1], b[i + 1]));
            }
        }
        if forest_extends(a, b) {
            assert forall|i: int| 0 <= i < a.len() implies node_extends(#[trigger] a[i], b[i]) by {
                if i > 0 {
                    assert(a.drop_first()[i - 1] == a[i]);
                    assert(node_extends(a.drop_first()[i - 1], b.drop_first()[i - 1]));
                }
            }
        }
    } else if a.len() > 0 {
        assert(!(a.len() <= b.len()));
    }
}

proof fn lemma_node_extends_refl(n: FileTreeNode)
    ensures
        node_extends(n, n),
    decreases n,
{
    match n {
        FileTreeNode::File { .. } => {},
        FileTreeNode::Directory { children, .. } => {
            lemma_forest_extends_refl(children@);
        },
    }
}

proof fn lemma_forest_extends_refl(ns: Seq<FileTreeNode>)
    ensures
        forest_extends(ns, ns),
    decreases ns,
{
    lemma_forest_extends(ns, ns);
    assert forall|i: int| 0 <= i < ns.len() implies node_extends(#[trigger] ns[i], ns[i]) by {
        lemma_node_extends_refl(ns[i]);
    }
}

/// Adding a node at the end extends the list.
proof fn lemma_extends_push(ns: Seq<FileTreeNode>, x: FileTreeNode)
    ensures
        forest_extends(ns, ns.push(x)),
{
    lemma_forest_extends(ns, ns.push(x));
    assert forall|i: int| 0 <= i < ns.len() implies node_extends(#[trigger] ns[i], ns.push(x)[i]) by {
        lemma_node_extends_refl(ns[i]);
    }
}

/// Extending one node extends the list.
proof fn lemma_extends_update(ns: Seq<FileTreeNode>, k: int, x: FileTreeNode)
    requires
        0 <= k < ns.len(),
        node_extends(ns[k], x),
    ensures
        forest_extends(ns, ns.update(k, x)),
{
    lemma_forest_extends(ns, ns.update(k, x));
    assert forall|i: int| 0 <= i < ns.len() implies node_extends(#[trigger] ns[i], ns.update(k, x)[i]) by {
        if i != k {
            lemma_node_extends_refl(ns[i]);
        }
    }
}

/// A node added at the end with a kind and name that the list lacks keeps
/// the list tidy, where the node is tidy.
proof fn lemma_tidy_push(ns: Seq<FileTreeNode>, x: FileTreeNode)
    requires
        tree_tidy(ns),
        node_tidy(x),
        forall|j: int| 0 <= j < ns.len() ==> node_slot(ns[j]) != node_slot(x),
    ensures
        tree_tidy(ns.push(x)),
{
    let ms = ns.push(x);
    assert(slots(ms) =~= slots(ns).push(node_slot(x)));
    assert forall|i: int, j: int| 0 <= i < slots(ms).len() && 0 <= j < slots(ms).len() && i != j implies slots(ms)[i]
        != slots(ms)[j] by {
        if i < ns.len() && j < ns.len() {
            assert(slots(ms)[i] == slots(ns)[i]);
            assert(slots(ms)[j] == slots(ns)[j]);
        } else if i < ns.len() {
            assert(slots(ms)[i] == node_slot(ns[i]));
        } else if j < ns.len() {
            assert(slots(ms)[j] == node_slot(ns[j]));
        }
    }
    lemma_all_tidy(ns);
    lemma_all_tidy(ms);
    assert forall|i: int| 0 <= i < ms.len() implies node_tidy(#[trigger] ms[i]) by {
        if i < ns.len() {
            assert(ms[i] == ns[i]);
        }
    }
}

/// A node replaced by a tidy one of the same kind and name keeps the list
/// tidy.
proof fn lemma_tidy_update(ns: Seq<FileTreeNode>, k: int, x: FileTreeNode)
    requires
        0 <= k < ns.len(),
        tree_tidy(ns),
        node_tidy(x),
        node_slot(x) == node_slot(ns[k]),
    ensures
        tree_tidy(ns.update(k, x)),
{
    let ms = ns.update(k, x);
    assert(slots(ms) =~= slots(ns));
    lemma_all_tidy(ns);
    lemma_all_tidy(ms);
    assert forall|i: int| 0 <= i < ms.len() implies node_tidy(#[trigger] ms[i]) by {
        if i != k {
            assert(ms[i] == ns[i]);
        }
    }
}

/// Reordering a list keeps its kinds and names distinct.
proof fn lemma_distinct_perm(a: Seq<FileTreeNode>, b: Seq<FileTreeNode>)
    requires
        a.to_multiset() == b.to_multiset(),
        level_distinct(a),
    ensures
        level_distinct(b),
{
    let f = |n: FileTreeNode| node_slot(n);
    crate::assoc::lemma_map_multiset(a, b, f);
    assert(slots(a) =~= a.map_values(f));
    assert(slots(b) =~= b.map_values(f));
    slots(a).lemma_multiset_has_no_duplicates();
    slots(b).lemma_multiset_has_no_duplicates_conv();
}

/// The index of the first node of the list with the given kind and name.
pub open spec fn first_slot(ns: Seq<FileTreeNode>, slot: (bool, Seq<char>)) -> Option<int>
    decreases ns.len(),
{
    if ns.len() == 0 {
        None
    } else if node_slot(ns[0]) == slot {
        Some(0)
    } else {
        match first_slot(ns.drop_first(), slot) {
            Some(i) => Some(i + 1),
            None => None,
        }
    }
}

proof fn lemma_first_slot(ns: Seq<FileTreeNode>, slot: (bool, Seq<char>), k: Option<int>)
    requires
        match k {
            Some(i) => 0 <= i < ns.len() && node_slot(ns[i]) == slot && forall|j: int|
                0 <= j < i ==> node_slot(#[trigger] ns[j]) != slot,
            None => forall|j: int| 0 <= j < ns.len() ==> node_slot(#[trigger] ns[j]) != slot,
        },
    ensures
        first_slot(ns, slot) == k,
    decreases ns.len(),
{
    if ns.len() > 0 && node_slot(ns[0]) != slot {
        let k2 = match k {
            Some(i) => Some(i - 1),
            None => None,
        };
        assert forall|j: int| 0 <= j < ns.len() - 1 implies (match k2 {
            Some(i) => j < i,
            None => true,
        }) ==> node_slot(#[trigger] ns.drop_first()[j]) != slot by {
            assert(ns.drop_first()[j] == ns[j + 1]);
        }
        match k {
            Some(i) => {
                assert(node_slot(ns.drop_first()[i - 1]) == slot);
            },
            None => {},
        }
        lemma_first_slot(ns.drop_first(), slot, k2);
    }
}

/// The path a directory made for `full_path` carries: the path's first
/// component, or `name` where the path has no `/`.
pub open spec fn route_dir_path(full_path: Seq<char>, name: Seq<char>) -> Seq<char> {
    match first_index_of(full_path, '/') {
        Some(i) => full_path.take(i),
        None => name,
    }
}

/// What putting the file `full_path`, with remaining components `parts`,
/// into the list `old` gives: `new`. With no parts the list is unchanged.
/// For the last component, the list is unchanged where it has a file of
/// that name, and otherwise gains at its end a file of that name with
/// `full_path` as its path. For another component, the first directory of
/// that name keeps its place, name, path and open state and its children
/// take the rest; where the list has none, a new open directory of that
/// name, with the path's first component as its path, is added at the end,
/// its children being what the rest puts into an empty list. No other node
/// changes.
pub open spec fn inserted(old: Seq<FileTreeNode>, new: Seq<FileTreeNode>, parts: Seq<Seq<char>>, full_path: Seq<char>) -> bool
    decreases parts.len(),
{
    if parts.len() == 0 {
        new == old
    } else if parts.len() == 1 {
        if first_slot(old, (false, parts[0])) is Some {
            new == old
        } else {
            &&& new.len() == old.len() + 1
            &&& new.take(old.len() as int) == old
            &&& new.last() matches FileTreeNode::File { name, path } && name@ == parts[0] && path@ == full_path
        }
    } else {
        match first_slot(old, (true, parts[0])) {
            Some(k) => {
                &&& new.len() == old.len()
                &&& forall|j: int| 0 <= j < old.len() && j != k ==> #[trigger] new[j] == old[j]
                &&& match (old[k], new[k]) {
                    (
                        FileTreeNode::Directory { name, path, children, expanded },
                        FileTreeNode::Directory { name: name2, path: path2, children: children2, expanded: expanded2 },
                    ) => {
                        &&& name2@ == name@
                        &&& path2@ == path@
                        &&& expanded2 == expanded
                        &&& inserted(children@, children2@, parts.drop_first(), full_path)
                    },
                    _ => false,
                }
            },
            None => {
                &&& new.len() == old.len() + 1
                &&& new.take(old.len() as int) == old
                &&& match new.last() {
                    FileTreeNode::Directory { name, path, children, expanded } => {
                        &&& name@ == parts[0]
                        &&& path@ == route_dir_path(full_path, parts[0])
                        &&& expanded
                        &&& inserted(Seq::empty(), children@, parts.drop_first(), full_path)
                    },
                    FileTreeNode::File { .. } => false,
                }
            },
        }
    }
}

/// Where a file under a placed node lies: its path has the node's
/// location as a prefix, one component more than that for a file and more
/// for a directory.
proof fn lemma_placed_node(n: FileTreeNode, prefix: Seq<Seq<char>>, x: Seq<char>)
    requires
        node_wf(n, prefix),
        node_files(n).contains(x),
    ensures
        split_path(x).len() > prefix.len(),
        split_path(x).take(prefix.len() + 1int) == prefix.push(node_name(n)),
        is_dir(n) ==> split_path(x).len() > prefix.len() + 1,
        !is_dir(n) ==> split_path(x).len() == prefix.len() + 1,
    decreases n,
{
    match n {
        FileTreeNode::File { name, path } => {
            assert(x == path@);
            assert(split_path(x).take(prefix.len() + 1int) =~= split_path(x));
        },
        FileTreeNode::Directory { name, children, .. } => {
            let q = prefix.push(name@);
            let i = lemma_placed_forest(children@, q, x);
            assert(split_path(x).take(prefix.len() + 1int) =~= split_path(x).take(q.len() + 1int).take(prefix.len() + 1int));
            assert(q.push(node_name(children@[i])).take(prefix.len() + 1int) =~= q);
        },
    }
}

/// The node of a placed list that holds a file, and where the file lies.
proof fn lemma_placed_forest(ns: Seq<FileTreeNode>, prefix: Seq<Seq<char>>, x: Seq<char>) -> (i: int)
    requires
        forest_wf(ns, prefix),
        forest_files(ns).contains(x),
    ensures
        0 <= i < ns.len(),
        node_files(ns[i]).contains(x),
        split_path(x).len() > prefix.len(),
        split_path(x).take(prefix.len() + 1int) == prefix.push(node_name(ns[i])),
        is_dir(ns[i]) ==> split_path(x).len() > prefix.len() + 1,
        !is_dir(ns[i]) ==> split_path(x).len() == prefix.len() + 1,
    decreases ns,
{
    if node_files(ns[0]).contains(x) {
        lemma_placed_node(ns[0], prefix, x);
        0
    } else {
        let j = lemma_placed_forest(ns.drop_first(), prefix, x);
        j + 1
    }
}

/// The index of the first node of the given kind and name.
fn find_child(children: &Vec<FileTreeNode>, name: &str, want_dir: bool) -> (r: Option<usize>)
    ensures
        match r {
            Some(k) => k < children.len() && is_dir(children@[k as int]) == want_dir && node_name(
                children@[k as int],
            ) == name@ && forall|j: int|
                0 <= j < k ==> !(is_dir(children@[j]) == want_dir && node_name(children@[j]) == name@),
            None => forall|j: int|
                0 <= j < children.len() ==> !(is_dir(children@[j]) == want_dir && node_name(children@[j])
                    == name@),
        },
{
    let mut k: usize = 0;
    while k < children.len()
        invariant
            k <= children.len(),
            forall|j: int|
                0 <= j < k ==> !(is_dir(children@[j]) == want_dir && node_name(children@[j]) == name@),
        decreases children.len() - k,
    {
        if children[k].is_directory() == want_dir && str_equal(children[k].name(), name) {
            return Some(k);
        }
        k = k + 1;
    }
    None
}

proof fn lemma_first_in_le(paths: Seq<String>, s: Set<Seq<char>>, y: Seq<char>)
    requires
        s.contains(y),
    ensures
        first_in(paths, s) <= first_in(paths, set![y]),
{
    lemma_first_in(paths, s);
    lemma_first_in(paths, set![y]);
    let k = first_in(paths, set![y]);
    if k < paths.len() && first_in(paths, s) > k {
        assert(set![y].contains(paths[k]@));
        assert(!s.contains(paths[k]@));
    }
}

proof fn lemma_first_in_insert(paths: Seq<String>, s: Set<Seq<char>>, x: Seq<char>)
    requires
        first_in(paths, s) < first_in(paths, set![x]),
    ensures
        first_in(paths, s.insert(x)) == first_in(paths, s),
{
    lemma_first_in(paths, s);
    lemma_first_in(paths, set![x]);
    let k = first_in(paths, s);
    assert forall|j: int| 0 <= j < k implies !s.insert(x).contains(#[trigger] paths[j]@) by {
        assert(!set![x].contains(paths[j]@));
    }
    lemma_first_in_unique(paths, s.insert(x), k);
}

proof fn lemma_tidy_has_file(n: FileTreeNode)
    requires
        node_tidy(n),
    ensures
        exists|y: Seq<char>| node_files(n).contains(y),
    decreases n,
{
    match n {
        FileTreeNode::File { path, .. } => {
            assert(node_files(n) == set![path@]);
            assert(set![path@].contains(path@));
            assert(node_files(n).contains(path@));
        },
        FileTreeNode::Directory { children, .. } => {
            lemma_all_tidy(children@);
            assert(node_tidy(children@[0]));
            lemma_tidy_has_file(children@[0]);
            let y = choose|y: Seq<char>| node_files(children@[0]).contains(y);
            lemma_forest_files(children@);
            assert(forest_files(children@).contains(y));
            assert(node_files(n).contains(y));
        },
    }
}

/// A tidy node whose files all appear before `t` appears before `t`.
proof fn lemma_seen_before(paths: Seq<String>, ns: Seq<FileTreeNode>, i: int, t: int)
    requires
        0 <= i < ns.len(),
        all_tidy(ns),
        forall|y: Seq<char>| #[trigger] forest_files(ns).contains(y) ==> first_in(paths, set![y]) < t,
    ensures
        first_seen(paths, ns[i]) < t,
{
    lemma_all_tidy(ns);
    lemma_tidy_has_file(ns[i]);
    let y = choose|y: Seq<char>| node_files(ns[i]).contains(y);
    lemma_forest_files(ns);
    assert(forest_files(ns).contains(y));
    lemma_first_in_le(paths, node_files(ns[i]), y);
}

proof fn lemma_node_extends_back(n: FileTreeNode, m: FileTreeNode, paths: Seq<String>)
    requires
        node_extends(n, m),
        node_extends(m, n),
    ensures
        node_files(n) == node_files(m),
        node_first_ordered(n, paths) ==> node_first_ordered(m, paths),
    decreases n,
{
    match n {
        FileTreeNode::File { .. } => {},
        FileTreeNode::Directory { children, .. } => {
            match m {
                FileTreeNode::Directory { children: c2, .. } => {
                    lemma_forest_extends_back(children@, c2@, paths);
                },
                FileTreeNode::File { .. } => {},
            }
        },
    }
}

proof fn lemma_forest_extends_back(a: Seq<FileTreeNode>, b: Seq<FileTreeNode>, paths: Seq<String>)
    requires
        forest_extends(a, b),
        forest_extends(b, a),
    ensures
        forest_files(a) == forest_files(b),
        forest_first_ordered(a, paths) ==> forest_first_ordered(b, paths),
        all_first_ordered(a, paths) ==> all_first_ordered(b, paths),
    decreases a,
{
    lemma_forest_extends(a, b);
    lemma_forest_extends(b, a);
    assert forall|i: int| 0 <= i < a.len() implies node_files(#[trigger] a[i]) == node_files(b[i])
        && (node_first_ordered(a[i], paths) ==> node_first_ordered(b[i], paths)) by {
        lemma_node_extends_back(a[i], b[i], paths);
    }
    lemma_forest_files(a);
    lemma_forest_files(b);
    assert forall|y: Seq<char>| forest_files(a).contains(y) <==> forest_files(b).contains(y) by {
        if forest_files(a).contains(y) {
            let i = choose|i: int| 0 <= i < a.len() && node_files(a[i]).contains(y);
            assert(node_files(b[i]).contains(y));
        }
        if forest_files(b).contains(y) {
            let i = choose|i: int| 0 <= i < b.len() && node_files(b[i]).contains(y);
            assert(node_files(a[i]) == node_files(b[i]));
        }
    }
    assert(forest_files(a) =~= forest_files(b));
    lemma_all_first_ordered(a, paths);
    lemma_all_first_ordered(b, paths);
    if level_first_ordered(a, paths) {
        assert forall|i: int, j: int| 0 <= i < j < b.len() implies first_seen(paths, #[trigger] b[i]) < first_seen(
            paths,
            #[trigger] b[j],
        ) by {
            assert(node_files(a[i]) == node_files(b[i]));
            assert(node_files(a[j]) == node_files(b[j]));
            assert(first_seen(paths, a[i]) < first_seen(paths, a[j]));
        }
    }
}

/// A node that appears after every node of an ordered list keeps it
/// ordered when added at the end.
proof fn lemma_first_push(ns: Seq<FileTreeNode>, x: FileTreeNode, paths: Seq<String>)
    requires
        forest_first_ordered(ns, paths),
        node_first_ordered(x, paths),
        forall|i: int| 0 <= i < ns.len() ==> first_seen(paths, #[trigger] ns[i]) < first_seen(paths, x),
    ensures
        forest_first_ordered(ns.push(x), paths),
{
    let ms = ns.push(x);
    assert forall|i: int, j: int| 0 <= i < j < ms.len() implies first_seen(paths, #[trigger] ms[i]) < first_seen(
        paths,
        #[trigger] ms[j],
    ) by {
        assert(ms[i] == ns[i]);
        if j < ns.len() {
            assert(ms[j] == ns[j]);
        }
    }
    lemma_all_first_ordered(ns, paths);
    lemma_all_first_ordered(ms, paths);
    assert forall|i: int| 0 <= i < ms.len() implies node_first_ordered(#[trigger] ms[i], paths) by {
        if i < ns.len() {
            assert(ms[i] == ns[i]);
        }
    }
}

/// A node replaced by one that appears at the same place and is ordered
/// within keeps the list ordered.
proof fn lemma_first_update(ns: Seq<FileTreeNode>, k: int, x: FileTreeNode, paths: Seq<String>)
    requires
        0 <= k < ns.len(),
        forest_first_ordered(ns, paths),
        node_first_ordered(x, paths),
        first_seen(paths, x) == first_seen(paths, ns[k]),
    ensures
        forest_first_ordered(ns.update(k, x), paths),
{
    let ms = ns.update(k, x);
    assert forall|i: int, j: int| 0 <= i < j < ms.len() implies first_seen(paths, #[trigger] ms[i]) < first_seen(
        paths,
        #[trigger] ms[j],
    ) by {
        assert(first_seen(paths, ns[i]) < first_seen(paths, ns[j]));
    }
    lemma_all_first_ordered(ns, paths);
    lemma_all_first_ordered(ms, paths);
    assert forall|i: int| 0 <= i < ms.len() implies node_first_ordered(#[trigger] ms[i], paths) by {
        if i != k {
            assert(ms[i] == ns[i]);
        }
    }
}

/// The list holds, along directories named by all but the last of `parts`,
/// a file named by the last.
pub open spec fn on_route(ns: Seq<FileTreeNode>, parts: Seq<Seq<char>>) -> bool
    decreases parts.len(),
{
    if parts.len() == 0 {
        true
    } else if parts.len() == 1 {
        exists|i: int| 0 <= i < ns.len() && #[trigger] node_slot(ns[i]) == (false, parts[0])
    } else {
        exists|i: int|
            0 <= i < ns.len() && match #[trigger] ns[i] {
                FileTreeNode::Directory { name, children, .. } => name@ == parts[0] && on_route(
                    children@,
                    parts.drop_first(),
                ),
                FileTreeNode::File { .. } => false,
            }
    }
}

/// Every file under the list first appears in `paths` before `x` does.
pub open spec fn appears_before(ns: Seq<FileTreeNode>, paths: Seq<String>, x: Seq<char>) -> bool {
    forall|y: Seq<char>| #[trigger] forest_files(ns).contains(y) ==> first_in(paths, set![y]) < first_in(paths, set![x])
}

/// `parts` are the components of `full_path` below the directories
/// `prefix`, and the list is placed under `prefix`.
pub open spec fn placed_for(ns: Seq<FileTreeNode>, prefix: Seq<Seq<char>>, parts: Seq<Seq<char>>, full_path: Seq<char>) -> bool {
    forest_wf(ns, prefix) && split_path(full_path) == prefix + parts
}

/// Puts the file `full_path`, whose remaining components are `parts`, into
/// the list `children`, exactly as `inserted` describes at every level:
/// into the first directory named by the next
/// component, which is made (open) where the list has none, or, for the
/// last component, as a file unless the list has a file of that name.
/// Existing nodes keep their places and fields; at most one node, a tidy
/// one, is added to the list, and none where the directory of the next
/// component is there; afterwards the file named by the last component lies
/// along directories named by the others. Where the list held no two
/// siblings of the same kind and name, it still holds none. Where its nodes
/// are placed under `prefix` and `parts` are the path's components below
/// it, they stay placed, the list's files gain `full_path`, and a path the
/// list held already (in a tidy list) adds nothing.
fn insert_into_tree(
    children: &mut Vec<FileTreeNode>,
    parts: &[String],
    full_path: &str,
    Ghost(prefix): Ghost<Seq<Seq<char>>>,
    Ghost(paths): Ghost<Seq<String>>,
)
    ensures
        placed_for(old(children)@, prefix, parts@.map_values(|s: String| s@), full_path@) && tree_tidy(old(children)@)
            && parts.len() > 0 && !forest_files(old(children)@).contains(full_path@) && forest_first_ordered(old(children)@, paths)
            && appears_before(old(children)@, paths, full_path@) ==> forest_first_ordered(final(children)@, paths),
        inserted(old(children)@, final(children)@, parts@.map_values(|s: String| s@), full_path@),
        forest_extends(old(children)@, final(children)@),
        final(children)@.len() <= old(children)@.len() + 1,
        final(children)@.len() > old(children)@.len() ==> node_tidy(final(children)@.last()),
        parts.len() == 0 ==> final(children)@ == old(children)@,
        parts.len() > 0 ==> final(children)@.len() > 0,
        on_route(final(children)@, parts@.map_values(|s: String| s@)),
        parts.len() > 1 && (exists|k: int| 0 <= k < old(children)@.len() && #[trigger] node_slot(old(children)@[k]) == (true, parts@[0]@))
            ==> final(children)@.len() == old(children)@.len(),
        tree_tidy(old(children)@) ==> tree_tidy(final(children)@),
        placed_for(old(children)@, prefix, parts@.map_values(|s: String| s@), full_path@) ==> forest_wf(final(children)@, prefix),
        placed_for(old(children)@, prefix, parts@.map_values(|s: String| s@), full_path@) && parts.len() > 0 ==> forest_files(
            final(children)@,
        ) == forest_files(old(children)@).insert(full_path@),
        placed_for(old(children)@, prefix, parts@.map_values(|s: String| s@), full_path@) && tree_tidy(old(children)@)
            && forest_files(old(children)@).contains(full_path@) ==> final(children)@.len() == old(children)@.len()
            && forest_extends(final(children)@, old(children)@),
    decreases parts.len(),
{
    let ghost pv = parts@.map_values(|s: String| s@);
    let ghost placed = placed_for(children@, prefix, pv, full_path@);
    let ghost tidy = tree_tidy(children@);
    let ghost ord = placed && tidy && !forest_files(children@).contains(full_path@) && forest_first_ordered(children@, paths)
        && appears_before(children@, paths, full_path@);
    let ghost tx = first_in(paths, set![full_path@]);
    if parts.len() == 0 {
        proof {
            lemma_forest_extends_refl(children@);
        }
        return;
    }
    assert(pv[0] == parts@[0]@);
    if parts.len() == 1 {
        let name = &parts[0];
        let found = find_child(children, name.as_str(), false);
        if let Some(k) = found {
            proof {
                let c = children@[k as int];
                assert(node_slot(c) == (false, pv[0]));
                assert forall|j: int| 0 <= j < k implies node_slot(#[trigger] children@[j]) != (false, pv[0]) by {}
                lemma_first_slot(children@, (false, pv[0]), Some(k as int));
                lemma_forest_extends_refl(children@);
                if placed {
                    lemma_forest_wf(children@, prefix);
                    assert(node_wf(c, prefix));
                    assert(prefix.push(name@) =~= prefix + pv);
                    lemma_join_split(node_path(c), '/');
                    lemma_join_split(full_path@, '/');
                    assert(node_path(c) == full_path@);
                    assert(node_files(c).contains(full_path@));
                    lemma_forest_files(children@);
                    assert(forest_files(children@).contains(full_path@));
                    assert(forest_files(children@).insert(full_path@) =~= forest_files(children@));
                }
            }
        } else {
            let node = FileTreeNode::File { name: name.clone(), path: full_path.to_owned() };
            proof {
                assert forall|j: int| 0 <= j < children@.len() implies node_slot(#[trigger] children@[j]) != (false, pv[0]) by {}
                lemma_first_slot(children@, (false, pv[0]), None);
                assert(children@.push(node).take(children@.len() as int) =~= children@);
                if placed {
                    assert(prefix.push(name@) =~= prefix + pv);
                    if forest_files(children@).contains(full_path@) {
                        let i = lemma_placed_forest(children@, prefix, full_path@);
                        assert(split_path(full_path@).take(prefix.len() + 1int) =~= prefix.push(name@));
                        assert(prefix.push(node_name(children@[i]))[prefix.len() as int] == node_name(children@[i]));
                        assert(false);
                    }
                    lemma_push_files(children@, node);
                    lemma_wf_push(children@, node, prefix);
                    assert(node_files(node) == set![full_path@]);
                    assert(forest_files(children@).union(set![full_path@]) =~= forest_files(children@).insert(full_path@));
                }
                lemma_extends_push(children@, node);
                if tidy {
                    lemma_tidy_push(children@, node);
                }
                if ord {
                    assert(node_files(node) == set![full_path@]);
                    assert forall|i: int| 0 <= i < children@.len() implies first_seen(paths, #[trigger] children@[i]) < first_seen(
                        paths,
                        node,
                    ) by {
                        lemma_seen_before(paths, children@, i, tx);
                    }
                    lemma_first_push(children@, node, paths);
                }
                assert(children@.push(node)[children@.len() as int] == node);
            }
            children.push(node);
            assert(node_slot(children@[children@.len() - 1]) == (false, pv[0]));
        }
        return;
    }
    let dir_name = &parts[0];
    let full_chars = chars_of(full_path);
    proof {
        lemma_first_index_of(full_path@, '/');
    }
    let dir_path: String = match find_char(&full_chars, '/') {
        Some(idx) => string_of(&slice_chars(&full_chars, 0, idx)),
        None => dir_name.clone(),
    };
    assert(dir_path@ == route_dir_path(full_path@, pv[0]));
    proof {
        if placed {
            assert(split_path(full_path@)[0] == prefix.push(dir_name@)[0]) by {
                if prefix.len() > 0 {
                    assert((prefix + pv)[0] == prefix[0]);
                } else {
                    assert((prefix + pv)[0] == pv[0]);
                }
            }
            match first_index_of(full_path@, '/') {
                Some(idx) => {
                    assert(split_path(full_path@)[0] == full_path@.take(idx));
                },
                None => {
                    assert(split_path(full_path@).len() == 1);
                    assert((prefix + pv).len() >= 2);
                },
            }
            assert(dir_path@ == prefix.push(dir_name@)[0]);
        }
    }
    let sub = vstd::slice::slice_subrange(parts, 1, parts.len());
    proof {
        assert(sub@.map_values(|s: String| s@) =~= pv.drop_first());
        assert(prefix + pv =~= prefix.push(dir_name@) + pv.drop_first());
    }
    let ghost present = forest_files(children@).contains(full_path@);
    let ghost holder: int = 0;
    proof {
        if placed && present {
            holder = lemma_placed_forest(children@, prefix, full_path@);
            assert(split_path(full_path@).take(prefix.len() + 1int) =~= prefix.push(dir_name@));
            assert(prefix.push(node_name(children@[holder]))[prefix.len() as int] == node_name(children@[holder]));
            assert(node_slot(children@[holder]) == (true, dir_name@));
        }
    }
    let found = find_child(children, dir_name.as_str(), true);
    if let Some(k) = found {
        let ghost old_children = children@;
        proof {
            assert forall|j: int| 0 <= j < k implies node_slot(#[trigger] children@[j]) != (true, pv[0]) by {}
            lemma_first_slot(children@, (true, pv[0]), Some(k as int));
        }
        let node = children.remove(k);
        assert(node == old_children[k as int]);
        match node {
            FileTreeNode::Directory { name, path, children: mut dc, expanded } => {
                proof {
                    assert(name@ == dir_name@);
                    if placed {
                        lemma_forest_wf(old_children, prefix);
                        assert(node_wf(old_children[k as int], prefix));
                    }
                    if tidy {
                        lemma_all_tidy(old_children);
                        assert(node_tidy(old_children[k as int]));
                    }
                    if ord {
                        lemma_all_first_ordered(old_children, paths);
                        assert(node_first_ordered(old_children[k as int], paths));
                        lemma_forest_files(old_children);
                        assert forall|y: Seq<char>| #[trigger] forest_files(dc@).contains(y) implies forest_files(old_children).contains(y) by {
                            assert(node_files(old_children[k as int]).contains(y));
                        }
                        lemma_seen_before(paths, old_children, k as int, tx);
                    }
                }
                let ghost old_dc = dc@;
                insert_into_tree(&mut dc, sub, full_path, Ghost(prefix.push(name@)), Ghost(paths));
                let new_node = FileTreeNode::Directory { name, path, children: dc, expanded };
                proof {
                    if placed && tidy && present {
                        assert(slots(old_children)[holder] == slots(old_children)[k as int]);
                        assert(holder == k);
                        assert(node_extends(new_node, old_children[k as int]));
                        let ms = old_children.update(k as int, new_node);
                        lemma_extends_update(ms, k as int, old_children[k as int]);
                        assert(ms.update(k as int, old_children[k as int]) =~= old_children);
                    }
                    if placed {
                        assert(node_files(new_node) == node_files(old_children[k as int]).insert(full_path@));
                        lemma_update_files(old_children, k as int, new_node, full_path@);
                        lemma_wf_update(old_children, k as int, new_node, prefix);
                    }
                    assert(node_extends(old_children[k as int], new_node));
                    lemma_extends_update(old_children, k as int, new_node);
                    if tidy {
                        assert(node_tidy(new_node));
                        lemma_tidy_update(old_children, k as int, new_node);
                    }
                    if ord {
                        lemma_first_in_insert(paths, node_files(old_children[k as int]), full_path@);
                        assert(first_seen(paths, new_node) == first_seen(paths, old_children[k as int]));
                        lemma_first_update(old_children, k as int, new_node, paths);
                    }
                }
                children.insert(k, new_node);
                assert(children@ =~= old_children.update(k as int, new_node));
                assert(children@[k as int] == new_node);
                assert(inserted(old_children, children@, pv, full_path@));
            },
            FileTreeNode::File { name, path } => {
                children.insert(k, FileTreeNode::File { name, path });
                assert(false);
            },
        }
    } else {
        let mut nc: Vec<FileTreeNode> = Vec::new();
        proof {
            assert forall|j: int| 0 <= j < children@.len() implies node_slot(#[trigger] children@[j]) != (true, pv[0]) by {}
            lemma_first_slot(children@, (true, pv[0]), None);
            assert(slots(nc@) =~= Seq::<(bool, Seq<char>)>::empty());
            if placed && present {
                assert(node_name(children@[holder]) == dir_name@);
            }
        }
        proof {
            assert(forest_files(nc@) == Set::<Seq<char>>::empty());
            assert(forest_wf(nc@, prefix.push(dir_name@)));
            assert(all_first_ordered(nc@, paths));
        }
        insert_into_tree(&mut nc, sub, full_path, Ghost(prefix.push(dir_name@)), Ghost(paths));
        let node = FileTreeNode::Directory {
            name: dir_name.clone(),
            path: dir_path,
            children: nc,
            expanded: true,
        };
        proof {
            if placed {
                assert(forest_files(Seq::<FileTreeNode>::empty()) == Set::<Seq<char>>::empty());
                assert(node_files(node) =~= set![full_path@]);
                lemma_push_files(children@, node);
                lemma_wf_push(children@, node, prefix);
                assert(forest_files(children@).union(set![full_path@]) =~= forest_files(children@).insert(full_path@));
            }
            lemma_extends_push(children@, node);
            assert(node_tidy(node));
            if tidy {
                lemma_tidy_push(children@, node);
            }
            if ord {
                assert(node_files(node) =~= set![full_path@]);
                assert forall|i: int| 0 <= i < children@.len() implies first_seen(paths, #[trigger] children@[i]) < first_seen(
                    paths,
                    node,
                ) by {
                    lemma_seen_before(paths, children@, i, tx);
                }
                lemma_first_push(children@, node, paths);
            }
        }
        let ghost before_push = children@;
        children.push(node);
        assert(children@[children@.len() - 1] == node);
        assert(children@.take(before_push.len() as int) =~= before_push);
    }
}

// ---------------------------------------------------------------------------
// Order
// ---------------------------------------------------------------------------
/// `a` comes before `b` character by character (code point order), a proper
/// prefix first: the order of `str`'s `cmp`.
pub open spec fn seq_lt(a: Seq<char>, b: Seq<char>) -> bool
    decreases a.len(),
{
    if a.len() == 0 {
        b.len() > 0
    } else if b.len() == 0 {
        false
    } else if (a[0] as u32) < (b[0] as u32) {
        true
    } else if a[0] == b[0] {
        seq_lt(a.drop_first(), b.drop_first())
    } else {
        false
    }
}

proof fn lemma_seq_lt_irreflexive(a: Seq<char>)
    ensures
        !seq_lt(a, a),
    decreases a.len(),
{
    if a.len() > 0 {
        lemma_seq_lt_irreflexive(a.drop_first());
    }
}

proof fn lemma_seq_lt_transitive(a: Seq<char>, b: Seq<char>, c: Seq<char>)
    requires
        seq_lt(a, b),
        seq_lt(b, c),
    ensures
        seq_lt(a, c),
    decreases a.len(),
{
    if a.len() > 0 && b.len() > 0 && c.len() > 0 {
        if a[0] == b[0] && b[0] == c[0] {
            lemma_seq_lt_transitive(a.drop_first(), b.drop_first(), c.drop_first());
        }
    }
}

/// Code point order on character sequences is a strict order.
pub proof fn lemma_seq_lt_order(a: Seq<char>, b: Seq<char>, c: Seq<char>)
    ensures
        !seq_lt(a, a),
        seq_lt(a, b) && seq_lt(b, c) ==> seq_lt(a, c),
{
    lemma_seq_lt_irreflexive(a);
    if seq_lt(a, b) && seq_lt(b, c) {
        lemma_seq_lt_transitive(a, b, c);
    }
}

/// `a` sorts before `b` in the sidebar: directories before files, then by
/// lower-cased name.
pub open spec fn sorts_before(a: FileTreeNode, b: FileTreeNode) -> bool {
    (is_dir(a) && !is_dir(b)) || (is_dir(a) == is_dir(b) && seq_lt(
        lowercase(node_name(a)),
        lowercase(node_name(b)),
    ))
}

proof fn lemma_sorts_before_order(a: FileTreeNode, b: FileTreeNode, c: FileTreeNode)
    ensures
        !sorts_before(a, a),
        sorts_before(a, b) && sorts_before(b, c) ==> sorts_before(a, c),
{
    lemma_seq_lt_irreflexive(lowercase(node_name(a)));
    if sorts_before(a, b) && sorts_before(b, c) {
        if is_dir(a) == is_dir(b) && is_dir(b) == is_dir(c) {
            lemma_seq_lt_transitive(
                lowercase(node_name(a)),
                lowercase(node_name(b)),
                lowercase(node_name(c)),
            );
        }
    }
}

/// No node of the list sorts before one in front of it.
pub open spec fn level_sorted(ns: Seq<FileTreeNode>) -> bool {
    forall|i: int, j: int| 0 <= i < j < ns.len() ==> !sorts_before(#[trigger] ns[j], #[trigger] ns[i])
}

/// `a` and `b` sort alike: the same kind, and the same lower-cased name.
pub open spec fn tie(a: FileTreeNode, b: FileTreeNode) -> bool {
    is_dir(a) == is_dir(b) && lowercase(node_name(a)) == lowercase(node_name(b))
}

/// Of two nodes of the list that sort alike, the one in front has the
/// smaller `key`.
pub open spec fn level_ties_by(ns: Seq<FileTreeNode>, key: spec_fn(FileTreeNode) -> int) -> bool {
    forall|i: int, j: int| 0 <= i < j < ns.len() && tie(#[trigger] ns[i], #[trigger] ns[j]) ==> key(ns[i]) < key(ns[j])
}

/// The index of the first of `paths` whose text is in `s`; the number of
/// paths where none is.
pub open spec fn first_in(paths: Seq<String>, s: Set<Seq<char>>) -> int
    decreases paths.len(),
{
    if paths.len() == 0 {
        0
    } else if s.contains(paths[0]@) {
        0
    } else {
        1 + first_in(paths.drop_first(), s)
    }
}

/// Where the files under a node first appear in `paths`.
pub open spec fn first_seen(paths: Seq<String>, n: FileTreeNode) -> int {
    first_in(paths, node_files(n))
}

/// Nodes keyed by where their files first appear in `paths`.
pub open spec fn seen_key(paths: Seq<String>) -> spec_fn(FileTreeNode) -> int {
    |n: FileTreeNode| first_seen(paths, n)
}

proof fn lemma_first_in(paths: Seq<String>, s: Set<Seq<char>>)
    ensures
        0 <= first_in(paths, s) <= paths.len(),
        first_in(paths, s) < paths.len() ==> s.contains(paths[first_in(paths, s)]@),
        forall|j: int| 0 <= j < first_in(paths, s) ==> !s.contains(#[trigger] paths[j]@),
    decreases paths.len(),
{
    if paths.len() > 0 && !s.contains(paths[0]@) {
        lemma_first_in(paths.drop_first(), s);
        assert forall|j: int| 0 <= j < first_in(paths, s) implies !s.contains(#[trigger] paths[j]@) by {
            if j > 0 {
                assert(paths[j] == paths.drop_first()[j - 1]);
            }
        }
    }
}

proof fn lemma_first_in_unique(paths: Seq<String>, s: Set<Seq<char>>, k: int)
    requires
        0 <= k <= paths.len(),
        k < paths.len() ==> s.contains(paths[k]@),
        forall|j: int| 0 <= j < k ==> !s.contains(#[trigger] paths[j]@),
    ensures
        first_in(paths, s) == k,
{
    lemma_first_in(paths, s);
    let f = first_in(paths, s);
    if f < k {
        assert(!s.contains(paths[f]@));
    } else if k < f {
        assert(!s.contains(paths[k]@));
    }
}

/// Of any two nodes of the list, the one in front has files that appear
/// first in `paths`.
pub open spec fn level_first_ordered(ns: Seq<FileTreeNode>, paths: Seq<String>) -> bool {
    forall|i: int, j: int| 0 <= i < j < ns.len() ==> first_seen(paths, #[trigger] ns[i]) < first_seen(paths, #[trigger] ns[j])
}

/// Every directory under the node lists its children in order of first
/// appearance in `paths`.
pub open spec fn node_first_ordered(n: FileTreeNode, paths: Seq<String>) -> bool
    decreases n,
{
    match n {
        FileTreeNode::File { .. } => true,
        FileTreeNode::Directory { children, .. } => level_first_ordered(children@, paths) && all_first_ordered(
            children@,
            paths,
        ),
    }
}

/// Every node of the list is in order of first appearance within.
pub open spec fn all_first_ordered(ns: Seq<FileTreeNode>, paths: Seq<String>) -> bool
    decreases ns,
{
    if ns.len() == 0 {
        true
    } else {
        node_first_ordered(ns[0], paths) && all_first_ordered(ns.drop_first(), paths)
    }
}

/// The list, and every directory under it, lists its nodes in order of
/// first appearance in `paths`.
pub open spec fn forest_first_ordered(ns: Seq<FileTreeNode>, paths: Seq<String>) -> bool {
    level_first_ordered(ns, paths) && all_first_ordered(ns, paths)
}

/// Every directory under the node lists nodes that sort alike in order of
/// first appearance in `paths`.
pub open spec fn node_ties_ordered(n: FileTreeNode, paths: Seq<String>) -> bool
    decreases n,
{
    match n {
        FileTreeNode::File { .. } => true,
        FileTreeNode::Directory { children, .. } => level_ties_by(children@, seen_key(paths))
            && all_ties_ordered(children@, paths),
    }
}

/// Every node of the list lists nodes that sort alike in order within.
pub open spec fn all_ties_ordered(ns: Seq<FileTreeNode>, paths: Seq<String>) -> bool
    decreases ns,
{
    if ns.len() == 0 {
        true
    } else {
        node_ties_ordered(ns[0], paths) && all_ties_ordered(ns.drop_first(), paths)
    }
}

/// The list, and every directory under it, lists nodes that sort alike (of
/// one kind, with lower-cased names equal) in the order their files first
/// appear in `paths`.
pub open spec fn tree_ties_ordered(ns: Seq<FileTreeNode>, paths: Seq<String>) -> bool {
    level_ties_by(ns, seen_key(paths)) && all_ties_ordered(ns, paths)
}

proof fn lemma_all_first_ordered(ns: Seq<FileTreeNode>, paths: Seq<String>)
    ensures
        all_first_ordered(ns, paths) <==> forall|i: int| 0 <= i < ns.len() ==> node_first_ordered(#[trigger] ns[i], paths),
    decreases ns.len(),
{
    if ns.len() > 0 {
        lemma_all_first_ordered(ns.drop_first(), paths);
        if forall|i: int| 0 <= i < ns.len() ==> node_first_ordered(#[trigger] ns[i], paths) {
            assert forall|i: int| 0 <= i < ns.len() - 1 implies node_first_ordered(#[trigger] ns.drop_first()[i], paths) by {
                assert(ns.drop_first()[i] == ns[i + 1]);
            }
        }
        if all_first_ordered(ns, paths) {
            assert forall|i: int| 0 <= i < ns.len() implies node_first_ordered(#[trigger] ns[i], paths) by {
                if i > 0 {
                    assert(ns.drop_first()[i - 1] == ns[i]);
                }
            }
        }
    }
}

proof fn lemma_all_ties_ordered(ns: Seq<FileTreeNode>, paths: Seq<String>)
    ensures
        all_ties_ordered(ns, paths) <==> forall|i: int| 0 <= i < ns.len() ==> node_ties_ordered(#[trigger] ns[i], paths),
    decreases ns.len(),
{
    if ns.len() > 0 {
        lemma_all_ties_ordered(ns.drop_first(), paths);
        if forall|i: int| 0 <= i < ns.len() ==> node_ties_ordered(#[trigger] ns[i], paths) {
            assert forall|i: int| 0 <= i < ns.len() - 1 implies node_ties_ordered(#[trigger] ns.drop_first()[i], paths) by {
                assert(ns.drop_first()[i] == ns[i + 1]);
            }
        }
        if all_ties_ordered(ns, paths) {
            assert forall|i: int| 0 <= i < ns.len() implies node_ties_ordered(#[trigger] ns[i], paths) by {
                if i > 0 {
                    assert(ns.drop_first()[i - 1] == ns[i]);
                }
            }
        }
    }
}

/// Every directory under the node lists its children in sidebar order.
pub open spec fn node_sorted(n: FileTreeNode) -> bool
    decreases n,
{
    match n {
        FileTreeNode::File { .. } => true,
        FileTreeNode::Directory { children, .. } => level_sorted(children@) && all_sorted(children@),
    }
}

/// Every node of the list is sorted within.
pub open spec fn all_sorted(ns: Seq<FileTreeNode>) -> bool
    decreases ns,
{
    if ns.len() == 0 {
        true
    } else {
        node_sorted(ns[0]) && all_sorted(ns.drop_first())
    }
}

/// The list, and every directory under it, is in sidebar order.
pub open spec fn tree_sorted(ns: Seq<FileTreeNode>) -> bool {
    level_sorted(ns) && all_sorted(ns)
}

/// What a node shows of itself, its children aside.
pub open spec fn node_label(n: FileTreeNode) -> (bool, Seq<char>, Seq<char>) {
    (is_dir(n), node_name(n), node_path(n))
}

/// The labels of a list of nodes.
pub open spec fn labels(ns: Seq<FileTreeNode>) -> Seq<(bool, Seq<char>, Seq<char>)> {
    ns.map_values(|n: FileTreeNode| node_label(n))
}

proof fn lemma_all_sorted(ns: Seq<FileTreeNode>)
    ensures
        all_sorted(ns) <==> forall|i: int| 0 <= i < ns.len() ==> node_sorted(#[trigger] ns[i]),
    decreases ns.len(),
{
    if ns.len() > 0 {
        lemma_all_sorted(ns.drop_first());
        if forall|i: int| 0 <= i < ns.len() ==> node_sorted(#[trigger] ns[i]) {
            assert forall|i: int| 0 <= i < ns.len() - 1 implies node_sorted(#[trigger] ns.drop_first()[i]) by {
                assert(ns.drop_first()[i] == ns[i + 1]);
            }
        }
        if all_sorted(ns) {
            assert forall|i: int| 0 <= i < ns.len() implies node_sorted(#[trigger] ns[i]) by {
                if i > 0 {
                    assert(ns.drop_first()[i - 1] == ns[i]);
                }
            }
        }
    }
}

/// Lists with the same nodes hold the same files, and one is placed where
/// the other is.
proof fn lemma_same_nodes(a: Seq<FileTreeNode>, b: Seq<FileTreeNode>, prefix: Seq<Seq<char>>)
    requires
        a.to_multiset() == b.to_multiset(),
    ensures
        forest_files(a) == forest_files(b),
        forest_wf(a, prefix) ==> forest_wf(b, prefix),
        all_sorted(a) ==> all_sorted(b),
        all_tidy(a) ==> all_tidy(b),
{
    broadcast use vstd::seq_lib::group_to_multiset_ensures;
    lemma_forest_files(a);
    lemma_forest_files(b);
    assert forall|x: Seq<char>| forest_files(a).contains(x) <==> forest_files(b).contains(x) by {
        if forest_files(a).contains(x) {
            let i = choose|i: int| 0 <= i < a.len() && node_files(a[i]).contains(x);
            assert(a.contains(a[i]));
            assert(b.to_multiset().count(a[i]) > 0);
            let j = choose|j: int| 0 <= j < b.len() && b[j] == a[i];
            assert(node_files(b[j]).contains(x));
        }
        if forest_files(b).contains(x) {
            let i = choose|i: int| 0 <= i < b.len() && node_files(b[i]).contains(x);
            assert(b.contains(b[i]));
            assert(a.to_multiset().count(b[i]) > 0);
            let j = choose|j: int| 0 <= j < a.len() && a[j] == b[i];
            assert(node_files(a[j]).contains(x));
        }
    }
    assert(forest_files(a) =~= forest_files(b));
    lemma_forest_wf(a, prefix);
    lemma_forest_wf(b, prefix);
    lemma_all_sorted(a);
    lemma_all_sorted(b);
    lemma_all_tidy(a);
    lemma_all_tidy(b);
    assert forall|i: int| 0 <= i < b.len() implies a.contains(#[trigger] b[i]) by {
        assert(b.contains(b[i]));
        assert(a.to_multiset().count(b[i]) > 0);
    }
}

/// Equal multisets of nodes give equal multisets of labels.
proof fn lemma_labels_multiset(a: Seq<FileTreeNode>, b: Seq<FileTreeNode>)
    requires
        a.to_multiset() == b.to_multiset(),
    ensures
        labels(a).to_multiset() == labels(b).to_multiset(),
    decreases a.len(),
{
    broadcast use vstd::seq_lib::group_to_multiset_ensures;
    if a.len() == 0 {
        assert(b.len() == 0) by {
            assert(a.to_multiset().len() == 0);
        }
        assert(labels(a) =~= labels(b));
    } else {
        let x = a[0];
        assert(a.contains(x));
        assert(b.to_multiset().count(x) > 0);
        let j = choose|j: int| 0 <= j < b.len() && b[j] == x;
        let a1 = a.drop_first();
        let b1 = b.remove(j);
        assert(a =~= a1.insert(0, x));
        assert(a1.to_multiset() =~= b1.to_multiset()) by {
            assert(a.to_multiset() == a1.to_multiset().insert(x));
            assert(b1.to_multiset() == b.to_multiset().remove(x));
        }
        lemma_labels_multiset(a1, b1);
        assert(labels(a) =~= labels(a1).insert(0, node_label(x)));
        assert(labels(b1) =~= labels(b).remove(j));
        assert(labels(b)[j] == node_label(x));
        assert(labels(b).to_multiset() == labels(b1).to_multiset().insert(node_label(x))) by {
            assert(labels(b1).to_multiset() == labels(b).to_multiset().remove(node_label(x)));
            assert(labels(b).to_multiset().count(node_label(x)) > 0) by {
                assert(labels(b).contains(node_label(x)));
            }
        }
    }
}

/// `a` comes before `b` in code point order.
pub fn chars_less(a: &[char], b: &[char]) -> (r: bool)
    ensures
        r == seq_lt(a@, b@),
{
    let mut i: usize = 0;
    assert(a@.skip(0) == a@ && b@.skip(0) == b@);
    loop
        invariant
            i <= a.len(),
            i <= b.len(),
            seq_lt(a@, b@) == seq_lt(a@.skip(i as int), b@.skip(i as int)),
        decreases a.len() - i,
    {
        if i == a.len() {
            return i < b.len();
        }
        if i == b.len() {
            return false;
        }
        let x = a[i] as u32;
        let y = b[i] as u32;
        assert(a@.skip(i as int)[0] == a@[i as int]);
        assert(b@.skip(i as int)[0] == b@[i as int]);
        if x < y {
            return true;
        }
        if a[i] != b[i] {
            return false;
        }
        assert(a@.skip(i as int).drop_first() == a@.skip(i + 1));
        assert(b@.skip(i as int).drop_first() == b@.skip(i + 1));
        i = i + 1;
    }
}

/// The lower-cased name a node sorts by.
fn sort_name(n: &FileTreeNode) -> (r: Vec<char>)
    ensures
        r@ == lowercase(node_name(*n)),
{
    chars_of(to_lowercase(n.name()).as_str())
}

/// `x` sorts before `y`, given their kinds and sort names.
fn key_before(x_dir: bool, x_key: &Vec<char>, y: &FileTreeNode, y_key: &Vec<char>) -> (r: bool)
    ensures
        forall|x: FileTreeNode|
            is_dir(x) == x_dir && x_key@ == lowercase(node_name(x)) && y_key@ == lowercase(node_name(*y))
                ==> r == sorts_before(x, *y),
{
    let y_dir = y.is_directory();
    (x_dir && !y_dir) || (x_dir == y_dir && chars_less(x_key, y_key))
}

/// Sorts one level stably into sidebar order.
fn sort_level(nodes: Vec<FileTreeNode>, Ghost(key): Ghost<spec_fn(FileTreeNode) -> int>) -> (r: Vec<FileTreeNode>)
    ensures
        level_sorted(r@),
        r@.to_multiset() == nodes@.to_multiset(),
        r@.len() == nodes@.len(),
        (forall|a: int, b: int| 0 <= a < b < nodes@.len() ==> key(#[trigger] nodes@[a]) < key(#[trigger] nodes@[b]))
            ==> level_ties_by(r@, key),
{
    broadcast use vstd::seq_lib::group_to_multiset_ensures;
    let ghost orig = nodes@;
    let ghost inc = forall|a: int, b: int| 0 <= a < b < orig.len() ==> key(#[trigger] orig[a]) < key(#[trigger] orig[b]);
    let mut src = nodes;
    let mut out: Vec<FileTreeNode> = Vec::new();
    let mut keys: Vec<Vec<char>> = Vec::new();
    let ghost mut taken: Seq<FileTreeNode> = Seq::empty();
    while src.len() > 0
        invariant
            orig == taken + src@,
            out@.to_multiset() == taken.to_multiset(),
            level_sorted(out@),
            keys.len() == out.len(),
            forall|m: int| 0 <= m < out.len() ==> (#[trigger] keys@[m])@ == lowercase(node_name(out@[m])),
            inc == (forall|a: int, b: int| 0 <= a < b < orig.len() ==> key(#[trigger] orig[a]) < key(#[trigger] orig[b])),
            inc ==> level_ties_by(out@, key),
            inc ==> forall|m: int, q: int| 0 <= m < out.len() && 0 <= q < src.len() ==> key(#[trigger] out@[m]) < key(#[trigger] src@[q]),
        decreases src.len(),
    {
        let ghost src0 = src@;
        let x = src.remove(0);
        let kx = sort_name(&x);
        let dx = x.is_directory();
        let mut j: usize = 0;
        while j < out.len() && !key_before(dx, &kx, &out[j], &keys[j])
            invariant
                j <= out.len(),
                keys.len() == out.len(),
                forall|m: int| 0 <= m < out.len() ==> (#[trigger] keys@[m])@ == lowercase(node_name(out@[m])),
                forall|m: int| 0 <= m < j ==> !sorts_before(x, #[trigger] out@[m]),
                kx@ == lowercase(node_name(x)),
                dx == is_dir(x),
            decreases out.len() - j,
        {
            j = j + 1;
        }
        let ghost before = out@;
        out.insert(j, x);
        keys.insert(j, kx);
        proof {
            assert forall|a: int, b: int| 0 <= a < b < out.len() implies !sorts_before(#[trigger] out@[b], #[trigger] out@[a]) by {
                if a == j as int {
                    let y = before[b - 1];
                    assert(out@[b] == y);
                    assert(sorts_before(x, before[j as int]));
                    lemma_sorts_before_order(y, x, before[j as int]);
                    lemma_sorts_before_order(before[j as int], x, before[j as int]);
                    if b - 1 > j {
                        assert(!sorts_before(before[b - 1], before[j as int]));
                    }
                } else if b == j as int {
                    assert(out@[a] == before[a]);
                } else {
                    let a0 = if a < j { a } else { a - 1 };
                    let b0 = if b < j { b } else { b - 1 };
                    assert(out@[a] == before[a0]);
                    assert(out@[b] == before[b0]);
                }
            }
            assert forall|m: int| 0 <= m < out.len() implies (#[trigger] keys@[m])@ == lowercase(node_name(out@[m])) by {
                if m < j {
                } else if m > j {
                    assert(out@[m] == before[m - 1]);
                }
            }
            if inc {
                assert forall|a: int, b: int| 0 <= a < b < out.len() && tie(#[trigger] out@[a], #[trigger] out@[b]) implies key(
                    out@[a],
                ) < key(out@[b]) by {
                    if a == j as int {
                        let y = before[b - 1];
                        assert(out@[b] == y);
                        assert(sorts_before(x, before[j as int]));
                        assert(sorts_before(y, before[j as int]));
                        lemma_sorts_before_order(before[j as int], x, before[j as int]);
                        if b - 1 > j {
                            assert(!sorts_before(before[b - 1], before[j as int]));
                        }
                    } else if b == j as int {
                        assert(out@[a] == before[a]);
                        assert(key(before[a]) < key(src0[0]));
                    } else {
                        let a0 = if a < j { a } else { a - 1 };
                        let b0 = if b < j { b } else { b - 1 };
                        assert(out@[a] == before[a0]);
                        assert(out@[b] == before[b0]);
                    }
                }
                assert forall|m: int, q: int| 0 <= m < out.len() && 0 <= q < src.len() implies key(#[trigger] out@[m]) < key(
                    #[trigger] src@[q],
                ) by {
                    assert(src@[q] == src0[q + 1]);
                    if m < j {
                        assert(out@[m] == before[m]);
                        assert(key(before[m]) < key(src0[q + 1]));
                    } else if m == j {
                        assert(orig[taken.len() as int] == x);
                        assert(orig[taken.len() + q + 1] == src0[q + 1]);
                    } else {
                        assert(out@[m] == before[m - 1]);
                        assert(key(before[m - 1]) < key(src0[q + 1]));
                    }
                }
            }
            assert(out@ == before.insert(j as int, x));
            vstd::seq_lib::to_multiset_insert(before, j as int, x);
            vstd::seq_lib::to_multiset_build(taken, x);
            taken = taken.push(x);
            assert(orig == taken + src@) by {
                assert(orig =~= taken + src@);
            }
        }
    }
    assert(taken == orig) by {
        assert(taken + src@ =~= taken);
    }
    proof {
        vstd::seq_lib::to_multiset_len(out@);
        vstd::seq_lib::to_multiset_len(orig);
    }
    out
}

/// The node with every directory under it sorted.
fn sort_node(n: FileTreeNode, Ghost(paths): Ghost<Seq<String>>) -> (r: FileTreeNode)
    ensures
        node_first_ordered(n, paths) ==> node_ties_ordered(r, paths),
        node_label(r) == node_label(n),
        node_files(r) == node_files(n),
        forall|p: Seq<Seq<char>>| node_wf(n, p) ==> node_wf(r, p),
        node_sorted(r),
        node_tidy(n) ==> node_tidy(r),
    decreases n,
{
    match n {
        FileTreeNode::File { name, path } => {
            let r = FileTreeNode::File { name, path };
            assert(r == n);
            r
        },
        FileTreeNode::Directory { name, path, children, expanded } => {
            proof {
                assert(decreases_to!(n => children@));
            }
            let sorted = sort_forest(children, Ghost(paths));
            let r = FileTreeNode::Directory { name, path, children: sorted, expanded };
            assert forall|p: Seq<Seq<char>>| node_wf(n, p) implies node_wf(r, p) by {
                assert(forest_wf(children@, p.push(name@)));
            }
            r
        },
    }
}

/// The list with every level under it, and itself, sorted.
fn sort_forest(nodes: Vec<FileTreeNode>, Ghost(paths): Ghost<Seq<String>>) -> (r: Vec<FileTreeNode>)
    ensures
        forest_first_ordered(nodes@, paths) ==> tree_ties_ordered(r@, paths),
        tree_sorted(r@),
        forest_files(r@) == forest_files(nodes@),
        forall|p: Seq<Seq<char>>| forest_wf(nodes@, p) ==> forest_wf(r@, p),
        labels(r@).to_multiset() == labels(nodes@).to_multiset(),
        r@.len() == nodes@.len(),
        all_tidy(nodes@) ==> all_tidy(r@),
        level_distinct(nodes@) ==> level_distinct(r@),
    decreases nodes@,
{
    let ghost orig = nodes@;
    let mut src = nodes;
    let mut done: Vec<FileTreeNode> = Vec::new();
    #[verifier::loop_isolation(false)]
    while src.len() > 0
        invariant
            done.len() + src.len() == orig.len(),
            src@ == orig.skip(done.len() as int),
            forall|m: int|
                0 <= m < done.len() ==> {
                    &&& node_label(#[trigger] done@[m]) == node_label(orig[m])
                    &&& node_files(done@[m]) == node_files(orig[m])
                    &&& forall|p: Seq<Seq<char>>| node_wf(orig[m], p) ==> node_wf(done@[m], p)
                    &&& node_sorted(done@[m])
                    &&& node_tidy(orig[m]) ==> node_tidy(done@[m])
                    &&& node_first_ordered(orig[m], paths) ==> node_ties_ordered(done@[m], paths)
                },
        decreases src.len(),
    {
        let ghost k = done.len();
        let n = src.remove(0);
        assert(n == orig[k as int]);
        proof {
            assert(decreases_to!(orig => orig[k as int]));
        }
        let n2 = sort_node(n, Ghost(paths));
        done.push(n2);
        assert(src@ =~= orig.skip(done.len() as int));
    }
    proof {
        assert(labels(done@) =~= labels(orig));
        lemma_forest_files(done@);
        lemma_forest_files(orig);
        assert forall|x: Seq<char>| forest_files(done@).contains(x) <==> forest_files(orig).contains(x) by {
            if forest_files(done@).contains(x) {
                let i = choose|i: int| 0 <= i < done.len() && node_files(done@[i]).contains(x);
                assert(node_files(orig[i]).contains(x));
            }
            if forest_files(orig).contains(x) {
                let i = choose|i: int| 0 <= i < orig.len() && node_files(orig[i]).contains(x);
                assert(node_files(done@[i]).contains(x));
            }
        }
        assert(forest_files(done@) =~= forest_files(orig));
        assert forall|p: Seq<Seq<char>>| forest_wf(orig, p) implies forest_wf(done@, p) by {
            lemma_forest_wf(orig, p);
            lemma_forest_wf(done@, p);
            assert forall|i: int| 0 <= i < done.len() implies node_wf(#[trigger] done@[i], p) by {
                assert(node_wf(orig[i], p));
            }
        }
        lemma_all_sorted(done@);
        lemma_all_tidy(done@);
        lemma_all_tidy(orig);
        assert(slots(done@) =~= slots(orig));
        lemma_all_first_ordered(orig, paths);
        if forest_first_ordered(orig, paths) {
            assert forall|a: int, b: int| 0 <= a < b < done@.len() implies seen_key(paths)(#[trigger] done@[a]) < seen_key(paths)(
                #[trigger] done@[b],
            ) by {
                assert(first_seen(paths, orig[a]) < first_seen(paths, orig[b]));
            }
        }
    }
    let ghost d = done@;
    let r = sort_level(done, Ghost(seen_key(paths)));
    proof {
        if forest_first_ordered(orig, paths) {
            broadcast use vstd::seq_lib::group_to_multiset_ensures;
            lemma_all_ties_ordered(r@, paths);
            assert forall|i: int| 0 <= i < r@.len() implies node_ties_ordered(#[trigger] r@[i], paths) by {
                assert(r@.contains(r@[i]));
                assert(d.to_multiset().count(r@[i]) > 0);
                let m = choose|m: int| 0 <= m < d.len() && d[m] == r@[i];
                assert(node_first_ordered(orig[m], paths));
            }
        }
        assert forall|p: Seq<Seq<char>>| forest_wf(orig, p) implies forest_wf(r@, p) by {
            lemma_same_nodes(d, r@, p);
        }
        lemma_same_nodes(d, r@, Seq::empty());
        lemma_labels_multiset(d, r@);
        if level_distinct(d) {
            lemma_distinct_perm(d, r@);
        }
    }
    r
}

/// Sorts the list, and every directory under it, into sidebar order:
/// directories first, then by lower-cased name.
fn sort_tree(nodes: &mut Vec<FileTreeNode>, Ghost(paths): Ghost<Seq<String>>)
    ensures
        forest_first_ordered(old(nodes)@, paths) ==> tree_ties_ordered(final(nodes)@, paths),
        tree_sorted(final(nodes)@),
        forest_files(final(nodes)@) == forest_files(old(nodes)@),
        forall|p: Seq<Seq<char>>| forest_wf(old(nodes)@, p) ==> forest_wf(final(nodes)@, p),
        labels(final(nodes)@).to_multiset() == labels(old(nodes)@).to_multiset(),
        tree_tidy(old(nodes)@) ==> tree_tidy(final(nodes)@),
{
    let mut v: Vec<FileTreeNode> = Vec::new();
    std::mem::swap(nodes, &mut v);
    *nodes = sort_forest(v, Ghost(paths));
}

/// The visible paths among `paths`.
pub open spec fn visible_paths(paths: Seq<String>) -> Set<Seq<char>> {
    Set::new(|p: Seq<char>| exists|j: int| 0 <= j < paths.len() && paths[j]@ == p && !hidden(p))
}

/// Builds the sidebar tree of a project's file paths. Hidden paths (a
/// component that starts with `.`) are left out. Each other path is a file
/// node under directory nodes named by its components; files under the same
/// folder share its one directory node, no level holds two nodes of the
/// same kind and name, and every directory is open and holds a node; every
/// level lists directories first, then by lower-cased name, and nodes that
/// sort alike (one kind, lower-cased names equal) in the order their files
/// first appear in `paths`.
pub fn build_file_tree(paths: &[String]) -> (r: Vec<FileTreeNode>)
    ensures
        forest_files(r@) == visible_paths(paths@),
        forest_wf(r@, Seq::empty()),
        tree_sorted(r@),
        tree_tidy(r@),
        tree_ties_ordered(r@, paths@),
{
    let mut root: Vec<FileTreeNode> = Vec::new();
    assert(slots(root@) =~= Seq::<(bool, Seq<char>)>::empty());
    let mut i: usize = 0;
    while i < paths.len()
        invariant
            i <= paths.len(),
            forest_wf(root@, Seq::empty()),
            tree_tidy(root@),
            forest_first_ordered(root@, paths@),
            forest_files(root@) == Set::new(
                |p: Seq<char>| exists|j: int| 0 <= j < i && paths@[j]@ == p && !hidden(p),
            ),
        decreases paths.len() - i,
    {
        let ghost before = forest_files(root@);
        let pc = chars_of(paths[i].as_str());
        if !is_hidden(&pc) {
            let parts = split_text(&pc, '/');
            proof {
                lemma_join_split(pc@, '/');
                assert(Seq::<Seq<char>>::empty() + parts@.map_values(|s: String| s@) =~= split_path(paths@[i as int]@));
            }
            let ghost old_root = root@;
            let ghost x = paths@[i as int]@;
            proof {
                if !before.contains(x) {
                    assert forall|y: Seq<char>| #[trigger] forest_files(root@).contains(y) implies first_in(paths@, set![y])
                        < first_in(paths@, set![x]) by {
                        let j = choose|j: int| 0 <= j < i && paths@[j]@ == y && !hidden(y);
                        lemma_first_in(paths@, set![y]);
                        if first_in(paths@, set![y]) > j {
                            assert(set![y].contains(paths@[j]@));
                        }
                        assert forall|j2: int| 0 <= j2 < i implies !set![x].contains(#[trigger] paths@[j2]@) by {
                            if paths@[j2]@ == x {
                                assert(before.contains(x));
                            }
                        }
                        lemma_first_in_unique(paths@, set![x], i as int);
                    }
                }
            }
            insert_into_tree(&mut root, &parts, paths[i].as_str(), Ghost(Seq::empty()), Ghost(paths@));
            proof {
                if before.contains(x) {
                    lemma_forest_extends_back(old_root, root@, paths@);
                }
            }
        }
        proof {
            let next = Set::new(|p: Seq<char>| exists|j: int| 0 <= j < i + 1 && paths@[j]@ == p && !hidden(p));
            assert forall|p: Seq<char>| forest_files(root@).contains(p) <==> next.contains(p) by {
                if next.contains(p) {
                    let j = choose|j: int| 0 <= j < i + 1 && paths@[j]@ == p && !hidden(p);
                    if j < i {
                        assert(before.contains(p));
                    }
                }
                if forest_files(root@).contains(p) && p != paths@[i as int]@ {
                    assert(before.contains(p));
                }
            }
            assert(forest_files(root@) =~= next);
        }
        i = i + 1;
    }
    assert(Set::new(|p: Seq<char>| exists|j: int| 0 <= j < paths.len() && paths@[j]@ == p && !hidden(p)) =~= visible_paths(paths@));
    sort_tree(&mut root, Ghost(paths@));
    root
}

// ---------------------------------------------------------------------------
// The tree is determined by its files
// ---------------------------------------------------------------------------
proof fn lemma_seq_lt_total(a: Seq<char>, b: Seq<char>)
    requires
        a != b,
    ensures
        seq_lt(a, b) || seq_lt(b, a),
    decreases a.len(),
{
    if a.len() > 0 && b.len() > 0 && a[0] == b[0] {
        if a.drop_first() == b.drop_first() {
            assert(a =~= seq![a[0]] + a.drop_first());
            assert(b =~= seq![b[0]] + b.drop_first());
        }
        lemma_seq_lt_total(a.drop_first(), b.drop_first());
    } else if a.len() == 0 && b.len() == 0 {
        assert(a =~= b);
    } else if a.len() > 0 && b.len() > 0 {
        vstd::utf8::char_u32_cast(a[0], a[0] as u32);
        vstd::utf8::char_u32_cast(b[0], b[0] as u32);
        assert((a[0] as u32) != (b[0] as u32));
    }
}

/// The files of `fs` that lie under the node of kind and name `slot` placed
/// under the directories `prefix`.
pub open spec fn files_under(fs: Set<Seq<char>>, prefix: Seq<Seq<char>>, slot: (bool, Seq<char>)) -> Set<Seq<char>> {
    fs.filter(
        |f: Seq<char>|
            split_path(f).len() > prefix.len() && split_path(f).take(prefix.len() + 1int) == prefix.push(slot.1) && (
            if slot.0 {
                split_path(f).len() > prefix.len() + 1
            } else {
                split_path(f).len() == prefix.len() + 1
            }),
    )
}

/// In a placed, tidy list, a node's files are the list's files that lie
/// under its kind and name.
proof fn lemma_node_files_formula(ns: Seq<FileTreeNode>, prefix: Seq<Seq<char>>, i: int)
    requires
        forest_wf(ns, prefix),
        tree_tidy(ns),
        0 <= i < ns.len(),
    ensures
        node_files(ns[i]) == files_under(forest_files(ns), prefix, node_slot(ns[i])),
{
    let fs = forest_files(ns);
    lemma_forest_wf(ns, prefix);
    lemma_forest_files(ns);
    assert forall|f: Seq<char>| node_files(ns[i]).contains(f) <==> files_under(fs, prefix, node_slot(ns[i])).contains(f) by {
        if node_files(ns[i]).contains(f) {
            lemma_placed_node(ns[i], prefix, f);
            assert(fs.contains(f));
        }
        if files_under(fs, prefix, node_slot(ns[i])).contains(f) {
            let j = lemma_placed_forest(ns, prefix, f);
            assert(prefix.push(node_name(ns[j]))[prefix.len() as int] == node_name(ns[j]));
            assert(prefix.push(node_name(ns[i]))[prefix.len() as int] == node_name(ns[i]));
            assert(node_slot(ns[j]) == node_slot(ns[i]));
            if j != i {
                assert(slots(ns)[i] == slots(ns)[j]);
            }
        }
    }
    assert(node_files(ns[i]) =~= files_under(fs, prefix, node_slot(ns[i])));
}

/// In a placed, tidy list, a kind and name has a node exactly where some
/// file lies under it.
proof fn lemma_slot_present(ns: Seq<FileTreeNode>, prefix: Seq<Seq<char>>, slot: (bool, Seq<char>))
    requires
        forest_wf(ns, prefix),
        tree_tidy(ns),
    ensures
        slots(ns).contains(slot) <==> exists|f: Seq<char>| #[trigger] files_under(forest_files(ns), prefix, slot).contains(f),
{
    let fs = forest_files(ns);
    if slots(ns).contains(slot) {
        let i = choose|i: int| 0 <= i < slots(ns).len() && slots(ns)[i] == slot;
        lemma_all_tidy(ns);
        lemma_tidy_has_file(ns[i]);
        let f = choose|f: Seq<char>| node_files(ns[i]).contains(f);
        lemma_node_files_formula(ns, prefix, i);
        assert(files_under(fs, prefix, slot).contains(f));
    }
    if exists|f: Seq<char>| #[trigger] files_under(fs, prefix, slot).contains(f) {
        let f = choose|f: Seq<char>| #[trigger] files_under(fs, prefix, slot).contains(f);
        let j = lemma_placed_forest(ns, prefix, f);
        assert(prefix.push(node_name(ns[j]))[prefix.len() as int] == node_name(ns[j]));
        assert(prefix.push(slot.1)[prefix.len() as int] == slot.1);
        assert(node_slot(ns[j]) == slot);
        assert(slots(ns)[j] == slot);
    }
}

/// The order of kinds and names in a tree of files `fs` keyed by `paths`:
/// directories first, then by lower-cased name, then by where their files
/// first appear.
pub open spec fn slot_before(
    x: (bool, Seq<char>),
    y: (bool, Seq<char>),
    fs: Set<Seq<char>>,
    prefix: Seq<Seq<char>>,
    paths: Seq<String>,
) -> bool {
    ||| (x.0 && !y.0)
    ||| (x.0 == y.0 && seq_lt(lowercase(x.1), lowercase(y.1)))
    ||| (x.0 == y.0 && lowercase(x.1) == lowercase(y.1) && first_in(paths, files_under(fs, prefix, x)) < first_in(
        paths,
        files_under(fs, prefix, y),
    ))
}

proof fn lemma_slot_before_asym(
    x: (bool, Seq<char>),
    y: (bool, Seq<char>),
    fs: Set<Seq<char>>,
    prefix: Seq<Seq<char>>,
    paths: Seq<String>,
)
    ensures
        !(slot_before(x, y, fs, prefix, paths) && slot_before(y, x, fs, prefix, paths)),
{
    lemma_seq_lt_order(lowercase(x.1), lowercase(y.1), lowercase(x.1));
    lemma_seq_lt_irreflexive(lowercase(x.1));
}

/// A placed, tidy, sorted list whose ties come in order of first appearance
/// lists its kinds and names in `slot_before` order.
proof fn lemma_level_slot_order(ns: Seq<FileTreeNode>, prefix: Seq<Seq<char>>, paths: Seq<String>, key_paths: Seq<String>)
    requires
        forest_wf(ns, prefix),
        tree_tidy(ns),
        level_sorted(ns),
        level_ties_by(ns, seen_key(key_paths)),
        forall|i: int| 0 <= i < ns.len() ==> first_seen(key_paths, #[trigger] ns[i]) == first_seen(paths, ns[i]),
    ensures
        forall|i: int, j: int|
            0 <= i < j < ns.len() ==> slot_before(#[trigger] slots(ns)[i], #[trigger] slots(ns)[j], forest_files(ns), prefix, paths),
{
    let fs = forest_files(ns);
    assert forall|i: int, j: int| 0 <= i < j < ns.len() implies slot_before(
        #[trigger] slots(ns)[i],
        #[trigger] slots(ns)[j],
        fs,
        prefix,
        paths,
    ) by {
        let a = ns[i];
        let b = ns[j];
        assert(!sorts_before(b, a));
        lemma_node_files_formula(ns, prefix, i);
        lemma_node_files_formula(ns, prefix, j);
        if is_dir(a) == is_dir(b) && lowercase(node_name(a)) != lowercase(node_name(b)) {
            lemma_seq_lt_total(lowercase(node_name(a)), lowercase(node_name(b)));
        }
        if tie(a, b) {
            assert(seen_key(key_paths)(a) < seen_key(key_paths)(b));
        }
    }
}

/// Two sequences of kinds and names without repeats, holding the same
/// ones, both in `slot_before` order, are equal.
proof fn lemma_sorted_slots_equal(
    s: Seq<(bool, Seq<char>)>,
    t: Seq<(bool, Seq<char>)>,
    fs: Set<Seq<char>>,
    prefix: Seq<Seq<char>>,
    paths: Seq<String>,
)
    requires
        s.no_duplicates(),
        t.no_duplicates(),
        forall|x: (bool, Seq<char>)| s.contains(x) <==> t.contains(x),
        forall|i: int, j: int| 0 <= i < j < s.len() ==> slot_before(#[trigger] s[i], #[trigger] s[j], fs, prefix, paths),
        forall|i: int, j: int| 0 <= i < j < t.len() ==> slot_before(#[trigger] t[i], #[trigger] t[j], fs, prefix, paths),
    ensures
        s == t,
    decreases s.len(),
{
    if s.len() == 0 {
        if t.len() > 0 {
            assert(t.contains(t[0]));
        }
        assert(s =~= t);
    } else if t.len() == 0 {
        assert(s.contains(s[0]));
    } else {
        let x = s[0];
        let y = t[0];
        assert(s.contains(x));
        assert(t.contains(y));
        if x != y {
            let i = choose|i: int| 0 <= i < s.len() && s[i] == y;
            let j = choose|j: int| 0 <= j < t.len() && t[j] == x;
            assert(slot_before(s[0], s[i], fs, prefix, paths));
            assert(slot_before(t[0], t[j], fs, prefix, paths));
            lemma_slot_before_asym(x, y, fs, prefix, paths);
        }
        let s1 = s.drop_first();
        let t1 = t.drop_first();
        assert forall|z: (bool, Seq<char>)| s1.contains(z) <==> t1.contains(z) by {
            if s1.contains(z) {
                let i = choose|i: int| 0 <= i < s1.len() && s1[i] == z;
                assert(s[i + 1] == z);
                assert(z != s[0]);
                assert(t.contains(z));
                let j = choose|j: int| 0 <= j < t.len() && t[j] == z;
                assert(j != 0);
                assert(t1[j - 1] == z);
            }
            if t1.contains(z) {
                let j = choose|j: int| 0 <= j < t1.len() && t1[j] == z;
                assert(t[j + 1] == z);
                assert(z != t[0]);
                assert(s.contains(z));
                let i = choose|i: int| 0 <= i < s.len() && s[i] == z;
                assert(i != 0);
                assert(s1[i - 1] == z);
            }
        }
        assert forall|i: int, j: int| 0 <= i < j < s1.len() implies slot_before(#[trigger] s1[i], #[trigger] s1[j], fs, prefix, paths) by {
            assert(s1[i] == s[i + 1] && s1[j] == s[j + 1]);
        }
        assert forall|i: int, j: int| 0 <= i < j < t1.len() implies slot_before(#[trigger] t1[i], #[trigger] t1[j], fs, prefix, paths) by {
            assert(t1[i] == t[i + 1] && t1[j] == t[j + 1]);
        }
        lemma_sorted_slots_equal(s1, t1, fs, prefix, paths);
        assert(s =~= seq![x] + s1);
        assert(t =~= seq![y] + t1);
    }
}

/// The keys of `other` agree with those of `paths` on every non-empty set
/// of files among `all`.
pub open spec fn keys_agree(other: Seq<String>, paths: Seq<String>, all: Set<Seq<char>>) -> bool {
    forall|s: Set<Seq<char>>|
        s.subset_of(all) && (exists|y: Seq<char>| s.contains(y)) ==> #[trigger] first_in(other, s) == first_in(paths, s)
}

proof fn lemma_node_seen(n: FileTreeNode, kb: Seq<String>, ka: Seq<String>, all: Set<Seq<char>>)
    requires
        node_tidy(n),
        node_files(n).subset_of(all),
        keys_agree(kb, ka, all),
    ensures
        first_seen(kb, n) == first_seen(ka, n),
{
    lemma_tidy_has_file(n);
    assert(first_in(kb, node_files(n)) == first_in(ka, node_files(n)));
}

proof fn lemma_same_node(n: FileTreeNode, m: FileTreeNode, prefix: Seq<Seq<char>>, ka: Seq<String>, kb: Seq<String>, all: Set<Seq<char>>)
    requires
        node_slot(n) == node_slot(m),
        node_files(n) == node_files(m),
        node_files(n).subset_of(all),
        node_wf(n, prefix),
        node_wf(m, prefix),
        node_tidy(n),
        node_tidy(m),
        node_sorted(n),
        node_sorted(m),
        node_ties_ordered(n, ka),
        node_ties_ordered(m, kb),
        keys_agree(kb, ka, all),
    ensures
        node_extends(n, m),
        node_extends(m, n),
    decreases n,
{
    match n {
        FileTreeNode::File { name, path } => {
            match m {
                FileTreeNode::File { name: name2, path: path2 } => {
                    lemma_join_split(path@, '/');
                    lemma_join_split(path2@, '/');
                },
                FileTreeNode::Directory { .. } => {},
            }
        },
        FileTreeNode::Directory { name, path, children, expanded } => {
            match m {
                FileTreeNode::Directory { name: name2, path: path2, children: children2, expanded: expanded2 } => {
                    lemma_same_forest(children@, children2@, prefix.push(name@), ka, kb, all);
                },
                FileTreeNode::File { .. } => {},
            }
        },
    }
}

proof fn lemma_same_forest(
    a: Seq<FileTreeNode>,
    b: Seq<FileTreeNode>,
    prefix: Seq<Seq<char>>,
    ka: Seq<String>,
    kb: Seq<String>,
    all: Set<Seq<char>>,
)
    requires
        forest_files(a) == forest_files(b),
        forest_files(a).subset_of(all),
        forest_wf(a, prefix),
        forest_wf(b, prefix),
        tree_tidy(a),
        tree_tidy(b),
        tree_sorted(a),
        tree_sorted(b),
        tree_ties_ordered(a, ka),
        tree_ties_ordered(b, kb),
        keys_agree(kb, ka, all),
    ensures
        forest_extends(a, b),
        forest_extends(b, a),
    decreases a,
{
    let fs = forest_files(a);
    lemma_forest_files(a);
    lemma_forest_files(b);
    lemma_all_tidy(a);
    lemma_all_tidy(b);
    lemma_all_sorted(a);
    lemma_all_sorted(b);
    lemma_all_ties_ordered(a, ka);
    lemma_all_ties_ordered(b, kb);
    lemma_forest_wf(a, prefix);
    lemma_forest_wf(b, prefix);
    assert forall|x: (bool, Seq<char>)| slots(a).contains(x) <==> slots(b).contains(x) by {
        lemma_slot_present(a, prefix, x);
        lemma_slot_present(b, prefix, x);
    }
    assert forall|i: int| 0 <= i < b.len() implies first_seen(kb, #[trigger] b[i]) == first_seen(ka, b[i]) by {
        assert forall|y: Seq<char>| node_files(b[i]).contains(y) implies all.contains(y) by {
            assert(forest_files(b).contains(y));
        }
        lemma_node_seen(b[i], kb, ka, all);
    }
    lemma_level_slot_order(a, prefix, ka, ka);
    lemma_level_slot_order(b, prefix, ka, kb);
    lemma_sorted_slots_equal(slots(a), slots(b), fs, prefix, ka);
    assert(a.len() == b.len()) by {
        assert(slots(a).len() == slots(b).len());
    }
    assert forall|i: int| 0 <= i < a.len() implies node_extends(#[trigger] a[i], b[i]) && node_extends(b[i], a[i]) by {
        assert(slots(a)[i] == slots(b)[i]);
        lemma_node_files_formula(a, prefix, i);
        lemma_node_files_formula(b, prefix, i);
        assert forall|y: Seq<char>| node_files(a[i]).contains(y) implies all.contains(y) by {
            assert(forest_files(a).contains(y));
        }
        assert(decreases_to!(a => a[i]));
        lemma_same_node(a[i], b[i], prefix, ka, kb, all);
    }
    lemma_forest_extends(a, b);
    lemma_forest_extends(b, a);
}

/// The sidebar tree is determined by its paths: two trees that meet
/// `build_file_tree`'s contract, one for `paths` and one for `paths`
/// followed by `more`, where each path of `more` is hidden or among
/// `paths`, are the same tree (the same nodes with the same names, paths
/// and open state, in the same order, at every level).
pub proof fn law_tree_of_paths(a: Seq<FileTreeNode>, b: Seq<FileTreeNode>, paths: Seq<String>, more: Seq<String>)
    requires
        forall|k: int| 0 <= k < more.len() ==> hidden(#[trigger] more[k]@) || exists|j: int| 0 <= j < paths.len() && paths[j]@ == more[k]@,
        forest_files(a) == visible_paths(paths),
        forest_wf(a, Seq::empty()),
        tree_sorted(a),
        tree_tidy(a),
        tree_ties_ordered(a, paths),
        forest_files(b) == visible_paths(paths + more),
        forest_wf(b, Seq::empty()),
        tree_sorted(b),
        tree_tidy(b),
        tree_ties_ordered(b, paths + more),
    ensures
        forest_extends(a, b),
        forest_extends(b, a),
{
    let all = visible_paths(paths);
    let pm = paths + more;
    assert forall|p: Seq<char>| visible_paths(pm).contains(p) <==> all.contains(p) by {
        if visible_paths(pm).contains(p) {
            let j = choose|j: int| 0 <= j < pm.len() && pm[j]@ == p && !hidden(p);
            if j >= paths.len() {
                assert(more[j - paths.len()] == pm[j]);
                let j2 = choose|j2: int| 0 <= j2 < paths.len() && paths[j2]@ == more[j - paths.len()]@;
                assert(pm[j2] == paths[j2]);
            } else {
                assert(pm[j] == paths[j]);
            }
        }
        if all.contains(p) {
            let j = choose|j: int| 0 <= j < paths.len() && paths[j]@ == p && !hidden(p);
            assert(pm[j] == paths[j]);
        }
    }
    assert(visible_paths(pm) =~= all);
    assert forall|s: Set<Seq<char>>|
        s.subset_of(all) && (exists|y: Seq<char>| s.contains(y)) implies #[trigger] first_in(pm, s) == first_in(paths, s) by {
        let y = choose|y: Seq<char>| s.contains(y);
        let j = choose|j: int| 0 <= j < paths.len() && paths[j]@ == y && !hidden(y);
        lemma_first_in(paths, s);
        let k = first_in(paths, s);
        if k > j {
            assert(!s.contains(paths[j]@));
        }
        assert forall|i: int| 0 <= i < k implies !s.contains(#[trigger] pm[i]@) by {
            assert(pm[i] == paths[i]);
            assert(!s.contains(paths[i]@));
        }
        assert(pm[k] == paths[k]);
        lemma_first_in_unique(pm, s, k);
    }
    lemma_same_forest(a, b, Seq::empty(), paths, pm, all);
}

} // verus!
