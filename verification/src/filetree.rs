//! A tree of the files in a directory, each file tagged with the group it
//! comes from.
//!
//! Nodes live in a vector and refer to each other by index; a node that is
//! removed leaves an empty slot, so indices stay stable. The paths of the
//! nodes live in a second vector, indexed by each node's `dotfile_idx`.
//! Only the nodes that can be reached from the root node (index 0) through
//! parent links take part in lookups.

use vstd::prelude::*;
use crate::path::{FsPath, PathView, copy_string, dot_dot, spec_parent, spec_push, spec_starts_with, spec_strip_prefix, spec_file_name};

verus! {

/// A node as a value.
pub struct NodeView {
    pub group: Option<Seq<char>>,
    pub parent: int,
    pub dotfile_idx: int,
    pub children: Option<Seq<int>>,
}

/// A file tree as a value: the paths, the node slots and the set of groups.
pub struct TreeView {
    pub dotfiles: Seq<Option<PathView>>,
    pub nodes: Seq<Option<NodeView>>,
    pub groups: Set<Seq<char>>,
}

struct FileNode {
    group: Option<String>,
    parent_node_idx: usize,
    // points to a path in FileTree::dotfiles
    dotfile_idx: usize,
    // indices into FileTree::nodes
    children: Option<Vec<usize>>,
}

/// A tree of paths below a root path, each tagged with an optional group.
pub struct FileTree {
    dotfiles: Vec<Option<FsPath>>,
    nodes: Vec<Option<FileNode>>,
    groups: Vec<String>,
}

/// A file as handed out by the tree: its group and its path.
pub struct File {
    pub group: Option<String>,
    pub path: FsPath,
}

pub open spec fn opt_text(o: Option<String>) -> Option<Seq<char>> {
    match o {
        Some(s) => Some(s@),
        None => None,
    }
}

pub open spec fn opt_path(o: Option<FsPath>) -> Option<PathView> {
    match o {
        Some(p) => Some(p@),
        None => None,
    }
}

pub open spec fn idx_seq(v: Seq<usize>) -> Seq<int> {
    v.map_values(|x: usize| x as int)
}

spec fn node_view(n: FileNode) -> NodeView {
    NodeView {
        group: opt_text(n.group),
        parent: n.parent_node_idx as int,
        dotfile_idx: n.dotfile_idx as int,
        children: match n.children {
            Some(c) => Some(idx_seq(c@)),
            None => None,
        },
    }
}

spec fn opt_node_view(o: Option<FileNode>) -> Option<NodeView> {
    match o {
        Some(n) => Some(node_view(n)),
        None => None,
    }
}

pub open spec fn texts_set(v: Seq<String>) -> Set<Seq<char>> {
    Set::new(|g: Seq<char>| exists|i: int| 0 <= i < v.len() && v[i]@ == g)
}

impl View for FileTree {
    type V = TreeView;

    closed spec fn view(&self) -> TreeView {
        TreeView {
            dotfiles: self.dotfiles@.map_values(|p: Option<FsPath>| opt_path(p)),
            nodes: self.nodes@.map_values(|n: Option<FileNode>| opt_node_view(n)),
            groups: texts_set(self.groups@),
        }
    }
}

/// Slot `i` holds a node.
pub open spec fn live(t: TreeView, i: int) -> bool {
    0 <= i < t.nodes.len() && t.nodes[i] is Some
}

pub open spec fn node(t: TreeView, i: int) -> NodeView {
    t.nodes[i]->0
}

/// Node `i` can be reached from the root through parent links.
pub open spec fn attached(t: TreeView, i: int) -> bool
    decreases i,
{
    if !live(t, i) {
        false
    } else if i == 0 {
        true
    } else {
        let p = node(t, i).parent;
        0 <= p < i && attached(t, p)
    }
}

/// The path of node `i`.
pub open spec fn path_of(t: TreeView, i: int) -> PathView {
    t.dotfiles[node(t, i).dotfile_idx]->0
}

/// Some reachable node has the path `v`.
pub open spec fn has_path(t: TreeView, v: PathView) -> bool {
    exists|i: int| attached(t, i) && path_of(t, i) == v
}

/// The reachable node with the path `v`, if any.
pub open spec fn find(t: TreeView, v: PathView) -> Option<int> {
    if has_path(t, v) {
        Some(choose|i: int| attached(t, i) && path_of(t, i) == v)
    } else {
        None
    }
}

/// The structure the tree keeps between operations.
pub open spec fn tree_wf(t: TreeView) -> bool {
    &&& t.nodes.len() <= t.dotfiles.len()
    &&& forall|i: int| #[trigger] live(t, i) ==> {
        &&& 0 <= node(t, i).dotfile_idx < t.dotfiles.len()
        &&& t.dotfiles[node(t, i).dotfile_idx] is Some
        &&& (i == 0 ==> node(t, i).parent == 0)
        &&& (i != 0 ==> 0 <= node(t, i).parent < i)
        &&& (node(t, i).group matches Some(g) ==> t.groups.contains(g))
        &&& (node(t, i).children matches Some(cs) ==> {
            &&& cs.len() > 0
            &&& cs.no_duplicates()
            &&& forall|k: int| 0 <= k < cs.len() ==> {
                &&& i < #[trigger] cs[k]
                &&& live(t, cs[k])
                &&& node(t, cs[k]).parent == i
            }
        })
        &&& (i != 0 && live(t, node(t, i).parent) ==> (node(t, node(t, i).parent).children matches Some(
            cs,
        ) && cs.contains(i)))
    }
    &&& forall|i: int, j: int|
        live(t, i) && live(t, j) && i != j ==> #[trigger] node(t, i).dotfile_idx != #[trigger] node(
            t,
            j,
        ).dotfile_idx
    &&& forall|i: int, j: int|
        #[trigger] attached(t, i) && #[trigger] attached(t, j) && path_of(t, i) == path_of(t, j)
            ==> i == j
}

impl FileTree {
    /// The tree keeps its structure.
    pub closed spec fn wf(&self) -> bool {
        tree_wf(self@)
    }
}


impl FileTree {
    proof fn lemma_view_facts(&self)
        ensures
            self@.nodes.len() == self.nodes@.len(),
            self@.dotfiles.len() == self.dotfiles@.len(),
            forall|i: int| 0 <= i < self.nodes@.len() ==> #[trigger] self@.nodes[i] == opt_node_view(self.nodes@[i]),
            forall|i: int| 0 <= i < self.dotfiles@.len() ==> #[trigger] self@.dotfiles[i] == opt_path(self.dotfiles@[i]),
    {
    }

    /// Whether node `i` can be reached from the root through parent links.
    fn is_attached(&self, i: usize) -> (res: bool)
        ensures
            res == attached(self@, i as int),
    {
        proof {
            self.lemma_view_facts();
        }
        let mut j = i;
        loop
            invariant
                j <= i,
                attached(self@, i as int) == attached(self@, j as int),
                self@.nodes.len() == self.nodes@.len(),
                forall|k: int| 0 <= k < self.nodes@.len() ==> #[trigger] self@.nodes[k] == opt_node_view(self.nodes@[k]),
            decreases j,
        {
            if !(j < self.nodes.len()) {
                return false;
            }
            match &self.nodes[j] {
                None => {
                    return false;
                },
                Some(n) => {
                    if j == 0 {
                        return true;
                    }
                    let p = n.parent_node_idx;
                    if p >= j {
                        return false;
                    }
                    j = p;
                },
            }
        }
    }

    /// The path stored for node `i`, which must hold a node.
    fn node_path(&self, i: usize) -> (res: &FsPath)
        requires
            self.wf(),
            live(self@, i as int),
        ensures
            res@ == path_of(self@, i as int),
    {
        proof {
            self.lemma_view_facts();
        }
        let n = self.nodes[i].as_ref().unwrap();
        let d = n.dotfile_idx;
        self.dotfiles[d].as_ref().unwrap()
    }

    /// The reachable node whose path is `value`.
    fn find_node_idx(&self, value: &FsPath) -> (res: Option<usize>)
        requires
            self.wf(),
        ensures
            res matches Some(i) ==> find(self@, value@) == Some(i as int),
            res is None ==> find(self@, value@) is None,
    {
        let mut i: usize = 0;
        while i < self.nodes.len()
            invariant
                self.wf(),
                i <= self.nodes.len(),
                forall|k: int| 0 <= k < i ==> !(#[trigger] attached(self@, k) && path_of(self@, k) == value@),
            decreases self.nodes.len() - i,
        {
            if self.is_attached(i) {
                if self.node_path(i).same_as(value) {
                    proof {
                        assert(has_path(self@, value@));
                        let c = choose|k: int| attached(self@, k) && path_of(self@, k) == value@;
                        assert(c == i);
                    }
                    return Some(i);
                }
            }
            i = i + 1;
        }
        proof {
            self.lemma_view_facts();
            if has_path(self@, value@) {
                let c = choose|k: int| attached(self@, k) && path_of(self@, k) == value@;
                assert(live(self@, c));
            }
        }
        None
    }

    /// Whether a reachable node has the path `value`.
    pub fn contains_path(&self, value: &FsPath) -> (res: bool)
        requires
            self.wf(),
        ensures
            res == has_path(self@, value@),
    {
        self.find_node_idx(value).is_some()
    }

    /// Whether `groupname` is among the groups of the tree.
    pub fn contains_group(&self, groupname: &str) -> (res: bool)
        ensures
            res == self@.groups.contains(groupname@),
    {
        let target = String::from_str(groupname);
        let mut i: usize = 0;
        while i < self.groups.len()
            invariant
                i <= self.groups.len(),
                target@ == groupname@,
                forall|k: int| 0 <= k < i ==> self.groups@[k]@ != groupname@,
            decreases self.groups.len() - i,
        {
            if self.groups[i] == target {
                return true;
            }
            i = i + 1;
        }
        false
    }

    /// The groups of the tree.
    pub fn get_groups(&self) -> (res: Vec<String>)
        ensures
            texts_set(res@) == self@.groups,
            res@.len() == 0 <==> self@.groups == Set::<Seq<char>>::empty(),
    {
        let mut res: Vec<String> = Vec::new();
        let mut i: usize = 0;
        while i < self.groups.len()
            invariant
                i <= self.groups.len(),
                res@.len() == i,
                forall|k: int| 0 <= k < i ==> #[trigger] res@[k]@ == self.groups@[k]@,
            decreases self.groups.len() - i,
        {
            res.push(copy_string(&self.groups[i]));
            i = i + 1;
        }
        assert(texts_set(res@) =~= texts_set(self.groups@)) by {
            assert forall|g: Seq<char>| texts_set(self.groups@).contains(g) implies texts_set(res@).contains(g) by {
                let k = choose|k: int| 0 <= k < self.groups@.len() && self.groups@[k]@ == g;
                assert(res@[k]@ == g);
            }
        }
        if res.len() > 0 {
            assert(texts_set(res@).contains(res@[0]@));
        } else {
            assert(texts_set(res@) =~= Set::<Seq<char>>::empty());
        }
        res
    }

    /// Whether `value` starts with the root path of the tree. The tree must
    /// have a root node.
    pub fn path_is_in_root(&self, value: &FsPath) -> (res: bool)
        requires
            self.wf(),
            live(self@, 0),
        ensures
            res == spec_starts_with(value@, path_of(self@, 0)),
    {
        let root_path = self.node_path(0);
        value.starts_with(root_path)
    }

    /// Whether the tree holds no paths and no nodes.
    pub fn is_empty(&self) -> (res: bool)
        ensures
            res == ((forall|i: int| 0 <= i < self@.dotfiles.len() ==> self@.dotfiles[i] is None)
                && (forall|i: int| 0 <= i < self@.nodes.len() ==> self@.nodes[i] is None)),
    {
        proof {
            self.lemma_view_facts();
        }
        if self.dotfiles.len() == 0 && self.nodes.len() == 0 {
            return true;
        }
        let mut i: usize = 0;
        while i < self.dotfiles.len()
            invariant
                i <= self.dotfiles.len(),
                self@.dotfiles.len() == self.dotfiles@.len(),
                forall|k: int| 0 <= k < self.dotfiles@.len() ==> #[trigger] self@.dotfiles[k] == opt_path(self.dotfiles@[k]),
                forall|k: int| 0 <= k < i ==> self@.dotfiles[k] is None,
            decreases self.dotfiles.len() - i,
        {
            if self.dotfiles[i].is_some() {
                assert(self@.dotfiles[i as int] is Some);
                return false;
            }
            i = i + 1;
        }
        let mut j: usize = 0;
        while j < self.nodes.len()
            invariant
                j <= self.nodes.len(),
                self@.nodes.len() == self.nodes@.len(),
                forall|k: int| 0 <= k < self.nodes@.len() ==> #[trigger] self@.nodes[k] == opt_node_view(self.nodes@[k]),
                forall|k: int| 0 <= k < j ==> self@.nodes[k] is None,
            decreases self.nodes.len() - j,
        {
            if self.nodes[j].is_some() {
                assert(self@.nodes[j as int] is Some);
                return false;
            }
            j = j + 1;
        }
        true
    }
}


/// Node `n` with one more child `c`.
pub open spec fn add_child(n: NodeView, c: int) -> NodeView {
    NodeView {
        children: Some(
            match n.children {
                Some(cs) => cs.push(c),
                None => seq![c],
            },
        ),
        ..n
    }
}

/// Inserting the single path `v` with `group`: refused when a reachable node
/// already has it; otherwise the group is recorded and the path stored,
/// then a node is added as the root (in an empty tree) or as a child of the
/// reachable node holding the parent path. Without such a parent no node
/// is added and the insertion fails.
pub open spec fn spec_insert_path(t: TreeView, group: Option<Seq<char>>, v: PathView) -> (TreeView, bool) {
    if has_path(t, v) {
        (t, false)
    } else {
        let groups = match group {
            Some(g) => t.groups.insert(g),
            None => t.groups,
        };
        let dotfiles = t.dotfiles.push(Some(v));
        let fresh = NodeView { group, parent: 0, dotfile_idx: t.dotfiles.len() as int, children: None };
        if t.nodes.len() == 0 {
            (TreeView { dotfiles, nodes: seq![Some(fresh)], groups }, true)
        } else {
            match find(t, spec_parent(v)) {
                Some(p) => (
                    TreeView {
                        dotfiles,
                        nodes: t.nodes.update(p, Some(add_child(node(t, p), t.nodes.len() as int))).push(
                            Some(NodeView { parent: p, ..fresh }),
                        ),
                        groups,
                    },
                    true,
                ),
                None => (TreeView { dotfiles, nodes: t.nodes, groups }, false),
            }
        }
    }
}

/// Inserting `comps` one after the other below `base`: each prefix is
/// inserted as a path, the whole of them with `group` and the ones before it
/// with no group. The result is the last insertion's.
pub open spec fn insert_steps(
    t: TreeView,
    group: Option<Seq<char>>,
    base: PathView,
    comps: Seq<Seq<char>>,
    ret: bool,
) -> (TreeView, bool)
    decreases comps.len(),
{
    if comps.len() == 0 {
        (t, ret)
    } else {
        let cur = spec_push(base, comps[0]);
        let step = spec_insert_path(t, if comps.len() == 1 { group } else { None }, cur);
        insert_steps(step.0, group, cur, comps.drop_first(), step.1)
    }
}

/// Inserting `v` with all the paths between the root path and it.
pub open spec fn spec_insert(t: TreeView, group: Option<Seq<char>>, v: PathView) -> (TreeView, bool) {
    if t.dotfiles.len() == 0 {
        spec_insert_path(t, group, v)
    } else {
        let root = t.dotfiles[0]->0;
        match spec_strip_prefix(v, root) {
            None => (t, false),
            Some(rel) => match spec_file_name(v) {
                None => (t, false),
                Some(_) => insert_steps(t, group, root, rel.parts, false),
            },
        }
    }
}

/// Whether node `j` is reachable depends only on the slots up to `j`.
proof fn lemma_attached_same(t1: TreeView, t2: TreeView, j: int)
    requires
        forall|k: int| 0 <= k <= j ==> #[trigger] live(t1, k) == live(t2, k),
        forall|k: int| 0 <= k <= j && live(t1, k) ==> #[trigger] node(t1, k).parent == node(t2, k).parent,
    ensures
        attached(t1, j) == attached(t2, j),
    decreases j,
{
    if j > 0 && live(t1, j) {
        let p = node(t1, j).parent;
        if 0 <= p < j {
            lemma_attached_same(t1, t2, p);
        }
    }
}

proof fn lemma_insert_path_wf(t: TreeView, group: Option<Seq<char>>, v: PathView)
    requires
        tree_wf(t),
    ensures
        tree_wf(spec_insert_path(t, group, v).0),
        forall|i: int| attached(t, i) ==> #[trigger] attached(spec_insert_path(t, group, v).0, i),
        forall|i: int| attached(t, i) ==> #[trigger] path_of(spec_insert_path(t, group, v).0, i) == path_of(t, i),
        spec_insert_path(t, group, v).1 ==> has_path(spec_insert_path(t, group, v).0, v),
        spec_insert_path(t, group, v).1 ==> (group matches Some(g) ==> spec_insert_path(t, group, v).0.groups.contains(g)),
{
    let r = spec_insert_path(t, group, v);
    let t2 = r.0;
    if has_path(t, v) {
        return;
    }
    let n = t.nodes.len() as int;
    if n == 0 {
        assert(live(t2, 0));
        assert forall|i: int| #[trigger] attached(t2, i) implies i == 0 by {
        }
        assert(attached(t2, 0));
        assert(path_of(t2, 0) == v);
        return;
    }
    match find(t, spec_parent(v)) {
        Some(p) => {
            assert(attached(t, p));
            assert(live(t, p));
            assert forall|k: int| 0 <= k < n implies #[trigger] live(t2, k) == live(t, k) by {}
            assert forall|j: int| 0 <= j < n implies #[trigger] attached(t2, j) == attached(t, j) by {
                assert forall|k: int| 0 <= k <= j implies #[trigger] live(t2, k) == live(t, k) by {}
                assert forall|k: int| 0 <= k <= j && live(t2, k) implies #[trigger] node(t2, k).parent == node(t, k).parent by {}
                lemma_attached_same(t2, t, j);
            }
            assert(attached(t2, n)) by {
                assert(attached(t2, p));
            }
            assert(path_of(t2, n) == v);
            assert forall|i: int| #[trigger] attached(t2, i) && i != n implies 0 <= i < n by {
                assert(live(t2, i));
            }
            assert forall|i: int| #[trigger] live(t2, i) implies {
                &&& 0 <= node(t2, i).dotfile_idx < t2.dotfiles.len()
                &&& t2.dotfiles[node(t2, i).dotfile_idx] is Some
                &&& (i == 0 ==> node(t2, i).parent == 0)
                &&& (i != 0 ==> 0 <= node(t2, i).parent < i)
                &&& (node(t2, i).group matches Some(g) ==> t2.groups.contains(g))
                &&& (node(t2, i).children matches Some(cs) ==> {
                    &&& cs.len() > 0
                    &&& cs.no_duplicates()
                    &&& forall|k: int| 0 <= k < cs.len() ==> {
                        &&& i < #[trigger] cs[k]
                        &&& live(t2, cs[k])
                        &&& node(t2, cs[k]).parent == i
                    }
                })
                &&& (i != 0 && live(t2, node(t2, i).parent) ==> (node(t2, node(t2, i).parent).children matches Some(
                    cs,
                ) && cs.contains(i)))
            } by {
                if i == n {
                    assert(node(t2, p).children->0.last() == n);
                    assert(node(t2, p).children->0.contains(n));
                } else {
                    assert(live(t, i));
                    if i == p {
                        let cs2 = node(t2, p).children->0;
                        if let Some(oc) = node(t, p).children {
                            assert(cs2 == oc.push(n));
                            assert forall|a: int, b: int| 0 <= a < cs2.len() && 0 <= b < cs2.len() && a != b implies cs2[a] != cs2[b] by {
                                if a < oc.len() && b < oc.len() {
                                    assert(cs2[a] == oc[a] && cs2[b] == oc[b]);
                                } else if a < oc.len() {
                                    assert(live(t, oc[a]));
                                } else if b < oc.len() {
                                    assert(live(t, oc[b]));
                                }
                            }
                        }
                        assert forall|k: int| 0 <= k < cs2.len() implies {
                            &&& i < #[trigger] cs2[k]
                            &&& live(t2, cs2[k])
                            &&& node(t2, cs2[k]).parent == i
                        } by {
                            if k < cs2.len() - 1 {
                                let cs = node(t, p).children->0;
                                assert(cs2[k] == cs[k]);
                            }
                        }
                    }
                    let q = node(t, i).parent;
                    if i != 0 && live(t2, q) && q == p {
                        let cs = node(t, p).children->0;
                        let k = choose|k: int| 0 <= k < cs.len() && cs[k] == i;
                        assert(node(t2, p).children->0[k] == i);
                    }
                }
            }
            assert forall|i: int, j: int|
                #[trigger] attached(t2, i) && #[trigger] attached(t2, j) && path_of(t2, i) == path_of(t2, j)
                implies i == j by {
                if i != n && j != n {
                    assert(attached(t, i) && attached(t, j));
                } else if i == n && j != n {
                    assert(attached(t, j));
                    assert(path_of(t, j) == v);
                } else if j == n && i != n {
                    assert(attached(t, i));
                    assert(path_of(t, i) == v);
                }
            }
            assert forall|i: int| attached(t, i) implies #[trigger] attached(t2, i) by {
                assert(live(t, i));
            }
        },
        None => {
            assert forall|k: int| 0 <= k < n implies #[trigger] live(t2, k) == live(t, k) by {}
            assert forall|j: int| attached(t, j) implies #[trigger] attached(t2, j) by {
                assert(live(t, j));
                assert forall|k: int| 0 <= k <= j implies #[trigger] live(t2, k) == live(t, k) by {}
                lemma_attached_same(t2, t, j);
            }
            assert forall|j: int| #[trigger] attached(t2, j) implies attached(t, j) by {
                assert(live(t2, j));
                assert forall|k: int| 0 <= k <= j implies #[trigger] live(t2, k) == live(t, k) by {}
                lemma_attached_same(t2, t, j);
            }
        },
    }
}


fn copy_opt_string(o: &Option<String>) -> (res: Option<String>)
    ensures
        opt_text(res) == opt_text(*o),
{
    match o {
        Some(s) => Some(copy_string(s)),
        None => None,
    }
}

impl FileTree {
    /// Records `g` among the groups.
    fn add_group(&mut self, g: &String)
        ensures
            final(self).dotfiles == old(self).dotfiles,
            final(self).nodes == old(self).nodes,
            final(self)@.groups == old(self)@.groups.insert(g@),
    {
        if !self.contains_group(g.as_str()) {
            self.groups.push(copy_string(g));
            proof {
                let old_g = old(self).groups@;
                assert(self.groups@ =~= old_g.push(self.groups@.last()));
                assert(texts_set(self.groups@) =~= texts_set(old_g).insert(g@)) by {
                    assert forall|x: Seq<char>| texts_set(self.groups@).contains(x) implies texts_set(old_g).insert(g@).contains(x) by {
                        let k = choose|k: int| 0 <= k < self.groups@.len() && self.groups@[k]@ == x;
                        if k < old_g.len() {
                            assert(old_g[k]@ == x);
                        }
                    }
                    assert forall|x: Seq<char>| texts_set(old_g).insert(g@).contains(x) implies texts_set(self.groups@).contains(x) by {
                        if x == g@ {
                            assert(self.groups@[old_g.len() as int]@ == x);
                        } else {
                            let k = choose|k: int| 0 <= k < old_g.len() && old_g[k]@ == x;
                            assert(self.groups@[k]@ == x);
                        }
                    }
                }
            }
        } else {
            assert(texts_set(self.groups@).insert(g@) =~= texts_set(self.groups@));
        }
    }

    /// Inserts the single path `value` with `group`, without its
    /// intermediate paths (see `spec_insert_path`). Returns whether a node
    /// was added.
    fn insert_path(&mut self, group: Option<String>, value: &FsPath) -> (res: bool)
        requires
            old(self).wf(),
        ensures
            final(self).wf(),
            (final(self)@, res) == spec_insert_path(old(self)@, opt_text(group), value@),
    {
        proof {
            lemma_insert_path_wf(self@, opt_text(group), value@);
            self.lemma_view_facts();
        }
        if self.contains_path(value) {
            return false;
        }
        let ghost t = self@;
        let value_parent = value.parent();
        let parent_found = if self.nodes.len() == 0 {
            None
        } else {
            self.find_node_idx(&value_parent)
        };
        if let Some(g) = &group {
            self.add_group(g);
        }
        self.dotfiles.push(Some(value.duplicate()));
        let path_idx = self.dotfiles.len() - 1;
        let ghost target = spec_insert_path(t, opt_text(group), value@).0;
        proof {
            assert(self@.dotfiles =~= t.dotfiles.push(Some(value@)));
        }
        if self.nodes.len() == 0 {
            self.nodes.push(Some(FileNode { group, parent_node_idx: 0, dotfile_idx: path_idx, children: None }));
            proof {
                assert(self@.nodes =~= target.nodes);
                assert(self@ == target);
            }
            return true;
        }
        match parent_found {
            Some(parent) => {
                let new_node_idx = self.nodes.len();
                proof {
                    assert(live(t, parent as int));
                }
                let old_node = self.nodes[parent].as_ref().unwrap();
                let children = match &old_node.children {
                    Some(c) => {
                        let mut c2: Vec<usize> = Vec::new();
                        let mut k: usize = 0;
                        while k < c.len()
                            invariant
                                k <= c.len(),
                                c2@ == c@.take(k as int),
                            decreases c.len() - k,
                        {
                            c2.push(c[k]);
                            proof {
                                assert(c@.take(k + 1) =~= c@.take(k as int).push(c@[k as int]));
                            }
                            k = k + 1;
                        }
                        proof {
                            assert(c@.take(c.len() as int) =~= c@);
                        }
                        c2.push(new_node_idx);
                        c2
                    },
                    None => {
                        let mut c2: Vec<usize> = Vec::new();
                        c2.push(new_node_idx);
                        c2
                    },
                };
                let updated = FileNode {
                    group: copy_opt_string(&old_node.group),
                    parent_node_idx: old_node.parent_node_idx,
                    dotfile_idx: old_node.dotfile_idx,
                    children: Some(children),
                };
                proof {
                    assert(node_view(updated) == add_child(node(t, parent as int), new_node_idx as int)) by {
                        let cs = node_view(updated).children->0;
                        match node(t, parent as int).children {
                            Some(oc) => {
                                assert(cs =~= oc.push(new_node_idx as int));
                            },
                            None => {
                                assert(cs =~= seq![new_node_idx as int]);
                            },
                        }
                    }
                }
                self.nodes.set(parent, Some(updated));
                self.nodes.push(
                    Some(FileNode { group, parent_node_idx: parent, dotfile_idx: path_idx, children: None }),
                );
                proof {
                    assert(self@.nodes =~= target.nodes);
                    assert(self@ == target);
                }
                true
            },
            None => {
                proof {
                    assert(self@.nodes =~= target.nodes);
                    assert(self@ == target);
                }
                false
            },
        }
    }

    /// Inserts `value` with `group`, together with every path between the
    /// root path and `value` (see `spec_insert`); those intermediate paths
    /// get no group. Paths outside the root path are refused. Returns whether
    /// the last insertion added a node.
    pub fn insert(&mut self, group: Option<String>, value: &FsPath) -> (res: bool)
        requires
            old(self).wf(),
            old(self)@.dotfiles.len() == 0 || old(self)@.dotfiles[0] is Some,
        ensures
            final(self).wf(),
            (final(self)@, res) == spec_insert(old(self)@, opt_text(group), value@),
    {
        proof {
            self.lemma_view_facts();
        }
        if self.dotfiles.len() == 0 {
            return self.insert_path(group, value);
        }
        let mut curr_dotfile = self.dotfiles[0].as_ref().unwrap().duplicate();
        let value_components = match value.strip_prefix(&curr_dotfile) {
            Some(c) => c,
            None => return false,
        };
        match value.file_name() {
            Some(_) => {},
            None => return false,
        }
        let ghost t0 = self@;
        proof {
            assert(t0.dotfiles[0] == opt_path(self.dotfiles@[0]));
            assert(t0.dotfiles[0]->0 == curr_dotfile@);
            assert(value_components@.parts.skip(0) =~= value_components@.parts);
        }
        let mut last_insert_ret = false;
        let mut i: usize = 0;
        while i < value_components.parts.len()
            invariant
                self.wf(),
                i <= value_components.parts.len(),
                spec_insert(t0, opt_text(group), value@) == insert_steps(
                    self@,
                    opt_text(group),
                    curr_dotfile@,
                    value_components@.parts.skip(i as int),
                    last_insert_ret,
                ),
            decreases value_components.parts.len() - i,
        {
            let component = &value_components.parts[i];
            proof {
                assert(value_components@.parts.skip(i as int)[0] == component@);
                assert(value_components@.parts.skip(i as int).drop_first() =~= value_components@.parts.skip(i + 1));
            }
            curr_dotfile = curr_dotfile.push_part(component.as_str());
            let g = if i + 1 == value_components.parts.len() {
                copy_opt_string(&group)
            } else {
                None
            };
            last_insert_ret = self.insert_path(g, &curr_dotfile);
            i = i + 1;
        }
        last_insert_ret
    }
}


/// Some node in `nodes` has the group `g`.
pub open spec fn group_in_nodes(nodes: Seq<Option<NodeView>>, g: Seq<char>) -> bool {
    exists|i: int| 0 <= i < nodes.len() && nodes[i] is Some && #[trigger] nodes[i]->0.group == Some(g)
}

/// `cs` without the entries equal to `x`.
pub open spec fn drop_value(cs: Seq<int>, x: int) -> Seq<int>
    decreases cs.len(),
{
    if cs.len() == 0 {
        cs
    } else {
        let r = drop_value(cs.drop_last(), x);
        if cs.last() == x {
            r
        } else {
            r.push(cs.last())
        }
    }
}

proof fn lemma_drop_value_no_dup(cs: Seq<int>, x: int)
    requires
        cs.no_duplicates(),
    ensures
        drop_value(cs, x).no_duplicates(),
    decreases cs.len(),
{
    if cs.len() > 0 {
        lemma_drop_value_no_dup(cs.drop_last(), x);
        lemma_drop_value(cs.drop_last(), x);
        let r = drop_value(cs.drop_last(), x);
        if cs.last() != x {
            assert(!cs.drop_last().contains(cs.last()));
            assert(!r.contains(cs.last()));
            let r2 = r.push(cs.last());
            assert forall|a: int, b: int| 0 <= a < r2.len() && 0 <= b < r2.len() && a != b implies r2[a] != r2[b] by {
                if a < r.len() && b < r.len() {
                } else if a < r.len() {
                    assert(r.contains(r2[a]));
                } else if b < r.len() {
                    assert(r.contains(r2[b]));
                }
            }
        }
    }
}

proof fn lemma_drop_value(cs: Seq<int>, x: int)
    ensures
        forall|y: int| drop_value(cs, x).contains(y) <==> (cs.contains(y) && y != x),
        forall|k: int| 0 <= k < drop_value(cs, x).len() ==> cs.contains(#[trigger] drop_value(cs, x)[k]) && drop_value(cs, x)[k] != x,
    decreases cs.len(),
{
    if cs.len() > 0 {
        lemma_drop_value(cs.drop_last(), x);
        let r = drop_value(cs.drop_last(), x);
        assert forall|y: int| drop_value(cs, x).contains(y) <==> (cs.contains(y) && y != x) by {
            if cs.contains(y) && y != x {
                let k = choose|k: int| 0 <= k < cs.len() && cs[k] == y;
                if k < cs.len() - 1 {
                    assert(cs.drop_last()[k] == y);
                    assert(cs.drop_last().contains(y));
                    assert(r.contains(y));
                    let m = choose|m: int| 0 <= m < r.len() && r[m] == y;
                    if cs.last() != x {
                        assert(r.push(cs.last())[m] == y);
                    }
                } else {
                    assert(r.push(cs.last()).last() == y);
                }
            }
            if drop_value(cs, x).contains(y) {
                let m = choose|m: int| 0 <= m < drop_value(cs, x).len() && drop_value(cs, x)[m] == y;
                if m < r.len() {
                    assert(r[m] == y);
                    assert(r.contains(y));
                    let k = choose|k: int| 0 <= k < cs.drop_last().len() && cs.drop_last()[k] == y;
                    assert(cs[k] == y);
                } else {
                    assert(y == cs.last());
                    assert(cs[cs.len() - 1] == y);
                }
            }
        }
        assert forall|k: int| 0 <= k < drop_value(cs, x).len() implies cs.contains(#[trigger] drop_value(cs, x)[k]) && drop_value(cs, x)[k] != x by {
            assert(drop_value(cs, x).contains(drop_value(cs, x)[k]));
        }
    }
}

/// Removing the node in slot `idx`: it leaves its parent's children (the
/// parent loses its children list when none are left), its slot and its
/// path are emptied, and its group is forgotten when no remaining node has
/// it. The result is the path the node had. Nothing changes when the slot
/// is empty.
pub open spec fn spec_remove_idx(t: TreeView, idx: int) -> (TreeView, Option<PathView>) {
    if !live(t, idx) {
        (t, None)
    } else {
        let n = node(t, idx);
        let p = n.parent;
        let nodes1 = if live(t, p) && node(t, p).children is Some {
            let cs = drop_value(node(t, p).children->0, idx);
            t.nodes.update(
                p,
                Some(NodeView { children: if cs.len() == 0 { None } else { Some(cs) }, ..node(t, p) }),
            )
        } else {
            t.nodes
        };
        let nodes2 = nodes1.update(idx, None);
        let groups2 = match n.group {
            Some(g) => if group_in_nodes(nodes2, g) {
                t.groups
            } else {
                t.groups.remove(g)
            },
            None => t.groups,
        };
        (
            TreeView {
                dotfiles: t.dotfiles.update(n.dotfile_idx, None),
                nodes: nodes2,
                groups: groups2,
            },
            t.dotfiles[n.dotfile_idx],
        )
    }
}

/// Removing a node walks up from it: while the parent has no group and
/// other children, the walk moves to the parent; a parent without a group
/// whose only child is the walk's node is removed as well. This holds when
/// that walk ends: it must not reach an empty parent slot, a parent without
/// children, or the root when the root has several children.
pub open spec fn walk_ok(t: TreeView, curr: int) -> bool
    decreases curr,
{
    if curr < 0 || !live(t, curr) {
        true
    } else {
        let p = node(t, curr).parent;
        if !live(t, p) {
            false
        } else if node(t, p).group is Some {
            true
        } else if node(t, p).children is None {
            false
        } else if node(t, p).children->0.len() == 1 {
            true
        } else if !(0 <= p < curr) {
            false
        } else {
            walk_ok(t, p)
        }
    }
}

/// The parent that the walk from `curr` removes, if any.
pub open spec fn walk_target(t: TreeView, curr: int) -> Option<int>
    decreases curr,
{
    if curr < 0 || !live(t, curr) {
        None
    } else {
        let p = node(t, curr).parent;
        if !live(t, p) || node(t, p).group is Some || node(t, p).children is None {
            None
        } else if node(t, p).children->0.len() == 1 {
            Some(p)
        } else if !(0 <= p < curr) {
            None
        } else {
            walk_target(t, p)
        }
    }
}

/// Removing the node in slot `idx` (see `walk_ok`): the parent the walk
/// finds is removed first, then the node itself.
pub open spec fn spec_remove(t: TreeView, idx: int) -> (TreeView, Option<PathView>) {
    if !(0 <= idx < t.nodes.len()) {
        (t, None)
    } else {
        let t1 = match walk_target(t, idx) {
            Some(p) => spec_remove_idx(t, p).0,
            None => t,
        };
        spec_remove_idx(t1, idx)
    }
}

proof fn lemma_attached_shrinks(t1: TreeView, t2: TreeView, j: int)
    requires
        forall|k: int| #[trigger] live(t2, k) ==> live(t1, k),
        forall|k: int| live(t2, k) ==> #[trigger] node(t2, k).parent == node(t1, k).parent,
        attached(t2, j),
    ensures
        attached(t1, j),
    decreases j,
{
    if j > 0 {
        let p = node(t2, j).parent;
        lemma_attached_shrinks(t1, t2, p);
    }
}

proof fn lemma_remove_idx_wf(t: TreeView, idx: int)
    requires
        tree_wf(t),
    ensures
        tree_wf(spec_remove_idx(t, idx).0),
        forall|j: int| #[trigger] attached(spec_remove_idx(t, idx).0, j) ==> attached(t, j) && path_of(
            spec_remove_idx(t, idx).0,
            j,
        ) == path_of(t, j),
        !live(spec_remove_idx(t, idx).0, idx),
        forall|j: int| #[trigger] live(spec_remove_idx(t, idx).0, j) ==> live(t, j),
        forall|j: int| live(t, j) && j != idx ==> #[trigger] live(spec_remove_idx(t, idx).0, j),
        spec_remove_idx(t, idx).0.nodes.len() == t.nodes.len(),
        forall|j: int| live(t, j) && j != idx ==> (#[trigger] node(spec_remove_idx(t, idx).0, j)).parent == node(t, j).parent,
        forall|j: int| live(t, j) && j != idx ==> (#[trigger] node(spec_remove_idx(t, idx).0, j)).group == node(t, j).group,
        forall|j: int| live(t, j) && j != idx && j != node(t, idx).parent ==> #[trigger] node(spec_remove_idx(t, idx).0, j) == node(t, j),
        forall|j: int| live(t, j) && j != idx ==> (#[trigger] node(spec_remove_idx(t, idx).0, j)).dotfile_idx == node(t, j).dotfile_idx,
        spec_remove_idx(t, idx).0.dotfiles.len() == t.dotfiles.len(),
{
    let t2 = spec_remove_idx(t, idx).0;
    if !live(t, idx) {
        return;
    }
    let n = node(t, idx);
    let p = n.parent;
    assert forall|k: int| #[trigger] live(t2, k) implies live(t, k) && k != idx by {}
    assert forall|k: int| live(t2, k) implies #[trigger] node(t2, k).parent == node(t, k).parent by {}
    assert forall|j: int| #[trigger] attached(t2, j) implies attached(t, j) && path_of(t2, j) == path_of(t, j) by {
        lemma_attached_shrinks(t, t2, j);
        assert(live(t2, j));
        assert(node(t, j).dotfile_idx != n.dotfile_idx);
    }
    assert forall|i: int| #[trigger] live(t2, i) implies {
        &&& 0 <= node(t2, i).dotfile_idx < t2.dotfiles.len()
        &&& t2.dotfiles[node(t2, i).dotfile_idx] is Some
        &&& (i == 0 ==> node(t2, i).parent == 0)
        &&& (i != 0 ==> 0 <= node(t2, i).parent < i)
        &&& (node(t2, i).group matches Some(g) ==> t2.groups.contains(g))
        &&& (node(t2, i).children matches Some(cs) ==> {
            &&& cs.len() > 0
            &&& cs.no_duplicates()
            &&& forall|k: int| 0 <= k < cs.len() ==> {
                &&& i < #[trigger] cs[k]
                &&& live(t2, cs[k])
                &&& node(t2, cs[k]).parent == i
            }
        })
        &&& (i != 0 && live(t2, node(t2, i).parent) ==> (node(t2, node(t2, i).parent).children matches Some(
            cs,
        ) && cs.contains(i)))
    } by {
        assert(live(t, i) && i != idx);
        assert(node(t, i).dotfile_idx != n.dotfile_idx);
        assert(0 <= node(t2, i).dotfile_idx < t2.dotfiles.len());
        assert(t2.dotfiles[node(t2, i).dotfile_idx] is Some);
        assert(i == 0 ==> node(t2, i).parent == 0);
        assert(i != 0 ==> 0 <= node(t2, i).parent < i);
        if let Some(g) = node(t2, i).group {
            assert(t.groups.contains(g));
            if n.group == Some(g) {
                let nodes2 = t2.nodes;
                assert(0 <= i < nodes2.len() && nodes2[i] is Some && nodes2[i]->0.group == Some(g));
                assert(group_in_nodes(nodes2, g));
                assert(t2.groups == t.groups);
            } else if let Some(h) = n.group {
                assert(h != g);
                assert(t2.groups == t.groups || t2.groups == t.groups.remove(h));
            } else {
                assert(t2.groups == t.groups);
            }
            assert(t2.groups.contains(g));
        }
        if i == p && node(t, p).children is Some {
            let cs = node(t, p).children->0;
            lemma_drop_value(cs, idx);
            lemma_drop_value_no_dup(cs, idx);
            if let Some(cs2) = node(t2, i).children {
                assert(cs2 == drop_value(cs, idx));
                assert forall|k: int| 0 <= k < cs2.len() implies {
                    &&& i < #[trigger] cs2[k]
                    &&& live(t2, cs2[k])
                    &&& node(t2, cs2[k]).parent == i
                } by {
                    let m = choose|m: int| 0 <= m < cs.len() && cs[m] == cs2[k];
                    assert(cs2[k] != idx);
                }
            }
        } else if let Some(cs) = node(t2, i).children {
            assert(node(t, i).children == Some(cs));
            assert forall|k: int| 0 <= k < cs.len() implies {
                &&& i < #[trigger] cs[k]
                &&& live(t2, cs[k])
                &&& node(t2, cs[k]).parent == i
            } by {
                assert(live(t, cs[k]));
                assert(node(t, cs[k]).parent == i);
                assert(cs[k] != idx);
            }
        }
        let q = node(t, i).parent;
        if i != 0 && live(t2, q) {
            let cs = node(t, q).children->0;
            assert(cs.contains(i));
            if q == p {
                lemma_drop_value(cs, idx);
                assert(drop_value(cs, idx).contains(i));
                assert(drop_value(cs, idx).len() > 0);
            }
        }
    }
    assert forall|i: int, j: int|
        #[trigger] attached(t2, i) && #[trigger] attached(t2, j) && path_of(t2, i) == path_of(t2, j)
        implies i == j by {
        assert(attached(t, i) && attached(t, j));
    }
    assert forall|i: int, j: int|
        live(t2, i) && live(t2, j) && i != j implies #[trigger] node(t2, i).dotfile_idx != #[trigger] node(t2, j).dotfile_idx by {
        assert(live(t, i) && live(t, j));
    }
}

impl Default for FileTree {
    /// A tree with no paths and no nodes.
    fn default() -> (res: FileTree)
        ensures
            res.wf(),
            res@ == (TreeView { dotfiles: Seq::empty(), nodes: Seq::empty(), groups: Set::empty() }),
    {
        let tree = FileTree { dotfiles: Vec::new(), nodes: Vec::new(), groups: Vec::new() };
        proof {
            assert(tree@.dotfiles =~= Seq::<Option<PathView>>::empty());
            assert(tree@.nodes =~= Seq::<Option<NodeView>>::empty());
            assert(tree@.groups =~= Set::<Seq<char>>::empty());
        }
        tree
    }
}

impl FileTree {
    /// A tree holding only the root path `root`.
    pub fn new(root: &FsPath) -> (res: FileTree)
        ensures
            res.wf(),
            res@ == (TreeView {
                dotfiles: seq![Some(root@)],
                nodes: seq![Some(NodeView { group: None, parent: 0, dotfile_idx: 0, children: None })],
                groups: Set::empty(),
            }),
    {
        let mut tree = FileTree { dotfiles: Vec::new(), nodes: Vec::new(), groups: Vec::new() };
        proof {
            assert(tree@.dotfiles =~= Seq::<Option<PathView>>::empty());
            assert(tree@.nodes =~= Seq::<Option<NodeView>>::empty());
            assert(tree@.groups =~= Set::<Seq<char>>::empty());
            assert(!has_path(tree@, root@));
        }
        tree.insert(None, root);
        proof {
            assert(tree@.dotfiles =~= seq![Some(root@)]);
        }
        tree
    }

    /// Removes the node in slot `idx` (see `spec_remove_idx`).
    fn remove_idx(&mut self, idx: usize) -> (res: Option<FsPath>)
        requires
            old(self).wf(),
        ensures
            final(self).wf(),
            (final(self)@, opt_path(res)) == spec_remove_idx(old(self)@, idx as int),
    {
        proof {
            lemma_remove_idx_wf(self@, idx as int);
            self.lemma_view_facts();
        }
        let ghost t = self@;
        if idx >= self.nodes.len() || self.nodes[idx].is_none() {
            return None;
        }
        let node = self.nodes[idx].as_ref().unwrap();
        let p = node.parent_node_idx;
        let d = node.dotfile_idx;
        let node_group = copy_opt_string(&node.group);
        let ghost target = spec_remove_idx(t, idx as int);
        if p < self.nodes.len() && self.nodes[p].is_some() {
            let parent_node = self.nodes[p].as_ref().unwrap();
            if parent_node.children.is_some() {
                let children = parent_node.children.as_ref().unwrap();
                let mut kept: Vec<usize> = Vec::new();
                let mut k: usize = 0;
                while k < children.len()
                    invariant
                        k <= children.len(),
                        idx_seq(kept@) == drop_value(idx_seq(children@).take(k as int), idx as int),
                    decreases children.len() - k,
                {
                    proof {
                        let s1 = idx_seq(children@).take(k + 1);
                        assert(s1.drop_last() =~= idx_seq(children@).take(k as int));
                        assert(s1.last() == children@[k as int] as int);
                    }
                    if children[k] != idx {
                        kept.push(children[k]);
                        proof {
                            assert(idx_seq(kept@) =~= idx_seq(kept@.drop_last()).push(children@[k as int] as int));
                        }
                    }
                    k = k + 1;
                }
                proof {
                    assert(idx_seq(children@).take(children.len() as int) =~= idx_seq(children@));
                }
                let updated = FileNode {
                    group: copy_opt_string(&parent_node.group),
                    parent_node_idx: parent_node.parent_node_idx,
                    dotfile_idx: parent_node.dotfile_idx,
                    children: if kept.len() == 0 { None } else { Some(kept) },
                };
                self.nodes.set(p, Some(updated));
            }
        }
        self.nodes.set(idx, None);
        let discarded = match &self.dotfiles[d] {
            Some(path) => Some(path.duplicate()),
            None => None,
        };
        self.dotfiles.set(d, None);
        proof {
            assert(self@.nodes =~= target.0.nodes);
            assert(self@.dotfiles =~= target.0.dotfiles);
        }
        if let Some(g) = node_group {
            let mut has_group = false;
            let mut i: usize = 0;
            while i < self.nodes.len()
                invariant
                    i <= self.nodes.len(),
                    self@.nodes.len() == self.nodes@.len(),
                    forall|k: int| 0 <= k < self.nodes@.len() ==> #[trigger] self@.nodes[k] == opt_node_view(self.nodes@[k]),
                    has_group == exists|j: int|
                        0 <= j < i && self@.nodes[j] is Some && #[trigger] self@.nodes[j]->0.group == Some(g@),
                decreases self.nodes.len() - i,
            {
                proof {
                    assert(self@.nodes[i as int] == opt_node_view(self.nodes@[i as int]));
                }
                if let Some(n) = &self.nodes[i] {
                    if let Some(ng) = &n.group {
                        if *ng == g {
                            has_group = true;
                            assert(self@.nodes[i as int]->0.group == Some(g@));
                        } else {
                            assert(self@.nodes[i as int]->0.group != Some(g@));
                        }
                    } else {
                        assert(self@.nodes[i as int]->0.group != Some(g@));
                    }
                }
                i = i + 1;
            }
            proof {
                let nodes2 = target.0.nodes;
                assert(self@.nodes == nodes2);
                assert(has_group == group_in_nodes(nodes2, g@));
                if has_group {
                    assert(target.0.groups == t.groups);
                } else {
                    assert(target.0.groups == t.groups.remove(g@));
                }
            }
            if !has_group {
                self.remove_group(&g);
            }
        }
        proof {
            assert(self@.nodes =~= target.0.nodes);
            assert(self@.dotfiles =~= target.0.dotfiles);
            assert(self@.groups =~= target.0.groups);
        }
        discarded
    }

    /// Forgets the group `g`.
    fn remove_group(&mut self, g: &String)
        ensures
            final(self).dotfiles == old(self).dotfiles,
            final(self).nodes == old(self).nodes,
            final(self)@.groups == old(self)@.groups.remove(g@),
    {
        let mut kept: Vec<String> = Vec::new();
        let mut i: usize = 0;
        while i < self.groups.len()
            invariant
                i <= self.groups.len(),
                texts_set(kept@) == texts_set(self.groups@.take(i as int)).remove(g@),
            decreases self.groups.len() - i,
        {
            proof {
                assert(self.groups@.take(i + 1) =~= self.groups@.take(i as int).push(self.groups@[i as int]));
            }
            let ghost before = kept@;
            if self.groups[i] != *g {
                kept.push(copy_string(&self.groups[i]));
            }
            proof {
                let s1 = self.groups@.take(i as int);
                let s2 = self.groups@.take(i + 1);
                assert forall|x: Seq<char>| texts_set(kept@).contains(x) == texts_set(s2).remove(g@).contains(x) by {
                    if texts_set(kept@).contains(x) {
                        let k = choose|k: int| 0 <= k < kept@.len() && kept@[k]@ == x;
                        if k < before.len() {
                            assert(texts_set(before).contains(x));
                            let m = choose|m: int| 0 <= m < s1.len() && s1[m]@ == x;
                            assert(s2[m]@ == x);
                        } else {
                            assert(s2[i as int]@ == x);
                        }
                    }
                    if texts_set(s2).remove(g@).contains(x) {
                        let m = choose|m: int| 0 <= m < s2.len() && s2[m]@ == x;
                        if m < i {
                            assert(s1[m]@ == x);
                            assert(texts_set(before).contains(x));
                            let k = choose|k: int| 0 <= k < before.len() && before[k]@ == x;
                            assert(kept@[k]@ == x);
                        } else {
                            assert(kept@.last()@ == x);
                        }
                    }
                }
                assert(texts_set(kept@) =~= texts_set(s2).remove(g@));
            }
            i = i + 1;
        }
        proof {
            assert(self.groups@.take(self.groups.len() as int) =~= self.groups@);
        }
        self.groups = kept;
    }

    /// Removes the node in slot `idx`, and the parent that the walk up
    /// from it finds (see `walk_ok` and `spec_remove`). Returns the path of
    /// the removed node.
    pub fn remove(&mut self, idx: usize) -> (res: Option<FsPath>)
        requires
            old(self).wf(),
            walk_ok(old(self)@, idx as int),
        ensures
            final(self).wf(),
            (final(self)@, opt_path(res)) == spec_remove(old(self)@, idx as int),
    {
        proof {
            self.lemma_view_facts();
        }
        if idx >= self.nodes.len() {
            return None;
        }
        let ghost t = self@;
        let mut target: Option<usize> = None;
        let mut curr_idx = idx;
        loop
            invariant_except_break
                self@ == t,
                self.wf(),
                curr_idx < self.nodes.len(),
                walk_ok(t, curr_idx as int),
                walk_target(t, idx as int) == walk_target(t, curr_idx as int),
                target is None,
            ensures
                match target {
                    Some(p) => walk_target(t, idx as int) == Some(p as int),
                    None => walk_target(t, idx as int) is None,
                },
            decreases curr_idx,
        {
            proof {
                self.lemma_view_facts();
            }
            if self.nodes[curr_idx].is_none() {
                break;
            }
            let node = self.nodes[curr_idx].as_ref().unwrap();
            let parent_idx = node.parent_node_idx;
            let parent = self.nodes[parent_idx].as_ref().unwrap();
            if parent.group.is_some() {
                break;
            }
            let children_len = parent.children.as_ref().unwrap().len();
            if children_len == 1 {
                target = Some(parent_idx);
                break;
            }
            curr_idx = parent_idx;
        }
        if let Some(p) = target {
            self.remove_idx(p);
        }
        self.remove_idx(idx)
    }

    /// Removes the reachable node whose path is `value` (see `remove`).
    /// Returns `None`, changing nothing, when there is none.
    pub fn remove_path(&mut self, value: &FsPath) -> (res: Option<FsPath>)
        requires
            old(self).wf(),
            find(old(self)@, value@) matches Some(i) ==> walk_ok(old(self)@, i),
        ensures
            final(self).wf(),
            find(old(self)@, value@) is None ==> final(self)@ == old(self)@ && res is None,
            find(old(self)@, value@) matches Some(i) ==> (final(self)@, opt_path(res)) == spec_remove(old(self)@, i),
    {
        let value_idx = match self.find_node_idx(value) {
            Some(i) => i,
            None => return None,
        };
        self.remove(value_idx)
    }
}


/// The children of slot `i` (none for an empty slot).
pub open spec fn children_of(t: TreeView, i: int) -> Seq<int> {
    if live(t, i) && node(t, i).children is Some {
        node(t, i).children->0
    } else {
        Seq::empty()
    }
}

/// A depth-first walk with an explicit stack: the top of the stack is
/// visited, then replaced by its children (the last child on top).
/// `fuel` bounds the number of visits.
pub open spec fn dfs_run(t: TreeView, stack: Seq<int>, fuel: nat) -> Seq<int>
    decreases fuel,
{
    if fuel == 0 || stack.len() == 0 {
        Seq::empty()
    } else {
        let n = stack.last();
        seq![n] + dfs_run(t, stack.drop_last() + children_of(t, n), (fuel - 1) as nat)
    }
}

/// The order in which the walk from the root visits the slots.
pub open spec fn dfs_order(t: TreeView) -> Seq<int> {
    if t.nodes.len() == 0 {
        Seq::empty()
    } else {
        dfs_run(t, seq![0], (t.nodes.len() + 1) as nat)
    }
}

/// The files for the slots in `order`: each slot's group with the path
/// stored at the slot's own index, up to the first index without a path.
pub open spec fn items_of(t: TreeView, order: Seq<int>) -> Seq<(Option<Seq<char>>, PathView)>
    decreases order.len(),
{
    if order.len() == 0 {
        Seq::empty()
    } else {
        match t.dotfiles[order[0]] {
            None => Seq::empty(),
            Some(p) => seq![(node(t, order[0]).group, p)] + items_of(t, order.drop_first()),
        }
    }
}


pub open spec fn file_views(v: Seq<File>) -> Seq<(Option<Seq<char>>, PathView)> {
    v.map_values(|f: File| (opt_text(f.group), f.path@))
}

/// Every entry of `s` other than the root has a node whose parent is in `done`.
pub open spec fn parents_done(t: TreeView, s: Seq<int>, done: Seq<int>) -> bool {
    forall|k: int| 0 <= k < s.len() && s[k] != 0 ==> live(t, #[trigger] s[k]) && done.contains(node(t, s[k]).parent)
}

proof fn lemma_distinct_bound(s: Seq<int>, n: int)
    requires
        0 <= n,
        s.no_duplicates(),
        forall|k: int| 0 <= k < s.len() ==> 0 <= #[trigger] s[k] < n,
    ensures
        s.len() <= n,
{
    let st = s.to_set();
    s.unique_seq_to_set();
    let r = vstd::set_lib::set_int_range(0, n);
    assert(st.subset_of(r));
    vstd::set_lib::lemma_int_range(0, n);
    vstd::set_lib::lemma_len_subset(st, r);
}

/// The children of slot `n` are distinct later slots whose parent is `n`.
pub open spec fn children_ok(t: TreeView, n: int) -> bool {
    let cs = children_of(t, n);
    &&& (live(t, n) && node(t, n).children is Some ==> cs.len() > 0)
    &&& cs.no_duplicates()
    &&& forall|k: int| 0 <= k < cs.len() ==> live(t, #[trigger] cs[k]) && node(t, cs[k]).parent == n && n < cs[k] && cs[k] < t.nodes.len()
}

proof fn lemma_wf_children(t: TreeView)
    requires
        tree_wf(t),
    ensures
        forall|n: int| #[trigger] children_ok(t, n),
{
    assert forall|n: int| #[trigger] children_ok(t, n) by {
        if live(t, n) && node(t, n).children is Some {
            let cs = node(t, n).children->0;
            assert forall|k: int| 0 <= k < cs.len() implies live(t, #[trigger] cs[k]) && node(t, cs[k]).parent == n && n < cs[k] && cs[k] < t.nodes.len() by {
                assert(live(t, cs[k]));
            }
        } else {
            assert(children_of(t, n) =~= Seq::<int>::empty());
        }
    }
}

/// The state of the walk: what was visited (`done`), what is on the stack.
pub open spec fn dfs_state_ok(t: TreeView, st: Seq<int>, done: Seq<int>) -> bool {
    &&& t.nodes.len() > 0
    &&& done.len() <= t.nodes.len()
    &&& dfs_order(t) == done + dfs_run(t, st, (t.nodes.len() + 1 - done.len()) as nat)
    &&& done.no_duplicates()
    &&& st.no_duplicates()
    &&& forall|k: int| 0 <= k < done.len() ==> 0 <= #[trigger] done[k] < t.nodes.len()
    &&& forall|k: int| 0 <= k < st.len() ==> 0 <= #[trigger] st[k] < t.nodes.len()
    &&& forall|k: int| 0 <= k < st.len() ==> !done.contains(#[trigger] st[k])
    &&& parents_done(t, st, done)
    &&& parents_done(t, done, done)
}

/// One step of the walk keeps its state consistent, and the visit it
/// makes is the next slot in the order.
proof fn lemma_dfs_step(t: TreeView, st: Seq<int>, done: Seq<int>)
    requires
        dfs_state_ok(t, st, done),
        children_ok(t, st.last()),
        st.len() > 0,
    ensures
        ({
            let n = st.last();
            let done2 = done.push(n);
            let st2 = st.drop_last() + children_of(t, n);
            let fuel = (t.nodes.len() + 1 - done.len()) as nat;
            &&& fuel > 0
            &&& dfs_run(t, st, fuel) == seq![n] + dfs_run(t, st2, (fuel - 1) as nat)
            &&& (t.nodes.len() + 1 - done2.len()) as nat == (fuel - 1) as nat
            &&& dfs_state_ok(t, st2, done2)
            &&& (n != 0 ==> live(t, n))
            &&& 0 <= n < t.nodes.len()
            &&& ((forall|k: int| 0 <= k < st.len() - 1 ==> st[k] != 0) ==> (forall|k: int|
                0 <= k < st2.len() ==> #[trigger] st2[k] != 0))
        }),
{
    let n = st.last();
    let done2 = done.push(n);
    let cs = children_of(t, n);
    let st2 = st.drop_last() + cs;
    let fuel = (t.nodes.len() + 1 - done.len()) as nat;
    assert(st[st.len() - 1] == n);
    assert(!done.contains(n));
    assert forall|a: int, b: int| 0 <= a < done2.len() && 0 <= b < done2.len() && a != b implies done2[a] != done2[b] by {
        if a < done.len() && b < done.len() {
        } else if a < done.len() {
            assert(done.contains(done2[a]));
        } else if b < done.len() {
            assert(done.contains(done2[b]));
        }
    }
    lemma_distinct_bound(done2, t.nodes.len() as int);
    assert(fuel > 0);
    assert(dfs_order(t) =~= done2 + dfs_run(t, st2, (fuel - 1) as nat)) by {
        assert(dfs_run(t, st, fuel) == seq![n] + dfs_run(t, st2, (fuel - 1) as nat));
    }
    let b = st.len() - 1;
    assert forall|k: int| 0 <= k < st2.len() implies !done2.contains(#[trigger] st2[k]) && 0 <= st2[k] < t.nodes.len() by {
        if k < b {
            assert(st2[k] == st[k]);
            if st[k] == n {
                assert(false);
            }
        } else {
            let c = cs[k - b];
            assert(st2[k] == c);
            if done.contains(c) {
                let m = choose|m: int| 0 <= m < done.len() && done[m] == c;
                assert(c != 0);
                assert(done.contains(node(t, c).parent));
            }
        }
    }
    assert forall|x: int, y: int| 0 <= x < st2.len() && 0 <= y < st2.len() && x != y implies st2[x] != st2[y] by {
        if x < b && y < b {
            assert(st2[x] == st[x] && st2[y] == st[y]);
        } else if x >= b && y >= b {
            assert(st2[x] == cs[x - b] && st2[y] == cs[y - b]);
        } else if x < b {
            let c = st2[y];
            assert(st2[x] == st[x]);
            if st[x] == c {
                assert(c != 0);
                assert(done.contains(node(t, c).parent));
            }
        } else {
            let c = st2[x];
            assert(st2[y] == st[y]);
            if st[y] == c {
                assert(c != 0);
                assert(done.contains(node(t, c).parent));
            }
        }
    }
    if forall|k: int| 0 <= k < st.len() - 1 ==> st[k] != 0 {
        assert forall|k: int| 0 <= k < st2.len() implies #[trigger] st2[k] != 0 by {
            if k < b {
                assert(st2[k] == st[k]);
            } else {
                assert(st2[k] == cs[k - b]);
            }
        }
    }
    assert forall|k: int| 0 <= k < st2.len() && st2[k] != 0 implies live(t, #[trigger] st2[k]) && done2.contains(node(t, st2[k]).parent) by {
        if k < b {
            assert(st2[k] == st[k]);
            let m = choose|m: int| 0 <= m < done.len() && done[m] == node(t, st[k]).parent;
            assert(done2[m] == node(t, st[k]).parent);
        } else {
            assert(done2[done.len() as int] == n);
        }
    }
    assert forall|k: int| 0 <= k < done2.len() && done2[k] != 0 implies live(t, #[trigger] done2[k]) && done2.contains(node(t, done2[k]).parent) by {
        if k < done.len() {
            assert(done2[k] == done[k]);
            let m = choose|m: int| 0 <= m < done.len() && done[m] == node(t, done[k]).parent;
            assert(done2[m] == done[m]);
        } else {
            assert(done2[k] == st[b]);
            let m = choose|m: int| 0 <= m < done.len() && done[m] == node(t, st[b]).parent;
            assert(done2[m] == done[m]);
        }
    }
}

/// What iterating the tree gives: the walk without the root.
pub open spec fn spec_iter(t: TreeView) -> Seq<(Option<Seq<char>>, PathView)> {
    if dfs_order(t).len() == 0 {
        Seq::empty()
    } else {
        items_of(t, dfs_order(t).drop_first())
    }
}

impl FileTree {
    /// The slots in the order of a depth-first walk from the root.
    #[verifier::rlimit(50)]
    fn dfs_indices(&self) -> (res: Vec<usize>)
        requires
            self.wf(),
        ensures
            idx_seq(res@) == dfs_order(self@),
            forall|k: int| 0 <= k < res@.len() ==> (#[trigger] res@[k]) < self@.nodes.len(),
            forall|k: int| 0 <= k < res@.len() && res@[k] != 0 ==> live(self@, #[trigger] res@[k] as int),
            res@.len() > 0 ==> res@[0] == 0,
            idx_seq(res@).no_duplicates(),
    {
        proof {
            self.lemma_view_facts();
        }
        let ghost t = self@;
        let mut out: Vec<usize> = Vec::new();
        if self.nodes.len() == 0 {
            proof {
                assert(idx_seq(out@) =~= Seq::<int>::empty());
            }
            return out;
        }
        let mut stack: Vec<usize> = Vec::new();
        stack.push(0);
        let ghost mut done: Seq<int> = Seq::empty();
        proof {
            assert(idx_seq(stack@) =~= seq![0int]);
            assert(dfs_order(t) =~= done + dfs_run(t, idx_seq(stack@), (t.nodes.len() + 1 - done.len()) as nat));
            lemma_wf_children(t);
        }
        while stack.len() > 0
            invariant
                t == self@,
                forall|m: int| #[trigger] children_ok(t, m),
                self@.nodes.len() == self.nodes@.len(),
                forall|i: int| 0 <= i < self.nodes@.len() ==> #[trigger] self@.nodes[i] == opt_node_view(self.nodes@[i]),
                dfs_state_ok(t, idx_seq(stack@), done),
                idx_seq(out@) == done,
                done.len() == 0 ==> idx_seq(stack@) == seq![0int],
                done.len() > 0 ==> done[0] == 0,
                done.len() > 0 ==> forall|k: int| 0 <= k < stack@.len() ==> #[trigger] stack@[k] != 0,
            decreases t.nodes.len() + 1 - done.len(),
        {
            let ghost st = idx_seq(stack@);
            proof {
                assert(children_ok(t, st.last()));
                lemma_dfs_step(t, st, done);
                if done.len() > 0 {
                    assert forall|k: int| 0 <= k < st.len() implies st[k] != 0 by {
                        assert(st[k] == stack@[k] as int);
                    }
                }
            }
            let n = stack.pop().unwrap();
            proof {
                assert(st.last() == n as int);
                assert(st.drop_last() =~= idx_seq(stack@));
            }
            let ghost before_push = idx_seq(stack@);
            if let Some(node) = &self.nodes[n] {
                if let Some(children) = &node.children {
                    let mut k: usize = 0;
                    while k < children.len()
                        invariant
                            k <= children.len(),
                            idx_seq(stack@) == before_push + idx_seq(children@).take(k as int),
                        decreases children.len() - k,
                    {
                        let ghost prev = stack@;
                        stack.push(children[k]);
                        proof {
                            assert(idx_seq(stack@) =~= idx_seq(prev).push(children@[k as int] as int));
                            assert(idx_seq(children@).take(k + 1) =~= idx_seq(children@).take(k as int).push(children@[k as int] as int));
                            assert(idx_seq(stack@) =~= before_push + idx_seq(children@).take(k + 1));
                        }
                        k = k + 1;
                    }
                    proof {
                        assert(idx_seq(children@).take(children.len() as int) =~= idx_seq(children@));
                        assert(children_of(t, n as int) == idx_seq(children@));
                    }
                } else {
                    proof {
                        assert(children_of(t, n as int) =~= Seq::<int>::empty());
                        assert(idx_seq(stack@) =~= before_push + Seq::<int>::empty());
                    }
                }
            } else {
                proof {
                    assert(children_of(t, n as int) =~= Seq::<int>::empty());
                    assert(idx_seq(stack@) =~= before_push + Seq::<int>::empty());
                }
            }
            out.push(n);
            proof {
                assert(idx_seq(stack@) == st.drop_last() + children_of(t, n as int));
                if done.len() == 0 {
                    assert(st.len() == 1);
                }
                assert(idx_seq(out@) =~= done.push(n as int));
                done = done.push(n as int);
                assert forall|k: int| 0 <= k < stack@.len() implies #[trigger] stack@[k] != 0 by {
                    assert(idx_seq(stack@)[k] == stack@[k] as int);
                }
            }
        }
        proof {
            assert(dfs_run(t, idx_seq(stack@), (t.nodes.len() + 1 - done.len()) as nat) =~= Seq::<int>::empty());
            assert(dfs_order(t) =~= done);
            assert forall|k: int| 0 <= k < out@.len() implies (#[trigger] out@[k]) < self@.nodes.len() by {
                assert(idx_seq(out@)[k] == out@[k] as int);
            }
            assert forall|k: int| 0 <= k < out@.len() && out@[k] != 0 implies live(self@, #[trigger] out@[k] as int) by {
                assert(idx_seq(out@)[k] == out@[k] as int);
            }
            if out@.len() > 0 {
                assert(idx_seq(out@)[0] == 0);
            }
        }
        out
    }

    /// The files of the tree, in the order of a depth-first walk from the
    /// root (the root itself left out), each with the group of its node;
    /// the walk stops at the first node whose index has no stored path.
    pub fn iter(&self) -> (res: FileTreeIterator)
        requires
            self.wf(),
        ensures
            res@ == spec_iter(self@),
    {
        let items = self.files();
        let res = FileTreeIterator { items, pos: 0 };
        assert(file_views(res.items@).skip(0) =~= file_views(res.items@));
        res
    }

    /// The files of the tree in the order `iter` hands them out.
    fn files(&self) -> (res: Vec<File>)
        requires
            self.wf(),
        ensures
            file_views(res@) == spec_iter(self@),
    {
        proof {
            self.lemma_view_facts();
        }
        let ghost t = self@;
        let order = self.dfs_indices();
        let mut out: Vec<File> = Vec::new();
        if order.len() == 0 {
            proof {
                assert(file_views(out@) =~= Seq::<(Option<Seq<char>>, PathView)>::empty());
            }
            return out;
        }
        let ghost rest_order = idx_seq(order@).drop_first();
        proof {
            assert(rest_order.skip(0) =~= rest_order);
            assert(file_views(out@) =~= Seq::<(Option<Seq<char>>, PathView)>::empty());
            assert(file_views(out@) + items_of(t, rest_order) =~= items_of(t, rest_order));
        }
        let mut i: usize = 1;
        while i < order.len()
            invariant
                t == self@,
                tree_wf(t),
                1 <= i <= order.len(),
                idx_seq(order@) == dfs_order(t),
                rest_order == idx_seq(order@).drop_first(),
                forall|k: int| 0 <= k < order@.len() ==> (#[trigger] order@[k]) < t.nodes.len(),
                forall|k: int| 0 <= k < order@.len() && order@[k] != 0 ==> live(t, #[trigger] order@[k] as int),
                order@[0] == 0,
                idx_seq(order@).no_duplicates(),
                self@.nodes.len() == self.nodes@.len(),
                self@.dotfiles.len() == self.dotfiles@.len(),
                forall|k: int| 0 <= k < self.nodes@.len() ==> #[trigger] self@.nodes[k] == opt_node_view(self.nodes@[k]),
                forall|k: int| 0 <= k < self.dotfiles@.len() ==> #[trigger] self@.dotfiles[k] == opt_path(self.dotfiles@[k]),
                spec_iter(t) == file_views(out@) + items_of(t, rest_order.skip(i - 1)),
            decreases order.len() - i,
        {
            let n = order[i];
            proof {
                assert(rest_order.skip(i - 1)[0] == n as int);
                assert(rest_order.skip(i - 1).drop_first() =~= rest_order.skip(i as int));
                assert(n != 0) by {
                    assert(idx_seq(order@)[i as int] == n as int);
                    assert(idx_seq(order@)[0] == 0);
                }
                assert(live(t, n as int));
            }
            match &self.dotfiles[n] {
                None => {
                    proof {
                        assert(items_of(t, rest_order.skip(i - 1)) =~= Seq::<(Option<Seq<char>>, PathView)>::empty());
                        assert(file_views(out@) + Seq::<(Option<Seq<char>>, PathView)>::empty() =~= file_views(out@));
                    }
                    return out;
                },
                Some(p) => {
                    let ghost before_out = file_views(out@);
                    let nd = self.nodes[n].as_ref().unwrap();
                    out.push(File { group: copy_opt_string(&nd.group), path: p.duplicate() });
                    proof {
                        assert(file_views(out@) =~= before_out.push((node(t, n as int).group, p@)));
                        assert(items_of(t, rest_order.skip(i - 1)) =~= seq![(node(t, n as int).group, p@)] + items_of(t, rest_order.skip(i as int)));
                        assert(before_out + items_of(t, rest_order.skip(i - 1)) =~= file_views(out@) + items_of(t, rest_order.skip(i as int)));
                    }
                },
            }
            i = i + 1;
        }
        proof {
            assert(rest_order.skip(i - 1) =~= Seq::<int>::empty());
            assert(file_views(out@) + Seq::<(Option<Seq<char>>, PathView)>::empty() =~= file_views(out@));
        }
        out
    }
}


/// The paths of the nodes with group `g` that the walk from the root visits.
pub open spec fn spec_group_paths(t: TreeView, g: Seq<char>) -> Set<PathView> {
    Set::new(
        |v: PathView|
            exists|i: int|
                dfs_order(t).contains(i) && node(t, i).group == Some(g) && #[trigger] path_of(t, i) == v,
    )
}

pub open spec fn paths_set(v: Seq<FsPath>) -> Set<PathView> {
    Set::new(|p: PathView| exists|k: int| 0 <= k < v.len() && #[trigger] v[k]@ == p)
}

impl FileTree {
    /// The paths of the nodes of group `group`, among those the walk from
    /// the root visits. The root slot must hold a node.
    pub fn get(&self, group: &str) -> (res: Option<Vec<FsPath>>)
        requires
            self.wf(),
            self@.nodes.len() == 0 || live(self@, 0),
        ensures
            res matches Some(v) && paths_set(v@) == spec_group_paths(self@, group@),
    {
        proof {
            self.lemma_view_facts();
        }
        let ghost t = self@;
        let order = self.dfs_indices();
        let target = String::from_str(group);
        let mut group_paths: Vec<FsPath> = Vec::new();
        let mut i: usize = 0;
        while i < order.len()
            invariant
                t == self@,
                tree_wf(t),
                i <= order.len(),
                target@ == group@,
                idx_seq(order@) == dfs_order(t),
                forall|k: int| 0 <= k < order@.len() ==> (#[trigger] order@[k]) < t.nodes.len(),
                forall|k: int| 0 <= k < order@.len() && order@[k] != 0 ==> live(t, #[trigger] order@[k] as int),
                t.nodes.len() == 0 || live(t, 0),
                self@.nodes.len() == self.nodes@.len(),
                forall|k: int| 0 <= k < self.nodes@.len() ==> #[trigger] self@.nodes[k] == opt_node_view(self.nodes@[k]),
                paths_set(group_paths@) == Set::new(
                    |v: PathView|
                        exists|j: int|
                            0 <= j < i && node(t, order@[j] as int).group == Some(group@) && #[trigger] path_of(
                                t,
                                order@[j] as int,
                            ) == v,
                ),
            decreases order.len() - i,
        {
            let n = order[i];
            proof {
                assert(live(t, n as int));
            }
            let nd = self.nodes[n].as_ref().unwrap();
            let ghost before = group_paths@;
            let mut matched = false;
            if let Some(ng) = &nd.group {
                if *ng == target {
                    matched = true;
                }
            }
            if matched {
                group_paths.push(self.node_path(n).duplicate());
            }
            proof {
                let newset = Set::new(
                    |v: PathView|
                        exists|j: int|
                            0 <= j < i + 1 && node(t, order@[j] as int).group == Some(group@) && #[trigger] path_of(
                                t,
                                order@[j] as int,
                            ) == v,
                );
                assert(matched == (node(t, n as int).group == Some(group@)));
                assert forall|v: PathView| paths_set(group_paths@).contains(v) == newset.contains(v) by {
                    if paths_set(group_paths@).contains(v) {
                        let k = choose|k: int| 0 <= k < group_paths@.len() && #[trigger] group_paths@[k]@ == v;
                        if k < before.len() {
                            assert(before[k]@ == v);
                            assert(paths_set(before).contains(v));
                        } else {
                            assert(path_of(t, order@[i as int] as int) == v);
                        }
                    }
                    if newset.contains(v) {
                        let j = choose|j: int|
                            0 <= j < i + 1 && node(t, order@[j] as int).group == Some(group@) && #[trigger] path_of(
                                t,
                                order@[j] as int,
                            ) == v;
                        if j < i {
                            assert(path_of(t, order@[j] as int) == v);
                            assert(paths_set(before).contains(v));
                            let k = choose|k: int| 0 <= k < before.len() && #[trigger] before[k]@ == v;
                            assert(group_paths@[k]@ == v);
                        } else {
                            assert(group_paths@[group_paths@.len() - 1]@ == v);
                        }
                    }
                }
                assert(paths_set(group_paths@) =~= newset);
            }
            i = i + 1;
        }
        proof {
            assert forall|v: PathView| paths_set(group_paths@).contains(v) == spec_group_paths(t, group@).contains(v) by {
                if spec_group_paths(t, group@).contains(v) {
                    let w = choose|w: int| dfs_order(t).contains(w) && node(t, w).group == Some(group@) && #[trigger] path_of(t, w) == v;
                    let j = choose|j: int| 0 <= j < dfs_order(t).len() && dfs_order(t)[j] == w;
                    assert(idx_seq(order@)[j] == order@[j] as int);
                    assert(path_of(t, order@[j] as int) == v);
                }
                if paths_set(group_paths@).contains(v) {
                    let j = choose|j: int|
                        0 <= j < order@.len() && node(t, order@[j] as int).group == Some(group@) && #[trigger] path_of(
                            t,
                            order@[j] as int,
                        ) == v;
                    assert(idx_seq(order@)[j] == order@[j] as int);
                    assert(dfs_order(t).contains(order@[j] as int));
                }
            }
            assert(paths_set(group_paths@) =~= spec_group_paths(t, group@));
        }
        Some(group_paths)
    }

    /// Looks, for every node the walk from the root visits, at whether its
    /// children belong to different groups; the tree is left as it is. The
    /// root slot must hold a node.
    pub fn canonicalize(&mut self)
        requires
            old(self).wf(),
            old(self)@.nodes.len() == 0 || live(old(self)@, 0),
        ensures
            final(self).wf(),
            final(self)@ == old(self)@,
    {
        proof {
            self.lemma_view_facts();
            lemma_wf_children(self@);
        }
        let ghost t = self@;
        let order = self.dfs_indices();
        let mut i: usize = 0;
        while i < order.len()
            invariant
                t == self@,
                i <= order.len(),
                forall|m: int| #[trigger] children_ok(t, m),
                forall|k: int| 0 <= k < order@.len() ==> (#[trigger] order@[k]) < t.nodes.len(),
                forall|k: int| 0 <= k < order@.len() && order@[k] != 0 ==> live(t, #[trigger] order@[k] as int),
                t.nodes.len() == 0 || live(t, 0),
                self@.nodes.len() == self.nodes@.len(),
                forall|k: int| 0 <= k < self.nodes@.len() ==> #[trigger] self@.nodes[k] == opt_node_view(self.nodes@[k]),
            decreases order.len() - i,
        {
            let n = order[i];
            proof {
                assert(live(t, n as int));
                assert(children_ok(t, n as int));
            }
            let nd = self.nodes[n].as_ref().unwrap();
            if let Some(children) = &nd.children {
                proof {
                    assert(children_of(t, n as int) == idx_seq(children@));
                    assert(idx_seq(children@)[0] == children@[0] as int);
                }
                let first_child = self.nodes[children[0]].as_ref().unwrap();
                let mut share_parent = false;
                let mut k: usize = 1;
                while k < children.len()
                    invariant
                        t == self@,
                        1 <= k <= children.len(),
                        children_of(t, n as int) == idx_seq(children@),
                        children_ok(t, n as int),
                        self@.nodes.len() == self.nodes@.len(),
                        forall|m: int| 0 <= m < self.nodes@.len() ==> #[trigger] self@.nodes[m] == opt_node_view(self.nodes@[m]),
                    decreases children.len() - k,
                {
                    proof {
                        assert(idx_seq(children@)[k as int] == children@[k as int] as int);
                        assert(live(t, children_of(t, n as int)[k as int]));
                    }
                    let child = self.nodes[children[k]].as_ref().unwrap();
                    let same = match (&child.group, &first_child.group) {
                        (Some(a), Some(b)) => *a == *b,
                        (None, None) => true,
                        _ => false,
                    };
                    if !same {
                        share_parent = true;
                        break;
                    }
                    k = k + 1;
                }
                let _ = share_parent;
            }
            i = i + 1;
        }
    }
}


proof fn lemma_insert_steps(
    t: TreeView,
    group: Option<Seq<char>>,
    base: PathView,
    comps: Seq<Seq<char>>,
    ret: bool,
)
    requires
        tree_wf(t),
    ensures
        ({
            let r = insert_steps(t, group, base, comps, ret);
            let full = PathView { absolute: base.absolute, parts: base.parts + comps };
            &&& tree_wf(r.0)
            &&& forall|v: PathView| has_path(t, v) ==> #[trigger] has_path(r.0, v)
            &&& comps.len() > 0 && r.1 ==> has_path(r.0, full)
            &&& comps.len() > 0 && has_path(t, full) ==> !r.1
            &&& comps.len() > 0 && r.1 ==> (group matches Some(g) ==> r.0.groups.contains(g))
            &&& comps.len() == 0 ==> r == (t, ret)
        }),
    decreases comps.len(),
{
    if comps.len() > 0 {
        let cur = spec_push(base, comps[0]);
        let g1 = if comps.len() == 1 { group } else { None };
        let step = spec_insert_path(t, g1, cur);
        lemma_insert_path_wf(t, g1, cur);
        lemma_insert_steps(step.0, group, cur, comps.drop_first(), step.1);
        let full = PathView { absolute: base.absolute, parts: base.parts + comps };
        assert(cur.parts + comps.drop_first() =~= base.parts + comps);
        assert forall|v: PathView| has_path(t, v) implies #[trigger] has_path(step.0, v) by {
            let i = choose|i: int| attached(t, i) && path_of(t, i) == v;
            assert(attached(step.0, i));
        }
        if comps.len() == 1 {
            assert(comps.drop_first() =~= Seq::<Seq<char>>::empty());
            assert(cur == full) by {
                assert(base.parts.push(comps[0]) =~= base.parts + comps);
            }
            if has_path(t, full) {
                assert(!step.1);
            }
        } else {
            if has_path(t, full) {
                assert(has_path(step.0, full));
            }
        }
    }
}

/// The group of the reachable node with the path `v` (`None` when there is
/// no such node or it has no group).
pub open spec fn group_of(t: TreeView, v: PathView) -> Option<Seq<char>> {
    match find(t, v) {
        Some(i) => node(t, i).group,
        None => None,
    }
}

/// Inserting one path below a reachable parent adds it exactly when it is
/// new; it adds no other path and changes no group of a path already there.
proof fn lemma_insert_path_effect(t: TreeView, group: Option<Seq<char>>, v: PathView)
    requires
        tree_wf(t),
        t.nodes.len() > 0,
        has_path(t, spec_parent(v)),
    ensures
        spec_insert_path(t, group, v).1 == !has_path(t, v),
        forall|w: PathView| #[trigger] has_path(spec_insert_path(t, group, v).0, w) ==> has_path(t, w) || w == v,
        forall|w: PathView|
            has_path(t, w) ==> #[trigger] has_path(spec_insert_path(t, group, v).0, w) && group_of(
                spec_insert_path(t, group, v).0,
                w,
            ) == group_of(t, w),
        spec_insert_path(t, group, v).1 ==> group_of(spec_insert_path(t, group, v).0, v) == group,
        spec_insert_path(t, group, v).0.nodes.len() >= t.nodes.len(),
{
    lemma_insert_path_wf(t, group, v);
    let r = spec_insert_path(t, group, v);
    let t2 = r.0;
    if has_path(t, v) {
        return;
    }
    let n = t.nodes.len() as int;
    let p = find(t, spec_parent(v))->0;
    assert(attached(t, p) && path_of(t, p) == spec_parent(v));
    assert forall|k: int| 0 <= k < n implies #[trigger] live(t2, k) == live(t, k) by {}
    assert forall|j: int| 0 <= j < n implies #[trigger] attached(t2, j) == attached(t, j) by {
        assert forall|k: int| 0 <= k <= j implies #[trigger] live(t2, k) == live(t, k) by {}
        assert forall|k: int| 0 <= k <= j && live(t2, k) implies #[trigger] node(t2, k).parent == node(t, k).parent by {}
        lemma_attached_same(t2, t, j);
    }
    assert forall|j: int| 0 <= j < n && live(t, j) implies #[trigger] node(t2, j).group == node(t, j).group && path_of(t2, j)
        == path_of(t, j) by {
        assert(live(t, j));
    }
    assert(attached(t2, n) && path_of(t2, n) == v);
    assert forall|w: PathView| #[trigger] has_path(t2, w) implies has_path(t, w) || w == v by {
        let i = choose|i: int| attached(t2, i) && path_of(t2, i) == w;
        if i != n {
            assert(live(t2, i));
            assert(0 <= i < n);
            assert(attached(t, i));
        }
    }
    assert forall|w: PathView| has_path(t, w) implies #[trigger] has_path(t2, w) && group_of(t2, w) == group_of(t, w) by {
        let j = find(t, w)->0;
        assert(attached(t, j) && path_of(t, j) == w);
        assert(attached(t2, j) && path_of(t2, j) == w);
        let i = find(t2, w)->0;
        assert(attached(t2, i) && path_of(t2, i) == w);
        assert(i == j);
    }
    let i = find(t2, v)->0;
    assert(attached(t2, i) && path_of(t2, i) == v);
    assert(i == n);
}

/// Inserting the components `comps` one after the other below the
/// reachable path `base`: the whole path is added exactly when it is new,
/// every prefix is then in the tree, the paths already there stay with
/// their groups, and a whole path that was added has `group`.
proof fn lemma_insert_steps_effect(
    t: TreeView,
    group: Option<Seq<char>>,
    base: PathView,
    comps: Seq<Seq<char>>,
    ret: bool,
)
    requires
        tree_wf(t),
        t.nodes.len() > 0,
        has_path(t, base),
    ensures
        ({
            let r = insert_steps(t, group, base, comps, ret);
            let full = PathView { absolute: base.absolute, parts: base.parts + comps };
            &&& tree_wf(r.0)
            &&& r.0.nodes.len() >= t.nodes.len()
            &&& comps.len() > 0 ==> r.1 == !has_path(t, full)
            &&& forall|m: int|
                1 <= m <= comps.len() ==> #[trigger] has_path(
                    r.0,
                    PathView { absolute: base.absolute, parts: base.parts + comps.take(m) },
                )
            &&& forall|w: PathView|
                has_path(t, w) ==> #[trigger] has_path(r.0, w) && group_of(r.0, w) == group_of(t, w)
            &&& comps.len() > 0 && r.1 ==> group_of(r.0, full) == group
        }),
    decreases comps.len(),
{
    let full = PathView { absolute: base.absolute, parts: base.parts + comps };
    if comps.len() == 0 {
        return;
    }
    let cur = spec_push(base, comps[0]);
    assert(spec_parent(cur) == base) by {
        assert(cur.parts.drop_last() =~= base.parts);
    }
    let g1 = if comps.len() == 1 { group } else { None };
    let step = spec_insert_path(t, g1, cur);
    lemma_insert_path_wf(t, g1, cur);
    lemma_insert_path_effect(t, g1, cur);
    assert(has_path(step.0, cur)) by {
        if has_path(t, cur) {
            assert(has_path(step.0, cur));
        }
    }
    let rest = comps.drop_first();
    lemma_insert_steps_effect(step.0, group, cur, rest, step.1);
    let r = insert_steps(t, group, base, comps, ret);
    assert(r == insert_steps(step.0, group, cur, rest, step.1));
    assert(cur.parts + rest =~= base.parts + comps);
    if comps.len() == 1 {
        assert(rest.len() == 0);
        assert(cur == full);
    } else {
        assert(full != cur) by {
            assert(full.parts.len() != cur.parts.len());
        }
        if has_path(t, full) {
            assert(has_path(step.0, full));
        }
        if has_path(step.0, full) {
            assert(has_path(t, full));
        }
    }
    assert forall|m: int|
        1 <= m <= comps.len() implies #[trigger] has_path(
        r.0,
        PathView { absolute: base.absolute, parts: base.parts + comps.take(m) },
    ) by {
        if m == 1 {
            assert(base.parts + comps.take(1) =~= cur.parts);
            if rest.len() > 0 {
                assert(has_path(r.0, cur));
            }
        } else {
            assert(cur.parts + rest.take(m - 1) =~= base.parts + comps.take(m));
            assert(has_path(
                r.0,
                PathView { absolute: cur.absolute, parts: cur.parts + rest.take(m - 1) },
            ));
        }
    }
    assert forall|w: PathView| has_path(t, w) implies #[trigger] has_path(r.0, w) && group_of(r.0, w) == group_of(t, w) by {
        assert(has_path(step.0, w));
    }
}

/// Inserting into a tree whose root node holds the root path `R`: the
/// insertion reports success exactly when `value` lies below `R`, is not
/// `R` itself and is not already in the tree; afterwards `value` and every
/// path between `R` and it are in the tree, a `value` that was added has
/// `group`, and every path that was in the tree stays there with its group.
/// A `value` outside `R` leaves the tree as it was.
pub proof fn lemma_insert_law(t: TreeView, group: Option<Seq<char>>, v: PathView)
    requires
        tree_wf(t),
        t.dotfiles.len() > 0,
        live(t, 0),
        node(t, 0).dotfile_idx == 0,
        forall|k: int| 0 <= k < v.parts.len() ==> v.parts[k] != dot_dot(),
    ensures
        ({
            let root = t.dotfiles[0]->0;
            let r = spec_insert(t, group, v);
            &&& r.1 == (spec_starts_with(v, root) && v != root && !has_path(t, v))
            &&& spec_starts_with(v, root) ==> forall|n: int|
                root.parts.len() < n <= v.parts.len() ==> #[trigger] has_path(
                    r.0,
                    PathView { absolute: v.absolute, parts: v.parts.take(n) },
                )
            &&& r.1 ==> group_of(r.0, v) == group
            &&& forall|w: PathView| has_path(t, w) ==> #[trigger] has_path(r.0, w) && group_of(r.0, w) == group_of(t, w)
            &&& !spec_starts_with(v, root) ==> r.0 == t
        }),
{
    let root = t.dotfiles[0]->0;
    assert(attached(t, 0));
    assert(path_of(t, 0) == root);
    assert(has_path(t, root));
    if spec_starts_with(v, root) {
        let rel = spec_strip_prefix(v, root)->0;
        let k = root.parts.len() as int;
        assert(root.parts + rel.parts =~= v.parts) by {
            assert(v.parts.subrange(0, k) == root.parts);
        }
        if v.parts.len() == k {
            assert(v.parts =~= root.parts);
            assert(v == root);
            assert(rel.parts.len() == 0);
        } else {
            assert(v != root);
            assert(spec_file_name(v) is Some) by {
                assert(v.parts.last() != dot_dot());
            }
        }
        lemma_insert_steps_effect(t, group, root, rel.parts, false);
        assert(PathView { absolute: root.absolute, parts: root.parts + rel.parts } == v);
        assert forall|n: int|
            k < n <= v.parts.len() implies #[trigger] has_path(
            spec_insert(t, group, v).0,
            PathView { absolute: v.absolute, parts: v.parts.take(n) },
        ) by {
            assert(root.parts + rel.parts.take(n - k) =~= v.parts.take(n));
            assert(has_path(
                spec_insert(t, group, v).0,
                PathView { absolute: root.absolute, parts: root.parts + rel.parts.take(n - k) },
            ));
        }
        if v == root {
            assert(has_path(t, v));
        }
    }
}

/// The shape of a tree made by `new`, `insert` and the removals of
/// `lemma_remove_keeps_shape`: the root slot holds a node without a group;
/// every node is reachable from the root and its path is at the slot's own
/// index; every group of the tree is the group of a node.
pub open spec fn built_shape(t: TreeView) -> bool {
    &&& tree_wf(t)
    &&& t.nodes.len() > 0
    &&& t.nodes.len() == t.dotfiles.len()
    &&& live(t, 0)
    &&& node(t, 0).group is None
    &&& forall|i: int| #[trigger] live(t, i) ==> attached(t, i) && node(t, i).dotfile_idx == i
    &&& forall|g: Seq<char>|
        #[trigger] t.groups.contains(g) ==> exists|i: int| live(t, i) && node(t, i).group == Some(g)
}

/// A new tree (see `FileTree::new`) has that shape.
pub proof fn lemma_new_is_built_shape(root: PathView)
    ensures
        built_shape(
            TreeView {
                dotfiles: seq![Some(root)],
                nodes: seq![Some(NodeView { group: None, parent: 0, dotfile_idx: 0, children: None })],
                groups: Set::empty(),
            },
        ),
{
    let t = TreeView {
        dotfiles: seq![Some(root)],
        nodes: seq![Some(NodeView { group: None, parent: 0, dotfile_idx: 0, children: None })],
        groups: Set::empty(),
    };
    assert(attached(t, 0));
    assert forall|i: int| #[trigger] live(t, i) implies i == 0 by {}
    assert forall|i: int, j: int| #[trigger] attached(t, i) && #[trigger] attached(t, j) && path_of(t, i) == path_of(t, j)
        implies i == j by {
        assert(live(t, i) && live(t, j));
    }
}

proof fn lemma_insert_path_keeps_built(t: TreeView, group: Option<Seq<char>>, v: PathView)
    requires
        built_shape(t),
        has_path(t, spec_parent(v)),
    ensures
        built_shape(spec_insert_path(t, group, v).0),
{
    lemma_insert_path_wf(t, group, v);
    let t2 = spec_insert_path(t, group, v).0;
    if has_path(t, v) {
        return;
    }
    let n = t.nodes.len() as int;
    let p = find(t, spec_parent(v))->0;
    assert(attached(t, p) && path_of(t, p) == spec_parent(v));
    assert(0 <= p < n) by {
        assert(live(t, p));
    }
    assert forall|i: int| #[trigger] live(t2, i) implies attached(t2, i) && node(t2, i).dotfile_idx == i by {
        if i < n {
            assert(live(t, i));
            assert(attached(t, i));
        } else {
            assert(i == n);
            assert(attached(t, p));
            assert(attached(t2, p));
            assert(live(t2, n) && node(t2, n).parent == p);
        }
    }
    assert(live(t2, 0));
    assert forall|g: Seq<char>| #[trigger] t2.groups.contains(g) implies exists|i: int|
        live(t2, i) && node(t2, i).group == Some(g) by {
        if t.groups.contains(g) {
            let i = choose|i: int| live(t, i) && node(t, i).group == Some(g);
            assert(live(t2, i) && node(t2, i).group == Some(g));
        } else {
            assert(live(t2, n) && node(t2, n).group == Some(g));
        }
    }
}

proof fn lemma_insert_steps_keep_built(
    t: TreeView,
    group: Option<Seq<char>>,
    base: PathView,
    comps: Seq<Seq<char>>,
    ret: bool,
)
    requires
        built_shape(t),
        has_path(t, base),
    ensures
        built_shape(insert_steps(t, group, base, comps, ret).0),
    decreases comps.len(),
{
    if comps.len() > 0 {
        let cur = spec_push(base, comps[0]);
        assert(spec_parent(cur) == base) by {
            assert(cur.parts.drop_last() =~= base.parts);
        }
        let g1 = if comps.len() == 1 { group } else { None };
        let step = spec_insert_path(t, g1, cur);
        lemma_insert_path_wf(t, g1, cur);
        lemma_insert_path_effect(t, g1, cur);
        lemma_insert_path_keeps_built(t, g1, cur);
        assert(has_path(step.0, cur)) by {
            if has_path(t, cur) {
                assert(has_path(step.0, cur));
            }
        }
        lemma_insert_steps_keep_built(step.0, group, cur, comps.drop_first(), step.1);
    }
}

/// Inserting into a tree made by `new` and `insert` keeps that shape.
pub proof fn lemma_insert_keeps_shape(t: TreeView, group: Option<Seq<char>>, v: PathView)
    requires
        built_shape(t),
    ensures
        built_shape(spec_insert(t, group, v).0),
{
    let root = t.dotfiles[0]->0;
    assert(attached(t, 0));
    assert(has_path(t, root));
    if let Some(rel) = spec_strip_prefix(v, root) {
        if let Some(_) = spec_file_name(v) {
            lemma_insert_steps_keep_built(t, group, root, rel.parts, false);
        }
    }
}

/// `a` is `i` or one of its ancestors.
pub open spec fn ancestor(t: TreeView, a: int, i: int) -> bool
    decreases i,
{
    if i == a {
        true
    } else if i <= 0 || !live(t, i) {
        false
    } else {
        let p = node(t, i).parent;
        0 <= p < i && ancestor(t, a, p)
    }
}

/// Slot `i` was visited, or lies below a slot on the stack.
pub open spec fn reached(t: TreeView, st: Seq<int>, done: Seq<int>, i: int) -> bool {
    done.contains(i) || exists|j: int| 0 <= j < st.len() && #[trigger] ancestor(t, st[j], i)
}

proof fn lemma_attached_below_root(t: TreeView, i: int)
    requires
        attached(t, i),
    ensures
        ancestor(t, 0, i),
    decreases i,
{
    if i != 0 {
        lemma_attached_below_root(t, node(t, i).parent);
    }
}

proof fn lemma_below_a_child(t: TreeView, n: int, i: int)
    requires
        tree_wf(t),
        forall|k: int| #[trigger] live(t, k) ==> attached(t, k),
        ancestor(t, n, i),
        i != n,
        0 <= i < t.nodes.len(),
    ensures
        exists|k: int| 0 <= k < children_of(t, n).len() && #[trigger] ancestor(t, children_of(t, n)[k], i),
    decreases i,
{
    assert(live(t, i));
    let p = node(t, i).parent;
    assert(i != 0);
    assert(attached(t, i));
    assert(attached(t, p));
    if p == n {
        assert(live(t, p));
        let cs = node(t, p).children->0;
        assert(cs.contains(i));
        let k = choose|k: int| 0 <= k < cs.len() && cs[k] == i;
        assert(children_of(t, n) == cs);
        assert(ancestor(t, children_of(t, n)[k], i));
    } else {
        lemma_below_a_child(t, n, p);
        let k = choose|k: int| 0 <= k < children_of(t, n).len() && #[trigger] ancestor(t, children_of(t, n)[k], p);
        let c = children_of(t, n)[k];
        lemma_wf_children(t);
        assert(children_ok(t, n));
        assert(ancestor(t, c, i));
    }
}

proof fn lemma_reached_step(t: TreeView, st: Seq<int>, done: Seq<int>)
    requires
        tree_wf(t),
        forall|k: int| #[trigger] live(t, k) ==> attached(t, k),
        st.len() > 0,
        forall|i: int| #[trigger] live(t, i) ==> reached(t, st, done, i),
    ensures
        forall|i: int| #[trigger] live(t, i) ==> reached(
            t,
            st.drop_last() + children_of(t, st.last()),
            done.push(st.last()),
            i,
        ),
{
    let n = st.last();
    let done2 = done.push(n);
    let cs = children_of(t, n);
    let st2 = st.drop_last() + cs;
    let b = st.len() - 1;
    assert forall|i: int| #[trigger] live(t, i) implies reached(t, st2, done2, i) by {
        assert(reached(t, st, done, i));
        assert(attached(t, i));
        assert(0 <= i < t.nodes.len());
        if done.contains(i) {
            let m = choose|m: int| 0 <= m < done.len() && done[m] == i;
            assert(done2[m] == i);
        } else {
            let j = choose|j: int| 0 <= j < st.len() && #[trigger] ancestor(t, st[j], i);
            if j < b {
                assert(st2[j] == st[j]);
            } else if i == n {
                assert(done2[done.len() as int] == i);
            } else {
                assert(st[j] == n);
                lemma_below_a_child(t, n, i);
                let k = choose|k: int| 0 <= k < cs.len() && #[trigger] ancestor(t, cs[k], i);
                assert(st2[b + k] == cs[k]);
            }
        }
    }
}

proof fn lemma_dfs_complete_from(t: TreeView, st: Seq<int>, done: Seq<int>)
    requires
        tree_wf(t),
        forall|k: int| #[trigger] live(t, k) ==> attached(t, k),
        forall|m: int| #[trigger] children_ok(t, m),
        dfs_state_ok(t, st, done),
        forall|i: int| #[trigger] live(t, i) ==> reached(t, st, done, i),
    ensures
        forall|i: int| #[trigger] live(t, i) ==> dfs_order(t).contains(i),
        dfs_order(t).no_duplicates(),
        forall|k: int| 0 <= k < dfs_order(t).len() ==> 0 <= #[trigger] dfs_order(t)[k] < t.nodes.len(),
        forall|k: int| 0 <= k < dfs_order(t).len() && dfs_order(t)[k] != 0 ==> live(t, #[trigger] dfs_order(t)[k]),
    decreases t.nodes.len() + 1 - done.len(),
{
    let fuel = (t.nodes.len() + 1 - done.len()) as nat;
    if st.len() == 0 {
        assert(dfs_run(t, st, fuel) =~= Seq::<int>::empty());
        assert(dfs_order(t) =~= done);
        assert forall|i: int| #[trigger] live(t, i) implies dfs_order(t).contains(i) by {
            assert(reached(t, st, done, i));
        }
        assert forall|k: int| 0 <= k < dfs_order(t).len() && dfs_order(t)[k] != 0 implies live(t, #[trigger] dfs_order(t)[k]) by {
            assert(done[k] == dfs_order(t)[k]);
        }
    } else {
        lemma_dfs_step(t, st, done);
        let n = st.last();
        let done2 = done.push(n);
        let cs = children_of(t, n);
        let st2 = st.drop_last() + cs;
        lemma_reached_step(t, st, done);
        lemma_dfs_complete_from(t, st2, done2);
    }
}

/// The walk over a tree of that shape visits every node once, the root
/// first, and nothing else.
proof fn lemma_dfs_order_complete(t: TreeView)
    requires
        built_shape(t),
    ensures
        forall|i: int| #[trigger] live(t, i) ==> dfs_order(t).contains(i),
        dfs_order(t).no_duplicates(),
        forall|k: int| 0 <= k < dfs_order(t).len() ==> 0 <= #[trigger] dfs_order(t)[k] < t.nodes.len(),
        forall|k: int| 0 <= k < dfs_order(t).len() ==> live(t, #[trigger] dfs_order(t)[k]),
        dfs_order(t).len() > 0,
        dfs_order(t)[0] == 0,
{
    lemma_wf_children(t);
    let st = seq![0int];
    let done = Seq::<int>::empty();
    assert(dfs_order(t) =~= done + dfs_run(t, st, (t.nodes.len() + 1 - done.len()) as nat));
    assert forall|i: int| #[trigger] live(t, i) implies reached(t, st, done, i) by {
        assert(attached(t, i));
        lemma_attached_below_root(t, i);
        assert(ancestor(t, st[0], i));
    }
    lemma_dfs_complete_from(t, st, done);
    let o = dfs_order(t);
    assert(o.len() > 0 && o[0] == 0) by {
        assert(dfs_run(t, st, (t.nodes.len() + 1) as nat) == seq![0int] + dfs_run(
            t,
            st.drop_last() + children_of(t, 0),
            t.nodes.len() as nat,
        ));
    }
}

proof fn lemma_items_of(t: TreeView, order: Seq<int>)
    requires
        forall|k: int| 0 <= k < order.len() ==> 0 <= #[trigger] order[k] < t.dotfiles.len() && t.dotfiles[order[k]] is Some,
    ensures
        items_of(t, order).len() == order.len(),
        forall|k: int| 0 <= k < order.len() ==> #[trigger] items_of(t, order)[k] == (node(t, order[k]).group, t.dotfiles[order[k]]->0),
    decreases order.len(),
{
    if order.len() > 0 {
        lemma_items_of(t, order.drop_first());
        assert(t.dotfiles[order[0]] is Some);
        assert forall|k: int| 0 <= k < order.len() implies #[trigger] items_of(t, order)[k] == (node(t, order[k]).group, t.dotfiles[order[k]]->0) by {
            if k > 0 {
                assert(order.drop_first()[k - 1] == order[k]);
            }
        }
    }
}

proof fn lemma_walk_target_le(t: TreeView, c: int)
    requires
        tree_wf(t),
    ensures
        walk_target(t, c) matches Some(q) ==> live(t, c) && q <= node(t, c).parent,
    decreases c,
{
    if c >= 0 && live(t, c) {
        let p = node(t, c).parent;
        if live(t, p) && node(t, p).group is None && node(t, p).children is Some && node(t, p).children->0.len()
            != 1 && 0 <= p < c {
            lemma_walk_target_le(t, p);
        }
    }
}

/// The walk from a node stops at its parent exactly when the parent has no
/// group and that node as its only child.
proof fn lemma_walk_target_parent(t: TreeView, c: int)
    requires
        tree_wf(t),
        live(t, c),
        c != 0,
    ensures
        walk_target(t, c) == Some(node(t, c).parent) ==> node(t, node(t, c).parent).children == Some(seq![c])
            && live(t, node(t, c).parent) && node(t, node(t, c).parent).group is None,
{
    let p = node(t, c).parent;
    if walk_target(t, c) == Some(p) {
        if live(t, p) && node(t, p).group is None && node(t, p).children is Some && node(t, p).children->0.len()
            == 1 {
            let cs = node(t, p).children->0;
            assert(cs.contains(c));
            assert(cs =~= seq![c]);
        } else {
            assert(0 <= p < c);
            lemma_walk_target_le(t, p);
            if p != 0 {
                assert(node(t, p).parent < p);
            } else {
                assert(walk_target(t, 0) is None);
            }
        }
    }
}

proof fn lemma_attached_kept(t: TreeView, t2: TreeView, j: int)
    requires
        forall|k: int| #[trigger] live(t2, k) ==> live(t, k) && node(t2, k).parent == node(t, k).parent,
        forall|k: int| #[trigger] live(t2, k) && k != 0 ==> live(t2, node(t2, k).parent),
        live(t2, j),
        attached(t, j),
    ensures
        attached(t2, j),
    decreases j,
{
    if j != 0 {
        let q = node(t, j).parent;
        assert(live(t2, q));
        lemma_attached_kept(t, t2, q);
    }
}

/// Removing (`remove_path`) a path that has nothing below it keeps that
/// shape, unless the walk up from it removes a directory other than its
/// parent (which would leave the paths below that directory unreachable)
/// or removes the root.
pub proof fn lemma_remove_keeps_shape(t: TreeView, i: int)
    requires
        built_shape(t),
        live(t, i),
        i != 0,
        node(t, i).children is None,
        walk_target(t, i) is None || (walk_target(t, i) == Some(node(t, i).parent) && node(t, i).parent != 0),
    ensures
        built_shape(spec_remove(t, i).0),
{
    let p = node(t, i).parent;
    let case_b = walk_target(t, i) is Some;
    lemma_walk_target_parent(t, i);
    assert(attached(t, i));
    assert(0 <= i < t.nodes.len());
    let t1 = match walk_target(t, i) {
        Some(q) => spec_remove_idx(t, q).0,
        None => t,
    };
    let t2 = spec_remove(t, i).0;
    assert(t2 == spec_remove_idx(t1, i).0);
    if case_b {
        lemma_remove_idx_wf(t, p);
        assert(t1.groups == t.groups);
        assert(live(t1, i));
    }
    lemma_remove_idx_wf(t1, i);
    let gone = |k: int| k == i || (case_b && k == p);
    assert forall|k: int| #[trigger] live(t2, k) implies live(t, k) && !gone(k) && node(t2, k).parent == node(t, k).parent
        && node(t2, k).group == node(t, k).group && node(t2, k).dotfile_idx == node(t, k).dotfile_idx by {
        assert(live(t1, k));
        assert(live(t, k));
    }
    assert forall|k: int| live(t, k) && !gone(k) implies #[trigger] live(t2, k) by {
        assert(live(t1, k));
    }
    assert forall|k: int| #[trigger] live(t2, k) && k != 0 implies live(t2, node(t2, k).parent) by {
        let q = node(t, k).parent;
        assert(live(t, k) && attached(t, k));
        assert(attached(t, q));
        assert(live(t, q));
        if q == i {
            assert(node(t, i).children matches Some(cs) && cs.contains(k));
        }
        if case_b && q == p {
            let cs = node(t, p).children->0;
            assert(cs.contains(k));
            assert(cs == seq![i]);
            assert(k == i);
        }
    }
    assert forall|k: int| #[trigger] live(t2, k) implies attached(t2, k) && node(t2, k).dotfile_idx == k by {
        assert(attached(t, k));
        lemma_attached_kept(t, t2, k);
    }
    assert(live(t2, 0));
    assert forall|g: Seq<char>| #[trigger] t2.groups.contains(g) implies exists|k: int| live(t2, k) && node(t2, k).group == Some(g) by {
        let ni = node(t1, i);
        if ni.group == Some(g) && group_in_nodes(t2.nodes, g) {
            let k = choose|k: int| 0 <= k < t2.nodes.len() && t2.nodes[k] is Some && #[trigger] t2.nodes[k]->0.group == Some(g);
            assert(live(t2, k));
        } else {
            assert(t1.groups.contains(g));
            assert(t.groups.contains(g));
            let k = choose|k: int| live(t, k) && node(t, k).group == Some(g);
            assert(k != i);
            assert(!(case_b && k == p));
            assert(live(t2, k));
        }
    }
}

/// The items that iterating a tree of that shape gives: for each node
/// other than the root, in the order of the walk, its group and its path.
proof fn lemma_iter_items(t: TreeView)
    requires
        built_shape(t),
    ensures
        spec_iter(t).len() == dfs_order(t).len() - 1,
        forall|k: int|
            0 <= k < spec_iter(t).len() ==> #[trigger] spec_iter(t)[k] == (
                node(t, dfs_order(t)[k + 1]).group,
                path_of(t, dfs_order(t)[k + 1]),
            ) && attached(t, dfs_order(t)[k + 1]) && dfs_order(t)[k + 1] != 0,
{
    lemma_dfs_order_complete(t);
    let o = dfs_order(t);
    let rest = o.drop_first();
    assert forall|k: int| 0 <= k < rest.len() implies 0 <= #[trigger] rest[k] < t.dotfiles.len() && t.dotfiles[rest[k]] is Some by {
        assert(rest[k] == o[k + 1]);
        assert(live(t, o[k + 1]));
        assert(attached(t, rest[k]));
    }
    lemma_items_of(t, rest);
    let it = spec_iter(t);
    assert(it == items_of(t, rest));
    assert forall|k: int| 0 <= k < it.len() implies #[trigger] it[k] == (node(t, o[k + 1]).group, path_of(t, o[k + 1]))
        && attached(t, o[k + 1]) && o[k + 1] != 0 by {
        assert(rest[k] == o[k + 1]);
        assert(live(t, o[k + 1]));
        assert(attached(t, o[k + 1]));
        assert(o[0] != o[k + 1]);
    }
}

/// Iterating a tree of that shape gives every path of the tree other than
/// the root path exactly once, and nothing else, each with the group it has
/// in the tree; and the paths that `get` finds for a group are those of the
/// items iterated with that group.
pub proof fn lemma_iter_law(t: TreeView)
    requires
        built_shape(t),
    ensures
        forall|k: int|
            0 <= k < spec_iter(t).len() ==> has_path(t, #[trigger] spec_iter(t)[k].1) && spec_iter(t)[k].1 != path_of(
                t,
                0,
            ) && spec_iter(t)[k].0 == group_of(t, spec_iter(t)[k].1),
        forall|w: PathView|
            has_path(t, w) && w != path_of(t, 0) ==> exists|k: int| 0 <= k < spec_iter(t).len() && #[trigger] spec_iter(t)[k].1 == w,
        forall|a: int, b: int|
            0 <= a < spec_iter(t).len() && 0 <= b < spec_iter(t).len() && a != b ==> #[trigger] spec_iter(t)[a].1
                != #[trigger] spec_iter(t)[b].1,
        forall|k: int, g: Seq<char>|
            0 <= k < spec_iter(t).len() ==> (#[trigger] spec_group_paths(t, g).contains(spec_iter(t)[k].1) <==> spec_iter(
                t,
            )[k].0 == Some(g)),
{
    lemma_dfs_order_complete(t);
    lemma_iter_items(t);
    let o = dfs_order(t);
    let it = spec_iter(t);
    assert(attached(t, 0));
    assert forall|k: int| 0 <= k < it.len() implies has_path(t, #[trigger] it[k].1) && it[k].1 != path_of(t, 0) && it[k].0
        == group_of(t, it[k].1) by {
        let i = o[k + 1];
        assert(it[k] == (node(t, i).group, path_of(t, i)));
        let f = find(t, path_of(t, i))->0;
        assert(attached(t, f) && path_of(t, f) == path_of(t, i));
        assert(f == i);
    }
    assert forall|w: PathView| has_path(t, w) && w != path_of(t, 0) implies exists|k: int| 0 <= k < it.len() && #[trigger] it[k].1 == w by {
        let i = choose|i: int| attached(t, i) && path_of(t, i) == w;
        assert(live(t, i));
        assert(i != 0);
        assert(o.contains(i));
        let m = choose|m: int| 0 <= m < o.len() && o[m] == i;
        assert(m != 0);
        assert(it[m - 1] == (node(t, o[m]).group, path_of(t, o[m])));
        assert(it[m - 1].1 == w);
    }
    assert forall|a: int, b: int| 0 <= a < it.len() && 0 <= b < it.len() && a != b implies #[trigger] it[a].1 != #[trigger] it[b].1 by {
        assert(it[a] == (node(t, o[a + 1]).group, path_of(t, o[a + 1])));
        assert(it[b] == (node(t, o[b + 1]).group, path_of(t, o[b + 1])));
        assert(o[a + 1] != o[b + 1]);
    }
    assert forall|k: int, g: Seq<char>| 0 <= k < it.len() implies (#[trigger] spec_group_paths(t, g).contains(it[k].1) <==> it[k].0
        == Some(g)) by {
        let i = o[k + 1];
        assert(it[k] == (node(t, i).group, path_of(t, i)));
        assert(o.contains(i));
        if spec_group_paths(t, g).contains(it[k].1) {
            let j = choose|j: int| o.contains(j) && node(t, j).group == Some(g) && #[trigger] path_of(t, j) == it[k].1;
            let m = choose|m: int| 0 <= m < o.len() && o[m] == j;
            assert(live(t, o[m]));
            assert(attached(t, j));
            assert(j == i);
        }
        if it[k].0 == Some(g) {
            assert(spec_group_paths(t, g).contains(path_of(t, i)));
        }
    }
}

/// In a tree of that shape, a group is among the tree's groups
/// (`contains_group`, `get_groups`) exactly when `get` finds a path with it,
/// and exactly when iterating gives a file with it.
pub proof fn lemma_groups_law(t: TreeView, g: Seq<char>)
    requires
        built_shape(t),
    ensures
        t.groups.contains(g) <==> exists|w: PathView| #[trigger] spec_group_paths(t, g).contains(w),
        t.groups.contains(g) <==> exists|k: int| 0 <= k < spec_iter(t).len() && #[trigger] spec_iter(t)[k].0 == Some(g),
{
    lemma_dfs_order_complete(t);
    lemma_iter_items(t);
    let o = dfs_order(t);
    let it = spec_iter(t);
    if t.groups.contains(g) {
        let i = choose|i: int| live(t, i) && node(t, i).group == Some(g);
        assert(o.contains(i));
        assert(spec_group_paths(t, g).contains(path_of(t, i)));
        assert(i != 0);
        let m = choose|m: int| 0 <= m < o.len() && o[m] == i;
        assert(m != 0);
        assert(it[m - 1] == (node(t, o[m]).group, path_of(t, o[m])));
        assert(it[m - 1].0 == Some(g));
    }
    if exists|w: PathView| #[trigger] spec_group_paths(t, g).contains(w) {
        let w = choose|w: PathView| #[trigger] spec_group_paths(t, g).contains(w);
        let i = choose|i: int| o.contains(i) && node(t, i).group == Some(g) && #[trigger] path_of(t, i) == w;
        let m = choose|m: int| 0 <= m < o.len() && o[m] == i;
        assert(live(t, o[m]));
    }
    if exists|k: int| 0 <= k < it.len() && #[trigger] it[k].0 == Some(g) {
        let k = choose|k: int| 0 <= k < it.len() && #[trigger] it[k].0 == Some(g);
        assert(it[k] == (node(t, o[k + 1]).group, path_of(t, o[k + 1])));
        assert(live(t, o[k + 1]));
    }
}

/// A path that an insertion reports as added is then in the tree, and its
/// group (if any) is among the tree's groups.
pub proof fn lemma_insert_then_contains(t: TreeView, group: Option<Seq<char>>, v: PathView)
    requires
        tree_wf(t),
        t.dotfiles.len() == 0 || t.dotfiles[0] is Some,
    ensures
        spec_insert(t, group, v).1 ==> has_path(spec_insert(t, group, v).0, v),
        spec_insert(t, group, v).1 ==> (group matches Some(g) ==> spec_insert(t, group, v).0.groups.contains(g)),
{
    if t.dotfiles.len() == 0 {
        lemma_insert_path_wf(t, group, v);
    } else {
        let root = t.dotfiles[0]->0;
        if let Some(rel) = spec_strip_prefix(v, root) {
            if let Some(_) = spec_file_name(v) {
                lemma_insert_steps(t, group, root, rel.parts, false);
                assert(root.parts + rel.parts =~= v.parts);
            }
        }
    }
}

/// Inserting a path that is already in the tree reports failure, and the
/// path stays in the tree.
pub proof fn lemma_insert_existing(t: TreeView, group: Option<Seq<char>>, v: PathView)
    requires
        tree_wf(t),
        t.dotfiles.len() == 0 || t.dotfiles[0] is Some,
        has_path(t, v),
    ensures
        !spec_insert(t, group, v).1,
        has_path(spec_insert(t, group, v).0, v),
{
    if t.dotfiles.len() > 0 {
        let root = t.dotfiles[0]->0;
        if let Some(rel) = spec_strip_prefix(v, root) {
            if let Some(_) = spec_file_name(v) {
                lemma_insert_steps(t, group, root, rel.parts, false);
                assert(root.parts + rel.parts =~= v.parts);
            }
        }
    }
}

/// A path outside the root path of a tree is refused and changes nothing.
pub proof fn lemma_insert_outside_root(t: TreeView, group: Option<Seq<char>>, v: PathView)
    requires
        t.dotfiles.len() > 0,
        t.dotfiles[0] is Some,
        !spec_starts_with(v, t.dotfiles[0]->0),
    ensures
        spec_insert(t, group, v) == (t, false),
{
}

/// After a path is removed, the tree no longer has it.
pub proof fn lemma_remove_path_gone(t: TreeView, v: PathView)
    requires
        tree_wf(t),
        find(t, v) matches Some(i) ==> walk_ok(t, i),
    ensures
        find(t, v) matches Some(i) ==> !has_path(spec_remove(t, i).0, v),
        find(t, v) is None ==> !has_path(t, v),
{
    if let Some(i) = find(t, v) {
        let t1 = match walk_target(t, i) {
            Some(p) => spec_remove_idx(t, p).0,
            None => t,
        };
        if let Some(p) = walk_target(t, i) {
            lemma_remove_idx_wf(t, p);
        }
        lemma_remove_idx_wf(t1, i);
        let t2 = spec_remove(t, i).0;
        assert(t2 == spec_remove_idx(t1, i).0);
        assert(attached(t, i) && path_of(t, i) == v);
        if has_path(t2, v) {
            let j = choose|j: int| attached(t2, j) && path_of(t2, j) == v;
            assert(attached(t1, j) && path_of(t1, j) == v);
            if let Some(p) = walk_target(t, i) {
                assert(attached(t, j) && path_of(t, j) == v);
            }
            assert(attached(t, j));
            assert(j == i);
            assert(!live(t2, i));
        }
    }
}


impl FileTree {
    /// The number of node slots, empty ones included.
    pub fn node_count(&self) -> (res: usize)
        ensures
            res == self@.nodes.len(),
    {
        proof {
            self.lemma_view_facts();
        }
        self.nodes.len()
    }

    /// The number of stored path slots, empty ones included.
    pub fn dotfile_count(&self) -> (res: usize)
        ensures
            res == self@.dotfiles.len(),
    {
        proof {
            self.lemma_view_facts();
        }
        self.dotfiles.len()
    }

    /// The index of the stored path of the node in slot `i`, if it holds one.
    pub fn node_dotfile_idx(&self, i: usize) -> (res: Option<usize>)
        ensures
            live(self@, i as int) ==> res == Some(node(self@, i as int).dotfile_idx as usize),
            !live(self@, i as int) ==> res is None,
    {
        proof {
            self.lemma_view_facts();
        }
        if i < self.nodes.len() {
            match &self.nodes[i] {
                Some(n) => Some(n.dotfile_idx),
                None => None,
            }
        } else {
            None
        }
    }

    /// The path stored at index `i`, if there is one.
    pub fn dotfile_at(&self, i: usize) -> (res: Option<FsPath>)
        ensures
            opt_path(res) == (if i < self@.dotfiles.len() { self@.dotfiles[i as int] } else { None }),
    {
        proof {
            self.lemma_view_facts();
        }
        if i < self.dotfiles.len() {
            match &self.dotfiles[i] {
                Some(p) => Some(p.duplicate()),
                None => None,
            }
        } else {
            None
        }
    }

    /// Whether some node slot is empty.
    pub fn has_empty_slot(&self) -> (res: bool)
        ensures
            res == exists|i: int| 0 <= i < self@.nodes.len() && self@.nodes[i] is None,
    {
        proof {
            self.lemma_view_facts();
        }
        let mut i: usize = 0;
        while i < self.nodes.len()
            invariant
                i <= self.nodes.len(),
                self@.nodes.len() == self.nodes@.len(),
                forall|k: int| 0 <= k < self.nodes@.len() ==> #[trigger] self@.nodes[k] == opt_node_view(self.nodes@[k]),
                forall|k: int| 0 <= k < i ==> self@.nodes[k] is Some,
            decreases self.nodes.len() - i,
        {
            if self.nodes[i].is_none() {
                assert(self@.nodes[i as int] is None);
                return true;
            }
            i = i + 1;
        }
        false
    }
}

/// A walk through the files of a tree (see `FileTree::iter`).
pub struct FileTreeIterator {
    items: Vec<File>,
    pos: usize,
}

impl View for FileTreeIterator {
    type V = Seq<(Option<Seq<char>>, PathView)>;

    /// The files still to come, each as its group and path.
    closed spec fn view(&self) -> Seq<(Option<Seq<char>>, PathView)> {
        if self.pos <= self.items@.len() {
            file_views(self.items@).skip(self.pos as int)
        } else {
            Seq::empty()
        }
    }
}

impl FileTreeIterator {
    /// The next file; `None` once all were handed out.
    pub fn next(&mut self) -> (res: Option<File>)
        ensures
            old(self)@.len() == 0 ==> res is None && final(self)@ == old(self)@,
            old(self)@.len() > 0 ==> (res matches Some(f) && (opt_text(f.group), f.path@) == old(self)@[0]
                && final(self)@ == old(self)@.drop_first()),
    {
        if self.pos >= self.items.len() {
            assert(self@.len() == 0);
            return None;
        }
        let f = &self.items[self.pos];
        let group = match &f.group {
            Some(g) => Some(copy_string(g)),
            None => None,
        };
        let out = File { group, path: f.path.duplicate() };
        let ghost before = self@;
        assert(file_views(self.items@)[self.pos as int] == (opt_text(f.group), f.path@));
        self.pos = self.pos + 1;
        assert(self@ =~= before.drop_first());
        Some(out)
    }
}

} // verus!
