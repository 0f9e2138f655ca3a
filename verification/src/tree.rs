//! The mathematical model of the tree store: a sequence of nodes, each with
//! its object, its parent and its children, all links being indices into the
//! sequence.

use vstd::prelude::*;

verus! {

/// Mathematical value of a stored object.
pub struct ObjView {
    pub name: Seq<u8>,
    pub is_dir: bool,
    pub size: Option<nat>,
}

impl ObjView {
    /// A directory carries no size of its own; a file always carries one.
    pub open spec fn wf(self) -> bool {
        self.is_dir <==> self.size is None
    }

    /// What the object itself weighs: its size for a file, nothing for a
    /// directory.
    pub open spec fn own_size(self) -> nat {
        match self.size {
            Some(s) => s,
            None => 0,
        }
    }
}

/// Mathematical value of a node.
pub struct NodeView {
    pub id: int,
    pub data: ObjView,
    pub children: Seq<int>,
    pub parent: Option<int>,
}

/// Mathematical value of the whole store.
pub type Tree = Seq<NodeView>;

/// The nodes among the first `upto` whose parent is `p`, in index order.
pub open spec fn children_by_parent(t: Tree, p: int, upto: nat) -> Seq<int>
    decreases upto,
{
    if upto == 0 {
        Seq::empty()
    } else {
        let rest = children_by_parent(t, p, (upto - 1) as nat);
        if t[upto - 1].parent == Some(p) {
            rest.push(upto - 1)
        } else {
            rest
        }
    }
}

/// What holds of the node at index `i` in a well-formed tree.
pub open spec fn node_ok(t: Tree, i: int) -> bool {
    &&& t[i].id == i
    &&& t[i].data.wf()
    &&& t[i].children == children_by_parent(t, i, t.len())
    &&& if i == 0 {
        t[i].parent is None && t[i].data.is_dir
    } else {
        t[i].parent matches Some(p) && 0 <= p < i && t[p].data.is_dir
    }
}

/// The invariant of the store.
///
/// Node 0 is the root, a directory without parent. Every other node has a
/// parent that was added before it and is a directory. The children of a node
/// are exactly the nodes that name it as parent, in the order of their
/// insertion. No two children of one directory share a name.
pub open spec fn well_formed(t: Tree) -> bool {
    &&& forall|i: int| 0 <= i < t.len() ==> #[trigger] node_ok(t, i)
    &&& forall|i: int, j: int|
        0 <= i < j < t.len() && t[i].parent == t[j].parent ==> #[trigger] t[i].data.name
            != #[trigger] t[j].data.name
}

/// The first child of `p`, at position `from` or later, that bears `name`.
pub open spec fn find_child_from(t: Tree, p: int, name: Seq<u8>, from: nat) -> Option<int>
    decreases t[p].children.len() - from,
{
    if from >= t[p].children.len() {
        None
    } else if t[t[p].children[from as int]].data.name == name {
        Some(t[p].children[from as int])
    } else {
        find_child_from(t, p, name, from + 1)
    }
}

/// The child of `p` that bears `name`, if there is one.
pub open spec fn find_child(t: Tree, p: int, name: Seq<u8>) -> Option<int> {
    find_child_from(t, p, name, 0)
}

/// Whether `obj` may be added under `parent`: the root goes first and is a
/// directory; anything else goes under an existing directory that has no child
/// of that name yet.
pub open spec fn can_add(t: Tree, obj: ObjView, parent: Option<int>) -> bool {
    &&& obj.wf()
    &&& match parent {
        None => t.len() == 0 && obj.is_dir,
        Some(p) => 0 <= p < t.len() && t[p].data.is_dir && find_child(t, p, obj.name) is None,
    }
}

/// The tree after `obj` was added under `parent`: a new last node, and its
/// index appended to the children of the parent.
pub open spec fn tree_add(t: Tree, obj: ObjView, parent: Option<int>) -> Tree {
    let n = t.len() as int;
    let node = NodeView { id: n, data: obj, children: Seq::empty(), parent };
    match parent {
        Some(p) => t.update(p, NodeView { children: t[p].children.push(n), ..t[p] }).push(node),
        None => t.push(node),
    }
}

/// Adding a node moves nothing: every node that was there keeps its index, its
/// object and its parent, the parent of the new node gains it as last child,
/// and the children of all other nodes stay as they were.
pub proof fn lemma_add_keeps_nodes(t: Tree, obj: ObjView, parent: Option<int>, i: int)
    requires
        0 <= i < t.len(),
        parent matches Some(p) ==> 0 <= p < t.len(),
    ensures
        tree_add(t, obj, parent).len() == t.len() + 1,
        tree_add(t, obj, parent)[i].id == t[i].id,
        tree_add(t, obj, parent)[i].data == t[i].data,
        tree_add(t, obj, parent)[i].parent == t[i].parent,
        tree_add(t, obj, parent)[i].children == if parent == Some(i) {
            t[i].children.push(t.len() as int)
        } else {
            t[i].children
        },
        tree_add(t, obj, parent)[t.len() as int] == (NodeView {
            id: t.len() as int,
            data: obj,
            children: Seq::empty(),
            parent,
        }),
{
}

/// Which nodes name `p` as parent depends on the parent links alone.
pub proof fn lemma_children_by_parent_same_links(t: Tree, u: Tree, p: int, upto: nat)
    requires
        upto <= t.len(),
        upto <= u.len(),
        forall|i: int| 0 <= i < upto ==> (#[trigger] t[i]).parent == u[i].parent,
    ensures
        children_by_parent(t, p, upto) == children_by_parent(u, p, upto),
    decreases upto,
{
    if upto > 0 {
        lemma_children_by_parent_same_links(t, u, p, (upto - 1) as nat);
    }
}

/// Every listed child lies below `upto` and names `p` as its parent, and the
/// list is strictly increasing.
pub proof fn lemma_children_by_parent_members(t: Tree, p: int, upto: nat)
    ensures
        forall|j: int|
            0 <= j < children_by_parent(t, p, upto).len() ==> {
                let c = #[trigger] children_by_parent(t, p, upto)[j];
                0 <= c < upto && t[c].parent == Some(p)
            },
        forall|j: int, k: int|
            0 <= j < k < children_by_parent(t, p, upto).len() ==> children_by_parent(
                t,
                p,
                upto,
            )[j] < children_by_parent(t, p, upto)[k],
    decreases upto,
{
    if upto > 0 {
        lemma_children_by_parent_members(t, p, (upto - 1) as nat);
    }
}

/// Every node below `upto` that names `p` as its parent is listed.
pub proof fn lemma_children_by_parent_complete(t: Tree, p: int, upto: nat, c: int)
    requires
        0 <= c < upto,
        t[c].parent == Some(p),
    ensures
        exists|j: int|
            0 <= j < children_by_parent(t, p, upto).len() && children_by_parent(t, p, upto)[j]
                == c,
    decreases upto,
{
    let s = children_by_parent(t, p, upto);
    if c == upto - 1 {
        assert(s[s.len() - 1] == c);
    } else {
        lemma_children_by_parent_complete(t, p, (upto - 1) as nat, c);
        let r = children_by_parent(t, p, (upto - 1) as nat);
        let j = choose|j: int| 0 <= j < r.len() && r[j] == c;
        assert(s[j] == c);
    }
}

/// What the search for a named child returns: the first child from `from` on
/// that bears the name, and `None` only when no child from there on does.
pub proof fn lemma_find_child_from(t: Tree, p: int, name: Seq<u8>, from: nat)
    ensures
        match find_child_from(t, p, name, from) {
            Some(c) => exists|j: int|
                from <= j < t[p].children.len() && #[trigger] t[p].children[j] == c
                    && t[c].data.name == name && forall|k: int|
                    from <= k < j ==> t[#[trigger] t[p].children[k]].data.name != name,
            None => forall|j: int|
                from <= j < t[p].children.len() ==> t[#[trigger] t[p].children[j]].data.name
                    != name,
        },
    decreases t[p].children.len() - from,
{
    let kids = t[p].children;
    if from < kids.len() && t[kids[from as int]].data.name != name {
        lemma_find_child_from(t, p, name, from + 1);
        match find_child_from(t, p, name, from + 1) {
            Some(d) => {
                let j = choose|j: int|
                    from + 1 <= j < kids.len() && #[trigger] kids[j] == d && t[d].data.name
                        == name && forall|k: int|
                        from + 1 <= k < j ==> t[#[trigger] kids[k]].data.name != name;
                assert forall|k: int| from <= k < j implies t[#[trigger] kids[k]].data.name
                    != name by {}
            },
            None => {
                assert forall|j: int| from <= j < kids.len() implies t[#[trigger] kids[j]]
                    .data.name != name by {}
            },
        }
    }
}

/// In a well-formed tree the search for a child of `p` finds a node exactly
/// when some node with parent `p` bears the name, and what it finds is such a
/// node.
pub proof fn lemma_find_child(t: Tree, p: int, name: Seq<u8>)
    requires
        well_formed(t),
        0 <= p < t.len(),
    ensures
        match find_child(t, p, name) {
            Some(c) => 0 <= c < t.len() && t[c].parent == Some(p) && t[c].data.name == name,
            None => forall|i: int|
                0 <= i < t.len() && (#[trigger] t[i]).parent == Some(p) ==> t[i].data.name != name,
        },
{
    lemma_find_child_from(t, p, name, 0);
    assert(node_ok(t, p));
    lemma_children_by_parent_members(t, p, t.len());
    if find_child(t, p, name) is None {
        assert forall|i: int|
            0 <= i < t.len() && (#[trigger] t[i]).parent == Some(p) implies t[i].data.name
            != name by {
            lemma_children_by_parent_complete(t, p, t.len(), i);
        }
    }
}

/// Exactly one node has no parent: the root, which is node 0 and a
/// directory. Every other node has a parent that was added before it and is
/// a directory.
pub proof fn lemma_one_root(t: Tree, i: int)
    requires
        well_formed(t),
        0 <= i < t.len(),
    ensures
        t[i].id == i,
        t[i].parent is None <==> i == 0,
        i == 0 ==> t[i].data.is_dir,
        t[i].parent matches Some(p) ==> 0 <= p < i && t[p].data.is_dir,
{
    assert(node_ok(t, i));
}

/// The links of a well-formed tree agree with each other: a child is a node
/// of the tree that was added after its directory and names it as parent.
pub proof fn lemma_links_agree(t: Tree, p: int, j: int)
    requires
        well_formed(t),
        0 <= p < t.len(),
        0 <= j < t[p].children.len(),
    ensures
        p < t[p].children[j] < t.len(),
        t[t[p].children[j]].parent == Some(p),
        t[p].data.is_dir,
{
    assert(node_ok(t, p));
    lemma_children_by_parent_members(t, p, t.len());
    let c = t[p].children[j];
    assert(node_ok(t, c));
}

/// A file has no children, and its size is its own; a directory has no size
/// of its own.
pub proof fn lemma_file_is_leaf(t: Tree, i: int)
    requires
        well_formed(t),
        0 <= i < t.len(),
    ensures
        !t[i].data.is_dir ==> t[i].children.len() == 0 && t[i].data.size is Some,
        t[i].data.is_dir ==> t[i].data.size is None,
{
    assert(node_ok(t, i));
    if t[i].children.len() > 0 {
        lemma_links_agree(t, i, 0);
    }
}

/// No node is listed twice: neither under two directories nor at two places
/// under one.
pub proof fn lemma_child_listed_once(t: Tree, p: int, j: int, q: int, k: int)
    requires
        well_formed(t),
        0 <= p < t.len(),
        0 <= j < t[p].children.len(),
        0 <= q < t.len(),
        0 <= k < t[q].children.len(),
        t[p].children[j] == t[q].children[k],
    ensures
        p == q,
        j == k,
{
    lemma_links_agree(t, p, j);
    lemma_links_agree(t, q, k);
    assert(node_ok(t, p));
    lemma_children_by_parent_members(t, p, t.len());
}

/// Every node but the root is listed among the children of its parent.
pub proof fn lemma_child_is_listed(t: Tree, c: int)
    requires
        well_formed(t),
        0 < c < t.len(),
    ensures
        t[c].parent is Some,
        0 <= t[c].parent->0 < c,
        exists|j: int|
            0 <= j < t[t[c].parent->0].children.len() && t[t[c].parent->0].children[j] == c,
{
    assert(node_ok(t, c));
    let p = t[c].parent->0;
    assert(node_ok(t, p));
    lemma_children_by_parent_complete(t, p, t.len(), c);
}

/// What adding a node does to the search for a child: under the parent the new
/// name is found in addition to those found before; under any other directory
/// nothing changes.
pub proof fn lemma_find_child_after_add(
    t: Tree,
    obj: ObjView,
    parent: int,
    p: int,
    name: Seq<u8>,
)
    requires
        well_formed(t),
        can_add(t, obj, Some(parent)),
        0 <= p < t.len(),
    ensures
        find_child(tree_add(t, obj, Some(parent)), p, name) is Some <==> find_child(t, p, name)
            is Some || (p == parent && name == obj.name),
{
    let u = tree_add(t, obj, Some(parent));
    let n = t.len() as int;
    lemma_add_well_formed(t, obj, Some(parent));
    lemma_find_child(t, p, name);
    lemma_find_child(u, p, name);
    assert forall|i: int| 0 <= i < n implies (#[trigger] u[i]).parent == t[i].parent && u[i].data
        == t[i].data by {}
    if find_child(u, p, name) is None {
        if find_child(t, p, name) is Some {
            assert(u[find_child(t, p, name)->0].parent == Some(p));
        }
        if p == parent && name == obj.name {
            assert(u[n].parent == Some(p));
        }
    }
}

/// Adding a node keeps the tree well formed.
pub proof fn lemma_add_well_formed(t: Tree, obj: ObjView, parent: Option<int>)
    requires
        well_formed(t),
        can_add(t, obj, parent),
    ensures
        well_formed(tree_add(t, obj, parent)),
{
    let u = tree_add(t, obj, parent);
    let n = t.len() as int;
    assert forall|i: int| 0 <= i < u.len() implies (#[trigger] u[i]).parent == (if i < n {
        t[i].parent
    } else {
        parent
    }) by {}
    assert forall|i: int| 0 <= i < u.len() implies #[trigger] node_ok(u, i) by {
        if i < n {
            assert(node_ok(t, i));
            lemma_children_by_parent_same_links(t, u, i, n as nat);
        } else {
            lemma_children_by_parent_members(u, n, u.len());
            let s = children_by_parent(u, n, u.len());
            assert(s.len() == 0) by {
                if s.len() > 0 && s[0] < n {
                    assert(node_ok(t, s[0]));
                }
            }
            assert(s =~= Seq::<int>::empty());
        }
    }
    assert forall|i: int, j: int|
        0 <= i < j < u.len() && u[i].parent == u[j].parent implies #[trigger] u[i].data.name
        != #[trigger] u[j].data.name by {
        if j == n {
            lemma_find_child(t, parent->0, obj.name);
        }
    }
}

} // verus!
