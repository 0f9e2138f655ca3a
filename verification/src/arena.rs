//! The tree store: an arena of directory and file nodes addressed by index.

use crate::text::bytes_equal;
use crate::totals::{
    children_total, lemma_children_total_grows, lemma_files_total_bound,
    lemma_total_within_all_files, total_size,
};
use crate::tree::{
    can_add, find_child, find_child_from, lemma_add_well_formed,
    lemma_children_by_parent_members, lemma_find_child, node_ok, tree_add, well_formed, NodeView,
    ObjView, Tree,
};
use vstd::prelude::*;

verus! {

/// Stable handle of a node: its position in the arena.
#[derive(Debug, Clone, Copy, PartialEq, Eq)]
pub struct NodeId {
    pub index: usize,
}

/// The index behind an optional handle.
pub open spec fn link(id: Option<NodeId>) -> Option<int> {
    match id {
        Some(p) => Some(p.index as int),
        None => None,
    }
}

impl NodeId {
    /// The handle of the node at position `index`.
    pub fn new(index: usize) -> (id: Self)
        ensures
            id.index == index,
    {
        NodeId { index }
    }
}

/// One filesystem object: a directory, or a file with its size.
#[derive(Debug, PartialEq, Eq)]
pub struct Obj {
    pub name: Vec<u8>,
    pub is_dir: bool,
    pub size: Option<usize>,
}

impl View for Obj {
    type V = ObjView;

    open spec fn view(&self) -> ObjView {
        ObjView {
            name: self.name@,
            is_dir: self.is_dir,
            size: match self.size {
                Some(s) => Some(s as nat),
                None => None,
            },
        }
    }
}

/// A stored object with its links into the tree.
#[derive(Debug)]
struct Node {
    id: NodeId,
    data: Obj,
    children: Vec<NodeId>,
    parent: Option<NodeId>,
}

impl View for Node {
    type V = NodeView;

    closed spec fn view(&self) -> NodeView {
        NodeView {
            id: self.id.index as int,
            data: self.data@,
            children: Seq::new(self.children@.len(), |j: int| self.children@[j].index as int),
            parent: match self.parent {
                Some(p) => Some(p.index as int),
                None => None,
            },
        }
    }
}

/// The arena. Nodes are only ever appended, so an id stays valid for good.
#[derive(Debug)]
pub struct Arena {
    nodes: Vec<Node>,
}

impl View for Arena {
    type V = Tree;

    closed spec fn view(&self) -> Tree {
        Seq::new(self.nodes@.len(), |i: int| self.nodes@[i]@)
    }
}

impl Arena {
    /// An arena without nodes; the root is the first node to be added.
    pub fn new() -> (arena: Self)
        ensures
            arena@ == Seq::<NodeView>::empty(),
            arena.wf(),
    {
        let arena = Arena { nodes: Vec::new() };
        arena
    }

    /// The store's invariant, stated of its mathematical value.
    pub open spec fn wf(&self) -> bool {
        well_formed(self@)
    }

    /// Appends a node that holds `obj` and returns its id, the number of
    /// nodes there were. With a parent, the id is also appended to the
    /// parent's children.
    pub fn add(&mut self, obj: Obj, parent_id: Option<NodeId>) -> (id: NodeId)
        requires
            old(self).wf(),
            can_add(old(self)@, obj@, link(parent_id)),
        ensures
            id.index == old(self)@.len(),
            final(self)@ == tree_add(old(self)@, obj@, link(parent_id)),
            final(self).wf(),
    {
        let node_id = NodeId::new(self.nodes.len());
        let ghost before = self@;
        let ghost added = obj@;
        let new_node = Node { id: node_id, data: obj, children: Vec::new(), parent: parent_id };
        self.nodes.push(new_node);
        if let Some(parent) = parent_id {
            self.nodes[parent.index].children.push(node_id);
        }
        proof {
            let after = tree_add(before, added, link(parent_id));
            assert forall|i: int| 0 <= i < after.len() implies self@[i] == after[i] by {
                assert(self@[i].children =~= after[i].children);
            }
            lemma_add_well_formed(before, added, link(parent_id));
        }
        node_id
    }

    /// The object stored under `id`.
    pub fn get(&self, id: NodeId) -> (obj: &Obj)
        requires
            id.index < self@.len(),
        ensures
            obj@ == self@[id.index as int].data,
    {
        &self.nodes[id.index].data
    }

    /// The directory that owns `id`, or `None` for the root.
    pub fn get_parent(&self, id: NodeId) -> (parent: Option<NodeId>)
        requires
            id.index < self@.len(),
        ensures
            link(parent) == self@[id.index as int].parent,
    {
        self.nodes[id.index].parent
    }

    /// The first child of `id` that bears `name`, if there is one. What is
    /// found is a node whose parent is `id`; nothing is found only where no
    /// such node bears the name.
    pub fn find_child_by_name(&self, id: NodeId, name: &[u8]) -> (found: Option<NodeId>)
        requires
            self.wf(),
            id.index < self@.len(),
        ensures
            link(found) == find_child(self@, id.index as int, name@),
            match found {
                Some(c) => c.index < self@.len() && self@[c.index as int].parent == Some(
                    id.index as int,
                ) && self@[c.index as int].data.name == name@,
                None => forall|i: int|
                    0 <= i < self@.len() && (#[trigger] self@[i]).parent == Some(id.index as int)
                        ==> self@[i].data.name != name@,
            },
    {
        proof {
            lemma_find_child(self@, id.index as int, name@);
        }
        let node = &self.nodes[id.index];
        let mut j: usize = 0;
        while j < node.children.len()
            invariant
                self.wf(),
                id.index < self@.len(),
                node == self.nodes@[id.index as int],
                j <= node.children@.len(),
                find_child(self@, id.index as int, name@) == find_child_from(
                    self@,
                    id.index as int,
                    name@,
                    j as nat,
                ),
            decreases node.children@.len() - j,
        {
            let child = node.children[j];
            proof {
                assert(node_ok(self@, id.index as int));
                lemma_children_by_parent_members(self@, id.index as int, self@.len());
            }
            if bytes_equal(self.nodes[child.index].data.name.as_slice(), name) {
                return Some(child);
            }
            j = j + 1;
        }
        None
    }

    /// Every id of the arena, in the order of insertion.
    pub fn get_ids(&self) -> (ids: Vec<NodeId>)
        ensures
            ids@.len() == self@.len(),
            forall|i: int| 0 <= i < ids@.len() ==> (#[trigger] ids@[i]).index == i,
    {
        let mut ids: Vec<NodeId> = Vec::new();
        let mut i: usize = 0;
        while i < self.nodes.len()
            invariant
                i <= self.nodes@.len(),
                ids@.len() == i,
                forall|k: int| 0 <= k < ids@.len() ==> (#[trigger] ids@[k]).index == k,
            decreases self.nodes@.len() - i,
        {
            ids.push(NodeId::new(i));
            i = i + 1;
        }
        ids
    }

    /// The total size of `id`: the size of a file, the sum of the totals of
    /// its children for a directory. The sum is kept in 128 bits, which hold
    /// the sizes of as many files as an arena can have.
    pub fn get_size(&self, id: NodeId) -> (size: u128)
        requires
            self.wf(),
            id.index < self@.len(),
        ensures
            size == total_size(self@, id.index as int),
        decreases self@.len() - id.index,
    {
        let node = &self.nodes[id.index];
        proof {
            assert(node_ok(self@, id.index as int));
            self.lemma_total_fits(id.index as int);
        }
        match node.data.size {
            Some(size) => size as u128,
            None => {
                let mut sum: u128 = 0;
                let mut j: usize = 0;
                while j < node.children.len()
                    invariant
                        self.wf(),
                        id.index < self@.len(),
                        node == self.nodes@[id.index as int],
                        self@[id.index as int].data.is_dir,
                        j <= node.children@.len(),
                        sum == children_total(self@, id.index as int, j as nat),
                        total_size(self@, id.index as int) <= u128::MAX,
                    decreases node.children@.len() - j,
                {
                    let child = node.children[j];
                    proof {
                        assert(node_ok(self@, id.index as int));
                        lemma_children_by_parent_members(self@, id.index as int, self@.len());
                        assert(self@[id.index as int].children[j as int] == child.index);
                        assert(node_ok(self@, child.index as int));
                        lemma_children_total_grows(
                            self@,
                            id.index as int,
                            (j + 1) as nat,
                            node.children@.len(),
                        );
                    }
                    let part = self.get_size(child);
                    sum = sum + part;
                    j = j + 1;
                }
                sum
            },
        }
    }

    /// The total of any node is at most as many machine words as the arena
    /// has nodes, and so fits 128 bits.
    pub proof fn lemma_total_fits(&self, d: int)
        requires
            self.wf(),
        ensures
            self@.len() <= usize::MAX,
            total_size(self@, d) <= self@.len() * usize::MAX,
            self@.len() * usize::MAX <= u128::MAX - usize::MAX,
    {
        let t = self@;
        lemma_total_within_all_files(t, d);
        lemma_files_total_bound(t, t.len());
        assert(t.len() == self.nodes.len());
        assert(t.len() * usize::MAX <= u128::MAX - usize::MAX) by (nonlinear_arith)
            requires
                t.len() <= usize::MAX,
                usize::MAX <= 0xffff_ffff_ffff_ffff,
                u128::MAX == 0xffff_ffff_ffff_ffff_ffff_ffff_ffff_ffff,
        ;
    }

    /// The children of `id`, in the order in which they were added.
    pub fn get_children(&self, id: NodeId) -> (children: &[NodeId])
        requires
            id.index < self@.len(),
        ensures
            children@.len() == self@[id.index as int].children.len(),
            forall|j: int|
                0 <= j < children@.len() ==> (#[trigger] children@[j]).index
                    == self@[id.index as int].children[j],
    {
        self.nodes[id.index].children.as_slice()
    }
}

} // verus!
