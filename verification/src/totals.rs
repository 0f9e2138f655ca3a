//! Size aggregation over the tree model, and the laws that tie the recursive
//! total of a node to the files below it.
//!
//! The total of a node is defined by recursion over its children. That it is
//! also the plain sum of the sizes of the files in its subtree is shown by
//! moving a cut through the indices: the totals of the nodes that hang across
//! the cut, together with the own sizes of the subtree below the cut, always
//! add up to the total of the node. Right above the node the first part is
//! the sum over its children; at the end of the tree only the second part is
//! left.

use crate::tree::{
    children_by_parent, lemma_children_by_parent_members, node_ok, well_formed, Tree,
};
use vstd::prelude::*;

verus! {

/// The total size of node `id`: its own size for a file, the sum of the totals
/// of its children for a directory.
pub open spec fn total_size(t: Tree, id: int) -> nat
    decreases t.len() - id, 1int, 0nat,
{
    if 0 <= id < t.len() {
        if t[id].data.is_dir {
            children_total(t, id, t[id].children.len())
        } else {
            t[id].data.own_size()
        }
    } else {
        0
    }
}

/// The sum of the totals of the first `upto` children of `id`.
pub open spec fn children_total(t: Tree, id: int, upto: nat) -> nat
    decreases t.len() - id, 0int, upto,
{
    if upto == 0 {
        0
    } else {
        let c = t[id].children[upto - 1];
        children_total(t, id, (upto - 1) as nat) + if id < c < t.len() {
            total_size(t, c)
        } else {
            0
        }
    }
}

/// The sum of the totals of the nodes listed in `ids`.
pub open spec fn total_over(t: Tree, ids: Seq<int>) -> nat
    decreases ids.len(),
{
    if ids.len() == 0 {
        0
    } else {
        total_over(t, ids.drop_last()) + total_size(t, ids.last())
    }
}

/// Whether `d` is `i` itself or lies on the chain of parents above `i`.
pub open spec fn reaches(t: Tree, i: int, d: int) -> bool
    decreases i,
{
    i == d || (0 < i < t.len() && match t[i].parent {
        Some(p) => 0 <= p < i && reaches(t, p, d),
        None => false,
    })
}

/// The sum of the own sizes of the first `upto` nodes.
pub open spec fn files_total(t: Tree, upto: nat) -> nat
    decreases upto,
{
    if upto == 0 {
        0
    } else {
        files_total(t, (upto - 1) as nat) + t[upto - 1].data.own_size()
    }
}

/// The sum of the own sizes of those among the first `upto` nodes that lie in
/// the subtree of `d`.
pub open spec fn subtree_files_total(t: Tree, d: int, upto: nat) -> nat
    decreases upto,
{
    if upto == 0 {
        0
    } else {
        subtree_files_total(t, d, (upto - 1) as nat) + if reaches(t, upto - 1, d) {
            t[upto - 1].data.own_size()
        } else {
            0
        }
    }
}

/// The sum of the totals of those among the first `upto` nodes whose parent
/// is `p`.
spec fn child_flat(t: Tree, p: int, upto: nat) -> nat
    decreases upto,
{
    if upto == 0 {
        0
    } else {
        child_flat(t, p, (upto - 1) as nat) + if t[upto - 1].parent == Some(p) {
            total_size(t, upto - 1)
        } else {
            0
        }
    }
}

/// Whether node `i` hangs across the cut: it lies in the subtree of `d`, at
/// `cut` or above, while its parent lies below `cut`.
spec fn crosses(t: Tree, d: int, cut: int, i: int) -> bool {
    reaches(t, i, d) && cut <= i && match t[i].parent {
        Some(p) => p < cut,
        None => true,
    }
}

/// The sum of the totals of those among the first `upto` nodes that hang
/// across the cut.
spec fn frontier(t: Tree, d: int, cut: int, upto: nat) -> nat
    decreases upto,
{
    if upto == 0 {
        0
    } else {
        frontier(t, d, cut, (upto - 1) as nat) + if crosses(t, d, cut, upto - 1) {
            total_size(t, upto - 1)
        } else {
            0
        }
    }
}

proof fn lemma_reaches_above(t: Tree, i: int, d: int)
    requires
        reaches(t, i, d),
    ensures
        d <= i,
    decreases i,
{
    if i != d {
        lemma_reaches_above(t, t[i].parent->0, d);
    }
}

/// The total of the first children, as far as they are the nodes below `upto`
/// with parent `d`, is the flat sum over those nodes.
proof fn lemma_children_total_flat(t: Tree, d: int, upto: nat)
    requires
        well_formed(t),
        0 <= d < t.len(),
        upto <= t.len(),
        children_by_parent(t, d, upto).len() <= t[d].children.len(),
        forall|j: int|
            0 <= j < children_by_parent(t, d, upto).len() ==> t[d].children[j]
                == children_by_parent(t, d, upto)[j],
    ensures
        children_total(t, d, children_by_parent(t, d, upto).len()) == child_flat(t, d, upto),
    decreases upto,
{
    if upto > 0 {
        let k = (upto - 1) as nat;
        lemma_children_total_flat(t, d, k);
        if t[k as int].parent == Some(d) {
            assert(node_ok(t, k as int));
        }
    }
}

/// No node names a file as its parent.
proof fn lemma_file_has_no_child(t: Tree, d: int, upto: nat)
    requires
        well_formed(t),
        0 <= d < t.len(),
        !t[d].data.is_dir,
        upto <= t.len(),
    ensures
        child_flat(t, d, upto) == 0,
    decreases upto,
{
    if upto > 0 {
        lemma_file_has_no_child(t, d, (upto - 1) as nat);
        assert(node_ok(t, upto - 1));
    }
}

/// The total of a node is its own size plus the totals of the nodes that name
/// it as parent.
proof fn lemma_total_flat(t: Tree, d: int)
    requires
        well_formed(t),
        0 <= d < t.len(),
    ensures
        total_size(t, d) == t[d].data.own_size() + child_flat(t, d, t.len()),
{
    assert(node_ok(t, d));
    if t[d].data.is_dir {
        lemma_children_total_flat(t, d, t.len());
    } else {
        lemma_file_has_no_child(t, d, t.len());
    }
}

/// Moving the cut one node up trades the total of the node at the cut for the
/// totals of its children.
proof fn lemma_frontier_step(t: Tree, d: int, cut: int, upto: nat)
    requires
        well_formed(t),
        0 <= d < cut < t.len(),
        upto <= t.len(),
    ensures
        frontier(t, d, cut + 1, upto) + (if cut < upto && reaches(t, cut, d) {
            total_size(t, cut)
        } else {
            0
        }) == frontier(t, d, cut, upto) + (if reaches(t, cut, d) {
            child_flat(t, cut, upto)
        } else {
            0
        }),
    decreases upto,
{
    if upto > 0 {
        let i = upto - 1;
        lemma_frontier_step(t, d, cut, i as nat);
        assert(node_ok(t, i));
        if i > cut && t[i].parent == Some(cut) {
            assert(reaches(t, i, d) == reaches(t, cut, d));
        }
    }
}

/// With the cut right above `d`, what hangs across it are the children of `d`.
proof fn lemma_frontier_base(t: Tree, d: int, upto: nat)
    requires
        well_formed(t),
        0 <= d < t.len(),
        upto <= t.len(),
    ensures
        frontier(t, d, d + 1, upto) == child_flat(t, d, upto),
    decreases upto,
{
    if upto > 0 {
        let i = upto - 1;
        lemma_frontier_base(t, d, i as nat);
        assert(node_ok(t, i));
        if reaches(t, i, d) && i != d {
            lemma_reaches_above(t, t[i].parent->0, d);
        }
        if t[i].parent == Some(d) {
            assert(reaches(t, d, d));
        }
    }
}

/// With the cut at the end of the tree nothing hangs across it.
proof fn lemma_frontier_top(t: Tree, d: int, upto: nat)
    requires
        upto <= t.len(),
    ensures
        frontier(t, d, t.len() as int, upto) == 0,
    decreases upto,
{
    if upto > 0 {
        lemma_frontier_top(t, d, (upto - 1) as nat);
    }
}

/// Of the nodes up to `d` only `d` itself lies in the subtree of `d`.
proof fn lemma_subtree_files_base(t: Tree, d: int, upto: nat)
    requires
        0 <= d,
        upto <= d + 1,
    ensures
        subtree_files_total(t, d, upto) == if d < upto {
            t[d].data.own_size()
        } else {
            0
        },
    decreases upto,
{
    if upto > 0 {
        lemma_subtree_files_base(t, d, (upto - 1) as nat);
        if reaches(t, upto - 1, d) {
            lemma_reaches_above(t, upto - 1, d);
        }
    }
}

/// Whatever the cut above `d`, the totals that hang across it and the own
/// sizes of the subtree below it add up to the total of `d`.
proof fn lemma_cut_invariant(t: Tree, d: int, cut: int)
    requires
        well_formed(t),
        0 <= d < cut <= t.len(),
    ensures
        total_size(t, d) == frontier(t, d, cut, t.len()) + subtree_files_total(t, d, cut as nat),
    decreases cut,
{
    if cut == d + 1 {
        lemma_frontier_base(t, d, t.len());
        lemma_subtree_files_base(t, d, cut as nat);
        lemma_total_flat(t, d);
    } else {
        lemma_cut_invariant(t, d, cut - 1);
        lemma_frontier_step(t, d, cut - 1, t.len());
        lemma_total_flat(t, cut - 1);
    }
}

/// The total of a node is the sum of the sizes of the files in its subtree,
/// however the files are grouped into directories.
pub proof fn lemma_total_is_subtree_files(t: Tree, d: int)
    requires
        well_formed(t),
        0 <= d < t.len(),
    ensures
        total_size(t, d) == subtree_files_total(t, d, t.len()),
{
    lemma_cut_invariant(t, d, t.len() as int);
    lemma_frontier_top(t, d, t.len());
}

/// Every node lies in the subtree of the root.
pub proof fn lemma_root_reaches_all(t: Tree, i: int)
    requires
        well_formed(t),
        0 <= i < t.len(),
    ensures
        reaches(t, i, 0),
    decreases i,
{
    assert(node_ok(t, i));
    if i > 0 {
        lemma_root_reaches_all(t, t[i].parent->0);
    }
}

proof fn lemma_root_subtree_is_all(t: Tree, upto: nat)
    requires
        well_formed(t),
        upto <= t.len(),
    ensures
        subtree_files_total(t, 0, upto) == files_total(t, upto),
    decreases upto,
{
    if upto > 0 {
        lemma_root_subtree_is_all(t, (upto - 1) as nat);
        lemma_root_reaches_all(t, upto - 1);
    }
}

proof fn lemma_subtree_within_all(t: Tree, d: int, upto: nat)
    ensures
        subtree_files_total(t, d, upto) <= files_total(t, upto),
    decreases upto,
{
    if upto > 0 {
        lemma_subtree_within_all(t, d, (upto - 1) as nat);
    }
}

/// The total of the root is the sum of the sizes of the files that can be
/// reached from it, and these are all files of the tree.
pub proof fn lemma_root_total_is_all_files(t: Tree)
    requires
        well_formed(t),
        t.len() > 0,
    ensures
        total_size(t, 0) == subtree_files_total(t, 0, t.len()),
        total_size(t, 0) == files_total(t, t.len()),
{
    lemma_total_is_subtree_files(t, 0);
    lemma_root_subtree_is_all(t, t.len());
}

/// No node weighs more than all files of the tree together.
pub proof fn lemma_total_within_all_files(t: Tree, d: int)
    requires
        well_formed(t),
    ensures
        total_size(t, d) <= files_total(t, t.len()),
{
    if 0 <= d < t.len() {
        lemma_total_is_subtree_files(t, d);
        lemma_subtree_within_all(t, d, t.len());
    }
}

proof fn lemma_children_total_is_total_over(t: Tree, d: int, upto: nat)
    requires
        well_formed(t),
        0 <= d < t.len(),
        upto <= t[d].children.len(),
    ensures
        children_total(t, d, upto) == total_over(t, t[d].children.take(upto as int)),
    decreases upto,
{
    if upto > 0 {
        lemma_children_total_is_total_over(t, d, (upto - 1) as nat);
        let taken = t[d].children.take(upto as int);
        assert(taken.drop_last() =~= t[d].children.take(upto - 1));
        assert(node_ok(t, d));
        lemma_children_by_parent_members(t, d, t.len());
        let c = t[d].children[upto - 1];
        assert(node_ok(t, c));
    }
}

/// The sum over the first children grows with their number.
pub proof fn lemma_children_total_grows(t: Tree, d: int, fewer: nat, more: nat)
    requires
        fewer <= more,
    ensures
        children_total(t, d, fewer) <= children_total(t, d, more),
    decreases more,
{
    if fewer < more {
        lemma_children_total_grows(t, d, fewer, (more - 1) as nat);
    }
}

/// Files that each fit a machine word add up to no more than their number
/// times the largest word.
pub proof fn lemma_files_total_bound(t: Tree, upto: nat)
    requires
        upto <= t.len(),
        forall|i: int| 0 <= i < t.len() ==> (#[trigger] t[i]).data.own_size() <= usize::MAX,
    ensures
        files_total(t, upto) <= upto * usize::MAX,
    decreases upto,
{
    if upto > 0 {
        lemma_files_total_bound(t, (upto - 1) as nat);
        assert((upto - 1) * usize::MAX + usize::MAX == upto * usize::MAX) by (nonlinear_arith);
    }
}

/// The total of a directory is the sum of the totals of its children.
pub proof fn lemma_directory_total_is_children(t: Tree, d: int)
    requires
        well_formed(t),
        0 <= d < t.len(),
        t[d].data.is_dir,
    ensures
        total_size(t, d) == total_over(t, t[d].children),
{
    lemma_children_total_is_total_over(t, d, t[d].children.len());
    assert(t[d].children.take(t[d].children.len() as int) =~= t[d].children);
}

} // verus!
