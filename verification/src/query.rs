//! The queries over a finished tree: the sum of the small directories, and the
//! smallest directory whose removal frees enough room.

use crate::arena::{Arena, NodeId};
use crate::totals::total_size;
use crate::trace::{lemma_trace_tree_well_formed, parse_instructions, trace_tree};
use crate::tree::{lemma_one_root, Tree};
use vstd::prelude::*;
use vstd::string::StringSliceAdditionalSpecFns;

verus! {

/// Directories below this total count as small.
pub const SMALL_LIMIT: usize = 100000;

/// The capacity of the device.
pub const CAPACITY: usize = 70000000;

/// The room that the update needs.
pub const REQUIRED_FREE: usize = 30000000;

/// Why a query has no answer.
#[derive(Debug, Clone, Copy, PartialEq, Eq, Structural)]
pub enum QueryError {
    /// No directory is large enough to free the room asked for.
    NoQualifyingDirectory,
}

/// Whether node `i` is a directory whose total lies strictly below
/// `threshold`.
pub open spec fn is_small_dir(t: Tree, i: int, threshold: nat) -> bool {
    t[i].data.is_dir && total_size(t, i) < threshold
}

/// The sum of the totals of the small directories among the first `upto`
/// nodes. A directory inside another counts again with its own total.
pub open spec fn small_dirs_total(t: Tree, threshold: nat, upto: nat) -> nat
    decreases upto,
{
    if upto == 0 {
        0
    } else {
        small_dirs_total(t, threshold, (upto - 1) as nat) + if is_small_dir(
            t,
            upto - 1,
            threshold,
        ) {
            total_size(t, upto - 1)
        } else {
            0
        }
    }
}

/// How much must be freed: the room required less the room that is free, the
/// used room being the total of the root. Not positive where the update fits
/// already.
pub open spec fn deficit(t: Tree, capacity: nat, required_free: nat) -> int {
    required_free - (capacity - total_size(t, 0))
}

/// Whether node `i` is a directory whose total is at least the deficit.
pub open spec fn frees_enough(t: Tree, i: int, capacity: nat, required_free: nat) -> bool {
    t[i].data.is_dir && total_size(t, i) >= deficit(t, capacity, required_free)
}

/// The smallest total of a directory among the first `upto` nodes that frees
/// enough, or `None` where none of them does.
pub open spec fn smallest_to_free(t: Tree, capacity: nat, required_free: nat, upto: nat) -> Option<
    nat,
>
    decreases upto,
{
    if upto == 0 {
        None
    } else {
        let before = smallest_to_free(t, capacity, required_free, (upto - 1) as nat);
        if frees_enough(t, upto - 1, capacity, required_free) {
            match before {
                Some(m) if m <= total_size(t, upto - 1) => before,
                _ => Some(total_size(t, upto - 1)),
            }
        } else {
            before
        }
    }
}

/// Whether `m` is the total of a directory among the first `upto` nodes that
/// frees enough, and no directory among them that frees enough has less.
pub open spec fn is_smallest_to_free(
    t: Tree,
    capacity: nat,
    required_free: nat,
    upto: nat,
    m: nat,
) -> bool {
    &&& exists|i: int|
        0 <= i < upto && frees_enough(t, i, capacity, required_free) && total_size(t, i) == m
    &&& forall|i: int|
        0 <= i < upto && frees_enough(t, i, capacity, required_free) ==> m <= total_size(t, i)
}

/// Whether no directory among the first `upto` nodes frees enough.
pub open spec fn none_frees_enough(t: Tree, capacity: nat, required_free: nat, upto: nat) -> bool {
    forall|i: int| 0 <= i < upto ==> !frees_enough(t, i, capacity, required_free)
}

/// What `smallest_to_free` picks: the smallest total of a directory that
/// frees enough; nothing only where no directory frees enough.
pub proof fn lemma_smallest_to_free(t: Tree, capacity: nat, required_free: nat, upto: nat)
    ensures
        match smallest_to_free(t, capacity, required_free, upto) {
            Some(m) => is_smallest_to_free(t, capacity, required_free, upto, m),
            None => none_frees_enough(t, capacity, required_free, upto),
        },
    decreases upto,
{
    if upto > 0 {
        lemma_smallest_to_free(t, capacity, required_free, (upto - 1) as nat);
        let before = smallest_to_free(t, capacity, required_free, (upto - 1) as nat);
        let now = smallest_to_free(t, capacity, required_free, upto);
        if now is Some {
            if now == before {
                let i = choose|i: int|
                    0 <= i < upto - 1 && frees_enough(t, i, capacity, required_free)
                        && total_size(t, i) == before->0;
                assert(0 <= i < upto && frees_enough(t, i, capacity, required_free));
                assert(total_size(t, i) == now->0);
            } else {
                assert(frees_enough(t, upto - 1, capacity, required_free));
            }
        }
    }
}

/// The sum of the totals of all directories whose total lies strictly below
/// `threshold`.
pub fn bounded_size_sum(store: &Arena, threshold: usize) -> (sum: u128)
    requires
        store.wf(),
    ensures
        sum == small_dirs_total(store@, threshold as nat, store@.len()),
{
    let ids = store.get_ids();
    let mut sum: u128 = 0;
    let mut k: usize = 0;
    while k < ids.len()
        invariant
            store.wf(),
            ids@.len() == store@.len(),
            forall|i: int| 0 <= i < ids@.len() ==> (#[trigger] ids@[i]).index == i,
            k <= ids@.len(),
            sum == small_dirs_total(store@, threshold as nat, k as nat),
            sum <= k * usize::MAX,
        decreases ids@.len() - k,
    {
        let id = ids[k];
        if store.get(id).is_dir {
            let size = store.get_size(id);
            if size < threshold as u128 {
                proof {
                    store.lemma_total_fits(k as int);
                    assert(k * usize::MAX + usize::MAX == (k + 1) * usize::MAX)
                        by (nonlinear_arith);
                    assert((k + 1) * usize::MAX <= store@.len() * usize::MAX)
                        by (nonlinear_arith)
                        requires
                            k + 1 <= store@.len(),
                    ;
                }
                sum = sum + size;
            }
        }
        proof {
            assert(k * usize::MAX <= (k + 1) * usize::MAX) by (nonlinear_arith);
        }
        k = k + 1;
    }
    sum
}

/// The smallest total of a directory whose removal leaves `required_free` of
/// `capacity` unused. Where the room is there already, every directory
/// qualifies and the smallest of all is returned.
pub fn min_to_free(store: &Arena, capacity: usize, required_free: usize) -> (found: Result<
    u128,
    QueryError,
>)
    requires
        store.wf(),
    ensures
        match smallest_to_free(store@, capacity as nat, required_free as nat, store@.len()) {
            Some(m) => found == Ok::<u128, QueryError>(m as u128) && m <= u128::MAX,
            None => found == Err::<u128, QueryError>(QueryError::NoQualifyingDirectory),
        },
        match found {
            Ok(m) => is_smallest_to_free(
                store@,
                capacity as nat,
                required_free as nat,
                store@.len(),
                m as nat,
            ),
            Err(_) => none_frees_enough(
                store@,
                capacity as nat,
                required_free as nat,
                store@.len(),
            ),
        },
{
    proof {
        lemma_smallest_to_free(store@, capacity as nat, required_free as nat, store@.len());
    }
    let ids = store.get_ids();
    if ids.len() == 0 {
        return Err(QueryError::NoQualifyingDirectory);
    }
    let used = store.get_size(NodeId::new(0));
    proof {
        store.lemma_total_fits(0);
    }
    let needed: u128 = required_free as u128 + used;
    let mut best: Option<u128> = None;
    let mut k: usize = 0;
    while k < ids.len()
        invariant
            store.wf(),
            ids@.len() == store@.len(),
            forall|i: int| 0 <= i < ids@.len() ==> (#[trigger] ids@[i]).index == i,
            k <= ids@.len(),
            used == total_size(store@, 0),
            needed == required_free + used,
            match smallest_to_free(store@, capacity as nat, required_free as nat, k as nat) {
                Some(m) => best == Some(m as u128) && m <= u128::MAX,
                None => best is None,
            },
        decreases ids@.len() - k,
    {
        let id = ids[k];
        if store.get(id).is_dir {
            let size = store.get_size(id);
            proof {
                store.lemma_total_fits(k as int);
            }
            if size + capacity as u128 >= needed {
                best = match best {
                    Some(m) if m <= size => best,
                    _ => Some(size),
                };
            }
        }
        k = k + 1;
    }
    match best {
        Some(m) => Ok(m),
        None => Err(QueryError::NoQualifyingDirectory),
    }
}

/// The answer to the first question for a trace: the sum of the totals of
/// the directories below [`SMALL_LIMIT`], where the trace is accepted and the
/// sum fits a machine word.
pub open spec fn small_dirs_answer(input: Seq<u8>) -> Option<usize> {
    match trace_tree(input) {
        Ok(t) => {
            let sum = small_dirs_total(t, SMALL_LIMIT as nat, t.len());
            if sum <= usize::MAX {
                Some(sum as usize)
            } else {
                None
            }
        },
        Err(_) => None,
    }
}

/// The answer to the second question for a trace: the smallest total of a
/// directory whose removal leaves [`REQUIRED_FREE`] of [`CAPACITY`] unused,
/// where the trace is accepted and that total fits a machine word.
pub open spec fn room_answer(input: Seq<u8>) -> Option<usize> {
    match trace_tree(input) {
        Ok(t) => match smallest_to_free(t, CAPACITY as nat, REQUIRED_FREE as nat, t.len()) {
            Some(m) if m <= usize::MAX => Some(m as usize),
            _ => None,
        },
        Err(_) => None,
    }
}

/// Reads the trace and sums the totals of the small directories.
pub fn part_one(input: &str) -> (answer: Option<usize>)
    ensures
        answer == small_dirs_answer(input.spec_bytes()),
{
    match parse_instructions(input) {
        Ok(tree) => {
            let sum = bounded_size_sum(&tree, SMALL_LIMIT);
            if sum <= usize::MAX as u128 {
                Some(sum as usize)
            } else {
                None
            }
        },
        Err(_) => None,
    }
}

/// Reads the trace and finds the smallest directory to remove for the
/// update.
pub fn part_two(input: &str) -> (answer: Option<usize>)
    ensures
        answer == room_answer(input.spec_bytes()),
{
    match parse_instructions(input) {
        Ok(tree) => match min_to_free(&tree, CAPACITY, REQUIRED_FREE) {
            Ok(size) => if size <= usize::MAX as u128 {
                Some(size as usize)
            } else {
                None
            },
            Err(_) => None,
        },
        Err(_) => None,
    }
}

/// A directory whose total equals the threshold is not small, and the sum
/// passes over it: the bound is strict.
pub proof fn lemma_threshold_is_excluded(t: Tree, i: nat, threshold: nat)
    requires
        total_size(t, i as int) == threshold,
    ensures
        !is_small_dir(t, i as int, threshold),
        small_dirs_total(t, threshold, i + 1) == small_dirs_total(t, threshold, i),
{
}

/// A directory whose total equals the deficit frees enough: the bound is not
/// strict. Its total is then the answer, since no directory that frees enough
/// is smaller.
pub proof fn lemma_deficit_is_included(t: Tree, i: int, capacity: nat, required_free: nat)
    requires
        0 <= i < t.len(),
        t[i].data.is_dir,
        total_size(t, i) == deficit(t, capacity, required_free),
    ensures
        frees_enough(t, i, capacity, required_free),
        smallest_to_free(t, capacity, required_free, t.len()) == Some(total_size(t, i)),
{
    lemma_smallest_to_free(t, capacity, required_free, t.len());
    assert(frees_enough(t, i, capacity, required_free));
    match smallest_to_free(t, capacity, required_free, t.len()) {
        Some(m) => {
            let j = choose|j: int|
                0 <= j < t.len() && frees_enough(t, j, capacity, required_free) && total_size(
                    t,
                    j,
                ) == m;
            assert(m <= total_size(t, i));
            assert(total_size(t, j) >= deficit(t, capacity, required_free));
        },
        None => {},
    }
}

/// Where the device is at least as large as the room asked for, the root
/// frees enough, so that the query has an answer.
pub proof fn lemma_root_frees_enough(t: Tree, capacity: nat, required_free: nat)
    requires
        t.len() > 0,
        t[0].data.is_dir,
        required_free <= capacity,
    ensures
        frees_enough(t, 0, capacity, required_free),
        smallest_to_free(t, capacity, required_free, t.len()) is Some,
{
    lemma_smallest_to_free(t, capacity, required_free, t.len());
    assert(frees_enough(t, 0, capacity, required_free));
}

/// Every accepted trace has a directory to remove: the device is larger than
/// the room that the update needs, so the root at least frees enough.
pub proof fn lemma_room_is_found(input: Seq<u8>)
    ensures
        trace_tree(input) matches Ok(t) ==> smallest_to_free(
            t,
            CAPACITY as nat,
            REQUIRED_FREE as nat,
            t.len(),
        ) is Some,
{
    lemma_trace_tree_well_formed(input);
    match trace_tree(input) {
        Ok(t) => {
            lemma_one_root(t, 0);
            lemma_root_frees_enough(t, CAPACITY as nat, REQUIRED_FREE as nat);
        },
        Err(_) => {},
    }
}

/// The sum of the small directories is a function of the tree and the
/// threshold: two answers for the same tree are the same.
pub proof fn lemma_bounded_size_sum_repeats(t: Tree, threshold: nat, first: u128, second: u128)
    requires
        first == small_dirs_total(t, threshold, t.len()),
        second == small_dirs_total(t, threshold, t.len()),
    ensures
        first == second,
{
}

} // verus!
