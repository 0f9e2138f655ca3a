use dirtrace::{
    bounded_size_sum, min_to_free, parse_instructions, part_one, part_two, Arena, NodeId, Obj,
    QueryError,
};

fn dir(name: &[u8]) -> Obj {
    Obj { name: name.to_vec(), is_dir: true, size: None }
}

fn file(name: &[u8], size: usize) -> Obj {
    Obj { name: name.to_vec(), is_dir: false, size: Some(size) }
}

/// `/` (total 60) holds `a` (total 30), which holds `b` (total 10) and a file
/// of 20; `/` also holds a file of 30.
fn nested() -> Arena {
    let mut arena = Arena::new();
    let root = arena.add(dir(b"/"), None);
    let a = arena.add(dir(b"a"), Some(root));
    let b = arena.add(dir(b"b"), Some(a));
    arena.add(file(b"x", 10), Some(b));
    arena.add(file(b"y", 20), Some(a));
    arena.add(file(b"z", 30), Some(root));
    arena
}

#[test]
fn nested_totals() {
    let arena = nested();
    assert_eq!(arena.get_size(NodeId::new(0)), 60);
    assert_eq!(arena.get_size(NodeId::new(1)), 30);
    assert_eq!(arena.get_size(NodeId::new(2)), 10);
}

#[test]
fn bounded_sum_counts_nested_directories_again() {
    let arena = nested();
    assert_eq!(bounded_size_sum(&arena, 1000), 60 + 30 + 10);
    assert_eq!(bounded_size_sum(&arena, 50), 30 + 10);
    assert_eq!(bounded_size_sum(&arena, 20), 10);
    assert_eq!(bounded_size_sum(&arena, 5), 0);
    assert_eq!(bounded_size_sum(&arena, 0), 0);
}

#[test]
fn bounded_sum_leaves_files_out() {
    let mut arena = Arena::new();
    let root = arena.add(dir(b"/"), None);
    arena.add(file(b"small", 1), Some(root));
    arena.add(file(b"large", 1000), Some(root));
    assert_eq!(bounded_size_sum(&arena, 10), 0);
    assert_eq!(bounded_size_sum(&arena, 1002), 1001);
}

#[test]
fn bounded_sum_excludes_the_threshold_itself() {
    let arena = nested();
    assert_eq!(bounded_size_sum(&arena, 10), 0);
    assert_eq!(bounded_size_sum(&arena, 11), 10);
    assert_eq!(bounded_size_sum(&arena, 30), 10);
    assert_eq!(bounded_size_sum(&arena, 31), 40);
    assert_eq!(bounded_size_sum(&arena, 60), 40);
    assert_eq!(bounded_size_sum(&arena, 61), 100);
}

#[test]
fn bounded_sum_counts_empty_directories_as_nothing() {
    let mut arena = Arena::new();
    let root = arena.add(dir(b"/"), None);
    arena.add(dir(b"a"), Some(root));
    arena.add(dir(b"b"), Some(root));
    assert_eq!(bounded_size_sum(&arena, 1), 0);
    assert_eq!(bounded_size_sum(&arena, 0), 0);
}

#[test]
fn bounded_sum_asked_twice_is_the_same() {
    let arena = nested();
    let first = bounded_size_sum(&arena, 50);
    let second = bounded_size_sum(&arena, 50);
    assert_eq!(first, second);
    let tree = parse_instructions("$ ls\ndir a\n5 f\n$ cd a\n$ ls\n7 g\n").unwrap();
    assert_eq!(bounded_size_sum(&tree, 100), bounded_size_sum(&tree, 100));
    assert_eq!(bounded_size_sum(&tree, 100), 19);
}

#[test]
fn bounded_sum_may_exceed_a_machine_word() {
    let mut arena = Arena::new();
    let root = arena.add(dir(b"/"), None);
    let a = arena.add(dir(b"a"), Some(root));
    let b = arena.add(dir(b"b"), Some(a));
    arena.add(file(b"x", usize::MAX - 1), Some(b));
    assert_eq!(bounded_size_sum(&arena, usize::MAX), 3 * (usize::MAX as u128 - 1));
}

#[test]
fn bounded_sum_of_a_store_without_nodes() {
    let arena = Arena::new();
    assert_eq!(bounded_size_sum(&arena, 100), 0);
}

#[test]
fn min_to_free_picks_the_smallest_that_frees_enough() {
    let arena = nested();
    // used 60 of 100, 55 wanted free: 15 to be freed.
    assert_eq!(min_to_free(&arena, 100, 55), Ok(30));
    // 5 to be freed.
    assert_eq!(min_to_free(&arena, 100, 45), Ok(10));
    // 35 to be freed.
    assert_eq!(min_to_free(&arena, 100, 75), Ok(60));
}

#[test]
fn min_to_free_includes_the_deficit_itself() {
    let arena = nested();
    // used 60 of 100: with 50 wanted the deficit is 10, with 51 it is 11.
    assert_eq!(min_to_free(&arena, 100, 50), Ok(10));
    assert_eq!(min_to_free(&arena, 100, 51), Ok(30));
    // deficit 30 and 31.
    assert_eq!(min_to_free(&arena, 100, 70), Ok(30));
    assert_eq!(min_to_free(&arena, 100, 71), Ok(60));
    // deficit 60: the root itself.
    assert_eq!(min_to_free(&arena, 100, 100), Ok(60));
}

#[test]
fn min_to_free_reports_that_no_directory_is_large_enough() {
    let arena = nested();
    // deficit 61 with a root of 60.
    assert_eq!(min_to_free(&arena, 100, 101), Err(QueryError::NoQualifyingDirectory));
    assert_eq!(min_to_free(&arena, 0, 1), Err(QueryError::NoQualifyingDirectory));
    assert_eq!(min_to_free(&arena, 10, usize::MAX), Err(QueryError::NoQualifyingDirectory));
}

#[test]
fn min_to_free_on_a_trace_where_nothing_is_large_enough() {
    let tree = parse_instructions("$ cd /\n$ ls\ndir a\n10 f\n$ cd a\n$ ls\n5 g\n").unwrap();
    assert_eq!(tree.get_size(NodeId::new(0)), 15);
    assert_eq!(min_to_free(&tree, 20, 30), Err(QueryError::NoQualifyingDirectory));
    assert_eq!(min_to_free(&tree, 20, 20), Ok(15));
}

#[test]
fn min_to_free_where_the_room_is_there_already() {
    let arena = nested();
    // used 60 of 100: 40 are free.
    assert_eq!(min_to_free(&arena, 100, 40), Ok(10));
    assert_eq!(min_to_free(&arena, 100, 0), Ok(10));
    assert_eq!(min_to_free(&arena, 1000, 1), Ok(10));
    let mut with_empty = nested();
    with_empty.add(dir(b"empty"), Some(NodeId::new(0)));
    assert_eq!(min_to_free(&with_empty, 100, 40), Ok(0));
}

#[test]
fn min_to_free_where_more_is_used_than_the_device_holds() {
    let arena = nested();
    // used 60 of 50: the deficit is 10 more than what is wanted.
    assert_eq!(min_to_free(&arena, 50, 0), Ok(10));
    assert_eq!(min_to_free(&arena, 50, 20), Ok(30));
    assert_eq!(min_to_free(&arena, 50, 50), Ok(60));
    assert_eq!(min_to_free(&arena, 50, 51), Err(QueryError::NoQualifyingDirectory));
}

#[test]
fn min_to_free_leaves_files_out() {
    let mut arena = Arena::new();
    let root = arena.add(dir(b"/"), None);
    arena.add(file(b"big", 50), Some(root));
    let a = arena.add(dir(b"a"), Some(root));
    arena.add(file(b"y", 60), Some(a));
    // used 110 of 100, 40 wanted: 50 to be freed; the file of 50 is no candidate.
    assert_eq!(min_to_free(&arena, 100, 40), Ok(60));
}

#[test]
fn min_to_free_of_a_store_without_nodes() {
    let arena = Arena::new();
    assert_eq!(min_to_free(&arena, 100, 10), Err(QueryError::NoQualifyingDirectory));
    assert_eq!(min_to_free(&arena, 100, 0), Err(QueryError::NoQualifyingDirectory));
}

#[test]
fn min_to_free_with_the_largest_arguments() {
    let mut arena = Arena::new();
    let root = arena.add(dir(b"/"), None);
    arena.add(file(b"a", usize::MAX), Some(root));
    arena.add(file(b"b", usize::MAX), Some(root));
    assert_eq!(min_to_free(&arena, usize::MAX, usize::MAX), Ok(2 * (usize::MAX as u128)));
    assert_eq!(min_to_free(&arena, 0, usize::MAX), Err(QueryError::NoQualifyingDirectory));
}

#[test]
fn part_one_sums_directories_below_one_hundred_thousand() {
    assert_eq!(part_one(""), Some(0));
    assert_eq!(part_one("$ ls\n99999 f\n"), Some(99999));
    assert_eq!(part_one("$ ls\n100000 f\n"), Some(0));
    assert_eq!(part_one("$ ls\ndir a\n$ cd a\n$ ls\n99999 f\n"), Some(2 * 99999));
    assert_eq!(part_one("$ ls\ndir a\n1 g\n$ cd a\n$ ls\n99999 f\n"), Some(99999));
}

#[test]
fn part_two_frees_thirty_of_seventy_million() {
    assert_eq!(part_two(""), Some(0));
    assert_eq!(part_two("$ ls\n40000000 f\n"), Some(40000000));
    assert_eq!(part_two("$ ls\ndir a\n40000000 f\n$ cd a\n$ ls\n1 g\n"), Some(1));
    assert_eq!(part_two("$ ls\ndir a\n40000000 f\n$ cd a\n$ ls\n2 g\n"), Some(2));
    assert_eq!(
        part_two("$ ls\ndir a\ndir b\n40000000 f\n$ cd a\n$ ls\n5 g\n$ cd ..\n$ cd b\n$ ls\n4 h\n"),
        Some(40000009)
    );
    assert_eq!(
        part_two("$ ls\ndir a\n40000000 f\n$ cd a\n$ ls\ndir b\n9 g\n$ cd b\n$ ls\n10 h\n"),
        Some(19)
    );
}

#[test]
fn part_one_and_part_two_refuse_a_bad_trace() {
    assert_eq!(part_one("$ cd ..\n"), None);
    assert_eq!(part_two("$ cd ..\n"), None);
    assert_eq!(part_one("$ ls\nx y\n"), None);
    assert_eq!(part_two("$ ls\nx y\n"), None);
    assert_eq!(part_one("12 f\n"), None);
    assert_eq!(part_two("12 f\n"), None);
}
