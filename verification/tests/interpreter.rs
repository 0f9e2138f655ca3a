use dirtrace::{
    parse_instructions, parse_line, part_one, part_two, Interpreter, Line, NodeId, TraceError,
};

fn parse_error(line: &str) -> Result<(), TraceError> {
    Err(TraceError::ParseError(line.as_bytes().to_vec()))
}

fn outcome(trace: &str) -> Result<(), TraceError> {
    parse_instructions(trace).map(|_| ())
}

#[test]
fn empty_trace_gives_the_root_alone() {
    let tree = parse_instructions("").unwrap();
    let ids = tree.get_ids();
    assert_eq!(ids.len(), 1);
    let root = tree.get(ids[0]);
    assert_eq!(root.name, b"/".to_vec());
    assert!(root.is_dir);
    assert_eq!(root.size, None);
    assert!(tree.get_parent(ids[0]).is_none());
    assert!(tree.get_children(ids[0]).is_empty());
    assert_eq!(tree.get_size(ids[0]), 0);
}

#[test]
fn cd_up_at_the_root_is_malformed() {
    assert_eq!(outcome("$ cd /\n$ cd ..\n"), Err(TraceError::MalformedTrace));
    assert_eq!(outcome("$ cd ..\n"), Err(TraceError::MalformedTrace));
}

#[test]
fn cd_up_once_too_often_is_malformed() {
    let trace = "$ cd /\n$ ls\ndir a\n$ cd a\n$ cd ..\n$ cd ..\n";
    assert_eq!(outcome(trace), Err(TraceError::MalformedTrace));
    assert_eq!(part_one(trace), None);
    assert_eq!(part_two(trace), None);
}

#[test]
fn cd_to_an_unlisted_name_is_malformed() {
    assert_eq!(outcome("$ cd /\n$ cd a\n"), Err(TraceError::MalformedTrace));
    assert_eq!(outcome("$ cd /\n$ ls\ndir a\n$ cd b\n"), Err(TraceError::MalformedTrace));
    assert_eq!(outcome("$ cd /\n$ ls\ndir a\n$ cd a\n$ cd a\n"), Err(TraceError::MalformedTrace));
}

#[test]
fn cd_to_a_file_is_malformed() {
    assert_eq!(outcome("$ cd /\n$ ls\n12 f\n$ cd f\n"), Err(TraceError::MalformedTrace));
}

#[test]
fn entry_outside_a_listing_is_malformed() {
    assert_eq!(outcome("dir a\n"), Err(TraceError::MalformedTrace));
    assert_eq!(outcome("$ cd /\n12 f\n"), Err(TraceError::MalformedTrace));
    assert_eq!(
        outcome("$ cd /\n$ ls\ndir a\n$ cd a\n12 f\n"),
        Err(TraceError::MalformedTrace)
    );
}

#[test]
fn bad_sizes_are_parse_errors() {
    assert_eq!(outcome("$ ls\n12x f\n"), parse_error("12x f"));
    assert_eq!(outcome("$ ls\n-5 f\n"), parse_error("-5 f"));
    assert_eq!(outcome("$ ls\n f\n"), parse_error(" f"));
    assert_eq!(outcome("$ ls\n+ f\n"), parse_error("+ f"));
    assert_eq!(outcome("$ ls\n1.5 f\n"), parse_error("1.5 f"));
    assert_eq!(outcome("$ ls\nDIR f\n"), parse_error("DIR f"));
    assert_eq!(
        outcome("$ ls\n340282366920938463463374607431768211456 f\n"),
        parse_error("340282366920938463463374607431768211456 f")
    );
}

#[test]
fn size_limit_is_the_machine_word() {
    let largest = format!("$ ls\n{} f\n", usize::MAX);
    let tree = parse_instructions(&largest).unwrap();
    assert_eq!(tree.get(NodeId::new(1)).size, Some(usize::MAX));
    let beyond = format!("{} f", usize::MAX as u128 + 1);
    assert_eq!(outcome(&format!("$ ls\n{}\n", beyond)), parse_error(&beyond));
}

#[test]
fn entries_without_a_space_are_parse_errors() {
    assert_eq!(outcome("$ ls\ndir\n"), parse_error("dir"));
    assert_eq!(outcome("$ ls\n12\n"), parse_error("12"));
    assert_eq!(outcome("$ ls\ndir\ta\n"), parse_error("dir\ta"));
}

#[test]
fn bad_commands_are_parse_errors() {
    assert_eq!(outcome("$\n"), parse_error("$"));
    assert_eq!(outcome("$ cd\n"), parse_error("$ cd"));
    assert_eq!(outcome("$ cd a b\n"), parse_error("$ cd a b"));
    assert_eq!(outcome("$ ls -l\n"), parse_error("$ ls -l"));
    assert_eq!(outcome("$ rm a\n"), parse_error("$ rm a"));
    assert_eq!(outcome("$ pwd\n"), parse_error("$ pwd"));
    assert_eq!(outcome("$ ls cd x\n"), parse_error("$ ls cd x"));
}

#[test]
fn lines_of_blanks_are_parse_errors() {
    assert_eq!(outcome("   \n"), parse_error("   "));
    assert_eq!(outcome("$ ls\n\t\n"), parse_error("\t"));
}

#[test]
fn unreadable_line_outside_a_listing_is_a_parse_error() {
    assert_eq!(outcome("12x f\n"), parse_error("12x f"));
}

#[test]
fn first_bad_line_decides() {
    assert_eq!(outcome("$ cd ..\n$ bad\n"), Err(TraceError::MalformedTrace));
    assert_eq!(outcome("$ bad\n$ cd ..\n"), parse_error("$ bad"));
    assert_eq!(outcome("$ ls\nx y\n$ worse\n"), parse_error("x y"));
}

#[test]
fn nothing_is_built_from_a_bad_trace() {
    let trace = "$ cd /\n$ ls\n5 f\ndir a\n$ cd b\n";
    assert!(parse_instructions(trace).is_err());
    assert_eq!(part_one(trace), None);
    assert_eq!(part_two(trace), None);
}

#[test]
fn size_may_carry_a_plus_sign_and_leading_zeros() {
    let tree = parse_instructions("$ ls\n+12 f\n007 g\n0 h\n").unwrap();
    assert_eq!(tree.get(NodeId::new(1)).size, Some(12));
    assert_eq!(tree.get(NodeId::new(2)).size, Some(7));
    assert_eq!(tree.get(NodeId::new(3)).size, Some(0));
    assert_eq!(tree.get_size(NodeId::new(0)), 19);
}

#[test]
fn name_is_the_rest_of_the_line() {
    let tree = parse_instructions("$ ls\ndir my dir\n12  f\n3 \n").unwrap();
    assert_eq!(tree.get(NodeId::new(1)).name, b"my dir".to_vec());
    assert!(tree.get(NodeId::new(1)).is_dir);
    assert_eq!(tree.get(NodeId::new(2)).name, b" f".to_vec());
    assert_eq!(tree.get(NodeId::new(2)).size, Some(12));
    assert_eq!(tree.get(NodeId::new(3)).name, b"".to_vec());
    assert_eq!(tree.get(NodeId::new(3)).size, Some(3));
}

#[test]
fn names_beyond_ascii_pass_through() {
    let trace = "$ ls\ndir caf\u{e9}\n$ cd caf\u{e9}\n$ ls\n4 \u{2603}\n";
    let tree = parse_instructions(trace).unwrap();
    let root = NodeId::new(0);
    let dir = tree.find_child_by_name(root, "caf\u{e9}".as_bytes()).map(|c| c.index);
    assert_eq!(dir, Some(1));
    assert_eq!(tree.get_parent(NodeId::new(2)).map(|p| p.index), Some(1));
    assert_eq!(tree.get(NodeId::new(2)).name, "\u{2603}".as_bytes().to_vec());
    assert_eq!(tree.get_size(root), 4);
}

#[test]
fn listing_resolves_every_name_it_gave() {
    let trace = "$ cd /\n$ ls\ndir a\n$ cd a\n$ ls\ndir x\n7 y\ndir z\n";
    let tree = parse_instructions(trace).unwrap();
    let a = NodeId::new(1);
    for name in [&b"x"[..], &b"y"[..], &b"z"[..]] {
        let child = tree.find_child_by_name(a, name).unwrap();
        assert_eq!(tree.get_parent(child).map(|p| p.index), Some(a.index));
        assert_eq!(tree.get(child).name, name.to_vec());
    }
    assert!(tree.find_child_by_name(a, b"a").is_none());
    assert!(tree.find_child_by_name(a, b"w").is_none());
    assert_eq!(tree.get_children(a).len(), 3);
    assert!(tree.find_child_by_name(NodeId::new(0), b"x").is_none());
}

#[test]
fn listing_a_directory_again_changes_nothing() {
    let once = "$ cd /\n$ ls\ndir a\n5 f\n";
    let twice = "$ cd /\n$ ls\ndir a\n5 f\n$ ls\ndir a\n5 f\n";
    let first = parse_instructions(once).unwrap();
    let second = parse_instructions(twice).unwrap();
    assert_eq!(first.get_ids().len(), 3);
    assert_eq!(second.get_ids().len(), 3);
    assert_eq!(second.get_size(NodeId::new(0)), 5);
    assert_eq!(part_one(once), part_one(twice));
}

#[test]
fn entry_with_a_name_already_held_is_passed_over() {
    let tree = parse_instructions("$ ls\n5 f\n9 f\ndir f\ndir g\n1 g\n").unwrap();
    assert_eq!(tree.get_ids().len(), 3);
    assert_eq!(tree.get(NodeId::new(1)).size, Some(5));
    assert!(tree.get(NodeId::new(2)).is_dir);
    assert_eq!(tree.get_size(NodeId::new(0)), 5);
}

#[test]
fn cd_to_the_root_leads_back_from_anywhere() {
    let trace = "$ cd /\n$ ls\ndir a\n$ cd a\n$ ls\ndir b\n$ cd b\n$ cd /\n$ ls\n5 f\n";
    let tree = parse_instructions(trace).unwrap();
    let f = tree.find_child_by_name(NodeId::new(0), b"f").unwrap();
    assert_eq!(tree.get_parent(f).map(|p| p.index), Some(0));
}

#[test]
fn same_name_under_different_directories() {
    let trace = "$ ls\ndir a\ndir b\n$ cd a\n$ ls\n1 x\n$ cd ..\n$ cd b\n$ ls\n2 x\n";
    let tree = parse_instructions(trace).unwrap();
    assert_eq!(tree.get_ids().len(), 5);
    assert_eq!(tree.get_size(NodeId::new(1)), 1);
    assert_eq!(tree.get_size(NodeId::new(2)), 2);
    assert_eq!(tree.get_size(NodeId::new(0)), 3);
}

#[test]
fn words_of_a_command_may_be_spread_out() {
    let tree = parse_instructions("  $   ls  \ndir a\n\t$\tcd\ta\t\n$ ls\n3 f\n").unwrap();
    assert_eq!(tree.get_parent(NodeId::new(2)).map(|p| p.index), Some(1));
}

#[test]
fn carriage_return_belongs_to_the_line_ending() {
    let tree = parse_instructions("$ ls\r\ndir a\r\n5 f\r\n").unwrap();
    assert_eq!(tree.get(NodeId::new(1)).name, b"a".to_vec());
    assert_eq!(tree.get(NodeId::new(2)).name, b"f".to_vec());
}

#[test]
fn carriage_return_elsewhere_stays_in_the_line() {
    let tree = parse_instructions("$ ls\ndir a\rb\n").unwrap();
    assert_eq!(tree.get(NodeId::new(1)).name, b"a\rb".to_vec());
    let tree = parse_instructions("$ ls\ndir a\r").unwrap();
    assert_eq!(tree.get(NodeId::new(1)).name, b"a\r".to_vec());
    let tree = parse_instructions("$ ls\ndir a\r\r\n").unwrap();
    assert_eq!(tree.get(NodeId::new(1)).name, b"a\r".to_vec());
}

#[test]
fn parse_line_reads_each_kind_of_line() {
    assert_eq!(parse_line(b"$ ls"), Some(Line::List));
    assert_eq!(parse_line(b"$ cd /"), Some(Line::ChangeDir(b"/")));
    assert_eq!(parse_line(b"$ cd .."), Some(Line::ChangeDir(b"..")));
    assert_eq!(parse_line(b"$ cd abc"), Some(Line::ChangeDir(b"abc")));
    assert_eq!(parse_line(b"dir abc"), Some(Line::Dir(b"abc")));
    assert_eq!(parse_line(b"123 abc.txt"), Some(Line::File(b"abc.txt", 123)));
    assert_eq!(parse_line(b"dir $"), Some(Line::Dir(b"$")));
    assert_eq!(parse_line(b"1 $ ls"), Some(Line::File(b"$ ls", 1)));
}

#[test]
fn parse_line_refuses_what_is_neither_command_nor_entry() {
    assert_eq!(parse_line(b""), None);
    assert_eq!(parse_line(b" "), None);
    assert_eq!(parse_line(b"$"), None);
    assert_eq!(parse_line(b"$ls"), None);
    assert_eq!(parse_line(b"$ cd"), None);
    assert_eq!(parse_line(b"$ dir a"), None);
    assert_eq!(parse_line(b"$ 12 a"), None);
    assert_eq!(parse_line(b"abc"), None);
    assert_eq!(parse_line(b"abc def"), None);
    assert_eq!(parse_line(b" dir a"), None);
    assert_eq!(parse_line(b"dir"), None);
}

#[test]
fn interpreter_starts_at_the_root() {
    let interpreter = Interpreter::new();
    assert_eq!(interpreter.cursor().index, 0);
    assert!(!interpreter.is_listing());
    assert_eq!(interpreter.arena().get_ids().len(), 1);
}

#[test]
fn interpreter_follows_the_commands() {
    let mut interpreter = Interpreter::new();
    assert_eq!(interpreter.apply(&Line::List), Ok(()));
    assert!(interpreter.is_listing());
    assert_eq!(interpreter.apply(&Line::Dir(b"a")), Ok(()));
    assert_eq!(interpreter.apply(&Line::File(b"f", 5)), Ok(()));
    assert!(interpreter.is_listing());
    assert_eq!(interpreter.cursor().index, 0);
    assert_eq!(interpreter.apply(&Line::ChangeDir(b"a")), Ok(()));
    assert_eq!(interpreter.cursor().index, 1);
    assert!(!interpreter.is_listing());
    assert_eq!(interpreter.apply(&Line::ChangeDir(b"..")), Ok(()));
    assert_eq!(interpreter.cursor().index, 0);
    assert_eq!(interpreter.apply(&Line::ChangeDir(b"a")), Ok(()));
    assert_eq!(interpreter.apply(&Line::ChangeDir(b"/")), Ok(()));
    assert_eq!(interpreter.cursor().index, 0);
    let tree = interpreter.into_arena();
    assert_eq!(tree.get_ids().len(), 3);
    assert_eq!(tree.get_size(NodeId::new(0)), 5);
}

#[test]
fn interpreter_stays_as_it_was_on_a_refused_line() {
    let mut interpreter = Interpreter::new();
    assert_eq!(interpreter.apply(&Line::Dir(b"a")), Err(TraceError::MalformedTrace));
    assert_eq!(interpreter.apply(&Line::File(b"f", 1)), Err(TraceError::MalformedTrace));
    assert_eq!(interpreter.apply(&Line::ChangeDir(b"..")), Err(TraceError::MalformedTrace));
    assert_eq!(interpreter.apply(&Line::ChangeDir(b"a")), Err(TraceError::MalformedTrace));
    assert_eq!(interpreter.cursor().index, 0);
    assert!(!interpreter.is_listing());
    assert_eq!(interpreter.arena().get_ids().len(), 1);
    assert_eq!(interpreter.apply(&Line::List), Ok(()));
    assert_eq!(interpreter.apply(&Line::ChangeDir(b"a")), Err(TraceError::MalformedTrace));
    assert!(interpreter.is_listing());
}

#[test]
fn a_command_ends_the_listing() {
    let mut interpreter = Interpreter::new();
    assert_eq!(interpreter.apply(&Line::List), Ok(()));
    assert_eq!(interpreter.apply(&Line::ChangeDir(b"/")), Ok(()));
    assert!(!interpreter.is_listing());
    assert_eq!(interpreter.apply(&Line::File(b"f", 1)), Err(TraceError::MalformedTrace));
}
