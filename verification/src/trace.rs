//! The trace interpreter: reads a recorded terminal session line by line and
//! builds the tree that the session walked through.
//!
//! A command line starts with the word `$`, followed by `ls`, or by `cd` and
//! one word: `/` for the root, `..` for the parent, anything else for the
//! child of that name. Any other line is an entry of a listing: `dir`, one
//! space and a name, or a size, one space and a name. Entries are accepted
//! only between an `ls` and the next command. An entry whose name the
//! directory already holds is passed over, so that listing a directory twice
//! leaves the tree as it was.

use crate::arena::{link, Arena, NodeId, Obj};
use crate::text::{
    bytes_equal, find_byte, index_of, lines, lines_from, next_line, parse_size, parse_usize,
    split_words, words, SPACE,
};
use crate::tree::{
    find_child, lemma_add_well_formed, lemma_find_child, lemma_find_child_after_add, node_ok,
    tree_add, well_formed, NodeView, ObjView, Tree,
};
use vstd::prelude::*;
use vstd::slice::{slice_subrange, slice_to_vec};
use vstd::string::StringSliceAdditionalSpecFns;

verus! {

/// The word that marks a command line: `$`.
pub open spec fn marker_word() -> Seq<u8> {
    seq![0x24u8]
}

/// The command that changes the directory: `cd`.
pub open spec fn cd_word() -> Seq<u8> {
    seq![0x63u8, 0x64u8]
}

/// The command that lists the directory: `ls`.
pub open spec fn ls_word() -> Seq<u8> {
    seq![0x6cu8, 0x73u8]
}

/// The first field of the entry of a directory: `dir`.
pub open spec fn dir_word() -> Seq<u8> {
    seq![0x64u8, 0x69u8, 0x72u8]
}

/// The name of the root, and the target that leads back to it: `/`.
pub open spec fn root_name() -> Seq<u8> {
    seq![0x2fu8]
}

/// The target that leads to the parent: `..`.
pub open spec fn parent_name() -> Seq<u8> {
    seq![0x2eu8, 0x2eu8]
}

/// Why a trace was refused.
#[derive(Debug, PartialEq, Eq)]
pub enum TraceError {
    /// The trace asks for something that the tree built so far does not
    /// allow: a `cd` to a name that the directory does not hold or that is
    /// a file, a `cd ..` at the root, or an entry outside a listing.
    MalformedTrace,
    /// A line is neither a command nor an entry; it is handed back.
    ParseError(Vec<u8>),
}

/// Mathematical value of a [`TraceError`].
pub enum TraceErrorView {
    MalformedTrace,
    ParseError(Seq<u8>),
}

impl View for TraceError {
    type V = TraceErrorView;

    open spec fn view(&self) -> TraceErrorView {
        match self {
            TraceError::MalformedTrace => TraceErrorView::MalformedTrace,
            TraceError::ParseError(line) => TraceErrorView::ParseError(line@),
        }
    }
}

/// A line of the trace, read.
#[derive(Debug, Clone, Copy, PartialEq, Eq)]
pub enum Line<'a> {
    /// The command `cd` with its target.
    ChangeDir(&'a [u8]),
    /// The command `ls`.
    List,
    /// The entry of a directory, with its name.
    Dir(&'a [u8]),
    /// The entry of a file, with its name and its size.
    File(&'a [u8], usize),
}

/// Mathematical value of a [`Line`].
pub enum LineView {
    ChangeDir(Seq<u8>),
    List,
    Dir(Seq<u8>),
    File(Seq<u8>, nat),
}

impl LineView {
    /// Whether the line is an entry of a listing.
    pub open spec fn is_entry(self) -> bool {
        self is Dir || self is File
    }

    /// The name that the line gives: the target of a `cd`, the name of an
    /// entry, nothing for an `ls`.
    pub open spec fn name(self) -> Seq<u8> {
        match self {
            LineView::ChangeDir(target) => target,
            LineView::List => Seq::empty(),
            LineView::Dir(name) => name,
            LineView::File(name, _) => name,
        }
    }
}

impl<'a> View for Line<'a> {
    type V = LineView;

    open spec fn view(&self) -> LineView {
        match self {
            Line::ChangeDir(target) => LineView::ChangeDir(target@),
            Line::List => LineView::List,
            Line::Dir(name) => LineView::Dir(name@),
            Line::File(name, size) => LineView::File(name@, *size as nat),
        }
    }
}

/// What a command line says, given its words.
pub open spec fn command_meaning(w: Seq<Seq<u8>>) -> Option<LineView> {
    if w.len() == 2 && w[1] == ls_word() {
        Some(LineView::List)
    } else if w.len() == 3 && w[1] == cd_word() {
        Some(LineView::ChangeDir(w[2]))
    } else {
        None
    }
}

/// What an entry line says: the field before the first space is `dir` or a
/// size, the rest of the line is the name.
pub open spec fn entry_meaning(line: Seq<u8>) -> Option<LineView> {
    let cut = index_of(line, SPACE, 0);
    if 0 <= cut < line.len() {
        let field = line.take(cut);
        let name = line.skip(cut + 1);
        if field == dir_word() {
            Some(LineView::Dir(name))
        } else {
            match parse_size(field) {
                Some(size) => Some(LineView::File(name, size)),
                None => None,
            }
        }
    } else {
        None
    }
}

/// What a line says, or `None` where it is neither a command nor an entry.
pub open spec fn line_meaning(line: Seq<u8>) -> Option<LineView> {
    let w = words(line);
    if w.len() == 0 {
        None
    } else if w[0] == marker_word() {
        command_meaning(w)
    } else {
        entry_meaning(line)
    }
}

/// Reads one line.
pub fn parse_line<'a>(line: &'a [u8]) -> (read: Option<Line<'a>>)
    ensures
        match read {
            Some(l) => line_meaning(line@) == Some(l@),
            None => line_meaning(line@) is None,
        },
{
    let marker: [u8; 1] = [0x24];
    let ls: [u8; 2] = [0x6c, 0x73];
    let cd: [u8; 2] = [0x63, 0x64];
    let dir: [u8; 3] = [0x64, 0x69, 0x72];
    proof {
        assert(marker@ =~= marker_word());
        assert(ls@ =~= ls_word());
        assert(cd@ =~= cd_word());
        assert(dir@ =~= dir_word());
    }
    let w = split_words(line);
    if w.len() == 0 {
        return None;
    }
    if bytes_equal(w[0], marker.as_slice()) {
        if w.len() == 2 {
            if bytes_equal(w[1], ls.as_slice()) {
                return Some(Line::List);
            }
        } else if w.len() == 3 {
            if bytes_equal(w[1], cd.as_slice()) {
                return Some(Line::ChangeDir(w[2]));
            }
        }
        return None;
    }
    let cut = find_byte(line, SPACE, 0);
    if cut >= line.len() {
        return None;
    }
    let field = slice_subrange(line, 0, cut);
    let name = slice_subrange(line, cut + 1, line.len());
    if bytes_equal(field, dir.as_slice()) {
        return Some(Line::Dir(name));
    }
    match parse_usize(field) {
        Some(size) => Some(Line::File(name, size)),
        None => None,
    }
}

/// Mathematical value of the interpreter: the tree built so far, the
/// directory it stands in, and whether it is reading a listing.
pub struct StateView {
    pub tree: Tree,
    pub cursor: int,
    pub listing: bool,
}

/// A directory of the given name.
pub open spec fn dir_obj(name: Seq<u8>) -> ObjView {
    ObjView { name, is_dir: true, size: None }
}

/// A file of the given name and size.
pub open spec fn file_obj(name: Seq<u8>, size: nat) -> ObjView {
    ObjView { name, is_dir: false, size: Some(size) }
}

/// The state before the first line: the root alone, the cursor on it, no
/// listing under way.
pub open spec fn initial_state() -> StateView {
    StateView {
        tree: tree_add(Seq::empty(), dir_obj(root_name()), None),
        cursor: 0,
        listing: false,
    }
}

/// What holds of every state that the interpreter reaches: the tree is well
/// formed and the cursor stands on one of its directories.
pub open spec fn state_ok(st: StateView) -> bool {
    &&& well_formed(st.tree)
    &&& 0 <= st.cursor < st.tree.len()
    &&& st.tree[st.cursor].data.is_dir
}

/// Where a `cd` leads from the state `st`; `None` where it leads nowhere.
pub open spec fn cd_target(st: StateView, target: Seq<u8>) -> Option<int> {
    if target == root_name() {
        Some(0)
    } else if target == parent_name() {
        st.tree[st.cursor].parent
    } else {
        match find_child(st.tree, st.cursor, target) {
            Some(c) => if st.tree[c].data.is_dir {
                Some(c)
            } else {
                None
            },
            None => None,
        }
    }
}

/// The state after an entry that describes `obj`, or `None` where no listing
/// is under way. An entry whose name the directory already holds changes
/// nothing.
pub open spec fn after_entry(st: StateView, obj: ObjView) -> Option<StateView> {
    if !st.listing {
        None
    } else if find_child(st.tree, st.cursor, obj.name) is Some {
        Some(st)
    } else {
        Some(StateView { tree: tree_add(st.tree, obj, Some(st.cursor)), ..st })
    }
}

/// The state after one line, or `None` where the trace is malformed.
pub open spec fn next_state(st: StateView, line: LineView) -> Option<StateView> {
    match line {
        LineView::List => Some(StateView { listing: true, ..st }),
        LineView::ChangeDir(target) => match cd_target(st, target) {
            Some(c) => Some(StateView { cursor: c, listing: false, ..st }),
            None => None,
        },
        LineView::Dir(name) => after_entry(st, dir_obj(name)),
        LineView::File(name, size) => after_entry(st, file_obj(name, size)),
    }
}

/// The state after all of `ls`, read in order from the state `st`. Empty
/// lines are passed over. The first line that cannot be read, or that the
/// tree does not allow, ends the run with its error.
pub open spec fn final_state(st: StateView, ls: Seq<Seq<u8>>) -> Result<StateView, TraceErrorView>
    decreases ls.len(),
{
    if ls.len() == 0 {
        Ok(st)
    } else if ls[0].len() == 0 {
        final_state(st, ls.drop_first())
    } else {
        match line_meaning(ls[0]) {
            None => Err(TraceErrorView::ParseError(ls[0])),
            Some(line) => match next_state(st, line) {
                None => Err(TraceErrorView::MalformedTrace),
                Some(next) => final_state(next, ls.drop_first()),
            },
        }
    }
}

/// The tree that a trace describes, or the error of its first bad line.
pub open spec fn trace_tree(input: Seq<u8>) -> Result<Tree, TraceErrorView> {
    match final_state(initial_state(), lines(input)) {
        Ok(st) => Ok(st.tree),
        Err(e) => Err(e),
    }
}

/// The initial state is one that the interpreter may be in.
pub proof fn lemma_initial_state_ok()
    ensures
        state_ok(initial_state()),
{
    let empty = Seq::<NodeView>::empty();
    lemma_add_well_formed(empty, dir_obj(root_name()), None);
}

/// A line that the tree allows leads from one such state to another.
pub proof fn lemma_next_state_ok(st: StateView, line: LineView)
    requires
        state_ok(st),
        next_state(st, line) is Some,
    ensures
        state_ok(next_state(st, line)->0),
{
    assert(node_ok(st.tree, st.cursor));
    assert(node_ok(st.tree, 0));
    match line {
        LineView::List => {},
        LineView::ChangeDir(target) => {
            lemma_find_child(st.tree, st.cursor, target);
        },
        LineView::Dir(name) => {
            if find_child(st.tree, st.cursor, name) is None {
                lemma_add_well_formed(st.tree, dir_obj(name), Some(st.cursor));
            }
        },
        LineView::File(name, size) => {
            if find_child(st.tree, st.cursor, name) is None {
                lemma_add_well_formed(st.tree, file_obj(name, size), Some(st.cursor));
            }
        },
    }
}

/// Whatever the lines, a run that ends well ends in a state that the
/// interpreter may be in; the tree it built is well formed.
pub proof fn lemma_final_state_ok(st: StateView, ls: Seq<Seq<u8>>)
    requires
        state_ok(st),
    ensures
        final_state(st, ls) matches Ok(end) ==> state_ok(end),
    decreases ls.len(),
{
    if ls.len() > 0 {
        if ls[0].len() == 0 {
            lemma_final_state_ok(st, ls.drop_first());
        } else {
            match line_meaning(ls[0]) {
                None => {},
                Some(line) => match next_state(st, line) {
                    None => {},
                    Some(next) => {
                        lemma_next_state_ok(st, line);
                        lemma_final_state_ok(next, ls.drop_first());
                    },
                },
            }
        }
    }
}

/// The tree of an accepted trace is well formed and has its root.
pub proof fn lemma_trace_tree_well_formed(input: Seq<u8>)
    ensures
        trace_tree(input) matches Ok(t) ==> well_formed(t) && t.len() > 0,
{
    lemma_initial_state_ok();
    lemma_final_state_ok(initial_state(), lines(input));
}

/// Whether a line is an entry of a listing: not empty, and read as a
/// directory or a file.
pub open spec fn is_entry(line: Seq<u8>) -> bool {
    line.len() > 0 && line_meaning(line) is Some && line_meaning(line)->0.is_entry()
}

/// The name that an entry line gives.
pub open spec fn entry_name(line: Seq<u8>) -> Seq<u8>
    recommends
        is_entry(line),
{
    line_meaning(line)->0.name()
}

/// What one entry does to the directory under the cursor: afterwards the
/// directory holds the entry's name besides the names it held before, and no
/// others; nothing else of the state changes.
pub proof fn lemma_entry_is_found(st: StateView, line: LineView, name: Seq<u8>)
    requires
        state_ok(st),
        st.listing,
        line.is_entry(),
    ensures
        next_state(st, line) is Some,
        next_state(st, line)->0.cursor == st.cursor,
        next_state(st, line)->0.listing,
        find_child(next_state(st, line)->0.tree, st.cursor, name) is Some <==> find_child(
            st.tree,
            st.cursor,
            name,
        ) is Some || name == line.name(),
{
    if find_child(st.tree, st.cursor, line.name()) is None {
        match line {
            LineView::Dir(n) => {
                lemma_find_child_after_add(st.tree, dir_obj(n), st.cursor, st.cursor, name);
            },
            LineView::File(n, size) => {
                let obj = file_obj(n, size);
                lemma_find_child_after_add(st.tree, obj, st.cursor, st.cursor, name);
            },
            _ => {},
        }
    }
}

/// After a listing was read, the search for a child of the listed directory
/// finds exactly the names that the listing gave, besides those that the
/// directory held before, and each of them resolves to a node whose parent is
/// that directory.
pub proof fn lemma_listing_is_found(st: StateView, entries: Seq<Seq<u8>>, name: Seq<u8>)
    requires
        state_ok(st),
        st.listing,
        forall|k: int| 0 <= k < entries.len() ==> is_entry(#[trigger] entries[k]),
    ensures
        final_state(st, entries) is Ok,
        state_ok(final_state(st, entries)->Ok_0),
        final_state(st, entries)->Ok_0.cursor == st.cursor,
        final_state(st, entries)->Ok_0.listing,
        find_child(final_state(st, entries)->Ok_0.tree, st.cursor, name) is Some <==> find_child(
            st.tree,
            st.cursor,
            name,
        ) is Some || exists|k: int|
            0 <= k < entries.len() && entry_name(#[trigger] entries[k]) == name,
        match find_child(final_state(st, entries)->Ok_0.tree, st.cursor, name) {
            Some(c) => {
                let end = final_state(st, entries)->Ok_0.tree;
                0 <= c < end.len() && end[c].parent == Some(st.cursor) && end[c].data.name == name
            },
            None => true,
        },
    decreases entries.len(),
{
    if entries.len() == 0 {
        lemma_find_child(st.tree, st.cursor, name);
    } else {
        let first = entries[0];
        let rest = entries.drop_first();
        let line = line_meaning(first)->0;
        lemma_entry_is_found(st, line, name);
        lemma_next_state_ok(st, line);
        let next = next_state(st, line)->0;
        lemma_listing_is_found(next, rest, name);
        if exists|k: int| 0 <= k < entries.len() && entry_name(#[trigger] entries[k]) == name {
            let k = choose|k: int|
                0 <= k < entries.len() && entry_name(#[trigger] entries[k]) == name;
            if k > 0 {
                assert(rest[k - 1] == entries[k]);
            }
        }
        if exists|k: int| 0 <= k < rest.len() && entry_name(#[trigger] rest[k]) == name {
            let k = choose|k: int| 0 <= k < rest.len() && entry_name(#[trigger] rest[k]) == name;
            assert(entries[k + 1] == rest[k]);
        }
    }
}

/// A `cd ..` at the root is refused: the root has no parent to go to.
pub proof fn lemma_cd_up_at_root_is_malformed(st: StateView)
    requires
        state_ok(st),
        st.cursor == 0,
    ensures
        next_state(st, LineView::ChangeDir(parent_name())) is None,
{
    assert(node_ok(st.tree, 0));
}

/// The interpreter: the arena it fills, the directory it stands in, and
/// whether the lines it reads belong to a listing.
#[derive(Debug)]
pub struct Interpreter {
    arena: Arena,
    cursor: NodeId,
    listing: bool,
}

impl View for Interpreter {
    type V = StateView;

    closed spec fn view(&self) -> StateView {
        StateView { tree: self.arena@, cursor: self.cursor.index as int, listing: self.listing }
    }
}

impl Interpreter {
    /// The invariant of the interpreter, stated of its mathematical value.
    pub open spec fn wf(&self) -> bool {
        state_ok(self@)
    }

    /// An interpreter in the initial state.
    pub fn new() -> (interpreter: Self)
        ensures
            interpreter@ == initial_state(),
            interpreter.wf(),
    {
        let mut arena = Arena::new();
        let root_name: [u8; 1] = [0x2f];
        let name = slice_to_vec(root_name.as_slice());
        assert(name@ =~= self::root_name());
        let root = arena.add(Obj { name, is_dir: true, size: None }, None);
        proof {
            lemma_initial_state_ok();
        }
        Interpreter { arena, cursor: root, listing: false }
    }

    /// The directory that the interpreter stands in.
    pub fn cursor(&self) -> (cursor: NodeId)
        ensures
            cursor.index == self@.cursor,
    {
        self.cursor
    }

    /// Whether the lines that come next belong to a listing.
    pub fn is_listing(&self) -> (listing: bool)
        ensures
            listing == self@.listing,
    {
        self.listing
    }

    /// The tree built so far.
    pub fn arena(&self) -> (arena: &Arena)
        ensures
            arena@ == self@.tree,
    {
        &self.arena
    }

    /// Resolves the target of a `cd`.
    fn resolve(&self, target: &[u8]) -> (found: Option<NodeId>)
        requires
            self.wf(),
        ensures
            link(found) == cd_target(self@, target@),
    {
        let root: [u8; 1] = [0x2f];
        let up: [u8; 2] = [0x2e, 0x2e];
        proof {
            assert(root@ =~= root_name());
            assert(up@ =~= parent_name());
        }
        if bytes_equal(target, root.as_slice()) {
            Some(NodeId::new(0))
        } else if bytes_equal(target, up.as_slice()) {
            self.arena.get_parent(self.cursor)
        } else {
            match self.arena.find_child_by_name(self.cursor, target) {
                Some(child) => if self.arena.get(child).is_dir {
                    Some(child)
                } else {
                    None
                },
                None => None,
            }
        }
    }

    /// Takes one line in. Where the tree does not allow it, the interpreter
    /// stays as it was.
    pub fn apply(&mut self, line: &Line<'_>) -> (done: Result<(), TraceError>)
        requires
            old(self).wf(),
        ensures
            final(self).wf(),
            match next_state(old(self)@, line@) {
                Some(next) => done is Ok && final(self)@ == next,
                None => final(self)@ == old(self)@ && done matches Err(
                    TraceError::MalformedTrace,
                ),
            },
    {
        proof {
            if next_state(self@, line@) is Some {
                lemma_next_state_ok(self@, line@);
            }
        }
        match line {
            Line::List => {
                self.listing = true;
                Ok(())
            },
            Line::ChangeDir(target) => {
                match self.resolve(target) {
                    Some(to) => {
                        self.cursor = to;
                        self.listing = false;
                        Ok(())
                    },
                    None => Err(TraceError::MalformedTrace),
                }
            },
            Line::Dir(name) => {
                if !self.listing {
                    return Err(TraceError::MalformedTrace);
                }
                if self.arena.find_child_by_name(self.cursor, name).is_none() {
                    let obj = Obj { name: slice_to_vec(name), is_dir: true, size: None };
                    self.arena.add(obj, Some(self.cursor));
                }
                Ok(())
            },
            Line::File(name, size) => {
                if !self.listing {
                    return Err(TraceError::MalformedTrace);
                }
                if self.arena.find_child_by_name(self.cursor, name).is_none() {
                    let obj = Obj { name: slice_to_vec(name), is_dir: false, size: Some(*size) };
                    self.arena.add(obj, Some(self.cursor));
                }
                Ok(())
            },
        }
    }

    /// Hands out the tree that was built.
    pub fn into_arena(self) -> (arena: Arena)
        ensures
            arena@ == self@.tree,
    {
        self.arena
    }
}

/// Builds the tree that a trace describes. The first line that cannot be
/// read, or that the tree built so far does not allow, ends the work: no
/// partial tree is handed out.
pub fn parse_instructions(input: &str) -> (built: Result<Arena, TraceError>)
    ensures
        match trace_tree(input.spec_bytes()) {
            Ok(tree) => built matches Ok(arena) && arena@ == tree && arena.wf(),
            Err(e) => built matches Err(x) && x@ == e,
        },
{
    let bytes = input.as_bytes();
    let mut interpreter = Interpreter::new();
    let mut at: usize = 0;
    while at < bytes.len()
        invariant
            bytes@ == input.spec_bytes(),
            at <= bytes@.len(),
            interpreter.wf(),
            final_state(initial_state(), lines(bytes@)) == final_state(
                interpreter@,
                lines_from(bytes@, at as int),
            ),
        decreases bytes@.len() - at,
    {
        let (line, next) = next_line(bytes, at);
        proof {
            let rest = lines_from(bytes@, next as int);
            assert(lines_from(bytes@, at as int) == seq![line@] + rest);
            assert((seq![line@] + rest).drop_first() =~= rest);
        }
        if line.len() > 0 {
            match parse_line(line) {
                None => {
                    return Err(TraceError::ParseError(slice_to_vec(line)));
                },
                Some(read) => {
                    match interpreter.apply(&read) {
                        Err(e) => {
                            return Err(e);
                        },
                        Ok(()) => {},
                    }
                },
            }
        }
        at = next;
    }
    let arena = interpreter.into_arena();
    Ok(arena)
}

} // verus!
