use bullets::editor::{
    Clipboard, CommandState, Cursor, Editor, HandlerInput, HandlerOutput, HistoryItem, InsertState,
};
use bullets::error::Error;
use bullets::handlers::{
    command_bwe, command_d, command_hl, command_i, command_jk, command_o, command_p_shift_p,
    command_shift_a, command_shift_o, command_u, command_y, find_left_text, find_separator,
    go_to_kind, go_wrap, insert_arrow_keys, insert_backspace, insert_control_c, insert_enter,
    insert_shift_tab, insert_tab, jump_to_next_separator, lookup, new_command_map,
    new_insert_map, render_and_make_insert_output, undo_delete, Handler,
};
use bullets::raster::PixelState::{Empty, Placeholder, Text};
use bullets::raster::{Direction, Raster};
use bullets::render::{tree_render, TestWindow, Window};
use bullets::status::render_status;
use bullets::text::{same_text, with_text_at, without_char};
use bullets::tree::{IdGenerator, TraversalType, Tree};
use std::cell::Cell;
use std::collections::VecDeque;

struct Counter {
    next: Cell<i32>,
}

impl IdGenerator for Counter {
    fn gen(&self) -> i32 {
        (self.next.get(), self.next.set(self.next.get() + 1)).0
    }
}

struct Fixture {
    tree: Tree,
    win: TestWindow,
    raster: Raster,
    history: VecDeque<HistoryItem>,
    clipboard: Option<Clipboard>,
}

/// root -> [1 "ab cd ef", 2 "x" -> [3 ""], 4 "tail"], drawn on 10 lines of 16 cells:
///   "• ab cd ef      "
///   "• x             "
///   "  •             "
///   "• tail          "
fn fixture() -> Fixture {
    let mut tree = Tree::new(Box::new(Counter { next: Cell::new(1) })).unwrap();
    tree.set_active_content(String::from("ab cd ef"));
    tree.create_sibling().unwrap(); // 2
    tree.set_active_content(String::from("x"));
    tree.create_sibling().unwrap(); // 3
    tree.indent(false).unwrap();
    tree.activate(2).unwrap();
    tree.create_sibling().unwrap(); // 4
    tree.set_active_content(String::from("tail"));
    tree.activate(1).unwrap();
    let mut win = TestWindow::new((10, 16), false);
    let (raster, _) = tree_render(&mut win, tree.root_iter(), 1, 0).unwrap();
    Fixture { tree, win, raster, history: VecDeque::new(), clipboard: None }
}

fn input<'a>(
    f: &'a mut Fixture,
    key: &'a str,
    sticky_key: Option<&'a str>,
    cursor: Cursor,
) -> HandlerInput<'a, TestWindow> {
    HandlerInput {
        key,
        sticky_key,
        cursor,
        tree: &mut f.tree,
        raster: &f.raster,
        win: &mut f.win,
        clipboard: f.clipboard.as_ref(),
        history: &mut f.history,
    }
}

fn command_at(row: i32, col: i32) -> Cursor {
    Cursor::new_command((row, col))
}

fn ids(tree: &Tree) -> Vec<i32> {
    tree.root_iter().traverse(TraversalType::Level).into_iter().map(|n| n.id()).collect()
}

fn line(win: &TestWindow, row: usize) -> String {
    win.screen[row].iter().collect()
}

fn cursor_of(out: &HandlerOutput) -> Cursor {
    out.cursor.unwrap()
}

#[test]
fn find_separator_test() {
    assert_eq!(find_separator("asdf", 1, false, &[' ']), None);
    assert_eq!(find_separator("asdf", 1, true, &[' ']), None);
    assert_eq!(find_separator("as df", 3, true, &[' ']), Some(2));
    assert_eq!(find_separator("as df", 1, false, &[' ']), Some(2));
    // On the sep
    assert_eq!(find_separator("as df fff", 5, false, &[' ']), None);
    assert_eq!(find_separator("as df fff", 5, true, &[' ']), Some(2));
}

#[test]
fn find_separator_edges() {
    assert_eq!(find_separator("a b", 3, false, &[' ']), None);
    assert_eq!(find_separator(" ab", 2, true, &[' ']), None);
    assert_eq!(find_separator("a-b c", 0, false, &[' ', '-']), Some(1));
    assert_eq!(find_separator("", 0, false, &[' ']), None);
}

#[test]
fn fixture_is_drawn_as_expected() {
    let f = fixture();
    assert_eq!(line(&f.win, 0), "• ab cd ef      ");
    assert_eq!(line(&f.win, 1), "• x             ");
    assert_eq!(line(&f.win, 2), "  •             ");
    assert_eq!(line(&f.win, 3), "• tail          ");
    assert_eq!(f.raster.get((0, 2)), Some(Text { id: 1, offset: 0 }));
    assert_eq!(f.raster.get((2, 4)), Some(Placeholder(3)));
    assert_eq!(f.raster.get((9, 15)), Some(Empty));
}

#[test]
fn word_motions() {
    let mut f = fixture();
    let at = |offset: i32| command_at(0, 2 + offset);
    let out = command_bwe(input(&mut f, "w", None, at(0))).unwrap();
    assert_eq!(cursor_of(&out), at(3));
    let out = command_bwe(input(&mut f, "e", None, at(0))).unwrap();
    assert_eq!(cursor_of(&out), at(1));
    let out = command_bwe(input(&mut f, "e", None, at(1))).unwrap();
    assert_eq!(cursor_of(&out), at(4));
    let out = command_bwe(input(&mut f, "b", None, at(4))).unwrap();
    assert_eq!(cursor_of(&out), at(3));
    let out = command_bwe(input(&mut f, "b", None, at(3))).unwrap();
    assert_eq!(cursor_of(&out), at(0));
    // from the last character of a text, on into the next text
    let out = command_bwe(input(&mut f, "w", None, at(7))).unwrap();
    assert_eq!(cursor_of(&out), command_at(1, 2));
    assert_eq!(f.tree.get_active_id(), 2);
    assert_eq!(command_bwe(input(&mut f, "z", None, at(0))).err(), Some(Error::UnknownKey));
    assert_eq!(command_bwe(input(&mut f, "w", None, at(9))).err(), Some(Error::NotBrowsable));
    assert_eq!(command_bwe(input(&mut f, "w", None, command_at(99, 9))).err(), Some(Error::OutOfBounds));
}

#[test]
fn walking_over_shown_characters() {
    let f = fixture();
    let start = f.raster.browser((0, 2)).unwrap();
    assert_eq!(go_wrap(start, Direction::Right, 0).unwrap().pos(), (0, 2));
    assert_eq!(go_wrap(start, Direction::Right, 3).unwrap().pos(), (0, 5));
    assert_eq!(go_wrap(start, Direction::Right, 8).unwrap().pos(), (1, 2));
    assert_eq!(go_wrap(start, Direction::Right, 9).unwrap().pos(), (3, 2));
    assert_eq!(go_wrap(start, Direction::Left, 1).map(|b| b.pos()), Err(Error::OutOfBounds));
    let to = jump_to_next_separator("ab cd ef", 0, Direction::Right, 1, &[' '], start).unwrap();
    assert_eq!(to.pos(), (0, 5));
    assert_eq!(go_to_kind(start, Direction::Right, false).unwrap().pos(), (0, 10));
    assert_eq!(go_to_kind(start, Direction::Right, true).unwrap().pos(), (0, 3));
    assert_eq!(
        go_to_kind(start, Direction::Up, true).map(|b| b.pos()),
        Err(Error::UnsupportedDirection)
    );
    let far = f.raster.browser((0, 12)).unwrap();
    assert_eq!(find_left_text(far, 12), Ok((0, 9)));
    assert_eq!(find_left_text(far, 2), Err(Error::PredicateUnsatisfied));
    assert_eq!(find_left_text(f.raster.browser((4, 5)).unwrap(), 5), Err(Error::PredicateUnsatisfied));
    assert_eq!(find_left_text(f.raster.browser((0, 4)).unwrap(), 4), Ok((0, 4)));
}

#[test]
fn horizontal_and_vertical_motion() {
    let mut f = fixture();
    let out = command_hl(input(&mut f, "l", None, command_at(0, 2))).unwrap();
    assert_eq!(cursor_of(&out), command_at(0, 3));
    let out = command_hl(input(&mut f, "h", None, command_at(1, 2))).unwrap();
    assert_eq!(cursor_of(&out), command_at(0, 9));
    assert_eq!(command_hl(input(&mut f, "h", None, command_at(0, 2))).err(), Some(Error::OutOfBounds));
    // down from column 6 of the first line: the second line is shorter
    let out = command_jk(input(&mut f, "j", None, command_at(0, 6))).unwrap();
    assert_eq!(cursor_of(&out), Cursor::Command(CommandState { pos: (1, 2), col: 6 }));
    // and on, with the column remembered
    let out = command_jk(input(&mut f, "j", None, cursor_of(&out))).unwrap();
    assert_eq!(cursor_of(&out), Cursor::Command(CommandState { pos: (2, 4), col: 6 }));
    let out = command_jk(input(&mut f, "k", None, Cursor::Command(CommandState { pos: (1, 2), col: 6 })))
        .unwrap();
    assert_eq!(cursor_of(&out), Cursor::Command(CommandState { pos: (0, 6), col: 6 }));
    assert_eq!(command_jk(input(&mut f, "k", None, command_at(0, 2))).err(), Some(Error::OutOfBounds));
    assert_eq!(
        command_jk(input(&mut f, "j", None, command_at(3, 2))).err(),
        Some(Error::PredicateUnsatisfied)
    );
}

#[test]
fn entering_insert_mode() {
    let mut f = fixture();
    let out = command_i(input(&mut f, "i", None, command_at(3, 3))).unwrap();
    assert_eq!(cursor_of(&out), Cursor::Insert(InsertState { pos: (3, 3), offset: 3 }));
    assert_eq!(f.tree.get_active_id(), 4);
    let out = command_i(input(&mut f, "i", None, command_at(2, 4))).unwrap();
    assert_eq!(cursor_of(&out), Cursor::Insert(InsertState { pos: (2, 4), offset: 0 }));
    assert_eq!(f.tree.get_active_id(), 3);
    assert_eq!(command_i(input(&mut f, "i", None, command_at(0, 0))).err(), Some(Error::NotBrowsable));
    let out = command_shift_a(input(&mut f, "A", None, command_at(0, 4))).unwrap();
    assert_eq!(cursor_of(&out), Cursor::new_insert((0, 10)));
    assert_eq!(f.tree.get_active_id(), 1);
    let out = command_shift_a(input(&mut f, "A", None, command_at(2, 4))).unwrap();
    assert_eq!(cursor_of(&out), Cursor::new_insert((2, 4)));
    assert_eq!(command_shift_a(input(&mut f, "A", None, command_at(5, 0))).err(), Some(Error::NotBrowsable));
}

#[test]
fn leaving_insert_mode() {
    let mut f = fixture();
    let insert = |pos| Cursor::Insert(InsertState { pos, offset: 0 });
    let out = insert_control_c(input(&mut f, "^C", None, insert((0, 4)))).unwrap();
    assert_eq!(cursor_of(&out), command_at(0, 4));
    let out = insert_control_c(input(&mut f, "^C", None, insert((0, 10)))).unwrap();
    assert_eq!(cursor_of(&out), command_at(0, 9));
    assert_eq!(insert_control_c(input(&mut f, "^C", None, insert((0, 1)))).err(), Some(Error::NotBrowsable));
    assert_eq!(insert_control_c(input(&mut f, "^C", None, insert((0, 0)))).err(), Some(Error::NotBrowsable));
}

#[test]
fn opening_lines() {
    let mut f = fixture();
    let out = command_o(input(&mut f, "o", None, command_at(1, 2))).unwrap();
    assert_eq!(f.tree.get_node(0).unwrap().children, [1, 2, 5, 4]);
    assert_eq!(f.tree.get_active_id(), 5);
    assert_eq!(cursor_of(&out), Cursor::Insert(InsertState { pos: (3, 2), offset: 0 }));
    assert_eq!(out.raster.unwrap().get((3, 2)), Some(Placeholder(5)));
    let out = command_shift_o(input(&mut f, "O", None, command_at(0, 2))).unwrap();
    assert_eq!(f.tree.get_node(0).unwrap().children, [6, 1, 2, 5, 4]);
    assert_eq!(cursor_of(&out), Cursor::Insert(InsertState { pos: (0, 2), offset: 0 }));
    assert_eq!(command_o(input(&mut f, "o", None, command_at(5, 5))).err(), Some(Error::NotBrowsable));
}

#[test]
fn insert_mode_structure_keys() {
    let mut f = fixture();
    f.tree.activate(4).unwrap();
    let out = insert_tab(input(&mut f, "^I", None, Cursor::new_insert((3, 6)))).unwrap();
    assert_eq!(f.tree.get_node(2).unwrap().children, [3, 4]);
    assert_eq!(cursor_of(&out), Cursor::Insert(InsertState { pos: (3, 8), offset: 0 }));
    assert_eq!(line(&f.win, 3), "  • tail        ");
    assert_eq!(insert_tab(input(&mut f, "^I", None, Cursor::new_insert((3, 8)))).map(|_| ()),
        Ok(()));
    assert_eq!(f.tree.get_node(3).unwrap().children, [4]);
    insert_shift_tab(input(&mut f, "KEY_BTAB", None, Cursor::new_insert((3, 8)))).unwrap();
    insert_shift_tab(input(&mut f, "KEY_BTAB", None, Cursor::new_insert((3, 8)))).unwrap();
    assert_eq!(f.tree.get_node(0).unwrap().children, [1, 2, 4]);
    assert_eq!(
        insert_shift_tab(input(&mut f, "KEY_BTAB", None, Cursor::new_insert((3, 8)))).err(),
        Some(Error::StructuralLimit)
    );
    let out = insert_enter(input(&mut f, "^J", None, Cursor::new_insert((3, 6)))).unwrap();
    assert_eq!(f.tree.get_node(0).unwrap().children, [1, 2, 4, 5]);
    assert_eq!(cursor_of(&out), Cursor::Insert(InsertState { pos: (4, 2), offset: 0 }));
    f.tree.activate(1).unwrap();
    assert_eq!(
        insert_tab(input(&mut f, "^I", None, Cursor::new_insert((0, 2)))).err(),
        Some(Error::StructuralLimit)
    );
}

#[test]
fn backspace() {
    let mut f = fixture();
    f.tree.activate(4).unwrap();
    let at = |offset| Cursor::Insert(InsertState { pos: (3, 2), offset });
    insert_backspace(input(&mut f, "^?", None, at(0))).unwrap();
    assert_eq!(f.tree.get_active_content(), "tai");
    insert_backspace(input(&mut f, "^?", None, at(2))).unwrap();
    assert_eq!(f.tree.get_active_content(), "ai");
    assert_eq!(insert_backspace(input(&mut f, "^?", None, at(3))).err(), Some(Error::OutOfBounds));
    // at the start of the text: the bullet goes, the sibling above becomes active
    let out = insert_backspace(input(&mut f, "^?", None, at(2))).unwrap();
    assert_eq!(ids(&f.tree), [0, 1, 2, 3]);
    assert_eq!(f.tree.get_active_id(), 2);
    assert_eq!(cursor_of(&out), Cursor::Insert(InsertState { pos: (1, 3), offset: 0 }));
    // an only child: the parent becomes active
    f.tree.activate(3).unwrap();
    insert_backspace(input(&mut f, "^?", None, at(0))).unwrap();
    assert_eq!(ids(&f.tree), [0, 1, 2]);
    assert_eq!(f.tree.get_active_id(), 2);
    // the first bullet of the document cannot go that way
    f.tree.activate(1).unwrap();
    assert_eq!(insert_backspace(input(&mut f, "^?", None, at(8))).err(), Some(Error::StructuralLimit));
    assert_eq!(ids(&f.tree), [0, 1, 2]);
}

#[test]
fn arrow_keys_in_insert_mode() {
    let mut f = fixture();
    f.tree.activate(2).unwrap();
    f.win = TestWindow::new((5, 16), false);
    let out = insert_arrow_keys(input(&mut f, "KEY_UP", None, Cursor::Insert(InsertState { pos: (1, 3), offset: 1 })));
    assert_eq!(out.err(), Some(Error::OutOfBounds));
    assert_eq!(f.tree.get_active_content(), "x USE VIM KEYBINDINGS YOU PLEB ");
    let out = insert_arrow_keys(input(&mut f, "KEY_UP", None, Cursor::Insert(InsertState { pos: (1, 3), offset: 99 })));
    assert_eq!(out.err(), Some(Error::OutOfBounds));
    assert_eq!(f.tree.get_active_content(), "x USE VIM KEYBINDINGS YOU PLEB ");
    let mut f = fixture();
    f.win = TestWindow::new((6, 40), false);
    let out = insert_arrow_keys(input(&mut f, "KEY_UP", None, Cursor::Insert(InsertState { pos: (0, 10), offset: 2 })))
        .unwrap();
    assert_eq!(f.tree.get_active_content(), "ab cd ef USE VIM KEYBINDINGS YOU PLEB ");
    assert_eq!(cursor_of(&out), Cursor::Insert(InsertState { pos: (0, 38), offset: 2 }));
}

#[test]
fn copy_and_paste() {
    let mut f = fixture();
    let out = command_y(input(&mut f, "y", None, command_at(1, 2))).unwrap();
    assert_eq!(out.sticky_key.as_deref(), Some("y"));
    assert!(out.clipboard.is_none());
    let out = command_y(input(&mut f, "y", Some("d"), command_at(1, 2))).unwrap();
    assert!(out.sticky_key.is_none() && out.clipboard.is_none());
    assert_eq!(
        command_p_shift_p(input(&mut f, "p", None, command_at(3, 2))).err(),
        Some(Error::NothingToPaste)
    );
    let out = command_y(input(&mut f, "y", Some("y"), command_at(1, 2))).unwrap();
    assert!(out.cursor.is_none());
    f.clipboard = out.clipboard;
    let out = command_p_shift_p(input(&mut f, "p", None, command_at(3, 3))).unwrap();
    // the copy of 2 -> [3] is 6 -> [5]
    assert_eq!(f.tree.get_node(0).unwrap().children, [1, 2, 4, 6]);
    assert_eq!(f.tree.get_node(6).unwrap().children, [5]);
    assert_eq!(f.tree.get_node(6).unwrap().content, "x");
    assert_eq!(cursor_of(&out), command_at(4, 2));
    let out = command_p_shift_p(input(&mut f, "P", None, command_at(0, 2))).unwrap();
    assert_eq!(f.tree.get_node(0).unwrap().children, [8, 1, 2, 4, 6]);
    assert_eq!(cursor_of(&out), command_at(0, 2));
    assert_eq!(command_p_shift_p(input(&mut f, "x", None, command_at(0, 2))).err(), Some(Error::UnknownKey));
    assert_eq!(
        command_p_shift_p(input(&mut f, "p", None, command_at(9, 9))).err(),
        Some(Error::NotBrowsable)
    );
}

#[test]
fn delete_and_undo() {
    let mut f = fixture();
    let out = command_d(input(&mut f, "d", None, command_at(1, 2))).unwrap();
    assert_eq!(out.sticky_key.as_deref(), Some("d"));
    assert_eq!(ids(&f.tree), [0, 1, 2, 4, 3]);
    let out = command_d(input(&mut f, "d", Some("y"), command_at(1, 2))).unwrap();
    assert!(out.sticky_key.is_none() && out.raster.is_none());
    let before = command_at(1, 2);
    let out = command_d(input(&mut f, "d", Some("d"), before)).unwrap();
    assert_eq!(ids(&f.tree), [0, 1, 4]);
    assert_eq!(f.tree.get_active_id(), 4);
    assert_eq!(cursor_of(&out), command_at(1, 2));
    assert!(out.clipboard.is_some());
    let item = out.history_item.unwrap();
    assert_eq!(item.cursor, before);
    assert_eq!(item.tree.ids(), [2, 3]);
    f.history.push_back(item);
    f.raster = out.raster.unwrap();
    let out = command_u(input(&mut f, "u", None, command_at(1, 2))).unwrap();
    assert_eq!(cursor_of(&out), before);
    assert!(f.history.is_empty());
    // back between 1 and 4, under new identities
    assert_eq!(f.tree.get_node(0).unwrap().children, [1, 6, 4]);
    assert_eq!(f.tree.get_node(6).unwrap().children, [5]);
    assert_eq!(f.tree.get_node(6).unwrap().content, "x");
    assert_eq!(out.raster.unwrap().get((2, 4)), Some(Placeholder(5)));
    let out = command_u(input(&mut f, "u", None, command_at(1, 2))).unwrap();
    assert!(out.cursor.is_none() && out.raster.is_none());
    assert_eq!(
        command_d(input(&mut f, "d", Some("d"), command_at(5, 5))).err(),
        Some(Error::NotBrowsable)
    );
}

#[test]
fn undo_of_a_first_and_of_an_only_child() {
    let mut f = fixture();
    // the first of several siblings
    f.tree.activate(1).unwrap();
    let cut = f.tree.get_subtree();
    f.tree.delete().unwrap();
    assert_eq!(f.tree.get_node(0).unwrap().children, [2, 4]);
    undo_delete(&mut f.tree, cut).unwrap();
    assert_eq!(f.tree.get_node(0).unwrap().children, [5, 2, 4]);
    assert_eq!(f.tree.get_active_content(), "ab cd ef");
    // an only child
    f.tree.activate(3).unwrap();
    let cut = f.tree.get_subtree();
    f.tree.delete().unwrap();
    assert_eq!(f.tree.get_node(2).unwrap().children, Vec::<i32>::new());
    undo_delete(&mut f.tree, cut).unwrap();
    assert_eq!(f.tree.get_node(2).unwrap().children, [6]);
    assert_eq!(f.tree.get_node(6).unwrap().parent, Some(2));
    assert_eq!(f.tree.get_node(0).unwrap().children, [5, 2, 4]);
    // beside a bullet that is gone
    f.tree.activate(4).unwrap();
    let cut = f.tree.get_subtree();
    f.tree.delete().unwrap();
    f.tree.activate(2).unwrap();
    f.tree.delete().unwrap();
    assert_eq!(undo_delete(&mut f.tree, cut), Err(Error::UnknownIdentity));
    assert_eq!(ids(&f.tree), [0, 5]);
    assert_eq!(f.tree.get_active_id(), 5);
}

#[test]
fn drawing_for_insert_mode() {
    let mut f = fixture();
    let out = render_and_make_insert_output(&f.tree, &mut f.win, 3).unwrap();
    assert_eq!(cursor_of(&out), Cursor::Insert(InsertState { pos: (0, 7), offset: 3 }));
    assert!(out.raster.unwrap().is_full());
    let mut small = TestWindow::new((2, 16), false);
    assert_eq!(
        render_and_make_insert_output(&f.tree, &mut small, 0).err(),
        Some(Error::OutOfBounds)
    );
}

#[test]
fn key_tables() {
    let commands = new_command_map();
    let inserts = new_insert_map();
    assert_eq!(commands.len(), 16);
    assert_eq!(inserts.len(), 10);
    assert_eq!(lookup(&commands, "w"), Some(Handler::CommandBwe));
    assert_eq!(lookup(&commands, "P"), Some(Handler::CommandPShiftP));
    assert_eq!(lookup(&commands, "^I"), None);
    assert_eq!(lookup(&inserts, "^?"), Some(Handler::InsertBackspace));
    assert_eq!(lookup(&inserts, "KEY_DOWN"), Some(Handler::InsertArrowKeys));
    assert_eq!(lookup(&inserts, "a"), None);
}

#[test]
fn cursor_states() {
    let command = Cursor::new_command((3, 4));
    assert_eq!(command.pos(), (3, 4));
    assert_eq!(command.command_state(), CommandState { pos: (3, 4), col: 4 });
    let insert = Cursor::new_insert((1, 2));
    assert_eq!(insert.pos(), (1, 2));
    assert_eq!(insert.insert_state(), InsertState { pos: (1, 2), offset: 0 });
    let out = HandlerOutput::new()
        .set_cursor(command)
        .set_sticky_key(String::from("d"))
        .set_raster(Raster::new((1, 1)));
    assert_eq!(out.cursor, Some(command));
    assert_eq!(out.sticky_key.as_deref(), Some("d"));
    assert_eq!(out.raster.unwrap().max(), (1, 1));
    assert!(out.clipboard.is_none() && out.history_item.is_none());
}

#[test]
fn texts() {
    assert!(same_text("abc", "abc"));
    assert!(!same_text("abc", "abd"));
    assert!(!same_text("abc", "ab"));
    assert_eq!(without_char("abc", 1), "ac");
    assert_eq!(with_text_at("abc", 1, "xy"), "axybc");
    assert_eq!(with_text_at("abc", 3, "z"), "abcz");
    assert_eq!(Error::NothingToPaste.message(), "nothing to paste");
    assert_eq!(Error::PredicateUnsatisfied.message(), "no text on target line");
}

#[test]
fn status_line() {
    let mut win = TestWindow::new((1, 20), false);
    render_status(&mut win, Cursor::new_command((0, 0)), "oops");
    assert_eq!(line(&win, 0), "COMMAND         oops");
    render_status(&mut win, Cursor::new_insert((0, 0)), "");
    assert_eq!(line(&win, 0), "INSERT              ");
    let mut none = TestWindow::new((0, 0), false);
    render_status(&mut none, Cursor::new_insert((0, 0)), "x");
}

#[test]
fn an_editing_session() {
    let mut win = TestWindow::new((6, 16), false);
    let mut editor = Editor::new(&mut win, Box::new(Counter { next: Cell::new(1) })).unwrap();
    assert_eq!(editor.cursor(), Cursor::Insert(InsertState { pos: (0, 2), offset: 0 }));
    for key in ["h", "i", " ", "y", "o", "u"] {
        let update = editor.update(key, &mut win);
        assert!(!update.should_quit);
        assert_eq!(update.status_msg, "");
    }
    assert_eq!(line(&win, 0), "• hi you        ");
    assert_eq!(editor.cursor(), Cursor::Insert(InsertState { pos: (0, 8), offset: 0 }));
    assert_eq!(win.pos, (0, 8));
    editor.update("^J", &mut win);
    editor.update("x", &mut win);
    editor.update("^I", &mut win);
    assert_eq!(line(&win, 1), "  • x           ");
    assert_eq!(editor.tree().get_node(1).unwrap().children, [2]);
    let update = editor.update("^I", &mut win);
    assert_eq!(update.status_msg, Error::StructuralLimit.message());
    // to command mode, and about
    editor.update("^C", &mut win);
    assert_eq!(editor.cursor(), Cursor::new_command((1, 4)));
    let update = editor.update("?", &mut win);
    assert_eq!(update.status_msg, Error::UnknownKey.message());
    editor.update("k", &mut win);
    assert_eq!(editor.cursor(), Cursor::Command(CommandState { pos: (0, 4), col: 4 }));
    editor.update("b", &mut win);
    assert_eq!(editor.cursor(), Cursor::new_command((0, 2)));
    editor.update("w", &mut win);
    assert_eq!(editor.cursor(), Cursor::new_command((0, 5)));
    // cut the second bullet and bring it back
    editor.update("j", &mut win);
    let update = editor.update("d", &mut win);
    assert_eq!(update.status_msg, "d");
    let update = editor.update("d", &mut win);
    assert_eq!(update.status_msg, "");
    assert_eq!(ids(editor.tree()), [0, 1]);
    assert_eq!(editor.history_len(), 1);
    assert!(editor.clipboard().is_some());
    assert_eq!(line(&win, 1), "                ");
    editor.update("u", &mut win);
    assert_eq!(ids(editor.tree()), [0, 1, 3]);
    assert_eq!(editor.history_len(), 0);
    assert_eq!(line(&win, 1), "  • x           ");
    editor.update("p", &mut win);
    assert_eq!(ids(editor.tree()), [0, 1, 3, 4]);
    assert!(editor.raster().is_full());
    assert_eq!(win.pos, editor.cursor().pos());
}

#[test]
fn a_session_on_a_given_document() {
    let f = fixture();
    let mut small = TestWindow::new((3, 16), false);
    assert_eq!(Editor::with_tree(&mut small, f.tree).err(), Some(Error::OutOfBounds));
    let f = fixture();
    let mut win = TestWindow::new((8, 16), false);
    let mut editor = Editor::with_tree(&mut win, f.tree).unwrap();
    assert_eq!(editor.cursor(), Cursor::Insert(InsertState { pos: (0, 10), offset: 0 }));
    assert_eq!(win.pos, (0, 10));
    assert_eq!(editor.raster().get((3, 2)), Some(Text { id: 4, offset: 0 }));
    assert!(editor.clipboard().is_none());
    assert_eq!(editor.history_len(), 0);
    editor.update("!", &mut win);
    assert_eq!(line(&win, 0), "• ab cd ef!     ");
    editor.update("KEY_BACKSPACE", &mut win);
    assert_eq!(line(&win, 0), "• ab cd ef      ");
    let update = editor.update("KEY_BTAB", &mut win);
    assert_eq!(update.status_msg, Error::StructuralLimit.message());
    editor.update("^C", &mut win);
    editor.update("y", &mut win);
    editor.update("y", &mut win);
    editor.update("P", &mut win);
    assert_eq!(ids(editor.tree()), [0, 5, 1, 2, 4, 3]);
    assert_eq!(line(&win, 0), "• ab cd ef      ");
    assert_eq!(line(&win, 1), "• ab cd ef      ");
    assert_eq!(editor.cursor(), Cursor::new_command((0, 9)));
}

#[test]
fn status_line_on_a_narrow_window() {
    let mut win = TestWindow::new((1, 4), false);
    render_status(&mut win, Cursor::new_command((0, 0)), "");
    assert_eq!(line(&win, 0), "COMD");
    assert_eq!(win.pos, (0, 3));
    render_status(&mut win, Cursor::new_insert((0, 0)), "x");
    assert_eq!(line(&win, 0), "INSx");
    render_status(&mut win, Cursor::new_insert((0, 0)), "much too long");
    assert_eq!(line(&win, 0), "INST");
    let mut two = TestWindow::new((2, 4), false);
    two.move_addstr((1, 0), "keep");
    render_status(&mut two, Cursor::new_insert((0, 0)), "ab");
    assert_eq!(line(&two, 0), "INab");
    assert_eq!(line(&two, 1), "RTep");
    assert_eq!(two.pos, (1, 0));
}

#[test]
fn walking_far() {
    let f = fixture();
    let start = f.raster.browser((0, 2)).unwrap();
    assert_eq!(bullets::handlers::motion::go_wrap_far(start, Direction::Right, 0).unwrap().pos(), (0, 2));
    assert_eq!(bullets::handlers::motion::go_wrap_far(start, Direction::Right, 12).unwrap().pos(), (3, 5));
    assert_eq!(
        bullets::handlers::motion::go_wrap_far(start, Direction::Right, 13).map(|b| b.pos()),
        Err(Error::OutOfBounds)
    );
    assert_eq!(
        bullets::handlers::motion::go_wrap_far(start, Direction::Left, 1).map(|b| b.pos()),
        Err(Error::OutOfBounds)
    );
    let end = f.raster.browser((3, 5)).unwrap();
    assert_eq!(bullets::handlers::motion::go_wrap_far(end, Direction::Left, 12).unwrap().pos(), (0, 2));
    assert_eq!(
        jump_to_next_separator("tail", 0, Direction::Right, 1, &[' '], f.raster.browser((3, 4)).unwrap())
            .map(|b| b.pos()),
        Err(Error::OutOfBounds)
    );
}

struct Fixed(i32);

impl IdGenerator for Fixed {
    fn gen(&self) -> i32 {
        self.0
    }
}

fn grid_of(max: (i32, i32), cells: &[bullets::raster::PixelState]) -> Raster {
    let mut raster = Raster::new(max);
    for cell in cells {
        raster.push(*cell);
    }
    raster
}

#[test]
fn vertical_motion_names_its_failure() {
    let mut f = fixture();
    // the cursor is off the grid
    assert_eq!(command_jk(input(&mut f, "j", None, command_at(-1, 2))).err(), Some(Error::OutOfBounds));
    // the line below the last is off the grid
    assert_eq!(command_jk(input(&mut f, "j", None, command_at(9, 2))).err(), Some(Error::OutOfBounds));
    // the remembered column is off the grid
    let wide = Cursor::Command(CommandState { pos: (0, 2), col: 16 });
    assert_eq!(command_jk(input(&mut f, "j", None, wide)).err(), Some(Error::OutOfBounds));
    let negative = Cursor::Command(CommandState { pos: (0, 2), col: -1 });
    assert_eq!(command_jk(input(&mut f, "j", None, negative)).err(), Some(Error::OutOfBounds));
    // the marker and its padding are not browsable, and nothing is to their left
    let narrow = Cursor::Command(CommandState { pos: (0, 2), col: 1 });
    assert_eq!(command_jk(input(&mut f, "j", None, narrow)).err(), Some(Error::PredicateUnsatisfied));
    // an empty line
    assert_eq!(
        command_jk(input(&mut f, "j", None, command_at(3, 15))).err(),
        Some(Error::PredicateUnsatisfied)
    );
    // the nearest browsable cell to the left of the remembered column
    let far = Cursor::Command(CommandState { pos: (0, 2), col: 15 });
    let out = command_jk(input(&mut f, "j", None, far)).unwrap();
    assert_eq!(cursor_of(&out), Cursor::Command(CommandState { pos: (1, 2), col: 15 }));
    assert_eq!(f.tree.get_active_id(), 1);
}

#[test]
fn appending_names_its_failure() {
    let mut f = fixture();
    assert_eq!(command_shift_a(input(&mut f, "A", None, command_at(0, 16))).err(), Some(Error::OutOfBounds));
    assert_eq!(command_shift_a(input(&mut f, "A", None, command_at(9, 15))).err(), Some(Error::NotBrowsable));
    // from the marker the cursor goes to the padding behind it
    let out = command_shift_a(input(&mut f, "A", None, command_at(1, 0))).unwrap();
    assert_eq!(cursor_of(&out), Cursor::new_insert((1, 1)));
    assert_eq!(f.tree.get_active_id(), 2);
    // a text that runs to the end of the grid
    f.raster = grid_of((1, 3), &[Text { id: 1, offset: 0 }, Text { id: 1, offset: 1 }, Text { id: 1, offset: 2 }]);
    assert_eq!(command_shift_a(input(&mut f, "A", None, command_at(0, 1))).err(), Some(Error::OutOfBounds));
    assert_eq!(f.tree.get_active_id(), 2);
    // a bullet that the document does not hold, and the root
    f.raster = grid_of((1, 3), &[Text { id: 99, offset: 0 }, Placeholder(0)]);
    assert_eq!(
        command_shift_a(input(&mut f, "A", None, command_at(0, 0))).err(),
        Some(Error::UnknownIdentity)
    );
    assert_eq!(
        command_shift_a(input(&mut f, "A", None, command_at(0, 1))).err(),
        Some(Error::UnknownIdentity)
    );
    assert_eq!(f.tree.get_active_id(), 2);
}

#[test]
fn deleting_names_its_failure() {
    let mut f = fixture();
    f.raster = grid_of((1, 3), &[Placeholder(99), Placeholder(0)]);
    for col in 0..2 {
        assert_eq!(
            command_d(input(&mut f, "d", Some("d"), command_at(0, col))).err(),
            Some(Error::UnknownIdentity)
        );
    }
    assert_eq!(command_d(input(&mut f, "d", Some("d"), command_at(0, 2))).err(), Some(Error::NotBrowsable));
    assert_eq!(command_d(input(&mut f, "d", Some("d"), command_at(0, 3))).err(), Some(Error::NotBrowsable));
    assert_eq!(ids(&f.tree), [0, 1, 2, 4, 3]);
    assert_eq!(f.tree.get_active_id(), 1);

    // the remembered column has nothing browsable at it or to its left
    let mut f = fixture();
    let narrow = Cursor::Command(CommandState { pos: (1, 2), col: 1 });
    assert_eq!(command_d(input(&mut f, "d", Some("d"), narrow)).err(), Some(Error::PredicateUnsatisfied));
    assert_eq!(ids(&f.tree), [0, 1, 4]);
    assert_eq!(f.tree.get_active_id(), 4);

    // the document that is left does not fit the window
    let mut f = fixture();
    f.win = TestWindow::new((1, 16), false);
    assert_eq!(command_d(input(&mut f, "d", Some("d"), command_at(1, 2))).err(), Some(Error::OutOfBounds));
    assert_eq!(ids(&f.tree), [0, 1, 4]);

    // the last bullet
    let mut tree = Tree::new(Box::new(Counter { next: Cell::new(1) })).unwrap();
    let mut win = TestWindow::new((2, 8), false);
    let (raster, _) = tree_render(&mut win, tree.root_iter(), 1, 0).unwrap();
    let mut history = VecDeque::new();
    let p = HandlerInput {
        key: "d",
        sticky_key: Some("d"),
        cursor: command_at(0, 2),
        tree: &mut tree,
        raster: &raster,
        win: &mut win,
        clipboard: None,
        history: &mut history,
    };
    assert_eq!(command_d(p).err(), Some(Error::StructuralLimit));
    assert_eq!(ids(&tree), [0, 1]);
}

#[test]
fn opening_a_line_names_its_failure() {
    let mut f = fixture();
    f.raster = grid_of((1, 3), &[Placeholder(99), Placeholder(0)]);
    assert_eq!(command_o(input(&mut f, "o", None, command_at(0, 0))).err(), Some(Error::UnknownIdentity));
    assert_eq!(
        command_shift_o(input(&mut f, "O", None, command_at(0, 1))).err(),
        Some(Error::UnknownIdentity)
    );
    assert_eq!(command_o(input(&mut f, "o", None, command_at(0, 2))).err(), Some(Error::NotBrowsable));
    assert_eq!(ids(&f.tree), [0, 1, 2, 4, 3]);
    assert_eq!(f.tree.get_active_id(), 1);

    // the document with the new bullet does not fit the window
    let mut f = fixture();
    f.win = TestWindow::new((4, 16), false);
    assert_eq!(command_o(input(&mut f, "o", None, command_at(3, 2))).err(), Some(Error::OutOfBounds));
    assert_eq!(f.tree.get_node(0).unwrap().children, [1, 2, 4, 5]);
    assert_eq!(f.tree.get_active_id(), 5);
    assert_eq!(insert_enter(input(&mut f, "^J", None, command_at(3, 2))).err(), Some(Error::OutOfBounds));
    assert_eq!(f.tree.get_node(0).unwrap().children, [1, 2, 4, 5, 6]);

    // an identity source that repeats itself
    let mut tree = Tree::with_first(Box::new(Fixed(1)), 1).unwrap();
    tree.insert_node(2, bullets::tree::Dir::Below).unwrap();
    let mut win = TestWindow::new((4, 8), false);
    let (raster, _) = tree_render(&mut win, tree.root_iter(), 2, 0).unwrap();
    let mut history = VecDeque::new();
    let p = HandlerInput {
        key: "o",
        sticky_key: None,
        cursor: command_at(0, 2),
        tree: &mut tree,
        raster: &raster,
        win: &mut win,
        clipboard: None,
        history: &mut history,
    };
    assert_eq!(command_o(p).err(), Some(Error::IdentityInUse));
    assert_eq!(ids(&tree), [0, 1, 2]);
    assert_eq!(tree.get_active_id(), 1);
    let p = HandlerInput {
        key: "^J",
        sticky_key: None,
        cursor: Cursor::new_insert((0, 2)),
        tree: &mut tree,
        raster: &raster,
        win: &mut win,
        clipboard: None,
        history: &mut history,
    };
    assert_eq!(insert_enter(p).err(), Some(Error::IdentityInUse));
    assert_eq!(ids(&tree), [0, 1, 2]);
}

#[test]
fn pasting_and_undoing_name_their_failure() {
    let mut f = fixture();
    let out = command_y(input(&mut f, "y", Some("y"), command_at(3, 2))).unwrap();
    f.clipboard = out.clipboard;
    let drawn = grid_of((1, 3), &[Placeholder(99), Placeholder(0)]);
    let full = std::mem::replace(&mut f.raster, drawn);
    assert_eq!(
        command_p_shift_p(input(&mut f, "p", None, command_at(0, 0))).err(),
        Some(Error::UnknownIdentity)
    );
    assert_eq!(
        command_p_shift_p(input(&mut f, "P", None, command_at(0, 1))).err(),
        Some(Error::UnknownIdentity)
    );
    assert_eq!(ids(&f.tree), [0, 1, 2, 4, 3]);
    assert_eq!(f.tree.get_active_id(), 4);
    f.raster = full;
    // no browsable cell at the column of the cursor or to its left
    assert_eq!(
        command_p_shift_p(input(&mut f, "p", None, command_at(0, 1))).err(),
        Some(Error::PredicateUnsatisfied)
    );
    assert_eq!(f.tree.get_node(0).unwrap().children, [1, 5, 2, 4]);
    // the document with one more copy does not fit the window
    f.win = TestWindow::new((5, 16), false);
    assert_eq!(
        command_p_shift_p(input(&mut f, "P", None, command_at(0, 2))).err(),
        Some(Error::OutOfBounds)
    );
    assert_eq!(f.tree.get_node(0).unwrap().children, [6, 1, 5, 2, 4]);

    // an undo that no longer fits leaves the bullet in place and the log shorter
    let mut f = fixture();
    let out = command_d(input(&mut f, "d", Some("d"), command_at(1, 2))).unwrap();
    f.history.push_back(out.history_item.unwrap());
    f.win = TestWindow::new((3, 16), false);
    assert_eq!(command_u(input(&mut f, "u", None, command_at(1, 2))).err(), Some(Error::OutOfBounds));
    assert_eq!(f.tree.get_node(0).unwrap().children, [1, 6, 4]);
    assert!(f.history.is_empty());

    // an undo beside a bullet that is gone changes nothing
    let mut f = fixture();
    let out = command_d(input(&mut f, "d", Some("d"), command_at(1, 2))).unwrap();
    f.history.push_back(out.history_item.unwrap());
    f.tree.activate(1).unwrap();
    f.tree.delete().unwrap();
    assert_eq!(command_u(input(&mut f, "u", None, command_at(0, 2))).err(), Some(Error::UnknownIdentity));
    assert_eq!(ids(&f.tree), [0, 4]);
    assert_eq!(f.history.len(), 1);
}

#[test]
fn the_document_as_a_text() {
    let f = fixture();
    assert_eq!(f.tree.to_text(), "0. \n\t1. ACTIVE ab cd ef\n\t2. x\n\t\t3. \n\t4. tail\n");
    let mut tree = Tree::with_first(Box::new(Fixed(1)), -120).unwrap();
    tree.insert_node(2147483647, bullets::tree::Dir::Above).unwrap();
    tree.insert_node(-2147483648, bullets::tree::Dir::Below).unwrap();
    tree.indent(false).unwrap();
    tree.set_active_content(String::from("deep"));
    tree.insert_node(1009, bullets::tree::Dir::Below).unwrap();
    tree.indent(true).unwrap();
    assert_eq!(
        tree.to_text(),
        "0. \n\t2147483647. \n\t\t-2147483648. deep\n\t\t\t1009. ACTIVE \n\t-120. \n"
    );
}

#[test]
fn typing_into_the_text() {
    let mut win = TestWindow::new((2, 6), false);
    let mut editor = Editor::new(&mut win, Box::new(Counter { next: Cell::new(1) })).unwrap();
    for key in ["a", "b", "c", "d"] {
        assert_eq!(editor.update(key, &mut win).status_msg, "");
    }
    assert_eq!(line(&win, 0), "• abcd");
    assert_eq!(line(&win, 1), "      ");
    // a full line is followed by the indentation of the next
    assert_eq!(editor.cursor(), Cursor::Insert(InsertState { pos: (1, 2), offset: 0 }));
    // a text of two full lines no longer fits: the text stays, the grid is the old one
    for key in ["e", "f", "g"] {
        assert_eq!(editor.update(key, &mut win).status_msg, "");
    }
    assert_eq!(line(&win, 1), "  efg ");
    let before = editor.cursor();
    assert_eq!(editor.update("h", &mut win).status_msg, Error::OutOfBounds.message());
    assert_eq!(editor.tree().get_active_content(), "abcdefgh");
    assert_eq!(editor.cursor(), before);
    assert_eq!(editor.raster().get((1, 4)), Some(Text { id: 1, offset: 6 }));
    assert_eq!(editor.raster().get((1, 5)), Some(Empty));
    assert_eq!(win.pos, before.pos());
}

#[test]
fn leaving_insert_mode_names_its_failure() {
    let mut f = fixture();
    let insert = |pos| Cursor::Insert(InsertState { pos, offset: 0 });
    assert_eq!(insert_control_c(input(&mut f, "^C", None, insert((0, 16)))).err(), Some(Error::OutOfBounds));
    assert_eq!(insert_control_c(input(&mut f, "^C", None, insert((-1, 0)))).err(), Some(Error::OutOfBounds));
    assert_eq!(insert_control_c(input(&mut f, "^C", None, insert((10, 0)))).err(), Some(Error::OutOfBounds));
    // an empty cell with no browsable cell before it
    f.raster = grid_of((1, 4), &[Empty, Empty, Placeholder(1)]);
    assert_eq!(insert_control_c(input(&mut f, "^C", None, insert((0, 1)))).err(), Some(Error::OutOfBounds));
    assert_eq!(insert_control_c(input(&mut f, "^C", None, insert((0, 0)))).err(), Some(Error::OutOfBounds));
    // a cell that nothing was written to is an empty cell
    let out = insert_control_c(input(&mut f, "^C", None, insert((0, 3)))).unwrap();
    assert_eq!(cursor_of(&out), command_at(0, 2));
    assert_eq!(f.tree.get_active_id(), 1);
}

#[test]
fn opening_a_session_names_its_failure() {
    let mut win = TestWindow::new((4, 8), false);
    win.addstr("xy");
    assert_eq!(Editor::new(&mut win, Box::new(Fixed(0))).err(), Some(Error::IdentityInUse));
    assert_eq!(line(&win, 0), "xy      ");
    assert_eq!(win.pos, (0, 2));
    // one bullet needs its marker, a blank and a cell for the text, and where
    // these fill the line, an empty line below
    for max in [(0, 0), (0, 8), (4, 0), (1, 2), (9, 1), (1, 3)] {
        let mut win = TestWindow::new(max, false);
        assert_eq!(Editor::new(&mut win, Box::new(Fixed(3))).err(), Some(Error::OutOfBounds));
    }
    for max in [(1, 4), (2, 3)] {
        let mut win = TestWindow::new(max, false);
        let editor = Editor::new(&mut win, Box::new(Fixed(3))).unwrap();
        assert_eq!(line(&win, 0).trim_end(), "•");
        assert_eq!(editor.cursor(), Cursor::new_insert((0, 2)));
        assert_eq!(win.pos, (0, 2));
        assert_eq!(ids(editor.tree()), [0, 3]);
        assert!(editor.raster().is_full());
    }
}
