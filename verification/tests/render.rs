use bullets::error::Error;
use bullets::raster::PixelState::{Bullet, Empty, Filler, Placeholder, Text};
use bullets::raster::{PixelState, Point, Raster};
use bullets::render::{
    addstr_right_aligned, clear_remaining, clear_remaining_line, render_bullet,
    render_content_slices, render_content_slices_active, split_every_n, subtree_render,
    tree_render, TestWindow, Window,
};
use bullets::tree::{IdGenerator, Tree};
use std::cell::Cell;

const CHAR_BULLET: char = '•';

struct TestIdGen {
    counter: Cell<i32>,
}

impl TestIdGen {
    fn new() -> TestIdGen {
        TestIdGen {
            counter: Cell::new(1),
        }
    }
}

impl IdGenerator for TestIdGen {
    fn gen(&self) -> i32 {
        (self.counter.get(), self.counter.set(self.counter.get() + 1)).0
    }
}

fn make_windows(max: Point) -> (TestWindow, TestWindow, Raster) {
    (
        TestWindow::new(max, false),
        TestWindow::new(max, false),
        Raster::new(max),
    )
}

fn row_of(raster: &Raster, row: i32, cols: i32) -> Vec<PixelState> {
    (0..cols).map(|c| raster.get((row, c)).unwrap()).collect()
}

fn text_of(win: &TestWindow, row: usize) -> String {
    win.screen[row].iter().collect()
}

#[test]
fn add_indentation_test() {
    assert_eq!(split_every_n("12345", 3), ["123", "45"]);
    assert_eq!(split_every_n("123456", 2), ["12", "34", "56"]);
    assert_eq!(split_every_n("123456", 10), ["123456"]);
}

#[test]
fn split_every_n_empty() {
    let empty: Vec<&str> = Vec::new();
    assert_eq!(split_every_n("", 2), empty);
    assert_eq!(split_every_n("", 0), empty);
}

#[test]
fn render_content_slices_works() {
    let (mut exp, mut win, mut raster) = make_windows((10, 10));
    exp.addstr("hello");
    render_content_slices(&mut win, vec!["hello"], 10, "  ", 0, &mut raster).unwrap();
    assert_eq!(win, exp);

    let (mut exp, mut win, mut raster) = make_windows((10, 10));
    exp.addstr("  ");
    exp.addstr("12345678  9123");
    win.addstr("  ");
    render_content_slices(&mut win, vec!["12345678", "9123"], 8, "  ", 0, &mut raster).unwrap();
    assert_eq!(win, exp);

    let (mut exp, mut win, mut raster) = make_windows((10, 10));
    exp.addstr("  ");
    exp.addstr("12345678  ");
    win.addstr("  ");
    render_content_slices(&mut win, vec!["12345678"], 8, "  ", 0, &mut raster).unwrap();
    assert_eq!(win, exp);
}

#[test]
fn zero_index_simple_render_active() {
    let (mut exp, mut win, mut raster) = make_windows((10, 10));
    exp.addstr("hello");
    assert_eq!(
        render_content_slices_active(&mut win, vec!["hello"], 10, "  ", 0, 0, &mut raster).unwrap(),
        (0, 0)
    );
    assert_eq!(win, exp);
}

#[test]
fn edge_index_simple_render_active() {
    let (mut exp, mut win, mut raster) = make_windows((10, 10));
    exp.addstr("hello");
    // |insert_index| equal to len is allowed because during normal insertion, cursor is one
    // past the length of the string
    assert_eq!(
        render_content_slices_active(&mut win, vec!["hello"], 10, "  ", 0, 5, &mut raster).unwrap(),
        (0, 5)
    );
    assert_eq!(win, exp);
}

#[test]
fn nonzero_index_simple_render_active() {
    let (mut exp, mut win, mut raster) = make_windows((10, 10));
    exp.addstr("hello");
    assert_eq!(
        render_content_slices_active(&mut win, vec!["hello"], 10, "  ", 0, 2, &mut raster).unwrap(),
        (0, 2)
    );
    assert_eq!(win, exp);
}

#[test]
fn zero_index_multiple_lines_render_active() {
    let (mut exp, mut win, mut raster) = make_windows((10, 10));
    exp.addstr("  12345678  1234");
    win.addstr("  ");
    assert_eq!(
        render_content_slices_active(
            &mut win,
            vec!["12345678", "1234"],
            8,
            "  ",
            0,
            0,
            &mut raster
        )
        .unwrap(),
        (0, 2)
    );
    assert_eq!(win, exp);
}

#[test]
fn edge_index_multiple_lines_render_active() {
    let (mut exp, mut win, mut raster) = make_windows((10, 10));
    exp.addstr("  12345678  1234");
    win.addstr("  ");
    assert_eq!(
        render_content_slices_active(
            &mut win,
            vec!["12345678", "1234"],
            8,
            "  ",
            0,
            12,
            &mut raster
        )
        .unwrap(),
        (1, 6)
    );
    assert_eq!(win, exp);
}

#[test]
fn render_empty_tree() {
    let (mut exp, mut win, _raster) = make_windows((10, 10));
    exp.addch(CHAR_BULLET);
    clear_remaining(&mut exp);
    let tree = Tree::new(Box::new(TestIdGen::new())).unwrap();
    tree_render(&mut win, tree.root_iter(), tree.get_active_id(), 0).unwrap();
    assert_eq!(win, exp);
}

#[test]
fn clear_remaining_line_test() {
    let mut win = TestWindow::new((10, 10), false);
    win.addstr("xx");
    clear_remaining_line(&mut win);
    assert_eq!(win.pos, (1, 0));
}

#[test]
fn clear_remaining_test() {
    let mut win = TestWindow::new((10, 10), false);
    win.addstr("xx");
    clear_remaining(&mut win);
    assert_eq!(win.pos, (9, 9));
}

#[test]
fn clear_counts() {
    let mut win = TestWindow::new((3, 4), false);
    win.addstr("xx");
    assert_eq!(clear_remaining_line(&mut win), 2);
    assert_eq!(win.pos, (1, 0));
    assert_eq!(clear_remaining_line(&mut win), 4);
    assert_eq!(win.pos, (2, 0));
    win.addch('y');
    assert_eq!(clear_remaining(&mut win), 3);
    assert_eq!(win.pos, (2, 3));
    assert_eq!(text_of(&win, 0), "xx  ");
    assert_eq!(text_of(&win, 2), "y   ");
}

#[test]
fn right_aligned_text() {
    let mut win = TestWindow::new((2, 6), false);
    addstr_right_aligned(&mut win, "abc");
    assert_eq!(text_of(&win, 0), "   abc");
    assert_eq!(win.pos, (1, 0));
    win.move_cursor((1, 1));
    addstr_right_aligned(&mut win, "");
    addstr_right_aligned(&mut win, "too long");
    assert_eq!(win.pos, (1, 1));
    assert_eq!(text_of(&win, 0), "   abc");
    assert_eq!(win.get_max_yx(), (2, 6));
    assert_eq!(win.get_yx(), (1, 1));
    win.move_addstr((0, 0), "z");
    win.refresh();
    assert_eq!(text_of(&win, 0), "z  abc");
}

#[test]
fn window_ends_at_its_last_cell() {
    let mut win = TestWindow::new((1, 3), false);
    win.addstr("abcde");
    assert_eq!(text_of(&win, 0), "abe");
    assert_eq!(win.pos, (0, 2));
    let other = TestWindow::new((1, 3), true);
    assert!(win != other);
    let mut same = TestWindow::new((1, 3), true);
    same.addstr("abe");
    assert!(win == same);
    assert_eq!(win.get(0, 2), Some('e'));
    assert_eq!(win.get(1, 0), None);
}

#[test]
fn a_bullet_and_its_grid() {
    let (_exp, mut win, mut raster) = make_windows((4, 8));
    let pos = render_bullet(&mut win, "abcdefg", 1, 7, Some(2), &mut raster).unwrap();
    // "  • abcd"
    // "    efg"
    assert_eq!(text_of(&win, 0), "  • abcd");
    assert_eq!(text_of(&win, 1), "    efg ");
    assert_eq!(pos, Some((1, 5)));
    assert_eq!(
        row_of(&raster, 0, 8),
        [
            Empty,
            Empty,
            Bullet(7),
            Filler(7),
            Text { id: 7, offset: 0 },
            Text { id: 7, offset: 1 },
            Text { id: 7, offset: 2 },
            Text { id: 7, offset: 3 }
        ]
    );
    assert_eq!(raster.get((1, 0)), Some(Filler(7)));
    assert_eq!(raster.get((1, 3)), Some(Filler(7)));
    assert_eq!(raster.get((1, 4)), Some(Text { id: 7, offset: 4 }));
    assert_eq!(raster.get((1, 6)), Some(Text { id: 7, offset: 6 }));
    assert_eq!(raster.get((1, 7)), Some(Empty));
}

#[test]
fn a_bullet_that_cannot_be_drawn() {
    let (_exp, mut win, mut raster) = make_windows((4, 8));
    assert_eq!(render_bullet(&mut win, "a", 3, 7, None, &mut raster), Err(Error::OutOfBounds));
    assert_eq!(render_bullet(&mut win, "a", 2, 7, None, &mut raster), Ok(None));
    let (_exp, mut win, mut raster) = make_windows((1, 8));
    assert_eq!(
        render_bullet(&mut win, "abcdefghi", 0, 7, None, &mut raster),
        Err(Error::OutOfBounds)
    );
}

#[test]
fn a_tree_and_its_grid() {
    let mut tree = Tree::new(Box::new(TestIdGen::new())).unwrap();
    tree.set_active_content(String::from("ab"));
    tree.create_sibling().unwrap(); // 2
    tree.indent(false).unwrap();
    tree.create_sibling().unwrap(); // 3, empty
    tree.activate(2).unwrap();
    tree.set_active_content(String::from("xyz"));
    // • ab
    //   • xyz
    //   •
    let mut win = TestWindow::new((4, 6), false);
    let (raster, pos) = tree_render(&mut win, tree.root_iter(), 2, 1).unwrap();
    assert_eq!(pos, Some((2, 4)));
    assert!(raster.is_full());
    assert_eq!(text_of(&win, 0), "• ab  ");
    assert_eq!(text_of(&win, 1), "  • xy");
    assert_eq!(text_of(&win, 2), "    z ");
    assert_eq!(text_of(&win, 3), "  •   ");
    assert_eq!(
        row_of(&raster, 0, 6),
        [
            Bullet(1),
            Filler(1),
            Text { id: 1, offset: 0 },
            Text { id: 1, offset: 1 },
            Empty,
            Empty
        ]
    );
    assert_eq!(
        row_of(&raster, 1, 6),
        [
            Empty,
            Empty,
            Bullet(2),
            Filler(2),
            Text { id: 2, offset: 0 },
            Text { id: 2, offset: 1 }
        ]
    );
    assert_eq!(
        row_of(&raster, 2, 6),
        [Filler(2), Filler(2), Filler(2), Filler(2), Text { id: 2, offset: 2 }, Empty]
    );
    assert_eq!(
        row_of(&raster, 3, 6),
        [Empty, Empty, Bullet(3), Filler(3), Placeholder(3), Empty]
    );
}

#[test]
fn a_tree_that_does_not_fit() {
    let mut tree = Tree::new(Box::new(TestIdGen::new())).unwrap();
    tree.create_sibling().unwrap();
    tree.create_sibling().unwrap();
    let mut win = TestWindow::new((2, 6), false);
    assert!(tree_render(&mut win, tree.root_iter(), 1, 0).is_err());
    let mut win = TestWindow::new((3, 6), false);
    let (raster, pos) = tree_render(&mut win, tree.root_iter(), 3, 0).unwrap();
    assert_eq!(pos, Some((2, 2)));
    assert_eq!(raster.get((2, 2)), Some(Placeholder(3)));
    let mut win = TestWindow::new((0, 0), false);
    assert!(tree_render(&mut win, tree.root_iter(), 1, 0).is_err());
    let mut raster = Raster::new((3, 6));
    let mut win = TestWindow::new((3, 6), false);
    let pos = subtree_render(&mut win, tree.active_iter(), 0, 0, 3, &mut raster).unwrap();
    assert_eq!(pos, Some((0, 2)));
    assert_eq!(raster.get((0, 5)), Some(Empty));
    assert_eq!(raster.get((1, 0)), Some(Empty));
    assert_eq!(raster.get((3, 0)), None);
}

fn filled(max: (i32, i32), c: char) -> TestWindow {
    let mut win = TestWindow::new(max, false);
    for _ in 0..max.0 * max.1 {
        win.addch(c);
    }
    win
}

fn shown_row(win: &TestWindow, row: usize) -> String {
    win.screen[row].iter().collect()
}

#[test]
fn clearing_blanks_what_follows_the_cursor() {
    let mut win = filled((3, 4), 'x');
    win.move_cursor((1, 1));
    assert_eq!(clear_remaining_line(&mut win), 3);
    assert_eq!(shown_row(&win, 0), "xxxx");
    assert_eq!(shown_row(&win, 1), "x   ");
    assert_eq!(shown_row(&win, 2), "xxxx");
    assert_eq!(win.pos, (2, 0));
    win.move_cursor((0, 3));
    assert_eq!(clear_remaining(&mut win), 9);
    assert_eq!(shown_row(&win, 0), "xxx ");
    assert_eq!(shown_row(&win, 1), "    ");
    assert_eq!(shown_row(&win, 2), "    ");
    assert_eq!(win.pos, (2, 3));
    let mut win = filled((2, 2), 'y');
    win.move_cursor((1, 1));
    assert_eq!(clear_remaining_line(&mut win), 1);
    assert_eq!(shown_row(&win, 1), "y ");
    assert_eq!(win.pos, (1, 1));
}

#[test]
fn a_drawing_covers_the_whole_window() {
    let mut tree = Tree::new(Box::new(TestIdGen::new())).unwrap();
    tree.set_active_content(String::from("abcdefg"));
    tree.create_sibling().unwrap();
    tree.indent(false).unwrap();
    let mut win = filled((4, 7), '#');
    win.move_cursor((2, 2));
    let (raster, pos) = tree_render(&mut win, tree.root_iter(), 2, 0).unwrap();
    assert_eq!(shown_row(&win, 0), "• abcde");
    assert_eq!(shown_row(&win, 1), "  fg   ");
    assert_eq!(shown_row(&win, 2), "  •    ");
    assert_eq!(shown_row(&win, 3), "       ");
    assert_eq!(win.pos, (3, 6));
    assert_eq!(pos, Some((2, 4)));
    for row in 0..4 {
        for col in 0..7 {
            let shown = win.screen[row as usize][col as usize];
            let expected = match raster.get((row, col)).unwrap() {
                Bullet(_) => '•',
                Text { id, offset } => {
                    tree.get_node(id).unwrap().content.chars().nth(offset).unwrap()
                }
                Filler(_) | Placeholder(_) | Empty => ' ',
            };
            assert_eq!(shown, expected);
        }
    }
}

#[test]
fn a_window_as_a_picture() {
    let mut win = TestWindow::new((2, 3), false);
    win.addstr("ab");
    assert_eq!(win.to_text(), "TestWindow max: (2, 3) pos: (0, 2)\n┌───┐\n│ab │\n│   │\n└───┘\n");
    let odd = TestWindow { max: (0, 0), pos: (-12, 2147483647), screen: vec![], print_on_refresh: false };
    assert_eq!(odd.to_text(), "TestWindow max: (0, 0) pos: (-12, 2147483647)\n┌┐\n└┘\n");
    let ragged = TestWindow {
        max: (-2147483648, 10),
        pos: (0, 0),
        screen: vec![vec!['a'], vec![], vec!['b', 'c']],
        print_on_refresh: false,
    };
    assert_eq!(ragged.to_text(), "TestWindow max: (-2147483648, 10) pos: (0, 0)\n┌─┐\n│a│\n││\n│bc│\n└─┘\n");
}
