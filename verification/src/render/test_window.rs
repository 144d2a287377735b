//! A window in memory.

use super::{advanced, lemma_advanced, lemma_point_at, point_at, written_at, Window};
use crate::raster::{
    capacity, index_of, is_in_bounds, lemma_index_of_in_bounds, lemma_linear_move_index,
    linear_move, Point,
};
use crate::text::{decimal, push_char, push_decimal};
use vstd::prelude::*;
use vstd::string::{StrSliceExecFns, StringExecFns};

verus! {

/// A window in memory, which records the characters written to it.
#[derive(Debug)]
pub struct TestWindow {
    /// The size of the window: rows, then columns.
    pub max: Point,
    /// The position of the cursor.
    pub pos: Point,
    /// The characters that the window shows, row by row.
    pub screen: Vec<Vec<char>>,
    /// Whether the owner wants the window printed at each refresh. The
    /// library prints nothing, so `refresh` does not read this flag: an
    /// owner who wants the picture prints what `to_text` returns.
    pub print_on_refresh: bool,
}

/// The character at place `k` of a window after the first `n` characters of
/// `text` were written from its cursor on: the character of `text` that came
/// to stand there, which on the last cell is the last one written, and
/// elsewhere what the window showed before.
pub open spec fn written(before: TestWindow, text: Seq<char>, n: int, k: int) -> char {
    let first = index_of(before.pos, before.max);
    if k == capacity(before.max) - 1 && first + n > k && n > 0 {
        text[n - 1]
    } else if first <= k < first + n {
        text[k - first]
    } else {
        before.at_place(k)
    }
}

/// A row of `n` blanks.
fn blank_row(n: usize) -> (r: Vec<char>)
    ensures
        r@ == Seq::new(n as nat, |i: int| ' '),
{
    let mut row: Vec<char> = Vec::new();
    let mut i: usize = 0;
    while i < n
        invariant
            i <= n,
            row@ == Seq::new(i as nat, |j: int| ' '),
        decreases n - i,
    {
        row.push(' ');
        proof {
            assert(row@ =~= Seq::new((i + 1) as nat, |j: int| ' '));
        }
        i += 1;
    }
    row
}

/// A position as a text: its two numbers in round brackets, with a comma and
/// a blank between them.
pub open spec fn point_text(p: Point) -> Seq<char> {
    seq!['('] + decimal(p.0 as int) + seq![',', ' '] + decimal(p.1 as int) + seq![')']
}

/// An edge of a frame around lines of `width` characters: the corner `left`,
/// the edge itself, the corner `right`, and a line feed.
pub open spec fn frame_edge(left: char, width: nat, right: char) -> Seq<char> {
    seq![left] + Seq::new(width, |i: int| '─') + seq![right, '\n']
}

/// The first `k` rows of a screen, each between the two sides of a frame and
/// with a line feed behind it.
pub open spec fn framed_rows(screen: Seq<Vec<char>>, k: nat) -> Seq<char>
    decreases k,
{
    if k == 0 {
        Seq::empty()
    } else {
        framed_rows(screen, (k - 1) as nat) + seq!['│'] + screen[k - 1]@ + seq!['│', '\n']
    }
}

/// Appends a position to `out`, as `point_text` writes it.
fn push_point(out: &mut String, p: Point)
    ensures
        final(out)@ == old(out)@ + point_text(p),
{
    push_char(out, '(');
    push_decimal(out, p.0);
    push_char(out, ',');
    push_char(out, ' ');
    push_decimal(out, p.1);
    push_char(out, ')');
    proof {
        assert(out@ =~= old(out)@ + point_text(p));
    }
}

/// Appends an edge of a frame to `out`, as `frame_edge` writes it.
fn push_edge(out: &mut String, left: char, width: usize, right: char)
    ensures
        final(out)@ == old(out)@ + frame_edge(left, width as nat, right),
{
    push_char(out, left);
    let mut i: usize = 0;
    while i < width
        invariant
            i <= width,
            out@ == old(out)@ + seq![left] + Seq::new(i as nat, |j: int| '─'),
        decreases width - i,
    {
        push_char(out, '─');
        proof {
            assert(out@ =~= old(out)@ + seq![left] + Seq::new((i + 1) as nat, |j: int| '─'));
        }
        i += 1;
    }
    push_char(out, right);
    push_char(out, '\n');
    proof {
        assert(out@ =~= old(out)@ + frame_edge(left, width as nat, right));
    }
}

impl TestWindow {
    /// The window as a picture: a line that names its size and the position
    /// of its cursor, and below it the rows of the screen in a frame as wide
    /// as the first row.
    pub open spec fn picture(&self) -> Seq<char> {
        let width = if self.screen@.len() > 0 {
            self.screen@[0]@.len()
        } else {
            0
        };
        "TestWindow max: "@ + point_text(self.max) + " pos: "@ + point_text(self.pos) + "\n"@
            + frame_edge('┌', width, '┐') + framed_rows(self.screen@, self.screen@.len())
            + frame_edge('└', width, '┘')
    }

    /// The window as a picture, for a reader.
    pub fn to_text(&self) -> (r: String)
        ensures
            r@ == self.picture(),
    {
        let width = if self.screen.len() > 0 {
            self.screen[0].len()
        } else {
            0
        };
        let mut out = String::from_str("TestWindow max: ");
        push_point(&mut out, self.max);
        out.append(" pos: ");
        push_point(&mut out, self.pos);
        out.append("\n");
        push_edge(&mut out, '┌', width, '┐');
        let ghost head = out@;
        let mut i: usize = 0;
        while i < self.screen.len()
            invariant
                i <= self.screen.len(),
                out@ == head + framed_rows(self.screen@, i as nat),
            decreases self.screen.len() - i,
        {
            push_char(&mut out, '│');
            let row = &self.screen[i];
            let ghost line = out@;
            let mut j: usize = 0;
            while j < row.len()
                invariant
                    j <= row.len(),
                    out@ == line + row@.take(j as int),
                decreases row.len() - j,
            {
                push_char(&mut out, row[j]);
                proof {
                    assert(out@ =~= line + row@.take(j + 1));
                }
                j += 1;
            }
            push_char(&mut out, '│');
            push_char(&mut out, '\n');
            proof {
                assert(row@.take(row@.len() as int) =~= row@);
                assert(out@ =~= head + framed_rows(self.screen@, (i + 1) as nat));
            }
            i += 1;
        }
        push_edge(&mut out, '└', width, '┘');
        proof {
            assert(out@ =~= self.picture());
        }
        out
    }

    /// The screen has `max.0` rows of `max.1` characters each.
    pub open spec fn shaped(&self) -> bool {
        &&& self.screen@.len() == self.max.0
        &&& forall|i: int|
            0 <= i < self.screen@.len() ==> (#[trigger] self.screen@[i])@.len() == self.max.1
    }

    /// The character at `pos`.
    pub open spec fn at(&self, pos: Point) -> char {
        self.screen@[pos.0 as int]@[pos.1 as int]
    }

    /// A blank window of `max.0` rows and `max.1` columns, with the cursor at
    /// the top left.
    pub fn new(max: Point, print_on_refresh: bool) -> (r: TestWindow)
        requires
            max.0 >= 0,
            max.1 >= 0,
        ensures
            r.shaped(),
            r.max == max,
            r.pos == (0i32, 0i32),
            r.print_on_refresh == print_on_refresh,
            forall|pos: Point| is_in_bounds(pos, max) ==> r.at(pos) == ' ',
    {
        let mut screen: Vec<Vec<char>> = Vec::new();
        let mut i: i32 = 0;
        while i < max.0
            invariant
                0 <= i <= max.0,
                max.1 >= 0,
                screen@.len() == i,
                forall|j: int|
                    0 <= j < screen@.len() ==> (#[trigger] screen@[j])@ == Seq::new(
                        max.1 as nat,
                        |k: int| ' ',
                    ),
            decreases max.0 - i,
        {
            screen.push(blank_row(max.1 as usize));
            i += 1;
        }
        TestWindow { max, pos: (0, 0), screen, print_on_refresh }
    }

    /// Whether the cursor stands on the last cell of the window.
    fn is_cursor_at_end(&self) -> (r: bool)
        requires
            is_in_bounds(self.pos, self.max),
        ensures
            r == (index_of(self.pos, self.max) == capacity(self.max) - 1),
    {
        proof {
            lemma_index_of_in_bounds(self.pos, self.max);
            lemma_point_at(capacity(self.max) - 1, self.max);
            let w = self.max.1 as int;
            let top = self.max.0 - 1;
            assert(top * w + w == self.max.0 * w) by (nonlinear_arith)
                requires
                    top == self.max.0 - 1,
            ;
            if self.pos.0 < top {
                assert(self.pos.0 * w + w <= top * w) by (nonlinear_arith)
                    requires
                        self.pos.0 < top,
                        w > 0,
                ;
            }
        }
        self.pos.0 == self.max.0 - 1 && self.pos.1 == self.max.1 - 1
    }
}

impl TestWindow {
    /// The character recorded at row `i`, column `j`, if the screen reaches
    /// that far.
    pub open spec fn spec_get(&self, i: int, j: int) -> Option<char> {
        if 0 <= i < self.screen@.len() && 0 <= j < self.screen@[i]@.len() {
            Some(self.screen@[i]@[j])
        } else {
            None
        }
    }

    /// The character recorded at row `i`, column `j`, if the screen reaches
    /// that far.
    pub fn get(&self, i: i32, j: i32) -> (r: Option<char>)
        ensures
            r == self.spec_get(i as int, j as int),
    {
        if 0 <= i && (i as usize) < self.screen.len() {
            let row = &self.screen[i as usize];
            if 0 <= j && (j as usize) < row.len() {
                return Some(row[j as usize]);
            }
        }
        None
    }

    /// The character at place `k` of the reading order.
    pub open spec fn at_place(&self, k: int) -> char {
        self.at(point_at(k, self.max))
    }

    /// Whether row `i` of the two windows holds the same characters in its
    /// first `n` columns.
    pub open spec fn same_row(&self, other: &TestWindow, i: int, n: int) -> bool {
        forall|j: int| 0 <= j < n ==> self.spec_get(i, j) == other.spec_get(i, j)
    }
}

impl PartialEq for TestWindow {
    /// Two windows are equal where they have the same size, the same cursor
    /// and the same characters on the screen.
    fn eq(&self, other: &TestWindow) -> (r: bool) {
        if self.max.0 != other.max.0 || self.max.1 != other.max.1 || self.pos.0 != other.pos.0
            || self.pos.1 != other.pos.1 {
            return false;
        }
        let mut i: i32 = 0;
        while i < self.max.0
            invariant
                0 <= i,
                forall|k: int| 0 <= k < i ==> self.same_row(other, k, self.max.1 as int),
            decreases self.max.0 - i,
        {
            let mut j: i32 = 0;
            while j < self.max.1
                invariant
                    0 <= j,
                    0 <= i < self.max.0,
                    self.same_row(other, i as int, j as int),
                decreases self.max.1 - j,
            {
                if self.get(i, j) != other.get(i, j) {
                    proof {
                        assert(self.spec_get(i as int, j as int) != other.spec_get(
                            i as int,
                            j as int,
                        ));
                        assert(!self.same_row(other, i as int, self.max.1 as int));
                    }
                    return false;
                }
                j += 1;
            }
            i += 1;
        }
        true
    }
}

impl vstd::std_specs::cmp::PartialEqSpecImpl for TestWindow {
    open spec fn obeys_eq_spec() -> bool {
        true
    }

    open spec fn eq_spec(&self, other: &TestWindow) -> bool {
        &&& self.max == other.max
        &&& self.pos == other.pos
        &&& forall|i: int| 0 <= i < self.max.0 ==> self.same_row(other, i, self.max.1 as int)
    }
}

impl Window for TestWindow {
    open spec fn wf(&self) -> bool {
        self.shaped()
    }

    open spec fn max(&self) -> Point {
        self.max
    }

    open spec fn cursor(&self) -> Point {
        self.pos
    }

    open spec fn glyph(&self, pos: Point) -> char {
        self.at(pos)
    }

    fn get_max_yx(&self) -> (r: Point) {
        self.max
    }

    fn get_yx(&self) -> (r: Point) {
        self.pos
    }

    fn move_cursor(&mut self, pos: Point) {
        self.pos = pos;
    }

    fn addstr(&mut self, s: &str)
        ensures
            forall|k: int|
                0 <= k < capacity(old(self).max) ==> final(self).at_place(k) == written(
                    *old(self),
                    s@,
                    s@.len() as int,
                    k,
                ),
    {
        let n = s.unicode_len();
        let mut i: usize = 0;
        let ghost first = index_of(self.pos, self.max);
        let ghost cap = capacity(self.max);
        proof {
            lemma_advanced(self.pos, self.max, 0, 0);
            lemma_index_of_in_bounds(self.pos, self.max);
        }
        while i < n
            invariant
                i <= n,
                n == s@.len(),
                self.shaped(),
                self.max == old(self).max,
                is_in_bounds(old(self).pos, self.max),
                first == index_of(old(self).pos, self.max),
                cap == capacity(self.max),
                0 <= first < cap,
                self.pos == advanced(old(self).pos, self.max, i as int),
                forall|k: int|
                    0 <= k < cap ==> self.at_place(k) == written(*old(self), s@, i as int, k),
            decreases n - i,
        {
            proof {
                lemma_advanced(old(self).pos, self.max, i as int, 1);
            }
            let ghost before = *self;
            let ghost here = if first + i < cap {
                first + i
            } else {
                cap - 1
            };
            proof {
                lemma_point_at(here, self.max);
            }
            self.addch(s.get_char(i));
            proof {
                assert forall|k: int| 0 <= k < cap implies self.at_place(k) == written(
                    *old(self),
                    s@,
                    i + 1,
                    k,
                ) by {
                    lemma_point_at(k, self.max);
                    if k != here {
                        assert(point_at(k, self.max) != before.pos);
                        assert(self.at_place(k) == before.at_place(k));
                    }
                }
            }
            i += 1;
        }
        proof {
            assert forall|k: int| 0 <= k < cap implies #[trigger] self.glyph(point_at(k, self.max)) == written_at(
                |j: int| old(self).glyph(point_at(j, old(self).max())),
                first,
                cap,
                s@,
                s@.len() as int,
                k,
            ) by {
                assert(self.glyph(point_at(k, self.max)) == self.at_place(k));
                assert(old(self).glyph(point_at(k, old(self).max())) == old(self).at_place(k));
            }
        }
    }

    fn addch(&mut self, c: char)
        ensures
            final(self).at(old(self).pos) == c,
            forall|pos: Point|
                is_in_bounds(pos, old(self).max) && pos != old(self).pos ==> final(self).at(pos)
                    == old(self).at(pos),
    {
        let r = self.pos.0 as usize;
        let k = self.pos.1 as usize;
        self.screen[r][k] = c;
        proof {
            lemma_index_of_in_bounds(self.pos, self.max);
            lemma_linear_move_index(self.pos, self.max, 1);
        }
        if !self.is_cursor_at_end() {
            match linear_move(self.pos, self.max, 1) {
                Some(next) => {
                    proof {
                        lemma_index_of_in_bounds(next, self.max);
                    }
                    self.pos = next;
                },
                None => {},
            }
        } else {
            proof {
                lemma_point_at(capacity(self.max) - 1, self.max);
            }
        }
        proof {
            assert forall|k: int| 0 <= k < capacity(self.max) implies #[trigger] self.glyph(point_at(k, self.max))
                == if k == index_of(old(self).pos, self.max) {
                c
            } else {
                old(self).glyph(point_at(k, old(self).max()))
            } by {
                lemma_point_at(k, self.max);
            }
        }
    }

    fn move_addstr(&mut self, pos: Point, s: &str)
        ensures
            forall|k: int|
                0 <= k < capacity(old(self).max) ==> final(self).at_place(k) == written(
                    (TestWindow { pos, ..*old(self) }),
                    s@,
                    s@.len() as int,
                    k,
                ),
    {
        self.pos = pos;
        let ghost moved = *self;
        self.addstr(s);
        proof {
            assert forall|k: int| 0 <= k < capacity(self.max) implies #[trigger] self.glyph(point_at(k, self.max))
                == written_at(
                |j: int| old(self).glyph(point_at(j, old(self).max())),
                index_of(pos, self.max),
                capacity(self.max),
                s@,
                s@.len() as int,
                k,
            ) by {
                assert(self.glyph(point_at(k, self.max)) == self.at_place(k));
                assert(moved.at_place(k) == old(self).glyph(point_at(k, old(self).max())));
            }
        }
    }

    /// Does nothing: a window in memory has no screen to bring anything to.
    fn refresh(&self) {
    }
}

} // verus!
