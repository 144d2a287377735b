//! Drawing the document on a window, and the grid that records what was drawn.

pub mod cells;
pub mod draw;
pub mod test_window;

use crate::raster::{capacity, index_of, is_in_bounds, lemma_index_of_in_bounds};
use vstd::prelude::*;
use vstd::string::StrSliceExecFns;

verus! {

pub use crate::raster::Point;
pub use cells::{
    anchor_cells, bullet_anchor, bullet_cells, bullet_drawable, cell_glyph, cells_len,
    children_anchor, children_cells, children_drawable, content_cells, content_text, glyph_of,
    glyphs, head_cells, insert_cells, node_cells, repeated, slice_cells, slice_lens,
    slices_text, split_lens, subtree_anchor, subtree_cells, subtree_drawable, text_cells,
    text_glyphs, total_len, tree_anchor, tree_cells, tree_fits,
};
pub use draw::{
    render_bullet, render_children, render_content_slices, render_content_slices_active,
    split_every_n, subtree_render, tree_render,
};
pub use test_window::TestWindow;

/// The position at place `i` of the reading order of a window of the size
/// `max`.
pub open spec fn point_at(i: int, max: Point) -> Point {
    ((i / (max.1 as int)) as i32, (i % (max.1 as int)) as i32)
}

/// Where the cursor of a window stands after `n` characters were written
/// from `pos` on: `n` places on in reading order, or on the last cell where
/// the window ends before that.
pub open spec fn advanced(pos: Point, max: Point, n: int) -> Point {
    if index_of(pos, max) + n < capacity(max) {
        point_at(index_of(pos, max) + n, max)
    } else {
        point_at(capacity(max) - 1, max)
    }
}

/// A place of the reading order of a window is a position on the window, and
/// the place of that position.
pub proof fn lemma_point_at(i: int, max: Point)
    requires
        0 <= i < capacity(max),
    ensures
        is_in_bounds(point_at(i, max), max),
        index_of(point_at(i, max), max) == i,
{
    let w = max.1 as int;
    vstd::arithmetic::div_mod::lemma_fundamental_div_mod(i, w);
    assert(0 <= i % w < w) by (nonlinear_arith)
        requires
            w > 0,
    ;
    let q = i / w;
    assert(0 <= q < max.0) by (nonlinear_arith)
        requires
            0 <= i < max.0 * w,
            w > 0,
            i == w * q + i % w,
            0 <= i % w < w,
    ;
    assert(w * q == q * w) by (nonlinear_arith);
}

/// Writing no character leaves the cursor where it is; writing `a` and then
/// `b` characters leaves it where writing `a + b` does; and the cursor stays
/// on the window.
pub proof fn lemma_advanced(pos: Point, max: Point, a: int, b: int)
    requires
        is_in_bounds(pos, max),
        0 <= a,
        0 <= b,
    ensures
        advanced(pos, max, 0) == pos,
        is_in_bounds(advanced(pos, max, a), max),
        advanced(advanced(pos, max, a), max, b) == advanced(pos, max, a + b),
{
    lemma_index_of_in_bounds(pos, max);
    let i = index_of(pos, max);
    let top = capacity(max) - 1;
    lemma_point_at(top, max);
    if i + a < capacity(max) {
        lemma_point_at(i + a, max);
    }
}

/// The character at place `k` of a window of `cap` cells after the first `n`
/// characters of `text` were written from the place `first` on, where the
/// window showed `before`: the character of `text` that came to stand there,
/// which on the last cell is the last one written, and elsewhere what the
/// window showed before.
pub open spec fn written_at(
    before: spec_fn(int) -> char,
    first: int,
    cap: int,
    text: Seq<char>,
    n: int,
    k: int,
) -> char {
    if k == cap - 1 && first + n > k && n > 0 {
        text[n - 1]
    } else if first <= k < first + n {
        text[k - first]
    } else {
        before(k)
    }
}

/// What the window shows, cell by cell in reading order.
pub open spec fn screen<W: Window + ?Sized>(win: &W) -> Seq<char> {
    Seq::new(capacity(win.max()) as nat, |j: int| win.glyph(point_at(j, win.max())))
}

/// The place of the cursor of a window of `cap` cells after `n` characters
/// were written from the place `first` on: `n` places on, or the last place
/// where the window ends before that.
pub open spec fn place_after(first: int, cap: int, n: int) -> int {
    if first + n < cap {
        first + n
    } else {
        cap - 1
    }
}

/// What a window shows that showed `before`, after `text` was written from
/// the place `first` on.
pub open spec fn overwritten(before: Seq<char>, first: int, text: Seq<char>) -> Seq<char> {
    Seq::new(
        before.len(),
        |k: int| written_at(|j: int| before[j], first, before.len() as int, text, text.len() as int, k),
    )
}

/// The cursor that has advanced by `n` characters stands at the place that
/// `place_after` names.
pub proof fn lemma_advanced_place(pos: Point, max: Point, n: int)
    requires
        is_in_bounds(pos, max),
        0 <= n,
    ensures
        index_of(advanced(pos, max, n), max) == place_after(index_of(pos, max), capacity(max), n),
{
    lemma_index_of_in_bounds(pos, max);
    lemma_point_at(place_after(index_of(pos, max), capacity(max), n), max);
}

/// Writing `a` and then `b` shows what writing `a` with `b` behind it does.
pub proof fn lemma_overwritten_twice(before: Seq<char>, first: int, a: Seq<char>, b: Seq<char>)
    requires
        0 <= first < before.len(),
    ensures
        overwritten(
            overwritten(before, first, a),
            place_after(first, before.len() as int, a.len() as int),
            b,
        ) == overwritten(before, first, a + b),
        overwritten(before, first, Seq::empty()) == before,
{
    let cap = before.len() as int;
    let mid = overwritten(before, first, a);
    let then = place_after(first, cap, a.len() as int);
    let both = overwritten(mid, then, b);
    let whole = overwritten(before, first, a + b);
    assert forall|k: int| 0 <= k < cap implies both[k] == whole[k] by {
        if then <= k < then + b.len() && k < cap - 1 {
            assert((a + b)[k - first] == b[k - then]);
        }
        if first <= k < first + a.len() && k < cap - 1 {
            assert((a + b)[k - first] == a[k - first]);
        }
        if k == cap - 1 {
            if b.len() > 0 {
                assert((a + b)[a.len() + b.len() - 1] == b[b.len() - 1]);
            } else if a.len() > 0 && first + a.len() > k {
                assert((a + b)[a.len() - 1] == a[a.len() - 1]);
            } else if first <= k < first + a.len() {
                assert((a + b)[k - first] == a[k - first]);
            }
        }
    }
    assert(both =~= whole);
    assert(overwritten(before, first, Seq::empty()) =~= before);
}

/// A text of `n` blanks.
pub open spec fn blank_text(n: int) -> Seq<char> {
    Seq::new(
        if n > 0 {
            n as nat
        } else {
            0
        },
        |i: int| ' ',
    )
}

/// What the editor draws on: a grid of characters with a cursor. A character
/// is written at the cursor, where the window then shows it, and the cursor
/// moves one place on in reading order; on the last cell it stays. The
/// drawing code relies on every window
/// keeping to this: a window that is implemented outside this crate is
/// taken at its word.
pub trait Window {
    /// What the window needs to hold for its operations to work.
    spec fn wf(&self) -> bool;

    /// The size of the window: rows, then columns.
    spec fn max(&self) -> Point;

    /// The position of the cursor.
    spec fn cursor(&self) -> Point;

    /// The character that the window shows at `pos`.
    spec fn glyph(&self, pos: Point) -> char;

    /// The size of the window.
    fn get_max_yx(&self) -> (r: Point)
        requires
            self.wf(),
        ensures
            r == self.max(),
    ;

    /// The position of the cursor.
    fn get_yx(&self) -> (r: Point)
        requires
            self.wf(),
        ensures
            r == self.cursor(),
    ;

    /// Puts the cursor at `pos`.
    fn move_cursor(&mut self, pos: Point)
        requires
            old(self).wf(),
        ensures
            final(self).wf(),
            final(self).max() == old(self).max(),
            final(self).cursor() == pos,
            forall|q: Point| #[trigger] final(self).glyph(q) == old(self).glyph(q),
    ;

    /// Writes `s` at the cursor, which moves on by as many places as `s` has
    /// characters.
    fn addstr(&mut self, s: &str)
        requires
            old(self).wf(),
            is_in_bounds(old(self).cursor(), old(self).max()),
        ensures
            final(self).wf(),
            final(self).max() == old(self).max(),
            final(self).cursor() == advanced(old(self).cursor(), old(self).max(), s@.len() as int),
            forall|k: int|
                0 <= k < capacity(old(self).max()) ==> #[trigger] final(self).glyph(point_at(k, old(self).max()))
                    == written_at(
                    |j: int| old(self).glyph(point_at(j, old(self).max())),
                    index_of(old(self).cursor(), old(self).max()),
                    capacity(old(self).max()),
                    s@,
                    s@.len() as int,
                    k,
                ),
    ;

    /// Writes `c` at the cursor, which moves one place on.
    fn addch(&mut self, c: char)
        requires
            old(self).wf(),
            is_in_bounds(old(self).cursor(), old(self).max()),
        ensures
            final(self).wf(),
            final(self).max() == old(self).max(),
            final(self).cursor() == advanced(old(self).cursor(), old(self).max(), 1),
            forall|k: int|
                0 <= k < capacity(old(self).max()) ==> #[trigger] final(self).glyph(point_at(k, old(self).max())) == if k
                    == index_of(old(self).cursor(), old(self).max()) {
                    c
                } else {
                    old(self).glyph(point_at(k, old(self).max()))
                },
    ;

    /// Puts the cursor at `pos` and writes `s` from there on.
    fn move_addstr(&mut self, pos: Point, s: &str)
        requires
            old(self).wf(),
            is_in_bounds(pos, old(self).max()),
        ensures
            final(self).wf(),
            final(self).max() == old(self).max(),
            final(self).cursor() == advanced(pos, old(self).max(), s@.len() as int),
            forall|k: int|
                0 <= k < capacity(old(self).max()) ==> #[trigger] final(self).glyph(point_at(k, old(self).max()))
                    == written_at(
                    |j: int| old(self).glyph(point_at(j, old(self).max())),
                    index_of(pos, old(self).max()),
                    capacity(old(self).max()),
                    s@,
                    s@.len() as int,
                    k,
                ),
    ;

    /// Brings what was written to the screen.
    fn refresh(&self)
        requires
            self.wf(),
    ;
}

/// The windows of the editor: the one that shows the document, and the status
/// line.
pub struct WindowStore {
    pub editor: Box<dyn Window>,
    pub status: Box<dyn Window>,
}

/// Writes `s` at the cursor: `addstr`, with what the window then shows said
/// of the window as a whole.
pub(crate) fn put_str<W: Window + ?Sized>(win: &mut W, s: &str)
    requires
        old(win).wf(),
        is_in_bounds(old(win).cursor(), old(win).max()),
    ensures
        final(win).wf(),
        final(win).max() == old(win).max(),
        final(win).cursor() == advanced(old(win).cursor(), old(win).max(), s@.len() as int),
        is_in_bounds(final(win).cursor(), final(win).max()),
        screen(&*final(win)) == overwritten(
            screen(&*old(win)),
            index_of(old(win).cursor(), old(win).max()),
            s@,
        ),
{
    proof {
        lemma_advanced(win.cursor(), win.max(), s@.len() as int, 0);
    }
    win.addstr(s);
    proof {
        assert(screen(&*win) =~= overwritten(
            screen(&*old(win)),
            index_of(old(win).cursor(), old(win).max()),
            s@,
        ));
    }
}

/// Writes `c` at the cursor: `addch`, with what the window then shows said of
/// the window as a whole.
pub(crate) fn put_char<W: Window + ?Sized>(win: &mut W, c: char)
    requires
        old(win).wf(),
        is_in_bounds(old(win).cursor(), old(win).max()),
    ensures
        final(win).wf(),
        final(win).max() == old(win).max(),
        final(win).cursor() == advanced(old(win).cursor(), old(win).max(), 1),
        is_in_bounds(final(win).cursor(), final(win).max()),
        screen(&*final(win)) == overwritten(
            screen(&*old(win)),
            index_of(old(win).cursor(), old(win).max()),
            seq![c],
        ),
{
    proof {
        lemma_advanced(win.cursor(), win.max(), 1, 0);
        lemma_index_of_in_bounds(win.cursor(), win.max());
    }
    win.addch(c);
    proof {
        assert(screen(&*win) =~= overwritten(
            screen(&*old(win)),
            index_of(old(win).cursor(), old(win).max()),
            seq![c],
        ));
    }
}

/// Writes `n` blanks at the cursor.
pub fn add_blanks<W: Window + ?Sized>(win: &mut W, n: usize)
    requires
        old(win).wf(),
        is_in_bounds(old(win).cursor(), old(win).max()),
    ensures
        final(win).wf(),
        final(win).max() == old(win).max(),
        final(win).cursor() == advanced(old(win).cursor(), old(win).max(), n as int),
        is_in_bounds(final(win).cursor(), final(win).max()),
        forall|k: int|
            0 <= k < capacity(old(win).max()) ==> #[trigger] final(win).glyph(point_at(k, old(win).max())) == written_at(
                |j: int| old(win).glyph(point_at(j, old(win).max())),
                index_of(old(win).cursor(), old(win).max()),
                capacity(old(win).max()),
                blank_text(n as int),
                n as int,
                k,
            ),
        screen(&*final(win)) == overwritten(
            screen(&*old(win)),
            index_of(old(win).cursor(), old(win).max()),
            blank_text(n as int),
        ),
{
    let mut i: usize = 0;
    let ghost first = index_of(win.cursor(), win.max());
    let ghost cap = capacity(win.max());
    proof {
        lemma_advanced(win.cursor(), win.max(), 0, 0);
        lemma_index_of_in_bounds(win.cursor(), win.max());
    }
    while i < n
        invariant
            i <= n,
            win.wf(),
            win.max() == old(win).max(),
            is_in_bounds(old(win).cursor(), win.max()),
            win.cursor() == advanced(old(win).cursor(), win.max(), i as int),
            is_in_bounds(win.cursor(), win.max()),
            first == index_of(old(win).cursor(), win.max()),
            cap == capacity(win.max()),
            0 <= first < cap,
            forall|k: int|
                0 <= k < cap ==> #[trigger] win.glyph(point_at(k, win.max())) == written_at(
                    |j: int| old(win).glyph(point_at(j, old(win).max())),
                    first,
                    cap,
                    blank_text(i as int),
                    i as int,
                    k,
                ),
        decreases n - i,
    {
        proof {
            lemma_advanced(old(win).cursor(), win.max(), i as int, 1);
            lemma_advanced(old(win).cursor(), win.max(), i as int + 1, 0);
        }
        let ghost here = if first + i < cap {
            first + i
        } else {
            cap - 1
        };
        let ghost before = Seq::new(cap as nat, |j: int| win.glyph(point_at(j, win.max())));
        proof {
            lemma_point_at(here, win.max());
            assert(index_of(win.cursor(), win.max()) == here);
        }
        win.addch(' ');
        proof {
            assert forall|k: int| 0 <= k < cap implies #[trigger] win.glyph(point_at(k, win.max())) == written_at(
                |j: int| old(win).glyph(point_at(j, old(win).max())),
                first,
                cap,
                blank_text(i + 1),
                i + 1,
                k,
            ) by {
                assert(before[k] == written_at(
                    |j: int| old(win).glyph(point_at(j, old(win).max())),
                    first,
                    cap,
                    blank_text(i as int),
                    i as int,
                    k,
                ));
                assert(win.glyph(point_at(k, win.max())) == if k == here {
                    ' '
                } else {
                    before[k]
                });
            }
        }
        i += 1;
    }
    proof {
        assert(screen(&*win) =~= overwritten(
            screen(&*old(win)),
            index_of(old(win).cursor(), old(win).max()),
            blank_text(n as int),
        ));
    }
}

/// Blanks the window from the cursor to its end, and returns how many cells
/// that were: all those from the cursor's on. The cells before the cursor show
/// what they showed, and the cursor comes to rest on the last cell.
pub fn clear_remaining<W: Window + ?Sized>(win: &mut W) -> (r: usize)
    requires
        old(win).wf(),
        is_in_bounds(old(win).cursor(), old(win).max()),
        capacity(old(win).max()) <= usize::MAX,
    ensures
        final(win).wf(),
        final(win).max() == old(win).max(),
        r == capacity(old(win).max()) - index_of(old(win).cursor(), old(win).max()),
        final(win).cursor() == point_at(capacity(old(win).max()) - 1, old(win).max()),
        forall|k: int|
            0 <= k < capacity(old(win).max()) ==> #[trigger] final(win).glyph(
                point_at(k, old(win).max()),
            ) == if index_of(old(win).cursor(), old(win).max()) <= k {
                ' '
            } else {
                old(win).glyph(point_at(k, old(win).max()))
            },
        screen(&*final(win)) == overwritten(
            screen(&*old(win)),
            index_of(old(win).cursor(), old(win).max()),
            blank_text(r as int),
        ),
{
    let size = win.get_max_yx();
    let pos = win.get_yx();
    proof {
        lemma_index_of_in_bounds(pos, size);
        let w = size.1 as int;
        let below = size.0 - pos.0 - 1;
        assert(below * w == size.0 * w - pos.0 * w - w) by (nonlinear_arith)
            requires
                below == size.0 - pos.0 - 1,
        ;
        assert(0 <= below * w <= 0x7fff_ffff * 0x7fff_ffff) by (nonlinear_arith)
            requires
                0 <= below <= 0x7fff_ffff,
                0 <= w <= 0x7fff_ffff,
        ;
    }
    let remaining: u64 = (size.1 - pos.1) as u64 + (size.0 - pos.0 - 1) as u64 * size.1 as u64;
    add_blanks(win, remaining as usize);
    remaining as usize
}

/// Blanks the rest of the cursor's line, and returns how many cells that
/// were. Every other cell shows what it showed. The cursor comes to rest at
/// the start of the next line, or on the last cell of the window.
pub fn clear_remaining_line<W: Window + ?Sized>(win: &mut W) -> (r: usize)
    requires
        old(win).wf(),
        is_in_bounds(old(win).cursor(), old(win).max()),
    ensures
        final(win).wf(),
        final(win).max() == old(win).max(),
        r == old(win).max().1 - old(win).cursor().1,
        final(win).cursor() == advanced(old(win).cursor(), old(win).max(), r as int),
        forall|k: int|
            0 <= k < capacity(old(win).max()) ==> #[trigger] final(win).glyph(
                point_at(k, old(win).max()),
            ) == if index_of(old(win).cursor(), old(win).max()) <= k < index_of(
                old(win).cursor(),
                old(win).max(),
            ) + r {
                ' '
            } else {
                old(win).glyph(point_at(k, old(win).max()))
            },
{
    let size = win.get_max_yx();
    let pos = win.get_yx();
    proof {
        lemma_index_of_in_bounds(pos, size);
        let w = size.1 as int;
        assert(pos.0 * w + w <= size.0 * w) by (nonlinear_arith)
            requires
                0 <= pos.0 < size.0,
                w > 0,
        ;
    }
    let remaining_line = (size.1 - pos.1) as usize;
    add_blanks(win, remaining_line);
    remaining_line
}

/// Writes `txt` on the first line so that it ends at the right edge. Nothing
/// is written where `txt` is empty, or longer than a line, or where the window
/// has no line.
pub fn addstr_right_aligned<W: Window + ?Sized>(win: &mut W, txt: &str)
    requires
        old(win).wf(),
    ensures
        final(win).wf(),
        final(win).max() == old(win).max(),
        final(win).cursor() == if right_aligned_fits(old(win).max(), txt@.len() as int) {
            advanced(
                (0i32, (old(win).max().1 - txt@.len()) as i32),
                old(win).max(),
                txt@.len() as int,
            )
        } else {
            old(win).cursor()
        },
        forall|k: int|
            0 <= k < capacity(old(win).max()) ==> #[trigger] final(win).glyph(point_at(k, old(win).max()))
                == if right_aligned_fits(old(win).max(), txt@.len() as int) {
                written_at(
                    |j: int| old(win).glyph(point_at(j, old(win).max())),
                    old(win).max().1 - txt@.len(),
                    capacity(old(win).max()),
                    txt@,
                    txt@.len() as int,
                    k,
                )
            } else {
                old(win).glyph(point_at(k, old(win).max()))
            },
{
    let bounds = win.get_max_yx();
    let len = txt.unicode_len();
    if bounds.0 > 0 && bounds.1 > 0 && 0 < len && len <= bounds.1 as usize {
        win.move_addstr((0, bounds.1 - len as i32), txt);
    }
}

/// Whether a text of `len` characters can be written at the right edge of the
/// first line of a window of the size `max`.
pub open spec fn right_aligned_fits(max: Point, len: int) -> bool {
    max.0 > 0 && 0 < len <= max.1
}

} // verus!
