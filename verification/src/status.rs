//! The status line.

use crate::editor::Cursor;
use crate::raster::{capacity, is_in_bounds, Point};
use crate::render::{
    add_blanks, addstr_right_aligned, advanced, blank_text, point_at, right_aligned_fits,
    written_at, Window,
};
use vstd::prelude::*;

verus! {

/// The name of the mode of a cursor, as the status line shows it.
pub open spec fn mode_label(cursor: Cursor) -> Seq<char> {
    match cursor {
        Cursor::Command(_) => "COMMAND"@,
        Cursor::Insert(_) => "INSERT"@,
    }
}

/// The character at place `k` of a window of the size `max` on which the
/// status line was drawn, where the window showed `before`: the first line
/// was blanked, then `label` was written from the top left on, then `msg` so
/// that it ends at the right edge of the first line, if it can be written
/// there.
pub open spec fn status_shown(
    before: spec_fn(int) -> char,
    max: Point,
    label: Seq<char>,
    msg: Seq<char>,
    k: int,
) -> char {
    let cap = capacity(max);
    let blanked = |j: int| written_at(before, 0, cap, blank_text(max.1 as int), max.1 as int, j);
    let labelled = |j: int| written_at(blanked, 0, cap, label, label.len() as int, j);
    if right_aligned_fits(max, msg.len() as int) {
        written_at(labelled, max.1 - msg.len(), cap, msg, msg.len() as int, k)
    } else {
        labelled(k)
    }
}

/// Where the cursor of the window stands after the status line was drawn:
/// behind `msg`, or behind `label` where `msg` was not written.
pub open spec fn status_cursor(max: Point, label: Seq<char>, msg: Seq<char>) -> Point {
    if right_aligned_fits(max, msg.len() as int) {
        advanced((0i32, (max.1 - msg.len()) as i32), max, msg.len() as int)
    } else {
        advanced((0i32, 0i32), max, label.len() as int)
    }
}

/// Draws the status line on its window: the mode of the cursor at the left
/// edge, and `msg` at the right edge. A window without a cell is left alone.
pub fn render_status<W: Window + ?Sized>(win: &mut W, cursor: Cursor, msg: &str)
    requires
        old(win).wf(),
    ensures
        final(win).wf(),
        final(win).max() == old(win).max(),
        if is_in_bounds((0i32, 0i32), old(win).max()) {
            &&& final(win).cursor() == status_cursor(old(win).max(), mode_label(cursor), msg@)
            &&& forall|k: int|
                0 <= k < capacity(old(win).max()) ==> #[trigger] final(win).glyph(point_at(k, old(win).max()))
                    == status_shown(
                    |j: int| old(win).glyph(point_at(j, old(win).max())),
                    old(win).max(),
                    mode_label(cursor),
                    msg@,
                    k,
                )
        } else {
            &&& final(win).cursor() == old(win).cursor()
            &&& forall|q: Point| #[trigger] final(win).glyph(q) == old(win).glyph(q)
        },
{
    let bounds = win.get_max_yx();
    if is_in_bounds((0, 0), bounds) {
        let ghost cap = capacity(bounds);
        let ghost label = mode_label(cursor);
        let ghost before = Seq::new(cap as nat, |j: int| win.glyph(point_at(j, win.max())));
        win.move_cursor((0, 0));
        proof {
            assert forall|k: int| 0 <= k < cap implies #[trigger] win.glyph(point_at(k, win.max())) == before[k] by {
                assert(win.glyph(point_at(k, bounds)) == old(win).glyph(point_at(k, bounds)));
            }
        }
        add_blanks(win, bounds.1 as usize);
        let ghost blanked = Seq::new(cap as nat, |j: int| win.glyph(point_at(j, win.max())));
        win.move_addstr(
            (0, 0),
            match cursor {
                Cursor::Command(_) => "COMMAND",
                Cursor::Insert(_) => "INSERT",
            },
        );
        let ghost labelled = Seq::new(cap as nat, |j: int| win.glyph(point_at(j, win.max())));
        addstr_right_aligned(win, msg);
        win.refresh();
        proof {
            assert forall|k: int| 0 <= k < cap implies #[trigger] win.glyph(
                point_at(k, bounds),
            ) == status_shown(|j: int| old(win).glyph(point_at(j, bounds)), bounds, label, msg@, k) by {
                assert(before[k] == old(win).glyph(point_at(k, old(win).max())));
                assert(blanked[k] == written_at(
                    |j: int| old(win).glyph(point_at(j, old(win).max())),
                    0,
                    cap,
                    blank_text(bounds.1 as int),
                    bounds.1 as int,
                    k,
                ));
                assert(labelled[k] == written_at(
                    |j: int|
                        written_at(
                            |i: int| old(win).glyph(point_at(i, old(win).max())),
                            0,
                            cap,
                            blank_text(bounds.1 as int),
                            bounds.1 as int,
                            j,
                        ),
                    0,
                    cap,
                    label,
                    label.len() as int,
                    k,
                ));
            }
        }
    }
}

} // verus!
