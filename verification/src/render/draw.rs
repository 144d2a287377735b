//! Drawing the bullets of the document on a window and on the grid.

use super::cells::{
    anchor_cells, bullet_anchor, bullet_cells, bullet_drawable, cells_len, children_anchor,
    children_cells, children_drawable, content_cells, content_text, glyphs, head_cells,
    insert_cells, lemma_anchor_names_bullet, lemma_bullet_cells, lemma_bullet_glyphs,
    lemma_cells_len_grows, lemma_children_anchor, lemma_children_anchor_found,
    lemma_children_anchor_names_bullet, lemma_children_prefix, lemma_line_rest,
    lemma_slice_cells_len, lemma_slices_glyphs, lemma_slices_text_len, lemma_subtree_anchor,
    lemma_total_len_prefix, lemma_under_a_child, node_cells, repeated, slice_cells, slice_lens,
    slices_text, split_lens, subtree_anchor, subtree_cells, subtree_drawable, text_cells,
    text_glyphs, total_len, tree_cells, tree_fits,
};
use super::{
    add_blanks, advanced, blank_text, clear_remaining, lemma_advanced, lemma_advanced_place,
    lemma_overwritten_twice, overwritten, point_at, put_char, put_str, screen, Window,
};
use crate::error::Error;
use crate::raster::{capacity, index_of, is_in_bounds, PixelState, Point, Raster};
use crate::tree::model::{in_subtree, rank_of, ranked};
use crate::tree::NodeIterator;
use vstd::prelude::*;
use vstd::string::{StrSliceExecFns, StringExecFns};

verus! {

/// Writes `n` cells that all hold `state`.
pub fn push_repeated(raster: &mut Raster, state: PixelState, n: usize)
    requires
        old(raster)@.cells.len() + n <= capacity(old(raster)@.max),
    ensures
        final(raster)@.max == old(raster)@.max,
        final(raster)@.cells == old(raster)@.cells + repeated(state, n as int),
        final(raster).wf(),
{
    let mut i: usize = 0;
    while i < n
        invariant
            i <= n,
            raster@.max == old(raster)@.max,
            raster@.cells == old(raster)@.cells + repeated(state, i as int),
            old(raster)@.cells.len() + n <= capacity(old(raster)@.max),
        decreases n - i,
    {
        raster.push(state);
        proof {
            assert(raster@.cells =~= old(raster)@.cells + repeated(state, i + 1));
        }
        i += 1;
    }
    proof {
        assert(repeated(state, 0) =~= Seq::empty());
        assert(raster@.cells =~= old(raster)@.cells + repeated(state, n as int));
    }
}

/// Writes the cells of the `n` characters of bullet `id` from the offset
/// `from` on.
fn push_text(raster: &mut Raster, id: i32, from: usize, n: usize)
    requires
        old(raster)@.cells.len() + n <= capacity(old(raster)@.max),
        from + n <= usize::MAX,
    ensures
        final(raster)@.max == old(raster)@.max,
        final(raster)@.cells == old(raster)@.cells + text_cells(id, from as int, n as int),
        final(raster).wf(),
{
    let mut i: usize = 0;
    while i < n
        invariant
            i <= n,
            from + n <= usize::MAX,
            raster@.max == old(raster)@.max,
            raster@.cells == old(raster)@.cells + text_cells(id, from as int, i as int),
            old(raster)@.cells.len() + n <= capacity(old(raster)@.max),
        decreases n - i,
    {
        raster.push(PixelState::Text { id, offset: from + i });
        proof {
            assert(raster@.cells =~= old(raster)@.cells + text_cells(id, from as int, i + 1));
        }
        i += 1;
    }
    proof {
        assert(text_cells(id, from as int, 0) =~= Seq::empty());
        assert(raster@.cells =~= old(raster)@.cells + text_cells(id, from as int, n as int));
    }
}

/// Cuts `string` into slices of `n` characters each; the last slice holds
/// what is left, at least one character. An empty text has no slice.
pub fn split_every_n<'a>(string: &'a str, n: usize) -> (r: Vec<&'a str>)
    requires
        n > 0 || string@.len() == 0,
    ensures
        slice_lens(r@) == split_lens(string@.len() as int, n as int),
        total_len(slice_lens(r@), r@.len() as int) == string@.len(),
        forall|i: int|
            0 <= i < r@.len() ==> (#[trigger] r@[i])@ == string@.subrange(
                total_len(slice_lens(r@), i),
                total_len(slice_lens(r@), i + 1),
            ),
{
    let len = string.unicode_len();
    let mut slices: Vec<&'a str> = Vec::new();
    if len == 0 {
        proof {
            assert(slice_lens(slices@) =~= split_lens(0, n as int));
        }
        return slices;
    }
    let mut start: usize = 0;
    while len - start > n
        invariant
            n > 0,
            len == string@.len(),
            start < len,
            start == total_len(slice_lens(slices@), slices@.len() as int),
            slice_lens(slices@) + split_lens(len - start, n as int) == split_lens(
                len as int,
                n as int,
            ),
            forall|i: int|
                0 <= i < slices@.len() ==> (#[trigger] slices@[i])@ == string@.subrange(
                    total_len(slice_lens(slices@), i),
                    total_len(slice_lens(slices@), i + 1),
                ),
        decreases len - start,
    {
        let ghost before = slices@;
        slices.push(string.substring_char(start, start + n));
        proof {
            let lens = slice_lens(slices@);
            assert(lens =~= slice_lens(before) + seq![n as int]);
            assert(split_lens(len - start, n as int) == seq![n as int] + split_lens(
                len - start - n,
                n as int,
            ));
            assert(lens + split_lens(len - start - n, n as int) =~= slice_lens(before)
                + split_lens(len - start, n as int));
            lemma_total_len_prefix(slice_lens(before), seq![n as int], before.len() as int);
            assert forall|i: int| 0 <= i < slices@.len() implies (#[trigger] slices@[i])@
                == string@.subrange(total_len(lens, i), total_len(lens, i + 1)) by {
                lemma_total_len_prefix(slice_lens(before), seq![n as int], i);
                if i < before.len() {
                    assert(slices@[i] == before[i]);
                    lemma_total_len_prefix(slice_lens(before), seq![n as int], i + 1);
                }
            }
        }
        start = start + n;
    }
    let ghost before = slices@;
    slices.push(string.substring_char(start, len));
    proof {
        let lens = slice_lens(slices@);
        let last = seq![(len - start) as int];
        assert(lens =~= slice_lens(before) + last);
        assert(split_lens(len - start, n as int) =~= last);
        lemma_total_len_prefix(slice_lens(before), last, before.len() as int);
        assert forall|i: int| 0 <= i < slices@.len() implies (#[trigger] slices@[i])@
            == string@.subrange(total_len(lens, i), total_len(lens, i + 1)) by {
            lemma_total_len_prefix(slice_lens(before), last, i);
            if i < before.len() {
                assert(slices@[i] == before[i]);
                lemma_total_len_prefix(slice_lens(before), last, i + 1);
            }
        }
    }
    slices
}

/// A window that showed `first` before a drawing began at `start`, and on
/// which `sofar` was written since, shows after `more` as well what writing
/// both from `start` on makes of `first`.
proof fn lemma_wrote_more(
    first: Seq<char>,
    start: Point,
    max: Point,
    sofar: Seq<char>,
    more: Seq<char>,
    now: Seq<char>,
)
    requires
        is_in_bounds(start, max),
        first.len() == capacity(max),
        now == overwritten(
            overwritten(first, index_of(start, max), sofar),
            index_of(advanced(start, max, sofar.len() as int), max),
            more,
        ),
    ensures
        now == overwritten(first, index_of(start, max), sofar + more),
{
    crate::raster::lemma_index_of_in_bounds(start, max);
    lemma_advanced_place(start, max, sofar.len() as int);
    lemma_overwritten_twice(first, index_of(start, max), sofar, more);
}

/// Draws the text of a bullet, given in slices, on the window and on the
/// grid, and records where the cursor stood before the character
/// `insert_index`, if one is given.
fn draw_slices<W: Window + ?Sized>(
    win: &mut W,
    slices: &Vec<&str>,
    limit: usize,
    indentation_str: &str,
    node_id: i32,
    insert_index: Option<usize>,
    raster: &mut Raster,
) -> (r: Result<Option<Point>, Error>)
    requires
        old(win).wf(),
        is_in_bounds(old(win).cursor(), old(win).max()),
        old(raster).wf(),
        capacity(old(raster)@.max) <= usize::MAX,
        insert_index matches Some(index) ==> index <= total_len(
            slice_lens(slices@),
            slices@.len() as int,
        ),
    ensures
        final(win).wf(),
        final(win).max() == old(win).max(),
        is_in_bounds(final(win).cursor(), final(win).max()),
        final(raster).wf(),
        final(raster)@.max == old(raster)@.max,
        r is Ok <==> old(raster)@.cells.len() + content_cells(
            node_id,
            slice_lens(slices@),
            limit as int,
            indentation_str@.len() as int,
        ).len() <= capacity(old(raster)@.max),
        match r {
            Ok(p) => {
                let lens = slice_lens(slices@);
                let indent = indentation_str@.len() as int;
                let cells = content_cells(node_id, lens, limit as int, indent);
                &&& final(raster)@.cells == old(raster)@.cells + cells
                &&& final(win).cursor() == advanced(
                    old(win).cursor(),
                    old(win).max(),
                    cells.len() as int,
                )
                &&& screen(&*final(win)) == overwritten(
                    screen(&*old(win)),
                    index_of(old(win).cursor(), old(win).max()),
                    content_text(slices@, limit as int, indentation_str@),
                )
                &&& p == match insert_index {
                    Some(index) => Some(
                        advanced(
                            old(win).cursor(),
                            old(win).max(),
                            anchor_cells(lens, limit as int, indent, index as int),
                        ),
                    ),
                    None => None,
                }
            },
            Err(e) => e == Error::OutOfBounds,
        },
{
    let ghost lens = slice_lens(slices@);
    let ghost shown = screen(&*win);
    let ghost indent_len = indentation_str@.len() as int;
    let ghost start = win.cursor();
    let ghost max = win.max();
    let ghost base = raster@.cells;
    proof {
        lemma_advanced(start, max, 0, 0);
    }
    if slices.len() == 0 {
        if raster.free() < 1 {
            return Err(Error::OutOfBounds);
        }
        let pos = win.get_yx();
        put_char(win, ' ');
        raster.push(PixelState::Placeholder(node_id));
        proof {
            lemma_advanced(start, max, 1, 0);
            assert(raster@.cells =~= base + content_cells(
                node_id,
                lens,
                limit as int,
                indent_len,
            ));
        }
        return Ok(
            match insert_index {
                Some(_) => Some(pos),
                None => None,
            },
        );
    }
    let indent = indentation_str.unicode_len();
    let mut offset: usize = 0;
    let mut found: Option<Point> = None;
    let mut i: usize = 0;
    while i < slices.len()
        invariant
            i <= slices.len(),
            lens == slice_lens(slices@),
            indent == indent_len,
            indent_len == indentation_str@.len(),
            win.wf(),
            win.max() == max,
            max == old(win).max(),
            start == old(win).cursor(),
            is_in_bounds(start, max),
            raster.wf(),
            raster@.max == old(raster)@.max,
            capacity(raster@.max) <= usize::MAX,
            base == old(raster)@.cells,
            raster@.cells == base + slice_cells(node_id, lens, limit as int, indent_len, i as int),
            win.cursor() == advanced(start, max, cells_len(lens, limit as int, indent_len, i as int)),
            is_in_bounds(win.cursor(), max),
            shown == screen(&*old(win)),
            screen(&*win) == overwritten(
                shown,
                index_of(start, max),
                slices_text(slices@, limit as int, indentation_str@, i as int),
            ),
            offset == total_len(lens, i as int),
            insert_index matches Some(index) ==> index <= total_len(lens, slices@.len() as int),
            match found {
                Some(p) => insert_index matches Some(index) && index < total_len(lens, i as int)
                    && p == advanced(
                    start,
                    max,
                    insert_cells(lens, limit as int, indent_len, index as int, 0),
                ),
                None => insert_index matches Some(index) ==> index >= total_len(lens, i as int)
                    && insert_cells(lens, limit as int, indent_len, index as int, 0)
                    == insert_cells(lens, limit as int, indent_len, index as int, i as int),
            },
        decreases slices.len() - i,
    {
        let slice = slices[i];
        let n = slice.unicode_len();
        let full = n == limit;
        let free = raster.free();
        proof {
            lemma_slice_cells_len(node_id, lens, limit as int, indent_len, i as int);
            lemma_slice_cells_len(node_id, lens, limit as int, indent_len, i + 1);
            lemma_cells_len_grows(lens, limit as int, indent_len, i + 1, lens.len() as int);
            lemma_slice_cells_len(node_id, lens, limit as int, indent_len, lens.len() as int);
            assert(lens[i as int] == n);
        }
        if n as u64 > free || (full && indent as u64 > free - n as u64) {
            return Err(Error::OutOfBounds);
        }
        let ghost here = win.cursor();
        let ghost drawn = cells_len(lens, limit as int, indent_len, i as int);
        let ghost sofar = slices_text(slices@, limit as int, indentation_str@, i as int);
        proof {
            lemma_advanced(start, max, drawn, n as int);
            lemma_advanced(start, max, drawn + n, 0);
            lemma_slices_text_len(slices@, limit as int, indentation_str@, i as int);
        }
        let split = match insert_index {
            Some(index) => if offset <= index && index - offset < n {
                Some(index - offset)
            } else {
                None
            },
            None => None,
        };
        match split {
            Some(k) => {
                put_str(win, slice.substring_char(0, k));
                proof {
                    lemma_advanced(start, max, drawn, k as int);
                    lemma_advanced(start, max, drawn + k, (n - k) as int);
                    lemma_advanced(start, max, drawn + k, 0);
                    lemma_wrote_more(
                        shown,
                        start,
                        max,
                        sofar,
                        slice@.subrange(0, k as int),
                        screen(&*win),
                    );
                }
                found = Some(win.get_yx());
                put_str(win, slice.substring_char(k, n));
                proof {
                    lemma_wrote_more(
                        shown,
                        start,
                        max,
                        sofar + slice@.subrange(0, k as int),
                        slice@.subrange(k as int, n as int),
                        screen(&*win),
                    );
                    assert(sofar + slice@.subrange(0, k as int) + slice@.subrange(
                        k as int,
                        n as int,
                    ) =~= sofar + slice@);
                }
            },
            None => {
                put_str(win, slice);
                proof {
                    lemma_wrote_more(shown, start, max, sofar, slice@, screen(&*win));
                }
            },
        }
        push_text(raster, node_id, offset, n);
        offset = offset + n;
        if full {
            proof {
                lemma_advanced(start, max, drawn + n, indent_len);
                lemma_advanced(start, max, drawn + n + indent_len, 0);
            }
            put_str(win, indentation_str);
            push_repeated(raster, PixelState::Filler(node_id), indent);
            proof {
                lemma_wrote_more(
                    shown,
                    start,
                    max,
                    sofar + slice@,
                    indentation_str@,
                    screen(&*win),
                );
            }
        } else {
            assert(sofar + slice@ + Seq::<char>::empty() =~= sofar + slice@);
        }
        proof {
            assert(raster@.cells =~= base + slice_cells(
                node_id,
                lens,
                limit as int,
                indent_len,
                i + 1,
            ));
        }
        i += 1;
    }
    proof {
        lemma_slice_cells_len(node_id, lens, limit as int, indent_len, lens.len() as int);
    }
    Ok(
        match insert_index {
            Some(_) => match found {
                Some(p) => Some(p),
                None => Some(win.get_yx()),
            },
            None => None,
        },
    )
}

/// Draws the text of bullet `node_id`, given in slices, at the cursor of the
/// window, and writes its cells to the grid: one cell for each character,
/// and behind each slice of the full length `limit` the indentation with
/// which the next line begins. A text without slices is drawn as one blank,
/// the placeholder of the bullet. The window shows the slices and the
/// indentation from the cursor on, and elsewhere what it showed. Fails where
/// the grid has too few cells left.
pub fn render_content_slices<W: Window + ?Sized>(
    win: &mut W,
    slices: Vec<&str>,
    limit: usize,
    indentation_str: &str,
    node_id: i32,
    raster: &mut Raster,
) -> (r: Result<(), Error>)
    requires
        old(win).wf(),
        is_in_bounds(old(win).cursor(), old(win).max()),
        old(raster).wf(),
        capacity(old(raster)@.max) <= usize::MAX,
    ensures
        final(win).wf(),
        final(win).max() == old(win).max(),
        is_in_bounds(final(win).cursor(), final(win).max()),
        final(raster).wf(),
        final(raster)@.max == old(raster)@.max,
        r is Ok <==> old(raster)@.cells.len() + content_cells(
            node_id,
            slice_lens(slices@),
            limit as int,
            indentation_str@.len() as int,
        ).len() <= capacity(old(raster)@.max),
        match r {
            Ok(_) => {
                let cells = content_cells(
                    node_id,
                    slice_lens(slices@),
                    limit as int,
                    indentation_str@.len() as int,
                );
                &&& final(raster)@.cells == old(raster)@.cells + cells
                &&& final(win).cursor() == advanced(
                    old(win).cursor(),
                    old(win).max(),
                    cells.len() as int,
                )
                &&& screen(&*final(win)) == overwritten(
                    screen(&*old(win)),
                    index_of(old(win).cursor(), old(win).max()),
                    content_text(slices@, limit as int, indentation_str@),
                )
            },
            Err(e) => e == Error::OutOfBounds,
        },
{
    match draw_slices(win, &slices, limit, indentation_str, node_id, None, raster) {
        Ok(_) => Ok(()),
        Err(e) => Err(e),
    }
}

/// Draws the text of the active bullet as `render_content_slices` does, and
/// returns where the cursor of the window stood before the character
/// `insert_index` was drawn: behind the text where `insert_index` is the
/// text's length, and on the placeholder where the text is empty.
pub fn render_content_slices_active<W: Window + ?Sized>(
    win: &mut W,
    slices: Vec<&str>,
    limit: usize,
    indentation_str: &str,
    node_id: i32,
    insert_index: usize,
    raster: &mut Raster,
) -> (r: Result<Point, Error>)
    requires
        old(win).wf(),
        is_in_bounds(old(win).cursor(), old(win).max()),
        old(raster).wf(),
        capacity(old(raster)@.max) <= usize::MAX,
        insert_index <= total_len(slice_lens(slices@), slices@.len() as int),
    ensures
        final(win).wf(),
        final(win).max() == old(win).max(),
        is_in_bounds(final(win).cursor(), final(win).max()),
        final(raster).wf(),
        final(raster)@.max == old(raster)@.max,
        r is Ok <==> old(raster)@.cells.len() + content_cells(
            node_id,
            slice_lens(slices@),
            limit as int,
            indentation_str@.len() as int,
        ).len() <= capacity(old(raster)@.max),
        match r {
            Ok(p) => {
                let lens = slice_lens(slices@);
                let indent = indentation_str@.len() as int;
                let cells = content_cells(node_id, lens, limit as int, indent);
                &&& final(raster)@.cells == old(raster)@.cells + cells
                &&& final(win).cursor() == advanced(
                    old(win).cursor(),
                    old(win).max(),
                    cells.len() as int,
                )
                &&& screen(&*final(win)) == overwritten(
                    screen(&*old(win)),
                    index_of(old(win).cursor(), old(win).max()),
                    content_text(slices@, limit as int, indentation_str@),
                )
                &&& p == advanced(
                    old(win).cursor(),
                    old(win).max(),
                    anchor_cells(lens, limit as int, indent, insert_index as int),
                )
            },
            Err(e) => e == Error::OutOfBounds,
        },
{
    match draw_slices(win, &slices, limit, indentation_str, node_id, Some(insert_index), raster) {
        Ok(p) => Ok(p.unwrap()),
        Err(e) => Err(e),
    }
}

/// A text of `n` blanks.
fn blanks(n: usize) -> (r: String)
    ensures
        r@ == blank_text(n as int),
{
    let mut text = String::new();
    let mut i: usize = 0;
    proof {
        reveal_strlit(" ");
        assert(text@ =~= blank_text(0));
    }
    while i < n
        invariant
            i <= n,
            text@ == blank_text(i as int),
            " "@ == seq![' '],
        decreases n - i,
    {
        text.append(" ");
        proof {
            assert(text@ =~= blank_text(i + 1));
        }
        i += 1;
    }
    text
}

/// Draws the indentation and the marker of a bullet.
fn render_head<W: Window + ?Sized>(win: &mut W, indent: usize, node_id: i32, raster: &mut Raster) -> (r:
    Result<(), Error>)
    requires
        old(win).wf(),
        is_in_bounds(old(win).cursor(), old(win).max()),
        old(raster).wf(),
        indent + 2 <= i32::MAX,
    ensures
        final(win).wf(),
        final(win).max() == old(win).max(),
        is_in_bounds(final(win).cursor(), final(win).max()),
        final(raster).wf(),
        final(raster)@.max == old(raster)@.max,
        r is Ok <==> old(raster)@.cells.len() + indent + 2 <= capacity(old(raster)@.max),
        match r {
            Ok(_) => final(raster)@.cells == old(raster)@.cells + head_cells(node_id, indent as int)
                && final(win).cursor() == advanced(old(win).cursor(), old(win).max(), indent + 2)
                && screen(&*final(win)) == overwritten(
                screen(&*old(win)),
                index_of(old(win).cursor(), old(win).max()),
                text_glyphs(Seq::empty(), head_cells(node_id, indent as int)),
            ),
            Err(e) => e == Error::OutOfBounds && final(raster)@.cells == old(raster)@.cells
                && final(win).cursor() == old(win).cursor() && screen(&*final(win)) == screen(
                &*old(win),
            ),
        },
{
    if raster.free() < indent as u64 + 2 {
        return Err(Error::OutOfBounds);
    }
    let ghost shown = screen(&*win);
    let ghost start = win.cursor();
    let ghost max = win.max();
    proof {
        lemma_advanced(win.cursor(), win.max(), 0, indent as int);
        lemma_advanced(win.cursor(), win.max(), indent as int, 1);
        lemma_advanced(win.cursor(), win.max(), indent + 1, 1);
        lemma_advanced(win.cursor(), win.max(), indent + 2, 0);
    }
    add_blanks(win, indent);
    put_char(win, '•');
    proof {
        lemma_wrote_more(
            shown,
            start,
            max,
            blank_text(indent as int),
            seq!['\u{2022}'],
            screen(&*win),
        );
    }
    put_char(win, ' ');
    proof {
        lemma_wrote_more(
            shown,
            start,
            max,
            blank_text(indent as int) + seq!['\u{2022}'],
            seq![' '],
            screen(&*win),
        );
        assert(blank_text(indent as int) + seq!['\u{2022}'] + seq![' '] =~= text_glyphs(
            Seq::empty(),
            head_cells(node_id, indent as int),
        ));
    }
    push_repeated(raster, PixelState::Empty, indent);
    raster.push(PixelState::Bullet(node_id));
    raster.push(PixelState::Filler(node_id));
    proof {
        assert(raster@.cells =~= old(raster)@.cells + head_cells(node_id, indent as int));
    }
    Ok(())
}

/// Draws one bullet at the cursor of the window and writes its cells to the
/// grid: the indentation, the marker, and the text `content`. Where
/// `insert_offset` is given, the bullet is the active one, and the call
/// returns where the cursor of the window stood before the character that is
/// `insert_offset` characters from the end of the text. The window shows from
/// the cursor on the character of each of these cells, and elsewhere what it
/// showed. Fails where the bullet cannot be drawn at this level on lines so
/// short, and where the grid has too few cells left.
pub fn render_bullet<W: Window + ?Sized>(
    win: &mut W,
    content: &str,
    indentation_lvl: usize,
    node_id: i32,
    insert_offset: Option<usize>,
    raster: &mut Raster,
) -> (r: Result<Option<Point>, Error>)
    requires
        old(win).wf(),
        is_in_bounds(old(win).cursor(), old(win).max()),
        old(win).max() == old(raster)@.max,
        old(raster).wf(),
        capacity(old(raster)@.max) <= usize::MAX,
        insert_offset matches Some(offset) ==> offset <= content@.len(),
    ensures
        final(win).wf(),
        final(win).max() == old(win).max(),
        is_in_bounds(final(win).cursor(), final(win).max()),
        final(raster).wf(),
        final(raster)@.max == old(raster)@.max,
        r is Ok <==> bullet_drawable(indentation_lvl as int, old(raster)@.max.1 as int)
            && old(raster)@.cells.len() + bullet_cells(
            node_id,
            content@.len() as int,
            indentation_lvl as int,
            old(raster)@.max.1 as int,
        ).len() <= capacity(old(raster)@.max),
        match r {
            Ok(p) => {
                let cols = old(raster)@.max.1 as int;
                let cells = bullet_cells(
                    node_id,
                    content@.len() as int,
                    indentation_lvl as int,
                    cols,
                );
                &&& final(raster)@.cells == old(raster)@.cells + cells
                &&& final(win).cursor() == advanced(
                    old(win).cursor(),
                    old(win).max(),
                    cells.len() as int,
                )
                &&& screen(&*final(win)) == overwritten(
                    screen(&*old(win)),
                    index_of(old(win).cursor(), old(win).max()),
                    text_glyphs(content@, cells),
                )
                &&& p == match insert_offset {
                    Some(offset) => Some(
                        advanced(
                            old(win).cursor(),
                            old(win).max(),
                            bullet_anchor(
                                content@.len() as int,
                                indentation_lvl as int,
                                cols,
                                content@.len() - offset,
                            ),
                        ),
                    ),
                    None => None,
                }
            },
            Err(e) => e == Error::OutOfBounds,
        },
{
    let cols = win.get_max_yx().1;
    let ghost start = win.cursor();
    let ghost max = win.max();
    let ghost base = raster@.cells;
    if cols < 3 || indentation_lvl > (cols as usize - 3) / 2 {
        return Err(Error::OutOfBounds);
    }
    let indent: usize = 2 * indentation_lvl;
    let limit: usize = cols as usize - indent - 2;
    let len = content.unicode_len();
    let ghost lens = split_lens(len as int, limit as int);
    let ghost text = content_cells(node_id, lens, limit as int, indent + 2);
    let ghost head = head_cells(node_id, indent as int);
    let ghost shown = screen(&*win);
    proof {
        lemma_bullet_cells(node_id, len as int, indentation_lvl as int, cols as int);
    }
    match render_head(win, indent, node_id, raster) {
        Ok(_) => {},
        Err(e) => { return Err(e); },
    }
    let indentation_str = blanks(indent + 2);
    let slices = split_every_n(content, limit);
    let insert_index = match insert_offset {
        Some(offset) => Some(len - offset),
        None => None,
    };
    match draw_slices(win, &slices, limit, indentation_str.as_str(), node_id, insert_index, raster) {
        Ok(p) => {
            proof {
                lemma_advanced(start, max, indent + 2, text.len() as int);
                if insert_index is Some {
                    lemma_advanced(
                        start,
                        max,
                        indent + 2,
                        anchor_cells(lens, limit as int, indent + 2, insert_index->0 as int),
                    );
                }
                assert(raster@.cells =~= base + (head + text));
                lemma_wrote_more(
                    shown,
                    start,
                    max,
                    text_glyphs(Seq::empty(), head),
                    content_text(slices@, limit as int, indentation_str@),
                    screen(&*win),
                );
                if slices@.len() > 0 {
                    lemma_slices_glyphs(
                        content@,
                        slices@,
                        node_id,
                        limit as int,
                        indent + 2,
                        slices@.len() as int,
                    );
                }
                assert(text_glyphs(Seq::empty(), head) =~= text_glyphs(content@, head));
                assert(content_text(slices@, limit as int, indentation_str@) =~= text_glyphs(
                    content@,
                    text,
                ));
                assert(text_glyphs(content@, head + text) =~= text_glyphs(content@, head)
                    + text_glyphs(content@, text));
            }
            Ok(p)
        },
        Err(e) => Err(e),
    }
}

/// Draws the bullet under the cursor `node` at the level `indentation_lvl`,
/// each on lines of its own, then its descendants in document order, each a
/// level deeper than its parent; and writes the cells of all of them to the
/// grid. Returns where the cursor of the window stood at the bullet
/// `active_id`, before the character that is `insert_offset` characters from
/// the end of its text, if the bullet is among those drawn. Fails where a
/// bullet cannot be drawn at its level, and where the grid has too few cells
/// left.
pub fn subtree_render<W: Window + ?Sized>(
    win: &mut W,
    node: NodeIterator,
    indentation_lvl: usize,
    insert_offset: usize,
    active_id: i32,
    raster: &mut Raster,
) -> (r: Result<Option<Point>, Error>)
    requires
        node.wf(),
        old(win).wf(),
        is_in_bounds(old(win).cursor(), old(win).max()),
        old(win).max() == old(raster)@.max,
        old(raster).wf(),
        capacity(old(raster)@.max) <= usize::MAX,
        old(raster)@.cells.len() % (old(raster)@.max.1 as nat) == 0,
        node.forest().contains_key(active_id) ==> insert_offset <= node.forest()[active_id].content.len(),
    ensures
        final(win).wf(),
        final(win).max() == old(win).max(),
        is_in_bounds(final(win).cursor(), final(win).max()),
        final(raster).wf(),
        final(raster)@.max == old(raster)@.max,
        ({
            let f = node.forest();
            let h = rank_of(f);
            let cols = old(raster)@.max.1 as int;
            let lvl = indentation_lvl as int;
            let cells = subtree_cells(f, h, node.spec_id(), lvl, cols);
            &&& r is Ok <==> subtree_drawable(f, h, node.spec_id(), lvl, cols) && old(
                raster,
            )@.cells.len() + cells.len() <= capacity(old(raster)@.max)
            &&& match r {
                Ok(p) => {
                    &&& final(raster)@.cells == old(raster)@.cells + cells
                    &&& final(raster)@.cells.len() % (cols as nat) == 0
                    &&& final(win).cursor() == advanced(
                        old(win).cursor(),
                        old(win).max(),
                        cells.len() as int,
                    )
                    &&& screen(&*final(win)) == overwritten(
                        screen(&*old(win)),
                        index_of(old(win).cursor(), old(win).max()),
                        glyphs(f, cells),
                    )
                    &&& p == match subtree_anchor(
                        f,
                        h,
                        node.spec_id(),
                        lvl,
                        cols,
                        active_id,
                        insert_offset as int,
                    ) {
                        Some(k) => Some(advanced(old(win).cursor(), old(win).max(), k)),
                        None => None,
                    }
                },
                Err(e) => e == Error::OutOfBounds,
            }
        }),
    decreases rank_of(node.forest())[node.spec_id()], 1nat,
{
    let ghost f = node.forest();
    let ghost h = rank_of(f);
    let ghost id = node.spec_id();
    let ghost cols = raster@.max.1 as int;
    let ghost lvl = indentation_lvl as int;
    let ghost start = win.cursor();
    let ghost max = win.max();
    let ghost base = raster@.cells;
    let ghost len = f[id].content.len() as int;
    let ghost bullet = bullet_cells(id, len, lvl, cols);
    let ghost line = node_cells(id, len, lvl, cols);
    let ghost below = children_cells(f, h, id, lvl + 1, cols, f[id].children.len());
    let ghost shown = screen(&*win);
    let insert = if node.id() == active_id {
        Some(insert_offset)
    } else {
        None
    };
    let here = match render_bullet(
        win,
        node.content().as_str(),
        indentation_lvl,
        node.id(),
        insert,
        raster,
    ) {
        Ok(p) => p,
        Err(e) => { return Err(e); },
    };
    proof {
        lemma_line_rest(base.len() as int, bullet.len() as int, cols);
        lemma_advanced(start, max, bullet.len() as int, cols - (bullet.len() as int) % cols);
        lemma_advanced(start, max, line.len() as int, 0);
        lemma_bullet_cells(id, len, lvl, cols);
    }
    let pad = raster.line_rest();
    if raster.free() < pad as u64 {
        return Err(Error::OutOfBounds);
    }
    add_blanks(win, pad);
    push_repeated(raster, PixelState::Empty, pad);
    proof {
        assert(raster@.cells =~= base + line);
        lemma_bullet_glyphs(f, id, lvl, cols);
        lemma_wrote_more(shown, start, max, glyphs(f, bullet), blank_text(pad as int), screen(&*win));
        assert(glyphs(f, bullet) + blank_text(pad as int) =~= glyphs(f, line));
    }
    match render_children(win, node, indentation_lvl + 1, insert_offset, active_id, raster) {
        Ok(p) => {
            proof {
                lemma_advanced(start, max, line.len() as int, below.len() as int);
                assert(raster@.cells =~= base + (line + below));
                lemma_wrote_more(shown, start, max, glyphs(f, line), glyphs(f, below), screen(&*win));
                assert(glyphs(f, line) + glyphs(f, below) =~= glyphs(f, line + below));
                let found = children_anchor(
                    f,
                    h,
                    id,
                    lvl + 1,
                    cols,
                    active_id,
                    insert_offset as int,
                    f[id].children.len(),
                );
                if found is Some {
                    lemma_children_anchor_names_bullet(
                        f,
                        h,
                        id,
                        lvl + 1,
                        cols,
                        active_id,
                        insert_offset as int,
                        f[id].children.len(),
                    );
                    lemma_children_anchor(
                        f,
                        h,
                        id,
                        lvl + 1,
                        cols,
                        active_id,
                        insert_offset as int,
                        f[id].children.len(),
                    );
                    lemma_advanced(start, max, line.len() as int, found->0);
                }
            }
            Ok(
                match here {
                    Some(at) => Some(at),
                    None => p,
                },
            )
        },
        Err(e) => Err(e),
    }
}

/// Draws the children of the bullet under the cursor `node` at the level
/// `indentation_lvl`, with their descendants, as `subtree_render` draws each.
pub fn render_children<W: Window + ?Sized>(
    win: &mut W,
    node: NodeIterator,
    indentation_lvl: usize,
    insert_offset: usize,
    active_id: i32,
    raster: &mut Raster,
) -> (r: Result<Option<Point>, Error>)
    requires
        node.wf(),
        old(win).wf(),
        is_in_bounds(old(win).cursor(), old(win).max()),
        old(win).max() == old(raster)@.max,
        old(raster).wf(),
        capacity(old(raster)@.max) <= usize::MAX,
        old(raster)@.max.1 > 0,
        old(raster)@.cells.len() % (old(raster)@.max.1 as nat) == 0,
        node.forest().contains_key(active_id) ==> insert_offset <= node.forest()[active_id].content.len(),
    ensures
        final(win).wf(),
        final(win).max() == old(win).max(),
        is_in_bounds(final(win).cursor(), final(win).max()),
        final(raster).wf(),
        final(raster)@.max == old(raster)@.max,
        ({
            let f = node.forest();
            let h = rank_of(f);
            let cols = old(raster)@.max.1 as int;
            let lvl = indentation_lvl as int;
            let n = f[node.spec_id()].children.len();
            let cells = children_cells(f, h, node.spec_id(), lvl, cols, n);
            &&& r is Ok <==> children_drawable(f, h, node.spec_id(), lvl, cols, n) && old(
                raster,
            )@.cells.len() + cells.len() <= capacity(old(raster)@.max)
            &&& match r {
                Ok(p) => {
                    &&& final(raster)@.cells == old(raster)@.cells + cells
                    &&& final(raster)@.cells.len() % (cols as nat) == 0
                    &&& final(win).cursor() == advanced(
                        old(win).cursor(),
                        old(win).max(),
                        cells.len() as int,
                    )
                    &&& screen(&*final(win)) == overwritten(
                        screen(&*old(win)),
                        index_of(old(win).cursor(), old(win).max()),
                        glyphs(f, cells),
                    )
                    &&& p == match children_anchor(
                        f,
                        h,
                        node.spec_id(),
                        lvl,
                        cols,
                        active_id,
                        insert_offset as int,
                        n,
                    ) {
                        Some(k) => Some(advanced(old(win).cursor(), old(win).max(), k)),
                        None => None,
                    }
                },
                Err(e) => e == Error::OutOfBounds,
            }
        }),
    decreases rank_of(node.forest())[node.spec_id()], 0nat,
{
    let ghost f = node.forest();
    let ghost h = rank_of(f);
    let ghost id = node.spec_id();
    let ghost cols = raster@.max.1 as int;
    let ghost lvl = indentation_lvl as int;
    let ghost start = win.cursor();
    let ghost max = win.max();
    let ghost base = raster@.cells;
    let ghost total = f[id].children.len();
    let ghost shown = screen(&*win);
    let children = node.children_iter();
    let mut found: Option<Point> = None;
    let mut i: usize = 0;
    proof {
        lemma_advanced(start, max, 0, 0);
        assert(raster@.cells =~= base + children_cells(f, h, id, lvl, cols, 0));
        crate::raster::lemma_index_of_in_bounds(start, max);
        lemma_overwritten_twice(shown, index_of(start, max), Seq::empty(), Seq::empty());
        assert(glyphs(f, children_cells(f, h, id, lvl, cols, 0)) =~= Seq::empty());
    }
    while i < children.len()
        invariant
            i <= children.len(),
            crate::tree::visits(children@, f, f[id].children),
            f == node.forest(),
            h == rank_of(f),
            id == node.spec_id(),
            total == f[id].children.len(),
            node.wf(),
            cols == raster@.max.1,
            cols > 0,
            lvl == indentation_lvl,
            win.wf(),
            win.max() == max,
            max == old(win).max(),
            max == raster@.max,
            start == old(win).cursor(),
            is_in_bounds(start, max),
            is_in_bounds(win.cursor(), max),
            raster.wf(),
            raster@.max == old(raster)@.max,
            capacity(raster@.max) <= usize::MAX,
            base == old(raster)@.cells,
            f.contains_key(active_id) ==> insert_offset <= f[active_id].content.len(),
            children_drawable(f, h, id, lvl, cols, i as nat),
            raster@.cells == base + children_cells(f, h, id, lvl, cols, i as nat),
            raster@.cells.len() % (cols as nat) == 0,
            win.cursor() == advanced(
                start,
                max,
                children_cells(f, h, id, lvl, cols, i as nat).len() as int,
            ),
            shown == screen(&*old(win)),
            screen(&*win) == overwritten(
                shown,
                index_of(start, max),
                glyphs(f, children_cells(f, h, id, lvl, cols, i as nat)),
            ),
            found == match children_anchor(
                f,
                h,
                id,
                lvl,
                cols,
                active_id,
                insert_offset as int,
                i as nat,
            ) {
                Some(k) => Some(advanced(start, max, k)),
                None => None,
            },
        decreases children.len() - i,
    {
        let child = children[i];
        let ghost c = f[id].children[i as int];
        let ghost so_far = children_cells(f, h, id, lvl, cols, i as nat);
        let ghost next = subtree_cells(f, h, c, lvl, cols);
        proof {
            assert(child.spec_id() == c && child.forest() == f && child.wf());
            assert(ranked(f, h));
            assert(h[f[id].children[i as int]] < h[id]);
            lemma_children_prefix(f, h, id, lvl, cols, (i + 1) as nat, total);
        }
        match subtree_render(win, child, indentation_lvl, insert_offset, active_id, raster) {
            Ok(p) => {
                proof {
                    lemma_advanced(start, max, so_far.len() as int, next.len() as int);
                    lemma_wrote_more(
                        shown,
                        start,
                        max,
                        glyphs(f, so_far),
                        glyphs(f, next),
                        screen(&*win),
                    );
                    assert(glyphs(f, so_far) + glyphs(f, next) =~= glyphs(f, so_far + next));
                    assert(raster@.cells =~= base + children_cells(
                        f,
                        h,
                        id,
                        lvl,
                        cols,
                        (i + 1) as nat,
                    ));
                    let inner = subtree_anchor(f, h, c, lvl, cols, active_id, insert_offset as int);
                    if inner is Some && 0 <= inner->0 {
                        lemma_advanced(start, max, so_far.len() as int, inner->0);
                    }
                    if inner is Some {
                        lemma_anchor_names_bullet(f, h, c, lvl, cols, active_id, insert_offset as int);
                        lemma_subtree_anchor(f, h, c, lvl, cols, active_id, insert_offset as int);
                    }
                }
                if found.is_none() {
                    found = p;
                }
            },
            Err(e) => {
                return Err(e);
            },
        }
        i += 1;
    }
    Ok(found)
}

/// Draws the descendants of the bullet under the cursor `node`, which is the
/// root of a document, on the window from its top left on, and returns the
/// grid that records every cell of the window: the cells of each bullet's
/// marker and text, padding where a text wraps, a placeholder for an empty
/// text, and empty cells elsewhere. With the grid comes the position at which
/// the cursor of the window stood at the bullet `active_id`, before the
/// character that is `insert_offset` characters from the end of its text, if
/// that bullet was drawn. The window shows at each place the character of the
/// grid's cell there: the marker, a character of a text, or a blank; and its
/// cursor is on the last cell. Fails where the document does not fit the
/// window.
pub fn tree_render<W: Window + ?Sized>(
    win: &mut W,
    node: NodeIterator,
    active_id: i32,
    insert_offset: usize,
) -> (r: Result<(Raster, Option<Point>), Error>)
    requires
        old(win).wf(),
        node.wf(),
        node.forest().contains_key(active_id) ==> insert_offset <= node.forest()[active_id].content.len(),
    ensures
        final(win).wf(),
        final(win).max() == old(win).max(),
        r is Ok <==> tree_fits(node.forest(), node.spec_id(), old(win).max()),
        match r {
            Ok((raster, pos)) => {
                let f = node.forest();
                let max = old(win).max();
                &&& raster.wf()
                &&& raster@.max == max
                &&& raster@.is_full()
                &&& raster@.cells == tree_cells(f, node.spec_id(), max)
                &&& screen(&*final(win)) == glyphs(f, raster@.cells)
                &&& final(win).cursor() == point_at(capacity(max) - 1, max)
                &&& pos == match children_anchor(
                    f,
                    rank_of(f),
                    node.spec_id(),
                    0,
                    max.1 as int,
                    active_id,
                    insert_offset as int,
                    f[node.spec_id()].children.len(),
                ) {
                    Some(k) => Some(advanced((0i32, 0i32), max, k)),
                    None => None,
                }
                &&& pos matches Some(p) ==> is_in_bounds(p, max)
                &&& in_subtree(f, node.spec_id(), active_id) && active_id != node.spec_id()
                    ==> pos is Some
            },
            Err(e) => e == Error::OutOfBounds,
        },
{
    let ghost f = node.forest();
    let ghost h = rank_of(f);
    let ghost id = node.spec_id();
    proof {
        if in_subtree(f, id, active_id) && active_id != id {
            lemma_under_a_child(f, h, id, active_id);
            lemma_children_anchor_found(
                f,
                h,
                id,
                0,
                win.max().1 as int,
                active_id,
                insert_offset as int,
                f[id].children.len(),
            );
        }
    }
    win.move_cursor((0, 0));
    let max = win.get_max_yx();
    if max.0 <= 0 || max.1 <= 0 {
        return Err(Error::OutOfBounds);
    }
    let ghost lines = children_cells(f, h, id, 0, max.1 as int, f[id].children.len());
    assert(max.0 as u64 * max.1 as u64 <= 0x7fff_ffff * 0x7fff_ffff) by (nonlinear_arith)
        requires
            0 < max.0 <= 0x7fff_ffff,
            0 < max.1 <= 0x7fff_ffff,
    ;
    if max.0 as u64 * max.1 as u64 > usize::MAX as u64 {
        return Err(Error::OutOfBounds);
    }
    let mut raster = Raster::new(max);
    let ghost shown = screen(&*win);
    let pos = match render_children(win, node, 0, insert_offset, active_id, &mut raster) {
        Ok(p) => p,
        Err(e) => { return Err(e); },
    };
    let rest = raster.free() as usize;
    proof {
        lemma_advanced_place((0i32, 0i32), max, lines.len() as int);
    }
    if rest > 0 {
        let _ = clear_remaining(win);
    }
    push_repeated(&mut raster, PixelState::Empty, rest);
    proof {
        assert(raster@.cells =~= tree_cells(f, id, max));
        assert(index_of((0i32, 0i32), max) == 0);
        if rest > 0 {
            lemma_wrote_more(
                shown,
                (0i32, 0i32),
                max,
                glyphs(f, lines),
                blank_text(rest as int),
                screen(&*win),
            );
        }
        assert(glyphs(f, lines) + blank_text(rest as int) =~= glyphs(f, raster@.cells));
        assert(overwritten(shown, 0, glyphs(f, raster@.cells)) =~= glyphs(f, raster@.cells));
        let found = children_anchor(
            f,
            h,
            id,
            0,
            max.1 as int,
            active_id,
            insert_offset as int,
            f[id].children.len(),
        );
        if found is Some {
            lemma_children_anchor_names_bullet(
                f,
                h,
                id,
                0,
                max.1 as int,
                active_id,
                insert_offset as int,
                f[id].children.len(),
            );
            lemma_children_anchor(
                f,
                h,
                id,
                0,
                max.1 as int,
                active_id,
                insert_offset as int,
                f[id].children.len(),
            );
            lemma_advanced((0i32, 0i32), max, found->0, 0);
        }
    }
    Ok((raster, pos))
}

} // verus!
