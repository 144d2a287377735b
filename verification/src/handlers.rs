//! The key handlers: what each key does to the document and to the cursor.

pub mod bindings;
pub mod motion;
pub mod words;

use crate::editor::{
    Clipboard, CommandState, Cursor, HandlerInput, HandlerOutput, HistoryItem, InsertState,
};
use crate::error::Error;
use crate::raster::{index_of, is_in_bounds, Direction, PixelState, Point, Raster, RasterView};
use crate::render::{tree_fits, tree_render, Window};
use crate::text::{same_text, without_char};
use crate::tree::model::{lemma_active_place, lemma_with_subtree_sibling, SubtreeView, TreeView};
use crate::tree::{pasted, Dir, Subtree, Tree};
use vstd::prelude::*;
use vstd::string::{StrSliceExecFns, StringExecFns};

verus! {

pub use bindings::{
    bindings_of, bound_to, command_bindings, insert_bindings, lookup, new_command_map,
    new_insert_map, Handler,
};
pub use motion::{
    bullet_at, find_left_text, go_to_kind, go_wrap, has_left_text, is_browsable_at, kind_at,
    left_text, next_of_kind, next_place, none_of_kind, text_at, text_count, text_to_edge, walked,
};
pub use words::{
    clamped, distance, find_separator, has_separator, jump_index, jump_steps,
    jump_to_next_separator, nearest_separator, separator_at, separators,
};

/// What a handler gives back after it has drawn the document `t` on a window
/// of the size `max`: the grid of the drawing, and the cursor in insert mode,
/// `offset` characters from the end of the active bullet's text, at the
/// position at which the window's cursor stood there.
pub open spec fn drawn(t: TreeView, max: Point, offset: int, out: HandlerOutput) -> bool {
    &&& out.raster matches Some(raster) && raster.wf() && raster@.max == max && raster@.is_full()
        && raster@.cells == crate::render::tree_cells(t.nodes, 0, max)
    &&& out.cursor matches Some(Cursor::Insert(state)) && state.offset == offset && is_in_bounds(
        state.pos,
        max,
    ) && Some(state.pos) == crate::render::tree_anchor(t.nodes, max, t.active, offset)
    &&& out.sticky_key is None
    &&& out.clipboard is None
    &&& out.history_item is None
}

/// The window shows a drawing of the document `t`: at each place the
/// character of the cell that the grid of the drawing has there.
pub open spec fn shows<W: Window + ?Sized>(win: &W, t: TreeView) -> bool {
    crate::render::screen(win) == crate::render::glyphs(
        t.nodes,
        crate::render::tree_cells(t.nodes, 0, win.max()),
    )
}

/// Draws the document on the window and gives back the grid of the drawing
/// and the cursor in insert mode, `offset` characters from the end of the
/// active bullet's text. Fails where the document does not fit the window.
pub fn render_and_make_insert_output<W: Window + ?Sized>(tree: &Tree, win: &mut W, offset: usize) -> (r:
    Result<HandlerOutput, Error>)
    requires
        tree.wf(),
        old(win).wf(),
        offset <= tree@.nodes[tree@.active].content.len(),
    ensures
        final(win).wf(),
        final(win).max() == old(win).max(),
        r is Ok <==> tree_fits(tree@.nodes, 0, old(win).max()),
        match r {
            Ok(out) => drawn(tree@, old(win).max(), offset as int, out) && shows(
                &*final(win),
                tree@,
            ),
            Err(e) => e == Error::OutOfBounds,
        },
{
    match tree_render(win, tree.root_iter(), tree.get_active_id(), offset) {
        Ok((raster, anchor)) => Ok(
            HandlerOutput::new().set_cursor(
                Cursor::Insert(InsertState { offset, pos: anchor.unwrap() }),
            ).set_raster(raster),
        ),
        Err(e) => Err(e),
    }
}

/// Indents the active bullet under the sibling above it, as that sibling's
/// last child, and draws the document.
pub fn insert_tab<W: Window + ?Sized>(p: HandlerInput<W>) -> (r: Result<HandlerOutput, Error>)
    requires
        p.tree.wf(),
        p.win.wf(),
    ensures
        final(p.tree).wf(),
        final(p.win).wf(),
        final(p.win).max() == old(p.win).max(),
        r is Ok ==> shows(&*final(p.win), final(p.tree)@),
        final(p.history)@ == old(p.history)@,
        r is Ok <==> old(p.tree)@.sibling(Dir::Above) is Some && tree_fits(
            old(p.tree)@.indented(false).nodes,
            0,
            old(p.win).max(),
        ),
        match r {
            Ok(out) => final(p.tree)@ == old(p.tree)@.indented(false) && drawn(
                final(p.tree)@,
                old(p.win).max(),
                0,
                out,
            ),
            Err(e) => if old(p.tree)@.sibling(Dir::Above) is None {
                e == Error::StructuralLimit && final(p.tree)@ == old(p.tree)@
            } else {
                e == Error::OutOfBounds && final(p.tree)@ == old(p.tree)@.indented(false)
            },
        },
{
    let HandlerInput { tree, win, .. } = p;
    match tree.indent(false) {
        Ok(_) => {},
        Err(e) => { return Err(e); },
    }
    render_and_make_insert_output(tree, win, 0)
}

/// Moves the active bullet out from under its parent, and draws the document.
pub fn insert_shift_tab<W: Window + ?Sized>(p: HandlerInput<W>) -> (r: Result<HandlerOutput, Error>)
    requires
        p.tree.wf(),
        p.win.wf(),
    ensures
        final(p.tree).wf(),
        final(p.win).wf(),
        final(p.win).max() == old(p.win).max(),
        r is Ok ==> shows(&*final(p.win), final(p.tree)@),
        final(p.history)@ == old(p.history)@,
        r is Ok <==> old(p.tree)@.parent() != 0 && tree_fits(
            old(p.tree)@.unindented().nodes,
            0,
            old(p.win).max(),
        ),
        match r {
            Ok(out) => final(p.tree)@ == old(p.tree)@.unindented() && drawn(
                final(p.tree)@,
                old(p.win).max(),
                0,
                out,
            ),
            Err(e) => if old(p.tree)@.parent() == 0 {
                e == Error::StructuralLimit && final(p.tree)@ == old(p.tree)@
            } else {
                e == Error::OutOfBounds && final(p.tree)@ == old(p.tree)@.unindented()
            },
        },
{
    let HandlerInput { tree, win, .. } = p;
    match tree.unindent() {
        Ok(_) => {},
        Err(e) => { return Err(e); },
    }
    render_and_make_insert_output(tree, win, 0)
}

/// Puts a new bullet below the active one, makes it the active one, and
/// draws the document. Fails with `IdentityInUse`, and changes nothing, where
/// the identity source hands out an identity that is in use; and with
/// `OutOfBounds` where the document with the new bullet does not fit the
/// window.
pub fn insert_enter<W: Window + ?Sized>(p: HandlerInput<W>) -> (r: Result<HandlerOutput, Error>)
    requires
        p.tree.wf(),
        p.win.wf(),
    ensures
        final(p.tree).wf(),
        final(p.win).wf(),
        final(p.win).max() == old(p.win).max(),
        r is Ok ==> shows(&*final(p.win), final(p.tree)@),
        final(p.history)@ == old(p.history)@,
        if r == Err::<HandlerOutput, Error>(Error::IdentityInUse) {
            final(p.tree)@ == old(p.tree)@
        } else {
            &&& exists|id: i32|
                !old(p.tree)@.nodes.contains_key(id) && final(p.tree)@ == old(
                    p.tree,
                )@.with_sibling(id, Dir::Below)
            &&& redrawn_or_too_large(final(p.tree)@, old(p.win).max(), 0, r)
        },
{
    let HandlerInput { tree, win, .. } = p;
    match tree.create_sibling() {
        Ok(_) => {},
        Err(e) => { return Err(e); },
    }
    proof {
        crate::tree::model::lemma_active_place(p.tree@);
    }
    render_and_make_insert_output(tree, win, 0)
}


/// The offset into its bullet's text of the character that a cell shows: 0
/// for a cell that shows none.
pub open spec fn text_offset(s: PixelState) -> int {
    match s {
        PixelState::Text { offset, .. } => offset as int,
        _ => 0,
    }
}

/// The cell at `pos` from which insert mode can be entered: a browsable cell
/// of a bullet of the document, other than the root, whose text reaches as
/// far as the character that the cell shows. Else the failure that stands in
/// the way.
pub open spec fn insert_target(v: RasterView, t: TreeView, pos: Point) -> Result<
    PixelState,
    Error,
> {
    match v.cell_at(pos) {
        Some(cell) => if !cell.is_browsable() {
            Err(Error::NotBrowsable)
        } else if !t.nodes.contains_key(cell.id()->0) {
            Err(Error::UnknownIdentity)
        } else if text_offset(cell) > t.nodes[cell.id()->0].content.len() {
            Err(Error::OutOfBounds)
        } else if cell.id()->0 == 0 {
            Err(Error::UnknownIdentity)
        } else {
            Ok(cell)
        },
        None => Err(Error::NotBrowsable),
    }
}

/// Enters insert mode at the cursor: the bullet under the cursor becomes the
/// active one, and the cursor stands before the character under it.
pub fn command_i<W: Window + ?Sized>(p: HandlerInput<W>) -> (r: Result<HandlerOutput, Error>)
    requires
        p.tree.wf(),
        p.cursor is Command,
    ensures
        final(p.tree).wf(),
        final(p.history)@ == old(p.history)@,
        final(p.win).wf() == old(p.win).wf(),
        final(p.win).max() == old(p.win).max(),
        final(p.win).cursor() == old(p.win).cursor(),
        crate::render::screen(&*final(p.win)) == crate::render::screen(&*old(p.win)),
        match insert_target(p.raster@, old(p.tree)@, p.cursor.pos()) {
            Ok(cell) => {
                &&& r matches Ok(out)
                &&& final(p.tree)@ == old(p.tree)@.activated(cell.id()->0)
                &&& out.cursor matches Some(Cursor::Insert(state))
                &&& state.pos == p.cursor.pos()
                &&& state.offset == old(p.tree)@.nodes[cell.id()->0].content.len() - text_offset(
                    cell,
                )
                &&& only_cursor(out)
            },
            Err(e) => r == Err::<HandlerOutput, Error>(e) && final(p.tree)@ == old(p.tree)@,
        },
{
    let HandlerInput { tree, raster, cursor, .. } = p;
    let state = cursor.command_state();
    let (id, offset) = match raster.get(state.pos) {
        Some(PixelState::Text { id, offset }) => (id, offset),
        Some(PixelState::Placeholder(id)) => (id, 0),
        _ => { return Err(Error::NotBrowsable); },
    };
    let len = match tree.get_node(id) {
        Some(node) => node.content.as_str().unicode_len(),
        None => { return Err(Error::UnknownIdentity); },
    };
    if offset > len {
        return Err(Error::OutOfBounds);
    }
    match tree.activate(id) {
        Ok(_) => {},
        Err(e) => { return Err(e); },
    }
    Ok(HandlerOutput::new().set_cursor(Cursor::Insert(InsertState { pos: state.pos, offset: len - offset })))
}

/// The direction of a key of horizontal motion: left for `h`, right for any
/// other key.
pub open spec fn hl_direction(key: Seq<char>) -> Direction {
    if key == "h"@ {
        Direction::Left
    } else {
        Direction::Right
    }
}

/// Moves the cursor to the nearest browsable cell to the left, for the key
/// `h`, or to the right, along the flattened grid.
pub fn command_hl<W: Window + ?Sized>(p: HandlerInput<W>) -> (r: Result<HandlerOutput, Error>)
    requires
        p.cursor is Command,
    ensures
        final(p.tree)@ == old(p.tree)@,
        final(p.history)@ == old(p.history)@,
        final(p.win).wf() == old(p.win).wf(),
        final(p.win).max() == old(p.win).max(),
        final(p.win).cursor() == old(p.win).cursor(),
        crate::render::screen(&*final(p.win)) == crate::render::screen(&*old(p.win)),
        r is Ok <==> is_in_bounds(p.cursor.pos(), p.raster@.max) && !none_of_kind(
            p.raster@,
            index_of(p.cursor.pos(), p.raster@.max),
            hl_direction(p.key@),
            true,
        ),
        match r {
            Ok(out) => {
                &&& is_in_bounds(p.cursor.pos(), p.raster@.max)
                &&& out.cursor matches Some(Cursor::Command(state))
                &&& state.col == state.pos.1
                &&& is_in_bounds(state.pos, p.raster@.max)
                &&& next_of_kind(
                    p.raster@,
                    index_of(p.cursor.pos(), p.raster@.max),
                    hl_direction(p.key@),
                    true,
                    index_of(state.pos, p.raster@.max),
                )
                &&& only_cursor(out)
            },
            Err(e) => e == Error::OutOfBounds && (is_in_bounds(p.cursor.pos(), p.raster@.max)
                ==> none_of_kind(
                p.raster@,
                index_of(p.cursor.pos(), p.raster@.max),
                hl_direction(p.key@),
                true,
            )),
        },
{
    let HandlerInput { key, raster, cursor, .. } = p;
    let direction = if same_text(key, "h") {
        Direction::Left
    } else {
        Direction::Right
    };
    let start = match raster.browser(cursor.command_state().pos) {
        Ok(b) => b,
        Err(e) => { return Err(e); },
    };
    let pos = match go_to_kind(start, direction, true) {
        Ok(b) => b.pos(),
        Err(e) => { return Err(e); },
    };
    Ok(HandlerOutput::new().set_cursor(Cursor::new_command(pos)))
}

/// The direction of a key of vertical motion: down for `j`, up for any other
/// key.
pub open spec fn jk_direction(key: Seq<char>) -> Direction {
    if key == "j"@ {
        Direction::Down
    } else {
        Direction::Up
    }
}

/// Where a vertical motion from the cursor `from` aims: the line above or
/// below the cursor's, as the key says, at the column that the cursor
/// remembers.
pub open spec fn jk_target(from: CommandState, key: Seq<char>) -> Point {
    (crate::raster::no_wrap_target(from.pos, jk_direction(key)).0, from.col)
}

/// Whether the cursor `from` and the place that its vertical motion aims at
/// are both on the grid.
pub open spec fn jk_on_grid(v: RasterView, from: CommandState, key: Seq<char>) -> bool {
    is_in_bounds(from.pos, v.max) && is_in_bounds(jk_target(from, key), v.max)
}

/// Moves the cursor one line down, for the key `j`, or up, to the column that
/// it remembers, or on a shorter line to the nearest browsable cell to the
/// left of that column. The cursor goes on remembering its column. Fails with
/// `OutOfBounds` where the cursor or the place aimed at is off the grid, and
/// with `PredicateUnsatisfied` where the line aimed at has no browsable cell
/// at that column or to its left.
pub fn command_jk<W: Window + ?Sized>(p: HandlerInput<W>) -> (r: Result<HandlerOutput, Error>)
    requires
        p.cursor is Command,
    ensures
        final(p.tree)@ == old(p.tree)@,
        final(p.history)@ == old(p.history)@,
        final(p.win).wf() == old(p.win).wf(),
        final(p.win).max() == old(p.win).max(),
        final(p.win).cursor() == old(p.win).cursor(),
        crate::render::screen(&*final(p.win)) == crate::render::screen(&*old(p.win)),
        r is Ok <==> jk_on_grid(p.raster@, p.cursor->Command_0, p.key@) && has_left_text(
            p.raster@,
            index_of(jk_target(p.cursor->Command_0, p.key@), p.raster@.max),
            (p.cursor->Command_0).col as nat,
        ),
        match r {
            Ok(out) => {
                &&& out.cursor matches Some(Cursor::Command(state))
                &&& state.col == (p.cursor->Command_0).col
                &&& is_in_bounds(state.pos, p.raster@.max)
                &&& left_text(
                    p.raster@,
                    index_of(jk_target(p.cursor->Command_0, p.key@), p.raster@.max),
                    (p.cursor->Command_0).col as nat,
                    index_of(state.pos, p.raster@.max),
                )
                &&& only_cursor(out)
            },
            Err(e) => e == if jk_on_grid(p.raster@, p.cursor->Command_0, p.key@) {
                Error::PredicateUnsatisfied
            } else {
                Error::OutOfBounds
            },
        },
{
    let HandlerInput { key, raster, cursor, .. } = p;
    let direction = if same_text(key, "j") {
        Direction::Down
    } else {
        Direction::Up
    };
    let from = cursor.command_state();
    let start = match raster.browser(from.pos) {
        Ok(b) => b,
        Err(e) => { return Err(e); },
    };
    let line = match start.go_no_wrap(direction) {
        Ok(b) => b.pos().0,
        Err(e) => { return Err(e); },
    };
    let target = match raster.browser((line, from.col)) {
        Ok(b) => b,
        Err(e) => { return Err(e); },
    };
    let pos = match find_left_text(target, from.col as u32) {
        Ok(pos) => pos,
        Err(e) => { return Err(e); },
    };
    Ok(HandlerOutput::new().set_cursor(Cursor::Command(CommandState { pos, col: from.col })))
}

/// What stands in the way of entering insert mode behind the text at `pos`,
/// if anything does: `pos` is off the grid; the cell there belongs to no
/// bullet; it is no placeholder and no cell that is not browsable follows it
/// on the grid; or its bullet is the root or none of the document.
pub open spec fn append_failure(v: RasterView, t: TreeView, pos: Point) -> Option<Error> {
    if !is_in_bounds(pos, v.max) {
        Some(Error::OutOfBounds)
    } else if bullet_at(v, pos) is None {
        Some(Error::NotBrowsable)
    } else if !(v.cell_at(pos)->0 is Placeholder) && none_of_kind(
        v,
        index_of(pos, v.max),
        Direction::Right,
        false,
    ) {
        Some(Error::OutOfBounds)
    } else if !t.nodes.contains_key(bullet_at(v, pos)->0) || bullet_at(v, pos)->0 == 0 {
        Some(Error::UnknownIdentity)
    } else {
        None
    }
}

/// Enters insert mode behind the text at the cursor: the bullet under the
/// cursor becomes the active one, and the cursor moves right to the first
/// cell behind the run of text, or stays on the placeholder of an empty
/// bullet.
pub fn command_shift_a<W: Window + ?Sized>(p: HandlerInput<W>) -> (r: Result<HandlerOutput, Error>)
    requires
        p.tree.wf(),
        p.cursor is Command,
    ensures
        final(p.tree).wf(),
        final(p.history)@ == old(p.history)@,
        final(p.win).wf() == old(p.win).wf(),
        final(p.win).max() == old(p.win).max(),
        final(p.win).cursor() == old(p.win).cursor(),
        crate::render::screen(&*final(p.win)) == crate::render::screen(&*old(p.win)),
        r is Ok <==> append_failure(p.raster@, old(p.tree)@, p.cursor.pos()) is None,
        match r {
            Ok(out) => {
                &&& bullet_at(p.raster@, p.cursor.pos()) matches Some(id)
                &&& final(p.tree)@ == old(p.tree)@.activated(id)
                &&& out.cursor matches Some(Cursor::Insert(state))
                &&& state.offset == 0
                &&& is_in_bounds(state.pos, p.raster@.max)
                &&& if p.raster@.cell_at(p.cursor.pos())->0 is Placeholder {
                    state.pos == p.cursor.pos()
                } else {
                    index_of(state.pos, p.raster@.max) == next_place(
                        p.raster@,
                        index_of(p.cursor.pos(), p.raster@.max),
                        Direction::Right,
                        false,
                    ) && next_of_kind(
                        p.raster@,
                        index_of(p.cursor.pos(), p.raster@.max),
                        Direction::Right,
                        false,
                        index_of(state.pos, p.raster@.max),
                    )
                }
                &&& only_cursor(out)
            },
            Err(e) => final(p.tree)@ == old(p.tree)@ && Some(e) == append_failure(
                p.raster@,
                old(p.tree)@,
                p.cursor.pos(),
            ),
        },
{
    let HandlerInput { tree, raster, cursor, .. } = p;
    let from = cursor.command_state();
    let start = match raster.browser(from.pos) {
        Ok(b) => b,
        Err(e) => { return Err(e); },
    };
    let cell = start.state();
    let id = match cell.id() {
        Some(id) => id,
        None => { return Err(Error::NotBrowsable); },
    };
    let pos = match cell {
        PixelState::Placeholder(_) => start.pos(),
        _ => match go_to_kind(start, Direction::Right, false) {
            Ok(b) => b.pos(),
            Err(e) => { return Err(e); },
        },
    };
    match tree.activate(id) {
        Ok(_) => {},
        Err(e) => { return Err(e); },
    }
    Ok(HandlerOutput::new().set_cursor(Cursor::new_insert(pos)))
}

/// What opening a line at `pos`, on the side `dir` of the bullet there,
/// makes of the document `before`, and what it returns.
/// - Where no bullet has a cell at `pos`, it fails with `NotBrowsable`; where
///   the document does not hold the bullet, or it is the root, with
///   `UnknownIdentity`. The document is as it was.
/// - Else the bullet is the active one. Where the identity source hands out
///   an identity that is in use, the call fails with `IdentityInUse`.
/// - Else a new bullet stands beside it, and the result is the drawing, or
///   `OutOfBounds` where the document no longer fits the window.
pub open spec fn opened(
    v: RasterView,
    before: TreeView,
    pos: Point,
    dir: Dir,
    max: Point,
    after: TreeView,
    r: Result<HandlerOutput, Error>,
) -> bool {
    match target_bullet(v, before, pos) {
        None => after == before && r == Err::<HandlerOutput, Error>(
            if bullet_at(v, pos) is None {
                Error::NotBrowsable
            } else {
                Error::UnknownIdentity
            },
        ),
        Some(at) => if r == Err::<HandlerOutput, Error>(Error::IdentityInUse) {
            after == before.activated(at)
        } else {
            &&& exists|id: i32|
                !before.nodes.contains_key(id) && after == before.activated(at).with_sibling(
                    id,
                    dir,
                )
            &&& redrawn_or_too_large(after, max, 0, r)
        },
    }
}

/// Makes the bullet under the cursor the active one, puts a new bullet on
/// the side `dir` of it, and draws the document.
fn open_line<W: Window + ?Sized>(p: HandlerInput<W>, dir: Dir) -> (r: Result<HandlerOutput, Error>)
    requires
        p.tree.wf(),
        p.win.wf(),
    ensures
        final(p.tree).wf(),
        final(p.win).wf(),
        final(p.win).max() == old(p.win).max(),
        r is Ok ==> shows(&*final(p.win), final(p.tree)@),
        final(p.history)@ == old(p.history)@,
        opened(
            p.raster@,
            old(p.tree)@,
            p.cursor.pos(),
            dir,
            old(p.win).max(),
            final(p.tree)@,
            r,
        ),
{
    let HandlerInput { tree, win, raster, cursor, .. } = p;
    let id = match raster.get(cursor.pos()) {
        Some(cell) => match cell.id() {
            Some(id) => id,
            None => { return Err(Error::NotBrowsable); },
        },
        None => { return Err(Error::NotBrowsable); },
    };
    match tree.activate(id) {
        Ok(_) => {},
        Err(e) => { return Err(e); },
    }
    match tree.insert_new(dir) {
        Ok(_) => {},
        Err(e) => { return Err(e); },
    }
    proof {
        lemma_active_place(old(p.tree)@.activated(id));
    }
    render_and_make_insert_output(tree, win, 0)
}

/// Opens a new bullet below the one under the cursor, in insert mode.
pub fn command_o<W: Window + ?Sized>(p: HandlerInput<W>) -> (r: Result<HandlerOutput, Error>)
    requires
        p.tree.wf(),
        p.win.wf(),
    ensures
        final(p.tree).wf(),
        final(p.win).wf(),
        final(p.win).max() == old(p.win).max(),
        r is Ok ==> shows(&*final(p.win), final(p.tree)@),
        final(p.history)@ == old(p.history)@,
        opened(
            p.raster@,
            old(p.tree)@,
            p.cursor.pos(),
            Dir::Below,
            old(p.win).max(),
            final(p.tree)@,
            r,
        ),
{
    open_line(p, Dir::Below)
}

/// Opens a new bullet above the one under the cursor, in insert mode.
pub fn command_shift_o<W: Window + ?Sized>(p: HandlerInput<W>) -> (r: Result<HandlerOutput, Error>)
    requires
        p.tree.wf(),
        p.win.wf(),
    ensures
        final(p.tree).wf(),
        final(p.win).wf(),
        final(p.win).max() == old(p.win).max(),
        r is Ok ==> shows(&*final(p.win), final(p.tree)@),
        final(p.history)@ == old(p.history)@,
        opened(
            p.raster@,
            old(p.tree)@,
            p.cursor.pos(),
            Dir::Above,
            old(p.win).max(),
            final(p.tree)@,
            r,
        ),
{
    open_line(p, Dir::Above)
}

/// Whether the key that waits for a second one is `key`.
fn sticky_is(sticky_key: Option<&str>, key: &str) -> (r: bool)
    ensures
        r == (sticky_key matches Some(k) && k@ == key@),
{
    match sticky_key {
        Some(k) => same_text(k, key),
        None => false,
    }
}

/// Copies the bullet under the cursor, with its descendants, to the
/// clipboard, at the second `y` in a row. The first `y` only waits for the
/// second; after any other waiting key nothing is done.
pub fn command_y<W: Window + ?Sized>(p: HandlerInput<W>) -> (r: Result<HandlerOutput, Error>)
    requires
        p.tree.wf(),
        p.cursor is Command,
    ensures
        final(p.tree).wf(),
        final(p.history)@ == old(p.history)@,
        final(p.win).wf() == old(p.win).wf(),
        final(p.win).max() == old(p.win).max(),
        final(p.win).cursor() == old(p.win).cursor(),
        crate::render::screen(&*final(p.win)) == crate::render::screen(&*old(p.win)),
        r is Ok <==> !sticky_is_key(p.sticky_key, "y"@) || target_bullet(
            p.raster@,
            old(p.tree)@,
            p.cursor.pos(),
        ) is Some,
        match r {
            Ok(out) => out.raster is None && out.history_item is None && if sticky_is_key(
                p.sticky_key,
                "y"@,
            ) {
                &&& bullet_at(p.raster@, p.cursor.pos()) matches Some(id)
                &&& final(p.tree)@ == old(p.tree)@.activated(id)
                &&& out.clipboard matches Some(Clipboard::Tree(copy))
                &&& copy.wf()
                &&& copy@ == final(p.tree)@.subtree()
                &&& out.cursor is None
                &&& out.sticky_key is None
            } else {
                &&& final(p.tree)@ == old(p.tree)@
                &&& out.cursor == Some(p.cursor)
                &&& out.clipboard is None
                &&& waits_for(p.sticky_key, out.sticky_key, "y"@)
            },
            Err(e) => final(p.tree)@ == old(p.tree)@ && sticky_is_key(p.sticky_key, "y"@)
                && match bullet_at(p.raster@, p.cursor.pos()) {
                Some(id) => e == Error::UnknownIdentity && (!old(p.tree)@.nodes.contains_key(id)
                    || id == 0),
                None => e == Error::NotBrowsable,
            },
        },
{
    let HandlerInput { tree, raster, cursor, sticky_key, .. } = p;
    if sticky_is(sticky_key, "y") {
        let id = match raster.get(cursor.pos()) {
            Some(cell) => match cell.id() {
                Some(id) => id,
                None => { return Err(Error::NotBrowsable); },
            },
            None => { return Err(Error::NotBrowsable); },
        };
        match tree.activate(id) {
            Ok(_) => {},
            Err(e) => { return Err(e); },
        }
        let copy = tree.get_subtree();
        Ok(HandlerOutput::new().set_clipboard(Clipboard::Tree(copy)))
    } else if sticky_key.is_some() {
        Ok(HandlerOutput::new().set_cursor(cursor))
    } else {
        Ok(HandlerOutput::new().set_cursor(cursor).set_sticky_key(String::from_str("y")))
    }
}

/// Whether the key that waits for a second one is `key`.
pub open spec fn sticky_is_key(sticky_key: Option<&str>, key: Seq<char>) -> bool {
    sticky_key matches Some(k) && k@ == key
}

/// After a key that needs a second press: where no key waited, `key` waits
/// now; where another key waited, none waits.
pub open spec fn waits_for(before: Option<&str>, after: Option<String>, key: Seq<char>) -> bool {
    match before {
        Some(_) => after is None,
        None => after matches Some(k) && k@ == key,
    }
}

/// The output names a cursor at most: no grid, no sticky key, no clipboard,
/// no entry for the undo log.
pub open spec fn only_cursor(out: HandlerOutput) -> bool {
    out.raster is None && out.sticky_key is None && out.clipboard is None && out.history_item
        is None
}


/// What a deletion or a paste gives back after it has drawn the document `t`
/// on a window of the size `max`: the grid of the drawing, and the cursor in
/// command mode on a browsable cell.
pub open spec fn redrawn(t: TreeView, max: Point, out: HandlerOutput) -> bool {
    &&& out.raster matches Some(raster)
    &&& raster.wf() && raster@.max == max && raster@.is_full()
    &&& raster@.cells == crate::render::tree_cells(t.nodes, 0, max)
    &&& out.cursor matches Some(Cursor::Command(state))
    &&& state.col == state.pos.1
    &&& is_in_bounds(state.pos, max)
    &&& kind_at(raster@, index_of(state.pos, max), true)
    &&& out.sticky_key is None
}

/// The grid of a drawing of the document `t` on a window of the size `max`.
pub open spec fn drawing_of(t: TreeView, max: Point) -> RasterView {
    RasterView { max, cells: crate::render::tree_cells(t.nodes, 0, max) }
}

/// The position at the column `col` of the line on which a drawing of the
/// document `t` shows the cursor of the active bullet, behind its text.
pub open spec fn cursor_target(t: TreeView, max: Point, col: i32) -> Point {
    let anchor = crate::render::tree_anchor(t.nodes, max, t.active, 0)->0;
    (anchor.0, col)
}

/// Whether the document `t` can be drawn on a window of the size `max` with
/// the command cursor near the column `col`: the document fits the window,
/// the column is one of the window, and on the line of the active bullet a
/// browsable cell stands at that column or near enough to its left.
pub open spec fn can_redraw(t: TreeView, max: Point, col: i32) -> bool {
    &&& tree_fits(t.nodes, 0, max)
    &&& is_in_bounds(cursor_target(t, max, col), max)
    &&& has_left_text(
        drawing_of(t, max),
        index_of(cursor_target(t, max, col), max),
        col as nat,
    )
}

/// What stands in the way of drawing the document `t` with the command
/// cursor near the column `col`, if anything does: `OutOfBounds` where the
/// document does not fit the window or the column is none of the window,
/// `PredicateUnsatisfied` where no browsable cell is near enough.
pub open spec fn redraw_failure(t: TreeView, max: Point, col: i32) -> Option<Error> {
    if !tree_fits(t.nodes, 0, max) || !is_in_bounds(cursor_target(t, max, col), max) {
        Some(Error::OutOfBounds)
    } else if !can_redraw(t, max, col) {
        Some(Error::PredicateUnsatisfied)
    } else {
        None
    }
}

/// Draws the document and finds the cell for the command cursor: on the line
/// of the active bullet, at the column `col` or the nearest browsable cell to
/// its left. Fails where the document does not fit the window, where the
/// column is none of the window, and where no browsable cell is near enough.
fn redraw<W: Window + ?Sized>(tree: &Tree, win: &mut W, col: i32) -> (r: Result<HandlerOutput, Error>)
    requires
        tree.wf(),
        old(win).wf(),
    ensures
        final(win).wf(),
        final(win).max() == old(win).max(),
        r is Ok <==> can_redraw(tree@, old(win).max(), col),
        match r {
            Ok(out) => {
                &&& redrawn(tree@, old(win).max(), out)
                &&& left_text(
                    drawing_of(tree@, old(win).max()),
                    index_of(cursor_target(tree@, old(win).max(), col), old(win).max()),
                    col as nat,
                    index_of(out.cursor->0.pos(), old(win).max()),
                )
                &&& out.clipboard is None
                &&& out.history_item is None
                &&& shows(&*final(win), tree@)
            },
            Err(e) => Some(e) == redraw_failure(tree@, old(win).max(), col),
        },
{
    let (raster, anchor) = match tree_render(win, tree.root_iter(), tree.get_active_id(), 0) {
        Ok(drawing) => drawing,
        Err(e) => { return Err(e); },
    };
    let line = anchor.unwrap().0;
    if col < 0 {
        return Err(Error::OutOfBounds);
    }
    proof {
        assert(raster@ == drawing_of(tree@, old(win).max()));
    }
    let found = match raster.browser((line, col)) {
        Ok(b) => find_left_text(b, col as u32),
        Err(e) => Err(e),
    };
    match found {
        Ok(pos) => Ok(HandlerOutput::new().set_cursor(Cursor::new_command(pos)).set_raster(raster)),
        Err(e) => Err(e),
    }
}

/// The identity of the bullet whose cell is under `pos`.
fn bullet_under(raster: &Raster, pos: Point) -> (r: Result<i32, Error>)
    ensures
        match r {
            Ok(id) => bullet_at(raster@, pos) == Some(id),
            Err(e) => e == Error::NotBrowsable && bullet_at(raster@, pos) is None,
        },
{
    match raster.get(pos) {
        Some(cell) => match cell.id() {
            Some(id) => Ok(id),
            None => Err(Error::NotBrowsable),
        },
        None => Err(Error::NotBrowsable),
    }
}

/// The bullet that a command at `pos` works on in the document `t`: the one
/// whose cell is at `pos`, if the document holds it and it is not the root.
pub open spec fn target_bullet(v: RasterView, t: TreeView, pos: Point) -> Option<i32> {
    match bullet_at(v, pos) {
        Some(id) => if t.nodes.contains_key(id) && id != 0 {
            Some(id)
        } else {
            None
        },
        None => None,
    }
}

/// What a deletion at `pos` makes of the document `t`, drawn or not: the
/// bullet there is the active one, and deleted unless it is the last bullet
/// of the document; where no bullet can be taken, the document is as it was.
pub open spec fn after_cut(v: RasterView, t: TreeView, pos: Point) -> TreeView {
    match target_bullet(v, t, pos) {
        Some(id) => if t.activated(id).is_last_bullet() {
            t.activated(id)
        } else {
            t.activated(id).deleted()
        },
        None => t,
    }
}

/// What stands in the way of a deletion at `pos`, if anything does: no bullet
/// has a cell there; the document does not hold the bullet, or it is the
/// root; it is the last bullet of the document; or the document that is left
/// cannot be drawn with the cursor near the column `col`.
pub open spec fn cut_failure(v: RasterView, t: TreeView, pos: Point, max: Point, col: i32) -> Option<
    Error,
> {
    if bullet_at(v, pos) is None {
        Some(Error::NotBrowsable)
    } else if target_bullet(v, t, pos) is None {
        Some(Error::UnknownIdentity)
    } else if t.activated(target_bullet(v, t, pos)->0).is_last_bullet() {
        Some(Error::StructuralLimit)
    } else {
        redraw_failure(after_cut(v, t, pos), max, col)
    }
}

/// Deletes the bullet under the cursor, with its descendants, at the second
/// `d` in a row: a copy of what was deleted goes to the clipboard and to the
/// undo log, and the document is drawn. The first `d` only waits for the
/// second; after any other waiting key nothing is done. Where the drawing
/// fails, the bullet stays deleted.
pub fn command_d<W: Window + ?Sized>(p: HandlerInput<W>) -> (r: Result<HandlerOutput, Error>)
    requires
        p.tree.wf(),
        p.win.wf(),
        p.cursor is Command,
    ensures
        final(p.tree).wf(),
        final(p.win).wf(),
        final(p.win).max() == old(p.win).max(),
        r is Ok ==> if sticky_is_key(p.sticky_key, "d"@) {
            shows(&*final(p.win), final(p.tree)@)
        } else {
            crate::render::screen(&*final(p.win)) == crate::render::screen(&*old(p.win))
        },
        final(p.history)@ == old(p.history)@,
        sticky_is_key(p.sticky_key, "d"@) ==> (r is Ok <==> cut_failure(
            p.raster@,
            old(p.tree)@,
            p.cursor.pos(),
            old(p.win).max(),
            (p.cursor->Command_0).col,
        ) is None),
        sticky_is_key(p.sticky_key, "d"@) ==> final(p.tree)@ == after_cut(
            p.raster@,
            old(p.tree)@,
            p.cursor.pos(),
        ),
        match r {
            Ok(out) => if sticky_is_key(p.sticky_key, "d"@) {
                &&& bullet_at(p.raster@, p.cursor.pos()) matches Some(id)
                &&& !old(p.tree)@.activated(id).is_last_bullet()
                &&& final(p.tree)@ == old(p.tree)@.activated(id).deleted()
                &&& out.clipboard matches Some(Clipboard::Tree(copy))
                &&& copy.wf() && copy@ == old(p.tree)@.activated(id).subtree()
                &&& out.history_item matches Some(item)
                &&& item.tree.wf() && item.tree@ == copy@ && item.cursor == p.cursor
                &&& redrawn(final(p.tree)@, old(p.win).max(), out)
            } else {
                &&& final(p.tree)@ == old(p.tree)@
                &&& out.cursor == Some(p.cursor)
                &&& out.clipboard is None && out.raster is None && out.history_item is None
                &&& waits_for(p.sticky_key, out.sticky_key, "d"@)
            },
            Err(e) => sticky_is_key(p.sticky_key, "d"@) && Some(e) == cut_failure(
                p.raster@,
                old(p.tree)@,
                p.cursor.pos(),
                old(p.win).max(),
                (p.cursor->Command_0).col,
            ),
        },
{
    let HandlerInput { tree, win, raster, cursor, sticky_key, .. } = p;
    if sticky_is(sticky_key, "d") {
        let id = match bullet_under(raster, cursor.pos()) {
            Ok(id) => id,
            Err(e) => { return Err(e); },
        };
        match tree.activate(id) {
            Ok(_) => {},
            Err(e) => { return Err(e); },
        }
        let cut = tree.get_subtree();
        match tree.delete() {
            Ok(_) => {},
            Err(e) => { return Err(e); },
        }
        let out = match redraw(tree, win, cursor.command_state().col) {
            Ok(out) => out,
            Err(e) => { return Err(e); },
        };
        let copy = cut.clone();
        Ok(
            out.set_clipboard(Clipboard::Tree(copy)).set_history_item(
                HistoryItem { tree: cut, cursor },
            ),
        )
    } else if sticky_key.is_some() {
        Ok(HandlerOutput::new().set_cursor(cursor))
    } else {
        Ok(HandlerOutput::new().set_cursor(cursor).set_sticky_key(String::from_str("d")))
    }
}

/// The side of the active bullet on which a key pastes: below for `p`, above
/// for `P`.
pub open spec fn paste_side(key: Seq<char>) -> Option<Dir> {
    if key == "p"@ {
        Some(Dir::Below)
    } else if key == "P"@ {
        Some(Dir::Above)
    } else {
        None
    }
}

/// The copy that the clipboard holds, if any.
pub open spec fn clipboard_tree(clipboard: Option<&Clipboard>) -> Option<Subtree> {
    match clipboard {
        Some(Clipboard::Tree(copy)) => Some(*copy),
        None => None,
    }
}

/// Why nothing can be pasted at `pos`, if that is so: no bullet has a cell
/// there; the key is no paste key; the clipboard is empty; or the document
/// does not hold the bullet, or it is the root.
pub open spec fn paste_refusal(
    v: RasterView,
    t: TreeView,
    pos: Point,
    key: Seq<char>,
    clipboard: Option<&Clipboard>,
) -> Option<Error> {
    if bullet_at(v, pos) is None {
        Some(Error::NotBrowsable)
    } else if paste_side(key) is None {
        Some(Error::UnknownKey)
    } else if clipboard is None {
        Some(Error::NothingToPaste)
    } else if target_bullet(v, t, pos) is None {
        Some(Error::UnknownIdentity)
    } else {
        None
    }
}

/// Pastes a copy of the clipboard beside the bullet under the cursor: below
/// it for the key `p`, above it for `P`; the copy gets new identities. The
/// document is drawn, and the cursor goes to the copy's line. Where nothing
/// can be pasted the document is as it was. Where the identity source hands
/// out an identity that is in use, the call fails with `IdentityInUse` and
/// only the active bullet has changed. Where the drawing fails, the copy
/// stays pasted.
pub fn command_p_shift_p<W: Window + ?Sized>(p: HandlerInput<W>) -> (r: Result<HandlerOutput, Error>)
    requires
        p.tree.wf(),
        p.win.wf(),
        p.cursor is Command,
        clipboard_tree(p.clipboard) matches Some(copy) ==> copy.wf(),
    ensures
        final(p.tree).wf(),
        final(p.win).wf(),
        final(p.win).max() == old(p.win).max(),
        r is Ok ==> shows(&*final(p.win), final(p.tree)@),
        final(p.history)@ == old(p.history)@,
        paste_refusal(p.raster@, old(p.tree)@, p.cursor.pos(), p.key@, p.clipboard) is Some
            ==> r is Err,
        match r {
            Ok(out) => {
                &&& bullet_at(p.raster@, p.cursor.pos()) matches Some(id)
                &&& paste_side(p.key@) matches Some(side)
                &&& clipboard_tree(p.clipboard) matches Some(copy)
                &&& exists|fresh: Seq<i32>|
                    #![trigger copy@.renumbered(fresh)]
                    pasted(old(p.tree)@.activated(id), copy@, fresh, side, final(p.tree)@)
                &&& redrawn(final(p.tree)@, old(p.win).max(), out)
                &&& out.clipboard is None && out.history_item is None
            },
            Err(e) => match paste_refusal(
                p.raster@,
                old(p.tree)@,
                p.cursor.pos(),
                p.key@,
                p.clipboard,
            ) {
                Some(refusal) => e == refusal && final(p.tree)@ == old(p.tree)@,
                None => if e == Error::IdentityInUse {
                    final(p.tree)@ == old(p.tree)@.activated(
                        bullet_at(p.raster@, p.cursor.pos())->0,
                    )
                } else {
                    &&& exists|fresh: Seq<i32>|
                        #![trigger clipboard_tree(p.clipboard)->0@.renumbered(fresh)]
                        pasted(
                            old(p.tree)@.activated(bullet_at(p.raster@, p.cursor.pos())->0),
                            clipboard_tree(p.clipboard)->0@,
                            fresh,
                            paste_side(p.key@)->0,
                            final(p.tree)@,
                        )
                    &&& Some(e) == redraw_failure(
                        final(p.tree)@,
                        old(p.win).max(),
                        p.cursor.pos().1,
                    )
                },
            },
        },
{
    let HandlerInput { tree, win, raster, cursor, key, clipboard, .. } = p;
    let id = match bullet_under(raster, cursor.pos()) {
        Ok(id) => id,
        Err(e) => { return Err(e); },
    };
    let side = if same_text(key, "p") {
        Dir::Below
    } else if same_text(key, "P") {
        Dir::Above
    } else {
        return Err(Error::UnknownKey);
    };
    let copy = match clipboard {
        Some(Clipboard::Tree(copy)) => copy.clone(),
        None => { return Err(Error::NothingToPaste); },
    };
    match tree.activate(id) {
        Ok(_) => {},
        Err(e) => { return Err(e); },
    }
    let ghost at = tree@;
    let ghost held = copy@;
    match tree.insert_subtree(copy, side) {
        Ok(_) => {},
        Err(e) => { return Err(e); },
    }
    proof {
        let fresh = choose|fresh: Seq<i32>|
            #![trigger held.renumbered(fresh)]
            pasted(at, held, fresh, side, tree@);
        assert(pasted(old(p.tree)@.activated(id), held, fresh, side, tree@));
        assert(clipboard_tree(p.clipboard)->0@.renumbered(fresh) == held.renumbered(fresh));
    }
    redraw(tree, win, cursor.command_state().pos.1)
}

/// What an undo makes of a document: the copy `subtree`, under the
/// identities of `fresh`, stands again where the bullet stood that it was
/// taken of: below the sibling that stood above it; else above the first
/// child of its parent; else as the only child of its parent.
pub open spec fn undone(before: TreeView, subtree: SubtreeView, fresh: Seq<i32>, after: TreeView) -> bool {
    match subtree.above_sibling {
        Some(s) => before.nodes.contains_key(s) && s != 0 && pasted(
            before.activated(s),
            subtree,
            fresh,
            Dir::Below,
            after,
        ),
        None => subtree.parent matches Some(parent) && before.nodes.contains_key(parent) && if before.nodes[parent].children.len()
            > 0 {
            pasted(
                before.activated(before.nodes[parent].children[0]),
                subtree,
                fresh,
                Dir::Above,
                after,
            )
        } else {
            parent != 0 && exists|between: TreeView|
                pasted(before.activated(parent), subtree, fresh, Dir::Below, between) && after
                    == #[trigger] between.indented(true)
        },
    }
}

/// Deleting the active bullet and undoing the deletion restores the document
/// as it was, but for the identities of the bullets that were deleted, which
/// are new: every bullet stands where it stood, with its text, and the root
/// of what was deleted is the active bullet again.
pub proof fn law_undo_restores(t: TreeView, fresh: Seq<i32>, after: TreeView)
    requires
        t.wf(),
        !t.is_last_bullet(),
        undone(t.deleted(), t.subtree(), fresh, after),
    ensures
        ({
            let names = crate::tree::laws::renamed_within(
                t.nodes,
                t.subtree().nodes,
                t.subtree().names(fresh),
            );
            &&& crate::tree::model::renaming(t.nodes, names)
            &&& after.nodes == crate::tree::model::renamed(t.nodes, names)
            &&& after.active == names[t.active]
        }),
{
    lemma_active_place(t);
    crate::tree::model::lemma_deleted_wf(t);
    crate::tree::laws::law_delete_undo_renumbered(t, fresh);
    if t.sibling(Dir::Above) is None {
        if t.sibling(Dir::Below) is Some {
            crate::tree::laws::law_delete_undo_first_child(t);
            assert(t.deleted().nodes[t.parent()].children[0] == t.deleted().active);
        } else {
            crate::tree::laws::law_delete_undo_only_child(t);
            assert(t.deleted().activated(t.parent()) == t.deleted());
        }
    }
}

/// Whether the document `before` still holds the bullet beside which the
/// copy `subtree` stood: the sibling that stood above it, which is not the
/// root; else its parent, which is not the root unless it has a child.
pub open spec fn can_undo(before: TreeView, subtree: SubtreeView) -> bool {
    match subtree.above_sibling {
        Some(s) => before.nodes.contains_key(s) && s != 0,
        None => subtree.parent matches Some(parent) && before.nodes.contains_key(parent) && (
        before.nodes[parent].children.len() > 0 || parent != 0),
    }
}

/// Puts the copy `subtree`, which a deletion took, back where its bullet
/// stood, under new identities, and makes its root the active bullet. Fails,
/// and changes nothing, with `UnknownIdentity` where the bullet beside which
/// it stood is gone, and with `IdentityInUse` where the identity source hands
/// out an identity that is in use.
pub fn undo_delete(tree: &mut Tree, subtree: Subtree) -> (r: Result<(), Error>)
    requires
        old(tree).wf(),
        subtree.wf(),
    ensures
        final(tree).wf(),
        r is Ok ==> can_undo(old(tree)@, subtree@),
        match r {
            Ok(_) => exists|fresh: Seq<i32>|
                #![trigger subtree@.renumbered(fresh)]
                undone(old(tree)@, subtree@, fresh, final(tree)@),
            Err(e) => final(tree)@ == old(tree)@ && e == if can_undo(old(tree)@, subtree@) {
                Error::IdentityInUse
            } else {
                Error::UnknownIdentity
            },
        },
{
    let active = tree.get_active_id();
    let (anchor, side, then_indent) = match subtree.above_sibling() {
        Some(s) => (s, Dir::Below, false),
        None => match subtree.parent() {
            Some(parent) => match tree.get_node(parent) {
                Some(node) => if node.children.len() > 0 {
                    (node.children[0], Dir::Above, false)
                } else {
                    (parent, Dir::Below, true)
                },
                None => { return Err(Error::UnknownIdentity); },
            },
            None => { return Err(Error::UnknownIdentity); },
        },
    };
    match tree.activate(anchor) {
        Ok(_) => {},
        Err(e) => { return Err(e); },
    }
    let ghost at_anchor = tree@;
    match tree.insert_subtree(subtree, side) {
        Ok(_) => {},
        Err(e) => {
            let _ = tree.activate(active);
            return Err(e);
        },
    }
    let ghost fresh = choose|fresh: Seq<i32>|
        #![trigger subtree@.renumbered(fresh)]
        pasted(at_anchor, subtree@, fresh, side, tree@);
    if then_indent {
        proof {
            crate::tree::laws::lemma_renumbered_among(subtree@, fresh);
            lemma_with_subtree_sibling(
                at_anchor,
                subtree@.renumbered(fresh).nodes,
                subtree@.renumbered(fresh).root,
                side,
            );
        }
        let ghost between = tree@;
        let _ = tree.indent(true);
        proof {
            assert(tree@ == between.indented(true));
            assert(undone(old(tree)@, subtree@, fresh, tree@));
        }
    } else {
        proof {
            assert(undone(old(tree)@, subtree@, fresh, tree@));
        }
    }
    Ok(())
}

/// Undoes the last deletion that the undo log holds: the deleted bullet
/// stands again where it stood, under new identities, the document is drawn,
/// and the cursor is the one from before the deletion. With an empty log
/// nothing is done. Where the bullet cannot be put back, the call fails as
/// `undo_delete` does, and the document and the log are as they were. Where
/// the document with the bullet put back does not fit the window, the call
/// fails with `OutOfBounds`; the bullet stays, and the log has lost its entry.
pub fn command_u<W: Window + ?Sized>(p: HandlerInput<W>) -> (r: Result<HandlerOutput, Error>)
    requires
        p.tree.wf(),
        p.win.wf(),
        forall|i: int| 0 <= i < p.history@.len() ==> (#[trigger] p.history@[i]).tree.wf(),
    ensures
        final(p.tree).wf(),
        final(p.win).wf(),
        final(p.win).max() == old(p.win).max(),
        r is Ok ==> if old(p.history)@.len() == 0 {
            crate::render::screen(&*final(p.win)) == crate::render::screen(&*old(p.win))
        } else {
            shows(&*final(p.win), final(p.tree)@)
        },
        forall|i: int| 0 <= i < final(p.history)@.len() ==> (#[trigger] final(p.history)@[i]).tree.wf(),
        match r {
            Ok(out) => if old(p.history)@.len() == 0 {
                &&& final(p.tree)@ == old(p.tree)@
                &&& final(p.history)@ == old(p.history)@
                &&& out.cursor is None && only_cursor(out)
            } else {
                &&& final(p.history)@ == old(p.history)@.drop_last()
                &&& exists|fresh: Seq<i32>|
                    #![trigger old(p.history)@.last().tree@.renumbered(fresh)]
                    undone(old(p.tree)@, old(p.history)@.last().tree@, fresh, final(p.tree)@)
                &&& out.cursor == Some(old(p.history)@.last().cursor)
                &&& out.raster matches Some(raster)
                &&& raster.wf() && raster@.max == old(p.win).max() && raster@.is_full()
                &&& raster@.cells == crate::render::tree_cells(
                    final(p.tree)@.nodes,
                    0,
                    old(p.win).max(),
                )
                &&& out.clipboard is None && out.history_item is None && out.sticky_key is None
            },
            Err(e) => old(p.history)@.len() > 0 && if e == Error::OutOfBounds {
                &&& final(p.history)@ == old(p.history)@.drop_last()
                &&& exists|fresh: Seq<i32>|
                    #![trigger old(p.history)@.last().tree@.renumbered(fresh)]
                    undone(old(p.tree)@, old(p.history)@.last().tree@, fresh, final(p.tree)@)
                &&& !tree_fits(final(p.tree)@.nodes, 0, old(p.win).max())
            } else {
                &&& final(p.history)@ == old(p.history)@
                &&& final(p.tree)@ == old(p.tree)@
                &&& e == if can_undo(old(p.tree)@, old(p.history)@.last().tree@) {
                    Error::IdentityInUse
                } else {
                    Error::UnknownIdentity
                }
            },
        },
{
    let HandlerInput { tree, win, history, .. } = p;
    if history.len() == 0 {
        return Ok(HandlerOutput::new());
    }
    let (copy, cursor) = {
        let item = &history[history.len() - 1];
        (item.tree.clone(), item.cursor)
    };
    match undo_delete(tree, copy) {
        Ok(_) => {},
        Err(e) => { return Err(e); },
    }
    let _ = history.pop_back();
    match tree_render(win, tree.root_iter(), tree.get_active_id(), 0) {
        Ok((raster, _)) => Ok(HandlerOutput::new().set_raster(raster).set_cursor(cursor)),
        Err(e) => Err(e),
    }
}


/// The bullet that becomes active where a backspace at the start of the
/// active bullet's text deletes the bullet: the sibling above it, else its
/// parent, which must not be the root.
pub open spec fn backspace_target(t: TreeView) -> Option<i32> {
    match t.sibling(Dir::Above) {
        Some(s) => Some(s),
        None => if t.parent() != 0 {
            Some(t.parent())
        } else {
            None
        },
    }
}

/// The result of a handler that has changed the document to `t` and drawn
/// it: the drawing, or the failure of a document that does not fit the window.
pub open spec fn redrawn_or_too_large(
    t: TreeView,
    max: Point,
    offset: int,
    r: Result<HandlerOutput, Error>,
) -> bool {
    match r {
        Ok(out) => tree_fits(t.nodes, 0, max) && drawn(t, max, offset, out),
        Err(e) => !tree_fits(t.nodes, 0, max) && e == Error::OutOfBounds,
    }
}

/// Deletes the character before the cursor. At the start of the text the
/// active bullet itself is deleted, with its descendants, and the sibling
/// above it becomes active, or else its parent. The document is drawn, and
/// the cursor stands behind the text of the active bullet.
pub fn insert_backspace<W: Window + ?Sized>(p: HandlerInput<W>) -> (r: Result<HandlerOutput, Error>)
    requires
        p.tree.wf(),
        p.win.wf(),
        p.cursor is Insert,
    ensures
        final(p.tree).wf(),
        final(p.win).wf(),
        final(p.win).max() == old(p.win).max(),
        r is Ok ==> shows(&*final(p.win), final(p.tree)@),
        final(p.history)@ == old(p.history)@,
        ({
            let before = old(p.tree)@;
            let text = before.nodes[before.active].content;
            let offset = p.cursor->Insert_0.offset as int;
            if offset > text.len() {
                r == Err::<HandlerOutput, Error>(Error::OutOfBounds) && final(p.tree)@ == before
            } else if offset < text.len() {
                &&& final(p.tree)@ == before.with_content(text.remove(text.len() - offset - 1))
                &&& redrawn_or_too_large(final(p.tree)@, old(p.win).max(), 0, r)
            } else {
                match backspace_target(before) {
                    Some(target) => if before.is_last_bullet() {
                        r == Err::<HandlerOutput, Error>(Error::StructuralLimit) && final(p.tree)@
                            == before
                    } else {
                        &&& final(p.tree)@ == before.deleted().activated(target)
                        &&& redrawn_or_too_large(final(p.tree)@, old(p.win).max(), 0, r)
                    },
                    None => r == Err::<HandlerOutput, Error>(Error::StructuralLimit)
                        && final(p.tree)@ == before,
                }
            }
        }),
{
    let HandlerInput { tree, win, cursor, .. } = p;
    let state = cursor.insert_state();
    let len = tree.get_active_content().as_str().unicode_len();
    if state.offset > len {
        return Err(Error::OutOfBounds);
    }
    if state.offset < len {
        let shorter = without_char(tree.get_active_content().as_str(), len - state.offset - 1);
        tree.set_active_content(shorter);
        return render_and_make_insert_output(tree, win, 0);
    }
    let here = tree.active_iter();
    let target = match here.next_sibling(Dir::Above) {
        Some(above) => above.id(),
        None => match here.next_parent() {
            Some(parent) => if parent.id() != 0 {
                parent.id()
            } else {
                return Err(Error::StructuralLimit);
            },
            None => { return Err(Error::StructuralLimit); },
        },
    };
    proof {
        lemma_active_place(tree@);
        crate::tree::model::lemma_pruned_shape(tree@.nodes, 0, tree@.active);
        if tree@.sibling(Dir::Above) is Some {
            let at = tree@.place();
            assert(tree@.nodes.contains_key(tree@.nodes[tree@.parent()].children[at - 1]));
        }
    }
    match tree.delete() {
        Ok(_) => {},
        Err(e) => { return Err(e); },
    }
    match tree.activate(target) {
        Ok(_) => render_and_make_insert_output(tree, win, 0),
        Err(e) => Err(e),
    }
}

/// What stands in the way of leaving insert mode at `pos`, if anything does:
/// `pos` is off the grid; the cell there is empty and no browsable cell
/// stands before it on the grid; or the cell is a marker or padding.
pub open spec fn leave_failure(v: RasterView, pos: Point) -> Option<Error> {
    match v.cell_at(pos) {
        None => Some(Error::OutOfBounds),
        Some(cell) => if cell.is_browsable() {
            None
        } else if !(cell is Empty) {
            Some(Error::NotBrowsable)
        } else if none_of_kind(v, index_of(pos, v.max), Direction::Left, true) {
            Some(Error::OutOfBounds)
        } else {
            None
        },
    }
}

/// Leaves insert mode: the cursor stays where it is on a browsable cell; on
/// an empty cell, behind a text, it goes to the nearest browsable cell to the
/// left.
pub fn insert_control_c<W: Window + ?Sized>(p: HandlerInput<W>) -> (r: Result<HandlerOutput, Error>)
    ensures
        r is Ok <==> leave_failure(p.raster@, p.cursor.pos()) is None,
        final(p.tree)@ == old(p.tree)@,
        final(p.history)@ == old(p.history)@,
        final(p.win).wf() == old(p.win).wf(),
        final(p.win).max() == old(p.win).max(),
        final(p.win).cursor() == old(p.win).cursor(),
        crate::render::screen(&*final(p.win)) == crate::render::screen(&*old(p.win)),
        match r {
            Ok(out) => {
                &&& p.raster@.cell_at(p.cursor.pos()) matches Some(cell)
                &&& out.cursor matches Some(Cursor::Command(state))
                &&& state.col == state.pos.1
                &&& is_in_bounds(state.pos, p.raster@.max)
                &&& kind_at(p.raster@, index_of(state.pos, p.raster@.max), true)
                &&& if cell.is_browsable() {
                    state.pos == p.cursor.pos()
                } else {
                    cell is Empty && index_of(state.pos, p.raster@.max) == next_place(
                        p.raster@,
                        index_of(p.cursor.pos(), p.raster@.max),
                        Direction::Left,
                        true,
                    ) && next_of_kind(
                        p.raster@,
                        index_of(p.cursor.pos(), p.raster@.max),
                        Direction::Left,
                        true,
                        index_of(state.pos, p.raster@.max),
                    )
                }
                &&& only_cursor(out)
            },
            Err(e) => Some(e) == leave_failure(p.raster@, p.cursor.pos()),
        },
{
    let HandlerInput { raster, cursor, .. } = p;
    let pos = cursor.pos();
    let here = match raster.browser(pos) {
        Ok(b) => b,
        Err(e) => { return Err(e); },
    };
    let cell = here.state();
    if cell.is_browsable() {
        Ok(HandlerOutput::new().set_cursor(Cursor::new_command(pos)))
    } else {
        match cell {
            PixelState::Empty => match go_to_kind(here, Direction::Left, true) {
                Ok(b) => Ok(HandlerOutput::new().set_cursor(Cursor::new_command(b.pos()))),
                Err(e) => Err(e),
            },
            _ => Err(Error::NotBrowsable),
        }
    }
}

/// The text that an arrow key writes into the active bullet.
pub open spec fn arrow_key_text() -> Seq<char> {
    " USE VIM KEYBINDINGS YOU PLEB "@
}

/// Answers an arrow key in insert mode: a reminder is written behind the
/// text of the active bullet, and the document is drawn.
pub fn insert_arrow_keys<W: Window + ?Sized>(p: HandlerInput<W>) -> (r: Result<HandlerOutput, Error>)
    requires
        p.tree.wf(),
        p.win.wf(),
        p.cursor is Insert,
    ensures
        final(p.tree).wf(),
        final(p.win).wf(),
        final(p.win).max() == old(p.win).max(),
        r is Ok ==> shows(&*final(p.win), final(p.tree)@),
        final(p.history)@ == old(p.history)@,
        ({
            let before = old(p.tree)@;
            let text = before.nodes[before.active].content + arrow_key_text();
            let offset = p.cursor->Insert_0.offset as int;
            if offset > text.len() {
                r == Err::<HandlerOutput, Error>(Error::OutOfBounds) && final(p.tree)@ == before
            } else {
                &&& final(p.tree)@ == before.with_content(text)
                &&& redrawn_or_too_large(final(p.tree)@, old(p.win).max(), offset, r)
            }
        }),
{
    let HandlerInput { tree, win, cursor, .. } = p;
    let state = cursor.insert_state();
    let mut text = tree.get_active_content().clone();
    text.append(" USE VIM KEYBINDINGS YOU PLEB ");
    if state.offset > text.as_str().unicode_len() {
        return Err(Error::OutOfBounds);
    }
    tree.set_active_content(text);
    render_and_make_insert_output(tree, win, state.offset)
}

/// The direction of a word motion, and the last step that it takes from the
/// separator that it finds: back to the start of a word for `b`, on to the
/// start of the next word for `w`, on to the end of a word for `e`.
pub open spec fn bwe_motion(key: Seq<char>) -> Option<Direction> {
    if key == "b"@ {
        Some(Direction::Left)
    } else if key == "w"@ || key == "e"@ {
        Some(Direction::Right)
    } else {
        None
    }
}

/// The last step of a word motion: one place back for `e`, one place on for
/// the other keys.
pub open spec fn bwe_last_step(key: Seq<char>) -> int {
    if key == "e"@ {
        -1
    } else {
        1
    }
}

/// Whether the character `offset` of a text of `len` characters is the one
/// that a motion in the direction `dir` leaves the text from.
pub open spec fn at_edge(dir: Direction, offset: int, len: int) -> bool {
    if dir is Left {
        offset == 0
    } else {
        offset == len - 1
    }
}

/// What a word motion does, from the place `from`, which shows the character
/// `offset` of bullet `id`: it starts at `start`, which is `from`, or the
/// nearest browsable cell in the direction `dir` where `from` shows the last
/// character of its text in that direction; the bullet shown at `start`
/// becomes active; and the motion walks on to `end` in the text of that
/// bullet.
pub open spec fn word_motion(
    v: RasterView,
    before: TreeView,
    from: int,
    id: i32,
    offset: int,
    dir: Direction,
    last: int,
    start: int,
    end: int,
    after: TreeView,
) -> bool {
    &&& if at_edge(dir, offset, before.nodes[id].content.len() as int) {
        next_of_kind(v, from, dir, true, start)
    } else {
        start == from
    }
    &&& v.cell(start) matches Some(PixelState::Text { id: shown, offset: inner })
    &&& after == before.activated(shown)
    &&& walked(
        v,
        start,
        dir,
        jump_steps(before.nodes[shown].content, inner as int, dir is Left, last, separators()),
        end,
    )
}

/// What a word motion with the key `key` makes of the cursor at `pos` and of
/// the document: the cursor stood on a character of a text; it has moved as
/// `word_motion` says, and stands in command mode where the motion ended.
pub open spec fn word_moved(
    v: RasterView,
    before: TreeView,
    pos: Point,
    key: Seq<char>,
    out: HandlerOutput,
    after: TreeView,
) -> bool {
    let cell = v.cell_at(pos);
    let motion = bwe_motion(key);
    let state = out.cursor->0->Command_0;
    &&& is_in_bounds(pos, v.max)
    &&& cell is Some
    &&& cell->0 is Text
    &&& motion is Some
    &&& before.nodes.contains_key(cell->0.id()->0)
    &&& out.cursor is Some
    &&& out.cursor->0 is Command
    &&& state.col == state.pos.1
    &&& is_in_bounds(state.pos, v.max)
    &&& exists|start: int| #[trigger]
        word_motion(
            v,
            before,
            index_of(pos, v.max),
            cell->0.id()->0,
            text_offset(cell->0),
            motion->0,
            bwe_last_step(key),
            start,
            index_of(state.pos, v.max),
            after,
        )
    &&& only_cursor(out)
}

/// Where a word motion in the direction `dir` starts, from the place `from`,
/// which shows the character `offset` of bullet `id`: at `from`, or at the
/// nearest browsable cell beyond it where the character is the last of its
/// text in that direction.
pub open spec fn word_start(
    v: RasterView,
    before: TreeView,
    from: int,
    id: i32,
    offset: int,
    dir: Direction,
) -> int {
    if at_edge(dir, offset, before.nodes[id].content.len() as int) {
        next_place(v, from, dir, true)
    } else {
        from
    }
}

/// What stands in the way of a word motion with the key `key` from the
/// cursor at `pos`, if anything does. The cursor must be on the grid, on a
/// character of a text of a bullet of the document, and the key must be one
/// of word motion. From the last character of a text there must be a
/// browsable cell beyond. The cell at which the motion starts must show a
/// character of a bullet of the document, which is not the root; and as many
/// characters as the motion walks over must be shown up to the end of the
/// grid.
pub open spec fn word_failure(v: RasterView, before: TreeView, pos: Point, key: Seq<char>) -> Option<
    Error,
> {
    let cell = v.cell_at(pos);
    let id = cell->0.id()->0;
    let offset = text_offset(cell->0);
    let dir = bwe_motion(key)->0;
    let from = index_of(pos, v.max);
    let start = word_start(v, before, from, id, offset, dir);
    let first = v.cell(start);
    let shown = first->0.id()->0;
    if !is_in_bounds(pos, v.max) {
        Some(Error::OutOfBounds)
    } else if !(cell is Some && cell->0 is Text) {
        Some(Error::NotBrowsable)
    } else if bwe_motion(key) is None {
        Some(Error::UnknownKey)
    } else if !before.nodes.contains_key(id) {
        Some(Error::UnknownIdentity)
    } else if at_edge(dir, offset, before.nodes[id].content.len() as int) && none_of_kind(
        v,
        from,
        dir,
        true,
    ) {
        Some(Error::OutOfBounds)
    } else if !(first is Some && first->0 is Text) {
        Some(Error::NotBrowsable)
    } else if !before.nodes.contains_key(shown) {
        Some(Error::UnknownIdentity)
    } else if jump_steps(
        before.nodes[shown].content,
        text_offset(first->0),
        dir is Left,
        bwe_last_step(key),
        separators(),
    ) > text_to_edge(v, start, dir) {
        Some(Error::OutOfBounds)
    } else if shown == 0 {
        Some(Error::UnknownIdentity)
    } else {
        None
    }
}

/// Moves the cursor by a word: back for `b`, on for `w`, to the end of a word
/// for `e`. From the last character of a text in its direction, the motion
/// goes on in the nearest text beyond. The bullet that the motion starts in
/// becomes the active one. Fails, and changes nothing, where something stands
/// in the way: see `word_failure`.
pub fn command_bwe<W: Window + ?Sized>(p: HandlerInput<W>) -> (r: Result<HandlerOutput, Error>)
    requires
        p.tree.wf(),
        p.cursor is Command,
    ensures
        final(p.tree).wf(),
        final(p.history)@ == old(p.history)@,
        final(p.win).wf() == old(p.win).wf(),
        final(p.win).max() == old(p.win).max(),
        final(p.win).cursor() == old(p.win).cursor(),
        crate::render::screen(&*final(p.win)) == crate::render::screen(&*old(p.win)),
        r is Ok <==> word_failure(p.raster@, old(p.tree)@, p.cursor.pos(), p.key@) is None,
        match r {
            Ok(out) => word_moved(
                p.raster@,
                old(p.tree)@,
                p.cursor.pos(),
                p.key@,
                out,
                final(p.tree)@,
            ) && word_motion(
                p.raster@,
                old(p.tree)@,
                index_of(p.cursor.pos(), p.raster@.max),
                p.raster@.cell_at(p.cursor.pos())->0.id()->0,
                text_offset(p.raster@.cell_at(p.cursor.pos())->0),
                bwe_motion(p.key@)->0,
                bwe_last_step(p.key@),
                word_start(
                    p.raster@,
                    old(p.tree)@,
                    index_of(p.cursor.pos(), p.raster@.max),
                    p.raster@.cell_at(p.cursor.pos())->0.id()->0,
                    text_offset(p.raster@.cell_at(p.cursor.pos())->0),
                    bwe_motion(p.key@)->0,
                ),
                index_of(out.cursor->0.pos(), p.raster@.max),
                final(p.tree)@,
            ),
            Err(e) => Some(e) == word_failure(p.raster@, old(p.tree)@, p.cursor.pos(), p.key@)
                && final(p.tree)@ == old(p.tree)@,
        },
{
    let HandlerInput { tree, raster, cursor, key, .. } = p;
    let from = cursor.command_state();
    let here = match raster.browser(from.pos) {
        Ok(b) => b,
        Err(e) => { return Err(e); },
    };
    let (id, offset) = match here.state() {
        PixelState::Text { id, offset } => (id, offset),
        _ => { return Err(Error::NotBrowsable); },
    };
    let dir = if same_text(key, "b") {
        Direction::Left
    } else if same_text(key, "w") || same_text(key, "e") {
        Direction::Right
    } else {
        return Err(Error::UnknownKey);
    };
    let last: i32 = if same_text(key, "e") {
        -1
    } else {
        1
    };
    let len = match tree.get_node(id) {
        Some(node) => node.content.as_str().unicode_len(),
        None => { return Err(Error::UnknownIdentity); },
    };
    let edge = match dir {
        Direction::Left => offset == 0,
        _ => len > 0 && offset == len - 1,
    };
    let start = if edge {
        match go_to_kind(here, dir, true) {
            Ok(b) => b,
            Err(e) => { return Err(e); },
        }
    } else {
        here
    };
    let (shown, inner) = match start.state() {
        PixelState::Text { id, offset } => (id, offset),
        _ => { return Err(Error::NotBrowsable); },
    };
    let text = match tree.get_node(shown) {
        Some(node) => node.content.clone(),
        None => { return Err(Error::UnknownIdentity); },
    };
    let mut sep: Vec<char> = Vec::new();
    sep.push(' ');
    proof {
        assert(sep@ =~= separators());
    }
    let pos = match jump_to_next_separator(text.as_str(), inner, dir, last, sep.as_slice(), start) {
        Ok(b) => b.pos(),
        Err(e) => { return Err(e); },
    };
    match tree.activate(shown) {
        Ok(_) => {},
        Err(e) => { return Err(e); },
    }
    let out = HandlerOutput::new().set_cursor(Cursor::new_command(pos));
    proof {
        assert(bwe_motion(p.key@) == Some(dir) && bwe_last_step(p.key@) == last);
        let v = p.raster@;
        let cell = v.cell_at(p.cursor.pos());
        assert(cell == Some(PixelState::Text { id, offset }));
        assert(cell->0.id()->0 == id && text_offset(cell->0) == offset);
        assert(out.cursor == Some(Cursor::Command(CommandState { pos, col: pos.1 })));
        assert(word_motion(
            v,
            old(p.tree)@,
            index_of(p.cursor.pos(), v.max),
            cell->0.id()->0,
            text_offset(cell->0),
            bwe_motion(p.key@)->0,
            bwe_last_step(p.key@),
            start.index(),
            index_of(out.cursor->0->Command_0.pos, v.max),
            tree@,
        ));
        assert(word_moved(p.raster@, old(p.tree)@, p.cursor.pos(), p.key@, out, tree@));
    }
    Ok(out)
}

} // verus!
