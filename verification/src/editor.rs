//! The state of an editing session, and what a key handler is given and
//! gives back.

use crate::error::Error;
use crate::handlers::{
    bindings_of, bound_to, command_bindings, command_bwe, command_d, command_hl, command_i,
    command_jk, command_o, command_p_shift_p, command_shift_a, command_shift_o, command_u,
    command_y, insert_arrow_keys, insert_backspace, insert_bindings, insert_control_c,
    insert_enter, insert_shift_tab, insert_tab, lookup, new_command_map, new_insert_map, Handler,
};
use crate::raster::{Point, Raster};
use crate::render::{tree_fits, tree_render, Window};
use crate::text::with_text_at;
use crate::tree::model::TreeView;
use crate::tree::{IdGenerator, Subtree, Tree};
use std::collections::VecDeque;
use vstd::prelude::*;
use vstd::string::{StrSliceExecFns, StringExecFns};

verus! {

/// The cursor of command mode: where it is, and the column that it returns to
/// when it moves up or down.
#[derive(Copy, Clone, Debug, PartialEq, Eq)]
pub struct CommandState {
    pub pos: Point,
    pub col: i32,
}

/// The cursor of insert mode: where it is, and how many characters from the
/// end of the active bullet's text it stands.
#[derive(Copy, Clone, Debug, PartialEq, Eq)]
pub struct InsertState {
    pub pos: Point,
    pub offset: usize,
}

/// The cursor of the editor, in one of its two modes.
#[derive(Copy, Clone, Debug, PartialEq, Eq)]
pub enum Cursor {
    Command(CommandState),
    Insert(InsertState),
}

impl Cursor {
    /// The position of the cursor.
    pub open spec fn spec_pos(self) -> Point {
        match self {
            Cursor::Command(state) => state.pos,
            Cursor::Insert(state) => state.pos,
        }
    }

    /// The position of the cursor.
    #[verifier::when_used_as_spec(spec_pos)]
    pub fn pos(self) -> (r: Point)
        ensures
            r == self.spec_pos(),
    {
        match self {
            Cursor::Command(CommandState { pos, .. }) => pos,
            Cursor::Insert(InsertState { pos, .. }) => pos,
        }
    }

    /// The state of a cursor that is in command mode.
    pub fn command_state(self) -> (r: CommandState)
        requires
            self is Command,
        ensures
            self == Cursor::Command(r),
    {
        match self {
            Cursor::Command(state) => state,
            Cursor::Insert(state) => CommandState { pos: state.pos, col: state.pos.1 },
        }
    }

    /// The state of a cursor that is in insert mode.
    pub fn insert_state(self) -> (r: InsertState)
        requires
            self is Insert,
        ensures
            self == Cursor::Insert(r),
    {
        match self {
            Cursor::Insert(state) => state,
            Cursor::Command(state) => InsertState { pos: state.pos, offset: 0 },
        }
    }

    /// A command cursor at `pos`, which remembers the column of `pos`.
    pub fn new_command(pos: Point) -> (r: Cursor)
        ensures
            r == Cursor::Command(CommandState { pos, col: pos.1 }),
    {
        Cursor::Command(CommandState { pos, col: pos.1 })
    }

    /// An insert cursor at `pos`, behind the text.
    pub fn new_insert(pos: Point) -> (r: Cursor)
        ensures
            r == Cursor::Insert(InsertState { pos, offset: 0 }),
    {
        Cursor::Insert(InsertState { pos, offset: 0 })
    }
}

/// What was last copied or cut.
#[derive(Debug)]
pub enum Clipboard {
    Tree(Subtree),
}

/// A change that can be undone: the bullet that a deletion took out, which
/// records where it stood, and the cursor before the deletion.
#[derive(Debug)]
pub struct HistoryItem {
    pub tree: Subtree,
    pub cursor: Cursor,
}

/// What a key handler is given: the key, the key that was pressed before it
/// where that key waits for a second one, the cursor, the document, the grid
/// of the last drawing, the window, the clipboard and the undo log.
pub struct HandlerInput<'a, W: Window + ?Sized> {
    pub key: &'a str,
    pub sticky_key: Option<&'a str>,
    pub cursor: Cursor,
    pub tree: &'a mut Tree,
    pub raster: &'a Raster,
    pub win: &'a mut W,
    pub clipboard: Option<&'a Clipboard>,
    pub history: &'a mut VecDeque<HistoryItem>,
}

/// What a key handler gives back: what is given replaces the editor's own;
/// the sticky key is replaced in either case.
#[derive(Debug)]
pub struct HandlerOutput {
    pub cursor: Option<Cursor>,
    pub raster: Option<Raster>,
    pub sticky_key: Option<String>,
    pub clipboard: Option<Clipboard>,
    pub history_item: Option<HistoryItem>,
}

impl HandlerOutput {
    /// An output that changes nothing but the sticky key, which it clears.
    pub fn new() -> (r: HandlerOutput)
        ensures
            r.cursor is None,
            r.raster is None,
            r.sticky_key is None,
            r.clipboard is None,
            r.history_item is None,
    {
        HandlerOutput {
            cursor: None,
            raster: None,
            sticky_key: None,
            clipboard: None,
            history_item: None,
        }
    }

    /// The same output with the cursor `cursor`.
    pub fn set_cursor(self, cursor: Cursor) -> (r: HandlerOutput)
        ensures
            r == (HandlerOutput { cursor: Some(cursor), ..self }),
    {
        let mut out = self;
        out.cursor = Some(cursor);
        out
    }

    /// The same output with the grid `raster`.
    pub fn set_raster(self, raster: Raster) -> (r: HandlerOutput)
        ensures
            r == (HandlerOutput { raster: Some(raster), ..self }),
    {
        let mut out = self;
        out.raster = Some(raster);
        out
    }

    /// The same output with the sticky key `key`.
    pub fn set_sticky_key(self, key: String) -> (r: HandlerOutput)
        ensures
            r == (HandlerOutput { sticky_key: Some(key), ..self }),
    {
        let mut out = self;
        out.sticky_key = Some(key);
        out
    }

    /// The same output with the clipboard `clipboard`.
    pub fn set_clipboard(self, clipboard: Clipboard) -> (r: HandlerOutput)
        ensures
            r == (HandlerOutput { clipboard: Some(clipboard), ..self }),
    {
        let mut out = self;
        out.clipboard = Some(clipboard);
        out
    }

    /// The same output with the entry `item` for the undo log.
    pub fn set_history_item(self, item: HistoryItem) -> (r: HandlerOutput)
        ensures
            r == (HandlerOutput { history_item: Some(item), ..self }),
    {
        let mut out = self;
        out.history_item = Some(item);
        out
    }
}

/// What the editor reports after a key: whether to quit, and the text for the
/// status line.
#[derive(Debug)]
pub struct PanelUpdate {
    pub should_quit: bool,
    pub status_msg: String,
}


/// Whether the copy that a clipboard holds is well formed.
pub open spec fn clipboard_wf(clipboard: Option<Clipboard>) -> bool {
    match clipboard {
        Some(Clipboard::Tree(copy)) => copy.wf(),
        None => true,
    }
}

/// Whether the copies that an undo log holds are well formed.
pub open spec fn history_wf(history: Seq<HistoryItem>) -> bool {
    forall|i: int| 0 <= i < history.len() ==> (#[trigger] history[i]).tree.wf()
}

/// Whether `handler` is one of command mode.
pub open spec fn for_command_mode(handler: Handler) -> bool {
    !(handler is InsertTab || handler is InsertShiftTab || handler is InsertEnter
        || handler is InsertBackspace || handler is InsertControlC || handler is InsertArrowKeys)
}

/// What the function of the handler `handler` promises of its result `r` on
/// `p`, and of what it makes of the document, the window and the undo log
/// that `p` refers to.
pub open spec fn handler_ran<W: Window + ?Sized>(
    handler: Handler,
    p: HandlerInput<W>,
    r: Result<HandlerOutput, Error>,
) -> bool {
    match handler {
        Handler::CommandI => call_ensures(command_i::<W>, (p,), r),
        Handler::CommandHl => call_ensures(command_hl::<W>, (p,), r),
        Handler::CommandJk => call_ensures(command_jk::<W>, (p,), r),
        Handler::CommandBwe => call_ensures(command_bwe::<W>, (p,), r),
        Handler::CommandShiftA => call_ensures(command_shift_a::<W>, (p,), r),
        Handler::CommandO => call_ensures(command_o::<W>, (p,), r),
        Handler::CommandShiftO => call_ensures(command_shift_o::<W>, (p,), r),
        Handler::CommandD => call_ensures(command_d::<W>, (p,), r),
        Handler::CommandY => call_ensures(command_y::<W>, (p,), r),
        Handler::CommandPShiftP => call_ensures(command_p_shift_p::<W>, (p,), r),
        Handler::CommandU => call_ensures(command_u::<W>, (p,), r),
        Handler::InsertTab => call_ensures(insert_tab::<W>, (p,), r),
        Handler::InsertShiftTab => call_ensures(insert_shift_tab::<W>, (p,), r),
        Handler::InsertEnter => call_ensures(insert_enter::<W>, (p,), r),
        Handler::InsertBackspace => call_ensures(insert_backspace::<W>, (p,), r),
        Handler::InsertControlC => call_ensures(insert_control_c::<W>, (p,), r),
        Handler::InsertArrowKeys => call_ensures(insert_arrow_keys::<W>, (p,), r),
    }
}

/// The two windows are of one size and show the same characters, and both
/// are fit for use or neither is.
pub open spec fn same_shown<W: Window + ?Sized>(a: &W, b: &W) -> bool {
    &&& a.wf() == b.wf()
    &&& a.max() == b.max()
    &&& forall|q: Point| #[trigger] a.glyph(q) == b.glyph(q)
}

/// The two windows show the same, with their cursors at the same position.
pub open spec fn same_window<W: Window + ?Sized>(a: &W, b: &W) -> bool {
    same_shown(a, b) && a.cursor() == b.cursor()
}

/// The text for the status line after a key: the message of the failure
/// `r`, else the key `sticky_key` that waits for a second one, else nothing.
pub open spec fn status_of(r: Result<(), Error>, sticky_key: Option<String>) -> Seq<char> {
    match r {
        Err(e) => e.spec_message(),
        Ok(_) => match sticky_key {
            Some(k) => k@,
            None => Seq::empty(),
        },
    }
}

/// Calls the function of the handler `handler` on `p`: the result, and what
/// becomes of the document, the window and the undo log, are those of that
/// function.
fn run_handler<W: Window + ?Sized>(handler: Handler, p: HandlerInput<W>) -> (r: Result<
    HandlerOutput,
    Error,
>)
    requires
        p.tree.wf(),
        p.win.wf(),
        history_wf(p.history@),
        p.clipboard matches Some(Clipboard::Tree(copy)) ==> copy.wf(),
        for_command_mode(handler) ==> p.cursor is Command,
        handler is InsertBackspace || handler is InsertArrowKeys ==> p.cursor is Insert,
    ensures
        final(p.tree).wf(),
        final(p.win).wf(),
        final(p.win).max() == old(p.win).max(),
        history_wf(final(p.history)@),
        r matches Ok(out) ==> clipboard_wf(out.clipboard) && (out.history_item matches Some(item)
            ==> item.tree.wf()),
        handler_ran(handler, p, r),
{
    match handler {
        Handler::CommandI => command_i(p),
        Handler::CommandHl => command_hl(p),
        Handler::CommandJk => command_jk(p),
        Handler::CommandBwe => command_bwe(p),
        Handler::CommandShiftA => command_shift_a(p),
        Handler::CommandO => command_o(p),
        Handler::CommandShiftO => command_shift_o(p),
        Handler::CommandD => command_d(p),
        Handler::CommandY => command_y(p),
        Handler::CommandPShiftP => command_p_shift_p(p),
        Handler::CommandU => command_u(p),
        Handler::InsertTab => insert_tab(p),
        Handler::InsertShiftTab => insert_shift_tab(p),
        Handler::InsertEnter => insert_enter(p),
        Handler::InsertBackspace => insert_backspace(p),
        Handler::InsertControlC => insert_control_c(p),
        Handler::InsertArrowKeys => insert_arrow_keys(p),
    }
}

/// An editing session: the document, the cursor, the grid of the last
/// drawing, the key tables, the key that waits for a second one, the
/// clipboard and the undo log.
pub struct Editor {
    bullet_tree: Tree,
    cursor: Cursor,
    raster: Raster,
    command_map: Vec<(&'static str, Handler)>,
    insert_map: Vec<(&'static str, Handler)>,
    sticky_key: Option<String>,
    clipboard: Option<Clipboard>,
    history: VecDeque<HistoryItem>,
}

impl Editor {
    /// The document of the session.
    pub closed spec fn spec_tree(&self) -> Tree {
        self.bullet_tree
    }

    /// The cursor of the session.
    pub closed spec fn spec_cursor(&self) -> Cursor {
        self.cursor
    }

    /// The grid of the last drawing.
    pub closed spec fn spec_raster(&self) -> Raster {
        self.raster
    }

    /// The clipboard of the session.
    pub closed spec fn spec_clipboard(&self) -> Option<Clipboard> {
        self.clipboard
    }

    /// The undo log of the session: the deletions that can be undone, the
    /// last one last.
    pub closed spec fn spec_history(&self) -> Seq<HistoryItem> {
        self.history@
    }

    /// The key that waits for a second one, if one does.
    pub closed spec fn spec_sticky_key(&self) -> Option<String> {
        self.sticky_key
    }

    /// The session holds a well-formed document, well-formed copies in its
    /// clipboard and its undo log, and the key tables of the two modes.
    pub closed spec fn wf(&self) -> bool {
        &&& self.bullet_tree.wf()
        &&& clipboard_wf(self.clipboard)
        &&& history_wf(self.history@)
        &&& bindings_of(self.command_map@) == command_bindings()
        &&& bindings_of(self.insert_map@) == insert_bindings()
    }

    /// The key table of the mode that the session is in.
    pub open spec fn bindings(&self) -> Seq<(Seq<char>, Handler)> {
        match self.spec_cursor() {
            Cursor::Command(_) => command_bindings(),
            Cursor::Insert(_) => insert_bindings(),
        }
    }

    /// `p` holds what the session hands to a handler for the key `key`: the
    /// key, the key that waits, the cursor, the document, the grid, the
    /// clipboard and the undo log of the session.
    pub open spec fn hands<W: Window + ?Sized>(&self, key: Seq<char>, p: HandlerInput<W>) -> bool {
        &&& p.key@ == key
        &&& match p.sticky_key {
            Some(k) => self.spec_sticky_key() matches Some(s) && s@ == k@,
            None => self.spec_sticky_key() is None,
        }
        &&& p.cursor == self.spec_cursor()
        &&& *p.tree == self.spec_tree()
        &&& *p.raster == self.spec_raster()
        &&& match p.clipboard {
            Some(held) => self.spec_clipboard() == Some(*held),
            None => self.spec_clipboard() is None,
        }
        &&& p.history@ == self.spec_history()
    }

    /// `after` is the session after a handler gave back `out` and left the
    /// document as `tree` and the undo log as `history`, and `r` what the
    /// session answers. The document and the undo log are as the handler left
    /// them. Of a handler that succeeded, what it
    /// gave replaces the session's own, its entry for the undo log is added
    /// to the log, and its waiting key replaces the session's in either
    /// case. Of a handler that failed, the session keeps the failure as its
    /// answer, and the rest of what it had.
    pub open spec fn answered(
        &self,
        tree: Tree,
        history: Seq<HistoryItem>,
        out: Result<HandlerOutput, Error>,
        after: Editor,
        r: Result<(), Error>,
    ) -> bool {
        &&& after.spec_tree() == tree
        &&& match out {
            Ok(given) => {
                &&& r is Ok
                &&& after.spec_cursor() == match given.cursor {
                    Some(cursor) => cursor,
                    None => self.spec_cursor(),
                }
                &&& after.spec_raster() == match given.raster {
                    Some(raster) => raster,
                    None => self.spec_raster(),
                }
                &&& after.spec_sticky_key() == given.sticky_key
                &&& after.spec_clipboard() == match given.clipboard {
                    Some(clipboard) => Some(clipboard),
                    None => self.spec_clipboard(),
                }
                &&& after.spec_history() == match given.history_item {
                    Some(item) => history.push(item),
                    None => history,
                }
            },
            Err(e) => {
                &&& r == Err::<(), Error>(e)
                &&& after.spec_cursor() == self.spec_cursor()
                &&& after.spec_raster() == self.spec_raster()
                &&& after.spec_sticky_key() == self.spec_sticky_key()
                &&& after.spec_clipboard() == self.spec_clipboard()
                &&& after.spec_history() == history
            },
        }
    }

    /// `after` is the session after `key` was typed into the text of the
    /// active bullet on a window of the size `max`, and `r` what the session
    /// answers. The key stands in the text before the character that is as
    /// far from the end as the cursor says, and the grid and the cursor are
    /// those of the drawing. Where the document with the longer text does
    /// not fit the window, the text stays longer, and the grid and the cursor
    /// are as they were. Where the cursor is further from the end than the
    /// text is long, nothing is done. Both fail with `OutOfBounds`.
    pub open spec fn typed(&self, key: Seq<char>, max: Point, after: Editor, r: Result<(), Error>) -> bool {
        let before = self.spec_tree()@;
        let text = before.nodes[before.active].content;
        let offset = self.spec_cursor()->Insert_0.offset as int;
        let longer = before.with_content(
            text.subrange(0, text.len() - offset) + key + text.subrange(
                text.len() - offset,
                text.len() as int,
            ),
        );
        &&& after.spec_sticky_key() == self.spec_sticky_key()
        &&& after.spec_clipboard() == self.spec_clipboard()
        &&& after.spec_history() == self.spec_history()
        &&& if offset > text.len() {
            &&& r == Err::<(), Error>(Error::OutOfBounds)
            &&& after.spec_tree() == self.spec_tree()
            &&& after.spec_cursor() == self.spec_cursor()
            &&& after.spec_raster() == self.spec_raster()
        } else if tree_fits(longer.nodes, 0, max) {
            &&& r is Ok
            &&& after.spec_tree()@ == longer
            &&& after.spec_cursor() matches Cursor::Insert(state)
            &&& state.offset == offset
            &&& Some(state.pos) == crate::render::tree_anchor(longer.nodes, max, longer.active, offset)
            &&& after.spec_raster().wf()
            &&& after.spec_raster()@.max == max
            &&& after.spec_raster()@.cells == crate::render::tree_cells(longer.nodes, 0, max)
        } else {
            &&& r == Err::<(), Error>(Error::OutOfBounds)
            &&& after.spec_tree()@ == longer
            &&& after.spec_cursor() == self.spec_cursor()
            &&& after.spec_raster() == self.spec_raster()
        }
    }

    /// `after` is the session after a key `key` that is bound to no handler
    /// in the mode of the cursor, on the window `win`; `r` is what the
    /// session answers, and `shown` the window after it. In command mode the
    /// key fails with `UnknownKey`, and nothing changes; in insert mode it is
    /// typed into the text, and the window shows the document where that
    /// succeeds.
    pub open spec fn unbound<W: Window + ?Sized>(
        &self,
        key: Seq<char>,
        win: &W,
        after: Editor,
        shown: &W,
        r: Result<(), Error>,
    ) -> bool {
        match self.spec_cursor() {
            Cursor::Command(_) => r == Err::<(), Error>(Error::UnknownKey) && after == *self
                && same_shown(shown, win),
            Cursor::Insert(_) => self.typed(key, win.max(), after, r) && shown.wf() == win.wf()
                && shown.max() == win.max() && (r is Ok ==> crate::handlers::shows(
                shown,
                after.spec_tree()@,
            )),
        }
    }

    /// A session on a new document, whose first bullet takes its identity
    /// from `generator`, drawn on the window. Fails with `IdentityInUse`
    /// where the identity source hands out the root's identity, and the
    /// window is as it was; and with `OutOfBounds` where the document of one
    /// bullet does not fit the window. See `with_tree`, which is given the
    /// document.
    pub fn new<W: Window + ?Sized>(win: &mut W, generator: Box<dyn IdGenerator>) -> (r: Result<
        Editor,
        Error,
    >)
        requires
            old(win).wf(),
        ensures
            final(win).wf(),
            final(win).max() == old(win).max(),
            match r {
                Ok(editor) => editor.wf() && final(win).cursor() == editor.spec_cursor().pos()
                    && crate::handlers::shows(&*final(win), editor.spec_tree()@)
                    && tree_fits(editor.spec_tree()@.nodes, 0, old(win).max())
                    && editor.spec_cursor() is Insert && editor.spec_history().len() == 0
                    && editor.spec_clipboard() is None && editor.spec_sticky_key() is None
                    && exists|first: i32|
                    first != 0 && editor.spec_tree()@ == TreeView::initial(first),
                Err(e) => if e == Error::OutOfBounds {
                    exists|first: i32|
                        first != 0 && !tree_fits(
                            (#[trigger] TreeView::initial(first)).nodes,
                            0,
                            old(win).max(),
                        )
                } else {
                    e == Error::IdentityInUse && same_window(&*final(win), &*old(win))
                },
            },
    {
        let tree = match Tree::new(generator) {
            Ok(tree) => tree,
            Err(e) => { return Err(e); },
        };
        Editor::with_tree(win, tree)
    }

    /// A session on the document `tree`, drawn on the window, in insert mode
    /// behind the text of the active bullet, with an empty clipboard and an
    /// empty undo log. Fails where the document does not fit the window.
    pub fn with_tree<W: Window + ?Sized>(win: &mut W, tree: Tree) -> (r: Result<Editor, Error>)
        requires
            old(win).wf(),
            tree.wf(),
        ensures
            final(win).wf(),
            final(win).max() == old(win).max(),
            r is Ok <==> tree_fits(tree@.nodes, 0, old(win).max()),
            match r {
                Ok(editor) => {
                    &&& editor.wf()
                    &&& editor.spec_tree() == tree
                    &&& editor.spec_cursor() matches Cursor::Insert(state)
                    &&& state.offset == 0
                    &&& Some(state.pos) == crate::render::tree_anchor(
                        tree@.nodes,
                        old(win).max(),
                        tree@.active,
                        0,
                    )
                    &&& final(win).cursor() == state.pos
                    &&& crate::handlers::shows(&*final(win), tree@)
                    &&& editor.spec_raster()@.cells == crate::render::tree_cells(
                        tree@.nodes,
                        0,
                        old(win).max(),
                    )
                    &&& editor.spec_history().len() == 0
                    &&& editor.spec_clipboard() is None
                    &&& editor.spec_sticky_key() is None
                },
                Err(e) => e == Error::OutOfBounds,
            },
    {
        let (raster, anchor) = match tree_render(win, tree.root_iter(), tree.get_active_id(), 0) {
            Ok(drawing) => drawing,
            Err(e) => { return Err(e); },
        };
        let cursor = Cursor::Insert(InsertState { pos: anchor.unwrap(), offset: 0 });
        let ghost drawn = crate::render::screen(&*win);
        win.move_cursor(cursor.pos());
        proof {
            assert(crate::render::screen(&*win) =~= drawn);
        }
        Ok(
            Editor {
                bullet_tree: tree,
                cursor,
                raster,
                command_map: new_command_map(),
                insert_map: new_insert_map(),
                sticky_key: None,
                clipboard: None,
                history: VecDeque::new(),
            },
        )
    }

    /// The cursor of the session.
    #[verifier::when_used_as_spec(spec_cursor)]
    pub fn cursor(&self) -> (r: Cursor)
        ensures
            r == self.spec_cursor(),
    {
        self.cursor
    }

    /// The document of the session.
    pub fn tree(&self) -> (r: &Tree)
        ensures
            *r == self.spec_tree(),
    {
        &self.bullet_tree
    }

    /// The grid of the last drawing.
    pub fn raster(&self) -> (r: &Raster)
        ensures
            *r == self.spec_raster(),
    {
        &self.raster
    }

    /// The clipboard of the session.
    pub fn clipboard(&self) -> (r: Option<&Clipboard>)
        ensures
            match r {
                Some(held) => self.spec_clipboard() == Some(*held),
                None => self.spec_clipboard() is None,
            },
    {
        self.clipboard.as_ref()
    }

    /// How many deletions the undo log holds.
    pub fn history_len(&self) -> (r: usize)
        ensures
            r == self.spec_history().len(),
    {
        self.history.len()
    }

    /// Takes over what a handler gave back: what is given replaces the
    /// session's own, an entry for the undo log is added to it, and the
    /// sticky key is replaced in either case.
    fn absorb_handler_output(&mut self, output: HandlerOutput)
        requires
            old(self).wf(),
            clipboard_wf(output.clipboard),
            output.history_item matches Some(item) ==> item.tree.wf(),
        ensures
            final(self).wf(),
            final(self).spec_tree() == old(self).spec_tree(),
            final(self).spec_cursor() == match output.cursor {
                Some(cursor) => cursor,
                None => old(self).spec_cursor(),
            },
            final(self).spec_raster() == match output.raster {
                Some(raster) => raster,
                None => old(self).spec_raster(),
            },
            final(self).spec_sticky_key() == output.sticky_key,
            final(self).spec_clipboard() == match output.clipboard {
                Some(clipboard) => Some(clipboard),
                None => old(self).spec_clipboard(),
            },
            final(self).spec_history() == match output.history_item {
                Some(item) => old(self).spec_history().push(item),
                None => old(self).spec_history(),
            },
    {
        let HandlerOutput { cursor, raster, sticky_key, clipboard, history_item } = output;
        match cursor {
            Some(cursor) => {
                self.cursor = cursor;
            },
            None => {},
        }
        match raster {
            Some(raster) => {
                self.raster = raster;
            },
            None => {},
        }
        self.sticky_key = sticky_key;
        match clipboard {
            Some(clipboard) => {
                self.clipboard = Some(clipboard);
            },
            None => {},
        }
        match history_item {
            Some(item) => {
                self.history.push_back(item);
            },
            None => {},
        }
    }

    /// Answers a key in the mode of the cursor with the handler that the
    /// key is bound to. In insert mode a key that is bound to none is written
    /// into the text of the active bullet at the cursor.
    fn on_key_press<W: Window + ?Sized>(&mut self, key: &str, win: &mut W) -> (r: Result<(), Error>)
        requires
            old(self).wf(),
            old(win).wf(),
        ensures
            final(self).wf(),
            final(win).wf(),
            final(win).max() == old(win).max(),
            match bound_to(old(self).bindings(), key@) {
                Some(handler) => exists|p: HandlerInput<W>, out: Result<HandlerOutput, Error>|
                    old(self).hands(key@, p)
                        && same_window(&*old(win), &*p.win)
                        && #[trigger] handler_ran(handler, p, out)
                        && old(self).answered(
                            *final(p.tree),
                            final(p.history)@,
                            out,
                            *final(self),
                            r,
                        )
                        && same_window(&*final(win), &*final(p.win)),
                None => old(self).unbound(key@, &*old(win), *final(self), &*final(win), r),
            },
    {
        let command = match self.cursor {
            Cursor::Command(_) => true,
            Cursor::Insert(_) => false,
        };
        let bound = if command {
            lookup(&self.command_map, key)
        } else {
            lookup(&self.insert_map, key)
        };
        match bound {
            Some(handler) => {
                proof {
                    lemma_bindings_modes(key@);
                }
                let sticky_key = match &self.sticky_key {
                    Some(k) => Some(k.as_str()),
                    None => None,
                };
                let input = HandlerInput {
                    key,
                    sticky_key,
                    cursor: self.cursor,
                    tree: &mut self.bullet_tree,
                    raster: &self.raster,
                    win,
                    clipboard: self.clipboard.as_ref(),
                    history: &mut self.history,
                };
                let ghost given = input;
                let out = run_handler(handler, input);
                let ghost got = out;
                let r = match out {
                    Ok(output) => {
                        self.absorb_handler_output(output);
                        Ok(())
                    },
                    Err(e) => Err(e),
                };
                proof {
                    assert(old(self).hands(key@, given));
                    assert(handler_ran(handler, given, got));
                    assert(old(self).answered(
                        *final(given.tree),
                        final(given.history)@,
                        got,
                        *self,
                        r,
                    ));
                }
                r
            },
            None => {
                if command {
                    Err(Error::UnknownKey)
                } else {
                    self.write_key(key, win)
                }
            },
        }
    }

    /// Writes `key` into the text of the active bullet at the cursor, and
    /// draws the document.
    fn write_key<W: Window + ?Sized>(&mut self, key: &str, win: &mut W) -> (r: Result<(), Error>)
        requires
            old(self).wf(),
            old(win).wf(),
            old(self).spec_cursor() is Insert,
        ensures
            final(self).wf(),
            final(win).wf(),
            final(win).max() == old(win).max(),
            old(self).typed(key@, old(win).max(), *final(self), r),
            r is Ok ==> crate::handlers::shows(&*final(win), final(self).spec_tree()@),
    {
        let state = self.cursor.insert_state();
        let len = self.bullet_tree.get_active_content().as_str().unicode_len();
        if state.offset > len {
            return Err(Error::OutOfBounds);
        }
        let longer = with_text_at(
            self.bullet_tree.get_active_content().as_str(),
            len - state.offset,
            key,
        );
        self.bullet_tree.set_active_content(longer);
        let drawing = tree_render(
            win,
            self.bullet_tree.root_iter(),
            self.bullet_tree.get_active_id(),
            state.offset,
        );
        match drawing {
            Ok((raster, anchor)) => {
                let pos = anchor.unwrap();
                self.raster = raster;
                self.cursor = Cursor::Insert(InsertState { pos, offset: state.offset });
                let ghost drawn = crate::render::screen(&*win);
                win.move_cursor(pos);
                win.refresh();
                proof {
                    assert(crate::render::screen(&*win) =~= drawn);
                }
                Ok(())
            },
            Err(e) => Err(e),
        }
    }

    /// Answers a key as `pressed` says, and reports what the status line is
    /// to show: the message of a failure, else the key that waits for a
    /// second one. The cursor of the window goes where the cursor of the
    /// session is.
    pub fn update<W: Window + ?Sized>(&mut self, key: &str, win: &mut W) -> (r: PanelUpdate)
        requires
            old(self).wf(),
            old(win).wf(),
        ensures
            final(self).wf(),
            final(win).wf(),
            final(win).max() == old(win).max(),
            final(win).cursor() == final(self).spec_cursor().pos(),
            !r.should_quit,
            exists|answer: Result<(), Error>|
                #![trigger status_of(answer, final(self).spec_sticky_key())]
                r.status_msg@ == status_of(answer, final(self).spec_sticky_key()) && match bound_to(
                    old(self).bindings(),
                    key@,
                ) {
                    Some(handler) => exists|p: HandlerInput<W>, out: Result<HandlerOutput, Error>|
                        old(self).hands(key@, p)
                            && same_window(&*old(win), &*p.win)
                            && #[trigger] handler_ran(handler, p, out)
                            && old(self).answered(
                                *final(p.tree),
                                final(p.history)@,
                                out,
                                *final(self),
                                answer,
                            )
                            && same_shown(&*final(win), &*final(p.win)),
                    None => old(self).unbound(
                        key@,
                        &*old(win),
                        *final(self),
                        &*final(win),
                        answer,
                    ),
                },
    {
        let answer = self.on_key_press(key, win);
        let mut status_msg = match answer {
            Ok(_) => String::new(),
            Err(e) => String::from_str(e.message()),
        };
        proof {
            reveal_strlit("the outline does not allow that here");
            reveal_strlit("could not find the bullet");
            reveal_strlit("could not browse past bounds");
            reveal_strlit("no text on target line");
            reveal_strlit("only defined for left and right");
            reveal_strlit("the identity is already in use");
            reveal_strlit("invalid cell under the cursor");
            reveal_strlit("nothing to paste");
            reveal_strlit("unknown command key");
        }
        if status_msg.as_str().unicode_len() == 0 {
            match &self.sticky_key {
                Some(k) => {
                    status_msg = k.clone();
                },
                None => {},
            }
        }
        assert(status_msg@ == status_of(answer, self.spec_sticky_key()));
        let ghost shown = crate::render::screen(&*win);
        win.move_cursor(self.cursor.pos());
        proof {
            assert(crate::render::screen(&*win) =~= shown);
        }
        PanelUpdate { should_quit: false, status_msg }
    }
}

/// The keys of command mode are bound to handlers of command mode, and those
/// of insert mode to handlers of insert mode.
pub proof fn lemma_bindings_modes(key: Seq<char>)
    ensures
        bound_to(command_bindings(), key) matches Some(handler) ==> for_command_mode(handler),
        bound_to(insert_bindings(), key) matches Some(handler) ==> !for_command_mode(handler),
{
    crate::handlers::bindings::lemma_bound_to_entry(command_bindings(), key);
    crate::handlers::bindings::lemma_bound_to_entry(insert_bindings(), key);
    assert forall|i: int| 0 <= i < command_bindings().len() implies for_command_mode(
        (#[trigger] command_bindings()[i]).1,
    ) by {}
    assert forall|i: int| 0 <= i < insert_bindings().len() implies !for_command_mode(
        (#[trigger] insert_bindings()[i]).1,
    ) by {}
}

} // verus!
