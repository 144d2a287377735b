//! The screen grid: one cell per screen position, filled in reading order, and
//! the cursor that moves over it.

use crate::error::Error;
use vstd::prelude::*;

verus! {

/// A screen position, or the size of a grid: row first, then column.
pub type Point = (i32, i32);

/// What occupies one screen position.
#[derive(Debug, PartialEq, Eq, Clone, Copy, Structural)]
pub enum PixelState {
    /// Nothing is drawn here.
    Empty,
    /// Padding that belongs to a bullet: beside its marker, or where its text wraps.
    Filler(i32),
    /// The character at `offset` in the text of bullet `id`.
    Text { id: i32, offset: usize },
    /// The marker of a bullet.
    Bullet(i32),
    /// The one cell that stands for a bullet whose text is empty.
    Placeholder(i32),
}

impl PixelState {
    /// Whether the cell holds a character of a bullet's text.
    pub open spec fn spec_is_text(self) -> bool {
        self is Text
    }

    /// Whether the cell holds a character of a bullet's text.
    #[verifier::when_used_as_spec(spec_is_text)]
    pub fn is_text(self) -> (r: bool)
        ensures
            r == (self is Text),
    {
        match self {
            PixelState::Text { .. } => true,
            _ => false,
        }
    }

    /// Whether a command cursor may rest on the cell.
    pub open spec fn spec_is_browsable(self) -> bool {
        self is Text || self is Placeholder
    }

    /// Whether a command cursor may rest on the cell: text, or the placeholder
    /// of an empty bullet.
    #[verifier::when_used_as_spec(spec_is_browsable)]
    pub fn is_browsable(self) -> (r: bool)
        ensures
            r == (self is Text || self is Placeholder),
    {
        match self {
            PixelState::Text { .. } => true,
            PixelState::Placeholder(_) => true,
            _ => false,
        }
    }

    /// The bullet that the cell belongs to, if any.
    pub open spec fn spec_id(self) -> Option<i32> {
        match self {
            PixelState::Empty => None,
            PixelState::Filler(id) => Some(id),
            PixelState::Text { id, .. } => Some(id),
            PixelState::Bullet(id) => Some(id),
            PixelState::Placeholder(id) => Some(id),
        }
    }

    /// The bullet that the cell belongs to, if any.
    #[verifier::when_used_as_spec(spec_id)]
    pub fn id(self) -> (r: Option<i32>)
        ensures
            r == self.spec_id(),
    {
        match self {
            PixelState::Empty => None,
            PixelState::Filler(id) => Some(id),
            PixelState::Text { id, .. } => Some(id),
            PixelState::Bullet(id) => Some(id),
            PixelState::Placeholder(id) => Some(id),
        }
    }
}

/// A direction on the screen.
#[derive(Copy, Clone, Debug, PartialEq, Eq, Structural)]
pub enum Direction {
    Left,
    Right,
    Up,
    Down,
}

/// Whether `pos` lies on a grid of `max.0` rows and `max.1` columns.
pub open spec fn spec_is_in_bounds(pos: Point, max: Point) -> bool {
    0 <= pos.0 < max.0 && 0 <= pos.1 < max.1
}

/// Whether `pos` lies on a grid of `max.0` rows and `max.1` columns.
#[verifier::when_used_as_spec(spec_is_in_bounds)]
pub fn is_in_bounds(pos: Point, max: Point) -> (r: bool)
    ensures
        r == (0 <= pos.0 < max.0 && 0 <= pos.1 < max.1),
{
    0 <= pos.0 && pos.0 < max.0 && 0 <= pos.1 && pos.1 < max.1
}

/// The sum of two points, coordinate by coordinate.
pub fn add_points(a: Point, b: Point) -> (r: Point)
    requires
        i32::MIN <= a.0 + b.0 <= i32::MAX,
        i32::MIN <= a.1 + b.1 <= i32::MAX,
    ensures
        r.0 == a.0 + b.0,
        r.1 == a.1 + b.1,
{
    (a.0 + b.0, a.1 + b.1)
}

/// Where `offset` cells along the flattened grid lead from `pos`: the column
/// moves by `offset`, and every full row width that it crosses is carried
/// into the row, by floor division and its remainder. `None` when the row
/// that results is not a row of the grid.
pub open spec fn linear_move_spec(pos: Point, max: Point, offset: int) -> Option<Point> {
    let x = pos.1 + offset;
    let row = pos.0 + x / (max.1 as int);
    let col = x % (max.1 as int);
    if 0 <= row < max.0 {
        Some((row as i32, col as i32))
    } else {
        None
    }
}

/// A quotient is no larger in magnitude than its dividend, and a remainder
/// is smaller than its divisor.
proof fn lemma_quotient_bounds(x: int, width: int)
    requires
        width != 0,
    ensures
        x >= 0 ==> -x <= x / width <= x,
        x < 0 ==> x <= x / width <= -x,
        width > 0 ==> 0 <= x % width < width,
        width < 0 ==> 0 <= x % width < -width,
{
    assert(x >= 0 ==> -x <= x / width <= x) by (nonlinear_arith)
        requires
            width != 0,
    ;
    assert(x < 0 ==> x <= x / width <= -x) by (nonlinear_arith)
        requires
            width != 0,
    ;
    assert(width > 0 ==> 0 <= x % width < width) by (nonlinear_arith);
    assert(width < 0 ==> 0 <= x % width < -width) by (nonlinear_arith);
}

/// Moves `offset` cells along the flattened grid, wrapping at the row ends.
pub fn linear_move(pos: Point, max: Point, offset: i32) -> (r: Option<Point>)
    requires
        max.1 != 0,
    ensures
        r == linear_move_spec(pos, max, offset as int),
{
    let x: i64 = pos.1 as i64 + offset as i64;
    let width: i64 = max.1 as i64;
    proof {
        lemma_quotient_bounds(x as int, width as int);
    }
    let carried: i64 = x.checked_div_euclid(width).unwrap();
    let col: i64 = x.checked_rem_euclid(width).unwrap();
    let row: i64 = pos.0 as i64 + carried;
    if 0 <= row && row < max.0 as i64 {
        Some((row as i32, col as i32))
    } else {
        None
    }
}


/// The number of cells of a grid of the size `max`: none where a side is not
/// positive.
pub open spec fn capacity(max: Point) -> int {
    if max.0 > 0 && max.1 > 0 {
        max.0 * max.1
    } else {
        0
    }
}

/// The place of `pos` in reading order: rows from the top, each from the left.
pub open spec fn index_of(pos: Point, max: Point) -> int {
    pos.0 * max.1 + pos.1
}

/// A grid as a value: its size, and the cells written so far in reading
/// order. The cells not written yet are `Empty`.
pub struct RasterView {
    pub max: Point,
    pub cells: Seq<PixelState>,
}

impl RasterView {
    /// The cell at place `n` of the reading order, if the grid has such a
    /// place: what was written there, and `Empty` where nothing was written yet.
    pub open spec fn cell(self, n: int) -> Option<PixelState> {
        if 0 <= n < self.cells.len() {
            Some(self.cells[n])
        } else if 0 <= n < capacity(self.max) {
            Some(PixelState::Empty)
        } else {
            None
        }
    }

    /// The cell at `pos`, if `pos` is on the grid.
    pub open spec fn cell_at(self, pos: Point) -> Option<PixelState> {
        if is_in_bounds(pos, self.max) {
            self.cell(index_of(pos, self.max))
        } else {
            None
        }
    }

    /// Every cell of the grid was written.
    pub open spec fn is_full(self) -> bool {
        self.cells.len() == capacity(self.max)
    }
}

/// In a grid, a position's place in reading order is below the capacity, and
/// two positions with the same place are the same position.
pub proof fn lemma_index_of_in_bounds(pos: Point, max: Point)
    requires
        is_in_bounds(pos, max),
    ensures
        0 <= index_of(pos, max) < capacity(max),
        index_of(pos, max) / (max.1 as int) == pos.0,
        index_of(pos, max) % (max.1 as int) == pos.1,
{
    let w = max.1 as int;
    let r = pos.0 as int;
    let c = pos.1 as int;
    assert(0 <= r * w && r * w + w <= max.0 * w) by (nonlinear_arith)
        requires
            0 <= r < max.0,
            w > 0,
    ;
    vstd::arithmetic::div_mod::lemma_fundamental_div_mod_converse(r * w + c, w, r, c);
}

/// A move along the flattened grid from a position on the grid adds the
/// offset to the place in reading order; it fails exactly when the place
/// that results is not one of the grid.
pub proof fn lemma_linear_move_index(pos: Point, max: Point, offset: int)
    requires
        is_in_bounds(pos, max),
    ensures
        match linear_move_spec(pos, max, offset) {
            Some(p) => is_in_bounds(p, max) && index_of(p, max) == index_of(pos, max) + offset,
            None => index_of(pos, max) + offset < 0 || index_of(pos, max) + offset >= capacity(
                max,
            ),
        },
{
    let w = max.1 as int;
    let x = pos.1 + offset;
    let q = x / w;
    let m = x % w;
    let row = pos.0 + q;
    vstd::arithmetic::div_mod::lemma_fundamental_div_mod(x, w);
    lemma_quotient_bounds(x, w);
    assert(row * w == pos.0 * w + w * q) by (nonlinear_arith)
        requires
            row == pos.0 + q,
    ;
    assert(row * w + m == index_of(pos, max) + offset);
    if 0 <= row < max.0 {
        assert(row * w + w <= max.0 * w) by (nonlinear_arith)
            requires
                row < max.0,
                w > 0,
        ;
    } else if row < 0 {
        assert(row * w <= -w) by (nonlinear_arith)
            requires
                row <= -1,
                w > 0,
        ;
    } else {
        assert(row * w >= max.0 * w) by (nonlinear_arith)
            requires
                row >= max.0,
                w > 0,
        ;
    }
}

/// The grid that a render pass fills: a fixed size, and the cells written so
/// far, in reading order.
#[derive(Debug)]
pub struct Raster {
    cells: Vec<PixelState>,
    max: Point,
}

impl View for Raster {
    type V = RasterView;

    closed spec fn view(&self) -> RasterView {
        RasterView { max: self.max, cells: self.cells@ }
    }
}

impl Raster {
    /// No more cells were written than the grid has.
    pub open spec fn wf(&self) -> bool {
        self@.cells.len() <= capacity(self@.max)
    }

    /// A grid of `max.0` rows and `max.1` columns with no cell written yet:
    /// every cell of it is `Empty`.
    pub fn new(max: Point) -> (r: Raster)
        ensures
            r@.max == max,
            r@.cells == Seq::<PixelState>::empty(),
            r.wf(),
            forall|pos: Point|
                #[trigger] r@.cell_at(pos) == if is_in_bounds(pos, max) {
                    Some(PixelState::Empty)
                } else {
                    None
                },
    {
        let r = Raster { cells: Vec::new(), max };
        proof {
            assert forall|pos: Point| is_in_bounds(pos, max) implies #[trigger] r@.cell_at(pos)
                == Some(PixelState::Empty) by {
                lemma_index_of_in_bounds(pos, max);
            }
        }
        r
    }

    /// The size that the grid was made with.
    pub fn max(&self) -> (r: Point)
        ensures
            r == self@.max,
    {
        self.max
    }

    /// Whether every cell of the grid was written.
    pub fn is_full(&self) -> (r: bool)
        requires
            self.wf(),
        ensures
            r == self@.is_full(),
    {
        if self.max.0 > 0 && self.max.1 > 0 {
            let rows: u64 = self.max.0 as u64;
            let cols: u64 = self.max.1 as u64;
            assert(rows * cols <= 0x7fff_ffff * 0x7fff_ffff) by (nonlinear_arith)
                requires
                    rows <= 0x7fff_ffff,
                    cols <= 0x7fff_ffff,
            ;
            self.cells.len() as u64 == rows * cols
        } else {
            self.cells.len() == 0
        }
    }

    /// How many cells of the grid are not written yet.
    pub fn free(&self) -> (r: u64)
        requires
            self.wf(),
        ensures
            r == capacity(self@.max) - self@.cells.len(),
    {
        if self.max.0 > 0 && self.max.1 > 0 {
            let rows: u64 = self.max.0 as u64;
            let cols: u64 = self.max.1 as u64;
            assert(rows * cols <= 0x7fff_ffff * 0x7fff_ffff) by (nonlinear_arith)
                requires
                    rows <= 0x7fff_ffff,
                    cols <= 0x7fff_ffff,
            ;
            rows * cols - self.cells.len() as u64
        } else {
            0
        }
    }

    /// How many cells are left on the line that the next cell goes to: a whole
    /// line where that cell starts one.
    pub fn line_rest(&self) -> (r: usize)
        requires
            self@.max.1 > 0,
        ensures
            r == self@.max.1 - self@.cells.len() % (self@.max.1 as nat),
            1 <= r <= self@.max.1,
    {
        let cols = self.max.1 as usize;
        cols - self.cells.len() % cols
    }

    /// Writes the next cell in reading order.
    pub fn push(&mut self, state: PixelState)
        requires
            old(self)@.cells.len() < capacity(old(self)@.max),
        ensures
            final(self)@.max == old(self)@.max,
            final(self)@.cells == old(self)@.cells.push(state),
            final(self).wf(),
    {
        self.cells.push(state);
    }

    /// Writes the same cell `count` times.
    pub fn push_multiple(&mut self, state: PixelState, count: u32)
        requires
            old(self)@.cells.len() + count <= capacity(old(self)@.max),
        ensures
            final(self)@.max == old(self)@.max,
            final(self)@.cells == old(self)@.cells + Seq::new(count as nat, |i: int| state),
            final(self).wf(),
    {
        let mut i: u32 = 0;
        while i < count
            invariant
                i <= count,
                self@.max == old(self)@.max,
                self@.cells == old(self)@.cells + Seq::new(i as nat, |j: int| state),
                old(self)@.cells.len() + count <= capacity(old(self)@.max),
            decreases count - i,
        {
            self.push(state);
            i += 1;
        }
    }

    /// The cell at `pos`: `None` off the grid, and `Empty` where nothing was
    /// written yet.
    pub fn get(&self, pos: Point) -> (r: Option<PixelState>)
        ensures
            r == self@.cell_at(pos),
            r is Some <==> is_in_bounds(pos, self@.max),
    {
        if is_in_bounds(pos, self.max) {
            let row: u64 = pos.0 as u64;
            let cols: u64 = self.max.1 as u64;
            assert(row * cols <= 0x7fff_ffff * 0x7fff_ffff) by (nonlinear_arith)
                requires
                    row <= 0x7fff_ffff,
                    cols <= 0x7fff_ffff,
            ;
            let idx: u64 = row * cols + pos.1 as u64;
            proof {
                lemma_index_of_in_bounds(pos, self.max);
            }
            if idx < self.cells.len() as u64 {
                Some(self.cells[idx as usize])
            } else {
                Some(PixelState::Empty)
            }
        } else {
            None
        }
    }

    /// A cursor on the cell at `pos`, which must be on the grid.
    pub fn browser(&self, pos: Point) -> (r: Result<Browser<'_>, Error>)
        ensures
            is_in_bounds(pos, self@.max) ==> r is Ok,
            match r {
                Ok(b) => is_in_bounds(pos, self@.max) && b.wf() && b.raster() == *self
                    && b.spec_pos() == pos,
                Err(e) => e == Error::OutOfBounds,
            },
    {
        if is_in_bounds(pos, self.max) {
            Ok(Browser { raster: self, pos })
        } else {
            Err(Error::OutOfBounds)
        }
    }
}

/// The place `k` cells from `start` in reading order, to the right or to the
/// left.
pub open spec fn step(start: int, k: int, dir: Direction) -> int {
    if dir is Left {
        start - k
    } else {
        start + k
    }
}

/// A scan goes on over place `n`: the predicate held of the cell there, or
/// the grid has no such place.
pub open spec fn passes<F: FnMut(PixelState) -> bool>(f: F, v: RasterView, n: int) -> bool {
    match v.cell(n) {
        Some(s) => call_ensures(f, (s,), true),
        None => true,
    }
}

/// A scan ends at place `n`: the grid has a cell there, and the predicate
/// did not hold of it.
pub open spec fn stops<F: FnMut(PixelState) -> bool>(f: F, v: RasterView, n: int) -> bool {
    match v.cell(n) {
        Some(s) => call_ensures(f, (s,), false),
        None => false,
    }
}

/// A scan from `start` in the direction `dir` came to rest at `end`: the
/// predicate did not hold of the cell there, and the scan went on over every
/// place before it.
pub open spec fn scanned_to<F: FnMut(PixelState) -> bool>(
    f: F,
    v: RasterView,
    start: int,
    dir: Direction,
    end: int,
) -> bool {
    exists|k: int|
        1 <= k && end == #[trigger] step(start, k, dir) && stops(f, v, end) && passes_before(
            f,
            v,
            start,
            dir,
            k,
        )
}

/// A scan from `start` in the direction `dir` went on over each of the first
/// `k - 1` places.
pub open spec fn passes_before<F: FnMut(PixelState) -> bool>(
    f: F,
    v: RasterView,
    start: int,
    dir: Direction,
    k: int,
) -> bool {
    forall|j: int| 1 <= j < k ==> passes(f, v, #[trigger] step(start, j, dir))
}

/// A scan from `start` in the direction `dir` went on over every place up to
/// the end of the grid.
pub open spec fn scanned_to_end<F: FnMut(PixelState) -> bool>(
    f: F,
    v: RasterView,
    start: int,
    dir: Direction,
) -> bool {
    forall|j: int|
        1 <= j && 0 <= #[trigger] step(start, j, dir) < capacity(v.max) ==> passes(
            f,
            v,
            step(start, j, dir),
        )
}

/// A scan from `start` in the direction `dir` over at most `count` cells came
/// to rest at `end`: the grid has a cell there, the scan went on over every
/// place before it, and either the cell at `end` is the `count`-th one or the
/// predicate did not hold of it.
pub open spec fn scanned_within<F: FnMut(PixelState) -> bool>(
    f: F,
    v: RasterView,
    start: int,
    dir: Direction,
    count: nat,
    end: int,
) -> bool {
    exists|k: nat|
        1 <= k <= count && end == #[trigger] step(start, k as int, dir) && v.cell(end) is Some
            && passes_before(f, v, start, dir, k as int) && (k == count || stops(f, v, end))
}

/// The grid has fewer than `count` cells beyond `start` in the direction
/// `dir`.
pub open spec fn fewer_cells_to_end(v: RasterView, start: int, dir: Direction, count: nat) -> bool {
    forall|j: int| 1 <= j && 0 <= #[trigger] step(start, j, dir) < capacity(v.max) ==> j < count
}

/// How many entries of `hits` are true.
pub open spec fn count_true(hits: Seq<bool>) -> nat
    decreases hits.len(),
{
    if hits.len() == 0 {
        0
    } else {
        count_true(hits.drop_last()) + if hits.last() {
            1nat
        } else {
            0nat
        }
    }
}

/// `hits` records a scan from `start` in the direction `dir`: entry `j` is
/// what the predicate answered of the cell `j + 1` places on, and false where
/// the grid has no such place.
pub open spec fn records<F: FnMut(PixelState) -> bool>(
    f: F,
    v: RasterView,
    start: int,
    dir: Direction,
    hits: Seq<bool>,
) -> bool {
    forall|j: int|
        0 <= j < hits.len() ==> match #[trigger] v.cell(step(start, j + 1, dir)) {
            Some(s) => call_ensures(f, (s,), hits[j]),
            None => !hits[j],
        }
}

/// A cursor on one cell of a grid. It is a value: a motion returns a new
/// cursor and leaves the one it started from as it was.
#[derive(Clone, Copy)]
pub struct Browser<'a> {
    raster: &'a Raster,
    pos: Point,
}

impl<'a> Browser<'a> {
    /// The grid that the cursor is on.
    pub closed spec fn raster(&self) -> Raster {
        *self.raster
    }

    /// The position of the cursor.
    pub closed spec fn spec_pos(&self) -> Point {
        self.pos
    }

    /// The cursor is on its grid.
    pub open spec fn wf(&self) -> bool {
        is_in_bounds(self.spec_pos(), self.raster()@.max)
    }

    /// The cursor's place in reading order.
    pub open spec fn index(&self) -> int {
        index_of(self.spec_pos(), self.raster()@.max)
    }

    /// The position of the cursor.
    #[verifier::when_used_as_spec(spec_pos)]
    pub fn pos(&self) -> (r: Point)
        ensures
            r == self.spec_pos(),
    {
        self.pos
    }

    /// The cell under the cursor.
    pub fn raster_get(&self) -> (r: Option<PixelState>)
        requires
            self.wf(),
        ensures
            r is Some,
            r == self.raster()@.cell(self.index()),
            r == self.raster()@.cell_at(self.spec_pos()),
    {
        self.raster.get(self.pos)
    }

    /// The cell under the cursor: `Empty` where nothing was written yet.
    pub fn state(&self) -> (r: PixelState)
        requires
            self.wf(),
        ensures
            Some(r) == self.raster()@.cell(self.index()),
            Some(r) == self.raster()@.cell_at(self.spec_pos()),
    {
        self.raster.get(self.pos).unwrap()
    }

    /// Steps along the flattened grid, to the left or to the right, and comes
    /// to rest on the first cell of which the predicate does not hold. The
    /// cell that the cursor starts on is not asked about; a cell that nothing
    /// was written to is asked about as the `Empty` cell it is. Reaching the
    /// end of the grid first is an error.
    pub fn go_while<F>(self, dir: Direction, predicate: F) -> (r: Result<Browser<'a>, Error>)
        where F: FnMut(PixelState) -> bool
        requires
            self.wf(),
            forall|s: PixelState| call_requires(predicate, (s,)),
        ensures
            (dir is Up || dir is Down) <==> r == Err::<Browser<'a>, Error>(
                Error::UnsupportedDirection,
            ),
            match r {
                Ok(b) => b.wf() && b.raster() == self.raster() && scanned_to(
                    predicate,
                    self.raster()@,
                    self.index(),
                    dir,
                    b.index(),
                ),
                Err(e) => (dir is Left || dir is Right) ==> e == Error::OutOfBounds
                    && scanned_to_end(predicate, self.raster()@, self.index(), dir),
            },
    {
        let offset: i32 = match dir {
            Direction::Left => -1,
            Direction::Right => 1,
            _ => { return Err(Error::UnsupportedDirection); },
        };
        let mut pos = self.pos;
        let ghost start = self.index();
        let ghost view = self.raster()@;
        let ghost mut k: int = 0;
        let mut ask = predicate;
        proof {
            lemma_index_of_in_bounds(pos, self.raster.max);
        }
        loop
            invariant
                ask == predicate,
                dir is Left || dir is Right,
                offset == step(0, 1, dir),
                view == self.raster()@,
                start == self.index(),
                is_in_bounds(pos, view.max),
                0 <= k,
                index_of(pos, view.max) == step(start, k, dir),
                0 <= index_of(pos, view.max) < capacity(view.max),
                forall|s: PixelState| call_requires(predicate, (s,)),
                passes_before(predicate, view, start, dir, k + 1),
            decreases
                    if dir is Left {
                        index_of(pos, view.max)
                    } else {
                        capacity(view.max) - index_of(pos, view.max)
                    },
        {
            proof {
                lemma_linear_move_index(pos, view.max, offset as int);
            }
            match linear_move(pos, self.raster.max, offset) {
                Some(p) => {
                    pos = p;
                    proof {
                        k = k + 1;
                        lemma_index_of_in_bounds(p, view.max);
                    }
                    let here = Browser { raster: self.raster, pos };
                    if !ask(here.state()) {
                        assert(here.index() == step(start, k, dir));
                        assert(stops(predicate, view, here.index()));
                        return Ok(here);
                    }
                    assert(passes(predicate, view, step(start, k, dir)));
                },
                None => {
                    assert forall|j: int|
                        1 <= j && 0 <= #[trigger] step(start, j, dir) < capacity(
                            view.max,
                        ) implies passes(predicate, view, step(start, j, dir)) by {
                        assert(j < k + 1);
                    }
                    return Err(Error::OutOfBounds);
                },
            }
        }
    }

    /// Scans as `go_while` does, but over at most `count` cells: the cursor
    /// comes to rest on the `count`-th cell, or on an earlier one of which the
    /// predicate does not hold. The predicate is not asked about the
    /// `count`-th cell. With a `count` of zero the cursor stays where it is.
    pub fn go_while_or_count<F>(self, dir: Direction, count: u32, predicate: F) -> (r: Result<
        Browser<'a>,
        Error,
    >) where F: FnMut(PixelState) -> bool
        requires
            self.wf(),
            forall|s: PixelState| call_requires(predicate, (s,)),
        ensures
            count == 0 ==> r == Ok::<Browser<'a>, Error>(self),
            count > 0 ==> ((dir is Up || dir is Down) <==> r == Err::<Browser<'a>, Error>(
                Error::UnsupportedDirection,
            )),
            count > 0 ==> match r {
                Ok(b) => b.wf() && b.raster() == self.raster() && scanned_within(
                    predicate,
                    self.raster()@,
                    self.index(),
                    dir,
                    count as nat,
                    b.index(),
                ),
                Err(e) => (dir is Left || dir is Right) ==> e == Error::OutOfBounds
                    && scanned_to_end(predicate, self.raster()@, self.index(), dir)
                    && fewer_cells_to_end(self.raster()@, self.index(), dir, count as nat),
            },
    {
        if count == 0 {
            return Ok(self);
        }
        let offset: i32 = match dir {
            Direction::Left => -1,
            Direction::Right => 1,
            _ => { return Err(Error::UnsupportedDirection); },
        };
        let mut pos = self.pos;
        let mut remaining: u32 = count;
        let ghost start = self.index();
        let ghost view = self.raster()@;
        let ghost mut k: nat = 0;
        let mut ask = predicate;
        proof {
            lemma_index_of_in_bounds(pos, self.raster.max);
        }
        loop
            invariant
                ask == predicate,
                dir is Left || dir is Right,
                offset == step(0, 1, dir),
                view == self.raster()@,
                start == self.index(),
                is_in_bounds(pos, view.max),
                index_of(pos, view.max) == step(start, k as int, dir),
                0 <= index_of(pos, view.max) < capacity(view.max),
                forall|s: PixelState| call_requires(predicate, (s,)),
                passes_before(predicate, view, start, dir, k as int + 1),
                1 <= remaining <= count,
                remaining + k == count,
            decreases
                    if dir is Left {
                        index_of(pos, view.max)
                    } else {
                        capacity(view.max) - index_of(pos, view.max)
                    },
        {
            proof {
                lemma_linear_move_index(pos, view.max, offset as int);
            }
            match linear_move(pos, self.raster.max, offset) {
                Some(p) => {
                    pos = p;
                    proof {
                        k = k + 1;
                        lemma_index_of_in_bounds(p, view.max);
                    }
                    let here = Browser { raster: self.raster, pos };
                    assert(here.index() == step(start, k as int, dir));
                    remaining = remaining - 1;
                    if remaining == 0 {
                        return Ok(here);
                    }
                    if !ask(here.state()) {
                        assert(stops(predicate, view, here.index()));
                        return Ok(here);
                    }
                    assert(passes(predicate, view, step(start, k as int, dir)));
                },
                None => {
                    assert forall|j: int|
                        1 <= j && 0 <= #[trigger] step(start, j, dir) < capacity(
                            view.max,
                        ) implies passes(predicate, view, step(start, j, dir)) && j < count by {
                        assert(j < k + 1);
                    }
                    return Err(Error::OutOfBounds);
                },
            }
        }
    }

    /// Steps along the flattened grid, to the left or to the right, and comes
    /// to rest on the `count`-th cell of which the predicate holds.
    /// Reaching the end of the grid first is an error. With a `count` of zero
    /// the cursor stays where it is.
    pub fn go_until_count<F>(self, dir: Direction, count: u32, predicate: F) -> (r: Result<
        Browser<'a>,
        Error,
    >) where F: FnMut(PixelState) -> bool
        requires
            self.wf(),
            forall|s: PixelState| call_requires(predicate, (s,)),
        ensures
            count == 0 ==> r == Ok::<Browser<'a>, Error>(self),
            count > 0 ==> ((dir is Up || dir is Down) <==> r == Err::<Browser<'a>, Error>(
                Error::UnsupportedDirection,
            )),
            count > 0 ==> match r {
                Ok(b) => b.wf() && b.raster() == self.raster() && exists|hits: Seq<bool>|
                    #[trigger] records(predicate, self.raster()@, self.index(), dir, hits)
                        && hits.len() >= 1 && hits.last() && count_true(hits) == count
                        && b.index() == step(self.index(), hits.len() as int, dir),
                Err(e) => (dir is Left || dir is Right) ==> e == Error::OutOfBounds && exists|
                    hits: Seq<bool>,
                |
                    #[trigger] records(predicate, self.raster()@, self.index(), dir, hits)
                        && count_true(hits) < count && !(0 <= step(
                        self.index(),
                        hits.len() as int + 1,
                        dir,
                    ) < capacity(self.raster()@.max)),
            },
    {
        if count == 0 {
            return Ok(self);
        }
        let offset: i32 = match dir {
            Direction::Left => -1,
            Direction::Right => 1,
            _ => { return Err(Error::UnsupportedDirection); },
        };
        let mut pos = self.pos;
        let mut remaining: u32 = count;
        let ghost start = self.index();
        let ghost view = self.raster()@;
        let ghost mut hits: Seq<bool> = Seq::empty();
        let mut ask = predicate;
        proof {
            lemma_index_of_in_bounds(pos, self.raster.max);
        }
        loop
            invariant
                ask == predicate,
                dir is Left || dir is Right,
                offset == step(0, 1, dir),
                view == self.raster()@,
                start == self.index(),
                is_in_bounds(pos, view.max),
                index_of(pos, view.max) == step(start, hits.len() as int, dir),
                0 <= index_of(pos, view.max) < capacity(view.max),
                forall|s: PixelState| call_requires(predicate, (s,)),
                records(predicate, view, start, dir, hits),
                1 <= remaining <= count,
                remaining + count_true(hits) == count,
            decreases
                    if dir is Left {
                        index_of(pos, view.max)
                    } else {
                        capacity(view.max) - index_of(pos, view.max)
                    },
        {
            proof {
                lemma_linear_move_index(pos, view.max, offset as int);
            }
            match linear_move(pos, self.raster.max, offset) {
                Some(p) => {
                    pos = p;
                    proof {
                        lemma_index_of_in_bounds(p, view.max);
                    }
                    let here = Browser { raster: self.raster, pos };
                    let hit = ask(here.state());
                    proof {
                        let longer = hits.push(hit);
                        assert(longer.drop_last() =~= hits);
                        assert(longer.last() == hit);
                        assert(count_true(longer) == count_true(hits) + if hit {
                            1nat
                        } else {
                            0nat
                        });
                        assert forall|j: int| 0 <= j < longer.len() implies match #[trigger] view.cell(
                            step(start, j + 1, dir),
                        ) {
                            Some(s) => call_ensures(predicate, (s,), longer[j]),
                            None => !longer[j],
                        } by {
                            if j < hits.len() {
                                assert(longer[j] == hits[j]);
                            }
                        }
                        hits = longer;
                    }
                    if hit {
                        remaining = remaining - 1;
                        if remaining == 0 {
                            let b = Browser { raster: self.raster, pos };
                            assert(b.index() == step(start, hits.len() as int, dir));
                            assert(hits.last() && count_true(hits) == count);
                            assert(records(predicate, view, start, dir, hits));
                            return Ok(b);
                        }
                    }
                },
                None => {
                    return Err(Error::OutOfBounds);
                },
            }
        }
    }

    /// Moves one cell up, down, left or right, without wrapping at the row
    /// ends. Leaving the grid is an error.
    pub fn go_no_wrap(self, dir: Direction) -> (r: Result<Browser<'a>, Error>)
        requires
            self.wf(),
        ensures
            r is Ok <==> is_in_bounds(no_wrap_target(self.spec_pos(), dir), self.raster()@.max),
            match r {
                Ok(b) => b.wf() && b.raster() == self.raster() && b.spec_pos() == no_wrap_target(
                    self.spec_pos(),
                    dir,
                ),
                Err(e) => e == Error::OutOfBounds,
            },
    {
        let delta: Point = match dir {
            Direction::Left => (0, -1),
            Direction::Right => (0, 1),
            Direction::Up => (-1, 0),
            Direction::Down => (1, 0),
        };
        let new_pos = add_points(self.pos, delta);
        if is_in_bounds(new_pos, self.raster.max) {
            Ok(Browser { raster: self.raster, pos: new_pos })
        } else {
            Err(Error::OutOfBounds)
        }
    }

    /// Hands the cursor to `f` and returns what `f` makes of it.
    pub fn map<F, T>(self, mut f: F) -> (r: T) where F: FnMut(Self) -> T
        requires
            call_requires(f, (self,)),
        ensures
            call_ensures(f, (self,), r),
    {
        f(self)
    }
}

/// Whether `pos` lies on the edge of the grid in the direction `dir`.
pub open spec fn on_edge(pos: Point, max: Point, dir: Direction) -> bool {
    match dir {
        Direction::Left => pos.1 == 0,
        Direction::Right => pos.1 == max.1 - 1,
        Direction::Up => pos.0 == 0,
        Direction::Down => pos.0 == max.0 - 1,
    }
}

/// A step without wrapping stays on the grid exactly where it does not start
/// on the edge in its direction; and a step along the flattened grid from
/// the first or the last cell, backwards or forwards, leaves the grid. So a
/// cursor that has come to an edge fails on the next step in that direction,
/// and, being a value, stays where it was.
pub proof fn law_steps_end_at_the_edge(pos: Point, max: Point, dir: Direction)
    requires
        is_in_bounds(pos, max),
    ensures
        is_in_bounds(no_wrap_target(pos, dir), max) <==> !on_edge(pos, max, dir),
        index_of(pos, max) == 0 ==> linear_move_spec(pos, max, -1) is None,
        index_of(pos, max) == capacity(max) - 1 ==> linear_move_spec(pos, max, 1) is None,
{
    lemma_linear_move_index(pos, max, -1);
    lemma_linear_move_index(pos, max, 1);
    if linear_move_spec(pos, max, 1) is Some {
        lemma_index_of_in_bounds(linear_move_spec(pos, max, 1)->0, max);
    }
    if linear_move_spec(pos, max, -1) is Some {
        lemma_index_of_in_bounds(linear_move_spec(pos, max, -1)->0, max);
    }
}

/// The neighbour of `pos` in the direction `dir`, on the grid or not. It is
/// meant for positions on a grid, whose neighbours' coordinates are at most
/// one beyond it.
pub open spec fn no_wrap_target(pos: Point, dir: Direction) -> Point {
    match dir {
        Direction::Left => (pos.0, (pos.1 - 1) as i32),
        Direction::Right => (pos.0, (pos.1 + 1) as i32),
        Direction::Up => ((pos.0 - 1) as i32, pos.1),
        Direction::Down => ((pos.0 + 1) as i32, pos.1),
    }
}

} // verus!
