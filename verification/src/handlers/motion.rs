//! Motions of the cursor over the grid, by the kind of the cells.

use crate::error::Error;
use crate::raster::{
    capacity, count_true, index_of, is_in_bounds, passes, passes_before, records, step, stops,
    Browser, Direction, PixelState, Point, RasterView,
};
use vstd::prelude::*;

verus! {

/// Whether the grid has a cell at place `n` that is browsable or not, as
/// `want` says.
pub open spec fn kind_at(v: RasterView, n: int, want: bool) -> bool {
    v.cell(n) matches Some(s) && s.is_browsable() == want
}

/// `end` is the first place after `start`, in the direction `dir`, with a
/// cell that is browsable or not, as `want` says.
pub open spec fn next_of_kind(v: RasterView, start: int, dir: Direction, want: bool, end: int) -> bool {
    exists|k: int|
        1 <= k && end == #[trigger] step(start, k, dir) && kind_at(v, end, want) && forall|j: int|
            1 <= j < k ==> !kind_at(v, #[trigger] step(start, j, dir), want)
}

/// No place of the grid after `start`, in the direction `dir`, has a cell
/// that is browsable or not, as `want` says.
pub open spec fn none_of_kind(v: RasterView, start: int, dir: Direction, want: bool) -> bool {
    forall|j: int|
        1 <= j && 0 <= #[trigger] step(start, j, dir) < capacity(v.max) ==> !kind_at(
            v,
            step(start, j, dir),
            want,
        )
}

/// The first place after `start`, in the direction `dir`, with a cell that
/// is browsable or not, as `want` says, where there is one.
pub open spec fn next_place(v: RasterView, start: int, dir: Direction, want: bool) -> int {
    choose|end: int| next_of_kind(v, start, dir, want, end)
}

/// There is one first place of a kind at most.
pub proof fn lemma_next_of_kind_unique(
    v: RasterView,
    start: int,
    dir: Direction,
    want: bool,
    a: int,
    b: int,
)
    requires
        next_of_kind(v, start, dir, want, a),
        next_of_kind(v, start, dir, want, b),
    ensures
        a == b,
{
    let i = choose|k: int|
        1 <= k && a == #[trigger] step(start, k, dir) && kind_at(v, a, want) && forall|j: int|
            1 <= j < k ==> !kind_at(v, #[trigger] step(start, j, dir), want);
    let j = choose|k: int|
        1 <= k && b == #[trigger] step(start, k, dir) && kind_at(v, b, want) && forall|j: int|
            1 <= j < k ==> !kind_at(v, #[trigger] step(start, j, dir), want);
    if i < j {
        assert(!kind_at(v, step(start, i, dir), want));
    } else if j < i {
        assert(!kind_at(v, step(start, j, dir), want));
    }
}

/// Moves the cursor along the flattened grid, to the left or to the right,
/// to the nearest cell that is browsable, or to the nearest that is not, as
/// `want` says. Fails where the grid holds no such cell in that
/// direction.
pub fn go_to_kind<'a>(b: Browser<'a>, dir: Direction, want: bool) -> (r: Result<Browser<'a>, Error>)
    requires
        b.wf(),
    ensures
        r is Ok <==> (dir is Left || dir is Right) && !none_of_kind(
            b.raster()@,
            b.index(),
            dir,
            want,
        ),
        r matches Ok(to) ==> to.index() == next_place(b.raster()@, b.index(), dir, want),
        (dir is Up || dir is Down) <==> r == Err::<Browser<'a>, Error>(
            Error::UnsupportedDirection,
        ),
        match r {
            Ok(to) => to.wf() && to.raster() == b.raster() && next_of_kind(
                b.raster()@,
                b.index(),
                dir,
                want,
                to.index(),
            ),
            Err(e) => (dir is Left || dir is Right) ==> e == Error::OutOfBounds && none_of_kind(
                b.raster()@,
                b.index(),
                dir,
                want,
            ),
        },
{
    let other = |s: PixelState| -> (r: bool)
        ensures
            r == (s.is_browsable() != want),
        { s.is_browsable() != want };
    let r = b.go_while(dir, other);
    proof {
        let v = b.raster()@;
        let start = b.index();
        match r {
            Ok(to) => {
                let k = choose|k: int|
                    1 <= k && to.index() == #[trigger] step(start, k, dir) && stops(
                        other,
                        v,
                        to.index(),
                    ) && passes_before(other, v, start, dir, k);
                assert forall|j: int| 1 <= j < k implies !kind_at(
                    v,
                    #[trigger] step(start, j, dir),
                    want,
                ) by {
                    assert(passes(other, v, step(start, j, dir)));
                }
                assert(kind_at(v, to.index(), want));
                crate::raster::lemma_index_of_in_bounds(to.spec_pos(), v.max);
                assert(0 <= step(start, k, dir) < capacity(v.max));
                assert(next_of_kind(v, start, dir, want, to.index()));
                lemma_next_of_kind_unique(
                    v,
                    start,
                    dir,
                    want,
                    to.index(),
                    next_place(v, start, dir, want),
                );
            },
            Err(e) => {
                if dir is Left || dir is Right {
                    assert forall|j: int|
                        1 <= j && 0 <= #[trigger] step(start, j, dir) < capacity(
                            v.max,
                        ) implies !kind_at(v, step(start, j, dir), want) by {
                        assert(passes(other, v, step(start, j, dir)));
                    }
                }
            },
        }
    }
    r
}

/// The identity of the bullet whose cell is under `pos`, where the grid has
/// a cell there that belongs to a bullet.
pub open spec fn bullet_at(v: RasterView, pos: Point) -> Option<i32> {
    match v.cell_at(pos) {
        Some(s) => s.id(),
        None => None,
    }
}

/// `end` is the nearest place at `start` or before it, in reading order, with
/// a browsable cell, and it is no more than `count` cells before `start`.
pub open spec fn left_text(v: RasterView, start: int, count: nat, end: int) -> bool {
    &&& kind_at(v, end, true)
    &&& exists|k: nat|
        end == #[trigger] step(start, k as int, Direction::Left) && k <= count && forall|j: int|
            0 <= j < k ==> !kind_at(v, #[trigger] step(start, j, Direction::Left), true)
}

/// Whether a browsable cell stands at `start` or so near before it as
/// `left_text` asks.
pub open spec fn has_left_text(v: RasterView, start: int, count: nat) -> bool {
    exists|end: int| left_text(v, start, count, end)
}

/// Where none of the places up to `count` to the left holds a browsable cell,
/// no browsable cell is near enough.
pub proof fn lemma_left_text_too_far(v: RasterView, start: int, count: nat)
    requires
        forall|j: int|
            0 <= j <= count ==> !kind_at(v, #[trigger] step(start, j, Direction::Left), true),
    ensures
        !has_left_text(v, start, count),
{
    assert forall|end: int| !left_text(v, start, count, end) by {
        if left_text(v, start, count, end) {
            let far = choose|far: nat|
                end == #[trigger] step(start, far as int, Direction::Left) && far <= count
                    && forall|j: int|
                    0 <= j < far ==> !kind_at(v, #[trigger] step(start, j, Direction::Left), true);
            assert(!kind_at(v, step(start, far as int, Direction::Left), true));
        }
    }
}

/// Where no place of the grid at `start` or before it holds a browsable cell,
/// none is near.
pub proof fn lemma_left_text_nowhere(v: RasterView, start: int, count: nat)
    requires
        0 <= start < capacity(v.max),
        !kind_at(v, start, true),
        none_of_kind(v, start, Direction::Left, true),
    ensures
        !has_left_text(v, start, count),
{
    assert forall|end: int| !left_text(v, start, count, end) by {
        if left_text(v, start, count, end) {
            let far = choose|far: nat|
                end == #[trigger] step(start, far as int, Direction::Left) && far <= count
                    && forall|j: int|
                    0 <= j < far ==> !kind_at(v, #[trigger] step(start, j, Direction::Left), true);
            if far > 0 {
                assert(0 <= step(start, far as int, Direction::Left) < capacity(v.max));
                assert(!kind_at(v, step(start, far as int, Direction::Left), true));
            }
        }
    }
}

/// The nearest browsable cell at the cursor or to its left, no further than
/// `col` cells away. Fails with `PredicateUnsatisfied` where the cell that far
/// to the left is not browsable either, and with `OutOfBounds` where the grid
/// ends before that.
pub fn find_left_text(b: Browser, col: u32) -> (r: Result<Point, Error>)
    requires
        b.wf(),
    ensures
        r is Ok <==> has_left_text(b.raster()@, b.index(), col as nat),
        match r {
            Ok(pos) => is_in_bounds(pos, b.raster()@.max) && left_text(
                b.raster()@,
                b.index(),
                col as nat,
                index_of(pos, b.raster()@.max),
            ),
            Err(e) => if col <= b.index() {
                e == Error::PredicateUnsatisfied && forall|j: int|
                    0 <= j <= col ==> !kind_at(
                        b.raster()@,
                        #[trigger] step(b.index(), j, Direction::Left),
                        true,
                    )
            } else {
                e == Error::OutOfBounds && !kind_at(b.raster()@, b.index(), true) && none_of_kind(
                    b.raster()@,
                    b.index(),
                    Direction::Left,
                    true,
                )
            },
        },
{
    let ghost v = b.raster()@;
    let ghost start = b.index();
    proof {
        crate::raster::lemma_index_of_in_bounds(b.spec_pos(), v.max);
    }
    if is_browsable_at(b) {
        proof {
            assert(b.index() == step(start, 0, Direction::Left));
            assert(left_text(v, start, col as nat, b.index()));
        }
        return Ok(b.pos());
    }
    let other = |s: PixelState| -> (r: bool)
        ensures
            r == !s.is_browsable(),
        { !s.is_browsable() };
    if col == 0 {
        proof {
            assert(start == step(start, 0, Direction::Left));
            lemma_left_text_too_far(v, start, 0);
        }
        return Err(Error::PredicateUnsatisfied);
    }
    match b.go_while_or_count(Direction::Left, col, other) {
        Ok(to) => {
            let ghost k = choose|k: nat|
                1 <= k <= col && to.index() == #[trigger] step(start, k as int, Direction::Left)
                    && v.cell(to.index()) is Some && passes_before(
                    other,
                    v,
                    start,
                    Direction::Left,
                    k as int,
                ) && (k == col || stops(other, v, to.index()));
            proof {
                crate::raster::lemma_index_of_in_bounds(to.spec_pos(), v.max);
                assert forall|j: int| 0 <= j < k implies !kind_at(
                    v,
                    #[trigger] step(start, j, Direction::Left),
                    true,
                ) by {
                    if j > 0 {
                        assert(passes(other, v, step(start, j, Direction::Left)));
                    }
                }
            }
            if is_browsable_at(to) {
                proof {
                    assert(left_text(v, start, col as nat, to.index()));
                }
                Ok(to.pos())
            } else {
                proof {
                    assert(0 <= step(start, k as int, Direction::Left));
                    lemma_left_text_too_far(v, start, col as nat);
                }
                Err(Error::PredicateUnsatisfied)
            }
        },
        Err(e) => {
            proof {
                assert forall|j: int|
                    1 <= j && 0 <= #[trigger] step(start, j, Direction::Left) < capacity(
                        v.max,
                    ) implies !kind_at(v, step(start, j, Direction::Left), true) by {
                    assert(passes(other, v, step(start, j, Direction::Left)));
                }
                lemma_left_text_nowhere(v, start, col as nat);
                if start >= 1 {
                    assert(step(start, start, Direction::Left) == 0);
                }
            }
            Err(Error::OutOfBounds)
        },
    }
}

/// Whether the cell under the cursor is browsable.
pub fn is_browsable_at(b: Browser) -> (r: bool)
    requires
        b.wf(),
    ensures
        r == kind_at(b.raster()@, b.index(), true),
{
    b.state().is_browsable()
}

/// Whether the grid has a cell at place `n` that shows a character of a text.
pub open spec fn text_at(v: RasterView, n: int) -> bool {
    v.cell(n) matches Some(s) && s.is_text()
}

/// How many of the `k` places after `start`, in the direction `dir`, show a
/// character of a text.
pub open spec fn text_count(v: RasterView, start: int, k: nat, dir: Direction) -> nat
    decreases k,
{
    if k == 0 {
        0
    } else {
        text_count(v, start, (k - 1) as nat, dir) + if text_at(v, step(start, k as int, dir)) {
            1nat
        } else {
            0nat
        }
    }
}

/// `end` is the place of the `n`-th character that is shown after `start`,
/// in the direction `dir`; for an `n` of 0 it is `start`.
pub open spec fn walked(v: RasterView, start: int, dir: Direction, n: nat, end: int) -> bool {
    exists|k: nat|
        end == #[trigger] step(start, k as int, dir) && text_count(v, start, k, dir) == n && (k
            > 0 ==> text_at(v, end) && n > 0)
}

/// A record of which cells show a character of a text counts those cells.
pub proof fn lemma_text_count(v: RasterView, start: int, dir: Direction, hits: Seq<bool>)
    requires
        forall|j: int|
            0 <= j < hits.len() ==> hits[j] == text_at(v, #[trigger] step(start, j + 1, dir)),
    ensures
        count_true(hits) == text_count(v, start, hits.len(), dir),
    decreases hits.len(),
{
    if hits.len() > 0 {
        let front = hits.drop_last();
        assert forall|j: int| 0 <= j < front.len() implies front[j] == text_at(
            v,
            #[trigger] step(start, j + 1, dir),
        ) by {
            assert(front[j] == hits[j]);
        }
        lemma_text_count(v, start, dir, front);
        assert(hits.last() == text_at(v, step(start, hits.len() - 1 + 1, dir)));
    }
}

/// Counting over `a` places and then over `b` more is counting over `a + b`.
pub proof fn lemma_text_count_sum(v: RasterView, start: int, dir: Direction, a: nat, b: nat)
    requires
        dir is Left || dir is Right,
    ensures
        text_count(v, start, a + b, dir) == text_count(v, start, a, dir) + text_count(
            v,
            step(start, a as int, dir),
            b,
            dir,
        ),
    decreases b,
{
    if b > 0 {
        lemma_text_count_sum(v, start, dir, a, (b - 1) as nat);
        assert(step(step(start, a as int, dir), b as int, dir) == step(start, (a + b) as int, dir));
    }
}

/// A walk of `a` characters and then one of `b` more is a walk of `a + b`.
pub proof fn lemma_walked_sum(v: RasterView, start: int, dir: Direction, a: nat, mid: int, b: nat, end: int)
    requires
        dir is Left || dir is Right,
        walked(v, start, dir, a, mid),
        walked(v, mid, dir, b, end),
    ensures
        walked(v, start, dir, a + b, end),
{
    let k1 = choose|k: nat|
        mid == #[trigger] step(start, k as int, dir) && text_count(v, start, k, dir) == a && (k
            > 0 ==> text_at(v, mid) && a > 0);
    let k2 = choose|k: nat|
        end == #[trigger] step(mid, k as int, dir) && text_count(v, mid, k, dir) == b && (k > 0
            ==> text_at(v, end) && b > 0);
    lemma_text_count_sum(v, start, dir, k1, k2);
    assert(end == step(start, (k1 + k2) as int, dir));
}

/// How many places of the grid lie beyond `start` in the direction `dir`.
pub open spec fn cells_to_edge(v: RasterView, start: int, dir: Direction) -> nat {
    if dir is Left {
        start as nat
    } else {
        (capacity(v.max) - 1 - start) as nat
    }
}

/// How many cells between `start` and the end of the grid, in the direction
/// `dir`, show a character of a text.
pub open spec fn text_to_edge(v: RasterView, start: int, dir: Direction) -> nat {
    text_count(v, start, cells_to_edge(v, start, dir), dir)
}

/// Over more places no fewer characters are shown.
pub proof fn lemma_text_count_grows(v: RasterView, start: int, a: nat, b: nat, dir: Direction)
    requires
        a <= b,
    ensures
        text_count(v, start, a, dir) <= text_count(v, start, b, dir),
    decreases b - a,
{
    if a < b {
        lemma_text_count_grows(v, start, a, (b - 1) as nat, dir);
    }
}

/// After a walk over `n` shown characters, as many fewer are left up to the
/// end of the grid.
pub proof fn lemma_walk_to_edge(v: RasterView, start: int, dir: Direction, n: nat, end: int)
    requires
        dir is Left || dir is Right,
        0 <= start < capacity(v.max),
        0 <= end < capacity(v.max),
        walked(v, start, dir, n, end),
    ensures
        text_to_edge(v, start, dir) == n + text_to_edge(v, end, dir),
{
    let k = choose|k: nat|
        end == #[trigger] step(start, k as int, dir) && text_count(v, start, k, dir) == n && (k
            > 0 ==> text_at(v, end) && n > 0);
    let rest = cells_to_edge(v, end, dir);
    assert(cells_to_edge(v, start, dir) == k + rest);
    lemma_text_count_sum(v, start, dir, k, rest);
}

/// Moves the cursor along the flattened grid over `count` cells that show a
/// character of a text, and rests on the last of them; with a `count` of 0
/// the cursor stays where it is. Cells that show no character are passed
/// over. Fails where fewer than `count` characters are shown up to the end of
/// the grid.
pub fn go_wrap<'a>(b: Browser<'a>, dir: Direction, count: u32) -> (r: Result<Browser<'a>, Error>)
    requires
        b.wf(),
        dir is Left || dir is Right,
    ensures
        r is Ok <==> count <= text_to_edge(b.raster()@, b.index(), dir),
        match r {
            Ok(to) => to.wf() && to.raster() == b.raster() && walked(
                b.raster()@,
                b.index(),
                dir,
                count as nat,
                to.index(),
            ),
            Err(e) => e == Error::OutOfBounds && count > 0,
        },
{
    let ghost v = b.raster()@;
    let ghost start = b.index();
    let ghost edge = cells_to_edge(v, start, dir);
    proof {
        crate::raster::lemma_index_of_in_bounds(b.spec_pos(), v.max);
    }
    if count == 0 {
        proof {
            assert(b.index() == step(start, 0, dir) && text_count(v, start, 0, dir) == 0);
        }
        return Ok(b);
    }
    let shows_text = |s: PixelState| -> (r: bool)
        ensures
            r == s.is_text(),
        { s.is_text() };
    let r = b.go_until_count(dir, count, shows_text);
    proof {
        if r is Ok {
            let to = r->Ok_0;
            let hits = choose|hits: Seq<bool>|
                #[trigger] records(shows_text, v, start, dir, hits) && hits.len() >= 1
                    && hits.last() && count_true(hits) == count && to.index() == step(
                    start,
                    hits.len() as int,
                    dir,
                );
            assert forall|j: int| 0 <= j < hits.len() implies hits[j] == text_at(
                v,
                #[trigger] step(start, j + 1, dir),
            ) by {
                assert(v.cell(step(start, j + 1, dir)) is Some ==> call_ensures(
                    shows_text,
                    (v.cell(step(start, j + 1, dir))->0,),
                    hits[j],
                ));
            }
            lemma_text_count(v, start, dir, hits);
            assert(to.index() == step(start, hits.len() as int, dir));
            assert(hits[hits.len() - 1] == text_at(v, step(start, hits.len() - 1 + 1, dir)));
            crate::raster::lemma_index_of_in_bounds(to.spec_pos(), v.max);
            lemma_text_count_grows(v, start, hits.len(), edge, dir);
        } else {
            let hits = choose|hits: Seq<bool>|
                #[trigger] records(shows_text, v, start, dir, hits) && count_true(hits) < count
                    && !(0 <= step(start, hits.len() as int + 1, dir) < capacity(v.max));
            assert forall|j: int| 0 <= j < hits.len() implies hits[j] == text_at(
                v,
                #[trigger] step(start, j + 1, dir),
            ) by {
                assert(v.cell(step(start, j + 1, dir)) is Some ==> call_ensures(
                    shows_text,
                    (v.cell(step(start, j + 1, dir))->0,),
                    hits[j],
                ));
            }
            lemma_text_count(v, start, dir, hits);
            lemma_text_count_grows(v, start, edge, hits.len(), dir);
        }
    }
    r
}

/// Moves the cursor as `go_wrap` does, over a `count` of any size.
pub fn go_wrap_far<'a>(b: Browser<'a>, dir: Direction, count: usize) -> (r: Result<
    Browser<'a>,
    Error,
>)
    requires
        b.wf(),
        dir is Left || dir is Right,
    ensures
        r is Ok <==> count <= text_to_edge(b.raster()@, b.index(), dir),
        match r {
            Ok(to) => to.wf() && to.raster() == b.raster() && walked(
                b.raster()@,
                b.index(),
                dir,
                count as nat,
                to.index(),
            ),
            Err(e) => e == Error::OutOfBounds,
        },
{
    let ghost v = b.raster()@;
    let ghost start = b.index();
    let mut at = b;
    let mut left = count;
    proof {
        crate::raster::lemma_index_of_in_bounds(b.spec_pos(), v.max);
        assert(start == step(start, 0, dir) && text_count(v, start, 0, dir) == 0);
    }
    while left > u32::MAX as usize
        invariant
            dir is Left || dir is Right,
            v == b.raster()@,
            start == b.index(),
            at.wf(),
            at.raster() == b.raster(),
            left <= count,
            0 <= start < capacity(v.max),
            walked(v, start, dir, (count - left) as nat, at.index()),
            text_to_edge(v, start, dir) == (count - left) + text_to_edge(v, at.index(), dir),
        decreases left,
    {
        match go_wrap(at, dir, u32::MAX) {
            Ok(next) => {
                proof {
                    crate::raster::lemma_index_of_in_bounds(at.spec_pos(), v.max);
                    crate::raster::lemma_index_of_in_bounds(next.spec_pos(), v.max);
                    lemma_walk_to_edge(v, at.index(), dir, u32::MAX as nat, next.index());
                    lemma_walked_sum(
                        v,
                        start,
                        dir,
                        (count - left) as nat,
                        at.index(),
                        u32::MAX as nat,
                        next.index(),
                    );
                }
                at = next;
                left = left - u32::MAX as usize;
            },
            Err(e) => {
                return Err(e);
            },
        }
    }
    let r = go_wrap(at, dir, left as u32);
    proof {
        if r is Ok {
            lemma_walked_sum(
                v,
                start,
                dir,
                (count - left) as nat,
                at.index(),
                left as nat,
                r->Ok_0.index(),
            );
        }
    }
    r
}

} // verus!
