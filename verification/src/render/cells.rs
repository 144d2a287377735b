//! What a drawing of the document writes to the grid, cell by cell.

use super::{advanced, blank_text};
use crate::raster::{capacity, PixelState, Point};
use crate::tree::model::{
    child_links_ok, in_subtree, lemma_ancestor_in_forest, lemma_ancestor_rank,
    lemma_ancestor_sum, nth_ancestor, parent_links_ok, rank_of, ranked, Forest,
};
use vstd::prelude::*;

verus! {

/// `n` cells that all hold `state`.
pub open spec fn repeated(state: PixelState, n: int) -> Seq<PixelState> {
    Seq::new(
        if n > 0 {
            n as nat
        } else {
            0
        },
        |i: int| state,
    )
}

/// The cells of the `n` characters of bullet `id` from the offset `from` on.
pub open spec fn text_cells(id: i32, from: int, n: int) -> Seq<PixelState> {
    Seq::new(
        if n > 0 {
            n as nat
        } else {
            0
        },
        |i: int| PixelState::Text { id, offset: (from + i) as usize },
    )
}

/// The lengths of the slices, in characters.
pub open spec fn slice_lens(slices: Seq<&str>) -> Seq<int> {
    Seq::new(slices.len(), |i: int| slices[i]@.len() as int)
}

/// The sum of the first `k` lengths.
pub open spec fn total_len(lens: Seq<int>, k: int) -> int
    decreases k,
{
    if k <= 0 {
        0
    } else {
        total_len(lens, k - 1) + lens[k - 1]
    }
}

/// How many cells the first `k` slices of a text take: one for each
/// character, and `indent` more behind each slice of the full length `limit`.
pub open spec fn cells_len(lens: Seq<int>, limit: int, indent: int, k: int) -> int
    decreases k,
{
    if k <= 0 {
        0
    } else {
        cells_len(lens, limit, indent, k - 1) + lens[k - 1] + if lens[k - 1] == limit {
            indent
        } else {
            0
        }
    }
}

/// The cells of the first `k` slices of the text of bullet `id`: the
/// characters of each slice, and behind each slice of the full length `limit`
/// the `indent` cells of padding with which the next line begins.
pub open spec fn slice_cells(id: i32, lens: Seq<int>, limit: int, indent: int, k: int) -> Seq<
    PixelState,
>
    decreases k,
{
    if k <= 0 {
        Seq::empty()
    } else {
        slice_cells(id, lens, limit, indent, k - 1) + text_cells(
            id,
            total_len(lens, k - 1),
            lens[k - 1],
        ) + if lens[k - 1] == limit {
            repeated(PixelState::Filler(id), indent)
        } else {
            Seq::empty()
        }
    }
}

/// The cells of the text of bullet `id`, given in slices: one placeholder
/// where there is no slice, else the cells of all slices.
pub open spec fn content_cells(id: i32, lens: Seq<int>, limit: int, indent: int) -> Seq<
    PixelState,
> {
    if lens.len() == 0 {
        seq![PixelState::Placeholder(id)]
    } else {
        slice_cells(id, lens, limit, indent, lens.len() as int)
    }
}

/// How many cells of a text stand before its character `index`, found from
/// slice `k` on: those of the slices before the one that holds the character,
/// and the characters before it in that slice. Where no slice from `k` on
/// holds the character, all cells of the text.
pub open spec fn insert_cells(lens: Seq<int>, limit: int, indent: int, index: int, k: int) -> int
    decreases lens.len() - k,
{
    if k < 0 || k >= lens.len() {
        cells_len(lens, limit, indent, lens.len() as int)
    } else if total_len(lens, k) <= index < total_len(lens, k + 1) {
        cells_len(lens, limit, indent, k) + (index - total_len(lens, k))
    } else {
        insert_cells(lens, limit, indent, index, k + 1)
    }
}

/// The first `k` slices take as many cells as `cells_len` says, where no
/// length is negative.
pub proof fn lemma_slice_cells_len(id: i32, lens: Seq<int>, limit: int, indent: int, k: int)
    requires
        0 <= k <= lens.len(),
        0 <= indent,
        forall|i: int| 0 <= i < lens.len() ==> lens[i] >= 0,
    ensures
        slice_cells(id, lens, limit, indent, k).len() == cells_len(lens, limit, indent, k),
        0 <= total_len(lens, k) <= cells_len(lens, limit, indent, k),
    decreases k,
{
    if k > 0 {
        lemma_slice_cells_len(id, lens, limit, indent, k - 1);
    }
}

/// The lengths of the slices that `split_every_n` cuts a text of `len`
/// characters into: `n` each, but for the last, which has what is left.
pub open spec fn split_lens(len: int, n: int) -> Seq<int>
    decreases len,
{
    if len <= 0 || n <= 0 {
        Seq::empty()
    } else if len <= n {
        seq![len]
    } else {
        seq![n] + split_lens(len - n, n)
    }
}

/// A sum of the first lengths of a sequence does not change where the
/// sequence grows at its end.
pub proof fn lemma_total_len_prefix(a: Seq<int>, b: Seq<int>, k: int)
    requires
        k <= a.len(),
    ensures
        total_len(a + b, k) == total_len(a, k),
    decreases k,
{
    if k > 0 {
        lemma_total_len_prefix(a, b, k - 1);
        assert((a + b)[k - 1] == a[k - 1]);
    }
}

/// The cells that more slices take are no fewer.
pub proof fn lemma_cells_len_grows(lens: Seq<int>, limit: int, indent: int, a: int, b: int)
    requires
        0 <= a <= b <= lens.len(),
        0 <= indent,
        forall|i: int| 0 <= i < lens.len() ==> lens[i] >= 0,
    ensures
        cells_len(lens, limit, indent, a) <= cells_len(lens, limit, indent, b),
        total_len(lens, a) <= total_len(lens, b),
    decreases b - a,
{
    if a < b {
        lemma_cells_len_grows(lens, limit, indent, a, b - 1);
    }
}

/// Where the cursor is to be recorded at the character `index` of a text: at
/// the text's first cell where the text is empty, else behind the cells that
/// stand before that character.
pub open spec fn anchor_cells(lens: Seq<int>, limit: int, indent: int, index: int) -> int {
    if lens.len() == 0 {
        0
    } else {
        insert_cells(lens, limit, indent, index, 0)
    }
}

/// Whether a bullet at the indentation level `lvl` can be drawn on lines of
/// `cols` cells: behind its indentation, its marker and the blank after the
/// marker there is room for a character.
pub open spec fn bullet_drawable(lvl: int, cols: int) -> bool {
    2 * lvl + 2 < cols
}

/// The cells of one bullet with a text of `len` characters at the
/// indentation level `lvl`, on lines of `cols` cells: two empty cells for each
/// level, the marker, one cell of padding, and the text, cut into lines that
/// begin under the text's first character.
pub open spec fn bullet_cells(id: i32, len: int, lvl: int, cols: int) -> Seq<PixelState> {
    let limit = cols - 2 * lvl - 2;
    repeated(PixelState::Empty, 2 * lvl) + seq![PixelState::Bullet(id), PixelState::Filler(id)]
        + content_cells(id, split_lens(len, limit), limit, 2 * lvl + 2)
}

/// How many cells into the cells of a bullet the cursor stands for the
/// character `index` of its text.
pub open spec fn bullet_anchor(len: int, lvl: int, cols: int, index: int) -> int {
    let limit = cols - 2 * lvl - 2;
    2 * lvl + 2 + anchor_cells(split_lens(len, limit), limit, 2 * lvl + 2, index)
}

/// No slice that `split_every_n` cuts is empty, and together they have the
/// length of the text.
pub proof fn lemma_split_lens(len: int, n: int)
    requires
        0 <= len,
        0 < n,
    ensures
        forall|i: int| 0 <= i < split_lens(len, n).len() ==> split_lens(len, n)[i] >= 0,
        total_len(split_lens(len, n), split_lens(len, n).len() as int) == len,
    decreases len,
{
    let lens = split_lens(len, n);
    if len > n {
        let rest = split_lens(len - n, n);
        lemma_split_lens(len - n, n);
        lemma_total_len_shift(n, rest, rest.len() as int);
    } else if len > 0 {
        assert(total_len(lens, 0) == 0);
    }
}

/// A sum of lengths behind one more length in front.
pub proof fn lemma_total_len_shift(first: int, rest: Seq<int>, k: int)
    requires
        0 <= k <= rest.len(),
    ensures
        total_len(seq![first] + rest, k + 1) == first + total_len(rest, k),
    decreases k,
{
    let all = seq![first] + rest;
    if k > 0 {
        lemma_total_len_shift(first, rest, k - 1);
        assert(all[k] == rest[k - 1]);
    } else {
        assert(total_len(all, 0) == 0);
        assert(all[0] == first);
    }
}

/// The cells before the text of a bullet: `indent` empty cells, the marker,
/// and one cell of padding.
pub open spec fn head_cells(id: i32, indent: int) -> Seq<PixelState> {
    repeated(PixelState::Empty, indent) + seq![PixelState::Bullet(id), PixelState::Filler(id)]
}

/// The cells of a bullet are those of its head and those of its text.
pub proof fn lemma_bullet_cells(id: i32, len: int, lvl: int, cols: int)
    requires
        0 <= len,
        0 <= lvl,
        bullet_drawable(lvl, cols),
    ensures
        ({
            let limit = cols - 2 * lvl - 2;
            let lens = split_lens(len, limit);
            let text = content_cells(id, lens, limit, 2 * lvl + 2);
            &&& bullet_cells(id, len, lvl, cols) == head_cells(id, 2 * lvl) + text
            &&& bullet_cells(id, len, lvl, cols).len() == 2 * lvl + 2 + text.len()
            &&& total_len(lens, lens.len() as int) == len
            &&& forall|index: int|
                0 <= index ==> 0 <= #[trigger] anchor_cells(lens, limit, 2 * lvl + 2, index)
        }),
{
    let limit = cols - 2 * lvl - 2;
    let lens = split_lens(len, limit);
    lemma_split_lens(len, limit);
    assert forall|index: int| 0 <= index implies 0 <= #[trigger] anchor_cells(
        lens,
        limit,
        2 * lvl + 2,
        index,
    ) by {
        lemma_anchor_cells(lens, limit, 2 * lvl + 2, index);
    }
}

/// The cursor is recorded no further into a text than the text has cells.
pub proof fn lemma_anchor_cells(lens: Seq<int>, limit: int, indent: int, index: int)
    requires
        0 <= indent,
        0 <= index,
        forall|i: int| 0 <= i < lens.len() ==> lens[i] >= 0,
    ensures
        0 <= anchor_cells(lens, limit, indent, index),
{
    if lens.len() > 0 {
        lemma_insert_cells(lens, limit, indent, index, 0);
    }
}

/// The count of cells before a character is not negative.
pub proof fn lemma_insert_cells(lens: Seq<int>, limit: int, indent: int, index: int, k: int)
    requires
        0 <= indent,
        0 <= k <= lens.len(),
        forall|i: int| 0 <= i < lens.len() ==> lens[i] >= 0,
    ensures
        0 <= insert_cells(lens, limit, indent, index, k),
    decreases lens.len() - k,
{
    lemma_slice_cells_len(0, lens, limit, indent, lens.len() as int);
    lemma_slice_cells_len(0, lens, limit, indent, k);
    if k < lens.len() {
        if !(total_len(lens, k) <= index < total_len(lens, k + 1)) {
            lemma_insert_cells(lens, limit, indent, index, k + 1);
        }
    }
}

/// The cells of the lines that one bullet takes: the cells of the bullet, and
/// empty cells up to the end of its last line. Where the bullet ends a line,
/// an empty line follows.
pub open spec fn node_cells(id: i32, len: int, lvl: int, cols: int) -> Seq<PixelState> {
    let bullet = bullet_cells(id, len, lvl, cols);
    bullet + repeated(PixelState::Empty, cols - (bullet.len() as int) % cols)
}

/// The cells of the bullet `id`, drawn at the level `lvl`, and of its
/// descendants, each a level deeper than its parent, in document order.
pub open spec fn subtree_cells(f: Forest, h: Map<i32, nat>, id: i32, lvl: int, cols: int) -> Seq<
    PixelState,
>
    decreases h[id], f[id].children.len() + 1,
{
    node_cells(id, f[id].content.len() as int, lvl, cols) + children_cells(
        f,
        h,
        id,
        lvl + 1,
        cols,
        f[id].children.len(),
    )
}

/// The cells of the first `n` children of `id`, drawn at the level `lvl`,
/// with their descendants.
pub open spec fn children_cells(
    f: Forest,
    h: Map<i32, nat>,
    id: i32,
    lvl: int,
    cols: int,
    n: nat,
) -> Seq<PixelState>
    decreases h[id], n,
{
    if n == 0 {
        Seq::empty()
    } else {
        let c = f[id].children[n - 1];
        children_cells(f, h, id, lvl, cols, (n - 1) as nat) + if h[c] < h[id] {
            subtree_cells(f, h, c, lvl, cols)
        } else {
            Seq::empty()
        }
    }
}

/// Whether the bullet `id`, at the level `lvl`, and all its descendants can
/// be drawn on lines of `cols` cells.
pub open spec fn subtree_drawable(f: Forest, h: Map<i32, nat>, id: i32, lvl: int, cols: int) -> bool
    decreases h[id], f[id].children.len() + 1,
{
    bullet_drawable(lvl, cols) && children_drawable(f, h, id, lvl + 1, cols, f[id].children.len())
}

/// Whether the first `n` children of `id`, at the level `lvl`, and all their
/// descendants can be drawn on lines of `cols` cells.
pub open spec fn children_drawable(
    f: Forest,
    h: Map<i32, nat>,
    id: i32,
    lvl: int,
    cols: int,
    n: nat,
) -> bool
    decreases h[id], n,
{
    if n == 0 {
        true
    } else {
        let c = f[id].children[n - 1];
        children_drawable(f, h, id, lvl, cols, (n - 1) as nat) && (h[c] < h[id]
            ==> subtree_drawable(f, h, c, lvl, cols))
    }
}

/// How many cells into the cells of the subtree of `id` the cursor stands,
/// where the bullet `active` is in that subtree: before the character that is
/// `offset` characters from the end of the text of `active`.
pub open spec fn subtree_anchor(
    f: Forest,
    h: Map<i32, nat>,
    id: i32,
    lvl: int,
    cols: int,
    active: i32,
    offset: int,
) -> Option<int>
    decreases h[id], f[id].children.len() + 1,
{
    let len = f[id].content.len() as int;
    if id == active {
        Some(bullet_anchor(len, lvl, cols, len - offset))
    } else {
        match children_anchor(f, h, id, lvl + 1, cols, active, offset, f[id].children.len()) {
            Some(k) => Some(node_cells(id, len, lvl, cols).len() + k),
            None => None,
        }
    }
}

/// How many cells into the cells of the first `n` children of `id` the
/// cursor stands, where the bullet `active` is in the subtree of one of them.
pub open spec fn children_anchor(
    f: Forest,
    h: Map<i32, nat>,
    id: i32,
    lvl: int,
    cols: int,
    active: i32,
    offset: int,
    n: nat,
) -> Option<int>
    decreases h[id], n,
{
    if n == 0 {
        None
    } else {
        let c = f[id].children[n - 1];
        match children_anchor(f, h, id, lvl, cols, active, offset, (n - 1) as nat) {
            Some(k) => Some(k),
            None => if h[c] < h[id] {
                match subtree_anchor(f, h, c, lvl, cols, active, offset) {
                    Some(k) => Some(
                        children_cells(f, h, id, lvl, cols, (n - 1) as nat).len() + k,
                    ),
                    None => None,
                }
            } else {
                None
            },
        }
    }
}

/// More children take no fewer cells, and where more children can be drawn,
/// fewer can.
pub proof fn lemma_children_prefix(
    f: Forest,
    h: Map<i32, nat>,
    id: i32,
    lvl: int,
    cols: int,
    a: nat,
    b: nat,
)
    requires
        a <= b,
    ensures
        children_cells(f, h, id, lvl, cols, a).len() <= children_cells(f, h, id, lvl, cols, b).len(),
        children_drawable(f, h, id, lvl, cols, b) ==> children_drawable(f, h, id, lvl, cols, a),
    decreases b - a,
{
    if a < b {
        lemma_children_prefix(f, h, id, lvl, cols, a, (b - 1) as nat);
    }
}

/// Where a line starts after `a` cells, the line that `b` more cells end in
/// has as many cells left as if the `b` cells had started at a line's start;
/// and behind those a line starts again.
pub proof fn lemma_line_rest(a: int, b: int, cols: int)
    requires
        cols > 0,
        0 <= a,
        0 <= b,
        a % cols == 0,
    ensures
        (a + b) % cols == b % cols,
        (a + b + (cols - b % cols)) % cols == 0,
{
    vstd::arithmetic::div_mod::lemma_fundamental_div_mod(a, cols);
    vstd::arithmetic::div_mod::lemma_fundamental_div_mod(b, cols);
    let qa = a / cols;
    let qb = b / cols;
    assert(cols * (qa + qb) == cols * qa + cols * qb) by (nonlinear_arith);
    assert(cols * (qa + qb + 1) == cols * qa + cols * qb + cols) by (nonlinear_arith);
    assert(0 <= b % cols < cols) by (nonlinear_arith)
        requires
            cols > 0,
    ;
    vstd::arithmetic::div_mod::lemma_fundamental_div_mod_converse(
        a + b,
        cols,
        qa + qb,
        b % cols,
    );
    vstd::arithmetic::div_mod::lemma_fundamental_div_mod_converse(
        a + b + (cols - b % cols),
        cols,
        qa + qb + 1,
        0,
    );
}

/// The cursor stands no further into the cells of a bullet's children than
/// they have cells, and not before them.
pub proof fn lemma_children_anchor(
    f: Forest,
    h: Map<i32, nat>,
    id: i32,
    lvl: int,
    cols: int,
    active: i32,
    offset: int,
    n: nat,
)
    requires
        0 <= lvl,
        children_drawable(f, h, id, lvl, cols, n),
        f.contains_key(active) ==> 0 <= offset <= f[active].content.len(),
        children_anchor(f, h, id, lvl, cols, active, offset, n) is Some ==> f.contains_key(active),
    ensures
        children_anchor(f, h, id, lvl, cols, active, offset, n) matches Some(k) ==> 0 <= k,
    decreases h[id], n,
{
    if n > 0 {
        let c = f[id].children[n - 1];
        lemma_children_anchor(f, h, id, lvl, cols, active, offset, (n - 1) as nat);
        if children_anchor(f, h, id, lvl, cols, active, offset, (n - 1) as nat) is None && h[c]
            < h[id] {
            lemma_subtree_anchor(f, h, c, lvl, cols, active, offset);
        }
    }
}

/// The cursor stands not before the cells of a subtree.
pub proof fn lemma_subtree_anchor(
    f: Forest,
    h: Map<i32, nat>,
    id: i32,
    lvl: int,
    cols: int,
    active: i32,
    offset: int,
)
    requires
        0 <= lvl,
        subtree_drawable(f, h, id, lvl, cols),
        f.contains_key(active) ==> 0 <= offset <= f[active].content.len(),
        subtree_anchor(f, h, id, lvl, cols, active, offset) is Some ==> f.contains_key(active),
    ensures
        subtree_anchor(f, h, id, lvl, cols, active, offset) matches Some(k) ==> 0 <= k,
    decreases h[id], f[id].children.len() + 1,
{
    let len = f[id].content.len() as int;
    if id == active {
        lemma_bullet_cells(id, len, lvl, cols);
    } else {
        lemma_children_anchor(f, h, id, lvl + 1, cols, active, offset, f[id].children.len());
    }
}

/// The cursor stands in a subtree only at a bullet that the forest holds.
pub proof fn lemma_anchor_names_bullet(
    f: Forest,
    h: Map<i32, nat>,
    id: i32,
    lvl: int,
    cols: int,
    active: i32,
    offset: int,
)
    requires
        child_links_ok(f),
        f.contains_key(id),
    ensures
        subtree_anchor(f, h, id, lvl, cols, active, offset) is Some ==> f.contains_key(active),
    decreases h[id], f[id].children.len() + 1,
{
    if id != active {
        lemma_children_anchor_names_bullet(
            f,
            h,
            id,
            lvl + 1,
            cols,
            active,
            offset,
            f[id].children.len(),
        );
    }
}

/// The cursor stands among the children of a bullet only at a bullet that
/// the forest holds.
pub proof fn lemma_children_anchor_names_bullet(
    f: Forest,
    h: Map<i32, nat>,
    id: i32,
    lvl: int,
    cols: int,
    active: i32,
    offset: int,
    n: nat,
)
    requires
        child_links_ok(f),
        f.contains_key(id),
        n <= f[id].children.len(),
    ensures
        children_anchor(f, h, id, lvl, cols, active, offset, n) is Some ==> f.contains_key(active),
    decreases h[id], n,
{
    if n > 0 {
        let c = f[id].children[n - 1];
        assert(f.contains_key(c));
        lemma_children_anchor_names_bullet(f, h, id, lvl, cols, active, offset, (n - 1) as nat);
        if h[c] < h[id] {
            lemma_anchor_names_bullet(f, h, c, lvl, cols, active, offset);
        }
    }
}

/// The cursor stands in the cells of a subtree where the subtree holds the
/// bullet at which it is to stand.
pub proof fn lemma_anchor_found(
    f: Forest,
    h: Map<i32, nat>,
    id: i32,
    lvl: int,
    cols: int,
    active: i32,
    offset: int,
)
    requires
        child_links_ok(f),
        parent_links_ok(f),
        ranked(f, h),
        in_subtree(f, id, active),
    ensures
        subtree_anchor(f, h, id, lvl, cols, active, offset) is Some,
    decreases h[id], f[id].children.len() + 1,
{
    if id != active {
        lemma_under_a_child(f, h, id, active);
        lemma_children_anchor_found(f, h, id, lvl + 1, cols, active, offset, f[id].children.len());
    }
}

/// The cursor stands in the cells of the first `n` children of a bullet
/// where the subtree of one of them holds the bullet at which it is to stand.
pub proof fn lemma_children_anchor_found(
    f: Forest,
    h: Map<i32, nat>,
    id: i32,
    lvl: int,
    cols: int,
    active: i32,
    offset: int,
    n: nat,
)
    requires
        child_links_ok(f),
        parent_links_ok(f),
        ranked(f, h),
        n <= f[id].children.len(),
        f.contains_key(id),
        exists|i: int| 0 <= i < n && in_subtree(f, #[trigger] f[id].children[i], active),
    ensures
        children_anchor(f, h, id, lvl, cols, active, offset, n) is Some,
    decreases h[id], n,
{
    let c = f[id].children[n - 1];
    assert(f.contains_key(f[id].children[n - 1]) && h[f[id].children[n - 1]] < h[id]);
    if children_anchor(f, h, id, lvl, cols, active, offset, (n - 1) as nat) is None {
        if in_subtree(f, c, active) {
            lemma_anchor_found(f, h, c, lvl, cols, active, offset);
        } else {
            let i = choose|i: int| 0 <= i < n && in_subtree(f, #[trigger] f[id].children[i], active);
            assert(i < n - 1);
            lemma_children_anchor_found(f, h, id, lvl, cols, active, offset, (n - 1) as nat);
        }
    }
}

/// A descendant of a bullet is in the subtree of one of the bullet's
/// children.
pub proof fn lemma_under_a_child(f: Forest, h: Map<i32, nat>, id: i32, x: i32)
    requires
        child_links_ok(f),
        parent_links_ok(f),
        ranked(f, h),
        in_subtree(f, id, x),
        x != id,
    ensures
        f.contains_key(id),
        exists|i: int|
            0 <= i < f[id].children.len() && in_subtree(f, #[trigger] f[id].children[i], x),
{
    let k = choose|k: nat| nth_ancestor(f, x, k) == Some(id);
    lemma_ancestor_in_forest(f, x, k);
    lemma_ancestor_rank(f, h, x, k, id);
    lemma_ancestor_sum(f, x, (k - 1) as nat, 1);
    let c = nth_ancestor(f, x, (k - 1) as nat)->0;
    lemma_ancestor_in_forest(f, x, (k - 1) as nat);
    assert(nth_ancestor(f, c, 1) == if f.contains_key(c) && f[c].parent is Some {
        nth_ancestor(f, f[c].parent->0, 0)
    } else {
        None
    });
    assert(f[c].parent == Some(id));
    assert(f[id].children.contains(c));
    let i = choose|i: int| 0 <= i < f[id].children.len() && f[id].children[i] == c;
    assert(in_subtree(f, f[id].children[i], x));
}

/// The character that a window shows at a cell `cell` of a bullet with the
/// text `content`: the marker, the character of the text that the cell
/// stands for, or a blank.
pub open spec fn glyph_of(content: Seq<char>, cell: PixelState) -> char {
    match cell {
        PixelState::Bullet(_) => '\u{2022}',
        PixelState::Text { offset, .. } => content[offset as int],
        _ => ' ',
    }
}

/// The characters that a window shows at the cells `cells` of a bullet with
/// the text `content`.
pub open spec fn text_glyphs(content: Seq<char>, cells: Seq<PixelState>) -> Seq<char> {
    Seq::new(cells.len(), |i: int| glyph_of(content, cells[i]))
}

/// The character that a window shows at a cell `cell` of a drawing of the
/// bullets `f`: that of the cell's bullet, and a blank at an empty cell.
pub open spec fn cell_glyph(f: Forest, cell: PixelState) -> char {
    match cell.spec_id() {
        Some(id) => glyph_of(f[id].content, cell),
        None => ' ',
    }
}

/// The characters that a window shows at the cells `cells` of a drawing of
/// the bullets `f`.
pub open spec fn glyphs(f: Forest, cells: Seq<PixelState>) -> Seq<char> {
    Seq::new(cells.len(), |i: int| cell_glyph(f, cells[i]))
}

/// The characters that the first `k` slices of a text take on a window: those
/// of each slice, and behind each slice of the full length `limit` the
/// characters of `indent`.
pub open spec fn slices_text(slices: Seq<&str>, limit: int, indent: Seq<char>, k: int) -> Seq<char>
    decreases k,
{
    if k <= 0 {
        Seq::empty()
    } else {
        slices_text(slices, limit, indent, k - 1) + slices[k - 1]@ + if slices[k - 1]@.len()
            == limit {
            indent
        } else {
            Seq::empty()
        }
    }
}

/// The characters that a text, given in slices, takes on a window: one blank
/// where there is no slice, else the characters of all slices.
pub open spec fn content_text(slices: Seq<&str>, limit: int, indent: Seq<char>) -> Seq<char> {
    if slices.len() == 0 {
        seq![' ']
    } else {
        slices_text(slices, limit, indent, slices.len() as int)
    }
}

/// The first `k` slices take as many characters as they take cells.
pub proof fn lemma_slices_text_len(slices: Seq<&str>, limit: int, indent: Seq<char>, k: int)
    requires
        0 <= k <= slices.len(),
    ensures
        slices_text(slices, limit, indent, k).len() == cells_len(
            slice_lens(slices),
            limit,
            indent.len() as int,
            k,
        ),
    decreases k,
{
    if k > 0 {
        lemma_slices_text_len(slices, limit, indent, k - 1);
    }
}

/// Every cell of the first `k` slices of the text of bullet `id` is a cell of
/// that bullet.
pub proof fn lemma_slice_cells_of(id: i32, lens: Seq<int>, limit: int, indent: int, k: int, i: int)
    requires
        0 <= k <= lens.len(),
        forall|j: int| 0 <= j < lens.len() ==> lens[j] >= 0,
        0 <= i < slice_cells(id, lens, limit, indent, k).len(),
    ensures
        slice_cells(id, lens, limit, indent, k)[i].spec_id() == Some(id),
    decreases k,
{
    if k > 0 {
        let before = slice_cells(id, lens, limit, indent, k - 1);
        if i < before.len() {
            lemma_slice_cells_of(id, lens, limit, indent, k - 1, i);
        }
    }
}

/// The cells of the slices that `split_every_n` cuts the text `content` into
/// show the characters of the slices, with blanks for the padding.
pub proof fn lemma_slices_glyphs(
    content: Seq<char>,
    slices: Seq<&str>,
    id: i32,
    limit: int,
    indent: int,
    k: int,
)
    requires
        0 <= k <= slices.len(),
        0 <= indent,
        content.len() <= usize::MAX,
        total_len(slice_lens(slices), slices.len() as int) == content.len(),
        forall|i: int|
            0 <= i < slices.len() ==> (#[trigger] slices[i])@ == content.subrange(
                total_len(slice_lens(slices), i),
                total_len(slice_lens(slices), i + 1),
            ),
    ensures
        slices_text(slices, limit, blank_text(indent), k) == text_glyphs(
            content,
            slice_cells(id, slice_lens(slices), limit, indent, k),
        ),
        0 <= total_len(slice_lens(slices), k) <= content.len(),
    decreases k,
{
    let lens = slice_lens(slices);
    assert forall|j: int| 0 <= j < lens.len() implies lens[j] >= 0 by {}
    lemma_cells_len_grows(lens, limit, indent, k, lens.len() as int);
    lemma_total_len_grows(lens, k, lens.len() as int);
    if k > 0 {
        lemma_slices_glyphs(content, slices, id, limit, indent, k - 1);
        let from = total_len(lens, k - 1);
        let n = lens[k - 1];
        let slice = slices[k - 1]@;
        assert(slice == content.subrange(from, from + n));
        let pad = if n == limit {
            repeated(PixelState::Filler(id), indent)
        } else {
            Seq::empty()
        };
        let head = slice_cells(id, lens, limit, indent, k - 1);
        let text = text_cells(id, from, n);
        assert(text_glyphs(content, text) =~= slice);
        assert(text_glyphs(content, pad) =~= if n == limit {
            blank_text(indent)
        } else {
            Seq::empty()
        });
        assert(text_glyphs(content, head + text + pad) =~= text_glyphs(content, head)
            + text_glyphs(content, text) + text_glyphs(content, pad));
    } else {
        assert(text_glyphs(content, Seq::empty()) =~= Seq::empty());
    }
}

/// The sum of more lengths is no smaller, where no length is negative.
pub proof fn lemma_total_len_grows(lens: Seq<int>, a: int, b: int)
    requires
        0 <= a <= b <= lens.len(),
        forall|i: int| 0 <= i < lens.len() ==> lens[i] >= 0,
    ensures
        0 <= total_len(lens, a) <= total_len(lens, b),
    decreases b - a,
{
    if a < b {
        lemma_total_len_grows(lens, a, b - 1);
    } else {
        lemma_total_len_grows_from_zero(lens, a);
    }
}

/// A sum of lengths is not negative, where no length is.
pub proof fn lemma_total_len_grows_from_zero(lens: Seq<int>, a: int)
    requires
        0 <= a <= lens.len(),
        forall|i: int| 0 <= i < lens.len() ==> lens[i] >= 0,
    ensures
        0 <= total_len(lens, a),
    decreases a,
{
    if a > 0 {
        lemma_total_len_grows_from_zero(lens, a - 1);
    }
}

/// A window shows a bullet of the document as it shows a bullet with the
/// same text: the cells of a bullet are its own.
pub proof fn lemma_bullet_glyphs(f: Forest, id: i32, lvl: int, cols: int)
    requires
        0 <= lvl,
        bullet_drawable(lvl, cols),
    ensures
        glyphs(f, bullet_cells(id, f[id].content.len() as int, lvl, cols)) == text_glyphs(
            f[id].content,
            bullet_cells(id, f[id].content.len() as int, lvl, cols),
        ),
{
    let len = f[id].content.len() as int;
    let limit = cols - 2 * lvl - 2;
    let lens = split_lens(len, limit);
    let cells = bullet_cells(id, len, lvl, cols);
    lemma_split_lens(len, limit);
    assert forall|i: int| 0 <= i < cells.len() implies cell_glyph(f, cells[i]) == glyph_of(
        f[id].content,
        cells[i],
    ) by {
        if i >= 2 * lvl + 2 && lens.len() > 0 {
            lemma_slice_cells_of(id, lens, limit, 2 * lvl + 2, lens.len() as int, i - 2 * lvl - 2);
        }
    }
    assert(glyphs(f, cells) =~= text_glyphs(f[id].content, cells));
}

/// Whether the descendants of the bullet `id` can be drawn on a window of the
/// size `max`, its children at the left edge: the window has a cell, every
/// bullet can be drawn at its level, and the lines of all of them fit.
pub open spec fn tree_fits(f: Forest, id: i32, max: Point) -> bool {
    let n = f[id].children.len();
    &&& max.0 > 0 && max.1 > 0
    &&& capacity(max) <= usize::MAX
    &&& children_drawable(f, rank_of(f), id, 0, max.1 as int, n)
    &&& children_cells(f, rank_of(f), id, 0, max.1 as int, n).len() <= capacity(max)
}

/// The grid of a window of the size `max` on which the descendants of the
/// bullet `id` are drawn: their lines in document order, and empty cells to
/// the end of the window.
pub open spec fn tree_cells(f: Forest, id: i32, max: Point) -> Seq<PixelState> {
    let lines = children_cells(f, rank_of(f), id, 0, max.1 as int, f[id].children.len());
    lines + repeated(PixelState::Empty, capacity(max) - lines.len())
}

/// Where the cursor of a window of the size `max` stands at the bullet
/// `active` of a document drawn on it, before the character that is `offset`
/// characters from the end of the bullet's text: `None` where the bullet is
/// not among those drawn.
pub open spec fn tree_anchor(f: Forest, max: Point, active: i32, offset: int) -> Option<Point> {
    match children_anchor(f, rank_of(f), 0, 0, max.1 as int, active, offset, f[0].children.len()) {
        Some(k) => Some(advanced((0i32, 0i32), max, k)),
        None => None,
    }
}

} // verus!
