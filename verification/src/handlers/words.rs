//! Word motions: where the separators of a text stand, and where a motion
//! by a word leads.

use super::motion::{
    go_wrap, go_wrap_far, lemma_walk_to_edge, lemma_walked_sum, text_to_edge, walked,
};
use crate::error::Error;
use crate::raster::{Browser, Direction};
use vstd::prelude::*;
use vstd::string::StrSliceExecFns;

verus! {

/// The characters that part the words of a text.
pub open spec fn separators() -> Seq<char> {
    seq![' ']
}

/// The first place behind `index`, or the last place before it, at which one
/// of the characters `sep` stands in `text`. The place 0 is never looked at in
/// the search backwards, nor is `index` itself in either search.
pub open spec fn separator_at(text: Seq<char>, index: int, reverse: bool, sep: Seq<char>, at: int) -> bool {
    if reverse {
        &&& 1 <= at < index
        &&& sep.contains(text[at])
        &&& forall|j: int| at < j < index ==> !sep.contains(#[trigger] text[j])
    } else {
        &&& index < at < text.len()
        &&& sep.contains(text[at])
        &&& forall|j: int| index < j < at ==> !sep.contains(#[trigger] text[j])
    }
}

/// Whether one of the characters `sep` stands in `text` where the search from
/// `index` looks.
pub open spec fn has_separator(text: Seq<char>, index: int, reverse: bool, sep: Seq<char>) -> bool {
    if reverse {
        exists|j: int| 1 <= j < index && sep.contains(#[trigger] text[j])
    } else {
        exists|j: int| index < j < text.len() && sep.contains(#[trigger] text[j])
    }
}

/// Whether `c` is one of `sep`.
fn is_separator(c: char, sep: &[char]) -> (r: bool)
    ensures
        r == sep@.contains(c),
{
    let mut i: usize = 0;
    while i < sep.len()
        invariant
            i <= sep.len(),
            forall|j: int| 0 <= j < i ==> sep@[j] != c,
        decreases sep.len() - i,
    {
        if sep[i] == c {
            return true;
        }
        i += 1;
    }
    false
}

/// Looks for the nearest separator in `string` from `index`: behind it, or
/// before it where `reverse` is set. `None` where `index` is not a place of
/// the text, and where the search finds no separator.
pub fn find_separator(string: &str, index: usize, reverse: bool, sep: &[char]) -> (r: Option<usize>)
    ensures
        match r {
            Some(at) => index < string@.len() && separator_at(
                string@,
                index as int,
                reverse,
                sep@,
                at as int,
            ),
            None => index >= string@.len() || !has_separator(string@, index as int, reverse, sep@),
        },
{
    let len = string.unicode_len();
    if index >= len {
        return None;
    }
    let mut at = index;
    if reverse {
        while at > 1
            invariant
                reverse,
                at <= index < len,
                len == string@.len(),
                forall|j: int| at <= j < index ==> !sep@.contains(#[trigger] string@[j]),
            decreases at,
        {
            at -= 1;
            if is_separator(string.get_char(at), sep) {
                return Some(at);
            }
        }
    } else {
        while at < len - 1
            invariant
                !reverse,
                index <= at < len,
                len == string@.len(),
                forall|j: int| index < j <= at ==> !sep@.contains(#[trigger] string@[j]),
            decreases len - at,
        {
            at += 1;
            if is_separator(string.get_char(at), sep) {
                return Some(at);
            }
        }
    }
    None
}

/// The nearest separator that a search from `index` finds, if it finds one.
pub open spec fn nearest_separator(text: Seq<char>, index: int, reverse: bool, sep: Seq<char>) -> Option<
    int,
> {
    if 0 <= index < text.len() && exists|at: int| separator_at(text, index, reverse, sep, at) {
        Some(choose|at: int| separator_at(text, index, reverse, sep, at))
    } else {
        None
    }
}

/// `x`, held between the first and the last place of a text of `len`
/// characters.
pub open spec fn clamped(x: int, len: int) -> int {
    if x < 0 || len <= 0 {
        0
    } else if x >= len {
        len - 1
    } else {
        x
    }
}

/// The place in `text` that a word motion from `index` leads to. Where the
/// nearest separator stands right beside `index`, the motion goes on from
/// that separator. Else it leads `final_offset` places behind the nearest
/// separator; and to the first or the last place of the text where there is
/// no separator.
pub open spec fn jump_index(
    text: Seq<char>,
    index: int,
    reverse: bool,
    final_offset: int,
    sep: Seq<char>,
) -> int
    decreases
            if reverse {
                index
            } else {
                text.len() - index
            },
{
    match nearest_separator(text, index, reverse, sep) {
        Some(at) => if reverse && at == index - 1 && 0 <= at {
            jump_index(text, at, reverse, final_offset, sep)
        } else if !reverse && at == index + 1 && at <= text.len() {
            jump_index(text, at, reverse, final_offset, sep)
        } else {
            clamped(at + final_offset, text.len() as int)
        },
        None => clamped(
            if reverse {
                0
            } else {
                text.len() - 1
            },
            text.len() as int,
        ),
    }
}

/// The distance between two places.
pub open spec fn distance(a: int, b: int) -> nat {
    if a < b {
        (b - a) as nat
    } else {
        (a - b) as nat
    }
}

/// What a search for a separator found is the nearest separator.
pub proof fn lemma_nearest_separator(text: Seq<char>, index: int, reverse: bool, sep: Seq<char>, at: int)
    requires
        0 <= index < text.len(),
        separator_at(text, index, reverse, sep, at),
    ensures
        nearest_separator(text, index, reverse, sep) == Some(at),
{
    let other = choose|other: int| separator_at(text, index, reverse, sep, other);
    if other < at {
        assert(!sep.contains(text[other]) || !sep.contains(text[at]));
    } else if other > at {
        assert(!sep.contains(text[other]) || !sep.contains(text[at]));
    }
}

/// Over how many shown characters a word motion from `index` walks: one for
/// each separator right beside the place that it has reached, and then the
/// distance to the place that it leads to.
pub open spec fn jump_steps(
    text: Seq<char>,
    index: int,
    reverse: bool,
    final_offset: int,
    sep: Seq<char>,
) -> nat
    decreases
            if reverse {
                index
            } else {
                text.len() - index
            },
{
    match nearest_separator(text, index, reverse, sep) {
        Some(at) => if reverse && at == index - 1 && 0 <= at {
            1 + jump_steps(text, at, reverse, final_offset, sep)
        } else if !reverse && at == index + 1 && at <= text.len() {
            1 + jump_steps(text, at, reverse, final_offset, sep)
        } else {
            distance(clamped(at + final_offset, text.len() as int), index)
        },
        None => distance(
            clamped(
                if reverse {
                    0
                } else {
                    text.len() - 1
                },
                text.len() as int,
            ),
            index,
        ),
    }
}

/// Where the last step of a word motion is at most one place, the motion
/// walks over as many characters as lie between its start and its end.
pub proof fn lemma_jump_steps(
    text: Seq<char>,
    index: int,
    reverse: bool,
    final_offset: int,
    sep: Seq<char>,
)
    requires
        0 <= index < text.len(),
        -1 <= final_offset <= 1,
    ensures
        jump_steps(text, index, reverse, final_offset, sep) == distance(
            jump_index(text, index, reverse, final_offset, sep),
            index,
        ),
        reverse ==> jump_index(text, index, reverse, final_offset, sep) <= index,
        !reverse ==> jump_index(text, index, reverse, final_offset, sep) >= index,
    decreases
            if reverse {
                index
            } else {
                text.len() - index
            },
{
    match nearest_separator(text, index, reverse, sep) {
        Some(at) => {
            assert(separator_at(text, index, reverse, sep, at));
            if reverse && at == index - 1 && 0 <= at {
                lemma_jump_steps(text, at, reverse, final_offset, sep);
            } else if !reverse && at == index + 1 && at <= text.len() {
                lemma_jump_steps(text, at, reverse, final_offset, sep);
            }
        },
        None => {},
    }
}

/// Moves the cursor, which stands on the character `index` of `string`, to
/// the character that a word motion leads to: see `jump_index`. The cursor
/// walks over the shown characters in the direction `dir`, as many as
/// `jump_steps` says. Fails where fewer characters are shown up to the end of
/// the grid.
pub fn jump_to_next_separator<'a>(
    string: &str,
    index: usize,
    dir: Direction,
    final_offset: i32,
    sep: &[char],
    browser: Browser<'a>,
) -> (r: Result<Browser<'a>, Error>)
    requires
        browser.wf(),
        dir is Left || dir is Right,
    ensures
        r is Ok <==> jump_steps(string@, index as int, dir is Left, final_offset as int, sep@)
            <= text_to_edge(browser.raster()@, browser.index(), dir),
        match r {
            Ok(to) => to.wf() && to.raster() == browser.raster() && walked(
                browser.raster()@,
                browser.index(),
                dir,
                jump_steps(string@, index as int, dir is Left, final_offset as int, sep@),
                to.index(),
            ),
            Err(e) => e == Error::OutOfBounds,
        },
    decreases
            if dir is Left {
                index as int
            } else {
                string@.len() - index
            },
{
    let reverse = match dir {
        Direction::Left => true,
        _ => false,
    };
    let len = string.unicode_len();
    let ghost v = browser.raster()@;
    let found = find_separator(string, index, reverse, sep);
    let place: i128 = match found {
        Some(at) => {
            proof {
                lemma_nearest_separator(string@, index as int, reverse, sep@, at as int);
            }
            if (reverse && at + 1 == index) || (!reverse && at == index + 1) {
                let next = match go_wrap(browser, dir, 1) {
                    Ok(b) => b,
                    Err(e) => { return Err(e); },
                };
                let r = jump_to_next_separator(string, at, dir, final_offset, sep, next);
                proof {
                    crate::raster::lemma_index_of_in_bounds(browser.spec_pos(), v.max);
                    crate::raster::lemma_index_of_in_bounds(next.spec_pos(), v.max);
                    lemma_walk_to_edge(v, browser.index(), dir, 1, next.index());
                    if r is Ok {
                        lemma_walked_sum(
                            v,
                            browser.index(),
                            dir,
                            1,
                            next.index(),
                            jump_steps(string@, at as int, reverse, final_offset as int, sep@),
                            r->Ok_0.index(),
                        );
                    }
                }
                return r;
            }
            at as i128 + final_offset as i128
        },
        None => {
            proof {
                if index < len {
                    assert forall|at: int| !separator_at(
                        string@,
                        index as int,
                        reverse,
                        sep@,
                        at,
                    ) by {
                        if separator_at(string@, index as int, reverse, sep@, at) {
                            assert(sep@.contains(string@[at]));
                        }
                    }
                }
            }
            if reverse {
                0
            } else {
                len as i128 - 1
            }
        },
    };
    let last: i128 = if place < 0 || len == 0 {
        0
    } else if place >= len as i128 {
        len as i128 - 1
    } else {
        place
    };
    let steps: i128 = if last < index as i128 {
        index as i128 - last
    } else {
        last - index as i128
    };
    go_wrap_far(browser, dir, steps as usize)
}

} // verus!
