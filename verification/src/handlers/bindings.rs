//! The keys and the handlers that they are bound to.

use crate::text::same_text;
use vstd::prelude::*;

verus! {

/// The handlers that keys are bound to.
#[derive(Clone, Copy, Debug, PartialEq, Eq, Structural)]
pub enum Handler {
    CommandI,
    CommandHl,
    CommandJk,
    CommandBwe,
    CommandShiftA,
    CommandO,
    CommandShiftO,
    CommandD,
    CommandY,
    CommandPShiftP,
    CommandU,
    InsertTab,
    InsertShiftTab,
    InsertEnter,
    InsertBackspace,
    InsertControlC,
    InsertArrowKeys,
}

/// The keys of command mode, each with its handler.
pub open spec fn command_bindings() -> Seq<(Seq<char>, Handler)> {
    seq![
        ("i"@, Handler::CommandI),
        ("h"@, Handler::CommandHl),
        ("l"@, Handler::CommandHl),
        ("j"@, Handler::CommandJk),
        ("k"@, Handler::CommandJk),
        ("b"@, Handler::CommandBwe),
        ("w"@, Handler::CommandBwe),
        ("e"@, Handler::CommandBwe),
        ("A"@, Handler::CommandShiftA),
        ("o"@, Handler::CommandO),
        ("O"@, Handler::CommandShiftO),
        ("d"@, Handler::CommandD),
        ("y"@, Handler::CommandY),
        ("p"@, Handler::CommandPShiftP),
        ("P"@, Handler::CommandPShiftP),
        ("u"@, Handler::CommandU),
    ]
}

/// The keys of insert mode that do not write themselves, each with its
/// handler.
pub open spec fn insert_bindings() -> Seq<(Seq<char>, Handler)> {
    seq![
        ("^I"@, Handler::InsertTab),
        ("KEY_BTAB"@, Handler::InsertShiftTab),
        ("^J"@, Handler::InsertEnter),
        ("KEY_BACKSPACE"@, Handler::InsertBackspace),
        ("^?"@, Handler::InsertBackspace),
        ("^C"@, Handler::InsertControlC),
        ("KEY_LEFT"@, Handler::InsertArrowKeys),
        ("KEY_RIGHT"@, Handler::InsertArrowKeys),
        ("KEY_UP"@, Handler::InsertArrowKeys),
        ("KEY_DOWN"@, Handler::InsertArrowKeys),
    ]
}

/// The bindings of a table, each key as a value.
pub open spec fn bindings_of(map: Seq<(&'static str, Handler)>) -> Seq<(Seq<char>, Handler)> {
    Seq::new(map.len(), |i: int| (map[i].0@, map[i].1))
}

/// The table of the keys of command mode.
pub fn new_command_map() -> (r: Vec<(&'static str, Handler)>)
    ensures
        bindings_of(r@) == command_bindings(),
{
    let mut map: Vec<(&'static str, Handler)> = Vec::new();
    map.push(("i", Handler::CommandI));
    map.push(("h", Handler::CommandHl));
    map.push(("l", Handler::CommandHl));
    map.push(("j", Handler::CommandJk));
    map.push(("k", Handler::CommandJk));
    map.push(("b", Handler::CommandBwe));
    map.push(("w", Handler::CommandBwe));
    map.push(("e", Handler::CommandBwe));
    map.push(("A", Handler::CommandShiftA));
    map.push(("o", Handler::CommandO));
    map.push(("O", Handler::CommandShiftO));
    map.push(("d", Handler::CommandD));
    map.push(("y", Handler::CommandY));
    map.push(("p", Handler::CommandPShiftP));
    map.push(("P", Handler::CommandPShiftP));
    map.push(("u", Handler::CommandU));
    proof {
        assert(bindings_of(map@) =~= command_bindings());
    }
    map
}

/// The table of the keys of insert mode that do not write themselves.
pub fn new_insert_map() -> (r: Vec<(&'static str, Handler)>)
    ensures
        bindings_of(r@) == insert_bindings(),
{
    let mut map: Vec<(&'static str, Handler)> = Vec::new();
    map.push(("^I", Handler::InsertTab));
    map.push(("KEY_BTAB", Handler::InsertShiftTab));
    map.push(("^J", Handler::InsertEnter));
    map.push(("KEY_BACKSPACE", Handler::InsertBackspace));
    map.push(("^?", Handler::InsertBackspace));
    map.push(("^C", Handler::InsertControlC));
    map.push(("KEY_LEFT", Handler::InsertArrowKeys));
    map.push(("KEY_RIGHT", Handler::InsertArrowKeys));
    map.push(("KEY_UP", Handler::InsertArrowKeys));
    map.push(("KEY_DOWN", Handler::InsertArrowKeys));
    proof {
        assert(bindings_of(map@) =~= insert_bindings());
    }
    map
}

/// The handler of the first binding of `key` in `bindings`, if there is one.
pub open spec fn bound_to(bindings: Seq<(Seq<char>, Handler)>, key: Seq<char>) -> Option<Handler>
    decreases bindings.len(),
{
    if bindings.len() == 0 {
        None
    } else if bindings[0].0 == key {
        Some(bindings[0].1)
    } else {
        bound_to(bindings.drop_first(), key)
    }
}

/// A handler that a key is bound to stands in the table.
pub proof fn lemma_bound_to_entry(bindings: Seq<(Seq<char>, Handler)>, key: Seq<char>)
    ensures
        bound_to(bindings, key) matches Some(handler) ==> exists|i: int|
            0 <= i < bindings.len() && (#[trigger] bindings[i]).1 == handler,
    decreases bindings.len(),
{
    if bindings.len() > 0 {
        if bindings[0].0 == key {
            assert(bindings[0].1 == bound_to(bindings, key)->0);
        } else {
            let rest = bindings.drop_first();
            lemma_bound_to_entry(rest, key);
            if bound_to(rest, key) is Some {
                let i = choose|i: int|
                    0 <= i < rest.len() && (#[trigger] rest[i]).1 == bound_to(rest, key)->0;
                assert(bindings[i + 1] == rest[i]);
            }
        }
    }
}

/// The handler that `key` is bound to in the table `map`.
pub fn lookup(map: &Vec<(&'static str, Handler)>, key: &str) -> (r: Option<Handler>)
    ensures
        r == bound_to(bindings_of(map@), key@),
{
    let mut i: usize = 0;
    let ghost all = bindings_of(map@);
    proof {
        assert(all.skip(0) =~= all);
    }
    while i < map.len()
        invariant
            i <= map.len(),
            all == bindings_of(map@),
            bound_to(all, key@) == bound_to(all.skip(i as int), key@),
        decreases map.len() - i,
    {
        let ghost rest = all.skip(i as int);
        proof {
            assert(rest[0] == all[i as int]);
            assert(rest.drop_first() =~= all.skip(i + 1));
        }
        if same_text(map[i].0, key) {
            return Some(map[i].1);
        }
        i += 1;
    }
    proof {
        assert(all.skip(i as int).len() == 0);
    }
    None
}

} // verus!
