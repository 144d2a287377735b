//! One bullet of the outline: its identity, its links, and its text.

use super::Dir;
use vstd::prelude::*;

verus! {

/// A bullet. Its parent and its children are named by their identities, which
/// the tree that holds the bullet resolves.
#[derive(Debug)]
pub struct Node {
    pub id: i32,
    pub parent: Option<i32>,
    pub children: Vec<i32>,
    pub content: String,
}

/// A bullet as a value.
pub struct NodeView {
    pub id: i32,
    pub parent: Option<i32>,
    pub children: Seq<i32>,
    pub content: Seq<char>,
}

impl NodeView {
    /// The same bullet with other children.
    pub open spec fn with_children(self, children: Seq<i32>) -> NodeView {
        NodeView { children, ..self }
    }

    /// The same bullet under another parent, or under none.
    pub open spec fn with_parent(self, parent: Option<i32>) -> NodeView {
        NodeView { parent, ..self }
    }

    /// The same bullet with another text.
    pub open spec fn with_content(self, content: Seq<char>) -> NodeView {
        NodeView { content, ..self }
    }

    /// A bullet without children and without text.
    pub open spec fn leaf(id: i32, parent: Option<i32>) -> NodeView {
        NodeView { id, parent, children: Seq::empty(), content: Seq::empty() }
    }
}

impl View for Node {
    type V = NodeView;

    open spec fn view(&self) -> NodeView {
        NodeView {
            id: self.id,
            parent: self.parent,
            children: self.children@,
            content: self.content@,
        }
    }
}

/// The first place at which `x` stands in `s`, if it stands in it.
pub open spec fn first_place(s: Seq<i32>, x: i32) -> Option<int>
    decreases s.len(),
{
    if s.len() == 0 {
        None
    } else if s[0] == x {
        Some(0)
    } else {
        match first_place(s.drop_first(), x) {
            Some(i) => Some(i + 1),
            None => None,
        }
    }
}

/// `first_place` finds `x` exactly when `s` holds it, at a place before which
/// `x` does not stand.
pub proof fn lemma_first_place(s: Seq<i32>, x: i32)
    ensures
        match first_place(s, x) {
            Some(i) => 0 <= i < s.len() && s[i] == x && forall|j: int| 0 <= j < i ==> s[j] != x,
            None => !s.contains(x),
        },
    decreases s.len(),
{
    if s.len() > 0 && s[0] != x {
        let rest = s.drop_first();
        lemma_first_place(rest, x);
        match first_place(rest, x) {
            Some(i) => {
                assert forall|j: int| 0 <= j < i + 1 implies s[j] != x by {
                    if j > 0 {
                        assert(rest[j - 1] == s[j]);
                    }
                }
            },
            None => {
                assert forall|j: int| 0 <= j < s.len() implies s[j] != x by {
                    if j > 0 {
                        assert(rest[j - 1] == s[j]);
                        assert(rest.contains(rest[j - 1]));
                    }
                }
            },
        }
    }
}

/// Where nothing stands twice, `x` stands at place `i` only if that is its
/// first place.
pub proof fn lemma_first_place_unique(s: Seq<i32>, x: i32, i: int)
    requires
        s.no_duplicates(),
        0 <= i < s.len(),
        s[i] == x,
    ensures
        first_place(s, x) == Some(i),
{
    lemma_first_place(s, x);
}

/// The first place of `x` in `v`.
pub fn position(v: &Vec<i32>, x: i32) -> (r: Option<usize>)
    ensures
        match r {
            Some(i) => first_place(v@, x) == Some(i as int) && i < v.len() && v@[i as int] == x,
            None => first_place(v@, x) is None && !v@.contains(x),
        },
{
    let mut i: usize = 0;
    while i < v.len()
        invariant
            i <= v.len(),
            forall|j: int| 0 <= j < i ==> v@[j] != x,
        decreases v.len() - i,
    {
        if v[i] == x {
            proof {
                lemma_first_place(v@, x);
            }
            return Some(i);
        }
        i += 1;
    }
    proof {
        lemma_first_place(v@, x);
    }
    None
}

impl Clone for Node {
    /// A bullet with the same identity, links and text.
    fn clone(&self) -> (r: Node)
        ensures
            r@ == self@,
    {
        let mut children: Vec<i32> = Vec::new();
        let mut i: usize = 0;
        while i < self.children.len()
            invariant
                i <= self.children.len(),
                children@ == self.children@.take(i as int),
            decreases self.children.len() - i,
        {
            children.push(self.children[i]);
            proof {
                assert(self.children@.take(i + 1) =~= self.children@.take(i as int).push(
                    self.children@[i as int],
                ));
            }
            i += 1;
        }
        proof {
            assert(self.children@.take(i as int) =~= self.children@);
        }
        Node { id: self.id, parent: self.parent, children, content: self.content.clone() }
    }
}

impl Node {
    /// A bullet with the identity `id` under `parent`, without children and
    /// without text.
    pub fn new(id: i32, parent: Option<i32>) -> (r: Node)
        ensures
            r@ == NodeView::leaf(id, parent),
    {
        Node { id, parent, children: Vec::new(), content: String::new() }
    }

    /// Puts `child` next to the child `relative_id`: before it for `Above`,
    /// behind it for `Below`. Fails, and changes nothing, where `relative_id`
    /// is no child of this bullet.
    pub fn insert_child_relative(&mut self, relative_id: i32, dir: Dir, child: i32) -> (r: Result<
        (),
        (),
    >)
        ensures
            r is Ok <==> old(self)@.children.contains(relative_id),
            match first_place(old(self)@.children, relative_id) {
                Some(i) => r is Ok && final(self)@ == old(self)@.with_children(
                    old(self)@.children.insert(
                        if dir is Below {
                            i + 1
                        } else {
                            i
                        },
                        child,
                    ),
                ),
                None => r is Err && final(self)@ == old(self)@,
            },
    {
        proof {
            lemma_first_place(self@.children, relative_id);
        }
        match position(&self.children, relative_id) {
            Some(index) => {
                let at = match dir {
                    Dir::Below => index + 1,
                    Dir::Above => index,
                };
                self.children.insert(at, child);
                Ok(())
            },
            None => Err(()),
        }
    }

    /// Makes `child` the last child. The child's own parent link is not touched.
    pub fn insert_child_last(&mut self, child: i32)
        ensures
            final(self)@ == old(self)@.with_children(old(self)@.children.push(child)),
    {
        self.children.push(child);
    }

    /// Makes `child` the first child. The child's own parent link is not touched.
    pub fn insert_child_first(&mut self, child: i32)
        ensures
            final(self)@ == old(self)@.with_children(old(self)@.children.insert(0, child)),
    {
        self.children.insert(0, child);
    }

    /// Takes `child_id` out of the children, wherever it stands among them.
    pub fn remove_child(&mut self, child_id: i32)
        ensures
            final(self)@ == old(self)@.with_children(without(old(self)@.children, child_id)),
    {
        let mut kept: Vec<i32> = Vec::new();
        let mut i: usize = 0;
        while i < self.children.len()
            invariant
                i <= self.children.len(),
                self@ == old(self)@,
                kept@ == without(self.children@.take(i as int), child_id),
            decreases self.children.len() - i,
        {
            let c = self.children[i];
            proof {
                reveal(Seq::filter);
                assert(self.children@.take(i + 1).drop_last() =~= self.children@.take(i as int));
            }
            if c != child_id {
                kept.push(c);
            }
            i += 1;
        }
        proof {
            assert(self.children@.take(i as int) =~= self.children@);
        }
        self.children = kept;
    }

    /// The sibling just above or just below this bullet among the children of
    /// `parent`: `None` where there is no parent, where the bullet is not among
    /// the parent's children, and at the end of the list.
    pub fn get_sibling(&self, parent: Option<&Node>, dir: Dir) -> (r: Option<i32>)
        ensures
            r == match parent {
                Some(p) => sibling_of(p@.children, self.id, dir),
                None => None,
            },
    {
        let siblings = match parent {
            Some(p) => &p.children,
            None => { return None; },
        };
        match position(siblings, self.id) {
            Some(index) => match dir {
                Dir::Below => if index + 1 < siblings.len() {
                    Some(siblings[index + 1])
                } else {
                    None
                },
                Dir::Above => if index > 0 {
                    Some(siblings[index - 1])
                } else {
                    None
                },
            },
            None => None,
        }
    }

    /// Whether this is the root of a document, whose identity is 0.
    pub fn is_root(&self) -> (r: bool)
        ensures
            r == (self.id == 0),
    {
        self.id == 0
    }
}

/// `s` without the entries that are `x`.
pub open spec fn without(s: Seq<i32>, x: i32) -> Seq<i32> {
    s.filter(|c: i32| c != x)
}

/// Taking out of a sequence what does not stand in it changes nothing.
pub proof fn lemma_without_absent(s: Seq<i32>, x: i32)
    requires
        !s.contains(x),
    ensures
        without(s, x) == s,
    decreases s.len(),
{
    reveal(Seq::filter);
    if s.len() > 0 {
        let front = s.drop_last();
        assert forall|j: int| 0 <= j < front.len() implies front[j] != x by {
            assert(s[j] == front[j]);
            assert(s.contains(s[j]));
        }
        lemma_without_absent(front, x);
        assert(s.contains(s.last()));
        assert(front.push(s.last()) =~= s);
    }
}

/// Where nothing stands twice, taking out `x` takes out the one entry at its
/// place.
pub proof fn lemma_without_is_remove(s: Seq<i32>, x: i32, i: int)
    requires
        s.no_duplicates(),
        0 <= i < s.len(),
        s[i] == x,
    ensures
        without(s, x) == s.remove(i),
    decreases s.len(),
{
    reveal(Seq::filter);
    let front = s.drop_last();
    if i == s.len() - 1 {
        assert forall|j: int| 0 <= j < front.len() implies front[j] != x by {
            assert(s[j] == front[j]);
        }
        lemma_without_absent(front, x);
        assert(s.remove(i) =~= front);
    } else {
        lemma_without_is_remove(front, x, i);
        assert(front.remove(i).push(s.last()) =~= s.remove(i));
    }
}

/// The neighbour of `x` in `s`: the entry before its first place for `Above`,
/// the entry behind it for `Below`.
pub open spec fn sibling_of(s: Seq<i32>, x: i32, dir: Dir) -> Option<i32> {
    match first_place(s, x) {
        Some(i) => if dir is Below {
            if i + 1 < s.len() {
                Some(s[i + 1])
            } else {
                None
            }
        } else {
            if i > 0 {
                Some(s[i - 1])
            } else {
                None
            }
        },
        None => None,
    }
}

} // verus!
