//! A lighter outline: bullets in a table keyed by identity, each of which
//! names the sibling that was active when it was made.

use crate::error::Error;
use crate::tree::node::without;
use std::collections::HashMap;
use vstd::prelude::*;

verus! {

broadcast use vstd::std_specs::hash::group_hash_axioms;

/// The source of identities of an outline. `gen` is expected to hand out an
/// identity that it has not handed out before; the outline relies on no such
/// promise, and turns down an identity that is already in use.
pub trait IdGenerator {
    /// A new identity.
    fn gen(&mut self) -> i32;
}

/// A bullet: its identity, its parent, the sibling above it, its children,
/// and its text.
#[derive(Debug)]
pub struct Node {
    pub id: i32,
    pub parent: Option<i32>,
    pub sibling: Option<i32>,
    pub children: Vec<i32>,
    pub content: String,
}

/// A bullet as a value.
pub struct NodeView {
    pub id: i32,
    pub parent: Option<i32>,
    pub sibling: Option<i32>,
    pub children: Seq<i32>,
    pub content: Seq<char>,
}

impl View for Node {
    type V = NodeView;

    open spec fn view(&self) -> NodeView {
        NodeView {
            id: self.id,
            parent: self.parent,
            sibling: self.sibling,
            children: self.children@,
            content: self.content@,
        }
    }
}

impl Node {
    /// A bullet with the identity `id` under `parent`, without a sibling,
    /// without children and without text.
    pub fn new(id: i32, parent: Option<i32>) -> (r: Node)
        ensures
            r@ == (NodeView {
                id,
                parent,
                sibling: None,
                children: Seq::empty(),
                content: Seq::empty(),
            }),
    {
        Node { id, parent, sibling: None, children: Vec::new(), content: String::new() }
    }
}

/// An outline as a value: its bullets, and the identity of the active one.
pub struct TreeView {
    pub nodes: Map<i32, NodeView>,
    pub active: i32,
}

impl TreeView {
    /// What holds of an outline at all times: every bullet stands under its
    /// own identity; the root, whose identity is 0, is there; the active
    /// bullet is there, is not the root, and has a parent in the outline; and
    /// the sibling that it names, if any, is another bullet of the outline,
    /// and not its parent.
    pub open spec fn wf(self) -> bool {
        let active = self.nodes[self.active];
        &&& forall|k: i32| #[trigger] self.nodes.contains_key(k) ==> self.nodes[k].id == k
        &&& self.nodes.contains_key(0)
        &&& self.nodes.contains_key(self.active)
        &&& self.active != 0
        &&& active.parent is Some
        &&& self.nodes.contains_key(active.parent->0)
        &&& active.parent->0 != self.active
        &&& active.sibling matches Some(s) ==> self.nodes.contains_key(s) && s != self.active && s
            != active.parent->0
    }

    /// A new outline: the root and one bullet, `first`, which is active.
    pub open spec fn initial(first: i32) -> TreeView {
        TreeView {
            nodes: map![
                0 => NodeView {
                    id: 0,
                    parent: None,
                    sibling: None,
                    children: seq![first],
                    content: Seq::empty(),
                },
                first => NodeView {
                    id: first,
                    parent: Some(0),
                    sibling: None,
                    children: Seq::empty(),
                    content: Seq::empty(),
                },
            ],
            active: first,
        }
    }

    /// The outline with a new bullet `id` at the level of the active one,
    /// which it names as its sibling and replaces as the active bullet.
    pub open spec fn with_sibling(self, id: i32) -> TreeView {
        TreeView {
            nodes: self.nodes.insert(
                id,
                NodeView {
                    id,
                    parent: self.nodes[self.active].parent,
                    sibling: Some(self.active),
                    children: Seq::empty(),
                    content: Seq::empty(),
                },
            ),
            active: id,
        }
    }

    /// The outline with the active bullet moved under the sibling that it
    /// names, as that sibling's last child.
    pub open spec fn indented(self) -> TreeView {
        let active = self.nodes[self.active];
        let p = active.parent->0;
        let s = active.sibling->0;
        TreeView {
            nodes: self.nodes.insert(
                p,
                NodeView { children: without(self.nodes[p].children, self.active), ..self.nodes[p] },
            ).insert(
                s,
                NodeView { children: self.nodes[s].children.push(self.active), ..self.nodes[s] },
            ).insert(self.active, NodeView { parent: Some(s), sibling: None, ..active }),
            ..self
        }
    }
}

/// The outline.
pub struct Tree<'a, G: IdGenerator + ?Sized> {
    active: i32,
    nodes: HashMap<i32, Node>,
    generator: &'a mut G,
}

impl<'a, G: IdGenerator + ?Sized> View for Tree<'a, G> {
    type V = TreeView;

    closed spec fn view(&self) -> TreeView {
        TreeView {
            nodes: Map::new(|k: i32| self.nodes@.contains_key(k), |k: i32| self.nodes@[k]@),
            active: self.active,
        }
    }
}

impl<'a, G: IdGenerator + ?Sized> Tree<'a, G> {
    /// The outline is well formed: see `TreeView::wf`.
    pub open spec fn wf(&self) -> bool {
        self@.wf()
    }

    /// A new outline, whose first bullet takes its identity from `generator`.
    /// Fails where the source hands out the root's identity: see `with_first`,
    /// which is given the identity.
    pub fn new(generator: &'a mut G) -> (r: Result<Tree<'a, G>, Error>)
        ensures
            match r {
                Ok(t) => t.wf() && exists|first: i32| first != 0 && t@ == TreeView::initial(first),
                Err(e) => e == Error::IdentityInUse,
            },
    {
        let id = generator.gen();
        Tree::with_first(generator, id)
    }

    /// A new outline whose first bullet has the identity `first`, and which
    /// takes the identities of the bullets to come from `generator`. Fails
    /// where `first` is the root's identity.
    pub fn with_first(generator: &'a mut G, first: i32) -> (r: Result<Tree<'a, G>, Error>)
        ensures
            r is Ok <==> first != 0,
            match r {
                Ok(t) => t.wf() && t@ == TreeView::initial(first),
                Err(e) => e == Error::IdentityInUse,
            },
    {
        if first == 0 {
            return Err(Error::IdentityInUse);
        }
        let mut nodes: HashMap<i32, Node> = HashMap::new();
        let mut root = Node::new(0, None);
        root.children.push(first);
        nodes.insert(0, root);
        nodes.insert(first, Node::new(first, Some(0)));
        let tree = Tree { active: first, nodes, generator };
        proof {
            assert(Seq::<i32>::empty().push(first) =~= seq![first]);
            assert(tree@.nodes =~= TreeView::initial(first).nodes);
        }
        Ok(tree)
    }

    /// The identity of the active bullet.
    pub fn active(&self) -> (r: i32)
        ensures
            r == self@.active,
    {
        self.active
    }

    /// The bullet with the identity `id`, if the outline holds it.
    pub fn get_node(&self, id: i32) -> (r: Option<&Node>)
        ensures
            match r {
                Some(n) => self@.nodes.contains_key(id) && n@ == self@.nodes[id],
                None => !self@.nodes.contains_key(id),
            },
    {
        self.nodes.get(&id)
    }

    /// Creates another bullet at the level of the active one, which it names
    /// as its sibling, and makes it the active one. Its identity comes from
    /// the identity source; where that identity is already in use, the call
    /// fails and changes nothing: see `insert_node`, which is given the
    /// identity.
    pub fn create_sibling(&mut self) -> (r: Result<(), Error>)
        requires
            old(self).wf(),
        ensures
            final(self).wf(),
            match r {
                Ok(_) => exists|id: i32|
                    !old(self)@.nodes.contains_key(id) && final(self)@ == old(self)@.with_sibling(
                        id,
                    ),
                Err(e) => e == Error::IdentityInUse && final(self)@ == old(self)@,
            },
    {
        let id = self.generator.gen();
        self.insert_node(id)
    }

    /// Creates another bullet, with the identity `id`, at the level of the
    /// active one, which it names as its sibling, and makes it the active
    /// one. Fails, and changes nothing, where the outline holds a bullet with
    /// that identity.
    pub fn insert_node(&mut self, id: i32) -> (r: Result<(), Error>)
        requires
            old(self).wf(),
        ensures
            final(self).wf(),
            r is Ok <==> !old(self)@.nodes.contains_key(id),
            match r {
                Ok(_) => final(self)@ == old(self)@.with_sibling(id),
                Err(e) => e == Error::IdentityInUse && final(self)@ == old(self)@,
            },
    {
        if self.nodes.contains_key(&id) {
            return Err(Error::IdentityInUse);
        }
        let parent = self.nodes.get(&self.active).unwrap().parent;
        let mut node = Node::new(id, parent);
        node.sibling = Some(self.active);
        self.nodes.insert(id, node);
        self.active = id;
        proof {
            assert(self@.nodes =~= old(self)@.with_sibling(id).nodes);
        }
        Ok(())
    }

    /// Moves the active bullet under the sibling that it names, as that
    /// sibling's last child; the bullet then names no sibling. Fails, and
    /// changes nothing, where the active bullet names no sibling.
    pub fn indent(&mut self) -> (r: Result<(), Error>)
        requires
            old(self).wf(),
        ensures
            final(self).wf(),
            r is Ok <==> old(self)@.nodes[old(self)@.active].sibling is Some,
            match r {
                Ok(_) => final(self)@ == old(self)@.indented(),
                Err(e) => e == Error::StructuralLimit && final(self)@ == old(self)@,
            },
    {
        let (parent_id, sibling_id) = {
            let active = self.nodes.get(&self.active).unwrap();
            match (active.parent, active.sibling) {
                (Some(p), Some(s)) => (p, s),
                _ => { return Err(Error::StructuralLimit); },
            }
        };
        let mut parent = self.nodes.remove(&parent_id).unwrap();
        let mut kept: Vec<i32> = Vec::new();
        let mut i: usize = 0;
        while i < parent.children.len()
            invariant
                i <= parent.children.len(),
                kept@ == without(parent.children@.take(i as int), self.active),
            decreases parent.children.len() - i,
        {
            let c = parent.children[i];
            proof {
                reveal(Seq::filter);
                assert(parent.children@.take(i + 1).drop_last() =~= parent.children@.take(
                    i as int,
                ));
            }
            if c != self.active {
                kept.push(c);
            }
            i += 1;
        }
        proof {
            assert(parent.children@.take(i as int) =~= parent.children@);
        }
        parent.children = kept;
        self.nodes.insert(parent_id, parent);
        let mut sibling = self.nodes.remove(&sibling_id).unwrap();
        sibling.children.push(self.active);
        self.nodes.insert(sibling_id, sibling);
        let mut active = self.nodes.remove(&self.active).unwrap();
        active.parent = Some(sibling_id);
        active.sibling = None;
        self.nodes.insert(self.active, active);
        proof {
            assert(self@.nodes =~= old(self)@.indented().nodes);
        }
        Ok(())
    }
}

} // verus!
