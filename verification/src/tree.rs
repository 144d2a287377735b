//! The document: a tree of bullets, held in a table keyed by identity.

pub mod laws;
pub mod model;
pub mod node;
pub mod outline;
pub mod traverse;

use crate::error::Error;
use model::{
    extracted, forest_of, forest_ok, Forest, in_subtree, lemma_active_place, lemma_deleted_wf, lemma_extracted_shape,
    lemma_indented_wf, lemma_initial_wf, lemma_names_of, lemma_renamed_at, lemma_renamed_shape,
    lemma_unindented_wf, lemma_usable_names, lemma_with_content_wf, lemma_with_sibling_wf,
    lemma_with_subtree_wf, names_of, rank_of, renamed, renamed_node, renaming, subtree_ids,
    usable_names, SubtreeView, TreeView,
};
use std::collections::HashSet;
use traverse::{
    level_order_ids, level_order_of, lemma_post_order_visits, post_order_ids, post_order_into,
    post_order_of,
};
use node::{lemma_first_place, lemma_without_is_remove, sibling_of, Node};
use std::collections::HashMap;
use vstd::prelude::*;

verus! {

broadcast use vstd::std_specs::hash::group_hash_axioms;

/// The source of identities of a tree. `gen` is expected to hand out an
/// identity that it has not handed out before; the tree relies on no such
/// promise, and turns down an identity that is already in use.
pub trait IdGenerator {
    /// A new identity.
    fn gen(&self) -> i32;
}

/// On which side of a bullet, among its siblings.
#[derive(Clone, Copy, Debug, PartialEq, Eq, Structural)]
pub enum Dir {
    Above,
    Below,
}

/// Takes the bullet `id` out of the table.
fn take_node(nodes: &mut HashMap<i32, Node>, id: i32) -> (r: Node)
    requires
        old(nodes)@.contains_key(id),
    ensures
        final(nodes)@ == old(nodes)@.remove(id),
        r == old(nodes)@[id],
{
    nodes.remove(&id).unwrap()
}

/// The document. Its root has the identity 0 and holds the top-level bullets;
/// one bullet other than the root is active, and the operations apply to it.
pub struct Tree {
    active: i32,
    nodes: HashMap<i32, Node>,
    generator: Box<dyn IdGenerator>,
}

impl View for Tree {
    type V = TreeView;

    closed spec fn view(&self) -> TreeView {
        TreeView { nodes: forest_of(self.nodes@), active: self.active }
    }
}

impl Tree {
    /// The document is well formed: see `TreeView::wf`.
    pub open spec fn wf(&self) -> bool {
        self@.wf()
    }

    /// A new document, whose first bullet takes its identity from `generator`.
    /// Fails where the source hands out the root's identity.
    pub fn new(generator: Box<dyn IdGenerator>) -> (r: Result<Tree, Error>)
        ensures
            match r {
                Ok(t) => t.wf() && exists|first: i32| first != 0 && t@ == TreeView::initial(first),
                Err(e) => e == Error::IdentityInUse,
            },
    {
        let first = generator.gen();
        Tree::with_first(generator, first)
    }

    /// A new document whose first bullet has the identity `first`. Fails where
    /// `first` is the root's identity.
    pub fn with_first(generator: Box<dyn IdGenerator>, first: i32) -> (r: Result<Tree, Error>)
        ensures
            r is Ok <==> first != 0,
            match r {
                Ok(t) => t.wf() && t@ == TreeView::initial(first),
                Err(e) => e == Error::IdentityInUse,
            },
    {
        if first == 0 {
            return Err(Error::IdentityInUse);
        }
        let mut nodes: HashMap<i32, Node> = HashMap::new();
        let mut root = Node::new(0, None);
        root.insert_child_last(first);
        nodes.insert(0, root);
        nodes.insert(first, Node::new(first, Some(0)));
        let tree = Tree { active: first, nodes, generator };
        proof {
            assert(Seq::<i32>::empty().push(first) =~= seq![first]);
            assert(tree@.nodes =~= TreeView::initial(first).nodes);
            lemma_initial_wf(first);
        }
        Ok(tree)
    }

    /// The identity of the active bullet.
    pub fn get_active_id(&self) -> (r: i32)
        ensures
            r == self@.active,
    {
        self.active
    }

    /// The bullet with the identity `id`, if the document holds it.
    pub fn get_node(&self, id: i32) -> (r: Option<&Node>)
        ensures
            match r {
                Some(n) => self@.nodes.contains_key(id) && n@ == self@.nodes[id],
                None => !self@.nodes.contains_key(id),
            },
    {
        self.nodes.get(&id)
    }

    /// The text of the active bullet.
    pub fn get_active_content(&self) -> (r: &String)
        requires
            self.wf(),
        ensures
            r@ == self@.nodes[self@.active].content,
    {
        &self.nodes.get(&self.active).unwrap().content
    }

    /// Makes the bullet `id` the active one. Fails where the document holds no
    /// such bullet, and for the root, which is never active.
    pub fn activate(&mut self, id: i32) -> (r: Result<(), Error>)
        requires
            old(self).wf(),
        ensures
            final(self).wf(),
            r is Ok <==> old(self)@.nodes.contains_key(id) && id != 0,
            match r {
                Ok(_) => final(self)@ == old(self)@.activated(id),
                Err(e) => e == Error::UnknownIdentity && final(self)@ == old(self)@,
            },
    {
        if id != 0 && self.nodes.contains_key(&id) {
            self.active = id;
            Ok(())
        } else {
            Err(Error::UnknownIdentity)
        }
    }

    /// The identity of the parent of the bullet `id`, which is not the root.
    fn parent_id(&self, id: i32) -> (r: i32)
        requires
            self.wf(),
            self@.nodes.contains_key(id),
            id != 0,
        ensures
            Some(r) == self@.nodes[id].parent,
            self@.nodes.contains_key(r),
    {
        self.nodes.get(&id).unwrap().parent.unwrap()
    }

    /// The sibling of the active bullet on the side `dir`, if there is one.
    fn active_sibling(&self, dir: Dir) -> (r: Option<i32>)
        requires
            self.wf(),
        ensures
            r == self@.sibling(dir),
            r matches Some(s) ==> self@.nodes.contains_key(s) && s != self@.active
                && self@.nodes[s].parent == Some(self@.parent()),
    {
        let parent_id = self.parent_id(self.active);
        let r = self.nodes.get(&self.active).unwrap().get_sibling(self.nodes.get(&parent_id), dir);
        proof {
            lemma_active_place(self@);
            let at = self@.place();
            if dir is Below {
                if at + 1 < self@.siblings().len() {
                    assert(self@.nodes.contains_key(self@.nodes[self@.parent()].children[at + 1]));
                }
            } else {
                if at > 0 {
                    assert(self@.nodes.contains_key(self@.nodes[self@.parent()].children[at - 1]));
                }
            }
        }
        r
    }

    /// Replaces the text of the active bullet.
    pub fn set_active_content(&mut self, content: String)
        requires
            old(self).wf(),
        ensures
            final(self).wf(),
            final(self)@ == old(self)@.with_content(content@),
    {
        let mut node = take_node(&mut self.nodes, self.active);
        node.content = content;
        self.nodes.insert(self.active, node);
        proof {
            assert(self@.nodes =~= old(self)@.with_content(content@).nodes);
            lemma_with_content_wf(old(self)@, content@);
        }
    }

    /// Puts a new empty bullet with the identity `id` beside the active
    /// bullet, under the same parent, and makes it the active one. Fails, and
    /// changes nothing, where the document holds a bullet `id` already.
    pub fn insert_node(&mut self, id: i32, dir: Dir) -> (r: Result<(), Error>)
        requires
            old(self).wf(),
        ensures
            final(self).wf(),
            r is Ok <==> !old(self)@.nodes.contains_key(id),
            match r {
                Ok(_) => final(self)@ == old(self)@.with_sibling(id, dir),
                Err(e) => e == Error::IdentityInUse && final(self)@ == old(self)@,
            },
    {
        if self.nodes.contains_key(&id) {
            return Err(Error::IdentityInUse);
        }
        let parent_id = self.parent_id(self.active);
        let mut parent = take_node(&mut self.nodes, parent_id);
        proof {
            lemma_active_place(old(self)@);
        }
        let _ = parent.insert_child_relative(self.active, dir, id);
        self.nodes.insert(parent_id, parent);
        self.nodes.insert(id, Node::new(id, Some(parent_id)));
        self.active = id;
        proof {
            assert(self@.nodes =~= old(self)@.with_sibling(id, dir).nodes);
            lemma_with_sibling_wf(old(self)@, id, dir);
        }
        Ok(())
    }

    /// Puts a new empty bullet on the side `dir` of the active one and makes
    /// it the active one. Its identity comes from the identity source; where
    /// that identity is already in use, the call fails and changes nothing.
    pub fn insert_new(&mut self, dir: Dir) -> (r: Result<(), Error>)
        requires
            old(self).wf(),
        ensures
            final(self).wf(),
            match r {
                Ok(_) => exists|id: i32|
                    !old(self)@.nodes.contains_key(id) && final(self)@ == old(self)@.with_sibling(
                        id,
                        dir,
                    ),
                Err(e) => e == Error::IdentityInUse && final(self)@ == old(self)@,
            },
    {
        let id = self.generator.gen();
        self.insert_node(id, dir)
    }

    /// Puts a new empty bullet just above the active one and makes it the
    /// active one. Its identity comes from the identity source; where that
    /// identity is already in use, the call fails and changes nothing.
    pub fn create_sibling_above(&mut self) -> (r: Result<(), Error>)
        requires
            old(self).wf(),
        ensures
            final(self).wf(),
            match r {
                Ok(_) => exists|id: i32|
                    !old(self)@.nodes.contains_key(id) && final(self)@ == old(self)@.with_sibling(
                        id,
                        Dir::Above,
                    ),
                Err(e) => e == Error::IdentityInUse && final(self)@ == old(self)@,
            },
    {
        self.insert_new(Dir::Above)
    }

    /// Puts a new empty bullet just below the active one and makes it the
    /// active one. Its identity comes from the identity source; where that
    /// identity is already in use, the call fails and changes nothing.
    pub fn create_sibling(&mut self) -> (r: Result<(), Error>)
        requires
            old(self).wf(),
        ensures
            final(self).wf(),
            match r {
                Ok(_) => exists|id: i32|
                    !old(self)@.nodes.contains_key(id) && final(self)@ == old(self)@.with_sibling(
                        id,
                        Dir::Below,
                    ),
                Err(e) => e == Error::IdentityInUse && final(self)@ == old(self)@,
            },
    {
        self.insert_new(Dir::Below)
    }

    /// Moves the active bullet, with its subtree, under the sibling above it:
    /// as that sibling's first child where `first` is set, else as its last.
    /// Fails, and changes nothing, where there is no sibling above.
    pub fn indent(&mut self, first: bool) -> (r: Result<(), Error>)
        requires
            old(self).wf(),
        ensures
            final(self).wf(),
            r is Ok <==> old(self)@.sibling(Dir::Above) is Some,
            match r {
                Ok(_) => final(self)@ == old(self)@.indented(first),
                Err(e) => e == Error::StructuralLimit && final(self)@ == old(self)@,
            },
    {
        let sibling = match self.active_sibling(Dir::Above) {
            Some(s) => s,
            None => { return Err(Error::StructuralLimit); },
        };
        let parent_id = self.parent_id(self.active);
        proof {
            lemma_active_place(old(self)@);
            lemma_without_is_remove(old(self)@.siblings(), self.active, old(self)@.place());
            lemma_indented_wf(old(self)@, first);
        }
        let mut parent = take_node(&mut self.nodes, parent_id);
        parent.remove_child(self.active);
        self.nodes.insert(parent_id, parent);
        let mut above = take_node(&mut self.nodes, sibling);
        if first {
            above.insert_child_first(self.active);
        } else {
            above.insert_child_last(self.active);
        }
        self.nodes.insert(sibling, above);
        let mut node = take_node(&mut self.nodes, self.active);
        node.parent = Some(sibling);
        self.nodes.insert(self.active, node);
        proof {
            let s = old(self)@.nodes[sibling].children;
            assert(s.push(self.active) =~= s.insert(s.len() as int, self.active));
            assert(self@.nodes =~= old(self)@.indented(first).nodes);
        }
        Ok(())
    }

    /// Moves the active bullet, with its subtree, out from under its parent,
    /// to the place just behind that parent. Fails, and changes nothing, where
    /// the parent is the root.
    pub fn unindent(&mut self) -> (r: Result<(), Error>)
        requires
            old(self).wf(),
        ensures
            final(self).wf(),
            r is Ok <==> old(self)@.parent() != 0,
            match r {
                Ok(_) => final(self)@ == old(self)@.unindented(),
                Err(e) => e == Error::StructuralLimit && final(self)@ == old(self)@,
            },
    {
        let parent_id = self.parent_id(self.active);
        if parent_id == 0 {
            return Err(Error::StructuralLimit);
        }
        let grandparent_id = self.parent_id(parent_id);
        proof {
            lemma_active_place(old(self)@);
            lemma_without_is_remove(old(self)@.siblings(), self.active, old(self)@.place());
            lemma_unindented_wf(old(self)@);
            model::lemma_place_of(old(self)@.nodes, parent_id);
            lemma_first_place(old(self)@.nodes[grandparent_id].children, parent_id);
            assert(grandparent_id != parent_id) by {
                let h = model::rank_of(old(self)@.nodes);
                assert(model::ranked(old(self)@.nodes, h));
                let at = model::place_of(old(self)@.nodes, parent_id);
                assert(h[old(self)@.nodes[grandparent_id].children[at]] < h[grandparent_id]);
            }
        }
        let mut parent = take_node(&mut self.nodes, parent_id);
        parent.remove_child(self.active);
        self.nodes.insert(parent_id, parent);
        let mut grandparent = take_node(&mut self.nodes, grandparent_id);
        let _ = grandparent.insert_child_relative(parent_id, Dir::Below, self.active);
        self.nodes.insert(grandparent_id, grandparent);
        let mut node = take_node(&mut self.nodes, self.active);
        node.parent = Some(grandparent_id);
        self.nodes.insert(self.active, node);
        proof {
            assert(self@.nodes =~= old(self)@.unindented().nodes);
        }
        Ok(())
    }

    /// Deletes the active bullet with all its descendants; none of their
    /// identities names a bullet afterwards. The sibling below becomes active,
    /// else the sibling above, else the parent. Fails, and changes nothing,
    /// where the active bullet is the last one left under the root.
    pub fn delete(&mut self) -> (r: Result<(), Error>)
        requires
            old(self).wf(),
        ensures
            final(self).wf(),
            r is Ok <==> !old(self)@.is_last_bullet(),
            match r {
                Ok(_) => final(self)@ == old(self)@.deleted(),
                Err(e) => e == Error::StructuralLimit && final(self)@ == old(self)@,
            },
    {
        let parent_id = self.parent_id(self.active);
        let below = self.active_sibling(Dir::Below);
        let above = self.active_sibling(Dir::Above);
        if parent_id == 0 && self.nodes.get(&parent_id).unwrap().children.len() == 1 {
            return Err(Error::StructuralLimit);
        }
        let successor = match below {
            Some(b) => b,
            None => match above {
                Some(a) => a,
                None => parent_id,
            },
        };
        let mut ids: Vec<i32> = Vec::new();
        post_order_into(&self.nodes, self.active, &mut ids);
        let ghost f = old(self)@.nodes;
        proof {
            lemma_active_place(old(self)@);
            lemma_without_is_remove(old(self)@.siblings(), self.active, old(self)@.place());
            lemma_deleted_wf(old(self)@);
            model::lemma_pruned_shape(f, 0, self.active);
            lemma_post_order_visits(f, rank_of(f), self.active);
            assert(ids@ =~= post_order_of(f, self.active));
        }
        let mut parent = take_node(&mut self.nodes, parent_id);
        parent.remove_child(self.active);
        self.nodes.insert(parent_id, parent);
        let ghost base = self.nodes@;
        let mut i: usize = 0;
        while i < ids.len()
            invariant
                i <= ids.len(),
                forall|k: i32|
                    #![trigger self.nodes@.contains_key(k)]
                    #![trigger base.contains_key(k)]
                    self.nodes@.contains_key(k) <==> base.contains_key(k) && !ids@.take(
                        i as int,
                    ).contains(k),
                forall|k: i32| #[trigger]
                    self.nodes@.contains_key(k) ==> self.nodes@[k] == base[k],
            decreases ids.len() - i,
        {
            let id = ids[i];
            let ghost prev = self.nodes@;
            self.nodes.remove(&id);
            proof {
                assert(self.nodes@ == prev.remove(id));
                let seen = ids@.take(i as int);
                let more = ids@.take(i + 1);
                assert(more =~= seen.push(id));
                lemma_push_contains(seen, id);
                assert forall|k: i32|
                    self.nodes@.contains_key(k) <==> base.contains_key(k) && !more.contains(
                        k,
                    ) by {
                    assert(more.contains(k) <==> seen.contains(k) || k == id);
                    assert(prev.contains_key(k) <==> base.contains_key(k) && !seen.contains(k));
                }
            }
            i += 1;
        }
        self.active = successor;
        proof {
            assert(ids@.take(i as int) =~= ids@);
            assert forall|k: i32| subtree_ids(f, old(self)@.active).contains(k) <==> ids@.contains(
                k,
            ) by {}
            assert(self@.nodes =~= old(self)@.deleted().nodes);
        }
        Ok(())
    }

    /// A detached copy of the active bullet and its descendants, which also
    /// records the bullet's parent and the sibling above it, if there is one.
    /// The document is not changed.
    pub fn get_subtree(&self) -> (r: Subtree)
        requires
            self.wf(),
        ensures
            r.wf(),
            r@ == self@.subtree(),
    {
        let parent_id = self.parent_id(self.active);
        let above = self.active_sibling(Dir::Above);
        let ids = post_order_ids(&self.nodes, self.active);
        let ghost f = self@.nodes;
        let mut nodes: HashMap<i32, Node> = HashMap::new();
        let mut i: usize = 0;
        while i < ids.len()
            invariant
                i <= ids.len(),
                f == forest_of(self.nodes@),
                forall|x: i32| ids@.contains(x) <==> in_subtree(f, self.active, x),
                forall|k: i32| #[trigger]
                    nodes@.contains_key(k) <==> ids@.take(i as int).contains(k),
                forall|k: i32| #[trigger]
                    nodes@.contains_key(k) ==> nodes@[k]@ == extracted(f, self.active)[k],
            decreases ids.len() - i,
        {
            let id = ids[i];
            proof {
                assert(ids@.contains(id));
                assert(subtree_ids(f, self.active).contains(id));
            }
            let mut node = self.nodes.get(&id).unwrap().clone();
            if id == self.active {
                node.parent = None;
            }
            nodes.insert(id, node);
            proof {
                let seen = ids@.take(i as int);
                let more = ids@.take(i + 1);
                assert(more =~= seen.push(id));
                lemma_push_contains(seen, id);
            }
            i += 1;
        }
        let r = Subtree { root: self.active, nodes, parent: Some(parent_id), above_sibling: above };
        proof {
            assert(ids@.take(i as int) =~= ids@);
            lemma_extracted_shape(f, self.active);
            assert(r@.nodes =~= extracted(f, self.active));
        }
        r
    }
}

/// A detached copy of a bullet and its descendants. Its identities are those
/// that the bullets had where they were copied; before the copy enters a
/// document, `make_unique` replaces them.
#[derive(Debug)]
pub struct Subtree {
    root: i32,
    nodes: HashMap<i32, Node>,
    parent: Option<i32>,
    above_sibling: Option<i32>,
}

impl View for Subtree {
    type V = SubtreeView;

    closed spec fn view(&self) -> SubtreeView {
        SubtreeView {
            root: self.root,
            nodes: forest_of(self.nodes@),
            parent: self.parent,
            above_sibling: self.above_sibling,
        }
    }
}

impl Clone for Subtree {
    /// A second copy, equal to this one.
    fn clone(&self) -> (r: Subtree)
        ensures
            r@ == self@,
    {
        Subtree {
            root: self.root,
            nodes: self.nodes.clone(),
            parent: self.parent,
            above_sibling: self.above_sibling,
        }
    }
}

impl Subtree {
    /// The copy is well formed: see `SubtreeView::wf`.
    pub open spec fn wf(&self) -> bool {
        self@.wf()
    }

    /// The identity of the copy's root.
    pub fn root_id(&self) -> (r: i32)
        ensures
            r == self@.root,
    {
        self.root
    }

    /// The identity of the parent that the bullet had when it was copied.
    pub fn parent(&self) -> (r: Option<i32>)
        ensures
            r == self@.parent,
    {
        self.parent
    }

    /// The identity of the sibling that stood above the bullet when it was
    /// copied, if there was one.
    pub fn above_sibling(&self) -> (r: Option<i32>)
        ensures
            r == self@.above_sibling,
    {
        self.above_sibling
    }

    /// The identities of the copy, level by level.
    pub fn ids(&self) -> (r: Vec<i32>)
        requires
            self.wf(),
        ensures
            r@ == level_order_of(self@.nodes, self@.root),
    {
        level_order_ids(&self.nodes, self.root)
    }

    /// The same copy with the identities of `fresh` in place of its own: the
    /// bullet at place `i` of the post-order gets the identity at place `i`.
    /// Fails where `fresh` has another length than the copy has bullets,
    /// holds an identity twice, or holds an identity of the copy.
    pub fn renumbered(&self, fresh: &Vec<i32>) -> (r: Result<Subtree, Error>)
        requires
            self.wf(),
        ensures
            r is Ok <==> usable_names(self@.nodes, self@.root, fresh@),
            match r {
                Ok(s) => s.wf() && s@ == self@.renumbered(fresh@) && s@.nodes.dom().disjoint(
                    self@.nodes.dom(),
                ) && forall|k: i32| #[trigger] s@.nodes.contains_key(k) ==> fresh@.contains(k),
                Err(e) => e == Error::IdentityInUse,
            },
    {
        let order = post_order_ids(&self.nodes, self.root);
        let ghost f = self@.nodes;
        let ghost m = names_of(order@, fresh@);
        if fresh.len() != order.len() {
            return Err(Error::IdentityInUse);
        }
        let mut names: HashMap<i32, i32> = HashMap::new();
        let mut taken: HashSet<i32> = HashSet::new();
        let mut i: usize = 0;
        while i < order.len()
            invariant
                i <= order.len(),
                fresh.len() == order.len(),
                f == forest_of(self.nodes@),
                names@ == names_of(order@.take(i as int), fresh@),
                forall|x: i32| taken@.contains(x) <==> fresh@.take(i as int).contains(x),
                fresh@.take(i as int).no_duplicates(),
                forall|j: int| 0 <= j < i ==> !f.contains_key(#[trigger] fresh@[j]),
            decreases order.len() - i,
        {
            let new = fresh[i];
            if self.nodes.contains_key(&new) || taken.contains(&new) {
                proof {
                    if taken@.contains(new) {
                        let seen = fresh@.take(i as int);
                        let j = choose|j: int| 0 <= j < seen.len() && seen[j] == new;
                        assert(fresh@[j] == fresh@[i as int]);
                    } else {
                        assert(f.contains_key(fresh@[i as int]));
                    }
                }
                return Err(Error::IdentityInUse);
            }
            names.insert(order[i], new);
            taken.insert(new);
            proof {
                let seen = fresh@.take(i as int);
                let more = fresh@.take(i + 1);
                assert(more =~= seen.push(new));
                lemma_push_contains(seen, new);
                assert forall|a: int, b: int|
                    0 <= a < more.len() && 0 <= b < more.len() && a != b implies more[a]
                    != more[b] by {
                    if a < i && b < i {
                        assert(seen[a] != seen[b]);
                    } else if a < i {
                        assert(seen.contains(seen[a]));
                    } else {
                        assert(seen.contains(seen[b]));
                    }
                }
                assert(order@.take(i + 1).drop_last() =~= order@.take(i as int));
            }
            i += 1;
        }
        proof {
            assert(order@.take(i as int) =~= order@);
            assert(fresh@.take(i as int) =~= fresh@);
            assert(usable_names(f, self.root, fresh@));
            lemma_usable_names(f, self.root, fresh@);
            lemma_names_of(order@, fresh@);
        }
        let mut nodes: HashMap<i32, Node> = HashMap::new();
        let mut j: usize = 0;
        while j < order.len()
            invariant
                j <= order.len(),
                f == forest_of(self.nodes@),
                self.wf(),
                m == names@,
                renaming(f, m),
                forall|x: i32| order@.contains(x) <==> in_subtree(f, self.root, x),
                forall|k: i32| m.contains_key(k) <==> order@.contains(k),
                forall|k: i32|
                    order@.take(j as int).contains(k) ==> nodes@.contains_key(#[trigger] m[k])
                        && nodes@[m[k]]@ == renamed_node(f[k], m),
                forall|k2: i32| #[trigger]
                    nodes@.contains_key(k2) ==> exists|k: i32|
                        order@.take(j as int).contains(k) && m[k] == k2,
            decreases order.len() - j,
        {
            let old_id = order[j];
            proof {
                assert(order@.contains(old_id));
                assert(f.contains_key(old_id));
            }
            let node = self.nodes.get(&old_id).unwrap();
            let parent = match node.parent {
                Some(p) => {
                    proof {
                        assert(f.contains_key(p));
                    }
                    Some(*names.get(&p).unwrap())
                },
                None => None,
            };
            let mut children: Vec<i32> = Vec::new();
            let mut c: usize = 0;
            while c < node.children.len()
                invariant
                    c <= node.children.len(),
                    f.contains_key(old_id),
                    node@ == f[old_id],
                    model::child_links_ok(f),
                    m == names@,
                    forall|k: i32| #[trigger] f.contains_key(k) ==> m.contains_key(k),
                    children@ == node.children@.take(c as int).map_values(|x: i32| m[x]),
                decreases node.children.len() - c,
            {
                let child = node.children[c];
                proof {
                    assert(f.contains_key(f[old_id].children[c as int]));
                }
                children.push(*names.get(&child).unwrap());
                proof {
                    assert(node.children@.take(c + 1).map_values(|x: i32| m[x])
                        =~= node.children@.take(c as int).map_values(|x: i32| m[x]).push(m[child]));
                }
                c += 1;
            }
            proof {
                assert(node.children@.take(c as int) =~= node.children@);
            }
            let new_id = *names.get(&old_id).unwrap();
            let renamed_one = Node { id: new_id, parent, children, content: node.content.clone() };
            proof {
                assert(f[old_id].id == old_id);
                assert(renamed_one@ == renamed_node(f[old_id], m));
            }
            let ghost before = nodes@;
            nodes.insert(new_id, renamed_one);
            proof {
                let seen = order@.take(j as int);
                let more = order@.take(j + 1);
                assert(more =~= seen.push(old_id));
                assert forall|k: i32| more.contains(k) implies nodes@.contains_key(
                    #[trigger] m[k],
                ) && nodes@[m[k]]@ == renamed_node(f[k], m) by {
                    let a = choose|a: int| 0 <= a < more.len() && more[a] == k;
                    assert(order@.contains(k));
                    assert(f.contains_key(k));
                    if a < j {
                        assert(seen[a] == k);
                        assert(seen.contains(k));
                        if m[k] == new_id {
                            assert(k == old_id);
                        }
                    }
                }
                assert forall|k2: i32| #[trigger] nodes@.contains_key(k2) implies exists|k: i32|
                    more.contains(k) && m[k] == k2 by {
                    if k2 == new_id {
                        assert(more[j as int] == old_id);
                        assert(more.contains(old_id) && m[old_id] == k2);
                    } else {
                        assert(before.contains_key(k2));
                        let k = choose|k: i32| seen.contains(k) && m[k] == k2;
                        let a = choose|a: int| 0 <= a < seen.len() && seen[a] == k;
                        assert(more[a] == k);
                        assert(more.contains(k) && m[k] == k2);
                    }
                }
            }
            j += 1;
        }
        proof {
            assert(f.contains_key(self.root));
        }
        let root = *names.get(&self.root).unwrap();
        let r = Subtree { root, nodes, parent: self.parent, above_sibling: self.above_sibling };
        proof {
            assert(order@.take(j as int) =~= order@);
            let g = renamed(f, m);
            assert forall|k2: i32| r@.nodes.contains_key(k2) <==> g.contains_key(k2) by {
                if r@.nodes.contains_key(k2) {
                    let k = choose|k: i32| order@.contains(k) && m[k] == k2;
                    assert(f.contains_key(k));
                }
                if g.contains_key(k2) {
                    let k = choose|k: i32| f.contains_key(k) && m[k] == k2;
                    assert(in_subtree(f, self.root, k));
                    assert(order@.contains(k));
                    assert(nodes@.contains_key(m[k]));
                }
            }
            assert forall|k2: i32| r@.nodes.contains_key(k2) implies r@.nodes[k2] == g[k2]
                && fresh@.contains(k2) && !f.contains_key(k2) by {
                let k = choose|k: i32| order@.contains(k) && m[k] == k2;
                assert(f.contains_key(k));
                lemma_renamed_at(f, m, k);
                assert(nodes@[m[k]]@ == renamed_node(f[k], m));
                assert(fresh@.contains(m[k]));
                let a = choose|a: int| 0 <= a < fresh@.len() && fresh@[a] == k2;
                assert(!f.contains_key(fresh@[a]));
            }
            assert(r@.nodes =~= g);
            lemma_renamed_shape(f, self.root, m);
            assert(r@ == self@.renumbered(fresh@));
        }
        Ok(r)
    }

    /// The same copy under identities drawn from `id_gen`, one for each
    /// bullet, in post-order. None of the new identities is one of the copy's
    /// old ones. Fails where the source hands out an identity twice, or one of
    /// the copy's own.
    pub fn make_unique(self, id_gen: &dyn IdGenerator) -> (r: Result<Subtree, Error>)
        requires
            self.wf(),
        ensures
            match r {
                Ok(s) => s.wf() && s@.nodes.dom().disjoint(self@.nodes.dom()) && exists|
                    fresh: Seq<i32>,
                |
                    #![trigger self@.renumbered(fresh)]
                    usable_names(self@.nodes, self@.root, fresh) && s@ == self@.renumbered(fresh)
                        && forall|k: i32| #[trigger]
                        s@.nodes.contains_key(k) ==> fresh.contains(k),
                Err(e) => e == Error::IdentityInUse,
            },
    {
        let count = post_order_ids(&self.nodes, self.root).len();
        let mut fresh: Vec<i32> = Vec::new();
        let mut i: usize = 0;
        while i < count
            invariant
                i <= count,
            decreases count - i,
        {
            fresh.push(id_gen.gen());
            i += 1;
        }
        self.renumbered(&fresh)
    }
}

impl Tree {
    /// Puts the copy `subtree` beside the active bullet, under the same
    /// parent, as it is, and makes its root the active bullet. Fails, and
    /// changes nothing, where the document holds one of the copy's identities.
    pub fn insert_unique(&mut self, subtree: Subtree, dir: Dir) -> (r: Result<(), Error>)
        requires
            old(self).wf(),
            subtree.wf(),
        ensures
            final(self).wf(),
            r is Ok <==> old(self)@.nodes.dom().disjoint(subtree@.nodes.dom()),
            match r {
                Ok(_) => final(self)@ == old(self)@.with_subtree(
                    subtree@.nodes,
                    subtree@.root,
                    dir,
                ),
                Err(e) => e == Error::IdentityInUse && final(self)@ == old(self)@,
            },
    {
        let ids = post_order_ids(&subtree.nodes, subtree.root);
        let ghost f = old(self)@.nodes;
        let ghost sub = subtree@.nodes;
        proof {
            assert forall|k: i32| sub.contains_key(k) implies ids@.contains(k) by {
                assert(in_subtree(sub, subtree.root, k));
            }
        }
        let mut i: usize = 0;
        while i < ids.len()
            invariant
                i <= ids.len(),
                self.wf(),
                self@ == old(self)@,
                f == forest_of(self.nodes@),
                sub == subtree@.nodes,
                forall|x: i32| ids@.contains(x) ==> sub.contains_key(x),
                forall|j: int| 0 <= j < i ==> !f.contains_key(#[trigger] ids@[j]),
            decreases ids.len() - i,
        {
            if self.nodes.contains_key(&ids[i]) {
                proof {
                    assert(ids@.contains(ids@[i as int]));
                    assert(f.dom().contains(ids@[i as int]) && sub.dom().contains(ids@[i as int]));
                }
                return Err(Error::IdentityInUse);
            }
            i += 1;
        }
        proof {
            assert forall|k: i32| f.dom().contains(k) implies !sub.dom().contains(k) by {
                if sub.contains_key(k) {
                    let j = choose|j: int| 0 <= j < ids@.len() && ids@[j] == k;
                    assert(!f.contains_key(ids@[j]));
                }
            }
            assert(f.dom().disjoint(sub.dom()));
            lemma_active_place(old(self)@);
            lemma_with_subtree_wf(old(self)@, sub, subtree.root, dir);
        }
        let parent_id = self.parent_id(self.active);
        let mut parent = take_node(&mut self.nodes, parent_id);
        let _ = parent.insert_child_relative(self.active, dir, subtree.root);
        self.nodes.insert(parent_id, parent);
        let ghost base = self.nodes@;
        let root = subtree.root;
        let mut rest = subtree.nodes;
        let mut j: usize = 0;
        while j < ids.len()
            invariant
                j <= ids.len(),
                sub.contains_key(root),
                forall|x: i32| ids@.contains(x) <==> sub.contains_key(x),
                forall|k: i32| #[trigger] base.contains_key(k) ==> !sub.contains_key(k),
                forall|k: i32|
                    #![trigger rest@.contains_key(k)]
                    rest@.contains_key(k) <==> sub.contains_key(k) && !ids@.take(
                        j as int,
                    ).contains(k),
                forall|k: i32| #[trigger] rest@.contains_key(k) ==> rest@[k]@ == sub[k],
                forall|k: i32|
                    #![trigger self.nodes@.contains_key(k)]
                    self.nodes@.contains_key(k) <==> base.contains_key(k) || ids@.take(
                        j as int,
                    ).contains(k),
                forall|k: i32| #[trigger] base.contains_key(k) ==> self.nodes@[k] == base[k],
                forall|k: i32|
                    ids@.take(j as int).contains(k) ==> (#[trigger] self.nodes@[k])@ == if k
                        == root {
                        sub[k].with_parent(Some(parent_id))
                    } else {
                        sub[k]
                    },
            decreases ids.len() - j,
        {
            let id = ids[j];
            let ghost rest_before = rest@;
            let ghost nodes_before = self.nodes@;
            match rest.remove(&id) {
                Some(node) => {
                    let mut node = node;
                    if id == root {
                        node.parent = Some(parent_id);
                    }
                    proof {
                        assert(ids@.contains(ids@[j as int]));
                    }
                    self.nodes.insert(id, node);
                },
                None => {},
            }
            proof {
                let seen = ids@.take(j as int);
                let more = ids@.take(j + 1);
                assert(more =~= seen.push(id));
                lemma_push_contains(seen, id);
                assert(ids@.contains(ids@[j as int]));
                assert forall|k: i32|
                    #![trigger rest@.contains_key(k)]
                    rest@.contains_key(k) <==> sub.contains_key(k) && !more.contains(k) by {
                    assert(rest_before.contains_key(k) <==> sub.contains_key(k) && !seen.contains(
                        k,
                    ));
                }
                assert forall|k: i32|
                    #![trigger self.nodes@.contains_key(k)]
                    self.nodes@.contains_key(k) <==> base.contains_key(k) || more.contains(k) by {
                    assert(nodes_before.contains_key(k) <==> base.contains_key(k) || seen.contains(
                        k,
                    ));
                    if k == id && !rest_before.contains_key(id) {
                        assert(seen.contains(id));
                    }
                }
                assert forall|k: i32| more.contains(k) implies (#[trigger] self.nodes@[k])@ == if k
                    == root {
                    sub[k].with_parent(Some(parent_id))
                } else {
                    sub[k]
                } by {
                    if k == id && !rest_before.contains_key(id) {
                        assert(seen.contains(id));
                    }
                    if k != id {
                        assert(seen.contains(k));
                    }
                }
            }
            j += 1;
        }
        self.active = root;
        proof {
            assert(ids@.take(j as int) =~= ids@);
            assert(self@.nodes =~= old(self)@.with_subtree(sub, root, dir).nodes);
        }
        Ok(())
    }

    /// Puts a copy of `subtree` beside the active bullet, under the same
    /// parent, and makes the copy's root the active bullet. Every bullet of
    /// the copy gets a new identity from the identity source; `subtree` and the
    /// bullets that the document held before keep theirs. Fails, and changes
    /// nothing, where the source hands out an identity twice, or one that the
    /// document or `subtree` holds.
    pub fn insert_subtree(&mut self, subtree: Subtree, dir: Dir) -> (r: Result<(), Error>)
        requires
            old(self).wf(),
            subtree.wf(),
        ensures
            final(self).wf(),
            match r {
                Ok(_) => exists|fresh: Seq<i32>|
                    #![trigger subtree@.renumbered(fresh)]
                    pasted(old(self)@, subtree@, fresh, dir, final(self)@),
                Err(e) => e == Error::IdentityInUse && final(self)@ == old(self)@,
            },
    {
        let renumbered = match subtree.make_unique(&*self.generator) {
            Ok(s) => s,
            Err(e) => { return Err(e); },
        };
        let ghost fresh = choose|fresh: Seq<i32>|
            #![trigger subtree@.renumbered(fresh)]
            usable_names(subtree@.nodes, subtree@.root, fresh) && renumbered@
                == subtree@.renumbered(fresh) && forall|k: i32| #[trigger]
                renumbered@.nodes.contains_key(k) ==> fresh.contains(k);
        let r = self.insert_unique(renumbered, dir);
        proof {
            if r is Ok {
                assert(pasted(old(self)@, subtree@, fresh, dir, self@));
            }
        }
        r
    }
}

/// What a paste makes of a document: `after` is `before` with the copy
/// `subtree`, under the identities of `fresh`, beside the active bullet. The
/// identities of `fresh` name the copy anew, and none of the copy's new
/// identities was in use in the document.
pub open spec fn pasted(
    before: TreeView,
    subtree: SubtreeView,
    fresh: Seq<i32>,
    dir: Dir,
    after: TreeView,
) -> bool {
    &&& usable_names(subtree.nodes, subtree.root, fresh)
    &&& before.nodes.dom().disjoint(subtree.renumbered(fresh).nodes.dom())
    &&& after == before.with_subtree(
        subtree.renumbered(fresh).nodes,
        subtree.renumbered(fresh).root,
        dir,
    )
}


/// An order in which a bullet and its descendants are visited.
#[derive(Clone, Copy, Debug, PartialEq, Eq, Structural)]
pub enum TraversalType {
    /// Every bullet after all of its descendants.
    PostOrder,
    /// Level by level: the bullet, its children, their children, and so on.
    Level,
}

/// A read-only cursor on one bullet of a document or of a detached copy.
#[derive(Clone, Copy)]
pub struct NodeIterator<'a> {
    nodes: &'a HashMap<i32, Node>,
    id: i32,
}

/// The cursors `v` stand on the bullets `ids` of the forest `f`, in that order.
pub open spec fn visits(v: Seq<NodeIterator<'_>>, f: Forest, ids: Seq<i32>) -> bool {
    &&& v.len() == ids.len()
    &&& forall|i: int|
        0 <= i < v.len() ==> (#[trigger] v[i]).wf() && v[i].forest() == f && v[i].spec_id()
            == ids[i]
}

impl<'a> NodeIterator<'a> {
    /// The bullets among which the cursor moves.
    pub closed spec fn forest(&self) -> Forest {
        forest_of(self.nodes@)
    }

    /// The identity of the bullet that the cursor stands on.
    pub closed spec fn spec_id(&self) -> i32 {
        self.id
    }

    /// The cursor stands on a bullet of a forest whose links agree.
    pub open spec fn wf(&self) -> bool {
        forest_ok(self.forest()) && self.forest().contains_key(self.spec_id())
    }

    /// The cursors on the bullets `ids`, which the forest holds.
    fn cursors(&self, ids: Vec<i32>) -> (r: Vec<NodeIterator<'a>>)
        requires
            forest_ok(self.forest()),
            forall|i: int| 0 <= i < ids@.len() ==> self.forest().contains_key(ids@[i]),
        ensures
            visits(r@, self.forest(), ids@),
    {
        let mut out: Vec<NodeIterator<'a>> = Vec::new();
        let mut i: usize = 0;
        while i < ids.len()
            invariant
                i <= ids.len(),
                forest_ok(self.forest()),
                forall|i: int| 0 <= i < ids@.len() ==> self.forest().contains_key(ids@[i]),
                visits(out@, self.forest(), ids@.take(i as int)),
            decreases ids.len() - i,
        {
            out.push(NodeIterator { nodes: self.nodes, id: ids[i] });
            i += 1;
        }
        proof {
            assert(ids@.take(i as int) =~= ids@);
        }
        out
    }

    /// The text of the bullet.
    pub fn content(&self) -> (r: &'a String)
        requires
            self.wf(),
        ensures
            r@ == self.forest()[self.spec_id()].content,
    {
        &self.nodes.get(&self.id).unwrap().content
    }

    /// The identity of the bullet.
    #[verifier::when_used_as_spec(spec_id)]
    pub fn id(&self) -> (r: i32)
        ensures
            r == self.spec_id(),
    {
        self.id
    }

    /// Cursors on the children of the bullet, in document order.
    pub fn children_iter(&self) -> (r: Vec<NodeIterator<'a>>)
        requires
            self.wf(),
        ensures
            visits(r@, self.forest(), self.forest()[self.spec_id()].children),
    {
        let node = self.nodes.get(&self.id).unwrap();
        let ids = node.children.clone();
        proof {
            assert(ids@ =~= node.children@);
            assert forall|i: int| 0 <= i < ids@.len() implies self.forest().contains_key(
                ids@[i],
            ) by {
                assert(self.forest().contains_key(self.forest()[self.id].children[i]));
            }
        }
        self.cursors(ids)
    }

    /// Cursors on the bullet and all its descendants, in the order `traversal`.
    pub fn traverse(self, traversal: TraversalType) -> (r: Vec<NodeIterator<'a>>)
        requires
            self.wf(),
        ensures
            visits(
                r@,
                self.forest(),
                match traversal {
                    TraversalType::PostOrder => post_order_of(self.forest(), self.spec_id()),
                    TraversalType::Level => level_order_of(self.forest(), self.spec_id()),
                },
            ),
    {
        let ghost f = self.forest();
        let ids = match traversal {
            TraversalType::PostOrder => {
                let ids = post_order_ids(self.nodes, self.id);
                proof {
                    assert forall|i: int| 0 <= i < ids@.len() implies f.contains_key(ids@[i]) by {
                        assert(ids@.contains(ids@[i]));
                    }
                }
                ids
            },
            TraversalType::Level => {
                let ids = level_order_ids(self.nodes, self.id);
                proof {
                    traverse::lemma_level_order_within(f, rank_of(f), seq![self.id], rank_of(f)[self.id] + 1);
                }
                ids
            },
        };
        self.cursors(ids)
    }

    /// A cursor on the parent of the bullet, if it has one.
    pub fn next_parent(&self) -> (r: Option<NodeIterator<'a>>)
        requires
            self.wf(),
        ensures
            match self.forest()[self.spec_id()].parent {
                Some(p) => r matches Some(it) && it.wf() && it.forest() == self.forest()
                    && it.spec_id() == p,
                None => r is None,
            },
    {
        match self.nodes.get(&self.id).unwrap().parent {
            Some(p) => {
                proof {
                    assert(self.forest().contains_key(self.id));
                }
                Some(NodeIterator { nodes: self.nodes, id: p })
            },
            None => None,
        }
    }

    /// A cursor on the sibling just above or just below the bullet, if there
    /// is one.
    pub fn next_sibling(&self, dir: Dir) -> (r: Option<NodeIterator<'a>>)
        requires
            self.wf(),
        ensures
            match self.forest()[self.spec_id()].parent {
                Some(p) => match sibling_of(self.forest()[p].children, self.spec_id(), dir) {
                    Some(s) => r matches Some(it) && it.wf() && it.forest() == self.forest()
                        && it.spec_id() == s,
                    None => r is None,
                },
                None => r is None,
            },
    {
        let node = self.nodes.get(&self.id).unwrap();
        let parent = match node.parent {
            Some(p) => {
                proof {
                    assert(self.forest().contains_key(self.id));
                }
                self.nodes.get(&p)
            },
            None => None,
        };
        match node.get_sibling(parent, dir) {
            Some(s) => {
                proof {
                    let p = self.forest()[self.id].parent->0;
                    let siblings = self.forest()[p].children;
                    lemma_first_place(siblings, self.id);
                    let at = node::first_place(siblings, self.id)->0;
                    if dir is Below {
                        assert(self.forest().contains_key(self.forest()[p].children[at + 1]));
                    } else {
                        assert(self.forest().contains_key(self.forest()[p].children[at - 1]));
                    }
                }
                Some(NodeIterator { nodes: self.nodes, id: s })
            },
            None => None,
        }
    }
}

impl Tree {
    /// A cursor on the root of the document.
    pub fn root_iter(&self) -> (r: NodeIterator<'_>)
        requires
            self.wf(),
        ensures
            r.wf(),
            r.forest() == self@.nodes,
            r.spec_id() == 0,
    {
        NodeIterator { nodes: &self.nodes, id: 0 }
    }

    /// A cursor on the active bullet.
    pub fn active_iter(&self) -> (r: NodeIterator<'_>)
        requires
            self.wf(),
        ensures
            r.wf(),
            r.forest() == self@.nodes,
            r.spec_id() == self@.active,
    {
        NodeIterator { nodes: &self.nodes, id: self.active }
    }
}

impl Subtree {
    /// A cursor on the root of the copy.
    pub fn root_itr(&self) -> (r: NodeIterator<'_>)
        requires
            self.wf(),
        ensures
            r.wf(),
            r.forest() == self@.nodes,
            r.spec_id() == self@.root,
    {
        NodeIterator { nodes: &self.nodes, id: self.root }
    }
}

/// A sequence with one more entry at its end holds that entry and what it
/// held before.
proof fn lemma_push_contains(seen: Seq<i32>, id: i32)
    ensures
        forall|k: i32| #[trigger] seen.push(id).contains(k) <==> seen.contains(k) || k == id,
{
    let more = seen.push(id);
    assert forall|k: i32| #[trigger] more.contains(k) <==> seen.contains(k) || k == id by {
        if seen.contains(k) {
            let j = choose|j: int| 0 <= j < seen.len() && seen[j] == k;
            assert(more[j] == k);
        }
        if k == id {
            assert(more[seen.len() as int] == k);
        }
        if more.contains(k) {
            let j = choose|j: int| 0 <= j < more.len() && more[j] == k;
            if j < seen.len() {
                assert(seen[j] == k);
            }
        }
    }
}

} // verus!
