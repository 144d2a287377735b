//! Laws of the document: what its operations owe each other.

use super::model::{
    child_links_ok, extracted, forest_ok, grafted, ids_ok, in_subtree, lemma_active_place,
    lemma_deleted_wf, lemma_extracted_shape, lemma_place_of, lemma_pruned_shape,
    lemma_remove_no_duplicates, lemma_renamed_at, lemma_renamed_shape, lemma_subtree_rank,
    lemma_usable_names, lemma_with_subtree_wf, nth_ancestor, parent_links_ok, place_of, rank_of,
    ranked, renamed, renamed_node, renaming, subtree_ids, tree_shaped, usable_names, Forest,
    SubtreeView, TreeView,
};
use super::node::lemma_first_place_unique;
use super::Dir;
use vstd::prelude::*;

verus! {

/// What a well-formed document holds at all times. One bullet is active, and
/// it is not the root. The root has a child. Every bullet stands under its own
/// identity, so no two share one. Every bullet but the root has a parent, and
/// stands at exactly one place of exactly one bullet's children: its parent's.
/// And every bullet is the root or one of its descendants.
pub proof fn law_invariants(t: TreeView)
    requires
        t.wf(),
    ensures
        t.nodes.contains_key(t.active) && t.active != 0,
        t.nodes[0].children.len() >= 1,
        forall|k: i32| #[trigger] t.nodes.contains_key(k) ==> t.nodes[k].id == k,
        forall|k: i32| #[trigger] t.nodes.contains_key(k) ==> in_subtree(t.nodes, 0, k),
        forall|k: i32|
            #![trigger t.nodes.contains_key(k)]
            t.nodes.contains_key(k) && k != 0 ==> t.nodes[k].parent is Some && t.nodes.contains_key(
                t.nodes[k].parent->0,
            ) && t.nodes[t.nodes[k].parent->0].children[place_of(t.nodes, k)] == k,
        forall|k: i32, q: i32, j: int|
            #![trigger t.nodes.contains_key(k), t.nodes[q].children[j]]
            t.nodes.contains_key(k) && t.nodes.contains_key(q) && 0 <= j < t.nodes[q].children.len()
                && t.nodes[q].children[j] == k ==> t.nodes[k].parent == Some(q) && j == place_of(
                t.nodes,
                k,
            ),
{
    let f = t.nodes;
    assert forall|k: i32| #![trigger f.contains_key(k)] f.contains_key(k) && k != 0 implies f[k].parent is Some
        && f.contains_key(f[k].parent->0) && f[f[k].parent->0].children[place_of(f, k)] == k by {
        lemma_place_of(f, k);
    }
    assert forall|k: i32, q: i32, j: int|
        #![trigger f.contains_key(k), f[q].children[j]]
        f.contains_key(k) && f.contains_key(q) && 0 <= j < f[q].children.len()
            && f[q].children[j] == k implies f[k].parent == Some(q) && j == place_of(f, k) by {
        lemma_first_place_unique(f[q].children, k, j);
    }
}

/// The links that lead up from a bullet of a document are not changed by
/// what is hung into the document.
proof fn lemma_grafted_ancestor_old(f: Forest, root: i32, sub: Forest, r: i32, q: i32, at: int, x: i32, k: nat)
    requires
        tree_shaped(f, root),
        f.dom().disjoint(sub.dom()),
        sub.contains_key(r),
        f.contains_key(q),
        f.contains_key(x),
    ensures
        nth_ancestor(grafted(f, sub, r, q, at), x, k) == nth_ancestor(f, x, k),
        nth_ancestor(f, x, k) matches Some(a) ==> f.contains_key(a),
    decreases k,
{
    let g = grafted(f, sub, r, q, at);
    assert(!sub.dom().contains(x));
    assert(g.contains_key(x) && g[x].parent == f[x].parent);
    if k > 0 && f[x].parent is Some {
        lemma_grafted_ancestor_old(f, root, sub, r, q, at, f[x].parent->0, (k - 1) as nat);
    }
}

/// The links that lead up inside a tree are kept where the tree is hung into
/// a document.
proof fn lemma_grafted_ancestor_new(f: Forest, sub: Forest, r: i32, q: i32, at: int, x: i32, k: nat)
    requires
        tree_shaped(sub, r),
        f.dom().disjoint(sub.dom()),
        f.contains_key(q),
        sub.contains_key(x),
    ensures
        nth_ancestor(sub, x, k) matches Some(a) ==> nth_ancestor(grafted(f, sub, r, q, at), x, k)
            == Some(a),
    decreases k,
{
    let g = grafted(f, sub, r, q, at);
    assert(!f.dom().contains(x));
    if k > 0 && sub[x].parent is Some {
        assert(x != r && x != q);
        assert(g[x] == sub[x]);
        lemma_grafted_ancestor_new(f, sub, r, q, at, sub[x].parent->0, (k - 1) as nat);
    }
}

/// Where the links of a document lead up from a bullet of a tree that was
/// hung into it, they lead to a bullet of that tree, or to the bullet under
/// which the tree hangs, or above it.
proof fn lemma_grafted_ancestor_out(f: Forest, sub: Forest, r: i32, q: i32, at: int, x: i32, k: nat)
    requires
        tree_shaped(sub, r),
        f.dom().disjoint(sub.dom()),
        f.contains_key(q),
        sub.contains_key(x),
    ensures
        nth_ancestor(grafted(f, sub, r, q, at), x, k) matches Some(a) ==> sub.contains_key(a)
            || exists|j: nat| nth_ancestor(grafted(f, sub, r, q, at), q, j) == Some(a),
    decreases k,
{
    let g = grafted(f, sub, r, q, at);
    assert(!f.dom().contains(x));
    if k > 0 {
        if x == r {
            assert(g[r].parent == Some(q));
            if nth_ancestor(g, x, k) is Some {
                assert(nth_ancestor(g, q, (k - 1) as nat) == nth_ancestor(g, x, k));
            }
        } else {
            assert(g[x] == sub[x]);
            if sub[x].parent is Some {
                lemma_grafted_ancestor_out(f, sub, r, q, at, sub[x].parent->0, (k - 1) as nat);
            }
        }
    }
}

/// A copy of the active bullet and its descendants, pasted beside it under
/// new identities, stands in the document as a tree of the same shape and
/// with the same texts, its identities renumbered; and the bullets that were
/// copied stand there as before, with their identities, links and texts.
pub proof fn law_paste_round_trip(t: TreeView, fresh: Seq<i32>, dir: Dir)
    requires
        t.wf(),
        usable_names(t.subtree().nodes, t.active, fresh),
        t.nodes.dom().disjoint(t.subtree().renumbered(fresh).nodes.dom()),
    ensures
        ({
            let copy = t.subtree().renumbered(fresh);
            let after = t.with_subtree(copy.nodes, copy.root, dir);
            &&& after.wf()
            &&& after.subtree().nodes == copy.nodes
            &&& copy.nodes == renamed(t.subtree().nodes, t.subtree().names(fresh))
            &&& after.activated(t.active).subtree().nodes == t.subtree().nodes
        }),
{
    let f = t.nodes;
    let a = t.active;
    let orig = t.subtree();
    let copy = orig.renumbered(fresh);
    let sub = copy.nodes;
    let r = copy.root;
    let q = t.parent();
    let at = t.place_beside(dir);
    let after = t.with_subtree(sub, r, dir);
    let g = after.nodes;
    lemma_active_place(t);
    lemma_extracted_shape(f, a);
    lemma_usable_names(orig.nodes, a, fresh);
    lemma_renamed_shape(orig.nodes, a, orig.names(fresh));
    lemma_renamed_at(orig.nodes, orig.names(fresh), a);
    lemma_with_subtree_wf(t, sub, r, dir);
    assert(sub.contains_key(r));
    assert forall|x: i32| f.contains_key(x) implies !sub.contains_key(x) by {
        assert(f.dom().contains(x));
    }
    // the copy
    assert forall|x: i32| in_subtree(g, r, x) <==> sub.contains_key(x) by {
        if sub.contains_key(x) {
            assert(in_subtree(sub, r, x));
            let k = choose|k: nat| nth_ancestor(sub, x, k) == Some(r);
            lemma_grafted_ancestor_new(f, sub, r, q, at, x, k);
        }
        if in_subtree(g, r, x) && !sub.contains_key(x) {
            let k = choose|k: nat| nth_ancestor(g, x, k) == Some(r);
            assert(f.contains_key(x));
            lemma_grafted_ancestor_old(f, 0, sub, r, q, at, x, k);
        }
    }
    assert forall|x: i32| subtree_ids(g, r).contains(x) <==> sub.contains_key(x) by {}
    assert(extracted(g, r) =~= sub);
    // the bullets that were copied
    assert(!in_subtree(f, a, q)) by {
        if in_subtree(f, a, q) {
            lemma_subtree_rank(f, rank_of(f), a, q);
            assert(ranked(f, rank_of(f)));
            assert(rank_of(f)[f[q].children[t.place()]] < rank_of(f)[q]);
        }
    }
    assert forall|x: i32| in_subtree(g, a, x) <==> in_subtree(f, a, x) by {
        if f.contains_key(x) {
            if in_subtree(g, a, x) {
                let k = choose|k: nat| nth_ancestor(g, x, k) == Some(a);
                lemma_grafted_ancestor_old(f, 0, sub, r, q, at, x, k);
            }
            if in_subtree(f, a, x) {
                let k = choose|k: nat| nth_ancestor(f, x, k) == Some(a);
                lemma_grafted_ancestor_old(f, 0, sub, r, q, at, x, k);
            }
        } else if in_subtree(g, a, x) {
            assert(sub.contains_key(x));
            let k = choose|k: nat| nth_ancestor(g, x, k) == Some(a);
            lemma_grafted_ancestor_out(f, sub, r, q, at, x, k);
            let j = choose|j: nat| nth_ancestor(g, q, j) == Some(a);
            lemma_grafted_ancestor_old(f, 0, sub, r, q, at, q, j);
            assert(in_subtree(f, a, q));
        }
    }
    assert forall|x: i32| subtree_ids(g, a).contains(x) <==> subtree_ids(f, a).contains(x) by {}
    assert(extracted(g, a) =~= extracted(f, a));
}

/// Renumbering a copy gives it identities that it did not hold; and two
/// renumberings of the same copy with lists of new identities that share
/// none share no identity.
pub proof fn law_remap_disjoint(sub: SubtreeView, first: Seq<i32>, second: Seq<i32>)
    requires
        sub.wf(),
        usable_names(sub.nodes, sub.root, first),
        usable_names(sub.nodes, sub.root, second),
        forall|i: int, j: int|
            0 <= i < first.len() && 0 <= j < second.len() ==> first[i] != second[j],
    ensures
        sub.renumbered(first).nodes.dom().disjoint(sub.nodes.dom()),
        sub.renumbered(second).nodes.dom().disjoint(sub.nodes.dom()),
        sub.renumbered(first).nodes.dom().disjoint(sub.renumbered(second).nodes.dom()),
        sub.renumbered(first).wf(),
        sub.renumbered(second).wf(),
{
    lemma_renumbered_among(sub, first);
    lemma_renumbered_among(sub, second);
    let one = sub.renumbered(first).nodes;
    let two = sub.renumbered(second).nodes;
    assert forall|k: i32| one.contains_key(k) implies !sub.nodes.contains_key(k)
        && !two.contains_key(k) by {
        let i = choose|i: int| 0 <= i < first.len() && first[i] == k;
        if two.contains_key(k) {
            let j = choose|j: int| 0 <= j < second.len() && second[j] == k;
        }
    }
    assert forall|k: i32| two.contains_key(k) implies !sub.nodes.contains_key(k) by {
        let j = choose|j: int| 0 <= j < second.len() && second[j] == k;
    }
}

/// A renumbered copy is well formed, and its identities are among the new ones.
pub proof fn lemma_renumbered_among(sub: SubtreeView, fresh: Seq<i32>)
    requires
        sub.wf(),
        usable_names(sub.nodes, sub.root, fresh),
    ensures
        sub.renumbered(fresh).wf(),
        forall|k: i32| #[trigger] sub.renumbered(fresh).nodes.contains_key(k) ==> fresh.contains(k),
{
    let m = sub.names(fresh);
    lemma_usable_names(sub.nodes, sub.root, fresh);
    lemma_renamed_shape(sub.nodes, sub.root, m);
    assert forall|k2: i32| #[trigger] sub.renumbered(fresh).nodes.contains_key(k2) implies fresh.contains(
        k2,
    ) by {
        let k = choose|k: i32| sub.nodes.contains_key(k) && m[k] == k2;
        assert(fresh.contains(m[k]));
    }
}

/// Deleting the active bullet and putting the copy taken of it back below
/// the sibling that stood above it restores the document as it was.
pub proof fn law_delete_undo_below_sibling(t: TreeView)
    requires
        t.wf(),
        t.sibling(Dir::Above) is Some,
    ensures
        !t.is_last_bullet(),
        t.deleted().wf(),
        t.deleted().nodes.contains_key(t.subtree().above_sibling->0),
        t.deleted().activated(t.subtree().above_sibling->0).with_subtree(
            t.subtree().nodes,
            t.active,
            Dir::Below,
        ) == t,
{
    let f = t.nodes;
    let a = t.active;
    let p = t.parent();
    let at = t.place();
    let s = t.sibling(Dir::Above)->0;
    lemma_active_place(t);
    lemma_deleted_wf(t);
    lemma_pruned_shape(f, 0, a);
    lemma_extracted_shape(f, a);
    assert(s == f[p].children[at - 1]);
    assert(f.contains_key(f[p].children[at - 1]));
    let t1 = t.deleted().activated(s);
    let rest = f[p].children.remove(at);
    lemma_remove_no_duplicates(f[p].children, at);
    assert(rest[at - 1] == s);
    lemma_first_place_unique(rest, s, at - 1);
    assert(t1.nodes[s] == f[s]);
    assert(t1.parent() == p);
    assert(t1.place() == at - 1);
    assert(rest.insert(at, a) =~= f[p].children);
    let back = t1.with_subtree(t.subtree().nodes, a, Dir::Below);
    assert forall|x: i32| back.nodes.contains_key(x) <==> f.contains_key(x) by {
        assert(subtree_ids(f, a).contains(x) <==> in_subtree(f, a, x));
    }
    assert forall|x: i32| f.contains_key(x) implies back.nodes[x] == f[x] by {
        assert(subtree_ids(f, a).contains(x) <==> in_subtree(f, a, x));
    }
    assert(back.nodes =~= f);
}

/// Deleting the active bullet, where it is the first of several siblings,
/// and putting the copy taken of it back above the bullet that became active
/// restores the document as it was.
pub proof fn law_delete_undo_first_child(t: TreeView)
    requires
        t.wf(),
        t.sibling(Dir::Above) is None,
        t.sibling(Dir::Below) is Some,
    ensures
        !t.is_last_bullet(),
        t.deleted().wf(),
        t.deleted().with_subtree(t.subtree().nodes, t.active, Dir::Above) == t,
{
    let f = t.nodes;
    let a = t.active;
    let p = t.parent();
    let b = t.sibling(Dir::Below)->0;
    lemma_active_place(t);
    assert(t.place() == 0);
    lemma_deleted_wf(t);
    lemma_pruned_shape(f, 0, a);
    lemma_extracted_shape(f, a);
    assert(b == f[p].children[1]);
    assert(f.contains_key(f[p].children[1]));
    let t1 = t.deleted();
    let rest = f[p].children.remove(0);
    lemma_remove_no_duplicates(f[p].children, 0);
    assert(rest[0] == b);
    lemma_first_place_unique(rest, b, 0);
    assert(t1.nodes[b] == f[b]);
    assert(t1.parent() == p);
    assert(t1.place() == 0);
    assert(rest.insert(0, a) =~= f[p].children);
    let back = t1.with_subtree(t.subtree().nodes, a, Dir::Above);
    assert forall|x: i32| back.nodes.contains_key(x) <==> f.contains_key(x) by {
        assert(subtree_ids(f, a).contains(x) <==> in_subtree(f, a, x));
    }
    assert forall|x: i32| f.contains_key(x) implies back.nodes[x] == f[x] by {
        assert(subtree_ids(f, a).contains(x) <==> in_subtree(f, a, x));
    }
    assert(back.nodes =~= f);
}

/// Deleting the active bullet, where it is an only child, makes its parent
/// active; putting the copy taken of it back below that parent and indenting
/// it as the first child restores the document as it was.
pub proof fn law_delete_undo_only_child(t: TreeView)
    requires
        t.wf(),
        t.sibling(Dir::Above) is None,
        t.sibling(Dir::Below) is None,
        !t.is_last_bullet(),
    ensures
        t.deleted().wf(),
        t.deleted().active == t.parent(),
        t.deleted().with_subtree(t.subtree().nodes, t.active, Dir::Below).sibling(Dir::Above)
            == Some(t.parent()),
        t.deleted().with_subtree(t.subtree().nodes, t.active, Dir::Below).indented(true) == t,
{
    let f = t.nodes;
    let a = t.active;
    let p = t.parent();
    lemma_active_place(t);
    assert(t.place() == 0 && f[p].children.len() == 1);
    lemma_deleted_wf(t);
    lemma_pruned_shape(f, 0, a);
    lemma_extracted_shape(f, a);
    let t1 = t.deleted();
    assert(t1.active == p && p != 0);
    lemma_active_place(t1);
    let gp = f[p].parent->0;
    assert(f[p].children.remove(0) =~= Seq::<i32>::empty());
    assert(t1.nodes[p] == f[p].with_children(Seq::empty()));
    assert(t1.parent() == gp);
    assert(gp != p) by {
        assert(ranked(f, rank_of(f)));
        lemma_place_of(f, p);
        assert(rank_of(f)[f[gp].children[place_of(f, p)]] < rank_of(f)[gp]);
    }
    assert(!in_subtree(f, a, gp)) by {
        if in_subtree(f, a, gp) {
            lemma_subtree_rank(f, rank_of(f), a, gp);
            assert(ranked(f, rank_of(f)));
            lemma_place_of(f, p);
            assert(rank_of(f)[f[gp].children[place_of(f, p)]] < rank_of(f)[gp]);
            assert(rank_of(f)[f[p].children[0]] < rank_of(f)[p]);
        }
    }
    assert(t1.nodes[gp] == f[gp]);
    let at = t1.place();
    assert(t1.siblings() == f[gp].children);
    let t2 = t1.with_subtree(t.subtree().nodes, a, Dir::Below);
    lemma_with_subtree_wf(t1, t.subtree().nodes, a, Dir::Below);
    let wider = f[gp].children.insert(at + 1, a);
    assert(t2.nodes[gp].children == wider);
    assert(t2.nodes[a].parent == Some(gp));
    assert(wider[at + 1] == a && wider[at] == p);
    super::model::lemma_insert_no_duplicates(f[gp].children, at + 1, a);
    lemma_first_place_unique(wider, a, at + 1);
    assert(t2.sibling(Dir::Above) == Some(p));
    assert(wider.remove(at + 1) =~= f[gp].children);
    assert(Seq::<i32>::empty().insert(0, a) =~= f[p].children);
    let back = t2.indented(true);
    assert(t2.nodes[p] == t1.nodes[p]);
    assert forall|x: i32| back.nodes.contains_key(x) <==> f.contains_key(x) by {
        assert(subtree_ids(f, a).contains(x) <==> in_subtree(f, a, x));
    }
    assert forall|x: i32| f.contains_key(x) implies back.nodes[x] == f[x] by {
        assert(subtree_ids(f, a).contains(x) <==> in_subtree(f, a, x));
    }
    assert(back.nodes =~= f);
}

/// The names of the bullets of `g` after those of `sub` got the new names
/// `m`: every other bullet keeps its own.
pub open spec fn renamed_within(g: Forest, sub: Forest, m: Map<i32, i32>) -> Map<i32, i32> {
    Map::new(
        |k: i32| g.contains_key(k),
        |k: i32|
            if sub.contains_key(k) {
                m[k]
            } else {
                k
            },
    )
}

/// Hanging a tree under new names into a forest gives what hanging it in
/// under its own names gives, with its bullets named anew.
pub proof fn lemma_grafted_renamed(f: Forest, sub: Forest, r: i32, q: i32, at: int, m: Map<i32, i32>)
    requires
        forest_ok(f),
        tree_shaped(sub, r),
        f.contains_key(q),
        0 <= at <= f[q].children.len(),
        forall|x: i32| f.contains_key(x) ==> !sub.contains_key(x),
        renaming(sub, m),
        forall|k: i32|
            sub.contains_key(k) ==> !f.contains_key(#[trigger] m[k]) && !sub.contains_key(m[k]),
    ensures
        renaming(
            grafted(f, sub, r, q, at),
            renamed_within(grafted(f, sub, r, q, at), sub, m),
        ),
        grafted(f, renamed(sub, m), m[r], q, at) == renamed(
            grafted(f, sub, r, q, at),
            renamed_within(grafted(f, sub, r, q, at), sub, m),
        ),
{
    let g = grafted(f, sub, r, q, at);
    let w = renamed_within(g, sub, m);
    let new = renamed(sub, m);
    let left = grafted(f, new, m[r], q, at);
    let right = renamed(g, w);
    assert forall|k: i32| g.contains_key(k) <==> f.contains_key(k) || sub.contains_key(k) by {}
    assert(renaming(g, w)) by {
        assert forall|a: i32, b: i32|
            #![trigger g.contains_key(a), g.contains_key(b)]
            g.contains_key(a) && g.contains_key(b) && w[a] == w[b] implies a == b by {
            if sub.contains_key(a) && sub.contains_key(b) {
                assert(m[a] == m[b]);
            }
        }
    }
    assert forall|k: i32| sub.contains_key(k) implies new.contains_key(m[k]) && new[m[k]]
        == renamed_node(sub[k], m) by {
        lemma_renamed_at(sub, m, k);
    }
    assert forall|k: i32| g.contains_key(k) implies right.contains_key(w[k]) && right[w[k]]
        == renamed_node(g[k], w) by {
        lemma_renamed_at(g, w, k);
    }
    assert forall|k2: i32| left.contains_key(k2) <==> right.contains_key(k2) by {
        if new.contains_key(k2) {
            let k = choose|k: i32| sub.contains_key(k) && m[k] == k2;
            assert(g.contains_key(k) && w[k] == k2);
        }
        if f.contains_key(k2) {
            assert(g.contains_key(k2) && w[k2] == k2);
        }
        if right.contains_key(k2) {
            let k = choose|k: i32| g.contains_key(k) && w[k] == k2;
            if sub.contains_key(k) {
                assert(new.contains_key(m[k]));
            }
        }
    }
    assert forall|k2: i32| left.contains_key(k2) implies left[k2] == right[k2] by {
        if f.contains_key(k2) {
            let k = k2;
            assert(g.contains_key(k) && w[k] == k2);
            assert(!new.contains_key(k2)) by {
                if new.contains_key(k2) {
                    let j = choose|j: i32| sub.contains_key(j) && m[j] == k2;
                    assert(!f.contains_key(m[j]));
                }
            }
            let node = g[k];
            assert(node.parent matches Some(p) ==> f.contains_key(p));
            assert forall|i: int| 0 <= i < f[k].children.len() implies w[f[k].children[i]]
                == f[k].children[i] by {
                assert(f.contains_key(f[k].children[i]));
            }
            if k == q {
                assert(node.children.map_values(|c: i32| w[c]) =~= f[q].children.insert(
                    at,
                    m[r],
                ));
            } else {
                assert(node.children.map_values(|c: i32| w[c]) =~= f[k].children);
            }
        } else {
            let k = choose|k: i32| sub.contains_key(k) && m[k] == k2;
            assert(g.contains_key(k) && w[k] == k2);
            assert(sub[k].parent matches Some(p) ==> sub.contains_key(p));
            assert forall|i: int| 0 <= i < sub[k].children.len() implies w[sub[k].children[i]]
                == m[sub[k].children[i]] by {
                assert(sub.contains_key(sub[k].children[i]));
            }
            assert(g[k].children == sub[k].children);
            assert(g[k].children.map_values(|c: i32| w[c]) =~= sub[k].children.map_values(
                |c: i32| m[c],
            ));
            if k == r {
                assert(k2 == m[r]);
            } else {
                assert(k2 != m[r]);
            }
        }
    }
    assert(left =~= right);
}

/// A tree pasted below the active bullet and then indented as its first
/// child hangs where hanging it in as the first child at once puts it.
pub proof fn lemma_paste_then_indent(t: TreeView, sub: Forest, r: i32)
    requires
        t.wf(),
        tree_shaped(sub, r),
        forall|x: i32| t.nodes.contains_key(x) ==> !sub.contains_key(x),
    ensures
        t.with_subtree(sub, r, Dir::Below).sibling(Dir::Above) == Some(t.active),
        t.with_subtree(sub, r, Dir::Below).indented(true).nodes == grafted(
            t.nodes,
            sub,
            r,
            t.active,
            0,
        ),
        t.with_subtree(sub, r, Dir::Below).indented(true).active == r,
{
    let f = t.nodes;
    let p = t.active;
    let gp = t.parent();
    let at = t.place();
    lemma_active_place(t);
    assert(gp != p) by {
        assert(ranked(f, rank_of(f)));
        assert(rank_of(f)[f[gp].children[at]] < rank_of(f)[gp]);
    }
    let t2 = t.with_subtree(sub, r, Dir::Below);
    let g = t2.nodes;
    let wider = f[gp].children.insert(at + 1, r);
    assert(g[gp].children == wider);
    assert(g[r].parent == Some(gp));
    assert(!f[gp].children.contains(r)) by {
        if f[gp].children.contains(r) {
            let i = choose|i: int| 0 <= i < f[gp].children.len() && f[gp].children[i] == r;
            assert(f.contains_key(f[gp].children[i]));
        }
    }
    super::model::lemma_insert_no_duplicates(f[gp].children, at + 1, r);
    assert(wider[at + 1] == r && wider[at] == p);
    lemma_first_place_unique(wider, r, at + 1);
    assert(t2.sibling(Dir::Above) == Some(p));
    assert(wider.remove(at + 1) =~= f[gp].children);
    assert(g[p] == f[p]);
    assert(t2.indented(true).nodes =~= grafted(f, sub, r, p, 0));
}

/// Deleting the active bullet and putting the copy taken of it back under new
/// identities restores the document as it was, but for the identities of the
/// bullets that were deleted, which are the new ones. The copy is put back
/// below the sibling that stood above it; else above the sibling that stood
/// below it; else below its parent, and indented as that bullet's first
/// child.
pub proof fn law_delete_undo_renumbered(t: TreeView, fresh: Seq<i32>)
    requires
        t.wf(),
        !t.is_last_bullet(),
        usable_names(t.subtree().nodes, t.active, fresh),
        t.deleted().nodes.dom().disjoint(t.subtree().renumbered(fresh).nodes.dom()),
    ensures
        ({
            let copy = t.subtree().renumbered(fresh);
            let names = renamed_within(t.nodes, t.subtree().nodes, t.subtree().names(fresh));
            let back = if t.sibling(Dir::Above) is Some {
                t.deleted().activated(t.sibling(Dir::Above)->0).with_subtree(
                    copy.nodes,
                    copy.root,
                    Dir::Below,
                )
            } else if t.sibling(Dir::Below) is Some {
                t.deleted().with_subtree(copy.nodes, copy.root, Dir::Above)
            } else {
                t.deleted().with_subtree(copy.nodes, copy.root, Dir::Below).indented(true)
            };
            &&& renaming(t.nodes, names)
            &&& back.nodes == renamed(t.nodes, names)
            &&& back.active == names[t.active]
        }),
{
    let f = t.nodes;
    let a = t.active;
    let orig = t.subtree();
    let sub = orig.nodes;
    let m = orig.names(fresh);
    lemma_active_place(t);
    lemma_deleted_wf(t);
    lemma_extracted_shape(f, a);
    lemma_usable_names(sub, a, fresh);
    assert forall|x: i32| t.deleted().nodes.contains_key(x) implies !sub.contains_key(x) by {
        assert(subtree_ids(f, a).contains(x) <==> in_subtree(f, a, x));
    }
    assert forall|x: i32| t.deleted().nodes.contains_key(x) implies f.contains_key(x) by {}
    assert forall|k: i32| sub.contains_key(k) implies !t.deleted().nodes.contains_key(
        #[trigger] m[k],
    ) && !sub.contains_key(m[k]) by {
        assert(fresh.contains(m[k]));
        let i = choose|i: int| 0 <= i < fresh.len() && fresh[i] == m[k];
        assert(!sub.contains_key(fresh[i]));
        lemma_renamed_at(sub, m, k);
        assert(orig.renumbered(fresh).nodes.dom().contains(m[k]));
    }
    if t.sibling(Dir::Above) is Some {
        law_delete_undo_below_sibling(t);
        let t1 = t.deleted().activated(t.sibling(Dir::Above)->0);
        lemma_active_place(t1);
        lemma_grafted_renamed(
            t1.nodes,
            sub,
            a,
            t1.parent(),
            t1.place_beside(Dir::Below),
            m,
        );
    } else if t.sibling(Dir::Below) is Some {
        law_delete_undo_first_child(t);
        let t1 = t.deleted();
        lemma_active_place(t1);
        lemma_grafted_renamed(
            t1.nodes,
            sub,
            a,
            t1.parent(),
            t1.place_beside(Dir::Above),
            m,
        );
    } else {
        law_delete_undo_only_child(t);
        let t1 = t.deleted();
        lemma_renamed_shape(sub, a, m);
        lemma_renamed_at(sub, m, a);
        assert forall|x: i32| t1.nodes.contains_key(x) implies !renamed(sub, m).contains_key(x) by {
            if renamed(sub, m).contains_key(x) {
                let k = choose|k: i32| sub.contains_key(k) && m[k] == x;
                assert(!t1.nodes.contains_key(m[k]));
            }
        }
        lemma_paste_then_indent(t1, sub, a);
        lemma_paste_then_indent(t1, renamed(sub, m), m[a]);
        lemma_grafted_renamed(t1.nodes, sub, a, t1.active, 0, m);
    }
}

/// An indent as the last child, undone by an unindent, leaves the document
/// as it was.
pub proof fn law_indent_unindent(t: TreeView)
    requires
        t.wf(),
        t.sibling(Dir::Above) is Some,
    ensures
        t.indented(false).wf(),
        t.indented(false).parent() != 0,
        t.indented(false).unindented() == t,
{
    let f = t.nodes;
    let a = t.active;
    let p = t.parent();
    let at = t.place();
    let s = t.sibling(Dir::Above)->0;
    lemma_active_place(t);
    super::model::lemma_indented_wf(t, false);
    assert(s == f[p].children[at - 1]);
    assert(f.contains_key(s) && f[s].parent == Some(p));
    assert(s != p) by {
        assert(ranked(f, rank_of(f)));
        assert(rank_of(f)[f[p].children[at - 1]] < rank_of(f)[p]);
    }
    let t1 = t.indented(false);
    let rest = f[p].children.remove(at);
    lemma_remove_no_duplicates(f[p].children, at);
    assert(rest[at - 1] == s);
    lemma_first_place_unique(rest, s, at - 1);
    assert(t1.nodes[a].parent == Some(s));
    assert(t1.nodes[s].parent == Some(p));
    assert(t1.nodes[p].children == rest);
    let longer = f[s].children.push(a);
    assert(f[s].children.insert(f[s].children.len() as int, a) =~= longer);
    assert(!f[s].children.contains(a)) by {
        if f[s].children.contains(a) {
            let i = choose|i: int| 0 <= i < f[s].children.len() && f[s].children[i] == a;
            assert(f[f[s].children[i]].parent == Some(s));
        }
    }
    super::model::lemma_insert_no_duplicates(f[s].children, f[s].children.len() as int, a);
    lemma_first_place_unique(longer, a, f[s].children.len() as int);
    assert(longer.remove(f[s].children.len() as int) =~= f[s].children);
    assert(rest.insert(at, a) =~= f[p].children);
    let back = t1.unindented();
    assert(back.nodes =~= f);
}

} // verus!
