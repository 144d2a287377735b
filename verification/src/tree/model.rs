//! The document as a value: a map from identities to bullets, the shape that
//! makes such a map a tree, and what each operation of the tree makes of it.

use super::node::{
    first_place, lemma_first_place, lemma_first_place_unique, sibling_of, Node, NodeView,
};
use super::traverse::{lemma_post_order_visits, post_order_of};
use super::Dir;
use vstd::prelude::*;

verus! {

/// Bullets by identity.
pub type Forest = Map<i32, NodeView>;

/// Every bullet stands under its own identity, and none has a child twice.
pub open spec fn ids_ok(f: Forest) -> bool {
    forall|k: i32| #[trigger] f.contains_key(k) ==> f[k].id == k && f[k].children.no_duplicates()
}

/// Every child of a bullet is in the map and names that bullet as its parent.
pub open spec fn child_links_ok(f: Forest) -> bool {
    forall|k: i32, i: int|
        f.contains_key(k) && 0 <= i < f[k].children.len() ==> f.contains_key(
            #[trigger] f[k].children[i],
        ) && f[f[k].children[i]].parent == Some(k)
}

/// Every bullet that names a parent is among that parent's children.
pub open spec fn parent_links_ok(f: Forest) -> bool {
    forall|k: i32| #[trigger]
        f.contains_key(k) ==> match f[k].parent {
            Some(p) => f.contains_key(p) && f[p].children.contains(k),
            None => true,
        }
}

/// `h` gives every child a smaller number than its parent: following child
/// links never comes back to where it started.
pub open spec fn ranked(f: Forest, h: Map<i32, nat>) -> bool {
    forall|k: i32, i: int|
        f.contains_key(k) && 0 <= i < f[k].children.len() ==> h[#[trigger] f[k].children[i]]
            < h[k]
}

/// The links of `f` agree with each other and hold no cycle.
pub open spec fn forest_ok(f: Forest) -> bool {
    &&& ids_ok(f)
    &&& child_links_ok(f)
    &&& parent_links_ok(f)
    &&& exists|h: Map<i32, nat>| ranked(f, h)
}

/// `f` is a tree under `root`: its links agree, and `root` is its one bullet
/// without a parent.
pub open spec fn tree_shaped(f: Forest, root: i32) -> bool {
    &&& forest_ok(f)
    &&& f.contains_key(root)
    &&& forall|k: i32| #[trigger] f.contains_key(k) ==> (f[k].parent is None <==> k == root)
}

/// Some numbering that shows `f` to hold no cycle, where there is one.
pub open spec fn rank_of(f: Forest) -> Map<i32, nat> {
    choose|h: Map<i32, nat>| ranked(f, h)
}

/// The bullet `k` parent links above `x`, as far as the links lead.
pub open spec fn nth_ancestor(f: Forest, x: i32, k: nat) -> Option<i32>
    decreases k,
{
    if k == 0 {
        Some(x)
    } else if f.contains_key(x) && f[x].parent is Some {
        nth_ancestor(f, f[x].parent->0, (k - 1) as nat)
    } else {
        None
    }
}

/// `x` is `a` or one of its descendants.
pub open spec fn in_subtree(f: Forest, a: i32, x: i32) -> bool {
    f.contains_key(x) && exists|k: nat| nth_ancestor(f, x, k) == Some(a)
}

/// The identities of `a` and of all its descendants.
pub open spec fn subtree_ids(f: Forest, a: i32) -> Set<i32> {
    Set::new(|x: i32| in_subtree(f, a, x))
}

/// `f` with the tree `sub`, whose root is `r`, hung under `q` as the child at
/// place `at`.
pub open spec fn grafted(f: Forest, sub: Forest, r: i32, q: i32, at: int) -> Forest {
    f.union_prefer_right(sub).insert(q, f[q].with_children(f[q].children.insert(at, r))).insert(
        r,
        sub[r].with_parent(Some(q)),
    )
}

/// Putting into a sequence without repeats something that it does not hold
/// leaves it without repeats.
pub proof fn lemma_insert_no_duplicates(s: Seq<i32>, at: int, x: i32)
    requires
        s.no_duplicates(),
        !s.contains(x),
        0 <= at <= s.len(),
    ensures
        s.insert(at, x).no_duplicates(),
        s.insert(at, x).contains(x),
        forall|y: i32| s.contains(y) ==> s.insert(at, x).contains(y),
        forall|y: i32| s.insert(at, x).contains(y) ==> y == x || s.contains(y),
{
    let t = s.insert(at, x);
    assert forall|i: int, j: int| 0 <= i < t.len() && 0 <= j < t.len() && i != j implies t[i]
        != t[j] by {
        let a = if i < at {
            i
        } else {
            i - 1
        };
        let b = if j < at {
            j
        } else {
            j - 1
        };
        if i != at && j != at {
            assert(t[i] == s[a] && t[j] == s[b]);
        } else if i == at {
            assert(t[j] == s[b]);
            assert(s.contains(s[b]));
        } else {
            assert(t[i] == s[a]);
            assert(s.contains(s[a]));
        }
    }
    assert(t[at] == x);
    assert forall|y: i32| s.contains(y) implies t.contains(y) by {
        let i = choose|i: int| 0 <= i < s.len() && s[i] == y;
        if i < at {
            assert(t[i] == y);
        } else {
            assert(t[i + 1] == y);
        }
    }
    assert forall|y: i32| t.contains(y) implies y == x || s.contains(y) by {
        let i = choose|i: int| 0 <= i < t.len() && t[i] == y;
        if i < at {
            assert(s[i] == y);
        } else if i > at {
            assert(s[i - 1] == y);
        }
    }
}

/// Hanging a tree under a bullet of another tree, with which it shares no
/// identity, gives a tree.
pub proof fn lemma_grafted_shape(f: Forest, root: i32, sub: Forest, r: i32, q: i32, at: int)
    requires
        tree_shaped(f, root),
        tree_shaped(sub, r),
        f.dom().disjoint(sub.dom()),
        f.contains_key(q),
        0 <= at <= f[q].children.len(),
    ensures
        tree_shaped(grafted(f, sub, r, q, at), root),
{
    let g = grafted(f, sub, r, q, at);
    let hf = rank_of(f);
    let hs = rank_of(sub);
    let h = Map::<i32, nat>::new(
        |x: i32| true,
        |x: i32|
            if sub.contains_key(x) {
                hs[x]
            } else {
                (hf[x] + hs[r] + 1) as nat
            },
    );
    assert forall|k: i32| f.contains_key(k) implies !sub.contains_key(k) by {
        assert(f.dom().contains(k));
    }
    assert forall|k: i32| g.contains_key(k) implies f.contains_key(k) || sub.contains_key(k) by {}
    let qc = f[q].children;
    assert(!qc.contains(r)) by {
        if qc.contains(r) {
            let i = choose|i: int| 0 <= i < qc.len() && qc[i] == r;
            assert(f.contains_key(f[q].children[i]));
        }
    }
    lemma_insert_no_duplicates(qc, at, r);
    assert(ids_ok(g));
    assert forall|k: i32, i: int| g.contains_key(k) && 0 <= i < g[k].children.len() implies ({
        let c = #[trigger] g[k].children[i];
        g.contains_key(c) && g[c].parent == Some(k) && h[c] < h[k]
    }) by {
        let c = g[k].children[i];
        if k == r {
            assert(c == sub[r].children[i]);
            assert(sub.contains_key(c) && sub[c].parent == Some(r));
        } else if k == q {
            if i < at {
                assert(c == f[q].children[i]);
                assert(f.contains_key(c) && f[c].parent == Some(q));
            } else if i > at {
                assert(c == f[q].children[i - 1]);
                assert(f.contains_key(c) && f[c].parent == Some(q));
            } else {
                assert(c == r);
            }
        } else if sub.contains_key(k) {
            assert(c == sub[k].children[i]);
            assert(sub.contains_key(c) && sub[c].parent == Some(k));
        } else {
            assert(c == f[k].children[i]);
            assert(f.contains_key(c) && f[c].parent == Some(k));
        }
    }
    assert(child_links_ok(g));
    assert(ranked(g, h));
    assert forall|k: i32| #[trigger] g.contains_key(k) implies (match g[k].parent {
        Some(p) => g.contains_key(p) && g[p].children.contains(k),
        None => true,
    }) && (g[k].parent is None <==> k == root) by {
        if k == r {
        } else if sub.contains_key(k) {
            assert(sub[k].parent is Some);
            let p = sub[k].parent->0;
            assert(sub.contains_key(p) && sub[p].children.contains(k));
        } else {
            assert(f.contains_key(k));
            if f[k].parent is Some {
                let p = f[k].parent->0;
                assert(f.contains_key(p) && f[p].children.contains(k));
            }
        }
    }
    assert(parent_links_ok(g));
}


/// A bullet is in its own subtree.
pub proof fn lemma_subtree_holds_root(f: Forest, a: i32)
    requires
        f.contains_key(a),
    ensures
        in_subtree(f, a, a),
{
    assert(nth_ancestor(f, a, 0) == Some(a));
}

/// The children of a bullet of a subtree are in the subtree.
pub proof fn lemma_subtree_holds_children(f: Forest, a: i32, x: i32, i: int)
    requires
        child_links_ok(f),
        in_subtree(f, a, x),
        0 <= i < f[x].children.len(),
    ensures
        in_subtree(f, a, f[x].children[i]),
{
    let c = f[x].children[i];
    let k = choose|k: nat| nth_ancestor(f, x, k) == Some(a);
    assert(f.contains_key(c) && f[c].parent == Some(x));
    assert(nth_ancestor(f, c, k + 1) == nth_ancestor(f, x, k));
}

/// A bullet of a subtree, other than the subtree's root, has its parent in
/// the subtree.
pub proof fn lemma_subtree_holds_parent(f: Forest, a: i32, x: i32)
    requires
        parent_links_ok(f),
        in_subtree(f, a, x),
        x != a,
    ensures
        f[x].parent is Some,
        in_subtree(f, a, f[x].parent->0),
{
    let k = choose|k: nat| nth_ancestor(f, x, k) == Some(a);
    assert(k > 0);
    assert(nth_ancestor(f, f[x].parent->0, (k - 1) as nat) == Some(a));
}

/// A bullet that stands `k` links above another has a larger number, where
/// `k` is not 0.
pub proof fn lemma_ancestor_rank(f: Forest, h: Map<i32, nat>, x: i32, k: nat, a: i32)
    requires
        parent_links_ok(f),
        ranked(f, h),
        f.contains_key(x),
        nth_ancestor(f, x, k) == Some(a),
    ensures
        f.contains_key(a),
        k == 0 ==> a == x,
        k > 0 ==> h[x] < h[a],
    decreases k,
{
    if k > 0 {
        let p = f[x].parent->0;
        assert(f.contains_key(p) && f[p].children.contains(x));
        let i = choose|i: int| 0 <= i < f[p].children.len() && f[p].children[i] == x;
        assert(h[f[p].children[i]] < h[p]);
        lemma_ancestor_rank(f, h, p, (k - 1) as nat, a);
    }
}

/// No bullet of a subtree has a larger number than the subtree's root.
pub proof fn lemma_subtree_rank(f: Forest, h: Map<i32, nat>, a: i32, x: i32)
    requires
        parent_links_ok(f),
        ranked(f, h),
        in_subtree(f, a, x),
    ensures
        h[x] <= h[a],
        f.contains_key(a),
{
    let k = choose|k: nat| nth_ancestor(f, x, k) == Some(a);
    lemma_ancestor_rank(f, h, x, k, a);
}

/// Taking one entry out of a sequence without repeats leaves the others, and
/// no repeats.
pub proof fn lemma_remove_no_duplicates(s: Seq<i32>, i: int)
    requires
        s.no_duplicates(),
        0 <= i < s.len(),
    ensures
        s.remove(i).no_duplicates(),
        !s.remove(i).contains(s[i]),
        forall|y: i32| s.contains(y) && y != s[i] ==> s.remove(i).contains(y),
        forall|y: i32| s.remove(i).contains(y) ==> s.contains(y),
{
    let t = s.remove(i);
    assert forall|y: i32| s.contains(y) && y != s[i] implies t.contains(y) by {
        let j = choose|j: int| 0 <= j < s.len() && s[j] == y;
        if j < i {
            assert(t[j] == y);
        } else {
            assert(t[j - 1] == y);
        }
    }
    assert forall|y: i32| t.contains(y) implies s.contains(y) && y != s[i] by {
        let j = choose|j: int| 0 <= j < t.len() && t[j] == y;
        if j < i {
            assert(s[j] == y);
        } else {
            assert(s[j + 1] == y);
        }
    }
}

/// The place of `a` among the children of its parent.
pub open spec fn place_of(f: Forest, a: i32) -> int {
    first_place(f[f[a].parent->0].children, a)->0
}

/// In a forest whose links agree, a bullet with a parent stands among the
/// parent's children, at `place_of`.
pub proof fn lemma_place_of(f: Forest, a: i32)
    requires
        parent_links_ok(f),
        f.contains_key(a),
        f[a].parent is Some,
    ensures
        f.contains_key(f[a].parent->0),
        0 <= place_of(f, a) < f[f[a].parent->0].children.len(),
        f[f[a].parent->0].children[place_of(f, a)] == a,
{
    lemma_first_place(f[f[a].parent->0].children, a);
}

/// `f` with the bullet `a` and its subtree taken from under its parent and
/// hung under `q` as the child at place `at`.
pub open spec fn moved(f: Forest, a: i32, q: i32, at: int) -> Forest {
    let p = f[a].parent->0;
    f.insert(p, f[p].with_children(f[p].children.remove(place_of(f, a)))).insert(
        q,
        f[q].with_children(f[q].children.insert(at, a)),
    ).insert(a, f[a].with_parent(Some(q)))
}

/// Moving a subtree under a bullet outside it, other than its present parent,
/// gives a tree.
pub proof fn lemma_moved_shape(f: Forest, root: i32, a: i32, q: i32, at: int)
    requires
        tree_shaped(f, root),
        f.contains_key(a),
        a != root,
        f.contains_key(q),
        !in_subtree(f, a, q),
        q != f[a].parent->0,
        0 <= at <= f[q].children.len(),
    ensures
        tree_shaped(moved(f, a, q, at), root),
{
    let g = moved(f, a, q, at);
    let p = f[a].parent->0;
    let hf = rank_of(f);
    let h = Map::<i32, nat>::new(
        |x: i32| true,
        |x: i32|
            if in_subtree(f, a, x) {
                hf[x]
            } else {
                (hf[x] + hf[a] + 1) as nat
            },
    );
    lemma_place_of(f, a);
    let at_p = place_of(f, a);
    let pc = f[p].children;
    let qc = f[q].children;
    lemma_remove_no_duplicates(pc, at_p);
    lemma_subtree_holds_root(f, a);
    assert(!qc.contains(a)) by {
        if qc.contains(a) {
            let i = choose|i: int| 0 <= i < qc.len() && qc[i] == a;
            assert(f[f[q].children[i]].parent == Some(q));
        }
    }
    lemma_insert_no_duplicates(qc, at, a);
    assert(!in_subtree(f, a, p)) by {
        if in_subtree(f, a, p) {
            lemma_subtree_rank(f, hf, a, p);
            assert(hf[f[p].children[at_p]] < hf[p]);
        }
    }
    assert(ids_ok(g));
    assert forall|k: i32, i: int| g.contains_key(k) && 0 <= i < g[k].children.len() implies ({
        let c = #[trigger] g[k].children[i];
        g.contains_key(c) && g[c].parent == Some(k) && h[c] < h[k]
    }) by {
        let c = g[k].children[i];
        assert(f.contains_key(k));
        if k == q {
            if i == at {
                assert(c == a);
            } else {
                let j = if i < at {
                    i
                } else {
                    i - 1
                };
                assert(c == f[q].children[j]);
                assert(f.contains_key(c) && f[c].parent == Some(q));
                assert(hf[f[q].children[j]] < hf[q]);
                if in_subtree(f, a, c) {
                    lemma_subtree_holds_parent(f, a, c);
                }
            }
        } else if k == p {
            let j = if i < at_p {
                i
            } else {
                i + 1
            };
            assert(c == f[p].children[j]);
            assert(f.contains_key(c) && f[c].parent == Some(p));
            assert(hf[f[p].children[j]] < hf[p]);
            if in_subtree(f, a, c) {
                lemma_subtree_holds_parent(f, a, c);
            }
        } else {
            assert(c == f[k].children[i]);
            assert(f.contains_key(c) && f[c].parent == Some(k));
            assert(hf[f[k].children[i]] < hf[k]);
            assert(c != a);
            if in_subtree(f, a, k) {
                lemma_subtree_holds_children(f, a, k, i);
            } else if in_subtree(f, a, c) {
                lemma_subtree_holds_parent(f, a, c);
            }
        }
    }
    assert(child_links_ok(g));
    assert(ranked(g, h));
    assert forall|k: i32| #[trigger] g.contains_key(k) implies (match g[k].parent {
        Some(p2) => g.contains_key(p2) && g[p2].children.contains(k),
        None => true,
    }) && (g[k].parent is None <==> k == root) by {
        assert(f.contains_key(k));
        if k == a {
        } else if f[k].parent is Some {
            let p2 = f[k].parent->0;
            assert(f.contains_key(p2) && f[p2].children.contains(k));
        }
    }
    assert(parent_links_ok(g));
}

/// `f` without the bullet `a` and its subtree.
pub open spec fn pruned(f: Forest, a: i32) -> Forest {
    let p = f[a].parent->0;
    f.remove_keys(subtree_ids(f, a)).insert(
        p,
        f[p].with_children(f[p].children.remove(place_of(f, a))),
    )
}

/// Taking a subtree out of a tree, below the root, leaves a tree.
pub proof fn lemma_pruned_shape(f: Forest, root: i32, a: i32)
    requires
        tree_shaped(f, root),
        f.contains_key(a),
        a != root,
    ensures
        tree_shaped(pruned(f, a), root),
        pruned(f, a).contains_key(f[a].parent->0),
        forall|x: i32| pruned(f, a).contains_key(x) <==> f.contains_key(x) && !in_subtree(f, a, x),
        forall|x: i32|
            f.contains_key(x) && x != a && f[x].parent == f[a].parent ==> !in_subtree(f, a, x),
{
    let g = pruned(f, a);
    let p = f[a].parent->0;
    let hf = rank_of(f);
    lemma_place_of(f, a);
    let at_p = place_of(f, a);
    let pc = f[p].children;
    lemma_remove_no_duplicates(pc, at_p);
    lemma_subtree_holds_root(f, a);
    assert(!in_subtree(f, a, p)) by {
        if in_subtree(f, a, p) {
            lemma_subtree_rank(f, hf, a, p);
            assert(hf[f[p].children[at_p]] < hf[p]);
        }
    }
    assert(!in_subtree(f, a, root)) by {
        if in_subtree(f, a, root) {
            lemma_subtree_holds_parent(f, a, root);
        }
    }
    assert forall|x: i32| g.contains_key(x) <==> f.contains_key(x) && !in_subtree(f, a, x) by {
        assert(subtree_ids(f, a).contains(x) <==> in_subtree(f, a, x));
    }
    assert forall|x: i32|
        f.contains_key(x) && x != a && f[x].parent == f[a].parent implies !in_subtree(
        f,
        a,
        x,
    ) by {
        if in_subtree(f, a, x) {
            lemma_subtree_holds_parent(f, a, x);
        }
    }
    assert(ids_ok(g));
    assert forall|k: i32, i: int| g.contains_key(k) && 0 <= i < g[k].children.len() implies ({
        let c = #[trigger] g[k].children[i];
        g.contains_key(c) && g[c].parent == Some(k) && hf[c] < hf[k]
    }) by {
        let c = g[k].children[i];
        assert(f.contains_key(k));
        if k == p {
            let j = if i < at_p {
                i
            } else {
                i + 1
            };
            assert(c == f[p].children[j]);
            assert(f.contains_key(c) && f[c].parent == Some(p));
            assert(hf[f[p].children[j]] < hf[p]);
        } else {
            assert(c == f[k].children[i]);
            assert(f.contains_key(c) && f[c].parent == Some(k));
            assert(hf[f[k].children[i]] < hf[k]);
        }
        assert(c != a);
        if in_subtree(f, a, c) {
            lemma_subtree_holds_parent(f, a, c);
        }
    }
    assert(child_links_ok(g));
    assert(ranked(g, hf));
    assert forall|k: i32| #[trigger] g.contains_key(k) implies (match g[k].parent {
        Some(p2) => g.contains_key(p2) && g[p2].children.contains(k),
        None => true,
    }) && (g[k].parent is None <==> k == root) by {
        assert(f.contains_key(k));
        if f[k].parent is Some {
            let p2 = f[k].parent->0;
            assert(f.contains_key(p2) && f[p2].children.contains(k));
            if in_subtree(f, a, p2) {
                let i = choose|i: int| 0 <= i < f[p2].children.len() && f[p2].children[i] == k;
                lemma_subtree_holds_children(f, a, p2, i);
            }
        }
    }
    assert(parent_links_ok(g));
}

/// The bullet `a` and its subtree alone, with `a` under no parent.
pub open spec fn extracted(f: Forest, a: i32) -> Forest {
    f.restrict(subtree_ids(f, a)).insert(a, f[a].with_parent(None))
}

/// Every bullet of `f` is `r` or one of its descendants.
pub open spec fn rooted(f: Forest, r: i32) -> bool {
    forall|x: i32| #[trigger] f.contains_key(x) ==> in_subtree(f, r, x)
}

/// A subtree taken alone is a tree under its own root, and all of it hangs
/// from that root.
pub proof fn lemma_extracted_shape(f: Forest, a: i32)
    requires
        forest_ok(f),
        f.contains_key(a),
    ensures
        tree_shaped(extracted(f, a), a),
        rooted(extracted(f, a), a),
        forall|x: i32| extracted(f, a).contains_key(x) <==> in_subtree(f, a, x),
{
    let g = extracted(f, a);
    let hf = rank_of(f);
    lemma_subtree_holds_root(f, a);
    assert forall|x: i32| g.contains_key(x) <==> in_subtree(f, a, x) by {
        assert(subtree_ids(f, a).contains(x) <==> in_subtree(f, a, x));
    }
    assert(ids_ok(g));
    assert forall|k: i32, i: int| g.contains_key(k) && 0 <= i < g[k].children.len() implies ({
        let c = #[trigger] g[k].children[i];
        g.contains_key(c) && g[c].parent == Some(k) && hf[c] < hf[k]
    }) by {
        let c = g[k].children[i];
        assert(c == f[k].children[i]);
        assert(f.contains_key(c) && f[c].parent == Some(k));
        assert(hf[f[k].children[i]] < hf[k]);
        lemma_subtree_holds_children(f, a, k, i);
        if c == a {
            lemma_subtree_rank(f, hf, a, k);
        }
    }
    assert(child_links_ok(g));
    assert(ranked(g, hf));
    assert forall|k: i32| #[trigger] g.contains_key(k) implies (match g[k].parent {
        Some(p2) => g.contains_key(p2) && g[p2].children.contains(k),
        None => true,
    }) && (g[k].parent is None <==> k == a) by {
        if k != a {
            lemma_subtree_holds_parent(f, a, k);
            let p2 = f[k].parent->0;
            assert(f.contains_key(p2) && f[p2].children.contains(k));
        }
    }
    assert(parent_links_ok(g));
    assert forall|x: i32| #[trigger] g.contains_key(x) implies in_subtree(g, a, x) by {
        let k = choose|k: nat| nth_ancestor(f, x, k) == Some(a);
        lemma_extracted_ancestor(f, a, x, k);
    }
}

/// The links that lead from a bullet of a subtree up to the subtree's root
/// are kept where the subtree is taken alone.
pub proof fn lemma_extracted_ancestor(f: Forest, a: i32, x: i32, k: nat)
    requires
        forest_ok(f),
        f.contains_key(x),
        nth_ancestor(f, x, k) == Some(a),
    ensures
        nth_ancestor(extracted(f, a), x, k) == Some(a),
    decreases k,
{
    if k > 0 {
        let p = f[x].parent->0;
        lemma_ancestor_rank(f, rank_of(f), x, k, a);
        assert(x != a);
        assert(in_subtree(f, a, x));
        assert(subtree_ids(f, a).contains(x));
        assert(extracted(f, a)[x] == f[x]);
        assert(f.contains_key(p));
        lemma_extracted_ancestor(f, a, p, (k - 1) as nat);
    }
}


/// Going up `a` links and then `b` links is going up `a + b` links.
pub proof fn lemma_ancestor_sum(f: Forest, x: i32, a: nat, b: nat)
    ensures
        nth_ancestor(f, x, a + b) == match nth_ancestor(f, x, a) {
            Some(y) => nth_ancestor(f, y, b),
            None => None,
        },
    decreases a,
{
    if a > 0 {
        if f.contains_key(x) && f[x].parent is Some {
            lemma_ancestor_sum(f, f[x].parent->0, (a - 1) as nat, b);
            assert(nth_ancestor(f, x, a + b) == nth_ancestor(
                f,
                f[x].parent->0,
                (a + b - 1) as nat,
            ));
        } else {
            assert(nth_ancestor(f, x, a + b) is None);
        }
    }
}

/// The forest `g` holds the bullet `j` links above `x` in `f`, under the same
/// parent.
pub open spec fn parent_kept(f: Forest, g: Forest, x: i32, j: nat) -> bool {
    let y = nth_ancestor(f, x, j)->0;
    g.contains_key(y) && g[y].parent == f[y].parent
}

/// The links that lead up from a bullet are the same in another forest that
/// gives the same parent to every bullet on the way, the last one apart.
pub proof fn lemma_ancestor_kept(f: Forest, g: Forest, x: i32, k: nat)
    requires
        f.contains_key(x),
        parent_links_ok(f),
        nth_ancestor(f, x, k) is Some,
        forall|j: nat|
            j < k ==> #[trigger] parent_kept(f, g, x, j),
    ensures
        nth_ancestor(g, x, k) == nth_ancestor(f, x, k),
    decreases k,
{
    if k > 0 {
        assert(nth_ancestor(f, x, 0) == Some(x));
        assert(parent_kept(f, g, x, 0));
        let p = f[x].parent->0;
        assert(f.contains_key(p));
        assert forall|j: nat| j < k - 1 implies #[trigger] parent_kept(f, g, p, j) by {
            assert(nth_ancestor(f, x, j + 1) == nth_ancestor(f, p, j));
            assert(parent_kept(f, g, x, (j + 1) as nat));
        }
        lemma_ancestor_kept(f, g, p, (k - 1) as nat);
    }
}

/// Where a bullet lies on the way up from `x` to `top`, `x` is in that
/// bullet's subtree.
pub proof fn lemma_on_the_way(f: Forest, x: i32, k: nat, j: nat)
    requires
        parent_links_ok(f),
        f.contains_key(x),
        j <= k,
        nth_ancestor(f, x, k) is Some,
    ensures
        nth_ancestor(f, x, j) is Some,
        f.contains_key(nth_ancestor(f, x, j)->0),
        in_subtree(f, nth_ancestor(f, x, j)->0, x),
{
    lemma_ancestor_sum(f, x, j, (k - j) as nat);
    assert(k == j + (k - j));
    lemma_ancestor_in_forest(f, x, j);
}

/// Where links lead up from a bullet of the forest, they lead to a bullet of
/// the forest.
pub proof fn lemma_ancestor_in_forest(f: Forest, x: i32, k: nat)
    requires
        parent_links_ok(f),
        f.contains_key(x),
        nth_ancestor(f, x, k) is Some,
    ensures
        f.contains_key(nth_ancestor(f, x, k)->0),
    decreases k,
{
    if k > 0 {
        lemma_ancestor_in_forest(f, f[x].parent->0, (k - 1) as nat);
    }
}

/// A tree into which a tree was hung hangs from its root.
pub proof fn lemma_grafted_rooted(f: Forest, root: i32, sub: Forest, r: i32, q: i32, at: int)
    requires
        tree_shaped(f, root),
        rooted(f, root),
        tree_shaped(sub, r),
        rooted(sub, r),
        f.dom().disjoint(sub.dom()),
        f.contains_key(q),
    ensures
        rooted(grafted(f, sub, r, q, at), root),
{
    let g = grafted(f, sub, r, q, at);
    assert forall|y: i32| f.contains_key(y) implies g.contains_key(y) && g[y].parent
        == f[y].parent by {
        assert(f.dom().contains(y) ==> !sub.dom().contains(y));
    }
    assert forall|y: i32| sub.contains_key(y) && y != r implies g.contains_key(y) && g[y].parent
        == sub[y].parent by {
        assert(sub.dom().contains(y) ==> !f.dom().contains(y));
    }
    assert(in_subtree(f, root, q));
    let kq = choose|k: nat| nth_ancestor(f, q, k) == Some(root);
    assert forall|j: nat| j < kq implies #[trigger] parent_kept(f, g, q, j) by {
        lemma_on_the_way(f, q, kq, j);
    }
    lemma_ancestor_kept(f, g, q, kq);
    assert forall|x: i32| #[trigger] g.contains_key(x) implies in_subtree(g, root, x) by {
        if sub.contains_key(x) {
            assert(in_subtree(sub, r, x));
            let k = choose|k: nat| nth_ancestor(sub, x, k) == Some(r);
            assert forall|j: nat| j < k implies #[trigger] parent_kept(sub, g, x, j) by {
                lemma_on_the_way(sub, x, k, j);
                let y = nth_ancestor(sub, x, j)->0;
                lemma_ancestor_sum(sub, x, j, (k - j) as nat);
                if y == r {
                    assert(nth_ancestor(sub, r, (k - j) as nat) == Some(r));
                    assert(nth_ancestor(sub, r, (k - j) as nat) is None);
                }
            }
            lemma_ancestor_kept(sub, g, x, k);
            lemma_ancestor_sum(g, x, k, 1);
            assert(nth_ancestor(g, r, 1) == nth_ancestor(g, q, 0));
            lemma_ancestor_sum(g, x, k + 1, kq);
        } else {
            assert(in_subtree(f, root, x));
            let k = choose|k: nat| nth_ancestor(f, x, k) == Some(root);
            assert forall|j: nat| j < k implies #[trigger] parent_kept(f, g, x, j) by {
                lemma_on_the_way(f, x, k, j);
            }
            lemma_ancestor_kept(f, g, x, k);
        }
    }
}

/// A tree in which a subtree was moved hangs from its root.
pub proof fn lemma_moved_rooted(f: Forest, root: i32, a: i32, q: i32, at: int)
    requires
        tree_shaped(f, root),
        rooted(f, root),
        f.contains_key(a),
        a != root,
        f.contains_key(q),
        !in_subtree(f, a, q),
    ensures
        rooted(moved(f, a, q, at), root),
{
    let g = moved(f, a, q, at);
    let h = rank_of(f);
    assert forall|y: i32| f.contains_key(y) && y != a implies g.contains_key(y) && g[y].parent
        == f[y].parent by {}
    assert(in_subtree(f, root, q));
    let kq = choose|k: nat| nth_ancestor(f, q, k) == Some(root);
    assert forall|j: nat| j < kq implies #[trigger] parent_kept(f, g, q, j) by {
        lemma_on_the_way(f, q, kq, j);
    }
    lemma_ancestor_kept(f, g, q, kq);
    assert forall|x: i32| #[trigger] g.contains_key(x) implies in_subtree(g, root, x) by {
        assert(f.contains_key(x));
        if in_subtree(f, a, x) {
            let k = choose|k: nat| nth_ancestor(f, x, k) == Some(a);
            assert forall|j: nat| j < k implies #[trigger] parent_kept(f, g, x, j) by {
                lemma_on_the_way(f, x, k, j);
                let y = nth_ancestor(f, x, j)->0;
                lemma_ancestor_sum(f, x, j, (k - j) as nat);
                if y == a {
                    lemma_ancestor_rank(f, h, a, (k - j) as nat, a);
                }
            }
            lemma_ancestor_kept(f, g, x, k);
            lemma_ancestor_sum(g, x, k, 1);
            assert(nth_ancestor(g, a, 1) == nth_ancestor(g, q, 0));
            lemma_ancestor_sum(g, x, k + 1, kq);
        } else {
            assert(in_subtree(f, root, x));
            let k = choose|k: nat| nth_ancestor(f, x, k) == Some(root);
            assert forall|j: nat| j < k implies #[trigger] parent_kept(f, g, x, j) by {
                lemma_on_the_way(f, x, k, j);
            }
            lemma_ancestor_kept(f, g, x, k);
        }
    }
}

/// A tree out of which a subtree was taken hangs from its root.
pub proof fn lemma_pruned_rooted(f: Forest, root: i32, a: i32)
    requires
        tree_shaped(f, root),
        rooted(f, root),
        f.contains_key(a),
        a != root,
    ensures
        rooted(pruned(f, a), root),
{
    let g = pruned(f, a);
    lemma_pruned_shape(f, root, a);
    assert forall|x: i32| #[trigger] g.contains_key(x) implies in_subtree(g, root, x) by {
        assert(f.contains_key(x) && !in_subtree(f, a, x));
        assert(in_subtree(f, root, x));
        let k = choose|k: nat| nth_ancestor(f, x, k) == Some(root);
        assert forall|j: nat| j < k implies #[trigger] parent_kept(f, g, x, j) by {
            lemma_on_the_way(f, x, k, j);
            let y = nth_ancestor(f, x, j)->0;
            lemma_ancestor_rank(f, rank_of(f), x, j, y);
            if in_subtree(f, a, y) {
                let i = choose|i: nat| nth_ancestor(f, y, i) == Some(a);
                lemma_ancestor_sum(f, x, j, i);
            }
        }
        lemma_ancestor_kept(f, g, x, k);
    }
}

/// The bullets of a table, each as a value.
pub open spec fn forest_of(m: Map<i32, Node>) -> Forest {
    Map::new(|k: i32| m.contains_key(k), |k: i32| m[k]@)
}

/// A document as a value: its bullets, and the identity of the active one.
pub struct TreeView {
    pub nodes: Forest,
    pub active: i32,
}

impl TreeView {
    /// What holds of a document at all times: its bullets form a tree under
    /// the root, whose identity is 0, from which all of them hang; no two
    /// share an identity; every bullet but the root has a parent and stands
    /// once among that parent's children; the root has a child; one bullet is
    /// active, and it is not the root.
    pub open spec fn wf(self) -> bool {
        &&& tree_shaped(self.nodes, 0)
        &&& rooted(self.nodes, 0)
        &&& self.nodes[0].children.len() >= 1
        &&& self.nodes.contains_key(self.active)
        &&& self.active != 0
    }

    /// A new document: the root and one empty bullet, `first`, which is active.
    pub open spec fn initial(first: i32) -> TreeView {
        TreeView {
            nodes: map![
                0 => NodeView::leaf(0, None).with_children(seq![first]),
                first => NodeView::leaf(first, Some(0)),
            ],
            active: first,
        }
    }

    /// The parent of the active bullet.
    pub open spec fn parent(self) -> i32 {
        self.nodes[self.active].parent->0
    }

    /// The active bullet and its siblings, in document order.
    pub open spec fn siblings(self) -> Seq<i32> {
        self.nodes[self.parent()].children
    }

    /// The place of the active bullet among its siblings.
    pub open spec fn place(self) -> int {
        place_of(self.nodes, self.active)
    }

    /// The sibling just above or just below the active bullet, if there is one.
    pub open spec fn sibling(self, dir: Dir) -> Option<i32> {
        sibling_of(self.siblings(), self.active, dir)
    }

    /// The place that a new sibling of the active bullet takes: that of the
    /// active bullet for `Above`, the next one for `Below`.
    pub open spec fn place_beside(self, dir: Dir) -> int {
        if dir is Below {
            self.place() + 1
        } else {
            self.place()
        }
    }

    /// The document with another bullet active.
    pub open spec fn activated(self, id: i32) -> TreeView {
        TreeView { active: id, ..self }
    }

    /// The document with another text in the active bullet.
    pub open spec fn with_content(self, content: Seq<char>) -> TreeView {
        TreeView {
            nodes: self.nodes.insert(self.active, self.nodes[self.active].with_content(content)),
            ..self
        }
    }

    /// The document with a new empty bullet `id` beside the active one, which
    /// it replaces as the active bullet.
    pub open spec fn with_sibling(self, id: i32, dir: Dir) -> TreeView {
        let p = self.parent();
        TreeView {
            nodes: self.nodes.insert(
                p,
                self.nodes[p].with_children(self.siblings().insert(self.place_beside(dir), id)),
            ).insert(id, NodeView::leaf(id, Some(p))),
            active: id,
        }
    }

    /// The document with the tree `sub`, whose root is `r`, beside the active
    /// bullet. `r` becomes the active bullet.
    pub open spec fn with_subtree(self, sub: Forest, r: i32, dir: Dir) -> TreeView {
        TreeView {
            nodes: grafted(self.nodes, sub, r, self.parent(), self.place_beside(dir)),
            active: r,
        }
    }

    /// The document with the active bullet, and its subtree, moved under the
    /// sibling above it: as that sibling's first child, or as its last.
    pub open spec fn indented(self, first: bool) -> TreeView {
        let s = self.sibling(Dir::Above)->0;
        TreeView {
            nodes: moved(
                self.nodes,
                self.active,
                s,
                if first {
                    0
                } else {
                    self.nodes[s].children.len() as int
                },
            ),
            ..self
        }
    }

    /// The document with the active bullet, and its subtree, moved out from
    /// under its parent, to the place just behind that parent.
    pub open spec fn unindented(self) -> TreeView {
        let p = self.parent();
        TreeView {
            nodes: moved(self.nodes, self.active, self.nodes[p].parent->0, place_of(self.nodes, p) + 1),
            ..self
        }
    }

    /// The bullet that becomes active when the active one is deleted: the
    /// sibling below it, else the sibling above it, else its parent.
    pub open spec fn successor(self) -> i32 {
        match self.sibling(Dir::Below) {
            Some(b) => b,
            None => match self.sibling(Dir::Above) {
                Some(a) => a,
                None => self.parent(),
            },
        }
    }

    /// Whether the active bullet is the last one left under the root.
    pub open spec fn is_last_bullet(self) -> bool {
        self.parent() == 0 && self.siblings().len() == 1
    }

    /// The document without the active bullet and its subtree.
    pub open spec fn deleted(self) -> TreeView {
        TreeView { nodes: pruned(self.nodes, self.active), active: self.successor() }
    }
}

/// A new document is well formed, where its first bullet does not take the
/// root's identity.
pub proof fn lemma_initial_wf(first: i32)
    requires
        first != 0,
    ensures
        TreeView::initial(first).wf(),
{
    let t = TreeView::initial(first);
    let f = t.nodes;
    let h = map![0 => 1nat, first => 0nat];
    assert(f[0].children =~= seq![first]);
    assert(f[first].children =~= Seq::<i32>::empty());
    assert(ranked(f, h));
    assert forall|k: i32| #[trigger] f.contains_key(k) implies (match f[k].parent {
        Some(p) => f.contains_key(p) && f[p].children.contains(k),
        None => true,
    }) && in_subtree(f, 0, k) by {
        if k == first {
            assert(f[0].children[0] == first);
            assert(nth_ancestor(f, first, 1) == nth_ancestor(f, 0, 0));
        } else {
            assert(nth_ancestor(f, 0, 0) == Some(0i32));
        }
    }
}

/// What well-formedness tells of the active bullet: it has a parent, among
/// whose children it stands at `place`.
pub proof fn lemma_active_place(t: TreeView)
    requires
        t.wf(),
    ensures
        t.nodes[t.active].parent is Some,
        t.nodes.contains_key(t.parent()),
        0 <= t.place() < t.siblings().len(),
        t.siblings()[t.place()] == t.active,
        t.siblings().no_duplicates(),
        first_place(t.siblings(), t.active) == Some(t.place()),
{
    lemma_place_of(t.nodes, t.active);
    lemma_first_place(t.siblings(), t.active);
}

/// A new sibling with an unused identity leaves the document well formed.
pub proof fn lemma_with_sibling_wf(t: TreeView, id: i32, dir: Dir)
    requires
        t.wf(),
        !t.nodes.contains_key(id),
    ensures
        t.with_sibling(id, dir).wf(),
{
    lemma_active_place(t);
    let sub = map![id => NodeView::leaf(id, None)];
    let h = map![id => 0nat];
    assert(sub[id].children =~= Seq::<i32>::empty());
    assert(ranked(sub, h));
    assert(tree_shaped(sub, id));
    assert(rooted(sub, id)) by {
        assert(nth_ancestor(sub, id, 0) == Some(id));
    }
    assert(t.nodes.dom().disjoint(sub.dom()));
    lemma_grafted_shape(t.nodes, 0, sub, id, t.parent(), t.place_beside(dir));
    lemma_grafted_rooted(t.nodes, 0, sub, id, t.parent(), t.place_beside(dir));
    assert(t.with_sibling(id, dir).nodes =~= grafted(
        t.nodes,
        sub,
        id,
        t.parent(),
        t.place_beside(dir),
    ));
}

/// A tree whose identities are unused, put beside the active bullet, leaves
/// the document well formed.
pub proof fn lemma_with_subtree_wf(t: TreeView, sub: Forest, r: i32, dir: Dir)
    requires
        t.wf(),
        tree_shaped(sub, r),
        rooted(sub, r),
        t.nodes.dom().disjoint(sub.dom()),
    ensures
        t.with_subtree(sub, r, dir).wf(),
{
    lemma_active_place(t);
    lemma_grafted_shape(t.nodes, 0, sub, r, t.parent(), t.place_beside(dir));
    lemma_grafted_rooted(t.nodes, 0, sub, r, t.parent(), t.place_beside(dir));
}

/// An indent under the sibling above leaves the document well formed.
pub proof fn lemma_indented_wf(t: TreeView, first: bool)
    requires
        t.wf(),
        t.sibling(Dir::Above) is Some,
    ensures
        t.indented(first).wf(),
{
    lemma_active_place(t);
    let s = t.sibling(Dir::Above)->0;
    let p = t.parent();
    assert(s == t.nodes[p].children[t.place() - 1]);
    assert(t.nodes.contains_key(s) && t.nodes[s].parent == Some(p));
    assert(s != t.active);
    assert(s != p) by {
        assert(ranked(t.nodes, rank_of(t.nodes)));
        assert(rank_of(t.nodes)[t.nodes[p].children[t.place() - 1]] < rank_of(t.nodes)[p]);
    }
    assert(!in_subtree(t.nodes, t.active, s)) by {
        if in_subtree(t.nodes, t.active, s) {
            lemma_subtree_holds_parent(t.nodes, t.active, s);
            lemma_subtree_rank(t.nodes, rank_of(t.nodes), t.active, p);
            assert(rank_of(t.nodes)[t.nodes[p].children[t.place()]] < rank_of(t.nodes)[p]);
        }
    }
    lemma_moved_shape(
        t.nodes,
        0,
        t.active,
        s,
        if first {
            0
        } else {
            t.nodes[s].children.len() as int
        },
    );
    lemma_moved_rooted(
        t.nodes,
        0,
        t.active,
        s,
        if first {
            0
        } else {
            t.nodes[s].children.len() as int
        },
    );
    let g = t.indented(first).nodes;
    if p == 0 {
        assert(g[0].children.contains(s)) by {
            lemma_remove_no_duplicates(t.nodes[p].children, t.place());
        }
    }
}

/// An unindent from under a parent other than the root leaves the document
/// well formed.
pub proof fn lemma_unindented_wf(t: TreeView)
    requires
        t.wf(),
        t.parent() != 0,
    ensures
        t.unindented().wf(),
{
    lemma_active_place(t);
    let p = t.parent();
    let h = rank_of(t.nodes);
    assert(ranked(t.nodes, h));
    assert(t.nodes[p].parent is Some);
    lemma_place_of(t.nodes, p);
    let gp = t.nodes[p].parent->0;
    assert(h[t.nodes[p].children[t.place()]] < h[p]);
    assert(h[t.nodes[gp].children[place_of(t.nodes, p)]] < h[gp]);
    assert(!in_subtree(t.nodes, t.active, gp)) by {
        if in_subtree(t.nodes, t.active, gp) {
            lemma_subtree_rank(t.nodes, h, t.active, gp);
        }
    }
    lemma_moved_shape(t.nodes, 0, t.active, gp, place_of(t.nodes, p) + 1);
    lemma_moved_rooted(t.nodes, 0, t.active, gp, place_of(t.nodes, p) + 1);
}


/// Another text in the active bullet leaves the document well formed.
pub proof fn lemma_with_content_wf(t: TreeView, content: Seq<char>)
    requires
        t.wf(),
    ensures
        t.with_content(content).wf(),
{
    let g = t.with_content(content).nodes;
    let f = t.nodes;
    let h = rank_of(f);
    assert forall|k: i32, i: int| g.contains_key(k) && 0 <= i < g[k].children.len() implies ({
        let c = #[trigger] g[k].children[i];
        g.contains_key(c) && g[c].parent == Some(k) && h[c] < h[k]
    }) by {
        assert(g[k].children[i] == f[k].children[i]);
        assert(f.contains_key(f[k].children[i]));
        assert(h[f[k].children[i]] < h[k]);
    }
    assert(ranked(g, h));
    assert forall|k: i32| #[trigger] g.contains_key(k) implies (match g[k].parent {
        Some(p) => g.contains_key(p) && g[p].children.contains(k),
        None => true,
    }) && in_subtree(g, 0, k) by {
        assert(f.contains_key(k));
        assert(in_subtree(f, 0, k));
        let n = choose|n: nat| nth_ancestor(f, k, n) == Some(0i32);
        assert forall|j: nat| j < n implies #[trigger] parent_kept(f, g, k, j) by {
            lemma_on_the_way(f, k, n, j);
        }
        lemma_ancestor_kept(f, g, k, n);
    }
}


/// Deleting the active bullet, where it is not the last one left under the
/// root, leaves the document well formed.
pub proof fn lemma_deleted_wf(t: TreeView)
    requires
        t.wf(),
        !t.is_last_bullet(),
    ensures
        t.deleted().wf(),
{
    lemma_active_place(t);
    lemma_pruned_shape(t.nodes, 0, t.active);
    lemma_pruned_rooted(t.nodes, 0, t.active);
    let f = t.nodes;
    let p = t.parent();
    let at = t.place();
    let s = t.successor();
    if t.sibling(Dir::Below) is Some {
        assert(s == f[p].children[at + 1]);
        assert(f.contains_key(f[p].children[at + 1]));
    } else if t.sibling(Dir::Above) is Some {
        assert(s == f[p].children[at - 1]);
        assert(f.contains_key(f[p].children[at - 1]));
    } else {
        assert(t.siblings().len() == 1);
    }
    assert(t.deleted().nodes.contains_key(s));
}


/// `m` gives every identity of `f` a new one, and no two the same.
pub open spec fn renaming(f: Forest, m: Map<i32, i32>) -> bool {
    &&& forall|k: i32| #[trigger] f.contains_key(k) ==> m.contains_key(k)
    &&& forall|a: i32, b: i32|
        #![trigger f.contains_key(a), f.contains_key(b)]
        f.contains_key(a) && f.contains_key(b) && m[a] == m[b] ==> a == b
}

/// A bullet with its identity and its links named anew by `m`.
pub open spec fn renamed_node(n: NodeView, m: Map<i32, i32>) -> NodeView {
    NodeView {
        id: m[n.id],
        parent: match n.parent {
            Some(p) => Some(m[p]),
            None => None,
        },
        children: n.children.map_values(|c: i32| m[c]),
        content: n.content,
    }
}

/// The identity of `f` that `m` names `k2`.
pub open spec fn old_name(f: Forest, m: Map<i32, i32>, k2: i32) -> i32 {
    choose|k: i32| f.contains_key(k) && m[k] == k2
}

/// The forest `f` with every identity named anew by `m`: the same shape and
/// the same texts under other identities.
pub open spec fn renamed(f: Forest, m: Map<i32, i32>) -> Forest {
    Map::new(
        |k2: i32| exists|k: i32| f.contains_key(k) && m[k] == k2,
        |k2: i32| renamed_node(f[old_name(f, m, k2)], m),
    )
}

/// What stands under a new name is the bullet that had the old one.
pub proof fn lemma_renamed_at(f: Forest, m: Map<i32, i32>, k: i32)
    requires
        renaming(f, m),
        f.contains_key(k),
    ensures
        renamed(f, m).contains_key(m[k]),
        old_name(f, m, m[k]) == k,
        renamed(f, m)[m[k]] == renamed_node(f[k], m),
{
    let k0 = old_name(f, m, m[k]);
    assert(f.contains_key(k0) && m[k0] == m[k]);
}

/// The links that lead up from a bullet lead, under new names, up from the
/// bullet's new name to the new names of the same bullets.
pub proof fn lemma_renamed_ancestor(f: Forest, m: Map<i32, i32>, x: i32, k: nat)
    requires
        parent_links_ok(f),
        renaming(f, m),
        f.contains_key(x),
        ids_ok(f),
    ensures
        nth_ancestor(f, x, k) matches Some(a) ==> nth_ancestor(renamed(f, m), m[x], k) == Some(
            m[a],
        ),
    decreases k,
{
    lemma_renamed_at(f, m, x);
    if k > 0 && f[x].parent is Some {
        let p = f[x].parent->0;
        assert(f.contains_key(p));
        lemma_renamed_ancestor(f, m, p, (k - 1) as nat);
    }
}

/// A tree under new names is a tree under the new name of its root, and
/// hangs from that root where the old one did.
pub proof fn lemma_renamed_shape(f: Forest, r: i32, m: Map<i32, i32>)
    requires
        tree_shaped(f, r),
        rooted(f, r),
        renaming(f, m),
    ensures
        tree_shaped(renamed(f, m), m[r]),
        rooted(renamed(f, m), m[r]),
{
    let g = renamed(f, m);
    let hf = rank_of(f);
    let h = Map::<i32, nat>::new(|k2: i32| true, |k2: i32| hf[old_name(f, m, k2)]);
    assert forall|k2: i32| #[trigger] g.contains_key(k2) implies ({
        let k = old_name(f, m, k2);
        f.contains_key(k) && m[k] == k2 && g[k2] == renamed_node(f[k], m)
    }) by {
        let k = choose|k: i32| f.contains_key(k) && m[k] == k2;
        lemma_renamed_at(f, m, k);
    }
    assert forall|k2: i32| #[trigger] g.contains_key(k2) implies g[k2].id == k2
        && g[k2].children.no_duplicates() by {
        let k = old_name(f, m, k2);
        let old_children = f[k].children;
        let new_children = g[k2].children;
        assert forall|i: int, j: int|
            0 <= i < new_children.len() && 0 <= j < new_children.len() && i != j implies
            new_children[i] != new_children[j] by {
            assert(f.contains_key(f[k].children[i]));
            assert(f.contains_key(f[k].children[j]));
        }
    }
    assert forall|k2: i32, i: int| g.contains_key(k2) && 0 <= i < g[k2].children.len() implies ({
        let c = #[trigger] g[k2].children[i];
        g.contains_key(c) && g[c].parent == Some(k2) && h[c] < h[k2]
    }) by {
        let k = old_name(f, m, k2);
        let c = f[k].children[i];
        assert(f.contains_key(c) && f[c].parent == Some(k));
        assert(hf[f[k].children[i]] < hf[k]);
        lemma_renamed_at(f, m, c);
    }
    assert(child_links_ok(g));
    assert(ranked(g, h));
    assert forall|k2: i32| #[trigger] g.contains_key(k2) implies (match g[k2].parent {
        Some(p2) => g.contains_key(p2) && g[p2].children.contains(k2),
        None => true,
    }) && (g[k2].parent is None <==> k2 == m[r]) && in_subtree(g, m[r], k2) by {
        let k = old_name(f, m, k2);
        if f[k].parent is Some {
            let p = f[k].parent->0;
            assert(f.contains_key(p) && f[p].children.contains(k));
            lemma_renamed_at(f, m, p);
            let i = choose|i: int| 0 <= i < f[p].children.len() && f[p].children[i] == k;
            assert(g[m[p]].children[i] == k2);
        }
        assert(in_subtree(f, r, k));
        let n = choose|n: nat| nth_ancestor(f, k, n) == Some(r);
        lemma_renamed_ancestor(f, m, k, n);
    }
    assert(parent_links_ok(g));
    lemma_renamed_at(f, m, r);
}


/// The names that a list of new identities gives to a list of old ones: the
/// old identity at place `i` gets the new one at place `i`, and where an old
/// identity stands twice its last place counts.
pub open spec fn names_of(order: Seq<i32>, fresh: Seq<i32>) -> Map<i32, i32>
    decreases order.len(),
{
    if order.len() == 0 {
        Map::empty()
    } else {
        names_of(order.drop_last(), fresh).insert(order.last(), fresh[order.len() - 1])
    }
}

/// `names_of` names exactly the old identities listed, each with the new
/// identity at one of its places.
pub proof fn lemma_names_of(order: Seq<i32>, fresh: Seq<i32>)
    ensures
        forall|k: i32| names_of(order, fresh).contains_key(k) <==> order.contains(k),
        forall|k: i32| #[trigger]
            names_of(order, fresh).contains_key(k) ==> exists|i: int|
                0 <= i < order.len() && order[i] == k && names_of(order, fresh)[k] == fresh[i],
    decreases order.len(),
{
    let m = names_of(order, fresh);
    if order.len() > 0 {
        let front = order.drop_last();
        lemma_names_of(front, fresh);
        let before = names_of(front, fresh);
        assert forall|k: i32| m.contains_key(k) <==> order.contains(k) by {
            assert(m.contains_key(k) <==> before.contains_key(k) || k == order.last());
            assert(before.contains_key(k) <==> front.contains(k));
            if order.contains(k) {
                let i = choose|i: int| 0 <= i < order.len() && order[i] == k;
                if i < front.len() {
                    assert(front[i] == k);
                    assert(front.contains(k));
                }
            }
            if front.contains(k) {
                let i = choose|i: int| 0 <= i < front.len() && front[i] == k;
                assert(order[i] == k);
            }
            if k == order.last() {
                assert(order[order.len() - 1] == k);
            }
        }
        assert forall|k: i32| #[trigger] m.contains_key(k) implies exists|i: int|
            0 <= i < order.len() && order[i] == k && m[k] == fresh[i] by {
            if k == order.last() {
                assert(order[order.len() - 1] == k && m[k] == fresh[order.len() - 1]);
            } else {
                let i = choose|i: int|
                    0 <= i < front.len() && front[i] == k && before[k] == fresh[i];
                assert(order[i] == k && m[k] == fresh[i]);
            }
        }
    }
}

/// Whether `fresh` can name the bullets of the tree `f` under `root` anew:
/// one identity for each place of the post-order, none twice, none in use in
/// the tree.
pub open spec fn usable_names(f: Forest, root: i32, fresh: Seq<i32>) -> bool {
    &&& fresh.len() == post_order_of(f, root).len()
    &&& fresh.no_duplicates()
    &&& forall|i: int| 0 <= i < fresh.len() ==> !f.contains_key(#[trigger] fresh[i])
}

/// Usable names name a whole tree anew, with identities among the new ones.
pub proof fn lemma_usable_names(f: Forest, root: i32, fresh: Seq<i32>)
    requires
        tree_shaped(f, root),
        rooted(f, root),
        usable_names(f, root, fresh),
    ensures
        renaming(f, names_of(post_order_of(f, root), fresh)),
        forall|k: i32| #[trigger]
            f.contains_key(k) ==> fresh.contains(names_of(post_order_of(f, root), fresh)[k]),
{
    let order = post_order_of(f, root);
    let m = names_of(order, fresh);
    lemma_names_of(order, fresh);
    lemma_post_order_visits(f, rank_of(f), root);
    assert forall|k: i32| #[trigger] f.contains_key(k) implies m.contains_key(k)
        && fresh.contains(m[k]) by {
        assert(in_subtree(f, root, k));
        assert(order.contains(k));
        let i = choose|i: int| 0 <= i < order.len() && order[i] == k && m[k] == fresh[i];
        assert(fresh[i] == m[k]);
    }
    assert forall|a: i32, b: i32|
        #![trigger f.contains_key(a), f.contains_key(b)]
        f.contains_key(a) && f.contains_key(b) && m[a] == m[b] implies a == b by {
        assert(m.contains_key(a) && m.contains_key(b));
        let i = choose|i: int| 0 <= i < order.len() && order[i] == a && m[a] == fresh[i];
        let j = choose|j: int| 0 <= j < order.len() && order[j] == b && m[b] == fresh[j];
        assert(i == j);
    }
}

/// A detached copy of a bullet and its descendants as a value: the tree of
/// the copy, and where the bullet stood when it was copied.
pub struct SubtreeView {
    pub root: i32,
    pub nodes: Forest,
    pub parent: Option<i32>,
    pub above_sibling: Option<i32>,
}

impl SubtreeView {
    /// The copy is a tree under its root, and all of it hangs from that root.
    pub open spec fn wf(self) -> bool {
        tree_shaped(self.nodes, self.root) && rooted(self.nodes, self.root)
    }

    /// The names that `fresh` gives to the identities of the copy, in
    /// post-order.
    pub open spec fn names(self, fresh: Seq<i32>) -> Map<i32, i32> {
        names_of(post_order_of(self.nodes, self.root), fresh)
    }

    /// The copy with its identities replaced by those of `fresh`.
    pub open spec fn renumbered(self, fresh: Seq<i32>) -> SubtreeView {
        SubtreeView {
            root: self.names(fresh)[self.root],
            nodes: renamed(self.nodes, self.names(fresh)),
            ..self
        }
    }
}

impl TreeView {
    /// The copy that `get_subtree` takes of the active bullet.
    pub open spec fn subtree(self) -> SubtreeView {
        SubtreeView {
            root: self.active,
            nodes: extracted(self.nodes, self.active),
            parent: Some(self.parent()),
            above_sibling: self.sibling(Dir::Above),
        }
    }
}


/// A tree put beside the active bullet stands next to it: the bullet that was
/// active is the sibling above the tree's root where the tree was put below,
/// and the sibling below it where the tree was put above.
pub proof fn lemma_with_subtree_sibling(t: TreeView, sub: Forest, r: i32, dir: Dir)
    requires
        t.wf(),
        tree_shaped(sub, r),
        t.nodes.dom().disjoint(sub.dom()),
    ensures
        t.with_subtree(sub, r, dir).parent() == t.parent(),
        t.with_subtree(sub, r, dir).sibling(
            if dir is Below {
                Dir::Above
            } else {
                Dir::Below
            },
        ) == Some(t.active),
{
    lemma_active_place(t);
    let q = t.parent();
    let at = t.place_beside(dir);
    let wider = t.siblings().insert(at, r);
    let after = t.with_subtree(sub, r, dir);
    assert(!t.nodes.dom().contains(r)) by {
        assert(sub.dom().contains(r));
    }
    assert(!t.siblings().contains(r)) by {
        if t.siblings().contains(r) {
            let i = choose|i: int| 0 <= i < t.siblings().len() && t.siblings()[i] == r;
            assert(t.nodes.contains_key(t.nodes[q].children[i]));
        }
    }
    lemma_insert_no_duplicates(t.siblings(), at, r);
    lemma_first_place_unique(wider, r, at);
    assert(after.nodes[q].children == wider);
    assert(after.nodes[r].parent == Some(q));
    if dir is Below {
        assert(wider[at - 1] == t.active);
    } else {
        assert(wider[at + 1] == t.active);
    }
}

} // verus!
