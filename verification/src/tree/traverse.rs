//! The orders in which a bullet and its descendants are visited.

use super::model::{
    child_links_ok, forest_of, forest_ok, in_subtree, lemma_ancestor_rank, lemma_ancestor_sum,
    lemma_subtree_holds_root, nth_ancestor, parent_links_ok, rank_of, ranked, Forest,
};
use super::node::Node;
use std::collections::{HashMap, VecDeque};
use vstd::prelude::*;

verus! {

broadcast use vstd::std_specs::hash::group_hash_axioms;

/// The bullet `id` and its descendants, each after all of its own
/// descendants, the children of a bullet in their order. `h` numbers the
/// bullets so that a child has less than its parent.
pub open spec fn post_order(f: Forest, h: Map<i32, nat>, id: i32) -> Seq<i32>
    decreases h[id], f[id].children.len() + 1,
{
    post_children(f, h, id, f[id].children.len()).push(id)
}

/// The post-order of the first `n` children of `id`, one child after the other.
pub open spec fn post_children(f: Forest, h: Map<i32, nat>, id: i32, n: nat) -> Seq<i32>
    decreases h[id], n,
{
    if n == 0 {
        Seq::empty()
    } else {
        let c = f[id].children[n - 1];
        post_children(f, h, id, (n - 1) as nat) + if h[c] < h[id] {
            post_order(f, h, c)
        } else {
            Seq::empty()
        }
    }
}

/// The bullet `id` and its descendants in post-order.
pub open spec fn post_order_of(f: Forest, id: i32) -> Seq<i32> {
    post_order(f, rank_of(f), id)
}

/// The children of the bullets of `row`, in the order of `row`.
pub open spec fn children_of_all(f: Forest, row: Seq<i32>) -> Seq<i32>
    decreases row.len(),
{
    if row.len() == 0 {
        Seq::empty()
    } else {
        children_of_all(f, row.drop_last()) + f[row.last()].children
    }
}

/// The bullets of `row`, then their children, then the children of those, and
/// so on for at most `depth` rows.
pub open spec fn level_order(f: Forest, row: Seq<i32>, depth: nat) -> Seq<i32>
    decreases depth,
{
    if depth == 0 || row.len() == 0 {
        Seq::empty()
    } else {
        row + level_order(f, children_of_all(f, row), (depth - 1) as nat)
    }
}

/// The bullet `id` and its descendants level by level: `id`, its children,
/// their children, and so on, each level in document order.
pub open spec fn level_order_of(f: Forest, id: i32) -> Seq<i32> {
    level_order(f, seq![id], rank_of(f)[id] + 1)
}

/// What is in the subtree of a child is in the subtree of the parent.
pub proof fn lemma_subtree_of_child(f: Forest, p: i32, c: i32, x: i32)
    requires
        f.contains_key(c),
        f[c].parent == Some(p),
        in_subtree(f, c, x),
    ensures
        in_subtree(f, p, x),
{
    let k = choose|k: nat| nth_ancestor(f, x, k) == Some(c);
    lemma_ancestor_sum(f, x, k, 1);
    assert(nth_ancestor(f, c, 1) == nth_ancestor(f, p, 0));
}

/// A post-order visits only the bullet it starts from and its descendants,
/// and visits all of them.
pub proof fn lemma_post_order_visits(f: Forest, h: Map<i32, nat>, id: i32)
    requires
        child_links_ok(f),
        parent_links_ok(f),
        ranked(f, h),
        f.contains_key(id),
    ensures
        forall|x: i32| post_order(f, h, id).contains(x) <==> in_subtree(f, id, x),
    decreases h[id], f[id].children.len() + 1,
{
    let n = f[id].children.len();
    lemma_post_children_visit(f, h, id, n);
    let front = post_children(f, h, id, n);
    let all = post_order(f, h, id);
    lemma_subtree_holds_root(f, id);
    assert forall|x: i32| all.contains(x) <==> in_subtree(f, id, x) by {
        if all.contains(x) {
            let j = choose|j: int| 0 <= j < all.len() && all[j] == x;
            if j < front.len() {
                assert(front[j] == x);
                assert(front.contains(x));
                let i = choose|i: int| 0 <= i < n && in_subtree(f, f[id].children[i], x);
                assert(f.contains_key(f[id].children[i]));
                lemma_subtree_of_child(f, id, f[id].children[i], x);
            }
        }
        if in_subtree(f, id, x) {
            if x == id {
                assert(all[n as int + front.len() - n] == id);
            } else {
                let k = choose|k: nat| nth_ancestor(f, x, k) == Some(id);
                lemma_ancestor_rank(f, h, x, k, id);
                lemma_ancestor_sum(f, x, (k - 1) as nat, 1);
                let c = nth_ancestor(f, x, (k - 1) as nat)->0;
                lemma_ancestor_below(f, x, (k - 1) as nat);
                assert(f.contains_key(c) && f[c].parent == Some(id));
                assert(f[id].children.contains(c));
                let i = choose|i: int| 0 <= i < n && f[id].children[i] == c;
                assert(in_subtree(f, f[id].children[i], x));
                assert(front.contains(x));
                let j = choose|j: int| 0 <= j < front.len() && front[j] == x;
                assert(all[j] == x);
            }
        }
    }
}

/// Where `k` links lead up from a bullet of the forest, they lead to a bullet
/// of the forest; and where one more link leads on, that bullet has a parent.
pub proof fn lemma_ancestor_below(f: Forest, x: i32, k: nat)
    requires
        parent_links_ok(f),
        f.contains_key(x),
    ensures
        nth_ancestor(f, x, k) matches Some(y) ==> f.contains_key(y),
        nth_ancestor(f, x, k + 1) matches Some(z) ==> nth_ancestor(f, x, k) matches Some(y)
            && f[y].parent == Some(z),
    decreases k,
{
    lemma_ancestor_sum(f, x, k, 1);
    if k > 0 {
        if f[x].parent is Some {
            lemma_ancestor_below(f, f[x].parent->0, (k - 1) as nat);
        }
    }
    if nth_ancestor(f, x, k) is Some {
        let y = nth_ancestor(f, x, k)->0;
        assert(nth_ancestor(f, y, 1) == if f.contains_key(y) && f[y].parent is Some {
            nth_ancestor(f, f[y].parent->0, 0)
        } else {
            None
        });
    }
}

/// The post-order of the first `n` children of a bullet visits exactly the
/// subtrees of those children.
pub proof fn lemma_post_children_visit(f: Forest, h: Map<i32, nat>, id: i32, n: nat)
    requires
        child_links_ok(f),
        parent_links_ok(f),
        ranked(f, h),
        f.contains_key(id),
        n <= f[id].children.len(),
    ensures
        forall|x: i32|
            post_children(f, h, id, n).contains(x) <==> exists|i: int|
                0 <= i < n && in_subtree(f, #[trigger] f[id].children[i], x),
    decreases h[id], n,
{
    let all = post_children(f, h, id, n);
    if n > 0 {
        let c = f[id].children[n - 1];
        assert(f.contains_key(c) && h[c] < h[id]);
        let front = post_children(f, h, id, (n - 1) as nat);
        let back = post_order(f, h, c);
        lemma_post_children_visit(f, h, id, (n - 1) as nat);
        lemma_post_order_visits(f, h, c);
        assert forall|x: i32| all.contains(x) <==> exists|i: int|
            0 <= i < n && in_subtree(f, #[trigger] f[id].children[i], x) by {
            if all.contains(x) {
                let j = choose|j: int| 0 <= j < all.len() && all[j] == x;
                if j < front.len() {
                    assert(front[j] == x);
                    assert(front.contains(x));
                    let i = choose|i: int|
                        0 <= i < n - 1 && in_subtree(f, #[trigger] f[id].children[i], x);
                    assert(in_subtree(f, f[id].children[i], x));
                } else {
                    assert(back[j - front.len()] == x);
                    assert(back.contains(x));
                    assert(in_subtree(f, f[id].children[n - 1], x));
                }
            }
            if exists|i: int| 0 <= i < n && in_subtree(f, #[trigger] f[id].children[i], x) {
                let i = choose|i: int| 0 <= i < n && in_subtree(f, #[trigger] f[id].children[i], x);
                if i < n - 1 {
                    assert(front.contains(x));
                    let j = choose|j: int| 0 <= j < front.len() && front[j] == x;
                    assert(all[j] == x);
                } else {
                    assert(back.contains(x));
                    let j = choose|j: int| 0 <= j < back.len() && back[j] == x;
                    assert(all[front.len() + j] == x);
                }
            }
        }
    } else {
        assert forall|x: i32| !all.contains(x) by {}
    }
}

/// The post-order of the children of `id` from the `i`-th on.
pub open spec fn post_children_from(f: Forest, h: Map<i32, nat>, id: i32, i: nat) -> Seq<i32>
    decreases f[id].children.len() - i,
{
    if i >= f[id].children.len() {
        Seq::empty()
    } else {
        let c = f[id].children[i as int];
        (if h[c] < h[id] {
            post_order(f, h, c)
        } else {
            Seq::empty()
        }) + post_children_from(f, h, id, i + 1)
    }
}

/// The post-order of the first children and that of the others make the
/// post-order of all children.
pub proof fn lemma_post_children_split(f: Forest, h: Map<i32, nat>, id: i32, i: nat)
    requires
        i <= f[id].children.len(),
    ensures
        post_children(f, h, id, i) + post_children_from(f, h, id, i) == post_children(
            f,
            h,
            id,
            f[id].children.len(),
        ),
    decreases f[id].children.len() - i,
{
    let n = f[id].children.len();
    if i < n {
        lemma_post_children_split(f, h, id, i + 1);
        let c = f[id].children[i as int];
        let part = if h[c] < h[id] {
            post_order(f, h, c)
        } else {
            Seq::empty()
        };
        assert(post_children(f, h, id, i + 1) == post_children(f, h, id, i) + part);
        assert(post_children(f, h, id, i) + post_children_from(f, h, id, i) =~= post_children(
            f,
            h,
            id,
            i + 1,
        ) + post_children_from(f, h, id, i + 1));
    } else {
        assert(post_children(f, h, id, i) + post_children_from(f, h, id, i) =~= post_children(
            f,
            h,
            id,
            n,
        ));
    }
}

/// What a bullet that waits on the stack has yet to give: itself alone where
/// its children were put on the stack, else its whole post-order.
pub open spec fn waiting_order(f: Forest, h: Map<i32, nat>, e: (i32, bool)) -> Seq<i32> {
    if e.1 {
        seq![e.0]
    } else {
        post_order(f, h, e.0)
    }
}

/// What the bullets of a stack have yet to give, the last one first.
pub open spec fn stack_order(f: Forest, h: Map<i32, nat>, stack: Seq<(i32, bool)>) -> Seq<i32>
    decreases stack.len(),
{
    if stack.len() == 0 {
        Seq::empty()
    } else {
        waiting_order(f, h, stack.last()) + stack_order(f, h, stack.drop_last())
    }
}

/// A measure of the work that a stack holds: one for a bullet whose children
/// were put on the stack, and else twice what the bullet has yet to give.
pub open spec fn stack_work(f: Forest, h: Map<i32, nat>, stack: Seq<(i32, bool)>) -> nat
    decreases stack.len(),
{
    if stack.len() == 0 {
        0
    } else {
        stack_work(f, h, stack.drop_last()) + if stack.last().1 {
            1nat
        } else {
            2 * post_order(f, h, stack.last().0).len()
        }
    }
}

/// Appends to `out` the bullet `id` and its descendants in post-order. The
/// bullets wait on a stack: one that is met for the first time goes back
/// under its children, and is visited when it is met again.
pub fn post_order_into(nodes: &HashMap<i32, Node>, id: i32, out: &mut Vec<i32>)
    requires
        forest_ok(forest_of(nodes@)),
        nodes@.contains_key(id),
    ensures
        final(out)@ == old(out)@ + post_order_of(forest_of(nodes@), id),
{
    let ghost f = forest_of(nodes@);
    let ghost h = rank_of(f);
    let mut stack: VecDeque<(i32, bool)> = VecDeque::new();
    stack.push_back((id, false));
    proof {
        assert(stack@.drop_last() =~= Seq::<(i32, bool)>::empty());
        assert(stack@.last() == (id, false));
        assert(stack_order(f, h, Seq::<(i32, bool)>::empty()) =~= Seq::<i32>::empty());
        assert(stack_order(f, h, stack@) =~= post_order(f, h, id));
        assert(out@ + stack_order(f, h, stack@) =~= old(out)@ + post_order(f, h, id));
    }
    loop
        invariant
            f == forest_of(nodes@),
            h == rank_of(f),
            forest_ok(f),
            forall|k: int| 0 <= k < stack@.len() ==> f.contains_key((#[trigger] stack@[k]).0),
            out@ + stack_order(f, h, stack@) == old(out)@ + post_order(f, h, id),
        ensures
            out@ == old(out)@ + post_order(f, h, id),
        decreases stack_work(f, h, stack@),
    {
        let ghost held = stack@;
        let (x, met) = match stack.pop_back() {
            Some(e) => e,
            None => {
                proof {
                    assert(out@ =~= out@ + stack_order(f, h, stack@));
                }
                break ;
            },
        };
        let ghost rest = stack@;
        proof {
            assert(rest =~= held.drop_last());
            assert(held.last() == (x, met));
        }
        if met {
            out.push(x);
            proof {
                assert(out@ + stack_order(f, h, rest) =~= old(out)@ + post_order(f, h, id));
            }
        } else {
            let node = nodes.get(&x).unwrap();
            let ghost n = f[x].children.len();
            stack.push_back((x, true));
            let mut i: usize = node.children.len();
            proof {
                assert(stack@.drop_last() =~= rest);
                assert(post_children_from(f, h, x, n) =~= Seq::<i32>::empty());
                assert(stack_order(f, h, stack@) =~= post_children_from(f, h, x, n) + seq![x]
                    + stack_order(f, h, rest));
            }
            while i > 0
                invariant
                    i <= node.children.len(),
                    f == forest_of(nodes@),
                    h == rank_of(f),
                    forest_ok(f),
                    f.contains_key(x),
                    node@ == f[x],
                    n == f[x].children.len(),
                    forall|k: int| 0 <= k < rest.len() ==> f.contains_key((#[trigger] rest[k]).0),
                    forall|k: int|
                        0 <= k < stack@.len() ==> f.contains_key((#[trigger] stack@[k]).0),
                    stack_order(f, h, stack@) == post_children_from(f, h, x, i as nat) + seq![x]
                        + stack_order(f, h, rest),
                    stack_work(f, h, stack@) == stack_work(f, h, rest) + 1 + 2
                        * post_children_from(f, h, x, i as nat).len(),
                decreases i,
            {
                i -= 1;
                let child = node.children[i];
                let ghost below = stack@;
                stack.push_back((child, false));
                proof {
                    assert(child == f[x].children[i as int]);
                    assert(f.contains_key(child) && h[child] < h[x]);
                    assert(stack@.drop_last() =~= below);
                    assert(post_children_from(f, h, x, i as nat) == post_order(f, h, child)
                        + post_children_from(f, h, x, (i + 1) as nat));
                    assert(stack_order(f, h, stack@) =~= post_children_from(f, h, x, i as nat)
                        + seq![x] + stack_order(f, h, rest));
                }
            }
            proof {
                lemma_post_children_split(f, h, x, 0);
                assert(post_children(f, h, x, 0) + post_children_from(f, h, x, 0)
                    =~= post_children_from(f, h, x, 0));
                assert(post_order(f, h, x) == post_children(f, h, x, n).push(x));
                assert(stack_order(f, h, stack@) =~= post_order(f, h, x) + stack_order(f, h, rest));
                assert(out@ + stack_order(f, h, stack@) =~= old(out)@ + post_order(f, h, id));
            }
        }
    }
}


/// The bullet `id` and its descendants in post-order.
pub fn post_order_ids(nodes: &HashMap<i32, Node>, id: i32) -> (out: Vec<i32>)
    requires
        forest_ok(forest_of(nodes@)),
        nodes@.contains_key(id),
    ensures
        out@ == post_order_of(forest_of(nodes@), id),
        forall|x: i32| out@.contains(x) <==> in_subtree(forest_of(nodes@), id, x),
{
    let mut out: Vec<i32> = Vec::new();
    post_order_into(nodes, id, &mut out);
    proof {
        let f = forest_of(nodes@);
        assert(out@ =~= post_order_of(f, id));
        lemma_post_order_visits(f, rank_of(f), id);
    }
    out
}

/// The children of a row of bullets of the forest are bullets of the forest,
/// each below some bullet of the row.
pub proof fn lemma_children_of_all(f: Forest, h: Map<i32, nat>, row: Seq<i32>, depth: nat)
    requires
        child_links_ok(f),
        ranked(f, h),
        forall|j: int| 0 <= j < row.len() ==> f.contains_key(row[j]) && h[row[j]] < depth,
    ensures
        forall|j: int|
            0 <= j < children_of_all(f, row).len() ==> f.contains_key(
                #[trigger] children_of_all(f, row)[j],
            ) && h[children_of_all(f, row)[j]] + 1 < depth,
    decreases row.len(),
{
    if row.len() > 0 {
        let front = row.drop_last();
        lemma_children_of_all(f, h, front, depth);
        let all = children_of_all(f, row);
        let before = children_of_all(f, front);
        let x = row.last();
        assert forall|j: int| 0 <= j < all.len() implies f.contains_key(#[trigger] all[j])
            && h[all[j]] + 1 < depth by {
            if j < before.len() {
                assert(all[j] == before[j]);
            } else {
                assert(all[j] == f[x].children[j - before.len()]);
                assert(f.contains_key(f[x].children[j - before.len()]));
                assert(h[f[x].children[j - before.len()]] < h[x]);
            }
        }
    }
}

/// The bullet `id` and its descendants level by level. The bullets that are
/// found wait in a queue: each is visited when it comes to the front, and its
/// children join the queue at the back.
pub fn level_order_ids(nodes: &HashMap<i32, Node>, id: i32) -> (out: Vec<i32>)
    requires
        forest_ok(forest_of(nodes@)),
        nodes@.contains_key(id),
    ensures
        out@ == level_order_of(forest_of(nodes@), id),
{
    let ghost f = forest_of(nodes@);
    let ghost h = rank_of(f);
    let mut out: Vec<i32> = Vec::new();
    let mut queue: VecDeque<i32> = VecDeque::new();
    queue.push_back(id);
    // The row that is being visited, how many of its bullets were visited,
    // how many rows may follow, and what was visited before this row.
    let ghost mut row: Seq<i32> = seq![id];
    let ghost mut taken: int = 0;
    let ghost mut depth: nat = h[id] + 1;
    let ghost mut before: Seq<i32> = Seq::empty();
    proof {
        assert(row.take(0) =~= Seq::<i32>::empty());
        assert(queue@ =~= row.skip(0) + children_of_all(f, row.take(0)));
        assert(out@ =~= before + row.take(0));
        assert(before + level_order(f, row, depth) =~= level_order_of(f, id));
    }
    while queue.len() > 0
        invariant
            f == forest_of(nodes@),
            h == rank_of(f),
            forest_ok(f),
            row.len() > 0,
            0 <= taken <= row.len(),
            forall|j: int| 0 <= j < row.len() ==> f.contains_key(row[j]) && h[row[j]] < depth,
            queue@ == row.skip(taken) + children_of_all(f, row.take(taken)),
            out@ == before + row.take(taken),
            before + level_order(f, row, depth) == level_order_of(f, id),
        decreases depth, row.len() - taken,
    {
        proof {
            if taken == row.len() {
                let next = children_of_all(f, row);
                assert(row.take(taken) =~= row);
                assert(queue@ =~= next);
                lemma_children_of_all(f, h, row, depth);
                assert(h[next[0]] + 1 < depth);
                assert(before + row + level_order(f, next, (depth - 1) as nat) =~= before
                    + level_order(f, row, depth));
                before = before + row;
                row = next;
                depth = (depth - 1) as nat;
                taken = 0;
                assert(row.take(0) =~= Seq::<i32>::empty());
                assert(queue@ =~= row.skip(0) + children_of_all(f, row.take(0)));
                assert(out@ =~= before + row.take(0));
            }
        }
        let x = queue.pop_front().unwrap();
        out.push(x);
        let node = nodes.get(&x).unwrap();
        let ghost rest = queue@;
        let mut j: usize = 0;
        while j < node.children.len()
            invariant
                j <= node.children.len(),
                queue@ == rest + node.children@.take(j as int),
            decreases node.children.len() - j,
        {
            queue.push_back(node.children[j]);
            proof {
                assert(node.children@.take(j + 1) =~= node.children@.take(j as int).push(
                    node.children@[j as int],
                ));
            }
            j += 1;
        }
        proof {
            assert(x == row[taken]);
            assert(node.children@.take(j as int) =~= node.children@);
            let seen = row.take(taken + 1);
            assert(seen.drop_last() =~= row.take(taken));
            assert(seen.last() == x);
            assert(rest =~= row.skip(taken + 1) + children_of_all(f, row.take(taken)));
            assert(queue@ =~= row.skip(taken + 1) + children_of_all(f, seen));
            assert(out@ =~= before + seen);
            taken = taken + 1;
        }
    }
    proof {
        assert(row.take(taken) =~= row);
        assert(children_of_all(f, row) =~= Seq::<i32>::empty());
        assert(h[row[0]] < depth);
        assert(level_order(f, children_of_all(f, row), (depth - 1) as nat) =~= Seq::<i32>::empty());
        assert(out@ =~= before + level_order(f, row, depth));
    }
    out
}


/// A level order that starts from bullets of the forest visits bullets of
/// the forest.
pub proof fn lemma_level_order_within(f: Forest, h: Map<i32, nat>, row: Seq<i32>, depth: nat)
    requires
        child_links_ok(f),
        ranked(f, h),
        forall|j: int| 0 <= j < row.len() ==> f.contains_key(row[j]) && h[row[j]] < depth,
    ensures
        forall|j: int|
            0 <= j < level_order(f, row, depth).len() ==> f.contains_key(
                #[trigger] level_order(f, row, depth)[j],
            ),
    decreases depth,
{
    if depth > 0 && row.len() > 0 {
        lemma_children_of_all(f, h, row, depth);
        lemma_level_order_within(f, h, children_of_all(f, row), (depth - 1) as nat);
        let all = level_order(f, row, depth);
        let rest = level_order(f, children_of_all(f, row), (depth - 1) as nat);
        assert forall|j: int| 0 <= j < all.len() implies f.contains_key(#[trigger] all[j]) by {
            if j < row.len() {
                assert(all[j] == row[j]);
            } else {
                assert(all[j] == rest[j - row.len()]);
            }
        }
    }
}

} // verus!
