//! The document as a text, one line for each bullet.

use super::model::{rank_of, ranked, Forest};
use super::{visits, NodeIterator, Tree};
use crate::text::{decimal, push_decimal};
use vstd::prelude::*;
use vstd::string::StringExecFns;

verus! {

/// The line of the bullet `id` with the text `content`: the indentation
/// `prefix`, the identity, a full stop and a blank, the word `ACTIVE` and a
/// blank where the bullet is the active one, the text, and a line feed.
pub open spec fn outline_line(prefix: Seq<char>, id: i32, active: i32, content: Seq<char>) -> Seq<
    char,
> {
    prefix + decimal(id as int) + ". "@ + if id == active {
        "ACTIVE "@
    } else {
        Seq::empty()
    } + content + "\n"@
}

/// The lines of the bullet `id` and of its descendants in document order,
/// each indented by one tab more than its parent.
pub open spec fn outline(f: Forest, h: Map<i32, nat>, id: i32, prefix: Seq<char>, active: i32) -> Seq<
    char,
>
    decreases h[id], f[id].children.len() + 1,
{
    outline_line(prefix, id, active, f[id].content) + children_outline(
        f,
        h,
        id,
        prefix + "\t"@,
        active,
        f[id].children.len(),
    )
}

/// The lines of the first `n` children of `id`, with their descendants.
pub open spec fn children_outline(
    f: Forest,
    h: Map<i32, nat>,
    id: i32,
    prefix: Seq<char>,
    active: i32,
    n: nat,
) -> Seq<char>
    decreases h[id], n,
{
    if n == 0 {
        Seq::empty()
    } else {
        let c = f[id].children[n - 1];
        children_outline(f, h, id, prefix, active, (n - 1) as nat) + if h[c] < h[id] {
            outline(f, h, c, prefix, active)
        } else {
            Seq::empty()
        }
    }
}

/// Appends the lines of the bullet under the cursor `node` and of its
/// descendants to `out`.
fn outline_into(node: NodeIterator, prefix: &str, active: i32, out: &mut String)
    requires
        node.wf(),
    ensures
        final(out)@ == old(out)@ + outline(
            node.forest(),
            rank_of(node.forest()),
            node.spec_id(),
            prefix@,
            active,
        ),
    decreases rank_of(node.forest())[node.spec_id()], 1nat,
{
    out.append(prefix);
    push_decimal(out, node.id());
    out.append(". ");
    if node.id() == active {
        out.append("ACTIVE ");
    }
    out.append(node.content().as_str());
    out.append("\n");
    proof {
        assert(out@ =~= old(out)@ + outline_line(
            prefix@,
            node.spec_id(),
            active,
            node.forest()[node.spec_id()].content,
        ));
    }
    let deeper = String::from_str(prefix).concat("\t");
    children_outline_into(node, deeper.as_str(), active, out);
    proof {
        assert(out@ =~= old(out)@ + outline(
            node.forest(),
            rank_of(node.forest()),
            node.spec_id(),
            prefix@,
            active,
        ));
    }
}

/// Appends the lines of the children of the bullet under the cursor `node`,
/// with their descendants, to `out`.
fn children_outline_into(node: NodeIterator, prefix: &str, active: i32, out: &mut String)
    requires
        node.wf(),
    ensures
        final(out)@ == old(out)@ + children_outline(
            node.forest(),
            rank_of(node.forest()),
            node.spec_id(),
            prefix@,
            active,
            node.forest()[node.spec_id()].children.len(),
        ),
    decreases rank_of(node.forest())[node.spec_id()], 0nat,
{
    let ghost f = node.forest();
    let ghost h = rank_of(f);
    let ghost id = node.spec_id();
    let children = node.children_iter();
    let mut i: usize = 0;
    proof {
        assert(out@ =~= old(out)@ + children_outline(f, h, id, prefix@, active, 0));
    }
    while i < children.len()
        invariant
            i <= children.len(),
            visits(children@, f, f[id].children),
            f == node.forest(),
            h == rank_of(f),
            id == node.spec_id(),
            node.wf(),
            out@ == old(out)@ + children_outline(f, h, id, prefix@, active, i as nat),
        decreases children.len() - i,
    {
        let child = children[i];
        proof {
            assert(child.spec_id() == f[id].children[i as int] && child.forest() == f && child.wf());
            assert(ranked(f, h));
            assert(h[f[id].children[i as int]] < h[id]);
        }
        outline_into(child, prefix, active, out);
        proof {
            assert(out@ =~= old(out)@ + children_outline(f, h, id, prefix@, active, (i + 1) as nat));
        }
        i += 1;
    }
}

impl Tree {
    /// The document as a text: one line for each bullet, the root first and
    /// the others in document order, each indented by one tab more than its
    /// parent.
    pub fn to_text(&self) -> (r: String)
        requires
            self.wf(),
        ensures
            r@ == outline(self@.nodes, rank_of(self@.nodes), 0, Seq::empty(), self@.active),
    {
        let mut out = String::new();
        proof {
            reveal_strlit("");
        }
        outline_into(self.root_iter(), "", self.get_active_id(), &mut out);
        proof {
            assert(""@ =~= Seq::<char>::empty());
            assert(out@ =~= outline(
                self@.nodes,
                rank_of(self@.nodes),
                0,
                Seq::empty(),
                self@.active,
            ));
        }
        out
    }
}

} // verus!
