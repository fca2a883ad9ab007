//! The graph of a lava flow: every new node is linked to one node that came
//! before it, so the nodes always form a tree rooted at the first node.
use rand::rngs::ThreadRng;
use vstd::prelude::*;
use crate::random::gen_range_u32;

verus! {

/// `edges` lists, as pairs `(parent, child)`, the links of a flow with
/// `nodes` nodes (`nodes >= 1`): the `j`-th pair links node `j + 1` to a node
/// numbered at most `j`, so every node but the first has exactly one parent,
/// and that parent came before it.
pub open spec fn is_flow_tree(edges: Seq<u32>, nodes: nat) -> bool {
    &&& nodes >= 1
    &&& edges.len() == 2 * (nodes - 1)
    &&& forall|j: int|
        0 <= j < nodes - 1 ==> {
            &&& #[trigger] edges[2 * j + 1] == j + 1
            &&& edges[2 * j] <= j
        }
}

/// Links node `node - 1` (the newest of `node` nodes) to `parent`: when the
/// flow has more than one node, appends the pair `(parent, node - 1)` to
/// `edges`; a flow of one node has no link to add.
pub fn attach_node(edges: &mut Vec<u32>, node: u32, parent: u32)
    ensures
        node > 1 ==> final(edges)@ == old(edges)@ + seq![parent, (node - 1) as u32],
        node <= 1 ==> final(edges)@ == old(edges)@,
{
    if node > 1 {
        edges.push(parent);
        edges.push(node - 1);
    }
}

/// Links the newest of `node` nodes to one of the nodes before it, drawn at
/// random with `rng`.
pub fn link_flow_node(edges: &mut Vec<u32>, node: u32, rng: &mut ThreadRng)
    ensures
        node > 1 ==> {
            &&& final(edges)@.len() == old(edges)@.len() + 2
            &&& final(edges)@.take(old(edges)@.len() as int) == old(edges)@
            &&& final(edges)@[old(edges)@.len() as int] < node - 1
            &&& final(edges)@[old(edges)@.len() + 1int] == node - 1
        },
        node <= 1 ==> final(edges)@ == old(edges)@,
        node >= 1 && is_flow_tree(old(edges)@, (node - 1) as nat) ==> is_flow_tree(
            final(edges)@,
            node as nat,
        ),
{
    if node > 1 {
        let parent = gen_range_u32(rng, 0, node - 1);
        attach_node(edges, node, parent);
        proof {
            assert(edges@.take(old(edges)@.len() as int) =~= old(edges)@);
            if is_flow_tree(old(edges)@, (node - 1) as nat) {
                lemma_attach_keeps_tree(old(edges)@, (node - 1) as nat, parent);
            }
        }
    }
}

/// Linking a new node to any node before it keeps the flow a tree.
pub proof fn lemma_attach_keeps_tree(edges: Seq<u32>, nodes: nat, parent: u32)
    requires
        is_flow_tree(edges, nodes),
        parent < nodes,
        nodes < u32::MAX,
    ensures
        is_flow_tree(edges + seq![parent, nodes as u32], nodes + 1),
{
    let grown = edges + seq![parent, nodes as u32];
    assert forall|j: int| 0 <= j < nodes implies {
        &&& #[trigger] grown[2 * j + 1] == j + 1
        &&& grown[2 * j] <= j
    } by {
        if j < nodes - 1 {
            assert(grown[2 * j + 1] == edges[2 * j + 1]);
            assert(grown[2 * j] == edges[2 * j]);
        }
    }
}

/// A flow of one node has no links.
pub proof fn lemma_single_node_tree()
    ensures
        is_flow_tree(Seq::<u32>::empty(), 1),
{
}

} // verus!
