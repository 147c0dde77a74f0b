//! The text of a subtree, for a reader who wants to see the tree itself.

use crate::cluster::cluster_text;
use crate::node::{children_view, Node, NodeV};
use crate::token::token_text;
use vstd::prelude::*;
use vstd::string::StringExecFns;

verus! {

/// `count` spaces.
pub open spec fn spaces(count: nat) -> Seq<char> {
    Seq::new(count, |i: int| ' ')
}

/// A body between an opening and a closing bracket, each on a line of its
/// own.
pub open spec fn framed(body: Seq<char>) -> Seq<char> {
    "[\n"@ + body + "\n]"@
}

/// The number of entries of a node: the clusters of a leaf, the children
/// of an inner node.
pub open spec fn entries(node: NodeV) -> nat {
    match node {
        NodeV::Leaf { clusters } => clusters.len(),
        NodeV::Inner { children, depth } => children.len(),
    }
}

/// The text of the first `count` entries of a node. A cluster of a leaf is
/// `group [` with the cluster's text and `]`. A child of an inner node is a
/// line of its own: as many spaces as the node is deep, `Token: ` with the
/// key, and ` -> Children [` with the framed text of the child and `]`.
pub open spec fn body_upto(node: NodeV, count: nat) -> Seq<char>
    decreases node, count,
{
    if count == 0 || count > entries(node) {
        Seq::empty()
    } else {
        match node {
            NodeV::Leaf { clusters } => body_upto(node, (count - 1) as nat) + "group ["@
                + cluster_text(clusters[count - 1]) + "]"@,
            NodeV::Inner { children, depth } => body_upto(node, (count - 1) as nat) + spaces(depth)
                + "Token: "@ + token_text(children[count - 1].0) + " -> Children ["@ + framed(
                body_upto(children[count - 1].1, entries(children[count - 1].1)),
            ) + "]\n"@,
        }
    }
}

/// The text of a node: its entries, framed.
pub open spec fn node_text(node: NodeV) -> Seq<char> {
    framed(body_upto(node, entries(node)))
}

/// Appends `count` spaces to `text`.
fn append_spaces(text: &mut String, count: usize)
    ensures
        final(text)@ == old(text)@ + spaces(count as nat),
{
    let mut i: usize = 0;
    while i < count
        invariant
            i <= count,
            text@ == old(text)@ + spaces(i as nat),
        decreases count - i,
    {
        proof {
            reveal_strlit(" ");
        }
        text.append(" ");
        i += 1;
    }
}

impl Node {
    /// The text of this node and of all that is below it.
    pub fn to_string(&self) -> (text: String)
        ensures
            text@ == node_text(self@),
        decreases self,
    {
        let mut text = String::new();
        text.append("[\n");
        match self {
            Node::Leaf(leaf) => {
                let mut i: usize = 0;
                while i < leaf.log_groups.len()
                    invariant
                        i <= leaf.log_groups.len(),
                        *self == Node::Leaf(*leaf),
                        text@ == "[\n"@ + body_upto(self@, i as nat),
                    decreases leaf.log_groups.len() - i,
                {
                    text.append("group [");
                    let group = leaf.log_groups[i].to_string();
                    text.append(group.as_str());
                    text.append("]");
                    i += 1;
                }
            },
            Node::Inner(inner) => {
                proof {
                    self.lemma_view_inner();
                }
                let mut i: usize = 0;
                while i < inner.children.len()
                    invariant
                        i <= inner.children.len(),
                        *self == Node::Inner(*inner),
                        self@ == (NodeV::Inner {
                            children: children_view(inner.children@),
                            depth: inner.depth as nat,
                        }),
                        text@ == "[\n"@ + body_upto(self@, i as nat),
                    decreases inner.children.len() - i,
                {
                    append_spaces(&mut text, inner.depth);
                    text.append("Token: ");
                    let key = inner.children[i].key.to_string();
                    text.append(key.as_str());
                    text.append(" -> Children [");
                    let below = inner.children[i].node.to_string();
                    text.append(below.as_str());
                    text.append("]\n");
                    i += 1;
                }
            },
        }
        text.append("\n]");
        text
    }
}

} // verus!
