//! The nodes of the prefix tree: inner nodes that route by token, and the
//! leaves they end in.

use crate::cluster::{ClusterV, LogCluster};
use crate::leaf::{best_index, leaf_insert, matches_within, templates_of_length, Leaf};
use crate::similarity::Ratio;
use crate::token::{clone_tokens, routing_key, tokens_view, Token, TokenV};
use vstd::prelude::*;

verus! {

/// A child of an inner node with the key that selects it.
#[derive(Debug)]
pub struct Child {
    pub key: Token,
    pub node: Node,
}

/// An inner node: its children, no two under the same key, and its depth
/// below the root of its tree.
#[derive(Debug)]
pub struct Inner {
    pub children: Vec<Child>,
    pub depth: usize,
}

/// A node of the prefix tree.
#[derive(Debug)]
pub enum Node {
    Inner(Inner),
    Leaf(Leaf),
}

/// The mathematical value of a [`Node`].
pub ghost enum NodeV {
    Inner { children: Seq<(TokenV, NodeV)>, depth: nat },
    Leaf { clusters: Seq<ClusterV> },
}

/// The limits that govern how a line is routed and absorbed.
pub ghost struct Limits {
    /// The position at which every path ends in a leaf at the latest.
    pub max_depth: nat,
    /// The number of children above which an inner node sends new keys to
    /// its wildcard child.
    pub max_children: nat,
    /// The approximate score below which a line founds a cluster.
    pub min_similarity: Ratio,
}

/// The values of the children of an inner node.
pub open spec fn children_view(children: Seq<Child>) -> Seq<(TokenV, NodeV)> {
    Seq::new(children.len(), |i: int| (children[i].key@, children[i].node@))
}

impl Node {
    /// The value of this node: the clusters of a leaf, the keys and values
    /// of the children of an inner node with its depth.
    pub open spec fn view(&self) -> NodeV
        decreases self,
    {
        match self {
            Node::Leaf(leaf) => NodeV::Leaf { clusters: leaf@ },
            Node::Inner(inner) => NodeV::Inner {
                children: Seq::new(
                    inner.children@.len(),
                    |i: int|
                        if 0 <= i < inner.children@.len() {
                            (inner.children@[i].key@, inner.children@[i].node.view())
                        } else {
                            arbitrary()
                        },
                ),
                depth: inner.depth as nat,
            },
        }
    }
}

/// Whether some child stands under `key`.
pub open spec fn has_key(children: Seq<(TokenV, NodeV)>, key: TokenV) -> bool {
    exists|i: int| 0 <= i < children.len() && (#[trigger] children[i]).0 == key
}

/// The index of a child under `key`, where there is one.
pub open spec fn position_of(children: Seq<(TokenV, NodeV)>, key: TokenV) -> int {
    choose|i: int| 0 <= i < children.len() && (#[trigger] children[i]).0 == key
}

/// Whether no two children stand under the same key.
pub open spec fn distinct_keys(children: Seq<(TokenV, NodeV)>) -> bool {
    forall|i: int, j: int|
        0 <= i < children.len() && 0 <= j < children.len() && (#[trigger] children[i]).0 == (
        #[trigger] children[j]).0 ==> i == j
}

/// Whether the node that position `position` of a line of `len` tokens
/// selects is a leaf: at the last position, and at the depth limit.
pub open spec fn leaf_level(position: nat, len: nat, max_depth: nat) -> bool {
    position + 1 >= len || position == max_depth
}

/// The key under which an insertion goes on from an inner node: the
/// routing key of the line's token, but the wildcard where the child would
/// be another inner node, the key is new to the node and the node already
/// has more than `max_children` children.
pub open spec fn chosen_key(
    children: Seq<(TokenV, NodeV)>,
    key: TokenV,
    to_leaf: bool,
    max_children: nat,
) -> TokenV {
    if !to_leaf && !has_key(children, key) && children.len() > max_children {
        TokenV::WildCard
    } else {
        key
    }
}

/// The subtree that a line creates below a key that is new to an inner
/// node: a chain of inner nodes, one child each, that ends in a leaf with
/// the line as its only cluster. `position` is the position of the token
/// that selected the subtree.
pub open spec fn fresh_subtree(tokens: Seq<TokenV>, position: nat, max_depth: nat) -> NodeV
    decreases tokens.len() - position,
{
    if leaf_level(position, tokens.len(), max_depth) {
        NodeV::Leaf { clusters: seq![ClusterV::founded_by(tokens)] }
    } else {
        NodeV::Inner {
            children: seq![
                (
                    routing_key(tokens[position as int + 1]),
                    fresh_subtree(tokens, (position + 1) as nat, max_depth),
                ),
            ],
            depth: position,
        }
    }
}

/// The node after a line was added below it. A leaf absorbs the line. An
/// inner node of depth `d` hands it to the child under the key chosen for
/// position `d + 1`, which it creates if there is none.
pub open spec fn node_insert(node: NodeV, tokens: Seq<TokenV>, limits: Limits) -> NodeV
    decreases node,
{
    match node {
        NodeV::Leaf { clusters } => NodeV::Leaf {
            clusters: leaf_insert(clusters, tokens, limits.min_similarity),
        },
        NodeV::Inner { children, depth } => {
            let position = (depth + 1) as nat;
            let chosen = chosen_key(
                children,
                routing_key(tokens[position as int]),
                leaf_level(position, tokens.len(), limits.max_depth),
                limits.max_children,
            );
            let at = position_of(children, chosen);
            if has_key(children, chosen) && 0 <= at < children.len() {
                NodeV::Inner {
                    children: children.update(
                        at,
                        (chosen, node_insert(children[at].1, tokens, limits)),
                    ),
                    depth,
                }
            } else {
                NodeV::Inner {
                    children: children.push(
                        (chosen, fresh_subtree(tokens, position, limits.max_depth)),
                    ),
                    depth,
                }
            }
        },
    }
}

/// The cluster that a lookup of `tokens` below `node` finds: it follows
/// the children under the tokens themselves, and at the leaf it reaches
/// takes the best match. `None` where a child is missing or the leaf is
/// empty.
pub open spec fn node_lookup(node: NodeV, tokens: Seq<TokenV>) -> Option<ClusterV>
    decreases node,
{
    match node {
        NodeV::Leaf { clusters } => if clusters.len() == 0 {
            None
        } else {
            Some(clusters[best_index(clusters, tokens)])
        },
        NodeV::Inner { children, depth } => {
            let at = position_of(children, tokens[depth as int + 1]);
            if depth + 1 < tokens.len() && has_key(children, tokens[depth as int + 1]) && 0 <= at
                < children.len() {
                node_lookup(children[at].1, tokens)
            } else {
                None
            }
        },
    }
}

/// The keys under which the subtree that a line creates hands the line
/// on, from its top to its leaf.
pub open spec fn fresh_route(tokens: Seq<TokenV>, position: nat, max_depth: nat) -> Seq<TokenV>
    decreases tokens.len() - position,
{
    if leaf_level(position, tokens.len(), max_depth) {
        Seq::empty()
    } else {
        seq![routing_key(tokens[position as int + 1])] + fresh_route(
            tokens,
            (position + 1) as nat,
            max_depth,
        )
    }
}

/// The keys of the children through which a line is added below `node`,
/// from `node` down to the leaf that takes the line.
pub open spec fn insert_route(node: NodeV, tokens: Seq<TokenV>, limits: Limits) -> Seq<TokenV>
    decreases node,
{
    match node {
        NodeV::Leaf { clusters } => Seq::empty(),
        NodeV::Inner { children, depth } => {
            let position = (depth + 1) as nat;
            let chosen = chosen_key(
                children,
                routing_key(tokens[position as int]),
                leaf_level(position, tokens.len(), limits.max_depth),
                limits.max_children,
            );
            let at = position_of(children, chosen);
            if has_key(children, chosen) && 0 <= at < children.len() {
                seq![chosen] + insert_route(children[at].1, tokens, limits)
            } else {
                seq![chosen] + fresh_route(tokens, position, limits.max_depth)
            }
        },
    }
}

/// The node that the children under `keys`, one after the other, lead to
/// from `node`, if each of them exists.
pub open spec fn descend(node: NodeV, keys: Seq<TokenV>) -> Option<NodeV>
    decreases keys.len(),
{
    if keys.len() == 0 {
        Some(node)
    } else {
        match node {
            NodeV::Leaf { clusters } => None,
            NodeV::Inner { children, depth } => {
                let at = position_of(children, keys[0]);
                if has_key(children, keys[0]) && 0 <= at < children.len() {
                    descend(children[at].1, keys.drop_first())
                } else {
                    None
                }
            },
        }
    }
}

/// The clusters of the leaf that `keys` lead to from `node`; none where
/// they lead to no leaf.
pub open spec fn leaf_reached(node: NodeV, keys: Seq<TokenV>) -> Seq<ClusterV> {
    match descend(node, keys) {
        Some(NodeV::Leaf { clusters }) => clusters,
        _ => Seq::empty(),
    }
}

/// The number of children of an inner node; zero for a leaf.
pub open spec fn fan_out(node: NodeV) -> nat {
    match node {
        NodeV::Leaf { .. } => 0,
        NodeV::Inner { children, .. } => children.len(),
    }
}

/// The clusters of a leaf; for an inner node, the clusters below its first
/// `count` children, child by child.
pub open spec fn clusters_upto(node: NodeV, count: nat) -> Seq<ClusterV>
    decreases node, count,
{
    match node {
        NodeV::Leaf { clusters } => clusters,
        NodeV::Inner { children, depth } => if count == 0 || count > children.len() {
            Seq::empty()
        } else {
            clusters_upto(node, (count - 1) as nat) + clusters_upto(
                children[count - 1].1,
                fan_out(children[count - 1].1),
            )
        },
    }
}

/// All clusters below `node`, child by child.
pub open spec fn node_clusters(node: NodeV) -> Seq<ClusterV> {
    clusters_upto(node, fan_out(node))
}

/// Whether `node` is well formed as a node of the tree for lines of `len`
/// tokens in which no cluster stands for more than `bound` lines: every
/// template below it has `len` positions, every cluster stands for one
/// line at least, no inner node has two children under one key, an inner
/// node of depth `d` routes by a position `d + 1` that the lines have, and
/// its inner children have depth `d + 1`.
pub open spec fn node_wf(node: NodeV, len: nat, bound: nat) -> bool
    decreases node,
{
    match node {
        NodeV::Leaf { clusters } => templates_of_length(clusters, len) && matches_within(
            clusters,
            bound,
        ),
        NodeV::Inner { children, depth } => {
            &&& depth + 1 < len
            &&& distinct_keys(children)
            &&& forall|i: int|
                0 <= i < children.len() ==> {
                    &&& node_wf((#[trigger] children[i]).1, len, bound)
                    &&& children[i].1 is Inner ==> children[i].1->depth == depth + 1
                }
        },
    }
}

/// Whether no inner node below `node` that has inner nodes for children
/// has more than `max_children + 1` children, its wildcard child not
/// counted.
pub open spec fn fan_out_bounded(node: NodeV, len: nat, limits: Limits) -> bool
    decreases node,
{
    match node {
        NodeV::Leaf { clusters } => true,
        NodeV::Inner { children, depth } => {
            &&& !leaf_level(depth + 1, len, limits.max_depth) ==> children.len()
                <= limits.max_children + 1 + if has_key(children, TokenV::WildCard) {
                1nat
            } else {
                0nat
            }
            &&& forall|i: int|
                0 <= i < children.len() ==> fan_out_bounded((#[trigger] children[i]).1, len, limits)
        },
    }
}

/// The limits as the tree holds them.
pub open spec fn limits_of(max_depth: u16, max_children: u16, min_similarity: Ratio) -> Limits {
    Limits { max_depth: max_depth as nat, max_children: max_children as nat, min_similarity }
}

/// Under keys that are distinct, the child under a key is found at the one
/// index that holds the key.
pub proof fn lemma_position_of(children: Seq<(TokenV, NodeV)>, key: TokenV, at: int)
    requires
        distinct_keys(children),
        0 <= at < children.len(),
        children[at].0 == key,
    ensures
        has_key(children, key),
        position_of(children, key) == at,
{
}

/// A well-formed node stays well formed when more lines are allowed to
/// each cluster.
pub proof fn lemma_wf_monotone(node: NodeV, len: nat, bound: nat, larger: nat)
    requires
        node_wf(node, len, bound),
        bound <= larger,
    ensures
        node_wf(node, len, larger),
    decreases node,
{
    match node {
        NodeV::Leaf { clusters } => {},
        NodeV::Inner { children, depth } => {
            assert forall|i: int| 0 <= i < children.len() implies node_wf(
                (#[trigger] children[i]).1,
                len,
                larger,
            ) by {
                lemma_wf_monotone(children[i].1, len, bound, larger);
            }
        },
    }
}

/// The subtree that a line creates is well formed, and an inner node at
/// its top has the depth of the position that selected it.
pub proof fn lemma_fresh_subtree_wf(
    tokens: Seq<TokenV>,
    position: nat,
    max_depth: nat,
    bound: nat,
)
    requires
        position < tokens.len(),
        1 <= bound,
    ensures
        node_wf(fresh_subtree(tokens, position, max_depth), tokens.len(), bound),
        fresh_subtree(tokens, position, max_depth) is Inner ==> fresh_subtree(
            tokens,
            position,
            max_depth,
        )->depth == position,
    decreases tokens.len() - position,
{
    if !leaf_level(position, tokens.len(), max_depth) {
        lemma_fresh_subtree_wf(tokens, position + 1, max_depth, bound);
    }
}

/// A leaf that is well formed stays so when it takes a line of its
/// length, with one more line allowed to each cluster.
pub proof fn lemma_leaf_insert_wf(
    clusters: Seq<ClusterV>,
    tokens: Seq<TokenV>,
    min_similarity: Ratio,
    bound: nat,
)
    requires
        templates_of_length(clusters, tokens.len()),
        matches_within(clusters, bound),
    ensures
        templates_of_length(leaf_insert(clusters, tokens, min_similarity), tokens.len()),
        matches_within(leaf_insert(clusters, tokens, min_similarity), bound + 1),
{
    if clusters.len() > 0 {
        crate::leaf::lemma_best_index_in_range(clusters, tokens);
    }
}

/// Adding a line of `len` tokens keeps a node well formed, with one more
/// line allowed to each cluster, and keeps its kind and depth.
pub proof fn lemma_insert_wf(node: NodeV, tokens: Seq<TokenV>, limits: Limits, bound: nat)
    requires
        node_wf(node, tokens.len(), bound),
    ensures
        node_wf(node_insert(node, tokens, limits), tokens.len(), bound + 1),
        node is Inner ==> node_insert(node, tokens, limits) is Inner && node_insert(
            node,
            tokens,
            limits,
        )->depth == node->depth,
        node is Leaf ==> node_insert(node, tokens, limits) is Leaf,
    decreases node,
{
    match node {
        NodeV::Leaf { clusters } => {
            lemma_leaf_insert_wf(clusters, tokens, limits.min_similarity, bound);
        },
        NodeV::Inner { children, depth } => {
            let position = (depth + 1) as nat;
            let chosen = chosen_key(
                children,
                routing_key(tokens[position as int]),
                leaf_level(position, tokens.len(), limits.max_depth),
                limits.max_children,
            );
            let at = position_of(children, chosen);
            let after = node_insert(node, tokens, limits)->children;
            if has_key(children, chosen) && 0 <= at < children.len() {
                lemma_insert_wf(children[at].1, tokens, limits, bound);
                assert forall|i: int| 0 <= i < after.len() implies {
                    &&& node_wf((#[trigger] after[i]).1, tokens.len(), bound + 1)
                    &&& after[i].1 is Inner ==> after[i].1->depth == depth + 1
                } by {
                    if i != at {
                        lemma_wf_monotone(children[i].1, tokens.len(), bound, bound + 1);
                    }
                }
            } else {
                lemma_fresh_subtree_wf(tokens, position, limits.max_depth, bound + 1);
                assert forall|i: int| 0 <= i < after.len() implies {
                    &&& node_wf((#[trigger] after[i]).1, tokens.len(), bound + 1)
                    &&& after[i].1 is Inner ==> after[i].1->depth == depth + 1
                } by {
                    if i < children.len() {
                        lemma_wf_monotone(children[i].1, tokens.len(), bound, bound + 1);
                    }
                }
            }
        },
    }
}

impl Inner {
    /// The index of the child under `key`, if there is one.
    pub fn find_child(&self, key: &Token) -> (found: Option<usize>)
        ensures
            found is Some <==> has_key(children_view(self.children@), key@),
            found matches Some(at) ==> {
                &&& at < self.children@.len()
                &&& self.children@[at as int].key@ == key@
                &&& forall|j: int| 0 <= j < at ==> (#[trigger] self.children@[j]).key@ != key@
            },
    {
        let mut i: usize = 0;
        while i < self.children.len()
            invariant
                i <= self.children.len(),
                forall|j: int| 0 <= j < i ==> (#[trigger] self.children@[j]).key@ != key@,
            decreases self.children.len() - i,
        {
            if self.children[i].key == *key {
                assert(children_view(self.children@)[i as int].0 == key@);
                return Some(i);
            }
            i += 1;
        }
        None
    }
}

impl Node {
    /// The value of an inner node is made of the values of its children.
    pub proof fn lemma_view_inner(self)
        requires
            self is Inner,
        ensures
            self@ == (NodeV::Inner {
                children: children_view(self->Inner_0.children@),
                depth: self->Inner_0.depth as nat,
            }),
    {
        assert(self@->children =~= children_view(self->Inner_0.children@));
    }

    /// An inner node of the given depth without children.
    pub fn inner(depth: usize) -> (node: Node)
        ensures
            node@ == (NodeV::Inner { children: Seq::empty(), depth: depth as nat }),
    {
        let node = Node::Inner(Inner { children: Vec::new(), depth });
        assert(node@->children =~= Seq::empty());
        node
    }

    /// A leaf without clusters.
    pub fn leaf() -> (node: Node)
        ensures
            node@ == (NodeV::Leaf { clusters: Seq::empty() }),
    {
        Node::Leaf(Leaf::new())
    }

    /// The subtree that a line creates below a key that is new to an inner
    /// node; `position` is the position of the token that selected it.
    pub fn fresh_subtree(position: usize, max_depth: &u16, log_tokens: &[Token]) -> (node: Node)
        requires
            position < log_tokens@.len(),
        ensures
            node@ == fresh_subtree(tokens_view(log_tokens@), position as nat, *max_depth as nat),
        decreases log_tokens@.len() - position,
    {
        let ghost tokens = tokens_view(log_tokens@);
        let len = log_tokens.len();
        if position + 1 >= len || position == *max_depth as usize {
            let mut log_groups: Vec<LogCluster> = Vec::new();
            log_groups.push(LogCluster::new(clone_tokens(log_tokens)));
            let leaf = Leaf { log_groups };
            assert(leaf@ =~= seq![ClusterV::founded_by(tokens)]);
            Node::Leaf(leaf)
        } else {
            let key = log_tokens[position + 1].routing_key();
            let below = Node::fresh_subtree(position + 1, max_depth, log_tokens);
            let mut children: Vec<Child> = Vec::new();
            children.push(Child { key, node: below });
            let node = Node::Inner(Inner { children, depth: position });
            assert(node@->children =~= seq![
                (
                    routing_key(tokens[position as int + 1]),
                    fresh_subtree(tokens, (position + 1) as nat, *max_depth as nat),
                ),
            ]);
            node
        }
    }

    /// Adds a line below this node. A leaf takes the line into its best
    /// match or as a new cluster. An inner node, of depth `depth`, hands
    /// the line to the child under the key chosen for position
    /// `depth + 1`, and creates that child if there is none.
    pub fn add_child_recur(
        &mut self,
        depth: usize,
        max_depth: &u16,
        max_children: &u16,
        min_similarity: &Ratio,
        log_tokens: &[Token],
    )
        requires
            node_wf(old(self)@, log_tokens@.len() as nat, (u64::MAX - 1) as nat),
            old(self)@ is Inner ==> old(self)@->depth == depth,
        ensures
            final(self)@ == node_insert(
                old(self)@,
                tokens_view(log_tokens@),
                limits_of(*max_depth, *max_children, *min_similarity),
            ),
            node_wf(final(self)@, log_tokens@.len() as nat, u64::MAX as nat),
        decreases *old(self),
    {
        let ghost tokens = tokens_view(log_tokens@);
        let ghost limits = limits_of(*max_depth, *max_children, *min_similarity);
        let ghost before = old(self)@;
        proof {
            lemma_insert_wf(before, tokens, limits, (u64::MAX - 1) as nat);
        }
        match self {
            Node::Leaf(leaf) => {
                leaf.insert_or_merge(log_tokens, min_similarity);
            },
            Node::Inner(inner) => {
                let ghost kids = children_view(inner.children@);
                proof {
                    old(self).lemma_view_inner();
                }
                let len = log_tokens.len();
                let next = depth + 1;
                let key = log_tokens[next].routing_key();
                let to_leaf = next + 1 >= len || next == *max_depth as usize;
                let mut found = inner.find_child(&key);
                let chosen = if !to_leaf && found.is_none() && inner.children.len()
                    > *max_children as usize {
                    found = inner.find_child(&Token::WildCard);
                    Token::WildCard
                } else {
                    key
                };
                match found {
                    Some(at) => {
                        proof {
                            lemma_position_of(kids, chosen@, at as int);
                        }
                        let child = &mut inner.children[at];
                        child.node.add_child_recur(
                            next,
                            max_depth,
                            max_children,
                            min_similarity,
                            log_tokens,
                        );
                    },
                    None => {
                        let below = Node::fresh_subtree(next, max_depth, log_tokens);
                        inner.children.push(Child { key: chosen, node: below });
                    },
                }
            },
        }
        proof {
            if *old(self) is Inner {
                self.lemma_view_inner();
                old(self).lemma_view_inner();
                let kids = children_view((*old(self))->Inner_0.children@);
                let chosen = chosen_key(
                    kids,
                    routing_key(tokens[depth as int + 1]),
                    leaf_level((depth + 1) as nat, tokens.len(), limits.max_depth),
                    limits.max_children,
                );
                let at = position_of(kids, chosen);
                let after = children_view((*self)->Inner_0.children@);
                if has_key(kids, chosen) && 0 <= at < kids.len() {
                    assert(after =~= kids.update(
                        at,
                        (chosen, node_insert(kids[at].1, tokens, limits)),
                    ));
                } else {
                    assert(after =~= kids.push(
                        (chosen, fresh_subtree(tokens, (depth + 1) as nat, limits.max_depth)),
                    ));
                }
            }
        }
    }

    /// The cluster that a lookup of `log_tokens` below this node finds: it
    /// follows the children under the tokens themselves and takes the best
    /// match of the leaf it reaches.
    pub fn best_match<'a>(&'a self, log_tokens: &[Token]) -> (found: Option<&'a LogCluster>)
        requires
            exists|bound: nat| node_wf(self@, log_tokens@.len() as nat, bound),
        ensures
            match found {
                Some(cluster) => node_lookup(self@, tokens_view(log_tokens@)) == Some(cluster@),
                None => node_lookup(self@, tokens_view(log_tokens@)) is None,
            },
        decreases self,
    {
        let ghost tokens = tokens_view(log_tokens@);
        let ghost bound = choose|bound: nat| node_wf(self@, log_tokens@.len() as nat, bound);
        match self {
            Node::Leaf(leaf) => match leaf.best_group(log_tokens) {
                Some(gas) => {
                    proof {
                        assert(leaf.log_groups@.len() == leaf.log_groups.len());
                        crate::leaf::lemma_best_index_in_range(leaf@, tokens);
                    }
                    Some(&leaf.log_groups[gas.group_index])
                },
                None => None,
            },
            Node::Inner(inner) => {
                proof {
                    self.lemma_view_inner();
                    assert(log_tokens@.len() == log_tokens.len());
                }
                let ghost kids = children_view(inner.children@);
                let token = &log_tokens[inner.depth + 1];
                match inner.find_child(token) {
                    Some(at) => {
                        proof {
                            assert(node_wf(kids[at as int].1, tokens.len(), bound));
                        }
                        inner.children[at].node.best_match(log_tokens)
                    },
                    None => None,
                }
            },
        }
    }

    /// All clusters below this node: those of a leaf in the order in which
    /// they were founded, those below an inner node child by child.
    pub fn log_groups(&self) -> (groups: Vec<&LogCluster>)
        ensures
            groups@.map_values(|cluster: &LogCluster| cluster@) == node_clusters(self@),
        decreases self,
    {
        let mut groups: Vec<&LogCluster> = Vec::new();
        match self {
            Node::Leaf(leaf) => {
                let mut i: usize = 0;
                while i < leaf.log_groups.len()
                    invariant
                        i <= leaf.log_groups.len(),
                        groups@.map_values(|cluster: &LogCluster| cluster@) == leaf@.take(
                            i as int,
                        ),
                    decreases leaf.log_groups.len() - i,
                {
                    groups.push(&leaf.log_groups[i]);
                    assert(leaf@.take(i + 1) =~= leaf@.take(i as int).push(leaf@[i as int]));
                    i += 1;
                }
            },
            Node::Inner(inner) => {
                let mut i: usize = 0;
                while i < inner.children.len()
                    invariant
                        i <= inner.children.len(),
                        *self == Node::Inner(*inner),
                        self@->children == children_view(inner.children@),
                        groups@.map_values(|cluster: &LogCluster| cluster@) == clusters_upto(
                            self@,
                            i as nat,
                        ),
                    decreases inner.children.len() - i,
                {
                    let mut below = inner.children[i].node.log_groups();
                    groups.append(&mut below);
                    i += 1;
                }
            },
        }
        groups
    }
}

} // verus!