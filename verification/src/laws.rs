//! What holds of templates and of the tree, whatever the lines.

use crate::cluster::{covers, hits, merged_template, similarity_of, ClusterV};
use crate::leaf::{
    above, best_index, is_best_match, leaf_insert, lemma_best_index_in_range, score,
    starts_cluster, templates_of_length, total_matches,
};
use crate::node::{
    chosen_key, clusters_upto, descend, fan_out, fan_out_bounded, fresh_route, fresh_subtree,
    has_key, insert_route, leaf_level, leaf_reached, lemma_insert_wf, lemma_position_of,
    node_clusters, node_insert, node_lookup, node_wf, position_of, Limits, NodeV,
};
use crate::similarity::Ratio;
use crate::token::{routing_key, TokenV};
use crate::tree::TreeV;
use vstd::prelude::*;

verus! {

/// A cluster after it has absorbed the lines of `inputs`, one after the
/// other.
pub open spec fn absorb_all(cluster: ClusterV, inputs: Seq<Seq<TokenV>>) -> ClusterV
    decreases inputs.len(),
{
    if inputs.len() == 0 {
        cluster
    } else {
        absorb_all(cluster, inputs.drop_last()).absorb(inputs.last())
    }
}

/// Absorbing lines keeps the length of a template, and a position that
/// holds the wildcard holds it ever after.
pub proof fn lemma_wildcards_stay(cluster: ClusterV, inputs: Seq<Seq<TokenV>>)
    ensures
        absorb_all(cluster, inputs).template.len() == cluster.template.len(),
        forall|i: int|
            0 <= i < cluster.template.len() && (#[trigger] cluster.template[i]) is WildCard
                ==> absorb_all(cluster, inputs).template[i] is WildCard,
    decreases inputs.len(),
{
    if inputs.len() > 0 {
        lemma_wildcards_stay(cluster, inputs.drop_last());
    }
}

/// A cluster stands for the line that founded it and for one more line
/// each time it was chosen to absorb one.
pub proof fn lemma_matches_count_lines(founder: Seq<TokenV>, inputs: Seq<Seq<TokenV>>)
    ensures
        absorb_all(ClusterV::founded_by(founder), inputs).matches == inputs.len() + 1,
    decreases inputs.len(),
{
    if inputs.len() > 0 {
        lemma_matches_count_lines(founder, inputs.drop_last());
    }
}

/// No more positions count towards a score than the template has, and
/// every position that counts towards the exact score counts towards the
/// approximate score.
pub proof fn lemma_hits_bounded(template: Seq<TokenV>, input: Seq<TokenV>)
    ensures
        hits(template, input, false) <= hits(template, input, true) <= template.len(),
    decreases template.len(),
{
    if template.len() > 0 {
        lemma_hits_bounded(template.drop_last(), input);
    }
}

/// Against a line that it stands for, every position of a template counts
/// towards the approximate score.
pub proof fn lemma_covering_hits_everywhere(template: Seq<TokenV>, input: Seq<TokenV>)
    requires
        template.len() <= input.len(),
        forall|i: int|
            0 <= i < template.len() ==> (#[trigger] template[i]) == input[i] || template[i] is WildCard,
    ensures
        hits(template, input, true) == template.len(),
    decreases template.len(),
{
    if template.len() > 0 {
        lemma_covering_hits_everywhere(template.drop_last(), input);
    }
}

/// Against itself, every position of a template counts towards both
/// scores.
pub proof fn lemma_hits_of_itself(template: Seq<TokenV>, whole: Seq<TokenV>, approximate: bool)
    requires
        template.len() <= whole.len(),
        forall|i: int| 0 <= i < template.len() ==> #[trigger] template[i] == whole[i],
    ensures
        hits(template, whole, approximate) == template.len(),
    decreases template.len(),
{
    if template.len() > 0 {
        lemma_hits_of_itself(template.drop_last(), whole, approximate);
    }
}

/// A template that is not empty is fully similar to itself: both of its
/// scores against itself are one.
pub proof fn lemma_similar_to_itself(template: Seq<TokenV>)
    requires
        0 < template.len() <= u64::MAX,
    ensures
        similarity_of(template, template).exact_similarity.same_as(
            Ratio { numerator: 1, denominator: 1 },
        ),
        similarity_of(template, template).approximate_similarity.same_as(
            Ratio { numerator: 1, denominator: 1 },
        ),
{
    lemma_hits_of_itself(template, template, false);
    lemma_hits_of_itself(template, template, true);
}

/// Of two ratios over the same denominator that is not zero, the one with
/// the larger numerator is the larger.
pub proof fn lemma_compare_same_denominator(left: u64, right: u64, denominator: u64)
    requires
        denominator != 0,
    ensures
        (Ratio { numerator: left, denominator }).less_than(Ratio { numerator: right, denominator })
            <==> left < right,
        (Ratio { numerator: left, denominator }).same_as(Ratio { numerator: right, denominator })
            <==> left == right,
{
    assert(left * denominator < right * denominator <==> left < right) by (nonlinear_arith)
        requires
            denominator > 0,
    ;
    assert(left * denominator == right * denominator <==> left == right) by (nonlinear_arith)
        requires
            denominator > 0,
    ;
}

/// Scores of templates of one length against one line rank as the counts
/// behind them do. Templates without positions have no score that ranks.
pub proof fn lemma_ranks_as_counts(left: Seq<TokenV>, right: Seq<TokenV>, input: Seq<TokenV>)
    requires
        left.len() == right.len(),
        left.len() <= u64::MAX,
    ensures
        similarity_of(left, input).ranks_above(similarity_of(right, input)) <==> left.len() > 0
            && above(score(left, input), score(right, input)),
{
    lemma_hits_bounded(left, input);
    lemma_hits_bounded(right, input);
    if left.len() > 0 {
        let len = left.len() as u64;
        lemma_compare_same_denominator(
            hits(right, input, false) as u64,
            hits(left, input, false) as u64,
            len,
        );
        lemma_compare_same_denominator(
            hits(right, input, true) as u64,
            hits(left, input, true) as u64,
            len,
        );
    }
}

/// The best match of a line in a leaf that is not empty is the first
/// cluster whose scores no other cluster exceeds, the exact score taken
/// first.
pub proof fn lemma_best_is_maximal(clusters: Seq<ClusterV>, input: Seq<TokenV>)
    requires
        clusters.len() > 0,
        input.len() <= u64::MAX,
        templates_of_length(clusters, input.len()),
    ensures
        is_best_match(clusters, input, best_index(clusters, input)),
    decreases clusters.len(),
{
    if clusters.len() > 1 {
        let earlier = clusters.drop_last();
        lemma_best_is_maximal(earlier, input);
        let before = best_index(earlier, input);
        let last = clusters.len() - 1;
        lemma_ranks_as_counts(clusters[last].template, clusters[before].template, input);
        assert forall|j: int| 0 <= j < clusters.len() implies (#[trigger] clusters[j])
            == if j < last {
            earlier[j]
        } else {
            clusters.last()
        } by {}
    }
}

/// Only one cluster of a leaf is its best match of a line.
pub proof fn lemma_best_is_unique(clusters: Seq<ClusterV>, input: Seq<TokenV>, a: int, b: int)
    requires
        is_best_match(clusters, input, a),
        is_best_match(clusters, input, b),
    ensures
        a == b,
{
    if a < b {
        assert(!above(score(clusters[b].template, input), score(clusters[a].template, input)));
    } else if b < a {
        assert(!above(score(clusters[a].template, input), score(clusters[b].template, input)));
    }
}

/// The subtree that a line creates leads, under the keys of its route, to
/// a leaf that holds the line as its only cluster.
pub proof fn lemma_fresh_subtree_lands(tokens: Seq<TokenV>, position: nat, max_depth: nat)
    ensures
        descend(
            fresh_subtree(tokens, position, max_depth),
            fresh_route(tokens, position, max_depth),
        ) == Some(NodeV::Leaf { clusters: seq![ClusterV::founded_by(tokens)] }),
    decreases tokens.len() - position,
{
    if !leaf_level(position, tokens.len(), max_depth) {
        let below = fresh_subtree(tokens, position + 1, max_depth);
        let rest = fresh_route(tokens, position + 1, max_depth);
        let key = routing_key(tokens[position as int + 1]);
        let children = seq![(key, below)];
        lemma_fresh_subtree_lands(tokens, position + 1, max_depth);
        assert(children[0].0 == key);
        assert(fresh_route(tokens, position, max_depth).drop_first() =~= rest);
    }
}

/// A line is added to the leaf at the end of its route: after the
/// insertion the route leads to a leaf, and that leaf holds what the leaf
/// at the end of the route held before, none if there was no such leaf,
/// with the line added.
pub proof fn lemma_insert_lands(node: NodeV, tokens: Seq<TokenV>, limits: Limits, bound: nat)
    requires
        node_wf(node, tokens.len(), bound),
    ensures
        descend(node_insert(node, tokens, limits), insert_route(node, tokens, limits)) == Some(
            NodeV::Leaf {
                clusters: leaf_insert(
                    leaf_reached(node, insert_route(node, tokens, limits)),
                    tokens,
                    limits.min_similarity,
                ),
            },
        ),
    decreases node,
{
    match node {
        NodeV::Leaf { clusters } => {},
        NodeV::Inner { children, depth } => {
            let position = (depth + 1) as nat;
            let chosen = chosen_key(
                children,
                routing_key(tokens[position as int]),
                leaf_level(position, tokens.len(), limits.max_depth),
                limits.max_children,
            );
            let at = position_of(children, chosen);
            let route = insert_route(node, tokens, limits);
            let after = node_insert(node, tokens, limits)->children;
            if has_key(children, chosen) && 0 <= at < children.len() {
                lemma_insert_lands(children[at].1, tokens, limits, bound);
                assert(route.drop_first() =~= insert_route(children[at].1, tokens, limits));
                lemma_position_of(after, chosen, at);
            } else {
                lemma_fresh_subtree_lands(tokens, position, limits.max_depth);
                assert(route.drop_first() =~= fresh_route(tokens, position, limits.max_depth));
                lemma_position_of(after, chosen, children.len() as int);
            }
        },
    }
}

/// The index, in a leaf that has taken a line, of the cluster that stands
/// for the line: the new last cluster if the line founded one, its best
/// match if not.
pub open spec fn absorbing_index(
    clusters: Seq<ClusterV>,
    input: Seq<TokenV>,
    min_similarity: Ratio,
) -> int {
    if starts_cluster(clusters, input, min_similarity) {
        clusters.len() as int
    } else {
        best_index(clusters, input)
    }
}

/// A leaf that has taken a line of the length of its templates holds a
/// cluster that stands for the line.
pub proof fn lemma_leaf_insert_covers(
    clusters: Seq<ClusterV>,
    input: Seq<TokenV>,
    min_similarity: Ratio,
)
    requires
        templates_of_length(clusters, input.len()),
    ensures
        0 <= absorbing_index(clusters, input, min_similarity) < leaf_insert(
            clusters,
            input,
            min_similarity,
        ).len(),
        covers(
            leaf_insert(clusters, input, min_similarity)[absorbing_index(
                clusters,
                input,
                min_similarity,
            )].template,
            input,
        ),
{
    if clusters.len() > 0 {
        lemma_best_index_in_range(clusters, input);
    }
}

/// The clusters below the first children of an inner node are among those
/// below more of its children.
pub proof fn lemma_clusters_upto_grow(node: NodeV, fewer: nat, more: nat, cluster: ClusterV)
    requires
        node is Inner,
        fewer <= more <= fan_out(node),
        clusters_upto(node, fewer).contains(cluster),
    ensures
        clusters_upto(node, more).contains(cluster),
    decreases more,
{
    if fewer < more {
        lemma_clusters_upto_grow(node, fewer, (more - 1) as nat, cluster);
        let earlier = clusters_upto(node, (more - 1) as nat);
        let index = choose|i: int| 0 <= i < earlier.len() && earlier[i] == cluster;
        assert(clusters_upto(node, more)[index] == cluster);
    }
}

/// The clusters below a child of an inner node are among the clusters
/// below the node.
pub proof fn lemma_child_clusters_below(node: NodeV, at: int, cluster: ClusterV)
    requires
        node is Inner,
        0 <= at < fan_out(node),
        node_clusters(node->children[at].1).contains(cluster),
    ensures
        node_clusters(node).contains(cluster),
{
    let below = node_clusters(node->children[at].1);
    let index = choose|i: int| 0 <= i < below.len() && below[i] == cluster;
    let earlier = clusters_upto(node, at as nat);
    assert(clusters_upto(node, (at + 1) as nat)[earlier.len() + index] == cluster);
    lemma_clusters_upto_grow(node, (at + 1) as nat, fan_out(node), cluster);
}

/// The clusters of a leaf that keys lead to from a node are among the
/// clusters below the node.
pub proof fn lemma_reached_clusters_below(node: NodeV, keys: Seq<TokenV>, cluster: ClusterV)
    requires
        leaf_reached(node, keys).contains(cluster),
    ensures
        node_clusters(node).contains(cluster),
    decreases keys.len(),
{
    if keys.len() > 0 {
        match node {
            NodeV::Leaf { clusters } => {},
            NodeV::Inner { children, depth } => {
                let at = position_of(children, keys[0]);
                lemma_reached_clusters_below(children[at].1, keys.drop_first(), cluster);
                lemma_child_clusters_below(node, at, cluster);
            },
        }
    }
}

/// After a line was added below a node, some cluster below the node
/// stands for the line: it has the length of the line, and at every
/// position it holds the line's token or the wildcard.
pub proof fn lemma_line_is_covered(node: NodeV, tokens: Seq<TokenV>, limits: Limits, bound: nat)
    requires
        node_wf(node, tokens.len(), bound),
    ensures
        exists|cluster: ClusterV|
            #[trigger] node_clusters(node_insert(node, tokens, limits)).contains(cluster)
                && covers(cluster.template, tokens),
{
    let route = insert_route(node, tokens, limits);
    let after = node_insert(node, tokens, limits);
    let before = leaf_reached(node, route);
    lemma_insert_lands(node, tokens, limits, bound);
    lemma_reached_is_well_formed(node, route, tokens.len(), bound);
    lemma_leaf_insert_covers(before, tokens, limits.min_similarity);
    let leaf = leaf_insert(before, tokens, limits.min_similarity);
    let cluster = leaf[absorbing_index(before, tokens, limits.min_similarity)];
    lemma_reached_clusters_below(after, route, cluster);
}

/// The templates of a leaf that keys lead to from a well-formed node have
/// the length that the node is well formed for, and its clusters stand for
/// no more lines than the node allows.
pub proof fn lemma_reached_is_well_formed(node: NodeV, keys: Seq<TokenV>, len: nat, bound: nat)
    requires
        node_wf(node, len, bound),
    ensures
        templates_of_length(leaf_reached(node, keys), len),
        crate::leaf::matches_within(leaf_reached(node, keys), bound),
    decreases keys.len(),
{
    if keys.len() > 0 {
        match node {
            NodeV::Leaf { clusters } => {},
            NodeV::Inner { children, depth } => {
                let at = position_of(children, keys[0]);
                if has_key(children, keys[0]) && 0 <= at < children.len() {
                    lemma_reached_is_well_formed(children[at].1, keys.drop_first(), len, bound);
                }
            },
        }
    }
}

/// The route of a line below a well-formed inner node of depth `d` takes
/// its keys from the positions after `d`, one for each, and ends before
/// the line does.
pub proof fn lemma_fresh_route_positions(tokens: Seq<TokenV>, position: nat, max_depth: nat)
    requires
        position < tokens.len(),
    ensures
        position + fresh_route(tokens, position, max_depth).len() < tokens.len(),
        forall|i: int|
            0 <= i < fresh_route(tokens, position, max_depth).len() ==> #[trigger] fresh_route(
                tokens,
                position,
                max_depth,
            )[i] == routing_key(tokens[position + 1 + i]),
    decreases tokens.len() - position,
{
    if !leaf_level(position, tokens.len(), max_depth) {
        lemma_fresh_route_positions(tokens, position + 1, max_depth);
    }
}

/// Each key of the route of a line below a well-formed inner node of
/// depth `d` is the routing key of the line's token at its position, the
/// first key standing for position `d + 1`, or the wildcard.
pub proof fn lemma_route_keys(node: NodeV, tokens: Seq<TokenV>, limits: Limits, bound: nat)
    requires
        node_wf(node, tokens.len(), bound),
        node is Inner,
    ensures
        node->depth + insert_route(node, tokens, limits).len() < tokens.len(),
        insert_route(node, tokens, limits).len() >= 1,
        forall|i: int|
            0 <= i < insert_route(node, tokens, limits).len() ==> {
                ||| #[trigger] insert_route(node, tokens, limits)[i] == routing_key(
                    tokens[node->depth + 1 + i],
                )
                ||| insert_route(node, tokens, limits)[i] is WildCard
            },
    decreases node,
{
    let children = node->children;
    let depth = node->depth;
    let position = (depth + 1) as nat;
    let chosen = chosen_key(
        children,
        routing_key(tokens[position as int]),
        leaf_level(position, tokens.len(), limits.max_depth),
        limits.max_children,
    );
    let at = position_of(children, chosen);
    let route = insert_route(node, tokens, limits);
    if has_key(children, chosen) && 0 <= at < children.len() {
        if children[at].1 is Inner {
            lemma_route_keys(children[at].1, tokens, limits, bound);
        }
        assert forall|i: int| 0 <= i < route.len() implies {
            ||| #[trigger] route[i] == routing_key(tokens[depth + 1 + i])
            ||| route[i] is WildCard
        } by {}
    } else {
        lemma_fresh_route_positions(tokens, position, limits.max_depth);
    }
}

/// A line of which every token after the first holds a digit, or is the
/// wildcard, is handed on through wildcard children only.
pub proof fn lemma_digits_route_through_wildcards(
    node: NodeV,
    tokens: Seq<TokenV>,
    limits: Limits,
    bound: nat,
)
    requires
        node_wf(node, tokens.len(), bound),
        forall|p: int| 1 <= p < tokens.len() ==> routing_key(#[trigger] tokens[p]) is WildCard,
    ensures
        forall|i: int|
            0 <= i < insert_route(node, tokens, limits).len() ==> (#[trigger] insert_route(
                node,
                tokens,
                limits,
            )[i]) is WildCard,
{
    if node is Inner {
        lemma_route_keys(node, tokens, limits, bound);
    }
}

/// Where the child would be another inner node, an inner node that has
/// more than `max_children` children hands a line whose key is new to it
/// to its wildcard child: it founds no child under the key, and keeps its
/// children under other keys than the wildcard as they are.
pub proof fn lemma_overflow_goes_to_wildcard(
    children: Seq<(TokenV, NodeV)>,
    depth: nat,
    tokens: Seq<TokenV>,
    limits: Limits,
)
    requires
        !leaf_level(depth + 1, tokens.len(), limits.max_depth),
        !has_key(children, routing_key(tokens[depth as int + 1])),
        children.len() > limits.max_children,
    ensures
        ({
            let node = NodeV::Inner { children, depth };
            let key = routing_key(tokens[depth as int + 1]);
            let after = node_insert(node, tokens, limits);
            &&& insert_route(node, tokens, limits)[0] is WildCard
            &&& after is Inner
            &&& has_key(after->children, TokenV::WildCard)
            &&& !(key is WildCard) ==> !has_key(after->children, key)
            &&& forall|i: int|
                0 <= i < children.len() && !((#[trigger] children[i]).0 is WildCard)
                    ==> after->children[i] == children[i]
        }),
{
    let node = NodeV::Inner { children, depth };
    let after = node_insert(node, tokens, limits)->children;
    let at = position_of(children, TokenV::WildCard);
    if has_key(children, TokenV::WildCard) && 0 <= at < children.len() {
        assert(after[at].0 is WildCard);
    } else {
        assert(after[children.len() as int].0 is WildCard);
    }
}

/// An inner node hands a line whose key it knows to the child under that
/// key, however many children it has, and founds no child; and where the
/// child would be another inner node, a line whose key is new to it founds
/// a child under that key while the node has no more than `max_children`
/// children.
pub proof fn lemma_known_key_is_followed(
    children: Seq<(TokenV, NodeV)>,
    depth: nat,
    tokens: Seq<TokenV>,
    limits: Limits,
)
    ensures
        ({
            let node = NodeV::Inner { children, depth };
            let key = routing_key(tokens[depth as int + 1]);
            let after = node_insert(node, tokens, limits);
            &&& after is Inner
            &&& has_key(children, key) ==> {
                &&& insert_route(node, tokens, limits)[0] == key
                &&& after->children.len() == children.len()
            }
            &&& !has_key(children, key) && children.len() <= limits.max_children ==> {
                &&& insert_route(node, tokens, limits)[0] == key
                &&& after->children.len() == children.len() + 1
                &&& after->children.last().0 == key
            }
        }),
{
}

/// The subtree that a line creates has one child at each inner node.
pub proof fn lemma_fresh_subtree_fan_out(tokens: Seq<TokenV>, position: nat, limits: Limits)
    ensures
        fan_out_bounded(
            fresh_subtree(tokens, position, limits.max_depth),
            tokens.len(),
            limits,
        ),
    decreases tokens.len() - position,
{
    if !leaf_level(position, tokens.len(), limits.max_depth) {
        lemma_fresh_subtree_fan_out(tokens, position + 1, limits);
    }
}

/// Adding a line keeps the number of children of each inner node that has
/// inner nodes for children at `max_children + 2` or less, the wildcard
/// child included.
pub proof fn lemma_insert_keeps_fan_out(
    node: NodeV,
    tokens: Seq<TokenV>,
    limits: Limits,
    bound: nat,
)
    requires
        node_wf(node, tokens.len(), bound),
        fan_out_bounded(node, tokens.len(), limits),
    ensures
        fan_out_bounded(node_insert(node, tokens, limits), tokens.len(), limits),
        node is Inner && !leaf_level(node->depth + 1, tokens.len(), limits.max_depth) ==> fan_out(
            node_insert(node, tokens, limits),
        ) <= limits.max_children + 2,
    decreases node,
{
    match node {
        NodeV::Leaf { clusters } => {},
        NodeV::Inner { children, depth } => {
            let position = (depth + 1) as nat;
            let chosen = chosen_key(
                children,
                routing_key(tokens[position as int]),
                leaf_level(position, tokens.len(), limits.max_depth),
                limits.max_children,
            );
            let at = position_of(children, chosen);
            let after = node_insert(node, tokens, limits)->children;
            if has_key(children, TokenV::WildCard) {
                let wild = position_of(children, TokenV::WildCard);
                assert(after[wild].0 is WildCard);
            }
            if has_key(children, chosen) && 0 <= at < children.len() {
                lemma_insert_keeps_fan_out(children[at].1, tokens, limits, bound);
            } else {
                lemma_fresh_subtree_fan_out(tokens, position, limits);
                assert(after[children.len() as int].0 == chosen);
            }
        },
    }
}

/// A lookup that is given, at the positions by which `keys` were chosen,
/// those keys, follows them: it finds the best match of the leaf that they
/// lead to.
pub proof fn lemma_lookup_follows(
    node: NodeV,
    probe: Seq<TokenV>,
    keys: Seq<TokenV>,
    bound: nat,
)
    requires
        node_wf(node, probe.len(), bound),
        descend(node, keys) is Some,
        descend(node, keys)->0 is Leaf,
        node is Inner ==> forall|i: int|
            0 <= i < keys.len() ==> #[trigger] keys[i] == probe[node->depth + 1 + i],
    ensures
        node_lookup(node, probe) == if leaf_reached(node, keys).len() == 0 {
            None
        } else {
            Some(leaf_reached(node, keys)[best_index(leaf_reached(node, keys), probe)])
        },
    decreases keys.len(),
{
    if keys.len() > 0 {
        let children = node->children;
        let at = position_of(children, keys[0]);
        let rest = keys.drop_first();
        lemma_lookup_follows(children[at].1, probe, rest, bound);
    }
}

/// If a template that is generalised against a line holds a token at a
/// position, it holds it after, so no fewer positions count towards its
/// exact score against the line.
pub proof fn lemma_merge_keeps_hits(template: Seq<TokenV>, whole: Seq<TokenV>, input: Seq<TokenV>)
    requires
        template.len() <= whole.len(),
        whole.len() == input.len(),
        forall|i: int| 0 <= i < template.len() ==> #[trigger] template[i] == whole[i],
    ensures
        hits(template, input, false) <= hits(
            merged_template(whole, input).take(template.len() as int),
            input,
            false,
        ),
    decreases template.len(),
{
    if template.len() > 0 {
        let shorter = template.drop_last();
        lemma_merge_keeps_hits(shorter, whole, input);
        let merged = merged_template(whole, input).take(template.len() as int);
        assert(merged.drop_last() =~= merged_template(whole, input).take(shorter.len() as int));
    }
}

/// A threshold of one or less is above every ratio that is below it only
/// if the ratio is below one.
pub proof fn lemma_below_threshold_is_below_one(count: u64, len: u64, min_similarity: Ratio)
    requires
        min_similarity.is_fraction(),
        (Ratio { numerator: count, denominator: len }).less_than(min_similarity),
    ensures
        count < len,
{
    assert(count < len) by (nonlinear_arith)
        requires
            count * min_similarity.denominator < min_similarity.numerator * len,
            min_similarity.numerator <= min_similarity.denominator,
            min_similarity.denominator > 0,
            count >= 0,
            len >= 0,
            min_similarity.numerator >= 0,
    ;
}

/// In a leaf that has taken a line, the best match of that line is the
/// cluster that stands for it.
pub proof fn lemma_absorbing_is_best(
    clusters: Seq<ClusterV>,
    input: Seq<TokenV>,
    min_similarity: Ratio,
)
    requires
        templates_of_length(clusters, input.len()),
        input.len() <= u64::MAX,
        min_similarity.is_fraction(),
    ensures
        best_index(leaf_insert(clusters, input, min_similarity), input) == absorbing_index(
            clusters,
            input,
            min_similarity,
        ),
{
    let after = leaf_insert(clusters, input, min_similarity);
    let at = absorbing_index(clusters, input, min_similarity);
    lemma_leaf_insert_covers(clusters, input, min_similarity);
    assert(templates_of_length(after, input.len())) by {
        if clusters.len() > 0 {
            lemma_best_index_in_range(clusters, input);
        }
    }
    lemma_covering_hits_everywhere(after[at].template, input);
    if clusters.len() > 0 {
        let best = best_index(clusters, input);
        lemma_best_is_maximal(clusters, input);
        lemma_hits_bounded(clusters[best].template, input);
        if starts_cluster(clusters, input, min_similarity) {
            lemma_below_threshold_is_below_one(
                hits(clusters[best].template, input, true) as u64,
                input.len() as u64,
                min_similarity,
            );
            lemma_hits_of_itself(input, input, false);
        } else {
            lemma_merge_keeps_hits(clusters[best].template, clusters[best].template, input);
            assert(merged_template(clusters[best].template, input).take(
                clusters[best].template.len() as int,
            ) =~= after[at].template);
        }
    }
    lemma_best_is_maximal(after, input);
}

/// After a line was added below a node, a lookup that is given the keys of
/// the line's route, at the positions by which they were chosen, finds a
/// cluster of the leaf that took the line. Given the line itself, it
/// finds the cluster that stands for the line.
pub proof fn lemma_lookup_after_insert(
    node: NodeV,
    tokens: Seq<TokenV>,
    probe: Seq<TokenV>,
    limits: Limits,
    bound: nat,
)
    requires
        node_wf(node, tokens.len(), bound),
        probe.len() == tokens.len(),
        tokens.len() <= u64::MAX,
        limits.min_similarity.is_fraction(),
        node is Inner ==> forall|i: int|
            0 <= i < insert_route(node, tokens, limits).len() ==> #[trigger] insert_route(
                node,
                tokens,
                limits,
            )[i] == probe[node->depth + 1 + i],
    ensures
        node_lookup(node_insert(node, tokens, limits), probe) is Some,
        node_lookup(node_insert(node, tokens, limits), probe)->0.template.len() == tokens.len(),
        node_clusters(node_insert(node, tokens, limits)).contains(
            node_lookup(node_insert(node, tokens, limits), probe)->0,
        ),
        probe == tokens ==> covers(
            node_lookup(node_insert(node, tokens, limits), probe)->0.template,
            tokens,
        ),
{
    let route = insert_route(node, tokens, limits);
    let after = node_insert(node, tokens, limits);
    let before = leaf_reached(node, route);
    let leaf = leaf_insert(before, tokens, limits.min_similarity);
    lemma_insert_lands(node, tokens, limits, bound);
    lemma_insert_wf(node, tokens, limits, bound);
    lemma_reached_is_well_formed(node, route, tokens.len(), bound);
    lemma_reached_is_well_formed(after, route, tokens.len(), bound + 1);
    lemma_leaf_insert_covers(before, tokens, limits.min_similarity);
    lemma_lookup_follows(after, probe, route, bound + 1);
    lemma_best_index_in_range(leaf, probe);
    let found = leaf[best_index(leaf, probe)];
    lemma_reached_clusters_below(after, route, found);
    if probe == tokens {
        lemma_absorbing_is_best(before, tokens, limits.min_similarity);
    }
}

/// The subtree that a line creates, after the line has been added to it
/// again until its cluster stands for `matches` lines.
pub open spec fn chain(tokens: Seq<TokenV>, position: nat, max_depth: nat, matches: nat) -> NodeV
    decreases tokens.len() - position,
{
    if leaf_level(position, tokens.len(), max_depth) {
        NodeV::Leaf { clusters: seq![ClusterV { template: tokens, matches }] }
    } else {
        NodeV::Inner {
            children: seq![
                (
                    routing_key(tokens[position as int + 1]),
                    chain(tokens, (position + 1) as nat, max_depth, matches),
                ),
            ],
            depth: position,
        }
    }
}

/// The subtree that a line creates holds the line once.
pub proof fn lemma_fresh_subtree_is_chain(tokens: Seq<TokenV>, position: nat, max_depth: nat)
    ensures
        fresh_subtree(tokens, position, max_depth) == chain(tokens, position, max_depth, 1),
    decreases tokens.len() - position,
{
    if !leaf_level(position, tokens.len(), max_depth) {
        lemma_fresh_subtree_is_chain(tokens, position + 1, max_depth);
    }
}

/// The only cluster below the subtree of a line is the line, with its
/// count.
pub proof fn lemma_chain_clusters(tokens: Seq<TokenV>, position: nat, max_depth: nat, matches: nat)
    ensures
        node_clusters(chain(tokens, position, max_depth, matches)) == seq![
            ClusterV { template: tokens, matches },
        ],
    decreases tokens.len() - position,
{
    if !leaf_level(position, tokens.len(), max_depth) {
        lemma_chain_clusters(tokens, position + 1, max_depth, matches);
        let node = chain(tokens, position, max_depth, matches);
        assert(clusters_upto(node, 0) =~= Seq::empty());
    }
}

/// Adding its line to the subtree of a line once more changes nothing
/// but the count of its cluster, which grows by one.
pub proof fn lemma_insert_into_chain(
    tokens: Seq<TokenV>,
    position: nat,
    limits: Limits,
    matches: nat,
)
    requires
        0 < tokens.len() <= u64::MAX,
        limits.min_similarity.is_fraction(),
    ensures
        node_insert(chain(tokens, position, limits.max_depth, matches), tokens, limits) == chain(
            tokens,
            position,
            limits.max_depth,
            matches + 1,
        ),
    decreases tokens.len() - position,
{
    let node = chain(tokens, position, limits.max_depth, matches);
    if leaf_level(position, tokens.len(), limits.max_depth) {
        let clusters = seq![ClusterV { template: tokens, matches }];
        lemma_hits_of_itself(tokens, tokens, true);
        let len = tokens.len() as u64;
        assert(!(Ratio { numerator: len, denominator: len }).less_than(limits.min_similarity))
            by {
            let min = limits.min_similarity;
            assert(!(len * min.denominator < min.numerator * len)) by (nonlinear_arith)
                requires
                    min.numerator <= min.denominator,
                    len >= 0,
            ;
        }
        assert(merged_template(tokens, tokens) =~= tokens);
        assert(leaf_insert(clusters, tokens, limits.min_similarity) =~= seq![
            ClusterV { template: tokens, matches: matches + 1 },
        ]);
    } else {
        lemma_insert_into_chain(tokens, position + 1, limits, matches);
        let key = routing_key(tokens[position as int + 1]);
        let children = node->children;
        lemma_position_of(children, key, 0);
        assert(node_insert(node, tokens, limits)->children =~= seq![
            (key, chain(tokens, (position + 1) as nat, limits.max_depth, matches + 1)),
        ]);
    }
}

/// The tree after the same line was added to it `times` times.
pub open spec fn repeated(tree: TreeV, tokens: Seq<TokenV>, times: nat) -> TreeV
    decreases times,
{
    if times == 0 {
        tree
    } else {
        repeated(tree, tokens, (times - 1) as nat).with_tokens(tokens)
    }
}

/// After a line that is not empty was added to the tree, some cluster of
/// the prefix tree for its length stands for the line: it has the length
/// of the line, and at every position it holds the line's token or the
/// wildcard.
pub proof fn lemma_added_line_is_covered(tree: TreeV, tokens: Seq<TokenV>)
    requires
        tree.wf(),
        0 < tokens.len() <= usize::MAX,
    ensures
        tree.with_tokens(tokens).roots.contains_key(tokens.len() as usize),
        exists|cluster: ClusterV|
            #[trigger] node_clusters(
                tree.with_tokens(tokens).roots[tokens.len() as usize],
            ).contains(cluster) && covers(cluster.template, tokens),
{
    let len = tokens.len() as usize;
    lemma_line_is_covered(tree.root_for(len), tokens, tree.limits, tree.lines);
    let after = node_insert(tree.root_for(len), tokens, tree.limits);
    let cluster = choose|cluster: ClusterV|
        #[trigger] node_clusters(after).contains(cluster) && covers(cluster.template, tokens);
    assert(node_clusters(tree.with_tokens(tokens).roots[len]).contains(cluster));
}

/// Adding a line keeps the number of children of each inner node that has
/// inner nodes for children at `max_children + 2` or less, the wildcard
/// child included.
pub proof fn lemma_with_tokens_keeps_fan_out(tree: TreeV, tokens: Seq<TokenV>)
    requires
        tree.wf(),
        tree.fan_out_bounded(),
        tokens.len() <= usize::MAX,
    ensures
        tree.with_tokens(tokens).fan_out_bounded(),
{
    if tokens.len() > 0 {
        let len = tokens.len() as usize;
        lemma_insert_keeps_fan_out(tree.root_for(len), tokens, tree.limits, tree.lines);
    }
}

/// The number of children that an inner node with inner nodes for
/// children has is `max_children + 2` at most where no node of the tree
/// has too many children.
pub proof fn lemma_fan_out_limit(node: NodeV, len: nat, limits: Limits)
    requires
        fan_out_bounded(node, len, limits),
        node is Inner,
        !leaf_level(node->depth + 1, len, limits.max_depth),
    ensures
        fan_out(node) <= limits.max_children + 2,
{
}

/// After a line was added to the tree, a lookup that is given the keys of
/// the line's route, each at the position by which it was chosen, finds a
/// cluster of the length of the line. A lookup of the line itself, where
/// its route holds its own tokens, finds a cluster that stands for the
/// line: one that holds, at every position, the line's token or the
/// wildcard.
pub proof fn lemma_lookup_finds_added_line(tree: TreeV, tokens: Seq<TokenV>, probe: Seq<TokenV>)
    requires
        tree.wf(),
        0 < tokens.len() <= usize::MAX,
        probe.len() == tokens.len(),
        forall|i: int|
            0 <= i < tree.route_of(tokens).len() ==> #[trigger] tree.route_of(tokens)[i]
                == probe[1 + i],
    ensures
        tree.with_tokens(tokens).find(probe) is Some,
        tree.with_tokens(tokens).find(probe)->0.template.len() == tokens.len(),
        probe == tokens ==> covers(tree.with_tokens(tokens).find(probe)->0.template, tokens),
{
    let len = tokens.len() as usize;
    let root = tree.root_for(len);
    assert(tree.route_of(tokens) == insert_route(root, tokens, tree.limits));
    lemma_lookup_after_insert(root, tokens, probe, tree.limits, tree.lines);
}

/// A line of which every token after the first holds a digit, or is the
/// wildcard, is handed on through wildcard children only.
pub proof fn lemma_digit_lines_take_wildcards(tree: TreeV, tokens: Seq<TokenV>)
    requires
        tree.wf(),
        0 < tokens.len() <= usize::MAX,
        forall|p: int| 1 <= p < tokens.len() ==> routing_key(#[trigger] tokens[p]) is WildCard,
    ensures
        forall|i: int|
            0 <= i < tree.route_of(tokens).len() ==> (#[trigger] tree.route_of(tokens)[i])
                is WildCard,
{
    let len = tokens.len() as usize;
    lemma_digits_route_through_wildcards(tree.root_for(len), tokens, tree.limits, tree.lines);
}

/// A tree without clusters to which the same line was added one or more
/// times holds a single prefix tree with a single cluster: the line as it
/// was added first, standing for as many lines as were added.
pub proof fn lemma_same_line_is_one_cluster(tree: TreeV, tokens: Seq<TokenV>, times: nat)
    requires
        tree.wf(),
        tree.roots == Map::<usize, NodeV>::empty(),
        0 < tokens.len() <= usize::MAX,
        times >= 1,
    ensures
        repeated(tree, tokens, times).roots == Map::<usize, NodeV>::empty().insert(
            tokens.len() as usize,
            chain(tokens, 0, tree.limits.max_depth, times),
        ),
        repeated(tree, tokens, times).limits == tree.limits,
        node_clusters(repeated(tree, tokens, times).roots[tokens.len() as usize]) == seq![
            ClusterV { template: tokens, matches: times },
        ],
    decreases times,
{
    let len = tokens.len() as usize;
    let depth = tree.limits.max_depth;
    lemma_chain_clusters(tokens, 0, depth, times);
    if times == 1 {
        if len > 1 {
            lemma_fresh_subtree_is_chain(tokens, 1, depth);
        }
    } else {
        lemma_same_line_is_one_cluster(tree, tokens, (times - 1) as nat);
        lemma_insert_into_chain(tokens, 0, tree.limits, (times - 1) as nat);
    }
}

/// The clusters of two sequences stand for as many lines as those of the
/// one and those of the other.
pub proof fn lemma_total_of_both(first: Seq<ClusterV>, second: Seq<ClusterV>)
    ensures
        total_matches(first + second) == total_matches(first) + total_matches(second),
    decreases second.len(),
{
    if second.len() > 0 {
        lemma_total_of_both(first, second.drop_last());
        assert((first + second).drop_last() =~= first + second.drop_last());
    }
}

/// A line that a leaf takes is counted once: either it founds a cluster
/// that stands for one line, which becomes the last of the leaf, or the
/// best match stands for one line more than before; every other cluster
/// stays as it is.
pub proof fn lemma_leaf_insert_counts_once(
    clusters: Seq<ClusterV>,
    input: Seq<TokenV>,
    min_similarity: Ratio,
)
    ensures
        ({
            let after = leaf_insert(clusters, input, min_similarity);
            let best = best_index(clusters, input);
            &&& total_matches(after) == total_matches(clusters) + 1
            &&& starts_cluster(clusters, input, min_similarity) ==> {
                &&& after.len() == clusters.len() + 1
                &&& after.last() == ClusterV::founded_by(input)
                &&& after.last().matches == 1
                &&& forall|j: int| 0 <= j < clusters.len() ==> #[trigger] after[j] == clusters[j]
            }
            &&& !starts_cluster(clusters, input, min_similarity) ==> {
                &&& after.len() == clusters.len()
                &&& after[best].matches == clusters[best].matches + 1
                &&& forall|j: int|
                    0 <= j < clusters.len() && j != best ==> #[trigger] after[j] == clusters[j]
            }
        }),
{
    let after = leaf_insert(clusters, input, min_similarity);
    if starts_cluster(clusters, input, min_similarity) {
        assert(after.drop_last() =~= clusters);
    } else {
        let best = best_index(clusters, input);
        lemma_best_index_in_range(clusters, input);
        lemma_total_after_update(clusters, best, clusters[best].absorb(input));
    }
}

/// Replacing one cluster by another changes the number of lines that a
/// sequence of clusters stands for by the difference between the two.
pub proof fn lemma_total_after_update(clusters: Seq<ClusterV>, at: int, cluster: ClusterV)
    requires
        0 <= at < clusters.len(),
    ensures
        total_matches(clusters.update(at, cluster)) + clusters[at].matches == total_matches(
            clusters,
        ) + cluster.matches,
    decreases clusters.len(),
{
    let after = clusters.update(at, cluster);
    if at == clusters.len() - 1 {
        assert(after.drop_last() =~= clusters.drop_last());
    } else {
        lemma_total_after_update(clusters.drop_last(), at, cluster);
        assert(after.drop_last() =~= clusters.drop_last().update(at, cluster));
    }
}

/// If two inner nodes have the same children but for one, below which the
/// clusters of the second stand for `more` lines more, then so do the
/// clusters below its first children, as soon as that child is among
/// them.
pub proof fn lemma_total_with_changed_child(
    first: NodeV,
    second: NodeV,
    at: int,
    more: nat,
    count: nat,
)
    requires
        first is Inner,
        second is Inner,
        first->children.len() == second->children.len(),
        0 <= at < first->children.len(),
        count <= first->children.len(),
        forall|i: int|
            0 <= i < first->children.len() && i != at ==> (#[trigger] first->children[i]).1
                == second->children[i].1,
        total_matches(node_clusters(second->children[at].1)) == total_matches(
            node_clusters(first->children[at].1),
        ) + more,
    ensures
        total_matches(clusters_upto(second, count)) == total_matches(clusters_upto(first, count))
            + if count > at {
            more
        } else {
            0nat
        },
    decreases count,
{
    if count > 0 {
        lemma_total_with_changed_child(first, second, at, more, (count - 1) as nat);
        lemma_total_of_both(
            clusters_upto(first, (count - 1) as nat),
            node_clusters(first->children[count - 1].1),
        );
        lemma_total_of_both(
            clusters_upto(second, (count - 1) as nat),
            node_clusters(second->children[count - 1].1),
        );
    }
}

/// An inner node that has one more child than another, and the same
/// children before it, has the same clusters below those children.
pub proof fn lemma_clusters_with_new_child(first: NodeV, second: NodeV, count: nat)
    requires
        first is Inner,
        second is Inner,
        first->children.len() + 1 == second->children.len(),
        count <= first->children.len(),
        forall|i: int|
            0 <= i < first->children.len() ==> (#[trigger] first->children[i]).1
                == second->children[i].1,
    ensures
        clusters_upto(second, count) == clusters_upto(first, count),
    decreases count,
{
    if count > 0 {
        lemma_clusters_with_new_child(first, second, (count - 1) as nat);
    }
}

/// A line that is added below a node is counted once: the clusters below
/// the node stand for one line more than before.
pub proof fn lemma_insert_counts_once(node: NodeV, tokens: Seq<TokenV>, limits: Limits)
    ensures
        total_matches(node_clusters(node_insert(node, tokens, limits))) == total_matches(
            node_clusters(node),
        ) + 1,
    decreases node,
{
    let after = node_insert(node, tokens, limits);
    match node {
        NodeV::Leaf { clusters } => {
            lemma_leaf_insert_counts_once(clusters, tokens, limits.min_similarity);
        },
        NodeV::Inner { children, depth } => {
            let position = (depth + 1) as nat;
            let chosen = chosen_key(
                children,
                routing_key(tokens[position as int]),
                leaf_level(position, tokens.len(), limits.max_depth),
                limits.max_children,
            );
            let at = position_of(children, chosen);
            if has_key(children, chosen) && 0 <= at < children.len() {
                lemma_insert_counts_once(children[at].1, tokens, limits);
                lemma_total_with_changed_child(node, after, at, 1, children.len());
            } else {
                lemma_clusters_with_new_child(node, after, children.len());
                lemma_fresh_subtree_is_chain(tokens, position, limits.max_depth);
                lemma_chain_clusters(tokens, position, limits.max_depth, 1);
                let founded = seq![ClusterV { template: tokens, matches: 1 }];
                assert(founded.drop_last() =~= Seq::<ClusterV>::empty());
                assert(total_matches(Seq::<ClusterV>::empty()) == 0);
                lemma_total_of_both(clusters_upto(node, children.len()), founded);
            }
        },
    }
}

/// A line that is added to the tree is counted once: the clusters of the
/// prefix tree for its length stand for one line more than before, and the
/// prefix trees for all other lengths stay as they are.
pub proof fn lemma_added_line_counts_once(tree: TreeV, tokens: Seq<TokenV>)
    requires
        0 < tokens.len() <= usize::MAX,
    ensures
        tree.with_tokens(tokens).lines == tree.lines + 1,
        total_matches(node_clusters(tree.with_tokens(tokens).roots[tokens.len() as usize]))
            == total_matches(node_clusters(tree.root_for(tokens.len() as usize))) + 1,
        forall|len: usize|
            len != tokens.len() ==> tree.with_tokens(tokens).roots.contains_key(len)
                == tree.roots.contains_key(len) && #[trigger] tree.with_tokens(tokens).roots[len]
                == tree.roots[len],
{
    lemma_insert_counts_once(tree.root_for(tokens.len() as usize), tokens, tree.limits);
}

} // verus!
