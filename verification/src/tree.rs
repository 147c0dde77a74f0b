//! The tree of templates: one prefix tree for each length of line, with
//! the limits that govern it and the patterns that preprocess its lines.

use crate::cluster::{covers, decimal_string, decimal_text, ClusterV, LogCluster};
use crate::laws::{
    lemma_added_line_is_covered, lemma_insert_counts_once, lemma_total_of_both,
    lemma_with_tokens_keeps_fan_out,
};
use crate::leaf::total_matches;
use crate::node::{
    fan_out_bounded, insert_route, lemma_insert_wf, lemma_wf_monotone, limits_of, node_clusters,
    node_insert, node_lookup, node_wf, Limits, Node, NodeV,
};
use crate::preprocess::{message, message_of, process, processed};
use crate::render::{framed, node_text};
use crate::similarity::Ratio;
use crate::token::{tokens_view, Token, TokenV};
use std::collections::HashMap;
use vstd::prelude::*;
use vstd::std_specs::iter::IteratorSpec;
use vstd::string::StringExecFns;

verus! {

/// Why a limit was refused.
#[derive(Clone, Copy, Debug, PartialEq, Eq)]
pub enum ConfigError {
    /// The depth limit was zero.
    ZeroMaxDepth,
    /// The limit on children was zero.
    ZeroMaxChildren,
    /// The similarity threshold was not a number between zero and one.
    SimilarityOutOfRange,
}

/// The tree of templates.
#[derive(Debug)]
pub struct DrainTree {
    root: HashMap<usize, Node>,
    max_depth: u16,
    max_children: u16,
    min_similarity: Ratio,
    overall_pattern: Option<grok::Pattern>,
    drain_field: Option<String>,
    filter_patterns: Vec<grok::Pattern>,
    num_lines: u64,
}

/// The mathematical value of a [`DrainTree`].
pub ghost struct TreeV {
    /// The root of the prefix tree for each length of line seen so far.
    pub roots: Map<usize, NodeV>,
    /// The limits that govern routing and absorbing.
    pub limits: Limits,
    /// The number of lines added so far.
    pub lines: nat,
    /// The filter patterns, in the order in which they are tried.
    pub filters: Seq<grok::Pattern>,
    /// The pattern that extracts the message from a line, with the name of
    /// the field that holds the message, if there is one.
    pub overall: Option<(grok::Pattern, Seq<char>)>,
}

/// The root with which the prefix tree for lines of `len` tokens starts: a
/// leaf for lines of a single token, an inner node of depth zero else.
pub open spec fn empty_root(len: nat) -> NodeV {
    if len <= 1 {
        NodeV::Leaf { clusters: Seq::empty() }
    } else {
        NodeV::Inner { children: Seq::empty(), depth: 0 }
    }
}

impl TreeV {
    /// The root below which a line of `len` tokens is added.
    pub open spec fn root_for(self, len: usize) -> NodeV {
        if self.roots.contains_key(len) {
            self.roots[len]
        } else {
            empty_root(len as nat)
        }
    }

    /// The tree after a line of the given tokens was added. An empty line
    /// changes nothing.
    pub open spec fn with_tokens(self, tokens: Seq<TokenV>) -> TreeV {
        if tokens.len() == 0 {
            self
        } else {
            TreeV {
                roots: self.roots.insert(
                    tokens.len() as usize,
                    node_insert(self.root_for(tokens.len() as usize), tokens, self.limits),
                ),
                lines: self.lines + 1,
                ..self
            }
        }
    }

    /// The cluster that a lookup of `tokens` finds.
    pub open spec fn find(self, tokens: Seq<TokenV>) -> Option<ClusterV> {
        if self.roots.contains_key(tokens.len() as usize) {
            node_lookup(self.roots[tokens.len() as usize], tokens)
        } else {
            None
        }
    }

    /// The keys of the children through which a line is added to the tree,
    /// from the root for its length down to the leaf that takes it.
    pub open spec fn route_of(self, tokens: Seq<TokenV>) -> Seq<TokenV> {
        insert_route(self.root_for(tokens.len() as usize), tokens, self.limits)
    }

    /// Whether no inner node of the tree that has inner nodes for children
    /// has more than `max_children + 1` children, its wildcard child not
    /// counted.
    pub open spec fn fan_out_bounded(self) -> bool {
        forall|len: usize| #[trigger]
            self.roots.contains_key(len) ==> fan_out_bounded(
                self.roots[len],
                len as nat,
                self.limits,
            )
    }

    /// The tokens that a raw line is added as.
    pub open spec fn tokens_of_line(self, line: Seq<char>) -> Seq<TokenV> {
        processed(self.filters, message_of(self.overall, line))
    }

    /// Whether the root for lines of `len` tokens is of the right kind: a
    /// leaf for lines of one token, an inner node of depth zero else.
    pub open spec fn root_shaped(self, len: usize) -> bool {
        if len == 1 {
            self.roots[len] is Leaf
        } else {
            self.roots[len] is Inner && self.roots[len]->depth == 0
        }
    }

    /// Whether the tree is well formed: its limits are valid, every line
    /// that was added is counted once, and the prefix tree for each length
    /// is well formed for that length, with no cluster standing for more
    /// lines than were added.
    pub open spec fn wf(self) -> bool {
        &&& self.limits.max_depth >= 1
        &&& self.limits.max_children >= 1
        &&& self.limits.min_similarity.is_fraction()
        &&& self.roots.dom().finite()
        &&& self.counted()
        &&& forall|len: usize| #[trigger]
            self.roots.contains_key(len) ==> {
                &&& len >= 1
                &&& node_wf(self.roots[len], len as nat, self.lines)
                &&& self.root_shaped(len)
            }
    }

    /// The text of the prefix trees for the lengths in `order`, each on a
    /// line of its own: `Len: ` with the length, and ` -> [ ` with the text
    /// of the root and ` ]`.
    pub open spec fn text_in_order(self, order: Seq<usize>) -> Seq<char>
        decreases order.len(),
    {
        if order.len() == 0 {
            Seq::empty()
        } else {
            self.text_in_order(order.drop_last()) + "Len: "@ + decimal_text(order.last() as nat)
                + " -> [ "@ + node_text(self.roots[order.last()]) + " ]\n"@
        }
    }

    /// The clusters of the prefix tree for lines of `len` tokens; none
    /// where there is no such tree.
    pub open spec fn clusters_at(self, len: usize) -> Seq<ClusterV> {
        if self.roots.contains_key(len) {
            node_clusters(self.roots[len])
        } else {
            Seq::empty()
        }
    }

    /// The clusters of the prefix trees for the lengths in `order`, one
    /// tree after the other.
    pub open spec fn clusters_in_order(self, order: Seq<usize>) -> Seq<ClusterV>
        decreases order.len(),
    {
        if order.len() == 0 {
            Seq::empty()
        } else {
            self.clusters_in_order(order.drop_last()) + self.clusters_at(order.last())
        }
    }

    /// Whether every line that was added is counted once: the clusters of
    /// the tree, taken in any order of the lengths that leaves none out
    /// and takes none twice, stand for as many lines as were added.
    pub open spec fn counted(self) -> bool {
        forall|order: Seq<usize>|
            order.no_duplicates() && self.roots.dom().subset_of(order.to_set())
                ==> total_matches(#[trigger] self.clusters_in_order(order)) == self.lines
    }
}

/// Where two trees hold the same prefix trees but for the length `len`,
/// for which the clusters of the second stand for `more` lines more, the
/// clusters of the second, taken in an order of lengths that takes none
/// twice, stand for `more` lines more if `len` is among the lengths, and
/// for as many lines if not.
pub proof fn lemma_total_with_changed_length(
    first: TreeV,
    second: TreeV,
    order: Seq<usize>,
    len: usize,
    more: nat,
)
    requires
        order.no_duplicates(),
        forall|other: usize| other != len ==> #[trigger] first.clusters_at(other)
            == second.clusters_at(other),
        total_matches(second.clusters_at(len)) == total_matches(first.clusters_at(len)) + more,
    ensures
        total_matches(second.clusters_in_order(order)) == total_matches(
            first.clusters_in_order(order),
        ) + if order.contains(len) {
            more
        } else {
            0nat
        },
    decreases order.len(),
{
    if order.len() > 0 {
        let earlier = order.drop_last();
        let last = order.last();
        lemma_total_with_changed_length(first, second, earlier, len, more);
        lemma_total_of_both(first.clusters_in_order(earlier), first.clusters_at(last));
        lemma_total_of_both(second.clusters_in_order(earlier), second.clusters_at(last));
        if last != len && order.contains(len) {
            let i = choose|i: int| 0 <= i < order.len() && order[i] == len;
            assert(earlier[i] == len);
        }
    }
}

/// The clusters of a tree are those of its prefix trees, whatever its
/// limits and patterns.
pub proof fn lemma_clusters_of_same_roots(first: TreeV, second: TreeV, order: Seq<usize>)
    requires
        first.roots == second.roots,
    ensures
        first.clusters_in_order(order) == second.clusters_in_order(order),
    decreases order.len(),
{
    if order.len() > 0 {
        lemma_clusters_of_same_roots(first, second, order.drop_last());
    }
}

/// A tree in which every line is counted once stays so when its limits
/// and patterns are changed.
pub proof fn lemma_counted_same_roots(first: TreeV, second: TreeV)
    requires
        first.counted(),
        first.roots == second.roots,
        first.lines == second.lines,
    ensures
        second.counted(),
{
    assert forall|order: Seq<usize>|
        order.no_duplicates() && second.roots.dom().subset_of(
            order.to_set(),
        ) implies total_matches(#[trigger] second.clusters_in_order(order)) == second.lines by {
        lemma_clusters_of_same_roots(first, second, order);
    }
}

/// A tree without prefix trees has no clusters.
pub proof fn lemma_no_roots_no_clusters(tree: TreeV, order: Seq<usize>)
    requires
        tree.roots == Map::<usize, NodeV>::empty(),
    ensures
        tree.clusters_in_order(order) == Seq::<ClusterV>::empty(),
    decreases order.len(),
{
    if order.len() > 0 {
        lemma_no_roots_no_clusters(tree, order.drop_last());
    }
}

/// Adding a line keeps every line counted once.
pub proof fn lemma_with_tokens_counted(tree: TreeV, tokens: Seq<TokenV>)
    requires
        tree.counted(),
        tokens.len() <= usize::MAX,
    ensures
        tree.with_tokens(tokens).counted(),
{
    if tokens.len() > 0 {
        let len = tokens.len() as usize;
        let after = tree.with_tokens(tokens);
        lemma_insert_counts_once(tree.root_for(len), tokens, tree.limits);
        assert forall|order: Seq<usize>|
            order.no_duplicates() && after.roots.dom().subset_of(
                order.to_set(),
            ) implies total_matches(#[trigger] after.clusters_in_order(order)) == after.lines by {
            lemma_total_with_changed_length(tree, after, order, len, 1);
        }
    }
}

/// Adding a line keeps a tree well formed.
pub proof fn lemma_with_tokens_wf(tree: TreeV, tokens: Seq<TokenV>)
    requires
        tree.wf(),
        tokens.len() <= usize::MAX,
    ensures
        tree.with_tokens(tokens).wf(),
{
    lemma_with_tokens_counted(tree, tokens);
    if tokens.len() > 0 {
        let len = tokens.len() as usize;
        let after = tree.with_tokens(tokens);
        lemma_insert_wf(tree.root_for(len), tokens, tree.limits, tree.lines);
        assert forall|other: usize| #[trigger] after.roots.contains_key(other) implies {
            &&& other >= 1
            &&& node_wf(after.roots[other], other as nat, after.lines)
            &&& after.root_shaped(other)
        } by {
            if other != len {
                lemma_wf_monotone(tree.roots[other], other as nat, tree.lines, after.lines);
            }
        }
    }
}

impl View for DrainTree {
    type V = TreeV;

    /// The value of the tree: its prefix trees by the length of their
    /// lines, its limits, the number of lines added, and its patterns.
    closed spec fn view(&self) -> TreeV {
        TreeV {
            roots: Map::new(
                |len: usize| self.root@.contains_key(len),
                |len: usize| self.root@[len]@,
            ),
            limits: limits_of(self.max_depth, self.max_children, self.min_similarity),
            lines: self.num_lines as nat,
            filters: self.filter_patterns@,
            overall: match (self.overall_pattern, self.drain_field) {
                (Some(pattern), Some(field)) => Some((pattern, field@)),
                _ => None,
            },
        }
    }
}

impl DrainTree {
    /// Whether the tree is well formed. Every tree that this library hands
    /// out is.
    pub closed spec fn wf(&self) -> bool {
        &&& self@.wf()
        &&& self.overall_pattern is Some ==> self.drain_field is Some
    }

    /// An empty tree with the default limits: depth 4, 100 children, and a
    /// similarity threshold of one half. It has no patterns.
    pub fn new() -> (tree: DrainTree)
        ensures
            tree.wf(),
            tree@ == (TreeV {
                roots: Map::empty(),
                limits: Limits {
                    max_depth: 4,
                    max_children: 100,
                    min_similarity: Ratio { numerator: 1, denominator: 2 },
                },
                lines: 0,
                filters: Seq::empty(),
                overall: None,
            }),
    {
        let tree = DrainTree {
            root: HashMap::new(),
            filter_patterns: Vec::new(),
            max_depth: 4,
            max_children: 100,
            min_similarity: Ratio::new(1, 2),
            overall_pattern: None,
            drain_field: None,
            num_lines: 0,
        };
        assert(tree@.roots =~= Map::empty());
        proof {
            assert forall|order: Seq<usize>| true implies total_matches(
                #[trigger] tree@.clusters_in_order(order),
            ) == 0 by {
                lemma_no_roots_no_clusters(tree@, order);
            }
        }
        tree
    }

    /// The number of lines added so far.
    pub fn num_lines(&self) -> (count: u64)
        ensures
            count == self@.lines,
    {
        self.num_lines
    }

    /// Sets the depth limit. Zero is refused.
    pub fn max_depth(self, max_depth: u16) -> (result: Result<DrainTree, ConfigError>)
        requires
            self.wf(),
        ensures
            match result {
                Ok(tree) => max_depth != 0 && tree.wf() && tree@ == (TreeV {
                    limits: Limits { max_depth: max_depth as nat, ..self@.limits },
                    ..self@
                }),
                Err(error) => max_depth == 0 && error == ConfigError::ZeroMaxDepth,
            },
    {
        if max_depth == 0 {
            return Err(ConfigError::ZeroMaxDepth);
        }
        let ghost before = self@;
        let mut tree = self;
        tree.max_depth = max_depth;
        proof {
            lemma_counted_same_roots(before, tree@);
        }
        Ok(tree)
    }

    /// Sets the number of children above which an inner node sends new
    /// keys to its wildcard child. Zero is refused.
    pub fn max_children(self, max_children: u16) -> (result: Result<DrainTree, ConfigError>)
        requires
            self.wf(),
        ensures
            match result {
                Ok(tree) => max_children != 0 && tree.wf() && tree@ == (TreeV {
                    limits: Limits { max_children: max_children as nat, ..self@.limits },
                    ..self@
                }),
                Err(error) => max_children == 0 && error == ConfigError::ZeroMaxChildren,
            },
    {
        if max_children == 0 {
            return Err(ConfigError::ZeroMaxChildren);
        }
        let ghost before = self@;
        let mut tree = self;
        tree.max_children = max_children;
        proof {
            lemma_counted_same_roots(before, tree@);
        }
        Ok(tree)
    }

    /// Sets the approximate score below which a line founds a cluster of
    /// its own. A threshold that is not a number between zero and one is
    /// refused.
    pub fn min_similarity(self, min_similarity: Ratio) -> (result: Result<DrainTree, ConfigError>)
        requires
            self.wf(),
        ensures
            match result {
                Ok(tree) => min_similarity.is_fraction() && tree.wf() && tree@ == (TreeV {
                    limits: Limits { min_similarity, ..self@.limits },
                    ..self@
                }),
                Err(error) => !min_similarity.is_fraction() && error
                    == ConfigError::SimilarityOutOfRange,
            },
    {
        if !min_similarity.in_unit_interval() {
            return Err(ConfigError::SimilarityOutOfRange);
        }
        let ghost before = self@;
        let mut tree = self;
        tree.min_similarity = min_similarity;
        proof {
            lemma_counted_same_roots(before, tree@);
        }
        Ok(tree)
    }

    /// Sets the patterns that are tried on each piece of a line, in their
    /// order.
    pub fn filter_patterns(self, filter_patterns: Vec<grok::Pattern>) -> (tree: DrainTree)
        requires
            self.wf(),
        ensures
            tree.wf(),
            tree@ == (TreeV { filters: filter_patterns@, ..self@ }),
    {
        let ghost before = self@;
        let mut tree = self;
        tree.filter_patterns = filter_patterns;
        proof {
            lemma_counted_same_roots(before, tree@);
        }
        tree
    }

    /// Sets the pattern that extracts the message from a line, and the
    /// name of the field that holds the message.
    pub fn log_pattern(self, overall_pattern: grok::Pattern, drain_field: &str) -> (tree: DrainTree)
        requires
            self.wf(),
        ensures
            tree.wf(),
            tree@ == (TreeV { overall: Some((overall_pattern, drain_field@)), ..self@ }),
    {
        let ghost before = self@;
        let mut tree = self;
        tree.overall_pattern = Some(overall_pattern);
        tree.drain_field = Some(drain_field.to_owned());
        proof {
            lemma_counted_same_roots(before, tree@);
        }
        tree
    }

    /// Adds a line given by its tokens. An empty line changes nothing.
    pub fn add_tokens(&mut self, tokens: &[Token])
        requires
            old(self).wf(),
            old(self)@.lines < u64::MAX,
        ensures
            final(self).wf(),
            final(self)@ == old(self)@.with_tokens(tokens_view(tokens@)),
            tokens@.len() > 0 ==> final(self)@.roots.contains_key(tokens@.len() as usize)
                && exists|cluster: ClusterV|
                #[trigger] node_clusters(final(self)@.roots[tokens@.len() as usize]).contains(
                    cluster,
                ) && covers(cluster.template, tokens_view(tokens@)),
            old(self)@.fan_out_bounded() ==> final(self)@.fan_out_bounded(),
    {
        let len = tokens.len();
        if len == 0 {
            return ;
        }
        let ghost before = self@;
        let ghost input = tokens_view(tokens@);
        proof {
            lemma_added_line_is_covered(before, input);
            if before.fan_out_bounded() {
                lemma_with_tokens_keeps_fan_out(before, input);
            }
            lemma_with_tokens_wf(before, input);
            if before.roots.contains_key(len) {
                lemma_wf_monotone(
                    before.roots[len],
                    len as nat,
                    before.lines,
                    (u64::MAX - 1) as nat,
                );
            }
        }
        let start = if len == 1 {
            Node::leaf()
        } else {
            Node::inner(0)
        };
        let node = self.root.entry(len).or_insert(start);
        node.add_child_recur(
            0,
            &self.max_depth,
            &self.max_children,
            &self.min_similarity,
            tokens,
        );
        self.num_lines += 1;
        assert(self@.roots =~= before.with_tokens(input).roots);
    }

    /// Adds a raw line: the message is taken out of it by the overall
    /// pattern, if there is one, split into tokens and filtered, and the
    /// tokens are added.
    pub fn add_log_line(&mut self, log_line: String)
        requires
            old(self).wf(),
            old(self)@.lines < u64::MAX,
        ensures
            final(self).wf(),
            final(self)@ == old(self)@.with_tokens(old(self)@.tokens_of_line(log_line@)),
            old(self)@.tokens_of_line(log_line@).len() > 0,
            final(self)@.lines == old(self)@.lines + 1,
            final(self)@.roots.contains_key(old(self)@.tokens_of_line(log_line@).len() as usize),
            exists|cluster: ClusterV|
                #[trigger] node_clusters(
                    final(self)@.roots[old(self)@.tokens_of_line(log_line@).len() as usize],
                ).contains(cluster) && covers(
                    cluster.template,
                    old(self)@.tokens_of_line(log_line@),
                ),
            old(self)@.fan_out_bounded() ==> final(self)@.fan_out_bounded(),
    {
        let text = message(&self.overall_pattern, &self.drain_field, log_line);
        let tokens = process(&self.filter_patterns, text);
        self.add_tokens(tokens.as_slice());
    }

    /// The cluster that a lookup of `processed_log` finds below `child`.
    pub fn dig_inner_prefix_tree<'a>(&self, child: &'a Node, processed_log: &[Token]) -> (found:
        Option<&'a LogCluster>)
        requires
            exists|bound: nat| node_wf(child@, processed_log@.len() as nat, bound),
        ensures
            match found {
                Some(cluster) => node_lookup(child@, tokens_view(processed_log@)) == Some(
                    cluster@,
                ),
                None => node_lookup(child@, tokens_view(processed_log@)) is None,
            },
    {
        child.best_match(processed_log)
    }

    /// The cluster that a lookup of the given tokens finds: the best match
    /// of the leaf that the tokens themselves lead to, if they lead to one
    /// and it is not empty.
    pub fn log_group_for_tokens(&self, processed_log: &[Token]) -> (found: Option<&LogCluster>)
        requires
            self.wf(),
        ensures
            match found {
                Some(cluster) => self@.find(tokens_view(processed_log@)) == Some(cluster@),
                None => self@.find(tokens_view(processed_log@)) is None,
            },
    {
        match self.root.get(&processed_log.len()) {
            Some(node) => {
                self.dig_inner_prefix_tree(node, processed_log)
            },
            None => None,
        }
    }

    /// The cluster that a lookup of a raw line finds: the line is split
    /// into tokens and filtered, and the tokens are looked up.
    pub fn log_group(&self, log: String) -> (found: Option<&LogCluster>)
        requires
            self.wf(),
        ensures
            match found {
                Some(cluster) => self@.find(processed(self@.filters, log@)) == Some(cluster@),
                None => self@.find(processed(self@.filters, log@)) is None,
            },
    {
        let tokens = process(&self.filter_patterns, log);
        self.log_group_for_tokens(tokens.as_slice())
    }

    /// All clusters of the tree: those of the prefix tree for one length
    /// after those for another, the lengths in no particular order.
    pub fn log_groups(&self) -> (groups: Vec<&LogCluster>)
        ensures
            exists|order: Seq<usize>|
                {
                    &&& order.no_duplicates()
                    &&& order.to_set() == self@.roots.dom()
                    &&& groups@.map_values(|cluster: &LogCluster| cluster@)
                        == #[trigger] self@.clusters_in_order(order)
                },
            self.wf() ==> total_matches(groups@.map_values(|cluster: &LogCluster| cluster@))
                == self@.lines,
    {
        broadcast use vstd::std_specs::hash::axiom_spec_keys_iter;

        let mut groups: Vec<&LogCluster> = Vec::new();
        let ghost order = self.root.keys().remaining().unref();
        for len in it: self.root.keys()
            invariant
                it.seq().unref() == order,
                order.to_set() == self.root@.dom(),
                groups@.map_values(|cluster: &LogCluster| cluster@) == self@.clusters_in_order(
                    order.take(it.index()),
                ),
        {
            proof {
                assert(order.take(it.index() + 1).drop_last() =~= order.take(it.index()));
            }
            match self.root.get(len) {
                Some(node) => {
                    let mut below = node.log_groups();
                    groups.append(&mut below);
                },
                None => {},
            }
        }
        proof {
            assert(order.take(order.len() as int) =~= order);
        }
        groups
    }

    /// The text of the whole tree: the prefix trees for its lengths, the
    /// lengths in no particular order, framed.
    pub fn to_string(&self) -> (text: String)
        ensures
            exists|order: Seq<usize>|
                {
                    &&& order.no_duplicates()
                    &&& order.to_set() == self@.roots.dom()
                    &&& text@ == framed(#[trigger] self@.text_in_order(order))
                },
    {
        broadcast use vstd::std_specs::hash::axiom_spec_keys_iter;

        let mut text = String::new();
        text.append("[\n");
        let ghost order = self.root.keys().remaining().unref();
        for len in it: self.root.keys()
            invariant
                it.seq().unref() == order,
                order.to_set() == self.root@.dom(),
                text@ == "[\n"@ + self@.text_in_order(order.take(it.index())),
        {
            proof {
                assert(order.take(it.index() + 1).drop_last() =~= order.take(it.index()));
            }
            match self.root.get(len) {
                Some(node) => {
                    text.append("Len: ");
                    let length = decimal_string(*len as u64);
                    text.append(length.as_str());
                    text.append(" -> [ ");
                    let below = node.to_string();
                    text.append(below.as_str());
                    text.append(" ]\n");
                },
                None => {},
            }
        }
        text.append("\n]");
        proof {
            assert(order.take(order.len() as int) =~= order);
        }
        text
    }
}

} // verus!