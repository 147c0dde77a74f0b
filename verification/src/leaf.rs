//! Leaves: the bag of templates at the end of a path through the tree.

use crate::cluster::{hits, similarity_of, ClusterV, LogCluster};
use crate::similarity::{GroupSimilarity, Ratio};
use crate::token::{clone_tokens, tokens_view, Token, TokenV};
use vstd::prelude::*;

verus! {

/// The clusters of a leaf, in the order in which they were founded.
#[derive(Debug)]
pub struct Leaf {
    pub log_groups: Vec<LogCluster>,
}

/// A cluster of a leaf, by its index, with its scores against a line.
#[derive(Clone, Copy, Debug)]
pub struct GroupAndSimilarity {
    pub group_index: usize,
    pub similarity: GroupSimilarity,
}

impl View for Leaf {
    type V = Seq<ClusterV>;

    /// The values of the clusters of the leaf, in their order.
    open spec fn view(&self) -> Seq<ClusterV> {
        self.log_groups@.map_values(|cluster: LogCluster| cluster@)
    }
}

/// Whether every template of `clusters` has `len` positions.
pub open spec fn templates_of_length(clusters: Seq<ClusterV>, len: nat) -> bool {
    forall|i: int| 0 <= i < clusters.len() ==> (#[trigger] clusters[i]).template.len() == len
}

/// Whether every cluster of `clusters` stands for one line at least and
/// for `bound` lines at most.
pub open spec fn matches_within(clusters: Seq<ClusterV>, bound: nat) -> bool {
    forall|i: int| 0 <= i < clusters.len() ==> 1 <= (#[trigger] clusters[i]).matches <= bound
}

/// The index of the cluster that ranks highest against `input`: the first
/// that no other cluster outranks, by the exact score and then by the
/// approximate score. Zero for an empty leaf.
pub open spec fn best_index(clusters: Seq<ClusterV>, input: Seq<TokenV>) -> int
    decreases clusters.len(),
{
    if clusters.len() <= 1 {
        0
    } else {
        let earlier = best_index(clusters.drop_last(), input);
        if similarity_of(clusters.last().template, input).ranks_above(
            similarity_of(clusters[earlier].template, input),
        ) {
            clusters.len() - 1
        } else {
            earlier
        }
    }
}

/// The pair of counts behind the scores of a template against a line: the
/// positions that count towards the exact score, then those that count
/// towards the approximate score.
pub open spec fn score(template: Seq<TokenV>, input: Seq<TokenV>) -> (nat, nat) {
    (hits(template, input, false), hits(template, input, true))
}

/// Whether a pair of counts is above another: by the first count, and by
/// the second where the first counts are equal.
pub open spec fn above(left: (nat, nat), right: (nat, nat)) -> bool {
    left.0 > right.0 || (left.0 == right.0 && left.1 > right.1)
}

/// Whether the cluster at `index` is the best match of a line: no cluster
/// has counts above its own, and its counts are above those of every
/// cluster before it.
pub open spec fn is_best_match(clusters: Seq<ClusterV>, input: Seq<TokenV>, index: int) -> bool {
    &&& 0 <= index < clusters.len()
    &&& forall|j: int|
        0 <= j < clusters.len() ==> !above(
            score((#[trigger] clusters[j]).template, input),
            score(clusters[index].template, input),
        )
    &&& forall|j: int|
        0 <= j < index ==> above(
            score(clusters[index].template, input),
            score((#[trigger] clusters[j]).template, input),
        )
}

/// The number of lines that the clusters of `clusters` stand for, all
/// together.
pub open spec fn total_matches(clusters: Seq<ClusterV>) -> nat
    decreases clusters.len(),
{
    if clusters.len() == 0 {
        0
    } else {
        total_matches(clusters.drop_last()) + clusters.last().matches
    }
}

/// The best match of `input` among `clusters` with its scores, if there is
/// any cluster at all.
pub open spec fn best_of(clusters: Seq<ClusterV>, input: Seq<TokenV>) -> Option<
    GroupAndSimilarity,
> {
    if clusters.len() == 0 {
        None
    } else {
        Some(
            GroupAndSimilarity {
                group_index: best_index(clusters, input) as usize,
                similarity: similarity_of(clusters[best_index(clusters, input)].template, input),
            },
        )
    }
}

/// Whether a line founds a cluster of its own, given the match chosen for
/// it: when there is none, or when its approximate score is below the
/// threshold.
pub open spec fn founds_cluster(group: Option<GroupAndSimilarity>, min_similarity: Ratio) -> bool {
    match group {
        None => true,
        Some(chosen) => chosen.similarity.approximate_similarity.less_than(min_similarity),
    }
}

/// `clusters` after a line was added with the match chosen for it: the line
/// is appended as a new cluster, or absorbed by the chosen one.
pub open spec fn added_to_group(
    clusters: Seq<ClusterV>,
    group: Option<GroupAndSimilarity>,
    min_similarity: Ratio,
    input: Seq<TokenV>,
) -> Seq<ClusterV> {
    if founds_cluster(group, min_similarity) {
        clusters.push(ClusterV::founded_by(input))
    } else {
        clusters.update(
            group->0.group_index as int,
            clusters[group->0.group_index as int].absorb(input),
        )
    }
}

/// Whether a line founds a cluster of its own in a leaf: when the leaf is
/// empty, or when the approximate score of its best match is below the
/// threshold.
pub open spec fn starts_cluster(
    clusters: Seq<ClusterV>,
    input: Seq<TokenV>,
    min_similarity: Ratio,
) -> bool {
    clusters.len() == 0 || similarity_of(
        clusters[best_index(clusters, input)].template,
        input,
    ).approximate_similarity.less_than(min_similarity)
}

/// `clusters` after a line was added to the leaf: absorbed by its best
/// match if that is similar enough, appended as a new cluster if not.
pub open spec fn leaf_insert(clusters: Seq<ClusterV>, input: Seq<TokenV>, min_similarity: Ratio)
    -> Seq<ClusterV> {
    if starts_cluster(clusters, input, min_similarity) {
        clusters.push(ClusterV::founded_by(input))
    } else {
        clusters.update(
            best_index(clusters, input),
            clusters[best_index(clusters, input)].absorb(input),
        )
    }
}

/// The best index lies within a leaf that is not empty.
pub proof fn lemma_best_index_in_range(clusters: Seq<ClusterV>, input: Seq<TokenV>)
    requires
        clusters.len() > 0,
    ensures
        0 <= best_index(clusters, input) < clusters.len(),
    decreases clusters.len(),
{
    if clusters.len() > 1 {
        lemma_best_index_in_range(clusters.drop_last(), input);
    }
}

impl Leaf {
    /// A leaf without clusters.
    pub fn new() -> (leaf: Leaf)
        ensures
            leaf@ == Seq::<ClusterV>::empty(),
    {
        let leaf = Leaf { log_groups: Vec::new() };
        leaf
    }

    /// The cluster that ranks highest against `log_tokens`, with its
    /// scores; `None` if and only if the leaf is empty. Of several that
    /// rank highest, the first.
    pub fn best_group(&self, log_tokens: &[Token]) -> (best: Option<GroupAndSimilarity>)
        requires
            templates_of_length(self@, log_tokens@.len() as nat),
        ensures
            best == best_of(self@, tokens_view(log_tokens@)),
            best is None <==> self@.len() == 0,
            best matches Some(found) ==> is_best_match(
                self@,
                tokens_view(log_tokens@),
                found.group_index as int,
            ),
    {
        let ghost input = tokens_view(log_tokens@);
        let count = self.log_groups.len();
        if count == 0 {
            return None;
        }
        proof {
            assert(log_tokens@.len() == log_tokens.len());
            crate::laws::lemma_best_is_maximal(self@, input);
        }
        assert(self@[0] == self.log_groups@[0]@);
        let mut max_similarity = self.log_groups[0].similarity(log_tokens);
        let mut group_index: usize = 0;
        let mut i: usize = 1;
        while i < self.log_groups.len()
            invariant
                1 <= i <= self.log_groups.len(),
                input == tokens_view(log_tokens@),
                templates_of_length(self@, log_tokens@.len() as nat),
                group_index == best_index(self@.take(i as int), input),
                group_index < i,
                max_similarity == similarity_of(self@[group_index as int].template, input),
            decreases self.log_groups.len() - i,
        {
            assert(self@[i as int] == self.log_groups@[i as int]@);
            let similarity = self.log_groups[i].similarity(log_tokens);
            proof {
                assert(self@.take(i + 1).drop_last() =~= self@.take(i as int));
            }
            if similarity > max_similarity {
                max_similarity = similarity;
                group_index = i;
            }
            i += 1;
        }
        assert(self@.take(self.log_groups.len() as int) =~= self@);
        Some(GroupAndSimilarity { group_index, similarity: max_similarity })
    }

    /// Adds a line with the match chosen for it: as a new cluster when
    /// there is no match or its approximate score is below
    /// `min_similarity`, into the chosen cluster otherwise.
    pub fn add_to_group(
        &mut self,
        group: Option<GroupAndSimilarity>,
        min_similarity: &Ratio,
        log_tokens: &[Token],
    )
        requires
            !founds_cluster(group, *min_similarity) ==> {
                &&& group->0.group_index < old(self)@.len()
                &&& old(self)@[group->0.group_index as int].template.len() == log_tokens@.len()
                &&& old(self)@[group->0.group_index as int].matches < u64::MAX
            },
        ensures
            final(self)@ == added_to_group(
                old(self)@,
                group,
                *min_similarity,
                tokens_view(log_tokens@),
            ),
    {
        match group {
            Some(gas) => {
                if gas.similarity.approximate_similarity < *min_similarity {
                    self.log_groups.push(LogCluster::new(clone_tokens(log_tokens)));
                } else {
                    self.log_groups[gas.group_index].add_log(log_tokens);
                }
            },
            None => {
                self.log_groups.push(LogCluster::new(clone_tokens(log_tokens)));
            },
        }
    }

    /// Adds a line to the leaf: into its best match if that is similar
    /// enough, as a new cluster if not.
    pub fn insert_or_merge(&mut self, log_tokens: &[Token], min_similarity: &Ratio)
        requires
            templates_of_length(old(self)@, log_tokens@.len() as nat),
            forall|i: int| 0 <= i < old(self)@.len() ==> (#[trigger] old(self)@[i]).matches < u64::MAX,
        ensures
            final(self)@ == leaf_insert(old(self)@, tokens_view(log_tokens@), *min_similarity),
    {
        let best_group = self.best_group(log_tokens);
        proof {
            assert(self.log_groups@.len() == self.log_groups.len());
            if self@.len() > 0 {
                lemma_best_index_in_range(self@, tokens_view(log_tokens@));
            }
        }
        self.add_to_group(best_group, min_similarity, log_tokens);
    }
}

} // verus!
