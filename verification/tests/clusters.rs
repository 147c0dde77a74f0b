use drain_rs::{GroupAndSimilarity, GroupSimilarity, Leaf, LogCluster, Ratio, Token};

const WILDCARD: &str = "<*>";

fn tokens_from(strs: &[&str]) -> Vec<Token> {
    let mut v = Vec::with_capacity(strs.len());
    for s in strs.iter() {
        if *s == WILDCARD {
            v.push(Token::WildCard)
        } else {
            v.push(Token::Val(String::from(*s)))
        }
    }
    v
}

fn as_f32(ratio: Ratio) -> f32 {
    ratio.numerator as f32 / ratio.denominator as f32
}

fn three_groups() -> Leaf {
    Leaf {
        log_groups: vec![
            LogCluster::new(tokens_from(&["foo", "bar", WILDCARD, "bar", "baz"])),
            LogCluster::new(tokens_from(&["foo", "bar", "other", "bar", "baz"])),
            LogCluster::new(tokens_from(&["a", "b", WILDCARD, "c", "baz"])),
        ],
    }
}

#[test]
fn similarity_check() {
    let tokens = tokens_from(&["foo", WILDCARD, "foo", "bar", "baz"]);
    let template = tokens_from(&["foo", "bar", WILDCARD, "bar", "baz"]);
    let group = LogCluster::new(template);
    let similarity = group.similarity(tokens.as_slice());

    assert_eq!(as_f32(similarity.exact_similarity), 0.6);
    assert_eq!(as_f32(similarity.approximate_similarity), 0.8);
}

#[test]
fn best_group() {
    let tokens = tokens_from(&["foo", WILDCARD, "foo", "bar", "baz"]);

    let leaf = three_groups();

    let best_group = leaf
        .best_group(tokens.as_slice())
        .expect("missing best group");

    assert_eq!(best_group.group_index, 0);
    assert_eq!(as_f32(best_group.similarity.exact_similarity), 0.6);
    assert_eq!(as_f32(best_group.similarity.approximate_similarity), 0.8);

    let leaf = Leaf {
        log_groups: vec![
            LogCluster::new(tokens_from(&["a", "b", WILDCARD, "c", "baz"])),
            LogCluster::new(tokens_from(&["foo", "bar", "other", "bar", "baz"])),
        ],
    };
    let best_group = leaf
        .best_group(tokens.as_slice())
        .expect("missing best group");

    assert_eq!(best_group.group_index, 1);
    assert_eq!(as_f32(best_group.similarity.exact_similarity), 0.6);
    assert_eq!(as_f32(best_group.similarity.approximate_similarity), 0.6);
}

#[test]
fn add_group() {
    let tokens = tokens_from(&["foo", WILDCARD, "foo", "bar", "baz"]);
    let min_sim = Ratio::new(1, 2);

    // Add new group as no similarity was provided
    {
        let mut leaf = three_groups();
        leaf.add_to_group(Option::None, &min_sim, tokens.as_slice());
        assert_eq!(leaf.log_groups.len(), 4);
    }
    // lower than minimum similarity, new group is added
    {
        let mut leaf = three_groups();
        leaf.add_to_group(
            Option::Some(GroupAndSimilarity {
                group_index: 1,
                similarity: GroupSimilarity {
                    exact_similarity: Ratio::new(1, 10),
                    approximate_similarity: Ratio::new(1, 10),
                },
            }),
            &min_sim,
            tokens.as_slice(),
        );
        assert_eq!(leaf.log_groups.len(), 4);
    }

    {
        let mut leaf = three_groups();
        leaf.add_to_group(Option::None, &min_sim, tokens.as_slice());
        assert_eq!(leaf.log_groups.len(), 4);
    }
    // adds new group and adjusts stored tokens
    {
        let mut leaf = three_groups();
        leaf.add_to_group(
            Option::Some(GroupAndSimilarity {
                group_index: 0,
                similarity: GroupSimilarity {
                    exact_similarity: Ratio::new(6, 10),
                    approximate_similarity: Ratio::new(6, 10),
                },
            }),
            &min_sim,
            tokens.as_slice(),
        );
        assert_eq!(leaf.log_groups.len(), 3);
        assert_eq!(
            leaf.log_groups[0].log_tokens(),
            &tokens_from(&["foo", WILDCARD, WILDCARD, "bar", "baz"])
        );
    }
}

#[test]
fn similarity_counts_are_exact() {
    let tokens = tokens_from(&["foo", WILDCARD, "foo", "bar", "baz"]);
    let group = LogCluster::new(tokens_from(&["foo", "bar", WILDCARD, "bar", "baz"]));
    let similarity = group.similarity(tokens.as_slice());
    assert_eq!(similarity.exact_similarity.numerator, 3);
    assert_eq!(similarity.exact_similarity.denominator, 5);
    assert_eq!(similarity.approximate_similarity.numerator, 4);
    assert_eq!(similarity.approximate_similarity.denominator, 5);
}

#[test]
fn template_is_fully_similar_to_itself() {
    let template = tokens_from(&["foo", WILDCARD, "foo", "bar"]);
    let group = LogCluster::new(tokens_from(&["foo", WILDCARD, "foo", "bar"]));
    let similarity = group.similarity(template.as_slice());
    assert_eq!(as_f32(similarity.exact_similarity), 1.0);
    assert_eq!(as_f32(similarity.approximate_similarity), 1.0);
    assert_eq!(similarity.exact_similarity, Ratio::new(1, 1));
}

#[test]
fn empty_template_has_no_score() {
    let group = LogCluster::new(Vec::new());
    let similarity = group.similarity(&[]);
    assert_eq!(similarity.exact_similarity.denominator, 0);
    assert!(as_f32(similarity.exact_similarity).is_nan());
    assert!(similarity.exact_similarity != similarity.exact_similarity);
    assert!(!(similarity > similarity));
    assert!(similarity.partial_cmp(&similarity).is_none());
}

#[test]
fn wildcards_survive_merges() {
    let mut group = LogCluster::new(tokens_from(&["a", WILDCARD, "c"]));
    group.add_log(tokens_from(&["a", "b", "c"]).as_slice());
    assert_eq!(group.log_tokens(), &tokens_from(&["a", WILDCARD, "c"]));
    group.add_log(tokens_from(&["x", "b", "c"]).as_slice());
    assert_eq!(group.log_tokens(), &tokens_from(&[WILDCARD, WILDCARD, "c"]));
    group.add_log(tokens_from(&["a", "b", "c"]).as_slice());
    assert_eq!(group.log_tokens(), &tokens_from(&[WILDCARD, WILDCARD, "c"]));
    assert_eq!(group.num_matched(), 4);
    assert_eq!(group.len(), 3);
}

#[test]
fn merge_against_wildcard_input_generalises() {
    let mut group = LogCluster::new(tokens_from(&["a", "b"]));
    group.add_log(tokens_from(&["a", WILDCARD]).as_slice());
    assert_eq!(group.log_tokens(), &tokens_from(&["a", WILDCARD]));
    assert_eq!(group.num_matched(), 2);
}

#[test]
fn new_cluster_counts_one() {
    let group = LogCluster::new(tokens_from(&["a", "b"]));
    assert_eq!(group.num_matched(), 1);
    assert_eq!(group.log_tokens(), &tokens_from(&["a", "b"]));
}

#[test]
fn cluster_text() {
    let mut group = LogCluster::new(tokens_from(&["a", "b", "c"]));
    assert_eq!(group.to_string(), "a b c, count [1] ");
    group.add_log(tokens_from(&["a", "x", "c"]).as_slice());
    assert_eq!(group.to_string(), "a <*> c, count [2] ");
    for _ in 0..10 {
        group.add_log(tokens_from(&["a", "x", "c"]).as_slice());
    }
    assert_eq!(group.to_string(), "a <*> c, count [12] ");
    assert_eq!(LogCluster::new(Vec::new()).to_string(), ", count [1] ");
    assert_eq!(LogCluster::new(tokens_from(&["only"])).to_string(), "only, count [1] ");
}

#[test]
fn token_text_and_equality() {
    assert_eq!(Token::WildCard.to_string(), "<*>");
    assert_eq!(Token::Val(String::from("abc")).to_string(), "abc");
    assert_eq!(Token::WildCard, Token::WildCard);
    assert_eq!(Token::Val(String::from("a")), Token::Val(String::from("a")));
    assert_ne!(Token::Val(String::from("a")), Token::Val(String::from("b")));
    assert_ne!(Token::Val(String::from("<*>")), Token::WildCard);
    assert_eq!(Token::Val(String::from("a")).clone(), Token::Val(String::from("a")));
    assert!(Token::WildCard.is_wildcard());
    assert!(!Token::Val(String::from("<*>")).is_wildcard());
}

#[test]
fn routing_keys() {
    assert_eq!(Token::WildCard.routing_key(), Token::WildCard);
    assert_eq!(Token::Val(String::from("abc")).routing_key(), Token::Val(String::from("abc")));
    assert_eq!(Token::Val(String::from("blk_7")).routing_key(), Token::WildCard);
    assert_eq!(Token::Val(String::from("0")).routing_key(), Token::WildCard);
    assert_eq!(Token::Val(String::from("9x")).routing_key(), Token::WildCard);
    assert_eq!(Token::Val(String::from("")).routing_key(), Token::Val(String::from("")));
    // Only the ten ASCII digits count.
    assert_eq!(
        Token::Val(String::from("\u{0663}")).routing_key(),
        Token::Val(String::from("\u{0663}"))
    );
    assert_eq!(Token::Val(String::from("/:")).routing_key(), Token::Val(String::from("/:")));
    assert!(drain_rs::token::contains_digit("a5"));
    assert!(!drain_rs::token::contains_digit("a/:"));
}

#[test]
fn ratios_compare_as_fractions() {
    assert!(Ratio::new(1, 2) < Ratio::new(2, 3));
    assert!(Ratio::new(3, 5) > Ratio::new(1, 2));
    assert!(Ratio::new(1, 2) == Ratio::new(2, 4));
    assert!(!(Ratio::new(1, 2) < Ratio::new(2, 4)));
    assert!(!(Ratio::new(0, 0) < Ratio::new(1, 2)));
    assert!(!(Ratio::new(1, 2) < Ratio::new(0, 0)));
    assert!(Ratio::new(0, 0) != Ratio::new(0, 0));
    assert!(Ratio::new(u64::MAX, 1) > Ratio::new(u64::MAX - 1, 1));
    assert!(Ratio::new(1, u64::MAX) < Ratio::new(1, u64::MAX - 1));
    assert!(Ratio::new(1, 2).in_unit_interval());
    assert!(Ratio::new(0, 1).in_unit_interval());
    assert!(Ratio::new(1, 1).in_unit_interval());
    assert!(!Ratio::new(3, 2).in_unit_interval());
    assert!(!Ratio::new(0, 0).in_unit_interval());
}

#[test]
fn scores_rank_by_exact_then_approximate() {
    let low = GroupSimilarity {
        exact_similarity: Ratio::new(2, 5),
        approximate_similarity: Ratio::new(5, 5),
    };
    let high = GroupSimilarity {
        exact_similarity: Ratio::new(3, 5),
        approximate_similarity: Ratio::new(3, 5),
    };
    let higher = GroupSimilarity {
        exact_similarity: Ratio::new(3, 5),
        approximate_similarity: Ratio::new(4, 5),
    };
    assert!(high > low);
    assert!(higher > high);
    assert!(!(high > higher));
    assert!(!(high > high));
    assert!(high == high);
    assert_eq!(high.partial_cmp(&higher), Some(std::cmp::Ordering::Less));
}

#[test]
fn best_group_of_empty_leaf() {
    let leaf = Leaf::new();
    assert!(leaf.best_group(tokens_from(&["a"]).as_slice()).is_none());
}

#[test]
fn best_group_prefers_first_of_equals() {
    let leaf = Leaf {
        log_groups: vec![
            LogCluster::new(tokens_from(&["x", "b"])),
            LogCluster::new(tokens_from(&["a", "y"])),
            LogCluster::new(tokens_from(&["a", "z"])),
        ],
    };
    let best = leaf.best_group(tokens_from(&["a", "b"]).as_slice()).unwrap();
    assert_eq!(best.group_index, 0);
    assert_eq!(best.similarity.exact_similarity, Ratio::new(1, 2));
}

#[test]
fn best_group_breaks_ties_by_approximate_score() {
    let leaf = Leaf {
        log_groups: vec![
            LogCluster::new(tokens_from(&["a", "y", "q"])),
            LogCluster::new(tokens_from(&["a", WILDCARD, "r"])),
        ],
    };
    let best = leaf.best_group(tokens_from(&["a", "b", "c"]).as_slice()).unwrap();
    assert_eq!(best.group_index, 1);
    assert_eq!(best.similarity.exact_similarity, Ratio::new(1, 3));
    assert_eq!(best.similarity.approximate_similarity, Ratio::new(2, 3));
}

#[test]
fn insert_or_merge_at_the_threshold() {
    let half = Ratio::new(1, 2);
    let mut leaf = Leaf::new();
    leaf.insert_or_merge(tokens_from(&["a", "b", "c", "d"]).as_slice(), &half);
    assert_eq!(leaf.log_groups.len(), 1);
    // Two of four positions agree: the score equals the threshold, which is
    // not below it.
    leaf.insert_or_merge(tokens_from(&["a", "b", "x", "y"]).as_slice(), &half);
    assert_eq!(leaf.log_groups.len(), 1);
    assert_eq!(leaf.log_groups[0].log_tokens(), &tokens_from(&["a", "b", WILDCARD, WILDCARD]));
    assert_eq!(leaf.log_groups[0].num_matched(), 2);
    // Nothing agrees exactly, but the wildcards count for the approximate
    // score.
    leaf.insert_or_merge(tokens_from(&["p", "q", "x", "y"]).as_slice(), &half);
    assert_eq!(leaf.log_groups.len(), 1);
    assert_eq!(leaf.log_groups[0].num_matched(), 3);
    assert_eq!(
        leaf.log_groups[0].log_tokens(),
        &tokens_from(&[WILDCARD, WILDCARD, WILDCARD, WILDCARD])
    );
}

#[test]
fn insert_or_merge_below_the_threshold() {
    let half = Ratio::new(1, 2);
    let mut leaf = Leaf::new();
    leaf.insert_or_merge(tokens_from(&["a", "b", "c", "d"]).as_slice(), &half);
    leaf.insert_or_merge(tokens_from(&["a", "x", "y", "z"]).as_slice(), &half);
    assert_eq!(leaf.log_groups.len(), 2);
    assert_eq!(leaf.log_groups[0].num_matched(), 1);
    assert_eq!(leaf.log_groups[1].num_matched(), 1);
    assert_eq!(leaf.log_groups[1].log_tokens(), &tokens_from(&["a", "x", "y", "z"]));
}
