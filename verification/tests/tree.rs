use drain_rs::{ConfigError, DrainTree, LogCluster, Node, Ratio, Token};

const WILDCARD: &str = "<*>";

fn tokens_from(strs: &[&str]) -> Vec<Token> {
    let mut v = Vec::with_capacity(strs.len());
    for s in strs.iter() {
        if *s == WILDCARD {
            v.push(Token::WildCard)
        } else {
            v.push(Token::Val(String::from(*s)))
        }
    }
    v
}

fn texts(groups: Vec<&LogCluster>) -> Vec<String> {
    let mut out: Vec<String> = groups.iter().map(|g| g.to_string()).collect();
    out.sort();
    out
}

fn add(tree: &mut DrainTree, line: &str) {
    assert!(tree.num_lines() < u64::MAX);
    tree.add_log_line(String::from(line));
}

#[test]
fn same_line_twice_is_one_cluster() {
    let mut tree = DrainTree::new();
    add(&mut tree, "a b c d e");
    add(&mut tree, "a b c d e");
    assert_eq!(texts(tree.log_groups()), vec!["a b c d e, count [2] "]);
}

#[test]
fn same_line_many_times_is_one_cluster() {
    let mut tree = DrainTree::new();
    for _ in 0..7 {
        add(&mut tree, "open file /tmp/x now");
    }
    let groups = tree.log_groups();
    assert_eq!(groups.len(), 1);
    assert_eq!(groups[0].num_matched(), 7);
    assert_eq!(groups[0].log_tokens(), &tokens_from(&["open", "file", "/tmp/x", "now"]));
    assert_eq!(tree.num_lines(), 7);
}

#[test]
fn last_token_selects_the_leaf_at_default_depth() {
    // With the default depth of four, a line of five tokens is routed by
    // its positions one to four, so lines that differ in the last token
    // end in different leaves.
    let mut tree = DrainTree::new();
    add(&mut tree, "a b c d e");
    add(&mut tree, "a b c d f");
    assert_eq!(
        texts(tree.log_groups()),
        vec!["a b c d e, count [1] ", "a b c d f, count [1] "]
    );
}

#[test]
fn last_token_is_generalised_below_the_depth_limit() {
    let mut tree = DrainTree::new().max_depth(3).unwrap();
    add(&mut tree, "a b c d e");
    add(&mut tree, "a b c d f");
    assert_eq!(texts(tree.log_groups()), vec!["a b c d <*>, count [2] "]);
}

#[test]
fn middle_token_is_generalised_below_the_depth_limit() {
    let mut tree = DrainTree::new()
        .max_depth(2)
        .unwrap()
        .min_similarity(Ratio::new(1, 2))
        .unwrap();
    add(&mut tree, "a b c d e");
    add(&mut tree, "a b c x e");
    assert_eq!(texts(tree.log_groups()), vec!["a b c <*> e, count [2] "]);
}

#[test]
fn middle_token_routes_apart_at_default_depth() {
    let mut tree = DrainTree::new().min_similarity(Ratio::new(1, 2)).unwrap();
    add(&mut tree, "a b c d e");
    add(&mut tree, "a b c x e");
    assert_eq!(
        texts(tree.log_groups()),
        vec!["a b c d e, count [1] ", "a b c x e, count [1] "]
    );
}

#[test]
fn unrelated_lines_are_two_clusters() {
    let mut tree = DrainTree::new().min_similarity(Ratio::new(1, 2)).unwrap();
    add(&mut tree, "a b c d e");
    add(&mut tree, "x y z w v");
    assert_eq!(
        texts(tree.log_groups()),
        vec!["a b c d e, count [1] ", "x y z w v, count [1] "]
    );
}

#[test]
fn dissimilar_lines_in_one_leaf_are_two_clusters() {
    let mut tree = DrainTree::new().max_depth(1).unwrap();
    add(&mut tree, "a b c d e");
    add(&mut tree, "x b z w v");
    assert_eq!(
        texts(tree.log_groups()),
        vec!["a b c d e, count [1] ", "x b z w v, count [1] "]
    );
}

#[test]
fn digits_route_through_the_wildcard() {
    let mut tree = DrainTree::new();
    add(&mut tree, "a 1 c d e");
    add(&mut tree, "a 2 c d e");
    assert_eq!(texts(tree.log_groups()), vec!["a <*> c d e, count [2] "]);
    // The lookup is strict: the digit-bearing token is no key of the tree,
    // the wildcard is.
    assert!(tree.log_group(String::from("a 1 c d e")).is_none());
    let found = tree
        .log_group_for_tokens(tokens_from(&["a", WILDCARD, "c", "d", "e"]).as_slice())
        .expect("the wildcard child leads to the cluster");
    assert_eq!(found.to_string(), "a <*> c d e, count [2] ");
}

#[test]
fn all_digit_lines_share_one_path() {
    let mut tree = DrainTree::new();
    add(&mut tree, "1 2 3 4");
    add(&mut tree, "1 2 3 5");
    add(&mut tree, "6 7 8 9");
    // One leaf takes them all; what they do not share keeps them apart.
    assert_eq!(
        texts(tree.log_groups()),
        vec!["1 2 3 <*>, count [2] ", "6 7 8 9, count [1] "]
    );
    assert!(tree.log_group(String::from("1 2 3 4")).is_none());
    let found = tree
        .log_group_for_tokens(tokens_from(&["1", WILDCARD, WILDCARD, WILDCARD]).as_slice())
        .expect("reached through wildcard children");
    assert_eq!(found.to_string(), "1 2 3 <*>, count [2] ");
}

#[test]
fn overflow_goes_to_the_wildcard_child() {
    let mut tree = DrainTree::new().max_children(2).unwrap();
    add(&mut tree, "p a x y z");
    add(&mut tree, "p b x y z");
    add(&mut tree, "p c x y z");
    assert_eq!(
        texts(tree.log_groups()),
        vec!["p a x y z, count [1] ", "p b x y z, count [1] ", "p c x y z, count [1] "]
    );
    // After three keys the node holds more than two children: the next new
    // key goes through the wildcard child, a known key does not.
    assert!(tree.log_group(String::from("p c x y z")).is_some());
    add(&mut tree, "p d x y z");
    assert!(tree.log_group(String::from("p d x y z")).is_none());
    let found = tree
        .log_group_for_tokens(tokens_from(&["p", WILDCARD, "x", "y", "z"]).as_slice())
        .expect("the overflow is below the wildcard child");
    assert_eq!(found.to_string(), "p d x y z, count [1] ");
    add(&mut tree, "p e x y z");
    add(&mut tree, "p a x y z");
    assert_eq!(
        texts(tree.log_groups()),
        vec![
            "p <*> x y z, count [2] ",
            "p a x y z, count [2] ",
            "p b x y z, count [1] ",
            "p c x y z, count [1] "
        ]
    );
}

#[test]
fn lookup_finds_the_absorbing_cluster() {
    let mut tree = DrainTree::new().max_depth(2).unwrap();
    add(&mut tree, "connect to host alpha");
    add(&mut tree, "connect to host beta");
    let found = tree
        .log_group(String::from("connect to host beta"))
        .expect("just added");
    assert_eq!(found.to_string(), "connect to host <*>, count [2] ");
    assert!(tree.log_group(String::from("connect from host beta")).is_none());
    assert!(tree.log_group(String::from("connect to")).is_none());
}

#[test]
fn lines_of_one_token() {
    let mut tree = DrainTree::new();
    add(&mut tree, "start");
    add(&mut tree, "start");
    add(&mut tree, "stop");
    assert_eq!(texts(tree.log_groups()), vec!["start, count [2] ", "stop, count [1] "]);
    assert_eq!(
        tree.log_group(String::from("stop")).unwrap().to_string(),
        "stop, count [1] "
    );
    // With a threshold of zero every line of one token joins the first
    // cluster.
    let mut tree = DrainTree::new().min_similarity(Ratio::new(0, 1)).unwrap();
    add(&mut tree, "start");
    add(&mut tree, "stop");
    assert_eq!(texts(tree.log_groups()), vec!["<*>, count [2] "]);
}

#[test]
fn empty_token_sequence_is_ignored() {
    let mut tree = DrainTree::new();
    tree.add_tokens(&[]);
    assert_eq!(tree.log_groups().len(), 0);
    assert_eq!(tree.num_lines(), 0);
    assert!(tree.log_group_for_tokens(&[]).is_none());
}

#[test]
fn empty_line_is_one_empty_token() {
    let mut tree = DrainTree::new();
    add(&mut tree, "");
    assert_eq!(texts(tree.log_groups()), vec![", count [1] "]);
}

#[test]
fn lengths_are_kept_apart() {
    let mut tree = DrainTree::new();
    add(&mut tree, "a b c");
    add(&mut tree, "a b c d");
    add(&mut tree, "a b");
    let groups = tree.log_groups();
    assert_eq!(groups.len(), 3);
    let mut lengths: Vec<usize> = groups.iter().map(|g| g.len()).collect();
    lengths.sort();
    assert_eq!(lengths, vec![2, 3, 4]);
    assert_eq!(tree.num_lines(), 3);
}

#[test]
fn add_tokens_takes_wildcards() {
    let mut tree = DrainTree::new();
    tree.add_tokens(tokens_from(&["get", WILDCARD, "ok"]).as_slice());
    tree.add_tokens(tokens_from(&["get", "17", "ok"]).as_slice());
    assert_eq!(texts(tree.log_groups()), vec!["get <*> ok, count [2] "]);
}

#[test]
fn limits_are_validated() {
    assert_eq!(DrainTree::new().max_depth(0).err(), Some(ConfigError::ZeroMaxDepth));
    assert_eq!(DrainTree::new().max_children(0).err(), Some(ConfigError::ZeroMaxChildren));
    assert_eq!(
        DrainTree::new().min_similarity(Ratio::new(3, 2)).err(),
        Some(ConfigError::SimilarityOutOfRange)
    );
    assert_eq!(
        DrainTree::new().min_similarity(Ratio::new(0, 0)).err(),
        Some(ConfigError::SimilarityOutOfRange)
    );
    assert!(DrainTree::new().max_depth(1).is_ok());
    assert!(DrainTree::new().max_children(1).is_ok());
    assert!(DrainTree::new().min_similarity(Ratio::new(0, 5)).is_ok());
    assert!(DrainTree::new().min_similarity(Ratio::new(5, 5)).is_ok());
}

#[test]
fn threshold_of_one_only_merges_covered_lines() {
    let mut tree = DrainTree::new()
        .max_depth(1)
        .unwrap()
        .min_similarity(Ratio::new(1, 1))
        .unwrap();
    add(&mut tree, "a b c");
    add(&mut tree, "a b d");
    add(&mut tree, "a b c");
    assert_eq!(texts(tree.log_groups()), vec!["a b c, count [2] ", "a b d, count [1] "]);
}

#[test]
fn fresh_nodes() {
    assert_eq!(Node::leaf().log_groups().len(), 0);
    assert_eq!(Node::inner(0).log_groups().len(), 0);
    let line = tokens_from(&["a", "b", "c"]);
    let chain = Node::fresh_subtree(1, &4, line.as_slice());
    let groups = chain.log_groups();
    assert_eq!(groups.len(), 1);
    assert_eq!(groups[0].to_string(), "a b c, count [1] ");
    match chain {
        Node::Inner(inner) => {
            assert_eq!(inner.depth, 1);
            assert_eq!(inner.children.len(), 1);
            assert_eq!(inner.children[0].key, Token::Val(String::from("c")));
            assert!(inner.find_child(&Token::Val(String::from("c"))) == Some(0));
            assert!(inner.find_child(&Token::WildCard).is_none());
            assert!(matches!(inner.children[0].node, Node::Leaf(_)));
        }
        Node::Leaf(_) => panic!("position one is not the last of three"),
    }
}

#[test]
fn node_insertion_and_lookup() {
    let half = Ratio::new(1, 2);
    let mut root = Node::inner(0);
    let first = tokens_from(&["a", "b", "c"]);
    let second = tokens_from(&["a", "b", "d"]);
    root.add_child_recur(0, &1, &100, &half, first.as_slice());
    root.add_child_recur(0, &1, &100, &half, second.as_slice());
    let groups = root.log_groups();
    assert_eq!(groups.len(), 1);
    assert_eq!(groups[0].to_string(), "a b <*>, count [2] ");
    let found = root.best_match(second.as_slice()).expect("routed by b");
    assert_eq!(found.num_matched(), 2);
    assert!(root.best_match(tokens_from(&["a", "x", "d"]).as_slice()).is_none());
}

#[test]
fn every_line_is_counted_once() {
    let mut tree = DrainTree::new().max_depth(2).unwrap().max_children(1).unwrap();
    let lines = [
        "a b c", "a b d", "a x c", "q", "q", "r", "1 2 3 4", "a b c", "k l m n o p", "a z c",
        "a y c", "", " ",
    ];
    for line in lines.iter() {
        add(&mut tree, line);
    }
    let total: u64 = tree.log_groups().iter().map(|g| g.num_matched()).sum();
    assert_eq!(total, lines.len() as u64);
    assert_eq!(tree.num_lines(), lines.len() as u64);
    assert!(tree.log_groups().iter().all(|g| g.num_matched() >= 1));
}

#[test]
fn node_text() {
    let line = tokens_from(&["a", "b", "c"]);
    let chain = Node::fresh_subtree(1, &4, line.as_slice());
    assert_eq!(
        chain.to_string(),
        "[\n Token: c -> Children [[\ngroup [a b c, count [1] ]\n]]\n\n]"
    );
    assert_eq!(Node::leaf().to_string(), "[\n\n]");
    assert_eq!(Node::inner(3).to_string(), "[\n\n]");
    let mut root = Node::inner(0);
    let half = Ratio::new(1, 2);
    root.add_child_recur(0, &1, &100, &half, tokens_from(&["a", "b"]).as_slice());
    root.add_child_recur(0, &1, &100, &half, tokens_from(&["c", "d"]).as_slice());
    root.add_child_recur(0, &1, &100, &half, tokens_from(&["e", "d"]).as_slice());
    assert_eq!(
        root.to_string(),
        "[\nToken: b -> Children [[\ngroup [a b, count [1] ]\n]]\nToken: d -> Children [[\ngroup [<*> d, count [2] ]\n]]\n\n]"
    );
}

#[test]
fn tree_text() {
    assert_eq!(DrainTree::new().to_string(), "[\n\n]");
    let mut tree = DrainTree::new();
    add(&mut tree, "x y");
    assert_eq!(
        tree.to_string(),
        "[\nLen: 2 -> [ [\nToken: y -> Children [[\ngroup [x y, count [1] ]\n]]\n\n] ]\n\n]"
    );
    let mut tree = DrainTree::new();
    add(&mut tree, "only");
    assert_eq!(tree.to_string(), "[\nLen: 1 -> [ [\ngroup [only, count [1] ]\n] ]\n\n]");
}

#[test]
fn fan_out_stays_within_the_limit() {
    let half = Ratio::new(1, 2);
    let mut root = Node::inner(0);
    let keys = ["a", "b", "c", "d", "e", "7", "f"];
    for key in keys.iter() {
        let line = tokens_from(&["x", key, "y", "z"]);
        root.add_child_recur(0, &4, &1, &half, line.as_slice());
    }
    match &root {
        Node::Inner(inner) => {
            // Two keys of their own, then everything new goes to the
            // wildcard child: one more than the limit, and the wildcard.
            assert_eq!(inner.children.len(), 3);
            assert_eq!(inner.children[0].key, Token::Val(String::from("a")));
            assert_eq!(inner.children[1].key, Token::Val(String::from("b")));
            assert_eq!(inner.children[2].key, Token::WildCard);
        }
        Node::Leaf(_) => panic!("the root of lines of four tokens is an inner node"),
    }
    assert_eq!(root.log_groups().len(), 3);
    // Inner nodes whose children are leaves take every key.
    let mut last = Node::inner(0);
    for key in keys.iter() {
        let line = tokens_from(&["x", key]);
        last.add_child_recur(0, &4, &1, &half, line.as_slice());
    }
    match &last {
        Node::Inner(inner) => assert_eq!(inner.children.len(), 7),
        Node::Leaf(_) => panic!("the root of lines of two tokens is an inner node"),
    }
}

#[test]
fn lookup_after_insert_finds_a_covering_cluster() {
    let mut tree = DrainTree::new().max_depth(3).unwrap();
    let lines = [
        "user alice logged in from home",
        "user bob logged in from work",
        "user alice logged out from home",
        "disk sda is almost full now",
    ];
    for line in lines.iter() {
        add(&mut tree, line);
        let tokens: Vec<&str> = line.split(' ').collect();
        let found = tree
            .log_group(String::from(*line))
            .expect("no token of the line holds a digit");
        assert_eq!(found.len(), tokens.len());
        for (template, token) in found.log_tokens().iter().zip(tokens.iter()) {
            assert!(*template == Token::WildCard || *template == Token::Val(String::from(*token)));
        }
    }
}
