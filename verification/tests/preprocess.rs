use drain_rs::preprocess::{
    field_or_line, filter_piece, message, process, split_line, token_from_capture,
};
use drain_rs::{DrainTree, LogCluster, Token};

fn compile(pattern: &str) -> grok::Pattern {
    grok::Grok::with_default_patterns()
        .compile(pattern, true)
        .expect("the pattern compiles")
}

fn val(text: &str) -> Token {
    Token::Val(String::from(text))
}

fn texts(groups: Vec<&LogCluster>) -> Vec<String> {
    let mut out: Vec<String> = groups.iter().map(|g| g.to_string()).collect();
    out.sort();
    out
}

#[test]
fn split_at_single_spaces() {
    assert_eq!(split_line("a b c"), vec!["a", "b", "c"]);
    assert_eq!(split_line(""), vec![""]);
    assert_eq!(split_line(" "), vec!["", ""]);
    assert_eq!(split_line("a  b"), vec!["a", "", "b"]);
    assert_eq!(split_line("a b "), vec!["a", "b", ""]);
    assert_eq!(split_line(" a"), vec!["", "a"]);
    assert_eq!(split_line("a\tb c\n"), vec!["a\tb", "c\n"]);
    assert_eq!(split_line("h\u{e9}llo w\u{f6}rld"), vec!["h\u{e9}llo", "w\u{f6}rld"]);
}

#[test]
fn process_without_filters() {
    let tokens = process(&Vec::new(), String::from("GET /index.html 200"));
    assert_eq!(tokens, vec![val("GET"), val("/index.html"), val("200")]);
    assert_eq!(process(&Vec::new(), String::from("<*> x")), vec![val("<*>"), val("x")]);
}

#[test]
fn capture_names_replace_pieces() {
    assert_eq!(token_from_capture(Some(String::from("ip"))), val("ip"));
    assert_eq!(token_from_capture(None), Token::WildCard);
}

#[test]
fn first_matching_filter_wins() {
    let filters = vec![
        compile("blk_(|-)[0-9]+"),
        compile("%{IPV4:ip_address}"),
        compile("%{NUMBER:number}"),
    ];
    assert_eq!(filter_piece(&filters, String::from("blk_-42")), Token::WildCard);
    assert_eq!(filter_piece(&filters, String::from("10.0.0.1")), val("ip_address"));
    assert_eq!(filter_piece(&filters, String::from("4711")), val("number"));
    assert_eq!(filter_piece(&filters, String::from("word")), val("word"));
    let tokens = process(&filters, String::from("recv blk_7 from 10.1.2.3 size 512 ok"));
    assert_eq!(
        tokens,
        vec![
            val("recv"),
            Token::WildCard,
            val("from"),
            val("ip_address"),
            val("size"),
            val("number"),
            val("ok")
        ]
    );
    let reversed = vec![compile("%{NUMBER:number}"), compile("%{IPV4:ip_address}")];
    assert_eq!(filter_piece(&reversed, String::from("10.0.0.1")), val("number"));
}

#[test]
fn first_capture_is_the_first_by_name() {
    let filters = vec![compile("%{WORD:zeta}=%{WORD:alpha}")];
    assert_eq!(filter_piece(&filters, String::from("k=v")), val("alpha"));
}

#[test]
fn captured_field_replaces_the_line() {
    assert_eq!(field_or_line(Some(String::from("body")), String::from("1 body")), "body");
    assert_eq!(field_or_line(Some(String::new()), String::from("1 body")), "");
    assert_eq!(field_or_line(None, String::from("1 body")), "1 body");
}

#[test]
fn message_is_taken_from_the_field() {
    let overall = Some(compile("%{NUMBER:seq} %{LOGLEVEL:level} %{GREEDYDATA:content}"));
    let field = Some(String::from("content"));
    assert_eq!(
        message(&overall, &field, String::from("17 INFO disk is full")),
        "disk is full"
    );
    // No match: the whole line.
    assert_eq!(message(&overall, &field, String::from("no level here")), "no level here");
    // A field that the pattern does not have: the whole line.
    let other = Some(String::from("missing"));
    assert_eq!(
        message(&overall, &other, String::from("17 INFO disk is full")),
        "17 INFO disk is full"
    );
    assert_eq!(message(&None, &None, String::from("17 INFO x")), "17 INFO x");
}

#[test]
fn tree_with_patterns() {
    let mut tree = DrainTree::new()
        .max_depth(2)
        .unwrap()
        .filter_patterns(vec![compile("%{IPV4:ip_address}"), compile("blk_(|-)[0-9]+")])
        .log_pattern(
            compile("%{NUMBER:seq} %{LOGLEVEL:level} %{GREEDYDATA:content}"),
            "content",
        );
    tree.add_log_line(String::from("1 INFO received block blk_1 from 10.0.0.1"));
    tree.add_log_line(String::from("2 WARN received block blk_-2 from 10.0.0.2"));
    tree.add_log_line(String::from("not a structured line at all"));
    assert_eq!(
        texts(tree.log_groups()),
        vec![
            "not a structured line at all, count [1] ",
            "received block <*> from ip_address, count [2] "
        ]
    );
    // The lookup filters its line but does not take the message out of it.
    let found = tree
        .log_group(String::from("received block blk_9 from 10.9.9.9"))
        .expect("same tokens after filtering");
    assert_eq!(found.num_matched(), 2);
    assert!(tree
        .log_group(String::from("3 INFO received block blk_9 from 10.9.9.9"))
        .is_none());
}
