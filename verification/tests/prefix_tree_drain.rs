use logruster::drain::{line_table, DrainError, LogParser};
use logruster::prefix_tree::{ChildOrLogCluster, LogCluster, Node, PrefixTree};

fn toks(words: &[&str]) -> Vec<String> {
    words.iter().map(|w| w.to_string()).collect()
}

fn lines(ls: &[&str]) -> Vec<String> {
    ls.iter().map(|l| l.to_string()).collect()
}

fn drain(format: &str, patterns: Vec<&str>, depth: Option<usize>, max_child: Option<usize>) -> LogParser {
    LogParser::new(
        Some("../data/".to_string()),
        Some("out/".to_string()),
        depth,
        max_child,
        format.to_string(),
        patterns,
        None,
    )
}

#[test]
fn node_new_defaults() {
    let n = Node::new(None, None);
    assert_eq!(n.depth, 0);
    assert_eq!(n.digit_or_token, "");
    assert!(matches!(n.child_or_logcluster, ChildOrLogCluster::Children(ref c) if c.is_empty()));
    let m = Node::new(Some(3), Some("tok".to_string()));
    assert_eq!(m.depth, 3);
    assert_eq!(m.digit_or_token, "tok");
}

#[test]
fn tree_groups_messages_by_length_then_leading_tokens() {
    let mut t = PrefixTree::new();
    assert_eq!(t.len(), 1);
    t.insert(&LogCluster::new("1".to_string(), toks(&["user", "1", "in"])), 2, 100);
    t.insert(&LogCluster::new("2".to_string(), toks(&["user", "2", "in"])), 2, 100);
    t.insert(&LogCluster::new("3".to_string(), toks(&["disk", "full"])), 2, 100);
    // root, <3>, user, <2>, disk
    assert_eq!(t.len(), 5);
    let three = t.find_child(0, &"3".to_string()).unwrap();
    let two = t.find_child(0, &"2".to_string()).unwrap();
    assert_ne!(three, two);
    assert_eq!(t.child_count(0), 2);
    assert_eq!(t.child_count(three), 1);
    assert!(t.find_child(three, &"user".to_string()).is_some());
    assert!(t.find_child(two, &"disk".to_string()).is_some());
    assert_eq!(
        t.subtree_text(0, 1, 2, 100),
        vec!["\tRoot", "\t\t<3>", "\t\t\tuser", "\t\t<2>", "\t\t\tdisk"]
    );
}

#[test]
fn same_prefix_reaches_the_same_leaf() {
    let mut t = PrefixTree::new();
    t.insert(&LogCluster::new("1".to_string(), toks(&["a", "b", "x"])), 3, 100);
    let before = t.len();
    t.insert(&LogCluster::new("2".to_string(), toks(&["a", "b", "y"])), 3, 100);
    // the second message follows the path of the first: no new node
    assert_eq!(t.len(), before);
    let three = t.find_child(0, &"3".to_string()).unwrap();
    let a = t.find_child(three, &"a".to_string()).unwrap();
    let b = t.find_child(a, &"b".to_string()).unwrap();
    assert_eq!(t.cluster_count(b), 2);
    assert_eq!(t.cluster_count(a), 0);
}

#[test]
fn each_insert_stores_one_cluster_when_the_message_is_long_enough() {
    let mut t = PrefixTree::new();
    t.insert(&LogCluster::new("1".to_string(), toks(&["a", "b"])), 2, 100);
    let two = t.find_child(0, &"2".to_string()).unwrap();
    let a = t.find_child(two, &"a".to_string()).unwrap();
    assert_eq!(t.cluster_count(a), 1);
    // a message shorter than the depth limit is not stored
    t.insert(&LogCluster::new("2".to_string(), toks(&["a"])), 2, 100);
    let one = t.find_child(0, &"1".to_string()).unwrap();
    assert_eq!(t.cluster_count(one), 0);
    let one_a = t.find_child(one, &"a".to_string()).unwrap();
    assert_eq!(t.cluster_count(one_a), 0);
    // nor is an empty one
    t.insert(&LogCluster::new("3".to_string(), toks(&[])), 2, 100);
    let zero = t.find_child(0, &"0".to_string()).unwrap();
    assert_eq!(t.cluster_count(zero), 0);
    t.insert(&LogCluster::new("4".to_string(), toks(&["a", "c"])), 2, 100);
    assert_eq!(t.cluster_count(a), 2);
}

#[test]
fn tokens_with_digits_go_to_the_wildcard() {
    let mut t = PrefixTree::new();
    t.insert(&LogCluster::new("1".to_string(), toks(&["123", "abc"])), 2, 100);
    t.insert(&LogCluster::new("2".to_string(), toks(&["456", "abc"])), 2, 100);
    let two = t.find_child(0, &"2".to_string()).unwrap();
    assert_eq!(t.child_count(two), 1);
    assert!(t.find_child(two, &"<*>".to_string()).is_some());
    assert!(t.find_child(two, &"123".to_string()).is_none());
}

#[test]
fn full_nodes_send_new_tokens_to_the_wildcard() {
    let mut t = PrefixTree::new();
    for (i, w) in ["a", "b", "c", "d"].iter().enumerate() {
        t.insert(&LogCluster::new(i.to_string(), toks(&[w, "end"])), 2, 2);
    }
    let two = t.find_child(0, &"2".to_string()).unwrap();
    // "a" is added, then the last slot becomes "<*>", which takes b, c and d
    assert_eq!(t.child_count(two), 2);
    assert!(t.find_child(two, &"a".to_string()).is_some());
    assert!(t.find_child(two, &"<*>".to_string()).is_some());
    assert!(t.find_child(two, &"b".to_string()).is_none());
}

#[test]
fn depth_limit_zero_keeps_only_the_first_layer() {
    let mut t = PrefixTree::new();
    t.insert(&LogCluster::new("1".to_string(), toks(&["a", "b"])), 0, 100);
    assert_eq!(t.len(), 2);
    assert_eq!(t.subtree_text(0, 1, 0, 100), vec!["\tRoot"]);
}

#[test]
fn drain_parser_defaults() {
    let p = LogParser::new(None, None, None, None, "<Content>".to_string(), vec![], None);
    assert_eq!(p.in_dir(), "./");
    assert_eq!(p.out_dir(), "./result/");
    assert_eq!(p.depth(), 2);
    assert_eq!(p.max_child(), 100);
    assert!(p.keep_para());
    let q = LogParser::new(None, None, Some(1), Some(5), "<Content>".to_string(), vec![], Some(false));
    assert_eq!(q.depth(), 0);
    assert_eq!(q.max_child(), 5);
    assert!(!q.keep_para());
}

#[test]
fn drain_try_new_rejects_bad_patterns() {
    assert!(LogParser::try_new(None, None, None, None, "<Content>".to_string(), vec!["(a"], None).is_none());
    assert!(LogParser::try_new(None, None, None, None, "<Content>".to_string(), vec![r"\d+"], None).is_some());
}

#[test]
fn drain_parse_builds_the_tree() {
    let mut p = drain("<Level> <Content>", vec![], None, None);
    let out = p
        .parse(
            "HDFS_2k.log".to_string(),
            &lines(&["INFO user 1 logged in", "  INFO user 2 logged in  ", "WARN disk full", "garbage"]),
        )
        .ok()
        .unwrap();
    assert_eq!(out, vec!["\tRoot", "\t\t<4>", "\t\t\tuser", "\t\t<2>", "\t\t\tdisk"]);
    assert_eq!(p.get_logfile_name_with_suffix(), "HDFS_2k.log");
    assert_eq!(p.get_logfile_name_without_suffix(), "HDFS_2k");
    assert_eq!(p.get_logfile_path(), "../data/HDFS_2k.log");
}

#[test]
fn drain_parse_masks_messages() {
    let mut p = drain("<Level> <Content>", vec![r"\d+"], Some(5), None);
    let out = p.parse("x.log".to_string(), &lines(&["INFO user 12 logged in"])).ok().unwrap();
    assert_eq!(out, vec!["\tRoot", "\t\t<4>", "\t\t\tuser", "\t\t\t\t<*>"]);
    assert_eq!(p.preprocess("id 42 at 7"), "id <*> at <*>");
}

#[test]
fn drain_parse_fails_without_content() {
    let mut p = drain("<Level> <Content>", vec![], None, None);
    assert!(matches!(p.parse("x.log".to_string(), &lines(&["nospace"])), Err(DrainError::Frame)));
    let mut q = drain("<Level> <Msg>", vec![], None, None);
    assert!(matches!(q.parse("x.log".to_string(), &lines(&["INFO hello"])), Err(DrainError::Frame)));
    let mut r = drain("<LineId> <Content>", vec![], None, None);
    assert!(matches!(r.parse("x.log".to_string(), &lines(&["7 hello"])), Err(DrainError::Frame)));
}

#[test]
fn drain_try_parse_refuses_zero_children_and_bad_regex() {
    let mut p = drain("<Level> <Content>", vec![], None, Some(0));
    assert!(p.try_parse("x.log".to_string(), &lines(&["INFO a b"])).is_none());
    let mut q = drain("<A> <A>", vec![], None, None);
    assert!(q.try_parse("x.log".to_string(), &lines(&["a b"])).is_none());
    let mut r = drain("<Level> <Content>", vec![], None, None);
    let out = r.try_parse("x.log".to_string(), &lines(&["INFO a b"])).unwrap().ok().unwrap();
    assert_eq!(out, vec!["\tRoot", "\t\t<2>", "\t\t\ta"]);
}

#[test]
fn drain_has_numbers_and_paths() {
    let p = drain("<Content>", vec![], None, None);
    assert!(p.has_numbers("a1"));
    assert!(!p.has_numbers("abc"));
    assert_eq!(p.logfile_path_for("/abs/x.log"), "/abs/x.log");
    assert_eq!(p.logfile_path_for("x.log"), "../data/x.log");
}

#[test]
fn drain_generate_logformat_regex_pairs_headers_and_regex() {
    let p = drain("<Content>", vec![], None, None);
    let (headers, regex) = p.generate_logformat_regex("<Date> <Content>");
    assert_eq!(headers, vec!["<Date>", "<Content>"]);
    assert_eq!(regex.source_text(), "^(?P<Date>.*?) (?P<Content>.*?)$");
    assert_eq!(p.extract_variable_names("<a>:<b>"), vec!["<a>", "<b>"]);
}

#[test]
fn drain_print_tree_of_an_empty_tree() {
    let p = drain("<Content>", vec![], None, None);
    assert_eq!(p.print_tree(&PrefixTree::new(), 0, 1), vec!["\tRoot"]);
}

#[test]
fn drain_add_seq_to_prefix_tree_uses_parser_limits() {
    let p = drain("<Content>", vec![], Some(4), Some(100));
    let mut t = PrefixTree::new();
    p.add_seq_to_prefix_tree(&mut t, &LogCluster::new("1".to_string(), toks(&["a", "b", "c"])));
    assert_eq!(p.print_tree(&t, 0, 1), vec!["\tRoot", "\t\t<3>", "\t\t\ta"]);
    let three = t.find_child(0, &"3".to_string()).unwrap();
    assert_eq!(p.print_tree(&t, three, 0), vec!["<3>", "\ta"]);
    assert_eq!(p.print_tree(&t, 0, 0), vec!["Root", "\t<3>", "\t\ta"]);
}

#[test]
fn line_table_numbers_matched_lines() {
    let names = vec!["Level".to_string(), "Content".to_string()];
    let matches = vec![
        Some(vec![Some("INFO".to_string()), Some("a b".to_string())]),
        None,
        Some(vec![Some("WARN".to_string()), None]),
    ];
    let table = line_table(&names, &matches);
    assert_eq!(
        table,
        vec![
            ("LineId".to_string(), vec!["1".to_string(), "2".to_string()]),
            ("Level".to_string(), vec!["INFO".to_string(), "WARN".to_string()]),
            ("Content".to_string(), vec!["a b".to_string(), "".to_string()]),
        ]
    );
    assert!(line_table(&names, &vec![None, None]).is_empty());
}

#[test]
fn no_room_for_children_sends_digits_to_the_wildcard_and_fails_otherwise() {
    let mut t = PrefixTree::new();
    assert!(t.try_insert(&LogCluster::new("1".to_string(), toks(&["12", "x"])), 2, 0));
    let two = t.find_child(0, &"2".to_string()).unwrap();
    let star = t.find_child(two, &"<*>".to_string()).unwrap();
    assert_eq!(t.cluster_count(star), 1);
    // a word without digits goes to the existing wildcard
    assert!(t.try_insert(&LogCluster::new("2".to_string(), toks(&["abc", "x"])), 2, 0));
    assert_eq!(t.cluster_count(star), 2);
    assert_eq!(t.child_count(two), 1);
    // a new length: the fresh node has no wildcard, so a word cannot go on
    assert!(!t.try_insert(&LogCluster::new("3".to_string(), toks(&["abc", "x", "y"])), 2, 0));
    // with room the same message goes in
    assert!(t.try_insert(&LogCluster::new("3".to_string(), toks(&["abc", "x", "y"])), 2, 5));
}

#[test]
fn no_room_for_children_with_a_shallow_tree() {
    let mut p = drain("<Level> <Content>", vec![], Some(3), Some(0));
    let out = p.parse("x.log".to_string(), &lines(&["INFO a b", "INFO c"])).ok().unwrap();
    assert_eq!(out, vec!["\tRoot", "\t\t<2>", "\t\t<1>"]);
    let mut q = drain("<Level> <Content>", vec![], None, Some(0));
    let out = q.try_parse("x.log".to_string(), &lines(&["INFO 12 b", "INFO 7 c"])).unwrap().ok().unwrap();
    assert_eq!(out, vec!["\tRoot", "\t\t<2>", "\t\t\t<*>"]);
}

#[test]
fn drain_log_name_stems() {
    let cases = [
        ("HDFS_2k.log", "HDFS_2k"),
        ("a.tar.gz", "a.tar"),
        (".bashrc", ".bashrc"),
        ("noext", "noext"),
        ("..a", "."),
        ("x.", "x"),
        ("logs/HDFS.log", "HDFS"),
        ("/var/log/a.b.c", "a.b"),
    ];
    for (name, stem) in cases.iter() {
        let mut p = drain("<Level> <Content>", vec![], None, None);
        let _ = p.parse(name.to_string(), &lines(&["INFO a b"]));
        assert_eq!(p.get_logfile_name_without_suffix(), *stem, "name {}", name);
    }
}

#[test]
fn unmatched_lines_change_nothing() {
    let with = lines(&["INFO a b", "garbage", "WARN c d", "nospace"]);
    let without = lines(&["INFO a b", "WARN c d"]);
    let mut p = drain("<Level> <Content>", vec![], Some(5), None);
    let mut q = drain("<Level> <Content>", vec![], Some(5), None);
    let a = p.parse("x.log".to_string(), &with).ok().unwrap();
    let b = q.parse("x.log".to_string(), &without).ok().unwrap();
    assert_eq!(a, b);
}

#[test]
fn log_paths_join_directory_and_name() {
    let p = LogParser::new(Some("dir".to_string()), None, None, None, "<Content>".to_string(), vec![], None);
    assert_eq!(p.logfile_path_for("x.log"), "dir/x.log");
    let q = LogParser::new(Some("".to_string()), None, None, None, "<Content>".to_string(), vec![], None);
    assert_eq!(q.logfile_path_for("x.log"), "x.log");
    let mut r = drain("<Level> <Content>", vec![], None, None);
    let _ = r.parse("sub/x.log".to_string(), &lines(&["INFO a"]));
    assert_eq!(r.get_logfile_path(), "../data/sub/x.log");
}

#[test]
fn walking_by_tokens_or_wildcard_finds_each_cluster() {
    let mut t = PrefixTree::new();
    let msgs = [["a", "x", "1"], ["b", "y", "2"], ["c", "z", "3"], ["7", "w", "4"], ["a", "q", "5"]];
    for (i, m) in msgs.iter().enumerate() {
        t.insert(&LogCluster::new(i.to_string(), toks(m)), 3, 2);
        // the walk of the message just added reaches a leaf holding it
        let mut node = t.find_child(0, &"3".to_string()).unwrap();
        for tok in m.iter().take(2) {
            node = match t.find_child(node, &tok.to_string()) {
                Some(n) => n,
                None => t.find_child(node, &"<*>".to_string()).unwrap(),
            };
        }
        assert!(t.cluster_count(node) >= 1);
    }
    let three = t.find_child(0, &"3".to_string()).unwrap();
    // "a" took the first place, "<*>" the last one; b, c and 7 went to "<*>"
    assert_eq!(t.child_count(three), 2);
    let star = t.find_child(three, &"<*>".to_string()).unwrap();
    assert_eq!(t.child_count(star), 2);
}
