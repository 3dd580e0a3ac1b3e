use logruster::logram::{
    count_ngrams, dictionary_builder, preprocess, regex_generator, token_spilter, try_dictionary_builder, try_preprocess,
    try_regex_generator, try_token_spilter, LogParser,
};
use logruster::mask::mask_variables;
use logruster::ngram::{token_match, triple_match, NgramDictionary};
use logruster::pattern::{FancyPattern, LinePattern};

fn lines(ls: &[&str]) -> Vec<String> {
    ls.iter().map(|l| l.to_string()).collect()
}

fn patterns(ps: &[&str]) -> Vec<FancyPattern> {
    ps.iter().map(|p| FancyPattern::compile(p).unwrap()).collect()
}

#[test]
fn patterns_compile_or_are_refused() {
    assert!(LinePattern::compile("^(?P<A>.*?)$").is_some());
    assert!(LinePattern::compile("(").is_none());
    assert!(LinePattern::compile("(?<=a)b").is_none());
    assert!(FancyPattern::compile("(?<=a)b").is_some());
    assert_eq!(FancyPattern::compile(r"\d+").unwrap().source_text(), r"\d+");
}

#[test]
fn preprocess_applies_each_pattern_in_turn() {
    let pats = patterns(&[r"blk_-?\d+", r"\d+"]);
    assert_eq!(preprocess("blk_-42 at 10.0.0.1", &pats), "<*> at <*>.<*>.<*>.<*>");
    assert_eq!(preprocess("nothing", &patterns(&[])), "nothing");
    assert_eq!(try_preprocess("a1", &patterns(&[r"\d"])), Some("a<*>".to_string()));
    assert_eq!(mask_variables("x 5 y", &patterns(&[r"(?<=[^A-Za-z0-9])\d+(?=[^A-Za-z0-9])"])), Some("x <*> y".to_string()));
}

#[test]
fn regex_generator_compiles_the_format() {
    let r = regex_generator("<Level> <Content>");
    assert_eq!(r.source_text(), r"^(?P<Level>.*?)\s+(?P<Content>.*?)$");
    assert!(try_regex_generator("<Level> <Content>").is_some());
    assert!(try_regex_generator("<A> <A>").is_none());
}

#[test]
fn token_spilter_gives_tokens_and_message() {
    let regex = regex_generator("<Level> <Content>");
    let pats = patterns(&[r"\d+"]);
    let (tokens, message) = token_spilter("  INFO  x 1  y  ", &regex, &pats);
    assert_eq!(tokens, Some(vec!["x".to_string(), "<*>".to_string(), "y".to_string()]));
    assert_eq!(message, Some("x 1  y".to_string()));
    let (none_tokens, none_message) = token_spilter("junk", &regex, &pats);
    assert!(none_tokens.is_none());
    assert!(none_message.is_none());
    assert!(try_token_spilter("INFO a", &regex, &pats).is_some());
}

#[test]
fn token_spilter_without_content_field() {
    let regex = regex_generator("<Level> <Msg>");
    let (tokens, message) = token_spilter("INFO hello", &regex, &patterns(&[]));
    assert!(tokens.is_none());
    assert!(message.is_none());
}

#[test]
fn dictionary_builder_counts_ngrams() {
    let idx = dictionary_builder("<Level> <Content>", &lines(&["INFO a b c", "INFO a b d", "junk"]), &patterns(&[]));
    assert_eq!(idx.all_messages, vec!["a b c".to_string(), "a b d".to_string()]);
    assert_eq!(idx.all_tokens.len(), 2);
    assert_eq!(idx.all_tokens[1], vec!["a".to_string(), "b".to_string(), "d".to_string()]);
    // the 3-grams of the stream a b c a b d, across the message boundary too
    assert_eq!(idx.tri_dictionary.len(), 4);
    assert_eq!(idx.tri_dictionary.get("a^b^c"), Some(1));
    assert_eq!(idx.tri_dictionary.get("b^c^a"), Some(1));
    assert_eq!(idx.tri_dictionary.get("c^a^b"), Some(1));
    assert_eq!(idx.tri_dictionary.get("a^b^d"), Some(1));
    assert_eq!(idx.double_dictionary.len(), 5);
    assert_eq!(idx.double_dictionary.get("a^b"), Some(2));
    assert_eq!(idx.double_dictionary.get("c^a"), Some(1));
    assert_eq!(idx.double_dictionary.get("d^a"), Some(1));
    assert_eq!(idx.double_dictionary.get("b^a"), None);
}

#[test]
fn dictionary_builder_on_short_messages() {
    let idx = dictionary_builder("<Content>", &lines(&["solo", ""]), &patterns(&[]));
    assert_eq!(idx.all_messages, vec!["solo".to_string(), "".to_string()]);
    assert_eq!(idx.tri_dictionary.len(), 0);
    assert_eq!(idx.double_dictionary.get("solo^solo"), Some(1));
    assert_eq!(idx.double_dictionary.len(), 1);
    assert!(try_dictionary_builder("<A> <A>", &lines(&["x y"]), &patterns(&[])).is_none());
}

#[test]
fn logram_parser_defaults_and_paths() {
    let p = LogParser::new(None, None, None, None, "<Content>".to_string(), vec![]);
    assert_eq!(p.in_dir(), "./");
    assert_eq!(p.out_dir(), "./result/");
    assert_eq!(p.double_threshold(), 15);
    assert_eq!(p.tri_threshold(), 10);
    assert_eq!(p.log_file_path("HDFS_2k.log"), "./HDFS_2k.log");
    assert!(LogParser::try_new(None, None, None, None, "<Content>".to_string(), vec!["(".to_string()]).is_none());
}

#[test]
fn logram_parse_then_match_finds_the_variable_token() {
    let p = LogParser::new(None, None, Some(2), Some(2), "<Level> <Content>".to_string(), vec![]);
    let idx = p.parse(&lines(&["I open file x", "I open file y", "I open file z"]));
    let r = token_match(&idx.all_tokens, &idx.double_dictionary, &idx.tri_dictionary, 2, 2, &idx.all_messages);
    assert_eq!(r.templates, vec![("60395aad352e01e8".to_string(), "open file <*>".to_string())]);
    assert_eq!(r.structured.len(), 3);
    assert_eq!(r.structured[2], (3, "open file z".to_string(), "60395aad352e01e8".to_string(), "open file <*>".to_string()));
    assert!(p.try_parse(&lines(&["I a"])).is_some());
}

#[test]
fn masking_with_two_lists_is_masking_in_turn() {
    let line = "blk_-42 sent 17 bytes to 10.0.0.1";
    let first = patterns(&[r"blk_-?\d+"]);
    let second = patterns(&[r"\d+"]);
    let both = patterns(&[r"blk_-?\d+", r"\d+"]);
    let in_turn = preprocess(&preprocess(line, &first), &second);
    assert_eq!(preprocess(line, &both), in_turn);
    assert_eq!(in_turn, "<*> sent <*> bytes to <*>.<*>.<*>.<*>");
}

#[test]
fn count_ngrams_adds_one_message() {
    let mut double = NgramDictionary::new();
    let mut tri = NgramDictionary::new();
    let tokens: Vec<String> = ["p", "q", "p", "q"].iter().map(|w| w.to_string()).collect();
    count_ngrams(&mut double, &mut tri, &vec![], &tokens);
    assert_eq!(tri.get("p^q^p"), Some(1));
    assert_eq!(tri.get("q^p^q"), Some(1));
    assert_eq!(tri.len(), 2);
    assert_eq!(double.get("p^q"), Some(2));
    assert_eq!(double.get("q^p"), Some(2));
    assert_eq!(double.len(), 2);
}

#[test]
fn lines_without_message_change_nothing() {
    let with = dictionary_builder("<Level> <Content>", &lines(&["junk", "INFO a b c", "x", "INFO a b"]), &patterns(&[]));
    let without = dictionary_builder("<Level> <Content>", &lines(&["INFO a b c", "INFO a b"]), &patterns(&[]));
    assert_eq!(with.all_messages, without.all_messages);
    assert_eq!(with.all_tokens, without.all_tokens);
    assert_eq!(with.double_dictionary.len(), without.double_dictionary.len());
    assert_eq!(with.tri_dictionary.len(), without.tri_dictionary.len());
    for key in ["a^b", "b^c", "c^a", "b^a", "a^b^c"].iter() {
        assert_eq!(with.double_dictionary.get(key), without.double_dictionary.get(key));
        assert_eq!(with.tri_dictionary.get(key), without.tri_dictionary.get(key));
    }
}

#[test]
fn padding_a_line_with_white_space_changes_nothing() {
    let regex = regex_generator("<Level> <Content>");
    let pats = patterns(&[r"\d+"]);
    let plain = token_spilter("INFO x 1 y", &regex, &pats);
    let padded = token_spilter(" \t INFO x 1 y \u{3000}\n", &regex, &pats);
    assert_eq!(plain, padded);
}

#[test]
fn raising_the_tri_threshold_keeps_positions() {
    let mut d = NgramDictionary::new();
    d.insert("a^b^c".to_string(), 5);
    d.insert("b^c^d".to_string(), 20);
    let tokens: Vec<String> = ["a", "b", "c", "d"].iter().map(|w| w.to_string()).collect();
    let low = triple_match(&tokens, &d, 5);
    let high = triple_match(&tokens, &d, 6);
    assert!(low.is_empty());
    assert_eq!(high, vec![0, 1, 2]);
    assert!(low.iter().all(|i| high.contains(i)));
}

#[test]
fn count_ngrams_takes_the_prior_tokens_for_3_grams_only() {
    let mut double = NgramDictionary::new();
    let mut tri = NgramDictionary::new();
    let prior = vec!["x".to_string(), "y".to_string()];
    let tokens = vec!["z".to_string()];
    count_ngrams(&mut double, &mut tri, &prior, &tokens);
    assert_eq!(tri.get("x^y^z"), Some(1));
    assert_eq!(tri.len(), 1);
    assert_eq!(double.get("z^z"), Some(1));
    assert_eq!(double.len(), 1);
}

#[test]
fn boundary_3_grams_span_short_messages() {
    let idx = dictionary_builder("<Content>", &lines(&["a", "b", "c d"]), &patterns(&[]));
    assert_eq!(idx.tri_dictionary.get("a^b^c"), Some(1));
    assert_eq!(idx.tri_dictionary.get("b^c^d"), Some(1));
    assert_eq!(idx.tri_dictionary.len(), 2);
}
