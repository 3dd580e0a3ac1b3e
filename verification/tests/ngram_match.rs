use logruster::digest::template_id;
use logruster::ngram::{double_match, join2, join3, token_match, triple_match, NgramDictionary};

fn toks(words: &[&str]) -> Vec<String> {
    words.iter().map(|w| w.to_string()).collect()
}

fn dict(entries: &[(&str, i32)]) -> NgramDictionary {
    let mut d = NgramDictionary::new();
    for (k, v) in entries {
        d.insert(k.to_string(), *v);
    }
    d
}

#[test]
fn ngram_keys_join_with_carets() {
    assert_eq!(join2(&"a".to_string(), &"b".to_string()), "a^b");
    assert_eq!(join3(&"a".to_string(), &"".to_string(), &"c".to_string()), "a^^c");
}

#[test]
fn dictionary_counts_occurrences() {
    let mut d = NgramDictionary::new();
    assert_eq!(d.len(), 0);
    assert_eq!(d.get("x^y"), None);
    d.add_occurrence("x^y".to_string());
    d.add_occurrence("x^y".to_string());
    d.add_occurrence("y^x".to_string());
    assert_eq!(d.get("x^y"), Some(2));
    assert_eq!(d.get("y^x"), Some(1));
    assert_eq!(d.len(), 2);
    d.insert("x^y".to_string(), i32::MAX);
    d.add_occurrence("x^y".to_string());
    assert_eq!(d.get("x^y"), Some(i32::MAX));
}

#[test]
fn triple_match_marks_the_tokens_of_rare_triples() {
    let d = dict(&[("a^b^c", 20), ("b^c^d", 5)]);
    assert_eq!(triple_match(&toks(&["a", "b", "c", "d"]), &d, 10), vec![1, 2, 3]);
}

#[test]
fn triple_match_threshold_is_strict() {
    let d = dict(&[("a^b^c", 10)]);
    assert!(triple_match(&toks(&["a", "b", "c"]), &d, 10).is_empty());
    assert_eq!(triple_match(&toks(&["a", "b", "c"]), &d, 11), vec![0, 1, 2]);
}

#[test]
fn triple_match_on_short_messages() {
    let d = NgramDictionary::new();
    assert!(triple_match(&toks(&[]), &d, 10).is_empty());
    assert!(triple_match(&toks(&["a", "b"]), &d, 10).is_empty());
    assert_eq!(triple_match(&toks(&["a", "b", "c", "d", "e"]), &d, 1), vec![0, 1, 2, 3, 4]);
}

#[test]
fn double_match_first_middle_and_last_tokens() {
    let d = dict(&[("a^b", 15), ("b^c", 1), ("c^d", 1), ("d^a", 1)]);
    let tokens = toks(&["a", "b", "c", "d"]);
    // a 2-gram is rare when counted fewer than `threshold` times
    assert_eq!(double_match(&tokens, &[0, 1, 3], &d, 15, 4), vec![3]);
    assert_eq!(double_match(&tokens, &[0, 1, 3], &d, 16, 4), vec![0, 1, 3]);
    assert_eq!(double_match(&tokens, &[2], &d, 15, 4), vec![2]);
    assert!(double_match(&tokens, &[0], &d, 14, 4).is_empty());
    assert!(double_match(&tokens, &[], &d, 15, 4).is_empty());
}

#[test]
fn template_id_is_the_first_half_of_the_md5_digest() {
    assert_eq!(template_id(""), "d41d8cd98f00b204");
    assert_eq!(template_id("a b c"), "06f0760ec7f18687");
    assert_eq!(template_id("<*> <*> <*>").len(), 16);
}

#[test]
fn token_match_replaces_variable_tokens() {
    let all_tokens = vec![toks(&["x", "y", "z"])];
    let messages = vec!["x y z".to_string()];
    let empty = NgramDictionary::new();
    let r = token_match(&all_tokens, &empty, &empty, 15, 10, &messages);
    assert_eq!(r.structured.len(), 1);
    assert_eq!(r.structured[0].0, 1);
    assert_eq!(r.structured[0].1, "x y z");
    assert_eq!(r.structured[0].3, "<*> <*> <*>");
    assert_eq!(r.structured[0].2, "a4ec7e5b32929eef");
    assert_eq!(r.templates, vec![("a4ec7e5b32929eef".to_string(), "<*> <*> <*>".to_string())]);
}

#[test]
fn token_match_keeps_frequent_tokens_and_drops_commas() {
    let all_tokens = vec![toks(&["a,", "b", "c"]), toks(&["a,", "b", "c"]), toks(&[])];
    let messages = vec!["a, b c".to_string(), "a,  b c".to_string(), "".to_string()];
    let tri = dict(&[("a,^b^c", 100)]);
    let double = NgramDictionary::new();
    let r = token_match(&all_tokens, &double, &tri, 15, 10, &messages);
    assert_eq!(r.structured.len(), 3);
    assert_eq!(r.structured[0], (1, "a, b c".to_string(), "06f0760ec7f18687".to_string(), "a b c".to_string()));
    assert_eq!(r.structured[1], (2, "a,  b c".to_string(), "06f0760ec7f18687".to_string(), "a b c".to_string()));
    assert_eq!(r.structured[2], (3, "".to_string(), "d41d8cd98f00b204".to_string(), "".to_string()));
    assert_eq!(
        r.templates,
        vec![
            ("06f0760ec7f18687".to_string(), "a b c".to_string()),
            ("d41d8cd98f00b204".to_string(), "".to_string()),
        ]
    );
}

#[test]
fn double_match_count_equal_to_threshold_is_not_rare() {
    let d = dict(&[("a^b", 10)]);
    assert!(double_match(&toks(&["a", "b", "c"]), &[0], &d, 10, 3).is_empty());
}

#[test]
fn one_token_messages_have_no_variable_part() {
    let d = NgramDictionary::new();
    assert!(triple_match(&toks(&["a"]), &d, 10).is_empty());
    let all_tokens = vec![toks(&["hello"]), toks(&["a", "b"])];
    let messages = vec!["hello".to_string(), "a b".to_string()];
    let r = token_match(&all_tokens, &d, &d, 15, 10, &messages);
    assert_eq!(r.structured[0].3, "hello");
    assert_eq!(r.structured[1].3, "a b");
    assert_eq!(r.templates.len(), 2);
}

#[test]
fn raising_the_double_threshold_keeps_indices() {
    let d = dict(&[("a^b", 3), ("b^c", 7), ("c^d", 1), ("d^a", 9)]);
    let tokens = toks(&["a", "b", "c", "d"]);
    let mut previous: Vec<usize> = vec![];
    for threshold in 0..12 {
        let now = double_match(&tokens, &[0, 1, 2, 3], &d, threshold, 4);
        assert!(previous.iter().all(|i| now.contains(i)));
        previous = now;
    }
    assert_eq!(previous, vec![0, 1, 2, 3]);
}

#[test]
fn dictionary_lists_each_key_once_in_arrival_order() {
    let mut d = NgramDictionary::new();
    d.add_occurrence("x^y".to_string());
    d.add_occurrence("y^z".to_string());
    d.add_occurrence("x^y".to_string());
    d.insert("a^b".to_string(), 7);
    assert_eq!(
        d.entries(),
        vec![("x^y".to_string(), 2), ("y^z".to_string(), 1), ("a^b".to_string(), 7)]
    );
    assert!(NgramDictionary::new().entries().is_empty());
}
