use logruster::format::{drain_regex_text, extract_variable_names, logram_regex_text, placeholder_name_list};
use logruster::text::{contains_digit, is_white_space, split_words, to_hex_lower, trim_str, usize_to_decimal};

#[test]
fn split_words_breaks_at_any_white_space() {
    assert_eq!(split_words("  a\tb \n c  "), vec!["a".to_string(), "b".to_string(), "c".to_string()]);
    assert!(split_words("").is_empty());
    assert!(split_words(" \t ").is_empty());
}

#[test]
fn trim_str_removes_outer_white_space_only() {
    assert_eq!(trim_str("  x  y \t"), "x  y");
    assert_eq!(trim_str("\u{3000}z\u{3000}"), "z");
    assert_eq!(trim_str(""), "");
}

#[test]
fn white_space_is_unicode_white_space() {
    assert!(is_white_space(' '));
    assert!(is_white_space('\n'));
    assert!(is_white_space('\u{a0}'));
    assert!(!is_white_space('x'));
    assert!(!is_white_space('_'));
}

#[test]
fn decimal_and_hex_renderings() {
    assert_eq!(usize_to_decimal(0), "0");
    assert_eq!(usize_to_decimal(7), "7");
    assert_eq!(usize_to_decimal(1203), "1203");
    assert_eq!(to_hex_lower(&[0x00, 0x0f, 0xab, 0xff]), "000fabff");
    assert_eq!(to_hex_lower(&[]), "");
}

#[test]
fn contains_digit_finds_ascii_digits() {
    assert!(contains_digit("blk_123"));
    assert!(contains_digit("9"));
    assert!(!contains_digit("block"));
    assert!(!contains_digit(""));
}

#[test]
fn placeholders_keep_their_brackets() {
    let headers = extract_variable_names("<Date> <Time> <Pid> <Level> <Component>: <Content>");
    assert_eq!(headers, vec!["<Date>", "<Time>", "<Pid>", "<Level>", "<Component>", "<Content>"]);
    let names = placeholder_name_list("<Date> <Time> <Pid> <Level> <Component>: <Content>");
    assert_eq!(names, vec!["Date", "Time", "Pid", "Level", "Component", "Content"]);
}

#[test]
fn placeholders_skip_stray_brackets() {
    assert_eq!(extract_variable_names("<<A>> <> <B c>"), vec!["<A>", "<B c>"]);
    assert!(extract_variable_names("no fields").is_empty());
}

#[test]
fn drain_regex_of_hdfs_format() {
    assert_eq!(
        drain_regex_text("<Date> <Time> <Pid> <Level> <Component>: <Content>"),
        "^(?P<Date>.*?) (?P<Time>.*?) (?P<Pid>.*?) (?P<Level>.*?) (?P<Component>.*?): (?P<Content>.*?)$"
    );
}

#[test]
fn drain_regex_of_zookeeper_format() {
    assert_eq!(
        drain_regex_text(r"<Date> <Time> - <Level>  \[<Node>:<Component>@<Id>\] - <Content>"),
        r"^(?P<Date>.*?) (?P<Time>.*?) - (?P<Level>.*?)  \[(?P<Node>.*?):(?P<Component>.*?)@(?P<Id>.*?)\] - (?P<Content>.*?)$"
    );
}

#[test]
fn drain_regex_drops_lone_brackets() {
    assert_eq!(drain_regex_text("<A> x<y <B>"), "^(?P<A>.*?) xy (?P<B>.*?)$");
    assert_eq!(drain_regex_text(""), "^$");
}

#[test]
fn logram_regex_of_hdfs_format() {
    assert_eq!(
        logram_regex_text("<Date> <Time> <Pid> <Level> <Component>: <Content>"),
        r"^(?P<Date>.*?)\s+(?P<Time>.*?)\s+(?P<Pid>.*?)\s+(?P<Level>.*?)\s+(?P<Component>.*?):\s+(?P<Content>.*?)$"
    );
}

#[test]
fn logram_regex_collapses_space_runs_and_drops_the_tail() {
    assert_eq!(logram_regex_text("[<A>]   <B> end"), r"^[(?P<A>.*?)]\s+(?P<B>.*?)$");
    assert_eq!(logram_regex_text("no fields"), "^$");
}

#[test]
fn white_space_agrees_with_std() {
    for code in 0u32..0x3100 {
        if let Some(c) = char::from_u32(code) {
            assert_eq!(is_white_space(c), c.is_whitespace(), "char {:x}", code);
        }
    }
}

#[test]
fn trimming_and_splitting_agree_with_std() {
    let samples = ["", " ", "a", " a b ", "\u{85}x\u{2028}y\u{3000}", "\t\ttab\tsep\n", "no-space"];
    for s in samples.iter() {
        assert_eq!(trim_str(s), s.trim());
        let expected: Vec<String> = s.split_whitespace().map(|w| w.to_string()).collect();
        assert_eq!(split_words(s), expected);
    }
}
