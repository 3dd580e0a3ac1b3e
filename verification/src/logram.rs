//! Logram: splitting log lines into tokens and counting their 2-grams and
//! 3-grams into dictionaries; [`crate::ngram::token_match`] then finds the
//! variable tokens of each message from those counts.
use vstd::prelude::*;
use crate::format::{logram_line_regex, logram_regex_text};
use crate::mask::{mask_variables, masked, pattern_sources};
use crate::ngram::{bumped, join2, join3, key2, key3, NgramDictionary};
use crate::paths::{join_path, path_joined};
use crate::prefix_tree::copy_words;
use crate::pattern::{
    fancy_regex_compiles,
    group_text,
    regex_captures,
    regex_compiles,
    regex_match_groups,
    FancyPattern,
    LinePattern,
};
use crate::text::{all_ws, law_trim_ignores_padding, split_words, trim, trim_str, words};

verus! {

/// `Content`, the field that holds the message.
pub open spec fn content_name() -> Seq<char> {
    seq!['C', 'o', 'n', 't', 'e', 'n', 't']
}

/// The message of `line`: the `Content` group of the first match of the
/// line regex `pattern` in the trimmed line, if the regex matches and the
/// group took part.
pub open spec fn line_content(pattern: Seq<char>, line: Seq<char>) -> Option<Seq<char>> {
    match regex_match_groups(pattern, trim(line)) {
        Some(m) => group_text(m, content_name()),
        None => None,
    }
}

/// The message of `line`, if any, can be masked by the patterns `sources`.
pub open spec fn split_defined(pattern: Seq<char>, line: Seq<char>, sources: Seq<Seq<char>>) -> bool {
    line_content(pattern, line) matches Some(msg) ==> masked(msg, sources) is Some
}

/// The tokens of `line`: the words of its masked, trimmed message.
pub open spec fn split_tokens(pattern: Seq<char>, line: Seq<char>, sources: Seq<Seq<char>>) -> Option<
    Seq<Seq<char>>,
> {
    match line_content(pattern, line) {
        Some(msg) => Some(words(trim(masked(msg, sources)->0))),
        None => None,
    }
}

/// What [`token_spilter`] gives for `line`: the tokens and the message
/// when the line has a message, `(None, None)` otherwise.
pub open spec fn spilt_result(
    r: (Option<Vec<String>>, Option<String>),
    pattern: Seq<char>,
    line: Seq<char>,
    sources: Seq<Seq<char>>,
) -> bool {
    &&& match r.1 {
        Some(m) => line_content(pattern, line) == Some(m@),
        None => line_content(pattern, line) is None,
    }
    &&& (r.0 is Some <==> r.1 is Some)
    &&& (r.0 matches Some(v) ==> Some(v.deep_view()) == split_tokens(pattern, line, sources))
}

/// `"Content"`.
fn content_string() -> (r: String)
    ensures
        r@ == content_name(),
{
    let s = String::from_str("Content");
    proof {
        reveal_strlit("Content");
    }
    s
}

/// `line` with the matches of each pattern in turn replaced by `<*>`.
pub fn preprocess(line: &str, preprocess_regex: &Vec<FancyPattern>) -> (r: String)
    requires
        masked(line@, pattern_sources(preprocess_regex@)) is Some,
    ensures
        masked(line@, pattern_sources(preprocess_regex@)) == Some(r@),
{
    match mask_variables(line, preprocess_regex) {
        Some(s) => s,
        None => vstd::pervasive::unreached(),
    }
}

/// [`preprocess`], or `None` where a replacement fails at run time.
pub fn try_preprocess(line: &str, preprocess_regex: &Vec<FancyPattern>) -> (r: Option<String>)
    ensures
        match r {
            Some(s) => masked(line@, pattern_sources(preprocess_regex@)) == Some(s@),
            None => masked(line@, pattern_sources(preprocess_regex@)) is None,
        },
{
    if mask_variables(line, preprocess_regex).is_some() {
        Some(preprocess(line, preprocess_regex))
    } else {
        None
    }
}

/// The message of `log_line` (see [`line_content`]).
fn message_of(log_line: &str, regex: &LinePattern) -> (r: Option<String>)
    ensures
        match r {
            Some(m) => line_content(regex.source(), log_line@) == Some(m@),
            None => line_content(regex.source(), log_line@) is None,
        },
{
    let trimmed = trim_str(log_line);
    let mut names: Vec<String> = Vec::new();
    names.push(content_string());
    assert(names.deep_view() =~= seq![content_name()]);
    match regex_captures(regex, trimmed.as_str(), &names) {
        None => None,
        Some(groups) => {
            assert(groups.deep_view().len() == 1);
            assert(groups@.len() == 1);
            assert(trimmed@ == trim(log_line@));
            assert(groups.deep_view()[0] == group_text(
                regex_match_groups(regex.source(), trim(log_line@))->0,
                content_name(),
            ));
            match &groups[0] {
                Some(message) => Some(message.clone()),
                None => None,
            }
        },
    }
}

/// Splits a log line: the `Content` field of the trimmed line under
/// `regex`, masked by `preprocess_regex`, trimmed and split at white space;
/// gives the tokens and the message, or `(None, None)` for a line without a
/// message.
pub fn token_spilter(log_line: &str, regex: &LinePattern, preprocess_regex: &Vec<FancyPattern>) -> (r: (
    Option<Vec<String>>,
    Option<String>,
))
    requires
        split_defined(regex.source(), log_line@, pattern_sources(preprocess_regex@)),
    ensures
        spilt_result(r, regex.source(), log_line@, pattern_sources(preprocess_regex@)),
{
    match message_of(log_line, regex) {
        None => (None, None),
        Some(message) => {
            let processed_message = preprocess(message.as_str(), preprocess_regex);
            let trimmed = trim_str(processed_message.as_str());
            let tokens = split_words(trimmed.as_str());
            (Some(tokens), Some(message))
        },
    }
}

/// [`token_spilter`], or `None` where masking the message fails at run time.
pub fn try_token_spilter(log_line: &str, regex: &LinePattern, preprocess_regex: &Vec<FancyPattern>) -> (r:
    Option<(Option<Vec<String>>, Option<String>)>)
    ensures
        r is Some <==> split_defined(regex.source(), log_line@, pattern_sources(preprocess_regex@)),
        r matches Some(x) ==> spilt_result(x, regex.source(), log_line@, pattern_sources(preprocess_regex@)),
{
    if let Some(message) = message_of(log_line, regex) {
        if mask_variables(message.as_str(), preprocess_regex).is_none() {
            return None;
        }
    }
    Some(token_spilter(log_line, regex, preprocess_regex))
}

/// The line regex for `log_format` (see [`logram_line_regex`]), compiled.
pub fn regex_generator(log_format: &str) -> (r: LinePattern)
    requires
        regex_compiles(logram_line_regex(log_format@)),
    ensures
        r.source() == logram_line_regex(log_format@),
{
    let text = logram_regex_text(log_format);
    match LinePattern::compile(text.as_str()) {
        Some(p) => p,
        None => vstd::pervasive::unreached(),
    }
}

/// [`regex_generator`], or `None` when the regex crate rejects the regex.
pub fn try_regex_generator(log_format: &str) -> (r: Option<LinePattern>)
    ensures
        r is Some <==> regex_compiles(logram_line_regex(log_format@)),
        r matches Some(p) ==> p.source() == logram_line_regex(log_format@),
{
    let text = logram_regex_text(log_format);
    if LinePattern::compile(text.as_str()).is_some() {
        Some(regex_generator(log_format))
    } else {
        None
    }
}

/// The 3-gram keys of message `t`, left to right.
pub open spec fn tri_keys(t: Seq<Seq<char>>) -> Seq<Seq<char>> {
    Seq::new(
        if t.len() >= 2 {
            (t.len() - 2) as nat
        } else {
            0
        },
        |i: int| key3(t[i], t[i + 1], t[i + 2]),
    )
}

/// The 2-gram keys of message `t`, left to right: each token with the next,
/// the last one with the first.
pub open spec fn double_keys(t: Seq<Seq<char>>) -> Seq<Seq<char>> {
    Seq::new(
        t.len(),
        |i: int|
            if i == t.len() - 1 {
                key2(t[i], t[0])
            } else {
                key2(t[i], t[i + 1])
            },
    )
}

/// `d` after one more occurrence of each of `keys`.
pub open spec fn counted(d: Map<Seq<char>, i32>, keys: Seq<Seq<char>>) -> Map<Seq<char>, i32>
    decreases keys.len(),
{
    if keys.len() == 0 {
        d
    } else {
        let d2 = counted(d, keys.drop_last());
        d2.insert(keys.last(), bumped(d2, keys.last()))
    }
}

/// The (tokens, message) pairs of the lines that have a message, in order.
pub open spec fn split_lines(pattern: Seq<char>, lines: Seq<Seq<char>>, sources: Seq<Seq<char>>) -> Seq<
    (Seq<Seq<char>>, Seq<char>),
>
    decreases lines.len(),
{
    if lines.len() == 0 {
        seq![]
    } else {
        let rest = split_lines(pattern, lines.drop_last(), sources);
        match line_content(pattern, lines.last()) {
            Some(msg) => rest.push((words(trim(masked(msg, sources)->0)), msg)),
            None => rest,
        }
    }
}

/// Splitting two runs of lines, one after the other, gives the messages of
/// the first followed by those of the second.
pub proof fn lemma_split_lines_concat(
    pattern: Seq<char>,
    a: Seq<Seq<char>>,
    b: Seq<Seq<char>>,
    sources: Seq<Seq<char>>,
)
    ensures
        split_lines(pattern, a + b, sources) == split_lines(pattern, a, sources) + split_lines(
            pattern,
            b,
            sources,
        ),
    decreases b.len(),
{
    if b.len() == 0 {
        assert(a + b =~= a);
        assert(split_lines(pattern, a, sources) + split_lines(pattern, b, sources) =~= split_lines(
            pattern,
            a,
            sources,
        ));
    } else {
        lemma_split_lines_concat(pattern, a, b.drop_last(), sources);
        assert((a + b).drop_last() =~= a + b.drop_last());
        assert((a + b).last() == b.last());
        match line_content(pattern, b.last()) {
            Some(msg) => {
                let x = (words(trim(masked(msg, sources)->0)), msg);
                assert(split_lines(pattern, a, sources) + split_lines(pattern, b, sources) =~= (split_lines(
                    pattern,
                    a,
                    sources,
                ) + split_lines(pattern, b.drop_last(), sources)).push(x));
            },
            None => {},
        }
    }
}

/// The tokens of the messages `msgs`, one message after the other.
pub open spec fn token_stream(msgs: Seq<(Seq<Seq<char>>, Seq<char>)>) -> Seq<Seq<char>>
    decreases msgs.len(),
{
    if msgs.len() == 0 {
        seq![]
    } else {
        token_stream(msgs.drop_last()) + msgs.last().0
    }
}

/// The last two elements of `s` (all of `s` when it is shorter).
pub open spec fn last_two<A>(s: Seq<A>) -> Seq<A> {
    if s.len() <= 2 {
        s
    } else {
        s.skip(s.len() - 2)
    }
}

/// The counts of the 3-grams (`tri`) or 2-grams of the messages `msgs`.
/// The 3-grams of a message are taken with the last two tokens before it in
/// front, so that the 3-grams across the end of one message and the start
/// of the next are counted too (the 3-grams of the whole token stream, see
/// [`law_tri_dictionary_counts_the_stream`]); the 2-grams stay within each
/// message, the last token paired with the first, as matching looks them up.
pub open spec fn message_counts(msgs: Seq<(Seq<Seq<char>>, Seq<char>)>, tri: bool) -> Map<
    Seq<char>,
    i32,
>
    decreases msgs.len(),
{
    if msgs.len() == 0 {
        Map::empty()
    } else {
        counted(
            message_counts(msgs.drop_last(), tri),
            if tri {
                tri_keys(last_two(token_stream(msgs.drop_last())) + msgs.last().0)
            } else {
                double_keys(msgs.last().0)
            },
        )
    }
}

/// Counting two runs of keys is counting the first, then the second.
proof fn lemma_counted_concat(d: Map<Seq<char>, i32>, a: Seq<Seq<char>>, b: Seq<Seq<char>>)
    ensures
        counted(d, a + b) == counted(counted(d, a), b),
    decreases b.len(),
{
    if b.len() == 0 {
        assert(a + b =~= a);
    } else {
        lemma_counted_concat(d, a, b.drop_last());
        assert((a + b).drop_last() =~= a + b.drop_last());
        assert((a + b).last() == b.last());
    }
}

/// The 3-grams of a stream cut in two: those of the first part, then those
/// that start in its last two tokens or after.
proof fn lemma_tri_keys_concat(a: Seq<Seq<char>>, b: Seq<Seq<char>>)
    ensures
        tri_keys(a + b) == tri_keys(a) + tri_keys(last_two(a) + b),
{
    if a.len() < 2 {
        assert(tri_keys(a) =~= Seq::<Seq<char>>::empty());
        assert(tri_keys(a) + tri_keys(last_two(a) + b) =~= tri_keys(a + b));
    } else {
        let m = a.len() - 2;
        let x = a + b;
        let y = last_two(a) + b;
        assert(y =~= a.skip(m) + b);
        assert forall|i: int| 0 <= i < tri_keys(x).len() implies #[trigger] tri_keys(x)[i] == (tri_keys(a)
            + tri_keys(y))[i] by {
            if i < m {
                assert(x[i] == a[i] && x[i + 1] == a[i + 1] && x[i + 2] == a[i + 2]);
            } else {
                assert(x[i] == y[i - m] && x[i + 1] == y[i - m + 1] && x[i + 2] == y[i - m + 2]);
            }
        }
        assert(tri_keys(x) =~= tri_keys(a) + tri_keys(y));
    }
}

/// Law: the 3-gram dictionary counts the 3-grams of the whole token
/// stream, the messages one after the other, so that the 3-grams across the
/// end of one message and the start of the next are counted too.
pub proof fn law_tri_dictionary_counts_the_stream(msgs: Seq<(Seq<Seq<char>>, Seq<char>)>)
    ensures
        message_counts(msgs, true) == counted(Map::empty(), tri_keys(token_stream(msgs))),
    decreases msgs.len(),
{
    if msgs.len() == 0 {
        assert(tri_keys(token_stream(msgs)) =~= Seq::<Seq<char>>::empty());
    } else {
        let init = msgs.drop_last();
        let t = msgs.last().0;
        law_tri_dictionary_counts_the_stream(init);
        lemma_tri_keys_concat(token_stream(init), t);
        lemma_counted_concat(Map::empty(), tri_keys(token_stream(init)), tri_keys(last_two(token_stream(init)) + t));
    }
}

/// Every line can be split.
pub open spec fn lines_defined(pattern: Seq<char>, lines: Seq<Seq<char>>, sources: Seq<Seq<char>>) -> bool {
    forall|i: int| 0 <= i < lines.len() ==> split_defined(pattern, #[trigger] lines[i], sources)
}

/// The views of a sequence of strings.
pub open spec fn line_views(lines: Seq<String>) -> Seq<Seq<char>> {
    Seq::new(lines.len(), |i: int| lines[i]@)
}

/// The dictionaries of a log and its split messages.
pub struct NgramIndex {
    pub double_dictionary: NgramDictionary,
    pub tri_dictionary: NgramDictionary,
    pub all_tokens: Vec<Vec<String>>,
    pub all_messages: Vec<String>,
}

/// `r` is the index of `lines` under the line regex `pattern` and the
/// masking patterns `sources`.
pub open spec fn index_of(r: NgramIndex, pattern: Seq<char>, lines: Seq<Seq<char>>, sources: Seq<Seq<char>>) -> bool {
    let msgs = split_lines(pattern, lines, sources);
    &&& r.double_dictionary@ == message_counts(msgs, false)
    &&& r.tri_dictionary@ == message_counts(msgs, true)
    &&& r.all_tokens.deep_view() == Seq::new(msgs.len(), |i: int| msgs[i].0)
    &&& r.all_messages.deep_view() == Seq::new(msgs.len(), |i: int| msgs[i].1)
}

/// Law: a line without a message (one the line regex does not match, or
/// whose match has no `Content`) is skipped: inserted anywhere in a log, it
/// changes neither the messages nor the dictionaries built from the log.
pub proof fn law_lines_without_message_are_skipped(
    pattern: Seq<char>,
    lines: Seq<Seq<char>>,
    k: int,
    bad: Seq<char>,
    sources: Seq<Seq<char>>,
    r: NgramIndex,
)
    requires
        0 <= k <= lines.len(),
        line_content(pattern, bad) is None,
    ensures
        split_lines(pattern, lines.insert(k, bad), sources) == split_lines(pattern, lines, sources),
        index_of(r, pattern, lines.insert(k, bad), sources) == index_of(r, pattern, lines, sources),
{
    let one = seq![bad];
    assert(lines.insert(k, bad) =~= lines.take(k) + one + lines.skip(k));
    assert(lines =~= lines.take(k) + lines.skip(k));
    assert(one.drop_last() =~= Seq::<Seq<char>>::empty());
    assert(one.last() == bad);
    assert(split_lines(pattern, one.drop_last(), sources) =~= Seq::<(Seq<Seq<char>>, Seq<char>)>::empty());
    assert(split_lines(pattern, one, sources) =~= Seq::<(Seq<Seq<char>>, Seq<char>)>::empty());
    lemma_split_lines_concat(pattern, lines.take(k) + one, lines.skip(k), sources);
    lemma_split_lines_concat(pattern, lines.take(k), one, sources);
    lemma_split_lines_concat(pattern, lines.take(k), lines.skip(k), sources);
    assert(split_lines(pattern, lines.take(k) + one, sources) =~= split_lines(pattern, lines.take(k), sources));
}

/// Law: white space around a log line changes nothing: the padded line has
/// the same message, can be split exactly when the line can, gives the same
/// tokens, and [`token_spilter`] may give the same result for both.
pub proof fn law_token_spilter_ignores_padding(
    pattern: Seq<char>,
    w1: Seq<char>,
    line: Seq<char>,
    w2: Seq<char>,
    sources: Seq<Seq<char>>,
    r: (Option<Vec<String>>, Option<String>),
)
    requires
        all_ws(w1),
        all_ws(w2),
    ensures
        line_content(pattern, w1 + line + w2) == line_content(pattern, line),
        split_defined(pattern, w1 + line + w2, sources) == split_defined(pattern, line, sources),
        split_tokens(pattern, w1 + line + w2, sources) == split_tokens(pattern, line, sources),
        spilt_result(r, pattern, w1 + line + w2, sources) == spilt_result(r, pattern, line, sources),
{
    law_trim_ignores_padding(w1, line, w2);
}

/// Counts the 3-grams of `tokens`, with the tokens `prior` that came just
/// before it in front, into `tri`, and the 2-grams of `tokens` into
/// `double`.
pub fn count_ngrams(
    double: &mut NgramDictionary,
    tri: &mut NgramDictionary,
    prior: &Vec<String>,
    tokens: &Vec<String>,
)
    ensures
        final(tri)@ == counted(old(tri)@, tri_keys(prior.deep_view() + tokens.deep_view())),
        final(double)@ == counted(old(double)@, double_keys(tokens.deep_view())),
{
    let joined = concat_words(prior, tokens);
    count_triples(tri, &joined);
    count_doubles(double, tokens);
}

/// The last two of a stream are the last two of its last two with what
/// follows.
proof fn lemma_last_two_concat(a: Seq<Seq<char>>, b: Seq<Seq<char>>)
    ensures
        last_two(a + b) == last_two(last_two(a) + b),
{
    if a.len() > 2 {
        let a2 = a.skip(a.len() - 2);
        if b.len() >= 2 {
            assert(last_two(a + b) =~= b.skip(b.len() - 2));
            assert(last_two(a2 + b) =~= b.skip(b.len() - 2));
        } else {
            assert(last_two(a + b) =~= last_two(a2 + b));
        }
    }
}

/// The last two strings of `a` followed by `b`.
fn tail_words(a: &Vec<String>, b: &Vec<String>) -> (r: Vec<String>)
    ensures
        r.deep_view() == last_two(a.deep_view() + b.deep_view()),
{
    let joined = concat_words(a, b);
    let n = joined.len();
    let mut r: Vec<String> = Vec::new();
    let start: usize = if n <= 2 {
        0
    } else {
        n - 2
    };
    let mut i: usize = start;
    while i < n
        invariant
            n == joined@.len(),
            start <= i <= n,
            start == (if n <= 2 {
                0
            } else {
                n - 2
            }),
            r.deep_view() =~= joined.deep_view().subrange(start as int, i as int),
        decreases n - i,
    {
        let ghost before = r.deep_view();
        r.push(joined[i].clone());
        assert(joined.deep_view().subrange(start as int, i + 1) =~= before.push(joined@[i as int]@));
        i = i + 1;
    }
    assert(last_two(joined.deep_view()) =~= joined.deep_view().subrange(start as int, n as int));
    r
}

/// `a` followed by `b`, string by string.
fn concat_words(a: &Vec<String>, b: &Vec<String>) -> (r: Vec<String>)
    ensures
        r.deep_view() == a.deep_view() + b.deep_view(),
{
    let mut r = copy_words(a);
    let mut i: usize = 0;
    while i < b.len()
        invariant
            i <= b.len(),
            r.deep_view() =~= a.deep_view() + b.deep_view().take(i as int),
        decreases b.len() - i,
    {
        let ghost before = r.deep_view();
        r.push(b[i].clone());
        assert(b.deep_view().take(i + 1) =~= b.deep_view().take(i as int).push(b@[i as int]@));
        assert(r.deep_view() =~= before.push(b@[i as int]@));
        i = i + 1;
    }
    assert(b.deep_view().take(b.len() as int) =~= b.deep_view());
    r
}

/// Counts the 3-grams of `tokens` into `tri`.
fn count_triples(tri: &mut NgramDictionary, tokens: &Vec<String>)
    ensures
        final(tri)@ == counted(old(tri)@, tri_keys(tokens.deep_view())),
{
    let ghost t = tokens.deep_view();
    let ghost tri0 = tri@;
    let n = tokens.len();
    let mut index: usize = 0;
    while index + 2 < n
        invariant
            t == tokens.deep_view(),
            n == t.len(),
            index <= n,
            index + 2 <= n || index == 0,
            tri@ == counted(tri0, tri_keys(t).take(index as int)),
        decreases n - index,
    {
        let key = join3(&tokens[index], &tokens[index + 1], &tokens[index + 2]);
        assert(tri_keys(t).take(index + 1).drop_last() =~= tri_keys(t).take(index as int));
        tri.add_occurrence(key);
        index = index + 1;
    }
    assert(tri_keys(t).take(index as int) =~= tri_keys(t));
}

/// Counts the 2-grams of `tokens` into `double`.
fn count_doubles(double: &mut NgramDictionary, tokens: &Vec<String>)
    ensures
        final(double)@ == counted(old(double)@, double_keys(tokens.deep_view())),
{
    let ghost t = tokens.deep_view();
    let ghost double0 = double@;
    let n = tokens.len();
    let mut index: usize = 0;
    while index < n
        invariant
            t == tokens.deep_view(),
            n == t.len(),
            index <= n,
            double@ == counted(double0, double_keys(t).take(index as int)),
        decreases n - index,
    {
        let key = if index == n - 1 {
            join2(&tokens[index], &tokens[0])
        } else {
            join2(&tokens[index], &tokens[index + 1])
        };
        assert(double_keys(t).take(index + 1).drop_last() =~= double_keys(t).take(index as int));
        double.add_occurrence(key);
        index = index + 1;
    }
    assert(double_keys(t).take(index as int) =~= double_keys(t));
}

/// Builds the 2-gram and 3-gram dictionaries of a log: each line is split
/// with the line regex of `log_format` and the masking patterns (see
/// [`token_spilter`]); the lines with a message give their tokens and
/// message, and their n-grams are counted (see [`message_counts`]): the
/// 3-grams of the whole token stream, across message boundaries too, and
/// the 2-grams within each message.
pub fn dictionary_builder(log_format: &str, lines: &Vec<String>, preprocess_regex: &Vec<FancyPattern>) -> (r:
    NgramIndex)
    requires
        regex_compiles(logram_line_regex(log_format@)),
        lines_defined(logram_line_regex(log_format@), line_views(lines@), pattern_sources(preprocess_regex@)),
    ensures
        index_of(r, logram_line_regex(log_format@), line_views(lines@), pattern_sources(preprocess_regex@)),
{
    let ghost pattern = logram_line_regex(log_format@);
    let ghost srcs = pattern_sources(preprocess_regex@);
    let ghost lv = line_views(lines@);
    let regex = regex_generator(log_format);
    let mut double_dictionary = NgramDictionary::new();
    let mut tri_dictionary = NgramDictionary::new();
    let mut all_tokens: Vec<Vec<String>> = Vec::new();
    let mut all_messages: Vec<String> = Vec::new();
    let mut carry: Vec<String> = Vec::new();
    let mut k: usize = 0;
    assert(lv.take(0) =~= Seq::<Seq<char>>::empty());
    assert(carry.deep_view() =~= Seq::<Seq<char>>::empty());
    assert(split_lines(pattern, lv.take(0), srcs) =~= Seq::empty());
    assert(all_tokens.deep_view() =~= Seq::new(0, |i: int| split_lines(pattern, lv.take(0), srcs)[i].0));
    assert(all_messages.deep_view() =~= Seq::new(0, |i: int| split_lines(pattern, lv.take(0), srcs)[i].1));
    while k < lines.len()
        invariant
            regex.source() == pattern,
            srcs == pattern_sources(preprocess_regex@),
            lv == line_views(lines@),
            lines_defined(pattern, lv, srcs),
            k <= lines@.len(),
            index_of(
                NgramIndex {
                    double_dictionary,
                    tri_dictionary,
                    all_tokens,
                    all_messages,
                },
                pattern,
                lv.take(k as int),
                srcs,
            ),
            carry.deep_view() == last_two(token_stream(split_lines(pattern, lv.take(k as int), srcs))),
        decreases lines@.len() - k,
    {
        let ghost msgs = split_lines(pattern, lv.take(k as int), srcs);
        assert(lv.take(k + 1).drop_last() =~= lv.take(k as int));
        assert(lv.take(k + 1).last() == lines@[k as int]@);
        assert(split_defined(pattern, lv[k as int], srcs));
        let (tokens, message) = token_spilter(lines[k].as_str(), &regex, preprocess_regex);
        match (tokens, message) {
            (Some(tokens), Some(message)) => {
                count_ngrams(&mut double_dictionary, &mut tri_dictionary, &carry, &tokens);
                let ghost cv = carry.deep_view();
                carry = tail_words(&carry, &tokens);
                let ghost tv = tokens.deep_view();
                let ghost mv = message@;
                let ghost at0 = all_tokens.deep_view();
                let ghost am0 = all_messages.deep_view();
                all_tokens.push(tokens);
                all_messages.push(message);
                assert(all_tokens.deep_view() =~= at0.push(tv));
                assert(all_messages.deep_view() =~= am0.push(mv));
                let ghost msgs2 = split_lines(pattern, lv.take(k + 1), srcs);
                assert(msgs2 == msgs.push((tv, mv)));
                assert(msgs2.drop_last() =~= msgs);
                proof {
                    lemma_last_two_concat(token_stream(msgs), tv);
                }
                assert(token_stream(msgs2) == token_stream(msgs) + tv);
                assert(all_tokens.deep_view() =~= Seq::new(msgs2.len(), |i: int| msgs2[i].0));
                assert(all_messages.deep_view() =~= Seq::new(msgs2.len(), |i: int| msgs2[i].1));
            },
            _ => {},
        }
        k = k + 1;
    }
    assert(lv.take(lines@.len() as int) =~= lv);
    NgramIndex { double_dictionary, tri_dictionary, all_tokens, all_messages }
}

/// [`dictionary_builder`], or `None` when the line regex is rejected or a
/// message cannot be masked.
pub fn try_dictionary_builder(log_format: &str, lines: &Vec<String>, preprocess_regex: &Vec<FancyPattern>) -> (r:
    Option<NgramIndex>)
    ensures
        r is Some <==> (regex_compiles(logram_line_regex(log_format@)) && lines_defined(
            logram_line_regex(log_format@),
            line_views(lines@),
            pattern_sources(preprocess_regex@),
        )),
        r matches Some(x) ==> index_of(
            x,
            logram_line_regex(log_format@),
            line_views(lines@),
            pattern_sources(preprocess_regex@),
        ),
{
    let ghost pattern = logram_line_regex(log_format@);
    let ghost srcs = pattern_sources(preprocess_regex@);
    let ghost lv = line_views(lines@);
    let regex = match try_regex_generator(log_format) {
        Some(p) => p,
        None => {
            return None;
        },
    };
    let mut k: usize = 0;
    while k < lines.len()
        invariant
            pattern == logram_line_regex(log_format@),
            regex.source() == pattern,
            srcs == pattern_sources(preprocess_regex@),
            lv == line_views(lines@),
            k <= lines@.len(),
            forall|i: int| 0 <= i < k ==> split_defined(pattern, #[trigger] lv[i], srcs),
        decreases lines@.len() - k,
    {
        if try_token_spilter(lines[k].as_str(), &regex, preprocess_regex).is_none() {
            assert(!split_defined(pattern, lv[k as int], srcs));
            assert(!lines_defined(pattern, lv, srcs));
            return None;
        }
        k = k + 1;
    }
    Some(dictionary_builder(log_format, lines, preprocess_regex))
}

/// A Logram parser: where the logs are read from and written to, the
/// thresholds, the log format and the masking patterns.
pub struct LogParser {
    in_dir: String,
    out_dir: String,
    double_threshold: usize,
    tri_threshold: usize,
    log_format: String,
    preprocess_regex: Vec<FancyPattern>,
}

/// Every pattern of `pats` compiles with `fancy_regex`.
pub open spec fn all_compile(pats: Seq<String>) -> bool {
    forall|i: int| 0 <= i < pats.len() ==> fancy_regex_compiles(#[trigger] pats[i]@)
}

impl LogParser {
    /// The input directory.
    pub closed spec fn in_dir_view(&self) -> Seq<char> {
        self.in_dir@
    }

    /// The output directory.
    pub closed spec fn out_dir_view(&self) -> Seq<char> {
        self.out_dir@
    }

    /// The 2-gram threshold.
    pub closed spec fn double_threshold_view(&self) -> usize {
        self.double_threshold
    }

    /// The 3-gram threshold.
    pub closed spec fn tri_threshold_view(&self) -> usize {
        self.tri_threshold
    }

    /// The log format.
    pub closed spec fn log_format_view(&self) -> Seq<char> {
        self.log_format@
    }

    /// The source texts of the masking patterns.
    pub closed spec fn pattern_sources_view(&self) -> Seq<Seq<char>> {
        pattern_sources(self.preprocess_regex@)
    }

    /// `self` is the parser made from these arguments: the directories
    /// default to `./` and `./result/`, the 2-gram threshold to 15 and the
    /// 3-gram threshold to 10; the masking patterns are those given, in
    /// order.
    pub open spec fn made_from(
        &self,
        indir: Option<String>,
        outdir: Option<String>,
        double_threshold: Option<usize>,
        tri_threshold: Option<usize>,
        log_format: String,
        preprocess_regex: Seq<String>,
    ) -> bool {
        &&& self.in_dir_view() =~= (match indir {
            Some(d) => d@,
            None => seq!['.', '/'],
        })
        &&& self.out_dir_view() =~= (match outdir {
            Some(d) => d@,
            None => seq!['.', '/', 'r', 'e', 's', 'u', 'l', 't', '/'],
        })
        &&& self.double_threshold_view() == (match double_threshold {
            Some(t) => t,
            None => 15,
        })
        &&& self.tri_threshold_view() == (match tri_threshold {
            Some(t) => t,
            None => 10,
        })
        &&& self.log_format_view() == log_format@
        &&& self.pattern_sources_view() =~= line_views(preprocess_regex)
    }

    /// A parser made from the arguments (see [`LogParser::made_from`]); each
    /// masking pattern is compiled with `fancy_regex`.
    pub fn new(
        indir: Option<String>,
        outdir: Option<String>,
        double_threshold: Option<usize>,
        tri_threshold: Option<usize>,
        log_format: String,
        preprocess_regex: Vec<String>,
    ) -> (r: Self)
        requires
            all_compile(preprocess_regex@),
        ensures
            r.made_from(indir, outdir, double_threshold, tri_threshold, log_format, preprocess_regex@),
    {
        let default_indir = String::from_str("./");
        let default_outdir = String::from_str("./result/");
        proof {
            reveal_strlit("./");
            reveal_strlit("./result/");
        }
        let mut compiled: Vec<FancyPattern> = Vec::new();
        let mut k: usize = 0;
        while k < preprocess_regex.len()
            invariant
                all_compile(preprocess_regex@),
                k <= preprocess_regex@.len(),
                pattern_sources(compiled@) =~= line_views(preprocess_regex@).take(k as int),
            decreases preprocess_regex@.len() - k,
        {
            assert(fancy_regex_compiles(preprocess_regex@[k as int]@));
            match FancyPattern::compile(preprocess_regex[k].as_str()) {
                Some(p) => {
                    let ghost before = compiled@;
                    assert(p.source() == preprocess_regex@[k as int]@);
                    compiled.push(p);
                    assert(pattern_sources(compiled@) =~= pattern_sources(before).push(p.source()));
                    assert(line_views(preprocess_regex@).take(k + 1) =~= line_views(preprocess_regex@).take(
                        k as int,
                    ).push(preprocess_regex@[k as int]@));
                },
                None => vstd::pervasive::unreached(),
            }
            k = k + 1;
        }
        LogParser {
            in_dir: match indir {
                Some(d) => d,
                None => default_indir,
            },
            out_dir: match outdir {
                Some(d) => d,
                None => default_outdir,
            },
            double_threshold: match double_threshold {
                Some(t) => t,
                None => 15,
            },
            tri_threshold: match tri_threshold {
                Some(t) => t,
                None => 10,
            },
            log_format,
            preprocess_regex: compiled,
        }
    }

    /// [`LogParser::new`], or `None` when a masking pattern does not compile.
    pub fn try_new(
        indir: Option<String>,
        outdir: Option<String>,
        double_threshold: Option<usize>,
        tri_threshold: Option<usize>,
        log_format: String,
        preprocess_regex: Vec<String>,
    ) -> (r: Option<Self>)
        ensures
            r is Some <==> all_compile(preprocess_regex@),
            r matches Some(p) ==> p.made_from(
                indir,
                outdir,
                double_threshold,
                tri_threshold,
                log_format,
                preprocess_regex@,
            ),
    {
        let mut k: usize = 0;
        while k < preprocess_regex.len()
            invariant
                k <= preprocess_regex@.len(),
                forall|i: int| 0 <= i < k ==> fancy_regex_compiles(#[trigger] preprocess_regex@[i]@),
            decreases preprocess_regex@.len() - k,
        {
            if FancyPattern::compile(preprocess_regex[k].as_str()).is_none() {
                return None;
            }
            k = k + 1;
        }
        Some(
            LogParser::new(
                indir,
                outdir,
                double_threshold,
                tri_threshold,
                log_format,
                preprocess_regex,
            ),
        )
    }

    /// The input directory.
    pub fn in_dir(&self) -> (r: &String)
        ensures
            r@ == self.in_dir_view(),
    {
        &self.in_dir
    }

    /// The output directory.
    pub fn out_dir(&self) -> (r: &String)
        ensures
            r@ == self.out_dir_view(),
    {
        &self.out_dir
    }

    /// The 2-gram threshold.
    pub fn double_threshold(&self) -> (r: usize)
        ensures
            r == self.double_threshold_view(),
    {
        self.double_threshold
    }

    /// The 3-gram threshold.
    pub fn tri_threshold(&self) -> (r: usize)
        ensures
            r == self.tri_threshold_view(),
    {
        self.tri_threshold
    }

    /// The path of the log `log_file_basename` in the input directory.
    pub fn log_file_path(&self, log_file_basename: &str) -> (r: String)
        ensures
            path_joined(self.in_dir_view(), log_file_basename@, r@),
    {
        join_path(self.in_dir.as_str(), log_file_basename)
    }

    /// Parses the lines of a log: builds its dictionaries (see
    /// [`dictionary_builder`]) with the parser's format and patterns.
    pub fn parse(&self, lines: &Vec<String>) -> (r: NgramIndex)
        requires
            regex_compiles(logram_line_regex(self.log_format_view())),
            lines_defined(logram_line_regex(self.log_format_view()), line_views(lines@), self.pattern_sources_view()),
        ensures
            index_of(r, logram_line_regex(self.log_format_view()), line_views(lines@), self.pattern_sources_view()),
    {
        dictionary_builder(self.log_format.as_str(), lines, &self.preprocess_regex)
    }

    /// [`LogParser::parse`], or `None` when the line regex is rejected or a
    /// message cannot be masked.
    pub fn try_parse(&self, lines: &Vec<String>) -> (r: Option<NgramIndex>)
        ensures
            r is Some <==> (regex_compiles(logram_line_regex(self.log_format_view())) && lines_defined(
                logram_line_regex(self.log_format_view()),
                line_views(lines@),
                self.pattern_sources_view(),
            )),
            r matches Some(x) ==> index_of(
                x,
                logram_line_regex(self.log_format_view()),
                line_views(lines@),
                self.pattern_sources_view(),
            ),
    {
        if try_dictionary_builder(self.log_format.as_str(), lines, &self.preprocess_regex).is_some() {
            Some(self.parse(lines))
        } else {
            None
        }
    }
}

} // verus!
