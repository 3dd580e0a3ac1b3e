//! The log format template, such as `<Date> <Time> <Level>: <Content>`:
//! its field placeholders, and the regular expressions built from it that
//! split a log line into its fields.
//!
//! A placeholder is `<`, one or more characters other than `<` and `>`,
//! then `>`; placeholders are found left to right without overlap, as the
//! regex `<[^<>]+>` finds them.
use vstd::prelude::*;
use crate::text::{chars_of, string_from_chars};

verus! {

/// `<` or `>`.
pub open spec fn is_angle(c: char) -> bool {
    c == '<' || c == '>'
}

/// Position of the first `<` or `>` at or after `i`, or `s.len()`.
pub open spec fn next_angle(s: Seq<char>, i: int) -> int
    decreases s.len() - i,
{
    if i >= s.len() {
        s.len() as int
    } else if is_angle(s[i]) {
        i
    } else {
        next_angle(s, i + 1)
    }
}

/// A placeholder starts at `i`: `s[i]` is `<`, and the first angle bracket
/// after it is a `>` with at least one character in between.
pub open spec fn placeholder_at(s: Seq<char>, i: int) -> bool {
    &&& 0 <= i < s.len()
    &&& s[i] == '<'
    &&& next_angle(s, i + 1) < s.len()
    &&& s[next_angle(s, i + 1)] == '>'
    &&& next_angle(s, i + 1) >= i + 2
}

/// The placeholders of `s` from position `i` on, `<` and `>` included.
pub open spec fn placeholders_from(s: Seq<char>, i: int) -> Seq<Seq<char>>
    decreases s.len() - i,
{
    if i < 0 || i >= s.len() {
        seq![]
    } else if placeholder_at(s, i) {
        let j = next_angle(s, i + 1);
        seq![s.subrange(i, j + 1)] + placeholders_from(s, j + 1)
    } else {
        placeholders_from(s, i + 1)
    }
}

/// The placeholders of `s`, left to right, `<` and `>` included.
pub open spec fn placeholders(s: Seq<char>) -> Seq<Seq<char>> {
    placeholders_from(s, 0)
}

/// The names of the placeholders of `s` from position `i` on (the text
/// between `<` and `>`).
pub open spec fn placeholder_names_from(s: Seq<char>, i: int) -> Seq<Seq<char>>
    decreases s.len() - i,
{
    if i < 0 || i >= s.len() {
        seq![]
    } else if placeholder_at(s, i) {
        let j = next_angle(s, i + 1);
        seq![s.subrange(i + 1, j)] + placeholder_names_from(s, j + 1)
    } else {
        placeholder_names_from(s, i + 1)
    }
}

/// The names of the placeholders of `s`, left to right.
pub open spec fn placeholder_names(s: Seq<char>) -> Seq<Seq<char>> {
    placeholder_names_from(s, 0)
}

/// `(?P<name>.*?)`: a lazy named group.
pub open spec fn named_group(name: Seq<char>) -> Seq<char> {
    seq!['(', '?', 'P', '<'] + name + seq!['>', '.', '*', '?', ')']
}

/// The Drain line regex body for `s` from position `i` on: each
/// placeholder becomes a named group of its name, an angle bracket outside a
/// placeholder is dropped, and every other character is kept as it stands
/// (white space runs and other text alike).
pub open spec fn drain_body_from(s: Seq<char>, i: int) -> Seq<char>
    decreases s.len() - i,
{
    if i < 0 || i >= s.len() {
        seq![]
    } else if placeholder_at(s, i) {
        let j = next_angle(s, i + 1);
        named_group(s.subrange(i + 1, j)) + drain_body_from(s, j + 1)
    } else if is_angle(s[i]) {
        drain_body_from(s, i + 1)
    } else {
        seq![s[i]] + drain_body_from(s, i + 1)
    }
}

/// The Drain line regex for format `s`: `^`, the body, `$`.
pub open spec fn drain_line_regex(s: Seq<char>) -> Seq<char> {
    seq!['^'] + drain_body_from(s, 0) + seq!['$']
}

/// `p` with every run of space characters (U+0020) replaced by `\s+`;
/// `in_run` tells whether the character before position `i` was a space.
pub open spec fn collapse_spaces_from(p: Seq<char>, i: int, in_run: bool) -> Seq<char>
    decreases p.len() - i,
{
    if i < 0 || i >= p.len() {
        seq![]
    } else if p[i] == ' ' {
        if in_run {
            collapse_spaces_from(p, i + 1, true)
        } else {
            seq!['\\', 's', '+'] + collapse_spaces_from(p, i + 1, true)
        }
    } else {
        seq![p[i]] + collapse_spaces_from(p, i + 1, false)
    }
}

/// `p` with every run of spaces replaced by `\s+`.
pub open spec fn collapse_spaces(p: Seq<char>) -> Seq<char> {
    collapse_spaces_from(p, 0, false)
}

/// The Logram line regex body for `s` from position `i` on, `pending`
/// being the text read since the last placeholder: before each placeholder
/// comes the text since the previous one, its space runs made `\s+`, then
/// the named group; the text after the last placeholder is left out.
pub open spec fn logram_body_from(s: Seq<char>, i: int, pending: Seq<char>) -> Seq<char>
    decreases s.len() - i,
{
    if i < 0 || i >= s.len() {
        seq![]
    } else if placeholder_at(s, i) {
        let j = next_angle(s, i + 1);
        collapse_spaces(pending) + named_group(s.subrange(i + 1, j)) + logram_body_from(
            s,
            j + 1,
            seq![],
        )
    } else {
        logram_body_from(s, i + 1, pending.push(s[i]))
    }
}

/// The Logram line regex for format `s`: `^`, the body, `$`.
pub open spec fn logram_line_regex(s: Seq<char>) -> Seq<char> {
    seq!['^'] + logram_body_from(s, 0, seq![]) + seq!['$']
}

/// `j` is the first angle bracket at or after `k`.
fn find_angle(s: &Vec<char>, k: usize) -> (j: usize)
    requires
        k <= s@.len(),
    ensures
        j == next_angle(s@, k as int),
        k <= j <= s@.len(),
{
    let mut j = k;
    while j < s.len() && s[j] != '<' && s[j] != '>'
        invariant
            k <= j <= s@.len(),
            next_angle(s@, j as int) == next_angle(s@, k as int),
        decreases s@.len() - j,
    {
        j = j + 1;
    }
    j
}

/// Whether a placeholder starts at `i`, and the position of its `>`.
fn placeholder_close(s: &Vec<char>, i: usize) -> (r: Option<usize>)
    requires
        i < s@.len(),
    ensures
        r is Some <==> placeholder_at(s@, i as int),
        r matches Some(j) ==> j == next_angle(s@, i + 1) && i + 2 <= j < s@.len(),
{
    let n = s.len();
    if s[i] != '<' {
        return None;
    }
    assert(i < n);
    let j = find_angle(s, i + 1);
    if j < s.len() && s[j] == '>' && j >= i + 2 {
        Some(j)
    } else {
        None
    }
}

/// The characters `s[from..to]` as a string.
fn slice_string(s: &Vec<char>, from: usize, to: usize) -> (r: String)
    requires
        from <= to <= s@.len(),
    ensures
        r@ == s@.subrange(from as int, to as int),
{
    let mut v: Vec<char> = Vec::new();
    let mut k = from;
    while k < to
        invariant
            from <= k <= to <= s@.len(),
            v@ =~= s@.subrange(from as int, k as int),
        decreases to - k,
    {
        v.push(s[k]);
        k = k + 1;
    }
    string_from_chars(v.as_slice())
}

/// The field placeholders of `log_format`, left to right, each with its
/// angle brackets (`"<Date>"`).
pub fn extract_variable_names(log_format: &str) -> (headers: Vec<String>)
    ensures
        headers.deep_view() == placeholders(log_format@),
{
    let s = chars_of(log_format);
    let mut headers: Vec<String> = Vec::new();
    let mut i: usize = 0;
    while i < s.len()
        invariant
            s@ == log_format@,
            i <= s@.len(),
            headers.deep_view() + placeholders_from(s@, i as int) == placeholders(s@),
        decreases s@.len() - i,
    {
        match placeholder_close(&s, i) {
            Some(j) => {
                let h = slice_string(&s, i, j + 1);
                let ghost before = headers.deep_view();
                headers.push(h);
                assert(headers.deep_view() =~= before.push(s@.subrange(i as int, j + 1)));
                assert(headers.deep_view() + placeholders_from(s@, j + 1) =~= before
                    + placeholders_from(s@, i as int));
                i = j + 1;
            },
            None => {
                i = i + 1;
            },
        }
    }
    assert(headers.deep_view() =~= headers.deep_view() + placeholders_from(s@, i as int));
    headers
}

/// The names of the field placeholders of `log_format`, left to right,
/// without their angle brackets (`"Date"`).
pub fn placeholder_name_list(log_format: &str) -> (names: Vec<String>)
    ensures
        names.deep_view() == placeholder_names(log_format@),
{
    let s = chars_of(log_format);
    let mut names: Vec<String> = Vec::new();
    let mut i: usize = 0;
    while i < s.len()
        invariant
            s@ == log_format@,
            i <= s@.len(),
            names.deep_view() + placeholder_names_from(s@, i as int) == placeholder_names(s@),
        decreases s@.len() - i,
    {
        match placeholder_close(&s, i) {
            Some(j) => {
                let h = slice_string(&s, i + 1, j);
                let ghost before = names.deep_view();
                names.push(h);
                assert(names.deep_view() =~= before.push(s@.subrange(i + 1, j as int)));
                assert(names.deep_view() + placeholder_names_from(s@, j + 1) =~= before
                    + placeholder_names_from(s@, i as int));
                i = j + 1;
            },
            None => {
                i = i + 1;
            },
        }
    }
    assert(names.deep_view() =~= names.deep_view() + placeholder_names_from(s@, i as int));
    names
}

/// Appends `(?P<name>.*?)` for `name = s[from..to]` to `out`.
fn push_named_group(out: &mut Vec<char>, s: &Vec<char>, from: usize, to: usize)
    requires
        from <= to <= s@.len(),
    ensures
        final(out)@ == old(out)@ + named_group(s@.subrange(from as int, to as int)),
{
    let ghost start = out@;
    out.push('(');
    out.push('?');
    out.push('P');
    out.push('<');
    let mut k = from;
    while k < to
        invariant
            from <= k <= to <= s@.len(),
            out@ =~= start + seq!['(', '?', 'P', '<'] + s@.subrange(from as int, k as int),
        decreases to - k,
    {
        out.push(s[k]);
        k = k + 1;
    }
    out.push('>');
    out.push('.');
    out.push('*');
    out.push('?');
    out.push(')');
    assert(out@ =~= start + named_group(s@.subrange(from as int, to as int)));
}

/// The regex text that splits a log line of format `log_format` into its
/// fields, as Drain builds it (see [`drain_line_regex`]).
pub fn drain_regex_text(log_format: &str) -> (r: String)
    ensures
        r@ == drain_line_regex(log_format@),
{
    let s = chars_of(log_format);
    let mut out: Vec<char> = Vec::new();
    out.push('^');
    let mut i: usize = 0;
    while i < s.len()
        invariant
            s@ == log_format@,
            i <= s@.len(),
            out@ + drain_body_from(s@, i as int) == seq!['^'] + drain_body_from(s@, 0),
        decreases s@.len() - i,
    {
        let ghost before = out@;
        match placeholder_close(&s, i) {
            Some(j) => {
                push_named_group(&mut out, &s, i + 1, j);
                assert(out@ + drain_body_from(s@, j + 1) =~= before + drain_body_from(s@, i as int));
                i = j + 1;
            },
            None => {
                if s[i] != '<' && s[i] != '>' {
                    out.push(s[i]);
                }
                assert(out@ + drain_body_from(s@, i + 1) =~= before + drain_body_from(s@, i as int));
                i = i + 1;
            },
        }
    }
    assert(out@ =~= seq!['^'] + drain_body_from(s@, 0));
    out.push('$');
    string_from_chars(out.as_slice())
}

/// Appends `p` with its space runs made `\s+` to `out`.
fn push_collapsed(out: &mut Vec<char>, p: &Vec<char>)
    ensures
        final(out)@ == old(out)@ + collapse_spaces(p@),
{
    let ghost start = out@;
    let mut in_run = false;
    let mut k: usize = 0;
    while k < p.len()
        invariant
            k <= p@.len(),
            out@ + collapse_spaces_from(p@, k as int, in_run) == start + collapse_spaces(p@),
        decreases p@.len() - k,
    {
        let ghost before = out@;
        let ghost was = in_run;
        if p[k] == ' ' {
            if !in_run {
                out.push('\\');
                out.push('s');
                out.push('+');
            }
            in_run = true;
        } else {
            out.push(p[k]);
            in_run = false;
        }
        assert(out@ + collapse_spaces_from(p@, k + 1, in_run) =~= before + collapse_spaces_from(
            p@,
            k as int,
            was,
        ));
        k = k + 1;
    }
    assert(out@ =~= start + collapse_spaces(p@));
}

/// The regex text that splits a log line of format `log_format` into its
/// fields, as Logram builds it (see [`logram_line_regex`]).
pub fn logram_regex_text(log_format: &str) -> (r: String)
    ensures
        r@ == logram_line_regex(log_format@),
{
    let s = chars_of(log_format);
    let mut out: Vec<char> = Vec::new();
    out.push('^');
    let mut pending: Vec<char> = Vec::new();
    let mut i: usize = 0;
    while i < s.len()
        invariant
            s@ == log_format@,
            i <= s@.len(),
            out@ + logram_body_from(s@, i as int, pending@) == seq!['^'] + logram_body_from(
                s@,
                0,
                seq![],
            ),
        decreases s@.len() - i,
    {
        let ghost before = out@;
        let ghost pend = pending@;
        match placeholder_close(&s, i) {
            Some(j) => {
                push_collapsed(&mut out, &pending);
                push_named_group(&mut out, &s, i + 1, j);
                pending = Vec::new();
                assert(out@ + logram_body_from(s@, j + 1, pending@) =~= before + logram_body_from(
                    s@,
                    i as int,
                    pend,
                ));
                i = j + 1;
            },
            None => {
                pending.push(s[i]);
                i = i + 1;
            },
        }
    }
    assert(out@ =~= seq!['^'] + logram_body_from(s@, 0, seq![]));
    out.push('$');
    string_from_chars(out.as_slice())
}

} // verus!
