//! Compiled regular expressions: the line patterns of the `regex` crate that
//! split a log line into its fields, and the `fancy_regex` patterns that
//! mask variable parts of a message.
//!
//! Each compiled pattern keeps the text it was compiled from; the fields are
//! private, and [`LinePattern::compile`] and [`FancyPattern::compile`] are
//! the only places that build one, so the compiled value always belongs to
//! its source text. The contracts below speak of that source text.
use vstd::prelude::*;

verus! {

/// A compiled regex of the `regex` crate, opaque to the proofs.
#[verifier::external_type_specification]
#[verifier::external_body]
pub struct ExRegex(regex::Regex);

/// The `regex` crate's error, opaque.
#[verifier::external_type_specification]
#[verifier::external_body]
pub struct ExRegexError(regex::Error);

/// A compiled regex of the `fancy_regex` crate, opaque to the proofs.
#[verifier::external_type_specification]
#[verifier::external_body]
pub struct ExFancyRegex(fancy_regex::Regex);

/// The `fancy_regex` crate's error, opaque.
#[verifier::external_type_specification]
#[verifier::external_body]
pub struct ExFancyError(fancy_regex::Error);

/// Whether `regex::Regex::new` accepts `pattern`.
pub uninterp spec fn regex_compiles(pattern: Seq<char>) -> bool;

/// What `regex::Regex::captures` finds in `text` for the regex compiled from
/// `pattern`: `None` when there is no match, otherwise the named groups of
/// the leftmost-first match that took part in it, by name, with the text
/// each one matched.
pub uninterp spec fn regex_match_groups(pattern: Seq<char>, text: Seq<char>) -> Option<
    Map<Seq<char>, Seq<char>>,
>;

/// Whether `fancy_regex::Regex::new` accepts `pattern`.
pub uninterp spec fn fancy_regex_compiles(pattern: Seq<char>) -> bool;

/// What `fancy_regex::Regex::try_replacen(text, 0, rep)` gives for the
/// regex compiled from `pattern`: every non-overlapping match replaced by
/// `rep`, or `None` when matching fails at run time (for instance when the
/// backtracking limit is hit).
pub uninterp spec fn fancy_replace_all(pattern: Seq<char>, text: Seq<char>, rep: Seq<char>) -> Option<
    Seq<char>,
>;

/// `regex::Regex::new`: succeeds exactly on the patterns that
/// [`regex_compiles`] names.
#[verifier::external_body]
fn regex_new(pattern: &str) -> (r: Result<regex::Regex, regex::Error>)
    ensures
        r is Ok <==> regex_compiles(pattern@),
{
    regex::Regex::new(pattern)
}

/// `fancy_regex::Regex::new`: succeeds exactly on the patterns that
/// [`fancy_regex_compiles`] names.
#[verifier::external_body]
fn fancy_regex_new(pattern: &str) -> (r: Result<fancy_regex::Regex, fancy_regex::Error>)
    ensures
        r is Ok <==> fancy_regex_compiles(pattern@),
{
    fancy_regex::Regex::new(pattern)
}

/// The text a named group matched, if it took part in the match.
pub open spec fn group_text(groups: Map<Seq<char>, Seq<char>>, name: Seq<char>) -> Option<
    Seq<char>,
> {
    if groups.contains_key(name) {
        Some(groups[name])
    } else {
        None
    }
}

/// A regex of the `regex` crate with the text it was compiled from.
pub struct LinePattern {
    source: String,
    compiled: regex::Regex,
}

impl LinePattern {
    /// The text the pattern was compiled from.
    pub closed spec fn source(&self) -> Seq<char> {
        self.source@
    }

    /// Compiles `source`; `None` when the `regex` crate rejects it.
    pub fn compile(source: &str) -> (r: Option<LinePattern>)
        ensures
            r is Some <==> regex_compiles(source@),
            r matches Some(p) ==> p.source() == source@,
    {
        match regex_new(source) {
            Ok(compiled) => Some(LinePattern { source: String::from_str(source), compiled }),
            Err(_) => None,
        }
    }

    /// The text the pattern was compiled from.
    pub fn source_text(&self) -> (r: String)
        ensures
            r@ == self.source(),
    {
        self.source.clone()
    }
}

/// `regex::Regex::captures` on `text`, with each group of `names` read off
/// the match by `Captures::name`: `None` when the regex does not match,
/// otherwise, for each name in order, the text of that group or `None` when
/// it took no part in the match.
#[verifier::external_body]
pub(crate) fn regex_captures(p: &LinePattern, text: &str, names: &Vec<String>) -> (r: Option<
    Vec<Option<String>>,
>)
    ensures
        r is Some <==> regex_match_groups(p.source(), text@) is Some,
        r matches Some(v) ==> v.deep_view() == names.deep_view().map_values(
            |n: Seq<char>| group_text(regex_match_groups(p.source(), text@)->0, n),
        ),
{
    p.compiled.captures(text).map(
        |caps| names.iter().map(|n| caps.name(n).map(|m| m.as_str().to_string())).collect(),
    )
}

/// A regex of the `fancy_regex` crate with the text it was compiled from.
pub struct FancyPattern {
    source: String,
    compiled: fancy_regex::Regex,
}

impl FancyPattern {
    /// The text the pattern was compiled from.
    pub closed spec fn source(&self) -> Seq<char> {
        self.source@
    }

    /// Compiles `source`; `None` when `fancy_regex` rejects it.
    pub fn compile(source: &str) -> (r: Option<FancyPattern>)
        ensures
            r is Some <==> fancy_regex_compiles(source@),
            r matches Some(p) ==> p.source() == source@,
    {
        match fancy_regex_new(source) {
            Ok(compiled) => Some(FancyPattern { source: String::from_str(source), compiled }),
            Err(_) => None,
        }
    }

    /// The text the pattern was compiled from.
    pub fn source_text(&self) -> (r: String)
        ensures
            r@ == self.source(),
    {
        self.source.clone()
    }
}

/// `fancy_regex::Regex::try_replacen(text, 0, rep)`, the fallible form of
/// `replace_all`: every match replaced by `rep`, `None` on a run-time
/// matching error.
#[verifier::external_body]
pub(crate) fn fancy_try_replace_all(p: &FancyPattern, text: &str, rep: &str) -> (r: Option<String>)
    ensures
        match r {
            Some(s) => fancy_replace_all(p.source(), text@, rep@) == Some(s@),
            None => fancy_replace_all(p.source(), text@, rep@) is None,
        },
{
    p.compiled.try_replacen(text, 0, rep).ok().map(|c| c.into_owned())
}

} // verus!
