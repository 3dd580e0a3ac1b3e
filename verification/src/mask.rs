//! Masking the variable parts of a message: each pattern in turn has its
//! matches replaced by the wildcard `<*>`.
use vstd::prelude::*;
use crate::pattern::{fancy_replace_all, fancy_try_replace_all, FancyPattern};
use crate::prefix_tree::{wildcard, wildcard_string};

verus! {

/// The source texts of `pats`.
pub open spec fn pattern_sources(pats: Seq<FancyPattern>) -> Seq<Seq<char>> {
    Seq::new(pats.len(), |i: int| pats[i].source())
}

/// `line` after the patterns `sources`, in order, have had their matches
/// replaced by `<*>`; `None` when one of the replacements fails at run time.
pub open spec fn masked(line: Seq<char>, sources: Seq<Seq<char>>) -> Option<Seq<char>>
    decreases sources.len(),
{
    if sources.len() == 0 {
        Some(line)
    } else {
        match masked(line, sources.drop_last()) {
            Some(x) => fancy_replace_all(sources.last(), x, wildcard()),
            None => None,
        }
    }
}

/// `line` with the matches of each pattern of `pats` in turn replaced by
/// `<*>` (see [`masked`]).
pub fn mask_variables(line: &str, pats: &Vec<FancyPattern>) -> (r: Option<String>)
    ensures
        match r {
            Some(s) => masked(line@, pattern_sources(pats@)) == Some(s@),
            None => masked(line@, pattern_sources(pats@)) is None,
        },
{
    let ghost srcs = pattern_sources(pats@);
    let star = wildcard_string();
    let mut result = String::from_str(line);
    let mut k: usize = 0;
    while k < pats.len()
        invariant
            srcs == pattern_sources(pats@),
            star@ == wildcard(),
            k <= pats@.len(),
            masked(line@, srcs.take(k as int)) == Some(result@),
        decreases pats@.len() - k,
    {
        assert(srcs.take(k + 1).drop_last() =~= srcs.take(k as int));
        assert(srcs.take(k + 1).last() == pats@[k as int].source());
        match fancy_try_replace_all(&pats[k], result.as_str(), star.as_str()) {
            Some(replacement) => {
                result = replacement;
            },
            None => {
                proof {
                    assert(masked(line@, srcs.take(k + 1)) is None);
                    lemma_masked_fails_later(line@, srcs, k as int + 1);
                }
                return None;
            },
        }
        k = k + 1;
    }
    assert(srcs.take(pats@.len() as int) =~= srcs);
    Some(result)
}

/// Once a replacement fails, masking with more patterns fails too.
pub proof fn lemma_masked_fails_later(line: Seq<char>, sources: Seq<Seq<char>>, k: int)
    requires
        0 <= k <= sources.len(),
        masked(line, sources.take(k)) is None,
    ensures
        masked(line, sources) is None,
    decreases sources.len() - k,
{
    if k < sources.len() {
        assert(sources.take(k + 1).drop_last() =~= sources.take(k));
        lemma_masked_fails_later(line, sources, k + 1);
    } else {
        assert(sources.take(k) =~= sources);
    }
}

/// Law: the patterns are applied in turn: masking with the patterns `a`
/// followed by `b` is masking with `a` and then masking the result with
/// `b`, and fails when either step fails.
pub proof fn law_masking_composes(line: Seq<char>, a: Seq<Seq<char>>, b: Seq<Seq<char>>)
    ensures
        masked(line, a + b) == match masked(line, a) {
            Some(x) => masked(x, b),
            None => None,
        },
    decreases b.len(),
{
    if b.len() == 0 {
        assert(a + b =~= a);
    } else {
        law_masking_composes(line, a, b.drop_last());
        assert((a + b).drop_last() =~= a + b.drop_last());
        assert((a + b).last() == b.last());
    }
}

} // verus!
