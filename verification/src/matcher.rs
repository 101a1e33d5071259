//! The match scorer: a (candidate, query) pair goes to a relevance score or
//! to no match at all. The score itself comes from the skim fuzzy-matching
//! algorithm of the `fuzzy_matcher` crate; this module pins down when a match
//! exists at all (a smart-case subsequence test) and what that guarantees.
use vstd::prelude::*;

use fuzzy_matcher::skim::SkimMatcherV2;
use fuzzy_matcher::FuzzyMatcher;

verus! {

/// True of the ASCII capital letters, the only characters whose case the
/// matcher folds.
pub open spec fn is_ascii_upper(c: char) -> bool {
    65 <= c as u32 && c as u32 <= 90
}

/// Some character of `s` is an ASCII capital.
pub open spec fn has_ascii_upper(s: Seq<char>) -> bool {
    exists|i: int| 0 <= i < s.len() && is_ascii_upper(s[i])
}

/// One candidate character `c` accepts one query character `p`: exact
/// equality when case matters, equality up to ASCII case when it does not.
pub open spec fn chars_match(c: char, p: char, case_sensitive: bool) -> bool {
    if case_sensitive {
        c == p
    } else {
        c == p || (is_ascii_upper(c) && !is_ascii_upper(p) && c as u32 + 32 == p as u32) || (
        is_ascii_upper(p) && !is_ascii_upper(c) && p as u32 + 32 == c as u32)
    }
}

/// Every character of `pattern` occurs in `choice` in the same relative
/// order, each pair related by `chars_match` under the given case rule.
pub open spec fn is_subseq_match(choice: Seq<char>, pattern: Seq<char>, case_sensitive: bool) -> bool
    decreases choice.len() + pattern.len(),
{
    if pattern.len() == 0 {
        true
    } else if choice.len() == 0 {
        false
    } else if chars_match(choice[0], pattern[0], case_sensitive) {
        is_subseq_match(choice.skip(1), pattern.skip(1), case_sensitive) || is_subseq_match(
            choice.skip(1),
            pattern,
            case_sensitive,
        )
    } else {
        is_subseq_match(choice.skip(1), pattern, case_sensitive)
    }
}

/// The query is an exact subsequence of the candidate: every query character
/// occurs in the candidate, equal and in the same relative order.
pub open spec fn is_subsequence(pattern: Seq<char>, choice: Seq<char>) -> bool {
    is_subseq_match(choice, pattern, true)
}

/// The skim matcher finds a match: the pattern is a subsequence of the
/// choice under smart case, which is case-sensitive exactly when the pattern
/// holds an ASCII capital.
pub open spec fn skim_matches(choice: Seq<char>, pattern: Seq<char>) -> bool {
    is_subseq_match(choice, pattern, has_ascii_upper(pattern))
}

/// The score the skim algorithm assigns to a (choice, pattern) pair, a
/// function of the two character sequences alone; `None` stands for no match.
pub uninterp spec fn skim_score(choice: Seq<char>, pattern: Seq<char>) -> Option<i64>;

/// Relies on `SkimMatcherV2::fuzzy_match` of `fuzzy_matcher` (default
/// settings): the result depends on the two strings alone; an empty pattern
/// scores `Some(0)`; a score comes back exactly when the pattern is a
/// smart-case subsequence of the choice.
#[verifier::external_body]
pub(crate) fn skim_fuzzy_match(choice: &str, pattern: &str) -> (r: Option<i64>)
    ensures
        r == skim_score(choice@, pattern@),
        r is Some <==> skim_matches(choice@, pattern@),
        pattern@.len() == 0 ==> r == Some(0i64),
{
    let matcher = SkimMatcherV2::default();
    matcher.fuzzy_match(choice, pattern)
}

/// A smart-case subsequence is an exact one whenever case was respected, or
/// whenever neither string holds an ASCII capital, since folding then
/// changes nothing.
pub proof fn lemma_subseq_match_exact(choice: Seq<char>, pattern: Seq<char>, case_sensitive: bool)
    requires
        is_subseq_match(choice, pattern, case_sensitive),
        case_sensitive || (!has_ascii_upper(choice) && !has_ascii_upper(pattern)),
    ensures
        is_subsequence(pattern, choice),
    decreases choice.len() + pattern.len(),
{
    if case_sensitive {
    } else if pattern.len() == 0 {
    } else if choice.len() == 0 {
    } else {
        assert(!is_ascii_upper(choice[0]) && !is_ascii_upper(pattern[0]));
        assert(!has_ascii_upper(choice.skip(1))) by {
            assert(forall|i: int|
                0 <= i < choice.skip(1).len() ==> choice.skip(1)[i] == choice[i + 1]);
        }
        assert(!has_ascii_upper(pattern.skip(1))) by {
            assert(forall|i: int|
                0 <= i < pattern.skip(1).len() ==> pattern.skip(1)[i] == pattern[i + 1]);
        }
        if chars_match(choice[0], pattern[0], false) {
            assert(choice[0] == pattern[0]);
            if is_subseq_match(choice.skip(1), pattern.skip(1), false) {
                lemma_subseq_match_exact(choice.skip(1), pattern.skip(1), false);
            } else {
                lemma_subseq_match_exact(choice.skip(1), pattern, false);
            }
        } else {
            lemma_subseq_match_exact(choice.skip(1), pattern, false);
        }
    }
}

} // verus!
