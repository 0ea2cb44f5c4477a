use vstd::prelude::*;

verus! {

/// What the regular expression `pattern` captures in `text`: `None` where
/// `pattern` is no regular expression or matches nowhere in `text`; else, for
/// the leftmost match, the text of every capture group, the whole match
/// first, with `None` for a group that took no part in the match.
pub uninterp spec fn regex_captures(pattern: Seq<char>, text: Seq<char>) -> Option<
    Seq<Option<Seq<char>>>,
>;

/// The texts that `groups` holds.
pub open spec fn group_texts(groups: Option<Vec<Option<String>>>) -> Option<Seq<Option<Seq<char>>>> {
    match groups {
        None => None,
        Some(v) => Some(
            Seq::new(
                v@.len(),
                |i: int|
                    match v@[i] {
                        Some(s) => Some(s@),
                        None => None,
                    },
            ),
        ),
    }
}

/// Compiles `pattern` with `Regex::new` of the regex crate and searches
/// `text` with `Regex::captures`. The result is `None` where the pattern is
/// refused or nothing matches, and else holds what `Captures::iter` yields,
/// each match as the text that `Match::as_str` gives. Nothing is claimed of
/// the result but that the same pattern and text give the same result.
#[verifier::external_body]
pub(crate) fn captures(pattern: &str, text: &str) -> (groups: Option<Vec<Option<String>>>)
    ensures
        group_texts(groups) == regex_captures(pattern@, text@),
{
    match regex::Regex::new(pattern) {
        Err(_) => None,
        Ok(re) => re.captures(text).map(
            |caps| caps.iter().map(|m| m.map(|found| found.as_str().to_string())).collect(),
        ),
    }
}

/// What the regular expression `pattern` captures in `text` match by match:
/// `None` where `pattern` is no regular expression; else, for every match
/// from the left, none overlapping another, the text of every capture
/// group as in `regex_captures`.
pub uninterp spec fn regex_all_captures(pattern: Seq<char>, text: Seq<char>) -> Option<
    Seq<Seq<Option<Seq<char>>>>,
>;

/// The texts that the matches hold.
pub open spec fn match_texts(found: Option<Vec<Vec<Option<String>>>>) -> Option<
    Seq<Seq<Option<Seq<char>>>>,
> {
    match found {
        None => None,
        Some(v) => Some(Seq::new(v@.len(), |i: int| group_texts(Some(v@[i]))->0)),
    }
}

/// Compiles `pattern` with `Regex::new` of the regex crate and walks over
/// `text` with `Regex::captures_iter`. The result is `None` where the
/// pattern is refused, and else holds for every match what `Captures::iter`
/// yields, each group as the text that `Match::as_str` gives. Nothing is
/// claimed of the result but that the same pattern and text give the same
/// result.
#[verifier::external_body]
pub(crate) fn captures_all(pattern: &str, text: &str) -> (found: Option<Vec<Vec<Option<String>>>>)
    ensures
        match_texts(found) == regex_all_captures(pattern@, text@),
{
    match regex::Regex::new(pattern) {
        Err(_) => None,
        Ok(re) => Some(
            re.captures_iter(text).map(
                |caps| caps.iter().map(|m| m.map(|found| found.as_str().to_string())).collect(),
            ).collect(),
        ),
    }
}

/// The text of capture group `i`; `None` where there is no such group or it
/// took no part in the match.
pub open spec fn group_text(groups: Option<Seq<Option<Seq<char>>>>, i: int) -> Option<Seq<char>> {
    match groups {
        Some(g) => if 0 <= i < g.len() {
            g[i]
        } else {
            None
        },
        None => None,
    }
}

/// The number of capture groups of a match, the whole match counting as one;
/// zero where there is no match.
pub open spec fn group_count(groups: Option<Seq<Option<Seq<char>>>>) -> nat {
    match groups {
        Some(g) => g.len(),
        None => 0,
    }
}

/// The characters of capture group `i`.
pub fn group(groups: &Option<Vec<Option<String>>>, i: usize) -> (r: Option<Vec<char>>)
    ensures
        match r {
            Some(text) => group_text(group_texts(*groups), i as int) == Some(text@),
            None => group_text(group_texts(*groups), i as int) is None,
        },
{
    match groups {
        None => None,
        Some(g) => {
            if i >= g.len() {
                return None;
            }
            let ghost texts = group_texts(*groups)->0;
            assert(texts[i as int] == (match g@[i as int] {
                Some(s) => Some(s@),
                None => None,
            }));
            match &g[i] {
                None => None,
                Some(s) => Some(crate::text::chars_of(s.as_str())),
            }
        },
    }
}

/// The number of capture groups of a match.
pub fn count_groups(groups: &Option<Vec<Option<String>>>) -> (n: usize)
    ensures
        n == group_count(group_texts(*groups)),
{
    match groups {
        None => 0,
        Some(g) => g.len(),
    }
}

} // verus!
