//! Match formats, win weights, and k-factor brackets.
//!
//! A `KBracket` is a threshold rule: ratings at or above `start` fall under
//! the bracket, and the bracket with the highest satisfied threshold decides
//! the volatility coefficient used for a match. The coefficient itself and
//! the per-format win weights are opaque 32-bit payloads (see the crate
//! documentation); the threshold `start` is an integer rating floor, and the
//! lookup compares it against the floor of the combined rating, which is
//! exact because the threshold is an integer.

use vstd::prelude::*;

verus! {

/// A match format: best-of-1, best-of-3 or best-of-5.
#[derive(Clone, Copy, PartialEq, Eq, Structural, Debug)]
pub enum SeriesKind {
    Bo1,
    Bo3,
    Bo5,
}

/// A volatility bracket: every combined rating at or above `start` (an
/// integer rating floor) satisfies the bracket, and `k` is the opaque payload
/// of its volatility coefficient.
#[derive(Clone, Copy, PartialEq, Eq, Structural, Debug)]
pub struct KBracket {
    pub start: u32,
    pub k: u32,
}

/// The engine's configuration: one win-weight payload per match format, and
/// the set of k-factor brackets.
#[derive(Debug)]
pub struct Configuration {
    pub bo1_score: u32,
    pub bo3_score: u32,
    pub bo5_score: u32,
    pub k_brackets: Vec<KBracket>,
}

/// The win weight a configuration assigns to a match format.
pub open spec fn spec_series_win_weight(config: Configuration, series: SeriesKind) -> u32 {
    match series {
        SeriesKind::Bo1 => config.bo1_score,
        SeriesKind::Bo3 => config.bo3_score,
        SeriesKind::Bo5 => config.bo5_score,
    }
}

/// Looks up the win weight for a match format. Total: every format has
/// exactly one configured weight.
pub fn series_win_weight(config: &Configuration, series: SeriesKind) -> (weight: u32)
    ensures
        weight == spec_series_win_weight(*config, series),
{
    match series {
        SeriesKind::Bo1 => config.bo1_score,
        SeriesKind::Bo3 => config.bo3_score,
        SeriesKind::Bo5 => config.bo5_score,
    }
}

/// The bracket that decides the volatility coefficient for `rating`: the one
/// with the highest threshold not above `rating`. When several brackets share
/// that threshold, the one latest in the configured order wins (the
/// deterministic tie-break this library commits to). `None` when every
/// threshold lies above `rating`.
pub open spec fn chosen_bracket(brackets: Seq<KBracket>, rating: int) -> Option<KBracket>
    decreases brackets.len(),
{
    if brackets.len() == 0 {
        None
    } else {
        let last = brackets[brackets.len() - 1];
        let rest = chosen_bracket(brackets.drop_last(), rating);
        if last.start <= rating {
            match rest {
                None => Some(last),
                Some(c) => if last.start >= c.start {
                    Some(last)
                } else {
                    Some(c)
                },
            }
        } else {
            rest
        }
    }
}

/// The volatility coefficient payload resolved for `rating`, if any bracket
/// covers it.
pub open spec fn resolved_k(brackets: Seq<KBracket>, rating: int) -> Option<u32> {
    match chosen_bracket(brackets, rating) {
        None => None,
        Some(b) => Some(b.k),
    }
}

/// Resolves the volatility coefficient for a combined rating, given as the
/// floor `rating` of that (real-valued) combined rating: the coefficient of
/// the bracket with the highest threshold still satisfied, or `None` when no
/// bracket's threshold lies at or below the rating. The latter is the
/// recoverable condition that makes a single match unresolvable.
pub fn scaling_for_rating(rating: i64, k_brackets: &Vec<KBracket>) -> (k: Option<u32>)
    ensures
        k == resolved_k(k_brackets@, rating as int),
{
    let mut chosen: Option<KBracket> = None;
    let mut i: usize = 0;
    while i < k_brackets.len()
        invariant
            i <= k_brackets.len(),
            chosen == chosen_bracket(k_brackets@.take(i as int), rating as int),
        decreases k_brackets.len() - i,
    {
        let b = k_brackets[i];
        let qualifies = (b.start as i64) <= rating;
        let replaces = match chosen {
            None => true,
            Some(c) => b.start >= c.start,
        };
        proof {
            assert(k_brackets@.take(i + 1).drop_last() =~= k_brackets@.take(i as int));
        }
        if qualifies && replaces {
            chosen = Some(b);
        }
        i = i + 1;
    }
    proof {
        assert(k_brackets@.take(k_brackets@.len() as int) =~= k_brackets@);
    }
    match chosen {
        None => None,
        Some(b) => Some(b.k),
    }
}

/// Bracket resolution is monotone in the thresholds: a resolved bracket is
/// one of the configured brackets, its threshold is satisfied by the rating,
/// and no configured bracket with a satisfied threshold has a higher one.
/// Resolution fails exactly when every configured threshold exceeds the
/// rating.
pub proof fn lemma_chosen_bracket_is_highest_satisfied(brackets: Seq<KBracket>, rating: int)
    ensures
        match chosen_bracket(brackets, rating) {
            Some(b) => {
                &&& exists|i: int| 0 <= i < brackets.len() && brackets[i] == b
                &&& b.start <= rating
                &&& forall|i: int|
                    0 <= i < brackets.len() && brackets[i].start <= rating ==> brackets[i].start
                        <= b.start
            },
            None => forall|i: int| 0 <= i < brackets.len() ==> brackets[i].start > rating,
        },
    decreases brackets.len(),
{
    if brackets.len() == 0 {
    } else {
        let prefix = brackets.drop_last();
        let last = brackets[brackets.len() - 1];
        lemma_chosen_bracket_is_highest_satisfied(prefix, rating);
        assert(forall|i: int| 0 <= i < prefix.len() ==> prefix[i] == brackets[i]);
        match chosen_bracket(brackets, rating) {
            Some(b) => {
                if b == last && last.start <= rating {
                    assert(brackets[brackets.len() - 1] == b);
                } else {
                    let j = choose|j: int| 0 <= j < prefix.len() && prefix[j] == b;
                    assert(brackets[j] == b);
                }
            },
            None => {},
        }
    }
}

} // verus!
