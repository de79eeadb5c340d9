//! The rating updater and the match sequencer.
//!
//! A match is applied to a standings table in three decisions and two pieces
//! of arithmetic. The decisions — are both participants in the table, does a
//! bracket cover the combined rating, which win weight does the format get,
//! and which two entries of the table change — are verified here. The
//! arithmetic — averaging the two ratings down to an integer floor, and the
//! Elo update formula itself — works on real numbers, which verified code
//! cannot hold, so the caller supplies it as two closures over the opaque
//! payloads. Every contract states the engine's behaviour relative to
//! whatever values those closures return, via `call_ensures`.
//!
//! The sequencer applies an ordered list of matches as a strict left-to-right
//! fold: each match sees the table produced by its predecessors, and the
//! first unresolvable match aborts the whole run with no result at all.

use vstd::prelude::*;

use crate::config::Configuration;
use crate::config::resolved_k;
use crate::config::scaling_for_rating;
use crate::config::series_win_weight;
use crate::config::spec_series_win_weight;
use crate::table::Standings;

verus! {

/// One decided match: who won, who lost, and in which series format.
#[derive(Debug)]
pub struct MatchResult {
    pub winner: String,
    pub loser: String,
    pub series: crate::config::SeriesKind,
}

/// The match `m` cannot be applied to table `t`: a participant is missing,
/// or the combined-rating floor that `floor_of_mean` can return resolves to
/// no bracket.
pub open spec fn skip_match<FM: Fn(u32, u32) -> i64>(
    config: Configuration,
    floor_of_mean: FM,
    m: MatchResult,
    t: Map<Seq<char>, u32>,
) -> bool {
    ||| !t.contains_key(m.winner@)
    ||| !t.contains_key(m.loser@)
    ||| exists|floor: i64|
        #[trigger] call_ensures(floor_of_mean, (t[m.winner@], t[m.loser@]), floor)
            && resolved_k(config.k_brackets@, floor as int) is None
}

/// Applying match `m` to table `t` can produce table `t2`: both participants
/// are present, some floor of their combined rating returned by
/// `floor_of_mean` resolves to a bracket coefficient `k`, `adjust` can turn
/// the two ratings, `k` and the format's win weight into the two new
/// ratings, and `t2` is `t` with exactly the winner's and loser's entries
/// replaced by them.
pub open spec fn step_match<FM: Fn(u32, u32) -> i64, FA: Fn(u32, u32, u32, u32) -> (u32, u32)>(
    config: Configuration,
    floor_of_mean: FM,
    adjust: FA,
    m: MatchResult,
    t: Map<Seq<char>, u32>,
    t2: Map<Seq<char>, u32>,
) -> bool {
    exists|floor: i64, k: u32, new_ratings: (u32, u32)|
        {
            &&& t.contains_key(m.winner@)
            &&& t.contains_key(m.loser@)
            &&& #[trigger] call_ensures(floor_of_mean, (t[m.winner@], t[m.loser@]), floor)
            &&& resolved_k(config.k_brackets@, floor as int) == Some(k)
            &&& #[trigger] call_ensures(
                adjust,
                (t[m.winner@], t[m.loser@], k, spec_series_win_weight(config, m.series)),
                new_ratings,
            )
            &&& t2 == t.insert(m.winner@, new_ratings.0).insert(m.loser@, new_ratings.1)
        }
}

/// The sequencer's all-or-nothing semantics: `outcome` is a possible result
/// of folding `results` over table `t`. An empty list yields the table
/// unchanged; otherwise either the first match can be skipped and the whole
/// run aborts with no table, or the first match can step the table and the
/// rest of the fold continues from the stepped table.
pub open spec fn sequence_outcome<
    FM: Fn(u32, u32) -> i64,
    FA: Fn(u32, u32, u32, u32) -> (u32, u32),
>(
    config: Configuration,
    floor_of_mean: FM,
    adjust: FA,
    results: Seq<MatchResult>,
    t: Map<Seq<char>, u32>,
    outcome: Option<Map<Seq<char>, u32>>,
) -> bool
    decreases results.len(),
{
    if results.len() == 0 {
        outcome == Some(t)
    } else {
        ||| (skip_match(config, floor_of_mean, results[0], t) && outcome is None)
        ||| exists|t2: Map<Seq<char>, u32>|
            #[trigger] step_match(config, floor_of_mean, adjust, results[0], t, t2)
                && sequence_outcome(
                config,
                floor_of_mean,
                adjust,
                results.drop_first(),
                t2,
                outcome,
            )
    }
}

/// Applies one match to the standings: looks both participants up, resolves
/// the bracket coefficient for the floor of their combined rating, weighs
/// the win by the series format, and produces a new table with exactly the
/// two participants' ratings replaced by what `adjust` returns. `None`
/// exactly when the match must be skipped: a participant is missing, or no
/// bracket covers the combined rating.
pub fn apply_match_result<FM: Fn(u32, u32) -> i64, FA: Fn(u32, u32, u32, u32) -> (u32, u32)>(
    result: &MatchResult,
    standings: &Standings,
    config: &Configuration,
    floor_of_mean: &FM,
    adjust: &FA,
) -> (updated: Option<Standings>)
    requires
        standings.wf(),
        forall|a: u32, b: u32| #[trigger] call_requires(*floor_of_mean, (a, b)),
        forall|a: u32, b: u32, k: u32, s: u32| #[trigger] call_requires(*adjust, (a, b, k, s)),
    ensures
        match updated {
            Some(u) => u.wf() && step_match(
                *config,
                *floor_of_mean,
                *adjust,
                *result,
                standings@,
                u@,
            ),
            None => skip_match(*config, *floor_of_mean, *result, standings@),
        },
{
    let winner_rating = match standings.get(&result.winner) {
        Some(r) => r,
        None => { return None },
    };
    let loser_rating = match standings.get(&result.loser) {
        Some(r) => r,
        None => { return None },
    };
    let floor = floor_of_mean(winner_rating, loser_rating);
    let k = match scaling_for_rating(floor, &config.k_brackets) {
        Some(k) => k,
        None => {
            proof {
                assert(call_ensures(
                    *floor_of_mean,
                    (standings@[result.winner@], standings@[result.loser@]),
                    floor,
                ));
            }
            return None
        },
    };
    let weight = series_win_weight(config, result.series);
    let new_ratings = adjust(winner_rating, loser_rating, k, weight);
    let mut updated = standings.duplicate();
    updated.set(&result.winner, new_ratings.0);
    updated.set(&result.loser, new_ratings.1);
    proof {
        assert(call_ensures(
            *floor_of_mean,
            (standings@[result.winner@], standings@[result.loser@]),
            floor,
        ));
        assert(call_ensures(
            *adjust,
            (
                standings@[result.winner@],
                standings@[result.loser@],
                k,
                spec_series_win_weight(*config, result.series),
            ),
            new_ratings,
        ));
        assert(updated@ == standings@.insert(result.winner@, new_ratings.0).insert(
            result.loser@,
            new_ratings.1,
        ));
    }
    Some(updated)
}

/// Applies an ordered list of matches as a strict left-to-right fold over
/// the standings: each match is applied to the table produced by all earlier
/// matches, and the first match that must be skipped aborts the entire run —
/// `None`, with every already-computed update discarded. The result is
/// related to the inputs by `sequence_outcome`.
pub fn apply_match_results<FM: Fn(u32, u32) -> i64, FA: Fn(u32, u32, u32, u32) -> (u32, u32)>(
    results: &Vec<MatchResult>,
    standings: &Standings,
    config: &Configuration,
    floor_of_mean: &FM,
    adjust: &FA,
) -> (outcome: Option<Standings>)
    requires
        standings.wf(),
        forall|a: u32, b: u32| #[trigger] call_requires(*floor_of_mean, (a, b)),
        forall|a: u32, b: u32, k: u32, s: u32| #[trigger] call_requires(*adjust, (a, b, k, s)),
    ensures
        match outcome {
            Some(u) => u.wf() && sequence_outcome(
                *config,
                *floor_of_mean,
                *adjust,
                results@,
                standings@,
                Some(u@),
            ),
            None => sequence_outcome(
                *config,
                *floor_of_mean,
                *adjust,
                results@,
                standings@,
                None,
            ),
        },
{
    let mut acc = standings.duplicate();
    proof {
        assert(results@.skip(0) =~= results@);
    }
    let mut i: usize = 0;
    while i < results.len()
        invariant
            i <= results@.len(),
            acc.wf(),
            forall|a: u32, b: u32| #[trigger] call_requires(*floor_of_mean, (a, b)),
            forall|a: u32, b: u32, k: u32, s: u32| #[trigger] call_requires(*adjust, (a, b, k, s)),
            forall|o: Option<Map<Seq<char>, u32>>|
                sequence_outcome(
                    *config,
                    *floor_of_mean,
                    *adjust,
                    results@.skip(i as int),
                    acc@,
                    o,
                ) ==> #[trigger] sequence_outcome(
                    *config,
                    *floor_of_mean,
                    *adjust,
                    results@,
                    standings@,
                    o,
                ),
        decreases results@.len() - i,
    {
        let m = &results[i];
        match apply_match_result(m, &acc, config, floor_of_mean, adjust) {
            Some(next) => {
                proof {
                    let rest = results@.skip(i as int);
                    assert(rest[0] == results@[i as int]);
                    assert(rest.drop_first() =~= results@.skip(i as int + 1));
                    assert forall|o: Option<Map<Seq<char>, u32>>|
                        sequence_outcome(
                            *config,
                            *floor_of_mean,
                            *adjust,
                            results@.skip(i as int + 1),
                            next@,
                            o,
                        ) implies #[trigger] sequence_outcome(
                        *config,
                        *floor_of_mean,
                        *adjust,
                        results@,
                        standings@,
                        o,
                    ) by {
                        assert(step_match(
                            *config,
                            *floor_of_mean,
                            *adjust,
                            rest[0],
                            acc@,
                            next@,
                        ));
                        assert(sequence_outcome(
                            *config,
                            *floor_of_mean,
                            *adjust,
                            rest,
                            acc@,
                            o,
                        ));
                    }
                }
                acc = next;
            },
            None => {
                proof {
                    let rest = results@.skip(i as int);
                    assert(rest[0] == results@[i as int]);
                    assert(skip_match(*config, *floor_of_mean, rest[0], acc@));
                    assert(sequence_outcome(
                        *config,
                        *floor_of_mean,
                        *adjust,
                        rest,
                        acc@,
                        None,
                    ));
                }
                return None;
            },
        }
        i = i + 1;
    }
    proof {
        assert(results@.skip(results@.len() as int) =~= Seq::<MatchResult>::empty());
        assert(sequence_outcome(
            *config,
            *floor_of_mean,
            *adjust,
            results@.skip(results@.len() as int),
            acc@,
            Some(acc@),
        ));
    }
    Some(acc)
}

/// A match that references an entity absent from the table makes the whole
/// sequence abort: whatever the arithmetic closures return, and wherever the
/// offending match stands in the list, no final table is produced — the
/// matches before it leave no trace in the result.
pub proof fn lemma_missing_entity_aborts<
    FM: Fn(u32, u32) -> i64,
    FA: Fn(u32, u32, u32, u32) -> (u32, u32),
>(
    config: Configuration,
    floor_of_mean: FM,
    adjust: FA,
    results: Seq<MatchResult>,
    table: Map<Seq<char>, u32>,
    outcome: Option<Map<Seq<char>, u32>>,
    i: int,
)
    requires
        sequence_outcome(config, floor_of_mean, adjust, results, table, outcome),
        0 <= i < results.len(),
        !table.contains_key(results[i].winner@) || !table.contains_key(results[i].loser@),
    ensures
        outcome is None,
    decreases results.len(),
{
    if outcome is None {
    } else {
        let t2 = choose|t2: Map<Seq<char>, u32>|
            #[trigger] step_match(config, floor_of_mean, adjust, results[0], table, t2)
                && sequence_outcome(
                config,
                floor_of_mean,
                adjust,
                results.drop_first(),
                t2,
                outcome,
            );
        let (floor, k, new_ratings) = choose|floor: i64, k: u32, new_ratings: (u32, u32)|
            {
                &&& table.contains_key(results[0].winner@)
                &&& table.contains_key(results[0].loser@)
                &&& #[trigger] call_ensures(
                    floor_of_mean,
                    (table[results[0].winner@], table[results[0].loser@]),
                    floor,
                )
                &&& resolved_k(config.k_brackets@, floor as int) == Some(k)
                &&& #[trigger] call_ensures(
                    adjust,
                    (
                        table[results[0].winner@],
                        table[results[0].loser@],
                        k,
                        spec_series_win_weight(config, results[0].series),
                    ),
                    new_ratings,
                )
                &&& t2 == table.insert(results[0].winner@, new_ratings.0).insert(
                    results[0].loser@,
                    new_ratings.1,
                )
            };
        if i == 0 {
            assert(false);
        } else {
            assert(results.drop_first()[i - 1] == results[i]);
            assert(!t2.contains_key(results[i].winner@) || !t2.contains_key(
                results[i].loser@,
            ));
            lemma_missing_entity_aborts(
                config,
                floor_of_mean,
                adjust,
                results.drop_first(),
                t2,
                outcome,
                i - 1,
            );
        }
    }
}

/// The sequencer neither adds nor removes entities: a successful run yields
/// a table over exactly the entity names it started with.
pub proof fn lemma_sequence_preserves_entities<
    FM: Fn(u32, u32) -> i64,
    FA: Fn(u32, u32, u32, u32) -> (u32, u32),
>(
    config: Configuration,
    floor_of_mean: FM,
    adjust: FA,
    results: Seq<MatchResult>,
    table: Map<Seq<char>, u32>,
    updated: Map<Seq<char>, u32>,
)
    requires
        sequence_outcome(config, floor_of_mean, adjust, results, table, Some(updated)),
    ensures
        updated.dom() == table.dom(),
    decreases results.len(),
{
    if results.len() == 0 {
        assert(updated == table);
    } else {
        let t2 = choose|t2: Map<Seq<char>, u32>|
            #[trigger] step_match(config, floor_of_mean, adjust, results[0], table, t2)
                && sequence_outcome(
                config,
                floor_of_mean,
                adjust,
                results.drop_first(),
                t2,
                Some(updated),
            );
        let (floor, k, new_ratings) = choose|floor: i64, k: u32, new_ratings: (u32, u32)|
            {
                &&& table.contains_key(results[0].winner@)
                &&& table.contains_key(results[0].loser@)
                &&& #[trigger] call_ensures(
                    floor_of_mean,
                    (table[results[0].winner@], table[results[0].loser@]),
                    floor,
                )
                &&& resolved_k(config.k_brackets@, floor as int) == Some(k)
                &&& #[trigger] call_ensures(
                    adjust,
                    (
                        table[results[0].winner@],
                        table[results[0].loser@],
                        k,
                        spec_series_win_weight(config, results[0].series),
                    ),
                    new_ratings,
                )
                &&& t2 == table.insert(results[0].winner@, new_ratings.0).insert(
                    results[0].loser@,
                    new_ratings.1,
                )
            };
        assert(t2.dom() =~= table.dom());
        lemma_sequence_preserves_entities(
            config,
            floor_of_mean,
            adjust,
            results.drop_first(),
            t2,
            updated,
        );
    }
}

/// For deterministic arithmetic the sequencer's outcome is unique: when each
/// closure can return only one value per argument tuple, `sequence_outcome`
/// relates the match list and starting table to exactly one outcome — the
/// contract of `apply_match_results` then pins its result completely.
pub proof fn lemma_sequence_outcome_deterministic<
    FM: Fn(u32, u32) -> i64,
    FA: Fn(u32, u32, u32, u32) -> (u32, u32),
>(
    config: Configuration,
    floor_of_mean: FM,
    adjust: FA,
    results: Seq<MatchResult>,
    table: Map<Seq<char>, u32>,
    outcome1: Option<Map<Seq<char>, u32>>,
    outcome2: Option<Map<Seq<char>, u32>>,
)
    requires
        forall|args: (u32, u32), r1: i64, r2: i64|
            #[trigger] call_ensures(floor_of_mean, args, r1) && #[trigger] call_ensures(
                floor_of_mean,
                args,
                r2,
            ) ==> r1 == r2,
        forall|args: (u32, u32, u32, u32), r1: (u32, u32), r2: (u32, u32)|
            #[trigger] call_ensures(adjust, args, r1) && #[trigger] call_ensures(
                adjust,
                args,
                r2,
            ) ==> r1 == r2,
        sequence_outcome(config, floor_of_mean, adjust, results, table, outcome1),
        sequence_outcome(config, floor_of_mean, adjust, results, table, outcome2),
    ensures
        outcome1 == outcome2,
    decreases results.len(),
{
    if results.len() == 0 {
    } else {
        let m = results[0];
        let stepped1 = !(skip_match(config, floor_of_mean, m, table) && outcome1 is None);
        let stepped2 = !(skip_match(config, floor_of_mean, m, table) && outcome2 is None);
        if stepped1 && stepped2 {
            let t2a = choose|t2: Map<Seq<char>, u32>|
                #[trigger] step_match(config, floor_of_mean, adjust, m, table, t2)
                    && sequence_outcome(
                    config,
                    floor_of_mean,
                    adjust,
                    results.drop_first(),
                    t2,
                    outcome1,
                );
            let t2b = choose|t2: Map<Seq<char>, u32>|
                #[trigger] step_match(config, floor_of_mean, adjust, m, table, t2)
                    && sequence_outcome(
                    config,
                    floor_of_mean,
                    adjust,
                    results.drop_first(),
                    t2,
                    outcome2,
                );
            let (floor1, k1, nr1) = choose|floor: i64, k: u32, nr: (u32, u32)|
                {
                    &&& table.contains_key(m.winner@)
                    &&& table.contains_key(m.loser@)
                    &&& #[trigger] call_ensures(
                        floor_of_mean,
                        (table[m.winner@], table[m.loser@]),
                        floor,
                    )
                    &&& resolved_k(config.k_brackets@, floor as int) == Some(k)
                    &&& #[trigger] call_ensures(
                        adjust,
                        (table[m.winner@], table[m.loser@], k, spec_series_win_weight(config, m.series)),
                        nr,
                    )
                    &&& t2a == table.insert(m.winner@, nr.0).insert(m.loser@, nr.1)
                };
            let (floor2, k2, nr2) = choose|floor: i64, k: u32, nr: (u32, u32)|
                {
                    &&& table.contains_key(m.winner@)
                    &&& table.contains_key(m.loser@)
                    &&& #[trigger] call_ensures(
                        floor_of_mean,
                        (table[m.winner@], table[m.loser@]),
                        floor,
                    )
                    &&& resolved_k(config.k_brackets@, floor as int) == Some(k)
                    &&& #[trigger] call_ensures(
                        adjust,
                        (table[m.winner@], table[m.loser@], k, spec_series_win_weight(config, m.series)),
                        nr,
                    )
                    &&& t2b == table.insert(m.winner@, nr.0).insert(m.loser@, nr.1)
                };
            assert(floor1 == floor2);
            assert(k1 == k2);
            assert(nr1 == nr2);
            assert(t2a == t2b);
            lemma_sequence_outcome_deterministic(
                config,
                floor_of_mean,
                adjust,
                results.drop_first(),
                t2a,
                outcome1,
                outcome2,
            );
        } else if !stepped1 && !stepped2 {
        } else {
            let (skipped_outcome, stepped_t2) = if stepped1 {
                let t2 = choose|t2: Map<Seq<char>, u32>|
                    #[trigger] step_match(config, floor_of_mean, adjust, m, table, t2)
                        && sequence_outcome(
                        config,
                        floor_of_mean,
                        adjust,
                        results.drop_first(),
                        t2,
                        outcome1,
                    );
                (outcome2, t2)
            } else {
                let t2 = choose|t2: Map<Seq<char>, u32>|
                    #[trigger] step_match(config, floor_of_mean, adjust, m, table, t2)
                        && sequence_outcome(
                        config,
                        floor_of_mean,
                        adjust,
                        results.drop_first(),
                        t2,
                        outcome2,
                    );
                (outcome1, t2)
            };
            let (floor_s, k_s, nr_s) = choose|floor: i64, k: u32, nr: (u32, u32)|
                {
                    &&& table.contains_key(m.winner@)
                    &&& table.contains_key(m.loser@)
                    &&& #[trigger] call_ensures(
                        floor_of_mean,
                        (table[m.winner@], table[m.loser@]),
                        floor,
                    )
                    &&& resolved_k(config.k_brackets@, floor as int) == Some(k)
                    &&& #[trigger] call_ensures(
                        adjust,
                        (table[m.winner@], table[m.loser@], k, spec_series_win_weight(config, m.series)),
                        nr,
                    )
                    &&& stepped_t2 == table.insert(m.winner@, nr.0).insert(m.loser@, nr.1)
                };
            let floor_n = choose|floor: i64|
                #[trigger] call_ensures(floor_of_mean, (table[m.winner@], table[m.loser@]), floor)
                    && resolved_k(config.k_brackets@, floor as int) is None;
            assert(floor_n == floor_s);
            assert(false);
        }
    }
}

} // verus!
