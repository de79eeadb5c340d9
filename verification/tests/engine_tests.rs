//! End-to-end tests of the rating engine, driven with the real floating-point
//! arithmetic that the surrounding application supplies: ratings, k-factors
//! and win weights travel through the engine as `f32` bit patterns.

use elo_engine::config::Configuration;
use elo_engine::config::KBracket;
use elo_engine::config::SeriesKind;
use elo_engine::config::scaling_for_rating;
use elo_engine::config::series_win_weight;
use elo_engine::engine::MatchResult;
use elo_engine::engine::apply_match_result;
use elo_engine::engine::apply_match_results;
use elo_engine::table::Standings;

/// The floor of the arithmetic mean of two ratings, handed to the engine for
/// its bracket lookup.
fn floor_of_mean(a_bits: u32, b_bits: u32) -> i64 {
    let mean = (f32::from_bits(a_bits) + f32::from_bits(b_bits)) / 2f32;
    mean.floor() as i64
}

/// The logistic expected-score model: the probability of each side winning.
fn expected_probabilities(rating1: f32, rating2: f32) -> (f32, f32) {
    let p1 = 1f32 / (1f32 + f32::powf(10f32, (rating2 - rating1) / 400f32));
    let p2 = 1f32 / (1f32 + f32::powf(10f32, (rating1 - rating2) / 400f32));
    (p1, p2)
}

/// The Elo update formula: the winner's actual score is the format weight,
/// the loser's is zero.
fn adjust(winner_bits: u32, loser_bits: u32, k_bits: u32, score_bits: u32) -> (u32, u32) {
    let winner = f32::from_bits(winner_bits);
    let loser = f32::from_bits(loser_bits);
    let k = f32::from_bits(k_bits);
    let score = f32::from_bits(score_bits);
    let (p_winner, p_loser) = expected_probabilities(winner, loser);
    let new_winner = winner + k * (score - p_winner);
    let new_loser = loser + k * (0f32 - p_loser);
    (new_winner.to_bits(), new_loser.to_bits())
}

fn simple_config(k: f32) -> Configuration {
    Configuration {
        bo1_score: 1f32.to_bits(),
        bo3_score: 2f32.to_bits(),
        bo5_score: 3f32.to_bits(),
        k_brackets: vec![KBracket { start: 0, k: k.to_bits() }],
    }
}

fn table(entries: &[(&str, f32)]) -> Standings {
    let mut t = Standings::new();
    for (name, rating) in entries {
        t.set(&name.to_string(), rating.to_bits());
    }
    t
}

fn rating_of(t: &Standings, name: &str) -> f32 {
    f32::from_bits(t.get(&name.to_string()).expect("entity should be present"))
}

fn beats(winner: &str, loser: &str, series: SeriesKind) -> MatchResult {
    MatchResult { winner: winner.to_string(), loser: loser.to_string(), series }
}

#[test]
fn equal_ratings_exact_update() {
    let standings = table(&[("A", 1000f32), ("B", 1000f32)]);
    let config = simple_config(20f32);
    let matches = vec![beats("A", "B", SeriesKind::Bo1)];
    let out = apply_match_results(&matches, &standings, &config, &floor_of_mean, &adjust)
        .expect("sequence should succeed");
    assert_eq!(rating_of(&out, "A"), 1010f32);
    assert_eq!(rating_of(&out, "B"), 990f32);
}

#[test]
fn format_weight_scales_the_win() {
    let standings = table(&[("A", 1000f32), ("B", 1000f32)]);
    let config = simple_config(20f32);
    let matches = vec![beats("A", "B", SeriesKind::Bo3)];
    let out = apply_match_results(&matches, &standings, &config, &floor_of_mean, &adjust)
        .expect("sequence should succeed");
    // winner: 1000 + 20 * (2 - 0.5); loser: 1000 + 20 * (0 - 0.5)
    assert_eq!(rating_of(&out, "A"), 1030f32);
    assert_eq!(rating_of(&out, "B"), 990f32);
}

#[test]
fn win_weight_lookup_is_per_format() {
    let config = simple_config(20f32);
    assert_eq!(series_win_weight(&config, SeriesKind::Bo1), 1f32.to_bits());
    assert_eq!(series_win_weight(&config, SeriesKind::Bo3), 2f32.to_bits());
    assert_eq!(series_win_weight(&config, SeriesKind::Bo5), 3f32.to_bits());
}

#[test]
fn bracket_monotonic_resolution() {
    let brackets = vec![
        KBracket { start: 0, k: 10f32.to_bits() },
        KBracket { start: 1500, k: 5f32.to_bits() },
    ];
    assert_eq!(scaling_for_rating(1200, &brackets), Some(10f32.to_bits()));
    assert_eq!(scaling_for_rating(1600, &brackets), Some(5f32.to_bits()));
    assert_eq!(scaling_for_rating(-5, &brackets), None);
}

#[test]
fn bracket_order_of_declaration_is_irrelevant() {
    let brackets = vec![
        KBracket { start: 1500, k: 5f32.to_bits() },
        KBracket { start: 0, k: 10f32.to_bits() },
    ];
    assert_eq!(scaling_for_rating(1200, &brackets), Some(10f32.to_bits()));
    assert_eq!(scaling_for_rating(1600, &brackets), Some(5f32.to_bits()));
}

#[test]
fn bracket_tie_break_takes_the_later_bracket() {
    let brackets = vec![
        KBracket { start: 100, k: 10f32.to_bits() },
        KBracket { start: 100, k: 7f32.to_bits() },
    ];
    assert_eq!(scaling_for_rating(250, &brackets), Some(7f32.to_bits()));
}

#[test]
fn missing_entity_aborts_the_whole_sequence() {
    let standings = table(&[("A", 1000f32), ("B", 1000f32)]);
    let config = simple_config(20f32);
    // The first match is fine; the second names an unknown entity.
    let matches = vec![beats("A", "B", SeriesKind::Bo1), beats("A", "C", SeriesKind::Bo1)];
    let out = apply_match_results(&matches, &standings, &config, &floor_of_mean, &adjust);
    assert!(out.is_none());
    // The input table is untouched by the successfully-applied first match.
    assert_eq!(rating_of(&standings, "A"), 1000f32);
    assert_eq!(rating_of(&standings, "B"), 1000f32);
}

#[test]
fn missing_entity_skips_the_single_match() {
    let standings = table(&[("A", 1000f32)]);
    let config = simple_config(20f32);
    let m = beats("A", "B", SeriesKind::Bo1);
    assert!(apply_match_result(&m, &standings, &config, &floor_of_mean, &adjust).is_none());
}

#[test]
fn unreachable_bracket_aborts() {
    let standings = table(&[("A", 1000f32), ("B", 1000f32)]);
    let config = Configuration {
        bo1_score: 1f32.to_bits(),
        bo3_score: 2f32.to_bits(),
        bo5_score: 3f32.to_bits(),
        k_brackets: vec![KBracket { start: 1500, k: 20f32.to_bits() }],
    };
    let matches = vec![beats("A", "B", SeriesKind::Bo1)];
    let out = apply_match_results(&matches, &standings, &config, &floor_of_mean, &adjust);
    assert!(out.is_none());
}

#[test]
fn empty_match_list_keeps_the_table() {
    let standings = table(&[("A", 1234.5f32), ("B", 987.25f32)]);
    let config = simple_config(20f32);
    let matches: Vec<MatchResult> = Vec::new();
    let out = apply_match_results(&matches, &standings, &config, &floor_of_mean, &adjust)
        .expect("empty sequence should succeed");
    assert_eq!(rating_of(&out, "A"), 1234.5f32);
    assert_eq!(rating_of(&out, "B"), 987.25f32);
}

#[test]
fn later_matches_see_earlier_updates() {
    let standings = table(&[("A", 1000f32), ("B", 1000f32)]);
    let config = simple_config(20f32);
    let matches = vec![beats("A", "B", SeriesKind::Bo1), beats("A", "B", SeriesKind::Bo1)];
    let out = apply_match_results(&matches, &standings, &config, &floor_of_mean, &adjust)
        .expect("sequence should succeed");
    // Replay the two steps by hand with the same arithmetic.
    let (a1, b1) = adjust(1000f32.to_bits(), 1000f32.to_bits(), 20f32.to_bits(), 1f32.to_bits());
    let (a2, b2) = adjust(a1, b1, 20f32.to_bits(), 1f32.to_bits());
    assert_eq!(rating_of(&out, "A"), f32::from_bits(a2));
    assert_eq!(rating_of(&out, "B"), f32::from_bits(b2));
    // And the second step really changed something over the first.
    assert_ne!(f32::from_bits(a1), f32::from_bits(a2));
}

#[test]
fn ordering_of_matches_is_significant() {
    let config = simple_config(20f32);
    let forward = vec![beats("A", "B", SeriesKind::Bo1), beats("B", "C", SeriesKind::Bo1)];
    let backward = vec![beats("B", "C", SeriesKind::Bo1), beats("A", "B", SeriesKind::Bo1)];
    let entries = [("A", 1100f32), ("B", 1000f32), ("C", 900f32)];
    let out_forward =
        apply_match_results(&forward, &table(&entries), &config, &floor_of_mean, &adjust)
            .expect("sequence should succeed");
    let out_backward =
        apply_match_results(&backward, &table(&entries), &config, &floor_of_mean, &adjust)
            .expect("sequence should succeed");
    // B's rating changes between the two steps, so the final tables differ.
    assert_ne!(rating_of(&out_forward, "B"), rating_of(&out_backward, "B"));
}

#[test]
fn probabilities_are_symmetric() {
    // The logistic model the application supplies: complementary outcomes,
    // and a coin flip between equal ratings.
    for (a, b) in [(1000f32, 1000f32), (1200f32, 800f32), (875.5f32, 1433.25f32)] {
        let (pa, pb) = expected_probabilities(a, b);
        assert!((pa + pb - 1f32).abs() < 1e-6);
    }
    let (pa, pb) = expected_probabilities(1000f32, 1000f32);
    assert_eq!(pa, 0.5f32);
    assert_eq!(pb, 0.5f32);
}

#[test]
fn table_set_replaces_and_keeps_order() {
    let mut t = Standings::new();
    t.set(&"A".to_string(), 1f32.to_bits());
    t.set(&"B".to_string(), 2f32.to_bits());
    t.set(&"A".to_string(), 3f32.to_bits());
    assert_eq!(t.get(&"A".to_string()), Some(3f32.to_bits()));
    assert_eq!(t.get(&"B".to_string()), Some(2f32.to_bits()));
    assert_eq!(t.get(&"C".to_string()), None);
    let pairs = t.pairs();
    assert_eq!(pairs.len(), 2);
    assert_eq!(pairs[0].0, "A");
    assert_eq!(pairs[0].1, 3f32.to_bits());
    assert_eq!(pairs[1].0, "B");
}

#[test]
fn standings_snapshot_round_trips_through_json() {
    let t = table(&[("Alpha", 1000.5f32), ("Beta", -3.25f32), ("Gamma", 1500f32)]);
    let mut snapshot = std::collections::HashMap::<String, f32>::new();
    for (name, bits) in t.pairs() {
        snapshot.insert(name, f32::from_bits(bits));
    }
    let text = serde_json::to_string(&snapshot).expect("serializing should succeed");
    let back: std::collections::HashMap<String, f32> =
        serde_json::from_str(&text).expect("deserializing should succeed");
    assert_eq!(snapshot, back);
    // And the reread snapshot rebuilds an identical table.
    let mut rebuilt = Standings::new();
    for (name, rating) in &back {
        rebuilt.set(name, rating.to_bits());
    }
    for name in ["Alpha", "Beta", "Gamma"] {
        assert_eq!(rating_of(&rebuilt, name), rating_of(&t, name));
    }
}
