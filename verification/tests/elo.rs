use bracket_odds::bracket::Player;
use bracket_odds::predictor::{victory_probability, Elo, Predictor, SCALE};

fn player(name: &str, elo: i32, draw: usize) -> Player {
    Player { name: name.into(), elo, draw }
}

fn as_float(chance: u64) -> f64 {
    chance as f64 / SCALE as f64
}

fn logistic(player_elo: i32, opponent_elo: i32) -> f64 {
    let diff = f64::from(opponent_elo) - f64::from(player_elo);
    1.0 / (1.0 + 10.0f64.powf(diff / 400.0))
}

#[test]
fn test_elo() {
    let players = [
        player("Ettu", 1210, 0),
        player("Ser", 1180, 1),
        player("Sujoy", 1425, 2),
        player("Fragga", 1550, 3),
        player("Cooller", 1310, 4),
        player("Atomic", 3580, 5),
        player("Pietro", 1325, 6),
        player("Coerj", 1625, 7),
        player("Ettu", 2410, 8),
        player("Ser", 2180, 9),
        player("Sujoy", 2425, 10),
        player("Fragga", 2500, 11),
        player("Cooller", 2410, 12),
        player("Atomic", 2780, 13),
        player("Pietro", 2425, 14),
        player("Coerj", 2500, 15),
        player("Ettu", 1210, 16),
        player("Ser", 1180, 17),
        player("Sujoy", 1425, 18),
        player("Fragga", 150, 19),
        player("Cooller", 1310, 20),
        player("Atomic", 3580, 21),
        player("Pietro", 1325, 22),
        player("Coerj", 1625, 23),
        player("Ettu", 2410, 24),
        player("Ser", 2180, 25),
        player("Sujoy", 2425, 26),
        player("Fragga", 2500, 27),
        player("Cooller", 2410, 28),
        player("Atomic", 2780, 29),
        player("Pietro", 2425, 30),
        player("Coerj", 2500, 31),
    ];
    for p in &players {
        for q in &players {
            let t = as_float(p.beats(q)) + as_float(q.beats(p));
            assert!(0.99999f64 < t && t < 1.00001f64)
        }
    }
}

#[test]
fn chances_of_both_sides_add_up_exactly() {
    let ratings = [i32::MIN, -5000, -1, 0, 1, 150, 1180, 1400, 1600, 3580, i32::MAX];
    for &a in &ratings {
        for &b in &ratings {
            assert_eq!(victory_probability(a, b) + victory_probability(b, a), SCALE);
        }
    }
}

#[test]
fn equal_ratings_give_one_half() {
    for rating in [i32::MIN, -1, 0, 1500, i32::MAX] {
        assert_eq!(victory_probability(rating, rating), SCALE / 2);
    }
}

#[test]
fn two_hundred_points_apart() {
    assert_eq!(victory_probability(1600, 1400), 759_746_926_647_957_852);
    assert_eq!(victory_probability(1400, 1600), 240_253_073_352_042_148);
    assert!((as_float(victory_probability(1600, 1400)) - 0.76).abs() < 0.001);
    assert!((as_float(victory_probability(1400, 1600)) - 0.24).abs() < 0.001);
}

#[test]
fn four_hundred_points_mean_ten_to_one() {
    assert_eq!(victory_probability(1000, 1400), SCALE / 11);
    assert_eq!(victory_probability(1400, 1000), SCALE - SCALE / 11);
    assert_eq!(victory_probability(0, 800), SCALE / 101);
    assert_eq!(victory_probability(0, 1200), SCALE / 1001);
}

#[test]
fn follows_the_logistic_curve() {
    let mut gap = -8000;
    while gap <= 8000 {
        for base in [-300, 0, 1500] {
            let fixed = as_float(victory_probability(base, base + gap));
            let float = logistic(base, base + gap);
            assert!((fixed - float).abs() < 1e-12, "gap {gap}: {fixed} against {float}");
        }
        gap += 1;
    }
}

#[test]
fn hopeless_and_certain() {
    assert_eq!(victory_probability(0, 7199), 1);
    assert_eq!(victory_probability(0, 7200), 0);
    assert_eq!(victory_probability(7200, 0), SCALE);
    assert_eq!(victory_probability(i32::MIN, i32::MAX), 0);
    assert_eq!(victory_probability(i32::MAX, i32::MIN), SCALE);
}

#[test]
fn the_predictor_is_the_curve() {
    assert_eq!(Elo.predict(1600, 1400), victory_probability(1600, 1400));
    assert_eq!(Elo.predict(1210, 3580), victory_probability(1210, 3580));
    assert_eq!(player("a", 1210, 1).beats(&player("b", 3580, 2)), victory_probability(1210, 3580));
}

#[test]
fn a_higher_rating_is_never_less_likely_to_win() {
    let mut last = victory_probability(-9000, 0);
    for rating in -8999..=9000 {
        let chance = victory_probability(rating, 0);
        assert!(chance >= last, "at a rating of {rating}");
        assert_eq!(victory_probability(0, rating), SCALE - chance);
        last = chance;
    }
    assert!(victory_probability(1500, 1501) < victory_probability(1500, 1500));
    assert!(victory_probability(1501, 1500) > victory_probability(1500, 1500));
}
