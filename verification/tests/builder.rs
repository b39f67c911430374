use bracket_odds::bracket::{build_bracket, LoadError, Player, TournamentInfo, TournamentStructure};

fn player(name: &str, elo: i32, draw: usize) -> Player {
    Player { name: name.into(), elo, draw }
}

fn sized(size: Option<usize>) -> TournamentInfo {
    TournamentInfo { structure: TournamentStructure::SingleElimination, size }
}

#[test]
fn everybody_sits_at_the_place_before_the_draw() {
    let entrants = vec![player("c", 3, 3), player("a", 1, 1), player("e", 5, 5)];
    let bracket = build_bracket(&entrants, &sized(Some(8))).unwrap();
    assert_eq!(
        bracket,
        vec![Some(player("a", 1, 1)), None, Some(player("c", 3, 3)), None, Some(player("e", 5, 5)), None, None, None]
    );
    assert_eq!(build_bracket(&entrants, &sized(None)), Err(LoadError::DrawOutOfRange));
    let entrants = vec![player("d", 4, 4), player("a", 1, 1), player("c", 3, 3)];
    let bracket = build_bracket(&entrants, &sized(None)).unwrap();
    assert_eq!(bracket, vec![Some(player("a", 1, 1)), None, Some(player("c", 3, 3)), Some(player("d", 4, 4))]);
}

#[test]
fn the_least_power_of_two_that_holds_all() {
    for count in 2..40usize {
        let entrants: Vec<Player> = (1..=count).map(|draw| player("x", 0, draw)).collect();
        let bracket = build_bracket(&entrants, &sized(None)).unwrap();
        assert!(bracket.len().is_power_of_two());
        assert!(bracket.len() >= count && bracket.len() / 2 < count);
        assert_eq!(bracket.iter().filter(|place| place.is_some()).count(), count);
    }
}

#[test]
fn the_configured_size() {
    let entrants = vec![player("a", 1, 16), player("b", 2, 1)];
    let bracket = build_bracket(&entrants, &sized(Some(16))).unwrap();
    assert_eq!(bracket.len(), 16);
    assert_eq!(bracket[15], Some(player("a", 1, 16)));
    assert_eq!(bracket[0], Some(player("b", 2, 1)));
    assert_eq!(build_bracket(&entrants, &sized(Some(8))), Err(LoadError::DrawOutOfRange));
    assert_eq!(build_bracket(&Vec::new(), &sized(Some(2))), Ok(vec![None, None]));
}

#[test]
fn sizes_that_are_no_bracket() {
    let entrants = vec![player("a", 1, 1), player("b", 2, 2)];
    for size in [0, 1, 3, 5, 6, 12, usize::MAX] {
        assert_eq!(build_bracket(&entrants, &sized(Some(size))), Err(LoadError::InvalidSize));
    }
}

#[test]
fn nobody_or_one_alone() {
    assert_eq!(build_bracket(&Vec::new(), &sized(None)), Err(LoadError::BracketTooSmall));
    assert_eq!(build_bracket(&vec![player("a", 1, 1)], &sized(None)), Err(LoadError::BracketTooSmall));
}

#[test]
fn positions_outside_the_bracket() {
    let out = Err(LoadError::DrawOutOfRange);
    assert_eq!(build_bracket(&vec![player("a", 1, 0), player("b", 2, 2)], &sized(None)), out);
    assert_eq!(build_bracket(&vec![player("a", 1, 1), player("b", 2, 3)], &sized(None)), out);
    assert_eq!(build_bracket(&vec![player("a", 1, 1), player("b", 2, usize::MAX)], &sized(None)), out);
}

#[test]
fn positions_taken_twice() {
    let twice = Err(LoadError::DuplicateDraw);
    assert_eq!(build_bracket(&vec![player("a", 1, 1), player("b", 2, 1)], &sized(None)), twice);
    assert_eq!(build_bracket(&vec![player("a", 1, 2), player("b", 2, 1), player("c", 3, 2)], &sized(None)), twice);
}

#[test]
fn the_first_fault_in_order_decides() {
    let entrants = vec![player("a", 1, 1), player("b", 2, 1), player("c", 3, 9)];
    assert_eq!(build_bracket(&entrants, &sized(None)), Err(LoadError::DuplicateDraw));
    let entrants = vec![player("a", 1, 1), player("c", 3, 9), player("b", 2, 1)];
    assert_eq!(build_bracket(&entrants, &sized(None)), Err(LoadError::DrawOutOfRange));
    assert_eq!(build_bracket(&entrants, &sized(Some(3))), Err(LoadError::InvalidSize));
}
