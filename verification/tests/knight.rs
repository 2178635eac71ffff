//! The knight's journey, driven through the backtracking engine.

use backtracking::Problem;
use backtracking::Solutions;
use backtracking::journey::Journey;
use backtracking::position::Position;

#[test]
fn fill_possible_moves() {
    let journey = Journey::new(Position::new(0, 0));

    let mut possible = Vec::new();
    journey.extend_possibilities(&mut possible, &[]);
    assert_eq!(
        [Position::new(2, 1), Position::new(1, 2)].as_slice(),
        &possible
    )
}

#[test]
fn possible_moves_skip_visited_fields() {
    let mut journey = Journey::new(Position::new(0, 0));
    journey.what_if(Position::new(2, 1));

    let mut possible = Vec::new();
    journey.extend_possibilities(&mut possible, &[Position::new(2, 1)]);

    // From (2,1) the knight reaches eight fields minus the visited start.
    assert_eq!(5, possible.len());
    assert!(!possible.contains(&Position::new(0, 0)));
}

#[test]
fn play_then_undo_restores_the_journey() {
    let start = Position::new(3, 3);
    let mut journey = Journey::new(start);
    let fresh = Journey::new(start);

    journey.what_if(Position::new(5, 4));
    assert_ne!(fresh, journey);

    journey.undo(&Position::new(5, 4), &[]);
    assert_eq!(fresh, journey);
}

#[test]
fn play_then_undo_restores_a_deeper_journey() {
    let start = Position::new(0, 0);
    let first = Position::new(2, 1);
    let second = Position::new(4, 2);

    let mut journey = Journey::new(start);
    journey.what_if(first);
    let mut reference = journey.clone();

    journey.what_if(second);
    journey.undo(&second, &[first]);
    assert_eq!(reference, journey);

    // The engine-facing pair of operations is symmetric: playing again
    // gives the same state as before the undo.
    reference.what_if(second);
    journey.what_if(second);
    assert_eq!(reference, journey);
}

#[test]
fn first_tour_visits_every_field_once() {
    let journey = Journey::new(Position::new(0, 0));
    let mut solutions = Solutions::new(journey);

    let tour = solutions.next().expect("an 8 by 8 knight's tour exists");
    let moves = tour.moves();

    assert_eq!(64, moves.len());
    assert_eq!(Position::new(0, 0), moves[0]);

    // The second field is one of the two legal knight moves from the
    // corner.
    assert!(moves[1] == Position::new(2, 1) || moves[1] == Position::new(1, 2));

    // All 64 fields are distinct.
    let mut seen = [false; 64];
    for position in moves {
        assert!(!seen[position.as_index()]);
        seen[position.as_index()] = true;
    }
}

#[test]
fn tour_text_lists_the_fields_in_order() {
    let journey = Journey::new(Position::new(0, 0));
    let mut solutions = Solutions::new(journey);

    let tour = solutions.next().expect("an 8 by 8 knight's tour exists");
    let text = tour.to_string();

    let names: Vec<&str> = text.split(' ').collect();
    assert_eq!(64, names.len());
    assert_eq!("A1", names[0]);
    assert!(names[1] == "C2" || names[1] == "B3");
}
