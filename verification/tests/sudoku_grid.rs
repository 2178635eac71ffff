//! The sudoku puzzle, driven through the backtracking engine.

use backtracking::Problem;
use backtracking::Solutions;
use backtracking::sudoku::Sudoku;
use backtracking::sudoku::WriteDigit;

/// The example puzzle: a grid with a unique completion.
fn example_grid() -> [u8; 81] {
    [
        6, 0, 3, 0, 0, 0, 1, 0, 0, 0, 0, 9, 0, 0, 0, 2, 0, 0, 0, 0, 7, 4, 0, 9, 0, 0, 0, 0, 0, 0,
        0, 1, 0, 0, 0, 7, 4, 0, 0, 0, 6, 0, 0, 0, 0, 0, 0, 0, 0, 7, 0, 0, 5, 3, 0, 1, 0, 0, 0, 0,
        0, 4, 0, 0, 0, 6, 3, 0, 7, 0, 9, 0, 0, 9, 0, 0, 0, 2, 0, 3, 0,
    ]
}

const EXAMPLE_SOLVED: &str = "643725189\n\
    859631274\n\
    127489365\n\
    538914627\n\
    472563918\n\
    961278453\n\
    315896742\n\
    286347591\n\
    794152836\n";

#[test]
fn print_empty_sudoku() {
    let mut out = Vec::new();
    let game = Sudoku::new();

    game.print_to(&mut out).unwrap();

    let expect = "XXXXXXXXX\n\
        XXXXXXXXX\n\
        XXXXXXXXX\n\
        XXXXXXXXX\n\
        XXXXXXXXX\n\
        XXXXXXXXX\n\
        XXXXXXXXX\n\
        XXXXXXXXX\n\
        XXXXXXXXX\n\
    ";
    assert_eq!(expect, std::str::from_utf8(&out).unwrap());
}

#[test]
fn print_with_first_row_filled() {
    let mut out = Vec::new();
    let mut game = Sudoku::new();
    for digit in 1..=9 {
        game.what_if(WriteDigit {
            index: digit - 1,
            digit: digit as u8,
        });
    }

    game.print_to(&mut out).unwrap();

    let expect = "123456789\n\
        XXXXXXXXX\n\
        XXXXXXXXX\n\
        XXXXXXXXX\n\
        XXXXXXXXX\n\
        XXXXXXXXX\n\
        XXXXXXXXX\n\
        XXXXXXXXX\n\
        XXXXXXXXX\n\
    ";
    assert_eq!(expect, std::str::from_utf8(&out).unwrap());
}

#[test]
fn a_grid_from_a_slice_matches_the_grid_from_its_bytes() {
    let bytes = example_grid();
    let from_slice = Sudoku::from_slice(bytes.as_slice());
    let from_bytes = Sudoku::from_bytes(bytes);
    assert_eq!(from_bytes.render(), from_slice.render());
}

#[test]
fn the_default_grid_is_empty() {
    let game: Sudoku = Default::default();
    assert_eq!(Sudoku::new().render(), game.render());
}

#[test]
fn write_then_undo_restores_the_grid() {
    let mut game = Sudoku::from_bytes(example_grid());
    let before = game.render();

    let decision = WriteDigit { index: 1, digit: 4 };
    game.what_if(decision);
    assert_ne!(before, game.render());

    game.undo(&decision, &[]);
    assert_eq!(before, game.render());
}

#[test]
fn digits_present_in_the_row_are_not_offered() {
    let mut game = Sudoku::new();
    game.what_if(WriteDigit { index: 0, digit: 2 });
    game.what_if(WriteDigit { index: 8, digit: 5 });
    // Plays no role: neither same group, row nor column as cell 1.
    game.what_if(WriteDigit {
        index: 7 * 9 + 6,
        digit: 5,
    });

    let mut possible = Vec::new();
    game.extend_possibilities(&mut possible, &[]);

    let digits: Vec<u8> = possible.iter().map(|w| w.digit).collect();
    assert!(possible.iter().all(|w| w.index == 1));
    assert_eq!(vec![1u8, 3, 4, 6, 7, 8, 9], digits);
}

#[test]
fn digits_present_in_the_column_are_not_offered() {
    let mut game = Sudoku::new();
    game.what_if(WriteDigit { index: 0, digit: 1 });
    game.what_if(WriteDigit { index: 3, digit: 2 });
    game.what_if(WriteDigit {
        index: 3 + 9 * 5,
        digit: 5,
    });

    let mut possible = Vec::new();
    game.extend_possibilities(&mut possible, &[]);

    // The first free cell is cell 1; its column holds nothing yet, its
    // row holds 1 and 2.
    let digits: Vec<u8> = possible.iter().map(|w| w.digit).collect();
    assert_eq!(vec![3u8, 4, 5, 6, 7, 8, 9], digits);
}

#[test]
fn a_field_without_digits_offers_no_possibilities() {
    let mut game = Sudoku::new();
    for digit in 1..=8 {
        game.what_if(WriteDigit {
            index: digit - 1,
            digit: digit as u8,
        });
    }
    game.what_if(WriteDigit {
        index: 9 + 8,
        digit: 9,
    });

    let mut possible = Vec::new();
    game.extend_possibilities(&mut possible, &[]);

    // Cell 8 is free, but every digit is taken by its row or column.
    assert!(possible.is_empty());
}

#[test]
fn a_dead_end_grid_yields_no_solutions() {
    let mut bytes = [0u8; 81];
    for digit in 1..=8u8 {
        bytes[digit as usize - 1] = digit;
    }
    bytes[9 + 8] = 9;

    let mut solutions = Solutions::new(Sudoku::from_bytes(bytes));
    assert!(solutions.next().is_none());
}

#[test]
fn the_example_grid_is_solved() {
    let sudoku = Sudoku::from_bytes(example_grid());
    let mut solutions = Solutions::new(sudoku);

    let solved = solutions.next().expect("the example grid has a solution");
    assert_eq!(EXAMPLE_SOLVED, solved.render());
}

#[test]
fn the_example_grid_has_exactly_one_solution() {
    let sudoku = Sudoku::from_bytes(example_grid());
    let mut solutions = Solutions::new(sudoku);

    assert!(solutions.next().is_some());
    assert!(solutions.next().is_none());
    // Once exhausted, the sequence stays exhausted.
    assert!(solutions.next().is_none());
}

#[test]
fn an_empty_grid_is_completed() {
    let mut solutions = Solutions::new(Sudoku::new());

    let solved = solutions.next().expect("an empty grid can be filled");
    let text = solved.render();
    for line in text.lines() {
        for digit in 1..=9u8 {
            assert!(line.contains(char::from(b'0' + digit)));
        }
    }
}
