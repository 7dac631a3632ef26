use filler::contestant::Contestant;
use filler::game_analysis::GameAnalysis;
use filler::grid_matrix::Dimensions;
use filler::object::Object;
use filler::pitch::{Pitch, Position};
use filler::tactics::{are_we_touching_opponent, is_opponent_cell, is_our_cell};

fn create_test_game() -> GameAnalysis {
    let contestant = Contestant { number: 1, symbols: ('a', '@'), cells_captured: 0 };
    let opponent = Contestant { number: 2, symbols: ('s', '$'), cells_captured: 0 };

    let pitch = Pitch {
        dimensions: Dimensions { width: 4, height: 4 },
        cells: vec![
            vec!['.', 'a', '.', '.'], // Our robot at (0,1)
            vec!['.', '.', '.', '.'],
            vec!['.', '.', 's', '.'], // Opponent at (2,2)
            vec!['.', '.', '.', '.'],
        ],
    };

    GameAnalysis::new(contestant, opponent, pitch)
}

fn create_test_object() -> Object {
    Object {
        original_dimensions: Dimensions { width: 2, height: 2 },
        original_cells: vec![vec!['O', '.'], vec!['.', 'O']],
        trimmed_dimensions: Dimensions { width: 2, height: 2 },
        trimmed_cells: vec![vec!['O', '.'], vec!['.', 'O']],
        filled_cell_count: 2,
        trim_offset: (0, 0),
    }
}

#[test]
fn test_valid_placement() {
    let game = create_test_game();
    let object = create_test_object();

    // Place at (1,0) so object overlaps our 'a' at (0,1)
    let result = game.validate_placement(&object, Position { row: 0, col: 1 });

    assert!(result.is_some());
    let placement = result.unwrap();
    assert_eq!(placement.position.col, 1);
    assert_eq!(placement.position.row, 0);
}

#[test]
fn test_invalid_placement_overlaps_opponent() {
    let game = create_test_game();
    let object = create_test_object();

    // Try to place where it overlaps opponent at (2,2)
    let result = game.validate_placement(&object, Position { row: 1, col: 1 });

    assert!(result.is_none()); // Should be invalid
}

#[test]
fn test_trim_with_padding() {
    let mut object = Object {
        original_dimensions: Dimensions { width: 5, height: 5 },
        original_cells: vec![
            vec!['.', '.', '.', '.', '.'], // Empty top
            vec!['.', 'O', 'O', '.', '.'], // Content
            vec!['.', 'O', '.', '.', '.'], // Content
            vec!['.', '.', '.', '.', '.'], // Empty bottom
            vec!['.', '.', '.', '.', '.'], // Empty bottom
        ],
        trimmed_dimensions: Dimensions { width: 0, height: 0 },
        trimmed_cells: vec![],
        filled_cell_count: 0,
        trim_offset: (0, 0),
    };

    object.trim_empty_edges();

    // Should trim to 2x2 content area
    assert_eq!(object.trimmed_dimensions.width, 2);
    assert_eq!(object.trimmed_dimensions.height, 2);
    assert_eq!(object.trim_offset, (1, 1));
    assert_eq!(object.trimmed_cells, vec![vec!['O', 'O'], vec!['O', '.']]);
}

#[test]
fn test_trim_no_padding() {
    let mut object = Object {
        original_dimensions: Dimensions { width: 2, height: 2 },
        original_cells: vec![vec!['O', '.'], vec!['.', 'O']],
        trimmed_dimensions: Dimensions { width: 0, height: 0 },
        trimmed_cells: vec![],
        filled_cell_count: 0,
        trim_offset: (0, 0),
    };

    object.trim_empty_edges();

    // Should remain same size
    assert_eq!(object.trimmed_dimensions.width, 2);
    assert_eq!(object.trimmed_dimensions.height, 2);
    assert_eq!(object.trim_offset, (0, 0));
}

fn create_test_pitch() -> Pitch {
    Pitch {
        dimensions: Dimensions { width: 4, height: 4 },
        cells: vec![
            vec!['.', 'a', '.', '.'],
            vec!['.', '.', '.', '.'],
            vec!['.', '.', 's', '.'],
            vec!['.', '.', '.', '.'],
        ],
    }
}

#[test]
fn test_are_we_touching_opponent() {
    let pitch = create_test_pitch();
    let our_symbols = ('a', '@');

    // Not touching initially
    let touching = are_we_touching_opponent(&pitch, our_symbols);
    assert_eq!(touching, false);

    // Create pitch where we're adjacent
    let mut adjacent_pitch = create_test_pitch();
    adjacent_pitch.cells[1][2] = 'a'; // Place our robot next to 's' at (2,2)

    let touching = are_we_touching_opponent(&adjacent_pitch, our_symbols);
    assert_eq!(touching, true);
}

#[test]
fn test_is_opponent_cell() {
    let our_symbols = ('a', '@');

    assert_eq!(is_opponent_cell(Some('s'), our_symbols), true);
    assert_eq!(is_opponent_cell(Some('$'), our_symbols), true);
    assert_eq!(is_opponent_cell(Some('a'), our_symbols), false);
    assert_eq!(is_opponent_cell(Some('.'), our_symbols), false);
}

#[test]
fn test_is_our_cell() {
    let our_symbols = ('a', '@');

    assert_eq!(is_our_cell(Some('a'), our_symbols), true);
    assert_eq!(is_our_cell(Some('@'), our_symbols), true);
    assert_eq!(is_our_cell(Some('s'), our_symbols), false);
    assert_eq!(is_our_cell(Some('.'), our_symbols), false);
}
