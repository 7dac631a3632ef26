use filler::contestant::{create_contestants, Contestant};
use filler::game_analysis::{GameAnalysis, PotentialMove};
use filler::grid_matrix::{Dimensions, Grid};
use filler::input::{parse_header, parse_usize, InputError};
use filler::object::Object;
use filler::pitch::{Pitch, Position};
use filler::session::{answer_piece, start_board};
use filler::tactics::{
    calculate_average_position, calculate_object_center, calculate_squared_distance, evaluate_all_placements,
    find_enclosure_positions, get_adjacent_cells, max_distance_bonus, perfect_fit_bonus, score_by_distance_to_opponent,
    score_by_enclosure_potential, score_by_perfect_fit,
};

fn player_one() -> Contestant {
    Contestant { number: 1, symbols: ('a', '@'), cells_captured: 0 }
}

fn player_two() -> Contestant {
    Contestant { number: 2, symbols: ('s', '$'), cells_captured: 0 }
}

fn lines(v: &[&str]) -> Vec<String> {
    v.iter().map(|s| s.to_string()).collect()
}

/// Builds a pitch the way the engine describes it.
fn pitch_from_rows(rows: &[&str]) -> Pitch {
    let width = rows[0].chars().count();
    let mut pitch = Pitch::new(&format!("Anfield {} {}:", width, rows.len()));
    let mut text = vec!["    0123456789".to_string()];
    for (i, r) in rows.iter().enumerate() {
        text.push(format!("{:03} {}", i, r));
    }
    pitch.check_pitch_lines(&text).unwrap();
    pitch.load_state(&text);
    pitch
}

/// Builds an object the way the engine describes it.
fn object_from_rows(rows: &[&str]) -> Object {
    let width = rows[0].chars().count();
    let mut object = Object::from_header(&format!("Piece {} {}:", width, rows.len()));
    object.check_shape_lines(&lines(rows)).unwrap();
    object.load_shape(&lines(rows));
    object
}

fn game(rows: &[&str], us: Contestant, opponent: Contestant) -> GameAnalysis {
    GameAnalysis::new(us, opponent, pitch_from_rows(rows))
}

// ---------------------------------------------------------------- contestants

#[test]
fn contestants_for_player_one() {
    let (us, opponent) = create_contestants("$$$ exec p1 : [./filler]");
    assert_eq!(us.number, 1);
    assert_eq!(us.symbols, ('a', '@'));
    assert_eq!(us.cells_captured, 0);
    assert_eq!(opponent.number, 2);
    assert_eq!(opponent.symbols, ('s', '$'));
}

#[test]
fn contestants_for_player_two() {
    let (us, opponent) = create_contestants("$$$ exec p2 : [./filler]");
    assert_eq!(us.number, 2);
    assert_eq!(us.symbols, ('s', '$'));
    assert_eq!(opponent.number, 1);
    assert_eq!(opponent.symbols, ('a', '@'));
}

#[test]
fn contestants_never_share_a_symbol() {
    for line in ["$$$ exec p1 : [x]", "$$$ exec p2 : [x]", "", "p", "1p"] {
        let (us, opponent) = create_contestants(line);
        assert_ne!(us.number, opponent.number);
        for c in ['a', '@', 's', '$', '.'] {
            assert!(!(us.owns_cell(&c) && opponent.owns_cell(&c)));
        }
    }
}

#[test]
fn owns_cell_checks_both_symbols() {
    let us = player_one();
    assert!(us.owns_cell(&'a'));
    assert!(us.owns_cell(&'@'));
    assert!(!us.owns_cell(&'s'));
    assert!(!us.owns_cell(&'.'));
}

// ---------------------------------------------------------------- parsing

#[test]
fn header_gives_width_then_height() {
    let d = parse_header("Anfield 20 15:").unwrap();
    assert_eq!((d.width, d.height), (20, 15));
    let d = parse_header("Piece   +4\t3::").unwrap();
    assert_eq!((d.width, d.height), (4, 3));
}

#[test]
fn header_errors() {
    assert_eq!(parse_header("Anfield").unwrap_err(), InputError::MissingField { index: 1 });
    assert_eq!(parse_header("Anfield x 15:").unwrap_err(), InputError::InvalidWidth);
    assert_eq!(parse_header("Anfield 20:").unwrap_err(), InputError::MissingField { index: 2 });
    assert_eq!(parse_header("Anfield 20 -1:").unwrap_err(), InputError::InvalidHeight);
    assert_eq!(parse_header("Anfield 99999999999999999999999 3:").unwrap_err(), InputError::InvalidWidth);
    assert_eq!(parse_header("Anfield 20 15: ").unwrap_err(), InputError::InvalidHeight);
}

#[test]
fn parse_usize_follows_str_parse() {
    for text in ["0", "7", "+7", "+", "", "-3", "12a", "18446744073709551615", "18446744073709551616", "007"] {
        let chars: Vec<char> = text.chars().collect();
        assert_eq!(parse_usize(&chars), text.parse::<usize>().ok(), "{}", text);
    }
}

#[test]
fn new_pitch_is_empty() {
    let pitch = Pitch::new("Anfield 3 2:");
    assert_eq!(pitch.dimensions.width, 3);
    assert_eq!(pitch.dimensions.height, 2);
    assert_eq!(pitch.cells, vec![vec!['.'; 3]; 2]);
}

#[test]
fn load_state_reads_rows() {
    let mut pitch = Pitch::new("Anfield 4 2:");
    let text = lines(&["    0123", "000 .a..  ", "001 ..$."]);
    assert_eq!(pitch.check_pitch_lines(&text), Ok(()));
    pitch.load_state(&text);
    assert_eq!(pitch.cells, vec![vec!['.', 'a', '.', '.'], vec!['.', '.', '$', '.']]);
}

#[test]
fn pitch_line_errors() {
    let pitch = Pitch::new("Anfield 4 2:");
    assert_eq!(pitch.check_pitch_lines(&lines(&["    0123", "000 .a.."])), Err(InputError::UnexpectedEof { row: 1 }));
    assert_eq!(pitch.check_pitch_lines(&lines(&[])), Err(InputError::UnexpectedEof { row: 0 }));
    assert_eq!(
        pitch.check_pitch_lines(&lines(&["    0123", "000 .a.", "001 ...."])),
        Err(InputError::RowTooShort { row: 0, length: 7 })
    );
    assert_eq!(
        pitch.check_pitch_lines(&lines(&["    0123", "000 ....", "000\u{e9}...."])),
        Err(InputError::NotCharBoundary { row: 1 })
    );
    assert_eq!(pitch.cells, vec![vec!['.'; 4]; 2]);
}

#[test]
fn load_state_starts_at_byte_four() {
    let mut pitch = Pitch::new("Anfield 2 1:");
    // 'é' takes two bytes, so byte 4 starts the fourth character.
    let text = lines(&["", "0\u{e9}0a.$"]);
    assert_eq!(pitch.check_pitch_lines(&text), Ok(()));
    pitch.load_state(&text);
    assert_eq!(pitch.cells, vec![vec!['a', '.']]);
}

#[test]
fn object_load_and_trim() {
    let mut object = Object::from_header("Piece 4 3:");
    assert_eq!(object.original_dimensions.width, 4);
    assert_eq!(object.original_dimensions.height, 3);
    assert_eq!(object.filled_cell_count, 0);
    let text = lines(&["....", ".OO.", ".#.."]);
    assert_eq!(object.check_shape_lines(&text), Ok(()));
    object.load_shape(&text);
    assert_eq!(object.filled_cell_count, 3);
    assert_eq!(object.trim_offset, (1, 1));
    assert_eq!(object.trimmed_dimensions.width, 2);
    assert_eq!(object.trimmed_dimensions.height, 2);
    assert_eq!(object.trimmed_cells, vec![vec!['O', 'O'], vec!['#', '.']]);
}

#[test]
fn object_load_errors() {
    let object = Object::from_header("Piece 2 2:");
    assert_eq!(object.check_shape_lines(&lines(&["O."])), Err(InputError::UnexpectedEof { row: 1 }));
    assert_eq!(object.check_shape_lines(&lines(&["O.", "O"])), Err(InputError::RowTooShort { row: 1, length: 1 }));
    assert_eq!(object.check_shape_lines(&lines(&["..", ".."])), Err(InputError::EmptyShape));
    assert_eq!(object.filled_cell_count, 0);
    assert_eq!(parse_header("Piece 2").unwrap_err(), InputError::MissingField { index: 2 });
}

#[test]
fn trimming_keeps_every_filled_cell() {
    let object = object_from_rows(&[".....", "..O..", ".....", "...#.", "....."]);
    assert_eq!(object.trim_offset, (1, 2));
    for r in 0..5 {
        for c in 0..5 {
            let cell = object.original_cells[r][c];
            if cell != '.' {
                let (tr, tc) = (r - object.trim_offset.0, c - object.trim_offset.1);
                assert_eq!(object.trimmed_cells[tr][tc], cell);
            }
        }
    }
}

#[test]
fn display_string_lists_rows() {
    let pitch = pitch_from_rows(&[".a.", "..s"]);
    assert_eq!(pitch.to_display_string(), "Grid (2 rows x 3 cols):\n.a.\n..s\n");
    let object = object_from_rows(&["O.", ".O"]);
    assert_eq!(object.to_display_string(), "Grid (2 rows x 2 cols):\nO.\n.O\n");
    assert_eq!(pitch.height(), 2);
    assert_eq!(pitch.width(), 3);
    assert_eq!(object.cells().len(), 2);
}

// ---------------------------------------------------------------- tactics

#[test]
fn adjacent_cells_at_edges() {
    let pitch = pitch_from_rows(&["ab", "cd"]);
    let a = get_adjacent_cells(&pitch, &Position { row: 0, col: 0 });
    assert_eq!((a.up, a.down, a.left, a.right), (None, Some('c'), None, Some('b')));
    let a = get_adjacent_cells(&pitch, &Position { row: 1, col: 1 });
    assert_eq!((a.up, a.down, a.left, a.right), (Some('b'), None, Some('c'), None));
}

#[test]
fn average_positions() {
    let pitch = pitch_from_rows(&[".a..", "....", "..s.", "...$"]);
    let p = calculate_average_position(&pitch, ('a', '@'), true);
    assert_eq!((p.row, p.col), (2, 2));
    let p = calculate_average_position(&pitch, ('a', '@'), false);
    assert_eq!((p.row, p.col), (0, 1));
    let empty = pitch_from_rows(&["...", "...", "..."]);
    let p = calculate_average_position(&empty, ('a', '@'), true);
    assert_eq!((p.row, p.col), (1, 1));
}

#[test]
fn enclosure_positions_in_scan_order() {
    let pitch = pitch_from_rows(&[".a..", "....", "..s.", "...."]);
    let found: Vec<((usize, usize), usize)> = find_enclosure_positions(&pitch, ('a', '@'))
        .iter()
        .map(|(p, d)| ((p.row, p.col), *d))
        .collect();
    assert_eq!(found, vec![((1, 2), 1), ((3, 2), 1), ((2, 1), 1), ((2, 3), 1), ((0, 2), 2), ((2, 0), 2)]);
}

#[test]
fn object_center_is_clamped() {
    let pitch = pitch_from_rows(&["...", "...", "..."]);
    let object = object_from_rows(&["...", "..O", "..O"]);
    let c = calculate_object_center(&pitch, &Position { row: 1, col: 1 }, &object);
    // 1 + (2 + 1) / 2 = 2 and 1 + (1 + 2) / 2 = 2
    assert_eq!((c.row, c.col), (2, 2));
    let c = calculate_object_center(&pitch, &Position { row: 2, col: 2 }, &object);
    assert_eq!((c.row, c.col), (2, 2));
}

#[test]
fn squared_distance_values() {
    let d = calculate_squared_distance(Position { row: 1, col: 5 }, Position { row: 4, col: 1 });
    assert_eq!(d, 25);
}

#[test]
fn bonus_tables_match_the_float_formulas() {
    for turn in 0..400usize {
        let chase = ((36.0 * (2.0_f32).powf(-0.15 * turn as f32)) as i32).max(4);
        assert_eq!(max_distance_bonus(turn), chase, "chasing bonus at turn {}", turn);
        let fit = ((1.07_f32).powi(turn as i32) as i32).min(50);
        assert_eq!(perfect_fit_bonus(turn), fit, "gap bonus at turn {}", turn);
    }
    for turn in [1usize << 31, (1usize << 31) + 5, (1usize << 32) + 3, usize::MAX] {
        let fit = ((1.07_f32).powi(turn as i32) as i32).min(50);
        assert_eq!(perfect_fit_bonus(turn), fit, "gap bonus at turn {}", turn);
        let chase = ((36.0 * (2.0_f32).powf(-0.15 * turn as f32)) as i32).max(4);
        assert_eq!(max_distance_bonus(turn), chase, "chasing bonus at turn {}", turn);
    }
}

#[test]
fn chasing_bonus_decays_and_gap_bonus_grows() {
    assert_eq!(max_distance_bonus(0), 36);
    assert_eq!(perfect_fit_bonus(0), 1);
    for turn in 0..300usize {
        assert!(max_distance_bonus(turn + 1) <= max_distance_bonus(turn));
        assert!(max_distance_bonus(turn) >= 4 && max_distance_bonus(turn) <= 36);
        assert!(perfect_fit_bonus(turn) <= perfect_fit_bonus(turn + 1));
        assert!(perfect_fit_bonus(turn) >= 1 && perfect_fit_bonus(turn) <= 50);
    }
    // Past 2^31 the turn wraps to a negative exponent and the gap bonus falls to 0.
    assert_eq!(perfect_fit_bonus((1usize << 31) - 1), 50);
    assert_eq!(perfect_fit_bonus(1usize << 31), 0);
}

fn one_cell_move(row: usize, col: usize, score: i32) -> PotentialMove {
    PotentialMove { position: Position { row, col }, score, object: object_from_rows(&["O"]) }
}

#[test]
fn chasing_rewards_the_closest_moves_in_tiers() {
    let pitch = pitch_from_rows(&["........", "........", "........", "........"]);
    let mut moves = vec![
        one_cell_move(0, 7, 0),
        one_cell_move(0, 0, 0),
        one_cell_move(3, 3, 0),
        one_cell_move(3, 2, 0),
        one_cell_move(0, 1, 0),
        one_cell_move(1, 1, 0),
        one_cell_move(1, 0, 0),
    ];
    // turn 2: the largest bonus is 29, so the tiers are 29, 14, 7, 3.
    score_by_distance_to_opponent(&pitch, &mut moves, Position { row: 0, col: 0 }, 2);
    let scores: Vec<i32> = moves.iter().map(|m| m.score).collect();
    // Distances: 49, 0, 18, 13, 1, 2, 1 -> order 1, 4, 6, 5, ...
    assert_eq!(scores, vec![0, 29, 0, 0, 14, 3, 7]);
}

#[test]
fn closer_moves_never_get_less_chasing_bonus() {
    let pitch = pitch_from_rows(&["......", "......", "......"]);
    let mut moves: Vec<PotentialMove> = Vec::new();
    for r in 0..3 {
        for c in 0..6 {
            moves.push(one_cell_move(r, c, 0));
        }
    }
    let center = Position { row: 1, col: 4 };
    score_by_distance_to_opponent(&pitch, &mut moves, center, 0);
    for a in &moves {
        for b in &moves {
            let da = calculate_squared_distance(a.position, center);
            let db = calculate_squared_distance(b.position, center);
            if da < db {
                assert!(a.score >= b.score);
            }
        }
    }
}

#[test]
fn enclosure_bonus_by_distance() {
    let pitch = pitch_from_rows(&["......", "......", "...s..", "......"]);
    let mut moves = vec![
        one_cell_move(1, 3, 0), // one step above the opponent: 12
        one_cell_move(2, 1, 0), // two steps left: 6
        one_cell_move(2, 0, 0), // three steps left: 4
        one_cell_move(0, 0, 0), // no target: 4
    ];
    let found = score_by_enclosure_potential(&pitch, &mut moves, ('a', '@'));
    assert!(found);
    let scores: Vec<i32> = moves.iter().map(|m| m.score).collect();
    assert_eq!(scores, vec![12, 6, 4, 4]);

    let mut far = vec![one_cell_move(0, 0, 5)];
    assert!(!score_by_enclosure_potential(&pitch, &mut far, ('a', '@')));
    assert_eq!(far[0].score, 9);
}

#[test]
fn perfect_fit_bonus_only_without_waste() {
    let pitch = pitch_from_rows(&["a..", "...", "..$"]);
    let full = object_from_rows(&["OO", "OO"]);
    let holed = object_from_rows(&["OO", "O."]);
    let mut moves = vec![
        PotentialMove { position: Position { row: 0, col: 0 }, score: 1, object: full },
        PotentialMove { position: Position { row: 0, col: 0 }, score: 1, object: holed },
    ];
    let history: Vec<Object> = Vec::new();
    score_by_perfect_fit(&pitch, &mut moves, 40, &history, ('a', '@'));
    assert_eq!(moves[0].score, 1 + 14);
    assert_eq!(moves[1].score, 1);
}

#[test]
fn evaluation_picks_the_last_best_move() {
    let pitch = pitch_from_rows(&["a.....", "......", "......", "......", "......", "......"]);
    let moves = vec![one_cell_move(5, 5, 10), one_cell_move(4, 5, 10), one_cell_move(5, 4, 3)];
    let history: Vec<Object> = Vec::new();
    // Nobody touches, so the chase runs: the opponent centre is (3, 3) and at turn 100
    // the tiers are 4 and 2. (4, 5) and (5, 4) are both at squared distance 5; the
    // earlier one, (4, 5), gets 4 and (5, 4) gets 2. No opponent cell means no enclosure
    // target: every O gets 4. No enclosure was found, and a one-cell object always fits
    // perfectly: at turn 100 that is worth 50 to every move.
    let best = evaluate_all_placements(&pitch, moves, Position { row: 3, col: 3 }, 100, ('a', '@'), &history);
    // Scores: (5, 5) 10 + 4 + 50, (4, 5) 10 + 4 + 4 + 50, (5, 4) 3 + 2 + 4 + 50.
    assert_eq!((best.position.row, best.position.col), (4, 5));
    assert_eq!(best.score, 10 + 4 + 4 + 50);
}

// ---------------------------------------------------------------- validation

#[test]
fn valid_placement_score() {
    let g = game(&[".a..", "....", "..s.", "...."], player_one(), player_two());
    let object = object_from_rows(&["O.", ".O"]);
    let m = g.validate_placement(&object, Position { row: 0, col: 1 }).unwrap();
    // Only the lower O touches the opponent: 4 points.
    assert_eq!(m.score, 4);
    assert_eq!(m.object.trimmed_cells, object.trimmed_cells);
}

#[test]
fn placement_must_overlap_exactly_one_of_ours() {
    let g = game(&["aa..", "....", "..s.", "...."], player_one(), player_two());
    let object = object_from_rows(&["OO"]);
    assert!(g.validate_placement(&object, Position { row: 0, col: 0 }).is_none());
    assert!(g.validate_placement(&object, Position { row: 1, col: 0 }).is_none());
    assert!(g.validate_placement(&object, Position { row: 0, col: 1 }).is_some());
}

#[test]
fn placement_outside_the_pitch_is_rejected() {
    let g = game(&["...a", "....", "..s.", "...."], player_one(), player_two());
    let object = object_from_rows(&["OO"]);
    // The right cell would overlap our 'a'; the left one lies on the pitch.
    assert!(g.validate_placement(&object, Position { row: 0, col: 2 }).is_some());
    // One column further, the right cell falls off the pitch.
    assert!(g.validate_placement(&object, Position { row: 0, col: 3 }).is_none());
    // Below the last row.
    assert!(g.validate_placement(&object, Position { row: 4, col: 0 }).is_none());
}

#[test]
fn cell_scores() {
    let g = game(&["a.", ".s"], player_one(), player_two());
    assert_eq!(g.score_cell_placement('.', Position { row: 0, col: 0 }), 1);
    assert_eq!(g.score_cell_placement('#', Position { row: 1, col: 1 }), 2);
    assert_eq!(g.score_cell_placement('.', Position { row: 0, col: 1 }), 0);
    assert_eq!(g.score_cell_placement('O', Position { row: 0, col: 1 }), 4);
    assert_eq!(g.score_cell_placement('O', Position { row: 0, col: 0 }), 0);
}

// ---------------------------------------------------------------- best move

#[test]
fn best_move_on_the_small_board() {
    let mut g = game(&[".a..", "....", "..s.", "...."], player_one(), player_two());
    let object = object_from_rows(&["O.", ".O"]);
    assert_eq!(g.calculate_best_move(object), (1, 0));
    assert_eq!(g.turn_number, 1);
    assert_eq!(g.placement_history.len(), 1);
    assert_eq!(g.our_contestant.cells_captured, 1);
}

#[test]
fn best_move_uses_the_original_corner() {
    let rows = ["......", ".@@...", ".@....", "......", "....$.", "......"];
    for turn in [0usize, 4, 24, 59] {
        let mut g = game(&rows, player_one(), player_two());
        g.turn_number = turn;
        let object = object_from_rows(&[".O.", ".OO", "..."]);
        assert_eq!(g.calculate_best_move(object), (1, 1), "turn {}", turn + 1);
    }
    let mut g = game(&rows, player_two(), player_one());
    g.turn_number = 1;
    let object = object_from_rows(&[".O.", ".OO", "..."]);
    assert_eq!(g.calculate_best_move(object), (2, 3));
}

#[test]
fn best_move_when_touching() {
    let mut g = game(&[".....", ".as..", ".....", ".....", "....."], player_one(), player_two());
    let object = object_from_rows(&["OO", "O."]);
    assert_eq!(g.calculate_best_move(object), (1, 0));
}

#[test]
fn best_move_with_gap_filling() {
    let mut g = game(&["a..", "...", "..$"], player_one(), player_two());
    let object = object_from_rows(&["OO", "OO"]);
    assert_eq!(g.calculate_best_move(object), (0, 0));
    let mut g = game(&["aa.", "a..", "..."], player_one(), player_two());
    g.turn_number = 9;
    let object = object_from_rows(&["OO", "O."]);
    assert_eq!(g.calculate_best_move(object), (1, 0));
}

#[test]
fn no_valid_placement_gives_origin() {
    let mut g = game(&["@$$", "$$$", "$$$"], player_one(), player_two());
    let object = object_from_rows(&["##", "##"]);
    assert_eq!(g.calculate_best_move(object), (0, 0));
    assert_eq!(g.turn_number, 1);
    assert_eq!(g.placement_history.len(), 0);
    assert_eq!(g.our_contestant.cells_captured, 0);
}

#[test]
fn too_big_object_gives_origin() {
    let mut g = game(&["a."], player_one(), player_two());
    let object = object_from_rows(&["O", "O"]);
    assert_eq!(g.calculate_best_move(object), (0, 0));
    assert_eq!(g.turn_number, 1);
}

#[test]
fn returned_move_is_a_legal_placement() {
    let rows = ["..........", "..a.......", "..aa......", "..........", ".......$$.", "........$.", ".........."];
    let shapes: [&[&str]; 3] = [&[".O.", "OOO"], &["O", "O", "O"], &["O.", "OO", ".O"]];
    for shape in shapes {
        let mut g = game(&rows, player_one(), player_two());
        let object = object_from_rows(shape);
        let trimmed = object.trimmed_cells.clone();
        let offset = object.trim_offset;
        let (x, y) = g.calculate_best_move(object);
        assert!(0 <= x && (x as usize) < rows[0].len());
        assert!(0 <= y && (y as usize) < rows.len());
        let (row, col) = ((y + offset.0 as i32) as usize, (x + offset.1 as i32) as usize);
        let mut ours = 0;
        for (i, line) in trimmed.iter().enumerate() {
            for (j, &cell) in line.iter().enumerate() {
                assert!(row + i < rows.len() && col + j < rows[0].len());
                let under = g.pitch.cells[row + i][col + j];
                if cell != '.' {
                    if under == 'a' || under == '@' {
                        ours += 1;
                    }
                    assert!(under != 's' && under != '$');
                }
            }
        }
        assert_eq!(ours, 1);
    }
}

#[test]
fn replay_of_engine_messages() {
    let (us, opponent) = create_contestants("$$$ exec p1 : [solution/filler]");
    let mut pitch_text = vec!["    01234567890123456".to_string()];
    for r in 0..15 {
        let row = if r == 8 { "@................" } else { "................." };
        pitch_text.push(format!("{:03} {}", r, row));
    }
    let pitch = Pitch::new("Anfield 17 15:");
    let mut g = GameAnalysis::new(us, opponent, pitch);
    g.pitch.check_pitch_lines(&pitch_text).unwrap();
    g.pitch.load_state(&pitch_text);

    let mut piece = Object::from_header("Piece 4 3:");
    piece.check_shape_lines(&lines(&["....", ".##.", ".##."])).unwrap();
    piece.load_shape(&lines(&["....", ".##.", ".##."]));
    let (x, y) = g.calculate_best_move(piece);
    assert!(x >= 0 && x < 17, "X coordinate out of bounds");
    assert!(y >= 0 && y < 15, "Y coordinate out of bounds");

    g.pitch.check_pitch_lines(&pitch_text).unwrap();
    g.pitch.load_state(&pitch_text);
    let mut piece = Object::from_header("Piece 2 2:");
    piece.check_shape_lines(&lines(&[".#", "#."])).unwrap();
    piece.load_shape(&lines(&[".#", "#."]));
    let (x, y) = g.calculate_best_move(piece);
    assert!(x >= 0 && x < 17);
    assert!(y >= 0 && y < 15);
    assert_eq!(g.turn_number, 2);
}

#[test]
fn clones_are_independent_copies() {
    let g = game(&["a..", "...", "..s"], player_one(), player_two());
    let mut copy = g.clone();
    assert_eq!(copy.pitch.cells, g.pitch.cells);
    assert_eq!(copy.turn_number, g.turn_number);
    copy.pitch.cells[1][1] = 'a';
    assert_eq!(g.pitch.cells[1][1], '.');

    let object = object_from_rows(&["...", ".OO", "..."]);
    let other = object.clone();
    assert_eq!(other.original_cells, object.original_cells);
    assert_eq!(other.trimmed_cells, object.trimmed_cells);
    assert_eq!(other.trim_offset, object.trim_offset);
    assert_eq!(other.filled_cell_count, 2);

    let m = PotentialMove { position: Position { row: 1, col: 2 }, score: 7, object };
    let n = m.clone();
    assert_eq!((n.position.row, n.position.col, n.score), (1, 2, 7));
    assert_eq!(n.object.trimmed_cells, vec![vec!['O', 'O']]);
}

fn sharing_players() -> (Contestant, Contestant) {
    (
        Contestant { number: 1, symbols: ('a', 'x'), cells_captured: 0 },
        Contestant { number: 2, symbols: ('x', 's'), cells_captured: 0 },
    )
}

#[test]
fn shared_symbol_counts_as_an_opponent_cell() {
    let (us, opponent) = sharing_players();
    let g = game(&["ax", "..", ".."], us, opponent);
    let object = object_from_rows(&["O"]);
    assert!(g.validate_placement(&object, Position { row: 0, col: 1 }).is_none());
    assert!(g.validate_placement(&object, Position { row: 0, col: 0 }).is_some());
}

#[test]
fn best_move_avoids_shared_symbols() {
    let (us, opponent) = sharing_players();
    let mut g = game(&[".a.xs"], us, opponent);
    assert_eq!(g.calculate_best_move(object_from_rows(&["O"])), (1, 0));
    assert_eq!(g.placement_history.len(), 1);
}

#[test]
fn only_shared_symbols_give_no_move() {
    let (us, opponent) = sharing_players();
    let mut g = game(&[".xs"], us, opponent);
    assert_eq!(g.calculate_best_move(object_from_rows(&["O"])), (0, 0));
    assert_eq!(g.placement_history.len(), 0);
    assert_eq!(g.our_contestant.cells_captured, 0);
}

#[test]
fn first_board_header_starts_the_game() {
    let mut game: Option<GameAnalysis> = None;
    assert_eq!(start_board(&mut game, player_one(), player_two(), "Anfield 3 2:"), 3);
    let g = game.as_ref().unwrap();
    assert_eq!((g.pitch.dimensions.width, g.pitch.dimensions.height), (3, 2));
    assert_eq!(g.turn_number, 0);
    // A later header is read but changes nothing, not even the line count.
    assert_eq!(start_board(&mut game, player_one(), player_two(), "Anfield 9 9:"), 3);
    assert_eq!(game.as_ref().unwrap().pitch.dimensions.width, 3);
}

#[test]
fn piece_before_any_board_is_answered_at_the_origin() {
    let mut game: Option<GameAnalysis> = None;
    assert_eq!(answer_piece(&mut game, object_from_rows(&["O"])), (0, 0));
    assert!(game.is_none());
}

#[test]
fn piece_during_a_game_gets_the_best_move() {
    let mut game = Some(game(&[".a.xs"], sharing_players().0, sharing_players().1));
    let object = object_from_rows(&["O"]);
    assert!(game.as_ref().unwrap().move_fits(&object));
    assert!(object.is_well_formed());
    assert!(game.as_ref().unwrap().pitch.is_covered());
    assert_eq!(answer_piece(&mut game, object), (1, 0));
    assert_eq!(game.as_ref().unwrap().turn_number, 1);
}

#[test]
fn oversized_pieces_do_not_fit() {
    let g = game(&["a."], player_one(), player_two());
    let mut big = object_from_rows(&["O"]);
    big.trimmed_dimensions.width = 1 << 20;
    big.trimmed_dimensions.height = 1 << 20;
    assert!(!g.move_fits(&big));
    let mut pitch = Pitch::new("Anfield 2 2:");
    pitch.cells.pop();
    assert!(!pitch.is_covered());
}
