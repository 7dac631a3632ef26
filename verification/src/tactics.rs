//! Strategic heuristics: neighbourhoods, centres of mass, contact with the
//! opponent, enclosure targets, and the scoring strategies that pick the
//! best of the valid placements.
use vstd::prelude::*;
use crate::pitch::{Pitch, Position};
use crate::grid_matrix::{grid_sum, line_sum, grid_concat, line_concat, lemma_grid_sum_mono, lemma_grid_sum_nonneg, lemma_grid_sum_scaled, rows_of};
use crate::object::{Object, ObjectModel};
use crate::game_analysis::{PotentialMove, MoveModel, moves_of};

verus! {

/// The cells directly around a position (up, down, left, right); `None`
/// where the position lies on the pitch's edge.
pub struct AdjacentCells {
    pub up: Option<char>,
    pub down: Option<char>,
    pub left: Option<char>,
    pub right: Option<char>,
}

/// The neighbours of `pos` that lie inside the pitch's dimensions.
pub open spec fn adjacent_spec(p: Pitch, pos: Position) -> AdjacentCells {
    let r = pos.row as int;
    let c = pos.col as int;
    AdjacentCells {
        up: if r > 0 { Some(p.at(r - 1, c)) } else { None },
        down: if r + 1 < p.height_spec() { Some(p.at(r + 1, c)) } else { None },
        left: if c > 0 { Some(p.at(r, c - 1)) } else { None },
        right: if c + 1 < p.width_spec() { Some(p.at(r, c + 1)) } else { None },
    }
}

/// Each neighbour that `adjacent_spec` reads has a cell in the grid.
pub open spec fn adjacent_readable(p: Pitch, pos: Position) -> bool {
    let g = p.grid();
    let r = pos.row as int;
    let c = pos.col as int;
    &&& r > 0 ==> r - 1 < g.len() && c < g[r - 1].len()
    &&& r + 1 < p.height_spec() ==> r + 1 < g.len() && c < g[r + 1].len()
    &&& c > 0 ==> r < g.len() && c - 1 < g[r].len()
    &&& c + 1 < p.width_spec() ==> r < g.len() && c + 1 < g[r].len()
}

/// On a covered pitch, the neighbours of every inside position are readable.
pub proof fn lemma_inside_adjacent_readable(p: Pitch, pos: Position)
    requires
        p.covered(),
        p.inside(pos.row as int, pos.col as int),
    ensures
        adjacent_readable(p, pos),
{
    let g = p.grid();
    let r = pos.row as int;
    assert(g[r].len() >= p.width_spec());
    if r > 0 {
        assert(g[r - 1].len() >= p.width_spec());
    }
    if r + 1 < p.height_spec() {
        assert(g[r + 1].len() >= p.width_spec());
    }
}

/// Gets the cells directly adjacent to a position (up, down, left, right).
pub fn get_adjacent_cells(pitch: &Pitch, position: &Position) -> (a: AdjacentCells)
    requires
        adjacent_readable(*pitch, *position),
    ensures
        a == adjacent_spec(*pitch, *position),
{
    let ghost g = pitch.grid();
    let mut adjacent = AdjacentCells { up: None, down: None, left: None, right: None };
    let height = pitch.dimensions.height;
    let width = pitch.dimensions.width;
    if position.row > 0 {
        proof { assert(g[position.row - 1] == pitch.cells@[position.row - 1]@); }
        adjacent.up = Some(pitch.cells[position.row - 1][position.col]);
    }
    if height > 0 && position.row < height - 1 {
        proof { assert(g[position.row + 1] == pitch.cells@[position.row + 1]@); }
        adjacent.down = Some(pitch.cells[position.row + 1][position.col]);
    }
    if position.col > 0 {
        proof { assert(g[position.row as int] == pitch.cells@[position.row as int]@); }
        adjacent.left = Some(pitch.cells[position.row][position.col - 1]);
    }
    if width > 0 && position.col < width - 1 {
        proof { assert(g[position.row as int] == pitch.cells@[position.row as int]@); }
        adjacent.right = Some(pitch.cells[position.row][position.col + 1]);
    }
    adjacent
}

/// A cell belongs to the opponent: present, not empty and not ours.
pub open spec fn opponent_cell_spec(cell: Option<char>, our_symbols: (char, char)) -> bool {
    match cell {
        Some(c) => c != '.' && c != our_symbols.0 && c != our_symbols.1,
        None => false,
    }
}

/// A cell belongs to us: present and one of our symbols.
pub open spec fn our_cell_spec(cell: Option<char>, our_symbols: (char, char)) -> bool {
    match cell {
        Some(c) => c == our_symbols.0 || c == our_symbols.1,
        None => false,
    }
}

/// Checks whether a cell belongs to the opponent.
pub fn is_opponent_cell(cell: Option<char>, our_symbols: (char, char)) -> (r: bool)
    ensures
        r == opponent_cell_spec(cell, our_symbols),
{
    match cell {
        Some(c) => c != '.' && c != our_symbols.0 && c != our_symbols.1,
        None => false,
    }
}

/// Checks whether a cell belongs to us.
pub fn is_our_cell(cell: Option<char>, our_symbols: (char, char)) -> (r: bool)
    ensures
        r == our_cell_spec(cell, our_symbols),
{
    match cell {
        Some(c) => c == our_symbols.0 || c == our_symbols.1,
        None => false,
    }
}


/// Whether a pitch cell is the kind of cell being looked for: the
/// opponent's when `find_opponent`, ours otherwise.
pub open spec fn is_target(cell: char, our_symbols: (char, char), find_opponent: bool) -> bool {
    if find_opponent {
        opponent_cell_spec(Some(cell), our_symbols)
    } else {
        our_cell_spec(Some(cell), our_symbols)
    }
}

/// Every row of the pitch has `width` cells.
pub open spec fn pitch_widths(p: Pitch) -> spec_fn(int) -> int {
    |r: int| p.width_spec()
}

/// The row of each target cell, 0 elsewhere.
pub open spec fn target_rows(p: Pitch, our_symbols: (char, char), find_opponent: bool) -> spec_fn(int, int) -> int {
    |r: int, c: int| if is_target(p.at(r, c), our_symbols, find_opponent) { r } else { 0 }
}

/// The column of each target cell, 0 elsewhere.
pub open spec fn target_cols(p: Pitch, our_symbols: (char, char), find_opponent: bool) -> spec_fn(int, int) -> int {
    |r: int, c: int| if is_target(p.at(r, c), our_symbols, find_opponent) { c } else { 0 }
}

/// 1 for each target cell, 0 elsewhere.
pub open spec fn target_ones(p: Pitch, our_symbols: (char, char), find_opponent: bool) -> spec_fn(int, int) -> int {
    |r: int, c: int| if is_target(p.at(r, c), our_symbols, find_opponent) { 1int } else { 0int }
}

/// Sum over the whole pitch, row by row.
pub open spec fn pitch_sum(p: Pitch, f: spec_fn(int, int) -> int) -> int {
    grid_sum(f, pitch_widths(p), p.height_spec())
}

/// The average position of the target cells (integer division), or the
/// centre of the pitch when there is none.
pub open spec fn average_position_spec(p: Pitch, our_symbols: (char, char), find_opponent: bool) -> Position {
    let n = pitch_sum(p, target_ones(p, our_symbols, find_opponent));
    let rows = pitch_sum(p, target_rows(p, our_symbols, find_opponent));
    let cols = pitch_sum(p, target_cols(p, our_symbols, find_opponent));
    if n > 0 {
        Position { row: (rows / n) as usize, col: (cols / n) as usize }
    } else {
        Position { row: (p.height_spec() / 2) as usize, col: (p.width_spec() / 2) as usize }
    }
}

/// The three sums behind the average fit in a `usize`.
pub open spec fn average_sums_fit(p: Pitch, our_symbols: (char, char), find_opponent: bool) -> bool {
    &&& pitch_sum(p, target_ones(p, our_symbols, find_opponent)) <= usize::MAX
    &&& pitch_sum(p, target_rows(p, our_symbols, find_opponent)) <= usize::MAX
    &&& pitch_sum(p, target_cols(p, our_symbols, find_opponent)) <= usize::MAX
}

/// Calculates the average (centre) position of a robot's cells: the
/// opponent's when `find_opponent`, ours otherwise.
pub fn calculate_average_position(pitch: &Pitch, our_symbols: (char, char), find_opponent: bool) -> (r: Position)
    requires
        pitch.covered(),
        average_sums_fit(*pitch, our_symbols, find_opponent),
    ensures
        r == average_position_spec(*pitch, our_symbols, find_opponent),
{
    let ghost p = *pitch;
    let ghost fr = target_rows(p, our_symbols, find_opponent);
    let ghost fc = target_cols(p, our_symbols, find_opponent);
    let ghost fo = target_ones(p, our_symbols, find_opponent);
    let ghost ws = pitch_widths(p);
    let height = pitch.dimensions.height;
    let width = pitch.dimensions.width;
    let mut total_row: usize = 0;
    let mut total_col: usize = 0;
    let mut cell_count: usize = 0;
    let mut row: usize = 0;
    while row < height
        invariant
            p == *pitch,
            fr == target_rows(p, our_symbols, find_opponent),
            fc == target_cols(p, our_symbols, find_opponent),
            fo == target_ones(p, our_symbols, find_opponent),
            ws == pitch_widths(p),
            height == p.height_spec(),
            width == p.width_spec(),
            p.covered(),
            average_sums_fit(p, our_symbols, find_opponent),
            row <= height,
            total_row == grid_sum(fr, ws, row as int),
            total_col == grid_sum(fc, ws, row as int),
            cell_count == grid_sum(fo, ws, row as int),
        decreases height - row,
    {
        proof {
            assert(p.grid()[row as int] == pitch.cells@[row as int]@);
            assert(p.grid()[row as int].len() >= width);
        }
        let mut col: usize = 0;
        while col < width
            invariant
                p == *pitch,
                fr == target_rows(p, our_symbols, find_opponent),
                fc == target_cols(p, our_symbols, find_opponent),
                fo == target_ones(p, our_symbols, find_opponent),
                ws == pitch_widths(p),
                height == p.height_spec(),
                width == p.width_spec(),
                p.covered(),
                average_sums_fit(p, our_symbols, find_opponent),
                row < height,
                col <= width,
                p.grid()[row as int] == pitch.cells@[row as int]@,
                p.grid()[row as int].len() >= width,
                total_row == grid_sum(fr, ws, row as int) + line_sum(fr, row as int, col as int),
                total_col == grid_sum(fc, ws, row as int) + line_sum(fc, row as int, col as int),
                cell_count == grid_sum(fo, ws, row as int) + line_sum(fo, row as int, col as int),
            decreases width - col,
        {
            let cell = pitch.cells[row][col];
            let is_target_cell = if find_opponent {
                is_opponent_cell(Some(cell), our_symbols)
            } else {
                is_our_cell(Some(cell), our_symbols)
            };
            proof {
                lemma_grid_sum_mono(fr, ws, row as int, col + 1, height as int);
                lemma_grid_sum_mono(fc, ws, row as int, col + 1, height as int);
                lemma_grid_sum_mono(fo, ws, row as int, col + 1, height as int);
            }
            if is_target_cell {
                total_row = total_row + row;
                total_col = total_col + col;
                cell_count = cell_count + 1;
            }
            col = col + 1;
        }
        row = row + 1;
    }
    if cell_count > 0 {
        Position { row: total_row / cell_count, col: total_col / cell_count }
    } else {
        Position { row: height / 2, col: width / 2 }
    }
}


/// The opponent cell at `(r, c)` has one of our cells as a neighbour.
pub open spec fn touches_at(p: Pitch, our_symbols: (char, char), r: int, c: int) -> bool {
    let a = adjacent_spec(p, Position { row: r as usize, col: c as usize });
    &&& opponent_cell_spec(Some(p.at(r, c)), our_symbols)
    &&& our_cell_spec(a.up, our_symbols) || our_cell_spec(a.down, our_symbols)
        || our_cell_spec(a.left, our_symbols) || our_cell_spec(a.right, our_symbols)
}

/// Some opponent cell of the pitch is next to one of ours.
pub open spec fn touching_spec(p: Pitch, our_symbols: (char, char)) -> bool {
    exists|r: int, c: int| p.inside(r, c) && #[trigger] touches_at(p, our_symbols, r, c)
}

/// Checks whether our robot is already adjacent to the opponent's.
pub fn are_we_touching_opponent(pitch: &Pitch, our_symbols: (char, char)) -> (r: bool)
    requires
        pitch.covered(),
    ensures
        r == touching_spec(*pitch, our_symbols),
{
    let ghost p = *pitch;
    let height = pitch.dimensions.height;
    let width = pitch.dimensions.width;
    let mut row: usize = 0;
    while row < height
        invariant
            p == *pitch,
            height == p.height_spec(),
            width == p.width_spec(),
            p.covered(),
            row <= height,
            forall|r: int, c: int| 0 <= r < row && p.inside(r, c) ==> !#[trigger] touches_at(p, our_symbols, r, c),
        decreases height - row,
    {
        proof {
            assert(p.grid()[row as int] == pitch.cells@[row as int]@);
            assert(p.grid()[row as int].len() >= width);
        }
        let mut col: usize = 0;
        while col < width
            invariant
                p == *pitch,
                height == p.height_spec(),
                width == p.width_spec(),
                p.covered(),
                row < height,
                col <= width,
                p.grid()[row as int] == pitch.cells@[row as int]@,
                p.grid()[row as int].len() >= width,
                forall|r: int, c: int| 0 <= r < row && p.inside(r, c) ==> !#[trigger] touches_at(p, our_symbols, r, c),
                forall|c: int| 0 <= c < col ==> !#[trigger] touches_at(p, our_symbols, row as int, c),
            decreases width - col,
        {
            let cell = pitch.cells[row][col];
            if is_opponent_cell(Some(cell), our_symbols) {
                let here = Position { row, col };
                proof { lemma_inside_adjacent_readable(p, here); }
                let adjacent = get_adjacent_cells(pitch, &here);
                if is_our_cell(adjacent.up, our_symbols) || is_our_cell(adjacent.down, our_symbols)
                    || is_our_cell(adjacent.left, our_symbols) || is_our_cell(adjacent.right, our_symbols)
                {
                    proof { assert(touches_at(p, our_symbols, row as int, col as int)); }
                    return true;
                }
            }
            col = col + 1;
        }
        row = row + 1;
    }
    false
}

/// The cell `(tr, tc)` as an enclosure target at distance `d`, when `cond`
/// holds and the cell is empty.
#[verifier::opaque]
pub open spec fn target_if_empty(p: Pitch, cond: bool, tr: int, tc: int, d: int) -> Seq<(Position, usize)> {
    if cond && p.at(tr, tc) == '.' {
        seq![(Position { row: tr as usize, col: tc as usize }, d as usize)]
    } else {
        Seq::empty()
    }
}

/// The empty cells at distance `d` above, below, left and right of `(r, c)`,
/// in that order, each with its distance.
pub open spec fn enclosure_step(p: Pitch, r: int, c: int, d: int) -> Seq<(Position, usize)> {
    target_if_empty(p, r >= d, r - d, c, d)
        + target_if_empty(p, r + d < p.height_spec(), r + d, c, d)
        + target_if_empty(p, c >= d, r, c - d, d)
        + target_if_empty(p, c + d < p.width_spec(), r, c + d, d)
}

/// The enclosure steps for distances `1 ..= n`.
pub open spec fn enclosure_steps(p: Pitch, r: int, c: int, n: int) -> Seq<(Position, usize)>
    decreases n,
{
    if n <= 0 {
        Seq::empty()
    } else {
        enclosure_steps(p, r, c, n - 1) + enclosure_step(p, r, c, n)
    }
}

/// The enclosure targets around the cell `(r, c)`: none unless it is an
/// opponent cell; otherwise the empty cells 1 to 3 steps away from it.
pub open spec fn enclosure_cell(p: Pitch, our_symbols: (char, char), r: int, c: int) -> Seq<(Position, usize)> {
    if opponent_cell_spec(Some(p.at(r, c)), our_symbols) {
        enclosure_steps(p, r, c, 3)
    } else {
        Seq::empty()
    }
}

/// The enclosure targets of every cell.
pub open spec fn enclosure_cells(p: Pitch, our_symbols: (char, char)) -> spec_fn(int, int) -> Seq<(Position, usize)> {
    |r: int, c: int| enclosure_cell(p, our_symbols, r, c)
}

/// All enclosure targets of the pitch, scanning it row by row.
pub open spec fn enclosure_positions(p: Pitch, our_symbols: (char, char)) -> Seq<(Position, usize)> {
    grid_concat(enclosure_cells(p, our_symbols), pitch_widths(p), p.height_spec())
}

/// Every entry of the list has a distance between 1 and 3.
pub open spec fn distances_in_range(ps: Seq<(Position, usize)>) -> bool {
    forall|k: int| 0 <= k < ps.len() ==> 1 <= (#[trigger] ps[k]).1 <= 3
}

/// Appends `target_if_empty(pitch, true, row, col, distance)`.
fn push_if_empty(pitch: &Pitch, positions: &mut Vec<(Position, usize)>, row: usize, col: usize, distance: usize)
    requires
        pitch.covered(),
        pitch.inside(row as int, col as int),
    ensures
        final(positions)@ == old(positions)@ + target_if_empty(*pitch, true, row as int, col as int, distance as int),
        forall|k: int| old(positions)@.len() <= k < final(positions)@.len() ==> (#[trigger] final(positions)@[k]).1 == distance,
{
    proof {
        assert(pitch.grid()[row as int] == pitch.cells@[row as int]@);
        assert(pitch.grid()[row as int].len() >= pitch.width_spec());
    }
    reveal(target_if_empty);
    if pitch.cells[row][col] == '.' {
        positions.push((Position { row, col }, distance));
    } else {
        assert(positions@ =~= positions@ + Seq::<(Position, usize)>::empty());
    }
}

/// Appends nothing, which is `target_if_empty` for a false condition.
proof fn lemma_target_if_false(p: Pitch, tr: int, tc: int, d: int)
    ensures
        target_if_empty(p, false, tr, tc, d) == Seq::<(Position, usize)>::empty(),
{
    reveal(target_if_empty);
}

/// Appends the empty cell `distance` steps above `(row, col)`, if any.
fn push_up(pitch: &Pitch, positions: &mut Vec<(Position, usize)>, row: usize, col: usize, distance: usize)
    requires
        pitch.covered(),
        pitch.inside(row as int, col as int),
    ensures
        final(positions)@ == old(positions)@ + target_if_empty(*pitch, row >= distance, row - distance, col as int, distance as int),
        forall|k: int| old(positions)@.len() <= k < final(positions)@.len() ==> (#[trigger] final(positions)@[k]).1 == distance,
{
    if row >= distance {
        push_if_empty(pitch, positions, row - distance, col, distance);
    } else {
        proof { lemma_target_if_false(*pitch, row - distance, col as int, distance as int); }
        assert(positions@ =~= positions@ + Seq::<(Position, usize)>::empty());
    }
}

/// Appends the empty cell `distance` steps below `(row, col)`, if any.
fn push_down(pitch: &Pitch, positions: &mut Vec<(Position, usize)>, row: usize, col: usize, distance: usize)
    requires
        pitch.covered(),
        pitch.inside(row as int, col as int),
    ensures
        final(positions)@ == old(positions)@ + target_if_empty(
            *pitch,
            row + distance < pitch.height_spec(),
            row + distance,
            col as int,
            distance as int,
        ),
        forall|k: int| old(positions)@.len() <= k < final(positions)@.len() ==> (#[trigger] final(positions)@[k]).1 == distance,
{
    if distance < pitch.dimensions.height - row {
        push_if_empty(pitch, positions, row + distance, col, distance);
    } else {
        proof { lemma_target_if_false(*pitch, row + distance, col as int, distance as int); }
        assert(positions@ =~= positions@ + Seq::<(Position, usize)>::empty());
    }
}

/// Appends the empty cell `distance` steps left of `(row, col)`, if any.
fn push_left(pitch: &Pitch, positions: &mut Vec<(Position, usize)>, row: usize, col: usize, distance: usize)
    requires
        pitch.covered(),
        pitch.inside(row as int, col as int),
    ensures
        final(positions)@ == old(positions)@ + target_if_empty(*pitch, col >= distance, row as int, col - distance, distance as int),
        forall|k: int| old(positions)@.len() <= k < final(positions)@.len() ==> (#[trigger] final(positions)@[k]).1 == distance,
{
    if col >= distance {
        push_if_empty(pitch, positions, row, col - distance, distance);
    } else {
        proof { lemma_target_if_false(*pitch, row as int, col - distance, distance as int); }
        assert(positions@ =~= positions@ + Seq::<(Position, usize)>::empty());
    }
}

/// Appends the empty cell `distance` steps right of `(row, col)`, if any.
fn push_right(pitch: &Pitch, positions: &mut Vec<(Position, usize)>, row: usize, col: usize, distance: usize)
    requires
        pitch.covered(),
        pitch.inside(row as int, col as int),
    ensures
        final(positions)@ == old(positions)@ + target_if_empty(
            *pitch,
            col + distance < pitch.width_spec(),
            row as int,
            col + distance,
            distance as int,
        ),
        forall|k: int| old(positions)@.len() <= k < final(positions)@.len() ==> (#[trigger] final(positions)@[k]).1 == distance,
{
    if distance < pitch.dimensions.width - col {
        push_if_empty(pitch, positions, row, col + distance, distance);
    } else {
        proof { lemma_target_if_false(*pitch, row as int, col + distance, distance as int); }
        assert(positions@ =~= positions@ + Seq::<(Position, usize)>::empty());
    }
}

/// Appends the enclosure targets at distance `distance` around `(row, col)`.
fn push_enclosure_step(pitch: &Pitch, positions: &mut Vec<(Position, usize)>, row: usize, col: usize, distance: usize)
    requires
        pitch.covered(),
        pitch.inside(row as int, col as int),
    ensures
        final(positions)@ == old(positions)@ + enclosure_step(*pitch, row as int, col as int, distance as int),
        forall|k: int| old(positions)@.len() <= k < final(positions)@.len() ==> (#[trigger] final(positions)@[k]).1 == distance,
{
    let ghost start = positions@;
    push_up(pitch, positions, row, col, distance);
    let ghost a = positions@;
    push_down(pitch, positions, row, col, distance);
    let ghost b = positions@;
    push_left(pitch, positions, row, col, distance);
    let ghost c = positions@;
    push_right(pitch, positions, row, col, distance);
    proof {
        let s = enclosure_step(*pitch, row as int, col as int, distance as int);
        assert(positions@ =~= start + s);
        assert forall|k: int| start.len() <= k < positions@.len() implies (#[trigger] positions@[k]).1 == distance by {
            if k < a.len() {
            } else if k < b.len() {
                assert(positions@[k] == b[k]);
            } else if k < c.len() {
                assert(positions@[k] == c[k]);
            }
        }
    }
}

/// Finds the empty positions that would trap opponent cells: for each
/// opponent cell, row by row, the empty cells 1, 2 and 3 steps above,
/// below, left and right of it, each with its distance.
pub fn find_enclosure_positions(pitch: &Pitch, our_symbols: (char, char)) -> (r: Vec<(Position, usize)>)
    requires
        pitch.covered(),
    ensures
        r@ == enclosure_positions(*pitch, our_symbols),
        distances_in_range(r@),
{
    let ghost p = *pitch;
    let ghost g = enclosure_cells(p, our_symbols);
    let ghost ws = pitch_widths(p);
    let height = pitch.dimensions.height;
    let width = pitch.dimensions.width;
    let mut positions: Vec<(Position, usize)> = Vec::new();
    let mut row: usize = 0;
    while row < height
        invariant
            p == *pitch,
            g == enclosure_cells(p, our_symbols),
            ws == pitch_widths(p),
            height == p.height_spec(),
            width == p.width_spec(),
            p.covered(),
            row <= height,
            positions@ == grid_concat(g, ws, row as int),
            distances_in_range(positions@),
        decreases height - row,
    {
        proof {
            assert(p.grid()[row as int] == pitch.cells@[row as int]@);
            assert(p.grid()[row as int].len() >= width);
        }
        let mut col: usize = 0;
        while col < width
            invariant
                p == *pitch,
                g == enclosure_cells(p, our_symbols),
                ws == pitch_widths(p),
                height == p.height_spec(),
                width == p.width_spec(),
                p.covered(),
                row < height,
                col <= width,
                p.grid()[row as int] == pitch.cells@[row as int]@,
                p.grid()[row as int].len() >= width,
                positions@ == grid_concat(g, ws, row as int) + line_concat(g, row as int, col as int),
                distances_in_range(positions@),
            decreases width - col,
        {
            let ghost before = positions@;
            let cell = pitch.cells[row][col];
            if is_opponent_cell(Some(cell), our_symbols) {
                let mut distance: usize = 1;
                while distance <= 3
                    invariant
                        p == *pitch,
                        p.covered(),
                        p.inside(row as int, col as int),
                        1 <= distance <= 4,
                        positions@ == before + enclosure_steps(p, row as int, col as int, distance - 1),
                        distances_in_range(positions@),
                    decreases 4 - distance,
                {
                    let ghost mid = positions@;
                    push_enclosure_step(pitch, &mut positions, row, col, distance);
                    proof {
                        assert(distances_in_range(positions@)) by {
                            assert forall|k: int| 0 <= k < positions@.len() implies 1 <= (#[trigger] positions@[k]).1 <= 3 by {
                                if k >= mid.len() {
                                } else {
                                    assert(positions@[k] == mid[k]);
                                }
                            }
                        }
                        assert(positions@ =~= before + enclosure_steps(p, row as int, col as int, distance as int));
                    }
                    distance = distance + 1;
                }
            }
            proof {
                assert(g(row as int, col as int) == enclosure_cell(p, our_symbols, row as int, col as int));
                assert(positions@ =~= grid_concat(g, ws, row as int) + line_concat(g, row as int, col + 1));
            }
            col = col + 1;
        }
        row = row + 1;
    }
    positions
}


/// The centre of a placed object: its corner plus half of the trimmed size
/// and offset, clamped to the last row and column of the pitch.
pub open spec fn object_center(p: Pitch, pos: Position, o: ObjectModel) -> Position {
    let r = pos.row + (o.trimmed_dimensions.height + o.trim_offset.0) / 2;
    let c = pos.col + (o.trimmed_dimensions.width + o.trim_offset.1) / 2;
    Position {
        row: (if r >= p.height_spec() { p.height_spec() - 1 } else { r }) as usize,
        col: (if c >= p.width_spec() { p.width_spec() - 1 } else { c }) as usize,
    }
}

/// The centre of a placement can be computed in `usize` arithmetic on a
/// non-empty pitch.
pub open spec fn center_computable(p: Pitch, pos: Position, o: ObjectModel) -> bool {
    &&& p.height_spec() > 0
    &&& p.width_spec() > 0
    &&& o.trimmed_dimensions.height + o.trim_offset.0 <= usize::MAX
    &&& o.trimmed_dimensions.width + o.trim_offset.1 <= usize::MAX
    &&& pos.row + (o.trimmed_dimensions.height + o.trim_offset.0) / 2 <= usize::MAX
    &&& pos.col + (o.trimmed_dimensions.width + o.trim_offset.1) / 2 <= usize::MAX
}

/// Calculates the centre position of a placed object.
pub fn calculate_object_center(pitch: &Pitch, position: &Position, object: &Object) -> (r: Position)
    requires
        center_computable(*pitch, *position, object@),
    ensures
        r == object_center(*pitch, *position, object@),
{
    let mut center_row = position.row + (object.trimmed_dimensions.height + object.trim_offset.0) / 2;
    let mut center_col = position.col + (object.trimmed_dimensions.width + object.trim_offset.1) / 2;
    if center_row >= pitch.dimensions.height {
        center_row = pitch.dimensions.height - 1;
    }
    if center_col >= pitch.dimensions.width {
        center_col = pitch.dimensions.width - 1;
    }
    Position { row: center_row, col: center_col }
}

/// The square of the Euclidean distance between two positions.
pub open spec fn squared_distance(a: Position, b: Position) -> int {
    (a.row - b.row) * (a.row - b.row) + (a.col - b.col) * (a.col - b.col)
}

/// Calculates the squared Euclidean distance between two positions; it
/// orders positions as the distance itself does.
pub fn calculate_squared_distance(pos1: Position, pos2: Position) -> (d: u128)
    requires
        pos1.row <= 0x7fff_ffff_ffff_ffff,
        pos1.col <= 0x7fff_ffff_ffff_ffff,
        pos2.row <= 0x7fff_ffff_ffff_ffff,
        pos2.col <= 0x7fff_ffff_ffff_ffff,
    ensures
        d == squared_distance(pos1, pos2),
{
    let row_diff: u128 = if pos1.row >= pos2.row { (pos1.row - pos2.row) as u128 } else { (pos2.row - pos1.row) as u128 };
    let col_diff: u128 = if pos1.col >= pos2.col { (pos1.col - pos2.col) as u128 } else { (pos2.col - pos1.col) as u128 };
    assert(row_diff * row_diff <= 0x7fff_ffff_ffff_ffffu128 * 0x7fff_ffff_ffff_ffffu128) by (nonlinear_arith)
        requires
            row_diff <= 0x7fff_ffff_ffff_ffffu128,
    ;
    assert(col_diff * col_diff <= 0x7fff_ffff_ffff_ffffu128 * 0x7fff_ffff_ffff_ffffu128) by (nonlinear_arith)
        requires
            col_diff <= 0x7fff_ffff_ffff_ffffu128,
    ;
    assert(row_diff * row_diff == (pos1.row - pos2.row) * (pos1.row - pos2.row)) by (nonlinear_arith)
        requires
            row_diff == pos1.row - pos2.row || row_diff == pos2.row - pos1.row,
    ;
    assert(col_diff * col_diff == (pos1.col - pos2.col) * (pos1.col - pos2.col)) by (nonlinear_arith)
        requires
            col_diff == pos1.col - pos2.col || col_diff == pos2.col - pos1.col,
    ;
    row_diff * row_diff + col_diff * col_diff
}

/// The chasing bonus cap by turn: 36 at turn 0, decaying by a factor of
/// 2^-0.15 per turn (rounded down), and never below 4.
pub open spec fn distance_bonus_table() -> Seq<i32> {
    seq![36, 32, 29, 26, 23, 21, 19, 17, 15, 14, 12, 11, 10, 9, 8, 7, 6, 6, 5]
}

/// The largest chasing bonus at the given turn.
pub open spec fn max_distance_bonus_spec(turn: int) -> i32 {
    if 0 <= turn < 19 {
        distance_bonus_table()[turn]
    } else {
        4
    }
}

/// Calculates the largest chasing bonus at the given turn.
pub fn max_distance_bonus(turn_number: usize) -> (b: i32)
    ensures
        b == max_distance_bonus_spec(turn_number as int),
{
    let table: [i32; 19] = [36, 32, 29, 26, 23, 21, 19, 17, 15, 14, 12, 11, 10, 9, 8, 7, 6, 6, 5];
    assert(table@ == distance_bonus_table());
    if turn_number < 19 {
        table[turn_number]
    } else {
        4
    }
}

/// The gap-filling bonus by turn: 1.07 to the power of the turn read as a
/// 32-bit signed number, rounded down, at most 50 (0 for negative powers).
pub open spec fn perfect_fit_table() -> Seq<i32> {
    seq![1, 1, 1, 1, 1, 1, 1, 1, 1, 1, 1, 2, 2, 2, 2, 2, 2, 3, 3, 3, 3, 4, 4, 4, 5, 5, 5, 6, 6, 7, 7, 8, 8, 9, 9, 10, 11, 12, 13, 13, 14, 16, 17, 18, 19, 21, 22, 24, 25, 27, 29, 31, 33, 36, 38, 41, 44, 47]
}

/// The gap-filling bonus at the given turn.
pub open spec fn perfect_fit_bonus_spec(turn: int) -> i32 {
    let k = turn % 0x1_0000_0000;
    if k >= 0x8000_0000 {
        0
    } else if k < 58 {
        perfect_fit_table()[k]
    } else {
        50
    }
}

/// Calculates the gap-filling bonus at the given turn.
pub fn perfect_fit_bonus(turn_number: usize) -> (b: i32)
    ensures
        b == perfect_fit_bonus_spec(turn_number as int),
{
    let table: [i32; 58] = [1, 1, 1, 1, 1, 1, 1, 1, 1, 1, 1, 2, 2, 2, 2, 2, 2, 3, 3, 3, 3, 4, 4, 4, 5, 5, 5, 6, 6, 7, 7, 8, 8, 9, 9, 10, 11, 12, 13, 13, 14, 16, 17, 18, 19, 21, 22, 24, 25, 27, 29, 31, 33, 36, 38, 41, 44, 47];
    assert(table@ == perfect_fit_table());
    let k: u64 = (turn_number as u64) % 0x1_0000_0000;
    if k >= 0x8000_0000 {
        0
    } else if k < 58 {
        table[k as usize]
    } else {
        50
    }
}

/// Each entry of the chasing table is at most the one before it.
proof fn lemma_distance_table_steps()
    ensures
        forall|k: int| 0 <= k < 18 ==> #[trigger] distance_bonus_table()[k + 1] <= distance_bonus_table()[k],
        forall|k: int| 0 <= k < 19 ==> 5 <= #[trigger] distance_bonus_table()[k] <= 36,
{
}

/// The first entry of a stretch of a list that never grows is at least
/// the last.
proof fn lemma_non_increasing_stretch(s: Seq<i32>, a: int, b: int)
    requires
        0 <= a <= b < s.len(),
        forall|k: int| a <= k < b ==> #[trigger] s[k + 1] <= s[k],
    ensures
        s[b] <= s[a],
    decreases b - a,
{
    if a < b {
        lemma_non_increasing_stretch(s, a, b - 1);
        assert(s[(b - 1) + 1] <= s[b - 1]);
    }
}

/// The first entry of a stretch of a list that never shrinks is at most
/// the last.
proof fn lemma_non_decreasing_stretch(s: Seq<i32>, a: int, b: int)
    requires
        0 <= a <= b < s.len(),
        forall|k: int| a <= k < b ==> #[trigger] s[k] <= s[k + 1],
    ensures
        s[a] <= s[b],
    decreases b - a,
{
    if a < b {
        lemma_non_decreasing_stretch(s, a, b - 1);
        assert(s[b - 1] <= s[(b - 1) + 1]);
    }
}

/// The chasing bonus decays as the game goes on: it starts at 36, never
/// grows from one turn to a later one, and never drops below 4.
pub proof fn lemma_distance_bonus_decays(t1: int, t2: int)
    requires
        0 <= t1 <= t2,
    ensures
        4 <= max_distance_bonus_spec(t2) <= max_distance_bonus_spec(t1) <= 36,
        max_distance_bonus_spec(0) == 36,
{
    lemma_distance_table_steps();
    let t = distance_bonus_table();
    if t2 < 19 {
        lemma_non_increasing_stretch(t, t1, t2);
    } else if t1 < 19 {
        assert(5 <= t[t1]);
    }
}

/// Each entry of the gap-filling table is at least the one before it.
proof fn lemma_perfect_fit_table_steps()
    ensures
        forall|k: int| 0 <= k < 57 ==> #[trigger] perfect_fit_table()[k] <= perfect_fit_table()[k + 1],
        forall|k: int| 0 <= k < 58 ==> 1 <= #[trigger] perfect_fit_table()[k] <= 50,
{
}

/// The gap-filling bonus grows as the game goes on: it starts at 1, never
/// shrinks from one turn to a later one while the turn fits a 32-bit signed
/// number, and never exceeds 50.
pub proof fn lemma_perfect_fit_bonus_grows(t1: int, t2: int)
    requires
        0 <= t1 <= t2 < 0x8000_0000,
    ensures
        1 <= perfect_fit_bonus_spec(t1) <= perfect_fit_bonus_spec(t2) <= 50,
        perfect_fit_bonus_spec(0) == 1,
{
    lemma_perfect_fit_table_steps();
    let t = perfect_fit_table();
    assert(t1 % 0x1_0000_0000 == t1 && t2 % 0x1_0000_0000 == t2);
    if t2 < 58 {
        lemma_non_decreasing_stretch(t, t1, t2);
    } else if t1 < 58 {
        assert(t[t1] <= 50);
    }
}

/// The score tiers awarded to the closest moves: `b`, `b / 2`, `b / 4`, ...
/// while greater than 1.
pub open spec fn score_tiers_spec(b: int) -> Seq<i32>
    decreases b,
{
    if b > 1 {
        seq![b as i32] + score_tiers_spec(b / 2)
    } else {
        Seq::empty()
    }
}

/// The tiers of a bonus `b <= i32::MAX` lie between 1 and `b`, and never increase.
pub proof fn lemma_tiers_decrease(b: int)
    requires
        b <= i32::MAX,
    ensures
        forall|k: int| 0 <= k < score_tiers_spec(b).len() ==> 1 < #[trigger] score_tiers_spec(b)[k] <= b,
        forall|k: int, l: int| 0 <= k <= l < score_tiers_spec(b).len()
            ==> #[trigger] score_tiers_spec(b)[k] >= #[trigger] score_tiers_spec(b)[l],
    decreases b,
{
    if b > 1 {
        lemma_tiers_decrease(b / 2);
        let t = score_tiers_spec(b);
        let rest = score_tiers_spec(b / 2);
        assert(t == seq![b as i32] + rest);
        assert forall|k: int| 0 <= k < t.len() implies 1 < #[trigger] t[k] <= b by {
            if k > 0 {
                assert(t[k] == rest[k - 1]);
            }
        }
        assert forall|k: int, l: int| 0 <= k <= l < t.len() implies #[trigger] t[k] >= #[trigger] t[l] by {
            if k > 0 {
                assert(t[k] == rest[k - 1]);
                assert(t[l] == rest[l - 1]);
            } else if l > 0 {
                assert(t[l] == rest[l - 1]);
            }
        }
    }
}

/// Builds the score tiers of a bonus.
fn score_tiers(max_bonus: i32) -> (t: Vec<i32>)
    ensures
        t@ == score_tiers_spec(max_bonus as int),
{
    let mut tiers: Vec<i32> = Vec::new();
    let mut current_bonus = max_bonus;
    while current_bonus > 1
        invariant
            tiers@ + score_tiers_spec(current_bonus as int) == score_tiers_spec(max_bonus as int),
        decreases current_bonus,
    {
        let ghost before = tiers@;
        tiers.push(current_bonus);
        assert(score_tiers_spec(current_bonus as int) == seq![current_bonus] + score_tiers_spec(current_bonus / 2));
        assert(tiers@ + score_tiers_spec(current_bonus / 2) =~= before + score_tiers_spec(current_bonus as int));
        current_bonus = current_bonus / 2;
    }
    assert(tiers@ + score_tiers_spec(current_bonus as int) =~= tiers@);
    tiers
}


/// A move with `bonus` added to its score.
pub open spec fn with_bonus(m: MoveModel, bonus: int) -> MoveModel {
    MoveModel { position: m.position, score: (m.score + bonus) as i32, object: m.object }
}

/// The squared distance from each move's centre to the opponent's centre.
pub open spec fn move_distances(p: Pitch, ms: Seq<MoveModel>, opponent_center: Position) -> Seq<int> {
    Seq::new(ms.len(), |i: int| squared_distance(object_center(p, ms[i].position, ms[i].object), opponent_center))
}

/// Move `j` comes before move `i` in the order of increasing distance,
/// ties kept in list order.
pub open spec fn comes_before(ds: Seq<int>, j: int, i: int) -> bool {
    ds[j] < ds[i] || (ds[j] == ds[i] && j < i)
}

/// The number of moves among the first `n` that come before move `i`.
pub open spec fn count_before(ds: Seq<int>, i: int, n: int) -> int
    decreases n,
{
    if n <= 0 {
        0
    } else {
        count_before(ds, i, n - 1) + if comes_before(ds, n - 1, i) { 1int } else { 0int }
    }
}

/// The place of move `i` in the order of increasing distance (0 for the
/// closest).
pub open spec fn distance_rank(ds: Seq<int>, i: int) -> int {
    count_before(ds, i, ds.len() as int)
}

/// The chasing bonus of move `i`: the tier at its rank, 0 past the tiers.
pub open spec fn tier_bonus(ds: Seq<int>, tiers: Seq<i32>, i: int) -> int {
    let k = distance_rank(ds, i);
    if k < tiers.len() {
        tiers[k] as int
    } else {
        0
    }
}

/// The moves after the chasing strategy: the closest moves to the opponent's
/// centre receive the score tiers of the turn, in order.
pub open spec fn apply_distance(p: Pitch, ms: Seq<MoveModel>, opponent_center: Position, turn: int) -> Seq<MoveModel> {
    let ds = move_distances(p, ms, opponent_center);
    let tiers = score_tiers_spec(max_distance_bonus_spec(turn) as int);
    Seq::new(ms.len(), |i: int| with_bonus(ms[i], tier_bonus(ds, tiers, i)))
}

/// A placement whose centre and bonuses can be computed without overflow.
pub open spec fn move_ready(p: Pitch, m: MoveModel) -> bool {
    &&& m.object.wf()
    &&& center_computable(p, m.position, m.object)
    &&& m.position.row + m.object.trimmed_dimensions.height <= usize::MAX
    &&& m.position.col + m.object.trimmed_dimensions.width <= usize::MAX
    &&& m.position.row + m.object.original_dimensions.height <= usize::MAX
    &&& m.position.col + m.object.original_dimensions.width <= usize::MAX
}

/// Every coordinate that the chasing strategy measures is below 2^63, so
/// squared distances fit in 128 bits.
pub open spec fn distances_computable(p: Pitch, opponent_center: Position) -> bool {
    &&& p.height_spec() <= 0x7fff_ffff_ffff_ffff
    &&& p.width_spec() <= 0x7fff_ffff_ffff_ffff
    &&& opponent_center.row <= 0x7fff_ffff_ffff_ffff
    &&& opponent_center.col <= 0x7fff_ffff_ffff_ffff
}

/// Counts the moves that come before move `i`.
fn rank_of(distances: &Vec<u128>, i: usize) -> (k: usize)
    requires
        i < distances@.len(),
    ensures
        k == distance_rank(distances@.map_values(|d: u128| d as int), i as int),
{
    let ghost ds = distances@.map_values(|d: u128| d as int);
    let mut count: usize = 0;
    let mut j: usize = 0;
    while j < distances.len()
        invariant
            ds == distances@.map_values(|d: u128| d as int),
            i < distances@.len(),
            j <= distances@.len(),
            count == count_before(ds, i as int, j as int),
            count <= j,
        decreases distances.len() - j,
    {
        if distances[j] < distances[i] || (distances[j] == distances[i] && j < i) {
            count = count + 1;
        }
        j = j + 1;
    }
    count
}

/// Strategy 1: scores moves by proximity to the opponent's centre. The
/// closest moves get the score tiers of the turn, halving from the first.
pub fn score_by_distance_to_opponent(
    pitch: &Pitch,
    placements: &mut Vec<PotentialMove>,
    opponent_center: Position,
    turn_number: usize,
)
    requires
        distances_computable(*pitch, opponent_center),
        forall|i: int| 0 <= i < old(placements)@.len() ==> #[trigger] move_ready(*pitch, old(placements)@[i]@),
        forall|i: int| 0 <= i < old(placements)@.len() ==> (#[trigger] old(placements)@[i]).score + 36 <= i32::MAX,
    ensures
        moves_of(final(placements)) == apply_distance(*pitch, moves_of(old(placements)), opponent_center, turn_number as int),
{
    let ghost p = *pitch;
    let ghost ms = moves_of(placements);
    let mut distances: Vec<u128> = Vec::new();
    let mut index: usize = 0;
    while index < placements.len()
        invariant
            p == *pitch,
            ms == moves_of(placements),
            distances_computable(p, opponent_center),
            forall|i: int| 0 <= i < ms.len() ==> #[trigger] move_ready(p, ms[i]),
            index <= ms.len(),
            distances@.len() == index,
            forall|k: int| 0 <= k < index ==> (#[trigger] distances@[k]) as int == move_distances(p, ms, opponent_center)[k],
        decreases ms.len() - index,
    {
        let placement = &placements[index];
        proof {
            assert(ms[index as int] == placement@);
            assert(move_ready(p, ms[index as int]));
        }
        let object_center = calculate_object_center(pitch, &placement.position, &placement.object);
        let distance = calculate_squared_distance(object_center, opponent_center);
        distances.push(distance);
        index = index + 1;
    }
    let ghost ds = distances@.map_values(|d: u128| d as int);
    assert(ds =~= move_distances(p, ms, opponent_center));

    let max_bonus = max_distance_bonus(turn_number);
    let score_tiers = score_tiers(max_bonus);
    proof { lemma_tiers_decrease(max_bonus as int); }
    let ghost tiers = score_tiers@;

    let mut index: usize = 0;
    while index < placements.len()
        invariant
            p == *pitch,
            ds == distances@.map_values(|d: u128| d as int),
            ds == move_distances(p, ms, opponent_center),
            tiers == score_tiers@,
            tiers == score_tiers_spec(max_distance_bonus_spec(turn_number as int) as int),
            forall|k: int| 0 <= k < tiers.len() ==> 1 < #[trigger] tiers[k] <= 36,
            distances@.len() == ms.len(),
            placements@.len() == ms.len(),
            forall|i: int| 0 <= i < ms.len() ==> (#[trigger] ms[i]).score + 36 <= i32::MAX,
            index <= ms.len(),
            forall|k: int| 0 <= k < index ==> #[trigger] moves_of(placements)[k] == apply_distance(p, ms, opponent_center, turn_number as int)[k],
            forall|k: int| index <= k < ms.len() ==> #[trigger] moves_of(placements)[k] == ms[k],
        decreases ms.len() - index,
    {
        let rank = rank_of(&distances, index);
        let ghost before = placements@;
        let ghost before_moves = moves_of(placements);
        proof {
            assert(moves_of(placements)[index as int] == ms[index as int]);
            assert(ms[index as int].score + 36 <= i32::MAX);
        }
        if rank < score_tiers.len() {
            let bonus = score_tiers[rank];
            assert(1 < tiers[rank as int] <= 36);
            placements[index].score = placements[index].score + bonus;
        }
        proof {
            assert(placements@.len() == before.len());
            assert forall|k: int| 0 <= k < ms.len() && k != index implies #[trigger] placements@[k] == before[k] by {}
            assert forall|k: int| 0 <= k < ms.len() && k != index implies #[trigger] moves_of(placements)[k] == before_moves[k] by {
                assert(placements@[k] == before[k]);
            }
            assert(moves_of(placements)[index as int] == apply_distance(p, ms, opponent_center, turn_number as int)[index as int]);
        }
        index = index + 1;
    }
    assert(moves_of(placements) =~= apply_distance(p, ms, opponent_center, turn_number as int));
}


/// Among the first `n` moves, fewer come before a closer move than before a
/// farther one (the closer one itself counting for the farther one only).
proof fn lemma_count_before_closer(ds: Seq<int>, i: int, j: int, n: int)
    requires
        0 <= i < ds.len(),
        0 <= j < ds.len(),
        ds[i] < ds[j],
        0 <= n <= ds.len(),
    ensures
        count_before(ds, i, n) + (if i < n { 1int } else { 0int }) <= count_before(ds, j, n),
    decreases n,
{
    if n > 0 {
        lemma_count_before_closer(ds, i, j, n - 1);
    }
}

/// The rank of a move is below the number of moves.
proof fn lemma_count_before_bound(ds: Seq<int>, i: int, n: int)
    requires
        0 <= n,
    ensures
        0 <= count_before(ds, i, n) <= n,
    decreases n,
{
    if n > 0 {
        lemma_count_before_bound(ds, i, n - 1);
    }
}

/// A strictly closer move never receives a smaller chasing bonus.
pub proof fn lemma_closer_move_gets_no_smaller_bonus(ds: Seq<int>, b: int, i: int, j: int)
    requires
        0 <= i < ds.len(),
        0 <= j < ds.len(),
        ds[i] < ds[j],
        b <= i32::MAX,
    ensures
        tier_bonus(ds, score_tiers_spec(b), i) >= tier_bonus(ds, score_tiers_spec(b), j),
        tier_bonus(ds, score_tiers_spec(b), j) >= 0,
{
    lemma_count_before_closer(ds, i, j, ds.len() as int);
    lemma_count_before_bound(ds, i, ds.len() as int);
    lemma_tiers_decrease(b);
    let t = score_tiers_spec(b);
    let ri = distance_rank(ds, i);
    let rj = distance_rank(ds, j);
    if rj < t.len() {
        assert(t[ri] >= t[rj]);
    } else if ri < t.len() {
        assert(t[ri] > 1);
    }
}

/// The chasing strategy never gives a move a smaller bonus than a move whose
/// centre is farther from the opponent's centre.
pub proof fn lemma_chasing_prefers_closer_moves(
    p: Pitch,
    ms: Seq<MoveModel>,
    opponent_center: Position,
    turn: int,
    i: int,
    j: int,
)
    requires
        0 <= i < ms.len(),
        0 <= j < ms.len(),
        move_distances(p, ms, opponent_center)[i] < move_distances(p, ms, opponent_center)[j],
        forall|k: int| 0 <= k < ms.len() ==> (#[trigger] ms[k]).score + 36 <= i32::MAX,
    ensures
        apply_distance(p, ms, opponent_center, turn)[i].score - ms[i].score
            >= apply_distance(p, ms, opponent_center, turn)[j].score - ms[j].score,
{
    let ds = move_distances(p, ms, opponent_center);
    let b = max_distance_bonus_spec(turn) as int;
    assert(b <= 36) by {
        if 0 <= turn < 19 {
            assert(distance_bonus_table()[turn] <= 36);
        }
    }
    lemma_closer_move_gets_no_smaller_bonus(ds, b, i, j);
    lemma_tiers_decrease(b);
    let t = score_tiers_spec(b);
    let bi = tier_bonus(ds, t, i);
    let bj = tier_bonus(ds, t, j);
    assert(0 <= bi <= 36) by {
        lemma_count_before_bound(ds, i, ds.len() as int);
    }
    assert(0 <= bj <= 36) by {
        lemma_count_before_bound(ds, j, ds.len() as int);
    }
}


/// Entry `k` of the list is the enclosure target `(r, c)` at distance `d`.
pub open spec fn targets_at(ps: Seq<(Position, usize)>, k: int, r: int, c: int, d: int) -> bool {
    &&& 0 <= k < ps.len()
    &&& ps[k].0.row == r
    &&& ps[k].0.col == c
    &&& ps[k].1 == d
}

/// The list holds `(r, c)` as a target at distance `d`.
pub open spec fn has_target(ps: Seq<(Position, usize)>, r: int, c: int, d: int) -> bool {
    exists|k: int| #[trigger] targets_at(ps, k, r, c, d)
}

/// The smallest distance at which `(r, c)` is listed, 3 when it is not
/// listed closer.
pub open spec fn best_enclosure_distance(ps: Seq<(Position, usize)>, r: int, c: int) -> int {
    if has_target(ps, r, c, 1) {
        1
    } else if has_target(ps, r, c, 2) {
        2
    } else {
        3
    }
}

/// The enclosure bonus of each cell of a move's trimmed shape: 12 divided
/// by the best distance for an `O` cell (12, 6 or 4), 0 for other cells.
pub open spec fn enclosure_terms(ps: Seq<(Position, usize)>, m: MoveModel) -> spec_fn(int, int) -> int {
    |i: int, j: int|
        if m.object.trimmed_cells[i][j] == 'O' {
            12int / best_enclosure_distance(ps, m.position.row + i, m.position.col + j)
        } else {
            0int
        }
}

/// Every row of a move's trimmed shape has the trimmed width.
pub open spec fn trimmed_widths(m: MoveModel) -> spec_fn(int) -> int {
    |i: int| m.object.trimmed_dimensions.width as int
}

/// The enclosure bonus of a move: the sum of its cells' bonuses.
pub open spec fn enclosure_bonus(ps: Seq<(Position, usize)>, m: MoveModel) -> int {
    grid_sum(enclosure_terms(ps, m), trimmed_widths(m), m.object.trimmed_dimensions.height as int)
}

/// The `O` cell `(i, j)` of the move lands on a target at distance 1.
pub open spec fn encloses_at(ps: Seq<(Position, usize)>, m: MoveModel, i: int, j: int) -> bool {
    &&& 0 <= i < m.object.trimmed_dimensions.height
    &&& 0 <= j < m.object.trimmed_dimensions.width
    &&& m.object.trimmed_cells[i][j] == 'O'
    &&& has_target(ps, m.position.row + i, m.position.col + j, 1)
}

/// Some move places an `O` cell right next to an opponent cell.
pub open spec fn enclosure_found(ps: Seq<(Position, usize)>, ms: Seq<MoveModel>) -> bool {
    exists|n: int, i: int, j: int| 0 <= n < ms.len() && #[trigger] encloses_at(ps, ms[n], i, j)
}

/// The moves after the enclosure strategy: each gets its enclosure bonus.
pub open spec fn apply_enclosure(ps: Seq<(Position, usize)>, ms: Seq<MoveModel>) -> Seq<MoveModel> {
    Seq::new(ms.len(), |n: int| with_bonus(ms[n], enclosure_bonus(ps, ms[n])))
}

/// The best distance at which `(row, col)` is listed.
fn closest_enclosure(positions: &Vec<(Position, usize)>, row: usize, col: usize) -> (best: usize)
    requires
        distances_in_range(positions@),
    ensures
        best == best_enclosure_distance(positions@, row as int, col as int),
{
    let ghost ps = positions@;
    let mut best: usize = 3;
    let mut k: usize = 0;
    while k < positions.len()
        invariant
            ps == positions@,
            distances_in_range(ps),
            k <= ps.len(),
            forall|kk: int| 0 <= kk < k ==> !#[trigger] targets_at(ps, kk, row as int, col as int, 1),
            best == 2 ==> exists|kk: int| 0 <= kk < k && #[trigger] targets_at(ps, kk, row as int, col as int, 2),
            best == 3 ==> forall|kk: int| 0 <= kk < k ==> !#[trigger] targets_at(ps, kk, row as int, col as int, 2),
            best == 2 || best == 3,
        decreases ps.len() - k,
    {
        let entry = positions[k];
        let enclosure_distance = entry.1;
        if entry.0.row == row && entry.0.col == col && enclosure_distance < best {
            if enclosure_distance == 1 {
                assert(targets_at(ps, k as int, row as int, col as int, 1));
                return 1;
            }
            best = enclosure_distance;
            assert(targets_at(ps, k as int, row as int, col as int, 2));
        }
        k = k + 1;
    }
    best
}

/// The enclosure bonus of one move, and whether it encloses.
fn enclosure_bonus_of(positions: &Vec<(Position, usize)>, placement: &PotentialMove) -> (r: (i64, bool))
    requires
        distances_in_range(positions@),
        placement@.object.wf(),
        placement.position.row + placement.object.trimmed_dimensions.height <= usize::MAX,
        placement.position.col + placement.object.trimmed_dimensions.width <= usize::MAX,
        placement.score + enclosure_bonus(positions@, placement@) <= i32::MAX,
    ensures
        r.0 == enclosure_bonus(positions@, placement@),
        r.1 == exists|i: int, j: int| #[trigger] encloses_at(positions@, placement@, i, j),
{
    let ghost ps = positions@;
    let ghost m = placement@;
    let ghost f = enclosure_terms(ps, m);
    let ghost ws = trimmed_widths(m);
    let height = placement.object.trimmed_dimensions.height;
    let width = placement.object.trimmed_dimensions.width;
    let ghost total = enclosure_bonus(ps, m);
    proof {
        assert forall|i: int, c: int| 0 <= i < height && 0 <= c < ws(i) implies 0 <= #[trigger] f(i, c) by {}
        crate::grid_matrix::lemma_grid_sum_nonneg(f, ws, height as int);
    }
    let mut bonus: i64 = 0;
    let mut found = false;
    let mut object_row: usize = 0;
    while object_row < height
        invariant
            ps == positions@,
            m == placement@,
            f == enclosure_terms(ps, m),
            ws == trimmed_widths(m),
            total == enclosure_bonus(ps, m),
            distances_in_range(ps),
            m.object.wf(),
            height == m.object.trimmed_dimensions.height,
            width == m.object.trimmed_dimensions.width,
            placement.position.row + height <= usize::MAX,
            placement.position.col + width <= usize::MAX,
            0 <= total,
            placement.score + total <= i32::MAX,
            object_row <= height,
            bonus == grid_sum(f, ws, object_row as int),
            found ==> exists|i: int, j: int| #[trigger] encloses_at(ps, m, i, j),
            !found ==> forall|i: int, j: int| 0 <= i < object_row ==> !#[trigger] encloses_at(ps, m, i, j),
        decreases height - object_row,
    {
        let row_cells = &placement.object.trimmed_cells[object_row];
        proof {
            assert(rows_of(&placement.object.trimmed_cells)[object_row as int] == row_cells@);
        }
        let mut object_col: usize = 0;
        while object_col < width
            invariant
                ps == positions@,
                m == placement@,
                f == enclosure_terms(ps, m),
                ws == trimmed_widths(m),
                total == enclosure_bonus(ps, m),
                distances_in_range(ps),
                m.object.wf(),
                height == m.object.trimmed_dimensions.height,
                width == m.object.trimmed_dimensions.width,
                placement.position.row + height <= usize::MAX,
                placement.position.col + width <= usize::MAX,
                0 <= total,
                placement.score + total <= i32::MAX,
                object_row < height,
                row_cells@ == m.object.trimmed_cells[object_row as int],
                object_col <= width,
                bonus == grid_sum(f, ws, object_row as int) + line_sum(f, object_row as int, object_col as int),
                found ==> exists|i: int, j: int| #[trigger] encloses_at(ps, m, i, j),
                !found ==> forall|i: int, j: int| 0 <= i < object_row ==> !#[trigger] encloses_at(ps, m, i, j),
                !found ==> forall|j: int| 0 <= j < object_col ==> !#[trigger] encloses_at(ps, m, object_row as int, j),
            decreases width - object_col,
        {
            proof {
                assert forall|i: int, c: int| 0 <= i < height && 0 <= c < ws(i) implies 0 <= #[trigger] f(i, c) by {}
                lemma_grid_sum_mono(f, ws, object_row as int, object_col + 1, height as int);
            }
            let object_cell = row_cells[object_col];
            if object_cell == 'O' {
                let pitch_row = placement.position.row + object_row;
                let pitch_col = placement.position.col + object_col;
                let best = closest_enclosure(positions, pitch_row, pitch_col);
                if best == 1 {
                    found = true;
                    assert(encloses_at(ps, m, object_row as int, object_col as int));
                }
                bonus = bonus + (12 / best) as i64;
            }
            object_col = object_col + 1;
        }
        object_row = object_row + 1;
    }
    (bonus, found)
}

/// Strategy 2: scores moves that trap opponent cells. Each `O` cell of a
/// move that lands on an enclosure target earns 12 divided by the target's
/// best distance (4 otherwise). Returns whether some move lands an `O` cell
/// right next to an opponent cell.
pub fn score_by_enclosure_potential(
    pitch: &Pitch,
    placements: &mut Vec<PotentialMove>,
    our_symbols: (char, char),
) -> (found: bool)
    requires
        pitch.covered(),
        forall|i: int| 0 <= i < old(placements)@.len() ==> #[trigger] move_ready(*pitch, old(placements)@[i]@),
        forall|i: int| 0 <= i < old(placements)@.len() ==>
            (#[trigger] old(placements)@[i]).score + enclosure_bonus(enclosure_positions(*pitch, our_symbols), old(placements)@[i]@) <= i32::MAX,
    ensures
        moves_of(final(placements)) == apply_enclosure(enclosure_positions(*pitch, our_symbols), moves_of(old(placements))),
        found == enclosure_found(enclosure_positions(*pitch, our_symbols), moves_of(old(placements))),
{
    let targets = find_enclosure_positions(pitch, our_symbols);
    let ghost ps = targets@;
    let ghost ms = moves_of(placements);
    let mut found_opportunities = false;
    let mut index: usize = 0;
    while index < placements.len()
        invariant
            ps == targets@,
            ps == enclosure_positions(*pitch, our_symbols),
            distances_in_range(ps),
            placements@.len() == ms.len(),
            forall|i: int| 0 <= i < ms.len() ==> #[trigger] move_ready(*pitch, ms[i]),
            forall|i: int| 0 <= i < ms.len() ==> (#[trigger] ms[i]).score + enclosure_bonus(ps, ms[i]) <= i32::MAX,
            index <= ms.len(),
            forall|k: int| 0 <= k < index ==> #[trigger] moves_of(placements)[k] == apply_enclosure(ps, ms)[k],
            forall|k: int| index <= k < ms.len() ==> #[trigger] moves_of(placements)[k] == ms[k],
            found_opportunities ==> enclosure_found(ps, ms),
            !found_opportunities ==> forall|n: int, i: int, j: int| 0 <= n < index ==> !#[trigger] encloses_at(ps, ms[n], i, j),
        decreases ms.len() - index,
    {
        proof {
            assert(moves_of(placements)[index as int] == ms[index as int]);
            assert(move_ready(*pitch, ms[index as int]));
            assert(ms[index as int].score + enclosure_bonus(ps, ms[index as int]) <= i32::MAX);
        }
        let (bonus, found) = enclosure_bonus_of(&targets, &placements[index]);
        if found {
            found_opportunities = true;
            proof {
                let (i, j) = choose|i: int, j: int| #[trigger] encloses_at(ps, ms[index as int], i, j);
                assert(encloses_at(ps, ms[index as int], i, j));
            }
        }
        let ghost before = placements@;
        let ghost before_moves = moves_of(placements);
        proof {
            crate::grid_matrix::lemma_grid_sum_nonneg(
                enclosure_terms(ps, ms[index as int]),
                trimmed_widths(ms[index as int]),
                ms[index as int].object.trimmed_dimensions.height as int,
            );
        }
        placements[index].score = (placements[index].score as i64 + bonus) as i32;
        proof {
            assert(placements@.len() == before.len());
            assert forall|k: int| 0 <= k < ms.len() && k != index implies #[trigger] moves_of(placements)[k] == before_moves[k] by {
                assert(placements@[k] == before[k]);
            }
            assert(moves_of(placements)[index as int] == apply_enclosure(ps, ms)[index as int]);
        }
        index = index + 1;
    }
    assert(moves_of(placements) =~= apply_enclosure(ps, ms));
    found_opportunities
}


/// The pitch cell `(r, c)` lies in the move's original bounding box and
/// inside the pitch, and both the pitch and the object are empty there.
pub open spec fn wasted_at(p: Pitch, m: MoveModel, r: int, c: int) -> bool {
    let pr = m.position.row as int;
    let pc = m.position.col as int;
    &&& pr <= r < pr + m.object.original_dimensions.height
    &&& pc <= c < pc + m.object.original_dimensions.width
    &&& p.inside(r, c)
    &&& p.at(r, c) == '.'
    &&& m.object.original_cells[r - pr][c - pc] == '.'
}

/// The move fills its bounding box with no wasted space.
pub open spec fn perfect_fit_spec(p: Pitch, m: MoveModel) -> bool {
    !exists|r: int, c: int| #[trigger] wasted_at(p, m, r, c)
}

/// The moves after the gap-filling strategy: each perfect fit gets the
/// gap-filling bonus of the turn.
pub open spec fn apply_perfect_fit(p: Pitch, ms: Seq<MoveModel>, turn: int) -> Seq<MoveModel> {
    Seq::new(
        ms.len(),
        |n: int| with_bonus(ms[n], if perfect_fit_spec(p, ms[n]) { perfect_fit_bonus_spec(turn) as int } else { 0 }),
    )
}

/// Whether a move fills its bounding box with no wasted space.
fn is_perfect_fit(pitch: &Pitch, placement: &PotentialMove) -> (r: bool)
    requires
        pitch.covered(),
        placement@.object.wf(),
        placement.position.row + placement.object.original_dimensions.height <= usize::MAX,
        placement.position.col + placement.object.original_dimensions.width <= usize::MAX,
    ensures
        r == perfect_fit_spec(*pitch, placement@),
{
    let ghost p = *pitch;
    let ghost m = placement@;
    let top = placement.position.row;
    let left = placement.position.col;
    let bottom = placement.position.row + placement.object.original_dimensions.height;
    let right = placement.position.col + placement.object.original_dimensions.width;
    let height = pitch.dimensions.height;
    let width = pitch.dimensions.width;
    let mut row = top;
    while row < bottom
        invariant
            p == *pitch,
            m == placement@,
            p.covered(),
            m.object.wf(),
            top == m.position.row,
            left == m.position.col,
            bottom == top + m.object.original_dimensions.height,
            right == left + m.object.original_dimensions.width,
            height == p.height_spec(),
            width == p.width_spec(),
            top <= row <= bottom,
            forall|r: int, c: int| r < row ==> !#[trigger] wasted_at(p, m, r, c),
        decreases bottom - row,
    {
        let mut col = left;
        while col < right
            invariant
                p == *pitch,
                m == placement@,
                p.covered(),
                m.object.wf(),
                top == m.position.row,
                left == m.position.col,
                bottom == top + m.object.original_dimensions.height,
                right == left + m.object.original_dimensions.width,
                height == p.height_spec(),
                width == p.width_spec(),
                top <= row < bottom,
                left <= col <= right,
                forall|r: int, c: int| r < row ==> !#[trigger] wasted_at(p, m, r, c),
                forall|c: int| c < col ==> !#[trigger] wasted_at(p, m, row as int, c),
            decreases right - col,
        {
            if row < height && col < width {
                proof {
                    assert(p.grid()[row as int] == pitch.cells@[row as int]@);
                    assert(p.grid()[row as int].len() >= width);
                    let orow = row - top;
                    assert(m.object.original_cells[orow] == placement.object.original_cells@[orow]@);
                    assert(m.object.original_cells[orow].len() >= m.object.original_dimensions.width);
                }
                let pitch_cell = pitch.cells[row][col];
                let object_cell = placement.object.original_cells[row - top][col - left];
                if pitch_cell == '.' && object_cell == '.' {
                    assert(wasted_at(p, m, row as int, col as int));
                    return false;
                }
            }
            col = col + 1;
        }
        row = row + 1;
    }
    true
}

/// Strategy 3: scores moves that fill gaps with no wasted space: each
/// perfect fit gets the gap-filling bonus of the turn.
pub fn score_by_perfect_fit(
    pitch: &Pitch,
    placements: &mut Vec<PotentialMove>,
    turn_number: usize,
    previous_objects: &Vec<Object>,
    our_symbols: (char, char),
)
    requires
        pitch.covered(),
        forall|i: int| 0 <= i < old(placements)@.len() ==> #[trigger] move_ready(*pitch, old(placements)@[i]@),
        forall|i: int| 0 <= i < old(placements)@.len() ==> (#[trigger] old(placements)@[i]).score + 50 <= i32::MAX,
    ensures
        moves_of(final(placements)) == apply_perfect_fit(*pitch, moves_of(old(placements)), turn_number as int),
{
    let ghost ms = moves_of(placements);
    let perfect_fit_bonus = perfect_fit_bonus(turn_number);
    assert(perfect_fit_bonus <= 50) by {
        let k = turn_number as int % 0x1_0000_0000;
        if 0 <= k < 58 {
            assert(perfect_fit_table()[k] <= 50);
        }
    }
    assert(perfect_fit_bonus >= 0) by {
        let k = turn_number as int % 0x1_0000_0000;
        if 0 <= k < 58 {
            assert(perfect_fit_table()[k] >= 0);
        }
    }
    let mut index: usize = 0;
    while index < placements.len()
        invariant
            placements@.len() == ms.len(),
            pitch.covered(),
            perfect_fit_bonus == perfect_fit_bonus_spec(turn_number as int),
            0 <= perfect_fit_bonus <= 50,
            forall|i: int| 0 <= i < ms.len() ==> #[trigger] move_ready(*pitch, ms[i]),
            forall|i: int| 0 <= i < ms.len() ==> (#[trigger] ms[i]).score + 50 <= i32::MAX,
            index <= ms.len(),
            forall|k: int| 0 <= k < index ==> #[trigger] moves_of(placements)[k] == apply_perfect_fit(*pitch, ms, turn_number as int)[k],
            forall|k: int| index <= k < ms.len() ==> #[trigger] moves_of(placements)[k] == ms[k],
        decreases ms.len() - index,
    {
        proof {
            assert(moves_of(placements)[index as int] == ms[index as int]);
            assert(move_ready(*pitch, ms[index as int]));
            assert(ms[index as int].score + 50 <= i32::MAX);
        }
        let is_perfect = is_perfect_fit(pitch, &placements[index]);
        let ghost before = placements@;
        let ghost before_moves = moves_of(placements);
        if is_perfect {
            placements[index].score = placements[index].score + perfect_fit_bonus;
        }
        proof {
            assert(placements@.len() == before.len());
            assert forall|k: int| 0 <= k < ms.len() && k != index implies #[trigger] moves_of(placements)[k] == before_moves[k] by {
                assert(placements@[k] == before[k]);
            }
            assert(moves_of(placements)[index as int] == apply_perfect_fit(*pitch, ms, turn_number as int)[index as int]);
        }
        index = index + 1;
    }
    assert(moves_of(placements) =~= apply_perfect_fit(*pitch, ms, turn_number as int));
}


/// The index of the last move with the highest score among the first `n`.
pub open spec fn last_best_index(ms: Seq<MoveModel>, n: int) -> int
    decreases n,
{
    if n <= 1 {
        0
    } else {
        let k = last_best_index(ms, n - 1);
        if ms[n - 1].score >= ms[k].score {
            n - 1
        } else {
            k
        }
    }
}

/// The move that the evaluation picks: the last one with the highest score.
pub open spec fn chosen_move(ms: Seq<MoveModel>) -> MoveModel {
    ms[last_best_index(ms, ms.len() as int)]
}

/// The moves once every strategy of the turn has scored them: chasing the
/// opponent unless already touching it, then enclosing, then, when no move
/// encloses, filling gaps.
pub open spec fn evaluated_moves(
    p: Pitch,
    ms: Seq<MoveModel>,
    opponent_center: Position,
    turn: int,
    our_symbols: (char, char),
) -> Seq<MoveModel> {
    let chased = if touching_spec(p, our_symbols) { ms } else { apply_distance(p, ms, opponent_center, turn) };
    let targets = enclosure_positions(p, our_symbols);
    let enclosed = apply_enclosure(targets, chased);
    if enclosure_found(targets, chased) {
        enclosed
    } else {
        apply_perfect_fit(p, enclosed, turn)
    }
}

/// The picked move has the highest score, and every later move a lower one.
pub proof fn lemma_last_best_index(ms: Seq<MoveModel>, n: int)
    requires
        1 <= n <= ms.len(),
    ensures
        0 <= last_best_index(ms, n) < n,
        forall|j: int| 0 <= j < n ==> (#[trigger] ms[j]).score <= ms[last_best_index(ms, n)].score,
        forall|j: int| last_best_index(ms, n) < j < n ==> (#[trigger] ms[j]).score < ms[last_best_index(ms, n)].score,
    decreases n,
{
    if n > 1 {
        lemma_last_best_index(ms, n - 1);
    }
}

/// The chasing strategy adds between 0 and 36 to each score and keeps each
/// move's position and object.
pub proof fn lemma_apply_distance_bounds(p: Pitch, ms: Seq<MoveModel>, opponent_center: Position, turn: int)
    requires
        forall|k: int| 0 <= k < ms.len() ==> (#[trigger] ms[k]).score + 36 <= i32::MAX,
    ensures
        apply_distance(p, ms, opponent_center, turn).len() == ms.len(),
        forall|k: int| 0 <= k < ms.len() ==> {
            let a = #[trigger] apply_distance(p, ms, opponent_center, turn)[k];
            &&& ms[k].score <= a.score <= ms[k].score + 36
            &&& a.position == ms[k].position
            &&& a.object == ms[k].object
        },
{
    let ds = move_distances(p, ms, opponent_center);
    let b = max_distance_bonus_spec(turn) as int;
    assert(b <= 36) by {
        if 0 <= turn < 19 {
            assert(distance_bonus_table()[turn] <= 36);
        }
    }
    lemma_tiers_decrease(b);
    assert forall|k: int| 0 <= k < ms.len() implies {
        let a = #[trigger] apply_distance(p, ms, opponent_center, turn)[k];
        &&& ms[k].score <= a.score <= ms[k].score + 36
        &&& a.position == ms[k].position
        &&& a.object == ms[k].object
    } by {
        lemma_count_before_bound(ds, k, ds.len() as int);
    }
}

/// The enclosure strategy adds each move's enclosure bonus and keeps its
/// position and object.
pub proof fn lemma_apply_enclosure_bounds(ps: Seq<(Position, usize)>, ms: Seq<MoveModel>)
    requires
        forall|k: int| 0 <= k < ms.len() ==> (#[trigger] ms[k]).score + enclosure_bonus(ps, ms[k]) <= i32::MAX,
        forall|k: int| 0 <= k < ms.len() ==> (#[trigger] ms[k]).object.wf(),
    ensures
        apply_enclosure(ps, ms).len() == ms.len(),
        forall|k: int| 0 <= k < ms.len() ==> {
            let a = #[trigger] apply_enclosure(ps, ms)[k];
            &&& a.score == ms[k].score + enclosure_bonus(ps, ms[k])
            &&& a.position == ms[k].position
            &&& a.object == ms[k].object
        },
{
    assert forall|k: int| 0 <= k < ms.len() implies {
        let a = #[trigger] apply_enclosure(ps, ms)[k];
        &&& a.score == ms[k].score + enclosure_bonus(ps, ms[k])
        &&& a.position == ms[k].position
        &&& a.object == ms[k].object
    } by {
        let m = ms[k];
        let f = enclosure_terms(ps, m);
        let ws = trimmed_widths(m);
        assert forall|i: int, c: int| 0 <= i < m.object.trimmed_dimensions.height && 0 <= c < ws(i)
            implies 0 <= #[trigger] f(i, c) by {}
        crate::grid_matrix::lemma_grid_sum_nonneg(f, ws, m.object.trimmed_dimensions.height as int);
    }
}

/// The enclosure bonus of a move is never negative.
pub proof fn lemma_enclosure_bonus_nonneg(ps: Seq<(Position, usize)>, m: MoveModel)
    ensures
        enclosure_bonus(ps, m) >= 0,
{
    let f = enclosure_terms(ps, m);
    let ws = trimmed_widths(m);
    assert forall|i: int, c: int| 0 <= i < m.object.trimmed_dimensions.height && 0 <= c < ws(i)
        implies 0 <= #[trigger] f(i, c) by {}
    crate::grid_matrix::lemma_grid_sum_nonneg(f, ws, m.object.trimmed_dimensions.height as int);
}

/// Picks the best move among all valid placements: scores them with the
/// strategies of the turn, then returns the last one with the highest score.
pub fn evaluate_all_placements(
    pitch: &Pitch,
    valid_moves: Vec<PotentialMove>,
    opponent_center: Position,
    current_turn: usize,
    our_symbols: (char, char),
    previous_objects: &Vec<Object>,
) -> (best: PotentialMove)
    requires
        valid_moves@.len() > 0,
        pitch.covered(),
        distances_computable(*pitch, opponent_center),
        forall|i: int| 0 <= i < valid_moves@.len() ==> #[trigger] move_ready(*pitch, valid_moves@[i]@),
        forall|i: int| 0 <= i < valid_moves@.len() ==>
            (#[trigger] valid_moves@[i]).score + 86 + enclosure_bonus(enclosure_positions(*pitch, our_symbols), valid_moves@[i]@) <= i32::MAX,
    ensures
        best@ == chosen_move(evaluated_moves(*pitch, moves_of(&valid_moves), opponent_center, current_turn as int, our_symbols)),
{
    let ghost p = *pitch;
    let ghost ms = moves_of(&valid_moves);
    let ghost targets = enclosure_positions(p, our_symbols);
    let mut valid_moves = valid_moves;
    proof {
        assert forall|i: int| 0 <= i < ms.len() implies #[trigger] move_ready(p, ms[i])
            && ms[i].score + 86 + enclosure_bonus(targets, ms[i]) <= i32::MAX
            && ms[i].score + 36 <= i32::MAX by {
            assert(ms[i] == valid_moves@[i]@);
            lemma_enclosure_bonus_nonneg(targets, ms[i]);
        }
        assert forall|i: int| 0 <= i < ms.len() implies (#[trigger] valid_moves@[i]).score + 36 <= i32::MAX by {
            assert(ms[i] == valid_moves@[i]@);
            assert(move_ready(p, ms[i]));
        }
    }

    // Check whether we are already touching the opponent.
    let touching_opponent = are_we_touching_opponent(pitch, our_symbols);

    // Strategy 1: chase the opponent.
    if !touching_opponent {
        score_by_distance_to_opponent(pitch, &mut valid_moves, opponent_center, current_turn);
    }
    let ghost chased = moves_of(&valid_moves);
    proof {
        if !touching_opponent {
            lemma_apply_distance_bounds(p, ms, opponent_center, current_turn as int);
        }
        assert forall|i: int| 0 <= i < chased.len() implies #[trigger] move_ready(p, chased[i])
            && chased[i].score + 50 + enclosure_bonus(targets, chased[i]) <= i32::MAX by {
            assert(move_ready(p, ms[i]));
        }
        assert forall|i: int| 0 <= i < chased.len() implies #[trigger] move_ready(p, valid_moves@[i]@) by {
            assert(chased[i] == valid_moves@[i]@);
            assert(move_ready(p, chased[i]));
        }
        assert forall|i: int| 0 <= i < chased.len()
            implies (#[trigger] valid_moves@[i]).score + enclosure_bonus(targets, valid_moves@[i]@) <= i32::MAX by {
            assert(chased[i] == valid_moves@[i]@);
            assert(move_ready(p, chased[i]));
        }
    }

    // Strategy 2: trap / enclose opponent cells.
    let found_trapping_opportunities = score_by_enclosure_potential(pitch, &mut valid_moves, our_symbols);
    let ghost enclosed = moves_of(&valid_moves);
    proof {
        assert forall|i: int| 0 <= i < chased.len() implies #[trigger] chased[i].object.wf() by {
            assert(move_ready(p, chased[i]));
        }
        lemma_apply_enclosure_bounds(targets, chased);
        assert forall|i: int| 0 <= i < enclosed.len() implies #[trigger] move_ready(p, enclosed[i])
            && enclosed[i].score + 50 <= i32::MAX by {
            assert(move_ready(p, chased[i]));
        }
        assert forall|i: int| 0 <= i < enclosed.len() implies #[trigger] move_ready(p, valid_moves@[i]@) by {
            assert(enclosed[i] == valid_moves@[i]@);
            assert(move_ready(p, enclosed[i]));
        }
        assert forall|i: int| 0 <= i < enclosed.len() implies (#[trigger] valid_moves@[i]).score + 50 <= i32::MAX by {
            assert(enclosed[i] == valid_moves@[i]@);
            assert(move_ready(p, enclosed[i]));
        }
    }

    // Strategy 3: fill gaps efficiently.
    if !found_trapping_opportunities {
        score_by_perfect_fit(pitch, &mut valid_moves, current_turn, previous_objects, our_symbols);
    }
    let ghost scored = moves_of(&valid_moves);
    assert(scored == evaluated_moves(p, ms, opponent_center, current_turn as int, our_symbols));

    // Return the last move with the highest score.
    let mut best_index: usize = 0;
    let mut index: usize = 1;
    while index < valid_moves.len()
        invariant
            scored == moves_of(&valid_moves),
            scored.len() == ms.len(),
            ms.len() > 0,
            1 <= index <= scored.len(),
            best_index == last_best_index(scored, index as int),
            best_index < index,
        decreases scored.len() - index,
    {
        proof {
            assert(scored[index as int] == valid_moves@[index as int]@);
            assert(scored[best_index as int] == valid_moves@[best_index as int]@);
        }
        if valid_moves[index].score >= valid_moves[best_index].score {
            best_index = index;
        }
        index = index + 1;
        proof { lemma_last_best_index(scored, index as int); }
    }
    proof { lemma_last_best_index(scored, scored.len() as int); }
    let best = valid_moves.remove(best_index);
    proof { assert(scored[best_index as int] == best@); }
    best
}


/// On a non-empty pitch the average position lies inside the pitch.
pub proof fn lemma_average_position_inside(p: Pitch, our_symbols: (char, char), find_opponent: bool)
    requires
        p.height_spec() > 0,
        p.width_spec() > 0,
    ensures
        p.inside(
            average_position_spec(p, our_symbols, find_opponent).row as int,
            average_position_spec(p, our_symbols, find_opponent).col as int,
        ),
{
    let fr = target_rows(p, our_symbols, find_opponent);
    let fc = target_cols(p, our_symbols, find_opponent);
    let fo = target_ones(p, our_symbols, find_opponent);
    let ws = pitch_widths(p);
    let h = p.height_spec();
    let w = p.width_spec();
    let n = pitch_sum(p, fo);
    let rows = pitch_sum(p, fr);
    let cols = pitch_sum(p, fc);
    assert forall|i: int, j: int| 0 <= i < h && 0 <= j < ws(i) implies #[trigger] fr(i, j) <= (h - 1) * fo(i, j) by {}
    assert forall|i: int, j: int| 0 <= i < h && 0 <= j < ws(i) implies #[trigger] fc(i, j) <= (w - 1) * fo(i, j) by {}
    lemma_grid_sum_scaled(fr, fo, ws, h, h - 1);
    lemma_grid_sum_scaled(fc, fo, ws, h, w - 1);
    assert forall|i: int, j: int| 0 <= i < h && 0 <= j < ws(i) implies 0 <= #[trigger] fr(i, j) by {}
    assert forall|i: int, j: int| 0 <= i < h && 0 <= j < ws(i) implies 0 <= #[trigger] fc(i, j) by {}
    lemma_grid_sum_nonneg(fr, ws, h);
    lemma_grid_sum_nonneg(fc, ws, h);
    if n > 0 {
        assert(rows / n <= h - 1 && rows / n >= 0) by (nonlinear_arith)
            requires
                0 <= rows <= (h - 1) * n,
                n > 0,
                h > 0,
        ;
        assert(cols / n <= w - 1 && cols / n >= 0) by (nonlinear_arith)
            requires
                0 <= cols <= (w - 1) * n,
                n > 0,
                w > 0,
        ;
    }
}

/// The gap-filling strategy adds between 0 and 50 to each score and keeps
/// each move's position and object.
pub proof fn lemma_apply_perfect_fit_bounds(p: Pitch, ms: Seq<MoveModel>, turn: int)
    requires
        forall|k: int| 0 <= k < ms.len() ==> (#[trigger] ms[k]).score + 50 <= i32::MAX,
    ensures
        apply_perfect_fit(p, ms, turn).len() == ms.len(),
        forall|k: int| 0 <= k < ms.len() ==> {
            let a = #[trigger] apply_perfect_fit(p, ms, turn)[k];
            &&& ms[k].score <= a.score <= ms[k].score + 50
            &&& a.position == ms[k].position
            &&& a.object == ms[k].object
        },
{
    let b = perfect_fit_bonus_spec(turn);
    assert(0 <= b <= 50) by {
        let k = turn % 0x1_0000_0000;
        if 0 <= k < 58 {
            assert(perfect_fit_table()[k] <= 50);
            assert(perfect_fit_table()[k] >= 0);
        }
    }
}


/// Scoring the moves keeps the list's length and each move's position and
/// object.
pub proof fn lemma_evaluated_positions(
    p: Pitch,
    ms: Seq<MoveModel>,
    opponent_center: Position,
    turn: int,
    our_symbols: (char, char),
)
    ensures
        evaluated_moves(p, ms, opponent_center, turn, our_symbols).len() == ms.len(),
        forall|k: int| 0 <= k < ms.len() ==> {
            let e = #[trigger] evaluated_moves(p, ms, opponent_center, turn, our_symbols)[k];
            &&& e.position == ms[k].position
            &&& e.object == ms[k].object
        },
{
    let chased = if touching_spec(p, our_symbols) { ms } else { apply_distance(p, ms, opponent_center, turn) };
    let targets = enclosure_positions(p, our_symbols);
    let enclosed = apply_enclosure(targets, chased);
    assert(chased.len() == ms.len());
    assert forall|k: int| 0 <= k < ms.len() implies #[trigger] chased[k].position == ms[k].position && chased[k].object == ms[k].object by {}
    assert forall|k: int| 0 <= k < ms.len() implies #[trigger] enclosed[k].position == ms[k].position && enclosed[k].object == ms[k].object by {
        assert(chased[k].position == ms[k].position);
    }
    assert forall|k: int| 0 <= k < ms.len() implies {
        let e = #[trigger] evaluated_moves(p, ms, opponent_center, turn, our_symbols)[k];
        &&& e.position == ms[k].position
        &&& e.object == ms[k].object
    } by {
        assert(enclosed[k].position == ms[k].position);
    }
}

/// One of our symbols.
pub open spec fn is_ours(s: (char, char), x: char) -> bool {
    x == s.0 || x == s.1
}

/// Some opponent cell of the pitch (neither empty nor ours) has one of our
/// cells directly above, below, left or right of it, on the pitch.
pub open spec fn opponent_next_to_ours(p: Pitch, s: (char, char)) -> bool {
    exists|r: int, c: int|
        #![trigger p.at(r, c)]
        {
            &&& p.inside(r, c)
            &&& p.at(r, c) != '.' && !is_ours(s, p.at(r, c))
            &&& {
                ||| p.inside(r - 1, c) && is_ours(s, p.at(r - 1, c))
                ||| p.inside(r + 1, c) && is_ours(s, p.at(r + 1, c))
                ||| p.inside(r, c - 1) && is_ours(s, p.at(r, c - 1))
                ||| p.inside(r, c + 1) && is_ours(s, p.at(r, c + 1))
            }
        }
}

/// We touch the opponent exactly when some opponent cell has one of our
/// cells as a neighbour above, below, to the left or to the right.
pub proof fn lemma_touching_means_a_neighbour(p: Pitch, s: (char, char))
    ensures
        touching_spec(p, s) <==> opponent_next_to_ours(p, s),
{
    if touching_spec(p, s) {
        let (r, c) = choose|r: int, c: int| p.inside(r, c) && #[trigger] touches_at(p, s, r, c);
        assert(p.at(r, c) == p.at(r, c));
    }
    if opponent_next_to_ours(p, s) {
        let (r, c) = choose|r: int, c: int|
            #![trigger p.at(r, c)]
            {
                &&& p.inside(r, c)
                &&& p.at(r, c) != '.' && !is_ours(s, p.at(r, c))
                &&& {
                    ||| p.inside(r - 1, c) && is_ours(s, p.at(r - 1, c))
                    ||| p.inside(r + 1, c) && is_ours(s, p.at(r + 1, c))
                    ||| p.inside(r, c - 1) && is_ours(s, p.at(r, c - 1))
                    ||| p.inside(r, c + 1) && is_ours(s, p.at(r, c + 1))
                }
            };
        assert(touches_at(p, s, r, c));
    }
}

/// While we touch the opponent, the evaluation does not chase it: the scored
/// moves, and so the chosen one, do not depend on the opponent's centre.
pub proof fn lemma_touching_ignores_opponent_center(
    p: Pitch,
    ms: Seq<MoveModel>,
    center1: Position,
    center2: Position,
    turn: int,
    s: (char, char),
)
    requires
        opponent_next_to_ours(p, s),
    ensures
        evaluated_moves(p, ms, center1, turn, s) == evaluated_moves(p, ms, center2, turn, s),
        chosen_move(evaluated_moves(p, ms, center1, turn, s)) == chosen_move(evaluated_moves(p, ms, center2, turn, s)),
{
    lemma_touching_means_a_neighbour(p, s);
}

/// While we touch the opponent, each move's evaluated score is its own
/// score plus its enclosure bonus, plus the gap-filling bonus of the turn
/// when no move encloses and the move wastes no empty cell.
pub proof fn lemma_touching_scores(p: Pitch, ms: Seq<MoveModel>, center: Position, turn: int, s: (char, char))
    requires
        opponent_next_to_ours(p, s),
        forall|k: int| 0 <= k < ms.len() ==> 0 <= (#[trigger] ms[k]).score
            && ms[k].score + 50 + enclosure_bonus(enclosure_positions(p, s), ms[k]) <= i32::MAX,
    ensures
        evaluated_moves(p, ms, center, turn, s).len() == ms.len(),
        forall|k: int| 0 <= k < ms.len() ==> #[trigger] evaluated_moves(p, ms, center, turn, s)[k].score
            == ms[k].score + enclosure_bonus(enclosure_positions(p, s), ms[k])
                + if !enclosure_found(enclosure_positions(p, s), ms) && perfect_fit_spec(p, ms[k]) {
                    perfect_fit_bonus_spec(turn) as int
                } else {
                    0
                },
{
    lemma_touching_means_a_neighbour(p, s);
    let targets = enclosure_positions(p, s);
    let b = perfect_fit_bonus_spec(turn);
    assert(0 <= b <= 50) by {
        let k = turn % 0x1_0000_0000;
        if 0 <= k < 58 {
            assert(perfect_fit_table()[k] <= 50);
            assert(perfect_fit_table()[k] >= 0);
        }
    }
    assert forall|k: int| 0 <= k < ms.len() implies #[trigger] evaluated_moves(p, ms, center, turn, s)[k].score
        == ms[k].score + enclosure_bonus(targets, ms[k])
            + if !enclosure_found(targets, ms) && perfect_fit_spec(p, ms[k]) { b as int } else { 0 } by {
        lemma_enclosure_bonus_nonneg(targets, ms[k]);
        let e = apply_enclosure(targets, ms);
        assert(e[k].score == ms[k].score + enclosure_bonus(targets, ms[k]));
        assert(e[k].position == ms[k].position && e[k].object == ms[k].object);
        if !perfect_fit_spec(p, e[k]) {
            let (r, c) = choose|r: int, c: int| #[trigger] wasted_at(p, e[k], r, c);
            assert(wasted_at(p, ms[k], r, c));
        }
        if !perfect_fit_spec(p, ms[k]) {
            let (r, c) = choose|r: int, c: int| #[trigger] wasted_at(p, ms[k], r, c);
            assert(wasted_at(p, e[k], r, c));
        }
        if !enclosure_found(targets, ms) {
            assert(evaluated_moves(p, ms, center, turn, s) == apply_perfect_fit(p, e, turn));
        } else {
            assert(evaluated_moves(p, ms, center, turn, s) == e);
        }
    }
}

/// A placement fits perfectly exactly when no cell that lies both on the
/// pitch and inside the piece's bounding box is empty on the pitch and
/// empty in the piece: an empty piece cell over an occupied pitch cell, or
/// off the pitch, wastes nothing.
pub proof fn lemma_perfect_fit_means_no_wasted_cell(p: Pitch, m: MoveModel)
    ensures
        perfect_fit_spec(p, m) <==> forall|r: int, c: int|
            #![trigger p.at(r, c)]
            m.position.row <= r < m.position.row + m.object.original_dimensions.height
                && m.position.col <= c < m.position.col + m.object.original_dimensions.width
                && 0 <= r < p.height_spec() && 0 <= c < p.width_spec()
                ==> !(p.at(r, c) == '.' && m.object.original_cells[r - m.position.row][c - m.position.col] == '.'),
{
    if !perfect_fit_spec(p, m) {
        let (r, c) = choose|r: int, c: int| #[trigger] wasted_at(p, m, r, c);
        assert(p.at(r, c) == p.at(r, c));
    }
    assert forall|r: int, c: int|
        #![trigger p.at(r, c)]
        perfect_fit_spec(p, m) && m.position.row <= r < m.position.row + m.object.original_dimensions.height
            && m.position.col <= c < m.position.col + m.object.original_dimensions.width
            && 0 <= r < p.height_spec() && 0 <= c < p.width_spec()
        implies !(p.at(r, c) == '.' && m.object.original_cells[r - m.position.row][c - m.position.col] == '.') by {
        if p.at(r, c) == '.' && m.object.original_cells[r - m.position.row][c - m.position.col] == '.' {
            assert(wasted_at(p, m, r, c));
        }
    }
    assert forall|r: int, c: int| #[trigger] wasted_at(p, m, r, c) implies
        !(forall|r2: int, c2: int|
            #![trigger p.at(r2, c2)]
            m.position.row <= r2 < m.position.row + m.object.original_dimensions.height
                && m.position.col <= c2 < m.position.col + m.object.original_dimensions.width
                && 0 <= r2 < p.height_spec() && 0 <= c2 < p.width_spec()
                ==> !(p.at(r2, c2) == '.' && m.object.original_cells[r2 - m.position.row][c2 - m.position.col] == '.')) by {
        assert(p.at(r, c) == '.');
    }
}

/// `e` is the empty cell `e.1` steps (1 to 3) above, below, left or right
/// of the cell `(r, c)`, on the pitch, listed with its number of steps.
pub open spec fn target_near(p: Pitch, r: int, c: int, e: (Position, usize)) -> bool {
    let d = e.1 as int;
    let tr = e.0.row as int;
    let tc = e.0.col as int;
    &&& 1 <= d <= 3
    &&& p.inside(tr, tc)
    &&& p.at(tr, tc) == '.'
    &&& {
        ||| tr == r - d && tc == c
        ||| tr == r + d && tc == c
        ||| tr == r && tc == c - d
        ||| tr == r && tc == c + d
    }
}

/// The only entry of a conditional target.
proof fn lemma_target_if_empty_entry(p: Pitch, cond: bool, tr: int, tc: int, d: int, k: int)
    requires
        0 <= k < target_if_empty(p, cond, tr, tc, d).len(),
    ensures
        k == 0,
        cond,
        p.at(tr, tc) == '.',
        target_if_empty(p, cond, tr, tc, d)[k] == (Position { row: tr as usize, col: tc as usize }, d as usize),
{
    reveal(target_if_empty);
}

/// Every entry of the steps 1 to `n` around an inside cell is a target near it.
proof fn lemma_steps_entries(p: Pitch, r: int, c: int, n: int, k: int)
    requires
        p.inside(r, c),
        n <= 3,
        0 <= k < enclosure_steps(p, r, c, n).len(),
    ensures
        target_near(p, r, c, enclosure_steps(p, r, c, n)[k]),
        enclosure_steps(p, r, c, n)[k].1 <= n,
    decreases n,
{
    if n > 0 {
        let prev = enclosure_steps(p, r, c, n - 1);
        if k < prev.len() {
            lemma_steps_entries(p, r, c, n - 1, k);
        } else {
            let a = target_if_empty(p, r >= n, r - n, c, n);
            let b = target_if_empty(p, r + n < p.height_spec(), r + n, c, n);
            let l = target_if_empty(p, c >= n, r, c - n, n);
            let q = target_if_empty(p, c + n < p.width_spec(), r, c + n, n);
            let j = k - prev.len();
            assert(enclosure_steps(p, r, c, n)[k] == enclosure_step(p, r, c, n)[j]);
            if j < a.len() {
                lemma_target_if_empty_entry(p, r >= n, r - n, c, n, j);
            } else if j < a.len() + b.len() {
                lemma_target_if_empty_entry(p, r + n < p.height_spec(), r + n, c, n, j - a.len());
            } else if j < a.len() + b.len() + l.len() {
                lemma_target_if_empty_entry(p, c >= n, r, c - n, n, j - a.len() - b.len());
            } else {
                lemma_target_if_empty_entry(p, c + n < p.width_spec(), r, c + n, n, j - a.len() - b.len() - l.len());
            }
        }
    }
}

/// A conditional target whose condition holds on an empty cell is that cell.
proof fn lemma_target_if_empty_holds(p: Pitch, cond: bool, tr: int, tc: int, d: int)
    requires
        cond,
        p.at(tr, tc) == '.',
    ensures
        target_if_empty(p, cond, tr, tc, d) == seq![(Position { row: tr as usize, col: tc as usize }, d as usize)],
{
    reveal(target_if_empty);
}

/// Every target near an inside cell at exactly `n` steps is in step `n`.
proof fn lemma_step_has(p: Pitch, r: int, c: int, n: int, e: (Position, usize))
    requires
        p.inside(r, c),
        target_near(p, r, c, e),
        e.1 == n,
    ensures
        exists|k: int| 0 <= k < enclosure_step(p, r, c, n).len() && enclosure_step(p, r, c, n)[k] == e,
{
    let a = target_if_empty(p, r >= n, r - n, c, n);
    let b = target_if_empty(p, r + n < p.height_spec(), r + n, c, n);
    let l = target_if_empty(p, c >= n, r, c - n, n);
    let q = target_if_empty(p, c + n < p.width_spec(), r, c + n, n);
    let tr = e.0.row as int;
    let tc = e.0.col as int;
    let step = enclosure_step(p, r, c, n);
    assert(step == a + b + l + q);
    assert(e == (Position { row: tr as usize, col: tc as usize }, n as usize));
    if tr == r - n && tc == c {
        lemma_target_if_empty_holds(p, r >= n, r - n, c, n);
        assert(step[0] == e);
    } else if tr == r + n && tc == c {
        lemma_target_if_empty_holds(p, r + n < p.height_spec(), r + n, c, n);
        assert(step[a.len() as int] == e);
    } else if tr == r && tc == c - n {
        lemma_target_if_empty_holds(p, c >= n, r, c - n, n);
        assert(step[(a.len() + b.len()) as int] == e);
    } else {
        lemma_target_if_empty_holds(p, c + n < p.width_spec(), r, c + n, n);
        assert(step[(a.len() + b.len() + l.len()) as int] == e);
    }
}

/// Every target near an inside cell, within `n` steps, is among its steps.
proof fn lemma_steps_have(p: Pitch, r: int, c: int, n: int, e: (Position, usize))
    requires
        p.inside(r, c),
        target_near(p, r, c, e),
        e.1 <= n,
    ensures
        exists|k: int| 0 <= k < enclosure_steps(p, r, c, n).len() && enclosure_steps(p, r, c, n)[k] == e,
    decreases n,
{
    let prev = enclosure_steps(p, r, c, n - 1);
    let steps = enclosure_steps(p, r, c, n);
    if (e.1 as int) < n {
        lemma_steps_have(p, r, c, n - 1, e);
        let k = choose|k: int| 0 <= k < prev.len() && prev[k] == e;
        assert(steps[k] == e);
    } else {
        lemma_step_has(p, r, c, n, e);
        let step = enclosure_step(p, r, c, n);
        let j = choose|j: int| 0 <= j < step.len() && step[j] == e;
        assert(steps == prev + step);
        assert(steps[prev.len() + j] == e);
    }
}

/// The enclosure targets of the pitch are exactly the empty cells 1, 2 or 3
/// steps above, below, left or right of an opponent cell (a cell that is
/// neither empty nor ours), each listed with its number of steps.
pub proof fn lemma_enclosure_targets(p: Pitch, s: (char, char), e: (Position, usize))
    ensures
        (exists|k: int| 0 <= k < enclosure_positions(p, s).len() && enclosure_positions(p, s)[k] == e)
            <==> exists|r: int, c: int|
                #![trigger p.at(r, c)]
                p.inside(r, c) && p.at(r, c) != '.' && !is_ours(s, p.at(r, c)) && target_near(p, r, c, e),
{
    let g = enclosure_cells(p, s);
    let ws = pitch_widths(p);
    let all = enclosure_positions(p, s);
    if exists|k: int| 0 <= k < all.len() && all[k] == e {
        let k = choose|k: int| 0 <= k < all.len() && all[k] == e;
        crate::grid_matrix::lemma_grid_concat_member(g, ws, p.height_spec(), k);
        let (r, c, t) = choose|r: int, c: int, t: int|
            0 <= r < p.height_spec() && 0 <= c < ws(r) && 0 <= t < g(r, c).len() && all[k] == #[trigger] g(r, c)[t];
        assert(opponent_cell_spec(Some(p.at(r, c)), s));
        lemma_steps_entries(p, r, c, 3, t);
        assert(p.at(r, c) == p.at(r, c));
    }
    if exists|r: int, c: int|
        #![trigger p.at(r, c)]
        p.inside(r, c) && p.at(r, c) != '.' && !is_ours(s, p.at(r, c)) && target_near(p, r, c, e) {
        let (r, c) = choose|r: int, c: int|
            #![trigger p.at(r, c)]
            p.inside(r, c) && p.at(r, c) != '.' && !is_ours(s, p.at(r, c)) && target_near(p, r, c, e);
        lemma_steps_have(p, r, c, 3, e);
        let t = choose|t: int| 0 <= t < enclosure_steps(p, r, c, 3).len() && enclosure_steps(p, r, c, 3)[t] == e;
        assert(g(r, c) == enclosure_steps(p, r, c, 3));
        crate::grid_matrix::lemma_grid_concat_has(g, ws, p.height_spec(), r, c, t);
    }
}

/// The pitch cell `(tr, tc)` is empty and lies `d` steps above, below, left
/// or right of an opponent cell.
pub open spec fn opponent_steps_away(p: Pitch, s: (char, char), tr: int, tc: int, d: int) -> bool {
    &&& p.inside(tr, tc)
    &&& p.at(tr, tc) == '.'
    &&& exists|r: int, c: int|
        #![trigger p.at(r, c)]
        {
            &&& p.inside(r, c)
            &&& p.at(r, c) != '.' && !is_ours(s, p.at(r, c))
            &&& {
                ||| tr == r - d && tc == c
                ||| tr == r + d && tc == c
                ||| tr == r && tc == c - d
                ||| tr == r && tc == c + d
            }
        }
}

/// The enclosure list holds `(tr, tc)` at distance `d` (1 to 3) exactly when
/// that cell is empty and `d` steps from an opponent cell.
proof fn lemma_has_target_iff(p: Pitch, s: (char, char), tr: int, tc: int, d: int)
    requires
        1 <= d <= 3,
    ensures
        has_target(enclosure_positions(p, s), tr, tc, d) <==> opponent_steps_away(p, s, tr, tc, d),
{
    let ps = enclosure_positions(p, s);
    if has_target(ps, tr, tc, d) {
        let k = choose|k: int| #[trigger] targets_at(ps, k, tr, tc, d);
        let e = ps[k];
        lemma_enclosure_targets(p, s, e);
        let (r, c) = choose|r: int, c: int|
            #![trigger p.at(r, c)]
            p.inside(r, c) && p.at(r, c) != '.' && !is_ours(s, p.at(r, c)) && target_near(p, r, c, e);
        assert(p.at(r, c) == p.at(r, c));
    }
    if opponent_steps_away(p, s, tr, tc, d) {
        let (r, c) = choose|r: int, c: int|
            #![trigger p.at(r, c)]
            {
                &&& p.inside(r, c)
                &&& p.at(r, c) != '.' && !is_ours(s, p.at(r, c))
                &&& {
                    ||| tr == r - d && tc == c
                    ||| tr == r + d && tc == c
                    ||| tr == r && tc == c - d
                    ||| tr == r && tc == c + d
                }
            };
        let e = (Position { row: tr as usize, col: tc as usize }, d as usize);
        assert(target_near(p, r, c, e));
        assert(p.at(r, c) == p.at(r, c));
        lemma_enclosure_targets(p, s, e);
        let k = choose|k: int| 0 <= k < ps.len() && ps[k] == e;
        assert(targets_at(ps, k, tr, tc, d));
    }
}

/// Each `O` cell of a move earns 12 when it lands on an empty cell right
/// next to an opponent cell, 6 when two steps from one, and 4 otherwise;
/// any other cell of the shape earns nothing.
pub proof fn lemma_enclosure_cell_bonus(p: Pitch, s: (char, char), m: MoveModel, i: int, j: int)
    ensures
        ({
            let tr = m.position.row + i;
            let tc = m.position.col + j;
            enclosure_terms(enclosure_positions(p, s), m)(i, j) == if m.object.trimmed_cells[i][j] != 'O' {
                0int
            } else if opponent_steps_away(p, s, tr, tc, 1) {
                12int
            } else if opponent_steps_away(p, s, tr, tc, 2) {
                6int
            } else {
                4int
            }
        }),
{
    let tr = m.position.row + i;
    let tc = m.position.col + j;
    lemma_has_target_iff(p, s, tr, tc, 1);
    lemma_has_target_iff(p, s, tr, tc, 2);
}

/// The cell `(r, c)` of the pitch belongs to the opponent: neither empty
/// nor one of our symbols.
pub open spec fn opponent_at(p: Pitch, s: (char, char), r: int, c: int) -> bool {
    p.inside(r, c) && p.at(r, c) != '.' && !is_ours(s, p.at(r, c))
}

/// The opponent's centre: with no opponent cell on the pitch it is the
/// pitch's middle `(height / 2, width / 2)`; with a single opponent cell it
/// is that cell.
pub proof fn lemma_opponent_center_of_few_cells(p: Pitch, s: (char, char), r0: int, c0: int)
    ensures
        (forall|r: int, c: int| !#[trigger] opponent_at(p, s, r, c)) ==> average_position_spec(p, s, true)
            == (Position { row: (p.height_spec() / 2) as usize, col: (p.width_spec() / 2) as usize }),
        opponent_at(p, s, r0, c0) && (forall|r: int, c: int| #[trigger] opponent_at(p, s, r, c) ==> r == r0 && c == c0)
            ==> average_position_spec(p, s, true) == (Position { row: r0 as usize, col: c0 as usize }),
{
    let fo = target_ones(p, s, true);
    let fr = target_rows(p, s, true);
    let fc = target_cols(p, s, true);
    let ws = pitch_widths(p);
    let h = p.height_spec();
    if forall|r: int, c: int| !#[trigger] opponent_at(p, s, r, c) {
        assert forall|i: int, j: int| 0 <= i < h && 0 <= j < ws(i) implies #[trigger] fo(i, j) == 0 by {
            assert(!opponent_at(p, s, i, j));
        }
        crate::grid_matrix::lemma_grid_sum_zero(fo, ws, h);
    }
    if opponent_at(p, s, r0, c0) && (forall|r: int, c: int| #[trigger] opponent_at(p, s, r, c) ==> r == r0 && c == c0) {
        assert forall|i: int, j: int| 0 <= i < h && 0 <= j < ws(i) && !(i == r0 && j == c0)
            implies #[trigger] fo(i, j) == 0 && fr(i, j) == 0 && fc(i, j) == 0 by {
            assert(!opponent_at(p, s, i, j));
        }
        assert forall|i: int, j: int| 0 <= i < h && 0 <= j < ws(i) && !(i == r0 && j == c0) implies #[trigger] fr(i, j) == 0 by {
            assert(fo(i, j) == 0);
        }
        assert forall|i: int, j: int| 0 <= i < h && 0 <= j < ws(i) && !(i == r0 && j == c0) implies #[trigger] fc(i, j) == 0 by {
            assert(fo(i, j) == 0);
        }
        crate::grid_matrix::lemma_grid_sum_only(fo, ws, h, r0, c0);
        crate::grid_matrix::lemma_grid_sum_only(fr, ws, h, r0, c0);
        crate::grid_matrix::lemma_grid_sum_only(fc, ws, h, r0, c0);
    }
}

} // verus!
