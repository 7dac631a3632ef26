//! The game state tracker: placement validation, per-cell scoring and the
//! choice of the move to play.
use vstd::prelude::*;
use crate::contestant::Contestant;
use crate::grid_matrix::{grid_sum, line_sum, grid_concat, line_concat, lemma_grid_sum_mono, lemma_grid_sum_bound, lemma_grid_sum_witness, lemma_no_columns};
use crate::object::{Object, ObjectModel};
use crate::pitch::{Pitch, Position};
use crate::tactics::{
    adjacent_spec, adjacent_readable, get_adjacent_cells, lemma_inside_adjacent_readable, average_position_spec,
    average_sums_fit, calculate_average_position, chosen_move, evaluated_moves, evaluate_all_placements,
    move_ready, enclosure_bonus, enclosure_positions, enclosure_terms, trimmed_widths, distances_computable,
    lemma_average_position_inside, lemma_evaluated_positions, lemma_last_best_index, last_best_index,
};

verus! {

/// Main game state: both contestants, the current pitch, the pieces placed
/// so far and the number of moves asked for.
#[derive(Debug)]
pub struct GameAnalysis {
    pub our_contestant: Contestant,
    pub opponent: Contestant,
    pub pitch: Pitch,
    pub placement_history: Vec<Object>,
    pub turn_number: usize,
}

/// A potential placement of an object with its calculated score.
#[derive(Debug)]
pub struct PotentialMove {
    pub position: Position,
    pub score: i32,
    pub object: Object,
}

/// The plain value of a [`PotentialMove`].
pub struct MoveModel {
    pub position: Position,
    pub score: i32,
    pub object: ObjectModel,
}

impl View for PotentialMove {
    type V = MoveModel;

    open spec fn view(&self) -> MoveModel {
        MoveModel { position: self.position, score: self.score, object: self.object@ }
    }
}

impl Clone for PotentialMove {
    /// An independent copy of the move, with the same value.
    fn clone(&self) -> (r: Self)
        ensures
            r@ == self@,
    {
        PotentialMove { position: self.position, score: self.score, object: self.object.clone() }
    }
}

/// A copy of a list of objects, with the same values.
fn copy_objects(objects: &Vec<Object>) -> (v: Vec<Object>)
    ensures
        objects_of(&v) == objects_of(objects),
{
    let mut v: Vec<Object> = Vec::new();
    let mut i: usize = 0;
    while i < objects.len()
        invariant
            i <= objects@.len(),
            v@.len() == i,
            forall|k: int| 0 <= k < i ==> #[trigger] v@[k]@ == objects@[k]@,
        decreases objects.len() - i,
    {
        v.push(objects[i].clone());
        i = i + 1;
    }
    assert(objects_of(&v) =~= objects_of(objects));
    v
}

impl Clone for GameAnalysis {
    /// An independent copy of the game state, with the same value.
    fn clone(&self) -> (r: Self)
        ensures
            r.our_contestant == self.our_contestant,
            r.opponent == self.opponent,
            r.pitch.dimensions == self.pitch.dimensions,
            r.pitch.grid() == self.pitch.grid(),
            objects_of(&r.placement_history) == objects_of(&self.placement_history),
            r.turn_number == self.turn_number,
    {
        GameAnalysis {
            our_contestant: self.our_contestant,
            opponent: self.opponent,
            pitch: self.pitch.clone(),
            placement_history: copy_objects(&self.placement_history),
            turn_number: self.turn_number,
        }
    }
}

/// The values of a list of moves.
pub open spec fn moves_of(v: &Vec<PotentialMove>) -> Seq<MoveModel> {
    v@.map_values(|m: PotentialMove| m@)
}

/// The values of a list of objects.
pub open spec fn objects_of(v: &Vec<Object>) -> Seq<ObjectModel> {
    v@.map_values(|o: Object| o@)
}

/// `cell` is present and owned by `c`.
pub open spec fn owned_by(c: Contestant, cell: Option<char>) -> bool {
    match cell {
        Some(x) => c.owns(x),
        None => false,
    }
}

/// Strategic value of placing the object cell `object_cell` at `at`: an
/// `O` next to an opponent cell is worth 4; any other object cell is worth
/// 1 over our own territory, 2 over the opponent's, 0 elsewhere.
pub open spec fn cell_score(p: Pitch, us: Contestant, opp: Contestant, object_cell: char, at: Position) -> int {
    if object_cell != 'O' {
        let current = p.at(at.row as int, at.col as int);
        if us.owns(current) {
            1
        } else if opp.owns(current) {
            2
        } else {
            0
        }
    } else {
        let a = adjacent_spec(p, at);
        if owned_by(opp, a.up) || owned_by(opp, a.down) || owned_by(opp, a.left) || owned_by(opp, a.right) {
            4
        } else {
            0
        }
    }
}

/// The lengths of the rows of a shape.
pub open spec fn row_lens(shape: Seq<Seq<char>>) -> spec_fn(int) -> int {
    |i: int| shape[i].len() as int
}

/// The pitch position under the shape cell `(i, j)` when the shape's
/// corner stands at `pos`.
pub open spec fn under(pos: Position, i: int, j: int) -> Position {
    Position { row: (pos.row + i) as usize, col: (pos.col + j) as usize }
}

/// 1 where a filled shape cell lands on one of our cells, 0 elsewhere.
pub open spec fn our_hits(p: Pitch, us: Contestant, shape: Seq<Seq<char>>, pos: Position) -> spec_fn(int, int) -> int {
    |i: int, j: int|
        if shape[i][j] != '.' && us.owns(p.at(pos.row + i, pos.col + j)) {
            1int
        } else {
            0int
        }
}

/// The filled shape cell `(i, j)` lands on a cell that the opponent owns.
pub open spec fn lands_on_opponent(
    p: Pitch,
    us: Contestant,
    opp: Contestant,
    shape: Seq<Seq<char>>,
    pos: Position,
    i: int,
    j: int,
) -> bool {
    &&& 0 <= i < shape.len()
    &&& 0 <= j < shape[i].len()
    &&& shape[i][j] != '.'
    &&& opp.owns(p.at(pos.row + i, pos.col + j))
}

/// The number of filled shape cells that land on our cells.
pub open spec fn our_overlap(p: Pitch, us: Contestant, shape: Seq<Seq<char>>, pos: Position) -> int {
    grid_sum(our_hits(p, us, shape, pos), row_lens(shape), shape.len() as int)
}

/// A placement is valid when exactly one filled cell overlaps our
/// territory and no filled cell overlaps the opponent's.
pub open spec fn placement_valid(p: Pitch, us: Contestant, opp: Contestant, shape: Seq<Seq<char>>, pos: Position) -> bool {
    &&& our_overlap(p, us, shape, pos) == 1
    &&& !exists|i: int, j: int| #[trigger] lands_on_opponent(p, us, opp, shape, pos, i, j)
}

/// The per-cell scores of a placement.
pub open spec fn cell_scores(p: Pitch, us: Contestant, opp: Contestant, shape: Seq<Seq<char>>, pos: Position) -> spec_fn(int, int) -> int {
    |i: int, j: int| cell_score(p, us, opp, shape[i][j], under(pos, i, j))
}

/// The strategic score of a placement: the sum of its cells' scores.
pub open spec fn placement_score(p: Pitch, us: Contestant, opp: Contestant, shape: Seq<Seq<char>>, pos: Position) -> int {
    grid_sum(cell_scores(p, us, opp, shape, pos), row_lens(shape), shape.len() as int)
}

/// Every cell of the shape, its corner at `pos`, lies inside the pitch.
pub open spec fn placement_inside(p: Pitch, shape: Seq<Seq<char>>, pos: Position) -> bool {
    forall|i: int, j: int| 0 <= i < shape.len() && 0 <= j < shape[i].len()
        ==> #[trigger] p.inside(pos.row + i, pos.col + j)
}

/// The number of rows tried for the object's corner: from its trim
/// offset to the last row where the trimmed shape still fits.
pub open spec fn candidate_rows(p: Pitch, o: ObjectModel) -> int {
    p.height_spec() - o.trimmed_dimensions.height - o.trim_offset.0 + 1
}

/// The number of columns tried for the object's corner.
pub open spec fn candidate_cols(p: Pitch, o: ObjectModel) -> int {
    p.width_spec() - o.trimmed_dimensions.width - o.trim_offset.1 + 1
}

/// The corner position of the `(i, j)`-th candidate.
pub open spec fn candidate_position(o: ObjectModel, i: int, j: int) -> Position {
    Position { row: (o.trim_offset.0 + i) as usize, col: (o.trim_offset.1 + j) as usize }
}

/// The `(i, j)`-th candidate as a scored move when its placement is valid.
pub open spec fn candidate_pieces(p: Pitch, us: Contestant, opp: Contestant, o: ObjectModel) -> spec_fn(int, int) -> Seq<MoveModel> {
    |i: int, j: int| {
        let pos = candidate_position(o, i, j);
        if placement_valid(p, us, opp, o.trimmed_cells, pos) {
            seq![MoveModel { position: pos, score: placement_score(p, us, opp, o.trimmed_cells, pos) as i32, object: o }]
        } else {
            Seq::empty()
        }
    }
}

/// Every candidate row has the same number of columns.
pub open spec fn candidate_widths(p: Pitch, o: ObjectModel) -> spec_fn(int) -> int {
    |i: int| candidate_cols(p, o)
}

/// All valid placements of the object, row by row.
pub open spec fn candidate_moves(p: Pitch, us: Contestant, opp: Contestant, o: ObjectModel) -> Seq<MoveModel> {
    grid_concat(candidate_pieces(p, us, opp, o), candidate_widths(p, o), candidate_rows(p, o))
}

/// The trimmed shape is no larger than the pitch.
pub open spec fn object_fits(p: Pitch, o: ObjectModel) -> bool {
    o.trimmed_dimensions.height <= p.height_spec() && o.trimmed_dimensions.width <= p.width_spec()
}

/// The move picked for the object at the given turn, if any: the last
/// highest-scoring valid placement once the strategies have scored them.
pub open spec fn best_move_spec(p: Pitch, us: Contestant, opp: Contestant, o: ObjectModel, turn: int) -> Option<MoveModel> {
    if !object_fits(p, o) {
        None
    } else {
        let candidates = candidate_moves(p, us, opp, o);
        if candidates.len() == 0 {
            None
        } else {
            Some(chosen_move(evaluated_moves(p, candidates, average_position_spec(p, us.symbols, true), turn, us.symbols)))
        }
    }
}

/// A collected candidate: the object, a corner in range and a valid placement
/// with its score.
pub open spec fn candidate_ok(p: Pitch, us: Contestant, opp: Contestant, o: ObjectModel, m: MoveModel) -> bool {
    &&& m.object == o
    &&& o.trim_offset.0 <= m.position.row
    &&& m.position.row + o.trimmed_dimensions.height <= p.height_spec()
    &&& o.trim_offset.1 <= m.position.col
    &&& m.position.col + o.trimmed_dimensions.width <= p.width_spec()
    &&& placement_valid(p, us, opp, o.trimmed_cells, m.position)
    &&& m.score == placement_score(p, us, opp, o.trimmed_cells, m.position)
}

/// The facts `move_ready` asks of a collected candidate.
spec fn center_ok(p: Pitch, m: MoveModel) -> bool {
    &&& m.object.wf()
    &&& crate::tactics::center_computable(p, m.position, m.object)
    &&& m.position.row + m.object.trimmed_dimensions.height <= usize::MAX
    &&& m.position.col + m.object.trimmed_dimensions.width <= usize::MAX
    &&& m.position.row + m.object.original_dimensions.height <= usize::MAX
    &&& m.position.col + m.object.original_dimensions.width <= usize::MAX
}

/// A placement's score is at most 4 per cell of the trimmed shape.
proof fn lemma_placement_score_bound(p: Pitch, us: Contestant, opp: Contestant, o: ObjectModel, pos: Position)
    requires
        o.wf(),
    ensures
        0 <= placement_score(p, us, opp, o.trimmed_cells, pos)
            <= 4 * o.trimmed_dimensions.width * o.trimmed_dimensions.height,
{
    let shape = o.trimmed_cells;
    let f = cell_scores(p, us, opp, shape, pos);
    let lens = row_lens(shape);
    assert forall|i: int| 0 <= i < shape.len() implies 0 <= #[trigger] lens(i) <= o.trimmed_dimensions.width by {}
    assert forall|i: int, c: int| 0 <= i < shape.len() && 0 <= c < lens(i) implies 0 <= #[trigger] f(i, c) <= 4 by {}
    lemma_grid_sum_bound(f, lens, shape.len() as int, o.trimmed_dimensions.width as int, 4);
}

/// A move's enclosure bonus is at most 12 per cell of the trimmed shape.
proof fn lemma_enclosure_bonus_bound(ps: Seq<(Position, usize)>, m: MoveModel)
    ensures
        0 <= enclosure_bonus(ps, m) <= 12 * m.object.trimmed_dimensions.width * m.object.trimmed_dimensions.height,
{
    let f = enclosure_terms(ps, m);
    let ws = trimmed_widths(m);
    let h = m.object.trimmed_dimensions.height as int;
    assert forall|i: int| 0 <= i < h implies 0 <= #[trigger] ws(i) <= m.object.trimmed_dimensions.width by {}
    assert forall|i: int, c: int| 0 <= i < h && 0 <= c < ws(i) implies 0 <= #[trigger] f(i, c) <= 12 by {}
    lemma_grid_sum_bound(f, ws, h, m.object.trimmed_dimensions.width as int, 12);
}

/// A valid placement has a cell inside the pitch, so the pitch is not empty.
proof fn lemma_valid_placement_nonempty_pitch(p: Pitch, us: Contestant, opp: Contestant, shape: Seq<Seq<char>>, pos: Position)
    requires
        placement_valid(p, us, opp, shape, pos),
        placement_inside(p, shape, pos),
    ensures
        p.height_spec() > 0,
        p.width_spec() > 0,
{
    let f = our_hits(p, us, shape, pos);
    let lens = row_lens(shape);
    lemma_grid_sum_witness(f, lens, shape.len() as int);
    let (i, j) = choose|i: int, j: int| 0 <= i < shape.len() && 0 <= j < lens(i) && #[trigger] f(i, j) != 0;
    assert(p.inside(pos.row + i, pos.col + j));
}

impl GameAnalysis {
    /// Creates a new game state.
    pub fn new(our_contestant: Contestant, opponent: Contestant, pitch: Pitch) -> (g: Self)
        ensures
            g.our_contestant == our_contestant,
            g.opponent == opponent,
            g.pitch == pitch,
            g.placement_history@.len() == 0,
            g.turn_number == 0,
    {
        GameAnalysis { our_contestant, opponent, pitch, placement_history: Vec::new(), turn_number: 0 }
    }

    /// Calculates the strategic value of placing an object cell at a
    /// position: higher scores mean better positions.
    pub fn score_cell_placement(&self, object_cell: char, pitch_position: Position) -> (s: i32)
        requires
            adjacent_readable(self.pitch, pitch_position),
            pitch_position.row < self.pitch.grid().len(),
            pitch_position.col < self.pitch.grid()[pitch_position.row as int].len(),
        ensures
            s == cell_score(self.pitch, self.our_contestant, self.opponent, object_cell, pitch_position),
    {
        let is_filled_cell = object_cell == 'O';
        let adjacent = get_adjacent_cells(&self.pitch, &pitch_position);
        if !is_filled_cell {
            proof {
                assert(self.pitch.grid()[pitch_position.row as int] == self.pitch.cells@[pitch_position.row as int]@);
            }
            let current_cell = self.pitch.cells[pitch_position.row][pitch_position.col];
            if self.our_contestant.owns_cell(&current_cell) {
                1
            } else if self.opponent.owns_cell(&current_cell) {
                2
            } else {
                0
            }
        } else {
            if let Some(c) = adjacent.up {
                if self.opponent.owns_cell(&c) {
                    return 4;
                }
            }
            if let Some(c) = adjacent.down {
                if self.opponent.owns_cell(&c) {
                    return 4;
                }
            }
            if let Some(c) = adjacent.left {
                if self.opponent.owns_cell(&c) {
                    return 4;
                }
            }
            if let Some(c) = adjacent.right {
                if self.opponent.owns_cell(&c) {
                    return 4;
                }
            }
            0
        }
    }

    /// Validates the placement of an object's trimmed shape with its corner
    /// at `position`: every cell of the shape must lie on the pitch, and it
    /// must overlap exactly one of our cells and none of the opponent's.
    /// Returns the placement with its score when valid.
    pub fn validate_placement(&self, object: &Object, position: Position) -> (r: Option<PotentialMove>)
        requires
            self.pitch.covered(),
            placement_inside(self.pitch, object@.trimmed_cells, position)
                && placement_valid(self.pitch, self.our_contestant, self.opponent, object@.trimmed_cells, position)
                ==> placement_score(self.pitch, self.our_contestant, self.opponent, object@.trimmed_cells, position) <= i32::MAX,
        ensures
            match r {
                None => !placement_inside(self.pitch, object@.trimmed_cells, position)
                    || !placement_valid(self.pitch, self.our_contestant, self.opponent, object@.trimmed_cells, position),
                Some(m) => {
                    &&& placement_inside(self.pitch, object@.trimmed_cells, position)
                    &&& placement_valid(self.pitch, self.our_contestant, self.opponent, object@.trimmed_cells, position)
                    &&& m@.position == position
                    &&& m@.score == placement_score(self.pitch, self.our_contestant, self.opponent, object@.trimmed_cells, position)
                    &&& m@.object == object@
                },
            },
    {
        let ghost p = self.pitch;
        let ghost us = self.our_contestant;
        let ghost opp = self.opponent;
        let ghost shape = object@.trimmed_cells;
        let ghost hits = our_hits(p, us, shape, position);
        let ghost lens = row_lens(shape);
        let shape_rows = &object.trimmed_cells;

        // Every cell of the shape must lie on the pitch.
        let height = self.pitch.dimensions.height;
        let width = self.pitch.dimensions.width;
        let mut object_row: usize = 0;
        while object_row < shape_rows.len()
            invariant
                shape == object@.trimmed_cells,
                shape_rows == &object.trimmed_cells,
                p == self.pitch,
                height == p.height_spec(),
                width == p.width_spec(),
                object_row <= shape.len(),
                forall|i: int, j: int| 0 <= i < object_row && 0 <= j < shape[i].len()
                    ==> #[trigger] p.inside(position.row + i, position.col + j),
            decreases shape.len() - object_row,
        {
            let len = shape_rows[object_row].len();
            proof { assert(shape[object_row as int] == shape_rows@[object_row as int]@); }
            if len > 0 {
                if position.row >= height || object_row >= height - position.row {
                    assert(!p.inside(position.row + object_row, position.col + 0));
                    return None;
                }
                if position.col > width || len > width - position.col {
                    assert(!p.inside(position.row + object_row, position.col + (len - 1)));
                    return None;
                }
            }
            object_row = object_row + 1;
        }
        assert(placement_inside(p, shape, position));

        let mut overlap_count: usize = 0;
        let mut object_row: usize = 0;
        while object_row < shape_rows.len()
            invariant
                shape == object@.trimmed_cells,
                shape_rows == &object.trimmed_cells,
                p == self.pitch,
                us == self.our_contestant,
                opp == self.opponent,
                hits == our_hits(p, us, shape, position),
                lens == row_lens(shape),
                p.covered(),
                placement_inside(p, shape, position),
                object_row <= shape.len(),
                overlap_count == grid_sum(hits, lens, object_row as int),
                overlap_count <= 1,
                forall|i: int, j: int| 0 <= i < object_row ==> !#[trigger] lands_on_opponent(p, us, opp, shape, position, i, j),
            decreases shape.len() - object_row,
        {
            let row_data = &shape_rows[object_row];
            proof { assert(shape[object_row as int] == row_data@); }
            let mut object_col: usize = 0;
            while object_col < row_data.len()
                invariant
                    shape == object@.trimmed_cells,
                    shape_rows == &object.trimmed_cells,
                    row_data@ == shape[object_row as int],
                    p == self.pitch,
                    us == self.our_contestant,
                    opp == self.opponent,
                    hits == our_hits(p, us, shape, position),
                    lens == row_lens(shape),
                    p.covered(),
                    placement_inside(p, shape, position),
                    object_row < shape.len(),
                    object_col <= row_data@.len(),
                    overlap_count == grid_sum(hits, lens, object_row as int) + line_sum(hits, object_row as int, object_col as int),
                    overlap_count <= 1,
                    forall|i: int, j: int| 0 <= i < object_row ==> !#[trigger] lands_on_opponent(p, us, opp, shape, position, i, j),
                    forall|j: int| 0 <= j < object_col ==> !#[trigger] lands_on_opponent(p, us, opp, shape, position, object_row as int, j),
                decreases row_data@.len() - object_col,
            {
                let object_cell = row_data[object_col];
                if object_cell != '.' {
                    proof {
                        assert(p.inside(position.row + object_row, position.col + object_col));
                        assert(p.grid()[position.row + object_row] == self.pitch.cells@[position.row + object_row]@);
                        assert(p.grid()[position.row + object_row].len() >= p.width_spec());
                    }
                    let pitch_row = object_row + position.row;
                    let pitch_col = object_col + position.col;
                    let pitch_cell = self.pitch.cells[pitch_row][pitch_col];
                    if self.opponent.owns_cell(&pitch_cell) {
                        // No filled cell may cover an opponent cell, even one
                        // whose symbol we share.
                        proof {
                            assert(lands_on_opponent(p, us, opp, shape, position, object_row as int, object_col as int));
                        }
                        return None;
                    } else if self.our_contestant.owns_cell(&pitch_cell) {
                        overlap_count = overlap_count + 1;
                        if overlap_count > 1 {
                            proof {
                                lemma_grid_sum_mono(hits, lens, object_row as int, object_col + 1, shape.len() as int);
                            }
                            return None;
                        }
                    }
                }
                object_col = object_col + 1;
            }
            object_row = object_row + 1;
        }
        if overlap_count != 1 {
            return None;
        }
        assert(placement_valid(p, us, opp, shape, position));

        // Calculate the strategic score of this placement.
        let ghost scores = cell_scores(p, us, opp, shape, position);
        let ghost total = placement_score(p, us, opp, shape, position);
        let mut total_score: i32 = 0;
        let mut object_row: usize = 0;
        while object_row < shape_rows.len()
            invariant
                shape == object@.trimmed_cells,
                shape_rows == &object.trimmed_cells,
                p == self.pitch,
                us == self.our_contestant,
                opp == self.opponent,
                scores == cell_scores(p, us, opp, shape, position),
                total == placement_score(p, us, opp, shape, position),
                lens == row_lens(shape),
                total <= i32::MAX,
                p.covered(),
                placement_inside(p, shape, position),
                object_row <= shape.len(),
                total_score == grid_sum(scores, lens, object_row as int),
            decreases shape.len() - object_row,
        {
            let row_data = &shape_rows[object_row];
            proof { assert(shape[object_row as int] == row_data@); }
            let mut object_col: usize = 0;
            while object_col < row_data.len()
                invariant
                    shape == object@.trimmed_cells,
                    shape_rows == &object.trimmed_cells,
                    row_data@ == shape[object_row as int],
                    p == self.pitch,
                    us == self.our_contestant,
                    opp == self.opponent,
                    scores == cell_scores(p, us, opp, shape, position),
                    total == placement_score(p, us, opp, shape, position),
                    lens == row_lens(shape),
                    total <= i32::MAX,
                    p.covered(),
                    placement_inside(p, shape, position),
                    object_row < shape.len(),
                    object_col <= row_data@.len(),
                    total_score == grid_sum(scores, lens, object_row as int) + line_sum(scores, object_row as int, object_col as int),
                decreases row_data@.len() - object_col,
            {
                proof {
                    assert(p.inside(position.row + object_row, position.col + object_col));
                }
                let pitch_pos = Position { row: position.row + object_row, col: position.col + object_col };
                proof {
                    lemma_inside_adjacent_readable(p, pitch_pos);
                    assert(p.grid()[pitch_pos.row as int].len() >= p.width_spec());
                    assert(pitch_pos == under(position, object_row as int, object_col as int));
                    assert forall|i: int, c: int| 0 <= i < shape.len() && 0 <= c < lens(i)
                        implies 0 <= #[trigger] scores(i, c) by {}
                    lemma_grid_sum_mono(scores, lens, object_row as int, object_col + 1, shape.len() as int);
                }
                let cell_value = self.score_cell_placement(row_data[object_col], pitch_pos);
                total_score = total_score + cell_value;
                object_col = object_col + 1;
            }
            object_row = object_row + 1;
        }

        Some(PotentialMove { position, score: total_score, object: object.clone() })
    }

    /// Calculates the best move for the given object. Returns the column and
    /// row of the object's original top-left corner, or `(0, 0)` when no
    /// valid placement exists.
    pub fn calculate_best_move(&mut self, object: Object) -> (r: (i32, i32))
        requires
            old(self).turn_number < usize::MAX,
            old(self).our_contestant.cells_captured < usize::MAX,
            old(self).pitch.covered(),
            16 * object.trimmed_dimensions.height * object.trimmed_dimensions.width + 86 <= i32::MAX,
            old(self).pitch.dimensions.height <= i32::MAX,
            old(self).pitch.dimensions.width <= i32::MAX,
            object_fits(old(self).pitch, object@) ==> average_sums_fit(old(self).pitch, old(self).our_contestant.symbols, true),
            object@.wf(),
            object.original_dimensions.height + old(self).pitch.dimensions.height <= usize::MAX,
            object.original_dimensions.width + old(self).pitch.dimensions.width <= usize::MAX,
            object.trimmed_dimensions.height + object.trim_offset.0 + old(self).pitch.dimensions.height <= usize::MAX,
            object.trimmed_dimensions.width + object.trim_offset.1 + old(self).pitch.dimensions.width <= usize::MAX,
        ensures
            final(self).turn_number == old(self).turn_number + 1,
            final(self).pitch == old(self).pitch,
            final(self).opponent == old(self).opponent,
            final(self).our_contestant.number == old(self).our_contestant.number,
            final(self).our_contestant.symbols == old(self).our_contestant.symbols,
            match best_move_spec(old(self).pitch, old(self).our_contestant, old(self).opponent, object@, old(self).turn_number + 1) {
                None => {
                    &&& r == (0i32, 0i32)
                    &&& objects_of(&final(self).placement_history) == objects_of(&old(self).placement_history)
                    &&& final(self).our_contestant == old(self).our_contestant
                },
                Some(m) => {
                    &&& r.0 == m.position.col - object@.trim_offset.1
                    &&& r.1 == m.position.row - object@.trim_offset.0
                    &&& objects_of(&final(self).placement_history) == objects_of(&old(self).placement_history).push(object@)
                    &&& final(self).our_contestant.cells_captured == old(self).our_contestant.cells_captured + 1
                },
            },
            (exists|row: int, col: int| #[trigger] corner_allowed(old(self).pitch, old(self).our_contestant, old(self).opponent, object@, row, col))
                ==> {
                &&& objects_of(&final(self).placement_history) == objects_of(&old(self).placement_history).push(object@)
                &&& final(self).our_contestant.cells_captured == old(self).our_contestant.cells_captured + 1
            },
    {
        let ghost p = self.pitch;
        let ghost us = self.our_contestant;
        let ghost opp = self.opponent;
        let ghost o = object@;
        proof {
            if exists|row: int, col: int| #[trigger] corner_allowed(p, us, opp, o, row, col) {
                let (row, col) = choose|row: int, col: int| #[trigger] corner_allowed(p, us, opp, o, row, col);
                lemma_allowed_corner_is_a_candidate(p, us, opp, o, self.turn_number + 1, row, col);
            }
        }
        self.turn_number = self.turn_number + 1;

        // Quick check: object too big for the pitch.
        if object.trimmed_dimensions.height > self.pitch.dimensions.height
            || object.trimmed_dimensions.width > self.pitch.dimensions.width
        {
            return (0, 0);
        }

        // The opponent's average position, for strategic targeting.
        let opponent_center = calculate_average_position(&self.pitch, self.our_contestant.symbols, true);

        // Try every corner position where the trimmed object stays on the pitch.
        let ghost pieces = candidate_pieces(p, us, opp, o);
        let ghost widths = candidate_widths(p, o);
        let max_row = self.pitch.dimensions.height - object.trimmed_dimensions.height;
        let max_col = self.pitch.dimensions.width - object.trimmed_dimensions.width;
        let first_row = object.trim_offset.0;
        let first_col = object.trim_offset.1;
        let mut valid_placements: Vec<PotentialMove> = Vec::new();
        if first_row <= max_row && first_col <= max_col {
            let mut row = first_row;
            let mut rows_done = false;
            while !rows_done
                invariant
                    p == self.pitch,
                    us == self.our_contestant,
                    opp == self.opponent,
                    o == object@,
                    pieces == candidate_pieces(p, us, opp, o),
                    widths == candidate_widths(p, o),
                    p.covered(),
                    o.wf(),
                    object_fits(p, o),
                    16 * o.trimmed_dimensions.height * o.trimmed_dimensions.width + 86 <= i32::MAX,
                    max_row == p.height_spec() - o.trimmed_dimensions.height,
                    max_col == p.width_spec() - o.trimmed_dimensions.width,
                    first_row == o.trim_offset.0,
                    first_col == o.trim_offset.1,
                    first_row <= row <= max_row,
                    first_col <= max_col,
                    rows_done ==> row == max_row,
                    moves_of(&valid_placements) == grid_concat(pieces, widths, row - first_row + if rows_done { 1int } else { 0int }),
                    forall|k: int| 0 <= k < valid_placements@.len()
                        ==> #[trigger] candidate_ok(p, us, opp, o, valid_placements@[k]@),
                decreases max_row - row + if rows_done { 0int } else { 1int },
            {
                let mut col = first_col;
                let mut cols_done = false;
                while !cols_done
                    invariant
                        p == self.pitch,
                        us == self.our_contestant,
                        opp == self.opponent,
                        o == object@,
                        pieces == candidate_pieces(p, us, opp, o),
                        widths == candidate_widths(p, o),
                        p.covered(),
                        o.wf(),
                        object_fits(p, o),
                        16 * o.trimmed_dimensions.height * o.trimmed_dimensions.width + 86 <= i32::MAX,
                        max_row == p.height_spec() - o.trimmed_dimensions.height,
                        max_col == p.width_spec() - o.trimmed_dimensions.width,
                        first_row == o.trim_offset.0,
                        first_col == o.trim_offset.1,
                        first_row <= row <= max_row,
                        first_col <= col <= max_col,
                        !rows_done,
                        cols_done ==> col == max_col,
                        moves_of(&valid_placements) == grid_concat(pieces, widths, row - first_row)
                            + line_concat(pieces, row - first_row, col - first_col + if cols_done { 1int } else { 0int }),
                        forall|k: int| 0 <= k < valid_placements@.len()
                            ==> #[trigger] candidate_ok(p, us, opp, o, valid_placements@[k]@),
                    decreases max_col - col + if cols_done { 0int } else { 1int },
                {
                    let position = Position { row, col };
                    let ghost i = row - first_row;
                    let ghost j = col - first_col;
                    proof {
                        assert(position == candidate_position(o, i, j));
                        assert(placement_inside(p, o.trimmed_cells, position)) by {
                            assert forall|a: int, b: int| 0 <= a < o.trimmed_cells.len() && 0 <= b < o.trimmed_cells[a].len()
                                implies #[trigger] p.inside(position.row + a, position.col + b) by {
                                assert(o.trimmed_cells[a].len() == o.trimmed_dimensions.width);
                            }
                        }
                        lemma_placement_score_bound(p, us, opp, o, position);
                        assert(4 * o.trimmed_dimensions.width * o.trimmed_dimensions.height <= i32::MAX) by (nonlinear_arith)
                            requires
                                16 * o.trimmed_dimensions.height * o.trimmed_dimensions.width + 86 <= i32::MAX,
                        ;
                    }
                    let ghost before = moves_of(&valid_placements);
                    let candidate = self.validate_placement(&object, position);
                    match candidate {
                        Some(valid_move) => {
                            proof {
                                assert(pieces(i, j) == seq![valid_move@]);
                            }
                            valid_placements.push(valid_move);
                            proof {
                                assert(moves_of(&valid_placements) =~= before + pieces(i, j));
                            }
                        },
                        None => {
                            proof {
                                assert(pieces(i, j) =~= Seq::<MoveModel>::empty());
                                assert(before + pieces(i, j) =~= before);
                            }
                        },
                    }
                    if col < max_col {
                        col = col + 1;
                    } else {
                        cols_done = true;
                    }
                }
                proof {
                    assert(widths(row - first_row) == max_col - first_col + 1);
                }
                if row < max_row {
                    row = row + 1;
                } else {
                    rows_done = true;
                }
            }
        }
        let ghost candidates = moves_of(&valid_placements);
        proof {
            if !(first_row <= max_row && first_col <= max_col) {
                if first_row > max_row {
                    assert(candidate_rows(p, o) <= 0);
                } else {
                    assert forall|i: int| 0 <= i < candidate_rows(p, o) implies line_concat(pieces, i, #[trigger] widths(i)).len() == 0 by {}
                    lemma_no_columns(pieces, widths, candidate_rows(p, o));
                }
                assert(candidates =~= candidate_moves(p, us, opp, o));
            }
            assert(candidates == candidate_moves(p, us, opp, o));
        }

        // No valid moves found.
        if valid_placements.len() == 0 {
            return (0, 0);
        }

        proof {
            let m0 = valid_placements@[0]@;
            assert(candidate_ok(p, us, opp, o, m0));
            lemma_valid_placement_nonempty_pitch(p, us, opp, o.trimmed_cells, m0.position);
            lemma_average_position_inside(p, us.symbols, true);
            assert(distances_computable(p, opponent_center));
            let targets = enclosure_positions(p, us.symbols);
            assert forall|k: int| 0 <= k < valid_placements@.len() implies #[trigger] move_ready(p, valid_placements@[k]@)
                && valid_placements@[k].score + 86 + enclosure_bonus(targets, valid_placements@[k]@) <= i32::MAX by {
                let m = valid_placements@[k]@;
                assert(candidate_ok(p, us, opp, o, m));
                lemma_placement_score_bound(p, us, opp, o, m.position);
                lemma_enclosure_bonus_bound(targets, m);
                let sc = placement_score(p, us, opp, o.trimmed_cells, m.position);
                let en = enclosure_bonus(targets, m);
                assert(sc + 86 + en <= i32::MAX) by (nonlinear_arith)
                    requires
                        16 * o.trimmed_dimensions.height * o.trimmed_dimensions.width + 86 <= i32::MAX,
                        sc <= 4 * o.trimmed_dimensions.width * o.trimmed_dimensions.height,
                        en <= 12 * o.trimmed_dimensions.width * o.trimmed_dimensions.height,
                ;
                assert(m.object == o);
                assert(center_ok(p, m)) by {
                    assert(m.position.row <= p.height_spec());
                    assert(m.position.col <= p.width_spec());
                }
            }
            assert forall|k: int| 0 <= k < valid_placements@.len()
                implies (#[trigger] valid_placements@[k]).score + 86 + enclosure_bonus(targets, valid_placements@[k]@) <= i32::MAX by {
                assert(move_ready(p, valid_placements@[k]@));
            }
            assert forall|k: int| 0 <= k < candidates.len() implies #[trigger] move_ready(p, candidates[k])
                && candidates[k].score + 86 + enclosure_bonus(targets, candidates[k]) <= i32::MAX by {
                assert(candidates[k] == valid_placements@[k]@);
                assert(move_ready(p, valid_placements@[k]@));
            }
            lemma_evaluated_positions(p, candidates, opponent_center, self.turn_number as int, us.symbols);
        }

        // Evaluate all valid placements and pick the best one.
        let ghost evaluated = evaluated_moves(p, candidates, opponent_center, self.turn_number as int, us.symbols);
        let best_move = evaluate_all_placements(
            &self.pitch,
            valid_placements,
            opponent_center,
            self.turn_number,
            self.our_contestant.symbols,
            &self.placement_history,
        );
        proof {
            lemma_last_best_index(evaluated, evaluated.len() as int);
            let k = last_best_index(evaluated, evaluated.len() as int);
            assert(evaluated[k].position == candidates[k].position);
            assert(evaluated[k].object == candidates[k].object);
            assert(candidate_ok(p, us, opp, o, candidates[k]));
        }

        // Update the game state.
        let ghost old_history = objects_of(&self.placement_history);
        self.placement_history.push(object);
        proof {
            assert(objects_of(&self.placement_history) =~= old_history.push(o));
        }
        self.our_contestant.cells_captured = self.our_contestant.cells_captured + 1;

        // Convert from the trimmed position to the original object's corner.
        (
            best_move.position.col as i32 - best_move.object.trim_offset.1 as i32,
            best_move.position.row as i32 - best_move.object.trim_offset.0 as i32,
        )
    }
}


/// A candidate list holds only valid, in-bounds placements of the object.
proof fn lemma_candidates_legal(p: Pitch, us: Contestant, opp: Contestant, o: ObjectModel, k: int)
    requires
        o.wf(),
        0 <= k < candidate_moves(p, us, opp, o).len(),
    ensures
        ({
            let m = candidate_moves(p, us, opp, o)[k];
            &&& m.object == o
            &&& o.trim_offset.0 <= m.position.row
            &&& o.trim_offset.1 <= m.position.col
            &&& placement_valid(p, us, opp, o.trimmed_cells, m.position)
            &&& placement_inside(p, o.trimmed_cells, m.position)
        }),
{
    let pieces = candidate_pieces(p, us, opp, o);
    let widths = candidate_widths(p, o);
    crate::grid_matrix::lemma_grid_concat_member(pieces, widths, candidate_rows(p, o), k);
    let (i, j, t) = choose|i: int, j: int, t: int|
        0 <= i < candidate_rows(p, o) && 0 <= j < widths(i) && 0 <= t < pieces(i, j).len()
            && candidate_moves(p, us, opp, o)[k] == #[trigger] pieces(i, j)[t];
    let pos = candidate_position(o, i, j);
    assert(placement_valid(p, us, opp, o.trimmed_cells, pos));
    assert forall|a: int, b: int| 0 <= a < o.trimmed_cells.len() && 0 <= b < o.trimmed_cells[a].len()
        implies #[trigger] p.inside(pos.row + a, pos.col + b) by {
        assert(o.trimmed_cells[a].len() == o.trimmed_dimensions.width);
    }
}

/// The move that is picked for an object is a legal Filler placement: it
/// overlaps exactly one of our cells, none of the opponent's, and every
/// cell of the trimmed shape lies inside the pitch.
pub proof fn lemma_best_move_is_legal(p: Pitch, us: Contestant, opp: Contestant, o: ObjectModel, turn: int)
    requires
        o.wf(),
        best_move_spec(p, us, opp, o, turn) is Some,
    ensures
        ({
            let m = best_move_spec(p, us, opp, o, turn)->0;
            &&& m.object == o
            &&& o.trim_offset.0 <= m.position.row
            &&& o.trim_offset.1 <= m.position.col
            &&& placement_valid(p, us, opp, o.trimmed_cells, m.position)
            &&& placement_inside(p, o.trimmed_cells, m.position)
        }),
{
    let candidates = candidate_moves(p, us, opp, o);
    let center = average_position_spec(p, us.symbols, true);
    let evaluated = evaluated_moves(p, candidates, center, turn, us.symbols);
    lemma_evaluated_positions(p, candidates, center, turn, us.symbols);
    lemma_last_best_index(evaluated, evaluated.len() as int);
    let k = last_best_index(evaluated, evaluated.len() as int);
    lemma_candidates_legal(p, us, opp, o, k);
}

/// The coordinates that answer a piece lie on the pitch: the column and the
/// row of the object's original corner are at least 0 and below the pitch's
/// width and height.
pub proof fn lemma_answer_on_the_pitch(p: Pitch, us: Contestant, opp: Contestant, o: ObjectModel, turn: int)
    requires
        o.wf(),
        best_move_spec(p, us, opp, o, turn) is Some,
    ensures
        ({
            let m = best_move_spec(p, us, opp, o, turn)->0;
            &&& 0 <= m.position.col - o.trim_offset.1 < p.width_spec()
            &&& 0 <= m.position.row - o.trim_offset.0 < p.height_spec()
        }),
{
    lemma_best_move_is_legal(p, us, opp, o, turn);
    let m = best_move_spec(p, us, opp, o, turn)->0;
    let shape = o.trimmed_cells;
    let f = our_hits(p, us, shape, m.position);
    let lens = row_lens(shape);
    lemma_grid_sum_witness(f, lens, shape.len() as int);
    let (i, j) = choose|i: int, j: int| 0 <= i < shape.len() && 0 <= j < lens(i) && #[trigger] f(i, j) != 0;
    assert(p.inside(m.position.row + i, m.position.col + j));
}

/// The move that is picked scores at least as high as every other valid
/// placement once the strategies have scored them, and strictly higher than
/// every placement listed after it.
pub proof fn lemma_best_move_has_top_score(p: Pitch, us: Contestant, opp: Contestant, o: ObjectModel, turn: int)
    requires
        best_move_spec(p, us, opp, o, turn) is Some,
    ensures
        ({
            let candidates = candidate_moves(p, us, opp, o);
            let evaluated = evaluated_moves(p, candidates, average_position_spec(p, us.symbols, true), turn, us.symbols);
            let m = best_move_spec(p, us, opp, o, turn)->0;
            &&& exists|k: int| 0 <= k < evaluated.len() && evaluated[k] == m
            &&& forall|j: int| 0 <= j < evaluated.len() ==> (#[trigger] evaluated[j]).score <= m.score
        }),
{
    let candidates = candidate_moves(p, us, opp, o);
    let center = average_position_spec(p, us.symbols, true);
    let evaluated = evaluated_moves(p, candidates, center, turn, us.symbols);
    lemma_evaluated_positions(p, candidates, center, turn, us.symbols);
    lemma_last_best_index(evaluated, evaluated.len() as int);
    let k = last_best_index(evaluated, evaluated.len() as int);
    assert(evaluated[k] == best_move_spec(p, us, opp, o, turn)->0);
}

/// A filled (`O`) cell is worth 4 exactly when the pitch cell above, below,
/// to the left or to the right of it, on the pitch, belongs to the opponent,
/// and 0 otherwise; any other cell is worth 1 over one of our cells, 2 over
/// one of the opponent's and 0 elsewhere.
pub proof fn lemma_cell_score_by_neighbours(p: Pitch, us: Contestant, opp: Contestant, object_cell: char, at: Position)
    requires
        p.inside(at.row as int, at.col as int),
    ensures
        ({
            let r = at.row as int;
            let c = at.col as int;
            let next_to_opponent = (p.inside(r - 1, c) && opp.owns(p.at(r - 1, c)))
                || (p.inside(r + 1, c) && opp.owns(p.at(r + 1, c)))
                || (p.inside(r, c - 1) && opp.owns(p.at(r, c - 1)))
                || (p.inside(r, c + 1) && opp.owns(p.at(r, c + 1)));
            cell_score(p, us, opp, object_cell, at) == if object_cell == 'O' {
                if next_to_opponent { 4int } else { 0int }
            } else if us.owns(p.at(r, c)) {
                1int
            } else if opp.owns(p.at(r, c)) {
                2int
            } else {
                0int
            }
        }),
{
}

/// A corner at which the rules allow the trimmed piece: at or past the trim
/// offset, every cell of the shape on the pitch, exactly one filled cell on
/// one of our cells and no filled cell on a cell the opponent owns.
pub open spec fn corner_allowed(p: Pitch, us: Contestant, opp: Contestant, o: ObjectModel, r: int, c: int) -> bool {
    let shape = o.trimmed_cells;
    &&& o.trim_offset.0 <= r
    &&& o.trim_offset.1 <= c
    &&& forall|i: int, j: int| 0 <= i < shape.len() && 0 <= j < shape[i].len() ==> #[trigger] p.inside(r + i, c + j)
    &&& exists|i: int, j: int|
        #![trigger shape[i][j]]
        0 <= i < shape.len() && 0 <= j < shape[i].len() && shape[i][j] != '.' && us.owns(p.at(r + i, c + j))
    &&& forall|i: int, j: int, i2: int, j2: int|
        #![trigger shape[i][j], shape[i2][j2]]
        0 <= i < shape.len() && 0 <= j < shape[i].len() && shape[i][j] != '.' && us.owns(p.at(r + i, c + j))
            && 0 <= i2 < shape.len() && 0 <= j2 < shape[i2].len() && shape[i2][j2] != '.'
            && us.owns(p.at(r + i2, c + j2)) ==> i == i2 && j == j2
    &&& forall|i: int, j: int|
        #![trigger shape[i][j]]
        0 <= i < shape.len() && 0 <= j < shape[i].len() && shape[i][j] != '.' ==> !opp.owns(p.at(r + i, c + j))
}

/// The scan is complete: every corner the rules allow is among the
/// candidates that the best move is chosen from, so a piece with an allowed
/// corner always gets a move.
pub proof fn lemma_allowed_corner_is_a_candidate(
    p: Pitch,
    us: Contestant,
    opp: Contestant,
    o: ObjectModel,
    turn: int,
    r: int,
    c: int,
)
    requires
        o.wf(),
        corner_allowed(p, us, opp, o, r, c),
    ensures
        exists|k: int| 0 <= k < candidate_moves(p, us, opp, o).len()
            && #[trigger] candidate_moves(p, us, opp, o)[k].position.row == r
            && candidate_moves(p, us, opp, o)[k].position.col == c,
        best_move_spec(p, us, opp, o, turn) is Some,
{
    let shape = o.trimmed_cells;
    let (iw, jw) = choose|i: int, j: int|
        #![trigger shape[i][j]]
        0 <= i < shape.len() && 0 <= j < shape[i].len() && shape[i][j] != '.' && us.owns(p.at(r + i, c + j));
    let th = o.trimmed_dimensions.height as int;
    let tw = o.trimmed_dimensions.width as int;
    assert(shape[iw].len() == tw);
    assert(shape[th - 1].len() == tw);
    assert(p.inside(r + (th - 1), c + 0));
    assert(p.inside(r + 0, c + (tw - 1)));
    assert(p.inside(r + iw, c + jw));
    assert(object_fits(p, o));
    let i = r - o.trim_offset.0;
    let j = c - o.trim_offset.1;
    let pos = candidate_position(o, i, j);
    assert(pos.row == r && pos.col == c);
    // The placement at the corner is valid.
    let hits = our_hits(p, us, shape, pos);
    let lens = row_lens(shape);
    assert(hits(iw, jw) == 1);
    assert forall|a: int, b: int| 0 <= a < shape.len() && 0 <= b < lens(a) && !(a == iw && b == jw)
        implies #[trigger] hits(a, b) == 0 by {
        if shape[a][b] != '.' && us.owns(p.at(r + a, c + b)) {
            assert(shape[a][b] == shape[a][b]);
            assert(shape[iw][jw] == shape[iw][jw]);
        }
    }
    crate::grid_matrix::lemma_grid_sum_single(hits, lens, shape.len() as int, iw, jw);
    assert forall|a: int, b: int| !#[trigger] lands_on_opponent(p, us, opp, shape, pos, a, b) by {
        if 0 <= a < shape.len() && 0 <= b < shape[a].len() && shape[a][b] != '.' {
            assert(shape[a][b] == shape[a][b]);
        }
    }
    assert(placement_valid(p, us, opp, shape, pos));
    // So it is one of the candidates.
    let pieces = candidate_pieces(p, us, opp, o);
    let widths = candidate_widths(p, o);
    assert(pieces(i, j).len() == 1);
    crate::grid_matrix::lemma_grid_concat_has(pieces, widths, candidate_rows(p, o), i, j, 0);
    let cands = candidate_moves(p, us, opp, o);
    let k = choose|k: int| 0 <= k < cands.len() && cands[k] == pieces(i, j)[0];
    assert(cands[k].position.row == r && cands[k].position.col == c);
}

} // verus!
