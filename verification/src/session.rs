//! The decisions of a game session, between the engine's messages: when a
//! game starts, how many lines a board takes, and how a piece is answered.
use vstd::prelude::*;
use crate::contestant::Contestant;
use crate::game_analysis::{GameAnalysis, best_move_spec, object_fits, objects_of};
use crate::grid_matrix::{blank_grid, lemma_grid_sum_bound, lemma_grid_sum_nonneg, lemma_grid_sum_scaled};
use crate::input::header_dimensions;
use crate::object::{Object, ObjectModel};
use crate::pitch::Pitch;
use crate::tactics::{average_sums_fit, pitch_sum, pitch_widths, target_cols, target_ones, target_rows};

verus! {

/// What `calculate_best_move` needs of the game and the object: counters
/// below their maximum, a covered pitch whose sides fit an `i32`, a
/// well-formed object whose scores fit an `i32`, and sums that fit a `usize`.
pub open spec fn best_move_computable(g: GameAnalysis, o: ObjectModel) -> bool {
    &&& g.turn_number < usize::MAX
    &&& g.our_contestant.cells_captured < usize::MAX
    &&& g.pitch.covered()
    &&& 16 * o.trimmed_dimensions.height * o.trimmed_dimensions.width + 86 <= i32::MAX
    &&& g.pitch.dimensions.height <= i32::MAX
    &&& g.pitch.dimensions.width <= i32::MAX
    &&& object_fits(g.pitch, o) ==> average_sums_fit(g.pitch, g.our_contestant.symbols, true)
    &&& o.wf()
    &&& o.original_dimensions.height + g.pitch.dimensions.height <= usize::MAX
    &&& o.original_dimensions.width + g.pitch.dimensions.width <= usize::MAX
    &&& o.trimmed_dimensions.height + o.trim_offset.0 + g.pitch.dimensions.height <= usize::MAX
    &&& o.trimmed_dimensions.width + o.trim_offset.1 + g.pitch.dimensions.width <= usize::MAX
}

/// What `calculate_best_move` does: from game `g` to game `f`, answering
/// `r` for the object `o`.
pub open spec fn best_move_outcome(g: GameAnalysis, f: GameAnalysis, o: ObjectModel, r: (i32, i32)) -> bool {
    &&& f.turn_number == g.turn_number + 1
    &&& f.pitch == g.pitch
    &&& f.opponent == g.opponent
    &&& f.our_contestant.number == g.our_contestant.number
    &&& f.our_contestant.symbols == g.our_contestant.symbols
    &&& match best_move_spec(g.pitch, g.our_contestant, g.opponent, o, g.turn_number + 1) {
        None => {
            &&& r == (0i32, 0i32)
            &&& objects_of(&f.placement_history) == objects_of(&g.placement_history)
            &&& f.our_contestant == g.our_contestant
        },
        Some(m) => {
            &&& r.0 == m.position.col - o.trim_offset.1
            &&& r.1 == m.position.row - o.trim_offset.0
            &&& objects_of(&f.placement_history) == objects_of(&g.placement_history).push(o)
            &&& f.our_contestant.cells_captured == g.our_contestant.cells_captured + 1
        },
    }
}

/// The number of lines that make up a board of `height` rows: the column
/// header, then one line per row.
pub open spec fn board_line_count(height: usize) -> usize {
    if height < usize::MAX {
        (height + 1) as usize
    } else {
        usize::MAX
    }
}

/// Handles a board header `Anfield WIDTH HEIGHT:`, which must be
/// well-formed (see `input::parse_header`): the first board starts the game
/// with an empty pitch of the header's dimensions, and later headers change
/// nothing. Returns how many lines the board that follows takes, counted on
/// the game's pitch.
pub fn start_board(game: &mut Option<GameAnalysis>, us: Contestant, opponent: Contestant, header: &str) -> (r: usize)
    requires
        header_dimensions(header@) is Ok,
    ensures
        match *old(game) {
            Some(g) => *final(game) == *old(game) && r == board_line_count(g.pitch.dimensions.height),
            None => {
                let d = header_dimensions(header@)->Ok_0;
                &&& *final(game) matches Some(f)
                &&& f.our_contestant == us
                &&& f.opponent == opponent
                &&& f.pitch.dimensions == d
                &&& f.pitch.grid() == blank_grid(d.height as int, d.width as int)
                &&& f.pitch.covered()
                &&& f.placement_history@.len() == 0
                &&& f.turn_number == 0
                &&& r == board_line_count(d.height)
            },
        },
{
    if game.is_none() {
        *game = Some(GameAnalysis::new(us, opponent, Pitch::new(header)));
    }
    let height = match game {
        Some(g) => g.pitch.dimensions.height,
        None => 0,
    };
    if height < usize::MAX {
        height + 1
    } else {
        usize::MAX
    }
}

/// Answers a piece: `(0, 0)` while no board has been seen, otherwise the
/// move that `calculate_best_move` picks, which also updates the game.
pub fn answer_piece(game: &mut Option<GameAnalysis>, object: Object) -> (r: (i32, i32))
    requires
        *old(game) matches Some(g) ==> best_move_computable(g, object@),
    ensures
        match *old(game) {
            None => r == (0i32, 0i32) && *final(game) == *old(game),
            Some(g) => *final(game) matches Some(f) && best_move_outcome(g, f, object@, r),
        },
{
    match game {
        Some(g) => g.calculate_best_move(object),
        None => (0, 0),
    }
}

/// With sides below 2^31 and `h * w * (h + w + 1)` within a `usize`, the
/// sums behind the opponent's average position fit a `usize`.
proof fn lemma_sums_fit(p: Pitch, our_symbols: (char, char))
    requires
        p.height_spec() * p.width_spec() * (p.height_spec() + p.width_spec() + 1) <= usize::MAX,
    ensures
        average_sums_fit(p, our_symbols, true),
{
    let h = p.height_spec();
    let w = p.width_spec();
    let fo = target_ones(p, our_symbols, true);
    let fr = target_rows(p, our_symbols, true);
    let fc = target_cols(p, our_symbols, true);
    let ws = pitch_widths(p);
    let n = pitch_sum(p, fo);
    let rows = pitch_sum(p, fr);
    let cols = pitch_sum(p, fc);
    assert forall|i: int| 0 <= i < h implies 0 <= #[trigger] ws(i) <= w by {}
    assert forall|i: int, c: int| 0 <= i < h && 0 <= c < ws(i) implies 0 <= #[trigger] fo(i, c) <= 1 by {}
    lemma_grid_sum_bound(fo, ws, h, w, 1);
    assert forall|i: int, j: int| 0 <= i < h && 0 <= j < ws(i) implies #[trigger] fr(i, j) <= (h - 1) * fo(i, j) by {}
    assert forall|i: int, j: int| 0 <= i < h && 0 <= j < ws(i) implies #[trigger] fc(i, j) <= (w - 1) * fo(i, j) by {}
    lemma_grid_sum_scaled(fr, fo, ws, h, h - 1);
    lemma_grid_sum_scaled(fc, fo, ws, h, w - 1);
    assert forall|i: int, j: int| 0 <= i < h && 0 <= j < ws(i) implies 0 <= #[trigger] fr(i, j) by {}
    assert forall|i: int, j: int| 0 <= i < h && 0 <= j < ws(i) implies 0 <= #[trigger] fc(i, j) by {}
    lemma_grid_sum_nonneg(fr, ws, h);
    lemma_grid_sum_nonneg(fc, ws, h);
    if h > 0 && w > 0 {
        assert(n <= h * w * (h + w + 1) && rows <= h * w * (h + w + 1) && cols <= h * w * (h + w + 1)) by (nonlinear_arith)
            requires
                h > 0,
                w > 0,
                0 <= n <= 1 * w * h,
                rows <= (h - 1) * n,
                cols <= (w - 1) * n,
        ;
    } else {
        assert(1 * w * h == 0) by (nonlinear_arith)
            requires
                h == 0 || w == 0,
        ;
        assert((h - 1) * n == 0 && (w - 1) * n == 0) by (nonlinear_arith)
            requires
                n == 0,
        ;
    }
}

impl GameAnalysis {
    /// Whether the move for `object` can be computed: when this returns
    /// `true`, `calculate_best_move` accepts the game and the object. It asks
    /// a little more than that of the average position's sums, which it
    /// bounds by `height * width * (height + width + 1)`.
    pub fn move_fits(&self, object: &Object) -> (r: bool)
        ensures
            r ==> best_move_computable(*self, object@),
    {
        let h = self.pitch.dimensions.height;
        let w = self.pitch.dimensions.width;
        let th = object.trimmed_dimensions.height;
        let tw = object.trimmed_dimensions.width;
        if self.turn_number == usize::MAX || self.our_contestant.cells_captured == usize::MAX {
            return false;
        }
        if h > 0x7fff_ffff || w > 0x7fff_ffff || th > 0x7fff_ffff || tw > 0x7fff_ffff {
            return false;
        }
        let (h128, w128, th128, tw128) = (h as u128, w as u128, th as u128, tw as u128);
        assert(th128 * tw128 <= 0x7fff_ffffu128 * 0x7fff_ffffu128) by (nonlinear_arith)
            requires
                th128 <= 0x7fff_ffffu128,
                tw128 <= 0x7fff_ffffu128,
        ;
        if 16 * (th128 * tw128) + 86 > 0x7fff_ffff {
            return false;
        }
        assert(h128 * w128 <= 0x7fff_ffffu128 * 0x7fff_ffffu128) by (nonlinear_arith)
            requires
                h128 <= 0x7fff_ffffu128,
                w128 <= 0x7fff_ffffu128,
        ;
        assert((h128 * w128) * (h128 + w128 + 1) <= (0x7fff_ffffu128 * 0x7fff_ffffu128) * 0x1_0000_0000u128)
            by (nonlinear_arith)
            requires
                h128 * w128 <= 0x7fff_ffffu128 * 0x7fff_ffffu128,
                h128 + w128 + 1 <= 0x1_0000_0000u128,
                0 <= h128 * w128,
        ;
        if (h128 * w128) * (h128 + w128 + 1) > usize::MAX as u128 {
            return false;
        }
        let max = usize::MAX as u128;
        if object.original_dimensions.height as u128 + h128 > max
            || object.original_dimensions.width as u128 + w128 > max
            || th128 + object.trim_offset.0 as u128 + h128 > max
            || tw128 + object.trim_offset.1 as u128 + w128 > max
        {
            return false;
        }
        if !self.pitch.is_covered() || !object.is_well_formed() {
            return false;
        }
        proof {
            assert(16 * th * tw + 86 <= i32::MAX) by (nonlinear_arith)
                requires
                    th128 == th,
                    tw128 == tw,
                    16 * (th128 * tw128) + 86 <= 0x7fff_ffff,
            ;
            lemma_sums_fit(self.pitch, self.our_contestant.symbols);
        }
        true
    }
}

} // verus!
