//! The game pitch (the board) and positions on it.
use vstd::prelude::*;
use crate::grid_matrix::{Dimensions, Grid, grid_covers, rows_of, blank_grid, new_blank_grid, copy_row, copy_grid, covers};
use crate::input::{InputError, header_dimensions, parse_header, pitch_rows, lines_of, read_pitch_row, lemma_pitch_rows_error_persists, lemma_pitch_rows_width};

verus! {

/// State of the game pitch: every placed piece and the empty spaces.
/// `cells[row][col]` is `.` for an empty cell, a player's symbol otherwise.
#[derive(Debug)]
pub struct Pitch {
    pub dimensions: Dimensions,
    pub cells: Vec<Vec<char>>,
}

/// A position on the pitch.
#[derive(Debug, Clone, Copy)]
pub struct Position {
    pub row: usize,
    pub col: usize,
}

impl Pitch {
    /// The cells, row by row.
    pub open spec fn grid(&self) -> Seq<Seq<char>> {
        rows_of(&self.cells)
    }

    /// The number of rows.
    pub open spec fn height_spec(&self) -> int {
        self.dimensions.height as int
    }

    /// The number of columns.
    pub open spec fn width_spec(&self) -> int {
        self.dimensions.width as int
    }

    /// The cell at `(r, c)`.
    pub open spec fn at(&self, r: int, c: int) -> char {
        self.grid()[r][c]
    }

    /// Every position inside the dimensions has a cell.
    pub open spec fn covered(&self) -> bool {
        grid_covers(self.grid(), self.height_spec(), self.width_spec())
    }

    /// `(r, c)` lies inside the dimensions.
    pub open spec fn inside(&self, r: int, c: int) -> bool {
        0 <= r < self.height_spec() && 0 <= c < self.width_spec()
    }

    /// Whether every position inside the dimensions has a cell.
    pub fn is_covered(&self) -> (r: bool)
        ensures
            r == self.covered(),
    {
        covers(&self.cells, self.dimensions.height, self.dimensions.width)
    }

    /// Creates an empty pitch from the header line `Anfield WIDTH HEIGHT:`,
    /// which must be well-formed (see `input::parse_header`).
    pub fn new(header: &str) -> (p: Pitch)
        requires
            header_dimensions(header@) is Ok,
        ensures
            p.dimensions == header_dimensions(header@)->Ok_0,
            p.grid() == blank_grid(p.dimensions.height as int, p.dimensions.width as int),
            p.covered(),
    {
        let dimensions = match parse_header(header) {
            Ok(d) => d,
            Err(_) => Dimensions { width: 0, height: 0 },
        };
        let cells = new_blank_grid(dimensions.height, dimensions.width);
        Pitch { dimensions, cells }
    }

    /// Checks the engine's lines for a board of this pitch's dimensions:
    /// `lines[0]` is the column header; `lines[r + 1]` must hold row `r`,
    /// as `000 .a..`. Returns the error of the first row that cannot be read.
    pub fn check_pitch_lines(&self, lines: &Vec<String>) -> (r: Result<(), InputError>)
        ensures
            match pitch_rows(lines_of(lines), self.width_spec(), self.height_spec()) {
                Ok(_) => r is Ok,
                Err(e) => r == Err::<(), InputError>(e),
            },
    {
        match read_pitch_rows(lines, self.dimensions.width, self.dimensions.height) {
            Ok(_) => Ok(()),
            Err(e) => Err(e),
        }
    }

    /// Updates the pitch from the engine's lines: `lines[0]` is the column
    /// header and is skipped; `lines[r + 1]` holds row `r`, as `000 .a..`.
    /// Every row must be present and readable (see `check_pitch_lines`).
    pub fn load_state(&mut self, lines: &Vec<String>)
        requires
            old(self).cells@.len() >= old(self).dimensions.height,
            pitch_rows(lines_of(lines), old(self).width_spec(), old(self).height_spec()) is Ok,
        ensures
            final(self).dimensions == old(self).dimensions,
            final(self).covered(),
            final(self).grid() == pitch_rows(lines_of(lines), old(self).width_spec(), old(self).height_spec())->Ok_0
                + old(self).grid().subrange(old(self).height_spec(), old(self).grid().len() as int),
    {
        let ghost ls = lines_of(lines);
        let height = self.dimensions.height;
        let width = self.dimensions.width;
        let mut rows = match read_pitch_rows(lines, width, height) {
            Ok(v) => v,
            Err(_) => { return; },
        };
        let ghost kept = rows_of(&rows);
        let mut extra: usize = height;
        while extra < self.cells.len()
            invariant
                height == self.dimensions.height,
                height <= extra <= self.cells@.len(),
                rows_of(&rows) == kept + rows_of(&self.cells).subrange(height as int, extra as int),
            decreases self.cells.len() - extra,
        {
            let copied = copy_row(&self.cells[extra]);
            assert(rows_of(&self.cells)[extra as int] == copied@);
            let ghost before = rows_of(&rows);
            rows.push(copied);
            assert(rows_of(&rows) =~= before.push(copied@));
            assert(before.push(copied@) =~= kept + rows_of(&self.cells).subrange(height as int, extra + 1));
            extra = extra + 1;
        }
        self.cells = rows;
        proof {
            lemma_pitch_rows_width(ls, width as int, height as int);
            let g = self.grid();
            assert forall|r: int| 0 <= r < height implies #[trigger] g[r].len() >= width by {
                assert(g[r] == kept[r]);
            }
        }
    }
}

/// Reads the first `height` pitch rows from the engine's lines (line 0 being
/// the column header), or the error of the first row that cannot be read.
fn read_pitch_rows(lines: &Vec<String>, width: usize, height: usize) -> (r: Result<Vec<Vec<char>>, InputError>)
    ensures
        match pitch_rows(lines_of(lines), width as int, height as int) {
            Ok(rows) => r matches Ok(v) && rows_of(&v) == rows,
            Err(e) => r matches Err(x) && x == e,
        },
{
    let ghost ls = lines_of(lines);
    let mut rows: Vec<Vec<char>> = Vec::new();
    assert(rows_of(&rows) =~= Seq::<Seq<char>>::empty());
    let mut row_index: usize = 0;
    while row_index < height
        invariant
            ls == lines_of(lines),
            row_index <= height,
            pitch_rows(ls, width as int, row_index as int) == Ok::<Seq<Seq<char>>, InputError>(rows_of(&rows)),
        decreases height - row_index,
    {
        if lines.len() == 0 || row_index >= lines.len() - 1 {
            proof { lemma_pitch_rows_error_persists(ls, width as int, row_index + 1, height as int); }
            return Err(InputError::UnexpectedEof { row: row_index });
        }
        let line = lines[row_index + 1].as_str();
        assert(ls[row_index + 1] == line@);
        let row_data = match read_pitch_row(line, width, row_index) {
            Ok(v) => v,
            Err(e) => {
                proof { lemma_pitch_rows_error_persists(ls, width as int, row_index + 1, height as int); }
                return Err(e);
            },
        };
        let ghost before = rows_of(&rows);
        rows.push(row_data);
        assert(rows_of(&rows) =~= before.push(row_data@));
        row_index = row_index + 1;
    }
    Ok(rows)
}

impl Clone for Pitch {
    /// An independent copy of the pitch, with the same dimensions and cells.
    fn clone(&self) -> (r: Self)
        ensures
            r.dimensions == self.dimensions,
            r.grid() == self.grid(),
    {
        Pitch { dimensions: self.dimensions, cells: copy_grid(&self.cells) }
    }
}

impl Grid for Pitch {
    open spec fn grid_height(&self) -> nat {
        self.dimensions.height as nat
    }

    open spec fn grid_width(&self) -> nat {
        self.dimensions.width as nat
    }

    open spec fn grid_rows(&self) -> Seq<Seq<char>> {
        self.grid()
    }

    fn height(&self) -> (h: usize) {
        self.dimensions.height
    }

    fn width(&self) -> (w: usize) {
        self.dimensions.width
    }

    fn cells(&self) -> (c: &Vec<Vec<char>>) {
        &self.cells
    }

    fn cells_mut(&mut self) -> (c: &mut Vec<Vec<char>>) {
        &mut self.cells
    }
}

} // verus!
