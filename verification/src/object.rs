//! A piece ("object") to be placed on the pitch, and the trimming of its
//! empty edges.
use vstd::prelude::*;
use crate::grid_matrix::{Dimensions, Grid, grid_covers, grid_exact, rows_of, blank_grid, new_blank_grid, copy_row, copy_grid, covers, is_exact};
use crate::input::{InputError, header_dimensions, parse_header, shape_rows, lines_of, read_shape_row, lemma_shape_rows_error_persists, lemma_shape_rows_width};

verus! {

/// A game object to be placed on the pitch. Filled cells are any character
/// but `.`; the trimmed shape drops the empty rows and columns at the edges.
#[derive(Debug)]
pub struct Object {
    pub original_dimensions: Dimensions,
    pub original_cells: Vec<Vec<char>>,
    pub trimmed_dimensions: Dimensions,
    pub trimmed_cells: Vec<Vec<char>>,
    pub filled_cell_count: usize,
    /// `(row_offset, col_offset)` of the trimmed shape inside the original.
    pub trim_offset: (usize, usize),
}

/// The plain value of an [`Object`].
pub struct ObjectModel {
    pub original_dimensions: Dimensions,
    pub original_cells: Seq<Seq<char>>,
    pub trimmed_dimensions: Dimensions,
    pub trimmed_cells: Seq<Seq<char>>,
    pub filled_cell_count: usize,
    pub trim_offset: (usize, usize),
}

impl View for Object {
    type V = ObjectModel;

    open spec fn view(&self) -> ObjectModel {
        ObjectModel {
            original_dimensions: self.original_dimensions,
            original_cells: rows_of(&self.original_cells),
            trimmed_dimensions: self.trimmed_dimensions,
            trimmed_cells: rows_of(&self.trimmed_cells),
            filled_cell_count: self.filled_cell_count,
            trim_offset: self.trim_offset,
        }
    }
}

/// Every cell of the row is `.`.
pub open spec fn row_blank(row: Seq<char>) -> bool {
    forall|j: int| 0 <= j < row.len() ==> #[trigger] row[j] == '.'
}

/// Column `c` is `.` in every row of `top .. bottom`.
pub open spec fn col_blank(cells: Seq<Seq<char>>, c: int, top: int, bottom: int) -> bool {
    forall|i: int| top <= i < bottom ==> #[trigger] cells[i][c] == '.'
}

/// Some row among the first `height` has a filled cell.
pub open spec fn has_filled_row(cells: Seq<Seq<char>>, height: int) -> bool {
    exists|r: int| 0 <= r < height && !row_blank(#[trigger] cells[r])
}

/// `top .. bottom` and `left .. right` are what trimming keeps of a grid of
/// `height` rows and `width` columns: the rows strictly outside are blank,
/// the first and last kept rows are not; the columns outside are blank
/// within the kept rows, the first and last kept columns are not (when no
/// column is kept, both column edges stand at `width`).
pub open spec fn trim_box(
    cells: Seq<Seq<char>>,
    height: int,
    width: int,
    top: int,
    bottom: int,
    left: int,
    right: int,
) -> bool {
    &&& 0 <= top < bottom <= height
    &&& forall|r: int| 0 <= r < top ==> row_blank(#[trigger] cells[r])
    &&& forall|r: int| bottom <= r < height ==> row_blank(#[trigger] cells[r])
    &&& !row_blank(cells[top])
    &&& !row_blank(cells[bottom - 1])
    &&& 0 <= left <= right <= width
    &&& forall|c: int| 0 <= c < left ==> #[trigger] col_blank(cells, c, top, bottom)
    &&& forall|c: int| right <= c < width ==> #[trigger] col_blank(cells, c, top, bottom)
    &&& left < right ==> !col_blank(cells, left, top, bottom) && !col_blank(cells, right - 1, top, bottom)
    &&& left == right ==> left == width
}

/// The rows `top .. bottom`, each cut to the columns `left .. right`.
pub open spec fn cut(cells: Seq<Seq<char>>, top: int, bottom: int, left: int, right: int) -> Seq<Seq<char>> {
    Seq::new((bottom - top) as nat, |i: int| cells[top + i].subrange(left, right))
}

impl ObjectModel {
    /// The original cells cover the original dimensions, and the trimmed
    /// cells are exactly the trimmed dimensions.
    pub open spec fn wf(self) -> bool {
        &&& grid_covers(self.original_cells, self.original_dimensions.height as int, self.original_dimensions.width as int)
        &&& grid_exact(self.trimmed_cells, self.trimmed_dimensions.height as int, self.trimmed_dimensions.width as int)
    }

    /// The trimmed fields are the trimming of the original cells.
    pub open spec fn trimmed_consistently(self) -> bool {
        let top = self.trim_offset.0 as int;
        let left = self.trim_offset.1 as int;
        let bottom = top + self.trimmed_dimensions.height;
        let right = left + self.trimmed_dimensions.width;
        &&& trim_box(
            self.original_cells,
            self.original_dimensions.height as int,
            self.original_dimensions.width as int,
            top,
            bottom,
            left,
            right,
        )
        &&& self.trimmed_cells == cut(self.original_cells, top, bottom, left, right)
    }
}

/// Trimming loses no filled cell: every filled cell of the original grid
/// lies inside the kept box, and the trimmed shape holds it at the same
/// place relative to the box's corner.
pub proof fn lemma_trim_keeps_filled_cells(o: ObjectModel)
    requires
        o.trimmed_consistently(),
        grid_covers(o.original_cells, o.original_dimensions.height as int, o.original_dimensions.width as int),
    ensures
        forall|r: int, c: int|
            0 <= r < o.original_dimensions.height && 0 <= c < o.original_dimensions.width
                && #[trigger] o.original_cells[r][c] != '.' ==> {
                &&& o.trim_offset.0 <= r < o.trim_offset.0 + o.trimmed_dimensions.height
                &&& o.trim_offset.1 <= c < o.trim_offset.1 + o.trimmed_dimensions.width
                &&& o.trimmed_cells[r - o.trim_offset.0][c - o.trim_offset.1] == o.original_cells[r][c]
            },
{
    let cells = o.original_cells;
    let top = o.trim_offset.0 as int;
    let left = o.trim_offset.1 as int;
    let bottom = top + o.trimmed_dimensions.height;
    let right = left + o.trimmed_dimensions.width;
    assert forall|r: int, c: int|
        0 <= r < o.original_dimensions.height && 0 <= c < o.original_dimensions.width
            && #[trigger] cells[r][c] != '.' implies {
            &&& top <= r < bottom
            &&& left <= c < right
            &&& o.trimmed_cells[r - top][c - left] == cells[r][c]
        } by {
        assert(cells[r].len() >= o.original_dimensions.width);
        if r < top || r >= bottom {
            assert(row_blank(cells[r]));
        }
        if c < left || c >= right {
            assert(col_blank(cells, c, top, bottom));
        }
    }
}

/// Whether every cell of the row is `.`.
fn row_all_dots(row: &Vec<char>) -> (r: bool)
    ensures
        r == row_blank(row@),
{
    let mut j: usize = 0;
    while j < row.len()
        invariant
            forall|k: int| 0 <= k < j ==> #[trigger] row@[k] == '.',
        decreases row.len() - j,
    {
        if row[j] != '.' {
            return false;
        }
        j = j + 1;
    }
    true
}

/// Whether column `c` is `.` in every row of `top .. bottom`.
fn col_all_dots(cells: &Vec<Vec<char>>, c: usize, top: usize, bottom: usize) -> (r: bool)
    requires
        top <= bottom <= cells@.len(),
        forall|i: int| top <= i < bottom ==> c < #[trigger] rows_of(cells)[i].len(),
    ensures
        r == col_blank(rows_of(cells), c as int, top as int, bottom as int),
{
    let mut i: usize = top;
    while i < bottom
        invariant
            top <= i <= bottom <= cells@.len(),
            forall|k: int| top <= k < bottom ==> c < #[trigger] rows_of(cells)[k].len(),
            forall|k: int| top <= k < i ==> #[trigger] rows_of(cells)[k][c as int] == '.',
        decreases bottom - i,
    {
        assert(rows_of(cells)[i as int] == cells@[i as int]@);
        if cells[i][c] != '.' {
            assert(rows_of(cells)[i as int][c as int] != '.');
            return false;
        }
        i = i + 1;
    }
    true
}

/// A copy of the cells `left .. right` of a row.
pub fn copy_range(row: &Vec<char>, left: usize, right: usize) -> (v: Vec<char>)
    requires
        left <= right <= row@.len(),
    ensures
        v@ == row@.subrange(left as int, right as int),
{
    let mut v: Vec<char> = Vec::new();
    let mut j: usize = left;
    while j < right
        invariant
            left <= j <= right <= row@.len(),
            v@ == row@.subrange(left as int, j as int),
        decreases right - j,
    {
        v.push(row[j]);
        j = j + 1;
    }
    v
}

/// The number of filled (not `.`) cells of a row.
pub open spec fn filled_in_row(row: Seq<char>) -> int
    decreases row.len(),
{
    if row.len() == 0 {
        0
    } else {
        filled_in_row(row.drop_last()) + if row.last() != '.' { 1int } else { 0int }
    }
}

/// The number of filled cells of the rows.
pub open spec fn filled_in_rows(rows: Seq<Seq<char>>) -> int
    decreases rows.len(),
{
    if rows.len() == 0 {
        0
    } else {
        filled_in_rows(rows.drop_last()) + filled_in_row(rows.last())
    }
}

/// The value of a fresh object of the given dimensions: all cells empty,
/// nothing trimmed yet.
pub open spec fn fresh_object(d: Dimensions) -> ObjectModel {
    ObjectModel {
        original_dimensions: d,
        original_cells: blank_grid(d.height as int, d.width as int),
        trimmed_dimensions: Dimensions { width: 0, height: 0 },
        trimmed_cells: Seq::empty(),
        filled_cell_count: 0,
        trim_offset: (0, 0),
    }
}

/// Counts the filled cells of a row.
fn count_filled(row: &Vec<char>) -> (n: usize)
    ensures
        n == filled_in_row(row@),
{
    let mut n: usize = 0;
    let mut j: usize = 0;
    while j < row.len()
        invariant
            j <= row@.len(),
            n == filled_in_row(row@.subrange(0, j as int)),
            n <= j,
        decreases row.len() - j,
    {
        assert(row@.subrange(0, j + 1).drop_last() =~= row@.subrange(0, j as int));
        if row[j] != '.' {
            n = n + 1;
        }
        j = j + 1;
    }
    assert(row@.subrange(0, row@.len() as int) =~= row@);
    n
}

/// Whether some row has a filled cell.
fn any_filled_row(rows: &Vec<Vec<char>>) -> (r: bool)
    ensures
        r == has_filled_row(rows_of(rows), rows@.len() as int),
{
    let mut i: usize = 0;
    while i < rows.len()
        invariant
            i <= rows@.len(),
            forall|k: int| 0 <= k < i ==> row_blank(#[trigger] rows_of(rows)[k]),
        decreases rows.len() - i,
    {
        assert(rows_of(rows)[i as int] == rows@[i as int]@);
        if !row_all_dots(&rows[i]) {
            return true;
        }
        i = i + 1;
    }
    false
}

impl Object {
    /// Whether the original cells cover the original dimensions and the
    /// trimmed cells are exactly the trimmed dimensions.
    pub fn is_well_formed(&self) -> (r: bool)
        ensures
            r == self@.wf(),
    {
        covers(&self.original_cells, self.original_dimensions.height, self.original_dimensions.width)
            && is_exact(&self.trimmed_cells, self.trimmed_dimensions.height, self.trimmed_dimensions.width)
    }

    /// Removes the empty rows and columns at the edges of the shape: sets
    /// the trimmed cells, the trimmed dimensions and the offset of the kept
    /// box inside the original cells.
    pub fn trim_empty_edges(&mut self)
        requires
            grid_covers(
                old(self)@.original_cells,
                old(self).original_dimensions.height as int,
                old(self).original_dimensions.width as int,
            ),
            has_filled_row(old(self)@.original_cells, old(self).original_dimensions.height as int),
        ensures
            final(self)@.trimmed_consistently(),
            final(self)@.wf(),
            final(self)@.original_dimensions == old(self)@.original_dimensions,
            final(self)@.original_cells == old(self)@.original_cells,
            final(self)@.filled_cell_count == old(self)@.filled_cell_count,
    {
        let ghost cells = rows_of(&self.original_cells);
        let height = self.original_dimensions.height;
        let width = self.original_dimensions.width;
        let mut top: usize = 0;
        let mut bottom: usize = height;
        let mut left: usize = 0;
        let mut right: usize = width;

        // Find the top edge: skip blank rows from the top.
        while top < bottom && row_all_dots(&self.original_cells[top])
            invariant
                cells == rows_of(&self.original_cells),
                grid_covers(cells, height as int, width as int),
                top <= bottom,
                bottom == height,
                forall|r: int| 0 <= r < top ==> row_blank(#[trigger] cells[r]),
            decreases bottom - top,
        {
            top = top + 1;
        }
        assert(top < height && !row_blank(cells[top as int])) by {
            let r = choose|r: int| 0 <= r < height && !row_blank(#[trigger] cells[r]);
            if top >= height {
                assert(row_blank(cells[r]));
            }
        }

        // Find the bottom edge: skip blank rows from the bottom.
        while bottom > top && row_all_dots(&self.original_cells[bottom - 1])
            invariant
                cells == rows_of(&self.original_cells),
                grid_covers(cells, height as int, width as int),
                top < height,
                !row_blank(cells[top as int]),
                top <= bottom <= height,
                forall|r: int| bottom <= r < height ==> row_blank(#[trigger] cells[r]),
            decreases bottom - top,
        {
            bottom = bottom - 1;
        }
        assert(top < bottom);

        // Find the left edge: skip blank columns from the left.
        while left < right && col_all_dots(&self.original_cells, left, top, bottom)
            invariant
                cells == rows_of(&self.original_cells),
                grid_covers(cells, height as int, width as int),
                top < bottom <= height,
                left <= right,
                right == width,
                forall|c: int| 0 <= c < left ==> #[trigger] col_blank(cells, c, top as int, bottom as int),
            decreases right - left,
        {
            left = left + 1;
        }

        // Find the right edge: skip blank columns from the right.
        while right > left && col_all_dots(&self.original_cells, right - 1, top, bottom)
            invariant
                cells == rows_of(&self.original_cells),
                grid_covers(cells, height as int, width as int),
                top < bottom <= height,
                left <= right <= width,
                left < width ==> !col_blank(cells, left as int, top as int, bottom as int),
                left == width ==> right == width,
                forall|c: int| right <= c < width ==> #[trigger] col_blank(cells, c, top as int, bottom as int),
            decreases right - left,
        {
            right = right - 1;
        }

        // Extract the trimmed shape.
        let mut trimmed: Vec<Vec<char>> = Vec::new();
        let mut row_index: usize = top;
        while row_index < bottom
            invariant
                cells == rows_of(&self.original_cells),
                grid_covers(cells, height as int, width as int),
                top <= row_index <= bottom <= height,
                left <= right <= width,
                trimmed@.len() == row_index - top,
                forall|k: int| 0 <= k < row_index - top ==> #[trigger] trimmed@[k]@ == cells[top + k].subrange(left as int, right as int),
            decreases bottom - row_index,
        {
            assert(cells[row_index as int] == self.original_cells@[row_index as int]@);
            let row = copy_range(&self.original_cells[row_index], left, right);
            trimmed.push(row);
            row_index = row_index + 1;
        }
        assert(rows_of(&trimmed) =~= cut(cells, top as int, bottom as int, left as int, right as int));

        let trimmed_height = trimmed.len();
        let trimmed_width = trimmed[0].len();
        self.trimmed_cells = trimmed;
        self.trimmed_dimensions = Dimensions { width: trimmed_width, height: trimmed_height };
        self.trim_offset = (top, left);
        assert(trim_box(cells, height as int, width as int, top as int, bottom as int, left as int, right as int));
    }

    /// Creates a new, empty object from the header line `Piece WIDTH HEIGHT:`,
    /// which must be well-formed (see `input::parse_header`).
    pub fn from_header(header: &str) -> (o: Object)
        requires
            header_dimensions(header@) is Ok,
        ensures
            o@ == fresh_object(header_dimensions(header@)->Ok_0),
    {
        let dimensions = match parse_header(header) {
            Ok(d) => d,
            Err(_) => Dimensions { width: 0, height: 0 },
        };
        let cells = new_blank_grid(dimensions.height, dimensions.width);
        let o = Object {
            original_dimensions: dimensions,
            original_cells: cells,
            trimmed_dimensions: Dimensions { width: 0, height: 0 },
            trimmed_cells: Vec::new(),
            filled_cell_count: 0,
            trim_offset: (0, 0),
        };
        assert(rows_of(&o.trimmed_cells) =~= Seq::<Seq<char>>::empty());
        o
    }

    /// Checks the engine's lines for a shape of this object's dimensions:
    /// `lines[r]` must hold row `r`, and some row must have a filled cell.
    /// Returns the error of the first row that cannot be read, or
    /// `EmptyShape`.
    pub fn check_shape_lines(&self, lines: &Vec<String>) -> (r: Result<(), InputError>)
        ensures
            match shape_rows(lines_of(lines), self.original_dimensions.width as int, self.original_dimensions.height as int) {
                Err(e) => r == Err::<(), InputError>(e),
                Ok(rows) => if has_filled_row(rows, rows.len() as int) {
                    r is Ok
                } else {
                    r == Err::<(), InputError>(InputError::EmptyShape)
                },
            },
    {
        match read_shape_rows(lines, self.original_dimensions.width, self.original_dimensions.height) {
            Err(e) => Err(e),
            Ok(rows) => if any_filled_row(&rows) {
                Ok(())
            } else {
                Err(InputError::EmptyShape)
            },
        }
    }

    /// Loads the shape from the engine's lines, `lines[r]` holding row `r`,
    /// counts its filled cells and trims its empty edges. Every row must be
    /// present and readable and some row filled (see `check_shape_lines`).
    pub fn load_shape(&mut self, lines: &Vec<String>)
        requires
            old(self).original_cells@.len() >= old(self).original_dimensions.height,
            shape_rows(lines_of(lines), old(self).original_dimensions.width as int, old(self).original_dimensions.height as int)
                matches Ok(rows) && has_filled_row(rows, rows.len() as int)
                && old(self).filled_cell_count + filled_in_rows(rows) <= usize::MAX,
        ensures
            ({
                let rows = shape_rows(
                    lines_of(lines),
                    old(self).original_dimensions.width as int,
                    old(self).original_dimensions.height as int,
                )->Ok_0;
                &&& final(self)@.original_dimensions == old(self)@.original_dimensions
                &&& final(self)@.original_cells == rows + old(self)@.original_cells.subrange(
                    old(self).original_dimensions.height as int,
                    old(self)@.original_cells.len() as int,
                )
                &&& final(self)@.filled_cell_count == old(self).filled_cell_count + filled_in_rows(rows)
                &&& final(self)@.trimmed_consistently()
                &&& final(self)@.wf()
            }),
    {
        let ghost ls = lines_of(lines);
        let height = self.original_dimensions.height;
        let width = self.original_dimensions.width;
        let mut rows = match read_shape_rows(lines, width, height) {
            Ok(v) => v,
            Err(_) => { return; },
        };
        let ghost kept = rows_of(&rows);
        proof { lemma_shape_rows_width(ls, width as int, height as int); }

        // Count the filled cells of the new rows.
        let mut added: usize = 0;
        let mut k: usize = 0;
        while k < rows.len()
            invariant
                kept == rows_of(&rows),
                rows@.len() == height,
                height == self.original_dimensions.height,
                self.filled_cell_count + filled_in_rows(kept) <= usize::MAX,
                k <= rows@.len(),
                added == filled_in_rows(kept.subrange(0, k as int)),
            decreases rows.len() - k,
        {
            assert(kept.subrange(0, k + 1).drop_last() =~= kept.subrange(0, k as int));
            assert(kept[k as int] == rows@[k as int]@);
            proof { lemma_filled_prefix(kept, k as int + 1); }
            let n = count_filled(&rows[k]);
            added = added + n;
            k = k + 1;
        }
        assert(kept.subrange(0, kept.len() as int) =~= kept);

        // Keep the rows past the dimensions as they were.
        let mut extra: usize = height;
        while extra < self.original_cells.len()
            invariant
                height == self.original_dimensions.height,
                height <= extra <= self.original_cells@.len(),
                rows_of(&rows) == kept + rows_of(&self.original_cells).subrange(height as int, extra as int),
            decreases self.original_cells.len() - extra,
        {
            let copied = copy_row(&self.original_cells[extra]);
            assert(rows_of(&self.original_cells)[extra as int] == copied@);
            let ghost before = rows_of(&rows);
            rows.push(copied);
            assert(rows_of(&rows) =~= before.push(copied@));
            assert(before.push(copied@) =~= kept + rows_of(&self.original_cells).subrange(height as int, extra + 1));
            extra = extra + 1;
        }
        self.original_cells = rows;
        self.filled_cell_count = self.filled_cell_count + added;
        proof {
            let cells = rows_of(&self.original_cells);
            assert forall|r: int| 0 <= r < height implies #[trigger] cells[r].len() >= width by {
                assert(cells[r] == kept[r]);
            }
            let w = choose|r: int| 0 <= r < height && !row_blank(#[trigger] kept[r]);
            assert(cells[w] == kept[w]);
        }
        self.trim_empty_edges();
    }
}

/// Reads the first `height` shape rows from the engine's lines, or the
/// error of the first row that cannot be read.
fn read_shape_rows(lines: &Vec<String>, width: usize, height: usize) -> (r: Result<Vec<Vec<char>>, InputError>)
    ensures
        match shape_rows(lines_of(lines), width as int, height as int) {
            Ok(rows) => r matches Ok(v) && rows_of(&v) == rows && v@.len() == height,
            Err(e) => r matches Err(x) && x == e,
        },
{
    let ghost ls = lines_of(lines);
    let mut rows: Vec<Vec<char>> = Vec::new();
    assert(rows_of(&rows) =~= Seq::<Seq<char>>::empty());
    let mut row_index: usize = 0;
    while row_index < height
        invariant
            ls == lines_of(lines),
            row_index <= height,
            rows@.len() == row_index,
            shape_rows(ls, width as int, row_index as int) == Ok::<Seq<Seq<char>>, InputError>(rows_of(&rows)),
        decreases height - row_index,
    {
        if row_index >= lines.len() {
            proof { lemma_shape_rows_error_persists(ls, width as int, row_index + 1, height as int); }
            return Err(InputError::UnexpectedEof { row: row_index });
        }
        let line = lines[row_index].as_str();
        assert(ls[row_index as int] == line@);
        let row_data = match read_shape_row(line, width, row_index) {
            Ok(v) => v,
            Err(e) => {
                proof { lemma_shape_rows_error_persists(ls, width as int, row_index + 1, height as int); }
                return Err(e);
            },
        };
        let ghost before = rows_of(&rows);
        rows.push(row_data);
        assert(rows_of(&rows) =~= before.push(row_data@));
        row_index = row_index + 1;
    }
    Ok(rows)
}

/// The filled cells of a prefix of rows never exceed those of a longer
/// prefix.
proof fn lemma_filled_prefix(rows: Seq<Seq<char>>, k: int)
    requires
        0 <= k <= rows.len(),
    ensures
        0 <= filled_in_rows(rows.subrange(0, k)) <= filled_in_rows(rows),
    decreases rows.len() - k,
{
    if k < rows.len() {
        lemma_filled_prefix(rows, k + 1);
        assert(rows.subrange(0, k + 1).drop_last() =~= rows.subrange(0, k));
        assert(rows.subrange(0, k + 1).last() == rows[k]);
        lemma_filled_row_nonneg(rows[k]);
        lemma_filled_rows_nonneg(rows.subrange(0, k));
    } else {
        assert(rows.subrange(0, k) =~= rows);
        lemma_filled_rows_nonneg(rows);
    }
}

proof fn lemma_filled_row_nonneg(row: Seq<char>)
    ensures
        filled_in_row(row) >= 0,
    decreases row.len(),
{
    if row.len() > 0 {
        lemma_filled_row_nonneg(row.drop_last());
    }
}

proof fn lemma_filled_rows_nonneg(rows: Seq<Seq<char>>)
    ensures
        filled_in_rows(rows) >= 0,
    decreases rows.len(),
{
    if rows.len() > 0 {
        lemma_filled_rows_nonneg(rows.drop_last());
        lemma_filled_row_nonneg(rows.last());
    }
}


impl Clone for Object {
    /// An independent copy of the object, with the same value.
    fn clone(&self) -> (r: Self)
        ensures
            r@ == self@,
    {
        Object {
            original_dimensions: self.original_dimensions,
            original_cells: copy_grid(&self.original_cells),
            trimmed_dimensions: self.trimmed_dimensions,
            trimmed_cells: copy_grid(&self.trimmed_cells),
            filled_cell_count: self.filled_cell_count,
            trim_offset: self.trim_offset,
        }
    }
}

impl Grid for Object {
    open spec fn grid_height(&self) -> nat {
        self.original_dimensions.height as nat
    }

    open spec fn grid_width(&self) -> nat {
        self.original_dimensions.width as nat
    }

    open spec fn grid_rows(&self) -> Seq<Seq<char>> {
        rows_of(&self.original_cells)
    }

    fn height(&self) -> (h: usize) {
        self.original_dimensions.height
    }

    fn width(&self) -> (w: usize) {
        self.original_dimensions.width
    }

    fn cells(&self) -> (c: &Vec<Vec<char>>) {
        &self.original_cells
    }

    fn cells_mut(&mut self) -> (c: &mut Vec<Vec<char>>) {
        &mut self.original_cells
    }
}

} // verus!
