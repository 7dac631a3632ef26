//! Grid-shaped data (the pitch and the pieces) and the row-major sums and
//! concatenations that the contracts use to speak of whole grids.
use vstd::prelude::*;

verus! {

/// Width and height of a grid.
#[derive(Debug, Clone, Copy)]
pub struct Dimensions {
    pub width: usize,
    pub height: usize,
}

/// The rows of a grid of characters, as sequences.
pub open spec fn rows_of(cells: &Vec<Vec<char>>) -> Seq<Seq<char>> {
    cells@.map_values(|row: Vec<char>| row@)
}

/// Common interface of grid-shaped structures: the pitch and the objects.
pub trait Grid {
    /// The number of rows.
    spec fn grid_height(&self) -> nat;

    /// The number of columns.
    spec fn grid_width(&self) -> nat;

    /// The cells, row by row.
    spec fn grid_rows(&self) -> Seq<Seq<char>>;

    fn height(&self) -> (h: usize)
        ensures
            h == self.grid_height(),
    ;

    fn width(&self) -> (w: usize)
        ensures
            w == self.grid_width(),
    ;

    fn cells(&self) -> (c: &Vec<Vec<char>>)
        ensures
            rows_of(c) == self.grid_rows(),
    ;

    fn cells_mut(&mut self) -> (c: &mut Vec<Vec<char>>)
        ensures
            rows_of(c) == old(self).grid_rows(),
            rows_of(final(c)) == final(self).grid_rows(),
            final(self).grid_height() == old(self).grid_height(),
            final(self).grid_width() == old(self).grid_width(),
    ;

    /// Debug helper: the grid as text, `Grid (H rows x W cols):` followed
    /// by one line per row.
    fn to_display_string(&self) -> (s: String)
        ensures
            s@ == display_text(self.grid_height(), self.grid_width(), self.grid_rows()),
    {
        let mut output: Vec<char> = Vec::new();
        push_str(&mut output, "Grid (");
        push_decimal(&mut output, self.height());
        push_str(&mut output, " rows x ");
        push_decimal(&mut output, self.width());
        push_str(&mut output, " cols):\n");
        let ghost header = output@;
        let cells = self.cells();
        let ghost rows = self.grid_rows();
        let mut i: usize = 0;
        while i < cells.len()
            invariant
                rows == self.grid_rows(),
                rows_of(cells) == rows,
                i <= rows.len(),
                output@ == header + rows_text(rows.subrange(0, i as int)),
            decreases cells.len() - i,
        {
            let row = &cells[i];
            assert(rows[i as int] == row@);
            let ghost before = output@;
            let mut j: usize = 0;
            while j < row.len()
                invariant
                    j <= row@.len(),
                    output@ == before + row@.subrange(0, j as int),
                decreases row.len() - j,
            {
                output.push(row[j]);
                j = j + 1;
            }
            output.push('\n');
            assert(rows.subrange(0, i + 1).drop_last() =~= rows.subrange(0, i as int));
            assert(row@.subrange(0, row@.len() as int) =~= row@);
            assert(output@ =~= header + rows_text(rows.subrange(0, i + 1)));
            i = i + 1;
        }
        assert(rows.subrange(0, rows.len() as int) =~= rows);
        string_from_chars(output)
    }
}

/// The decimal digit character of `d`.
pub open spec fn digit_char(d: int) -> char {
    if d == 0 {
        '0'
    } else if d == 1 {
        '1'
    } else if d == 2 {
        '2'
    } else if d == 3 {
        '3'
    } else if d == 4 {
        '4'
    } else if d == 5 {
        '5'
    } else if d == 6 {
        '6'
    } else if d == 7 {
        '7'
    } else if d == 8 {
        '8'
    } else {
        '9'
    }
}

/// The decimal representation of `n`, without leading zeros.
pub open spec fn decimal(n: nat) -> Seq<char>
    decreases n,
{
    if n < 10 {
        seq![digit_char(n as int)]
    } else {
        decimal(n / 10).push(digit_char((n % 10) as int))
    }
}

/// Each row followed by a line break.
pub open spec fn rows_text(rows: Seq<Seq<char>>) -> Seq<char>
    decreases rows.len(),
{
    if rows.len() == 0 {
        Seq::empty()
    } else {
        rows_text(rows.drop_last()) + rows.last() + seq!['\n']
    }
}

/// The text of a grid: `Grid (H rows x W cols):`, a line break, then the rows.
pub open spec fn display_text(height: nat, width: nat, rows: Seq<Seq<char>>) -> Seq<char> {
    "Grid ("@ + decimal(height) + " rows x "@ + decimal(width) + " cols):\n"@ + rows_text(rows)
}

fn digit_to_char(d: usize) -> (c: char)
    requires
        d < 10,
    ensures
        c == digit_char(d as int),
{
    if d == 0 {
        '0'
    } else if d == 1 {
        '1'
    } else if d == 2 {
        '2'
    } else if d == 3 {
        '3'
    } else if d == 4 {
        '4'
    } else if d == 5 {
        '5'
    } else if d == 6 {
        '6'
    } else if d == 7 {
        '7'
    } else if d == 8 {
        '8'
    } else {
        '9'
    }
}

/// Appends the decimal representation of `n`.
fn push_decimal(output: &mut Vec<char>, n: usize)
    ensures
        final(output)@ == old(output)@ + decimal(n as nat),
    decreases n,
{
    if n < 10 {
        output.push(digit_to_char(n));
    } else {
        push_decimal(output, n / 10);
        output.push(digit_to_char(n % 10));
    }
    assert(final(output)@ =~= old(output)@ + decimal(n as nat));
}

/// Appends the characters of a text.
fn push_str(output: &mut Vec<char>, s: &str)
    ensures
        final(output)@ == old(output)@ + s@,
{
    let chars = crate::input::str_chars(s);
    let ghost start = output@;
    let mut i: usize = 0;
    while i < chars.len()
        invariant
            i <= chars@.len(),
            chars@ == s@,
            output@ == start + chars@.subrange(0, i as int),
        decreases chars.len() - i,
    {
        output.push(chars[i]);
        i = i + 1;
    }
    assert(chars@.subrange(0, chars@.len() as int) =~= chars@);
}

/// The text made of the given characters; `String::from_iter` collects the
/// characters in order, so the text's characters are exactly `chars`.
#[verifier::external_body]
fn string_from_chars(chars: Vec<char>) -> (s: String)
    ensures
        s@ == chars@,
{
    String::from_iter(chars)
}

/// Every row below `height` exists and has at least `width` cells.
pub open spec fn grid_covers(cells: Seq<Seq<char>>, height: int, width: int) -> bool {
    &&& cells.len() >= height
    &&& forall|r: int| 0 <= r < height ==> #[trigger] cells[r].len() >= width
}

/// The grid has exactly `height` rows of exactly `width` cells.
pub open spec fn grid_exact(cells: Seq<Seq<char>>, height: int, width: int) -> bool {
    &&& cells.len() == height
    &&& forall|r: int| 0 <= r < height ==> #[trigger] cells[r].len() == width
}

/// `f(i, 0) + ... + f(i, n - 1)`.
pub open spec fn line_sum(f: spec_fn(int, int) -> int, i: int, n: int) -> int
    decreases n,
{
    if n <= 0 {
        0
    } else {
        line_sum(f, i, n - 1) + f(i, n - 1)
    }
}

/// Row-major sum of `f` over the rows `0 .. m`, row `i` holding `len(i)` cells.
pub open spec fn grid_sum(f: spec_fn(int, int) -> int, len: spec_fn(int) -> int, m: int) -> int
    decreases m,
{
    if m <= 0 {
        0
    } else {
        grid_sum(f, len, m - 1) + line_sum(f, m - 1, len(m - 1))
    }
}

/// `g(i, 0) + ... + g(i, n - 1)` as concatenated sequences.
pub open spec fn line_concat<T>(g: spec_fn(int, int) -> Seq<T>, i: int, n: int) -> Seq<T>
    decreases n,
{
    if n <= 0 {
        Seq::empty()
    } else {
        line_concat(g, i, n - 1) + g(i, n - 1)
    }
}

/// Row-major concatenation of `g` over the rows `0 .. m`.
pub open spec fn grid_concat<T>(g: spec_fn(int, int) -> Seq<T>, len: spec_fn(int) -> int, m: int) -> Seq<T>
    decreases m,
{
    if m <= 0 {
        Seq::empty()
    } else {
        grid_concat(g, len, m - 1) + line_concat(g, m - 1, len(m - 1))
    }
}

/// A line sum of terms between `0` and `k` lies between `0` and `k * n`.
pub proof fn lemma_line_sum_bounds(f: spec_fn(int, int) -> int, i: int, n: int, k: int)
    requires
        0 <= n,
        0 <= k,
        forall|j: int| 0 <= j < n ==> 0 <= #[trigger] f(i, j) <= k,
    ensures
        0 <= line_sum(f, i, n) <= k * n,
    decreases n,
{
    if n > 0 {
        lemma_line_sum_bounds(f, i, n - 1, k);
        assert(k * (n - 1) + k == k * n) by (nonlinear_arith);
    }
}

/// Partial line sums of non-negative terms never exceed the full line sum.
pub proof fn lemma_line_sum_mono(f: spec_fn(int, int) -> int, i: int, a: int, b: int)
    requires
        0 <= a <= b,
        forall|j: int| 0 <= j < b ==> 0 <= #[trigger] f(i, j),
    ensures
        0 <= line_sum(f, i, a) <= line_sum(f, i, b),
    decreases b,
{
    if b > 0 {
        if a == b {
            lemma_line_sum_mono(f, i, a - 1, b - 1);
        } else {
            lemma_line_sum_mono(f, i, a, b - 1);
        }
    }
}

/// Partial grid sums of non-negative terms never exceed a later grid sum.
pub proof fn lemma_grid_sum_mono(
    f: spec_fn(int, int) -> int,
    len: spec_fn(int) -> int,
    m: int,
    j: int,
    big: int,
)
    requires
        0 <= m < big,
        0 <= j <= len(m),
        forall|i: int| 0 <= #[trigger] len(i),
        forall|i: int, c: int| 0 <= i < big && 0 <= c < len(i) ==> 0 <= #[trigger] f(i, c),
    ensures
        0 <= grid_sum(f, len, m),
        grid_sum(f, len, m) + line_sum(f, m, j) <= grid_sum(f, len, big),
    decreases big - m,
{
    lemma_grid_sum_nonneg(f, len, m);
    lemma_line_sum_mono(f, m, j, len(m));
    lemma_grid_sum_nonneg(f, len, m + 1);
    if m + 1 < big {
        lemma_grid_sum_mono(f, len, m + 1, 0, big);
    }
}

/// A grid sum of non-negative terms is non-negative.
pub proof fn lemma_grid_sum_nonneg(f: spec_fn(int, int) -> int, len: spec_fn(int) -> int, m: int)
    requires
        forall|i: int| 0 <= #[trigger] len(i),
        forall|i: int, c: int| 0 <= i < m && 0 <= c < len(i) ==> 0 <= #[trigger] f(i, c),
    ensures
        0 <= grid_sum(f, len, m),
    decreases m,
{
    if m > 0 {
        lemma_grid_sum_nonneg(f, len, m - 1);
        lemma_line_sum_mono(f, m - 1, 0, len(m - 1));
    }
}

/// A grid sum of terms between `0` and `k`, over rows of at most `w` cells,
/// is at most `k * w * m`.
pub proof fn lemma_grid_sum_bound(
    f: spec_fn(int, int) -> int,
    len: spec_fn(int) -> int,
    m: int,
    w: int,
    k: int,
)
    requires
        0 <= m,
        0 <= k,
        forall|i: int| 0 <= i < m ==> 0 <= #[trigger] len(i) <= w,
        forall|i: int, c: int| 0 <= i < m && 0 <= c < len(i) ==> 0 <= #[trigger] f(i, c) <= k,
    ensures
        0 <= grid_sum(f, len, m) <= k * w * m,
    decreases m,
{
    if m > 0 {
        lemma_grid_sum_bound(f, len, m - 1, w, k);
        let l = len(m - 1);
        assert forall|j: int| 0 <= j < l implies 0 <= #[trigger] f(m - 1, j) <= k by {}
        lemma_line_sum_bounds(f, m - 1, l, k);
        assert(k * l <= k * w) by (nonlinear_arith)
            requires
                0 <= k,
                l <= w,
        ;
        assert(k * w * (m - 1) + k * w == k * w * m) by (nonlinear_arith);
    } else {
        assert(k * w * m == 0) by (nonlinear_arith)
            requires
                m == 0,
        ;
    }
}


/// A non-zero line sum has a non-zero term.
pub proof fn lemma_line_sum_witness(f: spec_fn(int, int) -> int, i: int, n: int)
    requires
        line_sum(f, i, n) != 0,
    ensures
        exists|j: int| 0 <= j < n && #[trigger] f(i, j) != 0,
    decreases n,
{
    if n > 0 {
        if f(i, n - 1) == 0 {
            lemma_line_sum_witness(f, i, n - 1);
            let j = choose|j: int| 0 <= j < n - 1 && #[trigger] f(i, j) != 0;
            assert(f(i, j) != 0);
        }
    }
}

/// A non-zero grid sum has a non-zero term.
pub proof fn lemma_grid_sum_witness(f: spec_fn(int, int) -> int, len: spec_fn(int) -> int, m: int)
    requires
        grid_sum(f, len, m) != 0,
    ensures
        exists|i: int, j: int| 0 <= i < m && 0 <= j < len(i) && #[trigger] f(i, j) != 0,
    decreases m,
{
    if m > 0 {
        if line_sum(f, m - 1, len(m - 1)) != 0 {
            lemma_line_sum_witness(f, m - 1, len(m - 1));
            let j = choose|j: int| 0 <= j < len(m - 1) && #[trigger] f(m - 1, j) != 0;
            assert(f(m - 1, j) != 0);
        } else {
            lemma_grid_sum_witness(f, len, m - 1);
            let (i, j) = choose|i: int, j: int| 0 <= i < m - 1 && 0 <= j < len(i) && #[trigger] f(i, j) != 0;
            assert(f(i, j) != 0);
        }
    }
}

/// A line sum of `f` is at most `k` times the line sum of `g` when each
/// term of `f` is.
pub proof fn lemma_line_sum_scaled(f: spec_fn(int, int) -> int, g: spec_fn(int, int) -> int, i: int, n: int, k: int)
    requires
        forall|j: int| 0 <= j < n ==> #[trigger] f(i, j) <= k * g(i, j),
    ensures
        line_sum(f, i, n) <= k * line_sum(g, i, n),
    decreases n,
{
    if n > 0 {
        lemma_line_sum_scaled(f, g, i, n - 1, k);
        let a = line_sum(g, i, n - 1);
        let b = g(i, n - 1);
        assert(k * (a + b) == k * a + k * b) by (nonlinear_arith);
    } else {
        assert(k * 0 == 0) by (nonlinear_arith);
    }
}

/// A grid sum of `f` is at most `k` times the grid sum of `g` when each
/// term of `f` is.
pub proof fn lemma_grid_sum_scaled(
    f: spec_fn(int, int) -> int,
    g: spec_fn(int, int) -> int,
    len: spec_fn(int) -> int,
    m: int,
    k: int,
)
    requires
        forall|i: int, j: int| 0 <= i < m && 0 <= j < len(i) ==> #[trigger] f(i, j) <= k * g(i, j),
    ensures
        grid_sum(f, len, m) <= k * grid_sum(g, len, m),
    decreases m,
{
    if m > 0 {
        lemma_grid_sum_scaled(f, g, len, m - 1, k);
        assert forall|j: int| 0 <= j < len(m - 1) implies #[trigger] f(m - 1, j) <= k * g(m - 1, j) by {}
        lemma_line_sum_scaled(f, g, m - 1, len(m - 1), k);
        let a = grid_sum(g, len, m - 1);
        let b = line_sum(g, m - 1, len(m - 1));
        assert(k * (a + b) == k * a + k * b) by (nonlinear_arith);
    } else {
        assert(k * 0 == 0) by (nonlinear_arith);
    }
}

/// Every element of a line concatenation comes from one of its pieces.
pub proof fn lemma_line_concat_member<T>(g: spec_fn(int, int) -> Seq<T>, i: int, n: int, k: int)
    requires
        0 <= k < line_concat(g, i, n).len(),
    ensures
        exists|j: int, t: int| 0 <= j < n && 0 <= t < g(i, j).len() && line_concat(g, i, n)[k] == #[trigger] g(i, j)[t],
    decreases n,
{
    if n > 0 {
        let prev = line_concat(g, i, n - 1);
        if k < prev.len() {
            lemma_line_concat_member(g, i, n - 1, k);
            let (j, t) = choose|j: int, t: int| 0 <= j < n - 1 && 0 <= t < g(i, j).len() && prev[k] == #[trigger] g(i, j)[t];
            assert(line_concat(g, i, n)[k] == g(i, j)[t]);
        } else {
            assert(line_concat(g, i, n)[k] == g(i, n - 1)[k - prev.len()]);
        }
    }
}

/// Every element of a grid concatenation comes from one of its pieces.
pub proof fn lemma_grid_concat_member<T>(g: spec_fn(int, int) -> Seq<T>, len: spec_fn(int) -> int, m: int, k: int)
    requires
        0 <= k < grid_concat(g, len, m).len(),
    ensures
        exists|i: int, j: int, t: int|
            0 <= i < m && 0 <= j < len(i) && 0 <= t < g(i, j).len() && grid_concat(g, len, m)[k] == #[trigger] g(i, j)[t],
    decreases m,
{
    if m > 0 {
        let prev = grid_concat(g, len, m - 1);
        if k < prev.len() {
            lemma_grid_concat_member(g, len, m - 1, k);
            let (i, j, t) = choose|i: int, j: int, t: int|
                0 <= i < m - 1 && 0 <= j < len(i) && 0 <= t < g(i, j).len() && prev[k] == #[trigger] g(i, j)[t];
            assert(grid_concat(g, len, m)[k] == g(i, j)[t]);
        } else {
            lemma_line_concat_member(g, m - 1, len(m - 1), k - prev.len());
            let (j, t) = choose|j: int, t: int|
                0 <= j < len(m - 1) && 0 <= t < g(m - 1, j).len()
                    && line_concat(g, m - 1, len(m - 1))[k - prev.len()] == #[trigger] g(m - 1, j)[t];
            assert(grid_concat(g, len, m)[k] == g(m - 1, j)[t]);
        }
    }
}


/// A grid concatenation of empty rows is empty.
pub proof fn lemma_no_columns<T>(g: spec_fn(int, int) -> Seq<T>, len: spec_fn(int) -> int, m: int)
    requires
        forall|i: int| 0 <= i < m ==> line_concat(g, i, #[trigger] len(i)).len() == 0,
    ensures
        grid_concat(g, len, m).len() == 0,
    decreases m,
{
    if m > 0 {
        assert(line_concat(g, m - 1, len(m - 1)).len() == 0);
        lemma_no_columns(g, len, m - 1);
    }
}


/// A grid of `height` rows of `width` empty (`.`) cells.
pub open spec fn blank_grid(height: int, width: int) -> Seq<Seq<char>> {
    Seq::new(height as nat, |i: int| Seq::new(width as nat, |j: int| '.'))
}

/// Builds a grid of `height` rows of `width` empty (`.`) cells.
pub fn new_blank_grid(height: usize, width: usize) -> (g: Vec<Vec<char>>)
    ensures
        rows_of(&g) == blank_grid(height as int, width as int),
{
    let mut g: Vec<Vec<char>> = Vec::new();
    let mut i: usize = 0;
    while i < height
        invariant
            i <= height,
            g@.len() == i,
            forall|k: int| 0 <= k < i ==> #[trigger] g@[k]@ == Seq::new(width as nat, |j: int| '.'),
        decreases height - i,
    {
        let mut row: Vec<char> = Vec::new();
        let mut j: usize = 0;
        while j < width
            invariant
                j <= width,
                row@ == Seq::new(j as nat, |c: int| '.'),
            decreases width - j,
        {
            row.push('.');
            j = j + 1;
            assert(row@ =~= Seq::new(j as nat, |c: int| '.'));
        }
        g.push(row);
        i = i + 1;
    }
    assert(rows_of(&g) =~= blank_grid(height as int, width as int));
    g
}

/// A copy of a row of cells.
pub fn copy_row(row: &Vec<char>) -> (v: Vec<char>)
    ensures
        v@ == row@,
{
    let mut v: Vec<char> = Vec::new();
    let mut j: usize = 0;
    while j < row.len()
        invariant
            j <= row@.len(),
            v@ == row@.subrange(0, j as int),
        decreases row.len() - j,
    {
        v.push(row[j]);
        j = j + 1;
    }
    assert(row@.subrange(0, row@.len() as int) =~= row@);
    v
}

/// A copy of a grid of cells.
pub fn copy_grid(cells: &Vec<Vec<char>>) -> (v: Vec<Vec<char>>)
    ensures
        rows_of(&v) == rows_of(cells),
{
    let mut v: Vec<Vec<char>> = Vec::new();
    let mut i: usize = 0;
    while i < cells.len()
        invariant
            i <= cells@.len(),
            v@.len() == i,
            forall|k: int| 0 <= k < i ==> #[trigger] v@[k]@ == cells@[k]@,
        decreases cells.len() - i,
    {
        v.push(copy_row(&cells[i]));
        i = i + 1;
    }
    assert(rows_of(&v) =~= rows_of(cells));
    v
}

/// Whether every row below `height` exists and has at least `width` cells.
pub fn covers(cells: &Vec<Vec<char>>, height: usize, width: usize) -> (r: bool)
    ensures
        r == grid_covers(rows_of(cells), height as int, width as int),
{
    if cells.len() < height {
        return false;
    }
    let mut i: usize = 0;
    while i < height
        invariant
            height <= cells@.len(),
            i <= height,
            forall|k: int| 0 <= k < i ==> #[trigger] rows_of(cells)[k].len() >= width,
        decreases height - i,
    {
        assert(rows_of(cells)[i as int] == cells@[i as int]@);
        if cells[i].len() < width {
            return false;
        }
        i = i + 1;
    }
    true
}

/// Whether the grid has exactly `height` rows of exactly `width` cells.
pub fn is_exact(cells: &Vec<Vec<char>>, height: usize, width: usize) -> (r: bool)
    ensures
        r == grid_exact(rows_of(cells), height as int, width as int),
{
    if cells.len() != height {
        return false;
    }
    let mut i: usize = 0;
    while i < height
        invariant
            height == cells@.len(),
            i <= height,
            forall|k: int| 0 <= k < i ==> #[trigger] rows_of(cells)[k].len() == width,
        decreases height - i,
    {
        assert(rows_of(cells)[i as int] == cells@[i as int]@);
        if cells[i].len() != width {
            return false;
        }
        i = i + 1;
    }
    true
}

/// A line sum whose terms are all 0 is 0.
pub proof fn lemma_line_sum_zero(f: spec_fn(int, int) -> int, i: int, n: int)
    requires
        forall|j: int| 0 <= j < n ==> #[trigger] f(i, j) == 0,
    ensures
        line_sum(f, i, n) == 0,
    decreases n,
{
    if n > 0 {
        lemma_line_sum_zero(f, i, n - 1);
    }
}

/// A line sum whose only non-zero term is a 1 at `j0` is 1.
pub proof fn lemma_line_sum_single(f: spec_fn(int, int) -> int, i: int, n: int, j0: int)
    requires
        0 <= j0 < n,
        f(i, j0) == 1,
        forall|j: int| 0 <= j < n && j != j0 ==> #[trigger] f(i, j) == 0,
    ensures
        line_sum(f, i, n) == 1,
    decreases n,
{
    if j0 == n - 1 {
        lemma_line_sum_zero(f, i, n - 1);
    } else {
        lemma_line_sum_single(f, i, n - 1, j0);
    }
}

/// A grid sum whose terms are all 0 is 0.
pub proof fn lemma_grid_sum_zero(f: spec_fn(int, int) -> int, len: spec_fn(int) -> int, m: int)
    requires
        forall|i: int, j: int| 0 <= i < m && 0 <= j < len(i) ==> #[trigger] f(i, j) == 0,
    ensures
        grid_sum(f, len, m) == 0,
    decreases m,
{
    if m > 0 {
        lemma_grid_sum_zero(f, len, m - 1);
        assert forall|j: int| 0 <= j < len(m - 1) implies #[trigger] f(m - 1, j) == 0 by {}
        lemma_line_sum_zero(f, m - 1, len(m - 1));
    }
}

/// A grid sum whose only non-zero term is a 1 at `(i0, j0)` is 1.
pub proof fn lemma_grid_sum_single(f: spec_fn(int, int) -> int, len: spec_fn(int) -> int, m: int, i0: int, j0: int)
    requires
        0 <= i0 < m,
        0 <= j0 < len(i0),
        f(i0, j0) == 1,
        forall|i: int, j: int| 0 <= i < m && 0 <= j < len(i) && !(i == i0 && j == j0) ==> #[trigger] f(i, j) == 0,
    ensures
        grid_sum(f, len, m) == 1,
    decreases m,
{
    if i0 == m - 1 {
        assert forall|i: int, j: int| 0 <= i < m - 1 && 0 <= j < len(i) implies #[trigger] f(i, j) == 0 by {}
        lemma_grid_sum_zero(f, len, m - 1);
        assert forall|j: int| 0 <= j < len(m - 1) && j != j0 implies #[trigger] f(m - 1, j) == 0 by {}
        lemma_line_sum_single(f, m - 1, len(m - 1), j0);
    } else {
        lemma_grid_sum_single(f, len, m - 1, i0, j0);
        assert forall|j: int| 0 <= j < len(m - 1) implies #[trigger] f(m - 1, j) == 0 by {}
        lemma_line_sum_zero(f, m - 1, len(m - 1));
    }
}

/// Every element of every piece appears in a line concatenation.
pub proof fn lemma_line_concat_has<T>(g: spec_fn(int, int) -> Seq<T>, i: int, n: int, j: int, t: int)
    requires
        0 <= j < n,
        0 <= t < g(i, j).len(),
    ensures
        exists|k: int| 0 <= k < line_concat(g, i, n).len() && line_concat(g, i, n)[k] == g(i, j)[t],
    decreases n,
{
    let prev = line_concat(g, i, n - 1);
    if j == n - 1 {
        assert(line_concat(g, i, n)[prev.len() + t] == g(i, j)[t]);
    } else {
        lemma_line_concat_has(g, i, n - 1, j, t);
        let k = choose|k: int| 0 <= k < prev.len() && prev[k] == g(i, j)[t];
        assert(line_concat(g, i, n)[k] == g(i, j)[t]);
    }
}

/// Every element of every piece appears in a grid concatenation.
pub proof fn lemma_grid_concat_has<T>(g: spec_fn(int, int) -> Seq<T>, len: spec_fn(int) -> int, m: int, i: int, j: int, t: int)
    requires
        0 <= i < m,
        0 <= j < len(i),
        0 <= t < g(i, j).len(),
    ensures
        exists|k: int| 0 <= k < grid_concat(g, len, m).len() && grid_concat(g, len, m)[k] == g(i, j)[t],
    decreases m,
{
    let prev = grid_concat(g, len, m - 1);
    if i == m - 1 {
        lemma_line_concat_has(g, i, len(i), j, t);
        let line = line_concat(g, i, len(i));
        let k = choose|k: int| 0 <= k < line.len() && line[k] == g(i, j)[t];
        assert(grid_concat(g, len, m)[prev.len() + k] == g(i, j)[t]);
    } else {
        lemma_grid_concat_has(g, len, m - 1, i, j, t);
        let k = choose|k: int| 0 <= k < prev.len() && prev[k] == g(i, j)[t];
        assert(grid_concat(g, len, m)[k] == g(i, j)[t]);
    }
}

/// A grid sum whose only non-zero term is at `(i0, j0)` is that term.
pub proof fn lemma_grid_sum_only(f: spec_fn(int, int) -> int, len: spec_fn(int) -> int, m: int, i0: int, j0: int)
    requires
        0 <= i0 < m,
        0 <= j0 < len(i0),
        forall|i: int, j: int| 0 <= i < m && 0 <= j < len(i) && !(i == i0 && j == j0) ==> #[trigger] f(i, j) == 0,
    ensures
        grid_sum(f, len, m) == f(i0, j0),
{
    let g = |i: int, j: int| if i == i0 && j == j0 { 1int } else { 0int };
    lemma_grid_sum_single(g, len, m, i0, j0);
    if f(i0, j0) != 0 {
        assert forall|i: int, j: int| 0 <= i < m && 0 <= j < len(i) implies #[trigger] f(i, j) == f(i0, j0) * g(i, j) by {}
        lemma_grid_sum_linear(f, g, len, m, f(i0, j0));
    } else {
        assert forall|i: int, j: int| 0 <= i < m && 0 <= j < len(i) implies #[trigger] f(i, j) == 0 by {}
        lemma_grid_sum_zero(f, len, m);
    }
}

/// A grid sum of `f` is `k` times that of `g` when each term is.
pub proof fn lemma_grid_sum_linear(f: spec_fn(int, int) -> int, g: spec_fn(int, int) -> int, len: spec_fn(int) -> int, m: int, k: int)
    requires
        forall|i: int, j: int| 0 <= i < m && 0 <= j < len(i) ==> #[trigger] f(i, j) == k * g(i, j),
    ensures
        grid_sum(f, len, m) == k * grid_sum(g, len, m),
{
    assert forall|i: int, j: int| 0 <= i < m && 0 <= j < len(i) implies #[trigger] f(i, j) <= k * g(i, j) by {}
    lemma_grid_sum_scaled(f, g, len, m, k);
    let nf = |i: int, j: int| -f(i, j);
    let ng = |i: int, j: int| -g(i, j);
    assert forall|i: int, j: int| 0 <= i < m && 0 <= j < len(i) implies #[trigger] nf(i, j) <= k * ng(i, j) by {
        assert(k * ng(i, j) == -(k * g(i, j))) by (nonlinear_arith)
            requires
                ng(i, j) == -g(i, j),
        ;
    }
    lemma_grid_sum_scaled(nf, ng, len, m, k);
    lemma_grid_sum_neg(f, nf, len, m);
    lemma_grid_sum_neg(g, ng, len, m);
    assert(k * (-grid_sum(g, len, m)) == -(k * grid_sum(g, len, m))) by (nonlinear_arith);
}

/// Negating every term negates a grid sum.
pub proof fn lemma_grid_sum_neg(f: spec_fn(int, int) -> int, nf: spec_fn(int, int) -> int, len: spec_fn(int) -> int, m: int)
    requires
        forall|i: int, j: int| #[trigger] nf(i, j) == -f(i, j),
    ensures
        grid_sum(nf, len, m) == -grid_sum(f, len, m),
    decreases m,
{
    if m > 0 {
        lemma_grid_sum_neg(f, nf, len, m - 1);
        lemma_line_sum_neg(f, nf, m - 1, len(m - 1));
    }
}

/// Negating every term negates a line sum.
pub proof fn lemma_line_sum_neg(f: spec_fn(int, int) -> int, nf: spec_fn(int, int) -> int, i: int, n: int)
    requires
        forall|i: int, j: int| #[trigger] nf(i, j) == -f(i, j),
    ensures
        line_sum(nf, i, n) == -line_sum(f, i, n),
    decreases n,
{
    if n > 0 {
        lemma_line_sum_neg(f, nf, i, n - 1);
    }
}

} // verus!
