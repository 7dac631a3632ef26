//! Reading the engine's text: characters of a line, whitespace trimming,
//! splitting into words, decimal numbers, UTF-8 byte offsets, and the
//! errors that malformed input gives.
use vstd::prelude::*;
use crate::grid_matrix::Dimensions;

verus! {

/// What is wrong with the engine's input.
#[derive(Debug, Clone, Copy, PartialEq, Eq, Structural)]
pub enum InputError {
    /// The header has no word at this index (0 is the keyword).
    MissingField { index: usize },
    /// The width in the header is not a number that fits a `usize`.
    InvalidWidth,
    /// The height in the header is not a number that fits a `usize`.
    InvalidHeight,
    /// The input ended before this row was read.
    UnexpectedEof { row: usize },
    /// This row, trimmed, has only `length` characters.
    RowTooShort { row: usize, length: usize },
    /// The row's cells do not start on a character boundary.
    NotCharBoundary { row: usize },
    /// The shape has no filled cell.
    EmptyShape,
}

/// The characters of `s`, in order.
pub fn str_chars(s: &str) -> (v: Vec<char>)
    ensures
        v@ == s@,
{
    let n = s.unicode_len();
    let mut v: Vec<char> = Vec::new();
    let mut i: usize = 0;
    while i < n
        invariant
            n == s@.len(),
            i <= n,
            v@ == s@.subrange(0, i as int),
        decreases n - i,
    {
        let c = s.get_char(i);
        v.push(c);
        i = i + 1;
    }
    v
}

/// Unicode's `White_Space` characters, those that `char::is_whitespace`
/// accepts.
pub open spec fn is_white_space(c: char) -> bool {
    let u = c as u32;
    ||| 0x9 <= u <= 0xd
    ||| u == 0x20
    ||| u == 0x85
    ||| u == 0xa0
    ||| u == 0x1680
    ||| 0x2000 <= u <= 0x200a
    ||| u == 0x2028
    ||| u == 0x2029
    ||| u == 0x202f
    ||| u == 0x205f
    ||| u == 0x3000
}

/// Whether `c` is a whitespace character.
pub fn is_white_space_char(c: char) -> (r: bool)
    ensures
        r == is_white_space(c),
{
    let u = c as u32;
    (0x9 <= u && u <= 0xd) || u == 0x20 || u == 0x85 || u == 0xa0 || u == 0x1680
        || (0x2000 <= u && u <= 0x200a) || u == 0x2028 || u == 0x2029 || u == 0x202f
        || u == 0x205f || u == 0x3000
}

/// The text without its trailing whitespace.
pub open spec fn trim_end_spec(s: Seq<char>) -> Seq<char>
    decreases s.len(),
{
    if s.len() > 0 && is_white_space(s.last()) {
        trim_end_spec(s.drop_last())
    } else {
        s
    }
}

/// The text without the copies of `c` at its end.
pub open spec fn trim_end_char(s: Seq<char>, c: char) -> Seq<char>
    decreases s.len(),
{
    if s.len() > 0 && s.last() == c {
        trim_end_char(s.drop_last(), c)
    } else {
        s
    }
}

/// The length of the text without its trailing whitespace.
pub fn trim_end_len(s: &Vec<char>) -> (n: usize)
    ensures
        n <= s@.len(),
        s@.subrange(0, n as int) == trim_end_spec(s@),
{
    let mut n = s.len();
    assert(s@.subrange(0, n as int) =~= s@);
    while n > 0 && is_white_space_char(s[n - 1])
        invariant
            n <= s@.len(),
            trim_end_spec(s@.subrange(0, n as int)) == trim_end_spec(s@),
        decreases n,
    {
        assert(s@.subrange(0, n as int).drop_last() =~= s@.subrange(0, n - 1));
        n = n - 1;
    }
    n
}

/// The length of the text without the copies of `c` at its end.
pub fn trim_end_char_len(s: &Vec<char>, c: char) -> (n: usize)
    ensures
        n <= s@.len(),
        s@.subrange(0, n as int) == trim_end_char(s@, c),
{
    let mut n = s.len();
    assert(s@.subrange(0, n as int) =~= s@);
    while n > 0 && s[n - 1] == c
        invariant
            n <= s@.len(),
            trim_end_char(s@.subrange(0, n as int), c) == trim_end_char(s@, c),
        decreases n,
    {
        assert(s@.subrange(0, n as int).drop_last() =~= s@.subrange(0, n - 1));
        n = n - 1;
    }
    n
}

/// The whitespace-separated words of the text, in order.
pub open spec fn words(s: Seq<char>) -> Seq<Seq<char>>
    decreases s.len(),
{
    if s.len() == 0 {
        Seq::empty()
    } else {
        let prefix = s.drop_last();
        let c = s.last();
        let w = words(prefix);
        if is_white_space(c) {
            w
        } else if prefix.len() == 0 || is_white_space(prefix.last()) {
            w.push(seq![c])
        } else {
            w.update(w.len() - 1, w.last().push(c))
        }
    }
}

/// A text that does not end in whitespace has at least one word.
proof fn lemma_words_nonempty(s: Seq<char>)
    requires
        s.len() > 0,
        !is_white_space(s.last()),
    ensures
        words(s).len() > 0,
    decreases s.len(),
{
    let prefix = s.drop_last();
    if prefix.len() > 0 && !is_white_space(prefix.last()) {
        lemma_words_nonempty(prefix);
    }
}

/// Splits the characters `s[0 .. n]` into whitespace-separated words.
pub fn split_words(s: &Vec<char>, n: usize) -> (w: Vec<Vec<char>>)
    requires
        n <= s@.len(),
    ensures
        w@.len() == words(s@.subrange(0, n as int)).len(),
        forall|k: int| 0 <= k < w@.len() ==> #[trigger] w@[k]@ == words(s@.subrange(0, n as int))[k],
{
    let mut w: Vec<Vec<char>> = Vec::new();
    let mut i: usize = 0;
    while i < n
        invariant
            n <= s@.len(),
            i <= n,
            w@.len() == words(s@.subrange(0, i as int)).len(),
            forall|k: int| 0 <= k < w@.len() ==> #[trigger] w@[k]@ == words(s@.subrange(0, i as int))[k],
        decreases n - i,
    {
        let ghost prev = s@.subrange(0, i as int);
        let ghost next = s@.subrange(0, i + 1);
        assert(next.drop_last() =~= prev);
        assert(next.last() == s@[i as int]);
        let c = s[i];
        if is_white_space_char(c) {
        } else if i == 0 || is_white_space_char(s[i - 1]) {
            let mut word: Vec<char> = Vec::new();
            word.push(c);
            assert(word@ =~= seq![c]);
            w.push(word);
        } else {
            assert(prev.last() == s@[i - 1]);
            proof { lemma_words_nonempty(prev); }
            let mut word = w.pop().unwrap();
            word.push(c);
            w.push(word);
        }
        i = i + 1;
    }
    w
}

/// An ASCII decimal digit.
pub open spec fn is_digit(c: char) -> bool {
    '0' as u32 <= c as u32 <= '9' as u32
}

/// The value of a string of decimal digits.
pub open spec fn digits_value(s: Seq<char>) -> int
    decreases s.len(),
{
    if s.len() == 0 {
        0
    } else {
        digits_value(s.drop_last()) * 10 + (s.last() as u32 - '0' as u32)
    }
}

/// The digits of a number text: without one leading `+`.
pub open spec fn number_digits(s: Seq<char>) -> Seq<char> {
    if s.len() > 0 && s[0] == '+' {
        s.drop_first()
    } else {
        s
    }
}

/// The `usize` that `str::parse` reads from the text: an optional `+`, then
/// one or more ASCII digits whose value fits in a `usize`.
pub open spec fn parse_usize_spec(s: Seq<char>) -> Option<usize> {
    let d = number_digits(s);
    if d.len() > 0 && (forall|i: int| 0 <= i < d.len() ==> #[trigger] is_digit(d[i])) && digits_value(d) <= usize::MAX {
        Some(digits_value(d) as usize)
    } else {
        None
    }
}

/// The value of digits never decreases as digits are added.
proof fn lemma_digits_value_mono(s: Seq<char>, k: int)
    requires
        0 <= k <= s.len(),
        forall|i: int| 0 <= i < s.len() ==> #[trigger] is_digit(s[i]),
    ensures
        0 <= digits_value(s.subrange(0, k)) <= digits_value(s),
    decreases s.len() - k,
{
    if k < s.len() {
        lemma_digits_value_mono(s, k + 1);
        let t = s.subrange(0, k + 1);
        assert(t.drop_last() =~= s.subrange(0, k));
        assert(is_digit(s[k]));
    } else {
        assert(s.subrange(0, k) =~= s);
        lemma_digits_value_nonneg(s);
    }
}

/// The value of digits is never negative.
proof fn lemma_digits_value_nonneg(s: Seq<char>)
    requires
        forall|i: int| 0 <= i < s.len() ==> #[trigger] is_digit(s[i]),
    ensures
        0 <= digits_value(s),
    decreases s.len(),
{
    if s.len() > 0 {
        assert forall|i: int| 0 <= i < s.drop_last().len() implies #[trigger] is_digit(s.drop_last()[i]) by {
            assert(s.drop_last()[i] == s[i]);
        }
        lemma_digits_value_nonneg(s.drop_last());
        assert(is_digit(s[s.len() - 1]));
    }
}

/// Reads a `usize` the way `str::parse` does.
pub fn parse_usize(s: &Vec<char>) -> (r: Option<usize>)
    ensures
        r == parse_usize_spec(s@),
{
    let ghost d = number_digits(s@);
    let start: usize = if s.len() > 0 && s[0] == '+' { 1 } else { 0 };
    assert(d =~= s@.subrange(start as int, s@.len() as int));
    if start >= s.len() {
        return None;
    }
    // Every character must be a digit.
    let mut i = start;
    while i < s.len()
        invariant
            start <= i <= s@.len(),
            d == s@.subrange(start as int, s@.len() as int),
            d == number_digits(s@),
            forall|k: int| 0 <= k < i - start ==> #[trigger] is_digit(d[k]),
        decreases s.len() - i,
    {
        let u = s[i] as u32;
        assert(d[i - start] == s@[i as int]);
        if !('0' as u32 <= u && u <= '9' as u32) {
            assert(!is_digit(d[i - start]));
            assert(!(forall|j: int| 0 <= j < d.len() ==> #[trigger] is_digit(d[j])));
            assert(parse_usize_spec(s@) is None);
            return None;
        }
        i = i + 1;
    }
    // Accumulate the value, stopping on overflow.
    let mut value: usize = 0;
    let mut i = start;
    while i < s.len()
        invariant
            start <= i <= s@.len(),
            d == s@.subrange(start as int, s@.len() as int),
            d == number_digits(s@),
            forall|k: int| 0 <= k < d.len() ==> #[trigger] is_digit(d[k]),
            value == digits_value(d.subrange(0, i - start)),
        decreases s.len() - i,
    {
        let ghost t = d.subrange(0, i + 1 - start);
        assert(t.drop_last() =~= d.subrange(0, i - start));
        assert(t.last() == s@[i as int]);
        assert(d[i - start] == s@[i as int]);
        assert(is_digit(d[i - start]));
        let digit = (s[i] as u32 - '0' as u32) as usize;
        assert(digits_value(t) == value * 10 + digit);
        if value > (usize::MAX - digit) / 10 {
            proof {
                assert(value * 10 + digit > usize::MAX) by (nonlinear_arith)
                    requires
                        value > (usize::MAX - digit) / 10,
                        0 <= digit <= 9,
                ;
                lemma_digits_value_mono(d, i + 1 - start);
                assert(digits_value(d) > usize::MAX);
                assert(parse_usize_spec(s@) is None);
            }
            return None;
        }
        assert(value * 10 + digit <= usize::MAX) by (nonlinear_arith)
            requires
                value <= (usize::MAX - digit) / 10,
                0 <= digit <= 9,
        ;
        value = value * 10 + digit;
        i = i + 1;
    }
    assert(d.subrange(0, d.len() as int) =~= d);
    Some(value)
}

/// The width and height that a header line such as `Anfield 20 15:` gives:
/// trailing colons dropped, the second and third words read as numbers.
pub open spec fn header_dimensions(header: Seq<char>) -> Result<Dimensions, InputError> {
    let parts = words(trim_end_char(header, ':'));
    if parts.len() < 2 {
        Err(InputError::MissingField { index: 1 })
    } else {
        match parse_usize_spec(parts[1]) {
            None => Err(InputError::InvalidWidth),
            Some(width) => if parts.len() < 3 {
                Err(InputError::MissingField { index: 2 })
            } else {
                match parse_usize_spec(parts[2]) {
                    None => Err(InputError::InvalidHeight),
                    Some(height) => Ok(Dimensions { width, height }),
                }
            },
        }
    }
}

/// Reads the dimensions from a header line: `KEYWORD WIDTH HEIGHT:`.
pub fn parse_header(header: &str) -> (r: Result<Dimensions, InputError>)
    ensures
        r == header_dimensions(header@),
{
    let chars = str_chars(header);
    let n = trim_end_char_len(&chars, ':');
    let parts = split_words(&chars, n);
    let ghost ps = words(trim_end_char(header@, ':'));
    if parts.len() < 2 {
        return Err(InputError::MissingField { index: 1 });
    }
    let width = match parse_usize(&parts[1]) {
        None => { return Err(InputError::InvalidWidth); },
        Some(w) => w,
    };
    if parts.len() < 3 {
        return Err(InputError::MissingField { index: 2 });
    }
    let height = match parse_usize(&parts[2]) {
        None => { return Err(InputError::InvalidHeight); },
        Some(h) => h,
    };
    Ok(Dimensions { width, height })
}

/// The number of bytes of a character in UTF-8.
pub open spec fn utf8_len(c: char) -> int {
    let u = c as u32;
    if u < 0x80 {
        1
    } else if u < 0x800 {
        2
    } else if u < 0x10000 {
        3
    } else {
        4
    }
}

/// The index of the character that starts at byte `b` of the text's UTF-8
/// encoding, if a character starts there (the end counts).
pub open spec fn char_at_byte(s: Seq<char>, b: int) -> Option<int>
    decreases s.len(),
{
    if b == 0 {
        Some(0)
    } else if b < 0 || s.len() == 0 {
        None
    } else {
        match char_at_byte(s.drop_first(), b - utf8_len(s[0])) {
            Some(k) => Some(k + 1),
            None => None,
        }
    }
}

/// A character boundary at byte `b` lies at a character index at most `b`.
proof fn lemma_char_at_byte_bound(s: Seq<char>, b: int)
    requires
        char_at_byte(s, b) is Some,
    ensures
        0 <= char_at_byte(s, b)->0 <= b,
        char_at_byte(s, b)->0 <= s.len(),
    decreases s.len(),
{
    if b != 0 {
        lemma_char_at_byte_bound(s.drop_first(), b - utf8_len(s[0]));
    }
}

/// The number of UTF-8 bytes of a character.
fn char_utf8_len(c: char) -> (n: usize)
    ensures
        n == utf8_len(c),
{
    let u = c as u32;
    if u < 0x80 {
        1
    } else if u < 0x800 {
        2
    } else if u < 0x10000 {
        3
    } else {
        4
    }
}

/// The character index at byte 4 of the text, if a character starts there.
pub fn char_at_byte_four(s: &Vec<char>) -> (r: Option<usize>)
    ensures
        r matches Some(k) ==> char_at_byte(s@, 4) == Some(k as int),
        r is None ==> char_at_byte(s@, 4) is None,
{
    let mut k: usize = 0;
    let mut bytes: usize = 0;
    assert(s@.subrange(0, s@.len() as int) =~= s@);
    while bytes < 4 && k < s.len()
        invariant
            k <= s@.len(),
            bytes <= 4,
            bytes >= k,
            char_at_byte(s@, 4) == (match char_at_byte(s@.subrange(k as int, s@.len() as int), 4 - bytes) {
                Some(j) => Some(j + k),
                None => None::<int>,
            }),
        decreases 4 - bytes,
    {
        let ghost rest = s@.subrange(k as int, s@.len() as int);
        assert(rest.drop_first() =~= s@.subrange(k + 1, s@.len() as int));
        assert(rest[0] == s@[k as int]);
        let len = char_utf8_len(s[k]);
        if len > 4 - bytes {
            assert(char_at_byte(rest.drop_first(), 4 - bytes - len) is None) by {
                reveal_with_fuel(char_at_byte, 2);
            }
            return None;
        }
        bytes = bytes + len;
        k = k + 1;
    }
    if bytes == 4 {
        Some(k)
    } else {
        None
    }
}


/// The texts of a list of lines.
pub open spec fn lines_of(v: &Vec<String>) -> Seq<Seq<char>> {
    v@.map_values(|l: String| l@)
}

/// The cells that a pitch row line such as `003 ..a..` gives: the line
/// without trailing whitespace must hold at least `4 + width` characters;
/// the cells are the `width` characters from byte 4 on, which must start a
/// character.
pub open spec fn pitch_row(line: Seq<char>, width: int, row: int) -> Result<Seq<char>, InputError> {
    let t = trim_end_spec(line);
    if t.len() < 4 + width {
        Err(InputError::RowTooShort { row: row as usize, length: t.len() as usize })
    } else {
        match char_at_byte(t, 4) {
            None => Err(InputError::NotCharBoundary { row: row as usize }),
            Some(k) => Ok(t.subrange(k, k + width)),
        }
    }
}

/// The first `n` pitch rows read from the lines (line 0 being the column
/// header), or the error of the first row that cannot be read.
pub open spec fn pitch_rows(lines: Seq<Seq<char>>, width: int, n: int) -> Result<Seq<Seq<char>>, InputError>
    decreases n,
{
    if n <= 0 {
        Ok(Seq::empty())
    } else {
        match pitch_rows(lines, width, n - 1) {
            Err(e) => Err(e),
            Ok(rows) => if n >= lines.len() {
                Err(InputError::UnexpectedEof { row: (n - 1) as usize })
            } else {
                match pitch_row(lines[n], width, n - 1) {
                    Err(e) => Err(e),
                    Ok(cells) => Ok(rows.push(cells)),
                }
            },
        }
    }
}

/// The cells that a shape line gives: the line without trailing whitespace
/// must hold at least `width` characters; the cells are the first `width`.
pub open spec fn shape_row(line: Seq<char>, width: int, row: int) -> Result<Seq<char>, InputError> {
    let t = trim_end_spec(line);
    if t.len() < width {
        Err(InputError::RowTooShort { row: row as usize, length: t.len() as usize })
    } else {
        Ok(t.subrange(0, width))
    }
}

/// The first `n` shape rows read from the lines, or the error of the first
/// row that cannot be read.
pub open spec fn shape_rows(lines: Seq<Seq<char>>, width: int, n: int) -> Result<Seq<Seq<char>>, InputError>
    decreases n,
{
    if n <= 0 {
        Ok(Seq::empty())
    } else {
        match shape_rows(lines, width, n - 1) {
            Err(e) => Err(e),
            Ok(rows) => if n - 1 >= lines.len() {
                Err(InputError::UnexpectedEof { row: (n - 1) as usize })
            } else {
                match shape_row(lines[n - 1], width, n - 1) {
                    Err(e) => Err(e),
                    Ok(cells) => Ok(rows.push(cells)),
                }
            },
        }
    }
}

/// Reads the cells of one pitch row line.
pub fn read_pitch_row(line: &str, width: usize, row: usize) -> (r: Result<Vec<char>, InputError>)
    ensures
        match pitch_row(line@, width as int, row as int) {
            Ok(cells) => r matches Ok(v) && v@ == cells,
            Err(e) => r == Err::<Vec<char>, InputError>(e),
        },
{
    let chars = str_chars(line);
    let n = trim_end_len(&chars);
    let ghost t = trim_end_spec(line@);
    let mut trimmed: Vec<char> = Vec::new();
    let mut i: usize = 0;
    while i < n
        invariant
            n <= chars@.len(),
            i <= n,
            trimmed@ == chars@.subrange(0, i as int),
        decreases n - i,
    {
        trimmed.push(chars[i]);
        i = i + 1;
    }
    assert(trimmed@ == t);
    if trimmed.len() < 4 || trimmed.len() - 4 < width {
        return Err(InputError::RowTooShort { row, length: trimmed.len() });
    }
    let start = match char_at_byte_four(&trimmed) {
        None => { return Err(InputError::NotCharBoundary { row }); },
        Some(k) => k,
    };
    proof { lemma_char_at_byte_bound(t, 4); }
    let mut cells: Vec<char> = Vec::new();
    let mut j: usize = 0;
    while j < width
        invariant
            trimmed@ == t,
            t.len() == trimmed.len(),
            start <= 4,
            start + width <= t.len(),
            j <= width,
            cells@ == t.subrange(start as int, start + j),
        decreases width - j,
    {
        cells.push(trimmed[start + j]);
        j = j + 1;
    }
    Ok(cells)
}

/// Reads the cells of one shape line.
pub fn read_shape_row(line: &str, width: usize, row: usize) -> (r: Result<Vec<char>, InputError>)
    ensures
        match shape_row(line@, width as int, row as int) {
            Ok(cells) => r matches Ok(v) && v@ == cells,
            Err(e) => r == Err::<Vec<char>, InputError>(e),
        },
{
    let chars = str_chars(line);
    let n = trim_end_len(&chars);
    let ghost t = trim_end_spec(line@);
    if n < width {
        return Err(InputError::RowTooShort { row, length: n });
    }
    let mut cells: Vec<char> = Vec::new();
    let mut j: usize = 0;
    while j < width
        invariant
            n <= chars@.len(),
            chars@.subrange(0, n as int) == t,
            width <= n,
            j <= width,
            cells@ == t.subrange(0, j as int),
        decreases width - j,
    {
        cells.push(chars[j]);
        j = j + 1;
    }
    Ok(cells)
}


/// Once a pitch row cannot be read, reading more rows gives the same error.
pub proof fn lemma_pitch_rows_error_persists(lines: Seq<Seq<char>>, width: int, n: int, m: int)
    requires
        0 <= n <= m,
        pitch_rows(lines, width, n) is Err,
    ensures
        pitch_rows(lines, width, m) == pitch_rows(lines, width, n),
    decreases m - n,
{
    if m > n {
        lemma_pitch_rows_error_persists(lines, width, n, m - 1);
    }
}

/// Once a shape row cannot be read, reading more rows gives the same error.
pub proof fn lemma_shape_rows_error_persists(lines: Seq<Seq<char>>, width: int, n: int, m: int)
    requires
        0 <= n <= m,
        shape_rows(lines, width, n) is Err,
    ensures
        shape_rows(lines, width, m) == shape_rows(lines, width, n),
    decreases m - n,
{
    if m > n {
        lemma_shape_rows_error_persists(lines, width, n, m - 1);
    }
}


/// Rows read from shape lines have the requested width.
pub proof fn lemma_shape_rows_width(lines: Seq<Seq<char>>, width: int, n: int)
    requires
        0 <= width,
        0 <= n,
        shape_rows(lines, width, n) is Ok,
    ensures
        shape_rows(lines, width, n)->Ok_0.len() == n,
        forall|r: int| 0 <= r < n ==> (#[trigger] shape_rows(lines, width, n)->Ok_0[r]).len() == width,
    decreases n,
{
    if n > 0 {
        lemma_shape_rows_width(lines, width, n - 1);
    }
}

/// Rows read from pitch lines have the requested width.
pub proof fn lemma_pitch_rows_width(lines: Seq<Seq<char>>, width: int, n: int)
    requires
        0 <= width,
        0 <= n,
        pitch_rows(lines, width, n) is Ok,
    ensures
        pitch_rows(lines, width, n)->Ok_0.len() == n,
        forall|r: int| 0 <= r < n ==> (#[trigger] pitch_rows(lines, width, n)->Ok_0[r]).len() == width,
    decreases n,
{
    if n > 0 {
        lemma_pitch_rows_width(lines, width, n - 1);
        let t = trim_end_spec(lines[n]);
        if char_at_byte(t, 4) is Some {
            lemma_char_at_byte_bound(t, 4);
        }
    }
}

} // verus!
