//! The textual form of a grid.
//!
//! A text describes a grid line by line. Blank lines and lines whose first
//! word starts with `#` are left out. In every other line each word stands
//! for a cell, the first at column 0: one letter for the zone of a cell that
//! holds no digit yet, or a letter and a decimal digit.
use crate::grid::{Grid, GridView};
use crate::line_column::LineColumn;
use vstd::prelude::*;

verus! {

/// Where a text fails to describe a grid: the line and the column of the
/// first word that is no cell, counted as the cells are.
#[derive(Clone, Copy, Debug, PartialEq, Eq, Structural)]
pub struct ParseGridError(pub i32, pub i32);

/// The characters that separate the words of a line.
pub open spec fn is_blank(c: char) -> bool {
    c == ' ' || c == '\t' || c == '\r' || c == '\x0C'
}

/// The value of a decimal digit.
pub open spec fn spec_digit(c: char) -> Option<u8> {
    if c == '0' {
        Some(0)
    } else if c == '1' {
        Some(1)
    } else if c == '2' {
        Some(2)
    } else if c == '3' {
        Some(3)
    } else if c == '4' {
        Some(4)
    } else if c == '5' {
        Some(5)
    } else if c == '6' {
        Some(6)
    } else if c == '7' {
        Some(7)
    } else if c == '8' {
        Some(8)
    } else if c == '9' {
        Some(9)
    } else {
        None
    }
}

/// Number of characters before the first line feed of `s`.
pub open spec fn line_len(s: Seq<char>) -> nat
    decreases s.len(),
{
    if s.len() == 0 || s[0] == '\n' {
        0
    } else {
        1 + line_len(s.skip(1))
    }
}

/// Number of blank characters at the start of `s`.
pub open spec fn blank_len(s: Seq<char>) -> nat
    decreases s.len(),
{
    if s.len() == 0 || !is_blank(s[0]) {
        0
    } else {
        1 + blank_len(s.skip(1))
    }
}

/// Number of characters of `s` before its first blank.
pub open spec fn word_len(s: Seq<char>) -> nat
    decreases s.len(),
{
    if s.len() == 0 || is_blank(s[0]) {
        0
    } else {
        1 + word_len(s.skip(1))
    }
}

/// The lines of a text: what stands between its line feeds.
pub open spec fn text_lines(s: Seq<char>) -> Seq<Seq<char>>
    decreases s.len(),
{
    let n = line_len(s);
    if n >= s.len() {
        seq![s]
    } else {
        seq![s.take(n as int)] + text_lines(s.skip(n as int + 1))
    }
}

/// The words of a line: its longest runs of characters that are not blank.
pub open spec fn words(s: Seq<char>) -> Seq<Seq<char>>
    decreases s.len(),
{
    if s.len() == 0 {
        Seq::empty()
    } else if is_blank(s[0]) {
        words(s.skip(1))
    } else {
        let n = word_len(s);
        if n >= s.len() {
            seq![s]
        } else {
            seq![s.take(n as int)] + words(s.skip(n as int))
        }
    }
}

/// The line holds no cell: it is blank, or a comment.
pub open spec fn is_ignored(line: Seq<char>) -> bool {
    blank_len(line) >= line.len() || line[blank_len(line) as int] == '#'
}

/// The cell that a word stands for: the letter of its zone, and its digit
/// if it has one.
pub open spec fn token(word: Seq<char>) -> Option<(char, Option<u8>)> {
    if word.len() == 1 {
        Some((word[0], None))
    } else if word.len() == 2 && spec_digit(word[1]) is Some {
        Some((word[0], spec_digit(word[1])))
    } else {
        None
    }
}

/// The grid after the cells of `cells` were put into `grid`, in line `row`
/// from column `column` on; or the place of the first word that is no cell.
pub open spec fn load_words(grid: GridView, row: int, column: int, cells: Seq<Seq<char>>) -> Result<
    GridView,
    ParseGridError,
>
    decreases cells.len(),
{
    if cells.len() == 0 {
        Ok(grid)
    } else {
        match token(cells[0]) {
            Some((letter, digit)) => load_words(
                grid.with_cell(
                    LineColumn { line: row as i32, column: column as i32 },
                    letter,
                    digit,
                ),
                row,
                column + 1,
                cells.skip(1),
            ),
            None => Err(ParseGridError(row as i32, column as i32)),
        }
    }
}

/// The grid after the cells of `lines` were put into `grid`, the first line
/// that holds cells as line `row`; or the place of the first word that is no
/// cell.
pub open spec fn load_lines(grid: GridView, row: int, lines: Seq<Seq<char>>) -> Result<
    GridView,
    ParseGridError,
>
    decreases lines.len(),
{
    if lines.len() == 0 {
        Ok(grid)
    } else if is_ignored(lines[0]) {
        load_lines(grid, row, lines.skip(1))
    } else {
        match load_words(grid, row, 0, words(lines[0])) {
            Ok(filled) => load_lines(filled, row + 1, lines.skip(1)),
            Err(e) => Err(e),
        }
    }
}

/// The grid that a text describes, or the place of its first word that is
/// no cell.
pub open spec fn parsed(text: Seq<char>) -> Result<GridView, ParseGridError> {
    load_lines(GridView::spec_empty(), 0, text_lines(text))
}

/// The grid that a text of any length describes: a text of more than
/// `i32::MAX` characters describes none, and its error is at
/// `(i32::MAX, i32::MAX)`.
pub open spec fn parsed_text(text: Seq<char>) -> Result<GridView, ParseGridError> {
    if text.len() <= i32::MAX {
        parsed(text)
    } else {
        Err(ParseGridError(i32::MAX, i32::MAX))
    }
}

/// Putting cells into a sound grid on which solving has not begun leaves it
/// such a grid.
pub proof fn lemma_load_words(grid: GridView, row: int, column: int, cells: Seq<Seq<char>>)
    requires
        grid.well_formed(),
        grid.pristine(),
    ensures
        load_words(grid, row, column, cells) matches Ok(filled) ==> filled.well_formed()
            && filled.pristine(),
    decreases cells.len(),
{
    if cells.len() > 0 {
        match token(cells[0]) {
            Some((letter, digit)) => {
                let position = LineColumn { line: row as i32, column: column as i32 };
                grid.lemma_with_cell(position, letter, digit);
                grid.lemma_with_cell_pristine(position, letter, digit);
                lemma_load_words(
                    grid.with_cell(position, letter, digit),
                    row,
                    column + 1,
                    cells.skip(1),
                );
            },
            None => {},
        }
    }
}

/// A grid that a text describes is sound, and its cells hold a digit or
/// nothing.
pub proof fn lemma_load_lines(grid: GridView, row: int, lines: Seq<Seq<char>>)
    requires
        grid.well_formed(),
        grid.pristine(),
    ensures
        load_lines(grid, row, lines) matches Ok(filled) ==> filled.well_formed()
            && filled.pristine(),
    decreases lines.len(),
{
    if lines.len() > 0 {
        if is_ignored(lines[0]) {
            lemma_load_lines(grid, row, lines.skip(1));
        } else {
            lemma_load_words(grid, row, 0, words(lines[0]));
            match load_words(grid, row, 0, words(lines[0])) {
                Ok(filled) => {
                    lemma_load_lines(filled, row + 1, lines.skip(1));
                },
                Err(e) => {},
            }
        }
    }
}

/// The characters of a text.
fn chars_of(text: &str) -> (v: Vec<char>)
    ensures
        v@ == text@,
{
    let mut v: Vec<char> = Vec::new();
    for c in it: text.chars()
        invariant
            it.seq() == text@,
            v@ == text@.take(it.index() as int),
    {
        v.push(c);
        assert(v@ =~= text@.take(it.index() + 1));
    }
    assert(v@ =~= text@);
    v
}

/// Whether `c` separates words.
fn blank(c: char) -> (r: bool)
    ensures
        r == is_blank(c),
{
    c == ' ' || c == '\t' || c == '\r' || c == '\x0C'
}

/// The value of a decimal digit.
fn digit(c: char) -> (r: Option<u8>)
    ensures
        r == spec_digit(c),
{
    if c == '0' {
        Some(0)
    } else if c == '1' {
        Some(1)
    } else if c == '2' {
        Some(2)
    } else if c == '3' {
        Some(3)
    } else if c == '4' {
        Some(4)
    } else if c == '5' {
        Some(5)
    } else if c == '6' {
        Some(6)
    } else if c == '7' {
        Some(7)
    } else if c == '8' {
        Some(8)
    } else if c == '9' {
        Some(9)
    } else {
        None
    }
}

/// Index of the first line feed from `from` on, `chars.len()` where there
/// is none.
fn line_end(chars: &Vec<char>, from: usize) -> (end: usize)
    requires
        from <= chars.len(),
    ensures
        from <= end <= chars.len(),
        end - from == line_len(chars@.skip(from as int)),
{
    let mut end = from;
    while end < chars.len() && chars[end] != '\n'
        invariant
            from <= end <= chars.len(),
            line_len(chars@.skip(from as int)) == (end - from) + line_len(
                chars@.skip(end as int),
            ),
        decreases chars.len() - end,
    {
        assert(chars@.skip(end as int).skip(1) =~= chars@.skip(end + 1));
        end += 1;
    }
    end
}

/// Index of the first character from `from` on, before `to`, that is not
/// blank; `to` where there is none.
fn blank_end(chars: &Vec<char>, from: usize, to: usize) -> (end: usize)
    requires
        from <= to <= chars.len(),
    ensures
        from <= end <= to,
        end - from == blank_len(chars@.subrange(from as int, to as int)),
{
    let mut end = from;
    while end < to && blank(chars[end])
        invariant
            from <= end <= to <= chars.len(),
            blank_len(chars@.subrange(from as int, to as int)) == (end - from) + blank_len(
                chars@.subrange(end as int, to as int),
            ),
        decreases to - end,
    {
        assert(chars@.subrange(end as int, to as int).skip(1) =~= chars@.subrange(
            end + 1,
            to as int,
        ));
        end += 1;
    }
    end
}

/// Index of the first blank from `from` on, before `to`; `to` where there
/// is none.
fn word_end(chars: &Vec<char>, from: usize, to: usize) -> (end: usize)
    requires
        from <= to <= chars.len(),
    ensures
        from <= end <= to,
        end - from == word_len(chars@.subrange(from as int, to as int)),
{
    let mut end = from;
    while end < to && !blank(chars[end])
        invariant
            from <= end <= to <= chars.len(),
            word_len(chars@.subrange(from as int, to as int)) == (end - from) + word_len(
                chars@.subrange(end as int, to as int),
            ),
        decreases to - end,
    {
        assert(chars@.subrange(end as int, to as int).skip(1) =~= chars@.subrange(
            end + 1,
            to as int,
        ));
        end += 1;
    }
    end
}

/// Reads the grid that `text` describes.
///
/// Lines end at a line feed. A line without a word, or whose first word
/// starts with `#`, holds no cell. The words of the other lines, separated
/// by spaces, tabs, carriage returns or form feeds, are the cells of the
/// grid: those of the first such line at line 0, the first word of a line
/// at column 0. A word of one character is a cell of the zone of that
/// letter, without a digit; a word of two characters, the second a decimal
/// digit, is a cell of the zone of the first that holds the digit. Any other
/// word is an error, reported with its line and column.
pub fn parse_grid(text: &str) -> (r: Result<Grid, ParseGridError>)
    requires
        text@.len() <= i32::MAX,
    ensures
        match r {
            Ok(grid) => parsed(text@) == Ok::<GridView, ParseGridError>(grid@)
                && grid@.well_formed() && grid@.pristine(),
            Err(e) => parsed(text@) == Err::<GridView, ParseGridError>(e),
        },
{
    let chars = chars_of(text);
    let n = chars.len();
    let mut grid = Grid::default();
    let mut row: i32 = 0;
    let mut from: usize = 0;
    assert(chars@.skip(0) =~= chars@);
    loop
        invariant
            n == chars.len(),
            n <= i32::MAX,
            chars@ == text@,
            from <= n,
            0 <= row <= from,
            grid@.well_formed(),
            grid@.pristine(),
            parsed(text@) == load_lines(grid@, row as int, text_lines(chars@.skip(from as int))),
        decreases n - from,
    {
        let ghost rest = chars@.skip(from as int);
        let ghost before = grid@;
        let to = line_end(&chars, from);
        let ghost line = chars@.subrange(from as int, to as int);
        let first = blank_end(&chars, from, to);
        proof {
            assert(line =~= rest.take(to - from));
            assert(text_lines(rest)[0] == line);
            if to < n {
                assert(rest.skip((to - from) + 1) =~= chars@.skip(to + 1));
                assert(text_lines(rest).skip(1) =~= text_lines(chars@.skip(to + 1)));
            } else {
                assert(text_lines(rest).skip(1) =~= Seq::<Seq<char>>::empty());
            }
            lemma_load_lines(before, row as int, text_lines(rest));
        }
        if first < to && chars[first] != '#' {
            assert(!is_ignored(line));
            let mut column: i32 = 0;
            let mut at: usize = from;
            while at < to
                invariant
                    n == chars.len(),
                    n <= i32::MAX,
                    from <= at <= to <= n,
                    0 <= column <= at - from,
                    0 <= row <= from,
                    grid@.well_formed(),
                    grid@.pristine(),
                    load_words(before, row as int, 0, words(line)) == load_words(
                        grid@,
                        row as int,
                        column as int,
                        words(chars@.subrange(at as int, to as int)),
                    ),
                    line == chars@.subrange(from as int, to as int),
                    !is_ignored(line),
                    rest == chars@.skip(from as int),
                    text_lines(rest)[0] == line,
                    text_lines(rest).len() > 0,
                    parsed(text@) == load_lines(before, row as int, text_lines(rest)),
                decreases to - at,
            {
                let ghost tail = chars@.subrange(at as int, to as int);
                if blank(chars[at]) {
                    assert(tail.skip(1) =~= chars@.subrange(at + 1, to as int));
                    at += 1;
                } else {
                    let end = word_end(&chars, at, to);
                    let ghost word = chars@.subrange(at as int, end as int);
                    proof {
                        assert(word =~= tail.take(end - at));
                        assert(tail.skip(end - at) =~= chars@.subrange(end as int, to as int));
                        if end == to {
                            assert(word =~= tail);
                            assert(words(tail) =~= seq![word]);
                            assert(words(chars@.subrange(end as int, to as int)) =~= Seq::<
                                Seq<char>,
                            >::empty());
                        }
                        assert(words(tail)[0] == word);
                        assert(words(tail).skip(1) =~= words(
                            chars@.subrange(end as int, to as int),
                        ));
                        assert(end > at);
                    }
                    let cell = if end - at == 1 {
                        Some((chars[at], None))
                    } else if end - at == 2 {
                        match digit(chars[at + 1]) {
                            Some(d) => Some((chars[at], Some(d))),
                            None => None,
                        }
                    } else {
                        None
                    };
                    assert(cell == token(word));
                    match cell {
                        Some((c_zone, content)) => {
                            grid.add_cell((row, column), c_zone, content);
                            column += 1;
                            at = end;
                        },
                        None => {
                            return Err(ParseGridError(row, column));
                        },
                    }
                }
            }
            proof {
                assert(words(chars@.subrange(to as int, to as int)) =~= Seq::<
                    Seq<char>,
                >::empty());
                assert(to > from);
            }
            row += 1;
        } else {
            assert(is_ignored(line));
        }
        if to == n {
            proof {
                assert(load_lines(grid@, row as int, text_lines(rest).skip(1)) == Ok::<
                    GridView,
                    ParseGridError,
                >(grid@));
            }
            return Ok(grid);
        }
        from = to + 1;
    }
}

impl core::str::FromStr for Grid {
    type Err = ParseGridError;

    /// Reads the grid that `s` describes, as [`parse_grid`] does. A text of
    /// more characters than an `i32` can count is refused, with
    /// `(i32::MAX, i32::MAX)` as the place of the error: its cells could not
    /// all be numbered.
    fn from_str(s: &str) -> (r: Result<Grid, ParseGridError>)
        ensures
            match r {
                Ok(grid) => parsed_text(s@) == Ok::<GridView, ParseGridError>(grid@)
                    && grid@.well_formed() && grid@.pristine(),
                Err(e) => parsed_text(s@) == Err::<GridView, ParseGridError>(e),
            },
    {
        if s.unicode_len() > i32::MAX as usize {
            return Err(ParseGridError(i32::MAX, i32::MAX));
        }
        parse_grid(s)
    }
}

} // verus!
