//! Grids as text: one line per row, `#` for a live cell, `-` for a dead one.

use vstd::prelude::*;
use vstd::string::StringSliceAdditionalSpecFns;
use crate::grid::{rows_of, shape_error, Grid, GridError};

verus! {

/// The character that stands for a cell: `#` alive, `-` dead, `?` unknown,
/// and `x` for any other value.
pub open spec fn symbol(cell: i8) -> char {
    if cell == 1 {
        '#'
    } else if cell == 0 {
        '-'
    } else if cell == -1 {
        '?'
    } else {
        'x'
    }
}

/// The symbols of the first `n` cells of a row.
pub open spec fn symbols(row: Seq<i8>, n: int) -> Seq<char> {
    Seq::new(n as nat, |x: int| symbol(row[x]))
}

/// The line of text for a row: its symbols and a line feed.
pub open spec fn row_text(row: Seq<i8>) -> Seq<char> {
    symbols(row, row.len() as int).push('\n')
}

/// The lines of the first `n` rows, one after the other.
pub open spec fn rendered_upto(rows: Seq<Seq<i8>>, n: int) -> Seq<char>
    decreases n,
{
    if n <= 0 {
        Seq::empty()
    } else {
        rendered_upto(rows, n - 1) + row_text(rows[n - 1])
    }
}

/// The text of a grid: the lines of its rows from top to bottom.
pub open spec fn rendered(rows: Seq<Seq<i8>>) -> Seq<char> {
    rendered_upto(rows, rows.len() as int)
}

/// What a reader of text holds after some bytes: the rows that are closed,
/// the cells of the line it is in, and whether that line has begun.
pub struct Scan {
    /// The rows that a line feed has closed.
    pub rows: Seq<Seq<i8>>,
    /// The cells of the line that is being read.
    pub line: Seq<i8>,
    /// Whether a byte was read since the last line feed.
    pub open: bool,
}

/// The reader after one more byte: a line feed closes the row, `#` adds a
/// live cell, `-` a dead one, and every other byte only begins the line.
pub open spec fn scan_byte(scan: Scan, byte: u8) -> Scan {
    if byte == 0x0a {
        Scan { rows: scan.rows.push(scan.line), line: Seq::empty(), open: false }
    } else if byte == 0x23 {
        Scan { rows: scan.rows, line: scan.line.push(1i8), open: true }
    } else if byte == 0x2d {
        Scan { rows: scan.rows, line: scan.line.push(0i8), open: true }
    } else {
        Scan { rows: scan.rows, line: scan.line, open: true }
    }
}

/// The reader after the first `n` bytes.
pub open spec fn scanned(bytes: Seq<u8>, n: int) -> Scan
    decreases n,
{
    if n <= 0 {
        Scan { rows: Seq::empty(), line: Seq::empty(), open: false }
    } else {
        scan_byte(scanned(bytes, n - 1), bytes[n - 1])
    }
}

/// The rows of cells that a text holds: one row per line, where a last line
/// without a line feed counts if it holds any byte.
pub open spec fn parsed_rows(bytes: Seq<u8>) -> Seq<Seq<i8>> {
    let scan = scanned(bytes, bytes.len() as int);
    if scan.open {
        scan.rows.push(scan.line)
    } else {
        scan.rows
    }
}

/// Reads the rows of cells from a text: `#` is a live cell and `-` a dead
/// one, a line feed ends a row, and every other character is passed over.
pub fn parse_rows(text: &str) -> (rows: Vec<Vec<i8>>)
    ensures
        rows_of(rows@) == parsed_rows(text.spec_bytes()),
{
    let bytes = text.as_bytes();
    let mut rows: Vec<Vec<i8>> = Vec::new();
    let mut line: Vec<i8> = Vec::new();
    let mut open = false;
    let mut i: usize = 0;
    while i < bytes.len()
        invariant
            i <= bytes.len(),
            bytes@ == text.spec_bytes(),
            rows_of(rows@) == scanned(bytes@, i as int).rows,
            line@ == scanned(bytes@, i as int).line,
            open == scanned(bytes@, i as int).open,
        decreases bytes.len() - i,
    {
        let byte = bytes[i];
        let ghost rows_before = rows@;
        if byte == 0x0a {
            rows.push(line);
            assert(rows_of(rows@) =~= rows_of(rows_before).push(scanned(bytes@, i as int).line));
            line = Vec::new();
            open = false;
        } else {
            if byte == 0x23 {
                line.push(1);
            } else if byte == 0x2d {
                line.push(0);
            }
            open = true;
        }
        i += 1;
    }
    if open {
        let ghost rows_before = rows@;
        let ghost last = line@;
        rows.push(line);
        assert(rows_of(rows@) =~= rows_of(rows_before).push(last));
    }
    rows
}

/// Reads a grid from a text, or says why the text holds none: see
/// [`parse_rows`] and [`Grid::from_rows`].
pub fn parse_grid(text: &str) -> (parsed: Result<Grid, GridError>)
    ensures
        match parsed {
            Ok(grid) => {
                &&& shape_error(parsed_rows(text.spec_bytes())) is None
                &&& grid@ == parsed_rows(text.spec_bytes())
                &&& grid.width() == parsed_rows(text.spec_bytes())[0].len()
            },
            Err(error) => shape_error(parsed_rows(text.spec_bytes())) == Some(error),
        },
{
    let rows = parse_rows(text);
    Grid::from_rows(&rows)
}

} // verus!
