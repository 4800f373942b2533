//! Grid files: the binary layout and the ASCII (`DSAA`) layout, read into plain
//! values. Real numbers stay as the file gives them: IEEE-754 bit patterns from
//! binary files, decimal texts from ASCII files.

use crate::text::{
    all_real, chars_of, is_real_text, join_with, real_text, lemma_tokens_of_joined, lemma_views_push, parse_i32, parse_i32_text,
    string_from_chars, string_views, strings_of, tokens_of_each, views, whitespace_tokens,
    ws_tokens,
};
use crate::util::{
    byte_lines, first_line, after_first_line, le_i32_value, le_u64_value, line_text,
    lemma_after_first_line_shorter, byte_chars, ByteReader, LineError, ReadEx,
};
use crate::grid::{row_major, text_cells, value_cells, TextGrid, ValueGrid};
use vstd::utf8::{decode_utf8, valid_utf8};
use vstd::arithmetic::div_mod::{lemma_fundamental_div_mod, lemma_fundamental_div_mod_converse};
use vstd::prelude::*;

verus! {

/// Why a grid file could not be read.
#[derive(Debug, Clone, Copy, PartialEq, Eq, Structural)]
pub enum GrdError {
    /// The file ends before a value that the layout places there.
    TooShort,
    /// A line of an ASCII grid is not UTF-8.
    InvalidUtf8,
    /// An ASCII grid has fewer than five header lines.
    MissingLine,
    /// A header line of an ASCII grid has fewer than two values.
    MissingField,
    /// The column or row count of an ASCII grid is not a 32-bit integer.
    BadInteger,
    /// A header value or a grid value of an ASCII grid is not a real number.
    BadReal,
    /// A row or column count is negative, or the values do not fill the grid.
    BadShape,
}

/// A grid read from a binary file. Each real number is the IEEE-754 bit pattern
/// of the `f64` that the file stores.
pub struct BinaryGrd {
    /// The first four bytes of the file, one character per byte.
    pub mark: String,
    pub rows: i32,
    pub cols: i32,
    pub xll: u64,
    pub yll: u64,
    pub x_size: u64,
    pub y_size: u64,
    pub z_min: u64,
    pub z_max: u64,
    /// The values in row-major order. The file stores its rows bottom row
    /// first, so row 0 here is the last row the file stores.
    pub data: ValueGrid,
}

/// The row count a binary grid file declares at byte 20.
pub open spec fn binary_rows(b: Seq<u8>) -> int {
    le_i32_value(b.skip(20))
}

/// The column count a binary grid file declares at byte 24.
pub open spec fn binary_cols(b: Seq<u8>) -> int {
    le_i32_value(b.skip(24))
}

/// The `k`-th 64-bit word of the header, from byte 28 on.
pub open spec fn binary_header_word(b: Seq<u8>, k: int) -> int {
    le_u64_value(b.skip(28 + 8 * k))
}

/// The `m`-th 64-bit value of the grid body, which starts at byte 100.
pub open spec fn binary_value(b: Seq<u8>, m: int) -> int {
    le_u64_value(b.skip(100 + 8 * m))
}

/// Why the bytes `b` are no binary grid, or `None` when they are one.
pub open spec fn binary_grd_error(b: Seq<u8>) -> Option<GrdError> {
    if b.len() < 76 {
        Some(GrdError::TooShort)
    } else if binary_rows(b) < 0 || binary_cols(b) < 0 {
        Some(GrdError::BadShape)
    } else if binary_rows(b) * binary_cols(b) > 0 && b.len() < 100 + 8 * (binary_rows(b)
        * binary_cols(b)) {
        Some(GrdError::TooShort)
    } else {
        None
    }
}

/// `g` holds what the binary grid file `b` stores, and `mark` as its mark: the
/// file's rows, `cols` values each, with the last stored row first.
pub open spec fn binary_grd_holds(g: BinaryGrd, b: Seq<u8>, mark: Seq<char>) -> bool {
    &&& g.mark@ == mark
    &&& g.rows == binary_rows(b)
    &&& g.cols == binary_cols(b)
    &&& g.xll == binary_header_word(b, 0)
    &&& g.yll == binary_header_word(b, 1)
    &&& g.x_size == binary_header_word(b, 2)
    &&& g.y_size == binary_header_word(b, 3)
    &&& g.z_min == binary_header_word(b, 4)
    &&& g.z_max == binary_header_word(b, 5)
    &&& value_cells(g.data).len() == g.rows
    &&& forall|i: int|
        #![trigger value_cells(g.data)[i]]
        0 <= i < g.rows ==> {
            &&& value_cells(g.data)[i].len() == g.cols
            &&& forall|j: int|
                0 <= j < g.cols ==> value_cells(g.data)[i][j] == binary_value(
                    b,
                    (g.rows - 1 - i) * g.cols + j,
                )
        }
}

/// Where the `k`-th value of a row-major grid whose rows are stored bottom row
/// first lies in the file.
pub open spec fn flipped_index(k: int, rows: int, cols: int) -> int {
    (rows - 1 - k / cols) * cols + k % cols
}

/// Cell `j` of row `r` of a `rows` by `cols` grid, counted row after row, lies in the grid.
proof fn lemma_cell_index(r: int, j: int, rows: int, cols: int)
    requires
        0 <= r < rows,
        0 <= j < cols,
    ensures
        0 <= r * cols + j,
        r * cols + j + 1 <= rows * cols,
{
    assert(0 <= r * cols) by (nonlinear_arith)
        requires
            0 <= r,
            0 <= cols,
    ;
    assert(r * cols + cols <= rows * cols) by (nonlinear_arith)
        requires
            r + 1 <= rows,
            0 <= cols,
    ;
}

/// Reads a binary grid: the row and column counts at bytes 20 and 24, six
/// little-endian `f64` header values from byte 28, and the values from byte 100,
/// row after row, bottom row first.
#[verifier::loop_isolation(false)]
pub fn from_binary_file(grd_file: ByteReader, mark: String) -> (r: Result<BinaryGrd, GrdError>)
    ensures
        ({
            let b = grd_file.data();
            match binary_grd_error(b) {
                Some(e) => r == Err::<BinaryGrd, GrdError>(e),
                None => r matches Ok(g) && binary_grd_holds(g, b, mark@),
            }
        }),
{
    let ghost b = grd_file.data();
    let mut grd_file = grd_file;
    grd_file.seek_to(20);
    let rows = match grd_file.read_i32_le() {
        Some(v) => v,
        None => return Err(GrdError::TooShort),
    };
    assert(b.skip(20).skip(4) == b.skip(24));
    let cols = match grd_file.read_i32_le() {
        Some(v) => v,
        None => return Err(GrdError::TooShort),
    };
    let mut words: Vec<u64> = Vec::new();
    let mut k: usize = 0;
    while k < 6
        invariant
            k <= 6,
            28 + 8 * k <= b.len(),
            grd_file.data() == b,
            grd_file.position() == 28 + 8 * k,
            words@.len() == k,
            forall|t: int| 0 <= t < k ==> words@[t] == binary_header_word(b, t),
        decreases 6 - k,
    {
        assert(grd_file.rest() == b.skip(28 + 8 * k));
        let v = match grd_file.read_u64_le() {
            Some(v) => v,
            None => {
                assert(b.len() < 76);
                return Err(GrdError::TooShort);
            },
        };
        words.push(v);
        k = k + 1;
    }
    assert(b.len() >= 76);
    if rows < 0 || cols < 0 {
        return Err(GrdError::BadShape);
    }
    let nrows = rows as usize;
    let ncols = cols as usize;
    assert((rows as u64) * (cols as u64) <= 0x7fff_ffff * 0x7fff_ffff) by (nonlinear_arith)
        requires
            0 <= rows <= 0x7fff_ffff,
            0 <= cols <= 0x7fff_ffff,
    ;
    let n: u64 = (rows as u64) * (cols as u64);
    let len = grd_file.len();
    if n > 0 && ((len as u64) < 100 || ((len as u64) - 100) / 8 < n) {
        return Err(GrdError::TooShort);
    }
    assert(n == 0 || b.len() >= 100 + 8 * n);
    grd_file.seek_to(100);
    assert(n <= usize::MAX) by {
        if n > 0 {
            assert(b.len() <= usize::MAX);
        }
    }
    let nv = n as usize;
    let mut values: Vec<u64> = Vec::new();
    while values.len() < nv
        invariant
            nv == n,
            values@.len() <= nv,
            n == 0 || b.len() >= 100 + 8 * n,
            grd_file.data() == b,
            grd_file.position() == 100 + 8 * values@.len(),
            forall|m: int| 0 <= m < values@.len() ==> values@[m] == binary_value(b, m),
        decreases nv - values.len(),
    {
        let ghost m = values@.len() as int;
        assert(grd_file.rest() == b.skip(100 + 8 * m));
        let v = match grd_file.read_u64_le() {
            Some(v) => v,
            None => return Err(GrdError::TooShort),
        };
        values.push(v);
    }
    let mut flat: Vec<u64> = Vec::new();
    let mut k: usize = 0;
    while k < nv
        invariant
            k <= nv,
            nv == n,
            n == nrows * ncols,
            nrows == rows,
            ncols == cols,
            values@.len() == nv,
            forall|m: int| 0 <= m < values@.len() ==> values@[m] == binary_value(b, m),
            flat@.len() == k,
            forall|m: int|
                0 <= m < k ==> #[trigger] flat@[m] == binary_value(
                    b,
                    flipped_index(m, nrows as int, ncols as int),
                ),
        decreases nv - k,
    {
        assert(ncols > 0) by (nonlinear_arith)
            requires
                k < nrows * ncols,
                0 <= nrows,
        ;
        let q = k / ncols;
        let r = k % ncols;
        proof {
            lemma_fundamental_div_mod(k as int, ncols as int);
            assert(k == ncols * q + r);
            assert(q < nrows) by (nonlinear_arith)
                requires
                    k == ncols * q + r,
                    0 <= r,
                    k < nrows * ncols,
                    0 < ncols,
            ;
            lemma_cell_index((nrows - 1 - q) as int, r as int, nrows as int, ncols as int);
        }
        flat.push(values[(nrows - 1 - q) * ncols + r]);
        k = k + 1;
    }
    let data = match ValueGrid::from_row_major(nrows, ncols, flat) {
        Some(g) => g,
        None => return Err(GrdError::BadShape),
    };
    proof {
        assert forall|a: int, c: int|
            0 <= a < nrows && 0 <= c < ncols implies value_cells(data)[a][c] == binary_value(
            b,
            (nrows - 1 - a) * ncols + c,
        ) by {
            lemma_cell_index(a, c, nrows as int, ncols as int);
            lemma_fundamental_div_mod_converse(a * ncols + c, ncols as int, a, c);
            assert(value_cells(data)[a][c] == flat@[a * ncols + c]);
        }
    }
    let g = BinaryGrd {
        mark,
        rows,
        cols,
        xll: words[0],
        yll: words[1],
        x_size: words[2],
        y_size: words[3],
        z_min: words[4],
        z_max: words[5],
        data,
    };
    Ok(g)
}

/// A grid read from an ASCII (`DSAA`) file. Each real number is the decimal
/// text that the file gives for it.
pub struct AsciiGrd {
    /// The file type: the mark the file starts with, `DSAA`.
    pub mark: String,
    pub rows: i32,
    pub cols: i32,
    /// The x coordinates of the first and the last column.
    pub xll: String,
    pub xend: String,
    /// The y coordinates of the first and the last row.
    pub yll: String,
    pub yend: String,
    pub z_min: String,
    pub z_max: String,
    /// The values in row-major order: the last line of values first, each
    /// line filling a row.
    pub data: TextGrid,
}

/// Line `k` of the lines `ls` of an ASCII grid as text.
pub open spec fn grd_line(ls: Seq<Seq<u8>>, k: int) -> Result<Seq<char>, GrdError> {
    if k >= ls.len() {
        Err(GrdError::MissingLine)
    } else {
        match line_text(ls[k]) {
            Some(t) => Ok(t),
            None => Err(GrdError::InvalidUtf8),
        }
    }
}

/// The first two whitespace-separated values of a header line.
pub open spec fn two_fields(t: Seq<char>) -> Result<(Seq<char>, Seq<char>), GrdError> {
    let ts = ws_tokens(t);
    if ts.len() < 2 {
        Err(GrdError::MissingField)
    } else {
        Ok((ts[0], ts[1]))
    }
}

/// The first two values of header line `k`.
pub open spec fn header_fields(ls: Seq<Seq<u8>>, k: int) -> Result<
    (Seq<char>, Seq<char>),
    GrdError,
> {
    match grd_line(ls, k) {
        Err(e) => Err(e),
        Ok(t) => two_fields(t),
    }
}

/// Why header line `k` has no two values, if it has not.
pub open spec fn header_error(ls: Seq<Seq<u8>>, k: int) -> Option<GrdError> {
    match header_fields(ls, k) {
        Err(e) => Some(e),
        Ok(_) => None,
    }
}

/// Why header line `k` has no two real numbers first, if it has not.
pub open spec fn real_fields_error(ls: Seq<Seq<u8>>, k: int) -> Option<GrdError> {
    match header_fields(ls, k) {
        Err(e) => Some(e),
        Ok(p) => if real_text(p.0) && real_text(p.1) {
            None
        } else {
            Some(GrdError::BadReal)
        },
    }
}

/// The first two values of `t` as real numbers, or why they are not.
pub open spec fn real_fields(t: Seq<char>) -> Result<(Seq<char>, Seq<char>), GrdError> {
    match two_fields(t) {
        Err(e) => Err(e),
        Ok(p) => if real_text(p.0) && real_text(p.1) {
            Ok(p)
        } else {
            Err(GrdError::BadReal)
        },
    }
}

/// The first two values of `t` as 32-bit integers, or why they are not.
pub open spec fn integer_fields(t: Seq<char>) -> Result<(i32, i32), GrdError> {
    match two_fields(t) {
        Err(e) => Err(e),
        Ok(p) => if parse_i32_text(p.0) is Some && parse_i32_text(p.1) is Some {
            Ok((parse_i32_text(p.0)->Some_0, parse_i32_text(p.1)->Some_0))
        } else {
            Err(GrdError::BadInteger)
        },
    }
}

/// Every line of `ls` is UTF-8.
pub open spec fn all_utf8(ls: Seq<Seq<u8>>) -> bool {
    forall|k: int| 0 <= k < ls.len() ==> valid_utf8(#[trigger] ls[k])
}

/// The lines `ls` decoded.
pub open spec fn decoded(ls: Seq<Seq<u8>>) -> Seq<Seq<char>> {
    ls.map_values(|l: Seq<u8>| decode_utf8(l))
}

/// The values of an ASCII grid: the lines after the header, last line first,
/// joined with spaces and split at whitespace.
pub open spec fn ascii_values(ls: Seq<Seq<u8>>) -> Seq<Seq<char>> {
    ws_tokens(join_with(decoded(ls.skip(5)).reverse(), ' '))
}

/// The column count an ASCII grid declares.
pub open spec fn ascii_cols(ls: Seq<Seq<u8>>) -> int {
    parse_i32_text(header_fields(ls, 1)->Ok_0.0)->Some_0 as int
}

/// The row count an ASCII grid declares.
pub open spec fn ascii_rows(ls: Seq<Seq<u8>>) -> int {
    parse_i32_text(header_fields(ls, 1)->Ok_0.1)->Some_0 as int
}

/// Why the bytes `s` (what follows `DSAA`) are no ASCII grid, or `None` when they are one.
pub open spec fn ascii_grd_error(s: Seq<u8>) -> Option<GrdError> {
    let ls = byte_lines(s);
    if grd_line(ls, 0) is Err {
        Some(grd_line(ls, 0)->Err_0)
    } else if header_error(ls, 1) is Some {
        header_error(ls, 1)
    } else if parse_i32_text(header_fields(ls, 1)->Ok_0.0) is None || parse_i32_text(
        header_fields(ls, 1)->Ok_0.1,
    ) is None {
        Some(GrdError::BadInteger)
    } else if real_fields_error(ls, 2) is Some {
        real_fields_error(ls, 2)
    } else if real_fields_error(ls, 3) is Some {
        real_fields_error(ls, 3)
    } else if real_fields_error(ls, 4) is Some {
        real_fields_error(ls, 4)
    } else if !all_utf8(ls.skip(5)) {
        Some(GrdError::InvalidUtf8)
    } else if !all_real(ascii_values(ls)) {
        Some(GrdError::BadReal)
    } else if ascii_rows(ls) < 0 || ascii_cols(ls) < 0 || ascii_rows(ls) * ascii_cols(ls)
        != ascii_values(ls).len() {
        Some(GrdError::BadShape)
    } else {
        None
    }
}

/// `g` holds what the ASCII grid `s` (what follows `DSAA`) gives, and `mark` as
/// its mark: its values, listed row after row, the last line first.
pub open spec fn ascii_grd_holds(g: AsciiGrd, s: Seq<u8>, mark: Seq<char>) -> bool {
    let ls = byte_lines(s);
    &&& g.mark@ == mark
    &&& g.cols == ascii_cols(ls)
    &&& g.rows == ascii_rows(ls)
    &&& g.xll@ == header_fields(ls, 2)->Ok_0.0
    &&& g.xend@ == header_fields(ls, 2)->Ok_0.1
    &&& g.yll@ == header_fields(ls, 3)->Ok_0.0
    &&& g.yend@ == header_fields(ls, 3)->Ok_0.1
    &&& g.z_min@ == header_fields(ls, 4)->Ok_0.0
    &&& g.z_max@ == header_fields(ls, 4)->Ok_0.1
    &&& row_major(text_cells(g.data), g.rows as int, g.cols as int, ascii_values(ls))
}

/// The text of a line that was read, or why there is none.
pub fn process_error(line: Option<Result<String, LineError>>) -> (r: Result<String, GrdError>)
    ensures
        match line {
            None => r == Err::<String, GrdError>(GrdError::MissingLine),
            Some(Err(_)) => r == Err::<String, GrdError>(GrdError::InvalidUtf8),
            Some(Ok(s)) => r == Ok::<String, GrdError>(s),
        },
{
    match line {
        None => Err(GrdError::MissingLine),
        Some(Err(_)) => Err(GrdError::InvalidUtf8),
        Some(Ok(s)) => Ok(s),
    }
}

/// The first two whitespace-separated values of `s`, which must be real numbers.
pub fn process_split(s: &str) -> (r: Result<(String, String), GrdError>)
    ensures
        match real_fields(s@) {
            Err(e) => r == Err::<(String, String), GrdError>(e),
            Ok((a, b)) => r matches Ok((x, y)) && x@ == a && y@ == b,
        },
{
    let cs = chars_of(s);
    let toks = whitespace_tokens(&cs);
    if toks.len() < 2 {
        return Err(GrdError::MissingField);
    }
    if !is_real_text(&toks[0]) || !is_real_text(&toks[1]) {
        return Err(GrdError::BadReal);
    }
    let a = string_from_chars(&toks[0]);
    let b = string_from_chars(&toks[1]);
    Ok((a, b))
}

/// The first two whitespace-separated values of `s`, which must be 32-bit integers.
pub fn process_split_i32(s: &str) -> (r: Result<(i32, i32), GrdError>)
    ensures
        r == integer_fields(s@),
{
    let cs = chars_of(s);
    let toks = whitespace_tokens(&cs);
    if toks.len() < 2 {
        return Err(GrdError::MissingField);
    }
    let a = match parse_i32(&toks[0]) {
        Some(v) => v,
        None => return Err(GrdError::BadInteger),
    };
    let b = match parse_i32(&toks[1]) {
        Some(v) => v,
        None => return Err(GrdError::BadInteger),
    };
    Ok((a, b))
}

/// Reads the next line of an ASCII grid as text.
fn next_grd_line(reader: &mut ByteReader) -> (r: Result<String, GrdError>)
    ensures
        final(reader).data() == old(reader).data(),
        match grd_line(byte_lines(old(reader).rest()), 0) {
            Ok(t) => r matches Ok(s) && s@ == t && byte_lines(final(reader).rest())
                == byte_lines(old(reader).rest()).skip(1),
            Err(e) => r == Err::<String, GrdError>(e),
        },
{
    let ghost rest = reader.rest();
    let line = reader.read_line();
    proof {
        if rest.len() > 0 {
            assert(byte_lines(rest) == seq![first_line(rest)] + byte_lines(
                after_first_line(rest),
            ));
            assert(byte_lines(rest).skip(1) == byte_lines(after_first_line(rest)));
        }
    }
    process_error(line)
}

/// `views` distributes over concatenation.
proof fn lemma_views_add(a: Seq<Vec<char>>, b: Seq<Vec<char>>)
    ensures
        views(a + b) == views(a) + views(b),
{
    assert(views(a + b) =~= views(a) + views(b));
}

/// The values of the lines `dl`, last line first, as `ascii_values` lists them.
fn values_last_line_first(dl: &Vec<Vec<char>>) -> (toks: Vec<Vec<char>>)
    ensures
        views(toks@) == ws_tokens(join_with(views(dl@).reverse(), ' ')),
{
    let ghost rev = views(dl@).reverse();
    let mut toks: Vec<Vec<char>> = Vec::new();
    let mut q: usize = 0;
    assert(rev.take(0) == Seq::<Seq<char>>::empty());
    while q < dl.len()
        invariant
            q <= dl.len(),
            rev == views(dl@).reverse(),
            views(toks@) == tokens_of_each(rev.take(q as int)),
        decreases dl.len() - q,
    {
        let mut line_toks = whitespace_tokens(&dl[dl.len() - 1 - q]);
        let ghost before = toks@;
        let ghost added = line_toks@;
        toks.append(&mut line_toks);
        proof {
            lemma_views_add(before, added);
            assert(rev[q as int] == dl@[dl.len() - 1 - q]@);
            assert(rev.take(q + 1).drop_last() == rev.take(q as int));
            assert(rev.take(q + 1).last() == rev[q as int]);
        }
        q = q + 1;
    }
    assert(rev.take(q as int) == rev);
    proof {
        lemma_tokens_of_joined(rev);
    }
    toks
}

/// Reads an ASCII grid from what follows its `DSAA`: the rest of the first line,
/// `cols rows`, `xll xend`, `yll yend`, `z_min z_max`, then the values, read last
/// line first and column after column.
#[verifier::loop_isolation(false)]
pub fn from_ascii_file(grd_file: ByteReader, mark: String) -> (r: Result<AsciiGrd, GrdError>)
    ensures
        ({
            let s = grd_file.rest();
            match ascii_grd_error(s) {
                Some(e) => r == Err::<AsciiGrd, GrdError>(e),
                None => r matches Ok(g) && ascii_grd_holds(g, s, mark@),
            }
        }),
{
    let ghost s = grd_file.rest();
    let ghost ls = byte_lines(s);
    let mut lines = grd_file;
    assert(ls.skip(0) == ls);
    match next_grd_line(&mut lines) {
        Ok(_) => {},
        Err(e) => return Err(e),
    }
    assert(grd_line(ls.skip(1), 0) == grd_line(ls, 1));
    let l1 = match next_grd_line(&mut lines) {
        Ok(t) => t,
        Err(e) => return Err(e),
    };
    let (cols, rows) = match process_split_i32(l1.as_str()) {
        Ok(p) => p,
        Err(e) => return Err(e),
    };
    assert(ls.skip(1).skip(1) == ls.skip(2));
    assert(grd_line(ls.skip(2), 0) == grd_line(ls, 2));
    let (xll, xend) = match next_grd_line(&mut lines) {
        Ok(t) => match process_split(t.as_str()) {
            Ok(p) => p,
            Err(e) => return Err(e),
        },
        Err(e) => return Err(e),
    };
    assert(ls.skip(2).skip(1) == ls.skip(3));
    assert(grd_line(ls.skip(3), 0) == grd_line(ls, 3));
    let (yll, yend) = match next_grd_line(&mut lines) {
        Ok(t) => match process_split(t.as_str()) {
            Ok(p) => p,
            Err(e) => return Err(e),
        },
        Err(e) => return Err(e),
    };
    assert(ls.skip(3).skip(1) == ls.skip(4));
    assert(grd_line(ls.skip(4), 0) == grd_line(ls, 4));
    let (z_min, z_max) = match next_grd_line(&mut lines) {
        Ok(t) => match process_split(t.as_str()) {
            Ok(p) => p,
            Err(e) => return Err(e),
        },
        Err(e) => return Err(e),
    };
    assert(ls.skip(4).skip(1) == ls.skip(5));
    let mut dl: Vec<Vec<char>> = Vec::new();
    assert(ls.skip(5).take(0) == Seq::<Seq<u8>>::empty());
    assert(decoded(ls.skip(5).take(0)) == Seq::<Seq<char>>::empty());
    loop
        invariant
            5 + dl.len() <= ls.len(),
            byte_lines(lines.rest()) == ls.skip(5 + dl.len()),
            views(dl@) == decoded(ls.skip(5).take(dl.len() as int)),
            all_utf8(ls.skip(5).take(dl.len() as int)),
        decreases lines.rest().len(),
    {
        let ghost rest = lines.rest();
        let ghost m = dl.len() as int;
        proof {
            if rest.len() > 0 {
                lemma_after_first_line_shorter(rest);
                assert(byte_lines(rest) == seq![first_line(rest)] + byte_lines(
                    after_first_line(rest),
                ));
                assert(byte_lines(rest).len() > 0);
                assert(5 + m < ls.len());
                assert(ls.skip(5 + m)[0] == ls[5 + m]);
                assert(ls[5 + m] == first_line(rest));
                assert(byte_lines(rest).skip(1) == byte_lines(after_first_line(rest)));
                assert(ls.skip(5 + m).skip(1) == ls.skip(5 + m + 1));
                assert(byte_lines(after_first_line(rest)) == ls.skip(5 + m + 1));
            }
        }
        match lines.read_line() {
            None => {
                assert(ls.skip(5).take(m) == ls.skip(5));
                break ;
            },
            Some(Err(_)) => {
                assert(ls.skip(5)[m] == ls[5 + m]);
                return Err(GrdError::InvalidUtf8);
            },
            Some(Ok(line)) => {
                let cs = chars_of(line.as_str());
                proof {
                    lemma_views_push(dl@, cs);
                    assert(ls.skip(5).take(m + 1) == ls.skip(5).take(m).push(ls[5 + m]));
                    assert(decoded(ls.skip(5).take(m + 1)) =~= decoded(ls.skip(5).take(m)).push(
                        decode_utf8(ls[5 + m]),
                    ));
                }
                dl.push(cs);
            },
        }
    }
    let toks = values_last_line_first(&dl);
    assert(views(toks@) == ascii_values(ls));
    let mut q: usize = 0;
    while q < toks.len()
        invariant
            q <= toks.len(),
            views(toks@) == ascii_values(ls),
            forall|k: int| 0 <= k < q ==> real_text(#[trigger] ascii_values(ls)[k]),
        decreases toks.len() - q,
    {
        assert(ascii_values(ls)[q as int] == toks@[q as int]@);
        if !is_real_text(&toks[q]) {
            return Err(GrdError::BadReal);
        }
        q = q + 1;
    }
    if rows < 0 || cols < 0 {
        return Err(GrdError::BadShape);
    }
    let nrows = rows as usize;
    let ncols = cols as usize;
    assert((rows as u64) * (cols as u64) <= 0x7fff_ffff * 0x7fff_ffff) by (nonlinear_arith)
        requires
            0 <= rows <= 0x7fff_ffff,
            0 <= cols <= 0x7fff_ffff,
    ;
    let texts = strings_of(&toks);
    let data = match TextGrid::from_row_major(nrows, ncols, texts) {
        Some(g) => g,
        None => return Err(GrdError::BadShape),
    };
    assert(texts@.map_values(|s: String| s@) =~= ascii_values(ls)) by {
        assert(texts@.map_values(|s: String| s@) == string_views(texts@));
    }
    let g = AsciiGrd { mark, rows, cols, xll, xend, yll, yend, z_min, z_max, data };
    Ok(g)
}

/// A grid file's content, in the layout its first four bytes select.
pub enum GrdContent {
    Ascii(AsciiGrd),
    Binary(BinaryGrd),
}

/// The file starts with the four characters `DSAA`, which mark an ASCII grid.
pub open spec fn starts_with_dsaa(b: Seq<u8>) -> bool {
    b.len() >= 4 && byte_chars(b.take(4)) == seq!['D', 'S', 'A', 'A']
}

/// Reads a grid file's bytes: its first four bytes are its mark; `DSAA` marks an
/// ASCII grid, which the rest of the file holds; any other mark a binary grid.
pub fn from_grd_bytes(bytes: Vec<u8>) -> (r: Result<GrdContent, GrdError>)
    ensures
        bytes@.len() < 4 ==> r == Err::<GrdContent, GrdError>(GrdError::TooShort),
        starts_with_dsaa(bytes@) ==> match ascii_grd_error(bytes@.skip(4)) {
            Some(e) => r == Err::<GrdContent, GrdError>(e),
            None => r matches Ok(GrdContent::Ascii(g)) && ascii_grd_holds(
                g,
                bytes@.skip(4),
                seq!['D', 'S', 'A', 'A'],
            ),
        },
        bytes@.len() >= 4 && !starts_with_dsaa(bytes@) ==> match binary_grd_error(bytes@) {
            Some(e) => r == Err::<GrdContent, GrdError>(e),
            None => r matches Ok(GrdContent::Binary(g)) && binary_grd_holds(
                g,
                bytes@,
                byte_chars(bytes@.take(4)),
            ),
        },
{
    let ghost b = bytes@;
    let mut grd_file = ByteReader::new(bytes);
    if grd_file.len() < 4 {
        return Err(GrdError::TooShort);
    }
    assert(grd_file.rest() == b);
    let mark = grd_file.read_str(4);
    let mc = chars_of(mark.as_str());
    let dsaa = mc[0] == 'D' && mc[1] == 'S' && mc[2] == 'A' && mc[3] == 'A';
    assert(dsaa == (mark@ == seq!['D', 'S', 'A', 'A'])) by {
        if dsaa {
            assert(mark@ =~= seq!['D', 'S', 'A', 'A']);
        }
    }
    if dsaa {
        match from_ascii_file(grd_file, mark) {
            Ok(g) => Ok(GrdContent::Ascii(g)),
            Err(e) => Err(e),
        }
    } else {
        match from_binary_file(grd_file, mark) {
            Ok(g) => Ok(GrdContent::Binary(g)),
            Err(e) => Err(e),
        }
    }
}

/// Law: a file is read as an ASCII grid exactly when its first four bytes are
/// `D`, `S`, `A`, `A`; any other first four bytes (`DSRB`, `DSBB`, ...) select
/// the binary layout.
pub proof fn lemma_dsaa_selects_ascii(b: Seq<u8>)
    ensures
        starts_with_dsaa(b) <==> (b.len() >= 4 && b[0] == 68 && b[1] == 83 && b[2] == 65 && b[3]
            == 65),
{
    if b.len() >= 4 {
        let c = byte_chars(b.take(4));
        assert(c.len() == 4);
        assert(c[0] == b[0] as char && c[1] == b[1] as char && c[2] == b[2] as char && c[3]
            == b[3] as char);
        if b[0] == 68 && b[1] == 83 && b[2] == 65 && b[3] == 65 {
            assert(c =~= seq!['D', 'S', 'A', 'A']);
        }
        if c == seq!['D', 'S', 'A', 'A'] {
            assert(c[0] == 'D' && c[1] == 'S' && c[2] == 'A' && c[3] == 'A');
            assert((b[0] as char) as u32 == b[0]);
            assert((b[1] as char) as u32 == b[1]);
            assert((b[2] as char) as u32 == b[2]);
            assert((b[3] as char) as u32 == b[3]);
        }
    }
}

/// When every text of `xs` has `c` tokens, token `j` of text `i` is at `i * c + j`
/// among the tokens of all of them.
proof fn lemma_tokens_of_each_rows(xs: Seq<Seq<char>>, c: int)
    requires
        c >= 0,
        forall|i: int| 0 <= i < xs.len() ==> ws_tokens(#[trigger] xs[i]).len() == c,
    ensures
        tokens_of_each(xs).len() == xs.len() * c,
        forall|i: int, j: int|
            #![trigger ws_tokens(xs[i])[j]]
            0 <= i < xs.len() && 0 <= j < c ==> tokens_of_each(xs)[i * c + j] == ws_tokens(
                xs[i],
            )[j],
    decreases xs.len(),
{
    if xs.len() > 0 {
        let n = xs.len() as int;
        let init = xs.drop_last();
        assert forall|i: int| 0 <= i < init.len() implies ws_tokens(#[trigger] init[i]).len()
            == c by {
            assert(init[i] == xs[i]);
        }
        lemma_tokens_of_each_rows(init, c);
        let head = tokens_of_each(init);
        let last = ws_tokens(xs.last());
        assert(tokens_of_each(xs) == head + last);
        assert(ws_tokens(xs[n - 1]).len() == c);
        assert((n - 1) * c + c == n * c) by (nonlinear_arith);
        assert forall|i: int, j: int| 0 <= i < n && 0 <= j < c implies tokens_of_each(xs)[i * c
            + j] == #[trigger] ws_tokens(xs[i])[j] by {
            if i < n - 1 {
                lemma_cell_index(i, j, n - 1, c);
                assert(init[i] == xs[i]);
                assert(ws_tokens(init[i])[j] == head[i * c + j]);
            } else {
                assert(i * c == (n - 1) * c);
            }
        }
    }
}

/// Law: the values of an ASCII grid are the tokens of its data lines taken in
/// exactly reversed order: the last data line, then the one before it, down to
/// the first.
pub proof fn lemma_ascii_values_reversed(ls: Seq<Seq<u8>>)
    ensures
        ascii_values(ls) == tokens_of_each(decoded(ls.skip(5)).reverse()),
{
    lemma_tokens_of_joined(decoded(ls.skip(5)).reverse());
}

/// Law: when each of the `n` data lines of an ASCII grid holds one row of
/// values, the grid has `n` rows and row `i` is data line `n - 1 - i`: the last
/// data line is the top row.
pub proof fn lemma_ascii_rows_are_lines_reversed(g: AsciiGrd, s: Seq<u8>, mark: Seq<char>)
    requires
        ascii_grd_error(s) is None,
        ascii_grd_holds(g, s, mark),
        g.cols > 0,
        forall|k: int|
            5 <= k < byte_lines(s).len() ==> ws_tokens(decode_utf8(#[trigger] byte_lines(s)[k])).len()
                == g.cols,
    ensures
        byte_lines(s).len() == 5 + g.rows,
        forall|i: int, j: int|
            0 <= i < g.rows && 0 <= j < g.cols ==> #[trigger] text_cells(g.data)[i][j] == ws_tokens(
                decode_utf8(byte_lines(s)[byte_lines(s).len() - 1 - i]),
            )[j],
{
    let ls = byte_lines(s);
    let d = decoded(ls.skip(5));
    let xs = d.reverse();
    let n = d.len() as int;
    let c = g.cols as int;
    let r = g.rows as int;
    assert(grd_line(ls, 4) is Ok);
    assert(ls.len() >= 5);
    assert(n == ls.len() - 5);
    assert forall|i: int| 0 <= i < xs.len() implies xs[i] == decode_utf8(ls[ls.len() - 1 - i]) by {
        assert(xs[i] == d[n - 1 - i]);
        assert(ls.skip(5)[n - 1 - i] == ls[5 + n - 1 - i]);
    }
    assert forall|i: int| 0 <= i < xs.len() implies ws_tokens(#[trigger] xs[i]).len() == c by {
        assert(xs[i] == decode_utf8(ls[ls.len() - 1 - i]));
        assert(ws_tokens(decode_utf8(ls[5 + (n - 1 - i)])).len() == c);
    }
    lemma_tokens_of_each_rows(xs, c);
    lemma_ascii_values_reversed(ls);
    assert(r * c == n * c);
    assert(r == n) by (nonlinear_arith)
        requires
            r * c == n * c,
            c > 0,
    ;
    assert forall|i: int, j: int| 0 <= i < r && 0 <= j < c implies #[trigger] text_cells(
        g.data,
    )[i][j] == ws_tokens(decode_utf8(ls[ls.len() - 1 - i]))[j] by {
        assert(text_cells(g.data)[i][j] == ascii_values(ls)[i * c + j]);
        assert(ws_tokens(xs[i])[j] == tokens_of_each(xs)[i * c + j]);
        assert(xs[i] == decode_utf8(ls[ls.len() - 1 - i]));
    }
}

/// Law: the header of an ASCII grid is its second to fifth lines: the column and
/// the row count, in that order, then the first and last x, the first and last
/// y, and the least and greatest value, two to a line; the mark is the one given.
pub proof fn lemma_ascii_header(g: AsciiGrd, s: Seq<u8>, mark: Seq<char>)
    requires
        ascii_grd_error(s) is None,
        ascii_grd_holds(g, s, mark),
    ensures
        ({
            let ls = byte_lines(s);
            let t1 = ws_tokens(decode_utf8(ls[1]));
            let t2 = ws_tokens(decode_utf8(ls[2]));
            let t3 = ws_tokens(decode_utf8(ls[3]));
            let t4 = ws_tokens(decode_utf8(ls[4]));
            &&& g.mark@ == mark
            &&& parse_i32_text(t1[0]) == Some(g.cols)
            &&& parse_i32_text(t1[1]) == Some(g.rows)
            &&& g.xll@ == t2[0] && g.xend@ == t2[1]
            &&& g.yll@ == t3[0] && g.yend@ == t3[1]
            &&& g.z_min@ == t4[0] && g.z_max@ == t4[1]
        }),
{
    let ls = byte_lines(s);
    assert(grd_line(ls, 1) is Ok);
    assert(header_fields(ls, 2) is Ok);
    assert(header_fields(ls, 3) is Ok);
    assert(header_fields(ls, 4) is Ok);
    assert(valid_utf8(ls[1]) && valid_utf8(ls[2]) && valid_utf8(ls[3]) && valid_utf8(ls[4]));
}

/// The unsigned value of the eight bytes of `b` from `o` on, least significant first.
pub open spec fn bytes_le_u64(b: Seq<u8>, o: int) -> int {
    b[o] + b[o + 1] * 0x100 + b[o + 2] * 0x1_0000 + b[o + 3] * 0x100_0000 + b[o + 4]
        * 0x1_0000_0000 + b[o + 5] * 0x100_0000_0000 + b[o + 6] * 0x1_0000_0000_0000 + b[o + 7]
        * 0x100_0000_0000_0000
}

/// Law: a binary grid's row and column counts are the little-endian 32-bit
/// integers at bytes 20 and 24, and its value in row `i` and column `j` is the
/// little-endian 64-bit word at byte `100 + 8 * ((rows - 1 - i) * cols + j)`: the
/// file stores `rows` rows of `cols` values, bottom row first.
pub proof fn lemma_binary_layout(g: BinaryGrd, b: Seq<u8>, mark: Seq<char>)
    requires
        binary_grd_error(b) is None,
        binary_grd_holds(g, b, mark),
    ensures
        g.mark@ == mark,
        ({
            let u = b[20] + b[21] * 0x100 + b[22] * 0x1_0000 + b[23] * 0x100_0000;
            g.rows == (if u < 0x8000_0000 { u } else { u - 0x1_0000_0000 })
        }),
        ({
            let u = b[24] + b[25] * 0x100 + b[26] * 0x1_0000 + b[27] * 0x100_0000;
            g.cols == (if u < 0x8000_0000 { u } else { u - 0x1_0000_0000 })
        }),
        g.xll == bytes_le_u64(b, 28),
        g.yll == bytes_le_u64(b, 36),
        g.x_size == bytes_le_u64(b, 44),
        g.y_size == bytes_le_u64(b, 52),
        g.z_min == bytes_le_u64(b, 60),
        g.z_max == bytes_le_u64(b, 68),
        forall|i: int, j: int|
            0 <= i < g.rows && 0 <= j < g.cols ==> #[trigger] value_cells(g.data)[i][j]
                == bytes_le_u64(b, 100 + 8 * ((g.rows - 1 - i) * g.cols + j)),
{
    assert forall|o: int| 28 <= o <= 68 implies #[trigger] le_u64_value(b.skip(o)) == bytes_le_u64(
        b,
        o,
    ) by {
        let w = b.skip(o);
        assert(w[0] == b[o] && w[1] == b[o + 1] && w[2] == b[o + 2] && w[3] == b[o + 3]);
        assert(w.skip(4)[0] == b[o + 4] && w.skip(4)[1] == b[o + 5] && w.skip(4)[2] == b[o + 6]
            && w.skip(4)[3] == b[o + 7]);
    }
    assert(binary_header_word(b, 0) == le_u64_value(b.skip(28)));
    assert(binary_header_word(b, 1) == le_u64_value(b.skip(36)));
    assert(binary_header_word(b, 2) == le_u64_value(b.skip(44)));
    assert(binary_header_word(b, 3) == le_u64_value(b.skip(52)));
    assert(binary_header_word(b, 4) == le_u64_value(b.skip(60)));
    assert(binary_header_word(b, 5) == le_u64_value(b.skip(68)));
    let r = g.rows as int;
    let c = g.cols as int;
    assert(b.skip(20)[0] == b[20] && b.skip(20)[1] == b[21] && b.skip(20)[2] == b[22]
        && b.skip(20)[3] == b[23]);
    assert(b.skip(24)[0] == b[24] && b.skip(24)[1] == b[25] && b.skip(24)[2] == b[26]
        && b.skip(24)[3] == b[27]);
    assert forall|i: int, j: int| 0 <= i < r && 0 <= j < c implies #[trigger] value_cells(
        g.data,
    )[i][j] == bytes_le_u64(b, 100 + 8 * ((r - 1 - i) * c + j)) by {
        lemma_cell_index(r - 1 - i, j, r, c);
        let m = (r - 1 - i) * c + j;
        assert(8 * m + 8 <= 8 * (r * c));
        assert(r * c > 0);
        let o = 100 + 8 * m;
        let w = b.skip(o);
        assert(w[0] == b[o] && w[1] == b[o + 1] && w[2] == b[o + 2] && w[3] == b[o + 3]);
        assert(w.skip(4)[0] == b[o + 4] && w.skip(4)[1] == b[o + 5] && w.skip(4)[2] == b[o + 6]
            && w.skip(4)[3] == b[o + 7]);
    }
}

} // verus!
