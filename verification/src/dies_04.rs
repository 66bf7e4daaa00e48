//! The word-search puzzle: a square character grid is scanned for the
//! target word along rows, columns and both diagonals (part one), and
//! for crossed `MAS` arms around a centre `A` (part two).  The grid is
//! held as upper-cased ASCII bytes.

use vstd::prelude::*;
use vstd::string::StringSliceAdditionalSpecFns;

use crate::text::spec_lines;
use crate::text::lines_model;
use crate::text::split_lines;

verus! {

/// The mathematical model of the byte grid.
pub open spec fn bgrid_model(g: &Vec<Vec<u8>>) -> Seq<Seq<u8>> {
    Seq::new(g@.len(), |i: int| g@[i]@)
}

/// A rectangular, square, nonempty grid.
pub open spec fn bgrid_wf(g: Seq<Seq<u8>>) -> bool {
    &&& g.len() > 0
    &&& forall|i: int| 0 <= i < g.len() ==> (#[trigger] g[i]).len() == g.len()
}

/// A lower-case ASCII letter turned upper; every other byte unchanged.
pub open spec fn upper_byte(c: u8) -> u8 {
    if 97 <= c <= 122 {
        (c - 32) as u8
    } else {
        c
    }
}

/// A whole row upper-cased.
pub open spec fn upper_row(row: Seq<u8>) -> Seq<u8> {
    row.map(|i: int, c: u8| upper_byte(c))
}

/// Every row upper-cased.
pub open spec fn upper_rows(rows: Seq<Seq<u8>>) -> Seq<Seq<u8>> {
    rows.map(|i: int, row: Seq<u8>| upper_row(row))
}

/// The target word of part one, `XMAS`, and its reverse.
pub open spec fn tgt() -> Seq<u8> {
    seq![88u8, 77u8, 65u8, 83u8]
}

/// The target word read backwards.
pub open spec fn tgt_rev() -> Seq<u8> {
    seq![83u8, 65u8, 77u8, 88u8]
}

/// A word counts when it reads as the target forwards or backwards.
pub open spec fn is_hit(w: Seq<u8>) -> bool {
    w == tgt() || w == tgt_rev()
}

/// The four characters of row `r` starting at column `k`.
pub open spec fn row_word(g: Seq<Seq<u8>>, r: int, k: int) -> Seq<u8> {
    g[r].subrange(k, k + 4)
}

/// The four characters of column `k` starting at row `r`.
pub open spec fn col_word(g: Seq<Seq<u8>>, r: int, k: int) -> Seq<u8> {
    Seq::new(4, |i: int| g[r + i][k])
}

/// Whether (r, k) lies inside the grid.
pub open spec fn binb(g: Seq<Seq<u8>>, r: int, k: int) -> bool {
    0 <= r < g.len() && 0 <= k < g[0].len()
}

/// The first `i` characters of the falling-left diagonal word from
/// (r, k): steps (r+i, k-i), out-of-bounds cells skipped.
pub open spec fn diag1_word(g: Seq<Seq<u8>>, r: int, k: int, i: int) -> Seq<u8>
    decreases i,
{
    if i <= 0 {
        Seq::empty()
    } else {
        diag1_word(g, r, k, i - 1) + if binb(g, r + i - 1, k - i + 1) {
            seq![g[r + i - 1][k - i + 1]]
        } else {
            Seq::empty()
        }
    }
}

/// The first `i` characters of the falling-right diagonal word from
/// (r, k): steps (r+i, k+i), out-of-bounds cells skipped.
pub open spec fn diag2_word(g: Seq<Seq<u8>>, r: int, k: int, i: int) -> Seq<u8>
    decreases i,
{
    if i <= 0 {
        Seq::empty()
    } else {
        diag2_word(g, r, k, i - 1) + if binb(g, r + i - 1, k + i - 1) {
            seq![g[r + i - 1][k + i - 1]]
        } else {
            Seq::empty()
        }
    }
}

/// The four scans of part one, and the crossed-arms scan of part two.
pub enum Scan {
    Rows,
    Cols,
    DiagDown,
    DiagUp,
    Cross,
}

/// Whether a cross-arm byte counts: an `M` or an `S`.
pub open spec fn is_ms(c: u8) -> bool {
    c == 77 || c == 83
}

/// Whether the cell (r, k) is the centre of crossed `MAS` arms: an `A`
/// with all four diagonal neighbours inside the grid, each an `M` or an
/// `S`, and opposite neighbours different.
pub open spec fn cross_hit(g: Seq<Seq<u8>>, r: int, k: int) -> bool {
    &&& g[r][k] == 65u8
    &&& binb(g, r - 1, k - 1) && binb(g, r - 1, k + 1) && binb(g, r + 1, k + 1) && binb(
        g,
        r + 1,
        k - 1,
    )
    &&& is_ms(g[r - 1][k - 1]) && is_ms(g[r - 1][k + 1]) && is_ms(g[r + 1][k + 1]) && is_ms(
        g[r + 1][k - 1],
    )
    &&& g[r - 1][k - 1] != g[r + 1][k + 1]
    &&& g[r - 1][k + 1] != g[r + 1][k - 1]
}

/// Whether position (a, b) of the given scan is a hit.  For the row and
/// cross scans `a` is the row; for the other three `a` is the column, as
/// the search walks them column-first.
pub open spec fn scan_hit(g: Seq<Seq<u8>>, which: Scan, a: int, b: int) -> bool {
    match which {
        Scan::Rows => is_hit(row_word(g, a, b)),
        Scan::Cols => is_hit(col_word(g, b, a)),
        Scan::DiagDown => is_hit(diag1_word(g, b, a, 4)),
        Scan::DiagUp => is_hit(diag2_word(g, b, a, 4)),
        Scan::Cross => cross_hit(g, a, b),
    }
}

/// The hits of the scan at outer index `a`, among inner indices below `b`.
pub open spec fn hits_in_line(g: Seq<Seq<u8>>, which: Scan, a: int, b: int) -> nat
    decreases b,
{
    if b <= 0 {
        0
    } else {
        hits_in_line(g, which, a, b - 1) + if scan_hit(g, which, a, b - 1) {
            1nat
        } else {
            0nat
        }
    }
}

/// The hits of the scan among outer indices below `a`, with `bmax` inner
/// indices each.
pub open spec fn hits_upto(g: Seq<Seq<u8>>, which: Scan, a: int, bmax: int) -> nat
    decreases a,
{
    if a <= 0 {
        0
    } else {
        hits_upto(g, which, a - 1, bmax) + hits_in_line(g, which, a - 1, bmax)
    }
}

/// How many times the target word occurs, over all four scans of a
/// square grid with `n` rows.
pub open spec fn xmas_count(g: Seq<Seq<u8>>, n: int) -> nat {
    hits_upto(g, Scan::Rows, n, n - 3) + hits_upto(g, Scan::Cols, n, n - 3) + hits_upto(
        g,
        Scan::DiagDown,
        n,
        n - 3,
    ) + hits_upto(g, Scan::DiagUp, n, n - 3)
}

/// How many cells centre crossed `MAS` arms.
pub open spec fn cross_count(g: Seq<Seq<u8>>, n: int) -> nat {
    hits_upto(g, Scan::Cross, n, n)
}

/// Why a textual grid was rejected.
#[derive(Debug, PartialEq, Eq, Structural)]
pub enum ShapeError {
    /// Rows of unequal length, or no row at all.
    NotRectangular,
    /// As many columns as rows is required.
    NotSquare,
}

/// The parsed, upper-cased character grid.
pub struct Data {
    pub grid: Vec<Vec<u8>>,
}

/// Upper-case one row of ASCII text.
fn to_upper(row: &Vec<u8>) -> (out: Vec<u8>)
    ensures
        out@ == upper_row(row@),
{
    let mut out: Vec<u8> = Vec::new();
    let mut i: usize = 0;
    while i < row.len()
        invariant
            i <= row@.len(),
            out@ == upper_row(row@).take(i as int),
        decreases row@.len() - i,
    {
        let c = row[i];
        let u: u8 = if 97 <= c && c <= 122 {
            c - 32
        } else {
            c
        };
        out.push(u);
        proof {
            assert(out@ =~= upper_row(row@).take(i + 1));
        }
        i = i + 1;
    }
    proof {
        assert(out@ =~= upper_row(row@));
    }
    out
}

impl Data {
    /// Whether the grid is a nonempty square.
    pub open spec fn wf(self) -> bool {
        bgrid_wf(bgrid_model(&self.grid))
    }

    /// Parse a textual grid, upper-casing every row.  Fails with
    /// `NotRectangular` when the rows are not all of one length (or the
    /// text is empty), and with `NotSquare` when that length is not the
    /// number of rows.
    #[verifier::loop_isolation(false)]
    pub fn parse(input: &str) -> (res: Result<Data, ShapeError>)
        ensures
            ({
                let rows = upper_rows(spec_lines(input.spec_bytes()));
                let rect = rows.len() > 0 && (forall|i: int|
                    0 <= i < rows.len() ==> (#[trigger] rows[i]).len() == rows[0].len());
                &&& (!rect ==> res == Err::<Data, ShapeError>(ShapeError::NotRectangular))
                &&& (rect && rows[0].len() != rows.len() ==> res == Err::<Data, ShapeError>(
                    ShapeError::NotSquare,
                ))
                &&& (rect && rows[0].len() == rows.len() ==> (res matches Ok(d)
                    && bgrid_model(&d.grid) == rows && d.wf()))
            }),
    {
        let bytes = input.as_bytes();
        let raw = split_lines(bytes);
        let ghost target = upper_rows(spec_lines(input.spec_bytes()));
        let mut grid: Vec<Vec<u8>> = Vec::new();
        let mut i: usize = 0;
        while i < raw.len()
            invariant
                i <= raw@.len(),
                grid@.len() == i as int,
                forall|l: int| 0 <= l < i ==> (#[trigger] grid@[l])@ == target[l],
            decreases raw@.len() - i,
        {
            let up = to_upper(&raw[i]);
            proof {
                assert(lines_model(&raw)[i as int] == raw@[i as int]@);
            }
            grid.push(up);
            i = i + 1;
        }
        proof {
            assert(bgrid_model(&grid) =~= target);
        }
        let n = grid.len();
        if n == 0 {
            return Err(ShapeError::NotRectangular);
        }
        let width = grid[0].len();
        let mut r: usize = 1;
        while r < n
            invariant
                1 <= r <= n,
                forall|j: int| 0 <= j < r ==> (#[trigger] target[j]).len() == width as int,
            decreases n - r,
        {
            if grid[r].len() != width {
                proof {
                    assert(target[r as int].len() != target[0].len());
                }
                return Err(ShapeError::NotRectangular);
            }
            r = r + 1;
        }
        if width != n {
            return Err(ShapeError::NotSquare);
        }
        Ok(Data { grid })
    }
}


/// Hits in one line never shrink as the line grows.
proof fn lemma_hits_in_line_mono(g: Seq<Seq<u8>>, which: Scan, a: int, b1: int, b2: int)
    requires
        b1 <= b2,
    ensures
        hits_in_line(g, which, a, b1) <= hits_in_line(g, which, a, b2),
    decreases b2,
{
    if b1 < b2 && b2 > 0 {
        lemma_hits_in_line_mono(g, which, a, b1, b2 - 1);
    }
}

/// Hits over the scanned lines never shrink as more lines are scanned.
proof fn lemma_hits_upto_mono(g: Seq<Seq<u8>>, which: Scan, a1: int, a2: int, bmax: int)
    requires
        a1 <= a2,
    ensures
        hits_upto(g, which, a1, bmax) <= hits_upto(g, which, a2, bmax),
    decreases a2,
{
    if a1 < a2 && a2 > 0 {
        lemma_hits_upto_mono(g, which, a1, a2 - 1, bmax);
    }
}

/// A partial count is bounded by the full count of its scan.
proof fn lemma_partial_bound(g: Seq<Seq<u8>>, which: Scan, a: int, b: int, amax: int, bmax: int)
    requires
        0 <= a < amax,
        0 <= b <= bmax,
    ensures
        hits_upto(g, which, a, bmax) + hits_in_line(g, which, a, b) <= hits_upto(
            g,
            which,
            amax,
            bmax,
        ),
{
    lemma_hits_in_line_mono(g, which, a, b, bmax);
    assert(hits_upto(g, which, a + 1, bmax) == hits_upto(g, which, a, bmax) + hits_in_line(
        g,
        which,
        a,
        bmax,
    ));
    lemma_hits_upto_mono(g, which, a + 1, amax, bmax);
}

/// Whether the word is the target, forwards or backwards.
fn is_target(w: &Vec<u8>) -> (b: bool)
    ensures
        b == is_hit(w@),
{
    let n = w.len();
    let b = n == 4 && ((w[0] == 88 && w[1] == 77 && w[2] == 65 && w[3] == 83) || (w[0] == 83
        && w[1] == 65 && w[2] == 77 && w[3] == 88));
    proof {
        if n == 4 {
            if w@[0] == 88 && w@[1] == 77 && w@[2] == 65 && w@[3] == 83 {
                assert(w@ =~= tgt());
            }
            if w@[0] == 83 && w@[1] == 65 && w@[2] == 77 && w@[3] == 88 {
                assert(w@ =~= tgt_rev());
            }
        }
    }
    b
}

/// One generic counting pass: walk the scan's whole index rectangle and
/// count its hits.
#[verifier::loop_isolation(false)]
#[verifier::rlimit(60)]
fn count_scan(grid: &Vec<Vec<u8>>, which: Scan, amax: usize, bmax: usize) -> (n: usize)
    requires
        bgrid_wf(bgrid_model(grid)),
        amax <= grid@.len(),
        bmax <= grid@.len(),
        bmax + 3 <= grid@.len() || matches!(which, Scan::Cross),
        hits_upto(bgrid_model(grid), which, amax as int, bmax as int) <= usize::MAX,
    ensures
        n == hits_upto(bgrid_model(grid), which, amax as int, bmax as int),
{
    let ghost g = bgrid_model(grid);
    let size = grid.len();
    let mut n: usize = 0;
    let mut a: usize = 0;
    while a < amax
        invariant
            a <= amax,
            n == hits_upto(g, which, a as int, bmax as int),
        decreases amax - a,
    {
        let mut b: usize = 0;
        while b < bmax
            invariant
                a < amax,
                b <= bmax,
                n == hits_upto(g, which, a as int, bmax as int) + hits_in_line(
                    g,
                    which,
                    a as int,
                    b as int,
                ),
            decreases bmax - b,
        {
            proof {
                assert forall|i: int| 0 <= i < g.len() implies grid@[i]@.len() == g.len() by {
                    assert(g[i] == grid@[i]@);
                }
            }
            let hit: bool = match which {
                Scan::Rows => {
                    let mut w: Vec<u8> = Vec::new();
                    w.push(grid[a][b]);
                    w.push(grid[a][b + 1]);
                    w.push(grid[a][b + 2]);
                    w.push(grid[a][b + 3]);
                    proof {
                        assert(w@ =~= row_word(g, a as int, b as int));
                    }
                    is_target(&w)
                },
                Scan::Cols => {
                    let mut w: Vec<u8> = Vec::new();
                    w.push(grid[b][a]);
                    w.push(grid[b + 1][a]);
                    w.push(grid[b + 2][a]);
                    w.push(grid[b + 3][a]);
                    proof {
                        assert(w@ =~= col_word(g, b as int, a as int));
                    }
                    is_target(&w)
                },
                Scan::DiagDown => {
                    let mut w: Vec<u8> = Vec::new();
                    let mut i: usize = 0;
                    while i < 4
                        invariant
                            i <= 4,
                            a < amax,
                            b + 3 < size,
                            w@ == diag1_word(g, b as int, a as int, i as int),
                        decreases 4 - i,
                    {
                        if b + i < size && a >= i {
                            w.push(grid[b + i][a - i]);
                            proof {
                                assert(w@ =~= diag1_word(g, b as int, a as int, i + 1));
                            }
                        }
                        i = i + 1;
                    }
                    is_target(&w)
                },
                Scan::DiagUp => {
                    let mut w: Vec<u8> = Vec::new();
                    let mut i: usize = 0;
                    while i < 4
                        invariant
                            i <= 4,
                            a < amax,
                            b + 3 < size,
                            w@ == diag2_word(g, b as int, a as int, i as int),
                        decreases 4 - i,
                    {
                        if b + i < size && i < size - a {
                            w.push(grid[b + i][a + i]);
                            proof {
                                assert(w@ =~= diag2_word(g, b as int, a as int, i + 1));
                            }
                        }
                        i = i + 1;
                    }
                    is_target(&w)
                },
                Scan::Cross => {
                    grid[a][b] == 65 && a >= 1 && a + 1 < size && b >= 1 && b + 1 < size && {
                        let nw = grid[a - 1][b - 1];
                        let ne = grid[a - 1][b + 1];
                        let se = grid[a + 1][b + 1];
                        let sw = grid[a + 1][b - 1];
                        (nw == 77 || nw == 83) && (ne == 77 || ne == 83) && (se == 77 || se
                            == 83) && (sw == 77 || sw == 83) && nw != se && ne != sw
                    }
                },
            };
            if hit {
                proof {
                    lemma_partial_bound(g, which, a as int, b + 1, amax as int, bmax as int);
                }
                n = n + 1;
            }
            b = b + 1;
        }
        a = a + 1;
    }
    n
}

impl Data {
    /// Count the occurrences of the target word along the rows, the
    /// columns and both diagonals of the grid.
    pub fn solve1(&self) -> (n: usize)
        requires
            self.wf(),
            self.grid@.len() >= 4,
            xmas_count(bgrid_model(&self.grid), self.grid@.len() as int) <= usize::MAX,
        ensures
            n == xmas_count(bgrid_model(&self.grid), self.grid@.len() as int),
    {
        let size = self.grid.len();
        let c1 = count_scan(&self.grid, Scan::Rows, size, size - 3);
        let c2 = count_scan(&self.grid, Scan::Cols, size, size - 3);
        let c3 = count_scan(&self.grid, Scan::DiagDown, size, size - 3);
        let c4 = count_scan(&self.grid, Scan::DiagUp, size, size - 3);
        c1 + c2 + c3 + c4
    }

    /// Count the cells that centre crossed `MAS` arms.
    pub fn solve2(&self) -> (n: usize)
        requires
            self.wf(),
            cross_count(bgrid_model(&self.grid), self.grid@.len() as int) <= usize::MAX,
        ensures
            n == cross_count(bgrid_model(&self.grid), self.grid@.len() as int),
    {
        let size = self.grid.len();
        count_scan(&self.grid, Scan::Cross, size, size)
    }
}

} // verus!
