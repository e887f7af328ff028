//! The board: a fixed-extent dense 2D canvas of cells, each either blank
//! (a space) or a single letter.
//!
//! The cells live in an `ndarray::Array2<char>`. Verus sees that canvas
//! only through the uninterpreted function `cells_of`, which gives its
//! contents as a sequence of rows, and through the trusted accessors
//! below, whose contracts state what `ndarray` documents of each call.
use vstd::prelude::*;

verus! {

/// Backing store for a board: a dense rows x cols canvas of characters.
#[verifier::external_body]
pub struct Canvas {
    cells: ndarray::Array2<char>,
}

/// The cells a canvas holds, row by row.
pub uninterp spec fn cells_of(a: Canvas) -> Seq<Seq<char>>;

/// Relies on ndarray's `Array2::from_elem`: a rows x cols array (row-major
/// pattern `(rows, cols)`), every element a copy of `fill`. It panics
/// when the product of the non-zero axis lengths overflows `isize`, so
/// each dimension is bounded on its own as well as their product.
#[verifier::external_body]
fn canvas_filled(rows: usize, cols: usize, fill: char) -> (a: Canvas)
    requires
        rows <= isize::MAX,
        cols <= isize::MAX,
        rows * cols <= isize::MAX,
    ensures
        cells_of(a).len() == rows,
        forall|r: int| 0 <= r < rows ==> (#[trigger] cells_of(a)[r]).len() == cols,
        forall|r: int, c: int| 0 <= r < rows && 0 <= c < cols ==> cells_of(a)[r][c] == fill,
{
    Canvas { cells: ndarray::Array2::from_elem((rows, cols), fill) }
}

/// Relies on `Index` for `ndarray::ArrayBase`: the element at `[r, c]`.
#[verifier::external_body]
fn canvas_get(a: &Canvas, r: usize, c: usize) -> (ch: char)
    requires
        r < cells_of(*a).len(),
        c < cells_of(*a)[r as int].len(),
    ensures
        ch == cells_of(*a)[r as int][c as int],
{
    a.cells[[r, c]]
}

/// Relies on `IndexMut` for `ndarray::ArrayBase`: writes the element at
/// `[r, c]` and touches nothing else.
#[verifier::external_body]
fn canvas_set(a: &mut Canvas, r: usize, c: usize, ch: char)
    requires
        r < cells_of(*old(a)).len(),
        c < cells_of(*old(a))[r as int].len(),
    ensures
        cells_of(*final(a)) == cells_of(*old(a)).update(
            r as int,
            cells_of(*old(a))[r as int].update(c as int, ch),
        ),
{
    a.cells[[r, c]] = ch;
}

/// Relies on `Clone` for `ndarray::ArrayBase`: an owned copy with the
/// same shape and elements.
#[verifier::external_body]
fn canvas_clone(a: &Canvas) -> (b: Canvas)
    ensures
        cells_of(b) == cells_of(*a),
{
    Canvas { cells: a.cells.clone() }
}

/// One committed or proposed write of a letter to the board.
#[derive(Clone, Copy, PartialEq, Eq, Structural, Debug)]
pub struct LetterPlacement {
    pub letter: char,
    pub row: usize,
    pub col: usize,
}

/// Whether a line of the board runs along a row or down a column.
#[derive(Clone, Copy, PartialEq, Eq, Structural, Debug)]
pub enum Direction {
    Vertical,
    Horizontal,
}

/// The blank cell marker.
pub open spec fn blank() -> char {
    ' '
}

/// A fixed-extent board. Dimensions never change after creation.
pub struct Grid {
    canvas: Canvas,
    rows: usize,
    cols: usize,
}

impl View for Grid {
    type V = Seq<Seq<char>>;

    closed spec fn view(&self) -> Seq<Seq<char>> {
        cells_of(self.canvas)
    }
}

impl Grid {
    pub closed spec fn spec_rows(&self) -> usize {
        self.rows
    }

    pub closed spec fn spec_cols(&self) -> usize {
        self.cols
    }

    /// The board is a dense rectangle of the recorded dimensions, small
    /// enough that its cell count fits machine arithmetic.
    pub open spec fn wf(&self) -> bool {
        &&& self@.len() == self.spec_rows()
        &&& forall|r: int| 0 <= r < self@.len() ==> (#[trigger] self@[r]).len() == self.spec_cols()
        &&& self.spec_rows() * self.spec_cols() <= isize::MAX
    }

    /// A fresh board of the given extent, every cell blank.
    pub fn new(rows: usize, cols: usize) -> (g: Grid)
        requires
            rows <= isize::MAX,
            cols <= isize::MAX,
            rows * cols <= isize::MAX,
        ensures
            g.wf(),
            g.spec_rows() == rows,
            g.spec_cols() == cols,
            forall|r: int, c: int| 0 <= r < rows && 0 <= c < cols ==> g@[r][c] == blank(),
    {
        Grid { canvas: canvas_filled(rows, cols, ' '), rows, cols }
    }

    pub fn num_rows(&self) -> (n: usize)
        ensures
            n == self.spec_rows(),
    {
        self.rows
    }

    pub fn num_cols(&self) -> (n: usize)
        ensures
            n == self.spec_cols(),
    {
        self.cols
    }

    /// An owned copy of the board with the same cells.
    pub fn duplicate(&self) -> (g: Grid)
        ensures
            g@ == self@,
            g.spec_rows() == self.spec_rows(),
            g.spec_cols() == self.spec_cols(),
    {
        Grid { canvas: canvas_clone(&self.canvas), rows: self.rows, cols: self.cols }
    }

    pub fn get(&self, r: usize, c: usize) -> (ch: char)
        requires
            self.wf(),
            r < self.spec_rows(),
            c < self.spec_cols(),
        ensures
            ch == self@[r as int][c as int],
    {
        canvas_get(&self.canvas, r, c)
    }

    pub fn insert(&mut self, r: usize, c: usize, val: char)
        requires
            old(self).wf(),
            r < old(self).spec_rows(),
            c < old(self).spec_cols(),
        ensures
            final(self).wf(),
            final(self).spec_rows() == old(self).spec_rows(),
            final(self).spec_cols() == old(self).spec_cols(),
            final(self)@ == old(self)@.update(
                r as int,
                old(self)@[r as int].update(c as int, val),
            ),
    {
        canvas_set(&mut self.canvas, r, c, val);
    }

    pub fn place_letter(&mut self, pl: &LetterPlacement)
        requires
            old(self).wf(),
            pl.row < old(self).spec_rows(),
            pl.col < old(self).spec_cols(),
        ensures
            final(self).wf(),
            final(self).spec_rows() == old(self).spec_rows(),
            final(self).spec_cols() == old(self).spec_cols(),
            final(self)@ == old(self)@.update(
                pl.row as int,
                old(self)@[pl.row as int].update(pl.col as int, pl.letter),
            ),
    {
        self.insert(pl.row, pl.col, pl.letter);
    }

    /// Blank every cell.
    pub fn clear(&mut self)
        requires
            old(self).wf(),
        ensures
            final(self).wf(),
            final(self).spec_rows() == old(self).spec_rows(),
            final(self).spec_cols() == old(self).spec_cols(),
            forall|r: int, c: int|
                0 <= r < final(self)@.len() && 0 <= c < final(self)@[r].len()
                    ==> final(self)@[r][c] == blank(),
    {
        let mut r: usize = 0;
        while r < self.rows
            invariant
                self.wf(),
                self.spec_rows() == old(self).spec_rows(),
                self.spec_cols() == old(self).spec_cols(),
                r <= self.spec_rows(),
                forall|i: int, j: int|
                    0 <= i < r && 0 <= j < self@[i].len() ==> self@[i][j] == blank(),
            decreases self.spec_rows() - r,
        {
            let mut c: usize = 0;
            while c < self.cols
                invariant
                    self.wf(),
                    self.spec_rows() == old(self).spec_rows(),
                    self.spec_cols() == old(self).spec_cols(),
                    r < self.spec_rows(),
                    c <= self.spec_cols(),
                    forall|i: int, j: int|
                        0 <= i < r && 0 <= j < self@[i].len() ==> self@[i][j] == blank(),
                    forall|j: int| 0 <= j < c ==> self@[r as int][j] == blank(),
                decreases self.spec_cols() - c,
            {
                self.insert(r, c, ' ');
                c = c + 1;
            }
            r = r + 1;
        }
    }

    /// The anchor cell for the first placed word.
    pub fn midpoint(&self) -> (m: (usize, usize))
        ensures
            m.0 == self.spec_rows() / 2,
            m.1 == self.spec_cols() / 2,
    {
        (self.rows / 2, self.cols / 2)
    }

    /// The smallest rectangle containing every letter, or `None` for a
    /// board with no letters.
    pub fn bounding_box(&self) -> (r: Option<BoundingBox>)
        requires
            self.wf(),
        ensures
            match r {
                Option::None => !has_letter(self@),
                Option::Some(b) => is_bbox(self@, b),
            },
    {
        let mut found = false;
        let mut min_row: usize = 0;
        let mut max_row: usize = 0;
        let mut min_col: usize = 0;
        let mut max_col: usize = 0;
        let mut r: usize = 0;
        while r < self.rows
            invariant
                self.wf(),
                r <= self.spec_rows(),
                !found ==> forall|i: int, j: int|
                    0 <= i < r && 0 <= j < self.spec_cols() ==> self@[i][j] == blank(),
                found ==> {
                    &&& min_row <= max_row < r
                    &&& min_col <= max_col < self.spec_cols()
                    &&& (forall|i: int, j: int|
                        0 <= i < r && 0 <= j < self.spec_cols() && occupied(self@, i, j)
                            ==> min_row <= i <= max_row && min_col <= j <= max_col)
                    &&& (exists|j: int|
                        0 <= j < self.spec_cols() && occupied(self@, min_row as int, j))
                    &&& (exists|j: int|
                        0 <= j < self.spec_cols() && occupied(self@, max_row as int, j))
                    &&& (exists|i: int| 0 <= i < r && occupied(self@, i, min_col as int))
                    &&& (exists|i: int| 0 <= i < r && occupied(self@, i, max_col as int))
                },
            decreases self.spec_rows() - r,
        {
            let mut c: usize = 0;
            while c < self.cols
                invariant
                    self.wf(),
                    r < self.spec_rows(),
                    c <= self.spec_cols(),
                    !found ==> (forall|i: int, j: int|
                        0 <= i < r && 0 <= j < self.spec_cols() ==> self@[i][j] == blank()),
                    !found ==> forall|j: int| 0 <= j < c ==> self@[r as int][j] == blank(),
                    found ==> {
                        &&& min_row <= max_row <= r
                        &&& min_col <= max_col < self.spec_cols()
                        &&& (forall|i: int, j: int|
                            0 <= i < r && 0 <= j < self.spec_cols() && occupied(self@, i, j)
                                ==> min_row <= i <= max_row && min_col <= j <= max_col)
                        &&& (forall|j: int|
                            0 <= j < c && occupied(self@, r as int, j)
                                ==> min_row <= r <= max_row && min_col <= j <= max_col)
                        &&& (exists|j: int|
                            0 <= j < self.spec_cols() && occupied(self@, min_row as int, j))
                        &&& (exists|j: int|
                            0 <= j < self.spec_cols() && occupied(self@, max_row as int, j))
                        &&& (exists|i: int|
                            0 <= i <= r && (i < r || min_col < c)
                                && occupied(self@, i, min_col as int))
                        &&& (exists|i: int|
                            0 <= i <= r && (i < r || max_col < c)
                                && occupied(self@, i, max_col as int))
                    },
                decreases self.spec_cols() - c,
            {
                if self.get(r, c) != ' ' {
                    proof {
                        assert(occupied(self@, r as int, c as int));
                    }
                    if !found {
                        found = true;
                        min_row = r;
                        max_row = r;
                        min_col = c;
                        max_col = c;
                    } else {
                        max_row = r;
                        if c < min_col {
                            min_col = c;
                        }
                        if c > max_col {
                            max_col = c;
                        }
                    }
                }
                c = c + 1;
            }
            r = r + 1;
        }
        if found {
            Some(BoundingBox { min_col, max_col, min_row, max_row })
        } else {
            None
        }
    }

    /// Area of the occupied bounding box; 0 for an empty board.
    pub fn bounding_box_area(&self) -> (a: usize)
        requires
            self.wf(),
        ensures
            a == spec_area(self@),
    {
        match self.bounding_box() {
            None => 0,
            Some(b) => {
                proof {
                    let t = (b.min_row as int, b.max_row as int, b.min_col as int, b.max_col as int);
                    assert(is_bbox_at(self@, bbox_of(self@))) by {
                        assert(is_bbox_at(self@, t));
                    }
                    let wc = choose|c: int|
                        0 <= c < self@[t.0].len() && occupied(self@, t.0, c);
                    assert(has_letter(self@));
                    lemma_bbox_unique(self@, t, bbox_of(self@));
                    assert((b.max_row - b.min_row + 1) * (b.max_col - b.min_col + 1)
                        <= self.spec_rows() * self.spec_cols()) by (nonlinear_arith)
                        requires
                            0 <= b.max_row - b.min_row + 1 <= self.spec_rows(),
                            0 <= b.max_col - b.min_col + 1 <= self.spec_cols(),
                    ;
                }
                b.area()
            },
        }
    }
}

/// The smallest rectangle containing all letters of a board.
#[derive(Clone, Copy, PartialEq, Eq, Structural, Debug)]
pub struct BoundingBox {
    pub min_col: usize,
    pub max_col: usize,
    pub min_row: usize,
    pub max_row: usize,
}

impl BoundingBox {
    /// Number of cells the rectangle spans.
    pub open spec fn spec_area(&self) -> int {
        (self.max_row - self.min_row + 1) * (self.max_col - self.min_col + 1)
    }

    pub fn area(&self) -> (a: usize)
        requires
            self.min_row <= self.max_row,
            self.min_col <= self.max_col,
            self.spec_area() <= usize::MAX,
        ensures
            a == self.spec_area(),
    {
        proof {
            assert(self.max_row - self.min_row + 1 <= self.spec_area()
                && self.max_col - self.min_col + 1 <= self.spec_area()) by (nonlinear_arith)
                requires
                    self.min_row <= self.max_row,
                    self.min_col <= self.max_col,
            ;
        }
        (self.max_row - self.min_row + 1) * (self.max_col - self.min_col + 1)
    }
}

/// Cell (r, c) of `g` holds a letter.
pub open spec fn occupied(g: Seq<Seq<char>>, r: int, c: int) -> bool {
    g[r][c] != blank()
}

/// Some cell of `g` holds a letter.
pub open spec fn has_letter(g: Seq<Seq<char>>) -> bool {
    exists|r: int, c: int| 0 <= r < g.len() && 0 <= c < g[r].len() && occupied(g, r, c)
}

/// `(min_row, max_row, min_col, max_col)` is the bounding box of `g`:
/// it contains every letter and touches a letter on each of its edges.
pub open spec fn is_bbox_at(g: Seq<Seq<char>>, t: (int, int, int, int)) -> bool {
    let (min_row, max_row, min_col, max_col) = t;
    &&& 0 <= min_row <= max_row < g.len()
    &&& 0 <= min_col <= max_col
    &&& (forall|r: int, c: int|
        0 <= r < g.len() && 0 <= c < g[r].len() && occupied(g, r, c)
            ==> min_row <= r <= max_row && min_col <= c <= max_col)
    &&& (exists|c: int| 0 <= c < g[min_row].len() && occupied(g, min_row, c))
    &&& (exists|c: int| 0 <= c < g[max_row].len() && occupied(g, max_row, c))
    &&& (exists|r: int| 0 <= r < g.len() && min_col < g[r].len() && occupied(g, r, min_col))
    &&& (exists|r: int| 0 <= r < g.len() && max_col < g[r].len() && occupied(g, r, max_col))
}

pub open spec fn is_bbox(g: Seq<Seq<char>>, b: BoundingBox) -> bool {
    is_bbox_at(g, (b.min_row as int, b.max_row as int, b.min_col as int, b.max_col as int))
}

/// The bounding box of `g`, meaningful whenever `g` has a letter.
pub open spec fn bbox_of(g: Seq<Seq<char>>) -> (int, int, int, int) {
    choose|t: (int, int, int, int)| is_bbox_at(g, t)
}

/// A board has at most one bounding box.
pub proof fn lemma_bbox_unique(g: Seq<Seq<char>>, t1: (int, int, int, int), t2: (int, int, int, int))
    requires
        is_bbox_at(g, t1),
        is_bbox_at(g, t2),
    ensures
        t1.0 == t2.0,
        t1.1 == t2.1,
        t1.2 == t2.2,
        t1.3 == t2.3,
{
    let c1 = choose|c: int| 0 <= c < g[t1.0].len() && occupied(g, t1.0, c);
    let c2 = choose|c: int| 0 <= c < g[t1.1].len() && occupied(g, t1.1, c);
    let r1 = choose|r: int| 0 <= r < g.len() && t1.2 < g[r].len() && occupied(g, r, t1.2);
    let r2 = choose|r: int| 0 <= r < g.len() && t1.3 < g[r].len() && occupied(g, r, t1.3);
    let d1 = choose|c: int| 0 <= c < g[t2.0].len() && occupied(g, t2.0, c);
    let d2 = choose|c: int| 0 <= c < g[t2.1].len() && occupied(g, t2.1, c);
    let s1 = choose|r: int| 0 <= r < g.len() && t2.2 < g[r].len() && occupied(g, r, t2.2);
    let s2 = choose|r: int| 0 <= r < g.len() && t2.3 < g[r].len() && occupied(g, r, t2.3);
    assert(t2.0 <= t1.0 && t1.0 <= t2.0);
    assert(t2.1 >= t1.1 && t1.1 >= t2.1);
    assert(t2.2 <= t1.2 && t1.2 <= t2.2);
    assert(t2.3 >= t1.3 && t1.3 >= t2.3);
}

/// Bounding-box area of a board: 0 when empty.
pub open spec fn spec_area(g: Seq<Seq<char>>) -> int {
    if !has_letter(g) {
        0
    } else {
        let t = bbox_of(g);
        (t.1 - t.0 + 1) * (t.3 - t.2 + 1)
    }
}

/// Row `r` of `g` holds a letter.
pub open spec fn row_occ(g: Seq<Seq<char>>, r: int) -> bool {
    exists|c: int| 0 <= c < g[r].len() && occupied(g, r, c)
}

/// Column `c` of `g` holds a letter.
pub open spec fn col_occ(g: Seq<Seq<char>>, c: int) -> bool {
    exists|r: int| 0 <= r < g.len() && c < g[r].len() && occupied(g, r, c)
}

proof fn least_occ_row(g: Seq<Seq<char>>, i: int) -> (m: int)
    requires
        0 <= i < g.len(),
        exists|r: int| i <= r < g.len() && row_occ(g, r),
    ensures
        i <= m < g.len(),
        row_occ(g, m),
        forall|r: int| i <= r < m ==> !row_occ(g, r),
    decreases g.len() - i,
{
    if row_occ(g, i) {
        i
    } else {
        let w = choose|r: int| i <= r < g.len() && row_occ(g, r);
        assert(i + 1 <= w < g.len() && row_occ(g, w));
        least_occ_row(g, i + 1)
    }
}

proof fn greatest_occ_row(g: Seq<Seq<char>>, i: int) -> (m: int)
    requires
        0 <= i < g.len(),
        exists|r: int| 0 <= r <= i && row_occ(g, r),
    ensures
        0 <= m <= i,
        row_occ(g, m),
        forall|r: int| m < r <= i ==> !row_occ(g, r),
    decreases i,
{
    if row_occ(g, i) {
        i
    } else {
        let w = choose|r: int| 0 <= r <= i && row_occ(g, r);
        assert(0 <= w <= i - 1 && row_occ(g, w));
        greatest_occ_row(g, i - 1)
    }
}

proof fn least_occ_col(g: Seq<Seq<char>>, w: int, i: int) -> (m: int)
    requires
        0 <= i < w,
        exists|c: int| i <= c < w && col_occ(g, c),
    ensures
        i <= m < w,
        col_occ(g, m),
        forall|c: int| i <= c < m ==> !col_occ(g, c),
    decreases w - i,
{
    if col_occ(g, i) {
        i
    } else {
        let x = choose|c: int| i <= c < w && col_occ(g, c);
        assert(i + 1 <= x < w && col_occ(g, x));
        least_occ_col(g, w, i + 1)
    }
}

proof fn greatest_occ_col(g: Seq<Seq<char>>, i: int) -> (m: int)
    requires
        0 <= i,
        exists|c: int| 0 <= c <= i && col_occ(g, c),
    ensures
        0 <= m <= i,
        col_occ(g, m),
        forall|c: int| m < c <= i ==> !col_occ(g, c),
    decreases i,
{
    if col_occ(g, i) {
        i
    } else {
        let x = choose|c: int| 0 <= c <= i && col_occ(g, c);
        assert(0 <= x <= i - 1 && col_occ(g, x));
        greatest_occ_col(g, i - 1)
    }
}

/// Any board with a letter has a bounding box, so `bbox_of` denotes it.
pub proof fn lemma_bbox_exists(g: Seq<Seq<char>>)
    requires
        has_letter(g),
    ensures
        is_bbox_at(g, bbox_of(g)),
{
    let (wr, wc) = choose|r: int, c: int|
        0 <= r < g.len() && 0 <= c < g[r].len() && occupied(g, r, c);
    assert(row_occ(g, wr));
    assert(col_occ(g, wc));
    let minr = least_occ_row(g, 0);
    let maxr = greatest_occ_row(g, g.len() - 1);
    // every column index of g is below some row length; search columns up
    // to the largest mentioned index
    let minc = least_occ_col(g, wc + 1, 0);
    let maxc = {
        // the greatest occupied column over all rows: search downward from
        // the largest column index that any row can hold
        let bound = greatest_col_bound(g);
        lemma_greatest_col_bound(g, wr, wc);
        assert(0 <= wc <= bound && col_occ(g, wc));
        greatest_occ_col(g, bound)
    };
    assert(minr <= wr && wr <= maxr);
    assert forall|r: int, c: int|
        0 <= r < g.len() && 0 <= c < g[r].len() && occupied(g, r, c)
            implies minr <= r <= maxr && minc <= c <= maxc by {
        assert(row_occ(g, r));
        assert(col_occ(g, c));
        assert(c <= greatest_col_bound(g)) by {
            lemma_greatest_col_bound(g, r, c);
        }
        if c < minc {
            assert(c < wc + 1);
            assert(!col_occ(g, c));
        }
    }
    let t = (minr, maxr, minc, maxc);
    assert(minc <= wc && minc <= maxc) by {
        assert(col_occ(g, wc));
        lemma_greatest_col_bound(g, wr, wc);
    }
    assert(is_bbox_at(g, t)) by {
        assert(wc <= maxc && wr <= maxr) by {
            assert(col_occ(g, wc));
            assert(row_occ(g, wr));
        }
        let e1 = choose|c: int| 0 <= c < g[minr].len() && occupied(g, minr, c);
        let e2 = choose|c: int| 0 <= c < g[maxr].len() && occupied(g, maxr, c);
        let e3 = choose|r: int| 0 <= r < g.len() && minc < g[r].len() && occupied(g, r, minc);
        let e4 = choose|r: int| 0 <= r < g.len() && maxc < g[r].len() && occupied(g, r, maxc);
        assert(0 <= e1 < g[minr].len() && occupied(g, minr, e1));
        assert(0 <= e2 < g[maxr].len() && occupied(g, maxr, e2));
        assert(0 <= e3 < g.len() && minc < g[e3].len() && occupied(g, e3, minc));
        assert(0 <= e4 < g.len() && maxc < g[e4].len() && occupied(g, e4, maxc));
    }
    assert(is_bbox_at(g, bbox_of(g)));
}

/// An upper bound on every column index a cell of `g` can have.
pub open spec fn greatest_col_bound(g: Seq<Seq<char>>) -> int
    decreases g.len(),
{
    if g.len() == 0 {
        0
    } else {
        let rest = greatest_col_bound(g.drop_last());
        if g.last().len() > rest {
            g.last().len() as int
        } else {
            rest
        }
    }
}

proof fn lemma_greatest_col_bound(g: Seq<Seq<char>>, r: int, c: int)
    requires
        0 <= r < g.len(),
        0 <= c < g[r].len(),
    ensures
        0 <= c <= greatest_col_bound(g),
    decreases g.len(),
{
    if r < g.len() - 1 {
        assert(g.drop_last()[r] == g[r]);
        lemma_greatest_col_bound(g.drop_last(), r, c);
    }
}

/// Column `j` of a board, top to bottom.
pub open spec fn col_of(g: Seq<Seq<char>>, j: int) -> Seq<char> {
    Seq::new(g.len(), |i: int| g[i][j])
}

/// A full line of the board: a row read left to right, or a column read
/// top to bottom.
pub open spec fn line_of(g: Seq<Seq<char>>, pos: int, dir: Direction) -> Seq<char> {
    match dir {
        Direction::Horizontal => g[pos],
        Direction::Vertical => col_of(g, pos),
    }
}

impl Grid {
    /// The line at `position` along `dir`, blanks included.
    pub fn words_at(&self, position: usize, dir: Direction) -> (line: Vec<char>)
        requires
            self.wf(),
            dir == Direction::Horizontal ==> position < self.spec_rows(),
            dir == Direction::Vertical ==> position < self.spec_cols(),
        ensures
            line@ == line_of(self@, position as int, dir),
    {
        let mut v: Vec<char> = Vec::new();
        match dir {
            Direction::Horizontal => {
                let mut c: usize = 0;
                while c < self.cols
                    invariant
                        self.wf(),
                        position < self.spec_rows(),
                        c <= self.spec_cols(),
                        v@.len() == c,
                        forall|j: int| 0 <= j < c ==> v@[j] == self@[position as int][j],
                    decreases self.spec_cols() - c,
                {
                    v.push(self.get(position, c));
                    c = c + 1;
                }
                proof {
                    assert(v@ =~= self@[position as int]);
                }
            },
            Direction::Vertical => {
                let mut r: usize = 0;
                while r < self.rows
                    invariant
                        self.wf(),
                        position < self.spec_cols(),
                        r <= self.spec_rows(),
                        v@.len() == r,
                        forall|i: int| 0 <= i < r ==> v@[i] == self@[i][position as int],
                    decreases self.spec_rows() - r,
                {
                    v.push(self.get(r, position));
                    r = r + 1;
                }
                proof {
                    assert(v@ =~= col_of(self@, position as int));
                }
            },
        }
        v
    }
}

} // verus!
