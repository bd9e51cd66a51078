//! Base structs for the matching algorithm: Cell & SWMatrix

use vstd::prelude::*;

verus! {

/// Where a cell's score came from.
#[derive(Clone, Copy, Debug, PartialEq, Eq, Structural)]
pub enum Dir {
    Stop,
    Diag,
    Up,
    Left,
}

pub open spec fn dir_code(d: Dir) -> u32 {
    match d {
        Dir::Stop => 0,
        Dir::Diag => 1,
        Dir::Up => 2,
        Dir::Left => 3,
    }
}

pub open spec fn dir_of_code(b: u32) -> Dir {
    if b == 0 {
        Dir::Stop
    } else if b == 1 {
        Dir::Diag
    } else if b == 2 {
        Dir::Up
    } else {
        Dir::Left
    }
}

pub fn dir_to_code(d: Dir) -> (r: u32)
    ensures
        r == dir_code(d),
{
    match d {
        Dir::Stop => 0,
        Dir::Diag => 1,
        Dir::Up => 2,
        Dir::Left => 3,
    }
}

pub fn dir_from_code(b: u32) -> (r: Dir)
    ensures
        r == dir_of_code(b),
{
    if b == 0 {
        Dir::Stop
    } else if b == 1 {
        Dir::Diag
    } else if b == 2 {
        Dir::Up
    } else {
        Dir::Left
    }
}

/// A score in the low 16 bits and a direction in bits 16..18.
#[derive(Clone, Copy)]
pub struct Cell(u32);

/// A cell with score 0 and no predecessor.
pub open spec fn is_blank(c: Cell) -> bool {
    c.spec_score() == 0 && c.spec_dir() == Dir::Stop
}

impl Cell {
    pub closed spec fn spec_score(self) -> i16 {
        (self.0 as u16) as i16
    }

    pub closed spec fn spec_dir(self) -> Dir {
        dir_of_code((self.0 >> 16u32) & 3u32)
    }

    pub fn new(score: i16, dir: Dir) -> (c: Cell)
        ensures
            c.spec_score() == score,
            c.spec_dir() == dir,
    {
        let b = dir_to_code(dir);
        let x = score as u16;
        let v: u32 = (x as u32) | (b << 16u32);
        proof {
            assert(((x as u32) | (b << 16u32)) as u16 == x && ((((x as u32) | (b << 16u32))
                >> 16u32) & 3u32) == b) by (bit_vector)
                requires
                    b <= 3,
            ;
            assert((score as u16) as i16 == score) by (bit_vector);
        }
        Cell(v)
    }

    pub fn score(self) -> (s: i16)
        ensures
            s == self.spec_score(),
    {
        (self.0 as u16) as i16
    }

    pub fn dir(self) -> (d: Dir)
        ensures
            d == self.spec_dir(),
    {
        dir_from_code((self.0 >> 16u32) & 3u32)
    }

    pub fn is_diag(self) -> (r: bool)
        ensures
            r == (self.spec_dir() == Dir::Diag),
    {
        (self.0 >> 16u32) & 3u32 == 1
    }
}

pub fn cell_zero() -> (c: Cell)
    ensures
        is_blank(c),
{
    Cell::new(0, Dir::Stop)
}

/// A row-major matrix of cells; `data` may be longer than `rows * cols`.
pub struct SWMatrix {
    pub data: Vec<Cell>,
    pub cols: usize,
    pub rows: usize,
}

impl SWMatrix {
    pub open spec fn wf(&self) -> bool {
        self.rows * self.cols <= self.data@.len()
    }

    pub open spec fn at(&self, i: int, j: int) -> Cell {
        self.data@[i * self.cols + j]
    }

    /// A `rows` by `cols` matrix of zero cells.
    pub fn zero(rows: usize, cols: usize) -> (r: Self)
        requires
            rows * cols <= usize::MAX,
        ensures
            r.rows == rows,
            r.cols == cols,
            r.wf(),
            r.data@.len() == rows * cols,
            forall|k: int| 0 <= k < r.data@.len() ==> is_blank(#[trigger] r.data@[k]),
    {
        let mut res = SWMatrix { data: Vec::new(), cols: 0, rows: 0 };
        res.resize(rows, cols);
        res
    }

    /// Reshape to `rows` by `cols`, growing the storage with zero cells
    /// when it is too small; cells already stored are kept.
    pub fn resize(&mut self, rows: usize, cols: usize)
        requires
            rows * cols <= usize::MAX,
        ensures
            final(self).rows == rows,
            final(self).cols == cols,
            final(self).wf(),
            final(self).data@.len() == if rows * cols > old(self).data@.len() {
                rows * cols
            } else {
                old(self).data@.len() as int
            },
            forall|k: int|
                0 <= k < final(self).data@.len() ==> if k < old(self).data@.len() {
                    #[trigger] final(self).data@[k] == old(self).data@[k]
                } else {
                    is_blank(final(self).data@[k])
                },
    {
        let needed = rows * cols;
        if needed > self.data.len() {
            let ghost before = self.data@;
            let z = cell_zero();
            self.data.resize(needed, z);
            proof {
                assert forall|k: int| 0 <= k < self.data@.len() implies if k < before.len() {
                    #[trigger] self.data@[k] == before[k]
                } else {
                    is_blank(self.data@[k])
                } by {
                    if k < before.len() {
                        assert(self.data@.subrange(0, before.len() as int)[k] == before[k]);
                    }
                }
            }
        }
        self.rows = rows;
        self.cols = cols;
    }

    pub fn get(&self, i: usize, j: usize) -> (c: Cell)
        requires
            self.wf(),
            i < self.rows,
            j < self.cols,
        ensures
            c == self.at(i as int, j as int),
    {
        let dl = self.data.len();
        proof {
            lemma_index_in_bounds(i as int, j as int, self.rows as int, self.cols as int);
            assert(i * self.cols <= i * self.cols + j);
        }
        self.data[i * self.cols + j]
    }

    pub fn set(&mut self, i: usize, j: usize, c: Cell)
        requires
            old(self).wf(),
            i < old(self).rows,
            j < old(self).cols,
        ensures
            final(self).wf(),
            final(self).rows == old(self).rows,
            final(self).cols == old(self).cols,
            final(self).at(i as int, j as int) == c,
            forall|i2: int, j2: int|
                0 <= i2 < final(self).rows && 0 <= j2 < final(self).cols && (i2 != i || j2 != j)
                    ==> #[trigger] final(self).at(i2, j2) == old(self).at(i2, j2),
    {
        let dl = self.data.len();
        proof {
            lemma_index_in_bounds(i as int, j as int, self.rows as int, self.cols as int);
        }
        let ghost before = *self;
        let k = i * self.cols + j;
        self.data.set(k, c);
        proof {
            assert forall|i2: int, j2: int|
                0 <= i2 < self.rows && 0 <= j2 < self.cols && (i2 != i || j2 != j) implies #[trigger] self.at(i2, j2)
                == before.at(i2, j2) by {
                lemma_index_in_bounds(i2, j2, self.rows as int, self.cols as int);
                lemma_index_distinct(i as int, j as int, i2, j2, self.cols as int);
            }
        }
    }
}

pub proof fn lemma_index_in_bounds(i: int, j: int, rows: int, cols: int)
    requires
        0 <= i < rows,
        0 <= j < cols,
    ensures
        0 <= i * cols + j < rows * cols,
{
    assert(0 <= i * cols + j < rows * cols) by (nonlinear_arith)
        requires
            0 <= i < rows,
            0 <= j < cols,
    ;
}

pub proof fn lemma_index_distinct(i: int, j: int, i2: int, j2: int, cols: int)
    requires
        0 <= i,
        0 <= i2,
        0 <= j < cols,
        0 <= j2 < cols,
        i != i2 || j != j2,
    ensures
        i * cols + j != i2 * cols + j2,
{
    if i == i2 {
    } else if i < i2 {
        assert(i * cols + j < i2 * cols + j2) by (nonlinear_arith)
            requires
                i < i2,
                0 <= j < cols,
                0 <= j2,
        ;
    } else {
        assert(i2 * cols + j2 < i * cols + j) by (nonlinear_arith)
            requires
                i2 < i,
                0 <= j2 < cols,
                0 <= j,
        ;
    }
}

} // verus!
