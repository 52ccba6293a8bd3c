//! The scalar field, its threshold, and the per-cell marching-squares case
//! indices derived from them.

use vstd::prelude::*;

use crate::{Error, SCALAR_ONE};
use vstd::arithmetic::div_mod::lemma_fundamental_div_mod_converse;

verus! {

/// The threshold every terrain is created with: 0.33 in thousandths.
pub const DEFAULT_THRESHOLD: u32 = 330;

/// 1 when the sample at `(r, c)` lies strictly above the threshold, else 0.
/// A sample equal to the threshold counts as below.
pub open spec fn corner_bit(field: Seq<u32>, width: int, threshold: u32, r: int, c: int) -> int {
    if field[r * width + c] > threshold {
        1
    } else {
        0
    }
}

/// The 4-bit case index of the cell whose top-left corner is `(r, c)`:
/// corners visited clockwise from the top left, most significant bit first.
pub open spec fn spec_cell_index(
    field: Seq<u32>,
    width: int,
    threshold: u32,
    r: int,
    c: int,
) -> int {
    8 * corner_bit(field, width, threshold, r, c) + 4 * corner_bit(
        field,
        width,
        threshold,
        r,
        c + 1,
    ) + 2 * corner_bit(field, width, threshold, r + 1, c + 1) + corner_bit(
        field,
        width,
        threshold,
        r + 1,
        c,
    )
}

/// The whole `(height-1) x (width-1)` grid of case indices, row-major.
pub open spec fn spec_index_grid(
    field: Seq<u32>,
    width: int,
    height: int,
    threshold: u32,
) -> Seq<u8> {
    Seq::new(
        ((height - 1) * (width - 1)) as nat,
        |i: int|
            spec_cell_index(
                field,
                width,
                threshold,
                i / (width - 1),
                i % (width - 1),
            ) as u8,
    )
}

/// The marching-squares case table. Entry `i` is the flat vertex list of the
/// triangles drawn for case index `i`: each triangle contributes six numbers
/// (three vertices, two coordinates each), in half-units of the cell edge, so
/// `0`, `1`, `2` stand for `0.0`, `0.5`, `1.0` of the unit square. Entry 0 is
/// empty; entry 15 is the full square split into two triangles. The saddle
/// cases 5 and 10 use one fixed triangulation; no ambiguity resolution.
pub open spec fn case_table() -> Seq<Seq<u8>> {
    seq![
        Seq::<u8>::empty(),
        seq![0u8, 1, 0, 2, 1, 2],
        seq![2u8, 1, 1, 2, 2, 2],
        seq![0u8, 1, 0, 2, 2, 2, 0, 1, 2, 2, 2, 1],
        seq![1u8, 0, 2, 1, 2, 0],
        seq![0u8, 1, 0, 2, 1, 2, 1, 0, 2, 1, 2, 0],
        seq![1u8, 0, 1, 2, 2, 2, 1, 0, 2, 2, 2, 0],
        seq![0u8, 2, 2, 2, 2, 0, 0, 1, 0, 2, 2, 0, 0, 1, 2, 0, 1, 0],
        seq![0u8, 0, 0, 1, 1, 0],
        seq![0u8, 0, 0, 2, 1, 2, 0, 0, 1, 2, 1, 0],
        seq![0u8, 0, 0, 1, 1, 0, 1, 2, 2, 2, 2, 1],
        seq![0u8, 0, 0, 2, 2, 2, 0, 0, 2, 2, 2, 1, 0, 0, 2, 1, 1, 0],
        seq![0u8, 0, 0, 1, 2, 1, 0, 0, 2, 1, 2, 0],
        seq![0u8, 0, 0, 2, 2, 0, 0, 2, 1, 2, 2, 1, 0, 2, 2, 1, 2, 0],
        seq![0u8, 0, 2, 2, 2, 0, 0, 0, 0, 1, 1, 2, 0, 0, 1, 2, 2, 2],
        seq![0u8, 0, 0, 2, 2, 2, 0, 0, 2, 2, 2, 0],
    ]
}

/// Appends one triangle: three vertices of two half-unit coordinates each.
fn push_triangle(list: &mut Vec<u8>, ax: u8, ay: u8, bx: u8, by: u8, cx: u8, cy: u8)
    ensures
        final(list)@ == old(list)@ + seq![ax, ay, bx, by, cx, cy],
{
    list.push(ax);
    list.push(ay);
    list.push(bx);
    list.push(by);
    list.push(cx);
    list.push(cy);
    proof {
        assert(list@ =~= old(list)@ + seq![ax, ay, bx, by, cx, cy]);
    }
}

/// The triangles drawn for case `index`, as the flat half-unit vertex list of
/// the case table entry.
pub fn triangles_for(index: u8) -> (r: Vec<u8>)
    requires
        index < 16,
    ensures
        r@ == case_table()[index as int],
{
    let mut list: Vec<u8> = Vec::new();
    if index == 1 {
        push_triangle(&mut list, 0, 1, 0, 2, 1, 2);
    } else if index == 2 {
        push_triangle(&mut list, 2, 1, 1, 2, 2, 2);
    } else if index == 3 {
        push_triangle(&mut list, 0, 1, 0, 2, 2, 2);
        push_triangle(&mut list, 0, 1, 2, 2, 2, 1);
    } else if index == 4 {
        push_triangle(&mut list, 1, 0, 2, 1, 2, 0);
    } else if index == 5 {
        push_triangle(&mut list, 0, 1, 0, 2, 1, 2);
        push_triangle(&mut list, 1, 0, 2, 1, 2, 0);
    } else if index == 6 {
        push_triangle(&mut list, 1, 0, 1, 2, 2, 2);
        push_triangle(&mut list, 1, 0, 2, 2, 2, 0);
    } else if index == 7 {
        push_triangle(&mut list, 0, 2, 2, 2, 2, 0);
        push_triangle(&mut list, 0, 1, 0, 2, 2, 0);
        push_triangle(&mut list, 0, 1, 2, 0, 1, 0);
    } else if index == 8 {
        push_triangle(&mut list, 0, 0, 0, 1, 1, 0);
    } else if index == 9 {
        push_triangle(&mut list, 0, 0, 0, 2, 1, 2);
        push_triangle(&mut list, 0, 0, 1, 2, 1, 0);
    } else if index == 10 {
        push_triangle(&mut list, 0, 0, 0, 1, 1, 0);
        push_triangle(&mut list, 1, 2, 2, 2, 2, 1);
    } else if index == 11 {
        push_triangle(&mut list, 0, 0, 0, 2, 2, 2);
        push_triangle(&mut list, 0, 0, 2, 2, 2, 1);
        push_triangle(&mut list, 0, 0, 2, 1, 1, 0);
    } else if index == 12 {
        push_triangle(&mut list, 0, 0, 0, 1, 2, 1);
        push_triangle(&mut list, 0, 0, 2, 1, 2, 0);
    } else if index == 13 {
        push_triangle(&mut list, 0, 0, 0, 2, 2, 0);
        push_triangle(&mut list, 0, 2, 1, 2, 2, 1);
        push_triangle(&mut list, 0, 2, 2, 1, 2, 0);
    } else if index == 14 {
        push_triangle(&mut list, 0, 0, 2, 2, 2, 0);
        push_triangle(&mut list, 0, 0, 0, 1, 1, 2);
        push_triangle(&mut list, 0, 0, 1, 2, 2, 2);
    } else if index == 15 {
        push_triangle(&mut list, 0, 0, 0, 2, 2, 2);
        push_triangle(&mut list, 0, 0, 2, 2, 2, 0);
    }
    proof {
        assert(list@ =~= case_table()[index as int]);
    }
    list
}

/// Every case table entry lists whole triangles — its length is a multiple
/// of six — and every coordinate lies within the unit cell, that is, within
/// `0 ..= 2` in half-units.
pub proof fn lemma_table_complete(i: int)
    requires
        0 <= i < 16,
    ensures
        case_table()[i].len() % 6 == 0,
        forall|j: int| 0 <= j < case_table()[i].len() ==> 0 <= #[trigger] case_table()[i][j] <= 2,
{
}

/// A row-major slot `r * width + c` lies within a `width * height` grid.
pub(crate) proof fn lemma_grid_slot(r: int, c: int, width: int, height: int)
    by (nonlinear_arith)
    requires
        0 <= r < height,
        0 <= c < width,
    ensures
        0 <= r * width + c < width * height,
{
}

/// The terrain: a `width x height` scalar field in fixed-point thousandths,
/// its threshold, and the derived grid of per-cell case indices, rebuilt in
/// full after every edit so that it is never stale.
pub struct Terrain {
    pub width: usize,
    pub height: usize,
    pub scalar_field: Vec<u32>,
    pub threshold: u32,
    pub index_grid: Vec<u8>,
}

impl Terrain {
    /// Number of sample columns.
    pub open spec fn spec_width(self) -> int {
        self.width as int
    }

    /// Number of sample rows.
    pub open spec fn spec_height(self) -> int {
        self.height as int
    }

    /// The scalar samples, row-major, in thousandths.
    pub open spec fn field_seq(self) -> Seq<u32> {
        self.scalar_field@
    }

    /// The threshold, in thousandths.
    pub open spec fn spec_threshold(self) -> u32 {
        self.threshold
    }

    /// The per-cell case indices, row-major over the `(height-1) x (width-1)`
    /// cells.
    pub open spec fn index_seq(self) -> Seq<u8> {
        self.index_grid@
    }

    /// Dimensions, sample count and ranges are consistent.
    pub open spec fn dims_ok(self) -> bool {
        &&& self.spec_width() >= 2
        &&& self.spec_height() >= 2
        &&& self.field_seq().len() == self.spec_width() * self.spec_height()
        &&& forall|i: int|
            0 <= i < self.field_seq().len() ==> #[trigger] self.field_seq()[i] <= SCALAR_ONE
        &&& self.spec_threshold() <= SCALAR_ONE
    }

    /// Well-formed: consistent dimensions, and an index grid that matches
    /// the current field and threshold exactly.
    pub open spec fn wf(self) -> bool {
        &&& self.dims_ok()
        &&& self.index_seq() == spec_index_grid(
            self.field_seq(),
            self.spec_width(),
            self.spec_height(),
            self.spec_threshold(),
        )
    }

    /// Number of sample columns.
    pub fn width(&self) -> (r: usize)
        ensures
            r == self.spec_width(),
    {
        self.width
    }

    /// Number of sample rows.
    pub fn height(&self) -> (r: usize)
        ensures
            r == self.spec_height(),
    {
        self.height
    }

    /// A copy of the case-index grid, row-major.
    pub fn index_values(&self) -> (r: Vec<u8>)
        ensures
            r@ == self.index_seq(),
    {
        let mut out: Vec<u8> = Vec::new();
        let n = self.index_grid.len();
        let mut i: usize = 0;
        while i < n
            invariant
                n == self.index_grid.len(),
                i <= n,
                out@ == self.index_grid@.take(i as int),
            decreases n - i,
        {
            out.push(self.index_grid[i]);
            proof {
                assert(out@ =~= self.index_grid@.take(i + 1));
            }
            i += 1;
        }
        proof {
            assert(out@ =~= self.index_seq());
        }
        out
    }

    /// Recomputes every cell index from the current field and threshold.
    fn construct_index_grid(&mut self)
        requires
            old(self).dims_ok(),
        ensures
            final(self).dims_ok(),
            final(self).spec_width() == old(self).spec_width(),
            final(self).spec_height() == old(self).spec_height(),
            final(self).field_seq() == old(self).field_seq(),
            final(self).spec_threshold() == old(self).spec_threshold(),
            final(self).wf(),
    {
        let thresholded_field = threshold_field(&self.scalar_field, self.threshold);
        let w = self.width;
        let h = self.height;
        let n = self.scalar_field.len();
        let ghost fseq = self.scalar_field@;
        let ghost thr = self.threshold;
        let mut grid: Vec<u8> = Vec::new();
        let mut row: usize = 0;
        while row < h - 1
            invariant
                w == self.width,
                h == self.height,
                self.dims_ok(),
                fseq == self.scalar_field@,
                thr == self.threshold,
                n == self.scalar_field.len(),
                thresholded_field@.len() == n,
                forall|i: int|
                    0 <= i < n ==> #[trigger] thresholded_field@[i] == (if fseq[i] > thr {
                        1u8
                    } else {
                        0u8
                    }),
                row <= h - 1,
                grid@.len() == row * (w - 1),
                forall|i: int|
                    0 <= i < grid@.len() ==> #[trigger] grid@[i] == spec_cell_index(
                        fseq,
                        w as int,
                        thr,
                        i / (w - 1),
                        i % (w - 1),
                    ) as u8,
            decreases h - 1 - row,
        {
            let mut col: usize = 0;
            while col < w - 1
                invariant
                    w == self.width,
                    h == self.height,
                    self.dims_ok(),
                    fseq == self.scalar_field@,
                    thr == self.threshold,
                    n == self.scalar_field.len(),
                    thresholded_field@.len() == n,
                    forall|i: int|
                        0 <= i < n ==> #[trigger] thresholded_field@[i] == (if fseq[i] > thr {
                            1u8
                        } else {
                            0u8
                        }),
                    row < h - 1,
                    col <= w - 1,
                    grid@.len() == row * (w - 1) + col,
                    forall|i: int|
                        0 <= i < grid@.len() ==> #[trigger] grid@[i] == spec_cell_index(
                            fseq,
                            w as int,
                            thr,
                            i / (w - 1),
                            i % (w - 1),
                        ) as u8,
                decreases w - 1 - col,
            {
                proof {
                    lemma_grid_slot(row as int, col as int, w as int, h as int);
                    lemma_grid_slot(row as int, col + 1, w as int, h as int);
                    lemma_grid_slot(row + 1, col as int, w as int, h as int);
                    lemma_grid_slot(row + 1, col + 1, w as int, h as int);
                    lemma_grid_slot(row as int, col as int, w - 1 as int, h - 1 as int);
                }
                // Compose the four corner bits into a 4-bit index, most
                // significant first: top left, top right, bottom right,
                // bottom left.
                let mut index: u8 = 0;
                index = index + 8 * thresholded_field[row * w + col];
                index = index + 4 * thresholded_field[row * w + col + 1];
                index = index + 2 * thresholded_field[(row + 1) * w + col + 1];
                index = index + thresholded_field[(row + 1) * w + col];
                grid.push(index);
                proof {
                    let p = row * (w - 1) + col;
                    lemma_fundamental_div_mod_converse(
                        p as int,
                        w - 1 as int,
                        row as int,
                        col as int,
                    );
                    assert(grid@[p as int] == spec_cell_index(
                        fseq,
                        w as int,
                        thr,
                        p as int / (w - 1 as int),
                        p as int % (w - 1 as int),
                    ) as u8);
                }
                col += 1;
            }
            proof {
                assert((row + 1) * (w - 1) == row * (w - 1) + (w - 1)) by (nonlinear_arith);
            }
            row += 1;
        }
        proof {
            assert(grid@ =~= spec_index_grid(fseq, w as int, h as int, thr));
        }
        self.index_grid = grid;
    }

    /// Creates a terrain over externally supplied initial samples (the
    /// generator of those samples — noise or randomness — is the caller's
    /// concern; every sample must already be in `0 ..= SCALAR_ONE`). Grids
    /// smaller than 2 x 2 samples, or a sample vector of the wrong length,
    /// are rejected with `InvalidDimension`; an out-of-range sample with
    /// `InvalidValue`. The index grid is computed before the terrain is
    /// returned.
    pub fn new(width: usize, height: usize, values: Vec<u32>) -> (r: Result<Terrain, Error>)
        ensures
            r is Ok <==> width >= 2 && height >= 2 && values@.len() == width * height && (forall|
                i: int,
            | 0 <= i < values@.len() ==> #[trigger] values@[i] <= SCALAR_ONE),
            match r {
                Ok(t) => {
                    &&& width >= 2
                    &&& height >= 2
                    &&& values@.len() == width * height
                    &&& forall|i: int|
                        0 <= i < values@.len() ==> #[trigger] values@[i] <= SCALAR_ONE
                    &&& t.wf()
                    &&& t.spec_width() == width
                    &&& t.spec_height() == height
                    &&& t.field_seq() == values@
                    &&& t.spec_threshold() == DEFAULT_THRESHOLD
                },
                Err(e) => {
                    &&& (e == Error::InvalidDimension <==> width < 2 || height < 2
                        || values@.len() != width * height)
                    &&& (e == Error::InvalidValue <==> width >= 2 && height >= 2 && values@.len()
                        == width * height && exists|i: int|
                        0 <= i < values@.len() && #[trigger] values@[i] > SCALAR_ONE)
                },
            },
    {
        let sample_count = values.len();
        if width < 2 || height < 2 {
            return Err(Error::InvalidDimension);
        }
        let expected = match width.checked_mul(height) {
            Some(n) => n,
            None => {
                return Err(Error::InvalidDimension);
            },
        };
        if sample_count != expected {
            return Err(Error::InvalidDimension);
        }
        let mut i: usize = 0;
        while i < expected
            invariant
                expected == values.len(),
                expected == width * height,
                width >= 2,
                height >= 2,
                i <= expected,
                forall|j: int| 0 <= j < i ==> #[trigger] values@[j] <= SCALAR_ONE,
            decreases expected - i,
        {
            if values[i] > SCALAR_ONE {
                proof {
                    assert(0 <= i < values@.len() && values@[i as int] > SCALAR_ONE);
                }
                return Err(Error::InvalidValue);
            }
            i += 1;
        }
        let mut terrain = Terrain {
            width,
            height,
            scalar_field: values,
            threshold: DEFAULT_THRESHOLD,
            index_grid: Vec::new(),
        };
        terrain.construct_index_grid();
        Ok(terrain)
    }

    /// Overwrites the sample at `(row, col)` and synchronously rebuilds the
    /// whole index grid, so that the grid is never stale. Coordinates off
    /// the grid are rejected with `OutOfBounds`, an out-of-range sample with
    /// `InvalidValue`; a rejected edit leaves the terrain untouched.
    pub fn modify_scalar_field(&mut self, row: usize, col: usize, new_scalar: u32) -> (r: Result<
        (),
        Error,
    >)
        requires
            old(self).wf(),
        ensures
            r is Ok <==> row < old(self).spec_height() && col < old(self).spec_width()
                && new_scalar <= SCALAR_ONE,
            final(self).wf(),
            final(self).spec_width() == old(self).spec_width(),
            final(self).spec_height() == old(self).spec_height(),
            final(self).spec_threshold() == old(self).spec_threshold(),
            match r {
                Ok(()) => {
                    &&& row < old(self).spec_height()
                    &&& col < old(self).spec_width()
                    &&& new_scalar <= SCALAR_ONE
                    &&& final(self).field_seq() == old(self).field_seq().update(
                        row * old(self).spec_width() + col,
                        new_scalar,
                    )
                },
                Err(e) => {
                    &&& *final(self) == *old(self)
                    &&& (e == Error::OutOfBounds <==> row >= old(self).spec_height() || col >= old(
                        self,
                    ).spec_width())
                    &&& (e == Error::InvalidValue <==> row < old(self).spec_height() && col < old(
                        self,
                    ).spec_width() && new_scalar > SCALAR_ONE)
                },
            },
    {
        if row >= self.height || col >= self.width {
            return Err(Error::OutOfBounds);
        }
        if new_scalar > SCALAR_ONE {
            return Err(Error::InvalidValue);
        }
        let sample_count = self.scalar_field.len();
        proof {
            lemma_grid_slot(row as int, col as int, self.width as int, self.height as int);
            assert(row * self.width as int + col < sample_count);
        }
        let index = row * self.width + col;
        self.scalar_field.set(index, new_scalar);
        self.construct_index_grid();
        Ok(())
    }
}

/// Rebuilding the index grid is deterministic: two terrains over the same
/// field, dimensions and threshold carry the same index grid, however and
/// how often each was rebuilt.
pub proof fn lemma_rebuild_deterministic(a: Terrain, b: Terrain)
    requires
        a.wf(),
        b.wf(),
        a.field_seq() == b.field_seq(),
        a.spec_width() == b.spec_width(),
        a.spec_height() == b.spec_height(),
        a.spec_threshold() == b.spec_threshold(),
    ensures
        a.index_seq() == b.index_seq(),
{
}

/// Writing the same sample twice is the same as writing it once: the field,
/// and with it the index grid derived from it, come out identical.
pub proof fn lemma_edit_idempotent(
    field: Seq<u32>,
    slot: int,
    value: u32,
    width: int,
    height: int,
    threshold: u32,
)
    requires
        0 <= slot < field.len(),
    ensures
        field.update(slot, value).update(slot, value) == field.update(slot, value),
        spec_index_grid(
            field.update(slot, value).update(slot, value),
            width,
            height,
            threshold,
        ) == spec_index_grid(field.update(slot, value), width, height, threshold),
{
    assert(field.update(slot, value).update(slot, value) =~= field.update(slot, value));
}

/// 1 for every sample strictly above the threshold, 0 for every other.
fn threshold_field(scalar_field: &Vec<u32>, threshold: u32) -> (r: Vec<u8>)
    ensures
        r@.len() == scalar_field@.len(),
        forall|i: int|
            0 <= i < scalar_field@.len() ==> #[trigger] r@[i] == (if scalar_field@[i] > threshold {
                1u8
            } else {
                0u8
            }),
{
    let mut new_field: Vec<u8> = Vec::new();
    let n = scalar_field.len();
    let mut i: usize = 0;
    while i < n
        invariant
            n == scalar_field.len(),
            i <= n,
            new_field@.len() == i,
            forall|j: int|
                0 <= j < i ==> #[trigger] new_field@[j] == (if scalar_field@[j] > threshold {
                    1u8
                } else {
                    0u8
                }),
        decreases n - i,
    {
        if scalar_field[i] > threshold {
            new_field.push(1);
        } else {
            new_field.push(0);
        }
        i += 1;
    }
    new_field
}

} // verus!
