//! The table of intensities: one row for each scan, one column for each
//! trace, each cell the intensity that the trace gathered from the scan.

use vstd::prelude::*;
use crate::assign::scans_below;
use crate::structs::data::{Roicell, RoiTrace};

verus! {

/// The sum of the intensities that the first `k` observations of `trace`
/// hold from scan `row`.
pub open spec fn cell_sum(trace: RoiTrace, row: int, k: int) -> int
    decreases k,
{
    if k <= 0 {
        0
    } else if trace.scans[k - 1] == row {
        cell_sum(trace, row, k - 1) + trace.intensities[k - 1]
    } else {
        cell_sum(trace, row, k - 1)
    }
}

/// `table` has `rows` rows of one cell for each trace, and each cell holds
/// all that its trace observed in the scan of its row.
pub open spec fn is_matrix(table: Seq<Vec<u128>>, traces: Seq<RoiTrace>, rows: int) -> bool {
    &&& table.len() == rows
    &&& forall|r: int| 0 <= r < rows ==> (#[trigger] table[r])@.len() == traces.len()
    &&& forall|r: int, c: int|
        0 <= r < rows && 0 <= c < traces.len() ==> (#[trigger] table[r]@[c]) == cell_sum(
            traces[c],
            r,
            traces[c].count() as int,
        )
}

/// A cell holds no more than the largest intensity for each observation.
pub proof fn lemma_cell_sum_bounds(trace: RoiTrace, row: int, k: int)
    requires
        0 <= k <= trace.intensities.len(),
    ensures
        0 <= cell_sum(trace, row, k) <= k * 0xFFFF_FFFF,
    decreases k,
{
    if k > 0 {
        lemma_cell_sum_bounds(trace, row, k - 1);
    }
}

/// A table of `rows` rows and `columns` columns of zeros.
pub fn zeros(rows: usize, columns: usize) -> (table: Vec<Vec<u128>>)
    ensures
        table@.len() == rows,
        forall|r: int| 0 <= r < rows ==> (#[trigger] table@[r])@.len() == columns,
        forall|r: int, c: int| 0 <= r < rows && 0 <= c < columns ==> (#[trigger] table@[r]@[c]) == 0,
{
    let mut table: Vec<Vec<u128>> = Vec::new();
    let mut r: usize = 0;
    while r < rows
        invariant
            r <= rows,
            table@.len() == r,
            forall|a: int| 0 <= a < r ==> (#[trigger] table@[a])@.len() == columns,
            forall|a: int, c: int| 0 <= a < r && 0 <= c < columns ==> (#[trigger] table@[a]@[c]) == 0,
        decreases rows - r,
    {
        let mut row: Vec<u128> = Vec::new();
        let mut c: usize = 0;
        while c < columns
            invariant
                c <= columns,
                row@.len() == c,
                forall|b: int| 0 <= b < c ==> row@[b] == 0,
            decreases columns - c,
        {
            row.push(0);
            c += 1;
        }
        table.push(row);
        r += 1;
    }
    table
}

/// The table of the traces over `n_scans` scans.
pub fn assemble(roicell: &Roicell, n_scans: usize) -> (table: Vec<Vec<u128>>)
    requires
        roicell.parallel(),
        scans_below(roicell@, n_scans as int),
    ensures
        is_matrix(table@, roicell@, n_scans as int),
{
    let n: usize = roicell.mzs.len();
    let mut table = zeros(n_scans, n);
    let mut i: usize = 0;
    while i < n
        invariant
            i <= n,
            n == roicell@.len(),
            roicell.parallel(),
            scans_below(roicell@, n_scans as int),
            table@.len() == n_scans,
            forall|r: int| 0 <= r < n_scans ==> (#[trigger] table@[r])@.len() == n,
            forall|r: int, c: int|
                0 <= r < n_scans && 0 <= c < n ==> (#[trigger] table@[r]@[c]) == if c < i {
                    cell_sum(roicell@[c], r, roicell@[c].count() as int)
                } else {
                    0
                },
        decreases n - i,
    {
        let ghost trace = roicell@[i as int];
        assert(trace.parallel());
        assert(trace.scans_below(n_scans as int));
        let count: usize = roicell.scans[i].len();
        let mut j: usize = 0;
        while j < count
            invariant
                i < n,
                j <= count,
                n == roicell@.len(),
                roicell.parallel(),
                trace == roicell@[i as int],
                trace.parallel(),
                trace.scans_below(n_scans as int),
                count == trace.count(),
                table@.len() == n_scans,
                forall|r: int| 0 <= r < n_scans ==> (#[trigger] table@[r])@.len() == n,
                forall|r: int, c: int|
                    0 <= r < n_scans && 0 <= c < n ==> (#[trigger] table@[r]@[c]) == if c < i {
                        cell_sum(roicell@[c], r, roicell@[c].count() as int)
                    } else if c == i {
                        cell_sum(trace, r, j as int)
                    } else {
                        0
                    },
            decreases count - j,
        {
            let row: usize = roicell.scans[i][j];
            let gain: u32 = roicell.intensities[i][j];
            proof {
                assert(row == trace.scans[j as int]);
                assert(gain == trace.intensities[j as int]);
                lemma_cell_sum_bounds(trace, row as int, j as int);
                assert(table@[row as int]@[i as int] == cell_sum(trace, row as int, j as int));
                assert(j * 0xFFFF_FFFF <= 0xFFFF_FFFF_FFFF_FFFF * 0xFFFF_FFFF) by (nonlinear_arith)
                    requires
                        0 <= j <= 0xFFFF_FFFF_FFFF_FFFF,
                ;
            }
            let ghost before = table@;
            let held: u128 = table[row][i];
            table[row][i] = held + gain as u128;
            proof {
                assert forall|r: int, c: int| 0 <= r < n_scans && 0 <= c < n implies (
                #[trigger] table@[r]@[c]) == if c < i {
                    cell_sum(roicell@[c], r, roicell@[c].count() as int)
                } else if c == i {
                    cell_sum(trace, r, j + 1)
                } else {
                    0
                } by {
                    assert(before[r]@[c] == if c < i {
                        cell_sum(roicell@[c], r, roicell@[c].count() as int)
                    } else if c == i {
                        cell_sum(trace, r, j as int)
                    } else {
                        0
                    });
                }
                assert forall|r: int| 0 <= r < n_scans implies (#[trigger] table@[r])@.len() == n by {
                    assert(before[r]@.len() == n);
                }
            }
            j += 1;
        }
        i += 1;
    }
    table
}

} // verus!
