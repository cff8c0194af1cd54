//! A run as it is read: scans of peaks, of which those of the first level
//! are computed on.

use vstd::prelude::*;
use crate::utils::subset;
use crate::RoiError;

verus! {

/// One peak: a mass and an intensity.
#[derive(Clone, Copy, Debug, PartialEq, Eq, Structural)]
pub struct Peak {
    pub mz: u32,
    pub intensity: u32,
}

/// One scan: its number, its level, the number of peaks it announced, its
/// retention time and its peaks.
#[derive(Debug)]
pub struct Scan {
    pub num: u64,
    pub ms_level: u8,
    pub peaks_count: u64,
    pub retention_time: u64,
    pub peaks: Vec<Peak>,
}

/// One run: a name and the scans in their order.
#[derive(Debug)]
pub struct MsRun {
    pub name: String,
    pub scans: Vec<Scan>,
}

/// A file of one run.
#[derive(Debug)]
pub struct MzXML {
    pub ms_run: MsRun,
}

/// The sum of the intensities of the first `k` peaks.
pub open spec fn intensity_sum(peaks: Seq<Peak>, k: int) -> int
    decreases k,
{
    if k <= 0 {
        0
    } else {
        intensity_sum(peaks, k - 1) + peaks[k - 1].intensity
    }
}

/// The peaks of the first-level scans among the first `k` scans.
pub open spec fn level_one_peaks(scans: Seq<Scan>, k: int) -> Seq<Seq<Peak>>
    decreases k,
{
    if k <= 0 {
        Seq::empty()
    } else if scans[k - 1].ms_level == 1 {
        level_one_peaks(scans, k - 1).push(scans[k - 1].peaks@)
    } else {
        level_one_peaks(scans, k - 1)
    }
}

/// The retention times of the first-level scans among the first `k` scans.
pub open spec fn level_one_times(scans: Seq<Scan>, k: int) -> Seq<u64>
    decreases k,
{
    if k <= 0 {
        Seq::empty()
    } else if scans[k - 1].ms_level == 1 {
        level_one_times(scans, k - 1).push(scans[k - 1].retention_time)
    } else {
        level_one_times(scans, k - 1)
    }
}

/// The summed intensities of the first-level scans among the first `k`
/// scans.
pub open spec fn level_one_tic(scans: Seq<Scan>, k: int) -> Seq<u128>
    decreases k,
{
    if k <= 0 {
        Seq::empty()
    } else if scans[k - 1].ms_level == 1 {
        level_one_tic(scans, k - 1).push(
            intensity_sum(scans[k - 1].peaks@, scans[k - 1].peaks@.len() as int) as u128,
        )
    } else {
        level_one_tic(scans, k - 1)
    }
}

/// The peak lists as values.
pub open spec fn peak_lists(lists: Seq<Vec<Peak>>) -> Seq<Seq<Peak>> {
    Seq::new(lists.len(), |i: int| lists[i]@)
}

impl MsRun {
    /// A run without a name and without scans.
    pub fn new() -> (run: MsRun)
        ensures
            run.name@ == Seq::<char>::empty(),
            run.scans@ == Seq::<Scan>::empty(),
    {
        MsRun { name: String::new(), scans: Vec::new() }
    }

    /// The peaks of each first-level scan, in the order of the scans.
    pub fn get_peaks(&self) -> (result: Vec<Vec<Peak>>)
        ensures
            peak_lists(result@) == level_one_peaks(self.scans@, self.scans@.len() as int),
    {
        let mut result: Vec<Vec<Peak>> = Vec::new();
        let mut k: usize = 0;
        assert(peak_lists(result@) =~= level_one_peaks(self.scans@, 0));
        while k < self.scans.len()
            invariant
                k <= self.scans@.len(),
                peak_lists(result@) == level_one_peaks(self.scans@, k as int),
            decreases self.scans@.len() - k,
        {
            let scan: &Scan = &self.scans[k];
            if scan.ms_level == 1 {
                let ghost held = result@;
                let mut peaks: Vec<Peak> = Vec::new();
                let mut p: usize = 0;
                while p < scan.peaks.len()
                    invariant
                        p <= scan.peaks@.len(),
                        peaks@ == scan.peaks@.take(p as int),
                    decreases scan.peaks@.len() - p,
                {
                    let peak: Peak = scan.peaks[p];
                    peaks.push(peak);
                    assert(peaks@ =~= scan.peaks@.take(p + 1));
                    p += 1;
                }
                assert(scan.peaks@.take(scan.peaks@.len() as int) =~= scan.peaks@);
                result.push(peaks);
                proof {
                    let now = peak_lists(result@);
                    let goal = level_one_peaks(self.scans@, k as int).push(scan.peaks@);
                    assert(now.len() == goal.len());
                    assert forall|i: int| 0 <= i < now.len() implies now[i] == goal[i] by {
                        if i < held.len() {
                            assert(result@[i] == held[i]);
                            assert(peak_lists(held)[i] == held[i]@);
                        }
                    }
                    assert(now =~= goal);
                }
            }
            k += 1;
        }
        result
    }

    /// The retention time of each first-level scan, in the order of the
    /// scans.
    pub fn get_times(&self) -> (result: Vec<u64>)
        ensures
            result@ == level_one_times(self.scans@, self.scans@.len() as int),
    {
        let mut result: Vec<u64> = Vec::new();
        let mut k: usize = 0;
        while k < self.scans.len()
            invariant
                k <= self.scans@.len(),
                result@ == level_one_times(self.scans@, k as int),
            decreases self.scans@.len() - k,
        {
            let scan: &Scan = &self.scans[k];
            if scan.ms_level == 1 {
                result.push(scan.retention_time);
            }
            k += 1;
        }
        result
    }

    /// The summed intensity of each first-level scan, in the order of the
    /// scans.
    pub fn get_tic(&self) -> (result: Vec<u128>)
        ensures
            result@ == level_one_tic(self.scans@, self.scans@.len() as int),
    {
        let mut result: Vec<u128> = Vec::new();
        let mut k: usize = 0;
        while k < self.scans.len()
            invariant
                k <= self.scans@.len(),
                result@ == level_one_tic(self.scans@, k as int),
            decreases self.scans@.len() - k,
        {
            let scan: &Scan = &self.scans[k];
            if scan.ms_level == 1 {
                let mut total: u128 = 0;
                let mut p: usize = 0;
                while p < scan.peaks.len()
                    invariant
                        p <= scan.peaks@.len(),
                        total == intensity_sum(scan.peaks@, p as int),
                        total <= p * 0xFFFF_FFFF,
                    decreases scan.peaks@.len() - p,
                {
                    total = total + scan.peaks[p].intensity as u128;
                    p += 1;
                }
                result.push(total);
            }
            k += 1;
        }
        result
    }
}

/// The number of scans that two lists of starts and counts describe.
pub open spec fn scans_described(scan_index: Seq<u32>, point_count: Seq<u32>) -> int {
    if scan_index.len() <= point_count.len() {
        scan_index.len() as int
    } else {
        point_count.len() as int
    }
}

/// Every described scan has a time, and its points lie within both lists of
/// values.
pub open spec fn points_fit(
    scan_index: Seq<u32>,
    point_count: Seq<u32>,
    scan_time: Seq<u64>,
    mass_values: Seq<u32>,
    intensity_values: Seq<u32>,
) -> bool {
    &&& scans_described(scan_index, point_count) <= scan_time.len()
    &&& forall|i: int|
        0 <= i < scans_described(scan_index, point_count) ==> {
            &&& scan_index[i] + point_count[i] <= mass_values.len()
            &&& scan_index[i] + point_count[i] <= intensity_values.len()
        }
}

/// The `count` peaks whose values begin at `start`.
pub open spec fn peaks_between(
    mass_values: Seq<u32>,
    intensity_values: Seq<u32>,
    start: int,
    count: int,
) -> Seq<Peak> {
    Seq::new(
        count as nat,
        |j: int| Peak { mz: mass_values[start + j], intensity: intensity_values[start + j] },
    )
}

/// `scan` is the scan at position `i` of a run given by points: numbered
/// from 1, of the first level, with its time and its peaks.
pub open spec fn is_scan_of_points(
    scan: Scan,
    i: int,
    scan_index: Seq<u32>,
    point_count: Seq<u32>,
    scan_time: Seq<u64>,
    mass_values: Seq<u32>,
    intensity_values: Seq<u32>,
) -> bool {
    &&& scan.num == i + 1
    &&& scan.ms_level == 1
    &&& scan.peaks_count == point_count[i]
    &&& scan.retention_time == scan_time[i]
    &&& scan.peaks@ == peaks_between(
        mass_values,
        intensity_values,
        scan_index[i] as int,
        point_count[i] as int,
    )
}

/// The scans of a run that is given by points: for each scan the position
/// of its first point and the number of its points in two lists of values,
/// and its time. Fails exactly where a scan has no time or its points lie
/// outside the values.
pub fn scans_from_points(
    scan_index: &[u32],
    point_count: &[u32],
    scan_time: &[u64],
    mass_values: &[u32],
    intensity_values: &[u32],
) -> (r: Result<Vec<Scan>, RoiError>)
    ensures
        match r {
            Ok(scans) => {
                &&& points_fit(
                    scan_index@,
                    point_count@,
                    scan_time@,
                    mass_values@,
                    intensity_values@,
                )
                &&& scans@.len() == scans_described(scan_index@, point_count@)
                &&& forall|i: int|
                    0 <= i < scans@.len() ==> is_scan_of_points(
                        #[trigger] scans@[i],
                        i,
                        scan_index@,
                        point_count@,
                        scan_time@,
                        mass_values@,
                        intensity_values@,
                    )
            },
            Err(e) => e == RoiError::DataShape && !points_fit(
                scan_index@,
                point_count@,
                scan_time@,
                mass_values@,
                intensity_values@,
            ),
        },
{
    let n: usize = if scan_index.len() <= point_count.len() {
        scan_index.len()
    } else {
        point_count.len()
    };
    if scan_time.len() < n {
        return Err(RoiError::DataShape);
    }
    let mut scans: Vec<Scan> = Vec::new();
    let mut i: usize = 0;
    while i < n
        invariant
            i <= n,
            n == scans_described(scan_index@, point_count@),
            n <= scan_time@.len(),
            scans@.len() == i,
            forall|q: int|
                0 <= q < i ==> {
                    &&& scan_index@[q] + point_count@[q] <= mass_values@.len()
                    &&& scan_index@[q] + point_count@[q] <= intensity_values@.len()
                },
            forall|q: int|
                0 <= q < i ==> is_scan_of_points(
                    #[trigger] scans@[q],
                    q,
                    scan_index@,
                    point_count@,
                    scan_time@,
                    mass_values@,
                    intensity_values@,
                ),
        decreases n - i,
    {
        let start: u64 = scan_index[i] as u64;
        let count: u64 = point_count[i] as u64;
        if start + count > mass_values.len() as u64 || start + count > intensity_values.len() as u64 {
            return Err(RoiError::DataShape);
        }
        let first: usize = start as usize;
        let many: usize = count as usize;
        let limit: usize = mass_values.len();
        let mut indices: Vec<usize> = Vec::new();
        let mut j: usize = 0;
        while j < many
            invariant
                j <= many,
                first + many <= limit,
                limit == mass_values@.len(),
                indices@.len() == j,
                forall|c: int| 0 <= c < j ==> indices@[c] == first + c,
            decreases many - j,
        {
            indices.push(first + j);
            j += 1;
        }
        let mz = subset(mass_values, indices.as_slice());
        let intensities = subset(intensity_values, indices.as_slice());
        let mut peaks: Vec<Peak> = Vec::new();
        let mut p: usize = 0;
        while p < many
            invariant
                p <= many,
                mz@.len() == many,
                intensities@.len() == many,
                peaks@.len() == p,
                forall|c: int|
                    0 <= c < p ==> peaks@[c] == (Peak { mz: mz@[c], intensity: intensities@[c] }),
            decreases many - p,
        {
            peaks.push(Peak { mz: mz[p], intensity: intensities[p] });
            p += 1;
        }
        assert(peaks@ =~= peaks_between(
            mass_values@,
            intensity_values@,
            first as int,
            many as int,
        ));
        let ghost held = scans@;
        scans.push(
            Scan {
                num: (i + 1) as u64,
                ms_level: 1,
                peaks_count: count,
                retention_time: scan_time[i],
                peaks,
            },
        );
        proof {
            assert forall|q: int| 0 <= q < i + 1 implies is_scan_of_points(
                #[trigger] scans@[q],
                q,
                scan_index@,
                point_count@,
                scan_time@,
                mass_values@,
                intensity_values@,
            ) by {
                if q < i {
                    assert(scans@[q] == held[q]);
                }
            }
        }
        i += 1;
    }
    Ok(scans)
}

} // verus!
