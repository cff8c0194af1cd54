//! Regions of interest in mass-spectrometry runs: traces of one mass that
//! persist over the scans of a run. Masses, intensities and times are
//! fixed-point quantities: whole numbers of a unit that the caller chooses.

pub mod assign;
pub mod codec;
pub mod enums;
pub mod matrix;
pub mod passes;
pub mod structs;
pub mod utils;

use vstd::prelude::*;
use vstd::slice::slice_to_vec;
use crate::assign::{
    assign_scans, lemma_run_assigned_unique, run_assigned, scans_below, sound,
};
use crate::matrix::{assemble, is_matrix};
use crate::passes::{
    ascending, drawn_from, filter_rois, lemma_merged_ascends, lemma_survivors, masses,
    merge_close, merged, sort_rois, survives, survivors,
};
use crate::structs::data::{Roicell, RoiTrace};
use crate::structs::io::{peak_lists, Peak};
use crate::structs::options::RoiParams;
use crate::utils::{is_stable_argsort, lemma_stable_argsort_unique};

verus! {

/// Why a computation did not start.
#[derive(Clone, Copy, Debug, PartialEq, Eq, Structural)]
pub enum RoiError {
    /// A selector names no known tolerance unit or update rule.
    Configuration,
    /// There is no run, a run without scans, or a run whose times do not
    /// match its scans.
    DataShape,
    /// A text that should hold peaks could not be decoded.
    Parsing,
}

/// The time that stands for scan `scan` of run `run` where several runs are
/// pooled.
pub open spec fn pooled_time(run: int, scans_in_run: int, scan: int) -> int {
    scan + run * scans_in_run
}

/// Run `r` has scans, a time for each, and pooled times that fit.
pub open spec fn valid_run(peaks_list: Seq<Vec<Vec<Peak>>>, times_list: Seq<Vec<u64>>, r: int) -> bool {
    let n = peaks_list[r]@.len() as int;
    &&& n > 0
    &&& times_list[r]@.len() == n
    &&& (peaks_list.len() > 1 ==> pooled_time(r, n, n - 1) <= u64::MAX)
}

/// The input can be computed on: at least one run, as many lists of times
/// as runs, and every run valid.
pub open spec fn valid_shape(peaks_list: Seq<Vec<Vec<Peak>>>, times_list: Seq<Vec<u64>>) -> bool {
    &&& peaks_list.len() > 0
    &&& times_list.len() == peaks_list.len()
    &&& forall|r: int| 0 <= r < peaks_list.len() ==> valid_run(peaks_list, times_list, r)
}

/// The scans of the first `k` runs, one run after the other.
pub open spec fn pooled_scans(runs: Seq<Vec<Vec<Peak>>>, k: int) -> Seq<Seq<Peak>>
    decreases k,
{
    if k <= 0 {
        Seq::empty()
    } else {
        pooled_scans(runs, k - 1) + peak_lists(runs[k - 1]@)
    }
}

/// The pooled times of the scans of the run at `run` that holds `n` scans.
pub open spec fn run_times(run: int, n: int) -> Seq<u64> {
    Seq::new(n as nat, |s: int| pooled_time(run, n, s) as u64)
}

/// The pooled times of the first `k` runs, one run after the other.
pub open spec fn pooled_times(runs: Seq<Vec<Vec<Peak>>>, k: int) -> Seq<u64>
    decreases k,
{
    if k <= 0 {
        Seq::empty()
    } else {
        pooled_times(runs, k - 1) + run_times(k - 1, runs[k - 1]@.len() as int)
    }
}

/// The scans that are computed on: those of the one run, or of all runs
/// pooled.
pub open spec fn input_scans(peaks_list: Seq<Vec<Vec<Peak>>>) -> Seq<Seq<Peak>> {
    if peaks_list.len() > 1 {
        pooled_scans(peaks_list, peaks_list.len() as int)
    } else {
        peak_lists(peaks_list[0]@)
    }
}

/// The times that are computed on: those given for the one run, or the
/// pooled times where there are several.
pub open spec fn input_times(peaks_list: Seq<Vec<Vec<Peak>>>, times_list: Seq<Vec<u64>>) -> Seq<u64> {
    if peaks_list.len() > 1 {
        pooled_times(peaks_list, peaks_list.len() as int)
    } else {
        times_list[0]@
    }
}

/// The stages of a computation: `raw` are the traces after every scan was
/// assigned, `sorted` are these by ascending representative mass along
/// `order`, and `kept` are the survivors of the merged sorted traces.
pub open spec fn roi_stages(
    scans: Seq<Seq<Peak>>,
    times: Seq<u64>,
    settings: RoiParams,
    raw: Seq<RoiTrace>,
    order: Seq<usize>,
    sorted: Seq<RoiTrace>,
    kept: Seq<RoiTrace>,
) -> bool {
    &&& run_assigned(Seq::empty(), raw, settings, scans, times)
    &&& is_stable_argsort(masses(raw), order)
    &&& sorted.len() == raw.len()
    &&& forall|i: int| 0 <= i < raw.len() ==> sorted[i] == raw[order[i] as int]
    &&& kept == survivors(merged(sorted, settings.mz_error), settings)
}

/// `kept` are the traces that a computation over the scans ends with.
pub open spec fn is_roi_result(
    scans: Seq<Seq<Peak>>,
    times: Seq<u64>,
    settings: RoiParams,
    kept: Seq<RoiTrace>,
) -> bool {
    exists|raw: Seq<RoiTrace>, order: Seq<usize>, sorted: Seq<RoiTrace>|
        roi_stages(scans, times, settings, raw, order, sorted, kept)
}

/// Whether the input can be computed on.
pub fn check_shape(peaks_list: &Vec<Vec<Vec<Peak>>>, times_list: &Vec<Vec<u64>>) -> (ok: bool)
    ensures
        ok == valid_shape(peaks_list@, times_list@),
{
    let runs: usize = peaks_list.len();
    if runs == 0 || times_list.len() != runs {
        return false;
    }
    let mut r: usize = 0;
    while r < runs
        invariant
            r <= runs,
            runs == peaks_list@.len(),
            runs == times_list@.len(),
            forall|q: int| 0 <= q < r ==> valid_run(peaks_list@, times_list@, q),
        decreases runs - r,
    {
        let n: usize = peaks_list[r].len();
        if n == 0 || times_list[r].len() != n {
            assert(!valid_run(peaks_list@, times_list@, r as int));
            return false;
        }
        if runs > 1 {
            let wide_r: u128 = r as u128;
            let wide_n: u128 = n as u128;
            assert(wide_r * wide_n <= 0xFFFF_FFFF_FFFF_FFFFu128 * 0xFFFF_FFFF_FFFF_FFFFu128)
                by (nonlinear_arith)
                requires
                    wide_r <= 0xFFFF_FFFF_FFFF_FFFFu128,
                    wide_n <= 0xFFFF_FFFF_FFFF_FFFFu128,
            ;
            let last: u128 = (wide_n - 1) + wide_r * wide_n;
            if last > 0xFFFF_FFFF_FFFF_FFFFu128 {
                assert(!valid_run(peaks_list@, times_list@, r as int));
                return false;
            }
        }
        r += 1;
    }
    true
}

/// A copy of the scan.
pub fn copy_scan(scan: &Vec<Peak>) -> (copy: Vec<Peak>)
    ensures
        copy@ == scan@,
{
    let mut copy: Vec<Peak> = Vec::new();
    let mut k: usize = 0;
    while k < scan.len()
        invariant
            k <= scan@.len(),
            copy@ == scan@.take(k as int),
        decreases scan@.len() - k,
    {
        let peak: Peak = scan[k];
        copy.push(peak);
        assert(copy@ =~= scan@.take(k + 1));
        k += 1;
    }
    assert(scan@.take(scan@.len() as int) =~= scan@);
    copy
}

/// The scans of all runs, one run after the other, each with its pooled
/// time.
pub fn pool_runs(peaks_list: &Vec<Vec<Vec<Peak>>>) -> (pooled: (Vec<Vec<Peak>>, Vec<u64>))
    requires
        forall|r: int|
            0 <= r < peaks_list@.len() ==> pooled_time(
                r,
                (#[trigger] peaks_list@[r])@.len() as int,
                peaks_list@[r]@.len() - 1,
            ) <= u64::MAX,
    ensures
        peak_lists(pooled.0@) == pooled_scans(peaks_list@, peaks_list@.len() as int),
        pooled.1@ == pooled_times(peaks_list@, peaks_list@.len() as int),
        pooled.0@.len() == pooled.1@.len(),
{
    let mut scans: Vec<Vec<Peak>> = Vec::new();
    let mut times: Vec<u64> = Vec::new();
    let runs: usize = peaks_list.len();
    let mut r: usize = 0;
    assert(peak_lists(scans@) =~= pooled_scans(peaks_list@, 0));
    while r < runs
        invariant
            r <= runs,
            runs == peaks_list@.len(),
            forall|q: int|
                0 <= q < peaks_list@.len() ==> pooled_time(
                    q,
                    (#[trigger] peaks_list@[q])@.len() as int,
                    peaks_list@[q]@.len() - 1,
                ) <= u64::MAX,
            peak_lists(scans@) == pooled_scans(peaks_list@, r as int),
            times@ == pooled_times(peaks_list@, r as int),
            scans@.len() == times@.len(),
        decreases runs - r,
    {
        let run: &Vec<Vec<Peak>> = &peaks_list[r];
        let n: usize = run.len();
        let ghost scans_before = peak_lists(scans@);
        let ghost times_before = times@;
        let mut s: usize = 0;
        while s < n
            invariant
                s <= n,
                r < runs,
                n == run@.len(),
                run@ == peaks_list@[r as int]@,
                pooled_time(r as int, n as int, n - 1) <= u64::MAX,
                peak_lists(scans@) == scans_before + peak_lists(run@).take(s as int),
                times@ == times_before + run_times(r as int, n as int).take(s as int),
                scans@.len() == times@.len(),
            decreases n - s,
        {
            let ghost held = scans@;
            scans.push(copy_scan(&run[s]));
            assert(r * n + s <= r * n + (n - 1)) by (nonlinear_arith)
                requires
                    s < n,
            ;
            assert(r * n >= 0) by (nonlinear_arith)
                requires
                    r >= 0,
                    n >= 0,
            ;
            let time: u64 = (s as u64) + (r as u64) * (n as u64);
            times.push(time);
            proof {
                assert(time == run_times(r as int, n as int)[s as int]);
                assert(times@ =~= times_before + run_times(r as int, n as int).take(s + 1));
                assert(peak_lists(scans@) =~= scans_before + peak_lists(run@).take(s + 1)) by {
                    let now = peak_lists(scans@);
                    let was = peak_lists(held);
                    let goal = scans_before + peak_lists(run@).take(s + 1);
                    assert(was == scans_before + peak_lists(run@).take(s as int));
                    assert(was.len() == held.len());
                    assert(now.len() == goal.len());
                    assert forall|i: int| 0 <= i < now.len() implies now[i] == goal[i] by {
                        if i < held.len() {
                            assert(scans@[i] == held[i]);
                            assert(now[i] == was[i]);
                            assert(was[i] == goal[i]);
                        } else {
                            assert(now[i] == run@[s as int]@);
                            assert(peak_lists(run@)[s as int] == run@[s as int]@);
                        }
                    }
                }
            }
            s += 1;
        }
        proof {
            assert(peak_lists(run@).take(n as int) =~= peak_lists(run@));
            assert(run_times(r as int, n as int).take(n as int) =~= run_times(r as int, n as int));
        }
        r += 1;
    }
    (scans, times)
}

/// Computes the regions of interest of one run, or of several runs pooled:
/// assigns every scan, orders the traces by representative mass, merges
/// close neighbours, removes traces without support, and returns the
/// representative masses, the table of intensities by scan and trace, and
/// the traces themselves. Fails on input of a wrong shape, and on no other.
pub fn compute_roi(
    peaks_list: &Vec<Vec<Vec<Peak>>>,
    times_list: &Vec<Vec<u64>>,
    settings: RoiParams,
) -> (result: Result<(Vec<u32>, Vec<Vec<u128>>, Roicell), RoiError>)
    ensures
        match result {
            Ok((mzroi, msroi, roicell)) => {
                &&& valid_shape(peaks_list@, times_list@)
                &&& is_roi_result(
                    input_scans(peaks_list@),
                    input_times(peaks_list@, times_list@),
                    settings,
                    roicell@,
                )
                &&& roicell.parallel()
                &&& sound(roicell@, settings.mzroi_updater)
                &&& forall|i: int| 0 <= i < roicell@.len() ==> survives(#[trigger] roicell@[i], settings)
                &&& mzroi@ == masses(roicell@)
                &&& forall|i: int, j: int| 0 <= i < j < mzroi@.len() ==> mzroi@[i] <= mzroi@[j]
                &&& is_matrix(msroi@, roicell@, input_scans(peaks_list@).len() as int)
            },
            Err(e) => !valid_shape(peaks_list@, times_list@) && e == RoiError::DataShape,
        },
{
    if !check_shape(peaks_list, times_list) {
        return Err(RoiError::DataShape);
    }
    let mut roicell = Roicell::new();
    let n_scans: usize;
    if peaks_list.len() > 1 {
        proof {
            assert forall|r: int| 0 <= r < peaks_list@.len() implies pooled_time(
                r,
                (#[trigger] peaks_list@[r])@.len() as int,
                peaks_list@[r]@.len() - 1,
            ) <= u64::MAX by {
                assert(valid_run(peaks_list@, times_list@, r));
            }
        }
        let (scans, times) = pool_runs(peaks_list);
        assign_scans(&mut roicell, &settings, &scans, &times);
        n_scans = scans.len();
        assert(peak_lists(scans@).len() == n_scans);
    } else {
        assert(valid_run(peaks_list@, times_list@, 0));
        assign_scans(&mut roicell, &settings, &peaks_list[0], &times_list[0]);
        n_scans = peaks_list[0].len();
    }
    let ghost raw = roicell@;
    let order = sort_rois(&mut roicell);
    let ghost sorted = roicell@;
    proof {
        lemma_drawn_keeps(sorted, raw, settings, n_scans as int);
    }
    merge_close(&mut roicell, &settings);
    let ghost joined = roicell@;
    proof {
        lemma_drawn_keeps(joined, sorted, settings, n_scans as int);
    }
    filter_rois(&mut roicell, &settings);
    proof {
        lemma_drawn_keeps(roicell@, joined, settings, n_scans as int);
        assert(roi_stages(
            input_scans(peaks_list@),
            input_times(peaks_list@, times_list@),
            settings,
            raw,
            order@,
            sorted,
            roicell@,
        ));
        assert(masses(roicell@) =~= roicell.mz_roi@);
    }
    let mzroi: Vec<u32> = slice_to_vec(roicell.mz_roi.as_slice());
    let msroi = assemble(&roicell, n_scans);
    proof {
        assert forall|i: int, j: int| 0 <= i < j < mzroi@.len() implies mzroi@[i] <= mzroi@[j] by {
            assert(roicell@[i].mz <= roicell@[j].mz);
        }
    }
    Ok((mzroi, msroi, roicell))
}

/// What holds of every trace of a list holds of every list drawn from it:
/// soundness, and the bound on the scans.
pub proof fn lemma_drawn_keeps(
    post: Seq<RoiTrace>,
    pre: Seq<RoiTrace>,
    settings: RoiParams,
    bound: int,
)
    requires
        drawn_from(post, pre),
    ensures
        sound(pre, settings.mzroi_updater) ==> sound(post, settings.mzroi_updater),
        scans_below(pre, bound) ==> scans_below(post, bound),
{
    assert forall|i: int| 0 <= i < post.len() implies (sound(pre, settings.mzroi_updater) ==> (
    #[trigger] post[i]).sound(settings.mzroi_updater)) && (scans_below(pre, bound)
        ==> post[i].scans_below(bound)) by {
        assert(pre.contains(post[i]));
        let k = choose|k: int| 0 <= k < pre.len() && pre[k] == post[i];
        if sound(pre, settings.mzroi_updater) {
            assert(pre[k].sound(settings.mzroi_updater));
        }
        if scans_below(pre, bound) {
            assert(pre[k].scans_below(bound));
        }
    }
}

/// A computation has one outcome only: the scans, their times and the
/// settings fix the traces it ends with.
pub proof fn lemma_roi_result_unique(
    scans: Seq<Seq<Peak>>,
    times: Seq<u64>,
    settings: RoiParams,
    first: Seq<RoiTrace>,
    second: Seq<RoiTrace>,
)
    requires
        is_roi_result(scans, times, settings, first),
        is_roi_result(scans, times, settings, second),
    ensures
        first == second,
{
    let (raw1, order1, sorted1) = choose|raw: Seq<RoiTrace>, order: Seq<usize>, sorted: Seq<RoiTrace>|
        roi_stages(scans, times, settings, raw, order, sorted, first);
    let (raw2, order2, sorted2) = choose|raw: Seq<RoiTrace>, order: Seq<usize>, sorted: Seq<RoiTrace>|
        roi_stages(scans, times, settings, raw, order, sorted, second);
    lemma_run_assigned_unique(Seq::empty(), raw1, raw2, settings, scans, times);
    lemma_stable_argsort_unique(masses(raw1), order1, order2);
    assert(sorted1 =~= sorted2);
}

/// The traces that a computation ends with ascend in representative mass.
pub proof fn lemma_roi_result_ascends(
    scans: Seq<Seq<Peak>>,
    times: Seq<u64>,
    settings: RoiParams,
    kept: Seq<RoiTrace>,
)
    requires
        is_roi_result(scans, times, settings, kept),
    ensures
        ascending(kept),
{
    let (raw, order, sorted) = choose|raw: Seq<RoiTrace>, order: Seq<usize>, sorted: Seq<RoiTrace>|
        roi_stages(scans, times, settings, raw, order, sorted, kept);
    assert forall|i: int, j: int| 0 <= i < j < sorted.len() implies sorted[i].mz
        <= sorted[j].mz by {
        assert(order[i] < raw.len() && order[j] < raw.len());
        assert(masses(raw)[order[i] as int] <= masses(raw)[order[j] as int]);
    }
    lemma_merged_ascends(sorted, settings.mz_error, sorted.len());
    lemma_survivors(merged(sorted, settings.mz_error), settings, 0);
}

} // verus!
