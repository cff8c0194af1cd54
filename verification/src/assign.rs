//! The assignment of the peaks of a scan to traces: a peak joins every trace
//! whose representative mass lies within the window at the peak's mass, and
//! opens a trace of its own where there is none.

use vstd::prelude::*;
use crate::enums::{
    lemma_prefix_sum_agree, lemma_prefix_sum_bounds, lemma_representative_unique, prefix_dot,
    prefix_sum, MzErrorType, MzRoiUpdater,
};
use crate::utils::is_stable_argsort;
use crate::structs::data::{Roicell, RoiTrace};
use crate::structs::io::{peak_lists, Peak};
use crate::structs::options::RoiParams;

verus! {

/// The distance between two masses.
pub open spec fn gap(a: u32, b: u32) -> int {
    if a >= b {
        a - b
    } else {
        b - a
    }
}

/// A trace of representative `rep` takes a peak of mass `mz`: they lie no
/// further apart than the window at `mz`.
pub open spec fn within_window(rep: u32, mz: u32, tol: MzErrorType) -> bool {
    gap(rep, mz) <= tol.window(mz)
}

/// No representative in `traces` takes a peak of mass `mz`.
pub open spec fn unmatched(traces: Seq<RoiTrace>, mz: u32, tol: MzErrorType) -> bool {
    forall|i: int| 0 <= i < traces.len() ==> !within_window((#[trigger] traces[i]).mz, mz, tol)
}

/// `post` is `pre` after one peak was assigned: each trace that takes the peak
/// has it as its newest observation and a representative drawn anew, the
/// others are untouched; where no trace takes it, a new last trace holds it
/// alone.
pub open spec fn peak_assigned(
    pre: Seq<RoiTrace>,
    post: Seq<RoiTrace>,
    settings: RoiParams,
    mz: u32,
    time: u64,
    intensity: u32,
    scan: usize,
) -> bool {
    if unmatched(pre, mz, settings.mz_error) {
        &&& post.len() == pre.len() + 1
        &&& forall|i: int| 0 <= i < pre.len() ==> post[i] == pre[i]
        &&& post[pre.len() as int] == RoiTrace::empty().observed(
            mz,
            time,
            intensity,
            scan,
            post[pre.len() as int].mz,
        )
        &&& post[pre.len() as int].current(settings.mzroi_updater)
    } else {
        &&& post.len() == pre.len()
        &&& forall|i: int|
            0 <= i < pre.len() ==> if within_window(pre[i].mz, mz, settings.mz_error) {
                &&& (#[trigger] post[i]) == pre[i].observed(mz, time, intensity, scan, post[i].mz)
                &&& post[i].current(settings.mzroi_updater)
            } else {
                post[i] == pre[i]
            }
    }
}

/// Every trace is sound under `updater`.
pub open spec fn sound(traces: Seq<RoiTrace>, updater: MzRoiUpdater) -> bool {
    forall|i: int| 0 <= i < traces.len() ==> (#[trigger] traces[i]).sound(updater)
}

/// Every trace is sound under `updater` or is a seed that waits for a peak
/// of mass `mz`.
pub open spec fn sound_or_seed(traces: Seq<RoiTrace>, updater: MzRoiUpdater, mz: u32) -> bool {
    forall|i: int|
        0 <= i < traces.len() ==> (#[trigger] traces[i]).sound(updater) || traces[i]
            == RoiTrace::seed(mz)
}

/// Every observation of every trace stems from a scan before `bound`.
pub open spec fn scans_below(traces: Seq<RoiTrace>, bound: int) -> bool {
    forall|i: int| 0 <= i < traces.len() ==> (#[trigger] traces[i]).scans_below(bound)
}

/// A peak with intensity leaves sound traces behind: every trace it joins
/// has an observation then, and a seed of its own mass is among those it
/// joins.
pub proof fn lemma_peak_keeps_sound(
    pre: Seq<RoiTrace>,
    post: Seq<RoiTrace>,
    settings: RoiParams,
    mz: u32,
    time: u64,
    intensity: u32,
    scan: usize,
)
    requires
        peak_assigned(pre, post, settings, mz, time, intensity, scan),
        intensity > 0,
        sound_or_seed(pre, settings.mzroi_updater, mz),
    ensures
        sound(post, settings.mzroi_updater),
{
    let updater = settings.mzroi_updater;
    assert(within_window(mz, mz, settings.mz_error)) by {
        match settings.mz_error {
            MzErrorType::Dalton(x) => {},
            MzErrorType::Ppm(x) => {
                assert((x as int * mz as int) / 1_000_000 >= 0) by (nonlinear_arith)
                    requires
                        x >= 0,
                        mz >= 0,
                ;
            },
        }
    }
    assert forall|i: int| 0 <= i < post.len() implies (#[trigger] post[i]).sound(updater) by {
        if i < pre.len() {
            assert(pre[i].sound(updater) || pre[i] == RoiTrace::seed(mz));
            if within_window(pre[i].mz, mz, settings.mz_error) {
                assert(!unmatched(pre, mz, settings.mz_error));
                assert(post[i] == pre[i].observed(mz, time, intensity, scan, post[i].mz));
            } else {
                assert(post[i] == pre[i]);
            }
        }
    }
}

/// A peak of scan `scan` adds no observation of a later scan.
pub proof fn lemma_peak_keeps_scans(
    pre: Seq<RoiTrace>,
    post: Seq<RoiTrace>,
    settings: RoiParams,
    mz: u32,
    time: u64,
    intensity: u32,
    scan: usize,
)
    requires
        peak_assigned(pre, post, settings, mz, time, intensity, scan),
        scans_below(pre, scan + 1),
    ensures
        scans_below(post, scan + 1),
{
    assert forall|i: int| 0 <= i < post.len() implies (#[trigger] post[i]).scans_below(
        scan + 1,
    ) by {
        if i < pre.len() {
            assert(pre[i].scans_below(scan + 1));
            if within_window(pre[i].mz, mz, settings.mz_error) {
                assert(!unmatched(pre, mz, settings.mz_error));
                assert(post[i] == pre[i].observed(mz, time, intensity, scan, post[i].mz));
            } else {
                assert(post[i] == pre[i]);
            }
        }
    }
}

/// The positions of all representatives in `mzroi` that take a peak of mass
/// `mz`, in ascending order.
pub fn compatible_rois(mzroi: &[u32], mz: u32, mz_error: &MzErrorType) -> (found: Vec<usize>)
    ensures
        forall|j: int|
            0 <= j < found@.len() ==> (#[trigger] found@[j]) < mzroi@.len() && within_window(
                mzroi@[found@[j] as int],
                mz,
                *mz_error,
            ),
        forall|a: int, b: int| 0 <= a < b < found@.len() ==> found@[a] < found@[b],
        forall|i: int|
            0 <= i < mzroi@.len() && within_window(#[trigger] mzroi@[i], mz, *mz_error)
                ==> found@.contains(i as usize),
{
    let width: u64 = mz_error.get_error(&mz);
    let mut found: Vec<usize> = Vec::new();
    let mut k: usize = 0;
    while k < mzroi.len()
        invariant
            k <= mzroi@.len(),
            width == mz_error.window(mz),
            forall|j: int|
                0 <= j < found@.len() ==> (#[trigger] found@[j]) < k && within_window(
                    mzroi@[found@[j] as int],
                    mz,
                    *mz_error,
                ),
            forall|a: int, b: int| 0 <= a < b < found@.len() ==> found@[a] < found@[b],
            forall|i: int|
                0 <= i < k && within_window(#[trigger] mzroi@[i], mz, *mz_error)
                    ==> found@.contains(i as usize),
        decreases mzroi@.len() - k,
    {
        let rep: u32 = mzroi[k];
        let apart: u64 = if rep >= mz {
            (rep - mz) as u64
        } else {
            (mz - rep) as u64
        };
        if apart <= width {
            let ghost before = found@;
            found.push(k);
            proof {
                assert(found@[before.len() as int] == k);
                assert forall|i: int|
                    0 <= i < k + 1 && within_window(
                        #[trigger] mzroi@[i],
                        mz,
                        *mz_error,
                    ) implies found@.contains(i as usize) by {
                    if i < k {
                        let w = choose|w: int| 0 <= w < before.len() && before[w] == i as usize;
                        assert(found@[w] == i as usize);
                    }
                }
            }
        }
        k += 1;
    }
    found
}

/// Assigns one peak: appends it to every trace that takes it, or opens a new
/// trace with it where none does. Where intensities are weights, the peak
/// must have one.
pub fn assign_peak(
    roicell: &mut Roicell,
    settings: &RoiParams,
    mz: u32,
    time: u64,
    intensity: u32,
    scan: usize,
)
    requires
        old(roicell).parallel(),
        settings.mzroi_updater is Weighted ==> intensity > 0,
    ensures
        final(roicell).parallel(),
        peak_assigned(old(roicell)@, final(roicell)@, *settings, mz, time, intensity, scan),
{
    let ghost pre = roicell@;
    let total: usize = roicell.mzs.len();
    let found = compatible_rois(roicell.mz_roi.as_slice(), mz, &settings.mz_error);
    if found.len() == 0 {
        proof {
            assert forall|i: int| 0 <= i < pre.len() implies !within_window(
                (#[trigger] pre[i]).mz,
                mz,
                settings.mz_error,
            ) by {
                if within_window(roicell.mz_roi@[i], mz, settings.mz_error) {
                    assert(found@.contains(i as usize));
                }
            }
        }
        roicell.new_roi();
        assert(roicell@.len() == pre.len() + 1);
        let last: usize = roicell.mzs.len() - 1;
        proof {
            let ints = Seq::<u32>::empty().push(intensity);
            assert(prefix_sum(ints, 1) == prefix_sum(ints, 0) + ints[0]);
        }
        roicell.update_roi(last, &settings.mzroi_updater, mz, time, intensity, scan);
    } else {
        proof {
            assert(within_window(pre[found@[0] as int].mz, mz, settings.mz_error));
        }
        let mut j: usize = 0;
        while j < found.len()
            invariant
                j <= found@.len(),
                settings.mzroi_updater is Weighted ==> intensity > 0,
                roicell.parallel(),
                pre == old(roicell)@,
                pre.len() == total,
                forall|i: int| 0 <= i < pre.len() ==> (#[trigger] pre[i]).parallel(),
                roicell@.len() == pre.len(),
                forall|c: int|
                    0 <= c < found@.len() ==> (#[trigger] found@[c]) < pre.len() && within_window(
                        pre[found@[c] as int].mz,
                        mz,
                        settings.mz_error,
                    ),
                forall|a: int, b: int| 0 <= a < b < found@.len() ==> found@[a] < found@[b],
                forall|i: int|
                    0 <= i < pre.len() && within_window((#[trigger] pre[i]).mz, mz, settings.mz_error)
                        ==> found@.contains(i as usize),
                forall|i: int|
                    0 <= i < pre.len() ==> if within_window(pre[i].mz, mz, settings.mz_error) && (j
                        == found@.len() || i < found@[j as int]) {
                        &&& (#[trigger] roicell@[i]) == pre[i].observed(
                            mz,
                            time,
                            intensity,
                            scan,
                            roicell@[i].mz,
                        )
                        &&& roicell@[i].current(settings.mzroi_updater)
                    } else {
                        roicell@[i] == pre[i]
                    },
            decreases found@.len() - j,
        {
            let roi: usize = found[j];
            let ghost mid = roicell@;
            proof {
                assert(within_window(pre[found@[j as int] as int].mz, mz, settings.mz_error));
                assert(mid[roi as int] == pre[roi as int]);
                assert(pre[roi as int].parallel());
                let ints = pre[roi as int].intensities;
                let grown = ints.push(intensity);
                lemma_prefix_sum_bounds(ints, ints.len() as int);
                lemma_prefix_sum_agree(ints, grown, ints.len() as int);
                assert(prefix_sum(grown, grown.len() as int) == prefix_sum(
                    grown,
                    grown.len() - 1,
                ) + grown[grown.len() - 1]);
            }
            roicell.update_roi(roi, &settings.mzroi_updater, mz, time, intensity, scan);
            proof {
                assert forall|i: int| 0 <= i < pre.len() implies if within_window(
                    pre[i].mz,
                    mz,
                    settings.mz_error,
                ) && (j + 1 == found@.len() || i < found@[j + 1]) {
                    &&& (#[trigger] roicell@[i]) == pre[i].observed(
                        mz,
                        time,
                        intensity,
                        scan,
                        roicell@[i].mz,
                    )
                    &&& roicell@[i].current(settings.mzroi_updater)
                } else {
                    roicell@[i] == pre[i]
                } by {
                    if j + 1 < found@.len() {
                        assert(found@[j as int] < found@[j + 1]);
                    }
                    if i != roi {
                        assert(roicell@[i] == mid[i]);
                        if within_window(pre[i].mz, mz, settings.mz_error) && i > roi {
                            assert(found@.contains(i as usize));
                            let c = choose|c: int| 0 <= c < found@.len() && found@[c] == i as usize;
                            if c < j {
                                assert(found@[c] < found@[j as int]);
                            } else if c > j + 1 {
                                assert(found@[j + 1] < found@[c]);
                            }
                            assert(c >= j + 1);
                            assert(found@[j + 1] <= i);
                        }
                    } else {
                        assert(roicell@[i] == mid[i].observed(
                            mz,
                            time,
                            intensity,
                            scan,
                            roicell@[i].mz,
                        ));
                    }
                }
            }
            j += 1;
        }
    }
}

/// The position of the first peak at or behind `k` whose intensity is above
/// `threshold`; the number of peaks where there is none.
pub open spec fn first_counted(peaks: Seq<Peak>, threshold: u32, k: int) -> int
    decreases peaks.len() - k,
{
    if k >= peaks.len() {
        peaks.len() as int
    } else if peaks[k].intensity > threshold {
        k
    } else {
        first_counted(peaks, threshold, k + 1)
    }
}

/// The traces with which the matching of a scan begins: in the second scan
/// of a seeding computation that has a counted peak, one more trace, a seed
/// at the mass of the first counted peak; else `pre` itself.
pub open spec fn seeded(pre: Seq<RoiTrace>, settings: RoiParams, peaks: Seq<Peak>, scan: usize) -> Seq<
    RoiTrace,
> {
    let first = first_counted(peaks, settings.threshold, 0);
    if settings.seed_second_scan && scan == 1 && first < peaks.len() {
        pre.push(RoiTrace::seed(peaks[first].mz))
    } else {
        pre
    }
}

/// `next` is `prev` after the peak was looked at: assigned where its
/// intensity is above the threshold, passed over where not.
pub open spec fn peak_step(
    prev: Seq<RoiTrace>,
    next: Seq<RoiTrace>,
    settings: RoiParams,
    peak: Peak,
    time: u64,
    scan: usize,
) -> bool {
    if peak.intensity > settings.threshold {
        peak_assigned(prev, next, settings, peak.mz, time, peak.intensity, scan)
    } else {
        next == prev
    }
}

/// `chain` holds the traces before each peak of the scan and after the last.
pub open spec fn scan_chain(
    chain: Seq<Seq<RoiTrace>>,
    pre: Seq<RoiTrace>,
    post: Seq<RoiTrace>,
    settings: RoiParams,
    peaks: Seq<Peak>,
    time: u64,
    scan: usize,
) -> bool {
    &&& chain.len() == peaks.len() + 1
    &&& chain[0] == seeded(pre, settings, peaks, scan)
    &&& chain[peaks.len() as int] == post
    &&& forall|j: int|
        0 <= j < peaks.len() ==> peak_step(
            #[trigger] chain[j],
            chain[j + 1],
            settings,
            peaks[j],
            time,
            scan,
        )
}

/// `post` is `pre` after the scan: seeded where the scan calls for it, then
/// each peak in turn looked at.
pub open spec fn scan_assigned(
    pre: Seq<RoiTrace>,
    post: Seq<RoiTrace>,
    settings: RoiParams,
    peaks: Seq<Peak>,
    time: u64,
    scan: usize,
) -> bool {
    exists|chain: Seq<Seq<RoiTrace>>| scan_chain(chain, pre, post, settings, peaks, time, scan)
}

/// No peak before the first counted one is counted, and that one is.
pub proof fn lemma_first_counted(peaks: Seq<Peak>, threshold: u32, k: int)
    requires
        0 <= k <= peaks.len(),
    ensures
        k <= first_counted(peaks, threshold, k) <= peaks.len(),
        forall|j: int|
            k <= j < first_counted(peaks, threshold, k) ==> (#[trigger] peaks[j]).intensity
                <= threshold,
        first_counted(peaks, threshold, k) < peaks.len() ==> peaks[first_counted(
            peaks,
            threshold,
            k,
        )].intensity > threshold,
    decreases peaks.len() - k,
{
    if k < peaks.len() && peaks[k].intensity <= threshold {
        lemma_first_counted(peaks, threshold, k + 1);
    }
}

/// Assigns the peaks of one scan, in their order, after seeding where the
/// scan calls for it. Sound traces stay sound, and no observation of a
/// later scan appears.
pub fn assign_scan(
    roicell: &mut Roicell,
    settings: &RoiParams,
    peaks: &Vec<Peak>,
    time: u64,
    scan: usize,
)
    requires
        old(roicell).parallel(),
    ensures
        final(roicell).parallel(),
        scan_assigned(old(roicell)@, final(roicell)@, *settings, peaks@, time, scan),
        sound(old(roicell)@, settings.mzroi_updater) ==> sound(
            final(roicell)@,
            settings.mzroi_updater,
        ),
        scans_below(old(roicell)@, scan + 1) ==> scans_below(final(roicell)@, scan + 1),
{
    let ghost pre = roicell@;
    let ghost updater = settings.mzroi_updater;
    let n: usize = peaks.len();
    let mut first: usize = 0;
    while first < n && peaks[first].intensity <= settings.threshold
        invariant
            first <= n,
            n == peaks@.len(),
            first_counted(peaks@, settings.threshold, 0) == first_counted(
                peaks@,
                settings.threshold,
                first as int,
            ),
        decreases n - first,
    {
        first += 1;
    }
    let ghost seed_mz: u32 = if first < n {
        peaks@[first as int].mz
    } else {
        0
    };
    proof {
        lemma_first_counted(peaks@, settings.threshold, 0);
    }
    if settings.seed_second_scan && scan == 1 && first < n {
        roicell.seed_roi(peaks[first].mz);
    }
    let ghost mut chain: Seq<Seq<RoiTrace>> = seq![roicell@];
    proof {
        assert(roicell@ == seeded(pre, *settings, peaks@, scan));
        if sound(pre, updater) {
            assert forall|i: int| 0 <= i < roicell@.len() implies (#[trigger] roicell@[i]).sound(
                updater,
            ) || roicell@[i] == RoiTrace::seed(seed_mz) by {
                if i < pre.len() {
                    assert(pre[i].sound(updater));
                }
            }
        }
        if scans_below(pre, scan + 1) {
            assert forall|i: int| 0 <= i < roicell@.len() implies (#[trigger] roicell@[i]).scans_below(
                scan + 1,
            ) by {
                if i < pre.len() {
                    assert(pre[i].scans_below(scan + 1));
                }
            }
        }
    }
    let mut j: usize = 0;
    while j < n
        invariant
            j <= n,
            first <= n,
            n == peaks@.len(),
            pre == old(roicell)@,
            updater == settings.mzroi_updater,
            roicell.parallel(),
            first == first_counted(peaks@, settings.threshold, 0),
            forall|c: int| 0 <= c < first ==> (#[trigger] peaks@[c]).intensity <= settings.threshold,
            first < n ==> seed_mz == peaks@[first as int].mz && peaks@[first as int].intensity
                > settings.threshold,
            chain.len() == j + 1,
            chain[0] == seeded(pre, *settings, peaks@, scan),
            chain[j as int] == roicell@,
            forall|c: int|
                0 <= c < j ==> peak_step(
                    #[trigger] chain[c],
                    chain[c + 1],
                    *settings,
                    peaks@[c],
                    time,
                    scan,
                ),
            sound(pre, updater) ==> if j <= first {
                sound_or_seed(roicell@, updater, seed_mz)
            } else {
                sound(roicell@, updater)
            },
            scans_below(pre, scan + 1) ==> scans_below(roicell@, scan + 1),
        decreases n - j,
    {
        let peak: Peak = peaks[j];
        let ghost prev = roicell@;
        if peak.intensity > settings.threshold {
            assign_peak(roicell, settings, peak.mz, time, peak.intensity, scan);
            proof {
                if sound(pre, updater) {
                    assert(j >= first);
                    if j > first {
                        assert(sound_or_seed(prev, updater, peak.mz)) by {
                            assert forall|i: int| 0 <= i < prev.len() implies (#[trigger] prev[i]).sound(
                                updater,
                            ) || prev[i] == RoiTrace::seed(peak.mz) by {}
                        }
                    }
                    lemma_peak_keeps_sound(
                        prev,
                        roicell@,
                        *settings,
                        peak.mz,
                        time,
                        peak.intensity,
                        scan,
                    );
                }
                if scans_below(pre, scan + 1) {
                    lemma_peak_keeps_scans(
                        prev,
                        roicell@,
                        *settings,
                        peak.mz,
                        time,
                        peak.intensity,
                        scan,
                    );
                }
            }
        } else {
            proof {
                assert(j != first);
                if sound(pre, updater) && j > first {
                    assert(sound(roicell@, updater));
                }
            }
        }
        proof {
            let grown = chain.push(roicell@);
            assert forall|c: int| 0 <= c < j + 1 implies peak_step(
                #[trigger] grown[c],
                grown[c + 1],
                *settings,
                peaks@[c],
                time,
                scan,
            ) by {
                if c < j {
                    assert(peak_step(chain[c], chain[c + 1], *settings, peaks@[c], time, scan));
                    assert(grown[c] == chain[c]);
                    assert(grown[c + 1] == chain[c + 1]);
                } else {
                    assert(grown[c] == prev);
                }
            }
            chain = grown;
        }
        j += 1;
    }
    proof {
        assert(scan_chain(chain, pre, roicell@, *settings, peaks@, time, scan));
        if sound(pre, updater) && n <= first {
            assert(first == n);
            assert(roicell@ == pre) by {
                lemma_chain_idle(chain, *settings, peaks@, time, scan, n as int);
            }
        }
    }
}

/// A chain over peaks of which none is counted stands still.
pub proof fn lemma_chain_idle(
    chain: Seq<Seq<RoiTrace>>,
    settings: RoiParams,
    peaks: Seq<Peak>,
    time: u64,
    scan: usize,
    upto: int,
)
    requires
        0 <= upto <= peaks.len(),
        chain.len() == peaks.len() + 1,
        forall|j: int|
            0 <= j < upto ==> peak_step(
                #[trigger] chain[j],
                chain[j + 1],
                settings,
                peaks[j],
                time,
                scan,
            ),
        forall|j: int| 0 <= j < upto ==> (#[trigger] peaks[j]).intensity <= settings.threshold,
    ensures
        chain[upto] == chain[0],
    decreases upto,
{
    if upto > 0 {
        lemma_chain_idle(chain, settings, peaks, time, scan, upto - 1);
        assert(peak_step(chain[upto - 1], chain[upto], settings, peaks[upto - 1], time, scan));
    }
}

/// `chain` holds the traces before each scan and after the last.
pub open spec fn run_chain(
    chain: Seq<Seq<RoiTrace>>,
    pre: Seq<RoiTrace>,
    post: Seq<RoiTrace>,
    settings: RoiParams,
    scans: Seq<Seq<Peak>>,
    times: Seq<u64>,
) -> bool {
    &&& chain.len() == scans.len() + 1
    &&& chain[0] == pre
    &&& chain[scans.len() as int] == post
    &&& forall|s: int|
        0 <= s < scans.len() ==> scan_assigned(
            #[trigger] chain[s],
            chain[s + 1],
            settings,
            scans[s],
            times[s],
            s as usize,
        )
}

/// `post` is `pre` after every scan, in the order of the scans, was
/// assigned with its time and its position as scan number.
pub open spec fn run_assigned(
    pre: Seq<RoiTrace>,
    post: Seq<RoiTrace>,
    settings: RoiParams,
    scans: Seq<Seq<Peak>>,
    times: Seq<u64>,
) -> bool {
    exists|chain: Seq<Seq<RoiTrace>>| run_chain(chain, pre, post, settings, scans, times)
}

/// Assigns the scans of a run in their order. Sound traces stay sound, and
/// where there was no observation yet, every observation stems from one of
/// these scans.
pub fn assign_scans(
    roicell: &mut Roicell,
    settings: &RoiParams,
    scans: &Vec<Vec<Peak>>,
    times: &Vec<u64>,
)
    requires
        old(roicell).parallel(),
        times@.len() == scans@.len(),
    ensures
        final(roicell).parallel(),
        run_assigned(old(roicell)@, final(roicell)@, *settings, peak_lists(scans@), times@),
        sound(old(roicell)@, settings.mzroi_updater) ==> sound(
            final(roicell)@,
            settings.mzroi_updater,
        ),
        scans_below(old(roicell)@, 0) ==> scans_below(final(roicell)@, scans@.len() as int),
{
    let ghost pre = roicell@;
    let ghost mut chain: Seq<Seq<RoiTrace>> = seq![roicell@];
    let n: usize = scans.len();
    let mut s: usize = 0;
    while s < n
        invariant
            s <= n,
            n == scans@.len(),
            n == times@.len(),
            pre == old(roicell)@,
            roicell.parallel(),
            chain.len() == s + 1,
            chain[0] == pre,
            chain[s as int] == roicell@,
            forall|c: int|
                0 <= c < s ==> scan_assigned(
                    #[trigger] chain[c],
                    chain[c + 1],
                    *settings,
                    scans@[c]@,
                    times@[c],
                    c as usize,
                ),
            sound(pre, settings.mzroi_updater) ==> sound(roicell@, settings.mzroi_updater),
            scans_below(pre, 0) ==> scans_below(roicell@, s as int),
        decreases n - s,
    {
        let ghost prev = roicell@;
        proof {
            if scans_below(pre, 0) {
                assert forall|i: int| 0 <= i < prev.len() implies (#[trigger] prev[i]).scans_below(
                    s + 1,
                ) by {
                    assert(prev[i].scans_below(s as int));
                }
            }
        }
        assign_scan(roicell, settings, &scans[s], times[s], s);
        proof {
            let grown = chain.push(roicell@);
            assert forall|c: int| 0 <= c < s + 1 implies scan_assigned(
                #[trigger] grown[c],
                grown[c + 1],
                *settings,
                scans@[c]@,
                times@[c],
                c as usize,
            ) by {
                if c < s {
                    assert(scan_assigned(
                        chain[c],
                        chain[c + 1],
                        *settings,
                        scans@[c]@,
                        times@[c],
                        c as usize,
                    ));
                    assert(grown[c] == chain[c]);
                    assert(grown[c + 1] == chain[c + 1]);
                } else {
                    assert(grown[c] == prev);
                }
            }
            chain = grown;
        }
        s += 1;
    }
    proof {
        let views = peak_lists(scans@);
        assert forall|c: int| 0 <= c < views.len() implies scan_assigned(
            #[trigger] chain[c],
            chain[c + 1],
            *settings,
            views[c],
            times@[c],
            c as usize,
        ) by {
            assert(views[c] == scans@[c]@);
        }
        assert(run_chain(chain, pre, roicell@, *settings, views, times@));
    }
}

/// Whatever the rule, a single observation with intensity is its own
/// representative.
pub proof fn lemma_single_observation(updater: MzRoiUpdater, mz: u32, intensity: u32, r: u32)
    requires
        intensity > 0,
        updater.is_representative(seq![mz], seq![intensity], r),
    ensures
        r == mz,
{
    let values = seq![mz];
    let weights = seq![intensity];
    assert(values.len() == 1 && weights.len() == 1);
    assert(prefix_sum(values, 0) == 0);
    assert(prefix_sum(weights, 0) == 0);
    assert(prefix_dot(values, weights, 0) == 0);
    assert(prefix_sum(values, 1) == prefix_sum(values, 0) + values[0]);
    assert(prefix_sum(weights, 1) == prefix_sum(weights, 0) + weights[0]);
    assert(prefix_dot(values, weights, 1) == prefix_dot(
        values,
        weights,
        0,
    ) + values[0] * weights[0]);
    match updater {
        MzRoiUpdater::Mean => {
            assert(r == prefix_sum(values, 1) / 1);
        },
        MzRoiUpdater::Median => {
            let order = choose|order: Seq<usize>|
                is_stable_argsort(values, order) && r == values[#[trigger] order[0]
                    as int];
            assert(order[0] < 1);
        },
        MzRoiUpdater::Max => {},
        MzRoiUpdater::Weighted => {
            assert((mz * intensity) / (intensity as int) == mz) by (nonlinear_arith)
                requires
                    intensity > 0,
            ;
        },
    }
}

/// Two counted peaks that meet no earlier trace: the first opens a trace,
/// and the second joins it exactly if it lies within the window at its own
/// mass of the first; else it opens a second trace, and the two share none.
pub proof fn lemma_two_peaks(
    post: Seq<RoiTrace>,
    settings: RoiParams,
    a: Peak,
    b: Peak,
    time: u64,
    scan: usize,
)
    requires
        a.intensity > settings.threshold,
        b.intensity > settings.threshold,
        scan_assigned(Seq::empty(), post, settings, seq![a, b], time, scan),
    ensures
        within_window(a.mz, b.mz, settings.mz_error) ==> post.len() == 1 && post[0].mzs == seq![
            a.mz,
            b.mz,
        ],
        !within_window(a.mz, b.mz, settings.mz_error) ==> post.len() == 2 && post[0].mzs
            == seq![a.mz] && post[1].mzs == seq![b.mz],
{
    let peaks = seq![a, b];
    let none = Seq::<RoiTrace>::empty();
    let chain = choose|chain: Seq<Seq<RoiTrace>>|
        scan_chain(chain, none, post, settings, peaks, time, scan);
    let start = chain[0];
    let mid = chain[1];
    assert(peak_step(chain[0], chain[1], settings, peaks[0], time, scan));
    assert(peak_step(chain[1], chain[2], settings, peaks[1], time, scan));
    assert(first_counted(peaks, settings.threshold, 0) == 0);
    assert(mid.len() == 1 && mid[0].mzs =~= seq![a.mz] && mid[0].intensities =~= seq![
        a.intensity,
    ] && mid[0].current(settings.mzroi_updater)) by {
        if settings.seed_second_scan && scan == 1 {
            assert(start =~= seq![RoiTrace::seed(a.mz)]);
            assert(within_window(a.mz, a.mz, settings.mz_error)) by {
                match settings.mz_error {
                    MzErrorType::Dalton(x) => {},
                    MzErrorType::Ppm(x) => {
                        assert((x as int * a.mz as int) / 1_000_000 >= 0) by (nonlinear_arith)
                            requires
                                x >= 0,
                                a.mz >= 0,
                        ;
                    },
                }
            }
            assert(within_window(start[0].mz, a.mz, settings.mz_error));
            assert(!unmatched(start, a.mz, settings.mz_error));
            assert(mid[0] == start[0].observed(a.mz, time, a.intensity, scan, mid[0].mz));
        } else {
            assert(start =~= none);
            assert(unmatched(start, a.mz, settings.mz_error));
        }
    }
    lemma_single_observation(settings.mzroi_updater, a.mz, a.intensity, mid[0].mz);
    if within_window(a.mz, b.mz, settings.mz_error) {
        assert(within_window(mid[0].mz, b.mz, settings.mz_error));
        assert(!unmatched(mid, b.mz, settings.mz_error));
        assert(post[0] == mid[0].observed(b.mz, time, b.intensity, scan, post[0].mz));
        assert(post[0].mzs =~= seq![a.mz, b.mz]);
    } else {
        assert(unmatched(mid, b.mz, settings.mz_error));
        assert(post[0] == mid[0]);
        assert(post[1].mzs =~= seq![b.mz]);
    }
}

/// The four lists of every trace have one length.
pub open spec fn all_parallel(traces: Seq<RoiTrace>) -> bool {
    forall|i: int| 0 <= i < traces.len() ==> (#[trigger] traces[i]).parallel()
}

/// The assignment of a peak has one outcome only, and it keeps the lists
/// of every trace at one length.
pub proof fn lemma_peak_assigned_unique(
    pre: Seq<RoiTrace>,
    first: Seq<RoiTrace>,
    second: Seq<RoiTrace>,
    settings: RoiParams,
    mz: u32,
    time: u64,
    intensity: u32,
    scan: usize,
)
    requires
        all_parallel(pre),
        peak_assigned(pre, first, settings, mz, time, intensity, scan),
        peak_assigned(pre, second, settings, mz, time, intensity, scan),
    ensures
        first == second,
        all_parallel(first),
{
    let updater = settings.mzroi_updater;
    assert(first.len() == second.len());
    assert forall|i: int| 0 <= i < first.len() implies first[i] == second[i] && (
    #[trigger] first[i]).parallel() by {
        if i < pre.len() {
            assert(pre[i].parallel());
            if unmatched(pre, mz, settings.mz_error) {
                assert(first[i] == pre[i] && second[i] == pre[i]);
            } else if within_window(pre[i].mz, mz, settings.mz_error) {
                assert(first[i] == pre[i].observed(mz, time, intensity, scan, first[i].mz));
                assert(second[i] == pre[i].observed(mz, time, intensity, scan, second[i].mz));
                lemma_representative_unique(
                    updater,
                    first[i].mzs,
                    first[i].intensities,
                    first[i].mz,
                    second[i].mz,
                );
            } else {
                assert(first[i] == pre[i] && second[i] == pre[i]);
            }
        } else {
            assert(unmatched(pre, mz, settings.mz_error));
            let a = first[pre.len() as int];
            let b = second[pre.len() as int];
            assert(a == RoiTrace::empty().observed(mz, time, intensity, scan, a.mz));
            assert(b == RoiTrace::empty().observed(mz, time, intensity, scan, b.mz));
            lemma_representative_unique(updater, a.mzs, a.intensities, a.mz, b.mz);
        }
    }
    assert(first =~= second);
}

/// Two chains over the same scan from the same traces agree up to `upto`.
pub proof fn lemma_scan_chains_agree(
    one: Seq<Seq<RoiTrace>>,
    two: Seq<Seq<RoiTrace>>,
    settings: RoiParams,
    peaks: Seq<Peak>,
    time: u64,
    scan: usize,
    upto: int,
)
    requires
        0 <= upto <= peaks.len(),
        one.len() == peaks.len() + 1,
        two.len() == peaks.len() + 1,
        one[0] == two[0],
        all_parallel(one[0]),
        forall|j: int|
            0 <= j < peaks.len() ==> peak_step(
                #[trigger] one[j],
                one[j + 1],
                settings,
                peaks[j],
                time,
                scan,
            ),
        forall|j: int|
            0 <= j < peaks.len() ==> peak_step(
                #[trigger] two[j],
                two[j + 1],
                settings,
                peaks[j],
                time,
                scan,
            ),
    ensures
        one[upto] == two[upto],
        all_parallel(one[upto]),
    decreases upto,
{
    if upto > 0 {
        lemma_scan_chains_agree(one, two, settings, peaks, time, scan, upto - 1);
        let j = upto - 1;
        assert(peak_step(one[j], one[j + 1], settings, peaks[j], time, scan));
        assert(peak_step(two[j], two[j + 1], settings, peaks[j], time, scan));
        if peaks[j].intensity > settings.threshold {
            lemma_peak_assigned_unique(
                one[j],
                one[j + 1],
                two[j + 1],
                settings,
                peaks[j].mz,
                time,
                peaks[j].intensity,
                scan,
            );
        }
    }
}

/// The assignment of a scan has one outcome only, and it keeps the lists
/// of every trace at one length.
pub proof fn lemma_scan_assigned_unique(
    pre: Seq<RoiTrace>,
    first: Seq<RoiTrace>,
    second: Seq<RoiTrace>,
    settings: RoiParams,
    peaks: Seq<Peak>,
    time: u64,
    scan: usize,
)
    requires
        all_parallel(pre),
        scan_assigned(pre, first, settings, peaks, time, scan),
        scan_assigned(pre, second, settings, peaks, time, scan),
    ensures
        first == second,
        all_parallel(first),
{
    let one = choose|chain: Seq<Seq<RoiTrace>>|
        scan_chain(chain, pre, first, settings, peaks, time, scan);
    let two = choose|chain: Seq<Seq<RoiTrace>>|
        scan_chain(chain, pre, second, settings, peaks, time, scan);
    assert(all_parallel(one[0])) by {
        let start = seeded(pre, settings, peaks, scan);
        assert forall|i: int| 0 <= i < start.len() implies (#[trigger] start[i]).parallel() by {
            if i < pre.len() {
                assert(pre[i].parallel());
            }
        }
    }
    lemma_scan_chains_agree(one, two, settings, peaks, time, scan, peaks.len() as int);
}

/// Two chains over the same scans from the same traces agree up to `upto`.
pub proof fn lemma_run_chains_agree(
    one: Seq<Seq<RoiTrace>>,
    two: Seq<Seq<RoiTrace>>,
    settings: RoiParams,
    scans: Seq<Seq<Peak>>,
    times: Seq<u64>,
    upto: int,
)
    requires
        0 <= upto <= scans.len(),
        one.len() == scans.len() + 1,
        two.len() == scans.len() + 1,
        one[0] == two[0],
        all_parallel(one[0]),
        forall|s: int|
            0 <= s < scans.len() ==> scan_assigned(
                #[trigger] one[s],
                one[s + 1],
                settings,
                scans[s],
                times[s],
                s as usize,
            ),
        forall|s: int|
            0 <= s < scans.len() ==> scan_assigned(
                #[trigger] two[s],
                two[s + 1],
                settings,
                scans[s],
                times[s],
                s as usize,
            ),
    ensures
        one[upto] == two[upto],
        all_parallel(one[upto]),
    decreases upto,
{
    if upto > 0 {
        lemma_run_chains_agree(one, two, settings, scans, times, upto - 1);
        let s = upto - 1;
        assert(scan_assigned(one[s], one[s + 1], settings, scans[s], times[s], s as usize));
        assert(scan_assigned(two[s], two[s + 1], settings, scans[s], times[s], s as usize));
        lemma_scan_assigned_unique(
            one[s],
            one[s + 1],
            two[s + 1],
            settings,
            scans[s],
            times[s],
            s as usize,
        );
    }
}

/// The assignment of a run has one outcome only.
pub proof fn lemma_run_assigned_unique(
    pre: Seq<RoiTrace>,
    first: Seq<RoiTrace>,
    second: Seq<RoiTrace>,
    settings: RoiParams,
    scans: Seq<Seq<Peak>>,
    times: Seq<u64>,
)
    requires
        all_parallel(pre),
        run_assigned(pre, first, settings, scans, times),
        run_assigned(pre, second, settings, scans, times),
    ensures
        first == second,
{
    let one = choose|chain: Seq<Seq<RoiTrace>>|
        run_chain(chain, pre, first, settings, scans, times);
    let two = choose|chain: Seq<Seq<RoiTrace>>|
        run_chain(chain, pre, second, settings, scans, times);
    lemma_run_chains_agree(one, two, settings, scans, times, scans.len() as int);
}

} // verus!
