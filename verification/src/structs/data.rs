//! The collection of traces: for each trace four parallel lists of
//! observations and the representative mass last drawn from them.

use vstd::prelude::*;
use crate::enums::MzRoiUpdater;

verus! {

/// One trace as a value: its observations in the order they came, and its
/// representative mass.
pub struct RoiTrace {
    pub mzs: Seq<u32>,
    pub times: Seq<u64>,
    pub intensities: Seq<u32>,
    pub scans: Seq<usize>,
    pub mz: u32,
}

impl RoiTrace {
    /// A trace without observations.
    pub open spec fn empty() -> RoiTrace {
        RoiTrace {
            mzs: Seq::empty(),
            times: Seq::empty(),
            intensities: Seq::empty(),
            scans: Seq::empty(),
            mz: 0,
        }
    }

    /// A trace without observations that already reads the representative
    /// `mz`.
    pub open spec fn seed(mz: u32) -> RoiTrace {
        RoiTrace {
            mzs: Seq::empty(),
            times: Seq::empty(),
            intensities: Seq::empty(),
            scans: Seq::empty(),
            mz,
        }
    }

    /// The trace can be drawn from and counted: it has observations, in
    /// four lists of one length, none without intensity, and its
    /// representative is the one `updater` draws from them.
    pub open spec fn sound(self, updater: MzRoiUpdater) -> bool {
        &&& self.parallel()
        &&& self.mzs.len() > 0
        &&& forall|j: int| 0 <= j < self.intensities.len() ==> self.intensities[j] > 0
        &&& self.current(updater)
    }

    /// Every observation stems from a scan before `bound`.
    pub open spec fn scans_below(self, bound: int) -> bool {
        forall|j: int| 0 <= j < self.scans.len() ==> self.scans[j] < bound
    }

    /// The four lists have one length.
    pub open spec fn parallel(self) -> bool {
        &&& self.times.len() == self.mzs.len()
        &&& self.intensities.len() == self.mzs.len()
        &&& self.scans.len() == self.mzs.len()
    }

    /// The number of observations.
    pub open spec fn count(self) -> nat {
        self.mzs.len()
    }

    /// This trace with one more observation and the representative `mz`.
    pub open spec fn observed(
        self,
        mass: u32,
        time: u64,
        intensity: u32,
        scan: usize,
        mz: u32,
    ) -> RoiTrace {
        RoiTrace {
            mzs: self.mzs.push(mass),
            times: self.times.push(time),
            intensities: self.intensities.push(intensity),
            scans: self.scans.push(scan),
            mz,
        }
    }

    /// The representative is the one that `updater` draws from the
    /// observations, where there are any.
    pub open spec fn current(self, updater: MzRoiUpdater) -> bool {
        self.mzs.len() > 0 ==> updater.is_representative(self.mzs, self.intensities, self.mz)
    }
}

/// The traces of one computation, addressed by position. Positions are no
/// identities: sorting, merging and removing move the traces.
#[derive(Debug)]
pub struct Roicell {
    pub mzs: Vec<Vec<u32>>,
    pub times: Vec<Vec<u64>>,
    pub intensities: Vec<Vec<u32>>,
    pub scans: Vec<Vec<usize>>,
    pub mz_roi: Vec<u32>,
}

impl View for Roicell {
    type V = Seq<RoiTrace>;

    open spec fn view(&self) -> Seq<RoiTrace> {
        Seq::new(
            self.mzs@.len(),
            |i: int|
                RoiTrace {
                    mzs: self.mzs@[i]@,
                    times: self.times@[i]@,
                    intensities: self.intensities@[i]@,
                    scans: self.scans@[i]@,
                    mz: self.mz_roi@[i],
                },
        )
    }
}

impl Roicell {
    /// The five lists hold one entry per trace, and the four observation
    /// lists of each trace have one length.
    pub open spec fn parallel(&self) -> bool {
        &&& self.times@.len() == self.mzs@.len()
        &&& self.intensities@.len() == self.mzs@.len()
        &&& self.scans@.len() == self.mzs@.len()
        &&& self.mz_roi@.len() == self.mzs@.len()
        &&& forall|i: int| 0 <= i < self.mzs@.len() ==> (#[trigger] self@[i]).parallel()
    }

    /// No trace holds a representative other than the one `updater` draws
    /// from its observations.
    pub open spec fn current(&self, updater: MzRoiUpdater) -> bool {
        forall|i: int| 0 <= i < self@.len() ==> (#[trigger] self@[i]).current(updater)
    }

    /// A collection without traces.
    pub fn new() -> (cell: Roicell)
        ensures
            cell@ == Seq::<RoiTrace>::empty(),
            cell.parallel(),
    {
        let cell = Roicell {
            mzs: Vec::new(),
            times: Vec::new(),
            intensities: Vec::new(),
            scans: Vec::new(),
            mz_roi: Vec::new(),
        };
        assert(cell@ =~= Seq::<RoiTrace>::empty());
        cell
    }

    /// Draws the representative of trace `roi` anew from its observations.
    fn update_mzroi(&mut self, roi: usize, updater: &MzRoiUpdater)
        requires
            old(self).parallel(),
            roi < old(self)@.len(),
            updater.defined_on(old(self)@[roi as int].mzs, old(self)@[roi as int].intensities),
        ensures
            final(self).parallel(),
            final(self)@.len() == old(self)@.len(),
            final(self).mzs == old(self).mzs,
            final(self).times == old(self).times,
            final(self).intensities == old(self).intensities,
            final(self).scans == old(self).scans,
            final(self).mz_roi@ == old(self).mz_roi@.update(roi as int, final(self).mz_roi@[roi as int]),
            updater.is_representative(
                old(self)@[roi as int].mzs,
                old(self)@[roi as int].intensities,
                final(self).mz_roi@[roi as int],
            ),
    {
        let new_value = updater.calculate(
            self.mzs[roi].as_slice(),
            self.intensities[roi].as_slice(),
        );
        self.mz_roi[roi] = new_value;
        proof {
            assert forall|i: int| 0 <= i < self.mzs@.len() implies (#[trigger] self@[i]).parallel() by {
                assert(old(self)@[i].parallel());
            }
        }
    }

    /// Appends one observation to trace `roi` and draws its representative
    /// anew; every other trace stays as it is.
    pub fn update_roi(
        &mut self,
        roi: usize,
        updater: &MzRoiUpdater,
        mz: u32,
        time: u64,
        intensity: u32,
        scan: usize,
    )
        requires
            old(self).parallel(),
            roi < old(self)@.len(),
            updater.defined_on(
                old(self)@[roi as int].mzs.push(mz),
                old(self)@[roi as int].intensities.push(intensity),
            ),
        ensures
            final(self).parallel(),
            final(self)@ == old(self)@.update(
                roi as int,
                old(self)@[roi as int].observed(mz, time, intensity, scan, final(self)@[roi as int].mz),
            ),
            final(self)@[roi as int].current(*updater),
    {
        self.mzs[roi].push(mz);
        self.times[roi].push(time);
        self.intensities[roi].push(intensity);
        self.scans[roi].push(scan as usize);
        proof {
            assert forall|i: int| 0 <= i < self.mzs@.len() implies (#[trigger] self@[i]).parallel() by {
                assert(old(self)@[i].parallel());
            }
        }
        let ghost mid = self@;
        self.update_mzroi(roi, updater);
        proof {
            assert(self@ =~= old(self)@.update(
                roi as int,
                old(self)@[roi as int].observed(mz, time, intensity, scan, self@[roi as int].mz),
            ));
        }
    }

    /// Appends a trace without observations; its representative reads 0
    /// until an observation is appended.
    pub fn new_roi(&mut self)
        requires
            old(self).parallel(),
        ensures
            final(self).parallel(),
            final(self)@ == old(self)@.push(RoiTrace::empty()),
    {
        self.mzs.push(Vec::new());
        self.times.push(Vec::new());
        self.intensities.push(Vec::new());
        self.scans.push(Vec::new());
        self.mz_roi.push(0);
        proof {
            assert forall|i: int| 0 <= i < self.mzs@.len() implies (#[trigger] self@[i]).parallel() by {
                if i < old(self)@.len() {
                    assert(old(self)@[i].parallel());
                }
            }
            assert(self@ =~= old(self)@.push(RoiTrace::empty()));
        }
    }

    /// Appends the observations of trace `roi_remove` to those of trace
    /// `roi_keep`, draws the representative of the joined trace, and then
    /// gives up the position `roi_keep` with the joined trace in it: the traces
    /// behind that position, `roi_remove` among them where it lies behind,
    /// move up by one.
    pub fn merge_roi(&mut self, roi_keep: usize, roi_remove: usize, updater: &MzRoiUpdater)
        requires
            old(self).parallel(),
            roi_keep < old(self)@.len(),
            roi_remove < old(self)@.len(),
            updater.defined_on(
                old(self)@[roi_keep as int].mzs + old(self)@[roi_remove as int].mzs,
                old(self)@[roi_keep as int].intensities + old(self)@[roi_remove as int].intensities,
            ),
        ensures
            final(self).parallel(),
            final(self)@ == old(self)@.remove(roi_keep as int),
    {
        let ghost kept = old(self)@[roi_keep as int];
        let ghost gone = old(self)@[roi_remove as int];
        assert(kept.parallel() && gone.parallel());
        let n: usize = self.mzs[roi_remove].len();
        let mut k: usize = 0;
        while k < n
            invariant
                self.parallel(),
                self@.len() == old(self)@.len(),
                roi_keep < self@.len(),
                roi_remove < self@.len(),
                k <= n,
                n == gone.mzs.len(),
                gone.parallel(),
                kept == old(self)@[roi_keep as int],
                gone == old(self)@[roi_remove as int],
                forall|i: int| 0 <= i < self@.len() && i != roi_keep ==> self@[i] == old(self)@[i],
                self@[roi_keep as int].mzs == kept.mzs + gone.mzs.take(k as int),
                self@[roi_keep as int].times == kept.times + gone.times.take(k as int),
                self@[roi_keep as int].intensities == kept.intensities + gone.intensities.take(
                    k as int,
                ),
                self@[roi_keep as int].scans == kept.scans + gone.scans.take(k as int),
                self.mz_roi@ == old(self).mz_roi@,
            decreases n - k,
        {
            let ghost before = self@;
            assert(before[roi_remove as int].parallel());
            assert(before[roi_keep as int].parallel());
            proof {
                if roi_remove == roi_keep {
                    assert(kept == gone);
                    assert(kept.mzs.len() == n);
                    assert(before[roi_remove as int].mzs == kept.mzs + gone.mzs.take(k as int));
                    assert(before[roi_remove as int].mzs.len() == kept.mzs.len() + k);
                    assert(before[roi_remove as int].mzs[k as int] == gone.mzs[k as int]);
                    assert(before[roi_remove as int].times[k as int] == gone.times[k as int]);
                    assert(before[roi_remove as int].intensities[k as int]
                        == gone.intensities[k as int]);
                    assert(before[roi_remove as int].scans[k as int] == gone.scans[k as int]);
                } else {
                    assert(self@[roi_remove as int] == old(self)@[roi_remove as int]);
                    assert(before[roi_remove as int] == gone);
                }
                assert(self.mzs@[roi_remove as int]@ == before[roi_remove as int].mzs);
                assert(self.times@[roi_remove as int]@ == before[roi_remove as int].times);
            }
            let mz: u32 = self.mzs[roi_remove][k];
            let time: u64 = self.times[roi_remove][k];
            let intensity: u32 = self.intensities[roi_remove][k];
            let scan: usize = self.scans[roi_remove][k];
            self.mzs[roi_keep].push(mz);
            self.times[roi_keep].push(time);
            self.intensities[roi_keep].push(intensity);
            self.scans[roi_keep].push(scan);
            proof {
                assert(mz == gone.mzs[k as int]);
                assert(time == gone.times[k as int]);
                assert(intensity == gone.intensities[k as int]);
                assert(scan == gone.scans[k as int]);
                assert(self@[roi_keep as int].mzs =~= kept.mzs + gone.mzs.take(k + 1));
                assert(self@[roi_keep as int].times =~= kept.times + gone.times.take(k + 1));
                assert(self@[roi_keep as int].intensities =~= kept.intensities
                    + gone.intensities.take(k + 1));
                assert(self@[roi_keep as int].scans =~= kept.scans + gone.scans.take(k + 1));
                assert forall|i: int| 0 <= i < self.mzs@.len() implies (#[trigger] self@[i]).parallel() by {
                    assert(before[i].parallel());
                }
                assert forall|i: int| 0 <= i < self@.len() && i != roi_keep implies self@[i]
                    == old(self)@[i] by {
                    assert(self@[i] == before[i]);
                }
            }
            k += 1;
        }
        proof {
            assert(gone.mzs.take(n as int) =~= gone.mzs);
            assert(gone.intensities.take(n as int) =~= gone.intensities);
        }
        let ghost grown = self@;
        self.update_mzroi(roi_keep, updater);
        let ghost drawn = self@;
        self.remove_roi(roi_keep);
        proof {
            assert forall|i: int| 0 <= i < drawn.len() && i != roi_keep implies drawn[i] == old(
                self,
            )@[i] by {
                assert(drawn[i] == grown[i]);
            }
            assert(self@ =~= old(self)@.remove(roi_keep as int));
        }
    }

    /// Appends a trace without observations that reads the representative
    /// `mz`, for the next peak of that mass to join.
    pub fn seed_roi(&mut self, mz: u32)
        requires
            old(self).parallel(),
        ensures
            final(self).parallel(),
            final(self)@ == old(self)@.push(RoiTrace::seed(mz)),
    {
        self.mzs.push(Vec::new());
        self.times.push(Vec::new());
        self.intensities.push(Vec::new());
        self.scans.push(Vec::new());
        self.mz_roi.push(mz);
        proof {
            assert forall|i: int| 0 <= i < self.mzs@.len() implies (#[trigger] self@[i]).parallel() by {
                if i < old(self)@.len() {
                    assert(old(self)@[i].parallel());
                }
            }
            assert(self@ =~= old(self)@.push(RoiTrace::seed(mz)));
        }
    }

    /// Removes the trace at `roi`; the traces behind it move up by one.
    pub fn remove_roi(&mut self, roi: usize)
        requires
            old(self).parallel(),
            roi < old(self)@.len(),
        ensures
            final(self).parallel(),
            final(self)@ == old(self)@.remove(roi as int),
    {
        self.mzs.remove(roi);
        self.times.remove(roi);
        self.intensities.remove(roi);
        self.scans.remove(roi);
        self.mz_roi.remove(roi);
        proof {
            assert forall|i: int| 0 <= i < self.mzs@.len() implies (#[trigger] self@[i]).parallel() by {
                if i < roi {
                    assert(old(self)@[i].parallel());
                } else {
                    assert(old(self)@[i + 1].parallel());
                }
            }
            assert(self@ =~= old(self)@.remove(roi as int));
        }
    }
}

} // verus!
