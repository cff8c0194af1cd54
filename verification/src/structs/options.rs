//! The settings of one computation.

use vstd::prelude::*;
use crate::enums::{MzErrorType, MzRoiUpdater};

verus! {

/// The settings of one computation; they do not change while it runs.
#[derive(Clone, Copy, Debug)]
pub struct RoiParams {
    /// A peak counts only if its intensity is above this.
    pub threshold: u32,
    /// A trace survives only if its largest intensity is above `threshold`
    /// times this.
    pub t_factor: u32,
    /// The width of the mass window.
    pub mz_error: MzErrorType,
    /// How a trace's representative mass is drawn from its observations.
    pub mzroi_updater: MzRoiUpdater,
    /// A trace survives only with more observations than this.
    pub min_occ: u32,
    /// Whether the second scan opens a trace at its first counted peak before
    /// its peaks are matched.
    pub seed_second_scan: bool,
}

impl RoiParams {
    /// The settings of a computation for which none are chosen, for masses
    /// held in `units_per_dalton` parts of a dalton and intensities held in
    /// counts: peaks above 1000 counts, a floor of the same height, a window
    /// of half a dalton, the mean as representative, more than one
    /// observation, and the seed in the second scan.
    pub fn defaults(units_per_dalton: u32) -> (settings: RoiParams)
        ensures
            settings == (RoiParams {
                threshold: 1000,
                t_factor: 1,
                mz_error: MzErrorType::Dalton(units_per_dalton / 2),
                mzroi_updater: MzRoiUpdater::Mean,
                min_occ: 1,
                seed_second_scan: true,
            }),
    {
        RoiParams {
            threshold: 1000,
            t_factor: 1,
            mz_error: MzErrorType::Dalton(units_per_dalton / 2),
            mzroi_updater: MzRoiUpdater::Mean,
            min_occ: 1,
            seed_second_scan: true,
        }
    }

    /// The intensity that the largest observation of a surviving trace must
    /// exceed.
    pub open spec fn intensity_floor(self) -> int {
        self.threshold as int * self.t_factor as int
    }
}

} // verus!
