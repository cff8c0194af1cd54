//! The two rules a run is configured with: how wide the mass window is at a
//! given mass, and which single mass stands for the observations of a trace.

use vstd::prelude::*;
use crate::utils::{argsort, is_stable_argsort, lemma_stable_argsort_unique};
use crate::RoiError;

verus! {

/// The sum of the first `k` items of `s`.
pub open spec fn prefix_sum(s: Seq<u32>, k: int) -> int
    decreases k,
{
    if k <= 0 {
        0
    } else {
        prefix_sum(s, k - 1) + s[k - 1]
    }
}

/// The sum of the products of the first `k` pairs of `a` and `b`.
pub open spec fn prefix_dot(a: Seq<u32>, b: Seq<u32>, k: int) -> int
    decreases k,
{
    if k <= 0 {
        0
    } else {
        prefix_dot(a, b, k - 1) + a[k - 1] * b[k - 1]
    }
}

/// `p` is the last position at which `s` takes its largest value.
pub open spec fn is_last_argmax(s: Seq<u32>, p: int) -> bool {
    &&& 0 <= p < s.len()
    &&& forall|q: int| 0 <= q < s.len() ==> s[q] <= s[p]
    &&& forall|q: int| p < q < s.len() ==> s[q] < s[p]
}

/// The sum of a prefix is not negative.
pub proof fn lemma_prefix_sum_bounds(s: Seq<u32>, k: int)
    requires
        0 <= k <= s.len(),
    ensures
        0 <= prefix_sum(s, k),
    decreases k,
{
    if k > 0 {
        lemma_prefix_sum_bounds(s, k - 1);
    }
}

/// The sum of a prefix reads only that prefix.
pub proof fn lemma_prefix_sum_agree(a: Seq<u32>, b: Seq<u32>, k: int)
    requires
        0 <= k <= a.len(),
        k <= b.len(),
        forall|i: int| 0 <= i < k ==> a[i] == b[i],
    ensures
        prefix_sum(a, k) == prefix_sum(b, k),
    decreases k,
{
    if k > 0 {
        lemma_prefix_sum_agree(a, b, k - 1);
    }
}

/// Where all items are positive and there is one, the sum is positive.
pub proof fn lemma_positive_sum(s: Seq<u32>, k: int)
    requires
        0 < k <= s.len(),
        forall|j: int| 0 <= j < s.len() ==> s[j] > 0,
    ensures
        prefix_sum(s, k) > 0,
{
    lemma_prefix_sum_bounds(s, k - 1);
}

/// What `str::to_lowercase` of std makes of a text.
pub uninterp spec fn lowercase_of(text: Seq<char>) -> Seq<char>;

/// `str::to_lowercase` of std: the text in lower case, a function of the
/// text alone.
#[verifier::external_body]
fn lowercase(text: &str) -> (lower: String)
    ensures
        lower@ == lowercase_of(text@),
{
    text.to_lowercase()
}

/// The width of the mass window.
#[derive(Clone, Copy, Debug, PartialEq, Eq, Structural)]
pub enum MzErrorType {
    /// The same width at every mass.
    Dalton(u32),
    /// A width in millionths of the mass it is asked at.
    Ppm(u32),
}

impl MzErrorType {
    /// The window at mass `mz`: the configured width itself, or that many
    /// millionths of `mz`, rounded down.
    pub open spec fn window(self, mz: u32) -> int {
        match self {
            MzErrorType::Dalton(x) => x as int,
            MzErrorType::Ppm(x) => (x as int * mz as int) / 1_000_000,
        }
    }

    /// The window of width `tol` that the unit in lower case selects: `da`
    /// for a fixed width, `ppm` for millionths of the mass.
    pub open spec fn selected(tol: u32, lower: Seq<char>) -> Result<MzErrorType, RoiError> {
        if lower == "da"@ {
            Ok(MzErrorType::Dalton(tol))
        } else if lower == "ppm"@ {
            Ok(MzErrorType::Ppm(tol))
        } else {
            Err(RoiError::Configuration)
        }
    }

    /// The window of width `tol` in the unit that `lower` names in lower
    /// case.
    pub fn from_lowercase(tol: u32, lower: &String) -> (r: Result<MzErrorType, RoiError>)
        ensures
            r == MzErrorType::selected(tol, lower@),
    {
        let da: String = "da".to_owned();
        let ppm: String = "ppm".to_owned();
        if *lower == da {
            Ok(MzErrorType::Dalton(tol))
        } else if *lower == ppm {
            Ok(MzErrorType::Ppm(tol))
        } else {
            Err(RoiError::Configuration)
        }
    }

    /// The window of width `tol` in the unit that `units` names, in any
    /// case of letters.
    pub fn from_units(tol: u32, units: &str) -> (r: Result<MzErrorType, RoiError>)
        ensures
            r == MzErrorType::selected(tol, lowercase_of(units@)),
    {
        let lower = lowercase(units);
        MzErrorType::from_lowercase(tol, &lower)
    }

    /// The width of the window at mass `mz`.
    pub fn get_error(&self, mz: &u32) -> (width: u64)
        ensures
            width == self.window(*mz),
    {
        match self {
            MzErrorType::Dalton(x) => *x as u64,
            MzErrorType::Ppm(x) => {
                let x64: u64 = *x as u64;
                let mz64: u64 = *mz as u64;
                assert(x64 * mz64 <= 0xFFFF_FFFFu64 * 0xFFFF_FFFFu64) by (nonlinear_arith)
                    requires
                        x64 <= 0xFFFF_FFFFu64,
                        mz64 <= 0xFFFF_FFFFu64,
                ;
                (x64 * mz64) / 1_000_000
            },
        }
    }
}

/// How the representative mass of a trace is drawn from its observations.
#[derive(Clone, Copy, Debug, PartialEq, Eq, Structural)]
pub enum MzRoiUpdater {
    Mean,
    Median,
    Weighted,
    Max,
}

impl MzRoiUpdater {
    /// The rule that the name in lower case selects.
    pub open spec fn selected(lower: Seq<char>) -> Result<MzRoiUpdater, RoiError> {
        if lower == "mean"@ {
            Ok(MzRoiUpdater::Mean)
        } else if lower == "max"@ {
            Ok(MzRoiUpdater::Max)
        } else if lower == "median"@ {
            Ok(MzRoiUpdater::Median)
        } else if lower == "weighted"@ {
            Ok(MzRoiUpdater::Weighted)
        } else {
            Err(RoiError::Configuration)
        }
    }

    /// The rule that `lower` names in lower case.
    pub fn from_lowercase(lower: &String) -> (r: Result<MzRoiUpdater, RoiError>)
        ensures
            r == MzRoiUpdater::selected(lower@),
    {
        let mean: String = "mean".to_owned();
        let max: String = "max".to_owned();
        let median: String = "median".to_owned();
        let weighted: String = "weighted".to_owned();
        if *lower == mean {
            Ok(MzRoiUpdater::Mean)
        } else if *lower == max {
            Ok(MzRoiUpdater::Max)
        } else if *lower == median {
            Ok(MzRoiUpdater::Median)
        } else if *lower == weighted {
            Ok(MzRoiUpdater::Weighted)
        } else {
            Err(RoiError::Configuration)
        }
    }

    /// The rule that `name` names, in any case of letters.
    pub fn from_name(name: &str) -> (r: Result<MzRoiUpdater, RoiError>)
        ensures
            r == MzRoiUpdater::selected(lowercase_of(name@)),
    {
        let lower = lowercase(name);
        MzRoiUpdater::from_lowercase(&lower)
    }

    /// The observations on which the rule has a value: at least one mass, an
    /// intensity for each, and intensities that do not all vanish where they
    /// are used as weights.
    pub open spec fn defined_on(self, values: Seq<u32>, intensities: Seq<u32>) -> bool {
        &&& values.len() > 0
        &&& values.len() == intensities.len()
        &&& (self is Weighted ==> prefix_sum(intensities, intensities.len() as int) > 0)
    }

    /// `r` is the representative of the observations under this rule: the
    /// mean of the masses rounded down; the mass in the middle of the masses
    /// in ascending order (the upper of the two middle ones); the mass of the
    /// last most intense observation; or the mean of the masses weighted by
    /// intensity, rounded down.
    pub open spec fn is_representative(
        self,
        values: Seq<u32>,
        intensities: Seq<u32>,
        r: u32,
    ) -> bool {
        let n = values.len() as int;
        match self {
            MzRoiUpdater::Mean => r == prefix_sum(values, n) / n,
            MzRoiUpdater::Median => exists|order: Seq<usize>|
                is_stable_argsort(values, order) && r == values[#[trigger] order[n / 2] as int],
            MzRoiUpdater::Max => exists|p: int|
                is_last_argmax(intensities, p) && r == #[trigger] values[p],
            MzRoiUpdater::Weighted => r == prefix_dot(values, intensities, n) / prefix_sum(
                intensities,
                n,
            ),
        }
    }

    /// The representative of the observations under this rule.
    pub fn calculate(&self, values: &[u32], intensities: &[u32]) -> (r: u32)
        requires
            self.defined_on(values@, intensities@),
        ensures
            self.is_representative(values@, intensities@, r),
    {
        match self {
            MzRoiUpdater::Mean => mean_of(values),
            MzRoiUpdater::Median => {
                let order = argsort(values);
                values[order[order.len() / 2]]
            },
            MzRoiUpdater::Max => values[last_argmax(intensities)],
            MzRoiUpdater::Weighted => weighted_mean_of(values, intensities),
        }
    }
}

/// The mean of `values`, rounded down.
pub fn mean_of(values: &[u32]) -> (r: u32)
    requires
        values@.len() > 0,
    ensures
        r == prefix_sum(values@, values@.len() as int) / (values@.len() as int),
{
    let n: usize = values.len();
    let mut total: u128 = 0;
    let mut k: usize = 0;
    while k < n
        invariant
            k <= n,
            n == values@.len(),
            total == prefix_sum(values@, k as int),
            total <= k * 0xFFFF_FFFF,
        decreases n - k,
    {
        total = total + values[k] as u128;
        k += 1;
    }
    let count: u128 = n as u128;
    assert(total / count <= 0xFFFF_FFFF) by (nonlinear_arith)
        requires
            total <= count * 0xFFFF_FFFF,
            count > 0,
    ;
    (total / count) as u32
}

/// The last position at which `s` is largest.
pub fn last_argmax(s: &[u32]) -> (p: usize)
    requires
        s@.len() > 0,
    ensures
        is_last_argmax(s@, p as int),
{
    let mut p: usize = 0;
    let mut q: usize = 1;
    while q < s.len()
        invariant
            p < q <= s@.len(),
            forall|j: int| 0 <= j < q ==> s@[j] <= s@[p as int],
            forall|j: int| p < j < q ==> s@[j] < s@[p as int],
        decreases s@.len() - q,
    {
        if s[q] >= s[p] {
            p = q;
        }
        q += 1;
    }
    p
}

/// The mean of `values` weighted by `weights`, rounded down.
pub fn weighted_mean_of(values: &[u32], weights: &[u32]) -> (r: u32)
    requires
        values@.len() == weights@.len(),
        prefix_sum(weights@, weights@.len() as int) > 0,
    ensures
        r == prefix_dot(values@, weights@, values@.len() as int) / prefix_sum(
            weights@,
            weights@.len() as int,
        ),
{
    let n: usize = values.len();
    let mut above: u128 = 0;
    let mut below: u128 = 0;
    let mut k: usize = 0;
    while k < n
        invariant
            k <= n,
            n == values@.len(),
            n == weights@.len(),
            above == prefix_dot(values@, weights@, k as int),
            below == prefix_sum(weights@, k as int),
            below <= k * 0xFFFF_FFFF,
            above <= below * 0xFFFF_FFFF,
        decreases n - k,
    {
        let v: u128 = values[k] as u128;
        let w: u128 = weights[k] as u128;
        assert(v * w <= w * 0xFFFF_FFFF) by (nonlinear_arith)
            requires
                v <= 0xFFFF_FFFF,
                w >= 0,
        ;
        assert((below + w) * 0xFFFF_FFFF == below * 0xFFFF_FFFF + w * 0xFFFF_FFFF)
            by (nonlinear_arith);
        assert((below + w) * 0xFFFF_FFFF <= (k + 1) * 0xFFFF_FFFF * 0xFFFF_FFFF)
            by (nonlinear_arith)
            requires
                below + w <= (k + 1) * 0xFFFF_FFFF,
        ;
        assert((k + 1) * 0xFFFF_FFFF * 0xFFFF_FFFF <= 0xFFFF_FFFF_FFFF_FFFF * 0xFFFF_FFFF
            * 0xFFFF_FFFF) by (nonlinear_arith)
            requires
                k + 1 <= 0xFFFF_FFFF_FFFF_FFFF,
        ;
        above = above + v * w;
        below = below + w;
        k += 1;
    }
    assert(above / below <= 0xFFFF_FFFF) by (nonlinear_arith)
        requires
            above <= below * 0xFFFF_FFFF,
            below > 0,
    ;
    (above / below) as u32
}

/// A rule draws one representative only from given observations.
pub proof fn lemma_representative_unique(
    updater: MzRoiUpdater,
    values: Seq<u32>,
    intensities: Seq<u32>,
    r1: u32,
    r2: u32,
)
    requires
        values.len() == intensities.len(),
        updater.is_representative(values, intensities, r1),
        updater.is_representative(values, intensities, r2),
    ensures
        r1 == r2,
{
    let n = values.len() as int;
    match updater {
        MzRoiUpdater::Mean => {},
        MzRoiUpdater::Median => {
            let a = choose|order: Seq<usize>|
                is_stable_argsort(values, order) && r1 == values[#[trigger] order[n / 2] as int];
            let b = choose|order: Seq<usize>|
                is_stable_argsort(values, order) && r2 == values[#[trigger] order[n / 2] as int];
            lemma_stable_argsort_unique(values, a, b);
        },
        MzRoiUpdater::Max => {
            let p = choose|p: int| is_last_argmax(intensities, p) && r1 == #[trigger] values[p];
            let q = choose|q: int| is_last_argmax(intensities, q) && r2 == #[trigger] values[q];
            if p < q {
                assert(intensities[q] < intensities[p]);
                assert(intensities[p] <= intensities[q]);
            } else if q < p {
                assert(intensities[p] < intensities[q]);
                assert(intensities[q] <= intensities[p]);
            }
        },
        MzRoiUpdater::Weighted => {},
    }
}

} // verus!
