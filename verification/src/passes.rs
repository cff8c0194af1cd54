//! The passes over the finished traces: the ordering by representative mass,
//! the merging of neighbours that lie close, and the removal of traces with
//! too little support.

use vstd::prelude::*;
use crate::assign::{gap, sound};
use crate::enums::{lemma_positive_sum, MzErrorType};
use crate::structs::data::{Roicell, RoiTrace};
use crate::structs::options::RoiParams;
use crate::utils::{argsort, is_stable_argsort, sort_by_indices};

verus! {

/// The representative masses of the traces, in their order.
pub open spec fn masses(traces: Seq<RoiTrace>) -> Seq<u32> {
    Seq::new(traces.len(), |i: int| traces[i].mz)
}

/// The representative masses do not fall from one trace to the next.
pub open spec fn ascending(traces: Seq<RoiTrace>) -> bool {
    forall|i: int, j: int| 0 <= i < j < traces.len() ==> traces[i].mz <= traces[j].mz
}

/// Every trace of `post` is a trace of `pre`.
pub open spec fn drawn_from(post: Seq<RoiTrace>, pre: Seq<RoiTrace>) -> bool {
    forall|i: int| 0 <= i < post.len() ==> pre.contains(#[trigger] post[i])
}

/// Orders the traces by ascending representative mass, traces of equal mass
/// in their earlier order, and returns for each new position the position
/// its trace came from.
pub fn sort_rois(roicell: &mut Roicell) -> (order: Vec<usize>)
    requires
        old(roicell).parallel(),
    ensures
        final(roicell).parallel(),
        is_stable_argsort(masses(old(roicell)@), order@),
        final(roicell)@.len() == old(roicell)@.len(),
        forall|i: int|
            0 <= i < old(roicell)@.len() ==> final(roicell)@[i] == old(roicell)@[order@[i] as int],
        ascending(final(roicell)@),
        drawn_from(final(roicell)@, old(roicell)@),
{
    let ghost pre = roicell@;
    assert(masses(pre) =~= roicell.mz_roi@);
    let order = argsort(roicell.mz_roi.as_slice());
    sort_by_indices(roicell.mzs.as_mut_slice(), order.as_slice());
    sort_by_indices(roicell.times.as_mut_slice(), order.as_slice());
    sort_by_indices(roicell.intensities.as_mut_slice(), order.as_slice());
    sort_by_indices(roicell.scans.as_mut_slice(), order.as_slice());
    sort_by_indices(roicell.mz_roi.as_mut_slice(), order.as_slice());
    proof {
        assert forall|i: int| 0 <= i < pre.len() implies roicell@[i] == pre[order@[i] as int] by {
            assert(order@[i] < pre.len());
        }
        assert forall|i: int| 0 <= i < roicell.mzs@.len() implies (#[trigger] roicell@[i]).parallel() by {
            assert(pre[order@[i] as int].parallel());
        }
        assert forall|i: int, j: int| 0 <= i < j < roicell@.len() implies roicell@[i].mz
            <= roicell@[j].mz by {
            assert(order@[i] < pre.len());
            assert(order@[j] < pre.len());
            assert(masses(pre)[order@[i] as int] <= masses(pre)[order@[j] as int]);
        }
        assert forall|i: int| 0 <= i < roicell@.len() implies pre.contains(
            #[trigger] roicell@[i],
        ) by {
            assert(pre[order@[i] as int] == roicell@[i]);
        }
    }
    order
}

/// The position of the first trace at or behind `k` that lies closer to its
/// successor than the window at the representative mass of the last trace
/// but one; the number of traces where there is none.
pub open spec fn close_pair_from(traces: Seq<RoiTrace>, tol: MzErrorType, k: int) -> int
    decreases traces.len() - k,
{
    if k + 1 >= traces.len() {
        traces.len() as int
    } else if gap(traces[k].mz, traces[k + 1].mz) < tol.window(traces[traces.len() - 2].mz) {
        k
    } else {
        close_pair_from(traces, tol, k + 1)
    }
}

/// The traces after at most `rounds` rounds of merging: each round gives up
/// the first trace of the first close pair.
pub open spec fn merged_in(traces: Seq<RoiTrace>, tol: MzErrorType, rounds: nat) -> Seq<RoiTrace>
    decreases rounds,
{
    let k = close_pair_from(traces, tol, 0);
    if rounds > 0 && 0 <= k && k + 1 < traces.len() {
        merged_in(traces.remove(k), tol, (rounds - 1) as nat)
    } else {
        traces
    }
}

/// The traces after merging until no pair lies close.
pub open spec fn merged(traces: Seq<RoiTrace>, tol: MzErrorType) -> Seq<RoiTrace> {
    merged_in(traces, tol, traces.len())
}

/// The first close pair of the traces, or their number where there is none.
pub fn first_close_pair(roicell: &Roicell, mz_error: &MzErrorType) -> (k: usize)
    requires
        roicell.parallel(),
    ensures
        k == close_pair_from(roicell@, *mz_error, 0),
        k + 1 < roicell@.len() || k == roicell@.len(),
{
    let n: usize = roicell.mz_roi.len();
    if n < 2 {
        return n;
    }
    let width: u64 = mz_error.get_error(&roicell.mz_roi[n - 2]);
    let mut k: usize = 0;
    while k + 1 < n
        invariant
            n >= 2,
            n == roicell@.len(),
            n == roicell.mz_roi@.len(),
            k + 1 <= n,
            width == mz_error.window(roicell@[n - 2].mz),
            close_pair_from(roicell@, *mz_error, 0) == close_pair_from(
                roicell@,
                *mz_error,
                k as int,
            ),
        decreases n - k,
    {
        let a: u32 = roicell.mz_roi[k];
        let b: u32 = roicell.mz_roi[k + 1];
        let apart: u64 = if a >= b {
            (a - b) as u64
        } else {
            (b - a) as u64
        };
        assert(roicell@[k as int].mz == a && roicell@[k + 1].mz == b);
        if apart < width {
            return k;
        }
        k += 1;
    }
    n
}

/// Merges until no pair of neighbours lies close, and returns the number of
/// rounds: each round ends with one trace less, so there are fewer rounds
/// than traces.
pub fn merge_close(roicell: &mut Roicell, settings: &RoiParams) -> (rounds: usize)
    requires
        old(roicell).parallel(),
        sound(old(roicell)@, settings.mzroi_updater),
    ensures
        final(roicell).parallel(),
        final(roicell)@ == merged(old(roicell)@, settings.mz_error),
        close_pair_from(final(roicell)@, settings.mz_error, 0) == final(roicell)@.len(),
        rounds + final(roicell)@.len() == old(roicell)@.len(),
        old(roicell)@.len() > 0 ==> rounds <= old(roicell)@.len() - 1,
        sound(final(roicell)@, settings.mzroi_updater),
        ascending(old(roicell)@) ==> ascending(final(roicell)@),
        drawn_from(final(roicell)@, old(roicell)@),
{
    let ghost pre = roicell@;
    let total: usize = roicell.mz_roi.len();
    let mut rounds: usize = 0;
    proof {
        assert forall|i: int| 0 <= i < roicell@.len() implies pre.contains(
            #[trigger] roicell@[i],
        ) by {
            assert(pre[i] == roicell@[i]);
        }
    }
    loop
        invariant_except_break
            merged_in(pre, settings.mz_error, pre.len()) == merged_in(
                roicell@,
                settings.mz_error,
                roicell@.len(),
            ),
        invariant
            pre == old(roicell)@,
            total == pre.len(),
            roicell.parallel(),
            rounds + roicell@.len() == total,
            total > 0 ==> roicell@.len() > 0,
            sound(roicell@, settings.mzroi_updater),
            ascending(pre) ==> ascending(roicell@),
            drawn_from(roicell@, pre),
        ensures
            roicell@ == merged(pre, settings.mz_error),
            close_pair_from(roicell@, settings.mz_error, 0) == roicell@.len(),
        decreases roicell@.len(),
    {
        let k: usize = first_close_pair(roicell, &settings.mz_error);
        if k == roicell.mz_roi.len() {
            break ;
        }
        let ghost before = roicell@;
        proof {
            let a = before[k as int];
            let b = before[k + 1];
            assert(a.sound(settings.mzroi_updater) && b.sound(settings.mzroi_updater));
            let ints = a.intensities + b.intensities;
            lemma_positive_sum(ints, ints.len() as int);
        }
        roicell.merge_roi(k, k + 1, &settings.mzroi_updater);
        proof {
            assert forall|i: int| 0 <= i < roicell@.len() implies (#[trigger] roicell@[i]).sound(
                settings.mzroi_updater,
            ) && pre.contains(roicell@[i]) by {
                if i < k {
                    assert(roicell@[i] == before[i]);
                    assert(pre.contains(before[i]));
                } else {
                    assert(roicell@[i] == before[i + 1]);
                    assert(pre.contains(before[i + 1]));
                }
            }
            if ascending(pre) {
                assert forall|i: int, j: int| 0 <= i < j < roicell@.len() implies roicell@[i].mz
                    <= roicell@[j].mz by {
                    let i0 = if i < k { i } else { i + 1 };
                    let j0 = if j < k { j } else { j + 1 };
                    assert(roicell@[i] == before[i0]);
                    assert(roicell@[j] == before[j0]);
                }
            }
        }
        rounds += 1;
    }
    rounds
}

/// The largest of the first `k` items of `s`; 0 where there is none.
pub open spec fn prefix_max(s: Seq<u32>, k: int) -> int
    decreases k,
{
    if k <= 0 {
        0
    } else if prefix_max(s, k - 1) >= s[k - 1] {
        prefix_max(s, k - 1)
    } else {
        s[k - 1] as int
    }
}

/// The trace has enough support: more observations than `min_occ`, and a
/// largest intensity above the floor.
pub open spec fn survives(trace: RoiTrace, settings: RoiParams) -> bool {
    &&& trace.count() > settings.min_occ
    &&& prefix_max(trace.intensities, trace.intensities.len() as int)
        > settings.intensity_floor()
}

/// The surviving traces among those at or behind `k`, in their order.
pub open spec fn survivors_from(traces: Seq<RoiTrace>, settings: RoiParams, k: int) -> Seq<RoiTrace>
    decreases traces.len() - k,
{
    if k >= traces.len() || k < 0 {
        Seq::empty()
    } else if survives(traces[k], settings) {
        seq![traces[k]] + survivors_from(traces, settings, k + 1)
    } else {
        survivors_from(traces, settings, k + 1)
    }
}

/// The surviving traces, in their order.
pub open spec fn survivors(traces: Seq<RoiTrace>, settings: RoiParams) -> Seq<RoiTrace> {
    survivors_from(traces, settings, 0)
}

/// Whether the trace at `roi` has enough support.
pub fn has_support(roicell: &Roicell, roi: usize, settings: &RoiParams) -> (yes: bool)
    requires
        roicell.parallel(),
        roi < roicell@.len(),
    ensures
        yes == survives(roicell@[roi as int], *settings),
{
    assert(roicell@[roi as int].parallel());
    let ints: &Vec<u32> = &roicell.intensities[roi];
    let n: usize = ints.len();
    let mut top: u32 = 0;
    let mut k: usize = 0;
    while k < n
        invariant
            k <= n,
            n == ints@.len(),
            top == prefix_max(ints@, k as int),
        decreases n - k,
    {
        if ints[k] > top {
            top = ints[k];
        }
        k += 1;
    }
    let floor: u64 = {
        let a: u64 = settings.threshold as u64;
        let b: u64 = settings.t_factor as u64;
        assert(a * b <= 0xFFFF_FFFFu64 * 0xFFFF_FFFFu64) by (nonlinear_arith)
            requires
                a <= 0xFFFF_FFFFu64,
                b <= 0xFFFF_FFFFu64,
        ;
        a * b
    };
    let count: usize = roicell.mzs[roi].len();
    count as u128 > settings.min_occ as u128 && top as u64 > floor
}

/// Removes every trace without enough support, from the last position to
/// the first; the others keep their order.
pub fn filter_rois(roicell: &mut Roicell, settings: &RoiParams)
    requires
        old(roicell).parallel(),
    ensures
        final(roicell).parallel(),
        final(roicell)@ == survivors(old(roicell)@, *settings),
        forall|i: int| 0 <= i < final(roicell)@.len() ==> survives(#[trigger] final(roicell)@[i], *settings),
        ascending(old(roicell)@) ==> ascending(final(roicell)@),
        drawn_from(final(roicell)@, old(roicell)@),
{
    let ghost pre = roicell@;
    let mut k: usize = roicell.mzs.len();
    proof {
        assert(roicell@ =~= pre.take(k as int) + survivors_from(pre, *settings, k as int));
    }
    while k > 0
        invariant
            pre == old(roicell)@,
            k <= pre.len(),
            roicell.parallel(),
            roicell@ == pre.take(k as int) + survivors_from(pre, *settings, k as int),
        decreases k,
    {
        k -= 1;
        let ghost before = roicell@;
        let ghost tail = survivors_from(pre, *settings, k + 1);
        assert(before[k as int] == pre[k as int]);
        if has_support(roicell, k, settings) {
            proof {
                assert(roicell@ =~= pre.take(k as int) + (seq![pre[k as int]] + tail));
            }
        } else {
            roicell.remove_roi(k);
            proof {
                assert(roicell@ =~= pre.take(k as int) + tail);
            }
        }
    }
    proof {
        assert(roicell@ =~= survivors(pre, *settings));
        lemma_survivors(pre, *settings, 0);
    }
}

/// The surviving traces all survive, are traces of the list they were
/// taken from, and
/// keep an ascending order.
pub proof fn lemma_survivors(traces: Seq<RoiTrace>, settings: RoiParams, k: int)
    requires
        0 <= k <= traces.len(),
    ensures
        forall|i: int|
            0 <= i < survivors_from(traces, settings, k).len() ==> survives(
                #[trigger] survivors_from(traces, settings, k)[i],
                settings,
            ),
        forall|i: int|
            0 <= i < survivors_from(traces, settings, k).len() ==> exists|j: int|
                k <= j < traces.len() && traces[j] == #[trigger] survivors_from(traces, settings, k)[i],
        drawn_from(survivors_from(traces, settings, k), traces),
        ascending(traces) ==> ascending(survivors_from(traces, settings, k)),
    decreases traces.len() - k,
{
    let here = survivors_from(traces, settings, k);
    if k < traces.len() {
        lemma_survivors(traces, settings, k + 1);
        let rest = survivors_from(traces, settings, k + 1);
        if survives(traces[k], settings) {
            assert(here =~= seq![traces[k]] + rest);
            assert forall|i: int| 0 <= i < here.len() implies survives(#[trigger] here[i], settings)
                && (exists|j: int| k <= j < traces.len() && traces[j] == here[i])
                && traces.contains(here[i]) by {
                if i > 0 {
                    assert(here[i] == rest[i - 1]);
                    let j = choose|j: int| k + 1 <= j < traces.len() && traces[j] == rest[i - 1];
                    assert(traces[j] == here[i]);
                } else {
                    assert(traces[k] == here[0]);
                }
            }
            if ascending(traces) {
                assert forall|i: int, j: int| 0 <= i < j < here.len() implies here[i].mz
                    <= here[j].mz by {
                    let jj = choose|jj: int| k + 1 <= jj < traces.len() && traces[jj] == rest[j - 1];
                    if i > 0 {
                        assert(rest[i - 1].mz <= rest[j - 1].mz);
                    } else {
                        assert(traces[k].mz <= traces[jj].mz);
                    }
                }
            }
        } else {
            assert(here =~= rest);
            assert forall|i: int| 0 <= i < here.len() implies (exists|j: int|
                k <= j < traces.len() && traces[j] == #[trigger] here[i]) by {
                let j = choose|j: int| k + 1 <= j < traces.len() && traces[j] == rest[i];
                assert(traces[j] == here[i]);
            }
        }
    }
}

/// Support is strict: among traces whose largest intensity is above the
/// floor, one with exactly `min_occ` observations does not survive and one
/// with one observation more does.
pub proof fn lemma_support_boundary(trace: RoiTrace, settings: RoiParams)
    requires
        prefix_max(trace.intensities, trace.intensities.len() as int)
            > settings.intensity_floor(),
    ensures
        trace.count() == settings.min_occ ==> !survives(trace, settings),
        trace.count() == settings.min_occ + 1 ==> survives(trace, settings),
{
}

/// Merging ends in fewer rounds than there are traces: a round more than
/// one less than their number changes nothing.
pub proof fn lemma_merge_rounds(traces: Seq<RoiTrace>, tol: MzErrorType, rounds: nat)
    requires
        rounds + 1 >= traces.len(),
    ensures
        merged_in(traces, tol, rounds) == merged_in(traces, tol, rounds + 1),
        traces.len() > 0 ==> merged(traces, tol) == merged_in(
            traces,
            tol,
            (traces.len() - 1) as nat,
        ),
    decreases rounds,
{
    let k = close_pair_from(traces, tol, 0);
    lemma_close_pair_range(traces, tol, 0);
    if rounds > 0 && k + 1 < traces.len() {
        lemma_merge_rounds(traces.remove(k), tol, (rounds - 1) as nat);
    }
    if traces.len() > 0 && rounds != traces.len() - 1 {
        lemma_merge_rounds(traces, tol, (traces.len() - 1) as nat);
    }
}

/// The first close pair at or behind `k` lies at or behind `k`.
pub proof fn lemma_close_pair_range(traces: Seq<RoiTrace>, tol: MzErrorType, k: int)
    requires
        0 <= k,
    ensures
        k <= close_pair_from(traces, tol, k) || close_pair_from(traces, tol, k) == traces.len(),
        close_pair_from(traces, tol, k) + 1 < traces.len() || close_pair_from(traces, tol, k)
            == traces.len(),
    decreases traces.len() - k,
{
    if k + 1 < traces.len() && !(gap(traces[k].mz, traces[k + 1].mz) < tol.window(
        traces[traces.len() - 2].mz,
    )) {
        lemma_close_pair_range(traces, tol, k + 1);
    }
}

/// Merging keeps an ascending order: it only takes traces away.
pub proof fn lemma_merged_ascends(traces: Seq<RoiTrace>, tol: MzErrorType, rounds: nat)
    requires
        ascending(traces),
    ensures
        ascending(merged_in(traces, tol, rounds)),
    decreases rounds,
{
    let k = close_pair_from(traces, tol, 0);
    if rounds > 0 && 0 <= k && k + 1 < traces.len() {
        let rest = traces.remove(k);
        assert forall|i: int, j: int| 0 <= i < j < rest.len() implies rest[i].mz <= rest[j].mz by {
            let i0 = if i < k { i } else { i + 1 };
            let j0 = if j < k { j } else { j + 1 };
            assert(rest[i] == traces[i0]);
            assert(rest[j] == traces[j0]);
        }
        lemma_merged_ascends(rest, tol, (rounds - 1) as nat);
    }
}

} // verus!
