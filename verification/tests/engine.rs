use roimcr::enums::{MzErrorType, MzRoiUpdater};
use roimcr::structs::data::Roicell;
use roimcr::structs::io::Peak;
use roimcr::structs::options::RoiParams;
use roimcr::{check_shape, compute_roi, pool_runs, RoiError};

fn params(tolerance: MzErrorType, updater: MzRoiUpdater, seed: bool) -> RoiParams {
    RoiParams {
        threshold: 0,
        t_factor: 0,
        mz_error: tolerance,
        mzroi_updater: updater,
        min_occ: 0,
        seed_second_scan: seed,
    }
}

fn peak(mz: u32, intensity: u32) -> Peak {
    Peak { mz, intensity }
}

#[test]
fn two_scans_one_trace() {
    // masses in thousandths: 100.000 and 100.004, window 0.010
    let runs = vec![vec![vec![peak(100_000, 5000)], vec![peak(100_004, 5000)]]];
    let times = vec![vec![1u64, 2u64]];
    let settings = params(MzErrorType::Dalton(10), MzRoiUpdater::Mean, false);
    let (mzroi, msroi, cell) = compute_roi(&runs, &times, settings).unwrap();
    assert_eq!(mzroi, vec![100_002]);
    assert_eq!(msroi, vec![vec![5000u128], vec![5000u128]]);
    assert_eq!(cell.mzs, vec![vec![100_000, 100_004]]);
    assert_eq!(cell.times, vec![vec![1u64, 2u64]]);
    assert_eq!(cell.intensities, vec![vec![5000, 5000]]);
    assert_eq!(cell.scans, vec![vec![0usize, 1usize]]);
    assert_eq!(cell.mz_roi, vec![100_002]);
}

#[test]
fn second_scan_seed_opens_a_trace() {
    let runs = vec![vec![vec![peak(100_000, 5000)], vec![peak(100_004, 5000)]]];
    let times = vec![vec![1u64, 2u64]];
    let settings = params(MzErrorType::Dalton(10), MzRoiUpdater::Mean, true);
    let (mzroi, msroi, cell) = compute_roi(&runs, &times, settings).unwrap();
    // the seed takes the second peak too; the merge then gives up the first
    // trace of the close pair
    assert_eq!(mzroi, vec![100_004]);
    assert_eq!(msroi, vec![vec![0u128], vec![5000u128]]);
    assert_eq!(cell.mzs, vec![vec![100_004]]);
    assert_eq!(cell.scans, vec![vec![1usize]]);
}

#[test]
fn peaks_apart_open_two_traces() {
    let runs = vec![vec![vec![peak(1000, 50), peak(1011, 60)]]];
    let times = vec![vec![7u64]];
    let settings = params(MzErrorType::Dalton(10), MzRoiUpdater::Mean, false);
    let (mzroi, msroi, cell) = compute_roi(&runs, &times, settings).unwrap();
    assert_eq!(mzroi, vec![1000, 1011]);
    assert_eq!(msroi, vec![vec![50u128, 60u128]]);
    assert_eq!(cell.mzs, vec![vec![1000], vec![1011]]);
}

#[test]
fn peaks_close_share_a_trace() {
    let runs = vec![vec![vec![peak(1000, 50), peak(1009, 60)]]];
    let times = vec![vec![7u64]];
    let settings = params(MzErrorType::Dalton(10), MzRoiUpdater::Mean, false);
    let (mzroi, msroi, cell) = compute_roi(&runs, &times, settings).unwrap();
    assert_eq!(mzroi, vec![1004]);
    assert_eq!(msroi, vec![vec![110u128]]);
    assert_eq!(cell.mzs, vec![vec![1000, 1009]]);
    assert_eq!(cell.times, vec![vec![7u64, 7u64]]);
}

#[test]
fn peak_at_the_window_edge_joins() {
    let runs = vec![vec![vec![peak(1000, 50), peak(1010, 60)]]];
    let times = vec![vec![7u64]];
    let settings = params(MzErrorType::Dalton(10), MzRoiUpdater::Max, false);
    let (mzroi, _, cell) = compute_roi(&runs, &times, settings).unwrap();
    assert_eq!(mzroi, vec![1010]);
    assert_eq!(cell.intensities, vec![vec![50, 60]]);
}

#[test]
fn a_peak_joins_every_trace_in_reach() {
    // two traces 16 apart, then a peak between them within 10 of both
    let runs = vec![vec![vec![peak(1000, 5), peak(1016, 5)], vec![peak(1008, 9)]]];
    let times = vec![vec![1u64, 2u64]];
    let mut settings = params(MzErrorType::Dalton(10), MzRoiUpdater::Max, false);
    settings.mz_error = MzErrorType::Dalton(10);
    let mut cell = Roicell::new();
    roimcr::assign::assign_scans(&mut cell, &settings, &runs[0], &times[0]);
    assert_eq!(cell.mzs, vec![vec![1000, 1008], vec![1016, 1008]]);
    assert_eq!(cell.scans, vec![vec![0usize, 1], vec![0usize, 1]]);
    assert_eq!(cell.mz_roi, vec![1008, 1008]);
}

#[test]
fn peaks_at_or_below_threshold_are_passed_over() {
    let runs = vec![vec![vec![peak(1000, 10), peak(2000, 11)], vec![peak(3000, 3)]]];
    let times = vec![vec![1u64, 2u64]];
    let mut settings = params(MzErrorType::Dalton(1), MzRoiUpdater::Mean, true);
    settings.threshold = 10;
    let (mzroi, msroi, _) = compute_roi(&runs, &times, settings).unwrap();
    assert_eq!(mzroi, vec![2000]);
    assert_eq!(msroi, vec![vec![11u128], vec![0u128]]);
}

#[test]
fn output_masses_ascend() {
    let runs = vec![vec![
        vec![peak(900, 5), peak(300, 5), peak(600, 5)],
        vec![peak(100, 5), peak(1200, 5)],
    ]];
    let times = vec![vec![1u64, 2u64]];
    let settings = params(MzErrorType::Dalton(10), MzRoiUpdater::Median, false);
    let (mzroi, msroi, cell) = compute_roi(&runs, &times, settings).unwrap();
    assert_eq!(mzroi, vec![100, 300, 600, 900, 1200]);
    assert_eq!(cell.mz_roi, mzroi);
    assert_eq!(
        msroi,
        vec![vec![0u128, 5, 5, 5, 0], vec![5u128, 0, 0, 0, 5]]
    );
    for i in 0..cell.mzs.len() {
        assert_eq!(cell.mzs[i].len(), cell.times[i].len());
        assert_eq!(cell.mzs[i].len(), cell.intensities[i].len());
        assert_eq!(cell.mzs[i].len(), cell.scans[i].len());
    }
}

#[test]
fn support_boundary() {
    // one trace with two observations, one with three
    let runs = vec![vec![
        vec![peak(100, 50), peak(500, 50)],
        vec![peak(100, 50), peak(500, 50)],
        vec![peak(500, 50)],
    ]];
    let times = vec![vec![1u64, 2, 3]];
    let mut settings = params(MzErrorType::Dalton(1), MzRoiUpdater::Mean, false);
    settings.min_occ = 2;
    let (mzroi, msroi, _) = compute_roi(&runs, &times, settings).unwrap();
    assert_eq!(mzroi, vec![500]);
    assert_eq!(msroi, vec![vec![50u128], vec![50u128], vec![50u128]]);
}

#[test]
fn intensity_floor_is_strict() {
    let runs = vec![vec![vec![peak(100, 40), peak(500, 41)]]];
    let times = vec![vec![1u64]];
    let mut settings = params(MzErrorType::Dalton(1), MzRoiUpdater::Mean, false);
    settings.threshold = 20;
    settings.t_factor = 2;
    let (mzroi, _, _) = compute_roi(&runs, &times, settings).unwrap();
    assert_eq!(mzroi, vec![500]);
}

#[test]
fn merge_uses_the_window_at_the_last_but_one() {
    // relative window: 10_000 ppm of the last-but-one mass
    let runs = vec![vec![vec![peak(1000, 5), peak(1030, 5), peak(5000, 5), peak(9000, 5)]]];
    let times = vec![vec![1u64]];
    let settings = params(MzErrorType::Ppm(10_000), MzRoiUpdater::Mean, false);
    // windows while assigning: 10 at 1030, so 1030 opens its own trace; while
    // merging the window is 50 (at 5000), so 1000 and 1030 are a close pair
    let (mzroi, msroi, cell) = compute_roi(&runs, &times, settings).unwrap();
    assert_eq!(mzroi, vec![1030, 5000, 9000]);
    assert_eq!(msroi, vec![vec![5u128, 5, 5]]);
    assert_eq!(cell.mzs, vec![vec![1030], vec![5000], vec![9000]]);
}

#[test]
fn merge_rounds_are_fewer_than_traces() {
    let mut cell = Roicell::new();
    let updater = MzRoiUpdater::Mean;
    for (i, mz) in [100u32, 101, 102, 103].iter().enumerate() {
        cell.new_roi();
        cell.update_roi(i, &updater, *mz, 0, 1, 0);
    }
    let settings = params(MzErrorType::Dalton(5), updater, false);
    let rounds = roimcr::passes::merge_close(&mut cell, &settings);
    assert_eq!(rounds, 3);
    assert_eq!(cell.mz_roi, vec![103]);
    assert_eq!(cell.mzs, vec![vec![103]]);
}

#[test]
fn same_scan_intensities_add_up() {
    let mut cell = Roicell::new();
    let updater = MzRoiUpdater::Mean;
    cell.new_roi();
    cell.update_roi(0, &updater, 100, 0, 7, 1);
    cell.update_roi(0, &updater, 100, 0, 8, 1);
    cell.update_roi(0, &updater, 100, 0, 9, 0);
    let table = roimcr::matrix::assemble(&cell, 3);
    assert_eq!(table, vec![vec![9u128], vec![15u128], vec![0u128]]);
}

#[test]
fn wrong_shapes_are_refused() {
    let settings = params(MzErrorType::Dalton(1), MzRoiUpdater::Mean, false);
    let none: Vec<Vec<Vec<Peak>>> = Vec::new();
    let no_times: Vec<Vec<u64>> = Vec::new();
    assert!(matches!(compute_roi(&none, &no_times, settings), Err(RoiError::DataShape)));
    let runs = vec![vec![vec![peak(1, 1)], vec![peak(2, 1)]]];
    assert!(matches!(compute_roi(&runs, &no_times, settings), Err(RoiError::DataShape)));
    let short = vec![vec![1u64]];
    assert!(matches!(compute_roi(&runs, &short, settings), Err(RoiError::DataShape)));
    let empty_run: Vec<Vec<Vec<Peak>>> = vec![Vec::new()];
    let empty_times: Vec<Vec<u64>> = vec![Vec::new()];
    assert!(matches!(compute_roi(&empty_run, &empty_times, settings), Err(RoiError::DataShape)));
    assert!(!check_shape(&runs, &short));
    assert!(check_shape(&runs, &vec![vec![1u64, 2]]));
}

#[test]
fn runs_are_pooled_with_stand_in_times() {
    let runs = vec![
        vec![vec![peak(100, 5)], vec![peak(200, 5)]],
        vec![vec![peak(300, 5)], vec![peak(400, 5)], vec![peak(500, 5)]],
    ];
    let (scans, times) = pool_runs(&runs);
    assert_eq!(scans.len(), 5);
    assert_eq!(scans[2], vec![peak(300, 5)]);
    // scan + run * scans of the run
    assert_eq!(times, vec![0u64, 1, 3, 4, 5]);
    let given = vec![vec![10u64, 20], vec![30u64, 40, 50]];
    let settings = params(MzErrorType::Dalton(1), MzRoiUpdater::Mean, false);
    let (mzroi, msroi, cell) = compute_roi(&runs, &given, settings).unwrap();
    assert_eq!(mzroi, vec![100, 200, 300, 400, 500]);
    assert_eq!(msroi.len(), 5);
    assert_eq!(msroi[4], vec![0u128, 0, 0, 0, 5]);
    assert_eq!(cell.times, vec![vec![0u64], vec![1], vec![3], vec![4], vec![5]]);
}

#[test]
fn settings_without_a_choice() {
    let settings = RoiParams::defaults(1000);
    assert_eq!(settings.threshold, 1000);
    assert_eq!(settings.t_factor, 1);
    assert_eq!(settings.mz_error, MzErrorType::Dalton(500));
    assert_eq!(settings.mzroi_updater, MzRoiUpdater::Mean);
    assert_eq!(settings.min_occ, 1);
    assert!(settings.seed_second_scan);
    // two observations above the threshold: more than one, so the trace stays
    let runs = vec![vec![vec![peak(100_000, 5000)], vec![peak(300_000, 5000)], vec![peak(100_400, 1001)]]];
    let times = vec![vec![1u64, 2, 3]];
    let (mzroi, msroi, _) = compute_roi(&runs, &times, settings).unwrap();
    assert_eq!(mzroi, vec![100_200]);
    assert_eq!(msroi, vec![vec![5000u128], vec![0], vec![1001]]);
}

#[test]
fn distant_peaks_can_share_an_earlier_trace() {
    // a strong observation at 1008 holds the representative; the two peaks
    // of the second scan lie 16 apart and each within 10 of it
    let runs = vec![vec![vec![peak(1008, 100)], vec![peak(1000, 5), peak(1016, 5)]]];
    let times = vec![vec![1u64, 2u64]];
    let settings = params(MzErrorType::Dalton(10), MzRoiUpdater::Max, false);
    let (mzroi, msroi, cell) = compute_roi(&runs, &times, settings).unwrap();
    assert_eq!(mzroi, vec![1008]);
    assert_eq!(cell.mzs, vec![vec![1008, 1000, 1016]]);
    assert_eq!(msroi, vec![vec![100u128], vec![10u128]]);
}

#[test]
fn no_counted_peak_leaves_nothing() {
    let runs = vec![vec![Vec::new(), vec![peak(1000, 5)]]];
    let times = vec![vec![1u64, 2u64]];
    let mut settings = params(MzErrorType::Dalton(10), MzRoiUpdater::Weighted, true);
    settings.threshold = 5;
    let (mzroi, msroi, cell) = compute_roi(&runs, &times, settings).unwrap();
    assert_eq!(mzroi, Vec::<u32>::new());
    assert_eq!(msroi, vec![Vec::<u128>::new(), Vec::<u128>::new()]);
    assert!(cell.mzs.is_empty());
}
