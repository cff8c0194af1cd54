use roimcr::enums::{last_argmax, mean_of, weighted_mean_of, MzErrorType, MzRoiUpdater};
use roimcr::structs::data::Roicell;
use roimcr::codec::{frame_peaks, read_peaks, read_word, PeakBits};
use roimcr::structs::io::{MsRun, Peak, Scan};
use roimcr::utils::{argsort, sort_by_indices, subset};
use roimcr::RoiError;

#[test]
fn weighted_rule() {
    // 100.00 and 101.00 in hundredths
    let r = MzRoiUpdater::Weighted.calculate(&[10_000, 10_100], &[10, 30]);
    assert_eq!(r, 10_075);
    assert_eq!(weighted_mean_of(&[1, 2], &[1, 2]), 1);
}

#[test]
fn median_rule_takes_upper_middle() {
    let r = MzRoiUpdater::Median.calculate(&[10, 20, 30, 40], &[1, 1, 1, 1]);
    assert_eq!(r, 30);
    assert_eq!(MzRoiUpdater::Median.calculate(&[40, 10, 30, 20], &[1, 1, 1, 1]), 30);
    assert_eq!(MzRoiUpdater::Median.calculate(&[5, 1, 3], &[1, 1, 1]), 3);
    assert_eq!(MzRoiUpdater::Median.calculate(&[7], &[1]), 7);
}

#[test]
fn mean_rule_rounds_down() {
    assert_eq!(MzRoiUpdater::Mean.calculate(&[1, 2], &[9, 9]), 1);
    assert_eq!(MzRoiUpdater::Mean.calculate(&[100_000, 100_004], &[1, 1]), 100_002);
    assert_eq!(mean_of(&[u32::MAX, u32::MAX, u32::MAX]), u32::MAX);
}

#[test]
fn max_rule_takes_last_of_equals() {
    assert_eq!(MzRoiUpdater::Max.calculate(&[10, 20, 30], &[5, 9, 9]), 30);
    assert_eq!(MzRoiUpdater::Max.calculate(&[10, 20, 30], &[9, 5, 1]), 10);
    assert_eq!(last_argmax(&[3, 3, 2]), 1);
}

#[test]
fn windows() {
    assert_eq!(MzErrorType::Dalton(5).get_error(&123_456), 5);
    assert_eq!(MzErrorType::Ppm(10).get_error(&1_000_000), 10);
    assert_eq!(MzErrorType::Ppm(1).get_error(&1_999_999), 1);
    assert_eq!(MzErrorType::Ppm(1).get_error(&999_999), 0);
    assert_eq!(
        MzErrorType::Ppm(u32::MAX).get_error(&u32::MAX),
        (u32::MAX as u64 * u32::MAX as u64) / 1_000_000
    );
}

#[test]
fn argsort_is_stable() {
    assert_eq!(argsort(&[3, 1, 2, 1]), vec![1, 3, 2, 0]);
    assert_eq!(argsort(&[]), Vec::<usize>::new());
    assert_eq!(argsort(&[5, 5, 5]), vec![0, 1, 2]);
}

#[test]
fn subset_picks_in_order() {
    assert_eq!(subset(&[10, 20, 30], &[2, 0, 2]), vec![30, 10, 30]);
    assert_eq!(subset(&[10, 20, 30], &[]), Vec::<u32>::new());
}

#[test]
fn sort_by_indices_follows_the_permutation() {
    let mut data = vec!["a", "b", "c"];
    sort_by_indices(&mut data, &[1, 2, 0]);
    assert_eq!(data, vec!["b", "c", "a"]);
    let mut data = vec![10, 20, 30, 40, 50];
    sort_by_indices(&mut data, &[4, 0, 3, 2, 1]);
    assert_eq!(data, vec![50, 10, 40, 30, 20]);
    let mut same = vec![1, 2, 3];
    sort_by_indices(&mut same, &[0, 1, 2]);
    assert_eq!(same, vec![1, 2, 3]);
    let mut keyed = vec![30u32, 10, 20];
    let order = argsort(&keyed);
    sort_by_indices(&mut keyed, &order);
    assert_eq!(keyed, vec![10, 20, 30]);
}

#[test]
fn traces_grow_in_parallel() {
    let mut cell = Roicell::new();
    assert!(cell.mzs.is_empty() && cell.mz_roi.is_empty());
    cell.new_roi();
    assert_eq!(cell.mz_roi, vec![0]);
    cell.update_roi(0, &MzRoiUpdater::Weighted, 100, 7, 10, 3);
    cell.update_roi(0, &MzRoiUpdater::Weighted, 200, 8, 30, 4);
    assert_eq!(cell.mzs, vec![vec![100, 200]]);
    assert_eq!(cell.times, vec![vec![7u64, 8]]);
    assert_eq!(cell.intensities, vec![vec![10, 30]]);
    assert_eq!(cell.scans, vec![vec![3usize, 4]]);
    assert_eq!(cell.mz_roi, vec![175]);
    cell.seed_roi(42);
    assert_eq!(cell.mz_roi, vec![175, 42]);
    assert_eq!(cell.mzs.len(), 2);
    cell.remove_roi(0);
    assert_eq!(cell.mz_roi, vec![42]);
    assert_eq!(cell.mzs, vec![Vec::<u32>::new()]);
}

#[test]
fn merge_gives_up_the_kept_position() {
    let mut cell = Roicell::new();
    let updater = MzRoiUpdater::Mean;
    for (i, mz) in [100u32, 104, 300].iter().enumerate() {
        cell.new_roi();
        cell.update_roi(i, &updater, *mz, i as u64, 5, i);
    }
    cell.merge_roi(0, 1, &updater);
    assert_eq!(cell.mz_roi, vec![104, 300]);
    assert_eq!(cell.mzs, vec![vec![104], vec![300]]);
    assert_eq!(cell.times, vec![vec![1u64], vec![2]]);
    assert_eq!(cell.scans, vec![vec![1usize], vec![2]]);
}

#[test]
fn selectors_in_any_case() {
    assert_eq!(MzRoiUpdater::from_name("mean"), Ok(MzRoiUpdater::Mean));
    assert_eq!(MzRoiUpdater::from_name("MAX"), Ok(MzRoiUpdater::Max));
    assert_eq!(MzRoiUpdater::from_name("Median"), Ok(MzRoiUpdater::Median));
    assert_eq!(MzRoiUpdater::from_name("weighteD"), Ok(MzRoiUpdater::Weighted));
    assert_eq!(MzRoiUpdater::from_name("mode"), Err(RoiError::Configuration));
    assert_eq!(MzRoiUpdater::from_name(""), Err(RoiError::Configuration));
    assert_eq!(MzErrorType::from_units(5, "Da"), Ok(MzErrorType::Dalton(5)));
    assert_eq!(MzErrorType::from_units(5, "PPM"), Ok(MzErrorType::Ppm(5)));
    assert_eq!(MzErrorType::from_units(5, "amu"), Err(RoiError::Configuration));
    assert_eq!(
        MzRoiUpdater::from_lowercase(&"MEAN".to_string()),
        Err(RoiError::Configuration)
    );
}

#[test]
fn peaks_are_read_from_base64() {
    // 100.0f32 = 0x42C80000, 5000.0f32 = 0x459C4000
    let bytes = [0x42u8, 0xC8, 0x00, 0x00, 0x45, 0x9C, 0x40, 0x00, 0x01, 0x02];
    assert_eq!(read_word(&bytes, 0), 0x42C8_0000);
    assert_eq!(read_word(&bytes, 4), 0x459C_4000);
    let framed = frame_peaks(&bytes);
    assert_eq!(framed, vec![PeakBits { mz_bits: 0x42C8_0000, intensity_bits: 0x459C_4000 }]);
    assert_eq!(f32::from_bits(framed[0].mz_bits), 100.0f32);
    assert_eq!(f32::from_bits(framed[0].intensity_bits), 5000.0f32);
    assert_eq!(frame_peaks(&bytes[..7]), Vec::<PeakBits>::new());
    assert_eq!(
        read_peaks("QsgAAEWcQAA="),
        Ok(vec![PeakBits { mz_bits: 0x42C8_0000, intensity_bits: 0x459C_4000 }])
    );
    assert_eq!(read_peaks(""), Ok(Vec::new()));
    assert_eq!(read_peaks("not base64!"), Err(RoiError::Parsing));
}

#[test]
fn first_level_scans_are_handed_out() {
    let mut run = MsRun::new();
    assert!(run.name.is_empty() && run.scans.is_empty());
    run.scans.push(Scan {
        num: 1,
        ms_level: 1,
        peaks_count: 2,
        retention_time: 1500,
        peaks: vec![Peak { mz: 10, intensity: 3 }, Peak { mz: 20, intensity: 4 }],
    });
    run.scans.push(Scan {
        num: 2,
        ms_level: 2,
        peaks_count: 1,
        retention_time: 2500,
        peaks: vec![Peak { mz: 30, intensity: 5 }],
    });
    run.scans.push(Scan { num: 3, ms_level: 1, peaks_count: 0, retention_time: 3500, peaks: vec![] });
    assert_eq!(
        run.get_peaks(),
        vec![vec![Peak { mz: 10, intensity: 3 }, Peak { mz: 20, intensity: 4 }], vec![]]
    );
    assert_eq!(run.get_times(), vec![1500u64, 3500]);
    assert_eq!(run.get_tic(), vec![7u128, 0]);
}

#[test]
fn scans_are_cut_from_points() {
    let scans = roimcr::structs::io::scans_from_points(
        &[0, 2, 2],
        &[2, 0, 1, 9],
        &[10, 20, 30],
        &[100, 200, 300],
        &[5, 6, 7],
    )
    .unwrap();
    assert_eq!(scans.len(), 3);
    assert_eq!(scans[0].num, 1);
    assert_eq!(scans[0].ms_level, 1);
    assert_eq!(scans[0].peaks_count, 2);
    assert_eq!(scans[0].retention_time, 10);
    assert_eq!(scans[0].peaks, vec![Peak { mz: 100, intensity: 5 }, Peak { mz: 200, intensity: 6 }]);
    assert_eq!(scans[1].peaks, Vec::<Peak>::new());
    assert_eq!(scans[2].num, 3);
    assert_eq!(scans[2].peaks, vec![Peak { mz: 300, intensity: 7 }]);
    let outside = roimcr::structs::io::scans_from_points(&[2], &[2], &[1], &[1, 2, 3], &[1, 2, 3]);
    assert_eq!(outside.err(), Some(RoiError::DataShape));
    let untimed = roimcr::structs::io::scans_from_points(&[0], &[1], &[], &[1], &[1]);
    assert_eq!(untimed.err(), Some(RoiError::DataShape));
}
