use sdestimator::binary64::Binary64;
use sdestimator::fullness::{answered, max_filesystem_fullness, FsUsage};
use sdestimator::kernel::WriteDelta;
use sdestimator::settings::{check_settings, save_due, SettingsError};
use sdestimator::waf::{avg_io_kb, estimate_waf, flash_bytes_written, sequential_ratio};

fn bits(x: f64) -> Binary64 {
    Binary64 { bits: x.to_bits() }
}

fn number(x: Binary64) -> f64 {
    f64::from_bits(x.bits)
}

fn waf(sectors: u64, ios: u64, merges: u64, page: u64, fill: f64, over: f64) -> f64 {
    number(estimate_waf(sectors, ios, merges, page, bits(fill), bits(over)))
}

/// The model in native arithmetic.
fn native_waf(sectors: u64, ios: u64, merges: u64, page: u64, fill: f64, over: f64) -> f64 {
    if ios == 0 || sectors == 0 || page == 0 {
        return 1.0;
    }
    let avg = (sectors * 512) as f64 / ios as f64;
    let page_waf = (page as f64 / avg).max(1.0);
    let share = merges as f64 / (ios + merges) as f64;
    let random = page_waf * (1.0 - share) + 1.0 * share;
    let effective = (fill * (1.0 - over)).clamp(0.0, 0.99);
    (random + (1.0 / (1.0 - effective) - 1.0)).max(1.0)
}

struct Random {
    state: u64,
}

impl Random {
    fn next(&mut self) -> u64 {
        self.state ^= self.state << 13;
        self.state ^= self.state >> 7;
        self.state ^= self.state << 17;
        self.state
    }
}

#[test]
fn nothing_to_estimate_is_not_amplified() {
    assert_eq!(waf(8, 0, 5, 16384, 0.9, 0.07), 1.0);
    assert_eq!(waf(0, 8, 5, 16384, 0.9, 0.07), 1.0);
    assert_eq!(waf(8, 1, 0, 0, 0.9, 0.07), 1.0);
}

#[test]
fn small_random_writes_are_amplified_by_pages() {
    // Requests of 4 KB into pages of 16 KB.
    assert_eq!(waf(8, 1, 0, 16384, 0.0, 0.07), 4.0);
    assert_eq!(waf(80, 10, 0, 16384, 0.0, 0.07), 4.0);
}

#[test]
fn large_writes_are_not_amplified_by_pages() {
    assert_eq!(waf(32, 1, 0, 16384, 0.0, 0.07), 1.0);
    assert_eq!(waf(2048, 1, 0, 16384, 0.0, 0.07), 1.0);
}

#[test]
fn sequential_writes_are_blended() {
    // Half of the requests were merged: half of four, and half of one.
    assert_eq!(waf(8, 1, 1, 16384, 0.0, 0.07), 2.5);
}

#[test]
fn collection_adds_to_the_amplification() {
    // A file system at 37% with 7% held back: 1 / (1 - 0.344) is about 1.52.
    let w = waf(2048, 1, 0, 16384, 0.37, 0.07);
    assert!((w - 1.5245).abs() < 0.0005, "{w}");
    // Half full without anything held back: one more.
    assert_eq!(waf(8, 1, 0, 16384, 0.5, 0.0), 5.0);
}

#[test]
fn nearly_full_cards_are_cut_off() {
    let full = waf(2048, 1, 0, 16384, 1.0, 0.0);
    assert_eq!(full, native_waf(2048, 1, 0, 16384, 1.0, 0.0));
    assert!((full - 100.0).abs() < 0.001, "{full}");
}

#[test]
fn fuller_cards_amplify_more() {
    let mut last = 1.0;
    for i in 0..=100u64 {
        let w = waf(8, 1, 3, 16384, i as f64 / 100.0, 0.07);
        assert!(w >= last, "{i}");
        last = w;
    }
}

#[test]
fn larger_requests_amplify_less() {
    let mut last = f64::INFINITY;
    for sectors in 1..=4096u64 {
        let w = waf(sectors, 16, 5, 16384, 0.37, 0.07);
        assert!(w <= last, "{sectors}");
        last = w;
    }
    assert_eq!(waf(16, 16, 0, 16384, 0.0, 0.0), 32.0);
    assert_eq!(waf(512, 16, 0, 16384, 0.0, 0.0), 1.0);
}

#[test]
fn sequential_writes_amplify_less() {
    let mut last = f64::INFINITY;
    for merges in 0..=2000u64 {
        let w = waf(24, 3, merges, 65536, 0.0, 0.07);
        assert!(w <= last + 16.0 / 2f64.powi(49), "{merges}");
        last = w;
    }
    assert!(last < 1.03, "{last}");
}

#[test]
fn merging_does_not_change_large_requests() {
    for fill in [0.0, 0.37, 0.9, 1.0] {
        let alone = waf(64, 2, 0, 16384, fill, 0.07);
        for merges in 0..500u64 {
            for sectors in [64, 65, 1000] {
                let w = waf(sectors, 2, merges, 16384, fill, 0.07);
                assert!((w - alone).abs() < 2f64.powi(-44), "{fill} {merges} {sectors}");
            }
        }
    }
}

#[test]
fn amplification_is_bounded_by_pages_and_99() {
    for fill in [0.5, 0.99, 1.0, 7.0, f64::MAX, f64::INFINITY] {
        for over in [0.0, 0.07, 1.0] {
            let w = waf(8, 1, 0, 16384, fill, over);
            assert!(w <= 103.0 + 1e-12, "{fill} {over} {w}");
        }
    }
    let largest = waf(1, 1 << 63, 0, u64::MAX, 1.0, 0.0);
    assert!(largest.is_finite() && largest > 1e35, "{largest}");
}

#[test]
fn fills_beyond_one_are_ordered_too() {
    let mut last = 0.0;
    for fill in [0.0, 0.5, 1.0, 1.5, 2.0, 1e10, f64::MAX] {
        let w = waf(8, 1, 0, 16384, fill, 0.75);
        assert!(w >= last, "{fill}");
        last = w;
    }
}

#[test]
fn over_provision_eases_collection() {
    let mut last = f64::INFINITY;
    for i in 0..=50u64 {
        let w = waf(8, 1, 3, 16384, 0.8, i as f64 / 100.0);
        assert!(w <= last, "{i}");
        last = w;
    }
}

#[test]
fn without_merges_random_writes_suffer_in_full() {
    assert_eq!(waf(24, 3, 0, 65536, 0.0, 0.07), 16.0);
    assert_eq!(waf(24, 3, 3, 65536, 0.0, 0.07), 8.5);
}

#[test]
fn amplification_is_never_below_one() {
    for fill in [-5.0, 0.0, 0.5, 2.0, f64::NAN, f64::INFINITY, f64::NEG_INFINITY] {
        for over in [-1.0, 0.0, 0.5, 1.0, f64::NAN, f64::INFINITY] {
            assert!(waf(8, 1, 0, 16384, fill, over) >= 1.0, "{fill} {over}");
            assert!(waf(8, 1, 0, u64::MAX, fill, over) >= 1.0, "{fill} {over}");
        }
    }
}

#[test]
fn amplification_agrees_with_native_arithmetic() {
    let mut random = Random { state: 31337 };
    for _ in 0..40_000 {
        let sectors = random.next() % 1_000_000;
        let ios = random.next() % 10_000;
        let merges = random.next() % 10_000;
        let page = [0, 512, 4096, 16384, 16385][(random.next() % 5) as usize];
        let fill = (random.next() % 10_001) as f64 / 10_000.0;
        let over = (random.next() % 501) as f64 / 1000.0;
        let ours = estimate_waf(sectors, ios, merges, page, bits(fill), bits(over));
        let native = native_waf(sectors, ios, merges, page, fill, over);
        assert_eq!(ours.bits, native.to_bits());
        let delta = WriteDelta { ios, merges, sectors };
        assert_eq!(
            flash_bytes_written(&delta, ours),
            ((sectors * 512) as f64 * native) as u64
        );
    }
}

#[test]
fn flash_gets_at_least_what_the_host_wrote() {
    let delta = WriteDelta { ios: 3, merges: 0, sectors: 1001 };
    assert_eq!(flash_bytes_written(&delta, bits(1.0)), 512512);
    assert_eq!(flash_bytes_written(&delta, bits(1.5)), 768768);
    assert_eq!(flash_bytes_written(&delta, bits(f64::INFINITY)), u64::MAX);
    assert_eq!(flash_bytes_written(&WriteDelta { ios: 3, merges: 0, sectors: 0 }, bits(2.0)), 0);
}

#[test]
fn sequential_share_is_a_fraction() {
    let share = |ios, merges| number(sequential_ratio(&WriteDelta { ios, merges, sectors: 1 }));
    assert_eq!(share(0, 0), 0.0);
    assert_eq!(share(10, 0), 0.0);
    assert_eq!(share(1, 3), 0.75);
    assert_eq!(share(0, 3), 1.0);
    assert_eq!(share(1, u64::MAX - 1), 1.0);
}

#[test]
fn average_request_sizes_are_reported() {
    let kb = |ios, sectors| number(avg_io_kb(&WriteDelta { ios, merges: 0, sectors }));
    assert_eq!(kb(12, 960), 40.0);
    assert_eq!(kb(0, 960), 0.0);
    // Whole kilobytes are divided.
    assert_eq!(kb(2, 3), 0.5);
}

fn usage(blocks: u64, blocks_free: u64, block_size: u64) -> FsUsage {
    FsUsage { blocks, blocks_free, block_size }
}

#[test]
fn fullness_is_that_of_the_fullest_file_system() {
    let all = vec![usage(100, 75, 4096), usage(200, 50, 512), usage(1000, 900, 1)];
    assert_eq!(number(max_filesystem_fullness(&all)), 0.75);
    assert_eq!(number(max_filesystem_fullness(&vec![])), 0.0);
}

#[test]
fn file_systems_without_capacity_do_not_count() {
    let all = vec![usage(0, 0, 4096), usage(10, 0, 0), usage(4, 3, 1)];
    assert_eq!(number(max_filesystem_fullness(&all)), 0.25);
    assert_eq!(number(max_filesystem_fullness(&vec![usage(0, 0, 0)])), 0.0);
}

#[test]
fn file_systems_that_do_not_answer_are_passed_over() {
    let (a, b) = (usage(10, 5, 512), usage(4, 3, 1));
    assert_eq!(answered(&vec![None, Some(a), None, Some(b)]), vec![a, b]);
    assert_eq!(answered(&vec![None, None]), vec![]);
}

#[test]
fn more_free_than_there_is_counts_as_empty() {
    assert_eq!(number(max_filesystem_fullness(&vec![usage(10, 20, 4096)])), 0.0);
    assert_eq!(number(max_filesystem_fullness(&vec![usage(10, 0, 4096)])), 1.0);
}

#[test]
fn fullness_agrees_with_native_arithmetic() {
    let mut random = Random { state: 99 };
    for _ in 0..5_000 {
        let all: Vec<FsUsage> = (0..random.next() % 4)
            .map(|_| {
                let blocks = random.next() % 100_000;
                usage(blocks, random.next() % (blocks + 1), random.next() % 8192)
            })
            .collect();
        let mut expected: f64 = 0.0;
        for u in &all {
            let total = u.blocks as f64 * u.block_size as f64;
            let free = u.blocks_free as f64 * u.block_size as f64;
            if total > 0.0 {
                let used = 1.0 - (free / total);
                if used > expected {
                    expected = used;
                }
            }
        }
        assert_eq!(max_filesystem_fullness(&all).bits, expected.to_bits());
    }
}

#[test]
fn settings_in_range_pass() {
    assert_eq!(check_settings(None, bits(0.07)), Ok(()));
    for health in [0.0, -0.0, 0.5, 99.9, 100.0] {
        assert_eq!(check_settings(Some(bits(health)), bits(0.5)), Ok(()));
    }
    assert_eq!(check_settings(None, bits(-0.0)), Ok(()));
}

#[test]
fn initial_health_out_of_range_is_refused_first() {
    for health in [-0.1, 100.0001, f64::NAN, f64::INFINITY, f64::NEG_INFINITY] {
        assert_eq!(
            check_settings(Some(bits(health)), bits(9.0)),
            Err(SettingsError::InitialHealth)
        );
    }
}

#[test]
fn over_provision_out_of_range_is_refused() {
    for over in [-0.1, 0.5001, 1.0, f64::NAN, f64::INFINITY] {
        assert_eq!(check_settings(None, bits(over)), Err(SettingsError::OverProvision));
        assert_eq!(check_settings(Some(bits(50.0)), bits(over)), Err(SettingsError::OverProvision));
    }
}

#[test]
fn state_is_saved_once_the_interval_has_passed() {
    assert!(!save_due(299, 300));
    assert!(save_due(300, 300));
    assert!(save_due(0, 0));
}
