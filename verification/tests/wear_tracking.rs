use sdestimator::binary64::Binary64;
use sdestimator::clock::{now_secs, now_string, secs_of};
use sdestimator::fullness::FsUsage;
use sdestimator::kernel::{KernelStats, WriteDelta};
use sdestimator::monitor::{CardParameters, Monitor};
use sdestimator::state::{
    default_initial_health, default_life_remaining, CardDescription, PresetOutcome, State,
    WearSample,
};
use sdestimator::wear::{
    estimate_years_left, estimate_years_left_at, format_years_left, maybe_push_wear_sample,
    push_wear_sample_at,
};

const DAY: u64 = 86400;

fn bits(x: f64) -> Binary64 {
    Binary64 { bits: x.to_bits() }
}

fn number(x: Binary64) -> f64 {
    f64::from_bits(x.bits)
}

fn fresh() -> State {
    State::started_at("1709123456".to_string())
}

fn stats(write_ios: u64, write_merges: u64, write_sectors: u64) -> KernelStats {
    KernelStats { write_ios, write_merges, write_sectors }
}

fn clock_secs() -> u64 {
    std::time::SystemTime::now()
        .duration_since(std::time::UNIX_EPOCH)
        .unwrap()
        .as_secs()
}

fn card() -> CardDescription {
    CardDescription {
        device: "mmcblk0".to_string(),
        card_size_gb: bits(128.0),
        card_size_bytes: 137438953472,
        erase_block_kb: 4096,
        pe_cycles_rated: 3000,
        mount_points: vec!["/dev/mmcblk0p2 -> /".to_string()],
    }
}

#[test]
fn clock_is_read() {
    let before = clock_secs();
    let ours = now_secs();
    let after = clock_secs();
    assert!(before <= ours && ours <= after);
}

#[test]
fn clock_readings_are_cut_to_seconds() {
    assert_eq!(secs_of(Some((1709123456, 999_999_999))), 1709123456);
    assert_eq!(secs_of(None), 0);
}

#[test]
fn time_stamps_are_decimal_seconds() {
    let before = clock_secs();
    let ours: u64 = now_string().parse().unwrap();
    let after = clock_secs();
    assert!(before <= ours && ours <= after);
}

#[test]
fn defaults_are_those_of_a_new_card() {
    assert_eq!(number(default_life_remaining()), 100.0);
    assert_eq!(number(default_initial_health()), 100.0);
}

#[test]
fn new_states_have_no_wear() {
    let before = clock_secs();
    let s = State::new();
    let started: u64 = s.first_started.parse().unwrap();
    assert!(before <= started && started <= clock_secs());
    assert_eq!(s.last_updated, s.first_started);
    assert_eq!(s.device, "");
    assert_eq!(number(s.card_size_gb), 0.0);
    assert_eq!(s.card_size_bytes, 0);
    assert_eq!(s.erase_block_kb, 0);
    assert_eq!(s.pe_cycles_rated, 0);
    assert!(s.mount_points.is_empty());
    assert_eq!(number(s.filesystem_fullness_pct), 0.0);
    assert_eq!(s.total_host_sectors_written, 0);
    assert_eq!(s.total_host_write_ios, 0);
    assert_eq!(s.estimated_flash_bytes_written, 0);
    assert_eq!(number(s.estimated_avg_pe_cycles), 0.0);
    assert_eq!(number(s.estimated_life_remaining_pct), 100.0);
    assert_eq!(number(s.initial_health_pct), 100.0);
    assert_eq!(s.last_kernel_write_sectors, 0);
    assert_eq!(s.last_kernel_write_ios, 0);
    assert_eq!(s.reboot_count, 0);
    assert!(s.wear_samples.is_empty());
    assert_eq!(s.last_sample_timestamp, 0);
}

#[test]
fn states_are_restored_from_a_file_or_new() {
    let mut saved = fresh();
    saved.reboot_count = 7;
    assert_eq!(State::restored(Some(saved)).reboot_count, 7);
    assert_eq!(State::restored(None).reboot_count, 0);
}

#[test]
fn initial_health_is_applied_to_a_new_state() {
    let mut s = fresh();
    let outcome = s.apply_initial_health(Some(bits(75.0)), false, 3000, 1_000_000);
    assert_eq!(outcome, PresetOutcome::Applied);
    assert_eq!(number(s.estimated_life_remaining_pct), 75.0);
    assert_eq!(number(s.initial_health_pct), 75.0);
    assert_eq!(number(s.estimated_avg_pe_cycles), 750.0);
    assert_eq!(s.estimated_flash_bytes_written, 750_000_000);
}

#[test]
fn initial_health_agrees_with_native_arithmetic() {
    for tenths in 0..=1000u64 {
        let health = tenths as f64 / 10.0;
        let mut s = fresh();
        s.apply_initial_health(Some(bits(health)), false, 3000, 31_914_983_424);
        let cycles = (1.0 - health / 100.0) * 3000u64 as f64;
        assert_eq!(s.estimated_avg_pe_cycles.bits, cycles.to_bits());
        assert_eq!(
            s.estimated_flash_bytes_written,
            (cycles * 31_914_983_424u64 as f64) as u64
        );
    }
}

#[test]
fn initial_health_never_overwrites_a_state_file() {
    let mut s = fresh();
    let outcome = s.apply_initial_health(Some(bits(50.0)), true, 3000, 1_000_000);
    assert_eq!(outcome, PresetOutcome::Ignored);
    assert_eq!(number(s.estimated_life_remaining_pct), 100.0);
    assert_eq!(s.estimated_flash_bytes_written, 0);
    assert_eq!(s.apply_initial_health(None, false, 3000, 1), PresetOutcome::NotRequested);
    assert_eq!(number(s.initial_health_pct), 100.0);
}

#[test]
fn full_health_is_that_of_a_new_card() {
    let mut s = fresh();
    s.apply_initial_health(Some(bits(100.0)), false, 3000, 1_000_000);
    assert_eq!(s.estimated_avg_pe_cycles.bits, 0);
    assert_eq!(s.estimated_flash_bytes_written, 0);
}

#[test]
fn preset_health_is_consistent_with_its_wear() {
    let nothing = WriteDelta { ios: 0, merges: 0, sectors: 0 };
    for (pe_cycles, card_bytes) in [(3000, 31_914_983_424), (1000, 1 << 37), (1, 1 << 20)] {
        for tenths in 0..=1000u64 {
            let health = tenths as f64 / 10.0;
            let mut s = fresh();
            s.apply_initial_health(Some(bits(health)), false, pe_cycles, card_bytes);
            s.record_at(
                &nothing,
                &stats(0, 0, 0),
                bits(0.0),
                0,
                card_bytes,
                pe_cycles,
                String::new(),
            );
            let life = number(s.estimated_life_remaining_pct);
            let bound = 4.6e-13 + 200.0 / (pe_cycles as f64 * card_bytes as f64);
            assert!((life - health).abs() <= bound, "{health} {life}");
        }
    }
}

#[test]
fn lower_health_is_more_wear() {
    let mut last = 0;
    for tenths in (0..=1000u64).rev() {
        let mut s = fresh();
        let health = bits(tenths as f64 / 10.0);
        s.apply_initial_health(Some(health), false, 3000, 31_914_983_424);
        assert!(s.estimated_flash_bytes_written >= last);
        last = s.estimated_flash_bytes_written;
    }
    assert_eq!(last, 3000 * 31_914_983_424);
}

#[test]
fn descriptions_are_refreshed() {
    let mut s = fresh();
    s.refresh_description(card());
    assert_eq!(s.device, "mmcblk0");
    assert_eq!(number(s.card_size_gb), 128.0);
    assert_eq!(s.card_size_bytes, 137438953472);
    assert_eq!(s.erase_block_kb, 4096);
    assert_eq!(s.pe_cycles_rated, 3000);
    assert_eq!(s.mount_points, vec!["/dev/mmcblk0p2 -> /".to_string()]);
}

#[test]
fn saving_stamps_and_describes_and_keeps_the_wear() {
    let mut s = fresh();
    s.total_host_sectors_written = 5;
    let before = clock_secs();
    let usage = vec![FsUsage { blocks: 1000, blocks_free: 577, block_size: 4096 }];
    s.prepare_save(card(), &usage);
    let stamp: u64 = s.last_updated.parse().unwrap();
    assert!(before <= stamp && stamp <= clock_secs());
    assert_eq!(s.first_started, "1709123456");
    assert_eq!(s.device, "mmcblk0");
    assert_eq!(number(s.filesystem_fullness_pct), 42.3);
    assert_eq!(s.total_host_sectors_written, 5);
}

#[test]
fn reboots_are_detected_and_counted() {
    let mut s = fresh();
    s.total_host_sectors_written = 1000;
    s.last_kernel_write_sectors = 500;
    assert!(s.start_session(stats(1, 2, 499)));
    assert_eq!(s.reboot_count, 1);
    assert_eq!(s.last_kernel_write_sectors, 499);
    assert_eq!(s.last_kernel_write_ios, 1);
    assert_eq!(s.total_host_sectors_written, 1000);
    assert!(!s.start_session(stats(9, 9, 499)));
    assert!(!s.start_session(stats(9, 9, 500)));
    assert_eq!(s.reboot_count, 1);
}

#[test]
fn activity_is_recorded() {
    let mut s = fresh();
    let delta = WriteDelta { ios: 10, merges: 5, sectors: 2000 };
    s.record_at(
        &delta,
        &stats(110, 55, 9000),
        bits(0.4234),
        1_500_000,
        1_000_000,
        3000,
        "1709456789".to_string(),
    );
    assert_eq!(s.total_host_sectors_written, 2000);
    assert_eq!(s.total_host_write_ios, 10);
    assert_eq!(s.estimated_flash_bytes_written, 1_500_000);
    assert_eq!(s.last_kernel_write_sectors, 9000);
    assert_eq!(s.last_kernel_write_ios, 110);
    assert_eq!(s.last_updated, "1709456789");
    assert_eq!(s.first_started, "1709123456");
    assert_eq!(number(s.filesystem_fullness_pct), 42.3);
    assert_eq!(number(s.estimated_avg_pe_cycles), 1.5);
    assert_eq!(number(s.estimated_life_remaining_pct), (1.0 - 1.5 / 3000.0) * 100.0);
}

#[test]
fn life_ends_at_the_rated_cycles() {
    let delta = WriteDelta { ios: 1, merges: 0, sectors: 1 };
    let life = |flash: u64| {
        let mut s = fresh();
        s.record_at(&delta, &stats(1, 0, 1), bits(0.0), flash, 1000, 10, String::new());
        number(s.estimated_life_remaining_pct)
    };
    assert_eq!(life(0), 100.0);
    assert_eq!(life(5000), 50.0);
    assert_eq!(life(10_000), 0.0);
    assert_eq!(life(1_000_000), 0.0);
    let mut last = 100.0;
    for flash in 0..200u64 {
        let l = life(flash * 77);
        assert!(l <= last);
        last = l;
    }
}

#[test]
fn cards_without_size_or_cycles_have_no_number() {
    let delta = WriteDelta { ios: 1, merges: 0, sectors: 0 };
    let mut s = fresh();
    s.record_at(&delta, &stats(1, 0, 0), bits(0.0), 0, 0, 3000, String::new());
    assert!(number(s.estimated_life_remaining_pct).is_nan());
    let mut s = fresh();
    s.record_at(&delta, &stats(1, 0, 0), bits(0.0), 5, 10, 0, String::new());
    assert_eq!(number(s.estimated_life_remaining_pct), 0.0);
}

#[test]
fn totals_beyond_64_bits_are_recognised() {
    let mut s = fresh();
    s.estimated_flash_bytes_written = u64::MAX - 5;
    let delta = WriteDelta { ios: 1, merges: 0, sectors: 1 };
    assert!(s.can_record(&delta, 5));
    assert!(!s.can_record(&delta, 6));
    s.total_host_write_ios = u64::MAX;
    assert!(!s.can_record(&delta, 0));
    s.total_host_write_ios = 0;
    s.total_host_sectors_written = u64::MAX;
    assert!(!s.can_record(&delta, 0));
}

#[test]
fn samples_are_taken_once_a_day() {
    let mut s = fresh();
    s.estimated_flash_bytes_written = 100;
    push_wear_sample_at(&mut s, 20_000 * DAY);
    assert_eq!(
        s.wear_samples,
        vec![WearSample { timestamp_secs: 20_000 * DAY, flash_bytes_written: 100 }]
    );
    assert_eq!(s.last_sample_timestamp, 20_000 * DAY);
    push_wear_sample_at(&mut s, 20_001 * DAY - 1);
    assert_eq!(s.wear_samples.len(), 1);
    // A clock that was set back takes no sample either.
    push_wear_sample_at(&mut s, 5 * DAY);
    assert_eq!(s.wear_samples.len(), 1);
    push_wear_sample_at(&mut s, 20_001 * DAY);
    assert_eq!(s.wear_samples.len(), 2);
}

#[test]
fn no_sample_is_taken_on_the_first_day_of_the_epoch() {
    let mut s = fresh();
    push_wear_sample_at(&mut s, DAY - 1);
    assert!(s.wear_samples.is_empty());
    push_wear_sample_at(&mut s, DAY);
    assert_eq!(s.wear_samples.len(), 1);
}

#[test]
fn samples_are_a_rolling_window_of_four_weeks() {
    let mut s = fresh();
    for day in 1..=40 {
        s.estimated_flash_bytes_written += 10;
        push_wear_sample_at(&mut s, day * DAY);
        assert_eq!(s.wear_samples.len() as u64, if day < 28 { day } else { 28 });
        assert_eq!(s.wear_samples.last().unwrap().timestamp_secs, day * DAY);
    }
    assert_eq!(s.wear_samples[0].timestamp_secs, 13 * DAY);
    assert_eq!(s.wear_samples[0].flash_bytes_written, 130);
}

#[test]
fn longer_histories_are_not_cut_at_once() {
    let mut s = fresh();
    for day in 1..=30 {
        s.wear_samples.push(WearSample { timestamp_secs: day * DAY, flash_bytes_written: 0 });
    }
    s.last_sample_timestamp = 30 * DAY;
    push_wear_sample_at(&mut s, 31 * DAY);
    assert_eq!(s.wear_samples.len(), 30);
    assert_eq!(s.wear_samples[0].timestamp_secs, 2 * DAY);
}

#[test]
fn samples_are_taken_by_the_clock() {
    let mut s = fresh();
    let before = clock_secs();
    maybe_push_wear_sample(&mut s);
    assert_eq!(s.wear_samples.len(), 1);
    let taken = s.wear_samples[0].timestamp_secs;
    assert!(before <= taken && taken <= clock_secs());
    maybe_push_wear_sample(&mut s);
    assert_eq!(s.wear_samples.len(), 1);
}

fn worn(life: f64, flash: u64, samples: &[(u64, u64)]) -> State {
    let mut s = fresh();
    s.estimated_life_remaining_pct = bits(life);
    s.estimated_flash_bytes_written = flash;
    for (timestamp_secs, flash_bytes_written) in samples {
        s.wear_samples.push(WearSample {
            timestamp_secs: *timestamp_secs,
            flash_bytes_written: *flash_bytes_written,
        });
        s.last_sample_timestamp = *timestamp_secs;
    }
    s
}

#[test]
fn years_are_not_estimated_without_a_rate() {
    let none = |s: &State, now: u64| estimate_years_left_at(s, 1000, 10, now).is_none();
    assert!(none(&worn(50.0, 100, &[]), 5 * DAY));
    assert!(none(&worn(50.0, 100, &[(DAY, 0)]), 5 * DAY));
    // No time has passed, or the clock was set back.
    assert!(none(&worn(50.0, 100, &[(2 * DAY, 0), (3 * DAY, 1)]), 2 * DAY));
    assert!(none(&worn(50.0, 100, &[(2 * DAY, 0), (3 * DAY, 1)]), DAY));
    // Nothing was written.
    assert!(none(&worn(50.0, 100, &[(DAY, 100), (2 * DAY, 100)]), 5 * DAY));
    assert!(none(&worn(50.0, 100, &[(DAY, 200), (2 * DAY, 200)]), 5 * DAY));
    assert!(!none(&worn(50.0, 101, &[(DAY, 100), (2 * DAY, 100)]), 5 * DAY));
}

#[test]
fn years_are_extrapolated_from_the_oldest_sample() {
    // 1000 bytes in a year of 365.25 days, and half of 20000 bytes left.
    let s = worn(50.0, 1500, &[(DAY, 500), (2 * DAY, 600)]);
    let years = estimate_years_left_at(&s, 2000, 10, DAY + 31_557_600).unwrap();
    assert_eq!(number(years), 10.0);
}

#[test]
fn years_are_cut_off_at_100() {
    let s = worn(50.0, 501, &[(DAY, 500), (2 * DAY, 500)]);
    let years = estimate_years_left_at(&s, 1_000_000_000, 3000, 3 * DAY).unwrap();
    assert_eq!(number(years), 100.0);
    let s = worn(f64::NAN, 501, &[(DAY, 500), (2 * DAY, 500)]);
    assert_eq!(number(estimate_years_left_at(&s, 1000, 3000, 3 * DAY).unwrap()), 100.0);
}

#[test]
fn years_agree_with_native_arithmetic() {
    for i in 1..500u64 {
        let life = i as f64 / 5.0;
        let s = worn(life, 1_000_000 + i * 7919, &[(DAY, 1_000_000), (2 * DAY, 1_000_001)]);
        let now = 2 * DAY + i * 3601;
        let rate = (i * 7919) as f64 / (now - DAY) as f64;
        let remaining = (life / 100.0) * (3000u64 as f64 * 31_914_983u64 as f64);
        let expected = (remaining / rate / (365.25 * 24.0 * 3600.0)).min(100.0);
        let ours = estimate_years_left_at(&s, 31_914_983, 3000, now).unwrap();
        assert_eq!(ours.bits, expected.to_bits());
    }
}

#[test]
fn nothing_left_lasts_no_time() {
    let samples = [(DAY, 0), (2 * DAY, 1)];
    let years = |life: f64, card_bytes: u64, pe_cycles: u64| {
        let s = worn(life, 5_000, &samples);
        number(estimate_years_left_at(&s, card_bytes, pe_cycles, 3 * DAY).unwrap())
    };
    assert_eq!(years(0.0, 1_000_000, 3000), 0.0);
    assert_eq!(years(-0.0, 1_000_000, 3000), 0.0);
    assert_eq!(years(50.0, 0, 3000), 0.0);
    assert_eq!(years(50.0, 1_000_000, 0), 0.0);
    assert_eq!(years(f64::INFINITY, 0, 0), 100.0);
}

#[test]
fn larger_cards_and_more_cycles_last_longer() {
    let s = worn(61.7, 987_654_321, &[(DAY, 12_345), (2 * DAY, 99_999)]);
    let years = |card_bytes: u64, pe_cycles: u64| {
        number(estimate_years_left_at(&s, card_bytes, pe_cycles, 3 * DAY).unwrap())
    };
    let mut last = 0.0;
    for i in 0..500u64 {
        let y = years(i * 77_777, 100 + i);
        assert!(y >= last && y >= 0.0, "{i}");
        last = y;
    }
}

#[test]
fn more_life_and_slower_wear_last_longer() {
    let years = |life: f64, oldest: u64| {
        let s = worn(life, 5_000_000, &[(DAY, oldest), (2 * DAY, 4_000_000)]);
        number(estimate_years_left_at(&s, 1_000_000, 3000, 3 * DAY).unwrap())
    };
    assert!(years(40.0, 0) <= years(80.0, 0));
    assert!(years(40.0, 0) <= years(40.0, 3_000_000));
}

#[test]
fn years_are_estimated_by_the_clock() {
    let now = clock_secs();
    let s = worn(50.0, 1500, &[(now - 31_557_600, 500), (now - DAY, 600)]);
    let years = number(estimate_years_left(&s, 2000, 10).unwrap());
    assert!((years - 10.0).abs() < 0.01, "{years}");
}

#[test]
fn years_are_written() {
    assert_eq!(format_years_left(None), "n/a");
    assert_eq!(format_years_left(Some(bits(100.0))), ">100y");
    assert_eq!(format_years_left(Some(bits(250.0))), ">100y");
    assert_eq!(format_years_left(Some(bits(4.5))), "4.5y");
    assert_eq!(format_years_left(Some(bits(4.449))), "4.4y");
    assert_eq!(format_years_left(Some(bits(0.0))), "0.0y");
    assert_eq!(format_years_left(Some(bits(99.99))), "100.0y");
}

fn monitor() -> Monitor {
    Monitor {
        state: fresh(),
        prev: stats(100, 50, 1000),
        parameters: CardParameters {
            card_bytes: 1_000_000_000,
            pe_cycles: 3000,
            flash_page_size: 16384,
            over_provision: bits(0.07),
        },
    }
}

#[test]
fn polls_without_activity_only_move_on() {
    let mut m = monitor();
    assert_eq!(m.poll(stats(100, 60, 1000)), None);
    assert_eq!(m.prev, stats(100, 60, 1000));
    assert_eq!(m.state.last_kernel_write_sectors, 1000);
    assert_eq!(m.state.last_kernel_write_ios, 100);
    assert_eq!(m.poll(stats(0, 0, 0)), None);
    assert_eq!(m.state.total_host_write_ios, 0);
    assert_eq!(m.state.last_kernel_write_sectors, 0);
}

#[test]
fn polls_with_activity_are_recorded_and_reported() {
    let mut m = monitor();
    let delta = m.poll(stats(112, 50, 1960)).unwrap();
    assert_eq!(delta, WriteDelta { ios: 12, merges: 0, sectors: 960 });
    let usage = vec![FsUsage { blocks: 1000, blocks_free: 577, block_size: 4096 }];
    assert!(m.can_record(&delta, &usage));
    let report = m.record(&delta, &usage);
    assert_eq!(report.ios, 12);
    assert_eq!(report.kb, 480);
    assert_eq!(number(report.avg_io_kb), 40.0);
    assert_eq!(number(report.sequential_ratio), 0.0);
    let fullness = 1.0 - (577.0 * 4096.0) / (1000.0 * 4096.0);
    assert_eq!(number(report.fullness), fullness);
    let waf = 1.0 + (1.0 / (1.0 - fullness * (1.0 - 0.07)) - 1.0);
    assert_eq!(number(report.waf), waf);
    assert!(report.years_left.is_none());
    assert_eq!(m.state.total_host_sectors_written, 960);
    assert_eq!(m.state.total_host_write_ios, 12);
    assert_eq!(m.state.estimated_flash_bytes_written, (491520.0 * waf) as u64);
    assert_eq!(m.state.last_kernel_write_sectors, 1960);
    assert_eq!(m.state.last_kernel_write_ios, 112);
    assert_eq!(number(m.state.filesystem_fullness_pct), 42.3);
    assert_eq!(m.state.wear_samples.len(), 1);
}

#[test]
fn activity_is_recorded_at_given_times() {
    let mut m = monitor();
    m.state.wear_samples =
        vec![WearSample { timestamp_secs: 10 * DAY, flash_bytes_written: 0 }];
    m.state.last_sample_timestamp = 10 * DAY;
    let delta = m.poll(stats(112, 50, 1960)).unwrap();
    let stamp = "1709456789".to_string();
    let report = m.record_at(&delta, &vec![], stamp, 11 * DAY, 12 * DAY);
    assert_eq!(m.state.last_updated, "1709456789");
    assert_eq!(
        m.state.wear_samples[1],
        WearSample { timestamp_secs: 11 * DAY, flash_bytes_written: 491520 }
    );
    assert_eq!(m.state.last_sample_timestamp, 11 * DAY);
    assert_eq!(number(report.waf), 1.0);
    let life = number(m.state.estimated_life_remaining_pct);
    let rate = 491520.0 / (2 * DAY) as f64;
    let years = (life / 100.0) * (3000.0 * 1e9) / rate / 31_557_600.0;
    assert_eq!(number(report.years_left.unwrap()), years.min(100.0));
}

#[test]
fn a_session_counts_every_sector_once() {
    let mut m = monitor();
    m.state.total_host_sectors_written = 7;
    m.state.total_host_write_ios = 9;
    let readings =
        [(100, 1000), (101, 1001), (101, 1500), (101, 1500), (140, 1500), (141, 4000), (150, 4096)];
    for (ios, sectors) in readings {
        if let Some(delta) = m.poll(stats(ios, 50, sectors)) {
            assert!(m.can_record(&delta, &vec![]));
            m.record(&delta, &vec![]);
        }
    }
    assert_eq!(m.state.total_host_sectors_written, 7 + 3096);
    assert_eq!(m.state.total_host_write_ios, 9 + 50);
    assert_eq!(m.state.last_kernel_write_sectors, 4096);
    assert_eq!(m.state.last_kernel_write_ios, 150);
}

#[test]
fn activity_that_cannot_be_recorded_is_recognised() {
    let mut m = monitor();
    let delta = WriteDelta { ios: 1, merges: 0, sectors: u64::MAX / 4 };
    assert!(!m.can_record(&delta, &vec![]));
    m.state.estimated_flash_bytes_written = u64::MAX;
    assert!(!m.can_record(&WriteDelta { ios: 1, merges: 0, sectors: 1 }, &vec![]));
}
