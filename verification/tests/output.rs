use sdestimator::binary64::Binary64;
use sdestimator::kernel::KernelStats;
use sdestimator::messages::{
    erase_block_message, preset_message, reboot_message, settings_message, summary,
};
use sdestimator::monitor::{CardParameters, PollReport};
use sdestimator::render::fixed;
use sdestimator::settings::SettingsError;
use sdestimator::state::{PresetOutcome, State};

fn bits(x: f64) -> Binary64 {
    Binary64 { bits: x.to_bits() }
}

fn written(x: f64, decimals: u32) -> String {
    fixed(bits(x), decimals)
}

struct Random {
    state: u64,
}

impl Random {
    fn next(&mut self) -> u64 {
        self.state ^= self.state << 13;
        self.state ^= self.state >> 7;
        self.state ^= self.state << 17;
        self.state
    }
}

#[test]
fn numbers_are_written_with_decimals() {
    assert_eq!(written(0.0, 0), "0");
    assert_eq!(written(0.0, 1), "0.0");
    assert_eq!(written(-0.0, 1), "-0.0");
    assert_eq!(written(40.0, 1), "40.0");
    assert_eq!(written(1.234, 2), "1.23");
    assert_eq!(written(0.000013, 6), "0.000013");
    assert_eq!(written(99.99868, 4), "99.9987");
    assert_eq!(written(9.96, 1), "10.0");
    assert_eq!(written(-0.04, 1), "-0.0");
    assert_eq!(written(1e22, 2), "10000000000000000000000.00");
}

#[test]
fn ties_are_written_with_an_even_digit() {
    assert_eq!(written(0.5, 0), "0");
    assert_eq!(written(1.5, 0), "2");
    assert_eq!(written(2.5, 0), "2");
    assert_eq!(written(0.25, 1), "0.2");
    assert_eq!(written(0.75, 1), "0.8");
}

#[test]
fn what_is_no_number_is_written() {
    assert_eq!(written(f64::NAN, 2), "NaN");
    assert_eq!(written(f64::INFINITY, 2), "inf");
    assert_eq!(written(f64::NEG_INFINITY, 2), "-inf");
}

#[test]
fn numbers_are_written_as_the_standard_library_does() {
    let mut random = Random { state: 2024 };
    for i in 0..40_000u64 {
        let x = match i % 4 {
            0 => f64::from_bits(random.next()),
            1 => (random.next() % 10_000_000) as f64 / 1000.0,
            2 => (random.next() % 100_000) as f64 / 64.0,
            _ => random.next() as f64 * 0.001,
        };
        for decimals in 0..=6u32 {
            let d = decimals as usize;
            assert_eq!(written(x, decimals), format!("{x:.d$}"));
        }
    }
}

#[test]
fn extreme_numbers_are_written() {
    for x in [f64::MAX, f64::MIN_POSITIVE, 5e-324, f64::MIN, 2f64.powi(53), 2f64.powi(52) - 0.5] {
        for decimals in 0..=6u32 {
            let d = decimals as usize;
            assert_eq!(written(x, decimals), format!("{x:.d$}"));
        }
    }
}

#[test]
fn polls_are_reported_on_a_line() {
    let report = PollReport {
        ios: 12,
        kb: 480,
        avg_io_kb: bits(40.0),
        waf: bits(1.23),
        sequential_ratio: bits(0.25),
        fullness: bits(0.423),
        avg_pe_cycles: bits(0.000013),
        life_remaining_pct: bits(99.9987),
        years_left: None,
    };
    assert_eq!(
        report.line(),
        "ios=12 kb=480 avg_kb=40.0 waf=1.23 seq=0.25 full=42.3% pe=0.000013 life=99.9987% yrs_left=n/a"
    );
    let later = PollReport { years_left: Some(bits(4.5)), ..report };
    assert!(later.line().ends_with(" yrs_left=4.5y"));
}

#[test]
fn faulty_settings_are_named() {
    assert_eq!(
        settings_message(SettingsError::InitialHealth, bits(120.0)),
        "Error: --initial-health value 120.00 is out of range. Must be between 0.0 and 100.0."
    );
    assert_eq!(
        settings_message(SettingsError::OverProvision, bits(0.75)),
        "Error: --over-provision value 0.750 is out of range. Must be between 0.0 and 0.5."
    );
}

#[test]
fn erase_block_size_is_told() {
    assert_eq!(erase_block_message(Some(512), 0), "Erase block:  512 KB (user override)");
    assert_eq!(erase_block_message(None, 4194304), "Erase block:  4096 KB (auto-detected)");
}

#[test]
fn fate_of_a_preset_is_told() {
    let path = "/var/lib/sdwear/state.json";
    assert_eq!(preset_message(PresetOutcome::NotRequested, bits(50.0), path), None);
    assert_eq!(
        preset_message(PresetOutcome::Applied, bits(75.25), path).unwrap(),
        "Initial health preset to 75.2% (--initial-health applied to new state file)"
    );
    assert_eq!(
        preset_message(PresetOutcome::Ignored, bits(75.0), path).unwrap(),
        "Note: --initial-health ignored because an existing state file was found at /var/lib/sdwear/state.json"
    );
}

#[test]
fn reboots_are_told() {
    let current = KernelStats { write_ios: 1, write_merges: 2, write_sectors: 30 };
    assert_eq!(
        reboot_message(&current, 400),
        "Reboot detected (kernel sectors 30 < stored 400). Continuing cumulative tracking."
    );
}

#[test]
fn sessions_begin_with_a_summary() {
    let mut state = State::started_at("1709123456".to_string());
    state.device = "mmcblk0".to_string();
    state.erase_block_kb = 4096;
    state.estimated_avg_pe_cycles = bits(0.000012);
    state.estimated_life_remaining_pct = bits(99.9988);
    let parameters = CardParameters {
        card_bytes: 137438953472,
        pe_cycles: 3000,
        flash_page_size: 16384,
        over_provision: bits(0.07),
    };
    let mounts = vec![
        ("/dev/mmcblk0p1".to_string(), "/boot".to_string()),
        ("/dev/mmcblk0p2".to_string(), "/".to_string()),
    ];
    let rule = "─".repeat(61);
    let lines = summary(&state, &parameters, "/var/lib/sdwear/state.json", 300, &mounts);
    assert_eq!(
        lines,
        vec![
            "sdwear — SD Card Flash Wear Estimator",
            "Device:        /dev/mmcblk0",
            "Card size:     128.0 GB (auto-detected)",
            "Erase block:   4096 KB",
            "Flash page:    16384 bytes",
            "Over-prov:     7%",
            "Rated P/E:     3000 cycles",
            "State file:    /var/lib/sdwear/state.json",
            "Save interval: 300 seconds",
            "Mount point:   /dev/mmcblk0p1 → /boot",
            "Mount point:   /dev/mmcblk0p2 → /",
            "Lifetime budget: 412.3 TB total flash writes",
            rule.as_str(),
            "Restored state: 0.000012 avg P/E cycles, 99.9988% life remaining",
            rule.as_str(),
        ]
    );
    let unmounted = summary(&state, &parameters, "s", 1, &vec![]);
    assert_eq!(unmounted.len(), 14);
    assert_eq!(unmounted[9], "Mount points:  none detected");
}
