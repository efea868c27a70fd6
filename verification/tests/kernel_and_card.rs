use sdestimator::card::{
    card_gb, describe, detect_card_bytes, detect_erase_block_bytes, erase_block_bytes,
    lifetime_budget_tb, parse_attribute,
};
use sdestimator::kernel::{parse_kernel_stats, KernelStats, WriteDelta};
use sdestimator::text::NumberError;

fn stats(write_ios: u64, write_merges: u64, write_sectors: u64) -> KernelStats {
    KernelStats { write_ios, write_merges, write_sectors }
}

#[test]
fn stat_file_is_read() {
    let content = "  1234  56  789 1011   98765  4321  1234567  222 0 333 444 0 0 0 0\n";
    assert_eq!(parse_kernel_stats(content), stats(98765, 4321, 1234567));
}

#[test]
fn missing_fields_count_zero() {
    assert_eq!(parse_kernel_stats(""), stats(0, 0, 0));
    assert_eq!(parse_kernel_stats("1 2 3 4 5"), stats(5, 0, 0));
    assert_eq!(parse_kernel_stats("1 2 3 4 5 6"), stats(5, 6, 0));
    assert_eq!(parse_kernel_stats("1 2 3 4 5 6 7"), stats(5, 6, 7));
}

#[test]
fn words_that_are_no_numbers_are_passed_over() {
    assert_eq!(parse_kernel_stats("1 x 2 3 4 5 -6 7 8"), stats(5, 7, 8));
}

#[test]
fn deltas_are_differences() {
    let before = stats(10, 20, 30);
    let after = stats(15, 20, 130);
    let delta = after.since(&before);
    assert_eq!(delta, WriteDelta { ios: 5, merges: 0, sectors: 100 });
    assert!(delta.is_active());
    assert_eq!(delta.host_bytes(), 51200);
    assert_eq!(delta.host_kb(), 50);
    assert_eq!(delta.total_io_events(), 5);
}

#[test]
fn deltas_of_three_readings_add_up() {
    let (a, b, c) = (stats(1, 2, 3), stats(10, 20, 30), stats(100, 200, 300));
    let (ab, bc, ac) = (b.since(&a), c.since(&b), c.since(&a));
    assert_eq!(ab.ios + bc.ios, ac.ios);
    assert_eq!(ab.merges + bc.merges, ac.merges);
    assert_eq!(ab.sectors + bc.sectors, ac.sectors);
}

#[test]
fn reset_counters_show_no_activity() {
    let delta = stats(0, 0, 5).since(&stats(10, 10, 10));
    assert_eq!(delta, WriteDelta { ios: 0, merges: 0, sectors: 0 });
    assert!(!delta.is_active());
}

#[test]
fn merges_alone_are_no_activity() {
    assert!(!WriteDelta { ios: 0, merges: 9, sectors: 0 }.is_active());
    assert!(WriteDelta { ios: 1, merges: 0, sectors: 0 }.is_active());
    assert!(WriteDelta { ios: 0, merges: 0, sectors: 1 }.is_active());
}

#[test]
fn figures_beyond_64_bits_are_recognised() {
    assert!(WriteDelta { ios: 1, merges: 1, sectors: u64::MAX / 512 }.is_representable());
    assert!(!WriteDelta { ios: 1, merges: 1, sectors: u64::MAX / 512 + 1 }.is_representable());
    assert!(!WriteDelta { ios: u64::MAX, merges: 1, sectors: 1 }.is_representable());
    assert!(WriteDelta { ios: u64::MAX, merges: 0, sectors: 1 }.is_representable());
}

#[test]
fn card_size_is_read_in_sectors() {
    assert_eq!(detect_card_bytes("268435456\n"), Ok(137438953472));
    assert_eq!(detect_card_bytes("0"), Ok(0));
    assert_eq!(detect_card_bytes("\n"), Err(NumberError::Empty));
    assert_eq!(detect_card_bytes("12 34"), Err(NumberError::InvalidDigit));
    assert_eq!(detect_card_bytes("99999999999999999999"), Err(NumberError::TooLarge));
}

#[test]
fn attributes_may_be_surrounded_by_white_space() {
    assert_eq!(parse_attribute(" 4096 \n"), Ok(4096));
}

#[test]
fn erase_block_is_taken_from_the_discard_granularity_first() {
    assert_eq!(detect_erase_block_bytes(Some("4194304\n"), Some("65536\n")), 4194304);
    assert_eq!(detect_erase_block_bytes(Some("65536"), None), 65536);
}

#[test]
fn implausible_erase_blocks_are_passed_over() {
    // Zero, too small, no power of two, no number, unreadable.
    for first in [Some("0"), Some("512"), Some("32768"), Some("100000"), Some("x"), Some(""), None] {
        assert_eq!(detect_erase_block_bytes(first, Some("131072")), 131072, "{first:?}");
        assert_eq!(detect_erase_block_bytes(first, Some("131073")), 4194304, "{first:?}");
        assert_eq!(detect_erase_block_bytes(first, None), 4194304, "{first:?}");
    }
    assert_eq!(detect_erase_block_bytes(Some("9223372036854775808"), None), 1 << 63);
}

#[test]
fn erase_block_override_is_taken() {
    assert_eq!(erase_block_bytes(Some(512), 4194304), 524288);
    assert_eq!(erase_block_bytes(Some(0), 4194304), 0);
    assert_eq!(erase_block_bytes(None, 4194304), 4194304);
}

#[test]
fn sizes_are_converted() {
    assert_eq!(f64::from_bits(card_gb(137438953472).bits), 128.0);
    assert_eq!(
        f64::from_bits(lifetime_budget_tb(128_000_000_000, 3000).bits),
        384.0
    );
    for n in [0u64, 1, 31_914_983_424, 63_864_569_856, u64::MAX] {
        let expected = n as f64 / (1024.0 * 1024.0 * 1024.0);
        assert_eq!(card_gb(n).bits, expected.to_bits());
    }
}

#[test]
fn cards_are_described() {
    let mounts = vec![
        ("/dev/mmcblk0p1".to_string(), "/boot".to_string()),
        ("/dev/mmcblk0p2".to_string(), "/".to_string()),
    ];
    let card = describe("mmcblk0".to_string(), 31_914_983_424, 4194304, 3000, &mounts);
    assert_eq!(card.device, "mmcblk0");
    assert_eq!(f64::from_bits(card.card_size_gb.bits), 29.7);
    assert_eq!(card.card_size_bytes, 31_914_983_424);
    assert_eq!(card.erase_block_kb, 4096);
    assert_eq!(card.pe_cycles_rated, 3000);
    assert_eq!(
        card.mount_points,
        vec!["/dev/mmcblk0p1 -> /boot".to_string(), "/dev/mmcblk0p2 -> /".to_string()]
    );
}
