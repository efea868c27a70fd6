//! The geometry of a card: its capacity and its erase block size.

use vstd::prelude::*;
use crate::binary64::Binary64;
use crate::kernel;
use crate::mounts;
use crate::state::CardDescription;
use crate::text;

verus! {

/// The erase block size that is taken where the kernel reports no plausible one.
pub const FALLBACK_ERASE_BLOCK_BYTES: u64 = 4_194_304;

/// The least plausible erase block size. Smaller values are logical block sizes.
pub const MIN_ERASE_BLOCK_BYTES: u64 = 65_536;

/// The bytes in a kilobyte.
pub const KB: u64 = 1024;

/// The number in the text of a sysfs attribute, which may end in white space.
pub open spec fn attribute(content: Seq<char>) -> Result<u64, text::NumberError> {
    text::number(text::trim(content))
}

/// Reads the text of a sysfs attribute as a number.
pub fn parse_attribute(content: &str) -> (r: Result<u64, text::NumberError>)
    ensures
        r == attribute(content@),
{
    text::parse_number(&text::trimmed(&text::chars_of(content)))
}

/// The capacity of a device in bytes, from the text of `/sys/block/<dev>/size`, which is its
/// size in sectors.
pub fn detect_card_bytes(size: &str) -> (r: Result<u64, text::NumberError>)
    requires
        attribute(size@) matches Ok(sectors) ==> sectors * kernel::SECTOR_BYTES <= u64::MAX,
    ensures
        r == match attribute(size@) {
            Ok(sectors) => Ok::<u64, text::NumberError>(
                (sectors * kernel::SECTOR_BYTES) as u64,
            ),
            Err(e) => Err(e),
        },
{
    match parse_attribute(size) {
        Ok(sectors) => Ok(sectors * kernel::SECTOR_BYTES),
        Err(e) => Err(e),
    }
}

/// A size in bytes that an erase block can have.
pub open spec fn plausible(n: u64) -> bool {
    n >= MIN_ERASE_BLOCK_BYTES && vstd::arithmetic::power2::is_pow2(n as int)
}

/// The plausible erase block size that an attribute gives, if it could be read and
/// gives one.
pub open spec fn plausible_size(content: Option<Seq<char>>) -> Option<u64> {
    match content {
        Some(c) => match attribute(c) {
            Ok(n) => if plausible(n) {
                Some(n)
            } else {
                None
            },
            Err(_) => None,
        },
        None => None,
    }
}

/// The erase block size in bytes: that of the discard granularity, else that of the
/// optimal request size, else the fallback.
pub open spec fn detected_size(
    discard_granularity: Option<Seq<char>>,
    optimal_io_size: Option<Seq<char>>,
) -> u64 {
    match plausible_size(discard_granularity) {
        Some(n) => n,
        None => match plausible_size(optimal_io_size) {
            Some(n) => n,
            None => FALLBACK_ERASE_BLOCK_BYTES,
        },
    }
}

fn is_power_of_two(n: u64) -> (b: bool)
    ensures
        b == vstd::arithmetic::power2::is_pow2(n as int),
{
    reveal(vstd::arithmetic::power2::is_pow2);
    if n == 0 {
        return false;
    }
    let mut m: u64 = n;
    while m % 2 == 0
        invariant
            m > 0,
            vstd::arithmetic::power2::is_pow2(m as int) == vstd::arithmetic::power2::is_pow2(
                n as int,
            ),
        decreases m,
    {
        reveal(vstd::arithmetic::power2::is_pow2);
        m = m / 2;
    }
    m == 1
}

/// The plausible erase block size that the text of an attribute gives, if there is a
/// text and it gives one.
fn plausible_erase_block(content: Option<&str>) -> (r: Option<u64>)
    ensures
        r == plausible_size(text::optional(content)),
{
    match content {
        Some(c) => match parse_attribute(c) {
            Ok(n) => if n >= MIN_ERASE_BLOCK_BYTES && is_power_of_two(n) {
                Some(n)
            } else {
                None
            },
            Err(_) => None,
        },
        None => None,
    }
}

/// Detects the erase block size, in bytes, from the texts of the queue attributes
/// `discard_granularity` and `optimal_io_size`; one that cannot be read is `None`.
pub fn detect_erase_block_bytes(
    discard_granularity: Option<&str>,
    optimal_io_size: Option<&str>,
) -> (n: u64)
    ensures
        n == detected_size(
            text::optional(discard_granularity),
            text::optional(optimal_io_size),
        ),
{
    match plausible_erase_block(discard_granularity) {
        Some(n) => n,
        None => match plausible_erase_block(optimal_io_size) {
            Some(n) => n,
            None => FALLBACK_ERASE_BLOCK_BYTES,
        },
    }
}

/// The erase block size in bytes: the one that the user gives in kilobytes, else the
/// one that was detected.
pub open spec fn erase_block(override_kb: Option<u64>, detected: u64) -> int {
    match override_kb {
        Some(kb) => kb * KB,
        None => detected as int,
    }
}

/// The erase block size in bytes: the one that the user gives in kilobytes, else the
/// one that was detected.
pub fn erase_block_bytes(override_kb: Option<u64>, detected: u64) -> (n: u64)
    requires
        override_kb matches Some(kb) ==> kb * KB <= u64::MAX,
    ensures
        n == erase_block(override_kb, detected),
{
    match override_kb {
        Some(kb) => kb * KB,
        None => detected,
    }
}

/// Whatever the kernel reports, the detected erase block size is plausible: at least
/// 64 KB and a power of two.
pub proof fn law_detected_size_is_plausible(
    discard_granularity: Option<Seq<char>>,
    optimal_io_size: Option<Seq<char>>,
)
    ensures
        plausible(detected_size(discard_granularity, optimal_io_size)),
{
    assert(vstd::arithmetic::power2::is_pow2(FALLBACK_ERASE_BLOCK_BYTES as int)) by {
        reveal_with_fuel(vstd::arithmetic::power2::is_pow2, 24);
    }
}

/// A size that the user gives in kilobytes is taken as it is, whatever was detected.
pub proof fn law_override_is_taken(kb: u64, detected: u64)
    ensures
        erase_block(Some(kb), detected) / (KB as int) == kb,
{
}

/// The capacity in gigabytes: `card_bytes / 1024 / 1024 / 1024`.
pub open spec fn gigabytes(card_bytes: u64) -> Binary64 {
    Binary64::of(card_bytes).quotient(Binary64::of(1_073_741_824))
}

/// A number with one decimal.
pub open spec fn to_one_decimal(x: Binary64) -> Binary64 {
    x.product(Binary64::of(10)).rounded_to_integer().quotient(Binary64::of(10))
}

/// The capacity in gigabytes.
pub fn card_gb(card_bytes: u64) -> (r: Binary64)
    ensures
        r == gigabytes(card_bytes),
{
    Binary64::from_integer(card_bytes).over(Binary64::from_integer(1_073_741_824))
}

/// The terabytes that can be written to flash over the life of a card: `card_bytes *
/// pe_cycles / 1000000000000`.
pub open spec fn lifetime_budget(card_bytes: u64, pe_cycles: u64) -> Binary64 {
    Binary64::of(card_bytes).product(Binary64::of(pe_cycles)).quotient(
        Binary64::of(1_000_000_000_000),
    )
}

/// The terabytes that can be written to flash over the life of a card.
pub fn lifetime_budget_tb(card_bytes: u64, pe_cycles: u64) -> (r: Binary64)
    ensures
        r == lifetime_budget(card_bytes, pe_cycles),
{
    Binary64::from_integer(card_bytes).times(Binary64::from_integer(pe_cycles)).over(
        Binary64::from_integer(1_000_000_000_000),
    )
}

/// Describes a card: the name of its device, its capacity, its erase block size, its rated
/// cycles, and where its file systems are mounted.
pub fn describe(
    device: String,
    card_bytes: u64,
    erase_block_bytes: u64,
    pe_cycles: u64,
    mount_points: &Vec<(String, String)>,
) -> (card: CardDescription)
    ensures
        card.device@ == device@,
        card.card_size_gb == to_one_decimal(gigabytes(card_bytes)),
        card.card_size_bytes == card_bytes,
        card.erase_block_kb == erase_block_bytes / KB,
        card.pe_cycles_rated == pe_cycles,
        text::strings(card.mount_points@) == mounts::labels(mounts::pairs(mount_points@)),
{
    let ten = Binary64::from_integer(10);
    CardDescription {
        device,
        card_size_gb: card_gb(card_bytes).times(ten).round().over(ten),
        card_size_bytes: card_bytes,
        erase_block_kb: erase_block_bytes / KB,
        pe_cycles_rated: pe_cycles,
        mount_points: mounts::mount_labels(mount_points),
    }
}

/// What the kernel writes into an attribute, a number and a line feed, is read back.
pub proof fn law_attribute_is_read_back(n: u64)
    ensures
        attribute(text::decimal(n as nat) + "\n"@) == Ok::<u64, text::NumberError>(n),
{
    let s = text::decimal(n as nat);
    reveal_strlit("\n");
    text::law_decimal_is_digits_without_zeros_in_front(n);
    text::law_decimal_is_read_back(n);
    assert(text::is_digit(s[0]));
    assert(text::is_digit(s[s.len() - 1]));
    text::law_trimming_takes_the_space_around(seq![], s, "\n"@);
    assert(seq![] + s + "\n"@ =~= s + "\n"@);
}

/// A size is plausible exactly if it is a power of two and 64 KB at least.
pub proof fn law_plausible_sizes_are_powers_of_two(n: u64, e: nat)
    ensures
        n == vstd::arithmetic::power2::pow2(e) && e >= 16 ==> plausible(n),
        plausible(n) ==> n >= 65536 && exists|k: nat|
            k >= 16 && n == #[trigger] vstd::arithmetic::power2::pow2(k),
{
    vstd::arithmetic::power2::lemma2_to64();
    vstd::arithmetic::power2::is_pow2_equiv(n as int);
    if n == vstd::arithmetic::power2::pow2(e) && e >= 16 {
        vstd::arithmetic::power2::lemma_pow2(e);
        if e > 16 {
            vstd::arithmetic::power2::lemma_pow2_strictly_increases(16, e);
        }
        assert(vstd::arithmetic::power2::is_pow2_exists(n as int)) by {
            assert(vstd::arithmetic::power::pow(2, e) == n);
        }
    }
    if plausible(n) {
        let k = choose|k: nat| vstd::arithmetic::power::pow(2, k) == n;
        vstd::arithmetic::power2::lemma_pow2(k);
        if k < 16 {
            vstd::arithmetic::power2::lemma_pow2_strictly_increases(k, 16);
        }
        assert(n == vstd::arithmetic::power2::pow2(k));
    }
}

/// The text of an attribute is there, and gives this size, which an erase block can have.
pub open spec fn gives(content: Option<Seq<char>>, n: u64) -> bool {
    &&& content is Some
    &&& attribute(content->0) == Ok::<u64, text::NumberError>(n)
    &&& n >= 65536
    &&& vstd::arithmetic::power2::is_pow2(n as int)
}

/// The discard granularity is taken wherever it is plausible, whatever the optimal request size
/// is; where it gives no plausible size, the optimal request size is taken if that is one; and
/// else it is 4 MB.
pub proof fn law_discard_granularity_comes_first(
    discard_granularity: Option<Seq<char>>,
    optimal_io_size: Option<Seq<char>>,
    n: u64,
)
    ensures
        ({
            let size = detected_size(discard_granularity, optimal_io_size);
            let first = exists|k: u64| gives(discard_granularity, k);
            let second = exists|k: u64| gives(optimal_io_size, k);
            &&& gives(discard_granularity, n) ==> size == n
            &&& !first && gives(optimal_io_size, n) ==> size == n
            &&& !first && !second ==> size == 4 * 1024 * 1024
        }),
{
    if let Some(c) = discard_granularity {
        if let Ok(k) = attribute(c) {
            assert(plausible(k) ==> gives(discard_granularity, k));
        }
    }
    if let Some(c) = optimal_io_size {
        if let Ok(k) = attribute(c) {
            assert(plausible(k) ==> gives(optimal_io_size, k));
        }
    }
}

/// The erase block is what the user gives, in kilobytes, or else what was detected.
pub proof fn law_erase_block_is_given_or_detected(kb: u64, detected: u64)
    ensures
        erase_block(Some(kb), detected) == 1024 * kb,
        erase_block(None, detected) == detected,
{
}

/// White space around a number in an attribute makes no difference.
pub proof fn law_space_around_an_attribute_makes_no_difference(
    l: Seq<char>,
    m: Seq<char>,
    r: Seq<char>,
)
    requires
        text::all_space(l),
        text::all_space(r),
        m.len() > 0 ==> !text::is_space(m[0]) && !text::is_space(m.last()),
    ensures
        attribute(l + m + r) == text::number(m),
{
    text::law_trimming_takes_the_space_around(l, m, r);
}

} // verus!
