//! The write counters that the kernel keeps for a block device.

use vstd::prelude::*;
use crate::text;

verus! {

/// The bytes in a sector, whatever the device: the unit in which the kernel counts.
pub const SECTOR_BYTES: u64 = 512;

/// The write counters of a device, as `/sys/block/<dev>/stat` gives them.
#[derive(Debug, Clone, Copy, PartialEq, Eq, Structural)]
pub struct KernelStats {
    /// Write requests that were dispatched to the device.
    pub write_ios: u64,
    /// Write requests that were merged with an adjacent one before dispatch.
    pub write_merges: u64,
    /// Sectors that were written.
    pub write_sectors: u64,
}

/// The numbers among the words of a text, in order; other words are passed over.
pub open spec fn numbers(words: Seq<Seq<char>>) -> Seq<u64>
    decreases words.len(),
{
    if words.len() == 0 {
        seq![]
    } else {
        let rest = numbers(words.drop_last());
        match text::number(words.last()) {
            Ok(n) => rest.push(n),
            Err(_) => rest,
        }
    }
}

/// The field at an index, or 0 where the line has no such field.
pub open spec fn field(fields: Seq<u64>, i: int) -> u64 {
    if i < fields.len() {
        fields[i]
    } else {
        0
    }
}

/// The counters in the text of a stat file. Of the numbers there, counted from 0, the
/// write requests are at 4, the merged ones at 5 and the sectors at 6.
pub open spec fn stats_in(content: Seq<char>) -> KernelStats {
    let fields = numbers(text::words(content));
    KernelStats {
        write_ios: field(fields, 4),
        write_merges: field(fields, 5),
        write_sectors: field(fields, 6),
    }
}

fn field_or_zero(fields: &Vec<u64>, i: usize) -> (n: u64)
    ensures
        n == field(fields@, i as int),
{
    if i < fields.len() {
        fields[i]
    } else {
        0
    }
}

/// Reads the write counters out of the text of a stat file.
pub fn parse_kernel_stats(content: &str) -> (stats: KernelStats)
    ensures
        stats == stats_in(content@),
{
    let words = text::split_words(&text::chars_of(content));
    let ghost model = text::words(content@);
    let mut fields: Vec<u64> = Vec::new();
    assert(model.take(0) =~= seq![]);
    for i in 0..words.len()
        invariant
            text::contents(words@) == model,
            fields@ == numbers(model.take(i as int)),
    {
        assert(model.take(i + 1).drop_last() =~= model.take(i as int));
        assert(model[i as int] == words@[i as int]@);
        if let Ok(n) = text::parse_number(&words[i]) {
            fields.push(n);
        }
    }
    assert(model.take(words@.len() as int) =~= model);
    KernelStats {
        write_ios: field_or_zero(&fields, 4),
        write_merges: field_or_zero(&fields, 5),
        write_sectors: field_or_zero(&fields, 6),
    }
}

// ---------------------------------------------------------------------------
// What was written between two readings
// ---------------------------------------------------------------------------
/// What was written between two readings of the counters.
#[derive(Debug, Clone, Copy, PartialEq, Eq, Structural)]
pub struct WriteDelta {
    pub ios: u64,
    pub merges: u64,
    pub sectors: u64,
}

/// How far a counter went up; one that went down was reset, and counts as not moved.
pub open spec fn advance(before: u64, after: u64) -> u64 {
    if after >= before {
        (after - before) as u64
    } else {
        0
    }
}

impl KernelStats {
    /// What was written since an earlier reading.
    pub open spec fn delta_since(self, before: KernelStats) -> WriteDelta {
        WriteDelta {
            ios: advance(before.write_ios, self.write_ios),
            merges: advance(before.write_merges, self.write_merges),
            sectors: advance(before.write_sectors, self.write_sectors),
        }
    }

    /// No counter is below the earlier reading.
    pub open spec fn not_before(self, before: KernelStats) -> bool {
        &&& before.write_ios <= self.write_ios
        &&& before.write_merges <= self.write_merges
        &&& before.write_sectors <= self.write_sectors
    }

    /// What was written since an earlier reading.
    pub fn since(&self, before: &KernelStats) -> (delta: WriteDelta)
        ensures
            delta == self.delta_since(*before),
    {
        WriteDelta {
            ios: self.write_ios.saturating_sub(before.write_ios),
            merges: self.write_merges.saturating_sub(before.write_merges),
            sectors: self.write_sectors.saturating_sub(before.write_sectors),
        }
    }
}

impl WriteDelta {
    /// There was write activity: a request was dispatched or a sector written.
    pub open spec fn active(self) -> bool {
        self.ios > 0 || self.sectors > 0
    }

    /// The bytes that the host wrote.
    pub open spec fn bytes(self) -> int {
        self.sectors * SECTOR_BYTES
    }

    /// Write requests, before merging.
    pub open spec fn io_events(self) -> int {
        self.ios + self.merges
    }

    /// Every figure that is derived from the delta fits in 64 bits.
    pub open spec fn fits(self) -> bool {
        self.bytes() <= u64::MAX && self.io_events() <= u64::MAX
    }

    /// Whether there was write activity.
    pub fn is_active(&self) -> (b: bool)
        ensures
            b == self.active(),
    {
        self.ios > 0 || self.sectors > 0
    }

    /// Whether every figure that is derived from the delta fits in 64 bits.
    pub fn is_representable(&self) -> (b: bool)
        ensures
            b == self.fits(),
    {
        self.sectors <= u64::MAX / SECTOR_BYTES && self.ios <= u64::MAX - self.merges
    }

    /// The bytes that the host wrote.
    pub fn host_bytes(&self) -> (n: u64)
        requires
            self.bytes() <= u64::MAX,
        ensures
            n == self.bytes(),
    {
        self.sectors * SECTOR_BYTES
    }

    /// The whole kilobytes that the host wrote.
    pub fn host_kb(&self) -> (n: u64)
        requires
            self.bytes() <= u64::MAX,
        ensures
            n == self.bytes() / 1024,
    {
        self.host_bytes() / 1024
    }

    /// Write requests, before merging.
    pub fn total_io_events(&self) -> (n: u64)
        requires
            self.io_events() <= u64::MAX,
        ensures
            n == self.io_events(),
            self.merges <= n,
    {
        self.ios + self.merges
    }
}

// ---------------------------------------------------------------------------
// Laws
// ---------------------------------------------------------------------------
/// What is written between three readings adds up, as long as no counter goes back.
pub proof fn law_deltas_add_up(first: KernelStats, second: KernelStats, third: KernelStats)
    requires
        second.not_before(first),
        third.not_before(second),
    ensures
        third.delta_since(first).ios == second.delta_since(first).ios + third.delta_since(
            second,
        ).ios,
        third.delta_since(first).merges == second.delta_since(first).merges + third.delta_since(
            second,
        ).merges,
        third.delta_since(first).sectors == second.delta_since(first).sectors
            + third.delta_since(second).sectors,
{
}

/// Counters that all went back, as they do at a reboot, show no activity.
pub proof fn law_reset_counters_show_no_activity(before: KernelStats, after: KernelStats)
    requires
        before.not_before(after),
    ensures
        !after.delta_since(before).active(),
{
}

/// What was written between two readings is what brings each counter from the one to the other;
/// a counter that went back shows nothing.
pub proof fn law_delta_is_the_difference(before: KernelStats, after: KernelStats)
    ensures
        ({
            let delta = after.delta_since(before);
            &&& before.write_ios <= after.write_ios ==> before.write_ios + delta.ios
                == after.write_ios
            &&& before.write_merges <= after.write_merges ==> before.write_merges + delta.merges
                == after.write_merges
            &&& before.write_sectors <= after.write_sectors ==> before.write_sectors
                + delta.sectors == after.write_sectors
            &&& after.write_ios < before.write_ios ==> delta.ios == 0
            &&& after.write_merges < before.write_merges ==> delta.merges == 0
            &&& after.write_sectors < before.write_sectors ==> delta.sectors == 0
        }),
{
}

/// A sector is 512 bytes; a request or a sector is activity, a merge alone is none; and the
/// requests before merging are those that were dispatched and those that were merged.
pub proof fn law_figures_of_a_delta(delta: WriteDelta)
    ensures
        delta.bytes() == 512 * delta.sectors,
        delta.active() <==> !(delta.ios == 0 && delta.sectors == 0),
        delta.io_events() - delta.merges == delta.ios,
        delta.fits() <==> 512 * delta.sectors <= u64::MAX && delta.ios + delta.merges <= u64::MAX,
{
}

/// The numbers of two runs of words are those of the first and then those of the second.
pub proof fn law_numbers_follow_the_words(a: Seq<Seq<char>>, b: Seq<Seq<char>>)
    ensures
        numbers(a + b) == numbers(a) + numbers(b),
    decreases b.len(),
{
    if b.len() == 0 {
        assert(a + b =~= a);
        assert(numbers(a) + numbers(b) =~= numbers(a));
    } else {
        law_numbers_follow_the_words(a, b.drop_last());
        assert((a + b).drop_last() =~= a + b.drop_last());
        assert((a + b).last() == b.last());
        assert(numbers(a + b) =~= numbers(a) + numbers(b));
    }
}

/// A word that is a number gives that number, and any other word gives nothing.
pub proof fn law_word_gives_its_number(word: Seq<char>)
    ensures
        text::number(word) matches Ok(n) ==> numbers(seq![word]) == seq![n],
        text::number(word) is Err ==> numbers(seq![word]) == Seq::<u64>::empty(),
{
    let one = seq![word];
    assert(one.drop_last() =~= seq![]);
    assert(numbers(one.drop_last()) =~= seq![]);
    assert(numbers(one) =~= match text::number(word) {
        Ok(n) => seq![n],
        Err(_) => seq![],
    });
}

/// Of the numbers that the kernel writes, the write requests are the fifth, the merged ones the
/// sixth and the sectors the seventh; one that the text does not have is 0. Where every word is
/// a number, these are the fifth, sixth and seventh word.
pub proof fn law_counters_are_read_by_place(content: Seq<char>, i: int)
    requires
        4 <= i <= 6,
    ensures
        ({
            let found = numbers(text::words(content));
            let words = text::words(content);
            let stats = stats_in(content);
            let counter = if i == 4 {
                stats.write_ios
            } else if i == 5 {
                stats.write_merges
            } else {
                stats.write_sectors
            };
            &&& i < found.len() ==> counter == found[i]
            &&& i >= found.len() ==> counter == 0
            &&& i < words.len() && (forall|k: int|
                0 <= k < words.len() ==> text::number(#[trigger] words[k]) is Ok) ==> text::number(
                words[i],
            ) == Ok::<u64, text::NumberError>(counter)
        }),
{
    let words = text::words(content);
    if i < words.len() && (forall|k: int|
        0 <= k < words.len() ==> text::number(#[trigger] words[k]) is Ok) {
        lemma_all_numbers(words);
    }
}

/// Where every word is a number, the numbers are those of the words, one for one.
proof fn lemma_all_numbers(words: Seq<Seq<char>>)
    requires
        forall|i: int| 0 <= i < words.len() ==> text::number(#[trigger] words[i]) is Ok,
    ensures
        numbers(words).len() == words.len(),
        forall|i: int|
            0 <= i < words.len() ==> text::number(#[trigger] words[i]) == Ok::<
                u64,
                text::NumberError,
            >(numbers(words)[i]),
    decreases words.len(),
{
    if words.len() > 0 {
        let init = words.drop_last();
        assert forall|i: int| 0 <= i < init.len() implies text::number(
            #[trigger] init[i],
        ) is Ok by {
            assert(init[i] == words[i]);
        }
        lemma_all_numbers(init);
        assert(text::number(words[words.len() - 1]) is Ok);
        assert forall|i: int| 0 <= i < words.len() implies text::number(#[trigger] words[i])
            == Ok::<u64, text::NumberError>(numbers(words)[i]) by {
            if i < init.len() {
                assert(init[i] == words[i]);
                assert(numbers(words)[i] == numbers(init)[i]);
            }
        }
    }
}

} // verus!
