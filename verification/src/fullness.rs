//! How full the file systems of a device are.

use vstd::prelude::*;
use crate::binary64;
use crate::binary64::Binary64;
use crate::order;

verus! {

/// The size and the occupation of a file system, in blocks.
#[derive(Debug, Clone, Copy, PartialEq, Eq, Structural)]
pub struct FsUsage {
    pub blocks: u64,
    pub blocks_free: u64,
    /// The bytes in a block.
    pub block_size: u64,
}

impl FsUsage {
    /// The capacity in bytes: `blocks * block_size`.
    pub open spec fn capacity(self) -> Binary64 {
        Binary64::of(self.blocks).product(Binary64::of(self.block_size))
    }

    /// The free bytes: `blocks_free * block_size`.
    pub open spec fn free(self) -> Binary64 {
        Binary64::of(self.blocks_free).product(Binary64::of(self.block_size))
    }

    /// The fraction that is used: `1 - free / capacity`.
    pub open spec fn used(self) -> Binary64 {
        (Binary64 { bits: binary64::ONE }).difference(self.free().quotient(self.capacity()))
    }

    /// The file system has a capacity, and more than the given fraction of it is used.
    pub open spec fn fuller_than(self, fraction: Binary64) -> bool {
        (Binary64 { bits: binary64::ZERO }).lt(self.capacity()) && fraction.lt(self.used())
    }
}

/// What the file systems that answered have told, in order; the others are passed over.
pub open spec fn answers(asked: Seq<Option<FsUsage>>) -> Seq<FsUsage>
    decreases asked.len(),
{
    if asked.len() == 0 {
        seq![]
    } else {
        let before = answers(asked.drop_last());
        match asked.last() {
            Some(u) => before.push(u),
            None => before,
        }
    }
}

/// What the file systems that answered have told: one that did not is no part of the
/// fullness.
pub fn answered(asked: &Vec<Option<FsUsage>>) -> (r: Vec<FsUsage>)
    ensures
        r@ == answers(asked@),
{
    let mut r: Vec<FsUsage> = Vec::new();
    assert(asked@.take(0) =~= seq![]);
    for i in 0..asked.len()
        invariant
            r@ == answers(asked@.take(i as int)),
    {
        assert(asked@.take(i + 1).drop_last() =~= asked@.take(i as int));
        if let Some(u) = asked[i] {
            r.push(u);
        }
    }
    assert(asked@.take(asked@.len() as int) =~= asked@);
    r
}

/// The fraction that is used of the fullest file system; 0, where none is used at all.
pub open spec fn fullest(usage: Seq<FsUsage>) -> Binary64
    decreases usage.len(),
{
    if usage.len() == 0 {
        Binary64 { bits: binary64::ZERO }
    } else {
        let before = fullest(usage.drop_last());
        if usage.last().fuller_than(before) {
            usage.last().used()
        } else {
            before
        }
    }
}

/// The fraction that is used of the fullest file system. One nearly full file system puts
/// the whole card under pressure.
pub fn max_filesystem_fullness(usage: &Vec<FsUsage>) -> (r: Binary64)
    ensures
        r == fullest(usage@),
{
    let zero = Binary64 { bits: binary64::ZERO };
    let one = Binary64 { bits: binary64::ONE };
    let mut max_used: Binary64 = zero;
    assert(usage@.take(0) =~= seq![]);
    for i in 0..usage.len()
        invariant
            zero == (Binary64 { bits: binary64::ZERO }),
            one == (Binary64 { bits: binary64::ONE }),
            max_used == fullest(usage@.take(i as int)),
    {
        assert(usage@.take(i + 1).drop_last() =~= usage@.take(i as int));
        let u = usage[i];
        let block_size = Binary64::from_integer(u.block_size);
        let total = Binary64::from_integer(u.blocks).times(block_size);
        let free = Binary64::from_integer(u.blocks_free).times(block_size);
        if zero.less(total) {
            let used_frac = one.minus(free.over(total));
            if max_used.less(used_frac) {
                max_used = used_frac;
            }
        }
    }
    assert(usage@.take(usage@.len() as int) =~= usage@);
    max_used
}

// ---------------------------------------------------------------------------
// Laws
// ---------------------------------------------------------------------------
/// Where a file system has a capacity, what is used of it is a number, and at most one.
proof fn lemma_used(u: FsUsage)
    requires
        (Binary64 { bits: binary64::ZERO }).lt(u.capacity()),
    ensures
        !u.used().is_nan(),
        u.used().le(Binary64 { bits: binary64::ONE }),
{
    let zero = Binary64 { bits: binary64::ZERO };
    let one = Binary64 { bits: binary64::ONE };
    binary64::law_named_numbers();
    order::lemma_product_of(u.blocks, u.block_size);
    order::lemma_product_of(u.blocks_free, u.block_size);
    order::lemma_quotient_number(u.free(), u.capacity());
    let share = u.free().quotient(u.capacity());
    order::lemma_difference_antitone(one, zero, share);
    order::lemma_negated(zero);
    order::lemma_sum_number(one, zero.negated());
    order::lemma_rounded_number_exact(one);
}

/// The fullness is a fraction between 0 and 1, whatever the file systems report.
pub proof fn law_fullness_is_a_fraction(usage: Seq<FsUsage>)
    ensures
        (Binary64 { bits: binary64::ZERO }).le(fullest(usage)),
        fullest(usage).le(Binary64 { bits: binary64::ONE }),
    decreases usage.len(),
{
    binary64::law_named_numbers();
    if usage.len() > 0 {
        law_fullness_is_a_fraction(usage.drop_last());
        if usage.last().fuller_than(fullest(usage.drop_last())) {
            lemma_used(usage.last());
        }
    }
}

/// The fullness is that of the fullest file system: none is fuller, and it is 0 or that of
/// one of them.
pub proof fn law_fullness_is_that_of_the_fullest(usage: Seq<FsUsage>)
    ensures
        forall|i: int|
            0 <= i < usage.len() ==> !(#[trigger] usage[i]).fuller_than(fullest(usage)),
        fullest(usage) == (Binary64 { bits: binary64::ZERO }) || exists|i: int|
            0 <= i < usage.len() && (#[trigger] usage[i]).used() == fullest(usage),
    decreases usage.len(),
{
    if usage.len() > 0 {
        let init = usage.drop_last();
        let before = fullest(init);
        law_fullness_is_that_of_the_fullest(init);
        law_fullness_is_a_fraction(init);
        law_fullness_is_a_fraction(usage);
        assert forall|i: int| 0 <= i < usage.len() implies !(#[trigger] usage[i]).fuller_than(
            fullest(usage),
        ) by {
            if i < init.len() {
                assert(init[i] == usage[i]);
                assert(!init[i].fuller_than(before));
            }
        }
        if usage.last().fuller_than(before) {
            assert(usage[usage.len() - 1].used() == fullest(usage));
        } else if before != (Binary64 { bits: binary64::ZERO }) {
            let i = choose|i: int| 0 <= i < init.len() && (#[trigger] init[i]).used() == before;
            assert(usage[i].used() == fullest(usage));
        }
    }
}

/// The answers of two runs of file systems are those of the first and then those of the second.
pub proof fn law_answers_follow_the_questions(
    a: Seq<Option<FsUsage>>,
    b: Seq<Option<FsUsage>>,
)
    ensures
        answers(a + b) == answers(a) + answers(b),
    decreases b.len(),
{
    if b.len() == 0 {
        assert(a + b =~= a);
        assert(answers(a) + answers(b) =~= answers(a));
    } else {
        law_answers_follow_the_questions(a, b.drop_last());
        assert((a + b).drop_last() =~= a + b.drop_last());
        assert((a + b).last() == b.last());
        assert(answers(a + b) =~= answers(a) + answers(b));
    }
}

/// An answer counts, and none does not.
pub proof fn law_answer_counts(u: FsUsage)
    ensures
        answers(seq![Some(u)]) == seq![u],
        answers(seq![None]).len() == 0,
{
    let (yes, no): (Seq<Option<FsUsage>>, Seq<Option<FsUsage>>) = (seq![Some(u)], seq![None]);
    assert(yes.drop_last() =~= seq![]);
    assert(no.drop_last() =~= seq![]);
    assert(answers(yes.drop_last()) =~= seq![]);
    assert(answers(yes) =~= seq![u]);
}

/// No file system with a capacity is fuller than the fullness, and the fullness is 0 or that of
/// one with a capacity.
pub proof fn law_fullness_is_the_largest_use(usage: Seq<FsUsage>)
    ensures
        forall|i: int|
            0 <= i < usage.len() && (#[trigger] usage[i]).blocks > 0 && usage[i].block_size > 0
                ==> usage[i].used().le(fullest(usage)),
        fullest(usage) == (Binary64 { bits: binary64::ZERO }) || exists|i: int|
            0 <= i < usage.len() && (#[trigger] usage[i]).blocks > 0 && usage[i].block_size > 0
                && usage[i].used() == fullest(usage),
    decreases usage.len(),
{
    binary64::law_named_numbers();
    if usage.len() > 0 {
        let init = usage.drop_last();
        let last = usage.last();
        law_fullness_is_the_largest_use(init);
        law_fullness_is_a_fraction(init);
        lemma_capacity(last);
        if last.blocks > 0 && last.block_size > 0 {
            lemma_used(last);
        }
        assert forall|i: int|
            0 <= i < usage.len() && (#[trigger] usage[i]).blocks > 0 && usage[i].block_size
                > 0 implies usage[i].used().le(fullest(usage)) by {
            if i < init.len() {
                assert(init[i] == usage[i]);
            }
        }
        if last.fuller_than(fullest(init)) {
            assert(usage[usage.len() - 1].used() == fullest(usage));
        } else if fullest(init) != (Binary64 { bits: binary64::ZERO }) {
            let i = choose|i: int|
                0 <= i < init.len() && (#[trigger] init[i]).blocks > 0 && init[i].block_size > 0
                    && init[i].used() == fullest(init);
            assert(usage[i] == init[i]);
        }
    }
}

/// A file system has a capacity exactly if it has blocks and these have bytes.
proof fn lemma_capacity(u: FsUsage)
    ensures
        (Binary64 { bits: binary64::ZERO }).lt(u.capacity()) <==> u.blocks > 0 && u.block_size
            > 0,
{
    binary64::law_named_numbers();
    order::lemma_one_positive();
    order::lemma_product_of(u.blocks, u.block_size);
    if u.blocks == 0 || u.block_size == 0 {
        order::lemma_product_of_nothing(u.blocks, u.block_size);
    }
}

} // verus!
