//! The occupied minutes of a week as a bit set, and what a week costs.
use vstd::prelude::*;
use crate::model::{meeting_valid, times_overlap, Meeting, Score};

verus! {

pub const MINUTES_PER_DAY: usize = 1440;

pub const MINUTES_PER_WEEK: usize = 10080;

/// Words of 64 bits that hold a week.
pub const WEEK_WORDS: usize = 158;

/// A set of minutes of the week, counted from midnight on Monday.
#[derive(Clone, Copy, Debug, PartialEq, Eq)]
pub struct WeekBits {
    words: [u64; 158],
}

spec fn bit(word: u64, k: u64) -> bool {
    word & (1u64 << k) != 0
}

proof fn lemma_or_bit(a: u64, b: u64, k: u64)
    requires
        k < 64,
    ensures
        bit(a | b, k) == (bit(a, k) || bit(b, k)),
{
    assert(((a | b) & (1u64 << k) != 0) == ((a & (1u64 << k) != 0) || (b & (1u64 << k) != 0)))
        by (bit_vector);
}

proof fn lemma_one_bit(j: u64, k: u64)
    requires
        j < 64,
        k < 64,
    ensures
        bit(1u64 << j, k) == (j == k),
{
    assert(((1u64 << j) & (1u64 << k) != 0) == (j == k)) by (bit_vector)
        requires
            j < 64,
            k < 64,
    ;
}

proof fn lemma_and_bit(a: u64, b: u64, k: u64)
    ensures
        bit(a & b, k) == (bit(a, k) && bit(b, k)),
{
    assert(((a & b) & (1u64 << k) != 0) == ((a & (1u64 << k) != 0) && (b & (1u64 << k) != 0)))
        by (bit_vector);
}

proof fn lemma_some_bit(x: u64) -> (k: u64)
    requires
        x != 0,
    ensures
        k < 64,
        bit(x, k),
    decreases x,
{
    if x & 1 != 0 {
        assert(x & (1u64 << 0u64) != 0) by (bit_vector)
            requires
                x & 1 != 0,
        ;
        0
    } else {
        let half = x >> 1u64;
        assert(half != 0 && half < x) by (bit_vector)
            requires
                x != 0,
                x & 1 == 0,
                half == x >> 1u64,
        ;
        let k = lemma_some_bit(half);
        assert(k < 63 && x & (1u64 << ((k + 1) as u64)) != 0) by (bit_vector)
            requires
                half == x >> 1u64,
                k < 64,
                half & (1u64 << k) != 0,
        ;
        (k + 1) as u64
    }
}

/// The minute of the week at which a time of a weekday falls.
pub open spec fn week_minute(weekday: int, minute: int) -> int {
    weekday * 1440 + minute
}

/// A meeting is under way at a minute of the week.
pub open spec fn covers(m: Meeting, at: int) -> bool {
    week_minute(m.weekday as int, m.start_minute as int) <= at < week_minute(
        m.weekday as int,
        m.end_minute as int,
    )
}

/// Some meeting of the list is under way at a minute of the week.
pub open spec fn any_covers(meetings: Seq<Meeting>, at: int) -> bool {
    exists|i: int| 0 <= i < meetings.len() && covers(#[trigger] meetings[i], at)
}

/// All meetings are valid.
pub open spec fn all_valid(meetings: Seq<Meeting>) -> bool {
    forall|i: int| 0 <= i < meetings.len() ==> meeting_valid(#[trigger] meetings[i])
}

impl WeekBits {
    /// Whether a minute of the week is in the set.
    pub closed spec fn has(self, at: int) -> bool {
        0 <= at < 10080 && bit(self.words@[at / 64], (at % 64) as u64)
    }

    pub fn empty() -> (r: Self)
        ensures
            forall|at: int| !#[trigger] r.has(at),
    {
        let r = WeekBits { words: [0u64; 158] };
        assert forall|at: int| !#[trigger] r.has(at) by {
            if 0 <= at < 10080 {
                let k = (at % 64) as u64;
                assert(r.words@[at / 64] == 0);
                assert(0u64 & (1u64 << k) == 0) by (bit_vector);
            }
        }
        r
    }

    pub fn set(&mut self, minute: usize)
        requires
            minute < MINUTES_PER_WEEK,
        ensures
            forall|at: int| #[trigger] final(self).has(at) == (old(self).has(at) || at == minute),
    {
        let index: usize = minute / 64;
        let shift: u64 = (minute % 64) as u64;
        let ghost words = self.words@;
        let word: u64 = self.words[index] | (1u64 << shift);
        self.words[index] = word;
        assert forall|at: int| #[trigger] self.has(at) == (old(self).has(at) || at == minute) by {
            if 0 <= at < 10080 {
                let k = (at % 64) as u64;
                lemma_or_bit(words[index as int], 1u64 << shift, k);
                lemma_one_bit(shift, k);
            }
        }
    }

    pub fn contains(&self, minute: usize) -> (r: bool)
        requires
            minute < MINUTES_PER_WEEK,
        ensures
            r == self.has(minute as int),
    {
        self.words[minute / 64] & (1u64 << ((minute % 64) as u64)) != 0
    }

    pub fn intersects(&self, other: &Self) -> (r: bool)
        ensures
            r == exists|at: int| #[trigger] self.has(at) && other.has(at),
    {
        let mut index: usize = 0;
        while index < 157
            invariant
                index <= 157,
                forall|at: int| 0 <= at < index * 64 ==> !(#[trigger] self.has(at) && other.has(at)),
            decreases 157 - index,
        {
            let common: u64 = self.words[index] & other.words[index];
            if common != 0 {
                proof {
                    let k = lemma_some_bit(common);
                    lemma_and_bit(self.words@[index as int], other.words@[index as int], k);
                    let at = index * 64 + k;
                    assert(at / 64 == index && at % 64 == k);
                    assert(self.has(at) && other.has(at));
                }
                return true;
            }
            assert forall|at: int| 0 <= at < (index + 1) * 64 implies !(#[trigger] self.has(at)
                && other.has(at)) by {
                if at >= index * 64 {
                    let k = (at % 64) as u64;
                    assert(at / 64 == index);
                    lemma_and_bit(self.words@[index as int], other.words@[index as int], k);
                    assert(0u64 & (1u64 << k) == 0) by (bit_vector);
                }
            }
            index += 1;
        }
        // Half of the last word belongs to the week.
        let common: u64 = self.words[157] & other.words[157] & 0xffff_ffffu64;
        if common != 0 {
            proof {
                let k = lemma_some_bit(common);
                let both = self.words@[157] & other.words@[157];
                lemma_and_bit(both, 0xffff_ffffu64, k);
                lemma_and_bit(self.words@[157], other.words@[157], k);
                assert(k < 32) by (bit_vector)
                    requires
                        0xffff_ffffu64 & (1u64 << k) != 0,
                        k < 64,
                ;
                let at = 157 * 64 + k;
                assert(at / 64 == 157 && at % 64 == k);
                assert(self.has(at) && other.has(at));
            }
            return true;
        }
        assert forall|at: int| !(#[trigger] self.has(at) && other.has(at)) by {
            if 157 * 64 <= at < 10080 {
                let k = (at % 64) as u64;
                let both = self.words@[157] & other.words@[157];
                assert(at / 64 == 157);
                assert(k < 32);
                lemma_and_bit(self.words@[157], other.words@[157], k);
                lemma_and_bit(both, 0xffff_ffffu64, k);
                assert(0xffff_ffffu64 & (1u64 << k) != 0) by (bit_vector)
                    requires
                        k < 32,
                ;
                assert(0u64 & (1u64 << k) == 0) by (bit_vector);
            }
        }
        false
    }

    pub fn union(&self, other: &Self) -> (r: Self)
        ensures
            forall|at: int| #[trigger] r.has(at) == (self.has(at) || other.has(at)),
    {
        let mut out = WeekBits::empty();
        let mut index: usize = 0;
        while index < 158
            invariant
                index <= 158,
                forall|i: int|
                    0 <= i < index ==> #[trigger] out.words@[i] == self.words@[i] | other.words@[i],
            decreases 158 - index,
        {
            let word: u64 = self.words[index] | other.words[index];
            out.words[index] = word;
            index += 1;
        }
        assert forall|at: int| #[trigger] out.has(at) == (self.has(at) || other.has(at)) by {
            if 0 <= at < 10080 {
                let k = (at % 64) as u64;
                lemma_or_bit(self.words@[at / 64], other.words@[at / 64], k);
            }
        }
        out
    }

    pub fn from_meetings(meetings: &[Meeting]) -> (r: Self)
        requires
            all_valid(meetings@),
        ensures
            forall|at: int| #[trigger] r.has(at) == any_covers(meetings@, at),
    {
        let mut bits = WeekBits::empty();
        let mut index: usize = 0;
        while index < meetings.len()
            invariant
                index <= meetings@.len(),
                all_valid(meetings@),
                forall|at: int| #[trigger] bits.has(at) == any_covers(meetings@.take(index as int), at),
            decreases meetings@.len() - index,
        {
            let meeting = &meetings[index];
            assert(meeting_valid(meetings@[index as int]));
            let start: usize = meeting.weekday as usize * MINUTES_PER_DAY
                + meeting.start_minute as usize;
            let end: usize = meeting.weekday as usize * MINUTES_PER_DAY
                + meeting.end_minute as usize;
            let ghost before = bits;
            let mut minute: usize = start;
            while minute < end
                invariant
                    start <= minute <= end <= MINUTES_PER_WEEK,
                    forall|at: int| #[trigger]
                        bits.has(at) == (before.has(at) || start <= at < minute),
                decreases end - minute,
            {
                bits.set(minute);
                minute += 1;
            }
            assert forall|at: int| #[trigger]
                bits.has(at) == any_covers(meetings@.take(index + 1), at) by {
                let done = meetings@.take(index as int);
                let next = meetings@.take(index + 1);
                assert(before.has(at) == any_covers(done, at));
                if any_covers(done, at) {
                    let i = choose|i: int| 0 <= i < done.len() && covers(#[trigger] done[i], at);
                    assert(next[i] == done[i]);
                }
                assert(next[index as int] == meetings@[index as int]);
                if any_covers(next, at) {
                    let i = choose|i: int| 0 <= i < next.len() && covers(#[trigger] next[i], at);
                    if i < index {
                        assert(done[i] == next[i]);
                    }
                }
            }
            index += 1;
        }
        assert(meetings@.take(index as int) =~= meetings@);
        bits
    }
}

/// Two valid meetings share a minute of the week exactly if their times overlap.
pub proof fn lemma_shared_minute(left: Meeting, right: Meeting)
    requires
        meeting_valid(left),
        meeting_valid(right),
    ensures
        times_overlap(left, right) <==> exists|at: int| #[trigger]
            covers(left, at) && covers(right, at),
{
    if times_overlap(left, right) {
        let start = if left.start_minute >= right.start_minute {
            left.start_minute as int
        } else {
            right.start_minute as int
        };
        let at = week_minute(left.weekday as int, start);
        assert(covers(left, at) && covers(right, at));
    }
}

/// The occupied minutes among the first `n` minutes after `base`.
pub open spec fn busy_count(busy: spec_fn(int) -> bool, base: int, n: int) -> int
    decreases n,
{
    if n <= 0 {
        0
    } else {
        busy_count(busy, base, n - 1) + (if busy(base + n - 1) {
            1int
        } else {
            0int
        })
    }
}

/// The first occupied minute among the first `n` after `base`, `n` if there is none.
pub open spec fn first_busy(busy: spec_fn(int) -> bool, base: int, n: int) -> int
    decreases n,
{
    if n <= 0 {
        0
    } else {
        let first = first_busy(busy, base, n - 1);
        if first < n - 1 || busy(base + n - 1) {
            first
        } else {
            n
        }
    }
}

/// One more than the last occupied minute among the first `n` after `base`, 0 if there is none.
pub open spec fn busy_end(busy: spec_fn(int) -> bool, base: int, n: int) -> int
    decreases n,
{
    if n <= 0 {
        0
    } else if busy(base + n - 1) {
        n
    } else {
        busy_end(busy, base, n - 1)
    }
}

/// The free minutes of a day between its first and its last occupied minute.
pub open spec fn day_gap(busy: spec_fn(int) -> bool, day: int) -> int {
    let base = day * 1440;
    if busy_count(busy, base, 1440) == 0 {
        0
    } else {
        busy_end(busy, base, 1440) - first_busy(busy, base, 1440) - busy_count(busy, base, 1440)
    }
}

/// The days among the first `days` on which something is occupied.
pub open spec fn busy_days(busy: spec_fn(int) -> bool, days: int) -> int
    decreases days,
{
    if days <= 0 {
        0
    } else {
        busy_days(busy, days - 1) + (if busy_count(busy, (days - 1) * 1440, 1440) > 0 {
            1int
        } else {
            0int
        })
    }
}

/// The gaps of the first `days` days together.
pub open spec fn total_gap(busy: spec_fn(int) -> bool, days: int) -> int
    decreases days,
{
    if days <= 0 {
        0
    } else {
        total_gap(busy, days - 1) + day_gap(busy, days - 1)
    }
}

/// The score of a week with the given occupied minutes.
pub open spec fn week_score(busy: spec_fn(int) -> bool) -> Score {
    Score { occupied_days: busy_days(busy, 7) as u8, gap_minutes: total_gap(busy, 7) as u32 }
}

proof fn lemma_day(busy: spec_fn(int) -> bool, base: int, n: int)
    requires
        0 <= n,
    ensures
        0 <= busy_count(busy, base, n) <= n,
        0 <= first_busy(busy, base, n) <= n,
        0 <= busy_end(busy, base, n) <= n,
        busy_count(busy, base, n) == 0 <==> first_busy(busy, base, n) == n,
        busy_count(busy, base, n) == 0 <==> busy_end(busy, base, n) == 0,
        busy_count(busy, base, n) > 0 ==> busy_end(busy, base, n) - first_busy(busy, base, n)
            >= busy_count(busy, base, n),
    decreases n,
{
    if n > 0 {
        lemma_day(busy, base, n - 1);
    }
}

/// The score of the minutes in a set.
pub fn score_bits(bits: &WeekBits) -> (r: Score)
    ensures
        r == week_score(|at: int| bits.has(at)),
{
    let ghost busy = |at: int| bits.has(at);
    let mut occupied_days: u8 = 0;
    let mut gap_minutes: u32 = 0;
    let mut day: usize = 0;
    while day < 7
        invariant
            day <= 7,
            busy == (|at: int| bits.has(at)),
            occupied_days == busy_days(busy, day as int),
            gap_minutes == total_gap(busy, day as int),
            occupied_days <= day,
            gap_minutes <= day * 1440,
        decreases 7 - day,
    {
        let base: usize = day * MINUTES_PER_DAY;
        let mut first: u32 = 0;
        let mut last_exclusive: u32 = 0;
        let mut occupied: u32 = 0;
        let mut minute: usize = 0;
        while minute < MINUTES_PER_DAY
            invariant
                day < 7,
                base == day * 1440,
                busy == (|at: int| bits.has(at)),
                minute <= 1440,
                occupied == busy_count(busy, base as int, minute as int),
                last_exclusive == busy_end(busy, base as int, minute as int),
                occupied > 0 ==> first == first_busy(busy, base as int, minute as int),
                occupied <= minute,
            decreases 1440 - minute,
        {
            proof {
                lemma_day(busy, base as int, minute as int);
                assert(busy(base + minute) == bits.has((base + minute) as int));
            }
            if bits.contains(base + minute) {
                if occupied == 0 {
                    first = minute as u32;
                }
                occupied += 1;
                last_exclusive = minute as u32 + 1;
            }
            minute += 1;
        }
        proof {
            lemma_day(busy, base as int, 1440);
        }
        if occupied > 0 {
            occupied_days += 1;
            gap_minutes += last_exclusive - first - occupied;
        }
        day += 1;
    }
    Score { occupied_days, gap_minutes }
}

} // verus!
