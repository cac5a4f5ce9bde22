//! Predicates over the complete UTF-16 code-unit domain.
use vstd::prelude::*;

verus! {

/// Whether bit `x` of an ASCII membership word is set.
pub open spec fn ascii_bit(ascii: u128, x: u16) -> bool {
    ((ascii >> (x as u128)) & 1u128) == 1u128
}

/// Whether some range of `ranges` contains `x`.
pub open spec fn ranges_contain(ranges: Seq<(u16, u16)>, x: int) -> bool {
    exists|i: int| 0 <= i < ranges.len() && #[trigger] ranges[i].0 <= x <= ranges[i].1
}

/// Ranges are ordered, non-empty, and separated by at least one missing unit.
pub open spec fn ranges_normalized(ranges: Seq<(u16, u16)>) -> bool {
    &&& forall|i: int| 0 <= i < ranges.len() ==> ranges[i].0 <= ranges[i].1
    &&& forall|i: int, j: int|
        0 <= i < j < ranges.len() ==> ranges[i].1 + 1 < ranges[j].0
}

/// Every range lies outside 7-bit ASCII.
pub open spec fn ranges_non_ascii(ranges: Seq<(u16, u16)>) -> bool {
    forall|i: int| 0 <= i < ranges.len() ==> 128 <= ranges[i].0
}

/// A set of UTF-16 code units: a bit word for ASCII plus normalized ranges
/// for the remaining units.
#[derive(Clone, Debug)]
pub struct SymbolPredicate {
    ascii: u128,
    non_ascii_ranges: Vec<(u16, u16)>,
}

impl View for SymbolPredicate {
    type V = (u128, Seq<(u16, u16)>);

    closed spec fn view(&self) -> (u128, Seq<(u16, u16)>) {
        (self.ascii, self.non_ascii_ranges@)
    }
}

proof fn lemma_single_bit(x: u16)
    requires
        x < 128,
    ensures
        ((1u128 << (x as u128)) >> (x as u128)) & 1u128 == 1u128,
{
    let y = x as u128;
    assert(y < 128);
    assert(((1u128 << y) >> y) & 1u128 == 1u128) by (bit_vector)
        requires
            y < 128,
    ;
}

proof fn lemma_bit_test(ascii: u128, x: u16)
    requires
        x < 128,
    ensures
        ((ascii & (1u128 << (x as u128))) != 0u128) == ascii_bit(ascii, x),
{
    let y = x as u128;
    assert(((ascii & (1u128 << y)) != 0u128) == (((ascii >> y) & 1u128) == 1u128)) by (bit_vector)
        requires
            y < 128,
    ;
}

proof fn lemma_bit_or(a: u128, b: u128, x: u16)
    requires
        x < 128,
    ensures
        ascii_bit(a | b, x) == (ascii_bit(a, x) || ascii_bit(b, x)),
{
    let y = x as u128;
    assert((((a | b) >> y) & 1u128 == 1u128) == ((((a >> y) & 1u128) == 1u128) || (((b >> y)
        & 1u128) == 1u128))) by (bit_vector)
        requires
            y < 128,
    ;
}

proof fn lemma_bit_not(a: u128, x: u16)
    requires
        x < 128,
    ensures
        ascii_bit(!a, x) == !ascii_bit(a, x),
{
    let y = x as u128;
    assert((((!a) >> y) & 1u128 == 1u128) == !(((a >> y) & 1u128) == 1u128)) by (bit_vector)
        requires
            y < 128,
    ;
}

proof fn lemma_bit_zero(x: u16)
    requires
        x < 128,
    ensures
        !ascii_bit(0u128, x),
{
    let y = x as u128;
    assert(((0u128 >> y) & 1u128) != 1u128) by (bit_vector)
        requires
            y < 128,
    ;
}

proof fn lemma_bit_all(x: u16)
    requires
        x < 128,
    ensures
        ascii_bit(u128::MAX, x),
{
    let y = x as u128;
    assert(((0xffff_ffff_ffff_ffff_ffff_ffff_ffff_ffffu128 >> y) & 1u128) == 1u128) by (bit_vector)
        requires
            y < 128,
    ;
}

proof fn lemma_range_mask(start: u16, end: u16, x: u16)
    requires
        start <= end < 128,
        x < 128,
    ensures
        ascii_bit(ascii_range_mask_spec(start, end), x) == (start <= x <= end),
{
    let s = start as u128;
    let e = end as u128;
    let y = x as u128;
    if end == 127 {
        assert(((((0xffff_ffff_ffff_ffff_ffff_ffff_ffff_ffffu128 << s)
            & 0xffff_ffff_ffff_ffff_ffff_ffff_ffff_ffffu128) >> y) & 1u128 == 1u128) == (s <= y))
            by (bit_vector)
            requires
                s < 128,
                y < 128,
        ;
    } else {
        let e1 = (end + 1) as u128;
        assert(((((0xffff_ffff_ffff_ffff_ffff_ffff_ffff_ffffu128 << s) & !(
        0xffff_ffff_ffff_ffff_ffff_ffff_ffff_ffffu128 << e1)) >> y) & 1u128 == 1u128) == (s <= y
            && y < e1)) by (bit_vector)
            requires
                s < e1,
                e1 <= 127,
                y < 128,
        ;
    }
}

/// Bits `start..=end` of an ASCII membership word.
pub open spec fn ascii_range_mask_spec(start: u16, end: u16) -> u128 {
    let below_end = if end == 127 {
        u128::MAX
    } else {
        !(u128::MAX << ((end + 1) as u128))
    };
    (u128::MAX << (start as u128)) & below_end
}

fn ascii_range_mask(start: u16, end: u16) -> (mask: u128)
    requires
        start <= end < 128,
    ensures
        mask == ascii_range_mask_spec(start, end),
        forall|x: u16| x < 128 ==> ascii_bit(mask, x) == (start <= x <= end),
{
    let below_end: u128 = if end == 127 {
        u128::MAX
    } else {
        !(u128::MAX << (end + 1))
    };
    proof {
        assert forall|x: u16| x < 128 implies ascii_bit(
            ascii_range_mask_spec(start, end),
            x,
        ) == (start <= x <= end) by {
            lemma_range_mask(start, end, x);
        }
    }
    (u128::MAX << start) & below_end
}

proof fn lemma_push_contains(old: Seq<(u16, u16)>, r: (u16, u16))
    ensures
        forall|x: int|
            #[trigger] ranges_contain(old.push(r), x) <==> (ranges_contain(old, x) || r.0 <= x <= r.1),
{
    assert forall|x: int| ranges_contain(old.push(r), x) <==> (ranges_contain(old, x) || r.0 <= x
        <= r.1) by {
        let pushed = old.push(r);
        if ranges_contain(pushed, x) {
            let i = choose|i: int| 0 <= i < pushed.len() && #[trigger] pushed[i].0 <= x <= pushed[i].1;
            if i < old.len() {
                assert(old[i] == pushed[i]);
            }
        }
        if ranges_contain(old, x) {
            let i = choose|i: int| 0 <= i < old.len() && #[trigger] old[i].0 <= x <= old[i].1;
            assert(pushed[i] == old[i]);
        }
        if r.0 <= x <= r.1 {
            assert(pushed[old.len() as int] == r);
        }
    }
}

proof fn lemma_push_normalized(old: Seq<(u16, u16)>, r: (u16, u16))
    requires
        ranges_normalized(old),
        r.0 <= r.1,
        old.len() > 0 ==> old.last().1 + 1 < r.0,
    ensures
        ranges_normalized(old.push(r)),
{
    let pushed = old.push(r);
    assert forall|i: int, j: int| 0 <= i < j < pushed.len() implies pushed[i].1 + 1 < pushed[j].0 by {
        if j == old.len() {
            if i < old.len() - 1 {
                assert(old[i].1 + 1 < old[old.len() - 1].0);
            }
        } else {
            assert(pushed[i] == old[i] && pushed[j] == old[j]);
        }
    }
}

/// At unit `x`, the emitted ranges plus the pending interval cover exactly
/// what the consumed input ranges plus the inserted range cover.
spec fn insert_covers(
    out: Seq<(u16, u16)>,
    placed: bool,
    low: u16,
    high: u16,
    consumed: Seq<(u16, u16)>,
    start: u16,
    end: u16,
    x: int,
) -> bool {
    (ranges_contain(out, x) || (!placed && low <= x <= high)) <==> (ranges_contain(consumed, x)
        || start <= x <= end)
}

/// Inserts one range into normalized ranges, merging where they touch.
///
/// The result is normalized and covers exactly the old units plus
/// `start..=end`.
pub fn insert_normalized(ranges: &Vec<(u16, u16)>, start: u16, end: u16) -> (merged: Vec<(u16, u16)>)
    requires
        ranges_normalized(ranges@),
        start <= end,
    ensures
        ranges_normalized(merged@),
        forall|x: int| ranges_contain(merged@, x) <==> (ranges_contain(ranges@, x) || start <= x <= end),
        ranges_non_ascii(ranges@) && 128 <= start ==> ranges_non_ascii(merged@),
{
    let mut merged: Vec<(u16, u16)> = Vec::new();
    let mut low = start;
    let mut high = end;
    let mut placed = false;
    let mut index: usize = 0;
    // The pending interval `low..=high` is `start..=end` widened by every
    // absorbed range; absorbed ranges touch it, so it stays contiguous.
    while index < ranges.len()
        invariant
            ranges_normalized(ranges@),
            start <= end,
            index <= ranges.len(),
            low <= start,
            end <= high,
            ranges_normalized(merged@),
            !placed ==> forall|k: int| 0 <= k < merged@.len() ==> merged@[k].1 + 1 < low,
            !placed && merged@.len() > 0 ==> forall|k: int|
                index <= k < ranges@.len() ==> merged@.last().1 + 1 < ranges@[k].0,
            placed ==> merged@.len() > 0,
            placed ==> forall|k: int|
                index <= k < ranges@.len() ==> merged@.last().1 + 1 < ranges@[k].0,
            forall|x: int|
                #[trigger] insert_covers(
                    merged@,
                    placed,
                    low,
                    high,
                    ranges@.subrange(0, index as int),
                    start,
                    end,
                    x,
                ),
            ranges_non_ascii(ranges@) && 128 <= start ==> ranges_non_ascii(merged@) && 128 <= low,
        decreases ranges.len() - index,
    {
        let (range_start, range_end) = ranges[index];
        let ghost old_low = low;
        let ghost old_high = high;
        let ghost old_placed = placed;
        let ghost old_out = merged@;
        let ghost prefix = ranges@.subrange(0, index as int);
        let ghost next_prefix = ranges@.subrange(0, index + 1);
        proof {
            assert(next_prefix =~= prefix.push((range_start, range_end)));
            lemma_push_contains(prefix, (range_start, range_end));
            assert forall|k: int| index + 1 <= k < ranges@.len() implies range_end + 1
                < ranges@[k].0 by {
                assert(ranges@[index as int].1 + 1 < ranges@[k].0);
            }
        }
        if placed || (range_end as u32) + 1 < (low as u32) {
            // Entirely before the pending interval, or after it once placed.
            let ghost old_merged = merged@;
            merged.push((range_start, range_end));
            proof {
                lemma_push_contains(old_merged, (range_start, range_end));
                lemma_push_normalized(old_merged, (range_start, range_end));
            }
        } else if (range_start as u32) > (high as u32) + 1 {
            // Entirely after the pending interval: place the interval first.
            let ghost old_merged = merged@;
            merged.push((low, high));
            let ghost with_pending = merged@;
            merged.push((range_start, range_end));
            placed = true;
            proof {
                lemma_push_contains(old_merged, (low, high));
                lemma_push_normalized(old_merged, (low, high));
                lemma_push_contains(with_pending, (range_start, range_end));
                lemma_push_normalized(with_pending, (range_start, range_end));
            }
        } else {
            // Touches or overlaps the pending interval: absorb it.
            proof {
                if merged@.len() > 0 {
                    assert forall|k: int| 0 <= k < merged@.len() implies merged@[k].1 + 1
                        < range_start by {
                        if k < merged@.len() - 1 {
                            assert(merged@[k].1 + 1 < merged@[merged@.len() - 1].0);
                        }
                    }
                }
            }
            if range_start < low {
                low = range_start;
            }
            if range_end > high {
                high = range_end;
            }
        }
        proof {
            assert forall|x: int|
                #[trigger] insert_covers(merged@, placed, low, high, next_prefix, start, end, x) by {
                assert(insert_covers(old_out, old_placed, old_low, old_high, prefix, start, end, x));
            }
        }
        index = index + 1;
    }
    let ghost final_out = merged@;
    if !placed {
        let ghost old_merged = merged@;
        merged.push((low, high));
        proof {
            lemma_push_contains(old_merged, (low, high));
            lemma_push_normalized(old_merged, (low, high));
        }
    }
    proof {
        assert(ranges@.subrange(0, ranges@.len() as int) =~= ranges@);
        assert forall|x: int| ranges_contain(merged@, x) <==> (ranges_contain(ranges@, x) || start
            <= x <= end) by {
            assert(insert_covers(final_out, placed, low, high, ranges@.subrange(0, index as int), start, end, x));
            assert(index == ranges@.len());
            assert(insert_covers(final_out, placed, low, high, ranges@, start, end, x));
            if !placed {
                assert(ranges_contain(merged@, x) <==> (ranges_contain(final_out, x) || low <= x <= high));
            } else {
                assert(merged@ == final_out);
            }
        }
    }
    merged
}

impl SymbolPredicate {
    /// The predicate's invariant: ranges are normalized and lie above ASCII.
    pub closed spec fn well_formed(self) -> bool {
        ranges_normalized(self.non_ascii_ranges@) && ranges_non_ascii(self.non_ascii_ranges@)
    }

    /// Whether code unit `x` belongs to the predicate.
    pub closed spec fn contains(self, x: u16) -> bool {
        if x < 128 {
            ascii_bit(self.ascii, x)
        } else {
            ranges_contain(self.non_ascii_ranges@, x as int)
        }
    }

    /// Predicates with equal views hold the same code units.
    pub proof fn lemma_view_contains(self, other: Self)
        requires
            self@ == other@,
        ensures
            forall|x: u16| self.contains(x) == other.contains(x),
    {
    }

    /// Whether the predicate holds only ASCII units in its representation.
    pub closed spec fn ascii_only_spec(self) -> bool {
        self.non_ascii_ranges@.len() == 0
    }

    /// The normalized ranges above ASCII, in ascending order.
    pub fn non_ascii_ranges(&self) -> (ranges: &[(u16, u16)])
        ensures
            ranges@ == self@.1,
    {
        self.non_ascii_ranges.as_slice()
    }

    /// The predicate that matches nothing.
    pub fn empty() -> (predicate: Self)
        ensures
            predicate.well_formed(),
            forall|x: u16| !predicate.contains(x),
            predicate.ascii_only_spec(),
    {
        proof {
            assert forall|x: u16| x < 128 implies !ascii_bit(0u128, x) by {
                lemma_bit_zero(x);
            }
        }
        SymbolPredicate { ascii: 0, non_ascii_ranges: Vec::new() }
    }

    /// The predicate that matches every UTF-16 code unit.
    pub fn any() -> (predicate: Self)
        ensures
            predicate.well_formed(),
            forall|x: u16| predicate.contains(x),
    {
        let mut ranges = Vec::new();
        ranges.push((128u16, u16::MAX));
        let predicate = SymbolPredicate { ascii: u128::MAX, non_ascii_ranges: ranges };
        proof {
            assert forall|x: u16| predicate.contains(x) by {
                if x < 128 {
                    lemma_bit_all(x);
                } else {
                    assert(predicate.non_ascii_ranges@[0] == (128u16, u16::MAX));
                    assert(predicate.non_ascii_ranges@[0].0 <= x <= predicate.non_ascii_ranges@[0].1);
                }
            }
        }
        predicate
    }

    /// Adds one code unit.
    pub fn insert(&mut self, symbol: u16)
        requires
            old(self).well_formed(),
        ensures
            final(self).well_formed(),
            forall|x: u16| final(self).contains(x) == (old(self).contains(x) || x == symbol),
            old(self).ascii_only_spec() && symbol < 128 ==> final(self).ascii_only_spec(),
    {
        let inserted = self.insert_range(symbol, symbol);
        assert(inserted);
    }

    /// Adds every code unit in `start..=end`; returns `false`, changing
    /// nothing, when the bounds are reversed.
    pub fn insert_range(&mut self, start: u16, end: u16) -> (inserted: bool)
        requires
            old(self).well_formed(),
        ensures
            inserted == (start <= end),
            final(self).well_formed(),
            forall|x: u16|
                final(self).contains(x) == (old(self).contains(x) || (inserted && start <= x
                    <= end)),
            old(self).ascii_only_spec() && end < 128 ==> final(self).ascii_only_spec(),
    {
        if start > end {
            return false;
        }
        let ghost old_self = *self;
        if start < 128 {
            let ascii_end = if end < 127 {
                end
            } else {
                127
            };
            let mask = ascii_range_mask(start, ascii_end);
            proof {
                assert forall|x: u16| x < 128 implies ascii_bit(self.ascii | mask, x) == (ascii_bit(
                    self.ascii,
                    x,
                ) || (start <= x <= ascii_end)) by {
                    lemma_bit_or(self.ascii, mask, x);
                }
            }
            self.ascii = self.ascii | mask;
        }
        if end >= 128 {
            let range_start = if start > 128 {
                start
            } else {
                128
            };
            self.non_ascii_ranges = insert_normalized(&self.non_ascii_ranges, range_start, end);
        }
        proof {
            assert forall|x: u16|
                self.contains(x) == (old_self.contains(x) || (start <= x <= end)) by {}
        }
        true
    }

    /// Units in either predicate.
    pub fn union(self, other: Self) -> (united: Self)
        requires
            self.well_formed(),
            other.well_formed(),
        ensures
            united.well_formed(),
            forall|x: u16| united.contains(x) == (self.contains(x) || other.contains(x)),
            self.ascii_only_spec() && other.ascii_only_spec() ==> united.ascii_only_spec(),
    {
        let ghost original = self;
        let self_ascii = self.ascii;
        let mut united = self;
        proof {
            assert forall|x: u16| x < 128 implies ascii_bit(original.ascii | other.ascii, x) == (
            ascii_bit(original.ascii, x) || ascii_bit(other.ascii, x)) by {
                lemma_bit_or(original.ascii, other.ascii, x);
            }
        }
        united.ascii = self_ascii | other.ascii;
        let mut index: usize = 0;
        while index < other.non_ascii_ranges.len()
            invariant
                other.well_formed(),
                original.well_formed(),
                index <= other.non_ascii_ranges@.len(),
                ranges_normalized(united.non_ascii_ranges@),
                ranges_non_ascii(united.non_ascii_ranges@),
                united.ascii == original.ascii | other.ascii,
                forall|x: int|
                    #[trigger] ranges_contain(united.non_ascii_ranges@, x) == (ranges_contain(
                        original.non_ascii_ranges@,
                        x,
                    ) || ranges_contain(other.non_ascii_ranges@.subrange(0, index as int), x)),
                original.ascii_only_spec() && other.ascii_only_spec() ==> united.ascii_only_spec(),
            decreases other.non_ascii_ranges@.len() - index,
        {
            let (start, end) = other.non_ascii_ranges[index];
            let ghost before = united.non_ascii_ranges@;
            united.non_ascii_ranges = insert_normalized(&united.non_ascii_ranges, start, end);
            proof {
                let prefix = other.non_ascii_ranges@.subrange(0, index as int);
                assert(other.non_ascii_ranges@.subrange(0, index + 1) =~= prefix.push((start, end)));
                lemma_push_contains(prefix, (start, end));
                assert forall|x: int| #[trigger]
                    ranges_contain(united.non_ascii_ranges@, x) == (ranges_contain(
                        original.non_ascii_ranges@,
                        x,
                    ) || ranges_contain(other.non_ascii_ranges@.subrange(0, index + 1), x)) by {
                    assert(ranges_contain(before, x) == (ranges_contain(original.non_ascii_ranges@, x)
                        || ranges_contain(prefix, x)));
                }
            }
            index = index + 1;
        }
        proof {
            assert(other.non_ascii_ranges@.subrange(0, other.non_ascii_ranges@.len() as int)
                =~= other.non_ascii_ranges@);
            assert forall|x: u16| united.contains(x) == (original.contains(x) || other.contains(x)) by {
                if x >= 128 {
                    assert(ranges_contain(united.non_ascii_ranges@, x as int) == (ranges_contain(
                        original.non_ascii_ranges@,
                        x as int,
                    ) || ranges_contain(other.non_ascii_ranges@.subrange(0, index as int), x as int)));
                }
            }
        }
        united
    }

    /// Units outside the predicate.
    pub fn complement(&self) -> (complement: Self)
        requires
            self.well_formed(),
        ensures
            complement.well_formed(),
            forall|x: u16| complement.contains(x) == !self.contains(x),
    {
        let mut ranges: Vec<(u16, u16)> = Vec::new();
        let mut next: u32 = 128;
        let mut index: usize = 0;
        let count = self.non_ascii_ranges.len();
        while index < count
            invariant
                self.well_formed(),
                count == self.non_ascii_ranges@.len(),
                index <= count,
                128 <= next <= 65536,
                index > 0 ==> next == self.non_ascii_ranges@[index - 1].1 + 1,
                index == 0 ==> next == 128,
                ranges_normalized(ranges@),
                ranges_non_ascii(ranges@),
                ranges@.len() > 0 ==> ranges@.last().1 + 1 < next,
                forall|x: int|
                    128 <= x < next ==> (#[trigger] ranges_contain(ranges@, x) == !ranges_contain(
                        self.non_ascii_ranges@.subrange(0, index as int),
                        x,
                    )),
                forall|x: int| #[trigger] ranges_contain(ranges@, x) ==> x < next,
            decreases count - index,
        {
            let (start, end) = self.non_ascii_ranges[index];
            let ghost prefix = self.non_ascii_ranges@.subrange(0, index as int);
            let ghost old_ranges = ranges@;
            proof {
                assert(self.non_ascii_ranges@.subrange(0, index + 1) =~= prefix.push((start, end)));
                lemma_push_contains(prefix, (start, end));
                if index > 0 {
                    assert(self.non_ascii_ranges@[index - 1].1 + 1 < self.non_ascii_ranges@[index as int].0);
                }
            }
            if next < start as u32 {
                ranges.push((next as u16, (start - 1) as u16));
                proof {
                    lemma_push_contains(old_ranges, (next as u16, (start - 1) as u16));
                    lemma_push_normalized(old_ranges, (next as u16, (start - 1) as u16));
                }
            }
            proof {
                assert forall|x: int|
                    128 <= x < end + 1 implies (#[trigger] ranges_contain(ranges@, x)
                    == !ranges_contain(self.non_ascii_ranges@.subrange(0, index + 1), x)) by {
                    if x < next {
                        assert(ranges_contain(old_ranges, x) == !ranges_contain(prefix, x));
                        if ranges_contain(prefix, x) {
                        }
                    } else {
                        assert(!ranges_contain(old_ranges, x));
                        assert(!ranges_contain(prefix, x)) by {
                            if ranges_contain(prefix, x) {
                                let i = choose|i: int|
                                    0 <= i < prefix.len() && #[trigger] prefix[i].0 <= x
                                        <= prefix[i].1;
                                if i < index - 1 {
                                    assert(self.non_ascii_ranges@[i].1 + 1
                                        < self.non_ascii_ranges@[index - 1].0);
                                }
                            }
                        }
                    }
                }
                assert forall|x: int| #[trigger] ranges_contain(ranges@, x) implies x < end + 1 by {
                    if ranges_contain(old_ranges, x) {
                    }
                }
            }
            next = end as u32 + 1;
            index = index + 1;
        }
        let ghost before_tail = ranges@;
        if next <= 65535 {
            ranges.push((next as u16, u16::MAX));
            proof {
                lemma_push_contains(before_tail, (next as u16, u16::MAX));
                lemma_push_normalized(before_tail, (next as u16, u16::MAX));
            }
        }
        proof {
            assert(self.non_ascii_ranges@.subrange(0, count as int) =~= self.non_ascii_ranges@);
            assert forall|x: int| next <= x <= 65535 implies !ranges_contain(self.non_ascii_ranges@, x) by {
                if ranges_contain(self.non_ascii_ranges@, x) {
                    let i = choose|i: int|
                        0 <= i < self.non_ascii_ranges@.len() && #[trigger] self.non_ascii_ranges@[i].0
                            <= x <= self.non_ascii_ranges@[i].1;
                    if i < count - 1 {
                        assert(self.non_ascii_ranges@[i].1 + 1 < self.non_ascii_ranges@[count - 1].0);
                    }
                }
            }
            assert forall|x: u16| x < 128 implies ascii_bit(!self.ascii, x) == !ascii_bit(self.ascii, x) by {
                lemma_bit_not(self.ascii, x);
            }
        }
        let complement = SymbolPredicate { ascii: !self.ascii, non_ascii_ranges: ranges };
        proof {
            assert forall|x: u16| complement.contains(x) == !self.contains(x) by {
                if x >= 128 {
                    if x < next {
                        assert(ranges_contain(before_tail, x as int) == !ranges_contain(
                            self.non_ascii_ranges@.subrange(0, count as int),
                            x as int,
                        ));
                    }
                }
            }
        }
        complement
    }

    /// Whether `symbol` belongs to the predicate.
    pub fn matches(&self, symbol: u16) -> (matched: bool)
        requires
            self.well_formed(),
        ensures
            matched == self.contains(symbol),
    {
        if symbol < 128 {
            proof {
                lemma_bit_test(self.ascii, symbol);
            }
            return self.ascii & (1u128 << symbol) != 0;
        }
        // First range whose end is not below `symbol`.
        let mut low: usize = 0;
        let mut high: usize = self.non_ascii_ranges.len();
        while low < high
            invariant
                self.well_formed(),
                low <= high <= self.non_ascii_ranges@.len(),
                forall|i: int| 0 <= i < low ==> #[trigger] self.non_ascii_ranges@[i].1 < symbol,
                forall|i: int|
                    high <= i < self.non_ascii_ranges@.len() ==> #[trigger] self.non_ascii_ranges@[i].1
                        >= symbol,
            decreases high - low,
        {
            let middle = low + (high - low) / 2;
            if self.non_ascii_ranges[middle].1 < symbol {
                proof {
                    assert forall|i: int| 0 <= i < middle + 1 implies #[trigger] self.non_ascii_ranges@[i].1
                        < symbol by {
                        if i < middle {
                            assert(self.non_ascii_ranges@[i].1 + 1 < self.non_ascii_ranges@[middle as int].0);
                        }
                    }
                }
                low = middle + 1;
            } else {
                proof {
                    assert forall|i: int|
                        middle <= i < self.non_ascii_ranges@.len() implies #[trigger] self.non_ascii_ranges@[i].1
                        >= symbol by {
                        if i > middle {
                            assert(self.non_ascii_ranges@[middle as int].1 + 1 < self.non_ascii_ranges@[i].0);
                        }
                    }
                }
                high = middle;
            }
        }
        if low < self.non_ascii_ranges.len() {
            let (start, end) = self.non_ascii_ranges[low];
            let found = start <= symbol && symbol <= end;
            proof {
                if !found && ranges_contain(self.non_ascii_ranges@, symbol as int) {
                    let i = choose|i: int|
                        0 <= i < self.non_ascii_ranges@.len() && #[trigger] self.non_ascii_ranges@[i].0
                            <= symbol <= self.non_ascii_ranges@[i].1;
                    if i > low {
                        assert(self.non_ascii_ranges@[low as int].1 + 1 < self.non_ascii_ranges@[i].0);
                    }
                }
            }
            found
        } else {
            proof {
                if ranges_contain(self.non_ascii_ranges@, symbol as int) {
                    let i = choose|i: int|
                        0 <= i < self.non_ascii_ranges@.len() && #[trigger] self.non_ascii_ranges@[i].0
                            <= symbol <= self.non_ascii_ranges@[i].1;
                    assert(self.non_ascii_ranges@[i].1 < symbol);
                }
            }
            false
        }
    }

    /// Whether the predicate's representation holds no unit at all.
    pub fn is_empty(&self) -> (empty: bool)
        ensures
            empty == (self@.0 == 0 && self@.1.len() == 0),
            empty ==> forall|x: u16| !self.contains(x),
            self.well_formed() && !empty && self@.1.len() > 0 ==> self.contains(self@.1[0].0),
    {
        proof {
            assert forall|x: u16| x < 128 implies !ascii_bit(0u128, x) by {
                lemma_bit_zero(x);
            }
            if self.well_formed() && self.non_ascii_ranges@.len() > 0 {
                let first = self.non_ascii_ranges@[0];
                assert(first.0 <= first.1);
                assert(ranges_contain(self.non_ascii_ranges@, first.0 as int));
            }
        }
        self.ascii == 0 && self.non_ascii_ranges.len() == 0
    }

    /// A predicate with a member has a non-empty representation.
    pub proof fn lemma_member_nonempty(self, x: u16)
        requires
            self.contains(x),
        ensures
            !(self@.0 == 0 && self@.1.len() == 0),
    {
        if x < 128 {
            if self.ascii == 0 {
                lemma_bit_zero(x);
            }
        }
    }

    /// Whether no non-ASCII unit belongs to the predicate.
    pub fn is_ascii_only(&self) -> (ascii_only: bool)
        requires
            self.well_formed(),
        ensures
            ascii_only == self.ascii_only_spec(),
            ascii_only ==> forall|x: u16| self.contains(x) ==> x < 128,
    {
        self.non_ascii_ranges.len() == 0
    }

    /// Structural equality of two predicates' representations.
    pub fn same_as(&self, other: &Self) -> (same: bool)
        ensures
            same == (self@ == other@),
    {
        if self.ascii != other.ascii || self.non_ascii_ranges.len() != other.non_ascii_ranges.len() {
            return false;
        }
        let mut index: usize = 0;
        while index < self.non_ascii_ranges.len()
            invariant
                self.non_ascii_ranges@.len() == other.non_ascii_ranges@.len(),
                index <= self.non_ascii_ranges@.len(),
                forall|i: int| 0 <= i < index ==> self.non_ascii_ranges@[i] == other.non_ascii_ranges@[i],
            decreases self.non_ascii_ranges@.len() - index,
        {
            if self.non_ascii_ranges[index].0 != other.non_ascii_ranges[index].0
                || self.non_ascii_ranges[index].1 != other.non_ascii_ranges[index].1 {
                return false;
            }
            index = index + 1;
        }
        proof {
            assert(self.non_ascii_ranges@ =~= other.non_ascii_ranges@);
        }
        true
    }

    /// Copies the predicate.
    pub fn duplicate(&self) -> (copy: Self)
        ensures
            copy@ == self@,
            self.well_formed() ==> copy.well_formed(),
            forall|x: u16| copy.contains(x) == self.contains(x),
            copy.ascii_only_spec() == self.ascii_only_spec(),
    {
        let mut ranges: Vec<(u16, u16)> = Vec::new();
        let mut index: usize = 0;
        while index < self.non_ascii_ranges.len()
            invariant
                index <= self.non_ascii_ranges@.len(),
                ranges@ == self.non_ascii_ranges@.subrange(0, index as int),
            decreases self.non_ascii_ranges@.len() - index,
        {
            ranges.push(self.non_ascii_ranges[index]);
            proof {
                assert(ranges@ =~= self.non_ascii_ranges@.subrange(0, index + 1));
            }
            index = index + 1;
        }
        proof {
            assert(ranges@ =~= self.non_ascii_ranges@);
        }
        SymbolPredicate { ascii: self.ascii, non_ascii_ranges: ranges }
    }

    /// The ASCII digits `0`-`9`.
    pub fn digit() -> (predicate: Self)
        ensures
            predicate.well_formed(),
            forall|x: u16| predicate.contains(x) == (0x30 <= x <= 0x39),
            predicate.ascii_only_spec(),
    {
        let mut predicate = Self::empty();
        predicate.insert_range(0x30, 0x39);
        predicate
    }

    /// The ASCII word units `a`-`z`, `A`-`Z`, `0`-`9`, and `_`.
    pub fn word() -> (predicate: Self)
        ensures
            predicate.well_formed(),
            forall|x: u16| predicate.contains(x) == is_ascii_word_spec(x),
            predicate.ascii_only_spec(),
    {
        let mut predicate = Self::empty();
        predicate.insert_range(0x61, 0x7a);
        predicate.insert_range(0x41, 0x5a);
        predicate.insert_range(0x30, 0x39);
        predicate.insert(0x5f);
        predicate
    }

    /// The ASCII whitespace units space, tab, newline, vertical tab, form
    /// feed, and carriage return.
    pub fn whitespace() -> (predicate: Self)
        ensures
            predicate.well_formed(),
            forall|x: u16| predicate.contains(x) == (x == 0x20 || (0x09 <= x <= 0x0d)),
            predicate.ascii_only_spec(),
    {
        let mut predicate = Self::empty();
        predicate.insert(0x20);
        predicate.insert_range(0x09, 0x0d);
        predicate
    }

    /// Predicate built from a list of inclusive ranges.
    pub fn from_ranges(ranges: &[(u16, u16)]) -> (predicate: Self)
        requires
            forall|i: int| 0 <= i < ranges@.len() ==> #[trigger] ranges@[i].0 <= ranges@[i].1,
        ensures
            predicate.well_formed(),
            forall|x: u16| predicate.contains(x) == ranges_contain(ranges@, x as int),
    {
        let mut predicate = Self::empty();
        let mut index: usize = 0;
        while index < ranges.len()
            invariant
                forall|i: int| 0 <= i < ranges@.len() ==> #[trigger] ranges@[i].0 <= ranges@[i].1,
                index <= ranges@.len(),
                predicate.well_formed(),
                forall|x: u16|
                    #[trigger] predicate.contains(x) == ranges_contain(
                        ranges@.subrange(0, index as int),
                        x as int,
                    ),
            decreases ranges@.len() - index,
        {
            let (start, end) = ranges[index];
            let ghost prefix = ranges@.subrange(0, index as int);
            let ghost before = predicate;
            predicate.insert_range(start, end);
            proof {
                assert(ranges@.subrange(0, index + 1) =~= prefix.push((start, end)));
                lemma_push_contains(prefix, (start, end));
                assert forall|x: u16| #[trigger] predicate.contains(x) == ranges_contain(
                    ranges@.subrange(0, index + 1),
                    x as int,
                ) by {
                    assert(before.contains(x) == ranges_contain(prefix, x as int));
                }
            }
            index = index + 1;
        }
        proof {
            assert(ranges@.subrange(0, ranges@.len() as int) =~= ranges@);
        }
        predicate
    }

    /// Bytes accounted for this predicate's storage.
    pub fn retained_bytes(&self) -> (bytes: usize)
        ensures
            bytes == 40 + 4 * self@.1.len() || bytes == usize::MAX,
    {
        let count = self.non_ascii_ranges.len();
        if count > (usize::MAX - 40) / 4 {
            usize::MAX
        } else {
            40 + 4 * count
        }
    }
}

/// The ASCII word units used by shorthand classes and word boundaries.
pub open spec fn is_ascii_word_spec(x: u16) -> bool {
    (0x30 <= x <= 0x39) || (0x41 <= x <= 0x5a) || x == 0x5f || (0x61 <= x <= 0x7a)
}

} // verus!
