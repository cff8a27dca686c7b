//! A compact set of 32-bit ids stored as merged inclusive ranges.
//!
//! The list stays sorted by lower bound; consecutive ranges never touch or
//! overlap (`r[i].max + 1 < r[i+1].min`), and every range is non-empty.
//! The legacy protocol serializes these lists into its acknowledgement
//! fields.

use vstd::prelude::*;

use crate::bitio::{
    bits_u32, u32_le_bits, BitReader, BitWriter, lemma_bits_u32_of_u32_le_bits,
};
use crate::comp::{
    comp_u16_bits, parse_comp_u16, Compressed, lemma_comp_u16_round_trip,
};

verus! {

/// One inclusive range of ids.
#[derive(Clone, Copy, Debug)]
pub struct Range {
    pub min: u32,
    pub max: u32,
}

/// True iff `x` lies in `r`.
pub open spec fn in_range(r: Range, x: u32) -> bool {
    r.min <= x <= r.max
}

/// The list invariant: sorted, non-empty, non-adjacent ranges.
pub open spec fn ranges_wf(s: Seq<Range>) -> bool {
    (forall|i: int| 0 <= i < s.len() ==> (#[trigger] s[i]).min <= s[i].max) && (forall|i: int|
        0 <= i < s.len() - 1 ==> (#[trigger] s[i]).max + 1 < s[i + 1].min)
}

/// True iff some range of `s` contains `x`.
pub open spec fn ranges_contain(s: Seq<Range>, x: u32) -> bool {
    exists|i: int| 0 <= i < s.len() && #[trigger] in_range(s[i], x)
}

/// The number of ids covered by `s`.
pub open spec fn ranges_count(s: Seq<Range>) -> int
    decreases s.len(),
{
    if s.len() == 0 {
        0
    } else {
        (s[0].max - s[0].min + 1) + ranges_count(s.drop_first())
    }
}

pub proof fn lemma_ranges_count_nonneg(s: Seq<Range>)
    requires
        forall|i: int| 0 <= i < s.len() ==> (#[trigger] s[i]).min <= s[i].max,
    ensures
        ranges_count(s) >= 0,
    decreases s.len(),
{
    if s.len() > 0 {
        assert(forall|i: int| 0 <= i < s.drop_first().len() ==> (#[trigger] s.drop_first()[i]).min
            <= s.drop_first()[i].max) by {
            assert(forall|i: int| 0 <= i < s.drop_first().len() ==> s.drop_first()[i] == s[i + 1]);
        }
        lemma_ranges_count_nonneg(s.drop_first());
    }
}

pub proof fn lemma_ranges_count_split(s: Seq<Range>, i: int)
    requires
        0 <= i <= s.len(),
    ensures
        ranges_count(s) == ranges_count(s.take(i)) + ranges_count(s.skip(i)),
    decreases i,
{
    if i == 0 {
        assert(s.take(0) =~= Seq::<Range>::empty());
        assert(s.skip(0) =~= s);
    } else {
        lemma_ranges_count_split(s.drop_first(), i - 1);
        assert(s.take(i).drop_first() =~= s.drop_first().take(i - 1));
        assert(s.skip(i) =~= s.drop_first().skip(i - 1));
        assert(s.take(i)[0] == s[0]);
        assert(s.take(i).len() == i);
    }
}

pub proof fn lemma_ranges_count_snoc(s: Seq<Range>, i: int)
    requires
        0 <= i < s.len(),
    ensures
        ranges_count(s.take(i + 1)) == ranges_count(s.take(i)) + (s[i].max - s[i].min + 1),
{
    lemma_ranges_count_split(s.take(i + 1), i);
    assert(s.take(i + 1).take(i) =~= s.take(i));
    let single = s.take(i + 1).skip(i);
    assert(single =~= seq![s[i]]);
    assert(single.drop_first() =~= Seq::<Range>::empty());
    assert(ranges_count(single.drop_first()) == 0);
    assert(ranges_count(single) == s[i].max - s[i].min + 1);
}

/// The acknowledgement set: a list of merged inclusive ranges.
#[derive(Debug)]
pub struct RangeList {
    ranges: Vec<Range>,
}

impl View for RangeList {
    type V = Seq<Range>;

    closed spec fn view(&self) -> Seq<Range> {
        self.ranges@
    }
}

impl RangeList {
    /// The list invariant.
    pub open spec fn wf(&self) -> bool {
        ranges_wf(self@)
    }

    /// True iff the set contains `x`.
    pub open spec fn contains(&self, x: u32) -> bool {
        ranges_contain(self@, x)
    }

    pub fn new() -> (r: RangeList)
        ensures
            r.wf(),
            r@ == Seq::<Range>::empty(),
    {
        let r = RangeList { ranges: Vec::new() };
        proof {
            assert(r@ =~= Seq::<Range>::empty());
        }
        r
    }

    /// The number of ranges (not ids) currently stored.
    pub fn num_ranges(&self) -> (r: usize)
        ensures
            r == self@.len(),
    {
        self.ranges.len()
    }

    /// The bounds of the `i`-th range.
    pub fn range_at(&self, i: usize) -> (r: (u32, u32))
        requires
            i < self@.len(),
        ensures
            r.0 == self@[i as int].min,
            r.1 == self@[i as int].max,
    {
        (self.ranges[i].min, self.ranges[i].max)
    }

    /// The number of ids in the set.
    pub fn len(&self) -> (r: usize)
        requires
            self.wf(),
            ranges_count(self@) <= usize::MAX,
        ensures
            r == ranges_count(self@),
    {
        let ghost s = self@;
        let mut acc: usize = 0;
        let mut i: usize = 0;
        proof {
            assert(s.take(0) =~= Seq::<Range>::empty());
        }
        while i < self.ranges.len()
            invariant
                self.wf(),
                s == self@,
                ranges_count(s) <= usize::MAX,
                i <= s.len(),
                acc == ranges_count(s.take(i as int)),
            decreases s.len() - i,
        {
            let rmin = self.ranges[i].min;
            let rmax = self.ranges[i].max;
            proof {
                lemma_ranges_count_snoc(s, i as int);
                lemma_ranges_count_split(s, i as int + 1);
                assert(forall|j: int| 0 <= j < s.skip(i as int + 1).len() ==> (#[trigger] s.skip(
                    i as int + 1,
                )[j]).min <= s.skip(i as int + 1)[j].max) by {
                    assert(forall|j: int| 0 <= j < s.skip(i as int + 1).len() ==> #[trigger] s.skip(
                        i as int + 1,
                    )[j] == s[i + 1 + j]);
                }
                lemma_ranges_count_nonneg(s.skip(i as int + 1));
            }
            acc = acc + ((rmax - rmin) as usize + 1);
            i = i + 1;
        }
        proof {
            assert(s.take(s.len() as int) =~= s);
        }
        acc
    }

    /// True iff the set is empty.
    pub fn is_empty(&self) -> (r: bool)
        ensures
            r == (self@.len() == 0),
            self.wf() ==> r == !(exists|x: u32| #[trigger] self.contains(x)),
    {
        let r = self.ranges.len() == 0;
        proof {
            if self.wf() {
                if self@.len() > 0 {
                    assert(in_range(self@[0], self@[0].min));
                    assert(self.contains(self@[0].min));
                }
            }
        }
        r
    }

    /// Removes every id.
    pub fn clear(&mut self)
        ensures
            final(self).wf(),
            final(self)@ == Seq::<Range>::empty(),
    {
        self.ranges.clear();
        proof {
            assert(self@ =~= Seq::<Range>::empty());
        }
    }

    /// Adds `item` to the set, extending or merging ranges as needed.
    /// Adding an id already present leaves the list untouched.
    #[verifier::rlimit(100)]
    pub fn insert(&mut self, item: u32)
        requires
            old(self).wf(),
        ensures
            final(self).wf(),
            forall|x: u32| ranges_contain(final(self)@, x) <==> (ranges_contain(old(self)@, x) || x
                == item),
            ranges_contain(old(self)@, item) ==> final(self)@ == old(self)@,
    {
        let ghost s0 = self@;
        let len = self.ranges.len();
        let mut i: usize = 0;
        while i < len
            invariant
                self.wf(),
                self@ == s0,
                s0 == old(self)@,
                len == s0.len(),
                i <= len,
                forall|j: int| 0 <= j < i ==> (#[trigger] s0[j]).max + 1 < item,
            decreases len - i,
        {
            let rmin = self.ranges[i].min;
            let rmax = self.ranges[i].max;
            if rmin <= item {
                if rmax >= item {
                    // Already present: nothing to do.
                    proof {
                        assert(in_range(s0[i as int], item));
                    }
                    return;
                }
                if rmax == item - 1 {
                    // Extend this range upward; merge with the next range
                    // if the extension makes them adjacent.
                    if i + 1 < len && self.ranges[i + 1].min == item + 1 {
                        let merged = Range { min: rmin, max: self.ranges[i + 1].max };
                        proof {
                            lemma_insert_merge(s0, i as int, item);
                        }
                        self.ranges[i] = merged;
                        self.ranges.remove(i + 1);
                        proof {
                            assert(self@ =~= s0.update(i as int, merged).remove(i as int + 1));
                        }
                    } else {
                        let extended = Range { min: rmin, max: item };
                        proof {
                            lemma_insert_extend_max(s0, i as int, item);
                        }
                        self.ranges[i] = extended;
                        proof {
                            assert(self@ =~= s0.update(i as int, extended));
                        }
                    }
                    return;
                }
            } else {
                if rmin - item == 1 {
                    // Extend this range downward.
                    let extended = Range { min: item, max: rmax };
                    proof {
                        lemma_insert_extend_min(s0, i as int, item);
                    }
                    self.ranges[i] = extended;
                    proof {
                        assert(self@ =~= s0.update(i as int, extended));
                    }
                    return;
                }
                // The item comes strictly before this range: insert a
                // singleton here to keep the list sorted.
                proof {
                    lemma_insert_singleton(s0, i as int, item);
                }
                self.ranges.insert(i, Range { min: item, max: item });
                return;
            }
            i = i + 1;
        }
        // Ran past every range: append a singleton.
        proof {
            lemma_append_singleton(s0, item);
        }
        self.ranges.push(Range { min: item, max: item });
        proof {
            assert(self@ =~= s0.push(Range { min: item, max: item }));
        }
    }
}

/// Nothing below `item` can contain it when every earlier range tops out
/// before `item` and the range at `i` starts above `item - 1`.
proof fn lemma_not_contained(s0: Seq<Range>, i: int, item: u32)
    requires
        ranges_wf(s0),
        0 <= i <= s0.len(),
        forall|j: int| 0 <= j < i ==> (#[trigger] s0[j]).max + 1 <= item,
        forall|j: int| i <= j < s0.len() ==> item < (#[trigger] s0[j]).min,
    ensures
        !ranges_contain(s0, item),
{
    if ranges_contain(s0, item) {
        let j = choose|j: int| 0 <= j < s0.len() && #[trigger] in_range(s0[j], item);
    }
}

/// Index view of an update-then-remove merge step.
proof fn lemma_merge_index(s0: Seq<Range>, i: int, merged: Range)
    requires
        0 <= i < s0.len() - 1,
    ensures
        s0.update(i, merged).remove(i + 1).len() == s0.len() - 1,
        forall|j: int| 0 <= j < i ==> #[trigger] s0.update(i, merged).remove(i + 1)[j] == s0[j],
        s0.update(i, merged).remove(i + 1)[i] == merged,
        forall|j: int| i < j < s0.len() - 1 ==> #[trigger] s0.update(i, merged).remove(i + 1)[j]
            == s0[j + 1],
{
}

/// Extending the range at `i` up to `item` and absorbing the adjacent next
/// range adds exactly `item` to the set.
proof fn lemma_insert_merge(s0: Seq<Range>, i: int, item: u32)
    requires
        ranges_wf(s0),
        0 <= i < s0.len() - 1,
        1 <= item,
        s0[i].min <= item,
        s0[i].max == item - 1,
        s0[i + 1].min == item + 1,
        forall|j: int| 0 <= j < i ==> (#[trigger] s0[j]).max + 1 < item,
    ensures
        ({
            let s2 = s0.update(i, Range { min: s0[i].min, max: s0[i + 1].max }).remove(i + 1);
            &&& ranges_wf(s2)
            &&& forall|x: u32|
                ranges_contain(s2, x) <==> (ranges_contain(s0, x) || x == item)
            &&& !ranges_contain(s0, item)
        }),
{
    let merged = Range { min: s0[i].min, max: s0[i + 1].max };
    let s2 = s0.update(i, merged).remove(i + 1);
    lemma_merge_index(s0, i, merged);
    lemma_insert_merge_wf(s0, i, item);
    lemma_insert_merge_contains(s0, i, item);
    assert forall|j: int| i <= j < s0.len() implies item < (#[trigger] s0[j]).min || (j == i && item
        > s0[j].max) by {
        if j > i {
            assert(s0[i].max + 1 < s0[i + 1].min);
            if j > i + 1 {
                lemma_wf_sorted(s0, i + 1, j);
            }
        }
    }
    assert(!ranges_contain(s0, item)) by {
        if ranges_contain(s0, item) {
            let j = choose|j: int| 0 <= j < s0.len() && #[trigger] in_range(s0[j], item);
        }
    }
}

proof fn lemma_insert_merge_wf(s0: Seq<Range>, i: int, item: u32)
    requires
        ranges_wf(s0),
        0 <= i < s0.len() - 1,
        1 <= item,
        s0[i].min <= item,
        s0[i].max == item - 1,
        s0[i + 1].min == item + 1,
    ensures
        ranges_wf(s0.update(i, Range { min: s0[i].min, max: s0[i + 1].max }).remove(i + 1)),
{
    let merged = Range { min: s0[i].min, max: s0[i + 1].max };
    let s2 = s0.update(i, merged).remove(i + 1);
    lemma_merge_index(s0, i, merged);
    assert forall|j: int| 0 <= j < s2.len() implies (#[trigger] s2[j]).min <= s2[j].max && (j
        < s2.len() - 1 ==> s2[j].max + 1 < s2[j + 1].min) by {
        if j < i {
            assert(s2[j] == s0[j]);
        } else if j == i {
            assert(s2[j] == merged);
        } else {
            assert(s2[j] == s0[j + 1]);
        }
        if j + 1 < s2.len() {
            if j + 1 < i {
                assert(s2[j + 1] == s0[j + 1]);
            } else if j + 1 == i {
                assert(s2[j + 1] == merged);
            } else {
                assert(s2[j + 1] == s0[j + 2]);
            }
        }
    }
}

proof fn lemma_insert_merge_contains(s0: Seq<Range>, i: int, item: u32)
    requires
        ranges_wf(s0),
        0 <= i < s0.len() - 1,
        1 <= item,
        s0[i].min <= item,
        s0[i].max == item - 1,
        s0[i + 1].min == item + 1,
    ensures
        forall|x: u32|
            ranges_contain(
                s0.update(i, Range { min: s0[i].min, max: s0[i + 1].max }).remove(i + 1),
                x,
            ) <==> (ranges_contain(s0, x) || x == item),
{
    let merged = Range { min: s0[i].min, max: s0[i + 1].max };
    let s2 = s0.update(i, merged).remove(i + 1);
    lemma_merge_index(s0, i, merged);
    assert forall|x: u32| ranges_contain(s2, x) <==> (ranges_contain(s0, x) || x == item) by {
        if ranges_contain(s2, x) {
            let j = choose|j: int| 0 <= j < s2.len() && #[trigger] in_range(s2[j], x);
            if j < i {
                assert(in_range(s0[j], x));
            } else if j == i {
                if x < item {
                    assert(in_range(s0[i], x));
                } else if x > item {
                    assert(in_range(s0[i + 1], x));
                }
            } else {
                assert(in_range(s0[j + 1], x));
            }
        }
        if ranges_contain(s0, x) {
            let j = choose|j: int| 0 <= j < s0.len() && #[trigger] in_range(s0[j], x);
            if j < i {
                assert(in_range(s2[j], x));
            } else if j == i || j == i + 1 {
                assert(in_range(s2[i], x));
            } else {
                assert(in_range(s2[j - 1], x));
            }
        }
        if x == item {
            assert(in_range(s2[i], x));
        }
    }
}

/// Ranges later in a well-formed list start strictly higher.
proof fn lemma_wf_sorted(s0: Seq<Range>, a: int, b: int)
    requires
        ranges_wf(s0),
        0 <= a <= b < s0.len(),
    ensures
        s0[a].min <= s0[b].min,
        s0[a].max <= s0[b].max,
    decreases b - a,
{
    if a < b {
        lemma_wf_sorted(s0, a + 1, b);
    }
}

/// Extending the range at `i` up to `item`, with no adjacent next range,
/// adds exactly `item` to the set.
proof fn lemma_insert_extend_max(s0: Seq<Range>, i: int, item: u32)
    requires
        ranges_wf(s0),
        0 <= i < s0.len(),
        1 <= item,
        s0[i].min <= item,
        s0[i].max == item - 1,
        i + 1 < s0.len() ==> s0[i + 1].min != item + 1,
        forall|j: int| 0 <= j < i ==> (#[trigger] s0[j]).max + 1 < item,
    ensures
        ({
            let s1 = s0.update(i, Range { min: s0[i].min, max: item });
            &&& ranges_wf(s1)
            &&& forall|x: u32|
                ranges_contain(s1, x) <==> (ranges_contain(s0, x) || x == item)
            &&& !ranges_contain(s0, item)
        }),
{
    let s1 = s0.update(i, Range { min: s0[i].min, max: item });
    assert forall|j: int| 0 <= j < s1.len() implies (#[trigger] s1[j]).min <= s1[j].max && (j
        < s1.len() - 1 ==> s1[j].max + 1 < s1[j + 1].min) by {
        if j == i && i + 1 < s0.len() {
            assert(s0[i].max + 1 < s0[i + 1].min);
        }
    }
    assert forall|x: u32| ranges_contain(s1, x) <==> (ranges_contain(s0, x) || x == item) by {
        if ranges_contain(s1, x) {
            let j = choose|j: int| 0 <= j < s1.len() && #[trigger] in_range(s1[j], x);
            if j != i {
                assert(in_range(s0[j], x));
            } else if x != item {
                assert(in_range(s0[i], x));
            }
        }
        if ranges_contain(s0, x) {
            let j = choose|j: int| 0 <= j < s0.len() && #[trigger] in_range(s0[j], x);
            if j != i {
                assert(in_range(s1[j], x));
            } else {
                assert(in_range(s1[i], x));
            }
        }
        if x == item {
            assert(in_range(s1[i], x));
        }
    }
    assert forall|j: int| i <= j < s0.len() implies item < (#[trigger] s0[j]).min || (j == i
        && item > s0[j].max) by {
        if j > i {
            assert(s0[i].max + 1 < s0[i + 1].min);
            if j > i + 1 {
                lemma_wf_sorted(s0, i + 1, j);
            }
        }
    }
    assert(!ranges_contain(s0, item)) by {
        if ranges_contain(s0, item) {
            let j = choose|j: int| 0 <= j < s0.len() && #[trigger] in_range(s0[j], item);
        }
    }
}

/// Extending the range at `i` down to `item` adds exactly `item`.
proof fn lemma_insert_extend_min(s0: Seq<Range>, i: int, item: u32)
    requires
        ranges_wf(s0),
        0 <= i < s0.len(),
        s0[i].min == item + 1,
        forall|j: int| 0 <= j < i ==> (#[trigger] s0[j]).max + 1 < item,
    ensures
        ({
            let s1 = s0.update(i, Range { min: item, max: s0[i].max });
            &&& ranges_wf(s1)
            &&& forall|x: u32|
                ranges_contain(s1, x) <==> (ranges_contain(s0, x) || x == item)
            &&& !ranges_contain(s0, item)
        }),
{
    let s1 = s0.update(i, Range { min: item, max: s0[i].max });
    assert forall|j: int| 0 <= j < s1.len() implies (#[trigger] s1[j]).min <= s1[j].max && (j
        < s1.len() - 1 ==> s1[j].max + 1 < s1[j + 1].min) by {
        if j + 1 == i && j >= 0 {
            assert(s0[j].max + 1 < item);
        }
    }
    assert forall|x: u32| ranges_contain(s1, x) <==> (ranges_contain(s0, x) || x == item) by {
        if ranges_contain(s1, x) {
            let j = choose|j: int| 0 <= j < s1.len() && #[trigger] in_range(s1[j], x);
            if j != i {
                assert(in_range(s0[j], x));
            } else if x != item {
                assert(in_range(s0[i], x));
            }
        }
        if ranges_contain(s0, x) {
            let j = choose|j: int| 0 <= j < s0.len() && #[trigger] in_range(s0[j], x);
            if j != i {
                assert(in_range(s1[j], x));
            } else {
                assert(in_range(s1[i], x));
            }
        }
        if x == item {
            assert(in_range(s1[i], x));
        }
    }
    assert forall|j: int| i <= j < s0.len() implies item < (#[trigger] s0[j]).min by {
        if j > i {
            lemma_wf_sorted(s0, i, j);
        }
    }
    lemma_not_contained(s0, i, item);
}

/// Inserting a singleton range strictly between neighbours adds exactly
/// `item`.
proof fn lemma_insert_singleton(s0: Seq<Range>, i: int, item: u32)
    requires
        ranges_wf(s0),
        0 <= i < s0.len(),
        item + 1 < s0[i].min,
        forall|j: int| 0 <= j < i ==> (#[trigger] s0[j]).max + 1 < item,
    ensures
        ({
            let s1 = s0.insert(i, Range { min: item, max: item });
            &&& ranges_wf(s1)
            &&& forall|x: u32|
                ranges_contain(s1, x) <==> (ranges_contain(s0, x) || x == item)
            &&& !ranges_contain(s0, item)
        }),
{
    let s1 = s0.insert(i, Range { min: item, max: item });
    assert forall|j: int| 0 <= j < s1.len() implies (#[trigger] s1[j]).min <= s1[j].max && (j
        < s1.len() - 1 ==> s1[j].max + 1 < s1[j + 1].min) by {
        if j < i {
            assert(s1[j] == s0[j]);
        } else if j > i {
            assert(s1[j] == s0[j - 1]);
        }
        if j + 1 < s1.len() {
            if j + 1 < i {
                assert(s1[j + 1] == s0[j + 1]);
            } else if j + 1 > i {
                assert(s1[j + 1] == s0[j]);
            }
        }
    }
    assert forall|x: u32| ranges_contain(s1, x) <==> (ranges_contain(s0, x) || x == item) by {
        if ranges_contain(s1, x) {
            let j = choose|j: int| 0 <= j < s1.len() && #[trigger] in_range(s1[j], x);
            if j < i {
                assert(in_range(s0[j], x));
            } else if j > i {
                assert(in_range(s0[j - 1], x));
            }
        }
        if ranges_contain(s0, x) {
            let j = choose|j: int| 0 <= j < s0.len() && #[trigger] in_range(s0[j], x);
            if j < i {
                assert(in_range(s1[j], x));
            } else {
                assert(in_range(s1[j + 1], x));
            }
        }
        if x == item {
            assert(in_range(s1[i], x));
        }
    }
    assert forall|j: int| i <= j < s0.len() implies item < (#[trigger] s0[j]).min by {
        if j > i {
            lemma_wf_sorted(s0, i, j);
        }
    }
    lemma_not_contained(s0, i, item);
}

/// Appending a singleton range past every existing range adds exactly
/// `item`.
proof fn lemma_append_singleton(s0: Seq<Range>, item: u32)
    requires
        ranges_wf(s0),
        forall|j: int| 0 <= j < s0.len() ==> (#[trigger] s0[j]).max + 1 < item,
    ensures
        ({
            let s1 = s0.push(Range { min: item, max: item });
            &&& ranges_wf(s1)
            &&& forall|x: u32|
                ranges_contain(s1, x) <==> (ranges_contain(s0, x) || x == item)
            &&& !ranges_contain(s0, item)
        }),
{
    let s1 = s0.push(Range { min: item, max: item });
    assert forall|j: int| 0 <= j < s1.len() implies (#[trigger] s1[j]).min <= s1[j].max && (j
        < s1.len() - 1 ==> s1[j].max + 1 < s1[j + 1].min) by {
        if j < s0.len() {
            assert(s1[j] == s0[j]);
        }
        if j + 1 < s1.len() && j + 1 < s0.len() {
            assert(s1[j + 1] == s0[j + 1]);
        }
    }
    assert forall|x: u32| ranges_contain(s1, x) <==> (ranges_contain(s0, x) || x == item) by {
        if ranges_contain(s1, x) {
            let j = choose|j: int| 0 <= j < s1.len() && #[trigger] in_range(s1[j], x);
            if j < s0.len() {
                assert(in_range(s0[j], x));
            }
        }
        if ranges_contain(s0, x) {
            let j = choose|j: int| 0 <= j < s0.len() && #[trigger] in_range(s0[j], x);
            assert(in_range(s1[j], x));
        }
        if x == item {
            assert(in_range(s1[s1.len() - 1], x));
        }
    }
    assert(!ranges_contain(s0, item)) by {
        if ranges_contain(s0, item) {
            let j = choose|j: int| 0 <= j < s0.len() && #[trigger] in_range(s0[j], item);
        }
    }
}


/// The bit encoding of one range: a "single" flag, the lower bound, and
/// the upper bound unless the range is a singleton.
pub open spec fn range_bits(r: Range) -> Seq<bool> {
    if r.min == r.max {
        seq![true] + u32_le_bits(r.min)
    } else {
        seq![false] + u32_le_bits(r.min) + u32_le_bits(r.max)
    }
}

/// The bit encoding of a list of ranges, in order.
pub open spec fn ranges_bits(s: Seq<Range>) -> Seq<bool>
    decreases s.len(),
{
    if s.len() == 0 {
        Seq::empty()
    } else {
        range_bits(s[0]) + ranges_bits(s.drop_first())
    }
}

/// The wire encoding of a whole list: a compressed count, then each range.
pub open spec fn rangelist_bits(s: Seq<Range>) -> Seq<bool> {
    comp_u16_bits(s.len() as u16) + ranges_bits(s)
}

pub proof fn lemma_ranges_bits_snoc(s: Seq<Range>, r: Range)
    ensures
        ranges_bits(s.push(r)) == ranges_bits(s) + range_bits(r),
    decreases s.len(),
{
    if s.len() == 0 {
        assert(s.push(r).drop_first() =~= Seq::<Range>::empty());
        assert(s.push(r)[0] == r);
        assert(ranges_bits(Seq::<Range>::empty()) =~= Seq::<bool>::empty());
        assert(ranges_bits(s) =~= Seq::<bool>::empty());
        assert(ranges_bits(s.push(r)) =~= ranges_bits(s) + range_bits(r));
    } else {
        lemma_ranges_bits_snoc(s.drop_first(), r);
        assert(s.push(r).drop_first() =~= s.drop_first().push(r));
        assert(s.push(r)[0] == s[0]);
        assert(range_bits(s[0]) + (ranges_bits(s.drop_first()) + range_bits(r)) =~= (range_bits(
            s[0],
        ) + ranges_bits(s.drop_first())) + range_bits(r));
    }
}

/// Decoding `n` ranges from the bits at `pos`.
pub open spec fn parse_ranges(s: Seq<bool>, pos: int, n: int) -> Option<(Seq<Range>, int)>
    decreases n,
{
    if n <= 0 {
        Some((Seq::empty(), pos))
    } else if pos < s.len() {
        if s[pos] {
            if pos + 33 <= s.len() {
                let min = bits_u32(s, pos + 1);
                match parse_ranges(s, pos + 33, n - 1) {
                    Some((rest, np)) => Some((seq![Range { min: min, max: min }] + rest, np)),
                    None => None,
                }
            } else {
                None
            }
        } else {
            if pos + 65 <= s.len() {
                let min = bits_u32(s, pos + 1);
                let max = bits_u32(s, pos + 33);
                match parse_ranges(s, pos + 65, n - 1) {
                    Some((rest, np)) => Some((seq![Range { min: min, max: max }] + rest, np)),
                    None => None,
                }
            } else {
                None
            }
        }
    } else {
        None
    }
}

/// Decoding a whole list: a compressed count, then that many ranges.
pub open spec fn parse_rangelist(s: Seq<bool>, pos: int) -> Option<(Seq<Range>, int)> {
    match parse_comp_u16(s, pos) {
        Some((n, p1)) => parse_ranges(s, p1, n as int),
        None => None,
    }
}

impl RangeList {
    /// Appends the wire encoding of the list to the writer.
    pub fn serialize(&self, w: &mut BitWriter)
        requires
            self@.len() <= 0xffff,
        ensures
            final(w)@ == old(w)@ + rangelist_bits(self@),
    {
        let ghost s = self@;
        let ghost start = w@;
        let count = self.ranges.len() as u16;
        Compressed::<u16>(count).serialize(w);
        let ghost after_count = w@;
        let mut i: usize = 0;
        proof {
            assert(ranges_bits(s.take(0)) =~= Seq::<bool>::empty());
            assert(w@ =~= after_count + ranges_bits(s.take(0)));
        }
        while i < self.ranges.len()
            invariant
                s == self@,
                i <= s.len(),
                w@ == after_count + ranges_bits(s.take(i as int)),
            decreases s.len() - i,
        {
            let rg = self.ranges[i];
            let ghost before = w@;
            w.write_bit(rg.min == rg.max);
            w.write_u32(rg.min);
            if rg.min != rg.max {
                w.write_u32(rg.max);
            }
            proof {
                assert(w@ =~= before + range_bits(rg));
                lemma_ranges_bits_snoc(s.take(i as int), rg);
                assert(s.take(i as int).push(rg) =~= s.take(i as int + 1));
                assert(w@ =~= after_count + ranges_bits(s.take(i as int + 1)));
            }
            i = i + 1;
        }
        proof {
            assert(s.take(s.len() as int) =~= s);
            assert(w@ =~= start + rangelist_bits(s));
        }
    }

    /// Reads one encoded list from the reader. The result mirrors the
    /// wire content as-is; it satisfies `wf` only if the peer encoded a
    /// well-formed list.
    pub fn deserialize(r: &mut BitReader<'_>) -> (res: Option<RangeList>)
        requires
            old(r).wf(),
        ensures
            final(r).wf(),
            final(r).data@ == old(r).data@,
            match parse_rangelist(old(r).bits(), old(r).pos as int) {
                Some((rs, np)) => res matches Some(l) && l@ == rs && final(r).pos == np,
                None => res is None,
            },
    {
        let ghost s = old(r).bits();
        let count = match Compressed::<u16>::deserialize(r) {
            None => {
                return None;
            },
            Some(c) => c.0,
        };
        let ghost p1 = r.pos as int;
        let mut ranges: Vec<Range> = Vec::new();
        let mut k: u16 = 0;
        proof {
            let pr = parse_ranges(s, p1, count as int);
            if pr is Some {
                let q = pr->0;
                assert(ranges@ + q.0 =~= q.0);
            }
        }
        while k < count
            invariant
                r.wf(),
                r.data@ == old(r).data@,
                s == old(r).bits(),
                s == r.bits(),
                parse_rangelist(s, old(r).pos as int) == parse_ranges(s, p1, count as int),
                k <= count,
                match parse_ranges(s, p1, count as int) {
                    Some((rs, np)) => parse_ranges(s, r.pos as int, count - k) matches Some(
                        (rest, np2),
                    ) && rs == ranges@ + rest && np == np2,
                    None => parse_ranges(s, r.pos as int, count - k) is None,
                },
            decreases count - k,
        {
            let ghost pk = r.pos as int;
            let single = match r.read_bit() {
                None => {
                    return None;
                },
                Some(b) => b,
            };
            let min = match r.read_u32() {
                None => {
                    return None;
                },
                Some(v) => v,
            };
            let rg: Range;
            if single {
                rg = Range { min: min, max: min };
            } else {
                let max = match r.read_u32() {
                    None => {
                        return None;
                    },
                    Some(v) => v,
                };
                rg = Range { min: min, max: max };
            }
            ranges.push(rg);
            proof {
                let m = count - k;
                if parse_ranges(s, pk, m as int) is Some {
                    let (rest, np2) = parse_ranges(s, pk, m as int)->0;
                    let (rest2, np3) = parse_ranges(s, r.pos as int, m as int - 1)->0;
                    assert(rest == seq![rg] + rest2);
                    assert(ranges@ =~= ranges@.drop_last().push(rg));
                    assert(ranges@.drop_last() + (seq![rg] + rest2) =~= ranges@ + rest2);
                }
            }
            k = k + 1;
        }
        proof {
            if parse_ranges(s, r.pos as int, 0) is Some {
                assert(ranges@ + Seq::<Range>::empty() =~= ranges@);
            }
        }
        Some(RangeList { ranges })
    }
}

/// Decoding the encoding of a list of ranges, embedded in a longer stream,
/// yields the list back.
pub proof fn lemma_ranges_bits_parse(s: Seq<bool>, pos: int, rs: Seq<Range>)
    requires
        0 <= pos,
        pos + ranges_bits(rs).len() <= s.len(),
        s.subrange(pos, pos + ranges_bits(rs).len()) == ranges_bits(rs),
    ensures
        parse_ranges(s, pos, rs.len() as int) == Some((rs, pos + ranges_bits(rs).len())),
    decreases rs.len(),
{
    if rs.len() == 0 {
        assert(parse_ranges(s, pos, 0) == Some((Seq::<Range>::empty(), pos)));
        assert(rs =~= Seq::<Range>::empty());
    } else {
        let r0 = rs[0];
        let head = range_bits(r0);
        let rest = ranges_bits(rs.drop_first());
        assert(ranges_bits(rs) == head + rest);
        assert forall|j: int| pos <= j < pos + ranges_bits(rs).len() implies #[trigger] s[j]
            == ranges_bits(rs)[j - pos] by {
            assert(s.subrange(pos, pos + ranges_bits(rs).len())[j - pos] == ranges_bits(rs)[j
                - pos]);
        }
        assert(s[pos] == (r0.min == r0.max));
        if r0.min == r0.max {
            assert(s.subrange(pos + 1, pos + 33) =~= u32_le_bits(r0.min));
            lemma_bits_u32_of_u32_le_bits(s, pos + 1, r0.min);
            assert(s.subrange(pos + 33, pos + 33 + rest.len()) =~= rest);
            lemma_ranges_bits_parse(s, pos + 33, rs.drop_first());
            assert(seq![Range { min: r0.min, max: r0.min }] + rs.drop_first() =~= rs);
        } else {
            assert(s.subrange(pos + 1, pos + 33) =~= u32_le_bits(r0.min));
            assert(s.subrange(pos + 33, pos + 65) =~= u32_le_bits(r0.max));
            lemma_bits_u32_of_u32_le_bits(s, pos + 1, r0.min);
            lemma_bits_u32_of_u32_le_bits(s, pos + 33, r0.max);
            assert(s.subrange(pos + 65, pos + 65 + rest.len()) =~= rest);
            lemma_ranges_bits_parse(s, pos + 65, rs.drop_first());
            assert(seq![Range { min: r0.min, max: r0.max }] + rs.drop_first() =~= rs);
        }
    }
}

/// Serialization round-trips: decoding the encoding of any list of at most
/// `u16::MAX` ranges, embedded in a longer stream, yields the list back.
pub proof fn lemma_rangelist_round_trip(s: Seq<bool>, pos: int, rs: Seq<Range>)
    requires
        rs.len() <= 0xffff,
        0 <= pos,
        pos + rangelist_bits(rs).len() <= s.len(),
        s.subrange(pos, pos + rangelist_bits(rs).len()) == rangelist_bits(rs),
    ensures
        parse_rangelist(s, pos) == Some((rs, pos + rangelist_bits(rs).len())),
{
    let n = rs.len() as u16;
    let cb = comp_u16_bits(n);
    let rb = ranges_bits(rs);
    assert forall|j: int| pos <= j < pos + rangelist_bits(rs).len() implies #[trigger] s[j]
        == rangelist_bits(rs)[j - pos] by {
        assert(s.subrange(pos, pos + rangelist_bits(rs).len())[j - pos] == rangelist_bits(rs)[j
            - pos]);
    }
    assert(s.subrange(pos, pos + cb.len()) =~= cb);
    lemma_comp_u16_round_trip(s, pos, n);
    assert(s.subrange(pos + cb.len(), pos + cb.len() + rb.len()) =~= rb);
    lemma_ranges_bits_parse(s, pos + cb.len(), rs);
}

/// The ids covered by one range, ascending.
pub open spec fn range_seq(r: Range) -> Seq<u32> {
    Seq::new((r.max - r.min + 1) as nat, |k: int| (r.min + k) as u32)
}

/// The ids covered by a list of ranges, in list order.
pub open spec fn ranges_seq(s: Seq<Range>) -> Seq<u32>
    decreases s.len(),
{
    if s.len() == 0 {
        Seq::empty()
    } else {
        range_seq(s[0]) + ranges_seq(s.drop_first())
    }
}

/// Every id an iterator will yield is at least the first lower bound.
proof fn lemma_ranges_seq_lower(s: Seq<Range>)
    requires
        ranges_wf(s),
        s.len() > 0,
    ensures
        forall|k: int| 0 <= k < ranges_seq(s).len() ==> s[0].min <= #[trigger] ranges_seq(s)[k],
    decreases s.len(),
{
    let head = range_seq(s[0]);
    let rest = s.drop_first();
    assert(forall|i: int| 0 <= i < rest.len() ==> rest[i] == s[i + 1]);
    if rest.len() > 0 {
        lemma_ranges_seq_lower(rest);
        lemma_wf_sorted(s, 0, 1);
    }
    assert forall|k: int| 0 <= k < ranges_seq(s).len() implies s[0].min
        <= #[trigger] ranges_seq(s)[k] by {
        if k < head.len() {
            assert(ranges_seq(s)[k] == head[k]);
        } else {
            assert(ranges_seq(s)[k] == ranges_seq(rest)[k - head.len()]);
            assert(s[0].min <= rest[0].min);
        }
    }
}

proof fn lemma_ranges_seq_len(s: Seq<Range>)
    requires
        ranges_wf(s),
    ensures
        ranges_seq(s).len() == ranges_count(s),
    decreases s.len(),
{
    if s.len() > 0 {
        let rest = s.drop_first();
        assert(forall|i: int| 0 <= i < rest.len() ==> rest[i] == s[i + 1]);
        lemma_ranges_seq_len(rest);
    }
}

proof fn lemma_ranges_seq_sorted(s: Seq<Range>)
    requires
        ranges_wf(s),
    ensures
        forall|a: int, b: int| 0 <= a < b < ranges_seq(s).len() ==> #[trigger] ranges_seq(s)[a]
            < #[trigger] ranges_seq(s)[b],
    decreases s.len(),
{
    if s.len() > 0 {
        let head = range_seq(s[0]);
        let rest = s.drop_first();
        assert(ranges_seq(s) == head + ranges_seq(rest));
        assert(forall|i: int| 0 <= i < rest.len() ==> rest[i] == s[i + 1]);
        lemma_ranges_seq_sorted(rest);
        if rest.len() > 0 {
            lemma_ranges_seq_lower(rest);
            lemma_wf_sorted(s, 0, 1);
        }
        assert forall|a: int, b: int| 0 <= a < b < ranges_seq(s).len() implies
            #[trigger] ranges_seq(s)[a] < #[trigger] ranges_seq(s)[b] by {
            if b < head.len() {
                assert(ranges_seq(s)[a] == head[a] && ranges_seq(s)[b] == head[b]);
            } else if a < head.len() {
                assert(ranges_seq(s)[a] == head[a]);
                assert(ranges_seq(s)[b] == ranges_seq(rest)[b - head.len()]);
                assert(rest[0].min <= ranges_seq(rest)[b - head.len()]);
            } else {
                assert(ranges_seq(s)[a] == ranges_seq(rest)[a - head.len()]);
                assert(ranges_seq(s)[b] == ranges_seq(rest)[b - head.len()]);
            }
        }
    }
}

proof fn lemma_ranges_seq_contains_x(s: Seq<Range>, x: u32)
    requires
        ranges_wf(s),
    ensures
        ranges_seq(s).contains(x) <==> ranges_contain(s, x),
    decreases s.len(),
{
    if s.len() == 0 {
        assert(!ranges_seq(s).contains(x));
        assert(!ranges_contain(s, x));
    } else {
        let head = range_seq(s[0]);
        let rest = s.drop_first();
        let cat = head + ranges_seq(rest);
        assert(ranges_seq(s) == cat);
        assert(forall|i: int| 0 <= i < rest.len() ==> rest[i] == s[i + 1]);
        lemma_ranges_seq_contains_x(rest, x);
        if ranges_seq(s).contains(x) {
            let k = choose|k: int| 0 <= k < ranges_seq(s).len() && ranges_seq(s)[k] == x;
            assert(ranges_seq(s)[k] == cat[k]);
            if k < head.len() {
                assert(cat[k] == head[k]);
                assert(head[k] == (s[0].min + k) as u32);
                assert(in_range(s[0], x));
                assert(ranges_contain(s, x));
            } else {
                assert(cat[k] == ranges_seq(rest)[k - head.len()]);
                assert(ranges_seq(rest).contains(x)) by {
                    assert(ranges_seq(rest)[k - head.len()] == x);
                }
                let j = choose|j: int| 0 <= j < rest.len() && #[trigger] in_range(rest[j], x);
                assert(in_range(s[j + 1], x));
                assert(ranges_contain(s, x));
            }
        }
        if ranges_contain(s, x) {
            let j = choose|j: int| 0 <= j < s.len() && #[trigger] in_range(s[j], x);
            if j == 0 {
                let k0 = x - s[0].min;
                assert(0 <= k0 < head.len());
                assert(head[k0] == (s[0].min + k0) as u32);
                assert(s[0].min + k0 == x);
                assert(head[k0] == x);
                assert(cat[k0] == head[k0]);
                assert(ranges_seq(s)[k0] == cat[k0]);
                assert(ranges_seq(s).contains(x));
            } else {
                assert(in_range(rest[j - 1], x));
                assert(ranges_seq(rest).contains(x));
                let k = choose|k: int| 0 <= k < ranges_seq(rest).len() && ranges_seq(rest)[k] == x;
                assert(cat[head.len() + k] == ranges_seq(rest)[k]);
                assert(ranges_seq(s)[head.len() + k] == cat[head.len() + k]);
                assert(ranges_seq(s).contains(x));
            }
        }
    }
}

/// Iterating a well-formed list yields exactly the contained ids, each
/// once, in strictly ascending order; their number is what `len` reports.
pub proof fn lemma_ranges_seq_properties(s: Seq<Range>)
    requires
        ranges_wf(s),
    ensures
        ranges_seq(s).len() == ranges_count(s),
        forall|a: int, b: int| 0 <= a < b < ranges_seq(s).len() ==> #[trigger] ranges_seq(s)[a]
            < #[trigger] ranges_seq(s)[b],
        forall|x: u32| ranges_seq(s).contains(x) <==> ranges_contain(s, x),
{
    lemma_ranges_seq_len(s);
    lemma_ranges_seq_sorted(s);
    assert forall|x: u32| ranges_seq(s).contains(x) <==> ranges_contain(s, x) by {
        lemma_ranges_seq_contains_x(s, x);
    }
}

/// An iterator over the ids of a `RangeList`, ascending.
pub struct Items {
    ranges: Vec<Range>,
    idx: usize,
    offset: u32,
}

impl Items {
    /// The iterator's cursor sits inside the current range.
    pub closed spec fn wf(&self) -> bool {
        &&& ranges_wf(self.ranges@)
        &&& self.idx <= self.ranges@.len()
        &&& (self.idx < self.ranges@.len() ==> self.offset <= self.ranges@[self.idx as int].max
            - self.ranges@[self.idx as int].min)
    }

    /// The ids still to be yielded.
    pub closed spec fn remaining(&self) -> Seq<u32> {
        if self.idx < self.ranges@.len() {
            range_seq(self.ranges@[self.idx as int]).skip(self.offset as int) + ranges_seq(
                self.ranges@.skip(self.idx as int + 1),
            )
        } else {
            Seq::empty()
        }
    }

    /// Yields the next id, ascending, or `None` once exhausted.
    pub fn next(&mut self) -> (r: Option<u32>)
        requires
            old(self).wf(),
        ensures
            final(self).wf(),
            old(self).remaining().len() > 0 ==> r == Some(old(self).remaining()[0])
                && final(self).remaining() == old(self).remaining().drop_first(),
            old(self).remaining().len() == 0 ==> r == None::<u32> && final(self).remaining()
                == old(self).remaining(),
    {
        if self.idx >= self.ranges.len() {
            return None;
        }
        let ghost rem0 = self.remaining();
        let rg = self.ranges[self.idx];
        let val = rg.min + self.offset;
        proof {
            assert(rem0[0] == range_seq(rg).skip(self.offset as int)[0]);
            assert(range_seq(rg)[self.offset as int] == val);
        }
        if val == rg.max {
            self.idx = self.idx + 1;
            self.offset = 0;
            proof {
                let s = self.ranges@;
                let i = self.idx as int;
                if i < s.len() {
                    assert(ranges_seq(s.skip(i)) == range_seq(s[i]) + ranges_seq(s.skip(i + 1)))
                        by {
                        assert(s.skip(i).drop_first() =~= s.skip(i + 1));
                        assert(s.skip(i)[0] == s[i]);
                    }
                    assert(range_seq(s[i]).skip(0) =~= range_seq(s[i]));
                    assert(self.remaining() =~= rem0.drop_first());
                } else {
                    assert(s.skip(i) =~= Seq::<Range>::empty());
                    assert(self.remaining() =~= rem0.drop_first());
                }
            }
        } else {
            self.offset = self.offset + 1;
            proof {
                assert(self.remaining() =~= rem0.drop_first());
            }
        }
        Some(val)
    }
}

impl RangeList {
    /// Turns the list into an iterator over its ids, ascending.
    pub fn into_iter(self) -> (r: Items)
        requires
            self.wf(),
        ensures
            r.wf(),
            r.remaining() == ranges_seq(self@),
    {
        let r = Items { ranges: self.ranges, idx: 0, offset: 0 };
        proof {
            let s = r.ranges@;
            if s.len() > 0 {
                assert(range_seq(s[0]).skip(0) =~= range_seq(s[0]));
                assert(s.skip(1) =~= s.drop_first());
                assert(r.remaining() =~= ranges_seq(s));
            } else {
                assert(r.remaining() =~= ranges_seq(s));
            }
        }
        r
    }
}

} // verus!
