use vstd::prelude::*;

verus! {

/// Values that may hold a sentinel or out-of-range content and can say whether they are usable.
pub trait ValidCheck {
    spec fn is_valid(&self) -> bool;

    fn valid(&self) -> (r: bool)
        ensures
            r == self.is_valid(),
    ;
}

/// Values placed on a line: `rank` is the position used by every comparison of ranges.
pub trait Ranked: Copy {
    spec fn rank(&self) -> int;

    fn rank_of(&self) -> (r: i64)
        ensures
            r as int == self.rank(),
    ;
}

/// The larger of two values by rank; on a tie, the second one.
pub open spec fn rank_max<T: Ranked>(a: T, b: T) -> T {
    if a.rank() > b.rank() {
        a
    } else {
        b
    }
}

/// The smaller of two values by rank; on a tie, the first one.
pub open spec fn rank_min<T: Ranked>(a: T, b: T) -> T {
    if a.rank() <= b.rank() {
        a
    } else {
        b
    }
}

/// The range `[start, end]`, both ends included.
#[derive(Clone, Copy, PartialEq, Eq, Debug)]
pub struct InclusiveRange<T> {
    pub start: T,
    pub end: T,
}

impl<T: Ranked> InclusiveRange<T> {
    pub open spec fn spec_overlaps(&self, other: &InclusiveRange<T>) -> bool {
        self.start.rank() <= other.end.rank() && other.start.rank() <= self.end.rank()
    }

    pub open spec fn spec_contains(&self, elem: T) -> bool {
        self.start.rank() <= elem.rank() && elem.rank() <= self.end.rank()
    }

    pub open spec fn spec_intersection(&self, other: &InclusiveRange<T>) -> Option<InclusiveRange<T>> {
        let start = rank_max(self.start, other.start);
        let end = rank_min(self.end, other.end);
        if start.rank() <= end.rank() {
            Some(InclusiveRange { start, end })
        } else {
            None
        }
    }

    pub fn overlaps(&self, other: &InclusiveRange<T>) -> (r: bool)
        ensures
            r == self.spec_overlaps(other),
    {
        self.start.rank_of() <= other.end.rank_of() && other.start.rank_of() <= self.end.rank_of()
    }

    pub fn intersection(&self, other: &InclusiveRange<T>) -> (r: Option<InclusiveRange<T>>)
        ensures
            r == self.spec_intersection(other),
            self.start.rank() <= self.end.rank() && other.start.rank() <= other.end.rank() ==> (
            r is Some <==> self.spec_overlaps(other)),
    {
        let start = if self.start.rank_of() > other.start.rank_of() {
            self.start
        } else {
            other.start
        };
        let end = if self.end.rank_of() <= other.end.rank_of() {
            self.end
        } else {
            other.end
        };
        if start.rank_of() <= end.rank_of() {
            Some(InclusiveRange { start, end })
        } else {
            None
        }
    }

    pub fn contains(&self, elem: &T) -> (r: bool)
        ensures
            r == self.spec_contains(*elem),
    {
        self.start.rank_of() <= elem.rank_of() && elem.rank_of() <= self.end.rank_of()
    }
}

impl<T: Ranked + ValidCheck> ValidCheck for InclusiveRange<T> {
    open spec fn is_valid(&self) -> bool {
        self.start.is_valid() && self.end.is_valid() && self.start.rank() <= self.end.rank()
    }

    fn valid(&self) -> (r: bool) {
        self.start.valid() && self.end.valid() && self.start.rank_of() <= self.end.rank_of()
    }
}

/// The range `[start, end)`: the start is included, the end is not.
#[derive(Clone, Copy, PartialEq, Eq, Debug)]
pub struct ExclusiveRange<T> {
    pub start: T,
    pub end: T,
}

impl<T: Ranked> ExclusiveRange<T> {
    pub open spec fn spec_overlaps(&self, other: &ExclusiveRange<T>) -> bool {
        self.start.rank() < other.end.rank() && other.start.rank() < self.end.rank()
    }

    pub open spec fn spec_contains(&self, elem: T) -> bool {
        self.start.rank() <= elem.rank() && elem.rank() < self.end.rank()
    }

    pub fn overlaps(&self, other: &ExclusiveRange<T>) -> (r: bool)
        ensures
            r == self.spec_overlaps(other),
    {
        self.start.rank_of() < other.end.rank_of() && other.start.rank_of() < self.end.rank_of()
    }

    pub fn contains(&self, elem: &T) -> (r: bool)
        ensures
            r == self.spec_contains(*elem),
    {
        self.start.rank_of() <= elem.rank_of() && elem.rank_of() < self.end.rank_of()
    }
}

impl<T: Ranked + ValidCheck> ValidCheck for ExclusiveRange<T> {
    open spec fn is_valid(&self) -> bool {
        self.start.is_valid() && self.end.is_valid() && self.start.rank() < self.end.rank()
    }

    fn valid(&self) -> (r: bool) {
        self.start.valid() && self.end.valid() && self.start.rank_of() < self.end.rank_of()
    }
}

/// Index of the first element from `i` on that satisfies `pred`.
pub open spec fn first_index<A>(s: Seq<A>, pred: spec_fn(A) -> bool, i: int) -> Option<int>
    decreases s.len() - i,
{
    if i < 0 || i >= s.len() {
        None
    } else if pred(s[i]) {
        Some(i)
    } else {
        first_index(s, pred, i + 1)
    }
}

pub proof fn lemma_first_index<A>(s: Seq<A>, pred: spec_fn(A) -> bool, i: int)
    requires
        0 <= i,
    ensures
        first_index(s, pred, i) matches Some(j) ==> i <= j < s.len() && pred(s[j]) && forall|k: int|
            i <= k < j ==> !pred(#[trigger] s[k]),
        first_index(s, pred, i) is None ==> forall|k: int| i <= k < s.len() ==> !pred(#[trigger] s[k]),
    decreases s.len() - i,
{
    if i < s.len() && !pred(s[i]) {
        lemma_first_index(s, pred, i + 1);
    }
}

/// Whether bit `i` of `bits` is set.
pub open spec fn bit_set(bits: u8, i: int) -> bool {
    0 <= i < 8 && (bits >> (i as u8)) & 1u8 == 1u8
}

/// The byte whose bits `start` to `end` (both included) are set, and no other.
pub fn bit_range(start: u32, end: u32) -> (r: u8)
    requires
        start <= end < 7,
    ensures
        forall|i: int| 0 <= i < 8 ==> (bit_set(r, i) <==> start <= i <= end),
        r < 128,
{
    let mut r: u8 = 0;
    let mut k: u32 = start;
    assert forall|i: int| 0 <= i < 8 implies !bit_set(0u8, i) by {
        let ib = i as u8;
        assert((0u8 >> ib) & 1u8 == 0u8) by (bit_vector);
    }
    while k <= end
        invariant
            start <= k <= end + 1,
            end < 7,
            forall|i: int| 0 <= i < 8 ==> (bit_set(r, i) <==> start <= i < k),
            r < 128,
        decreases end + 1 - k,
    {
        let kb = k as u8;
        let old_r = r;
        r = r | (1u8 << kb);
        assert(old_r | (1u8 << kb) < 128u8) by (bit_vector)
            requires old_r < 128u8, kb < 7u8;
        assert forall|i: int| 0 <= i < 8 implies (bit_set(r, i) <==> (bit_set(old_r, i) || i == kb)) by {
            let ib = i as u8;
            assert(((old_r | (1u8 << kb)) >> ib) & 1u8 == 1u8 <==> ((old_r >> ib) & 1u8 == 1u8 || ib == kb)) by (bit_vector)
                requires kb < 8u8, ib < 8u8;
        }
        k = k + 1;
    }
    r
}

} // verus!
