//! Memory layout model: the fixed partitioning of the 32-bit address space
//! into reserved, MMIO, kernel and user windows, and a first-fit region
//! allocator that splits a bounded window into `Free` and `Allocated`
//! ranges.

use vstd::prelude::*;

verus! {

// The upper windows grow downward from the top of the address space.
pub const TOP_RESERVED_SIZE: u32 = 0x0000_FFEF;
pub const TOP_RESERVED_START: u32 = 0xFFFF_FFFF;
pub const TOP_RESERVED_END: u32 = TOP_RESERVED_START - TOP_RESERVED_SIZE;

pub const MMIO_SIZE: u32 = 0x0000_0010;
pub const MMIO_START: u32 = TOP_RESERVED_END;
pub const MMIO_END: u32 = MMIO_START - MMIO_SIZE;

pub const KERNEL_DATA_SIZE: u32 = 0x6FFF_0000;
pub const KERNEL_DATA_START: u32 = MMIO_END;
pub const KERNEL_DATA_END: u32 = KERNEL_DATA_START - KERNEL_DATA_SIZE;

pub const KERNEL_TEXT_SIZE: u32 = 0x1000_0000;
pub const KERNEL_TEXT_START: u32 = KERNEL_DATA_END;
pub const KERNEL_TEXT_END: u32 = KERNEL_TEXT_START - KERNEL_TEXT_SIZE;

pub const STACK_START: u32 = KERNEL_TEXT_END;

// The user windows grow upward from a separate base.
pub const STATIC_DATA_START: u32 = 0x1000_0000;

pub const TEXT_SIZE: u32 = 0x0600_0000;
pub const TEXT_END: u32 = STATIC_DATA_START;
pub const TEXT_START: u32 = TEXT_END - TEXT_SIZE;

pub const BOTTOM_RESERVED_SIZE: u32 = 0x0400_0000;
pub const BOTTOM_RESERVED_END: u32 = TEXT_START;
pub const BOTTOM_RESERVED_START: u32 = BOTTOM_RESERVED_END - BOTTOM_RESERVED_SIZE;

#[derive(Copy, Clone, PartialEq, Eq, Structural, Debug)]
pub enum MemRangeStatus {
    Free,
    Allocated,
}

/// A span `[lower, upper]` of addresses, both bounds inclusive, tagged
/// `Free` or `Allocated`.  An allocated range may carry the index of the
/// segment that occupies it.
#[derive(Copy, Clone, PartialEq, Eq, Structural, Debug)]
pub struct MemRange {
    pub lower: u32,
    pub upper: u32,
    pub status: MemRangeStatus,
    pub data: Option<usize>,
}

impl MemRange {
    /// The basic well-formedness of a span: it contains at least one byte.
    pub open spec fn wf(self) -> bool {
        self.lower <= self.upper
    }

    /// The number of bytes the span covers.
    pub open spec fn spec_size(self) -> int {
        self.upper - self.lower + 1
    }

    pub fn new(lower: u32, upper: u32, status: MemRangeStatus, data: Option<usize>) -> (r:
        MemRange)
        requires
            lower <= upper,
        ensures
            r == (MemRange { lower, upper, status, data }),
    {
        MemRange { lower, upper, status, data }
    }

    pub fn get_range(&self) -> (r: (u32, u32))
        ensures
            r == (self.lower, self.upper),
    {
        (self.lower, self.upper)
    }

    pub fn get_status(&self) -> (r: MemRangeStatus)
        ensures
            r == self.status,
    {
        self.status
    }

    pub fn get_data(&self) -> (r: Option<usize>)
        ensures
            r == self.data,
    {
        self.data
    }

    pub fn set_range(self, lower: u32, upper: u32) -> (r: MemRange)
        requires
            lower <= upper,
        ensures
            r == (MemRange { lower, upper, ..self }),
    {
        MemRange { lower, upper, ..self }
    }

    pub fn set_status(&mut self, status: MemRangeStatus)
        ensures
            *final(self) == (MemRange { status, ..*old(self) }),
    {
        self.status = status;
    }

    pub fn set_data(&mut self, data: Option<usize>)
        ensures
            *final(self) == (MemRange { data, ..*old(self) }),
    {
        self.data = data;
    }

    pub fn size_bytes(&self) -> (r: u32)
        requires
            self.wf(),
            self.spec_size() <= u32::MAX,
        ensures
            r == self.spec_size(),
    {
        self.upper - self.lower + 1
    }

    /// Split off a trailing free block of `bytes` bytes, reducing `self`.
    pub fn shrink(self, bytes: u32) -> (r: (MemRange, MemRange))
        requires
            self.wf(),
            1 <= bytes <= self.upper - self.lower,
        ensures
            r.0 == (MemRange { upper: (self.upper - bytes) as u32, ..self }),
            r.1 == (MemRange {
                lower: (self.upper - bytes + 1) as u32,
                upper: self.upper,
                status: MemRangeStatus::Free,
                data: None,
            }),
    {
        let new_upper = self.upper - bytes;
        (
            MemRange { upper: new_upper, ..self },
            MemRange {
                lower: new_upper + 1,
                upper: self.upper,
                status: MemRangeStatus::Free,
                data: None,
            },
        )
    }

    /// Extend `self` forward into an adjacent free successor, taking
    /// `bytes` bytes from its low end.  Returns the grown range and the
    /// remainder of the successor, if any is left.
    pub fn grow(self, next: &MemRange, bytes: u32) -> (r: (MemRange, Option<MemRange>))
        requires
            self.wf(),
            next.wf(),
            next.lower == self.upper + 1,
            next.status == MemRangeStatus::Free,
            1 <= bytes <= next.spec_size(),
        ensures
            r.0 == (MemRange { upper: (self.upper + bytes) as u32, ..self }),
            r.1 == if bytes < next.spec_size() {
                Some(MemRange {
                    lower: (self.upper + bytes + 1) as u32,
                    upper: next.upper,
                    status: MemRangeStatus::Free,
                    data: None,
                })
            } else {
                None::<MemRange>
            },
    {
        let new_upper = self.upper + bytes;
        let rest = if new_upper < next.upper {
            Some(MemRange {
                lower: new_upper + 1,
                upper: next.upper,
                status: MemRangeStatus::Free,
                data: None,
            })
        } else {
            None
        };
        (MemRange { upper: new_upper, ..self }, rest)
    }

    /// Place `middle` strictly inside the free span `self`, returning the
    /// leftover free prefix and suffix, if any.  `middle` is always the
    /// second element of the returned triple.
    pub fn insert(self, middle: MemRange) -> (r: (Option<MemRange>, MemRange, Option<MemRange>))
        requires
            self.wf(),
            middle.wf(),
            self.status == MemRangeStatus::Free,
            self.lower <= middle.lower,
            middle.upper <= self.upper,
        ensures
            r.1 == middle,
            r.0 == if self.lower < middle.lower {
                Some(MemRange {
                    lower: self.lower,
                    upper: (middle.lower - 1) as u32,
                    status: MemRangeStatus::Free,
                    data: None,
                })
            } else {
                None::<MemRange>
            },
            r.2 == if middle.upper < self.upper {
                Some(MemRange {
                    lower: (middle.upper + 1) as u32,
                    upper: self.upper,
                    status: MemRangeStatus::Free,
                    data: None,
                })
            } else {
                None::<MemRange>
            },
    {
        let before = if self.lower < middle.lower {
            Some(MemRange {
                lower: self.lower,
                upper: middle.lower - 1,
                status: MemRangeStatus::Free,
                data: None,
            })
        } else {
            None
        };
        let after = if middle.upper < self.upper {
            Some(MemRange {
                lower: middle.upper + 1,
                upper: self.upper,
                status: MemRangeStatus::Free,
                data: None,
            })
        } else {
            None
        };
        (before, middle, after)
    }

    /// Coalesce `self` with the adjacent free range `other`.
    pub fn merge(self, other: MemRange) -> (r: MemRange)
        requires
            self.wf(),
            other.wf(),
            other.lower == self.upper + 1,
            other.status == MemRangeStatus::Free,
        ensures
            r == (MemRange { upper: other.upper, ..self }),
    {
        MemRange { upper: other.upper, ..self }
    }
}

/// A placement request: a fixed `(lower, upper)` pair, a fixed `lower` or
/// `upper` with a size (the other bound derived), or only a size, in which
/// case placement is deferred to the allocator's second pass.
#[derive(Copy, Clone, PartialEq, Eq, Structural, Debug)]
pub struct MemPosition {
    pub lower: Option<u32>,
    pub upper: Option<u32>,
    pub size: u32,
    pub data: Option<usize>,
}

impl MemPosition {
    /// A request asks for at least one byte, and explicit bounds agree
    /// with the size.
    pub open spec fn wf(self) -> bool {
        &&& self.size >= 1
        &&& match (self.lower, self.upper) {
            (Some(l), Some(u)) => l <= u && self.size == u - l + 1,
            _ => true,
        }
    }

    pub fn new(lower: Option<u32>, upper: Option<u32>, size: u32, data: Option<usize>) -> (r:
        MemPosition)
        requires
            size >= 1,
            match (lower, upper) {
                (Some(l), Some(u)) => l <= u && size == u - l + 1,
                _ => true,
            },
        ensures
            r == (MemPosition { lower, upper, size, data }),
            r.wf(),
    {
        MemPosition { lower, upper, size, data }
    }

    pub fn get_range(&self) -> (r: (Option<u32>, Option<u32>))
        ensures
            r == (self.lower, self.upper),
    {
        (self.lower, self.upper)
    }

    pub fn get_data(&self) -> (r: Option<usize>)
        ensures
            r == self.data,
    {
        self.data
    }

    pub fn set_range(self, lower: Option<u32>, upper: Option<u32>, size: u32) -> (r: MemPosition)
        requires
            size >= 1,
            match (lower, upper) {
                (Some(l), Some(u)) => l <= u && size == u - l + 1,
                _ => true,
            },
        ensures
            r == (MemPosition { lower, upper, size, ..self }),
    {
        MemPosition { lower, upper, size, ..self }
    }

    pub fn set_data(&mut self, data: Option<usize>)
        ensures
            *final(self) == (MemPosition { data, ..*old(self) }),
    {
        self.data = data;
    }

    pub fn size_bytes(&self) -> (r: u32)
        ensures
            r == self.size,
    {
        self.size
    }
}

/// A failed placement, reported with the request and a snapshot of the
/// working range list at the time of the failure.
#[derive(Clone, PartialEq, Eq, Debug)]
pub enum AllocError {
    PlacementFixed { lower: u32, upper: u32, ranges: Vec<MemRange> },
    PlacementSize { size: u32, ranges: Vec<MemRange> },
}

pub open spec fn free_range(l: u32, u: u32) -> MemRange {
    MemRange { lower: l, upper: u, status: MemRangeStatus::Free, data: None }
}

pub open spec fn alloc_range(l: u32, u: u32, data: Option<usize>) -> MemRange {
    MemRange { lower: l, upper: u, status: MemRangeStatus::Allocated, data }
}

/// The free range `m` can hold the exact span `[l, u]`.
pub open spec fn covers(m: MemRange, l: u32, u: u32) -> bool {
    m.status == MemRangeStatus::Free && m.lower <= l && u <= m.upper
}

/// The free range `m` can hold `size` bytes somewhere.
pub open spec fn fits(m: MemRange, size: u32) -> bool {
    m.status == MemRangeStatus::Free && m.spec_size() >= size
}

/// Index of the first range that covers `[l, u]`, or -1 if none does.
pub open spec fn find_cover(s: Seq<MemRange>, l: u32, u: u32) -> int
    decreases s.len(),
{
    if s.len() == 0 {
        -1
    } else if covers(s[0], l, u) {
        0
    } else {
        let r = find_cover(s.skip(1), l, u);
        if r == -1 {
            -1
        } else {
            r + 1
        }
    }
}

/// Index of the first free range of at least `size` bytes, or -1.
pub open spec fn find_fit(s: Seq<MemRange>, size: u32) -> int
    decreases s.len(),
{
    if s.len() == 0 {
        -1
    } else if fits(s[0], size) {
        0
    } else {
        let r = find_fit(s.skip(1), size);
        if r == -1 {
            -1
        } else {
            r + 1
        }
    }
}

/// The pieces that replace a free range `m` when `mid` is carved out of
/// it: an optional free prefix, `mid` itself, and an optional free suffix.
pub open spec fn split_pieces(m: MemRange, mid: MemRange) -> Seq<MemRange> {
    if m.lower < mid.lower && mid.upper < m.upper {
        seq![
            free_range(m.lower, (mid.lower - 1) as u32),
            mid,
            free_range((mid.upper + 1) as u32, m.upper),
        ]
    } else if m.lower < mid.lower {
        seq![free_range(m.lower, (mid.lower - 1) as u32), mid]
    } else if mid.upper < m.upper {
        seq![mid, free_range((mid.upper + 1) as u32, m.upper)]
    } else {
        seq![mid]
    }
}

/// How many free pieces precede `mid` in `split_pieces(m, mid)`.
pub open spec fn split_pre_len(m: MemRange, mid: MemRange) -> int {
    if m.lower < mid.lower {
        1
    } else {
        0
    }
}

/// Carve the exact span `[l, u]` out of the first free range that covers
/// it, or fail.
pub open spec fn spec_place_fixed(s: Seq<MemRange>, l: u32, u: u32, data: Option<usize>) -> Option<
    Seq<MemRange>,
> {
    let i = find_cover(s, l, u);
    if i == -1 {
        None
    } else {
        Some(s.take(i) + split_pieces(s[i], alloc_range(l, u, data)) + s.skip(i + 1))
    }
}

/// Allocate `size` bytes at the low end of the first free range that can
/// hold them, or fail.
pub open spec fn spec_place_size(s: Seq<MemRange>, size: u32, data: Option<usize>) -> Option<
    Seq<MemRange>,
> {
    let i = find_fit(s, size);
    if i == -1 {
        None
    } else {
        let m = s[i];
        Some(
            s.take(i) + split_pieces(m, alloc_range(m.lower, (m.lower + size - 1) as u32, data))
                + s.skip(i + 1),
        )
    }
}

/// A request with at least one explicit bound is placed in the first pass.
pub open spec fn is_fixed(p: MemPosition) -> bool {
    p.lower is Some || p.upper is Some
}

/// The concrete span a fixed request asks for, with the missing bound
/// derived from the size; `None` when the derived bound leaves `u32`.
pub open spec fn spec_bounds(p: MemPosition) -> Option<(u32, u32)> {
    match (p.lower, p.upper) {
        (Some(l), Some(u)) => Some((l, u)),
        (Some(l), None) => if l + p.size - 1 <= u32::MAX {
            Some((l, (l + p.size - 1) as u32))
        } else {
            None
        },
        (None, Some(u)) => if p.size <= u + 1 {
            Some((((u + 1) - p.size) as u32, u))
        } else {
            None
        },
        (None, None) => None,
    }
}

/// First pass: place the fixed requests in input order, skipping the
/// size-only ones.
pub open spec fn spec_pass1(ps: Seq<MemPosition>, s: Seq<MemRange>) -> Option<Seq<MemRange>>
    decreases ps.len(),
{
    if ps.len() == 0 {
        Some(s)
    } else if is_fixed(ps[0]) {
        match spec_bounds(ps[0]) {
            None => None,
            Some(b) => match spec_place_fixed(s, b.0, b.1, ps[0].data) {
                None => None,
                Some(s2) => spec_pass1(ps.skip(1), s2),
            },
        }
    } else {
        spec_pass1(ps.skip(1), s)
    }
}

/// The size-only requests, in input order.
pub open spec fn arbitraries(ps: Seq<MemPosition>) -> Seq<MemPosition>
    decreases ps.len(),
{
    if ps.len() == 0 {
        Seq::empty()
    } else if is_fixed(ps[0]) {
        arbitraries(ps.skip(1))
    } else {
        seq![ps[0]] + arbitraries(ps.skip(1))
    }
}

/// Second pass: first-fit placement of the size-only requests.
pub open spec fn spec_pass2(ps: Seq<MemPosition>, s: Seq<MemRange>) -> Option<Seq<MemRange>>
    decreases ps.len(),
{
    if ps.len() == 0 {
        Some(s)
    } else {
        match spec_place_size(s, ps[0].size, ps[0].data) {
            None => None,
            Some(s2) => spec_pass2(ps.skip(1), s2),
        }
    }
}

/// The whole allocator: start from one free range `[min, max]`, place the
/// fixed requests, then the size-only ones.
pub open spec fn spec_first_fit(ps: Seq<MemPosition>, min: u32, max: u32) -> Option<Seq<MemRange>> {
    match spec_pass1(ps, seq![free_range(min, max)]) {
        None => None,
        Some(s1) => spec_pass2(arbitraries(ps), s1),
    }
}

/// Some allocated range of the list carries this data value.
pub open spec fn has_allocation(s: Seq<MemRange>, data: Option<usize>) -> bool {
    exists|m: MemRange|
        #![auto]
        s.contains(m) && m.status == MemRangeStatus::Allocated && m.data == data
}

/// Some request of the list carries this data value.
pub open spec fn data_from(ps: Seq<MemPosition>, data: Option<usize>) -> bool {
    exists|k: int| 0 <= k < ps.len() && (#[trigger] ps[k]).data == data
}

/// The ranges partition `[min, max]`: they are non-empty, start at `min`,
/// end at `max`, and are adjacent with no gap and no overlap.
pub open spec fn tiles(s: Seq<MemRange>, min: u32, max: u32) -> bool {
    &&& s.len() > 0
    &&& s[0].lower == min
    &&& s[s.len() - 1].upper == max
    &&& forall|i: int| 0 <= i < s.len() ==> (#[trigger] s[i]).wf()
    &&& forall|i: int, j: int|
        #![trigger s[i], s[j]]
        0 <= i < s.len() - 1 && j == i + 1 ==> s[i].upper + 1 == s[j].lower
}

/// The total number of bytes the ranges cover.
pub open spec fn sum_sizes(s: Seq<MemRange>) -> int
    decreases s.len(),
{
    if s.len() == 0 {
        0
    } else {
        sum_sizes(s.drop_last()) + s.last().spec_size()
    }
}

proof fn lemma_tiles_lower(s: Seq<MemRange>, min: u32, max: u32, i: int)
    requires
        tiles(s, min, max),
        0 <= i < s.len(),
    ensures
        min <= s[i].lower,
    decreases i,
{
    if i > 0 {
        lemma_tiles_lower(s, min, max, i - 1);
        assert(s[i - 1].upper + 1 == s[i].lower);
    }
}

proof fn lemma_tiles_upper(s: Seq<MemRange>, min: u32, max: u32, i: int)
    requires
        tiles(s, min, max),
        0 <= i < s.len(),
    ensures
        s[i].upper <= max,
    decreases s.len() - i,
{
    if i < s.len() - 1 {
        lemma_tiles_upper(s, min, max, i + 1);
        assert(s[i].upper + 1 == s[i + 1].lower);
    }
}

/// Every range of a tiling lies inside the window.
pub proof fn lemma_tiles_window(s: Seq<MemRange>, min: u32, max: u32)
    requires
        tiles(s, min, max),
    ensures
        forall|i: int| 0 <= i < s.len() ==> min <= (#[trigger] s[i]).lower && s[i].upper <= max,
{
    assert forall|i: int| 0 <= i < s.len() implies min <= (#[trigger] s[i]).lower && s[i].upper
        <= max by {
        lemma_tiles_lower(s, min, max, i);
        lemma_tiles_upper(s, min, max, i);
    }
}

/// A tiling of `[min, max]` covers exactly `max - min + 1` bytes.
pub proof fn lemma_tiles_sum(s: Seq<MemRange>, min: u32, max: u32)
    requires
        tiles(s, min, max),
    ensures
        sum_sizes(s) == max - min + 1,
    decreases s.len(),
{
    if s.len() == 1 {
        assert(sum_sizes(s.drop_last()) == 0);
    } else {
        let t = s.drop_last();
        let n = s.len();
        let mid = s[n - 2].upper;
        assert(forall|i: int| 0 <= i < t.len() ==> #[trigger] t[i] == s[i]);
        assert(t[t.len() - 1] == s[n - 2]);
        assert(s[n - 2].upper + 1 == s[n - 1].lower);
        assert forall|i: int, j: int|
            #![trigger t[i], t[j]]
            0 <= i < t.len() - 1 && j == i + 1 implies t[i].upper + 1 == t[j].lower by {
            assert(t[i] == s[i]);
            assert(t[j] == s[j]);
            assert(s[i].upper + 1 == s[j].lower);
        }
        assert(tiles(t, min, mid));
        lemma_tiles_sum(t, min, mid);
        assert(s.last() == s[n - 1]);
        assert(s.last().spec_size() == max - mid);
    }
}

/// The first index found by a linear left-to-right scan is exactly what
/// `find_cover` names: the element there covers, and no earlier one does.
pub proof fn lemma_find_cover(s: Seq<MemRange>, l: u32, u: u32)
    ensures
        find_cover(s, l, u) == -1 ==> forall|i: int|
            0 <= i < s.len() ==> !covers(#[trigger] s[i], l, u),
        find_cover(s, l, u) != -1 ==> {
            &&& 0 <= find_cover(s, l, u) < s.len()
            &&& covers(s[find_cover(s, l, u)], l, u)
            &&& forall|j: int| 0 <= j < find_cover(s, l, u) ==> !covers(#[trigger] s[j], l, u)
        },
    decreases s.len(),
{
    if s.len() == 0 {
    } else if covers(s[0], l, u) {
        assert(find_cover(s, l, u) == 0);
    } else {
        let t = s.skip(1);
        lemma_find_cover(t, l, u);
        assert(forall|i: int| 0 <= i < t.len() ==> #[trigger] t[i] == s[i + 1]);
        let rt = find_cover(t, l, u);
        if rt == -1 {
            assert(find_cover(s, l, u) == -1);
            assert forall|i: int| 0 <= i < s.len() implies !covers(#[trigger] s[i], l, u) by {
                if i >= 1 {
                    assert(s[i] == t[i - 1]);
                    assert(!covers(t[i - 1], l, u));
                }
            }
        } else {
            assert(find_cover(s, l, u) == rt + 1);
            assert(s[rt + 1] == t[rt]);
            assert forall|j: int| 0 <= j < rt + 1 implies !covers(#[trigger] s[j], l, u) by {
                if j >= 1 {
                    assert(s[j] == t[j - 1]);
                    assert(!covers(t[j - 1], l, u));
                }
            }
        }
    }
}

/// The same characterization for `find_fit`.
pub proof fn lemma_find_fit(s: Seq<MemRange>, size: u32)
    ensures
        find_fit(s, size) == -1 ==> forall|i: int|
            0 <= i < s.len() ==> !fits(#[trigger] s[i], size),
        find_fit(s, size) != -1 ==> {
            &&& 0 <= find_fit(s, size) < s.len()
            &&& fits(s[find_fit(s, size)], size)
            &&& forall|j: int| 0 <= j < find_fit(s, size) ==> !fits(#[trigger] s[j], size)
        },
    decreases s.len(),
{
    if s.len() == 0 {
    } else if fits(s[0], size) {
        assert(find_fit(s, size) == 0);
    } else {
        let t = s.skip(1);
        lemma_find_fit(t, size);
        assert(forall|i: int| 0 <= i < t.len() ==> #[trigger] t[i] == s[i + 1]);
        let rt = find_fit(t, size);
        if rt == -1 {
            assert(find_fit(s, size) == -1);
            assert forall|i: int| 0 <= i < s.len() implies !fits(#[trigger] s[i], size) by {
                if i >= 1 {
                    assert(s[i] == t[i - 1]);
                    assert(!fits(t[i - 1], size));
                }
            }
        } else {
            assert(find_fit(s, size) == rt + 1);
            assert(s[rt + 1] == t[rt]);
            assert forall|j: int| 0 <= j < rt + 1 implies !fits(#[trigger] s[j], size) by {
                if j >= 1 {
                    assert(s[j] == t[j - 1]);
                    assert(!fits(t[j - 1], size));
                }
            }
        }
    }
}

/// Splicing the pieces of a carved-up free range back into a tiling
/// yields a tiling again, and every range of the old list other than the
/// carved one is still there.
#[verifier::rlimit(100)]
pub proof fn lemma_splice_tiles(s: Seq<MemRange>, min: u32, max: u32, i: int, mid: MemRange)
    requires
        tiles(s, min, max),
        0 <= i < s.len(),
        mid.wf(),
        s[i].lower <= mid.lower,
        mid.upper <= s[i].upper,
    ensures
        tiles(s.take(i) + split_pieces(s[i], mid) + s.skip(i + 1), min, max),
{
    let pieces = split_pieces(s[i], mid);
    let r = s.take(i) + pieces + s.skip(i + 1);
    assert(s.take(i).len() == i);
    assert(s.skip(i + 1).len() == s.len() - i - 1);
    assert(1 <= pieces.len() <= 3);
    assert(pieces[0].lower == s[i].lower);
    assert(pieces[pieces.len() - 1].upper == s[i].upper);
    assert(forall|k: int| 0 <= k < pieces.len() ==> (#[trigger] pieces[k]).wf());
    assert(forall|k: int, k2: int|
        #![trigger pieces[k], pieces[k2]]
        0 <= k < pieces.len() - 1 && k2 == k + 1 ==> pieces[k].upper + 1 == pieces[k2].lower);
    assert(r.len() == s.len() - 1 + pieces.len());
    assert forall|j: int| 0 <= j < r.len() implies (#[trigger] r[j]).wf() by {
        if j < i {
            assert(r[j] == s[j]);
        } else if j < i + pieces.len() {
            assert(r[j] == pieces[j - i]);
        } else {
            assert(r[j] == s[j - pieces.len() + 1]);
        }
    }
    assert forall|j: int, j2: int|
        #![trigger r[j], r[j2]]
        0 <= j < r.len() - 1 && j2 == j + 1 implies r[j].upper + 1 == r[j2].lower by {
        if j < i - 1 {
            assert(r[j] == s[j] && r[j2] == s[j + 1]);
            assert(s[j].upper + 1 == s[j + 1].lower);
        } else if j == i - 1 {
            assert(r[j] == s[j] && r[j2] == pieces[0]);
            assert(s[j].upper + 1 == s[j + 1].lower);
        } else if j < i + pieces.len() - 1 {
            assert(r[j] == pieces[j - i] && r[j2] == pieces[j - i + 1]);
            assert(pieces[j - i].upper + 1 == pieces[j - i + 1].lower);
        } else if j == i + pieces.len() - 1 {
            assert(r[j] == pieces[pieces.len() - 1] && r[j2] == s[i + 1]);
            assert(s[i].upper + 1 == s[i + 1].lower);
        } else {
            assert(r[j] == s[j - pieces.len() + 1] && r[j2] == s[j - pieces.len() + 2]);
            assert(s[j - pieces.len() + 1].upper + 1 == s[j - pieces.len() + 2].lower);
        }
    }
    if i == 0 {
        assert(r[0] == pieces[0]);
    } else {
        assert(r[0] == s[0]);
    }
    if i == s.len() - 1 {
        assert(r[r.len() - 1] == pieces[pieces.len() - 1]);
    } else {
        assert(r[r.len() - 1] == s[s.len() - 1]);
    }
}

/// The carved-out range itself is in the spliced list, and so is every
/// allocated range of the old list.
pub proof fn lemma_splice_keeps(s: Seq<MemRange>, i: int, mid: MemRange)
    requires
        0 <= i < s.len(),
        s[i].status == MemRangeStatus::Free,
    ensures
        (s.take(i) + split_pieces(s[i], mid) + s.skip(i + 1)).contains(mid),
        forall|m: MemRange|
            s.contains(m) && m.status == MemRangeStatus::Allocated ==> (s.take(i) + split_pieces(
                s[i],
                mid,
            ) + s.skip(i + 1)).contains(m),
{
    let pieces = split_pieces(s[i], mid);
    let r = s.take(i) + pieces + s.skip(i + 1);
    let pre_len = split_pre_len(s[i], mid);
    assert(pieces[pre_len] == mid);
    assert(r[i + pre_len] == mid);
    assert(r.contains(mid));
    assert forall|m: MemRange|
        s.contains(m) && m.status == MemRangeStatus::Allocated implies r.contains(m) by {
        let j = choose|j: int| 0 <= j < s.len() && s[j] == m;
        if j < i {
            assert(r[j] == m);
        } else {
            assert(j > i);
            assert(r[j + pieces.len() - 1] == m);
        }
    }
}

/// First-fit determinism: a size-only request against a given free-list
/// state succeeds exactly when some free range is large enough, and is
/// then satisfied by the first such range in list order, allocated from
/// its low end.  Since the placement is a function of the list and the
/// request alone, running the same input twice places it identically.
pub proof fn lemma_first_fit_rule(s: Seq<MemRange>, size: u32, data: Option<usize>)
    requires
        size >= 1,
    ensures
        (spec_place_size(s, size, data) is Some) <==> exists|i: int|
            0 <= i < s.len() && fits(#[trigger] s[i], size),
        spec_place_size(s, size, data) matches Some(s2) ==> {
            let i = find_fit(s, size);
            &&& 0 <= i < s.len()
            &&& fits(s[i], size)
            &&& forall|j: int| 0 <= j < i ==> !fits(#[trigger] s[j], size)
            &&& s2.contains(alloc_range(s[i].lower, (s[i].lower + size - 1) as u32, data))
        },
{
    lemma_find_fit(s, size);
    let i = find_fit(s, size);
    if i != -1 {
        lemma_splice_keeps(s, i, alloc_range(s[i].lower, (s[i].lower + size - 1) as u32, data));
    }
}

/// Placing one more request changes no allocated range already present.
proof fn lemma_pass2_keeps(ps: Seq<MemPosition>, s: Seq<MemRange>, m: MemRange)
    requires
        spec_pass2(ps, s) is Some,
        s.contains(m),
        m.status == MemRangeStatus::Allocated,
    ensures
        spec_pass2(ps, s).unwrap().contains(m),
    decreases ps.len(),
{
    if ps.len() > 0 {
        let i = find_fit(s, ps[0].size);
        lemma_find_fit(s, ps[0].size);
        let mid = alloc_range(s[i].lower, (s[i].lower + ps[0].size - 1) as u32, ps[0].data);
        lemma_splice_keeps(s, i, mid);
        let s2 = spec_place_size(s, ps[0].size, ps[0].data).unwrap();
        lemma_pass2_keeps(ps.skip(1), s2, m);
    }
}

proof fn lemma_pass1_keeps(ps: Seq<MemPosition>, s: Seq<MemRange>, m: MemRange)
    requires
        spec_pass1(ps, s) is Some,
        s.contains(m),
        m.status == MemRangeStatus::Allocated,
    ensures
        spec_pass1(ps, s).unwrap().contains(m),
    decreases ps.len(),
{
    if ps.len() > 0 {
        if is_fixed(ps[0]) {
            let b = spec_bounds(ps[0]).unwrap();
            let i = find_cover(s, b.0, b.1);
            lemma_find_cover(s, b.0, b.1);
            lemma_splice_keeps(s, i, alloc_range(b.0, b.1, ps[0].data));
            let s2 = spec_place_fixed(s, b.0, b.1, ps[0].data).unwrap();
            lemma_pass1_keeps(ps.skip(1), s2, m);
        } else {
            lemma_pass1_keeps(ps.skip(1), s, m);
        }
    }
}

/// A request with both bounds explicit ends up allocated at exactly that
/// span after the first pass.
proof fn lemma_pass1_fixed(ps: Seq<MemPosition>, s: Seq<MemRange>, k: int)
    requires
        spec_pass1(ps, s) is Some,
        0 <= k < ps.len(),
        ps[k].lower is Some,
        ps[k].upper is Some,
    ensures
        spec_pass1(ps, s).unwrap().contains(
            alloc_range(ps[k].lower.unwrap(), ps[k].upper.unwrap(), ps[k].data),
        ),
    decreases ps.len(),
{
    if k == 0 {
        let l = ps[0].lower.unwrap();
        let u = ps[0].upper.unwrap();
        let i = find_cover(s, l, u);
        lemma_find_cover(s, l, u);
        lemma_splice_keeps(s, i, alloc_range(l, u, ps[0].data));
        let s2 = spec_place_fixed(s, l, u, ps[0].data).unwrap();
        lemma_pass1_keeps(ps.skip(1), s2, alloc_range(l, u, ps[0].data));
    } else {
        if is_fixed(ps[0]) {
            let b = spec_bounds(ps[0]).unwrap();
            let s2 = spec_place_fixed(s, b.0, b.1, ps[0].data).unwrap();
            lemma_pass1_fixed(ps.skip(1), s2, k - 1);
            assert(ps.skip(1)[k - 1] == ps[k]);
        } else {
            lemma_pass1_fixed(ps.skip(1), s, k - 1);
            assert(ps.skip(1)[k - 1] == ps[k]);
        }
    }
}

/// Any fixed request, however its span was given, ends up allocated at
/// exactly its derived span after the first pass.
proof fn lemma_pass1_fixed_general(ps: Seq<MemPosition>, s: Seq<MemRange>, k: int)
    requires
        spec_pass1(ps, s) is Some,
        0 <= k < ps.len(),
        is_fixed(ps[k]),
    ensures
        spec_bounds(ps[k]) is Some,
        spec_pass1(ps, s).unwrap().contains(
            alloc_range(
                spec_bounds(ps[k]).unwrap().0,
                spec_bounds(ps[k]).unwrap().1,
                ps[k].data,
            ),
        ),
    decreases ps.len(),
{
    if k == 0 {
        let b = spec_bounds(ps[0]).unwrap();
        let i = find_cover(s, b.0, b.1);
        lemma_find_cover(s, b.0, b.1);
        lemma_splice_keeps(s, i, alloc_range(b.0, b.1, ps[0].data));
        let s2 = spec_place_fixed(s, b.0, b.1, ps[0].data).unwrap();
        lemma_pass1_keeps(ps.skip(1), s2, alloc_range(b.0, b.1, ps[0].data));
    } else {
        if is_fixed(ps[0]) {
            let b = spec_bounds(ps[0]).unwrap();
            let s2 = spec_place_fixed(s, b.0, b.1, ps[0].data).unwrap();
            lemma_pass1_fixed_general(ps.skip(1), s2, k - 1);
            assert(ps.skip(1)[k - 1] == ps[k]);
        } else {
            lemma_pass1_fixed_general(ps.skip(1), s, k - 1);
            assert(ps.skip(1)[k - 1] == ps[k]);
        }
    }
}

/// Every size-only request ends up allocated somewhere, carrying its
/// data and spanning exactly its size.
proof fn lemma_pass2_each(ps: Seq<MemPosition>, s: Seq<MemRange>, k: int)
    requires
        spec_pass2(ps, s) is Some,
        0 <= k < ps.len(),
    ensures
        exists|lo: u32| #[trigger]
            spec_pass2(ps, s).unwrap().contains(
                alloc_range(lo, (lo + ps[k].size - 1) as u32, ps[k].data),
            ),
    decreases ps.len(),
{
    let i = find_fit(s, ps[0].size);
    lemma_find_fit(s, ps[0].size);
    let m = s[i];
    let mid = alloc_range(m.lower, (m.lower + ps[0].size - 1) as u32, ps[0].data);
    let s2 = spec_place_size(s, ps[0].size, ps[0].data).unwrap();
    if k == 0 {
        lemma_splice_keeps(s, i, mid);
        lemma_pass2_keeps(ps.skip(1), s2, mid);
        assert(spec_pass2(ps, s).unwrap().contains(
            alloc_range(m.lower, (m.lower + ps[0].size - 1) as u32, ps[0].data),
        ));
    } else {
        lemma_pass2_each(ps.skip(1), s2, k - 1);
        assert(ps.skip(1)[k - 1] == ps[k]);
    }
}

/// A size-only request appears among the second pass's inputs.
proof fn lemma_arbs_membership(ps: Seq<MemPosition>, k: int)
    requires
        0 <= k < ps.len(),
        !is_fixed(ps[k]),
    ensures
        exists|j: int| 0 <= j < arbitraries(ps).len() && arbitraries(ps)[j] == ps[k],
    decreases ps.len(),
{
    if k == 0 {
        assert(arbitraries(ps)[0] == ps[0]);
    } else {
        assert(ps.skip(1)[k - 1] == ps[k]);
        lemma_arbs_membership(ps.skip(1), k - 1);
        let j = choose|j: int|
            0 <= j < arbitraries(ps.skip(1)).len() && arbitraries(ps.skip(1))[j] == ps.skip(1)[k
                - 1];
        if is_fixed(ps[0]) {
            assert(arbitraries(ps)[j] == ps[k]);
        } else {
            assert(arbitraries(ps)[j + 1] == ps[k]);
        }
    }
}

/// Splicing introduces no data value but the carved range's own.
proof fn lemma_splice_datas(s: Seq<MemRange>, i: int, mid: MemRange, m: MemRange)
    requires
        0 <= i < s.len(),
        (s.take(i) + split_pieces(s[i], mid) + s.skip(i + 1)).contains(m),
    ensures
        m == mid || s.contains(m) || m.data is None,
{
    let r = s.take(i) + split_pieces(s[i], mid) + s.skip(i + 1);
    let j = choose|j: int| 0 <= j < r.len() && r[j] == m;
    let pieces = split_pieces(s[i], mid);
    if j < i {
        assert(r[j] == s[j]);
    } else if j < i + pieces.len() {
        assert(r[j] == pieces[j - i]);
    } else {
        assert(r[j] == s[j - pieces.len() + 1]);
    }
}

/// The first pass introduces no data value that no request carries.
proof fn lemma_pass1_datas(ps: Seq<MemPosition>, s: Seq<MemRange>, m: MemRange)
    requires
        spec_pass1(ps, s) is Some,
        spec_pass1(ps, s).unwrap().contains(m),
        m.data is Some,
    ensures
        s.contains(m) || exists|k: int| 0 <= k < ps.len() && (#[trigger] ps[k]).data == m.data,
    decreases ps.len(),
{
    if ps.len() == 0 {
    } else if is_fixed(ps[0]) {
        let b = spec_bounds(ps[0]).unwrap();
        let i = find_cover(s, b.0, b.1);
        lemma_find_cover(s, b.0, b.1);
        let s2 = spec_place_fixed(s, b.0, b.1, ps[0].data).unwrap();
        lemma_pass1_datas(ps.skip(1), s2, m);
        if s2.contains(m) {
            lemma_splice_datas(s, i, alloc_range(b.0, b.1, ps[0].data), m);
            if m == alloc_range(b.0, b.1, ps[0].data) {
                assert(ps[0].data == m.data);
            }
        } else {
            let k = choose|k: int|
                0 <= k < ps.skip(1).len() && (#[trigger] ps.skip(1)[k]).data == m.data;
            assert(ps[k + 1].data == m.data);
        }
    } else {
        lemma_pass1_datas(ps.skip(1), s, m);
        if !s.contains(m) {
            let k = choose|k: int|
                0 <= k < ps.skip(1).len() && (#[trigger] ps.skip(1)[k]).data == m.data;
            assert(ps[k + 1].data == m.data);
        }
    }
}

/// The second pass introduces no data value that no request carries.
proof fn lemma_pass2_datas(ps: Seq<MemPosition>, s: Seq<MemRange>, m: MemRange)
    requires
        spec_pass2(ps, s) is Some,
        spec_pass2(ps, s).unwrap().contains(m),
        m.data is Some,
    ensures
        s.contains(m) || exists|k: int| 0 <= k < ps.len() && (#[trigger] ps[k]).data == m.data,
    decreases ps.len(),
{
    if ps.len() == 0 {
    } else {
        let i = find_fit(s, ps[0].size);
        lemma_find_fit(s, ps[0].size);
        let mid = alloc_range(s[i].lower, (s[i].lower + ps[0].size - 1) as u32, ps[0].data);
        let s2 = spec_place_size(s, ps[0].size, ps[0].data).unwrap();
        lemma_pass2_datas(ps.skip(1), s2, m);
        if s2.contains(m) {
            lemma_splice_datas(s, i, mid, m);
            if m == mid {
                assert(ps[0].data == m.data);
            }
        } else {
            let k = choose|k: int|
                0 <= k < ps.skip(1).len() && (#[trigger] ps.skip(1)[k]).data == m.data;
            assert(ps[k + 1].data == m.data);
        }
    }
}

/// Every element of the second pass's input is one of the requests.
proof fn lemma_arbs_source(ps: Seq<MemPosition>, j: int)
    requires
        0 <= j < arbitraries(ps).len(),
    ensures
        exists|k: int| 0 <= k < ps.len() && #[trigger] ps[k] == arbitraries(ps)[j],
    decreases ps.len(),
{
    if ps.len() == 0 {
    } else if is_fixed(ps[0]) {
        lemma_arbs_source(ps.skip(1), j);
        let k = choose|k: int|
            0 <= k < ps.skip(1).len() && #[trigger] ps.skip(1)[k] == arbitraries(ps.skip(1))[j];
        assert(ps[k + 1] == arbitraries(ps)[j]);
    } else {
        if j == 0 {
            assert(ps[0] == arbitraries(ps)[0]);
        } else {
            lemma_arbs_source(ps.skip(1), j - 1);
            let k = choose|k: int|
                0 <= k < ps.skip(1).len() && #[trigger] ps.skip(1)[k] == arbitraries(ps.skip(1))[j
                    - 1];
            assert(ps[k + 1] == arbitraries(ps)[j]);
        }
    }
}

/// Appending a request extends the size-only tail by that request, when
/// it is size-only.
proof fn lemma_arbs_push(s: Seq<MemPosition>, p: MemPosition)
    ensures
        arbitraries(s.push(p)) == arbitraries(s) + if is_fixed(p) {
            Seq::<MemPosition>::empty()
        } else {
            seq![p]
        },
    decreases s.len(),
{
    let tail: Seq<MemPosition> = if is_fixed(p) {
        Seq::empty()
    } else {
        seq![p]
    };
    if s.len() == 0 {
        assert(s.push(p)[0] == p);
        assert(s.push(p).skip(1) =~= s);
        if is_fixed(p) {
            assert(arbitraries(s.push(p)) == arbitraries(s));
            assert(arbitraries(s.push(p)) =~= arbitraries(s) + tail);
        } else {
            assert(arbitraries(s.push(p)) == seq![p] + arbitraries(s));
            assert(arbitraries(s) =~= Seq::<MemPosition>::empty());
            assert(arbitraries(s.push(p)) =~= arbitraries(s) + tail);
        }
    } else {
        assert(s.push(p)[0] == s[0]);
        assert(s.push(p).skip(1) =~= s.skip(1).push(p));
        lemma_arbs_push(s.skip(1), p);
        if is_fixed(s[0]) {
            assert(arbitraries(s.push(p)) == arbitraries(s.skip(1).push(p)));
        } else {
            assert(arbitraries(s.push(p)) == seq![s[0]] + arbitraries(s.skip(1).push(p)));
            assert(seq![s[0]] + (arbitraries(s.skip(1)) + tail) =~= (seq![s[0]] + arbitraries(
                s.skip(1),
            )) + tail);
        }
    }
}

/// Copy a range list, for error reporting.
fn clone_ranges(v: &Vec<MemRange>) -> (r: Vec<MemRange>)
    ensures
        r@ == v@,
{
    let mut r: Vec<MemRange> = Vec::new();
    let mut i: usize = 0;
    while i < v.len()
        invariant
            i <= v@.len(),
            r@ == v@.take(i as int),
        decreases v@.len() - i,
    {
        r.push(v[i]);
        proof {
            assert(r@ =~= v@.take(i as int + 1));
        }
        i += 1;
    }
    proof {
        assert(v@.take(v@.len() as int) =~= v@);
    }
    r
}

/// The first-come-first-served, first-fit allocator.  Fixed requests are
/// placed first, in input order; size-only requests follow, each taking
/// the first free range large enough.
pub struct Allocator;

impl Allocator {
    #[verifier::loop_isolation(false)]
    fn first_fit_insert(position: MemPosition, memory: &mut Vec<MemRange>) -> (r: Result<
        (),
        AllocError,
    >)
        requires
            position.wf(),
            position.lower is Some,
            position.upper is Some,
        ensures
            spec_place_fixed(
                old(memory)@,
                position.lower.unwrap(),
                position.upper.unwrap(),
                position.data,
            ) matches Some(s2) ==> r is Ok && final(memory)@ == s2,
            spec_place_fixed(
                old(memory)@,
                position.lower.unwrap(),
                position.upper.unwrap(),
                position.data,
            ) is None ==> {
                &&& final(memory)@ == old(memory)@
                &&& r matches Err(AllocError::PlacementFixed { lower, upper, ranges })
                    && lower == position.lower.unwrap() && upper == position.upper.unwrap()
                    && ranges@ == old(memory)@
            },
    {
        let l = position.lower.unwrap();
        let u = position.upper.unwrap();
        let ghost s0 = memory@;
        let n = memory.len();
        let mut idx: usize = 0;
        while idx < n
            invariant
                idx <= n,
                memory@ == s0,
                forall|j: int| 0 <= j < idx ==> !covers(s0[j], l, u),
            decreases n - idx,
        {
            let m = memory[idx];
            if m.lower <= l && u <= m.upper && m.get_status() == MemRangeStatus::Free {
                proof {
                    lemma_find_cover(s0, l, u);
                    assert(find_cover(s0, l, u) == idx);
                }
                let mid = MemRange::new(l, u, MemRangeStatus::Allocated, position.data);
                let pieces = m.insert(mid);
                memory.remove(idx);
                if let Some(x) = pieces.2 {
                    memory.insert(idx, x);
                }
                memory.insert(idx, pieces.1);
                if let Some(x) = pieces.0 {
                    memory.insert(idx, x);
                }
                proof {
                    assert(memory@ =~= s0.take(idx as int) + split_pieces(s0[idx as int], mid)
                        + s0.skip(idx as int + 1));
                }
                return Ok(());
            }
            idx += 1;
        }
        proof {
            lemma_find_cover(s0, l, u);
        }
        let snapshot = clone_ranges(memory);
        Err(AllocError::PlacementFixed { lower: l, upper: u, ranges: snapshot })
    }

    #[verifier::loop_isolation(false)]
    fn first_fit_insert_arbitray(position: MemPosition, memory: &mut Vec<MemRange>) -> (r: Result<
        (),
        AllocError,
    >)
        requires
            position.wf(),
            forall|j: int|
                0 <= j < old(memory)@.len() ==> (#[trigger] old(memory)@[j]).wf() && old(
                    memory,
                )@[j].spec_size() <= u32::MAX,
        ensures
            spec_place_size(old(memory)@, position.size, position.data) matches Some(s2) ==> r
                is Ok && final(memory)@ == s2,
            spec_place_size(old(memory)@, position.size, position.data) is None ==> {
                &&& final(memory)@ == old(memory)@
                &&& r matches Err(AllocError::PlacementSize { size, ranges }) && size
                    == position.size && ranges@ == old(memory)@
            },
    {
        let ghost s0 = memory@;
        let n = memory.len();
        let mut idx: usize = 0;
        while idx < n
            invariant
                idx <= n,
                memory@ == s0,
                forall|j: int| 0 <= j < idx ==> !fits(s0[j], position.size),
            decreases n - idx,
        {
            let m = memory[idx];
            if m.get_status() == MemRangeStatus::Free && position.size <= m.size_bytes() {
                proof {
                    lemma_find_fit(s0, position.size);
                    assert(find_fit(s0, position.size) == idx);
                }
                let mid = MemRange::new(
                    m.lower,
                    m.lower + (position.size - 1),
                    MemRangeStatus::Allocated,
                    position.data,
                );
                let pieces = m.insert(mid);
                memory.remove(idx);
                if let Some(x) = pieces.2 {
                    memory.insert(idx, x);
                }
                memory.insert(idx, pieces.1);
                if let Some(x) = pieces.0 {
                    memory.insert(idx, x);
                }
                proof {
                    assert(memory@ =~= s0.take(idx as int) + split_pieces(s0[idx as int], mid)
                        + s0.skip(idx as int + 1));
                }
                return Ok(());
            }
            idx += 1;
        }
        proof {
            lemma_find_fit(s0, position.size);
        }
        let snapshot = clone_ranges(memory);
        Err(AllocError::PlacementSize { size: position.size, ranges: snapshot })
    }

    /// Partition the window `[min, max]` among the requests.  On success
    /// the result is the unique list `spec_first_fit` describes: it tiles
    /// the window completely, every request with both bounds explicit sits
    /// exactly at its requested span, and each size-only request occupies
    /// the low end of the first free range that could hold it.
    #[verifier::loop_isolation(false)]
    #[verifier::rlimit(60)]
    pub fn first_fit(positions: &Vec<MemPosition>, min: u32, max: u32) -> (r: Result<
        Vec<MemRange>,
        AllocError,
    >)
        requires
            min <= max,
            max - min < u32::MAX,
            forall|i: int| 0 <= i < positions@.len() ==> (#[trigger] positions@[i]).wf(),
        ensures
            r matches Ok(v) ==> Some(v@) == spec_first_fit(positions@, min, max),
            r is Err <==> spec_first_fit(positions@, min, max) is None,
            r matches Ok(v) ==> tiles(v@, min, max),
            r matches Ok(v) ==> sum_sizes(v@) == max - min + 1,
            r matches Ok(v) ==> forall|k: int|
                0 <= k < positions@.len() && (#[trigger] positions@[k]).lower is Some
                    && positions@[k].upper is Some ==> v@.contains(
                    alloc_range(
                        positions@[k].lower.unwrap(),
                        positions@[k].upper.unwrap(),
                        positions@[k].data,
                    ),
                ),
            r matches Ok(v) ==> forall|k: int|
                0 <= k < positions@.len() ==> has_allocation(v@, (#[trigger] positions@[k]).data),
            r matches Ok(v) ==> forall|m: MemRange|
                #![auto]
                v@.contains(m) && m.data is Some ==> data_from(positions@, m.data),
            r matches Err(AllocError::PlacementFixed { lower, upper, ranges }) ==> {
                &&& tiles(ranges@, min, max)
                &&& (find_cover(ranges@, lower, upper) == -1 || upper == u32::MAX || lower == 0)
            },
            r matches Err(AllocError::PlacementSize { size, ranges }) ==> {
                &&& tiles(ranges@, min, max)
                &&& find_fit(ranges@, size) == -1
            },
    {
        let ghost ps = positions@;
        let mut memory: Vec<MemRange> = Vec::new();
        memory.push(MemRange::new(min, max, MemRangeStatus::Free, None));
        let ghost init = memory@;
        proof {
            assert(init =~= seq![free_range(min, max)]);
        }
        let mut arbitraries_vec: Vec<MemPosition> = Vec::new();
        let n = positions.len();
        proof {
            assert(ps.skip(0) =~= ps);
            assert(ps.take(0) =~= Seq::<MemPosition>::empty());
        }
        let mut i: usize = 0;
        while i < n
            invariant
                i <= n,
                tiles(memory@, min, max),
                spec_pass1(ps.skip(i as int), memory@) == spec_pass1(ps, init),
                arbitraries_vec@ == arbitraries(ps.take(i as int)),
                forall|k: int|
                    0 <= k < arbitraries_vec@.len() ==> (#[trigger] arbitraries_vec@[k]).wf(),
            decreases n - i,
        {
            let p = positions[i];
            proof {
                assert(ps.skip(i as int)[0] == ps[i as int]);
                assert(ps.skip(i as int).skip(1) =~= ps.skip(i as int + 1));
                assert(ps.take(i as int + 1) =~= ps.take(i as int).push(p));
                lemma_arbs_push(ps.take(i as int), p);
            }
            if p.lower.is_some() || p.upper.is_some() {
                let full: MemPosition = if p.lower.is_some() && p.upper.is_some() {
                    p
                } else if p.lower.is_some() {
                    let l = p.lower.unwrap();
                    if p.size - 1 > u32::MAX - l {
                        // The derived upper bound leaves the address space:
                        // nothing can hold this request.
                        return Err(
                            AllocError::PlacementFixed {
                                lower: l,
                                upper: u32::MAX,
                                ranges: clone_ranges(&memory),
                            },
                        );
                    }
                    MemPosition::new(Some(l), Some(l + (p.size - 1)), p.size, p.data)
                } else {
                    let u = p.upper.unwrap();
                    if p.size - 1 > u {
                        return Err(
                            AllocError::PlacementFixed {
                                lower: 0,
                                upper: u,
                                ranges: clone_ranges(&memory),
                            },
                        );
                    }
                    MemPosition::new(Some(u - (p.size - 1)), Some(u), p.size, p.data)
                };
                proof {
                    assert(spec_bounds(ps[i as int]) == Some(
                        (full.lower.unwrap(), full.upper.unwrap()),
                    ));
                }
                let ghost before = memory@;
                let res = Allocator::first_fit_insert(full, &mut memory);
                if let Err(e) = res {
                    return Err(e);
                }
                proof {
                    let l = full.lower.unwrap();
                    let u = full.upper.unwrap();
                    let ci = find_cover(before, l, u);
                    lemma_find_cover(before, l, u);
                    lemma_splice_tiles(before, min, max, ci, alloc_range(l, u, full.data));
                }
            } else {
                arbitraries_vec.push(p);
            }
            i += 1;
        }
        proof {
            assert(ps.skip(n as int) =~= Seq::<MemPosition>::empty());
            assert(ps.take(n as int) =~= ps);
        }
        let ghost s1 = memory@;
        let ghost arbs = arbitraries_vec@;
        let an = arbitraries_vec.len();
        proof {
            assert(arbs.skip(0) =~= arbs);
        }
        let mut j: usize = 0;
        while j < an
            invariant
                j <= an,
                an == arbs.len(),
                arbitraries_vec@ == arbs,
                tiles(memory@, min, max),
                spec_pass2(arbs.skip(j as int), memory@) == spec_pass2(arbs, s1),
                forall|k: int| 0 <= k < arbs.len() ==> (#[trigger] arbs[k]).wf(),
            decreases an - j,
        {
            let p = arbitraries_vec[j];
            proof {
                assert(arbs.skip(j as int)[0] == arbs[j as int]);
                assert(arbs.skip(j as int).skip(1) =~= arbs.skip(j as int + 1));
                lemma_tiles_window(memory@, min, max);
            }
            let ghost before = memory@;
            let res = Allocator::first_fit_insert_arbitray(p, &mut memory);
            if let Err(e) = res {
                return Err(e);
            }
            proof {
                let fi = find_fit(before, p.size);
                lemma_find_fit(before, p.size);
                let m = before[fi];
                assert(fits(m, p.size));
                assert(m.lower + p.size - 1 <= m.upper);
                lemma_splice_tiles(
                    before,
                    min,
                    max,
                    fi,
                    alloc_range(m.lower, (m.lower + p.size - 1) as u32, p.data),
                );
            }
            j += 1;
        }
        proof {
            assert(arbs.skip(an as int) =~= Seq::<MemPosition>::empty());
            lemma_tiles_sum(memory@, min, max);
            assert(Some(memory@) == spec_first_fit(ps, min, max));
            assert forall|k: int|
                0 <= k < ps.len() && (#[trigger] ps[k]).lower is Some && ps[k].upper
                    is Some implies memory@.contains(
                alloc_range(ps[k].lower.unwrap(), ps[k].upper.unwrap(), ps[k].data),
            ) by {
                lemma_pass1_fixed(ps, init, k);
                lemma_pass2_keeps(
                    arbitraries(ps),
                    s1,
                    alloc_range(ps[k].lower.unwrap(), ps[k].upper.unwrap(), ps[k].data),
                );
            }
            assert forall|k: int| 0 <= k < positions@.len() implies has_allocation(
                memory@,
                (#[trigger] positions@[k]).data,
            ) by {
                if is_fixed(ps[k]) {
                    lemma_pass1_fixed_general(ps, init, k);
                    let b = spec_bounds(ps[k]).unwrap();
                    lemma_pass2_keeps(arbitraries(ps), s1, alloc_range(b.0, b.1, ps[k].data));
                    assert(memory@.contains(alloc_range(b.0, b.1, ps[k].data)));
                } else {
                    lemma_arbs_membership(ps, k);
                    let j = choose|j: int|
                        0 <= j < arbitraries(ps).len() && arbitraries(ps)[j] == ps[k];
                    lemma_pass2_each(arbitraries(ps), s1, j);
                    let lo = choose|lo: u32| #[trigger]
                        spec_pass2(arbitraries(ps), s1).unwrap().contains(
                            alloc_range(
                                lo,
                                (lo + arbitraries(ps)[j].size - 1) as u32,
                                arbitraries(ps)[j].data,
                            ),
                        );
                    assert(memory@.contains(
                        alloc_range(lo, (lo + ps[k].size - 1) as u32, ps[k].data),
                    ));
                }
            }
            assert forall|m: MemRange|
                #![auto]
                memory@.contains(m) && m.data is Some implies data_from(ps, m.data) by {
                lemma_pass2_datas(arbitraries(ps), s1, m);
                if s1.contains(m) {
                    lemma_pass1_datas(ps, init, m);
                    if init.contains(m) {
                        let j = choose|j: int| 0 <= j < init.len() && init[j] == m;
                        assert(init[0].data is None);
                        assert(false);
                    }
                } else {
                    let j = choose|j: int|
                        0 <= j < arbitraries(ps).len() && (#[trigger] arbitraries(ps)[j]).data
                            == m.data;
                    lemma_arbs_source(ps, j);
                }
            }
        }
        Ok(memory)
    }
}

} // verus!
