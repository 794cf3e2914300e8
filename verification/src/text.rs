//! Text sizes and ranges measured in UTF-8 bytes.
//!
//! A `TextSize` is an offset or a length that fits in a `u32`; a `TextRange`
//! is a half-open interval `start..end` of such offsets with `start <= end`.
use vstd::prelude::*;

verus! {

/// A measure of text length, also used as an offset into text.
#[derive(Clone, Copy, Debug, PartialEq, Eq, Structural, Default)]
pub struct TextSize {
    raw: u32,
}

impl View for TextSize {
    type V = nat;

    closed spec fn view(&self) -> nat {
        self.raw as nat
    }
}

impl TextSize {
    /// Creates a size from a raw `u32`.
    pub fn new(raw: u32) -> (r: TextSize)
        ensures
            r@ == raw,
    {
        TextSize { raw }
    }

    /// Returns the raw `u32` value.
    pub fn to_u32(self) -> (r: u32)
        ensures
            r == self@,
    {
        self.raw
    }

    /// Checked addition: `None` when the sum does not fit in a `u32`.
    pub fn checked_add(self, rhs: TextSize) -> (r: Option<TextSize>)
        ensures
            self@ + rhs@ <= u32::MAX ==> (r matches Some(s) && s@ == self@ + rhs@),
            self@ + rhs@ > u32::MAX ==> r is None,
    {
        match self.raw.checked_add(rhs.raw) {
            Some(raw) => Some(TextSize { raw }),
            None => None,
        }
    }

    /// Checked subtraction: `None` when `rhs` is larger than `self`.
    pub fn checked_sub(self, rhs: TextSize) -> (r: Option<TextSize>)
        ensures
            rhs@ <= self@ ==> (r matches Some(s) && s@ == self@ - rhs@),
            rhs@ > self@ ==> r is None,
    {
        match self.raw.checked_sub(rhs.raw) {
            Some(raw) => Some(TextSize { raw }),
            None => None,
        }
    }

    /// Sizes are equal exactly when their values are.
    pub proof fn lemma_view_injective(self, other: TextSize)
        ensures
            self@ == other@ <==> self == other,
    {
    }

    /// Every size fits in a `u32`.
    pub proof fn lemma_view_bounded(self)
        ensures
            self@ <= u32::MAX,
    {
    }
}

/// A half-open range of text offsets, `start..end`, with `start <= end`.
#[derive(Clone, Copy, Debug, PartialEq, Eq, Structural, Default)]
pub struct TextRange {
    start: TextSize,
    end: TextSize,
}

impl TextRange {
    #[verifier::type_invariant]
    spec fn ordered(self) -> bool {
        self.start.raw <= self.end.raw
    }

    /// The first offset of the range.
    pub closed spec fn start_spec(self) -> nat {
        self.start@
    }

    /// The offset just past the range.
    pub closed spec fn end_spec(self) -> nat {
        self.end@
    }

    /// Creates the range `start..end`; `start` must not be past `end`.
    pub fn new(start: TextSize, end: TextSize) -> (r: TextRange)
        requires
            start@ <= end@,
        ensures
            r.start_spec() == start@,
            r.end_spec() == end@,
    {
        TextRange { start, end }
    }

    /// Creates the range of length `len` that begins at `offset`.
    pub fn at(offset: TextSize, len: TextSize) -> (r: TextRange)
        requires
            offset@ + len@ <= u32::MAX,
        ensures
            r.start_spec() == offset@,
            r.end_spec() == offset@ + len@,
    {
        TextRange { start: offset, end: TextSize { raw: offset.raw + len.raw } }
    }

    /// The first offset of the range.
    pub fn start(self) -> (r: TextSize)
        ensures
            r@ == self.start_spec(),
            r@ <= self.end_spec(),
    {
        proof {
            use_type_invariant(&self);
        }
        self.start
    }

    /// The offset just past the range.
    pub fn end(self) -> (r: TextSize)
        ensures
            r@ == self.end_spec(),
            self.start_spec() <= r@,
    {
        proof {
            use_type_invariant(&self);
        }
        self.end
    }

    /// The length of the range.
    pub fn len(self) -> (r: TextSize)
        ensures
            r@ == self.end_spec() - self.start_spec(),
    {
        proof {
            use_type_invariant(&self);
        }
        TextSize { raw: self.end.raw - self.start.raw }
    }

    /// Whether the range is empty.
    pub fn is_empty(self) -> (r: bool)
        ensures
            r == (self.start_spec() == self.end_spec()),
    {
        self.start.raw == self.end.raw
    }

    /// Whether `offset` lies in `start..end`.
    pub fn contains(self, offset: TextSize) -> (r: bool)
        ensures
            r == (self.start_spec() <= offset@ && offset@ < self.end_spec()),
    {
        self.start.raw <= offset.raw && offset.raw < self.end.raw
    }

    /// Whether `offset` lies in `start..=end`.
    pub fn contains_inclusive(self, offset: TextSize) -> (r: bool)
        ensures
            r == (self.start_spec() <= offset@ && offset@ <= self.end_spec()),
    {
        self.start.raw <= offset.raw && offset.raw <= self.end.raw
    }

    /// Whether `other` lies entirely within this range.
    pub fn contains_range(self, other: TextRange) -> (r: bool)
        ensures
            r == (self.start_spec() <= other.start_spec() && other.end_spec() <= self.end_spec()),
    {
        self.start.raw <= other.start.raw && other.end.raw <= self.end.raw
    }

    /// The common part of two ranges, or `None` when they are disjoint (an
    /// empty common part where they touch counts as `Some`).
    pub fn intersect(self, other: TextRange) -> (r: Option<TextRange>)
        ensures
            ({
                let lo = if self.start_spec() < other.start_spec() { other.start_spec() } else { self.start_spec() };
                let hi = if self.end_spec() < other.end_spec() { self.end_spec() } else { other.end_spec() };
                &&& hi < lo ==> r is None
                &&& lo <= hi ==> (r matches Some(x) && x.start_spec() == lo && x.end_spec() == hi)
            }),
    {
        let start = if self.start.raw < other.start.raw { other.start } else { self.start };
        let end = if self.end.raw < other.end.raw { self.end } else { other.end };
        if end.raw < start.raw {
            return None;
        }
        Some(TextRange { start, end })
    }
}

} // verus!
