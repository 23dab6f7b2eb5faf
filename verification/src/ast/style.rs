//! Bit mask of markup styles.

use vstd::prelude::*;

verus! {

/// Bit mask of markup styles.
#[derive(Debug, Clone, Copy, PartialEq, Eq, Structural)]
pub struct MarkupStyle(pub u32);

impl MarkupStyle {
    /// No style.
    pub fn plain() -> (s: Self)
        ensures s.0 == 0,
    {
        MarkupStyle(0)
    }

    /// `**bold**`
    pub fn bold() -> (s: Self)
        ensures s.0 == 1,
    {
        MarkupStyle(1)
    }

    /// `//italic//`
    pub fn italic() -> (s: Self)
        ensures s.0 == 2,
    {
        MarkupStyle(2)
    }

    /// `__underline__`
    pub fn underline() -> (s: Self)
        ensures s.0 == 4,
    {
        MarkupStyle(4)
    }

    /// `~~strikethrough~~`
    pub fn strikethrough() -> (s: Self)
        ensures s.0 == 8,
    {
        MarkupStyle(8)
    }

    /// `''superscript''`
    pub fn superscript() -> (s: Self)
        ensures s.0 == 16,
    {
        MarkupStyle(16)
    }

    /// `,,subscript,,`
    pub fn subscript() -> (s: Self)
        ensures s.0 == 32,
    {
        MarkupStyle(32)
    }

    /// Inline code.
    pub fn code() -> (s: Self)
        ensures s.0 == 64,
    {
        MarkupStyle(64)
    }

    /// `==highlight==`
    pub fn highlight() -> (s: Self)
        ensures s.0 == 128,
    {
        MarkupStyle(128)
    }

    /// Inline spoiler.
    pub fn spoiler() -> (s: Self)
        ensures s.0 == 256,
    {
        MarkupStyle(256)
    }

    /// Block spoiler.
    pub fn spoiler_block() -> (s: Self)
        ensures s.0 == 512,
    {
        MarkupStyle(512)
    }

    /// `++insertion++`
    pub fn insertion() -> (s: Self)
        ensures s.0 == 1024,
    {
        MarkupStyle(1024)
    }

    /// `--deletion--`
    pub fn deletion() -> (s: Self)
        ensures s.0 == 2048,
    {
        MarkupStyle(2048)
    }

    /// Comment.
    pub fn comment() -> (s: Self)
        ensures s.0 == 4096,
    {
        MarkupStyle(4096)
    }

    /// `$formula$`
    pub fn formula() -> (s: Self)
        ensures s.0 == 8192,
    {
        MarkupStyle(8192)
    }

    /// `$$display formula$$`
    pub fn display_formula() -> (s: Self)
        ensures s.0 == 16384,
    {
        MarkupStyle(16384)
    }

    /// Whether every bit of `other` is set in `self`.
    pub fn contains(&self, other: Self) -> (b: bool)
        ensures b == (self.0 & other.0 == other.0),
    {
        (self.0 & other.0) == other.0
    }

    /// The raw bits.
    pub fn bits(&self) -> (b: u32)
        ensures b == self.0,
    {
        self.0
    }

    /// The style with exactly these bits.
    pub fn from_bits(bits: u32) -> (s: Self)
        ensures s.0 == bits,
    {
        MarkupStyle(bits)
    }

    /// Union of two styles.
    pub fn union(self, rhs: Self) -> (s: Self)
        ensures s.0 == self.0 | rhs.0,
    {
        MarkupStyle(self.0 | rhs.0)
    }
}

impl core::ops::BitOr for MarkupStyle {
    type Output = Self;

    fn bitor(self, rhs: Self) -> (s: Self) {
        MarkupStyle(self.0 | rhs.0)
    }
}

impl vstd::std_specs::ops::BitOrSpecImpl for MarkupStyle {
    open spec fn obeys_bitor_spec() -> bool {
        true
    }

    open spec fn bitor_req(self, rhs: Self) -> bool {
        true
    }

    open spec fn bitor_spec(self, rhs: Self) -> Self {
        MarkupStyle(self.0 | rhs.0)
    }
}

} // verus!
