//! What the text widgets share: the format text is laid out with, and the
//! character-level edits they make to their text.
use iced_core::text::LineHeight;
use iced_core::{Font, Length, Pixels};
use vstd::prelude::*;

use crate::foreign::{default_line_height, is_white_space, is_whitespace, shrink};

verus! {

/// Where text sits horizontally in its bounds.
#[derive(Debug, Clone, Copy, PartialEq, Eq, Structural)]
pub enum TextAlignment {
    Default,
    Left,
    Center,
    Right,
    Justified,
}

/// Where text sits vertically in its bounds.
#[derive(Debug, Clone, Copy, PartialEq, Eq, Structural)]
pub enum VerticalAlignment {
    Top,
    Center,
    Bottom,
}

/// How glyphs are shaped.
#[derive(Debug, Clone, Copy, PartialEq, Eq, Structural)]
pub enum Shaping {
    Auto,
    Basic,
    Advanced,
}

/// How text wraps when it does not fit on one line.
#[derive(Debug, Clone, Copy, PartialEq, Eq, Structural)]
pub enum Wrapping {
    Unwrapped,
    Word,
    Glyph,
    WordOrGlyph,
}

/// The layout of a text widget: its bounds, font and alignment.
#[derive(Debug, Clone, Copy)]
pub struct TextFormat {
    pub width: Length,
    pub height: Length,
    pub size: Option<Pixels>,
    pub font: Option<Font>,
    pub line_height: LineHeight,
    pub align_x: TextAlignment,
    pub align_y: VerticalAlignment,
    pub shaping: Shaping,
    pub wrapping: Wrapping,
}

impl Default for TextFormat {
    fn default() -> (r: TextFormat)
        ensures
            r.size is None,
            r.font is None,
            r.align_x == TextAlignment::Default,
            r.align_y == VerticalAlignment::Top,
            r.shaping == Shaping::Auto,
            r.wrapping == Wrapping::Word,
    {
        TextFormat {
            width: shrink(),
            height: shrink(),
            size: None,
            font: None,
            line_height: default_line_height(),
            align_x: TextAlignment::Default,
            align_y: VerticalAlignment::Top,
            shaping: Shaping::Auto,
            wrapping: Wrapping::Word,
        }
    }
}

/// The index of the first character at or after `i` that is not white space.
pub open spec fn skip_white(s: Seq<char>, i: int) -> int
    decreases s.len() - i,
{
    if 0 <= i < s.len() && is_white_space(s[i]) {
        skip_white(s, i + 1)
    } else {
        i
    }
}

/// The end of `s` once the white space before index `e` is dropped.
pub open spec fn end_white(s: Seq<char>, e: int) -> int
    decreases e,
{
    if 0 < e <= s.len() && is_white_space(s[e - 1]) {
        end_white(s, e - 1)
    } else {
        e
    }
}

/// The end of `s` once the commas and full stops before index `e` are dropped.
pub open spec fn end_punct(s: Seq<char>, e: int) -> int
    decreases e,
{
    if 0 < e <= s.len() && (s[e - 1] == ',' || s[e - 1] == '.') {
        end_punct(s, e - 1)
    } else {
        e
    }
}

/// `s` without white space at either end.
pub open spec fn trimmed(s: Seq<char>) -> Seq<char> {
    let t = s.subrange(skip_white(s, 0), s.len() as int);
    t.subrange(0, end_white(t, t.len() as int))
}

/// `s` without commas and full stops at its end.
pub open spec fn without_trailing_punct(s: Seq<char>) -> Seq<char> {
    s.subrange(0, end_punct(s, s.len() as int))
}

proof fn lemma_skip_white_bounds(s: Seq<char>, i: int)
    requires
        0 <= i <= s.len(),
    ensures
        i <= skip_white(s, i) <= s.len(),
    decreases s.len() - i,
{
    if i < s.len() && is_white_space(s[i]) {
        lemma_skip_white_bounds(s, i + 1);
    }
}

proof fn lemma_end_white_bounds(s: Seq<char>, e: int)
    requires
        0 <= e <= s.len(),
    ensures
        0 <= end_white(s, e) <= e,
    decreases e,
{
    if e > 0 && is_white_space(s[e - 1]) {
        lemma_end_white_bounds(s, e - 1);
    }
}

proof fn lemma_end_punct_bounds(s: Seq<char>, e: int)
    requires
        0 <= e <= s.len(),
    ensures
        0 <= end_punct(s, e) <= e,
    decreases e,
{
    if e > 0 && (s[e - 1] == ',' || s[e - 1] == '.') {
        lemma_end_punct_bounds(s, e - 1);
    }
}

/// The characters of `s` from `a` up to `b`.
pub(crate) fn copy_range(s: &Vec<char>, a: usize, b: usize) -> (r: Vec<char>)
    requires
        a <= b <= s.len(),
    ensures
        r@ == s@.subrange(a as int, b as int),
{
    let mut r: Vec<char> = Vec::new();
    let mut i: usize = a;
    while i < b
        invariant
            a <= i <= b <= s.len(),
            r@ == s@.subrange(a as int, i as int),
        decreases b - i,
    {
        r.push(s[i]);
        proof {
            assert(r@ =~= s@.subrange(a as int, i + 1));
        }
        i += 1;
    }
    r
}

/// `s` without white space at either end.
pub(crate) fn trim(s: &Vec<char>) -> (r: Vec<char>)
    ensures
        r@ == trimmed(s@),
{
    let mut a: usize = 0;
    while a < s.len() && is_whitespace(s[a])
        invariant
            0 <= a <= s.len(),
            skip_white(s@, a as int) == skip_white(s@, 0),
        decreases s.len() - a,
    {
        a += 1;
    }
    let t = copy_range(s, a, s.len());
    let mut e: usize = t.len();
    while e > 0 && is_whitespace(t[e - 1])
        invariant
            0 <= e <= t.len(),
            end_white(t@, e as int) == end_white(t@, t.len() as int),
        decreases e,
    {
        e -= 1;
    }
    copy_range(&t, 0, e)
}

/// `s` without commas and full stops at its end.
pub(crate) fn trim_trailing_punct(s: &Vec<char>) -> (r: Vec<char>)
    ensures
        r@ == without_trailing_punct(s@),
{
    let mut e: usize = s.len();
    while e > 0 && (s[e - 1] == ',' || s[e - 1] == '.')
        invariant
            0 <= e <= s.len(),
            end_punct(s@, e as int) == end_punct(s@, s.len() as int),
        decreases e,
    {
        e -= 1;
    }
    copy_range(s, 0, e)
}

} // verus!
