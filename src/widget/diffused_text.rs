//! Text that settles out of random letters.
use iced_core::text::LineHeight;
use iced_core::{Color, Font, Length, Pixels};
use vstd::prelude::*;

use crate::foreign::{chars_of, is_white_space, is_whitespace, random_letter, string_of};
use crate::widget::text::{Shaping, TextAlignment, TextFormat, VerticalAlignment, Wrapping};

verus! {

/// How many characters of a text of `len` characters have settled after
/// `ticks` redraws, `tick` milliseconds apart, when the whole text settles in
/// `total` milliseconds; nothing once all of them have.
pub open spec fn settled_count(len: nat, ticks: nat, tick: nat, total: nat) -> Option<nat> {
    if total == 0 || len * (ticks * tick) / total >= len {
        None
    } else {
        Some(len * (ticks * tick) / total)
    }
}

/// `chars` with its first `settled` characters kept, and past them every
/// character but white space and hyphens replaced by the letter at its
/// position in `letters`.
pub open spec fn diffused(chars: Seq<char>, settled: nat, letters: Seq<char>) -> Seq<char> {
    Seq::new(
        chars.len(),
        |i: int|
            if i < settled || is_white_space(chars[i]) || chars[i] == '-' {
                chars[i]
            } else {
                letters[i]
            },
    )
}

/// Text that settles out of random letters.
#[derive(Debug)]
pub struct DiffusedText {
    fragment: String,
    format: TextFormat,
    color: Option<Color>,
    duration: u64,
    tick_rate: u64,
}

impl DiffusedText {
    /// The text shown.
    pub closed spec fn fragment(&self) -> Seq<char> {
        self.fragment@
    }

    /// How the text is laid out.
    pub closed spec fn format(&self) -> TextFormat {
        self.format
    }

    /// The color of the text; the theme's when there is none.
    pub closed spec fn text_color(&self) -> Option<Color> {
        self.color
    }

    /// How long the text takes to settle, in milliseconds.
    pub closed spec fn total_millis(&self) -> u64 {
        self.duration
    }

    /// How often the text is redrawn while it settles, in milliseconds.
    pub closed spec fn tick_millis(&self) -> u64 {
        self.tick_rate
    }

    /// Shows `fragment` with the default format and color.
    pub fn new(fragment: &str) -> (r: Self)
        ensures
            r.fragment() == fragment@,
            r.format().size is None,
            r.format().font is None,
            r.format().align_x == TextAlignment::Default,
            r.format().align_y == VerticalAlignment::Top,
            r.format().shaping == Shaping::Auto,
            r.format().wrapping == Wrapping::Word,
            r.text_color() is None,
            r.total_millis() == 200,
            r.tick_millis() == 50,
    {
        DiffusedText {
            fragment: fragment.to_owned(),
            format: TextFormat::default(),
            color: None,
            duration: 200,
            tick_rate: 50,
        }
    }

    /// Sets the font size.
    pub fn size(self, size: Pixels) -> (r: Self)
        ensures
            r.fragment() == self.fragment(),
            r.text_color() == self.text_color(),
            r.total_millis() == self.total_millis(),
            r.tick_millis() == self.tick_millis(),
            r.format() == (TextFormat { size: Some(size), ..self.format() }),
    {
        let mut r = self;
        r.format.size = Some(size);
        r
    }

    /// Sets the line height.
    pub fn line_height(self, line_height: LineHeight) -> (r: Self)
        ensures
            r.fragment() == self.fragment(),
            r.text_color() == self.text_color(),
            r.total_millis() == self.total_millis(),
            r.tick_millis() == self.tick_millis(),
            r.format() == (TextFormat { line_height: line_height, ..self.format() }),
    {
        let mut r = self;
        r.format.line_height = line_height;
        r
    }

    /// Sets the font.
    pub fn font(self, font: Font) -> (r: Self)
        ensures
            r.fragment() == self.fragment(),
            r.text_color() == self.text_color(),
            r.total_millis() == self.total_millis(),
            r.tick_millis() == self.tick_millis(),
            r.format() == (TextFormat { font: Some(font), ..self.format() }),
    {
        let mut r = self;
        r.format.font = Some(font);
        r
    }

    /// Sets the width of the widget.
    pub fn width(self, width: Length) -> (r: Self)
        ensures
            r.fragment() == self.fragment(),
            r.text_color() == self.text_color(),
            r.total_millis() == self.total_millis(),
            r.tick_millis() == self.tick_millis(),
            r.format() == (TextFormat { width: width, ..self.format() }),
    {
        let mut r = self;
        r.format.width = width;
        r
    }

    /// Sets the height of the widget.
    pub fn height(self, height: Length) -> (r: Self)
        ensures
            r.fragment() == self.fragment(),
            r.text_color() == self.text_color(),
            r.total_millis() == self.total_millis(),
            r.tick_millis() == self.tick_millis(),
            r.format() == (TextFormat { height: height, ..self.format() }),
    {
        let mut r = self;
        r.format.height = height;
        r
    }

    /// Sets the horizontal alignment of the text.
    pub fn align_x(self, alignment: TextAlignment) -> (r: Self)
        ensures
            r.fragment() == self.fragment(),
            r.text_color() == self.text_color(),
            r.total_millis() == self.total_millis(),
            r.tick_millis() == self.tick_millis(),
            r.format() == (TextFormat { align_x: alignment, ..self.format() }),
    {
        let mut r = self;
        r.format.align_x = alignment;
        r
    }

    /// Sets the vertical alignment of the text.
    pub fn align_y(self, alignment: VerticalAlignment) -> (r: Self)
        ensures
            r.fragment() == self.fragment(),
            r.text_color() == self.text_color(),
            r.total_millis() == self.total_millis(),
            r.tick_millis() == self.tick_millis(),
            r.format() == (TextFormat { align_y: alignment, ..self.format() }),
    {
        let mut r = self;
        r.format.align_y = alignment;
        r
    }

    /// Sets how glyphs are shaped.
    pub fn shaping(self, shaping: Shaping) -> (r: Self)
        ensures
            r.fragment() == self.fragment(),
            r.text_color() == self.text_color(),
            r.total_millis() == self.total_millis(),
            r.tick_millis() == self.tick_millis(),
            r.format() == (TextFormat { shaping: shaping, ..self.format() }),
    {
        let mut r = self;
        r.format.shaping = shaping;
        r
    }

    /// Centers the text both ways.
    pub fn center(self) -> (r: Self)
        ensures
            r.fragment() == self.fragment(),
            r.text_color() == self.text_color(),
            r.total_millis() == self.total_millis(),
            r.tick_millis() == self.tick_millis(),
            r.format() == (TextFormat {
                align_x: TextAlignment::Center,
                align_y: VerticalAlignment::Center,
                ..self.format()
            }),
    {
        self.align_x(TextAlignment::Center).align_y(VerticalAlignment::Center)
    }

    /// Draws the text in `color`.
    pub fn color(self, color: Color) -> (r: Self)
        ensures
            r.fragment() == self.fragment(),
            r.total_millis() == self.total_millis(),
            r.tick_millis() == self.tick_millis(),
            r.format() == self.format(),
            r.text_color() == Some(color),
    {
        self.color_maybe(Some(color))
    }

    /// Draws the text in `color`, or in the theme's color when there is none.
    pub fn color_maybe(self, color: Option<Color>) -> (r: Self)
        ensures
            r.fragment() == self.fragment(),
            r.total_millis() == self.total_millis(),
            r.tick_millis() == self.tick_millis(),
            r.format() == self.format(),
            r.text_color() == color,
    {
        let mut r = self;
        r.color = color;
        r
    }

    /// Settles the text in 100 milliseconds.
    pub fn very_quick(self) -> (r: Self)
        ensures
            r.fragment() == self.fragment(),
            r.format() == self.format(),
            r.text_color() == self.text_color(),
            r.tick_millis() == self.tick_millis(),
            r.total_millis() == 100,
    {
        self.duration(100)
    }

    /// Settles the text in 200 milliseconds.
    pub fn quick(self) -> (r: Self)
        ensures
            r.fragment() == self.fragment(),
            r.format() == self.format(),
            r.text_color() == self.text_color(),
            r.tick_millis() == self.tick_millis(),
            r.total_millis() == 200,
    {
        self.duration(200)
    }

    /// Settles the text in 400 milliseconds.
    pub fn slow(self) -> (r: Self)
        ensures
            r.fragment() == self.fragment(),
            r.format() == self.format(),
            r.text_color() == self.text_color(),
            r.tick_millis() == self.tick_millis(),
            r.total_millis() == 400,
    {
        self.duration(400)
    }

    /// Settles the text in 500 milliseconds.
    pub fn very_slow(self) -> (r: Self)
        ensures
            r.fragment() == self.fragment(),
            r.format() == self.format(),
            r.text_color() == self.text_color(),
            r.tick_millis() == self.tick_millis(),
            r.total_millis() == 500,
    {
        self.duration(500)
    }

    /// Settles the text in `millis` milliseconds.
    pub fn duration(self, millis: u64) -> (r: Self)
        ensures
            r.fragment() == self.fragment(),
            r.format() == self.format(),
            r.text_color() == self.text_color(),
            r.tick_millis() == self.tick_millis(),
            r.total_millis() == millis,
    {
        let mut r = self;
        r.duration = millis;
        r
    }

    /// Redraws the text every `millis` milliseconds while it settles.
    pub fn tick_rate(self, millis: u64) -> (r: Self)
        ensures
            r.fragment() == self.fragment(),
            r.format() == self.format(),
            r.text_color() == self.text_color(),
            r.tick_millis() == millis,
            r.total_millis() == self.total_millis(),
    {
        let mut r = self;
        r.tick_rate = millis;
        r
    }

    /// How many characters have settled after `ticks` redraws, or nothing
    /// once all of them have.
    pub fn settled_chars(&self, ticks: u64) -> (r: Option<usize>)
        ensures
            match settled_count(self.fragment().len(), ticks as nat, self.tick_millis() as nat, self.total_millis() as nat) {
                Some(n) => r == Some(n as usize),
                None => r is None,
            },
    {
        let chars = chars_of(self.fragment.as_str());
        if self.duration == 0 {
            return None;
        }
        let t = ticks as u128;
        let rate = self.tick_rate as u128;
        assert(t * rate <= u128::MAX) by (nonlinear_arith)
            requires
                t <= u64::MAX,
                rate <= u64::MAX,
        ;
        let elapsed: u128 = t * rate;
        match (chars.len() as u128).checked_mul(elapsed) {
            None => {
                proof {
                    let len = chars.len() as int;
                    let e = elapsed as int;
                    let d = self.duration as int;
                    assert(len * e > u128::MAX);
                    assert(len * e / d >= len) by (nonlinear_arith)
                        requires
                            len * e > u128::MAX,
                            1 <= d <= u64::MAX,
                            0 <= len <= u64::MAX,
                    {
                        assert(len * e >= len * d) by (nonlinear_arith)
                            requires len * e > u128::MAX, 1 <= d <= u64::MAX, 0 <= len <= u64::MAX;
                    }
                }
                None
            },
            Some(work) => {
                let progress = work / self.duration as u128;
                if progress >= chars.len() as u128 {
                    None
                } else {
                    Some(progress as usize)
                }
            },
        }
    }

    /// The text after `ticks` redraws: its first settled characters as they
    /// are, and past them every character but white space and hyphens
    /// replaced by the letter `letters` holds at its position. Nothing once
    /// the text has settled.
    pub fn diffused_with(&self, ticks: u64, letters: &Vec<char>) -> (r: Option<String>)
        requires
            letters@.len() >= self.fragment().len(),
        ensures
            match settled_count(self.fragment().len(), ticks as nat, self.tick_millis() as nat, self.total_millis() as nat) {
                Some(n) => r is Some && r->0@ == diffused(self.fragment(), n, letters@),
                None => r is None,
            },
    {
        match self.settled_chars(ticks) {
            None => None,
            Some(n) => {
                let chars = chars_of(self.fragment.as_str());
                let mut out: Vec<char> = Vec::new();
                let mut i: usize = 0;
                while i < chars.len()
                    invariant
                        0 <= i <= chars.len(),
                        chars@ == self.fragment(),
                        letters@.len() >= chars.len(),
                        out@ == diffused(chars@, n as nat, letters@).take(i as int),
                    decreases chars.len() - i,
                {
                    let c = chars[i];
                    if i < n || is_whitespace(c) || c == '-' {
                        out.push(c);
                    } else {
                        out.push(letters[i]);
                    }
                    proof {
                        assert(out@ =~= diffused(chars@, n as nat, letters@).take(i + 1));
                    }
                    i += 1;
                }
                proof {
                    assert(out@ =~= diffused(chars@, n as nat, letters@));
                }
                Some(string_of(&out))
            },
        }
    }

    /// The text after `ticks` redraws, with the unsettled characters
    /// replaced by random lower-case letters. Nothing once the text has
    /// settled.
    pub fn diffused(&self, ticks: u64) -> (r: Option<String>)
        ensures
            match settled_count(self.fragment().len(), ticks as nat, self.tick_millis() as nat, self.total_millis() as nat) {
                Some(n) => r is Some && exists|letters: Seq<char>|
                    letters.len() == self.fragment().len()
                        && (forall|i: int| 0 <= i < letters.len() ==> 'a' <= #[trigger] letters[i] <= 'z')
                        && r->0@ == diffused(self.fragment(), n, letters),
                None => r is None,
            },
    {
        let chars = chars_of(self.fragment.as_str());
        let mut letters: Vec<char> = Vec::new();
        while letters.len() < chars.len()
            invariant
                letters.len() <= chars.len(),
                forall|i: int| 0 <= i < letters.len() ==> 'a' <= #[trigger] letters@[i] <= 'z',
            decreases chars.len() - letters.len(),
        {
            letters.push(random_letter());
        }
        self.diffused_with(ticks, &letters)
    }

    /// The text shown.
    pub fn text(&self) -> (r: &str)
        ensures
            r@ == self.fragment(),
    {
        self.fragment.as_str()
    }

    /// How the text is laid out.
    pub fn text_format(&self) -> (r: TextFormat)
        ensures
            r == self.format(),
    {
        self.format
    }

    /// The color of the text, if one was chosen.
    pub fn chosen_color(&self) -> (r: Option<Color>)
        ensures
            r == self.text_color(),
    {
        self.color
    }

    /// How often the text is redrawn while it settles, in milliseconds.
    pub fn redraw_millis(&self) -> (r: u64)
        ensures
            r == self.tick_millis(),
    {
        self.tick_rate
    }
}

} // verus!
