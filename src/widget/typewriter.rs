//! Text that appears one character at a time.
use iced_core::text::LineHeight;
use iced_core::{Color, Font, Length, Pixels};
use vstd::prelude::*;

use crate::foreign::{chars_of, string_of};
use crate::widget::text::{
    copy_range, trim, trimmed, Shaping, TextAlignment, TextFormat, VerticalAlignment, Wrapping,
};

verus! {

/// How many characters of a text of `total` characters show `elapsed`
/// milliseconds after typing started, at one character every `millis`
/// milliseconds; nothing once all of them show.
pub open spec fn typed_count(total: nat, elapsed: nat, millis: nat) -> Option<nat> {
    if millis == 0 || elapsed / millis >= total {
        None
    } else {
        Some(elapsed / millis)
    }
}

/// Text that appears one character at a time, as if typed.
#[derive(Debug)]
pub struct Typewriter {
    fragment: String,
    format: TextFormat,
    color: Option<Color>,
    speed: u64,
}

impl Typewriter {
    /// The text shown.
    pub closed spec fn fragment(&self) -> Seq<char> {
        self.fragment@
    }

    /// How the text is laid out.
    pub closed spec fn format(&self) -> TextFormat {
        self.format
    }

    /// The color of the text; the theme's when there is none.
    pub closed spec fn text_color(&self) -> Option<Color> {
        self.color
    }

    /// How long each character takes to appear, in milliseconds.
    pub closed spec fn millis_per_char(&self) -> u64 {
        self.speed
    }

    /// Shows `fragment` with the default format and color.
    pub fn new(fragment: &str) -> (r: Self)
        ensures
            r.fragment() == fragment@,
            r.format().size is None,
            r.format().font is None,
            r.format().align_x == TextAlignment::Default,
            r.format().align_y == VerticalAlignment::Top,
            r.format().shaping == Shaping::Auto,
            r.format().wrapping == Wrapping::Word,
            r.text_color() is None,
            r.millis_per_char() == 20,
    {
        Typewriter {
            fragment: fragment.to_owned(),
            format: TextFormat::default(),
            color: None,
            speed: 20,
        }
    }

    /// Sets the font size.
    pub fn size(self, size: Pixels) -> (r: Self)
        ensures
            r.fragment() == self.fragment(),
            r.text_color() == self.text_color(),
            r.millis_per_char() == self.millis_per_char(),
            r.format() == (TextFormat { size: Some(size), ..self.format() }),
    {
        let mut r = self;
        r.format.size = Some(size);
        r
    }

    /// Sets the line height.
    pub fn line_height(self, line_height: LineHeight) -> (r: Self)
        ensures
            r.fragment() == self.fragment(),
            r.text_color() == self.text_color(),
            r.millis_per_char() == self.millis_per_char(),
            r.format() == (TextFormat { line_height: line_height, ..self.format() }),
    {
        let mut r = self;
        r.format.line_height = line_height;
        r
    }

    /// Sets the font.
    pub fn font(self, font: Font) -> (r: Self)
        ensures
            r.fragment() == self.fragment(),
            r.text_color() == self.text_color(),
            r.millis_per_char() == self.millis_per_char(),
            r.format() == (TextFormat { font: Some(font), ..self.format() }),
    {
        let mut r = self;
        r.format.font = Some(font);
        r
    }

    /// Sets the width of the widget.
    pub fn width(self, width: Length) -> (r: Self)
        ensures
            r.fragment() == self.fragment(),
            r.text_color() == self.text_color(),
            r.millis_per_char() == self.millis_per_char(),
            r.format() == (TextFormat { width: width, ..self.format() }),
    {
        let mut r = self;
        r.format.width = width;
        r
    }

    /// Sets the height of the widget.
    pub fn height(self, height: Length) -> (r: Self)
        ensures
            r.fragment() == self.fragment(),
            r.text_color() == self.text_color(),
            r.millis_per_char() == self.millis_per_char(),
            r.format() == (TextFormat { height: height, ..self.format() }),
    {
        let mut r = self;
        r.format.height = height;
        r
    }

    /// Sets the horizontal alignment of the text.
    pub fn align_x(self, alignment: TextAlignment) -> (r: Self)
        ensures
            r.fragment() == self.fragment(),
            r.text_color() == self.text_color(),
            r.millis_per_char() == self.millis_per_char(),
            r.format() == (TextFormat { align_x: alignment, ..self.format() }),
    {
        let mut r = self;
        r.format.align_x = alignment;
        r
    }

    /// Sets the vertical alignment of the text.
    pub fn align_y(self, alignment: VerticalAlignment) -> (r: Self)
        ensures
            r.fragment() == self.fragment(),
            r.text_color() == self.text_color(),
            r.millis_per_char() == self.millis_per_char(),
            r.format() == (TextFormat { align_y: alignment, ..self.format() }),
    {
        let mut r = self;
        r.format.align_y = alignment;
        r
    }

    /// Sets how glyphs are shaped.
    pub fn shaping(self, shaping: Shaping) -> (r: Self)
        ensures
            r.fragment() == self.fragment(),
            r.text_color() == self.text_color(),
            r.millis_per_char() == self.millis_per_char(),
            r.format() == (TextFormat { shaping: shaping, ..self.format() }),
    {
        let mut r = self;
        r.format.shaping = shaping;
        r
    }

    /// Sets how the text wraps.
    pub fn wrapping(self, wrapping: Wrapping) -> (r: Self)
        ensures
            r.fragment() == self.fragment(),
            r.text_color() == self.text_color(),
            r.millis_per_char() == self.millis_per_char(),
            r.format() == (TextFormat { wrapping: wrapping, ..self.format() }),
    {
        let mut r = self;
        r.format.wrapping = wrapping;
        r
    }

    /// Centers the text both ways.
    pub fn center(self) -> (r: Self)
        ensures
            r.fragment() == self.fragment(),
            r.text_color() == self.text_color(),
            r.millis_per_char() == self.millis_per_char(),
            r.format() == (TextFormat {
                align_x: TextAlignment::Center,
                align_y: VerticalAlignment::Center,
                ..self.format()
            }),
    {
        self.align_x(TextAlignment::Center).align_y(VerticalAlignment::Center)
    }

    /// Draws the text in `color`.
    pub fn color(self, color: Color) -> (r: Self)
        ensures
            r.fragment() == self.fragment(),
            r.millis_per_char() == self.millis_per_char(),
            r.format() == self.format(),
            r.text_color() == Some(color),
    {
        self.color_maybe(Some(color))
    }

    /// Draws the text in `color`, or in the theme's color when there is none.
    pub fn color_maybe(self, color: Option<Color>) -> (r: Self)
        ensures
            r.fragment() == self.fragment(),
            r.millis_per_char() == self.millis_per_char(),
            r.format() == self.format(),
            r.text_color() == color,
    {
        let mut r = self;
        r.color = color;
        r
    }

    /// Types a character every 10 milliseconds.
    pub fn very_quick(self) -> (r: Self)
        ensures
            r.fragment() == self.fragment(),
            r.format() == self.format(),
            r.text_color() == self.text_color(),
            r.millis_per_char() == 10,
    {
        self.speed(10)
    }

    /// Types a character every 20 milliseconds.
    pub fn quick(self) -> (r: Self)
        ensures
            r.fragment() == self.fragment(),
            r.format() == self.format(),
            r.text_color() == self.text_color(),
            r.millis_per_char() == 20,
    {
        self.speed(20)
    }

    /// Types a character every 40 milliseconds.
    pub fn slow(self) -> (r: Self)
        ensures
            r.fragment() == self.fragment(),
            r.format() == self.format(),
            r.text_color() == self.text_color(),
            r.millis_per_char() == 40,
    {
        self.speed(40)
    }

    /// Types a character every 80 milliseconds.
    pub fn very_slow(self) -> (r: Self)
        ensures
            r.fragment() == self.fragment(),
            r.format() == self.format(),
            r.text_color() == self.text_color(),
            r.millis_per_char() == 80,
    {
        self.speed(80)
    }

    /// Types a character every `millis` milliseconds.
    pub fn speed(self, millis: u64) -> (r: Self)
        ensures
            r.fragment() == self.fragment(),
            r.format() == self.format(),
            r.text_color() == self.text_color(),
            r.millis_per_char() == millis,
    {
        let mut r = self;
        r.speed = millis;
        r
    }

    /// How many characters show `elapsed_millis` milliseconds after typing
    /// started, or nothing once all of them do.
    pub fn visible_chars(&self, elapsed_millis: u64) -> (r: Option<usize>)
        ensures
            match typed_count(self.fragment().len(), elapsed_millis as nat, self.millis_per_char() as nat) {
                Some(n) => r == Some(n as usize),
                None => r is None,
            },
    {
        let chars = chars_of(self.fragment.as_str());
        if self.speed == 0 {
            return None;
        }
        let tick = elapsed_millis / self.speed;
        if tick >= chars.len() as u64 {
            None
        } else {
            Some(tick as usize)
        }
    }

    /// The text shown `elapsed_millis` milliseconds after typing started,
    /// without white space at its ends; nothing once all of it shows.
    pub fn typed(&self, elapsed_millis: u64) -> (r: Option<String>)
        ensures
            match typed_count(self.fragment().len(), elapsed_millis as nat, self.millis_per_char() as nat) {
                Some(n) => r is Some && r->0@ == trimmed(self.fragment().take(n as int)),
                None => r is None,
            },
    {
        match self.visible_chars(elapsed_millis) {
            None => None,
            Some(n) => {
                let chars = chars_of(self.fragment.as_str());
                let shown = copy_range(&chars, 0, n);
                let t = trim(&shown);
                assert(shown@ == self.fragment().take(n as int));
                Some(string_of(&t))
            },
        }
    }

    /// The text shown.
    pub fn text(&self) -> (r: &str)
        ensures
            r@ == self.fragment(),
    {
        self.fragment.as_str()
    }

    /// How the text is laid out.
    pub fn text_format(&self) -> (r: TextFormat)
        ensures
            r == self.format(),
    {
        self.format
    }

    /// The color of the text, if one was chosen.
    pub fn chosen_color(&self) -> (r: Option<Color>)
        ensures
            r == self.text_color(),
    {
        self.color
    }

    /// How long each character takes to appear, in milliseconds.
    pub fn char_millis(&self) -> (r: u64)
        ensures
            r == self.millis_per_char(),
    {
        self.speed
    }
}

} // verus!
