//! Text cut short with an ellipsis when it does not fit.
use iced_core::text::LineHeight;
use iced_core::{Color, Font, Length, Pixels};
use vstd::prelude::*;

use crate::foreign::{chars_of, string_of};
use crate::widget::text::{
    copy_range, trim, trim_trailing_punct, trimmed, without_trailing_punct,
    Shaping, TextAlignment, TextFormat, VerticalAlignment, Wrapping,
};

verus! {

/// The text an ellipsized text shows when the character at offset `end` is
/// the first that does not fit: its first `cut` characters, without white
/// space at the ends and without trailing commas and full stops, followed by
/// three full stops. Nothing when the whole text fits.
pub open spec fn ellipsis_of(chars: Seq<char>, end: nat, cut: nat) -> Option<Seq<char>> {
    if end >= chars.len() {
        None
    } else {
        let kept = chars.take(if cut < chars.len() { cut as int } else { chars.len() as int });
        Some(without_trailing_punct(trimmed(kept)) + seq!['.', '.', '.'])
    }
}

/// Text that ends in an ellipsis when it does not fit in its bounds.
#[derive(Debug)]
pub struct EllipsizedText {
    fragment: String,
    format: TextFormat,
    color: Option<Color>,
}

impl EllipsizedText {
    /// The text shown.
    pub closed spec fn fragment(&self) -> Seq<char> {
        self.fragment@
    }

    /// How the text is laid out.
    pub closed spec fn format(&self) -> TextFormat {
        self.format
    }

    /// The color of the text; the theme's when there is none.
    pub closed spec fn text_color(&self) -> Option<Color> {
        self.color
    }


    /// Shows `fragment` with the default format and color.
    pub fn new(fragment: &str) -> (r: Self)
        ensures
            r.fragment() == fragment@,
            r.format().size is None,
            r.format().font is None,
            r.format().align_x == TextAlignment::Default,
            r.format().align_y == VerticalAlignment::Top,
            r.format().shaping == Shaping::Auto,
            r.format().wrapping == Wrapping::Word,
            r.text_color() is None,
    {
        EllipsizedText {
            fragment: fragment.to_owned(),
            format: TextFormat::default(),
            color: None,
        }
    }

    /// Sets the font size.
    pub fn size(self, size: Pixels) -> (r: Self)
        ensures
            r.fragment() == self.fragment(),
            r.text_color() == self.text_color(),
            r.format() == (TextFormat { size: Some(size), ..self.format() }),
    {
        let mut r = self;
        r.format.size = Some(size);
        r
    }

    /// Sets the line height.
    pub fn line_height(self, line_height: LineHeight) -> (r: Self)
        ensures
            r.fragment() == self.fragment(),
            r.text_color() == self.text_color(),
            r.format() == (TextFormat { line_height: line_height, ..self.format() }),
    {
        let mut r = self;
        r.format.line_height = line_height;
        r
    }

    /// Sets the font.
    pub fn font(self, font: Font) -> (r: Self)
        ensures
            r.fragment() == self.fragment(),
            r.text_color() == self.text_color(),
            r.format() == (TextFormat { font: Some(font), ..self.format() }),
    {
        let mut r = self;
        r.format.font = Some(font);
        r
    }

    /// Sets the width of the widget.
    pub fn width(self, width: Length) -> (r: Self)
        ensures
            r.fragment() == self.fragment(),
            r.text_color() == self.text_color(),
            r.format() == (TextFormat { width: width, ..self.format() }),
    {
        let mut r = self;
        r.format.width = width;
        r
    }

    /// Sets the height of the widget.
    pub fn height(self, height: Length) -> (r: Self)
        ensures
            r.fragment() == self.fragment(),
            r.text_color() == self.text_color(),
            r.format() == (TextFormat { height: height, ..self.format() }),
    {
        let mut r = self;
        r.format.height = height;
        r
    }

    /// Sets the horizontal alignment of the text.
    pub fn align_x(self, alignment: TextAlignment) -> (r: Self)
        ensures
            r.fragment() == self.fragment(),
            r.text_color() == self.text_color(),
            r.format() == (TextFormat { align_x: alignment, ..self.format() }),
    {
        let mut r = self;
        r.format.align_x = alignment;
        r
    }

    /// Sets the vertical alignment of the text.
    pub fn align_y(self, alignment: VerticalAlignment) -> (r: Self)
        ensures
            r.fragment() == self.fragment(),
            r.text_color() == self.text_color(),
            r.format() == (TextFormat { align_y: alignment, ..self.format() }),
    {
        let mut r = self;
        r.format.align_y = alignment;
        r
    }

    /// Sets how glyphs are shaped.
    pub fn shaping(self, shaping: Shaping) -> (r: Self)
        ensures
            r.fragment() == self.fragment(),
            r.text_color() == self.text_color(),
            r.format() == (TextFormat { shaping: shaping, ..self.format() }),
    {
        let mut r = self;
        r.format.shaping = shaping;
        r
    }

    /// Sets how the text wraps.
    pub fn wrapping(self, wrapping: Wrapping) -> (r: Self)
        ensures
            r.fragment() == self.fragment(),
            r.text_color() == self.text_color(),
            r.format() == (TextFormat { wrapping: wrapping, ..self.format() }),
    {
        let mut r = self;
        r.format.wrapping = wrapping;
        r
    }

    /// Centers the text both ways.
    pub fn center(self) -> (r: Self)
        ensures
            r.fragment() == self.fragment(),
            r.text_color() == self.text_color(),
            r.format() == (TextFormat {
                align_x: TextAlignment::Center,
                align_y: VerticalAlignment::Center,
                ..self.format()
            }),
    {
        self.align_x(TextAlignment::Center).align_y(VerticalAlignment::Center)
    }

    /// Draws the text in `color`.
    pub fn color(self, color: Color) -> (r: Self)
        ensures
            r.fragment() == self.fragment(),
            r.format() == self.format(),
            r.text_color() == Some(color),
    {
        self.color_maybe(Some(color))
    }

    /// Draws the text in `color`, or in the theme's color when there is none.
    pub fn color_maybe(self, color: Option<Color>) -> (r: Self)
        ensures
            r.fragment() == self.fragment(),
            r.format() == self.format(),
            r.text_color() == color,
    {
        let mut r = self;
        r.color = color;
        r
    }

    /// The text to show when it does not fit: `end` is the offset, in
    /// characters, of the first character that falls outside the bounds, and
    /// `cut` the offset where the text is cut to make room for the ellipsis.
    /// Nothing when the whole text fits.
    pub fn ellipsized(&self, end: usize, cut: usize) -> (r: Option<String>)
        ensures
            match ellipsis_of(self.fragment(), end as nat, cut as nat) {
                Some(t) => r is Some && r->0@ == t,
                None => r is None,
            },
    {
        let chars = chars_of(self.fragment.as_str());
        if end >= chars.len() {
            return None;
        }
        let cut = if cut < chars.len() {
            cut
        } else {
            chars.len()
        };
        let kept = copy_range(&chars, 0, cut);
        let trimmed_text = trim(&kept);
        let mut text = trim_trailing_punct(&trimmed_text);
        text.push('.');
        text.push('.');
        text.push('.');
        proof {
            assert(kept@ == self.fragment().take(cut as int));
            assert(text@ =~= without_trailing_punct(trimmed(self.fragment().take(cut as int))) + seq!['.', '.', '.']);
        }
        Some(string_of(&text))
    }

    /// The text shown.
    pub fn text(&self) -> (r: &str)
        ensures
            r@ == self.fragment(),
    {
        self.fragment.as_str()
    }

    /// How the text is laid out.
    pub fn text_format(&self) -> (r: TextFormat)
        ensures
            r == self.format(),
    {
        self.format
    }

    /// The color of the text, if one was chosen.
    pub fn chosen_color(&self) -> (r: Option<Color>)
        ensures
            r == self.text_color(),
    {
        self.color
    }
}

} // verus!
