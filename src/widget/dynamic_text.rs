//! Text that can be drawn as vector paths.
use iced_core::text::LineHeight;
use iced_core::{Color, Font, Length, Pixels};
use vstd::prelude::*;

use crate::widget::text::{Shaping, TextAlignment, TextFormat, VerticalAlignment, Wrapping};

verus! {

/// Text whose glyphs can be drawn as vector paths, so that it scales and
/// rotates smoothly.
#[derive(Debug)]
pub struct DynamicText {
    fragment: String,
    format: TextFormat,
    color: Option<Color>,
    vectorial: bool,
}

impl DynamicText {
    /// The text shown.
    pub closed spec fn fragment(&self) -> Seq<char> {
        self.fragment@
    }

    /// How the text is laid out.
    pub closed spec fn format(&self) -> TextFormat {
        self.format
    }

    /// The color of the text; the theme's when there is none.
    pub closed spec fn text_color(&self) -> Option<Color> {
        self.color
    }

    /// Whether the glyphs are drawn as vector paths.
    pub closed spec fn is_vectorial(&self) -> bool {
        self.vectorial
    }

    /// Shows `fragment` with the default format and color.
    pub fn new(fragment: &str) -> (r: Self)
        ensures
            r.fragment() == fragment@,
            r.format().size is None,
            r.format().font is None,
            r.format().align_x == TextAlignment::Default,
            r.format().align_y == VerticalAlignment::Top,
            r.format().shaping == Shaping::Basic,
            r.format().wrapping == Wrapping::Word,
            r.text_color() is None,
            r.is_vectorial() == false,
    {
        DynamicText {
            fragment: fragment.to_owned(),
            format: TextFormat { shaping: Shaping::Basic, ..TextFormat::default() },
            color: None,
            vectorial: false,
        }
    }

    /// Sets the font size.
    pub fn size(self, size: Pixels) -> (r: Self)
        ensures
            r.fragment() == self.fragment(),
            r.text_color() == self.text_color(),
            r.is_vectorial() == self.is_vectorial(),
            r.format() == (TextFormat { size: Some(size), ..self.format() }),
    {
        let mut r = self;
        r.format.size = Some(size);
        r
    }

    /// Sets the line height.
    pub fn line_height(self, line_height: LineHeight) -> (r: Self)
        ensures
            r.fragment() == self.fragment(),
            r.text_color() == self.text_color(),
            r.is_vectorial() == self.is_vectorial(),
            r.format() == (TextFormat { line_height: line_height, ..self.format() }),
    {
        let mut r = self;
        r.format.line_height = line_height;
        r
    }

    /// Sets the font.
    pub fn font(self, font: Font) -> (r: Self)
        ensures
            r.fragment() == self.fragment(),
            r.text_color() == self.text_color(),
            r.is_vectorial() == self.is_vectorial(),
            r.format() == (TextFormat { font: Some(font), ..self.format() }),
    {
        let mut r = self;
        r.format.font = Some(font);
        r
    }

    /// Sets the width of the widget.
    pub fn width(self, width: Length) -> (r: Self)
        ensures
            r.fragment() == self.fragment(),
            r.text_color() == self.text_color(),
            r.is_vectorial() == self.is_vectorial(),
            r.format() == (TextFormat { width: width, ..self.format() }),
    {
        let mut r = self;
        r.format.width = width;
        r
    }

    /// Sets the height of the widget.
    pub fn height(self, height: Length) -> (r: Self)
        ensures
            r.fragment() == self.fragment(),
            r.text_color() == self.text_color(),
            r.is_vectorial() == self.is_vectorial(),
            r.format() == (TextFormat { height: height, ..self.format() }),
    {
        let mut r = self;
        r.format.height = height;
        r
    }

    /// Sets the horizontal alignment of the text.
    pub fn align_x(self, alignment: TextAlignment) -> (r: Self)
        ensures
            r.fragment() == self.fragment(),
            r.text_color() == self.text_color(),
            r.is_vectorial() == self.is_vectorial(),
            r.format() == (TextFormat { align_x: alignment, ..self.format() }),
    {
        let mut r = self;
        r.format.align_x = alignment;
        r
    }

    /// Sets the vertical alignment of the text.
    pub fn align_y(self, alignment: VerticalAlignment) -> (r: Self)
        ensures
            r.fragment() == self.fragment(),
            r.text_color() == self.text_color(),
            r.is_vectorial() == self.is_vectorial(),
            r.format() == (TextFormat { align_y: alignment, ..self.format() }),
    {
        let mut r = self;
        r.format.align_y = alignment;
        r
    }

    /// Sets how glyphs are shaped.
    pub fn shaping(self, shaping: Shaping) -> (r: Self)
        ensures
            r.fragment() == self.fragment(),
            r.text_color() == self.text_color(),
            r.is_vectorial() == self.is_vectorial(),
            r.format() == (TextFormat { shaping: shaping, ..self.format() }),
    {
        let mut r = self;
        r.format.shaping = shaping;
        r
    }

    /// Centers the text both ways.
    pub fn center(self) -> (r: Self)
        ensures
            r.fragment() == self.fragment(),
            r.text_color() == self.text_color(),
            r.is_vectorial() == self.is_vectorial(),
            r.format() == (TextFormat {
                align_x: TextAlignment::Center,
                align_y: VerticalAlignment::Center,
                ..self.format()
            }),
    {
        self.align_x(TextAlignment::Center).align_y(VerticalAlignment::Center)
    }

    /// Draws the text in `color`.
    pub fn color(self, color: Color) -> (r: Self)
        ensures
            r.fragment() == self.fragment(),
            r.is_vectorial() == self.is_vectorial(),
            r.format() == self.format(),
            r.text_color() == Some(color),
    {
        self.color_maybe(Some(color))
    }

    /// Draws the text in `color`, or in the theme's color when there is none.
    pub fn color_maybe(self, color: Option<Color>) -> (r: Self)
        ensures
            r.fragment() == self.fragment(),
            r.is_vectorial() == self.is_vectorial(),
            r.format() == self.format(),
            r.text_color() == color,
    {
        let mut r = self;
        r.color = color;
        r
    }

    /// Draws the glyphs as vector paths instead of as text.
    pub fn vectorial(self, vectorial: bool) -> (r: Self)
        ensures
            r.fragment() == self.fragment(),
            r.format() == self.format(),
            r.text_color() == self.text_color(),
            r.is_vectorial() == vectorial,
    {
        let mut r = self;
        r.vectorial = vectorial;
        r
    }

    /// The text shown.
    pub fn text(&self) -> (r: &str)
        ensures
            r@ == self.fragment(),
    {
        self.fragment.as_str()
    }

    /// How the text is laid out.
    pub fn text_format(&self) -> (r: TextFormat)
        ensures
            r == self.format(),
    {
        self.format
    }

    /// The color of the text, if one was chosen.
    pub fn chosen_color(&self) -> (r: Option<Color>)
        ensures
            r == self.text_color(),
    {
        self.color
    }

    /// Whether the glyphs are drawn as vector paths.
    pub fn draws_paths(&self) -> (r: bool)
        ensures
            r == self.is_vectorial(),
    {
        self.vectorial
    }
}

} // verus!
