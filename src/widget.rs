//! Widgets, and the dataflow graph behind a node editor.
pub mod graph_laws;
pub mod node_editor;
pub mod text;
mod diffused_text;
mod dynamic_text;
mod ellipsized_text;
mod typewriter;

pub use diffused_text::DiffusedText;
pub use dynamic_text::DynamicText;
pub use ellipsized_text::EllipsizedText;
pub use typewriter::Typewriter;

use vstd::prelude::*;

use text::{Shaping, TextAlignment, VerticalAlignment, Wrapping};

verus! {

/// Text that appears one character at a time.
pub fn typewriter(fragment: &str) -> (r: Typewriter)
    ensures
        r.fragment() == fragment@,
        r.format().size is None,
        r.format().font is None,
        r.format().align_x == TextAlignment::Default,
        r.format().align_y == VerticalAlignment::Top,
        r.format().shaping == Shaping::Auto,
        r.format().wrapping == Wrapping::Word,
        r.millis_per_char() == 20,
        r.text_color() is None,
{
    Typewriter::new(fragment)
}

/// Text that ends in an ellipsis when it does not fit.
pub fn ellipsized_text(fragment: &str) -> (r: EllipsizedText)
    ensures
        r.fragment() == fragment@,
        r.format().size is None,
        r.format().font is None,
        r.format().align_x == TextAlignment::Default,
        r.format().align_y == VerticalAlignment::Top,
        r.format().shaping == Shaping::Auto,
        r.format().wrapping == Wrapping::Word,
        r.text_color() is None,
{
    EllipsizedText::new(fragment)
}

/// Text that can be drawn as vector paths.
pub fn dynamic_text(fragment: &str) -> (r: DynamicText)
    ensures
        r.fragment() == fragment@,
        r.format().size is None,
        r.format().font is None,
        r.format().align_x == TextAlignment::Default,
        r.format().align_y == VerticalAlignment::Top,
        r.format().shaping == Shaping::Basic,
        r.format().wrapping == Wrapping::Word,
        r.is_vectorial() == false,
        r.text_color() is None,
{
    DynamicText::new(fragment)
}

/// Text that settles out of random letters.
pub fn diffused_text(fragment: &str) -> (r: DiffusedText)
    ensures
        r.fragment() == fragment@,
        r.format().size is None,
        r.format().font is None,
        r.format().align_x == TextAlignment::Default,
        r.format().align_y == VerticalAlignment::Top,
        r.format().shaping == Shaping::Auto,
        r.format().wrapping == Wrapping::Word,
        r.total_millis() == 200,
        r.tick_millis() == 50,
        r.text_color() is None,
{
    DiffusedText::new(fragment)
}

} // verus!
