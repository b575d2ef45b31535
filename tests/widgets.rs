use iced_core::text::LineHeight;
use iced_core::{Color, Length, Pixels};
use iced_palace::widget::text::{Shaping, TextAlignment, TextFormat, VerticalAlignment, Wrapping};
use iced_palace::widget::{diffused_text, ellipsized_text, typewriter, DiffusedText, EllipsizedText, Typewriter};

#[test]
fn default_format() {
    let format = TextFormat::default();
    assert_eq!(format.size, None);
    assert_eq!(format.font, None);
    assert_eq!(format.width, Length::Shrink);
    assert_eq!(format.height, Length::Shrink);
    assert_eq!(format.line_height, LineHeight::default());
    assert_eq!(format.align_x, TextAlignment::Default);
    assert_eq!(format.align_y, VerticalAlignment::Top);
    assert_eq!(format.shaping, Shaping::Auto);
    assert_eq!(format.wrapping, Wrapping::Word);
}

#[test]
fn typewriter_builders_set_their_field() {
    let t = typewriter("Hello")
        .size(Pixels(14.0))
        .width(Length::Fill)
        .wrapping(Wrapping::Glyph)
        .shaping(Shaping::Advanced)
        .center()
        .color(Color::WHITE)
        .slow();
    assert_eq!(t.typed(0), Some(String::new()));
    assert_eq!(t.visible_chars(80), Some(2));
}

#[test]
fn typewriter_types_one_character_per_tick() {
    let t = Typewriter::new("Hello, world");
    assert_eq!(t.visible_chars(0), Some(0));
    assert_eq!(t.visible_chars(19), Some(0));
    assert_eq!(t.visible_chars(100), Some(5));
    assert_eq!(t.typed(100), Some("Hello".to_string()));
    assert_eq!(t.typed(140), Some("Hello,".to_string()));
    assert_eq!(t.typed(239), Some("Hello, worl".to_string()));
    assert_eq!(t.typed(240), None);
    assert_eq!(t.visible_chars(240), None);
}

#[test]
fn typewriter_speeds() {
    let t = Typewriter::new("abcdefghij");
    assert_eq!(t.visible_chars(35), Some(1));
    let t = t.very_quick();
    assert_eq!(t.visible_chars(35), Some(3));
    let t = t.quick();
    assert_eq!(t.visible_chars(35), Some(1));
    let t = t.very_slow();
    assert_eq!(t.visible_chars(170), Some(2));
    let t = t.speed(0);
    assert_eq!(t.visible_chars(0), None);
}

#[test]
fn typewriter_trims_leading_white_space() {
    let t = Typewriter::new("  \tab").very_quick();
    assert_eq!(t.typed(30), Some(String::new()));
    assert_eq!(t.typed(40), Some("a".to_string()));
}

#[test]
fn typewriter_counts_characters_not_bytes() {
    let t = Typewriter::new("héé");
    assert_eq!(t.typed(40), Some("hé".to_string()));
    assert_eq!(t.typed(60), None);
}

#[test]
fn ellipsis_replaces_what_does_not_fit() {
    let text = ellipsized_text("Hello, world. Again");
    assert_eq!(text.ellipsized(5, 7), Some("Hello...".to_string()));
    assert_eq!(text.ellipsized(15, 13), Some("Hello, world...".to_string()));
    assert_eq!(text.ellipsized(18, 100), Some("Hello, world. Again...".to_string()));
    assert_eq!(text.ellipsized(19, 3), None);
    assert_eq!(text.ellipsized(0, 0), Some("...".to_string()));
}

#[test]
fn ellipsized_builders() {
    let text = EllipsizedText::new(" a b ")
        .line_height(LineHeight::default())
        .height(Length::Fill)
        .align_x(TextAlignment::Right)
        .align_y(VerticalAlignment::Bottom)
        .font(iced_core::Font::MONOSPACE)
        .color_maybe(None);
    assert_eq!(text.ellipsized(3, 4), Some("a b...".to_string()));
}

#[test]
fn diffusion_settles_over_time() {
    let text = diffused_text("ab cd-ef");
    assert_eq!(text.settled_chars(0), Some(0));
    assert_eq!(text.settled_chars(1), Some(2));
    assert_eq!(text.settled_chars(3), Some(6));
    assert_eq!(text.settled_chars(4), None);
    let letters: Vec<char> = "zzzzzzzz".chars().collect();
    assert_eq!(text.diffused_with(1, &letters), Some("ab zz-zz".to_string()));
    assert_eq!(text.diffused_with(3, &letters), Some("ab cd-zz".to_string()));
    assert_eq!(text.diffused_with(4, &letters), None);
}

#[test]
fn diffusion_uses_random_letters() {
    let text = DiffusedText::new("abcd efgh").duration(1000).tick_rate(100);
    let shown = text.diffused(1).unwrap();
    let chars: Vec<char> = shown.chars().collect();
    assert_eq!(chars.len(), 9);
    assert_eq!(chars[4], ' ');
    for (i, c) in chars.iter().enumerate() {
        if i != 4 {
            assert!(c.is_ascii_lowercase());
        }
    }
    assert_eq!(text.diffused(10), None);
}

#[test]
fn diffusion_speeds() {
    let text = DiffusedText::new("abcdefghij").very_quick();
    assert_eq!(text.settled_chars(1), Some(5));
    let text = text.quick();
    assert_eq!(text.settled_chars(1), Some(2));
    let text = text.slow();
    assert_eq!(text.settled_chars(1), Some(1));
    let text = text.very_slow();
    assert_eq!(text.settled_chars(1), Some(1));
    assert_eq!(text.settled_chars(9), Some(9));
    assert_eq!(text.settled_chars(10), None);
    let text = text.duration(0);
    assert_eq!(text.settled_chars(0), None);
}

#[test]
fn empty_texts_are_done_at_once() {
    assert_eq!(Typewriter::new("").typed(0), None);
    assert_eq!(EllipsizedText::new("").ellipsized(0, 0), None);
    let letters: Vec<char> = Vec::new();
    assert_eq!(DiffusedText::new("").diffused_with(0, &letters), None);
}

#[test]
fn dynamic_text_builders() {
    let text = iced_palace::widget::dynamic_text("Hi").vectorial(true).center();
    assert!(text.draws_paths());
    assert_eq!(text.text(), "Hi");
    assert_eq!(text.text_format().align_x, TextAlignment::Center);
    assert_eq!(text.text_format().align_y, VerticalAlignment::Center);
    assert_eq!(text.text_format().shaping, Shaping::Basic);
    assert_eq!(text.chosen_color(), None);
}
