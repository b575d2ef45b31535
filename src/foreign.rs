//! Types and functions of other crates that this library relies on, with
//! what it assumes of them.
use iced_core::text::LineHeight;
use iced_core::{Color, Font, Length, Pixels};
use indexmap::IndexMap;
use rand::Rng;
use vstd::prelude::*;

verus! {

/// A point of the plane, carried for the rendering side and never read here.
#[verifier::external_type_specification]
#[verifier::external_body]
#[verifier::reject_recursive_types(T)]
pub struct ExPoint<T>(iced_core::Point<T>);

/// A size, carried for the rendering side and never read here.
#[verifier::external_type_specification]
#[verifier::external_body]
#[verifier::reject_recursive_types(T)]
pub struct ExSize<T>(iced_core::Size<T>);

/// An insertion-ordered hash map.
#[verifier::external_type_specification]
#[verifier::external_body]
#[verifier::reject_recursive_types(K)]
#[verifier::reject_recursive_types(V)]
#[verifier::reject_recursive_types(S)]
pub struct ExIndexMap<K, V, S>(IndexMap<K, V, S>);

/// The entries of an index from node ids to positions.
pub uninterp spec fn slot_entries(m: IndexMap<u64, usize>) -> Map<u64, usize>;

/// Relies on `IndexMap::new`: a new map holds no entry.
#[verifier::external_body]
pub(crate) fn new_slots() -> (r: IndexMap<u64, usize>)
    ensures
        slot_entries(r).dom().is_empty(),
{
    IndexMap::new()
}

/// Relies on `IndexMap::insert`: afterwards the key maps to the value, and
/// every other key keeps its entry.
#[verifier::external_body]
pub(crate) fn insert_slot(m: &mut IndexMap<u64, usize>, key: u64, value: usize)
    ensures
        slot_entries(*final(m)) == slot_entries(*old(m)).insert(key, value),
{
    m.insert(key, value);
}

/// Relies on `IndexMap::get`: the value of the key's entry, if it has one.
#[verifier::external_body]
pub(crate) fn get_slot(m: &IndexMap<u64, usize>, key: u64) -> (r: Option<usize>)
    ensures
        r == slot_entries(*m).get(key),
{
    m.get(&key).copied()
}


/// A size in logical pixels, carried for the rendering side.
#[verifier::external_type_specification]
#[verifier::external_body]
pub struct ExPixels(Pixels);

/// The height of a line of text, carried for the rendering side.
#[verifier::external_type_specification]
#[verifier::external_body]
pub struct ExLineHeight(LineHeight);

/// A length along one axis, carried for the rendering side.
#[verifier::external_type_specification]
#[verifier::external_body]
pub struct ExLength(Length);

/// A font, carried for the rendering side.
#[verifier::external_type_specification]
#[verifier::external_body]
pub struct ExFont(Font);

/// A color, carried for the rendering side.
#[verifier::external_type_specification]
#[verifier::external_body]
pub struct ExColor(Color);

/// Relies on `LineHeight::default`: the line height text gets unless told
/// otherwise.
#[verifier::external_body]
pub(crate) fn default_line_height() -> LineHeight {
    LineHeight::default()
}

/// Relies on `Length::Shrink`: the length that takes only the room the
/// content needs.
#[verifier::external_body]
pub(crate) fn shrink() -> Length {
    Length::Shrink
}

/// Whether a character has the Unicode `White_Space` property.
pub open spec fn is_white_space(c: char) -> bool {
    let u = c as u32;
    (0x9 <= u && u <= 0xd) || u == 0x20 || u == 0x85 || u == 0xa0 || u == 0x1680 || (0x2000 <= u && u
        <= 0x200a) || u == 0x2028 || u == 0x2029 || u == 0x202f || u == 0x205f || u == 0x3000
}

/// Relies on `char::is_whitespace`: true exactly for the characters with the
/// Unicode `White_Space` property.
#[verifier::external_body]
pub(crate) fn is_whitespace(c: char) -> (r: bool)
    ensures
        r == is_white_space(c),
{
    c.is_whitespace()
}

/// Relies on `str::chars`: the characters of the string, in order.
#[verifier::external_body]
pub(crate) fn chars_of(s: &str) -> (r: Vec<char>)
    ensures
        r@ == s@,
{
    s.chars().collect()
}

/// Relies on `String`'s `FromIterator<char>`: the string of the characters,
/// in order.
#[verifier::external_body]
pub(crate) fn string_of(chars: &Vec<char>) -> (r: String)
    ensures
        r@ == chars@,
{
    chars.iter().collect()
}

/// Relies on `rand::rng` and `Rng::random_range`: a letter drawn at random
/// from `'a'` to `'z'`, both included.
#[verifier::external_body]
pub(crate) fn random_letter() -> (r: char)
    ensures
        'a' <= r <= 'z',
{
    rand::rng().random_range('a'..='z')
}

} // verus!
