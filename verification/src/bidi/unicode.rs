//! The Unicode services that text reconstruction relies on: character
//! properties from std, NFKC from `unicode-normalization`, and the bidi
//! orderings computed by `unicode-bidi`.  Each is reached through a small
//! trusted item whose contract names what the service returns; the
//! `White_Space` test, a short list of code points, is written out here.
use vstd::prelude::*;
use unicode_bidi::BidiInfo;
use unicode_bidi::Level;
use unicode_normalization::UnicodeNormalization;
use crate::bidi::text::concat_all;

verus! {

/// Whether `c` has the Unicode `White_Space` property (what `char::is_whitespace`
/// answers): the characters that the Unicode Character Database lists with
/// that property in `PropList.txt`.
pub open spec fn unicode_white_space(c: char) -> bool {
    let v = c as u32;
    (0x09 <= v <= 0x0D) || v == 0x20 || v == 0x85 || v == 0xA0 || v == 0x1680 || (0x2000 <= v <= 0x200A)
        || v == 0x2028 || v == 0x2029 || v == 0x202F || v == 0x205F || v == 0x3000
}

/// Every character of `s` is ASCII.
pub open spec fn all_ascii(s: Seq<char>) -> bool {
    forall|i: int| 0 <= i < s.len() ==> (#[trigger] s[i]) as u32 <= 0x7F
}

/// Whether `c` has the Unicode `Alphabetic` property (what `char::is_alphabetic` answers).
pub uninterp spec fn unicode_alphabetic(c: char) -> bool;

/// Whether `c` is in a numeric general category `Nd`, `Nl` or `No` (what `char::is_numeric` answers).
pub uninterp spec fn unicode_numeric(c: char) -> bool;

/// The NFKC normal form of `text`, as `unicode-normalization` computes it.
pub uninterp spec fn nfkc(text: Seq<char>) -> Seq<char>;

/// The visual-to-logical index map that `unicode-bidi` gives to the UTF-16 text
/// `units` when its paragraph level is forced to `level`: the levels resolved
/// by `utf16::BidiInfo::new`, adjusted by rule L1, reordered by rule L2.
pub uninterp spec fn unicode_bidi_visual_map(units: Seq<u16>, level: u8) -> Seq<usize>;

/// The visual-to-logical character order that `unicode-bidi` gives to `text`
/// under the default paragraph direction: the resolved level of each
/// character's first byte, reordered by rule L2.
pub uninterp spec fn unicode_bidi_char_order(text: Seq<char>) -> Seq<usize>;

/// The display order, one entry per paragraph, that `BidiInfo::reorder_line`
/// gives to each paragraph of `text` under the default paragraph direction.
pub uninterp spec fn unicode_bidi_reordered_paragraphs(text: Seq<char>) -> Seq<Seq<char>>;

/// Whether `c` has the Unicode `White_Space` property, tested code point by
/// code point against the list above.
pub(crate) fn char_is_whitespace(c: char) -> (r: bool)
    ensures
        r == unicode_white_space(c),
{
    let v = c as u32;
    (0x09 <= v && v <= 0x0D) || v == 0x20 || v == 0x85 || v == 0xA0 || v == 0x1680 || (0x2000 <= v && v
        <= 0x200A) || v == 0x2028 || v == 0x2029 || v == 0x202F || v == 0x205F || v == 0x3000
}

/// Calls `char::is_alphabetic`; its value is named, nothing more is claimed.
#[verifier::external_body]
pub(crate) fn char_is_alphabetic(c: char) -> (r: bool)
    ensures
        r == unicode_alphabetic(c),
{
    c.is_alphabetic()
}

/// Calls `char::is_numeric`; its value is named, nothing more is claimed.
#[verifier::external_body]
pub(crate) fn char_is_numeric(c: char) -> (r: bool)
    ensures
        r == unicode_numeric(c),
{
    c.is_numeric()
}

/// Whether `c` is alphabetic or numeric, which is what std documents
/// `char::is_alphanumeric` to answer.
pub(crate) fn char_is_alphanumeric(c: char) -> (r: bool)
    ensures
        r == (unicode_alphabetic(c) || unicode_numeric(c)),
{
    char_is_alphabetic(c) || char_is_numeric(c)
}

/// Calls `char::from_u32`, which std documents to return `None` exactly when
/// `v` is not a Unicode scalar value (above `0x10FFFF` or a surrogate).
#[verifier::external_body]
pub(crate) fn char_from_u32(v: u32) -> (r: Option<char>)
    ensures
        r is Some <==> (v <= 0x10FFFF && !(0xD800 <= v <= 0xDFFF)),
        r matches Some(c) ==> c as u32 == v,
{
    char::from_u32(v)
}

/// Calls `String::push`, which appends one character.
#[verifier::external_body]
pub(crate) fn string_push(s: &mut String, c: char)
    ensures
        final(s)@ == old(s)@.push(c),
{
    s.push(c);
}

/// Calls `UnicodeNormalization::nfkc` on the one-character string `c`.
#[verifier::external_body]
pub(crate) fn nfkc_char(c: char) -> (r: Vec<char>)
    ensures
        r@ == nfkc(seq![c]),
{
    let mut buffer = [0u8; 4];
    c.encode_utf8(&mut buffer).nfkc().collect()
}

/// Calls `UnicodeNormalization::nfkc` on `text`.
#[verifier::external_body]
pub(crate) fn nfkc_str(text: &str) -> (r: String)
    ensures
        r@ == nfkc(text@),
{
    text.nfkc().collect()
}

/// Calls `unicode_bidi::utf16::BidiInfo::new` with the paragraph level forced to
/// `level`, `reordered_levels` over the whole text, then `reorder_visual`.  The
/// crate documents `reorder_visual` as returning an index map with one entry
/// per level, `map[visual] == logical`; its source builds a permutation of
/// `0..units.len()`.  The library recovers the logical order of visual text
/// from this forward reordering; it uses no inverse-bidi engine, and nothing
/// here claims that the two agree on every input.
#[verifier::external_body]
pub(crate) fn bidi_visual_map(units: &Vec<u16>, level: u8) -> (map: Vec<usize>)
    requires
        level <= 1,
    ensures
        map@ == unicode_bidi_visual_map(units@, level),
        map.len() == units.len(),
        forall|i: int| 0 <= i < map.len() ==> map[i] < units.len(),
{
    let info = unicode_bidi::utf16::BidiInfo::new(units, Level::new(level).ok());
    let levels = match info.paragraphs.first() {
        Some(para) => info.reordered_levels(para, 0..units.len()),
        None => info.levels.clone(),
    };
    unicode_bidi::utf16::BidiInfo::reorder_visual(&levels)
}

/// Calls `BidiInfo::new(text, None)`, takes the level of each character from
/// its first byte, and calls `BidiInfo::reorder_visual`, whose index map has
/// one entry per level and, in its source, is a permutation of the indices.
#[verifier::external_body]
pub(crate) fn bidi_char_order(text: &Vec<char>) -> (order: Vec<usize>)
    ensures
        order@ == unicode_bidi_char_order(text@),
        order.len() == text.len(),
        forall|i: int| 0 <= i < order.len() ==> order[i] < text.len(),
{
    let text: String = text.iter().collect();
    let info = BidiInfo::new(&text, None);
    let levels: Vec<Level> = text.char_indices().map(|(index, _)| info.levels[index]).collect();
    BidiInfo::reorder_visual(&levels)
}

/// Calls `BidiInfo::new(text, None)` and `BidiInfo::reorder_line` on each
/// paragraph over the paragraph's whole range, in paragraph order.  In the
/// crate's source the paragraphs cover `text` end to end, and `reorder_line`
/// gives back a paragraph's level runs in another order, each run kept or
/// reversed character by character; so the paragraphs together hold the
/// characters of `text`, each as often as `text` does.  For text made of ASCII
/// characters alone no level comes out right to left: ASCII holds no strong
/// right-to-left or Arabic-number class and no explicit embedding, so each
/// paragraph has level 0, digits and their separators after the paragraph
/// start resolve to left-to-right (rule W7), and neutrals take the embedding
/// direction; `reorder_line` then returns each paragraph's text as it is, and
/// the paragraphs together are `text`.  Which order other text comes in is
/// named, not stated.
#[verifier::external_body]
pub(crate) fn bidi_reordered_paragraphs(text: &str) -> (r: Vec<String>)
    ensures
        r@.map_values(|p: String| p@) == unicode_bidi_reordered_paragraphs(text@),
        concat_all(r@.map_values(|p: String| p@)).to_multiset() == text@.to_multiset(),
        all_ascii(text@) ==> concat_all(r@.map_values(|p: String| p@)) == text@,
{
    let info = BidiInfo::new(text, None);
    info.paragraphs.iter().map(|para| info.reorder_line(para, para.range.clone()).into_owned()).collect()
}

} // verus!
