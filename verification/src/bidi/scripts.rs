//! Script classification and the choice of a line's base direction.
use vstd::prelude::*;
use crate::bidi::unicode::{
    char_is_alphabetic, char_is_alphanumeric, char_is_numeric, char_is_whitespace, unicode_alphabetic,
    unicode_numeric, unicode_white_space,
};

verus! {

/// The base direction selected for a reconstructed line.
#[derive(Debug, Clone, Copy, PartialEq, Eq, Structural)]
pub enum BaseDirection {
    Ltr,
    Rtl,
}

/// How much source evidence supports the reconstructed order.
#[derive(Debug, Clone, Copy, PartialEq, Eq, Structural)]
pub enum ReconstructionConfidence {
    Exact,
    Inferred,
    Ambiguous,
}

pub open spec fn in_block(c: char, lo: u32, hi: u32) -> bool {
    lo <= (c as u32) <= hi
}

/// Arabic, Arabic Supplement, Extended-B/A, presentation forms, Rumi numerals
/// and the Arabic mathematical alphabet.
pub open spec fn spec_is_arabic(c: char) -> bool {
    ||| in_block(c, 0x0600, 0x06FF)
    ||| in_block(c, 0x0750, 0x077F)
    ||| in_block(c, 0x0870, 0x089F)
    ||| in_block(c, 0x08A0, 0x08FF)
    ||| in_block(c, 0xFB50, 0xFDFF)
    ||| in_block(c, 0xFE70, 0xFEFF)
    ||| in_block(c, 0x10E60, 0x10E7F)
    ||| in_block(c, 0x1EE00, 0x1EEFF)
}

/// Arabic or Hebrew (including the Hebrew presentation forms).
pub open spec fn spec_is_rtl_script(c: char) -> bool {
    spec_is_arabic(c) || in_block(c, 0x0590, 0x05FF) || in_block(c, 0xFB1D, 0xFB4F)
}

pub open spec fn spec_is_arabic_presentation_form(c: char) -> bool {
    in_block(c, 0xFB50, 0xFDFF) || in_block(c, 0xFE70, 0xFEFF)
}

/// Letters and digits outside the right-to-left scripts.
pub open spec fn spec_is_ltr_content(c: char) -> bool {
    !spec_is_rtl_script(c) && (unicode_alphabetic(c) || unicode_numeric(c))
}

pub open spec fn spec_is_ltr_affix(c: char) -> bool {
    c == '.' || c == '-' || c == '_' || c == '#' || c == '@' || c == '%'
}

pub open spec fn has_rtl_script(s: Seq<char>) -> bool {
    exists|i: int| 0 <= i < s.len() && spec_is_rtl_script(#[trigger] s[i])
}

pub open spec fn has_presentation_form(s: Seq<char>) -> bool {
    exists|i: int| 0 <= i < s.len() && spec_is_arabic_presentation_form(#[trigger] s[i])
}

pub fn is_arabic(ch: char) -> (r: bool)
    ensures
        r == spec_is_arabic(ch),
{
    let v = ch as u32;
    (0x0600 <= v && v <= 0x06FF) || (0x0750 <= v && v <= 0x077F) || (0x0870 <= v && v <= 0x089F)
        || (0x08A0 <= v && v <= 0x08FF) || (0xFB50 <= v && v <= 0xFDFF) || (0xFE70 <= v && v
        <= 0xFEFF) || (0x10E60 <= v && v <= 0x10E7F) || (0x1EE00 <= v && v <= 0x1EEFF)
}

pub fn is_rtl_script(ch: char) -> (r: bool)
    ensures
        r == spec_is_rtl_script(ch),
{
    let v = ch as u32;
    is_arabic(ch) || (0x0590 <= v && v <= 0x05FF) || (0xFB1D <= v && v <= 0xFB4F)
}

pub fn is_arabic_presentation_form(ch: char) -> (r: bool)
    ensures
        r == spec_is_arabic_presentation_form(ch),
{
    let v = ch as u32;
    (0xFB50 <= v && v <= 0xFDFF) || (0xFE70 <= v && v <= 0xFEFF)
}

pub fn is_ltr_content(ch: char) -> (r: bool)
    ensures
        r == spec_is_ltr_content(ch),
{
    !is_rtl_script(ch) && char_is_alphanumeric(ch)
}

pub fn is_ltr_affix(ch: char) -> (r: bool)
    ensures
        r == spec_is_ltr_affix(ch),
{
    ch == '.' || ch == '-' || ch == '_' || ch == '#' || ch == '@' || ch == '%'
}

pub fn contains_rtl_script(text: &[char]) -> (r: bool)
    ensures
        r == has_rtl_script(text@),
{
    let mut i: usize = 0;
    while i < text.len()
        invariant
            i <= text.len(),
            forall|j: int| 0 <= j < i ==> !spec_is_rtl_script(#[trigger] text@[j]),
        decreases text.len() - i,
    {
        if is_rtl_script(text[i]) {
            return true;
        }
        i += 1;
    }
    false
}

pub fn contains_arabic_presentation_forms(text: &[char]) -> (r: bool)
    ensures
        r == has_presentation_form(text@),
{
    let mut i: usize = 0;
    while i < text.len()
        invariant
            i <= text.len(),
            forall|j: int| 0 <= j < i ==> !spec_is_arabic_presentation_form(#[trigger] text@[j]),
        decreases text.len() - i,
    {
        if is_arabic_presentation_form(text[i]) {
            return true;
        }
        i += 1;
    }
    false
}

/// The state of a left-to-right scan for a whitespace-separated token that
/// holds both right-to-left script and left-to-right letters or digits.
pub open spec fn compact_scan(s: Seq<char>) -> (bool, bool, bool)
    decreases s.len(),
{
    if s.len() == 0 {
        (false, false, false)
    } else {
        let (found, rtl, ltr) = compact_scan(s.drop_last());
        let ch = s.last();
        if found {
            (true, rtl, ltr)
        } else if unicode_white_space(ch) {
            (rtl && ltr, false, false)
        } else if spec_is_rtl_script(ch) {
            (false, true, ltr)
        } else if spec_is_ltr_content(ch) {
            (false, rtl, true)
        } else {
            (false, rtl, ltr)
        }
    }
}

/// Whether some whitespace-separated token of `s` mixes right-to-left script
/// with left-to-right letters or digits.
pub open spec fn has_compact_mixed(s: Seq<char>) -> bool {
    let (found, rtl, ltr) = compact_scan(s);
    found || (rtl && ltr)
}

pub fn contains_compact_mixed_token(chars: &[char]) -> (r: bool)
    ensures
        r == has_compact_mixed(chars@),
{
    let mut has_rtl = false;
    let mut has_ltr = false;
    let mut i: usize = 0;
    while i < chars.len()
        invariant
            i <= chars.len(),
            compact_scan(chars@.take(i as int)) == (false, has_rtl, has_ltr),
        decreases chars.len() - i,
    {
        let ch = chars[i];
        assert(chars@.take(i + 1).drop_last() =~= chars@.take(i as int));
        if char_is_whitespace(ch) {
            if has_rtl && has_ltr {
                proof { lemma_compact_found_sticks(chars@, i as int + 1); }
                return true;
            }
            has_rtl = false;
            has_ltr = false;
        } else if is_rtl_script(ch) {
            has_rtl = true;
        } else if is_ltr_content(ch) {
            has_ltr = true;
        }
        i += 1;
    }
    assert(chars@.take(chars.len() as int) =~= chars@);
    has_rtl && has_ltr
}

/// Once the scan has found a mixed token, it keeps that answer.
pub proof fn lemma_compact_found_sticks(s: Seq<char>, k: int)
    requires
        0 <= k <= s.len(),
        compact_scan(s.take(k)).0,
    ensures
        compact_scan(s).0,
    decreases s.len() - k,
{
    if k < s.len() {
        assert(s.take(k + 1).drop_last() =~= s.take(k));
        lemma_compact_found_sticks(s, k + 1);
    } else {
        assert(s.take(k) =~= s);
    }
}

/// The state of the direction scan over a line: whether right-to-left script
/// and other letters were seen, the first strong direction, the numbers of
/// finished tokens with right-to-left and with left-to-right content, and
/// what the current token holds.
pub struct DirectionScan {
    pub has_rtl: bool,
    pub has_other_letters: bool,
    pub first_strong: Option<BaseDirection>,
    pub rtl_tokens: nat,
    pub ltr_tokens: nat,
    pub token_has_rtl: bool,
    pub token_has_ltr: bool,
}

pub open spec fn direction_step(st: DirectionScan, ch: char) -> DirectionScan {
    if unicode_white_space(ch) {
        DirectionScan {
            rtl_tokens: st.rtl_tokens + if st.token_has_rtl { 1nat } else { 0nat },
            ltr_tokens: st.ltr_tokens + if st.token_has_ltr { 1nat } else { 0nat },
            token_has_rtl: false,
            token_has_ltr: false,
            ..st
        }
    } else if spec_is_rtl_script(ch) {
        DirectionScan {
            has_rtl: true,
            token_has_rtl: true,
            first_strong: if st.first_strong is Some { st.first_strong } else { Some(BaseDirection::Rtl) },
            ..st
        }
    } else if unicode_alphabetic(ch) {
        DirectionScan {
            has_other_letters: true,
            token_has_ltr: true,
            first_strong: if st.first_strong is Some { st.first_strong } else { Some(BaseDirection::Ltr) },
            ..st
        }
    } else if unicode_numeric(ch) {
        DirectionScan { token_has_ltr: true, ..st }
    } else {
        st
    }
}

pub open spec fn direction_scan(s: Seq<char>) -> DirectionScan
    decreases s.len(),
{
    if s.len() == 0 {
        DirectionScan {
            has_rtl: false,
            has_other_letters: false,
            first_strong: None,
            rtl_tokens: 0,
            ltr_tokens: 0,
            token_has_rtl: false,
            token_has_ltr: false,
        }
    } else {
        direction_step(direction_scan(s.drop_last()), s.last())
    }
}

/// The base direction and confidence chosen for the characters `s`: a line
/// is right-to-left when its first strong character is right-to-left or it
/// has more tokens with right-to-left script than with left-to-right
/// content; it is ambiguous when it mixes both scripts in equal numbers of
/// tokens.
pub open spec fn base_direction_of(s: Seq<char>) -> (BaseDirection, ReconstructionConfidence) {
    let st = direction_scan(s);
    let rtl_tokens = st.rtl_tokens + if st.token_has_rtl { 1nat } else { 0nat };
    let ltr_tokens = st.ltr_tokens + if st.token_has_ltr { 1nat } else { 0nat };
    let direction = if st.first_strong == Some(BaseDirection::Rtl) || (st.has_rtl && rtl_tokens
        > ltr_tokens) {
        BaseDirection::Rtl
    } else {
        match st.first_strong {
            Some(d) => d,
            None => BaseDirection::Ltr,
        }
    };
    let confidence = if st.has_rtl && st.has_other_letters && rtl_tokens == ltr_tokens {
        ReconstructionConfidence::Ambiguous
    } else if st.has_rtl {
        ReconstructionConfidence::Inferred
    } else {
        ReconstructionConfidence::Exact
    };
    (direction, confidence)
}

proof fn lemma_scan_has_rtl(s: Seq<char>)
    ensures
        direction_scan(s).has_rtl == has_rtl_script(s),
        direction_scan(s).first_strong == Some(BaseDirection::Rtl) ==> direction_scan(s).has_rtl,
    decreases s.len(),
{
    if s.len() > 0 {
        lemma_scan_has_rtl(s.drop_last());
        if has_rtl_script(s.drop_last()) {
            let i = choose|i: int| 0 <= i < s.drop_last().len() && spec_is_rtl_script(#[trigger] s.drop_last()[i]);
            assert(s[i] == s.drop_last()[i]);
        }
        if has_rtl_script(s) && !spec_is_rtl_script(s.last()) {
            let i = choose|i: int| 0 <= i < s.len() && spec_is_rtl_script(#[trigger] s[i]);
            assert(i < s.len() - 1);
            assert(s.drop_last()[i] == s[i]);
        }
        if spec_is_rtl_script(s.last()) {
            assert(spec_is_rtl_script(s[s.len() - 1]));
        }
    }
}

/// A line is reconstructed with exact confidence exactly when it has no
/// right-to-left script, and such a line is left-to-right; a line whose
/// first strong character is right-to-left is right-to-left.
pub proof fn lemma_direction_of_plain_text(s: Seq<char>)
    ensures
        (base_direction_of(s).1 == ReconstructionConfidence::Exact) == !has_rtl_script(s),
        !has_rtl_script(s) ==> base_direction_of(s).0 == BaseDirection::Ltr,
        direction_scan(s).first_strong == Some(BaseDirection::Rtl) ==> base_direction_of(s).0
            == BaseDirection::Rtl,
{
    lemma_scan_has_rtl(s);
}

/// A character that gives its token left-to-right content: a letter or a
/// digit outside the right-to-left scripts.
pub open spec fn ltr_token_char(c: char) -> bool {
    !unicode_white_space(c) && !spec_is_rtl_script(c) && (unicode_alphabetic(c) || unicode_numeric(c))
}

/// A character that gives its token right-to-left script.
pub open spec fn rtl_token_char(c: char) -> bool {
    !unicode_white_space(c) && spec_is_rtl_script(c)
}

/// A strong character: a letter, or right-to-left script.
pub open spec fn strong_char(c: char) -> bool {
    !unicode_white_space(c) && (spec_is_rtl_script(c) || unicode_alphabetic(c))
}

/// A letter outside the right-to-left scripts.
pub open spec fn other_letter(c: char) -> bool {
    !unicode_white_space(c) && !spec_is_rtl_script(c) && unicode_alphabetic(c)
}

pub open spec fn ltr_p() -> spec_fn(char) -> bool {
    |c: char| ltr_token_char(c)
}

pub open spec fn rtl_p() -> spec_fn(char) -> bool {
    |c: char| rtl_token_char(c)
}

/// No white space from index `j` up to `n`.
pub open spec fn no_space_between(s: Seq<char>, j: int, n: int) -> bool {
    forall|m: int| j <= m < n ==> !unicode_white_space(#[trigger] s[m])
}

/// Index `i` is the first character with `p` in its whitespace-separated token.
pub open spec fn opens_token_with(s: Seq<char>, i: int, p: spec_fn(char) -> bool) -> bool {
    &&& p(s[i])
    &&& forall|j: int| 0 <= j < i && no_space_between(s, j, i) ==> !p(#[trigger] s[j])
}

/// The number of whitespace-separated tokens among the first `n`
/// characters that hold a character with `p`: each counted at its first
/// such character.
pub open spec fn tokens_with(s: Seq<char>, p: spec_fn(char) -> bool, n: int) -> nat
    decreases n,
{
    if n <= 0 {
        0
    } else {
        tokens_with(s, p, n - 1) + if opens_token_with(s, n - 1, p) {
            1nat
        } else {
            0nat
        }
    }
}

/// The token still open at `n` already holds a character with `p`.
pub open spec fn token_open(s: Seq<char>, p: spec_fn(char) -> bool, n: int) -> bool {
    exists|j: int| 0 <= j < n && p(s[j]) && no_space_between(s, j, n)
}

/// No strong character among the first `n`.
pub open spec fn no_strong_upto(s: Seq<char>, n: int) -> bool {
    forall|j: int| 0 <= j < n ==> !strong_char(#[trigger] s[j])
}

/// The first strong character among the first `n` is right-to-left.
pub open spec fn first_rtl_upto(s: Seq<char>, n: int) -> bool {
    exists|i: int| 0 <= i < n && #[trigger] strong_char(s[i]) && spec_is_rtl_script(s[i]) && no_strong_upto(s, i)
}

pub open spec fn rtl_upto(s: Seq<char>, n: int) -> bool {
    exists|j: int| 0 <= j < n && #[trigger] rtl_token_char(s[j])
}

pub open spec fn letters_upto(s: Seq<char>, n: int) -> bool {
    exists|j: int| 0 <= j < n && #[trigger] other_letter(s[j])
}

proof fn lemma_token_step(s: Seq<char>, p: spec_fn(char) -> bool, n: int)
    requires
        0 <= n < s.len(),
        forall|c: char| #[trigger] p(c) ==> !unicode_white_space(c),
    ensures
        unicode_white_space(s[n]) ==> !token_open(s, p, n + 1),
        !unicode_white_space(s[n]) ==> (token_open(s, p, n + 1) == (token_open(s, p, n) || p(s[n]))),
        tokens_with(s, p, n + 1) == tokens_with(s, p, n) + if p(s[n]) && !token_open(s, p, n) {
            1nat
        } else {
            0nat
        },
{
    if unicode_white_space(s[n]) {
        if token_open(s, p, n + 1) {
            let j = choose|j: int| 0 <= j < n + 1 && p(s[j]) && no_space_between(s, j, n + 1);
            assert(!unicode_white_space(s[n]));
        }
    } else {
        if token_open(s, p, n + 1) && !p(s[n]) {
            let j = choose|j: int| 0 <= j < n + 1 && p(s[j]) && no_space_between(s, j, n + 1);
            assert(j < n);
            assert(no_space_between(s, j, n));
        }
        if token_open(s, p, n) {
            let j = choose|j: int| 0 <= j < n && p(s[j]) && no_space_between(s, j, n);
            assert(no_space_between(s, j, n + 1));
        }
        if p(s[n]) {
            assert(no_space_between(s, n, n + 1));
        }
    }
    if p(s[n]) {
        if token_open(s, p, n) {
            let j = choose|j: int| 0 <= j < n && p(s[j]) && no_space_between(s, j, n);
            assert(!opens_token_with(s, n, p));
        } else {
            assert forall|j: int| 0 <= j < n && no_space_between(s, j, n) implies !p(#[trigger] s[j]) by {}
        }
    }
}

proof fn lemma_scan_by_tokens(s: Seq<char>, n: int)
    requires
        0 <= n <= s.len(),
    ensures
        ({
            let st = direction_scan(s.take(n));
            &&& st.ltr_tokens + (if st.token_has_ltr { 1nat } else { 0nat }) == tokens_with(s, ltr_p(), n)
            &&& st.token_has_ltr == token_open(s, ltr_p(), n)
            &&& st.rtl_tokens + (if st.token_has_rtl { 1nat } else { 0nat }) == tokens_with(s, rtl_p(), n)
            &&& st.token_has_rtl == token_open(s, rtl_p(), n)
            &&& st.has_rtl == rtl_upto(s, n)
            &&& st.has_other_letters == letters_upto(s, n)
            &&& (st.first_strong is None) == no_strong_upto(s, n)
            &&& (st.first_strong == Some(BaseDirection::Rtl)) == first_rtl_upto(s, n)
        }),
    decreases n,
{
    if n == 0 {
        assert(s.take(0) =~= Seq::<char>::empty());
        if token_open(s, ltr_p(), 0) {
            let j = choose|j: int| 0 <= j < 0 && ltr_p()(s[j]) && no_space_between(s, j, 0);
        }
        if token_open(s, rtl_p(), 0) {
            let j = choose|j: int| 0 <= j < 0 && rtl_p()(s[j]) && no_space_between(s, j, 0);
        }
    } else {
        let k = n - 1;
        lemma_scan_by_tokens(s, k);
        assert(s.take(n).drop_last() =~= s.take(k));
        assert(s.take(n).last() == s[k]);
        let c = s[k];
        lemma_token_step(s, ltr_p(), k);
        lemma_token_step(s, rtl_p(), k);
        // facts about one more character
        if rtl_upto(s, n) && !rtl_token_char(c) {
            let j = choose|j: int| 0 <= j < n && #[trigger] rtl_token_char(s[j]);
            assert(j < k);
        }
        if rtl_upto(s, k) {
            let j = choose|j: int| 0 <= j < k && #[trigger] rtl_token_char(s[j]);
            assert(rtl_upto(s, n));
        }
        if rtl_token_char(c) {
            assert(rtl_upto(s, n));
        }
        if letters_upto(s, n) && !other_letter(c) {
            let j = choose|j: int| 0 <= j < n && #[trigger] other_letter(s[j]);
            assert(j < k);
        }
        if letters_upto(s, k) {
            let j = choose|j: int| 0 <= j < k && #[trigger] other_letter(s[j]);
            assert(letters_upto(s, n));
        }
        if other_letter(c) {
            assert(letters_upto(s, n));
        }
        if no_strong_upto(s, n) {
            assert(!strong_char(s[k]));
        }
        if first_rtl_upto(s, k) {
            let i = choose|i: int| 0 <= i < k && #[trigger] strong_char(s[i]) && spec_is_rtl_script(s[i]) && no_strong_upto(s, i);
            assert(first_rtl_upto(s, n));
            assert(!no_strong_upto(s, k));
        }
        if first_rtl_upto(s, n) && !first_rtl_upto(s, k) {
            let i = choose|i: int| 0 <= i < n && #[trigger] strong_char(s[i]) && spec_is_rtl_script(s[i]) && no_strong_upto(s, i);
            assert(i == k);
        }
        if no_strong_upto(s, k) && strong_char(c) && spec_is_rtl_script(c) {
            assert(first_rtl_upto(s, n));
        }
    }
}

/// How a line's base direction and confidence follow from its characters:
/// counting the whitespace-separated tokens that hold left-to-right content
/// (a letter or digit outside the right-to-left scripts) and those that hold
/// right-to-left script, the line is right-to-left exactly when its first
/// strong character is right-to-left or it has right-to-left script in more
/// tokens than left-to-right content; it is ambiguous when it has
/// right-to-left script, other letters, and as many tokens of each; else
/// inferred when it has right-to-left script, and exact otherwise.
pub proof fn lemma_base_direction_by_tokens(s: Seq<char>)
    ensures
        (base_direction_of(s).0 == BaseDirection::Rtl) == (first_rtl_upto(s, s.len() as int) || (rtl_upto(
            s,
            s.len() as int,
        ) && tokens_with(s, rtl_p(), s.len() as int) > tokens_with(s, ltr_p(), s.len() as int))),
        base_direction_of(s).1 == (if rtl_upto(s, s.len() as int) && letters_upto(s, s.len() as int)
            && tokens_with(s, rtl_p(), s.len() as int) == tokens_with(s, ltr_p(), s.len() as int) {
            ReconstructionConfidence::Ambiguous
        } else if rtl_upto(s, s.len() as int) {
            ReconstructionConfidence::Inferred
        } else {
            ReconstructionConfidence::Exact
        }),
{
    lemma_scan_by_tokens(s, s.len() as int);
    assert(s.take(s.len() as int) =~= s);
}

pub fn select_base_direction(chars: &[char]) -> (r: (BaseDirection, ReconstructionConfidence))
    ensures
        r == base_direction_of(chars@),
        (r.0 == BaseDirection::Rtl) == (first_rtl_upto(chars@, chars@.len() as int) || (rtl_upto(
            chars@,
            chars@.len() as int,
        ) && tokens_with(chars@, rtl_p(), chars@.len() as int) > tokens_with(chars@, ltr_p(), chars@.len() as int))),
        r.1 == (if rtl_upto(chars@, chars@.len() as int) && letters_upto(chars@, chars@.len() as int)
            && tokens_with(chars@, rtl_p(), chars@.len() as int) == tokens_with(chars@, ltr_p(), chars@.len() as int) {
            ReconstructionConfidence::Ambiguous
        } else if rtl_upto(chars@, chars@.len() as int) {
            ReconstructionConfidence::Inferred
        } else {
            ReconstructionConfidence::Exact
        }),
{
    proof {
        lemma_base_direction_by_tokens(chars@);
    }
    let mut has_rtl = false;
    let mut has_other_letters = false;
    let mut first_strong: Option<BaseDirection> = None;
    let mut rtl_tokens: usize = 0;
    let mut ltr_tokens: usize = 0;
    let mut token_has_rtl = false;
    let mut token_has_ltr = false;
    let mut i: usize = 0;
    while i < chars.len()
        invariant
            i <= chars.len(),
            rtl_tokens <= i,
            ltr_tokens <= i,
            direction_scan(chars@.take(i as int)) == (DirectionScan {
                has_rtl,
                has_other_letters,
                first_strong,
                rtl_tokens: rtl_tokens as nat,
                ltr_tokens: ltr_tokens as nat,
                token_has_rtl,
                token_has_ltr,
            }),
            token_has_rtl ==> rtl_tokens < i,
            token_has_ltr ==> ltr_tokens < i,
        decreases chars.len() - i,
    {
        let ch = chars[i];
        assert(chars@.take(i + 1).drop_last() =~= chars@.take(i as int));
        if char_is_whitespace(ch) {
            if token_has_rtl {
                rtl_tokens += 1;
            }
            if token_has_ltr {
                ltr_tokens += 1;
            }
            token_has_rtl = false;
            token_has_ltr = false;
        } else if is_rtl_script(ch) {
            has_rtl = true;
            token_has_rtl = true;
            if first_strong.is_none() {
                first_strong = Some(BaseDirection::Rtl);
            }
        } else if char_is_alphabetic(ch) {
            has_other_letters = true;
            token_has_ltr = true;
            if first_strong.is_none() {
                first_strong = Some(BaseDirection::Ltr);
            }
        } else if char_is_numeric(ch) {
            token_has_ltr = true;
        }
        i += 1;
    }
    assert(chars@.take(chars.len() as int) =~= chars@);
    if token_has_rtl {
        rtl_tokens += 1;
    }
    if token_has_ltr {
        ltr_tokens += 1;
    }
    let direction = if first_strong == Some(BaseDirection::Rtl) || (has_rtl && rtl_tokens
        > ltr_tokens) {
        BaseDirection::Rtl
    } else {
        match first_strong {
            Some(d) => d,
            None => BaseDirection::Ltr,
        }
    };
    let confidence = if has_rtl && has_other_letters && rtl_tokens == ltr_tokens {
        ReconstructionConfidence::Ambiguous
    } else if has_rtl {
        ReconstructionConfidence::Inferred
    } else {
        ReconstructionConfidence::Exact
    };
    (direction, confidence)
}

} // verus!
