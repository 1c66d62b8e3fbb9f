//! Inverse reordering of visually stored text.
//!
//! The source characters, with protected runs replaced by placeholders, are
//! encoded as UTF-16 and reordered at the line's paragraph level; the index
//! map of that reordering restores, for every output character, the source
//! element it came from and, for protected runs, the original character.
use vstd::prelude::*;
use crate::bidi::protect::{
    ProtectedClass, SourceScalar, fill_protected_ltr_scalars, indexed_scalars, indexed_source, protected_classes, spec_replacement,
};
use crate::bidi::scripts::BaseDirection;
use crate::bidi::spans::{
    ReconstructedSpan, SpanSeq, lemma_push_visits_ids, normalize_char, push_normalized_char,
    push_normalized_scalar, push_visits, source_ids, span_ids, spans_view, visit_ids,
};
use crate::bidi::unicode::{bidi_visual_map, char_from_u32, unicode_bidi_visual_map};

verus! {

/// The UTF-16 code units of `c`.
pub open spec fn utf16_units(c: char) -> Seq<u16> {
    let v = c as u32;
    if v < 0x10000 {
        seq![v as u16]
    } else {
        seq![(0xD800 + (v - 0x10000) / 0x400) as u16, (0xDC00 + (v - 0x10000) % 0x400) as u16]
    }
}

/// The character shown to the reordering step for source position `k`.
pub open spec fn shown_char(s: Seq<SourceScalar>, prot: Seq<ProtectedClass>, k: int) -> char {
    match spec_replacement(prot[k]) {
        Some(r) => r,
        None => s[k].ch,
    }
}

/// The UTF-16 input of the first `n` source positions, and for every code
/// unit the source position it encodes.
pub open spec fn encode_input(s: Seq<SourceScalar>, prot: Seq<ProtectedClass>, n: int) -> (
    Seq<u16>,
    Seq<usize>,
)
    decreases n,
{
    if n <= 0 {
        (Seq::empty(), Seq::empty())
    } else {
        let (units, owners) = encode_input(s, prot, n - 1);
        let more = utf16_units(shown_char(s, prot, n - 1));
        (units + more, owners + Seq::new(more.len(), |i: int| (n - 1) as usize))
    }
}

pub open spec fn level_of(direction: BaseDirection) -> u8 {
    match direction {
        BaseDirection::Ltr => 0,
        BaseDirection::Rtl => 1,
    }
}

/// The code point that the UTF-16 units `units` (one unit, or a high
/// surrogate and one more unit) decode to, if they form one.
pub open spec fn decode_units(units: Seq<u16>) -> Option<u32> {
    if units.len() == 1 {
        if 0xD800 <= units[0] <= 0xDFFF {
            None
        } else {
            Some(units[0] as u32)
        }
    } else if units.len() == 2 && 0xDC00 <= units[1] <= 0xDFFF {
        Some((0x10000 + (units[0] - 0xD800) * 0x400 + (units[1] - 0xDC00)) as u32)
    } else {
        None
    }
}

/// The first non-negative input index among `o2i[offset..end]`.
pub open spec fn first_input_index(o2i: Seq<i32>, offset: int, end: int) -> Option<int> {
    if offset < end && o2i[offset] >= 0 {
        Some(o2i[offset] as int)
    } else if offset + 1 < end && o2i[offset + 1] >= 0 {
        Some(o2i[offset + 1] as int)
    } else {
        None
    }
}

/// Walks the reordered output from `offset` on, one character at a time,
/// pairing each output character with its source element: a protected
/// character is taken back from the source, any other is the decoded output
/// character.  Fails on malformed output or an index that leads nowhere.
pub open spec fn visit_from(
    out: Seq<u16>,
    o2i: Seq<i32>,
    i2s: Seq<usize>,
    s: Seq<SourceScalar>,
    prot: Seq<ProtectedClass>,
    offset: int,
    acc: Seq<(usize, char)>,
) -> Option<Seq<(usize, char)>>
    decreases out.len() - offset,
{
    if offset < 0 || offset >= out.len() {
        Some(acc)
    } else {
        let first = out[offset];
        let width = if 0xD800 <= first <= 0xDBFF { 2int } else { 1int };
        let end = offset + width;
        if end > out.len() {
            None
        } else {
            match decode_units(out.subrange(offset, end)) {
                None => None,
                Some(code) => match first_input_index(o2i, offset, end) {
                    None => None,
                    Some(input) => if input >= i2s.len() || i2s[input] >= s.len() || i2s[input]
                        >= prot.len() {
                        None
                    } else {
                        let k = i2s[input] as int;
                        let ch = if spec_replacement(prot[k]) is Some {
                            s[k].ch
                        } else {
                            code as char
                        };
                        visit_from(out, o2i, i2s, s, prot, end, acc.push((s[k].source_index, ch)))
                    },
                },
            }
        }
    }
}

/// The source characters in reconstructed logical order, each with its
/// source element, for a line of base direction `direction`; `None` when the
/// reordering output cannot be mapped back.
pub open spec fn inverse_visits(s: Seq<SourceScalar>, direction: BaseDirection) -> Option<
    Seq<(usize, char)>,
> {
    let prot = protected_classes(s, direction);
    let (input, i2s) = encode_input(s, prot, s.len() as int);
    if input.len() > 0x7FFF_FFFF {
        None
    } else {
        let map = unicode_bidi_visual_map(input, level_of(direction));
        let out = Seq::new(map.len(), |i: int| input[map[i] as int]);
        let o2i = Seq::new(map.len(), |i: int| map[i] as i32);
        visit_from(out, o2i, i2s, s, prot, 0, Seq::empty())
    }
}

/// Reconstructed spans of a line, or `None` when the reordering fails.
pub open spec fn inverse_spans_spec(s: Seq<SourceScalar>, direction: BaseDirection) -> Option<
    SpanSeq,
> {
    match inverse_visits(s, direction) {
        Some(v) => Some(push_visits(Seq::empty(), v)),
        None => None,
    }
}

/// Every visit that the walk over the reordered output adds comes from a
/// source character.
pub proof fn lemma_visit_from_ids(
    out: Seq<u16>,
    o2i: Seq<i32>,
    i2s: Seq<usize>,
    s: Seq<SourceScalar>,
    prot: Seq<ProtectedClass>,
    offset: int,
    acc: Seq<(usize, char)>,
)
    requires
        visit_ids(acc).subset_of(source_ids(s)),
    ensures
        visit_from(out, o2i, i2s, s, prot, offset, acc) matches Some(v) ==> visit_ids(v).subset_of(source_ids(s)),
    decreases out.len() - offset,
{
    if 0 <= offset < out.len() {
        let first = out[offset];
        let width = if 0xD800 <= first <= 0xDBFF { 2int } else { 1int };
        let end = offset + width;
        if end <= out.len() {
            if let Some(code) = decode_units(out.subrange(offset, end)) {
                if let Some(input) = first_input_index(o2i, offset, end) {
                    if !(input >= i2s.len() || i2s[input] >= s.len() || i2s[input] >= prot.len()) {
                        let k = i2s[input] as int;
                        let ch = if spec_replacement(prot[k]) is Some {
                            s[k].ch
                        } else {
                            code as char
                        };
                        let next = acc.push((s[k].source_index, ch));
                        assert forall|x: usize| visit_ids(next).contains(x) implies source_ids(s).contains(x) by {
                            let j = choose|j: int| 0 <= j < next.len() && next[j].0 == x;
                            if j < acc.len() {
                                assert(acc[j] == next[j]);
                                assert(visit_ids(acc).contains(x));
                            } else {
                                assert(s[k].source_index == x);
                            }
                        }
                        lemma_visit_from_ids(out, o2i, i2s, s, prot, end, next);
                    }
                }
            }
        }
    }
}

/// The spans of an inverse reordering come from the line's source elements.
pub proof fn lemma_inverse_spans_ids(s: Seq<SourceScalar>, direction: BaseDirection)
    ensures
        inverse_spans_spec(s, direction) matches Some(sp) ==> span_ids(sp).subset_of(source_ids(s)),
{
    let prot = protected_classes(s, direction);
    let (input, i2s) = encode_input(s, prot, s.len() as int);
    if input.len() <= 0x7FFF_FFFF {
        let map = unicode_bidi_visual_map(input, level_of(direction));
        let out = Seq::new(map.len(), |i: int| input[map[i] as int]);
        let o2i = Seq::new(map.len(), |i: int| map[i] as i32);
        assert(visit_ids(Seq::<(usize, char)>::empty()) =~= Set::<usize>::empty());
        lemma_visit_from_ids(out, o2i, i2s, s, prot, 0, Seq::empty());
        if let Some(v) = visit_from(out, o2i, i2s, s, prot, 0, Seq::empty()) {
            lemma_push_visits_ids(Seq::empty(), v);
            assert(span_ids(Seq::<(usize, Seq<char>)>::empty()) =~= Set::<usize>::empty());
        }
    }
}

/// The output form of the visited characters, concatenated.
pub open spec fn visits_text(v: Seq<(usize, char)>) -> Seq<char>
    decreases v.len(),
{
    if v.len() == 0 {
        Seq::empty()
    } else {
        visits_text(v.drop_last()) + normalize_char(v.last().1)
    }
}

/// The reconstructed text of a line, or `None` when the reordering fails.
pub open spec fn inverse_text_spec(text: Seq<char>, direction: BaseDirection) -> Option<Seq<char>> {
    match inverse_visits(indexed_scalars(text), direction) {
        Some(v) => Some(visits_text(v)),
        None => None,
    }
}

pub proof fn lemma_char_code_roundtrip(c: char)
    ensures
        (c as u32) as char == c,
{
}

/// Appends the UTF-16 code units of `c`.
pub fn encode_utf16(c: char, units: &mut Vec<u16>)
    ensures
        final(units)@ == old(units)@ + utf16_units(c),
{
    let v = c as u32;
    if v < 0x10000 {
        units.push(v as u16);
        assert(units@ =~= old(units)@ + utf16_units(c));
    } else {
        let w = v - 0x10000;
        units.push((0xD800 + w / 0x400) as u16);
        units.push((0xDC00 + w % 0x400) as u16);
        assert(units@ =~= old(units)@ + utf16_units(c));
    }
}

/// The outcome of reordering one line.
pub struct InverseRun {
    pub output: Vec<u16>,
    pub output_to_input: Vec<i32>,
    pub input_to_scalar: Vec<usize>,
    pub protected: Vec<ProtectedClass>,
}

/// Protects the line's identifiers, encodes it and reorders it at the
/// paragraph level of `direction`.
pub fn run_inverse(source: &[SourceScalar], direction: BaseDirection) -> (r: Option<InverseRun>)
    ensures
        ({
            let prot = protected_classes(source@, direction);
            let (input, i2s) = encode_input(source@, prot, source@.len() as int);
            match r {
                None => input.len() > 0x7FFF_FFFF,
                Some(run) => {
                    let map = unicode_bidi_visual_map(input, level_of(direction));
                    &&& input.len() <= 0x7FFF_FFFF
                    &&& run.protected@ == prot
                    &&& run.input_to_scalar@ == i2s
                    &&& run.output@ == Seq::new(map.len(), |i: int| input[map[i] as int])
                    &&& run.output_to_input@ == Seq::new(map.len(), |i: int| map[i] as i32)
                },
            }
        }),
{
    let mut protected: Vec<ProtectedClass> = Vec::new();
    fill_protected_ltr_scalars(source, direction, &mut protected);
    let ghost prot = protected@;
    proof {
        crate::bidi::protect::lemma_protected_len(source@, direction);
    }
    let mut input: Vec<u16> = Vec::new();
    let mut input_to_scalar: Vec<usize> = Vec::new();
    let mut k: usize = 0;
    while k < source.len()
        invariant
            k <= source.len(),
            input_to_scalar.len() == input.len(),
            protected@ == prot,
            prot == protected_classes(source@, direction),
            prot.len() == source.len(),
            (input@, input_to_scalar@) == encode_input(source@, prot, k as int),
        decreases source.len() - k,
    {
        proof {
            crate::bidi::protect::lemma_protected_len(source@, direction);
        }
        let ch = match protected[k].replacement() {
            Some(r) => r,
            None => source[k].ch,
        };
        let before = input.len();
        encode_utf16(ch, &mut input);
        let ghost owners = input_to_scalar@;
        while input_to_scalar.len() < input.len()
            invariant
                before <= input.len(),
                owners.len() == before,
                before <= input_to_scalar.len() <= input.len(),
                input_to_scalar@ == owners + Seq::new(
                    (input_to_scalar.len() - before) as nat,
                    |i: int| k,
                ),
            decreases input.len() - input_to_scalar.len(),
        {
            input_to_scalar.push(k);
            assert(input_to_scalar@ =~= owners + Seq::new(
                (input_to_scalar.len() - before) as nat,
                |i: int| k,
            ));
        }
        k += 1;
        assert(input_to_scalar@ =~= owners + Seq::new(
            utf16_units(ch).len(),
            |i: int| (k - 1) as usize,
        ));
    }
    proof {
        crate::bidi::protect::lemma_protected_len(source@, direction);
    }
    if input.len() > 0x7FFF_FFFF {
        return None;
    }
    let level: u8 = match direction {
        BaseDirection::Ltr => 0,
        BaseDirection::Rtl => 1,
    };
    let map = bidi_visual_map(&input, level);
    let mut output: Vec<u16> = Vec::new();
    let mut output_to_input: Vec<i32> = Vec::new();
    let mut i: usize = 0;
    while i < map.len()
        invariant
            i <= map.len(),
            map.len() == input.len(),
            input.len() <= 0x7FFF_FFFF,
            forall|j: int| 0 <= j < map.len() ==> map[j] < input.len(),
            output@ == Seq::new(i as nat, |j: int| input@[map[j] as int]),
            output_to_input@ == Seq::new(i as nat, |j: int| map[j] as i32),
        decreases map.len() - i,
    {
        output.push(input[map[i]]);
        output_to_input.push(map[i] as i32);
        i += 1;
        assert(output@ =~= Seq::new(i as nat, |j: int| input@[map[j] as int]));
        assert(output_to_input@ =~= Seq::new(i as nat, |j: int| map[j] as i32));
    }
    assert(output@ =~= Seq::new(map@.len(), |j: int| input@[map@[j] as int]));
    assert(output_to_input@ =~= Seq::new(map@.len(), |j: int| map@[j] as i32));
    Some(InverseRun { output, output_to_input, input_to_scalar, protected })
}

/// Decodes the character starting at `offset` of the reordered output and
/// pairs every output character with its source element.
pub fn visit_mapped_utf16(
    output: &Vec<u16>,
    output_to_input: &Vec<i32>,
    input_to_scalar: &Vec<usize>,
    source: &[SourceScalar],
    protected: &Vec<ProtectedClass>,
) -> (r: Option<Vec<(usize, char)>>)
    requires
        output_to_input.len() == output.len(),
    ensures
        match r {
            Some(v) => visit_from(
                output@,
                output_to_input@,
                input_to_scalar@,
                source@,
                protected@,
                0,
                Seq::empty(),
            ) == Some(v@),
            None => visit_from(
                output@,
                output_to_input@,
                input_to_scalar@,
                source@,
                protected@,
                0,
                Seq::empty(),
            ) is None,
        },
{
    let mut visits: Vec<(usize, char)> = Vec::new();
    let mut offset: usize = 0;
    while offset < output.len()
        invariant
            offset <= output.len(),
            output_to_input.len() == output.len(),
            visit_from(output@, output_to_input@, input_to_scalar@, source@, protected@, 0, Seq::empty())
                == visit_from(
                output@,
                output_to_input@,
                input_to_scalar@,
                source@,
                protected@,
                offset as int,
                visits@,
            ),
        decreases output.len() - offset,
    {
        let first = output[offset];
        let width: usize = if 0xD800 <= first && first <= 0xDBFF {
            2
        } else {
            1
        };
        let end = match offset.checked_add(width) {
            Some(e) => e,
            None => return None,
        };
        if end > output.len() {
            return None;
        }
        assert(output@.subrange(offset as int, end as int).len() == width);
        assert(output@.subrange(offset as int, end as int)[0] == first);
        let decoded: Option<char> = if width == 1 {
            if 0xD800 <= first && first <= 0xDFFF {
                None
            } else {
                char_from_u32(first as u32)
            }
        } else {
            let second = output[offset + 1];
            assert(output@.subrange(offset as int, end as int)[1] == second);
            if 0xDC00 <= second && second <= 0xDFFF {
                char_from_u32(0x10000 + (first as u32 - 0xD800) * 0x400 + (second as u32 - 0xDC00))
            } else {
                None
            }
        };
        let output_ch = match decoded {
            Some(c) => c,
            None => return None,
        };
        assert(decode_units(output@.subrange(offset as int, end as int)) == Some(output_ch as u32));
        proof {
            lemma_char_code_roundtrip(output_ch);
        }
        let input_index: usize = if output_to_input[offset] >= 0 {
            output_to_input[offset] as usize
        } else if offset + 1 < end && output_to_input[offset + 1] >= 0 {
            output_to_input[offset + 1] as usize
        } else {
            return None;
        };
        if input_index >= input_to_scalar.len() {
            return None;
        }
        let scalar_index = input_to_scalar[input_index];
        if scalar_index >= source.len() || scalar_index >= protected.len() {
            return None;
        }
        let scalar = source[scalar_index];
        let ch = if protected[scalar_index].replacement().is_some() {
            scalar.ch
        } else {
            output_ch
        };
        visits.push((scalar.source_index, ch));
        offset = end;
    }
    Some(visits)
}

/// The reconstructed spans of a reordered line.
pub fn mapped_utf16_to_spans(
    output: &Vec<u16>,
    output_to_input: &Vec<i32>,
    input_to_scalar: &Vec<usize>,
    source: &[SourceScalar],
    protected: &Vec<ProtectedClass>,
) -> (r: Option<Vec<ReconstructedSpan>>)
    requires
        output_to_input.len() == output.len(),
    ensures
        match visit_from(output@, output_to_input@, input_to_scalar@, source@, protected@, 0, Seq::empty()) {
            Some(v) => r is Some && spans_view(r->0@) == push_visits(Seq::empty(), v),
            None => r is None,
        },
{
    let visits = match visit_mapped_utf16(output, output_to_input, input_to_scalar, source, protected) {
        Some(v) => v,
        None => return None,
    };
    let mut spans: Vec<ReconstructedSpan> = Vec::new();
    assert(spans_view(spans@) =~= Seq::empty());
    let mut i: usize = 0;
    while i < visits.len()
        invariant
            i <= visits.len(),
            spans_view(spans@) == push_visits(Seq::empty(), visits@.take(i as int)),
        decreases visits.len() - i,
    {
        assert(visits@.take(i + 1).drop_last() =~= visits@.take(i as int));
        push_normalized_scalar(&mut spans, visits[i].0, visits[i].1);
        i += 1;
    }
    assert(visits@.take(visits.len() as int) =~= visits@);
    Some(spans)
}

/// The reconstructed text of a reordered line.
pub fn mapped_utf16_to_string(
    output: &Vec<u16>,
    output_to_input: &Vec<i32>,
    input_to_scalar: &Vec<usize>,
    source: &[SourceScalar],
    protected: &Vec<ProtectedClass>,
) -> (r: Option<String>)
    requires
        output_to_input.len() == output.len(),
    ensures
        match visit_from(output@, output_to_input@, input_to_scalar@, source@, protected@, 0, Seq::empty()) {
            Some(v) => r is Some && r->0@ == visits_text(v),
            None => r is None,
        },
{
    let visits = match visit_mapped_utf16(output, output_to_input, input_to_scalar, source, protected) {
        Some(v) => v,
        None => return None,
    };
    let mut text = String::new();
    let mut i: usize = 0;
    while i < visits.len()
        invariant
            i <= visits.len(),
            text@ == visits_text(visits@.take(i as int)),
        decreases visits.len() - i,
    {
        assert(visits@.take(i + 1).drop_last() =~= visits@.take(i as int));
        push_normalized_char(&mut text, visits[i].1);
        i += 1;
    }
    assert(visits@.take(visits.len() as int) =~= visits@);
    Some(text)
}

/// Reconstructs the spans of one line at the paragraph level of `direction`.
pub fn inverse_spans(source: &[SourceScalar], direction: BaseDirection) -> (r: Option<
    Vec<ReconstructedSpan>,
>)
    ensures
        match inverse_spans_spec(source@, direction) {
            Some(v) => r is Some && spans_view(r->0@) == v,
            None => r is None,
        },
{
    let run = match run_inverse(source, direction) {
        Some(run) => run,
        None => return None,
    };
    mapped_utf16_to_spans(
        &run.output,
        &run.output_to_input,
        &run.input_to_scalar,
        source,
        &run.protected,
    )
}

/// Reconstructs the text of one line at the paragraph level of `direction`.
pub fn inverse_text(text: &[char], direction: BaseDirection) -> (r: Option<Vec<char>>)
    ensures
        match inverse_text_spec(text@, direction) {
            Some(v) => r is Some && r->0@ == v,
            None => r is None,
        },
{
    let source = indexed_source(text);
    let run = match run_inverse(source.as_slice(), direction) {
        Some(run) => run,
        None => return None,
    };
    match mapped_utf16_to_string(
        &run.output,
        &run.output_to_input,
        &run.input_to_scalar,
        source.as_slice(),
        &run.protected,
    ) {
        Some(s) => Some(crate::bidi::spans::chars_of_string(&s)),
        None => None,
    }
}

} // verus!
