use bolivar_core::bidi::lines::{reconstruct_source, source_scalars};
use bolivar_core::bidi::protect::{ProtectedClass, SourceScalar, fill_protected_ltr_scalars};
use bolivar_core::bidi::scripts::{
    BaseDirection, ReconstructionConfidence, contains_compact_mixed_token, is_arabic,
    is_arabic_presentation_form, is_ltr_affix, is_ltr_content, is_rtl_script,
    select_base_direction,
};
use bolivar_core::bidi::spans::ReconstructedLine;
use ProtectedClass::{Ltr, Number, Plain};
use bolivar_core::bidi::text::normalize_arabic_presentation_forms;
use bolivar_core::arena::line_is_empty;
use bolivar_core::bidi::spans::{ReconstructedSpan, append_legacy_segment};
use bolivar_core::bidi::text::normalize_presentation_forms_for_output;
use bolivar_core::bidi::words::{
    WordBidiClass, contains_rtl_text, has_compact_mixed_token, is_ltr_prefixed_compact_mixed,
    reconstruct_textline_text, reorder_visual_word_runs, word_bidi_class,
};

/// The texts of a horizontal layout line: one element per character, then a
/// line-feed annotation.
fn element_texts(text: &str) -> Vec<String> {
    let mut texts: Vec<String> = text.chars().map(|ch| ch.to_string()).collect();
    texts.push("\n".to_string());
    texts
}

/// Reconstructs the line; `decreasing` says that the characters' x positions
/// decrease along the stored order, which marks the line as already logical.
fn reconstruct_elements(text: &str, decreasing: bool) -> (Vec<String>, ReconstructedLine) {
    let texts = element_texts(text);
    let (raw, source) = source_scalars(&texts);
    let line = reconstruct_source(raw, source, decreasing);
    (texts, line)
}

#[test]
fn element_mapping_handles_repeated_visual_glyphs() {
    let (_, line) = reconstruct_elements("ﺏﺏ", false);

    assert_eq!(line.text, "بب\n");
    assert_eq!(line.spans[0].source_index, 1);
    assert_eq!(line.spans[1].source_index, 0);
}

#[test]
fn element_mapping_keeps_lam_alef_expansion_on_one_source() {
    let (_, line) = reconstruct_elements("ﻻ", false);

    assert_eq!(line.text, "لا\n");
    assert_eq!(line.spans[0].source_index, 0);
    assert_eq!(line.spans[0].text, "لا");
}

#[test]
fn element_mapping_points_to_each_output_source() {
    let (texts, line) = reconstruct_elements(
        "123456 :\u{fe94}\u{fef4}\u{fe91}\u{feae}\u{fecc}\u{fedf}\u{fe8d}",
        false,
    );

    assert_eq!(line.text, "العربية: 123456\n");
    for span in line.spans {
        let source_text = &texts[span.source_index];
        assert_eq!(span.text, normalize_arabic_presentation_forms(source_text));
    }
}

#[test]
fn decreasing_arabic_geometry_preserves_logical_source_order() {
    let (_, line) = reconstruct_elements("كشف", true);

    assert_eq!(line.text, "كشف\n");
    assert_eq!(line.confidence, ReconstructionConfidence::Inferred);
}

#[test]
fn mixed_source_is_marked_ambiguous() {
    let (_, line) = reconstruct_elements("abc ﺔﻴﺑﺮﻌﻟﺍ", false);

    assert_eq!(line.text, "abc العربية\n");
    assert_eq!(line.base_direction, BaseDirection::Ltr);
    assert_eq!(line.confidence, ReconstructionConfidence::Ambiguous);
}

#[test]
fn plain_line_keeps_text_and_sources() {
    let (_, line) = reconstruct_elements("ab 1", false);
    assert_eq!(line.raw_text, "ab 1\n");
    assert_eq!(line.text, "ab 1\n");
    assert_eq!(line.base_direction, BaseDirection::Ltr);
    assert_eq!(line.confidence, ReconstructionConfidence::Exact);
    let sources: Vec<usize> = line.spans.iter().map(|s| s.source_index).collect();
    assert_eq!(sources, vec![0, 1, 2, 3, 4]);
}

#[test]
fn spans_join_consecutive_characters_of_one_element() {
    let texts = vec!["ab".to_string(), "c".to_string()];
    let (raw, source) = source_scalars(&texts);
    assert_eq!(raw, "abc");
    let indices: Vec<usize> = source.iter().map(|s| s.source_index).collect();
    assert_eq!(indices, vec![0, 0, 1]);
    let line = reconstruct_source(raw, source, false);
    assert_eq!(line.spans.len(), 2);
    assert_eq!(line.spans[0].text, "ab");
    assert_eq!(line.spans[1].text, "c");
}

#[test]
fn every_span_points_at_an_element_of_the_line() {
    let (texts, line) = reconstruct_elements("Task Ref42 12:34:\u{fe94}\u{fec8}\u{fea3}", false);
    for span in &line.spans {
        assert!(span.source_index < texts.len());
    }
    let joined: String = line.spans.iter().map(|s| s.text.as_str()).collect();
    assert_eq!(joined, line.text);
}

#[test]
fn script_classes() {
    assert!(is_arabic('\u{0627}'));
    assert!(is_arabic('\u{fe8d}'));
    assert!(!is_arabic('\u{05d0}'));
    assert!(is_rtl_script('\u{05d0}'));
    assert!(is_rtl_script('\u{fb1d}'));
    assert!(!is_rtl_script('a'));
    assert!(is_arabic_presentation_form('\u{fefb}'));
    assert!(!is_arabic_presentation_form('\u{0644}'));
    assert!(is_ltr_content('a'));
    assert!(is_ltr_content('7'));
    assert!(!is_ltr_content('\u{0627}'));
    assert!(!is_ltr_content('-'));
    assert!(is_ltr_affix('#'));
    assert!(!is_ltr_affix(':'));
    // An ideographic space is white space; a zero-width space is not.
    assert!(line_is_empty(&vec!["\u{3000}".to_string()], false));
    assert!(!line_is_empty(&vec!["\u{200b}".to_string()], false));
}

#[test]
fn base_direction_follows_first_strong_and_token_counts() {
    let chars = |s: &str| s.chars().collect::<Vec<char>>();
    assert_eq!(
        select_base_direction(&chars("abc 123")),
        (BaseDirection::Ltr, ReconstructionConfidence::Exact)
    );
    assert_eq!(
        select_base_direction(&chars("\u{0627}\u{0644} abc")),
        (BaseDirection::Rtl, ReconstructionConfidence::Ambiguous)
    );
    assert_eq!(
        select_base_direction(&chars("abc \u{0627} \u{0628}")),
        (BaseDirection::Rtl, ReconstructionConfidence::Inferred)
    );
    assert_eq!(
        select_base_direction(&chars("12 \u{0627}")),
        (BaseDirection::Rtl, ReconstructionConfidence::Inferred)
    );
    assert_eq!(select_base_direction(&[]), (BaseDirection::Ltr, ReconstructionConfidence::Exact));
}

#[test]
fn compact_mixed_tokens() {
    let chars = |s: &str| s.chars().collect::<Vec<char>>();
    assert!(contains_compact_mixed_token(&chars("x ab\u{0627}")));
    assert!(!contains_compact_mixed_token(&chars("ab \u{0627}")));
    assert!(has_compact_mixed_token("12:\u{0627}"));
    assert!(!has_compact_mixed_token("plain text"));
    assert!(is_ltr_prefixed_compact_mixed("Ref42:\u{0627}\u{0644}"));
    assert!(!is_ltr_prefixed_compact_mixed("\u{0627}\u{0644}:Ref42"));
    assert!(!is_ltr_prefixed_compact_mixed("Ref42 \u{0627}"));
    assert!(contains_rtl_text("x \u{05d0}"));
    assert!(!contains_rtl_text("x y"));
}

#[test]
fn identifiers_are_protected_before_reordering() {
    let source: Vec<SourceScalar> = "\u{0627} ID-4 12 \u{0628}"
        .chars()
        .enumerate()
        .map(|(source_index, ch)| SourceScalar { ch, source_index })
        .collect();
    let mut protected = Vec::new();
    fill_protected_ltr_scalars(&source, BaseDirection::Ltr, &mut protected);
    assert_eq!(
        protected,
        vec![Plain, Plain, Ltr, Ltr, Ltr, Ltr, Plain, Number, Number, Plain, Plain]
    );
}

#[test]
fn spaced_field_separator_joins_the_run_in_rtl_lines() {
    let source: Vec<SourceScalar> = "\u{0627} ID4 : \u{0628}"
        .chars()
        .enumerate()
        .map(|(source_index, ch)| SourceScalar { ch, source_index })
        .collect();
    let mut protected = Vec::new();
    fill_protected_ltr_scalars(&source, BaseDirection::Rtl, &mut protected);
    assert_eq!(protected, vec![Plain, Plain, Ltr, Ltr, Ltr, Ltr, Ltr, Plain, Plain]);
    let mut ltr_only = Vec::new();
    fill_protected_ltr_scalars(&source, BaseDirection::Ltr, &mut ltr_only);
    assert_eq!(ltr_only, vec![Plain, Plain, Ltr, Ltr, Ltr, Plain, Plain, Plain, Plain]);
}

#[test]
fn word_classes_and_run_reordering() {
    assert_eq!(word_bidi_class("\u{0627}b"), WordBidiClass::Rtl);
    assert_eq!(word_bidi_class("abc"), WordBidiClass::Ltr);
    assert_eq!(word_bidi_class("12.5"), WordBidiClass::Neutral);

    let texts: Vec<String> = ["one", "\u{0627}", "\u{0628}", "2", "two"]
        .iter()
        .map(|s| s.to_string())
        .collect();
    let words: Vec<usize> = (0..texts.len()).collect();
    let reordered = reorder_visual_word_runs(words, &texts);
    assert_eq!(reordered, vec![4, 3, 2, 1, 0]);
}

#[test]
fn textline_text_uses_the_line_order() {
    let texts: Vec<String> = ["\u{fe8d}", "\u{fedf}", "\u{fecc}"]
        .iter()
        .map(|s| s.to_string())
        .collect();
    assert_eq!(reconstruct_textline_text(&texts, true), "\u{0627}\u{0644}\u{0639}");
    let plain: Vec<String> = ["a", "b"].iter().map(|s| s.to_string()).collect();
    assert_eq!(reconstruct_textline_text(&plain, false), "ab");
}

#[test]
fn outside_services_compute_and_do_not_echo() {
    assert_eq!(normalize_presentation_forms_for_output("\u{fefb}"), "\u{0644}\u{0627}");
    let source: Vec<SourceScalar> = "a\u{05d0}\u{05d1}"
        .chars()
        .enumerate()
        .map(|(source_index, ch)| SourceScalar { ch, source_index })
        .collect();
    let mut spans: Vec<ReconstructedSpan> = Vec::new();
    append_legacy_segment(&mut spans, &source);
    let order: Vec<usize> = spans.iter().map(|span| span.source_index).collect();
    assert_eq!(order, vec![0, 2, 1]);
}
