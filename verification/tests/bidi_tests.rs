use bolivar_core::bidi::text::{
    normalize_arabic_presentation_forms, normalize_presentation_forms_for_output,
    reconstruct_mixed_ltr_line, reconstruct_text_for_output, reconstruct_text_per_line, reorder_text_for_output,
    reorder_text_per_line,
};

#[test]
fn empty_text_stays_empty() {
    assert_eq!(reconstruct_text_per_line(""), "");
}

#[test]
fn ltr_text_is_unchanged() {
    assert_eq!(reconstruct_text_per_line("abc 123"), "abc 123");
}

#[test]
fn preserves_newline_boundaries() {
    assert_eq!(reconstruct_text_per_line("abc\n123\n"), "abc\n123\n");
}

#[test]
fn arabic_visual_line_reorders_to_logical_and_keeps_digits() {
    let line = "123456 :\u{fe94}\u{fef4}\u{fe91}\u{feae}\u{fecc}\u{fedf}\u{fe8d}";
    assert_eq!(reconstruct_text_per_line(line), "العربية: 123456");
}

#[test]
fn arabic_visual_words_reorder_to_logical() {
    assert_eq!(
        reconstruct_text_per_line(
            "\u{fe94}\u{fef4}\u{fe91}\u{feae}\u{fecc}\u{fedf}\u{fe8d} \u{fe94}\u{fee0}\u{fee4}\u{fea0}\u{fedf}\u{fe8d}"
        ),
        "الجملة العربية"
    );
}

#[test]
fn mixed_ltr_line_keeps_latin_prefix() {
    assert_eq!(
        reconstruct_text_per_line("abc 123 ﺔﻴﺑﺮﻌﻟﺍ"),
        "abc 123 العربية"
    );
}

#[test]
fn mixed_rtl_line_uses_arabic_visual_start() {
    assert_eq!(
        reconstruct_text_per_line("ﺔﻴﺑﺮﻌﻟﺍ 123 abc"),
        "abc 123 العربية"
    );
}

#[test]
fn normalization_does_not_change_other_compatibility_characters() {
    assert_eq!(normalize_arabic_presentation_forms("① ﺏ"), "① ب");
}

#[test]
fn reconstructs_compact_mixed_fields() {
    let visual = "Task Ref42 12:34:\u{fe94}\u{fec8}\u{fea3}\u{fefc}\u{fee3}**56:78:\u{fe96}\u{fed7}\u{feee}\u{fedf}\u{fe8d}";
    assert_eq!(
        reconstruct_text_for_output(visual),
        "Task Ref42 12:34:الوقت:56:78**ملاحظة"
    );
}

#[test]
fn reconstructs_fields_without_changing_identifiers() {
    let visual = "- ID42 : \u{fe94}\u{fef4}\u{fe91}\u{feae}\u{fecc}\u{fedf}\u{fe8d} \u{fe94}\u{fee0}\u{fee4}\u{fea0}\u{fedf}\u{fe8d} .1 : \u{fef2}\u{fe91}\u{feae}\u{fecc}\u{fedf}\u{fe8d} \u{feba}\u{fee8}\u{fedf}\u{fe8d} .TXT";
    assert_eq!(
        reconstruct_text_for_output(visual),
        ".TXT النص العربي .1 : الجملة العربية : ID42 -"
    );
}

#[test]
fn reconstructs_rtl_words_without_changing_code() {
    let visual = "CODE42 \u{fe94}\u{fef4}\u{fe91}\u{feae}\u{fecc}\u{fedf}\u{fe8d} \u{fe94}\u{fee0}\u{fee4}\u{fea0}\u{fedf}\u{fe8d}";
    assert_eq!(reconstruct_text_for_output(visual), "الجملة العربية CODE42");
}

#[test]
fn keeps_slash_between_identifier_and_arabic_text() {
    let visual = "\u{fe94}\u{fef4}\u{fe91}\u{feae}\u{fecc}\u{fedf}\u{fe8d}/REF42";
    assert_eq!(reconstruct_text_for_output(visual), "REF42/العربية");
}

#[test]
fn legacy_functions_keep_previous_output() {
    assert_eq!(
        reorder_text_per_line("123456 :\u{fe94}\u{fef4}\u{fe91}\u{feae}\u{fecc}\u{fedf}\u{fe8d}"),
        "ﺍﻟﻌﺮﺑﻴﺔ: 123456"
    );
    assert_eq!(reorder_text_for_output("sample# ةلمج"), "sample# جملة");
    assert_eq!(normalize_presentation_forms_for_output("① ﺏ"), "1 ب");
}

#[test]
fn legacy_reorder_keeps_every_character() {
    let text = "abc \u{5d0}\u{5d1}\u{5d2} 12\n\u{5e9}\u{5dc}\u{5d5}\u{5dd} x";
    let out = reorder_text_per_line(text);
    let mut before: Vec<char> = text.chars().collect();
    let mut after: Vec<char> = out.chars().collect();
    before.sort();
    after.sort();
    assert_eq!(before, after);
    assert_ne!(out, text);
}

#[test]
fn legacy_reorder_works_line_by_line() {
    let a = "abc \u{5d0}\u{5d1}\u{5d2}";
    let b = "\u{5e9}\u{5dc}\u{5d5}\u{5dd} 12";
    let whole = reorder_text_per_line(&format!("{a}\n{b}"));
    assert_eq!(whole, format!("{}\n{}", reorder_text_per_line(a), reorder_text_per_line(b)));
}

#[test]
fn reconstruction_works_line_by_line() {
    let a = "123456 :\u{fe94}\u{fef4}\u{fe91}\u{feae}\u{fecc}\u{fedf}\u{fe8d}";
    let b = "abc 123";
    let whole = reconstruct_text_per_line(&format!("{a}\n{b}"));
    assert_eq!(whole, format!("{}\n{}", reconstruct_text_per_line(a), reconstruct_text_per_line(b)));
}

#[test]
fn mixed_ltr_line_is_handled_segment_by_segment() {
    let f = |s: &str| -> String { reconstruct_mixed_ltr_line(&s.chars().collect::<Vec<char>>()).into_iter().collect() };
    let a = "abc";
    let w = "  ";
    let b = "\u{fe94}\u{fef4}\u{fe91}\u{feae}\u{fecc}\u{fedf}\u{fe8d}";
    assert_eq!(f(&format!("{a}{w}{b}")), format!("{}{}{}", f(a), w, f(b)));
    assert_eq!(f(a), a);
    assert_eq!(f(w), w);
}

#[test]
fn legacy_reorder_keeps_ascii_text() {
    let text = "Total: 42 (net), x-y [a/b]\n  12.5% done!";
    assert_eq!(reorder_text_per_line(text), text);
}
