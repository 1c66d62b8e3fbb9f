use bolivar_core::table::{
    CellId, CellMatch, CharId, HEdgeId, TextDir, VEdgeId, bucket_count, edge_bucket,
    CellPlacement, build_grid, expand_ligature, get_char_dir, maybe_reorder_bidi_default,
    should_reconstruct_geometric_line, textmap_to_string, word_ranges,
    TextSpan, cell_text_with_spans,
};

#[test]
fn cell_match_uses_compact_ids() {
    assert_eq!(std::mem::size_of::<CellMatch>(), 8);
    assert_eq!(std::mem::size_of::<CharId>(), 4);
    assert_eq!(std::mem::size_of::<VEdgeId>(), 4);
    assert_eq!(std::mem::size_of::<HEdgeId>(), 4);
}

#[test]
fn normal_text_does_not_allocate_for_ligatures() {
    let text = String::from("plain");
    let expanded = expand_ligature(&text, true);

    assert_eq!(expanded.as_ptr(), text.as_ptr());
    assert_eq!(expand_ligature("\u{fb03}", true), "ffi");
}

#[test]
fn ligatures_expand_only_when_asked() {
    assert_eq!(expand_ligature("\u{fb00}", true), "ff");
    assert_eq!(expand_ligature("\u{fb04}", true), "ffl");
    assert_eq!(expand_ligature("\u{fb01}", true), "fi");
    assert_eq!(expand_ligature("\u{fb02}", true), "fl");
    assert_eq!(expand_ligature("\u{fb05}", true), "st");
    assert_eq!(expand_ligature("\u{fb06}", true), "st");
    assert_eq!(expand_ligature("\u{fb03}", false), "\u{fb03}");
    assert_eq!(expand_ligature("\u{fb03}x", true), "\u{fb03}x");
}

#[test]
fn cell_ids_round_trip() {
    for index in [0usize, 1, 41, 1_000_000, (u32::MAX - 1) as usize] {
        assert_eq!(CellId::from_index(index).index(), index);
    }
    assert_ne!(CellId::from_index(3), CellId::from_index(4));
}

#[test]
fn buckets_cover_every_edge() {
    assert_eq!(bucket_count(0), 0);
    assert_eq!(bucket_count(1), 1);
    assert_eq!(bucket_count(32), 1);
    assert_eq!(bucket_count(33), 2);
    assert_eq!(edge_bucket(0), 0);
    assert_eq!(edge_bucket(31), 0);
    assert_eq!(edge_bucket(32), 1);
    for n in 1..200usize {
        assert!(edge_bucket(n - 1) < bucket_count(n));
    }
}

#[test]
fn text_dir_parses_the_four_names() {
    assert_eq!(TextDir::from_str("ttb"), Some(TextDir::Ttb));
    assert_eq!(TextDir::from_str("btt"), Some(TextDir::Btt));
    assert_eq!(TextDir::from_str("ltr"), Some(TextDir::Ltr));
    assert_eq!(TextDir::from_str("rtl"), Some(TextDir::Rtl));
    assert_eq!(TextDir::from_str("LTR"), None);
    assert_eq!(TextDir::from_str(""), None);
}

fn lines(items: &[&str]) -> Vec<String> {
    items.iter().map(|s| s.to_string()).collect()
}

#[test]
fn textmap_joins_top_to_bottom_lines() {
    assert_eq!(
        textmap_to_string(lines(&["ab", "cd"]), TextDir::Ttb, TextDir::Ltr),
        "ab\ncd"
    );
    assert_eq!(
        textmap_to_string(lines(&["ab", "cd"]), TextDir::Btt, TextDir::Ltr),
        "cd\nab"
    );
    assert_eq!(
        textmap_to_string(lines(&["ab", "cd"]), TextDir::Ttb, TextDir::Rtl),
        "ba\ndc"
    );
    assert_eq!(textmap_to_string(Vec::new(), TextDir::Ttb, TextDir::Ltr), "");
}

#[test]
fn textmap_reads_horizontal_lines_by_column() {
    assert_eq!(
        textmap_to_string(lines(&["abc", "d"]), TextDir::Ltr, TextDir::Ttb),
        "ad\nb \nc "
    );
    assert_eq!(
        textmap_to_string(lines(&["abc", "d"]), TextDir::Rtl, TextDir::Ttb),
        "da\n b\n c"
    );
    assert_eq!(
        textmap_to_string(lines(&["abc", "d"]), TextDir::Ltr, TextDir::Btt),
        "a \nb \ncd"
    );
}

#[test]
fn char_direction_follows_settings() {
    assert_eq!(get_char_dir(false, false, true, TextDir::Ltr, None, TextDir::Ttb), TextDir::Btt);
    assert_eq!(get_char_dir(true, true, false, TextDir::Ltr, None, TextDir::Ttb), TextDir::Rtl);
    assert_eq!(get_char_dir(true, true, true, TextDir::Ltr, None, TextDir::Ttb), TextDir::Ltr);
    assert_eq!(get_char_dir(false, true, true, TextDir::Ltr, None, TextDir::Ttb), TextDir::Ttb);
    assert_eq!(
        get_char_dir(false, true, true, TextDir::Ltr, Some(TextDir::Rtl), TextDir::Ttb),
        TextDir::Rtl
    );
}

#[test]
fn default_bidi_policy_applies_only_to_default_layout() {
    let visual = "Task Ref42 12:34:\u{fe94}\u{fec8}\u{fea3}\u{fefc}\u{fee3}**56:78:\u{fe96}\u{fed7}\u{feee}\u{fedf}\u{fe8d}";
    assert_eq!(
        maybe_reorder_bidi_default(visual.to_string(), true, TextDir::Ttb, TextDir::Ltr, true),
        "Task Ref42 12:34:الوقت:56:78**ملاحظة"
    );
    assert_eq!(
        maybe_reorder_bidi_default("sample# ةلمج".to_string(), true, TextDir::Ttb, TextDir::Ltr, false),
        "sample# جملة"
    );
    assert_eq!(
        maybe_reorder_bidi_default("ةلمج".to_string(), false, TextDir::Ttb, TextDir::Ltr, true),
        "ةلمج"
    );
}

#[test]
fn geometric_lines_reconstruct_only_a_mixed_tail() {
    let words = |items: &[&str]| items.iter().map(|s| s.to_string()).collect::<Vec<String>>();
    assert!(should_reconstruct_geometric_line(&words(&["Task", "Ref42:\u{0627}\u{0644}"])));
    assert!(!should_reconstruct_geometric_line(&words(&["\u{0627}", "Ref42:\u{0627}"])));
    assert!(!should_reconstruct_geometric_line(&words(&["Task", "Ref42"])));
    assert!(!should_reconstruct_geometric_line(&words(&[])));
}

fn place(starts_row: bool, column: usize) -> CellPlacement {
    CellPlacement { starts_row, column }
}

/// Rows of the grid, each slot given as the placed cell stored there.
fn flat_rows(placements: &[CellPlacement], columns: usize) -> Vec<Vec<Option<usize>>> {
    let grid = build_grid(&placements.to_vec(), columns);
    grid.row_offsets
        .windows(2)
        .map(|range| {
            grid.slots[range[0]..range[1]]
                .iter()
                .map(|slot| slot.map(|id| grid.cells[id.index()]))
                .collect()
        })
        .collect()
}

#[test]
fn flat_grid_builds_sparse_rows() {
    // Cells (x0, top): (0, 0), (5, 0), (5, 5); columns at x0 = 0 and 5.
    let placements = [place(true, 0), place(false, 1), place(true, 1)];
    assert_eq!(
        flat_rows(&placements, 2),
        vec![vec![Some(0), Some(1)], vec![None, Some(2)]]
    );
}

#[test]
fn a_later_cell_in_a_taken_slot_replaces_the_earlier() {
    let placements = [place(true, 1), place(false, 1), place(false, 0)];
    let grid = build_grid(&placements.to_vec(), 2);
    assert_eq!(grid.row_offsets, vec![0, 2]);
    assert_eq!(grid.cells, vec![1, 2]);
    assert_eq!(flat_rows(&placements, 2), vec![vec![Some(2), Some(1)]]);
}

#[test]
fn an_empty_table_has_no_rows() {
    let grid = build_grid(&vec![], 3);
    assert_eq!(grid.row_offsets, vec![0]);
    assert!(grid.slots.is_empty());
    assert!(grid.cells.is_empty());
}

#[test]
fn words_split_at_blanks_punctuation_and_gaps() {
    // "ab c,d": a gap before the `b`, a blank, and a splitting comma.
    let blank = vec![false, false, true, false, false, false];
    let punct = vec![false, false, false, false, true, false];
    let gaps = |_: usize, current: usize| current == 1;
    assert_eq!(
        word_ranges(&blank, &punct, &gaps),
        vec![(0, 1), (1, 2), (3, 4), (4, 5), (5, 6)]
    );
    let no_gaps = |_: usize, _: usize| false;
    assert_eq!(word_ranges(&blank, &punct, &no_gaps), vec![(0, 2), (3, 4), (4, 5), (5, 6)]);
    assert_eq!(word_ranges(&vec![true, true], &vec![false, false], &no_gaps), vec![]);
}

fn cell_lines(lines: &[&[&str]]) -> Vec<Vec<String>> {
    lines.iter().map(|l| l.iter().map(|w| w.to_string()).collect()).collect()
}

fn span(text: &str, line_index: usize, word_index: usize, start: usize, end: usize) -> TextSpan {
    TextSpan { text: text.to_string(), line_index, word_index, start, end }
}

fn spans_address_text(text: &str, spans: &[TextSpan]) -> bool {
    spans.iter().all(|s| {
        let piece: String = text.chars().skip(s.start).take(s.end - s.start).collect();
        piece == s.text
    })
}

#[test]
fn cell_text_spans_point_at_their_words() {
    let lines = cell_lines(&[&["Hello", "world"], &["foo"]]);
    let (text, spans) = cell_text_with_spans(&lines, TextDir::Ttb, TextDir::Ltr, false, true);
    assert_eq!(text, "Hello world\nfoo");
    assert_eq!(spans, vec![span("Hello", 0, 0, 0, 5), span("world", 0, 1, 6, 11), span("foo", 1, 0, 12, 15)]);
    assert!(spans_address_text(&text, &spans));
}

#[test]
fn cell_text_without_spans_when_not_asked() {
    let lines = cell_lines(&[&["Hello", "world"], &["foo"]]);
    let (text, spans) = cell_text_with_spans(&lines, TextDir::Ttb, TextDir::Ltr, false, false);
    assert_eq!(text, "Hello world\nfoo");
    assert!(spans.is_empty());
}

#[test]
fn cell_text_offers_no_spans_when_offsets_would_not_address_it() {
    let lines = cell_lines(&[&["ab", "cd"], &["ef"]]);
    let (text, spans) = cell_text_with_spans(&lines, TextDir::Ttb, TextDir::Rtl, false, true);
    assert_eq!(text, "dc ba\nfe");
    assert!(spans.is_empty());
    let (text, spans) = cell_text_with_spans(&lines, TextDir::Btt, TextDir::Ltr, false, true);
    assert_eq!(text, "ef\nab cd");
    assert!(spans.is_empty());
}

#[test]
fn cell_text_puts_right_to_left_words_in_reading_order() {
    let lines = cell_lines(&[&["abc", "\u{5d0}\u{5d1}"]]);
    let (text, spans) = cell_text_with_spans(&lines, TextDir::Ttb, TextDir::Ltr, false, true);
    assert_eq!(text, "\u{5d0}\u{5d1} abc");
    assert_eq!(spans, vec![span("\u{5d0}\u{5d1}", 0, 1, 0, 2), span("abc", 0, 0, 3, 6)]);
    let (text, spans) = cell_text_with_spans(&lines, TextDir::Ttb, TextDir::Ltr, true, true);
    assert_eq!(text, "\u{5d1}\u{5d0} abc");
    assert_eq!(spans, vec![span("\u{5d1}\u{5d0}", 0, 1, 0, 2), span("abc", 0, 0, 3, 6)]);
}

#[test]
fn cell_text_reconstructs_a_mixed_line_with_word_spans() {
    let lines = cell_lines(&[&["Total", "ab\u{5d0}\u{5d1}"]]);
    let (text, spans) = cell_text_with_spans(&lines, TextDir::Ttb, TextDir::Ltr, true, true);
    assert!(spans_address_text(&text, &spans));
    assert!(spans.iter().all(|s| s.line_index == 0 && s.word_index < 2));
    assert!(text.starts_with("Total "));
}

#[test]
fn empty_cell_has_no_text() {
    let (text, spans) = cell_text_with_spans(&Vec::new(), TextDir::Ttb, TextDir::Ltr, true, true);
    assert_eq!(text, "");
    assert!(spans.is_empty());
}
