use bolivar_core::grouping::{
    LineItem, LineRun, PairAlignment, group_objects, group_textlines, line_items, segment_lines,
};

fn pair(halign: bool, valign: bool) -> PairAlignment {
    PairAlignment { halign, valign, hgap: false, vgap: false }
}

fn run(start: usize, end: usize, vertical: bool) -> LineRun {
    LineRun { start, end, vertical }
}

type Rect = (f64, f64, f64, f64);

fn union(boxes: &[Rect]) -> Rect {
    let mut acc = (f64::INFINITY, f64::INFINITY, f64::NEG_INFINITY, f64::NEG_INFINITY);
    for b in boxes {
        acc = (acc.0.min(b.0), acc.1.min(b.1), acc.2.max(b.2), acc.3.max(b.3));
    }
    acc
}

#[test]
fn group_objects_expected_lines() {
    // Characters A (0,0,5,5), B (6,0,10,5) and C (0,10,5,15) under the
    // default parameters: A and B share a line one unit apart (aligned
    // horizontally, with a word gap wider than 0.1 * 5), B and C line up in
    // neither direction.
    let aligns = vec![
        PairAlignment { halign: true, valign: false, hgap: true, vgap: false },
        PairAlignment { halign: false, valign: false, hgap: false, vgap: false },
    ];
    let lines = group_objects(3, &aligns);
    assert_eq!(lines.len(), 2);
}

#[test]
fn arena_grouping_expected_output() {
    // Horizontal lines (0,0,10,2), (0,2.5,10,4.5) and (20,0,30,2) under the
    // default line margin 0.5: the first two lie within one line height
    // (2 * 0.5) of each other and share their left edge and height; the
    // third is alone.
    let bboxes: Vec<Rect> = vec![(0.0, 0.0, 10.0, 2.0), (0.0, 2.5, 10.0, 4.5), (20.0, 0.0, 30.0, 2.0)];
    let aligned = vec![vec![0, 1], vec![0, 1], vec![2]];
    let boxes = group_textlines(&aligned, &vec![false, false, false]);
    let mut got: Vec<Rect> = boxes
        .iter()
        .map(|b| union(&b.lines.iter().map(|&i| bboxes[i]).collect::<Vec<_>>()))
        .collect();
    got.sort_by(|a, b| a.partial_cmp(b).unwrap());
    assert_eq!(got.len(), 2);
    assert_eq!(got[0], (0.0, 0.0, 10.0, 4.5));
    assert_eq!(got[1], (20.0, 0.0, 30.0, 2.0));
}

#[test]
fn textline_boxes_keep_merge_order() {
    let aligned = vec![vec![0, 1], vec![0, 1], vec![2]];
    let boxes = group_textlines(&aligned, &vec![false, false, false]);
    assert_eq!(boxes.len(), 2);
    assert_eq!(boxes[0].lines, vec![1, 0]);
    assert!(!boxes[0].vertical);
    assert_eq!(boxes[1].lines, vec![2]);
}

#[test]
fn textline_boxes_take_mode_of_first_line() {
    let aligned = vec![vec![0], vec![1, 2], vec![1, 2]];
    let boxes = group_textlines(&aligned, &vec![false, true, true]);
    assert_eq!(boxes.len(), 2);
    assert_eq!(boxes[0].lines, vec![0]);
    assert!(!boxes[0].vertical);
    assert_eq!(boxes[1].lines, vec![2, 1]);
    assert!(boxes[1].vertical);
}

#[test]
fn textline_boxes_chain_through_later_lines() {
    // Line 1 joins 0 and 2, which are not aligned with each other; line 2
    // then takes the whole box over.
    let aligned = vec![vec![0], vec![0, 1, 2], vec![2]];
    let boxes = group_textlines(&aligned, &vec![false, false, false]);
    assert_eq!(boxes.len(), 1);
    assert_eq!(boxes[0].lines, vec![2, 1, 0]);
}

#[test]
fn textline_boxes_of_no_lines() {
    let boxes = group_textlines(&Vec::new(), &Vec::new());
    assert!(boxes.is_empty());
}

#[test]
fn textline_boxes_partition_self_aligned_lines() {
    let aligned = vec![vec![0, 2], vec![1, 3], vec![0, 2, 3], vec![3], vec![4]];
    let boxes = group_textlines(&aligned, &vec![false; 5]);
    let mut seen = vec![0; 5];
    for b in &boxes {
        for &line in &b.lines {
            seen[line] += 1;
        }
    }
    assert_eq!(seen, vec![1; 5]);
}

#[test]
fn segment_lines_of_no_characters() {
    assert!(segment_lines(0, &Vec::new()).is_empty());
}

#[test]
fn segment_lines_single_character() {
    assert_eq!(segment_lines(1, &Vec::new()), vec![run(0, 1, false)]);
}

#[test]
fn segment_lines_horizontal_then_break() {
    let aligns = vec![pair(true, false), pair(true, false), pair(false, false), pair(false, false)];
    assert_eq!(
        segment_lines(5, &aligns),
        vec![run(0, 3, false), run(3, 4, false), run(4, 5, false)]
    );
}

#[test]
fn segment_lines_vertical_run() {
    let aligns = vec![pair(false, true), pair(false, true), pair(true, false)];
    assert_eq!(segment_lines(4, &aligns), vec![run(0, 3, true), run(3, 4, false)]);
}

#[test]
fn segment_lines_both_alignments_make_single_line() {
    // A pair aligned both ways starts no line; it continues an open one.
    let aligns = vec![pair(true, true), pair(true, false), pair(true, true)];
    assert_eq!(segment_lines(4, &aligns), vec![run(0, 1, false), run(1, 4, false)]);
}

#[test]
fn line_items_put_word_spaces_between_characters() {
    let aligns = vec![
        PairAlignment { halign: true, valign: false, hgap: true, vgap: false },
        PairAlignment { halign: true, valign: false, hgap: false, vgap: true },
    ];
    assert_eq!(
        line_items(&aligns, run(0, 3, false)),
        vec![LineItem::Char(0), LineItem::WordSpace, LineItem::Char(1), LineItem::Char(2), LineItem::LineEnd]
    );
    assert_eq!(
        line_items(&aligns, run(0, 3, true)),
        vec![LineItem::Char(0), LineItem::Char(1), LineItem::WordSpace, LineItem::Char(2), LineItem::LineEnd]
    );
}

#[test]
fn group_objects_lays_out_each_line() {
    let aligns = vec![
        PairAlignment { halign: true, valign: false, hgap: true, vgap: false },
        PairAlignment { halign: false, valign: false, hgap: true, vgap: false },
    ];
    let lines = group_objects(3, &aligns);
    assert_eq!(lines.len(), 2);
    assert_eq!(lines[0].run, run(0, 2, false));
    assert_eq!(
        lines[0].items,
        vec![LineItem::Char(0), LineItem::WordSpace, LineItem::Char(1), LineItem::LineEnd]
    );
    assert_eq!(lines[1].run, run(2, 3, false));
    assert_eq!(lines[1].items, vec![LineItem::Char(2), LineItem::LineEnd]);
}

#[test]
fn group_objects_keeps_every_character_once_in_order() {
    let aligns = vec![pair(true, false), pair(false, true), pair(false, true), pair(true, true), pair(false, false)];
    let lines = group_objects(6, &aligns);
    let chars: Vec<usize> = lines
        .iter()
        .flat_map(|line| line.items.iter())
        .filter_map(|item| match item {
            LineItem::Char(index) => Some(*index),
            _ => None,
        })
        .collect();
    assert_eq!(chars, vec![0, 1, 2, 3, 4, 5]);
    assert_eq!(
        lines.iter().map(|line| line.run).collect::<Vec<_>>(),
        vec![run(0, 2, false), run(2, 5, true), run(5, 6, false)]
    );
}
