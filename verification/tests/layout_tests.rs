use bolivar_core::arena::{
    AnnoId, ArenaElem, ArenaTextLine, CharId, LayoutArena,
    ArenaTextBox, BoxId, CompactGroup, CompactGroupElement, GroupId, LineId, line_is_empty, store_group,
};
use bolivar_core::elements::{GroupNode, IndexAssigner, LTAnno};
use bolivar_core::model::{PDFColorSpace, PDFObjRef, inline_colorspace_abbrev, predefined_colorspace};
use bolivar_core::spatial::{BestEntry, FrontierEntry, GroupHeapEntry, PairMode, TreeKind};
use std::cmp::Ordering;

fn text_box(id: usize) -> GroupNode {
    GroupNode::TextBox { id: BoxId(id), index: -1 }
}

fn group(children: Vec<GroupNode>) -> GroupNode {
    GroupNode::Group { children, vertical: false }
}

fn indices(nodes: &[GroupNode], out: &mut Vec<(usize, i32)>) {
    for node in nodes {
        match node {
            GroupNode::TextBox { id, index } => out.push((id.0, *index)),
            GroupNode::Group { children, .. } => indices(children, out),
        }
    }
}

#[test]
fn index_assigner_numbers_boxes_depth_first() {
    let mut tree = vec![
        text_box(7),
        group(vec![text_box(3), group(vec![text_box(5)]), text_box(1)]),
        text_box(2),
    ];
    let mut assigner = IndexAssigner::new();
    assigner.run(&mut tree);
    let mut out = Vec::new();
    indices(&tree, &mut out);
    assert_eq!(out, vec![(7, 0), (3, 1), (5, 2), (1, 3), (2, 4)]);

    let mut more = vec![text_box(9)];
    assigner.run(&mut more);
    let mut out = Vec::new();
    indices(&more, &mut out);
    assert_eq!(out, vec![(9, 5)]);
}

#[test]
fn index_assigner_leaves_empty_groups_alone() {
    let mut tree = vec![group(vec![]), text_box(4)];
    let mut assigner = IndexAssigner::new();
    assigner.run(&mut tree);
    let mut out = Vec::new();
    indices(&tree, &mut out);
    assert_eq!(out, vec![(4, 0)]);
    assert!(matches!(&tree[0], GroupNode::Group { children, vertical: false } if children.is_empty()));
}

#[test]
fn annotations_keep_their_text() {
    let anno = LTAnno::new("\n");
    assert_eq!(anno.get_text(), "\n");
    assert_eq!(LTAnno::new("").get_text(), "");
}

#[test]
fn arena_text_boxes_report_their_lines() {
    let horizontal = ArenaTextBox::Horizontal(vec![LineId(0), LineId(2)]);
    let vertical = ArenaTextBox::Vertical(vec![LineId(1)]);
    assert_eq!(horizontal.lines(), &vec![LineId(0), LineId(2)]);
    assert!(!horizontal.is_vertical());
    assert!(vertical.is_vertical());
    assert_eq!(vertical.lines().len(), 1);
}

fn pair(skip: bool, dist: i64, id1: u64, id2: u64) -> GroupHeapEntry {
    GroupHeapEntry { skip_isany: skip, dist, id1, id2, elem1_idx: 0, elem2_idx: 1 }
}

fn frontier(dist: i64, id1: u64, id2: u64) -> FrontierEntry {
    FrontierEntry {
        lb_dist: dist,
        lb_id1: id1,
        lb_id2: id2,
        node_a: 0,
        node_b: 0,
        mode: PairMode::InitialIJ,
        tree: TreeKind::Initial,
    }
}

#[test]
fn smaller_keys_have_higher_priority() {
    let near = pair(false, 5, 1, 2);
    let far = pair(false, 9, 0, 1);
    let skipped = pair(true, 1, 0, 1);
    assert_eq!(near.heap_priority(&far), Ordering::Greater);
    assert_eq!(far.heap_priority(&near), Ordering::Less);
    assert_eq!(near.heap_priority(&skipped), Ordering::Greater);
    assert_eq!(near.heap_priority(&pair(false, 5, 1, 2)), Ordering::Equal);
    assert!(near.same_key(&pair(false, 5, 1, 2)));
    assert!(!near.same_key(&far));
    assert_eq!(near.key(), (false, 5, 1, 2, 0));
}

#[test]
fn frontier_entries_win_ties_against_pairs() {
    let f = frontier(5, 1, 2);
    let p = pair(false, 5, 1, 2);
    assert!(f.could_beat(&p));
    assert!(!frontier(5, 1, 3).could_beat(&p));
    assert!(frontier(4, 9, 9).could_beat(&p));
    assert!(frontier(9, 0, 0).could_beat(&pair(true, 1, 0, 0)));
    let fe = BestEntry::Frontier(f.clone());
    let pe = BestEntry::Pair(p.clone());
    assert_eq!(fe.key_parts(), (false, 5, 1, 2, 0));
    assert_eq!(pe.key_parts(), (false, 5, 1, 2, 1));
    assert_eq!(fe.heap_priority(&pe), Ordering::Greater);
    assert!(!fe.same_key(&pe));
    assert_eq!(f.heap_priority(&frontier(6, 0, 0)), Ordering::Greater);
    assert!(f.same_key(&frontier(5, 1, 2)));
}

#[test]
fn predefined_color_spaces_have_their_component_counts() {
    let rgb = predefined_colorspace("DeviceRGB").unwrap();
    assert_eq!(rgb, PDFColorSpace::new("DeviceRGB", 3));
    assert_eq!(predefined_colorspace("DeviceCMYK").unwrap().ncomponents, 4);
    assert_eq!(predefined_colorspace("DeviceGray").unwrap().ncomponents, 1);
    assert_eq!(predefined_colorspace("Lab").unwrap().ncomponents, 3);
    assert!(predefined_colorspace("DeviceN").is_none());
    assert_eq!(inline_colorspace_abbrev("RGB"), Some("DeviceRGB"));
    assert_eq!(inline_colorspace_abbrev("G"), Some("DeviceGray"));
    assert_eq!(inline_colorspace_abbrev("I"), None);
}

#[test]
fn object_references_keep_their_numbers() {
    let r = PDFObjRef::new(12, 3);
    assert_eq!(r.objid, 12);
    assert_eq!(r.genno, 3);
    assert_eq!(r, PDFObjRef { objid: 12, genno: 3 });
}

#[test]
fn blank_lines_count_as_empty() {
    let texts = |items: &[&str]| items.iter().map(|s| s.to_string()).collect::<Vec<String>>();
    assert!(line_is_empty(&texts(&[" ", "\n"]), false));
    assert!(!line_is_empty(&texts(&[" ", "a"]), false));
    assert!(!line_is_empty(&texts(&["", ""]), false));
    assert!(!line_is_empty(&texts(&[]), false));
    assert!(line_is_empty(&texts(&["a"]), true));
}

fn numbered_box(index: i32) -> GroupNode {
    GroupNode::TextBox { id: BoxId(99), index }
}

#[test]
fn groups_are_stored_nested_first() {
    let box_order = vec![BoxId(10), BoxId(11), BoxId(12)];
    let children = vec![
        numbered_box(2),
        GroupNode::Group { children: vec![numbered_box(0), numbered_box(1)], vertical: true },
    ];
    let mut groups: Vec<CompactGroup> = Vec::new();
    let id = store_group(&children, false, &box_order, &mut groups);
    assert_eq!(id, GroupId(1));
    assert_eq!(groups.len(), 2);
    assert_eq!(
        groups[0].elements,
        vec![CompactGroupElement::Box(BoxId(10)), CompactGroupElement::Box(BoxId(11))]
    );
    assert!(groups[0].vertical);
    assert_eq!(
        groups[1].elements,
        vec![CompactGroupElement::Box(BoxId(12)), CompactGroupElement::Group(GroupId(0))]
    );
    assert!(!groups[1].vertical);
}

#[test]
fn white_space_test_agrees_with_std_on_every_char() {
    for v in 0u32..=0x10FFFF {
        if let Some(c) = char::from_u32(v) {
            let t = vec![c.to_string()];
            assert_eq!(line_is_empty(&t, false), c.is_whitespace(), "code point {v:#x}");
        }
    }
}

#[test]
fn arena_reads_back_what_was_pushed() {
    let mut arena: LayoutArena<char, String, (f64, f64, f64, f64)> = LayoutArena::with_char_capacity(4);
    let a = arena.push_char('a');
    let b = arena.push_char('b');
    assert_eq!((a, b), (CharId(0), CharId(1)));
    assert_eq!(*arena.get_char(a), 'a');
    assert_eq!(*arena.get_char(b), 'b');
    let space = arena.push_anno(" ".to_string());
    assert_eq!(space, AnnoId(0));
    assert_eq!(arena.get_anno(space), " ");

    let line = arena.push_line(ArenaTextLine {
        geometry: (0.0, 0.0, 10.0, 5.0),
        vertical: false,
        elements: vec![ArenaElem::Char(a), ArenaElem::Anno(space), ArenaElem::Char(b)],
        bidi: false,
    });
    assert_eq!(line, LineId(0));
    assert!(!arena.line_is_vertical(line));
    arena.analyze_line(line, "\n".to_string());
    let elements = &arena.get_line(line).elements;
    assert_eq!(elements.len(), 4);
    assert_eq!(elements[3], ArenaElem::Anno(AnnoId(1)));
    assert_eq!(arena.get_anno(AnnoId(1)), "\n");
    assert_eq!(arena.get_line(line).geometry, (0.0, 0.0, 10.0, 5.0));

    arena.set_bidi(true);
    assert!(arena.get_line(line).bidi);

    let first = arena.push_box(ArenaTextBox::Horizontal(vec![line]));
    let second = arena.push_box(ArenaTextBox::Vertical(vec![]));
    assert_eq!((first, second), (BoxId(0), BoxId(1)));
    assert_eq!(arena.box_index(first), -1);
    assert!(!arena.box_is_vertical(first));
    assert!(arena.box_is_vertical(second));
    arena.set_box_index(second, 7);
    assert_eq!(arena.box_index(second), 7);
    assert_eq!(arena.box_index(first), -1);
}

#[test]
fn new_arena_is_empty_and_numbers_from_zero() {
    let mut arena: LayoutArena<u8, u8, ()> = LayoutArena::new();
    assert_eq!(arena.push_char(1), CharId(0));
    assert_eq!(arena.push_anno(2), AnnoId(0));
    assert_eq!(arena.push_box(ArenaTextBox::Horizontal(vec![])), BoxId(0));
}
