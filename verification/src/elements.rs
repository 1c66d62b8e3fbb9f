//! Layout elements that carry no geometry: virtual characters, the text
//! axis, the text-box interface and the reading-order index assigner.
use vstd::prelude::*;
use crate::arena::BoxId;

verus! {

/// Axis of a text line: horizontal (left-to-right) or vertical (top-to-bottom).
#[derive(Debug, Clone, Copy, PartialEq, Eq, Hash, Structural)]
pub enum Axis {
    /// Horizontal text.
    Horizontal,
    /// Vertical text.
    Vertical,
}

/// Virtual character inserted by the layout analyzer (such as a space or a
/// line feed); it has no bounding box.
#[derive(Debug, Clone, PartialEq)]
pub struct LTAnno {
    text: String,
}

impl LTAnno {
    pub closed spec fn spec_text(&self) -> Seq<char> {
        self.text@
    }

    pub fn new(text: &str) -> (r: Self)
        ensures
            r.spec_text() == text@,
    {
        LTAnno { text: text.to_owned() }
    }

    pub fn get_text(&self) -> (r: &str)
        ensures
            r@ == self.spec_text(),
    {
        self.text.as_str()
    }
}

/// The interface of text boxes.
pub trait LTTextBox {
    fn get_text(&self) -> String;

    fn get_writing_mode(&self) -> &'static str;

    fn index(&self) -> i32;

    fn set_index(&mut self, index: i32);

    fn is_empty(&self) -> bool;

    fn axis(&self) -> Axis;
}

/// A node of a text-group hierarchy as the index assigner sees it: a text
/// box (the arena box it stands for and its reading-order index) or a group
/// of further nodes.
#[derive(Debug)]
pub enum GroupNode {
    /// A text box.
    TextBox { id: BoxId, index: i32 },
    /// A nested group, and whether it holds vertical text.
    Group { children: Vec<GroupNode>, vertical: bool },
}

/// Number of text boxes in a node, nested groups included.
pub open spec fn box_count(n: GroupNode) -> nat
    decreases n, 1nat,
{
    match n {
        GroupNode::TextBox { .. } => 1,
        GroupNode::Group { children, .. } => box_count_seq(children@, children@.len() as int),
    }
}

/// Number of text boxes in the first `k` nodes of `s`.
pub open spec fn box_count_seq(s: Seq<GroupNode>, k: int) -> nat
    decreases s, k,
{
    if k <= 0 || k > s.len() {
        0
    } else {
        box_count_seq(s, k - 1) + box_count(s[k - 1])
    }
}

/// `new` is `old` with its text boxes numbered consecutively from `start`,
/// depth first in element order; ids and the tree shape are kept.
pub open spec fn numbered(old: GroupNode, new: GroupNode, start: int) -> bool
    decreases old, 1nat,
{
    match old {
        GroupNode::TextBox { id, .. } => new == (GroupNode::TextBox { id, index: start as i32 }),
        GroupNode::Group { children: a, vertical: va } => match new {
            GroupNode::Group { children: b, vertical: vb } => va == vb && a@.len() == b@.len() && numbered_seq(
                a@,
                b@,
                start,
                a@.len() as int,
            ),
            _ => false,
        },
    }
}

/// The first `k` nodes of `b` are those of `a`, numbered from `start` on.
pub open spec fn numbered_seq(a: Seq<GroupNode>, b: Seq<GroupNode>, start: int, k: int) -> bool
    decreases a, k,
{
    if k <= 0 || k > a.len() {
        true
    } else {
        numbered_seq(a, b, start, k - 1) && numbered(a[k - 1], b[k - 1], start + box_count_seq(a, k - 1))
    }
}

/// Counting more of the nodes counts no fewer boxes.
pub proof fn lemma_box_count_monotone(s: Seq<GroupNode>, j: int, k: int)
    requires
        0 <= j <= k <= s.len(),
    ensures
        box_count_seq(s, j) <= box_count_seq(s, k),
    decreases k - j,
{
    if j < k {
        lemma_box_count_monotone(s, j, k - 1);
    }
}

proof fn lemma_numbered_seq_push(a: Seq<GroupNode>, b: Seq<GroupNode>, x: GroupNode, start: int, k: int)
    requires
        0 <= k <= b.len(),
        numbered_seq(a, b, start, k),
    ensures
        numbered_seq(a, b.push(x), start, k),
    decreases k,
{
    if k > 0 && k <= a.len() {
        lemma_numbered_seq_push(a, b, x, start, k - 1);
        assert(b.push(x)[k - 1] == b[k - 1]);
    }
}

/// The indices of the text boxes of a node, depth first in element order.
pub open spec fn box_indices(n: GroupNode) -> Seq<int>
    decreases n, 1nat,
{
    match n {
        GroupNode::TextBox { index, .. } => seq![index as int],
        GroupNode::Group { children, .. } => box_indices_seq(children@, children@.len() as int),
    }
}

/// The indices of the text boxes of the first `k` nodes of `s`, depth first.
pub open spec fn box_indices_seq(s: Seq<GroupNode>, k: int) -> Seq<int>
    decreases s, k,
{
    if k <= 0 || k > s.len() {
        Seq::empty()
    } else {
        box_indices_seq(s, k - 1) + box_indices(s[k - 1])
    }
}

/// The integers `start`, `start + 1`, ..., `start + count - 1`.
pub open spec fn consecutive(start: int, count: nat) -> Seq<int> {
    Seq::new(count, |i: int| start + i)
}

proof fn lemma_numbered_node(a: GroupNode, b: GroupNode, start: int)
    requires
        numbered(a, b, start),
        i32::MIN <= start,
        start + box_count(a) <= i32::MAX + 1,
    ensures
        box_indices(b) == consecutive(start, box_count(a)),
    decreases a, 1nat,
{
    match a {
        GroupNode::TextBox { .. } => {
            assert(box_indices(b) =~= consecutive(start, 1));
        },
        GroupNode::Group { children: ca, .. } => {
            match b {
                GroupNode::Group { children: cb, .. } => {
                    assert(decreases_to!(a => ca));
                    assert(decreases_to!(ca => ca@));
                    lemma_numbered_children(ca@, cb@, start, ca@.len() as int);
                },
                _ => {},
            }
        },
    }
}

proof fn lemma_numbered_children(a: Seq<GroupNode>, b: Seq<GroupNode>, start: int, k: int)
    requires
        0 <= k <= a.len(),
        k <= b.len(),
        numbered_seq(a, b, start, k),
        i32::MIN <= start,
        start + box_count_seq(a, k) <= i32::MAX + 1,
    ensures
        box_indices_seq(b, k) == consecutive(start, box_count_seq(a, k)),
    decreases a, k,
{
    if k > 0 {
        let m = box_count_seq(a, k - 1);
        lemma_numbered_children(a, b, start, k - 1);
        assert(decreases_to!(a => a[k - 1]));
        lemma_numbered_node(a[k - 1], b[k - 1], start + m);
        assert(consecutive(start, m) + consecutive(start + m, box_count(a[k - 1])) =~= consecutive(
            start,
            box_count_seq(a, k),
        ));
    } else {
        assert(box_indices_seq(b, k) =~= consecutive(start, 0));
    }
}

/// What one run of the index assigner gives: when `b` is `a` with its text
/// boxes numbered from `start`, the indices of `b`'s text boxes, depth first,
/// are `start`, `start + 1`, ... up to the number of boxes.
pub proof fn lemma_run_numbers_consecutively(a: Seq<GroupNode>, b: Seq<GroupNode>, start: int)
    requires
        a.len() == b.len(),
        numbered_seq(a, b, start, a.len() as int),
        0 <= start,
        start + box_count_seq(a, a.len() as int) <= i32::MAX,
    ensures
        box_indices_seq(b, b.len() as int) == consecutive(start, box_count_seq(a, a.len() as int)),
{
    lemma_numbered_children(a, b, start, a.len() as int);
}

/// Two runs in a row, the second starting where the first left off (as the
/// assigner's next index does), number the boxes of both groups
/// consecutively from the first start: no index is given twice.
pub proof fn lemma_runs_continue_numbering(
    a1: Seq<GroupNode>,
    b1: Seq<GroupNode>,
    a2: Seq<GroupNode>,
    b2: Seq<GroupNode>,
    start: int,
)
    requires
        a1.len() == b1.len(),
        a2.len() == b2.len(),
        numbered_seq(a1, b1, start, a1.len() as int),
        numbered_seq(a2, b2, start + box_count_seq(a1, a1.len() as int), a2.len() as int),
        0 <= start,
        start + box_count_seq(a1, a1.len() as int) + box_count_seq(a2, a2.len() as int) <= i32::MAX,
    ensures
        box_indices_seq(b1, b1.len() as int) + box_indices_seq(b2, b2.len() as int) == consecutive(
            start,
            box_count_seq(a1, a1.len() as int) + box_count_seq(a2, a2.len() as int),
        ),
{
    let m1 = box_count_seq(a1, a1.len() as int);
    let m2 = box_count_seq(a2, a2.len() as int);
    lemma_run_numbers_consecutively(a1, b1, start);
    lemma_run_numbers_consecutively(a2, b2, start + m1);
    assert(consecutive(start, m1) + consecutive(start + m1, m2) =~= consecutive(start, m1 + m2));
}

/// Assigns sequential indices to text boxes in reading order.
pub struct IndexAssigner {
    index: i32,
}

impl IndexAssigner {
    /// The index the next text box receives.
    pub closed spec fn next_index(&self) -> int {
        self.index as int
    }

    pub fn new() -> (r: Self)
        ensures
            r.next_index() == 0,
    {
        IndexAssigner { index: 0 }
    }

    /// Numbers the text boxes of a group's elements, depth first, from the
    /// next index on; the next index then follows the last one given.
    pub fn run(&mut self, group: &mut Vec<GroupNode>)
        requires
            old(self).next_index() + box_count_seq(old(group)@, old(group)@.len() as int) <= i32::MAX,
        ensures
            final(group)@.len() == old(group)@.len(),
            numbered_seq(old(group)@, final(group)@, old(self).next_index(), old(group)@.len() as int),
            final(self).next_index() == old(self).next_index() + box_count_seq(
                old(group)@,
                old(group)@.len() as int,
            ),
        decreases *old(group),
    {
        let ghost orig_vec = *group;
        let ghost orig = group@;
        let ghost start = self.index as int;
        let mut rest: Vec<GroupNode> = Vec::new();
        while group.len() > 0
            invariant
                orig_vec == *old(group),
                orig_vec@ == orig,
                group@ + rest@.reverse() == orig,
            decreases group.len(),
        {
            let x = group.pop().unwrap();
            rest.push(x);
            assert(group@ + rest@.reverse() =~= orig);
        }
        assert(rest@.reverse() =~= orig);
        while rest.len() > 0
            invariant
                orig_vec == *old(group),
                orig_vec@ == orig,
                rest@.reverse() == orig.skip(group@.len() as int),
                group@.len() + rest@.len() == orig.len(),
                numbered_seq(orig, group@, start, group@.len() as int),
                self.index == start + box_count_seq(orig, group@.len() as int),
                start + box_count_seq(orig, orig.len() as int) <= i32::MAX,
            decreases rest.len(),
        {
            let k = group.len();
            assert(rest@[rest@.len() - 1] == rest@.reverse()[0]);
            let ghost old_rest = rest@;
            let node = rest.pop().unwrap();
            assert(node == orig[k as int]);
            assert forall|i: int| 0 <= i < rest@.len() implies rest@.reverse()[i] == orig.skip(k + 1)[i] by {
                assert(rest@.reverse()[i] == old_rest.reverse()[i + 1]);
                assert(orig.skip(k as int)[i + 1] == orig.skip(k + 1)[i]);
            }
            assert(rest@.reverse() =~= orig.skip(k + 1));
            proof {
                lemma_box_count_monotone(orig, k + 1, orig.len() as int);
                assert(box_count_seq(orig, k + 1) == box_count_seq(orig, k as int) + box_count(orig[k as int]));
            }
            let ghost before = group@;
            let ghost offset = start + box_count_seq(orig, k as int);
            match node {
                GroupNode::TextBox { id, .. } => {
                    group.push(GroupNode::TextBox { id, index: self.index });
                    self.index = self.index + 1;
                },
                GroupNode::Group { mut children, vertical } => {
                    proof {
                        assert(orig[k as int] == GroupNode::Group { children, vertical });
                        assert(decreases_to!(orig => orig[k as int]));
                        assert(decreases_to!(orig[k as int] => children));
                        assert(decreases_to!(children => children@));
                        assert(decreases_to!(orig_vec => orig_vec@));
                        assert(orig_vec@ == orig);
                        assert(decreases_to!(orig_vec => children));
                    }
                    self.run(&mut children);
                    group.push(GroupNode::Group { children, vertical });
                },
            }
            proof {
                assert(numbered(orig[k as int], group@[k as int], offset));
                lemma_numbered_seq_push(orig, before, group@[k as int], start, k as int);
                assert(before.push(group@[k as int]) =~= group@);
                assert(numbered_seq(orig, group@, start, k as int));
            }
        }
    }
}

} // verus!
