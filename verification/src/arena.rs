//! The layout arena: compact identifiers, the stored characters, lines and
//! boxes they reach, and the compact group hierarchy of a page.
use vstd::prelude::*;
use crate::bidi::text::chars_of_str;
use crate::bidi::unicode::{char_is_whitespace, unicode_white_space};
use crate::elements::{GroupNode, box_count, box_count_seq, lemma_box_count_monotone, numbered, numbered_seq};

verus! {

/// Index of a character in the arena.
#[derive(Debug, Copy, Clone, Eq, PartialEq, Hash, Structural)]
pub struct CharId(pub usize);

/// Index of an annotation (virtual character) in the arena.
#[derive(Debug, Copy, Clone, Eq, PartialEq, Hash, Structural)]
pub struct AnnoId(pub usize);

/// Index of a text line in the arena.
#[derive(Debug, Copy, Clone, Eq, PartialEq, Hash, Structural)]
pub struct LineId(pub usize);

/// Index of a text box in the arena.
#[derive(Debug, Copy, Clone, Eq, PartialEq, Hash, Structural)]
pub struct BoxId(pub usize);

/// An element of an arena text line.
#[derive(Debug, Copy, Clone, Eq, PartialEq, Hash, Structural)]
pub enum ArenaElem {
    Char(CharId),
    Anno(AnnoId),
}

/// An arena text box: its lines, by writing mode.
#[derive(Debug, Clone)]
pub enum ArenaTextBox {
    Horizontal(Vec<LineId>),
    Vertical(Vec<LineId>),
}

impl ArenaTextBox {
    /// The lines of the box, in order.
    pub fn lines(&self) -> (r: &Vec<LineId>)
        ensures
            r@ == match *self {
                ArenaTextBox::Horizontal(lines) => lines@,
                ArenaTextBox::Vertical(lines) => lines@,
            },
    {
        match self {
            ArenaTextBox::Horizontal(lines) => lines,
            ArenaTextBox::Vertical(lines) => lines,
        }
    }

    /// Whether the box holds vertical lines.
    pub fn is_vertical(&self) -> (r: bool)
        ensures
            r == (*self is Vertical),
    {
        match self {
            ArenaTextBox::Horizontal(_) => false,
            ArenaTextBox::Vertical(_) => true,
        }
    }
}

/// Every character of `s` is white space.
pub open spec fn all_white_space(s: Seq<char>) -> bool {
    forall|k: int| 0 <= k < s.len() ==> unicode_white_space(#[trigger] s[k])
}

/// Whether a text line counts as empty: its box is empty, or its elements
/// (with texts `texts`) hold some text and all of it is white space.
pub fn line_is_empty(texts: &Vec<String>, component_empty: bool) -> (r: bool)
    ensures
        r == (component_empty || ((exists|i: int| 0 <= i < texts@.len() && #[trigger] texts@[i]@.len() > 0)
            && forall|i: int| 0 <= i < texts@.len() ==> all_white_space(#[trigger] texts@[i]@))),
{
    let mut has_any = false;
    let mut has_non_ws = false;
    let mut i: usize = 0;
    while i < texts.len()
        invariant_except_break
            i <= texts@.len(),
            !has_non_ws,
            has_any == exists|j: int| 0 <= j < i && #[trigger] texts@[j]@.len() > 0,
            forall|j: int| 0 <= j < i ==> all_white_space(#[trigger] texts@[j]@),
        ensures
            has_non_ws ==> exists|j: int| 0 <= j < texts@.len() && !all_white_space(#[trigger] texts@[j]@),
            !has_non_ws ==> has_any == exists|j: int| 0 <= j < texts@.len() && #[trigger] texts@[j]@.len() > 0,
            !has_non_ws ==> forall|j: int| 0 <= j < texts@.len() ==> all_white_space(#[trigger] texts@[j]@),
        decreases texts@.len() - i,
    {
        let chars = chars_of_str(texts[i].as_str());
        if chars.len() > 0 {
            has_any = true;
        }
        let mut k: usize = 0;
        let mut found = false;
        while k < chars.len() && !found
            invariant
                k <= chars@.len(),
                i < texts@.len(),
                chars@ == texts@[i as int]@,
                !found ==> forall|m: int| 0 <= m < k ==> unicode_white_space(#[trigger] chars@[m]),
                found ==> exists|m: int| 0 <= m < chars@.len() && !unicode_white_space(#[trigger] chars@[m]),
            decreases chars@.len() - k,
        {
            if !char_is_whitespace(chars[k]) {
                found = true;
            }
            k += 1;
        }
        if found {
            has_non_ws = true;
            assert(!all_white_space(texts@[i as int]@));
            break;
        }
        i += 1;
    }
    component_empty || (has_any && !has_non_ws)
}

/// Index of a stored group of a compact page layout.
#[derive(Debug, Copy, Clone, Eq, PartialEq, Hash, Structural)]
pub struct GroupId(pub usize);

/// An element of a stored group: a text box or an earlier stored group.
#[derive(Debug, Copy, Clone, Eq, PartialEq, Structural)]
pub enum CompactGroupElement {
    Box(BoxId),
    Group(GroupId),
}

/// A stored group: its elements and whether it holds vertical text.
#[derive(Debug, Clone)]
pub struct CompactGroup {
    pub elements: Vec<CompactGroupElement>,
    pub vertical: bool,
}

/// Stored groups as (elements, vertical) pairs.
pub open spec fn compact_views(groups: Seq<CompactGroup>) -> Seq<(Seq<CompactGroupElement>, bool)> {
    groups.map_values(|g: CompactGroup| (g.elements@, g.vertical))
}

/// Every text box in `n` has an index into a box order of length `len`.
pub open spec fn indices_valid(n: GroupNode, len: nat) -> bool
    decreases n, 1nat,
{
    match n {
        GroupNode::TextBox { index, .. } => 0 <= index < len,
        GroupNode::Group { children, .. } => indices_valid_seq(children@, children@.len() as int, len),
    }
}

/// Every text box in the first `k` nodes of `s` has an index below `len`.
pub open spec fn indices_valid_seq(s: Seq<GroupNode>, k: int, len: nat) -> bool
    decreases s, k,
{
    if k <= 0 || k > s.len() {
        true
    } else {
        indices_valid_seq(s, k - 1, len) && indices_valid(s[k - 1], len)
    }
}

/// The stored groups after storing the group node `n` on top of `groups`:
/// its nested groups first, depth first, then the group itself, whose
/// elements name text boxes by `order[index]` and nested groups by id.
pub open spec fn stored_node(
    n: GroupNode,
    order: Seq<BoxId>,
    groups: Seq<(Seq<CompactGroupElement>, bool)>,
) -> Seq<(Seq<CompactGroupElement>, bool)>
    decreases n, 1nat,
{
    match n {
        GroupNode::TextBox { .. } => groups,
        GroupNode::Group { children, vertical } => {
            let (g, elements) = stored_children(children@, children@.len() as int, order, groups);
            g.push((elements, vertical))
        },
    }
}

/// The stored groups and the elements after storing the first `k` of the
/// nodes `s` on top of `groups`.
pub open spec fn stored_children(
    s: Seq<GroupNode>,
    k: int,
    order: Seq<BoxId>,
    groups: Seq<(Seq<CompactGroupElement>, bool)>,
) -> (Seq<(Seq<CompactGroupElement>, bool)>, Seq<CompactGroupElement>)
    decreases s, k,
{
    if k <= 0 || k > s.len() {
        (groups, Seq::empty())
    } else {
        let (g, elements) = stored_children(s, k - 1, order, groups);
        match s[k - 1] {
            GroupNode::TextBox { index, .. } => (g, elements.push(CompactGroupElement::Box(order[index as int]))),
            GroupNode::Group { .. } => {
                let g2 = stored_node(s[k - 1], order, g);
                (g2, elements.push(CompactGroupElement::Group(GroupId((g2.len() - 1) as usize))))
            },
        }
    }
}

/// Stores a group with elements `children` and writing mode `vertical`,
/// its nested groups first, and returns its id; a text box is named by the
/// box at its index in `box_order`.
pub fn store_group(
    children: &Vec<GroupNode>,
    vertical: bool,
    box_order: &Vec<BoxId>,
    groups: &mut Vec<CompactGroup>,
) -> (r: GroupId)
    requires
        indices_valid_seq(children@, children@.len() as int, box_order@.len()),
    ensures
        compact_views(final(groups)@) == stored_node(
            GroupNode::Group { children: *children, vertical },
            box_order@,
            compact_views(old(groups)@),
        ),
        r.0 + 1 == final(groups)@.len(),
    decreases children@,
{
    let ghost start = compact_views(groups@);
    let mut elements: Vec<CompactGroupElement> = Vec::new();
    let mut k: usize = 0;
    while k < children.len()
        invariant
            k <= children@.len(),
            indices_valid_seq(children@, children@.len() as int, box_order@.len()),
            (compact_views(groups@), elements@) == stored_children(children@, k as int, box_order@, start),
        decreases children@.len() - k,
    {
        proof {
            lemma_indices_valid_prefix(children@, k + 1, children@.len() as int, box_order@.len());
        }
        match &children[k] {
            GroupNode::TextBox { index, .. } => {
                let i = *index as usize;
                elements.push(CompactGroupElement::Box(box_order[i]));
            },
            GroupNode::Group { children: nested, vertical: nested_vertical } => {
                proof {
                    assert(decreases_to!(children@ => children@[k as int]));
                }
                let id = store_group(nested, *nested_vertical, box_order, groups);
                elements.push(CompactGroupElement::Group(id));
            },
        }
        k += 1;
    }
    let ghost g = compact_views(groups@);
    let id = GroupId(groups.len());
    groups.push(CompactGroup { elements, vertical });
    proof {
        assert(compact_views(groups@) =~= g.push((elements@, vertical)));
    }
    id
}

proof fn lemma_indices_valid_prefix(s: Seq<GroupNode>, k: int, n: int, len: nat)
    requires
        0 <= k <= n <= s.len(),
        indices_valid_seq(s, n, len),
    ensures
        indices_valid_seq(s, k, len),
        k > 0 ==> indices_valid(s[k - 1], len),
    decreases n - k,
{
    if k < n {
        lemma_indices_valid_prefix(s, k, n - 1, len);
    }
}

/// A node numbered from `start` gives its boxes indices from `start` up to,
/// not including, `start` plus its box count.
pub proof fn lemma_numbered_indices_valid(old: GroupNode, new: GroupNode, start: int, len: nat)
    requires
        numbered(old, new, start),
        0 <= start,
        start + box_count(old) <= len,
        start + box_count(old) <= i32::MAX,
    ensures
        indices_valid(new, len),
    decreases old, 1nat,
{
    match old {
        GroupNode::TextBox { .. } => {},
        GroupNode::Group { children: a, .. } => {
            match new {
                GroupNode::Group { children: b, .. } => {
                    lemma_numbered_seq_indices_valid(a@, b@, start, a@.len() as int, len);
                },
                _ => {},
            }
        },
    }
}

/// Nodes numbered from `start` give their boxes indices below `start` plus
/// their box count.
pub proof fn lemma_numbered_seq_indices_valid(a: Seq<GroupNode>, b: Seq<GroupNode>, start: int, k: int, len: nat)
    requires
        0 <= k <= a.len(),
        numbered_seq(a, b, start, k),
        0 <= start,
        start + box_count_seq(a, k) <= len,
        start + box_count_seq(a, k) <= i32::MAX,
    ensures
        indices_valid_seq(b, k, len),
    decreases a, k,
{
    if k > 0 {
        lemma_box_count_monotone(a, k - 1, k);
        lemma_numbered_seq_indices_valid(a, b, start, k - 1, len);
        lemma_numbered_indices_valid(a[k - 1], b[k - 1], start + box_count_seq(a, k - 1), len);
    }
}

/// Numbering a group's elements from zero names only boxes of a box order
/// as long as the group's box count, so storing the numbered group is
/// always defined.
pub proof fn lemma_numbered_group_can_be_stored(a: Seq<GroupNode>, b: Seq<GroupNode>, len: nat)
    requires
        a.len() == b.len(),
        numbered_seq(a, b, 0, a.len() as int),
        box_count_seq(a, a.len() as int) <= len,
        box_count_seq(a, a.len() as int) <= i32::MAX,
    ensures
        indices_valid_seq(b, b.len() as int, len),
{
    lemma_numbered_seq_indices_valid(a, b, 0, a.len() as int, len);
}

/// A text line of the arena: its geometry `G` (box, margins and trackers,
/// which the library does not read), its writing mode, its elements in
/// order, and whether it holds right-to-left text.
pub struct ArenaTextLine<G> {
    pub geometry: G,
    pub vertical: bool,
    pub elements: Vec<ArenaElem>,
    pub bidi: bool,
}

/// The arena of one page layout: characters, annotations, lines and boxes
/// stored in order and reached by their ids, and each box's reading-order
/// index (`-1` until one is given).
pub struct LayoutArena<C, A, G> {
    chars: Vec<C>,
    annos: Vec<A>,
    lines: Vec<ArenaTextLine<G>>,
    boxes: Vec<ArenaTextBox>,
    box_indices: Vec<i32>,
}

impl<C, A, G> LayoutArena<C, A, G> {
    /// The characters, in the order they were pushed.
    pub closed spec fn char_seq(&self) -> Seq<C> {
        self.chars@
    }

    /// The annotations, in the order they were pushed.
    pub closed spec fn anno_seq(&self) -> Seq<A> {
        self.annos@
    }

    /// The lines, in the order they were pushed.
    pub closed spec fn line_seq(&self) -> Seq<ArenaTextLine<G>> {
        self.lines@
    }

    /// The boxes, in the order they were pushed.
    pub closed spec fn box_seq(&self) -> Seq<ArenaTextBox> {
        self.boxes@
    }

    /// The reading-order index of each box.
    pub closed spec fn box_index_seq(&self) -> Seq<i32> {
        self.box_indices@
    }

    /// Every box has its index.
    pub open spec fn wf(&self) -> bool {
        self.box_seq().len() == self.box_index_seq().len()
    }

    /// An empty arena.
    pub fn new() -> (r: Self)
        ensures
            r.wf(),
            r.char_seq() == Seq::<C>::empty(),
            r.anno_seq() == Seq::<A>::empty(),
            r.line_seq() == Seq::<ArenaTextLine<G>>::empty(),
            r.box_seq() == Seq::<ArenaTextBox>::empty(),
    {
        LayoutArena {
            chars: Vec::new(),
            annos: Vec::new(),
            lines: Vec::new(),
            boxes: Vec::new(),
            box_indices: Vec::new(),
        }
    }

    /// An empty arena with room reserved for `capacity` characters.
    pub fn with_char_capacity(capacity: usize) -> (r: Self)
        ensures
            r.wf(),
            r.char_seq() == Seq::<C>::empty(),
            r.anno_seq() == Seq::<A>::empty(),
            r.line_seq() == Seq::<ArenaTextLine<G>>::empty(),
            r.box_seq() == Seq::<ArenaTextBox>::empty(),
    {
        LayoutArena {
            chars: Vec::with_capacity(capacity),
            annos: Vec::new(),
            lines: Vec::new(),
            boxes: Vec::new(),
            box_indices: Vec::new(),
        }
    }

    /// Stores a character; its id is its position.
    pub fn push_char(&mut self, ch: C) -> (id: CharId)
        ensures
            id.0 == old(self).char_seq().len(),
            final(self).char_seq() == old(self).char_seq().push(ch),
            final(self).anno_seq() == old(self).anno_seq(),
            final(self).line_seq() == old(self).line_seq(),
            final(self).box_seq() == old(self).box_seq(),
            final(self).box_index_seq() == old(self).box_index_seq(),
    {
        let id = CharId(self.chars.len());
        self.chars.push(ch);
        id
    }

    /// The character with id `id`.
    pub fn get_char(&self, id: CharId) -> (r: &C)
        requires
            id.0 < self.char_seq().len(),
        ensures
            *r == self.char_seq()[id.0 as int],
    {
        &self.chars[id.0]
    }

    /// Stores an annotation; its id is its position.
    pub fn push_anno(&mut self, anno: A) -> (id: AnnoId)
        ensures
            id.0 == old(self).anno_seq().len(),
            final(self).anno_seq() == old(self).anno_seq().push(anno),
            final(self).char_seq() == old(self).char_seq(),
            final(self).line_seq() == old(self).line_seq(),
            final(self).box_seq() == old(self).box_seq(),
            final(self).box_index_seq() == old(self).box_index_seq(),
    {
        let id = AnnoId(self.annos.len());
        self.annos.push(anno);
        id
    }

    /// The annotation with id `id`.
    pub fn get_anno(&self, id: AnnoId) -> (r: &A)
        requires
            id.0 < self.anno_seq().len(),
        ensures
            *r == self.anno_seq()[id.0 as int],
    {
        &self.annos[id.0]
    }

    /// Stores a line; its id is its position.
    pub fn push_line(&mut self, line: ArenaTextLine<G>) -> (id: LineId)
        ensures
            id.0 == old(self).line_seq().len(),
            final(self).line_seq() == old(self).line_seq().push(line),
            final(self).char_seq() == old(self).char_seq(),
            final(self).anno_seq() == old(self).anno_seq(),
            final(self).box_seq() == old(self).box_seq(),
            final(self).box_index_seq() == old(self).box_index_seq(),
    {
        let id = LineId(self.lines.len());
        self.lines.push(line);
        id
    }

    /// The line with id `id`.
    pub fn get_line(&self, id: LineId) -> (r: &ArenaTextLine<G>)
        requires
            id.0 < self.line_seq().len(),
        ensures
            *r == self.line_seq()[id.0 as int],
    {
        &self.lines[id.0]
    }

    /// Stores a box with no reading-order index yet; its id is its position.
    pub fn push_box(&mut self, b: ArenaTextBox) -> (id: BoxId)
        requires
            old(self).wf(),
        ensures
            final(self).wf(),
            id.0 == old(self).box_seq().len(),
            final(self).box_seq() == old(self).box_seq().push(b),
            final(self).box_index_seq() == old(self).box_index_seq().push(-1i32),
            final(self).char_seq() == old(self).char_seq(),
            final(self).anno_seq() == old(self).anno_seq(),
            final(self).line_seq() == old(self).line_seq(),
    {
        let id = BoxId(self.boxes.len());
        self.boxes.push(b);
        self.box_indices.push(-1);
        id
    }

    /// Ends line `id` with the line-feed annotation `newline`: the
    /// annotation is stored and appended to the line's elements.
    pub fn analyze_line(&mut self, id: LineId, newline: A)
        requires
            id.0 < old(self).line_seq().len(),
        ensures
            final(self).anno_seq() == old(self).anno_seq().push(newline),
            final(self).line_seq().len() == old(self).line_seq().len(),
            forall|i: int|
                0 <= i < old(self).line_seq().len() && i != id.0 ==> #[trigger] final(self).line_seq()[i]
                    == old(self).line_seq()[i],
            final(self).line_seq()[id.0 as int].elements@ == old(self).line_seq()[id.0 as int].elements@.push(
                ArenaElem::Anno(AnnoId(old(self).anno_seq().len() as usize)),
            ),
            final(self).line_seq()[id.0 as int].geometry == old(self).line_seq()[id.0 as int].geometry,
            final(self).line_seq()[id.0 as int].vertical == old(self).line_seq()[id.0 as int].vertical,
            final(self).line_seq()[id.0 as int].bidi == old(self).line_seq()[id.0 as int].bidi,
            final(self).char_seq() == old(self).char_seq(),
            final(self).box_seq() == old(self).box_seq(),
            final(self).box_index_seq() == old(self).box_index_seq(),
    {
        let aid = self.push_anno(newline);
        let line = &mut self.lines[id.0];
        line.elements.push(ArenaElem::Anno(aid));
    }

    /// Whether box `id` holds vertical lines.
    pub fn box_is_vertical(&self, id: BoxId) -> (r: bool)
        requires
            id.0 < self.box_seq().len(),
        ensures
            r == (self.box_seq()[id.0 as int] is Vertical),
    {
        self.boxes[id.0].is_vertical()
    }

    /// Gives box `id` the reading-order index `index`.
    pub fn set_box_index(&mut self, id: BoxId, index: i32)
        requires
            old(self).wf(),
            id.0 < old(self).box_seq().len(),
        ensures
            final(self).wf(),
            final(self).box_index_seq() == old(self).box_index_seq().update(id.0 as int, index),
            final(self).char_seq() == old(self).char_seq(),
            final(self).anno_seq() == old(self).anno_seq(),
            final(self).line_seq() == old(self).line_seq(),
            final(self).box_seq() == old(self).box_seq(),
    {
        self.box_indices.set(id.0, index);
    }

    /// The reading-order index of box `id`.
    pub fn box_index(&self, id: BoxId) -> (r: i32)
        requires
            self.wf(),
            id.0 < self.box_seq().len(),
        ensures
            r == self.box_index_seq()[id.0 as int],
    {
        self.box_indices[id.0]
    }

    /// Marks every line as holding right-to-left text or not.
    pub fn set_bidi(&mut self, bidi: bool)
        ensures
            final(self).line_seq().len() == old(self).line_seq().len(),
            forall|i: int|
                0 <= i < old(self).line_seq().len() ==> (#[trigger] final(self).line_seq()[i]) == (ArenaTextLine {
                    bidi,
                    ..old(self).line_seq()[i]
                }),
            final(self).char_seq() == old(self).char_seq(),
            final(self).anno_seq() == old(self).anno_seq(),
            final(self).box_seq() == old(self).box_seq(),
            final(self).box_index_seq() == old(self).box_index_seq(),
    {
        let ghost start = self.lines@;
        let mut i: usize = 0;
        while i < self.lines.len()
            invariant
                i <= self.lines@.len(),
                self.lines@.len() == start.len(),
                forall|j: int| 0 <= j < i ==> (#[trigger] self.lines@[j]) == (ArenaTextLine { bidi, ..start[j] }),
                forall|j: int| i <= j < start.len() ==> #[trigger] self.lines@[j] == start[j],
                self.chars@ == old(self).chars@,
                self.annos@ == old(self).annos@,
                self.boxes@ == old(self).boxes@,
                self.box_indices@ == old(self).box_indices@,
                start == old(self).lines@,
            decreases start.len() - i,
        {
            let line = &mut self.lines[i];
            line.bidi = bidi;
            i += 1;
        }
    }

    /// Whether line `id` is vertical.
    pub fn line_is_vertical(&self, id: LineId) -> (r: bool)
        requires
            id.0 < self.line_seq().len(),
        ensures
            r == self.line_seq()[id.0 as int].vertical,
    {
        self.lines[id.0].vertical
    }
}

/// What a read of a box's index gives back of a write: after box `id` is
/// given `index`, it reads `index`, and every other box reads what it read
/// before.
pub proof fn lemma_box_index_read_after_set<C, A, G>(
    before: LayoutArena<C, A, G>,
    after: LayoutArena<C, A, G>,
    id: BoxId,
    index: i32,
)
    requires
        before.wf(),
        id.0 < before.box_seq().len(),
        after.box_index_seq() == before.box_index_seq().update(id.0 as int, index),
    ensures
        after.box_index_seq()[id.0 as int] == index,
        forall|i: int|
            0 <= i < before.box_index_seq().len() && i != id.0 ==> after.box_index_seq()[i]
                == before.box_index_seq()[i],
{
}

/// What a read of the arena gives back of a write: after a character is
/// pushed, its id reads the pushed character and every earlier id reads what
/// it read before.
pub proof fn lemma_char_read_after_push<C, A, G>(
    before: LayoutArena<C, A, G>,
    after: LayoutArena<C, A, G>,
    id: CharId,
    ch: C,
)
    requires
        id.0 == before.char_seq().len(),
        after.char_seq() == before.char_seq().push(ch),
    ensures
        after.char_seq()[id.0 as int] == ch,
        forall|i: int| 0 <= i < before.char_seq().len() ==> after.char_seq()[i] == before.char_seq()[i],
{
}

} // verus!
