//! The nodes of a table element's subtree, as far as the table's own
//! algorithms look at them: the table's children, and the children of those.
use vstd::prelude::*;

verus! {

/// The three kinds of table section element (`thead`, `tbody`, `tfoot`).
#[derive(Clone, Copy, PartialEq, Eq, Structural, Debug)]
pub enum SectionKind {
    Head,
    Body,
    Foot,
}

/// What a node is, as the table's algorithms tell nodes apart.
#[derive(Clone, Copy, PartialEq, Eq, Structural, Debug)]
pub enum NodeKind {
    /// A `caption` element.
    Caption,
    /// A `col` element.
    Col,
    /// A `colgroup` element.
    ColGroup,
    /// A `thead`, `tbody` or `tfoot` element.
    Section(SectionKind),
    /// A `tr` element.
    Row,
    /// Any other element.
    Element,
    /// A node that is not an element (text, comment).
    Text,
}

/// A grandchild of the table: a child of one of the table's children.
#[derive(Clone, Copy, PartialEq, Eq, Structural, Debug)]
pub struct Node {
    pub id: u64,
    pub kind: NodeKind,
}

/// A child of the table, with its own children.
#[derive(Clone, Debug)]
pub struct TableChild {
    pub id: u64,
    pub kind: NodeKind,
    pub children: Vec<Node>,
}

/// The mathematical value of a `TableChild`.
pub struct ChildView {
    pub id: u64,
    pub kind: NodeKind,
    pub children: Seq<Node>,
}

impl View for TableChild {
    type V = ChildView;

    open spec fn view(&self) -> ChildView {
        ChildView { id: self.id, kind: self.kind, children: self.children@ }
    }
}

/// Where a row of the table stands: a child of the table, or a child of
/// the table's child at the first index.
#[derive(Clone, Copy, PartialEq, Eq, Structural, Debug)]
pub enum RowLocation {
    InTable(usize),
    InSection(usize, usize),
}

/// The tests by which the table's algorithms pick one of its children.
#[derive(Clone, Copy, PartialEq, Eq, Structural, Debug)]
pub enum ChildTest {
    /// A `caption` element.
    Caption,
    /// A section element of the given kind.
    Section(SectionKind),
    /// Any section element.
    AnySection,
    /// An element before which a new `thead` goes: neither a caption nor a
    /// column group.
    HeadAnchor,
}

pub open spec fn test_holds(t: ChildTest, k: NodeKind) -> bool {
    match t {
        ChildTest::Caption => k == NodeKind::Caption,
        ChildTest::Section(s) => k == NodeKind::Section(s),
        ChildTest::AnySection => k is Section,
        ChildTest::HeadAnchor => k != NodeKind::Text && k != NodeKind::Caption && k
            != NodeKind::ColGroup,
    }
}

impl ChildTest {
    /// Whether a node of kind `k` passes this test.
    pub fn holds(self, k: NodeKind) -> (r: bool)
        ensures
            r == test_holds(self, k),
    {
        match self {
            ChildTest::Caption => k == NodeKind::Caption,
            ChildTest::Section(s) => k == NodeKind::Section(s),
            ChildTest::AnySection => matches!(k, NodeKind::Section(_)),
            ChildTest::HeadAnchor => k != NodeKind::Text && k != NodeKind::Caption && k
                != NodeKind::ColGroup,
        }
    }
}

/// The index of the first child that passes `t`.
pub open spec fn first_index(cs: Seq<ChildView>, t: ChildTest) -> Option<int>
    decreases cs.len(),
{
    if cs.len() == 0 {
        None
    } else {
        match first_index(cs.drop_last(), t) {
            Some(i) => Some(i),
            None => if test_holds(t, cs.last().kind) {
                Some(cs.len() - 1)
            } else {
                None
            },
        }
    }
}

/// The index of the last child that passes `t`.
pub open spec fn last_index(cs: Seq<ChildView>, t: ChildTest) -> Option<int>
    decreases cs.len(),
{
    if cs.len() == 0 {
        None
    } else if test_holds(t, cs.last().kind) {
        Some(cs.len() - 1)
    } else {
        last_index(cs.drop_last(), t)
    }
}

/// The indices, in order, of the children that pass `t`.
pub open spec fn indices_where(cs: Seq<ChildView>, t: ChildTest) -> Seq<usize>
    decreases cs.len(),
{
    if cs.len() == 0 {
        Seq::empty()
    } else if test_holds(t, cs.last().kind) {
        indices_where(cs.drop_last(), t).push((cs.len() - 1) as usize)
    } else {
        indices_where(cs.drop_last(), t)
    }
}

/// The ids of the rows among a child's children, in order.
pub open spec fn nested_row_ids(ns: Seq<Node>) -> Seq<u64>
    decreases ns.len(),
{
    if ns.len() == 0 {
        Seq::empty()
    } else if ns.last().kind == NodeKind::Row {
        nested_row_ids(ns.drop_last()).push(ns.last().id)
    } else {
        nested_row_ids(ns.drop_last())
    }
}

/// The ids of the rows that a child of the table contributes to the table's
/// rows: itself when it is a row, its row children when it is a section.
pub open spec fn child_row_ids(c: ChildView) -> Seq<u64> {
    match c.kind {
        NodeKind::Row => seq![c.id],
        NodeKind::Section(_) => nested_row_ids(c.children),
        _ => Seq::empty(),
    }
}

/// The group in which the rows that a child contributes come among the
/// table's rows: rows under a `thead` first, then rows of the table itself
/// or under a `tbody`, then rows under a `tfoot`.
pub open spec fn row_group(k: NodeKind) -> int {
    match k {
        NodeKind::Section(SectionKind::Head) => 0,
        NodeKind::Section(SectionKind::Foot) => 2,
        _ => 1,
    }
}

/// The rows a child contributes to group `g`.
pub open spec fn group_contribution(c: ChildView, g: int) -> Seq<u64> {
    if row_group(c.kind) == g {
        child_row_ids(c)
    } else {
        Seq::empty()
    }
}

/// The ids of the rows of group `g`, in tree order.
#[verifier::opaque]
pub open spec fn group_row_ids(cs: Seq<ChildView>, g: int) -> Seq<u64>
    decreases cs.len(),
{
    if cs.len() == 0 {
        Seq::empty()
    } else {
        group_row_ids(cs.drop_last(), g) + group_contribution(cs.last(), g)
    }
}

/// The ids of the table's rows: those under a `thead`, then those of the
/// table or under a `tbody`, then those under a `tfoot`, each in tree order.
pub open spec fn row_ids(cs: Seq<ChildView>) -> Seq<u64> {
    group_row_ids(cs, 0) + group_row_ids(cs, 1) + group_row_ids(cs, 2)
}

/// The rows of the groups before group `g`.
pub open spec fn groups_before(cs: Seq<ChildView>, g: int) -> Seq<u64> {
    if g <= 0 {
        Seq::empty()
    } else if g == 1 {
        group_row_ids(cs, 0)
    } else {
        group_row_ids(cs, 0) + group_row_ids(cs, 1)
    }
}

/// The rows of the groups after group `g`.
pub open spec fn groups_after(cs: Seq<ChildView>, g: int) -> Seq<u64> {
    if g >= 2 {
        Seq::empty()
    } else if g == 1 {
        group_row_ids(cs, 2)
    } else {
        group_row_ids(cs, 1) + group_row_ids(cs, 2)
    }
}

/// Where the rows among the children of the table's child `i` stand.
pub open spec fn nested_row_locations(i: usize, ns: Seq<Node>) -> Seq<RowLocation>
    decreases ns.len(),
{
    if ns.len() == 0 {
        Seq::empty()
    } else if ns.last().kind == NodeKind::Row {
        nested_row_locations(i, ns.drop_last()).push(
            RowLocation::InSection(i, (ns.len() - 1) as usize),
        )
    } else {
        nested_row_locations(i, ns.drop_last())
    }
}

/// Where the rows that the table's child `i` contributes stand.
pub open spec fn child_row_locations(c: ChildView, i: usize) -> Seq<RowLocation> {
    match c.kind {
        NodeKind::Row => seq![RowLocation::InTable(i)],
        NodeKind::Section(_) => nested_row_locations(i, c.children),
        _ => Seq::empty(),
    }
}

/// Where the rows of group `g` stand, in tree order.
pub open spec fn group_row_locations(cs: Seq<ChildView>, g: int) -> Seq<RowLocation>
    decreases cs.len(),
{
    if cs.len() == 0 {
        Seq::empty()
    } else if row_group(cs.last().kind) == g {
        group_row_locations(cs.drop_last(), g) + child_row_locations(
            cs.last(),
            (cs.len() - 1) as usize,
        )
    } else {
        group_row_locations(cs.drop_last(), g)
    }
}

/// Where the table's rows stand, in the order of `row_ids`.
pub open spec fn row_locations(cs: Seq<ChildView>) -> Seq<RowLocation> {
    group_row_locations(cs, 0) + group_row_locations(cs, 1) + group_row_locations(cs, 2)
}

/// The id of the node at a row location.
pub open spec fn location_id(cs: Seq<ChildView>, loc: RowLocation) -> u64 {
    match loc {
        RowLocation::InTable(i) => cs[i as int].id,
        RowLocation::InSection(i, j) => cs[i as int].children[j as int].id,
    }
}

/// Whether every id in the children is below `bound`, and the children fit
/// in memory.
pub open spec fn ids_below(cs: Seq<ChildView>, bound: u64) -> bool {
    &&& cs.len() <= usize::MAX
    &&& forall|i: int| 0 <= i < cs.len() ==> #[trigger] child_below(cs[i], bound)
}

/// Whether the child's id and its children's ids are below `bound`.
pub open spec fn child_below(c: ChildView, bound: u64) -> bool {
    &&& c.id < bound
    &&& c.children.len() <= usize::MAX
    &&& forall|j: int| 0 <= j < c.children.len() ==> #[trigger] c.children[j].id < bound
}

} // verus!
