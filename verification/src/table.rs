//! The `table` element: its children, the sections, caption and rows it
//! finds and places among them, and the presentational attributes it keeps.
use vstd::prelude::*;
use vstd::string::StringExecFns;
use crate::node::{
    child_below, first_index, ids_below, indices_where, last_index, location_id, row_ids,
    row_locations, group_row_locations, row_group, test_holds, ChildTest, ChildView, Node, NodeKind, RowLocation, SectionKind,
    TableChild, nested_row_locations,
};
use crate::lemmas::{lemma_first_index, lemma_last_index};
use crate::rows::{lemma_row_ids_below, lemma_row_locations, locates_row};
use crate::laws::{lemma_deleted_row_ids, lemma_inserted_row_ids, lemma_lengths_fit};
use crate::error::TableError;
use crate::attr::{
    border_value, new_text, non_negative_integer, parse_unsigned_integer, parsed_text, reflect_unsigned,
    reflected_text,
    reflected_unsigned, spacing_value, PlainAttribute, TableAttr,
};

verus! {

/// The mathematical value of a table element.
pub struct TableView {
    pub children: Seq<ChildView>,
    pub border: Option<u32>,
    pub cellpadding: Option<u32>,
    pub cellspacing: Option<u32>,
    /// The text of the `bgcolor` attribute, when it is set.
    pub bgcolor: Option<Seq<char>>,
    /// The text of the `width` attribute, when it is set.
    pub width: Option<Seq<char>>,
    /// The id that the next node the table creates will get.
    pub next_node_id: u64,
}

/// A `table` element with its subtree.
pub struct HTMLTableElement {
    children: Vec<TableChild>,
    border: Option<u32>,
    cellpadding: Option<u32>,
    cellspacing: Option<u32>,
    bgcolor: Option<String>,
    width: Option<String>,
    next_node_id: u64,
}

impl View for HTMLTableElement {
    type V = TableView;

    closed spec fn view(&self) -> TableView {
        TableView {
            children: self.children@.map_values(|c: TableChild| c@),
            border: self.border,
            cellpadding: self.cellpadding,
            cellspacing: self.cellspacing,
            bgcolor: text_view(self.bgcolor),
            width: text_view(self.width),
            next_node_id: self.next_node_id,
        }
    }
}

/// The text a stored attribute value holds.
pub open spec fn text_view(value: Option<String>) -> Option<Seq<char>> {
    match value {
        Some(s) => Some(s@),
        None => None,
    }
}

/// A reference to a node that an operation places among the table's
/// children: one of them already, a node outside the table, or a node that
/// contains the table.
pub enum NodeRef {
    Child(usize),
    Detached(TableChild),
    /// The table itself or one of its ancestors, of the given kind: the
    /// table cannot be made its parent.
    Container(NodeKind),
}

/// The node a reference stands for; a node that contains the table is
/// known here by its kind alone.
pub open spec fn ref_value(cs: Seq<ChildView>, r: NodeRef) -> ChildView {
    match r {
        NodeRef::Child(i) => cs[i as int],
        NodeRef::Detached(c) => c@,
        NodeRef::Container(k) => fresh_child(0, k),
    }
}

/// Where the node a reference stands for is among the children, if it is one.
pub open spec fn ref_position(r: NodeRef) -> Option<int> {
    match r {
        NodeRef::Child(i) => Some(i as int),
        _ => None,
    }
}

/// Whether a reference names a child that exists, a node of this table's
/// tree that is not among its children, or a node that contains the table.
pub open spec fn ref_valid(t: TableView, r: NodeRef) -> bool {
    ref_valid_in(t.children, t.next_node_id, r)
}

/// Whether a reference names one of `cs`, or a node whose ids are below `bound`.
pub open spec fn ref_valid_in(cs: Seq<ChildView>, bound: u64, r: NodeRef) -> bool {
    match r {
        NodeRef::Child(i) => i < cs.len(),
        NodeRef::Detached(c) => child_below(c@, bound),
        NodeRef::Container(_) => true,
    }
}

/// The children with `node` put before the first one that passes `t`, or
/// at the end when none does.
pub open spec fn insert_before_first(cs: Seq<ChildView>, t: ChildTest, node: ChildView) -> Seq<
    ChildView,
> {
    match first_index(cs, t) {
        Some(a) => cs.insert(a, node),
        None => cs.push(node),
    }
}

/// The child `c` with its children replaced by `ns`.
pub open spec fn with_children(c: ChildView, ns: Seq<Node>) -> ChildView {
    ChildView { id: c.id, kind: c.kind, children: ns }
}

/// The children after the first one that passes `t` is removed.
pub open spec fn without_first(cs: Seq<ChildView>, t: ChildTest) -> Seq<ChildView> {
    match first_index(cs, t) {
        Some(d) => cs.remove(d),
        None => cs,
    }
}

/// Where a child at `pos` stands after the child at `removed` is taken out.
pub open spec fn shifted_position(pos: Option<int>, removed: Option<int>) -> Option<int> {
    match (pos, removed) {
        (Some(p), Some(d)) => if p == d {
            None
        } else if d < p {
            Some(p - 1)
        } else {
            Some(p)
        },
        _ => pos,
    }
}

/// The DOM's "insert `node` before the child at `reference`" (at the end
/// when there is none) on the table's children, where `from` is the place
/// the node has among them, if any, and leaves before it moves.
pub open spec fn pre_insert(
    cs: Seq<ChildView>,
    node: ChildView,
    from: Option<int>,
    reference: Option<int>,
) -> Seq<ChildView> {
    match from {
        Some(p) => {
            let reference = if reference == Some(p) {
                if p + 1 < cs.len() {
                    Some(p + 1)
                } else {
                    None
                }
            } else {
                reference
            };
            let rest = cs.remove(p);
            match reference {
                Some(r) => rest.insert(
                    if p < r {
                        r - 1
                    } else {
                        r
                    },
                    node,
                ),
                None => rest.push(node),
            }
        },
        None => match reference {
            Some(r) => cs.insert(r, node),
            None => cs.push(node),
        },
    }
}


/// `Some(i)` as an integer position.
pub open spec fn opt_int(o: Option<usize>) -> Option<int> {
    match o {
        Some(i) => Some(i as int),
        None => None,
    }
}

/// The two table sections that a table has a single slot for.
#[derive(Clone, Copy, PartialEq, Eq, Structural, Debug)]
pub enum SectionSlot {
    /// The table's `thead`.
    THead,
    /// The table's `tfoot`.
    TFoot,
}

pub open spec fn slot_kind(s: SectionSlot) -> SectionKind {
    match s {
        SectionSlot::THead => SectionKind::Head,
        SectionSlot::TFoot => SectionKind::Foot,
    }
}

/// The test that picks the section of a slot.
pub open spec fn slot_test(s: SectionSlot) -> ChildTest {
    ChildTest::Section(slot_kind(s))
}

/// The child before which a new section of the slot goes: for a `thead`,
/// the first element that is neither a caption nor a column group; a
/// `tfoot` goes at the end.
pub open spec fn slot_reference(cs: Seq<ChildView>, s: SectionSlot) -> Option<int> {
    match s {
        SectionSlot::THead => first_index(cs, ChildTest::HeadAnchor),
        SectionSlot::TFoot => None,
    }
}

/// The children with a new section of the slot put where it goes.
pub open spec fn slot_insert(cs: Seq<ChildView>, s: SectionSlot, node: ChildView) -> Seq<
    ChildView,
> {
    match s {
        SectionSlot::THead => insert_before_first(cs, ChildTest::HeadAnchor, node),
        SectionSlot::TFoot => cs.push(node),
    }
}

impl SectionSlot {
    pub fn kind(self) -> (k: SectionKind)
        ensures
            k == slot_kind(self),
    {
        match self {
            SectionSlot::THead => SectionKind::Head,
            SectionSlot::TFoot => SectionKind::Foot,
        }
    }
}

/// The children after `node` (standing at `pos`, if it is one of them) is
/// made the section of slot `s`: the slot's first section is removed, and
/// the node goes where a new section of the slot goes.
pub open spec fn with_section(
    cs: Seq<ChildView>,
    s: SectionSlot,
    node: ChildView,
    pos: Option<int>,
) -> Seq<ChildView> {
    let rest = without_first(cs, slot_test(s));
    pre_insert(
        rest,
        node,
        shifted_position(pos, first_index(cs, slot_test(s))),
        slot_reference(rest, s),
    )
}

/// The children after `node` (standing at `pos`, if it is one of them) is
/// made the caption: the first caption is removed, and the node goes before
/// the first child.
pub open spec fn with_caption(cs: Seq<ChildView>, node: ChildView, pos: Option<int>) -> Seq<
    ChildView,
> {
    let rest = without_first(cs, ChildTest::Caption);
    pre_insert(
        rest,
        node,
        shifted_position(pos, first_index(cs, ChildTest::Caption)),
        if rest.len() > 0 {
            Some(0)
        } else {
            None
        },
    )
}

/// A new node of kind `kind` with id `id` and no children.
pub open spec fn fresh_child(id: u64, kind: NodeKind) -> ChildView {
    ChildView { id, kind, children: Seq::empty() }
}

/// Where a new `tbody` goes: right after the last `tbody` child, or at the end.
pub open spec fn new_tbody_position(cs: Seq<ChildView>) -> int {
    match last_index(cs, ChildTest::Section(SectionKind::Body)) {
        Some(t) => t + 1,
        None => cs.len() as int,
    }
}

/// A new row with id `id`.
pub open spec fn new_row(id: u64) -> Node {
    Node { id, kind: NodeKind::Row }
}

/// Where `insertRow(index)` puts the new row among the table's `n` rows.
pub open spec fn inserted_row_position(n: int, index: int) -> int {
    if index == -1 {
        n
    } else {
        index
    }
}

/// Which of the table's `n` rows `deleteRow(index)` removes.
pub open spec fn deleted_row_position(n: int, index: int) -> int {
    if index == -1 {
        n - 1
    } else {
        index
    }
}

/// The children after `insertRow(index)` adds a row with id `id`: into the
/// last `tbody` (or a new one, with id `id + 1`) when the table has no rows;
/// after the last row, in its parent, when `index` is -1 or the number of
/// rows; otherwise before the row at `index`, in its parent.
pub open spec fn with_inserted_row(cs: Seq<ChildView>, index: int, id: u64) -> Seq<ChildView> {
    let n = row_ids(cs).len() as int;
    if n == 0 {
        match last_index(cs, ChildTest::Section(SectionKind::Body)) {
            Some(t) => cs.update(t, with_children(cs[t], cs[t].children.push(new_row(id)))),
            None => cs.push(
                ChildView {
                    id: (id + 1) as u64,
                    kind: NodeKind::Section(SectionKind::Body),
                    children: seq![new_row(id)],
                },
            ),
        }
    } else if index == n || index == -1 {
        match row_locations(cs)[n - 1] {
            RowLocation::InTable(_) => cs.push(fresh_child(id, NodeKind::Row)),
            RowLocation::InSection(i, _) => cs.update(
                i as int,
                with_children(cs[i as int], cs[i as int].children.push(new_row(id))),
            ),
        }
    } else {
        match row_locations(cs)[index] {
            RowLocation::InTable(i) => cs.insert(i as int, fresh_child(id, NodeKind::Row)),
            RowLocation::InSection(i, j) => cs.update(
                i as int,
                with_children(cs[i as int], cs[i as int].children.insert(j as int, new_row(id))),
            ),
        }
    }
}

/// The children after the row at position `k` of the rows is removed from its parent.
pub open spec fn with_deleted_row(cs: Seq<ChildView>, k: int) -> Seq<ChildView> {
    match row_locations(cs)[k] {
        RowLocation::InTable(i) => cs.remove(i as int),
        RowLocation::InSection(i, j) => cs.update(
            i as int,
            with_children(cs[i as int], cs[i as int].children.remove(j as int)),
        ),
    }
}

/// The parent of an element that a row filter is asked about.
#[derive(Clone, Copy, PartialEq, Eq, Structural, Debug)]
pub enum ElementParent {
    /// The table itself.
    Table,
    /// The table's child at this index.
    TableChild(usize),
    /// A node deeper in the tree, or outside it.
    Elsewhere,
}

/// Whether an element of kind `kind` under `parent` is one of the rows of a
/// table with children `cs`: a row whose parent is the table or one of the
/// table's section children.
pub open spec fn counted_row(cs: Seq<ChildView>, kind: NodeKind, parent: ElementParent) -> bool {
    &&& kind == NodeKind::Row
    &&& match parent {
        ElementParent::Table => true,
        ElementParent::TableChild(i) => i < cs.len() && cs[i as int].kind is Section,
        ElementParent::Elsewhere => false,
    }
}

/// The group of a kind of child, as a number.
pub fn row_group_of(kind: NodeKind) -> (g: u8)
    ensures
        g as int == row_group(kind),
{
    match kind {
        NodeKind::Section(SectionKind::Head) => 0,
        NodeKind::Section(SectionKind::Foot) => 2,
        _ => 1,
    }
}

/// The filter of a table's rows collection. It keeps nothing of the table:
/// each test reads the table as it is at that moment.
pub struct TableRowFilter;

impl TableRowFilter {
    /// Whether an element of kind `kind` under `parent` is now one of the
    /// table's rows: a row whose parent is the table or one of its section
    /// children.
    pub fn filter(&self, table: &HTMLTableElement, kind: NodeKind, parent: ElementParent) -> (r:
        bool)
        ensures
            r == counted_row(table@.children, kind, parent),
    {
        if kind != NodeKind::Row {
            return false;
        }
        match parent {
            ElementParent::Table => true,
            ElementParent::TableChild(i) => {
                if i < table.children.len() {
                    assert(table@.children[i as int].kind == table.children@[i as int].kind);
                    matches!(table.children[i].kind, NodeKind::Section(_))
                } else {
                    false
                }
            },
            ElementParent::Elsewhere => false,
        }
    }
}

/// A table's rows collection: rows under a `thead` first, then rows of the
/// table itself or under a `tbody`, then rows under a `tfoot`, each group in
/// tree order. It keeps no copy of the rows: each query reads the table as
/// it is at that moment.
pub struct TableRows {
    filter: TableRowFilter,
}

impl TableRows {
    /// Appends to `out` where the rows of group `g` now stand.
    fn push_group(&self, table: &HTMLTableElement, g: u8, out: &mut Vec<RowLocation>)
        ensures
            final(out)@ == old(out)@ + group_row_locations(table@.children, g as int),
    {
        let ghost cs = table@.children;
        let ghost start = out@;
        let mut i: usize = 0;
        while i < table.children.len()
            invariant
                cs == table@.children,
                0 <= i <= cs.len(),
                out@ == start + group_row_locations(cs.take(i as int), g as int),
            decreases cs.len() - i,
        {
            let child = &table.children[i];
            assert(child@ == cs[i as int]);
            proof {
                assert(cs.take(i + 1).drop_last() =~= cs.take(i as int));
                assert(cs.take(i + 1).last() == cs[i as int]);
            }
            if row_group_of(child.kind) == g {
                if self.filter.filter(table, child.kind, ElementParent::Table) {
                    out.push(RowLocation::InTable(i));
                }
                let ghost base = start + group_row_locations(cs.take(i as int), g as int) + (
                if cs[i as int].kind == NodeKind::Row {
                    seq![RowLocation::InTable(i)]
                } else {
                    Seq::<RowLocation>::empty()
                });
                assert(out@ =~= base);
                let ghost ns = cs[i as int].children;
                let mut j: usize = 0;
                while j < child.children.len()
                    invariant
                        cs == table@.children,
                        child@ == cs[i as int],
                        ns == cs[i as int].children,
                        i < cs.len(),
                        0 <= j <= ns.len(),
                        out@ == base + (if cs[i as int].kind is Section {
                            nested_row_locations(i, ns.take(j as int))
                        } else {
                            Seq::<RowLocation>::empty()
                        }),
                    decreases ns.len() - j,
                {
                    proof {
                        assert(ns.take(j + 1).drop_last() =~= ns.take(j as int));
                        assert(ns.take(j + 1).last() == ns[j as int]);
                    }
                    if self.filter.filter(table, child.children[j].kind, ElementParent::TableChild(i)) {
                        out.push(RowLocation::InSection(i, j));
                    }
                    j = j + 1;
                }
                proof {
                    assert(ns.take(ns.len() as int) =~= ns);
                    assert(out@ =~= start + group_row_locations(cs.take(i + 1), g as int));
                }
            }
            i = i + 1;
        }
        proof {
            assert(cs.take(cs.len() as int) =~= cs);
        }
    }

    /// Where the table's rows now stand, in the collection's order.
    pub fn locations(&self, table: &HTMLTableElement) -> (r: Vec<RowLocation>)
        ensures
            r@ == row_locations(table@.children),
    {
        let mut out: Vec<RowLocation> = Vec::new();
        self.push_group(table, 0, &mut out);
        self.push_group(table, 1, &mut out);
        self.push_group(table, 2, &mut out);
        assert(out@ =~= row_locations(table@.children));
        out
    }

    /// The number of the table's rows now.
    pub fn length(&self, table: &HTMLTableElement) -> (r: usize)
        ensures
            r == row_locations(table@.children).len(),
    {
        self.locations(table).len()
    }

    /// Where the table's row at `index` now stands, if there is one.
    pub fn item(&self, table: &HTMLTableElement, index: usize) -> (r: Option<RowLocation>)
        ensures
            r == (if index < row_locations(table@.children).len() {
                Some(row_locations(table@.children)[index as int])
            } else {
                None
            }),
    {
        let rows = self.locations(table);
        if index < rows.len() {
            Some(rows[index])
        } else {
            None
        }
    }
}

/// A table's bodies collection: its `tbody` children, in order. It keeps no
/// copy of them: each query reads the table as it is at that moment.
pub struct TBodies;

impl TBodies {
    /// Whether an element of kind `kind` under `parent` is one of the
    /// table's bodies: a `tbody` whose parent is the table.
    pub fn filter(&self, kind: NodeKind, parent: ElementParent) -> (r: bool)
        ensures
            r == (kind == NodeKind::Section(SectionKind::Body) && parent == ElementParent::Table),
    {
        kind == NodeKind::Section(SectionKind::Body) && parent == ElementParent::Table
    }

    /// The indices of the table's `tbody` children now.
    fn bodies(&self, table: &HTMLTableElement) -> (r: Vec<usize>)
        ensures
            r@ == indices_where(table@.children, ChildTest::Section(SectionKind::Body)),
    {
        let ghost cs = table@.children;
        let ghost t = ChildTest::Section(SectionKind::Body);
        let mut out: Vec<usize> = Vec::new();
        let mut i: usize = 0;
        while i < table.children.len()
            invariant
                cs == table@.children,
                t == ChildTest::Section(SectionKind::Body),
                0 <= i <= cs.len(),
                out@ == indices_where(cs.take(i as int), t),
            decreases cs.len() - i,
        {
            proof {
                assert(cs.take(i + 1).drop_last() =~= cs.take(i as int));
                assert(cs.take(i + 1).last() == cs[i as int]);
                assert(cs[i as int].kind == table.children@[i as int].kind);
            }
            if self.filter(table.children[i].kind, ElementParent::Table) {
                out.push(i);
            }
            i = i + 1;
        }
        proof {
            assert(cs.take(cs.len() as int) =~= cs);
        }
        out
    }

    /// The number of the table's `tbody` children now.
    pub fn length(&self, table: &HTMLTableElement) -> (r: usize)
        ensures
            r == indices_where(table@.children, ChildTest::Section(SectionKind::Body)).len(),
    {
        self.bodies(table).len()
    }

    /// The index of the table's `tbody` child at `index` among its bodies
    /// now, if there is one.
    pub fn item(&self, table: &HTMLTableElement, index: usize) -> (r: Option<usize>)
        ensures
            ({
                let b = indices_where(table@.children, ChildTest::Section(SectionKind::Body));
                r == (if index < b.len() {
                    Some(b[index as int])
                } else {
                    None
                })
            }),
    {
        let bodies = self.bodies(table);
        if index < bodies.len() {
            Some(bodies[index])
        } else {
            None
        }
    }
}

impl HTMLTableElement {
    /// The table's invariant: every node id is below the next one it hands out.
    #[verifier::type_invariant]
    spec fn wf(&self) -> bool {
        ids_below(self@.children, self@.next_node_id)
    }

    /// An empty table with none of its attributes set.
    pub fn new() -> (t: Self)
        ensures
            t@.children == Seq::<ChildView>::empty(),
            t@.border is None,
            t@.cellpadding is None,
            t@.cellspacing is None,
            t@.bgcolor is None,
            t@.width is None,
            t@.next_node_id == 0,
    {
        let t = HTMLTableElement {
            children: Vec::new(),
            border: None,
            cellpadding: None,
            cellspacing: None,
            bgcolor: None,
            width: None,
            next_node_id: 0,
        };
        assert(t@.children =~= Seq::<ChildView>::empty());
        t
    }

    /// The number of the table's children.
    pub fn child_count(&self) -> (r: usize)
        ensures
            r == self@.children.len(),
    {
        self.children.len()
    }

    /// The table's child at `i`.
    pub fn child(&self, i: usize) -> (r: &TableChild)
        requires
            i < self@.children.len(),
        ensures
            r@ == self@.children[i as int],
    {
        &self.children[i]
    }

    /// Creates a node of the given kind with no children, outside the tree.
    pub fn create_child(&mut self, kind: NodeKind) -> (c: TableChild)
        requires
            old(self)@.next_node_id < u64::MAX,
        ensures
            c@ == (ChildView { id: old(self)@.next_node_id, kind, children: Seq::empty() }),
            final(self)@ == (TableView {
                next_node_id: (old(self)@.next_node_id + 1) as u64,
                ..old(self)@
            }),
    {
        let id = self.take_next_id();
        let c = TableChild { id, kind, children: Vec::new() };
        assert(c@.children =~= Seq::<Node>::empty());
        c
    }

    /// Creates a node of the given kind outside the tree, to be a child of
    /// one of the table's children.
    pub fn create_node(&mut self, kind: NodeKind) -> (n: Node)
        requires
            old(self)@.next_node_id < u64::MAX,
        ensures
            n == (Node { id: old(self)@.next_node_id, kind }),
            final(self)@ == (TableView {
                next_node_id: (old(self)@.next_node_id + 1) as u64,
                ..old(self)@
            }),
    {
        let id = self.take_next_id();
        Node { id, kind }
    }

    /// Appends a node outside the tree as the table's last child.
    pub fn append_child(&mut self, c: TableChild)
        requires
            child_below(c@, old(self)@.next_node_id),
        ensures
            final(self)@ == (TableView { children: old(self)@.children.push(c@), ..old(self)@ }),
    {
        self.push_child(c);
    }

    /// Makes `n` the last child of the table's child `i`.
    pub fn append_grandchild(&mut self, i: usize, n: Node)
        requires
            i < old(self)@.children.len(),
            n.id < old(self)@.next_node_id,
        ensures
            final(self)@ == (TableView {
                children: old(self)@.children.update(
                    i as int,
                    with_children(
                        old(self)@.children[i as int],
                        old(self)@.children[i as int].children.push(n),
                    ),
                ),
                ..old(self)@
            }),
    {
        self.push_grandchild(i, n);
    }

    // ---- edits of the children, each stated over the view ----
    /// Hands out the next node id.
    fn take_next_id(&mut self) -> (id: u64)
        requires
            old(self)@.next_node_id < u64::MAX,
        ensures
            id == old(self)@.next_node_id,
            final(self)@ == (TableView {
                next_node_id: (old(self)@.next_node_id + 1) as u64,
                ..old(self)@
            }),
    {
        proof {
            use_type_invariant(&*self);
            assert forall|i: int| 0 <= i < self@.children.len() implies #[trigger] child_below(
                self@.children[i],
                (self.next_node_id + 1) as u64,
            ) by {
                assert(child_below(self@.children[i], self@.next_node_id));
            }
        }
        let id = self.next_node_id;
        self.next_node_id = self.next_node_id + 1;
        id
    }

    /// Takes the children out of the table, leaving it with none.
    fn take_children(&mut self) -> (v: Vec<TableChild>)
        ensures
            v@.map_values(|c: TableChild| c@) == old(self)@.children,
            ids_below(old(self)@.children, old(self)@.next_node_id),
            final(self)@ == (TableView { children: Seq::empty(), ..old(self)@ }),
    {
        proof {
            use_type_invariant(&*self);
        }
        let mut v: Vec<TableChild> = Vec::new();
        std::mem::swap(&mut v, &mut self.children);
        proof {
            assert(self@.children =~= Seq::<ChildView>::empty());
        }
        v
    }

    /// Gives the table the children `v`, whose view is `cs`.
    fn put_children(&mut self, v: Vec<TableChild>, Ghost(cs): Ghost<Seq<ChildView>>)
        requires
            v@.map_values(|c: TableChild| c@) == cs,
            forall|i: int| 0 <= i < cs.len() ==> #[trigger] child_below(cs[i], old(self)@.next_node_id),
        ensures
            final(self)@ == (TableView { children: cs, ..old(self)@ }),
    {
        proof {
            assert(cs.len() == v.len());
        }
        self.children = v;
    }

    fn push_child(&mut self, c: TableChild)
        requires
            child_below(c@, old(self)@.next_node_id),
        ensures
            final(self)@ == (TableView { children: old(self)@.children.push(c@), ..old(self)@ }),
    {
        let ghost cv = c@;
        let ghost cs = self@.children;
        let mut v = self.take_children();
        v.push(c);
        proof {
            assert(v@.map_values(|c: TableChild| c@) =~= cs.push(cv));
        }
        self.put_children(v, Ghost(cs.push(cv)));
    }

    fn insert_child(&mut self, i: usize, c: TableChild)
        requires
            i <= old(self)@.children.len(),
            child_below(c@, old(self)@.next_node_id),
        ensures
            final(self)@ == (TableView {
                children: old(self)@.children.insert(i as int, c@),
                ..old(self)@
            }),
    {
        let ghost cv = c@;
        let ghost cs = self@.children;
        let mut v = self.take_children();
        v.insert(i, c);
        proof {
            assert(v@.map_values(|c: TableChild| c@) =~= cs.insert(i as int, cv));
            assert forall|k: int| 0 <= k < cs.len() + 1 implies #[trigger] child_below(
                cs.insert(i as int, cv)[k],
                self@.next_node_id,
            ) by {
                if k < i {
                    assert(child_below(cs[k], self@.next_node_id));
                } else if k > i {
                    assert(child_below(cs[k - 1], self@.next_node_id));
                }
            }
        }
        self.put_children(v, Ghost(cs.insert(i as int, cv)));
    }

    fn remove_child(&mut self, i: usize) -> (c: TableChild)
        requires
            i < old(self)@.children.len(),
        ensures
            c@ == old(self)@.children[i as int],
            child_below(c@, old(self)@.next_node_id),
            final(self)@ == (TableView {
                children: old(self)@.children.remove(i as int),
                ..old(self)@
            }),
    {
        let ghost cs = self@.children;
        let mut v = self.take_children();
        proof {
            assert(v@.map_values(|c: TableChild| c@)[i as int] == v@[i as int]@);
        }
        let c = v.remove(i);
        proof {
            assert(v@.map_values(|c: TableChild| c@) =~= cs.remove(i as int));
            assert(child_below(cs[i as int], self@.next_node_id));
            assert forall|k: int| 0 <= k < cs.len() - 1 implies #[trigger] child_below(
                cs.remove(i as int)[k],
                self@.next_node_id,
            ) by {
                if k < i {
                    assert(child_below(cs[k], self@.next_node_id));
                } else {
                    assert(child_below(cs[k + 1], self@.next_node_id));
                }
            }
        }
        self.put_children(v, Ghost(cs.remove(i as int)));
        c
    }

    /// Replaces the child at `i` by `c`, which keeps its id and kind.
    fn replace_child(&mut self, i: usize, c: TableChild)
        requires
            i < old(self)@.children.len(),
            child_below(c@, old(self)@.next_node_id),
        ensures
            final(self)@ == (TableView {
                children: old(self)@.children.update(i as int, c@),
                ..old(self)@
            }),
    {
        let ghost cv = c@;
        let ghost cs = self@.children;
        let mut v = self.take_children();
        v.set(i, c);
        proof {
            assert(v@.map_values(|c: TableChild| c@) =~= cs.update(i as int, cv));
            assert forall|k: int| 0 <= k < cs.len() implies #[trigger] child_below(
                cs.update(i as int, cv)[k],
                self@.next_node_id,
            ) by {
                if k != i {
                    assert(child_below(cs[k], self@.next_node_id));
                }
            }
        }
        self.put_children(v, Ghost(cs.update(i as int, cv)));
    }

    /// The child at `i`, taken out and copied, with the guarantee that its
    /// ids are below the next id.
    fn child_copy(&self, i: usize) -> (c: TableChild)
        requires
            i < self@.children.len(),
        ensures
            c@ == self@.children[i as int],
            child_below(c@, self@.next_node_id),
    {
        proof {
            use_type_invariant(self);
        }
        let c = TableChild {
            id: self.children[i].id,
            kind: self.children[i].kind,
            children: self.children[i].children.clone(),
        };
        proof {
            assert(c@.children =~= self@.children[i as int].children);
        }
        c
    }

    fn push_grandchild(&mut self, i: usize, n: Node)
        requires
            i < old(self)@.children.len(),
            n.id < old(self)@.next_node_id,
        ensures
            final(self)@ == (TableView {
                children: old(self)@.children.update(
                    i as int,
                    with_children(
                        old(self)@.children[i as int],
                        old(self)@.children[i as int].children.push(n),
                    ),
                ),
                ..old(self)@
            }),
    {
        let mut c = self.child_copy(i);
        let ghost before = c@;
        c.children.push(n);
        proof {
            assert(c@ == with_children(before, before.children.push(n)));
            assert forall|j: int| 0 <= j < c@.children.len() implies #[trigger] c@.children[j].id
                < self@.next_node_id by {
                if j < before.children.len() {
                    assert(c@.children[j] == before.children[j]);
                }
            }
            assert(c@.id == before.id);
            assert(c@.children.len() == c.children.len());
            assert(child_below(c@, self@.next_node_id));
        }
        self.replace_child(i, c);
    }

    fn insert_grandchild(&mut self, i: usize, j: usize, n: Node)
        requires
            i < old(self)@.children.len(),
            j <= old(self)@.children[i as int].children.len(),
            n.id < old(self)@.next_node_id,
        ensures
            final(self)@ == (TableView {
                children: old(self)@.children.update(
                    i as int,
                    with_children(
                        old(self)@.children[i as int],
                        old(self)@.children[i as int].children.insert(j as int, n),
                    ),
                ),
                ..old(self)@
            }),
    {
        let mut c = self.child_copy(i);
        let ghost before = c@;
        c.children.insert(j, n);
        proof {
            assert(c@ == with_children(before, before.children.insert(j as int, n)));
            assert forall|k: int| 0 <= k < c@.children.len() implies #[trigger] c@.children[k].id
                < self@.next_node_id by {
                if k < j {
                    assert(c@.children[k] == before.children[k]);
                } else if k > j {
                    assert(c@.children[k] == before.children[k - 1]);
                }
            }
            assert(c@.id == before.id);
            assert(c@.children.len() == c.children.len());
            assert(child_below(c@, self@.next_node_id));
        }
        self.replace_child(i, c);
    }

    fn remove_grandchild(&mut self, i: usize, j: usize)
        requires
            i < old(self)@.children.len(),
            j < old(self)@.children[i as int].children.len(),
        ensures
            final(self)@ == (TableView {
                children: old(self)@.children.update(
                    i as int,
                    with_children(
                        old(self)@.children[i as int],
                        old(self)@.children[i as int].children.remove(j as int),
                    ),
                ),
                ..old(self)@
            }),
    {
        let mut c = self.child_copy(i);
        let ghost before = c@;
        c.children.remove(j);
        proof {
            assert(c@ == with_children(before, before.children.remove(j as int)));
            assert forall|k: int| 0 <= k < c@.children.len() implies #[trigger] c@.children[k].id
                < self@.next_node_id by {
                if k < j {
                    assert(c@.children[k] == before.children[k]);
                } else {
                    assert(c@.children[k] == before.children[k + 1]);
                }
            }
            assert(c@.id == before.id);
            assert(c@.children.len() == c.children.len());
            assert(child_below(c@, self@.next_node_id));
        }
        self.replace_child(i, c);
    }

    // ---- lookups ----
    /// The first child that passes `t`.
    pub fn first_child_where(&self, t: ChildTest) -> (r: Option<usize>)
        ensures
            match r {
                Some(i) => first_index(self@.children, t) == Some(i as int),
                None => first_index(self@.children, t) is None,
            },
    {
        let ghost cs = self@.children;
        let mut i: usize = 0;
        while i < self.children.len()
            invariant
                cs == self@.children,
                0 <= i <= cs.len(),
                forall|j: int| 0 <= j < i ==> !test_holds(t, #[trigger] cs[j].kind),
            decreases cs.len() - i,
        {
            if t.holds(self.children[i].kind) {
                proof {
                    assert(cs[i as int].kind == self.children@[i as int].kind);
                    assert(test_holds(t, cs[i as int].kind));
                    lemma_first_index(cs, t);
                }
                return Some(i);
            }
            i = i + 1;
        }
        proof {
            lemma_first_index(cs, t);
        }
        None
    }

    /// The last child that passes `t`.
    pub fn last_child_where(&self, t: ChildTest) -> (r: Option<usize>)
        ensures
            match r {
                Some(i) => last_index(self@.children, t) == Some(i as int),
                None => last_index(self@.children, t) is None,
            },
    {
        let ghost cs = self@.children;
        let mut i: usize = self.children.len();
        while i > 0
            invariant
                cs == self@.children,
                0 <= i <= cs.len(),
                forall|j: int| i <= j < cs.len() ==> !test_holds(t, #[trigger] cs[j].kind),
            decreases i,
        {
            if t.holds(self.children[i - 1].kind) {
                proof {
                    assert(cs[i - 1].kind == self.children@[i - 1].kind);
                    assert(test_holds(t, cs[i - 1].kind));
                    lemma_last_index(cs, t);
                }
                return Some(i - 1);
            }
            i = i - 1;
        }
        proof {
            lemma_last_index(cs, t);
        }
        None
    }

    /// The indices, in order, of the children that pass `t`.
    pub fn children_where(&self, t: ChildTest) -> (r: Vec<usize>)
        ensures
            r@ == indices_where(self@.children, t),
    {
        let ghost cs = self@.children;
        let mut out: Vec<usize> = Vec::new();
        let mut i: usize = 0;
        while i < self.children.len()
            invariant
                cs == self@.children,
                0 <= i <= cs.len(),
                out@ == indices_where(cs.take(i as int), t),
            decreases cs.len() - i,
        {
            proof {
                assert(cs.take(i + 1).drop_last() =~= cs.take(i as int));
                assert(cs.take(i + 1).last() == cs[i as int]);
            }
            if t.holds(self.children[i].kind) {
                out.push(i);
            }
            i = i + 1;
        }
        proof {
            assert(cs.take(cs.len() as int) =~= cs);
        }
        out
    }

    // ---- rows ----
    /// The filter of the table's rows collection.
    pub fn get_rows(&self) -> (f: TableRowFilter) {
        TableRowFilter
    }

    /// The table's rows collection.
    pub fn rows(&self) -> (r: TableRows) {
        TableRows { filter: self.get_rows() }
    }

    // ---- placing nodes ----
    /// Whether the table takes `r` as a node to place: a child index in
    /// range, a detached node made by this table (its ids, and its
    /// children's, below the next id the table hands out), or a node that
    /// contains the table.
    pub fn accepts_ref(&self, r: &NodeRef) -> (b: bool)
        ensures
            b == ref_valid(self@, *r),
    {
        match r {
            NodeRef::Child(i) => *i < self.children.len(),
            NodeRef::Detached(c) => {
                if c.id >= self.next_node_id {
                    return false;
                }
                let mut j: usize = 0;
                assert(ref_valid(self@, *r) == child_below(c@, self@.next_node_id));
                while j < c.children.len()
                    invariant
                        ref_valid(self@, *r) == child_below(c@, self@.next_node_id),
                        0 <= j <= c.children.len(),
                        c.id < self.next_node_id,
                        forall|k: int| 0 <= k < j ==> #[trigger] c.children@[k].id < self.next_node_id,
                    decreases c.children.len() - j,
                {
                    if c.children[j].id >= self.next_node_id {
                        assert(c@.children[j as int].id >= self@.next_node_id);
                        return false;
                    }
                    j = j + 1;
                }
                true
            },
            NodeRef::Container(_) => true,
        }
    }

    /// The kind of the node a reference stands for.
    fn ref_kind(&self, r: &NodeRef) -> (k: NodeKind)
        requires
            ref_valid(self@, *r),
        ensures
            k == ref_value(self@.children, *r).kind,
    {
        match r {
            NodeRef::Child(i) => self.children[*i].kind,
            NodeRef::Detached(c) => c.kind,
            NodeRef::Container(k) => *k,
        }
    }

    /// Removes the first child that passes `t`, and hands it back with the
    /// index it had.
    fn remove_first_child_where(&mut self, t: ChildTest) -> (r: Option<(usize, TableChild)>)
        ensures
            final(self)@ == (TableView {
                children: without_first(old(self)@.children, t),
                ..old(self)@
            }),
            match r {
                Some((d, c)) => {
                    &&& first_index(old(self)@.children, t) == Some(d as int)
                    &&& c@ == old(self)@.children[d as int]
                    &&& child_below(c@, old(self)@.next_node_id)
                },
                None => first_index(old(self)@.children, t) is None,
            },
    {
        match self.first_child_where(t) {
            Some(d) => {
                proof {
                    lemma_first_index(self@.children, t);
                }
                let c = self.remove_child(d);
                Some((d, c))
            },
            None => None,
        }
    }

    /// The reference to the same node after the child at the index in
    /// `removed` was taken out of `cs`.
    fn shift_ref(
        node: NodeRef,
        removed: Option<(usize, TableChild)>,
        Ghost(cs): Ghost<Seq<ChildView>>,
        Ghost(bound): Ghost<u64>,
    ) -> (r: NodeRef)
        requires
            ref_valid_in(cs, bound, node),
            match removed {
                Some((d, c)) => d < cs.len() && c@ == cs[d as int] && child_below(c@, bound),
                None => true,
            },
        ensures
            ({
                let rest = match removed {
                    Some((d, _)) => cs.remove(d as int),
                    None => cs,
                };
                let d = match removed {
                    Some((d, _)) => Some(d as int),
                    None => None,
                };
                &&& ref_valid_in(rest, bound, r)
                &&& ref_value(rest, r) == ref_value(cs, node)
                &&& ref_position(r) == shifted_position(ref_position(node), d)
                &&& (r is Container <==> node is Container)
            }),
    {
        match removed {
            Some((d, c)) => match node {
                NodeRef::Child(p) => {
                    if p == d {
                        NodeRef::Detached(c)
                    } else if d < p {
                        NodeRef::Child(p - 1)
                    } else {
                        NodeRef::Child(p)
                    }
                },
                NodeRef::Detached(n) => NodeRef::Detached(n),
                NodeRef::Container(k) => NodeRef::Container(k),
            },
            None => node,
        }
    }

    /// Inserts the node before the child at `reference`, or at the end when
    /// there is none; a node that is already a child moves.
    fn insert_before(&mut self, node: NodeRef, reference: Option<usize>)
        requires
            ref_valid(old(self)@, node),
            !(node is Container),
            reference matches Some(r) ==> r < old(self)@.children.len(),
        ensures
            final(self)@ == (TableView {
                children: pre_insert(
                    old(self)@.children,
                    ref_value(old(self)@.children, node),
                    ref_position(node),
                    opt_int(reference),
                ),
                ..old(self)@
            }),
    {
        proof {
            use_type_invariant(&*self);
        }
        match node {
            NodeRef::Child(p) => {
                let reference = match reference {
                    Some(r) => if r == p {
                        if p + 1 < self.children.len() {
                            Some(p + 1)
                        } else {
                            None
                        }
                    } else {
                        Some(r)
                    },
                    None => None,
                };
                let c = self.remove_child(p);
                match reference {
                    Some(r) => {
                        let at = if p < r {
                            r - 1
                        } else {
                            r
                        };
                        self.insert_child(at, c);
                    },
                    None => {
                        self.push_child(c);
                    },
                }
            },
            NodeRef::Detached(c) => match reference {
                Some(r) => {
                    self.insert_child(r, c);
                },
                None => {
                    self.push_child(c);
                },
            },
            NodeRef::Container(_) => {
                proof {
                    assert(false);
                }
            },
        }
    }

    // ---- sections ----
    /// The first section of the slot's kind among the children.
    fn get_first_section_of_type(&self, slot: SectionSlot) -> (r: Option<usize>)
        ensures
            opt_int(r) == first_index(self@.children, slot_test(slot)),
    {
        self.first_child_where(ChildTest::Section(slot.kind()))
    }

    /// Makes `section` the section of the slot: fails when it is a section of
    /// another kind; otherwise removes the slot's first section and puts
    /// `section`, if any, where a new section of the slot goes, failing when
    /// `section` contains the table.
    fn set_first_section_of_type(&mut self, slot: SectionSlot, section: Option<NodeRef>) -> (r:
        Result<(), TableError>)
        requires
            section matches Some(n) ==> ref_valid(old(self)@, n) && ref_value(
                old(self)@.children,
                n,
            ).kind is Section,
        ensures
            match section {
                None => r is Ok && final(self)@ == (TableView {
                    children: without_first(old(self)@.children, slot_test(slot)),
                    ..old(self)@
                }),
                Some(n) => if ref_value(old(self)@.children, n).kind == NodeKind::Section(
                    slot_kind(slot),
                ) {
                    if n is Container {
                        &&& r == Err::<(), TableError>(TableError::HierarchyRequest)
                        &&& final(self)@ == (TableView {
                            children: without_first(old(self)@.children, slot_test(slot)),
                            ..old(self)@
                        })
                    } else {
                        &&& r is Ok
                        &&& final(self)@ == (TableView {
                            children: with_section(
                                old(self)@.children,
                                slot,
                                ref_value(old(self)@.children, n),
                                ref_position(n),
                            ),
                            ..old(self)@
                        })
                    }
                } else {
                    r == Err::<(), TableError>(TableError::HierarchyRequest) && final(self)@
                        == old(self)@
                },
            },
    {
        if let Some(e) = &section {
            if self.ref_kind(e) != NodeKind::Section(slot.kind()) {
                return Err(TableError::HierarchyRequest);
            }
        }
        let ghost cs = self@.children;
        let ghost bound = self@.next_node_id;
        let removed = self.remove_first_child_where(ChildTest::Section(slot.kind()));
        proof {
            lemma_first_index(cs, slot_test(slot));
        }
        if let Some(node) = section {
            let node = Self::shift_ref(node, removed, Ghost(cs), Ghost(bound));
            let reference = match slot {
                SectionSlot::THead => self.first_child_where(ChildTest::HeadAnchor),
                SectionSlot::TFoot => None,
            };
            if let NodeRef::Container(_) = node {
                // The table cannot be put inside a node that contains it.
                return Err(TableError::HierarchyRequest);
            }
            proof {
                lemma_first_index(self@.children, ChildTest::HeadAnchor);
            }
            self.insert_before(node, reference);
        }
        Ok(())
    }

    /// The section of the slot, made and placed first when there is none.
    fn create_section_of_type(&mut self, slot: SectionSlot) -> (r: usize)
        requires
            old(self)@.next_node_id < u64::MAX,
        ensures
            match first_index(old(self)@.children, slot_test(slot)) {
                Some(i) => r == i && final(self)@ == old(self)@,
                None => {
                    let new = fresh_child(old(self)@.next_node_id, NodeKind::Section(slot_kind(slot)));
                    &&& final(self)@ == (TableView {
                        children: slot_insert(old(self)@.children, slot, new),
                        next_node_id: (old(self)@.next_node_id + 1) as u64,
                        ..old(self)@
                    })
                    &&& r < final(self)@.children.len()
                    &&& final(self)@.children[r as int] == new
                    &&& first_index(final(self)@.children, slot_test(slot)) == Some(r as int)
                },
            },
            first_index(final(self)@.children, slot_test(slot)) == Some(r as int),
            row_ids(final(self)@.children) == row_ids(old(self)@.children),
    {
        if let Some(section) = self.get_first_section_of_type(slot) {
            return section;
        }
        let ghost cs = self@.children;
        let section = self.create_child(NodeKind::Section(slot.kind()));
        let ghost new = section@;
        let placed = match slot {
            SectionSlot::THead => self.set_t_head(Some(NodeRef::Detached(section))),
            SectionSlot::TFoot => self.set_t_foot(Some(NodeRef::Detached(section))),
        };
        proof {
            assert(new.children =~= Seq::<Node>::empty());
            assert(without_first(cs, slot_test(slot)) == cs);
            lemma_first_index(cs, slot_test(slot));
            crate::laws::lemma_section_is_first(cs, slot, new, None);
        }
        match placed {
            Ok(()) => {},
            Err(_) => {
                proof {
                    assert(false);
                }
            },
        }
        proof {
            assert(self@.children == with_section(cs, slot, new, None));
            assert(with_section(cs, slot, new, None) == slot_insert(cs, slot, new));
            lemma_first_index(self@.children, slot_test(slot));
            crate::laws::lemma_new_child_keeps_rows(cs, ChildTest::HeadAnchor, new, cs.len() as int);
            assert(cs.push(new) =~= cs.insert(cs.len() as int, new));
        }
        match self.get_first_section_of_type(slot) {
            Some(i) => i,
            None => {
                proof {
                    assert(false);
                }
                0
            },
        }
    }

    /// Removes the first section of the slot's kind, if any.
    fn delete_first_section_of_type(&mut self, slot: SectionSlot)
        ensures
            final(self)@ == (TableView {
                children: without_first(old(self)@.children, slot_test(slot)),
                ..old(self)@
            }),
    {
        let _ = self.remove_first_child_where(ChildTest::Section(slot.kind()));
    }

    /// The table's `thead`: its first `thead` child.
    pub fn get_t_head(&self) -> (r: Option<usize>)
        ensures
            opt_int(r) == first_index(self@.children, ChildTest::Section(SectionKind::Head)),
    {
        self.get_first_section_of_type(SectionSlot::THead)
    }

    /// Sets the table's `thead`: fails unless the node is a `thead`; removes
    /// the first `thead`, and puts the node, if any, before the first element
    /// child that is neither a caption nor a column group; fails, with the
    /// first `thead` removed, when the node contains the table.
    pub fn set_t_head(&mut self, thead: Option<NodeRef>) -> (r: Result<(), TableError>)
        requires
            thead matches Some(n) ==> ref_valid(old(self)@, n) && ref_value(
                old(self)@.children,
                n,
            ).kind is Section,
        ensures
            match thead {
                None => r is Ok && final(self)@ == (TableView {
                    children: without_first(
                        old(self)@.children,
                        ChildTest::Section(SectionKind::Head),
                    ),
                    ..old(self)@
                }),
                Some(n) => if ref_value(old(self)@.children, n).kind == NodeKind::Section(
                    SectionKind::Head,
                ) {
                    if n is Container {
                        &&& r == Err::<(), TableError>(TableError::HierarchyRequest)
                        &&& final(self)@ == (TableView {
                            children: without_first(old(self)@.children, ChildTest::Section(SectionKind::Head)),
                            ..old(self)@
                        })
                    } else {
                        &&& r is Ok
                        &&& final(self)@ == (TableView {
                            children: with_section(
                                old(self)@.children,
                                SectionSlot::THead,
                                ref_value(old(self)@.children, n),
                                ref_position(n),
                            ),
                            ..old(self)@
                        })
                    }
                } else {
                    r == Err::<(), TableError>(TableError::HierarchyRequest) && final(self)@
                        == old(self)@
                },
            },
    {
        self.set_first_section_of_type(SectionSlot::THead, thead)
    }

    /// The table's `thead`, made and placed before the first element child
    /// that is neither a caption nor a column group when there is none.
    pub fn create_t_head(&mut self) -> (r: usize)
        requires
            old(self)@.next_node_id < u64::MAX,
        ensures
            match first_index(old(self)@.children, ChildTest::Section(SectionKind::Head)) {
                Some(i) => r == i && final(self)@ == old(self)@,
                None => {
                    let new = fresh_child(
                        old(self)@.next_node_id,
                        NodeKind::Section(SectionKind::Head),
                    );
                    &&& final(self)@ == (TableView {
                        children: insert_before_first(
                            old(self)@.children,
                            ChildTest::HeadAnchor,
                            new,
                        ),
                        next_node_id: (old(self)@.next_node_id + 1) as u64,
                        ..old(self)@
                    })
                    &&& final(self)@.children[r as int] == new
                },
            },
            first_index(final(self)@.children, ChildTest::Section(SectionKind::Head)) == Some(
                r as int,
            ),
            row_ids(final(self)@.children) == row_ids(old(self)@.children),
    {
        self.create_section_of_type(SectionSlot::THead)
    }

    /// Removes the table's first `thead`, if any.
    pub fn delete_t_head(&mut self)
        ensures
            final(self)@ == (TableView {
                children: without_first(old(self)@.children, ChildTest::Section(SectionKind::Head)),
                ..old(self)@
            }),
    {
        self.delete_first_section_of_type(SectionSlot::THead)
    }

    /// The table's `tfoot`: its first `tfoot` child.
    pub fn get_t_foot(&self) -> (r: Option<usize>)
        ensures
            opt_int(r) == first_index(self@.children, ChildTest::Section(SectionKind::Foot)),
    {
        self.get_first_section_of_type(SectionSlot::TFoot)
    }

    /// Sets the table's `tfoot`: fails unless the node is a `tfoot`; removes
    /// the first `tfoot`, and puts the node, if any, at the end of the table;
    /// fails, with the first `tfoot` removed, when the node contains the table.
    pub fn set_t_foot(&mut self, tfoot: Option<NodeRef>) -> (r: Result<(), TableError>)
        requires
            tfoot matches Some(n) ==> ref_valid(old(self)@, n) && ref_value(
                old(self)@.children,
                n,
            ).kind is Section,
        ensures
            match tfoot {
                None => r is Ok && final(self)@ == (TableView {
                    children: without_first(
                        old(self)@.children,
                        ChildTest::Section(SectionKind::Foot),
                    ),
                    ..old(self)@
                }),
                Some(n) => if ref_value(old(self)@.children, n).kind == NodeKind::Section(
                    SectionKind::Foot,
                ) {
                    if n is Container {
                        &&& r == Err::<(), TableError>(TableError::HierarchyRequest)
                        &&& final(self)@ == (TableView {
                            children: without_first(old(self)@.children, ChildTest::Section(SectionKind::Foot)),
                            ..old(self)@
                        })
                    } else {
                        &&& r is Ok
                        &&& final(self)@ == (TableView {
                            children: with_section(
                                old(self)@.children,
                                SectionSlot::TFoot,
                                ref_value(old(self)@.children, n),
                                ref_position(n),
                            ),
                            ..old(self)@
                        })
                    }
                } else {
                    r == Err::<(), TableError>(TableError::HierarchyRequest) && final(self)@
                        == old(self)@
                },
            },
    {
        self.set_first_section_of_type(SectionSlot::TFoot, tfoot)
    }

    /// The table's `tfoot`, made and put at the end of the table when there
    /// is none.
    pub fn create_t_foot(&mut self) -> (r: usize)
        requires
            old(self)@.next_node_id < u64::MAX,
        ensures
            match first_index(old(self)@.children, ChildTest::Section(SectionKind::Foot)) {
                Some(i) => r == i && final(self)@ == old(self)@,
                None => {
                    let new = fresh_child(
                        old(self)@.next_node_id,
                        NodeKind::Section(SectionKind::Foot),
                    );
                    &&& final(self)@ == (TableView {
                        children: old(self)@.children.push(new),
                        next_node_id: (old(self)@.next_node_id + 1) as u64,
                        ..old(self)@
                    })
                    &&& final(self)@.children[r as int] == new
                },
            },
            first_index(final(self)@.children, ChildTest::Section(SectionKind::Foot)) == Some(
                r as int,
            ),
            row_ids(final(self)@.children) == row_ids(old(self)@.children),
    {
        self.create_section_of_type(SectionSlot::TFoot)
    }

    /// Removes the table's first `tfoot`, if any.
    pub fn delete_t_foot(&mut self)
        ensures
            final(self)@ == (TableView {
                children: without_first(old(self)@.children, ChildTest::Section(SectionKind::Foot)),
                ..old(self)@
            }),
    {
        self.delete_first_section_of_type(SectionSlot::TFoot)
    }

    // ---- caption ----
    /// The table's caption: its first `caption` child.
    pub fn get_caption(&self) -> (r: Option<usize>)
        ensures
            opt_int(r) == first_index(self@.children, ChildTest::Caption),
    {
        self.first_child_where(ChildTest::Caption)
    }

    /// Sets the table's caption: removes the first caption, and puts the
    /// node, if any, before the first child; fails, with the first caption
    /// removed, when the node contains the table.
    pub fn set_caption(&mut self, new_caption: Option<NodeRef>) -> (r: Result<(), TableError>)
        requires
            new_caption matches Some(n) ==> ref_valid(old(self)@, n) && ref_value(
                old(self)@.children,
                n,
            ).kind == NodeKind::Caption,
        ensures
            r is Err <==> (new_caption matches Some(n) && n is Container),
            r is Err ==> r == Err::<(), TableError>(TableError::HierarchyRequest),
            final(self)@ == (TableView {
                children: match new_caption {
                    Some(NodeRef::Container(_)) => without_first(
                        old(self)@.children,
                        ChildTest::Caption,
                    ),
                    Some(n) => with_caption(
                        old(self)@.children,
                        ref_value(old(self)@.children, n),
                        ref_position(n),
                    ),
                    None => without_first(old(self)@.children, ChildTest::Caption),
                },
                ..old(self)@
            }),
            row_ids(final(self)@.children) == row_ids(old(self)@.children),
    {
        let ghost cs = self@.children;
        let ghost bound = self@.next_node_id;
        let ghost arg = new_caption;
        let removed = self.remove_first_child_where(ChildTest::Caption);
        proof {
            lemma_first_index(cs, ChildTest::Caption);
        }
        proof {
            crate::laws::lemma_caption_keeps_rows(cs, fresh_child(0, NodeKind::Caption), None);
        }
        if let Some(NodeRef::Container(_)) = new_caption {
            // The table cannot be put inside a node that contains it.
            return Err(TableError::HierarchyRequest);
        }
        if let Some(caption) = new_caption {
            let caption = Self::shift_ref(caption, removed, Ghost(cs), Ghost(bound));
            let first_child = if self.children.len() > 0 {
                Some(0)
            } else {
                None
            };
            self.insert_before(caption, first_child);
        }
        proof {
            match arg {
                Some(n) => crate::laws::lemma_caption_keeps_rows(
                    cs,
                    ref_value(cs, n),
                    ref_position(n),
                ),
                None => crate::laws::lemma_caption_keeps_rows(
                    cs,
                    fresh_child(0, NodeKind::Caption),
                    None,
                ),
            }
        }
        Ok(())
    }

    /// The table's caption, made and placed first when there is none.
    pub fn create_caption(&mut self) -> (r: usize)
        requires
            old(self)@.next_node_id < u64::MAX,
        ensures
            match first_index(old(self)@.children, ChildTest::Caption) {
                Some(i) => r == i && final(self)@ == old(self)@,
                None => r == 0 && final(self)@ == (TableView {
                    children: old(self)@.children.insert(
                        0,
                        fresh_child(old(self)@.next_node_id, NodeKind::Caption),
                    ),
                    next_node_id: (old(self)@.next_node_id + 1) as u64,
                    ..old(self)@
                }),
            },
            first_index(final(self)@.children, ChildTest::Caption) == Some(r as int),
            row_ids(final(self)@.children) == row_ids(old(self)@.children),
    {
        match self.get_caption() {
            Some(caption) => caption,
            None => {
                let ghost cs = self@.children;
                let caption = self.create_child(NodeKind::Caption);
                let ghost new = caption@;
                let _ = self.set_caption(Some(NodeRef::Detached(caption)));
                proof {
                    assert(new.children =~= Seq::<Node>::empty());
                    assert(without_first(cs, ChildTest::Caption) == cs);
                    if cs.len() > 0 {
                        assert(self@.children == cs.insert(0, new));
                    } else {
                        assert(cs.push(new) =~= cs.insert(0, new));
                    }
                    crate::laws::lemma_caption_is_first(cs, new, None);
                    crate::laws::lemma_new_child_keeps_rows(cs, ChildTest::Caption, new, 0);
                }
                0
            },
        }
    }

    /// Removes the table's first caption, if any.
    pub fn delete_caption(&mut self)
        ensures
            final(self)@ == (TableView {
                children: without_first(old(self)@.children, ChildTest::Caption),
                ..old(self)@
            }),
            row_ids(final(self)@.children) == row_ids(old(self)@.children),
    {
        let _ = self.remove_first_child_where(ChildTest::Caption);
        proof {
            crate::laws::lemma_caption_keeps_rows(
                old(self)@.children,
                fresh_child(0, NodeKind::Caption),
                None,
            );
        }
    }

    // ---- bodies ----
    /// The table's bodies collection: its `tbody` children.
    pub fn t_bodies(&self) -> (r: TBodies) {
        TBodies
    }

    /// Makes a new `tbody` and puts it right after the last `tbody` child,
    /// or at the end when there is none; returns where it stands.
    pub fn create_t_body(&mut self) -> (r: usize)
        requires
            old(self)@.next_node_id < u64::MAX,
        ensures
            r == new_tbody_position(old(self)@.children),
            final(self)@ == (TableView {
                children: old(self)@.children.insert(
                    r as int,
                    fresh_child(old(self)@.next_node_id, NodeKind::Section(SectionKind::Body)),
                ),
                next_node_id: (old(self)@.next_node_id + 1) as u64,
                ..old(self)@
            }),
            last_index(final(self)@.children, ChildTest::Section(SectionKind::Body)) == Some(
                r as int,
            ),
            indices_where(final(self)@.children, ChildTest::Section(SectionKind::Body))
                == indices_where(old(self)@.children, ChildTest::Section(SectionKind::Body)).push(r),
            row_ids(final(self)@.children) == row_ids(old(self)@.children),
    {
        proof {
            use_type_invariant(&*self);
        }
        let ghost cs = self@.children;
        let tbody = self.create_child(NodeKind::Section(SectionKind::Body));
        let ghost new = tbody@;
        proof {
            assert(new.children =~= Seq::<Node>::empty());
        }
        let last_tbody = self.last_child_where(ChildTest::Section(SectionKind::Body));
        proof {
            lemma_last_index(cs, ChildTest::Section(SectionKind::Body));
        }
        let position = match last_tbody {
            Some(t) => t + 1,
            None => self.children.len(),
        };
        let reference_element = if position < self.children.len() {
            Some(position)
        } else {
            None
        };
        self.insert_before(NodeRef::Detached(tbody), reference_element);
        proof {
            use_type_invariant(&*self);
            if position == cs.len() {
                assert(cs.push(new) =~= cs.insert(position as int, new));
            }
            crate::laws::lemma_new_tbody_is_last(cs, new);
            crate::laws::lemma_new_child_keeps_rows(cs, ChildTest::Caption, new, position as int);
        }
        position
    }

    // ---- inserting and deleting rows ----
    /// Inserts a new row at position `index` of the table's rows (after the
    /// last row when `index` is -1), and returns where it stands. With no
    /// rows, the new row goes into the last `tbody`, or into a new `tbody`
    /// appended to the table. Fails with `IndexSize` when `index` is below
    /// -1 or above the number of rows.
    pub fn insert_row(&mut self, index: i32) -> (r: Result<RowLocation, TableError>)
        requires
            row_ids(old(self)@.children).len() <= i32::MAX,
            old(self)@.next_node_id < u64::MAX - 1,
        ensures
            ({
                let cs = old(self)@.children;
                let n = row_ids(cs).len() as int;
                let id = old(self)@.next_node_id;
                &&& r is Err <==> (index < -1 || index > n)
                &&& r is Err ==> r == Err::<RowLocation, TableError>(TableError::IndexSize)
                    && final(self)@ == old(self)@
                &&& 0 <= index < n ==> r == Ok::<RowLocation, TableError>(row_locations(cs)[index as int])
                &&& r matches Ok(loc) ==> {
                    &&& final(self)@ == (TableView {
                        children: with_inserted_row(cs, index as int, id),
                        next_node_id: (id + if n == 0 && last_index(
                            cs,
                            ChildTest::Section(SectionKind::Body),
                        ) is None {
                            2int
                        } else {
                            1int
                        }) as u64,
                        ..old(self)@
                    })
                    &&& location_id(final(self)@.children, loc) == id
                    &&& !row_ids(cs).contains(id)
                    &&& row_ids(final(self)@.children) == row_ids(cs).insert(
                        inserted_row_position(n, index as int),
                        id,
                    )
                }
            }),
    {
        proof {
            use_type_invariant(&*self);
        }
        let ghost cs = self@.children;
        let ghost id = self@.next_node_id;
        let rows = self.rows().locations(self);
        proof {
            lemma_lengths_fit(cs, self@.next_node_id);
            lemma_row_locations(cs);
        }
        let number_of_row_elements = rows.len();
        if index < -1 || index > number_of_row_elements as i32 {
            return Err(TableError::IndexSize);
        }
        proof {
            lemma_inserted_row_ids(cs, index as int, id);
            lemma_row_ids_below(cs, id);
        }
        let new_row = self.create_node(NodeKind::Row);
        if number_of_row_elements == 0 {
            // The new row is the table's first: it goes into the last tbody.
            match self.last_child_where(ChildTest::Section(SectionKind::Body)) {
                Some(last_tbody) => {
                    proof {
                        lemma_last_index(cs, ChildTest::Section(SectionKind::Body));
                    }
                    let at = self.children[last_tbody].children.len();
                    self.push_grandchild(last_tbody, new_row);
                    Ok(RowLocation::InSection(last_tbody, at))
                },
                None => {
                    proof {
                        lemma_last_index(cs, ChildTest::Section(SectionKind::Body));
                    }
                    let tbody = self.create_t_body();
                    let ghost with_tbody = self@.children;
                    assert(tbody as int == cs.len());
                    self.insert_before(NodeRef::Child(tbody), None);
                    proof {
                        assert(with_tbody.remove(tbody as int).push(with_tbody[tbody as int])
                            =~= with_tbody);
                    }
                    self.push_grandchild(tbody, new_row);
                    proof {
                        assert(self@.children =~= with_inserted_row(cs, index as int, id));
                    }
                    Ok(RowLocation::InSection(tbody, 0))
                },
            }
        } else if index == number_of_row_elements as i32 || index == -1 {
            // The new row follows the last row, in the same parent.
            match rows[number_of_row_elements - 1] {
                RowLocation::InTable(_) => {
                    let at = self.children.len();
                    let row = TableChild { id: new_row.id, kind: NodeKind::Row, children: Vec::new() };
                    proof {
                        assert(row@.children =~= Seq::<Node>::empty());
                    }
                    self.push_child(row);
                    Ok(RowLocation::InTable(at))
                },
                RowLocation::InSection(i, _) => {
                    proof {
                        assert(locates_row(cs, rows@[number_of_row_elements - 1], number_of_row_elements - 1));
                    }
                    let at = self.children[i].children.len();
                    self.push_grandchild(i, new_row);
                    Ok(RowLocation::InSection(i, at))
                },
            }
        } else {
            // The new row goes before the row at `index`, in the same parent.
            proof {
                assert(locates_row(cs, rows@[index as int], index as int));
            }
            match rows[index as usize] {
                RowLocation::InTable(i) => {
                    let row = TableChild { id: new_row.id, kind: NodeKind::Row, children: Vec::new() };
                    proof {
                        assert(row@.children =~= Seq::<Node>::empty());
                    }
                    self.insert_child(i, row);
                    Ok(RowLocation::InTable(i))
                },
                RowLocation::InSection(i, j) => {
                    self.insert_grandchild(i, j, new_row);
                    Ok(RowLocation::InSection(i, j))
                },
            }
        }
    }

    /// Removes the row at position `index` of the table's rows (the last row
    /// when `index` is -1) from its parent; with -1 and no rows, does
    /// nothing. Fails with `IndexSize` when `index` is below -1 or not below
    /// the number of rows.
    pub fn delete_row(&mut self, index: i32) -> (r: Result<(), TableError>)
        requires
            row_ids(old(self)@.children).len() <= i32::MAX,
        ensures
            ({
                let cs = old(self)@.children;
                let n = row_ids(cs).len() as int;
                let k = deleted_row_position(n, index as int);
                &&& r is Err <==> (index < -1 || index >= n)
                &&& r is Err ==> r == Err::<(), TableError>(TableError::IndexSize) && final(self)@
                    == old(self)@
                &&& (r is Ok && index == -1 && n == 0) ==> final(self)@ == old(self)@
                &&& (r is Ok && 0 <= k < n) ==> {
                    &&& final(self)@ == (TableView {
                        children: with_deleted_row(cs, k),
                        ..old(self)@
                    })
                    &&& row_ids(final(self)@.children) == row_ids(cs).remove(k)
                }
            }),
    {
        proof {
            use_type_invariant(&*self);
        }
        let ghost cs = self@.children;
        let rows = self.rows().locations(self);
        proof {
            lemma_lengths_fit(cs, self@.next_node_id);
            lemma_row_locations(cs);
        }
        let mut index = index;
        // -1 names the last row; with no rows there is nothing to remove.
        if index == -1 {
            if rows.len() == 0 {
                return Ok(());
            }
            index = rows.len() as i32 - 1;
        }
        // The index must name a row.
        if index < 0 || index as usize >= rows.len() {
            return Err(TableError::IndexSize);
        }
        // The row leaves its parent.
        proof {
            assert(locates_row(cs, rows@[index as int], index as int));
            lemma_deleted_row_ids(cs, index as int);
        }
        match rows[index as usize] {
            RowLocation::InTable(i) => {
                let _ = self.remove_child(i);
            },
            RowLocation::InSection(i, j) => {
                self.remove_grandchild(i, j);
            },
        }
        Ok(())
    }

    // ---- attributes ----
    /// The table's border width, as its `border` attribute last set it.
    pub fn get_border(&self) -> (r: Option<u32>)
        ensures
            r == self@.border,
    {
        self.border
    }

    /// The table's cell padding, as its `cellpadding` attribute last set it.
    pub fn get_cellpadding(&self) -> (r: Option<u32>)
        ensures
            r == self@.cellpadding,
    {
        self.cellpadding
    }

    /// The table's cell spacing, as its `cellspacing` attribute last set it.
    pub fn get_cellspacing(&self) -> (r: Option<u32>)
        ensures
            r == self@.cellspacing,
    {
        self.cellspacing
    }

    /// Records what the attribute's new value parsed to (`None` when the
    /// attribute was removed): the border width, where a value that does not
    /// parse means one pixel; the cell padding or spacing, where it means
    /// none. Other attributes change nothing.
    pub fn apply_parsed_attribute(&mut self, attr: TableAttr, parsed: Option<Result<u32, ()>>)
        ensures
            final(self)@ == match attr {
                TableAttr::Border => TableView { border: border_value(parsed), ..old(self)@ },
                TableAttr::CellPadding => TableView {
                    cellpadding: spacing_value(parsed),
                    ..old(self)@
                },
                TableAttr::CellSpacing => TableView {
                    cellspacing: spacing_value(parsed),
                    ..old(self)@
                },
                _ => old(self)@,
            },
    {
        proof {
            use_type_invariant(&*self);
        }
        match attr {
            TableAttr::Border => {
                // An invalid border value means a border of one pixel.
                self.border = match parsed {
                    Some(result) => Some(
                        match result {
                            Ok(n) => n,
                            Err(_) => 1,
                        },
                    ),
                    None => None,
                };
            },
            TableAttr::CellPadding => {
                self.cellpadding = match parsed {
                    Some(Ok(n)) => Some(n),
                    _ => None,
                };
            },
            TableAttr::CellSpacing => {
                self.cellspacing = match parsed {
                    Some(Ok(n)) => Some(n),
                    _ => None,
                };
            },
            _ => {},
        }
        proof {
            assert(self@.children =~= old(self)@.children);
        }
    }

    /// The text of the `bgcolor` attribute: empty when it is not set.
    pub fn bg_color(&self) -> (r: String)
        ensures
            r@ == reflected_text(self@.bgcolor),
    {
        match &self.bgcolor {
            Some(text) => text.clone(),
            None => String::new(),
        }
    }

    /// Sets the `bgcolor` attribute to `value`.
    pub fn set_bg_color(&mut self, value: String)
        ensures
            final(self)@ == after_mutation(old(self)@, TableAttr::BgColor, Some(value@)),
    {
        proof {
            use_type_invariant(&*self);
        }
        self.bgcolor = Some(value);
        proof {
            assert(self@.children =~= old(self)@.children);
        }
    }

    /// The text of the `width` attribute: empty when it is not set.
    pub fn width(&self) -> (r: String)
        ensures
            r@ == reflected_text(self@.width),
    {
        match &self.width {
            Some(text) => text.clone(),
            None => String::new(),
        }
    }

    /// Sets the `width` attribute to `value`.
    pub fn set_width(&mut self, value: String)
        ensures
            final(self)@ == after_mutation(old(self)@, TableAttr::Width, Some(value@)),
    {
        proof {
            use_type_invariant(&*self);
        }
        self.width = Some(value);
        proof {
            assert(self@.children =~= old(self)@.children);
        }
    }

    /// The text of the attribute `attr` as the table keeps it, for the
    /// attributes whose text it keeps (`bgcolor` and `width`); `None` when
    /// it is not set, and for the others.
    pub fn attribute_text(&self, attr: TableAttr) -> (r: Option<String>)
        ensures
            text_view(r) == match attr {
                TableAttr::BgColor => self@.bgcolor,
                TableAttr::Width => self@.width,
                _ => None,
            },
    {
        match attr {
            TableAttr::BgColor => self.bgcolor.clone(),
            TableAttr::Width => self.width.clone(),
            _ => None,
        }
    }

    /// Reacts to a change of one of the table's attributes: `new_value` is
    /// the attribute's new text, `None` when it was removed. The `border`,
    /// `cellpadding` and `cellspacing` values are parsed by the HTML rules
    /// for non-negative integers and recorded; the text of `bgcolor` and
    /// `width` is kept as it is.
    pub fn attribute_mutated(&mut self, attr: TableAttr, new_value: Option<&str>)
        ensures
            final(self)@ == after_mutation(old(self)@, attr, new_text(new_value)),
    {
        proof {
            use_type_invariant(&*self);
        }
        match attr {
            TableAttr::Border | TableAttr::CellPadding | TableAttr::CellSpacing => {
                let parsed = match new_value {
                    Some(value) => Some(parse_unsigned_integer(value)),
                    None => None,
                };
                self.apply_parsed_attribute(attr, parsed);
            },
            TableAttr::BgColor => {
                self.bgcolor = match new_value {
                    Some(value) => Some(String::from_str(value)),
                    None => None,
                };
                proof {
                    assert(self@.children =~= old(self)@.children);
                }
            },
            TableAttr::Width => {
                self.width = match new_value {
                    Some(value) => Some(String::from_str(value)),
                    None => None,
                };
                proof {
                    assert(self@.children =~= old(self)@.children);
                }
            },
            TableAttr::Other => {},
        }
    }

    /// Parses an attribute's text as the table does: `border` as an unsigned
    /// integer with default one, `width` as a non-zero dimension, `bgcolor`
    /// as a legacy colour; any other attribute is left to the generic element.
    pub fn parse_plain_attribute(&self, attr: TableAttr, value: String) -> (r: PlainAttribute)
        ensures
            match attr {
                TableAttr::Border => r matches PlainAttribute::UInt(s, n) && s@ == value@ && n
                    == reflected_unsigned(non_negative_integer(value@), 1),
                TableAttr::Width => r matches PlainAttribute::NonzeroDimension(s) && s@ == value@,
                TableAttr::BgColor => r matches PlainAttribute::LegacyColor(s) && s@ == value@,
                _ => r matches PlainAttribute::Inherited(s) && s@ == value@,
            },
    {
        match attr {
            TableAttr::Border => {
                let n = reflect_unsigned(parse_unsigned_integer(value.as_str()), 1);
                PlainAttribute::UInt(value, n)
            },
            TableAttr::Width => PlainAttribute::NonzeroDimension(value),
            TableAttr::BgColor => PlainAttribute::LegacyColor(value),
            _ => PlainAttribute::Inherited(value),
        }
    }
}

/// The table after its attribute `attr` was given the text `text` (`None`:
/// the attribute was removed): `border` records the width its text parses
/// to, one pixel when it does not parse; `cellpadding` and `cellspacing`
/// record what their text parses to, none when it does not parse; `bgcolor`
/// and `width` keep their text; any other attribute changes nothing.
pub open spec fn after_mutation(v: TableView, attr: TableAttr, text: Option<Seq<char>>) -> TableView {
    match attr {
        TableAttr::Border => TableView { border: border_value(parsed_text(text)), ..v },
        TableAttr::CellPadding => TableView { cellpadding: spacing_value(parsed_text(text)), ..v },
        TableAttr::CellSpacing => TableView { cellspacing: spacing_value(parsed_text(text)), ..v },
        TableAttr::BgColor => TableView { bgcolor: text, ..v },
        TableAttr::Width => TableView { width: text, ..v },
        TableAttr::Other => v,
    }
}

/// What layout reads of a table element.
pub trait HTMLTableElementLayoutHelpers {
    fn get_border(&self) -> Option<u32>;

    fn get_cellpadding(&self) -> Option<u32>;

    fn get_cellspacing(&self) -> Option<u32>;
}

impl HTMLTableElementLayoutHelpers for HTMLTableElement {
    fn get_border(&self) -> (r: Option<u32>)
        ensures
            r == self@.border,
    {
        self.border
    }

    fn get_cellpadding(&self) -> (r: Option<u32>)
        ensures
            r == self@.cellpadding,
    {
        self.cellpadding
    }

    fn get_cellspacing(&self) -> (r: Option<u32>)
        ensures
            r == self@.cellspacing,
    {
        self.cellspacing
    }
}

} // verus!
