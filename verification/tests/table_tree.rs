use html_table::{
    ElementParent, HTMLTableElement, NodeKind, NodeRef, RowLocation, SectionKind, TableChild,
    TableError,
};

const THEAD: NodeKind = NodeKind::Section(SectionKind::Head);
const TBODY: NodeKind = NodeKind::Section(SectionKind::Body);
const TFOOT: NodeKind = NodeKind::Section(SectionKind::Foot);

/// Appends a child of `kind` with `rows` row children and returns its id.
fn add_child(t: &mut HTMLTableElement, kind: NodeKind, rows: usize) -> u64 {
    let c = t.create_child(kind);
    let id = c.id;
    t.append_child(c);
    let i = t.child_count() - 1;
    for _ in 0..rows {
        let n = t.create_node(NodeKind::Row);
        t.append_grandchild(i, n);
    }
    id
}

fn kinds(t: &HTMLTableElement) -> Vec<NodeKind> {
    (0..t.child_count()).map(|i| t.child(i).kind).collect()
}

fn rows(t: &HTMLTableElement) -> Vec<RowLocation> {
    t.rows().locations(t)
}

fn bodies(t: &HTMLTableElement) -> Vec<usize> {
    let c = t.t_bodies();
    (0..c.length(t)).map(|i| c.item(t, i).unwrap()).collect()
}

/// The table's children with their children, to compare whole trees.
fn tree(t: &HTMLTableElement) -> Vec<TableChild> {
    (0..t.child_count()).map(|i| t.child(i).clone()).collect()
}

fn same_tree(a: &[TableChild], b: &[TableChild]) -> bool {
    a.len() == b.len()
        && a.iter().zip(b).all(|(x, y)| x.id == y.id && x.kind == y.kind && x.children == y.children)
}

fn row_ids(t: &HTMLTableElement) -> Vec<u64> {
    rows(t)
        .iter()
        .map(|loc| match *loc {
            RowLocation::InTable(i) => t.child(i).id,
            RowLocation::InSection(i, j) => t.child(i).children[j].id,
        })
        .collect()
}

#[test]
fn new_table_is_empty() {
    let t = HTMLTableElement::new();
    assert_eq!(t.child_count(), 0);
    assert!(rows(&t).is_empty());
    assert_eq!(t.rows().length(&t), 0);
    assert_eq!(t.get_caption(), None);
    assert_eq!(t.get_t_head(), None);
    assert_eq!(t.get_t_foot(), None);
    assert_eq!(t.t_bodies().length(&t), 0);
    assert_eq!(t.get_border(), None);
}

#[test]
fn rows_are_in_tree_order_and_only_under_table_or_sections() {
    let mut t = HTMLTableElement::new();
    let row_a = add_child(&mut t, NodeKind::Row, 0);
    add_child(&mut t, TBODY, 2);
    add_child(&mut t, NodeKind::Element, 3);
    add_child(&mut t, NodeKind::Row, 0);
    add_child(&mut t, TBODY, 1);
    assert_eq!(
        rows(&t),
        vec![
            RowLocation::InTable(0),
            RowLocation::InSection(1, 0),
            RowLocation::InSection(1, 1),
            RowLocation::InTable(3),
            RowLocation::InSection(4, 0),
        ]
    );
    assert_eq!(row_ids(&t)[0], row_a);
    assert_eq!(t.rows().length(&t), 5);
    assert_eq!(t.rows().item(&t, 3), Some(RowLocation::InTable(3)));
    assert_eq!(t.rows().item(&t, 5), None);
}

#[test]
fn rows_of_thead_come_first_and_rows_of_tfoot_last() {
    let mut t = HTMLTableElement::new();
    let foot = add_child(&mut t, TFOOT, 1);
    let body = add_child(&mut t, TBODY, 1);
    let head = add_child(&mut t, THEAD, 1);
    assert_eq!(
        rows(&t),
        vec![
            RowLocation::InSection(2, 0),
            RowLocation::InSection(1, 0),
            RowLocation::InSection(0, 0),
        ]
    );
    assert_eq!(t.child(0).id, foot);
    assert_eq!(t.child(1).id, body);
    assert_eq!(t.child(2).id, head);
}

#[test]
fn rows_group_table_rows_with_tbody_rows() {
    let mut t = HTMLTableElement::new();
    add_child(&mut t, NodeKind::Row, 0);
    add_child(&mut t, TFOOT, 2);
    add_child(&mut t, TBODY, 1);
    add_child(&mut t, THEAD, 1);
    add_child(&mut t, NodeKind::Row, 0);
    assert_eq!(
        rows(&t),
        vec![
            RowLocation::InSection(3, 0),
            RowLocation::InTable(0),
            RowLocation::InSection(2, 0),
            RowLocation::InTable(4),
            RowLocation::InSection(1, 0),
            RowLocation::InSection(1, 1),
        ]
    );
}

#[test]
fn rows_collection_sees_later_changes() {
    let mut t = HTMLTableElement::new();
    let c = t.rows();
    assert_eq!(c.length(&t), 0);
    let b = t.create_child(TBODY);
    let row = t.create_node(NodeKind::Row);
    let row_id = row.id;
    t.append_child(b);
    t.append_grandchild(0, row);
    assert_eq!(c.length(&t), 1);
    assert_eq!(c.item(&t, 0), Some(RowLocation::InSection(0, 0)));
    assert_eq!(t.child(0).children[0].id, row_id);
}

#[test]
fn row_filter_counts_rows_of_table_and_sections() {
    let mut t = HTMLTableElement::new();
    add_child(&mut t, NodeKind::Caption, 0);
    add_child(&mut t, TBODY, 0);
    add_child(&mut t, NodeKind::Element, 0);
    let f = t.get_rows();
    assert!(f.filter(&t, NodeKind::Row, ElementParent::Table));
    assert!(f.filter(&t, NodeKind::Row, ElementParent::TableChild(1)));
    assert!(!f.filter(&t, NodeKind::Row, ElementParent::TableChild(0)));
    assert!(!f.filter(&t, NodeKind::Row, ElementParent::TableChild(2)));
    assert!(!f.filter(&t, NodeKind::Row, ElementParent::TableChild(3)));
    assert!(!f.filter(&t, NodeKind::Row, ElementParent::Elsewhere));
    assert!(!f.filter(&t, NodeKind::Element, ElementParent::Table));
    // The filter reads the table as it is when asked.
    add_child(&mut t, TFOOT, 0);
    assert!(f.filter(&t, NodeKind::Row, ElementParent::TableChild(3)));
}

#[test]
fn insert_row_into_empty_table_makes_a_tbody() {
    let mut t = HTMLTableElement::new();
    add_child(&mut t, NodeKind::Caption, 0);
    let r = t.insert_row(0);
    assert_eq!(r, Ok(RowLocation::InSection(1, 0)));
    assert_eq!(kinds(&t), vec![NodeKind::Caption, TBODY]);
    assert_eq!(t.child(1).children.len(), 1);
    assert_eq!(t.child(1).children[0].kind, NodeKind::Row);
    assert_eq!(t.rows().length(&t), 1);
}

#[test]
fn insert_row_into_table_without_rows_uses_last_tbody() {
    let mut t = HTMLTableElement::new();
    add_child(&mut t, TBODY, 0);
    add_child(&mut t, TBODY, 0);
    add_child(&mut t, NodeKind::Element, 0);
    let r = t.insert_row(-1);
    assert_eq!(r, Ok(RowLocation::InSection(1, 0)));
    assert_eq!(t.child_count(), 3);
    assert_eq!(t.child(0).children.len(), 0);
    assert_eq!(t.child(1).children.len(), 1);
}

#[test]
fn insert_row_at_end_follows_last_row_in_its_parent() {
    let mut t = HTMLTableElement::new();
    add_child(&mut t, TBODY, 2);
    add_child(&mut t, NodeKind::Element, 0);
    let before = row_ids(&t);
    let r = t.insert_row(2).unwrap();
    assert_eq!(r, RowLocation::InSection(0, 2));
    let after = row_ids(&t);
    assert_eq!(after.len(), 3);
    assert_eq!(&after[..2], &before[..]);
    let r = t.insert_row(-1).unwrap();
    assert_eq!(r, RowLocation::InSection(0, 3));
}

#[test]
fn insert_row_at_end_after_table_row_appends_to_table() {
    let mut t = HTMLTableElement::new();
    add_child(&mut t, NodeKind::Row, 0);
    add_child(&mut t, NodeKind::Element, 0);
    let r = t.insert_row(-1).unwrap();
    assert_eq!(r, RowLocation::InTable(2));
    assert_eq!(kinds(&t), vec![NodeKind::Row, NodeKind::Element, NodeKind::Row]);
}

#[test]
fn insert_row_in_the_middle_goes_before_that_row() {
    let mut t = HTMLTableElement::new();
    add_child(&mut t, THEAD, 1);
    add_child(&mut t, TBODY, 2);
    let before = row_ids(&t);
    let r = t.insert_row(2).unwrap();
    assert_eq!(r, RowLocation::InSection(1, 1));
    let after = row_ids(&t);
    assert_eq!(after.len(), 4);
    assert_eq!(after[0], before[0]);
    assert_eq!(after[1], before[1]);
    assert_eq!(after[3], before[2]);
    let new_id = after[2];
    assert!(!before.contains(&new_id));
}

#[test]
fn insert_row_before_a_table_row() {
    let mut t = HTMLTableElement::new();
    add_child(&mut t, NodeKind::Caption, 0);
    add_child(&mut t, NodeKind::Row, 0);
    let r = t.insert_row(0).unwrap();
    assert_eq!(r, RowLocation::InTable(1));
    assert_eq!(kinds(&t), vec![NodeKind::Caption, NodeKind::Row, NodeKind::Row]);
}

#[test]
fn insert_row_rejects_out_of_range_index() {
    let mut t = HTMLTableElement::new();
    add_child(&mut t, TBODY, 2);
    let before = row_ids(&t);
    assert_eq!(t.insert_row(-2), Err(TableError::IndexSize));
    assert_eq!(t.insert_row(3), Err(TableError::IndexSize));
    assert_eq!(row_ids(&t), before);
    assert_eq!(t.child_count(), 1);
    let mut empty = HTMLTableElement::new();
    assert_eq!(empty.insert_row(1), Err(TableError::IndexSize));
    assert_eq!(empty.child_count(), 0);
}

#[test]
fn delete_row_removes_the_indexed_row() {
    let mut t = HTMLTableElement::new();
    add_child(&mut t, NodeKind::Row, 0);
    add_child(&mut t, TBODY, 2);
    let before = row_ids(&t);
    assert_eq!(t.delete_row(0), Ok(()));
    assert_eq!(row_ids(&t), before[1..].to_vec());
    assert_eq!(kinds(&t), vec![TBODY]);
    assert_eq!(t.delete_row(-1), Ok(()));
    assert_eq!(row_ids(&t), vec![before[1]]);
}

#[test]
fn delete_row_rejects_out_of_range_index() {
    let mut t = HTMLTableElement::new();
    assert_eq!(t.delete_row(0), Err(TableError::IndexSize));
    add_child(&mut t, TBODY, 1);
    assert_eq!(t.delete_row(1), Err(TableError::IndexSize));
    assert_eq!(t.delete_row(-2), Err(TableError::IndexSize));
    assert_eq!(t.rows().length(&t), 1);
}

#[test]
fn delete_last_row_of_a_table_without_rows_does_nothing() {
    let mut t = HTMLTableElement::new();
    assert_eq!(t.delete_row(-1), Ok(()));
    assert_eq!(t.child_count(), 0);
    add_child(&mut t, TBODY, 0);
    add_child(&mut t, NodeKind::Caption, 0);
    let before = tree(&t);
    assert_eq!(t.delete_row(-1), Ok(()));
    assert!(same_tree(&tree(&t), &before));
}

#[test]
fn delete_row_undoes_insert_row() {
    let mut t = HTMLTableElement::new();
    add_child(&mut t, THEAD, 1);
    add_child(&mut t, TBODY, 2);
    add_child(&mut t, NodeKind::Row, 0);
    let before = row_ids(&t);
    let before_tree = tree(&t);
    for index in [-1, 0, 1, 2, 3, 4] {
        t.insert_row(index).unwrap();
        assert_eq!(t.rows().length(&t), 5);
        t.delete_row(index).unwrap();
        assert_eq!(row_ids(&t), before);
        assert!(same_tree(&tree(&t), &before_tree));
    }
}

#[test]
fn delete_row_undoes_insert_row_in_a_tfoot() {
    let mut t = HTMLTableElement::new();
    add_child(&mut t, TFOOT, 2);
    add_child(&mut t, TBODY, 1);
    let before_tree = tree(&t);
    for index in [-1, 0, 1, 2, 3] {
        t.insert_row(index).unwrap();
        t.delete_row(index).unwrap();
        assert!(same_tree(&tree(&t), &before_tree));
    }
}

#[test]
fn delete_row_after_insert_row_into_empty_table_leaves_the_new_tbody() {
    let mut t = HTMLTableElement::new();
    t.insert_row(0).unwrap();
    assert_eq!(t.delete_row(0), Ok(()));
    assert_eq!(kinds(&t), vec![TBODY]);
    assert_eq!(t.rows().length(&t), 0);
}

#[test]
fn caption_is_created_first_and_reused() {
    let mut t = HTMLTableElement::new();
    add_child(&mut t, TBODY, 1);
    let c = t.create_caption();
    assert_eq!(c, 0);
    assert_eq!(kinds(&t), vec![NodeKind::Caption, TBODY]);
    let id = t.child(0).id;
    assert_eq!(t.create_caption(), 0);
    assert_eq!(t.child(0).id, id);
    assert_eq!(t.child_count(), 2);
    assert_eq!(t.get_caption(), Some(0));
}

#[test]
fn set_caption_moves_the_node_first_and_drops_the_old_caption() {
    let mut t = HTMLTableElement::new();
    add_child(&mut t, TBODY, 0);
    let old = add_child(&mut t, NodeKind::Caption, 0);
    let other = add_child(&mut t, NodeKind::Caption, 0);
    assert_eq!(t.get_caption(), Some(1));
    assert_eq!(t.set_caption(Some(NodeRef::Child(2))), Ok(()));
    assert_eq!(kinds(&t), vec![NodeKind::Caption, TBODY]);
    assert_eq!(t.child(0).id, other);
    assert!((0..t.child_count()).all(|i| t.child(i).id != old));
    let fresh = t.create_child(NodeKind::Caption);
    let fresh_id = fresh.id;
    assert_eq!(t.set_caption(Some(NodeRef::Detached(fresh))), Ok(()));
    assert_eq!(t.child(0).id, fresh_id);
    assert_eq!(t.child_count(), 2);
    assert_eq!(t.set_caption(None), Ok(()));
    assert_eq!(kinds(&t), vec![TBODY]);
}

#[test]
fn delete_caption_removes_first_caption_only() {
    let mut t = HTMLTableElement::new();
    add_child(&mut t, NodeKind::Caption, 0);
    add_child(&mut t, NodeKind::Caption, 0);
    t.delete_caption();
    assert_eq!(kinds(&t), vec![NodeKind::Caption]);
    t.delete_caption();
    t.delete_caption();
    assert_eq!(t.child_count(), 0);
}

#[test]
fn thead_goes_after_captions_and_column_groups() {
    let mut t = HTMLTableElement::new();
    add_child(&mut t, NodeKind::Caption, 0);
    add_child(&mut t, NodeKind::Text, 0);
    add_child(&mut t, NodeKind::ColGroup, 0);
    add_child(&mut t, TBODY, 1);
    let h = t.create_t_head();
    assert_eq!(h, 3);
    assert_eq!(
        kinds(&t),
        vec![NodeKind::Caption, NodeKind::Text, NodeKind::ColGroup, THEAD, TBODY]
    );
    assert_eq!(t.get_t_head(), Some(3));
    assert_eq!(t.create_t_head(), 3);
    assert_eq!(t.child_count(), 5);
    t.delete_t_head();
    assert_eq!(t.get_t_head(), None);
    assert_eq!(t.child_count(), 4);
}

#[test]
fn thead_goes_before_a_col_child() {
    let mut t = HTMLTableElement::new();
    let col = add_child(&mut t, NodeKind::Col, 0);
    let body = add_child(&mut t, TBODY, 0);
    let head = t.create_child(THEAD);
    let head_id = head.id;
    assert_eq!(t.set_t_head(Some(NodeRef::Detached(head))), Ok(()));
    assert_eq!(kinds(&t), vec![THEAD, NodeKind::Col, TBODY]);
    assert_eq!(
        (0..3).map(|i| t.child(i).id).collect::<Vec<_>>(),
        vec![head_id, col, body]
    );
}

#[test]
fn tfoot_goes_at_the_end_of_the_table() {
    let mut t = HTMLTableElement::new();
    add_child(&mut t, NodeKind::Caption, 0);
    add_child(&mut t, THEAD, 0);
    add_child(&mut t, TBODY, 0);
    add_child(&mut t, NodeKind::Row, 0);
    let f = t.create_t_foot();
    assert_eq!(f, 4);
    assert_eq!(
        kinds(&t),
        vec![NodeKind::Caption, THEAD, TBODY, NodeKind::Row, TFOOT]
    );
    assert_eq!(t.get_t_foot(), Some(4));
    assert_eq!(t.create_t_foot(), 4);
    assert_eq!(t.child_count(), 5);
    t.delete_t_foot();
    assert_eq!(t.get_t_foot(), None);
}

#[test]
fn tfoot_goes_at_the_end_when_nothing_follows() {
    let mut t = HTMLTableElement::new();
    add_child(&mut t, TBODY, 1);
    assert_eq!(t.create_t_foot(), 1);
    assert_eq!(kinds(&t), vec![TBODY, TFOOT]);
}

#[test]
fn set_section_of_the_wrong_kind_is_a_hierarchy_error() {
    let mut t = HTMLTableElement::new();
    add_child(&mut t, THEAD, 0);
    let foot = t.create_child(TFOOT);
    assert_eq!(t.set_t_head(Some(NodeRef::Detached(foot))), Err(TableError::HierarchyRequest));
    assert_eq!(kinds(&t), vec![THEAD]);
    let head = t.create_child(THEAD);
    assert_eq!(t.set_t_foot(Some(NodeRef::Detached(head))), Err(TableError::HierarchyRequest));
    assert_eq!(t.set_t_foot(Some(NodeRef::Child(0))), Err(TableError::HierarchyRequest));
    assert_eq!(kinds(&t), vec![THEAD]);
}

#[test]
fn set_thead_replaces_the_first_thead() {
    let mut t = HTMLTableElement::new();
    add_child(&mut t, NodeKind::Caption, 0);
    let first = add_child(&mut t, THEAD, 1);
    add_child(&mut t, TBODY, 1);
    let second = add_child(&mut t, THEAD, 0);
    assert_eq!(t.set_t_head(Some(NodeRef::Child(3))), Ok(()));
    assert_eq!(kinds(&t), vec![NodeKind::Caption, THEAD, TBODY]);
    assert_eq!(t.child(1).id, second);
    assert!((0..t.child_count()).all(|i| t.child(i).id != first));
    assert_eq!(t.get_t_head(), Some(1));
    assert_eq!(t.set_t_head(None), Ok(()));
    assert_eq!(kinds(&t), vec![NodeKind::Caption, TBODY]);
}

#[test]
fn set_thead_with_the_current_thead_keeps_it_in_place() {
    let mut t = HTMLTableElement::new();
    add_child(&mut t, NodeKind::Caption, 0);
    let head = add_child(&mut t, THEAD, 0);
    add_child(&mut t, TBODY, 0);
    assert_eq!(t.set_t_head(Some(NodeRef::Child(1))), Ok(()));
    assert_eq!(kinds(&t), vec![NodeKind::Caption, THEAD, TBODY]);
    assert_eq!(t.child(1).id, head);
}

#[test]
fn create_tbody_goes_after_the_last_tbody() {
    let mut t = HTMLTableElement::new();
    add_child(&mut t, THEAD, 0);
    add_child(&mut t, TBODY, 0);
    add_child(&mut t, TBODY, 0);
    add_child(&mut t, TFOOT, 0);
    let c = t.t_bodies();
    assert_eq!(bodies(&t), vec![1, 2]);
    let k = c.length(&t);
    let b = t.create_t_body();
    assert_eq!(b, 3);
    assert_eq!(kinds(&t), vec![THEAD, TBODY, TBODY, TBODY, TFOOT]);
    assert_eq!(bodies(&t), vec![1, 2, 3]);
    // The collection made before the call sees the new tbody.
    assert_eq!(c.length(&t), k + 1);
    assert_eq!(c.item(&t, k), Some(b));
    assert_eq!(c.item(&t, k + 1), None);
    let mut empty = HTMLTableElement::new();
    add_child(&mut empty, NodeKind::Caption, 0);
    assert_eq!(empty.create_t_body(), 1);
}

#[test]
fn tbodies_counts_only_tbody_children() {
    let mut t = HTMLTableElement::new();
    add_child(&mut t, TBODY, 0);
    add_child(&mut t, NodeKind::Element, 0);
    let c = t.t_bodies();
    assert!(c.filter(TBODY, ElementParent::Table));
    assert!(!c.filter(TBODY, ElementParent::TableChild(1)));
    assert!(!c.filter(THEAD, ElementParent::Table));
    assert_eq!(c.length(&t), 1);
    t.delete_row(-1).unwrap();
    add_child(&mut t, TBODY, 0);
    assert_eq!(bodies(&t), vec![0, 2]);
}

#[test]
fn set_tfoot_places_the_node_and_get_tfoot_finds_it() {
    let mut t = HTMLTableElement::new();
    add_child(&mut t, THEAD, 0);
    add_child(&mut t, TBODY, 1);
    add_child(&mut t, NodeKind::Row, 0);
    let foot = t.create_child(TFOOT);
    let foot_id = foot.id;
    assert_eq!(t.set_t_foot(Some(NodeRef::Detached(foot))), Ok(()));
    assert_eq!(kinds(&t), vec![THEAD, TBODY, NodeKind::Row, TFOOT]);
    let f = t.get_t_foot().unwrap();
    assert_eq!(t.child(f).id, foot_id);
}

#[test]
fn caption_and_empty_sections_keep_the_rows() {
    let mut t = HTMLTableElement::new();
    add_child(&mut t, NodeKind::Row, 0);
    add_child(&mut t, TBODY, 2);
    add_child(&mut t, NodeKind::Caption, 0);
    let before = row_ids(&t);
    t.create_caption();
    assert_eq!(row_ids(&t), before);
    t.set_caption(Some(NodeRef::Child(2))).unwrap();
    assert_eq!(t.get_caption(), Some(0));
    assert_eq!(row_ids(&t), before);
    t.create_t_head();
    t.create_t_foot();
    t.create_t_body();
    assert_eq!(row_ids(&t), before);
    t.delete_caption();
    assert_eq!(row_ids(&t), before);
}

#[test]
fn inserted_rows_are_new_nodes() {
    let mut t = HTMLTableElement::new();
    add_child(&mut t, TBODY, 3);
    let before = row_ids(&t);
    let loc = t.insert_row(1).unwrap();
    let id = match loc {
        RowLocation::InTable(i) => t.child(i).id,
        RowLocation::InSection(i, j) => t.child(i).children[j].id,
    };
    assert!(!before.contains(&id));
    assert_eq!(row_ids(&t)[1], id);
}

#[test]
fn set_caption_with_a_node_containing_the_table_fails_after_removing_the_caption() {
    let mut t = HTMLTableElement::new();
    add_child(&mut t, NodeKind::Caption, 0);
    add_child(&mut t, TBODY, 1);
    add_child(&mut t, NodeKind::Caption, 0);
    assert_eq!(
        t.set_caption(Some(NodeRef::Container(NodeKind::Caption))),
        Err(TableError::HierarchyRequest)
    );
    assert_eq!(kinds(&t), vec![TBODY, NodeKind::Caption]);
    assert_eq!(t.get_caption(), Some(1));
}

#[test]
fn set_section_with_a_node_containing_the_table_fails_after_removing_the_section() {
    let mut t = HTMLTableElement::new();
    add_child(&mut t, THEAD, 0);
    add_child(&mut t, TBODY, 0);
    add_child(&mut t, TFOOT, 0);
    assert_eq!(
        t.set_t_head(Some(NodeRef::Container(THEAD))),
        Err(TableError::HierarchyRequest)
    );
    assert_eq!(kinds(&t), vec![TBODY, TFOOT]);
    // A container of another kind fails before anything is removed.
    assert_eq!(
        t.set_t_foot(Some(NodeRef::Container(THEAD))),
        Err(TableError::HierarchyRequest)
    );
    assert_eq!(kinds(&t), vec![TBODY, TFOOT]);
    assert_eq!(
        t.set_t_foot(Some(NodeRef::Container(TFOOT))),
        Err(TableError::HierarchyRequest)
    );
    assert_eq!(kinds(&t), vec![TBODY]);
}

#[test]
fn accepts_ref_checks_indices_and_ids() {
    let mut t = HTMLTableElement::new();
    add_child(&mut t, TBODY, 2);
    assert!(t.accepts_ref(&NodeRef::Child(0)));
    assert!(!t.accepts_ref(&NodeRef::Child(1)));
    assert!(t.accepts_ref(&NodeRef::Container(NodeKind::Caption)));
    let own = t.create_child(NodeKind::Caption);
    assert!(t.accepts_ref(&NodeRef::Detached(own)));
    let mut other = HTMLTableElement::new();
    for _ in 0..10 {
        other.create_node(NodeKind::Row);
    }
    let foreign = other.create_child(NodeKind::Caption);
    assert!(!t.accepts_ref(&NodeRef::Detached(foreign)));
    let mut with_foreign_child = t.create_child(TBODY);
    with_foreign_child.children.push(html_table::Node { id: 1000, kind: NodeKind::Row });
    assert!(!t.accepts_ref(&NodeRef::Detached(with_foreign_child)));
}
