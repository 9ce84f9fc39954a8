//! What holds of the table's operations taken together: what a read gives
//! back of a write, and what one call undoes of another.
use vstd::prelude::*;
use crate::node::{
    child_below, child_row_ids, first_index, group_row_ids, groups_after, groups_before, ids_below,
    indices_where, last_index, location_id, nested_row_ids, row_group, row_ids, row_locations,
    test_holds,
    ChildTest, ChildView, Node, NodeKind, RowLocation, SectionKind,
};
use crate::lemmas::{
    lemma_first_index, lemma_last_index, lemma_nested_row_ids_insert, lemma_nested_row_ids_push,
    lemma_nested_row_ids_remove, lemma_nested_row_ids_single, lemma_nested_row_ids_split,
};
use crate::rows::{
    lemma_row_ids_insert_row, lemma_row_ids_insert_rowless, lemma_row_ids_push,
    lemma_row_ids_remove_row, lemma_row_ids_remove_rowless, lemma_row_ids_update,
    lemma_row_locations, location_group, locates_row,
};
use crate::table::{
    after_mutation, deleted_row_position, fresh_child, insert_before_first, inserted_row_position,
    new_row, new_tbody_position, pre_insert, shifted_position, slot_kind, slot_reference,
    slot_test, with_caption, with_children, with_deleted_row, with_inserted_row, with_section,
    without_first, SectionSlot, TableView,
};
use crate::attr::{
    border_value, non_negative_integer, parsed_text, reflected_text, reflected_unsigned,
    spacing_value, TableAttr,
};

verus! {

/// Where a node that stands at `pos` of `cs` stands after the first child
/// passing `t` is removed.
proof fn lemma_position_after_removal(cs: Seq<ChildView>, t: ChildTest, node: ChildView, pos: Option<int>)
    requires
        pos matches Some(p) ==> 0 <= p < cs.len() && cs[p] == node,
    ensures
        ({
            let rest = without_first(cs, t);
            shifted_position(pos, first_index(cs, t)) matches Some(p) ==> 0 <= p < rest.len()
                && rest[p] == node
        }),
{
    lemma_first_index(cs, t);
    let rest = without_first(cs, t);
    match (pos, first_index(cs, t)) {
        (Some(p), Some(d)) => {
            if d < p {
                assert(rest[p - 1] == cs[p]);
            } else if p < d {
                assert(rest[p] == cs[p]);
            }
        },
        _ => {},
    }
}

/// Every section of the slot left after the first one is removed is the
/// node itself, when no other section of that kind stands beside the first.
proof fn lemma_only_node_left(
    cs: Seq<ChildView>,
    t: ChildTest,
    node: ChildView,
    pos: Option<int>,
)
    requires
        pos matches Some(p) ==> 0 <= p < cs.len() && cs[p] == node,
        forall|j: int|
            0 <= j < cs.len() && test_holds(t, #[trigger] cs[j].kind) && Some(j) != first_index(
                cs,
                t,
            ) ==> Some(j) == pos,
    ensures
        forall|j: int|
            0 <= j < without_first(cs, t).len() && test_holds(
                t,
                #[trigger] without_first(cs, t)[j].kind,
            ) ==> Some(j) == shifted_position(pos, first_index(cs, t)),
{
    lemma_first_index(cs, t);
    let rest = without_first(cs, t);
    assert forall|j: int|
        0 <= j < rest.len() && test_holds(t, #[trigger] rest[j].kind) implies Some(j)
        == shifted_position(pos, first_index(cs, t)) by {
        match first_index(cs, t) {
            Some(d) => {
                let jj = if j < d {
                    j
                } else {
                    j + 1
                };
                assert(rest[j] == cs[jj]);
                assert(Some(jj) == pos);
            },
            None => {
                assert(rest[j] == cs[j]);
            },
        }
    }
}

/// A section set in its slot is the table's section of that slot: after
/// `set_t_head` (or `set_t_foot`) succeeds with a node, the first `thead`
/// (or `tfoot`) among the children is that node. A `tfoot` goes at the end,
/// so for a `tfoot` this holds when no `tfoot` other than the first and the
/// node itself stands among the children.
pub proof fn lemma_section_is_first(
    cs: Seq<ChildView>,
    slot: SectionSlot,
    node: ChildView,
    pos: Option<int>,
)
    requires
        node.kind == NodeKind::Section(slot_kind(slot)),
        pos matches Some(p) ==> 0 <= p < cs.len() && cs[p] == node,
        slot == SectionSlot::TFoot ==> forall|j: int|
            0 <= j < cs.len() && test_holds(slot_test(slot), #[trigger] cs[j].kind) && Some(j)
                != first_index(cs, slot_test(slot)) ==> Some(j) == pos,
    ensures
        first_index(with_section(cs, slot, node, pos), slot_test(slot)) matches Some(q) && with_section(
            cs,
            slot,
            node,
            pos,
        )[q] == node,
{
    let t = slot_test(slot);
    let a = ChildTest::HeadAnchor;
    let rest = without_first(cs, t);
    let p1 = shifted_position(pos, first_index(cs, t));
    let r = slot_reference(rest, slot);
    let res = with_section(cs, slot, node, pos);
    assert(res == pre_insert(rest, node, p1, r));
    lemma_position_after_removal(cs, t, node, pos);
    assert(test_holds(t, node.kind));
    let q: int = if slot == SectionSlot::THead {
        lemma_first_index(rest, a);
        assert(test_holds(a, node.kind));
        // Every child before the anchor fails the slot's test, since a
        // `thead` passes the anchor test.
        assert forall|j: int|
            0 <= j < rest.len() && (r is None || j < r->0) implies !test_holds(
            t,
            #[trigger] rest[j].kind,
        ) by {
            if test_holds(t, rest[j].kind) {
                assert(test_holds(a, rest[j].kind));
            }
        }
        match p1 {
            Some(p) => {
                assert(test_holds(a, rest[p].kind));
                if r == Some(p) {
                    if p + 1 < rest.len() {
                        assert(res =~= rest.remove(p).insert(p, node));
                    } else {
                        assert(res =~= rest.remove(p).push(node));
                    }
                    assert(res =~= rest);
                    p
                } else {
                    let rr = r->0;
                    assert(rr < p);
                    assert(res =~= rest.remove(p).insert(rr, node));
                    assert forall|j: int| 0 <= j < rr implies #[trigger] res[j] == rest[j] by {}
                    rr
                }
            },
            None => match r {
                Some(rr) => {
                    assert(res =~= rest.insert(rr, node));
                    rr
                },
                None => {
                    assert(res =~= rest.push(node));
                    rest.len() as int
                },
            },
        }
    } else {
        lemma_only_node_left(cs, t, node, pos);
        match p1 {
            Some(p) => {
                assert(res =~= rest.remove(p).push(node));
                assert forall|j: int| 0 <= j < rest.len() - 1 implies !test_holds(
                    t,
                    #[trigger] res[j].kind,
                ) by {
                    let jj = if j < p {
                        j
                    } else {
                        j + 1
                    };
                    assert(res[j] == rest[jj]);
                }
                rest.len() - 1
            },
            None => {
                assert(res =~= rest.push(node));
                assert forall|j: int| 0 <= j < rest.len() implies !test_holds(
                    t,
                    #[trigger] res[j].kind,
                ) by {
                    assert(res[j] == rest[j]);
                }
                rest.len() as int
            },
        }
    };
    assert(res[q] == node);
    assert forall|j: int| 0 <= j < q implies !test_holds(t, #[trigger] res[j].kind) by {
        if slot == SectionSlot::THead {
            assert(res[j] == rest[j]);
        }
    }
    lemma_first_index(res, t);
}

/// A caption set is the table's caption, and its first child: after
/// `set_caption` with a caption node, the first caption among the children
/// is that node, at index 0.
pub proof fn lemma_caption_is_first(cs: Seq<ChildView>, node: ChildView, pos: Option<int>)
    requires
        node.kind == NodeKind::Caption,
        pos matches Some(p) ==> 0 <= p < cs.len() && cs[p] == node,
    ensures
        first_index(with_caption(cs, node, pos), ChildTest::Caption) == Some(0int),
        with_caption(cs, node, pos)[0] == node,
{
    let t = ChildTest::Caption;
    let rest = without_first(cs, t);
    let p1 = shifted_position(pos, first_index(cs, t));
    let res = with_caption(cs, node, pos);
    lemma_position_after_removal(cs, t, node, pos);
    match p1 {
        Some(p) => {
            if p == 0 {
                if 1 < rest.len() {
                    assert(res =~= rest.remove(0).insert(0, node));
                } else {
                    assert(res =~= rest.remove(0).push(node));
                }
                assert(res =~= rest);
            } else {
                assert(res =~= rest.remove(p).insert(0, node));
            }
        },
        None => {
            if rest.len() > 0 {
                assert(res =~= rest.insert(0, node));
            } else {
                assert(res =~= rest.push(node));
            }
        },
    }
    assert(res[0] == node);
    assert(test_holds(t, res[0].kind));
    lemma_first_index(res, t);
}

/// The children fit in memory, and so do the children of each child.
pub open spec fn lengths_fit(cs: Seq<ChildView>) -> bool {
    &&& cs.len() <= usize::MAX
    &&& forall|i: int| 0 <= i < cs.len() ==> #[trigger] cs[i].children.len() <= usize::MAX
}

/// Children whose ids are all below a bound fit in memory.
pub proof fn lemma_lengths_fit(cs: Seq<ChildView>, bound: u64)
    requires
        ids_below(cs, bound),
    ensures
        lengths_fit(cs),
{
    assert forall|i: int| 0 <= i < cs.len() implies #[trigger] cs[i].children.len()
        <= usize::MAX by {
        assert(child_below(cs[i], bound));
    }
}

/// `insertRow(index)` puts its new row at position `index` of the table's
/// rows (at the end when `index` is -1), and keeps every other row, in order.
#[verifier::rlimit(60)]
pub proof fn lemma_inserted_row_ids(cs: Seq<ChildView>, index: int, id: u64)
    requires
        lengths_fit(cs),
        -1 <= index <= row_ids(cs).len(),
    ensures
        row_ids(with_inserted_row(cs, index, id)) == row_ids(cs).insert(
            inserted_row_position(row_ids(cs).len() as int, index),
            id,
        ),
{
    let n = row_ids(cs).len() as int;
    let rs = row_ids(cs);
    let row = new_row(id);
    let res = with_inserted_row(cs, index, id);
    lemma_row_locations(cs);
    if n == 0 {
        lemma_last_index(cs, ChildTest::Section(SectionKind::Body));
        match last_index(cs, ChildTest::Section(SectionKind::Body)) {
            Some(t) => {
                let c = cs[t];
                let c2 = with_children(c, c.children.push(row));
                lemma_row_ids_update(cs, t, c2);
                lemma_nested_row_ids_push(c.children, row);
                assert(child_row_ids(c2) == nested_row_ids(c.children).push(id));
                assert(res == cs.update(t, c2));
                assert(row_ids(res) =~= rs.insert(0, id));
            },
            None => {
                let tb = ChildView {
                    id: (id + 1) as u64,
                    kind: NodeKind::Section(SectionKind::Body),
                    children: seq![row],
                };
                lemma_row_ids_push(cs, tb);
                lemma_nested_row_ids_single(row);
                assert(row_ids(res) =~= rs.insert(0, id));
            },
        }
    } else if index == n || index == -1 {
        let loc = row_locations(cs)[n - 1];
        assert(locates_row(cs, loc, n - 1));
        let g = location_group(cs, loc);
        match loc {
            RowLocation::InTable(i) => {
                let i = i as int;
                let c = fresh_child(id, NodeKind::Row);
                lemma_row_ids_push(cs, c);
                lemma_row_ids_update(cs, i, cs[i]);
                assert(cs.update(i, cs[i]) =~= cs);
                assert(groups_after(cs, 1).len() == 0);
                assert(row_ids(cs) =~= groups_before(cs, 1) + group_row_ids(cs, 1) + groups_after(
                    cs,
                    1,
                ));
                assert(row_ids(res) =~= rs.insert(n, id));
            },
            RowLocation::InSection(i, j) => {
                let i = i as int;
                let j = j as int;
                let c = cs[i];
                let c2 = with_children(c, c.children.push(row));
                lemma_row_ids_update(cs, i, c2);
                lemma_nested_row_ids_push(c.children, row);
                lemma_nested_row_ids_split(c.children, j);
                lemma_nested_row_ids_single(c.children[j]);
                let after = group_row_ids(cs.skip(i + 1), g) + groups_after(cs, g);
                assert(after.len() == 0);
                assert(row_ids(res) =~= rs.insert(n, id));
            },
        }
    } else {
        let loc = row_locations(cs)[index];
        assert(locates_row(cs, loc, index));
        match loc {
            RowLocation::InTable(i) => {
                lemma_row_ids_insert_row(cs, i as int, fresh_child(id, NodeKind::Row));
            },
            RowLocation::InSection(i, j) => {
                let i = i as int;
                let j = j as int;
                let g = row_group(cs[i].kind);
                let c = cs[i];
                let c2 = with_children(c, c.children.insert(j, row));
                lemma_row_ids_update(cs, i, c2);
                lemma_nested_row_ids_insert(c.children, j, row);
                lemma_nested_row_ids_split(c.children, j);
                lemma_nested_row_ids_single(c.children[j]);
                let before = groups_before(cs, g) + group_row_ids(cs.take(i), g);
                let after = group_row_ids(cs.skip(i + 1), g) + groups_after(cs, g);
                let m = nested_row_ids(c.children.take(j)).len() as int;
                assert(before + nested_row_ids(c.children).insert(m, id) + after =~= (before
                    + nested_row_ids(c.children) + after).insert(before.len() + m, id));
                assert(row_ids(res) =~= before + nested_row_ids(c.children).insert(m, id)
                    + after);
                assert(rs =~= before + nested_row_ids(c.children) + after);
            },
        }
    }
}

/// `deleteRow(index)` removes the row at position `index` of the table's
/// rows (the last when `index` is -1), and keeps every other row, in order.
pub proof fn lemma_deleted_row_ids(cs: Seq<ChildView>, k: int)
    requires
        lengths_fit(cs),
        0 <= k < row_ids(cs).len(),
    ensures
        row_ids(with_deleted_row(cs, k)) == row_ids(cs).remove(k),
{
    lemma_row_locations(cs);
    let loc = row_locations(cs)[k];
    assert(locates_row(cs, loc, k));
    match loc {
        RowLocation::InTable(i) => {
            lemma_row_ids_remove_row(cs, i as int);
        },
        RowLocation::InSection(i, j) => {
            let i = i as int;
            let j = j as int;
            let g = row_group(cs[i].kind);
            let c = cs[i];
            let c2 = with_children(c, c.children.remove(j));
            lemma_row_ids_update(cs, i, c2);
            lemma_nested_row_ids_remove(c.children, j);
            lemma_nested_row_ids_split(c.children, j);
            lemma_nested_row_ids_single(c.children[j]);
            let before = groups_before(cs, g) + group_row_ids(cs.take(i), g);
            let after = group_row_ids(cs.skip(i + 1), g) + groups_after(cs, g);
            let m = nested_row_ids(c.children.take(j)).len() as int;
            assert(before + nested_row_ids(c.children).remove(m) + after =~= (before
                + nested_row_ids(c.children) + after).remove(before.len() + m));
            assert(row_ids(with_deleted_row(cs, k)) =~= before + nested_row_ids(c.children).remove(
                m,
            ) + after);
            assert(row_ids(cs) =~= before + nested_row_ids(c.children) + after);
        },
    }
}

/// The children after `insertRow` still fit in memory.
proof fn lemma_inserted_lengths_fit(cs: Seq<ChildView>, index: int, id: u64)
    requires
        lengths_fit(cs),
        cs.len() < usize::MAX,
        forall|i: int| 0 <= i < cs.len() ==> #[trigger] cs[i].children.len() < usize::MAX,
        -1 <= index <= row_ids(cs).len(),
    ensures
        lengths_fit(with_inserted_row(cs, index, id)),
{
    let n = row_ids(cs).len() as int;
    let after = with_inserted_row(cs, index, id);
        lemma_row_locations(cs);
        if n == 0 {
            lemma_last_index(cs, ChildTest::Section(SectionKind::Body));
            match last_index(cs, ChildTest::Section(SectionKind::Body)) {
                Some(t) => {
                    assert forall|x: int| 0 <= x < after.len() implies #[trigger] after[x].children.len()
                        <= usize::MAX by {
                        if x != t {
                            assert(after[x] == cs[x]);
                        }
                    }
                },
                None => {
                    assert forall|x: int| 0 <= x < after.len() implies #[trigger] after[x].children.len()
                        <= usize::MAX by {
                        if x < cs.len() {
                            assert(after[x] == cs[x]);
                        }
                    }
                },
            }
        } else if index == n || index == -1 {
            let loc = row_locations(cs)[n - 1];
            assert(locates_row(cs, loc, n - 1));
            assert forall|x: int| 0 <= x < after.len() implies #[trigger] after[x].children.len()
                <= usize::MAX by {
                if x < cs.len() && !(loc matches RowLocation::InSection(i, _) && x == i) {
                    assert(after[x] == cs[x]);
                }
            }
        } else {
            let loc = row_locations(cs)[index];
            assert(locates_row(cs, loc, index));
            match loc {
                RowLocation::InTable(i) => {
                    assert forall|x: int| 0 <= x < after.len() implies #[trigger] after[x].children.len()
                        <= usize::MAX by {
                        if x < i {
                            assert(after[x] == cs[x]);
                        } else if x > i {
                            assert(after[x] == cs[x - 1]);
                        }
                    }
                },
                RowLocation::InSection(i, j) => {
                    assert forall|x: int| 0 <= x < after.len() implies #[trigger] after[x].children.len()
                        <= usize::MAX by {
                        if x != i {
                            assert(after[x] == cs[x]);
                        }
                    }
                },
            }
        }
    }

/// Deleting the row that `insertRow(index)` has just added gives the table
/// back its rows: `deleteRow` at the new row's position undoes `insertRow`.
pub proof fn lemma_delete_undoes_insert_row(cs: Seq<ChildView>, index: int, id: u64)
    requires
        lengths_fit(cs),
        cs.len() < usize::MAX,
        forall|i: int| 0 <= i < cs.len() ==> #[trigger] cs[i].children.len() < usize::MAX,
        -1 <= index <= row_ids(cs).len(),
    ensures
        ({
            let k = inserted_row_position(row_ids(cs).len() as int, index);
            let after = with_inserted_row(cs, index, id);
            &&& 0 <= k < row_ids(after).len()
            &&& row_ids(with_deleted_row(after, k)) == row_ids(cs)
        }),
{
    let n = row_ids(cs).len() as int;
    let k = inserted_row_position(n, index);
    let after = with_inserted_row(cs, index, id);
    lemma_inserted_row_ids(cs, index, id);
    lemma_inserted_lengths_fit(cs, index, id);
    lemma_deleted_row_ids(after, k);
    assert(row_ids(cs).insert(k, id).remove(k) =~= row_ids(cs));
}

/// `deleteRow(index)` right after `insertRow(index)` removes the row just
/// added and gives the table back its whole tree, when the table had rows
/// or a `tbody` (otherwise the `tbody` made for the row stays): every child,
/// and every child's children, are as before.
pub proof fn lemma_delete_undoes_insert_row_tree(cs: Seq<ChildView>, index: int, id: u64)
    requires
        ids_below(cs, id),
        cs.len() < usize::MAX,
        forall|i: int| 0 <= i < cs.len() ==> #[trigger] cs[i].children.len() < usize::MAX,
        -1 <= index <= row_ids(cs).len(),
        row_ids(cs).len() > 0 || last_index(cs, ChildTest::Section(SectionKind::Body)) is Some,
    ensures
        deleted_row_position(row_ids(cs).len() + 1int, index) == inserted_row_position(
            row_ids(cs).len() as int,
            index,
        ),
        with_deleted_row(
            with_inserted_row(cs, index, id),
            deleted_row_position(row_ids(cs).len() + 1int, index),
        ) == cs,
{
    let n = row_ids(cs).len() as int;
    let k = inserted_row_position(n, index);
    let after = with_inserted_row(cs, index, id);
    let row = new_row(id);
    lemma_lengths_fit(cs, id);
    lemma_inserted_row_ids(cs, index, id);
    lemma_inserted_lengths_fit(cs, index, id);
    lemma_row_locations(after);
    lemma_row_locations(cs);
    let loc = row_locations(after)[k];
    assert(row_ids(after)[k] == id);
    assert(locates_row(after, loc, k));
    assert(location_id(after, loc) == id);
    assert forall|x: int| 0 <= x < cs.len() implies #[trigger] child_below(cs[x], id) by {}
    let res = with_deleted_row(after, k);
    if n == 0 {
        lemma_last_index(cs, ChildTest::Section(SectionKind::Body));
        let t = last_index(cs, ChildTest::Section(SectionKind::Body))->0;
        let c = cs[t];
        assert(child_below(c, id));
        assert(after == cs.update(t, with_children(c, c.children.push(row))));
        match loc {
            RowLocation::InTable(x) => {
                assert(child_below(cs[x as int], id));
                assert(false);
            },
            RowLocation::InSection(x, j) => {
                assert(child_below(cs[x as int], id));
                if x as int != t {
                    assert(after[x as int] == cs[x as int]);
                    assert(false);
                }
                if (j as int) < c.children.len() {
                    assert(after[t].children[j as int] == c.children[j as int]);
                    assert(false);
                }
                assert(after[t].children.remove(j as int) =~= c.children);
                assert(with_children(after[t], after[t].children.remove(j as int)) == c);
                assert(res =~= cs);
            },
        }
    } else if index == n || index == -1 {
        let last = row_locations(cs)[n - 1];
        assert(locates_row(cs, last, n - 1));
        match last {
            RowLocation::InTable(_) => {
                assert(after == cs.push(fresh_child(id, NodeKind::Row)));
                match loc {
                    RowLocation::InTable(x) => {
                        if (x as int) < cs.len() {
                            assert(child_below(cs[x as int], id));
                            assert(false);
                        }
                        assert(res =~= cs);
                    },
                    RowLocation::InSection(x, j) => {
                        if (x as int) < cs.len() {
                            assert(child_below(cs[x as int], id));
                            assert(after[x as int] == cs[x as int]);
                            assert(false);
                        }
                        assert(false);
                    },
                }
            },
            RowLocation::InSection(i, _) => {
                let i = i as int;
                let c = cs[i];
                assert(child_below(c, id));
                assert(after == cs.update(i, with_children(c, c.children.push(row))));
                match loc {
                    RowLocation::InTable(x) => {
                        assert(child_below(cs[x as int], id));
                        assert(false);
                    },
                    RowLocation::InSection(x, j) => {
                        assert(child_below(cs[x as int], id));
                        if x as int != i {
                            assert(after[x as int] == cs[x as int]);
                            assert(false);
                        }
                        if (j as int) < c.children.len() {
                            assert(after[i].children[j as int] == c.children[j as int]);
                            assert(false);
                        }
                        assert(after[i].children.remove(j as int) =~= c.children);
                        assert(with_children(after[i], after[i].children.remove(j as int)) == c);
                        assert(res =~= cs);
                    },
                }
            },
        }
    } else {
        let at = row_locations(cs)[index];
        assert(locates_row(cs, at, index));
        match at {
            RowLocation::InTable(i) => {
                let i = i as int;
                assert(after == cs.insert(i, fresh_child(id, NodeKind::Row)));
                match loc {
                    RowLocation::InTable(x) => {
                        let x = x as int;
                        if x < i {
                            assert(after[x] == cs[x]);
                            assert(child_below(cs[x], id));
                            assert(false);
                        } else if x > i {
                            assert(after[x] == cs[x - 1]);
                            assert(child_below(cs[x - 1], id));
                            assert(false);
                        }
                        assert(res =~= cs);
                    },
                    RowLocation::InSection(x, j) => {
                        let x = x as int;
                        if x < i {
                            assert(after[x] == cs[x]);
                            assert(child_below(cs[x], id));
                        } else if x > i {
                            assert(after[x] == cs[x - 1]);
                            assert(child_below(cs[x - 1], id));
                        }
                        assert(false);
                    },
                }
            },
            RowLocation::InSection(i, jj) => {
                let i = i as int;
                let jj = jj as int;
                let c = cs[i];
                assert(child_below(c, id));
                assert(after == cs.update(i, with_children(c, c.children.insert(jj, row))));
                match loc {
                    RowLocation::InTable(x) => {
                        assert(child_below(cs[x as int], id));
                        assert(false);
                    },
                    RowLocation::InSection(x, j) => {
                        assert(child_below(cs[x as int], id));
                        if x as int != i {
                            assert(after[x as int] == cs[x as int]);
                            assert(false);
                        }
                        let j = j as int;
                        if j < jj {
                            assert(after[i].children[j] == c.children[j]);
                            assert(false);
                        } else if j > jj {
                            assert(after[i].children[j] == c.children[j - 1]);
                            assert(false);
                        }
                        assert(after[i].children.remove(j) =~= c.children);
                        assert(with_children(after[i], after[i].children.remove(j)) == c);
                        assert(res =~= cs);
                    },
                }
            },
        }
    }
}

/// A `tbody` put right after the last `tbody` child is the last `tbody`,
/// and the table's bodies are the old ones followed by it.
pub proof fn lemma_new_tbody_is_last(cs: Seq<ChildView>, tbody: ChildView)
    requires
        tbody.kind == NodeKind::Section(SectionKind::Body),
        cs.len() < usize::MAX,
    ensures
        ({
            let t = ChildTest::Section(SectionKind::Body);
            let p = new_tbody_position(cs);
            &&& last_index(cs.insert(p, tbody), t) == Some(p)
            &&& indices_where(cs.insert(p, tbody), t) == indices_where(cs, t).push(p as usize)
        }),
{
    let t = ChildTest::Section(SectionKind::Body);
    let p = new_tbody_position(cs);
    lemma_last_index(cs, t);
    let s = cs.insert(p, tbody);
    assert forall|j: int| p < j < s.len() implies !test_holds(t, #[trigger] s[j].kind) by {
        assert(s[j] == cs[j - 1]);
    }
    assert(s[p] == tbody);
    assert(test_holds(t, s[p].kind));
    lemma_last_index(s, t);
    assert forall|j: int| p <= j < cs.len() implies !test_holds(t, #[trigger] cs[j].kind) by {}
    lemma_bodies_after_insert(cs, p, tbody);
}

/// Inserting a `tbody` at `p`, after which no child is a `tbody`, adds `p`
/// at the end of the bodies.
proof fn lemma_bodies_after_insert(cs: Seq<ChildView>, p: int, tbody: ChildView)
    requires
        tbody.kind == NodeKind::Section(SectionKind::Body),
        0 <= p <= cs.len() < usize::MAX,
        forall|j: int|
            p <= j < cs.len() ==> !test_holds(
                ChildTest::Section(SectionKind::Body),
                #[trigger] cs[j].kind,
            ),
    ensures
        indices_where(cs.insert(p, tbody), ChildTest::Section(SectionKind::Body)) == indices_where(
            cs,
            ChildTest::Section(SectionKind::Body),
        ).push(p as usize),
    decreases cs.len() - p,
{
    let t = ChildTest::Section(SectionKind::Body);
    let s = cs.insert(p, tbody);
    if p == cs.len() {
        assert(s.drop_last() =~= cs);
        assert(s.last() == tbody);
    } else {
        let d = cs.drop_last();
        assert forall|j: int| p <= j < d.len() implies !test_holds(t, #[trigger] d[j].kind) by {
            assert(d[j] == cs[j]);
        }
        lemma_bodies_after_insert(d, p, tbody);
        assert(s.drop_last() =~= d.insert(p, tbody));
        assert(s.last() == cs.last());
        assert(!test_holds(t, cs[cs.len() - 1].kind));
    }
}

/// Moving or putting in a node that contributes no rows keeps the table's rows.
pub proof fn lemma_pre_insert_keeps_rows(
    cs: Seq<ChildView>,
    node: ChildView,
    from: Option<int>,
    reference: Option<int>,
)
    requires
        child_row_ids(node) == Seq::<u64>::empty(),
        from matches Some(p) ==> 0 <= p < cs.len() && cs[p] == node,
        reference matches Some(r) ==> 0 <= r < cs.len(),
    ensures
        row_ids(pre_insert(cs, node, from, reference)) == row_ids(cs),
{
    match from {
        Some(p) => {
            let rest = cs.remove(p);
            lemma_row_ids_remove_rowless(cs, p);
            let adjusted = if reference == Some(p) {
                if p + 1 < cs.len() {
                    Some(p + 1)
                } else {
                    None
                }
            } else {
                reference
            };
            match adjusted {
                Some(r) => {
                    let at = if p < r {
                        r - 1
                    } else {
                        r
                    };
                    lemma_row_ids_insert_rowless(rest, at, node);
                },
                None => {
                    lemma_row_ids_insert_rowless(rest, 0, node);
                },
            }
        },
        None => match reference {
            Some(r) => lemma_row_ids_insert_rowless(cs, r, node),
            None => lemma_row_ids_insert_rowless(cs, 0, node),
        },
    }
}

/// Captions hold no rows: setting or removing the caption keeps the table's
/// rows.
pub proof fn lemma_caption_keeps_rows(cs: Seq<ChildView>, node: ChildView, pos: Option<int>)
    requires
        node.kind == NodeKind::Caption,
        pos matches Some(p) ==> 0 <= p < cs.len() && cs[p] == node,
    ensures
        row_ids(without_first(cs, ChildTest::Caption)) == row_ids(cs),
        row_ids(with_caption(cs, node, pos)) == row_ids(cs),
{
    let t = ChildTest::Caption;
    lemma_first_index(cs, t);
    if let Some(d) = first_index(cs, t) {
        lemma_row_ids_remove_rowless(cs, d);
    }
    let rest = without_first(cs, t);
    lemma_position_after_removal(cs, t, node, pos);
    lemma_pre_insert_keeps_rows(
        rest,
        node,
        shifted_position(pos, first_index(cs, t)),
        if rest.len() > 0 {
            Some(0)
        } else {
            None
        },
    );
}

/// A new child without children holds no rows: putting it before the first
/// child that passes a test keeps the table's rows.
pub proof fn lemma_new_child_keeps_rows(cs: Seq<ChildView>, t: ChildTest, c: ChildView, at: int)
    requires
        c.children == Seq::<Node>::empty(),
        c.kind != NodeKind::Row,
        0 <= at <= cs.len(),
    ensures
        row_ids(insert_before_first(cs, t, c)) == row_ids(cs),
        row_ids(cs.insert(at, c)) == row_ids(cs),
{
    assert(nested_row_ids(c.children) == Seq::<u64>::empty());
    assert(child_row_ids(c) == Seq::<u64>::empty());
    lemma_first_index(cs, t);
    if let Some(a) = first_index(cs, t) {
        lemma_row_ids_insert_rowless(cs, a, c);
    } else {
        lemma_row_ids_insert_rowless(cs, 0, c);
    }
    lemma_row_ids_insert_rowless(cs, at, c);
}

/// The table after the attribute changes `changes`, each an attribute and
/// its new text (`None`: removed), made in order from `v`.
pub open spec fn after_mutations(v: TableView, changes: Seq<(TableAttr, Option<Seq<char>>)>) -> TableView
    decreases changes.len(),
{
    if changes.len() == 0 {
        v
    } else {
        let (attr, text) = changes.last();
        after_mutation(after_mutations(v, changes.drop_last()), attr, text)
    }
}

/// The text that the last change of `attr` among `changes` gave it, if one
/// of them changes it.
pub open spec fn last_change(changes: Seq<(TableAttr, Option<Seq<char>>)>, attr: TableAttr) -> Option<
    Option<Seq<char>>,
>
    decreases changes.len(),
{
    if changes.len() == 0 {
        None
    } else if changes.last().0 == attr {
        Some(changes.last().1)
    } else {
        last_change(changes.drop_last(), attr)
    }
}

/// Whatever attribute changes are made, each attribute the table keeps
/// reflects the last value set for it: the border is the width that the
/// last `border` text parses to (one pixel when it does not parse, none
/// when the attribute was removed), the padding and spacing what their last
/// text parses to, and `bgcolor` and `width` their last text; an attribute
/// that no change touched keeps its value, and the children stay as they were.
pub proof fn lemma_attributes_reflect_last_change(
    v: TableView,
    changes: Seq<(TableAttr, Option<Seq<char>>)>,
)
    ensures
        ({
            let w = after_mutations(v, changes);
            &&& w.children == v.children
            &&& w.next_node_id == v.next_node_id
            &&& w.border == match last_change(changes, TableAttr::Border) {
                Some(t) => border_value(parsed_text(t)),
                None => v.border,
            }
            &&& w.cellpadding == match last_change(changes, TableAttr::CellPadding) {
                Some(t) => spacing_value(parsed_text(t)),
                None => v.cellpadding,
            }
            &&& w.cellspacing == match last_change(changes, TableAttr::CellSpacing) {
                Some(t) => spacing_value(parsed_text(t)),
                None => v.cellspacing,
            }
            &&& w.bgcolor == match last_change(changes, TableAttr::BgColor) {
                Some(t) => t,
                None => v.bgcolor,
            }
            &&& w.width == match last_change(changes, TableAttr::Width) {
                Some(t) => t,
                None => v.width,
            }
        }),
    decreases changes.len(),
{
    if changes.len() > 0 {
        lemma_attributes_reflect_last_change(v, changes.drop_last());
    }
}

/// Reading `bgcolor` or `width` back after setting it gives the text set.
pub proof fn lemma_text_reads_back(v: TableView, attr: TableAttr, text: Seq<char>)
    requires
        attr == TableAttr::BgColor || attr == TableAttr::Width,
    ensures
        reflected_text(
            if attr == TableAttr::BgColor {
                after_mutation(v, attr, Some(text)).bgcolor
            } else {
                after_mutation(v, attr, Some(text)).width
            },
        ) == text,
{
}

/// `insertRow(index)`, for an index that names one of the rows, puts the new
/// row in the parent of the row at `index`, right before that row: the new
/// row takes the place the indexed row had, and nothing else changes.
pub proof fn lemma_inserted_row_goes_before_indexed_row(cs: Seq<ChildView>, index: int, id: u64)
    requires
        lengths_fit(cs),
        0 <= index < row_ids(cs).len(),
    ensures
        ({
            let after = with_inserted_row(cs, index, id);
            match row_locations(cs)[index] {
                RowLocation::InTable(i) => {
                    &&& i < cs.len()
                    &&& cs[i as int].id == row_ids(cs)[index]
                    &&& after == cs.insert(i as int, fresh_child(id, NodeKind::Row))
                },
                RowLocation::InSection(i, j) => {
                    &&& i < cs.len()
                    &&& j < cs[i as int].children.len()
                    &&& cs[i as int].children[j as int].id == row_ids(cs)[index]
                    &&& after.len() == cs.len()
                    &&& after[i as int].id == cs[i as int].id
                    &&& after[i as int].kind == cs[i as int].kind
                    &&& after[i as int].children == cs[i as int].children.insert(
                        j as int,
                        Node { id, kind: NodeKind::Row },
                    )
                    &&& forall|x: int| 0 <= x < cs.len() && x != i ==> after[x] == cs[x]
                },
            }
        }),
{
    lemma_row_locations(cs);
    let loc = row_locations(cs)[index];
    assert(locates_row(cs, loc, index));
}

/// `deleteRow` removes exactly the row it names from that row's parent: a
/// row of the table itself leaves the children; a row of a section leaves
/// that section, which stays with its id and kind, and every other child is
/// as it was.
pub proof fn lemma_deleted_row_leaves_only_its_parent(cs: Seq<ChildView>, k: int)
    requires
        lengths_fit(cs),
        0 <= k < row_ids(cs).len(),
    ensures
        ({
            let after = with_deleted_row(cs, k);
            match row_locations(cs)[k] {
                RowLocation::InTable(i) => {
                    &&& i < cs.len()
                    &&& cs[i as int].id == row_ids(cs)[k]
                    &&& after == cs.remove(i as int)
                },
                RowLocation::InSection(i, j) => {
                    &&& i < cs.len()
                    &&& j < cs[i as int].children.len()
                    &&& cs[i as int].children[j as int].id == row_ids(cs)[k]
                    &&& after.len() == cs.len()
                    &&& after[i as int].id == cs[i as int].id
                    &&& after[i as int].kind == cs[i as int].kind
                    &&& after[i as int].children == cs[i as int].children.remove(j as int)
                    &&& forall|x: int| 0 <= x < cs.len() && x != i ==> after[x] == cs[x]
                },
            }
        }),
{
    lemma_row_locations(cs);
    let loc = row_locations(cs)[k];
    assert(locates_row(cs, loc, k));
}

/// A `tfoot` set with `tFoot` is the table's last child: the children are
/// the old ones without their first `tfoot` and without the node where it
/// stood, in order, followed by the node.
pub proof fn lemma_set_tfoot_is_last(cs: Seq<ChildView>, node: ChildView, pos: Option<int>)
    ensures
        ({
            let t = ChildTest::Section(SectionKind::Foot);
            let rest = without_first(cs, t);
            let others = match shifted_position(pos, first_index(cs, t)) {
                Some(p) => rest.remove(p),
                None => rest,
            };
            &&& with_section(cs, SectionSlot::TFoot, node, pos) == others.push(node)
            &&& with_section(cs, SectionSlot::TFoot, node, pos).last() == node
        }),
{
    let t = ChildTest::Section(SectionKind::Foot);
    let rest = without_first(cs, t);
    let others = match shifted_position(pos, first_index(cs, t)) {
        Some(p) => rest.remove(p),
        None => rest,
    };
    assert(with_section(cs, SectionSlot::TFoot, node, pos) =~= others.push(node));
}

/// The border records the number its text parses to, whatever the number
/// (zero included), one pixel when the text does not parse, and nothing
/// once the attribute is removed.
pub proof fn lemma_border_records_parsed_number(v: TableView, text: Seq<char>, n: u32)
    ensures
        border_value(Some(Ok(n))) == Some(n),
        border_value(Some(Err(()))) == Some(1u32),
        border_value(None) is None,
        after_mutation(v, TableAttr::Border, Some(text)).border == Some(
            match non_negative_integer(text) {
                Ok(m) => m,
                Err(_) => 1u32,
            },
        ),
        after_mutation(v, TableAttr::Border, None).border is None,
{
}

/// An unsigned attribute reflects the number its text parses to when that
/// number is at most 2147483647, zero included; otherwise, and when the text
/// does not parse, it reflects the default. So the `border` attribute's
/// value is its number, or one.
pub proof fn lemma_unsigned_reflects_parsed_number(n: u32, default: u32, text: Seq<char>)
    ensures
        n <= 2147483647 ==> reflected_unsigned(Ok(n), default) == n,
        n > 2147483647 ==> reflected_unsigned(Ok(n), default) == default,
        reflected_unsigned(Err(()), default) == default,
        reflected_unsigned(non_negative_integer(text), 1) == match non_negative_integer(text) {
            Ok(m) => if m <= 2147483647 {
                m
            } else {
                1u32
            },
            Err(_) => 1u32,
        },
{
}

} // verus!
