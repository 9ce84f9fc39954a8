//! Facts about the table's rows: how each group of rows and the whole list
//! change when a child is inserted, removed or replaced, and where each row
//! stands.
use vstd::prelude::*;
use crate::node::{
    child_below, child_row_ids, child_row_locations, group_contribution, group_row_ids,
    group_row_locations, groups_after, groups_before, ids_below, location_id, nested_row_ids,
    row_group, row_ids, row_locations, ChildView, NodeKind, RowLocation,
};
use crate::lemmas::{lemma_nested_row_ids_below, lemma_nested_row_locations};

verus! {

/// Every id among the rows of group `g` is below the bound all ids are below.
proof fn lemma_group_row_ids_below(cs: Seq<ChildView>, bound: u64, g: int)
    requires
        ids_below(cs, bound),
    ensures
        forall|k: int|
            0 <= k < group_row_ids(cs, g).len() ==> #[trigger] group_row_ids(cs, g)[k] < bound,
    decreases cs.len(),
{
    reveal(group_row_ids);
    if cs.len() > 0 {
        let d = cs.drop_last();
        assert forall|j: int| 0 <= j < d.len() implies #[trigger] child_below(d[j], bound) by {
            assert(d[j] == cs[j]);
            assert(child_below(cs[j], bound));
        }
        lemma_group_row_ids_below(d, bound, g);
        let c = cs.last();
        assert(child_below(cs[cs.len() - 1], bound));
        if c.kind is Section {
            lemma_nested_row_ids_below(c.children, bound);
        }
        assert forall|k: int| 0 <= k < group_row_ids(cs, g).len() implies #[trigger] group_row_ids(
            cs,
            g,
        )[k] < bound by {
            if k < group_row_ids(d, g).len() {
                assert(group_row_ids(cs, g)[k] == group_row_ids(d, g)[k]);
            } else {
                assert(group_row_ids(cs, g)[k] == group_contribution(c, g)[k - group_row_ids(
                    d,
                    g,
                ).len()]);
            }
        }
    }
}

/// Every id among the rows is below the bound that all ids are below.
pub proof fn lemma_row_ids_below(cs: Seq<ChildView>, bound: u64)
    requires
        ids_below(cs, bound),
    ensures
        forall|k: int| 0 <= k < row_ids(cs).len() ==> #[trigger] row_ids(cs)[k] < bound,
{
    lemma_group_row_ids_below(cs, bound, 0);
    lemma_group_row_ids_below(cs, bound, 1);
    lemma_group_row_ids_below(cs, bound, 2);
    let a = group_row_ids(cs, 0);
    let b = group_row_ids(cs, 1);
    let c = group_row_ids(cs, 2);
    assert forall|k: int| 0 <= k < row_ids(cs).len() implies #[trigger] row_ids(cs)[k] < bound by {
        if k < a.len() {
            assert(row_ids(cs)[k] == a[k]);
        } else if k < a.len() + b.len() {
            assert(row_ids(cs)[k] == b[k - a.len()]);
        } else {
            assert(row_ids(cs)[k] == c[k - a.len() - b.len()]);
        }
    }
}

/// The rows of group `g` of two runs of children are those of each, one
/// after the other.
pub proof fn lemma_group_row_ids_concat(a: Seq<ChildView>, b: Seq<ChildView>, g: int)
    ensures
        group_row_ids(a + b, g) == group_row_ids(a, g) + group_row_ids(b, g),
    decreases b.len(),
{
    reveal(group_row_ids);
    if b.len() == 0 {
        assert(a + b =~= a);
        assert(group_row_ids(a, g) + group_row_ids(b, g) =~= group_row_ids(a, g));
    } else {
        lemma_group_row_ids_concat(a, b.drop_last(), g);
        assert((a + b).drop_last() =~= a + b.drop_last());
        assert((a + b).last() == b.last());
        assert(group_row_ids(a + b, g) =~= group_row_ids(a, g) + group_row_ids(b, g));
    }
}

/// The rows of group `g` of a single child.
proof fn lemma_group_row_ids_single(c: ChildView, g: int)
    ensures
        group_row_ids(seq![c], g) == group_contribution(c, g),
{
    reveal(group_row_ids);
    assert(seq![c].drop_last() =~= Seq::<ChildView>::empty());
    assert(seq![c].last() == c);
    reveal_with_fuel(group_row_ids, 2);
    assert(group_row_ids(seq![c], g) =~= group_contribution(c, g));
}

/// The rows of group `g` are those before child `i`, those of child `i`,
/// and those after it.
pub proof fn lemma_group_row_ids_split(cs: Seq<ChildView>, i: int, g: int)
    requires
        0 <= i < cs.len(),
    ensures
        group_row_ids(cs, g) == group_row_ids(cs.take(i), g) + group_contribution(cs[i], g)
            + group_row_ids(cs.skip(i + 1), g),
{
    assert(cs =~= cs.take(i) + seq![cs[i]] + cs.skip(i + 1));
    lemma_group_row_ids_concat(cs.take(i) + seq![cs[i]], cs.skip(i + 1), g);
    lemma_group_row_ids_concat(cs.take(i), seq![cs[i]], g);
    lemma_group_row_ids_single(cs[i], g);
}

/// The rows of group `g` after child `c` is inserted at `i`.
proof fn lemma_group_row_ids_insert(cs: Seq<ChildView>, i: int, c: ChildView, g: int)
    requires
        0 <= i <= cs.len(),
    ensures
        group_row_ids(cs.insert(i, c), g) == group_row_ids(cs.take(i), g) + group_contribution(
            c,
            g,
        ) + group_row_ids(cs.skip(i), g),
        group_row_ids(cs, g) == group_row_ids(cs.take(i), g) + group_row_ids(cs.skip(i), g),
{
    let s = cs.insert(i, c);
    lemma_group_row_ids_split(s, i, g);
    assert(s.take(i) =~= cs.take(i));
    assert(s.skip(i + 1) =~= cs.skip(i));
    assert(cs =~= cs.take(i) + cs.skip(i));
    lemma_group_row_ids_concat(cs.take(i), cs.skip(i), g);
}

/// The rows of group `g` after child `i` is removed.
proof fn lemma_group_row_ids_remove(cs: Seq<ChildView>, i: int, g: int)
    requires
        0 <= i < cs.len(),
    ensures
        group_row_ids(cs.remove(i), g) == group_row_ids(cs.take(i), g) + group_row_ids(
            cs.skip(i + 1),
            g,
        ),
        group_row_ids(cs, g) == group_row_ids(cs.take(i), g) + group_contribution(cs[i], g)
            + group_row_ids(cs.skip(i + 1), g),
{
    lemma_group_row_ids_split(cs, i, g);
    assert(cs.remove(i) =~= cs.take(i) + cs.skip(i + 1));
    lemma_group_row_ids_concat(cs.take(i), cs.skip(i + 1), g);
}

/// The rows are those of the groups before `g`, those of `g`, and those after.
pub proof fn lemma_row_ids_groups(cs: Seq<ChildView>, g: int)
    requires
        0 <= g <= 2,
    ensures
        row_ids(cs) == groups_before(cs, g) + group_row_ids(cs, g) + groups_after(cs, g),
{
    let a = group_row_ids(cs, 0);
    let b = group_row_ids(cs, 1);
    let c = group_row_ids(cs, 2);
    if g == 0 {
        assert(row_ids(cs) =~= Seq::<u64>::empty() + a + (b + c));
    } else if g == 1 {
        assert(row_ids(cs) =~= a + b + c);
    } else {
        assert(row_ids(cs) =~= (a + b) + c + Seq::<u64>::empty());
    }
}

/// The rows of group `g` after child `i` is replaced by `c`.
proof fn lemma_group_row_ids_update(cs: Seq<ChildView>, i: int, c: ChildView, g: int)
    requires
        0 <= i < cs.len(),
    ensures
        group_row_ids(cs.update(i, c), g) == group_row_ids(cs.take(i), g) + group_contribution(
            c,
            g,
        ) + group_row_ids(cs.skip(i + 1), g),
        group_row_ids(cs, g) == group_row_ids(cs.take(i), g) + group_contribution(cs[i], g)
            + group_row_ids(cs.skip(i + 1), g),
        group_contribution(c, g) == group_contribution(cs[i], g) ==> group_row_ids(
            cs.update(i, c),
            g,
        ) == group_row_ids(cs, g),
{
    let u = cs.update(i, c);
    assert(u.take(i) =~= cs.take(i));
    assert(u.skip(i + 1) =~= cs.skip(i + 1));
    assert(u[i] == c);
    lemma_group_row_ids_split(u, i, g);
    lemma_group_row_ids_split(cs, i, g);
}

/// Replacing child `i` by a child of the same group changes the rows of
/// that child and keeps all others, in place.
pub proof fn lemma_row_ids_update(cs: Seq<ChildView>, i: int, c: ChildView)
    requires
        0 <= i < cs.len(),
        row_group(c.kind) == row_group(cs[i].kind),
    ensures
        ({
            let g = row_group(cs[i].kind);
            &&& row_ids(cs.update(i, c)) == groups_before(cs, g) + group_row_ids(cs.take(i), g)
                + child_row_ids(c) + group_row_ids(cs.skip(i + 1), g) + groups_after(cs, g)
            &&& row_ids(cs) == groups_before(cs, g) + group_row_ids(cs.take(i), g)
                + child_row_ids(cs[i]) + group_row_ids(cs.skip(i + 1), g) + groups_after(cs, g)
        }),
{
    let u = cs.update(i, c);
    let g = row_group(cs[i].kind);
    lemma_group_row_ids_update(cs, i, c, 0);
    lemma_group_row_ids_update(cs, i, c, 1);
    lemma_group_row_ids_update(cs, i, c, 2);
    let a = group_row_ids(cs.take(i), g);
    let b = group_row_ids(cs.skip(i + 1), g);
    assert(group_contribution(c, g) == child_row_ids(c));
    assert(group_contribution(cs[i], g) == child_row_ids(cs[i]));
    let x = child_row_ids(c);
    let y = child_row_ids(cs[i]);
    let g0 = group_row_ids(cs, 0);
    let g1 = group_row_ids(cs, 1);
    let g2 = group_row_ids(cs, 2);
    if g == 0 {
        assert(group_row_ids(u, 1) == g1);
        assert(group_row_ids(u, 2) == g2);
        assert(row_ids(u) =~= Seq::<u64>::empty() + a + x + b + (g1 + g2));
        assert(row_ids(cs) =~= Seq::<u64>::empty() + a + y + b + (g1 + g2));
    } else if g == 1 {
        assert(group_row_ids(u, 0) == g0);
        assert(group_row_ids(u, 2) == g2);
        assert(row_ids(u) =~= g0 + a + x + b + g2);
        assert(row_ids(cs) =~= g0 + a + y + b + g2);
    } else {
        assert(group_row_ids(u, 0) == g0);
        assert(group_row_ids(u, 1) == g1);
        assert(row_ids(u) =~= (g0 + g1) + a + x + b + Seq::<u64>::empty());
        assert(row_ids(cs) =~= (g0 + g1) + a + y + b + Seq::<u64>::empty());
    }
}

/// Inserting the row child `c` at `i` inserts its row among the rows of the
/// table and its `tbody` elements.
pub proof fn lemma_row_ids_insert_row(cs: Seq<ChildView>, i: int, c: ChildView)
    requires
        0 <= i <= cs.len(),
        c.kind == NodeKind::Row,
    ensures
        row_ids(cs.insert(i, c)) == row_ids(cs).insert(
            (group_row_ids(cs, 0).len() + group_row_ids(cs.take(i), 1).len()) as int,
            c.id,
        ),
{
    let s = cs.insert(i, c);
    lemma_group_row_ids_insert(cs, i, c, 0);
    lemma_group_row_ids_insert(cs, i, c, 1);
    lemma_group_row_ids_insert(cs, i, c, 2);
    let a = group_row_ids(cs, 0);
    let b1 = group_row_ids(cs.take(i), 1);
    let b2 = group_row_ids(cs.skip(i), 1);
    let d = group_row_ids(cs, 2);
    assert(row_ids(s) =~= a + (b1 + seq![c.id] + b2) + d);
    assert(a + (b1 + seq![c.id] + b2) + d =~= (a + (b1 + b2) + d).insert((a.len() + b1.len()) as int, c.id));
}

/// Removing the row child `i` removes its row from the table's rows.
pub proof fn lemma_row_ids_remove_row(cs: Seq<ChildView>, i: int)
    requires
        0 <= i < cs.len(),
        cs[i].kind == NodeKind::Row,
    ensures
        row_ids(cs.remove(i)) == row_ids(cs).remove(
            (group_row_ids(cs, 0).len() + group_row_ids(cs.take(i), 1).len()) as int,
        ),
{
    let s = cs.remove(i);
    lemma_group_row_ids_remove(cs, i, 0);
    lemma_group_row_ids_remove(cs, i, 1);
    lemma_group_row_ids_remove(cs, i, 2);
    let a = group_row_ids(cs, 0);
    let b1 = group_row_ids(cs.take(i), 1);
    let b2 = group_row_ids(cs.skip(i + 1), 1);
    let d = group_row_ids(cs, 2);
    assert(row_ids(s) =~= a + (b1 + b2) + d);
    assert((a + (b1 + seq![cs[i].id] + b2) + d).remove((a.len() + b1.len()) as int) =~= a + (b1 + b2) + d);
}

/// Appending the child `c` appends its rows to its group.
pub proof fn lemma_row_ids_push(cs: Seq<ChildView>, c: ChildView)
    ensures
        ({
            let g = row_group(c.kind);
            row_ids(cs.push(c)) == groups_before(cs, g) + group_row_ids(cs, g) + child_row_ids(c)
                + groups_after(cs, g)
        }),
{
    reveal(group_row_ids);
    let g = row_group(c.kind);
    let s = cs.push(c);
    assert(s.drop_last() =~= cs);
    assert(s.last() == c);
    assert(group_row_ids(s, 0) == group_row_ids(cs, 0) + group_contribution(c, 0));
    assert(group_row_ids(s, 1) == group_row_ids(cs, 1) + group_contribution(c, 1));
    assert(group_row_ids(s, 2) == group_row_ids(cs, 2) + group_contribution(c, 2));
    lemma_row_ids_groups(s, g);
    assert(groups_before(s, g) =~= groups_before(cs, g));
    assert(groups_after(s, g) =~= groups_after(cs, g));
    assert(group_row_ids(s, g) == group_row_ids(cs, g) + child_row_ids(c));
}

/// Inserting or appending a child that holds no rows keeps the table's rows.
pub proof fn lemma_row_ids_insert_rowless(cs: Seq<ChildView>, i: int, c: ChildView)
    requires
        0 <= i <= cs.len(),
        child_row_ids(c) == Seq::<u64>::empty(),
    ensures
        row_ids(cs.insert(i, c)) == row_ids(cs),
        row_ids(cs.push(c)) == row_ids(cs),
{
    lemma_group_row_ids_insert(cs, i, c, 0);
    lemma_group_row_ids_insert(cs, i, c, 1);
    lemma_group_row_ids_insert(cs, i, c, 2);
    assert(group_contribution(c, 0) =~= Seq::<u64>::empty());
    assert(group_contribution(c, 1) =~= Seq::<u64>::empty());
    assert(group_contribution(c, 2) =~= Seq::<u64>::empty());
    assert(group_row_ids(cs.insert(i, c), 0) =~= group_row_ids(cs, 0));
    assert(group_row_ids(cs.insert(i, c), 1) =~= group_row_ids(cs, 1));
    assert(group_row_ids(cs.insert(i, c), 2) =~= group_row_ids(cs, 2));
    assert(cs.push(c) =~= cs.insert(cs.len() as int, c));
    lemma_group_row_ids_insert(cs, cs.len() as int, c, 0);
    lemma_group_row_ids_insert(cs, cs.len() as int, c, 1);
    lemma_group_row_ids_insert(cs, cs.len() as int, c, 2);
    assert(group_row_ids(cs.push(c), 0) =~= group_row_ids(cs, 0));
    assert(group_row_ids(cs.push(c), 1) =~= group_row_ids(cs, 1));
    assert(group_row_ids(cs.push(c), 2) =~= group_row_ids(cs, 2));
}

/// Removing a child that holds no rows keeps the table's rows.
pub proof fn lemma_row_ids_remove_rowless(cs: Seq<ChildView>, i: int)
    requires
        0 <= i < cs.len(),
        child_row_ids(cs[i]) == Seq::<u64>::empty(),
    ensures
        row_ids(cs.remove(i)) == row_ids(cs),
{
    lemma_group_row_ids_remove(cs, i, 0);
    lemma_group_row_ids_remove(cs, i, 1);
    lemma_group_row_ids_remove(cs, i, 2);
    assert(group_contribution(cs[i], 0) =~= Seq::<u64>::empty());
    assert(group_contribution(cs[i], 1) =~= Seq::<u64>::empty());
    assert(group_contribution(cs[i], 2) =~= Seq::<u64>::empty());
    assert(group_row_ids(cs.remove(i), 0) =~= group_row_ids(cs, 0));
    assert(group_row_ids(cs.remove(i), 1) =~= group_row_ids(cs, 1));
    assert(group_row_ids(cs.remove(i), 2) =~= group_row_ids(cs, 2));
}

/// What a row location at position `k` of the rows of group `g` tells:
/// which node holds the row, that it is a row of that group, and how many
/// rows of the group come before it.
pub open spec fn group_locates(cs: Seq<ChildView>, loc: RowLocation, k: int, g: int) -> bool {
    match loc {
        RowLocation::InTable(i) => {
            &&& i < cs.len()
            &&& cs[i as int].kind == NodeKind::Row
            &&& row_group(cs[i as int].kind) == g
            &&& k == group_row_ids(cs.take(i as int), g).len()
        },
        RowLocation::InSection(i, j) => {
            &&& i < cs.len()
            &&& cs[i as int].kind is Section
            &&& row_group(cs[i as int].kind) == g
            &&& j < cs[i as int].children.len()
            &&& cs[i as int].children[j as int].kind == NodeKind::Row
            &&& k == group_row_ids(cs.take(i as int), g).len() + nested_row_ids(
                cs[i as int].children.take(j as int),
            ).len()
        },
    }
}

/// The group of the child that holds a row location.
pub open spec fn location_group(cs: Seq<ChildView>, loc: RowLocation) -> int {
    match loc {
        RowLocation::InTable(i) => row_group(cs[i as int].kind),
        RowLocation::InSection(i, _) => row_group(cs[i as int].kind),
    }
}

/// What a row location at position `k` of the rows tells: which node holds
/// the row, that it is a row, and how many rows come before it.
pub open spec fn locates_row(cs: Seq<ChildView>, loc: RowLocation, k: int) -> bool {
    &&& 0 <= location_group(cs, loc) <= 2
    &&& group_locates(
        cs,
        loc,
        k - groups_before(cs, location_group(cs, loc)).len(),
        location_group(cs, loc),
    )
}

/// Each location of a row of group `g` names a row of that group and counts
/// the rows of the group before it.
proof fn lemma_group_row_locations(cs: Seq<ChildView>, g: int)
    requires
        cs.len() <= usize::MAX,
        forall|i: int| 0 <= i < cs.len() ==> #[trigger] cs[i].children.len() <= usize::MAX,
    ensures
        group_row_locations(cs, g).len() == group_row_ids(cs, g).len(),
        forall|k: int|
            0 <= k < group_row_locations(cs, g).len() ==> {
                &&& group_locates(cs, #[trigger] group_row_locations(cs, g)[k], k, g)
                &&& location_id(cs, group_row_locations(cs, g)[k]) == group_row_ids(cs, g)[k]
            },
    decreases cs.len(),
{
    reveal(group_row_ids);
    if cs.len() > 0 {
        let n = cs.len() - 1;
        let d = cs.drop_last();
        assert forall|i: int| 0 <= i < d.len() implies #[trigger] d[i].children.len()
            <= usize::MAX by {
            assert(d[i] == cs[i]);
        }
        lemma_group_row_locations(d, g);
        let c = cs.last();
        assert(c == cs[n]);
        if c.kind is Section {
            lemma_nested_row_locations(n as usize, c.children);
        }
        let locs = group_row_locations(cs, g);
        let ld = group_row_locations(d, g);
        assert(cs.take(n) =~= d);
        assert forall|k: int| 0 <= k < locs.len() implies {
            &&& group_locates(cs, #[trigger] locs[k], k, g)
            &&& location_id(cs, locs[k]) == group_row_ids(cs, g)[k]
        } by {
            if k < ld.len() {
                assert(locs[k] == ld[k]);
                assert(group_row_ids(cs, g)[k] == group_row_ids(d, g)[k]);
                match ld[k] {
                    RowLocation::InTable(i) => {
                        assert(d[i as int] == cs[i as int]);
                        assert(cs.take(i as int) =~= d.take(i as int));
                    },
                    RowLocation::InSection(i, j) => {
                        assert(d[i as int] == cs[i as int]);
                        assert(cs.take(i as int) =~= d.take(i as int));
                    },
                }
            } else {
                assert(row_group(c.kind) == g);
                assert(locs[k] == child_row_locations(c, n as usize)[k - ld.len()]);
                assert(group_row_ids(cs, g)[k] == child_row_ids(c)[k - ld.len()]);
            }
        }
    }
}

/// Each row location names a row of the table and counts the rows before it.
pub proof fn lemma_row_locations(cs: Seq<ChildView>)
    requires
        cs.len() <= usize::MAX,
        forall|i: int| 0 <= i < cs.len() ==> #[trigger] cs[i].children.len() <= usize::MAX,
    ensures
        row_locations(cs).len() == row_ids(cs).len(),
        forall|k: int|
            0 <= k < row_locations(cs).len() ==> {
                &&& locates_row(cs, #[trigger] row_locations(cs)[k], k)
                &&& location_id(cs, row_locations(cs)[k]) == row_ids(cs)[k]
            },
{
    lemma_group_row_locations(cs, 0);
    lemma_group_row_locations(cs, 1);
    lemma_group_row_locations(cs, 2);
    let l0 = group_row_locations(cs, 0);
    let l1 = group_row_locations(cs, 1);
    let l2 = group_row_locations(cs, 2);
    let a = group_row_ids(cs, 0);
    let b = group_row_ids(cs, 1);
    let locs = row_locations(cs);
    assert forall|k: int| 0 <= k < locs.len() implies {
        &&& locates_row(cs, #[trigger] locs[k], k)
        &&& location_id(cs, locs[k]) == row_ids(cs)[k]
    } by {
        if k < l0.len() {
            assert(locs[k] == l0[k]);
            assert(row_ids(cs)[k] == a[k]);
            assert(group_locates(cs, l0[k], k, 0));
        } else if k < l0.len() + l1.len() {
            assert(locs[k] == l1[k - l0.len()]);
            assert(row_ids(cs)[k] == b[k - a.len()]);
            assert(group_locates(cs, l1[k - l0.len()], k - l0.len(), 1));
        } else {
            assert(locs[k] == l2[k - l0.len() - l1.len()]);
            assert(row_ids(cs)[k] == group_row_ids(cs, 2)[k - a.len() - b.len()]);
            assert(group_locates(cs, l2[k - l0.len() - l1.len()], k - l0.len() - l1.len(), 2));
            assert(groups_before(cs, 2) =~= a + b);
        }
    }
}

} // verus!
