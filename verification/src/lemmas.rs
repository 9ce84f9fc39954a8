//! Facts about the spec functions of `node`: how the first and last matching
//! child are characterised, and how the table's rows change when a child or
//! a grandchild is inserted, removed or replaced.
use vstd::prelude::*;
use crate::node::{
    first_index, indices_where, last_index, nested_row_ids, nested_row_locations, test_holds,
    ChildTest, ChildView, Node, NodeKind, RowLocation,
};

verus! {

/// The first child that passes `t` is the least index that passes it.
pub proof fn lemma_first_index(cs: Seq<ChildView>, t: ChildTest)
    ensures
        match first_index(cs, t) {
            Some(i) => {
                &&& 0 <= i < cs.len()
                &&& test_holds(t, cs[i].kind)
                &&& forall|j: int| 0 <= j < i ==> !test_holds(t, #[trigger] cs[j].kind)
            },
            None => forall|j: int| 0 <= j < cs.len() ==> !test_holds(t, #[trigger] cs[j].kind),
        },
    decreases cs.len(),
{
    if cs.len() > 0 {
        let d = cs.drop_last();
        lemma_first_index(d, t);
        match first_index(d, t) {
            Some(i) => {
                assert(d[i] == cs[i]);
                assert forall|j: int| 0 <= j < i implies !test_holds(t, #[trigger] cs[j].kind) by {
                    assert(d[j] == cs[j]);
                }
            },
            None => {
                assert forall|j: int| 0 <= j < cs.len() - 1 implies !test_holds(
                    t,
                    #[trigger] cs[j].kind,
                ) by {
                    assert(d[j] == cs[j]);
                }
            },
        }
    }
}

/// The last child that passes `t` is the greatest index that passes it.
pub proof fn lemma_last_index(cs: Seq<ChildView>, t: ChildTest)
    ensures
        match last_index(cs, t) {
            Some(i) => {
                &&& 0 <= i < cs.len()
                &&& test_holds(t, cs[i].kind)
                &&& forall|j: int| i < j < cs.len() ==> !test_holds(t, #[trigger] cs[j].kind)
            },
            None => forall|j: int| 0 <= j < cs.len() ==> !test_holds(t, #[trigger] cs[j].kind),
        },
    decreases cs.len(),
{
    if cs.len() > 0 {
        let d = cs.drop_last();
        lemma_last_index(d, t);
        if !test_holds(t, cs.last().kind) {
            match last_index(d, t) {
                Some(i) => {
                    assert(d[i] == cs[i]);
                    assert forall|j: int| i < j < cs.len() implies !test_holds(
                        t,
                        #[trigger] cs[j].kind,
                    ) by {
                        if j < cs.len() - 1 {
                            assert(d[j] == cs[j]);
                        }
                    }
                },
                None => {
                    assert forall|j: int| 0 <= j < cs.len() implies !test_holds(
                        t,
                        #[trigger] cs[j].kind,
                    ) by {
                        if j < cs.len() - 1 {
                            assert(d[j] == cs[j]);
                        }
                    }
                },
            }
        }
    }
}

/// `indices_where` lists exactly the children that pass the test, in
/// increasing order.
pub proof fn lemma_indices_where(cs: Seq<ChildView>, t: ChildTest)
    requires
        cs.len() <= usize::MAX,
    ensures
        forall|k: int|
            0 <= k < indices_where(cs, t).len() ==> {
                &&& #[trigger] indices_where(cs, t)[k] < cs.len()
                &&& test_holds(t, cs[indices_where(cs, t)[k] as int].kind)
            },
        forall|k1: int, k2: int|
            0 <= k1 < k2 < indices_where(cs, t).len() ==> #[trigger] indices_where(cs, t)[k1]
                < #[trigger] indices_where(cs, t)[k2],
        forall|i: int|
            0 <= i < cs.len() && test_holds(t, #[trigger] cs[i].kind) ==> indices_where(
                cs,
                t,
            ).contains(i as usize),
    decreases cs.len(),
{
    if cs.len() > 0 {
        let d = cs.drop_last();
        lemma_indices_where(d, t);
        assert forall|j: int| 0 <= j < cs.len() - 1 implies #[trigger] d[j] == cs[j] by {}
        let r = indices_where(cs, t);
        let rd = indices_where(d, t);
        assert forall|i: int| 0 <= i < cs.len() && test_holds(t, #[trigger] cs[i].kind) implies r.contains(
            i as usize,
        ) by {
            if i < cs.len() - 1 {
                assert(d[i] == cs[i]);
                let k = choose|k: int| 0 <= k < rd.len() && rd[k] == i as usize;
                assert(r[k] == i as usize);
            } else {
                assert(r[r.len() - 1] == i as usize);
            }
        }
    }
}

/// Every id among a child's rows is below the bound.
pub proof fn lemma_nested_row_ids_below(ns: Seq<Node>, bound: u64)
    requires
        forall|j: int| 0 <= j < ns.len() ==> #[trigger] ns[j].id < bound,
    ensures
        forall|k: int|
            0 <= k < nested_row_ids(ns).len() ==> #[trigger] nested_row_ids(ns)[k] < bound,
    decreases ns.len(),
{
    if ns.len() > 0 {
        let d = ns.drop_last();
        assert forall|j: int| 0 <= j < d.len() implies #[trigger] d[j].id < bound by {
            assert(d[j] == ns[j]);
        }
        lemma_nested_row_ids_below(d, bound);
        assert(ns[ns.len() - 1].id < bound);
        assert forall|k: int| 0 <= k < nested_row_ids(ns).len() implies #[trigger] nested_row_ids(
            ns,
        )[k] < bound by {
            if k < nested_row_ids(d).len() {
                assert(nested_row_ids(ns)[k] == nested_row_ids(d)[k]);
            }
        }
    }
}

/// The rows of two runs of grandchildren are the rows of each, one after the other.
pub proof fn lemma_nested_row_ids_concat(a: Seq<Node>, b: Seq<Node>)
    ensures
        nested_row_ids(a + b) == nested_row_ids(a) + nested_row_ids(b),
    decreases b.len(),
{
    if b.len() == 0 {
        assert(a + b =~= a);
        assert(nested_row_ids(a) + nested_row_ids(b) =~= nested_row_ids(a));
    } else {
        lemma_nested_row_ids_concat(a, b.drop_last());
        assert((a + b).drop_last() =~= a + b.drop_last());
        assert((a + b).last() == b.last());
        if b.last().kind == NodeKind::Row {
            assert(nested_row_ids(a + b) =~= nested_row_ids(a) + nested_row_ids(b));
        } else {
            assert(nested_row_ids(a + b) =~= nested_row_ids(a) + nested_row_ids(b));
        }
    }
}

/// The rows of a child's children are those before grandchild `j`, those of
/// grandchild `j`, and those after it.
pub proof fn lemma_nested_row_ids_split(ns: Seq<Node>, j: int)
    requires
        0 <= j < ns.len(),
    ensures
        nested_row_ids(ns) == nested_row_ids(ns.take(j)) + nested_row_ids(seq![ns[j]])
            + nested_row_ids(ns.skip(j + 1)),
{
    assert(ns =~= ns.take(j) + seq![ns[j]] + ns.skip(j + 1));
    lemma_nested_row_ids_concat(ns.take(j) + seq![ns[j]], ns.skip(j + 1));
    lemma_nested_row_ids_concat(ns.take(j), seq![ns[j]]);
}

/// The rows contributed by a single grandchild.
pub proof fn lemma_nested_row_ids_single(n: Node)
    ensures
        nested_row_ids(seq![n]) == (if n.kind == NodeKind::Row {
            seq![n.id]
        } else {
            Seq::<u64>::empty()
        }),
{
    assert(seq![n].drop_last() =~= Seq::<Node>::empty());
    assert(seq![n].last() == n);
    reveal_with_fuel(nested_row_ids, 2);
    if n.kind == NodeKind::Row {
        assert(nested_row_ids(seq![n]) =~= seq![n.id]);
    }
}

/// Inserting the grandchild `n` at `j` inserts its row, when it is one, among
/// the grandchildren's rows.
pub proof fn lemma_nested_row_ids_insert(ns: Seq<Node>, j: int, n: Node)
    requires
        0 <= j <= ns.len(),
        n.kind == NodeKind::Row,
    ensures
        nested_row_ids(ns.insert(j, n)) == nested_row_ids(ns).insert(
            nested_row_ids(ns.take(j)).len() as int,
            n.id,
        ),
{
    let s = ns.insert(j, n);
    lemma_nested_row_ids_split(s, j);
    assert(s.take(j) =~= ns.take(j));
    assert(s.skip(j + 1) =~= ns.skip(j));
    assert(s[j] == n);
    lemma_nested_row_ids_single(n);
    assert(ns =~= ns.take(j) + ns.skip(j));
    lemma_nested_row_ids_concat(ns.take(j), ns.skip(j));
    let a = nested_row_ids(ns.take(j));
    let b = nested_row_ids(ns.skip(j));
    assert(a + seq![n.id] + b =~= (a + b).insert(a.len() as int, n.id));
}

/// Removing the row grandchild `j` removes its row from the grandchildren's rows.
pub proof fn lemma_nested_row_ids_remove(ns: Seq<Node>, j: int)
    requires
        0 <= j < ns.len(),
        ns[j].kind == NodeKind::Row,
    ensures
        nested_row_ids(ns.remove(j)) == nested_row_ids(ns).remove(
            nested_row_ids(ns.take(j)).len() as int,
        ),
{
    lemma_nested_row_ids_split(ns, j);
    lemma_nested_row_ids_single(ns[j]);
    assert(ns.remove(j) =~= ns.take(j) + ns.skip(j + 1));
    lemma_nested_row_ids_concat(ns.take(j), ns.skip(j + 1));
    let a = nested_row_ids(ns.take(j));
    let b = nested_row_ids(ns.skip(j + 1));
    assert((a + seq![ns[j].id] + b).remove(a.len() as int) =~= a + b);
}

/// Appending the row grandchild `n` appends its row.
pub proof fn lemma_nested_row_ids_push(ns: Seq<Node>, n: Node)
    requires
        n.kind == NodeKind::Row,
    ensures
        nested_row_ids(ns.push(n)) == nested_row_ids(ns).push(n.id),
{
    assert(ns.push(n).drop_last() =~= ns);
    assert(ns.push(n).last() == n);
}

/// Each grandchild row location names a row grandchild and counts the rows before it.
pub proof fn lemma_nested_row_locations(i: usize, ns: Seq<Node>)
    requires
        ns.len() <= usize::MAX,
    ensures
        nested_row_locations(i, ns).len() == nested_row_ids(ns).len(),
        forall|k: int|
            0 <= k < nested_row_locations(i, ns).len() ==> {
                let loc = #[trigger] nested_row_locations(i, ns)[k];
                &&& loc matches RowLocation::InSection(i2, j)
                &&& i2 == i
                &&& j < ns.len()
                &&& ns[j as int].kind == NodeKind::Row
                &&& ns[j as int].id == nested_row_ids(ns)[k]
                &&& k == nested_row_ids(ns.take(j as int)).len()
            },
    decreases ns.len(),
{
    if ns.len() > 0 {
        let d = ns.drop_last();
        lemma_nested_row_locations(i, d);
        let locs = nested_row_locations(i, ns);
        let ld = nested_row_locations(i, d);
        assert forall|k: int| 0 <= k < locs.len() implies {
            let loc = #[trigger] locs[k];
            &&& loc matches RowLocation::InSection(i2, j)
            &&& i2 == i
            &&& j < ns.len()
            &&& ns[j as int].kind == NodeKind::Row
            &&& ns[j as int].id == nested_row_ids(ns)[k]
            &&& k == nested_row_ids(ns.take(j as int)).len()
        } by {
            if k < ld.len() {
                assert(locs[k] == ld[k]);
                let j = ld[k]->InSection_1;
                assert(ns.take(j as int) =~= d.take(j as int));
                assert(d[j as int] == ns[j as int]);
                assert(nested_row_ids(ns)[k] == nested_row_ids(d)[k]);
            } else {
                let j = (ns.len() - 1) as usize;
                assert(ns.take(j as int) =~= d);
            }
        }
    }
}

} // verus!
