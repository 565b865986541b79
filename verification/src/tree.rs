//! The shape of the index: every resource but the root has a parent that
//! is a container, and the chain of parents of every resource ends at the
//! root.

use crate::common::{ResourceId, ResourceKind, ROOT_ID_STR};
use crate::index::{
    children, has_id, id_views, is_container, lemma_children, lemma_filter_all, lemma_filter_rows,
    position, schema_ok, variants_size, Index, RowModel,
};
use crate::strings::{holds_all, lemma_holds_one_more};
use vstd::hash_set::StringHashSet;
use vstd::prelude::*;

verus! {

/// What is asked of one resource: the root is a container and its own
/// parent; the parent of any other resource is another resource, which is
/// a container of the index.
pub open spec fn node_ok(rows: Seq<RowModel>, row: RowModel) -> bool {
    if row.id == ROOT_ID_STR@ {
        row.parent == row.id && row.kind == ResourceKind::Container
    } else {
        row.parent != row.id && is_container(rows, row.parent)
    }
}

/// What is asked of one resource holds of every resource.
pub open spec fn tree_ok(rows: Seq<RowModel>) -> bool {
    forall|i: int| 0 <= i < rows.len() ==> node_ok(rows, #[trigger] rows[i])
}

/// Whether `steps` steps from a resource to its parent lead from `from` to
/// `to`, through resources of the index.
pub open spec fn climbs(rows: Seq<RowModel>, from: Seq<char>, to: Seq<char>, steps: nat) -> bool
    decreases steps,
{
    if steps == 0 {
        from == to && has_id(rows, from)
    } else {
        has_id(rows, from) && climbs(rows, rows[position(rows, from)].parent, to, (steps - 1) as nat)
    }
}

/// Whether the chain of parents of a resource ends at the root.
pub open spec fn reaches_root(rows: Seq<RowModel>, id: Seq<char>) -> bool {
    exists|steps: nat| climbs(rows, id, ROOT_ID_STR@, steps)
}

/// The chain of parents of every resource ends at the root: there is no
/// cycle.
pub open spec fn rooted(rows: Seq<RowModel>) -> bool {
    forall|i: int| 0 <= i < rows.len() ==> reaches_root(rows, (#[trigger] rows[i]).id)
}

/// Whether `x` lies under `top`, `steps` containers below its children.
pub open spec fn under(rows: Seq<RowModel>, top: Seq<char>, x: Seq<char>, steps: nat) -> bool
    decreases steps,
{
    &&& has_id(rows, x)
    &&& rows[position(rows, x)].parent != x
    &&& if steps == 0 {
        rows[position(rows, x)].parent == top
    } else {
        &&& is_container(rows, rows[position(rows, x)].parent)
        &&& under(rows, top, rows[position(rows, x)].parent, (steps - 1) as nat)
    }
}

/// Whether `x` is a child of `top`, or a child of a container that
/// descends from `top`.
pub open spec fn descends(rows: Seq<RowModel>, top: Seq<char>, x: Seq<char>) -> bool {
    exists|steps: nat| under(rows, top, x, steps)
}

/// What leaves the index with a resource: the resource and, if it is a
/// container, what descends from it.
pub open spec fn leaves_with(rows: Seq<RowModel>, top: Seq<char>, x: Seq<char>) -> bool {
    x == top || (is_container(rows, top) && descends(rows, top, x))
}

/// The rows that stay when a resource leaves.
pub open spec fn rows_after_delete(rows: Seq<RowModel>, top: Seq<char>) -> Seq<RowModel> {
    rows.filter(|row: RowModel| !leaves_with(rows, top, row.id))
}

/// With one row for each identifier, a row is found at its place.
pub proof fn lemma_position(rows: Seq<RowModel>, i: int)
    requires
        schema_ok(rows),
        0 <= i < rows.len(),
    ensures
        has_id(rows, rows[i].id),
        position(rows, rows[i].id) == i,
{
    let p = position(rows, rows[i].id);
    assert(0 <= p < rows.len() && rows[p].id == rows[i].id);
    if p != i {
        assert(rows[p].id != rows[i].id);
    }
}

/// A resource that is found is found at a place of the index.
pub proof fn lemma_position_of(rows: Seq<RowModel>, id: Seq<char>)
    requires
        has_id(rows, id),
    ensures
        0 <= position(rows, id) < rows.len(),
        rows[position(rows, id)].id == id,
{
}

/// A climb starts at a resource of the index.
pub proof fn lemma_climbs_starts_inside(rows: Seq<RowModel>, from: Seq<char>, to: Seq<char>, steps: nat)
    requires
        climbs(rows, from, to, steps),
    ensures
        has_id(rows, from),
{
}

/// The resource that stands `steps` parents above a resource, where the
/// index holds the chain of parents that far.
pub open spec fn ancestor(rows: Seq<RowModel>, id: Seq<char>, steps: nat) -> Seq<char>
    decreases steps,
{
    if steps == 0 {
        id
    } else {
        rows[position(rows, ancestor(rows, id, (steps - 1) as nat))].parent
    }
}

/// Whether the chain of parents of a resource lies in the index for
/// `steps` steps without reaching the root, and is then back at the
/// resource that stands `back` parents above it.
pub open spec fn turns_back(rows: Seq<RowModel>, id: Seq<char>, back: nat, steps: nat) -> bool {
    &&& back < steps
    &&& ancestor(rows, id, steps) == ancestor(rows, id, back)
    &&& forall|k: nat|
        k < steps ==> has_id(rows, #[trigger] ancestor(rows, id, k)) && ancestor(rows, id, k)
            != ROOT_ID_STR@
}

/// Whether the chain of parents of a resource lies in the index and comes
/// back to a resource before it reaches the root.
pub open spec fn comes_back(rows: Seq<RowModel>, id: Seq<char>) -> bool {
    exists|back: nat, steps: nat| #[trigger] turns_back(rows, id, back, steps)
}

/// Whether a resource is `steps` steps below the root, and no fewer.
pub open spec fn least_climb(rows: Seq<RowModel>, from: Seq<char>, steps: nat) -> bool {
    &&& climbs(rows, from, ROOT_ID_STR@, steps)
    &&& forall|fewer: nat| fewer < steps ==> !#[trigger] climbs(rows, from, ROOT_ID_STR@, fewer)
}

/// Whether a resource is more than `steps` steps below the root, or not
/// below it at all.
pub open spec fn farther(rows: Seq<RowModel>, from: Seq<char>, steps: nat) -> bool {
    forall|fewer: nat| fewer <= steps ==> !#[trigger] climbs(rows, from, ROOT_ID_STR@, fewer)
}

/// A resource whose chain of parents ends at the root is some least number
/// of steps below it.
pub proof fn lemma_least_climb(rows: Seq<RowModel>, from: Seq<char>, steps: nat) -> (least: nat)
    requires
        climbs(rows, from, ROOT_ID_STR@, steps),
    ensures
        least <= steps,
        least_climb(rows, from, least),
    decreases steps,
{
    if exists|fewer: nat| fewer < steps && climbs(rows, from, ROOT_ID_STR@, fewer) {
        let fewer = choose|fewer: nat| fewer < steps && climbs(rows, from, ROOT_ID_STR@, fewer);
        lemma_least_climb(rows, from, fewer)
    } else {
        steps
    }
}

/// The parent of a resource that is not the root is one step nearer to
/// the root than the resource.
pub proof fn lemma_least_climb_step(rows: Seq<RowModel>, from: Seq<char>, steps: nat)
    requires
        least_climb(rows, from, steps),
        from != ROOT_ID_STR@,
    ensures
        steps > 0,
        has_id(rows, from),
        least_climb(rows, rows[position(rows, from)].parent, (steps - 1) as nat),
        farther(rows, from, (steps - 1) as nat),
{
    let parent = rows[position(rows, from)].parent;
    assert forall|fewer: nat| fewer < steps - 1 implies !#[trigger] climbs(
        rows,
        parent,
        ROOT_ID_STR@,
        fewer,
    ) by {
        if climbs(rows, parent, ROOT_ID_STR@, fewer) {
            assert(climbs(rows, from, ROOT_ID_STR@, fewer + 1));
        }
    }
}

/// A climb stays a climb in an index that holds the same resources, and
/// perhaps more, under the same parents.
pub proof fn lemma_climbs_carries(
    a: Seq<RowModel>,
    b: Seq<RowModel>,
    from: Seq<char>,
    to: Seq<char>,
    steps: nat,
)
    requires
        climbs(a, from, to, steps),
        forall|id: Seq<char>|
            has_id(a, id) ==> has_id(b, id) && b[position(b, id)].parent == a[position(
                a,
                id,
            )].parent,
    ensures
        climbs(b, from, to, steps),
    decreases steps,
{
    if steps > 0 {
        lemma_climbs_carries(a, b, a[position(a, from)].parent, to, (steps - 1) as nat);
    }
}

/// A climb can start one resource lower.
pub proof fn lemma_climbs_from_child(rows: Seq<RowModel>, child: int, to: Seq<char>, steps: nat)
    requires
        schema_ok(rows),
        0 <= child < rows.len(),
        climbs(rows, rows[child].parent, to, steps),
    ensures
        climbs(rows, rows[child].id, to, steps + 1),
{
    lemma_position(rows, child);
}

/// A new resource under a container of a rooted tree leaves the tree
/// rooted; so does the root in an index without a root.
pub proof fn lemma_push_keeps_tree(rows: Seq<RowModel>, row: RowModel)
    requires
        schema_ok(rows),
        schema_ok(rows.push(row)),
        tree_ok(rows),
        rooted(rows),
        !has_id(rows, row.id),
        node_ok(rows.push(row), row),
    ensures
        tree_ok(rows.push(row)),
        rooted(rows.push(row)),
{
    let after = rows.push(row);
    let last = rows.len() as int;
    assert(after[last] == row);
    assert forall|id: Seq<char>| has_id(rows, id) implies has_id(after, id) && after[position(
        after,
        id,
    )].parent == rows[position(rows, id)].parent by {
        let p = position(rows, id);
        assert(after[p] == rows[p]);
        lemma_position(after, p);
    }
    assert forall|i: int| 0 <= i < after.len() implies node_ok(after, #[trigger] after[i]) by {
        if i < last {
            assert(after[i] == rows[i]);
            assert(node_ok(rows, rows[i]));
            if rows[i].id != ROOT_ID_STR@ {
                let j = choose|j: int|
                    0 <= j < rows.len() && #[trigger] rows[j].id == rows[i].parent && rows[j].kind
                        == ResourceKind::Container;
                assert(after[j] == rows[j]);
            }
        }
    }
    assert forall|i: int| 0 <= i < after.len() implies reaches_root(
        after,
        (#[trigger] after[i]).id,
    ) by {
        if i < last {
            assert(after[i] == rows[i]);
            assert(reaches_root(rows, rows[i].id));
            let steps = choose|steps: nat| climbs(rows, rows[i].id, ROOT_ID_STR@, steps);
            lemma_climbs_carries(rows, after, rows[i].id, ROOT_ID_STR@, steps);
        } else {
            lemma_position(after, last);
            if row.id == ROOT_ID_STR@ {
                assert(climbs(after, row.id, ROOT_ID_STR@, 0));
            } else {
                let j = choose|j: int|
                    0 <= j < after.len() && #[trigger] after[j].id == row.parent && after[j].kind
                        == ResourceKind::Container;
                assert(j < last);
                assert(after[j] == rows[j]);
                assert(reaches_root(rows, rows[j].id));
                let steps = choose|steps: nat| climbs(rows, rows[j].id, ROOT_ID_STR@, steps);
                lemma_climbs_carries(rows, after, rows[j].id, ROOT_ID_STR@, steps);
                lemma_climbs_from_child(after, last, ROOT_ID_STR@, steps);
            }
        }
    }
}


/// Whether every resource that `keep` holds has a parent that `keep`
/// holds.
pub open spec fn keeps_parents(rows: Seq<RowModel>, keep: spec_fn(RowModel) -> bool) -> bool {
    forall|i: int, j: int|
        #![trigger rows[i], rows[j]]
        0 <= i < rows.len() && 0 <= j < rows.len() && keep(rows[i]) && rows[j].id
            == rows[i].parent ==> keep(rows[j])
}

/// A row that passes a filter is found among the rows that pass, as it
/// was.
pub proof fn lemma_filter_position(rows: Seq<RowModel>, keep: spec_fn(RowModel) -> bool, i: int)
    requires
        schema_ok(rows),
        0 <= i < rows.len(),
        keep(rows[i]),
    ensures
        has_id(rows.filter(keep), rows[i].id),
        rows.filter(keep)[position(rows.filter(keep), rows[i].id)] == rows[i],
{
    let sub = rows.filter(keep);
    lemma_filter_rows(rows, keep);
    assert(sub.contains(rows[i]));
    let k = choose|k: int| 0 <= k < sub.len() && sub[k] == rows[i];
    assert(sub[k].id == rows[i].id);
    lemma_position(sub, k);
}

/// A resource that is found after a filter was there before, and passes.
pub proof fn lemma_filter_found(rows: Seq<RowModel>, keep: spec_fn(RowModel) -> bool, id: Seq<char>)
    requires
        schema_ok(rows),
        has_id(rows.filter(keep), id),
    ensures
        has_id(rows, id),
        keep(rows[position(rows, id)]),
        rows.filter(keep)[position(rows.filter(keep), id)] == rows[position(rows, id)],
{
    let sub = rows.filter(keep);
    lemma_filter_rows(rows, keep);
    let k = position(sub, id);
    assert(rows.contains(sub[k]));
    let i = choose|i: int| 0 <= i < rows.len() && rows[i] == sub[k];
    assert(rows[i].id == id);
    lemma_position(rows, i);
}

proof fn lemma_climbs_survives(
    rows: Seq<RowModel>,
    keep: spec_fn(RowModel) -> bool,
    from: Seq<char>,
    to: Seq<char>,
    steps: nat,
)
    requires
        schema_ok(rows),
        keeps_parents(rows, keep),
        climbs(rows, from, to, steps),
        keep(rows[position(rows, from)]),
    ensures
        climbs(rows.filter(keep), from, to, steps),
    decreases steps,
{
    let i = position(rows, from);
    lemma_position_of(rows, from);
    lemma_filter_position(rows, keep, i);
    if steps > 0 {
        let parent = rows[i].parent;
        assert(climbs(rows, parent, to, (steps - 1) as nat));
        lemma_climbs_starts_inside(rows, parent, to, (steps - 1) as nat);
        let j = position(rows, parent);
        lemma_position_of(rows, parent);
        assert(keep(rows[j])) by {
            assert(rows[j].id == rows[i].parent);
        }
        lemma_climbs_survives(rows, keep, parent, to, (steps - 1) as nat);
    }
}

/// A rooted tree stays one when resources leave it, as long as no
/// resource stays whose parent leaves.
pub proof fn lemma_filter_keeps_tree(rows: Seq<RowModel>, keep: spec_fn(RowModel) -> bool)
    requires
        schema_ok(rows),
        tree_ok(rows),
        rooted(rows),
        keeps_parents(rows, keep),
    ensures
        schema_ok(rows.filter(keep)),
        tree_ok(rows.filter(keep)),
        rooted(rows.filter(keep)),
{
    let sub = rows.filter(keep);
    lemma_filter_rows(rows, keep);
    assert forall|k: int| 0 <= k < sub.len() implies node_ok(sub, #[trigger] sub[k]) && reaches_root(
        sub,
        sub[k].id,
    ) by {
        assert(rows.contains(sub[k]));
        let i = choose|i: int| 0 <= i < rows.len() && rows[i] == sub[k];
        assert(node_ok(rows, rows[i]));
        lemma_position(rows, i);
        if rows[i].id != ROOT_ID_STR@ {
            let j = choose|j: int|
                0 <= j < rows.len() && #[trigger] rows[j].id == rows[i].parent && rows[j].kind
                    == ResourceKind::Container;
            assert(keep(rows[j])) by {
                assert(rows[j].id == rows[i].parent);
            }
            assert(sub.contains(rows[j]));
            let m = choose|m: int| 0 <= m < sub.len() && sub[m] == rows[j];
            assert(sub[m].id == rows[i].parent && sub[m].kind == ResourceKind::Container);
        }
        assert(reaches_root(rows, rows[i].id));
        let steps = choose|steps: nat| climbs(rows, rows[i].id, ROOT_ID_STR@, steps);
        lemma_climbs_survives(rows, keep, rows[i].id, ROOT_ID_STR@, steps);
    }
}

/// What stays when a resource leaves does not have a parent that leaves.
pub proof fn lemma_delete_keeps_parents(rows: Seq<RowModel>, top: Seq<char>)
    requires
        schema_ok(rows),
        tree_ok(rows),
    ensures
        keeps_parents(rows, |row: RowModel| !leaves_with(rows, top, row.id)),
{
    let keep = |row: RowModel| !leaves_with(rows, top, row.id);
    assert forall|i: int, j: int|
        #![trigger rows[i], rows[j]]
        0 <= i < rows.len() && 0 <= j < rows.len() && keep(rows[i]) && rows[j].id
            == rows[i].parent implies keep(rows[j]) by {
        if i != j && leaves_with(rows, top, rows[j].id) {
            lemma_position(rows, i);
            lemma_position(rows, j);
            assert(rows[i].parent != rows[i].id);
            assert(node_ok(rows, rows[i]));
            assert(is_container(rows, rows[i].parent));
            if rows[j].id == top {
                assert(under(rows, top, rows[i].id, 0));
            } else {
                let steps = choose|steps: nat| under(rows, top, rows[j].id, steps);
                assert(under(rows, top, rows[i].id, steps + 1));
            }
            assert(descends(rows, top, rows[i].id));
        }
    }
}

/// Deleting a resource leaves a rooted tree rooted.
pub proof fn lemma_delete_keeps_tree(rows: Seq<RowModel>, top: Seq<char>)
    requires
        schema_ok(rows),
        tree_ok(rows),
        rooted(rows),
    ensures
        schema_ok(rows_after_delete(rows, top)),
        tree_ok(rows_after_delete(rows, top)),
        rooted(rows_after_delete(rows, top)),
        !has_id(rows_after_delete(rows, top), top),
{
    let keep = |row: RowModel| !leaves_with(rows, top, row.id);
    lemma_delete_keeps_parents(rows, top);
    lemma_filter_keeps_tree(rows, keep);
    if has_id(rows.filter(keep), top) {
        lemma_filter_found(rows, keep, top);
        lemma_position_of(rows, top);
    }
}

/// A resource may change what does not shape the tree.
pub proof fn lemma_update_keeps_tree(rows: Seq<RowModel>, place: int, row: RowModel)
    requires
        schema_ok(rows),
        schema_ok(rows.update(place, row)),
        tree_ok(rows),
        rooted(rows),
        0 <= place < rows.len(),
        row.id == rows[place].id,
        row.parent == rows[place].parent,
        row.kind == rows[place].kind,
    ensures
        tree_ok(rows.update(place, row)),
        rooted(rows.update(place, row)),
{
    let after = rows.update(place, row);
    assert forall|id: Seq<char>| has_id(rows, id) implies has_id(after, id) && after[position(
        after,
        id,
    )].parent == rows[position(rows, id)].parent by {
        let p = position(rows, id);
        assert(after[p].id == id);
        lemma_position(after, p);
    }
    assert forall|i: int| 0 <= i < after.len() implies node_ok(after, #[trigger] after[i])
        && reaches_root(after, after[i].id) by {
        assert(node_ok(rows, rows[i]));
        if rows[i].id != ROOT_ID_STR@ {
            let j = choose|j: int|
                0 <= j < rows.len() && #[trigger] rows[j].id == rows[i].parent && rows[j].kind
                    == ResourceKind::Container;
            assert(after[j].id == rows[i].parent && after[j].kind == ResourceKind::Container);
        }
        assert(reaches_root(rows, rows[i].id));
        let steps = choose|steps: nat| climbs(rows, rows[i].id, ROOT_ID_STR@, steps);
        lemma_climbs_carries(rows, after, rows[i].id, ROOT_ID_STR@, steps);
    }
}

/// The rows after the row of a resource was replaced: the new row stands
/// last.
pub open spec fn rows_replaced(rows: Seq<RowModel>, row: RowModel) -> Seq<RowModel> {
    rows.filter(|old: RowModel| old.id != row.id).push(row)
}

/// Whether a resource has the parent `parent` in some row.
pub open spec fn has_child(rows: Seq<RowModel>, parent: Seq<char>) -> bool {
    exists|j: int| 0 <= j < rows.len() && (#[trigger] rows[j]).parent == parent
}

/// A resource may be stored again under the same parent; it may stop
/// being a container only if it has no child.
pub proof fn lemma_replace_keeps_tree(rows: Seq<RowModel>, row: RowModel)
    requires
        schema_ok(rows),
        schema_ok(rows_replaced(rows, row)),
        tree_ok(rows),
        rooted(rows),
        has_id(rows, row.id),
        row.parent == rows[position(rows, row.id)].parent,
        row.kind == ResourceKind::Container || !has_child(rows, row.id),
    ensures
        tree_ok(rows_replaced(rows, row)),
        rooted(rows_replaced(rows, row)),
{
    let keep = |old: RowModel| old.id != row.id;
    let sub = rows.filter(keep);
    let after = rows_replaced(rows, row);
    let last = sub.len() as int;
    let old_place = position(rows, row.id);
    lemma_position_of(rows, row.id);
    lemma_filter_rows(rows, keep);
    lemma_position(after, last);
    assert forall|id: Seq<char>| has_id(rows, id) implies has_id(after, id) && after[position(
        after,
        id,
    )].parent == rows[position(rows, id)].parent by {
        let p = position(rows, id);
        lemma_position_of(rows, id);
        if id != row.id {
            lemma_filter_position(rows, keep, p);
            let k = position(sub, id);
            assert(after[k] == sub[k]);
            lemma_position(after, k);
        }
    }
    assert forall|i: int| 0 <= i < after.len() implies node_ok(after, #[trigger] after[i])
        && reaches_root(after, after[i].id) by {
        let source = if i < last {
            assert(after[i] == sub[i]);
            assert(rows.contains(sub[i]));
            choose|a: int| 0 <= a < rows.len() && rows[a] == sub[i]
        } else {
            old_place
        };
        assert(after[i].id == rows[source].id && after[i].parent == rows[source].parent);
        assert(node_ok(rows, rows[source]));
        if after[i].id != ROOT_ID_STR@ {
            let j = choose|j: int|
                0 <= j < rows.len() && #[trigger] rows[j].id == rows[source].parent
                    && rows[j].kind == ResourceKind::Container;
            if rows[j].id == row.id {
                assert(rows[source].parent == row.id);
                assert(has_child(rows, row.id));
                assert(after[last].id == rows[source].parent && after[last].kind
                    == ResourceKind::Container);
            } else {
                lemma_filter_position(rows, keep, j);
                let k = position(sub, rows[j].id);
                lemma_position_of(sub, rows[j].id);
                assert(after[k] == sub[k]);
            }
        } else if i == last {
            assert(rows[source].parent == row.id);
            assert(has_child(rows, row.id));
        }
        assert(reaches_root(rows, rows[source].id));
        let steps = choose|steps: nat| climbs(rows, rows[source].id, ROOT_ID_STR@, steps);
        lemma_climbs_carries(rows, after, rows[source].id, ROOT_ID_STR@, steps);
    }
}

proof fn lemma_climbs_outside(
    rows: Seq<RowModel>,
    row: RowModel,
    from: Seq<char>,
    steps: nat,
)
    requires
        schema_ok(rows),
        schema_ok(rows_replaced(rows, row)),
        tree_ok(rows),
        has_id(rows, row.id),
        climbs(rows, from, ROOT_ID_STR@, steps),
        !leaves_with(rows, row.id, from),
    ensures
        climbs(rows_replaced(rows, row), from, ROOT_ID_STR@, steps),
    decreases steps,
{
    let keep = |old: RowModel| old.id != row.id;
    let sub = rows.filter(keep);
    let after = rows_replaced(rows, row);
    let i = position(rows, from);
    lemma_position_of(rows, from);
    lemma_filter_position(rows, keep, i);
    let k = position(sub, from);
    lemma_position_of(sub, from);
    assert(after[k] == sub[k]);
    lemma_position(after, k);
    if steps > 0 {
        let parent = rows[i].parent;
        assert(climbs(rows, parent, ROOT_ID_STR@, (steps - 1) as nat));
        lemma_climbs_starts_inside(rows, parent, ROOT_ID_STR@, (steps - 1) as nat);
        let j = position(rows, parent);
        lemma_position_of(rows, parent);
        lemma_delete_keeps_parents(rows, row.id);
        assert(!leaves_with(rows, row.id, parent)) by {
            assert(rows[j].id == rows[i].parent);
        }
        lemma_climbs_outside(rows, row, parent, (steps - 1) as nat);
    }
}

proof fn lemma_climbs_after_move(
    rows: Seq<RowModel>,
    row: RowModel,
    from: Seq<char>,
    steps: nat,
    rest: nat,
)
    requires
        schema_ok(rows),
        schema_ok(rows_replaced(rows, row)),
        has_id(rows, row.id),
        row.id != ROOT_ID_STR@,
        climbs(rows, from, ROOT_ID_STR@, steps),
        climbs(rows_replaced(rows, row), row.parent, ROOT_ID_STR@, rest),
    ensures
        reaches_root(rows_replaced(rows, row), from),
    decreases steps,
{
    let keep = |old: RowModel| old.id != row.id;
    let sub = rows.filter(keep);
    let after = rows_replaced(rows, row);
    let last = sub.len() as int;
    lemma_filter_rows(rows, keep);
    lemma_position(after, last);
    if from == row.id {
        assert(climbs(after, from, ROOT_ID_STR@, rest + 1));
    } else {
        let i = position(rows, from);
        lemma_position_of(rows, from);
        lemma_filter_position(rows, keep, i);
        let k = position(sub, from);
        lemma_position_of(sub, from);
        assert(after[k] == sub[k]);
        lemma_position(after, k);
        if steps == 0 {
            assert(climbs(after, from, ROOT_ID_STR@, 0));
        } else {
            lemma_climbs_after_move(rows, row, rows[i].parent, (steps - 1) as nat, rest);
            let more = choose|more: nat| climbs(after, rows[i].parent, ROOT_ID_STR@, more);
            assert(climbs(after, from, ROOT_ID_STR@, more + 1));
        }
    }
}

/// A resource may move under another container that does not descend
/// from it; it may stop being a container only if it has no child.
pub proof fn lemma_move_keeps_tree(rows: Seq<RowModel>, row: RowModel)
    requires
        schema_ok(rows),
        schema_ok(rows_replaced(rows, row)),
        tree_ok(rows),
        rooted(rows),
        has_id(rows, row.id),
        row.id != ROOT_ID_STR@,
        row.parent != row.id,
        is_container(rows, row.parent),
        !leaves_with(rows, row.id, row.parent),
        row.kind == ResourceKind::Container || !has_child(rows, row.id),
    ensures
        tree_ok(rows_replaced(rows, row)),
        rooted(rows_replaced(rows, row)),
{
    let keep = |old: RowModel| old.id != row.id;
    let sub = rows.filter(keep);
    let after = rows_replaced(rows, row);
    let last = sub.len() as int;
    let old_place = position(rows, row.id);
    lemma_position_of(rows, row.id);
    lemma_filter_rows(rows, keep);
    lemma_position(after, last);
    // The new parent reaches the root as before.
    let p = position(rows, row.parent);
    lemma_position_of(rows, row.parent);
    assert(reaches_root(rows, rows[p].id));
    let rest = choose|rest: nat| climbs(rows, row.parent, ROOT_ID_STR@, rest);
    lemma_climbs_outside(rows, row, row.parent, rest);
    assert forall|i: int| 0 <= i < after.len() implies node_ok(after, #[trigger] after[i])
        && reaches_root(after, after[i].id) by {
        let source = if i < last {
            assert(after[i] == sub[i]);
            assert(rows.contains(sub[i]));
            choose|a: int| 0 <= a < rows.len() && rows[a] == sub[i]
        } else {
            old_place
        };
        assert(after[i].id == rows[source].id);
        let wanted = after[i].parent;
        if after[i].id != ROOT_ID_STR@ {
            if i < last {
                assert(node_ok(rows, rows[source]));
            }
            assert(is_container(rows, wanted));
            let j = choose|j: int|
                0 <= j < rows.len() && #[trigger] rows[j].id == wanted && rows[j].kind
                    == ResourceKind::Container;
            if rows[j].id == row.id {
                assert(rows[source].parent == row.id);
                assert(has_child(rows, row.id));
                assert(after[last].id == wanted && after[last].kind == ResourceKind::Container);
            } else {
                lemma_filter_position(rows, keep, j);
                let k = position(sub, rows[j].id);
                lemma_position_of(sub, rows[j].id);
                assert(after[k] == sub[k]);
            }
        } else {
            assert(node_ok(rows, rows[source]));
        }
        assert(reaches_root(rows, rows[source].id));
        let steps = choose|steps: nat| climbs(rows, rows[source].id, ROOT_ID_STR@, steps);
        lemma_climbs_after_move(rows, row, rows[source].id, steps, rest);
    }
}

/// Whether no row is a child of a resource.
pub open spec fn childless(rows: Seq<RowModel>, id: Seq<char>) -> bool {
    forall|i: int| 0 <= i < rows.len() ==> !(#[trigger] rows[i]).is_child_of(id)
}

/// In an index whose resources have their parents in it, a resource that
/// is not in the index has no child.
pub proof fn lemma_absent_is_childless(rows: Seq<RowModel>, id: Seq<char>)
    requires
        tree_ok(rows),
        !has_id(rows, id),
    ensures
        childless(rows, id),
{
    assert forall|i: int| 0 <= i < rows.len() implies !(#[trigger] rows[i]).is_child_of(id) by {
        assert(node_ok(rows, rows[i]));
    }
}

proof fn lemma_nothing_under_new(rows: Seq<RowModel>, row: RowModel, x: Seq<char>, steps: nat)
    requires
        schema_ok(rows.push(row)),
        childless(rows, row.id),
        !has_id(rows, row.id),
    ensures
        !under(rows.push(row), row.id, x, steps),
    decreases steps,
{
    let after = rows.push(row);
    let last = rows.len() as int;
    if has_id(after, x) {
        let p = position(after, x);
        lemma_position_of(after, x);
        if p < last {
            assert(after[p] == rows[p]);
            assert(!rows[p].is_child_of(row.id));
        } else {
            assert(after[p] == row);
        }
        if steps > 0 {
            lemma_nothing_under_new(rows, row, after[p].parent, (steps - 1) as nat);
        }
    }
}

/// Deleting a resource right after it was created gives the index back as
/// it was, unless the resource is a container that finds children in the
/// index: they leave with it.
pub proof fn lemma_create_then_delete(rows: Seq<RowModel>, row: RowModel)
    requires
        schema_ok(rows),
        schema_ok(rows.push(row)),
        !has_id(rows, row.id),
        row.kind == ResourceKind::Container ==> childless(rows, row.id),
    ensures
        rows_after_delete(rows.push(row), row.id) == rows,
{
    let after = rows.push(row);
    let keep = |old: RowModel| !leaves_with(after, row.id, old.id);
    if row.kind == ResourceKind::Container {
        assert forall|x: Seq<char>| !descends(after, row.id, x) by {
            if descends(after, row.id, x) {
                let steps = choose|steps: nat| under(after, row.id, x, steps);
                lemma_nothing_under_new(rows, row, x, steps);
            }
        }
    } else {
        if is_container(after, row.id) {
            let i = choose|i: int|
                0 <= i < after.len() && #[trigger] after[i].id == row.id && after[i].kind
                    == ResourceKind::Container;
            if i < rows.len() {
                assert(rows[i].id == row.id);
                assert(has_id(rows, row.id));
            } else {
                assert(after[i] == row);
            }
        }
    }
    assert forall|i: int| 0 <= i < rows.len() implies keep(#[trigger] rows[i]) by {
        assert(has_id(rows, rows[i].id));
    }
    lemma_filter_all(rows, keep);
    reveal(Seq::filter);
    assert(after.drop_last() =~= rows);
    assert(!keep(after.last()));
}


/// Different places among the first `n` places are `n` at most.
proof fn lemma_distinct_places_bound(spots: Seq<int>, n: int)
    requires
        0 <= n,
        spots.no_duplicates(),
        forall|k: int| 0 <= k < spots.len() ==> 0 <= #[trigger] spots[k] < n,
    ensures
        spots.len() <= n,
{
    let range = vstd::set_lib::set_int_range(0, n);
    spots.unique_seq_to_set();
    vstd::set_lib::lemma_int_range(0, n);
    assert forall|x: int| spots.to_set().contains(x) implies range.contains(x) by {
        assert(spots.contains(x));
        let k = choose|k: int| 0 <= k < spots.len() && spots[k] == x;
        assert(0 <= spots[k] < n);
    }
    assert(spots.to_set().subset_of(range));
    vstd::set_lib::lemma_len_subset(spots.to_set(), range);
}

/// Whether the children of every container among the first `done`
/// resources of a list are in the list.
pub open spec fn children_listed(rows: Seq<RowModel>, list: Seq<Seq<char>>, done: int) -> bool {
    forall|k: int, j: int|
        #![trigger list[k], rows[j]]
        0 <= k < done && 0 <= j < rows.len() && is_container(rows, list[k])
            && rows[j].is_child_of(list[k]) ==> list.contains(rows[j].id)
}

proof fn lemma_listed_holds_descendants(
    rows: Seq<RowModel>,
    list: Seq<Seq<char>>,
    top: Seq<char>,
    x: Seq<char>,
    steps: nat,
)
    requires
        schema_ok(rows),
        list.len() > 0,
        list[0] == top,
        children_listed(rows, list, list.len() as int),
        is_container(rows, top),
        under(rows, top, x, steps),
    ensures
        list.contains(x),
    decreases steps,
{
    let p = position(rows, x);
    let parent = rows[p].parent;
    if steps == 0 {
        assert(rows[p].is_child_of(list[0]));
    } else {
        lemma_listed_holds_descendants(rows, list, top, parent, (steps - 1) as nat);
        let k = choose|k: int| 0 <= k < list.len() && list[k] == parent;
        assert(rows[p].is_child_of(list[k]));
    }
}

/// A list of different resources of the index is no longer than the
/// index.
proof fn lemma_listed_bound(rows: Seq<RowModel>, list: Seq<Seq<char>>)
    requires
        list.no_duplicates(),
        forall|k: int| 0 <= k < list.len() ==> has_id(rows, #[trigger] list[k]),
    ensures
        list.len() <= rows.len(),
{
    let spots = Seq::new(list.len(), |k: int| position(rows, list[k]));
    assert forall|k: int| 0 <= k < spots.len() implies 0 <= #[trigger] spots[k] < rows.len() by {
        lemma_position_of(rows, list[k]);
    }
    assert forall|a: int, b: int| 0 <= a < spots.len() && 0 <= b < spots.len() && a
        != b implies spots[a] != spots[b] by {
        lemma_position_of(rows, list[a]);
        lemma_position_of(rows, list[b]);
    }
    lemma_distinct_places_bound(spots, rows.len() as int);
}

/// Adds to a list the identifiers of another that it does not hold yet.
fn add_missing(list: &mut Vec<ResourceId>, seen: &mut StringHashSet, more: &Vec<ResourceId>)
    requires
        id_views(old(list)@).no_duplicates(),
        holds_all(old(seen)@, id_views(old(list)@)),
    ensures
        id_views(final(list)@).no_duplicates(),
        holds_all(final(seen)@, id_views(final(list)@)),
        old(list)@.len() <= final(list)@.len(),
        id_views(final(list)@).take(old(list)@.len() as int) == id_views(old(list)@),
        forall|a: int|
            0 <= a < more@.len() ==> id_views(final(list)@).contains(#[trigger] id_views(more@)[a]),
        forall|k: int|
            old(list)@.len() <= k < final(list)@.len() ==> id_views(more@).contains(
                #[trigger] id_views(final(list)@)[k],
            ),
{
    let ghost start = id_views(list@);
    let mut c: usize = 0;
    assert(id_views(list@).take(start.len() as int) =~= start);
    while c < more.len()
        invariant
            c <= more@.len(),
            start == id_views(old(list)@),
            id_views(list@).no_duplicates(),
            holds_all(seen@, id_views(list@)),
            start.len() <= list@.len(),
            id_views(list@).take(start.len() as int) == start,
            forall|a: int| 0 <= a < c ==> id_views(list@).contains(#[trigger] id_views(more@)[a]),
            forall|k: int|
                start.len() <= k < list@.len() ==> id_views(more@).contains(
                    #[trigger] id_views(list@)[k],
                ),
        decreases more@.len() - c,
    {
        let ghost before = id_views(list@);
        let ghost item = id_views(more@)[c as int];
        assert(item == more@[c as int]@);
        if !seen.contains(more[c].as_str()) {
            let ghost had = seen@;
            seen.insert(more[c].to_string());
            list.push(more[c].clone());
            proof {
                let after = id_views(list@);
                assert(after =~= before.push(item));
                lemma_holds_one_more(had, before, item);
                assert(after.take(start.len() as int) =~= before.take(start.len() as int));
                assert forall|a: int| 0 <= a < c + 1 implies after.contains(
                    #[trigger] id_views(more@)[a],
                ) by {
                    if a < c {
                        assert(before.contains(id_views(more@)[a]));
                        let w = choose|w: int| 0 <= w < before.len() && before[w] == id_views(
                            more@,
                        )[a];
                        assert(after[w] == before[w]);
                    } else {
                        assert(after[before.len() as int] == item);
                    }
                }
                assert forall|k: int| start.len() <= k < after.len() implies id_views(
                    more@,
                ).contains(#[trigger] after[k]) by {
                    if k < before.len() {
                        assert(after[k] == before[k]);
                    }
                }
            }
        }
        c += 1;
    }
}

/// What the worklist holds while it collects what leaves with `top`.
pub open spec fn collecting(rows: Seq<RowModel>, top: Seq<char>, list: Seq<Seq<char>>, done: int) -> bool {
    &&& list.len() >= 1
    &&& list[0] == top
    &&& list.no_duplicates()
    &&& forall|k: int| 0 <= k < list.len() ==> has_id(rows, #[trigger] list[k])
    &&& list.len() > 1 ==> is_container(rows, top)
    &&& forall|k: int| 1 <= k < list.len() ==> descends(rows, top, #[trigger] list[k])
    &&& children_listed(rows, list, done)
}

/// The children of a container of the worklist may join it.
proof fn lemma_collect_children(
    rows: Seq<RowModel>,
    top: Seq<char>,
    before: Seq<Seq<char>>,
    after: Seq<Seq<char>>,
    done: int,
)
    requires
        schema_ok(rows),
        collecting(rows, top, before, done),
        0 <= done < before.len(),
        is_container(rows, before[done]),
        after.no_duplicates(),
        before.len() <= after.len(),
        after.take(before.len() as int) == before,
        forall|a: int|
            0 <= a < children(rows, before[done]).len() ==> after.contains(
                #[trigger] children(rows, before[done])[a],
            ),
        forall|k: int|
            before.len() <= k < after.len() ==> children(rows, before[done]).contains(
                #[trigger] after[k],
            ),
    ensures
        collecting(rows, top, after, done + 1),
{
    let current = before[done];
    let kids = children(rows, current);
    lemma_children(rows, current);
    assert forall|k: int| 0 <= k < before.len() implies after[k] == before[k] by {
        assert(after.take(before.len() as int)[k] == after[k]);
    }
    assert forall|k: int| 0 <= k < after.len() implies has_id(rows, #[trigger] after[k]) by {
        if k >= before.len() {
            let a = choose|a: int| 0 <= a < kids.len() && kids[a] == after[k];
            assert(has_id(rows, kids[a]));
        } else {
            assert(has_id(rows, before[k]));
        }
    }
    assert(after.len() > 1 ==> is_container(rows, top)) by {
        if done == 0 {
            assert(before[0] == top);
        }
    }
    assert forall|k: int| 1 <= k < after.len() implies descends(rows, top, #[trigger] after[k]) by {
        if k >= before.len() {
            let a = choose|a: int| 0 <= a < kids.len() && kids[a] == after[k];
            assert(has_id(rows, kids[a]) && rows[position(rows, kids[a])].is_child_of(current));
            if done == 0 {
                assert(under(rows, top, after[k], 0));
            } else {
                assert(descends(rows, top, before[done]));
                let steps = choose|steps: nat| under(rows, top, current, steps);
                assert(under(rows, top, after[k], steps + 1));
            }
        } else {
            assert(descends(rows, top, before[k]));
        }
    }
    assert forall|k: int, j: int|
        #![trigger after[k], rows[j]]
        0 <= k < done + 1 && 0 <= j < rows.len() && is_container(rows, after[k])
            && rows[j].is_child_of(after[k]) implies after.contains(rows[j].id) by {
        if k == done {
            assert(kids.contains(rows[j].id));
            let a = choose|a: int| 0 <= a < kids.len() && kids[a] == rows[j].id;
            assert(after.contains(kids[a]));
        } else {
            assert(before[k] == after[k]);
            assert(before.contains(rows[j].id));
            let w = choose|w: int| 0 <= w < before.len() && before[w] == rows[j].id;
            assert(after[w] == rows[j].id);
        }
    }
}

/// Once every resource of the worklist was taken from it, the worklist
/// holds what leaves with `top`.
proof fn lemma_collected(rows: Seq<RowModel>, top: Seq<char>, list: Seq<Seq<char>>)
    requires
        schema_ok(rows),
        collecting(rows, top, list, list.len() as int),
    ensures
        forall|x: Seq<char>| list.contains(x) <==> leaves_with(rows, top, x),
{
    assert forall|x: Seq<char>| list.contains(x) <==> leaves_with(rows, top, x) by {
        if list.contains(x) {
            let k = choose|k: int| 0 <= k < list.len() && list[k] == x;
            assert(k >= 1 ==> descends(rows, top, list[k]));
        }
        if leaves_with(rows, top, x) {
            if x == top {
                assert(list[0] == top);
            } else {
                let steps = choose|steps: nat| under(rows, top, x, steps);
                lemma_listed_holds_descendants(rows, list, top, x, steps);
            }
        }
    }
}

/// Collects what leaves the index with a resource: a worklist starts with
/// the resource; for each container taken from it, its children join the
/// list, each once.
pub fn leaving_with(index: &Index, id: &ResourceId) -> (doomed: Vec<ResourceId>)
    requires
        index.wf(),
        has_id(index@, id@),
    ensures
        forall|x: Seq<char>| id_views(doomed@).contains(x) <==> leaves_with(index@, id@, x),
        id_views(doomed@).no_duplicates(),
        doomed@.len() >= 1,
        doomed@[0]@ == id@,
{
    let mut doomed: Vec<ResourceId> = Vec::new();
    let mut seen = StringHashSet::new();
    doomed.push(id.clone());
    seen.insert(id.to_string());
    let mut next: usize = 0;
    proof {
        assert(id_views(doomed@) =~= seq![id@]);
        lemma_holds_one_more(Set::<Seq<char>>::empty(), Seq::<Seq<char>>::empty(), id@);
        assert(Seq::<Seq<char>>::empty().push(id@) =~= seq![id@]);
    }
    while next < doomed.len()
        invariant
            index.wf(),
            next <= doomed@.len(),
            holds_all(seen@, id_views(doomed@)),
            collecting(index@, id@, id_views(doomed@), next as int),
        decreases index@.len() - next,
    {
        let ghost before = id_views(doomed@);
        proof {
            lemma_listed_bound(index@, before);
        }
        let current = doomed[next].clone();
        assert(current@ == before[next as int]);
        if index.is_container(&current) {
            let kids = index.children_of(&current);
            add_missing(&mut doomed, &mut seen, &kids);
            proof {
                lemma_collect_children(index@, id@, before, id_views(doomed@), next as int);
            }
        } else {
            assert(children_listed(index@, before, next + 1)) by {
                assert(!is_container(index@, before[next as int]));
            }
        }
        next += 1;
    }
    proof {
        lemma_collected(index@, id@, id_views(doomed@));
        assert(id_views(doomed@)[0] == doomed@[0]@);
    }
    doomed
}

/// What a resource counts for in the size of a container: the sizes of
/// its variants if it is a leaf that descends from the container.
pub open spec fn counted_size(rows: Seq<RowModel>, top: Seq<char>, row: RowModel) -> nat {
    if row.kind == ResourceKind::Leaf && leaves_with(rows, top, row.id) {
        variants_size(row.variants)
    } else {
        0
    }
}

/// What the first `upto` rows count for in the size of a container.
pub open spec fn subtree_size(rows: Seq<RowModel>, top: Seq<char>, upto: int) -> nat
    decreases upto,
{
    if upto <= 0 {
        0
    } else {
        subtree_size(rows, top, upto - 1) + counted_size(rows, top, rows[upto - 1])
    }
}

/// What the first rows count for is at most what all rows count for.
pub proof fn lemma_subtree_size_grows(rows: Seq<RowModel>, top: Seq<char>, upto: int)
    requires
        0 <= upto <= rows.len(),
    ensures
        subtree_size(rows, top, upto) <= subtree_size(rows, top, rows.len() as int),
    decreases rows.len() - upto,
{
    if upto < rows.len() {
        lemma_subtree_size_grows(rows, top, upto + 1);
    }
}

} // verus!
