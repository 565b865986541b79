//! Lists of metadata that the index holds, and paths from the root down
//! to a resource.

use crate::common::{MetadataModel, ResourceMetadata, ROOT_ID_STR};
use crate::index::{extends, has_id, lemma_extends_keeps_rows, position, schema_ok, RowModel};
use vstd::prelude::*;

verus! {

/// What a list of metadata holds.
pub open spec fn metadata_views(list: Seq<ResourceMetadata>) -> Seq<MetadataModel> {
    list.map_values(|metadata: ResourceMetadata| metadata@)
}

/// Whether some rows hold a metadata as it is.
pub open spec fn held(rows: Seq<RowModel>, metadata: MetadataModel) -> bool {
    has_id(rows, metadata.id) && rows[position(rows, metadata.id)].metadata() == metadata
}

/// Whether some rows hold each metadata of a list as it is.
pub open spec fn all_held(rows: Seq<RowModel>, list: Seq<MetadataModel>) -> bool {
    forall|k: int| 0 <= k < list.len() ==> held(rows, #[trigger] list[k])
}

/// Whether the resource at a place of a list is the parent of the next.
pub open spec fn parent_first(list: Seq<MetadataModel>, place: int) -> bool {
    list[place + 1].parent == list[place].id
}

/// Whether the resource at a place of a list is followed by its parent.
pub open spec fn child_first(list: Seq<MetadataModel>, place: int) -> bool {
    list[place].parent == list[place + 1].id
}

/// The identifiers of a list of metadata.
pub open spec fn metadata_ids(list: Seq<MetadataModel>) -> Seq<Seq<char>> {
    list.map_values(|metadata: MetadataModel| metadata.id)
}

/// Whether a list of metadata leads from the root to a resource, each
/// resource being the parent of the next, and no resource standing twice:
/// the root stands first and nowhere else.
pub open spec fn is_path(list: Seq<MetadataModel>, id: Seq<char>) -> bool {
    &&& list.len() >= 1
    &&& list[0].id == ROOT_ID_STR@
    &&& list.last().id == id
    &&& forall|k: int| 0 <= k < list.len() - 1 ==> #[trigger] parent_first(list, k)
    &&& metadata_ids(list).no_duplicates()
}

/// A resource that a list without repetition does not hold can join it.
pub proof fn lemma_ids_push(list: Seq<MetadataModel>, next: MetadataModel)
    requires
        metadata_ids(list).no_duplicates(),
        !metadata_ids(list).contains(next.id),
    ensures
        metadata_ids(list.push(next)).no_duplicates(),
        metadata_ids(list.push(next)) == metadata_ids(list).push(next.id),
{
    let ids = metadata_ids(list);
    let longer = metadata_ids(list.push(next));
    assert(longer =~= ids.push(next.id));
    assert forall|a: int, b: int| 0 <= a < longer.len() && 0 <= b < longer.len() && a
        != b implies longer[a] != longer[b] by {
        if a < ids.len() && b < ids.len() {
            assert(ids[a] != ids[b]);
        } else if a < ids.len() {
            assert(ids.contains(ids[a]));
        } else {
            assert(ids.contains(ids[b]));
        }
    }
}

/// Whether a list of metadata leads from a resource up to another, each
/// resource being followed by its parent.
pub open spec fn is_climb(list: Seq<MetadataModel>, id: Seq<char>) -> bool {
    &&& list.len() >= 1 ==> list[0].id == id
    &&& forall|k: int| 0 <= k < list.len() - 1 ==> #[trigger] child_first(list, k)
}

/// Rows extend themselves.
pub proof fn lemma_extends_self(rows: Seq<RowModel>)
    ensures
        extends(rows, rows),
{
    assert(rows.take(rows.len() as int) =~= rows);
}

/// What rows hold is held by the rows that extend them.
pub proof fn lemma_held_after_extend(
    before: Seq<RowModel>,
    after: Seq<RowModel>,
    list: Seq<MetadataModel>,
)
    requires
        schema_ok(after),
        extends(after, before),
        all_held(before, list),
    ensures
        all_held(after, list),
{
    assert forall|k: int| 0 <= k < list.len() implies held(after, #[trigger] list[k]) by {
        assert(held(before, list[k]));
        lemma_extends_keeps_rows(before, after, list[k].id);
    }
}

/// A climb goes on with the parent of its last resource.
pub proof fn lemma_climb_push(list: Seq<MetadataModel>, next: MetadataModel, id: Seq<char>)
    requires
        is_climb(list, id),
        list.len() == 0 ==> next.id == id,
        list.len() > 0 ==> list.last().parent == next.id,
    ensures
        is_climb(list.push(next), id),
{
    let longer = list.push(next);
    assert forall|k: int| 0 <= k < longer.len() - 1 implies #[trigger] child_first(longer, k) by {
        if k < list.len() - 1 {
            assert(child_first(list, k));
        }
    }
}

/// A metadata that rows hold joins a list that they hold.
pub proof fn lemma_held_push(rows: Seq<RowModel>, list: Seq<MetadataModel>, next: MetadataModel)
    requires
        all_held(rows, list),
        held(rows, next),
    ensures
        all_held(rows, list.push(next)),
{
    let longer = list.push(next);
    assert forall|k: int| 0 <= k < longer.len() implies held(rows, #[trigger] longer[k]) by {
        if k < list.len() {
            assert(held(rows, list[k]));
        }
    }
}

/// A climb that ends at the root is, in the opposite order, the path from
/// the root.
pub proof fn lemma_climb_reversed(rows: Seq<RowModel>, up: Seq<MetadataModel>, id: Seq<char>)
    requires
        is_climb(up, id),
        up.len() > 0,
        up.last().id == ROOT_ID_STR@,
        all_held(rows, up),
        metadata_ids(up).no_duplicates(),
    ensures
        is_path(up.reverse(), id),
        all_held(rows, up.reverse()),
{
    let down = up.reverse();
    assert forall|a: int, b: int|
        0 <= a < down.len() && 0 <= b < down.len() && a != b implies metadata_ids(down)[a]
        != metadata_ids(down)[b] by {
        assert(metadata_ids(up)[up.len() - 1 - a] != metadata_ids(up)[up.len() - 1 - b]);
    }
    assert forall|k: int| 0 <= k < down.len() - 1 implies #[trigger] parent_first(down, k) by {
        assert(child_first(up, up.len() - 2 - k));
    }
    assert forall|k: int| 0 <= k < down.len() implies held(rows, #[trigger] down[k]) by {
        assert(held(rows, up[up.len() - 1 - k]));
    }
}

/// A list in the opposite order.
pub(crate) fn reversed(mut list: Vec<ResourceMetadata>) -> (turned: Vec<ResourceMetadata>)
    ensures
        metadata_views(turned@) == metadata_views(list@).reverse(),
{
    let ghost all = metadata_views(list@);
    let mut turned: Vec<ResourceMetadata> = Vec::new();
    while list.len() > 0
        invariant
            list@.len() <= all.len(),
            turned@.len() == all.len() - list@.len(),
            metadata_views(list@) == all.take(list@.len() as int),
            forall|k: int|
                0 <= k < turned@.len() ==> (#[trigger] turned@[k])@ == all[all.len() - 1 - k],
        decreases list@.len(),
    {
        let ghost before = list@;
        let last = list.pop().unwrap();
        assert(last@ == metadata_views(before)[before.len() - 1]);
        turned.push(last);
        assert(metadata_views(list@) =~= all.take(list@.len() as int));
    }
    assert(metadata_views(turned@) =~= all.reverse());
    turned
}


proof fn lemma_paths_agree(
    rows: Seq<RowModel>,
    one: Seq<MetadataModel>,
    other: Seq<MetadataModel>,
    id: Seq<char>,
    back: int,
)
    requires
        is_path(one, id),
        is_path(other, id),
        all_held(rows, one),
        all_held(rows, other),
        0 <= back < one.len(),
        back < other.len(),
    ensures
        one[one.len() - 1 - back] == other[other.len() - 1 - back],
    decreases back,
{
    let a = one.len() - 1 - back;
    let b = other.len() - 1 - back;
    assert(held(rows, one[a]) && held(rows, other[b]));
    if back > 0 {
        lemma_paths_agree(rows, one, other, id, back - 1);
        assert(parent_first(one, a));
        assert(parent_first(other, b));
    }
}

/// The rows hold one path from the root to a resource.
pub proof fn lemma_path_unique(
    rows: Seq<RowModel>,
    one: Seq<MetadataModel>,
    other: Seq<MetadataModel>,
    id: Seq<char>,
)
    requires
        is_path(one, id),
        is_path(other, id),
        all_held(rows, one),
        all_held(rows, other),
    ensures
        one == other,
{
    if one.len() < other.len() {
        lemma_paths_agree(rows, one, other, id, one.len() - 1);
        let k = other.len() - one.len();
        assert(metadata_ids(other)[k] == metadata_ids(other)[0]);
    } else if other.len() < one.len() {
        lemma_paths_agree(rows, one, other, id, other.len() - 1);
        let k = one.len() - other.len();
        assert(metadata_ids(one)[k] == metadata_ids(one)[0]);
    } else {
        assert forall|i: int| 0 <= i < one.len() implies one[i] == other[i] by {
            lemma_paths_agree(rows, one, other, id, one.len() - 1 - i);
        }
        assert(one =~= other);
    }
}

} // verus!
