//! The metadata index: the table of resources with, for each resource, its
//! tags, its variants and its n-grams. A row of a dependent table lives
//! with the resource that it belongs to, so it leaves with it.

use crate::common::{
    clone_variants, variant_models, variant_names, variants_without, IdFrec, MetadataModel,
    ResourceId, ResourceKind, ResourceMetadata, ResourceStoreError, Variant, VariantModel,
};
use crate::ranking::{
    first_of, key_values, lemma_ranking_of, lemma_ranking_unique, places, rank, ranking_of,
};
use crate::scorer::{lemma_scorer_round_trip, scorer_bytes, scorer_decoding, Scorer, ScorerModel};
use crate::strings::{
    clone_strings, contains_text, copy_bytes, holds_all, lemma_holds_one_more, string_views,
    text_set,
};
use vstd::hash_set::StringHashSet;
use vstd::prelude::*;

verus! {

/// What a row of the index holds: the columns of the resource, then the
/// tags, the variants and the n-grams of the resource.
pub struct RowModel {
    pub id: Seq<char>,
    pub parent: Seq<char>,
    pub kind: ResourceKind,
    pub name: Seq<char>,
    pub created: i64,
    pub modified: i64,
    pub scorer: Seq<u8>,
    pub tags: Seq<Seq<char>>,
    pub variants: Seq<VariantModel>,
    pub ngrams: Seq<Seq<char>>,
}

impl RowModel {
    /// The row that a resource gets when it enters the index: it has no
    /// n-gram yet.
    pub open spec fn of(metadata: MetadataModel) -> RowModel {
        RowModel {
            id: metadata.id,
            parent: metadata.parent,
            kind: metadata.kind,
            name: metadata.name,
            created: metadata.created,
            modified: metadata.modified,
            scorer: scorer_bytes(metadata.scorer),
            tags: metadata.tags,
            variants: metadata.variants,
            ngrams: Seq::empty(),
        }
    }

    /// The scorer that the row stores.
    pub open spec fn stored_scorer(self) -> ScorerModel {
        match scorer_decoding(self.scorer) {
            Some(model) => model,
            None => ScorerModel::empty(),
        }
    }

    /// The metadata that the row stands for.
    pub open spec fn metadata(self) -> MetadataModel {
        MetadataModel {
            id: self.id,
            parent: self.parent,
            kind: self.kind,
            name: self.name,
            tags: self.tags,
            variants: self.variants,
            created: self.created,
            modified: self.modified,
            scorer: self.stored_scorer(),
        }
    }

    /// The constraints on one row: a variant name and an n-gram occur once,
    /// and the scorer column is the binary form of a scorer.
    pub open spec fn ok(self) -> bool {
        &&& variant_names(self.variants).no_duplicates()
        &&& self.ngrams.no_duplicates()
        &&& scorer_decoding(self.scorer) is Some
    }

    /// Whether the resource of the row is a child of `parent`. The root is
    /// its own parent and not its own child.
    pub open spec fn is_child_of(self, parent: Seq<char>) -> bool {
        self.parent == parent && self.parent != self.id
    }
}

/// Whether a resource is in the index.
pub open spec fn has_id(rows: Seq<RowModel>, id: Seq<char>) -> bool {
    exists|i: int| 0 <= i < rows.len() && #[trigger] rows[i].id == id
}

/// The place of a resource in the index.
pub open spec fn position(rows: Seq<RowModel>, id: Seq<char>) -> int {
    choose|i: int| 0 <= i < rows.len() && #[trigger] rows[i].id == id
}

/// Whether a name is taken under a parent.
pub open spec fn sibling_taken(rows: Seq<RowModel>, parent: Seq<char>, name: Seq<char>) -> bool {
    exists|i: int| 0 <= i < rows.len() && #[trigger] rows[i].parent == parent && rows[i].name == name
}

/// Whether a resource is in the index as a container.
pub open spec fn is_container(rows: Seq<RowModel>, id: Seq<char>) -> bool {
    exists|i: int|
        0 <= i < rows.len() && #[trigger] rows[i].id == id && rows[i].kind
            == ResourceKind::Container
}

/// The constraints of the schema: an identifier occurs once, a name occurs
/// once under a parent, and each row is in order.
pub open spec fn schema_ok(rows: Seq<RowModel>) -> bool {
    &&& forall|i: int, j: int|
        #![trigger rows[i], rows[j]]
        0 <= i < rows.len() && 0 <= j < rows.len() && i != j ==> rows[i].id != rows[j].id
    &&& forall|i: int, j: int|
        #![trigger rows[i], rows[j]]
        0 <= i < rows.len() && 0 <= j < rows.len() && i != j ==> !(rows[i].parent
            == rows[j].parent && rows[i].name == rows[j].name)
    &&& forall|i: int| 0 <= i < rows.len() ==> (#[trigger] rows[i]).ok()
}

/// The identifiers of the rows that `keep` holds, in the order of the rows.
pub open spec fn ids_where(rows: Seq<RowModel>, keep: spec_fn(RowModel) -> bool) -> Seq<Seq<char>> {
    rows.filter(keep).map_values(|row: RowModel| row.id)
}

/// The children of a resource, in the order of the rows.
pub open spec fn children(rows: Seq<RowModel>, parent: Seq<char>) -> Seq<Seq<char>> {
    ids_where(rows, |row: RowModel| row.is_child_of(parent))
}

/// The rows without the one of a resource.
pub open spec fn rows_without(rows: Seq<RowModel>, id: Seq<char>) -> Seq<RowModel> {
    rows.filter(|row: RowModel| row.id != id)
}

/// Whether a resource can enter the index.
pub open spec fn insertable(rows: Seq<RowModel>, metadata: MetadataModel) -> bool {
    &&& !has_id(rows, metadata.id)
    &&& !sibling_taken(rows, metadata.parent, metadata.name)
    &&& variant_names(metadata.variants).no_duplicates()
}

/// The texts of a list of identifiers.
pub open spec fn id_views(ids: Seq<ResourceId>) -> Seq<Seq<char>> {
    ids.map_values(|id: ResourceId| id@)
}

/// One row of the index.
pub struct IndexRow {
    id: ResourceId,
    parent: ResourceId,
    kind: ResourceKind,
    name: String,
    created: i64,
    modified: i64,
    scorer: Vec<u8>,
    tags: Vec<String>,
    variants: Vec<Variant>,
    ngrams: Vec<String>,
}

impl View for IndexRow {
    type V = RowModel;

    closed spec fn view(&self) -> RowModel {
        RowModel {
            id: self.id@,
            parent: self.parent@,
            kind: self.kind,
            name: self.name@,
            created: self.created,
            modified: self.modified,
            scorer: self.scorer@,
            tags: string_views(self.tags@),
            variants: variant_models(self.variants@),
            ngrams: string_views(self.ngrams@),
        }
    }
}

impl Clone for IndexRow {
    fn clone(&self) -> (copy: Self)
        ensures
            copy@ == self@,
    {
        IndexRow {
            id: self.id.clone(),
            parent: self.parent.clone(),
            kind: self.kind,
            name: self.name.clone(),
            created: self.created,
            modified: self.modified,
            scorer: copy_bytes(self.scorer.as_slice()),
            tags: clone_strings(&self.tags),
            variants: clone_variants(&self.variants),
            ngrams: clone_strings(&self.ngrams),
        }
    }
}

/// The metadata index.
pub struct Index {
    rows: Vec<IndexRow>,
}

impl View for Index {
    type V = Seq<RowModel>;

    closed spec fn view(&self) -> Seq<RowModel> {
        self.rows@.map_values(|row: IndexRow| row@)
    }
}

impl Clone for Index {
    fn clone(&self) -> (copy: Self)
        ensures
            copy@ == self@,
    {
        let mut rows: Vec<IndexRow> = Vec::new();
        let mut i: usize = 0;
        while i < self.rows.len()
            invariant
                i <= self.rows@.len(),
                rows@.len() == i,
                forall|j: int| 0 <= j < i ==> rows@[j]@ == self.rows@[j]@,
            decreases self.rows@.len() - i,
        {
            rows.push(self.rows[i].clone());
            i += 1;
        }
        let copy = Index { rows };
        assert(copy@ =~= self@);
        copy
    }
}

/// A name that two variants of a list share, if there is one.
fn repeated_name(variants: &Vec<Variant>) -> (repeated: Option<String>)
    ensures
        repeated is None <==> variant_names(variant_models(variants@)).no_duplicates(),
        repeated matches Some(name) ==> exists|a: int, b: int|
            0 <= b < a < variants@.len() && variants@[a]@.name == name@ && variants@[b]@.name
                == name@,
{
    let ghost names = variant_names(variant_models(variants@));
    let mut i: usize = 0;
    while i < variants.len()
        invariant
            i <= variants@.len(),
            names == variant_names(variant_models(variants@)),
            forall|a: int, b: int| 0 <= a < i && 0 <= b < a ==> names[a] != names[b],
        decreases variants@.len() - i,
    {
        let name = variants[i].name();
        let mut j: usize = 0;
        while j < i
            invariant
                j <= i < variants@.len(),
                names == variant_names(variant_models(variants@)),
                name@ == names[i as int],
                forall|b: int| 0 <= b < j ==> names[i as int] != names[b],
            decreases i - j,
        {
            if variants[j].is_named(name.as_str()) {
                assert(names[j as int] == names[i as int]);
                return Some(name);
            }
            j += 1;
        }
        i += 1;
    }
    assert forall|a: int, b: int| 0 <= a < names.len() && 0 <= b < names.len() && a != b implies names[a]
        != names[b] by {
        if b < a {
        } else {
            assert(names[b] != names[a]);
        }
    }
    None
}

impl Index {
    /// The constraints of the schema hold.
    pub open spec fn wf(&self) -> bool {
        schema_ok(self@)
    }

    /// An index without any resource.
    pub fn new() -> (index: Self)
        ensures
            index@ == Seq::<RowModel>::empty(),
            index.wf(),
    {
        let index = Index { rows: Vec::new() };
        assert(index@ =~= Seq::<RowModel>::empty());
        index
    }

    /// The number of resources.
    pub fn len(&self) -> (count: usize)
        ensures
            count == self@.len(),
    {
        self.rows.len()
    }

    /// Takes every resource out.
    pub fn clear(&mut self)
        ensures
            final(self)@ == Seq::<RowModel>::empty(),
            final(self).wf(),
    {
        self.rows.clear();
        assert(self@ =~= Seq::<RowModel>::empty());
    }

    /// The place of a resource.
    pub fn find(&self, id: &ResourceId) -> (place: Option<usize>)
        ensures
            match place {
                Some(i) => i < self@.len() && self@[i as int].id == id@ && has_id(self@, id@),
                None => !has_id(self@, id@),
            },
            self.wf() && place is Some ==> place->0 == position(self@, id@),
    {
        let mut i: usize = 0;
        while i < self.rows.len()
            invariant
                i <= self.rows@.len(),
                forall|j: int| 0 <= j < i ==> (#[trigger] self@[j]).id != id@,
            decreases self.rows@.len() - i,
        {
            if self.rows[i].id.same(id) {
                assert(self@[i as int].id == id@);
                return Some(i);
            }
            i += 1;
        }
        None
    }

    /// Whether a resource is in the index.
    pub fn has(&self, id: &ResourceId) -> (found: bool)
        ensures
            found == has_id(self@, id@),
    {
        self.find(id).is_some()
    }

    /// Whether a resource is in the index as a container.
    pub fn is_container(&self, id: &ResourceId) -> (container: bool)
        requires
            self.wf(),
        ensures
            container == is_container(self@, id@),
    {
        match self.find(id) {
            Some(i) => {
                let kind = self.rows[i].kind;
                assert(self@[i as int].kind == kind);
                match kind {
                    ResourceKind::Container => true,
                    ResourceKind::Leaf => false,
                }
            },
            None => false,
        }
    }

    /// The parent of a resource.
    pub fn parent_of(&self, id: &ResourceId) -> (parent: Option<ResourceId>)
        requires
            self.wf(),
        ensures
            match parent {
                Some(p) => has_id(self@, id@) && p@ == self@[position(self@, id@)].parent,
                None => !has_id(self@, id@),
            },
    {
        match self.find(id) {
            Some(i) => {
                assert(self@[i as int].parent == self.rows@[i as int].parent@);
                Some(self.rows[i].parent.clone())
            },
            None => None,
        }
    }

    /// Whether a name is taken under a parent.
    pub fn name_taken(&self, parent: &ResourceId, name: &str) -> (taken: bool)
        ensures
            taken == sibling_taken(self@, parent@, name@),
    {
        let wanted = name.to_owned();
        let mut i: usize = 0;
        while i < self.rows.len()
            invariant
                i <= self.rows@.len(),
                wanted@ == name@,
                forall|j: int|
                    0 <= j < i ==> !((#[trigger] self@[j]).parent == parent@ && self@[j].name
                        == name@),
            decreases self.rows@.len() - i,
        {
            if self.rows[i].parent.same(parent) && self.rows[i].name == wanted {
                assert(self@[i as int].parent == parent@ && self@[i as int].name == name@);
                return true;
            }
            i += 1;
        }
        false
    }

    /// The metadata of the resource at a place.
    pub fn metadata_at(&self, place: usize) -> (metadata: ResourceMetadata)
        requires
            place < self@.len(),
        ensures
            metadata@ == self@[place as int].metadata(),
            metadata.wf(),
    {
        let row = &self.rows[place];
        assert(self@[place as int] == row@);
        let mut metadata = ResourceMetadata::new(
            &row.id,
            &row.parent,
            row.kind,
            row.name.as_str(),
            clone_strings(&row.tags),
            clone_variants(&row.variants),
        );
        metadata.set_created(row.created);
        metadata.set_modified(row.modified);
        metadata.set_scorer_from_db(row.scorer.as_slice());
        metadata
    }

    /// Puts a resource in the index, without any n-gram.
    pub fn insert(&mut self, metadata: &ResourceMetadata) -> (done: Result<(), ResourceStoreError>)
        requires
            old(self).wf(),
            metadata.wf(),
        ensures
            final(self).wf(),
            match done {
                Ok(_) => insertable(old(self)@, metadata@) && final(self)@ == old(self)@.push(
                    RowModel::of(metadata@),
                ),
                Err(error) => !insertable(old(self)@, metadata@) && final(self)@ == old(self)@ && (
                if has_id(old(self)@, metadata@.id) || sibling_taken(
                    old(self)@,
                    metadata@.parent,
                    metadata@.name,
                ) {
                    error is ResourceAlreadyExists
                } else {
                    error is InvalidVariant
                }),
            },
    {
        let id = metadata.id();
        let parent = metadata.parent();
        let name = metadata.name();
        if self.has(&id) || self.name_taken(&parent, name.as_str()) {
            return Err(ResourceStoreError::ResourceAlreadyExists);
        }
        if let Some(repeated) = repeated_name(metadata.variants()) {
            return Err(ResourceStoreError::InvalidVariant(repeated));
        }
        let row = IndexRow {
            id,
            parent,
            kind: metadata.kind(),
            name,
            created: metadata.created(),
            modified: metadata.modified(),
            scorer: metadata.db_scorer(),
            tags: clone_strings(metadata.tags()),
            variants: clone_variants(metadata.variants()),
            ngrams: Vec::new(),
        };
        proof {
            assert(row@.ngrams =~= Seq::<Seq<char>>::empty());
            assert(row@ == RowModel::of(metadata@));
            lemma_scorer_round_trip(metadata@.scorer);
        }
        let ghost before = self@;
        self.rows.push(row);
        proof {
            assert(self@ =~= before.push(RowModel::of(metadata@)));
            lemma_push_keeps_schema(before, RowModel::of(metadata@));
        }
        Ok(())
    }
}

/// A row whose identifier and whose name under its parent are free can
/// join the rows.
pub proof fn lemma_push_keeps_schema(rows: Seq<RowModel>, row: RowModel)
    requires
        schema_ok(rows),
        row.ok(),
        !has_id(rows, row.id),
        !sibling_taken(rows, row.parent, row.name),
    ensures
        schema_ok(rows.push(row)),
{
    let after = rows.push(row);
    assert forall|i: int, j: int|
        #![trigger after[i], after[j]]
        0 <= i < after.len() && 0 <= j < after.len() && i != j implies after[i].id != after[j].id
        && !(after[i].parent == after[j].parent && after[i].name == after[j].name) by {
        if i < rows.len() && j < rows.len() {
            assert(rows[i].id != rows[j].id);
        } else if i < rows.len() {
            assert(rows[i].id != row.id);
            assert(!(rows[i].parent == row.parent && rows[i].name == row.name));
        } else {
            assert(rows[j].id != row.id);
            assert(!(rows[j].parent == row.parent && rows[j].name == row.name));
        }
    }
    assert forall|i: int| 0 <= i < after.len() implies (#[trigger] after[i]).ok() by {
        if i < rows.len() {
            assert(rows[i].ok());
        }
    }
}

/// Filtering the first items of a list, one item further.
pub proof fn lemma_filter_step<A>(items: Seq<A>, keep: spec_fn(A) -> bool, i: int)
    requires
        0 <= i < items.len(),
    ensures
        items.take(i + 1).filter(keep) == if keep(items[i]) {
            items.take(i).filter(keep).push(items[i])
        } else {
            items.take(i).filter(keep)
        },
{
    reveal(Seq::filter);
    assert(items.take(i + 1).drop_last() =~= items.take(i));
}

/// A list whose items all pass a filter passes it whole.
pub proof fn lemma_filter_all<A>(items: Seq<A>, keep: spec_fn(A) -> bool)
    requires
        forall|i: int| 0 <= i < items.len() ==> keep(#[trigger] items[i]),
    ensures
        items.filter(keep) == items,
    decreases items.len(),
{
    reveal(Seq::filter);
    if items.len() > 0 {
        lemma_filter_all(items.drop_last(), keep);
        assert(items.drop_last().push(items.last()) =~= items);
    }
}

/// The rows that pass a filter obey the schema as the rows did, and they
/// are the rows that pass.
pub proof fn lemma_filter_rows(rows: Seq<RowModel>, keep: spec_fn(RowModel) -> bool)
    requires
        schema_ok(rows),
    ensures
        schema_ok(rows.filter(keep)),
        forall|k: int|
            0 <= k < rows.filter(keep).len() ==> rows.contains(#[trigger] rows.filter(keep)[k])
                && keep(rows.filter(keep)[k]),
        forall|i: int|
            0 <= i < rows.len() && keep(rows[i]) ==> rows.filter(keep).contains(#[trigger] rows[i]),
    decreases rows.len(),
{
    reveal(Seq::filter);
    if rows.len() > 0 {
        let front = rows.drop_last();
        let last = rows.last();
        assert(schema_ok(front)) by {
            assert forall|i: int, j: int|
                #![trigger front[i], front[j]]
                0 <= i < front.len() && 0 <= j < front.len() && i != j implies front[i].id
                != front[j].id && !(front[i].parent == front[j].parent && front[i].name
                == front[j].name) by {
                assert(front[i] == rows[i] && front[j] == rows[j]);
            }
            assert forall|i: int| 0 <= i < front.len() implies (#[trigger] front[i]).ok() by {
                assert(front[i] == rows[i]);
            }
        }
        lemma_filter_rows(front, keep);
        let sub = front.filter(keep);
        let out = rows.filter(keep);
        assert forall|k: int| 0 <= k < sub.len() implies rows.contains(#[trigger] sub[k]) by {
            assert(front.contains(sub[k]));
            let i = choose|i: int| 0 <= i < front.len() && front[i] == sub[k];
            assert(rows[i] == sub[k]);
        }
        if keep(last) {
            assert(!has_id(sub, last.id)) by {
                if has_id(sub, last.id) {
                    let k = choose|k: int| 0 <= k < sub.len() && #[trigger] sub[k].id == last.id;
                    assert(front.contains(sub[k]));
                    let i = choose|i: int| 0 <= i < front.len() && front[i] == sub[k];
                    assert(rows[i].id == rows[rows.len() - 1].id);
                }
            }
            assert(!sibling_taken(sub, last.parent, last.name)) by {
                if sibling_taken(sub, last.parent, last.name) {
                    let k = choose|k: int|
                        0 <= k < sub.len() && #[trigger] sub[k].parent == last.parent
                            && sub[k].name == last.name;
                    assert(front.contains(sub[k]));
                    let i = choose|i: int| 0 <= i < front.len() && front[i] == sub[k];
                    assert(rows[i].parent == rows[rows.len() - 1].parent);
                }
            }
            assert(rows[rows.len() - 1].ok());
            lemma_push_keeps_schema(sub, last);
            assert forall|k: int| 0 <= k < out.len() implies rows.contains(#[trigger] out[k])
                && keep(out[k]) by {
                if k < sub.len() {
                    assert(out[k] == sub[k]);
                } else {
                    assert(rows[rows.len() - 1] == out[k]);
                }
            }
        }
        assert forall|i: int| 0 <= i < rows.len() && keep(rows[i]) implies out.contains(
            #[trigger] rows[i],
        ) by {
            if i < front.len() {
                assert(front[i] == rows[i]);
                assert(sub.contains(front[i]));
                let k = choose|k: int| 0 <= k < sub.len() && sub[k] == rows[i];
                assert(out[k] == rows[i]);
            } else {
                assert(out[out.len() - 1] == rows[i]);
            }
        }
    }
}

/// A row may change what is not under a constraint between rows.
pub proof fn lemma_update_keeps_schema(rows: Seq<RowModel>, place: int, row: RowModel)
    requires
        schema_ok(rows),
        0 <= place < rows.len(),
        row.id == rows[place].id,
        row.parent == rows[place].parent,
        row.name == rows[place].name,
        row.ok(),
    ensures
        schema_ok(rows.update(place, row)),
{
    let after = rows.update(place, row);
    assert forall|i: int, j: int|
        #![trigger after[i], after[j]]
        0 <= i < after.len() && 0 <= j < after.len() && i != j implies after[i].id != after[j].id
        && !(after[i].parent == after[j].parent && after[i].name == after[j].name) by {
        assert(rows[i].id != rows[j].id);
        assert(!(rows[i].parent == rows[j].parent && rows[i].name == rows[j].name));
    }
    assert forall|i: int| 0 <= i < after.len() implies (#[trigger] after[i]).ok() by {
        if i != place {
            assert(rows[i].ok());
        }
    }
}

/// A list with the items of another added at its end, but for those that
/// it holds already.
pub open spec fn merged(known: Seq<Seq<char>>, fresh: Seq<Seq<char>>) -> Seq<Seq<char>>
    decreases fresh.len(),
{
    if fresh.len() == 0 {
        known
    } else if merged(known, fresh.drop_last()).contains(fresh.last()) {
        merged(known, fresh.drop_last())
    } else {
        merged(known, fresh.drop_last()).push(fresh.last())
    }
}

/// Merging keeps a list free of repetitions, holds what either list holds,
/// and starts with the first list.
pub proof fn lemma_merged(known: Seq<Seq<char>>, fresh: Seq<Seq<char>>)
    requires
        known.no_duplicates(),
    ensures
        merged(known, fresh).no_duplicates(),
        forall|x: Seq<char>| merged(known, fresh).contains(x) <==> known.contains(x) || fresh.contains(x),
        known.len() <= merged(known, fresh).len(),
        merged(known, fresh).take(known.len() as int) == known,
    decreases fresh.len(),
{
    if fresh.len() > 0 {
        let front = fresh.drop_last();
        let last = fresh.last();
        lemma_merged(known, front);
        let m = merged(known, front);
        let all = merged(known, fresh);
        assert(all.take(known.len() as int) =~= m.take(known.len() as int));
        assert forall|x: Seq<char>| all.contains(x) <==> known.contains(x) || fresh.contains(x) by {
            if fresh.contains(x) {
                let i = choose|i: int| 0 <= i < fresh.len() && fresh[i] == x;
                if i < front.len() {
                    assert(front[i] == x);
                    assert(front.contains(x));
                    assert(m.contains(x));
                }
            }
            if m.contains(x) {
                let k = choose|k: int| 0 <= k < m.len() && m[k] == x;
                assert(all[k] == x);
                if front.contains(x) {
                    let i = choose|i: int| 0 <= i < front.len() && front[i] == x;
                    assert(fresh[i] == x);
                }
            }
            if !m.contains(last) {
                assert(all[m.len() as int] == last);
            }
            assert(fresh[fresh.len() - 1] == last);
            if all.contains(x) {
                let k = choose|k: int| 0 <= k < all.len() && all[k] == x;
                if k < m.len() {
                    assert(m[k] == x);
                }
            }
        }
    } else {
        assert(known.take(known.len() as int) =~= known);
    }
}

/// Adding the items of a list that is held already changes nothing.
pub proof fn lemma_merged_known(known: Seq<Seq<char>>, fresh: Seq<Seq<char>>)
    requires
        forall|i: int| 0 <= i < fresh.len() ==> known.contains(#[trigger] fresh[i]),
    ensures
        merged(known, fresh) == known,
    decreases fresh.len(),
{
    if fresh.len() > 0 {
        let front = fresh.drop_last();
        assert forall|i: int| 0 <= i < front.len() implies known.contains(#[trigger] front[i]) by {
            assert(front[i] == fresh[i]);
        }
        lemma_merged_known(known, front);
        assert(known.contains(fresh[fresh.len() - 1]));
    }
}

/// Indexing the same n-grams once more changes nothing.
pub proof fn lemma_merged_twice(known: Seq<Seq<char>>, fresh: Seq<Seq<char>>)
    requires
        known.no_duplicates(),
    ensures
        merged(merged(known, fresh), fresh) == merged(known, fresh),
{
    lemma_merged(known, fresh);
    let once = merged(known, fresh);
    assert forall|i: int| 0 <= i < fresh.len() implies once.contains(#[trigger] fresh[i]) by {
        assert(fresh.contains(fresh[i]));
    }
    lemma_merged_known(once, fresh);
}

/// The set of the identifiers of a list.
pub(crate) fn id_set(ids: &Vec<ResourceId>) -> (set: StringHashSet)
    ensures
        holds_all(set@, id_views(ids@)),
{
    let mut set = StringHashSet::new();
    let mut i: usize = 0;
    assert(id_views(ids@).take(0) =~= Seq::<Seq<char>>::empty());
    while i < ids.len()
        invariant
            i <= ids@.len(),
            holds_all(set@, id_views(ids@).take(i as int)),
        decreases ids@.len() - i,
    {
        let ghost had = set@;
        let ghost sofar = id_views(ids@).take(i as int);
        set.insert(ids[i].to_string());
        proof {
            lemma_holds_one_more(had, sofar, ids@[i as int]@);
            assert(id_views(ids@).take(i + 1) =~= sofar.push(ids@[i as int]@));
        }
        i += 1;
    }
    assert(id_views(ids@).take(ids@.len() as int) =~= id_views(ids@));
    set
}

/// Whether a list of identifiers holds one.
pub fn contains_id(ids: &Vec<ResourceId>, id: &ResourceId) -> (found: bool)
    ensures
        found == id_views(ids@).contains(id@),
{
    let mut i: usize = 0;
    while i < ids.len()
        invariant
            i <= ids@.len(),
            forall|j: int| 0 <= j < i ==> id_views(ids@)[j] != id@,
        decreases ids@.len() - i,
    {
        if ids[i].same(id) {
            assert(id_views(ids@)[i as int] == id@);
            return true;
        }
        i += 1;
    }
    false
}

impl Index {
    /// The identifier of the resource at a place.
    pub fn id_at(&self, place: usize) -> (id: ResourceId)
        requires
            place < self@.len(),
        ensures
            id@ == self@[place as int].id,
    {
        assert(self@[place as int] == self.rows@[place as int]@);
        self.rows[place].id.clone()
    }

    /// Whether the resource at a place is a container.
    pub fn container_at(&self, place: usize) -> (container: bool)
        requires
            place < self@.len(),
        ensures
            container == (self@[place as int].kind == ResourceKind::Container),
    {
        assert(self@[place as int] == self.rows@[place as int]@);
        match self.rows[place].kind {
            ResourceKind::Container => true,
            ResourceKind::Leaf => false,
        }
    }

    /// Whether the resource at a place is a child of `parent`.
    pub fn child_at(&self, place: usize, parent: &ResourceId) -> (child: bool)
        requires
            place < self@.len(),
        ensures
            child == self@[place as int].is_child_of(parent@),
    {
        assert(self@[place as int] == self.rows@[place as int]@);
        let row = &self.rows[place];
        row.parent.same(parent) && !row.parent.same(&row.id)
    }

    /// Whether some row has a resource as its parent.
    pub fn has_child(&self, parent: &ResourceId) -> (found: bool)
        ensures
            found == (exists|j: int| 0 <= j < self@.len() && (#[trigger] self@[j]).parent == parent@),
    {
        let mut i: usize = 0;
        while i < self.rows.len()
            invariant
                i <= self.rows@.len(),
                self@.len() == self.rows@.len(),
                forall|j: int| 0 <= j < i ==> (#[trigger] self@[j]).parent != parent@,
            decreases self.rows@.len() - i,
        {
            assert(self@[i as int] == self.rows@[i as int]@);
            if self.rows[i].parent.same(parent) {
                return true;
            }
            i += 1;
        }
        false
    }

    /// The children of a resource, in the order of the rows.
    pub fn children_of(&self, parent: &ResourceId) -> (ids: Vec<ResourceId>)
        ensures
            id_views(ids@) == children(self@, parent@),
    {
        let ghost keep = |row: RowModel| row.is_child_of(parent@);
        let mut ids: Vec<ResourceId> = Vec::new();
        let mut i: usize = 0;
        proof {
            reveal(Seq::filter);
            assert(id_views(ids@) =~= ids_where(self@.take(0), keep));
        }
        while i < self.rows.len()
            invariant
                i <= self@.len(),
                self@.len() == self.rows@.len(),
                keep == (|row: RowModel| row.is_child_of(parent@)),
                id_views(ids@) == ids_where(self@.take(i as int), keep),
            decreases self.rows@.len() - i,
        {
            let ghost before = id_views(ids@);
            proof {
                lemma_filter_step(self@, keep, i as int);
            }
            if self.child_at(i, parent) {
                ids.push(self.id_at(i));
                assert(id_views(ids@) =~= before.push(self@[i as int].id));
                assert(ids_where(self@.take(i + 1), keep) =~= before.push(self@[i as int].id));
            }
            i += 1;
        }
        assert(self@.take(self@.len() as int) =~= self@);
        ids
    }

    /// Takes the resources of a list out, with their tags, variants and
    /// n-grams.
    pub fn remove_all(&mut self, doomed: &Vec<ResourceId>)
        requires
            old(self).wf(),
        ensures
            final(self)@ == old(self)@.filter(|row: RowModel| !id_views(doomed@).contains(row.id)),
            final(self).wf(),
    {
        let ghost keep = |row: RowModel| !id_views(doomed@).contains(row.id);
        let ghost before = self@;
        let gone = id_set(doomed);
        let mut kept: Vec<IndexRow> = Vec::new();
        let mut i: usize = 0;
        proof {
            reveal(Seq::filter);
            assert(kept@.map_values(|row: IndexRow| row@) =~= before.take(0).filter(keep));
        }
        while i < self.rows.len()
            invariant
                i <= self.rows@.len(),
                before == self@,
                before.len() == self.rows@.len(),
                keep == (|row: RowModel| !id_views(doomed@).contains(row.id)),
                holds_all(gone@, id_views(doomed@)),
                kept@.map_values(|row: IndexRow| row@) == before.take(i as int).filter(keep),
            decreases self.rows@.len() - i,
        {
            let ghost sofar = kept@.map_values(|row: IndexRow| row@);
            proof {
                lemma_filter_step(before, keep, i as int);
                assert(before[i as int] == self.rows@[i as int]@);
            }
            if !gone.contains(self.rows[i].id.as_str()) {
                kept.push(self.rows[i].clone());
                assert(kept@.map_values(|row: IndexRow| row@) =~= sofar.push(before[i as int]));
            }
            i += 1;
        }
        proof {
            assert(before.take(before.len() as int) =~= before);
            lemma_filter_rows(before, keep);
        }
        self.rows = kept;
    }

    /// Stores another scorer for the resource at a place.
    pub fn set_scorer(&mut self, place: usize, scorer: &Scorer)
        requires
            old(self).wf(),
            scorer.wf(),
            place < old(self)@.len(),
        ensures
            final(self)@ == old(self)@.update(
                place as int,
                RowModel { scorer: scorer_bytes(scorer@), ..old(self)@[place as int] },
            ),
            final(self).wf(),
    {
        let ghost before = self@;
        let mut row = self.rows[place].clone();
        row.scorer = scorer.as_binary();
        proof {
            lemma_scorer_round_trip(scorer@);
            assert(before[place as int] == self.rows@[place as int]@);
            assert(before[place as int].ok());
            lemma_update_keeps_schema(before, place as int, row@);
        }
        self.rows.set(place, row);
        assert(self@ =~= before.update(place as int, row@));
    }

    /// Takes the variants of a name away from the resource at a place.
    pub fn remove_variant(&mut self, place: usize, name: &str)
        requires
            old(self).wf(),
            place < old(self)@.len(),
        ensures
            final(self)@ == old(self)@.update(
                place as int,
                RowModel {
                    variants: variants_without(old(self)@[place as int].variants, name@),
                    ..old(self)@[place as int]
                },
            ),
            final(self).wf(),
    {
        let ghost before = self@;
        let mut metadata = self.metadata_at(place);
        metadata.delete_variant(name);
        let mut row = self.rows[place].clone();
        row.variants = clone_variants(metadata.variants());
        proof {
            assert(before[place as int] == self.rows@[place as int]@);
            assert(before[place as int].ok());
            lemma_without_keeps_names_distinct(before[place as int].variants, name@);
            lemma_update_keeps_schema(before, place as int, row@);
        }
        self.rows.set(place, row);
        assert(self@ =~= before.update(place as int, row@));
    }

    /// Gives the resource at a place the n-grams of a list that it does
    /// not have yet.
    pub fn add_ngrams(&mut self, place: usize, grams: &Vec<String>)
        requires
            old(self).wf(),
            place < old(self)@.len(),
        ensures
            final(self)@ == old(self)@.update(
                place as int,
                RowModel {
                    ngrams: merged(old(self)@[place as int].ngrams, string_views(grams@)),
                    ..old(self)@[place as int]
                },
            ),
            final(self).wf(),
    {
        let ghost before = self@;
        let ghost fresh = string_views(grams@);
        let mut row = self.rows[place].clone();
        let ghost known = row@.ngrams;
        let mut seen = text_set(&row.ngrams);
        let mut i: usize = 0;
        assert(fresh.take(0) =~= Seq::<Seq<char>>::empty());
        while i < grams.len()
            invariant
                i <= grams@.len(),
                fresh == string_views(grams@),
                row@ == (RowModel { ngrams: merged(known, fresh.take(i as int)), ..row@ }),
                row@ == (RowModel { ngrams: row@.ngrams, ..before[place as int] }),
                holds_all(seen@, row@.ngrams),
                before == self@,
                place < before.len(),
            decreases grams@.len() - i,
        {
            let ghost sofar = row@.ngrams;
            proof {
                assert(fresh.take(i + 1).drop_last() =~= fresh.take(i as int));
                assert(fresh.take(i + 1).last() == grams@[i as int]@);
            }
            if !seen.contains(grams[i].as_str()) {
                let ghost had = seen@;
                seen.insert(grams[i].clone());
                row.ngrams.push(grams[i].clone());
                proof {
                    assert(row@.ngrams =~= sofar.push(grams@[i as int]@));
                    lemma_holds_one_more(had, sofar, grams@[i as int]@);
                }
            }
            i += 1;
        }
        proof {
            assert(fresh.take(grams@.len() as int) =~= fresh);
            assert(before[place as int] == self.rows@[place as int]@);
            assert(before[place as int].ok());
            lemma_merged(known, fresh);
            lemma_update_keeps_schema(before, place as int, row@);
        }
        self.rows.set(place, row);
        assert(self@ =~= before.update(place as int, row@));
    }
}

/// Taking the variants of a name away leaves the other names distinct.
pub proof fn lemma_without_keeps_names_distinct(variants: Seq<VariantModel>, name: Seq<char>)
    requires
        variant_names(variants).no_duplicates(),
    ensures
        variant_names(variants_without(variants, name)).no_duplicates(),
        !variant_names(variants_without(variants, name)).contains(name),
    decreases variants.len(),
{
    reveal(Seq::filter);
    let keep = |v: VariantModel| v.name != name;
    if variants.len() > 0 {
        let front = variants.drop_last();
        let last = variants.last();
        assert(variant_names(front) =~= variant_names(variants).drop_last());
        assert(variant_names(front).no_duplicates()) by {
            assert forall|i: int, j: int|
                0 <= i < front.len() && 0 <= j < front.len() && i != j implies variant_names(
                front,
            )[i] != variant_names(front)[j] by {
                assert(variant_names(variants)[i] != variant_names(variants)[j]);
            }
        }
        lemma_without_keeps_names_distinct(front, name);
        let sub = front.filter(keep);
        let out = variants.filter(keep);
        if keep(last) {
            assert forall|i: int, j: int|
                0 <= i < out.len() && 0 <= j < out.len() && i != j implies variant_names(out)[i]
                != variant_names(out)[j] by {
                if i < sub.len() && j < sub.len() {
                    assert(variant_names(sub)[i] != variant_names(sub)[j]);
                } else {
                    let k = if i < sub.len() {
                        i
                    } else {
                        j
                    };
                    front.lemma_filter_contains_rev(keep, sub[k]);
                    let a = choose|a: int| 0 <= a < front.len() && front[a] == sub[k];
                    assert(variant_names(variants)[a] != variant_names(variants)[variants.len()
                        - 1]);
                }
            }
            assert forall|i: int| 0 <= i < out.len() implies variant_names(out)[i] != name by {
                if i < sub.len() {
                    assert(variant_names(sub)[i] == variant_names(out)[i]);
                    assert(!variant_names(sub).contains(name));
                }
            }
        } else {
            assert(out == sub);
        }
    }
}

/// The frecency of the resource of a row as seen at `now`.
pub open spec fn row_frecency(row: RowModel, now: i64) -> nat {
    row.stored_scorer().frecency(now)
}

/// The frecency of each row as seen at `now`.
pub open spec fn frecency_keys(rows: Seq<RowModel>, now: i64) -> Seq<int> {
    Seq::new(rows.len(), |i: int| row_frecency(rows[i], now) as int)
}

/// The time at which each row was last modified.
pub open spec fn modified_keys(rows: Seq<RowModel>) -> Seq<int> {
    Seq::new(rows.len(), |i: int| rows[i].modified as int)
}

/// For each row, whether `want` holds of it.
pub open spec fn wanted_rows(rows: Seq<RowModel>, want: spec_fn(RowModel) -> bool) -> Seq<bool> {
    Seq::new(rows.len(), |i: int| want(rows[i]))
}

/// The identifiers of the rows at the places of a list, each with its
/// frecency as seen at `now`.
pub open spec fn scored(rows: Seq<RowModel>, order: Seq<int>, now: i64) -> Seq<(Seq<char>, u32)> {
    order.map_values(|i: int| (rows[i].id, row_frecency(rows[i], now) as u32))
}

/// The identifiers of the rows at the places of a list.
pub open spec fn listed(rows: Seq<RowModel>, order: Seq<int>) -> Seq<Seq<char>> {
    order.map_values(|i: int| rows[i].id)
}

/// What a list of identifiers with their frecency holds.
pub open spec fn frec_views(pairs: Seq<IdFrec>) -> Seq<(Seq<char>, u32)> {
    pairs.map_values(|pair: IdFrec| pair@)
}

/// Whether a row has every key of a list among its n-grams and, if a tag
/// is asked for, that tag.
pub open spec fn row_matches(row: RowModel, keys: Seq<Seq<char>>, tag: Option<Seq<char>>) -> bool {
    &&& forall|k: int| 0 <= k < keys.len() ==> row.ngrams.contains(#[trigger] keys[k])
    &&& tag matches Some(t) ==> row.tags.contains(t)
}

/// Whether a row has a name and, if a tag is asked for, that tag.
pub open spec fn row_named(row: RowModel, name: Seq<char>, tag: Option<Seq<char>>) -> bool {
    &&& row.name == name
    &&& tag matches Some(t) ==> row.tags.contains(t)
}

/// The `count` resources of the highest frecency as seen at `now`, the
/// highest first, each with its frecency.
pub open spec fn top_rows(rows: Seq<RowModel>, count: nat, now: i64) -> Seq<(Seq<char>, u32)> {
    scored(
        rows,
        first_of(
            ranking_of(frecency_keys(rows, now), wanted_rows(rows, |row: RowModel| true)),
            count,
        ),
        now,
    )
}

/// The `count` resources that were modified last, the latest first, each
/// with its frecency as seen at `now`.
pub open spec fn latest_rows(rows: Seq<RowModel>, count: nat, now: i64) -> Seq<(Seq<char>, u32)> {
    scored(
        rows,
        first_of(ranking_of(modified_keys(rows), wanted_rows(rows, |row: RowModel| true)), count),
        now,
    )
}

/// The resources of a name and, if one is asked for, of a tag, by
/// frecency as seen at `now`, the highest first.
pub open spec fn named_rows(
    rows: Seq<RowModel>,
    name: Seq<char>,
    tag: Option<Seq<char>>,
    now: i64,
) -> Seq<Seq<char>> {
    listed(
        rows,
        ranking_of(
            frecency_keys(rows, now),
            wanted_rows(rows, |row: RowModel| row_named(row, name, tag)),
        ),
    )
}

/// The resources of a tag by frecency as seen at `now`, the highest first.
pub open spec fn tagged_rows(rows: Seq<RowModel>, tag: Seq<char>, now: i64) -> Seq<Seq<char>> {
    listed(
        rows,
        ranking_of(
            frecency_keys(rows, now),
            wanted_rows(rows, |row: RowModel| row.tags.contains(tag)),
        ),
    )
}

/// The resources that have every key of a list among their n-grams and,
/// if one is asked for, a tag, by frecency as seen at `now`, the highest
/// first, each with its frecency.
pub open spec fn matching_rows(
    rows: Seq<RowModel>,
    keys: Seq<Seq<char>>,
    tag: Option<Seq<char>>,
    now: i64,
) -> Seq<(Seq<char>, u32)> {
    scored(
        rows,
        ranking_of(
            frecency_keys(rows, now),
            wanted_rows(rows, |row: RowModel| row_matches(row, keys, tag)),
        ),
        now,
    )
}

/// The text of an optional string.
pub open spec fn option_view(text: Option<&str>) -> Option<Seq<char>> {
    match text {
        Some(t) => Some(t@),
        None => None,
    }
}

impl Index {
    /// The frecency of the resource at a place as seen at `now`.
    pub fn frecency_at(&self, place: usize, now: i64) -> (frecency: u32)
        requires
            place < self@.len(),
        ensures
            frecency == row_frecency(self@[place as int], now),
    {
        assert(self@[place as int] == self.rows@[place as int]@);
        Scorer::from_binary(self.rows[place].scorer.as_slice()).frecency_at(now)
    }

    /// The time at which the resource at a place was last modified.
    pub fn modified_at(&self, place: usize) -> (modified: i64)
        requires
            place < self@.len(),
        ensures
            modified == self@[place as int].modified,
    {
        assert(self@[place as int] == self.rows@[place as int]@);
        self.rows[place].modified
    }

    /// Whether the resource at a place has a tag.
    pub fn tagged_at(&self, place: usize, tag: &str) -> (tagged: bool)
        requires
            place < self@.len(),
        ensures
            tagged == self@[place as int].tags.contains(tag@),
    {
        assert(self@[place as int] == self.rows@[place as int]@);
        contains_text(&self.rows[place].tags, tag)
    }

    /// Whether the resource at a place has a name.
    pub fn named_at(&self, place: usize, name: &str) -> (named: bool)
        requires
            place < self@.len(),
        ensures
            named == (self@[place as int].name == name@),
    {
        assert(self@[place as int] == self.rows@[place as int]@);
        crate::strings::same_text(self.rows[place].name.as_str(), name)
    }

    /// Whether the resource at a place has an n-gram.
    pub fn ngram_at(&self, place: usize, gram: &str) -> (found: bool)
        requires
            place < self@.len(),
        ensures
            found == self@[place as int].ngrams.contains(gram@),
    {
        assert(self@[place as int] == self.rows@[place as int]@);
        contains_text(&self.rows[place].ngrams, gram)
    }

    /// Whether the resource at a place has a tag, if one is asked for.
    fn tag_fits(&self, place: usize, tag: Option<&str>) -> (fits: bool)
        requires
            place < self@.len(),
        ensures
            fits == (option_view(tag) matches Some(t) ==> self@[place as int].tags.contains(t)),
    {
        match tag {
            Some(t) => self.tagged_at(place, t),
            None => true,
        }
    }

    /// The frecency of each resource as seen at `now`.
    fn frecency_column(&self, now: i64) -> (keys: Vec<i64>)
        ensures
            key_values(keys@) == frecency_keys(self@, now),
            keys@.len() == self@.len(),
    {
        let mut keys: Vec<i64> = Vec::new();
        let mut i: usize = 0;
        while i < self.rows.len()
            invariant
                i <= self.rows@.len(),
                self@.len() == self.rows@.len(),
                keys@.len() == i,
                forall|j: int| 0 <= j < i ==> keys@[j] == row_frecency(self@[j], now),
            decreases self.rows@.len() - i,
        {
            keys.push(self.frecency_at(i, now) as i64);
            i += 1;
        }
        assert(key_values(keys@) =~= frecency_keys(self@, now));
        keys
    }

    /// The time at which each resource was last modified.
    fn modified_column(&self) -> (keys: Vec<i64>)
        ensures
            key_values(keys@) == modified_keys(self@),
            keys@.len() == self@.len(),
    {
        let mut keys: Vec<i64> = Vec::new();
        let mut i: usize = 0;
        while i < self.rows.len()
            invariant
                i <= self.rows@.len(),
                self@.len() == self.rows@.len(),
                keys@.len() == i,
                forall|j: int| 0 <= j < i ==> keys@[j] == self@[j].modified,
            decreases self.rows@.len() - i,
        {
            keys.push(self.modified_at(i));
            i += 1;
        }
        assert(key_values(keys@) =~= modified_keys(self@));
        keys
    }

    /// The identifiers of the first `limit` resources of a ranking, each
    /// with its frecency as seen at `now`.
    fn scored_rows(&self, order: &Vec<usize>, limit: usize, now: i64) -> (pairs: Vec<IdFrec>)
        requires
            forall|k: int| 0 <= k < order@.len() ==> (#[trigger] order@[k]) < self@.len(),
        ensures
            frec_views(pairs@) == scored(self@, first_of(places(order@), limit as nat), now),
    {
        let n = if order.len() <= limit {
            order.len()
        } else {
            limit
        };
        let mut pairs: Vec<IdFrec> = Vec::new();
        let mut i: usize = 0;
        while i < n
            invariant
                i <= n <= order@.len(),
                pairs@.len() == i,
                forall|k: int| 0 <= k < order@.len() ==> (#[trigger] order@[k]) < self@.len(),
                forall|j: int|
                    0 <= j < i ==> (#[trigger] pairs@[j])@ == (
                        self@[order@[j] as int].id,
                        row_frecency(self@[order@[j] as int], now) as u32,
                    ),
            decreases n - i,
        {
            let place = order[i];
            let id = self.id_at(place);
            pairs.push(IdFrec::new(&id, self.frecency_at(place, now)));
            i += 1;
        }
        assert(frec_views(pairs@) =~= scored(self@, first_of(places(order@), limit as nat), now));
        pairs
    }

    /// The identifiers of the resources of a ranking.
    fn listed_rows(&self, order: &Vec<usize>) -> (ids: Vec<ResourceId>)
        requires
            forall|k: int| 0 <= k < order@.len() ==> (#[trigger] order@[k]) < self@.len(),
        ensures
            id_views(ids@) == listed(self@, places(order@)),
    {
        let mut ids: Vec<ResourceId> = Vec::new();
        let mut i: usize = 0;
        while i < order.len()
            invariant
                i <= order@.len(),
                ids@.len() == i,
                forall|k: int| 0 <= k < order@.len() ==> (#[trigger] order@[k]) < self@.len(),
                forall|j: int| 0 <= j < i ==> (#[trigger] ids@[j])@ == self@[order@[j] as int].id,
            decreases order@.len() - i,
        {
            ids.push(self.id_at(order[i]));
            i += 1;
        }
        assert(id_views(ids@) =~= listed(self@, places(order@)));
        ids
    }

    /// Ranks the wanted resources by a key.
    fn ranked(&self, keys: &Vec<i64>, wanted: &Vec<bool>) -> (order: Vec<usize>)
        requires
            keys@.len() == self@.len(),
            wanted@.len() == self@.len(),
        ensures
            places(order@) == ranking_of(key_values(keys@), wanted@),
            forall|k: int| 0 <= k < order@.len() ==> (#[trigger] order@[k]) < self@.len(),
    {
        let order = rank(keys, wanted);
        proof {
            let found = places(order@);
            lemma_ranking_unique(found, ranking_of(key_values(keys@), wanted@), key_values(keys@), wanted@);
            assert forall|k: int| 0 <= k < order@.len() implies (#[trigger] order@[k]) < self@.len() by {
                assert(0 <= found[k] < key_values(keys@).len());
            }
        }
        order
    }

    /// For each resource, whether it is wanted.
    fn every_row(&self) -> (wanted: Vec<bool>)
        ensures
            wanted@ == wanted_rows(self@, |row: RowModel| true),
    {
        let mut wanted: Vec<bool> = Vec::new();
        let mut i: usize = 0;
        while i < self.rows.len()
            invariant
                i <= self.rows@.len(),
                self@.len() == self.rows@.len(),
                wanted@.len() == i,
                forall|j: int| 0 <= j < i ==> wanted@[j],
            decreases self.rows@.len() - i,
        {
            wanted.push(true);
            i += 1;
        }
        assert(wanted@ =~= wanted_rows(self@, |row: RowModel| true));
        wanted
    }

    /// The `count` resources of the highest frecency as seen at `now`, the
    /// highest first.
    pub fn top_by_frecency(&self, count: u32, now: i64) -> (pairs: Vec<IdFrec>)
        ensures
            frec_views(pairs@) == top_rows(self@, count as nat, now),
    {
        let keys = self.frecency_column(now);
        let wanted = self.every_row();
        let order = self.ranked(&keys, &wanted);
        self.scored_rows(&order, count as usize, now)
    }

    /// The `count` resources that were modified last, the latest first,
    /// each with its frecency as seen at `now`.
    pub fn last_modified(&self, count: u32, now: i64) -> (pairs: Vec<IdFrec>)
        ensures
            frec_views(pairs@) == latest_rows(self@, count as nat, now),
    {
        let keys = self.modified_column();
        let wanted = self.every_row();
        let order = self.ranked(&keys, &wanted);
        self.scored_rows(&order, count as usize, now)
    }

    /// The resources of a name and, if one is asked for, of a tag, by
    /// frecency as seen at `now`, the highest first.
    pub fn by_name(&self, name: &str, tag: Option<&str>, now: i64) -> (ids: Vec<ResourceId>)
        ensures
            id_views(ids@) == named_rows(self@, name@, option_view(tag), now),
    {
        let keys = self.frecency_column(now);
        let mut wanted: Vec<bool> = Vec::new();
        let mut i: usize = 0;
        while i < self.rows.len()
            invariant
                i <= self.rows@.len(),
                self@.len() == self.rows@.len(),
                wanted@.len() == i,
                forall|j: int|
                    0 <= j < i ==> wanted@[j] == row_named(self@[j], name@, option_view(tag)),
            decreases self.rows@.len() - i,
        {
            let fits = self.named_at(i, name) && self.tag_fits(i, tag);
            wanted.push(fits);
            i += 1;
        }
        assert(wanted@ =~= wanted_rows(
            self@,
            |row: RowModel| row_named(row, name@, option_view(tag)),
        ));
        let order = self.ranked(&keys, &wanted);
        self.listed_rows(&order)
    }

    /// The resources of a tag by frecency as seen at `now`, the highest
    /// first.
    pub fn by_tag(&self, tag: &str, now: i64) -> (ids: Vec<ResourceId>)
        ensures
            id_views(ids@) == tagged_rows(self@, tag@, now),
    {
        let keys = self.frecency_column(now);
        let mut wanted: Vec<bool> = Vec::new();
        let mut i: usize = 0;
        while i < self.rows.len()
            invariant
                i <= self.rows@.len(),
                self@.len() == self.rows@.len(),
                wanted@.len() == i,
                forall|j: int| 0 <= j < i ==> wanted@[j] == self@[j].tags.contains(tag@),
            decreases self.rows@.len() - i,
        {
            wanted.push(self.tagged_at(i, tag));
            i += 1;
        }
        assert(wanted@ =~= wanted_rows(self@, |row: RowModel| row.tags.contains(tag@)));
        let order = self.ranked(&keys, &wanted);
        self.listed_rows(&order)
    }

    /// The place of the child of a parent that has a name.
    pub fn child_by_name(&self, parent: &ResourceId, name: &str) -> (place: Option<usize>)
        ensures
            match place {
                Some(i) => i < self@.len() && self@[i as int].parent == parent@
                    && self@[i as int].name == name@,
                None => !sibling_taken(self@, parent@, name@),
            },
    {
        let mut i: usize = 0;
        while i < self.rows.len()
            invariant
                i <= self.rows@.len(),
                self@.len() == self.rows@.len(),
                forall|j: int|
                    0 <= j < i ==> !((#[trigger] self@[j]).parent == parent@ && self@[j].name
                        == name@),
            decreases self.rows@.len() - i,
        {
            assert(self@[i as int] == self.rows@[i as int]@);
            if self.rows[i].parent.same(parent) && self.named_at(i, name) {
                return Some(i);
            }
            i += 1;
        }
        None
    }

    /// The resources that have every key of a list among their n-grams
    /// and, if one is asked for, a tag, by frecency as seen at `now`, the
    /// highest first.
    pub fn search(&self, keys: &Vec<String>, tag: Option<&str>, now: i64) -> (pairs: Vec<IdFrec>)
        ensures
            frec_views(pairs@) == matching_rows(self@, string_views(keys@), option_view(tag), now),
    {
        let column = self.frecency_column(now);
        let mut wanted: Vec<bool> = Vec::new();
        let mut i: usize = 0;
        while i < self.rows.len()
            invariant
                i <= self.rows@.len(),
                self@.len() == self.rows@.len(),
                wanted@.len() == i,
                forall|j: int|
                    0 <= j < i ==> wanted@[j] == row_matches(
                        self@[j],
                        string_views(keys@),
                        option_view(tag),
                    ),
            decreases self.rows@.len() - i,
        {
            let mut all = self.tag_fits(i, tag);
            let mut k: usize = 0;
            while all && k < keys.len()
                invariant
                    i < self@.len(),
                    k <= keys@.len(),
                    all ==> (option_view(tag) matches Some(t) ==> self@[i as int].tags.contains(t)),
                    all ==> forall|a: int|
                        0 <= a < k ==> self@[i as int].ngrams.contains(
                            #[trigger] string_views(keys@)[a],
                        ),
                    !all ==> !row_matches(self@[i as int], string_views(keys@), option_view(tag)),
                decreases keys@.len() - k + (if all { 1int } else { 0int }),
            {
                if !self.ngram_at(i, keys[k].as_str()) {
                    assert(!self@[i as int].ngrams.contains(string_views(keys@)[k as int]));
                    all = false;
                } else {
                    k += 1;
                }
            }
            wanted.push(all);
            i += 1;
        }
        assert(wanted@ =~= wanted_rows(
            self@,
            |row: RowModel| row_matches(row, string_views(keys@), option_view(tag)),
        ));
        let order = self.ranked(&column, &wanted);
        let pairs = self.scored_rows(&order, order.len(), now);
        assert(first_of(places(order@), order@.len() as nat) == places(order@));
        pairs
    }
}

/// The children of a resource are the resources of the rows that are its
/// children.
pub proof fn lemma_children(rows: Seq<RowModel>, parent: Seq<char>)
    requires
        schema_ok(rows),
    ensures
        forall|k: int|
            0 <= k < children(rows, parent).len() ==> has_id(
                rows,
                #[trigger] children(rows, parent)[k],
            ) && rows[position(rows, children(rows, parent)[k])].is_child_of(parent),
        forall|j: int|
            0 <= j < rows.len() && (#[trigger] rows[j]).is_child_of(parent) ==> children(
                rows,
                parent,
            ).contains(rows[j].id),
{
    let keep = |row: RowModel| row.is_child_of(parent);
    let sub = rows.filter(keep);
    let kids = children(rows, parent);
    lemma_filter_rows(rows, keep);
    assert forall|k: int| 0 <= k < kids.len() implies has_id(rows, #[trigger] kids[k]) && rows[position(
        rows,
        kids[k],
    )].is_child_of(parent) by {
        assert(rows.contains(sub[k]));
        let i = choose|i: int| 0 <= i < rows.len() && rows[i] == sub[k];
        assert(rows[i].id == kids[k]);
        let p = position(rows, kids[k]);
        if p != i {
            assert(rows[p].id != rows[i].id);
        }
    }
    assert forall|j: int| 0 <= j < rows.len() && (#[trigger] rows[j]).is_child_of(
        parent,
    ) implies kids.contains(rows[j].id) by {
        assert(sub.contains(rows[j]));
        let k = choose|k: int| 0 <= k < sub.len() && sub[k] == rows[j];
        assert(kids[k] == rows[j].id);
    }
}

/// Two filters that agree on the rows keep the same rows.
pub proof fn lemma_filter_same(
    rows: Seq<RowModel>,
    one: spec_fn(RowModel) -> bool,
    other: spec_fn(RowModel) -> bool,
)
    requires
        forall|i: int| 0 <= i < rows.len() ==> one(#[trigger] rows[i]) == other(rows[i]),
    ensures
        rows.filter(one) == rows.filter(other),
    decreases rows.len(),
{
    reveal(Seq::filter);
    if rows.len() > 0 {
        let front = rows.drop_last();
        assert forall|i: int| 0 <= i < front.len() implies one(#[trigger] front[i]) == other(
            front[i],
        ) by {
            assert(front[i] == rows[i]);
        }
        lemma_filter_same(front, one, other);
        assert(one(rows[rows.len() - 1]) == other(rows[rows.len() - 1]));
    }
}

/// A row that joins the rows leaves the others where they were.
pub proof fn lemma_push_keeps_rows(rows: Seq<RowModel>, row: RowModel, id: Seq<char>)
    requires
        schema_ok(rows.push(row)),
        has_id(rows, id),
    ensures
        has_id(rows.push(row), id),
        position(rows.push(row), id) == position(rows, id),
        rows.push(row)[position(rows, id)] == rows[position(rows, id)],
{
    let after = rows.push(row);
    let p = position(rows, id);
    assert(after[p] == rows[p]);
    let q = position(after, id);
    if q != p {
        assert(after[q].id != after[p].id);
    }
}

/// A row is found at the end of the rows that it has joined.
pub proof fn lemma_push_position(rows: Seq<RowModel>, row: RowModel)
    requires
        schema_ok(rows.push(row)),
    ensures
        has_id(rows.push(row), row.id),
        position(rows.push(row), row.id) == rows.len(),
{
    let after = rows.push(row);
    let last = rows.len() as int;
    assert(after[last].id == row.id);
    let q = position(after, row.id);
    if q != last {
        assert(after[q].id != after[last].id);
    }
}

/// With one row for each identifier, the row at a place is the row of its
/// identifier.
pub proof fn lemma_row_position(rows: Seq<RowModel>, place: int)
    requires
        schema_ok(rows),
        0 <= place < rows.len(),
    ensures
        has_id(rows, rows[place].id),
        position(rows, rows[place].id) == place,
{
    let q = position(rows, rows[place].id);
    if q != place {
        assert(rows[q].id != rows[place].id);
    }
}

/// A change of one row leaves the rows where they were.
pub proof fn lemma_update_keeps_rows(rows: Seq<RowModel>, place: int, row: RowModel, id: Seq<char>)
    requires
        schema_ok(rows),
        schema_ok(rows.update(place, row)),
        0 <= place < rows.len(),
        row.id == rows[place].id,
    ensures
        has_id(rows, id) == has_id(rows.update(place, row), id),
        has_id(rows, id) ==> position(rows.update(place, row), id) == position(rows, id),
{
    let after = rows.update(place, row);
    if has_id(rows, id) {
        let p = position(rows, id);
        assert(after[p].id == id);
        lemma_row_position(after, p);
    }
    if has_id(after, id) {
        let q = position(after, id);
        assert(rows[q].id == id);
    }
}

/// Merging a list without repetitions into an empty list gives the list.
pub proof fn lemma_merged_fresh(fresh: Seq<Seq<char>>)
    requires
        fresh.no_duplicates(),
    ensures
        merged(Seq::empty(), fresh) == fresh,
    decreases fresh.len(),
{
    if fresh.len() > 0 {
        let front = fresh.drop_last();
        lemma_merged_fresh(front);
        if front.contains(fresh.last()) {
            let i = choose|i: int| 0 <= i < front.len() && front[i] == fresh.last();
            assert(fresh[i] == fresh[fresh.len() - 1]);
        }
        assert(front.push(fresh.last()) =~= fresh);
    } else {
        assert(fresh =~= Seq::<Seq<char>>::empty());
    }
}

/// Whether some rows are other rows with more rows after them.
pub open spec fn extends(after: Seq<RowModel>, before: Seq<RowModel>) -> bool {
    before.len() <= after.len() && after.take(before.len() as int) == before
}

/// Whether some rows are other rows with, after them, rows of resources of
/// a list, and of no other resource.
pub open spec fn grows_by(after: Seq<RowModel>, before: Seq<RowModel>, ids: Seq<Seq<char>>) -> bool {
    &&& extends(after, before)
    &&& forall|i: int| before.len() <= i < after.len() ==> ids.contains((#[trigger] after[i]).id)
}

/// Rows grow from themselves by nothing.
pub proof fn lemma_grows_self(rows: Seq<RowModel>, ids: Seq<Seq<char>>)
    ensures
        grows_by(rows, rows, ids),
{
    assert(rows.take(rows.len() as int) =~= rows);
}

/// Rows that grew by the resources of one list, and then by those of
/// another, grew by the resources of a list that holds both.
pub proof fn lemma_grows_twice(
    before: Seq<RowModel>,
    mid: Seq<RowModel>,
    after: Seq<RowModel>,
    first: Seq<Seq<char>>,
    second: Seq<Seq<char>>,
    ids: Seq<Seq<char>>,
)
    requires
        grows_by(mid, before, first),
        grows_by(after, mid, second),
        forall|x: Seq<char>| first.contains(x) || second.contains(x) ==> ids.contains(x),
    ensures
        grows_by(after, before, ids),
{
    lemma_extends_twice(before, mid, after);
    assert forall|i: int| before.len() <= i < after.len() implies ids.contains(
        (#[trigger] after[i]).id,
    ) by {
        if i < mid.len() {
            assert(after.take(mid.len() as int)[i] == after[i]);
            assert(first.contains(mid[i].id));
        } else {
            assert(second.contains(after[i].id));
        }
    }
}

/// In rows that grew, every resource was there before or is of the list.
pub proof fn lemma_grown_ids(
    before: Seq<RowModel>,
    after: Seq<RowModel>,
    ids: Seq<Seq<char>>,
    id: Seq<char>,
)
    requires
        grows_by(after, before, ids),
        has_id(after, id),
    ensures
        has_id(before, id) || ids.contains(id),
{
    let i = choose|i: int| 0 <= i < after.len() && #[trigger] after[i].id == id;
    if i < before.len() {
        assert(after.take(before.len() as int)[i] == after[i]);
        assert(before[i].id == id);
    }
}

/// What some rows hold is held by rows that extend them.
pub proof fn lemma_extends_keeps_rows(before: Seq<RowModel>, after: Seq<RowModel>, id: Seq<char>)
    requires
        schema_ok(after),
        extends(after, before),
        has_id(before, id),
    ensures
        has_id(after, id),
        after[position(after, id)] == before[position(before, id)],
{
    let p = position(before, id);
    assert(after.take(before.len() as int)[p] == after[p]);
    lemma_row_position(after, p);
}

/// Extending is transitive.
pub proof fn lemma_extends_twice(a: Seq<RowModel>, b: Seq<RowModel>, c: Seq<RowModel>)
    requires
        extends(b, a),
        extends(c, b),
    ensures
        extends(c, a),
{
    assert(c.take(a.len() as int) =~= a) by {
        assert forall|i: int| 0 <= i < a.len() implies c[i] == a[i] by {
            assert(b.take(a.len() as int)[i] == b[i]);
            assert(c.take(b.len() as int)[i] == c[i]);
        }
    }
}

/// The sizes of the variants of a list, added up.
pub open spec fn variants_size(variants: Seq<VariantModel>) -> nat
    decreases variants.len(),
{
    if variants.len() == 0 {
        0
    } else {
        variants_size(variants.drop_last()) + variants.last().size as nat
    }
}

impl Index {
    /// The sizes of the variants of the resource at a place, added up, if
    /// the sum fits in 64 bits.
    pub fn variants_size_at(&self, place: usize) -> (size: Option<u64>)
        requires
            place < self@.len(),
        ensures
            match size {
                Some(sum) => sum == variants_size(self@[place as int].variants),
                None => variants_size(self@[place as int].variants) > u64::MAX,
            },
    {
        assert(self@[place as int] == self.rows@[place as int]@);
        let variants = &self.rows[place].variants;
        let ghost models = variant_models(variants@);
        let mut sum: u64 = 0;
        let mut i: usize = 0;
        assert(models.take(0) =~= Seq::<VariantModel>::empty());
        while i < variants.len()
            invariant
                i <= variants@.len(),
                place < self@.len(),
                models == variant_models(variants@),
                models == self@[place as int].variants,
                sum == variants_size(models.take(i as int)),
            decreases variants@.len() - i,
        {
            let size = variants[i].size() as u64;
            proof {
                assert(models.take(i + 1).drop_last() =~= models.take(i as int));
                assert(models.take(i + 1).last() == variants@[i as int]@);
            }
            if sum > u64::MAX - size {
                proof {
                    lemma_variants_size_grows(models, i + 1);
                }
                return None;
            }
            sum = sum + size;
            i += 1;
        }
        assert(models.take(variants@.len() as int) =~= models);
        Some(sum)
    }
}

/// The sum of the sizes of the first variants of a list is at most the
/// sum of all.
pub proof fn lemma_variants_size_grows(variants: Seq<VariantModel>, upto: int)
    requires
        0 <= upto <= variants.len(),
    ensures
        variants_size(variants.take(upto)) <= variants_size(variants),
    decreases variants.len() - upto,
{
    if upto < variants.len() {
        lemma_variants_size_grows(variants, upto + 1);
        assert(variants.take(upto + 1).drop_last() =~= variants.take(upto));
    } else {
        assert(variants.take(upto) =~= variants);
    }
}

/// The identifiers of a list of identifiers with their frecency.
pub open spec fn found_ids(pairs: Seq<(Seq<char>, u32)>) -> Seq<Seq<char>> {
    pairs.map_values(|pair: (Seq<char>, u32)| pair.0)
}

/// A search finds a resource exactly if the resource has every key among
/// its n-grams and, if a tag is asked for, the tag. It finds no resource
/// twice.
pub proof fn lemma_search_finds_matches(
    rows: Seq<RowModel>,
    keys: Seq<Seq<char>>,
    tag: Option<Seq<char>>,
    now: i64,
)
    requires
        schema_ok(rows),
    ensures
        forall|id: Seq<char>|
            found_ids(matching_rows(rows, keys, tag, now)).contains(id) <==> has_id(rows, id)
                && row_matches(rows[position(rows, id)], keys, tag),
        found_ids(matching_rows(rows, keys, tag, now)).no_duplicates(),
{
    let want = |row: RowModel| row_matches(row, keys, tag);
    let wanted = wanted_rows(rows, want);
    let order = ranking_of(frecency_keys(rows, now), wanted);
    let found = found_ids(matching_rows(rows, keys, tag, now));
    lemma_ranking_of(frecency_keys(rows, now), wanted);
    assert forall|k: int| 0 <= k < found.len() implies found[k] == rows[order[k]].id by {}
    assert forall|id: Seq<char>| found.contains(id) <==> has_id(rows, id) && row_matches(
        rows[position(rows, id)],
        keys,
        tag,
    ) by {
        if found.contains(id) {
            let k = choose|k: int| 0 <= k < found.len() && found[k] == id;
            assert(order.contains(order[k]));
            lemma_row_position(rows, order[k]);
        }
        if has_id(rows, id) && row_matches(rows[position(rows, id)], keys, tag) {
            let i = position(rows, id);
            assert(wanted[i]);
            assert(order.contains(i));
            let k = choose|k: int| 0 <= k < order.len() && order[k] == i;
            assert(found[k] == id);
        }
    }
    assert forall|a: int, b: int| 0 <= a < found.len() && 0 <= b < found.len() && a
        != b implies found[a] != found[b] by {
        assert(order[a] != order[b]);
        assert(order.contains(order[a]) && order.contains(order[b]));
        assert(rows[order[a]].id != rows[order[b]].id);
    }
}

/// Whether the full-text table holds an n-gram for a resource.
pub open spec fn has_ngram(rows: Seq<RowModel>, id: Seq<char>, gram: Seq<char>) -> bool {
    exists|i: int| 0 <= i < rows.len() && (#[trigger] rows[i]).id == id && rows[i].ngrams.contains(gram)
}

/// An n-gram of the full-text table belongs to a resource of the index,
/// and the table holds it once for the resource.
pub proof fn lemma_ngrams_have_resources(rows: Seq<RowModel>, id: Seq<char>, gram: Seq<char>)
    requires
        schema_ok(rows),
        has_ngram(rows, id, gram),
    ensures
        has_id(rows, id),
        rows[position(rows, id)].ngrams.contains(gram),
        rows[position(rows, id)].ngrams.no_duplicates(),
{
    let i = choose|i: int| 0 <= i < rows.len() && (#[trigger] rows[i]).id == id && rows[i].ngrams.contains(gram);
    lemma_row_position(rows, i);
    assert(rows[i].ok());
}


/// One row of the index as it is kept in the index file: the metadata of
/// a resource and its n-grams.
#[derive(Debug, PartialEq)]
pub struct IndexRecord {
    pub metadata: ResourceMetadata,
    pub ngrams: Vec<String>,
}

/// The row that a record stands for.
pub open spec fn record_row(record: IndexRecord) -> RowModel {
    RowModel { ngrams: string_views(record.ngrams@), ..RowModel::of(record.metadata@) }
}

/// The rows that a list of records stands for.
pub open spec fn record_rows(records: Seq<IndexRecord>) -> Seq<RowModel> {
    records.map_values(|record: IndexRecord| record_row(record))
}

/// Whether a list of records can be the content of an index: the scorers
/// are well formed and the rows obey the schema.
pub open spec fn records_ok(records: Seq<IndexRecord>) -> bool {
    &&& forall|i: int| 0 <= i < records.len() ==> (#[trigger] records[i]).metadata.wf()
    &&& schema_ok(record_rows(records))
}

/// Whether the texts of a list are all different.
fn distinct_texts(texts: &Vec<String>) -> (distinct: bool)
    ensures
        distinct == string_views(texts@).no_duplicates(),
{
    let ghost views = string_views(texts@);
    let mut i: usize = 0;
    while i < texts.len()
        invariant
            i <= texts@.len(),
            views == string_views(texts@),
            forall|a: int, b: int| 0 <= a < i && 0 <= b < a ==> views[a] != views[b],
        decreases texts@.len() - i,
    {
        let mut j: usize = 0;
        while j < i
            invariant
                j <= i < texts@.len(),
                views == string_views(texts@),
                forall|b: int| 0 <= b < j ==> views[i as int] != views[b],
            decreases i - j,
        {
            if texts[j] == texts[i] {
                assert(views[j as int] == views[i as int]);
                return false;
            }
            j += 1;
        }
        i += 1;
    }
    assert forall|a: int, b: int| 0 <= a < views.len() && 0 <= b < views.len() && a != b implies views[a]
        != views[b] by {
        if b < a {
        } else {
            assert(views[b] != views[a]);
        }
    }
    true
}

impl Index {
    /// The rows of the index as records, in the order of the rows.
    pub fn records(&self) -> (records: Vec<IndexRecord>)
        requires
            self.wf(),
        ensures
            record_rows(records@) == self@,
            records_ok(records@),
    {
        let mut records: Vec<IndexRecord> = Vec::new();
        let mut i: usize = 0;
        while i < self.rows.len()
            invariant
                i <= self.rows@.len(),
                self@.len() == self.rows@.len(),
                self.wf(),
                records@.len() == i,
                forall|j: int| 0 <= j < i ==> record_row(#[trigger] records@[j]) == self@[j],
                forall|j: int| 0 <= j < i ==> (#[trigger] records@[j]).metadata.wf(),
            decreases self.rows@.len() - i,
        {
            let metadata = self.metadata_at(i);
            let ngrams = clone_strings(&self.rows[i].ngrams);
            proof {
                let row = self@[i as int];
                assert(row == self.rows@[i as int]@);
                assert(row.ok());
                crate::scorer::lemma_decoding_wf(row.scorer);
            }
            records.push(IndexRecord { metadata, ngrams });
            i += 1;
        }
        assert(record_rows(records@) =~= self@);
        records
    }

    /// The index that a list of records stands for, if it stands for one.
    pub fn from_records(records: &Vec<IndexRecord>) -> (made: Result<Index, ResourceStoreError>)
        ensures
            match made {
                Ok(index) => records_ok(records@) && index.wf() && index@ == record_rows(records@),
                Err(error) => !records_ok(records@) && error.is_custom("InvalidIndexRecord"@),
            },
    {
        let ghost rows = record_rows(records@);
        let mut index = Index::new();
        let mut i: usize = 0;
        assert(index@ =~= rows.take(0));
        while i < records.len()
            invariant
                i <= records@.len(),
                rows == record_rows(records@),
                index.wf(),
                index@ == rows.take(i as int),
                forall|j: int| 0 <= j < i ==> (#[trigger] records@[j]).metadata.wf(),
            decreases records@.len() - i,
        {
            let record = &records[i];
            let ghost row = rows[i as int];
            assert(row == record_row(*record));
            let ghost before = index@;
            if !record.metadata.is_valid() || !distinct_texts(&record.ngrams) {
                proof {
                    if record.metadata.wf() {
                        assert(!row.ok());
                    }
                }
                return Err(ResourceStoreError::custom("InvalidIndexRecord"));
            }
            match index.insert(&record.metadata) {
                Ok(_) => {},
                Err(_) => {
                    proof {
                        if has_id(before, row.id) {
                            let j = choose|j: int|
                                0 <= j < before.len() && #[trigger] before[j].id == row.id;
                            assert(rows[j].id == rows[i as int].id);
                        } else if sibling_taken(before, row.parent, row.name) {
                            let j = choose|j: int|
                                0 <= j < before.len() && #[trigger] before[j].parent == row.parent
                                    && before[j].name == row.name;
                            assert(rows[j].parent == rows[i as int].parent);
                        } else {
                            assert(!row.ok());
                        }
                    }
                    return Err(ResourceStoreError::custom("InvalidIndexRecord"));
                },
            }
            proof {
                lemma_push_position(before, RowModel::of(record.metadata@));
                lemma_merged_fresh(string_views(record.ngrams@));
            }
            index.add_ngrams(i, &record.ngrams);
            assert(index@ =~= rows.take(i + 1));
            i += 1;
        }
        assert(rows.take(records@.len() as int) =~= rows);
        Ok(index)
    }
}

} // verus!
