//! The manager keeps an index of metadata coherent with a blob store.
//!
//! Every change is made in three steps: the index is changed in a
//! transaction, the blob store is asked to do its part, and the
//! transaction is committed only if the blob store succeeded. When a
//! resource is missing from the index, its metadata is fetched from the
//! blob store and put back in the index.
//!
//! The manager knows containers and leaves. So that the index can be
//! rebuilt, the payload of a container is the list of its children.

use crate::cache::{
    cache_clear, cache_entries, cache_get, cache_limit, cache_new, cache_pop, cache_put,
    MAX_CACHE_CAPACITY,
};
use crate::common::{
    is_random_uuid, variant_names, variants_without, IdFrec, MetadataModel, ResourceId,
    ResourceKind, ResourceMetadata, ResourceStore, ResourceStoreError, Variant, VariantContent,
    VariantModel, ROOT_ID_STR,
};
use crate::config::Config;
use crate::fts::{blank, is_blank, lookup_keys, ngrams_of, search_result, tag_view, Fts};
use crate::index::{
    children, contains_id, extends, found_ids, frec_views, grows_by, has_id, id_set, id_views,
    insertable, is_container, latest_rows, lemma_extends_keeps_rows, lemma_extends_twice,
    lemma_filter_all, lemma_filter_same, lemma_grows_self, lemma_grows_twice, lemma_merged_fresh,
    lemma_push_keeps_rows, lemma_push_position, lemma_row_position, lemma_search_finds_matches,
    lemma_update_keeps_rows, merged, named_rows, option_view, position, record_rows, records_ok,
    row_matches, rows_without, schema_ok, sibling_taken, tagged_rows, top_rows, Index, IndexRecord,
    RowModel,
};
use crate::indexer::Indexer;
use crate::listing::{child_list_bytes, child_list_ids, deserialize_children, serialize_children};
use crate::naming::{base_name, file_name, free_name, is_free_name, none_free};
use crate::paths::{
    all_held, held, is_climb, is_path, lemma_climb_push, lemma_climb_reversed, lemma_extends_self,
    lemma_held_after_extend, lemma_held_push, lemma_ids_push, metadata_ids, metadata_views,
    reversed,
};
use crate::scorer::{
    lemma_add_keeps_wf, lemma_decoding_wf, lemma_scorer_round_trip, lemma_visit_counts_and_raises,
    point, scorer_bytes, ScorerModel, VisitEntry, MAX_VISIT_COUNT, MAX_VISIT_ENTRIES,
};
use crate::strings::{holds_all, lemma_holds_one_more, string_views};
use crate::tree::{
    ancestor, climbs, comes_back, farther, has_child, least_climb, leaves_with, leaving_with,
    lemma_climbs_starts_inside, lemma_delete_keeps_tree, lemma_filter_found,
    lemma_filter_position, lemma_least_climb, lemma_least_climb_step, lemma_push_keeps_tree,
    lemma_replace_keeps_tree, lemma_subtree_size_grows, node_ok, reaches_root, rooted,
    rows_after_delete, rows_replaced, subtree_size, tree_ok, turns_back,
};
use lru::LruCache;
use vstd::hash_set::StringHashSet;
use vstd::prelude::*;

verus! {

/// The length of the longest piece of a token that is indexed.
pub const MAX_NGRAM: usize = 5;

/// The row of a resource that has entered the index: its n-grams are
/// those of its name.
pub open spec fn entered_row(metadata: MetadataModel) -> RowModel {
    RowModel { ngrams: ngrams_of(metadata.name, MAX_NGRAM as nat), ..RowModel::of(metadata) }
}

/// Whether a resource may have a parent in an index: the root is its own
/// parent; the parent of any other resource is another resource, a
/// container of the index.
pub open spec fn container_leaf_ok(rows: Seq<RowModel>, id: Seq<char>, parent: Seq<char>) -> bool {
    if id == ROOT_ID_STR@ {
        parent == id
    } else {
        parent != id && is_container(rows, parent)
    }
}

/// Checks in a state of the index that a resource may have a parent.
pub fn check_container_leaf_in(index: &Index, id: &ResourceId, parent: &ResourceId) -> (checked:
    Result<(), ResourceStoreError>)
    requires
        index.wf(),
    ensures
        match checked {
            Ok(_) => container_leaf_ok(index@, id@, parent@),
            Err(error) => !container_leaf_ok(index@, id@, parent@) && error is InvalidContainerId,
        },
{
    if id.is_root() {
        if parent.same(id) {
            Ok(())
        } else {
            Err(ResourceStoreError::InvalidContainerId)
        }
    } else if parent.same(id) || !index.is_container(parent) {
        Err(ResourceStoreError::InvalidContainerId)
    } else {
        Ok(())
    }
}

/// The metadata that the row of a resource stands for is the metadata with
/// which the resource entered the index.
pub proof fn lemma_entered_row_metadata(metadata: MetadataModel)
    requires
        metadata.scorer.wf(),
    ensures
        entered_row(metadata).metadata() == metadata,
        RowModel::of(metadata).metadata() == metadata,
{
    lemma_scorer_round_trip(metadata.scorer);
}

/// The row of a resource after a visit: the scorer column holds the scorer
/// with the visit added.
pub open spec fn visited_row(row: RowModel, entry: VisitEntry) -> RowModel {
    RowModel { scorer: scorer_bytes(row.stored_scorer().add(entry)), ..row }
}

/// A visit adds one to the count of the visits of a resource. Seen at one
/// instant, the frecency of the resource does not fall with the visit
/// while its log of visits is not full; once the log is full, it does not
/// fall if the visit is worth at least as much as the visit that leaves
/// the log.
pub proof fn lemma_visit_counts(row: RowModel, entry: VisitEntry, now: i64)
    requires
        row.ok(),
        row.stored_scorer().visit_count < MAX_VISIT_COUNT,
    ensures
        visited_row(row, entry).ok(),
        visited_row(row, entry).stored_scorer() == row.stored_scorer().add(entry),
        visited_row(row, entry).metadata().scorer.visit_count == row.metadata().scorer.visit_count
            + 1,
        row.stored_scorer().entries.len() < MAX_VISIT_ENTRIES || point(entry, now) >= point(
            row.stored_scorer().entries[0],
            now,
        ) ==> visited_row(row, entry).stored_scorer().frecency(now) >= row.stored_scorer().frecency(
            now,
        ),
{
    let scorer = row.stored_scorer();
    lemma_decoding_wf(row.scorer);
    lemma_add_keeps_wf(scorer, entry);
    lemma_scorer_round_trip(scorer.add(entry));
    lemma_visit_counts_and_raises(scorer, entry, now);
}

/// The n-grams of a resource after texts were indexed for it, one after
/// the other.
pub open spec fn with_texts(grams: Seq<Seq<char>>, texts: Seq<Seq<char>>) -> Seq<Seq<char>>
    decreases texts.len(),
{
    if texts.len() == 0 {
        grams
    } else {
        merged(with_texts(grams, texts.drop_last()), ngrams_of(texts.last(), MAX_NGRAM as nat))
    }
}

/// Whether rows grew by the rows of a container and of children of it,
/// and of no other resource, and by no more rows than that.
pub open spec fn fetched_only(
    after: Seq<RowModel>,
    before: Seq<RowModel>,
    id: Seq<char>,
    kids: Seq<MetadataModel>,
) -> bool {
    &&& grows_by(after, before, seq![id] + metadata_ids(kids))
    &&& after.len() <= before.len() + kids.len() + (if has_id(before, id) {
        0int
    } else {
        1int
    })
}

/// In an index that was empty, and to which a container and children of
/// it came back, every row stands for the container or for one of these
/// children, as it came back, and nothing else is in the index.
pub proof fn lemma_rebuilt_from_nothing(
    after: Seq<RowModel>,
    top: MetadataModel,
    kids: Seq<MetadataModel>,
)
    requires
        schema_ok(after),
        fetched_only(after, Seq::<RowModel>::empty(), top.id, kids),
        held(after, top),
        all_held(after, kids),
    ensures
        after.len() <= kids.len() + 1,
        forall|i: int|
            0 <= i < after.len() ==> (#[trigger] after[i]).metadata() == top || kids.contains(
                after[i].metadata(),
            ),
{
    let ids = seq![top.id] + metadata_ids(kids);
    assert forall|i: int| 0 <= i < after.len() implies (#[trigger] after[i]).metadata() == top
        || kids.contains(after[i].metadata()) by {
        lemma_row_position(after, i);
        assert(ids.contains(after[i].id));
        let k = choose|k: int| 0 <= k < ids.len() && ids[k] == after[i].id;
        if k == 0 {
            assert(after[i].id == top.id);
        } else {
            assert(ids[k] == metadata_ids(kids)[k - 1]);
            assert(held(after, kids[k - 1]));
            assert(kids[k - 1] == after[i].metadata());
        }
    }
}

/// Whether the index holds every resource of a list.
pub open spec fn all_listed(rows: Seq<RowModel>, ids: Seq<Seq<char>>) -> bool {
    forall|k: int| 0 <= k < ids.len() ==> has_id(rows, #[trigger] ids[k])
}

/// A row after texts were indexed for its resource, one after the other.
pub open spec fn row_with_texts(row: RowModel, texts: Seq<Seq<char>>) -> RowModel {
    RowModel { ngrams: with_texts(row.ngrams, texts), ..row }
}

/// Indexing some texts and then others is indexing all of them, the first
/// ones first.
pub proof fn lemma_with_texts_append(
    grams: Seq<Seq<char>>,
    first: Seq<Seq<char>>,
    second: Seq<Seq<char>>,
)
    ensures
        with_texts(with_texts(grams, first), second) == with_texts(grams, first + second),
    decreases second.len(),
{
    if second.len() == 0 {
        assert(first + second =~= first);
    } else {
        lemma_with_texts_append(grams, first, second.drop_last());
        assert((first + second).drop_last() =~= first + second.drop_last());
        assert((first + second).last() == second.last());
    }
}

/// The row of a resource that has entered the index and for which texts
/// were indexed.
pub open spec fn indexed_row(metadata: MetadataModel, texts: Seq<Seq<char>>) -> RowModel {
    RowModel {
        ngrams: with_texts(ngrams_of(metadata.name, MAX_NGRAM as nat), texts),
        ..RowModel::of(metadata)
    }
}

/// Whether the shape of the tree admits a resource: its parent is in
/// order, and the root is a container.
pub open spec fn placed_ok(rows: Seq<RowModel>, metadata: MetadataModel) -> bool {
    &&& container_leaf_ok(rows, metadata.id, metadata.parent)
    &&& metadata.id == ROOT_ID_STR@ ==> metadata.kind == ResourceKind::Container
}

/// Whether a payload can come with a resource: the payload of a leaf is
/// the payload of one of its variants.
pub open spec fn content_fits(metadata: MetadataModel, content: Option<VariantContent>) -> bool {
    content matches Some(c) ==> (metadata.kind == ResourceKind::Leaf ==> variant_names(
        metadata.variants,
    ).contains(c.0@.name))
}

/// Whether a resource that is in the index may become what is given: a
/// leaf only if it has no child.
pub open spec fn keeps_children(rows: Seq<RowModel>, metadata: MetadataModel) -> bool {
    has_id(rows, metadata.id) ==> metadata.kind == ResourceKind::Container || !has_child(
        rows,
        metadata.id,
    )
}

/// Whether a resource that is in the index moves under another parent.
pub open spec fn moves(rows: Seq<RowModel>, metadata: MetadataModel) -> bool {
    has_id(rows, metadata.id) && rows[position(rows, metadata.id)].parent != metadata.parent
}

/// Whether a resource that is in the index may have the parent that is
/// given: it moves only under a container that does not descend from it.
pub open spec fn keeps_tree(rows: Seq<RowModel>, metadata: MetadataModel) -> bool {
    moves(rows, metadata) ==> !leaves_with(rows, metadata.id, metadata.parent)
}

/// A list that holds one identifier.
fn single(id: &ResourceId) -> (ids: Vec<ResourceId>)
    ensures
        id_views(ids@) == seq![id@],
{
    let mut ids: Vec<ResourceId> = Vec::new();
    ids.push(id.clone());
    assert(id_views(ids@) =~= seq![id@]);
    ids
}

/// The metadata of a resource after a variant was added to it, or has
/// replaced the one of its name, at the time `modified`: the variant
/// stands last.
pub open spec fn with_variant(
    metadata: MetadataModel,
    variant: VariantModel,
    modified: i64,
) -> MetadataModel {
    MetadataModel {
        variants: variants_without(metadata.variants, variant.name).push(variant),
        modified,
        ..metadata
    }
}

/// The row of a resource without the variants of a name.
pub open spec fn row_without_variant(row: RowModel, name: Seq<char>) -> RowModel {
    RowModel { variants: variants_without(row.variants, name), ..row }
}

/// The metadata with which the root is created.
pub open spec fn is_root_metadata(metadata: MetadataModel) -> bool {
    &&& metadata.id == ROOT_ID_STR@
    &&& metadata.parent == ROOT_ID_STR@
    &&& metadata.kind == ResourceKind::Container
    &&& metadata.name == "/"@
    &&& metadata.tags.len() == 0
    &&& metadata.variants.len() == 1
    &&& metadata.variants[0].name == "default"@
    &&& metadata.variants[0].mime_type == "inode/directory"@
    &&& metadata.variants[0].size == 0
}

/// The variants of a resource that was imported: one, named `default`.
pub open spec fn imported_variants(mime_type: Seq<char>, size: u32) -> Seq<VariantModel> {
    seq![VariantModel { name: "default"@, mime_type, size }]
}

/// An indexer that was added to a manager.
pub struct AddedIndexer {
    pub indexer: Box<dyn Indexer>,
}

/// The manager of a resource store.
pub struct Manager {
    index: Index,
    store: Box<dyn ResourceStore>,
    fts: Fts,
    indexers: Vec<AddedIndexer>,
    cache: LruCache<String, ResourceMetadata>,
}

impl Manager {
    /// The rows of the index.
    pub closed spec fn rows(&self) -> Seq<RowModel> {
        self.index@
    }

    /// Whether the cache holds nothing but copies of what some rows hold.
    pub closed spec fn cache_fits(&self, rows: Seq<RowModel>) -> bool {
        forall|key: Seq<char>| #[trigger]
            cache_entries(&self.cache).contains_key(key) ==> has_id(rows, key) && cache_entries(
                &self.cache,
            )[key]@ == rows[position(rows, key)].metadata()
    }

    /// Whether the cache holds something for a resource.
    pub closed spec fn cached(&self, id: Seq<char>) -> bool {
        cache_entries(&self.cache).contains_key(id)
    }

    /// The number of resources whose metadata the cache holds at most.
    pub closed spec fn cache_capacity(&self) -> nat {
        cache_limit(&self.cache)
    }

    /// The indexers, in the order in which they were added.
    pub closed spec fn indexers(&self) -> Seq<AddedIndexer> {
        self.indexers@
    }

    /// The index obeys its schema, and the cache holds nothing but copies
    /// of what the index holds.
    pub closed spec fn wf(&self) -> bool {
        &&& self.index.wf()
        &&& self.fts.max_len() == MAX_NGRAM
        &&& self.cache_fits(self.index@)
    }

    /// The rows of a well-formed manager obey the schema.
    pub proof fn lemma_wf_schema(&self)
        requires
            self.wf(),
        ensures
            schema_ok(self.rows()),
    {
    }

    /// A manager with an empty index over a blob store. A cache of more
    /// than `MAX_CACHE_CAPACITY` entries is refused.
    pub fn new(config: Config, store: Box<dyn ResourceStore>) -> (made: Result<
        Self,
        ResourceStoreError,
    >)
        ensures
            match made {
                Ok(manager) => config.metadata_cache_capacity <= MAX_CACHE_CAPACITY && manager.wf()
                    && manager.rows() == Seq::<RowModel>::empty() && manager.cache_capacity()
                    == config.metadata_cache_capacity && manager.indexers().len() == 0
                    && forall|key: Seq<char>| !manager.cached(key),
                Err(error) => config.metadata_cache_capacity > MAX_CACHE_CAPACITY
                    && error.is_custom("CacheTooLarge"@),
            },
    {
        if config.metadata_cache_capacity > MAX_CACHE_CAPACITY {
            return Err(ResourceStoreError::custom("CacheTooLarge"));
        }
        Ok(
            Manager {
                index: Index::new(),
                store,
                fts: Fts::new(MAX_NGRAM),
                indexers: Vec::new(),
                cache: cache_new(config.metadata_cache_capacity),
            },
        )
    }

    fn evict_from_cache(&mut self, id: &ResourceId)
        requires
            old(self).wf(),
        ensures
            final(self).wf(),
            final(self).indexers() == old(self).indexers(),
            final(self).cache_capacity() == old(self).cache_capacity(),
            final(self).rows() == old(self).rows(),
            !final(self).cached(id@),
            forall|key: Seq<char>| #[trigger]
                cache_entries(&final(self).cache).contains_key(key) ==> cache_entries(
                    &old(self).cache,
                ).contains_key(key) && cache_entries(&final(self).cache)[key] == cache_entries(
                    &old(self).cache,
                )[key],
    {
        cache_pop(&mut self.cache, id.as_str());
    }

    fn update_cache(&mut self, metadata: &ResourceMetadata)
        requires
            old(self).wf(),
            has_id(old(self).rows(), metadata@.id),
            old(self).rows()[position(old(self).rows(), metadata@.id)].metadata() == metadata@,
        ensures
            final(self).wf(),
            final(self).rows() == old(self).rows(),
            final(self).indexers() == old(self).indexers(),
            final(self).cache_capacity() == old(self).cache_capacity(),
            old(self).cache_capacity() > 0 ==> final(self).cached(metadata@.id)
                && cache_entries(&final(self).cache)[metadata@.id]@ == metadata@,
            forall|key: Seq<char>| #[trigger]
                final(self).cached(key) && key != metadata@.id ==> old(self).cached(key)
                    && cache_entries(&final(self).cache)[key] == cache_entries(
                    &old(self).cache,
                )[key],
    {
        let id = metadata.id();
        cache_put(&mut self.cache, id.to_string(), metadata.clone());
    }

    /// Ends the use of the manager. The resources stay in the blob store.
    pub fn close(self) {
    }

    /// Puts an indexer after the indexers that were added before.
    fn keep_indexer(&mut self, added: AddedIndexer)
        requires
            old(self).wf(),
        ensures
            final(self).wf(),
            final(self).rows() == old(self).rows(),
            final(self).cache_capacity() == old(self).cache_capacity(),
            final(self).indexers().len() == old(self).indexers().len() + 1,
            final(self).indexers().drop_last() == old(self).indexers(),
            final(self).indexers().last() == added,
            forall|key: Seq<char>| final(self).cached(key) == old(self).cached(key),
    {
        self.indexers.push(added);
        assert(self.indexers@.drop_last() =~= old(self).indexers@);
    }

    /// Adds an indexer: the indexers are asked in the order in which they
    /// were added.
    pub fn add_indexer(&mut self, indexer: Box<dyn Indexer>)
        requires
            old(self).wf(),
        ensures
            final(self).wf(),
            final(self).rows() == old(self).rows(),
            final(self).cache_capacity() == old(self).cache_capacity(),
            final(self).indexers().len() == old(self).indexers().len() + 1,
            final(self).indexers().drop_last() == old(self).indexers(),
            final(self).indexers().last() == (AddedIndexer { indexer }),
            forall|key: Seq<char>| final(self).cached(key) == old(self).cached(key),
    {
        self.keep_indexer(AddedIndexer { indexer });
    }

    /// Returns `true` if this resource is in the index.
    pub fn has_object(&self, id: &ResourceId) -> (found: Result<bool, ResourceStoreError>)
        requires
            self.wf(),
        ensures
            found matches Ok(has) && has == has_id(self.rows(), id@),
    {
        Ok(self.index.has(id))
    }

    /// Returns the number of resources in the index.
    pub fn resource_count(&self) -> (count: Result<i32, ResourceStoreError>)
        requires
            self.wf(),
        ensures
            match count {
                Ok(n) => n == self.rows().len(),
                Err(error) => self.rows().len() > i32::MAX && error.is_custom("CountOverflow"@),
            },
    {
        let n = self.index.len();
        if n > i32::MAX as usize {
            Err(ResourceStoreError::custom("CountOverflow"))
        } else {
            Ok(n as i32)
        }
    }

    /// Returns `true` if this resource is in the index and is a container.
    pub fn is_container(&self, id: &ResourceId) -> (container: Result<bool, ResourceStoreError>)
        requires
            self.wf(),
        ensures
            container matches Ok(is) && is == is_container(self.rows(), id@),
    {
        Ok(self.index.is_container(id))
    }

    /// Checks that a resource may have a parent: only the root is its own
    /// parent, and the parent of any other resource is a container of the
    /// index.
    pub fn check_container_leaf(&self, id: &ResourceId, parent: &ResourceId) -> (checked: Result<
        (),
        ResourceStoreError,
    >)
        requires
            self.wf(),
        ensures
            match checked {
                Ok(_) => container_leaf_ok(self.rows(), id@, parent@),
                Err(error) => !container_leaf_ok(self.rows(), id@, parent@)
                    && error is InvalidContainerId,
            },
    {
        check_container_leaf_in(&self.index, id, parent)
    }

    /// The children of a resource in a state of the index, in the order
    /// of the rows.
    pub fn children_of(&self, parent: &ResourceId, tx: &Index) -> (ids: Result<
        Vec<ResourceId>,
        ResourceStoreError,
    >)
        ensures
            ids matches Ok(list) && id_views(list@) == children(tx@, parent@),
    {
        Ok(tx.children_of(parent))
    }

    /// The payload of a container in a state of the index: the list of its
    /// children in binary.
    pub fn serialize_children_of(&self, parent: &ResourceId, tx: &Index) -> (encoded: Result<
        Vec<u8>,
        ResourceStoreError,
    >)
        ensures
            encoded matches Ok(bytes) && bytes@ == child_list_bytes(children(tx@, parent@))
                && child_list_ids(bytes@) == Some(children(tx@, parent@)),
    {
        serialize_children(&tx.children_of(parent))
    }

    /// Stores the list of the children of a container, as a state of the
    /// index has them, as the payload of the container.
    pub fn update_container_content(&self, parent: &ResourceId, tx: &Index) -> (done: Result<
        (),
        ResourceStoreError,
    >) {
        let children = self.serialize_children_of(parent, tx)?;
        self.store.update_default_variant_from_slice(parent, children.as_slice())
    }

    /// The parent of a resource in a state of the index.
    pub fn parent_of(&self, id: &ResourceId, tx: &Index) -> (parent: Result<
        ResourceId,
        ResourceStoreError,
    >)
        requires
            tx.wf(),
        ensures
            match parent {
                Ok(p) => has_id(tx@, id@) && p@ == tx@[position(tx@, id@)].parent,
                Err(error) => !has_id(tx@, id@) && error is NoSuchResource,
            },
    {
        match tx.parent_of(id) {
            Some(parent) => Ok(parent),
            None => Err(ResourceStoreError::NoSuchResource),
        }
    }

    /// The rows of the index as records, to be kept in the index file.
    pub fn index_records(&self) -> (records: Vec<IndexRecord>)
        requires
            self.wf(),
        ensures
            record_rows(records@) == self.rows(),
            records_ok(records@),
    {
        self.index.records()
    }

    /// Takes the index from the records of an index file. Records that
    /// cannot be the content of an index are refused, and the index stays
    /// as it is.
    pub fn restore_index(&mut self, records: &Vec<IndexRecord>) -> (done: Result<
        (),
        ResourceStoreError,
    >)
        requires
            old(self).wf(),
        ensures
            final(self).wf(),
            final(self).indexers() == old(self).indexers(),
            final(self).cache_capacity() == old(self).cache_capacity(),
            match done {
                Ok(_) => records_ok(records@) && final(self).rows() == record_rows(records@)
                    && forall|key: Seq<char>| !final(self).cached(key),
                Err(error) => !records_ok(records@) && error.is_custom("InvalidIndexRecord"@)
                    && final(self).rows() == old(self).rows(),
            },
    {
        let index = Index::from_records(records)?;
        cache_clear(&mut self.cache);
        self.index = index;
        Ok(())
    }

    /// Empties the index: the resources stay in the blob store.
    pub fn clear(&mut self) -> (done: Result<(), ResourceStoreError>)
        requires
            old(self).wf(),
        ensures
            final(self).wf(),
            final(self).indexers() == old(self).indexers(),
            final(self).cache_capacity() == old(self).cache_capacity(),
            done is Ok,
            final(self).rows() == Seq::<RowModel>::empty(),
            forall|key: Seq<char>| !final(self).cached(key),
    {
        self.index.clear();
        cache_clear(&mut self.cache);
        Ok(())
    }

    /// Puts a resource in a state of the index: its row, its tags, its
    /// variants, and the n-grams of its name.
    fn create_metadata(&self, metadata: &ResourceMetadata, tx: &mut Index) -> (done: Result<
        (),
        ResourceStoreError,
    >)
        requires
            self.wf(),
            old(tx).wf(),
            metadata.wf(),
        ensures
            final(tx).wf(),
            match done {
                Ok(_) => insertable(old(tx)@, metadata@) && final(tx)@ == old(tx)@.push(
                    entered_row(metadata@),
                ),
                Err(error) => !insertable(old(tx)@, metadata@) && final(tx)@ == old(tx)@ && (
                if has_id(old(tx)@, metadata@.id) || sibling_taken(
                    old(tx)@,
                    metadata@.parent,
                    metadata@.name,
                ) {
                    error is ResourceAlreadyExists
                } else {
                    error is InvalidVariant
                }),
            },
    {
        let ghost before = tx@;
        match tx.insert(metadata) {
            Ok(_) => {},
            Err(error) => {
                return Err(error);
            },
        }
        let id = metadata.id();
        let name = metadata.name();
        proof {
            lemma_push_position(before, RowModel::of(metadata@));
            crate::fts::lemma_distinct(
                crate::fts::text_pieces(crate::fts::search_tokens(metadata@.name), MAX_NGRAM as nat),
            );
            lemma_merged_fresh(ngrams_of(metadata@.name, MAX_NGRAM as nat));
        }
        let added = self.fts.add_text(&id, name.as_str(), tx);
        assert(tx@ =~= before.push(entered_row(metadata@)));
        added
    }

    /// Puts in the index the metadata that the blob store gave for a
    /// resource that the index does not hold. What the blob store gave is
    /// taken only if it is the metadata of this resource, with a
    /// well-formed scorer, and if the index can take it.
    pub fn rehydrate(
        &mut self,
        id: &ResourceId,
        fetched: Result<ResourceMetadata, ResourceStoreError>,
    ) -> (found: Result<ResourceMetadata, ResourceStoreError>)
        requires
            old(self).wf(),
        ensures
            final(self).wf(),
            final(self).indexers() == old(self).indexers(),
            final(self).cache_capacity() == old(self).cache_capacity(),
            match fetched {
                Ok(metadata) => if metadata@.id == id@ && metadata.wf() {
                    if insertable(old(self).rows(), metadata@) {
                        found == fetched && final(self).rows() == old(self).rows().push(
                            entered_row(metadata@),
                        ) && (old(self).cache_capacity() > 0 ==> final(self).cached(id@))
                    } else {
                        found is Err && final(self).rows() == old(self).rows() && (if has_id(
                            old(self).rows(),
                            id@,
                        ) || sibling_taken(old(self).rows(), metadata@.parent, metadata@.name) {
                            found matches Err(ResourceStoreError::ResourceAlreadyExists)
                        } else {
                            found matches Err(ResourceStoreError::InvalidVariant(_))
                        })
                    }
                } else {
                    found matches Err(ResourceStoreError::NoSuchResource) && final(self).rows()
                        == old(self).rows()
                },
                Err(_) => found == fetched && final(self).rows() == old(self).rows(),
            },
    {
        let metadata = match fetched {
            Ok(metadata) => metadata,
            Err(error) => {
                return Err(error);
            },
        };
        if !metadata.id().same(id) || !metadata.is_valid() {
            return Err(ResourceStoreError::NoSuchResource);
        }
        let mut tx = self.index.clone();
        match self.create_metadata(&metadata, &mut tx) {
            Ok(_) => {},
            Err(error) => {
                return Err(error);
            },
        }
        proof {
            let before = self.index@;
            let row = entered_row(metadata@);
            lemma_entered_row_metadata(metadata@);
            lemma_push_position(before, row);
            assert forall|key: Seq<char>| #[trigger]
                cache_entries(&self.cache).contains_key(key) implies has_id(tx@, key)
                && cache_entries(&self.cache)[key]@ == tx@[position(tx@, key)].metadata() by {
                lemma_push_keeps_rows(before, row, key);
            }
        }
        self.index = tx;
        self.update_cache(&metadata);
        Ok(metadata)
    }

    /// The metadata of a resource: from the cache, else from the index,
    /// else from the blob store, which puts the resource back in the
    /// index.
    pub fn get_metadata(&mut self, id: &ResourceId) -> (found: Result<
        ResourceMetadata,
        ResourceStoreError,
    >)
        requires
            old(self).wf(),
        ensures
            final(self).wf(),
            final(self).indexers() == old(self).indexers(),
            final(self).cache_capacity() == old(self).cache_capacity(),
            extends(final(self).rows(), old(self).rows()),
            grows_by(final(self).rows(), old(self).rows(), seq![id@]),
            final(self).rows().len() <= old(self).rows().len() + 1,
            found matches Ok(metadata) ==> metadata.wf() && metadata@.id == id@ && has_id(
                final(self).rows(),
                id@,
            ) && final(self).rows()[position(final(self).rows(), id@)].metadata() == metadata@,
            has_id(old(self).rows(), id@) ==> found is Ok && final(self).rows() == old(self).rows(),
            !has_id(old(self).rows(), id@) ==> match found {
                Ok(metadata) => insertable(old(self).rows(), metadata@) && final(self).rows()
                    == old(self).rows().push(entered_row(metadata@)),
                Err(_) => final(self).rows() == old(self).rows(),
            },
            found is Ok && old(self).cache_capacity() > 0 ==> final(self).cached(id@),
    {
        proof {
            lemma_extends_self(self.index@);
            lemma_grows_self(self.index@, seq![id@]);
        }
        if let Some(cached) = cache_get(&mut self.cache, id.as_str()) {
            let metadata = cached.clone();
            proof {
                let row = self.index@[position(self.index@, id@)];
                assert(row.ok());
                lemma_decoding_wf(row.scorer);
            }
            return Ok(metadata);
        }
        match self.index.find(id) {
            Some(place) => {
                let metadata = self.index.metadata_at(place);
                self.update_cache(&metadata);
                Ok(metadata)
            },
            None => {
                let fetched = self.store.get_metadata(id);
                let found = self.rehydrate(id, fetched);
                proof {
                    if found is Ok {
                        let metadata = found->Ok_0;
                        lemma_push_position(old(self).rows(), entered_row(metadata@));
                        lemma_entered_row_metadata(metadata@);
                        assert(self.rows().take(old(self).rows().len() as int) =~= old(
                            self,
                        ).rows());
                        assert(seq![id@][0] == id@);
                    }
                }
                found
            },
        }
    }

    /// Counts a visit of a resource: the scorer column of its row is
    /// written again, and nothing else. No blob is written.
    pub fn visit(&mut self, id: &ResourceId, visit: &VisitEntry) -> (done: Result<
        (),
        ResourceStoreError,
    >)
        requires
            old(self).wf(),
        ensures
            final(self).wf(),
            final(self).indexers() == old(self).indexers(),
            final(self).cache_capacity() == old(self).cache_capacity(),
            has_id(old(self).rows(), id@) ==> (if old(self).rows()[position(
                old(self).rows(),
                id@,
            )].stored_scorer().visit_count < MAX_VISIT_COUNT {
                done is Ok && final(self).rows() == old(self).rows().update(
                    position(old(self).rows(), id@),
                    visited_row(old(self).rows()[position(old(self).rows(), id@)], *visit),
                )
            } else {
                done matches Err(error) && error.is_custom("VisitCountOverflow"@)
                    && final(self).rows() == old(self).rows()
            }),
            done is Ok ==> has_id(final(self).rows(), id@) && !final(self).cached(id@),
            !has_id(old(self).rows(), id@) ==> grows_by(
                final(self).rows(),
                old(self).rows(),
                seq![id@],
            ) && final(self).rows().len() <= old(self).rows().len() + 1,
            done is Ok && has_id(old(self).rows(), id@) && tree_ok(old(self).rows()) && rooted(
                old(self).rows(),
            ) ==> tree_ok(final(self).rows()) && rooted(final(self).rows()),
    {
        let mut metadata = self.get_metadata(id)?;
        if !metadata.scorer().can_add() {
            return Err(ResourceStoreError::custom("VisitCountOverflow"));
        }
        metadata.update_scorer(visit);
        let place = self.index.find(id).unwrap();
        self.evict_from_cache(id);
        let ghost before = self.index@;
        let ghost after = before.update(place as int, visited_row(before[place as int], *visit));
        self.index.set_scorer(place, metadata.scorer());
        proof {
            assert(self.index@ == after);
            assert forall|key: Seq<char>| #[trigger]
                cache_entries(&self.cache).contains_key(key) implies has_id(after, key)
                && cache_entries(&self.cache)[key]@ == after[position(after, key)].metadata() by {
                lemma_update_keeps_rows(before, place as int, after[place as int], key);
                lemma_row_position(before, place as int);
            }
            lemma_update_keeps_rows(before, place as int, after[place as int], id@);
            if tree_ok(before) && rooted(before) {
                crate::tree::lemma_update_keeps_tree(before, place as int, after[place as int]);
            }
            if !has_id(old(self).rows(), id@) {
                // The resource has just entered the index, as its last row.
                lemma_push_position(old(self).rows(), entered_row(metadata@));
                assert(after.take(old(self).rows().len() as int) =~= old(self).rows());
                assert(seq![id@][0] == id@);
            }
        }
        Ok(())
    }

    /// Takes from the cache what it holds for the resources of a list.
    fn evict_all(&mut self, ids: &Vec<ResourceId>)
        requires
            old(self).wf(),
        ensures
            final(self).wf(),
            final(self).indexers() == old(self).indexers(),
            final(self).cache_capacity() == old(self).cache_capacity(),
            final(self).rows() == old(self).rows(),
            forall|k: int| 0 <= k < ids@.len() ==> !final(self).cached(#[trigger] id_views(ids@)[k]),
    {
        let mut i: usize = 0;
        while i < ids.len()
            invariant
                i <= ids@.len(),
                self.wf(),
                self.indexers() == old(self).indexers(),
                self.cache_capacity() == old(self).cache_capacity(),
                self.rows() == old(self).rows(),
                forall|k: int| 0 <= k < i ==> !self.cached(#[trigger] id_views(ids@)[k]),
            decreases ids@.len() - i,
        {
            let ghost before = *self;
            self.evict_from_cache(&ids[i]);
            proof {
                assert forall|k: int| 0 <= k < i + 1 implies !self.cached(
                    #[trigger] id_views(ids@)[k],
                ) by {
                    if k < i {
                        assert(!before.cached(id_views(ids@)[k]));
                    }
                }
            }
            i += 1;
        }
    }

    /// Ends a write, given what the blob store answered: the changes to
    /// the index are kept if the blob store did its part, and dropped if it
    /// failed; its answer is handed on.
    pub fn finish_write(&mut self, tx: Index, written: Result<(), ResourceStoreError>) -> (done: Result<
        (),
        ResourceStoreError,
    >)
        requires
            old(self).wf(),
            tx.wf(),
            old(self).cache_fits(tx@),
        ensures
            final(self).wf(),
            final(self).indexers() == old(self).indexers(),
            final(self).cache_capacity() == old(self).cache_capacity(),
            done == written,
            written is Ok ==> final(self).rows() == tx@,
            written is Err ==> final(self).rows() == old(self).rows(),
            forall|key: Seq<char>| final(self).cached(key) == old(self).cached(key),
    {
        if written.is_ok() {
            self.index = tx;
        }
        written
    }

    /// Indexes texts for a resource, one after the other: the n-grams of
    /// each text that the resource does not have yet join its n-grams.
    pub fn add_texts(&self, id: &ResourceId, texts: &Vec<String>, tx: &mut Index) -> (done: Result<
        (),
        ResourceStoreError,
    >)
        requires
            self.wf(),
            old(tx).wf(),
        ensures
            final(tx).wf(),
            match done {
                Ok(_) => has_id(old(tx)@, id@) && final(tx)@ == old(tx)@.update(
                    position(old(tx)@, id@),
                    row_with_texts(old(tx)@[position(old(tx)@, id@)], string_views(texts@)),
                ),
                Err(error) => !has_id(old(tx)@, id@) && error is NoSuchResource && final(tx)@
                    == old(tx)@,
            },
    {
        if !tx.has(id) {
            return Err(ResourceStoreError::NoSuchResource);
        }
        let ghost start = tx@;
        let ghost place = position(start, id@);
        let ghost row = start[place];
        let ghost all = string_views(texts@);
        let mut t: usize = 0;
        proof {
            assert(all.take(0) =~= Seq::<Seq<char>>::empty());
            assert(start.update(place, row_with_texts(row, all.take(0))) =~= start);
        }
        while t < texts.len()
            invariant
                t <= texts@.len(),
                self.wf(),
                tx.wf(),
                start == old(tx)@,
                schema_ok(start),
                has_id(start, id@),
                place == position(start, id@),
                row == start[place],
                all == string_views(texts@),
                tx@ == start.update(place, row_with_texts(row, all.take(t as int))),
            decreases texts@.len() - t,
        {
            let ghost before = tx@;
            proof {
                lemma_update_keeps_rows(start, place, before[place], id@);
            }
            match self.fts.add_text(id, texts[t].as_str(), tx) {
                Ok(_) => {},
                Err(error) => {
                    return Err(error);
                },
            }
            proof {
                assert(all.take(t + 1).drop_last() =~= all.take(t as int));
                assert(all.take(t + 1).last() == texts@[t as int]@);
                assert(tx@ =~= start.update(place, row_with_texts(row, all.take(t + 1))));
            }
            t += 1;
        }
        assert(all.take(texts@.len() as int) =~= all);
        Ok(())
    }

    /// Feeds the index with the texts that the indexers draw from a
    /// payload of a leaf: each indexer is asked in turn, and what it draws
    /// is indexed with `add_texts`. Nothing is drawn for a container.
    pub fn update_text_index(
        &self,
        metadata: &ResourceMetadata,
        content: &VariantContent,
        tx: &mut Index,
    ) -> (done: Result<(), ResourceStoreError>)
        requires
            self.wf(),
            old(tx).wf(),
            has_id(old(tx)@, metadata@.id),
        ensures
            final(tx).wf(),
            metadata@.kind == ResourceKind::Container || self.indexers().len() == 0 ==> done is Ok,
            exists|texts: Seq<Seq<char>>|
                final(tx)@ == old(tx)@.update(
                    position(old(tx)@, metadata@.id),
                    #[trigger] row_with_texts(old(tx)@[position(old(tx)@, metadata@.id)], texts),
                ) && (metadata@.kind == ResourceKind::Container || self.indexers().len() == 0
                    ==> texts.len() == 0),
    {
        let ghost start = tx@;
        let ghost place = position(start, metadata@.id);
        let ghost row = start[place];
        let ghost mut done_texts: Seq<Seq<char>> = Seq::empty();
        assert(start.update(place, row_with_texts(row, done_texts)) =~= start);
        match metadata.kind() {
            ResourceKind::Container => {
                return Ok(());
            },
            ResourceKind::Leaf => {},
        }
        let id = metadata.id();
        let mut i: usize = 0;
        while i < self.indexers.len()
            invariant
                i <= self.indexers@.len(),
                self.wf(),
                tx.wf(),
                start == old(tx)@,
                metadata@.kind == ResourceKind::Leaf,
                done_texts.len() > 0 ==> self.indexers@.len() > 0,
                schema_ok(start),
                id@ == metadata@.id,
                has_id(start, id@),
                place == position(start, id@),
                row == start[place],
                tx@ == start.update(place, row_with_texts(row, done_texts)),
            decreases self.indexers@.len() - i,
        {
            let texts = self.indexers[i].indexer.index(metadata, content)?;
            let ghost before = tx@;
            proof {
                lemma_update_keeps_rows(start, place, before[place], id@);
            }
            match self.add_texts(&id, &texts, tx) {
                Ok(_) => {},
                Err(error) => {
                    return Err(error);
                },
            }
            proof {
                let drawn = string_views(texts@);
                lemma_with_texts_append(row.ngrams, done_texts, drawn);
                done_texts = done_texts + drawn;
                assert(tx@ =~= start.update(place, row_with_texts(row, done_texts)));
            }
            i += 1;
        }
        Ok(())
    }

    /// Creates a resource. Root creation is the one case in which a
    /// resource is its own parent.
    pub fn create(&mut self, metadata: &ResourceMetadata, content: Option<VariantContent>) -> (done:
        Result<(), ResourceStoreError>)
        requires
            old(self).wf(),
            metadata.wf(),
        ensures
            final(self).wf(),
            final(self).indexers() == old(self).indexers(),
            final(self).cache_capacity() == old(self).cache_capacity(),
            !placed_ok(old(self).rows(), metadata@) ==> done matches Err(
                ResourceStoreError::InvalidContainerId,
            ),
            placed_ok(old(self).rows(), metadata@) && !content_fits(metadata@, content)
                ==> done matches Err(ResourceStoreError::InvalidVariant(_)),
            placed_ok(old(self).rows(), metadata@) && content_fits(metadata@, content) && (has_id(
                old(self).rows(),
                metadata@.id,
            ) || sibling_taken(old(self).rows(), metadata@.parent, metadata@.name))
                ==> done matches Err(ResourceStoreError::ResourceAlreadyExists),
            placed_ok(old(self).rows(), metadata@) && content_fits(metadata@, content) && !has_id(
                old(self).rows(),
                metadata@.id,
            ) && !sibling_taken(old(self).rows(), metadata@.parent, metadata@.name) && !insertable(
                old(self).rows(),
                metadata@,
            ) ==> done matches Err(ResourceStoreError::InvalidVariant(_)),
            done is Err ==> final(self).rows() == old(self).rows(),
            done is Ok ==> exists|texts: Seq<Seq<char>>|
                final(self).rows() == old(self).rows().push(indexed_row(metadata@, texts)) && (
                content is None || metadata@.kind == ResourceKind::Container
                    || old(self).indexers().len() == 0 ==> texts.len() == 0),
            done is Ok && old(self).cache_capacity() > 0 ==> final(self).cached(metadata@.id),
            done is Ok && tree_ok(old(self).rows()) && rooted(old(self).rows()) ==> tree_ok(
                final(self).rows(),
            ) && rooted(final(self).rows()),
    {
        let id = metadata.id();
        let parent = metadata.parent();
        let ghost before = self.index@;
        check_container_leaf_in(&self.index, &id, &parent)?;
        if id.is_root() {
            match metadata.kind() {
                ResourceKind::Container => {},
                ResourceKind::Leaf => {
                    return Err(ResourceStoreError::InvalidContainerId);
                },
            }
        }
        if let Some(c) = &content {
            match metadata.kind() {
                ResourceKind::Leaf => {
                    let name = c.0.name();
                    if !metadata.has_variant(name.as_str()) {
                        return Err(ResourceStoreError::InvalidVariant(name));
                    }
                },
                ResourceKind::Container => {},
            }
        }
        // Start a transaction to store the new metadata.
        let mut tx = self.index.clone();
        self.create_metadata(metadata, &mut tx)?;
        let ghost entered = tx@;
        proof {
            lemma_push_position(before, entered_row(metadata@));
        }
        // Update the list of children of the parent, but for the root.
        if !id.is_root() {
            self.update_container_content(&parent, &tx)?;
        }
        // If there is content, run the indexers.
        if let Some(c) = &content {
            self.update_text_index(metadata, c, &mut tx)?;
        }
        let ghost texts: Seq<Seq<char>> = choose|texts: Seq<Seq<char>>|
            tx@ == entered.update(
                before.len() as int,
                #[trigger] row_with_texts(entered[before.len() as int], texts),
            ) && (content is None || metadata@.kind == ResourceKind::Container
                || self.indexers().len() == 0 ==> texts.len() == 0);
        proof {
            if content is None {
                let none: Seq<Seq<char>> = Seq::empty();
                assert(tx@ =~= entered.update(
                    before.len() as int,
                    row_with_texts(entered[before.len() as int], none),
                ));
            }
            assert(tx@ =~= before.push(indexed_row(metadata@, texts)));
            let row = indexed_row(metadata@, texts);
            assert forall|key: Seq<char>| self.cached(key) implies has_id(tx@, key)
                && cache_entries(&self.cache)[key]@ == tx@[position(tx@, key)].metadata() by {
                lemma_push_keeps_rows(before, row, key);
            }
            if tree_ok(before) && rooted(before) {
                assert(node_ok(tx@, row)) by {
                    if row.id != ROOT_ID_STR@ {
                        let j = choose|j: int|
                            0 <= j < before.len() && #[trigger] before[j].id == row.parent
                                && before[j].kind == ResourceKind::Container;
                        assert(tx@[j] == before[j]);
                    }
                }
                lemma_push_keeps_tree(before, row);
            }
        }
        // Create the blob, and commit the transaction if that succeeds.
        let written = self.store.create(metadata, content);
        let done = self.finish_write(tx, written);
        if done.is_ok() {
            proof {
                lemma_push_position(before, indexed_row(metadata@, texts));
                lemma_scorer_round_trip(metadata@.scorer);
            }
            self.update_cache(metadata);
        }
        done
    }

    /// Stores a resource again: its row, its tags and its variants are
    /// replaced, and its n-grams are those of its name and of what is
    /// indexed of the payload. A resource that the index does not hold is
    /// created. A resource of the index becomes a leaf only if it has no
    /// child, and moves only under a container that does not descend from
    /// it.
    pub fn update(&mut self, metadata: &ResourceMetadata, content: Option<VariantContent>) -> (done:
        Result<(), ResourceStoreError>)
        requires
            old(self).wf(),
            metadata.wf(),
        ensures
            final(self).wf(),
            final(self).indexers() == old(self).indexers(),
            final(self).cache_capacity() == old(self).cache_capacity(),
            !placed_ok(old(self).rows(), metadata@) || !keeps_children(old(self).rows(), metadata@)
                ==> done matches Err(ResourceStoreError::InvalidContainerId),
            placed_ok(old(self).rows(), metadata@) && keeps_children(old(self).rows(), metadata@)
                && !keeps_tree(old(self).rows(), metadata@) ==> done matches Err(
                ResourceStoreError::ResourceCycle,
            ),
            placed_ok(old(self).rows(), metadata@) && keeps_children(old(self).rows(), metadata@)
                && keeps_tree(old(self).rows(), metadata@) && !content_fits(metadata@, content)
                ==> done matches Err(ResourceStoreError::InvalidVariant(_)),
            placed_ok(old(self).rows(), metadata@) && keeps_children(old(self).rows(), metadata@)
                && keeps_tree(old(self).rows(), metadata@) && content_fits(metadata@, content)
                && !insertable(rows_without(old(self).rows(), metadata@.id), metadata@) ==> (
            if sibling_taken(
                rows_without(old(self).rows(), metadata@.id),
                metadata@.parent,
                metadata@.name,
            ) {
                done matches Err(ResourceStoreError::ResourceAlreadyExists)
            } else {
                done matches Err(ResourceStoreError::InvalidVariant(_))
            }),
            done is Err ==> final(self).rows() == old(self).rows(),
            done is Ok ==> exists|texts: Seq<Seq<char>>|
                final(self).rows() == rows_without(old(self).rows(), metadata@.id).push(
                    indexed_row(metadata@, texts),
                ) && (content is None || metadata@.kind == ResourceKind::Container
                    || old(self).indexers().len() == 0 ==> texts.len() == 0),
            done is Ok ==> has_id(final(self).rows(), metadata@.id) && final(self).rows()[position(
                final(self).rows(),
                metadata@.id,
            )].metadata() == metadata@,
            done is Ok && old(self).cache_capacity() > 0 ==> final(self).cached(metadata@.id),
            done is Ok && tree_ok(old(self).rows()) && rooted(old(self).rows()) ==> tree_ok(
                final(self).rows(),
            ) && rooted(final(self).rows()),
    {
        let id = metadata.id();
        let parent = metadata.parent();
        let ghost before = self.index@;
        check_container_leaf_in(&self.index, &id, &parent)?;
        if id.is_root() {
            match metadata.kind() {
                ResourceKind::Container => {},
                ResourceKind::Leaf => {
                    return Err(ResourceStoreError::InvalidContainerId);
                },
            }
        }
        let mut left: Option<ResourceId> = None;
        if let Some(stored) = self.index.parent_of(&id) {
            match metadata.kind() {
                ResourceKind::Leaf => {
                    if self.index.has_child(&id) {
                        return Err(ResourceStoreError::InvalidContainerId);
                    }
                },
                ResourceKind::Container => {},
            }
            if !stored.same(&parent) {
                // The resource moves: not under what descends from it.
                let inside = leaving_with(&self.index, &id);
                if contains_id(&inside, &parent) {
                    return Err(ResourceStoreError::ResourceCycle);
                }
                left = Some(stored);
            }
        }
        if let Some(c) = &content {
            match metadata.kind() {
                ResourceKind::Leaf => {
                    let name = c.0.name();
                    if !metadata.has_variant(name.as_str()) {
                        return Err(ResourceStoreError::InvalidVariant(name));
                    }
                },
                ResourceKind::Container => {},
            }
        }
        self.evict_from_cache(&id);
        let mut tx = self.index.clone();
        let gone = single(&id);
        tx.remove_all(&gone);
        let ghost without = rows_without(before, id@);
        proof {
            assert forall|i: int| 0 <= i < before.len() implies (!id_views(gone@).contains(
                (#[trigger] before[i]).id,
            )) == (before[i].id != id@) by {
                if before[i].id == id@ {
                    assert(id_views(gone@)[0] == id@);
                }
            }
            lemma_filter_same(
                before,
                |row: RowModel| !id_views(gone@).contains(row.id),
                |row: RowModel| row.id != id@,
            );
            assert(tx@ == without);
        }
        self.create_metadata(metadata, &mut tx)?;
        let ghost entered = tx@;
        proof {
            lemma_push_position(without, entered_row(metadata@));
        }
        // Update the list of children of the parent, but for the root, and
        // of the parent that the resource has left.
        if !id.is_root() {
            self.update_container_content(&parent, &tx)?;
        }
        if let Some(former) = &left {
            self.update_container_content(former, &tx)?;
        }
        if let Some(c) = &content {
            self.update_text_index(metadata, c, &mut tx)?;
        }
        let ghost texts: Seq<Seq<char>> = choose|texts: Seq<Seq<char>>|
            tx@ == entered.update(
                without.len() as int,
                #[trigger] row_with_texts(entered[without.len() as int], texts),
            ) && (content is None || metadata@.kind == ResourceKind::Container
                || self.indexers().len() == 0 ==> texts.len() == 0);
        proof {
            if content is None {
                let none: Seq<Seq<char>> = Seq::empty();
                assert(tx@ =~= entered.update(
                    without.len() as int,
                    row_with_texts(entered[without.len() as int], none),
                ));
            }
            let row = indexed_row(metadata@, texts);
            assert(tx@ =~= without.push(row));
            assert forall|key: Seq<char>| self.cached(key) implies has_id(tx@, key)
                && cache_entries(&self.cache)[key]@ == tx@[position(tx@, key)].metadata() by {
                let p = position(before, key);
                lemma_filter_position(before, |old_row: RowModel| old_row.id != id@, p);
                lemma_push_keeps_rows(without, row, key);
            }
            if tree_ok(before) && rooted(before) {
                if has_id(before, id@) {
                    assert(tx@ == rows_replaced(before, row));
                    if before[position(before, id@)].parent == row.parent {
                        lemma_replace_keeps_tree(before, row);
                    } else {
                        crate::tree::lemma_move_keeps_tree(before, row);
                    }
                } else {
                    assert forall|i: int| 0 <= i < before.len() implies (#[trigger] before[i]).id
                        != id@ by {}
                    lemma_filter_all(before, |old_row: RowModel| old_row.id != id@);
                    assert(node_ok(tx@, row)) by {
                        if row.id != ROOT_ID_STR@ {
                            let j = choose|j: int|
                                0 <= j < before.len() && #[trigger] before[j].id == row.parent
                                    && before[j].kind == ResourceKind::Container;
                            assert(tx@[j] == before[j]);
                        }
                    }
                    lemma_push_keeps_tree(before, row);
                }
            }
            lemma_push_position(without, row);
            lemma_scorer_round_trip(metadata@.scorer);
        }
        let written = self.store.update(metadata, content);
        let done = self.finish_write(tx, written);
        if done.is_ok() {
            self.update_cache(metadata);
        }
        done
    }

    /// Deletes a resource and, if it is a container, all that descends
    /// from it.
    pub fn delete(&mut self, id: &ResourceId) -> (done: Result<(), ResourceStoreError>)
        requires
            old(self).wf(),
        ensures
            final(self).wf(),
            final(self).indexers() == old(self).indexers(),
            final(self).cache_capacity() == old(self).cache_capacity(),
            !has_id(old(self).rows(), id@) ==> done matches Err(ResourceStoreError::NoSuchResource),
            done is Err ==> final(self).rows() == old(self).rows(),
            done is Ok ==> final(self).rows() == rows_after_delete(old(self).rows(), id@),
            done is Ok ==> !has_id(final(self).rows(), id@),
            done is Ok ==> forall|x: Seq<char>| #[trigger]
                leaves_with(old(self).rows(), id@, x) ==> !final(self).cached(x),
            done is Ok && tree_ok(old(self).rows()) && rooted(old(self).rows()) ==> tree_ok(
                final(self).rows(),
            ) && rooted(final(self).rows()),
    {
        let ghost before = self.index@;
        let parent = match self.index.parent_of(id) {
            Some(parent) => parent,
            None => {
                return Err(ResourceStoreError::NoSuchResource);
            },
        };
        // Collect the resource and all that descends from it.
        let doomed = leaving_with(&self.index, id);
        self.evict_all(&doomed);
        let mut tx = self.index.clone();
        tx.remove_all(&doomed);
        let ghost keep = |row: RowModel| !leaves_with(before, id@, row.id);
        proof {
            lemma_filter_same(before, |row: RowModel| !id_views(doomed@).contains(row.id), keep);
            assert(tx@ == rows_after_delete(before, id@));
            assert forall|key: Seq<char>| self.cached(key) implies has_id(tx@, key)
                && cache_entries(&self.cache)[key]@ == tx@[position(tx@, key)].metadata() by {
                let p = position(before, key);
                if leaves_with(before, id@, key) {
                    assert(id_views(doomed@).contains(key));
                    let k = choose|k: int|
                        0 <= k < id_views(doomed@).len() && id_views(doomed@)[k] == key;
                    assert(!self.cached(id_views(doomed@)[k]));
                }
                lemma_filter_position(before, keep, p);
            }
            if has_id(tx@, id@) {
                lemma_filter_found(before, keep, id@);
            }
            if tree_ok(before) && rooted(before) {
                lemma_delete_keeps_tree(before, id@);
            }
        }
        // Delete the blobs of what descends from the resource, then those
        // of the resource.
        let mut k: usize = 1;
        while k < doomed.len()
            invariant
                1 <= k,
                self.wf(),
                self.indexers() == old(self).indexers(),
                self.cache_capacity() == old(self).cache_capacity(),
                self.index@ == before,
                before == old(self).rows(),
                has_id(before, id@),
                tx.wf(),
                self.cache_fits(tx@),
            decreases doomed@.len() - k,
        {
            self.store.delete(&doomed[k])?;
            k += 1;
        }
        self.store.delete(id)?;
        if !id.is_root() {
            self.update_container_content(&parent, &tx)?;
        }
        self.finish_write(tx, Ok(()))
    }

    /// Deletes one variant of a resource.
    pub fn delete_variant(&mut self, id: &ResourceId, variant_name: &str) -> (done: Result<
        (),
        ResourceStoreError,
    >)
        requires
            old(self).wf(),
        ensures
            final(self).wf(),
            final(self).indexers() == old(self).indexers(),
            final(self).cache_capacity() == old(self).cache_capacity(),
            has_id(old(self).rows(), id@) ==> match done {
                Ok(_) => final(self).rows() == old(self).rows().update(
                    position(old(self).rows(), id@),
                    row_without_variant(
                        old(self).rows()[position(old(self).rows(), id@)],
                        variant_name@,
                    ),
                ),
                Err(_) => final(self).rows() == old(self).rows(),
            },
            has_id(old(self).rows(), id@) && !variant_names(
                old(self).rows()[position(old(self).rows(), id@)].variants,
            ).contains(variant_name@) ==> done matches Err(ResourceStoreError::InvalidVariant(_)),
            has_id(old(self).rows(), id@) && old(self).rows()[position(
                old(self).rows(),
                id@,
            )].kind == ResourceKind::Container && variant_name@ == "default"@ && children(
                old(self).rows(),
                id@,
            ).len() > 0 ==> done matches Err(ResourceStoreError::InvalidVariant(_)),
            done is Ok ==> has_id(final(self).rows(), id@) && !variant_names(
                final(self).rows()[position(final(self).rows(), id@)].variants,
            ).contains(variant_name@),
            done is Ok ==> !final(self).cached(id@),
            done is Ok && tree_ok(old(self).rows()) && rooted(old(self).rows()) && has_id(
                old(self).rows(),
                id@,
            ) ==> tree_ok(final(self).rows()) && rooted(final(self).rows()),
    {
        // Get the metadata of the resource and check the variant.
        let mut metadata = self.get_metadata(id)?;
        let ghost current = self.index@;
        if !metadata.has_variant(variant_name) {
            return Err(ResourceStoreError::invalid_variant(variant_name));
        }
        match metadata.kind() {
            ResourceKind::Container => {
                if crate::strings::same_text(variant_name, "default") && self.index.children_of(
                    id,
                ).len() > 0 {
                    return Err(ResourceStoreError::invalid_variant(variant_name));
                }
            },
            ResourceKind::Leaf => {},
        }
        let place = self.index.find(id).unwrap();
        self.evict_from_cache(id);
        // Remove the variant from the index and from the blob store.
        let mut tx = self.index.clone();
        tx.remove_variant(place, variant_name);
        metadata.delete_variant(variant_name);
        proof {
            let row = tx@[place as int];
            assert forall|key: Seq<char>| self.cached(key) implies has_id(tx@, key)
                && cache_entries(&self.cache)[key]@ == tx@[position(tx@, key)].metadata() by {
                lemma_update_keeps_rows(current, place as int, row, key);
                lemma_row_position(current, place as int);
            }
            lemma_update_keeps_rows(current, place as int, row, id@);
            crate::index::lemma_without_keeps_names_distinct(
                current[place as int].variants,
                variant_name@,
            );
            if tree_ok(current) && rooted(current) {
                crate::tree::lemma_update_keeps_tree(current, place as int, row);
            }
        }
        self.store.delete_variant(id, variant_name)?;
        // Store the metadata again, without the variant.
        let written = self.store.update(&metadata, None);
        self.finish_write(tx, written)
    }

    /// Adds a variant to a resource, or replaces the one of the same
    /// name, and stores its payload.
    pub fn update_variant(&mut self, id: &ResourceId, content: VariantContent) -> (done: Result<
        (),
        ResourceStoreError,
    >)
        requires
            old(self).wf(),
        ensures
            final(self).wf(),
            final(self).indexers() == old(self).indexers(),
            final(self).cache_capacity() == old(self).cache_capacity(),
            done is Ok ==> has_id(final(self).rows(), id@) && final(self).rows()[position(
                final(self).rows(),
                id@,
            )].variants.last() == content.0@,
            has_id(old(self).rows(), id@) && done is Ok ==> final(self).rows()[position(
                final(self).rows(),
                id@,
            )].variants == variants_without(
                old(self).rows()[position(old(self).rows(), id@)].variants,
                content.0@.name,
            ).push(content.0@),
            has_id(old(self).rows(), id@) && done is Err ==> final(self).rows() == old(self).rows(),
            done is Ok && old(self).cache_capacity() > 0 ==> final(self).cached(id@),
            has_id(old(self).rows(), id@) && (!placed_ok(
                old(self).rows(),
                old(self).rows()[position(old(self).rows(), id@)].metadata(),
            ) || !keeps_children(
                old(self).rows(),
                old(self).rows()[position(old(self).rows(), id@)].metadata(),
            )) ==> done matches Err(ResourceStoreError::InvalidContainerId),
            has_id(old(self).rows(), id@) && done is Ok ==> exists|
                texts: Seq<Seq<char>>,
                modified: i64,
            |
                final(self).rows() == rows_without(old(self).rows(), id@).push(
                    #[trigger] indexed_row(
                        with_variant(
                            old(self).rows()[position(old(self).rows(), id@)].metadata(),
                            content.0@,
                            modified,
                        ),
                        texts,
                    ),
                ),
            done is Ok && tree_ok(old(self).rows()) && rooted(old(self).rows()) && has_id(
                old(self).rows(),
                id@,
            ) ==> tree_ok(final(self).rows()) && rooted(final(self).rows()),
    {
        let ghost before = self.rows();
        let mut metadata = self.get_metadata(id)?;
        let ghost stored = metadata@;
        let name = content.0.name();
        metadata.delete_variant(name.as_str());
        proof {
            let row = self.index@[position(self.index@, id@)];
            assert(row.ok());
            crate::index::lemma_without_keeps_names_distinct(row.variants, name@);
        }
        metadata.add_variant(content.0.clone());
        metadata.modify_now();
        assert(metadata@ == with_variant(stored, content.0@, metadata@.modified));
        let ghost current = self.rows();
        let done = self.update(&metadata, Some(content));
        proof {
            if has_id(before, id@) && done is Ok {
                let texts: Seq<Seq<char>> = choose|texts: Seq<Seq<char>>|
                    self.rows() == rows_without(current, metadata@.id).push(
                        indexed_row(metadata@, texts),
                    );
                assert(self.rows() == rows_without(before, id@).push(
                    indexed_row(with_variant(stored, content.0@, metadata@.modified), texts),
                ));
            }
        }
        done
    }

    /// Creates the root: a container named `/` that is its own parent.
    pub fn create_root(&mut self) -> (done: Result<(), ResourceStoreError>)
        requires
            old(self).wf(),
        ensures
            final(self).wf(),
            final(self).indexers() == old(self).indexers(),
            final(self).cache_capacity() == old(self).cache_capacity(),
            has_id(old(self).rows(), ROOT_ID_STR@) || sibling_taken(
                old(self).rows(),
                ROOT_ID_STR@,
                "/"@,
            ) ==> done matches Err(ResourceStoreError::ResourceAlreadyExists),
            done is Err ==> final(self).rows() == old(self).rows(),
            done is Ok ==> final(self).rows().len() == old(self).rows().len() + 1
                && is_root_metadata(final(self).rows().last().metadata()),
            done is Ok && tree_ok(old(self).rows()) && rooted(old(self).rows()) ==> tree_ok(
                final(self).rows(),
            ) && rooted(final(self).rows()),
    {
        let root_id = ResourceId::root();
        let mut variants: Vec<Variant> = Vec::new();
        variants.push(Variant::new("default", "inode/directory", 0));
        let root = ResourceMetadata::new(
            &root_id,
            &root_id,
            ResourceKind::Container,
            "/",
            Vec::new(),
            variants,
        );
        proof {
            assert(root@.variants[0] == variants@[0]@);
            lemma_entered_row_metadata(root@);
            assert(variant_names(root@.variants).no_duplicates());
        }
        self.create(&root, None)
    }

    /// The resources of a name and, if one is given, of a tag, by frecency
    /// as seen at the time of the call, the highest first.
    pub fn by_name(&self, name: &str, tag: Option<&str>) -> (found: Result<
        Vec<ResourceId>,
        ResourceStoreError,
    >)
        requires
            self.wf(),
        ensures
            is_blank(name@) ==> (found matches Err(error) && error.is_custom("EmptyNameQuery"@)),
            !is_blank(name@) ==> (found matches Ok(ids) && exists|now: i64|
                id_views(ids@) == #[trigger] named_rows(self.rows(), name@, option_view(tag), now)),
    {
        if blank(name) {
            return Err(ResourceStoreError::custom("EmptyNameQuery"));
        }
        let now = crate::scorer::now_micros();
        let ids = self.index.by_name(name, tag, now);
        assert(id_views(ids@) == named_rows(self.rows(), name@, option_view(tag), now));
        Ok(ids)
    }

    /// The resources of a tag by frecency as seen at the time of the
    /// call, the highest first.
    pub fn by_tag(&self, tag: &str) -> (found: Result<Vec<ResourceId>, ResourceStoreError>)
        requires
            self.wf(),
        ensures
            is_blank(tag@) ==> (found matches Err(error) && error.is_custom("EmptyTagQuery"@)),
            !is_blank(tag@) ==> (found matches Ok(ids) && exists|now: i64|
                id_views(ids@) == #[trigger] tagged_rows(self.rows(), tag@, now)),
    {
        if blank(tag) {
            return Err(ResourceStoreError::custom("EmptyTagQuery"));
        }
        let now = crate::scorer::now_micros();
        let ids = self.index.by_tag(tag, now);
        assert(id_views(ids@) == tagged_rows(self.rows(), tag@, now));
        Ok(ids)
    }

    /// The resources that have the key of every token of a text among
    /// their n-grams and, if one is given, a tag, by frecency as seen at
    /// the time of the call, the highest first.
    pub fn by_text(&self, text: &str, tag: Option<String>) -> (found: Result<
        Vec<IdFrec>,
        ResourceStoreError,
    >)
        requires
            self.wf(),
        ensures
            is_blank(text@) ==> (found matches Err(error) && error.is_custom("EmptyTextQuery"@)),
            !is_blank(text@) ==> (found matches Ok(pairs) && exists|now: i64|
                frec_views(pairs@) == #[trigger] search_result(
                    self.rows(),
                    text@,
                    tag_view(tag),
                    MAX_NGRAM as nat,
                    now,
                )),
            found matches Ok(pairs) ==> found_ids(frec_views(pairs@)).no_duplicates() && forall|
                id: Seq<char>,
            |
                found_ids(frec_views(pairs@)).contains(id) <==> has_id(self.rows(), id)
                    && row_matches(
                    self.rows()[position(self.rows(), id)],
                    lookup_keys(text@, MAX_NGRAM as nat),
                    tag_view(tag),
                ),
    {
        if blank(text) {
            return Err(ResourceStoreError::custom("EmptyTextQuery"));
        }
        let now = crate::scorer::now_micros();
        let pairs = match &tag {
            Some(t) => self.fts.search_at(text, Some(t.as_str()), &self.index, now),
            None => self.fts.search_at(text, None, &self.index, now),
        };
        proof {
            lemma_search_finds_matches(
                self.rows(),
                lookup_keys(text@, MAX_NGRAM as nat),
                tag_view(tag),
                now,
            );
        }
        assert(frec_views(pairs@) == search_result(
            self.rows(),
            text@,
            tag_view(tag),
            MAX_NGRAM as nat,
            now,
        ));
        Ok(pairs)
    }

    /// The `count` resources of the highest frecency as seen at the time
    /// of the call, the highest first.
    pub fn top_by_frecency(&self, count: u32) -> (found: Result<Vec<IdFrec>, ResourceStoreError>)
        requires
            self.wf(),
        ensures
            count == 0 ==> (found matches Err(error) && error.is_custom("ZeroCountQuery"@)),
            count > 0 ==> (found matches Ok(pairs) && exists|now: i64|
                frec_views(pairs@) == #[trigger] top_rows(self.rows(), count as nat, now)),
    {
        if count == 0 {
            return Err(ResourceStoreError::custom("ZeroCountQuery"));
        }
        let now = crate::scorer::now_micros();
        let pairs = self.index.top_by_frecency(count, now);
        assert(frec_views(pairs@) == top_rows(self.rows(), count as nat, now));
        Ok(pairs)
    }

    /// The `count` resources that were modified last, the latest first,
    /// each with its frecency as seen at the time of the call.
    pub fn last_modified(&self, count: u32) -> (found: Result<Vec<IdFrec>, ResourceStoreError>)
        requires
            self.wf(),
        ensures
            count == 0 ==> (found matches Err(error) && error.is_custom("ZeroCountQuery"@)),
            count > 0 ==> (found matches Ok(pairs) && exists|now: i64|
                frec_views(pairs@) == #[trigger] latest_rows(self.rows(), count as nat, now)),
    {
        if count == 0 {
            return Err(ResourceStoreError::custom("ZeroCountQuery"));
        }
        let now = crate::scorer::now_micros();
        let pairs = self.index.last_modified(count, now);
        assert(frec_views(pairs@) == latest_rows(self.rows(), count as nat, now));
        Ok(pairs)
    }

    /// The metadata of the child of a parent that has a name.
    pub fn child_by_name(&mut self, parent: &ResourceId, name: &str) -> (found: Result<
        ResourceMetadata,
        ResourceStoreError,
    >)
        requires
            old(self).wf(),
        ensures
            final(self).wf(),
            final(self).indexers() == old(self).indexers(),
            final(self).cache_capacity() == old(self).cache_capacity(),
            final(self).rows() == old(self).rows(),
            is_blank(name@) ==> (found matches Err(error) && error.is_custom("EmptyNameQuery"@)),
            !is_blank(name@) ==> match found {
                Ok(metadata) => metadata@.parent == parent@ && metadata@.name == name@ && has_id(
                    old(self).rows(),
                    metadata@.id,
                ) && old(self).rows()[position(old(self).rows(), metadata@.id)].metadata()
                    == metadata@,
                Err(error) => error is NoSuchResource && !sibling_taken(
                    old(self).rows(),
                    parent@,
                    name@,
                ),
            },
    {
        if blank(name) {
            return Err(ResourceStoreError::custom("EmptyNameQuery"));
        }
        match self.index.child_by_name(parent, name) {
            Some(place) => {
                let id = self.index.id_at(place);
                proof {
                    lemma_row_position(self.index@, place as int);
                }
                let found = self.get_metadata(&id);
                assert(found is Ok);
                found
            },
            None => Err(ResourceStoreError::NoSuchResource),
        }
    }

    /// The metadata of a leaf and the payload of one of its variants.
    pub fn get_leaf(&mut self, id: &ResourceId, variant_name: &str) -> (found: Result<
        (ResourceMetadata, Vec<u8>),
        ResourceStoreError,
    >)
        requires
            old(self).wf(),
        ensures
            final(self).wf(),
            final(self).indexers() == old(self).indexers(),
            final(self).cache_capacity() == old(self).cache_capacity(),
            has_id(old(self).rows(), id@) ==> final(self).rows() == old(self).rows(),
            grows_by(final(self).rows(), old(self).rows(), seq![id@]),
            final(self).rows().len() <= old(self).rows().len() + 1,
            has_id(old(self).rows(), id@) && old(self).rows()[position(
                old(self).rows(),
                id@,
            )].kind != ResourceKind::Leaf ==> found matches Err(ResourceStoreError::NoSuchResource),
            found matches Ok(pair) ==> pair.0@.kind == ResourceKind::Leaf && pair.0@.id == id@
                && has_id(final(self).rows(), id@) && final(self).rows()[position(
                final(self).rows(),
                id@,
            )].metadata() == pair.0@,
    {
        let metadata = self.get_metadata(id)?;
        match metadata.kind() {
            ResourceKind::Leaf => {},
            ResourceKind::Container => {
                return Err(ResourceStoreError::NoSuchResource);
            },
        }
        // The payload comes from the blob store: the index does not keep it.
        let payload = self.store.get_variant(id, variant_name)?;
        Ok((metadata, payload))
    }

    /// The metadata of a container and of the children that a payload
    /// lists, given what the blob store returned for the payload. Without
    /// a payload the container has no child. The children that the index
    /// does not hold are fetched from the blob store: they enter the
    /// index, and nothing else does.
    pub fn list_container(
        &mut self,
        metadata: ResourceMetadata,
        listing: Result<Vec<u8>, ResourceStoreError>,
    ) -> (found: Result<(ResourceMetadata, Vec<ResourceMetadata>), ResourceStoreError>)
        requires
            old(self).wf(),
        ensures
            final(self).wf(),
            final(self).indexers() == old(self).indexers(),
            final(self).cache_capacity() == old(self).cache_capacity(),
            extends(final(self).rows(), old(self).rows()),
            match listing {
                Ok(bytes) => match crate::manager::child_list_ids(bytes@) {
                    Some(ids) => grows_by(final(self).rows(), old(self).rows(), ids)
                        && final(self).rows().len() <= old(self).rows().len() + ids.len()
                        && (all_listed(old(self).rows(), ids) ==> found is Ok
                        && final(self).rows() == old(self).rows()) && match found {
                        Ok(pair) => pair.0 == metadata && metadata_views(pair.1@).len() == ids.len()
                            && all_held(final(self).rows(), metadata_views(pair.1@))
                            && metadata_ids(metadata_views(pair.1@)) == ids,
                        Err(_) => ids.len() > 0,
                    },
                    None => found matches Err(ResourceStoreError::Bincode(_)) && final(self).rows()
                        == old(self).rows(),
                },
                Err(_) => found matches Ok(pair) && pair.0 == metadata && pair.1@.len() == 0
                    && final(self).rows() == old(self).rows(),
            },
    {
        proof {
            lemma_extends_self(self.rows());
        }
        let ghost start = self.rows();
        let bytes = match listing {
            Ok(bytes) => bytes,
            Err(_) => {
                // No children for this container.
                return Ok((metadata, Vec::new()));
            },
        };
        let ids = deserialize_children(bytes.as_slice())?;
        proof {
            lemma_grows_self(start, id_views(ids@));
        }
        // Get the metadata of each child.
        let mut kids: Vec<ResourceMetadata> = Vec::new();
        let mut i: usize = 0;
        while i < ids.len()
            invariant
                i <= ids@.len(),
                self.wf(),
                self.indexers() == old(self).indexers(),
                self.cache_capacity() == old(self).cache_capacity(),
                child_list_ids(bytes@) == Some(id_views(ids@)),
                listing == Ok::<Vec<u8>, ResourceStoreError>(bytes),
                extends(self.rows(), old(self).rows()),
                start == old(self).rows(),
                grows_by(self.rows(), start, id_views(ids@)),
                self.rows().len() <= start.len() + i,
                all_listed(start, id_views(ids@)) ==> self.rows() == start,
                kids@.len() == i,
                all_held(self.rows(), metadata_views(kids@)),
                forall|k: int| 0 <= k < i ==> (#[trigger] metadata_views(kids@)[k]).id == id_views(
                    ids@,
                )[k],
            decreases ids@.len() - i,
        {
            let ghost before = self.rows();
            let ghost sofar = metadata_views(kids@);
            proof {
                assert(id_views(ids@)[i as int] == ids@[i as int]@);
                if all_listed(start, id_views(ids@)) {
                    assert(has_id(start, id_views(ids@)[i as int]));
                }
            }
            let fetched = self.get_metadata(&ids[i]);
            proof {
                assert forall|x: Seq<char>|
                    id_views(ids@).contains(x) || seq![ids@[i as int]@].contains(
                        x,
                    ) implies id_views(ids@).contains(x) by {
                    if seq![ids@[i as int]@].contains(x) {
                        assert(id_views(ids@)[i as int] == x);
                    }
                }
                lemma_grows_twice(
                    start,
                    before,
                    self.rows(),
                    id_views(ids@),
                    seq![ids@[i as int]@],
                    id_views(ids@),
                );
            }
            let kid = fetched?;
            proof {
                self.lemma_wf_schema();
                lemma_extends_twice(old(self).rows(), before, self.rows());
                lemma_held_after_extend(before, self.rows(), sofar);
                lemma_held_push(self.rows(), sofar, kid@);
            }
            kids.push(kid);
            proof {
                assert(metadata_views(kids@) =~= sofar.push(kid@));
                assert(id_views(ids@)[i as int] == ids@[i as int]@);
            }
            i += 1;
        }
        assert(metadata_ids(metadata_views(kids@)) =~= id_views(ids@));
        Ok((metadata, kids))
    }

    /// The metadata of a container and of the children that its payload
    /// lists. The container and these children enter the index if they are
    /// not in it; no other resource does.
    pub fn get_container(&mut self, id: &ResourceId) -> (found: Result<
        (ResourceMetadata, Vec<ResourceMetadata>),
        ResourceStoreError,
    >)
        requires
            old(self).wf(),
        ensures
            final(self).wf(),
            final(self).indexers() == old(self).indexers(),
            final(self).cache_capacity() == old(self).cache_capacity(),
            extends(final(self).rows(), old(self).rows()),
            has_id(old(self).rows(), id@) && old(self).rows()[position(
                old(self).rows(),
                id@,
            )].kind != ResourceKind::Container ==> found matches Err(
                ResourceStoreError::NoSuchResource,
            ),
            found matches Ok(pair) ==> pair.0@.id == id@ && pair.0@.kind == ResourceKind::Container
                && held(final(self).rows(), pair.0@) && all_held(
                final(self).rows(),
                metadata_views(pair.1@),
            ) && fetched_only(
                final(self).rows(),
                old(self).rows(),
                id@,
                metadata_views(pair.1@),
            ),
    {
        let metadata = self.get_metadata(id)?;
        let ghost fetched = self.rows();
        match metadata.kind() {
            ResourceKind::Container => {},
            ResourceKind::Leaf => {
                return Err(ResourceStoreError::NoSuchResource);
            },
        }
        // Read the list of children from the payload of the container.
        let listing = self.store.get_variant(id, "default");
        let found = self.list_container(metadata, listing);
        proof {
            self.lemma_wf_schema();
            lemma_extends_twice(old(self).rows(), fetched, self.rows());
            lemma_extends_keeps_rows(fetched, self.rows(), id@);
            if found is Ok {
                let kids = metadata_views(found->Ok_0.1@);
                let listed = metadata_ids(kids);
                let allowed = seq![id@] + listed;
                assert(allowed[0] == id@);
                assert forall|x: Seq<char>|
                    seq![id@].contains(x) || listed.contains(x) implies allowed.contains(x) by {
                    if listed.contains(x) {
                        let k = choose|k: int| 0 <= k < listed.len() && listed[k] == x;
                        assert(allowed[k + 1] == x);
                    }
                }
                if listing is Err || child_list_ids(listing->Ok_0@) is None {
                    lemma_grows_self(fetched, listed);
                }
                lemma_grows_twice(
                    old(self).rows(),
                    fetched,
                    self.rows(),
                    seq![id@],
                    listed,
                    allowed,
                );
            }
        }
        found
    }

    /// The metadata of the root and of the children that its payload
    /// lists. The root and these children enter the index if they are not
    /// in it; no other resource does. What lies deeper comes with the
    /// containers that are asked for.
    pub fn get_root(&mut self) -> (found: Result<
        (ResourceMetadata, Vec<ResourceMetadata>),
        ResourceStoreError,
    >)
        requires
            old(self).wf(),
        ensures
            final(self).wf(),
            final(self).indexers() == old(self).indexers(),
            final(self).cache_capacity() == old(self).cache_capacity(),
            extends(final(self).rows(), old(self).rows()),
            found matches Ok(pair) ==> pair.0@.id == ROOT_ID_STR@ && pair.0@.kind
                == ResourceKind::Container && held(final(self).rows(), pair.0@) && all_held(
                final(self).rows(),
                metadata_views(pair.1@),
            ) && fetched_only(
                final(self).rows(),
                old(self).rows(),
                ROOT_ID_STR@,
                metadata_views(pair.1@),
            ),
    {
        self.get_container(&ResourceId::root())
    }

    /// The metadata of every resource from the root down to a resource.
    /// Fails if the chain of parents comes back to a resource, or if the
    /// metadata of a parent cannot be had. Where the index holds the chain
    /// of parents, only the index is read: the path is found if the chain
    /// ends at the root, and a cycle is reported if it comes back to a
    /// resource before.
    pub fn get_full_path(&mut self, id: &ResourceId) -> (found: Result<
        Vec<ResourceMetadata>,
        ResourceStoreError,
    >)
        requires
            old(self).wf(),
        ensures
            final(self).wf(),
            final(self).indexers() == old(self).indexers(),
            final(self).cache_capacity() == old(self).cache_capacity(),
            extends(final(self).rows(), old(self).rows()),
            found matches Ok(path) ==> is_path(metadata_views(path@), id@) && all_held(
                final(self).rows(),
                metadata_views(path@),
            ) && grows_by(
                final(self).rows(),
                old(self).rows(),
                metadata_ids(metadata_views(path@)),
            ) && final(self).rows().len() <= old(self).rows().len() + path@.len(),
            reaches_root(old(self).rows(), id@) ==> found is Ok && final(self).rows() == old(
                self,
            ).rows(),
            comes_back(old(self).rows(), id@) ==> (found matches Err(
                ResourceStoreError::ResourceCycle,
            )) && final(self).rows() == old(self).rows(),
    {
        let mut climb: Vec<ResourceMetadata> = Vec::new();
        let mut visited = StringHashSet::new();
        let mut current = id.clone();
        let ghost sure = reaches_root(old(self).rows(), id@);
        let ghost mut remaining: nat = 0;
        let ghost start = self.rows();
        let ghost looping = comes_back(start, id@);
        let ghost turn: (nat, nat) = if looping {
            choose|back: nat, steps: nat| #[trigger] turns_back(start, id@, back, steps)
        } else {
            (0nat, 0nat)
        };
        proof {
            lemma_extends_self(self.rows());
            assert(metadata_ids(metadata_views(climb@)) =~= Seq::<Seq<char>>::empty());
            lemma_grows_self(self.rows(), metadata_ids(metadata_views(climb@)));
            if sure {
                let steps = choose|steps: nat| climbs(self.rows(), id@, ROOT_ID_STR@, steps);
                remaining = lemma_least_climb(self.rows(), id@, steps);
            }
        }
        loop
            invariant_except_break
                climb@.len() == 0 ==> current@ == id@,
                climb@.len() > 0 ==> current@ == metadata_views(climb@).last().parent,
                sure ==> least_climb(self.rows(), current@, remaining),
                sure ==> forall|k: int|
                    0 <= k < climb@.len() ==> farther(
                        self.rows(),
                        #[trigger] metadata_ids(metadata_views(climb@))[k],
                        remaining,
                    ),
                looping ==> climb@.len() <= turn.1 && current@ == ancestor(
                    start,
                    id@,
                    climb@.len() as nat,
                ),
                looping ==> forall|k: int|
                    0 <= k < climb@.len() ==> #[trigger] metadata_ids(metadata_views(climb@))[k]
                        == ancestor(start, id@, k as nat),
            invariant
                sure == reaches_root(old(self).rows(), id@),
                sure ==> self.rows() == old(self).rows(),
                start == old(self).rows(),
                looping == comes_back(start, id@),
                looping ==> turns_back(start, id@, turn.0, turn.1),
                looping ==> self.rows() == start,
                self.wf(),
                self.indexers() == old(self).indexers(),
                self.cache_capacity() == old(self).cache_capacity(),
                extends(self.rows(), old(self).rows()),
                is_climb(metadata_views(climb@), id@),
                all_held(self.rows(), metadata_views(climb@)),
                holds_all(visited@, metadata_ids(metadata_views(climb@))),
                metadata_ids(metadata_views(climb@)).no_duplicates(),
                grows_by(self.rows(), old(self).rows(), metadata_ids(metadata_views(climb@))),
                self.rows().len() <= old(self).rows().len() + climb@.len(),
            ensures
                grows_by(self.rows(), old(self).rows(), metadata_ids(metadata_views(climb@))),
                self.rows().len() <= old(self).rows().len() + climb@.len(),
                sure ==> self.rows() == old(self).rows(),
                !looping,
                self.wf(),
                self.indexers() == old(self).indexers(),
                self.cache_capacity() == old(self).cache_capacity(),
                extends(self.rows(), old(self).rows()),
                is_climb(metadata_views(climb@), id@),
                all_held(self.rows(), metadata_views(climb@)),
                metadata_ids(metadata_views(climb@)).no_duplicates(),
                climb@.len() > 0,
                metadata_views(climb@).last().id == ROOT_ID_STR@,
            decreases usize::MAX - climb@.len(),
        {
            if visited.contains(current.as_str()) {
                proof {
                    if sure {
                        let ids = metadata_ids(metadata_views(climb@));
                        let k = choose|k: int| 0 <= k < ids.len() && ids[k] == current@;
                        assert(farther(self.rows(), ids[k], remaining));
                    }
                }
                return Err(ResourceStoreError::ResourceCycle);
            }
            let ghost before = self.rows();
            let ghost sofar = metadata_views(climb@);
            let ghost height = climb@.len() as nat;
            proof {
                if looping {
                    // The chain is not yet back: nothing of it was seen twice.
                    if height == turn.1 {
                        let ids = metadata_ids(sofar);
                        assert(ids[turn.0 as int] == ancestor(start, id@, turn.0));
                        assert(ids.contains(current@));
                    }
                    assert(has_id(start, ancestor(start, id@, height)));
                    assert(ancestor(start, id@, height) != ROOT_ID_STR@);
                }
            }
            let fetched = self.get_metadata(&current);
            proof {
                if sure {
                    lemma_climbs_starts_inside(before, current@, ROOT_ID_STR@, remaining);
                }
                let ids = metadata_ids(sofar);
                let longer = ids.push(current@);
                assert forall|x: Seq<char>|
                    ids.contains(x) || seq![current@].contains(x) implies longer.contains(x) by {
                    if ids.contains(x) {
                        let k = choose|k: int| 0 <= k < ids.len() && ids[k] == x;
                        assert(longer[k] == x);
                    } else {
                        assert(longer[ids.len() as int] == x);
                    }
                }
                lemma_grows_twice(
                    old(self).rows(),
                    before,
                    self.rows(),
                    ids,
                    seq![current@],
                    longer,
                );
            }
            let metadata = fetched?;
            proof {
                self.lemma_wf_schema();
                lemma_extends_twice(old(self).rows(), before, self.rows());
                lemma_held_after_extend(before, self.rows(), sofar);
                lemma_held_push(self.rows(), sofar, metadata@);
                lemma_climb_push(sofar, metadata@, id@);
                lemma_ids_push(sofar, metadata@);
            }
            let ghost seen = visited@;
            visited.insert(current.to_string());
            let next = metadata.parent();
            let at_root = current.is_root();
            climb.push(metadata);
            proof {
                assert(metadata_views(climb@) =~= sofar.push(metadata@));
                assert(climb@.len() == climb.len());
                lemma_holds_one_more(seen, metadata_ids(sofar), current@);
            }
            if at_root {
                break ;
            }
            proof {
                if looping {
                    let ids = metadata_ids(metadata_views(climb@));
                    assert forall|k: int| 0 <= k < climb@.len() implies #[trigger] ids[k]
                        == ancestor(start, id@, k as nat) by {
                        if k < sofar.len() {
                            assert(ids[k] == metadata_ids(sofar)[k]);
                        }
                    }
                    assert(next@ == ancestor(start, id@, height + 1));
                }
                if sure {
                    lemma_least_climb_step(self.rows(), current@, remaining);
                    let ids = metadata_ids(metadata_views(climb@));
                    let fewer = (remaining - 1) as nat;
                    assert forall|k: int| 0 <= k < climb@.len() implies farther(
                        self.rows(),
                        #[trigger] ids[k],
                        fewer,
                    ) by {
                        if k < sofar.len() {
                            assert(ids[k] == metadata_ids(sofar)[k]);
                            assert(farther(self.rows(), metadata_ids(sofar)[k], remaining));
                        }
                    }
                    remaining = fewer;
                }
            }
            current = next;
        }
        // Order the resources from the root down to the target.
        proof {
            lemma_climb_reversed(self.rows(), metadata_views(climb@), id@);
            let up = metadata_ids(metadata_views(climb@));
            let down = metadata_ids(metadata_views(climb@).reverse());
            assert forall|x: Seq<char>| up.contains(x) implies down.contains(x) by {
                let k = choose|k: int| 0 <= k < up.len() && up[k] == x;
                assert(down[up.len() - 1 - k] == x);
            }
            lemma_grows_self(self.rows(), down);
            lemma_grows_twice(old(self).rows(), self.rows(), self.rows(), up, down, down);
        }
        let path = reversed(climb);
        Ok(path)
    }

    /// The size of a container: the sizes of the variants of the leaves
    /// that descend from it, added up.
    pub fn container_size(&mut self, id: &ResourceId) -> (size: Result<u64, ResourceStoreError>)
        requires
            old(self).wf(),
        ensures
            final(self).wf(),
            final(self).indexers() == old(self).indexers(),
            final(self).cache_capacity() == old(self).cache_capacity(),
            extends(final(self).rows(), old(self).rows()),
            grows_by(final(self).rows(), old(self).rows(), seq![id@]),
            final(self).rows().len() <= old(self).rows().len() + 1,
            has_id(old(self).rows(), id@) ==> final(self).rows() == old(self).rows(),
            has_id(old(self).rows(), id@) && !is_container(old(self).rows(), id@)
                ==> size matches Err(ResourceStoreError::NoSuchResource),
            is_container(old(self).rows(), id@) ==> match size {
                Ok(sum) => sum == subtree_size(
                    old(self).rows(),
                    id@,
                    old(self).rows().len() as int,
                ),
                Err(error) => error.is_custom("SizeOverflow"@) && subtree_size(
                    old(self).rows(),
                    id@,
                    old(self).rows().len() as int,
                ) > u64::MAX,
            },
            size matches Ok(sum) ==> is_container(final(self).rows(), id@) && sum == subtree_size(
                final(self).rows(),
                id@,
                final(self).rows().len() as int,
            ),
    {
        let metadata = self.get_metadata(id)?;
        match metadata.kind() {
            ResourceKind::Container => {},
            ResourceKind::Leaf => {
                return Err(ResourceStoreError::NoSuchResource);
            },
        }
        let ghost rows = self.index@;
        proof {
            let p = position(rows, id@);
            assert(rows[p].id == id@ && rows[p].kind == ResourceKind::Container);
        }
        let inside = id_set(&leaving_with(&self.index, id));
        let mut sum: u64 = 0;
        let mut i: usize = 0;
        while i < self.index.len()
            invariant
                i <= rows.len(),
                rows == self.index@,
                self.wf(),
                self.indexers() == old(self).indexers(),
                self.cache_capacity() == old(self).cache_capacity(),
                rows == self.rows(),
                extends(rows, old(self).rows()),
                grows_by(rows, old(self).rows(), seq![id@]),
                rows.len() <= old(self).rows().len() + 1,
                has_id(old(self).rows(), id@) ==> rows == old(self).rows(),
                is_container(rows, id@),
                forall|x: Seq<char>| inside@.contains(x) <==> leaves_with(rows, id@, x),
                sum == subtree_size(rows, id@, i as int),
            decreases rows.len() - i,
        {
            let counted = !self.index.container_at(i) && inside.contains(
                self.index.id_at(i).as_str(),
            );
            if counted {
                let size = match self.index.variants_size_at(i) {
                    Some(size) => size,
                    None => {
                        proof {
                            lemma_subtree_size_grows(rows, id@, i + 1);
                        }
                        return Err(ResourceStoreError::custom("SizeOverflow"));
                    },
                };
                if sum > u64::MAX - size {
                    proof {
                        lemma_subtree_size_grows(rows, id@, i + 1);
                    }
                    return Err(ResourceStoreError::custom("SizeOverflow"));
                }
                sum = sum + size;
            }
            i += 1;
        }
        Ok(sum)
    }

    /// Creates a leaf under a container from the content of a file: the
    /// leaf gets a new identifier, the name of the file, and one variant,
    /// `default`, that holds the content. If the name is taken under the
    /// container, a number goes in front of its extension: the smallest,
    /// from 1 on, that makes the name free.
    pub fn import_from_path(
        &mut self,
        parent: &ResourceId,
        path: &str,
        mime_type: &str,
        content: Vec<u8>,
    ) -> (imported: Result<ResourceMetadata, ResourceStoreError>)
        requires
            old(self).wf(),
        ensures
            final(self).wf(),
            final(self).indexers() == old(self).indexers(),
            final(self).cache_capacity() == old(self).cache_capacity(),
            !is_container(old(self).rows(), parent@) ==> imported matches Err(
                ResourceStoreError::InvalidContainerId,
            ),
            is_container(old(self).rows(), parent@) && content@.len() > u32::MAX ==> (
            imported matches Err(error) && error.is_custom("ContentTooLarge"@)),
            is_container(old(self).rows(), parent@) && content@.len() <= u32::MAX && none_free(
                old(self).rows(),
                parent@,
                base_name(path@),
            ) ==> (imported matches Err(error) && error.is_custom("NoFreeName"@)),
            imported is Err ==> final(self).rows() == old(self).rows(),
            imported matches Ok(metadata) ==> metadata@.parent == parent@ && metadata@.kind
                == ResourceKind::Leaf && is_free_name(
                old(self).rows(),
                parent@,
                base_name(path@),
                metadata@.name,
            ) && metadata@.variants == imported_variants(mime_type@, content@.len() as u32)
                && is_random_uuid(metadata@.id) && metadata@.tags.len() == 0 && metadata@.scorer
                == ScorerModel::empty() && metadata@.created == metadata@.modified
                && content@.len() <= u32::MAX && exists|texts: Seq<Seq<char>>|
                final(self).rows() == old(self).rows().push(
                    #[trigger] indexed_row(metadata@, texts),
                ),
            imported is Ok && tree_ok(old(self).rows()) && rooted(old(self).rows()) ==> tree_ok(
                final(self).rows(),
            ) && rooted(final(self).rows()),
    {
        if !self.index.is_container(parent) {
            return Err(ResourceStoreError::InvalidContainerId);
        }
        if content.len() > u32::MAX as usize {
            return Err(ResourceStoreError::custom("ContentTooLarge"));
        }
        let wanted = file_name(path);
        let name = free_name(&self.index, parent, wanted.as_str())?;
        let id = ResourceId::new();
        let variant = Variant::new("default", mime_type, content.len() as u32);
        let mut variants: Vec<Variant> = Vec::new();
        variants.push(variant.clone());
        let metadata = ResourceMetadata::new(
            &id,
            parent,
            ResourceKind::Leaf,
            name.as_str(),
            Vec::new(),
            variants,
        );
        proof {
            assert(metadata@.variants =~= imported_variants(mime_type@, content@.len() as u32));
        }
        self.create(&metadata, Some(VariantContent::new(variant, content)))?;
        Ok(metadata)
    }
}

} // verus!
