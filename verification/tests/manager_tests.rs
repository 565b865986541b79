use costaeres::common::{
    IdFrec, ResourceId, ResourceKind, ResourceMetadata, ResourceStore, ResourceStoreError, Variant,
    VariantContent,
};
use costaeres::config::Config;
use costaeres::indexer::{create_contacts_indexer, create_places_indexer};
use costaeres::manager::Manager;
use costaeres::scorer::{VisitEntry, VisitPriority};
use std::cell::RefCell;
use std::collections::HashMap;
use std::rc::Rc;

/// What the blob store of the tests holds.
#[derive(Default)]
struct Blobs {
    metadata: HashMap<String, ResourceMetadata>,
    variants: HashMap<(String, String), Vec<u8>>,
    fail_writes: bool,
}

/// A blob store in memory, shared between a test and its manager.
#[derive(Clone, Default)]
struct MemStore {
    blobs: Rc<RefCell<Blobs>>,
}

impl MemStore {
    fn failure() -> ResourceStoreError {
        ResourceStoreError::Io(std::io::Error::new(std::io::ErrorKind::Other, "write failed"))
    }

    fn create_or_update(
        &self,
        metadata: &ResourceMetadata,
        content: Option<VariantContent>,
        create: bool,
    ) -> Result<(), ResourceStoreError> {
        let mut blobs = self.blobs.borrow_mut();
        if blobs.fail_writes {
            return Err(Self::failure());
        }
        let id = metadata.id().to_string();
        if create && blobs.metadata.contains_key(&id) {
            return Err(ResourceStoreError::ResourceAlreadyExists);
        }
        blobs.metadata.insert(id.clone(), metadata.clone());
        if metadata.kind() != ResourceKind::Leaf {
            return Ok(());
        }
        if let Some(content) = content {
            let name = content.0.name();
            if !metadata.has_variant(&name) {
                return Err(ResourceStoreError::InvalidVariant(name));
            }
            blobs.variants.insert((id, name), content.1);
        }
        Ok(())
    }
}

impl ResourceStore for MemStore {
    fn create(
        &self,
        metadata: &ResourceMetadata,
        content: Option<VariantContent>,
    ) -> Result<(), ResourceStoreError> {
        self.create_or_update(metadata, content, true)
    }

    fn update(
        &self,
        metadata: &ResourceMetadata,
        content: Option<VariantContent>,
    ) -> Result<(), ResourceStoreError> {
        self.create_or_update(metadata, content, false)
    }

    fn update_default_variant_from_slice(
        &self,
        id: &ResourceId,
        content: &[u8],
    ) -> Result<(), ResourceStoreError> {
        let mut blobs = self.blobs.borrow_mut();
        if blobs.fail_writes {
            return Err(Self::failure());
        }
        blobs
            .variants
            .insert((id.to_string(), "default".to_string()), content.to_vec());
        Ok(())
    }

    fn delete(&self, id: &ResourceId) -> Result<(), ResourceStoreError> {
        let mut blobs = self.blobs.borrow_mut();
        if blobs.fail_writes {
            return Err(Self::failure());
        }
        let key = id.to_string();
        let metadata = blobs
            .metadata
            .remove(&key)
            .ok_or(ResourceStoreError::NoSuchResource)?;
        for variant in metadata.variants() {
            blobs.variants.remove(&(key.clone(), variant.name()));
        }
        Ok(())
    }

    fn delete_variant(&self, id: &ResourceId, variant: &str) -> Result<(), ResourceStoreError> {
        let mut blobs = self.blobs.borrow_mut();
        if blobs.fail_writes {
            return Err(Self::failure());
        }
        blobs.variants.remove(&(id.to_string(), variant.to_string()));
        Ok(())
    }

    fn get_metadata(&self, id: &ResourceId) -> Result<ResourceMetadata, ResourceStoreError> {
        self.blobs
            .borrow()
            .metadata
            .get(&id.to_string())
            .cloned()
            .ok_or(ResourceStoreError::NoSuchResource)
    }

    fn get_variant(&self, id: &ResourceId, variant: &str) -> Result<Vec<u8>, ResourceStoreError> {
        self.blobs
            .borrow()
            .variants
            .get(&(id.to_string(), variant.to_string()))
            .cloned()
            .ok_or(ResourceStoreError::NoSuchResource)
    }

    fn get_full(
        &self,
        id: &ResourceId,
        variant: &str,
    ) -> Result<(ResourceMetadata, Vec<u8>), ResourceStoreError> {
        Ok((self.get_metadata(id)?, self.get_variant(id, variant)?))
    }
}

fn id(number: i32) -> ResourceId {
    ResourceId::from_number(number)
}

fn root_id() -> ResourceId {
    ResourceId::root()
}

fn named_variant(name: &str, mime_type: &str) -> Variant {
    Variant::new(name, mime_type, 42)
}

fn default_variant() -> Variant {
    named_variant("default", "application/octet-stream")
}

fn named_content(name: &str) -> VariantContent {
    VariantContent::new(
        named_variant(name, "application/octet-stream"),
        vec![7u8; 42],
    )
}

fn default_content() -> VariantContent {
    named_content("default")
}

fn prepare_test() -> (Manager, MemStore) {
    let store = MemStore::default();
    let config = Config {
        db_path: "test_db.sqlite".into(),
        data_dir: ".".into(),
        metadata_cache_capacity: 100,
    };
    let manager = Manager::new(config, Box::new(store.clone()));
    assert!(manager.is_ok(), "Failed to create a manager");
    (manager.unwrap(), store)
}

fn create_hierarchy(manager: &mut Manager) {
    // Adding the root to the store.
    manager.create_root().unwrap();

    // Add a sub-container.
    let container = ResourceMetadata::new(
        &id(1),
        &root_id(),
        ResourceKind::Container,
        "container",
        vec![],
        vec![],
    );
    manager.create(&container, Some(default_content())).unwrap();

    // Add a few children to the container.
    for i in 5..15 {
        let child = ResourceMetadata::new(
            &id(i),
            &id(1),
            if i == 10 {
                ResourceKind::Container
            } else {
                ResourceKind::Leaf
            },
            &format!("child #{}", i),
            vec![],
            vec![default_variant()],
        );
        manager.create(&child, Some(default_content())).unwrap();
    }

    // Add a few children to the sub-container #10.
    for i in 25..35 {
        let child = ResourceMetadata::new(
            &id(i),
            &id(10),
            ResourceKind::Leaf,
            &format!("child #{}", i),
            vec!["sub-child".into()],
            vec![default_variant()],
        );
        manager.create(&child, Some(default_content())).unwrap();
    }
}

fn ids_of(pairs: &[IdFrec]) -> Vec<String> {
    let mut ids: Vec<String> = pairs.iter().map(|pair| pair.id.to_string()).collect();
    ids.sort();
    ids
}

#[test]
fn basic_manager() {
    let (mut manager, _store) = prepare_test();
    manager.create_root().unwrap();

    // Adding an object.
    let meta = ResourceMetadata::new(
        &id(1),
        &root_id(),
        ResourceKind::Leaf,
        "object 0",
        vec!["one".into(), "two".into()],
        vec![default_variant()],
    );
    manager.create(&meta, Some(default_content())).unwrap();

    let res = manager.get_metadata(&meta.id()).unwrap();
    assert_eq!(res, meta);

    // Delete a non-existent object.
    let res = manager.delete(&id(42));
    assert_eq!(res, Err(ResourceStoreError::NoSuchResource));

    // Update the object.
    let res = manager.update_variant(&meta.id(), default_content());
    assert_eq!(res, Ok(()));

    // Delete the object.
    let res = manager.delete(&meta.id());
    assert!(res.is_ok());

    // Expected failure.
    let res = manager.get_metadata(&meta.id());
    assert_eq!(res, Err(ResourceStoreError::NoSuchResource));
}

#[test]
fn root_only() {
    let (mut manager, _store) = prepare_test();
    manager.create_root().unwrap();

    let (root, children) = manager.get_root().unwrap();
    assert!(root.id().is_root());
    assert_eq!(root.parent(), root_id());
    assert_eq!(root.kind(), ResourceKind::Container);
    assert_eq!(root.name(), "/");
    assert_eq!(root.variants(), &vec![Variant::new("default", "inode/directory", 0)]);
    assert!(children.is_empty());
    assert_eq!(manager.resource_count().unwrap(), 1);
}

#[test]
fn rehydrate_single() {
    let (mut manager, store) = prepare_test();

    // Adding an object to the store alone.
    let meta = ResourceMetadata::new(
        &id(1),
        &root_id(),
        ResourceKind::Leaf,
        "object 0",
        vec!["one".into(), "two".into()],
        vec![default_variant()],
    );
    store.create(&meta, Some(default_content())).unwrap();

    assert_eq!(manager.has_object(&meta.id()).unwrap(), false);

    let res = manager.get_metadata(&meta.id()).unwrap();
    assert_eq!(res, meta);

    assert_eq!(manager.has_object(&meta.id()).unwrap(), true);
}

#[test]
fn check_constraints() {
    let (mut manager, _store) = prepare_test();

    let meta = ResourceMetadata::new(
        &id(1),
        &id(1),
        ResourceKind::Leaf,
        "object 0",
        vec![],
        vec![],
    );

    // Fail to store an object where both id and parent are 1.
    let res = manager.create(&meta, Some(default_content()));
    assert_eq!(res, Err(ResourceStoreError::InvalidContainerId));

    // Fail to store an object if the parent doesn't exist.
    let leaf_meta = ResourceMetadata::new(
        &id(1),
        &root_id(),
        ResourceKind::Leaf,
        "leaf 1",
        vec![],
        vec![default_variant()],
    );
    let res = manager.create(&leaf_meta, Some(default_content()));
    assert_eq!(res, Err(ResourceStoreError::InvalidContainerId));

    // The root is a container.
    let root_leaf = ResourceMetadata::new(
        &root_id(),
        &root_id(),
        ResourceKind::Leaf,
        "root",
        vec![],
        vec![default_variant()],
    );
    let res = manager.create(&root_leaf, None);
    assert_eq!(res, Err(ResourceStoreError::InvalidContainerId));

    // The root is its own parent.
    let root_elsewhere = ResourceMetadata::new(
        &root_id(),
        &id(1),
        ResourceKind::Container,
        "root",
        vec![],
        vec![default_variant()],
    );
    let res = manager.create(&root_elsewhere, None);
    assert_eq!(res, Err(ResourceStoreError::InvalidContainerId));

    // Create the root.
    let root_meta = ResourceMetadata::new(
        &root_id(),
        &root_id(),
        ResourceKind::Container,
        "root",
        vec![],
        vec![default_variant()],
    );
    manager.create(&root_meta, Some(default_content())).unwrap();

    // And now add the leaf.
    manager.create(&leaf_meta, Some(default_content())).unwrap();

    // A leaf is no parent.
    let under_leaf = ResourceMetadata::new(
        &id(3),
        &id(1),
        ResourceKind::Leaf,
        "leaf 3",
        vec![],
        vec![default_variant()],
    );
    let res = manager.create(&under_leaf, None);
    assert_eq!(res, Err(ResourceStoreError::InvalidContainerId));

    // Try to update the leaf to a non-existent parent.
    let leaf_meta = ResourceMetadata::new(
        &id(1),
        &id(2),
        ResourceKind::Leaf,
        "leaf 1",
        vec![],
        vec![default_variant()],
    );
    let res = manager.create(&leaf_meta, Some(default_content()));
    assert_eq!(res, Err(ResourceStoreError::InvalidContainerId));
    let res = manager.update(&leaf_meta, Some(default_content()));
    assert_eq!(res, Err(ResourceStoreError::InvalidContainerId));

    // The payload of a leaf belongs to one of its variants.
    let other = ResourceMetadata::new(
        &id(4),
        &root_id(),
        ResourceKind::Leaf,
        "leaf 4",
        vec![],
        vec![default_variant()],
    );
    let res = manager.create(&other, Some(named_content("unknown")));
    assert_eq!(
        res,
        Err(ResourceStoreError::InvalidVariant("unknown".into()))
    );
    assert_eq!(manager.resource_count().unwrap(), 2);
}

#[test]
fn delete_hierarchy() {
    let (mut manager, store) = prepare_test();

    create_hierarchy(&mut manager);
    assert_eq!(manager.resource_count().unwrap(), 22);

    // Delete a single child.
    manager.delete(&id(12)).unwrap();
    // Child 12 disappears.
    assert_eq!(manager.has_object(&id(12)).unwrap(), false);

    // Child 10 exists now.
    assert_eq!(manager.has_object(&id(10)).unwrap(), true);

    // Delete the container.
    manager.delete(&id(1)).unwrap();
    // Child 10 disappears, but not the root.
    assert_eq!(manager.has_object(&id(10)).unwrap(), false);
    assert_eq!(manager.has_object(&id(30)).unwrap(), false);
    assert_eq!(manager.has_object(&root_id()).unwrap(), true);
    assert_eq!(manager.resource_count().unwrap(), 1);

    // The blobs have left with the resources.
    assert_eq!(store.blobs.borrow().metadata.len(), 1);
    assert_eq!(
        store.get_metadata(&id(30)),
        Err(ResourceStoreError::NoSuchResource)
    );
    let (_, children) = manager.get_root().unwrap();
    assert!(children.is_empty());
}

#[test]
fn rehydrate_full() {
    let (mut manager, _store) = prepare_test();

    create_hierarchy(&mut manager);

    assert_eq!(manager.resource_count().unwrap(), 22);
    let before = manager.get_metadata(&id(7)).unwrap();

    // Clear the local index.
    manager.clear().unwrap();
    assert_eq!(manager.resource_count().unwrap(), 0);

    let (root_meta, children) = manager.get_root().unwrap();
    assert!(root_meta.id().is_root());
    assert_eq!(children.len(), 1);

    let (sub_meta, children) = manager.get_container(&children[0].id()).unwrap();
    assert_eq!(sub_meta.id(), id(1));
    assert_eq!(children.len(), 10);
    assert_eq!(manager.resource_count().unwrap(), 12);

    // What comes back is what was stored.
    let after = manager.get_metadata(&id(7)).unwrap();
    assert_eq!(after, before);
    assert_eq!(children[2], before);
}

#[test]
fn get_full_path() {
    let (mut manager, _store) = prepare_test();

    create_hierarchy(&mut manager);

    let root_path = manager.get_full_path(&root_id()).unwrap();
    assert_eq!(root_path.len(), 1);
    assert!(root_path[0].id().is_root());

    let obj_path = manager.get_full_path(&id(30)).unwrap();
    assert_eq!(obj_path.len(), 4);
    assert!(obj_path[0].id().is_root());
    assert_eq!(obj_path[1].id(), id(1));
    assert_eq!(obj_path[2].id(), id(10));
    assert_eq!(obj_path[3].id(), id(30));

    // The path is rebuilt from the blobs when the index is empty.
    manager.clear().unwrap();
    let obj_path = manager.get_full_path(&id(30)).unwrap();
    assert_eq!(obj_path.len(), 4);
    assert_eq!(manager.resource_count().unwrap(), 4);

    let res = manager.get_full_path(&id(99));
    assert_eq!(res, Err(ResourceStoreError::NoSuchResource));
}

#[test]
fn full_path_detects_cycles() {
    let (mut manager, store) = prepare_test();

    // Two resources of the store that are the parent of each other.
    let one = ResourceMetadata::new(&id(1), &id(2), ResourceKind::Container, "one", vec![], vec![]);
    let two = ResourceMetadata::new(&id(2), &id(1), ResourceKind::Container, "two", vec![], vec![]);
    store.create(&one, None).unwrap();
    store.create(&two, None).unwrap();

    let res = manager.get_full_path(&id(1));
    assert_eq!(res, Err(ResourceStoreError::ResourceCycle));
}

#[test]
fn search_by_name() {
    let (mut manager, _store) = prepare_test();

    create_hierarchy(&mut manager);

    let results = manager.by_name("unknown", Some("image/png")).unwrap();
    assert_eq!(results.len(), 0);

    let results = manager.by_name("child #12", None).unwrap();
    assert_eq!(results.len(), 1);
    assert_eq!(results[0], id(12));

    let results = manager.by_name("child #12", Some("image/png")).unwrap();
    assert_eq!(results.len(), 0);

    let results = manager.by_name("child #27", Some("sub-child")).unwrap();
    assert_eq!(results, vec![id(27)]);
}

#[test]
fn search_by_tag() {
    let (mut manager, _store) = prepare_test();

    create_hierarchy(&mut manager);

    let results = manager.by_tag("no-such-tag").unwrap();
    assert_eq!(results.len(), 0);

    let results = manager.by_tag("sub-child").unwrap();
    assert_eq!(results.len(), 10);
    assert_eq!(results[0], id(25));
}

#[test]
fn search_by_text() {
    let (mut manager, _store) = prepare_test();

    create_hierarchy(&mut manager);

    let results = manager.by_text("no-match", None).unwrap();
    assert_eq!(results.len(), 0);

    let results = manager.by_text("cont", None).unwrap();
    assert_eq!(ids_of(&results), vec!["id-1"]);

    let results = manager.by_text("child", None).unwrap();
    assert_eq!(results.len(), 20);

    let results = manager.by_text("child #27", None).unwrap();
    assert_eq!(ids_of(&results), vec!["id-27"]);

    let results = manager.by_text("child #27 #27", None).unwrap();
    assert_eq!(results.len(), 1);

    let results = manager.by_text("child #17", None).unwrap();
    assert_eq!(results.len(), 0);

    // The tokens of a query are cut to be looked up.
    let results = manager.by_text("CONTAINER", None).unwrap();
    assert_eq!(ids_of(&results), vec!["id-1"]);
    let results = manager.by_text("contXYZ", None).unwrap();
    assert_eq!(results.len(), 0);

    let results = manager.by_text("child", Some("sub-child".into())).unwrap();
    assert_eq!(results.len(), 10);
}

#[test]
fn empty_queries_fail() {
    let (mut manager, _store) = prepare_test();
    manager.create_root().unwrap();

    assert_eq!(
        manager.by_name("  ", None),
        Err(ResourceStoreError::Custom("EmptyNameQuery".into()))
    );
    assert_eq!(
        manager.by_tag(""),
        Err(ResourceStoreError::Custom("EmptyTagQuery".into()))
    );
    assert_eq!(
        manager.by_text(" \t", None),
        Err(ResourceStoreError::Custom("EmptyTextQuery".into()))
    );
    assert_eq!(
        manager.child_by_name(&root_id(), ""),
        Err(ResourceStoreError::Custom("EmptyNameQuery".into()))
    );
    assert_eq!(
        manager.top_by_frecency(0),
        Err(ResourceStoreError::Custom("ZeroCountQuery".into()))
    );
    assert_eq!(
        manager.last_modified(0),
        Err(ResourceStoreError::Custom("ZeroCountQuery".into()))
    );
}

#[test]
fn score() {
    let (mut manager, _store) = prepare_test();
    manager.create_root().unwrap();

    let root_meta = manager.get_metadata(&root_id()).unwrap();
    assert_eq!(root_meta.scorer().frecency(), 0);

    // Update the score.
    let now = chrono::Utc::now().timestamp_micros();
    manager
        .visit(&root_id(), &VisitEntry::new(now, VisitPriority::Normal))
        .unwrap();
    let root_meta = manager.get_metadata(&root_id()).unwrap();
    let initial_score = root_meta.scorer().frecency();
    assert_eq!(initial_score, 100);
    assert_eq!(root_meta.scorer().visit_count(), 1);

    // A visit of what is nowhere fails.
    let res = manager.visit(&id(3), &VisitEntry::new(now, VisitPriority::Normal));
    assert_eq!(res, Err(ResourceStoreError::NoSuchResource));

    // Clear the index to force re-hydration.
    manager.clear().unwrap();

    // Load the root again: a visit writes no blob, so the score is the
    // one that the blob holds.
    let root_meta = manager.get_metadata(&root_id()).unwrap();
    assert_eq!(root_meta.scorer().frecency(), 0);
    assert_eq!(root_meta.scorer().visit_count(), 0);
}

#[test]
fn top_frecency() {
    let (mut manager, _store) = prepare_test();

    create_hierarchy(&mut manager);

    let root_meta = manager.get_metadata(&root_id()).unwrap();
    assert_eq!(root_meta.scorer().frecency(), 0);

    // Update the score.
    manager
        .visit(&root_id(), &VisitEntry::now(VisitPriority::Normal))
        .unwrap();
    let root_meta = manager.get_metadata(&root_id()).unwrap();
    assert_eq!(root_meta.scorer().frecency(), 100);

    let results = manager.top_by_frecency(10).unwrap();
    assert_eq!(results.len(), 10);
    assert_eq!(results[0], IdFrec::new(&root_id(), 100));
    // Resources of the same frecency keep the order of the index.
    assert_eq!(results[1], IdFrec::new(&id(1), 0));
    assert_eq!(results[2], IdFrec::new(&id(5), 0));

    manager
        .visit(&id(9), &VisitEntry::now(VisitPriority::VeryHigh))
        .unwrap();
    let results = manager.top_by_frecency(2).unwrap();
    assert_eq!(
        results,
        vec![IdFrec::new(&id(9), 200), IdFrec::new(&root_id(), 100)]
    );

    let results = manager.top_by_frecency(100).unwrap();
    assert_eq!(results.len(), 22);
}

#[test]
fn last_modified_first() {
    let (mut manager, _store) = prepare_test();
    manager.create_root().unwrap();

    let mut old = ResourceMetadata::new(&id(1), &root_id(), ResourceKind::Leaf, "old", vec![], vec![]);
    old.set_modified(1_000);
    let mut new = ResourceMetadata::new(&id(2), &root_id(), ResourceKind::Leaf, "new", vec![], vec![]);
    new.set_modified(i64::MAX);
    manager.create(&old, None).unwrap();
    manager.create(&new, None).unwrap();

    let results = manager.last_modified(2).unwrap();
    assert_eq!(results, vec![IdFrec::new(&id(2), 0), IdFrec::new(&root_id(), 0)]);
    let results = manager.last_modified(10).unwrap();
    assert_eq!(results.len(), 3);
    assert_eq!(results[2], IdFrec::new(&id(1), 0));
}

#[test]
fn index_places() {
    let (mut manager, _store) = prepare_test();
    manager.add_indexer(Box::new(create_places_indexer()));

    manager.create_root().unwrap();
    let leaf_meta = ResourceMetadata::new(
        &id(1),
        &root_id(),
        ResourceKind::Leaf,
        "ecdf525a-e5d6-11eb-9c9b-d3fd1d0ea335",
        vec!["places".into()],
        vec![named_variant("default", "application/x-places+json")],
    );

    let places1 = br#"{"url": "https://example.com/index.html", "title": "A web page", "icon": "x"}"#;
    manager
        .create(
            &leaf_meta,
            Some(VariantContent::new(
                named_variant("default", "application/x-places+json"),
                places1.to_vec(),
            )),
        )
        .unwrap();

    // Found in the url.
    let results = manager.by_text("example", Some("places".into())).unwrap();
    assert_eq!(results.len(), 1);

    // Found in the title.
    let results = manager.by_text("web", Some("places".into())).unwrap();
    assert_eq!(results.len(), 1);

    // Not indexed: the field is not one of the indexer.
    let results = manager.by_text("x", None).unwrap();
    assert_eq!(results.len(), 1);
    let results = manager.by_text("icon", None).unwrap();
    assert_eq!(results.len(), 0);

    // Update the object with new content.
    let places2 = br#"{"url": "https://example.com/other.html", "title": "A new page"}"#;
    manager
        .update_variant(
            &leaf_meta.id(),
            VariantContent::new(
                named_variant("default", "application/x-places+json"),
                places2.to_vec(),
            ),
        )
        .unwrap();

    // Found in the url.
    let results = manager.by_text("example", Some("places".into())).unwrap();
    assert_eq!(results.len(), 1);

    // Not found in the title anymore.
    let results = manager.by_text("web", Some("places".into())).unwrap();
    assert_eq!(results.len(), 0);

    // Found in the new title.
    let results = manager.by_text("new", Some("places".into())).unwrap();
    assert_eq!(results.len(), 1);

    // Delete the object, removing the associated text index.
    manager.delete(&leaf_meta.id()).unwrap();

    // Used to be found in the url.
    let results = manager.by_text("example", Some("places".into())).unwrap();
    assert_eq!(results.len(), 0);

    // Used to be found in the title.
    let results = manager.by_text("new", Some("places".into())).unwrap();
    assert_eq!(results.len(), 0);
}

#[test]
fn index_contacts() {
    let (mut manager, _store) = prepare_test();
    manager.add_indexer(Box::new(create_contacts_indexer()));

    manager.create_root().unwrap();
    let leaf_meta = ResourceMetadata::new(
        &id(1),
        &root_id(),
        ResourceKind::Leaf,
        "ecdf525a-e5d6-11eb-9c9b-d3fd1d0ea335",
        vec!["contact".into()],
        vec![named_variant("default", "application/x-contacts+json")],
    );

    let contacts = br#"{"name": "Jean Dupont", "phone": ["+1234567", 12, "555"],
        "email": ["jean.dupont@secret.org"], "age": 42}"#;
    manager
        .create(
            &leaf_meta,
            Some(VariantContent::new(
                named_variant("default", "application/x-contacts+json"),
                contacts.to_vec(),
            )),
        )
        .unwrap();

    // Found in the name.
    let results = manager.by_text("jean", Some("contact".into())).unwrap();
    assert_eq!(results.len(), 1);

    // Found in the phone number.
    let results = manager.by_text("4567", Some("contact".into())).unwrap();
    assert_eq!(results.len(), 1);

    // Found in the name and email.
    let results = manager.by_text("dupont", Some("contact".into())).unwrap();
    assert_eq!(results.len(), 1);

    // Found in the email.
    let results = manager.by_text("secret", Some("contact".into())).unwrap();
    assert_eq!(results.len(), 1);

    // Not found under another tag.
    let results = manager.by_text("secret", Some("places".into())).unwrap();
    assert_eq!(results.len(), 0);
}

#[test]
fn indexers_skip_other_families_and_refuse_broken_payloads() {
    let (mut manager, _store) = prepare_test();
    manager.add_indexer(Box::new(create_places_indexer()));
    manager.create_root().unwrap();

    // Another media type: the payload is not read.
    let plain = ResourceMetadata::new(
        &id(1),
        &root_id(),
        ResourceKind::Leaf,
        "plain",
        vec![],
        vec![named_variant("default", "text/plain")],
    );
    manager
        .create(
            &plain,
            Some(VariantContent::new(
                named_variant("default", "text/plain"),
                b"not json at all".to_vec(),
            )),
        )
        .unwrap();
    assert_eq!(manager.by_text("json", None).unwrap().len(), 0);

    // The media type of the indexer: a broken payload is fatal, and the
    // index stays as it was.
    let broken = ResourceMetadata::new(
        &id(2),
        &root_id(),
        ResourceKind::Leaf,
        "broken",
        vec![],
        vec![named_variant("default", "application/x-places+json")],
    );
    let res = manager.create(
        &broken,
        Some(VariantContent::new(
            named_variant("default", "application/x-places+json"),
            b"{ not json".to_vec(),
        )),
    );
    assert!(matches!(res, Err(ResourceStoreError::Json(_))));
    assert_eq!(manager.has_object(&id(2)).unwrap(), false);
    assert_eq!(manager.resource_count().unwrap(), 2);
}

#[test]
fn get_root_children() {
    let (mut manager, _store) = prepare_test();

    manager.create_root().unwrap();

    let (root, children) = manager.get_container(&root_id()).unwrap();

    assert!(root.id().is_root());
    assert_eq!(children.len(), 0);
}

#[test]
fn unique_children_names() {
    let (mut manager, _store) = prepare_test();

    manager.create_root().unwrap();

    let leaf_meta = ResourceMetadata::new(
        &id(1),
        &root_id(),
        ResourceKind::Leaf,
        "file.txt",
        vec![],
        vec![],
    );

    manager.create(&leaf_meta, None).unwrap();

    let res = manager.create(&leaf_meta, None);
    assert_eq!(res, Err(ResourceStoreError::ResourceAlreadyExists));

    // The same name under the same parent, with another identifier.
    let twin = ResourceMetadata::new(
        &id(2),
        &root_id(),
        ResourceKind::Leaf,
        "file.txt",
        vec![],
        vec![],
    );
    let res = manager.create(&twin, None);
    assert_eq!(res, Err(ResourceStoreError::ResourceAlreadyExists));
    assert_eq!(manager.resource_count().unwrap(), 2);
}

#[test]
fn child_by_name() {
    let (mut manager, _store) = prepare_test();

    manager.create_root().unwrap();

    let leaf_meta = ResourceMetadata::new(
        &id(1),
        &root_id(),
        ResourceKind::Leaf,
        "file.txt",
        vec![],
        vec![],
    );

    manager.create(&leaf_meta, None).unwrap();

    let leaf_meta = ResourceMetadata::new(
        &id(2),
        &root_id(),
        ResourceKind::Leaf,
        "photo.png",
        vec![],
        vec![],
    );

    manager.create(&leaf_meta, None).unwrap();

    let file = manager.child_by_name(&root_id(), "file.txt").unwrap();
    assert_eq!(file.name(), "file.txt");

    let image = manager.child_by_name(&root_id(), "photo.png").unwrap();
    assert_eq!(image.name(), "photo.png");

    let res = manager.child_by_name(&root_id(), "absent");
    assert_eq!(res, Err(ResourceStoreError::NoSuchResource));
}

#[test]
fn frecency_update() {
    let (mut manager, _store) = prepare_test();

    manager.create_root().unwrap();

    let meta = manager.get_metadata(&root_id()).unwrap();
    assert_eq!(meta.scorer().frecency(), 0);

    manager
        .visit(&meta.id(), &VisitEntry::now(VisitPriority::Normal))
        .unwrap();
    let meta = manager.get_metadata(&root_id()).unwrap();
    assert_eq!(meta.scorer().frecency(), 100);

    // Twelve visits: all are counted, the last ten are kept.
    for _ in 0..11 {
        manager
            .visit(&meta.id(), &VisitEntry::now(VisitPriority::Normal))
            .unwrap();
    }
    let meta = manager.get_metadata(&root_id()).unwrap();
    assert_eq!(meta.scorer().visit_count(), 12);
    assert_eq!(meta.scorer().entries().len(), 10);
    assert_eq!(meta.scorer().frecency(), 1200);
}

#[test]
fn import_from_path() {
    let (mut manager, _store) = prepare_test();

    manager.create_root().unwrap();

    // Correct file.
    let meta = manager
        .import_from_path(&root_id(), "./test-fixtures/import.txt", "text/plain", b"hello".to_vec())
        .unwrap();
    assert_eq!(meta.name(), "import.txt".to_owned());
    assert_eq!(meta.variants(), &vec![Variant::new("default", "text/plain", 5)]);
    let (_, payload) = manager.get_leaf(&meta.id(), "default").unwrap();
    assert_eq!(payload, b"hello".to_vec());

    // Wrong parent.
    let res = manager.import_from_path(
        &meta.id(),
        "./test-fixtures/import.txt",
        "text/plain",
        b"hello".to_vec(),
    );
    assert_eq!(res, Err(ResourceStoreError::InvalidContainerId));

    // Duplicate name -> renaming resource.
    let meta = manager
        .import_from_path(&root_id(), "./test-fixtures/import.txt", "text/plain", b"hello".to_vec())
        .unwrap();
    assert_eq!(meta.name(), "import(1).txt".to_owned());

    let meta = manager
        .import_from_path(&root_id(), "import.txt", "text/plain", b"hello".to_vec())
        .unwrap();
    assert_eq!(meta.name(), "import(2).txt".to_owned());

    // Without an extension the number comes last.
    let meta = manager
        .import_from_path(&root_id(), "a/b/README", "text/plain", vec![])
        .unwrap();
    assert_eq!(meta.name(), "README".to_owned());
    let meta = manager
        .import_from_path(&root_id(), "c/README", "text/plain", vec![])
        .unwrap();
    assert_eq!(meta.name(), "README(1)".to_owned());
}

#[test]
fn container_size() {
    let (mut manager, _store) = prepare_test();

    create_hierarchy(&mut manager);

    let size = manager.container_size(&root_id()).unwrap();
    assert_eq!(size, 798);

    let size = manager.container_size(&id(10)).unwrap();
    assert_eq!(size, 420);

    let res = manager.container_size(&id(5));
    assert_eq!(res, Err(ResourceStoreError::NoSuchResource));
}

#[test]
fn create_then_delete_restores_the_index() {
    let (mut manager, _store) = prepare_test();
    create_hierarchy(&mut manager);

    let before = manager.top_by_frecency(100).unwrap();
    let names: Vec<ResourceId> = manager.by_text("child", None).unwrap().into_iter().map(|p| p.id).collect();

    let extra = ResourceMetadata::new(
        &id(99),
        &id(10),
        ResourceKind::Container,
        "child extra",
        vec![],
        vec![],
    );
    manager.create(&extra, None).unwrap();
    assert_eq!(manager.resource_count().unwrap(), 23);
    manager.delete(&id(99)).unwrap();

    assert_eq!(manager.resource_count().unwrap(), 22);
    assert_eq!(manager.top_by_frecency(100).unwrap(), before);
    let after: Vec<ResourceId> = manager.by_text("child", None).unwrap().into_iter().map(|p| p.id).collect();
    assert_eq!(after, names);
}

#[test]
fn update_then_get_metadata() {
    let (mut manager, _store) = prepare_test();
    create_hierarchy(&mut manager);

    let mut meta = manager.get_metadata(&id(7)).unwrap();
    meta.set_name("renamed seven");
    meta.set_tags(vec!["seven".into()]);
    meta.add_variant(named_variant("thumbnail", "image/png"));
    manager.update(&meta, Some(named_content("thumbnail"))).unwrap();

    assert_eq!(manager.get_metadata(&id(7)).unwrap(), meta);
    assert_eq!(manager.by_text("renamed", None).unwrap().len(), 1);
    assert_eq!(manager.by_text("#7", None).unwrap().len(), 0);
    assert_eq!(manager.by_tag("seven").unwrap(), vec![id(7)]);
    assert_eq!(manager.resource_count().unwrap(), 22);

    let mut moved;
    // A container with children stays a container.
    moved = ResourceMetadata::new(&id(10), &id(1), ResourceKind::Leaf, "child #10", vec![], vec![]);
    assert_eq!(
        manager.update(&moved, None),
        Err(ResourceStoreError::InvalidContainerId)
    );
    // A name that a sibling has is refused.
    moved = ResourceMetadata::new(&id(7), &id(1), ResourceKind::Leaf, "child #8", vec![], vec![]);
    assert_eq!(
        manager.update(&moved, None),
        Err(ResourceStoreError::ResourceAlreadyExists)
    );
    assert_eq!(manager.get_metadata(&id(7)).unwrap(), meta);
}

#[test]
fn update_moves_resources() {
    let (mut manager, store) = prepare_test();
    create_hierarchy(&mut manager);

    // A leaf moves under another container.
    let mut leaf = manager.get_metadata(&id(7)).unwrap();
    let moved = ResourceMetadata::new(
        &id(7),
        &id(10),
        ResourceKind::Leaf,
        "child #7",
        vec![],
        vec![default_variant()],
    );
    manager.update(&moved, None).unwrap();
    leaf = manager.get_metadata(&leaf.id()).unwrap();
    assert_eq!(leaf.parent(), id(10));
    let path = manager.get_full_path(&id(7)).unwrap();
    let ids: Vec<ResourceId> = path.iter().map(|m| m.id()).collect();
    assert_eq!(ids, vec![root_id(), id(1), id(10), id(7)]);

    // Both containers list their children anew.
    let (_, children) = manager.get_container(&id(10)).unwrap();
    assert_eq!(children.len(), 11);
    assert_eq!(children[10].id(), id(7));
    let (_, children) = manager.get_container(&id(1)).unwrap();
    assert_eq!(children.len(), 9);
    assert_eq!(manager.container_size(&id(10)).unwrap(), 462);
    assert_eq!(store.get_metadata(&id(7)).unwrap().parent(), id(10));

    // A container does not move under what descends from it.
    let cycle = ResourceMetadata::new(
        &id(1),
        &id(10),
        ResourceKind::Container,
        "container",
        vec![],
        vec![],
    );
    assert_eq!(
        manager.update(&cycle, None),
        Err(ResourceStoreError::ResourceCycle)
    );
    // Nor under itself, nor under a leaf, nor does the root move.
    let own = ResourceMetadata::new(&id(1), &id(1), ResourceKind::Container, "container", vec![], vec![]);
    assert_eq!(
        manager.update(&own, None),
        Err(ResourceStoreError::InvalidContainerId)
    );
    let under_leaf = ResourceMetadata::new(&id(10), &id(5), ResourceKind::Container, "c", vec![], vec![]);
    assert_eq!(
        manager.update(&under_leaf, None),
        Err(ResourceStoreError::InvalidContainerId)
    );
    let root = ResourceMetadata::new(&root_id(), &id(1), ResourceKind::Container, "/", vec![], vec![]);
    assert_eq!(
        manager.update(&root, None),
        Err(ResourceStoreError::InvalidContainerId)
    );

    // A container moves with what descends from it.
    let up = ResourceMetadata::new(
        &id(10),
        &root_id(),
        ResourceKind::Container,
        "child #10",
        vec![],
        vec![default_variant()],
    );
    manager.update(&up, None).unwrap();
    let path = manager.get_full_path(&id(30)).unwrap();
    let ids: Vec<ResourceId> = path.iter().map(|m| m.id()).collect();
    assert_eq!(ids, vec![root_id(), id(10), id(30)]);
    let (_, children) = manager.get_root().unwrap();
    assert_eq!(children.len(), 2);
    assert_eq!(manager.resource_count().unwrap(), 22);
}

#[test]
fn failed_blob_write_rolls_back() {
    let (mut manager, store) = prepare_test();
    create_hierarchy(&mut manager);

    store.blobs.borrow_mut().fail_writes = true;

    let extra = ResourceMetadata::new(&id(99), &id(1), ResourceKind::Leaf, "extra", vec![], vec![]);
    assert!(matches!(
        manager.create(&extra, None),
        Err(ResourceStoreError::Io(_))
    ));
    assert_eq!(manager.has_object(&id(99)).unwrap(), false);

    assert!(matches!(
        manager.delete(&id(1)),
        Err(ResourceStoreError::Io(_))
    ));
    assert_eq!(manager.resource_count().unwrap(), 22);

    let mut meta = manager.get_metadata(&id(7)).unwrap();
    let stored = manager.get_metadata(&id(7)).unwrap();
    meta.set_name("renamed");
    assert!(matches!(
        manager.update(&meta, None),
        Err(ResourceStoreError::Io(_))
    ));
    assert_eq!(manager.get_metadata(&id(7)).unwrap(), stored);

    assert!(matches!(
        manager.delete_variant(&id(7), "default"),
        Err(ResourceStoreError::Io(_))
    ));
    assert!(manager.get_metadata(&id(7)).unwrap().has_variant("default"));

    store.blobs.borrow_mut().fail_writes = false;
    manager.create(&extra, None).unwrap();
    assert_eq!(manager.has_object(&id(99)).unwrap(), true);
}

#[test]
fn delete_variants() {
    let (mut manager, store) = prepare_test();
    create_hierarchy(&mut manager);

    assert_eq!(
        manager.delete_variant(&id(7), "thumbnail"),
        Err(ResourceStoreError::InvalidVariant("thumbnail".into()))
    );
    manager.delete_variant(&id(7), "default").unwrap();
    assert!(!manager.get_metadata(&id(7)).unwrap().has_variant("default"));
    assert_eq!(
        store.get_variant(&id(7), "default"),
        Err(ResourceStoreError::NoSuchResource)
    );
    assert!(!store.get_metadata(&id(7)).unwrap().has_variant("default"));

    // The list of the children of a container stays while it has children.
    assert_eq!(
        manager.delete_variant(&id(10), "default"),
        Err(ResourceStoreError::InvalidVariant("default".into()))
    );
    assert_eq!(manager.container_size(&root_id()).unwrap(), 756);
}

#[test]
fn leaves_and_containers() {
    let (mut manager, _store) = prepare_test();
    create_hierarchy(&mut manager);

    let (meta, payload) = manager.get_leaf(&id(7), "default").unwrap();
    assert_eq!(meta.id(), id(7));
    assert_eq!(payload, vec![7u8; 42]);
    assert_eq!(
        manager.get_leaf(&id(10), "default"),
        Err(ResourceStoreError::NoSuchResource)
    );
    assert_eq!(
        manager.get_container(&id(7)),
        Err(ResourceStoreError::NoSuchResource)
    );
    assert_eq!(manager.is_container(&id(10)).unwrap(), true);
    assert_eq!(manager.is_container(&id(7)).unwrap(), false);
    assert_eq!(manager.is_container(&id(77)).unwrap(), false);

    let (_, children) = manager.get_container(&id(10)).unwrap();
    let names: Vec<String> = children.iter().map(|child| child.name()).collect();
    assert_eq!(names.len(), 10);
    assert_eq!(names[0], "child #25");
    assert_eq!(names[9], "child #34");
}

#[test]
fn broken_listings_are_refused() {
    let (mut manager, store) = prepare_test();
    create_hierarchy(&mut manager);

    store
        .blobs
        .borrow_mut()
        .variants
        .insert(("id-1".to_string(), "default".to_string()), vec![3, 1, 97]);
    let res = manager.get_container(&id(1));
    assert!(matches!(res, Err(ResourceStoreError::Bincode(_))));

    // A listing of a child that is nowhere.
    let listing = costaeres::listing::serialize_children(&vec![id(5), id(77)]).unwrap();
    store
        .blobs
        .borrow_mut()
        .variants
        .insert(("id-1".to_string(), "default".to_string()), listing);
    let res = manager.get_container(&id(1));
    assert_eq!(res, Err(ResourceStoreError::NoSuchResource));

    // Without a listing a container has no child.
    store
        .blobs
        .borrow_mut()
        .variants
        .remove(&("id-1".to_string(), "default".to_string()));
    let (meta, children) = manager.get_container(&id(1)).unwrap();
    assert_eq!(meta.id(), id(1));
    assert!(children.is_empty());
    assert_eq!(manager.resource_count().unwrap(), 22);
}

#[test]
fn visits_are_counted_up_to_a_limit() {
    let (mut manager, _store) = prepare_test();
    manager.create_root().unwrap();

    let visit = VisitEntry::new(1_000, VisitPriority::Normal);
    let almost = costaeres::scorer::Scorer::from_parts(21_474_835, vec![visit; 10]).unwrap();
    let mut meta = ResourceMetadata::new(&id(1), &root_id(), ResourceKind::Leaf, "one", vec![], vec![]);
    meta.set_scorer(&almost);
    manager.create(&meta, None).unwrap();
    assert_eq!(manager.get_metadata(&id(1)).unwrap(), meta);

    manager.visit(&id(1), &visit).unwrap();
    let stored = manager.get_metadata(&id(1)).unwrap();
    assert_eq!(stored.scorer().visit_count(), 21_474_836);
    assert_eq!(
        manager.visit(&id(1), &visit),
        Err(ResourceStoreError::Custom("VisitCountOverflow".into()))
    );
    assert_eq!(manager.get_metadata(&id(1)).unwrap(), stored);
}

#[test]
fn the_cache_is_advisory() {
    for capacity in [0, 1, 2] {
        let store = MemStore::default();
        let config = Config {
            db_path: "test_db.sqlite".into(),
            data_dir: ".".into(),
            metadata_cache_capacity: capacity,
        };
        let mut manager = Manager::new(config, Box::new(store.clone())).unwrap();
        create_hierarchy(&mut manager);

        for round in 0..2 {
            for i in [5, 6, 5, 7, 1, 5] {
                let meta = manager.get_metadata(&id(i)).unwrap();
                assert_eq!(meta.id(), id(i));
                assert_eq!(meta.scorer().visit_count(), round);
            }
            for i in [5, 6, 7, 1] {
                manager.visit(&id(i), &VisitEntry::now(VisitPriority::Normal)).unwrap();
            }
        }
        manager.delete(&id(5)).unwrap();
        assert_eq!(
            manager.get_metadata(&id(5)),
            Err(ResourceStoreError::NoSuchResource)
        );
        manager.clear().unwrap();
        assert_eq!(manager.has_object(&id(6)).unwrap(), false);
        // The visits were never written to the blob store.
        assert_eq!(manager.get_metadata(&id(6)).unwrap().scorer().visit_count(), 0);
        manager.close();
    }
}

#[test]
fn caches_are_bounded() {
    let config = Config {
        db_path: "test_db.sqlite".into(),
        data_dir: ".".into(),
        metadata_cache_capacity: 1_048_577,
    };
    let res = Manager::new(config, Box::new(MemStore::default()));
    assert!(matches!(res, Err(ResourceStoreError::Custom(message)) if message == "CacheTooLarge"));
    let config = Config {
        db_path: "test_db.sqlite".into(),
        data_dir: ".".into(),
        metadata_cache_capacity: 1_048_576,
    };
    assert!(Manager::new(config, Box::new(MemStore::default())).is_ok());
}

#[test]
fn rehydration_refuses_what_does_not_fit() {
    let (mut manager, store) = prepare_test();
    manager.create_root().unwrap();
    let one = ResourceMetadata::new(&id(1), &root_id(), ResourceKind::Leaf, "same", vec![], vec![]);
    manager.create(&one, None).unwrap();

    // The blob store holds a resource of the same name under the same parent.
    let two = ResourceMetadata::new(&id(2), &root_id(), ResourceKind::Leaf, "same", vec![], vec![]);
    store.create(&two, None).unwrap();
    assert_eq!(
        manager.get_metadata(&id(2)),
        Err(ResourceStoreError::ResourceAlreadyExists)
    );
    assert_eq!(manager.resource_count().unwrap(), 2);

    // The blob store answers with the metadata of another resource.
    let other = store.get_metadata(&id(1)).unwrap();
    store
        .blobs
        .borrow_mut()
        .metadata
        .insert("id-3".to_string(), other);
    assert_eq!(
        manager.rehydrate(&id(3), store.get_metadata(&id(3))),
        Err(ResourceStoreError::NoSuchResource)
    );
    assert_eq!(
        manager.rehydrate(&id(4), Err(ResourceStoreError::ResourceCycle)),
        Err(ResourceStoreError::ResourceCycle)
    );
    assert_eq!(manager.resource_count().unwrap(), 2);
}

#[test]
fn writes_end_with_the_answer_of_the_blob_store() {
    let (mut manager, _store) = prepare_test();
    let mut tx = costaeres::index::Index::new();
    tx.insert(&ResourceMetadata::new(
        &root_id(),
        &root_id(),
        ResourceKind::Container,
        "/",
        vec![],
        vec![],
    ))
    .unwrap();

    // The blob store failed: the changes are dropped.
    let failed = Err(ResourceStoreError::custom("failed"));
    assert_eq!(
        manager.finish_write(tx.clone(), failed),
        Err(ResourceStoreError::Custom("failed".into()))
    );
    assert_eq!(manager.resource_count().unwrap(), 0);

    // The blob store did its part: the changes are kept.
    assert_eq!(manager.finish_write(tx, Ok(())), Ok(()));
    assert_eq!(manager.resource_count().unwrap(), 1);
    assert_eq!(manager.has_object(&root_id()).unwrap(), true);
}

#[test]
fn every_resource_reaches_the_root() {
    let (mut manager, _store) = prepare_test();
    create_hierarchy(&mut manager);

    let moved = ResourceMetadata::new(
        &id(10),
        &root_id(),
        ResourceKind::Container,
        "child #10",
        vec![],
        vec![],
    );
    manager.update(&moved, None).unwrap();
    manager.delete(&id(7)).unwrap();
    manager
        .import_from_path(&id(10), "x/new.txt", "text/plain", vec![1, 2])
        .unwrap();

    let all = manager.top_by_frecency(100).unwrap();
    assert_eq!(all.len(), 22);
    for pair in all {
        let path = manager.get_full_path(&pair.id).unwrap();
        assert!(path[0].id().is_root());
        assert_eq!(path[path.len() - 1].id(), pair.id);
        for step in 1..path.len() {
            assert_eq!(path[step].parent(), path[step - 1].id());
            assert_eq!(path[step - 1].kind(), ResourceKind::Container);
        }
    }
}

#[test]
fn migration_check() {
    let store = MemStore::default();
    let config = Config {
        db_path: "test_db.sqlite".into(),
        data_dir: ".".into(),
        metadata_cache_capacity: 100,
    };
    let records;
    {
        let manager = Manager::new(config.clone(), Box::new(store.clone()));
        assert!(manager.is_ok(), "Failed to create first manager");
        let mut manager = manager.unwrap();

        manager.create_root().unwrap();
        let leaf = ResourceMetadata::new(
            &id(1),
            &root_id(),
            ResourceKind::Leaf,
            "leaf one",
            vec!["tag".into()],
            vec![default_variant()],
        );
        manager.create(&leaf, Some(default_content())).unwrap();
        manager.visit(&id(1), &VisitEntry::new(123, VisitPriority::High)).unwrap();

        records = manager.index_records();
        assert_eq!(records.len(), 2);
        assert_eq!(records[1].metadata, manager.get_metadata(&id(1)).unwrap());
        assert!(records[1].ngrams.contains(&"leaf".to_string()));

        manager.close();
    }

    {
        let manager = Manager::new(config, Box::new(store));
        assert!(manager.is_ok(), "Failed to create second manager");
        let mut manager = manager.unwrap();
        assert_eq!(manager.has_object(&root_id()).unwrap(), false);

        manager.restore_index(&records).unwrap();

        let has_root = manager.has_object(&root_id()).unwrap();
        assert_eq!(has_root, true);
        assert_eq!(manager.index_records(), records);
        // The visit was kept by the index alone.
        assert_eq!(
            manager.get_metadata(&id(1)).unwrap().scorer().visit_count(),
            1
        );
        assert_eq!(manager.by_text("leaf", None).unwrap().len(), 1);

        manager.close();
    }
}

#[test]
fn broken_index_records_are_refused() {
    let (mut manager, _store) = prepare_test();
    create_hierarchy(&mut manager);
    let good = manager.index_records();

    let refused = Err(ResourceStoreError::Custom("InvalidIndexRecord".into()));
    let record = |number: i32, name: &str, grams: &[&str]| costaeres::index::IndexRecord {
        metadata: ResourceMetadata::new(&id(number), &root_id(), ResourceKind::Leaf, name, vec![], vec![]),
        ngrams: grams.iter().map(|gram| gram.to_string()).collect(),
    };
    // An identifier twice.
    assert_eq!(
        manager.restore_index(&vec![record(1, "a", &[]), record(1, "b", &[])]),
        refused
    );
    // A name twice under a parent.
    assert_eq!(
        manager.restore_index(&vec![record(1, "a", &[]), record(2, "a", &[])]),
        refused
    );
    // An n-gram twice.
    assert_eq!(
        manager.restore_index(&vec![record(1, "a", &["x", "y", "x"])]),
        refused
    );
    // A variant twice.
    let mut twice = record(1, "a", &[]);
    twice.metadata.set_variants(vec![default_variant(), default_variant()]);
    assert_eq!(manager.restore_index(&vec![twice]), refused);

    assert_eq!(manager.index_records(), good);
    assert_eq!(manager.restore_index(&vec![record(1, "a", &["x", "y"])]), Ok(()));
    assert_eq!(manager.resource_count().unwrap(), 1);
    assert_eq!(manager.restore_index(&vec![]), Ok(()));
    assert_eq!(manager.resource_count().unwrap(), 0);
}

#[test]
fn rehydration_brings_what_was_asked_for_and_no_more() {
    let (mut manager, _store) = prepare_test();
    create_hierarchy(&mut manager);
    manager.clear().unwrap();
    assert_eq!(manager.resource_count().unwrap(), 0);

    // One resource.
    manager.get_metadata(&id(7)).unwrap();
    assert_eq!(manager.resource_count().unwrap(), 1);
    assert!(manager.has_object(&id(7)).unwrap());

    // A resource that the store does not have.
    assert_eq!(
        manager.get_metadata(&id(99)),
        Err(ResourceStoreError::NoSuchResource)
    );
    assert_eq!(manager.resource_count().unwrap(), 1);

    // The root and its one child.
    let (_, children) = manager.get_root().unwrap();
    assert_eq!(children.len(), 1);
    assert_eq!(manager.resource_count().unwrap(), 3);
    assert!(manager.has_object(&root_id()).unwrap());
    assert!(manager.has_object(&id(1)).unwrap());
    assert!(!manager.has_object(&id(10)).unwrap());

    // A container and its ten children.
    let (_, children) = manager.get_container(&id(10)).unwrap();
    assert_eq!(children.len(), 10);
    assert_eq!(manager.resource_count().unwrap(), 14);
    for number in 25..35 {
        assert!(manager.has_object(&id(number)).unwrap());
    }
    assert!(!manager.has_object(&id(5)).unwrap());

    // What is there already comes from the index.
    manager.get_root().unwrap();
    manager.get_container(&id(10)).unwrap();
    manager.get_full_path(&id(30)).unwrap();
    assert_eq!(manager.resource_count().unwrap(), 14);
}

#[test]
fn full_path_names_no_resource_twice() {
    let (mut manager, _store) = prepare_test();
    create_hierarchy(&mut manager);
    for number in [1, 5, 10, 14, 25, 34] {
        let path = manager.get_full_path(&id(number)).unwrap();
        let mut ids: Vec<String> = path.iter().map(|m| m.id().to_string()).collect();
        assert!(path[0].id().is_root());
        assert_eq!(path[path.len() - 1].id(), id(number));
        let len = ids.len();
        ids.sort();
        ids.dedup();
        assert_eq!(ids.len(), len);
    }
    assert_eq!(manager.resource_count().unwrap(), 22);
}

#[test]
fn texts_are_indexed_one_after_the_other() {
    let (manager, _store) = prepare_test();
    let mut index = costaeres::index::Index::new();
    let leaf = ResourceMetadata::new(&id(1), &root_id(), ResourceKind::Leaf, "leaf", vec![], vec![]);
    index.insert(&leaf).unwrap();

    let texts = vec!["Hello World".to_owned(), "hello again".to_owned()];
    assert_eq!(manager.add_texts(&id(1), &texts, &mut index), Ok(()));
    let mut expected = costaeres::fts::ngrams("Hello World", 5);
    for gram in costaeres::fts::ngrams("hello again", 5) {
        if !expected.contains(&gram) {
            expected.push(gram);
        }
    }
    assert_eq!(expected.len(), 41);
    assert_eq!(index.records()[0].ngrams, expected);

    // The same texts again, or no text, change nothing.
    assert_eq!(manager.add_texts(&id(1), &texts, &mut index), Ok(()));
    assert_eq!(manager.add_texts(&id(1), &Vec::new(), &mut index), Ok(()));
    assert_eq!(index.records()[0].ngrams, expected);

    // Nothing is indexed for a resource that the index does not hold.
    assert_eq!(
        manager.add_texts(&id(2), &texts, &mut index),
        Err(ResourceStoreError::NoSuchResource)
    );
    assert_eq!(
        manager.add_texts(&id(2), &Vec::new(), &mut index),
        Err(ResourceStoreError::NoSuchResource)
    );
    assert_eq!(index.len(), 1);
    assert_eq!(index.records()[0].ngrams, expected);
}

#[test]
fn full_path_reports_a_cycle_that_the_index_holds() {
    let (mut manager, _store) = prepare_test();
    let record = |number: i32, parent: i32, name: &str| costaeres::index::IndexRecord {
        metadata: ResourceMetadata::new(
            &id(number),
            &id(parent),
            ResourceKind::Container,
            name,
            vec![],
            vec![],
        ),
        ngrams: vec![],
    };
    // One is under two, two under three, and three under two.
    manager
        .restore_index(&vec![record(1, 2, "one"), record(2, 3, "two"), record(3, 2, "three")])
        .unwrap();
    for number in 1..=3 {
        assert_eq!(
            manager.get_full_path(&id(number)),
            Err(ResourceStoreError::ResourceCycle)
        );
    }
    assert_eq!(manager.resource_count().unwrap(), 3);
}

#[test]
fn variants_of_one_name_are_refused() {
    let (mut manager, _store) = prepare_test();
    manager.create_root().unwrap();
    let twice = ResourceMetadata::new(
        &id(7),
        &root_id(),
        ResourceKind::Leaf,
        "seven",
        vec![],
        vec![default_variant(), named_variant("other", "a/b"), default_variant()],
    );
    assert_eq!(
        manager.create(&twice, None),
        Err(ResourceStoreError::InvalidVariant("default".into()))
    );
    assert_eq!(
        manager.update(&twice, None),
        Err(ResourceStoreError::InvalidVariant("default".into()))
    );
    assert_eq!(manager.resource_count().unwrap(), 1);
    assert_eq!(manager.has_object(&id(7)).unwrap(), false);
}

#[test]
fn a_manager_without_a_cache_answers_as_one_with_a_cache() {
    for capacity in [0, 1, 100] {
        let store = MemStore::default();
        let config = Config {
            db_path: "test_db.sqlite".into(),
            data_dir: ".".into(),
            metadata_cache_capacity: capacity,
        };
        let mut manager = Manager::new(config, Box::new(store)).unwrap();
        create_hierarchy(&mut manager);
        let first = manager.get_metadata(&id(7)).unwrap();
        let again = manager.get_metadata(&id(7)).unwrap();
        assert_eq!(first, again);
        let now = chrono::Utc::now().timestamp_micros();
        manager
            .visit(&id(7), &VisitEntry::new(now, VisitPriority::High))
            .unwrap();
        // The visit is seen at once: what was cached is gone.
        let visited = manager.get_metadata(&id(7)).unwrap();
        assert_eq!(visited.scorer().visit_count(), 1);
        assert_eq!(visited.scorer().frecency(), 150);
        manager.delete(&id(7)).unwrap();
        assert_eq!(
            manager.get_metadata(&id(7)),
            Err(ResourceStoreError::NoSuchResource)
        );
        assert_eq!(manager.resource_count().unwrap(), 21);
    }
}
