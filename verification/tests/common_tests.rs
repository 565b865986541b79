use costaeres::common::{
    DefaultResourceNameProvider, IdFrec, IdentityTransformer, ResourceId, ResourceKind,
    ResourceMetadata, ResourceNameProvider, ResourceStoreError, ResourceTransformer, Variant,
    VariantContent, ROOT_ID_STR,
};
use costaeres::scorer::{Scorer, VisitEntry, VisitPriority};

#[test]
fn resource_ids() {
    let root = ResourceId::root();
    assert!(root.is_root());
    assert_eq!(root.to_string(), ROOT_ID_STR);
    assert_eq!(root.to_string(), "9e48b88d-4ab5-496b-ad7f-9ecc685128db");
    assert!(!ResourceId::from_text("other").is_root());
    assert_eq!(ResourceId::from_number(12).to_string(), "id-12");
    assert_eq!(ResourceId::from_number(0).to_string(), "id-0");
    assert_eq!(ResourceId::from_number(-5).to_string(), "id--5");
    assert_eq!(
        ResourceId::from_number(i32::MIN).to_string(),
        "id--2147483648"
    );
    assert_eq!(ResourceId::from_text("a"), ResourceId::from_text("a"));
    assert!(ResourceId::from_text("a").same(&ResourceId::from_text("a")));
    assert!(!ResourceId::from_text("a").same(&ResourceId::from_text("b")));
    assert_eq!(ResourceId::from_text("abc").as_str(), "abc");
}

#[test]
fn fresh_ids_are_random() {
    let one = ResourceId::new();
    let two = ResourceId::new();
    assert_ne!(one, two);
    assert_eq!(one.to_string().len(), 36);
    assert!(!one.is_root());

    // The shape of a random identifier.
    for id in [one, two] {
        let text: Vec<char> = id.to_string().chars().collect();
        for (place, c) in text.iter().enumerate() {
            if [8, 13, 18, 23].contains(&place) {
                assert_eq!(*c, '-');
            } else {
                assert!(matches!(*c, '0'..='9' | 'a'..='f'));
            }
        }
        assert_eq!(text[14], '4');
        assert!(matches!(text[19], '8' | '9' | 'a' | 'b'));
    }
}

#[test]
fn variants() {
    let mut variant = Variant::new("default", "text/plain", 42);
    assert_eq!(variant.name(), "default");
    assert_eq!(variant.mime_type(), "text/plain");
    assert_eq!(variant.size(), 42);
    assert!(variant.is_named("default"));
    assert!(!variant.is_named("other"));

    variant.set_name("thumbnail");
    variant.set_mime_type("image/png");
    variant.set_size(7);
    assert_eq!(variant, Variant::new("thumbnail", "image/png", 7));
    assert_eq!(variant.clone(), variant);

    let content = VariantContent::new(variant.clone(), vec![1, 2, 3]);
    assert_eq!(content.0, variant);
    assert_eq!(content.1, vec![1, 2, 3]);

    let pair = IdFrec::new(&ResourceId::from_text("x"), 9);
    assert_eq!(pair.id, ResourceId::from_text("x"));
    assert_eq!(pair.frecency, 9);
}

#[test]
fn metadata() {
    let id = ResourceId::from_number(1);
    let parent = ResourceId::root();
    let mut meta = ResourceMetadata::new(
        &id,
        &parent,
        ResourceKind::Leaf,
        "object",
        vec!["one".into(), "two".into()],
        vec![Variant::new("default", "text/plain", 42)],
    );
    assert_eq!(meta.id(), id);
    assert_eq!(meta.parent(), parent);
    assert_eq!(meta.kind(), ResourceKind::Leaf);
    assert_eq!(meta.name(), "object");
    assert_eq!(meta.created(), meta.modified());
    assert_eq!(meta.scorer().visit_count(), 0);
    assert!(meta.is_valid());

    assert!(meta.has_tag("one"));
    assert!(!meta.has_tag("three"));
    assert!(meta.has_variant("default"));
    assert!(!meta.has_variant("thumbnail"));
    assert_eq!(
        meta.mime_type_for_variant("default"),
        Some("text/plain".to_owned())
    );
    assert_eq!(meta.mime_type_for_variant("thumbnail"), None);

    // A variant is added once.
    meta.add_variant(Variant::new("thumbnail", "image/png", 7));
    meta.add_variant(Variant::new("thumbnail", "image/jpeg", 8));
    assert_eq!(
        meta.variants(),
        &vec![
            Variant::new("default", "text/plain", 42),
            Variant::new("thumbnail", "image/png", 7)
        ]
    );
    meta.delete_variant("default");
    assert_eq!(meta.variants(), &vec![Variant::new("thumbnail", "image/png", 7)]);
    meta.delete_variant("absent");
    assert_eq!(meta.variants().len(), 1);

    meta.set_tags(vec!["three".into()]);
    assert_eq!(meta.tags(), &vec!["three".to_owned()]);
    meta.set_variants(vec![]);
    assert!(meta.variants().is_empty());
    meta.set_created(1);
    meta.set_modified(2);
    assert_eq!((meta.created(), meta.modified()), (1, 2));
    meta.modify_now();
    assert!(meta.modified() > 2);
    meta.set_name("renamed");
    assert_eq!(meta.name(), "renamed");
}

#[test]
fn metadata_scorer() {
    let mut meta = ResourceMetadata::new(
        &ResourceId::from_number(1),
        &ResourceId::root(),
        ResourceKind::Leaf,
        "object",
        vec![],
        vec![],
    );
    let visit = VisitEntry::new(1_000_000, VisitPriority::High);
    meta.update_scorer(&visit);
    assert_eq!(meta.scorer().visit_count(), 1);
    assert_eq!(meta.scorer().entries(), &vec![visit]);

    // The scorer goes through its binary form unchanged.
    let bytes = meta.db_scorer();
    let mut other = ResourceMetadata::new(
        &ResourceId::from_number(2),
        &ResourceId::root(),
        ResourceKind::Leaf,
        "other",
        vec![],
        vec![],
    );
    other.set_scorer_from_db(&bytes);
    assert_eq!(other.scorer(), meta.scorer());

    // Bytes that are no scorer give the empty scorer.
    other.set_scorer_from_db(&[1, 2, 3]);
    assert_eq!(other.scorer(), &Scorer::default());

    other.set_scorer(meta.scorer());
    assert_eq!(other.scorer(), meta.scorer());
}

#[test]
fn default_names() {
    let names = DefaultResourceNameProvider;
    let id = ResourceId::from_text("abc");
    assert_eq!(names.metadata_name(&id), "abc.meta");
    assert_eq!(names.variant_name(&id, "default"), "abc.content.default");
}

#[test]
fn identity_transformer() {
    let transformer = IdentityTransformer;
    assert_eq!(transformer.transform_array_to(&[1, 2, 3]), vec![1, 2, 3]);
    assert_eq!(transformer.transform_array_from(&[4, 5]), vec![4, 5]);
    assert_eq!(transformer.transform_array_to(&[]), Vec::<u8>::new());
}

fn json_error() -> serde_json::Error {
    serde_json::from_str::<serde_json::Value>("{").unwrap_err()
}

fn io_error(text: &str) -> std::io::Error {
    std::io::Error::new(std::io::ErrorKind::NotFound, text.to_owned())
}

#[test]
fn errors_compare_by_kind() {
    assert_eq!(
        ResourceStoreError::ResourceAlreadyExists,
        ResourceStoreError::ResourceAlreadyExists
    );
    assert_ne!(
        ResourceStoreError::ResourceAlreadyExists,
        ResourceStoreError::NoSuchResource
    );
    assert_eq!(
        ResourceStoreError::Custom("a".into()),
        ResourceStoreError::custom("a")
    );
    assert_ne!(
        ResourceStoreError::Custom("a".into()),
        ResourceStoreError::Custom("b".into())
    );
    assert_eq!(
        ResourceStoreError::InvalidVariant("v".into()),
        ResourceStoreError::invalid_variant("v")
    );
    assert_ne!(
        ResourceStoreError::InvalidVariant("v".into()),
        ResourceStoreError::InvalidVariant("w".into())
    );
    assert_ne!(
        ResourceStoreError::InvalidVariant("a".into()),
        ResourceStoreError::Custom("a".into())
    );
    assert_eq!(
        ResourceStoreError::Io(io_error("one")),
        ResourceStoreError::Io(io_error("two"))
    );
    assert_eq!(
        ResourceStoreError::Json(json_error()),
        ResourceStoreError::Json(json_error())
    );
    assert_ne!(
        ResourceStoreError::Json(json_error()),
        ResourceStoreError::Io(io_error("one"))
    );
    assert_eq!(
        ResourceStoreError::ResourceCycle,
        ResourceStoreError::ResourceCycle
    );
    assert_eq!(
        ResourceStoreError::InvalidContainerId,
        ResourceStoreError::InvalidContainerId
    );
}

#[test]
fn error_messages() {
    assert_eq!(
        ResourceStoreError::ResourceAlreadyExists.to_string(),
        "Resource Already Exists"
    );
    assert_eq!(ResourceStoreError::NoSuchResource.to_string(), "No Such Resource");
    assert_eq!(
        ResourceStoreError::ResourceCycle.to_string(),
        "Resource Cycle Detected"
    );
    assert_eq!(
        ResourceStoreError::InvalidVariant("thumb".into()).to_string(),
        "Invalid Variant For This Resource: thumb"
    );
    assert_eq!(
        ResourceStoreError::Custom("EmptyNameQuery".into()).to_string(),
        "Custom Error: EmptyNameQuery"
    );
    assert_eq!(
        ResourceStoreError::InvalidContainerId.to_string(),
        "Invalid Container Id"
    );
    assert_eq!(
        ResourceStoreError::Io(io_error("gone")).to_string(),
        "I/O Error: gone"
    );
    assert!(ResourceStoreError::Json(json_error())
        .to_string()
        .starts_with("Serde JSON error: EOF"));
}

#[test]
fn kinds() {
    assert_eq!(ResourceKind::Container.code(), 0);
    assert_eq!(ResourceKind::Leaf.code(), 1);
    assert_eq!(ResourceKind::from(0), ResourceKind::Container);
    assert_eq!(ResourceKind::from(1), ResourceKind::Leaf);
    assert_eq!(ResourceKind::from_code(1), Some(ResourceKind::Leaf));
    assert_eq!(ResourceKind::from_code(0), Some(ResourceKind::Container));
    assert_eq!(ResourceKind::from_code(2), None);
    assert_eq!(ResourceKind::from_code(-1), None);
}
