use costaeres::common::{
    IdFrec, ResourceId, ResourceKind, ResourceMetadata, ResourceStoreError, Variant,
};
use costaeres::fts::Fts;
use costaeres::index::{contains_id, Index};
use costaeres::ranking::rank;
use costaeres::scorer::{Scorer, VisitEntry, VisitPriority};
use costaeres::tree::leaving_with;

const NOW: i64 = 1_700_000_000_000_000;

fn id(number: i32) -> ResourceId {
    ResourceId::from_number(number)
}

fn meta(number: i32, parent: &ResourceId, kind: ResourceKind, name: &str) -> ResourceMetadata {
    ResourceMetadata::new(&id(number), parent, kind, name, vec![], vec![])
}

/// root -> 1 -> {2, 3 -> {4}}, and 5 under the root.
fn small_index() -> Index {
    let mut index = Index::new();
    let root = ResourceId::root();
    index
        .insert(&ResourceMetadata::new(
            &root,
            &root,
            ResourceKind::Container,
            "/",
            vec![],
            vec![],
        ))
        .unwrap();
    index.insert(&meta(1, &root, ResourceKind::Container, "one")).unwrap();
    index.insert(&meta(2, &id(1), ResourceKind::Leaf, "two")).unwrap();
    index.insert(&meta(3, &id(1), ResourceKind::Container, "three")).unwrap();
    index.insert(&meta(4, &id(3), ResourceKind::Leaf, "four")).unwrap();
    index.insert(&meta(5, &root, ResourceKind::Leaf, "five")).unwrap();
    index
}

#[test]
fn rows_are_found() {
    let index = small_index();
    assert_eq!(index.len(), 6);
    assert_eq!(index.find(&id(3)), Some(3));
    assert_eq!(index.find(&id(9)), None);
    assert!(index.has(&ResourceId::root()));
    assert!(index.is_container(&id(3)));
    assert!(!index.is_container(&id(4)));
    assert!(!index.is_container(&id(9)));
    assert_eq!(index.parent_of(&id(4)), Some(id(3)));
    assert_eq!(index.parent_of(&id(9)), None);
    assert_eq!(index.parent_of(&ResourceId::root()), Some(ResourceId::root()));
    assert!(index.name_taken(&id(1), "two"));
    assert!(!index.name_taken(&id(3), "two"));
    assert_eq!(index.child_by_name(&id(1), "three"), Some(3));
    assert_eq!(index.child_by_name(&id(1), "four"), None);
    assert!(index.has_child(&id(3)));
    assert!(!index.has_child(&id(4)));
    assert_eq!(index.id_at(4), id(4));
    assert_eq!(index.metadata_at(2).name(), "two");
}

#[test]
fn children_in_the_order_of_the_rows() {
    let index = small_index();
    assert_eq!(index.children_of(&id(1)), vec![id(2), id(3)]);
    // The root is not its own child.
    assert_eq!(index.children_of(&ResourceId::root()), vec![id(1), id(5)]);
    assert_eq!(index.children_of(&id(4)), vec![]);
}

#[test]
fn rows_that_cannot_enter() {
    let mut index = small_index();
    assert_eq!(
        index.insert(&meta(2, &id(3), ResourceKind::Leaf, "again")),
        Err(ResourceStoreError::ResourceAlreadyExists)
    );
    assert_eq!(
        index.insert(&meta(7, &id(1), ResourceKind::Leaf, "two")),
        Err(ResourceStoreError::ResourceAlreadyExists)
    );
    let twice = ResourceMetadata::new(
        &id(7),
        &id(1),
        ResourceKind::Leaf,
        "seven",
        vec![],
        vec![
            Variant::new("default", "a/b", 1),
            Variant::new("thumbnail", "a/b", 1),
            Variant::new("default", "c/d", 2),
        ],
    );
    assert_eq!(
        index.insert(&twice),
        Err(ResourceStoreError::InvalidVariant("default".into()))
    );
    assert_eq!(index.len(), 6);
}

#[test]
fn what_leaves_with_a_resource() {
    let index = small_index();
    assert_eq!(leaving_with(&index, &id(4)), vec![id(4)]);
    assert_eq!(leaving_with(&index, &id(3)), vec![id(3), id(4)]);
    assert_eq!(leaving_with(&index, &id(1)), vec![id(1), id(2), id(3), id(4)]);
    assert_eq!(leaving_with(&index, &ResourceId::root()).len(), 6);
    assert!(contains_id(&leaving_with(&index, &id(1)), &id(4)));
    assert!(!contains_id(&leaving_with(&index, &id(1)), &id(5)));
}

#[test]
fn rows_leave_together() {
    let mut index = small_index();
    index.remove_all(&vec![id(3), id(4), id(9)]);
    assert_eq!(index.len(), 4);
    assert_eq!(index.find(&id(5)), Some(3));
    assert!(!index.has(&id(4)));
    index.clear();
    assert_eq!(index.len(), 0);
}

#[test]
fn ngrams_are_added_once() {
    let mut index = small_index();
    let fts = Fts::new(3);
    assert_eq!(fts.add_text(&id(2), "abc", &mut index), Ok(()));
    assert!(index.ngram_at(2, "abc"));
    assert!(index.ngram_at(2, "bc"));
    assert!(!index.ngram_at(2, "abcd"));
    assert!(!index.ngram_at(3, "a"));
    assert_eq!(fts.add_text(&id(2), "abc cd", &mut index), Ok(()));
    assert!(index.ngram_at(2, "cd"));
    assert_eq!(
        fts.add_text(&id(9), "abc", &mut index),
        Err(ResourceStoreError::NoSuchResource)
    );

    // Tokens are cut to be looked up, not to be indexed.
    assert_eq!(fts.query_keys("ABCDE fg"), vec!["abc", "fg"]);
    let found = fts.search_at("abcxyz", None, &index, NOW);
    assert_eq!(found, vec![IdFrec::new(&id(2), 0)]);
    let found = fts.search_at("ab d", None, &index, NOW);
    assert_eq!(found, vec![IdFrec::new(&id(2), 0)]);
    let found = fts.search_at("ab x", None, &index, NOW);
    assert_eq!(found, vec![]);
}

#[test]
fn variants_and_scorers_change_in_place() {
    let mut index = Index::new();
    let root = ResourceId::root();
    let mut with_variants = meta(1, &root, ResourceKind::Leaf, "one");
    with_variants.set_variants(vec![
        Variant::new("default", "a/b", 10),
        Variant::new("thumbnail", "a/b", 5),
    ]);
    index.insert(&with_variants).unwrap();
    assert_eq!(index.variants_size_at(0), Some(15));

    index.remove_variant(0, "default");
    assert_eq!(
        index.metadata_at(0).variants(),
        &vec![Variant::new("thumbnail", "a/b", 5)]
    );
    assert_eq!(index.variants_size_at(0), Some(5));

    let mut scorer = Scorer::default();
    scorer.add(&VisitEntry::new(NOW, VisitPriority::High));
    index.set_scorer(0, &scorer);
    assert_eq!(index.metadata_at(0).scorer(), &scorer);
    assert_eq!(index.frecency_at(0, NOW), 150);
}

#[test]
fn ranking() {
    // The greatest key first; rows of equal key keep their order.
    let keys = vec![5, 9, 5, 1, 9, 7];
    let all = vec![true; 6];
    assert_eq!(rank(&keys, &all), vec![1, 4, 5, 0, 2, 3]);
    let some = vec![true, false, true, true, false, false];
    assert_eq!(rank(&keys, &some), vec![0, 2, 3]);
    assert_eq!(rank(&keys, &vec![false; 6]), Vec::<usize>::new());
    assert_eq!(rank(&vec![], &vec![]), Vec::<usize>::new());
    assert_eq!(
        rank(&vec![i64::MIN, i64::MAX, 0], &vec![true; 3]),
        vec![1, 2, 0]
    );
}

#[test]
fn queries_by_rank() {
    let mut index = small_index();
    let mut scorer = Scorer::default();
    scorer.add(&VisitEntry::new(NOW, VisitPriority::Normal));
    index.set_scorer(4, &scorer);
    scorer.add(&VisitEntry::new(NOW, VisitPriority::VeryHigh));
    index.set_scorer(2, &scorer);

    let top = index.top_by_frecency(3, NOW);
    assert_eq!(
        top,
        vec![
            IdFrec::new(&id(2), 300),
            IdFrec::new(&id(4), 100),
            IdFrec::new(&ResourceId::root(), 0)
        ]
    );
    // Seen a hundred days later, the visits are worth less.
    let later = index.top_by_frecency(2, NOW + 100 * 86_400_000_000);
    assert_eq!(later, vec![IdFrec::new(&id(2), 30), IdFrec::new(&id(4), 10)]);

    assert_eq!(index.by_name("four", None, NOW), vec![id(4)]);
    assert_eq!(index.by_name("four", Some("tag"), NOW), vec![]);
    assert_eq!(index.by_tag("tag", NOW), vec![]);
}
