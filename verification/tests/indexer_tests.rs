use costaeres::common::{
    ResourceId, ResourceKind, ResourceMetadata, ResourceStoreError, Variant, VariantContent,
};
use costaeres::indexer::{
    create_contacts_indexer, create_places_indexer, FlatJsonIndexer, Indexer, JsonMember,
    JsonValue,
};

fn meta() -> ResourceMetadata {
    ResourceMetadata::new(
        &ResourceId::from_number(1),
        &ResourceId::root(),
        ResourceKind::Leaf,
        "object",
        vec![],
        vec![],
    )
}

fn content(mime_type: &str, payload: &str) -> VariantContent {
    VariantContent::new(
        Variant::new("default", mime_type, payload.len() as u32),
        payload.as_bytes().to_vec(),
    )
}

#[test]
fn places() {
    let indexer = create_places_indexer();
    let payload = r#"{"title": "The Title", "url": "http://example.com", "icon": "skipped"}"#;
    let texts = indexer
        .index(&meta(), &content("application/x-places+json", payload))
        .unwrap();
    // In the order of the fields of the indexer.
    assert_eq!(texts, vec!["http://example.com", "The Title"]);
}

#[test]
fn contacts() {
    let indexer = create_contacts_indexer();
    let payload = r#"{"name": "Jean", "phone": ["1", 2, "3", ["4"], null],
        "email": "jean@example.com", "other": "skipped"}"#;
    let texts = indexer
        .index(&meta(), &content("application/x-contacts+json", payload))
        .unwrap();
    assert_eq!(texts, vec!["Jean", "1", "3", "jean@example.com"]);
}

#[test]
fn fields_that_hold_no_text_give_none() {
    let indexer = FlatJsonIndexer::new("a/b", &["n", "o", "b", "absent", "t"]);
    let payload = r#"{"n": 1, "o": {"t": "inside"}, "b": true, "t": "text"}"#;
    let texts = indexer.index(&meta(), &content("a/b", payload)).unwrap();
    assert_eq!(texts, vec!["text"]);

    // A document that is no record gives nothing.
    let texts = indexer.index(&meta(), &content("a/b", r#"["t", "n"]"#)).unwrap();
    assert!(texts.is_empty());
    let texts = indexer.index(&meta(), &content("a/b", r#""t""#)).unwrap();
    assert!(texts.is_empty());

    // No field, no text.
    let none = FlatJsonIndexer::new("a/b", &[]);
    assert!(none.index(&meta(), &content("a/b", payload)).unwrap().is_empty());
}

#[test]
fn other_families_are_not_read() {
    let indexer = create_places_indexer();
    let texts = indexer
        .index(&meta(), &content("text/plain", "this is not json"))
        .unwrap();
    assert!(texts.is_empty());
    let texts = indexer
        .index(&meta(), &content("application/x-places+jso", r#"{"url": "u"}"#))
        .unwrap();
    assert!(texts.is_empty());
}

#[test]
fn broken_payloads_are_refused() {
    let indexer = create_places_indexer();
    let res = indexer.index(&meta(), &content("application/x-places+json", "{"));
    assert!(matches!(res, Err(ResourceStoreError::Json(_))));
    let res = indexer.index(&meta(), &content("application/x-places+json", ""));
    assert!(matches!(res, Err(ResourceStoreError::Json(_))));
}

#[test]
fn texts_of_documents() {
    let indexer = FlatJsonIndexer::new("a/b", &["x", "y"]);
    let document = JsonValue::Record(vec![
        JsonMember {
            name: "y".to_owned(),
            value: JsonValue::Text("second".to_owned()),
        },
        JsonMember {
            name: "x".to_owned(),
            value: JsonValue::List(vec![
                JsonValue::Text("first".to_owned()),
                JsonValue::Other,
                JsonValue::List(vec![JsonValue::Text("deep".to_owned())]),
                JsonValue::Text("again".to_owned()),
            ]),
        },
        JsonMember {
            name: "x".to_owned(),
            value: JsonValue::Text("shadowed".to_owned()),
        },
    ]);
    assert_eq!(indexer.texts_of(&document), vec!["first", "again", "second"]);
    assert!(indexer.texts_of(&JsonValue::Other).is_empty());
    assert!(indexer.texts_of(&JsonValue::Text("x".to_owned())).is_empty());
}
