use costaeres::common::{ResourceId, ResourceStoreError};
use costaeres::listing::{deserialize_children, serialize_children};

fn ids(texts: &[&str]) -> Vec<ResourceId> {
    texts.iter().map(|text| ResourceId::from_text(text)).collect()
}

#[test]
fn children_lists_in_binary() {
    assert_eq!(serialize_children(&[].to_vec()).unwrap(), vec![0]);
    assert_eq!(
        serialize_children(&ids(&["a", "bc"])).unwrap(),
        vec![2, 1, 97, 2, 98, 99]
    );

    // A text of 300 bytes: its length takes a marker and two bytes, the
    // high byte first.
    let long = "x".repeat(300);
    let bytes = serialize_children(&ids(&[&long])).unwrap();
    assert_eq!(bytes.len(), 4 + 300);
    assert_eq!(&bytes[..4], &[1, 251, 0x01, 0x2c]);

    // Characters of more than one byte are written in UTF-8.
    assert_eq!(
        serialize_children(&ids(&["\u{e9}"])).unwrap(),
        vec![1, 2, 0xc3, 0xa9]
    );
}

#[test]
fn children_lists_come_back() {
    let list = ids(&["9e48b88d-4ab5-496b-ad7f-9ecc685128db", "id-1", "", "\u{e9}t\u{e9}"]);
    let bytes = serialize_children(&list).unwrap();
    assert_eq!(deserialize_children(&bytes).unwrap(), list);
    assert_eq!(deserialize_children(&[0]).unwrap(), vec![]);
}

#[test]
fn broken_children_lists() {
    let refused = [
        vec![],
        // One text is announced and none follows.
        vec![1],
        // A text of two bytes is announced and one follows.
        vec![1, 2, 97],
        // A byte too many.
        vec![1, 1, 97, 0],
        // Not UTF-8.
        vec![1, 1, 0xff],
    ];
    for bytes in refused {
        let res = deserialize_children(&bytes);
        assert!(matches!(res, Err(ResourceStoreError::Bincode(_))));
        assert!(res.unwrap_err().to_string().starts_with("Bincode error: "));
    }
}
