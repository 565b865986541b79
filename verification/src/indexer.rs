//! Indexers for recognized media types: they draw from the payload of a
//! variant the texts under which the resource is to be found.

use crate::common::{ResourceMetadata, ResourceStoreError, VariantContent};
use crate::strings::{same_text, string_views};
use vstd::prelude::*;

verus! {

/// The JSON value of `serde_json`. It is only handed from the parser to
/// the conversion below.
#[verifier::external_type_specification]
#[verifier::external_body]
pub struct ExJsonValue(serde_json::Value);

/// A JSON value, as far as indexing reads it: texts, lists and records.
/// Any other value is `Other`.
#[derive(Debug)]
pub enum JsonValue {
    Text(String),
    List(Vec<JsonValue>),
    Record(Vec<JsonMember>),
    Other,
}

/// A member of a JSON record.
#[derive(Debug)]
pub struct JsonMember {
    pub name: String,
    pub value: JsonValue,
}

/// What a JSON value holds.
pub enum JsonModel {
    Text(Seq<char>),
    List(Seq<JsonModel>),
    Record(Seq<(Seq<char>, JsonModel)>),
    Other,
}

/// What a JSON value holds, and what the values that it holds hold in
/// turn.
pub open spec fn json_model(value: JsonValue) -> JsonModel
    decreases value,
{
    match value {
        JsonValue::Text(text) => JsonModel::Text(text@),
        JsonValue::List(items) => JsonModel::List(
            Seq::new(
                items@.len(),
                |i: int|
                    if 0 <= i < items@.len() {
                        json_model(items@[i])
                    } else {
                        JsonModel::Other
                    },
            ),
        ),
        JsonValue::Record(members) => JsonModel::Record(
            Seq::new(
                members@.len(),
                |i: int|
                    if 0 <= i < members@.len() {
                        (members@[i].name@, json_model(members@[i].value))
                    } else {
                        (Seq::empty(), JsonModel::Other)
                    },
            ),
        ),
        JsonValue::Other => JsonModel::Other,
    }
}

impl View for JsonValue {
    type V = JsonModel;

    open spec fn view(&self) -> JsonModel {
        json_model(*self)
    }
}

/// What `serde_json::from_slice` reads from a byte string as a
/// `serde_json::Value`, if the bytes are JSON.
pub uninterp spec fn json_document(bytes: Seq<u8>) -> Option<JsonModel>;

/// Tells the variants of a `serde_json::Value` apart and moves what each
/// holds: a string becomes a text, an array a list, an object a record of
/// its members in the order of the object; null, booleans and numbers
/// become `Other`.
#[verifier::external_body]
fn json_value_of(value: &serde_json::Value) -> (converted: JsonValue) {
    match value {
        serde_json::Value::Null => JsonValue::Other,
        serde_json::Value::Bool(_) => JsonValue::Other,
        serde_json::Value::Number(_) => JsonValue::Other,
        serde_json::Value::String(text) => JsonValue::Text(text.clone()),
        serde_json::Value::Array(items) => JsonValue::List(items.iter().map(json_value_of).collect()),
        serde_json::Value::Object(members) => JsonValue::Record(
            members
                .iter()
                .map(|(name, value)| JsonMember { name: name.clone(), value: json_value_of(value) })
                .collect(),
        ),
    }
}

/// Reads a byte string as JSON with `serde_json::from_slice`. The result
/// depends on the bytes alone.
#[verifier::external_body]
pub(crate) fn parse_json(bytes: &[u8]) -> (parsed: Result<JsonValue, serde_json::Error>)
    ensures
        match parsed {
            Ok(value) => json_document(bytes@) == Some(value@),
            Err(_) => json_document(bytes@) is None,
        },
{
    serde_json::from_slice::<serde_json::Value>(bytes).map(|value| json_value_of(&value))
}

/// The texts among the items of a list, in their order.
pub open spec fn item_texts(items: Seq<JsonModel>) -> Seq<Seq<char>>
    decreases items.len(),
{
    if items.len() == 0 {
        Seq::empty()
    } else {
        match items.last() {
            JsonModel::Text(text) => item_texts(items.drop_last()).push(text),
            _ => item_texts(items.drop_last()),
        }
    }
}

/// The texts that a value gives to the index: a text gives itself, a list
/// gives the texts among its items.
pub open spec fn value_texts(value: JsonModel) -> Seq<Seq<char>> {
    match value {
        JsonModel::Text(text) => seq![text],
        JsonModel::List(items) => item_texts(items),
        _ => Seq::empty(),
    }
}

/// The first member of a name among the members of a record.
pub open spec fn member_named(members: Seq<(Seq<char>, JsonModel)>, name: Seq<char>) -> Option<
    JsonModel,
>
    decreases members.len(),
{
    if members.len() == 0 {
        None
    } else if members[0].0 == name {
        Some(members[0].1)
    } else {
        member_named(members.drop_first(), name)
    }
}

/// The texts that a field of a document gives to the index.
pub open spec fn field_texts(document: JsonModel, field: Seq<char>) -> Seq<Seq<char>> {
    match document {
        JsonModel::Record(members) => match member_named(members, field) {
            Some(value) => value_texts(value),
            None => Seq::empty(),
        },
        _ => Seq::empty(),
    }
}

/// The texts that the fields of a list give to the index, field after
/// field.
pub open spec fn flat_texts(document: JsonModel, fields: Seq<Seq<char>>) -> Seq<Seq<char>>
    decreases fields.len(),
{
    if fields.len() == 0 {
        Seq::empty()
    } else {
        flat_texts(document, fields.drop_last()) + field_texts(document, fields.last())
    }
}

/// Draws texts from the payload of a variant.
pub trait Indexer {
    /// The texts under which the resource is to be found, drawn from the
    /// payload of one of its variants. An indexer that does not know the
    /// media type of the variant gives none.
    fn index(&self, meta: &ResourceMetadata, content: &VariantContent) -> Result<
        Vec<String>,
        ResourceStoreError,
    >;
}

/// A generic indexer for flat JSON records. The indexed fields are those
/// that hold a text or a list of texts.
pub struct FlatJsonIndexer {
    fields: Vec<String>,
    family: String,
}

/// Appends to a list the texts that a value gives to the index.
fn push_value_texts(texts: &mut Vec<String>, value: &JsonValue)
    ensures
        string_views(final(texts)@) == string_views(old(texts)@) + value_texts(value@),
{
    let ghost start = string_views(texts@);
    match value {
        JsonValue::Text(text) => {
            texts.push(text.clone());
            assert(string_views(texts@) =~= start + seq![text@]);
        },
        JsonValue::List(items) => {
            let ghost models = value@->List_0;
            let mut i: usize = 0;
            assert(models.take(0) =~= Seq::<JsonModel>::empty());
            assert(string_views(texts@) =~= start + item_texts(models.take(0)));
            while i < items.len()
                invariant
                    i <= items@.len(),
                    models.len() == items@.len(),
                    forall|k: int| 0 <= k < items@.len() ==> models[k] == (#[trigger] items@[k])@,
                    string_views(texts@) == start + item_texts(models.take(i as int)),
                decreases items@.len() - i,
            {
                let ghost before = string_views(texts@);
                proof {
                    assert(models.take(i + 1).drop_last() =~= models.take(i as int));
                    assert(models.take(i + 1).last() == items@[i as int]@);
                }
                match &items[i] {
                    JsonValue::Text(text) => {
                        texts.push(text.clone());
                        assert(string_views(texts@) =~= before.push(text@));
                        assert(string_views(texts@) =~= start + item_texts(models.take(i + 1)));
                    },
                    _ => {},
                }
                i += 1;
            }
            assert(models.take(items@.len() as int) =~= models);
        },
        _ => {
            assert(string_views(texts@) =~= start + value_texts(value@));
        },
    }
}

/// Appends to a list the texts that a field of a document gives to the
/// index.
fn push_field_texts(texts: &mut Vec<String>, document: &JsonValue, field: &str)
    ensures
        string_views(final(texts)@) == string_views(old(texts)@) + field_texts(document@, field@),
{
    let ghost start = string_views(texts@);
    match document {
        JsonValue::Record(members) => {
            let ghost models = document@->Record_0;
            let mut i: usize = 0;
            assert(models.skip(0) =~= models);

            while i < members.len()
                invariant
                    i <= members@.len(),
                    texts@ == old(texts)@,
                    start == string_views(old(texts)@),
                    document@ == JsonModel::Record(models),
                    models.len() == members@.len(),
                    forall|k: int|
                        0 <= k < members@.len() ==> models[k] == (
                            (#[trigger] members@[k]).name@,
                            members@[k].value@,
                        ),
                    member_named(models, field@) == member_named(models.skip(i as int), field@),
                decreases members@.len() - i,
            {
                let ghost rest = models.skip(i as int);
                assert(rest[0] == models[i as int]);
                assert(rest.drop_first() =~= models.skip(i + 1));
                if same_text(members[i].name.as_str(), field) {
                    assert(rest.len() > 0 && rest[0].0 == field@);
                    assert(member_named(rest, field@) == Some(members@[i as int].value@));
                    push_value_texts(texts, &members[i].value);
                    return ;
                }
                assert(member_named(rest, field@) == member_named(rest.drop_first(), field@));
                i += 1;
            }
            assert(string_views(texts@) =~= start + Seq::<Seq<char>>::empty());
        },
        _ => {
            assert(string_views(texts@) =~= start + Seq::<Seq<char>>::empty());
        },
    }
}

impl FlatJsonIndexer {
    /// The media type that the indexer knows.
    pub closed spec fn family(&self) -> Seq<char> {
        self.family@
    }

    /// The fields that the indexer reads.
    pub closed spec fn fields(&self) -> Seq<Seq<char>> {
        string_views(self.fields@)
    }

    pub fn new(family: &str, fields: &[&str]) -> (indexer: Self)
        ensures
            indexer.family() == family@,
            indexer.fields().len() == fields@.len(),
            forall|i: int| 0 <= i < fields@.len() ==> indexer.fields()[i] == fields@[i]@,
    {
        let mut names: Vec<String> = Vec::new();
        let mut i: usize = 0;
        while i < fields.len()
            invariant
                i <= fields@.len(),
                names@.len() == i,
                forall|j: int| 0 <= j < i ==> names@[j]@ == fields@[j]@,
            decreases fields@.len() - i,
        {
            names.push(fields[i].to_owned());
            i += 1;
        }
        FlatJsonIndexer { fields: names, family: family.to_owned() }
    }

    /// The texts that the fields of the indexer give in a document.
    pub fn texts_of(&self, document: &JsonValue) -> (texts: Vec<String>)
        ensures
            string_views(texts@) == flat_texts(document@, self.fields()),
    {
        let mut texts: Vec<String> = Vec::new();
        let mut i: usize = 0;
        assert(self.fields().take(0) =~= Seq::<Seq<char>>::empty());
        assert(string_views(texts@) =~= flat_texts(document@, self.fields().take(0)));
        while i < self.fields.len()
            invariant
                i <= self.fields@.len(),
                self.fields().len() == self.fields@.len(),
                string_views(texts@) == flat_texts(document@, self.fields().take(i as int)),
            decreases self.fields@.len() - i,
        {
            proof {
                assert(self.fields().take(i + 1).drop_last() =~= self.fields().take(i as int));
                assert(self.fields().take(i + 1).last() == self.fields@[i as int]@);
            }
            push_field_texts(&mut texts, document, self.fields[i].as_str());
            i += 1;
        }
        assert(self.fields().take(self.fields@.len() as int) =~= self.fields());
        texts
    }
}

impl Indexer for FlatJsonIndexer {
    /// The texts of the fields of the indexer in a payload of the media
    /// type of the indexer; none for another media type. A payload of the
    /// media type of the indexer that is not JSON is an error.
    fn index(&self, meta: &ResourceMetadata, content: &VariantContent) -> (found: Result<
        Vec<String>,
        ResourceStoreError,
    >)
        ensures
            content.0@.mime_type != self.family() ==> (found matches Ok(texts) && texts@.len()
                == 0),
            content.0@.mime_type == self.family() ==> match json_document(content.1@) {
                Some(document) => (found matches Ok(texts) && string_views(texts@) == flat_texts(
                    document,
                    self.fields(),
                )),
                None => found matches Err(ResourceStoreError::Json(_)),
            },
    {
        if !same_text(content.0.mime_type().as_str(), self.family.as_str()) {
            return Ok(Vec::new());
        }
        match parse_json(content.1.as_slice()) {
            Ok(document) => Ok(self.texts_of(&document)),
            Err(error) => Err(ResourceStoreError::Json(error)),
        }
    }
}

/// The indexer of places: JSON records with the fields `url` and `title`.
pub fn create_places_indexer() -> (indexer: FlatJsonIndexer)
    ensures
        indexer.family() == "application/x-places+json"@,
        indexer.fields() == seq!["url"@, "title"@],
{
    let indexer = FlatJsonIndexer::new("application/x-places+json", &["url", "title"]);
    assert(indexer.fields() =~= seq!["url"@, "title"@]);
    indexer
}

/// The indexer of contacts: JSON records with the fields `name`, `phone`
/// and `email`.
pub fn create_contacts_indexer() -> (indexer: FlatJsonIndexer)
    ensures
        indexer.family() == "application/x-contacts+json"@,
        indexer.fields() == seq!["name"@, "phone"@, "email"@],
{
    let indexer = FlatJsonIndexer::new("application/x-contacts+json", &["name", "phone", "email"]);
    assert(indexer.fields() =~= seq!["name"@, "phone"@, "email"@]);
    indexer
}

} // verus!
