//! Shared types: identifiers, variants, metadata, errors, and the
//! interfaces of the collaborators of the manager.

pub use crate::error::ResourceStoreError;
use crate::scorer::{
    scorer_bytes, scorer_decoding, Scorer, ScorerModel, VisitEntry, MAX_VISIT_COUNT,
};
use crate::strings::{
    clone_strings, contains_text, copy_bytes, decimal, decimal_text, same_text, string_views,
};
use vstd::prelude::*;

verus! {

/// The text of the identifier of the root.
pub const ROOT_ID_STR: &'static str = "9e48b88d-4ab5-496b-ad7f-9ecc685128db";

/// The identifier of a resource. Its view is its text.
#[derive(Debug, PartialEq, Eq, Hash)]
pub struct ResourceId(String);

impl View for ResourceId {
    type V = Seq<char>;

    closed spec fn view(&self) -> Seq<char> {
        self.0@
    }
}

/// Whether a character is a digit of a number in base 16, in lower case.
pub open spec fn is_hex_digit(c: char) -> bool {
    ('0' <= c && c <= '9') || ('a' <= c && c <= 'f')
}

/// Whether a text has the shape of a random identifier: 32 digits in base
/// 16 in groups of 8, 4, 4, 4 and 12, with a hyphen between two groups;
/// the third group starts with the version, 4, and the fourth with 8, 9, a
/// or b.
pub open spec fn is_random_uuid(text: Seq<char>) -> bool {
    &&& text.len() == 36
    &&& forall|i: int|
        0 <= i < 36 ==> if i == 8 || i == 13 || i == 18 || i == 23 {
            #[trigger] text[i] == '-'
        } else {
            is_hex_digit(text[i])
        }
    &&& text[14] == '4'
    &&& (text[19] == '8' || text[19] == '9' || text[19] == 'a' || text[19] == 'b')
}

/// Makes a random version 4 identifier with `uuid::Uuid::new_v4` and writes
/// it out in the hyphenated form of its `Display`. The digits are random;
/// the text has the shape that the crate gives to every such identifier.
#[verifier::external_body]
fn fresh_uuid_text() -> (text: String)
    ensures
        is_random_uuid(text@),
{
    uuid::Uuid::new_v4().to_string()
}

impl Clone for ResourceId {
    fn clone(&self) -> (copy: Self)
        ensures
            copy@ == self@,
    {
        ResourceId(self.0.clone())
    }
}

impl ResourceId {
    /// A fresh random identifier.
    pub fn new() -> (id: Self)
        ensures
            is_random_uuid(id@),
    {
        ResourceId(fresh_uuid_text())
    }

    /// The identifier of the root.
    pub fn root() -> (id: Self)
        ensures
            id@ == ROOT_ID_STR@,
    {
        ResourceId(ROOT_ID_STR.to_owned())
    }

    /// The identifier with the given text.
    pub fn from_text(text: &str) -> (id: Self)
        ensures
            id@ == text@,
    {
        ResourceId(text.to_owned())
    }

    pub fn is_root(&self) -> (root: bool)
        ensures
            root == (self@ == ROOT_ID_STR@),
    {
        same_text(self.0.as_str(), ROOT_ID_STR)
    }

    /// Whether two identifiers are the same.
    pub fn same(&self, other: &ResourceId) -> (same: bool)
        ensures
            same == (self@ == other@),
    {
        self.0 == other.0
    }

    /// The text of the identifier.
    pub fn as_str(&self) -> (text: &str)
        ensures
            text@ == self@,
    {
        self.0.as_str()
    }

    /// The text of the identifier, copied.
    pub fn to_string(&self) -> (text: String)
        ensures
            text@ == self@,
    {
        self.0.clone()
    }
}

/// The text of the identifier that stands for a number: `id-` and the
/// number in decimal digits.
pub open spec fn numbered_id(number: i32) -> Seq<char> {
    if number < 0 {
        "id--"@ + decimal_text((-number) as nat)
    } else {
        "id-"@ + decimal_text(number as nat)
    }
}

impl ResourceId {
    /// The identifier that stands for a number.
    pub fn from_number(number: i32) -> (id: Self)
        ensures
            id@ == numbered_id(number),
    {
        if number < 0 {
            ResourceId("id--".to_owned().concat(decimal((-(number as i64)) as u64).as_str()))
        } else {
            ResourceId("id-".to_owned().concat(decimal(number as u64).as_str()))
        }
    }
}

/// An identifier with the frecency of its resource.
#[derive(Debug, PartialEq)]
pub struct IdFrec {
    pub id: ResourceId,
    pub frecency: u32,
}

impl View for IdFrec {
    type V = (Seq<char>, u32);

    open spec fn view(&self) -> (Seq<char>, u32) {
        (self.id@, self.frecency)
    }
}

impl IdFrec {
    pub fn new(id: &ResourceId, frecency: u32) -> (pair: Self)
        ensures
            pair.id@ == id@,
            pair.frecency == frecency,
    {
        IdFrec { id: id.clone(), frecency }
    }
}

/// Containers may hold children; leaves may not.
#[derive(Clone, Copy, Debug, PartialEq, Eq, Structural)]
pub enum ResourceKind {
    Container,
    Leaf,
}

impl ResourceKind {
    /// The number that stands for a kind in the index.
    pub open spec fn code_spec(self) -> i64 {
        match self {
            ResourceKind::Container => 0,
            ResourceKind::Leaf => 1,
        }
    }

    /// The number that stands for the kind in the index.
    pub fn code(&self) -> (code: i64)
        ensures
            code == self.code_spec(),
    {
        match self {
            ResourceKind::Container => 0,
            ResourceKind::Leaf => 1,
        }
    }

    /// The kind that a number stands for.
    pub fn from(val: i64) -> (kind: Self)
        requires
            val == 0 || val == 1,
        ensures
            kind.code_spec() == val,
    {
        if val == 0 {
            ResourceKind::Container
        } else {
            ResourceKind::Leaf
        }
    }

    /// The kind that a number stands for, if it stands for one.
    pub fn from_code(val: i64) -> (kind: Option<Self>)
        ensures
            match kind {
                Some(k) => k.code_spec() == val,
                None => val != 0 && val != 1,
            },
    {
        if val == 0 {
            Some(ResourceKind::Container)
        } else if val == 1 {
            Some(ResourceKind::Leaf)
        } else {
            None
        }
    }
}

/// What a variant holds.
pub struct VariantModel {
    pub name: Seq<char>,
    pub mime_type: Seq<char>,
    pub size: u32,
}

/// A named payload of a resource.
#[derive(Debug, PartialEq)]
pub struct Variant {
    name: String,
    mime_type: String,
    size: u32,
}

impl View for Variant {
    type V = VariantModel;

    closed spec fn view(&self) -> VariantModel {
        VariantModel { name: self.name@, mime_type: self.mime_type@, size: self.size }
    }
}

impl Clone for Variant {
    fn clone(&self) -> (copy: Self)
        ensures
            copy@ == self@,
    {
        Variant { name: self.name.clone(), mime_type: self.mime_type.clone(), size: self.size }
    }
}

impl Variant {
    pub fn new(name: &str, mime_type: &str, size: u32) -> (variant: Self)
        ensures
            variant@ == (VariantModel { name: name@, mime_type: mime_type@, size }),
    {
        Variant { name: name.to_owned(), mime_type: mime_type.to_owned(), size }
    }

    pub fn name(&self) -> (name: String)
        ensures
            name@ == self@.name,
    {
        self.name.clone()
    }

    pub fn set_name(&mut self, name: &str)
        ensures
            final(self)@ == (VariantModel { name: name@, ..old(self)@ }),
    {
        self.name = name.to_owned();
    }

    pub fn mime_type(&self) -> (mime_type: String)
        ensures
            mime_type@ == self@.mime_type,
    {
        self.mime_type.clone()
    }

    pub fn set_mime_type(&mut self, mime_type: &str)
        ensures
            final(self)@ == (VariantModel { mime_type: mime_type@, ..old(self)@ }),
    {
        self.mime_type = mime_type.to_owned();
    }

    pub fn size(&self) -> (size: u32)
        ensures
            size == self@.size,
    {
        self.size
    }

    pub fn set_size(&mut self, size: u32)
        ensures
            final(self)@ == (VariantModel { size, ..old(self)@ }),
    {
        self.size = size;
    }

    /// Whether the variant has the given name.
    pub fn is_named(&self, name: &str) -> (named: bool)
        ensures
            named == (self@.name == name@),
    {
        same_text(self.name.as_str(), name)
    }
}

/// What a list of variants holds.
pub open spec fn variant_models(variants: Seq<Variant>) -> Seq<VariantModel> {
    variants.map_values(|v: Variant| v@)
}

/// The names of a list of variants.
pub open spec fn variant_names(variants: Seq<VariantModel>) -> Seq<Seq<char>> {
    variants.map_values(|v: VariantModel| v.name)
}

/// A copy of a list of variants.
pub fn clone_variants(variants: &Vec<Variant>) -> (copy: Vec<Variant>)
    ensures
        variant_models(copy@) == variant_models(variants@),
{
    let mut copy: Vec<Variant> = Vec::new();
    let mut i: usize = 0;
    while i < variants.len()
        invariant
            i <= variants@.len(),
            copy@.len() == i,
            forall|j: int| 0 <= j < i ==> copy@[j]@ == variants@[j]@,
        decreases variants@.len() - i,
    {
        copy.push(variants[i].clone());
        i += 1;
    }
    assert(variant_models(copy@) =~= variant_models(variants@));
    copy
}

/// A variant with its payload.
#[derive(Debug, PartialEq)]
pub struct VariantContent(pub Variant, pub Vec<u8>);

impl Clone for VariantContent {
    fn clone(&self) -> (copy: Self)
        ensures
            copy.0@ == self.0@,
            copy.1@ == self.1@,
    {
        VariantContent(self.0.clone(), copy_bytes(self.1.as_slice()))
    }
}

impl VariantContent {
    pub fn new(variant: Variant, content: Vec<u8>) -> (pair: Self)
        ensures
            pair.0 == variant,
            pair.1 == content,
    {
        VariantContent(variant, content)
    }
}


/// What the metadata of a resource holds. Timestamps are microseconds
/// since the Unix epoch.
pub struct MetadataModel {
    pub id: Seq<char>,
    pub parent: Seq<char>,
    pub kind: ResourceKind,
    pub name: Seq<char>,
    pub tags: Seq<Seq<char>>,
    pub variants: Seq<VariantModel>,
    pub created: i64,
    pub modified: i64,
    pub scorer: ScorerModel,
}

/// The variants of a list whose name is not `name`, in their order.
pub open spec fn variants_without(variants: Seq<VariantModel>, name: Seq<char>) -> Seq<
    VariantModel,
> {
    variants.filter(|v: VariantModel| v.name != name)
}

/// The metadata of a resource.
#[derive(Debug, PartialEq)]
pub struct ResourceMetadata {
    id: ResourceId,
    parent: ResourceId,
    kind: ResourceKind,
    name: String,
    tags: Vec<String>,
    variants: Vec<Variant>,
    created: i64,
    modified: i64,
    scorer: Scorer,
}

impl View for ResourceMetadata {
    type V = MetadataModel;

    closed spec fn view(&self) -> MetadataModel {
        MetadataModel {
            id: self.id@,
            parent: self.parent@,
            kind: self.kind,
            name: self.name@,
            tags: string_views(self.tags@),
            variants: variant_models(self.variants@),
            created: self.created,
            modified: self.modified,
            scorer: self.scorer@,
        }
    }
}

impl Clone for ResourceMetadata {
    fn clone(&self) -> (copy: Self)
        ensures
            copy@ == self@,
    {
        ResourceMetadata {
            id: self.id.clone(),
            parent: self.parent.clone(),
            kind: self.kind,
            name: self.name.clone(),
            tags: clone_strings(&self.tags),
            variants: clone_variants(&self.variants),
            created: self.created,
            modified: self.modified,
            scorer: self.scorer.clone(),
        }
    }
}

impl ResourceMetadata {
    /// The scorer of the metadata is well formed.
    pub open spec fn wf(&self) -> bool {
        self@.scorer.wf()
    }

    /// Whether the scorer of the metadata is well formed.
    pub fn is_valid(&self) -> (valid: bool)
        ensures
            valid == self.wf(),
    {
        self.scorer.is_valid()
    }

    /// New metadata, created and modified at the time of the call, with an
    /// empty scorer.
    pub fn new(
        id: &ResourceId,
        parent: &ResourceId,
        kind: ResourceKind,
        name: &str,
        tags: Vec<String>,
        variants: Vec<Variant>,
    ) -> (metadata: Self)
        ensures
            metadata@.id == id@,
            metadata@.parent == parent@,
            metadata@.kind == kind,
            metadata@.name == name@,
            metadata@.tags == string_views(tags@),
            metadata@.variants == variant_models(variants@),
            metadata@.created == metadata@.modified,
            metadata@.scorer == ScorerModel::empty(),
            metadata.wf(),
    {
        let now = crate::scorer::now_micros();
        ResourceMetadata {
            id: id.clone(),
            parent: parent.clone(),
            kind,
            name: name.to_owned(),
            tags,
            variants,
            created: now,
            modified: now,
            scorer: Scorer::default(),
        }
    }

    pub fn has_variant(&self, name: &str) -> (found: bool)
        ensures
            found == variant_names(self@.variants).contains(name@),
    {
        let mut i: usize = 0;
        while i < self.variants.len()
            invariant
                i <= self.variants@.len(),
                forall|j: int| 0 <= j < i ==> variant_names(self@.variants)[j] != name@,
            decreases self.variants@.len() - i,
        {
            if self.variants[i].is_named(name) {
                assert(variant_names(self@.variants)[i as int] == name@);
                return true;
            }
            i += 1;
        }
        false
    }

    pub fn has_tag(&self, tag: &str) -> (found: bool)
        ensures
            found == self@.tags.contains(tag@),
    {
        contains_text(&self.tags, tag)
    }

    pub fn id(&self) -> (id: ResourceId)
        ensures
            id@ == self@.id,
    {
        self.id.clone()
    }

    pub fn parent(&self) -> (parent: ResourceId)
        ensures
            parent@ == self@.parent,
    {
        self.parent.clone()
    }

    pub fn kind(&self) -> (kind: ResourceKind)
        ensures
            kind == self@.kind,
    {
        self.kind
    }

    pub fn name(&self) -> (name: String)
        ensures
            name@ == self@.name,
    {
        self.name.clone()
    }

    /// Gives the resource another name.
    pub fn set_name(&mut self, name: &str)
        ensures
            final(self)@ == (MetadataModel { name: name@, ..old(self)@ }),
    {
        self.name = name.to_owned();
    }

    pub fn scorer(&self) -> (scorer: &Scorer)
        ensures
            scorer@ == self@.scorer,
    {
        &self.scorer
    }

    pub fn set_scorer(&mut self, scorer: &Scorer)
        ensures
            final(self)@ == (MetadataModel { scorer: scorer@, ..old(self)@ }),
    {
        self.scorer = scorer.clone();
    }

    /// Counts a visit in the scorer.
    pub fn update_scorer(&mut self, entry: &VisitEntry)
        requires
            old(self).wf(),
            old(self)@.scorer.visit_count < MAX_VISIT_COUNT,
        ensures
            final(self)@ == (MetadataModel {
                scorer: old(self)@.scorer.add(*entry),
                ..old(self)@
            }),
            final(self).wf(),
    {
        self.scorer.add(entry);
    }

    /// The binary form of the scorer, as the index stores it.
    pub fn db_scorer(&self) -> (bytes: Vec<u8>)
        requires
            self.wf(),
        ensures
            bytes@ == scorer_bytes(self@.scorer),
    {
        self.scorer.as_binary()
    }

    /// Sets the scorer from its binary form; to the empty scorer when the
    /// bytes are the binary form of none.
    pub fn set_scorer_from_db(&mut self, serialized: &[u8])
        ensures
            final(self)@ == (MetadataModel {
                scorer: match scorer_decoding(serialized@) {
                    Some(model) => model,
                    None => ScorerModel::empty(),
                },
                ..old(self)@
            }),
            final(self).wf(),
    {
        self.scorer = Scorer::from_binary(serialized);
    }

    pub fn created(&self) -> (created: i64)
        ensures
            created == self@.created,
    {
        self.created
    }

    pub fn set_created(&mut self, date: i64)
        ensures
            final(self)@ == (MetadataModel { created: date, ..old(self)@ }),
    {
        self.created = date;
    }

    pub fn modified(&self) -> (modified: i64)
        ensures
            modified == self@.modified,
    {
        self.modified
    }

    pub fn set_modified(&mut self, date: i64)
        ensures
            final(self)@ == (MetadataModel { modified: date, ..old(self)@ }),
    {
        self.modified = date;
    }

    /// Marks the resource as modified at the time of the call.
    pub fn modify_now(&mut self)
        ensures
            final(self)@ == (MetadataModel { modified: final(self)@.modified, ..old(self)@ }),
    {
        self.modified = crate::scorer::now_micros();
    }

    pub fn tags(&self) -> (tags: &Vec<String>)
        ensures
            string_views(tags@) == self@.tags,
    {
        &self.tags
    }

    pub fn set_tags(&mut self, tags: Vec<String>)
        ensures
            final(self)@ == (MetadataModel { tags: string_views(tags@), ..old(self)@ }),
    {
        self.tags = tags;
    }

    pub fn variants(&self) -> (variants: &Vec<Variant>)
        ensures
            variant_models(variants@) == self@.variants,
    {
        &self.variants
    }

    pub fn set_variants(&mut self, variants: Vec<Variant>)
        ensures
            final(self)@ == (MetadataModel { variants: variant_models(variants@), ..old(self)@ }),
    {
        self.variants = variants;
    }

    /// Adds a variant unless one of its name is there already.
    pub fn add_variant(&mut self, variant: Variant)
        ensures
            final(self)@ == (MetadataModel {
                variants: if variant_names(old(self)@.variants).contains(variant@.name) {
                    old(self)@.variants
                } else {
                    old(self)@.variants.push(variant@)
                },
                ..old(self)@
            }),
    {
        let name = variant.name();
        if !self.has_variant(name.as_str()) {
            self.variants.push(variant);
            assert(variant_models(self.variants@) =~= variant_models(old(self).variants@).push(
                variant@,
            ));
        }
    }

    /// Takes out the variants of the given name.
    pub fn delete_variant(&mut self, name: &str)
        ensures
            final(self)@ == (MetadataModel {
                variants: variants_without(old(self)@.variants, name@),
                ..old(self)@
            }),
    {
        let mut kept: Vec<Variant> = Vec::new();
        let mut i: usize = 0;
        let ghost keep = |v: VariantModel| v.name != name@;
        proof {
            reveal(Seq::filter);
            assert(self@.variants.subrange(0, 0).filter(keep) =~= variant_models(kept@));
        }
        while i < self.variants.len()
            invariant
                i <= self.variants@.len(),
                keep == (|v: VariantModel| v.name != name@),
                variant_models(kept@) == self@.variants.subrange(0, i as int).filter(keep),
            decreases self.variants@.len() - i,
        {
            let ghost before = kept@;
            if !self.variants[i].is_named(name) {
                kept.push(self.variants[i].clone());
            }
            proof {
                reveal(Seq::filter);
                let upto = self@.variants.subrange(0, i + 1);
                assert(upto.drop_last() =~= self@.variants.subrange(0, i as int));
                assert(upto.last() == self.variants@[i as int]@);
                assert(variant_models(kept@) =~= upto.filter(keep));
            }
            i += 1;
        }
        assert(self@.variants.subrange(0, self.variants@.len() as int) =~= self@.variants);
        self.variants = kept;
    }

    /// The media type of the first variant of the given name.
    pub fn mime_type_for_variant(&self, variant_name: &str) -> (mime_type: Option<String>)
        ensures
            mime_type is Some <==> variant_names(self@.variants).contains(variant_name@),
            mime_type matches Some(m) ==> exists|i: int|
                0 <= i < self@.variants.len() && self@.variants[i].name == variant_name@
                    && self@.variants[i].mime_type == m@ && forall|j: int|
                    0 <= j < i ==> self@.variants[j].name != variant_name@,
    {
        let mut i: usize = 0;
        while i < self.variants.len()
            invariant
                i <= self.variants@.len(),
                forall|j: int| 0 <= j < i ==> self@.variants[j].name != variant_name@,
            decreases self.variants@.len() - i,
        {
            if self.variants[i].is_named(variant_name) {
                assert(variant_names(self@.variants)[i as int] == variant_name@);
                assert(self@.variants[i as int] == self.variants@[i as int]@);
                return Some(self.variants[i].mime_type());
            }
            i += 1;
        }
        assert forall|j: int| 0 <= j < self@.variants.len() implies variant_names(
            self@.variants,
        )[j] != variant_name@ by {}
        None
    }
}


/// The blob store that the manager keeps coherent with its index. It holds,
/// for each resource, the metadata and one payload for each variant.
pub trait ResourceStore {
    /// Stores a new resource with its metadata and, if given, the payload
    /// of one of its variants. Fails if the resource is stored already.
    fn create(&self, metadata: &ResourceMetadata, content: Option<VariantContent>) -> Result<
        (),
        ResourceStoreError,
    >;

    /// Stores the metadata of a resource again and, if given, the payload
    /// of one of its variants.
    fn update(&self, metadata: &ResourceMetadata, content: Option<VariantContent>) -> Result<
        (),
        ResourceStoreError,
    >;

    /// Stores the payload of the default variant of a resource.
    fn update_default_variant_from_slice(&self, id: &ResourceId, content: &[u8]) -> Result<
        (),
        ResourceStoreError,
    >;

    /// Deletes a resource: its metadata and all its variants.
    fn delete(&self, id: &ResourceId) -> Result<(), ResourceStoreError>;

    /// Deletes one variant of a resource.
    fn delete_variant(&self, id: &ResourceId, variant: &str) -> Result<(), ResourceStoreError>;

    /// Fetches the metadata of a resource.
    fn get_metadata(&self, id: &ResourceId) -> Result<ResourceMetadata, ResourceStoreError>;

    /// Fetches the payload of one variant of a resource.
    fn get_variant(&self, id: &ResourceId, variant: &str) -> Result<Vec<u8>, ResourceStoreError>;

    /// Fetches the metadata of a resource and the payload of one variant.
    fn get_full(&self, id: &ResourceId, variant: &str) -> Result<
        (ResourceMetadata, Vec<u8>),
        ResourceStoreError,
    >;
}

/// Gives the objects of a blob store their names.
pub trait ResourceNameProvider {
    /// The name of the object that holds the metadata of a resource.
    fn metadata_name(&self, id: &ResourceId) -> String;

    /// The name of the object that holds a variant of a resource.
    fn variant_name(&self, id: &ResourceId, variant: &str) -> String;
}

/// The names that a store uses by default.
pub struct DefaultResourceNameProvider;

/// The default name of the metadata object of a resource.
pub open spec fn default_metadata_name(id: Seq<char>) -> Seq<char> {
    id + ".meta"@
}

/// The default name of the object of a variant of a resource.
pub open spec fn default_variant_name(id: Seq<char>, variant: Seq<char>) -> Seq<char> {
    id + ".content."@ + variant
}

impl ResourceNameProvider for DefaultResourceNameProvider {
    fn metadata_name(&self, id: &ResourceId) -> (name: String)
        ensures
            name@ == default_metadata_name(id@),
    {
        id.to_string().concat(".meta")
    }

    fn variant_name(&self, id: &ResourceId, variant: &str) -> (name: String)
        ensures
            name@ == default_variant_name(id@, variant@),
    {
        id.to_string().concat(".content.").concat(variant)
    }
}

/// Transforms the data of a store as it is written and read.
pub trait ResourceTransformer {
    /// Transforms bytes that will be written.
    fn transform_array_to(&self, source: &[u8]) -> Vec<u8>;

    /// Transforms bytes that were read.
    fn transform_array_from(&self, source: &[u8]) -> Vec<u8>;
}

/// The transformer that leaves the data as it is.
pub struct IdentityTransformer;

impl ResourceTransformer for IdentityTransformer {
    fn transform_array_to(&self, source: &[u8]) -> (bytes: Vec<u8>)
        ensures
            bytes@ == source@,
    {
        copy_bytes(source)
    }

    fn transform_array_from(&self, source: &[u8]) -> (bytes: Vec<u8>)
        ensures
            bytes@ == source@,
    {
        copy_bytes(source)
    }
}

} // verus!
