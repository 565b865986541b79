//! Variant transformers process variants as they are created, updated and
//! deleted: a transformer may ask for other variants to be created, updated
//! or deleted in turn, such as the thumbnail of an image.

use crate::common::VariantContent;
use vstd::prelude::*;
pub mod thumbnailer;

verus! {

/// What happens to a variant.
pub enum VariantChange<'a> {
    Created(&'a VariantContent),
    Updated(&'a VariantContent),
    Deleted(&'a VariantContent),
}

impl<'a> VariantChange<'a> {
    pub fn is_created(&self) -> (created: bool)
        ensures
            created == (self is Created),
    {
        match self {
            VariantChange::Created(_) => true,
            _ => false,
        }
    }

    pub fn is_updated(&self) -> (updated: bool)
        ensures
            updated == (self is Updated),
    {
        match self {
            VariantChange::Updated(_) => true,
            _ => false,
        }
    }

    pub fn is_deleted(&self) -> (deleted: bool)
        ensures
            deleted == (self is Deleted),
    {
        match self {
            VariantChange::Deleted(_) => true,
            _ => false,
        }
    }

    /// The variant that changes, with its payload.
    pub open spec fn subject(&self) -> VariantContent {
        match *self {
            VariantChange::Created(content) => *content,
            VariantChange::Updated(content) => *content,
            VariantChange::Deleted(content) => *content,
        }
    }

    /// The variant that changes, with its payload.
    pub fn content(&self) -> (content: &'a VariantContent)
        ensures
            *content == self.subject(),
    {
        match self {
            VariantChange::Created(content) => content,
            VariantChange::Updated(content) => content,
            VariantChange::Deleted(content) => content,
        }
    }
}

/// What a transformer asks for.
#[derive(Debug, PartialEq)]
pub enum TransformationResult {
    /// Nothing.
    Noop,
    /// The variant of this name is to be deleted.
    Delete(String),
    /// This variant is to be created.
    Create(VariantContent),
    /// This variant is to be updated.
    Update(VariantContent),
}

/// A transformer of variants.
pub trait VariantTransformer {
    /// What the transformer asks for when a variant changes.
    fn transform_variant(&self, change: &VariantChange) -> Vec<TransformationResult>;
}

} // verus!
