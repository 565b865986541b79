//! The errors of the resource store.

use vstd::prelude::*;

verus! {

/// The error of `serde_json`. It is carried as it is.
#[verifier::external_type_specification]
#[verifier::external_body]
pub struct ExJsonError(serde_json::Error);

/// The kind of an error of `bincode`. It is carried as it is.
#[verifier::external_type_specification]
#[verifier::external_body]
pub struct ExBincodeErrorKind(bincode::ErrorKind);

/// The error of `std::io`. It is carried as it is.
#[verifier::external_type_specification]
#[verifier::external_body]
pub struct ExIoError(std::io::Error);

/// What can go wrong in the store. The variants that carry the cause of
/// another library compare equal by kind.
#[derive(Debug)]
pub enum ResourceStoreError {
    /// A resource with this identifier, or with this name under the same
    /// parent, exists already.
    ResourceAlreadyExists,
    /// The resource is neither in the index nor in the blob store.
    NoSuchResource,
    /// The chain of parents comes back to a resource.
    ResourceCycle,
    /// The variant is not one of the resource.
    InvalidVariant(String),
    /// A request that cannot be served, such as an empty query.
    Custom(String),
    /// A payload that is not the JSON it should be.
    Json(serde_json::Error),
    /// The storage failed.
    Io(std::io::Error),
    /// The parent is not a container, or a resource other than the root
    /// is its own parent.
    InvalidContainerId,
    /// A list of children that could not be written or read.
    Bincode(bincode::Error),
}

impl PartialEq for ResourceStoreError {
    fn eq(&self, other: &Self) -> (same: bool) {
        match (self, other) {
            (ResourceStoreError::Custom(a), ResourceStoreError::Custom(b)) => *a == *b,
            (ResourceStoreError::InvalidVariant(a), ResourceStoreError::InvalidVariant(b)) => *a
                == *b,
            (ResourceStoreError::ResourceAlreadyExists, ResourceStoreError::ResourceAlreadyExists) => true,
            (ResourceStoreError::NoSuchResource, ResourceStoreError::NoSuchResource) => true,
            (ResourceStoreError::ResourceCycle, ResourceStoreError::ResourceCycle) => true,
            (ResourceStoreError::Json(_), ResourceStoreError::Json(_)) => true,
            (ResourceStoreError::Io(_), ResourceStoreError::Io(_)) => true,
            (ResourceStoreError::InvalidContainerId, ResourceStoreError::InvalidContainerId) => true,
            (ResourceStoreError::Bincode(_), ResourceStoreError::Bincode(_)) => true,
            _ => false,
        }
    }
}

impl vstd::std_specs::cmp::PartialEqSpecImpl for ResourceStoreError {
    open spec fn obeys_eq_spec() -> bool {
        true
    }

    open spec fn eq_spec(&self, other: &Self) -> bool {
        match (*self, *other) {
            (ResourceStoreError::Custom(a), ResourceStoreError::Custom(b)) => a@ == b@,
            (ResourceStoreError::InvalidVariant(a), ResourceStoreError::InvalidVariant(b)) => a@
                == b@,
            (ResourceStoreError::ResourceAlreadyExists, ResourceStoreError::ResourceAlreadyExists) => true,
            (ResourceStoreError::NoSuchResource, ResourceStoreError::NoSuchResource) => true,
            (ResourceStoreError::ResourceCycle, ResourceStoreError::ResourceCycle) => true,
            (ResourceStoreError::Json(_), ResourceStoreError::Json(_)) => true,
            (ResourceStoreError::Io(_), ResourceStoreError::Io(_)) => true,
            (ResourceStoreError::InvalidContainerId, ResourceStoreError::InvalidContainerId) => true,
            (ResourceStoreError::Bincode(_), ResourceStoreError::Bincode(_)) => true,
            _ => false,
        }
    }
}

impl ResourceStoreError {
    /// An error with a message.
    pub fn custom(message: &str) -> (error: Self)
        ensures
            error matches ResourceStoreError::Custom(m) && m@ == message@,
    {
        ResourceStoreError::Custom(message.to_owned())
    }

    /// The error of a variant that is not one of the resource.
    pub fn invalid_variant(name: &str) -> (error: Self)
        ensures
            error matches ResourceStoreError::InvalidVariant(n) && n@ == name@,
    {
        ResourceStoreError::InvalidVariant(name.to_owned())
    }

    /// Whether the error is a `Custom` one with this message.
    pub open spec fn is_custom(self, message: Seq<char>) -> bool {
        self matches ResourceStoreError::Custom(m) && m@ == message
    }
}


/// Writes the cause of a JSON error with its `Display`.
#[verifier::external_body]
fn json_cause(cause: &serde_json::Error) -> (text: String) {
    format!("{}", cause)
}

/// Writes the cause of a storage error with its `Display`.
#[verifier::external_body]
fn io_cause(cause: &std::io::Error) -> (text: String) {
    format!("{}", cause)
}

/// Writes the cause of a `bincode` error with its `Display`.
#[verifier::external_body]
fn bincode_cause(cause: &bincode::Error) -> (text: String) {
    format!("{}", cause)
}

impl ResourceStoreError {
    /// What the message of an error starts with; for the errors without
    /// anything else to say, the whole message.
    pub open spec fn headline(self) -> Seq<char> {
        match self {
            ResourceStoreError::ResourceAlreadyExists => "Resource Already Exists"@,
            ResourceStoreError::NoSuchResource => "No Such Resource"@,
            ResourceStoreError::ResourceCycle => "Resource Cycle Detected"@,
            ResourceStoreError::InvalidVariant(_) => "Invalid Variant For This Resource: "@,
            ResourceStoreError::Custom(_) => "Custom Error: "@,
            ResourceStoreError::Json(_) => "Serde JSON error: "@,
            ResourceStoreError::Io(_) => "I/O Error: "@,
            ResourceStoreError::InvalidContainerId => "Invalid Container Id"@,
            ResourceStoreError::Bincode(_) => "Bincode error: "@,
        }
    }

    /// The message of the error: its headline, then the variant or the
    /// message that it carries, or the cause as its library writes it.
    pub fn to_string(&self) -> (message: String)
        ensures
            match *self {
                ResourceStoreError::InvalidVariant(name) => message@ == self.headline() + name@,
                ResourceStoreError::Custom(text) => message@ == self.headline() + text@,
                ResourceStoreError::Json(_) | ResourceStoreError::Io(_) | ResourceStoreError::Bincode(
                    _,
                ) => message@.len() >= self.headline().len() && message@.take(
                    self.headline().len() as int,
                ) == self.headline(),
                _ => message@ == self.headline(),
            },
    {
        match self {
            ResourceStoreError::ResourceAlreadyExists => "Resource Already Exists".to_owned(),
            ResourceStoreError::NoSuchResource => "No Such Resource".to_owned(),
            ResourceStoreError::ResourceCycle => "Resource Cycle Detected".to_owned(),
            ResourceStoreError::InvalidVariant(name) => "Invalid Variant For This Resource: ".to_owned().concat(
                name.as_str(),
            ),
            ResourceStoreError::Custom(text) => "Custom Error: ".to_owned().concat(text.as_str()),
            ResourceStoreError::Json(cause) => {
                let head = "Serde JSON error: ".to_owned();
                let message = head.concat(json_cause(cause).as_str());
                assert(message@.take("Serde JSON error: "@.len() as int) =~= "Serde JSON error: "@);
                message
            },
            ResourceStoreError::Io(cause) => {
                let head = "I/O Error: ".to_owned();
                let message = head.concat(io_cause(cause).as_str());
                assert(message@.take("I/O Error: "@.len() as int) =~= "I/O Error: "@);
                message
            },
            ResourceStoreError::InvalidContainerId => "Invalid Container Id".to_owned(),
            ResourceStoreError::Bincode(cause) => {
                let head = "Bincode error: ".to_owned();
                let message = head.concat(bincode_cause(cause).as_str());
                assert(message@.take("Bincode error: "@.len() as int) =~= "Bincode error: "@);
                message
            },
        }
    }
}

} // verus!
