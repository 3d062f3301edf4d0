//! The record of one garbage-collection root.

use crate::time::{Duration, Timestamp};
use vstd::prelude::*;

verus! {

/// What the rules read of a file's metadata.
#[derive(Clone, Copy, Debug, PartialEq, Eq, Structural)]
pub struct Metadata {
    /// User id of the owner.
    pub uid: u32,
    /// Time of the last modification, where the platform tells it.
    pub modified: Option<Timestamp>,
}

/// What asking for the metadata of a path gave, without following a final
/// link.
#[derive(Clone, Copy, Debug, PartialEq, Eq, Structural)]
pub enum StatOutcome {
    /// The path exists and has this metadata.
    Found(Metadata),
    /// Nothing is at the path.
    NotFound,
    /// The caller may not look at the path.
    PermissionDenied,
    /// The metadata could not be read for another reason.
    Failed,
}

/// A symbolic link that anchors an object of the store.
#[derive(Debug)]
pub struct GcRoot {
    /// Target of the link.
    pub path: String,
    /// Metadata of the target.
    pub path_metadata: Metadata,
    /// Home directory of the owner of the target, where the user database
    /// knows the owner.
    pub owner_home: Option<String>,
    /// The link itself.
    pub link_path: String,
    /// Canonical form of the target, inside the store.
    pub store_path: String,
    /// Time since the target was last modified.
    pub age: Duration,
}

impl Clone for GcRoot {
    fn clone(&self) -> (r: Self)
        ensures
            r == *self,
    {
        GcRoot {
            path: self.path.clone(),
            path_metadata: self.path_metadata,
            owner_home: match &self.owner_home {
                Some(home) => Some(home.clone()),
                None => None,
            },
            link_path: self.link_path.clone(),
            store_path: self.store_path.clone(),
            age: self.age,
        }
    }
}

} // verus!
