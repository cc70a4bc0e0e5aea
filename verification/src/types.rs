//! The record types of the collection: note and tag identities, the flat tag
//! records the index hands out, the derived tag tree, and the error kinds
//! every operation reports.

use vstd::prelude::*;

verus! {

/// Identity of a note: the 128 bits of its UUID.
#[derive(Clone, Copy, Debug, PartialEq, Eq, Hash, Structural)]
pub struct NoteId {
    pub uuid: u128,
}

/// Identity of a tag: the 128 bits of its UUID.
#[derive(Clone, Copy, Debug, PartialEq, Eq, Hash, Structural)]
pub struct TagId {
    pub uuid: u128,
}

/// One flat tag record as the index stores it: a tag is a named node whose
/// `parent` is either another tag or `None` for a root.
#[derive(Debug)]
pub struct TagRow {
    pub id: TagId,
    pub name: String,
    pub parent: Option<TagId>,
}

/// One node of the derived tag tree: the tag itself, the subtrees of its
/// child tags, and the notes directly associated with it.
#[derive(Debug)]
pub struct TagTree {
    pub id: TagId,
    pub name: String,
    pub children: Vec<TagTree>,
    pub notes: Vec<NoteId>,
}

/// A note record: its identity, the digest of its content bytes (the key
/// into the content store), its display name and its media type.
#[derive(Debug)]
pub struct Note {
    pub id: NoteId,
    pub hash: Vec<u8>,
    pub name: String,
    pub mimetype: String,
}

/// The result of resolving an identity or a path: either a note or a node
/// of the tag tree.
#[derive(Debug)]
pub enum NoteOrTag<'a> {
    Note(&'a Note),
    Tag(&'a TagTree),
}

/// The error kinds of the collection.  `NotFound` covers an unknown handle,
/// name or digest; `StorageFault` a failing read of durable storage;
/// `Malformed` a digest string that is not fixed-length hex.
#[derive(Clone, Copy, Debug, PartialEq, Eq, Structural)]
pub enum CommonplaceError {
    NotFound,
    StorageFault,
    Malformed,
}

} // verus!
