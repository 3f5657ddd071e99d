//! What the service needs to know about an index in order to run a pipeline on it.

use vstd::prelude::*;

verus! {

/// An index as the metastore lists it: the unique identifier of this incarnation of the
/// index, the name under which the metastore is asked for it, and the URI of its storage.
#[derive(Debug)]
pub struct IndexDescriptor {
    pub index_uid: String,
    pub index_id: String,
    pub index_uri: String,
}

/// The mathematical value of an [`IndexDescriptor`].
pub struct IndexDescriptorView {
    pub index_uid: Seq<char>,
    pub index_id: Seq<char>,
    pub index_uri: Seq<char>,
}

impl View for IndexDescriptor {
    type V = IndexDescriptorView;

    open spec fn view(&self) -> IndexDescriptorView {
        IndexDescriptorView {
            index_uid: self.index_uid@,
            index_id: self.index_id@,
            index_uri: self.index_uri@,
        }
    }
}

impl IndexDescriptor {
    /// Builds a descriptor from an identifier, a name and a storage URI.
    pub fn new(index_uid: String, index_id: String, index_uri: String) -> (descriptor: Self)
        ensures
            descriptor.index_uid == index_uid,
            descriptor.index_id == index_id,
            descriptor.index_uri == index_uri,
    {
        IndexDescriptor { index_uid, index_id, index_uri }
    }

    /// A copy that stands for the same index.
    pub fn duplicate(&self) -> (copy: Self)
        ensures
            copy@ == self@,
    {
        IndexDescriptor {
            index_uid: self.index_uid.clone(),
            index_id: self.index_id.clone(),
            index_uri: self.index_uri.clone(),
        }
    }
}

/// The identifiers of a sequence of descriptors, in the same order.
pub open spec fn uids_of(listing: Seq<IndexDescriptor>) -> Seq<Seq<char>> {
    Seq::new(listing.len(), |i: int| listing[i].index_uid@)
}

} // verus!
