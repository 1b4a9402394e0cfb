//! The index entry record: one archive member with its resolved payload
//! offset.

use vstd::prelude::*;

verus! {

/// One archive member as recorded in the index.
///
/// `data_offset` is the absolute byte offset, within the archive's byte
/// stream, of the first byte of the member's compressed payload — past the
/// member's local header, name and extra-field bytes.
#[derive(Debug, PartialEq)]
pub struct Entry {
    /// The member's archive-relative path, as the raw bytes stored in the
    /// archive.
    pub name: Vec<u8>,
    /// The payload's length after decompression.
    pub uncompressed_size: u64,
    /// The payload's length as stored in the archive.
    pub compressed_size: u64,
    /// Whether the member is a directory (its name ends in `/`); directory
    /// members carry no payload.
    pub is_directory: bool,
    /// The absolute offset of the payload's first byte.
    pub data_offset: u64,
}

/// The mathematical value of an [`Entry`].
pub ghost struct EntryModel {
    pub name: Seq<u8>,
    pub uncompressed_size: u64,
    pub compressed_size: u64,
    pub is_directory: bool,
    pub data_offset: u64,
}

impl View for Entry {
    type V = EntryModel;

    open spec fn view(&self) -> EntryModel {
        EntryModel {
            name: self.name@,
            uncompressed_size: self.uncompressed_size,
            compressed_size: self.compressed_size,
            is_directory: self.is_directory,
            data_offset: self.data_offset,
        }
    }
}

impl Clone for Entry {
    fn clone(&self) -> (r: Self)
        ensures
            r@ == self@,
    {
        Entry {
            name: self.name.clone(),
            uncompressed_size: self.uncompressed_size,
            compressed_size: self.compressed_size,
            is_directory: self.is_directory,
            data_offset: self.data_offset,
        }
    }
}

/// The mathematical value of a whole index: the entries in archive order.
pub open spec fn index_model(s: Seq<Entry>) -> Seq<EntryModel> {
    s.map_values(|e: Entry| e@)
}

} // verus!
