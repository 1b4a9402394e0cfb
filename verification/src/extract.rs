//! The two partial-extraction paths: local seek and remote byte range.
//!
//! Both look one entry up in a loaded index, bound a byte stream to exactly
//! the entry's compressed size, and hand it to the shared decompression
//! stage.  The local path slices the archive bytes at the entry's
//! `data_offset`; the remote path asks for the inclusive byte range
//! `[data_offset, data_offset + compressed_size]` and truncates the response.
//! [`lemma_local_remote_equivalence`] proves that the two paths produce the
//! same bytes when the remote object equals the local archive.

use vstd::prelude::*;

use crate::Error;
use crate::bytes::{bytes_eq, copy_range};
use crate::entry::{Entry, EntryModel, index_model};
use crate::inflate::{inflate_raw, decompress};

verus! {

/// The first entry with the given name, if any.
pub open spec fn spec_lookup(s: Seq<EntryModel>, name: Seq<u8>) -> Option<EntryModel>
    decreases s.len(),
{
    if s.len() == 0 {
        None
    } else if s[0].name == name {
        Some(s[0])
    } else {
        spec_lookup(s.drop_first(), name)
    }
}

/// Looks `name` up in the index; with duplicate names the first match wins.
pub fn lookup(index: &Vec<Entry>, name: &[u8]) -> (r: Option<Entry>)
    ensures
        match r {
            Some(e) => spec_lookup(index_model(index@), name@) == Some(e@),
            None => spec_lookup(index_model(index@), name@) is None,
        },
{
    let ghost m = index_model(index@);
    let n = index.len();
    proof {
        assert(m.skip(0) =~= m);
    }
    let mut i: usize = 0;
    while i < n
        invariant
            n == index@.len(),
            i <= n,
            m == index_model(index@),
            spec_lookup(m, name@) == spec_lookup(m.skip(i as int), name@),
        decreases n - i,
    {
        proof {
            assert(m.skip(i as int)[0] == m[i as int]);
        }
        if bytes_eq(index[i].name.as_slice(), name) {
            proof {
                assert(spec_lookup(m.skip(i as int), name@) == Some(m[i as int]));
                assert(m[i as int] == index@[i as int]@);
            }
            return Some(index[i].clone());
        }
        proof {
            assert(m.skip(i as int).drop_first() =~= m.skip(i + 1));
            assert(spec_lookup(m.skip(i as int), name@) == spec_lookup(m.skip(i + 1), name@));
        }
        i = i + 1;
    }
    proof {
        assert(m.skip(n as int) =~= Seq::<EntryModel>::empty());
    }
    None
}

/// The entry's payload within the archive bytes `a`: the bytes from
/// `data_offset` to `data_offset + compressed_size`, truncated at the
/// archive's end.
pub open spec fn payload_slice(a: Seq<u8>, e: EntryModel) -> Seq<u8> {
    let start: int = if e.data_offset as int <= a.len() {
        e.data_offset as int
    } else {
        a.len() as int
    };
    let end: int = if e.data_offset + e.compressed_size <= a.len() {
        e.data_offset + e.compressed_size
    } else {
        a.len() as int
    };
    a.subrange(start, end)
}

/// What extracting `name` from the archive bytes `a` with index `idx`
/// returns: the inflated payload of the first entry of that name, or the
/// error owed.
pub open spec fn spec_extract(a: Seq<u8>, idx: Seq<EntryModel>, name: Seq<u8>) -> Result<
    Seq<u8>,
    Error,
> {
    match spec_lookup(idx, name) {
        None => Err(Error::NotFound),
        Some(e) => match inflate_raw(payload_slice(a, e)) {
            None => Err(Error::Decompression),
            Some(v) => Ok(v),
        },
    }
}

/// Copies the entry's payload out of the archive bytes.
fn payload_bytes(a: &[u8], e: &Entry) -> (r: Vec<u8>)
    ensures
        r@ == payload_slice(a@, e@),
{
    let n = a.len();
    let start: usize = if e.data_offset > n as u64 {
        n
    } else {
        e.data_offset as usize
    };
    let rem: u64 = (n - start) as u64;
    let take: u64 = if e.compressed_size > rem {
        rem
    } else {
        e.compressed_size
    };
    copy_range(a, start, start + take as usize)
}

/// Extracts one member from the archive bytes held in `a`: the lookup, the
/// bounding of the payload to exactly `compressed_size` bytes, and the
/// decompression stage.  A name absent from the index is
/// [`Error::NotFound`]; a payload that is not a valid raw-deflate stream is
/// [`Error::Decompression`].
pub fn extract_from_bytes(a: &[u8], index: &Vec<Entry>, name: &[u8]) -> (r: Result<Vec<u8>, Error>)
    ensures
        match r {
            Ok(v) => spec_extract(a@, index_model(index@), name@) == Ok::<Seq<u8>, Error>(v@),
            Err(e) => spec_extract(a@, index_model(index@), name@) == Err::<Seq<u8>, Error>(e),
        },
        r == Err::<Vec<u8>, Error>(Error::NotFound) <==> spec_lookup(
            index_model(index@),
            name@,
        ) is None,
{
    let e = match lookup(index, name) {
        None => {
            return Err(Error::NotFound);
        },
        Some(e) => e,
    };
    let payload = payload_bytes(a, &e);
    decompress(payload.as_slice())
}

/// The inclusive byte range the remote extractor requests for an entry:
/// first and last byte position, `[data_offset, data_offset +
/// compressed_size]`.
pub fn remote_range(e: &Entry) -> (r: (u64, u64))
    requires
        e@.data_offset + e@.compressed_size <= u64::MAX,
    ensures
        r.0 == e@.data_offset,
        r.1 == e@.data_offset + e@.compressed_size,
{
    (e.data_offset, e.data_offset + e.compressed_size)
}

/// What a byte-range request returns for an object holding the bytes `o`:
/// the bytes from position `first` through `last` inclusive, truncated at
/// the object's end, or `None` for an out-of-range request (`first` at or
/// past the object's end).
pub open spec fn range_response(o: Seq<u8>, first: int, last: int) -> Option<Seq<u8>> {
    if 0 <= first < o.len() {
        Some(
            o.subrange(
                first,
                if last + 1 <= o.len() {
                    last + 1
                } else {
                    o.len() as int
                },
            ),
        )
    } else {
        None
    }
}

/// What the remote extractor does with a fetched range body: bound it to the
/// entry's compressed size, then inflate.
pub open spec fn spec_finish_remote(f: Seq<u8>, e: EntryModel) -> Result<Seq<u8>, Error> {
    let t: Seq<u8> = if e.compressed_size as int <= f.len() {
        f.subrange(0, e.compressed_size as int)
    } else {
        f
    };
    match inflate_raw(t) {
        None => Err(Error::Decompression),
        Some(v) => Ok(v),
    }
}

/// Finishes a remote extraction: bounds the fetched range body to the
/// entry's compressed size and hands it to the decompression stage.
pub fn finish_remote(fetched: &[u8], e: &Entry) -> (r: Result<Vec<u8>, Error>)
    ensures
        match r {
            Ok(v) => spec_finish_remote(fetched@, e@) == Ok::<Seq<u8>, Error>(v@),
            Err(err) => spec_finish_remote(fetched@, e@) == Err::<Seq<u8>, Error>(err),
        },
{
    let n = fetched.len();
    let take: usize = if e.compressed_size <= n as u64 {
        e.compressed_size as usize
    } else {
        n
    };
    let bounded = copy_range(fetched, 0, take);
    proof {
        if e@.compressed_size as int <= fetched@.len() {
            assert(bounded@ == fetched@.subrange(0, e@.compressed_size as int));
        } else {
            assert(bounded@ =~= fetched@);
        }
    }
    decompress(bounded.as_slice())
}

/// Local and remote extraction agree: when a remote object holds the same
/// bytes as a local archive file, fetching an entry's byte range and
/// finishing it remotely produces exactly what local extraction of the same
/// name produces.  Entries whose payload lies within the archive and starts
/// before its end are covered; for them the range request cannot be
/// out-of-range.
pub proof fn lemma_local_remote_equivalence(
    a: Seq<u8>,
    o: Seq<u8>,
    idx: Seq<EntryModel>,
    name: Seq<u8>,
    e: EntryModel,
    f: Seq<u8>,
)
    requires
        o == a,
        spec_lookup(idx, name) == Some(e),
        (e.data_offset as int) < a.len(),
        e.data_offset + e.compressed_size <= a.len(),
        range_response(o, e.data_offset as int, e.data_offset + e.compressed_size) == Some(f),
    ensures
        spec_finish_remote(f, e) == spec_extract(a, idx, name),
{
    let off = e.data_offset as int;
    let cs = e.compressed_size as int;
    assert(f.len() >= cs);
    assert(f.subrange(0, cs) =~= a.subrange(off, off + cs));
    assert(payload_slice(a, e) == a.subrange(off, off + cs));
}

} // verus!
