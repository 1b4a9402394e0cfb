//! The archive index builder.
//!
//! A ZIP archive ends in an "end of central directory" record which locates
//! an ordered run of central-directory records, one per member.  Each record
//! names the member, gives its sizes, and points at the member's local
//! header — not at its payload.  The payload's true start also depends on the
//! variable-length name and extra-field bytes recorded in the local header,
//! so the builder reads each member's local header and resolves
//! `data_offset = header_start + 30 + name_length + extra_field_length`.
//!
//! A member whose local header cannot be read, disagrees with its directory
//! record, or whose payload would run past the end of the archive is dropped
//! from the index; a directory structure that cannot be walked at all is a
//! fatal [`Error::Parse`].

use vstd::prelude::*;

use crate::Error;
use crate::bytes::{le_val, pow256, lemma_le_val_bound, read_le16, read_le32, copy_range, bytes_eq};
use crate::entry::{Entry, EntryModel, index_model};

verus! {

/// Whether positions `p..p+4` of `a` hold the ZIP signature `PK` + `b2 b3`.
pub open spec fn has_sig(a: Seq<u8>, p: int, b2: u8, b3: u8) -> bool {
    &&& a[p] == 0x50
    &&& a[p + 1] == 0x4b
    &&& a[p + 2] == b2
    &&& a[p + 3] == b3
}

/// Whether an end-of-central-directory record can start at `p`.
pub open spec fn eocd_at(a: Seq<u8>, p: int) -> bool {
    &&& 0 <= p
    &&& p + 22 <= a.len()
    &&& has_sig(a, p, 0x05, 0x06)
}

/// The position of the last end-of-central-directory signature at or below
/// `p`, if any.
pub open spec fn spec_eocd_from(a: Seq<u8>, p: int) -> Option<int>
    decreases p + 1,
{
    if p < 0 {
        None
    } else if eocd_at(a, p) {
        Some(p)
    } else {
        spec_eocd_from(a, p - 1)
    }
}

/// The position of the archive's end-of-central-directory record: the last
/// place its signature can start.
pub open spec fn spec_find_eocd(a: Seq<u8>) -> Option<int> {
    if a.len() < 22 {
        None
    } else {
        spec_eocd_from(a, a.len() - 22)
    }
}

/// The name length recorded in the central-directory record at `p`.
pub open spec fn cd_name_len(a: Seq<u8>, p: int) -> int {
    le_val(a.subrange(p + 28, p + 30)) as int
}

/// The extra-field length recorded in the central-directory record at `p`.
pub open spec fn cd_extra_len(a: Seq<u8>, p: int) -> int {
    le_val(a.subrange(p + 30, p + 32)) as int
}

/// The comment length recorded in the central-directory record at `p`.
pub open spec fn cd_comment_len(a: Seq<u8>, p: int) -> int {
    le_val(a.subrange(p + 32, p + 34)) as int
}

/// The compressed size recorded in the central-directory record at `p`.
pub open spec fn cd_csize(a: Seq<u8>, p: int) -> nat {
    le_val(a.subrange(p + 20, p + 24))
}

/// The uncompressed size recorded in the central-directory record at `p`.
pub open spec fn cd_usize(a: Seq<u8>, p: int) -> nat {
    le_val(a.subrange(p + 24, p + 28))
}

/// The local-header offset recorded in the central-directory record at `p`.
pub open spec fn cd_header_off(a: Seq<u8>, p: int) -> int {
    le_val(a.subrange(p + 42, p + 46)) as int
}

/// The member name recorded in the central-directory record at `p`.
pub open spec fn cd_name(a: Seq<u8>, p: int) -> Seq<u8> {
    a.subrange(p + 46, p + 46 + cd_name_len(a, p))
}

/// The whole length of the central-directory record at `p`.
pub open spec fn cd_rec_len(a: Seq<u8>, p: int) -> int {
    46 + cd_name_len(a, p) + cd_extra_len(a, p) + cd_comment_len(a, p)
}

/// Whether a whole central-directory record lies at `p`.
pub open spec fn cd_ok(a: Seq<u8>, p: int) -> bool {
    &&& 0 <= p
    &&& p + 46 <= a.len()
    &&& has_sig(a, p, 0x01, 0x02)
    &&& p + cd_rec_len(a, p) <= a.len()
}

/// The name length recorded in the local header at `p`.
pub open spec fn lh_name_len(a: Seq<u8>, p: int) -> int {
    le_val(a.subrange(p + 26, p + 28)) as int
}

/// The extra-field length recorded in the local header at `p`.
pub open spec fn lh_extra_len(a: Seq<u8>, p: int) -> int {
    le_val(a.subrange(p + 28, p + 30)) as int
}

/// The compressed size recorded in the local header at `p`.
pub open spec fn lh_csize(a: Seq<u8>, p: int) -> nat {
    le_val(a.subrange(p + 18, p + 22))
}

/// The uncompressed size recorded in the local header at `p`.
pub open spec fn lh_usize(a: Seq<u8>, p: int) -> nat {
    le_val(a.subrange(p + 22, p + 26))
}

/// The member name recorded in the local header at `p`.
pub open spec fn lh_name(a: Seq<u8>, p: int) -> Seq<u8> {
    a.subrange(p + 30, p + 30 + lh_name_len(a, p))
}

/// Whether a whole local header (fixed part, name and extra field) lies at
/// `p`.
pub open spec fn local_ok(a: Seq<u8>, p: int) -> bool {
    &&& 0 <= p
    &&& p + 30 <= a.len()
    &&& has_sig(a, p, 0x03, 0x04)
    &&& p + 30 + lh_name_len(a, p) + lh_extra_len(a, p) <= a.len()
}

/// Whether a member name denotes a directory: it ends in `/`.
pub open spec fn is_dir_name(n: Seq<u8>) -> bool {
    n.len() > 0 && n[n.len() - 1] == 0x2f
}

/// Resolves one member against its local header at `ho`.
///
/// `name`, `cs` and `us` come from the member's central-directory record.
/// The member is kept only when the local header is present, agrees with the
/// directory record, and its payload lies within the archive; otherwise it is
/// dropped (`None`).
pub open spec fn spec_resolve(a: Seq<u8>, name: Seq<u8>, cs: nat, us: nat, ho: int) -> Option<
    EntryModel,
> {
    if !local_ok(a, ho) {
        None
    } else if lh_name(a, ho) != name {
        None
    } else if lh_csize(a, ho) != cs || lh_usize(a, ho) != us {
        None
    } else {
        let doff = ho + 30 + lh_name_len(a, ho) + lh_extra_len(a, ho);
        if doff + cs <= a.len() {
            Some(
                EntryModel {
                    name: name,
                    uncompressed_size: us as u64,
                    compressed_size: cs as u64,
                    is_directory: is_dir_name(name),
                    data_offset: doff as u64,
                },
            )
        } else {
            None
        }
    }
}

/// Walks `count` central-directory records starting at `pos`, resolving each
/// member.  `None` means the directory structure itself could not be walked.
pub open spec fn spec_walk(a: Seq<u8>, pos: int, count: int) -> Option<Seq<EntryModel>>
    decreases count,
{
    if count <= 0 {
        Some(Seq::empty())
    } else if !cd_ok(a, pos) {
        None
    } else {
        match spec_walk(a, pos + cd_rec_len(a, pos), count - 1) {
            None => None,
            Some(rest) => match spec_resolve(
                a,
                cd_name(a, pos),
                cd_csize(a, pos),
                cd_usize(a, pos),
                cd_header_off(a, pos),
            ) {
                None => Some(rest),
                Some(e) => Some(seq![e] + rest),
            },
        }
    }
}

/// The index built from the archive bytes `a`: the resolved members in
/// directory order, or `None` when the directory structure cannot be located
/// or walked.
pub open spec fn spec_build(a: Seq<u8>) -> Option<Seq<EntryModel>> {
    match spec_find_eocd(a) {
        None => None,
        Some(p) => {
            let count: int = le_val(a.subrange(p + 10, p + 12)) as int;
            let cd_off: int = le_val(a.subrange(p + 16, p + 20)) as int;
            spec_walk(a, cd_off, count)
        },
    }
}

/// Finds the archive's end-of-central-directory record by scanning backwards
/// from the end for its signature.
fn find_eocd(a: &[u8]) -> (r: Option<usize>)
    ensures
        match r {
            Some(p) => spec_find_eocd(a@) == Some(p as int) && p + 22 <= a@.len(),
            None => spec_find_eocd(a@) is None,
        },
{
    let n = a.len();
    if n < 22 {
        return None;
    }
    let mut p: usize = n - 22;
    loop
        invariant
            n == a@.len(),
            n >= 22,
            p <= n - 22,
            spec_eocd_from(a@, n - 22) == spec_eocd_from(a@, p as int),
        decreases p,
    {
        if a[p] == 0x50 && a[p + 1] == 0x4b && a[p + 2] == 0x05 && a[p + 3] == 0x06 {
            proof {
                assert(eocd_at(a@, p as int));
                assert(spec_eocd_from(a@, p as int) == Some(p as int));
            }
            return Some(p);
        }
        proof {
            assert(!eocd_at(a@, p as int));
            assert(spec_eocd_from(a@, p as int) == spec_eocd_from(a@, p as int - 1));
        }
        if p == 0 {
            proof {
                assert(spec_eocd_from(a@, -1) is None);
            }
            return None;
        }
        p = p - 1;
    }
}

/// Resolves one member against its local header, as [`spec_resolve`] says.
fn resolve_entry(a: &[u8], name: Vec<u8>, csize: u32, usz: u32, ho: u32) -> (r: Option<Entry>)
    ensures
        match r {
            Some(e) => spec_resolve(a@, name@, csize as nat, usz as nat, ho as int) == Some(e@),
            None => spec_resolve(a@, name@, csize as nat, usz as nat, ho as int) is None,
        },
{
    let n = a.len();
    if n < 30 || (ho as u64) > n as u64 - 30 {
        return None;
    }
    let hu: usize = ho as usize;
    if !(a[hu] == 0x50 && a[hu + 1] == 0x4b && a[hu + 2] == 0x03 && a[hu + 3] == 0x04) {
        return None;
    }
    let lnl: usize = read_le16(a, hu + 26) as usize;
    let lel: usize = read_le16(a, hu + 28) as usize;
    if lnl + lel > n - (hu + 30) {
        return None;
    }
    let lcs: u32 = read_le32(a, hu + 18);
    let lus: u32 = read_le32(a, hu + 22);
    if !bytes_eq(&a[hu + 30..hu + 30 + lnl], name.as_slice()) {
        return None;
    }
    if lcs != csize || lus != usz {
        return None;
    }
    let doff: u64 = ho as u64 + 30 + lnl as u64 + lel as u64;
    if csize as u64 > n as u64 - doff {
        return None;
    }
    let is_dir: bool = name.len() > 0 && name[name.len() - 1] == 0x2f;
    Some(
        Entry {
            name,
            uncompressed_size: usz as u64,
            compressed_size: csize as u64,
            is_directory: is_dir,
            data_offset: doff,
        },
    )
}

/// What [`spec_resolve`] says of the member whose central-directory record
/// is at `pos`.
pub open spec fn spec_resolve_at(a: Seq<u8>, pos: int) -> Option<EntryModel> {
    spec_resolve(a, cd_name(a, pos), cd_csize(a, pos), cd_usize(a, pos), cd_header_off(a, pos))
}

/// One step of the directory walk, by definition of [`spec_walk`].
proof fn lemma_walk_step(a: Seq<u8>, pos: int, count: int)
    requires
        count > 0,
        cd_ok(a, pos),
    ensures
        spec_walk(a, pos, count) == (match spec_walk(a, pos + cd_rec_len(a, pos), count - 1) {
            None => None::<Seq<EntryModel>>,
            Some(rest) => (match spec_resolve_at(a, pos) {
                None => Some(rest),
                Some(e) => Some(seq![e] + rest),
            }),
        }),
{
}

/// A walk with members still to go dies where no central-directory record
/// lies.
proof fn lemma_walk_dead(a: Seq<u8>, pos: int, count: int)
    requires
        count > 0,
        !cd_ok(a, pos),
    ensures
        spec_walk(a, pos, count) is None,
{
}

/// Parses the central-directory record at `pos` and resolves its member
/// against the member's local header.  `Ok` carries the resolved entry (or
/// `None` for a dropped member) and the position of the next record.
fn parse_record(a: &[u8], pos: u64) -> (r: Result<(Option<Entry>, u64), Error>)
    ensures
        match r {
            Ok(step) => {
                &&& cd_ok(a@, pos as int)
                &&& step.1 as int == pos as int + cd_rec_len(a@, pos as int)
                &&& (match step.0 {
                    Some(e) => spec_resolve_at(a@, pos as int) == Some(e@),
                    None => spec_resolve_at(a@, pos as int) is None,
                })
            },
            Err(e) => e == Error::Parse && !cd_ok(a@, pos as int),
        },
{
    let n = a.len();
    if (n as u64) < 46 || pos > n as u64 - 46 {
        proof {
            assert(!cd_ok(a@, pos as int));
        }
        return Err(Error::Parse);
    }
    let pu: usize = pos as usize;
    if !(a[pu] == 0x50 && a[pu + 1] == 0x4b && a[pu + 2] == 0x01 && a[pu + 3] == 0x02) {
        proof {
            assert(!has_sig(a@, pos as int, 0x01, 0x02));
            assert(!cd_ok(a@, pos as int));
        }
        return Err(Error::Parse);
    }
    let nl: usize = read_le16(a, pu + 28) as usize;
    let el: usize = read_le16(a, pu + 30) as usize;
    let cl: usize = read_le16(a, pu + 32) as usize;
    proof {
        assert(cd_name_len(a@, pos as int) == nl as int);
        assert(cd_extra_len(a@, pos as int) == el as int);
        assert(cd_comment_len(a@, pos as int) == cl as int);
    }
    if nl + el + cl > n - (pu + 46) {
        proof {
            assert(pos as int + cd_rec_len(a@, pos as int) > a@.len());
            assert(!cd_ok(a@, pos as int));
        }
        return Err(Error::Parse);
    }
    let cs: u32 = read_le32(a, pu + 20);
    let us: u32 = read_le32(a, pu + 24);
    let ho: u32 = read_le32(a, pu + 42);
    let name: Vec<u8> = copy_range(a, pu + 46, pu + 46 + nl);
    proof {
        assert(cd_ok(a@, pos as int));
        assert(cd_csize(a@, pos as int) == cs as nat);
        assert(cd_usize(a@, pos as int) == us as nat);
        assert(cd_header_off(a@, pos as int) == ho as int);
        assert(cd_name(a@, pos as int) == name@);
    }
    let resolved = resolve_entry(a, name, cs, us, ho);
    let new_pos: u64 = pos + 46 + (nl as u64) + (el as u64) + (cl as u64);
    proof {
        assert(new_pos as int == pos as int + cd_rec_len(a@, pos as int));
    }
    Ok((resolved, new_pos))
}

/// Builds the index of the archive held in `a`: one entry per member, in
/// directory order, each with its payload offset resolved against the
/// member's local header.  Members whose headers cannot be read or disagree
/// are dropped; a directory structure that cannot be located or walked is
/// [`Error::Parse`].
#[verifier::rlimit(100)]
pub fn build_index(a: &[u8]) -> (r: Result<Vec<Entry>, Error>)
    ensures
        match r {
            Ok(v) => spec_build(a@) == Some(index_model(v@)),
            Err(e) => e == Error::Parse && spec_build(a@) is None,
        },
{
    let _n = a.len();  // the archive's length fits usize, so the record offsets below do too
    let p = match find_eocd(a) {
        Some(p) => p,
        None => {
            return Err(Error::Parse);
        },
    };
    let count: usize = read_le16(a, p + 10) as usize;
    let cd_off: u64 = read_le32(a, p + 16) as u64;
    let ghost count0: int = count as int;
    let ghost pos0: int = cd_off as int;
    proof {
        assert(spec_build(a@) == spec_walk(a@, pos0, count0));
    }
    let mut pos: u64 = cd_off;
    let mut out: Vec<Entry> = Vec::new();
    let mut i: usize = 0;
    while i < count
        invariant
            i <= count,
            count0 == count as int,
            spec_build(a@) == spec_walk(a@, pos0, count0),
            spec_walk(a@, pos0, count0) == (match spec_walk(a@, pos as int, count0 - i) {
                None => None::<Seq<EntryModel>>,
                Some(rest) => Some(index_model(out@) + rest),
            }),
        decreases count - i,
    {
        let ghost remaining: int = count0 - i;
        let ghost old_out: Seq<Entry> = out@;
        match parse_record(a, pos) {
            Err(_) => {
                proof {
                    lemma_walk_dead(a@, pos as int, remaining);
                }
                return Err(Error::Parse);
            },
            Ok((oe, new_pos)) => {
                proof {
                    lemma_walk_step(a@, pos as int, remaining);
                }
                let ghost resolved_spec: Option<EntryModel> = spec_resolve_at(a@, pos as int);
                match oe {
                    Some(e) => {
                        let ghost ev: EntryModel = e@;
                        out.push(e);
                        proof {
                            assert(index_model(out@) =~= index_model(old_out).push(ev));
                        }
                    },
                    None => {},
                }
                proof {
                    let w_next = spec_walk(a@, new_pos as int, remaining - 1);
                    if w_next is Some {
                        let rest = w_next->0;
                        match resolved_spec {
                            None => {
                                assert(index_model(out@) + rest =~= index_model(old_out) + rest);
                            },
                            Some(ev2) => {
                                assert(index_model(out@) + rest =~= index_model(old_out) + (
                                seq![ev2] + rest));
                            },
                        }
                    }
                }
                pos = new_pos;
                i = i + 1;
            },
        }
    }
    proof {
        assert(spec_walk(a@, pos as int, count0 - i) == Some(Seq::<EntryModel>::empty()));
        assert(index_model(out@) + Seq::<EntryModel>::empty() =~= index_model(out@));
        assert(spec_build(a@) == Some(index_model(out@)));
    }
    Ok(out)
}

/// Whether the local header at `p` reconstructs the entry: the header that
/// lies `30 + name_length + extra_length` bytes before the entry's
/// `data_offset` holds the same name and sizes, and the entry's payload lies
/// within the archive.
pub open spec fn local_header_matches(a: Seq<u8>, p: int, e: EntryModel) -> bool {
    &&& local_ok(a, p)
    &&& lh_name(a, p) == e.name
    &&& lh_csize(a, p) == e.compressed_size as nat
    &&& lh_usize(a, p) == e.uncompressed_size as nat
    &&& e.data_offset as int == p + 30 + lh_name_len(a, p) + lh_extra_len(a, p)
    &&& e.data_offset + e.compressed_size <= a.len()
}

/// Every entry that the directory walk keeps was resolved against a local
/// header that reconstructs it.
proof fn lemma_walk_offsets(a: Seq<u8>, pos: int, count: int, s: Seq<EntryModel>, i: int)
    requires
        a.len() <= u64::MAX,
        spec_walk(a, pos, count) == Some(s),
        0 <= i < s.len(),
    ensures
        exists|p: int| #[trigger] local_header_matches(a, p, s[i]),
    decreases count,
{
    assert(count > 0);
    assert(cd_ok(a, pos));
    let next = pos + cd_rec_len(a, pos);
    let w_next = spec_walk(a, next, count - 1);
    assert(w_next is Some);
    let rest = w_next->0;
    match spec_resolve_at(a, pos) {
        None => {
            assert(s == rest);
            lemma_walk_offsets(a, next, count - 1, rest, i);
        },
        Some(e) => {
            assert(s == seq![e] + rest);
            if i == 0 {
                assert(s[0] == e);
                let ho = cd_header_off(a, pos);
                let cs = cd_csize(a, pos);
                let us = cd_usize(a, pos);
                lemma_le_val_bound(a.subrange(pos + 20, pos + 24));
                lemma_le_val_bound(a.subrange(pos + 24, pos + 28));
                assert(pow256(0) == 1);
                assert(pow256(1) == 0x100);
                assert(pow256(2) == 0x1_0000);
                assert(pow256(3) == 0x100_0000);
                assert(pow256(4) == 0x1_0000_0000);
                assert(cs < 0x1_0000_0000);
                assert(us < 0x1_0000_0000);
                assert(local_ok(a, ho));
                assert(e.compressed_size as nat == cs);
                assert(e.uncompressed_size as nat == us);
                assert(local_header_matches(a, ho, e));
            } else {
                assert(s[i] == rest[i - 1]);
                lemma_walk_offsets(a, next, count - 1, rest, i - 1);
            }
        },
    }
}

/// Offset correctness: for every entry of a built index, independently
/// parsing the local header that lies `30 + name_length + extra_length`
/// bytes before the entry's `data_offset` reconstructs the same name and
/// sizes, and `data_offset + compressed_size` does not exceed the archive's
/// length.
pub proof fn lemma_offset_correctness(a: Seq<u8>, s: Seq<EntryModel>, i: int)
    requires
        a.len() <= u64::MAX,
        spec_build(a) == Some(s),
        0 <= i < s.len(),
    ensures
        exists|p: int| #[trigger] local_header_matches(a, p, s[i]),
{
    let p = spec_find_eocd(a)->0;
    let count = le_val(a.subrange(p + 10, p + 12)) as int;
    let cd_off = le_val(a.subrange(p + 16, p + 20)) as int;
    assert(spec_walk(a, cd_off, count) == Some(s));
    lemma_walk_offsets(a, cd_off, count, s, i);
}

/// Building is a pure function of the archive bytes: rebuilding the index
/// from an unmodified archive yields the identical entry sequence.
pub proof fn lemma_build_idempotent(a1: Seq<u8>, a2: Seq<u8>)
    requires
        a1 == a2,
    ensures
        spec_build(a1) == spec_build(a2),
{
}

} // verus!
