//! The index store: the persisted form of an index.
//!
//! An index is persisted as one self-describing binary blob: a four-byte
//! magic, the entry count, then each entry in order as
//! `name_len(8) name uncompressed(8) compressed(8) is_directory(1) offset(8)`,
//! all integers little-endian.  [`save_index`] writes the blob,
//! [`load_index`] reads it back, and [`lemma_store_roundtrip`] proves that a
//! load of a save reproduces the entry sequence exactly.

use vstd::prelude::*;

use crate::Error;
use crate::bytes::{
    le_val, le_bytes, pow256, lemma_le_bytes_len, lemma_le_roundtrip, read_le64, push_le64,
    copy_range,
};
use crate::entry::{Entry, EntryModel, index_model};

verus! {

/// The blob's leading magic bytes.
pub open spec fn magic_seq() -> Seq<u8> {
    seq![0x5a, 0x49, 0x44, 0x58]
}

/// `pow256(8)`, the first value an eight-byte field cannot hold.
pub proof fn lemma_pow256_8()
    ensures
        pow256(8) == 0x1_0000_0000_0000_0000,
{
    assert(pow256(0) == 1);
    assert(pow256(1) == 0x100);
    assert(pow256(2) == 0x1_0000);
    assert(pow256(3) == 0x100_0000);
    assert(pow256(4) == 0x1_0000_0000);
    assert(pow256(5) == 0x100_0000_0000);
    assert(pow256(6) == 0x1_0000_0000_0000);
    assert(pow256(7) == 0x100_0000_0000_0000);
    assert(pow256(8) == 0x1_0000_0000_0000_0000);
}

/// The persisted form of one entry.
pub open spec fn spec_encode_entry(e: EntryModel) -> Seq<u8> {
    le_bytes(e.name.len(), 8) + e.name + le_bytes(e.uncompressed_size as nat, 8) + le_bytes(
        e.compressed_size as nat,
        8,
    ) + seq![if e.is_directory { 1u8 } else { 0u8 }] + le_bytes(e.data_offset as nat, 8)
}

/// The persisted form of a run of entries, in order.
pub open spec fn spec_encode_entries(s: Seq<EntryModel>) -> Seq<u8>
    decreases s.len(),
{
    if s.len() == 0 {
        Seq::empty()
    } else {
        spec_encode_entry(s[0]) + spec_encode_entries(s.drop_first())
    }
}

/// The persisted form of a whole index.
pub open spec fn spec_encode(s: Seq<EntryModel>) -> Seq<u8> {
    magic_seq() + le_bytes(s.len(), 8) + spec_encode_entries(s)
}

/// Reads one entry of the blob `b` at `pos`: the entry and the position just
/// past it, or `None` where the bytes are malformed.
pub open spec fn spec_decode_entry(b: Seq<u8>, pos: int) -> Option<(EntryModel, int)> {
    if pos + 8 > b.len() {
        None
    } else {
        let nl = le_val(b.subrange(pos, pos + 8)) as int;
        if pos + 33 + nl > b.len() {
            None
        } else {
            let dirb = b[pos + 24 + nl];
            if dirb != 0 && dirb != 1 {
                None
            } else {
                Some(
                    (
                        EntryModel {
                            name: b.subrange(pos + 8, pos + 8 + nl),
                            uncompressed_size: le_val(b.subrange(pos + 8 + nl, pos + 16 + nl)) as u64,
                            compressed_size: le_val(b.subrange(pos + 16 + nl, pos + 24 + nl)) as u64,
                            is_directory: dirb == 1,
                            data_offset: le_val(b.subrange(pos + 25 + nl, pos + 33 + nl)) as u64,
                        },
                        pos + 33 + nl,
                    ),
                )
            }
        }
    }
}

/// Reads `n` entries of the blob `b` starting at `pos`.
pub open spec fn spec_decode_entries(b: Seq<u8>, pos: int, n: int) -> Option<
    (Seq<EntryModel>, int),
>
    decreases n,
{
    if n <= 0 {
        Some((Seq::empty(), pos))
    } else {
        match spec_decode_entry(b, pos) {
            None => None,
            Some((e, p2)) => match spec_decode_entries(b, p2, n - 1) {
                None => None,
                Some((s, end)) => Some((seq![e] + s, end)),
            },
        }
    }
}

/// The index held in the blob `b`, or `None` where the blob is malformed.
/// The whole blob must be consumed: trailing bytes are malformed.
pub open spec fn spec_decode(b: Seq<u8>) -> Option<Seq<EntryModel>> {
    if b.len() < 12 {
        None
    } else if b.subrange(0, 4) != magic_seq() {
        None
    } else {
        let n = le_val(b.subrange(4, 12)) as int;
        match spec_decode_entries(b, 12, n) {
            None => None,
            Some((s, end)) => if end == b.len() {
                Some(s)
            } else {
                None
            },
        }
    }
}

/// Whether an entry's name is short enough for its length to fit the blob's
/// eight-byte length field.  Every entry that exists in memory satisfies it.
pub open spec fn entry_name_fits(e: EntryModel) -> bool {
    e.name.len() < pow256(8)
}

/// Appends the bytes of `s` to `out`.
fn push_bytes(out: &mut Vec<u8>, s: &[u8])
    ensures
        final(out)@ == old(out)@ + s@,
{
    let n = s.len();
    let mut i: usize = 0;
    while i < n
        invariant
            n == s@.len(),
            i <= n,
            out@ == old(out)@ + s@.take(i as int),
        decreases n - i,
    {
        out.push(s[i]);
        proof {
            assert(old(out)@ + s@.take(i + 1) =~= (old(out)@ + s@.take(i as int)).push(s@[i as int]));
        }
        i = i + 1;
    }
    proof {
        assert(s@.take(n as int) =~= s@);
    }
}

/// Appending one entry extends the persisted run by that entry's bytes.
proof fn lemma_encode_entries_snoc(s: Seq<EntryModel>, i: int)
    requires
        0 <= i < s.len(),
    ensures
        spec_encode_entries(s.take(i + 1)) == spec_encode_entries(s.take(i)) + spec_encode_entry(
            s[i],
        ),
    decreases i,
{
    let t = s.take(i + 1);
    if i == 0 {
        assert(t.drop_first() =~= s.take(0));
        assert(spec_encode_entries(s.take(0)) == Seq::<u8>::empty());
        assert(spec_encode_entries(t) == spec_encode_entry(s[0]) + spec_encode_entries(s.take(0)));
        assert(spec_encode_entries(s.take(0)) + spec_encode_entry(s[0]) =~= spec_encode_entry(s[0])
            + spec_encode_entries(s.take(0)));
    } else {
        lemma_encode_entries_snoc(s.drop_first(), i - 1);
        assert(t.drop_first() =~= s.drop_first().take(i));
        assert(s.take(i).drop_first() =~= s.drop_first().take(i - 1));
        assert(s.drop_first()[i - 1] == s[i]);
        assert(spec_encode_entries(t) == spec_encode_entry(s[0]) + spec_encode_entries(
            s.drop_first().take(i),
        ));
        assert(spec_encode_entries(s.take(i)) == spec_encode_entry(s[0]) + spec_encode_entries(
            s.drop_first().take(i - 1),
        ));
        assert(spec_encode_entry(s[0]) + (spec_encode_entries(s.drop_first().take(i - 1))
            + spec_encode_entry(s[i])) =~= (spec_encode_entry(s[0]) + spec_encode_entries(
            s.drop_first().take(i - 1),
        )) + spec_encode_entry(s[i]));
    }
}

/// Serializes the index as one self-describing binary blob.
pub fn save_index(v: &Vec<Entry>) -> (r: Vec<u8>)
    ensures
        r@ == spec_encode(index_model(v@)),
{
    let ghost m = index_model(v@);
    let mut out: Vec<u8> = Vec::new();
    out.push(0x5a);
    out.push(0x49);
    out.push(0x44);
    out.push(0x58);
    push_le64(&mut out, v.len() as u64);
    proof {
        assert(out@ =~= magic_seq() + le_bytes(m.len(), 8));
    }
    let n = v.len();
    let mut i: usize = 0;
    while i < n
        invariant
            n == v@.len(),
            m == index_model(v@),
            i <= n,
            out@ == magic_seq() + le_bytes(m.len(), 8) + spec_encode_entries(m.take(i as int)),
        decreases n - i,
    {
        let ghost out_before = out@;
        let e = &v[i];
        proof {
            assert(m[i as int] == e@);
        }
        push_le64(&mut out, e.name.len() as u64);
        push_bytes(&mut out, e.name.as_slice());
        push_le64(&mut out, e.uncompressed_size);
        push_le64(&mut out, e.compressed_size);
        let dirb: u8 = if e.is_directory {
            1
        } else {
            0
        };
        out.push(dirb);
        push_le64(&mut out, e.data_offset);
        proof {
            assert(seq![dirb] =~= out_before.push(dirb).subrange(
                out_before.len() as int,
                out_before.len() as int + 1,
            ));
            assert(out@ =~= out_before + spec_encode_entry(e@));
            lemma_encode_entries_snoc(m, i as int);
            assert(out@ =~= magic_seq() + le_bytes(m.len(), 8) + spec_encode_entries(
                m.take(i + 1),
            ));
        }
        i = i + 1;
    }
    proof {
        assert(m.take(n as int) =~= m);
    }
    out
}

/// Reads one entry of the blob at `pos`, as [`spec_decode_entry`] says.
fn decode_entry(b: &[u8], pos: usize) -> (r: Option<(Entry, usize)>)
    requires
        pos <= b@.len(),
    ensures
        match r {
            Some(step) => {
                &&& spec_decode_entry(b@, pos as int) == Some((step.0@, step.1 as int))
                &&& pos < step.1 <= b@.len()
            },
            None => spec_decode_entry(b@, pos as int) is None,
        },
{
    let n = b.len();
    if n - pos < 8 {
        return None;
    }
    let nl64: u64 = read_le64(b, pos);
    let rem: usize = n - pos - 8;
    if rem < 25 {
        return None;
    }
    if nl64 > (rem - 25) as u64 {
        return None;
    }
    let nl: usize = nl64 as usize;
    let name: Vec<u8> = copy_range(b, pos + 8, pos + 8 + nl);
    let us: u64 = read_le64(b, pos + 8 + nl);
    let cs: u64 = read_le64(b, pos + 16 + nl);
    let dirb: u8 = b[pos + 24 + nl];
    if dirb != 0 && dirb != 1 {
        return None;
    }
    let doff: u64 = read_le64(b, pos + 25 + nl);
    let e = Entry {
        name,
        uncompressed_size: us,
        compressed_size: cs,
        is_directory: dirb == 1,
        data_offset: doff,
    };
    Some((e, pos + 33 + nl))
}

/// Deserializes a blob back into an index.  A malformed blob — wrong magic,
/// truncated fields, an impossible flag byte, or trailing bytes — is
/// [`Error::Decode`].
pub fn load_index(b: &[u8]) -> (r: Result<Vec<Entry>, Error>)
    ensures
        match r {
            Ok(v) => spec_decode(b@) == Some(index_model(v@)),
            Err(e) => e == Error::Decode && spec_decode(b@) is None,
        },
{
    let n = b.len();
    if n < 12 {
        return Err(Error::Decode);
    }
    let magic_ok = b[0] == 0x5a && b[1] == 0x49 && b[2] == 0x44 && b[3] == 0x58;
    proof {
        let sub = b@.subrange(0, 4);
        assert(sub[0] == b@[0] && sub[1] == b@[1] && sub[2] == b@[2] && sub[3] == b@[3]);
        if magic_ok {
            assert(sub =~= magic_seq());
        } else {
            if sub == magic_seq() {
                assert(sub[0] == 0x5a && sub[1] == 0x49 && sub[2] == 0x44 && sub[3] == 0x58);
                assert(false);
            }
        }
    }
    if !magic_ok {
        return Err(Error::Decode);
    }
    let count: u64 = read_le64(b, 4);
    let ghost count0: int = count as int;
    proof {
        assert(le_val(b@.subrange(4, 12)) as int == count0);
    }
    let mut out: Vec<Entry> = Vec::new();
    let mut pos: usize = 12;
    let mut i: u64 = 0;
    while i < count
        invariant
            n == b@.len(),
            n >= 12,
            pos <= n,
            i <= count,
            count0 == count as int,
            b@.subrange(0, 4) == magic_seq(),
            le_val(b@.subrange(4, 12)) as int == count0,
            spec_decode_entries(b@, 12, count0) == (match spec_decode_entries(
                b@,
                pos as int,
                count0 - i,
            ) {
                None => None::<(Seq<EntryModel>, int)>,
                Some(step) => Some((index_model(out@) + step.0, step.1)),
            }),
        decreases count - i,
    {
        let ghost old_out = out@;
        match decode_entry(b, pos) {
            None => {
                proof {
                    assert(spec_decode_entries(b@, pos as int, count0 - i) is None);
                    assert(spec_decode_entries(b@, 12, count0) is None);
                    assert(spec_decode(b@) is None);
                }
                return Err(Error::Decode);
            },
            Some((e, new_pos)) => {
                let ghost ev: EntryModel = e@;
                out.push(e);
                proof {
                    let step_rest = spec_decode_entries(b@, new_pos as int, count0 - i - 1);
                    assert(spec_decode_entries(b@, pos as int, count0 - i) == (match step_rest {
                        None => None::<(Seq<EntryModel>, int)>,
                        Some(step) => Some((seq![ev] + step.0, step.1)),
                    }));
                    assert(index_model(out@) =~= index_model(old_out).push(ev));
                    if step_rest is Some {
                        let rest = step_rest->0;
                        assert(index_model(out@) + rest.0 =~= index_model(old_out) + (seq![ev]
                            + rest.0));
                    }
                }
                pos = new_pos;
                i = i + 1;
            },
        }
    }
    proof {
        assert(spec_decode_entries(b@, pos as int, 0) == Some((Seq::<EntryModel>::empty(), pos as int)));
        assert(index_model(out@) + Seq::<EntryModel>::empty() =~= index_model(out@));
    }
    if pos != n {
        return Err(Error::Decode);
    }
    Ok(out)
}

/// An entry's persisted form is its name plus 33 bytes of fixed fields.
proof fn lemma_encode_entry_len(e: EntryModel)
    ensures
        spec_encode_entry(e).len() == 33 + e.name.len(),
{
    lemma_le_bytes_len(e.name.len(), 8);
    lemma_le_bytes_len(e.uncompressed_size as nat, 8);
    lemma_le_bytes_len(e.compressed_size as nat, 8);
    lemma_le_bytes_len(e.data_offset as nat, 8);
}

/// A subrange taken within a longer subrange can be taken from the whole
/// sequence directly.
proof fn lemma_subrange_shift(b: Seq<u8>, pos: int, len: int, x: int, y: int)
    requires
        0 <= pos,
        0 <= x <= y <= len,
        pos + len <= b.len(),
    ensures
        b.subrange(pos + x, pos + y) == b.subrange(pos, pos + len).subrange(x, y),
{
    assert(b.subrange(pos + x, pos + y) =~= b.subrange(pos, pos + len).subrange(x, y));
}

/// Decoding at the position of an encoded entry yields that entry back.
#[verifier::rlimit(100)]
proof fn lemma_decode_encoded_entry(b: Seq<u8>, pos: int, e: EntryModel)
    requires
        0 <= pos,
        entry_name_fits(e),
        pos + spec_encode_entry(e).len() <= b.len(),
        b.subrange(pos, pos + spec_encode_entry(e).len()) == spec_encode_entry(e),
    ensures
        spec_decode_entry(b, pos) == Some((e, pos + spec_encode_entry(e).len())),
{
    let enc = spec_encode_entry(e);
    let el = enc.len() as int;
    let nl = e.name.len() as int;
    lemma_encode_entry_len(e);
    lemma_le_bytes_len(e.name.len(), 8);
    lemma_le_bytes_len(e.uncompressed_size as nat, 8);
    lemma_le_bytes_len(e.compressed_size as nat, 8);
    lemma_le_bytes_len(e.data_offset as nat, 8);
    lemma_pow256_8();
    lemma_subrange_shift(b, pos, el, 0, 8);
    assert(enc.subrange(0, 8) =~= le_bytes(e.name.len(), 8));
    lemma_le_roundtrip(e.name.len(), 8);
    assert(le_val(b.subrange(pos, pos + 8)) as int == nl);
    lemma_subrange_shift(b, pos, el, 8, 8 + nl);
    assert(enc.subrange(8, 8 + nl) =~= e.name);
    assert(b.subrange(pos + 8, pos + 8 + nl) == e.name);
    lemma_subrange_shift(b, pos, el, 8 + nl, 16 + nl);
    assert(enc.subrange(8 + nl, 16 + nl) =~= le_bytes(e.uncompressed_size as nat, 8));
    lemma_le_roundtrip(e.uncompressed_size as nat, 8);
    lemma_subrange_shift(b, pos, el, 16 + nl, 24 + nl);
    assert(enc.subrange(16 + nl, 24 + nl) =~= le_bytes(e.compressed_size as nat, 8));
    lemma_le_roundtrip(e.compressed_size as nat, 8);
    assert(b.subrange(pos, pos + el)[24 + nl] == b[pos + 24 + nl]);
    assert(enc[24 + nl] == (if e.is_directory {
        1u8
    } else {
        0u8
    }));
    lemma_subrange_shift(b, pos, el, 25 + nl, 33 + nl);
    assert(enc.subrange(25 + nl, 33 + nl) =~= le_bytes(e.data_offset as nat, 8));
    lemma_le_roundtrip(e.data_offset as nat, 8);
}

/// Decoding at the position of an encoded run of entries yields the run
/// back, consuming exactly its bytes.
proof fn lemma_decode_encoded_entries(b: Seq<u8>, pos: int, s: Seq<EntryModel>)
    requires
        0 <= pos,
        forall|i: int| 0 <= i < s.len() ==> entry_name_fits(#[trigger] s[i]),
        pos + spec_encode_entries(s).len() <= b.len(),
        b.subrange(pos, pos + spec_encode_entries(s).len()) == spec_encode_entries(s),
    ensures
        spec_decode_entries(b, pos, s.len() as int) == Some(
            (s, pos + spec_encode_entries(s).len()),
        ),
    decreases s.len(),
{
    if s.len() == 0 {
    } else {
        let e0 = s[0];
        let enc0 = spec_encode_entry(e0);
        let rest = s.drop_first();
        let encr = spec_encode_entries(rest);
        lemma_encode_entry_len(e0);
        let l0 = enc0.len() as int;
        let lr = encr.len() as int;
        assert(spec_encode_entries(s) == enc0 + encr);
        lemma_subrange_shift(b, pos, l0 + lr, 0, l0);
        assert((enc0 + encr).subrange(0, l0) =~= enc0);
        assert(b.subrange(pos, pos + l0) == enc0);
        lemma_decode_encoded_entry(b, pos, e0);
        lemma_subrange_shift(b, pos, l0 + lr, l0, l0 + lr);
        assert((enc0 + encr).subrange(l0, l0 + lr) =~= encr);
        assert(b.subrange(pos + l0, pos + l0 + lr) == encr);
        assert(forall|i: int| 0 <= i < rest.len() ==> entry_name_fits(#[trigger] rest[i]));
        lemma_decode_encoded_entries(b, pos + enc0.len(), rest);
        assert(seq![e0] + rest =~= s);
    }
}

/// Loading a saved index reproduces the original entry sequence exactly:
/// the same entries, in the same order, with the same field values.
pub proof fn lemma_store_roundtrip(s: Seq<EntryModel>)
    requires
        s.len() < pow256(8),
        forall|i: int| 0 <= i < s.len() ==> entry_name_fits(#[trigger] s[i]),
    ensures
        spec_decode(spec_encode(s)) == Some(s),
{
    let b = spec_encode(s);
    lemma_pow256_8();
    lemma_le_bytes_len(s.len(), 8);
    assert(b.len() == 12 + spec_encode_entries(s).len());
    assert(b.subrange(0, 4) =~= magic_seq());
    assert(b.subrange(4, 12) =~= le_bytes(s.len(), 8));
    lemma_le_roundtrip(s.len(), 8);
    assert(b.subrange(12, 12 + spec_encode_entries(s).len() as int) =~= spec_encode_entries(s));
    lemma_decode_encoded_entries(b, 12, s);
}

} // verus!
