//! Little-endian integer fields inside byte strings.
//!
//! Both the ZIP directory structures and the persisted index blob store their
//! integer fields as little-endian byte sequences; this module gives those
//! fields a single mathematical reading (`le_val`) and writing (`le_bytes`)
//! and the executable readers and writers proved against them.

use vstd::prelude::*;

verus! {

/// The value of a little-endian byte string: the first byte is the least
/// significant.
pub open spec fn le_val(s: Seq<u8>) -> nat
    decreases s.len(),
{
    if s.len() == 0 {
        0
    } else {
        (s[0] + 256 * le_val(s.drop_first())) as nat
    }
}

/// The `n`-byte little-endian encoding of `v` (low byte first).
pub open spec fn le_bytes(v: nat, n: nat) -> Seq<u8>
    decreases n,
{
    if n == 0 {
        Seq::empty()
    } else {
        seq![(v % 256) as u8] + le_bytes(v / 256, (n - 1) as nat)
    }
}

/// 256 to the power `n`: the number of values an `n`-byte field can hold.
pub open spec fn pow256(n: nat) -> nat
    decreases n,
{
    if n == 0 {
        1
    } else {
        256 * pow256((n - 1) as nat)
    }
}

/// A little-endian byte string of length `n` always holds a value below
/// `pow256(n)`.
pub proof fn lemma_le_val_bound(s: Seq<u8>)
    ensures
        le_val(s) < pow256(s.len()),
    decreases s.len(),
{
    if s.len() == 0 {
    } else {
        lemma_le_val_bound(s.drop_first());
    }
}

/// Reading a concatenation: the right part is shifted by the length of the
/// left part.
pub proof fn lemma_le_val_concat(x: Seq<u8>, y: Seq<u8>)
    ensures
        le_val(x + y) == le_val(x) + pow256(x.len()) * le_val(y),
    decreases x.len(),
{
    if x.len() == 0 {
        assert(x + y =~= y);
    } else {
        lemma_le_val_concat(x.drop_first(), y);
        assert((x + y).drop_first() =~= x.drop_first() + y);
        let p = pow256((x.len() - 1) as nat);
        let b = le_val(y);
        assert(le_val(x) == x[0] + 256 * le_val(x.drop_first()));
        assert(pow256(x.len()) == 256 * p);
        assert(le_val(x + y) == (x + y)[0] + 256 * le_val((x + y).drop_first()));
        assert((x + y)[0] == x[0]);
        assert(256 * (le_val(x.drop_first()) + p * b) == 256 * le_val(x.drop_first()) + (256
            * p) * b) by (nonlinear_arith);
    }
}

/// `le_bytes` writes exactly `n` bytes.
pub proof fn lemma_le_bytes_len(v: nat, n: nat)
    ensures
        le_bytes(v, n).len() == n,
    decreases n,
{
    if n > 0 {
        lemma_le_bytes_len(v / 256, (n - 1) as nat);
    }
}

/// Writing then reading a value below `pow256(n)` gives the value back.
pub proof fn lemma_le_roundtrip(v: nat, n: nat)
    requires
        v < pow256(n),
    ensures
        le_val(le_bytes(v, n)) == v,
    decreases n,
{
    if n == 0 {
    } else {
        assert(v / 256 < pow256((n - 1) as nat)) by {
            if v / 256 >= pow256((n - 1) as nat) {
                assert(256 * (v / 256) >= 256 * pow256((n - 1) as nat)) by (nonlinear_arith)
                    requires
                        v / 256 >= pow256((n - 1) as nat),
                ;
                assert(256 * (v / 256) <= v) by (nonlinear_arith);
            }
        };
        lemma_le_roundtrip(v / 256, (n - 1) as nat);
        let s = le_bytes(v, n);
        assert(s.drop_first() =~= le_bytes(v / 256, (n - 1) as nat));
        assert(v % 256 + 256 * (v / 256) == v) by (nonlinear_arith);
    }
}

/// Reads the two-byte little-endian field at `pos`.
pub fn read_le16(a: &[u8], pos: usize) -> (r: u16)
    requires
        pos + 2 <= a@.len(),
    ensures
        r as nat == le_val(a@.subrange(pos as int, pos + 2)),
{
    let n = a.len();
    proof {
        assert(n == a@.len());
    }
    let b0 = a[pos];
    let b1 = a[pos + 1];
    proof {
        let s = a@.subrange(pos as int, pos + 2);
        let t = s.drop_first();
        assert(t.len() == 1);
        assert(t.drop_first().len() == 0);
        assert(le_val(t.drop_first()) == 0);
        assert(le_val(t) == t[0] + 256 * le_val(t.drop_first()));
        assert(t[0] == b1);
        assert(le_val(s) == s[0] + 256 * le_val(t));
        assert(s[0] == b0);
    }
    (b0 as u16) + 256 * (b1 as u16)
}

/// Reads the four-byte little-endian field at `pos`.
pub fn read_le32(a: &[u8], pos: usize) -> (r: u32)
    requires
        pos + 4 <= a@.len(),
    ensures
        r as nat == le_val(a@.subrange(pos as int, pos + 4)),
{
    let n = a.len();
    proof {
        assert(n == a@.len());
    }
    let lo = read_le16(a, pos);
    let hi = read_le16(a, pos + 2);
    proof {
        let x = a@.subrange(pos as int, pos + 2);
        let y = a@.subrange(pos + 2, pos + 4);
        assert(x + y =~= a@.subrange(pos as int, pos + 4));
        lemma_le_val_concat(x, y);
        assert(pow256(0) == 1);
        assert(pow256(1) == 256);
        assert(pow256(2) == 0x10000);
    }
    (lo as u32) + 0x10000 * (hi as u32)
}

/// Reads the eight-byte little-endian field at `pos`.
pub fn read_le64(a: &[u8], pos: usize) -> (r: u64)
    requires
        pos + 8 <= a@.len(),
    ensures
        r as nat == le_val(a@.subrange(pos as int, pos + 8)),
{
    let n = a.len();
    proof {
        assert(n == a@.len());
    }
    let lo = read_le32(a, pos);
    let hi = read_le32(a, pos + 4);
    proof {
        let x = a@.subrange(pos as int, pos + 4);
        let y = a@.subrange(pos + 4, pos + 8);
        assert(x + y =~= a@.subrange(pos as int, pos + 8));
        lemma_le_val_concat(x, y);
        lemma_le_val_bound(x);
        lemma_le_val_bound(y);
        assert(pow256(0) == 1);
        assert(pow256(1) == 256);
        assert(pow256(2) == 0x10000);
        assert(pow256(3) == 0x100_0000);
        assert(pow256(4) == 0x1_0000_0000);
        assert(0x1_0000_0000 * (hi as int) + (lo as int) <= u64::MAX) by (nonlinear_arith)
            requires
                hi <= u32::MAX,
                lo <= u32::MAX,
        ;
    }
    (lo as u64) + 0x1_0000_0000 * (hi as u64)
}

/// Appends the eight-byte little-endian encoding of `v` to `out`.
pub fn push_le64(out: &mut Vec<u8>, v: u64)
    ensures
        final(out)@ == old(out)@ + le_bytes(v as nat, 8),
{
    let b0: u8 = (v % 256) as u8;
    let v1: u64 = v / 256;
    let b1: u8 = (v1 % 256) as u8;
    let v2: u64 = v1 / 256;
    let b2: u8 = (v2 % 256) as u8;
    let v3: u64 = v2 / 256;
    let b3: u8 = (v3 % 256) as u8;
    let v4: u64 = v3 / 256;
    let b4: u8 = (v4 % 256) as u8;
    let v5: u64 = v4 / 256;
    let b5: u8 = (v5 % 256) as u8;
    let v6: u64 = v5 / 256;
    let b6: u8 = (v6 % 256) as u8;
    let v7: u64 = v6 / 256;
    let b7: u8 = (v7 % 256) as u8;
    out.push(b0);
    out.push(b1);
    out.push(b2);
    out.push(b3);
    out.push(b4);
    out.push(b5);
    out.push(b6);
    out.push(b7);
    proof {
        assert(v7 < 256);
        assert(le_bytes((v7 / 256) as nat, 0) =~= Seq::<u8>::empty());
        assert(le_bytes(v7 as nat, 1) =~= seq![b7]);
        assert(le_bytes(v6 as nat, 2) =~= seq![b6, b7]);
        assert(le_bytes(v5 as nat, 3) =~= seq![b5, b6, b7]);
        assert(le_bytes(v4 as nat, 4) =~= seq![b4, b5, b6, b7]);
        assert(le_bytes(v3 as nat, 5) =~= seq![b3, b4, b5, b6, b7]);
        assert(le_bytes(v2 as nat, 6) =~= seq![b2, b3, b4, b5, b6, b7]);
        assert(le_bytes(v1 as nat, 7) =~= seq![b1, b2, b3, b4, b5, b6, b7]);
        assert(le_bytes(v as nat, 8) =~= seq![b0, b1, b2, b3, b4, b5, b6, b7]);
        assert(out@ =~= old(out)@ + le_bytes(v as nat, 8));
    }
}

/// Whether two byte slices hold the same bytes.
pub fn bytes_eq(a: &[u8], b: &[u8]) -> (r: bool)
    ensures
        r <==> a@ == b@,
{
    if a.len() != b.len() {
        proof {
            assert(a@.len() != b@.len());
        }
        return false;
    }
    let n = a.len();
    let mut i: usize = 0;
    while i < n
        invariant
            n == a@.len(),
            n == b@.len(),
            i <= n,
            forall|j: int| 0 <= j < i ==> a@[j] == b@[j],
        decreases n - i,
    {
        if a[i] != b[i] {
            return false;
        }
        i += 1;
    }
    proof {
        assert(a@ =~= b@);
    }
    true
}

/// Copies `a[start..end]` into a fresh vector.
pub fn copy_range(a: &[u8], start: usize, end: usize) -> (r: Vec<u8>)
    requires
        start <= end,
        end <= a@.len(),
    ensures
        r@ == a@.subrange(start as int, end as int),
{
    vstd::slice::slice_to_vec(&a[start..end])
}

} // verus!
