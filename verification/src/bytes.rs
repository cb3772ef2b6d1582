//! Little-endian readers and writers over byte buffers.
//!
//! Every record in an ELF64 file is a run of fixed-width little-endian
//! integers; these helpers read and append them with exact contracts over
//! the byte-sequence view of the buffer.

use vstd::bytes::{
    spec_u16_from_le_bytes, spec_u16_to_le_bytes, spec_u32_from_le_bytes, spec_u32_to_le_bytes,
    spec_u64_from_le_bytes, spec_u64_to_le_bytes, u16_from_le_bytes, u16_to_le_bytes,
    u32_from_le_bytes, u32_to_le_bytes, u64_from_le_bytes, u64_to_le_bytes,
};
use vstd::prelude::*;
use vstd::slice::slice_subrange;

verus! {

/// Read the byte at `pos`.
pub fn read_u8_at(data: &[u8], pos: usize) -> (r: u8)
    requires
        pos < data@.len(),
    ensures
        r == data@[pos as int],
{
    data[pos]
}

/// Read a little-endian `u16` starting at `pos`.
pub fn read_u16_at(data: &[u8], pos: usize) -> (r: u16)
    requires
        pos + 2 <= data@.len(),
    ensures
        r == spec_u16_from_le_bytes(data@.subrange(pos as int, pos + 2)),
{
    let n = data.len();
    let s = slice_subrange(data, pos, pos + 2);
    u16_from_le_bytes(s)
}

/// Read a little-endian `u32` starting at `pos`.
pub fn read_u32_at(data: &[u8], pos: usize) -> (r: u32)
    requires
        pos + 4 <= data@.len(),
    ensures
        r == spec_u32_from_le_bytes(data@.subrange(pos as int, pos + 4)),
{
    let n = data.len();
    let s = slice_subrange(data, pos, pos + 4);
    u32_from_le_bytes(s)
}

/// Read a little-endian `u64` starting at `pos`.
pub fn read_u64_at(data: &[u8], pos: usize) -> (r: u64)
    requires
        pos + 8 <= data@.len(),
    ensures
        r == spec_u64_from_le_bytes(data@.subrange(pos as int, pos + 8)),
{
    let n = data.len();
    let s = slice_subrange(data, pos, pos + 8);
    u64_from_le_bytes(s)
}

/// Append a little-endian `u16` to `out`.
pub fn push_u16_le(out: &mut Vec<u8>, x: u16)
    ensures
        final(out)@ == old(out)@ + spec_u16_to_le_bytes(x),
{
    let b = u16_to_le_bytes(x);
    let ghost pre = out@;
    let mut i: usize = 0;
    while i < b.len()
        invariant
            b@ == spec_u16_to_le_bytes(x),
            b@.len() == 2,
            i <= b@.len(),
            out@ == pre + b@.subrange(0, i as int),
        decreases b@.len() - i,
    {
        out.push(b[i]);
        i = i + 1;
        proof {
            assert(pre + b@.subrange(0, i - 1) + seq![b@[i - 1]] =~= pre + b@.subrange(0, i as int));
        }
    }
    proof {
        assert(pre + b@.subrange(0, b@.len() as int) =~= pre + b@);
    }
}

/// Append a little-endian `u32` to `out`.
pub fn push_u32_le(out: &mut Vec<u8>, x: u32)
    ensures
        final(out)@ == old(out)@ + spec_u32_to_le_bytes(x),
{
    let b = u32_to_le_bytes(x);
    let ghost pre = out@;
    let mut i: usize = 0;
    while i < b.len()
        invariant
            b@ == spec_u32_to_le_bytes(x),
            b@.len() == 4,
            i <= b@.len(),
            out@ == pre + b@.subrange(0, i as int),
        decreases b@.len() - i,
    {
        out.push(b[i]);
        i = i + 1;
        proof {
            assert(pre + b@.subrange(0, i - 1) + seq![b@[i - 1]] =~= pre + b@.subrange(0, i as int));
        }
    }
    proof {
        assert(pre + b@.subrange(0, b@.len() as int) =~= pre + b@);
    }
}

/// Append a little-endian `u64` to `out`.
pub fn push_u64_le(out: &mut Vec<u8>, x: u64)
    ensures
        final(out)@ == old(out)@ + spec_u64_to_le_bytes(x),
{
    let b = u64_to_le_bytes(x);
    let ghost pre = out@;
    let mut i: usize = 0;
    while i < b.len()
        invariant
            b@ == spec_u64_to_le_bytes(x),
            b@.len() == 8,
            i <= b@.len(),
            out@ == pre + b@.subrange(0, i as int),
        decreases b@.len() - i,
    {
        out.push(b[i]);
        i = i + 1;
        proof {
            assert(pre + b@.subrange(0, i - 1) + seq![b@[i - 1]] =~= pre + b@.subrange(0, i as int));
        }
    }
    proof {
        assert(pre + b@.subrange(0, b@.len() as int) =~= pre + b@);
    }
}

/// A sequence of `n` zero bytes.
pub open spec fn zero_bytes(n: int) -> Seq<u8> {
    Seq::new(n as nat, |i: int| 0u8)
}

/// Append `n` zero bytes to `out`.
pub fn push_zeros(out: &mut Vec<u8>, n: usize)
    ensures
        final(out)@ == old(out)@ + zero_bytes(n as int),
{
    let ghost pre = out@;
    let mut i: usize = 0;
    while i < n
        invariant
            i <= n,
            out@ == pre + zero_bytes(i as int),
        decreases n - i,
    {
        out.push(0u8);
        i = i + 1;
        proof {
            assert(pre + zero_bytes(i - 1) + seq![0u8] =~= pre + zero_bytes(i as int));
        }
    }
}

/// A fresh buffer of `n` zero bytes.
pub fn zero_vec(n: usize) -> (r: Vec<u8>)
    ensures
        r@ == zero_bytes(n as int),
        r@.len() == n,
{
    let mut v: Vec<u8> = Vec::new();
    push_zeros(&mut v, n);
    proof {
        assert(Seq::<u8>::empty() + zero_bytes(n as int) =~= zero_bytes(n as int));
    }
    v
}

/// Equality of two byte buffers, decided byte by byte.
pub fn bytes_eq(a: &Vec<u8>, b: &Vec<u8>) -> (r: bool)
    ensures
        r <==> a@ == b@,
{
    if a.len() != b.len() {
        proof {
            assert(a@.len() != b@.len());
        }
        return false;
    }
    let mut i: usize = 0;
    while i < a.len()
        invariant
            i <= a@.len(),
            a@.len() == b@.len(),
            forall|j: int| 0 <= j < i ==> a@[j] == b@[j],
        decreases a@.len() - i,
    {
        if a[i] != b[i] {
            return false;
        }
        i = i + 1;
    }
    proof {
        assert(a@ =~= b@);
    }
    true
}

/// Does `a` start with `prefix`?
pub fn bytes_starts_with(a: &Vec<u8>, prefix: &Vec<u8>) -> (r: bool)
    ensures
        r <==> (a@.len() >= prefix@.len() && a@.subrange(0, prefix@.len() as int) == prefix@),
{
    if a.len() < prefix.len() {
        return false;
    }
    let mut i: usize = 0;
    while i < prefix.len()
        invariant
            i <= prefix@.len(),
            prefix@.len() <= a@.len(),
            forall|j: int| 0 <= j < i ==> a@[j] == prefix@[j],
        decreases prefix@.len() - i,
    {
        if a[i] != prefix[i] {
            proof {
                assert(a@.subrange(0, prefix@.len() as int)[i as int] == a@[i as int]);
            }
            return false;
        }
        i = i + 1;
    }
    proof {
        assert(a@.subrange(0, prefix@.len() as int) =~= prefix@);
    }
    true
}

/// The bytes of `data` with `bytes` written over positions
/// `pos .. pos + bytes.len()`.
pub open spec fn spec_store(data: Seq<u8>, pos: int, bytes: Seq<u8>) -> Seq<u8> {
    Seq::new(data.len(), |i: int| if pos <= i < pos + bytes.len() { bytes[i - pos] } else { data[i] })
}

/// Copy `src[start .. end]` into a fresh buffer.
pub fn copy_range(src: &[u8], start: usize, end: usize) -> (r: Vec<u8>)
    requires
        start <= end <= src@.len(),
    ensures
        r@ == src@.subrange(start as int, end as int),
{
    let n = src.len();
    let mut v: Vec<u8> = Vec::new();
    let mut j: usize = start;
    while j < end
        invariant
            start <= j <= end <= src@.len(),
            n == src@.len(),
            v@ == src@.subrange(start as int, j as int),
        decreases end - j,
    {
        v.push(src[j]);
        j = j + 1;
        proof {
            assert(src@.subrange(start as int, j - 1) + seq![src@[j - 1]] =~= src@.subrange(
                start as int,
                j as int,
            ));
        }
    }
    v
}

/// Overwrite `dst[dst_pos ..]` with `src[src_start .. src_start + len]`.
pub fn copy_into(dst: &mut Vec<u8>, dst_pos: usize, src: &[u8], src_start: usize, len: usize)
    requires
        dst_pos + len <= old(dst)@.len(),
        src_start + len <= src@.len(),
    ensures
        final(dst)@ == spec_store(
            old(dst)@,
            dst_pos as int,
            src@.subrange(src_start as int, src_start + len),
        ),
{
    let n = src.len();
    let m = dst.len();
    let mut k: usize = 0;
    while k < len
        invariant
            k <= len,
            n == src@.len(),
            m == dst@.len() == old(dst)@.len(),
            dst_pos + len <= m,
            src_start + len <= n,
            forall|i: int|
                0 <= i < dst@.len() ==> dst@[i] == (if dst_pos <= i < dst_pos + k {
                    src@[i - dst_pos + src_start]
                } else {
                    old(dst)@[i]
                }),
        decreases len - k,
    {
        dst.set(dst_pos + k, src[src_start + k]);
        k = k + 1;
    }
    proof {
        assert(dst@ =~= spec_store(
            old(dst)@,
            dst_pos as int,
            src@.subrange(src_start as int, src_start + len),
        ));
    }
}

/// Overwrite two bytes of `dst` at `pos` with the little-endian image of `x`.
pub fn store_u16_le(dst: &mut Vec<u8>, pos: usize, x: u16)
    requires
        pos + 2 <= old(dst)@.len(),
    ensures
        final(dst)@ == spec_store(old(dst)@, pos as int, spec_u16_to_le_bytes(x)),
{
    let b = u16_to_le_bytes(x);
    copy_into(dst, pos, b.as_slice(), 0, 2);
    proof {
        assert(b@.subrange(0, 2) =~= b@);
    }
}

/// Overwrite four bytes of `dst` at `pos` with the little-endian image of `x`.
pub fn store_u32_le(dst: &mut Vec<u8>, pos: usize, x: u32)
    requires
        pos + 4 <= old(dst)@.len(),
    ensures
        final(dst)@ == spec_store(old(dst)@, pos as int, spec_u32_to_le_bytes(x)),
{
    let b = u32_to_le_bytes(x);
    copy_into(dst, pos, b.as_slice(), 0, 4);
    proof {
        assert(b@.subrange(0, 4) =~= b@);
    }
}

/// Overwrite eight bytes of `dst` at `pos` with the little-endian image of `x`.
pub fn store_u64_le(dst: &mut Vec<u8>, pos: usize, x: u64)
    requires
        pos + 8 <= old(dst)@.len(),
    ensures
        final(dst)@ == spec_store(old(dst)@, pos as int, spec_u64_to_le_bytes(x)),
{
    let b = u64_to_le_bytes(x);
    copy_into(dst, pos, b.as_slice(), 0, 8);
    proof {
        assert(b@.subrange(0, 8) =~= b@);
    }
}

/// Append the whole of `src` to `dst`.
pub fn append_bytes(dst: &mut Vec<u8>, src: &Vec<u8>)
    ensures
        final(dst)@ == old(dst)@ + src@,
{
    let ghost pre = dst@;
    let n = src.len();
    let mut k: usize = 0;
    while k < n
        invariant
            k <= n,
            n == src@.len(),
            dst@ == pre + src@.subrange(0, k as int),
        decreases n - k,
    {
        dst.push(src[k]);
        k = k + 1;
        proof {
            assert(pre + src@.subrange(0, k - 1) + seq![src@[k - 1]] =~= pre + src@.subrange(
                0,
                k as int,
            ));
        }
    }
    proof {
        assert(pre + src@.subrange(0, n as int) =~= pre + src@);
    }
}

} // verus!
