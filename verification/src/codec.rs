//! The canonical binary codec.
//!
//! Fixed-width integers are written little-endian in record bodies and
//! big-endian in the SST footer. Sequences are written as a 64-bit length
//! followed by their elements; strings as a 64-bit byte length followed by
//! their UTF-8 bytes. Every encoder has a spec-level mirror, and decoding is
//! proved to invert encoding.

use vstd::bytes::*;
use vstd::prelude::*;

verus! {

// ---------------------------------------------------------------------------
// Big-endian encodings, defined as reversals of vstd's little-endian ones.
// ---------------------------------------------------------------------------
pub open spec fn spec_u32_to_be_bytes(x: u32) -> Seq<u8> {
    spec_u32_to_le_bytes(x).reverse()
}

pub open spec fn spec_u32_from_be_bytes(s: Seq<u8>) -> u32
    recommends
        s.len() == 4,
{
    spec_u32_from_le_bytes(s.reverse())
}

pub open spec fn spec_u64_to_be_bytes(x: u64) -> Seq<u8> {
    spec_u64_to_le_bytes(x).reverse()
}

pub open spec fn spec_u64_from_be_bytes(s: Seq<u8>) -> u64
    recommends
        s.len() == 8,
{
    spec_u64_from_le_bytes(s.reverse())
}

pub open spec fn spec_u128_to_be_bytes(x: u128) -> Seq<u8> {
    spec_u128_to_le_bytes(x).reverse()
}

pub open spec fn spec_u128_from_be_bytes(s: Seq<u8>) -> u128
    recommends
        s.len() == 16,
{
    spec_u128_from_le_bytes(s.reverse())
}

proof fn lemma_reverse_involutive(s: Seq<u8>)
    ensures
        s.reverse().reverse() == s,
{
    assert(s.reverse().reverse() =~= s);
}

/// Big-endian encodings invert exactly as the little-endian ones do.
pub proof fn lemma_be_bytes_roundtrip()
    ensures
        forall|x: u32|
            {
                &&& (#[trigger] spec_u32_to_be_bytes(x)).len() == 4
                &&& spec_u32_from_be_bytes(spec_u32_to_be_bytes(x)) == x
            },
        forall|x: u64|
            {
                &&& (#[trigger] spec_u64_to_be_bytes(x)).len() == 8
                &&& spec_u64_from_be_bytes(spec_u64_to_be_bytes(x)) == x
            },
        forall|x: u128|
            {
                &&& (#[trigger] spec_u128_to_be_bytes(x)).len() == 16
                &&& spec_u128_from_be_bytes(spec_u128_to_be_bytes(x)) == x
            },
        forall|s: Seq<u8>|
            s.len() == 4 ==> spec_u32_to_be_bytes(#[trigger] spec_u32_from_be_bytes(s)) == s,
        forall|s: Seq<u8>|
            s.len() == 8 ==> spec_u64_to_be_bytes(#[trigger] spec_u64_from_be_bytes(s)) == s,
        forall|s: Seq<u8>|
            s.len() == 16 ==> spec_u128_to_be_bytes(#[trigger] spec_u128_from_be_bytes(s)) == s,
{
    lemma_auto_spec_u32_to_from_le_bytes();
    lemma_auto_spec_u64_to_from_le_bytes();
    lemma_auto_spec_u128_to_from_le_bytes();
    assert forall|x: u32|
        {
            &&& (#[trigger] spec_u32_to_be_bytes(x)).len() == 4
            &&& spec_u32_from_be_bytes(spec_u32_to_be_bytes(x)) == x
        } by {
        lemma_reverse_involutive(spec_u32_to_le_bytes(x));
    }
    assert forall|x: u64|
        {
            &&& (#[trigger] spec_u64_to_be_bytes(x)).len() == 8
            &&& spec_u64_from_be_bytes(spec_u64_to_be_bytes(x)) == x
        } by {
        lemma_reverse_involutive(spec_u64_to_le_bytes(x));
    }
    assert forall|x: u128|
        {
            &&& (#[trigger] spec_u128_to_be_bytes(x)).len() == 16
            &&& spec_u128_from_be_bytes(spec_u128_to_be_bytes(x)) == x
        } by {
        lemma_reverse_involutive(spec_u128_to_le_bytes(x));
    }
    assert forall|s: Seq<u8>| s.len() == 4 implies spec_u32_to_be_bytes(
        #[trigger] spec_u32_from_be_bytes(s),
    ) == s by {
        lemma_reverse_involutive(s);
    }
    assert forall|s: Seq<u8>| s.len() == 8 implies spec_u64_to_be_bytes(
        #[trigger] spec_u64_from_be_bytes(s),
    ) == s by {
        lemma_reverse_involutive(s);
    }
    assert forall|s: Seq<u8>| s.len() == 16 implies spec_u128_to_be_bytes(
        #[trigger] spec_u128_from_be_bytes(s),
    ) == s by {
        lemma_reverse_involutive(s);
    }
}

/// A big-endian decode is determined byte for byte: two equal-length inputs
/// that decode to the same value are the same bytes.
pub proof fn lemma_u32_be_injective(a: Seq<u8>, b: Seq<u8>)
    requires
        a.len() == 4,
        b.len() == 4,
        spec_u32_from_be_bytes(a) == spec_u32_from_be_bytes(b),
    ensures
        a == b,
{
    lemma_be_bytes_roundtrip();
    assert(spec_u32_to_be_bytes(spec_u32_from_be_bytes(a)) == a);
    assert(spec_u32_to_be_bytes(spec_u32_from_be_bytes(b)) == b);
}

// ---------------------------------------------------------------------------
// Executable byte-vector writers and readers.
// ---------------------------------------------------------------------------
pub fn reverse_bytes(v: &Vec<u8>) -> (r: Vec<u8>)
    ensures
        r@ == v@.reverse(),
{
    let n = v.len();
    let mut r: Vec<u8> = Vec::new();
    let mut i: usize = 0;
    while i < n
        invariant
            n == v.len(),
            i <= n,
            r.len() == i,
            forall|j: int| 0 <= j < i ==> r@[j] == v@[n - 1 - j],
        decreases n - i,
    {
        r.push(v[n - 1 - i]);
        i = i + 1;
    }
    assert(r@ =~= v@.reverse());
    r
}

pub fn push_u32_le(out: &mut Vec<u8>, x: u32)
    ensures
        final(out)@ == old(out)@ + spec_u32_to_le_bytes(x),
{
    let mut b = u32_to_le_bytes(x);
    out.append(&mut b);
}

pub fn push_u64_le(out: &mut Vec<u8>, x: u64)
    ensures
        final(out)@ == old(out)@ + spec_u64_to_le_bytes(x),
{
    let mut b = u64_to_le_bytes(x);
    out.append(&mut b);
}

pub fn push_u128_le(out: &mut Vec<u8>, x: u128)
    ensures
        final(out)@ == old(out)@ + spec_u128_to_le_bytes(x),
{
    let mut b = u128_to_le_bytes(x);
    out.append(&mut b);
}

pub fn push_u32_be(out: &mut Vec<u8>, x: u32)
    ensures
        final(out)@ == old(out)@ + spec_u32_to_be_bytes(x),
{
    let b = u32_to_le_bytes(x);
    let mut r = reverse_bytes(&b);
    out.append(&mut r);
}

pub fn push_u64_be(out: &mut Vec<u8>, x: u64)
    ensures
        final(out)@ == old(out)@ + spec_u64_to_be_bytes(x),
{
    let b = u64_to_le_bytes(x);
    let mut r = reverse_bytes(&b);
    out.append(&mut r);
}

pub fn push_u128_be(out: &mut Vec<u8>, x: u128)
    ensures
        final(out)@ == old(out)@ + spec_u128_to_be_bytes(x),
{
    let b = u128_to_le_bytes(x);
    let mut r = reverse_bytes(&b);
    out.append(&mut r);
}

pub fn bytes_at(v: &[u8], off: usize, len: usize) -> (r: Vec<u8>)
    requires
        off + len <= v@.len(),
        v@.len() <= usize::MAX,
    ensures
        r@ == v@.subrange(off as int, off as int + len as int),
{
    vstd::slice::slice_to_vec(vstd::slice::slice_subrange(v, off, off + len))
}

pub fn read_u32_le_at(v: &[u8], off: usize) -> (x: u32)
    requires
        off + 4 <= v@.len(),
        v@.len() <= usize::MAX,
    ensures
        x == spec_u32_from_le_bytes(v@.subrange(off as int, off as int + 4)),
{
    u32_from_le_bytes(vstd::slice::slice_subrange(v, off, off + 4))
}

pub fn read_u64_le_at(v: &[u8], off: usize) -> (x: u64)
    requires
        off + 8 <= v@.len(),
        v@.len() <= usize::MAX,
    ensures
        x == spec_u64_from_le_bytes(v@.subrange(off as int, off as int + 8)),
{
    u64_from_le_bytes(vstd::slice::slice_subrange(v, off, off + 8))
}

pub fn read_u128_le_at(v: &[u8], off: usize) -> (x: u128)
    requires
        off + 16 <= v@.len(),
        v@.len() <= usize::MAX,
    ensures
        x == spec_u128_from_le_bytes(v@.subrange(off as int, off as int + 16)),
{
    u128_from_le_bytes(vstd::slice::slice_subrange(v, off, off + 16))
}

pub fn read_u32_be_at(v: &[u8], off: usize) -> (x: u32)
    requires
        off + 4 <= v@.len(),
        v@.len() <= usize::MAX,
    ensures
        x == spec_u32_from_be_bytes(v@.subrange(off as int, off as int + 4)),
{
    let b = bytes_at(v, off, 4);
    let r = reverse_bytes(&b);
    u32_from_le_bytes(r.as_slice())
}

pub fn read_u64_be_at(v: &[u8], off: usize) -> (x: u64)
    requires
        off + 8 <= v@.len(),
        v@.len() <= usize::MAX,
    ensures
        x == spec_u64_from_be_bytes(v@.subrange(off as int, off as int + 8)),
{
    let b = bytes_at(v, off, 8);
    let r = reverse_bytes(&b);
    u64_from_le_bytes(r.as_slice())
}

pub fn read_u128_be_at(v: &[u8], off: usize) -> (x: u128)
    requires
        off + 16 <= v@.len(),
        v@.len() <= usize::MAX,
    ensures
        x == spec_u128_from_be_bytes(v@.subrange(off as int, off as int + 16)),
{
    let b = bytes_at(v, off, 16);
    let r = reverse_bytes(&b);
    u128_from_le_bytes(r.as_slice())
}

} // verus!
