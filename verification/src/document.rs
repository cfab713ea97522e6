//! The canonical record: a 128-bit identifier, a vector of 32-bit components
//! (stored by their bit patterns), and a content payload.
//!
//! A document serializes to a self-describing byte sequence: the id, the
//! component count, the components, the content byte length, the content's
//! UTF-8 bytes — integers little-endian throughout. `deserialize` inverts
//! `serialize`, which `lemma_decode_doc_encode` proves.

use crate::codec::{bytes_at, push_u128_le, push_u32_le, push_u64_le, read_u128_le_at, read_u32_le_at, read_u64_le_at};
use vstd::bytes::*;
use vstd::prelude::*;
use vstd::string::StringSliceAdditionalSpecFns;
use vstd::utf8::*;

verus! {

/// The mathematical value of a document.
pub struct DocView {
    pub id: u128,
    pub vector: Seq<u32>,
    pub content: Seq<char>,
}

impl DocView {
    /// Lengths that the 64-bit length fields of the codec can carry.
    pub open spec fn wf(self) -> bool {
        &&& self.vector.len() <= u64::MAX
        &&& encode_utf8(self.content).len() <= u64::MAX
    }
}

/// A single record of a collection. The vector components are IEEE-754
/// bit patterns of the collection's 32-bit float coordinates; the engine
/// never interprets them numerically.
#[derive(Debug)]
pub struct Document {
    pub id: u128,
    pub vector: Vec<u32>,
    pub content: String,
}

impl View for Document {
    type V = DocView;

    open spec fn view(&self) -> DocView {
        DocView { id: self.id, vector: self.vector@, content: self.content@ }
    }
}

/// Relies on uuid's `Uuid::new_v4` (a random identifier with the version
/// nibble forced to 4 and the variant bits to 2) and `Uuid::as_u128` (the
/// identifier's 128 bits). Nothing beyond those fixed bits can be promised
/// of a random value.
#[verifier::external_body]
fn fresh_v4_id() -> (r: u128)
    ensures
        (r >> 76) & 0xf == 4,
        (r >> 62) & 0x3 == 2,
{
    uuid::Uuid::new_v4().as_u128()
}

/// Relies on std's `String::from_utf8`: it returns `Ok` exactly on valid
/// UTF-8 input, yielding the string those bytes encode.
#[verifier::external_body]
pub fn string_from_utf8(bytes: Vec<u8>) -> (r: Option<String>)
    ensures
        r is Some <==> valid_utf8(bytes@),
        r matches Some(s) ==> s@ == decode_utf8(bytes@),
{
    String::from_utf8(bytes).ok()
}

// ---------------------------------------------------------------------------
// Encoding.
// ---------------------------------------------------------------------------
/// The encoding of a sequence of 32-bit components, in order.
pub open spec fn spec_vec_u32_bytes(v: Seq<u32>) -> Seq<u8>
    decreases v.len(),
{
    if v.len() == 0 {
        Seq::empty()
    } else {
        spec_vec_u32_bytes(v.drop_last()) + spec_u32_to_le_bytes(v.last())
    }
}

pub proof fn lemma_vec_u32_bytes_len(v: Seq<u32>)
    ensures
        spec_vec_u32_bytes(v).len() == 4 * v.len(),
    decreases v.len(),
{
    lemma_auto_spec_u32_to_from_le_bytes();
    if v.len() > 0 {
        lemma_vec_u32_bytes_len(v.drop_last());
    }
}

pub proof fn lemma_vec_u32_bytes_index(v: Seq<u32>, i: int)
    requires
        0 <= i < v.len(),
    ensures
        spec_vec_u32_bytes(v).subrange(4 * i, 4 * i + 4) == spec_u32_to_le_bytes(v[i]),
    decreases v.len(),
{
    lemma_auto_spec_u32_to_from_le_bytes();
    lemma_vec_u32_bytes_len(v);
    lemma_vec_u32_bytes_len(v.drop_last());
    if i == v.len() - 1 {
        assert(spec_vec_u32_bytes(v).subrange(4 * i, 4 * i + 4) =~= spec_u32_to_le_bytes(
            v.last(),
        ));
    } else {
        lemma_vec_u32_bytes_index(v.drop_last(), i);
        assert(spec_vec_u32_bytes(v).subrange(4 * i, 4 * i + 4) =~= spec_vec_u32_bytes(
            v.drop_last(),
        ).subrange(4 * i, 4 * i + 4));
    }
}

/// The canonical byte encoding of a document.
pub open spec fn spec_doc_bytes(d: DocView) -> Seq<u8> {
    spec_u128_to_le_bytes(d.id) + spec_u64_to_le_bytes(d.vector.len() as u64)
        + spec_vec_u32_bytes(d.vector) + spec_u64_to_le_bytes(encode_utf8(d.content).len() as u64)
        + encode_utf8(d.content)
}

pub proof fn lemma_doc_bytes_len(d: DocView)
    ensures
        spec_doc_bytes(d).len() == 32 + 4 * d.vector.len() + encode_utf8(d.content).len(),
    decreases d.vector.len(),
{
    lemma_auto_spec_u64_to_from_le_bytes();
    lemma_auto_spec_u128_to_from_le_bytes();
    lemma_vec_u32_bytes_len(d.vector);
}

// ---------------------------------------------------------------------------
// Decoding.
// ---------------------------------------------------------------------------
/// Decode one document starting at `pos`, returning the document and the
/// position just past it. Trailing bytes are left for the caller: the codec
/// is self-describing, so a record stream decodes record by record.
pub open spec fn spec_decode_doc_at(b: Seq<u8>, pos: int) -> Option<(DocView, int)> {
    if !(0 <= pos && pos + 16 <= b.len()) {
        None
    } else {
        let id = spec_u128_from_le_bytes(b.subrange(pos, pos + 16));
        let p1 = pos + 16;
        if p1 + 8 > b.len() {
            None
        } else {
            let n = spec_u64_from_le_bytes(b.subrange(p1, p1 + 8)) as int;
            let p2 = p1 + 8;
            if p2 + 4 * n > b.len() {
                None
            } else {
                let vector = Seq::new(
                    n as nat,
                    |i: int| spec_u32_from_le_bytes(b.subrange(p2 + 4 * i, p2 + 4 * i + 4)),
                );
                let p3 = p2 + 4 * n;
                if p3 + 8 > b.len() {
                    None
                } else {
                    let m = spec_u64_from_le_bytes(b.subrange(p3, p3 + 8)) as int;
                    let p4 = p3 + 8;
                    if p4 + m > b.len() {
                        None
                    } else {
                        let cb = b.subrange(p4, p4 + m);
                        if !valid_utf8(cb) {
                            None
                        } else {
                            Some((DocView { id, vector, content: decode_utf8(cb) }, p4 + m))
                        }
                    }
                }
            }
        }
    }
}

/// A decoded document always lies within the length fields' range.
pub proof fn lemma_decode_doc_at_wf(b: Seq<u8>, pos: int)
    requires
        spec_decode_doc_at(b, pos) is Some,
    ensures
        ({
            let (d, q) = spec_decode_doc_at(b, pos)->0;
            d.wf() && pos + 32 <= q <= b.len()
        }),
{
    let (d, q) = spec_decode_doc_at(b, pos)->0;
    // Reconstruct the same intermediate quantities the decoder names.
    let p1 = pos + 16;
    let n = spec_u64_from_le_bytes(b.subrange(p1, p1 + 8)) as int;
    let p2 = p1 + 8;
    let p3 = p2 + 4 * n;
    let m = spec_u64_from_le_bytes(b.subrange(p3, p3 + 8)) as int;
    let p4 = p3 + 8;
    let content_bytes = b.subrange(p4, p4 + m);
    assert(d.vector.len() == n);
    assert(d.content == decode_utf8(content_bytes));
    decode_utf8_encode_utf8(content_bytes);
    assert(encode_utf8(d.content) == content_bytes);
}

// ---------------------------------------------------------------------------
// The round trip.
// ---------------------------------------------------------------------------
/// Any subrange of the middle part of a concatenation reads back unchanged.
pub proof fn lemma_subrange_of_concat_middle(
    prefix: Seq<u8>,
    mid: Seq<u8>,
    suffix: Seq<u8>,
    i: int,
    j: int,
)
    requires
        0 <= i <= j <= mid.len(),
    ensures
        (prefix + mid + suffix).subrange(prefix.len() + i, prefix.len() + j) == mid.subrange(i, j),
{
    assert((prefix + mid + suffix).subrange(prefix.len() + i, prefix.len() + j) =~= mid.subrange(
        i,
        j,
    ));
}

/// Decoding inverts encoding, wherever the encoded document stands in a
/// larger byte sequence.
pub proof fn lemma_decode_doc_encode(prefix: Seq<u8>, d: DocView, suffix: Seq<u8>)
    requires
        d.wf(),
    ensures
        spec_decode_doc_at(prefix + spec_doc_bytes(d) + suffix, prefix.len() as int) == Some(
            (d, prefix.len() + spec_doc_bytes(d).len() as int),
        ),
{
    lemma_auto_spec_u32_to_from_le_bytes();
    lemma_auto_spec_u64_to_from_le_bytes();
    lemma_auto_spec_u128_to_from_le_bytes();
    lemma_vec_u32_bytes_len(d.vector);
    lemma_doc_bytes_len(d);
    let enc = spec_doc_bytes(d);
    let b = prefix + enc + suffix;
    let pos = prefix.len() as int;
    let cb = encode_utf8(d.content);
    let nv = d.vector.len() as int;
    let mv = cb.len() as int;

    // The pieces of the encoding, by their offsets within it.
    assert(enc.subrange(0, 16) =~= spec_u128_to_le_bytes(d.id));
    assert(enc.subrange(16, 24) =~= spec_u64_to_le_bytes(d.vector.len() as u64));
    assert(enc.subrange(24, 24 + 4 * nv) =~= spec_vec_u32_bytes(d.vector));
    assert(enc.subrange(24 + 4 * nv, 32 + 4 * nv) =~= spec_u64_to_le_bytes(cb.len() as u64));
    assert(enc.subrange(32 + 4 * nv, 32 + 4 * nv + mv) =~= cb);

    lemma_subrange_of_concat_middle(prefix, enc, suffix, 0, 16);
    assert(spec_u128_from_le_bytes(b.subrange(pos, pos + 16)) == d.id);
    lemma_subrange_of_concat_middle(prefix, enc, suffix, 16, 24);
    let p1 = pos + 16;
    assert(b.subrange(p1, p1 + 8) == spec_u64_to_le_bytes(d.vector.len() as u64));
    let n = spec_u64_from_le_bytes(b.subrange(p1, p1 + 8)) as int;
    assert(n == nv);
    let p2 = p1 + 8;
    assert(p2 + 4 * n <= b.len());
    let vector = Seq::new(
        n as nat,
        |i: int| spec_u32_from_le_bytes(b.subrange(p2 + 4 * i, p2 + 4 * i + 4)),
    );
    assert forall|i: int| 0 <= i < n implies vector[i] == d.vector[i] by {
        lemma_vec_u32_bytes_index(d.vector, i);
        lemma_subrange_of_concat_middle(prefix, enc, suffix, 24 + 4 * i, 24 + 4 * i + 4);
        assert(spec_vec_u32_bytes(d.vector).subrange(4 * i, 4 * i + 4) =~= enc.subrange(
            24 + 4 * i,
            24 + 4 * i + 4,
        ));
        assert(b.subrange(p2 + 4 * i, p2 + 4 * i + 4) == spec_u32_to_le_bytes(d.vector[i]));
    }
    assert(vector =~= d.vector);
    let p3 = p2 + 4 * n;
    lemma_subrange_of_concat_middle(prefix, enc, suffix, 24 + 4 * nv, 32 + 4 * nv);
    assert(b.subrange(p3, p3 + 8) == spec_u64_to_le_bytes(cb.len() as u64));
    let m = spec_u64_from_le_bytes(b.subrange(p3, p3 + 8)) as int;
    assert(m == mv);
    let p4 = p3 + 8;
    lemma_subrange_of_concat_middle(prefix, enc, suffix, 32 + 4 * nv, 32 + 4 * nv + mv);
    assert(b.subrange(p4, p4 + m) == cb);
    broadcast use encode_utf8_valid_utf8;

    encode_utf8_decode_utf8(d.content);
    assert(decode_utf8(cb) == d.content);
    assert(p4 + m == prefix.len() + enc.len());
}

impl Document {
    /// A fresh document under a newly drawn v4 identifier.
    pub fn new(vector: Vec<u32>, content: String) -> (r: Document)
        ensures
            r.vector == vector,
            r.content == content,
            (r.id >> 76) & 0xf == 4,
            (r.id >> 62) & 0x3 == 2,
    {
        Document { id: fresh_v4_id(), vector, content }
    }

    /// The record's dimensionality: the number of vector components.
    pub fn dimension(&self) -> (r: i32)
        requires
            self.vector@.len() <= i32::MAX,
        ensures
            r == self.vector@.len(),
    {
        self.vector.len() as i32
    }

    /// An equal document under fresh allocations.
    pub fn duplicate(&self) -> (r: Document)
        ensures
            r@ == self@,
    {
        let r = Document {
            id: self.id,
            vector: self.vector.clone(),
            content: self.content.clone(),
        };
        assert(r.vector@ =~= self.vector@);
        r
    }

    /// Serialize to the canonical byte encoding.
    pub fn serialize(&self) -> (r: Vec<u8>)
        ensures
            r@ == spec_doc_bytes(self@),
            self@.wf(),
    {
        let mut out: Vec<u8> = Vec::new();
        push_u128_le(&mut out, self.id);
        push_u64_le(&mut out, self.vector.len() as u64);
        let ghost mid1 = out@;
        let mut i: usize = 0;
        while i < self.vector.len()
            invariant
                i <= self.vector.len(),
                out@ == mid1 + spec_vec_u32_bytes(self.vector@.take(i as int)),
            decreases self.vector.len() - i,
        {
            let ghost before = out@;
            push_u32_le(&mut out, self.vector[i]);
            proof {
                assert(self.vector@.take(i + 1).drop_last() =~= self.vector@.take(i as int));
                assert(out@ =~= mid1 + spec_vec_u32_bytes(self.vector@.take(i + 1)));
            }
            i = i + 1;
        }
        proof {
            assert(self.vector@.take(self.vector@.len() as int) =~= self.vector@);
        }
        let mut content_bytes = self.content.as_str().as_bytes_vec();
        push_u64_le(&mut out, content_bytes.len() as u64);
        out.append(&mut content_bytes);
        proof {
            assert(out@ =~= spec_doc_bytes(self@));
        }
        out
    }

    /// Decode one document beginning at `pos`; on success also return the
    /// position just past it.
    pub fn decode_at(data: &Vec<u8>, pos: usize) -> (r: Option<(Document, usize)>)
        ensures
            match r {
                Some((d, q)) => spec_decode_doc_at(data@, pos as int) == Some((d@, q as int)),
                None => spec_decode_doc_at(data@, pos as int) is None,
            },
    {
        let len = data.len();
        if pos > len || len - pos < 16 {
            return None;
        }
        let id = read_u128_le_at(data.as_slice(), pos);
        let p1 = pos + 16;
        if len - p1 < 8 {
            return None;
        }
        let n64 = read_u64_le_at(data.as_slice(), p1);
        let p2 = p1 + 8;
        let rem: u64 = (len - p2) as u64;
        if n64 > rem / 4 {
            proof {
                let n = n64 as int;
                let r = rem as int;
                assert(4 * n > r) by (nonlinear_arith)
                    requires
                        n > r / 4,
                        r >= 0,
                ;
            }
            return None;
        }
        proof {
            let n = n64 as int;
            let r = rem as int;
            assert(4 * n <= r) by (nonlinear_arith)
                requires
                    n <= r / 4,
                    r >= 0,
            ;
        }
        let n = n64 as usize;
        let mut vector: Vec<u32> = Vec::new();
        let mut i: usize = 0;
        while i < n
            invariant
                i <= n,
                p2 + 4 * n <= len == data@.len() <= usize::MAX,
                vector@.len() == i,
                forall|j: int|
                    0 <= j < i ==> vector@[j] == spec_u32_from_le_bytes(
                        data@.subrange(p2 + 4 * j, p2 + 4 * j + 4),
                    ),
            decreases n - i,
        {
            vector.push(read_u32_le_at(data.as_slice(), p2 + 4 * i));
            i = i + 1;
        }
        let p3 = p2 + 4 * n;
        if len - p3 < 8 {
            return None;
        }
        let m64 = read_u64_le_at(data.as_slice(), p3);
        let p4 = p3 + 8;
        if m64 > (len - p4) as u64 {
            return None;
        }
        let m = m64 as usize;
        let content_bytes = bytes_at(data.as_slice(), p4, m);
        match string_from_utf8(content_bytes) {
            None => None,
            Some(content) => {
                let d = Document { id, vector, content };
                proof {
                    let s = spec_decode_doc_at(data@, pos as int)->0;
                    assert(s.0.vector =~= d@.vector);
                }
                Some((d, p4 + m))
            },
        }
    }

    /// Deserialize a document from the front of `data`; trailing bytes are
    /// ignored, as the encoding is self-describing.
    pub fn deserialize(data: &Vec<u8>) -> (r: Option<Document>)
        ensures
            match r {
                Some(d) => spec_decode_doc_at(data@, 0) matches Some(p) && p.0 == d@,
                None => spec_decode_doc_at(data@, 0) is None,
            },
    {
        match Document::decode_at(data, 0) {
            Some((d, _)) => Some(d),
            None => None,
        }
    }
}

} // verus!
