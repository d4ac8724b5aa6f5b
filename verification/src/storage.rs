//! Quantized vector payloads and their little-endian wire format.
//!
//! Scalar fields that denote floating point values are carried as IEEE-754
//! bit patterns: a `u32` holds single-precision bits, a `u16` holds
//! half-precision bits. The wire format writes exactly those bits, so the
//! encoding matches a layout that writes the floats themselves.

use crate::buffered_io::{le16, le32, u16_b0, u16_b1, u32_b0, u32_b1, u32_b2, u32_b3};
use vstd::prelude::*;

verus! {

/// A compressed vector payload; the discriminator written to disk is 0, 1
/// or 2 in declaration order.
#[derive(Clone, Debug, PartialEq)]
pub enum Storage {
    /// `mag` is a plain integer magnitude; `quant_vec` holds one byte per
    /// component.
    UnsignedByte { mag: u32, quant_vec: Vec<u8> },
    /// `mag` holds single-precision bits; `quant_vec` holds sub-byte packed
    /// chunks.
    SubByte { mag: u32, quant_vec: Vec<Vec<u8>>, resolution: u8 },
    /// `mag` holds single-precision bits; `quant_vec` holds one
    /// half-precision bit pattern per component.
    HalfPrecisionFP { mag: u32, quant_vec: Vec<u16> },
}

/// The mathematical shape of a payload.
pub enum StorageView {
    UnsignedByte { mag: u32, quant_vec: Seq<u8> },
    SubByte { mag: u32, quant_vec: Seq<Seq<u8>>, resolution: u8 },
    HalfPrecisionFP { mag: u32, quant_vec: Seq<u16> },
}

impl View for Storage {
    type V = StorageView;

    open spec fn view(&self) -> StorageView {
        match self {
            Storage::UnsignedByte { mag, quant_vec } => StorageView::UnsignedByte {
                mag: *mag,
                quant_vec: quant_vec@,
            },
            Storage::SubByte { mag, quant_vec, resolution } => StorageView::SubByte {
                mag: *mag,
                quant_vec: quant_vec@.map_values(|v: Vec<u8>| v@),
                resolution: *resolution,
            },
            Storage::HalfPrecisionFP { mag, quant_vec } => StorageView::HalfPrecisionFP {
                mag: *mag,
                quant_vec: quant_vec@,
            },
        }
    }
}

/// Every encoded length fits in the 32-bit length fields of the format.
pub open spec fn storage_wf(s: StorageView) -> bool {
    match s {
        StorageView::UnsignedByte { quant_vec, .. } => quant_vec.len() <= 0xFFFF_FFFF,
        StorageView::SubByte { quant_vec, .. } => quant_vec.len() <= 0xFFFF_FFFF && (forall|i: int|
            0 <= i < quant_vec.len() ==> (#[trigger] quant_vec[i]).len() <= 0xFFFF_FFFF),
        StorageView::HalfPrecisionFP { quant_vec, .. } => quant_vec.len() <= 0xFFFF_FFFF,
    }
}

/// Persistent pointer to a serialized record: a byte offset within the
/// buffer of one version.
#[derive(Clone, Copy, Debug, PartialEq, Eq, Structural)]
pub enum FileIndex {
    Invalid,
    Valid { offset: u32, version_id: u32 },
}

/// Little-endian encoding of a 32-bit word.
pub open spec fn u32le(v: u32) -> Seq<u8> {
    seq![u32_b0(v), u32_b1(v), u32_b2(v), u32_b3(v)]
}

/// Little-endian encoding of a 16-bit word.
pub open spec fn u16le(v: u16) -> Seq<u8> {
    seq![u16_b0(v), u16_b1(v)]
}

/// Encoding of a sequence of sub-byte chunks: each chunk is its 32-bit
/// length followed by its bytes.
pub open spec fn chunks_bytes(cs: Seq<Seq<u8>>) -> Seq<u8>
    decreases cs.len(),
{
    if cs.len() == 0 {
        Seq::<u8>::empty()
    } else {
        u32le(cs[0].len() as u32) + cs[0] + chunks_bytes(cs.drop_first())
    }
}

/// Encoding of a sequence of half-precision bit patterns.
pub open spec fn halves_bytes(hs: Seq<u16>) -> Seq<u8>
    decreases hs.len(),
{
    if hs.len() == 0 {
        Seq::<u8>::empty()
    } else {
        u16le(hs[0]) + halves_bytes(hs.drop_first())
    }
}

/// The canonical wire format of a payload record.
pub open spec fn storage_bytes(s: StorageView) -> Seq<u8> {
    match s {
        StorageView::UnsignedByte { mag, quant_vec } => seq![0u8] + u32le(mag) + u32le(
            quant_vec.len() as u32,
        ) + quant_vec,
        StorageView::SubByte { mag, quant_vec, resolution } => seq![1u8] + seq![resolution] + u32le(
            mag,
        ) + u32le(quant_vec.len() as u32) + chunks_bytes(quant_vec),
        StorageView::HalfPrecisionFP { mag, quant_vec } => seq![2u8] + u32le(mag) + u32le(
            quant_vec.len() as u32,
        ) + halves_bytes(quant_vec),
    }
}

pub proof fn lemma_chunks_bytes_snoc(cs: Seq<Seq<u8>>, x: Seq<u8>)
    ensures
        chunks_bytes(cs.push(x)) == chunks_bytes(cs) + u32le(x.len() as u32) + x,
    decreases cs.len(),
{
    if cs.len() == 0 {
        assert(cs.push(x)[0] == x);
        assert(cs.push(x).drop_first() =~= Seq::<Seq<u8>>::empty());
        assert(chunks_bytes(cs.push(x).drop_first()) == Seq::<u8>::empty());
        assert(chunks_bytes(cs.push(x)) == u32le(x.len() as u32) + x + chunks_bytes(
            cs.push(x).drop_first(),
        ));
        assert(chunks_bytes(cs.push(x)) =~= chunks_bytes(cs) + u32le(x.len() as u32) + x);
    } else {
        lemma_chunks_bytes_snoc(cs.drop_first(), x);
        assert(cs.push(x)[0] == cs[0]);
        assert(cs.push(x).drop_first() =~= cs.drop_first().push(x));
        assert(chunks_bytes(cs.push(x)) == u32le(cs[0].len() as u32) + cs[0] + chunks_bytes(
            cs.drop_first().push(x),
        ));
        assert(chunks_bytes(cs.push(x)) =~= chunks_bytes(cs) + u32le(x.len() as u32) + x);
    }
}

pub proof fn lemma_halves_bytes_snoc(hs: Seq<u16>, x: u16)
    ensures
        halves_bytes(hs.push(x)) == halves_bytes(hs) + u16le(x),
    decreases hs.len(),
{
    if hs.len() == 0 {
        assert(hs.push(x)[0] == x);
        assert(hs.push(x).drop_first() =~= Seq::<u16>::empty());
        assert(halves_bytes(hs.push(x).drop_first()) == Seq::<u8>::empty());
        assert(halves_bytes(hs.push(x)) == u16le(x) + halves_bytes(hs.push(x).drop_first()));
        assert(halves_bytes(hs.push(x)) =~= halves_bytes(hs) + u16le(x));
    } else {
        lemma_halves_bytes_snoc(hs.drop_first(), x);
        assert(hs.push(x)[0] == hs[0]);
        assert(hs.push(x).drop_first() =~= hs.drop_first().push(x));
        assert(halves_bytes(hs.push(x)) == u16le(hs[0]) + halves_bytes(hs.drop_first().push(x)));
        assert(halves_bytes(hs.push(x)) =~= halves_bytes(hs) + u16le(x));
    }
}

pub proof fn lemma_chunks_bytes_split(cs: Seq<Seq<u8>>, i: int)
    requires
        0 <= i <= cs.len(),
    ensures
        chunks_bytes(cs) == chunks_bytes(cs.take(i)) + chunks_bytes(cs.skip(i)),
    decreases i,
{
    if i == 0 {
        assert(cs.take(0) =~= Seq::<Seq<u8>>::empty());
        assert(cs.skip(0) =~= cs);
        assert(chunks_bytes(cs) =~= chunks_bytes(cs.take(0)) + chunks_bytes(cs.skip(0)));
    } else {
        lemma_chunks_bytes_split(cs, i - 1);
        assert(cs.take(i) =~= cs.take(i - 1).push(cs[i - 1]));
        lemma_chunks_bytes_snoc(cs.take(i - 1), cs[i - 1]);
        assert(cs.skip(i - 1)[0] == cs[i - 1]);
        assert(cs.skip(i - 1).drop_first() =~= cs.skip(i));
        assert(chunks_bytes(cs.skip(i - 1)) == u32le(cs[i - 1].len() as u32) + cs[i - 1]
            + chunks_bytes(cs.skip(i)));
        assert(chunks_bytes(cs) =~= chunks_bytes(cs.take(i)) + chunks_bytes(cs.skip(i)));
    }
}

pub proof fn lemma_halves_bytes_split(hs: Seq<u16>, i: int)
    requires
        0 <= i <= hs.len(),
    ensures
        halves_bytes(hs) == halves_bytes(hs.take(i)) + halves_bytes(hs.skip(i)),
    decreases i,
{
    if i == 0 {
        assert(hs.take(0) =~= Seq::<u16>::empty());
        assert(hs.skip(0) =~= hs);
        assert(halves_bytes(hs) =~= halves_bytes(hs.take(0)) + halves_bytes(hs.skip(0)));
    } else {
        lemma_halves_bytes_split(hs, i - 1);
        assert(hs.take(i) =~= hs.take(i - 1).push(hs[i - 1]));
        lemma_halves_bytes_snoc(hs.take(i - 1), hs[i - 1]);
        assert(hs.skip(i - 1)[0] == hs[i - 1]);
        assert(hs.skip(i - 1).drop_first() =~= hs.skip(i));
        assert(halves_bytes(hs.skip(i - 1)) == u16le(hs[i - 1]) + halves_bytes(hs.skip(i)));
        assert(halves_bytes(hs) =~= halves_bytes(hs.take(i)) + halves_bytes(hs.skip(i)));
    }
}

} // verus!
