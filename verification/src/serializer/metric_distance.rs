//! The distance-metric result and its five-byte on-disk record: one tag
//! byte and the value's four bits-of-float bytes, little-endian.

use crate::bufio::{
    lemma_store_read, spec_store, BufIoError, BufferManager,
};
use vstd::bytes::spec_u32_to_le_bytes;
use vstd::prelude::*;

verus! {

/// A tagged similarity or distance value. The payload is the raw bit
/// pattern of the 32-bit float the surrounding system works with;
/// ordering and arithmetic on it happen on the fixed-point side.
#[derive(Clone, Copy, PartialEq, Eq, Structural, Debug)]
pub enum MetricResult {
    CosineSimilarity(u32),
    CosineDistance(u32),
    EuclideanDistance(u32),
    HammingDistance(u32),
    DotProductDistance(u32),
}

impl MetricResult {
    pub open spec fn spec_tag(self) -> u8 {
        match self {
            MetricResult::CosineSimilarity(_) => 0u8,
            MetricResult::CosineDistance(_) => 1u8,
            MetricResult::EuclideanDistance(_) => 2u8,
            MetricResult::HammingDistance(_) => 3u8,
            MetricResult::DotProductDistance(_) => 4u8,
        }
    }

    pub open spec fn spec_value(self) -> u32 {
        match self {
            MetricResult::CosineSimilarity(v) => v,
            MetricResult::CosineDistance(v) => v,
            MetricResult::EuclideanDistance(v) => v,
            MetricResult::HammingDistance(v) => v,
            MetricResult::DotProductDistance(v) => v,
        }
    }

    /// The five-byte record: tag, then the value little-endian.
    pub open spec fn spec_encode(self) -> Seq<u8> {
        seq![self.spec_tag()] + spec_u32_to_le_bytes(self.spec_value())
    }

    /// Writes the record at the cursor and returns the offset it starts
    /// at, the cursor ending right after it.
    pub fn serialize(&self, bufman: &mut BufferManager, cursor: usize) -> (r: Result<
        u32,
        BufIoError,
    >)
        requires
            old(bufman).wf(),
            old(bufman).cursor_ok(cursor),
        ensures
            final(bufman).wf(),
            final(bufman).cursor_ok(cursor),
            r is Ok <==> old(bufman).cursor_at(cursor) + 5 <= u32::MAX,
            r is Ok ==> {
                &&& r.unwrap() as int == old(bufman).cursor_at(cursor)
                &&& final(bufman).file() == spec_store(
                    old(bufman).file(),
                    old(bufman).cursor_at(cursor),
                    self.spec_encode(),
                )
                &&& final(bufman).cursor_at(cursor) == old(bufman).cursor_at(cursor) + 5
                &&& final(bufman).cursors@ == old(bufman).cursors@.update(
                    cursor as int,
                    (old(bufman).cursor_at(cursor) + 5) as u64,
                )
            },
    {
        let (variant, value): (u8, u32) = match self {
            MetricResult::CosineSimilarity(v) => (0u8, *v),
            MetricResult::CosineDistance(v) => (1u8, *v),
            MetricResult::EuclideanDistance(v) => (2u8, *v),
            MetricResult::HammingDistance(v) => (3u8, *v),
            MetricResult::DotProductDistance(v) => (4u8, *v),
        };
        let start64 = bufman.cursor_position(cursor)?;
        if start64 > (u32::MAX - 5) as u64 {
            return Err(BufIoError::Io);
        }
        let start = start64 as u32;
        let mut buf: Vec<u8> = Vec::new();
        buf.push(variant);
        let vle = vstd::bytes::u32_to_le_bytes(value);
        let mut k: usize = 0;
        while k < 4
            invariant
                k <= 4,
                vle@.len() == 4,
                vle@ == spec_u32_to_le_bytes(value),
                buf@ == seq![variant] + vle@.take(k as int),
            decreases 4 - k,
        {
            buf.push(vle[k]);
            assert(buf@ =~= seq![variant] + vle@.take((k + 1) as int));
            k += 1;
        }
        proof {
            assert(buf@ =~= self.spec_encode());
        }
        bufman.update_with_cursor(cursor, buf.as_slice())?;
        Ok(start)
    }

    /// Reads the record at `offset` through a fresh cursor. Succeeds
    /// exactly when five bytes are there and the tag is known; the
    /// result's encoding is the bytes read.
    pub fn deserialize(bufman: &mut BufferManager, offset: u32) -> (r: Result<
        MetricResult,
        BufIoError,
    >)
        requires
            old(bufman).wf(),
            old(bufman).cursors@.len() < usize::MAX,
        ensures
            final(bufman).wf(),
            final(bufman).file() == old(bufman).file(),
            r is Ok <==> offset + 5 <= old(bufman).file().len() && old(bufman).file()[offset as int]
                <= 4,
            r is Ok ==> r.unwrap().spec_encode() == old(bufman).file().subrange(
                offset as int,
                offset + 5,
            ),
            offset + 5 <= old(bufman).file().len() && 4 < old(bufman).file()[offset as int] ==> r
                == Err::<MetricResult, BufIoError>(BufIoError::InvalidData),
    {
        let cursor = bufman.open_cursor()?;
        bufman.seek_with_cursor(cursor, offset as u64)?;
        let variant = bufman.read_u8_with_cursor(cursor)?;
        let ghost file = bufman.file();
        let value = bufman.read_u32_with_cursor(cursor)?;
        let metric = match variant {
            0u8 => MetricResult::CosineSimilarity(value),
            1u8 => MetricResult::CosineDistance(value),
            2u8 => MetricResult::EuclideanDistance(value),
            3u8 => MetricResult::HammingDistance(value),
            4u8 => MetricResult::DotProductDistance(value),
            _ => {
                return Err(BufIoError::InvalidData);
            },
        };
        let _ = bufman.close_cursor(cursor);
        proof {
            assert(metric.spec_encode() =~= file.subrange(offset as int, offset + 5)) by {
                assert(spec_u32_to_le_bytes(value) == file.subrange(offset + 1, offset + 5));
                assert forall|i: int| 0 <= i < 5 implies metric.spec_encode()[i] == file.subrange(
                    offset as int,
                    offset + 5,
                )[i] by {
                    if i == 0 {
                        assert(metric.spec_encode()[0] == variant);
                    } else {
                        assert(metric.spec_encode()[i] == spec_u32_to_le_bytes(value)[i - 1]);
                        assert(file.subrange(offset as int, offset + 5)[i] == file.subrange(
                            offset + 1,
                            offset + 5,
                        )[i - 1]);
                    }
                }
            }
        }
        Ok(metric)
    }
}

/// The record determines the value: equal encodings mean equal metric
/// results, so writing then reading a record gives it back bit-equal.
pub proof fn lemma_metric_encode_injective(a: MetricResult, b: MetricResult)
    requires
        a.spec_encode() == b.spec_encode(),
    ensures
        a == b,
{
    vstd::bytes::lemma_auto_spec_u32_to_from_le_bytes();
    assert(a.spec_encode()[0] == a.spec_tag());
    assert(b.spec_encode()[0] == b.spec_tag());
    assert(a.spec_encode().subrange(1, 5) =~= spec_u32_to_le_bytes(a.spec_value()));
    assert(b.spec_encode().subrange(1, 5) =~= spec_u32_to_le_bytes(b.spec_value()));
    assert(a.spec_value() == b.spec_value());
}

} // verus!
