//! Quantized vector storage and its tagged on-disk record: one
//! discriminator byte, the magnitude, the element count, then the
//! elements. Float-valued fields are carried as raw bit patterns.

use crate::bufio::{spec_store, BufIoError, BufferManager};
use crate::serializer::encoding::{
    flat_u16s, flat_u32s, lemma_flat_u16s_len, lemma_flat_u32s_len, lemma_subrange_split,
};
use vstd::bytes::{spec_u32_to_le_bytes, u16_from_le_bytes, u32_from_le_bytes, u32_to_le_bytes};
use vstd::prelude::*;

verus! {

/// A quantized embedding: the variant picked at index creation, with a
/// precomputed magnitude for the distance kernels. `mag` carries the
/// magnitude's raw float bits (an integer magnitude for `UnsignedByte`),
/// half-precision elements their 16 raw bits, full-precision elements
/// their 32.
#[allow(inconsistent_fields)]
pub enum Storage {
    UnsignedByte { mag: u32, quant_vec: Vec<u8> },
    SubByte { mag: u32, quant_vec: Vec<Vec<u8>>, resolution: u8 },
    HalfPrecisionFP { mag: u32, quant_vec: Vec<u16> },
    FullPrecisionFP { mag: u32, vec: Vec<u32> },
}

/// The bytes of the sub-byte variant's packed planes, each plane
/// length-prefixed.
pub open spec fn flat_planes(s: Seq<Seq<u8>>) -> Seq<u8>
    decreases s.len(),
{
    if s.len() == 0 {
        Seq::empty()
    } else {
        flat_planes(s.drop_last()) + spec_u32_to_le_bytes(s.last().len() as u32) + s.last()
    }
}

/// One more plane adds its length prefix and its bytes.
pub proof fn lemma_flat_planes_take_succ(s: Seq<Seq<u8>>, k: int)
    requires
        0 <= k < s.len(),
    ensures
        flat_planes(s.take(k + 1)) == flat_planes(s.take(k)) + spec_u32_to_le_bytes(
            s[k].len() as u32,
        ) + s[k],
{
    assert(s.take(k + 1).drop_last() =~= s.take(k));
    assert(s.take(k + 1).last() == s[k]);
}

/// A prefix of the planes never encodes to more bytes than the whole.
pub proof fn lemma_flat_planes_prefix_le(s: Seq<Seq<u8>>, k: int)
    requires
        0 <= k <= s.len(),
    ensures
        flat_planes(s.take(k)).len() <= flat_planes(s).len(),
    decreases s.len() - k,
{
    vstd::bytes::lemma_auto_spec_u32_to_from_le_bytes();
    if k < s.len() {
        lemma_flat_planes_take_succ(s, k);
        lemma_flat_planes_prefix_le(s, k + 1);
    } else {
        assert(s.take(k) =~= s);
    }
}

/// A prefix of the planes encodes to a prefix of the whole run.
pub proof fn lemma_flat_planes_prefix(s: Seq<Seq<u8>>, k: int)
    requires
        0 <= k <= s.len(),
    ensures
        flat_planes(s.take(k)).len() <= flat_planes(s).len(),
        flat_planes(s).take(flat_planes(s.take(k)).len() as int) == flat_planes(s.take(k)),
    decreases s.len() - k,
{
    vstd::bytes::lemma_auto_spec_u32_to_from_le_bytes();
    if k == s.len() {
        assert(s.take(k) =~= s);
        assert(flat_planes(s).take(flat_planes(s).len() as int) =~= flat_planes(s));
    } else {
        lemma_flat_planes_take_succ(s, k);
        lemma_flat_planes_prefix(s, k + 1);
        let a = flat_planes(s.take(k)).len() as int;
        let b = flat_planes(s.take(k + 1)).len() as int;
        assert(a <= b);
        assert(flat_planes(s.take(k + 1)).take(a) =~= flat_planes(s.take(k)));
        assert(flat_planes(s).take(a) =~= flat_planes(s).take(b).take(a));
        assert(flat_planes(s).take(a) =~= flat_planes(s.take(k)));
    }
}

/// Some well-formed record of bounded size sits encoded at `offset`.
pub open spec fn spec_storage_written(file: Seq<u8>, offset: int) -> bool {
    exists|s: Storage|
        (#[trigger] s.spec_encode()).len() <= u32::MAX && s.wf_counts() && offset
            + s.spec_encode().len() <= file.len() && file.subrange(
            offset,
            offset + s.spec_encode().len(),
        ) == s.spec_encode()
}

impl Storage {
    /// The record's discriminator byte.
    pub open spec fn spec_tag(self) -> u8 {
        match self {
            Storage::UnsignedByte { .. } => 0u8,
            Storage::SubByte { .. } => 1u8,
            Storage::HalfPrecisionFP { .. } => 2u8,
            Storage::FullPrecisionFP { .. } => 3u8,
        }
    }

    /// Element counts fit the record's 32-bit length fields.
    pub open spec fn wf_counts(self) -> bool {
        match self {
            Storage::UnsignedByte { quant_vec, .. } => quant_vec@.len() <= u32::MAX,
            Storage::SubByte { quant_vec, .. } => quant_vec@.len() <= u32::MAX && forall|i: int|
                0 <= i < quant_vec@.len() ==> (#[trigger] quant_vec@[i])@.len() <= u32::MAX,
            Storage::HalfPrecisionFP { quant_vec, .. } => quant_vec@.len() <= u32::MAX,
            Storage::FullPrecisionFP { vec, .. } => vec@.len() <= u32::MAX,
        }
    }

    /// The record: tag, (resolution for sub-byte), magnitude bits,
    /// element count, elements.
    pub open spec fn spec_encode(self) -> Seq<u8> {
        match self {
            Storage::UnsignedByte { mag, quant_vec } => seq![0u8] + spec_u32_to_le_bytes(mag)
                + spec_u32_to_le_bytes(quant_vec@.len() as u32) + quant_vec@,
            Storage::SubByte { mag, quant_vec, resolution } => seq![1u8, resolution]
                + spec_u32_to_le_bytes(mag) + spec_u32_to_le_bytes(quant_vec@.len() as u32)
                + flat_planes(quant_vec@.map_values(|v: Vec<u8>| v@)),
            Storage::HalfPrecisionFP { mag, quant_vec } => seq![2u8] + spec_u32_to_le_bytes(mag)
                + spec_u32_to_le_bytes(quant_vec@.len() as u32) + flat_u16s(quant_vec@),
            Storage::FullPrecisionFP { mag, vec } => seq![3u8] + spec_u32_to_le_bytes(mag)
                + spec_u32_to_le_bytes(vec@.len() as u32) + flat_u32s(vec@),
        }
    }

    /// Builds the record in memory. Fails exactly when the record would
    /// not fit the 32-bit offset space.
    pub fn encode(&self) -> (r: Result<Vec<u8>, BufIoError>)
        requires
            self.wf_counts(),
        ensures
            r is Ok ==> r.unwrap()@ == self.spec_encode(),
            r is Ok <==> self.spec_encode().len() <= u32::MAX,
    {
        proof {
            vstd::bytes::lemma_auto_spec_u32_to_from_le_bytes();
            vstd::bytes::lemma_auto_spec_u16_to_from_le_bytes();
        }
        let mut buf: Vec<u8> = Vec::new();
        match self {
            Storage::UnsignedByte { mag, quant_vec } => {
                if quant_vec.len() as u64 + 9 > u32::MAX as u64 {
                    return Err(BufIoError::Io);
                }
                buf.push(0u8);
                push_u32(&mut buf, *mag);
                push_u32(&mut buf, quant_vec.len() as u32);
                let ghost header = buf@;
                let mut k: usize = 0;
                while k < quant_vec.len()
                    invariant
                        k <= quant_vec@.len(),
                        buf@ == header + quant_vec@.take(k as int),
                    decreases quant_vec@.len() - k,
                {
                    buf.push(quant_vec[k]);
                    assert(buf@ =~= header + quant_vec@.take((k + 1) as int));
                    k += 1;
                }
                proof {
                    assert(quant_vec@.take(quant_vec@.len() as int) =~= quant_vec@);
                    assert(buf@ =~= self.spec_encode());
                }
                Ok(buf)
            },
            Storage::SubByte { mag, quant_vec, resolution } => {
                let ghost planes = quant_vec@.map_values(|v: Vec<u8>| v@);
                // first pass: the record size
                let mut size: u64 = 10;
                let mut k: usize = 0;
                while k < quant_vec.len()
                    invariant
                        k <= quant_vec@.len(),
                        planes == quant_vec@.map_values(|v: Vec<u8>| v@),
                        size as int == 10 + flat_planes(planes.take(k as int)).len(),
                        size <= u32::MAX,
                        self.wf_counts(),
                        self == (Storage::SubByte {
                            mag: *mag,
                            quant_vec: *quant_vec,
                            resolution: *resolution,
                        }),
                    decreases quant_vec@.len() - k,
                {
                    let plane_len = quant_vec[k].len();
                    proof {
                        vstd::bytes::lemma_auto_spec_u32_to_from_le_bytes();
                        lemma_flat_planes_take_succ(planes, k as int);
                    }
                    if plane_len as u64 + 4 > u32::MAX as u64 - size {
                        proof {
                            lemma_flat_planes_prefix_le(planes, k + 1 as int);
                            assert(self.spec_encode().len() > u32::MAX);
                        }
                        return Err(BufIoError::Io);
                    }
                    size = size + 4 + plane_len as u64;
                    k += 1;
                }
                proof {
                    assert(planes.take(quant_vec@.len() as int) =~= planes);
                    assert(self.spec_encode().len() == size);
                }
                // second pass: the bytes
                buf.push(1u8);
                buf.push(*resolution);
                push_u32(&mut buf, *mag);
                push_u32(&mut buf, quant_vec.len() as u32);
                let ghost header = buf@;
                let mut k2: usize = 0;
                while k2 < quant_vec.len()
                    invariant
                        k2 <= quant_vec@.len(),
                        planes == quant_vec@.map_values(|v: Vec<u8>| v@),
                        buf@ == header + flat_planes(planes.take(k2 as int)),
                        self.wf_counts(),
                        self == (Storage::SubByte {
                            mag: *mag,
                            quant_vec: *quant_vec,
                            resolution: *resolution,
                        }),
                    decreases quant_vec@.len() - k2,
                {
                    let plane = &quant_vec[k2];
                    push_u32(&mut buf, plane.len() as u32);
                    let ghost mid = buf@;
                    let mut t: usize = 0;
                    while t < plane.len()
                        invariant
                            t <= plane@.len(),
                            buf@ == mid + plane@.take(t as int),
                        decreases plane@.len() - t,
                    {
                        buf.push(plane[t]);
                        assert(buf@ =~= mid + plane@.take((t + 1) as int));
                        t += 1;
                    }
                    proof {
                        assert(plane@.take(plane@.len() as int) =~= plane@);
                        lemma_flat_planes_take_succ(planes, k2 as int);
                        assert(buf@ =~= header + flat_planes(planes.take((k2 + 1) as int)));
                    }
                    k2 += 1;
                }
                proof {
                    assert(planes.take(quant_vec@.len() as int) =~= planes);
                    assert(buf@ =~= self.spec_encode());
                }
                Ok(buf)
            },
            Storage::HalfPrecisionFP { mag, quant_vec } => {
                proof {
                    lemma_flat_u16s_len(quant_vec@);
                }
                if quant_vec.len() as u64 * 2 + 9 > u32::MAX as u64 {
                    return Err(BufIoError::Io);
                }
                buf.push(2u8);
                push_u32(&mut buf, *mag);
                push_u32(&mut buf, quant_vec.len() as u32);
                let ghost header = buf@;
                let mut k: usize = 0;
                while k < quant_vec.len()
                    invariant
                        k <= quant_vec@.len(),
                        buf@ == header + flat_u16s(quant_vec@.take(k as int)),
                    decreases quant_vec@.len() - k,
                {
                    let le = vstd::bytes::u16_to_le_bytes(quant_vec[k]);
                    push2(&mut buf, le);
                    proof {
                        assert(quant_vec@.take((k + 1) as int).drop_last() =~= quant_vec@.take(
                            k as int,
                        ));
                        assert(quant_vec@.take((k + 1) as int).last() == quant_vec@[k as int]);
                        assert(buf@ =~= header + flat_u16s(quant_vec@.take((k + 1) as int)));
                    }
                    k += 1;
                }
                proof {
                    assert(quant_vec@.take(quant_vec@.len() as int) =~= quant_vec@);
                    assert(buf@ =~= self.spec_encode());
                }
                Ok(buf)
            },
            Storage::FullPrecisionFP { mag, vec } => {
                proof {
                    lemma_flat_u32s_len(vec@);
                }
                if vec.len() as u64 * 4 + 9 > u32::MAX as u64 {
                    return Err(BufIoError::Io);
                }
                buf.push(3u8);
                push_u32(&mut buf, *mag);
                push_u32(&mut buf, vec.len() as u32);
                let ghost header = buf@;
                let mut k: usize = 0;
                while k < vec.len()
                    invariant
                        k <= vec@.len(),
                        buf@ == header + flat_u32s(vec@.take(k as int)),
                    decreases vec@.len() - k,
                {
                    push_u32(&mut buf, vec[k]);
                    proof {
                        assert(vec@.take((k + 1) as int).drop_last() =~= vec@.take(k as int));
                        assert(vec@.take((k + 1) as int).last() == vec@[k as int]);
                        assert(buf@ =~= header + flat_u32s(vec@.take((k + 1) as int)));
                    }
                    k += 1;
                }
                proof {
                    assert(vec@.take(vec@.len() as int) =~= vec@);
                    assert(buf@ =~= self.spec_encode());
                }
                Ok(buf)
            },
        }
    }

    /// Writes the record at the cursor; returns the offset it starts at.
    pub fn serialize(&self, bufman: &mut BufferManager, cursor: usize) -> (r: Result<
        u32,
        BufIoError,
    >)
        requires
            old(bufman).wf(),
            old(bufman).cursor_ok(cursor),
            self.wf_counts(),
        ensures
            final(bufman).wf(),
            final(bufman).cursor_ok(cursor),
            r is Ok ==> {
                &&& r.unwrap() as int == old(bufman).cursor_at(cursor)
                &&& final(bufman).file() == spec_store(
                    old(bufman).file(),
                    old(bufman).cursor_at(cursor),
                    self.spec_encode(),
                )
                &&& final(bufman).cursor_at(cursor) == old(bufman).cursor_at(cursor)
                    + self.spec_encode().len()
            },
            old(bufman).cursor_at(cursor) + self.spec_encode().len() <= u32::MAX ==> r is Ok,
    {
        let start64 = bufman.cursor_position(cursor)?;
        let buf = self.encode()?;
        if start64 > u32::MAX as u64 {
            return Err(BufIoError::Io);
        }
        let start = start64 as u32;
        bufman.update_with_cursor(cursor, buf.as_slice())?;
        Ok(start)
    }

    /// Reads the record at `offset` through a fresh cursor; whatever
    /// comes back encodes to exactly the bytes consumed.
    #[verifier::rlimit(100)]
    #[verifier::spinoff_prover]
    pub fn deserialize(bufman: &mut BufferManager, offset: u32) -> (r: Result<Storage, BufIoError>)
        requires
            old(bufman).wf(),
            old(bufman).cursors@.len() < usize::MAX,
        ensures
            final(bufman).wf(),
            final(bufman).file() == old(bufman).file(),
            r is Ok ==> {
                &&& r.unwrap().wf_counts()
                &&& offset + r.unwrap().spec_encode().len() <= old(bufman).file().len()
                &&& r.unwrap().spec_encode() == old(bufman).file().subrange(
                    offset as int,
                    offset + r.unwrap().spec_encode().len(),
                )
            },
            spec_storage_written(old(bufman).file(), offset as int) ==> r is Ok,
            offset + 1 <= old(bufman).file().len() && 3 < old(bufman).file()[offset as int] ==> r
                == Err::<Storage, BufIoError>(BufIoError::InvalidData),
    {
        proof {
            vstd::bytes::lemma_auto_spec_u32_to_from_le_bytes();
            vstd::bytes::lemma_auto_spec_u16_to_from_le_bytes();
        }
        let ghost file = old(bufman).file();
        let ghost written = spec_storage_written(file, offset as int);
        let ghost w: Storage = if written {
            choose|s: Storage|
                (#[trigger] s.spec_encode()).len() <= u32::MAX && s.wf_counts() && offset
                    + s.spec_encode().len() <= file.len() && file.subrange(
                    offset as int,
                    offset as int + s.spec_encode().len(),
                ) == s.spec_encode()
        } else {
            arbitrary()
        };
        let ghost enc = w.spec_encode();
        proof {
            if written {
                assert(enc.len() >= 9) by {
                    match w {
                        Storage::UnsignedByte { .. } => {},
                        Storage::SubByte { .. } => {},
                        Storage::HalfPrecisionFP { .. } => {},
                        Storage::FullPrecisionFP { .. } => {},
                    }
                }
                assert(file[offset as int] == enc[0]) by {
                    assert(file.subrange(offset as int, offset as int + enc.len())[0] == enc[0]);
                }
            }
        }
        let cursor = bufman.open_cursor()?;
        bufman.seek_with_cursor(cursor, offset as u64)?;
        let variant_index = bufman.read_u8_with_cursor(cursor)?;
        let storage = match variant_index {
            0u8 => {
                proof {
                    if written {
                        match w {
                            Storage::UnsignedByte { mag: m0, quant_vec: q0 } => {
                                assert(enc.len() == 9 + q0@.len());
                                assert(enc.subrange(5, 9) =~= spec_u32_to_le_bytes(
                                    q0@.len() as u32,
                                ));
                                assert(file.subrange(offset as int + 5, offset as int + 9)
                                    =~= enc.subrange(5, 9)) by {
                                    assert forall|j: int| 0 <= j < 4 implies file[offset as int + 5
                                        + j] == #[trigger] enc[5 + j] by {
                                        assert(file.subrange(
                                            offset as int,
                                            offset as int + enc.len(),
                                        )[5 + j] == enc[5 + j]);
                                    }
                                }
                            },
                            _ => {
                                assert(enc[0] != 0u8);
                            },
                        }
                    }
                }
                let mag = bufman.read_u32_with_cursor(cursor)?;
                let len32 = bufman.read_u32_with_cursor(cursor)?;
                proof {
                    if written {
                        match w {
                            Storage::UnsignedByte { mag: m0, quant_vec: q0 } => {
                                assert(len32 == q0@.len());
                                assert(offset + 9 + len32 <= file.len());
                            },
                            _ => {},
                        }
                    }
                }
                let len = len32 as usize;
                let quant_vec = bufman.read_with_cursor(cursor, len)?;
                let s = Storage::UnsignedByte { mag, quant_vec };
                proof {
                    assert(s.spec_encode() =~= file.subrange(
                        offset as int,
                        offset + s.spec_encode().len(),
                    ));
                }
                s
            },
            1u8 => {
                proof {
                    if written {
                        match w {
                            Storage::SubByte { mag: m1, quant_vec: q1, resolution: r1 } => {
                                let planes = q1@.map_values(|v: Vec<u8>| v@);
                                assert(enc.len() == 10 + flat_planes(planes).len());
                                assert(enc.subrange(6, 10) =~= spec_u32_to_le_bytes(
                                    q1@.len() as u32,
                                ));
                                assert(file.subrange(offset as int + 6, offset as int + 10)
                                    =~= enc.subrange(6, 10)) by {
                                    assert forall|j: int| 0 <= j < 4 implies file[offset as int + 6
                                        + j] == #[trigger] enc[6 + j] by {
                                        assert(file.subrange(
                                            offset as int,
                                            offset as int + enc.len(),
                                        )[6 + j] == enc[6 + j]);
                                    }
                                }
                            },
                            _ => {
                                assert(enc[0] != 1u8);
                            },
                        }
                    }
                }
                let resolution = bufman.read_u8_with_cursor(cursor)?;
                let mag = bufman.read_u32_with_cursor(cursor)?;
                let len32 = bufman.read_u32_with_cursor(cursor)?;
                let ghost ok1 = written;
                let ghost wplanes: Seq<Seq<u8>> = match w {
                    Storage::SubByte { quant_vec: q1, .. } => q1@.map_values(|v: Vec<u8>| v@),
                    _ => arbitrary(),
                };
                proof {
                    if written {
                        match w {
                            Storage::SubByte { mag: m1, quant_vec: q1, resolution: r1 } => {
                                assert(len32 == q1@.len());
                                assert(wplanes.len() == q1@.len());
                                assert(offset + 10 + flat_planes(wplanes).len() <= file.len());
                                assert(file.subrange(
                                    offset as int + 10,
                                    offset as int + 10 + flat_planes(wplanes).len(),
                                ) =~= flat_planes(wplanes)) by {
                                    assert forall|j: int|
                                        0 <= j < flat_planes(wplanes).len() implies file[offset
                                        as int + 10 + j] == #[trigger] flat_planes(wplanes)[j] by {
                                        assert(file.subrange(
                                            offset as int,
                                            offset as int + enc.len(),
                                        )[10 + j] == enc[10 + j]);
                                        assert(enc[10 + j] == flat_planes(wplanes)[j]);
                                    }
                                }
                                assert forall|i: int| 0 <= i < wplanes.len() implies (
                                #[trigger] wplanes[i]).len() <= u32::MAX by {
                                    assert(wplanes[i] == q1@[i]@);
                                }
                            },
                            _ => {},
                        }
                    }
                }
                let len = len32 as usize;
                let mut quant_vec: Vec<Vec<u8>> = Vec::new();
                let ghost dstart = offset + 10;
                let mut k: usize = 0;
                while k < len
                    invariant
                        k <= len,
                        quant_vec@.len() == k,
                        bufman.wf(),
                        file == old(bufman).file(),
                        bufman.file() == file,
                        bufman.cursor_ok(cursor),
                        0 <= dstart <= bufman.cursor_at(cursor) <= file.len(),
                        flat_planes(quant_vec@.map_values(|v: Vec<u8>| v@)) == file.subrange(
                            dstart,
                            bufman.cursor_at(cursor),
                        ),
                        forall|i: int|
                            0 <= i < quant_vec@.len() ==> (#[trigger] quant_vec@[i])@.len()
                                <= u32::MAX,
                        ok1 == spec_storage_written(file, offset as int),
                        offset + 1 <= file.len() && file[offset as int] == 1,
                        ok1 ==> {
                            &&& len == wplanes.len()
                            &&& dstart + flat_planes(wplanes).len() <= file.len()
                            &&& file.subrange(dstart, dstart + flat_planes(wplanes).len())
                                == flat_planes(wplanes)
                            &&& quant_vec@.map_values(|v: Vec<u8>| v@) == wplanes.take(k as int)
                            &&& forall|i: int|
                                0 <= i < wplanes.len() ==> (#[trigger] wplanes[i]).len()
                                    <= u32::MAX
                        },
                    decreases len - k,
                {
                    let ghost planes0 = quant_vec@.map_values(|v: Vec<u8>| v@);
                    let ghost pos0 = bufman.cursor_at(cursor);
                    proof {
                        vstd::bytes::lemma_auto_spec_u32_to_from_le_bytes();
                        if ok1 {
                            lemma_flat_planes_prefix(wplanes, k as int);
                            lemma_flat_planes_take_succ(wplanes, k as int);
                            lemma_flat_planes_prefix(wplanes, k as int + 1);
                            let a = flat_planes(wplanes.take(k as int)).len() as int;
                            assert(pos0 == dstart + a);
                            assert(a + 4 + wplanes[k as int].len() == flat_planes(
                                wplanes.take(k as int + 1),
                            ).len());
                            assert(file.subrange(dstart + a, dstart + a + 4)
                                =~= spec_u32_to_le_bytes(wplanes[k as int].len() as u32)) by {
                                assert forall|j: int| 0 <= j < 4 implies file[dstart + a + j]
                                    == #[trigger] spec_u32_to_le_bytes(
                                    wplanes[k as int].len() as u32,
                                )[j] by {
                                    assert(file.subrange(
                                        dstart,
                                        dstart + flat_planes(wplanes).len(),
                                    )[a + j] == flat_planes(wplanes)[a + j]);
                                    assert(flat_planes(wplanes)[a + j] == flat_planes(
                                        wplanes.take(k as int + 1),
                                    )[a + j]);
                                    assert(flat_planes(wplanes.take(k as int + 1))[a + j]
                                        == spec_u32_to_le_bytes(wplanes[k as int].len() as u32)[j]);
                                }
                            }
                        }
                    }
                    let inner_len32 = bufman.read_u32_with_cursor(cursor)?;
                    proof {
                        if ok1 {
                            let a = flat_planes(wplanes.take(k as int)).len() as int;
                            assert(inner_len32 == wplanes[k as int].len());
                            assert(pos0 + 4 + inner_len32 <= file.len());
                        }
                    }
                    let inner = bufman.read_with_cursor(cursor, inner_len32 as usize)?;
                    proof {
                        vstd::bytes::lemma_auto_spec_u32_to_from_le_bytes();
                        if ok1 {
                            let a = flat_planes(wplanes.take(k as int)).len() as int;
                            assert(inner@ =~= wplanes[k as int]) by {
                                assert forall|j: int| 0 <= j < wplanes[k as int].len() implies file[
                                dstart + a + 4 + j] == #[trigger] wplanes[k as int][j] by {
                                    assert(file.subrange(
                                        dstart,
                                        dstart + flat_planes(wplanes).len(),
                                    )[a + 4 + j] == flat_planes(wplanes)[a + 4 + j]);
                                    assert(flat_planes(wplanes)[a + 4 + j] == flat_planes(
                                        wplanes.take(k as int + 1),
                                    )[a + 4 + j]);
                                    assert(flat_planes(wplanes.take(k as int + 1))[a + 4 + j]
                                        == wplanes[k as int][j]);
                                }
                                assert forall|j: int| 0 <= j < inner@.len() implies #[trigger] inner@[j]
                                    == file[pos0 + 4 + j] by {}
                            }
                        }
                    }
                    quant_vec.push(inner);
                    proof {
                        if ok1 {
                            assert(quant_vec@.map_values(|v: Vec<u8>| v@) =~= wplanes.take(
                                k as int + 1,
                            ));
                        }
                    }
                    proof {
                        let planes1 = quant_vec@.map_values(|v: Vec<u8>| v@);
                        assert(planes1.drop_last() =~= planes0);
                        assert(planes1.last() == inner@);
                        assert(flat_planes(planes1) =~= file.subrange(
                            dstart,
                            bufman.cursor_at(cursor),
                        )) by {
                            assert(flat_planes(planes1) == flat_planes(planes0)
                                + spec_u32_to_le_bytes(inner_len32) + inner@);
                            assert(spec_u32_to_le_bytes(inner_len32) == file.subrange(
                                pos0,
                                pos0 + 4,
                            ));
                            assert(inner@ == file.subrange(pos0 + 4, pos0 + 4 + inner@.len()));
                            assert(dstart <= pos0);
                            assert(bufman.cursor_at(cursor) == pos0 + 4 + inner@.len());
                            assert(bufman.cursor_at(cursor) <= file.len());
                            lemma_subrange_split(file, dstart, pos0, pos0 + 4);
                            lemma_subrange_split(file, dstart, pos0 + 4, bufman.cursor_at(cursor));
                        }
                    }
                    k += 1;
                }
                let s = Storage::SubByte { mag, quant_vec, resolution };
                proof {
                    vstd::bytes::lemma_auto_spec_u32_to_from_le_bytes();
                    assert(s.spec_encode() =~= file.subrange(
                        offset as int,
                        offset + s.spec_encode().len(),
                    ));
                }
                s
            },
            2u8 => {
                proof {
                    if written {
                        match w {
                            Storage::HalfPrecisionFP { mag: m2, quant_vec: q2 } => {
                                lemma_flat_u16s_len(q2@);
                                assert(enc.len() == 9 + 2 * q2@.len());
                                assert(enc.subrange(5, 9) =~= spec_u32_to_le_bytes(
                                    q2@.len() as u32,
                                ));
                                assert(file.subrange(offset as int + 5, offset as int + 9)
                                    =~= enc.subrange(5, 9)) by {
                                    assert forall|j: int| 0 <= j < 4 implies file[offset as int + 5
                                        + j] == #[trigger] enc[5 + j] by {
                                        assert(file.subrange(
                                            offset as int,
                                            offset as int + enc.len(),
                                        )[5 + j] == enc[5 + j]);
                                    }
                                }
                            },
                            _ => {
                                assert(enc[0] != 2u8);
                            },
                        }
                    }
                }
                let mag = bufman.read_u32_with_cursor(cursor)?;
                let len32 = bufman.read_u32_with_cursor(cursor)?;
                proof {
                    if written {
                        match w {
                            Storage::HalfPrecisionFP { mag: m2, quant_vec: q2 } => {
                                assert(len32 == q2@.len());
                                assert(2 * len32 <= u32::MAX);
                                assert(offset + 9 + 2 * len32 <= file.len());
                            },
                            _ => {},
                        }
                    }
                }
                let len = len32 as usize;
                if len as u64 * 2 > u32::MAX as u64 {
                    return Err(BufIoError::InvalidData);
                }
                let bytes = bufman.read_with_cursor(cursor, len * 2)?;
                let mut quant_vec: Vec<u16> = Vec::new();
                let mut k: usize = 0;
                while k < len
                    invariant
                        k <= len,
                        len * 2 <= u32::MAX,
                        quant_vec@.len() == k,
                        bytes@.len() == len * 2,
                        flat_u16s(quant_vec@) == bytes@.take(2 * k),
                    decreases len - k,
                {
                    let mut two: Vec<u8> = Vec::new();
                    two.push(bytes[2 * k]);
                    two.push(bytes[2 * k + 1]);
                    let el = u16_from_le_bytes(two.as_slice());
                    let ghost pre = quant_vec@;
                    quant_vec.push(el);
                    proof {
                        vstd::bytes::lemma_auto_spec_u16_to_from_le_bytes();
                        assert(two@ =~= bytes@.subrange(2 * k, 2 * k + 2));
                        assert(quant_vec@.drop_last() =~= pre);
                        assert(quant_vec@.last() == el);
                        assert(bytes@.take(2 * (k + 1)) =~= bytes@.take(2 * k) + bytes@.subrange(
                            2 * k,
                            2 * k + 2,
                        ));
                        assert(flat_u16s(quant_vec@) =~= bytes@.take(2 * (k + 1)));
                    }
                    k += 1;
                }
                let s = Storage::HalfPrecisionFP { mag, quant_vec };
                proof {
                    assert(bytes@.take(2 * len) =~= bytes@);
                    lemma_flat_u16s_len(quant_vec@);
                    assert(s.spec_encode() =~= file.subrange(
                        offset as int,
                        offset + s.spec_encode().len(),
                    ));
                }
                s
            },
            3u8 => {
                proof {
                    if written {
                        match w {
                            Storage::FullPrecisionFP { mag: m3, vec: v3 } => {
                                lemma_flat_u32s_len(v3@);
                                assert(enc.len() == 9 + 4 * v3@.len());
                                assert(enc.subrange(5, 9) =~= spec_u32_to_le_bytes(
                                    v3@.len() as u32,
                                ));
                                assert(file.subrange(offset as int + 5, offset as int + 9)
                                    =~= enc.subrange(5, 9)) by {
                                    assert forall|j: int| 0 <= j < 4 implies file[offset as int + 5
                                        + j] == #[trigger] enc[5 + j] by {
                                        assert(file.subrange(
                                            offset as int,
                                            offset as int + enc.len(),
                                        )[5 + j] == enc[5 + j]);
                                    }
                                }
                            },
                            _ => {
                                assert(enc[0] != 3u8);
                            },
                        }
                    }
                }
                let mag = bufman.read_u32_with_cursor(cursor)?;
                let len32 = bufman.read_u32_with_cursor(cursor)?;
                proof {
                    if written {
                        match w {
                            Storage::FullPrecisionFP { mag: m3, vec: v3 } => {
                                assert(len32 == v3@.len());
                                assert(4 * len32 <= u32::MAX);
                                assert(offset + 9 + 4 * len32 <= file.len());
                            },
                            _ => {},
                        }
                    }
                }
                let len = len32 as usize;
                if len as u64 * 4 > u32::MAX as u64 {
                    return Err(BufIoError::InvalidData);
                }
                let bytes = bufman.read_with_cursor(cursor, len * 4)?;
                let mut vec: Vec<u32> = Vec::new();
                let mut k: usize = 0;
                while k < len
                    invariant
                        k <= len,
                        len * 4 <= u32::MAX,
                        vec@.len() == k,
                        bytes@.len() == len * 4,
                        flat_u32s(vec@) == bytes@.take(4 * k),
                    decreases len - k,
                {
                    let mut four: Vec<u8> = Vec::new();
                    four.push(bytes[4 * k]);
                    four.push(bytes[4 * k + 1]);
                    four.push(bytes[4 * k + 2]);
                    four.push(bytes[4 * k + 3]);
                    let el = u32_from_le_bytes(four.as_slice());
                    let ghost pre = vec@;
                    vec.push(el);
                    proof {
                        vstd::bytes::lemma_auto_spec_u32_to_from_le_bytes();
                        assert(four@ =~= bytes@.subrange(4 * k, 4 * k + 4));
                        assert(vec@.drop_last() =~= pre);
                        assert(vec@.last() == el);
                        assert(bytes@.take(4 * (k + 1)) =~= bytes@.take(4 * k) + bytes@.subrange(
                            4 * k,
                            4 * k + 4,
                        ));
                        assert(flat_u32s(vec@) =~= bytes@.take(4 * (k + 1)));
                    }
                    k += 1;
                }
                let s = Storage::FullPrecisionFP { mag, vec };
                proof {
                    assert(bytes@.take(4 * len) =~= bytes@);
                    lemma_flat_u32s_len(vec@);
                    assert(s.spec_encode() =~= file.subrange(
                        offset as int,
                        offset + s.spec_encode().len(),
                    ));
                }
                s
            },
            _ => {
                return Err(BufIoError::InvalidData);
            },
        };
        let _ = bufman.close_cursor(cursor);
        Ok(storage)
    }
}


/// The record determines the value: equal encodings mean equal tag,
/// magnitude and elements, so writing then reading a record gives the
/// value back bit for bit. For the sub-byte variant the packed plane
/// run is recovered byte for byte along with the plane count.
pub proof fn lemma_storage_encode_injective(a: Storage, b: Storage)
    requires
        a.spec_encode() == b.spec_encode(),
        a.wf_counts(),
        b.wf_counts(),
    ensures
        ({
            match (a, b) {
                (
                    Storage::UnsignedByte { mag: m1, quant_vec: q1 },
                    Storage::UnsignedByte { mag: m2, quant_vec: q2 },
                ) => m1 == m2 && q1@ == q2@,
                (
                    Storage::SubByte { mag: m1, quant_vec: q1, resolution: r1 },
                    Storage::SubByte { mag: m2, quant_vec: q2, resolution: r2 },
                ) => m1 == m2 && r1 == r2 && q1@.len() == q2@.len() && flat_planes(
                    q1@.map_values(|v: Vec<u8>| v@),
                ) == flat_planes(q2@.map_values(|v: Vec<u8>| v@)),
                (
                    Storage::HalfPrecisionFP { mag: m1, quant_vec: q1 },
                    Storage::HalfPrecisionFP { mag: m2, quant_vec: q2 },
                ) => m1 == m2 && q1@ == q2@,
                (
                    Storage::FullPrecisionFP { mag: m1, vec: v1 },
                    Storage::FullPrecisionFP { mag: m2, vec: v2 },
                ) => m1 == m2 && v1@ == v2@,
                _ => false,
            }
        }),
{
    vstd::bytes::lemma_auto_spec_u32_to_from_le_bytes();
    vstd::bytes::lemma_auto_spec_u16_to_from_le_bytes();
    let ea = a.spec_encode();
    let eb = b.spec_encode();
    match (a, b) {
        (
            Storage::UnsignedByte { mag: m1, quant_vec: q1 },
            Storage::UnsignedByte { mag: m2, quant_vec: q2 },
        ) => {
            assert(ea.subrange(1, 5) =~= spec_u32_to_le_bytes(m1));
            assert(eb.subrange(1, 5) =~= spec_u32_to_le_bytes(m2));
            assert(ea.subrange(5, 9) =~= spec_u32_to_le_bytes(q1@.len() as u32));
            assert(eb.subrange(5, 9) =~= spec_u32_to_le_bytes(q2@.len() as u32));
            assert(q1@.len() == q2@.len());
            assert(q1@ =~= ea.subrange(9, ea.len() as int));
            assert(q2@ =~= eb.subrange(9, eb.len() as int));
        },
        (
            Storage::SubByte { mag: m1, quant_vec: q1, resolution: r1 },
            Storage::SubByte { mag: m2, quant_vec: q2, resolution: r2 },
        ) => {
            assert(ea[1] == r1 && eb[1] == r2);
            assert(ea.subrange(2, 6) =~= spec_u32_to_le_bytes(m1));
            assert(eb.subrange(2, 6) =~= spec_u32_to_le_bytes(m2));
            assert(ea.subrange(6, 10) =~= spec_u32_to_le_bytes(q1@.len() as u32));
            assert(eb.subrange(6, 10) =~= spec_u32_to_le_bytes(q2@.len() as u32));
            assert(q1@.len() == q2@.len());
            assert(flat_planes(q1@.map_values(|v: Vec<u8>| v@)) =~= ea.subrange(
                10,
                ea.len() as int,
            ));
            assert(flat_planes(q2@.map_values(|v: Vec<u8>| v@)) =~= eb.subrange(
                10,
                eb.len() as int,
            ));
        },
        (
            Storage::HalfPrecisionFP { mag: m1, quant_vec: q1 },
            Storage::HalfPrecisionFP { mag: m2, quant_vec: q2 },
        ) => {
            assert(ea.subrange(1, 5) =~= spec_u32_to_le_bytes(m1));
            assert(eb.subrange(1, 5) =~= spec_u32_to_le_bytes(m2));
            assert(ea.subrange(5, 9) =~= spec_u32_to_le_bytes(q1@.len() as u32));
            assert(eb.subrange(5, 9) =~= spec_u32_to_le_bytes(q2@.len() as u32));
            assert(q1@.len() == q2@.len());
            assert(flat_u16s(q1@) =~= ea.subrange(9, ea.len() as int));
            assert(flat_u16s(q2@) =~= eb.subrange(9, eb.len() as int));
            crate::serializer::encoding::lemma_flat_u16s_injective(q1@, q2@);
        },
        (
            Storage::FullPrecisionFP { mag: m1, vec: v1 },
            Storage::FullPrecisionFP { mag: m2, vec: v2 },
        ) => {
            assert(ea.subrange(1, 5) =~= spec_u32_to_le_bytes(m1));
            assert(eb.subrange(1, 5) =~= spec_u32_to_le_bytes(m2));
            assert(ea.subrange(5, 9) =~= spec_u32_to_le_bytes(v1@.len() as u32));
            assert(eb.subrange(5, 9) =~= spec_u32_to_le_bytes(v2@.len() as u32));
            assert(v1@.len() == v2@.len());
            assert(flat_u32s(v1@) =~= ea.subrange(9, ea.len() as int));
            assert(flat_u32s(v2@) =~= eb.subrange(9, eb.len() as int));
            crate::serializer::encoding::lemma_flat_u32s_injective(v1@, v2@);
        },
        _ => {
            assert(ea[0] == a.spec_tag());
            assert(eb[0] == b.spec_tag());
            assert(a.spec_tag() != b.spec_tag());
            assert(false);
        },
    }
}

/// Appends a 32-bit value little-endian.
fn push_u32(buf: &mut Vec<u8>, value: u32)
    ensures
        final(buf)@ == old(buf)@ + spec_u32_to_le_bytes(value),
{
    let le = u32_to_le_bytes(value);
    let ghost b0 = buf@;
    let mut k: usize = 0;
    while k < 4
        invariant
            k <= 4,
            le@.len() == 4,
            le@ == spec_u32_to_le_bytes(value),
            buf@ == b0 + le@.take(k as int),
        decreases 4 - k,
    {
        buf.push(le[k]);
        assert(buf@ =~= b0 + le@.take((k + 1) as int));
        k += 1;
    }
    assert(buf@ =~= b0 + le@);
}

/// Appends the two bytes of a 16-bit little-endian value.
fn push2(buf: &mut Vec<u8>, le: Vec<u8>)
    requires
        le@.len() == 2,
    ensures
        final(buf)@ == old(buf)@ + le@,
{
    let ghost b0 = buf@;
    buf.push(le[0]);
    buf.push(le[1]);
    assert(buf@ =~= b0 + le@);
}

} // verus!
