//! The on-disk form of a versioned posting chain: each entry is an
//! eight-byte record, each segment a record of its next link, version,
//! count and entry offsets, all little-endian, appended tail first so
//! every next link points backwards in the file.

use crate::bufio::{spec_store, BufIoError, BufferManager};
use crate::serializer::encoding::flat_u32s;
use crate::versioned_vec::{DocEntry, VersionedVec};
use vstd::bytes::{spec_u32_to_le_bytes, u32_to_le_bytes};
use vstd::prelude::*;

verus! {

/// The eight bytes of one `(document_id, term_frequency)` entry.
pub open spec fn spec_entry_record(e: DocEntry) -> Seq<u8> {
    spec_u32_to_le_bytes(e.0) + spec_u32_to_le_bytes(e.1)
}

/// The bytes of one segment record: next link (all ones closes the
/// chain), version, entry count, then the entry offsets.
pub open spec fn spec_segment_record(next_off: u32, version: u32, offs: Seq<u32>) -> Seq<u8> {
    spec_u32_to_le_bytes(next_off) + spec_u32_to_le_bytes(version) + spec_u32_to_le_bytes(
        offs.len() as u32,
    ) + flat_u32s(offs)
}

/// The file holds this chain at `off`: a segment record whose entry
/// offsets each hold their entry's record and whose next link, unless
/// all ones, holds the rest of the chain.
pub open spec fn chain_written(file: Seq<u8>, off: int, vv: VersionedVec<DocEntry>) -> bool
    decreases vv,
{
    exists|next_off: u32, offs: Seq<u32>|
        {
            let rec = #[trigger] spec_segment_record(next_off, vv.version, offs);
            &&& offs.len() == vv.list@.len()
            &&& 0 <= off
            &&& off + rec.len() <= file.len()
            &&& file.subrange(off, off + rec.len()) == rec
            &&& forall|i: int|
                0 <= i < offs.len() ==> (#[trigger] offs[i]) + 8 <= file.len() && file.subrange(
                    offs[i] as int,
                    offs[i] + 8,
                ) == spec_entry_record(vv.list@[i])
            &&& match vv.next {
                None => next_off == u32::MAX,
                Some(n) => next_off != u32::MAX && chain_written(file, next_off as int, *n),
            }
        }
}

/// A written chain stays written while the file only grows.
pub proof fn lemma_chain_written_extend(
    file: Seq<u8>,
    file2: Seq<u8>,
    off: int,
    vv: VersionedVec<DocEntry>,
)
    requires
        chain_written(file, off, vv),
        file2.len() >= file.len(),
        file2.take(file.len() as int) == file,
    ensures
        chain_written(file2, off, vv),
    decreases vv,
{
    let (next_off, offs) = choose|next_off: u32, offs: Seq<u32>|
        {
            let rec = #[trigger] spec_segment_record(next_off, vv.version, offs);
            &&& offs.len() == vv.list@.len()
            &&& 0 <= off
            &&& off + rec.len() <= file.len()
            &&& file.subrange(off, off + rec.len()) == rec
            &&& forall|i: int|
                0 <= i < offs.len() ==> (#[trigger] offs[i]) + 8 <= file.len() && file.subrange(
                    offs[i] as int,
                    offs[i] + 8,
                ) == spec_entry_record(vv.list@[i])
            &&& match vv.next {
                None => next_off == u32::MAX,
                Some(n) => next_off != u32::MAX && chain_written(file, next_off as int, *n),
            }
        };
    let rec = spec_segment_record(next_off, vv.version, offs);
    assert(file2.subrange(off, off + rec.len()) =~= file.subrange(off, off + rec.len())) by {
        assert forall|j: int| 0 <= j < rec.len() implies #[trigger] file2.subrange(
            off,
            off + rec.len(),
        )[j] == file.subrange(off, off + rec.len())[j] by {
            assert(file2[off + j] == file2.take(file.len() as int)[off + j]);
        }
    }
    assert forall|i: int|
        0 <= i < offs.len() implies (#[trigger] offs[i]) + 8 <= file2.len() && file2.subrange(
        offs[i] as int,
        offs[i] + 8,
    ) == spec_entry_record(vv.list@[i]) by {
        assert(file2.subrange(offs[i] as int, offs[i] + 8) =~= file.subrange(
            offs[i] as int,
            offs[i] + 8,
        )) by {
            assert forall|j: int| 0 <= j < 8 implies #[trigger] file2.subrange(
                offs[i] as int,
                offs[i] + 8,
            )[j] == file.subrange(offs[i] as int, offs[i] + 8)[j] by {
                assert(file2[offs[i] + j] == file2.take(file.len() as int)[offs[i] + j]);
            }
        }
    }
    match vv.next {
        None => {},
        Some(n) => {
            lemma_chain_written_extend(file, file2, next_off as int, *n);
        },
    }
    assert({
        let rec2 = spec_segment_record(next_off, vv.version, offs);
        &&& offs.len() == vv.list@.len()
        &&& 0 <= off
        &&& off + rec2.len() <= file2.len()
        &&& file2.subrange(off, off + rec2.len()) == rec2
        &&& forall|i: int|
            0 <= i < offs.len() ==> (#[trigger] offs[i]) + 8 <= file2.len() && file2.subrange(
                offs[i] as int,
                offs[i] + 8,
            ) == spec_entry_record(vv.list@[i])
        &&& match vv.next {
            None => next_off == u32::MAX,
            Some(n) => next_off != u32::MAX && chain_written(file2, next_off as int, *n),
        }
    });
}

/// Prefix-of-prefix: a file that extends an extension still starts
/// with the original bytes.
pub proof fn lemma_prefix_trans(a: Seq<u8>, b: Seq<u8>, c: Seq<u8>)
    requires
        b.len() >= a.len(),
        b.take(a.len() as int) == a,
        c.len() >= b.len(),
        c.take(b.len() as int) == b,
    ensures
        c.take(a.len() as int) == a,
{
    assert(c.take(a.len() as int) =~= a) by {
        assert forall|j: int| 0 <= j < a.len() implies #[trigger] c.take(a.len() as int)[j]
            == a[j] by {
            assert(c[j] == c.take(b.len() as int)[j]);
            assert(b[j] == b.take(a.len() as int)[j]);
        }
    }
}

/// Every segment of the chain still has its offset unrecorded.
pub open spec fn chain_fresh(vv: VersionedVec<DocEntry>) -> bool
    decreases vv,
{
    &&& vv.serialized_at is None
    &&& match vv.next {
        None => true,
        Some(n) => chain_fresh(*n),
    }
}

/// Every segment's entry count fits the record's count field.
pub open spec fn chain_small(vv: VersionedVec<DocEntry>) -> bool
    decreases vv,
{
    &&& vv.list@.len() <= u32::MAX
    &&& match vv.next {
        None => true,
        Some(n) => chain_small(*n),
    }
}

/// The two chains hold the same versions and entries.
pub open spec fn same_chain(a: VersionedVec<DocEntry>, b: VersionedVec<DocEntry>) -> bool
    decreases a,
{
    &&& a.version == b.version
    &&& a.list@ == b.list@
    &&& match (a.next, b.next) {
        (None, None) => true,
        (Some(x), Some(y)) => same_chain(*x, *y),
        _ => false,
    }
}

/// Writes the chain, tail first: each entry as its own record, then the
/// segment record, all at the end of the file; each segment remembers
/// where it landed. A segment already serialized only has its next link
/// rewritten in place, as its record already sits in the file.
pub fn serialize_doc_chain(
    vv: &mut VersionedVec<DocEntry>,
    bufman: &mut BufferManager,
    cursor: usize,
) -> (r: Result<u32, BufIoError>)
    requires
        old(bufman).wf(),
        old(bufman).cursor_ok(cursor),
        chain_small(*old(vv)),
    ensures
        final(bufman).wf(),
        final(bufman).cursor_ok(cursor),
        same_chain(*old(vv), *final(vv)),
        chain_fresh(*old(vv)) ==> final(bufman).file().len() >= old(bufman).file().len()
            && final(bufman).file().take(old(bufman).file().len() as int) == old(bufman).file(),
        chain_fresh(*old(vv)) && r is Ok ==> chain_written(
            final(bufman).file(),
            r.unwrap() as int,
            *old(vv),
        ),
    decreases *old(vv),
{
    let ghost fresh = chain_fresh(*old(vv));
    let next_off: u32 = match &mut vv.next {
        Some(n) => {
            let ghost old_n = **n;
            let off = serialize_doc_chain(&mut *n, bufman, cursor)?;
            proof {
                if fresh {
                    assert(chain_fresh(old_n));
                }
            }
            if off == u32::MAX {
                proof {
                    assert(same_chain(*old(vv), *vv));
                }
                return Err(BufIoError::Io);
            }
            off
        },
        None => u32::MAX,
    };
    proof {
        assert(same_chain(*old(vv), *vv));
    }
    match vv.serialized_at {
        Some(off) => {
            // rewrite the next link of the record already in the file
            bufman.seek_with_cursor(cursor, off as u64)?;
            bufman.update_u32_with_cursor(cursor, next_off)?;
            proof {
                assert(same_chain(*old(vv), *vv));
            }
            Ok(off)
        },
        None => {
            let ghost file0 = bufman.file();
            proof {
                if fresh {
                    assert(file0.len() >= old(bufman).file().len() && file0.take(
                        old(bufman).file().len() as int,
                    ) == old(bufman).file()) by {
                        match old(vv).next {
                            None => {
                                assert(file0.take(old(bufman).file().len() as int) =~= old(
                                    bufman,
                                ).file());
                            },
                            Some(gn) => {},
                        }
                    }
                }
            }
            let mut offs: Vec<u32> = Vec::new();
            let n_entries = vv.list.len();
            let mut t: usize = 0;
            while t < n_entries
                invariant
                    t <= n_entries,
                    n_entries == vv.list@.len(),
                    n_entries <= u32::MAX,
                    offs@.len() == t,
                    bufman.wf(),
                    bufman.cursor_ok(cursor),
                    bufman.file().len() >= file0.len(),
                    bufman.file().take(file0.len() as int) == file0,
                    same_chain(*old(vv), *vv),
                    fresh == chain_fresh(*old(vv)),
                    fresh ==> file0.len() >= old(bufman).file().len() && file0.take(
                        old(bufman).file().len() as int,
                    ) == old(bufman).file(),
                    fresh ==> match old(vv).next {
                        None => next_off == u32::MAX,
                        Some(gn) => next_off != u32::MAX && chain_written(
                            bufman.file(),
                            next_off as int,
                            *gn,
                        ),
                    },
                    forall|i: int|
                        0 <= i < t ==> (#[trigger] offs@[i]) + 8 <= bufman.file().len()
                            && bufman.file().subrange(offs@[i] as int, offs@[i] + 8)
                            == spec_entry_record(vv.list@[i]),
                decreases n_entries - t,
            {
                let (doc, tf) = vv.list[t];
                let mut rec: Vec<u8> = Vec::new();
                push_u32v(&mut rec, doc);
                push_u32v(&mut rec, tf);
                let ghost pre_file = bufman.file();
                proof {
                    vstd::bytes::lemma_auto_spec_u32_to_from_le_bytes();
                    if fresh {
                        lemma_prefix_trans(old(bufman).file(), file0, bufman.file());
                    }
                }
                let off_t = bufman.write_to_end_of_file(cursor, rec.as_slice())?;
                offs.push(off_t);
                proof {
                    assert(bufman.file().take(pre_file.len() as int) =~= pre_file);
                    assert(bufman.file().take(file0.len() as int) =~= file0) by {
                        assert forall|j: int| 0 <= j < file0.len() implies #[trigger] bufman.file().take(
                            file0.len() as int,
                        )[j] == file0[j] by {
                            assert(bufman.file()[j] == pre_file.take(file0.len() as int)[j]);
                        }
                    }
                    assert(bufman.file().subrange(off_t as int, off_t + 8) =~= rec@);
                    assert forall|i: int|
                        0 <= i < t + 1 implies (#[trigger] offs@[i]) + 8 <= bufman.file().len()
                        && bufman.file().subrange(offs@[i] as int, offs@[i] + 8)
                        == spec_entry_record(vv.list@[i]) by {
                        if i < t {
                            assert(bufman.file().subrange(offs@[i] as int, offs@[i] + 8)
                                =~= pre_file.subrange(offs@[i] as int, offs@[i] + 8)) by {
                                assert forall|j: int| 0 <= j < 8 implies #[trigger] bufman.file().subrange(
                                    offs@[i] as int,
                                    offs@[i] + 8,
                                )[j] == pre_file.subrange(offs@[i] as int, offs@[i] + 8)[j] by {
                                    assert(bufman.file()[offs@[i] + j] == bufman.file().take(
                                        pre_file.len() as int,
                                    )[offs@[i] + j]);
                                }
                            }
                        } else {
                            assert(offs@[i] == off_t);
                            assert(spec_entry_record(vv.list@[i]) == rec@);
                        }
                    }
                    if fresh {
                        match old(vv).next {
                            None => {},
                            Some(gn) => {
                                lemma_chain_written_extend(
                                    pre_file,
                                    bufman.file(),
                                    next_off as int,
                                    *gn,
                                );
                            },
                        }
                    }
                }
                t += 1;
            }
            let mut buf: Vec<u8> = Vec::new();
            push_u32v(&mut buf, next_off);
            push_u32v(&mut buf, vv.version);
            push_u32v(&mut buf, n_entries as u32);
            let ghost header = buf@;
            let mut t2: usize = 0;
            while t2 < offs.len()
                invariant
                    t2 <= offs@.len(),
                    buf@ == header + flat_u32s(offs@.take(t2 as int)),
                decreases offs@.len() - t2,
            {
                proof {
                    assert(offs@.take(t2 + 1).drop_last() =~= offs@.take(t2 as int));
                }
                push_u32v(&mut buf, offs[t2]);
                proof {
                    assert(buf@ =~= header + flat_u32s(offs@.take(t2 + 1)));
                }
                t2 += 1;
            }
            proof {
                assert(offs@.take(offs@.len() as int) =~= offs@);
                assert(buf@ =~= spec_segment_record(next_off, vv.version, offs@));
            }
            let ghost pre_file = bufman.file();
            proof {
                if fresh {
                    lemma_prefix_trans(old(bufman).file(), file0, bufman.file());
                }
            }
            let off = bufman.write_to_end_of_file(cursor, buf.as_slice())?;
            vv.serialized_at = Some(off);
            proof {
                assert(bufman.file().take(pre_file.len() as int) =~= pre_file);
                if fresh {
                    lemma_prefix_trans(old(bufman).file(), pre_file, bufman.file());
                }
                assert(bufman.file().take(file0.len() as int) =~= file0) by {
                    assert forall|j: int| 0 <= j < file0.len() implies #[trigger] bufman.file().take(
                        file0.len() as int,
                    )[j] == file0[j] by {
                        assert(bufman.file()[j] == pre_file.take(file0.len() as int)[j]);
                    }
                }
                assert(same_chain(*old(vv), *vv));
                if fresh {
                    assert(bufman.file().subrange(off as int, off + buf@.len()) =~= buf@);
                    assert forall|i: int|
                        0 <= i < offs@.len() implies (#[trigger] offs@[i]) + 8
                        <= bufman.file().len() && bufman.file().subrange(
                        offs@[i] as int,
                        offs@[i] + 8,
                    ) == spec_entry_record(old(vv).list@[i]) by {
                        assert(bufman.file().subrange(offs@[i] as int, offs@[i] + 8)
                            =~= pre_file.subrange(offs@[i] as int, offs@[i] + 8)) by {
                            assert forall|j: int| 0 <= j < 8 implies #[trigger] bufman.file().subrange(
                                offs@[i] as int,
                                offs@[i] + 8,
                            )[j] == pre_file.subrange(offs@[i] as int, offs@[i] + 8)[j] by {
                                assert(bufman.file()[offs@[i] + j] == bufman.file().take(
                                    pre_file.len() as int,
                                )[offs@[i] + j]);
                            }
                        }
                    }
                    match old(vv).next {
                        None => {},
                        Some(gn) => {
                            lemma_chain_written_extend(
                                pre_file,
                                bufman.file(),
                                next_off as int,
                                *gn,
                            );
                        },
                    }
                    assert(chain_written(bufman.file(), off as int, *old(vv))) by {
                        let rec2 = spec_segment_record(next_off, old(vv).version, offs@);
                        assert(rec2 == buf@);
                        assert(bufman.file().subrange(off as int, off as int + rec2.len())
                            == rec2);
                    }
                }
            }
            Ok(off)
        },
    }
}

/// Appends a 32-bit value little-endian.
fn push_u32v(buf: &mut Vec<u8>, value: u32)
    ensures
        final(buf)@ == old(buf)@ + spec_u32_to_le_bytes(value),
{
    let le = u32_to_le_bytes(value);
    let ghost b0 = buf@;
    let mut k: usize = 0;
    while k < 4
        invariant
            k <= 4,
            le@.len() == 4,
            le@ == spec_u32_to_le_bytes(value),
            buf@ == b0 + le@.take(k as int),
        decreases 4 - k,
    {
        buf.push(le[k]);
        assert(buf@ =~= b0 + le@.take((k + 1) as int));
        k += 1;
    }
    assert(buf@ =~= b0 + le@);
}

/// Reads a chain back, segment by segment. Every segment record takes
/// at least twelve bytes, so a file holds fewer segments than a twelfth
/// of its length: a longer walk can only be a cycle of corrupt links
/// and is refused rather than followed.
pub fn deserialize_doc_chain(bufman: &mut BufferManager, offset: u32) -> (r: Result<
    VersionedVec<DocEntry>,
    BufIoError,
>)
    requires
        old(bufman).wf(),
        old(bufman).cursors@.len() + 2 * (old(bufman).file().len() / 12) + 4 <= usize::MAX,
    ensures
        final(bufman).wf(),
        final(bufman).file() == old(bufman).file(),
        r is Ok ==> chain_written(old(bufman).file(), offset as int, r.unwrap()),
        r is Ok ==> r.unwrap().serialized_at == Some(offset),
{
    let budget = bufman.file_size() as usize / 12 + 1;
    deserialize_doc_chain_inner(bufman, offset, budget)
}

/// One chain walk with a segment budget left.
fn deserialize_doc_chain_inner(bufman: &mut BufferManager, offset: u32, budget: usize) -> (r:
    Result<VersionedVec<DocEntry>, BufIoError>)
    requires
        old(bufman).wf(),
        old(bufman).cursors@.len() + 2 * budget + 2 <= usize::MAX,
    ensures
        final(bufman).wf(),
        final(bufman).file() == old(bufman).file(),
        r is Ok ==> chain_written(old(bufman).file(), offset as int, r.unwrap()),
        r is Ok ==> r.unwrap().serialized_at == Some(offset),
    decreases budget,
{
    if budget == 0 {
        return Err(BufIoError::InvalidData);
    }
    let ghost file = old(bufman).file();
    let cursor = bufman.open_cursor()?;
    bufman.seek_with_cursor(cursor, offset as u64)?;
    let next_off = bufman.read_u32_with_cursor(cursor)?;
    let version = bufman.read_u32_with_cursor(cursor)?;
    let len32 = bufman.read_u32_with_cursor(cursor)?;
    let inner = bufman.open_cursor()?;
    let len = len32 as usize;
    let mut list: Vec<DocEntry> = Vec::new();
    let mut offs: Vec<u32> = Vec::new();
    let mut t: usize = 0;
    proof {
        assert(flat_u32s(offs@) =~= file.subrange(offset + 12, offset + 12));
    }
    while t < len
        invariant
            t <= len,
            list@.len() == t,
            offs@.len() == t,
            bufman.wf(),
            bufman.cursor_ok(cursor),
            bufman.file() == file,
            file == old(bufman).file(),
            offset + 12 + 4 * t <= file.len(),
            bufman.cursor_ok(inner),
            inner != cursor,
            bufman.cursors@.len() == old(bufman).cursors@.len() + 2,
            bufman.cursor_at(cursor) == offset + 12 + 4 * t,
            flat_u32s(offs@) == file.subrange(offset + 12, offset + 12 + 4 * t),
            forall|i: int|
                0 <= i < t ==> (#[trigger] offs@[i]) + 8 <= file.len() && file.subrange(
                    offs@[i] as int,
                    offs@[i] + 8,
                ) == spec_entry_record(list@[i]),
        decreases len - t,
    {
        let ghost pos0 = bufman.cursor_at(cursor);
        let el_off = bufman.read_u32_with_cursor(cursor)?;
        bufman.seek_with_cursor(inner, el_off as u64)?;
        let doc = bufman.read_u32_with_cursor(inner)?;
        let tf = bufman.read_u32_with_cursor(inner)?;
        let ghost offs0 = offs@;
        list.push((doc, tf));
        offs.push(el_off);
        proof {
            vstd::bytes::lemma_auto_spec_u32_to_from_le_bytes();
            assert(offs@.drop_last() =~= offs0);
            assert(flat_u32s(offs@) == flat_u32s(offs0) + spec_u32_to_le_bytes(el_off));
            assert(flat_u32s(offs@) =~= file.subrange(offset + 12, offset + 12 + 4 * (t + 1)))
                by {
                crate::serializer::encoding::lemma_subrange_split(
                    file,
                    offset + 12,
                    pos0,
                    pos0 + 4,
                );
            }
            assert(file.subrange(el_off as int, el_off + 8) =~= spec_entry_record((doc, tf))) by {
                crate::serializer::encoding::lemma_subrange_split(
                    file,
                    el_off as int,
                    el_off + 4,
                    el_off + 8,
                );
            }
        }
        t += 1;
    }
    let _ = bufman.close_cursor(inner);
    let _ = bufman.close_cursor(cursor);
    let next = if next_off == u32::MAX {
        None
    } else {
        Some(Box::new(deserialize_doc_chain_inner(bufman, next_off, budget - 1)?))
    };
    let vv = VersionedVec { serialized_at: Some(offset), version, list, next };
    proof {
        vstd::bytes::lemma_auto_spec_u32_to_from_le_bytes();
        crate::serializer::encoding::lemma_flat_u32s_len(offs@);
        let rec = spec_segment_record(next_off, version, offs@);
        assert(offs@.len() == len32);
        assert(rec.len() == 12 + 4 * offs@.len());
        assert(file.subrange(offset as int, offset as int + rec.len()) =~= rec) by {
            assert(file.subrange(offset as int, offset + 4) == spec_u32_to_le_bytes(next_off));
            assert(file.subrange(offset + 4, offset + 8) == spec_u32_to_le_bytes(version));
            assert(file.subrange(offset + 8, offset + 12) == spec_u32_to_le_bytes(len32));
            assert(flat_u32s(offs@) == file.subrange(offset + 12, offset + 12 + 4 * len));
            assert forall|j: int| 0 <= j < rec.len() implies #[trigger] file.subrange(
                offset as int,
                offset as int + rec.len(),
            )[j] == rec[j] by {
                if j < 4 {
                    assert(file.subrange(offset as int, offset + 4)[j] == rec[j]);
                } else if j < 8 {
                    assert(file.subrange(offset + 4, offset + 8)[j - 4] == rec[j]);
                } else if j < 12 {
                    assert(file.subrange(offset + 8, offset + 12)[j - 8] == rec[j]);
                } else {
                    assert(file.subrange(offset + 12, offset + 12 + 4 * len)[j - 12] == rec[j]);
                }
            }
        }
        assert(chain_written(file, offset as int, vv)) by {
            let rec2 = spec_segment_record(next_off, vv.version, offs@);
            assert(offs@.len() == vv.list@.len());
            assert(file.subrange(offset as int, offset as int + rec2.len()) == rec2);
        }
    }
    Ok(vv)
}

/// Writes the header the TF-IDF dimension file starts with: the
/// total document count in the four bytes ahead of the root node's
/// slot at offset four. The trie's node slots and posting chains
/// follow it through their own writers.
pub fn serialize_tf_idf_header(
    root: &crate::tf_idf_index::TFIDFIndexRoot,
    bufman: &mut BufferManager,
    cursor: usize,
) -> (r: Result<(), BufIoError>)
    requires
        old(bufman).wf(),
        old(bufman).cursor_ok(cursor),
    ensures
        final(bufman).wf(),
        final(bufman).cursor_ok(cursor),
        r is Ok,
        final(bufman).file() == spec_store(
            old(bufman).file(),
            0,
            spec_u32_to_le_bytes(root.total_documents_count),
        ),
{
    bufman.seek_with_cursor(cursor, 0)?;
    bufman.update_u32_with_cursor(cursor, root.total_documents_count)?;
    Ok(())
}

/// Reads the document count back from the dimension file's header.
pub fn deserialize_tf_idf_header(bufman: &mut BufferManager, cursor: usize) -> (r: Result<
    u32,
    BufIoError,
>)
    requires
        old(bufman).wf(),
        old(bufman).cursor_ok(cursor),
    ensures
        final(bufman).wf(),
        final(bufman).cursor_ok(cursor),
        final(bufman).file() == old(bufman).file(),
        r is Ok <==> old(bufman).file().len() >= 4,
        r is Ok ==> spec_u32_to_le_bytes(r.unwrap()) == old(bufman).file().subrange(0, 4),
{
    bufman.seek_with_cursor(cursor, 0)?;
    bufman.read_u32_with_cursor(cursor)
}

} // verus!
