//! Serialization of payload records into version buffers: a record is
//! appended at a cursor and later read back by `(version, offset)`.

use crate::buffered_io::{u16_b0, u16_b1, BufIoError, BufferManager, BufferManagerFactory};
use crate::storage::{
    chunks_bytes, halves_bytes, lemma_chunks_bytes_snoc, lemma_chunks_bytes_split,
    lemma_halves_bytes_snoc, lemma_halves_bytes_split, storage_bytes, storage_wf, u16le, u32le,
    FileIndex, Storage, StorageView,
};
use vstd::prelude::*;

verus! {

impl Storage {
    /// Appends this record to the buffer of `version` at `cursor`, which
    /// must sit at the end of that buffer, and returns the byte offset at
    /// which the record starts.
    pub fn serialize(
        &self,
        bufmans: &mut BufferManagerFactory,
        version: u32,
        cursor: u64,
    ) -> (r: Result<u32, BufIoError>)
        requires
            old(bufmans).wf(),
            old(bufmans).has_version(version),
            old(bufmans).bman(version).cursor_open(cursor as int),
            old(bufmans).bman(version).cursor_pos(cursor as int) == old(bufmans).bman(
                version,
            ).bytes().len(),
            storage_wf(self@),
            old(bufmans).bman(version).bytes().len() + storage_bytes(self@).len() < 0x1_0000_0000,
        ensures
            final(bufmans).wf(),
            final(bufmans).has_version(version),
            BufferManagerFactory::others_unchanged(*old(bufmans), *final(bufmans), version),
            final(bufmans).bman(version).bytes() == old(bufmans).bman(version).bytes()
                + storage_bytes(self@),
            final(bufmans).bman(version).num_cursors() == old(bufmans).bman(
                version,
            ).num_cursors(),
            final(bufmans).bman(version).cursor_open(cursor as int),
            final(bufmans).bman(version).cursor_pos(cursor as int) == final(bufmans).bman(
                version,
            ).bytes().len(),
            r == Ok::<u32, BufIoError>(old(bufmans).bman(version).bytes().len() as u32),
    {
        let ghost orig = *bufmans;
        let ghost orig_len = orig.bman(version).bytes().len() as int;
        let ghost total = storage_bytes(self@).len() as int;
        let start: u64 = bufmans.cursor_position(version, cursor);

        match self {
            Storage::UnsignedByte { mag, quant_vec } => {
                let ghost head = orig.bman(version).bytes() + seq![0u8] + u32le(*mag) + u32le(
                    quant_vec@.len() as u32,
                );
                bufmans.write_u8_with_cursor(version, cursor, 0);
                bufmans.write_u32_with_cursor(version, cursor, *mag);
                bufmans.write_u32_with_cursor(version, cursor, quant_vec.len() as u32);
                proof {
                    assert(bufmans.bman(version).bytes() =~= head);
                }
                let n: usize = quant_vec.len();
                for i in 0..n
                    invariant
                        n == quant_vec@.len(),
                        orig.wf(),
                        orig.has_version(version),
                        bufmans.wf(),
                        bufmans.has_version(version),
                        BufferManagerFactory::others_unchanged(orig, *bufmans, version),
                        head.len() == orig_len + 9,
                        orig_len + total < 0x1_0000_0000,
                        total == 9 + n,
                        bufmans.bman(version).bytes() == head + quant_vec@.take(i as int),
                        bufmans.bman(version).num_cursors() == orig.bman(version).num_cursors(),
                        bufmans.bman(version).cursor_open(cursor as int),
                        bufmans.bman(version).cursor_pos(cursor as int) == bufmans.bman(
                            version,
                        ).bytes().len(),
                {
                    bufmans.write_u8_with_cursor(version, cursor, quant_vec[i]);
                    proof {
                        assert(quant_vec@.take(i + 1) =~= quant_vec@.take(i as int).push(
                            quant_vec@[i as int],
                        ));
                        assert(bufmans.bman(version).bytes() =~= head + quant_vec@.take(i + 1));
                    }
                }
                proof {
                    assert(quant_vec@.take(n as int) =~= quant_vec@);
                    assert(bufmans.bman(version).bytes() =~= orig.bman(version).bytes()
                        + storage_bytes(self@));
                }
            },
            Storage::SubByte { mag, quant_vec, resolution } => {
                let ghost chunks = quant_vec@.map_values(|v: Vec<u8>| v@);
                let ghost head = orig.bman(version).bytes() + seq![1u8] + seq![*resolution]
                    + u32le(*mag) + u32le(quant_vec@.len() as u32);
                bufmans.write_u8_with_cursor(version, cursor, 1);
                bufmans.write_u8_with_cursor(version, cursor, *resolution);
                bufmans.write_u32_with_cursor(version, cursor, *mag);
                bufmans.write_u32_with_cursor(version, cursor, quant_vec.len() as u32);
                proof {
                    assert(bufmans.bman(version).bytes() =~= head);
                    assert(chunks.take(0) =~= Seq::<Seq<u8>>::empty());
                    lemma_chunks_bytes_split(chunks, 0);
                }
                let n: usize = quant_vec.len();
                for i in 0..n
                    invariant
                        n == quant_vec@.len(),
                        chunks == quant_vec@.map_values(|v: Vec<u8>| v@),
                        forall|k: int|
                            0 <= k < chunks.len() ==> (#[trigger] chunks[k]).len()
                                <= 0xFFFF_FFFF,
                        orig.wf(),
                        orig.has_version(version),
                        bufmans.wf(),
                        bufmans.has_version(version),
                        BufferManagerFactory::others_unchanged(orig, *bufmans, version),
                        head.len() == orig_len + 10,
                        orig_len + total < 0x1_0000_0000,
                        total == 10 + chunks_bytes(chunks).len(),
                        bufmans.bman(version).bytes() == head + chunks_bytes(
                            chunks.take(i as int),
                        ),
                        chunks_bytes(chunks.take(i as int)).len() <= chunks_bytes(chunks).len(),
                        bufmans.bman(version).num_cursors() == orig.bman(version).num_cursors(),
                        bufmans.bman(version).cursor_open(cursor as int),
                        bufmans.bman(version).cursor_pos(cursor as int) == bufmans.bman(
                            version,
                        ).bytes().len(),
                {
                    let chunk: &Vec<u8> = &quant_vec[i];
                    proof {
                        assert(chunks[i as int] == chunk@);
                        lemma_chunks_bytes_split(chunks, i as int);
                        assert(chunks.skip(i as int)[0] == chunks[i as int]);
                        assert(chunks.skip(i as int).drop_first() =~= chunks.skip(i + 1));
                        assert(chunks_bytes(chunks.skip(i as int)) == u32le(
                            chunk@.len() as u32,
                        ) + chunk@ + chunks_bytes(chunks.skip(i + 1)));
                    }
                    let ghost chead = bufmans.bman(version).bytes() + u32le(chunk@.len() as u32);
                    bufmans.write_u32_with_cursor(version, cursor, chunk.len() as u32);
                    proof {
                        assert(bufmans.bman(version).bytes() =~= chead);
                    }
                    let m: usize = chunk.len();
                    for j in 0..m
                        invariant
                            m == chunk@.len(),
                            orig.wf(),
                            orig.has_version(version),
                            bufmans.wf(),
                            bufmans.has_version(version),
                            BufferManagerFactory::others_unchanged(orig, *bufmans, version),
                            chead.len() + m <= orig_len + total,
                            orig_len + total < 0x1_0000_0000,
                            bufmans.bman(version).bytes() == chead + chunk@.take(j as int),
                            bufmans.bman(version).num_cursors() == orig.bman(version).num_cursors(),
                        bufmans.bman(version).cursor_open(cursor as int),
                            bufmans.bman(version).cursor_pos(cursor as int) == bufmans.bman(
                                version,
                            ).bytes().len(),
                    {
                        bufmans.write_u8_with_cursor(version, cursor, chunk[j]);
                        proof {
                            assert(chunk@.take(j + 1) =~= chunk@.take(j as int).push(
                                chunk@[j as int],
                            ));
                            assert(bufmans.bman(version).bytes() =~= chead + chunk@.take(j + 1));
                        }
                    }
                    proof {
                        assert(chunk@.take(m as int) =~= chunk@);
                        assert(chunks.take(i + 1) =~= chunks.take(i as int).push(
                            chunks[i as int],
                        ));
                        lemma_chunks_bytes_snoc(chunks.take(i as int), chunks[i as int]);
                        assert(bufmans.bman(version).bytes() =~= head + chunks_bytes(
                            chunks.take(i + 1),
                        ));
                        lemma_chunks_bytes_split(chunks, i + 1);
                    }
                }
                proof {
                    assert(chunks.take(n as int) =~= chunks);
                    assert(bufmans.bman(version).bytes() =~= orig.bman(version).bytes()
                        + storage_bytes(self@));
                }
            },
            Storage::HalfPrecisionFP { mag, quant_vec } => {
                let ghost head = orig.bman(version).bytes() + seq![2u8] + u32le(*mag) + u32le(
                    quant_vec@.len() as u32,
                );
                bufmans.write_u8_with_cursor(version, cursor, 2);
                bufmans.write_u32_with_cursor(version, cursor, *mag);
                bufmans.write_u32_with_cursor(version, cursor, quant_vec.len() as u32);
                proof {
                    assert(bufmans.bman(version).bytes() =~= head);
                    assert(quant_vec@.take(0) =~= Seq::<u16>::empty());
                    lemma_halves_bytes_split(quant_vec@, 0);
                }
                let n: usize = quant_vec.len();
                for i in 0..n
                    invariant
                        n == quant_vec@.len(),
                        orig.wf(),
                        orig.has_version(version),
                        bufmans.wf(),
                        bufmans.has_version(version),
                        BufferManagerFactory::others_unchanged(orig, *bufmans, version),
                        head.len() == orig_len + 9,
                        orig_len + total < 0x1_0000_0000,
                        total == 9 + halves_bytes(quant_vec@).len(),
                        bufmans.bman(version).bytes() == head + halves_bytes(
                            quant_vec@.take(i as int),
                        ),
                        halves_bytes(quant_vec@.take(i as int)).len() <= halves_bytes(
                            quant_vec@,
                        ).len(),
                        bufmans.bman(version).num_cursors() == orig.bman(version).num_cursors(),
                        bufmans.bman(version).cursor_open(cursor as int),
                        bufmans.bman(version).cursor_pos(cursor as int) == bufmans.bman(
                            version,
                        ).bytes().len(),
                {
                    proof {
                        lemma_halves_bytes_split(quant_vec@, i as int);
                        assert(quant_vec@.skip(i as int)[0] == quant_vec@[i as int]);
                        assert(quant_vec@.skip(i as int).drop_first() =~= quant_vec@.skip(i + 1));
                        assert(halves_bytes(quant_vec@.skip(i as int)) == u16le(
                            quant_vec@[i as int],
                        ) + halves_bytes(quant_vec@.skip(i + 1)));
                    }
                    bufmans.write_u16_with_cursor(version, cursor, quant_vec[i]);
                    proof {
                        assert(quant_vec@.take(i + 1) =~= quant_vec@.take(i as int).push(
                            quant_vec@[i as int],
                        ));
                        lemma_halves_bytes_snoc(quant_vec@.take(i as int), quant_vec@[i as int]);
                        assert(bufmans.bman(version).bytes() =~= head + halves_bytes(
                            quant_vec@.take(i + 1),
                        ));
                        lemma_halves_bytes_split(quant_vec@, i + 1);
                    }
                }
                proof {
                    assert(quant_vec@.take(n as int) =~= quant_vec@);
                    assert(bufmans.bman(version).bytes() =~= orig.bman(version).bytes()
                        + storage_bytes(self@));
                }
            },
        }

        Ok(start as u32)
    }
}

impl Storage {
    /// Reads one record back from the buffer and offset that `file_index`
    /// names. An invalid index is rejected as invalid input, an unknown
    /// discriminator as invalid data, and a truncated record as an
    /// unexpected end of the buffer.
    pub fn deserialize(bufmans: &mut BufferManagerFactory, file_index: FileIndex) -> (r: Result<
        Storage,
        BufIoError,
    >)
        requires
            old(bufmans).wf(),
            match file_index {
                FileIndex::Invalid => true,
                FileIndex::Valid { offset, version_id } => old(bufmans).has_version(version_id)
                    ==> old(bufmans).bman(version_id).num_cursors() < 0xFFFF_FFFF,
            },
        ensures
            final(bufmans).wf(),
            match file_index {
                FileIndex::Invalid => r == Err::<Storage, BufIoError>(BufIoError::InvalidInput)
                    && *final(bufmans) == *old(bufmans),
                FileIndex::Valid { offset, version_id } => {
                    &&& final(bufmans).has_version(version_id)
                    &&& BufferManagerFactory::others_unchanged(
                        *old(bufmans),
                        *final(bufmans),
                        version_id,
                    )
                    &&& final(bufmans).bman(version_id).bytes() == (if old(bufmans).has_version(
                        version_id,
                    ) {
                        old(bufmans).bman(version_id).bytes()
                    } else {
                        Seq::<u8>::empty()
                    })
                    &&& final(bufmans).bman(version_id).num_cursors() == (if old(
                        bufmans,
                    ).has_version(version_id) {
                        old(bufmans).bman(version_id).num_cursors() + 1
                    } else {
                        1int
                    })
                    &&& !final(bufmans).bman(version_id).cursor_open(
                        final(bufmans).bman(version_id).num_cursors() - 1,
                    )
                    &&& ({
                        let b = final(bufmans).bman(version_id).bytes();
                        match r {
                            Ok(s) => parse_storage(b, offset as int) matches Some(pr) && pr.0
                                == s@ && storage_wf(s@),
                            Err(e) => parse_storage(b, offset as int) is None && e
                                == storage_parse_err(b, offset as int),
                        }
                    })
                },
            },
    {
        match file_index {
            FileIndex::Invalid => Err(BufIoError::InvalidInput),
            FileIndex::Valid { offset, version_id } => {
                bufmans.get(version_id);
                let ghost b = bufmans.bman(version_id).bytes();
                let blen: usize = bufmans.buffer_len(version_id);
                let cursor: u64 = bufmans.open_cursor(version_id);
                if (offset as u64) > blen as u64 {
                    bufmans.close_cursor(version_id, cursor);
                    return Err(BufIoError::UnexpectedEof);
                }
                bufmans.seek_with_cursor(version_id, cursor, offset as u64);
                let tag: u8 = match bufmans.read_u8_with_cursor(version_id, cursor) {
                    Ok(t) => t,
                    Err(e) => {
                        bufmans.close_cursor(version_id, cursor);
                        return Err(e);
                    },
                };
                let ghost p1 = offset as int + 1;
                let storage: Storage = if tag == 0 {
                    let mag: u32 = match bufmans.read_u32_with_cursor(version_id, cursor) {
                        Ok(v) => v,
                        Err(e) => {
                            bufmans.close_cursor(version_id, cursor);
                            return Err(e);
                        },
                    };
                    let len: u32 = match bufmans.read_u32_with_cursor(version_id, cursor) {
                        Ok(v) => v,
                        Err(e) => {
                            bufmans.close_cursor(version_id, cursor);
                            return Err(e);
                        },
                    };
                    let ghost p3 = offset as int + 9;
                    let n: usize = len as usize;
                    let mut quant_vec: Vec<u8> = Vec::new();
                    proof {
                        assert(b.subrange(p3, p3) =~= Seq::<u8>::empty());
                    }
                    for i in 0..n
                        invariant
                            n == len,
                            file_index == (FileIndex::Valid { offset, version_id }),
                            bufmans.wf(),
                            bufmans.has_version(version_id),
                            bufmans.bman(version_id).bytes() == b,
                            b == (if old(bufmans).has_version(version_id) {
                                old(bufmans).bman(version_id).bytes()
                            } else {
                                Seq::<u8>::empty()
                            }),
                            BufferManagerFactory::others_unchanged(
                                *old(bufmans),
                                *bufmans,
                                version_id,
                            ),
                            bufmans.bman(version_id).cursor_open(cursor as int),
                            bufmans.bman(version_id).num_cursors() == (if old(
                                bufmans,
                            ).has_version(version_id) {
                                old(bufmans).bman(version_id).num_cursors() + 1
                            } else {
                                1int
                            }),
                            cursor as int == bufmans.bman(version_id).num_cursors() - 1,
                            bufmans.bman(version_id).cursor_pos(cursor as int) == p3 + i,
                            0 <= p3,
                            p3 + i <= b.len(),
                            quant_vec@ == b.subrange(p3, p3 + i),
                            parse_u8(b, offset as int) == Some((0u8, p1)),
                            parse_u32p(b, p1) == Some((mag, p1 + 4)),
                            parse_u32p(b, p1 + 4) == Some((len, p3)),
                    {
                        let el: u8 = match bufmans.read_u8_with_cursor(version_id, cursor) {
                            Ok(v) => v,
                            Err(e) => {
                                proof {
                                    assert(p3 + i >= b.len());
                                    assert(parse_bytes(b, p3, len as int) is None);
                                }
                                bufmans.close_cursor(version_id, cursor);
                                return Err(e);
                            },
                        };
                        quant_vec.push(el);
                        proof {
                            assert(quant_vec@ =~= b.subrange(p3, p3 + i + 1));
                        }
                    }
                    proof {
                        assert(parse_bytes(b, p3, len as int) == Some((quant_vec@, p3 + n)));
                    }
                    Storage::UnsignedByte { mag, quant_vec }
                } else if tag == 1 {
                    let resolution: u8 = match bufmans.read_u8_with_cursor(version_id, cursor) {
                        Ok(v) => v,
                        Err(e) => {
                            bufmans.close_cursor(version_id, cursor);
                            return Err(e);
                        },
                    };
                    let mag: u32 = match bufmans.read_u32_with_cursor(version_id, cursor) {
                        Ok(v) => v,
                        Err(e) => {
                            bufmans.close_cursor(version_id, cursor);
                            return Err(e);
                        },
                    };
                    let outer: u32 = match bufmans.read_u32_with_cursor(version_id, cursor) {
                        Ok(v) => v,
                        Err(e) => {
                            bufmans.close_cursor(version_id, cursor);
                            return Err(e);
                        },
                    };
                    let ghost p4 = offset as int + 10;
                    let n: usize = outer as usize;
                    let mut quant_vec: Vec<Vec<u8>> = Vec::new();
                    proof {
                        assert(quant_vec@.map_values(|v: Vec<u8>| v@) =~= Seq::<Seq<u8>>::empty());
                    }
                    for i in 0..n
                        invariant
                            n == outer,
                            file_index == (FileIndex::Valid { offset, version_id }),
                            bufmans.wf(),
                            bufmans.has_version(version_id),
                            bufmans.bman(version_id).bytes() == b,
                            b == (if old(bufmans).has_version(version_id) {
                                old(bufmans).bman(version_id).bytes()
                            } else {
                                Seq::<u8>::empty()
                            }),
                            BufferManagerFactory::others_unchanged(
                                *old(bufmans),
                                *bufmans,
                                version_id,
                            ),
                            bufmans.bman(version_id).cursor_open(cursor as int),
                            bufmans.bman(version_id).num_cursors() == (if old(
                                bufmans,
                            ).has_version(version_id) {
                                old(bufmans).bman(version_id).num_cursors() + 1
                            } else {
                                1int
                            }),
                            cursor as int == bufmans.bman(version_id).num_cursors() - 1,
                            0 <= bufmans.bman(version_id).cursor_pos(cursor as int) <= b.len(),
                            0 <= p4,
                            parse_u8(b, offset as int) == Some((1u8, p1)),
                            parse_u8(b, p1) == Some((resolution, p1 + 1)),
                            parse_u32p(b, p1 + 1) == Some((mag, p1 + 5)),
                            parse_u32p(b, p1 + 5) == Some((outer, p4)),
                            parse_chunks(b, p4, i as int) == Some(
                                (
                                    quant_vec@.map_values(|v: Vec<u8>| v@),
                                    bufmans.bman(version_id).cursor_pos(cursor as int) as int,
                                ),
                            ),
                            quant_vec@.len() == i,
                            forall|k: int|
                                0 <= k < quant_vec@.len() ==> (#[trigger] quant_vec@[k])@.len()
                                    <= 0xFFFF_FFFF,
                    {
                        let ghost q0 = bufmans.bman(version_id).cursor_pos(cursor as int) as int;
                        let inner_len: u32 = match bufmans.read_u32_with_cursor(
                            version_id,
                            cursor,
                        ) {
                            Ok(v) => v,
                            Err(e) => {
                                proof {
                                    assert(parse_chunk(b, q0) is None);
                                    lemma_parse_chunks_fail(b, p4, i as int, outer as int);
                                }
                                bufmans.close_cursor(version_id, cursor);
                                return Err(e);
                            },
                        };
                        let ghost q1 = q0 + 4;
                        let m: usize = inner_len as usize;
                        let mut chunk: Vec<u8> = Vec::new();
                        proof {
                            assert(b.subrange(q1, q1) =~= Seq::<u8>::empty());
                        }
                        for j in 0..m
                            invariant
                                m == inner_len,
                                file_index == (FileIndex::Valid { offset, version_id }),
                                bufmans.wf(),
                                bufmans.has_version(version_id),
                                bufmans.bman(version_id).bytes() == b,
                                b == (if old(bufmans).has_version(version_id) {
                                    old(bufmans).bman(version_id).bytes()
                                } else {
                                    Seq::<u8>::empty()
                                }),
                                BufferManagerFactory::others_unchanged(
                                    *old(bufmans),
                                    *bufmans,
                                    version_id,
                                ),
                                bufmans.bman(version_id).cursor_open(cursor as int),
                                bufmans.bman(version_id).num_cursors() == (if old(
                                    bufmans,
                                ).has_version(version_id) {
                                    old(bufmans).bman(version_id).num_cursors() + 1
                                } else {
                                    1int
                                }),
                                cursor as int == bufmans.bman(version_id).num_cursors() - 1,
                            bufmans.bman(version_id).num_cursors() == (if old(
                                bufmans,
                            ).has_version(version_id) {
                                old(bufmans).bman(version_id).num_cursors() + 1
                            } else {
                                1int
                            }),
                            cursor as int == bufmans.bman(version_id).num_cursors() - 1,
                                bufmans.bman(version_id).cursor_pos(cursor as int) == q1 + j,
                                0 <= q1,
                                q1 + j <= b.len(),
                                chunk@ == b.subrange(q1, q1 + j),
                                parse_u32p(b, q0) == Some((inner_len, q1)),
                                n == outer,
                                i < n,
                                0 <= p4,
                                parse_u8(b, offset as int) == Some((1u8, p1)),
                                parse_u8(b, p1) == Some((resolution, p1 + 1)),
                                parse_u32p(b, p1 + 1) == Some((mag, p1 + 5)),
                                parse_u32p(b, p1 + 5) == Some((outer, p4)),
                                parse_chunks(b, p4, i as int) == Some(
                                    (quant_vec@.map_values(|v: Vec<u8>| v@), q0),
                                ),
                        {
                            let el: u8 = match bufmans.read_u8_with_cursor(version_id, cursor) {
                                Ok(v) => v,
                                Err(e) => {
                                    proof {
                                        assert(q1 + j >= b.len());
                                        assert(parse_bytes(b, q1, inner_len as int) is None);
                                        assert(parse_chunk(b, q0) is None);
                                        lemma_parse_chunks_fail(b, p4, i as int, outer as int);
                                    }
                                    bufmans.close_cursor(version_id, cursor);
                                    return Err(e);
                                },
                            };
                            chunk.push(el);
                            proof {
                                assert(chunk@ =~= b.subrange(q1, q1 + j + 1));
                            }
                        }
                        proof {
                            assert(parse_bytes(b, q1, inner_len as int) == Some(
                                (chunk@, q1 + m),
                            ));
                            assert(parse_chunk(b, q0) == Some((chunk@, q1 + m)));
                            lemma_parse_chunks_step(b, p4, i as int);
                        }
                        quant_vec.push(chunk);
                        proof {
                            assert(quant_vec@.map_values(|v: Vec<u8>| v@) =~= quant_vec@.map_values(
                                |v: Vec<u8>| v@,
                            ));
                            let ghost prev = quant_vec@.take(quant_vec@.len() - 1);
                            assert(quant_vec@.map_values(|v: Vec<u8>| v@) =~= prev.map_values(
                                |v: Vec<u8>| v@,
                            ).push(chunk@));
                            assert(prev =~= quant_vec@.drop_last());
                        }
                    }
                    Storage::SubByte { mag, quant_vec, resolution }
                } else if tag == 2 {
                    let mag: u32 = match bufmans.read_u32_with_cursor(version_id, cursor) {
                        Ok(v) => v,
                        Err(e) => {
                            bufmans.close_cursor(version_id, cursor);
                            return Err(e);
                        },
                    };
                    let len: u32 = match bufmans.read_u32_with_cursor(version_id, cursor) {
                        Ok(v) => v,
                        Err(e) => {
                            bufmans.close_cursor(version_id, cursor);
                            return Err(e);
                        },
                    };
                    let ghost p3 = offset as int + 9;
                    let n: usize = len as usize;
                    let mut quant_vec: Vec<u16> = Vec::new();
                    proof {
                        assert(quant_vec@ =~= Seq::<u16>::empty());
                    }
                    for i in 0..n
                        invariant
                            n == len,
                            file_index == (FileIndex::Valid { offset, version_id }),
                            bufmans.wf(),
                            bufmans.has_version(version_id),
                            bufmans.bman(version_id).bytes() == b,
                            b == (if old(bufmans).has_version(version_id) {
                                old(bufmans).bman(version_id).bytes()
                            } else {
                                Seq::<u8>::empty()
                            }),
                            BufferManagerFactory::others_unchanged(
                                *old(bufmans),
                                *bufmans,
                                version_id,
                            ),
                            bufmans.bman(version_id).cursor_open(cursor as int),
                            bufmans.bman(version_id).num_cursors() == (if old(
                                bufmans,
                            ).has_version(version_id) {
                                old(bufmans).bman(version_id).num_cursors() + 1
                            } else {
                                1int
                            }),
                            cursor as int == bufmans.bman(version_id).num_cursors() - 1,
                            0 <= bufmans.bman(version_id).cursor_pos(cursor as int) <= b.len(),
                            0 <= p3,
                            parse_u8(b, offset as int) == Some((2u8, p1)),
                            parse_u32p(b, p1) == Some((mag, p1 + 4)),
                            parse_u32p(b, p1 + 4) == Some((len, p3)),
                            parse_halves(b, p3, i as int) == Some(
                                (
                                    quant_vec@,
                                    bufmans.bman(version_id).cursor_pos(cursor as int) as int,
                                ),
                            ),
                            quant_vec@.len() == i,
                    {
                        let ghost q0 = bufmans.bman(version_id).cursor_pos(cursor as int) as int;
                        let el: u16 = match bufmans.read_u16_with_cursor(version_id, cursor) {
                            Ok(v) => v,
                            Err(e) => {
                                proof {
                                    assert(parse_u16p(b, q0) is None);
                                    lemma_parse_halves_fail(b, p3, i as int, len as int);
                                }
                                bufmans.close_cursor(version_id, cursor);
                                return Err(e);
                            },
                        };
                        proof {
                            lemma_parse_halves_step(b, p3, i as int);
                        }
                        quant_vec.push(el);
                    }
                    Storage::HalfPrecisionFP { mag, quant_vec }
                } else {
                    bufmans.close_cursor(version_id, cursor);
                    return Err(BufIoError::InvalidData);
                };
                bufmans.close_cursor(version_id, cursor);
                Ok(storage)
            },
        }
    }
}

/// One byte at `p`, with the position after it.
pub open spec fn parse_u8(b: Seq<u8>, p: int) -> Option<(u8, int)> {
    if 0 <= p && p + 1 <= b.len() {
        Some((b[p], p + 1))
    } else {
        None
    }
}

/// A little-endian 16-bit word at `p`.
pub open spec fn parse_u16p(b: Seq<u8>, p: int) -> Option<(u16, int)> {
    if 0 <= p && p + 2 <= b.len() {
        Some((crate::buffered_io::le16(b[p], b[p + 1]), p + 2))
    } else {
        None
    }
}

/// A little-endian 32-bit word at `p`.
pub open spec fn parse_u32p(b: Seq<u8>, p: int) -> Option<(u32, int)> {
    if 0 <= p && p + 4 <= b.len() {
        Some((crate::buffered_io::le32(b[p], b[p + 1], b[p + 2], b[p + 3]), p + 4))
    } else {
        None
    }
}

/// `n` raw bytes at `p`.
pub open spec fn parse_bytes(b: Seq<u8>, p: int, n: int) -> Option<(Seq<u8>, int)> {
    if 0 <= p && 0 <= n && p + n <= b.len() {
        Some((b.subrange(p, p + n), p + n))
    } else {
        None
    }
}

/// `n` consecutive little-endian 16-bit words at `p`.
pub open spec fn parse_halves(b: Seq<u8>, p: int, n: int) -> Option<(Seq<u16>, int)>
    decreases n,
{
    if n <= 0 {
        Some((Seq::<u16>::empty(), p))
    } else {
        match parse_u16p(b, p) {
            None => None,
            Some((v, p1)) => match parse_halves(b, p1, n - 1) {
                None => None,
                Some((vs, p2)) => Some((seq![v] + vs, p2)),
            },
        }
    }
}

/// One length-prefixed chunk at `p`.
pub open spec fn parse_chunk(b: Seq<u8>, p: int) -> Option<(Seq<u8>, int)> {
    match parse_u32p(b, p) {
        None => None,
        Some((len, p1)) => parse_bytes(b, p1, len as int),
    }
}

/// `n` consecutive length-prefixed chunks at `p`.
pub open spec fn parse_chunks(b: Seq<u8>, p: int, n: int) -> Option<(Seq<Seq<u8>>, int)>
    decreases n,
{
    if n <= 0 {
        Some((Seq::<Seq<u8>>::empty(), p))
    } else {
        match parse_chunk(b, p) {
            None => None,
            Some((c, p1)) => match parse_chunks(b, p1, n - 1) {
                None => None,
                Some((cs, p2)) => Some((seq![c] + cs, p2)),
            },
        }
    }
}

/// One payload record at `p`: the parsed value and the position after it,
/// or nothing when the bytes at `p` are no record.
pub open spec fn parse_storage(b: Seq<u8>, p: int) -> Option<(StorageView, int)> {
    match parse_u8(b, p) {
        None => None,
        Some((tag, p1)) => if tag == 0 {
            match parse_u32p(b, p1) {
                None => None,
                Some((mag, p2)) => match parse_u32p(b, p2) {
                    None => None,
                    Some((len, p3)) => match parse_bytes(b, p3, len as int) {
                        None => None,
                        Some((qv, p4)) => Some(
                            (StorageView::UnsignedByte { mag, quant_vec: qv }, p4),
                        ),
                    },
                },
            }
        } else if tag == 1 {
            match parse_u8(b, p1) {
                None => None,
                Some((resolution, p2)) => match parse_u32p(b, p2) {
                    None => None,
                    Some((mag, p3)) => match parse_u32p(b, p3) {
                        None => None,
                        Some((outer, p4)) => match parse_chunks(b, p4, outer as int) {
                            None => None,
                            Some((qv, p5)) => Some(
                                (StorageView::SubByte { mag, quant_vec: qv, resolution }, p5),
                            ),
                        },
                    },
                },
            }
        } else if tag == 2 {
            match parse_u32p(b, p1) {
                None => None,
                Some((mag, p2)) => match parse_u32p(b, p2) {
                    None => None,
                    Some((len, p3)) => match parse_halves(b, p3, len as int) {
                        None => None,
                        Some((qv, p4)) => Some(
                            (StorageView::HalfPrecisionFP { mag, quant_vec: qv }, p4),
                        ),
                    },
                },
            }
        } else {
            None
        },
    }
}

/// The error a failed record decode reports: an unknown discriminator is
/// invalid data, anything else ran out of bytes.
pub open spec fn storage_parse_err(b: Seq<u8>, p: int) -> BufIoError {
    match parse_u8(b, p) {
        None => BufIoError::UnexpectedEof,
        Some((tag, _)) => if tag == 0 || tag == 1 || tag == 2 {
            BufIoError::UnexpectedEof
        } else {
            BufIoError::InvalidData
        },
    }
}

pub proof fn lemma_parse_halves_step(b: Seq<u8>, p0: int, i: int)
    requires
        i >= 0,
        parse_halves(b, p0, i) is Some,
        parse_u16p(b, parse_halves(b, p0, i).unwrap().1) is Some,
    ensures
        parse_halves(b, p0, i + 1) == Some(
            (
                parse_halves(b, p0, i).unwrap().0.push(
                    parse_u16p(b, parse_halves(b, p0, i).unwrap().1).unwrap().0,
                ),
                parse_u16p(b, parse_halves(b, p0, i).unwrap().1).unwrap().1,
            ),
        ),
    decreases i,
{
    let q = parse_halves(b, p0, i).unwrap().1;
    let v = parse_u16p(b, q).unwrap().0;
    let q2 = parse_u16p(b, q).unwrap().1;
    if i == 0 {
        assert(q == p0);
        assert(seq![v] + Seq::<u16>::empty() =~= Seq::<u16>::empty().push(v));
        assert(parse_halves(b, q2, 0) == Some((Seq::<u16>::empty(), q2)));
        assert(parse_halves(b, p0, 1) == Some((seq![v] + Seq::<u16>::empty(), q2)));
    } else {
        assert(parse_u16p(b, p0) is Some);
        let (v0, p1) = parse_u16p(b, p0).unwrap();
        assert(parse_halves(b, p1, i - 1) is Some);
        let (tail, qr) = parse_halves(b, p1, i - 1).unwrap();
        assert(qr == q);
        assert(parse_halves(b, p0, i).unwrap().0 == seq![v0] + tail);
        lemma_parse_halves_step(b, p1, i - 1);
        assert(parse_halves(b, p1, i) == Some((tail.push(v), q2)));
        assert(parse_halves(b, p0, i + 1) == Some((seq![v0] + tail.push(v), q2)));
        assert(seq![v0] + tail.push(v) =~= (seq![v0] + tail).push(v));
    }
}

pub proof fn lemma_parse_halves_fail(b: Seq<u8>, p0: int, i: int, n: int)
    requires
        0 <= i < n,
        parse_halves(b, p0, i) is Some,
        parse_u16p(b, parse_halves(b, p0, i).unwrap().1) is None,
    ensures
        parse_halves(b, p0, n) is None,
    decreases i,
{
    if i > 0 {
        let p1 = parse_u16p(b, p0).unwrap().1;
        lemma_parse_halves_fail(b, p1, i - 1, n - 1);
    }
}

pub proof fn lemma_parse_chunks_step(b: Seq<u8>, p0: int, i: int)
    requires
        i >= 0,
        parse_chunks(b, p0, i) is Some,
        parse_chunk(b, parse_chunks(b, p0, i).unwrap().1) is Some,
    ensures
        parse_chunks(b, p0, i + 1) == Some(
            (
                parse_chunks(b, p0, i).unwrap().0.push(
                    parse_chunk(b, parse_chunks(b, p0, i).unwrap().1).unwrap().0,
                ),
                parse_chunk(b, parse_chunks(b, p0, i).unwrap().1).unwrap().1,
            ),
        ),
    decreases i,
{
    let q = parse_chunks(b, p0, i).unwrap().1;
    let v = parse_chunk(b, q).unwrap().0;
    let q2 = parse_chunk(b, q).unwrap().1;
    if i == 0 {
        assert(q == p0);
        assert(seq![v] + Seq::<Seq<u8>>::empty() =~= Seq::<Seq<u8>>::empty().push(v));
        assert(parse_chunks(b, q2, 0) == Some((Seq::<Seq<u8>>::empty(), q2)));
        assert(parse_chunks(b, p0, 1) == Some((seq![v] + Seq::<Seq<u8>>::empty(), q2)));
    } else {
        assert(parse_chunk(b, p0) is Some);
        let (v0, p1) = parse_chunk(b, p0).unwrap();
        assert(parse_chunks(b, p1, i - 1) is Some);
        let (tail, qr) = parse_chunks(b, p1, i - 1).unwrap();
        assert(qr == q);
        assert(parse_chunks(b, p0, i).unwrap().0 == seq![v0] + tail);
        lemma_parse_chunks_step(b, p1, i - 1);
        assert(parse_chunks(b, p1, i) == Some((tail.push(v), q2)));
        assert(parse_chunks(b, p0, i + 1) == Some((seq![v0] + tail.push(v), q2)));
        assert(seq![v0] + tail.push(v) =~= (seq![v0] + tail).push(v));
    }
}

pub proof fn lemma_parse_chunks_fail(b: Seq<u8>, p0: int, i: int, n: int)
    requires
        0 <= i < n,
        parse_chunks(b, p0, i) is Some,
        parse_chunk(b, parse_chunks(b, p0, i).unwrap().1) is None,
    ensures
        parse_chunks(b, p0, n) is None,
    decreases i,
{
    if i > 0 {
        let p1 = parse_chunk(b, p0).unwrap().1;
        lemma_parse_chunks_fail(b, p1, i - 1, n - 1);
    }
}

proof fn lemma_parse_halves_of_bytes(hs: Seq<u16>, b: Seq<u8>, p: int)
    requires
        0 <= p,
        p + halves_bytes(hs).len() <= b.len(),
        b.subrange(p, p + halves_bytes(hs).len()) == halves_bytes(hs),
    ensures
        parse_halves(b, p, hs.len() as int) == Some((hs, p + halves_bytes(hs).len())),
    decreases hs.len(),
{
    if hs.len() > 0 {
        let hb = halves_bytes(hs);
        let tail = halves_bytes(hs.drop_first());
        assert(hb == u16le(hs[0]) + tail);
        assert(hb.len() == 2 + tail.len());
        assert(b[p] == b.subrange(p, p + hb.len())[0]);
        assert(b[p + 1] == b.subrange(p, p + hb.len())[1]);
        assert(hb[0] == u16_b0(hs[0]));
        assert(hb[1] == u16_b1(hs[0]));
        crate::buffered_io::lemma_le16_roundtrip(hs[0]);
        assert(parse_u16p(b, p) == Some((hs[0], p + 2)));
        assert(b.subrange(p + 2, p + 2 + tail.len()) =~= b.subrange(p, p + hb.len()).subrange(
            2,
            hb.len() as int,
        ));
        assert(b.subrange(p + 2, p + 2 + tail.len()) =~= tail);
        lemma_parse_halves_of_bytes(hs.drop_first(), b, p + 2);
        assert(seq![hs[0]] + hs.drop_first() =~= hs);
    }
}

proof fn lemma_parse_chunks_of_bytes(cs: Seq<Seq<u8>>, b: Seq<u8>, p: int)
    requires
        0 <= p,
        forall|i: int| 0 <= i < cs.len() ==> (#[trigger] cs[i]).len() <= 0xFFFF_FFFF,
        p + chunks_bytes(cs).len() <= b.len(),
        b.subrange(p, p + chunks_bytes(cs).len()) == chunks_bytes(cs),
    ensures
        parse_chunks(b, p, cs.len() as int) == Some((cs, p + chunks_bytes(cs).len())),
    decreases cs.len(),
{
    if cs.len() > 0 {
        let cb = chunks_bytes(cs);
        let c0 = cs[0];
        let m = c0.len() as int;
        let tail = chunks_bytes(cs.drop_first());
        assert(cb == u32le(c0.len() as u32) + c0 + tail);
        assert(cb.len() == 4 + m + tail.len());
        assert(b[p] == b.subrange(p, p + cb.len())[0]);
        assert(b[p + 1] == b.subrange(p, p + cb.len())[1]);
        assert(b[p + 2] == b.subrange(p, p + cb.len())[2]);
        assert(b[p + 3] == b.subrange(p, p + cb.len())[3]);
        assert(cb[0] == crate::buffered_io::u32_b0(c0.len() as u32));
        assert(cb[1] == crate::buffered_io::u32_b1(c0.len() as u32));
        assert(cb[2] == crate::buffered_io::u32_b2(c0.len() as u32));
        assert(cb[3] == crate::buffered_io::u32_b3(c0.len() as u32));
        crate::buffered_io::lemma_le32_roundtrip(c0.len() as u32);
        assert(parse_u32p(b, p) == Some((c0.len() as u32, p + 4)));
        assert(b.subrange(p + 4, p + 4 + m) =~= b.subrange(p, p + cb.len()).subrange(4, 4 + m));
        assert(b.subrange(p + 4, p + 4 + m) =~= c0);
        assert(parse_bytes(b, p + 4, m) == Some((c0, p + 4 + m)));
        assert(parse_chunk(b, p) == Some((c0, p + 4 + m)));
        assert(b.subrange(p + 4 + m, p + 4 + m + tail.len()) =~= b.subrange(
            p,
            p + cb.len(),
        ).subrange(4 + m, cb.len() as int));
        assert(b.subrange(p + 4 + m, p + 4 + m + tail.len()) =~= tail);
        assert(forall|i: int|
            0 <= i < cs.drop_first().len() ==> (#[trigger] cs.drop_first()[i]).len()
                <= 0xFFFF_FFFF);
        lemma_parse_chunks_of_bytes(cs.drop_first(), b, p + 4 + m);
        assert(seq![c0] + cs.drop_first() =~= cs);
    }
}

proof fn lemma_parse_storage_at_u8(mag: u32, quant_vec: Seq<u8>, b: Seq<u8>, p: int)
    requires
        storage_wf(StorageView::UnsignedByte { mag, quant_vec }),
        0 <= p,
        p + storage_bytes(StorageView::UnsignedByte { mag, quant_vec }).len() <= b.len(),
        b.subrange(p, p + storage_bytes(StorageView::UnsignedByte { mag, quant_vec }).len() as int)
            == storage_bytes(StorageView::UnsignedByte { mag, quant_vec }),
    ensures
        parse_storage(b, p) == Some(
            (
                StorageView::UnsignedByte { mag, quant_vec },
                p + storage_bytes(StorageView::UnsignedByte { mag, quant_vec }).len() as int,
            ),
        ),
{
    let s = StorageView::UnsignedByte { mag, quant_vec };
    let sb = storage_bytes(s);
    let total = sb.len() as int;
    let n = quant_vec.len() as int;
    assert forall|i: int| 0 <= i < total implies #[trigger] b[p + i] == sb[i] by {
        assert(b.subrange(p, p + total)[i] == b[p + i]);
    }
    assert(sb[0] == 0u8);
    assert(parse_u8(b, p) == Some((0u8, p + 1)));
    assert(sb[1] == crate::buffered_io::u32_b0(mag) && sb[2] == crate::buffered_io::u32_b1(mag)
        && sb[3] == crate::buffered_io::u32_b2(mag) && sb[4] == crate::buffered_io::u32_b3(mag));
    crate::buffered_io::lemma_le32_roundtrip(mag);
    assert(parse_u32p(b, p + 1) == Some((mag, p + 5)));
    assert(sb[5] == crate::buffered_io::u32_b0(n as u32) && sb[6] == crate::buffered_io::u32_b1(
        n as u32,
    ) && sb[7] == crate::buffered_io::u32_b2(n as u32) && sb[8] == crate::buffered_io::u32_b3(
        n as u32,
    ));
    crate::buffered_io::lemma_le32_roundtrip(n as u32);
    assert(parse_u32p(b, p + 5) == Some((n as u32, p + 9)));
    assert forall|i: int| 0 <= i < n implies #[trigger] b.subrange(p + 9, p + 9 + n)[i]
        == quant_vec[i] by {
        assert(b[p + (9 + i)] == sb[9 + i]);
        assert(b.subrange(p + 9, p + 9 + n)[i] == b[p + 9 + i]);
        assert(sb[9 + i] == quant_vec[i]);
    }
    assert(b.subrange(p + 9, p + 9 + n) =~= quant_vec);
    assert(parse_bytes(b, p + 9, n) == Some((quant_vec, p + 9 + n)));
}

proof fn lemma_parse_storage_at_subbyte(
    mag: u32,
    quant_vec: Seq<Seq<u8>>,
    resolution: u8,
    b: Seq<u8>,
    p: int,
)
    requires
        storage_wf(StorageView::SubByte { mag, quant_vec, resolution }),
        0 <= p,
        p + storage_bytes(StorageView::SubByte { mag, quant_vec, resolution }).len() <= b.len(),
        b.subrange(
            p,
            p + storage_bytes(StorageView::SubByte { mag, quant_vec, resolution }).len() as int,
        ) == storage_bytes(StorageView::SubByte { mag, quant_vec, resolution }),
    ensures
        parse_storage(b, p) == Some(
            (
                StorageView::SubByte { mag, quant_vec, resolution },
                p + storage_bytes(StorageView::SubByte { mag, quant_vec, resolution }).len() as int,
            ),
        ),
{
    let s = StorageView::SubByte { mag, quant_vec, resolution };
    let sb = storage_bytes(s);
    let total = sb.len() as int;
    let n = quant_vec.len() as int;
    let cb = chunks_bytes(quant_vec);
    assert forall|i: int| 0 <= i < total implies #[trigger] b[p + i] == sb[i] by {
        assert(b.subrange(p, p + total)[i] == b[p + i]);
    }
    assert(sb[0] == 1u8);
    assert(parse_u8(b, p) == Some((1u8, p + 1)));
    assert(sb[1] == resolution);
    assert(parse_u8(b, p + 1) == Some((resolution, p + 2)));
    assert(sb[2] == crate::buffered_io::u32_b0(mag) && sb[3] == crate::buffered_io::u32_b1(mag)
        && sb[4] == crate::buffered_io::u32_b2(mag) && sb[5] == crate::buffered_io::u32_b3(mag));
    crate::buffered_io::lemma_le32_roundtrip(mag);
    assert(parse_u32p(b, p + 2) == Some((mag, p + 6)));
    assert(sb[6] == crate::buffered_io::u32_b0(n as u32) && sb[7] == crate::buffered_io::u32_b1(
        n as u32,
    ) && sb[8] == crate::buffered_io::u32_b2(n as u32) && sb[9] == crate::buffered_io::u32_b3(
        n as u32,
    ));
    crate::buffered_io::lemma_le32_roundtrip(n as u32);
    assert(parse_u32p(b, p + 6) == Some((n as u32, p + 10)));
    assert forall|i: int| 0 <= i < cb.len() implies #[trigger] b.subrange(
        p + 10,
        p + 10 + cb.len(),
    )[i] == cb[i] by {
        assert(b[p + (10 + i)] == sb[10 + i]);
        assert(b.subrange(p + 10, p + 10 + cb.len())[i] == b[p + 10 + i]);
        assert(sb[10 + i] == cb[i]);
    }
    assert(b.subrange(p + 10, p + 10 + cb.len()) =~= cb);
    lemma_parse_chunks_of_bytes(quant_vec, b, p + 10);
}

proof fn lemma_parse_storage_at_half(mag: u32, quant_vec: Seq<u16>, b: Seq<u8>, p: int)
    requires
        storage_wf(StorageView::HalfPrecisionFP { mag, quant_vec }),
        0 <= p,
        p + storage_bytes(StorageView::HalfPrecisionFP { mag, quant_vec }).len() <= b.len(),
        b.subrange(
            p,
            p + storage_bytes(StorageView::HalfPrecisionFP { mag, quant_vec }).len() as int,
        ) == storage_bytes(StorageView::HalfPrecisionFP { mag, quant_vec }),
    ensures
        parse_storage(b, p) == Some(
            (
                StorageView::HalfPrecisionFP { mag, quant_vec },
                p + storage_bytes(StorageView::HalfPrecisionFP { mag, quant_vec }).len() as int,
            ),
        ),
{
    let s = StorageView::HalfPrecisionFP { mag, quant_vec };
    let sb = storage_bytes(s);
    let total = sb.len() as int;
    let n = quant_vec.len() as int;
    let hb = halves_bytes(quant_vec);
    assert forall|i: int| 0 <= i < total implies #[trigger] b[p + i] == sb[i] by {
        assert(b.subrange(p, p + total)[i] == b[p + i]);
    }
    assert(sb[0] == 2u8);
    assert(parse_u8(b, p) == Some((2u8, p + 1)));
    assert(sb[1] == crate::buffered_io::u32_b0(mag) && sb[2] == crate::buffered_io::u32_b1(mag)
        && sb[3] == crate::buffered_io::u32_b2(mag) && sb[4] == crate::buffered_io::u32_b3(mag));
    crate::buffered_io::lemma_le32_roundtrip(mag);
    assert(parse_u32p(b, p + 1) == Some((mag, p + 5)));
    assert(sb[5] == crate::buffered_io::u32_b0(n as u32) && sb[6] == crate::buffered_io::u32_b1(
        n as u32,
    ) && sb[7] == crate::buffered_io::u32_b2(n as u32) && sb[8] == crate::buffered_io::u32_b3(
        n as u32,
    ));
    crate::buffered_io::lemma_le32_roundtrip(n as u32);
    assert(parse_u32p(b, p + 5) == Some((n as u32, p + 9)));
    assert forall|i: int| 0 <= i < hb.len() implies #[trigger] b.subrange(
        p + 9,
        p + 9 + hb.len(),
    )[i] == hb[i] by {
        assert(b[p + (9 + i)] == sb[9 + i]);
        assert(b.subrange(p + 9, p + 9 + hb.len())[i] == b[p + 9 + i]);
        assert(sb[9 + i] == hb[i]);
    }
    assert(b.subrange(p + 9, p + 9 + hb.len()) =~= hb);
    lemma_parse_halves_of_bytes(quant_vec, b, p + 9);
}

/// Round trip of the wire format: wherever a buffer holds the encoding of a
/// well-formed payload, parsing at the start of that encoding yields the
/// payload back, so a record written by `serialize` is read back by
/// `deserialize` as an equal value.
pub proof fn lemma_storage_round_trip(s: StorageView, pre: Seq<u8>, post: Seq<u8>)
    requires
        storage_wf(s),
    ensures
        parse_storage(pre + storage_bytes(s) + post, pre.len() as int) == Some(
            (s, pre.len() as int + storage_bytes(s).len() as int),
        ),
{
    let b = pre + storage_bytes(s) + post;
    let p = pre.len() as int;
    let total = storage_bytes(s).len() as int;
    assert(b.subrange(p, p + total) =~= storage_bytes(s));
    match s {
        StorageView::UnsignedByte { mag, quant_vec } => {
            lemma_parse_storage_at_u8(mag, quant_vec, b, p);
        },
        StorageView::SubByte { mag, quant_vec, resolution } => {
            lemma_parse_storage_at_subbyte(mag, quant_vec, resolution, b, p);
        },
        StorageView::HalfPrecisionFP { mag, quant_vec } => {
            lemma_parse_storage_at_half(mag, quant_vec, b, p);
        },
    }
}

} // verus!
