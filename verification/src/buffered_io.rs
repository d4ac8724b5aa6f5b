//! In-memory buffer management: one append-style byte buffer per version,
//! each with a pool of independent cursors offering little-endian typed
//! reads and writes. Durable storage of whole buffers is left to the caller.

use vstd::prelude::*;

verus! {

/// Failures of buffered reads and of record decoding.
#[derive(Clone, Copy, Debug, PartialEq, Eq, Structural)]
pub enum BufIoError {
    /// A record was addressed through an invalid file index.
    InvalidInput,
    /// A record held an unknown discriminator.
    InvalidData,
    /// A read ran past the end of the buffer.
    UnexpectedEof,
}

/// Little-endian byte decompositions of a 32-bit word.
pub open spec fn u32_b0(v: u32) -> u8 {
    (v & 0xFF) as u8
}

pub open spec fn u32_b1(v: u32) -> u8 {
    ((v >> 8) & 0xFF) as u8
}

pub open spec fn u32_b2(v: u32) -> u8 {
    ((v >> 16) & 0xFF) as u8
}

pub open spec fn u32_b3(v: u32) -> u8 {
    ((v >> 24) & 0xFF) as u8
}

/// The 32-bit word denoted by four little-endian bytes.
pub open spec fn le32(b0: u8, b1: u8, b2: u8, b3: u8) -> u32 {
    (b0 as u32) | ((b1 as u32) << 8) | ((b2 as u32) << 16) | ((b3 as u32) << 24)
}

/// Little-endian byte decompositions of a 16-bit word.
pub open spec fn u16_b0(v: u16) -> u8 {
    (v & 0xFF) as u8
}

pub open spec fn u16_b1(v: u16) -> u8 {
    ((v >> 8) & 0xFF) as u8
}

/// The 16-bit word denoted by two little-endian bytes.
pub open spec fn le16(b0: u8, b1: u8) -> u16 {
    (b0 as u16) | ((b1 as u16) << 8)
}

pub proof fn lemma_le32_roundtrip(v: u32)
    by (bit_vector)
    ensures
        le32(u32_b0(v), u32_b1(v), u32_b2(v), u32_b3(v)) == v,
{
}

pub proof fn lemma_le32_bytes(b0: u8, b1: u8, b2: u8, b3: u8)
    by (bit_vector)
    ensures
        u32_b0(le32(b0, b1, b2, b3)) == b0,
        u32_b1(le32(b0, b1, b2, b3)) == b1,
        u32_b2(le32(b0, b1, b2, b3)) == b2,
        u32_b3(le32(b0, b1, b2, b3)) == b3,
{
}

pub proof fn lemma_le16_roundtrip(v: u16)
    by (bit_vector)
    ensures
        le16(u16_b0(v), u16_b1(v)) == v,
{
}

pub proof fn lemma_le16_bytes(b0: u8, b1: u8)
    by (bit_vector)
    ensures
        u16_b0(le16(b0, b1)) == b0,
        u16_b1(le16(b0, b1)) == b1,
{
}

/// One version's byte buffer together with its cursor pool. A cursor is a
/// position into the buffer; closed cursors keep their slot so that cursor
/// identifiers stay stable.
pub struct BufferManager {
    data: Vec<u8>,
    cursors: Vec<(u64, bool)>,
}

impl BufferManager {
    /// The bytes held by the buffer.
    pub closed spec fn bytes(self) -> Seq<u8> {
        self.data@
    }

    pub closed spec fn num_cursors(self) -> int {
        self.cursors@.len() as int
    }

    pub closed spec fn cursor_open(self, c: int) -> bool {
        0 <= c < self.cursors@.len() && self.cursors@[c].1
    }

    pub closed spec fn cursor_pos(self, c: int) -> int {
        self.cursors@[c].0 as int
    }

    /// All cursors other than `c` agree between `a` and `b`.
    pub closed spec fn same_cursors_except(a: Self, b: Self, c: int) -> bool {
        forall|k: int|
            0 <= k < a.cursors@.len() && k < b.cursors@.len() && k != c ==> a.cursors@[k]
                == b.cursors@[k]
    }

    /// Every cursor position stays within the buffer.
    pub closed spec fn wf(self) -> bool {
        forall|k: int| 0 <= k < self.cursors@.len() ==> #[trigger] self.cursors@[k].0 <= self.data@.len()
    }

    pub fn new() -> (r: Self)
        ensures
            r.bytes() == Seq::<u8>::empty(),
            r.num_cursors() == 0,
            r.wf(),
    {
        let r = BufferManager { data: Vec::new(), cursors: Vec::new() };
        proof {
            assert(r.data@ =~= Seq::<u8>::empty());
        }
        r
    }

    /// Opens a fresh cursor positioned at the start of the buffer.
    pub fn open_cursor(&mut self) -> (c: u64)
        requires
            old(self).wf(),
            old(self).num_cursors() < 0xFFFF_FFFF,
        ensures
            final(self).wf(),
            final(self).bytes() == old(self).bytes(),
            final(self).num_cursors() == old(self).num_cursors() + 1,
            c == old(self).num_cursors(),
            final(self).cursor_open(c as int),
            final(self).cursor_pos(c as int) == 0,
            Self::same_cursors_except(*old(self), *final(self), c as int),
    {
        let c: u64 = self.cursors.len() as u64;
        self.cursors.push((0u64, true));
        c
    }

    /// Closes a cursor; its identifier is not handed out again.
    pub fn close_cursor(&mut self, cursor: u64)
        requires
            old(self).wf(),
            old(self).cursor_open(cursor as int),
        ensures
            final(self).wf(),
            final(self).bytes() == old(self).bytes(),
            final(self).num_cursors() == old(self).num_cursors(),
            !final(self).cursor_open(cursor as int),
            Self::same_cursors_except(*old(self), *final(self), cursor as int),
    {
        let pool: usize = self.cursors.len();
        proof {
            assert(cursor < pool);
        }
        let i: usize = cursor as usize;
        let pos: u64 = self.cursors[i].0;
        self.cursors.set(i, (pos, false));
    }

    /// The current position of an open cursor.
    pub fn cursor_position(&self, cursor: u64) -> (r: u64)
        requires
            self.cursor_open(cursor as int),
        ensures
            r == self.cursor_pos(cursor as int),
    {
        let pool: usize = self.cursors.len();
        proof {
            assert(cursor < pool);
        }
        self.cursors[cursor as usize].0
    }

    /// Moves an open cursor to an absolute position within the buffer.
    pub fn seek_with_cursor(&mut self, cursor: u64, pos: u64)
        requires
            old(self).wf(),
            old(self).cursor_open(cursor as int),
            pos <= old(self).bytes().len(),
        ensures
            final(self).wf(),
            final(self).bytes() == old(self).bytes(),
            final(self).num_cursors() == old(self).num_cursors(),
            final(self).cursor_open(cursor as int),
            final(self).cursor_pos(cursor as int) == pos,
            Self::same_cursors_except(*old(self), *final(self), cursor as int),
    {
        let pool: usize = self.cursors.len();
        proof {
            assert(cursor < pool);
        }
        let i: usize = cursor as usize;
        self.cursors.set(i, (pos, true));
    }

    /// Reads one byte at the cursor and advances it; fails at end of buffer.
    pub fn read_u8_with_cursor(&mut self, cursor: u64) -> (r: Result<u8, BufIoError>)
        requires
            old(self).wf(),
            old(self).cursor_open(cursor as int),
        ensures
            final(self).wf(),
            final(self).bytes() == old(self).bytes(),
            final(self).num_cursors() == old(self).num_cursors(),
            final(self).cursor_open(cursor as int),
            Self::same_cursors_except(*old(self), *final(self), cursor as int),
            ({
                let p = old(self).cursor_pos(cursor as int);
                if p < old(self).bytes().len() {
                    r == Ok::<u8, BufIoError>(old(self).bytes()[p]) && final(self).cursor_pos(
                        cursor as int,
                    ) == p + 1
                } else {
                    r == Err::<u8, BufIoError>(BufIoError::UnexpectedEof) && *final(self) == *old(
                        self,
                    )
                }
            }),
    {
        let pool: usize = self.cursors.len();
        proof {
            assert(cursor < pool);
        }
        let i: usize = cursor as usize;
        let pos: u64 = self.cursors[i].0;
        if pos < self.data.len() as u64 {
            let b: u8 = self.data[pos as usize];
            self.cursors.set(i, (pos + 1, true));
            Ok(b)
        } else {
            Err(BufIoError::UnexpectedEof)
        }
    }

    /// Reads a little-endian 16-bit word at the cursor and advances it by
    /// two bytes; fails if fewer than two bytes remain.
    pub fn read_u16_with_cursor(&mut self, cursor: u64) -> (r: Result<u16, BufIoError>)
        requires
            old(self).wf(),
            old(self).cursor_open(cursor as int),
        ensures
            final(self).wf(),
            final(self).bytes() == old(self).bytes(),
            final(self).num_cursors() == old(self).num_cursors(),
            final(self).cursor_open(cursor as int),
            Self::same_cursors_except(*old(self), *final(self), cursor as int),
            ({
                let p = old(self).cursor_pos(cursor as int);
                let b = old(self).bytes();
                if p + 2 <= b.len() {
                    r == Ok::<u16, BufIoError>(le16(b[p], b[p + 1])) && final(self).cursor_pos(
                        cursor as int,
                    ) == p + 2
                } else {
                    r == Err::<u16, BufIoError>(BufIoError::UnexpectedEof) && *final(self) == *old(
                        self,
                    )
                }
            }),
    {
        let pool: usize = self.cursors.len();
        proof {
            assert(cursor < pool);
        }
        let i: usize = cursor as usize;
        let pos: u64 = self.cursors[i].0;
        if self.data.len() as u64 - pos >= 2 {
            let b0: u8 = self.data[pos as usize];
            let b1: u8 = self.data[pos as usize + 1];
            self.cursors.set(i, (pos + 2, true));
            Ok((b0 as u16) | ((b1 as u16) << 8))
        } else {
            Err(BufIoError::UnexpectedEof)
        }
    }

    /// Reads a little-endian 32-bit word at the cursor and advances it by
    /// four bytes; fails if fewer than four bytes remain.
    pub fn read_u32_with_cursor(&mut self, cursor: u64) -> (r: Result<u32, BufIoError>)
        requires
            old(self).wf(),
            old(self).cursor_open(cursor as int),
        ensures
            final(self).wf(),
            final(self).bytes() == old(self).bytes(),
            final(self).num_cursors() == old(self).num_cursors(),
            final(self).cursor_open(cursor as int),
            Self::same_cursors_except(*old(self), *final(self), cursor as int),
            ({
                let p = old(self).cursor_pos(cursor as int);
                let b = old(self).bytes();
                if p + 4 <= b.len() {
                    r == Ok::<u32, BufIoError>(le32(b[p], b[p + 1], b[p + 2], b[p + 3]))
                        && final(self).cursor_pos(cursor as int) == p + 4
                } else {
                    r == Err::<u32, BufIoError>(BufIoError::UnexpectedEof) && *final(self) == *old(
                        self,
                    )
                }
            }),
    {
        let pool: usize = self.cursors.len();
        proof {
            assert(cursor < pool);
        }
        let i: usize = cursor as usize;
        let pos: u64 = self.cursors[i].0;
        if self.data.len() as u64 - pos >= 4 {
            let b0: u8 = self.data[pos as usize];
            let b1: u8 = self.data[pos as usize + 1];
            let b2: u8 = self.data[pos as usize + 2];
            let b3: u8 = self.data[pos as usize + 3];
            self.cursors.set(i, (pos + 4, true));
            Ok((b0 as u32) | ((b1 as u32) << 8) | ((b2 as u32) << 16) | ((b3 as u32) << 24))
        } else {
            Err(BufIoError::UnexpectedEof)
        }
    }

    /// Appends one byte at the cursor, which must sit at the end of the
    /// buffer, and advances it.
    pub fn write_u8_with_cursor(&mut self, cursor: u64, value: u8)
        requires
            old(self).wf(),
            old(self).cursor_open(cursor as int),
            old(self).cursor_pos(cursor as int) == old(self).bytes().len(),
            old(self).bytes().len() < 0xFFFF_FFFF_FFFF_FF00,
        ensures
            final(self).wf(),
            final(self).bytes() == old(self).bytes().push(value),
            final(self).num_cursors() == old(self).num_cursors(),
            final(self).cursor_open(cursor as int),
            final(self).cursor_pos(cursor as int) == final(self).bytes().len(),
            Self::same_cursors_except(*old(self), *final(self), cursor as int),
    {
        let pool: usize = self.cursors.len();
        proof {
            assert(cursor < pool);
        }
        let i: usize = cursor as usize;
        let pos: u64 = self.cursors[i].0;
        self.data.push(value);
        self.cursors.set(i, (pos + 1, true));
    }

    /// Appends a 16-bit word in little-endian order at the cursor, which
    /// must sit at the end of the buffer.
    pub fn write_u16_with_cursor(&mut self, cursor: u64, value: u16)
        requires
            old(self).wf(),
            old(self).cursor_open(cursor as int),
            old(self).cursor_pos(cursor as int) == old(self).bytes().len(),
            old(self).bytes().len() < 0xFFFF_FFFF_FFFF_F000,
        ensures
            final(self).wf(),
            final(self).bytes() == old(self).bytes().push(u16_b0(value)).push(u16_b1(value)),
            final(self).num_cursors() == old(self).num_cursors(),
            final(self).cursor_open(cursor as int),
            final(self).cursor_pos(cursor as int) == final(self).bytes().len(),
            Self::same_cursors_except(*old(self), *final(self), cursor as int),
    {
        self.write_u8_with_cursor(cursor, (value & 0xFF) as u8);
        self.write_u8_with_cursor(cursor, ((value >> 8) & 0xFF) as u8);
    }

    /// Appends a 32-bit word in little-endian order at the cursor, which
    /// must sit at the end of the buffer.
    pub fn write_u32_with_cursor(&mut self, cursor: u64, value: u32)
        requires
            old(self).wf(),
            old(self).cursor_open(cursor as int),
            old(self).cursor_pos(cursor as int) == old(self).bytes().len(),
            old(self).bytes().len() < 0xFFFF_FFFF_FFFF_F000,
        ensures
            final(self).wf(),
            final(self).bytes() == old(self).bytes().push(u32_b0(value)).push(u32_b1(value)).push(
                u32_b2(value),
            ).push(u32_b3(value)),
            final(self).num_cursors() == old(self).num_cursors(),
            final(self).cursor_open(cursor as int),
            final(self).cursor_pos(cursor as int) == final(self).bytes().len(),
            Self::same_cursors_except(*old(self), *final(self), cursor as int),
    {
        self.write_u8_with_cursor(cursor, (value & 0xFF) as u8);
        self.write_u8_with_cursor(cursor, ((value >> 8) & 0xFF) as u8);
        self.write_u8_with_cursor(cursor, ((value >> 16) & 0xFF) as u8);
        self.write_u8_with_cursor(cursor, ((value >> 24) & 0xFF) as u8);
    }

    /// The number of bytes in the buffer.
    pub fn buffer_len(&self) -> (r: usize)
        ensures
            r == self.bytes().len(),
    {
        self.data.len()
    }

    /// A copy of the buffer's bytes.
    pub fn bytes_vec(&self) -> (r: Vec<u8>)
        ensures
            r@ == self.bytes(),
    {
        let mut out: Vec<u8> = Vec::new();
        let n: usize = self.data.len();
        for i in 0..n
            invariant
                n == self.data@.len(),
                out@ == self.data@.take(i as int),
        {
            out.push(self.data[i]);
            proof {
                assert(out@ =~= self.data@.take(i + 1));
            }
        }
        proof {
            assert(self.data@.take(n as int) =~= self.data@);
        }
        out
    }
}

/// One append buffer per version, opened on demand and kept for the life of
/// the factory.
pub struct BufferManagerFactory {
    entries: Vec<(u32, BufferManager)>,
}

impl BufferManagerFactory {
    /// Version keys are unique and every buffer is well formed.
    pub closed spec fn wf(self) -> bool {
        (forall|i: int, j: int|
            0 <= i < j < self.entries@.len() ==> (#[trigger] self.entries@[i]).0 != (
            #[trigger] self.entries@[j]).0) && (forall|k: int|
            0 <= k < self.entries@.len() ==> (#[trigger] self.entries@[k]).1.wf())
    }

    pub closed spec fn has_version(self, v: u32) -> bool {
        exists|k: int| 0 <= k < self.entries@.len() && (#[trigger] self.entries@[k]).0 == v
    }

    spec fn vidx(self, v: u32) -> int {
        choose|k: int| 0 <= k < self.entries@.len() && (#[trigger] self.entries@[k]).0 == v
    }

    /// The buffer kept for version `v`.
    pub closed spec fn bman(self, v: u32) -> BufferManager {
        self.entries@[self.vidx(v)].1
    }

    /// Versions other than `v` are kept identical between `a` and `b`.
    pub open spec fn others_unchanged(a: Self, b: Self, v: u32) -> bool {
        (forall|w: u32|
            #![trigger a.has_version(w)]
            #![trigger b.has_version(w)]
            w != v ==> b.has_version(w) == a.has_version(w)) && (forall|w: u32|
            #![trigger a.bman(w)]
            #![trigger b.bman(w)]
            w != v && a.has_version(w) ==> b.bman(w) == a.bman(w))
    }

    proof fn lemma_lookup(self, v: u32)
        requires
            self.wf(),
            self.has_version(v),
        ensures
            0 <= self.vidx(v) < self.entries@.len(),
            self.entries@[self.vidx(v)].0 == v,
            forall|k: int|
                0 <= k < self.entries@.len() && (#[trigger] self.entries@[k]).0 == v ==> k
                    == self.vidx(v),
    {
        let i = self.vidx(v);
        assert(0 <= i < self.entries@.len() && self.entries@[i].0 == v);
    }

    pub fn new() -> (r: Self)
        ensures
            r.wf(),
            forall|w: u32| !(#[trigger] r.has_version(w)),
    {
        BufferManagerFactory { entries: Vec::new() }
    }

    fn find(&self, version: u32) -> (r: Option<usize>)
        requires
            self.wf(),
        ensures
            match r {
                Some(i) => self.has_version(version) && i < self.entries@.len()
                    && self.entries@[i as int].0 == version && i as int == self.vidx(version),
                None => !self.has_version(version),
            },
    {
        let n: usize = self.entries.len();
        for i in 0..n
            invariant
                self.wf(),
                n == self.entries@.len(),
                forall|k: int| 0 <= k < i ==> (#[trigger] self.entries@[k]).0 != version,
        {
            if self.entries[i].0 == version {
                proof {
                    self.lemma_lookup(version);
                }
                return Some(i);
            }
        }
        None
    }

    /// Opens the buffer for a version if it is not there yet; an existing
    /// buffer is kept as it is.
    pub fn get(&mut self, version: u32)
        requires
            old(self).wf(),
        ensures
            final(self).wf(),
            final(self).has_version(version),
            old(self).has_version(version) ==> *final(self) == *old(self),
            !old(self).has_version(version) ==> final(self).bman(version).bytes() == Seq::<
                u8,
            >::empty() && final(self).bman(version).num_cursors() == 0,
            Self::others_unchanged(*old(self), *final(self), version),
    {
        let found = self.find(version);
        match found {
            Some(_) => {},
            None => {
                let ghost pre = *self;
                let bm = BufferManager::new();
                self.entries.push((version, bm));
                proof {
                    let n = pre.entries@.len() as int;
                    assert(self.entries@[n] == (version, bm));
                    assert(forall|k: int|
                        0 <= k < n ==> #[trigger] self.entries@[k] == pre.entries@[k]);
                    assert(self.has_version(version));
                    self.lemma_lookup(version);
                    assert(self.bman(version) == bm);
                    assert forall|w: u32| w != version implies #[trigger] self.has_version(w)
                        == pre.has_version(w) by {
                        if pre.has_version(w) {
                            pre.lemma_lookup(w);
                            assert(self.entries@[pre.vidx(w)].0 == w);
                        }
                        if self.has_version(w) {
                            self.lemma_lookup(w);
                            assert(self.vidx(w) != n);
                        }
                    }
                    assert forall|w: u32| w != version && pre.has_version(w) implies
                        #[trigger] self.bman(w) == pre.bman(w) by {
                        pre.lemma_lookup(w);
                        self.lemma_lookup(w);
                        assert(self.entries@[pre.vidx(w)].0 == w);
                    }
                }
            },
        }
    }


    /// Opens a fresh cursor on the buffer of `version`.
    pub fn open_cursor(&mut self, version: u32) -> (r: u64)
        requires
            old(self).wf(),
            old(self).has_version(version),
            old(self).bman(version).num_cursors() < 0xFFFF_FFFF,
        ensures
            final(self).wf(),
            final(self).has_version(version),
            Self::others_unchanged(*old(self), *final(self), version),
            final(self).bman(version).bytes() == old(self).bman(version).bytes(),
            final(self).bman(version).num_cursors() == old(self).bman(version).num_cursors() + 1,
            r == old(self).bman(version).num_cursors(),
            final(self).bman(version).cursor_open(r as int),
            final(self).bman(version).cursor_pos(r as int) == 0,
            BufferManager::same_cursors_except(old(self).bman(version), final(self).bman(version), r as int),
    {
        let found = self.find(version);
        match found {
            Some(i) => {
                let ghost pre = *self;
                proof {
                    pre.lemma_lookup(version);
                }
                let entry = &mut self.entries[i];
                let r = entry.1.open_cursor();
                proof {
                    Self::lemma_after_update(pre, *self, i as int, version);
                }
                r
            },
            None => {
                proof {
                    assert(false);
                }
                0
            },
        }
    }

    /// Closes a cursor on the buffer of `version`.
    pub fn close_cursor(&mut self, version: u32, cursor: u64) -> (r: ())
        requires
            old(self).wf(),
            old(self).has_version(version),
            old(self).bman(version).cursor_open(cursor as int),
        ensures
            final(self).wf(),
            final(self).has_version(version),
            Self::others_unchanged(*old(self), *final(self), version),
            final(self).bman(version).bytes() == old(self).bman(version).bytes(),
            final(self).bman(version).num_cursors() == old(self).bman(version).num_cursors(),
            BufferManager::same_cursors_except(old(self).bman(version), final(self).bman(version), cursor as int),
            !final(self).bman(version).cursor_open(cursor as int),
    {
        let found = self.find(version);
        match found {
            Some(i) => {
                let ghost pre = *self;
                proof {
                    pre.lemma_lookup(version);
                }
                let entry = &mut self.entries[i];
                let r = entry.1.close_cursor(cursor);
                proof {
                    Self::lemma_after_update(pre, *self, i as int, version);
                }
                r
            },
            None => {
                proof {
                    assert(false);
                }
                ()
            },
        }
    }

    /// Moves a cursor on the buffer of `version` to an absolute position.
    pub fn seek_with_cursor(&mut self, version: u32, cursor: u64, pos: u64) -> (r: ())
        requires
            old(self).wf(),
            old(self).has_version(version),
            old(self).bman(version).cursor_open(cursor as int),
            pos <= old(self).bman(version).bytes().len(),
        ensures
            final(self).wf(),
            final(self).has_version(version),
            Self::others_unchanged(*old(self), *final(self), version),
            final(self).bman(version).bytes() == old(self).bman(version).bytes(),
            final(self).bman(version).num_cursors() == old(self).bman(version).num_cursors(),
            BufferManager::same_cursors_except(old(self).bman(version), final(self).bman(version), cursor as int),
            final(self).bman(version).cursor_open(cursor as int),
            final(self).bman(version).cursor_pos(cursor as int) == pos,
    {
        let found = self.find(version);
        match found {
            Some(i) => {
                let ghost pre = *self;
                proof {
                    pre.lemma_lookup(version);
                }
                let entry = &mut self.entries[i];
                let r = entry.1.seek_with_cursor(cursor, pos);
                proof {
                    Self::lemma_after_update(pre, *self, i as int, version);
                }
                r
            },
            None => {
                proof {
                    assert(false);
                }
                ()
            },
        }
    }

    /// Reads a little-endian `u8` at the cursor of the buffer of `version`.
    pub fn read_u8_with_cursor(&mut self, version: u32, cursor: u64) -> (r: Result<u8, BufIoError>)
        requires
            old(self).wf(),
            old(self).has_version(version),
            old(self).bman(version).cursor_open(cursor as int),
        ensures
            final(self).wf(),
            final(self).has_version(version),
            Self::others_unchanged(*old(self), *final(self), version),
            final(self).bman(version).bytes() == old(self).bman(version).bytes(),
            final(self).bman(version).num_cursors() == old(self).bman(version).num_cursors(),
            BufferManager::same_cursors_except(old(self).bman(version), final(self).bman(version), cursor as int),
            final(self).bman(version).cursor_open(cursor as int),
            ({
                let p = old(self).bman(version).cursor_pos(cursor as int);
                let b = old(self).bman(version).bytes();
                if p + 1 <= b.len() {
                    r == Ok::<u8, BufIoError>(old(self).bman(version).bytes()[p]) && final(self).bman(version).cursor_pos(cursor as int) == p + 1
                } else {
                    r == Err::<u8, BufIoError>(BufIoError::UnexpectedEof) && final(self).bman(version) == old(self).bman(version)
                }
            }),
    {
        let found = self.find(version);
        match found {
            Some(i) => {
                let ghost pre = *self;
                proof {
                    pre.lemma_lookup(version);
                }
                let entry = &mut self.entries[i];
                let r = entry.1.read_u8_with_cursor(cursor);
                proof {
                    Self::lemma_after_update(pre, *self, i as int, version);
                }
                r
            },
            None => {
                proof {
                    assert(false);
                }
                Err(BufIoError::UnexpectedEof)
            },
        }
    }

    /// Reads a little-endian `u16` at the cursor of the buffer of `version`.
    pub fn read_u16_with_cursor(&mut self, version: u32, cursor: u64) -> (r: Result<u16, BufIoError>)
        requires
            old(self).wf(),
            old(self).has_version(version),
            old(self).bman(version).cursor_open(cursor as int),
        ensures
            final(self).wf(),
            final(self).has_version(version),
            Self::others_unchanged(*old(self), *final(self), version),
            final(self).bman(version).bytes() == old(self).bman(version).bytes(),
            final(self).bman(version).num_cursors() == old(self).bman(version).num_cursors(),
            BufferManager::same_cursors_except(old(self).bman(version), final(self).bman(version), cursor as int),
            final(self).bman(version).cursor_open(cursor as int),
            ({
                let p = old(self).bman(version).cursor_pos(cursor as int);
                let b = old(self).bman(version).bytes();
                if p + 2 <= b.len() {
                    r == Ok::<u16, BufIoError>(le16(b[p], b[p + 1])) && final(self).bman(version).cursor_pos(cursor as int) == p + 2
                } else {
                    r == Err::<u16, BufIoError>(BufIoError::UnexpectedEof) && final(self).bman(version) == old(self).bman(version)
                }
            }),
    {
        let found = self.find(version);
        match found {
            Some(i) => {
                let ghost pre = *self;
                proof {
                    pre.lemma_lookup(version);
                }
                let entry = &mut self.entries[i];
                let r = entry.1.read_u16_with_cursor(cursor);
                proof {
                    Self::lemma_after_update(pre, *self, i as int, version);
                }
                r
            },
            None => {
                proof {
                    assert(false);
                }
                Err(BufIoError::UnexpectedEof)
            },
        }
    }

    /// Reads a little-endian `u32` at the cursor of the buffer of `version`.
    pub fn read_u32_with_cursor(&mut self, version: u32, cursor: u64) -> (r: Result<u32, BufIoError>)
        requires
            old(self).wf(),
            old(self).has_version(version),
            old(self).bman(version).cursor_open(cursor as int),
        ensures
            final(self).wf(),
            final(self).has_version(version),
            Self::others_unchanged(*old(self), *final(self), version),
            final(self).bman(version).bytes() == old(self).bman(version).bytes(),
            final(self).bman(version).num_cursors() == old(self).bman(version).num_cursors(),
            BufferManager::same_cursors_except(old(self).bman(version), final(self).bman(version), cursor as int),
            final(self).bman(version).cursor_open(cursor as int),
            ({
                let p = old(self).bman(version).cursor_pos(cursor as int);
                let b = old(self).bman(version).bytes();
                if p + 4 <= b.len() {
                    r == Ok::<u32, BufIoError>(le32(b[p], b[p + 1], b[p + 2], b[p + 3])) && final(self).bman(version).cursor_pos(cursor as int) == p + 4
                } else {
                    r == Err::<u32, BufIoError>(BufIoError::UnexpectedEof) && final(self).bman(version) == old(self).bman(version)
                }
            }),
    {
        let found = self.find(version);
        match found {
            Some(i) => {
                let ghost pre = *self;
                proof {
                    pre.lemma_lookup(version);
                }
                let entry = &mut self.entries[i];
                let r = entry.1.read_u32_with_cursor(cursor);
                proof {
                    Self::lemma_after_update(pre, *self, i as int, version);
                }
                r
            },
            None => {
                proof {
                    assert(false);
                }
                Err(BufIoError::UnexpectedEof)
            },
        }
    }

    /// Appends a little-endian `u8` at the cursor of the buffer of `version`; the cursor must sit at the end of that buffer.
    pub fn write_u8_with_cursor(&mut self, version: u32, cursor: u64, value: u8) -> (r: ())
        requires
            old(self).wf(),
            old(self).has_version(version),
            old(self).bman(version).cursor_open(cursor as int),
            old(self).bman(version).cursor_pos(cursor as int) == old(self).bman(version).bytes().len(),
            old(self).bman(version).bytes().len() < 0xFFFF_FFFF_FFFF_FF00,
        ensures
            final(self).wf(),
            final(self).has_version(version),
            Self::others_unchanged(*old(self), *final(self), version),
            final(self).bman(version).bytes() == old(self).bman(version).bytes().push(value),
            final(self).bman(version).num_cursors() == old(self).bman(version).num_cursors(),
            final(self).bman(version).cursor_open(cursor as int),
            final(self).bman(version).cursor_pos(cursor as int) == final(self).bman(version).bytes().len(),
            BufferManager::same_cursors_except(old(self).bman(version), final(self).bman(version), cursor as int),
    {
        let found = self.find(version);
        match found {
            Some(i) => {
                let ghost pre = *self;
                proof {
                    pre.lemma_lookup(version);
                }
                let entry = &mut self.entries[i];
                let r = entry.1.write_u8_with_cursor(cursor, value);
                proof {
                    Self::lemma_after_update(pre, *self, i as int, version);
                }
                r
            },
            None => {
                proof {
                    assert(false);
                }
                ()
            },
        }
    }

    /// Appends a little-endian `u16` at the cursor of the buffer of `version`; the cursor must sit at the end of that buffer.
    pub fn write_u16_with_cursor(&mut self, version: u32, cursor: u64, value: u16) -> (r: ())
        requires
            old(self).wf(),
            old(self).has_version(version),
            old(self).bman(version).cursor_open(cursor as int),
            old(self).bman(version).cursor_pos(cursor as int) == old(self).bman(version).bytes().len(),
            old(self).bman(version).bytes().len() < 0xFFFF_FFFF_FFFF_F000,
        ensures
            final(self).wf(),
            final(self).has_version(version),
            Self::others_unchanged(*old(self), *final(self), version),
            final(self).bman(version).bytes() == old(self).bman(version).bytes().push(u16_b0(value)).push(u16_b1(value)),
            final(self).bman(version).num_cursors() == old(self).bman(version).num_cursors(),
            final(self).bman(version).cursor_open(cursor as int),
            final(self).bman(version).cursor_pos(cursor as int) == final(self).bman(version).bytes().len(),
            BufferManager::same_cursors_except(old(self).bman(version), final(self).bman(version), cursor as int),
    {
        let found = self.find(version);
        match found {
            Some(i) => {
                let ghost pre = *self;
                proof {
                    pre.lemma_lookup(version);
                }
                let entry = &mut self.entries[i];
                let r = entry.1.write_u16_with_cursor(cursor, value);
                proof {
                    Self::lemma_after_update(pre, *self, i as int, version);
                }
                r
            },
            None => {
                proof {
                    assert(false);
                }
                ()
            },
        }
    }

    /// Appends a little-endian `u32` at the cursor of the buffer of `version`; the cursor must sit at the end of that buffer.
    pub fn write_u32_with_cursor(&mut self, version: u32, cursor: u64, value: u32) -> (r: ())
        requires
            old(self).wf(),
            old(self).has_version(version),
            old(self).bman(version).cursor_open(cursor as int),
            old(self).bman(version).cursor_pos(cursor as int) == old(self).bman(version).bytes().len(),
            old(self).bman(version).bytes().len() < 0xFFFF_FFFF_FFFF_F000,
        ensures
            final(self).wf(),
            final(self).has_version(version),
            Self::others_unchanged(*old(self), *final(self), version),
            final(self).bman(version).bytes() == old(self).bman(version).bytes().push(u32_b0(value)).push(u32_b1(value)).push(u32_b2(value)).push(u32_b3(value)),
            final(self).bman(version).num_cursors() == old(self).bman(version).num_cursors(),
            final(self).bman(version).cursor_open(cursor as int),
            final(self).bman(version).cursor_pos(cursor as int) == final(self).bman(version).bytes().len(),
            BufferManager::same_cursors_except(old(self).bman(version), final(self).bman(version), cursor as int),
    {
        let found = self.find(version);
        match found {
            Some(i) => {
                let ghost pre = *self;
                proof {
                    pre.lemma_lookup(version);
                }
                let entry = &mut self.entries[i];
                let r = entry.1.write_u32_with_cursor(cursor, value);
                proof {
                    Self::lemma_after_update(pre, *self, i as int, version);
                }
                r
            },
            None => {
                proof {
                    assert(false);
                }
                ()
            },
        }
    }

    /// The position of a cursor on the buffer of `version`.
    pub fn cursor_position(&self, version: u32, cursor: u64) -> (r: u64)
        requires
            self.wf(),
            self.has_version(version),
            self.bman(version).cursor_open(cursor as int),
        ensures
            r == self.bman(version).cursor_pos(cursor as int),
    {
        let found = self.find(version);
        match found {
            Some(i) => self.entries[i].1.cursor_position(cursor),
            None => {
                proof {
                    assert(false);
                }
                0
            },
        }
    }

    /// The number of bytes in the buffer kept for `version`.
    pub fn buffer_len(&self, version: u32) -> (r: usize)
        requires
            self.wf(),
            self.has_version(version),
        ensures
            r == self.bman(version).bytes().len(),
    {
        let found = self.find(version);
        match found {
            Some(i) => self.entries[i].1.buffer_len(),
            None => {
                proof {
                    assert(false);
                }
                0
            },
        }
    }

    /// A copy of the bytes of the buffer kept for `version`.
    pub fn file_bytes(&self, version: u32) -> (r: Option<Vec<u8>>)
        requires
            self.wf(),
        ensures
            match r {
                Some(b) => self.has_version(version) && b@ == self.bman(version).bytes(),
                None => !self.has_version(version),
            },
    {
        let found = self.find(version);
        match found {
            Some(i) => Some(self.entries[i].1.bytes_vec()),
            None => None,
        }
    }

    proof fn lemma_after_update(pre: Self, post: Self, i: int, version: u32)
        requires
            pre.wf(),
            0 <= i < pre.entries@.len(),
            i == pre.vidx(version),
            pre.entries@[i].0 == version,
            pre.has_version(version),
            post.entries@ == pre.entries@.update(i, post.entries@[i]),
            post.entries@[i].0 == version,
            post.entries@[i].1.wf(),
        ensures
            post.wf(),
            post.has_version(version),
            post.bman(version) == post.entries@[i].1,
            Self::others_unchanged(pre, post, version),
    {
        assert(forall|k: int|
            0 <= k < pre.entries@.len() && k != i ==> #[trigger] post.entries@[k]
                == pre.entries@[k]);
        assert(post.has_version(version));
        post.lemma_lookup(version);
        assert forall|w: u32| w != version implies #[trigger] post.has_version(w)
            == pre.has_version(w) by {
            if pre.has_version(w) {
                pre.lemma_lookup(w);
                assert(post.entries@[pre.vidx(w)].0 == w);
            }
            if post.has_version(w) {
                post.lemma_lookup(w);
                assert(pre.entries@[post.vidx(w)].0 == w);
            }
        }
        assert forall|w: u32| w != version && pre.has_version(w) implies #[trigger] post.bman(w)
            == pre.bman(w) by {
            pre.lemma_lookup(w);
            assert(post.entries@[pre.vidx(w)].0 == w);
            post.lemma_lookup(w);
        }
    }
}

} // verus!
