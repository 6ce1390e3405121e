use vstd::prelude::*;

use crate::error::DnsError;

verus! {

/// A fixed-capacity byte store for one DNS datagram, together with a cursor.
/// All access is bounds-checked against the 512-byte capacity; the store is
/// never resized.
pub struct Buffer {
    pub buf: Vec<u8>,
    pub pos: usize,
}

/// The big-endian value of two bytes.
pub open spec fn be16(hi: u8, lo: u8) -> int {
    (hi as int) * 256 + (lo as int)
}

/// The big-endian value of four bytes.
pub open spec fn be32(b0: u8, b1: u8, b2: u8, b3: u8) -> int {
    (b0 as int) * 0x1000000 + (b1 as int) * 0x10000 + (b2 as int) * 0x100 + (b3 as int)
}

/// The two big-endian bytes of a 16-bit value, high byte first.
pub open spec fn u16_be(v: u16) -> Seq<u8> {
    seq![(v / 256) as u8, (v % 256) as u8]
}

/// The four big-endian bytes of a 32-bit value, high byte first.
pub open spec fn u32_be(v: u32) -> Seq<u8> {
    u16_be((v / 0x10000) as u16) + u16_be((v % 0x10000) as u16)
}

/// What a sequence of byte writes leaves behind: the new store contents, the
/// new cursor, and whether every byte fit. Writing stops at the first byte
/// that would land outside the 512-byte store.
pub open spec fn store_bytes(buf: Seq<u8>, pos: int, bytes: Seq<u8>) -> (Seq<u8>, int, Result<
    (),
    DnsError,
>)
    decreases bytes.len(),
{
    if bytes.len() == 0 {
        (buf, pos, Ok(()))
    } else if !(0 <= pos < 512) {
        (buf, pos, Err(DnsError::OutOfBounds))
    } else {
        store_bytes(buf.update(pos, bytes[0]), pos + 1, bytes.drop_first())
    }
}

/// The store with `data` laid down starting at `pos`, everything else kept.
pub open spec fn splice(buf: Seq<u8>, pos: int, data: Seq<u8>) -> Seq<u8> {
    buf.take(pos) + data + buf.skip(pos + data.len())
}

/// A splice keeps the length, holds `data` where it was laid down and the old
/// bytes everywhere else.
pub proof fn lemma_splice_facts(buf: Seq<u8>, pos: int, data: Seq<u8>)
    requires
        buf.len() == 512,
        0 <= pos,
        pos + data.len() <= 512,
    ensures
        splice(buf, pos, data).len() == 512,
        splice(buf, pos, data).subrange(pos, pos + data.len()) == data,
        forall|i: int|
            0 <= i < 512 && !(pos <= i < pos + data.len()) ==> splice(buf, pos, data)[i] == buf[i],
        forall|i: int|
            pos <= i < pos + data.len() ==> splice(buf, pos, data)[i] == data[i - pos],
{
    assert(splice(buf, pos, data).subrange(pos, pos + data.len()) =~= data);
}

/// Bytes stored right after a spliced run extend the run.
pub proof fn lemma_store_extends_splice(buf: Seq<u8>, pos: int, w: Seq<u8>, d: Seq<u8>)
    requires
        buf.len() == 512,
        0 <= pos,
        pos + w.len() + d.len() <= 512,
    ensures
        ({
            let (b2, p2, r2) = store_bytes(splice(buf, pos, w), pos + w.len(), d);
            &&& r2 == Ok::<(), DnsError>(())
            &&& p2 == pos + w.len() + d.len()
            &&& b2 == splice(buf, pos, w + d)
        }),
{
    lemma_splice_facts(buf, pos, w);
    lemma_splice_facts(buf, pos, w + d);
    lemma_store_bytes_ok(splice(buf, pos, w), pos + w.len(), d);
    assert(store_bytes(splice(buf, pos, w), pos + w.len(), d).0 =~= splice(buf, pos, w + d));
}

/// Updating the byte right after a spliced run extends the run.
pub proof fn lemma_splice_push(buf: Seq<u8>, pos: int, data: Seq<u8>, v: u8)
    requires
        buf.len() == 512,
        0 <= pos,
        pos + data.len() < 512,
    ensures
        splice(buf, pos, data).update(pos + data.len(), v) == splice(buf, pos, data.push(v)),
{
    assert(splice(buf, pos, data).update(pos + data.len(), v) =~= splice(buf, pos, data.push(v)));
}

/// When every byte fits, a sequence of writes succeeds and only the written
/// range changes.
pub proof fn lemma_store_bytes_ok(buf: Seq<u8>, pos: int, bytes: Seq<u8>)
    requires
        buf.len() == 512,
        0 <= pos,
        pos + bytes.len() <= 512,
    ensures
        ({
            let (b2, p2, r2) = store_bytes(buf, pos, bytes);
            &&& r2 == Ok::<(), DnsError>(())
            &&& p2 == pos + bytes.len()
            &&& b2.len() == 512
            &&& forall|i: int|
                0 <= i < 512 ==> b2[i] == (if pos <= i < pos + bytes.len() {
                    bytes[i - pos]
                } else {
                    buf[i]
                })
        }),
    decreases bytes.len(),
{
    if bytes.len() > 0 {
        lemma_store_bytes_ok(buf.update(pos, bytes[0]), pos + 1, bytes.drop_first());
    }
}

/// Writing a concatenation is writing the first part, then the second from
/// where the first left off; a failure in the first part stops everything.
pub proof fn lemma_store_bytes_append(buf: Seq<u8>, pos: int, a: Seq<u8>, b: Seq<u8>)
    ensures
        store_bytes(buf, pos, a + b) == ({
            let (b1, p1, r1) = store_bytes(buf, pos, a);
            if r1 is Err {
                (b1, p1, r1)
            } else {
                store_bytes(b1, p1, b)
            }
        }),
    decreases a.len(),
{
    if a.len() == 0 {
        assert(a + b =~= b);
    } else if !(0 <= pos < 512) {
        assert((a + b).len() > 0);
    } else {
        assert((a + b).drop_first() =~= a.drop_first() + b);
        lemma_store_bytes_append(buf.update(pos, (a + b)[0]), pos + 1, a.drop_first(), b);
    }
}

impl Buffer {
    /// The buffer holds exactly one datagram's address space and the cursor
    /// never points past its end.
    pub open spec fn wf(&self) -> bool {
        &&& self.buf@.len() == 512
        &&& self.pos <= 512
    }

    /// A fresh buffer: 512 zero bytes, cursor at the start.
    pub fn new() -> (r: Buffer)
        ensures
            r.wf(),
            r.pos == 0,
            r.buf@.len() == 512,
            forall|i: int| 0 <= i < 512 ==> r.buf@[i] == 0u8,
    {
        let mut buf: Vec<u8> = Vec::new();
        let mut i: usize = 0;
        while i < 512
            invariant
                i <= 512,
                buf@.len() == i,
                forall|j: int| 0 <= j < i ==> buf@[j] == 0u8,
            decreases 512 - i,
        {
            buf.push(0);
            i += 1;
        }
        Buffer { buf, pos: 0 }
    }

    /// Random-access read of one byte; the cursor does not move.
    pub fn get(&self, pos: usize) -> (r: Result<u8, DnsError>)
        requires
            self.wf(),
        ensures
            match r {
                Ok(v) => pos < 512 && v == self.buf@[pos as int],
                Err(e) => pos >= 512 && e == DnsError::OutOfBounds,
            },
    {
        if pos >= 512 {
            return Err(DnsError::OutOfBounds);
        }
        Ok(self.buf[pos])
    }

    /// Random-access read of a byte range; the cursor does not move. A range
    /// that exactly reaches the last valid byte is admitted.
    pub fn get_range(&self, pos: usize, len: usize) -> (r: Result<Vec<u8>, DnsError>)
        requires
            self.wf(),
        ensures
            match r {
                Ok(v) => pos + len <= 512 && v@ == self.buf@.subrange(pos as int, pos + len),
                Err(e) => pos + len > 512 && e == DnsError::OutOfBounds,
            },
    {
        if len > 512 || pos > 512 - len {
            return Err(DnsError::OutOfBounds);
        }
        let mut out: Vec<u8> = Vec::new();
        let mut i: usize = 0;
        while i < len
            invariant
                self.wf(),
                i <= len,
                pos + len <= 512,
                out@.len() == i,
                forall|j: int| 0 <= j < i ==> out@[j] == self.buf@[pos + j],
            decreases len - i,
        {
            out.push(self.buf[pos + i]);
            i += 1;
        }
        proof {
            assert(out@ =~= self.buf@.subrange(pos as int, pos + len));
        }
        Ok(out)
    }

    /// Read the byte under the cursor and advance the cursor by one.
    pub fn read_u8(&mut self) -> (r: Result<u8, DnsError>)
        requires
            old(self).wf(),
        ensures
            final(self).wf(),
            final(self).buf@ == old(self).buf@,
            match r {
                Ok(v) => old(self).pos < 512 && v == old(self).buf@[old(self).pos as int]
                    && final(self).pos == old(self).pos + 1,
                Err(e) => old(self).pos >= 512 && e == DnsError::OutOfBounds && final(self).pos
                    == old(self).pos,
            },
    {
        if self.pos >= 512 {
            return Err(DnsError::OutOfBounds);
        }
        let res = self.buf[self.pos];
        self.pos += 1;
        Ok(res)
    }

    /// Read two bytes under the cursor as one big-endian 16-bit value.
    pub fn read_u16(&mut self) -> (r: Result<u16, DnsError>)
        requires
            old(self).wf(),
        ensures
            final(self).wf(),
            final(self).buf@ == old(self).buf@,
            match r {
                Ok(v) => old(self).pos + 2 <= 512 && v as int == be16(
                    old(self).buf@[old(self).pos as int],
                    old(self).buf@[old(self).pos + 1],
                ) && final(self).pos == old(self).pos + 2,
                Err(e) => old(self).pos + 2 > 512 && e == DnsError::OutOfBounds && final(self).pos
                    == (if old(self).pos < 512 {
                    512int
                } else {
                    old(self).pos as int
                }),
            },
    {
        let hi = self.read_u8()?;
        let lo = self.read_u8()?;
        Ok((hi as u16) * 256 + (lo as u16))
    }

    /// Read four bytes under the cursor as one big-endian 32-bit value.
    pub fn read_u32(&mut self) -> (r: Result<u32, DnsError>)
        requires
            old(self).wf(),
        ensures
            final(self).wf(),
            final(self).buf@ == old(self).buf@,
            match r {
                Ok(v) => old(self).pos + 4 <= 512 && v as int == be32(
                    old(self).buf@[old(self).pos as int],
                    old(self).buf@[old(self).pos + 1],
                    old(self).buf@[old(self).pos + 2],
                    old(self).buf@[old(self).pos + 3],
                ) && final(self).pos == old(self).pos + 4,
                Err(e) => old(self).pos + 4 > 512 && e == DnsError::OutOfBounds && final(self).pos
                    == (if old(self).pos < 512 {
                    512int
                } else {
                    old(self).pos as int
                }),
            },
    {
        let hi = self.read_u16()?;
        let lo = self.read_u16()?;
        Ok((hi as u32) * 0x10000 + (lo as u32))
    }

    /// Write one byte at the cursor and advance the cursor by one.
    pub fn write_u8(&mut self, val: u8) -> (r: Result<(), DnsError>)
        requires
            old(self).wf(),
        ensures
            final(self).wf(),
            match r {
                Ok(v) => old(self).pos < 512 && final(self).buf@ == old(self).buf@.update(
                    old(self).pos as int,
                    val,
                ) && final(self).pos == old(self).pos + 1,
                Err(e) => old(self).pos >= 512 && e == DnsError::OutOfBounds && final(self).buf@
                    == old(self).buf@ && final(self).pos == old(self).pos,
            },
    {
        if self.pos >= 512 {
            return Err(DnsError::OutOfBounds);
        }
        self.buf[self.pos] = val;
        self.pos += 1;
        Ok(())
    }

    /// Write a 16-bit value at the cursor as two big-endian bytes, stopping at
    /// the first byte that does not fit.
    pub fn write_u16(&mut self, val: u16) -> (r: Result<(), DnsError>)
        requires
            old(self).wf(),
        ensures
            final(self).wf(),
            ({
                let (b2, p2, r2) = store_bytes(old(self).buf@, old(self).pos as int, u16_be(val));
                final(self).buf@ == b2 && final(self).pos as int == p2 && r == r2
            }),
    {
        proof {
            reveal_with_fuel(store_bytes, 4);
            assert(u16_be(val).drop_first() =~= seq![(val % 256) as u8]);
            assert(seq![(val % 256) as u8].drop_first() =~= Seq::<u8>::empty());
        }
        self.write_u8((val / 256) as u8)?;
        self.write_u8((val % 256) as u8)?;
        Ok(())
    }

    /// Write a 32-bit value at the cursor as four big-endian bytes, stopping
    /// at the first byte that does not fit.
    pub fn write_u32(&mut self, val: u32) -> (r: Result<(), DnsError>)
        requires
            old(self).wf(),
        ensures
            final(self).wf(),
            ({
                let (b2, p2, r2) = store_bytes(old(self).buf@, old(self).pos as int, u32_be(val));
                final(self).buf@ == b2 && final(self).pos as int == p2 && r == r2
            }),
    {
        proof {
            lemma_store_bytes_append(
                old(self).buf@,
                old(self).pos as int,
                u16_be((val / 0x10000) as u16),
                u16_be((val % 0x10000) as u16),
            );
        }
        self.write_u16((val / 0x10000) as u16)?;
        self.write_u16((val % 0x10000) as u16)?;
        Ok(())
    }
}

/// Writing a 16-bit value big-endian and then reading two bytes back from the
/// same position yields the value that was written.
pub proof fn lemma_u16_round_trip(buf: Seq<u8>, pos: int, v: u16)
    requires
        buf.len() == 512,
        0 <= pos,
        pos + 2 <= 512,
    ensures
        ({
            let (b2, p2, r2) = store_bytes(buf, pos, u16_be(v));
            &&& r2 == Ok::<(), DnsError>(())
            &&& p2 == pos + 2
            &&& be16(b2[pos], b2[pos + 1]) == v
        }),
{
    lemma_store_bytes_ok(buf, pos, u16_be(v));
}

/// Writing a 32-bit value big-endian and then reading four bytes back from
/// the same position yields the value that was written.
pub proof fn lemma_u32_round_trip(buf: Seq<u8>, pos: int, v: u32)
    requires
        buf.len() == 512,
        0 <= pos,
        pos + 4 <= 512,
    ensures
        ({
            let (b2, p2, r2) = store_bytes(buf, pos, u32_be(v));
            &&& r2 == Ok::<(), DnsError>(())
            &&& p2 == pos + 4
            &&& be32(b2[pos], b2[pos + 1], b2[pos + 2], b2[pos + 3]) == v
        }),
{
    lemma_store_bytes_ok(buf, pos, u32_be(v));
}

} // verus!
