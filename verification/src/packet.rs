use vstd::prelude::*;

use crate::buffer::{
    be16, be32, lemma_splice_push, lemma_store_bytes_append, lemma_store_extends_splice, splice,
    store_bytes, u16_be, u32_be, Buffer,
};
use crate::error::DnsError;
use crate::name::{
    encode_labels, lemma_encode_len, name_chars, name_labels_fit, read_name, resume_at,
    split_labels, MAX_JUMPS,
};
use vstd::string::StringSliceAdditionalSpecFns;
use vstd::utf8::encode_utf8;

verus! {

/// The 16-bit big-endian value stored at `p`.
pub open spec fn be16u(buf: Seq<u8>, p: int) -> u16 {
    be16(buf[p], buf[p + 1]) as u16
}

/// The 32-bit big-endian value stored at `p`.
pub open spec fn be32u(buf: Seq<u8>, p: int) -> u32 {
    be32(buf[p], buf[p + 1], buf[p + 2], buf[p + 3]) as u32
}

/// The message header: an identifier, the flag bits, and the four counts that
/// drive how many entities the rest of the datagram holds.
#[derive(Clone, Copy, Debug, PartialEq, Eq, Structural)]
pub struct Header {
    pub id: u16,
    pub flags: u16,
    pub questions: u16,
    pub answers: u16,
    pub authoritative_entries: u16,
    pub resource_entries: u16,
}

/// What a header read at `pos` yields: the six fields and the position right
/// after the twelve header bytes.
pub open spec fn parse_header(buf: Seq<u8>, pos: int) -> Result<(Header, int), DnsError> {
    if 0 <= pos && pos + 12 <= 512 {
        Ok(
            (
                Header {
                    id: be16u(buf, pos),
                    flags: be16u(buf, pos + 2),
                    questions: be16u(buf, pos + 4),
                    answers: be16u(buf, pos + 6),
                    authoritative_entries: be16u(buf, pos + 8),
                    resource_entries: be16u(buf, pos + 10),
                },
                pos + 12,
            ),
        )
    } else {
        Err(DnsError::OutOfBounds)
    }
}

impl Header {
    /// A header with every field zero.
    pub fn new() -> (h: Header)
        ensures
            h == (Header {
                id: 0,
                flags: 0,
                questions: 0,
                answers: 0,
                authoritative_entries: 0,
                resource_entries: 0,
            }),
    {
        Header {
            id: 0,
            flags: 0,
            questions: 0,
            answers: 0,
            authoritative_entries: 0,
            resource_entries: 0,
        }
    }

    /// Read the six header fields from the cursor. On an error the header is
    /// unchanged and the cursor stands at the end of the datagram.
    pub fn read(&mut self, buffer: &mut Buffer) -> (r: Result<(), DnsError>)
        requires
            old(buffer).wf(),
        ensures
            final(buffer).wf(),
            final(buffer).buf@ == old(buffer).buf@,
            match r {
                Ok(()) => ({
                    &&& parse_header(old(buffer).buf@, old(buffer).pos as int) matches Ok(h)
                        && *final(self) == h.0 && final(buffer).pos as int == h.1
                }),
                Err(e) => ({
                    &&& parse_header(old(buffer).buf@, old(buffer).pos as int) == Err::<
                        (Header, int),
                        DnsError,
                    >(e)
                    &&& *final(self) == *old(self)
                    &&& final(buffer).pos == 512
                }),
            },
    {
        let id = buffer.read_u16()?;
        let flags = buffer.read_u16()?;
        let questions = buffer.read_u16()?;
        let answers = buffer.read_u16()?;
        let authoritative_entries = buffer.read_u16()?;
        let resource_entries = buffer.read_u16()?;
        *self = Header { id, flags, questions, answers, authoritative_entries, resource_entries };
        Ok(())
    }
}

/// The twelve wire bytes of a header, big-endian field by field.
pub open spec fn header_bytes(h: Header) -> Seq<u8> {
    u16_be(h.id) + u16_be(h.flags) + u16_be(h.questions) + u16_be(h.answers) + u16_be(
        h.authoritative_entries,
    ) + u16_be(h.resource_entries)
}

impl Header {
    /// Write the six header fields at the cursor as big-endian values,
    /// stopping at the first byte that does not fit.
    pub fn write(&self, buffer: &mut Buffer) -> (r: Result<(), DnsError>)
        requires
            old(buffer).wf(),
        ensures
            final(buffer).wf(),
            ({
                let (b2, p2, r2) = store_bytes(
                    old(buffer).buf@,
                    old(buffer).pos as int,
                    header_bytes(*self),
                );
                final(buffer).buf@ == b2 && final(buffer).pos as int == p2 && r == r2
            }),
    {
        proof {
            let b0 = old(buffer).buf@;
            let p0 = old(buffer).pos as int;
            let a1 = u16_be(self.id);
            let a2 = u16_be(self.flags);
            let a3 = u16_be(self.questions);
            let a4 = u16_be(self.answers);
            let a5 = u16_be(self.authoritative_entries);
            let a6 = u16_be(self.resource_entries);
            lemma_store_bytes_append(b0, p0, a1, a2);
            lemma_store_bytes_append(b0, p0, a1 + a2, a3);
            lemma_store_bytes_append(b0, p0, a1 + a2 + a3, a4);
            lemma_store_bytes_append(b0, p0, a1 + a2 + a3 + a4, a5);
            lemma_store_bytes_append(b0, p0, a1 + a2 + a3 + a4 + a5, a6);
        }
        buffer.write_u16(self.id)?;
        buffer.write_u16(self.flags)?;
        buffer.write_u16(self.questions)?;
        buffer.write_u16(self.answers)?;
        buffer.write_u16(self.authoritative_entries)?;
        buffer.write_u16(self.resource_entries)?;
        Ok(())
    }
}

/// Law: a header written whole reads back field for field, with the cursor
/// right after its twelve bytes. It holds at every position the header fits
/// at.
pub proof fn lemma_header_round_trip(buf: Seq<u8>, pos: int, h: Header)
    requires
        buf.len() == 512,
        0 <= pos,
        pos + 12 <= 512,
    ensures
        ({
            let (b2, p2, r2) = store_bytes(buf, pos, header_bytes(h));
            &&& r2 == Ok::<(), DnsError>(())
            &&& p2 == pos + 12
            &&& parse_header(b2, pos) == Ok::<(Header, int), DnsError>((h, pos + 12))
        }),
{
    crate::buffer::lemma_store_bytes_ok(buf, pos, header_bytes(h));
    let hb = header_bytes(h);
    let b2 = store_bytes(buf, pos, hb).0;
    assert(b2[pos] == hb[0] && b2[pos + 1] == hb[1] && b2[pos + 2] == hb[2] && b2[pos + 3] == hb[3]
        && b2[pos + 4] == hb[4] && b2[pos + 5] == hb[5] && b2[pos + 6] == hb[6] && b2[pos + 7]
        == hb[7] && b2[pos + 8] == hb[8] && b2[pos + 9] == hb[9] && b2[pos + 10] == hb[10] && b2[pos
        + 11] == hb[11]);
    assert(be16u(b2, pos) == h.id);
    assert(be16u(b2, pos + 2) == h.flags);
    assert(be16u(b2, pos + 4) == h.questions);
    assert(be16u(b2, pos + 6) == h.answers);
    assert(be16u(b2, pos + 8) == h.authoritative_entries);
    assert(be16u(b2, pos + 10) == h.resource_entries);
}

/// The kind of record a question asks for.
#[derive(Clone, Copy, Debug, PartialEq, Eq, Structural)]
pub enum QueryType {
    UNKNOWN(u16),
    A,
}

impl QueryType {
    /// The query type a wire number stands for.
    pub open spec fn from_num_spec(num: u16) -> QueryType {
        if num == 1 {
            QueryType::A
        } else {
            QueryType::UNKNOWN(num)
        }
    }

    /// The wire number of this query type.
    pub open spec fn num_spec(&self) -> u16 {
        match *self {
            QueryType::A => 1,
            QueryType::UNKNOWN(x) => x,
        }
    }

    pub fn from_num(num: u16) -> (q: QueryType)
        ensures
            q == QueryType::from_num_spec(num),
    {
        if num == 1 {
            QueryType::A
        } else {
            QueryType::UNKNOWN(num)
        }
    }

    pub fn to_num(&self) -> (n: u16)
        ensures
            n == self.num_spec(),
    {
        match *self {
            QueryType::A => 1,
            QueryType::UNKNOWN(x) => x,
        }
    }
}

/// One entry of the question section: a name and the type asked for.
#[derive(Clone, Debug)]
pub struct Question {
    pub name: String,
    pub qtype: QueryType,
}

/// What a question read at `pos` yields: its name's text, its type number,
/// and the position right after it. The class field is read and dropped.
pub open spec fn parse_question(buf: Seq<u8>, pos: int) -> Result<
    ((Seq<char>, u16), int),
    DnsError,
> {
    match read_name(buf, pos, MAX_JUMPS as int) {
        Err(e) => Err(e),
        Ok(labels) => {
            let p1 = resume_at(buf, pos);
            if p1 + 4 <= 512 {
                Ok(((name_chars(labels), be16u(buf, p1)), p1 + 4))
            } else {
                Err(DnsError::OutOfBounds)
            }
        },
    }
}

impl Question {
    /// The name's text and the type's wire number.
    pub open spec fn model(&self) -> (Seq<char>, u16) {
        (self.name@, self.qtype.num_spec())
    }

    pub fn new(name: String, qtype: QueryType) -> (q: Question)
        ensures
            q.name@ == name@,
            q.qtype == qtype,
    {
        Question { name, qtype }
    }

    /// Read one question from the cursor: its name, its type, and the class
    /// field, which is dropped. The decoded name is appended to `self.name`.
    /// On an error the question is unchanged.
    pub fn read(&mut self, buffer: &mut Buffer) -> (r: Result<(), DnsError>)
        requires
            old(buffer).wf(),
        ensures
            final(buffer).wf(),
            final(buffer).buf@ == old(buffer).buf@,
            match r {
                Ok(()) => ({
                    &&& parse_question(old(buffer).buf@, old(buffer).pos as int) matches Ok(q)
                        && final(self).name@ == old(self).name@ + q.0.0 && final(self).qtype
                        == QueryType::from_num_spec(q.0.1) && final(buffer).pos as int == q.1
                }),
                Err(e) => ({
                    &&& parse_question(old(buffer).buf@, old(buffer).pos as int) == Err::<
                        ((Seq<char>, u16), int),
                        DnsError,
                    >(e)
                    &&& final(self).name@ == old(self).name@
                    &&& final(self).qtype == old(self).qtype
                    &&& final(buffer).pos as int == (if read_name(
                        old(buffer).buf@,
                        old(buffer).pos as int,
                        MAX_JUMPS as int,
                    ) is Err {
                        old(buffer).pos as int
                    } else {
                        512int
                    })
                }),
            },
    {
        let mut nm = String::new();
        buffer.get_domain_name(&mut nm)?;
        let qt = buffer.read_u16()?;
        let _class = buffer.read_u16()?;
        self.name.append(nm.as_str());
        self.qtype = QueryType::from_num(qt);
        Ok(())
    }
}

/// The wire bytes of one question: the encoded name, the type number, and
/// the class, always 1.
pub open spec fn question_bytes(nb: Seq<u8>, qt: u16) -> Seq<u8> {
    encode_labels(split_labels(nb)) + u16_be(qt) + u16_be(1)
}

/// What writing one question at `pos` leaves behind: the question written
/// whole, or — when a name label is longer than 63 bytes, or the question
/// does not fit the datagram — nothing changed and the first error.
pub open spec fn write_question_s(buf: Seq<u8>, pos: int, name: Seq<char>, qt: u16) -> (
    Seq<u8>,
    int,
    Result<(), DnsError>,
) {
    let nb = encode_utf8(name);
    let ls = split_labels(nb);
    if exists|i: int| 0 <= i < ls.len() && #[trigger] ls[i].len() > 63 {
        (buf, pos, Err(DnsError::LabelTooLong))
    } else if pos + nb.len() + 6 > 512 {
        (buf, pos, Err(DnsError::OutOfBounds))
    } else {
        (splice(buf, pos, question_bytes(nb, qt)), pos + nb.len() + 6, Ok(()))
    }
}

impl Question {
    /// Write this question at the cursor: the name, the type number, and the
    /// class, always 1. Either the whole question is written, or nothing is
    /// changed.
    pub fn write(&self, buffer: &mut Buffer) -> (r: Result<(), DnsError>)
        requires
            old(buffer).wf(),
        ensures
            final(buffer).wf(),
            ({
                let (b2, p2, r2) = write_question_s(
                    old(buffer).buf@,
                    old(buffer).pos as int,
                    self.name@,
                    self.qtype.num_spec(),
                );
                final(buffer).buf@ == b2 && final(buffer).pos as int == p2 && r == r2
            }),
    {
        let ghost b0 = buffer.buf@;
        let ghost p0 = buffer.pos as int;
        let ghost nb = encode_utf8(self.name@);
        let ghost enc = encode_labels(split_labels(nb));
        let name_str = self.name.as_str();
        if !name_labels_fit(name_str) {
            return Err(DnsError::LabelTooLong);
        }
        let nlen = name_str.as_bytes().len();
        proof {
            assert(name_str.spec_bytes() == nb);
            assert(nlen == nb.len());
            assert(forall|i: int|
                0 <= i < split_labels(nb).len() ==> #[trigger] split_labels(nb)[i].len() <= 63);
        }
        if buffer.pos > 506 || nlen > 506 - buffer.pos {
            return Err(DnsError::OutOfBounds);
        }
        proof {
            lemma_encode_len(nb);
            lemma_store_extends_splice(b0, p0, enc, u16_be(self.qtype.num_spec()));
            lemma_store_extends_splice(b0, p0, enc + u16_be(self.qtype.num_spec()), u16_be(1));
        }
        buffer.set_domain_name(self.name.as_str())?;
        let qt = self.qtype.to_num();
        buffer.write_u16(qt)?;
        buffer.write_u16(1)?;
        Ok(())
    }
}

/// Law: a question written whole reads back as itself — the name folded to
/// lower case and the same type number — with the cursor right after it. It
/// holds for every name whose labels hold 1 to 63 bytes each and every
/// position the question fits at.
pub proof fn lemma_question_round_trip(buf: Seq<u8>, pos: int, name: Seq<char>, qt: u16)
    requires
        buf.len() == 512,
        0 <= pos,
        forall|i: int|
            0 <= i < split_labels(encode_utf8(name)).len() ==> 1 <= #[trigger] split_labels(
                encode_utf8(name),
            )[i].len() <= 63,
        pos + encode_utf8(name).len() + 6 <= 512,
    ensures
        ({
            let (b2, p2, r2) = write_question_s(buf, pos, name, qt);
            &&& r2 == Ok::<(), DnsError>(())
            &&& parse_question(b2, pos) == Ok::<((Seq<char>, u16), int), DnsError>(
                ((crate::name::lower_chars(encode_utf8(name)), qt), p2),
            )
        }),
{
    let nb = encode_utf8(name);
    let ls = split_labels(nb);
    let enc = encode_labels(ls);
    let qb = question_bytes(nb, qt);
    let b2 = splice(buf, pos, qb);
    lemma_encode_len(nb);
    crate::name::lemma_split_join(nb);
    crate::buffer::lemma_splice_facts(buf, pos, qb);
    assert forall|j: int| 0 <= j < enc.len() implies b2.subrange(pos, pos + enc.len())[j]
        == enc[j] by {
        assert(b2.subrange(pos, pos + enc.len())[j] == b2[pos + j]);
        assert(b2[pos + j] == qb[j]);
        assert(qb[j] == enc[j]);
    }
    assert(b2.subrange(pos, pos + enc.len()) =~= enc);
    crate::name::lemma_read_encoded(b2, pos, ls, MAX_JUMPS as int);
    let p1 = pos + enc.len();
    assert(b2[p1] == qb[enc.len() as int]);
    assert(b2[p1 + 1] == qb[enc.len() as int + 1]);
    assert(qb[enc.len() as int] == u16_be(qt)[0]);
    assert(qb[enc.len() as int + 1] == u16_be(qt)[1]);
    assert(be16u(b2, p1) == qt);
}

/// One resource record: a name, its type and class numbers, a time to live,
/// and the raw type-specific payload.
#[derive(Clone, Debug)]
pub struct Record {
    pub name: String,
    pub qtype: QueryType,
    pub class: u16,
    pub ttl: u32,
    pub data: Vec<u8>,
}

/// What a record read at `pos` yields: name text, type number, class, time to
/// live, raw payload, and the position right after the payload.
pub open spec fn parse_record(buf: Seq<u8>, pos: int) -> Result<
    ((Seq<char>, u16, u16, u32, Seq<u8>), int),
    DnsError,
> {
    match read_name(buf, pos, MAX_JUMPS as int) {
        Err(e) => Err(e),
        Ok(labels) => {
            let p1 = resume_at(buf, pos);
            if p1 + 10 <= 512 {
                let dlen = be16u(buf, p1 + 8) as int;
                if p1 + 10 + dlen <= 512 {
                    Ok(
                        (
                            (
                                name_chars(labels),
                                be16u(buf, p1),
                                be16u(buf, p1 + 2),
                                be32u(buf, p1 + 4),
                                buf.subrange(p1 + 10, p1 + 10 + dlen),
                            ),
                            p1 + 10 + dlen,
                        ),
                    )
                } else {
                    Err(DnsError::OutOfBounds)
                }
            } else {
                Err(DnsError::OutOfBounds)
            }
        },
    }
}

impl Record {
    /// Name text, type number, class, time to live, and payload.
    pub open spec fn model(&self) -> (Seq<char>, u16, u16, u32, Seq<u8>) {
        (self.name@, self.qtype.num_spec(), self.class, self.ttl, self.data@)
    }

    /// Read one record from the cursor: its name, the fixed fields, and then
    /// exactly as many payload bytes as the length field declares.
    #[verifier::loop_isolation(false)]
    pub fn read(buffer: &mut Buffer) -> (r: Result<Record, DnsError>)
        requires
            old(buffer).wf(),
        ensures
            final(buffer).wf(),
            final(buffer).buf@ == old(buffer).buf@,
            match r {
                Ok(rec) => ({
                    &&& parse_record(old(buffer).buf@, old(buffer).pos as int) matches Ok(m)
                        && rec.model() == m.0 && final(buffer).pos as int == m.1
                }),
                Err(e) => ({
                    &&& parse_record(old(buffer).buf@, old(buffer).pos as int) == Err::<
                        ((Seq<char>, u16, u16, u32, Seq<u8>), int),
                        DnsError,
                    >(e)
                    &&& final(buffer).pos as int == (if read_name(
                        old(buffer).buf@,
                        old(buffer).pos as int,
                        MAX_JUMPS as int,
                    ) is Err {
                        old(buffer).pos as int
                    } else {
                        512int
                    })
                }),
            },
    {
        let mut nm = String::new();
        buffer.get_domain_name(&mut nm)?;
        let qt = buffer.read_u16()?;
        let class = buffer.read_u16()?;
        let ttl = buffer.read_u32()?;
        let dlen = buffer.read_u16()?;
        let ghost dstart = buffer.pos as int;
        let mut data: Vec<u8> = Vec::new();
        let mut k: usize = 0;
        while k < dlen as usize
            invariant
                buffer.wf(),
                buffer.buf@ == old(buffer).buf@,
                k <= dlen as usize,
                buffer.pos as int == dstart + k,
                data@ == buffer.buf@.subrange(dstart, dstart + k),
            decreases dlen as usize - k,
        {
            let b = buffer.read_u8()?;
            data.push(b);
            proof {
                assert(data@ =~= buffer.buf@.subrange(dstart, dstart + k + 1));
            }
            k += 1;
        }
        Ok(Record { name: nm, qtype: QueryType::from_num(qt), class, ttl, data })
    }
}

/// The wire bytes of one record: the encoded name, the type, class and time
/// to live, the payload length, and the payload itself.
pub open spec fn record_bytes(nb: Seq<u8>, qt: u16, class: u16, ttl: u32, data: Seq<u8>) -> Seq<
    u8,
> {
    encode_labels(split_labels(nb)) + u16_be(qt) + u16_be(class) + u32_be(ttl) + u16_be(
        data.len() as u16,
    ) + data
}

/// What writing one record at `pos` leaves behind: the record written whole,
/// or — when a name label is longer than 63 bytes, or the record does not
/// fit the datagram — nothing changed and the first error.
pub open spec fn write_record_s(
    buf: Seq<u8>,
    pos: int,
    name: Seq<char>,
    qt: u16,
    class: u16,
    ttl: u32,
    data: Seq<u8>,
) -> (Seq<u8>, int, Result<(), DnsError>) {
    let nb = encode_utf8(name);
    let ls = split_labels(nb);
    if exists|i: int| 0 <= i < ls.len() && #[trigger] ls[i].len() > 63 {
        (buf, pos, Err(DnsError::LabelTooLong))
    } else if pos + nb.len() + 12 + data.len() > 512 {
        (buf, pos, Err(DnsError::OutOfBounds))
    } else {
        (
            splice(buf, pos, record_bytes(nb, qt, class, ttl, data)),
            pos + nb.len() + 12 + data.len(),
            Ok(()),
        )
    }
}

impl Record {
    /// Write this record at the cursor: the name, the fixed fields, and the
    /// payload with its length declared first. Either the whole record is
    /// written, or nothing is changed.
    #[verifier::loop_isolation(false)]
    pub fn write(&self, buffer: &mut Buffer) -> (r: Result<(), DnsError>)
        requires
            old(buffer).wf(),
        ensures
            final(buffer).wf(),
            ({
                let (b2, p2, r2) = write_record_s(
                    old(buffer).buf@,
                    old(buffer).pos as int,
                    self.name@,
                    self.qtype.num_spec(),
                    self.class,
                    self.ttl,
                    self.data@,
                );
                final(buffer).buf@ == b2 && final(buffer).pos as int == p2 && r == r2
            }),
    {
        let ghost b0 = buffer.buf@;
        let ghost p0 = buffer.pos as int;
        let ghost nb = encode_utf8(self.name@);
        let ghost enc = encode_labels(split_labels(nb));
        let name_str = self.name.as_str();
        if !name_labels_fit(name_str) {
            return Err(DnsError::LabelTooLong);
        }
        let nlen = name_str.as_bytes().len();
        let dlen = self.data.len();
        proof {
            assert(name_str.spec_bytes() == nb);
            assert(nlen == nb.len());
            assert(forall|i: int|
                0 <= i < split_labels(nb).len() ==> #[trigger] split_labels(nb)[i].len() <= 63);
        }
        if buffer.pos > 500 {
            return Err(DnsError::OutOfBounds);
        }
        let avail = 500 - buffer.pos;
        if nlen > avail || dlen > avail - nlen {
            return Err(DnsError::OutOfBounds);
        }
        let ghost prefix = enc + u16_be(self.qtype.num_spec()) + u16_be(self.class) + u32_be(
            self.ttl,
        ) + u16_be(self.data@.len() as u16);
        proof {
            lemma_encode_len(nb);
            let qtb = u16_be(self.qtype.num_spec());
            let clb = u16_be(self.class);
            let ttlb = u32_be(self.ttl);
            let dlb = u16_be(self.data@.len() as u16);
            lemma_store_extends_splice(b0, p0, enc, qtb);
            lemma_store_extends_splice(b0, p0, enc + qtb, clb);
            lemma_store_extends_splice(b0, p0, enc + qtb + clb, ttlb);
            lemma_store_extends_splice(b0, p0, enc + qtb + clb + ttlb, dlb);
        }
        buffer.set_domain_name(name_str)?;
        buffer.write_u16(self.qtype.to_num())?;
        buffer.write_u16(self.class)?;
        buffer.write_u32(self.ttl)?;
        buffer.write_u16(dlen as u16)?;
        proof {
            assert(prefix + self.data@.take(0) =~= prefix);
        }
        let mut j: usize = 0;
        while j < dlen
            invariant
                j <= self.data@.len(),
                dlen == self.data@.len(),
                buffer.wf(),
                buffer.buf@ == splice(b0, p0, prefix + self.data@.take(j as int)),
                buffer.pos as int == p0 + prefix.len() + j,
            decreases dlen - j,
        {
            proof {
                lemma_splice_push(
                    b0,
                    p0,
                    prefix + self.data@.take(j as int),
                    self.data@[j as int],
                );
                assert((prefix + self.data@.take(j as int)).push(self.data@[j as int]) =~= prefix
                    + self.data@.take(j + 1));
            }
            buffer.write_u8(self.data[j])?;
            j += 1;
        }
        proof {
            assert(prefix + self.data@.take(dlen as int) =~= record_bytes(
                nb,
                self.qtype.num_spec(),
                self.class,
                self.ttl,
                self.data@,
            ));
        }
        Ok(())
    }
}

/// Entities already read, in front of the outcome of the rest of the pass.
pub open spec fn prepend_parsed<T>(pre: Seq<T>, r: Result<(Seq<T>, int), DnsError>) -> Result<
    (Seq<T>, int),
    DnsError,
> {
    match r {
        Ok(rest) => Ok((pre + rest.0, rest.1)),
        Err(e) => Err(e),
    }
}

/// What reading `n` questions in a row from `pos` yields: their models in
/// order and the position after the last one. The first failure aborts all.
pub open spec fn parse_questions(buf: Seq<u8>, pos: int, n: int) -> Result<
    (Seq<(Seq<char>, u16)>, int),
    DnsError,
>
    decreases n,
{
    if n <= 0 {
        Ok((Seq::empty(), pos))
    } else {
        match parse_question(buf, pos) {
            Err(e) => Err(e),
            Ok(q) => prepend_parsed(seq![q.0], parse_questions(buf, q.1, n - 1)),
        }
    }
}

/// What reading `n` records in a row from `pos` yields.
pub open spec fn parse_records(buf: Seq<u8>, pos: int, n: int) -> Result<
    (Seq<(Seq<char>, u16, u16, u32, Seq<u8>)>, int),
    DnsError,
>
    decreases n,
{
    if n <= 0 {
        Ok((Seq::empty(), pos))
    } else {
        match parse_record(buf, pos) {
            Err(e) => Err(e),
            Ok(m) => prepend_parsed(seq![m.0], parse_records(buf, m.1, n - 1)),
        }
    }
}

pub proof fn lemma_parse_questions_len(buf: Seq<u8>, pos: int, n: int)
    requires
        n >= 0,
        parse_questions(buf, pos, n) is Ok,
    ensures
        parse_questions(buf, pos, n).unwrap().0.len() == n,
    decreases n,
{
    if n > 0 {
        let q = parse_question(buf, pos).unwrap();
        lemma_parse_questions_len(buf, q.1, n - 1);
    }
}

pub proof fn lemma_parse_records_len(buf: Seq<u8>, pos: int, n: int)
    requires
        n >= 0,
        parse_records(buf, pos, n) is Ok,
    ensures
        parse_records(buf, pos, n).unwrap().0.len() == n,
    decreases n,
{
    if n > 0 {
        let m = parse_record(buf, pos).unwrap();
        lemma_parse_records_len(buf, m.1, n - 1);
    }
}

/// What decoding a whole message at `pos` yields: the header, then exactly as
/// many questions and records as its counts declare, in wire order.
pub open spec fn parse_message(buf: Seq<u8>, pos: int) -> Result<
    (
        Header,
        Seq<(Seq<char>, u16)>,
        Seq<(Seq<char>, u16, u16, u32, Seq<u8>)>,
        Seq<(Seq<char>, u16, u16, u32, Seq<u8>)>,
        Seq<(Seq<char>, u16, u16, u32, Seq<u8>)>,
        int,
    ),
    DnsError,
> {
    match parse_header(buf, pos) {
        Err(e) => Err(e),
        Ok((h, p1)) => match parse_questions(buf, p1, h.questions as int) {
            Err(e) => Err(e),
            Ok((qs, p2)) => match parse_records(buf, p2, h.answers as int) {
                Err(e) => Err(e),
                Ok((ans, p3)) => match parse_records(buf, p3, h.authoritative_entries as int) {
                    Err(e) => Err(e),
                    Ok((auth, p4)) => match parse_records(buf, p4, h.resource_entries as int) {
                        Err(e) => Err(e),
                        Ok((res, p5)) => Ok((h, qs, ans, auth, res, p5)),
                    },
                },
            },
        },
    }
}

/// Read `count` questions in a row from the cursor.
#[verifier::loop_isolation(false)]
fn read_questions(buffer: &mut Buffer, count: u16) -> (r: Result<Vec<Question>, DnsError>)
    requires
        old(buffer).wf(),
    ensures
        final(buffer).wf(),
        final(buffer).buf@ == old(buffer).buf@,
        match r {
            Ok(v) => ({
                &&& parse_questions(old(buffer).buf@, old(buffer).pos as int, count as int)
                    matches Ok(m) && v@.map_values(|q: Question| q.model()) == m.0 && final(buffer).pos as int
                    == m.1
            }),
            Err(e) => parse_questions(old(buffer).buf@, old(buffer).pos as int, count as int)
                == Err::<(Seq<(Seq<char>, u16)>, int), DnsError>(e),
        },
{
    let ghost buf0 = buffer.buf@;
    let ghost pos0 = buffer.pos as int;
    let mut v: Vec<Question> = Vec::new();
    let mut k: u16 = 0;
    proof {
        assert(v@.map_values(|q: Question| q.model()) =~= Seq::<(Seq<char>, u16)>::empty());
    }
    while k < count
        invariant
            buffer.wf(),
            buffer.buf@ == buf0,
            k <= count,
            v@.len() == k,
            parse_questions(buf0, pos0, count as int) == prepend_parsed(
                v@.map_values(|q: Question| q.model()),
                parse_questions(buf0, buffer.pos as int, count as int - k),
            ),
        decreases count as int - k,
    {
        let mut question = Question::new(String::new(), QueryType::UNKNOWN(0));
        let ghost prev = v@.map_values(|q: Question| q.model());
        let ghost cur = buffer.pos as int;
        question.read(buffer)?;
        proof {
            let q = parse_question(buf0, cur).unwrap();
            assert(question.model() == q.0);
        }
        v.push(question);
        proof {
            let q = parse_question(buf0, cur).unwrap();
            assert(v@.map_values(|q: Question| q.model()) =~= prev.push(q.0));
            let rest = parse_questions(buf0, q.1, count as int - k - 1);
            if rest is Ok {
                assert(prev + (seq![q.0] + rest.unwrap().0) =~= prev.push(q.0) + rest.unwrap().0);
            }
        }
        k += 1;
    }
    proof {
        let m = parse_questions(buf0, buffer.pos as int, 0);
        assert(v@.map_values(|q: Question| q.model()) + Seq::<(Seq<char>, u16)>::empty() =~= v@
            .map_values(|q: Question| q.model()));
    }
    Ok(v)
}

/// Read `count` records in a row from the cursor.
#[verifier::loop_isolation(false)]
fn read_records(buffer: &mut Buffer, count: u16) -> (r: Result<Vec<Record>, DnsError>)
    requires
        old(buffer).wf(),
    ensures
        final(buffer).wf(),
        final(buffer).buf@ == old(buffer).buf@,
        match r {
            Ok(v) => ({
                &&& parse_records(old(buffer).buf@, old(buffer).pos as int, count as int)
                    matches Ok(m) && v@.map_values(|rec: Record| rec.model()) == m.0 && final(buffer).pos as int
                    == m.1
            }),
            Err(e) => parse_records(old(buffer).buf@, old(buffer).pos as int, count as int)
                == Err::<(Seq<(Seq<char>, u16, u16, u32, Seq<u8>)>, int), DnsError>(e),
        },
{
    let ghost buf0 = buffer.buf@;
    let ghost pos0 = buffer.pos as int;
    let mut v: Vec<Record> = Vec::new();
    let mut k: u16 = 0;
    proof {
        assert(v@.map_values(|rec: Record| rec.model()) =~= Seq::<
            (Seq<char>, u16, u16, u32, Seq<u8>),
        >::empty());
    }
    while k < count
        invariant
            buffer.wf(),
            buffer.buf@ == buf0,
            k <= count,
            v@.len() == k,
            parse_records(buf0, pos0, count as int) == prepend_parsed(
                v@.map_values(|rec: Record| rec.model()),
                parse_records(buf0, buffer.pos as int, count as int - k),
            ),
        decreases count as int - k,
    {
        let ghost prev = v@.map_values(|rec: Record| rec.model());
        let ghost cur = buffer.pos as int;
        let rec = Record::read(buffer)?;
        v.push(rec);
        proof {
            let m = parse_record(buf0, cur).unwrap();
            assert(v@.map_values(|rec: Record| rec.model()) =~= prev.push(m.0));
            let rest = parse_records(buf0, m.1, count as int - k - 1);
            if rest is Ok {
                assert(prev + (seq![m.0] + rest.unwrap().0) =~= prev.push(m.0) + rest.unwrap().0);
            }
        }
        k += 1;
    }
    proof {
        assert(v@.map_values(|rec: Record| rec.model()) + Seq::<
            (Seq<char>, u16, u16, u32, Seq<u8>),
        >::empty() =~= v@.map_values(|rec: Record| rec.model()));
    }
    Ok(v)
}

/// Law: a record written whole reads back as itself — the name folded to
/// lower case, the same fixed fields, and the same payload — with the cursor
/// right after it. It holds for every name whose labels hold 1 to 63 bytes
/// each and every position the record fits at.
pub proof fn lemma_record_round_trip(
    buf: Seq<u8>,
    pos: int,
    name: Seq<char>,
    qt: u16,
    class: u16,
    ttl: u32,
    data: Seq<u8>,
)
    requires
        buf.len() == 512,
        0 <= pos,
        forall|i: int|
            0 <= i < split_labels(encode_utf8(name)).len() ==> 1 <= #[trigger] split_labels(
                encode_utf8(name),
            )[i].len() <= 63,
        pos + encode_utf8(name).len() + 12 + data.len() <= 512,
    ensures
        ({
            let (b2, p2, r2) = write_record_s(buf, pos, name, qt, class, ttl, data);
            &&& r2 == Ok::<(), DnsError>(())
            &&& parse_record(b2, pos) == Ok::<((Seq<char>, u16, u16, u32, Seq<u8>), int), DnsError>(
                ((crate::name::lower_chars(encode_utf8(name)), qt, class, ttl, data), p2),
            )
        }),
{
    let nb = encode_utf8(name);
    let ls = split_labels(nb);
    let enc = encode_labels(ls);
    let rb = record_bytes(nb, qt, class, ttl, data);
    let b2 = splice(buf, pos, rb);
    lemma_encode_len(nb);
    crate::name::lemma_split_join(nb);
    crate::buffer::lemma_splice_facts(buf, pos, rb);
    assert forall|j: int| 0 <= j < enc.len() implies b2.subrange(pos, pos + enc.len())[j]
        == enc[j] by {
        assert(b2.subrange(pos, pos + enc.len())[j] == b2[pos + j]);
        assert(b2[pos + j] == rb[j]);
        assert(rb[j] == enc[j]);
    }
    assert(b2.subrange(pos, pos + enc.len()) =~= enc);
    crate::name::lemma_read_encoded(b2, pos, ls, MAX_JUMPS as int);
    let p1 = pos + enc.len();
    let el = enc.len() as int;
    assert(b2[p1] == rb[el] && b2[p1 + 1] == rb[el + 1] && b2[p1 + 2] == rb[el + 2] && b2[p1 + 3]
        == rb[el + 3] && b2[p1 + 4] == rb[el + 4] && b2[p1 + 5] == rb[el + 5] && b2[p1 + 6] == rb[el
        + 6] && b2[p1 + 7] == rb[el + 7] && b2[p1 + 8] == rb[el + 8] && b2[p1 + 9] == rb[el + 9]);
    assert(rb[el] == u16_be(qt)[0] && rb[el + 1] == u16_be(qt)[1]);
    assert(rb[el + 2] == u16_be(class)[0] && rb[el + 3] == u16_be(class)[1]);
    assert(rb[el + 4] == u32_be(ttl)[0] && rb[el + 5] == u32_be(ttl)[1] && rb[el + 6] == u32_be(
        ttl,
    )[2] && rb[el + 7] == u32_be(ttl)[3]);
    assert(rb[el + 8] == u16_be(data.len() as u16)[0] && rb[el + 9] == u16_be(
        data.len() as u16,
    )[1]);
    assert(be16u(b2, p1) == qt);
    assert(be16u(b2, p1 + 2) == class);
    assert(be32u(b2, p1 + 4) == ttl);
    assert(be16u(b2, p1 + 8) == data.len());
    assert forall|j: int| 0 <= j < data.len() implies b2.subrange(
        p1 + 10,
        p1 + 10 + data.len(),
    )[j] == data[j] by {
        assert(b2.subrange(p1 + 10, p1 + 10 + data.len())[j] == b2[p1 + 10 + j]);
        assert(b2[pos + (el + 10 + j)] == rb[el + 10 + j]);
        assert(rb[el + 10 + j] == data[j]);
    }
    assert(b2.subrange(p1 + 10, p1 + 10 + data.len() as int) =~= data);
}

/// What writing several questions in a row leaves behind; the first entity
/// that fails stops the pass, with every earlier entity written whole.
pub open spec fn write_questions_s(buf: Seq<u8>, pos: int, qs: Seq<(Seq<char>, u16)>) -> (
    Seq<u8>,
    int,
    Result<(), DnsError>,
)
    decreases qs.len(),
{
    if qs.len() == 0 {
        (buf, pos, Ok(()))
    } else {
        let step = write_question_s(buf, pos, qs[0].0, qs[0].1);
        if step.2 is Err {
            step
        } else {
            write_questions_s(step.0, step.1, qs.drop_first())
        }
    }
}

/// What writing several records in a row leaves behind.
pub open spec fn write_records_s(
    buf: Seq<u8>,
    pos: int,
    rs: Seq<(Seq<char>, u16, u16, u32, Seq<u8>)>,
) -> (Seq<u8>, int, Result<(), DnsError>)
    decreases rs.len(),
{
    if rs.len() == 0 {
        (buf, pos, Ok(()))
    } else {
        let step = write_record_s(buf, pos, rs[0].0, rs[0].1, rs[0].2, rs[0].3, rs[0].4);
        if step.2 is Err {
            step
        } else {
            write_records_s(step.0, step.1, rs.drop_first())
        }
    }
}

/// What writing a whole message at `pos` leaves behind: the header, then
/// every question and record in wire order, stopping at the first failure.
pub open spec fn write_message_s(
    buf: Seq<u8>,
    pos: int,
    h: Header,
    qs: Seq<(Seq<char>, u16)>,
    ans: Seq<(Seq<char>, u16, u16, u32, Seq<u8>)>,
    auth: Seq<(Seq<char>, u16, u16, u32, Seq<u8>)>,
    res: Seq<(Seq<char>, u16, u16, u32, Seq<u8>)>,
) -> (Seq<u8>, int, Result<(), DnsError>) {
    let s1 = store_bytes(buf, pos, header_bytes(h));
    if s1.2 is Err {
        s1
    } else {
        let s2 = write_questions_s(s1.0, s1.1, qs);
        if s2.2 is Err {
            s2
        } else {
            let s3 = write_records_s(s2.0, s2.1, ans);
            if s3.2 is Err {
                s3
            } else {
                let s4 = write_records_s(s3.0, s3.1, auth);
                if s4.2 is Err {
                    s4
                } else {
                    write_records_s(s4.0, s4.1, res)
                }
            }
        }
    }
}

/// Write `v`'s questions in a row at the cursor.
#[verifier::loop_isolation(false)]
fn write_questions(buffer: &mut Buffer, v: &Vec<Question>) -> (r: Result<(), DnsError>)
    requires
        old(buffer).wf(),
    ensures
        final(buffer).wf(),
        ({
            let (b2, p2, r2) = write_questions_s(
                old(buffer).buf@,
                old(buffer).pos as int,
                v@.map_values(|q: Question| q.model()),
            );
            final(buffer).buf@ == b2 && final(buffer).pos as int == p2 && r == r2
        }),
{
    let ghost ms = v@.map_values(|q: Question| q.model());
    let ghost b0 = buffer.buf@;
    let ghost p0 = buffer.pos as int;
    let mut k: usize = 0;
    proof {
        assert(ms.skip(0) =~~= ms);
    }
    while k < v.len()
        invariant
            buffer.wf(),
            k <= v@.len(),
            write_questions_s(b0, p0, ms) == write_questions_s(
                buffer.buf@,
                buffer.pos as int,
                ms.skip(k as int),
            ),
        decreases v@.len() - k,
    {
        proof {
            assert(ms.skip(k as int)[0] == ms[k as int]);
            assert(ms.skip(k as int).drop_first() =~~= ms.skip(k as int + 1));
        }
        match v[k].write(buffer) {
            Ok(()) => {},
            Err(e) => {
                return Err(e);
            },
        }
        k += 1;
    }
    proof {
        assert(ms.skip(v@.len() as int) =~~= Seq::<(Seq<char>, u16)>::empty());
    }
    Ok(())
}

/// Write `v`'s records in a row at the cursor.
#[verifier::loop_isolation(false)]
fn write_records(buffer: &mut Buffer, v: &Vec<Record>) -> (r: Result<(), DnsError>)
    requires
        old(buffer).wf(),
    ensures
        final(buffer).wf(),
        ({
            let (b2, p2, r2) = write_records_s(
                old(buffer).buf@,
                old(buffer).pos as int,
                v@.map_values(|rec: Record| rec.model()),
            );
            final(buffer).buf@ == b2 && final(buffer).pos as int == p2 && r == r2
        }),
{
    let ghost ms = v@.map_values(|rec: Record| rec.model());
    let ghost b0 = buffer.buf@;
    let ghost p0 = buffer.pos as int;
    let mut k: usize = 0;
    proof {
        assert(ms.skip(0) =~~= ms);
    }
    while k < v.len()
        invariant
            buffer.wf(),
            k <= v@.len(),
            write_records_s(b0, p0, ms) == write_records_s(
                buffer.buf@,
                buffer.pos as int,
                ms.skip(k as int),
            ),
        decreases v@.len() - k,
    {
        proof {
            assert(ms.skip(k as int)[0] == ms[k as int]);
            assert(ms.skip(k as int).drop_first() =~~= ms.skip(k as int + 1));
        }
        match v[k].write(buffer) {
            Ok(()) => {},
            Err(e) => {
                return Err(e);
            },
        }
        k += 1;
    }
    proof {
        assert(ms.skip(v@.len() as int) =~~= Seq::<(Seq<char>, u16, u16, u32, Seq<u8>)>::empty());
    }
    Ok(())
}

/// One whole message: a header and the four entity sections in wire order.
#[derive(Clone, Debug)]
pub struct Packet {
    pub header: Header,
    pub questions: Vec<Question>,
    pub answers: Vec<Record>,
    pub authorities: Vec<Record>,
    pub resources: Vec<Record>,
}

impl Packet {
    /// An empty message: a zero header and no entities.
    pub fn new() -> (p: Packet)
        ensures
            p.header == (Header {
                id: 0,
                flags: 0,
                questions: 0,
                answers: 0,
                authoritative_entries: 0,
                resource_entries: 0,
            }),
            p.questions@.len() == 0,
            p.answers@.len() == 0,
            p.authorities@.len() == 0,
            p.resources@.len() == 0,
    {
        Packet {
            header: Header::new(),
            questions: Vec::new(),
            answers: Vec::new(),
            authorities: Vec::new(),
            resources: Vec::new(),
        }
    }

    /// Decode one whole message from the cursor: the header first, then
    /// exactly as many questions, answers, authorities and additional
    /// resources as the header's counts declare, in wire order. The decode is
    /// fail-atomic: it returns a fully populated message, or the first error
    /// met, never a partial message.
    pub fn from_buffer(buffer: &mut Buffer) -> (r: Result<Packet, DnsError>)
        requires
            old(buffer).wf(),
        ensures
            final(buffer).wf(),
            final(buffer).buf@ == old(buffer).buf@,
            match r {
                Ok(p) => ({
                    &&& parse_message(old(buffer).buf@, old(buffer).pos as int) matches Ok(m) && ({
                        &&& p.header == m.0
                        &&& p.questions@.map_values(|q: Question| q.model()) == m.1
                        &&& p.answers@.map_values(|rec: Record| rec.model()) == m.2
                        &&& p.authorities@.map_values(|rec: Record| rec.model()) == m.3
                        &&& p.resources@.map_values(|rec: Record| rec.model()) == m.4
                        &&& final(buffer).pos as int == m.5
                    })
                    &&& p.questions@.len() == p.header.questions
                    &&& p.answers@.len() == p.header.answers
                    &&& p.authorities@.len() == p.header.authoritative_entries
                    &&& p.resources@.len() == p.header.resource_entries
                }),
                Err(e) => parse_message(old(buffer).buf@, old(buffer).pos as int) == Err::<
                    (
                        Header,
                        Seq<(Seq<char>, u16)>,
                        Seq<(Seq<char>, u16, u16, u32, Seq<u8>)>,
                        Seq<(Seq<char>, u16, u16, u32, Seq<u8>)>,
                        Seq<(Seq<char>, u16, u16, u32, Seq<u8>)>,
                        int,
                    ),
                    DnsError,
                >(e),
            },
    {
        let ghost buf0 = buffer.buf@;
        let ghost pos0 = buffer.pos as int;
        let mut result = Packet::new();
        result.header.read(buffer)?;
        result.questions = read_questions(buffer, result.header.questions)?;
        result.answers = read_records(buffer, result.header.answers)?;
        result.authorities = read_records(buffer, result.header.authoritative_entries)?;
        result.resources = read_records(buffer, result.header.resource_entries)?;
        proof {
            let (h, p1) = parse_header(buf0, pos0).unwrap();
            lemma_parse_questions_len(buf0, p1, h.questions as int);
            let (qs, p2) = parse_questions(buf0, p1, h.questions as int).unwrap();
            lemma_parse_records_len(buf0, p2, h.answers as int);
            let (ans, p3) = parse_records(buf0, p2, h.answers as int).unwrap();
            lemma_parse_records_len(buf0, p3, h.authoritative_entries as int);
            let (auth, p4) = parse_records(buf0, p3, h.authoritative_entries as int).unwrap();
            lemma_parse_records_len(buf0, p4, h.resource_entries as int);
        }
        Ok(result)
    }

    /// Write this whole message at the cursor: the header first, then every
    /// question, answer, authority and additional resource, in wire order.
    /// The first entity that does not fit stops the pass; entities are
    /// written whole, never in part.
    pub fn write(&self, buffer: &mut Buffer) -> (r: Result<(), DnsError>)
        requires
            old(buffer).wf(),
        ensures
            final(buffer).wf(),
            ({
                let (b2, p2, r2) = write_message_s(
                    old(buffer).buf@,
                    old(buffer).pos as int,
                    self.header,
                    self.questions@.map_values(|q: Question| q.model()),
                    self.answers@.map_values(|rec: Record| rec.model()),
                    self.authorities@.map_values(|rec: Record| rec.model()),
                    self.resources@.map_values(|rec: Record| rec.model()),
                );
                final(buffer).buf@ == b2 && final(buffer).pos as int == p2 && r == r2
            }),
    {
        self.header.write(buffer)?;
        write_questions(buffer, &self.questions)?;
        write_records(buffer, &self.answers)?;
        write_records(buffer, &self.authorities)?;
        write_records(buffer, &self.resources)?;
        Ok(())
    }
}

} // verus!
