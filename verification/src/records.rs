//! Questions, query types and resource records, with their wire codecs.

use vstd::prelude::*;

use crate::buffer::{
    be16_at, be16_bytes, be32_at, be32_bytes, encode_qname, q_decode, q_end, write_qname_result,
    BytePacketBuffer,
};
use crate::errors::{CResult, DnsError};

verus! {

/// The query types the codec decodes; anything else is preserved as an
/// opaque number.
#[derive(PartialEq, Debug, Eq, Clone, Hash, Copy, Structural)]
pub enum QueryType {
    UNKNOWN(u16),
    A,
    NS,
    CNAME,
    MX,
    AAAA,
}

/// The wire number of a query type.
pub open spec fn spec_qtype_num(qt: QueryType) -> u16 {
    match qt {
        QueryType::UNKNOWN(x) => x,
        QueryType::A => 1,
        QueryType::NS => 2,
        QueryType::CNAME => 5,
        QueryType::MX => 15,
        QueryType::AAAA => 28,
    }
}

/// The query type a wire number decodes to.
pub open spec fn spec_qtype_from_num(num: u16) -> QueryType {
    match num {
        1u16 => QueryType::A,
        2u16 => QueryType::NS,
        5u16 => QueryType::CNAME,
        15u16 => QueryType::MX,
        28u16 => QueryType::AAAA,
        _ => QueryType::UNKNOWN(num),
    }
}

impl QueryType {
    /// Decodes a wire number into a query type.
    pub fn from_num(num: u16) -> (r: QueryType)
        ensures
            r == spec_qtype_from_num(num),
    {
        match num {
            1 => QueryType::A,
            2 => QueryType::NS,
            5 => QueryType::CNAME,
            15 => QueryType::MX,
            28 => QueryType::AAAA,
            _ => QueryType::UNKNOWN(num),
        }
    }

    /// The wire number of this query type.
    pub fn to_num(&self) -> (r: u16)
        ensures
            r == spec_qtype_num(*self),
    {
        match *self {
            QueryType::UNKNOWN(x) => x,
            QueryType::A => 1,
            QueryType::NS => 2,
            QueryType::CNAME => 5,
            QueryType::MX => 15,
            QueryType::AAAA => 28,
        }
    }
}

/// An IPv4 address as four plain octets.
#[derive(Copy, Clone, Debug, PartialEq, Eq, Hash, PartialOrd, Ord, Structural)]
pub struct Ipv4Addr {
    pub o0: u8,
    pub o1: u8,
    pub o2: u8,
    pub o3: u8,
}

impl Ipv4Addr {
    /// An address from its four octets, highest first.
    pub fn new(o0: u8, o1: u8, o2: u8, o3: u8) -> (r: Ipv4Addr)
        ensures
            r == (Ipv4Addr { o0, o1, o2, o3 }),
    {
        Ipv4Addr { o0, o1, o2, o3 }
    }
}

/// The address held in a 32-bit value, highest octet first.
pub open spec fn spec_ipv4_of(raw: u32) -> Ipv4Addr {
    Ipv4Addr {
        o0: ((raw >> 24) & 0xFF) as u8,
        o1: ((raw >> 16) & 0xFF) as u8,
        o2: ((raw >> 8) & 0xFF) as u8,
        o3: (raw & 0xFF) as u8,
    }
}

/// An IPv6 address as eight plain 16-bit groups.
#[derive(Copy, Clone, Debug, PartialEq, Eq, Hash, PartialOrd, Ord, Structural)]
pub struct Ipv6Addr {
    pub g0: u16,
    pub g1: u16,
    pub g2: u16,
    pub g3: u16,
    pub g4: u16,
    pub g5: u16,
    pub g6: u16,
    pub g7: u16,
}

impl Ipv6Addr {
    /// An address from its eight groups, highest first.
    pub fn new(g0: u16, g1: u16, g2: u16, g3: u16, g4: u16, g5: u16, g6: u16, g7: u16) -> (r:
        Ipv6Addr)
        ensures
            r == (Ipv6Addr { g0, g1, g2, g3, g4, g5, g6, g7 }),
    {
        Ipv6Addr { g0, g1, g2, g3, g4, g5, g6, g7 }
    }
}

/// The address held in four 32-bit values, highest group first.
pub open spec fn spec_ipv6_of(r1: u32, r2: u32, r3: u32, r4: u32) -> Ipv6Addr {
    Ipv6Addr {
        g0: ((r1 >> 16) & 0xFFFF) as u16,
        g1: (r1 & 0xFFFF) as u16,
        g2: ((r2 >> 16) & 0xFFFF) as u16,
        g3: (r2 & 0xFFFF) as u16,
        g4: ((r3 >> 16) & 0xFFFF) as u16,
        g5: (r3 & 0xFFFF) as u16,
        g6: ((r4 >> 16) & 0xFFFF) as u16,
        g7: (r4 & 0xFFFF) as u16,
    }
}

/// One entry of the question section: a domain name and a query type.
#[derive(Debug, Clone, PartialEq, Eq)]
pub struct Question {
    pub qname: String,
    pub qtype: QueryType,
}

/// The mathematical shape of a question.
#[verifier::ext_equal]
pub struct QuestionV {
    pub qname: Seq<char>,
    pub qtype: QueryType,
}

impl View for Question {
    type V = QuestionV;

    open spec fn view(&self) -> QuestionV {
        QuestionV { qname: self.qname@, qtype: self.qtype }
    }
}

/// The question parsed at `pos`: its name, its type, and where the cursor
/// lands (the two-byte class field is read and ignored).
pub open spec fn spec_parse_question(bytes: Seq<u8>, pos: int) -> Result<(QuestionV, int), DnsError> {
    match q_decode(bytes, pos, 0) {
        Err(e) => Err(e),
        Ok(name) => {
            let p1 = q_end(bytes, pos);
            match (be16_at(bytes, p1), be16_at(bytes, p1 + 2)) {
                (Some(qt), Some(_cls)) => Ok(
                    (QuestionV { qname: name, qtype: spec_qtype_from_num(qt) }, p1 + 4),
                ),
                _ => Err(DnsError::EndOfBuffer),
            }
        },
    }
}

/// The bytes a question serializes to: the name uncompressed, the type,
/// and class 1.
pub open spec fn spec_question_bytes(q: QuestionV) -> Seq<u8> {
    encode_qname(q.qname) + seq![
        (spec_qtype_num(q.qtype) / 256) as u8,
        (spec_qtype_num(q.qtype) % 256) as u8,
        0u8,
        1u8,
    ]
}

/// What writing a question at `pos` comes to: the cursor after it on
/// success, or the first failure the writer meets.
pub open spec fn spec_write_question_result(q: QuestionV, pos: int) -> Result<int, DnsError> {
    match write_qname_result(q.qname, 0, pos) {
        Err(e) => Err(e),
        Ok(p1) => if p1 + 4 <= 512 {
            Ok(p1 + 4)
        } else {
            Err(DnsError::EndOfBuffer)
        },
    }
}

impl Question {
    /// A question from its parts.
    pub fn new(qname: String, qtype: QueryType) -> (r: Question)
        ensures
            r@.qname == qname@,
            r@.qtype == qtype,
    {
        Question { qname, qtype }
    }

    /// A copy of this question with the same fields.
    pub fn duplicate(&self) -> (r: Question)
        ensures
            r@ == self@,
    {
        Question { qname: self.qname.clone(), qtype: self.qtype }
    }

    /// Parses one question at the buffer's cursor, appending the decoded
    /// name to this question's name.
    pub fn read(&mut self, buffer: &mut BytePacketBuffer) -> (r: CResult<()>)
        requires
            old(buffer).wf(),
        ensures
            final(buffer).wf(),
            final(buffer).buf@ == old(buffer).buf@,
            match r {
                Ok(()) => (spec_parse_question(old(buffer).buf@, old(buffer).pos as int)
                    matches Ok(q) && final(self)@.qname == old(self)@.qname + q.0.qname
                    && final(self)@.qtype == q.0.qtype
                    && final(buffer).pos == q.1),
                Err(e) => spec_parse_question(old(buffer).buf@, old(buffer).pos as int)
                    == Err::<(QuestionV, int), DnsError>(e),
            },
    {
        buffer.read_qname(&mut self.qname)?;
        self.qtype = QueryType::from_num(buffer.read_u16()?);
        // The class field is always 1 on the wire; read and ignore it.
        let _ = buffer.read_u16()?;

        Ok(())
    }

    /// Serializes this question at the buffer's cursor.
    pub fn write(&self, buffer: &mut BytePacketBuffer) -> (r: CResult<()>)
        requires
            old(buffer).wf(),
        ensures
            final(buffer).wf(),
            final(buffer).pos >= old(buffer).pos,
            forall|i: int| 0 <= i < 512 && !(old(buffer).pos <= i < final(buffer).pos)
                ==> final(buffer).buf@[i] == old(buffer).buf@[i],
            match r {
                Ok(()) => spec_write_question_result(self@, old(buffer).pos as int)
                        == Ok::<int, DnsError>(final(buffer).pos as int)
                    && final(buffer).buf@.subrange(old(buffer).pos as int, final(buffer).pos as int)
                        == spec_question_bytes(self@)
                    && final(buffer).pos == old(buffer).pos + spec_question_bytes(self@).len(),
                Err(e) => spec_write_question_result(self@, old(buffer).pos as int)
                    == Err::<int, DnsError>(e),
            },
    {
        let ghost p = buffer.pos as int;
        buffer.write_qname(self.qname.as_str())?;

        let typenum = self.qtype.to_num();
        buffer.write_u16(typenum)?;
        buffer.write_u16(1)?;

        proof {
            assert(buffer.buf@.subrange(p, buffer.pos as int) =~= spec_question_bytes(self@));
        }
        Ok(())
    }
}

/// A resource record, tagged by type. Every variant carries its owner
/// domain and its TTL in seconds; an unrecognized type keeps only its
/// number and the length of the data it skipped.
#[derive(Debug, Clone, PartialEq, Eq, Hash, PartialOrd, Ord)]
pub enum Record {
    UNKNOWN { domain: String, qtype: u16, data_len: u16, ttl: u32 },
    A { domain: String, addr: Ipv4Addr, ttl: u32 },
    NS { domain: String, host: String, ttl: u32 },
    CNAME { domain: String, host: String, ttl: u32 },
    MX { domain: String, priority: u16, host: String, ttl: u32 },
    AAAA { domain: String, addr: Ipv6Addr, ttl: u32 },
}

/// The mathematical shape of a record.
#[verifier::ext_equal]
pub enum RecordV {
    UNKNOWN { domain: Seq<char>, qtype: u16, data_len: u16, ttl: u32 },
    A { domain: Seq<char>, addr: Ipv4Addr, ttl: u32 },
    NS { domain: Seq<char>, host: Seq<char>, ttl: u32 },
    CNAME { domain: Seq<char>, host: Seq<char>, ttl: u32 },
    MX { domain: Seq<char>, priority: u16, host: Seq<char>, ttl: u32 },
    AAAA { domain: Seq<char>, addr: Ipv6Addr, ttl: u32 },
}

impl View for Record {
    type V = RecordV;

    open spec fn view(&self) -> RecordV {
        match self {
            Record::UNKNOWN { domain, qtype, data_len, ttl } => RecordV::UNKNOWN {
                domain: domain@,
                qtype: *qtype,
                data_len: *data_len,
                ttl: *ttl,
            },
            Record::A { domain, addr, ttl } => RecordV::A {
                domain: domain@,
                addr: *addr,
                ttl: *ttl,
            },
            Record::NS { domain, host, ttl } => RecordV::NS {
                domain: domain@,
                host: host@,
                ttl: *ttl,
            },
            Record::CNAME { domain, host, ttl } => RecordV::CNAME {
                domain: domain@,
                host: host@,
                ttl: *ttl,
            },
            Record::MX { domain, priority, host, ttl } => RecordV::MX {
                domain: domain@,
                priority: *priority,
                host: host@,
                ttl: *ttl,
            },
            Record::AAAA { domain, addr, ttl } => RecordV::AAAA {
                domain: domain@,
                addr: *addr,
                ttl: *ttl,
            },
        }
    }
}

impl RecordV {
    /// The owner domain, whatever the variant.
    pub open spec fn domain(self) -> Seq<char> {
        match self {
            RecordV::UNKNOWN { domain, .. } => domain,
            RecordV::A { domain, .. } => domain,
            RecordV::NS { domain, .. } => domain,
            RecordV::CNAME { domain, .. } => domain,
            RecordV::MX { domain, .. } => domain,
            RecordV::AAAA { domain, .. } => domain,
        }
    }

    /// The time to live, whatever the variant.
    pub open spec fn ttl(self) -> u32 {
        match self {
            RecordV::UNKNOWN { ttl, .. } => ttl,
            RecordV::A { ttl, .. } => ttl,
            RecordV::NS { ttl, .. } => ttl,
            RecordV::CNAME { ttl, .. } => ttl,
            RecordV::MX { ttl, .. } => ttl,
            RecordV::AAAA { ttl, .. } => ttl,
        }
    }
}

/// The record parsed at `pos` and where the cursor lands: the owner name,
/// the fixed fields, and the type-specific data; unrecognized types have
/// their data skipped.
pub open spec fn spec_parse_record(bytes: Seq<u8>, pos: int) -> Result<(RecordV, int), DnsError> {
    match q_decode(bytes, pos, 0) {
        Err(e) => Err(e),
        Ok(domain) => {
            let p1 = q_end(bytes, pos);
            match (be16_at(bytes, p1), be16_at(bytes, p1 + 2), be32_at(bytes, p1 + 4), be16_at(
                bytes,
                p1 + 8,
            )) {
                (Some(qtype_num), Some(_class), Some(ttl), Some(data_len)) => {
                    let p2 = p1 + 10;
                    match spec_qtype_from_num(qtype_num) {
                        QueryType::A => match be32_at(bytes, p2) {
                            Some(raw) => Ok(
                                (RecordV::A { domain, addr: spec_ipv4_of(raw), ttl }, p2 + 4),
                            ),
                            None => Err(DnsError::EndOfBuffer),
                        },
                        QueryType::AAAA => match (
                            be32_at(bytes, p2),
                            be32_at(bytes, p2 + 4),
                            be32_at(bytes, p2 + 8),
                            be32_at(bytes, p2 + 12),
                        ) {
                            (Some(r1), Some(r2), Some(r3), Some(r4)) => Ok(
                                (
                                    RecordV::AAAA {
                                        domain,
                                        addr: spec_ipv6_of(r1, r2, r3, r4),
                                        ttl,
                                    },
                                    p2 + 16,
                                ),
                            ),
                            _ => Err(DnsError::EndOfBuffer),
                        },
                        QueryType::NS => match q_decode(bytes, p2, 0) {
                            Ok(host) => Ok(
                                (RecordV::NS { domain, host, ttl }, q_end(bytes, p2)),
                            ),
                            Err(e) => Err(e),
                        },
                        QueryType::CNAME => match q_decode(bytes, p2, 0) {
                            Ok(host) => Ok(
                                (RecordV::CNAME { domain, host, ttl }, q_end(bytes, p2)),
                            ),
                            Err(e) => Err(e),
                        },
                        QueryType::MX => match (be16_at(bytes, p2), q_decode(bytes, p2 + 2, 0)) {
                            (Some(priority), Ok(host)) => Ok(
                                (
                                    RecordV::MX { domain, priority, host, ttl },
                                    q_end(bytes, p2 + 2),
                                ),
                            ),
                            (None, _) => Err(DnsError::EndOfBuffer),
                            (Some(_), Err(e)) => Err(e),
                        },
                        QueryType::UNKNOWN(_) => Ok(
                            (
                                RecordV::UNKNOWN { domain, qtype: qtype_num, data_len, ttl },
                                p2 + data_len,
                            ),
                        ),
                    }
                },
                _ => Err(DnsError::EndOfBuffer),
            }
        },
    }
}

/// The bytes a record serializes to: owner name uncompressed, type,
/// class 1, TTL, the data length, then the type's data. A record of
/// unrecognized type produces no bytes.
pub open spec fn spec_record_bytes(rv: RecordV) -> Seq<u8> {
    match rv {
        RecordV::UNKNOWN { .. } => Seq::empty(),
        RecordV::A { domain, addr, ttl } => encode_qname(domain) + be16_bytes(1) + be16_bytes(1)
            + be32_bytes(ttl) + be16_bytes(4) + seq![addr.o0, addr.o1, addr.o2, addr.o3],
        RecordV::NS { domain, host, ttl } => encode_qname(domain) + be16_bytes(2) + be16_bytes(1)
            + be32_bytes(ttl) + be16_bytes(encode_qname(host).len() as u16) + encode_qname(host),
        RecordV::CNAME { domain, host, ttl } => encode_qname(domain) + be16_bytes(5) + be16_bytes(1)
            + be32_bytes(ttl) + be16_bytes(encode_qname(host).len() as u16) + encode_qname(host),
        RecordV::MX { domain, priority, host, ttl } => encode_qname(domain) + be16_bytes(15)
            + be16_bytes(1) + be32_bytes(ttl)
            + be16_bytes((2 + encode_qname(host).len()) as u16) + be16_bytes(priority)
            + encode_qname(host),
        RecordV::AAAA { domain, addr, ttl } => encode_qname(domain) + be16_bytes(28)
            + be16_bytes(1) + be32_bytes(ttl) + be16_bytes(16) + be16_bytes(addr.g0)
            + be16_bytes(addr.g1) + be16_bytes(addr.g2) + be16_bytes(addr.g3) + be16_bytes(addr.g4)
            + be16_bytes(addr.g5) + be16_bytes(addr.g6) + be16_bytes(addr.g7),
    }
}

/// What writing a record at `pos` comes to: the cursor after it on
/// success, or the first failure the writer meets. A record of
/// unrecognized type is skipped and always succeeds in place.
pub open spec fn spec_write_record_result(rv: RecordV, pos: int) -> Result<int, DnsError> {
    match rv {
        RecordV::UNKNOWN { .. } => Ok(pos),
        RecordV::A { domain, .. } => match write_qname_result(domain, 0, pos) {
            Err(e) => Err(e),
            Ok(p1) => if p1 + 14 <= 512 {
                Ok(p1 + 14)
            } else {
                Err(DnsError::EndOfBuffer)
            },
        },
        RecordV::NS { domain, host, .. } => match write_qname_result(domain, 0, pos) {
            Err(e) => Err(e),
            Ok(p1) => if p1 + 10 <= 512 {
                write_qname_result(host, 0, p1 + 10)
            } else {
                Err(DnsError::EndOfBuffer)
            },
        },
        RecordV::CNAME { domain, host, .. } => match write_qname_result(domain, 0, pos) {
            Err(e) => Err(e),
            Ok(p1) => if p1 + 10 <= 512 {
                write_qname_result(host, 0, p1 + 10)
            } else {
                Err(DnsError::EndOfBuffer)
            },
        },
        RecordV::MX { domain, host, .. } => match write_qname_result(domain, 0, pos) {
            Err(e) => Err(e),
            Ok(p1) => if p1 + 12 <= 512 {
                write_qname_result(host, 0, p1 + 12)
            } else {
                Err(DnsError::EndOfBuffer)
            },
        },
        RecordV::AAAA { domain, .. } => match write_qname_result(domain, 0, pos) {
            Err(e) => Err(e),
            Ok(p1) => if p1 + 26 <= 512 {
                Ok(p1 + 26)
            } else {
                Err(DnsError::EndOfBuffer)
            },
        },
    }
}

impl Record {
    /// Parses one record at the buffer's cursor.
    pub fn read(buffer: &mut BytePacketBuffer) -> (r: CResult<Record>)
        requires
            old(buffer).wf(),
        ensures
            final(buffer).wf(),
            final(buffer).buf@ == old(buffer).buf@,
            match r {
                Ok(rec) => (spec_parse_record(old(buffer).buf@, old(buffer).pos as int)
                    matches Ok(p) && rec@ == p.0 && final(buffer).pos == p.1),
                Err(e) => spec_parse_record(old(buffer).buf@, old(buffer).pos as int)
                    == Err::<(RecordV, int), DnsError>(e),
            },
    {
        let mut domain = String::new();
        buffer.read_qname(&mut domain)?;
        let qtype_num = buffer.read_u16()?;
        let qtype = QueryType::from_num(qtype_num);
        // The class field is always 1 on the wire; read and ignore it.
        let _ = buffer.read_u16()?;
        let ttl = buffer.read_u32()?;
        let data_len = buffer.read_u16()?;

        match qtype {
            QueryType::A => {
                let raw_addr = buffer.read_u32()?;
                proof {
                    assert(((raw_addr >> 24) & 0xFF) < 256 && ((raw_addr >> 16) & 0xFF) < 256
                        && ((raw_addr >> 8) & 0xFF) < 256 && (raw_addr & 0xFF) < 256)
                        by (bit_vector);
                }
                let addr = Ipv4Addr::new(
                    ((raw_addr >> 24) & 0xFF) as u8,
                    ((raw_addr >> 16) & 0xFF) as u8,
                    ((raw_addr >> 8) & 0xFF) as u8,
                    (raw_addr & 0xFF) as u8,
                );
                Ok(Record::A { domain, addr, ttl })
            },
            QueryType::AAAA => {
                let raw_addr1 = buffer.read_u32()?;
                let raw_addr2 = buffer.read_u32()?;
                let raw_addr3 = buffer.read_u32()?;
                let raw_addr4 = buffer.read_u32()?;
                proof {
                    assert(forall|x: u32| ((x >> 16) & 0xFFFF) < 0x10000 && (x & 0xFFFF) < 0x10000)
                        by (bit_vector);
                }
                let addr = Ipv6Addr::new(
                    ((raw_addr1 >> 16) & 0xFFFF) as u16,
                    (raw_addr1 & 0xFFFF) as u16,
                    ((raw_addr2 >> 16) & 0xFFFF) as u16,
                    (raw_addr2 & 0xFFFF) as u16,
                    ((raw_addr3 >> 16) & 0xFFFF) as u16,
                    (raw_addr3 & 0xFFFF) as u16,
                    ((raw_addr4 >> 16) & 0xFFFF) as u16,
                    (raw_addr4 & 0xFFFF) as u16,
                );

                Ok(Record::AAAA { domain, addr, ttl })
            },
            QueryType::NS => {
                let mut ns = String::new();
                buffer.read_qname(&mut ns)?;
                Ok(Record::NS { domain, host: ns, ttl })
            },
            QueryType::CNAME => {
                let mut cname = String::new();
                buffer.read_qname(&mut cname)?;
                Ok(Record::CNAME { domain, host: cname, ttl })
            },
            QueryType::MX => {
                let priority = buffer.read_u16()?;
                let mut mx = String::new();
                buffer.read_qname(&mut mx)?;

                Ok(Record::MX { domain, priority, host: mx, ttl })
            },
            QueryType::UNKNOWN(_) => {
                buffer.step(data_len as usize)?;

                Ok(Record::UNKNOWN { domain, qtype: qtype_num, data_len, ttl })
            },
        }
    }

    /// Serializes this record at the buffer's cursor and returns how many
    /// bytes it wrote. Variable-length record data is written after a
    /// placeholder length field that is patched once the data's size is
    /// known. Records of unrecognized type are skipped silently.
    pub fn write(&self, buffer: &mut BytePacketBuffer) -> (r: CResult<usize>)
        requires
            old(buffer).wf(),
        ensures
            final(buffer).wf(),
            final(buffer).pos >= old(buffer).pos,
            forall|i: int| 0 <= i < 512 && !(old(buffer).pos <= i < final(buffer).pos)
                ==> final(buffer).buf@[i] == old(buffer).buf@[i],
            match r {
                Ok(n) => spec_write_record_result(self@, old(buffer).pos as int)
                        == Ok::<int, DnsError>(final(buffer).pos as int)
                    && n == final(buffer).pos - old(buffer).pos
                    && (old(buffer).pos <= 512 ==> final(buffer).pos <= 512)
                    && final(buffer).pos == old(buffer).pos + spec_record_bytes(self@).len()
                    && (final(buffer).pos <= 512
                        ==> final(buffer).buf@.subrange(
                            old(buffer).pos as int,
                            final(buffer).pos as int,
                        ) == spec_record_bytes(self@)),
                Err(e) => spec_write_record_result(self@, old(buffer).pos as int)
                    == Err::<int, DnsError>(e),
            },
    {
        let start_pos = buffer.pos();

        match self {
            Record::A { domain, addr, ttl } => {
                write_a_body(buffer, domain, *addr, *ttl)?;
            },
            Record::NS { domain, host, ttl } => {
                write_host_body(buffer, domain, host, *ttl, QueryType::NS.to_num())?;
                proof {
                    assert(spec_record_bytes(self@) =~= encode_qname(domain@) + be16_bytes(2)
                        + be16_bytes(1) + be32_bytes(*ttl)
                        + be16_bytes(encode_qname(host@).len() as u16) + encode_qname(host@));
                }
            },
            Record::CNAME { domain, host, ttl } => {
                write_host_body(buffer, domain, host, *ttl, QueryType::CNAME.to_num())?;
                proof {
                    assert(spec_record_bytes(self@) =~= encode_qname(domain@) + be16_bytes(5)
                        + be16_bytes(1) + be32_bytes(*ttl)
                        + be16_bytes(encode_qname(host@).len() as u16) + encode_qname(host@));
                }
            },
            Record::MX { domain, priority, host, ttl } => {
                write_mx_body(buffer, domain, *priority, host, *ttl)?;
            },
            Record::AAAA { domain, addr, ttl } => {
                write_aaaa_body(buffer, domain, *addr, *ttl)?;
            },
            Record::UNKNOWN { .. } => {
                // An unrecognized record is not serialized.
                proof {
                    if buffer.pos <= 512 {
                        assert(buffer.buf@.subrange(buffer.pos as int, buffer.pos as int)
                            =~= spec_record_bytes(self@));
                    }
                }
            },
        }

        Ok(buffer.pos() - start_pos)
    }

    /// A copy of this record with the same fields.
    pub fn duplicate(&self) -> (r: Record)
        ensures
            r@ == self@,
    {
        match self {
            Record::UNKNOWN { domain, qtype, data_len, ttl } => Record::UNKNOWN {
                domain: domain.clone(),
                qtype: *qtype,
                data_len: *data_len,
                ttl: *ttl,
            },
            Record::A { domain, addr, ttl } => Record::A {
                domain: domain.clone(),
                addr: *addr,
                ttl: *ttl,
            },
            Record::NS { domain, host, ttl } => Record::NS {
                domain: domain.clone(),
                host: host.clone(),
                ttl: *ttl,
            },
            Record::CNAME { domain, host, ttl } => Record::CNAME {
                domain: domain.clone(),
                host: host.clone(),
                ttl: *ttl,
            },
            Record::MX { domain, priority, host, ttl } => Record::MX {
                domain: domain.clone(),
                priority: *priority,
                host: host.clone(),
                ttl: *ttl,
            },
            Record::AAAA { domain, addr, ttl } => Record::AAAA {
                domain: domain.clone(),
                addr: *addr,
                ttl: *ttl,
            },
        }
    }

    /// The record's time to live in seconds: how long a resolver may cache
    /// it before asking again.
    pub fn get_ttl(&self) -> (r: u32)
        ensures
            r == self@.ttl(),
    {
        match self {
            Record::UNKNOWN { domain: _, qtype: _, data_len: _, ttl } => *ttl,
            Record::A { domain: _, addr: _, ttl } => *ttl,
            Record::NS { domain: _, host: _, ttl } => *ttl,
            Record::CNAME { domain: _, host: _, ttl } => *ttl,
            Record::MX { domain: _, priority: _, host: _, ttl } => *ttl,
            Record::AAAA { domain: _, addr: _, ttl } => *ttl,
        }
    }
}

/// Writes the fields every record starts with: the owner name, the type
/// number, class 1 and the TTL.
fn write_rr_head(buffer: &mut BytePacketBuffer, domain: &String, typenum: u16, ttl: u32) -> (r:
    CResult<()>)
    requires
        old(buffer).wf(),
    ensures
        final(buffer).wf(),
        final(buffer).pos >= old(buffer).pos,
        forall|i: int| 0 <= i < 512 && !(old(buffer).pos <= i < final(buffer).pos)
            ==> final(buffer).buf@[i] == old(buffer).buf@[i],
        match r {
            Ok(()) => (write_qname_result(domain@, 0, old(buffer).pos as int) matches Ok(p1)
                && p1 + 8 <= 512 && final(buffer).pos == p1 + 8
                && final(buffer).buf@.subrange(old(buffer).pos as int, p1)
                    == encode_qname(domain@)
                && final(buffer).buf@.subrange(p1, p1 + 8)
                    == be16_bytes(typenum) + be16_bytes(1) + be32_bytes(ttl)),
            Err(e) => match write_qname_result(domain@, 0, old(buffer).pos as int) {
                Err(e2) => e == e2,
                Ok(p1) => p1 + 8 > 512 && e == DnsError::EndOfBuffer,
            },
        },
{
    let ghost p = buffer.pos as int;
    buffer.write_qname(domain.as_str())?;
    let ghost p1 = buffer.pos as int;
    buffer.write_u16(typenum)?;
    buffer.write_u16(1)?;
    buffer.write_u32(ttl)?;
    proof {
        assert(buffer.buf@.subrange(p, p1) =~= encode_qname(domain@));
        assert(buffer.buf@.subrange(p1, p1 + 8) =~= be16_bytes(typenum) + be16_bytes(1)
            + be32_bytes(ttl));
    }
    Ok(())
}

/// Writes an A record: the shared head, the fixed data length 4, and the
/// four address octets.
#[verifier::rlimit(60)]
#[verifier::spinoff_prover]
fn write_a_body(buffer: &mut BytePacketBuffer, domain: &String, addr: Ipv4Addr, ttl: u32) -> (r:
    CResult<()>)
    requires
        old(buffer).wf(),
    ensures
        final(buffer).wf(),
        final(buffer).pos >= old(buffer).pos,
        forall|i: int| 0 <= i < 512 && !(old(buffer).pos <= i < final(buffer).pos)
            ==> final(buffer).buf@[i] == old(buffer).buf@[i],
        match r {
            Ok(()) => {
                let rv = RecordV::A { domain: domain@, addr, ttl };
                spec_write_record_result(rv, old(buffer).pos as int)
                    == Ok::<int, DnsError>(final(buffer).pos as int)
                    && final(buffer).pos <= 512
                    && final(buffer).buf@.subrange(old(buffer).pos as int, final(buffer).pos as int)
                        == spec_record_bytes(rv)
                    && final(buffer).pos == old(buffer).pos + spec_record_bytes(rv).len()
            },
            Err(e) => spec_write_record_result(
                RecordV::A { domain: domain@, addr, ttl },
                old(buffer).pos as int,
            ) == Err::<int, DnsError>(e),
        },
{
    let ghost p = buffer.pos as int;
    write_rr_head(buffer, domain, 1, ttl)?;
    let ghost p1 = buffer.pos as int - 8;
    let ghost head = buffer.buf@;
    proof {
        crate::buffer::lemma_write_qname_ok_bounds(domain@, 0, p);
    }
    buffer.write_u16(4)?;

    buffer.write_u8(addr.o0)?;
    buffer.write_u8(addr.o1)?;
    buffer.write_u8(addr.o2)?;
    buffer.write_u8(addr.o3)?;
    proof {
        let rv = RecordV::A { domain: domain@, addr, ttl };
        assert(head.subrange(p, p1) == encode_qname(domain@));
        assert(head.subrange(p1, p1 + 8) == be16_bytes(1) + be16_bytes(1) + be32_bytes(ttl));
        assert forall|i: int| p <= i < p1 + 8 implies buffer.buf@[i] == head[i] by {}
        assert(buffer.buf@.subrange(p, p1) =~= head.subrange(p, p1));
        assert(buffer.buf@.subrange(p1, p1 + 8) =~= head.subrange(p1, p1 + 8));
        let end = buffer.pos as int;
        assert(buffer.buf@.subrange(p1 + 8, p1 + 10) =~= be16_bytes(4));
        assert(buffer.buf@.subrange(p1 + 10, end)
            =~= seq![addr.o0, addr.o1, addr.o2, addr.o3]);
        assert(buffer.buf@.subrange(p, end) =~= buffer.buf@.subrange(p, p1)
            + buffer.buf@.subrange(p1, p1 + 8) + buffer.buf@.subrange(p1 + 8, p1 + 10)
            + buffer.buf@.subrange(p1 + 10, end));
        assert(spec_record_bytes(rv) =~= encode_qname(domain@) + (be16_bytes(1) + be16_bytes(1)
            + be32_bytes(ttl)) + be16_bytes(4) + seq![addr.o0, addr.o1, addr.o2, addr.o3]);
        assert(buffer.buf@.subrange(p, end) == spec_record_bytes(rv));
    }
    Ok(())
}

/// Writes an NS or CNAME record: the shared head, a placeholder length
/// that is patched afterwards, and the target host name.
#[verifier::rlimit(60)]
#[verifier::spinoff_prover]
fn write_host_body(
    buffer: &mut BytePacketBuffer,
    domain: &String,
    host: &String,
    ttl: u32,
    typenum: u16,
) -> (r: CResult<()>)
    requires
        old(buffer).wf(),
    ensures
        final(buffer).wf(),
        final(buffer).pos >= old(buffer).pos,
        forall|i: int| 0 <= i < 512 && !(old(buffer).pos <= i < final(buffer).pos)
            ==> final(buffer).buf@[i] == old(buffer).buf@[i],
        match r {
            Ok(()) => (write_qname_result(domain@, 0, old(buffer).pos as int) matches Ok(p1)
                && p1 + 10 <= 512 && final(buffer).pos <= 512
                && write_qname_result(host@, 0, p1 + 10)
                    == Ok::<int, DnsError>(final(buffer).pos as int)
                && final(buffer).buf@.subrange(old(buffer).pos as int, final(buffer).pos as int)
                    == encode_qname(domain@) + be16_bytes(typenum) + be16_bytes(1)
                        + be32_bytes(ttl) + be16_bytes(encode_qname(host@).len() as u16)
                        + encode_qname(host@)
                && final(buffer).pos == old(buffer).pos + encode_qname(domain@).len() + 10
                    + encode_qname(host@).len()),
            Err(e) => match write_qname_result(domain@, 0, old(buffer).pos as int) {
                Err(e2) => e == e2,
                Ok(p1) => (p1 + 10 > 512 && e == DnsError::EndOfBuffer) || (p1 + 10 <= 512
                    && write_qname_result(host@, 0, p1 + 10) == Err::<int, DnsError>(e)),
            },
        },
{
    let ghost p = buffer.pos as int;
    write_rr_head(buffer, domain, typenum, ttl)?;
    let ghost p1 = buffer.pos as int - 8;
    let ghost head = buffer.buf@;
    proof {
        crate::buffer::lemma_write_qname_ok_bounds(domain@, 0, p);
    }

    let pos = buffer.pos();
    buffer.write_u16(0)?;

    let ghost before_host = buffer.buf@;
    buffer.write_qname(host.as_str())?;
    let ghost after_host = buffer.buf@;
    let ghost p2 = buffer.pos as int;
    proof {
        crate::buffer::lemma_write_qname_ok_bounds(host@, 0, pos + 2);
    }

    let size = buffer.pos() - (pos + 2);
    buffer.set_u16(pos, size as u16)?;
    proof {
        assert(head.subrange(p, p1) == encode_qname(domain@));
        assert(head.subrange(p1, p1 + 8) == be16_bytes(typenum) + be16_bytes(1)
            + be32_bytes(ttl));
        assert forall|i: int| p <= i < p1 + 8 implies buffer.buf@[i] == head[i] by {}
        assert(buffer.buf@.subrange(p, p1) =~= head.subrange(p, p1));
        assert(buffer.buf@.subrange(p1, p1 + 8) =~= head.subrange(p1, p1 + 8));
        assert(buffer.buf@.subrange(p1 + 8, p1 + 10) =~= be16_bytes(size as u16));
        assert(after_host.subrange(p1 + 10, p2) == encode_qname(host@));
        assert forall|i: int| p1 + 10 <= i < p2 implies buffer.buf@[i] == after_host[i] by {}
        assert(buffer.buf@.subrange(p1 + 10, p2) =~= after_host.subrange(p1 + 10, p2));
        let end = buffer.pos as int;
        assert(buffer.buf@.subrange(p, end) =~= buffer.buf@.subrange(p, p1)
            + buffer.buf@.subrange(p1, p1 + 8) + buffer.buf@.subrange(p1 + 8, p1 + 10)
            + buffer.buf@.subrange(p1 + 10, end));
        assert(encode_qname(domain@) + be16_bytes(typenum) + be16_bytes(1) + be32_bytes(ttl)
            + be16_bytes(encode_qname(host@).len() as u16) + encode_qname(host@)
            =~= encode_qname(domain@) + (be16_bytes(typenum) + be16_bytes(1) + be32_bytes(ttl))
            + be16_bytes(encode_qname(host@).len() as u16) + encode_qname(host@));
        assert(buffer.buf@.subrange(p, end) == encode_qname(domain@) + be16_bytes(typenum)
            + be16_bytes(1) + be32_bytes(ttl) + be16_bytes(encode_qname(host@).len() as u16)
            + encode_qname(host@));
    }
    Ok(())
}

/// Writes an MX record: the shared head, a placeholder length that is
/// patched afterwards, the priority, and the target host name.
#[verifier::rlimit(60)]
#[verifier::spinoff_prover]
fn write_mx_body(
    buffer: &mut BytePacketBuffer,
    domain: &String,
    priority: u16,
    host: &String,
    ttl: u32,
) -> (r: CResult<()>)
    requires
        old(buffer).wf(),
    ensures
        final(buffer).wf(),
        final(buffer).pos >= old(buffer).pos,
        forall|i: int| 0 <= i < 512 && !(old(buffer).pos <= i < final(buffer).pos)
            ==> final(buffer).buf@[i] == old(buffer).buf@[i],
        match r {
            Ok(()) => {
                let rv = RecordV::MX { domain: domain@, priority, host: host@, ttl };
                spec_write_record_result(rv, old(buffer).pos as int)
                    == Ok::<int, DnsError>(final(buffer).pos as int)
                    && final(buffer).pos <= 512
                    && final(buffer).buf@.subrange(old(buffer).pos as int, final(buffer).pos as int)
                        == spec_record_bytes(rv)
                    && final(buffer).pos == old(buffer).pos + spec_record_bytes(rv).len()
            },
            Err(e) => spec_write_record_result(
                RecordV::MX { domain: domain@, priority, host: host@, ttl },
                old(buffer).pos as int,
            ) == Err::<int, DnsError>(e),
        },
{
    let ghost p = buffer.pos as int;
    write_rr_head(buffer, domain, 15, ttl)?;
    let ghost p1 = buffer.pos as int - 8;
    let ghost head = buffer.buf@;
    proof {
        crate::buffer::lemma_write_qname_ok_bounds(domain@, 0, p);
    }

    let pos = buffer.pos();
    buffer.write_u16(0)?;

    buffer.write_u16(priority)?;
    buffer.write_qname(host.as_str())?;
    let ghost after_host = buffer.buf@;
    let ghost p2 = buffer.pos as int;
    proof {
        crate::buffer::lemma_write_qname_ok_bounds(host@, 0, pos + 4);
    }

    let size = buffer.pos() - (pos + 2);
    buffer.set_u16(pos, size as u16)?;
    proof {
        let rv = RecordV::MX { domain: domain@, priority, host: host@, ttl };
        assert(head.subrange(p, p1) == encode_qname(domain@));
        assert(head.subrange(p1, p1 + 8) == be16_bytes(15) + be16_bytes(1) + be32_bytes(ttl));
        assert forall|i: int| p <= i < p1 + 8 implies buffer.buf@[i] == head[i] by {}
        assert(buffer.buf@.subrange(p, p1) =~= head.subrange(p, p1));
        assert(buffer.buf@.subrange(p1, p1 + 8) =~= head.subrange(p1, p1 + 8));
        assert(buffer.buf@.subrange(p1 + 8, p1 + 10) =~= be16_bytes(size as u16));
        assert(buffer.buf@.subrange(p1 + 10, p1 + 12) =~= be16_bytes(priority));
        assert(after_host.subrange(p1 + 12, p2) == encode_qname(host@));
        assert forall|i: int| p1 + 12 <= i < p2 implies buffer.buf@[i] == after_host[i] by {}
        assert(buffer.buf@.subrange(p1 + 12, p2) =~= after_host.subrange(p1 + 12, p2));
        let end = buffer.pos as int;
        assert(buffer.buf@.subrange(p, end) =~= buffer.buf@.subrange(p, p1)
            + buffer.buf@.subrange(p1, p1 + 8) + buffer.buf@.subrange(p1 + 8, p1 + 10)
            + buffer.buf@.subrange(p1 + 10, p1 + 12) + buffer.buf@.subrange(p1 + 12, end));
        assert(spec_record_bytes(rv) =~= encode_qname(domain@) + (be16_bytes(15) + be16_bytes(1)
            + be32_bytes(ttl)) + be16_bytes((2 + encode_qname(host@).len()) as u16)
            + be16_bytes(priority) + encode_qname(host@));
        assert(buffer.buf@.subrange(p, end) == spec_record_bytes(rv));
    }
    Ok(())
}

/// Writes an AAAA record: the shared head, the fixed data length 16, and
/// the eight address groups.
#[verifier::rlimit(60)]
#[verifier::spinoff_prover]
fn write_aaaa_body(buffer: &mut BytePacketBuffer, domain: &String, addr: Ipv6Addr, ttl: u32) -> (r:
    CResult<()>)
    requires
        old(buffer).wf(),
    ensures
        final(buffer).wf(),
        final(buffer).pos >= old(buffer).pos,
        forall|i: int| 0 <= i < 512 && !(old(buffer).pos <= i < final(buffer).pos)
            ==> final(buffer).buf@[i] == old(buffer).buf@[i],
        match r {
            Ok(()) => {
                let rv = RecordV::AAAA { domain: domain@, addr, ttl };
                spec_write_record_result(rv, old(buffer).pos as int)
                    == Ok::<int, DnsError>(final(buffer).pos as int)
                    && final(buffer).pos <= 512
                    && final(buffer).buf@.subrange(old(buffer).pos as int, final(buffer).pos as int)
                        == spec_record_bytes(rv)
                    && final(buffer).pos == old(buffer).pos + spec_record_bytes(rv).len()
            },
            Err(e) => spec_write_record_result(
                RecordV::AAAA { domain: domain@, addr, ttl },
                old(buffer).pos as int,
            ) == Err::<int, DnsError>(e),
        },
{
    let ghost p = buffer.pos as int;
    write_rr_head(buffer, domain, 28, ttl)?;
    let ghost p1 = buffer.pos as int - 8;
    let ghost head = buffer.buf@;
    proof {
        crate::buffer::lemma_write_qname_ok_bounds(domain@, 0, p);
    }
    buffer.write_u16(16)?;

    buffer.write_u16(addr.g0)?;
    buffer.write_u16(addr.g1)?;
    buffer.write_u16(addr.g2)?;
    buffer.write_u16(addr.g3)?;
    buffer.write_u16(addr.g4)?;
    buffer.write_u16(addr.g5)?;
    buffer.write_u16(addr.g6)?;
    buffer.write_u16(addr.g7)?;
    proof {
        let rv = RecordV::AAAA { domain: domain@, addr, ttl };
        assert(head.subrange(p, p1) == encode_qname(domain@));
        assert(head.subrange(p1, p1 + 8) == be16_bytes(28) + be16_bytes(1) + be32_bytes(ttl));
        assert forall|i: int| p <= i < p1 + 8 implies buffer.buf@[i] == head[i] by {}
        assert(buffer.buf@.subrange(p, p1) =~= head.subrange(p, p1));
        assert(buffer.buf@.subrange(p1, p1 + 8) =~= head.subrange(p1, p1 + 8));
        let end = buffer.pos as int;
        assert(buffer.buf@.subrange(p1 + 8, p1 + 10) =~= be16_bytes(16));
        assert(buffer.buf@.subrange(p1 + 10, end) =~= be16_bytes(addr.g0) + be16_bytes(addr.g1)
            + be16_bytes(addr.g2) + be16_bytes(addr.g3) + be16_bytes(addr.g4)
            + be16_bytes(addr.g5) + be16_bytes(addr.g6) + be16_bytes(addr.g7));
        assert(buffer.buf@.subrange(p, end) =~= buffer.buf@.subrange(p, p1)
            + buffer.buf@.subrange(p1, p1 + 8) + buffer.buf@.subrange(p1 + 8, p1 + 10)
            + buffer.buf@.subrange(p1 + 10, end));
        assert(spec_record_bytes(rv) =~= encode_qname(domain@) + (be16_bytes(28) + be16_bytes(1)
            + be32_bytes(ttl)) + be16_bytes(16) + (be16_bytes(addr.g0) + be16_bytes(addr.g1)
            + be16_bytes(addr.g2) + be16_bytes(addr.g3) + be16_bytes(addr.g4)
            + be16_bytes(addr.g5) + be16_bytes(addr.g6) + be16_bytes(addr.g7)));
        assert(buffer.buf@.subrange(p, end) == spec_record_bytes(rv));
    }
    Ok(())
}

} // verus!
