//! A whole DNS message: the header and the four record sections.

use vstd::prelude::*;

use crate::buffer::BytePacketBuffer;
use crate::cache::{spec_record_from_cache, CachedRecord};
use crate::errors::{CResult, DnsError};
use crate::header::{spec_empty_header, spec_header_bytes, spec_parse_header, Header, ResultCode};
use crate::records::{
    spec_parse_question, spec_parse_record, spec_question_bytes, spec_record_bytes,
    spec_write_question_result, spec_write_record_result, Ipv4Addr, Question, QuestionV, QueryType,
    Record, RecordV,
};
use crate::text::{spec_ends_with, str_ends_with};

verus! {

/// A parsed DNS message: header, questions, answers, authorities and
/// additional records, in canonical order.
#[derive(Debug, Clone, PartialEq, Eq)]
pub struct Packet {
    pub header: Header,
    pub questions: Vec<Question>,
    pub answers: Vec<Record>,
    pub authorities: Vec<Record>,
    pub resources: Vec<Record>,
}

/// The mathematical shape of a packet.
#[verifier::ext_equal]
pub struct PacketV {
    pub header: Header,
    pub questions: Seq<QuestionV>,
    pub answers: Seq<RecordV>,
    pub authorities: Seq<RecordV>,
    pub resources: Seq<RecordV>,
}

impl View for Packet {
    type V = PacketV;

    open spec fn view(&self) -> PacketV {
        PacketV {
            header: self.header,
            questions: self.questions@.map_values(|q: Question| q@),
            answers: self.answers@.map_values(|r: Record| r@),
            authorities: self.authorities@.map_values(|r: Record| r@),
            resources: self.resources@.map_values(|r: Record| r@),
        }
    }
}

/// The shape of a packet fresh out of `Packet::new`: an all-zero header
/// and empty sections.
pub open spec fn spec_empty_packet() -> PacketV {
    PacketV {
        header: spec_empty_header(),
        questions: Seq::empty(),
        answers: Seq::empty(),
        authorities: Seq::empty(),
        resources: Seq::empty(),
    }
}

/// `count` questions parsed one after another from `pos`: the sequence of
/// questions and where the cursor lands.
pub open spec fn spec_parse_questions(bytes: Seq<u8>, pos: int, n: nat) -> Result<
    (Seq<QuestionV>, int),
    DnsError,
>
    decreases n,
{
    if n == 0 {
        Ok((Seq::empty(), pos))
    } else {
        match spec_parse_question(bytes, pos) {
            Err(e) => Err(e),
            Ok(q) => match spec_parse_questions(bytes, q.1, (n - 1) as nat) {
                Err(e) => Err(e),
                Ok(rest) => Ok((seq![q.0] + rest.0, rest.1)),
            },
        }
    }
}

/// `count` records parsed one after another from `pos`: the sequence of
/// records and where the cursor lands.
pub open spec fn spec_parse_records(bytes: Seq<u8>, pos: int, n: nat) -> Result<
    (Seq<RecordV>, int),
    DnsError,
>
    decreases n,
{
    if n == 0 {
        Ok((Seq::empty(), pos))
    } else {
        match spec_parse_record(bytes, pos) {
            Err(e) => Err(e),
            Ok(rec) => match spec_parse_records(bytes, rec.1, (n - 1) as nat) {
                Err(e) => Err(e),
                Ok(rest) => Ok((seq![rec.0] + rest.0, rest.1)),
            },
        }
    }
}

/// The packet parsed at `pos`: the header, then as many questions and
/// records as the header's four counts claim, section by section.
pub open spec fn spec_parse_packet(bytes: Seq<u8>, pos: int) -> Result<(PacketV, int), DnsError> {
    if 0 <= pos && pos + 12 <= 512 {
        let h = spec_parse_header(bytes, pos);
        match spec_parse_questions(bytes, pos + 12, h.questions as nat) {
            Err(e) => Err(e),
            Ok(qs) => match spec_parse_records(bytes, qs.1, h.answers as nat) {
                Err(e) => Err(e),
                Ok(ans) => match spec_parse_records(bytes, ans.1, h.authoritative_entries as nat) {
                    Err(e) => Err(e),
                    Ok(auth) => match spec_parse_records(
                        bytes,
                        auth.1,
                        h.resource_entries as nat,
                    ) {
                        Err(e) => Err(e),
                        Ok(res) => Ok(
                            (
                                PacketV {
                                    header: h,
                                    questions: qs.0,
                                    answers: ans.0,
                                    authorities: auth.0,
                                    resources: res.0,
                                },
                                res.1,
                            ),
                        ),
                    },
                },
            },
        }
    } else {
        Err(DnsError::EndOfBuffer)
    }
}

/// The bytes a question section serializes to, one question after another.
pub open spec fn spec_questions_bytes(qs: Seq<QuestionV>) -> Seq<u8>
    decreases qs.len(),
{
    if qs.len() == 0 {
        Seq::empty()
    } else {
        spec_question_bytes(qs[0]) + spec_questions_bytes(qs.drop_first())
    }
}

/// The bytes a record section serializes to, one record after another.
pub open spec fn spec_records_bytes(rs: Seq<RecordV>) -> Seq<u8>
    decreases rs.len(),
{
    if rs.len() == 0 {
        Seq::empty()
    } else {
        spec_record_bytes(rs[0]) + spec_records_bytes(rs.drop_first())
    }
}

/// The bytes a whole packet serializes to.
pub open spec fn spec_packet_bytes(pv: PacketV) -> Seq<u8> {
    spec_header_bytes(pv.header) + spec_questions_bytes(pv.questions) + spec_records_bytes(
        pv.answers,
    ) + spec_records_bytes(pv.authorities) + spec_records_bytes(pv.resources)
}

/// What writing a question section at `pos` comes to.
pub open spec fn spec_write_questions_result(qs: Seq<QuestionV>, pos: int) -> Result<int, DnsError>
    decreases qs.len(),
{
    if qs.len() == 0 {
        Ok(pos)
    } else {
        match spec_write_question_result(qs[0], pos) {
            Err(e) => Err(e),
            Ok(p) => spec_write_questions_result(qs.drop_first(), p),
        }
    }
}

/// What writing a record section at `pos` comes to.
pub open spec fn spec_write_records_result(rs: Seq<RecordV>, pos: int) -> Result<int, DnsError>
    decreases rs.len(),
{
    if rs.len() == 0 {
        Ok(pos)
    } else {
        match spec_write_record_result(rs[0], pos) {
            Err(e) => Err(e),
            Ok(p) => spec_write_records_result(rs.drop_first(), p),
        }
    }
}

/// What writing a whole packet at `pos` comes to: the header, then every
/// section in order; the first failure wins.
pub open spec fn spec_write_packet_result(pv: PacketV, pos: int) -> Result<int, DnsError> {
    if pos + 12 <= 512 {
        match spec_write_questions_result(pv.questions, pos + 12) {
            Err(e) => Err(e),
            Ok(pq) => match spec_write_records_result(pv.answers, pq) {
                Err(e) => Err(e),
                Ok(pa) => match spec_write_records_result(pv.authorities, pa) {
                    Err(e) => Err(e),
                    Ok(pu) => spec_write_records_result(pv.resources, pu),
                },
            },
        }
    } else {
        Err(DnsError::EndOfBuffer)
    }
}

/// Adding one question at the end extends the section's bytes by that
/// question's bytes.
proof fn lemma_questions_bytes_push(qs: Seq<QuestionV>, q: QuestionV)
    ensures
        spec_questions_bytes(qs.push(q)) == spec_questions_bytes(qs) + spec_question_bytes(q),
    decreases qs.len(),
{
    if qs.len() == 0 {
        assert(qs.push(q)[0] == q);
        assert(qs.push(q).drop_first() =~= Seq::<QuestionV>::empty());
        assert(spec_questions_bytes(Seq::<QuestionV>::empty()) == Seq::<u8>::empty());
        assert(spec_questions_bytes(qs.push(q)) == spec_question_bytes(q) + Seq::<u8>::empty());
        assert(spec_questions_bytes(qs.push(q)) =~= spec_questions_bytes(qs)
            + spec_question_bytes(q));
    } else {
        lemma_questions_bytes_push(qs.drop_first(), q);
        assert(qs.push(q).drop_first() =~= qs.drop_first().push(q));
        assert(qs.push(q)[0] == qs[0]);
        let a = spec_question_bytes(qs[0]);
        let b = spec_questions_bytes(qs.drop_first());
        let c = spec_question_bytes(q);
        assert(spec_questions_bytes(qs.push(q)) == a + (b + c));
        assert(spec_questions_bytes(qs) == a + b);
        assert(a + (b + c) =~= (a + b) + c);
    }
}

/// Adding one record at the end extends the section's bytes by that
/// record's bytes.
proof fn lemma_records_bytes_push(rs: Seq<RecordV>, x: RecordV)
    ensures
        spec_records_bytes(rs.push(x)) == spec_records_bytes(rs) + spec_record_bytes(x),
    decreases rs.len(),
{
    if rs.len() == 0 {
        assert(rs.push(x)[0] == x);
        assert(rs.push(x).drop_first() =~= Seq::<RecordV>::empty());
        assert(spec_records_bytes(Seq::<RecordV>::empty()) == Seq::<u8>::empty());
        assert(spec_records_bytes(rs.push(x)) == spec_record_bytes(x) + Seq::<u8>::empty());
        assert(spec_records_bytes(rs.push(x)) =~= spec_records_bytes(rs) + spec_record_bytes(x));
    } else {
        lemma_records_bytes_push(rs.drop_first(), x);
        assert(rs.push(x).drop_first() =~= rs.drop_first().push(x));
        assert(rs.push(x)[0] == rs[0]);
        let a = spec_record_bytes(rs[0]);
        let b = spec_records_bytes(rs.drop_first());
        let c = spec_record_bytes(x);
        assert(spec_records_bytes(rs.push(x)) == a + (b + c));
        assert(spec_records_bytes(rs) == a + b);
        assert(a + (b + c) =~= (a + b) + c);
    }
}

/// Writes a question section, one question after another.
fn write_questions(buffer: &mut BytePacketBuffer, questions: &Vec<Question>) -> (r: CResult<()>)
    requires
        old(buffer).wf(),
    ensures
        final(buffer).wf(),
        final(buffer).pos >= old(buffer).pos,
        forall|j: int| 0 <= j < 512 && !(old(buffer).pos <= j < final(buffer).pos)
            ==> final(buffer).buf@[j] == old(buffer).buf@[j],
        match r {
            Ok(()) => {
                let qs = questions@.map_values(|q: Question| q@);
                (old(buffer).pos <= 512 ==> final(buffer).pos <= 512)
                    && spec_write_questions_result(qs, old(buffer).pos as int)
                    == Ok::<int, DnsError>(final(buffer).pos as int)
                    && final(buffer).pos == old(buffer).pos + spec_questions_bytes(qs).len()
                    && (final(buffer).pos <= 512 ==> final(buffer).buf@.subrange(
                    old(buffer).pos as int,
                    final(buffer).pos as int,
                ) == spec_questions_bytes(qs))
            },
            Err(e) => spec_write_questions_result(
                questions@.map_values(|q: Question| q@),
                old(buffer).pos as int,
            ) == Err::<int, DnsError>(e),
        },
{
    let ghost qs = questions@.map_values(|q: Question| q@);
    let ghost pos0 = buffer.pos as int;
    let ghost bytes0 = buffer.buf@;
    let n = questions.len();
    let mut i: usize = 0;
    proof {
        assert(qs.subrange(0, n as int) =~= qs);
    }
    while i < n
        invariant
            qs == questions@.map_values(|q: Question| q@),
            pos0 == old(buffer).pos as int,
            bytes0 == old(buffer).buf@,
            n == questions.len(),
            i <= n,
            buffer.wf(),
            buffer.pos >= pos0,
            forall|j: int| 0 <= j < 512 && !(pos0 <= j < buffer.pos)
                ==> buffer.buf@[j] == bytes0[j],
            spec_write_questions_result(qs, pos0) == spec_write_questions_result(
                qs.subrange(i as int, n as int),
                buffer.pos as int,
            ),
            buffer.pos == pos0 + spec_questions_bytes(qs.subrange(0, i as int)).len(),
            buffer.pos <= 512 ==> buffer.buf@.subrange(pos0, buffer.pos as int)
                == spec_questions_bytes(qs.subrange(0, i as int)),
            i > 0 || pos0 <= 512 ==> buffer.pos <= 512,
        decreases n - i,
    {
        proof {
            assert(qs.subrange(i as int, n as int)[0] == qs[i as int]);
            assert(qs.subrange(i as int, n as int).drop_first() =~= qs.subrange(
                i + 1 as int,
                n as int,
            ));
        }
        let ghost before = buffer.buf@;
        let ghost posb = buffer.pos as int;
        questions[i].write(buffer)?;
        proof {
            lemma_questions_bytes_push(qs.subrange(0, i as int), qs[i as int]);
            assert(qs.subrange(0, i as int).push(qs[i as int]) =~= qs.subrange(0, i + 1 as int));
            if posb <= 512 {
                assert forall|j: int| pos0 <= j < posb implies buffer.buf@[j] == before[j] by {}
                assert(buffer.buf@.subrange(pos0, posb) =~= before.subrange(pos0, posb));
                assert(buffer.buf@.subrange(pos0, buffer.pos as int) =~= buffer.buf@.subrange(
                    pos0,
                    posb,
                ) + buffer.buf@.subrange(posb, buffer.pos as int));
            }
        }
        i = i + 1;
    }
    proof {
        assert(qs.subrange(0, n as int) =~= qs);
        assert(qs.subrange(n as int, n as int) =~= Seq::<QuestionV>::empty());
    }
    Ok(())
}

/// Writes a record section, one record after another.
fn write_records_section(buffer: &mut BytePacketBuffer, records: &Vec<Record>) -> (r: CResult<()>)
    requires
        old(buffer).wf(),
    ensures
        final(buffer).wf(),
        final(buffer).pos >= old(buffer).pos,
        forall|j: int| 0 <= j < 512 && !(old(buffer).pos <= j < final(buffer).pos)
            ==> final(buffer).buf@[j] == old(buffer).buf@[j],
        match r {
            Ok(()) => {
                let rs = records@.map_values(|x: Record| x@);
                (old(buffer).pos <= 512 ==> final(buffer).pos <= 512)
                    && spec_write_records_result(rs, old(buffer).pos as int)
                    == Ok::<int, DnsError>(final(buffer).pos as int)
                    && final(buffer).pos == old(buffer).pos + spec_records_bytes(rs).len()
                    && (final(buffer).pos <= 512 ==> final(buffer).buf@.subrange(
                    old(buffer).pos as int,
                    final(buffer).pos as int,
                ) == spec_records_bytes(rs))
            },
            Err(e) => spec_write_records_result(
                records@.map_values(|x: Record| x@),
                old(buffer).pos as int,
            ) == Err::<int, DnsError>(e),
        },
{
    let ghost rs = records@.map_values(|x: Record| x@);
    let ghost pos0 = buffer.pos as int;
    let ghost bytes0 = buffer.buf@;
    let n = records.len();
    let mut i: usize = 0;
    proof {
        assert(rs.subrange(0, n as int) =~= rs);
    }
    while i < n
        invariant
            rs == records@.map_values(|x: Record| x@),
            pos0 == old(buffer).pos as int,
            bytes0 == old(buffer).buf@,
            n == records.len(),
            i <= n,
            buffer.wf(),
            buffer.pos >= pos0,
            forall|j: int| 0 <= j < 512 && !(pos0 <= j < buffer.pos)
                ==> buffer.buf@[j] == bytes0[j],
            spec_write_records_result(rs, pos0) == spec_write_records_result(
                rs.subrange(i as int, n as int),
                buffer.pos as int,
            ),
            buffer.pos == pos0 + spec_records_bytes(rs.subrange(0, i as int)).len(),
            buffer.pos <= 512 ==> buffer.buf@.subrange(pos0, buffer.pos as int)
                == spec_records_bytes(rs.subrange(0, i as int)),
            pos0 <= 512 ==> buffer.pos <= 512,
        decreases n - i,
    {
        proof {
            assert(rs.subrange(i as int, n as int)[0] == rs[i as int]);
            assert(rs.subrange(i as int, n as int).drop_first() =~= rs.subrange(
                i + 1 as int,
                n as int,
            ));
        }
        let ghost before = buffer.buf@;
        let ghost posb = buffer.pos as int;
        let _ = records[i].write(buffer)?;
        proof {
            lemma_records_bytes_push(rs.subrange(0, i as int), rs[i as int]);
            assert(rs.subrange(0, i as int).push(rs[i as int]) =~= rs.subrange(0, i + 1 as int));
            if posb <= 512 && buffer.pos <= 512 {
                assert forall|j: int| pos0 <= j < posb implies buffer.buf@[j] == before[j] by {}
                assert(buffer.buf@.subrange(pos0, posb) =~= before.subrange(pos0, posb));
                assert(buffer.buf@.subrange(pos0, buffer.pos as int) =~= buffer.buf@.subrange(
                    pos0,
                    posb,
                ) + buffer.buf@.subrange(posb, buffer.pos as int));
            }
        }
        i = i + 1;
    }
    proof {
        assert(rs.subrange(0, n as int) =~= rs);
        assert(rs.subrange(n as int, n as int) =~= Seq::<RecordV>::empty());
    }
    Ok(())
}

/// Parses `count` questions in a row.
fn read_questions(buffer: &mut BytePacketBuffer, count: u16) -> (r: CResult<Vec<Question>>)
    requires
        old(buffer).wf(),
    ensures
        final(buffer).wf(),
        final(buffer).buf@ == old(buffer).buf@,
        match r {
            Ok(v) => spec_parse_questions(old(buffer).buf@, old(buffer).pos as int, count as nat)
                == Ok::<(Seq<QuestionV>, int), DnsError>(
                (v@.map_values(|q: Question| q@), final(buffer).pos as int),
            ),
            Err(e) => spec_parse_questions(old(buffer).buf@, old(buffer).pos as int, count as nat)
                == Err::<(Seq<QuestionV>, int), DnsError>(e),
        },
{
    let ghost bytes = buffer.buf@;
    let ghost pos0 = buffer.pos as int;
    let mut v: Vec<Question> = Vec::new();
    let mut i: u16 = 0;
    while i < count
        invariant
            bytes == old(buffer).buf@,
            pos0 == old(buffer).pos as int,
            buffer.wf(),
            buffer.buf@ == bytes,
            i <= count,
            v@.len() == i,
            match spec_parse_questions(bytes, buffer.pos as int, (count - i) as nat) {
                Err(e) => spec_parse_questions(bytes, pos0, count as nat) == Err::<
                    (Seq<QuestionV>, int),
                    DnsError,
                >(e),
                Ok(rest) => spec_parse_questions(bytes, pos0, count as nat) == Ok::<
                    (Seq<QuestionV>, int),
                    DnsError,
                >((v@.map_values(|q: Question| q@) + rest.0, rest.1)),
            },
        decreases count - i,
    {
        let ghost pos_before = buffer.pos as int;
        let ghost vs = v@.map_values(|q: Question| q@);
        let mut question = Question::new(String::new(), QueryType::UNKNOWN(0));
        question.read(buffer)?;
        proof {
            let q = spec_parse_question(bytes, pos_before)->Ok_0;
            assert(question@.qname =~= q.0.qname);
        }
        v.push(question);
        proof {
            assert(v@.map_values(|q: Question| q@) =~= vs + seq![question@]);
            if spec_parse_questions(bytes, buffer.pos as int, (count - i - 1) as nat) is Ok {
                let rest = spec_parse_questions(bytes, buffer.pos as int, (count - i - 1) as nat)->Ok_0;
                let q = spec_parse_question(bytes, pos_before)->Ok_0;
                assert(vs + (seq![q.0] + rest.0) =~= (vs + seq![question@]) + rest.0);
            }
        }
        i = i + 1;
    }
    proof {
        assert(v@.map_values(|q: Question| q@) + Seq::<QuestionV>::empty()
            =~= v@.map_values(|q: Question| q@));
    }
    Ok(v)
}

/// Parses `count` records in a row.
fn read_records(buffer: &mut BytePacketBuffer, count: u16) -> (r: CResult<Vec<Record>>)
    requires
        old(buffer).wf(),
    ensures
        final(buffer).wf(),
        final(buffer).buf@ == old(buffer).buf@,
        match r {
            Ok(v) => spec_parse_records(old(buffer).buf@, old(buffer).pos as int, count as nat)
                == Ok::<(Seq<RecordV>, int), DnsError>(
                (v@.map_values(|x: Record| x@), final(buffer).pos as int),
            ),
            Err(e) => spec_parse_records(old(buffer).buf@, old(buffer).pos as int, count as nat)
                == Err::<(Seq<RecordV>, int), DnsError>(e),
        },
{
    let ghost bytes = buffer.buf@;
    let ghost pos0 = buffer.pos as int;
    let mut v: Vec<Record> = Vec::new();
    let mut i: u16 = 0;
    while i < count
        invariant
            bytes == old(buffer).buf@,
            pos0 == old(buffer).pos as int,
            buffer.wf(),
            buffer.buf@ == bytes,
            i <= count,
            v@.len() == i,
            match spec_parse_records(bytes, buffer.pos as int, (count - i) as nat) {
                Err(e) => spec_parse_records(bytes, pos0, count as nat) == Err::<
                    (Seq<RecordV>, int),
                    DnsError,
                >(e),
                Ok(rest) => spec_parse_records(bytes, pos0, count as nat) == Ok::<
                    (Seq<RecordV>, int),
                    DnsError,
                >((v@.map_values(|x: Record| x@) + rest.0, rest.1)),
            },
        decreases count - i,
    {
        let ghost pos_before = buffer.pos as int;
        let ghost vs = v@.map_values(|x: Record| x@);
        let rec = Record::read(buffer)?;
        v.push(rec);
        proof {
            assert(v@.map_values(|x: Record| x@) =~= vs + seq![rec@]);
            if spec_parse_records(bytes, buffer.pos as int, (count - i - 1) as nat) is Ok {
                let rest = spec_parse_records(bytes, buffer.pos as int, (count - i - 1) as nat)->Ok_0;
                let q = spec_parse_record(bytes, pos_before)->Ok_0;
                assert(vs + (seq![q.0] + rest.0) =~= (vs + seq![rec@]) + rest.0);
            }
        }
        i = i + 1;
    }
    proof {
        assert(v@.map_values(|x: Record| x@) + Seq::<RecordV>::empty()
            =~= v@.map_values(|x: Record| x@));
    }
    Ok(v)
}

impl Packet {
    /// An empty packet: zeroed header, no entries in any section.
    pub fn new() -> (r: Packet)
        ensures
            r@ == spec_empty_packet(),
    {
        let r = Packet {
            header: Header::new(),
            questions: Vec::new(),
            answers: Vec::new(),
            authorities: Vec::new(),
            resources: Vec::new(),
        };
        proof {
            assert(r@.questions =~= spec_empty_packet().questions);
            assert(r@.answers =~= spec_empty_packet().answers);
            assert(r@.authorities =~= spec_empty_packet().authorities);
            assert(r@.resources =~= spec_empty_packet().resources);
        }
        r
    }

    /// Sets the header fields a response mirrors from its request: the id,
    /// the recursion bits, the response bit and the result code.
    pub fn add_info(
        &mut self,
        id: u16,
        recursion_desired: bool,
        recursion_available: bool,
        response: bool,
        rescode: ResultCode,
    )
        ensures
            final(self).header == (Header {
                id,
                recursion_desired,
                recursion_available,
                response,
                rescode,
                ..old(self).header
            }),
            final(self).questions == old(self).questions,
            final(self).answers == old(self).answers,
            final(self).authorities == old(self).authorities,
            final(self).resources == old(self).resources,
    {
        self.header.id = id;
        self.header.recursion_desired = recursion_desired;
        self.header.recursion_available = recursion_available;
        self.header.response = response;
        self.header.rescode = rescode;
    }

    /// Converts a cached row back into a record and appends it to the
    /// answer section, keeping the header's answer count in step.
    pub fn add_cr_to_answers(&mut self, cr: &CachedRecord) -> (r: CResult<()>)
        requires
            old(self).header.answers < 65535,
        ensures
            match r {
                Ok(()) => (spec_record_from_cache(*cr) matches Ok(rec) && final(self)@.answers
                    == old(self)@.answers.push(rec)) && final(self).header == (Header {
                    answers: (old(self).header.answers + 1) as u16,
                    ..old(self).header
                }) && final(self).questions == old(self).questions && final(self).authorities
                    == old(self).authorities && final(self).resources == old(self).resources,
                Err(e) => spec_record_from_cache(*cr) == Err::<RecordV, DnsError>(e) && *final(self)
                    == *old(self),
            },
    {
        let record = cr.record_from_cache()?;
        let ghost rv = record@;
        self.header.answers = self.header.answers + 1;
        self.answers.push(record);
        proof {
            assert(self@.answers =~= old(self)@.answers.push(rv));
        }
        Ok(())
    }

    /// Parses a whole packet at the buffer's cursor: the header, then each
    /// section with as many entries as the header claims.
    pub fn from_buffer(buffer: &mut BytePacketBuffer) -> (r: CResult<Packet>)
        requires
            old(buffer).wf(),
        ensures
            final(buffer).wf(),
            final(buffer).buf@ == old(buffer).buf@,
            match r {
                Ok(p) => spec_parse_packet(old(buffer).buf@, old(buffer).pos as int)
                    == Ok::<(PacketV, int), DnsError>((p@, final(buffer).pos as int)),
                Err(e) => spec_parse_packet(old(buffer).buf@, old(buffer).pos as int)
                    == Err::<(PacketV, int), DnsError>(e),
            },
    {
        let mut result = Packet::new();

        result.header.read(buffer)?;

        let questions = read_questions(buffer, result.header.questions)?;
        result.questions = questions;
        let answers = read_records(buffer, result.header.answers)?;
        result.answers = answers;
        let authorities = read_records(buffer, result.header.authoritative_entries)?;
        result.authorities = authorities;
        let resources = read_records(buffer, result.header.resource_entries)?;
        result.resources = resources;

        Ok(result)
    }

    /// Serializes the whole packet at the buffer's cursor. The header's
    /// four counts are first overwritten from the actual section lengths,
    /// so the serialized counts always agree with the sections.
    #[verifier::rlimit(100)]
    #[verifier::spinoff_prover]
    pub fn write(&mut self, buffer: &mut BytePacketBuffer) -> (r: CResult<()>)
        requires
            old(buffer).wf(),
            old(self).questions.len() <= 65535,
            old(self).answers.len() <= 65535,
            old(self).authorities.len() <= 65535,
            old(self).resources.len() <= 65535,
        ensures
            final(buffer).wf(),
            final(buffer).pos >= old(buffer).pos,
            forall|j: int| 0 <= j < 512 && !(old(buffer).pos <= j < final(buffer).pos)
                ==> final(buffer).buf@[j] == old(buffer).buf@[j],
            final(self).header == (Header {
                questions: old(self).questions.len() as u16,
                answers: old(self).answers.len() as u16,
                authoritative_entries: old(self).authorities.len() as u16,
                resource_entries: old(self).resources.len() as u16,
                ..old(self).header
            }),
            final(self).questions == old(self).questions,
            final(self).answers == old(self).answers,
            final(self).authorities == old(self).authorities,
            final(self).resources == old(self).resources,
            match r {
                Ok(()) => spec_write_packet_result(final(self)@, old(buffer).pos as int)
                        == Ok::<int, DnsError>(final(buffer).pos as int)
                    && final(buffer).pos <= 512
                    && final(buffer).pos == old(buffer).pos + spec_packet_bytes(final(self)@).len()
                    && final(buffer).buf@.subrange(
                        old(buffer).pos as int,
                        final(buffer).pos as int,
                    ) == spec_packet_bytes(final(self)@),
                Err(e) => spec_write_packet_result(final(self)@, old(buffer).pos as int)
                    == Err::<int, DnsError>(e),
            },
    {
        // The serializer is the authority on the counts: they are taken
        // from the sections themselves, whatever the header held before.
        self.header.questions = self.questions.len() as u16;
        self.header.answers = self.answers.len() as u16;
        self.header.authoritative_entries = self.authorities.len() as u16;
        self.header.resource_entries = self.resources.len() as u16;

        let ghost pos0 = buffer.pos as int;

        self.header.write(buffer)?;
        let ghost p12 = buffer.pos as int;
        let ghost after_header = buffer.buf@;

        write_questions(buffer, &self.questions)?;
        let ghost pq = buffer.pos as int;
        let ghost after_questions = buffer.buf@;

        write_records_section(buffer, &self.answers)?;
        let ghost pa = buffer.pos as int;
        let ghost after_answers = buffer.buf@;

        write_records_section(buffer, &self.authorities)?;
        let ghost pu = buffer.pos as int;
        let ghost after_auth = buffer.buf@;

        write_records_section(buffer, &self.resources)?;

        proof {
            let end = buffer.pos as int;
            let pv = self@;
            assert(buffer.pos <= 512);
            assert forall|j: int| pos0 <= j < p12 implies buffer.buf@[j] == after_header[j] by {}
            assert(buffer.buf@.subrange(pos0, p12) =~= after_header.subrange(pos0, p12));
            assert forall|j: int| p12 <= j < pq implies buffer.buf@[j] == after_questions[j] by {}
            assert(buffer.buf@.subrange(p12, pq) =~= after_questions.subrange(p12, pq));
            assert forall|j: int| pq <= j < pa implies buffer.buf@[j] == after_answers[j] by {}
            assert(buffer.buf@.subrange(pq, pa) =~= after_answers.subrange(pq, pa));
            assert forall|j: int| pa <= j < pu implies buffer.buf@[j] == after_auth[j] by {}
            assert(buffer.buf@.subrange(pa, pu) =~= after_auth.subrange(pa, pu));
            assert(buffer.buf@.subrange(pos0, end) =~= buffer.buf@.subrange(pos0, p12)
                + buffer.buf@.subrange(p12, pq) + buffer.buf@.subrange(pq, pa)
                + buffer.buf@.subrange(pa, pu) + buffer.buf@.subrange(pu, end));
            assert(buffer.buf@.subrange(pos0, end) == spec_packet_bytes(pv));
        }
        Ok(())
    }

    /// A response packet that carries an error: the given id, the response
    /// bit set, and the given result code, which must not be NOERROR.
    pub fn error_packet(rescode: ResultCode, id: u16) -> (r: CResult<Packet>)
        ensures
            match r {
                Ok(p) => rescode != ResultCode::NOERROR && p@ == (PacketV {
                    header: Header { id, response: true, rescode, ..spec_empty_header() },
                    ..spec_empty_packet()
                }),
                Err(e) => rescode == ResultCode::NOERROR && e == DnsError::NoErrorCode,
            },
    {
        let mut error_packet = Packet::new();
        match rescode {
            ResultCode::NOERROR => {
                return Err(DnsError::NoErrorCode);
            },
            _ => {
                error_packet.header.rescode = rescode;
            },
        }
        error_packet.header.response = true;
        error_packet.header.id = id;

        Ok(error_packet)
    }
}

/// The (owner, target-host) pairs of the NS records in the authority
/// section whose owner is a suffix of `qname`, in wire order.
pub open spec fn spec_ns_pairs(auths: Seq<RecordV>, qname: Seq<char>) -> Seq<(Seq<char>, Seq<char>)>
    decreases auths.len(),
{
    if auths.len() == 0 {
        Seq::empty()
    } else {
        let rest = spec_ns_pairs(auths.drop_first(), qname);
        match auths[0] {
            RecordV::NS { domain, host, .. } => if spec_ends_with(qname, domain) {
                seq![(domain, host)] + rest
            } else {
                rest
            },
            _ => rest,
        }
    }
}

/// The first A record in `resources` whose owner is `host`: the glue for
/// that host, if the packet carries any.
pub open spec fn spec_first_glue(resources: Seq<RecordV>, host: Seq<char>) -> Option<RecordV>
    decreases resources.len(),
{
    if resources.len() == 0 {
        None
    } else {
        match resources[0] {
            RecordV::A { domain, .. } => if domain == host {
                Some(resources[0])
            } else {
                spec_first_glue(resources.drop_first(), host)
            },
            _ => spec_first_glue(resources.drop_first(), host),
        }
    }
}

/// The first glue record found walking the NS pairs in order.
pub open spec fn spec_resolved_ns_from(
    ns: Seq<(Seq<char>, Seq<char>)>,
    resources: Seq<RecordV>,
) -> Option<RecordV>
    decreases ns.len(),
{
    if ns.len() == 0 {
        None
    } else {
        match spec_first_glue(resources, ns[0].1) {
            Some(r) => Some(r),
            None => spec_resolved_ns_from(ns.drop_first(), resources),
        }
    }
}

/// The glue A record of the first suffix-matching NS target that has one.
pub open spec fn spec_resolved_ns(pv: PacketV, qname: Seq<char>) -> Option<RecordV> {
    spec_resolved_ns_from(spec_ns_pairs(pv.authorities, qname), pv.resources)
}

/// The first NS target host, walking the pairs in order, that has no glue
/// A record in the additional section.
pub open spec fn spec_unresolved_ns_from(
    ns: Seq<(Seq<char>, Seq<char>)>,
    resources: Seq<RecordV>,
) -> Option<Seq<char>>
    decreases ns.len(),
{
    if ns.len() == 0 {
        None
    } else {
        match spec_first_glue(resources, ns[0].1) {
            Some(_) => spec_unresolved_ns_from(ns.drop_first(), resources),
            None => Some(ns[0].1),
        }
    }
}

/// The first suffix-matching NS target host without glue.
pub open spec fn spec_unresolved_ns(pv: PacketV, qname: Seq<char>) -> Option<Seq<char>> {
    spec_unresolved_ns_from(spec_ns_pairs(pv.authorities, qname), pv.resources)
}

/// The first A record of the answer section.
pub open spec fn spec_first_a(answers: Seq<RecordV>) -> Option<RecordV>
    decreases answers.len(),
{
    if answers.len() == 0 {
        None
    } else {
        match answers[0] {
            RecordV::A { .. } => Some(answers[0]),
            _ => spec_first_a(answers.drop_first()),
        }
    }
}

/// Whatever `spec_first_glue` finds is an A record.
pub proof fn lemma_first_glue_is_a(resources: Seq<RecordV>, host: Seq<char>)
    ensures
        spec_first_glue(resources, host) matches Some(g) ==> g is A,
    decreases resources.len(),
{
    if resources.len() > 0 {
        lemma_first_glue_is_a(resources.drop_first(), host);
    }
}

/// Whatever `spec_resolved_ns_from` finds is an A record.
pub proof fn lemma_resolved_ns_is_a(ns: Seq<(Seq<char>, Seq<char>)>, resources: Seq<RecordV>)
    ensures
        spec_resolved_ns_from(ns, resources) matches Some(g) ==> g is A,
    decreases ns.len(),
{
    if ns.len() > 0 {
        lemma_first_glue_is_a(resources, ns[0].1);
        lemma_resolved_ns_is_a(ns.drop_first(), resources);
    }
}

/// Whatever `spec_first_a` finds is an A record.
pub proof fn lemma_first_a_is_a(answers: Seq<RecordV>)
    ensures
        spec_first_a(answers) matches Some(r) ==> r is A,
    decreases answers.len(),
{
    if answers.len() > 0 {
        lemma_first_a_is_a(answers.drop_first());
    }
}

impl Packet {
    /// The first A record of the additional section whose owner equals the
    /// target of a suffix-matching NS record of the authority section:
    /// glue that lets the resolver switch nameserver without another
    /// lookup.
    pub fn get_resolved_ns(&self, qname: &str) -> (r: Option<Record>)
        ensures
            match r {
                Some(rec) => spec_resolved_ns(self@, qname@) == Some(rec@),
                None => spec_resolved_ns(self@, qname@) is None,
            },
    {
        let ghost auths = self@.authorities;
        let ghost res = self@.resources;
        let n = self.authorities.len();
        let mut i: usize = 0;
        proof {
            assert(auths.subrange(0, n as int) =~= auths);
        }
        while i < n
            invariant
                auths == self@.authorities,
                res == self@.resources,
                n == self.authorities.len(),
                i <= n,
                spec_resolved_ns(self@, qname@) == spec_resolved_ns_from(
                    spec_ns_pairs(auths.subrange(i as int, n as int), qname@),
                    res,
                ),
            decreases n - i,
        {
            proof {
                assert(auths.subrange(i as int, n as int)[0] == auths[i as int]);
                assert(auths.subrange(i as int, n as int).drop_first() =~= auths.subrange(
                    i + 1 as int,
                    n as int,
                ));
            }
            match &self.authorities[i] {
                Record::NS { domain, host, ttl: _ } => {
                    if str_ends_with(qname, domain.as_str()) {
                        proof {
                            let tail = spec_ns_pairs(
                                auths.subrange(i + 1 as int, n as int),
                                qname@,
                            );
                            assert(spec_ns_pairs(auths.subrange(i as int, n as int), qname@)
                                == seq![(domain@, host@)] + tail);
                            assert((seq![(domain@, host@)] + tail)[0] == (domain@, host@));
                            assert((seq![(domain@, host@)] + tail).drop_first() =~= tail);
                        }
                        // Look for glue for this target in the additional
                        // section.
                        let m = self.resources.len();
                        let mut j: usize = 0;
                        proof {
                            assert(res.subrange(0, m as int) =~= res);
                        }
                        while j < m
                            invariant
                                res == self@.resources,
                                m == self.resources.len(),
                                j <= m,
                                spec_first_glue(res, host@) == spec_first_glue(
                                    res.subrange(j as int, m as int),
                                    host@,
                                ),
                                spec_first_glue(res, host@) matches Some(g)
                                    ==> spec_resolved_ns(self@, qname@) == Some(g),
                            decreases m - j,
                        {
                            proof {
                                assert(res.subrange(j as int, m as int)[0] == res[j as int]);
                                assert(res.subrange(j as int, m as int).drop_first()
                                    =~= res.subrange(j + 1 as int, m as int));
                            }
                            match &self.resources[j] {
                                Record::A { domain: rd, addr: _, ttl: _ } => {
                                    if *rd == *host {
                                        proof {
                                            assert(spec_first_glue(
                                                res.subrange(j as int, m as int),
                                                host@,
                                            ) == Some(res[j as int]));
                                            assert(spec_resolved_ns(self@, qname@)
                                                == Some(res[j as int]));
                                        }
                                        return Some(self.resources[j].duplicate());
                                    }
                                },
                                _ => {},
                            }
                            j = j + 1;
                        }
                        proof {
                            assert(res.subrange(m as int, m as int)
                                =~= Seq::<RecordV>::empty());
                        }
                    }
                },
                _ => {},
            }
            i = i + 1;
        }
        proof {
            assert(auths.subrange(n as int, n as int) =~= Seq::<RecordV>::empty());
        }
        None
    }

    /// The target host of the first suffix-matching NS record that has no
    /// glue A record: a nameserver the resolver must look up itself.
    pub fn get_unresolved_ns<'a>(&'a self, qname: &'a str) -> (r: Option<&'a str>)
        ensures
            match r {
                Some(host) => spec_unresolved_ns(self@, qname@) == Some(host@),
                None => spec_unresolved_ns(self@, qname@) is None,
            },
    {
        let ghost auths = self@.authorities;
        let ghost res = self@.resources;
        let n = self.authorities.len();
        let mut i: usize = 0;
        proof {
            assert(auths.subrange(0, n as int) =~= auths);
        }
        while i < n
            invariant
                auths == self@.authorities,
                res == self@.resources,
                n == self.authorities.len(),
                i <= n,
                spec_unresolved_ns(self@, qname@) == spec_unresolved_ns_from(
                    spec_ns_pairs(auths.subrange(i as int, n as int), qname@),
                    res,
                ),
            decreases n - i,
        {
            proof {
                assert(auths.subrange(i as int, n as int)[0] == auths[i as int]);
                assert(auths.subrange(i as int, n as int).drop_first() =~= auths.subrange(
                    i + 1 as int,
                    n as int,
                ));
            }
            match &self.authorities[i] {
                Record::NS { domain, host, ttl: _ } => {
                    if str_ends_with(qname, domain.as_str()) {
                        proof {
                            let tail = spec_ns_pairs(
                                auths.subrange(i + 1 as int, n as int),
                                qname@,
                            );
                            assert(spec_ns_pairs(auths.subrange(i as int, n as int), qname@)
                                == seq![(domain@, host@)] + tail);
                            assert((seq![(domain@, host@)] + tail)[0] == (domain@, host@));
                            assert((seq![(domain@, host@)] + tail).drop_first() =~= tail);
                        }
                        let m = self.resources.len();
                        let mut j: usize = 0;
                        let mut has_glue = false;
                        proof {
                            assert(res.subrange(0, m as int) =~= res);
                        }
                        while j < m && !has_glue
                            invariant
                                res == self@.resources,
                                m == self.resources.len(),
                                j <= m,
                                !has_glue ==> spec_first_glue(res, host@) == spec_first_glue(
                                    res.subrange(j as int, m as int),
                                    host@,
                                ),
                                has_glue ==> spec_first_glue(res, host@) is Some,
                            decreases m - j, (if has_glue { 0int } else { 1int }),
                        {
                            proof {
                                assert(res.subrange(j as int, m as int)[0] == res[j as int]);
                                assert(res.subrange(j as int, m as int).drop_first()
                                    =~= res.subrange(j + 1 as int, m as int));
                            }
                            match &self.resources[j] {
                                Record::A { domain: rd, addr: _, ttl: _ } => {
                                    if *rd == *host {
                                        has_glue = true;
                                    }
                                },
                                _ => {},
                            }
                            if !has_glue {
                                j = j + 1;
                            }
                        }
                        if !has_glue {
                            proof {
                                assert(res.subrange(m as int, m as int)
                                    =~= Seq::<RecordV>::empty());
                            }
                            return Some(host.as_str());
                        }
                    }
                },
                _ => {},
            }
            i = i + 1;
        }
        proof {
            assert(auths.subrange(n as int, n as int) =~= Seq::<RecordV>::empty());
        }
        None
    }

    /// The address of the first A record in the answer section, if there
    /// is one.
    pub fn get_random_a_ip(&self) -> (r: Option<Ipv4Addr>)
        ensures
            match r {
                Some(ip) => spec_first_a(self@.answers) matches Some(rec)
                    && rec == (RecordV::A { domain: rec.domain(), addr: ip, ttl: rec.ttl() }),
                None => spec_first_a(self@.answers) is None,
            },
    {
        proof {
            lemma_first_a_is_a(self@.answers);
        }
        match self.get_random_a_rec() {
            Some(rec) => match rec {
                Record::A { domain: _, addr, ttl: _ } => Some(addr),
                _ => {
                    proof {
                        assert(false);
                    }
                    None
                },
            },
            None => None,
        }
    }

    /// The first A record in the answer section, if there is one.
    pub fn get_random_a_rec(&self) -> (r: Option<Record>)
        ensures
            match r {
                Some(rec) => spec_first_a(self@.answers) == Some(rec@),
                None => spec_first_a(self@.answers) is None,
            },
    {
        let ghost ans = self@.answers;
        let n = self.answers.len();
        let mut i: usize = 0;
        proof {
            assert(ans.subrange(0, n as int) =~= ans);
        }
        while i < n
            invariant
                ans == self@.answers,
                n == self.answers.len(),
                i <= n,
                spec_first_a(ans) == spec_first_a(ans.subrange(i as int, n as int)),
            decreases n - i,
        {
            proof {
                assert(ans.subrange(i as int, n as int)[0] == ans[i as int]);
                assert(ans.subrange(i as int, n as int).drop_first() =~= ans.subrange(
                    i + 1 as int,
                    n as int,
                ));
            }
            match &self.answers[i] {
                Record::A { .. } => {
                    return Some(self.answers[i].duplicate());
                },
                _ => {},
            }
            i = i + 1;
        }
        proof {
            assert(ans.subrange(n as int, n as int) =~= Seq::<RecordV>::empty());
        }
        None
    }
}

} // verus!
