//! The per-datagram decisions of the query handler: which path a request
//! takes, how the cache-only response is built, and how a resolver result
//! becomes the client's response. Sockets and the store stay outside; this
//! module works on parsed packets, fetched rows and a timestamp.

use vstd::prelude::*;

use crate::buffer::BytePacketBuffer;
use crate::cache::{spec_record_from_cache, spec_valid, CachedRecord};
use crate::errors::{CResult, DnsError};
use crate::header::{spec_empty_header, Header, ResultCode};
use crate::packet::{
    spec_empty_packet, spec_packet_bytes, spec_write_packet_result, Packet, PacketV,
};
use crate::records::{Question, QuestionV, QueryType, Record, RecordV};

verus! {

/// The path an inbound request takes.
#[derive(Clone, Copy, Debug, PartialEq, Eq, Structural)]
pub enum Dispatch {
    /// The request carries the response bit: it is dropped silently and
    /// no datagram goes back.
    Drop,
    /// Recursion is not desired: only the cache is consulted.
    CacheOnly,
    /// Recursion is desired: the iterative resolver runs.
    Resolve,
}

/// Decides a parsed request's path: a request with the response bit set is
/// dropped without a reply, and external resolution is never started
/// unless the request asks for recursion.
pub fn dispatch_request(request: &Packet) -> (r: Dispatch)
    ensures
        request@.header.response ==> r == Dispatch::Drop,
        !request@.header.response && !request@.header.recursion_desired ==> r
            == Dispatch::CacheOnly,
        !request@.header.response && request@.header.recursion_desired ==> r == Dispatch::Resolve,
{
    if request.header.response {
        Dispatch::Drop
    } else if !request.header.recursion_desired {
        Dispatch::CacheOnly
    } else {
        Dispatch::Resolve
    }
}

/// Takes the question the handler answers: the last one of the request's
/// question section.
pub fn take_question(request: &mut Packet) -> (r: Option<Question>)
    ensures
        final(request).header == old(request).header,
        final(request).answers == old(request).answers,
        final(request).authorities == old(request).authorities,
        final(request).resources == old(request).resources,
        match r {
            Some(q) => old(request)@.questions.len() > 0 && q@ == old(request)@.questions.last()
                && final(request)@.questions == old(request)@.questions.drop_last(),
            None => old(request)@.questions.len() == 0 && final(request)@.questions
                == old(request)@.questions,
        },
{
    let r = request.questions.pop();
    proof {
        if old(request)@.questions.len() > 0 {
            assert(request@.questions =~= old(request)@.questions.drop_last());
            assert(old(request)@.questions.last() == old(request).questions@.last()@);
        }
    }
    r
}

/// Appends copies of all of `src` at the end of `dst`.
fn append_records(dst: &mut Vec<Record>, src: &Vec<Record>)
    ensures
        final(dst)@.map_values(|r: Record| r@) == old(dst)@.map_values(|r: Record| r@)
            + src@.map_values(|r: Record| r@),
{
    let ghost base = dst@.map_values(|r: Record| r@);
    let ghost srcv = src@.map_values(|r: Record| r@);
    let n = src.len();
    let mut i: usize = 0;
    proof {
        assert(base + srcv.subrange(0, 0) =~= base);
    }
    while i < n
        invariant
            base == old(dst)@.map_values(|r: Record| r@),
            srcv == src@.map_values(|r: Record| r@),
            n == src.len(),
            i <= n,
            dst@.map_values(|r: Record| r@) == base + srcv.subrange(0, i as int),
        decreases n - i,
    {
        let ghost prev = dst@;
        let rec = src[i].duplicate();
        let ghost rv = rec@;
        dst.push(rec);
        proof {
            assert(rv == srcv[i as int]);
            assert(dst@.map_values(|r: Record| r@) =~= prev.map_values(|r: Record| r@).push(rv));
            assert(prev.map_values(|r: Record| r@).push(rv) =~= base + srcv.subrange(
                0,
                (i + 1) as int,
            ));
        }
        i = i + 1;
    }
    proof {
        assert(srcv.subrange(0, n as int) =~= srcv);
    }
}

/// The response the recursion-desired path sends: the request's id, the
/// recursion and response bits set, the question echoed, and the
/// resolver's result code and sections; a failed resolution turns into
/// SERVFAIL with no sections.
pub fn compose_response(request_id: u16, question: &Question, result: Option<Packet>) -> (r:
    Packet)
    ensures
        r@.header == (Header {
            id: request_id,
            recursion_desired: true,
            recursion_available: true,
            response: true,
            rescode: match result {
                Some(pkt) => pkt@.header.rescode,
                None => ResultCode::SERVFAIL,
            },
            ..spec_empty_header()
        }),
        match result {
            Some(pkt) => r@.questions == seq![question@] && r@.answers == pkt@.answers
                && r@.authorities == pkt@.authorities && r@.resources == pkt@.resources,
            None => r@.questions =~= Seq::<QuestionV>::empty() && r@.answers =~= Seq::<
                RecordV,
            >::empty() && r@.authorities =~= Seq::<RecordV>::empty() && r@.resources =~= Seq::<
                RecordV,
            >::empty(),
        },
{
    let mut response = Packet::new();
    response.header.id = request_id;
    response.header.recursion_desired = true;
    response.header.recursion_available = true;
    response.header.response = true;

    match result {
        Some(pkt) => {
            response.questions.push(question.duplicate());
            proof {
                assert(response@.questions =~= seq![question@]);
            }
            response.header.rescode = pkt.header.rescode;
            append_records(&mut response.answers, &pkt.answers);
            append_records(&mut response.authorities, &pkt.authorities);
            append_records(&mut response.resources, &pkt.resources);
            proof {
                assert(response@.answers =~= pkt@.answers);
                assert(response@.authorities =~= pkt@.authorities);
                assert(response@.resources =~= pkt@.resources);
            }
        },
        None => {
            response.header.rescode = ResultCode::SERVFAIL;
        },
    }

    response
}

/// The response a request without a question gets: the request's id, the
/// response bit, recursion available, and FORMERR, with every section
/// empty. The recursion-desired bit mirrors the path that found the
/// malformed request.
pub fn formerr_response(request_id: u16, recursion_desired: bool) -> (r: Packet)
    ensures
        r@.header == (Header {
            id: request_id,
            recursion_desired,
            recursion_available: true,
            response: true,
            rescode: ResultCode::FORMERR,
            ..spec_empty_header()
        }),
        r@.questions =~= Seq::<QuestionV>::empty(),
        r@.answers =~= Seq::<RecordV>::empty(),
        r@.authorities =~= Seq::<RecordV>::empty(),
        r@.resources =~= Seq::<RecordV>::empty(),
{
    let mut r = Packet::new();
    r.add_info(request_id, recursion_desired, true, true, ResultCode::FORMERR);
    r
}

/// What one pass over the fetched rows yields: the first valid row that
/// reads back as a record, the ids of the expired rows met on the way
/// there, which the caller must delete, and the ids of the rows that
/// violate their column-set invariant, which the caller must report.
pub open spec fn spec_cache_scan(rows: Seq<CachedRecord>, now: i64) -> (
    Option<RecordV>,
    Seq<u32>,
    Seq<u32>,
)
    decreases rows.len(),
{
    if rows.len() == 0 {
        (None, Seq::empty(), Seq::empty())
    } else if !spec_valid(rows[0], now) {
        let rest = spec_cache_scan(rows.drop_first(), now);
        (rest.0, seq![rows[0].id] + rest.1, rest.2)
    } else {
        match spec_record_from_cache(rows[0]) {
            Ok(rec) => (Some(rec), Seq::empty(), Seq::empty()),
            Err(_) => {
                let rest = spec_cache_scan(rows.drop_first(), now);
                (rest.0, rest.1, seq![rows[0].id] + rest.2)
            },
        }
    }
}

/// Expired-entry eviction: when the scan ends in a miss, every expired row
/// it encountered is on the deletion list, so a miss never leaves behind
/// an expired row it saw.
pub proof fn lemma_eviction_before_miss(rows: Seq<CachedRecord>, now: i64)
    ensures
        spec_cache_scan(rows, now).0 is None ==> forall|i: int|
            0 <= i < rows.len() && !spec_valid(#[trigger] rows[i], now)
                ==> spec_cache_scan(rows, now).1.contains(rows[i].id),
    decreases rows.len(),
{
    if rows.len() > 0 {
        lemma_eviction_before_miss(rows.drop_first(), now);
        let scan = spec_cache_scan(rows, now);
        let rest = spec_cache_scan(rows.drop_first(), now);
        if scan.0 is None {
            assert forall|i: int|
                0 <= i < rows.len() && !spec_valid(#[trigger] rows[i], now) implies scan.1.contains(
                rows[i].id,
            ) by {
                if !spec_valid(rows[0], now) {
                    if i == 0 {
                        assert(scan.1[0] == rows[0].id);
                    } else {
                        assert(rows.drop_first()[i - 1] == rows[i]);
                        let j = choose|j: int|
                            0 <= j < rest.1.len() && rest.1[j] == rows[i].id;
                        assert(scan.1[j + 1] == rows[i].id);
                    }
                } else {
                    assert(rows.drop_first()[i - 1] == rows[i]);
                }
            }
        }
    }
}

/// The cache-only response for one question: the first valid row found
/// answers with NOERROR; when every row is expired, malformed or absent,
/// the answer is SERVFAIL. Expired rows met along the way come back as
/// ids to delete, so a miss never leaves the expired rows it saw behind;
/// rows that cannot be read back come back as ids to report.
pub fn cached_compose_response(request_id: u16, rows: &Vec<CachedRecord>, now: i64) -> (r: (
    Packet,
    Vec<u32>,
    Vec<u32>,
))
    ensures
        ({
            let scan = spec_cache_scan(rows@, now);
            r.1@ == scan.1 && r.2@ == scan.2 && r.0@.header == (Header {
                id: request_id,
                recursion_available: true,
                response: true,
                rescode: match scan.0 {
                    Some(_) => ResultCode::NOERROR,
                    None => ResultCode::SERVFAIL,
                },
                answers: match scan.0 {
                    Some(_) => 1u16,
                    None => 0u16,
                },
                ..spec_empty_header()
            }) && (match scan.0 {
                Some(rec) => r.0@.answers == seq![rec],
                None => r.0@.answers =~= Seq::<RecordV>::empty(),
            }) && r.0@.questions =~= Seq::<QuestionV>::empty() && r.0@.authorities =~= Seq::<
                RecordV,
            >::empty() && r.0@.resources =~= Seq::<RecordV>::empty()
        }),
{
    let ghost rseq = rows@;
    let mut evict: Vec<u32> = Vec::new();
    let mut corrupt: Vec<u32> = Vec::new();
    let n = rows.len();
    let mut i: usize = 0;
    proof {
        assert(evict@ =~= Seq::<u32>::empty());
        assert(corrupt@ =~= Seq::<u32>::empty());
        assert(rseq.subrange(0, n as int) =~= rseq);
    }
    while i < n
        invariant
            rseq == rows@,
            n == rows.len(),
            i <= n,
            ({
                let whole = spec_cache_scan(rseq, now);
                let rest = spec_cache_scan(rseq.subrange(i as int, n as int), now);
                whole.0 == rest.0 && whole.1 == evict@ + rest.1 && whole.2 == corrupt@ + rest.2
            }),
        decreases n - i,
    {
        proof {
            assert(rseq.subrange(i as int, n as int)[0] == rseq[i as int]);
            assert(rseq.subrange(i as int, n as int).drop_first() =~= rseq.subrange(
                (i + 1) as int,
                n as int,
            ));
        }
        let entry = &rows[i];
        if entry.is_valid(now) {
            match entry.record_from_cache() {
                Ok(_) => {
                    // A valid, readable row: answer with it.
                    let mut response = Packet::new();
                    match response.add_cr_to_answers(entry) {
                        Ok(()) => {
                            let rescode = response.header.rescode;
                            response.add_info(request_id, false, true, true, rescode);
                            proof {
                                assert(spec_cache_scan(
                                    rseq.subrange(i as int, n as int),
                                    now,
                                ).1 =~= Seq::<u32>::empty());
                                assert(spec_cache_scan(
                                    rseq.subrange(i as int, n as int),
                                    now,
                                ).2 =~= Seq::<u32>::empty());
                                assert(evict@ + Seq::<u32>::empty() =~= evict@);
                                assert(corrupt@ + Seq::<u32>::empty() =~= corrupt@);
                            }
                            return (response, evict, corrupt);
                        },
                        Err(_) => {
                            // Unreachable: the row read back once already.
                        },
                    }
                },
                Err(_) => {
                    // Incorrect data in the cache: treated as a miss and
                    // reported for the operator to look into.
                    let ghost prev = corrupt@;
                    corrupt.push(entry.id);
                    proof {
                        let rest = spec_cache_scan(
                            rseq.subrange((i + 1) as int, n as int),
                            now,
                        );
                        assert(corrupt@ + rest.2 =~= prev + (seq![entry.id] + rest.2));
                    }
                },
            }
        } else {
            let ghost prev = evict@;
            evict.push(entry.id);
            proof {
                let rest = spec_cache_scan(rseq.subrange((i + 1) as int, n as int), now);
                assert(evict@ + rest.1 =~= prev + (seq![entry.id] + rest.1));
            }
        }
        i = i + 1;
    }
    proof {
        assert(rseq.subrange(n as int, n as int) =~= Seq::<CachedRecord>::empty());
        assert(evict@ + Seq::<u32>::empty() =~= evict@);
        assert(corrupt@ + Seq::<u32>::empty() =~= corrupt@);
    }
    let mut response = Packet::new();
    response.add_info(request_id, false, true, true, ResultCode::SERVFAIL);
    (response, evict, corrupt)
}

/// The shape of the query packet one upstream lookup sends: the fixed
/// transaction id 999, recursion desired, and a single question.
pub open spec fn spec_lookup_query(qname: Seq<char>, qtype: QueryType) -> PacketV {
    PacketV {
        header: Header {
            id: 999,
            recursion_desired: true,
            questions: 1,
            ..spec_empty_header()
        },
        questions: seq![QuestionV { qname, qtype }],
        ..spec_empty_packet()
    }
}

/// Builds and serializes the query packet an upstream lookup sends for
/// `qname` and `qtype`: id 999, recursion desired, one question.
pub fn build_lookup_query(qname: &str, qtype: QueryType) -> (r: CResult<BytePacketBuffer>)
    ensures
        match r {
            Ok(b) => b.wf() && spec_write_packet_result(spec_lookup_query(qname@, qtype), 0)
                == Ok::<int, DnsError>(b.pos as int) && b.pos <= 512 && b.buf@.subrange(
                0,
                b.pos as int,
            ) == spec_packet_bytes(spec_lookup_query(qname@, qtype)),
            Err(e) => spec_write_packet_result(spec_lookup_query(qname@, qtype), 0) == Err::<
                int,
                DnsError,
            >(e),
        },
{
    let mut packet = Packet::new();
    packet.header.id = 999;
    packet.header.questions = 1;
    packet.header.recursion_desired = true;
    packet.questions.push(Question::new(qname.to_owned(), qtype));
    proof {
        assert(packet@.questions =~= seq![QuestionV { qname: qname@, qtype }]);
    }
    let mut req_buffer = BytePacketBuffer::new();
    proof {
        assert(packet@ =~= spec_lookup_query(qname@, qtype));
    }
    let ghost before = packet@;
    match packet.write(&mut req_buffer) {
        Ok(()) => {},
        Err(e) => {
            proof {
                assert(packet@ =~= before);
            }
            return Err(e);
        },
    }
    proof {
        assert(packet@ =~= before);
    }
    Ok(req_buffer)
}

} // verus!
