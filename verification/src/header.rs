//! The 12-byte DNS header: transaction id, decomposed flag bits, and the
//! four section counts.

use vstd::prelude::*;

use crate::buffer::{be16, be16_at, BytePacketBuffer};
use crate::errors::{CResult, DnsError};

verus! {

/// The response-code field, a closed enumeration; unknown wire values
/// decode to NOERROR.
#[derive(Copy, Clone, Debug, PartialEq, Eq, Structural)]
pub enum ResultCode {
    NOERROR,
    FORMERR,
    SERVFAIL,
    NXDOMAIN,
    NOTIMP,
    REFUSED,
}

/// The wire number of a response code.
pub open spec fn spec_rescode_num(rc: ResultCode) -> u8 {
    match rc {
        ResultCode::NOERROR => 0,
        ResultCode::FORMERR => 1,
        ResultCode::SERVFAIL => 2,
        ResultCode::NXDOMAIN => 3,
        ResultCode::NOTIMP => 4,
        ResultCode::REFUSED => 5,
    }
}

/// The response code a wire number decodes to; anything unknown is
/// NOERROR.
pub open spec fn spec_rescode_from_num(num: u8) -> ResultCode {
    match num {
        1u8 => ResultCode::FORMERR,
        2u8 => ResultCode::SERVFAIL,
        3u8 => ResultCode::NXDOMAIN,
        4u8 => ResultCode::NOTIMP,
        5u8 => ResultCode::REFUSED,
        _ => ResultCode::NOERROR,
    }
}

impl ResultCode {
    /// Decodes a wire number; unknown values fall back to NOERROR.
    pub fn from_num(num: u8) -> (r: ResultCode)
        ensures
            r == spec_rescode_from_num(num),
    {
        match num {
            1 => ResultCode::FORMERR,
            2 => ResultCode::SERVFAIL,
            3 => ResultCode::NXDOMAIN,
            4 => ResultCode::NOTIMP,
            5 => ResultCode::REFUSED,
            _ => ResultCode::NOERROR,
        }
    }

    /// The wire number of this response code.
    pub fn to_num(&self) -> (r: u8)
        ensures
            r == spec_rescode_num(*self),
    {
        match self {
            ResultCode::NOERROR => 0,
            ResultCode::FORMERR => 1,
            ResultCode::SERVFAIL => 2,
            ResultCode::NXDOMAIN => 3,
            ResultCode::NOTIMP => 4,
            ResultCode::REFUSED => 5,
        }
    }
}

/// The parsed form of the 12 bytes at the start of every DNS message.
#[derive(Copy, Clone, Debug, PartialEq, Eq, Structural)]
pub struct Header {
    /// Transaction id; a response must carry the id of its query.
    pub id: u16,
    /// The sender asks the server to resolve the query recursively.
    pub recursion_desired: bool,
    /// The message was cut to fit the 512-byte datagram.
    pub truncated_message: bool,
    /// The responding server owns the queried zone.
    pub authoritative_answer: bool,
    /// Operation code, four bits; normally zero.
    pub opcode: u8,
    /// False for queries, true for responses.
    pub response: bool,
    /// Status of a response.
    pub rescode: ResultCode,
    /// A security-aware resolver is willing to accept unverified data.
    pub checking_disabled: bool,
    /// The message's data has been verified.
    pub authed_data: bool,
    /// Reserved bit, now used by security-aware queries.
    pub z: bool,
    /// The server is willing to resolve recursively.
    pub recursion_available: bool,
    /// Number of entries in the question section.
    pub questions: u16,
    /// Number of entries in the answer section.
    pub answers: u16,
    /// Number of entries in the authority section.
    pub authoritative_entries: u16,
    /// Number of entries in the additional section.
    pub resource_entries: u16,
}

/// The first flags byte: RD, TC and AA in the low bits, the opcode above
/// them, and QR on top.
pub open spec fn spec_flags_a(h: Header) -> u8 {
    ((h.recursion_desired as u8) | ((h.truncated_message as u8) << 1)
        | ((h.authoritative_answer as u8) << 2) | (h.opcode << 3) | ((h.response as u8) << 7)) as u8
}

/// The second flags byte: the response code in the low bits, then CD, AD,
/// Z and RA.
pub open spec fn spec_flags_b(h: Header) -> u8 {
    (spec_rescode_num(h.rescode) | ((h.checking_disabled as u8) << 4)
        | ((h.authed_data as u8) << 5) | ((h.z as u8) << 6)
        | ((h.recursion_available as u8) << 7)) as u8
}

/// The 12 bytes a header serializes to.
pub open spec fn spec_header_bytes(h: Header) -> Seq<u8> {
    seq![
        (h.id / 256) as u8,
        (h.id % 256) as u8,
        spec_flags_a(h),
        spec_flags_b(h),
        (h.questions / 256) as u8,
        (h.questions % 256) as u8,
        (h.answers / 256) as u8,
        (h.answers % 256) as u8,
        (h.authoritative_entries / 256) as u8,
        (h.authoritative_entries % 256) as u8,
        (h.resource_entries / 256) as u8,
        (h.resource_entries % 256) as u8,
    ]
}

/// The header parsed from the 12 bytes at `p`. Meaningful only when the
/// 12 bytes are in bounds.
pub open spec fn spec_parse_header(bytes: Seq<u8>, p: int) -> Header {
    let a = bytes[p + 2];
    let b = bytes[p + 3];
    Header {
        id: be16(bytes[p], bytes[p + 1]),
        recursion_desired: (a & 1) > 0,
        truncated_message: (a & 2) > 0,
        authoritative_answer: (a & 4) > 0,
        opcode: ((a >> 3) & 0x0F) as u8,
        response: (a & 0x80) > 0,
        rescode: spec_rescode_from_num((b & 0x0F) as u8),
        checking_disabled: (b & 0x10) > 0,
        authed_data: (b & 0x20) > 0,
        z: (b & 0x40) > 0,
        recursion_available: (b & 0x80) > 0,
        questions: be16(bytes[p + 4], bytes[p + 5]),
        answers: be16(bytes[p + 6], bytes[p + 7]),
        authoritative_entries: be16(bytes[p + 8], bytes[p + 9]),
        resource_entries: be16(bytes[p + 10], bytes[p + 11]),
    }
}

impl Header {
    /// A zeroed header: id 0, all flags clear, NOERROR, all counts 0.
    pub fn new() -> (r: Header)
        ensures
            r == spec_empty_header(),
    {
        Header {
            id: 0,
            recursion_desired: false,
            truncated_message: false,
            authoritative_answer: false,
            opcode: 0,
            response: false,
            rescode: ResultCode::NOERROR,
            checking_disabled: false,
            authed_data: false,
            z: false,
            recursion_available: false,
            questions: 0,
            answers: 0,
            authoritative_entries: 0,
            resource_entries: 0,
        }
    }

    /// Parses the header at the buffer's cursor into this value and moves
    /// the cursor past the 12 header bytes.
    pub fn read(&mut self, buffer: &mut BytePacketBuffer) -> (r: CResult<()>)
        requires
            old(buffer).wf(),
        ensures
            final(buffer).wf(),
            final(buffer).buf@ == old(buffer).buf@,
            old(buffer).pos + 12 <= 512 ==> r == Ok::<(), DnsError>(())
                && *final(self) == spec_parse_header(old(buffer).buf@, old(buffer).pos as int)
                && final(buffer).pos == old(buffer).pos + 12,
            old(buffer).pos + 12 > 512 ==> r == Err::<(), DnsError>(DnsError::EndOfBuffer),
    {
        self.id = buffer.read_u16()?;

        let flags = buffer.read_u16()?;
        let flags_a = (flags / 256) as u8;
        let flags_b = (flags % 256) as u8;

        self.recursion_desired = (flags_a & 1) > 0;
        self.truncated_message = (flags_a & (1 << 1)) > 0;
        self.authoritative_answer = (flags_a & (1 << 2)) > 0;
        self.opcode = (flags_a >> 3) & 0x0F;
        self.response = (flags_a & (1 << 7)) > 0;

        self.rescode = ResultCode::from_num(flags_b & 0x0F);
        self.checking_disabled = (flags_b & (1 << 4)) > 0;
        self.authed_data = (flags_b & (1 << 5)) > 0;
        self.z = (flags_b & (1 << 6)) > 0;
        self.recursion_available = (flags_b & (1 << 7)) > 0;

        self.questions = buffer.read_u16()?;
        self.answers = buffer.read_u16()?;
        self.authoritative_entries = buffer.read_u16()?;
        self.resource_entries = buffer.read_u16()?;

        proof {
            let bytes = old(buffer).buf@;
            let p = old(buffer).pos as int;
            let hi = bytes[p + 2];
            let lo = bytes[p + 3];
            assert(flags == (hi as u16) * 256 + lo as u16);
            assert(flags_a == hi && flags_b == lo) by (bit_vector)
                requires
                    flags == (hi as u16) * 256 + lo as u16,
                    flags_a == (flags / 256) as u8,
                    flags_b == (flags % 256) as u8,
            ;
            assert((1u8 << 1) == 2u8 && (1u8 << 2) == 4u8 && (1u8 << 4) == 0x10u8
                && (1u8 << 5) == 0x20u8 && (1u8 << 6) == 0x40u8 && (1u8 << 7) == 0x80u8)
                by (bit_vector);
        }
        Ok(())
    }

    /// Serializes the header as 12 bytes at the buffer's cursor.
    pub fn write(&mut self, buffer: &mut BytePacketBuffer) -> (r: CResult<()>)
        requires
            old(buffer).wf(),
        ensures
            final(buffer).wf(),
            *final(self) == *old(self),
            final(buffer).pos >= old(buffer).pos,
            forall|i: int| 0 <= i < 512 && !(old(buffer).pos <= i < final(buffer).pos)
                ==> final(buffer).buf@[i] == old(buffer).buf@[i],
            old(buffer).pos + 12 <= 512 ==> r == Ok::<(), DnsError>(())
                && final(buffer).pos == old(buffer).pos + 12
                && final(buffer).buf@.subrange(old(buffer).pos as int, old(buffer).pos + 12)
                    == spec_header_bytes(*old(self)),
            old(buffer).pos + 12 > 512 ==> r == Err::<(), DnsError>(DnsError::EndOfBuffer),
    {
        let ghost p = buffer.pos as int;
        let ghost buf0 = buffer.buf@;
        buffer.write_u16(self.id)?;

        buffer.write_u8(
            (self.recursion_desired as u8) | ((self.truncated_message as u8) << 1)
                | ((self.authoritative_answer as u8) << 2) | (self.opcode << 3)
                | ((self.response as u8) << 7),
        )?;

        buffer.write_u8(
            self.rescode.to_num() | ((self.checking_disabled as u8) << 4)
                | ((self.authed_data as u8) << 5) | ((self.z as u8) << 6)
                | ((self.recursion_available as u8) << 7),
        )?;

        buffer.write_u16(self.questions)?;
        buffer.write_u16(self.answers)?;
        buffer.write_u16(self.authoritative_entries)?;
        buffer.write_u16(self.resource_entries)?;

        proof {
            assert(buffer.buf@.subrange(p, p + 12) =~= spec_header_bytes(*old(self)));
        }
        Ok(())
    }
}

/// The header `Header::new` returns.
pub open spec fn spec_empty_header() -> Header {
    Header {
        id: 0,
        recursion_desired: false,
        truncated_message: false,
        authoritative_answer: false,
        opcode: 0,
        response: false,
        rescode: ResultCode::NOERROR,
        checking_disabled: false,
        authed_data: false,
        z: false,
        recursion_available: false,
        questions: 0,
        answers: 0,
        authoritative_entries: 0,
        resource_entries: 0,
    }
}

/// Header round-trip: serializing a header whose opcode fits its four bits
/// and parsing the bytes back yields the original header.
pub proof fn lemma_header_round_trip(h: Header, bytes: Seq<u8>, p: int)
    requires
        bytes.len() == 512,
        0 <= p,
        p + 12 <= 512,
        bytes.subrange(p, p + 12) == spec_header_bytes(h),
        h.opcode < 16,
    ensures
        spec_parse_header(bytes, p) == h,
{
    let enc = spec_header_bytes(h);
    assert(forall|i: int| 0 <= i < 12 ==> #[trigger] bytes[p + i] == enc[i]);

    let rd = h.recursion_desired as u8;
    let tc = h.truncated_message as u8;
    let aa = h.authoritative_answer as u8;
    let op = h.opcode;
    let qr = h.response as u8;
    let a = spec_flags_a(h);
    assert(((a & 1) > 0) == (rd == 1) && ((a & 2) > 0) == (tc == 1) && ((a & 4) > 0) == (aa == 1)
        && ((a >> 3) & 0x0F) == op && ((a & 0x80) > 0) == (qr == 1)) by (bit_vector)
        requires
            a == ((rd | (tc << 1) | (aa << 2) | (op << 3) | (qr << 7)) as u8),
            rd <= 1,
            tc <= 1,
            aa <= 1,
            op < 16,
            qr <= 1,
    ;

    let rc = spec_rescode_num(h.rescode);
    let cd = h.checking_disabled as u8;
    let ad = h.authed_data as u8;
    let z = h.z as u8;
    let ra = h.recursion_available as u8;
    let b = spec_flags_b(h);
    assert((b & 0x0F) == rc && ((b & 0x10) > 0) == (cd == 1) && ((b & 0x20) > 0) == (ad == 1)
        && ((b & 0x40) > 0) == (z == 1) && ((b & 0x80) > 0) == (ra == 1)) by (bit_vector)
        requires
            b == ((rc | (cd << 4) | (ad << 5) | (z << 6) | (ra << 7)) as u8),
            rc < 16,
            cd <= 1,
            ad <= 1,
            z <= 1,
            ra <= 1,
    ;
    assert(spec_rescode_from_num(rc) == h.rescode);

    assert(be16((h.id / 256) as u8, (h.id % 256) as u8) == h.id);
    assert(be16((h.questions / 256) as u8, (h.questions % 256) as u8) == h.questions);
    assert(be16((h.answers / 256) as u8, (h.answers % 256) as u8) == h.answers);
    assert(be16(
        (h.authoritative_entries / 256) as u8,
        (h.authoritative_entries % 256) as u8,
    ) == h.authoritative_entries);
    assert(be16((h.resource_entries / 256) as u8, (h.resource_entries % 256) as u8)
        == h.resource_entries);
}

} // verus!
