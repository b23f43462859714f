//! The 512-byte wire buffer: a fixed datagram plus a read/write cursor,
//! with big-endian integer primitives and the compressed domain-name codec.

use vstd::prelude::*;

use crate::errors::{CResult, DnsError};

verus! {

/// The datagram size every buffer holds: DNS over UDP is capped at 512 bytes.
pub const DATAGRAM_SIZE: usize = 512;

/// The value of two big-endian bytes.
pub open spec fn be16(hi: u8, lo: u8) -> u16 {
    ((hi as u16) * 256 + lo as u16) as u16
}

/// The value of four big-endian bytes.
pub open spec fn be32(b0: u8, b1: u8, b2: u8, b3: u8) -> u32 {
    ((b0 as u32) * 0x1000000 + (b1 as u32) * 0x10000 + (b2 as u32) * 256 + b3 as u32) as u32
}

/// The 16-bit big-endian value stored at `p`, if both bytes are in bounds.
pub open spec fn be16_at(bytes: Seq<u8>, p: int) -> Option<u16> {
    if 0 <= p && p + 2 <= 512 {
        Some(be16(bytes[p], bytes[p + 1]))
    } else {
        None
    }
}

/// The 32-bit big-endian value stored at `p`, if all four bytes are in bounds.
pub open spec fn be32_at(bytes: Seq<u8>, p: int) -> Option<u32> {
    if 0 <= p && p + 4 <= 512 {
        Some(be32(bytes[p], bytes[p + 1], bytes[p + 2], bytes[p + 3]))
    } else {
        None
    }
}

/// The ASCII uppercase letters mapped to lowercase; every other byte value
/// is left alone.
pub open spec fn lower_byte(b: u8) -> u8 {
    if 65 <= b && b <= 90 {
        (b + 32) as u8
    } else {
        b
    }
}

/// The characters contributed by one wire label of `len` bytes starting at
/// `p`: each byte lowercased and taken as one character.
pub open spec fn label_chars(bytes: Seq<u8>, p: int, len: int) -> Seq<char> {
    Seq::new(len as nat, |i: int| lower_byte(bytes[p + i]) as char)
}

/// The domain name decoded from `bytes` starting at `pos`, with `jumps`
/// compression jumps already taken. Labels are lowercased and joined with
/// dots. Mirrors the wire rules: a length byte with both top bits set is a
/// 14-bit pointer; a zero byte ends the name; more than 5 jumps, or any
/// read that would cross the datagram bound, is an error.
pub open spec fn q_decode(bytes: Seq<u8>, pos: int, jumps: int) -> Result<Seq<char>, DnsError>
    decreases 6 - jumps, 512 - pos,
{
    if jumps > 5 {
        Err(DnsError::JumpsExceeded)
    } else if !(0 <= pos < 512) {
        Err(DnsError::EndOfBuffer)
    } else {
        let len = bytes[pos];
        if len >= 0xC0 {
            if pos + 1 >= 512 {
                Err(DnsError::EndOfBuffer)
            } else {
                let target = (len - 0xC0) * 256 + bytes[pos + 1];
                if target < 512 {
                    q_decode(bytes, target as int, jumps + 1)
                } else {
                    Err(DnsError::EndOfBuffer)
                }
            }
        } else if len == 0 {
            Ok(Seq::empty())
        } else if pos + 1 + len >= 512 {
            Err(DnsError::EndOfBuffer)
        } else {
            match q_decode(bytes, pos + 1 + len, jumps) {
                Err(e) => Err(e),
                Ok(rest) => Ok(
                    if rest.len() == 0 {
                        label_chars(bytes, pos + 1, len as int)
                    } else {
                        label_chars(bytes, pos + 1, len as int) + seq!['.'] + rest
                    },
                ),
            }
        }
    }
}

/// Where the cursor lands after reading a name at `pos`: just past the
/// terminating zero byte, or just past the first pointer if the name jumps.
/// Only meaningful when `q_decode` succeeds.
pub open spec fn q_end(bytes: Seq<u8>, pos: int) -> int
    decreases 512 - pos,
{
    if !(0 <= pos < 512) {
        pos
    } else {
        let len = bytes[pos];
        if len >= 0xC0 {
            pos + 2
        } else if len == 0 {
            pos + 1
        } else if pos + 1 + len >= 512 {
            pos + 1 + len
        } else {
            q_end(bytes, pos + 1 + len)
        }
    }
}

/// How decoded labels already in hand join with the labels still to come:
/// nothing yet appended takes the rest as is; otherwise a dot separates the
/// two parts unless the rest is empty.
pub open spec fn name_glue(sofar: Seq<char>, rest: Seq<char>, first: bool) -> Seq<char> {
    if first {
        rest
    } else if rest.len() == 0 {
        sofar
    } else {
        sofar + seq!['.'] + rest
    }
}

/// The two big-endian bytes of a 16-bit value.
pub open spec fn be16_bytes(v: u16) -> Seq<u8> {
    seq![(v / 256) as u8, (v % 256) as u8]
}

/// The four big-endian bytes of a 32-bit value.
pub open spec fn be32_bytes(v: u32) -> Seq<u8> {
    be16_bytes((v / 0x10000) as u16) + be16_bytes((v % 0x10000) as u16)
}

/// A character taken as one wire byte (its code point modulo 256).
pub open spec fn char_byte(c: char) -> u8 {
    ((c as u32) % 256) as u8
}

/// The index of the first dot at or after `i`, or the name's length when no
/// dot follows.
pub open spec fn first_dot_from(name: Seq<char>, i: int) -> int
    decreases name.len() - i,
{
    if i < 0 || i >= name.len() {
        name.len() as int
    } else if name[i] == '.' {
        i
    } else {
        first_dot_from(name, i + 1)
    }
}

/// `first_dot_from` never passes the end of the name, and never answers
/// before its starting point unless it answers the end.
pub proof fn lemma_first_dot_bounds(name: Seq<char>, i: int)
    ensures
        first_dot_from(name, i) <= name.len(),
        i <= first_dot_from(name, i) || first_dot_from(name, i) == name.len(),
        first_dot_from(name, i) < name.len() ==> name[first_dot_from(name, i)] == '.',
    decreases name.len() - i,
{
    if 0 <= i < name.len() && name[i] != '.' {
        lemma_first_dot_bounds(name, i + 1);
    }
}

/// The uncompressed wire encoding of the part of a dot-separated name that
/// starts at `start`: each label as a length byte followed by its bytes,
/// closed by a zero byte. No compression pointers are ever produced.
pub open spec fn encode_from(name: Seq<char>, start: int) -> Seq<u8>
    decreases name.len() - start,
        via encode_from_dec
{
    let d = first_dot_from(name, start);
    let label = seq![#[verifier::truncate] ((d - start) as u8)] + Seq::new(
        (d - start) as nat,
        |j: int| char_byte(name[start + j]),
    );
    if d >= name.len() {
        label + seq![0u8]
    } else {
        label + encode_from(name, d + 1)
    }
}

#[via_fn]
proof fn encode_from_dec(name: Seq<char>, start: int) {
    lemma_first_dot_bounds(name, start);
}

/// The full uncompressed wire encoding of a dot-separated name.
pub open spec fn encode_qname(name: Seq<char>) -> Seq<u8> {
    encode_from(name, 0)
}

/// What writing the labels of `name[start..]` and the closing zero byte at
/// `pos` comes to: the cursor after the name on success; rejection of a
/// label longer than 63 bytes, or of an encoding that would cross the
/// datagram bound, in the order the writer meets them.
pub open spec fn write_qname_result(name: Seq<char>, start: int, pos: int) -> Result<int, DnsError>
    decreases name.len() - start,
        via write_qname_result_dec
{
    let d = first_dot_from(name, start);
    let llen = d - start;
    if llen > 63 {
        Err(DnsError::LabelTooLong)
    } else if pos + 1 + llen > 512 {
        Err(DnsError::EndOfBuffer)
    } else if d >= name.len() {
        if pos + 1 + llen + 1 > 512 {
            Err(DnsError::EndOfBuffer)
        } else {
            Ok(pos + 1 + llen + 1)
        }
    } else {
        write_qname_result(name, d + 1, pos + 1 + llen)
    }
}

#[via_fn]
proof fn write_qname_result_dec(name: Seq<char>, start: int, pos: int) {
    lemma_first_dot_bounds(name, start);
}

/// A name written successfully lands the cursor at least two bytes on and
/// never past the datagram.
pub proof fn lemma_write_qname_ok_bounds(name: Seq<char>, start: int, pos: int)
    requires
        0 <= start <= name.len(),
    ensures
        write_qname_result(name, start, pos) matches Ok(e) ==> pos + 2 <= e <= 512,
    decreases name.len() - start,
{
    lemma_first_dot_bounds(name, start);
    let d = first_dot_from(name, start);
    let llen = d - start;
    if llen <= 63 && pos + 1 + llen <= 512 && d < name.len() {
        lemma_write_qname_ok_bounds(name, d + 1, pos + 1 + llen);
    }
}

/// `first_dot_from` is exactly the boundary that a left-to-right scan
/// finds: no dot strictly before it, and a dot or the end at it.
pub proof fn lemma_first_dot_from(name: Seq<char>, start: int, end: int)
    requires
        0 <= start <= end <= name.len(),
        forall|j: int| start <= j < end ==> name[j] != '.',
        end == name.len() || name[end] == '.',
    ensures
        first_dot_from(name, start) == end,
    decreases end - start,
{
    if start < end {
        lemma_first_dot_from(name, start + 1, end);
    }
}

/// One character lowercased the way the wire decoder does it: as a byte.
pub open spec fn lower_char(c: char) -> char {
    lower_byte(char_byte(c)) as char
}

/// A whole name lowercased character by character.
pub open spec fn lower_name(name: Seq<char>) -> Seq<char> {
    name.map_values(|c: char| lower_char(c))
}

/// Every label of `name[start..]` is nonempty and at most 63 characters.
pub open spec fn labels_ok_from(name: Seq<char>, start: int) -> bool
    decreases name.len() - start,
        via labels_ok_from_dec
{
    let d = first_dot_from(name, start);
    1 <= d - start <= 63 && (d >= name.len() || labels_ok_from(name, d + 1))
}

#[via_fn]
proof fn labels_ok_from_dec(name: Seq<char>, start: int) {
    lemma_first_dot_bounds(name, start);
}

/// A name the uncompressed encoder and the decoder agree on: labels
/// nonempty and at most 63 characters, and every character a single byte.
pub open spec fn qname_ok(name: Seq<char>) -> bool {
    labels_ok_from(name, 0) && (forall|i: int| 0 <= i < name.len() ==> (name[i] as u32) < 256)
}

/// Writing a well-formed name uncompressed and reading it back yields the
/// name lowercased, whatever jump budget is left and whatever else the
/// datagram holds; the cursor lands right after the encoding.
pub proof fn lemma_qname_round_trip_from(name: Seq<char>, bytes: Seq<u8>, start: int, pos: int, jumps: int)
    requires
        bytes.len() == 512,
        0 <= start <= name.len(),
        labels_ok_from(name, start),
        forall|i: int| start <= i < name.len() ==> ((name[i] as u32) < 256),
        0 <= pos,
        pos + encode_from(name, start).len() <= 512,
        bytes.subrange(pos, pos + encode_from(name, start).len()) == encode_from(name, start),
        0 <= jumps <= 5,
    ensures
        q_decode(bytes, pos, jumps) == Ok::<Seq<char>, DnsError>(
            lower_name(name.subrange(start, name.len() as int)),
        ),
        q_end(bytes, pos) == pos + encode_from(name, start).len(),
    decreases name.len() - start,
{
    lemma_first_dot_bounds(name, start);
    let d = first_dot_from(name, start);
    let llen = d - start;
    let enc = encode_from(name, start);
    let label = seq![(llen as u8)] + Seq::new(llen as nat, |j: int| char_byte(name[start + j]));
    assert(enc[0] == llen as u8);
    assert(bytes[pos] == llen as u8);
    assert(1 <= llen <= 63);
    assert forall|j: int| 0 <= j < llen implies #[trigger] bytes[pos + 1 + j] == char_byte(name[start + j]) by {
        assert(enc[1 + j] == label[1 + j]);
        assert(bytes[pos + 1 + j] == enc[1 + j]);
    }
    assert(label_chars(bytes, pos + 1, llen) =~= lower_name(name.subrange(start, d)));
    if d >= name.len() {
        assert(enc.len() == llen + 2);
        assert(bytes[pos + 1 + llen] == enc[1 + llen]);
        assert(enc[1 + llen] == 0u8);
        assert(q_decode(bytes, pos + 1 + llen, jumps) == Ok::<Seq<char>, DnsError>(Seq::<char>::empty()));
        assert(q_end(bytes, pos + 1 + llen) == pos + 1 + llen + 1);
        assert(lower_name(name.subrange(start, name.len() as int))
            =~= lower_name(name.subrange(start, d)));
    } else {
        let enc_rest = encode_from(name, d + 1);
        assert(enc =~= label + enc_rest);
        assert(bytes.subrange(pos + 1 + llen, pos + 1 + llen + enc_rest.len()) =~= enc_rest) by {
            assert(forall|i: int| 0 <= i < enc_rest.len()
                ==> bytes[pos + 1 + llen + i] == enc[1 + llen + i] && enc[1 + llen + i] == enc_rest[i]);
        }
        lemma_qname_round_trip_from(name, bytes, d + 1, pos + 1 + llen, jumps);
        assert(name[d] == '.');
        let rest = lower_name(name.subrange(d + 1, name.len() as int));
        assert(rest.len() > 0) by {
            lemma_first_dot_bounds(name, d + 1);
            assert(labels_ok_from(name, d + 1));
        }
        assert(q_decode(bytes, pos, jumps) == Ok::<Seq<char>, DnsError>(
            label_chars(bytes, pos + 1, llen) + seq!['.'] + rest,
        ));
        assert(lower_char('.') == '.');
        assert(lower_name(name.subrange(start, name.len() as int))
            =~= lower_name(name.subrange(start, d)) + seq!['.'] + rest);
    }
}

/// Name round-trip: encoding a well-formed dot-separated name and decoding
/// it from anywhere it fits in a datagram yields the name lowercased, and
/// moves the cursor exactly past the encoding.
pub proof fn lemma_qname_round_trip(name: Seq<char>, bytes: Seq<u8>, pos: int)
    requires
        bytes.len() == 512,
        qname_ok(name),
        0 <= pos,
        pos + encode_qname(name).len() <= 512,
        bytes.subrange(pos, pos + encode_qname(name).len()) == encode_qname(name),
    ensures
        q_decode(bytes, pos, 0) == Ok::<Seq<char>, DnsError>(lower_name(name)),
        q_end(bytes, pos) == pos + encode_qname(name).len(),
{
    lemma_qname_round_trip_from(name, bytes, 0, pos, 0);
    assert(name.subrange(0, name.len() as int) =~= name);
}

/// Compression tolerance: a two-byte pointer decodes to exactly what its
/// target position decodes to with one jump spent, and the cursor passes
/// only the pointer.
pub proof fn lemma_pointer_decode(bytes: Seq<u8>, at: int, target: int, jumps: int)
    requires
        bytes.len() == 512,
        0 <= at,
        at + 2 <= 512,
        0 <= target < 512,
        bytes[at] == (0xC0 + target / 256) as u8,
        bytes[at + 1] == (target % 256) as u8,
        0 <= jumps <= 5,
    ensures
        q_decode(bytes, at, jumps) == q_decode(bytes, target, jumps + 1),
        q_end(bytes, at) == at + 2,
{
    assert(bytes[at] >= 0xC0);
    assert((bytes[at] - 0xC0) * 256 + bytes[at + 1] == target);
}

/// A successful decode does not depend on how much of the jump budget is
/// already spent: whatever decodes with some of the budget gone decodes
/// to the same name with more budget in hand. Together with the pointer
/// step this peels a chain of pointers one jump at a time.
pub proof fn lemma_q_decode_budget(bytes: Seq<u8>, pos: int, j1: int, j2: int)
    requires
        0 <= j1 <= j2,
        q_decode(bytes, pos, j2) is Ok,
    ensures
        q_decode(bytes, pos, j1) == q_decode(bytes, pos, j2),
    decreases 6 - j1, 512 - pos,
{
    let len = bytes[pos];
    if len >= 0xC0 {
        let target = (len - 0xC0) * 256 + bytes[pos + 1];
        lemma_q_decode_budget(bytes, target as int, j1 + 1, j2 + 1);
    } else if len == 0 {
    } else {
        lemma_q_decode_budget(bytes, pos + 1 + len, j1, j2);
    }
}

/// Compression tolerance: a packet that replaces a repeated name with a
/// two-byte pointer to an uncompressed encoding of that name decodes to
/// the very same name as the uncompressed form, the cursor passing only
/// the pointer.
pub proof fn lemma_compression_tolerance(name: Seq<char>, bytes: Seq<u8>, at: int, target: int)
    requires
        bytes.len() == 512,
        qname_ok(name),
        0 <= target < 512,
        target + encode_qname(name).len() <= 512,
        bytes.subrange(target, target + encode_qname(name).len()) == encode_qname(name),
        0 <= at,
        at + 2 <= 512,
        bytes[at] == (0xC0 + target / 256) as u8,
        bytes[at + 1] == (target % 256) as u8,
    ensures
        q_decode(bytes, at, 0) == Ok::<Seq<char>, DnsError>(lower_name(name)),
        q_decode(bytes, target, 0) == Ok::<Seq<char>, DnsError>(lower_name(name)),
        q_end(bytes, at) == at + 2,
{
    lemma_pointer_decode(bytes, at, target, 0);
    lemma_qname_round_trip_from(name, bytes, 0, target, 1);
    lemma_qname_round_trip_from(name, bytes, 0, target, 0);
    assert(name.subrange(0, name.len() as int) =~= name);
}

/// A pointer that points at itself is rejected: each jump lands on the
/// same pointer again, and the jump budget runs out.
pub proof fn lemma_pointer_cycle_rejected(bytes: Seq<u8>, p: int, jumps: int)
    requires
        bytes.len() == 512,
        0 <= p,
        p + 2 <= 512,
        bytes[p] == (0xC0 + p / 256) as u8,
        bytes[p + 1] == (p % 256) as u8,
        0 <= jumps <= 6,
    ensures
        q_decode(bytes, p, jumps) == Err::<Seq<char>, DnsError>(DnsError::JumpsExceeded),
    decreases 6 - jumps,
{
    if jumps <= 5 {
        lemma_pointer_decode(bytes, p, p, jumps);
        lemma_pointer_cycle_rejected(bytes, p, jumps + 1);
    }
}

/// Buffer that contains the binary form of a packet.
pub struct BytePacketBuffer {
    /// The bytes of the datagram; always exactly 512 of them.
    pub buf: Vec<u8>,
    /// The current position in the buffer.
    pub pos: usize,
}

impl BytePacketBuffer {
    /// Well-formedness: the datagram always holds exactly 512 bytes.
    pub open spec fn wf(&self) -> bool {
        self.buf@.len() == 512
    }

    /// A fresh, zeroed buffer with the cursor at the start.
    pub fn new() -> (r: Self)
        ensures
            r.wf(),
            r.pos == 0,
            r.buf@ == Seq::new(512, |i: int| 0u8),
    {
        let buf: Vec<u8> = vec![0u8; DATAGRAM_SIZE];
        let r = BytePacketBuffer { buf, pos: 0 };
        proof {
            assert(r.buf@ =~= Seq::new(512, |i: int| 0u8));
        }
        r
    }

    /// A fresh buffer holding the serialized form of an error-response
    /// packet: the given id, the response bit set, and the given result
    /// code, which must not be NOERROR.
    pub fn new_error_packet(rescode: crate::header::ResultCode, id: u16) -> (r: CResult<
        BytePacketBuffer,
    >)
        ensures
            match r {
                Ok(b) => rescode != crate::header::ResultCode::NOERROR && b.wf() && b.pos == 12
                    && b.buf@.subrange(0, 12) == crate::header::spec_header_bytes(
                    crate::header::Header {
                        id,
                        response: true,
                        rescode,
                        ..crate::header::spec_empty_header()
                    },
                ) && (forall|i: int| 12 <= i < 512 ==> b.buf@[i] == 0),
                Err(e) => rescode == crate::header::ResultCode::NOERROR && e
                    == DnsError::NoErrorCode,
            },
    {
        let mut error_packet = crate::packet::Packet::error_packet(rescode, id)?;
        let mut buffer = Self::new();
        proof {
            assert(crate::packet::spec_questions_bytes(Seq::<crate::records::QuestionV>::empty())
                == Seq::<u8>::empty());
            assert(crate::packet::spec_records_bytes(Seq::<crate::records::RecordV>::empty())
                == Seq::<u8>::empty());
        }
        error_packet.write(&mut buffer)?;
        proof {
            assert(crate::packet::spec_packet_bytes(error_packet@)
                =~= crate::header::spec_header_bytes(error_packet.header));
        }
        Ok(buffer)
    }

    /// Current position within the buffer.
    pub fn pos(&self) -> (r: usize)
        ensures
            r == self.pos,
    {
        self.pos
    }

    /// Reads one byte and advances the cursor; fails when the cursor has
    /// reached the end of the datagram.
    pub fn read_u8(&mut self) -> (r: CResult<u8>)
        requires
            old(self).wf(),
        ensures
            final(self).wf(),
            final(self).buf == old(self).buf,
            old(self).pos < 512 ==> r == Ok::<u8, DnsError>(old(self).buf@[old(self).pos as int])
                && final(self).pos == old(self).pos + 1,
            old(self).pos >= 512 ==> r == Err::<u8, DnsError>(DnsError::EndOfBuffer)
                && final(self).pos == old(self).pos,
    {
        if self.pos >= DATAGRAM_SIZE {
            return Err(DnsError::EndOfBuffer);
        }
        let res = self.buf[self.pos];
        self.pos = self.pos + 1;
        Ok(res)
    }

    /// Reads two bytes as a big-endian value and advances the cursor.
    pub fn read_u16(&mut self) -> (r: CResult<u16>)
        requires
            old(self).wf(),
        ensures
            final(self).wf(),
            final(self).buf == old(self).buf,
            match be16_at(old(self).buf@, old(self).pos as int) {
                Some(v) => r == Ok::<u16, DnsError>(v) && final(self).pos == old(self).pos + 2,
                None => r == Err::<u16, DnsError>(DnsError::EndOfBuffer),
            },
    {
        let hi = self.read_u8()?;
        let lo = self.read_u8()?;
        Ok((hi as u16) * 256 + lo as u16)
    }

    /// Reads four bytes as a big-endian value and advances the cursor.
    pub fn read_u32(&mut self) -> (r: CResult<u32>)
        requires
            old(self).wf(),
        ensures
            final(self).wf(),
            final(self).buf == old(self).buf,
            match be32_at(old(self).buf@, old(self).pos as int) {
                Some(v) => r == Ok::<u32, DnsError>(v) && final(self).pos == old(self).pos + 4,
                None => r == Err::<u32, DnsError>(DnsError::EndOfBuffer),
            },
    {
        let b0 = self.read_u8()?;
        let b1 = self.read_u8()?;
        let b2 = self.read_u8()?;
        let b3 = self.read_u8()?;
        Ok((b0 as u32) * 0x1000000 + (b1 as u32) * 0x10000 + (b2 as u32) * 256 + b3 as u32)
    }

    /// Gets a single byte without changing the cursor.
    pub fn get(&self, pos: usize) -> (r: CResult<u8>)
        requires
            self.wf(),
        ensures
            pos < 512 ==> r == Ok::<u8, DnsError>(self.buf@[pos as int]),
            pos >= 512 ==> r == Err::<u8, DnsError>(DnsError::EndOfBuffer),
    {
        if pos >= DATAGRAM_SIZE {
            return Err(DnsError::EndOfBuffer);
        }
        Ok(self.buf[pos])
    }

    /// Moves the cursor to an absolute position.
    pub fn seek(&mut self, pos: usize) -> (r: CResult<()>)
        ensures
            final(self).buf == old(self).buf,
            final(self).pos == pos,
            r == Ok::<(), DnsError>(()),
    {
        self.pos = pos;
        Ok(())
    }

    /// Steps the cursor forward by the given number of bytes.
    pub fn step(&mut self, steps: usize) -> (r: CResult<()>)
        requires
            old(self).pos + steps <= usize::MAX,
        ensures
            final(self).buf == old(self).buf,
            final(self).pos == old(self).pos + steps,
            r == Ok::<(), DnsError>(()),
    {
        self.pos = self.pos + steps;
        Ok(())
    }

    /// Borrows a range of bytes without changing the cursor. A range whose
    /// end touches the 512th byte is rejected, so the final byte of the
    /// datagram is never served by this call.
    pub fn get_range(&self, start: usize, len: usize) -> (r: CResult<&[u8]>)
        requires
            self.wf(),
            start + len <= usize::MAX,
        ensures
            start + len < 512 ==> (r matches Ok(s) && s@ == self.buf@.subrange(start as int, start + len)),
            start + len >= 512 ==> r == Err::<&[u8], DnsError>(DnsError::EndOfBuffer),
    {
        if start >= DATAGRAM_SIZE || len >= DATAGRAM_SIZE || start + len >= DATAGRAM_SIZE {
            return Err(DnsError::EndOfBuffer);
        }
        Ok(vstd::slice::slice_subrange(self.buf.as_slice(), start, start + len))
    }

    /// Reads a domain name at the cursor, taking compression pointers into
    /// account, and appends it to `outstr` as lowercased labels joined with
    /// dots. On success the cursor lands past the name (past the first
    /// pointer when the name jumps); a name needing more than 5 jumps or
    /// reaching past the datagram is rejected.
    pub fn read_qname(&mut self, outstr: &mut String) -> (r: CResult<()>)
        requires
            old(self).wf(),
        ensures
            final(self).wf(),
            final(self).buf@ == old(self).buf@,
            match r {
                Ok(()) => (q_decode(old(self).buf@, old(self).pos as int, 0) matches Ok(name)
                    && final(outstr)@ == old(outstr)@ + name)
                    && final(self).pos == q_end(old(self).buf@, old(self).pos as int),
                Err(e) => q_decode(old(self).buf@, old(self).pos as int, 0) == Err::<Seq<char>, DnsError>(e),
            },
    {
        let ghost bytes = self.buf@;
        let ghost pos0 = self.pos as int;
        let ghost out0 = outstr@;
        let ghost mut appended: Seq<char> = Seq::empty();

        // Track our progress on the current name locally, so that the
        // buffer's own cursor can be moved past the whole name while jumps
        // take this local position elsewhere in the datagram.
        let mut pos = self.pos();
        if pos >= DATAGRAM_SIZE {
            return Err(DnsError::EndOfBuffer);
        }
        // Whether a jump was performed yet.
        let mut jumped = false;
        let max_jumps: usize = 5;
        let mut jumps_performed: usize = 0;
        // Whether no label has been appended yet; the first label takes no
        // dot in front of it.
        let mut first = true;

        loop
            invariant_except_break
                pos < 512,
                match q_decode(bytes, pos as int, jumps_performed as int) {
                    Err(e) => q_decode(bytes, pos0, 0) == Err::<Seq<char>, DnsError>(e),
                    Ok(rest) => q_decode(bytes, pos0, 0)
                        == Ok::<Seq<char>, DnsError>(name_glue(appended, rest, first)),
                },
                !jumped ==> self.pos == pos0 && q_end(bytes, pos0) == q_end(bytes, pos as int),
            invariant
                bytes == old(self).buf@,
                pos0 == old(self).pos as int,
                out0 == old(outstr)@,
                self.wf(),
                self.buf@ == bytes,
                jumps_performed <= 6,
                max_jumps == 5,
                outstr@ == out0 + appended,
                first ==> appended.len() == 0,
                jumped ==> self.pos == q_end(bytes, pos0),
            ensures
                pos <= 512,
                q_decode(bytes, pos0, 0) == Ok::<Seq<char>, DnsError>(appended),
                jumped ==> self.pos == q_end(bytes, pos0),
                !jumped ==> self.pos == pos0 && q_end(bytes, pos0) == pos,
            decreases 6 - jumps_performed, 512 - pos,
        {
            // Limiting the number of jumps guards against pointer cycles.
            if jumps_performed > max_jumps {
                proof {
                    assert(q_decode(bytes, pos as int, jumps_performed as int)
                        == Err::<Seq<char>, DnsError>(DnsError::JumpsExceeded));
                }
                return Err(DnsError::JumpsExceeded);
            }
            // Labels begin with a length byte.
            let len = self.get(pos)?;

            // Two set top bits mark a jump to another offset in the packet.
            proof {
                assert((len & 0xC0) == 0xC0 <==> len >= 0xC0) by (bit_vector);
            }
            if (len & 0xC0) == 0xC0 {
                // Move the buffer's cursor past the two-byte pointer; only
                // the first jump decides where the cursor ends up.
                if !jumped {
                    self.seek(pos + 2)?;
                }
                let b2 = match self.get(pos + 1) {
                    Ok(b) => b,
                    Err(e) => {
                        proof {
                            assert(q_decode(bytes, pos as int, jumps_performed as int)
                                == Err::<Seq<char>, DnsError>(DnsError::EndOfBuffer));
                        }
                        return Err(e);
                    }
                };
                let offset = ((len - 0xC0) as u16) * 256 + (b2 as u16);
                if offset as usize >= DATAGRAM_SIZE {
                    return Err(DnsError::EndOfBuffer);
                }
                pos = offset as usize;
                jumped = true;
                jumps_performed = jumps_performed + 1;
                continue;
            }

            // Past the length byte.
            let ghost p = pos as int;
            pos = pos + 1;
            // A zero length ends the name.
            if len == 0 {
                proof {
                    assert(q_decode(bytes, p, jumps_performed as int)
                        == Ok::<Seq<char>, DnsError>(Seq::<char>::empty()));
                    assert(name_glue(appended, Seq::<char>::empty(), first) =~= appended);
                    assert(q_end(bytes, p) == p + 1);
                }
                break;
            }

            // The dot separates this label from the ones already appended.
            let ghost before_label = appended;
            let ghost was_first = first;
            if !first {
                crate::text::push_char(outstr, '.');
                proof {
                    appended = appended.push('.');
                    assert(outstr@ =~= out0 + appended);
                }
            }
            // The label's bytes, lowercased, one character each.
            let str_buffer = self.get_range(pos, len as usize)?;
            let ghost at_label = appended;
            let mut j: usize = 0;
            while j < len as usize
                invariant
                    self.wf(),
                    self.buf@ == bytes,
                    pos + len < 512,
                    str_buffer@ == bytes.subrange(pos as int, pos + len),
                    j <= len as usize,
                    outstr@ == out0 + at_label + label_chars(bytes, pos as int, j as int),
                decreases len as usize - j,
            {
                let b = str_buffer[j];
                let lb = if b >= 65 && b <= 90 {
                    b + 32
                } else {
                    b
                };
                crate::text::push_char(outstr, lb as char);
                proof {
                    assert(outstr@ =~= out0 + at_label + label_chars(bytes, pos as int, j + 1 as int));
                }
                j = j + 1;
            }
            proof {
                appended = at_label + label_chars(bytes, pos as int, len as int);
                assert(outstr@ =~= out0 + appended);
            }
            first = false;

            proof {
                let rest_all = q_decode(bytes, p, jumps_performed as int);
                let rest_tail = q_decode(bytes, p + 1 + len, jumps_performed as int);
                let label = label_chars(bytes, p + 1, len as int);
                if rest_tail is Ok {
                    let tail = rest_tail->Ok_0;
                    let rest = rest_all->Ok_0;
                    if tail.len() == 0 {
                        assert(rest =~= label);
                        assert(name_glue(appended, tail, false) =~= name_glue(before_label, rest, was_first));
                    } else {
                        assert(rest =~= label + seq!['.'] + tail);
                        if was_first {
                            assert(name_glue(appended, tail, false) =~= name_glue(before_label, rest, was_first));
                        } else {
                            assert(name_glue(appended, tail, false)
                                =~= before_label + seq!['.'] + (label + seq!['.'] + tail));
                        }
                    }
                }
            }
            // Past the label itself.
            pos = pos + len as usize;
        }

        if !jumped {
            self.seek(pos)?;
        }

        Ok(())
    }

    /// Writes a dot-separated name as length-prefixed labels closed by a
    /// zero byte; no compression pointers are emitted. A label longer than
    /// 63 bytes, or an encoding that does not fit the datagram, is
    /// rejected.
    pub fn write_qname(&mut self, qname: &str) -> (r: CResult<()>)
        requires
            old(self).wf(),
        ensures
            final(self).wf(),
            final(self).pos >= old(self).pos,
            forall|i: int| 0 <= i < 512 && !(old(self).pos <= i < final(self).pos)
                ==> final(self).buf@[i] == old(self).buf@[i],
            match r {
                Ok(()) => write_qname_result(qname@, 0, old(self).pos as int)
                        == Ok::<int, DnsError>(final(self).pos as int)
                    && final(self).pos == old(self).pos + encode_qname(qname@).len()
                    && final(self).buf@.subrange(old(self).pos as int, final(self).pos as int)
                        == encode_qname(qname@),
                Err(e) => write_qname_result(qname@, 0, old(self).pos as int)
                    == Err::<int, DnsError>(e),
            },
    {
        let ghost name = qname@;
        let ghost pos0 = self.pos as int;
        let ghost buf0 = self.buf@;
        let ghost mut enc_prefix: Seq<u8> = Seq::empty();

        let n = qname.unicode_len();
        let mut start: usize = 0;

        loop
            invariant_except_break
                encode_from(name, 0) == enc_prefix + encode_from(name, start as int),
                write_qname_result(name, 0, pos0)
                    == write_qname_result(name, start as int, self.pos as int),
                start <= n,
            invariant
                name == qname@,
                pos0 == old(self).pos as int,
                buf0 == old(self).buf@,
                n == name.len(),
                self.wf(),
                self.pos == pos0 + enc_prefix.len(),
                forall|i: int| 0 <= i < 512 && !(pos0 <= i < self.pos)
                    ==> self.buf@[i] == buf0[i],
                pos0 <= 512 ==> self.buf@.subrange(pos0, self.pos as int) == enc_prefix,
            ensures
                pos0 < 512,
                self.pos <= 512,
                encode_from(name, 0) == enc_prefix + seq![0u8],
                write_qname_result(name, 0, pos0) == (if self.pos + 1 > 512 {
                    Err::<int, DnsError>(DnsError::EndOfBuffer)
                } else {
                    Ok::<int, DnsError>(self.pos + 1)
                }),
            decreases n - start,
        {
            // Find the end of the current label.
            let mut end = start;
            while end < n && qname.get_char(end) != '.'
                invariant
                    name == qname@,
                    n == name.len(),
                    start <= end <= n,
                    forall|j: int| start <= j < end ==> name[j] != '.',
                decreases n - end,
            {
                end = end + 1;
            }
            proof {
                lemma_first_dot_from(name, start as int, end as int);
            }
            let len = end - start;
            if len > 63 {
                return Err(DnsError::LabelTooLong);
            }
            // The label's length byte.
            let ghost pos_label = self.pos as int;
            let ghost prefix_label = enc_prefix;
            match self.write_u8(len as u8) {
                Ok(()) => (),
                Err(e) => {
                    return Err(e);
                }
            }
            // The label's bytes, one character each.
            let mut j = start;
            while j < end
                invariant
                    name == qname@,
                    pos0 == old(self).pos as int,
                    buf0 == old(self).buf@,
                    n == name.len(),
                    start <= j <= end <= n,
                    end - start == len,
                    len <= 63,
                    first_dot_from(name, start as int) == end,
                    self.wf(),
                    pos0 <= pos_label < 512,
                    self.pos == pos_label + 1 + (j - start),
                    self.pos <= 512,
                    pos_label == pos0 + prefix_label.len(),
                    write_qname_result(name, 0, pos0)
                        == write_qname_result(name, start as int, pos_label),
                    encode_from(name, 0) == prefix_label + encode_from(name, start as int),
                    forall|i: int| 0 <= i < 512 && !(pos0 <= i < self.pos)
                        ==> self.buf@[i] == buf0[i],
                    self.buf@.subrange(pos0, self.pos as int) == prefix_label
                        + seq![(len as u8)]
                        + Seq::new((j - start) as nat, |k: int| char_byte(name[start + k])),
                decreases end - j,
            {
                let c = qname.get_char(j);
                let b = ((c as u32) % 256) as u8;
                let ghost before = self.buf@;
                let ghost posb = self.pos as int;
                match self.write_u8(b) {
                    Ok(()) => (),
                    Err(e) => {
                        return Err(e);
                    }
                }
                proof {
                    assert(self.buf@.subrange(pos0, self.pos as int) =~= before.subrange(
                        pos0,
                        posb,
                    ) + seq![b]);
                    assert(prefix_label + seq![(len as u8)] + Seq::new(
                        (j + 1 - start) as nat,
                        |k: int| char_byte(name[start + k]),
                    ) =~= prefix_label + seq![(len as u8)] + Seq::new(
                        (j - start) as nat,
                        |k: int| char_byte(name[start + k]),
                    ) + seq![char_byte(name[j as int])]);
                }
                j = j + 1;
            }
            proof {
                enc_prefix = prefix_label + seq![(len as u8)] + Seq::new(
                    (len) as nat,
                    |k: int| char_byte(name[start + k]),
                );
                assert(encode_from(name, start as int) == (seq![(len as u8)] + Seq::new(
                    (len) as nat,
                    |k: int| char_byte(name[start + k]),
                )) + (if end >= n {
                    seq![0u8]
                } else {
                    encode_from(name, end + 1)
                }));
                if end >= n {
                    assert(encode_from(name, 0) =~= enc_prefix + seq![0u8]);
                } else {
                    assert(encode_from(name, 0) =~= enc_prefix + encode_from(name, end + 1));
                }
                assert(self.buf@.subrange(pos0, self.pos as int) =~= enc_prefix);
            }
            if end >= n {
                break;
            }
            start = end + 1;
        }
        // The terminating zero byte ends the name.
        match self.write_u8(0) {
            Ok(()) => (),
            Err(e) => {
                return Err(e);
            }
        }
        proof {
            assert(self.buf@.subrange(pos0, self.pos as int) =~= enc_prefix + seq![0u8]);
        }
        Ok(())
    }

    /// Writes one byte at the cursor and advances it; fails when the cursor
    /// has reached the end of the datagram.
    pub fn write_u8(&mut self, val: u8) -> (r: CResult<()>)
        requires
            old(self).wf(),
        ensures
            final(self).wf(),
            old(self).pos < 512 ==> r == Ok::<(), DnsError>(())
                && final(self).buf@ == old(self).buf@.update(old(self).pos as int, val)
                && final(self).pos == old(self).pos + 1,
            old(self).pos >= 512 ==> r == Err::<(), DnsError>(DnsError::EndOfBuffer)
                && final(self).buf == old(self).buf
                && final(self).pos == old(self).pos,
    {
        if self.pos >= DATAGRAM_SIZE {
            return Err(DnsError::EndOfBuffer);
        }
        self.buf[self.pos] = val;
        self.pos = self.pos + 1;
        Ok(())
    }

    /// Writes a 16-bit value big-endian at the cursor and advances it.
    pub fn write_u16(&mut self, val: u16) -> (r: CResult<()>)
        requires
            old(self).wf(),
        ensures
            final(self).wf(),
            final(self).pos >= old(self).pos,
            forall|i: int| 0 <= i < 512 && !(old(self).pos <= i < final(self).pos)
                ==> final(self).buf@[i] == old(self).buf@[i],
            old(self).pos + 2 <= 512 ==> r == Ok::<(), DnsError>(())
                && final(self).buf@ == old(self).buf@
                    .update(old(self).pos as int, (val / 256) as u8)
                    .update(old(self).pos + 1, (val % 256) as u8)
                && final(self).pos == old(self).pos + 2
                && be16_at(final(self).buf@, old(self).pos as int) == Some(val),
            old(self).pos + 2 > 512 ==> r == Err::<(), DnsError>(DnsError::EndOfBuffer)
                && final(self).pos >= old(self).pos,
    {
        self.write_u8((val / 256) as u8)?;
        self.write_u8((val % 256) as u8)?;
        Ok(())
    }

    /// Writes a 32-bit value big-endian at the cursor and advances it.
    pub fn write_u32(&mut self, val: u32) -> (r: CResult<()>)
        requires
            old(self).wf(),
        ensures
            final(self).wf(),
            final(self).pos >= old(self).pos,
            forall|i: int| 0 <= i < 512 && !(old(self).pos <= i < final(self).pos)
                ==> final(self).buf@[i] == old(self).buf@[i],
            old(self).pos + 4 <= 512 ==> r == Ok::<(), DnsError>(())
                && final(self).pos == old(self).pos + 4
                && be32_at(final(self).buf@, old(self).pos as int) == Some(val)
                && final(self).buf@.subrange(old(self).pos as int, old(self).pos + 4)
                    == be32_bytes(val),
            old(self).pos + 4 > 512 ==> r == Err::<(), DnsError>(DnsError::EndOfBuffer)
                && final(self).pos >= old(self).pos,
    {
        let ghost p = self.pos as int;
        self.write_u16((val / 0x10000) as u16)?;
        self.write_u16((val % 0x10000) as u16)?;
        proof {
            assert(self.buf@.subrange(p, p + 4) =~= be32_bytes(val));
        }
        Ok(())
    }

    /// Overwrites one byte in place, without moving the cursor.
    fn set_u8(&mut self, pos: usize, val: u8) -> (r: CResult<()>)
        requires
            old(self).wf(),
        ensures
            final(self).wf(),
            final(self).pos == old(self).pos,
            pos < 512 ==> r == Ok::<(), DnsError>(())
                && final(self).buf@ == old(self).buf@.update(pos as int, val),
            pos >= 512 ==> r == Err::<(), DnsError>(DnsError::EndOfBuffer)
                && final(self).buf == old(self).buf,
    {
        if pos >= DATAGRAM_SIZE {
            return Err(DnsError::EndOfBuffer);
        }
        self.buf[pos] = val;
        Ok(())
    }

    /// Overwrites a 16-bit value big-endian in place, without moving the
    /// cursor. Used to back-patch RDLENGTH fields after variable-length
    /// record data has been written.
    pub fn set_u16(&mut self, pos: usize, val: u16) -> (r: CResult<()>)
        requires
            old(self).wf(),
            pos + 1 <= usize::MAX,
        ensures
            final(self).wf(),
            final(self).pos == old(self).pos,
            pos + 2 <= 512 ==> r == Ok::<(), DnsError>(())
                && final(self).buf@ == old(self).buf@
                    .update(pos as int, (val / 256) as u8)
                    .update(pos + 1, (val % 256) as u8)
                && be16_at(final(self).buf@, pos as int) == Some(val),
            pos >= 512 ==> r == Err::<(), DnsError>(DnsError::EndOfBuffer)
                && final(self).buf@ == old(self).buf@,
            pos == 511 ==> r == Err::<(), DnsError>(DnsError::EndOfBuffer)
                && final(self).buf@ == old(self).buf@.update(511, (val / 256) as u8),
    {
        self.set_u8(pos, (val / 256) as u8)?;
        self.set_u8(pos + 1, (val % 256) as u8)?;
        Ok(())
    }
}

} // verus!
