use vstd::prelude::*;

use crate::buffer::PacketBuffer;
use crate::buffer::sp_u16;
use crate::buffer::splice;
use crate::buffer::u16_hi;
use crate::buffer::u16_lo;
use crate::errors::DnsError;

verus! {

/// The 4-bit query kind of a message.
#[derive(Debug, Clone, Copy, PartialEq, Eq, Structural)]
pub enum Opcode {
    Query,
    ReverseQuery,
    Status,
}

/// The 4-bit status of a response.
#[derive(Debug, Clone, Copy, PartialEq, Eq, Structural)]
pub enum ResCode {
    NoError,
    FormErr,
    ServFail,
    NXDomain,
}

/// The wire code of an opcode.
pub open spec fn opcode_code(op: Opcode) -> u8 {
    match op {
        Opcode::Query => 0,
        Opcode::ReverseQuery => 1,
        Opcode::Status => 2,
    }
}

/// The opcode a wire code decodes to; unrecognized codes fall back to
/// `Query`, a lenient policy rather than an error.
pub open spec fn opcode_of(code: u8) -> Opcode {
    if code == 1 {
        Opcode::ReverseQuery
    } else if code == 2 {
        Opcode::Status
    } else {
        Opcode::Query
    }
}

/// The wire code of a response code.
pub open spec fn rescode_code(rc: ResCode) -> u8 {
    match rc {
        ResCode::NoError => 0,
        ResCode::FormErr => 1,
        ResCode::ServFail => 2,
        ResCode::NXDomain => 3,
    }
}

/// The response code a wire code decodes to; unrecognized codes fall back
/// to `NoError`, the same lenient policy.
pub open spec fn rescode_of(code: u8) -> ResCode {
    if code == 1 {
        ResCode::FormErr
    } else if code == 2 {
        ResCode::ServFail
    } else if code == 3 {
        ResCode::NXDomain
    } else {
        ResCode::NoError
    }
}

impl Opcode {
    /// Decodes a 4-bit opcode from its wire code.
    pub fn read(code: &u8) -> (r: Opcode)
        ensures
            r == opcode_of(*code),
    {
        if *code == 1 {
            Opcode::ReverseQuery
        } else if *code == 2 {
            Opcode::Status
        } else {
            Opcode::Query
        }
    }

    /// The wire code this opcode encodes to.
    pub fn code(self) -> (c: u8)
        ensures
            c == opcode_code(self),
    {
        match self {
            Opcode::Query => 0,
            Opcode::ReverseQuery => 1,
            Opcode::Status => 2,
        }
    }
}

impl ResCode {
    /// Decodes a 4-bit response code from its wire code.
    pub fn read(code: &u8) -> (r: ResCode)
        ensures
            r == rescode_of(*code),
    {
        if *code == 1 {
            ResCode::FormErr
        } else if *code == 2 {
            ResCode::ServFail
        } else if *code == 3 {
            ResCode::NXDomain
        } else {
            ResCode::NoError
        }
    }

    /// The wire code this response code encodes to.
    pub fn code(self) -> (c: u8)
        ensures
            c == rescode_code(self),
    {
        match self {
            ResCode::NoError => 0,
            ResCode::FormErr => 1,
            ResCode::ServFail => 2,
            ResCode::NXDomain => 3,
        }
    }
}

/// The fixed 12-byte message header: transaction id, the bit-packed flag
/// fields of its two flag bytes, and the four section counts.
#[derive(Debug, Clone, Copy, PartialEq, Eq, Structural)]
pub struct Header {
    pub id: u16,
    pub recursion_desired: bool,
    pub truncated_message: bool,
    pub authoritative_answer: bool,
    pub opcode: Opcode,
    pub response: bool,
    pub rescode: ResCode,
    pub checking_disabled: bool,
    pub authed_data: bool,
    pub recursion_available: bool,
    pub questions: u16,
    pub answers: u16,
    pub authoritative_entries: u16,
    pub resource_entries: u16,
}

/// A flag bit as the byte 0 or 1.
pub open spec fn bit(b: bool) -> u8 {
    if b {
        1
    } else {
        0
    }
}

/// The high flag byte: recursion-desired, truncated, authoritative-answer,
/// the opcode in bits 3 to 6, and the response bit on top.
pub open spec fn flags_hi(h: Header) -> u8 {
    (bit(h.recursion_desired) | bit(h.truncated_message) << 1 | bit(h.authoritative_answer) << 2
        | opcode_code(h.opcode) << 3 | bit(h.response) << 7) as u8
}

/// The low flag byte: the response code in its low bits, checking-disabled,
/// authenticated-data, a reserved zero bit, and recursion-available on top.
pub open spec fn flags_lo(h: Header) -> u8 {
    (rescode_code(h.rescode) | bit(h.checking_disabled) << 4 | bit(h.authed_data) << 5 | bit(
        h.recursion_available,
    ) << 7) as u8
}

/// The twelve bytes a header encodes to.
pub open spec fn sp_header_bytes(h: Header) -> Seq<u8> {
    seq![
        u16_hi(h.id),
        u16_lo(h.id),
        flags_hi(h),
        flags_lo(h),
        u16_hi(h.questions),
        u16_lo(h.questions),
        u16_hi(h.answers),
        u16_lo(h.answers),
        u16_hi(h.authoritative_entries),
        u16_lo(h.authoritative_entries),
        u16_hi(h.resource_entries),
        u16_lo(h.resource_entries),
    ]
}

/// The header twelve bytes decode to.
pub open spec fn sp_parse_header(b: Seq<u8>) -> Header {
    let a = b[2];
    let c = b[3];
    Header {
        id: sp_u16(b[0], b[1]),
        recursion_desired: (a & 1) > 0,
        truncated_message: (a & 2) > 0,
        authoritative_answer: (a & 4) > 0,
        opcode: opcode_of((a >> 3) & 0x0F),
        response: (a & 0x80) > 0,
        rescode: rescode_of(c & 0x0F),
        checking_disabled: (c & 0x10) > 0,
        authed_data: (c & 0x20) > 0,
        recursion_available: (c & 0x80) > 0,
        questions: sp_u16(b[4], b[5]),
        answers: sp_u16(b[6], b[7]),
        authoritative_entries: sp_u16(b[8], b[9]),
        resource_entries: sp_u16(b[10], b[11]),
    }
}

/// The defaults of an ordinary recursive query.
pub open spec fn default_header() -> Header {
    Header {
        id: 0,
        recursion_desired: true,
        truncated_message: false,
        authoritative_answer: false,
        opcode: Opcode::Query,
        response: false,
        rescode: ResCode::NoError,
        checking_disabled: false,
        authed_data: true,
        recursion_available: true,
        questions: 0,
        answers: 0,
        authoritative_entries: 0,
        resource_entries: 0,
    }
}

impl Header {
    /// A fresh header with the defaults of an ordinary recursive query.
    pub fn new() -> (h: Header)
        ensures
            h == default_header(),
    {
        Header {
            id: 0,
            recursion_desired: true,
            truncated_message: false,
            authoritative_answer: false,
            opcode: Opcode::Query,
            response: false,
            rescode: ResCode::NoError,
            checking_disabled: false,
            authed_data: true,
            recursion_available: true,
            questions: 0,
            answers: 0,
            authoritative_entries: 0,
            resource_entries: 0,
        }
    }

    /// Decodes the 12-byte header at the cursor: id, the two flag bytes,
    /// then the four section counts.  A failure leaves everything unchanged.
    pub fn read(&mut self, buffer: &mut PacketBuffer) -> (r: Result<(), DnsError>)
        ensures
            final(buffer).buf@ == old(buffer).buf@,
            final(buffer).len == old(buffer).len,
            old(buffer).pos + 12 <= old(buffer).spec_limit() ==> r is Ok && final(buffer).pos
                == old(buffer).pos + 12 && *final(self) == sp_parse_header(
                old(buffer).data().subrange(old(buffer).pos as int, old(buffer).pos + 12),
            ),
            old(buffer).pos + 12 > old(buffer).spec_limit() ==> r == Err::<(), DnsError>(
                DnsError::BufferBounds,
            ) && *final(buffer) == *old(buffer) && *final(self) == *old(self),
    {
        let lim = buffer.limit();
        if lim < 12 || buffer.pos > lim - 12 {
            return Err(DnsError::BufferBounds);
        }
        let ghost sub = buffer.data().subrange(buffer.pos as int, buffer.pos + 12);
        let ghost hi2 = buffer.data()[buffer.pos + 2];
        let ghost lo3 = buffer.data()[buffer.pos + 3];
        let id = match buffer.read_u16() {
            Ok(v) => v,
            Err(e) => {
                proof {
                    assert(false);
                }
                return Err(e);
            },
        };
        let flags = match buffer.read_u16() {
            Ok(v) => v,
            Err(e) => {
                proof {
                    assert(false);
                }
                return Err(e);
            },
        };
        let a = (flags >> 8) as u8;
        let b = (flags & 0xFF) as u8;
        proof {
            assert(flags == ((hi2 as u16) << 8 | (lo3 as u16)) as u16);
            assert((flags >> 8) as u8 == hi2 && (flags & 0xFF) as u8 == lo3) by (bit_vector)
                requires
                    flags == ((hi2 as u16) << 8 | (lo3 as u16)) as u16,
            ;
        }
        self.id = id;
        self.recursion_desired = (a & 1) > 0;
        self.truncated_message = (a & 2) > 0;
        self.authoritative_answer = (a & 4) > 0;
        self.opcode = Opcode::read(&((a >> 3) & 0x0F));
        self.response = (a & 0x80) > 0;
        self.rescode = ResCode::read(&(b & 0x0F));
        self.checking_disabled = (b & 0x10) > 0;
        self.authed_data = (b & 0x20) > 0;
        self.recursion_available = (b & 0x80) > 0;
        self.questions = match buffer.read_u16() {
            Ok(v) => v,
            Err(e) => {
                proof {
                    assert(false);
                }
                return Err(e);
            },
        };
        self.answers = match buffer.read_u16() {
            Ok(v) => v,
            Err(e) => {
                proof {
                    assert(false);
                }
                return Err(e);
            },
        };
        self.authoritative_entries = match buffer.read_u16() {
            Ok(v) => v,
            Err(e) => {
                proof {
                    assert(false);
                }
                return Err(e);
            },
        };
        self.resource_entries = match buffer.read_u16() {
            Ok(v) => v,
            Err(e) => {
                proof {
                    assert(false);
                }
                return Err(e);
            },
        };
        proof {
            assert(*self == sp_parse_header(sub));
        }
        Ok(())
    }

    /// Encodes this header as its 12 wire bytes at the cursor, the exact
    /// inverse of `read`; the reserved bit is always written as zero.  A
    /// failure leaves the buffer unchanged.
    #[verifier::rlimit(60)]
    pub fn write(&self, buffer: &mut PacketBuffer) -> (r: Result<(), DnsError>)
        ensures
            final(buffer).len == old(buffer).len,
            old(buffer).pos + 12 <= 512 ==> r is Ok && final(buffer).buf@ == splice(
                old(buffer).buf@,
                old(buffer).pos as int,
                sp_header_bytes(*self),
            ) && final(buffer).pos == old(buffer).pos + 12,
            old(buffer).pos + 12 > 512 ==> r == Err::<(), DnsError>(DnsError::BufferBounds)
                && *final(buffer) == *old(buffer),
    {
        if buffer.pos > 500 {
            return Err(DnsError::BufferBounds);
        }
        let ghost buf0 = buffer.buf@;
        let ghost p0 = buffer.pos as int;
        let ghost w = sp_header_bytes(*self);
        if let Err(e) = buffer.write_u16(self.id) {
            proof {
                assert(false);
            }
            return Err(e);
        }
        proof {
            assert(buffer.buf@ =~= splice(buf0, p0, w.take(2)));
        }
        let hi = bit8(self.recursion_desired) | bit8(self.truncated_message) << 1 | bit8(
            self.authoritative_answer,
        ) << 2 | self.opcode.code() << 3 | bit8(self.response) << 7;
        if let Err(e) = buffer.write_u8(hi) {
            proof {
                assert(false);
            }
            return Err(e);
        }
        proof {
            assert(hi == flags_hi(*self));
            assert(buffer.buf@ =~= splice(buf0, p0, w.take(3)));
        }
        let lo = self.rescode.code() | bit8(self.checking_disabled) << 4 | bit8(self.authed_data)
            << 5 | bit8(self.recursion_available) << 7;
        if let Err(e) = buffer.write_u8(lo) {
            proof {
                assert(false);
            }
            return Err(e);
        }
        proof {
            assert(lo == flags_lo(*self));
            assert(buffer.buf@ =~= splice(buf0, p0, w.take(4)));
        }
        if let Err(e) = buffer.write_u16(self.questions) {
            proof {
                assert(false);
            }
            return Err(e);
        }
        proof {
            assert(buffer.buf@ =~= splice(buf0, p0, w.take(6)));
        }
        if let Err(e) = buffer.write_u16(self.answers) {
            proof {
                assert(false);
            }
            return Err(e);
        }
        proof {
            assert(buffer.buf@ =~= splice(buf0, p0, w.take(8)));
        }
        if let Err(e) = buffer.write_u16(self.authoritative_entries) {
            proof {
                assert(false);
            }
            return Err(e);
        }
        proof {
            assert(buffer.buf@ =~= splice(buf0, p0, w.take(10)));
        }
        if let Err(e) = buffer.write_u16(self.resource_entries) {
            proof {
                assert(false);
            }
            return Err(e);
        }
        proof {
            assert(w.take(12) =~= w);
            assert(buffer.buf@ =~= splice(buf0, p0, w));
        }
        Ok(())
    }
}

/// A flag bit as the byte 0 or 1.
fn bit8(b: bool) -> (r: u8)
    ensures
        r == bit(b),
{
    if b {
        1
    } else {
        0
    }
}

/// Round-trip: decoding an encoded header yields the header back, for
/// every header, since every field of valid range packs into its bits and
/// unpacks unharmed.
pub proof fn lemma_header_roundtrip(h: Header)
    ensures
        sp_parse_header(sp_header_bytes(h)) == h,
{
    let b = sp_header_bytes(h);
    let v = h.id;
    assert(((((v >> 8) as u8) as u16) << 8 | (((v & 0xFF) as u8) as u16)) as u16 == v)
        by (bit_vector);
    let q = h.questions;
    assert(((((q >> 8) as u8) as u16) << 8 | (((q & 0xFF) as u8) as u16)) as u16 == q)
        by (bit_vector);
    let an = h.answers;
    assert(((((an >> 8) as u8) as u16) << 8 | (((an & 0xFF) as u8) as u16)) as u16 == an)
        by (bit_vector);
    let au = h.authoritative_entries;
    assert(((((au >> 8) as u8) as u16) << 8 | (((au & 0xFF) as u8) as u16)) as u16 == au)
        by (bit_vector);
    let re = h.resource_entries;
    assert(((((re >> 8) as u8) as u16) << 8 | (((re & 0xFF) as u8) as u16)) as u16 == re)
        by (bit_vector);
    let rd = bit(h.recursion_desired);
    let tc = bit(h.truncated_message);
    let aa = bit(h.authoritative_answer);
    let op = opcode_code(h.opcode);
    let qr = bit(h.response);
    let a = flags_hi(h);
    assert(((a & 1) > 0) == (rd == 1) && ((a & 2) > 0) == (tc == 1) && ((a & 4) > 0) == (aa == 1)
        && ((a >> 3) & 0x0F) == op && ((a & 0x80) > 0) == (qr == 1)) by (bit_vector)
        requires
            a == (rd | tc << 1 | aa << 2 | op << 3 | qr << 7) as u8,
            rd <= 1,
            tc <= 1,
            aa <= 1,
            op <= 2,
            qr <= 1,
    ;
    let rc = rescode_code(h.rescode);
    let cd = bit(h.checking_disabled);
    let ad = bit(h.authed_data);
    let ra = bit(h.recursion_available);
    let c = flags_lo(h);
    assert((c & 0x0F) == rc && ((c & 0x10) > 0) == (cd == 1) && ((c & 0x20) > 0) == (ad == 1) && ((
    c & 0x80) > 0) == (ra == 1)) by (bit_vector)
        requires
            c == (rc | cd << 4 | ad << 5 | ra << 7) as u8,
            rc <= 3,
            cd <= 1,
            ad <= 1,
            ra <= 1,
    ;
    assert(opcode_of(op) == h.opcode);
    assert(rescode_of(rc) == h.rescode);
    assert(sp_parse_header(b) == h);
}

/// Re-encoding a parsed header reproduces its twelve bytes exactly,
/// provided the wire opcode and response code lie within the decoded
/// enumerations (larger codes fall back leniently and cannot survive a
/// round trip) and the reserved bit is clear, as every encode writes it.
pub proof fn lemma_header_reencode(b: Seq<u8>)
    requires
        b.len() == 12,
        ((b[2] >> 3) & 0x0F) <= 2,
        (b[3] & 0x0F) <= 3,
        (b[3] & 0x40) == 0,
    ensures
        sp_header_bytes(sp_parse_header(b)) == b,
{
    let h = sp_parse_header(b);
    crate::buffer::lemma_u16_bytes(b[0], b[1]);
    crate::buffer::lemma_u16_bytes(b[4], b[5]);
    crate::buffer::lemma_u16_bytes(b[6], b[7]);
    crate::buffer::lemma_u16_bytes(b[8], b[9]);
    crate::buffer::lemma_u16_bytes(b[10], b[11]);
    let a = b[2];
    let x = (a >> 3) & 0x0F;
    assert(opcode_code(opcode_of(x)) == x);
    assert((a & 1) == 0 || (a & 1) == 1) by (bit_vector);
    assert((a & 2) == 0 || (a & 2) == 2) by (bit_vector);
    assert((a & 4) == 0 || (a & 4) == 4) by (bit_vector);
    assert((a & 0x80) == 0 || (a & 0x80) == 0x80) by (bit_vector);
    assert(0u8 << 1 == 0 && 1u8 << 1 == 2) by (bit_vector);
    assert(0u8 << 2 == 0 && 1u8 << 2 == 4) by (bit_vector);
    assert(0u8 << 4 == 0 && 1u8 << 4 == 0x10) by (bit_vector);
    assert(0u8 << 5 == 0 && 1u8 << 5 == 0x20) by (bit_vector);
    assert(0u8 << 7 == 0 && 1u8 << 7 == 0x80) by (bit_vector);
    assert(bit(h.recursion_desired) == (a & 1));
    assert(bit(h.truncated_message) << 1 == (a & 2));
    assert(bit(h.authoritative_answer) << 2 == (a & 4));
    assert(bit(h.response) << 7 == (a & 0x80));
    assert(((a & 1) | (a & 2) | (a & 4) | (((a >> 3) & 0x0F) << 3) | (a & 0x80)) as u8 == a)
        by (bit_vector);
    assert(flags_hi(h) == a);
    let c = b[3];
    let y = c & 0x0F;
    assert(rescode_code(rescode_of(y)) == y);
    assert((c & 0x10) == 0 || (c & 0x10) == 0x10) by (bit_vector);
    assert((c & 0x20) == 0 || (c & 0x20) == 0x20) by (bit_vector);
    assert((c & 0x80) == 0 || (c & 0x80) == 0x80) by (bit_vector);
    assert(bit(h.checking_disabled) << 4 == (c & 0x10));
    assert(bit(h.authed_data) << 5 == (c & 0x20));
    assert(bit(h.recursion_available) << 7 == (c & 0x80));
    assert(((c & 0x0F) | (c & 0x10) | (c & 0x20) | (c & 0x80)) as u8 == c) by (bit_vector)
        requires
            (c & 0x40) == 0,
    ;
    assert(flags_lo(h) == c);
    assert(sp_header_bytes(h) =~= b);
}

} // verus!
