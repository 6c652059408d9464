use vstd::prelude::*;
use vstd::string::StringExecFns;
use vstd::string::StringSliceAdditionalSpecFns;
use vstd::utf8::encode_utf8;

use crate::buffer::PacketBuffer;
use crate::buffer::canonical_labels;
use crate::buffer::join_labels;
use crate::buffer::lemma_name_jumps_irrelevant;
use crate::buffer::lemma_name_reencode;
use crate::buffer::lemma_u16_bytes;
use crate::buffer::lemma_u32_bytes;
use crate::buffer::lemma_wire_labels_err;
use crate::buffer::lemma_wire_name_len;
use crate::buffer::name_fits;
use crate::buffer::sp_name;
use crate::buffer::sp_read_u16;
use crate::buffer::sp_read_u32;
use crate::buffer::sp_u16;
use crate::buffer::sp_u32;
use crate::buffer::sp_wire_name;
use crate::buffer::splice;
use crate::buffer::split_bytes;
use crate::buffer::u16_hi;
use crate::buffer::u16_lo;
use crate::buffer::u32_byte;
use crate::errors::DnsError;

verus! {

/// The number of compression-pointer jumps a name decode may follow, the
/// policy bound that guarantees termination on hostile input.
pub const MAX_JUMPS: u8 = 5;

/// A record type, keyed by its IANA wire code.  A code that is not
/// explicitly decoded is carried as `Unknown` with the raw code, never
/// reinterpreted as another type.
#[derive(Debug, Clone, Copy, PartialEq, Eq, Structural)]
pub enum RecordType {
    A,
    AAAA,
    Unknown(u16),
}

/// The record type a wire code decodes to.
pub open spec fn rtype_of(num: u16) -> RecordType {
    if num == 1 {
        RecordType::A
    } else if num == 28 {
        RecordType::AAAA
    } else {
        RecordType::Unknown(num)
    }
}

/// The wire code a record type encodes to.
pub open spec fn rtype_code(t: RecordType) -> u16 {
    match t {
        RecordType::A => 1,
        RecordType::AAAA => 28,
        RecordType::Unknown(n) => n,
    }
}

impl RecordType {
    /// Decodes a record type from its wire code.
    pub fn read(num: u16) -> (r: RecordType)
        ensures
            r == rtype_of(num),
    {
        if num == 1 {
            RecordType::A
        } else if num == 28 {
            RecordType::AAAA
        } else {
            RecordType::Unknown(num)
        }
    }

    /// The wire code this record type encodes to.
    pub fn code(self) -> (c: u16)
        ensures
            c == rtype_code(self),
    {
        match self {
            RecordType::A => 1,
            RecordType::AAAA => 28,
            RecordType::Unknown(n) => n,
        }
    }
}

/// An IPv4 address as its four network-order octets.
#[derive(Debug, Clone, Copy, PartialEq, Eq)]
pub struct Ipv4Address {
    pub octets: [u8; 4],
}

/// An IPv6 address as its sixteen network-order octets.
#[derive(Debug, Clone, Copy, PartialEq, Eq)]
pub struct Ipv6Address {
    pub octets: [u8; 16],
}

/// One question: a domain name and the record type asked for.  The class
/// is read from the wire but discarded, as only the Internet class is
/// spoken.
#[derive(Debug)]
pub struct Question {
    pub name: String,
    pub record: RecordType,
}

/// The mathematical value of a question.
pub struct QuestionModel {
    pub name: Seq<char>,
    pub record: RecordType,
}

impl View for Question {
    type V = QuestionModel;

    open spec fn view(&self) -> QuestionModel {
        QuestionModel { name: self.name@, record: self.record }
    }
}

/// One resource record: name, type-specific payload and time to live.
/// A type that is not explicitly decoded keeps its raw code and payload
/// bytes in `Unknown`.
#[allow(inconsistent_fields)]
#[derive(Debug)]
pub enum Record {
    A { domain: String, addr: Ipv4Address, ttl: u32 },
    AAAA { domain: String, addr: Ipv6Address, ttl: u32 },
    Unknown { domain: String, rtype: u16, ttl: u32, data: Vec<u8> },
}

/// The mathematical value of a resource record.
pub enum RecordModel {
    A { domain: Seq<char>, addr: Seq<u8>, ttl: u32 },
    AAAA { domain: Seq<char>, addr: Seq<u8>, ttl: u32 },
    Unknown { domain: Seq<char>, rtype: u16, ttl: u32, data: Seq<u8> },
}

impl View for Record {
    type V = RecordModel;

    open spec fn view(&self) -> RecordModel {
        match self {
            Record::A { domain, addr, ttl } => RecordModel::A {
                domain: domain@,
                addr: addr.octets@,
                ttl: *ttl,
            },
            Record::AAAA { domain, addr, ttl } => RecordModel::AAAA {
                domain: domain@,
                addr: addr.octets@,
                ttl: *ttl,
            },
            Record::Unknown { domain, rtype, ttl, data } => RecordModel::Unknown {
                domain: domain@,
                rtype: *rtype,
                ttl: *ttl,
                data: data@,
            },
        }
    }
}

/// What decoding one question at `pos` yields: its model and the position
/// after it.  The class code is read and discarded.
pub open spec fn sp_question(buf: Seq<u8>, pos: int) -> Result<(QuestionModel, int), DnsError> {
    match sp_name(buf, pos, MAX_JUMPS as int, None) {
        Err(e) => Err(e),
        Ok(n) => match sp_read_u16(buf, n.1) {
            Err(e) => Err(e),
            Ok(t) => match sp_read_u16(buf, t.1) {
                Err(e) => Err(e),
                Ok(c) => Ok(
                    (QuestionModel { name: join_labels(n.0), record: rtype_of(t.0) }, c.1),
                ),
            },
        },
    }
}

/// What the type-specific payload at `pos` yields: an A record reads four
/// address bytes, an AAAA record sixteen, and any other type keeps exactly
/// `dlen` raw bytes.
pub open spec fn sp_rdata(
    buf: Seq<u8>,
    pos: int,
    t: u16,
    dlen: u16,
    domain: Seq<char>,
    ttl: u32,
) -> Result<(RecordModel, int), DnsError> {
    if t == 1 {
        match sp_read_u32(buf, pos) {
            Err(e) => Err(e),
            Ok(a) => Ok(
                (
                    RecordModel::A {
                        domain: domain,
                        addr: buf.subrange(pos, pos + 4),
                        ttl: ttl,
                    },
                    a.1,
                ),
            ),
        }
    } else if t == 28 {
        if 0 <= pos && pos + 16 <= buf.len() {
            Ok(
                (
                    RecordModel::AAAA {
                        domain: domain,
                        addr: buf.subrange(pos, pos + 16),
                        ttl: ttl,
                    },
                    pos + 16,
                ),
            )
        } else {
            Err(DnsError::BufferBounds)
        }
    } else {
        if 0 <= pos && pos + dlen <= buf.len() {
            Ok(
                (
                    RecordModel::Unknown {
                        domain: domain,
                        rtype: t,
                        ttl: ttl,
                        data: buf.subrange(pos, pos + dlen),
                    },
                    pos + dlen,
                ),
            )
        } else {
            Err(DnsError::BufferBounds)
        }
    }
}

/// What decoding one resource record at `pos` yields: name, type code,
/// class (discarded), time to live, payload length, then the payload.
pub open spec fn sp_record(buf: Seq<u8>, pos: int) -> Result<(RecordModel, int), DnsError> {
    match sp_name(buf, pos, MAX_JUMPS as int, None) {
        Err(e) => Err(e),
        Ok(n) => match sp_read_u16(buf, n.1) {
            Err(e) => Err(e),
            Ok(t) => match sp_read_u16(buf, t.1) {
                Err(e) => Err(e),
                Ok(c) => match sp_read_u32(buf, c.1) {
                    Err(e) => Err(e),
                    Ok(ttl) => match sp_read_u16(buf, ttl.1) {
                        Err(e) => Err(e),
                        Ok(dl) => sp_rdata(buf, dl.1, t.0, dl.0, join_labels(n.0), ttl.0),
                    },
                },
            },
        },
    }
}

impl Question {
    /// A question for the given name and record type.
    pub fn new(name: String, record: RecordType) -> (q: Question)
        ensures
            q.name@ == name@,
            q.record == record,
    {
        Question { name, record }
    }

    /// Decodes one question at the cursor, appending its name to
    /// `self.name`.  A failure leaves buffer and question unchanged.
    pub fn read(&mut self, buffer: &mut PacketBuffer) -> (r: Result<(), DnsError>)
        ensures
            final(buffer).buf@ == old(buffer).buf@,
            final(buffer).len == old(buffer).len,
            match sp_question(old(buffer).data(), old(buffer).pos as int) {
                Ok(q) => r is Ok && final(buffer).pos == q.1
                    && final(self).name@ == old(self).name@ + q.0.name
                    && final(self).record == q.0.record,
                Err(e) => r == Err::<(), DnsError>(e) && final(buffer).pos == old(buffer).pos
                    && *final(self) == *old(self),
            },
    {
        let pos0 = buffer.pos;
        let mut nm = String::new();
        if let Err(e) = buffer.read_name(&mut nm, MAX_JUMPS) {
            return Err(e);
        }
        let t = match buffer.read_u16() {
            Ok(v) => v,
            Err(e) => {
                buffer.pos = pos0;
                return Err(e);
            },
        };
        match buffer.read_u16() {
            Ok(_) => (),
            Err(e) => {
                buffer.pos = pos0;
                return Err(e);
            },
        };
        self.name.append(nm.as_str());
        self.record = RecordType::read(t);
        Ok(())
    }
}

impl Record {
    /// Decodes one resource record at the cursor.  A failure leaves the
    /// buffer unchanged.
    #[verifier::loop_isolation(false)]
    pub fn read(buffer: &mut PacketBuffer) -> (r: Result<Record, DnsError>)
        ensures
            final(buffer).buf@ == old(buffer).buf@,
            final(buffer).len == old(buffer).len,
            match sp_record(old(buffer).data(), old(buffer).pos as int) {
                Ok(p) => (r matches Ok(rec) && rec@ == p.0 && final(buffer).pos == p.1),
                Err(e) => (r matches Err(e2) && e2 == e && final(buffer).pos == old(
                    buffer,
                ).pos),
            },
    {
        let pos0 = buffer.pos;
        let mut domain = String::new();
        if let Err(e) = buffer.read_name(&mut domain, MAX_JUMPS) {
            return Err(e);
        }
        let qtype_num = match buffer.read_u16() {
            Ok(v) => v,
            Err(e) => {
                buffer.pos = pos0;
                return Err(e);
            },
        };
        match buffer.read_u16() {
            Ok(_) => (),
            Err(e) => {
                buffer.pos = pos0;
                return Err(e);
            },
        };
        let ttl = match buffer.read_u32() {
            Ok(v) => v,
            Err(e) => {
                buffer.pos = pos0;
                return Err(e);
            },
        };
        let data_len = match buffer.read_u16() {
            Ok(v) => v,
            Err(e) => {
                buffer.pos = pos0;
                return Err(e);
            },
        };
        if qtype_num == 1 {
            let ghost p5 = buffer.pos as int;
            let raw_addr = match buffer.read_u32() {
                Ok(v) => v,
                Err(e) => {
                    buffer.pos = pos0;
                    return Err(e);
                },
            };
            let addr = Ipv4Address {
                octets: [
                    ((raw_addr >> 24) & 0xFF) as u8,
                    ((raw_addr >> 16) & 0xFF) as u8,
                    ((raw_addr >> 8) & 0xFF) as u8,
                    (raw_addr & 0xFF) as u8,
                ],
            };
            proof {
                let b0 = buffer.data()[p5];
                let b1 = buffer.data()[p5 + 1];
                let b2 = buffer.data()[p5 + 2];
                let b3 = buffer.data()[p5 + 3];
                assert(raw_addr == sp_u32(b0, b1, b2, b3));
                assert(((raw_addr >> 24) & 0xFF) as u8 == b0 && ((raw_addr >> 16) & 0xFF) as u8
                    == b1 && ((raw_addr >> 8) & 0xFF) as u8 == b2 && (raw_addr & 0xFF) as u8 == b3)
                    by (bit_vector)
                    requires
                        raw_addr == ((b0 as u32) << 24 | (b1 as u32) << 16 | (b2 as u32) << 8 | (
                        b3 as u32)) as u32,
                ;
                assert(addr.octets@ =~= buffer.data().subrange(p5, p5 + 4));
            }
            Ok(Record::A { domain, addr, ttl })
        } else if qtype_num == 28 {
            let lim = buffer.limit();
            if lim < 16 || buffer.pos > lim - 16 {
                buffer.pos = pos0;
                return Err(DnsError::BufferBounds);
            }
            let p5 = buffer.pos;
            let mut o: [u8; 16] = [0;16];
            let mut i: usize = 0;
            while i < 16
                invariant
                    i <= 16,
                    p5 + 16 <= buffer.spec_limit(),
                    forall|k: int| 0 <= k < i ==> o@[k] == buffer.data()[p5 + k],
                decreases 16 - i,
            {
                o[i] = buffer.buf[p5 + i];
                proof {
                    assert(buffer.buf@[p5 + i] == buffer.data()[p5 + i]);
                }
                i = i + 1;
            }
            proof {
                assert(o@ =~= buffer.data().subrange(p5 as int, p5 + 16));
            }
            if let Err(e) = buffer.step(16) {
                proof {
                    assert(false);
                }
                return Err(e);
            }
            Ok(Record::AAAA { domain, addr: Ipv6Address { octets: o }, ttl })
        } else {
            let lim = buffer.limit();
            if (data_len as usize) > lim || buffer.pos > lim - (data_len as usize) {
                buffer.pos = pos0;
                return Err(DnsError::BufferBounds);
            }
            let p5 = buffer.pos;
            let mut data: Vec<u8> = Vec::new();
            let mut i: usize = 0;
            while i < data_len as usize
                invariant
                    i <= data_len as usize,
                    p5 + data_len <= buffer.spec_limit(),
                    data@ == buffer.data().subrange(p5 as int, p5 + i),
                decreases data_len as usize - i,
            {
                data.push(buffer.buf[p5 + i]);
                proof {
                    assert(buffer.buf@[p5 + i] == buffer.data()[p5 + i]);
                    assert(data@ =~= buffer.data().subrange(p5 as int, p5 + i + 1));
                }
                i = i + 1;
            }
            if let Err(e) = buffer.step(data_len as usize) {
                proof {
                    assert(false);
                }
                return Err(e);
            }
            Ok(Record::Unknown { domain, rtype: qtype_num, ttl, data })
        }
    }
}

/// The bytes one question encodes to: its name uncompressed, the type
/// code, and the Internet class.
pub open spec fn sp_encode_question(q: QuestionModel) -> Result<Seq<u8>, DnsError> {
    match sp_wire_name(encode_utf8(q.name)) {
        Err(e) => Err(e),
        Ok(wn) => Ok(
            wn + seq![
                u16_hi(rtype_code(q.record)),
                u16_lo(rtype_code(q.record)),
                0u8,
                1u8,
            ],
        ),
    }
}

/// The bytes one resource record encodes to: name, type code, the Internet
/// class, time to live, payload length, then the payload.
pub open spec fn sp_encode_record(rm: RecordModel) -> Result<Seq<u8>, DnsError> {
    match rm {
        RecordModel::A { domain, addr, ttl } => match sp_wire_name(encode_utf8(domain)) {
            Err(e) => Err(e),
            Ok(wn) => Ok(
                wn + seq![
                    0u8,
                    1u8,
                    0u8,
                    1u8,
                    u32_byte(ttl, 0),
                    u32_byte(ttl, 1),
                    u32_byte(ttl, 2),
                    u32_byte(ttl, 3),
                    0u8,
                    4u8,
                ] + addr,
            ),
        },
        RecordModel::AAAA { domain, addr, ttl } => match sp_wire_name(encode_utf8(domain)) {
            Err(e) => Err(e),
            Ok(wn) => Ok(
                wn + seq![
                    0u8,
                    28u8,
                    0u8,
                    1u8,
                    u32_byte(ttl, 0),
                    u32_byte(ttl, 1),
                    u32_byte(ttl, 2),
                    u32_byte(ttl, 3),
                    0u8,
                    16u8,
                ] + addr,
            ),
        },
        RecordModel::Unknown { domain, rtype, ttl, data } => match sp_wire_name(
            encode_utf8(domain),
        ) {
            Err(e) => Err(e),
            Ok(wn) => Ok(
                wn + seq![
                    u16_hi(rtype),
                    u16_lo(rtype),
                    0u8,
                    1u8,
                    u32_byte(ttl, 0),
                    u32_byte(ttl, 1),
                    u32_byte(ttl, 2),
                    u32_byte(ttl, 3),
                    u16_hi(data.len() as u16),
                    u16_lo(data.len() as u16),
                ] + data,
            ),
        },
    }
}

impl Question {
    /// Encodes this question at the cursor: the name uncompressed, then
    /// the type code and the Internet class.  A label longer than 63 bytes
    /// or a question the buffer cannot hold is rejected before anything is
    /// written.
    pub fn write(&self, buffer: &mut PacketBuffer) -> (r: Result<(), DnsError>)
        ensures
            final(buffer).len == old(buffer).len,
            match sp_encode_question(self@) {
                Ok(w) => (if old(buffer).pos + w.len() <= 512 {
                    r is Ok && final(buffer).buf@ == splice(
                        old(buffer).buf@,
                        old(buffer).pos as int,
                        w,
                    ) && final(buffer).pos == old(buffer).pos + w.len()
                } else {
                    r == Err::<(), DnsError>(DnsError::BufferBounds) && *final(buffer) == *old(
                        buffer,
                    )
                }),
                Err(e) => r == Err::<(), DnsError>(e) && *final(buffer) == *old(buffer),
            },
    {
        let nm = self.name.as_str();
        if !name_fits(nm) {
            proof {
                lemma_wire_labels_err(split_bytes(nm.spec_bytes()));
            }
            return Err(DnsError::LabelTooLong);
        }
        proof {
            lemma_wire_name_len(nm.spec_bytes());
        }
        let nlen = nm.as_bytes_vec().len();
        if nlen > 506 || buffer.pos > 506 - nlen {
            return Err(DnsError::BufferBounds);
        }
        let ghost w = sp_encode_question(self@)->Ok_0;
        let ghost buf0 = buffer.buf@;
        let ghost p0 = buffer.pos as int;
        let ghost wn = sp_wire_name(nm.spec_bytes())->Ok_0;
        if let Err(e) = buffer.write_name(nm) {
            proof {
                assert(false);
            }
            return Err(e);
        }
        proof {
            assert(w.take(wn.len() as int) =~= wn);
            assert(buffer.buf@ =~= splice(buf0, p0, w.take(wn.len() as int)));
        }
        let code = self.record.code();
        if let Err(e) = buffer.write_u16(code) {
            proof {
                assert(false);
            }
            return Err(e);
        }
        proof {
            assert(w.take(wn.len() + 2 as int) =~= wn + seq![u16_hi(code), u16_lo(code)]);
            assert(buffer.buf@ =~= splice(buf0, p0, w.take(wn.len() + 2 as int)));
        }
        if let Err(e) = buffer.write_u16(1) {
            proof {
                assert(false);
            }
            return Err(e);
        }
        proof {
            assert(u16_hi(1u16) == 0u8 && u16_lo(1u16) == 1u8) by (bit_vector);
            assert(w.take(wn.len() + 4 as int) =~= w);
            assert(buffer.buf@ =~= splice(buf0, p0, w));
        }
        Ok(())
    }
}

/// Encodes an A record; the helper behind `Record::write`.
#[verifier::loop_isolation(false)]
#[verifier::rlimit(90)]
fn write_record_a(domain: &String, addr: &Ipv4Address, ttl: u32, buffer: &mut PacketBuffer) -> (r: Result<(), DnsError>)
    ensures
        final(buffer).len == old(buffer).len,
        match sp_encode_record(RecordModel::A { domain: domain@, addr: addr.octets@, ttl: ttl }) {
            Ok(w) => (if old(buffer).pos + w.len() <= 512 {
                r is Ok && final(buffer).buf@ == splice(
                    old(buffer).buf@,
                    old(buffer).pos as int,
                    w,
                ) && final(buffer).pos == old(buffer).pos + w.len()
            } else {
                r == Err::<(), DnsError>(DnsError::BufferBounds) && *final(buffer) == *old(
                    buffer,
                )
            }),
            Err(e) => r == Err::<(), DnsError>(e) && *final(buffer) == *old(buffer),
        },
{
    let nm = domain.as_str();
    if !name_fits(nm) {
        proof {
            lemma_wire_labels_err(split_bytes(nm.spec_bytes()));
        }
        return Err(DnsError::LabelTooLong);
    }
    proof {
        lemma_wire_name_len(nm.spec_bytes());
    }
    let nlen = nm.as_bytes_vec().len();
    if nlen > 496 || buffer.pos > 496 - nlen {
        return Err(DnsError::BufferBounds);
    }
    let ghost w = sp_encode_record(RecordModel::A { domain: domain@, addr: addr.octets@, ttl: ttl })->Ok_0;
    let ghost buf0 = buffer.buf@;
    let ghost p0 = buffer.pos as int;
    let ghost wn = sp_wire_name(nm.spec_bytes())->Ok_0;
    if let Err(e) = buffer.write_name(nm) {
        proof {
            assert(false);
        }
        return Err(e);
    }
    proof {
        assert(w.take(wn.len() as int) =~= wn);
        assert(buffer.buf@ =~= splice(buf0, p0, w.take(wn.len() as int)));
        assert(u16_hi(1u16) == 0u8 && u16_lo(1u16) == 1u8) by (bit_vector);
        assert(u16_hi(4u16) == 0u8 && u16_lo(4u16) == 4u8) by (bit_vector);
    }
    if let Err(e) = buffer.write_u16(1) {
        proof {
            assert(false);
        }
        return Err(e);
    }
    proof {
        assert(w.take(wn.len() + 2 as int) =~= wn + seq![0u8, 1u8]);
        assert(buffer.buf@ =~= splice(buf0, p0, w.take(wn.len() + 2 as int)));
    }
    if let Err(e) = buffer.write_u16(1) {
        proof {
            assert(false);
        }
        return Err(e);
    }
    proof {
        assert(w.take(wn.len() + 4 as int) =~= wn + seq![0u8, 1u8, 0u8, 1u8]);
        assert(buffer.buf@ =~= splice(buf0, p0, w.take(wn.len() + 4 as int)));
    }
    if let Err(e) = buffer.write_u32(ttl) {
        proof {
            assert(false);
        }
        return Err(e);
    }
    proof {
        assert(w.take(wn.len() + 8 as int) =~= wn + seq![
            0u8,
            1u8,
            0u8,
            1u8,
            u32_byte(ttl, 0),
            u32_byte(ttl, 1),
            u32_byte(ttl, 2),
            u32_byte(ttl, 3),
        ]);
        assert(buffer.buf@ =~= splice(buf0, p0, w.take(wn.len() + 8 as int)));
    }
    if let Err(e) = buffer.write_u16(4) {
        proof {
            assert(false);
        }
        return Err(e);
    }
    proof {
        assert(buffer.buf@ =~= splice(buf0, p0, w.take(wn.len() + 10 as int)));
    }
    let o = addr.octets;
    let ghost base = wn.len() + 10 as int;
    let mut i: usize = 0;
    while i < 4
        invariant
            buffer.len == old(buffer).len,
            i <= 4,
            buffer.pos == p0 + base + i,
            buffer.buf@ == splice(buf0, p0, w.take(base + i)),
        decreases 4 - i,
    {
        proof {
            assert(w[base + i] == o@[i as int]);
        }
        if let Err(e) = buffer.write(o[i]) {
            proof {
                assert(false);
            }
            return Err(e);
        }
        proof {
            assert(w.take(base + i + 1) =~= w.take(base + i).push(w[base + i]));
            assert(buffer.buf@ =~= splice(buf0, p0, w.take(base + i + 1)));
        }
        i = i + 1;
    }
    proof {
        assert(w.take(base + 4) =~= w);
        assert(buffer.buf@ =~= splice(buf0, p0, w));
    }
    Ok(())
}

/// Encodes an AAAA record; the helper behind `Record::write`.
#[verifier::loop_isolation(false)]
#[verifier::rlimit(90)]
fn write_record_aaaa(domain: &String, addr: &Ipv6Address, ttl: u32, buffer: &mut PacketBuffer) -> (r: Result<(), DnsError>)
    ensures
        final(buffer).len == old(buffer).len,
        match sp_encode_record(RecordModel::AAAA { domain: domain@, addr: addr.octets@, ttl: ttl }) {
            Ok(w) => (if old(buffer).pos + w.len() <= 512 {
                r is Ok && final(buffer).buf@ == splice(
                    old(buffer).buf@,
                    old(buffer).pos as int,
                    w,
                ) && final(buffer).pos == old(buffer).pos + w.len()
            } else {
                r == Err::<(), DnsError>(DnsError::BufferBounds) && *final(buffer) == *old(
                    buffer,
                )
            }),
            Err(e) => r == Err::<(), DnsError>(e) && *final(buffer) == *old(buffer),
        },
{
    let nm = domain.as_str();
    if !name_fits(nm) {
        proof {
            lemma_wire_labels_err(split_bytes(nm.spec_bytes()));
        }
        return Err(DnsError::LabelTooLong);
    }
    proof {
        lemma_wire_name_len(nm.spec_bytes());
    }
    let nlen = nm.as_bytes_vec().len();
    if nlen > 484 || buffer.pos > 484 - nlen {
        return Err(DnsError::BufferBounds);
    }
    let ghost w = sp_encode_record(RecordModel::AAAA { domain: domain@, addr: addr.octets@, ttl: ttl })->Ok_0;
    let ghost buf0 = buffer.buf@;
    let ghost p0 = buffer.pos as int;
    let ghost wn = sp_wire_name(nm.spec_bytes())->Ok_0;
    if let Err(e) = buffer.write_name(nm) {
        proof {
            assert(false);
        }
        return Err(e);
    }
    proof {
        assert(w.take(wn.len() as int) =~= wn);
        assert(buffer.buf@ =~= splice(buf0, p0, w.take(wn.len() as int)));
        assert(u16_hi(1u16) == 0u8 && u16_lo(1u16) == 1u8) by (bit_vector);
        assert(u16_hi(28u16) == 0u8 && u16_lo(28u16) == 28u8) by (bit_vector);
        assert(u16_hi(16u16) == 0u8 && u16_lo(16u16) == 16u8) by (bit_vector);
    }
    if let Err(e) = buffer.write_u16(28) {
        proof {
            assert(false);
        }
        return Err(e);
    }
    proof {
        assert(w.take(wn.len() + 2 as int) =~= wn + seq![0u8, 28u8]);
        assert(buffer.buf@ =~= splice(buf0, p0, w.take(wn.len() + 2 as int)));
    }
    if let Err(e) = buffer.write_u16(1) {
        proof {
            assert(false);
        }
        return Err(e);
    }
    proof {
        assert(w.take(wn.len() + 4 as int) =~= wn + seq![0u8, 28u8, 0u8, 1u8]);
        assert(buffer.buf@ =~= splice(buf0, p0, w.take(wn.len() + 4 as int)));
    }
    if let Err(e) = buffer.write_u32(ttl) {
        proof {
            assert(false);
        }
        return Err(e);
    }
    proof {
        assert(w.take(wn.len() + 8 as int) =~= wn + seq![
            0u8,
            28u8,
            0u8,
            1u8,
            u32_byte(ttl, 0),
            u32_byte(ttl, 1),
            u32_byte(ttl, 2),
            u32_byte(ttl, 3),
        ]);
        assert(buffer.buf@ =~= splice(buf0, p0, w.take(wn.len() + 8 as int)));
    }
    if let Err(e) = buffer.write_u16(16) {
        proof {
            assert(false);
        }
        return Err(e);
    }
    proof {
        assert(buffer.buf@ =~= splice(buf0, p0, w.take(wn.len() + 10 as int)));
    }
    let o = addr.octets;
    let ghost base = wn.len() + 10 as int;
    let mut i: usize = 0;
    while i < 16
        invariant
            buffer.len == old(buffer).len,
            i <= 16,
            buffer.pos == p0 + base + i,
            buffer.buf@ == splice(buf0, p0, w.take(base + i)),
        decreases 16 - i,
    {
        proof {
            assert(w[base + i] == o@[i as int]);
        }
        if let Err(e) = buffer.write(o[i]) {
            proof {
                assert(false);
            }
            return Err(e);
        }
        proof {
            assert(w.take(base + i + 1) =~= w.take(base + i).push(w[base + i]));
            assert(buffer.buf@ =~= splice(buf0, p0, w.take(base + i + 1)));
        }
        i = i + 1;
    }
    proof {
        assert(w.take(base + 16) =~= w);
        assert(buffer.buf@ =~= splice(buf0, p0, w));
    }
    Ok(())
}

/// Encodes an unknown-type record; the helper behind `Record::write`.
#[verifier::loop_isolation(false)]
#[verifier::rlimit(90)]
fn write_record_unknown(domain: &String, rtype: u16, ttl: u32, data: &Vec<u8>, buffer: &mut PacketBuffer) -> (r: Result<(), DnsError>)
    ensures
        final(buffer).len == old(buffer).len,
        match sp_encode_record(RecordModel::Unknown { domain: domain@, rtype: rtype, ttl: ttl, data: data@ }) {
            Ok(w) => (if old(buffer).pos + w.len() <= 512 {
                r is Ok && final(buffer).buf@ == splice(
                    old(buffer).buf@,
                    old(buffer).pos as int,
                    w,
                ) && final(buffer).pos == old(buffer).pos + w.len()
            } else {
                r == Err::<(), DnsError>(DnsError::BufferBounds) && *final(buffer) == *old(
                    buffer,
                )
            }),
            Err(e) => r == Err::<(), DnsError>(e) && *final(buffer) == *old(buffer),
        },
{
    let nm = domain.as_str();
    if !name_fits(nm) {
        proof {
            lemma_wire_labels_err(split_bytes(nm.spec_bytes()));
        }
        return Err(DnsError::LabelTooLong);
    }
    proof {
        lemma_wire_name_len(nm.spec_bytes());
    }
    let nlen = nm.as_bytes_vec().len();
    let dlen = data.len();
    if dlen > 500 {
        return Err(DnsError::BufferBounds);
    }
    if nlen > 500 - dlen || buffer.pos > 500 - dlen - nlen {
        return Err(DnsError::BufferBounds);
    }
    let ghost w = sp_encode_record(RecordModel::Unknown { domain: domain@, rtype: rtype, ttl: ttl, data: data@ })->Ok_0;
    let ghost buf0 = buffer.buf@;
    let ghost p0 = buffer.pos as int;
    let ghost wn = sp_wire_name(nm.spec_bytes())->Ok_0;
    if let Err(e) = buffer.write_name(nm) {
        proof {
            assert(false);
        }
        return Err(e);
    }
    proof {
        assert(w.take(wn.len() as int) =~= wn);
        assert(buffer.buf@ =~= splice(buf0, p0, w.take(wn.len() as int)));
        assert(u16_hi(1u16) == 0u8 && u16_lo(1u16) == 1u8) by (bit_vector);
    }
    if let Err(e) = buffer.write_u16(rtype) {
        proof {
            assert(false);
        }
        return Err(e);
    }
    proof {
        assert(w.take(wn.len() + 2 as int) =~= wn + seq![u16_hi(rtype), u16_lo(rtype)]);
        assert(buffer.buf@ =~= splice(buf0, p0, w.take(wn.len() + 2 as int)));
    }
    if let Err(e) = buffer.write_u16(1) {
        proof {
            assert(false);
        }
        return Err(e);
    }
    proof {
        assert(w.take(wn.len() + 4 as int) =~= wn + seq![
            u16_hi(rtype),
            u16_lo(rtype),
            0u8,
            1u8,
        ]);
        assert(buffer.buf@ =~= splice(buf0, p0, w.take(wn.len() + 4 as int)));
    }
    if let Err(e) = buffer.write_u32(ttl) {
        proof {
            assert(false);
        }
        return Err(e);
    }
    proof {
        assert(w.take(wn.len() + 8 as int) =~= wn + seq![
            u16_hi(rtype),
            u16_lo(rtype),
            0u8,
            1u8,
            u32_byte(ttl, 0),
            u32_byte(ttl, 1),
            u32_byte(ttl, 2),
            u32_byte(ttl, 3),
        ]);
        assert(buffer.buf@ =~= splice(buf0, p0, w.take(wn.len() + 8 as int)));
    }
    let dl = dlen as u16;
    if let Err(e) = buffer.write_u16(dl) {
        proof {
            assert(false);
        }
        return Err(e);
    }
    proof {
        assert(buffer.buf@ =~= splice(buf0, p0, w.take(wn.len() + 10 as int)));
    }
    let ghost base = wn.len() + 10 as int;
    let mut i: usize = 0;
    while i < dlen
        invariant
            buffer.len == old(buffer).len,
            i <= dlen,
            buffer.pos == p0 + base + i,
            buffer.buf@ == splice(buf0, p0, w.take(base + i)),
        decreases dlen - i,
    {
        proof {
            assert(w[base + i] == data@[i as int]);
        }
        if let Err(e) = buffer.write(data[i]) {
            proof {
                assert(false);
            }
            return Err(e);
        }
        proof {
            assert(w.take(base + i + 1) =~= w.take(base + i).push(w[base + i]));
            assert(buffer.buf@ =~= splice(buf0, p0, w.take(base + i + 1)));
        }
        i = i + 1;
    }
    proof {
        assert(w.take(base + dlen) =~= w);
        assert(buffer.buf@ =~= splice(buf0, p0, w));
    }
    Ok(())
}

impl Record {
    /// Encodes this record at the cursor: name uncompressed, type code,
    /// the Internet class, time to live, payload length, then the payload.
    /// A label longer than 63 bytes or a record the buffer cannot hold is
    /// rejected before anything is written.
    pub fn write(&self, buffer: &mut PacketBuffer) -> (r: Result<(), DnsError>)
        ensures
            final(buffer).len == old(buffer).len,
            match sp_encode_record(self@) {
                Ok(w) => (if old(buffer).pos + w.len() <= 512 {
                    r is Ok && final(buffer).buf@ == splice(
                        old(buffer).buf@,
                        old(buffer).pos as int,
                        w,
                    ) && final(buffer).pos == old(buffer).pos + w.len()
                } else {
                    r == Err::<(), DnsError>(DnsError::BufferBounds) && *final(buffer) == *old(
                        buffer,
                    )
                }),
                Err(e) => r == Err::<(), DnsError>(e) && *final(buffer) == *old(buffer),
            },
    {
        match self {
            Record::A { domain, addr, ttl } => write_record_a(domain, addr, *ttl, buffer),
            Record::AAAA { domain, addr, ttl } => write_record_aaaa(domain, addr, *ttl, buffer),
            Record::Unknown { domain, rtype, ttl, data } => write_record_unknown(
                domain,
                *rtype,
                *ttl,
                data,
                buffer,
            ),
        }
    }
}

/// A question decode fails only by running out of bytes or by the
/// pointer-jump bound.
pub proof fn lemma_question_err_kinds(buf: Seq<u8>, pos: int)
    ensures
        sp_question(buf, pos) is Ok || sp_question(buf, pos) == Err::<(QuestionModel, int),
            DnsError,
        >(DnsError::BufferBounds) || sp_question(buf, pos) == Err::<(QuestionModel, int), DnsError>(
            DnsError::NameDecodeLoop,
        ),
{
    crate::buffer::lemma_name_err_kinds(buf, pos, MAX_JUMPS as int, None);
}

/// A record decode fails only by running out of bytes or by the
/// pointer-jump bound.
pub proof fn lemma_record_err_kinds(buf: Seq<u8>, pos: int)
    ensures
        sp_record(buf, pos) is Ok || sp_record(buf, pos) == Err::<(RecordModel, int), DnsError>(
            DnsError::BufferBounds,
        ) || sp_record(buf, pos) == Err::<(RecordModel, int), DnsError>(DnsError::NameDecodeLoop),
{
    crate::buffer::lemma_name_err_kinds(buf, pos, MAX_JUMPS as int, None);
}

/// The conditions under which one parsed question re-encodes to its own
/// bytes: its name uses no compression pointer and is canonical, and its
/// class is the Internet class, the one value the encoder emits.
pub open spec fn plain_question(buf: Seq<u8>, pos: int) -> bool {
    &&& sp_name(buf, pos, 0, None) is Ok
    &&& canonical_labels(sp_name(buf, pos, 0, None)->Ok_0.0)
    &&& ({
        let n = sp_name(buf, pos, 0, None)->Ok_0;
        &&& sp_read_u16(buf, n.1) is Ok
        &&& sp_read_u16(buf, n.1 + 2) == Ok::<(u16, int), DnsError>((1u16, n.1 + 4))
    })
}

/// A plain, canonical, Internet-class question re-encodes to exactly the
/// bytes it was parsed from.
pub proof fn lemma_question_reencode(buf: Seq<u8>, pos: int)
    requires
        plain_question(buf, pos),
    ensures
        sp_question(buf, pos) is Ok,
        ({
            let q = sp_question(buf, pos)->Ok_0;
            sp_encode_question(q.0) == Ok::<Seq<u8>, DnsError>(buf.subrange(pos, q.1)) && pos < q.1
                <= buf.len()
        }),
{
    lemma_name_jumps_irrelevant(buf, pos, MAX_JUMPS as int, None);
    lemma_name_reencode(buf, pos);
    let n = sp_name(buf, pos, 0, None)->Ok_0;
    let t = sp_read_u16(buf, n.1)->Ok_0;
    lemma_u16_bytes(buf[n.1], buf[n.1 + 1]);
    lemma_u16_bytes(buf[n.1 + 2], buf[n.1 + 3]);
    assert(rtype_code(rtype_of(t.0)) == t.0);
    assert(sp_u16(buf[n.1 + 2], buf[n.1 + 3]) == 1);
    assert(u16_hi(1u16) == 0u8 && u16_lo(1u16) == 1u8) by (bit_vector);
    let q = sp_question(buf, pos)->Ok_0;
    let wn = sp_wire_name(encode_utf8(join_labels(n.0)))->Ok_0;
    assert(buf.subrange(pos, q.1) =~= wn + seq![
        buf[n.1],
        buf[n.1 + 1],
        buf[n.1 + 2],
        buf[n.1 + 3],
    ]);
}

/// The conditions under which one parsed resource record re-encodes to its
/// own bytes: a plain canonical name, the Internet class, and a declared
/// payload length that matches what its type actually reads.
pub open spec fn plain_record(buf: Seq<u8>, pos: int) -> bool {
    &&& sp_name(buf, pos, 0, None) is Ok
    &&& canonical_labels(sp_name(buf, pos, 0, None)->Ok_0.0)
    &&& sp_record(buf, pos) is Ok
    &&& ({
        let n = sp_name(buf, pos, 0, None)->Ok_0;
        &&& sp_read_u16(buf, n.1 + 2) == Ok::<(u16, int), DnsError>((1u16, n.1 + 4))
        &&& (sp_read_u16(buf, n.1)->Ok_0.0 == 1 ==> sp_read_u16(buf, n.1 + 8)->Ok_0.0 == 4)
        &&& (sp_read_u16(buf, n.1)->Ok_0.0 == 28 ==> sp_read_u16(buf, n.1 + 8)->Ok_0.0 == 16)
    })
}

/// A plain, canonical, Internet-class record whose payload length matches
/// its type re-encodes to exactly the bytes it was parsed from.
#[verifier::rlimit(60)]
pub proof fn lemma_record_reencode(buf: Seq<u8>, pos: int)
    requires
        plain_record(buf, pos),
    ensures
        ({
            let p = sp_record(buf, pos)->Ok_0;
            sp_encode_record(p.0) == Ok::<Seq<u8>, DnsError>(buf.subrange(pos, p.1)) && pos < p.1
                <= buf.len()
        }),
{
    lemma_name_jumps_irrelevant(buf, pos, MAX_JUMPS as int, None);
    lemma_name_reencode(buf, pos);
    let n = sp_name(buf, pos, 0, None)->Ok_0;
    let t = sp_read_u16(buf, n.1)->Ok_0;
    let ttl = sp_read_u32(buf, n.1 + 4)->Ok_0;
    let dl = sp_read_u16(buf, n.1 + 8)->Ok_0;
    let p5 = n.1 + 10;
    lemma_u16_bytes(buf[n.1], buf[n.1 + 1]);
    lemma_u16_bytes(buf[n.1 + 2], buf[n.1 + 3]);
    lemma_u32_bytes(buf[n.1 + 4], buf[n.1 + 5], buf[n.1 + 6], buf[n.1 + 7]);
    lemma_u16_bytes(buf[n.1 + 8], buf[n.1 + 9]);
    assert(sp_u16(buf[n.1 + 2], buf[n.1 + 3]) == 1);
    assert(u16_hi(1u16) == 0u8 && u16_lo(1u16) == 1u8) by (bit_vector);
    let wn = sp_wire_name(encode_utf8(join_labels(n.0)))->Ok_0;
    let p = sp_record(buf, pos)->Ok_0;
    if t.0 == 1 {
        assert(dl.0 == 4);
        assert(u16_hi(4u16) == 0u8 && u16_lo(4u16) == 4u8) by (bit_vector);
        assert(buf.subrange(pos, p.1) =~= wn + seq![
            buf[n.1],
            buf[n.1 + 1],
            buf[n.1 + 2],
            buf[n.1 + 3],
            buf[n.1 + 4],
            buf[n.1 + 5],
            buf[n.1 + 6],
            buf[n.1 + 7],
            buf[n.1 + 8],
            buf[n.1 + 9],
        ] + buf.subrange(p5, p5 + 4));
    } else if t.0 == 28 {
        assert(dl.0 == 16);
        assert(u16_hi(28u16) == 0u8 && u16_lo(28u16) == 28u8) by (bit_vector);
        assert(u16_hi(16u16) == 0u8 && u16_lo(16u16) == 16u8) by (bit_vector);
        assert(buf.subrange(pos, p.1) =~= wn + seq![
            buf[n.1],
            buf[n.1 + 1],
            buf[n.1 + 2],
            buf[n.1 + 3],
            buf[n.1 + 4],
            buf[n.1 + 5],
            buf[n.1 + 6],
            buf[n.1 + 7],
            buf[n.1 + 8],
            buf[n.1 + 9],
        ] + buf.subrange(p5, p5 + 16));
    } else {
        let data = buf.subrange(p5, p5 + dl.0);
        assert(data.len() == dl.0);
        assert(data.len() as u16 == dl.0);
        assert(buf.subrange(pos, p.1) =~= wn + seq![
            buf[n.1],
            buf[n.1 + 1],
            buf[n.1 + 2],
            buf[n.1 + 3],
            buf[n.1 + 4],
            buf[n.1 + 5],
            buf[n.1 + 6],
            buf[n.1 + 7],
            buf[n.1 + 8],
            buf[n.1 + 9],
        ] + data);
    }
}

} // verus!
