use vstd::prelude::*;

use crate::buffer::PacketBuffer;
use crate::errors::DnsError;
use crate::errors::Section;
use crate::header::Header;
use crate::header::default_header;
use crate::header::sp_parse_header;
use crate::records::Question;
use crate::records::QuestionModel;
use crate::records::Record;
use crate::records::RecordModel;
use crate::records::RecordType;
use crate::records::sp_encode_question;
use crate::records::sp_encode_record;
use crate::records::lemma_question_reencode;
use crate::records::lemma_record_reencode;
use crate::records::plain_question;
use crate::records::plain_record;
use crate::records::sp_question;
use crate::records::sp_record;
use vstd::string::StringSliceAdditionalSpecFns;
use vstd::utf8::encode_utf8;
use crate::buffer::lemma_wire_labels_err;
use crate::buffer::name_fits;
use crate::buffer::splice;
use crate::buffer::split_bytes;
use crate::header::sp_header_bytes;

verus! {

/// A whole message: the header, the questions, and the three
/// resource-record sections, each kept in wire order.
#[derive(Debug)]
pub struct Packet {
    pub header: Header,
    pub questions: Vec<Question>,
    pub answers: Vec<Record>,
    pub authorities: Vec<Record>,
    pub additionals: Vec<Record>,
}

/// The mathematical value of a message.
pub struct PacketModel {
    pub header: Header,
    pub questions: Seq<QuestionModel>,
    pub answers: Seq<RecordModel>,
    pub authorities: Seq<RecordModel>,
    pub additionals: Seq<RecordModel>,
}

impl View for Packet {
    type V = PacketModel;

    open spec fn view(&self) -> PacketModel {
        PacketModel {
            header: self.header,
            questions: self.questions@.map_values(|q: Question| q@),
            answers: self.answers@.map_values(|r: Record| r@),
            authorities: self.authorities@.map_values(|r: Record| r@),
            additionals: self.additionals@.map_values(|r: Record| r@),
        }
    }
}

/// How a failure while reading one section entry is surfaced: always
/// naming the failing section and entry index.  Exhausted message bytes
/// become `TruncatedMessage`; a name that overran the pointer-jump bound
/// becomes `EntryDecodeLoop`.  Decoding produces no other entry-level
/// failure kinds.
pub open spec fn wrap_err(e: DnsError, s: Section, i: u16) -> DnsError {
    match e {
        DnsError::BufferBounds => DnsError::TruncatedMessage { section: s, index: i },
        DnsError::NameDecodeLoop => DnsError::EntryDecodeLoop { section: s, index: i },
        _ => e,
    }
}

/// What decoding `n` consecutive questions at `pos` yields; a failure
/// carries the index of the entry that failed.
pub open spec fn sp_questions(buf: Seq<u8>, pos: int, n: int) -> Result<
    (Seq<QuestionModel>, int),
    (int, DnsError),
>
    decreases n,
{
    if n <= 0 {
        Ok((Seq::empty(), pos))
    } else {
        match sp_question(buf, pos) {
            Err(e) => Err((0, e)),
            Ok(q) => match sp_questions(buf, q.1, n - 1) {
                Err(p) => Err((p.0 + 1, p.1)),
                Ok(rest) => Ok((seq![q.0] + rest.0, rest.1)),
            },
        }
    }
}

/// What decoding `n` consecutive resource records at `pos` yields; a
/// failure carries the index of the entry that failed.
pub open spec fn sp_records(buf: Seq<u8>, pos: int, n: int) -> Result<
    (Seq<RecordModel>, int),
    (int, DnsError),
>
    decreases n,
{
    if n <= 0 {
        Ok((Seq::empty(), pos))
    } else {
        match sp_record(buf, pos) {
            Err(e) => Err((0, e)),
            Ok(q) => match sp_records(buf, q.1, n - 1) {
                Err(p) => Err((p.0 + 1, p.1)),
                Ok(rest) => Ok((seq![q.0] + rest.0, rest.1)),
            },
        }
    }
}

/// What decoding a whole message at `pos` yields: the header first, then
/// exactly the counted questions, answers, authorities and additionals, in
/// that fixed order.  An entry failure aborts the whole decode with an
/// error naming the section and index.
pub open spec fn sp_message(buf: Seq<u8>, pos: int) -> Result<(PacketModel, int), DnsError> {
    if !(0 <= pos && pos + 12 <= buf.len()) {
        Err(DnsError::BufferBounds)
    } else {
        let h = sp_parse_header(buf.subrange(pos, pos + 12));
        match sp_questions(buf, pos + 12, h.questions as int) {
            Err(p) => Err(wrap_err(p.1, Section::Question, p.0 as u16)),
            Ok(qs) => match sp_records(buf, qs.1, h.answers as int) {
                Err(p) => Err(wrap_err(p.1, Section::Answer, p.0 as u16)),
                Ok(ans) => match sp_records(buf, ans.1, h.authoritative_entries as int) {
                    Err(p) => Err(wrap_err(p.1, Section::Authority, p.0 as u16)),
                    Ok(auth) => match sp_records(buf, auth.1, h.resource_entries as int) {
                        Err(p) => Err(wrap_err(p.1, Section::Additional, p.0 as u16)),
                        Ok(add) => Ok(
                            (
                                PacketModel {
                                    header: h,
                                    questions: qs.0,
                                    answers: ans.0,
                                    authorities: auth.0,
                                    additionals: add.0,
                                },
                                add.1,
                            ),
                        ),
                    },
                },
            },
        }
    }
}

/// A run of question decodes fails only by running out of bytes or by
/// the pointer-jump bound.
pub proof fn lemma_questions_err_kinds(buf: Seq<u8>, pos: int, n: int)
    ensures
        sp_questions(buf, pos, n) matches Err(p) ==> (p.1 == DnsError::BufferBounds || p.1
            == DnsError::NameDecodeLoop),
    decreases n,
{
    if n > 0 {
        crate::records::lemma_question_err_kinds(buf, pos);
        if sp_question(buf, pos) is Ok {
            lemma_questions_err_kinds(buf, sp_question(buf, pos)->Ok_0.1, n - 1);
        }
    }
}

/// A run of record decodes fails only by running out of bytes or by the
/// pointer-jump bound.
pub proof fn lemma_records_err_kinds(buf: Seq<u8>, pos: int, n: int)
    ensures
        sp_records(buf, pos, n) matches Err(p) ==> (p.1 == DnsError::BufferBounds || p.1
            == DnsError::NameDecodeLoop),
    decreases n,
{
    if n > 0 {
        crate::records::lemma_record_err_kinds(buf, pos);
        if sp_record(buf, pos) is Ok {
            lemma_records_err_kinds(buf, sp_record(buf, pos)->Ok_0.1, n - 1);
        }
    }
}

/// Every message decode failure carries its origin: a bare `BufferBounds`
/// can come only from a message too short for the header itself; any
/// failure inside a counted section entry names the section and the
/// entry's index.
pub proof fn lemma_message_err_kinds(buf: Seq<u8>, pos: int)
    ensures
        sp_message(buf, pos) matches Err(e) ==> (e == DnsError::BufferBounds
            || e is TruncatedMessage || e is EntryDecodeLoop),
{
    if 0 <= pos && pos + 12 <= buf.len() {
        let h = sp_parse_header(buf.subrange(pos, pos + 12));
        lemma_questions_err_kinds(buf, pos + 12, h.questions as int);
        if sp_questions(buf, pos + 12, h.questions as int) is Ok {
            let qs = sp_questions(buf, pos + 12, h.questions as int)->Ok_0;
            lemma_records_err_kinds(buf, qs.1, h.answers as int);
            if sp_records(buf, qs.1, h.answers as int) is Ok {
                let ans = sp_records(buf, qs.1, h.answers as int)->Ok_0;
                lemma_records_err_kinds(buf, ans.1, h.authoritative_entries as int);
                if sp_records(buf, ans.1, h.authoritative_entries as int) is Ok {
                    let auth = sp_records(buf, ans.1, h.authoritative_entries as int)->Ok_0;
                    lemma_records_err_kinds(buf, auth.1, h.resource_entries as int);
                }
            }
        }
    }
}

/// The bytes a list of questions encodes to, in order.
pub open spec fn sp_encode_questions(qs: Seq<QuestionModel>) -> Result<Seq<u8>, DnsError>
    decreases qs.len(),
{
    if qs.len() == 0 {
        Ok(Seq::empty())
    } else {
        match sp_encode_question(qs[0]) {
            Err(e) => Err(e),
            Ok(w) => match sp_encode_questions(qs.drop_first()) {
                Err(e) => Err(e),
                Ok(rest) => Ok(w + rest),
            },
        }
    }
}

/// The bytes a list of resource records encodes to, in order.
pub open spec fn sp_encode_records(rs: Seq<RecordModel>) -> Result<Seq<u8>, DnsError>
    decreases rs.len(),
{
    if rs.len() == 0 {
        Ok(Seq::empty())
    } else {
        match sp_encode_record(rs[0]) {
            Err(e) => Err(e),
            Ok(w) => match sp_encode_records(rs.drop_first()) {
                Err(e) => Err(e),
                Ok(rest) => Ok(w + rest),
            },
        }
    }
}

/// The bytes a whole message encodes to: the header's twelve, then every
/// question and record in wire order.  The encoder never emits compression
/// pointers.
pub open spec fn sp_encode_message(pm: PacketModel) -> Result<Seq<u8>, DnsError> {
    match sp_encode_questions(pm.questions) {
        Err(e) => Err(e),
        Ok(qw) => match sp_encode_records(pm.answers) {
            Err(e) => Err(e),
            Ok(aw) => match sp_encode_records(pm.authorities) {
                Err(e) => Err(e),
                Ok(uw) => match sp_encode_records(pm.additionals) {
                    Err(e) => Err(e),
                    Ok(dw) => Ok(sp_header_bytes(pm.header) + qw + aw + uw + dw),
                },
            },
        },
    }
}

/// Encoding questions fails only by a label being too long.
pub proof fn lemma_encode_questions_err(qs: Seq<QuestionModel>)
    ensures
        sp_encode_questions(qs) is Ok || sp_encode_questions(qs) == Err::<Seq<u8>, DnsError>(
            DnsError::LabelTooLong,
        ),
    decreases qs.len(),
{
    if qs.len() > 0 {
        lemma_wire_labels_err(split_bytes(encode_utf8(qs[0].name)));
        lemma_encode_questions_err(qs.drop_first());
    }
}

/// Encoding records fails only by a label being too long.
pub proof fn lemma_encode_records_err(rs: Seq<RecordModel>)
    ensures
        sp_encode_records(rs) is Ok || sp_encode_records(rs) == Err::<Seq<u8>, DnsError>(
            DnsError::LabelTooLong,
        ),
    decreases rs.len(),
{
    if rs.len() > 0 {
        match rs[0] {
            RecordModel::A { domain, .. } => {
                lemma_wire_labels_err(split_bytes(encode_utf8(domain)));
            },
            RecordModel::AAAA { domain, .. } => {
                lemma_wire_labels_err(split_bytes(encode_utf8(domain)));
            },
            RecordModel::Unknown { domain, .. } => {
                lemma_wire_labels_err(split_bytes(encode_utf8(domain)));
            },
        }
        lemma_encode_records_err(rs.drop_first());
    }
}

/// Whether every question of the list can be encoded at all: each name's
/// labels within the 63-byte bound.
#[verifier::loop_isolation(false)]
fn questions_encodable(v: &Vec<Question>) -> (b: bool)
    ensures
        b <==> sp_encode_questions(v@.map_values(|q: Question| q@)) is Ok,
{
    let ghost ms = v@.map_values(|q: Question| q@);
    proof {
        assert(ms.skip(0) =~= ms);
    }
    let mut i: usize = 0;
    while i < v.len()
        invariant
            i <= v.len(),
            sp_encode_questions(ms) is Ok <==> sp_encode_questions(ms.skip(i as int)) is Ok,
        decreases v.len() - i,
    {
        proof {
            assert(ms.skip(i as int)[0] == ms[i as int]);
            assert(ms.skip(i as int).drop_first() =~= ms.skip(i + 1));
        }
        if !name_fits(v[i].name.as_str()) {
            return false;
        }
        i = i + 1;
    }
    true
}

/// Whether every record of the list can be encoded at all.
#[verifier::loop_isolation(false)]
fn records_encodable(v: &Vec<Record>) -> (b: bool)
    ensures
        b <==> sp_encode_records(v@.map_values(|rec: Record| rec@)) is Ok,
{
    let ghost ms = v@.map_values(|rec: Record| rec@);
    proof {
        assert(ms.skip(0) =~= ms);
    }
    let mut i: usize = 0;
    while i < v.len()
        invariant
            i <= v.len(),
            sp_encode_records(ms) is Ok <==> sp_encode_records(ms.skip(i as int)) is Ok,
        decreases v.len() - i,
    {
        proof {
            assert(ms.skip(i as int)[0] == ms[i as int]);
            assert(ms.skip(i as int).drop_first() =~= ms.skip(i + 1));
        }
        let fits = match &v[i] {
            Record::A { domain, .. } => name_fits(domain.as_str()),
            Record::AAAA { domain, .. } => name_fits(domain.as_str()),
            Record::Unknown { domain, .. } => name_fits(domain.as_str()),
        };
        if !fits {
            return false;
        }
        i = i + 1;
    }
    true
}

/// Writes every question of the list at the cursor.
#[verifier::loop_isolation(false)]
#[verifier::rlimit(80)]
fn write_all_questions(v: &Vec<Question>, buffer: &mut PacketBuffer) -> (r: Result<(), DnsError>)
    requires
        old(buffer).pos <= 512,
        sp_encode_questions(v@.map_values(|q: Question| q@)) is Ok,
    ensures
        final(buffer).len == old(buffer).len,
        ({
            let w = sp_encode_questions(v@.map_values(|q: Question| q@))->Ok_0;
            if old(buffer).pos + w.len() <= 512 {
                r is Ok && final(buffer).buf@ == splice(old(buffer).buf@, old(buffer).pos as int, w)
                    && final(buffer).pos == old(buffer).pos + w.len()
            } else {
                r == Err::<(), DnsError>(DnsError::BufferBounds)
            }
        }),
{
    let ghost ms = v@.map_values(|q: Question| q@);
    let ghost w = sp_encode_questions(ms)->Ok_0;
    let ghost buf0 = buffer.buf@;
    let ghost p0 = buffer.pos as int;
    proof {
        assert(ms.skip(0) =~= ms);
        assert(w.take(0) + w =~= w);
        assert(buffer.buf@ =~= splice(buf0, p0, w.take(0)));
    }
    let mut i: usize = 0;
    while i < v.len()
        invariant
            buffer.len == old(buffer).len,
            i <= v.len(),
            p0 <= buffer.pos,
            sp_encode_questions(ms.skip(i as int)) is Ok,
            w == w.take(buffer.pos - p0) + sp_encode_questions(ms.skip(i as int))->Ok_0,
            buffer.pos - p0 + sp_encode_questions(ms.skip(i as int))->Ok_0.len() == w.len(),
            buffer.buf@ == splice(buf0, p0, w.take(buffer.pos - p0)),
        decreases v.len() - i,
    {
        let ghost posb = buffer.pos as int;
        proof {
            assert(ms.skip(i as int)[0] == ms[i as int]);
            assert(ms.skip(i as int).drop_first() =~= ms.skip(i + 1));
        }
        match v[i].write(buffer) {
            Ok(_) => {},
            Err(e) => {
                return Err(e);
            },
        }
        proof {
            let wq = sp_encode_question(ms[i as int])->Ok_0;
            assert(w.take(buffer.pos - p0) =~= w.take(posb - p0) + wq);
            assert(buffer.buf@ =~= splice(buf0, p0, w.take(buffer.pos - p0)));
        }
        i = i + 1;
    }
    proof {
        assert(ms.skip(v@.len() as int) =~= Seq::<QuestionModel>::empty());
        assert(w.take(buffer.pos - p0) =~= w);
    }
    Ok(())
}

/// Writes every record of the list at the cursor.
#[verifier::loop_isolation(false)]
#[verifier::rlimit(80)]
fn write_all_records(v: &Vec<Record>, buffer: &mut PacketBuffer) -> (r: Result<(), DnsError>)
    requires
        old(buffer).pos <= 512,
        sp_encode_records(v@.map_values(|rec: Record| rec@)) is Ok,
    ensures
        final(buffer).len == old(buffer).len,
        ({
            let w = sp_encode_records(v@.map_values(|rec: Record| rec@))->Ok_0;
            if old(buffer).pos + w.len() <= 512 {
                r is Ok && final(buffer).buf@ == splice(old(buffer).buf@, old(buffer).pos as int, w)
                    && final(buffer).pos == old(buffer).pos + w.len()
            } else {
                r == Err::<(), DnsError>(DnsError::BufferBounds)
            }
        }),
{
    let ghost ms = v@.map_values(|rec: Record| rec@);
    let ghost w = sp_encode_records(ms)->Ok_0;
    let ghost buf0 = buffer.buf@;
    let ghost p0 = buffer.pos as int;
    proof {
        assert(ms.skip(0) =~= ms);
        assert(w.take(0) + w =~= w);
        assert(buffer.buf@ =~= splice(buf0, p0, w.take(0)));
    }
    let mut i: usize = 0;
    while i < v.len()
        invariant
            buffer.len == old(buffer).len,
            i <= v.len(),
            p0 <= buffer.pos,
            sp_encode_records(ms.skip(i as int)) is Ok,
            w == w.take(buffer.pos - p0) + sp_encode_records(ms.skip(i as int))->Ok_0,
            buffer.pos - p0 + sp_encode_records(ms.skip(i as int))->Ok_0.len() == w.len(),
            buffer.buf@ == splice(buf0, p0, w.take(buffer.pos - p0)),
        decreases v.len() - i,
    {
        let ghost posb = buffer.pos as int;
        proof {
            assert(ms.skip(i as int)[0] == ms[i as int]);
            assert(ms.skip(i as int).drop_first() =~= ms.skip(i + 1));
        }
        match v[i].write(buffer) {
            Ok(_) => {},
            Err(e) => {
                return Err(e);
            },
        }
        proof {
            let wq = sp_encode_record(ms[i as int])->Ok_0;
            assert(w.take(buffer.pos - p0) =~= w.take(posb - p0) + wq);
            assert(buffer.buf@ =~= splice(buf0, p0, w.take(buffer.pos - p0)));
        }
        i = i + 1;
    }
    proof {
        assert(ms.skip(v@.len() as int) =~= Seq::<RecordModel>::empty());
        assert(w.take(buffer.pos - p0) =~= w);
    }
    Ok(())
}

/// `wrap_err`, executably.
fn wrap_entry_err(e: DnsError, section: Section, index: u16) -> (r: DnsError)
    ensures
        r == wrap_err(e, section, index),
{
    match e {
        DnsError::BufferBounds => DnsError::TruncatedMessage { section, index },
        DnsError::NameDecodeLoop => DnsError::EntryDecodeLoop { section, index },
        _ => e,
    }
}

/// Reads `n` consecutive questions at the cursor.
#[verifier::loop_isolation(false)]
fn read_questions(buffer: &mut PacketBuffer, n: u16) -> (r: Result<Vec<Question>, DnsError>)
    ensures
        final(buffer).buf@ == old(buffer).buf@,
        final(buffer).len == old(buffer).len,
        match sp_questions(old(buffer).data(), old(buffer).pos as int, n as int) {
            Ok(p) => (r matches Ok(v) && v@.map_values(|q: Question| q@) == p.0
                && final(buffer).pos == p.1),
            Err(p) => r == Err::<Vec<Question>, DnsError>(
                wrap_err(p.1, Section::Question, p.0 as u16),
            ),
        },
{
    let ghost buf0 = buffer.data();
    let ghost p1 = buffer.pos as int;
    let ghost target = sp_questions(buf0, p1, n as int);
    let mut out: Vec<Question> = Vec::new();
    let mut i: u16 = 0;
    while i < n
        invariant
            i <= n,
            buffer.buf@ == old(buffer).buf@,
            buffer.len == old(buffer).len,
            buffer.data() == buf0,
            out.len() == i,
            ({
                let cur = sp_questions(buf0, buffer.pos as int, n - i);
                match cur {
                    Ok(p) => target == Ok::<(Seq<QuestionModel>, int), (int, DnsError)>(
                        (out@.map_values(|q: Question| q@) + p.0, p.1),
                    ),
                    Err(p) => target == Err::<(Seq<QuestionModel>, int), (int, DnsError)>(
                        (i + p.0, p.1),
                    ),
                }
            }),
        decreases n - i,
    {
        let ghost m0 = out@.map_values(|q: Question| q@);
        let ghost posi = buffer.pos as int;
        let mut question = Question::new(String::new(), RecordType::A);
        match question.read(buffer) {
            Ok(_) => {},
            Err(e) => {
                return Err(wrap_entry_err(e, Section::Question, i));
            },
        }
        proof {
            let qp = sp_question(buf0, posi)->Ok_0;
            assert(Seq::<char>::empty() + qp.0.name =~= qp.0.name);
            assert(question@ == qp.0);
        }
        out.push(question);
        proof {
            let qp = sp_question(buf0, posi)->Ok_0;
            assert(out@.map_values(|q: Question| q@) =~= m0.push(qp.0));
            let nxt = sp_questions(buf0, buffer.pos as int, n - 1 - i);
            if nxt is Ok {
                assert(m0 + (seq![qp.0] + nxt->Ok_0.0) =~= m0.push(qp.0) + nxt->Ok_0.0);
            }
        }
        i = i + 1;
    }
    proof {
        assert(out@.map_values(|q: Question| q@) + Seq::<QuestionModel>::empty() =~= out@.map_values(
            |q: Question| q@,
        ));
    }
    Ok(out)
}

/// Reads `n` consecutive resource records at the cursor for the given
/// section.
#[verifier::loop_isolation(false)]
fn read_records(buffer: &mut PacketBuffer, n: u16, section: Section) -> (r: Result<
    Vec<Record>,
    DnsError,
>)
    ensures
        final(buffer).buf@ == old(buffer).buf@,
        final(buffer).len == old(buffer).len,
        match sp_records(old(buffer).data(), old(buffer).pos as int, n as int) {
            Ok(p) => (r matches Ok(v) && v@.map_values(|rec: Record| rec@) == p.0
                && final(buffer).pos == p.1),
            Err(p) => r == Err::<Vec<Record>, DnsError>(wrap_err(p.1, section, p.0 as u16)),
        },
{
    let ghost buf0 = buffer.data();
    let ghost p1 = buffer.pos as int;
    let ghost target = sp_records(buf0, p1, n as int);
    let mut out: Vec<Record> = Vec::new();
    let mut i: u16 = 0;
    while i < n
        invariant
            i <= n,
            buffer.buf@ == old(buffer).buf@,
            buffer.len == old(buffer).len,
            buffer.data() == buf0,
            out.len() == i,
            ({
                let cur = sp_records(buf0, buffer.pos as int, n - i);
                match cur {
                    Ok(p) => target == Ok::<(Seq<RecordModel>, int), (int, DnsError)>(
                        (out@.map_values(|rec: Record| rec@) + p.0, p.1),
                    ),
                    Err(p) => target == Err::<(Seq<RecordModel>, int), (int, DnsError)>(
                        (i + p.0, p.1),
                    ),
                }
            }),
        decreases n - i,
    {
        let ghost m0 = out@.map_values(|rec: Record| rec@);
        let ghost posi = buffer.pos as int;
        match Record::read(buffer) {
            Ok(rec) => {
                out.push(rec);
            },
            Err(e) => {
                return Err(wrap_entry_err(e, section, i));
            },
        }
        proof {
            let rp = sp_record(buf0, posi)->Ok_0;
            assert(out@.map_values(|rec: Record| rec@) =~= m0.push(rp.0));
            let nxt = sp_records(buf0, buffer.pos as int, n - 1 - i);
            if nxt is Ok {
                assert(m0 + (seq![rp.0] + nxt->Ok_0.0) =~= m0.push(rp.0) + nxt->Ok_0.0);
            }
        }
        i = i + 1;
    }
    proof {
        assert(out@.map_values(|rec: Record| rec@) + Seq::<RecordModel>::empty() =~= out@.map_values(
            |rec: Record| rec@,
        ));
    }
    Ok(out)
}

impl Packet {
    /// An empty message under a default header.
    pub fn new() -> (p: Packet)
        ensures
            p.header == default_header(),
            p.questions@.len() == 0,
            p.answers@.len() == 0,
            p.authorities@.len() == 0,
            p.additionals@.len() == 0,
    {
        Packet {
            header: Header::new(),
            questions: Vec::new(),
            answers: Vec::new(),
            authorities: Vec::new(),
            additionals: Vec::new(),
        }
    }

    /// Decodes a whole message at the cursor, bounded by the datagram's
    /// length: the header, then exactly the counted entries of each section
    /// in wire order; trailing capacity behind the datagram is never read.
    /// Every failure inside a section names the section and the index of
    /// the entry that failed (`TruncatedMessage` when the message's bytes
    /// ran out, `EntryDecodeLoop` when a name overran the jump bound); a
    /// bare `BufferBounds` can arise only from a datagram too short for
    /// the header itself.
    pub fn from_buffer(buffer: &mut PacketBuffer) -> (r: Result<Packet, DnsError>)
        ensures
            final(buffer).buf@ == old(buffer).buf@,
            final(buffer).len == old(buffer).len,
            match sp_message(old(buffer).data(), old(buffer).pos as int) {
                Ok(p) => (r matches Ok(pk) && pk@ == p.0 && final(buffer).pos == p.1),
                Err(e) => (r matches Err(e2) && e2 == e),
            },
            r matches Err(e2) ==> (e2 == DnsError::BufferBounds || e2 is TruncatedMessage
                || e2 is EntryDecodeLoop),
    {
        proof {
            lemma_message_err_kinds(old(buffer).data(), old(buffer).pos as int);
        }
        let mut result = Packet::new();
        if let Err(e) = result.header.read(buffer) {
            return Err(e);
        }
        result.questions = match read_questions(buffer, result.header.questions) {
            Ok(v) => v,
            Err(e) => {
                return Err(e);
            },
        };
        result.answers = match read_records(buffer, result.header.answers, Section::Answer) {
            Ok(v) => v,
            Err(e) => {
                return Err(e);
            },
        };
        result.authorities = match read_records(
            buffer,
            result.header.authoritative_entries,
            Section::Authority,
        ) {
            Ok(v) => v,
            Err(e) => {
                return Err(e);
            },
        };
        result.additionals = match read_records(
            buffer,
            result.header.resource_entries,
            Section::Additional,
        ) {
            Ok(v) => v,
            Err(e) => {
                return Err(e);
            },
        };
        Ok(result)
    }

    /// Encodes this message at the cursor: the header, then every question
    /// and record in wire order, never emitting compression pointers.  A
    /// name with a label longer than 63 bytes is rejected before anything
    /// is written; a message the buffer cannot hold fails with
    /// `BufferBounds`, possibly leaving a partial encode behind.
    #[verifier::loop_isolation(false)]
    #[verifier::rlimit(60)]
    pub fn write(&self, buffer: &mut PacketBuffer) -> (r: Result<(), DnsError>)
        ensures
            final(buffer).len == old(buffer).len,
            match sp_encode_message(self@) {
                Ok(w) => (if old(buffer).pos + w.len() <= 512 {
                    r is Ok && final(buffer).buf@ == splice(
                        old(buffer).buf@,
                        old(buffer).pos as int,
                        w,
                    ) && final(buffer).pos == old(buffer).pos + w.len()
                } else {
                    r == Err::<(), DnsError>(DnsError::BufferBounds)
                }),
                Err(e) => r == Err::<(), DnsError>(e) && *final(buffer) == *old(buffer),
            },
    {
        if !questions_encodable(&self.questions) {
            proof {
                lemma_encode_questions_err(self@.questions);
            }
            return Err(DnsError::LabelTooLong);
        }
        if !records_encodable(&self.answers) {
            proof {
                lemma_encode_records_err(self@.answers);
            }
            return Err(DnsError::LabelTooLong);
        }
        if !records_encodable(&self.authorities) {
            proof {
                lemma_encode_records_err(self@.authorities);
            }
            return Err(DnsError::LabelTooLong);
        }
        if !records_encodable(&self.additionals) {
            proof {
                lemma_encode_records_err(self@.additionals);
            }
            return Err(DnsError::LabelTooLong);
        }
        let ghost w = sp_encode_message(self@)->Ok_0;
        let ghost qw = sp_encode_questions(self@.questions)->Ok_0;
        let ghost aw = sp_encode_records(self@.answers)->Ok_0;
        let ghost uw = sp_encode_records(self@.authorities)->Ok_0;
        let ghost dw = sp_encode_records(self@.additionals)->Ok_0;
        let ghost buf0 = buffer.buf@;
        let ghost p0 = buffer.pos as int;
        if let Err(e) = self.header.write(buffer) {
            return Err(e);
        }
        proof {
            assert(w.take(12) =~= sp_header_bytes(self@.header));
            assert(buffer.buf@ =~= splice(buf0, p0, w.take(12)));
        }
        if let Err(e) = write_all_questions(&self.questions, buffer) {
            return Err(e);
        }
        proof {
            assert(w.take(12 + qw.len() as int) =~= sp_header_bytes(self@.header) + qw);
            assert(buffer.buf@ =~= splice(buf0, p0, w.take(12 + qw.len() as int)));
        }
        if let Err(e) = write_all_records(&self.answers, buffer) {
            return Err(e);
        }
        proof {
            assert(w.take(12 + qw.len() + aw.len() as int) =~= sp_header_bytes(self@.header) + qw + aw);
            assert(buffer.buf@ =~= splice(buf0, p0, w.take(12 + qw.len() + aw.len() as int)));
        }
        if let Err(e) = write_all_records(&self.authorities, buffer) {
            return Err(e);
        }
        proof {
            assert(w.take(12 + qw.len() + aw.len() + uw.len() as int) =~= sp_header_bytes(self@.header)
                + qw + aw + uw);
            assert(buffer.buf@ =~= splice(buf0, p0, w.take(12 + qw.len() + aw.len() + uw.len() as int)));
        }
        if let Err(e) = write_all_records(&self.additionals, buffer) {
            return Err(e);
        }
        proof {
            assert(w.take(12 + qw.len() + aw.len() + uw.len() + dw.len() as int) =~= w);
            assert(buffer.buf@ =~= splice(buf0, p0, w));
        }
        Ok(())
    }
}

/// The conditions under which `n` consecutive parsed questions re-encode
/// to their own bytes: each in turn is plain and canonical.
pub open spec fn plain_questions(buf: Seq<u8>, pos: int, n: int) -> bool
    decreases n,
{
    n <= 0 || {
        &&& plain_question(buf, pos)
        &&& sp_question(buf, pos) is Ok
        &&& plain_questions(buf, sp_question(buf, pos)->Ok_0.1, n - 1)
    }
}

/// The conditions under which `n` consecutive parsed records re-encode to
/// their own bytes: each in turn is plain and canonical.
pub open spec fn plain_records(buf: Seq<u8>, pos: int, n: int) -> bool
    decreases n,
{
    n <= 0 || {
        &&& plain_record(buf, pos)
        &&& plain_records(buf, sp_record(buf, pos)->Ok_0.1, n - 1)
    }
}

/// A run of plain questions re-encodes to exactly the bytes it was parsed
/// from.
pub proof fn lemma_questions_reencode(buf: Seq<u8>, pos: int, n: int)
    requires
        0 <= pos <= buf.len(),
        n >= 0,
        plain_questions(buf, pos, n),
    ensures
        sp_questions(buf, pos, n) is Ok,
        ({
            let p = sp_questions(buf, pos, n)->Ok_0;
            sp_encode_questions(p.0) == Ok::<Seq<u8>, DnsError>(buf.subrange(pos, p.1)) && pos
                <= p.1 <= buf.len()
        }),
    decreases n,
{
    if n <= 0 {
        assert(buf.subrange(pos, pos) =~= Seq::<u8>::empty());
    } else {
        lemma_question_reencode(buf, pos);
        let q = sp_question(buf, pos)->Ok_0;
        lemma_questions_reencode(buf, q.1, n - 1);
        let rest = sp_questions(buf, q.1, n - 1)->Ok_0;
        assert((seq![q.0] + rest.0)[0] == q.0);
        assert((seq![q.0] + rest.0).drop_first() =~= rest.0);
        assert(buf.subrange(pos, rest.1) =~= buf.subrange(pos, q.1) + buf.subrange(q.1, rest.1));
    }
}

/// A run of plain records re-encodes to exactly the bytes it was parsed
/// from.
pub proof fn lemma_records_reencode(buf: Seq<u8>, pos: int, n: int)
    requires
        0 <= pos <= buf.len(),
        n >= 0,
        plain_records(buf, pos, n),
    ensures
        sp_records(buf, pos, n) is Ok,
        ({
            let p = sp_records(buf, pos, n)->Ok_0;
            sp_encode_records(p.0) == Ok::<Seq<u8>, DnsError>(buf.subrange(pos, p.1)) && pos <= p.1
                <= buf.len()
        }),
    decreases n,
{
    if n <= 0 {
        assert(buf.subrange(pos, pos) =~= Seq::<u8>::empty());
    } else {
        lemma_record_reencode(buf, pos);
        let q = sp_record(buf, pos)->Ok_0;
        lemma_records_reencode(buf, q.1, n - 1);
        let rest = sp_records(buf, q.1, n - 1)->Ok_0;
        assert((seq![q.0] + rest.0)[0] == q.0);
        assert((seq![q.0] + rest.0).drop_first() =~= rest.0);
        assert(buf.subrange(pos, rest.1) =~= buf.subrange(pos, q.1) + buf.subrange(q.1, rest.1));
    }
}

/// The conditions under which a whole message, decoded from the start of
/// the buffer, re-encodes byte-identically: the wire opcode and response
/// code lie within the decoded enumerations, the reserved bit is clear,
/// every name is plain (no compression pointer, as the encoder never emits
/// one) and canonical (nonempty labels of at most 63 lowercase, dot-free
/// ASCII bytes), every class is the Internet class, and every declared
/// payload length matches what the record's type reads.
pub open spec fn plain_message(buf: Seq<u8>) -> bool {
    let h = sp_parse_header(buf.subrange(0, 12));
    let qs = sp_questions(buf, 12, h.questions as int);
    let ans = sp_records(buf, qs->Ok_0.1, h.answers as int);
    let auth = sp_records(buf, ans->Ok_0.1, h.authoritative_entries as int);
    &&& buf.len() >= 12
    &&& ((buf[2] >> 3) & 0x0F) <= 2
    &&& (buf[3] & 0x0F) <= 3
    &&& (buf[3] & 0x40) == 0
    &&& plain_questions(buf, 12, h.questions as int)
    &&& plain_records(buf, qs->Ok_0.1, h.answers as int)
    &&& plain_records(buf, ans->Ok_0.1, h.authoritative_entries as int)
    &&& plain_records(buf, auth->Ok_0.1, h.resource_entries as int)
}

/// Idempotence on uncompressed input: decoding a plain message and
/// re-encoding it reproduces byte-identical output, since the encoder
/// never compresses.
#[verifier::rlimit(100)]
#[verifier::spinoff_prover]
pub proof fn lemma_decode_encode_identity(buf: Seq<u8>)
    requires
        plain_message(buf),
    ensures
        sp_message(buf, 0) is Ok,
        ({
            let p = sp_message(buf, 0)->Ok_0;
            sp_encode_message(p.0) == Ok::<Seq<u8>, DnsError>(buf.subrange(0, p.1))
        }),
{
    let b12 = buf.subrange(0, 12);
    let h = sp_parse_header(b12);
    crate::header::lemma_header_reencode(b12);
    lemma_questions_reencode(buf, 12, h.questions as int);
    let qs = sp_questions(buf, 12, h.questions as int)->Ok_0;
    lemma_records_reencode(buf, qs.1, h.answers as int);
    let ans = sp_records(buf, qs.1, h.answers as int)->Ok_0;
    lemma_records_reencode(buf, ans.1, h.authoritative_entries as int);
    let auth = sp_records(buf, ans.1, h.authoritative_entries as int)->Ok_0;
    lemma_records_reencode(buf, auth.1, h.resource_entries as int);
    let add = sp_records(buf, auth.1, h.resource_entries as int)->Ok_0;
    assert(sp_message(buf, 0) is Ok);
    let p = sp_message(buf, 0)->Ok_0;
    assert(p.0.header == h && p.0.questions == qs.0 && p.0.answers == ans.0 && p.0.authorities
        == auth.0 && p.0.additionals == add.0 && p.1 == add.1);
    let qw = sp_encode_questions(qs.0)->Ok_0;
    let aw = sp_encode_records(ans.0)->Ok_0;
    let uw = sp_encode_records(auth.0)->Ok_0;
    let dw = sp_encode_records(add.0)->Ok_0;
    assert(sp_header_bytes(h) == b12);
    assert(sp_encode_message(p.0) == Ok::<Seq<u8>, DnsError>(b12 + qw + aw + uw + dw));
    assert(b12 + qw =~= buf.subrange(0, qs.1));
    assert(b12 + qw + aw =~= buf.subrange(0, ans.1));
    assert(b12 + qw + aw + uw =~= buf.subrange(0, auth.1));
    assert(b12 + qw + aw + uw + dw =~= buf.subrange(0, add.1));
}

} // verus!
