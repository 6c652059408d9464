use dns_codec::DnsError;
use dns_codec::Header;
use dns_codec::Opcode;
use dns_codec::Packet;
use dns_codec::PacketBuffer;
use dns_codec::Question;
use dns_codec::Record;
use dns_codec::RecordType;
use dns_codec::ResCode;
use dns_codec::Section;

fn put(b: &mut PacketBuffer, at: usize, bytes: &[u8]) {
    b.buf[at..at + bytes.len()].copy_from_slice(bytes);
}

#[test]
fn header_roundtrip_all_flags() {
    let mut h = Header::new();
    h.id = 0xBEEF;
    h.recursion_desired = true;
    h.truncated_message = true;
    h.authoritative_answer = false;
    h.opcode = Opcode::Status;
    h.response = true;
    h.rescode = ResCode::NXDomain;
    h.checking_disabled = true;
    h.authed_data = false;
    h.recursion_available = true;
    h.questions = 2;
    h.answers = 7;
    h.authoritative_entries = 0;
    h.resource_entries = 65535;

    let mut b = PacketBuffer::new();
    h.write(&mut b).unwrap();
    assert_eq!(b.pos, 12);
    b.seek(0).unwrap();
    let mut h2 = Header::new();
    h2.read(&mut b).unwrap();
    assert_eq!(h, h2);
}

#[test]
fn header_roundtrip_defaults() {
    let h = Header::new();
    let mut b = PacketBuffer::new();
    h.write(&mut b).unwrap();
    b.seek(0).unwrap();
    let mut h2 = Header::new();
    h2.id = 9;
    h2.read(&mut b).unwrap();
    assert_eq!(h, h2);
}

#[test]
fn header_write_reserved_bit_zero() {
    let mut h = Header::new();
    h.recursion_available = true;
    h.authed_data = true;
    h.checking_disabled = true;
    h.rescode = ResCode::NXDomain;
    let mut b = PacketBuffer::new();
    h.write(&mut b).unwrap();
    // low flag byte: rescode 3, cd bit 4, ad bit 5, reserved bit 6 clear, ra bit 7
    assert_eq!(b.buf[3], 3 | 1 << 4 | 1 << 5 | 1 << 7);
    assert_eq!(b.buf[3] & (1 << 6), 0);
}

#[test]
fn u16_u32_primitives_roundtrip() {
    let mut b = PacketBuffer::new();
    b.write_u16(0xABCD).unwrap();
    b.write_u32(0x01020304).unwrap();
    b.write_u8(0x7F).unwrap();
    assert_eq!(b.pos, 7);
    b.seek(0).unwrap();
    assert_eq!(b.read_u16().unwrap(), 0xABCD);
    assert_eq!(b.read_u32().unwrap(), 0x01020304);
    assert_eq!(b.read().unwrap(), 0x7F);
}

#[test]
fn read_past_capacity_is_buffer_bounds() {
    let mut b = PacketBuffer::new();
    b.seek(512).unwrap();
    assert_eq!(b.read(), Err(DnsError::BufferBounds));
    assert_eq!(b.read_u16(), Err(DnsError::BufferBounds));
    assert!(b.seek(513).is_err());
    assert_eq!(b.get(512), Err(DnsError::BufferBounds));
    assert_eq!(b.get_range(510, 2), Err(DnsError::BufferBounds));
}

#[test]
fn get_and_get_range_read_without_moving() {
    let mut b = PacketBuffer::new();
    put(&mut b, 5, &[10, 20, 30]);
    assert_eq!(b.get(6).unwrap(), 20);
    assert_eq!(b.get_range(5, 3).unwrap(), vec![10, 20, 30]);
    assert_eq!(b.pos, 0);
}

#[test]
fn step_advances_and_checks_bounds() {
    let mut b = PacketBuffer::new();
    b.step(500).unwrap();
    assert_eq!(b.pos, 500);
    assert_eq!(b.step(13), Err(DnsError::BufferBounds));
    assert_eq!(b.pos, 500);
    b.step(12).unwrap();
    assert_eq!(b.pos, 512);
}

#[test]
fn plain_name_reads_lowercased() {
    let mut b = PacketBuffer::new();
    put(&mut b, 0, &[3, b'W', b'w', b'W', 6, b'G', b'o', b'O', b'g', b'L', b'e', 3, b'c', b'o', b'm', 0]);
    let mut name = String::new();
    b.read_name(&mut name, 5).unwrap();
    assert_eq!(name, "www.google.com");
    assert_eq!(b.pos, 16);
}

#[test]
fn pointer_to_earlier_name_decodes_same_string() {
    // the label "example.com" at offset 12, a pointer to offset 12 elsewhere
    let mut b = PacketBuffer::new();
    put(&mut b, 12, &[7, b'e', b'x', b'a', b'm', b'p', b'l', b'e', 3, b'c', b'o', b'm', 0]);
    put(&mut b, 40, &[0xC0, 12]);
    b.seek(40).unwrap();
    let mut name = String::new();
    b.read_name(&mut name, 5).unwrap();
    assert_eq!(name, "example.com");
    // the outer cursor stands just past the two pointer bytes
    assert_eq!(b.pos, 42);
}

#[test]
fn labels_before_pointer_are_kept() {
    let mut b = PacketBuffer::new();
    put(&mut b, 12, &[3, b'c', b'o', b'm', 0]);
    put(&mut b, 30, &[4, b'm', b'a', b'i', b'l', 0xC0, 12]);
    b.seek(30).unwrap();
    let mut name = String::new();
    b.read_name(&mut name, 5).unwrap();
    assert_eq!(name, "mail.com");
    assert_eq!(b.pos, 37);
}

#[test]
fn self_pointer_fails_within_jump_bound() {
    // a pointer chain engineered to point back to itself must terminate
    let mut b = PacketBuffer::new();
    put(&mut b, 12, &[0xC0, 12]);
    b.seek(12).unwrap();
    let mut name = String::new();
    assert_eq!(b.read_name(&mut name, 5), Err(DnsError::NameDecodeLoop));
    assert_eq!(name, "");
    assert_eq!(b.pos, 12);
}

#[test]
fn two_pointer_cycle_fails() {
    let mut b = PacketBuffer::new();
    put(&mut b, 12, &[0xC0, 20]);
    put(&mut b, 20, &[0xC0, 12]);
    b.seek(12).unwrap();
    let mut name = String::new();
    assert_eq!(b.read_name(&mut name, 5), Err(DnsError::NameDecodeLoop));
}

#[test]
fn jump_budget_boundary() {
    let mut b = PacketBuffer::new();
    put(&mut b, 100, &[1, b'x', 0]);
    put(&mut b, 110, &[0xC0, 112]);
    put(&mut b, 112, &[0xC0, 114]);
    put(&mut b, 114, &[0xC0, 116]);
    put(&mut b, 116, &[0xC0, 118]);
    put(&mut b, 118, &[0xC0, 100]);
    // five hops end at the name: allowed
    b.seek(110).unwrap();
    let mut name = String::new();
    b.read_name(&mut name, 5).unwrap();
    assert_eq!(name, "x");
    assert_eq!(b.pos, 112);
    // a sixth hop exceeds the bound
    put(&mut b, 108, &[0xC0, 110]);
    b.seek(108).unwrap();
    let mut name2 = String::new();
    assert_eq!(b.read_name(&mut name2, 5), Err(DnsError::NameDecodeLoop));
}

#[test]
fn write_name_emits_length_prefixed_labels() {
    let mut b = PacketBuffer::new();
    b.write_name("a.test").unwrap();
    assert_eq!(b.pos, 8);
    assert_eq!(&b.buf[0..8], &[1, b'a', 4, b't', b'e', b's', b't', 0]);
}

#[test]
fn write_name_then_read_name_roundtrip() {
    let mut b = PacketBuffer::new();
    b.write_name("mail.example.org").unwrap();
    b.seek(0).unwrap();
    let mut name = String::new();
    b.read_name(&mut name, 5).unwrap();
    assert_eq!(name, "mail.example.org");
}

#[test]
fn long_label_rejected_and_writes_nothing() {
    // a 64-character label must be rejected with LabelTooLong
    let long = "x".repeat(64);
    let name = format!("{}.com", long);
    let mut b = PacketBuffer::new();
    assert_eq!(b.write_name(&name), Err(DnsError::LabelTooLong));
    assert_eq!(b.pos, 0);
    assert!(b.buf.iter().all(|&x| x == 0));
}

#[test]
fn sixty_three_byte_label_is_accepted() {
    let long = "y".repeat(63);
    let mut b = PacketBuffer::new();
    b.write_name(&long).unwrap();
    assert_eq!(b.buf[0], 63);
    assert_eq!(b.pos, 65);
}

#[test]
fn name_too_large_for_buffer_is_buffer_bounds() {
    let mut b = PacketBuffer::new();
    b.seek(505).unwrap();
    assert_eq!(b.write_name("toolong"), Err(DnsError::BufferBounds));
    assert_eq!(b.pos, 505);
}

#[test]
fn record_type_codes() {
    assert_eq!(RecordType::read(1), RecordType::A);
    assert_eq!(RecordType::read(28), RecordType::AAAA);
    assert_eq!(RecordType::read(99), RecordType::Unknown(99));
    assert_eq!(RecordType::A.code(), 1);
    assert_eq!(RecordType::AAAA.code(), 28);
    assert_eq!(RecordType::Unknown(99).code(), 99);
}

#[test]
fn opcode_and_rescode_lenient_fallback() {
    assert!(matches!(Opcode::read(&0), Opcode::Query));
    assert!(matches!(Opcode::read(&1), Opcode::ReverseQuery));
    assert!(matches!(Opcode::read(&2), Opcode::Status));
    assert!(matches!(Opcode::read(&9), Opcode::Query));
    assert!(matches!(ResCode::read(&0), ResCode::NoError));
    assert!(matches!(ResCode::read(&1), ResCode::FormErr));
    assert!(matches!(ResCode::read(&2), ResCode::ServFail));
    assert!(matches!(ResCode::read(&3), ResCode::NXDomain));
    assert!(matches!(ResCode::read(&12), ResCode::NoError));
}

#[test]
fn question_read_discards_class() {
    let mut b = PacketBuffer::new();
    put(&mut b, 0, &[3, b'f', b'o', b'o', 0, 0, 28, 0, 255]);
    let mut q = Question::new(String::new(), RecordType::A);
    q.read(&mut b).unwrap();
    assert_eq!(q.name, "foo");
    assert_eq!(q.record, RecordType::AAAA);
    assert_eq!(b.pos, 9);
}

#[test]
fn question_write_then_read() {
    let q = Question::new("a.b".to_string(), RecordType::Unknown(300));
    let mut b = PacketBuffer::new();
    q.write(&mut b).unwrap();
    b.seek(0).unwrap();
    let mut q2 = Question::new(String::new(), RecordType::A);
    q2.read(&mut b).unwrap();
    assert_eq!(q2.name, "a.b");
    assert_eq!(q2.record, RecordType::Unknown(300));
}

fn a_record_message() -> PacketBuffer {
    let mut b = PacketBuffer::new();
    // header: id 0x1234, no flags, answers = 1
    put(&mut b, 0, &[0x12, 0x34, 0, 0, 0, 0, 0, 1, 0, 0, 0, 0]);
    // name "a.test", TYPE=1, CLASS=1, TTL=300, RDLENGTH=4, RDATA=93.184.216.34
    put(
        &mut b,
        12,
        &[1, b'a', 4, b't', b'e', b's', b't', 0, 0, 1, 0, 1, 0, 0, 1, 44, 0, 4, 93, 184, 216, 34],
    );
    b
}

#[test]
fn a_record_scenario_decodes() {
    let mut b = a_record_message();
    let p = Packet::from_buffer(&mut b).unwrap();
    assert_eq!(p.header.id, 0x1234);
    assert_eq!(p.header.answers, 1);
    assert_eq!(p.questions.len(), 0);
    assert_eq!(p.answers.len(), 1);
    match &p.answers[0] {
        Record::A { domain, addr, ttl } => {
            assert_eq!(domain, "a.test");
            assert_eq!(addr.octets, [93, 184, 216, 34]);
            assert_eq!(*ttl, 300);
        }
        other => panic!("expected an A record, got {:?}", other),
    }
}

#[test]
fn aaaa_record_decodes_sixteen_bytes() {
    let mut b = PacketBuffer::new();
    put(&mut b, 0, &[0, 1, 0, 0, 0, 0, 0, 1, 0, 0, 0, 0]);
    let mut body = vec![2, b'v', b'6', 0, 0, 28, 0, 1, 0, 0, 0, 60, 0, 16];
    body.extend_from_slice(&[0x20, 0x01, 0x0d, 0xb8, 0, 0, 0, 0, 0, 0, 0, 0, 0, 0, 0, 0x42]);
    put(&mut b, 12, &body);
    let p = Packet::from_buffer(&mut b).unwrap();
    match &p.answers[0] {
        Record::AAAA { domain, addr, ttl } => {
            assert_eq!(domain, "v6");
            assert_eq!(addr.octets[0], 0x20);
            assert_eq!(addr.octets[1], 0x01);
            assert_eq!(addr.octets[15], 0x42);
            assert_eq!(*ttl, 60);
        }
        other => panic!("expected an AAAA record, got {:?}", other),
    }
}

#[test]
fn unknown_record_type_kept_opaque() {
    // an unrecognized type must not be reinterpreted as A
    let mut b = PacketBuffer::new();
    put(&mut b, 0, &[0, 1, 0, 0, 0, 0, 0, 1, 0, 0, 0, 0]);
    put(&mut b, 12, &[1, b'u', 0, 0, 99, 0, 1, 0, 0, 0, 5, 0, 3, 7, 8, 9]);
    let p = Packet::from_buffer(&mut b).unwrap();
    match &p.answers[0] {
        Record::Unknown { domain, rtype, ttl, data } => {
            assert_eq!(domain, "u");
            assert_eq!(*rtype, 99);
            assert_eq!(*ttl, 5);
            assert_eq!(data, &vec![7, 8, 9]);
        }
        other => panic!("expected an opaque record, got {:?}", other),
    }
    // the cursor skipped exactly the declared payload
    assert_eq!(b.pos, 12 + 13 + 3);
}

#[test]
fn truncated_message_names_section_and_index() {
    // a 12-byte datagram declaring answers = 1 with zero trailing bytes;
    // the zeroed capacity behind it must not be read as a record
    let mut b = PacketBuffer::new();
    put(&mut b, 0, &[0, 1, 0, 0, 0, 0, 0, 1, 0, 0, 0, 0]);
    b.len = 12;
    let r = Packet::from_buffer(&mut b);
    assert_eq!(
        r.unwrap_err(),
        DnsError::TruncatedMessage { section: Section::Answer, index: 0 }
    );
}

#[test]
fn truncated_question_is_reported_as_question() {
    let mut b = PacketBuffer::new();
    put(&mut b, 0, &[0, 1, 0, 0, 0, 2, 0, 0, 0, 0, 0, 0]);
    b.len = 12;
    let r = Packet::from_buffer(&mut b);
    assert_eq!(
        r.unwrap_err(),
        DnsError::TruncatedMessage { section: Section::Question, index: 0 }
    );
}

#[test]
fn truncation_at_second_entry_names_its_index() {
    // one whole answer fits, the declared second does not
    let mut b = PacketBuffer::new();
    put(&mut b, 0, &[0, 1, 0, 0, 0, 0, 0, 2, 0, 0, 0, 0]);
    put(&mut b, 12, &[1, b'a', 0, 0, 1, 0, 1, 0, 0, 0, 9, 0, 4, 1, 2, 3, 4]);
    b.len = 12 + 17;
    let r = Packet::from_buffer(&mut b);
    assert_eq!(
        r.unwrap_err(),
        DnsError::TruncatedMessage { section: Section::Answer, index: 1 }
    );
}

#[test]
fn truncated_at_buffer_capacity() {
    // the same failure at the capacity edge of a full-size datagram
    let mut b = PacketBuffer::new();
    put(&mut b, 500, &[0, 1, 0, 0, 0, 0, 0, 1, 0, 0, 0, 0]);
    b.seek(500).unwrap();
    let r = Packet::from_buffer(&mut b);
    assert_eq!(
        r.unwrap_err(),
        DnsError::TruncatedMessage { section: Section::Answer, index: 0 }
    );
}

#[test]
fn datagram_too_short_for_header() {
    let mut b = PacketBuffer::new();
    put(&mut b, 0, &[0, 1, 0, 0, 0]);
    b.len = 5;
    assert_eq!(Packet::from_buffer(&mut b).unwrap_err(), DnsError::BufferBounds);
}

#[test]
fn entry_name_loop_names_section_and_index() {
    // an answer whose name points back at itself: the failure names the
    // section and entry index, not just the loop
    let mut b = PacketBuffer::new();
    put(&mut b, 0, &[0, 1, 0, 0, 0, 0, 0, 1, 0, 0, 0, 0]);
    put(&mut b, 12, &[0xC0, 12]);
    let r = Packet::from_buffer(&mut b);
    assert_eq!(
        r.unwrap_err(),
        DnsError::EntryDecodeLoop { section: Section::Answer, index: 0 }
    );
}

#[test]
fn reads_stop_at_datagram_end() {
    let mut b = PacketBuffer::new();
    put(&mut b, 0, &[1, 2, 3, 4]);
    b.len = 3;
    assert_eq!(b.read().unwrap(), 1);
    assert_eq!(b.read_u16().unwrap(), 0x0203);
    assert_eq!(b.read(), Err(DnsError::BufferBounds));
    assert_eq!(b.get(3), Err(DnsError::BufferBounds));
    assert_eq!(b.get_range(1, 2), Err(DnsError::BufferBounds));
    assert_eq!(b.get_range(0, 2).unwrap(), vec![1, 2]);
}

#[test]
fn header_too_short_is_buffer_bounds() {
    let mut b = PacketBuffer::new();
    b.seek(505).unwrap();
    assert_eq!(Packet::from_buffer(&mut b).unwrap_err(), DnsError::BufferBounds);
}

#[test]
fn decode_then_reencode_uncompressed_is_identical() {
    // a message written without compression decodes and re-encodes to the
    // exact same bytes
    let mut b = a_record_message();
    let len = 12 + 22;
    let p = Packet::from_buffer(&mut b).unwrap();
    assert_eq!(b.pos, len);
    let mut out = PacketBuffer::new();
    p.write(&mut out).unwrap();
    assert_eq!(out.pos, len);
    assert_eq!(&out.buf[..len], &b.buf[..len]);
}

#[test]
fn packet_roundtrip_with_question_and_unknown_record() {
    let mut b = PacketBuffer::new();
    put(&mut b, 0, &[0xAB, 0xCD, 0x01, 0x80, 0, 1, 0, 1, 0, 0, 0, 0]);
    let mut at = 12;
    let q = [3, b'w', b'w', b'w', 2, b'h', b'i', 0, 0, 1, 0, 1];
    put(&mut b, at, &q);
    at += q.len();
    let rec = [2, b'h', b'i', 0, 0, 16, 0, 1, 0, 0, 0, 9, 0, 2, 0xAA, 0xBB];
    put(&mut b, at, &rec);
    at += rec.len();
    let p = Packet::from_buffer(&mut b).unwrap();
    assert_eq!(b.pos, at);
    let mut out = PacketBuffer::new();
    p.write(&mut out).unwrap();
    assert_eq!(out.pos, at);
    assert_eq!(&out.buf[..at], &b.buf[..at]);
}

#[test]
fn packet_write_rejects_long_label_untouched() {
    let mut p = Packet::new();
    p.header.questions = 1;
    p.questions.push(Question::new("z".repeat(64), RecordType::A));
    let mut b = PacketBuffer::new();
    assert_eq!(p.write(&mut b), Err(DnsError::LabelTooLong));
    assert_eq!(b.pos, 0);
    assert!(b.buf.iter().all(|&x| x == 0));
}

#[test]
fn empty_packet_writes_just_header() {
    let p = Packet::new();
    let mut b = PacketBuffer::new();
    p.write(&mut b).unwrap();
    assert_eq!(b.pos, 12);
}
