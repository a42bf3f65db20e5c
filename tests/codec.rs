use dns_codec::{
    is_pointer, pack, unpack, DNSHeader, DNSLabel, DNSMessage, DNSQuery, DNSResource, DataWrapper, DecodeError,
    Flags, OPCODE, RCODE,
};

fn name(labels: &[&str]) -> DNSLabel {
    DNSLabel::new(labels.iter().map(|l| l.as_bytes().to_vec()).collect()).unwrap()
}

fn parts(n: &DNSLabel) -> Vec<Vec<u8>> {
    n.parts.clone()
}

fn example_com_bytes() -> Vec<u8> {
    let mut v = vec![7];
    v.extend_from_slice(b"example");
    v.push(3);
    v.extend_from_slice(b"com");
    v.push(0);
    v
}

fn plain_flags() -> Flags {
    Flags {
        qr: false,
        opcode: OPCODE::QUERY,
        aa: false,
        tc: false,
        rd: false,
        ra: false,
        z: 0,
        rcode: RCODE::NoErr,
    }
}

#[test]
fn flag_bytes_round_trip_for_every_pair() {
    for b0 in 0..=255u8 {
        for b1 in 0..=255u8 {
            assert_eq!(Flags::unpack(b0, b1).pack(), (b0, b1));
        }
    }
}

#[test]
fn flag_fields_read_from_known_octets() {
    // qr=1 opcode=2 aa=1 tc=0 rd=1 | ra=1 z=5 rcode=3
    let f = Flags::unpack(0b1_0010_1_0_1, 0b1_101_0011);
    assert!(f.qr);
    assert_eq!(f.opcode, OPCODE::STATUS);
    assert!(f.aa);
    assert!(!f.tc);
    assert!(f.rd);
    assert!(f.ra);
    assert_eq!(f.z, 5);
    assert_eq!(f.rcode, RCODE::NameErr);
}

#[test]
fn flag_fields_wider_than_their_width_are_masked() {
    let mut f = plain_flags();
    f.z = 0xFF;
    f.opcode = OPCODE::RESERVED(0x1F);
    f.rcode = RCODE::Reserved(0x17);
    assert_eq!(f.pack(), (0b0_1111_000, 0b0_111_0111));
    assert_eq!(f.serialize(), vec![0b0_1111_000, 0b0_111_0111]);
}

#[test]
fn opcode_and_rcode_keep_unknown_codes() {
    for c in 0..16u8 {
        assert_eq!(OPCODE::deserialize(c).serialize(), c);
        assert_eq!(RCODE::deserialize(c).serialize(), c);
    }
    assert_eq!(OPCODE::deserialize(0), OPCODE::QUERY);
    assert_eq!(OPCODE::deserialize(9), OPCODE::RESERVED(9));
    assert_eq!(RCODE::deserialize(4), RCODE::NotImplemented);
    assert_eq!(RCODE::deserialize(11), RCODE::Reserved(11));
    assert_eq!(RCODE::NotImplemented.serialize(), 4);
}

#[test]
fn cursor_reads_and_bounds() {
    let data = [0x12u8, 0x34, 0x56];
    let mut c = DataWrapper::new(&data);
    assert_eq!(c.pos(), 0);
    assert_eq!(c.peek(), Some(0x34));
    assert_eq!(c.pos(), 0);
    assert_eq!(c.get_u16(), Ok(0x1234));
    assert_eq!(c.pos(), 2);
    assert_eq!(c.peek(), None);
    assert_eq!(c.get_u16(), Err(DecodeError::Truncated));
    assert_eq!(c.pos(), 2);
    assert_eq!(c.get_u8(), Ok(0x56));
    assert_eq!(c.peek(), None);
    assert_eq!(c.get_u8(), Err(DecodeError::Truncated));
    assert_eq!(c.seek(4), None);
    assert_eq!(c.seek(1), Some(()));
    assert_eq!(c.take(2), Ok(vec![0x34, 0x56]));
    assert_eq!(c.pos(), 3);
    assert_eq!(c.seek(1), Some(()));
    assert_eq!(c.take(3), Err(DecodeError::Truncated));
    assert_eq!(c.pos(), 1);
}

#[test]
fn pointer_octets_are_recognised() {
    assert!(is_pointer(&[0xC0, 0x0C]));
    assert!(is_pointer(&[0xFF, 0x00]));
    assert!(!is_pointer(&[0x3F, 0xC0]));
    assert!(!is_pointer(&[0x80, 0xFF]));
}

#[test]
fn name_is_written_uncompressed() {
    assert_eq!(name(&["example", "com"]).serialize(), example_com_bytes());
    assert_eq!(name(&[]).serialize(), vec![0]);
    assert_eq!(name(&["example", "com"]).encoded_len(), 13);
}

#[test]
fn name_constructor_checks_labels() {
    assert_eq!(DNSLabel::new(vec![vec![]]).unwrap_err(), DecodeError::InvalidLabelLength);
    assert_eq!(DNSLabel::new(vec![vec![b'a'; 64]]).unwrap_err(), DecodeError::InvalidLabelLength);
    assert!(DNSLabel::new(vec![vec![b'a'; 63]]).is_ok());
    // four labels of 63 bytes take 4 * 64 + 1 = 257 bytes
    assert_eq!(DNSLabel::new(vec![vec![b'a'; 63]; 4]).unwrap_err(), DecodeError::NameTooLong);
    // three of 63 and one of 61 take exactly 255 bytes
    let mut ok = vec![vec![b'a'; 63]; 3];
    ok.push(vec![b'b'; 61]);
    assert_eq!(DNSLabel::new(ok).unwrap().encoded_len(), 255);
}

#[test]
fn literal_name_decodes() {
    let bytes = example_com_bytes();
    let mut c = DataWrapper::new(&bytes);
    let n = c.follow_label().unwrap();
    assert_eq!(parts(&n), vec![b"example".to_vec(), b"com".to_vec()]);
    assert_eq!(c.pos(), 13);
}

#[test]
fn compressed_name_reads_as_the_literal_one() {
    let mut bytes = vec![0u8; 12];
    bytes.extend_from_slice(&example_com_bytes());
    let ptr_at = bytes.len();
    bytes.extend_from_slice(&[0xC0, 0x0C]);
    bytes.extend_from_slice(&[0xAA]);
    let mut c = DataWrapper::new(&bytes);
    assert_eq!(c.seek(12), Some(()));
    let direct = c.follow_label().unwrap();
    assert_eq!(c.seek(ptr_at), Some(()));
    let via_pointer = c.follow_label().unwrap();
    assert_eq!(parts(&via_pointer), vec![b"example".to_vec(), b"com".to_vec()]);
    assert_eq!(parts(&via_pointer), parts(&direct));
    assert_eq!(c.pos(), ptr_at + 2);
}

#[test]
fn pointer_after_labels_ends_the_name() {
    // "www" then a pointer to "example.com" at offset 0
    let mut bytes = example_com_bytes();
    bytes.extend_from_slice(&[3, b'w', b'w', b'w', 0xC0, 0x00]);
    let mut c = DataWrapper::new(&bytes);
    assert_eq!(c.seek(13), Some(()));
    let n = c.follow_label().unwrap();
    assert_eq!(parts(&n), vec![b"www".to_vec(), b"example".to_vec(), b"com".to_vec()]);
    assert_eq!(c.pos(), bytes.len());
}

#[test]
fn label_of_63_bytes_decodes() {
    let mut bytes = vec![63u8];
    bytes.extend_from_slice(&[b'x'; 63]);
    bytes.push(0);
    let mut c = DataWrapper::new(&bytes);
    let n = c.follow_label().unwrap();
    assert_eq!(parts(&n), vec![vec![b'x'; 63]]);
}

#[test]
fn label_of_64_bytes_is_refused() {
    let mut bytes = vec![64u8];
    bytes.extend_from_slice(&[b'x'; 64]);
    bytes.push(0);
    let mut c = DataWrapper::new(&bytes);
    assert_eq!(c.follow_label().unwrap_err(), DecodeError::InvalidLabelLength);
    let bytes = [191u8, 0, 0];
    let mut c = DataWrapper::new(&bytes);
    assert_eq!(c.follow_label().unwrap_err(), DecodeError::InvalidLabelLength);
}

#[test]
fn label_running_past_the_end_is_refused() {
    let bytes = [5u8, b'a', b'b'];
    let mut c = DataWrapper::new(&bytes);
    assert_eq!(c.follow_label().unwrap_err(), DecodeError::InvalidLabelLength);
}

#[test]
fn missing_terminator_is_truncated() {
    let bytes = [1u8, b'a'];
    let mut c = DataWrapper::new(&bytes);
    assert_eq!(c.follow_label().unwrap_err(), DecodeError::Truncated);
    let bytes = [0xC0u8];
    let mut c = DataWrapper::new(&bytes);
    assert_eq!(c.follow_label().unwrap_err(), DecodeError::Truncated);
}

#[test]
fn self_pointer_is_a_loop() {
    let mut bytes = vec![0u8; 5];
    bytes.extend_from_slice(&[0xC0, 0x05]);
    let mut c = DataWrapper::new(&bytes);
    assert_eq!(c.seek(5), Some(()));
    assert_eq!(c.follow_label().unwrap_err(), DecodeError::PointerLoopExceeded);
}

#[test]
fn two_pointers_in_a_cycle_are_a_loop() {
    let bytes = [0xC0u8, 0x02, 0xC0, 0x00];
    let mut c = DataWrapper::new(&bytes);
    assert_eq!(c.follow_label().unwrap_err(), DecodeError::PointerLoopExceeded);
}

#[test]
fn pointer_past_the_end_is_refused() {
    let bytes = [0xC0u8, 0x02];
    let mut c = DataWrapper::new(&bytes);
    assert_eq!(c.follow_label().unwrap_err(), DecodeError::PointerOutOfBounds);
}

#[test]
fn decoded_name_longer_than_255_is_refused() {
    // four labels of 63 bytes, each but the last followed by a pointer to
    // the next: 4 * 64 + 1 = 257 bytes written out
    let mut bytes = Vec::new();
    for i in 0..4u8 {
        bytes.push(63);
        bytes.extend_from_slice(&[b'a' + i; 63]);
        if i < 3 {
            let next = (bytes.len() + 2) as u8;
            bytes.extend_from_slice(&[0xC0, next]);
        } else {
            bytes.push(0);
        }
    }
    let mut c = DataWrapper::new(&bytes);
    assert_eq!(c.follow_label().unwrap_err(), DecodeError::NameTooLong);
}

#[test]
fn follow_pointer_reads_from_the_target() {
    let mut bytes = example_com_bytes();
    bytes.extend_from_slice(&[0xC0, 0x00]);
    let c = DataWrapper::new(&bytes);
    let mut n = DNSLabel::new(vec![b"mail".to_vec()]).unwrap();
    assert_eq!(c.follow_pointer(13, 1, &mut n), Ok(15));
    assert_eq!(
        parts(&n),
        vec![b"mail".to_vec(), b"example".to_vec(), b"com".to_vec()]
    );
    let mut m = DNSLabel::new(vec![]).unwrap();
    assert_eq!(c.follow_pointer(13, 0, &mut m), Err(DecodeError::PointerLoopExceeded));
}

#[test]
fn header_round_trip() {
    let h = DNSHeader {
        id: 0xBEEF,
        flags: Flags {
            qr: true,
            opcode: OPCODE::IQUERY,
            aa: true,
            tc: false,
            rd: true,
            ra: false,
            z: 3,
            rcode: RCODE::Reserved(9),
        },
        qdcount: 1,
        ancount: 2,
        nscount: 0x0304,
        arcount: 0xFFFF,
    };
    let bytes = h.serialize();
    assert_eq!(
        bytes,
        vec![0xBE, 0xEF, 0b1_0001_1_0_1, 0b0_011_1001, 0, 1, 0, 2, 3, 4, 0xFF, 0xFF]
    );
    let mut c = DataWrapper::new(&bytes);
    assert_eq!(DNSHeader::deserialize(&mut c), Ok(h));
    assert_eq!(c.pos(), 12);
}

#[test]
fn short_header_is_truncated() {
    let bytes = [0u8; 11];
    let mut c = DataWrapper::new(&bytes);
    assert_eq!(DNSHeader::deserialize(&mut c), Err(DecodeError::Truncated));
    assert_eq!(DNSMessage::deserialize(&bytes).unwrap_err(), DecodeError::Truncated);
}

#[test]
fn question_round_trip() {
    let q = DNSQuery { qname: name(&["example", "com"]), qtype: 1, qclass: 1 };
    let bytes = q.serialize();
    let mut expected = example_com_bytes();
    expected.extend_from_slice(&[0, 1, 0, 1]);
    assert_eq!(bytes, expected);
    let mut c = DataWrapper::new(&bytes);
    let back = DNSQuery::deserialize(&mut c).unwrap();
    assert_eq!(parts(&back.qname), parts(&q.qname));
    assert_eq!((back.qtype, back.qclass), (1, 1));
    assert_eq!(c.pos(), bytes.len());
}

#[test]
fn question_without_type_is_truncated() {
    let mut bytes = example_com_bytes();
    bytes.extend_from_slice(&[0, 1, 0]);
    let mut c = DataWrapper::new(&bytes);
    assert_eq!(DNSQuery::deserialize(&mut c).unwrap_err(), DecodeError::Truncated);
}

#[test]
fn resource_round_trip() {
    let r = DNSResource {
        name: name(&["example", "com"]),
        rtype: 1,
        class: 1,
        ttl: 0x0102_0304,
        rdata: vec![8, 8, 4, 4],
    };
    let bytes = r.serialize();
    let mut expected = example_com_bytes();
    expected.extend_from_slice(&[0, 1, 0, 1, 1, 2, 3, 4, 0, 4, 8, 8, 4, 4]);
    assert_eq!(bytes, expected);
    let mut c = DataWrapper::new(&bytes);
    let back = DNSResource::deserialize(&mut c).unwrap();
    assert_eq!(parts(&back.name), parts(&r.name));
    assert_eq!((back.rtype, back.class, back.ttl), (1, 1, 0x0102_0304));
    assert_eq!(back.rdata, vec![8, 8, 4, 4]);
    assert_eq!(c.pos(), bytes.len());
}

#[test]
fn resource_with_short_data_is_truncated() {
    let mut bytes = example_com_bytes();
    bytes.extend_from_slice(&[0, 1, 0, 1, 0, 0, 0, 60, 0, 4, 8, 8, 8]);
    let mut c = DataWrapper::new(&bytes);
    assert_eq!(DNSResource::deserialize(&mut c).unwrap_err(), DecodeError::Truncated);
}

fn request_bytes(id: u16, flags0: u8) -> Vec<u8> {
    let mut b = vec![(id >> 8) as u8, id as u8, flags0, 0x00, 0, 1, 0, 0, 0, 0, 0, 0];
    b.extend_from_slice(&example_com_bytes());
    b.extend_from_slice(&[0, 1, 0, 1]);
    b
}

#[test]
fn request_is_answered_end_to_end() {
    let request = request_bytes(0x1234, 0x00);
    let mut message = DNSMessage::deserialize(&request).unwrap();
    assert_eq!(message.header.id, 0x1234);
    assert_eq!(message.queries.len(), 1);
    message.to_response();
    for i in 0..message.queries.len() {
        let answer = DNSResource {
            name: message.queries[i].qname.clone(),
            rtype: 1,
            class: 1,
            ttl: 60,
            rdata: vec![8, 8, 8, 8],
        };
        message.push_answer(answer);
    }
    let response = message.serialize();

    let back = DNSMessage::deserialize(&response).unwrap();
    assert_eq!(back.header.id, 0x1234);
    assert!(back.header.flags.qr);
    assert_eq!(back.header.flags.opcode, OPCODE::QUERY);
    assert!(!back.header.flags.rd);
    assert_eq!(back.header.flags.rcode, RCODE::NoErr);
    assert_eq!(back.header.qdcount, 1);
    assert_eq!(back.header.ancount, 1);
    assert_eq!(back.header.nscount, 0);
    assert_eq!(back.header.arcount, 0);
    assert_eq!(parts(&back.queries[0].qname), parts(&name(&["example", "com"])));
    let a = &back.resources[0];
    assert_eq!(parts(&a.name), parts(&name(&["example", "com"])));
    assert_eq!((a.rtype, a.class, a.ttl), (1, 1, 60));
    assert_eq!(a.rdata.len(), 4);
    assert_eq!(&response[..12], &[0x12, 0x34, 0x80, 0x00, 0, 1, 0, 1, 0, 0, 0, 0]);
}

#[test]
fn non_query_opcode_gets_not_implemented() {
    // opcode 2 (STATUS) with rd set
    let request = request_bytes(0x0042, 0b0_0010_0_0_1);
    let mut message = DNSMessage::deserialize(&request).unwrap();
    message.to_response();
    assert!(message.header.flags.qr);
    assert!(message.header.flags.rd);
    assert_eq!(message.header.flags.opcode, OPCODE::STATUS);
    assert_eq!(message.header.flags.rcode, RCODE::NotImplemented);
    let out = message.serialize();
    assert_eq!(out[3], 0x04);
}

#[test]
fn encoder_counts_records_not_the_header() {
    let request = request_bytes(7, 0);
    let mut message = DNSMessage::deserialize(&request).unwrap();
    message.header.qdcount = 9;
    message.header.ancount = 9;
    let out = message.serialize();
    assert_eq!(&out[4..12], &[0, 1, 0, 0, 0, 0, 0, 0]);
}

#[test]
fn message_with_all_sections_round_trips() {
    let rec = |n: &[&str], t: u16| DNSResource {
        name: name(n),
        rtype: t,
        class: 1,
        ttl: 300,
        rdata: vec![1, 2, 3],
    };
    let message = DNSMessage {
        header: DNSHeader {
            id: 99,
            flags: plain_flags(),
            qdcount: 0,
            ancount: 0,
            nscount: 0,
            arcount: 0,
        },
        queries: vec![DNSQuery { qname: name(&["a", "b"]), qtype: 28, qclass: 1 }],
        resources: vec![rec(&["a", "b"], 28)],
        authorities: vec![rec(&["ns", "b"], 2), rec(&["b"], 6)],
        additionals: vec![rec(&["x"], 1)],
    };
    let bytes = message.serialize();
    let back = DNSMessage::deserialize(&bytes).unwrap();
    assert_eq!(back.header.id, 99);
    assert_eq!(
        (back.header.qdcount, back.header.ancount, back.header.nscount, back.header.arcount),
        (1, 1, 2, 1)
    );
    assert_eq!(back.authorities[1].rtype, 6);
    assert_eq!(parts(&back.authorities[0].name), vec![b"ns".to_vec(), b"b".to_vec()]);
    assert_eq!(back.additionals[0].rdata, vec![1, 2, 3]);
    assert_eq!(back.serialize(), bytes);
}

#[test]
fn message_with_missing_question_is_truncated() {
    let mut request = request_bytes(1, 0);
    request[5] = 2;
    assert_eq!(DNSMessage::deserialize(&request).unwrap_err(), DecodeError::Truncated);
}

#[test]
fn bit_fields_pack_first_field_high() {
    assert_eq!(pack(&vec![1, 2, 1, 0, 1], &vec![1, 4, 1, 1, 1]), 0b1_0010_1_0_1);
    assert_eq!(pack(&vec![0xAB], &vec![8]), 0xAB);
    assert_eq!(pack(&vec![3, 0, 5], &vec![2, 3, 3]), 0b11_000_101);
}

#[test]
fn bit_fields_are_masked_to_their_width() {
    assert_eq!(pack(&vec![0xFF, 0xFF, 0xFF], &vec![1, 3, 4]), 0xFF);
    assert_eq!(pack(&vec![2, 9, 0x13], &vec![1, 3, 4]), 0b0_001_0011);
}

#[test]
fn bit_fields_unpack_is_the_inverse() {
    assert_eq!(unpack(0b1_101_0011, &vec![1, 3, 4]), vec![1, 5, 3]);
    assert_eq!(unpack(0xFF, &vec![8]), vec![0xFF]);
    let layouts: Vec<Vec<u8>> =
        vec![vec![1, 4, 1, 1, 1], vec![1, 3, 4], vec![8], vec![2, 2, 2, 2], vec![1; 8]];
    for w in &layouts {
        for b in 0..=255u8 {
            assert_eq!(pack(&unpack(b, w), w), b);
        }
    }
}
