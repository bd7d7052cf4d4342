use udp_nat_trav::attribute::{Attribute, AttributeType};
use udp_nat_trav::errors::{foo, ParseError, ReadErrorKind};
use udp_nat_trav::message::{Message, MessageClass, BINDING};
use udp_nat_trav::payload::{
    decode_alpha_payload, decode_beta_payload, decode_text, find_separator, parse_query_request,
    parse_u16_field,
};

#[test]
fn attribute_type_codes() {
    assert_eq!(AttributeType::Unknown.bytes(), [0x00, 0x00]);
    assert_eq!(AttributeType::MappedAddress.bytes(), [0x00, 0x01]);
    assert_eq!(AttributeType::Software.bytes(), [0x80, 0x22]);
    assert_eq!(AttributeType::from_bytes(&[0x00, 0x01]), AttributeType::MappedAddress);
    assert_eq!(AttributeType::from_bytes(&[0x80, 0x22]), AttributeType::Software);
    assert_eq!(AttributeType::from_bytes(&[0x80, 0x23]), AttributeType::Unknown);
    assert_eq!(AttributeType::from_bytes(&[0x00, 0x01, 0x00]), AttributeType::Unknown);
}

#[test]
fn attribute_encoding_is_padded() {
    let a = Attribute { attrib_type: AttributeType::Software, value: vec![0x61, 0x62, 0x63, 0x64, 0x65] };
    assert_eq!(
        a.bytes(),
        vec![0x80, 0x22, 0x00, 0x05, 0x61, 0x62, 0x63, 0x64, 0x65, 0x00, 0x00, 0x00]
    );
    let b = Attribute { attrib_type: AttributeType::MappedAddress, value: vec![1, 2, 3, 4] };
    assert_eq!(b.bytes(), vec![0x00, 0x01, 0x00, 0x04, 1, 2, 3, 4]);
}

#[test]
fn attribute_decoding_consumes_its_bytes() {
    let mut buf = vec![0x80, 0x22, 0x00, 0x03, 0x61, 0x62, 0x63, 0x00, 0xaa];
    let a = Attribute::from_bytes(&mut buf);
    assert_eq!(a.attrib_type, AttributeType::Software);
    assert_eq!(a.value, vec![0x61, 0x62, 0x63]);
    assert_eq!(buf, vec![0x00, 0xaa]);
}

#[test]
fn binding_request_encoding() {
    let id = [1u8, 2, 3, 4, 5, 6, 7, 8, 9, 10, 11, 12];
    let m = Message { method: BINDING, class: MessageClass::Request, id, attributes: Vec::new() };
    let mut expected = vec![0x00, 0x01, 0x00, 0x00, 0x21, 0x12, 0xA4, 0x42];
    expected.extend_from_slice(&id);
    assert_eq!(m.bytes(), expected);

    let attr = Attribute { attrib_type: AttributeType::Software, value: vec![0x61] };
    let m = Message { method: BINDING, class: MessageClass::Request, id, attributes: vec![attr] };
    let bytes = m.bytes();
    assert_eq!(&bytes[2..4], &[0x00, 0x08]);
    assert_eq!(&bytes[20..], &[0x80, 0x22, 0x00, 0x01, 0x61, 0x00, 0x00, 0x00]);
}

#[test]
fn foo_fails_with_parse_error() {
    let e = foo().unwrap_err();
    assert_eq!(e.kind, ReadErrorKind::Parse(ParseError));
    assert_eq!(e.message(), "read error");
    assert_eq!(e.source(), Some(ParseError));
    assert_eq!(ParseError.message(), "failed to parse file on line XX");
}

#[test]
fn text_decoding_checks_utf8() {
    assert_eq!(decode_text("héllo".as_bytes()), Some(String::from("héllo")));
    assert_eq!(decode_text(&[0x68, 0xc3]), None);
    assert_eq!(decode_text(&[]), Some(String::new()));
    assert_eq!(decode_alpha_payload(b"peer-7"), Some(String::from("peer-7")));
    assert_eq!(decode_alpha_payload(&[0xff]), None);
}

#[test]
fn separators_and_numbers() {
    assert_eq!(find_separator(b"ab#c#", 0), 2);
    assert_eq!(find_separator(b"ab#c#", 3), 4);
    assert_eq!(find_separator(b"ab#c#", 5), 5);
    assert_eq!(find_separator(b"abc", 9), 3);
    assert_eq!(parse_u16_field(b"x30000y", 1, 6), Some(30000));
    assert_eq!(parse_u16_field(b"0065535", 0, 7), Some(65535));
    assert_eq!(parse_u16_field(b"65536", 0, 5), None);
    assert_eq!(parse_u16_field(b"99999999999", 0, 11), None);
    assert_eq!(parse_u16_field(b"+12", 0, 3), Some(12));
    assert_eq!(parse_u16_field(b"++12", 0, 4), None);
    assert_eq!(parse_u16_field(b"", 0, 0), None);
    assert_eq!(parse_u16_field(b"1a", 0, 2), None);
}

#[test]
fn beta_payload_fields() {
    let p = decode_beta_payload(b"p1#30001#1").unwrap();
    assert_eq!(p.peer_id, "p1");
    assert_eq!(p.claimed_origin_port, 30001);
    assert_eq!(p.sequence_number, 1);
    let p = decode_beta_payload("ünï#0#0#rest".as_bytes()).unwrap();
    assert_eq!(p.peer_id, "ünï");
    let p = decode_beta_payload(b"#5#6").unwrap();
    assert_eq!(p.peer_id, "");
    assert!(decode_beta_payload(b"p1#30001").is_none());
    assert!(decode_beta_payload(b"p1##1").is_none());
}

#[test]
fn query_request_fields() {
    assert_eq!(
        parse_query_request(b"p1#p2"),
        Some((String::from("p1"), String::from("p2")))
    );
    assert_eq!(
        parse_query_request(b"p1#p2#p3"),
        Some((String::from("p1"), String::from("p2")))
    );
    assert_eq!(parse_query_request(b"p1#"), Some((String::from("p1"), String::new())));
    assert_eq!(parse_query_request(b"p1"), None);
    assert_eq!(parse_query_request(&[0x23, 0xff]), None);
}

#[test]
fn message_type_keeps_its_bytes() {
    let t = udp_nat_trav::message::MessageType::from_bytes(vec![0x01, 0x01]);
    assert_eq!(t.bytes(), &vec![0x01, 0x01]);
}
