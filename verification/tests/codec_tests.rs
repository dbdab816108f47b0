use ldap_protocol::codec::decode;
use ldap_protocol::codec::encode;
use ldap_protocol::codec::encode_tag;
use ldap_protocol::common::construct;
use ldap_protocol::common::Class;
use ldap_protocol::common::Payload;
use ldap_protocol::common::Structure;
use ldap_protocol::common::UniversalTypes;
use ldap_protocol::error::ASN1Error;

#[test]
fn round_trip_primitive() {
    let tag = construct(
        Class::Universal(UniversalTypes::OctetString),
        Payload::Primitive(vec![1, 2, 3]),
    );
    let bytes = encode_tag(&tag);
    assert_eq!(bytes, vec![0x04, 0x03, 1, 2, 3]);
    let (decoded, used) = decode(&bytes).unwrap();
    assert_eq!(used, bytes.len());
    assert_eq!(decoded, tag);
}

#[test]
fn round_trip_nested_constructed() {
    let inner_a = construct(
        Class::Universal(UniversalTypes::OctetString),
        Payload::Primitive(vec![9; 3]),
    );
    let inner_b = construct(Class::ContextSpecific(7), Payload::Primitive(vec![0xAB, 0xCD]));
    let middle = construct(
        Class::Universal(UniversalTypes::Sequence),
        Payload::Constructed(vec![inner_a, inner_b]),
    );
    let outer = construct(Class::Application(2), Payload::Constructed(vec![middle]));
    let bytes = encode_tag(&outer);
    let (decoded, used) = decode(&bytes).unwrap();
    assert_eq!(used, bytes.len());
    assert_eq!(decoded, outer);
}

#[test]
fn round_trip_long_tag_number() {
    // 5000 needs two base-128 groups: the cached size and the wire agree.
    let tag = construct(Class::Application(5000), Payload::Primitive(vec![0x42]));
    let bytes = encode_tag(&tag);
    // 5000 = 39 * 128 + 8, so the groups are 0xA7 0x08.
    assert_eq!(bytes, vec![0x5F, 0xA7, 0x08, 0x01, 0x42]);
    assert_eq!(tag.size, bytes.len() as u64);
    let (decoded, used) = decode(&bytes).unwrap();
    assert_eq!(used, bytes.len());
    assert_eq!(decoded, tag);
}

#[test]
fn round_trip_long_length() {
    let tag = construct(
        Class::Universal(UniversalTypes::OctetString),
        Payload::Primitive(vec![7; 300]),
    );
    let bytes = encode_tag(&tag);
    assert_eq!(bytes[0], 0x04);
    assert_eq!(bytes[1], 0x82);
    assert_eq!(bytes[2], 0x01);
    assert_eq!(bytes[3], 0x2C);
    assert_eq!(bytes.len(), 4 + 300);
    let (decoded, used) = decode(&bytes).unwrap();
    assert_eq!(used, bytes.len());
    assert_eq!(decoded, tag);
}

#[test]
fn decode_ignores_trailing_bytes() {
    let mut bytes = vec![0x04, 0x02, 0xAA, 0xBB];
    bytes.extend_from_slice(&[0xFF, 0xFF, 0xFF]);
    let (decoded, used) = decode(&bytes).unwrap();
    assert_eq!(used, 4);
    assert_eq!(decoded._length, 2);
    assert_eq!(decoded.size, 4);
}

#[test]
fn tag_number_thirty_stays_in_first_byte() {
    let tag = construct(Class::Application(30), Payload::Primitive(vec![]));
    let bytes = encode_tag(&tag);
    assert_eq!(bytes, vec![0x5E, 0x00]);
}

#[test]
fn tag_number_thirty_one_escapes() {
    // 31 fits in five bits, but 0x1F is reserved, so it must use the escape.
    let tag = construct(Class::Application(31), Payload::Primitive(vec![]));
    let bytes = encode_tag(&tag);
    assert_eq!(bytes, vec![0x5F, 0x1F, 0x00]);
}

#[test]
fn round_trip_escaped_small_number() {
    // 31 fits five bits but 0x1F is reserved, so the type field is two
    // bytes; the cached size counts them and the round trip is exact.
    let tag = construct(Class::Application(31), Payload::Primitive(vec![]));
    assert_eq!(tag.size, 3);
    let bytes = encode_tag(&tag);
    assert_eq!(bytes, vec![0x5F, 0x1F, 0x00]);
    let (decoded, used) = decode(&bytes).unwrap();
    assert_eq!(used, 3);
    assert_eq!(decoded, tag);
}

#[test]
fn envelope_with_escaped_operation_tag() {
    let op = construct(Class::Application(31), Payload::Primitive(vec![]));
    let bytes = encode(op, 0).unwrap();
    assert_eq!(bytes, vec![0x30, 0x06, 0x02, 0x01, 0x00, 0x5F, 0x1F, 0x00]);
    let (decoded, used) = decode(&bytes).unwrap();
    assert_eq!(used, bytes.len());
    assert_eq!(decoded._length, 6);
}

#[test]
fn envelope_encodes_and_decodes() {
    let op = construct(
        Class::Universal(UniversalTypes::Boolean),
        Payload::Primitive(vec![0xFF]),
    );
    let bytes = encode(op, 1).unwrap();
    assert_eq!(bytes, vec![0x30, 0x06, 0x02, 0x01, 0x01, 0x01, 0x01, 0xFF]);
    let (decoded, used) = decode(&bytes).unwrap();
    assert_eq!(used, bytes.len());
    assert_eq!(decoded._type.class, Class::Universal(UniversalTypes::Sequence));
    assert_eq!(decoded._type.structure, Structure::Constructed);
    match &decoded._value {
        Payload::Constructed(children) => {
            assert_eq!(children.len(), 2);
            assert_eq!(
                children[0]._type.class,
                Class::Universal(UniversalTypes::Integer)
            );
            assert_eq!(children[0]._value, Payload::Primitive(vec![0x01]));
            assert_eq!(
                children[1]._type.class,
                Class::Universal(UniversalTypes::Boolean)
            );
            assert_eq!(children[1]._value, Payload::Primitive(vec![0xFF]));
        }
        Payload::Primitive(_) => panic!("envelope decoded as primitive"),
    }
}

#[test]
fn envelope_negative_message_id() {
    let op = construct(Class::Universal(UniversalTypes::Null), Payload::Primitive(vec![]));
    let bytes = encode(op, -129).unwrap();
    // -129 is 0xFF7F in minimal two's complement.
    assert_eq!(bytes, vec![0x30, 0x06, 0x02, 0x02, 0xFF, 0x7F, 0x05, 0x00]);
}

#[test]
fn truncated_type_only_buffer_fails() {
    assert_eq!(decode(&[0x04]), Err(ASN1Error::InvalidASN1));
}

#[test]
fn empty_buffer_fails() {
    assert_eq!(decode(&[]), Err(ASN1Error::InvalidASN1));
}

#[test]
fn truncated_payload_fails() {
    assert_eq!(decode(&[0x04, 0x05, 0x01]), Err(ASN1Error::InvalidASN1));
}

#[test]
fn truncated_long_length_fails() {
    assert_eq!(decode(&[0x04, 0x82, 0x01]), Err(ASN1Error::InvalidASN1));
}

#[test]
fn indefinite_length_fails_with_unsupported_form() {
    assert_eq!(decode(&[0x04, 0x80]), Err(ASN1Error::UnsupportedForm));
    assert_eq!(decode(&[0x30, 0x80]), Err(ASN1Error::UnsupportedForm));
}

#[test]
fn child_overrunning_parent_fails() {
    // The sequence declares two payload bytes but its child occupies three.
    assert_eq!(
        decode(&[0x30, 0x02, 0x01, 0x01, 0xFF]),
        Err(ASN1Error::InvalidASN1)
    );
}

#[test]
fn undefined_universal_code_on_wire_fails() {
    assert_eq!(decode(&[0x0E, 0x00]), Err(ASN1Error::InvalidASN1));
    assert_eq!(decode(&[0x0F, 0x00]), Err(ASN1Error::InvalidASN1));
    // The escape form resolving to 31 itself is also invalid for universal.
    assert_eq!(decode(&[0x1F, 0x1F, 0x00]), Err(ASN1Error::InvalidASN1));
    // An escaped universal number above the defined codes is invalid in
    // full: 0x82 0x00 encodes tag number 256, which must not be read as
    // code 0.
    assert_eq!(decode(&[0x1F, 0x82, 0x00, 0x00]), Err(ASN1Error::InvalidASN1));
}

#[test]
fn well_formedness_is_checkable_at_run_time() {
    let good = construct(
        Class::Universal(UniversalTypes::OctetString),
        Payload::Primitive(vec![1, 2]),
    );
    assert!(ldap_protocol::common::tag_well_formed(&good));
    // A decoded tag keeps the size it occupied on the wire; a non-minimal
    // long-form length makes that size non-canonical, so such a tag is not
    // well formed and must not be handed to the encoder.
    let (odd, _) = decode(&[0x04, 0x81, 0x00]).unwrap();
    assert_eq!(odd.size, 3);
    assert!(!ldap_protocol::common::tag_well_formed(&odd));
    let bad = ldap_protocol::common::Tag {
        _type: good._type,
        _length: 5,
        _value: good._value,
        size: good.size,
    };
    assert!(!ldap_protocol::common::tag_well_formed(&bad));
}

#[test]
fn oversized_tag_number_on_wire_fails() {
    // Ten continuation bytes exceed what an i64 tag number can hold.
    let bytes = [0x5F, 0xFF, 0xFF, 0xFF, 0xFF, 0xFF, 0xFF, 0xFF, 0xFF, 0xFF, 0x7F, 0x00];
    assert_eq!(decode(&bytes), Err(ASN1Error::InvalidASN1));
}
