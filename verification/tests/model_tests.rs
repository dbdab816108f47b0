use ldap_protocol::common::calculate_len;
use ldap_protocol::common::construct;
use ldap_protocol::common::Class;
use ldap_protocol::common::ClassNumber;
use ldap_protocol::common::Payload;
use ldap_protocol::common::Structure;
use ldap_protocol::common::Type;
use ldap_protocol::common::UniversalTypes;
use ldap_protocol::error::ASN1Error;

#[test]
fn length_field_boundary_at_128() {
    let t = Type {
        class: Class::Universal(UniversalTypes::OctetString),
        structure: Structure::Primitive,
    };
    // Payload of 127: one type byte + one short-form length byte.
    assert_eq!(calculate_len(&t, &127), 1 + 1 + 127);
    // Payload of 128: one type byte + a count byte and one value byte.
    assert_eq!(calculate_len(&t, &128), 1 + 2 + 128);
}

#[test]
fn tag_number_size_boundary_at_31() {
    // 30 fits the five-bit field; 31 is the reserved escape, so from 31 on
    // the type field costs the leading byte plus the base-128 groups.
    let t = Type {
        class: Class::Application(30),
        structure: Structure::Primitive,
    };
    assert_eq!(calculate_len(&t, &0), 1 + 1);
    let t = Type {
        class: Class::Application(31),
        structure: Structure::Primitive,
    };
    assert_eq!(calculate_len(&t, &0), 2 + 1);
    let t = Type {
        class: Class::Application(127),
        structure: Structure::Primitive,
    };
    assert_eq!(calculate_len(&t, &0), 2 + 1);
    let t = Type {
        class: Class::Application(128),
        structure: Structure::Primitive,
    };
    assert_eq!(calculate_len(&t, &0), 3 + 1);
}

#[test]
fn undefined_universal_codes_fail() {
    assert_eq!(UniversalTypes::from_u8(14), Err(ASN1Error::InvalidASN1));
    assert_eq!(UniversalTypes::from_u8(15), Err(ASN1Error::InvalidASN1));
    assert_eq!(UniversalTypes::from_u8(31), Err(ASN1Error::InvalidASN1));
    assert_eq!(UniversalTypes::from_u8(200), Err(ASN1Error::InvalidASN1));
}

#[test]
fn defined_universal_codes_round_trip() {
    for v in 0u8..=30 {
        if v == 14 || v == 15 {
            continue;
        }
        let u = UniversalTypes::from_u8(v).unwrap();
        assert_eq!(u.code(), v);
    }
}

#[test]
fn class_construct_selects_variants() {
    assert_eq!(
        Class::construct(0, 1),
        Ok(Class::Universal(UniversalTypes::Boolean))
    );
    assert_eq!(Class::construct(1, 44), Ok(Class::Application(44)));
    assert_eq!(Class::construct(2, 0), Ok(Class::ContextSpecific(0)));
    assert_eq!(Class::construct(3, 99), Ok(Class::Private(99)));
    assert_eq!(Class::construct(4, 0), Err(ASN1Error::InvalidASN1));
    assert_eq!(Class::construct(0, 14), Err(ASN1Error::InvalidASN1));
    // The whole number must be a defined code: nothing is discarded
    // before the lookup.
    assert_eq!(Class::construct(0, 31), Err(ASN1Error::InvalidASN1));
    assert_eq!(Class::construct(0, 256), Err(ASN1Error::InvalidASN1));
    assert_eq!(Class::construct(0, 257), Err(ASN1Error::InvalidASN1));
}

#[test]
fn class_number_from_selector() {
    assert!(matches!(ClassNumber::from_u8(0), ClassNumber::Universal));
    assert!(matches!(ClassNumber::from_u8(1), ClassNumber::Application));
    assert!(matches!(ClassNumber::from_u8(2), ClassNumber::ContextSpecific));
    assert!(matches!(ClassNumber::from_u8(3), ClassNumber::Private));
}

#[test]
fn structure_from_bit() {
    assert_eq!(Structure::from_u8(0), Structure::Primitive);
    assert_eq!(Structure::from_u8(1), Structure::Constructed);
}

#[test]
fn constructed_length_sums_child_total_sizes() {
    let a = construct(
        Class::Universal(UniversalTypes::OctetString),
        Payload::Primitive(vec![0; 3]),
    );
    let b = construct(
        Class::Universal(UniversalTypes::OctetString),
        Payload::Primitive(vec![0; 200]),
    );
    assert_eq!(a.size, 1 + 1 + 3);
    assert_eq!(b.size, 1 + 2 + 200);
    let parent = construct(
        Class::Universal(UniversalTypes::Sequence),
        Payload::Constructed(vec![a, b]),
    );
    // The declared length sums the children's full encoded sizes, not just
    // their payload lengths (3 + 200).
    assert_eq!(parent._length, 5 + 203);
    assert_eq!(parent.size, 1 + 2 + 208);
}

#[test]
fn payload_len_rules() {
    let p = Payload::Primitive(vec![1, 2, 3, 4]);
    assert_eq!(p.len(), 4);
    let child = construct(
        Class::Universal(UniversalTypes::Null),
        Payload::Primitive(vec![]),
    );
    let size = child.size;
    let c = Payload::Constructed(vec![child]);
    assert_eq!(c.len(), size);
    let empty = Payload::Constructed(vec![]);
    assert_eq!(empty.len(), 0);
}

#[test]
fn construct_derives_structure_and_invariants() {
    let t = construct(
        Class::Universal(UniversalTypes::Boolean),
        Payload::Primitive(vec![0x00]),
    );
    assert_eq!(t._type.structure, Structure::Primitive);
    assert_eq!(t._length, 1);
    assert_eq!(t.size, 3);
    let s = construct(
        Class::Universal(UniversalTypes::Sequence),
        Payload::Constructed(vec![]),
    );
    assert_eq!(s._type.structure, Structure::Constructed);
    assert_eq!(s._length, 0);
    assert_eq!(s.size, 2);
}
