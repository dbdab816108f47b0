//! The BER type model: tag classes, universal type codes, the structure
//! flag, payloads and tags, together with the mathematical model the
//! contracts are stated over and the length calculator.

use vstd::prelude::*;

use crate::error::ASN1Error;

verus! {

/// The universal-class type codes defined by BER: 0..=13 and 16..=30.
/// Codes 14 and 15 are undefined, and 31 is reserved as the long-form
/// tag-number escape, so none of the three is a defined universal type.
#[derive(Debug, PartialEq, Eq, Clone, Copy)]
pub enum UniversalTypes {
    Eoc,
    Boolean,
    Integer,
    BitString,
    OctetString,
    Null,
    ObjectIdentifier,
    ObjectDescriptor,
    External,
    Real,
    Enumerated,
    EmbeddedPdv,
    Utf8String,
    RelativeOid,
    Sequence,
    SetOf,
    NumericString,
    PrintableString,
    T61String,
    VideotexString,
    Ia5String,
    UtcTime,
    GeneralizedTime,
    GraphicString,
    VisibleString,
    GeneralString,
    UniversalString,
    CharacterString,
    BmpString,
}

/// The numeric code of a universal type.
pub open spec fn universal_code(u: UniversalTypes) -> int {
    match u {
        UniversalTypes::Eoc => 0,
        UniversalTypes::Boolean => 1,
        UniversalTypes::Integer => 2,
        UniversalTypes::BitString => 3,
        UniversalTypes::OctetString => 4,
        UniversalTypes::Null => 5,
        UniversalTypes::ObjectIdentifier => 6,
        UniversalTypes::ObjectDescriptor => 7,
        UniversalTypes::External => 8,
        UniversalTypes::Real => 9,
        UniversalTypes::Enumerated => 10,
        UniversalTypes::EmbeddedPdv => 11,
        UniversalTypes::Utf8String => 12,
        UniversalTypes::RelativeOid => 13,
        UniversalTypes::Sequence => 16,
        UniversalTypes::SetOf => 17,
        UniversalTypes::NumericString => 18,
        UniversalTypes::PrintableString => 19,
        UniversalTypes::T61String => 20,
        UniversalTypes::VideotexString => 21,
        UniversalTypes::Ia5String => 22,
        UniversalTypes::UtcTime => 23,
        UniversalTypes::GeneralizedTime => 24,
        UniversalTypes::GraphicString => 25,
        UniversalTypes::VisibleString => 26,
        UniversalTypes::GeneralString => 27,
        UniversalTypes::UniversalString => 28,
        UniversalTypes::CharacterString => 29,
        UniversalTypes::BmpString => 30,
    }
}

/// Whether `v` is one of the defined universal type codes.
pub open spec fn valid_universal_code(v: u8) -> bool {
    v <= 30 && v != 14 && v != 15
}

/// The universal type with code `v`, for the defined codes.
pub open spec fn universal_from_code(v: u8) -> UniversalTypes {
    if v == 0 { UniversalTypes::Eoc }
    else if v == 1 { UniversalTypes::Boolean }
    else if v == 2 { UniversalTypes::Integer }
    else if v == 3 { UniversalTypes::BitString }
    else if v == 4 { UniversalTypes::OctetString }
    else if v == 5 { UniversalTypes::Null }
    else if v == 6 { UniversalTypes::ObjectIdentifier }
    else if v == 7 { UniversalTypes::ObjectDescriptor }
    else if v == 8 { UniversalTypes::External }
    else if v == 9 { UniversalTypes::Real }
    else if v == 10 { UniversalTypes::Enumerated }
    else if v == 11 { UniversalTypes::EmbeddedPdv }
    else if v == 12 { UniversalTypes::Utf8String }
    else if v == 13 { UniversalTypes::RelativeOid }
    else if v == 16 { UniversalTypes::Sequence }
    else if v == 17 { UniversalTypes::SetOf }
    else if v == 18 { UniversalTypes::NumericString }
    else if v == 19 { UniversalTypes::PrintableString }
    else if v == 20 { UniversalTypes::T61String }
    else if v == 21 { UniversalTypes::VideotexString }
    else if v == 22 { UniversalTypes::Ia5String }
    else if v == 23 { UniversalTypes::UtcTime }
    else if v == 24 { UniversalTypes::GeneralizedTime }
    else if v == 25 { UniversalTypes::GraphicString }
    else if v == 26 { UniversalTypes::VisibleString }
    else if v == 27 { UniversalTypes::GeneralString }
    else if v == 28 { UniversalTypes::UniversalString }
    else if v == 29 { UniversalTypes::CharacterString }
    else { UniversalTypes::BmpString }
}

impl UniversalTypes {
    /// Maps a 5-bit universal type code to its type; the undefined codes
    /// 14 and 15, the reserved escape 31, and anything larger are rejected.
    pub fn from_u8(v: u8) -> (r: Result<UniversalTypes, ASN1Error>)
        ensures
            valid_universal_code(v) ==> r == Ok::<UniversalTypes, ASN1Error>(universal_from_code(v)),
            !valid_universal_code(v) ==> r == Err::<UniversalTypes, ASN1Error>(ASN1Error::InvalidASN1),
            r matches Ok(u) ==> universal_code(u) == v as int,
    {
        match v {
            0 => Ok(UniversalTypes::Eoc),
            1 => Ok(UniversalTypes::Boolean),
            2 => Ok(UniversalTypes::Integer),
            3 => Ok(UniversalTypes::BitString),
            4 => Ok(UniversalTypes::OctetString),
            5 => Ok(UniversalTypes::Null),
            6 => Ok(UniversalTypes::ObjectIdentifier),
            7 => Ok(UniversalTypes::ObjectDescriptor),
            8 => Ok(UniversalTypes::External),
            9 => Ok(UniversalTypes::Real),
            10 => Ok(UniversalTypes::Enumerated),
            11 => Ok(UniversalTypes::EmbeddedPdv),
            12 => Ok(UniversalTypes::Utf8String),
            13 => Ok(UniversalTypes::RelativeOid),
            16 => Ok(UniversalTypes::Sequence),
            17 => Ok(UniversalTypes::SetOf),
            18 => Ok(UniversalTypes::NumericString),
            19 => Ok(UniversalTypes::PrintableString),
            20 => Ok(UniversalTypes::T61String),
            21 => Ok(UniversalTypes::VideotexString),
            22 => Ok(UniversalTypes::Ia5String),
            23 => Ok(UniversalTypes::UtcTime),
            24 => Ok(UniversalTypes::GeneralizedTime),
            25 => Ok(UniversalTypes::GraphicString),
            26 => Ok(UniversalTypes::VisibleString),
            27 => Ok(UniversalTypes::GeneralString),
            28 => Ok(UniversalTypes::UniversalString),
            29 => Ok(UniversalTypes::CharacterString),
            30 => Ok(UniversalTypes::BmpString),
            _ => Err(ASN1Error::InvalidASN1),
        }
    }

    /// The numeric code of this universal type.
    pub fn code(&self) -> (r: u8)
        ensures
            r as int == universal_code(*self),
    {
        match self {
            UniversalTypes::Eoc => 0,
            UniversalTypes::Boolean => 1,
            UniversalTypes::Integer => 2,
            UniversalTypes::BitString => 3,
            UniversalTypes::OctetString => 4,
            UniversalTypes::Null => 5,
            UniversalTypes::ObjectIdentifier => 6,
            UniversalTypes::ObjectDescriptor => 7,
            UniversalTypes::External => 8,
            UniversalTypes::Real => 9,
            UniversalTypes::Enumerated => 10,
            UniversalTypes::EmbeddedPdv => 11,
            UniversalTypes::Utf8String => 12,
            UniversalTypes::RelativeOid => 13,
            UniversalTypes::Sequence => 16,
            UniversalTypes::SetOf => 17,
            UniversalTypes::NumericString => 18,
            UniversalTypes::PrintableString => 19,
            UniversalTypes::T61String => 20,
            UniversalTypes::VideotexString => 21,
            UniversalTypes::Ia5String => 22,
            UniversalTypes::UtcTime => 23,
            UniversalTypes::GeneralizedTime => 24,
            UniversalTypes::GraphicString => 25,
            UniversalTypes::VisibleString => 26,
            UniversalTypes::GeneralString => 27,
            UniversalTypes::UniversalString => 28,
            UniversalTypes::CharacterString => 29,
            UniversalTypes::BmpString => 30,
        }
    }
}

/// A tag's class: universal types carry their specific type, the other
/// three classes carry a non-negative tag number.
#[derive(Debug, PartialEq, Eq, Clone, Copy)]
pub enum Class {
    Universal(UniversalTypes),
    Application(i64),
    ContextSpecific(i64),
    Private(i64),
}

/// The 2-bit class selector of a class.
pub open spec fn class_sel(c: Class) -> int {
    match c {
        Class::Universal(_) => 0,
        Class::Application(_) => 1,
        Class::ContextSpecific(_) => 2,
        Class::Private(_) => 3,
    }
}

/// The tag number of a class: the universal type code, or the number the
/// class carries.
pub open spec fn class_number(c: Class) -> int {
    match c {
        Class::Universal(u) => universal_code(u),
        Class::Application(n) => n as int,
        Class::ContextSpecific(n) => n as int,
        Class::Private(n) => n as int,
    }
}

/// A class is well formed when its tag number is non-negative.
pub open spec fn class_wf(c: Class) -> bool {
    match c {
        Class::Universal(_) => true,
        Class::Application(n) => 0 <= n,
        Class::ContextSpecific(n) => 0 <= n,
        Class::Private(n) => 0 <= n,
    }
}

/// What `Class::construct` returns: class 0 requires the whole number to
/// be a defined universal type code; classes 1 to 3 accept any number;
/// other selectors are invalid.
pub open spec fn spec_class_construct(class: int, number: int) -> Result<Class, ASN1Error> {
    if class == 0 {
        if 0 <= number <= 255 && valid_universal_code(number as u8) {
            Ok(Class::Universal(universal_from_code(number as u8)))
        } else {
            Err(ASN1Error::InvalidASN1)
        }
    } else if class == 1 {
        Ok(Class::Application(number as i64))
    } else if class == 2 {
        Ok(Class::ContextSpecific(number as i64))
    } else if class == 3 {
        Ok(Class::Private(number as i64))
    } else {
        Err(ASN1Error::InvalidASN1)
    }
}

impl Class {
    /// Builds a `Class` from the 2-bit class selector and a decoded tag
    /// number. For class 0 (universal) the number itself, in full, must be
    /// a defined universal type code; any selector above 3 is invalid.
    pub fn construct(class: u8, number: i64) -> (r: Result<Class, ASN1Error>)
        requires
            0 <= number,
        ensures
            r == spec_class_construct(class as int, number as int),
    {
        match class {
            0 => {
                if number > 255 {
                    Err(ASN1Error::InvalidASN1)
                } else {
                    match UniversalTypes::from_u8(number as u8) {
                        Ok(u) => Ok(Class::Universal(u)),
                        Err(e) => Err(e),
                    }
                }
            },
            1 => Ok(Class::Application(number)),
            2 => Ok(Class::ContextSpecific(number)),
            3 => Ok(Class::Private(number)),
            _ => Err(ASN1Error::InvalidASN1),
        }
    }
}

/// The numerical representation of a tag's class.
#[derive(Debug, Clone, Copy)]
pub enum ClassNumber {
    Universal,
    Application,
    ContextSpecific,
    Private,
}

/// The numeric value of a class number.
pub open spec fn class_number_code(c: ClassNumber) -> int {
    match c {
        ClassNumber::Universal => 0,
        ClassNumber::Application => 1,
        ClassNumber::ContextSpecific => 2,
        ClassNumber::Private => 3,
    }
}

impl ClassNumber {
    /// Maps the 2-bit class selector to its name; the selector field is
    /// exactly two bits wide, so anything above 3 is a caller error.
    pub fn from_u8(v: u8) -> (r: ClassNumber)
        requires
            v <= 3,
        ensures
            class_number_code(r) == v as int,
    {
        match v {
            0 => ClassNumber::Universal,
            1 => ClassNumber::Application,
            2 => ClassNumber::ContextSpecific,
            _ => ClassNumber::Private,
        }
    }
}

/// Whether a payload is raw bytes or a sequence of nested tags.
#[derive(Debug, PartialEq, Eq, Clone, Copy)]
pub enum Structure {
    Primitive,
    Constructed,
}

/// The structure flag as the single wire bit it occupies.
pub open spec fn structure_bit(s: Structure) -> int {
    match s {
        Structure::Primitive => 0,
        Structure::Constructed => 1,
    }
}

impl Structure {
    /// Maps the structure bit to its meaning; the field is exactly one bit
    /// wide, so anything above 1 is a caller error.
    pub fn from_u8(v: u8) -> (r: Structure)
        requires
            v <= 1,
        ensures
            structure_bit(r) == v as int,
    {
        if v == 0 {
            Structure::Primitive
        } else {
            Structure::Constructed
        }
    }
}

/// A tag's type: its class together with its structure flag. The pair
/// fully determines how the first byte(s) of a tag are rendered.
#[derive(Debug, PartialEq, Eq, Clone, Copy)]
pub struct Type {
    pub class: Class,
    pub structure: Structure,
}

/// A tag's payload: raw bytes, or an ordered sequence of child tags.
#[derive(Debug, PartialEq, Eq)]
pub enum Payload {
    Primitive(Vec<u8>),
    Constructed(Vec<Tag>),
}

/// One decoded or to-be-encoded unit: type, declared payload length,
/// payload, and the cached total encoded size (type bytes + length bytes +
/// payload bytes).
#[derive(Debug, PartialEq, Eq)]
pub struct Tag {
    pub _type: Type,
    pub _length: u64,
    pub _value: Payload,
    pub size: u64,
}

/// The mathematical model of a payload.
#[verifier::ext_equal]
pub enum PayloadV {
    Primitive(Seq<u8>),
    Constructed(Seq<TagV>),
}

/// The mathematical model of a tag.
#[verifier::ext_equal]
pub struct TagV {
    pub class: Class,
    pub structure: Structure,
    pub length: u64,
    pub payload: PayloadV,
    pub size: u64,
}

/// The models of a sequence of tag values, in order.
pub open spec fn tags_model(ts: Seq<Tag>) -> Seq<TagV>
    decreases ts,
{
    if ts.len() == 0 {
        Seq::empty()
    } else {
        seq![tag_model(ts[0])] + tags_model(ts.drop_first())
    }
}

/// The model of a payload value.
pub open spec fn payload_model(p: Payload) -> PayloadV
    decreases p,
{
    match p {
        Payload::Primitive(v) => PayloadV::Primitive(v@),
        Payload::Constructed(ts) => PayloadV::Constructed(tags_model(ts@)),
    }
}

/// The model of a tag value.
pub open spec fn tag_model(t: Tag) -> TagV
    decreases t,
{
    TagV {
        class: t._type.class,
        structure: t._type.structure,
        length: t._length,
        payload: payload_model(t._value),
        size: t.size,
    }
}

/// Number of base-128 digit groups of `n`: how many continuation bytes a
/// long-form tag number occupies.
pub open spec fn base128_len(n: int) -> int
    decreases n,
{
    if n < 128 {
        1
    } else {
        1 + base128_len(n / 128)
    }
}

/// Number of bytes in the minimal big-endian representation of `n`.
pub open spec fn be_len(n: int) -> int
    decreases n,
{
    if n < 256 {
        1
    } else {
        1 + be_len(n / 256)
    }
}

/// The byte count of a tag's encoded type field. The universal class is
/// always a single byte; the other classes take one byte for numbers up to
/// 30 and, from 31 on (0x1F in the five-bit field is the reserved escape),
/// a leading byte plus one byte per base-128 digit group of the number.
pub open spec fn spec_type_len(c: Class) -> int {
    match c {
        Class::Universal(_) => 1,
        Class::Application(n) => if n <= 30 { 1 } else { 1 + base128_len(n as int) },
        Class::ContextSpecific(n) => if n <= 30 { 1 } else { 1 + base128_len(n as int) },
        Class::Private(n) => if n <= 30 { 1 } else { 1 + base128_len(n as int) },
    }
}

/// The byte count of an encoded length field: one byte in short form
/// (lengths below 128), else a count byte plus the minimal big-endian
/// bytes of the length.
pub open spec fn spec_len_len(l: int) -> int {
    if l < 128 {
        1
    } else {
        1 + be_len(l)
    }
}

/// The total encoded byte length of a tag: type bytes + length bytes +
/// payload bytes.
pub open spec fn spec_tag_size(c: Class, l: int) -> int {
    spec_type_len(c) + spec_len_len(l) + l
}

/// The sum of the total encoded sizes of a sequence of tags.
pub open spec fn tags_size_sum(ts: Seq<TagV>) -> int
    decreases ts.len(),
{
    if ts.len() == 0 {
        0
    } else {
        ts[0].size + tags_size_sum(ts.drop_first())
    }
}

/// A payload's length: the byte count for a primitive payload, or the sum
/// of each child's full encoded size for a constructed one.
pub open spec fn spec_payload_len(p: PayloadV) -> int {
    match p {
        PayloadV::Primitive(b) => b.len() as int,
        PayloadV::Constructed(ts) => tags_size_sum(ts),
    }
}

/// Well-formedness of a payload model: every child tag is well formed.
pub open spec fn payload_wf(p: PayloadV) -> bool
    decreases p,
{
    match p {
        PayloadV::Primitive(_) => true,
        PayloadV::Constructed(ts) => forall|i: int| 0 <= i < ts.len() ==> tag_wf(#[trigger] ts[i]),
    }
}

/// Well-formedness of a tag model: the class number is non-negative, the
/// structure flag agrees with the payload variant, the declared length is
/// the payload's own length, the cached size is the computed total size,
/// and every child is well formed in turn.
pub open spec fn tag_wf(t: TagV) -> bool
    decreases t,
{
    &&& class_wf(t.class)
    &&& (t.structure == Structure::Primitive <==> t.payload is Primitive)
    &&& (t.structure == Structure::Constructed <==> t.payload is Constructed)
    &&& t.length == spec_payload_len(t.payload)
    &&& t.size == spec_tag_size(t.class, t.length as int)
    &&& payload_wf(t.payload)
}

/// `tags_model` maps each element to its model, keeping length and order.
pub proof fn lemma_tags_model(ts: Seq<Tag>)
    ensures
        tags_model(ts).len() == ts.len(),
        forall|i: int| 0 <= i < ts.len() ==> tags_model(ts)[i] == tag_model(ts[i]),
    decreases ts.len(),
{
    if ts.len() != 0 {
        lemma_tags_model(ts.drop_first());
    }
}

/// The sum of tag sizes is never negative.
pub proof fn lemma_tags_size_sum_nonneg(ts: Seq<TagV>)
    ensures
        0 <= tags_size_sum(ts),
    decreases ts.len(),
{
    if ts.len() != 0 {
        lemma_tags_size_sum_nonneg(ts.drop_first());
    }
}

/// Base-128 digit counts are at least one.
pub proof fn lemma_base128_len_pos(n: int)
    ensures
        1 <= base128_len(n),
    decreases n,
{
    if 128 <= n {
        lemma_base128_len_pos(n / 128);
    }
}

/// Big-endian byte counts are at least one.
pub proof fn lemma_be_len_pos(n: int)
    ensures
        1 <= be_len(n),
    decreases n,
{
    if 256 <= n {
        lemma_be_len_pos(n / 256);
    }
}

/// Powers of 128.
pub open spec fn pow128(k: int) -> int
    decreases k,
{
    if k <= 0 {
        1
    } else {
        128 * pow128(k - 1)
    }
}

/// Powers of 256.
pub open spec fn pow256(k: int) -> int
    decreases k,
{
    if k <= 0 {
        1
    } else {
        256 * pow256(k - 1)
    }
}

/// A number below the `k`-th power of 128 has at most `k` base-128 digits.
pub proof fn lemma_base128_len_le(n: int, k: int)
    requires
        1 <= k,
        0 <= n < pow128(k),
    ensures
        base128_len(n) <= k,
    decreases k,
{
    if 128 <= n {
        let k1 = k - 1;
        assert(pow128(k) == 128 * pow128(k1));
        assert(n / 128 < pow128(k1)) by (nonlinear_arith)
            requires
                0 <= n,
                128 <= n,
                n < 128 * pow128(k1),
        ;
        assert(k1 >= 1) by {
            if k1 == 0 {
                assert(pow128(k) == 128);
            }
        };
        lemma_base128_len_le(n / 128, k1);
    }
}

/// A number below the `k`-th power of 256 has at most `k` big-endian bytes.
pub proof fn lemma_be_len_le(n: int, k: int)
    requires
        1 <= k,
        0 <= n < pow256(k),
    ensures
        be_len(n) <= k,
    decreases k,
{
    if 256 <= n {
        let k1 = k - 1;
        assert(pow256(k) == 256 * pow256(k1));
        assert(n / 256 < pow256(k1)) by (nonlinear_arith)
            requires
                0 <= n,
                256 <= n,
                n < 256 * pow256(k1),
        ;
        assert(k1 >= 1) by {
            if k1 == 0 {
                assert(pow256(k) == 256);
            }
        };
        lemma_be_len_le(n / 256, k1);
    }
}

/// Any non-negative `i64` tag number has at most nine base-128 digits.
pub proof fn lemma_base128_len_bound(n: int)
    requires
        0 <= n <= i64::MAX,
    ensures
        1 <= base128_len(n) <= 9,
{
    lemma_base128_len_pos(n);
    assert(pow128(9) == 0x8000_0000_0000_0000) by {
        reveal_with_fuel(pow128, 10);
    };
    lemma_base128_len_le(n, 9);
}

/// Any `u64` length has at most eight big-endian bytes.
pub proof fn lemma_be_len_bound(n: int)
    requires
        0 <= n <= u64::MAX,
    ensures
        1 <= be_len(n) <= 8,
{
    lemma_be_len_pos(n);
    assert(pow256(8) == 0x1_0000_0000_0000_0000) by {
        reveal_with_fuel(pow256, 9);
    };
    lemma_be_len_le(n, 8);
}

impl Payload {
    /// The payload's own length: the byte count of a primitive payload, or
    /// the sum of the children's total encoded sizes for a constructed one.
    pub fn len(&self) -> (l: u64)
        requires
            spec_payload_len(payload_model(*self)) <= u64::MAX,
        ensures
            l == spec_payload_len(payload_model(*self)),
    {
        match self {
            Payload::Primitive(v) => v.len() as u64,
            Payload::Constructed(ts) => {
                let ghost tsm = tags_model(ts@);
                proof {
                    lemma_tags_model(ts@);
                    assert(tsm.skip(0) =~= tsm);
                }
                let mut l: u64 = 0;
                let mut idx: usize = 0;
                while idx < ts.len()
                    invariant
                        idx <= ts.len(),
                        tsm == tags_model(ts@),
                        tsm.len() == ts@.len(),
                        forall|i: int| 0 <= i < ts@.len() ==> tsm[i] == tag_model(ts@[i]),
                        tags_size_sum(tsm) <= u64::MAX,
                        l + tags_size_sum(tsm.skip(idx as int)) == tags_size_sum(tsm),
                    decreases ts.len() - idx,
                {
                    proof {
                        assert(tsm.skip(idx as int).len() != 0);
                        assert(tsm.skip(idx as int)[0] == tag_model(ts@[idx as int]));
                        assert(tsm.skip(idx as int).drop_first() =~= tsm.skip(idx as int + 1));
                        lemma_tags_size_sum_nonneg(tsm.skip(idx as int + 1));
                    }
                    l = l + ts[idx].size;
                    idx = idx + 1;
                }
                proof {
                    assert(tsm.skip(ts@.len() as int) =~= Seq::<TagV>::empty());
                }
                l
            }
        }
    }
}

/// Computes the total encoded byte length of a tag from its type and the
/// given payload length: type bytes + length bytes + payload bytes. The
/// payload length is used as given, not recomputed from a payload.
pub fn calculate_len(tagtype: &Type, pllen: &u64) -> (r: u64)
    requires
        class_wf(tagtype.class),
        spec_tag_size(tagtype.class, *pllen as int) <= u64::MAX,
    ensures
        r == spec_tag_size(tagtype.class, *pllen as int),
{
    let tl: u64 = type_field_len(&tagtype.class);
    let ll: u64 = len_field_len(pllen);
    tl + ll + *pllen
}

/// The width in bytes of the encoded type field of a class.
pub fn type_field_len(class: &Class) -> (r: u64)
    requires
        class_wf(*class),
    ensures
        r == spec_type_len(*class),
        1 <= r <= 10,
{
    match class {
        Class::Universal(_) => 1,
        Class::Application(tag) | Class::ContextSpecific(tag) | Class::Private(tag) => {
            if *tag > 30 {
                proof {
                    lemma_base128_len_bound(*tag as int);
                }
                let mut cur: u64 = *tag as u64;
                let mut groups: u64 = 1;
                while cur >= 128
                    invariant
                        1 <= groups,
                        groups - 1 + base128_len(cur as int) == base128_len(*tag as int),
                        base128_len(*tag as int) <= 9,
                        1 <= base128_len(cur as int),
                    decreases cur,
                {
                    proof {
                        lemma_base128_len_pos(cur as int / 128);
                    }
                    cur = cur / 128;
                    groups = groups + 1;
                }
                1 + groups
            } else {
                1
            }
        }
    }
}

/// The width in bytes of the encoded length field for a payload length.
pub fn len_field_len(pllen: &u64) -> (r: u64)
    ensures
        r == spec_len_len(*pllen as int),
        1 <= r <= 9,
{
    proof {
        lemma_be_len_bound(*pllen as int);
    }
    if *pllen < 128 {
        1
    } else {
        let mut cur: u64 = *pllen;
        let mut lenbytes: u64 = 1;
        while cur >= 256
            invariant
                1 <= lenbytes,
                lenbytes - 1 + be_len(cur as int) == be_len(*pllen as int),
                be_len(*pllen as int) <= 8,
                1 <= be_len(cur as int),
            decreases cur,
        {
            proof {
                lemma_be_len_pos(cur as int / 256);
            }
            cur = cur / 256;
            lenbytes = lenbytes + 1;
        }
        1 + lenbytes
    }
}

/// Builds an immutable `Tag` from a class and a payload: the structure is
/// derived from the payload variant, the declared length from the payload's
/// own length rule, and the total size from `calculate_len`. The resulting
/// tag is well formed by construction.
pub fn construct(class: Class, payload: Payload) -> (r: Tag)
    requires
        class_wf(class),
        payload_wf(payload_model(payload)),
        spec_tag_size(class, spec_payload_len(payload_model(payload))) <= u64::MAX,
    ensures
        r._type.class == class,
        r._value == payload,
        r._length == spec_payload_len(payload_model(payload)),
        r.size == spec_tag_size(class, spec_payload_len(payload_model(payload))),
        tag_wf(tag_model(r)),
{
    let structure = match &payload {
        Payload::Primitive(_) => Structure::Primitive,
        Payload::Constructed(_) => Structure::Constructed,
    };
    let tagtype = Type { class, structure };

    proof {
        lemma_payload_len_fits(class, payload_model(payload));
    }
    let pllen: u64 = payload.len();

    let taglen: u64 = calculate_len(&tagtype, &pllen);

    Tag { _type: tagtype, _value: payload, _length: pllen, size: taglen }
}

/// A payload length bounded through `spec_tag_size` fits in a `u64` by
/// itself, since the type and length fields take at least a byte each.
proof fn lemma_payload_len_fits(class: Class, p: PayloadV)
    requires
        spec_tag_size(class, spec_payload_len(p)) <= u64::MAX,
    ensures
        spec_payload_len(p) <= u64::MAX,
{
    match class {
        Class::Universal(_) => {}
        Class::Application(n) => {
            if !(n <= 30) {
                lemma_base128_len_pos(n as int);
            }
        }
        Class::ContextSpecific(n) => {
            if !(n <= 30) {
                lemma_base128_len_pos(n as int);
            }
        }
        Class::Private(n) => {
            if !(n <= 30) {
                lemma_base128_len_pos(n as int);
            }
        }
    }
    if !(spec_payload_len(p) < 128) {
        lemma_be_len_pos(spec_payload_len(p));
    }
}

/// The size sum distributes over concatenation.
pub proof fn lemma_tags_size_sum_concat(a: Seq<TagV>, b: Seq<TagV>)
    ensures
        tags_size_sum(a + b) == tags_size_sum(a) + tags_size_sum(b),
    decreases a.len(),
{
    if a.len() == 0 {
        assert(a + b =~= b);
    } else {
        assert((a + b).len() != 0);
        assert((a + b)[0] == a[0]);
        assert((a + b).drop_first() =~= a.drop_first() + b);
        lemma_tags_size_sum_concat(a.drop_first(), b);
    }
}

/// Extending a summed prefix by one tag adds that tag's size.
pub proof fn lemma_tags_size_sum_take_snoc(ts: Seq<TagV>, i: int)
    requires
        0 <= i < ts.len(),
    ensures
        tags_size_sum(ts.take(i + 1)) == tags_size_sum(ts.take(i)) + ts[i].size,
{
    assert(ts.take(i + 1) =~= ts.take(i) + seq![ts[i]]);
    lemma_tags_size_sum_concat(ts.take(i), seq![ts[i]]);
    reveal_with_fuel(tags_size_sum, 2);
    assert(seq![ts[i]].len() == 1);
    assert(seq![ts[i]][0] == ts[i]);
    assert(seq![ts[i]].drop_first() =~= Seq::<TagV>::empty());
    assert(tags_size_sum(Seq::<TagV>::empty()) == 0);
    assert(tags_size_sum(seq![ts[i]]) == ts[i].size);
}

/// Checks §3's invariants of a tag at run time, so that a caller can
/// establish well-formedness for a tag it did not obtain from `construct`
/// (one assembled by hand, or decoded from a non-minimal wire form whose
/// cached size differs from the canonical one) before handing it to the
/// encoder.
#[verifier::loop_isolation(false)]
pub fn tag_well_formed(t: &Tag) -> (r: bool)
    ensures
        r == tag_wf(tag_model(*t)),
    decreases *t,
{
    let class_ok: bool = match t._type.class {
        Class::Universal(_) => true,
        Class::Application(n) | Class::ContextSpecific(n) | Class::Private(n) => n >= 0,
    };
    if !class_ok {
        return false;
    }
    let structure_ok: bool = match &t._value {
        Payload::Primitive(_) => matches!(t._type.structure, Structure::Primitive),
        Payload::Constructed(_) => matches!(t._type.structure, Structure::Constructed),
    };
    if !structure_ok {
        return false;
    }
    match &t._value {
        Payload::Primitive(v) => {
            if t._length != v.len() as u64 {
                return false;
            }
        },
        Payload::Constructed(ts) => {
            let ghost tsm = tags_model(ts@);
            proof {
                lemma_tags_model(ts@);
                assert(tags_size_sum(tsm.take(0)) == 0);
            }
            let mut sum: u64 = 0;
            let mut i: usize = 0;
            while i < ts.len()
                invariant
                    i <= ts.len(),
                    forall|j: int| 0 <= j < i ==> tag_wf(#[trigger] tsm[j]),
                    sum == tags_size_sum(tsm.take(i as int)),
                decreases ts.len() - i,
            {
                proof {
                    assert(tsm[i as int] == tag_model(ts@[i as int]));
                }
                if !tag_well_formed(&ts[i]) {
                    return false;
                }
                if ts[i].size > u64::MAX - sum {
                    proof {
                        assert(tsm =~= tsm.take(i as int) + tsm.skip(i as int));
                        lemma_tags_size_sum_concat(tsm.take(i as int), tsm.skip(i as int));
                        assert(tsm.skip(i as int).len() != 0);
                        assert(tsm.skip(i as int)[0] == tsm[i as int]);
                        assert(tsm.skip(i as int).drop_first() =~= tsm.skip(i as int + 1));
                        lemma_tags_size_sum_nonneg(tsm.skip(i as int + 1));
                    }
                    return false;
                }
                proof {
                    lemma_tags_size_sum_take_snoc(tsm, i as int);
                }
                sum = sum + ts[i].size;
                i = i + 1;
            }
            proof {
                assert(tsm.take(ts@.len() as int) =~= tsm);
            }
            if t._length != sum {
                return false;
            }
        },
    }
    let tl: u64 = type_field_len(&t._type.class);
    let ll: u64 = len_field_len(&t._length);
    if t._length > u64::MAX - tl - ll {
        return false;
    }
    t.size == tl + ll + t._length
}

} // verus!
