//! Encoder and decoder for BER tag trees, the protocol message envelope,
//! and the proof that decoding inverts encoding.

use vstd::prelude::*;

use crate::common::base128_len;
use crate::common::be_len;
use crate::common::class_number;
use crate::common::class_sel;
use crate::common::class_wf;
use crate::common::lemma_base128_len_pos;
use crate::common::lemma_be_len_bound;
use crate::common::lemma_be_len_pos;
use crate::common::lemma_tags_model;
use crate::common::lemma_tags_size_sum_nonneg;
use crate::common::payload_wf;
use crate::common::pow128;
use crate::common::pow256;
use crate::common::spec_class_construct;
use crate::common::spec_len_len;
use crate::common::spec_payload_len;
use crate::common::spec_tag_size;
use crate::common::spec_type_len;
use crate::common::tags_size_sum;
use crate::common::universal_from_code;
use crate::common::valid_universal_code;
use crate::common::UniversalTypes;
use crate::common::structure_bit;
use crate::common::tag_model;
use crate::common::tag_wf;
use crate::common::tags_model;
use crate::common::universal_code;
use crate::common::Class;
use crate::common::Payload;
use crate::common::PayloadV;
use crate::common::Structure;
use crate::common::Tag;
use crate::common::TagV;
use crate::common::Type;
use crate::error::ASN1Error;

verus! {

/// The base-128 encoding of a tag number: most significant group first,
/// continuation bit set on every byte but the last.
pub open spec fn spec_base128(n: int) -> Seq<u8>
    decreases n,
{
    if n < 128 {
        seq![n as u8]
    } else {
        spec_base128_hi(n / 128) + seq![(n % 128) as u8]
    }
}

/// The leading groups of a base-128 encoding, each carrying the
/// continuation bit.
pub open spec fn spec_base128_hi(m: int) -> Seq<u8>
    decreases m,
{
    if m < 128 {
        seq![(128 + m) as u8]
    } else {
        spec_base128_hi(m / 128) + seq![(128 + m % 128) as u8]
    }
}

/// The minimal big-endian bytes of a non-negative integer.
pub open spec fn spec_be_bytes(n: int) -> Seq<u8>
    decreases n,
{
    if n < 256 {
        seq![n as u8]
    } else {
        spec_be_bytes(n / 256) + seq![(n % 256) as u8]
    }
}

/// The encoded type field: class bits, structure bit and tag number packed
/// into the first byte; a number above 30 of a non-universal class sets the
/// low five bits to 0x1F and follows as base-128 groups.
pub open spec fn spec_type_bytes(c: Class, s: Structure) -> Seq<u8> {
    let base = class_sel(c) * 64 + structure_bit(s) * 32;
    if class_sel(c) == 0 || class_number(c) <= 30 {
        seq![(base + class_number(c)) as u8]
    } else {
        seq![(base + 31) as u8] + spec_base128(class_number(c))
    }
}

/// The encoded length field: a single byte below 128 (short form), else a
/// leading byte of 0x80 plus the count of following bytes, then the minimal
/// big-endian bytes of the length (long form).
pub open spec fn spec_len_bytes(l: int) -> Seq<u8> {
    if l < 128 {
        seq![l as u8]
    } else {
        seq![(128 + be_len(l)) as u8] + spec_be_bytes(l)
    }
}

/// The full encoding of one tag: type bytes, then length bytes, then
/// payload bytes.
pub open spec fn spec_encode_tag(t: TagV) -> Seq<u8>
    decreases t,
{
    spec_type_bytes(t.class, t.structure) + spec_len_bytes(t.length as int)
        + spec_payload_bytes(t.payload)
}

/// The payload bytes: the raw bytes themselves, or each child's full
/// encoding in order.
pub open spec fn spec_payload_bytes(p: PayloadV) -> Seq<u8>
    decreases p,
{
    match p {
        PayloadV::Primitive(b) => b,
        PayloadV::Constructed(ts) => spec_encode_tags(ts),
    }
}

/// The concatenated encodings of a sequence of tags.
pub open spec fn spec_encode_tags(ts: Seq<TagV>) -> Seq<u8>
    decreases ts,
{
    if ts.len() == 0 {
        Seq::empty()
    } else {
        spec_encode_tag(ts[0]) + spec_encode_tags(ts.drop_first())
    }
}

/// A base-128 encoding has one byte per digit group.
pub proof fn lemma_spec_base128_len(n: int)
    ensures
        spec_base128(n).len() == base128_len(n),
        spec_base128_hi(n).len() == base128_len(n),
    decreases n,
{
    if 128 <= n {
        lemma_spec_base128_len(n / 128);
    }
}

/// A big-endian encoding has one byte per base-256 digit.
pub proof fn lemma_spec_be_bytes_len(n: int)
    ensures
        spec_be_bytes(n).len() == be_len(n),
    decreases n,
{
    if 256 <= n {
        lemma_spec_be_bytes_len(n / 256);
    }
}

/// Concatenation distributes over the encoding of tag sequences.
pub proof fn lemma_encode_tags_concat(a: Seq<TagV>, b: Seq<TagV>)
    ensures
        spec_encode_tags(a + b) == spec_encode_tags(a) + spec_encode_tags(b),
    decreases a.len(),
{
    if a.len() == 0 {
        assert(a + b =~= b);
        assert(spec_encode_tags(a) + spec_encode_tags(b) =~= spec_encode_tags(b));
    } else {
        assert((a + b).len() != 0);
        assert((a + b)[0] == a[0]);
        assert((a + b).drop_first() =~= a.drop_first() + b);
        lemma_encode_tags_concat(a.drop_first(), b);
        assert(spec_encode_tag(a[0]) + (spec_encode_tags(a.drop_first()) + spec_encode_tags(b))
            =~= (spec_encode_tag(a[0]) + spec_encode_tags(a.drop_first())) + spec_encode_tags(b));
    }
}

/// The encoding of a one-tag sequence is the tag's encoding.
pub proof fn lemma_encode_tags_one(t: TagV)
    ensures
        spec_encode_tags(seq![t]) == spec_encode_tag(t),
{
    reveal_with_fuel(spec_encode_tags, 2);
    assert(seq![t].len() == 1);
    assert(seq![t][0] == t);
    assert(seq![t].drop_first() =~= Seq::<TagV>::empty());
    assert(spec_encode_tags(Seq::<TagV>::empty()) == Seq::<u8>::empty());
    assert(spec_encode_tags(seq![t]) == spec_encode_tag(t) + spec_encode_tags(
        seq![t].drop_first(),
    ));
    assert(spec_encode_tag(t) + Seq::<u8>::empty() =~= spec_encode_tag(t));
}

/// Extending an encoded prefix by one tag appends that tag's encoding.
pub proof fn lemma_encode_tags_take_snoc(ts: Seq<TagV>, i: int)
    requires
        0 <= i < ts.len(),
    ensures
        spec_encode_tags(ts.take(i + 1)) == spec_encode_tags(ts.take(i)) + spec_encode_tag(ts[i]),
{
    assert(ts.take(i + 1) =~= ts.take(i) + seq![ts[i]]);
    lemma_encode_tags_concat(ts.take(i), seq![ts[i]]);
    lemma_encode_tags_one(ts[i]);
}

/// Appends the base-128 groups of `n`.
fn push_base128(out: &mut Vec<u8>, n: u64)
    ensures
        final(out)@ == old(out)@ + spec_base128(n as int),
{
    if n < 128 {
        out.push(n as u8);
        proof {
            assert(out@ =~= old(out)@ + spec_base128(n as int));
        }
    } else {
        push_base128_hi(out, n / 128);
        out.push((n % 128) as u8);
        proof {
            assert(out@ =~= old(out)@ + spec_base128(n as int));
        }
    }
}

/// Appends the leading base-128 groups of `m`, continuation bits set.
fn push_base128_hi(out: &mut Vec<u8>, m: u64)
    ensures
        final(out)@ == old(out)@ + spec_base128_hi(m as int),
    decreases m,
{
    if m < 128 {
        out.push(128 + (m as u8));
        proof {
            assert(out@ =~= old(out)@ + spec_base128_hi(m as int));
        }
    } else {
        push_base128_hi(out, m / 128);
        out.push(128 + ((m % 128) as u8));
        proof {
            assert(out@ =~= old(out)@ + spec_base128_hi(m as int));
        }
    }
}

/// Appends the minimal big-endian bytes of `n`.
fn push_be_bytes(out: &mut Vec<u8>, n: u64)
    ensures
        final(out)@ == old(out)@ + spec_be_bytes(n as int),
    decreases n,
{
    if n < 256 {
        out.push(n as u8);
        proof {
            assert(out@ =~= old(out)@ + spec_be_bytes(n as int));
        }
    } else {
        push_be_bytes(out, n / 256);
        out.push((n % 256) as u8);
        proof {
            assert(out@ =~= old(out)@ + spec_be_bytes(n as int));
        }
    }
}

/// Appends the encoded type field of `t`.
fn push_type_bytes(out: &mut Vec<u8>, t: &Type)
    requires
        class_wf(t.class),
    ensures
        final(out)@ == old(out)@ + spec_type_bytes(t.class, t.structure),
{
    let sbit: u8 = match t.structure {
        Structure::Primitive => 0,
        Structure::Constructed => 32,
    };
    let selbase: u8 = match t.class {
        Class::Universal(_) => 0,
        Class::Application(_) => 64,
        Class::ContextSpecific(_) => 128,
        Class::Private(_) => 192,
    };
    let first: u8 = selbase + sbit;
    match t.class {
        Class::Universal(u) => {
            out.push(first + u.code());
            proof {
                assert(out@ =~= old(out)@ + spec_type_bytes(t.class, t.structure));
            }
        }
        Class::Application(n) | Class::ContextSpecific(n) | Class::Private(n) => {
            if n <= 30 {
                out.push(first + (n as u8));
                proof {
                    assert(out@ =~= old(out)@ + spec_type_bytes(t.class, t.structure));
                }
            } else {
                out.push(first + 31);
                push_base128(out, n as u64);
                proof {
                    assert(out@ =~= old(out)@ + spec_type_bytes(t.class, t.structure));
                }
            }
        }
    }
}

/// Appends the encoded length field for the declared length `l`.
fn push_len_bytes(out: &mut Vec<u8>, l: u64)
    ensures
        final(out)@ == old(out)@ + spec_len_bytes(l as int),
{
    if l < 128 {
        out.push(l as u8);
        proof {
            assert(out@ =~= old(out)@ + spec_len_bytes(l as int));
        }
    } else {
        let mut be: Vec<u8> = Vec::new();
        push_be_bytes(&mut be, l);
        proof {
            lemma_be_len_bound(l as int);
            lemma_spec_be_bytes_len(l as int);
        }
        out.push(128 + (be.len() as u8));
        let mut i: usize = 0;
        while i < be.len()
            invariant
                i <= be.len(),
                be@ == spec_be_bytes(l as int),
                out@ == old(out)@ + seq![(128 + be_len(l as int)) as u8] + be@.take(i as int),
            decreases be.len() - i,
        {
            out.push(be[i]);
            proof {
                assert(be@.take(i as int + 1) =~= be@.take(i as int).push(be@[i as int]));
                assert(out@ =~= old(out)@ + seq![(128 + be_len(l as int)) as u8] + be@.take(
                    i as int + 1,
                ));
            }
            i = i + 1;
        }
        proof {
            assert(be@.take(be@.len() as int) =~= be@);
            assert(out@ =~= old(out)@ + spec_len_bytes(l as int));
        }
    }
}

/// Serializes one tag depth-first: type byte(s), length byte(s), then the
/// raw payload bytes or each child tag in order.
pub fn encode_tag(tag: &Tag) -> (r: Vec<u8>)
    requires
        tag_wf(tag_model(*tag)),
    ensures
        r@ == spec_encode_tag(tag_model(*tag)),
{
    let mut out: Vec<u8> = Vec::new();
    encode_tag_into(&mut out, tag);
    out
}

/// Appends the full encoding of `tag`.
fn encode_tag_into(out: &mut Vec<u8>, tag: &Tag)
    requires
        tag_wf(tag_model(*tag)),
    ensures
        final(out)@ == old(out)@ + spec_encode_tag(tag_model(*tag)),
    decreases *tag,
{
    push_type_bytes(out, &tag._type);
    push_len_bytes(out, tag._length);
    let ghost mid = out@;
    match &tag._value {
        Payload::Primitive(v) => {
            let mut i: usize = 0;
            while i < v.len()
                invariant
                    i <= v.len(),
                    out@ == mid + v@.take(i as int),
                decreases v.len() - i,
            {
                out.push(v[i]);
                proof {
                    assert(v@.take(i as int + 1) =~= v@.take(i as int).push(v@[i as int]));
                    assert(out@ =~= mid + v@.take(i as int + 1));
                }
                i = i + 1;
            }
            proof {
                assert(v@.take(v@.len() as int) =~= v@);
                assert(out@ =~= old(out)@ + spec_encode_tag(tag_model(*tag)));
            }
        }
        Payload::Constructed(ts) => {
            let ghost tsm = tags_model(ts@);
            proof {
                lemma_tags_model(ts@);
                assert(tsm.take(0) =~= Seq::<TagV>::empty());
                assert(out@ =~= mid + spec_encode_tags(tsm.take(0)));
            }
            let mut i: usize = 0;
            while i < ts.len()
                invariant
                    i <= ts.len(),
                    tag_wf(tag_model(*tag)),
                    tag._value matches Payload::Constructed(c) && c == ts,
                    tsm == tags_model(ts@),
                    tsm.len() == ts@.len(),
                    forall|j: int| 0 <= j < ts@.len() ==> tsm[j] == tag_model(ts@[j]),
                    forall|j: int| 0 <= j < ts@.len() ==> tag_wf(#[trigger] tsm[j]),
                    out@ == mid + spec_encode_tags(tsm.take(i as int)),
                decreases ts.len() - i,
            {
                proof {
                    assert(tsm[i as int] == tag_model(ts@[i as int]));
                    assert(tag_wf(tsm[i as int]));
                }
                encode_tag_into(out, &ts[i]);
                proof {
                    lemma_encode_tags_take_snoc(tsm, i as int);
                    assert(out@ =~= mid + spec_encode_tags(tsm.take(i as int + 1)));
                }
                i = i + 1;
            }
            proof {
                assert(tsm.take(ts@.len() as int) =~= tsm);
                assert(out@ =~= old(out)@ + spec_encode_tag(tag_model(*tag)));
            }
        }
    }
}

/// Parses base-128 continuation groups at `pos` with accumulator `acc`:
/// each byte contributes its low seven bits, a clear high bit ends the
/// number, and a number that would exceed `i64::MAX` is rejected.
pub open spec fn spec_parse_base128(buf: Seq<u8>, pos: int, acc: int) -> Result<
    (int, int),
    ASN1Error,
>
    decreases buf.len() - pos,
{
    if pos < 0 || pos >= buf.len() {
        Err(ASN1Error::InvalidASN1)
    } else {
        let b = buf[pos];
        let low = (b as int) % 128;
        if acc > (i64::MAX - low) / 128 {
            Err(ASN1Error::InvalidASN1)
        } else if b < 128 {
            Ok((acc * 128 + low, pos + 1))
        } else {
            spec_parse_base128(buf, pos + 1, acc * 128 + low)
        }
    }
}

/// Parses `k` big-endian bytes at `pos` into a length on accumulator
/// `acc`; a length that would exceed `u64::MAX` is rejected.
pub open spec fn spec_parse_be(buf: Seq<u8>, pos: int, k: int, acc: int) -> Result<
    (u64, int),
    ASN1Error,
>
    decreases k,
{
    if k <= 0 {
        Ok((acc as u64, pos))
    } else if pos < 0 || pos >= buf.len() {
        Err(ASN1Error::InvalidASN1)
    } else {
        let b = buf[pos] as int;
        if acc > (u64::MAX - b) / 256 {
            Err(ASN1Error::InvalidASN1)
        } else {
            spec_parse_be(buf, pos + 1, k - 1, acc * 256 + b)
        }
    }
}

/// Parses a length field: the short form is the byte itself; the long form
/// reads a count of big-endian bytes; a count of zero is the unsupported
/// indefinite form.
pub open spec fn spec_parse_len(buf: Seq<u8>, pos: int) -> Result<(u64, int), ASN1Error> {
    if pos < 0 || pos >= buf.len() {
        Err(ASN1Error::InvalidASN1)
    } else {
        let b0 = buf[pos];
        if b0 < 128 {
            Ok((b0 as u64, pos + 1))
        } else if b0 == 128 {
            Err(ASN1Error::UnsupportedForm)
        } else {
            spec_parse_be(buf, pos + 1, (b0 - 128) as int, 0)
        }
    }
}

/// Parses one tag at `pos`: the type byte(s), the length field, then a
/// primitive payload or child tags filling exactly the declared length.
/// Returns the tag model and the position just past the tag.
pub open spec fn spec_decode_tag(buf: Seq<u8>, pos: int) -> Result<(TagV, int), ASN1Error>
    decreases buf.len() - pos, 0int,
{
    if pos < 0 || pos >= buf.len() {
        Err(ASN1Error::InvalidASN1)
    } else {
        let b = buf[pos];
        let sel = (b as int) / 64;
        let sbit = ((b as int) / 32) % 2;
        let low5 = (b as int) % 32;
        let numres: Result<(int, int), ASN1Error> = if low5 < 31 {
            Ok((low5, pos + 1))
        } else {
            spec_parse_base128(buf, pos + 1, 0)
        };
        match numres {
            Err(e) => Err(e),
            Ok((number, p1)) => match spec_class_construct(sel, number) {
                Err(e) => Err(e),
                Ok(class) => match spec_parse_len(buf, p1) {
                    Err(e) => Err(e),
                    Ok((len, p2)) => {
                        if p2 <= pos || p2 > buf.len() {
                            Err(ASN1Error::InvalidASN1)
                        } else if p2 + (len as int) > buf.len() {
                            Err(ASN1Error::InvalidASN1)
                        } else if sbit == 0 {
                            Ok(
                                (
                                    TagV {
                                        class,
                                        structure: Structure::Primitive,
                                        length: len,
                                        payload: PayloadV::Primitive(
                                            buf.subrange(p2, p2 + (len as int)),
                                        ),
                                        size: (p2 + (len as int) - pos) as u64,
                                    },
                                    p2 + (len as int),
                                ),
                            )
                        } else {
                            match spec_decode_children(buf, p2, p2 + (len as int)) {
                                Err(e) => Err(e),
                                Ok(children) => Ok(
                                    (
                                        TagV {
                                            class,
                                            structure: Structure::Constructed,
                                            length: len,
                                            payload: PayloadV::Constructed(children),
                                            size: (p2 + (len as int) - pos) as u64,
                                        },
                                        p2 + (len as int),
                                    ),
                                ),
                            }
                        }
                    },
                },
            },
        }
    }
}

/// Parses child tags from `pos` until exactly `end`; a child running past
/// `end` is a framing error.
pub open spec fn spec_decode_children(buf: Seq<u8>, pos: int, end: int) -> Result<
    Seq<TagV>,
    ASN1Error,
>
    decreases buf.len() - pos, 1int,
{
    if pos == end {
        Ok(Seq::empty())
    } else if pos < 0 || pos > end || end > buf.len() {
        Err(ASN1Error::InvalidASN1)
    } else {
        match spec_decode_tag(buf, pos) {
            Err(e) => Err(e),
            Ok((child, p)) => {
                if p <= pos || p > end {
                    Err(ASN1Error::InvalidASN1)
                } else {
                    match spec_decode_children(buf, p, end) {
                        Err(e) => Err(e),
                        Ok(rest) => Ok(seq![child] + rest),
                    }
                }
            },
        }
    }
}

/// Relates a partially decoded child list to the whole children parse:
/// whatever parsing from `cur` yields determines the result from `start`.
spec fn children_continuation(buf: Seq<u8>, start: int, cur: int, end: int, done: Seq<TagV>) -> bool {
    match spec_decode_children(buf, cur, end) {
        Ok(rest) => spec_decode_children(buf, start, end) == Ok::<Seq<TagV>, ASN1Error>(
            done + rest,
        ),
        Err(e) => spec_decode_children(buf, start, end) == Err::<Seq<TagV>, ASN1Error>(e),
    }
}

/// Appending one tag to a model sequence appends its model.
pub proof fn lemma_tags_model_snoc(ts: Seq<Tag>, t: Tag)
    ensures
        tags_model(ts.push(t)) == tags_model(ts) + seq![tag_model(t)],
{
    lemma_tags_model(ts.push(t));
    lemma_tags_model(ts);
    assert(tags_model(ts.push(t)) =~= tags_model(ts) + seq![tag_model(t)]);
}

/// Reads base-128 continuation groups off the buffer.
fn parse_base128(buffer: &[u8], pos: usize) -> (res: Result<(i64, usize), ASN1Error>)
    requires
        pos <= buffer@.len(),
    ensures
        res matches Ok(np) ==> {
            &&& spec_parse_base128(buffer@, pos as int, 0) == Ok::<(int, int), ASN1Error>(
                (np.0 as int, np.1 as int),
            )
            &&& pos < np.1 <= buffer@.len()
            &&& 0 <= np.0
        },
        res matches Err(e) ==> spec_parse_base128(buffer@, pos as int, 0) == Err::<
            (int, int),
            ASN1Error,
        >(e),
{
    let mut acc: u64 = 0;
    let mut p: usize = pos;
    loop
        invariant
            pos <= p <= buffer@.len(),
            acc <= i64::MAX as u64,
            spec_parse_base128(buffer@, pos as int, 0) == spec_parse_base128(
                buffer@,
                p as int,
                acc as int,
            ),
        decreases buffer@.len() - p,
    {
        if p >= buffer.len() {
            return Err(ASN1Error::InvalidASN1);
        }
        let b: u8 = buffer[p];
        let low: u64 = (b % 128) as u64;
        if acc > ((i64::MAX as u64) - low) / 128 {
            return Err(ASN1Error::InvalidASN1);
        }
        proof {
            assert(acc * 128 + low <= i64::MAX as u64) by (nonlinear_arith)
                requires
                    acc <= ((i64::MAX as u64) - low) / 128,
                    0 <= low < 128,
                    0 <= acc,
            ;
        }
        acc = acc * 128 + low;
        p = p + 1;
        if b < 128 {
            return Ok((acc as i64, p));
        }
    }
}

/// Reads `k` big-endian bytes off the buffer into a length.
fn parse_be(buffer: &[u8], pos: usize, k: u8) -> (res: Result<(u64, usize), ASN1Error>)
    requires
        pos <= buffer@.len(),
    ensures
        res matches Ok(lp) ==> {
            &&& spec_parse_be(buffer@, pos as int, k as int, 0) == Ok::<(u64, int), ASN1Error>(
                (lp.0, lp.1 as int),
            )
            &&& lp.1 == pos + k
            &&& lp.1 <= buffer@.len()
        },
        res matches Err(e) ==> spec_parse_be(buffer@, pos as int, k as int, 0) == Err::<
            (u64, int),
            ASN1Error,
        >(e),
{
    let mut acc: u64 = 0;
    let mut p: usize = pos;
    let mut rem: u8 = k;
    loop
        invariant
            pos <= p <= buffer@.len(),
            rem <= k,
            p == pos + k - rem,
            spec_parse_be(buffer@, pos as int, k as int, 0) == spec_parse_be(
                buffer@,
                p as int,
                rem as int,
                acc as int,
            ),
        decreases rem,
    {
        if rem == 0 {
            return Ok((acc, p));
        }
        if p >= buffer.len() {
            return Err(ASN1Error::InvalidASN1);
        }
        let b: u8 = buffer[p];
        if acc > (u64::MAX - (b as u64)) / 256 {
            return Err(ASN1Error::InvalidASN1);
        }
        proof {
            assert(acc * 256 + (b as u64) <= u64::MAX) by (nonlinear_arith)
                requires
                    acc <= (u64::MAX - (b as u64)) / 256,
                    0 <= (b as u64) < 256,
                    0 <= acc,
            ;
        }
        acc = acc * 256 + (b as u64);
        p = p + 1;
        rem = rem - 1;
    }
}

/// Reads a length field off the buffer.
fn parse_len(buffer: &[u8], pos: usize) -> (res: Result<(u64, usize), ASN1Error>)
    requires
        pos <= buffer@.len(),
    ensures
        res matches Ok(lp) ==> {
            &&& spec_parse_len(buffer@, pos as int) == Ok::<(u64, int), ASN1Error>(
                (lp.0, lp.1 as int),
            )
            &&& pos < lp.1 <= buffer@.len()
        },
        res matches Err(e) ==> spec_parse_len(buffer@, pos as int) == Err::<
            (u64, int),
            ASN1Error,
        >(e),
{
    if pos >= buffer.len() {
        return Err(ASN1Error::InvalidASN1);
    }
    let b0: u8 = buffer[pos];
    if b0 < 128 {
        Ok((b0 as u64, pos + 1))
    } else if b0 == 128 {
        Err(ASN1Error::UnsupportedForm)
    } else {
        parse_be(buffer, pos + 1, b0 - 128)
    }
}

/// Parses the first tag in `buffer`, returning it together with the number
/// of bytes consumed, so a caller can re-frame a stream: trailing bytes
/// after one tag are left untouched. Every malformed buffer yields a typed
/// error, never a panic, and the result is pinned to the specification
/// parser `spec_decode_tag`.
pub fn decode(buffer: &[u8]) -> (res: Result<(Tag, usize), ASN1Error>)
    ensures
        res matches Ok(tn) ==> {
            &&& spec_decode_tag(buffer@, 0) == Ok::<(TagV, int), ASN1Error>(
                (tag_model(tn.0), tn.1 as int),
            )
            &&& 0 < tn.1 <= buffer@.len()
            &&& decoded_wf(tag_model(tn.0))
            &&& tn.0.size == tn.1
        },
        res matches Err(e) ==> spec_decode_tag(buffer@, 0) == Err::<(TagV, int), ASN1Error>(e),
{
    let n = buffer.len();
    proof {
        assert(buffer@.len() == n as int);
        lemma_decode_sound(buffer@, 0);
    }
    decode_at(buffer, 0)
}

/// Parses one tag at `pos`, recursively descending into constructed
/// payloads until each declared length is consumed exactly.
#[verifier::loop_isolation(false)]
fn decode_at(buffer: &[u8], pos: usize) -> (res: Result<(Tag, usize), ASN1Error>)
    requires
        pos <= buffer@.len(),
    ensures
        res matches Ok(tn) ==> {
            &&& spec_decode_tag(buffer@, pos as int) == Ok::<(TagV, int), ASN1Error>(
                (tag_model(tn.0), tn.1 as int),
            )
            &&& pos < tn.1 <= buffer@.len()
        },
        res matches Err(e) ==> spec_decode_tag(buffer@, pos as int) == Err::<
            (TagV, int),
            ASN1Error,
        >(e),
    decreases buffer@.len() - pos,
{
    if pos >= buffer.len() {
        return Err(ASN1Error::InvalidASN1);
    }
    let b: u8 = buffer[pos];
    let sel: u8 = b / 64;
    let sbit: u8 = (b / 32) % 2;
    let low5: u8 = b % 32;

    let (number, p1): (i64, usize) = if low5 < 31 {
        (low5 as i64, pos + 1)
    } else {
        match parse_base128(buffer, pos + 1) {
            Ok(np) => np,
            Err(e) => {
                return Err(e);
            },
        }
    };

    let class: Class = match Class::construct(sel, number) {
        Ok(c) => c,
        Err(e) => {
            return Err(e);
        },
    };

    let (len, p2): (u64, usize) = match parse_len(buffer, p1) {
        Ok(lp) => lp,
        Err(e) => {
            return Err(e);
        },
    };

    if len > (buffer.len() - p2) as u64 {
        return Err(ASN1Error::InvalidASN1);
    }
    let plen: usize = len as usize;
    let end: usize = p2 + plen;

    if sbit == 0 {
        let mut v: Vec<u8> = Vec::new();
        let mut i: usize = p2;
        proof {
            assert(v@ =~= buffer@.subrange(p2 as int, p2 as int));
        }
        while i < end
            invariant
                p2 <= i <= end <= buffer@.len(),
                v@ == buffer@.subrange(p2 as int, i as int),
            decreases end - i,
        {
            v.push(buffer[i]);
            proof {
                assert(buffer@.subrange(p2 as int, i as int + 1) =~= buffer@.subrange(
                    p2 as int,
                    i as int,
                ).push(buffer@[i as int]));
            }
            i = i + 1;
        }
        let tag = Tag {
            _type: Type { class, structure: Structure::Primitive },
            _length: len,
            _value: Payload::Primitive(v),
            size: (end - pos) as u64,
        };
        proof {
            let spec_tag = TagV {
                class,
                structure: Structure::Primitive,
                length: len,
                payload: PayloadV::Primitive(buffer@.subrange(p2 as int, p2 as int + len as int)),
                size: (p2 as int + len as int - pos as int) as u64,
            };
            assert(tag_model(tag) =~= spec_tag);
        }
        Ok((tag, end))
    } else {
        let mut children: Vec<Tag> = Vec::new();
        let mut cur: usize = p2;
        proof {
            assert(tags_model(children@) =~= Seq::<TagV>::empty());
            match spec_decode_children(buffer@, p2 as int, end as int) {
                Ok(rest) => {
                    assert(tags_model(children@) + rest =~= rest);
                },
                Err(_) => {},
            }
        }
        while cur < end
            invariant
                pos < p2 <= cur <= end <= buffer@.len(),
                end == p2 + len,
                children_continuation(
                    buffer@,
                    p2 as int,
                    cur as int,
                    end as int,
                    tags_model(children@),
                ),
            decreases end - cur,
        {
            match decode_at(buffer, cur) {
                Err(e) => {
                    return Err(e);
                },
                Ok((child, n)) => {
                    if n > end {
                        return Err(ASN1Error::InvalidASN1);
                    }
                    proof {
                        let done = tags_model(children@);
                        lemma_tags_model_snoc(children@, child);
                        match spec_decode_children(buffer@, n as int, end as int) {
                            Ok(rest) => {
                                assert(done + (seq![tag_model(child)] + rest) =~= tags_model(
                                    children@.push(child),
                                ) + rest);
                            },
                            Err(_) => {},
                        }
                    }
                    children.push(child);
                    cur = n;
                },
            }
        }
        proof {
            assert(tags_model(children@) + Seq::<TagV>::empty() =~= tags_model(children@));
        }
        let tag = Tag {
            _type: Type { class, structure: Structure::Constructed },
            _length: len,
            _value: Payload::Constructed(children),
            size: (end - pos) as u64,
        };
        proof {
            let spec_tag = TagV {
                class,
                structure: Structure::Constructed,
                length: len,
                payload: PayloadV::Constructed(tags_model(children@)),
                size: (p2 as int + len as int - pos as int) as u64,
            };
            assert(tag_model(tag) =~= spec_tag);
        }
        Ok((tag, end))
    }
}

/// The minimal two's-complement big-endian bytes of an integer, the
/// contents of a universal integer tag.
pub open spec fn spec_int_bytes(n: int) -> Seq<u8>
    decreases (if n < 0 { -n } else { n }),
{
    if -128 <= n <= 127 {
        seq![(n % 256) as u8]
    } else {
        spec_int_bytes(n / 256) + seq![(n % 256) as u8]
    }
}

/// A number within `k` signed base-256 digits takes at most `k`
/// two's-complement bytes.
proof fn lemma_int_bytes_len_le(n: int, k: int)
    requires
        1 <= k,
        -(128 * pow256(k - 1)) <= n < 128 * pow256(k - 1),
    ensures
        1 <= spec_int_bytes(n).len() <= k,
    decreases k,
{
    lemma_pow256_pos(k - 1);
    if n < -128 || 127 < n {
        assert(k >= 2) by {
            if k == 1 {
                assert(pow256(0) == 1);
            }
        };
        lemma_pow256_pos(k - 2);
        assert(pow256(k - 1) == 256 * pow256(k - 2));
        assert(-(128 * pow256(k - 2)) <= n / 256 < 128 * pow256(k - 2)) by (nonlinear_arith)
            requires
                -(128 * (256 * pow256(k - 2))) <= n < 128 * (256 * pow256(k - 2)),
                pow256(k - 2) >= 1,
                n == 256 * (n / 256) + (n % 256),
                0 <= n % 256 < 256,
        ;
        lemma_int_bytes_len_le(n / 256, k - 1);
    }
}

/// The two's-complement contents of any `i64` fit in eight bytes.
pub proof fn lemma_int_bytes_len(n: int)
    requires
        i64::MIN <= n <= i64::MAX,
    ensures
        1 <= spec_int_bytes(n).len() <= 8,
{
    assert(pow256(7) == 0x100_0000_0000_0000) by {
        reveal_with_fuel(pow256, 8);
    };
    lemma_int_bytes_len_le(n, 8);
}

/// A number of `k` or more big-endian digits is at least the `k-1`-th
/// power of 256; contrapositively, big numbers need many bytes.
proof fn lemma_be_len_ge(n: int, k: int)
    requires
        1 <= k,
        pow256(k - 1) <= n,
    ensures
        k <= be_len(n),
    decreases k,
{
    lemma_be_len_pos(n);
    if k >= 2 {
        assert(pow256(k - 1) == 256 * pow256(k - 2));
        lemma_pow256_pos(k - 2);
        assert(256 <= n);
        assert(pow256(k - 2) <= n / 256) by (nonlinear_arith)
            requires
                256 * pow256(k - 2) <= n,
                pow256(k - 2) >= 1,
                n == 256 * (n / 256) + (n % 256),
                0 <= n % 256 < 256,
        ;
        lemma_be_len_ge(n / 256, k - 1);
    }
}

/// The sum of the sizes of exactly two tags.
proof fn lemma_tags_size_sum_two(a: TagV, b: TagV)
    ensures
        tags_size_sum(seq![a, b]) == a.size + b.size,
{
    reveal_with_fuel(tags_size_sum, 3);
    assert(seq![a, b].drop_first() =~= seq![b]);
    assert(seq![b].drop_first() =~= Seq::<TagV>::empty());
    assert(tags_size_sum(Seq::<TagV>::empty()) == 0);
    assert(tags_size_sum(seq![b]) == b.size);
}

/// Appends the minimal two's-complement big-endian bytes of `n`.
fn push_int_bytes(out: &mut Vec<u8>, n: i64)
    ensures
        final(out)@ == old(out)@ + spec_int_bytes(n as int),
    decreases (if n < 0 { -(n as int) } else { n as int }),
{
    if -128 <= n && n <= 127 {
        let byte: u8 = if n >= 0 {
            n as u8
        } else {
            (n + 256) as u8
        };
        proof {
            assert(byte as int == (n as int) % 256);
        }
        out.push(byte);
        proof {
            assert(out@ =~= old(out)@ + spec_int_bytes(n as int));
        }
    } else {
        let (q, r): (i64, u8) = if n >= 0 {
            let un: u64 = n as u64;
            ((un / 256) as i64, (un % 256) as u8)
        } else {
            let m: u64 = (-(n + 1)) as u64;
            let a: u64 = m / 256;
            let b: u64 = m % 256;
            (-((a as i64) + 1), (255 - b) as u8)
        };
        proof {
            assert((n as int) == 256 * (q as int) + (r as int));
            assert((q as int) == (n as int) / 256 && (r as int) == (n as int) % 256)
                by (nonlinear_arith)
                requires
                    (n as int) == 256 * (q as int) + (r as int),
                    0 <= (r as int) < 256,
            ;
            if n >= 0 {
                assert(0 <= q < n);
            } else {
                assert(-(q as int) < -(n as int));
            }
        }
        push_int_bytes(out, q);
        out.push(r);
        proof {
            assert(out@ =~= old(out)@ + spec_int_bytes(n as int));
        }
    }
}

/// The model of the universal integer tag that carries the message
/// identifier inside the envelope.
pub open spec fn spec_message_id_tag(message_id: int) -> TagV {
    TagV {
        class: Class::Universal(UniversalTypes::Integer),
        structure: Structure::Primitive,
        length: spec_int_bytes(message_id).len() as u64,
        payload: PayloadV::Primitive(spec_int_bytes(message_id)),
        size: spec_tag_size(
            Class::Universal(UniversalTypes::Integer),
            spec_int_bytes(message_id).len() as int,
        ) as u64,
    }
}

/// The model of one whole protocol message: a constructed universal
/// sequence holding the message-identifier integer, then the operation tag.
pub open spec fn spec_envelope(t: TagV, message_id: int) -> TagV {
    TagV {
        class: Class::Universal(UniversalTypes::Sequence),
        structure: Structure::Constructed,
        length: tags_size_sum(seq![spec_message_id_tag(message_id), t]) as u64,
        payload: PayloadV::Constructed(seq![spec_message_id_tag(message_id), t]),
        size: spec_tag_size(
            Class::Universal(UniversalTypes::Sequence),
            tags_size_sum(seq![spec_message_id_tag(message_id), t]),
        ) as u64,
    }
}

/// Produces the wire bytes of one protocol message: a constructed
/// universal sequence whose payload is a universal integer holding the
/// message identifier followed by the caller's operation tag. It fails
/// exactly when the assembled message would not fit 64-bit size
/// arithmetic, which cannot happen for messages that fit in memory.
pub fn encode(tag: Tag, message_id: i64) -> (res: Result<Vec<u8>, ASN1Error>)
    requires
        tag_wf(tag_model(tag)),
    ensures
        res is Ok <==> spec_tag_size(
            Class::Universal(UniversalTypes::Sequence),
            tags_size_sum(seq![spec_message_id_tag(message_id as int), tag_model(tag)]),
        ) <= u64::MAX,
        res matches Ok(buf) ==> {
            &&& tag_wf(spec_envelope(tag_model(tag), message_id as int))
            &&& buf@ == spec_encode_tag(spec_envelope(tag_model(tag), message_id as int))
        },
        res matches Err(e) ==> e == ASN1Error::InvalidASN1,
{
    let ghost midv = spec_message_id_tag(message_id as int);
    let ghost opv = tag_model(tag);
    proof {
        lemma_int_bytes_len(message_id as int);
        lemma_tags_size_sum_two(midv, opv);
    }
    let mut idbytes: Vec<u8> = Vec::new();
    push_int_bytes(&mut idbytes, message_id);
    let mid_tag: Tag = crate::common::construct(
        Class::Universal(UniversalTypes::Integer),
        Payload::Primitive(idbytes),
    );
    proof {
        assert(tag_model(mid_tag) =~= midv);
    }
    if tag.size > u64::MAX - mid_tag.size {
        proof {
            lemma_envelope_overflow(midv.size + opv.size);
        }
        return Err(ASN1Error::InvalidASN1);
    }
    let inner: u64 = mid_tag.size + tag.size;
    if inner > u64::MAX - 10 {
        proof {
            lemma_envelope_overflow(inner as int);
        }
        return Err(ASN1Error::InvalidASN1);
    }
    proof {
        lemma_be_len_bound(inner as int);
        assert(spec_tag_size(Class::Universal(UniversalTypes::Sequence), inner as int)
            <= u64::MAX);
    }
    let children: Vec<Tag> = vec![mid_tag, tag];
    proof {
        lemma_tags_model(children@);
        assert(tags_model(children@) =~= seq![midv, opv]);
        assert(payload_wf(PayloadV::Constructed(seq![midv, opv])));
    }
    let envelope: Tag = crate::common::construct(
        Class::Universal(UniversalTypes::Sequence),
        Payload::Constructed(children),
    );
    proof {
        assert(tag_model(envelope) =~= spec_envelope(opv, message_id as int));
    }
    let out: Vec<u8> = encode_tag(&envelope);
    Ok(out)
}

/// An inner length above `u64::MAX - 10` pushes the envelope's total size
/// past `u64::MAX`: such a length needs the full eight length bytes.
proof fn lemma_envelope_overflow(inner: int)
    requires
        u64::MAX - 10 < inner,
    ensures
        spec_tag_size(Class::Universal(UniversalTypes::Sequence), inner) > u64::MAX,
{
    assert(pow256(7) == 0x100_0000_0000_0000) by {
        reveal_with_fuel(pow256, 8);
    };
    lemma_be_len_ge(inner, 8);
}

/// For a well-formed tag, the encoding occupies exactly the cached total
/// size, field by field.
pub proof fn lemma_encode_size(t: TagV)
    requires
        tag_wf(t),
    ensures
        spec_type_bytes(t.class, t.structure).len() == spec_type_len(t.class),
        spec_len_bytes(t.length as int).len() == spec_len_len(t.length as int),
        spec_payload_bytes(t.payload).len() == t.length,
        spec_encode_tag(t).len() == t.size,
    decreases t,
{
    lemma_spec_base128_len(class_number(t.class));
    lemma_spec_be_bytes_len(t.length as int);
    match t.payload {
        PayloadV::Primitive(_) => {},
        PayloadV::Constructed(ts) => {
            lemma_encode_tags_size(ts);
        },
    }
}

/// A sequence of well-formed tags encodes to exactly the sum of the
/// cached sizes.
pub proof fn lemma_encode_tags_size(ts: Seq<TagV>)
    requires
        forall|i: int| 0 <= i < ts.len() ==> tag_wf(#[trigger] ts[i]),
    ensures
        spec_encode_tags(ts).len() == tags_size_sum(ts),
    decreases ts,
{
    if ts.len() != 0 {
        lemma_encode_size(ts[0]);
        assert forall|i: int| 0 <= i < ts.drop_first().len() implies tag_wf(
            #[trigger] ts.drop_first()[i],
        ) by {
            assert(ts.drop_first()[i] == ts[i + 1]);
        }
        lemma_encode_tags_size(ts.drop_first());
    }
}

/// Splitting a known slice of a buffer at a concatenation point.
proof fn lemma_slice_split(buf: Seq<u8>, pos: int, a: Seq<u8>, b: Seq<u8>)
    requires
        0 <= pos,
        pos + a.len() + b.len() <= buf.len(),
        buf.subrange(pos, pos + a.len() + b.len()) == a + b,
    ensures
        buf.subrange(pos, pos + a.len()) == a,
        buf.subrange(pos + a.len(), pos + a.len() + b.len()) == b,
{
    assert forall|i: int| 0 <= i < a.len() + b.len() implies buf[pos + i] == (a + b)[i] by {
        assert(buf.subrange(pos, pos + a.len() + b.len())[i] == buf[pos + i]);
    }
    assert forall|j: int| 0 <= j < a.len() implies buf.subrange(pos, pos + a.len())[j] == a[j] by {
        assert(buf[pos + j] == (a + b)[j]);
    }
    assert(buf.subrange(pos, pos + a.len()) =~= a);
    assert forall|j: int| 0 <= j < b.len() implies buf.subrange(
        pos + a.len(),
        pos + a.len() + b.len(),
    )[j] == b[j] by {
        assert(buf[pos + (a.len() + j)] == (a + b)[a.len() + j]);
    }
    assert(buf.subrange(pos + a.len(), pos + a.len() + b.len()) =~= b);
}

/// Parsing the continuation-marked groups of `m` multiplies the
/// accumulator through and adds `m`, then goes on behind them.
proof fn lemma_parse_base128_hi(buf: Seq<u8>, pos: int, m: int, acc: int)
    requires
        0 <= m,
        0 <= acc,
        acc * pow128(base128_len(m)) + m <= i64::MAX,
        0 <= pos,
        pos + base128_len(m) <= buf.len(),
        buf.subrange(pos, pos + base128_len(m)) == spec_base128_hi(m),
    ensures
        spec_parse_base128(buf, pos, acc) == spec_parse_base128(
            buf,
            pos + base128_len(m),
            acc * pow128(base128_len(m)) + m,
        ),
    decreases m,
{
    lemma_spec_base128_len(m);
    if m < 128 {
        assert(pow128(0) == 1);
        assert(pow128(1) == 128);
        assert(buf.subrange(pos, pos + 1)[0] == buf[pos]);
        assert(buf[pos] == (128 + m) as u8);
        assert(((128 + m) as u8) as int % 128 == m);
        assert(acc <= (i64::MAX - m) / 128) by (nonlinear_arith)
            requires
                acc * 128 + m <= i64::MAX,
                0 <= m < 128,
                0 <= acc,
        ;
    } else {
        let m1 = m / 128;
        let r = m % 128;
        let lp = base128_len(m1);
        lemma_spec_base128_len(m1);
        lemma_pow128_pos(lp);
        assert(pow128(lp + 1) == 128 * pow128(lp));
        assert(spec_base128_hi(m) == spec_base128_hi(m1) + seq![(128 + r) as u8]);
        lemma_slice_split(buf, pos, spec_base128_hi(m1), seq![(128 + r) as u8]);
        let acc1 = acc * pow128(lp) + m1;
        assert(acc1 * 128 + r == acc * pow128(lp + 1) + m) by (nonlinear_arith)
            requires
                acc1 == acc * pow128(lp) + m1,
                m == m1 * 128 + r,
                pow128(lp + 1) == 128 * pow128(lp),
        ;
        assert(acc * pow128(lp) + m1 <= i64::MAX) by (nonlinear_arith)
            requires
                acc1 * 128 + r == acc * pow128(lp + 1) + m,
                acc1 == acc * pow128(lp) + m1,
                acc * pow128(lp + 1) + m <= i64::MAX,
                0 <= r,
                0 <= m1,
                0 <= acc,
                pow128(lp) >= 1,
        ;
        lemma_parse_base128_hi(buf, pos, m1, acc);
        assert(buf.subrange(pos + lp, pos + lp + 1)[0] == buf[pos + lp]);
        assert(buf[pos + lp] == (128 + r) as u8);
        assert(((128 + r) as u8) as int % 128 == r);
        assert(acc1 <= (i64::MAX - r) / 128) by (nonlinear_arith)
            requires
                acc1 * 128 + r <= i64::MAX,
                0 <= r < 128,
                0 <= acc1,
        ;
        assert(0 <= acc1) by (nonlinear_arith)
            requires
                0 <= acc,
                0 <= m1,
                pow128(lp) >= 1,
                acc1 == acc * pow128(lp) + m1,
        ;
    }
}

/// Powers of 128 are positive.
proof fn lemma_pow128_pos(k: int)
    ensures
        pow128(k) >= 1,
    decreases k,
{
    if k > 0 {
        lemma_pow128_pos(k - 1);
    }
}

/// Powers of 256 are positive.
proof fn lemma_pow256_pos(k: int)
    ensures
        pow256(k) >= 1,
    decreases k,
{
    if k > 0 {
        lemma_pow256_pos(k - 1);
    }
}

/// Parsing the base-128 encoding of `n` yields `n` and stops right after
/// it.
proof fn lemma_parse_base128_round(buf: Seq<u8>, pos: int, n: int)
    requires
        0 <= n <= i64::MAX,
        0 <= pos,
        pos + base128_len(n) <= buf.len(),
        buf.subrange(pos, pos + base128_len(n)) == spec_base128(n),
    ensures
        spec_parse_base128(buf, pos, 0) == Ok::<(int, int), ASN1Error>(
            (n, pos + base128_len(n)),
        ),
{
    lemma_spec_base128_len(n);
    if n < 128 {
        assert(buf.subrange(pos, pos + 1)[0] == buf[pos]);
        assert(buf[pos] == n as u8);
        assert((n as u8) as int % 128 == n);
        assert((i64::MAX - n) / 128 >= 0) by (nonlinear_arith)
            requires
                0 <= n <= i64::MAX,
        ;
    } else {
        let m = n / 128;
        let r = n % 128;
        let lp = base128_len(m);
        lemma_spec_base128_len(m);
        assert(spec_base128(n) == spec_base128_hi(m) + seq![r as u8]);
        lemma_slice_split(buf, pos, spec_base128_hi(m), seq![r as u8]);
        lemma_pow128_pos(lp);
        assert(0 * pow128(lp) + m == m);
        assert(m <= i64::MAX);
        lemma_parse_base128_hi(buf, pos, m, 0);
        assert(buf.subrange(pos + lp, pos + lp + 1)[0] == buf[pos + lp]);
        assert(buf[pos + lp] == r as u8);
        assert((r as u8) as int % 128 == r);
        assert(m <= (i64::MAX - r) / 128) by (nonlinear_arith)
            requires
                m * 128 + r <= i64::MAX,
                0 <= r < 128,
                0 <= m,
        ;
        assert(m * 128 + r == n);
    }
}

/// Parsing `be_len(l)` big-endian bytes holding `l` multiplies the
/// accumulator through and adds `l`, leaving `extra` bytes of the count.
proof fn lemma_parse_be_acc(buf: Seq<u8>, pos: int, l: int, acc: int, extra: int)
    requires
        0 <= l,
        0 <= acc,
        0 <= extra,
        0 <= pos,
        acc * pow256(be_len(l)) + l <= u64::MAX,
        pos + be_len(l) <= buf.len(),
        buf.subrange(pos, pos + be_len(l)) == spec_be_bytes(l),
    ensures
        spec_parse_be(buf, pos, be_len(l) + extra, acc) == spec_parse_be(
            buf,
            pos + be_len(l),
            extra,
            acc * pow256(be_len(l)) + l,
        ),
    decreases l,
{
    lemma_spec_be_bytes_len(l);
    if l < 256 {
        assert(pow256(0) == 1);
        assert(pow256(1) == 256);
        assert(buf.subrange(pos, pos + 1)[0] == buf[pos]);
        assert(buf[pos] == l as u8);
        assert(acc <= (u64::MAX - l) / 256) by (nonlinear_arith)
            requires
                acc * 256 + l <= u64::MAX,
                0 <= l < 256,
                0 <= acc,
        ;
    } else {
        let m = l / 256;
        let r = l % 256;
        let kp = be_len(m);
        lemma_spec_be_bytes_len(m);
        lemma_pow256_pos(kp);
        assert(pow256(kp + 1) == 256 * pow256(kp));
        assert(spec_be_bytes(l) == spec_be_bytes(m) + seq![r as u8]);
        lemma_slice_split(buf, pos, spec_be_bytes(m), seq![r as u8]);
        let acc1 = acc * pow256(kp) + m;
        assert(acc1 * 256 + r == acc * pow256(kp + 1) + l) by (nonlinear_arith)
            requires
                acc1 == acc * pow256(kp) + m,
                l == m * 256 + r,
                pow256(kp + 1) == 256 * pow256(kp),
        ;
        assert(0 <= acc1) by (nonlinear_arith)
            requires
                0 <= acc,
                0 <= m,
                pow256(kp) >= 1,
                acc1 == acc * pow256(kp) + m,
        ;
        assert(acc * pow256(kp) + m <= u64::MAX) by (nonlinear_arith)
            requires
                acc1 * 256 + r == acc * pow256(kp + 1) + l,
                acc1 == acc * pow256(kp) + m,
                acc * pow256(kp + 1) + l <= u64::MAX,
                0 <= r,
                0 <= acc1,
        ;
        lemma_parse_be_acc(buf, pos, m, acc, extra + 1);
        assert(buf.subrange(pos + kp, pos + kp + 1)[0] == buf[pos + kp]);
        assert(buf[pos + kp] == r as u8);
        assert(acc1 <= (u64::MAX - r) / 256) by (nonlinear_arith)
            requires
                acc1 * 256 + r <= u64::MAX,
                0 <= r < 256,
                0 <= acc1,
        ;
    }
}

/// Parsing the length field that encodes `l` yields `l` and stops right
/// after it.
proof fn lemma_parse_len_round(buf: Seq<u8>, pos: int, l: int)
    requires
        0 <= l <= u64::MAX,
        0 <= pos,
        pos + spec_len_len(l) <= buf.len(),
        buf.subrange(pos, pos + spec_len_len(l)) == spec_len_bytes(l),
    ensures
        spec_parse_len(buf, pos) == Ok::<(u64, int), ASN1Error>((l as u64, pos + spec_len_len(l))),
{
    if l < 128 {
        assert(buf.subrange(pos, pos + 1)[0] == buf[pos]);
        assert(buf[pos] == l as u8);
    } else {
        lemma_be_len_bound(l);
        lemma_spec_be_bytes_len(l);
        let k = be_len(l);
        assert(spec_len_bytes(l) == seq![(128 + k) as u8] + spec_be_bytes(l));
        lemma_slice_split(buf, pos, seq![(128 + k) as u8], spec_be_bytes(l));
        assert(buf.subrange(pos, pos + 1)[0] == buf[pos]);
        assert(buf[pos] == (128 + k) as u8);
        assert(((128 + k) as u8) as int == 128 + k);
        lemma_pow256_pos(k);
        lemma_parse_be_acc(buf, pos + 1, l, 0, 0);
        assert(0 * pow256(k) + l == l);
        assert(spec_parse_be(buf, pos + 1 + k, 0, l) == Ok::<(u64, int), ASN1Error>(
            (l as u64, pos + 1 + k),
        ));
    }
}

/// Unpacking the first type byte recovers its three packed fields.
proof fn lemma_first_byte(sel: int, sbit: int, low5: int)
    requires
        0 <= sel <= 3,
        0 <= sbit <= 1,
        0 <= low5 <= 31,
    ensures
        0 <= sel * 64 + sbit * 32 + low5 < 256,
        (sel * 64 + sbit * 32 + low5) / 64 == sel,
        ((sel * 64 + sbit * 32 + low5) / 32) % 2 == sbit,
        (sel * 64 + sbit * 32 + low5) % 32 == low5,
{
    let v = sel * 64 + sbit * 32 + low5;
    assert(v / 64 == sel && (v / 32) % 2 == sbit && v % 32 == low5) by (nonlinear_arith)
        requires
            0 <= sel <= 3,
            0 <= sbit <= 1,
            0 <= low5 <= 31,
            v == sel * 64 + sbit * 32 + low5,
    ;
}

/// Rebuilding a well-formed class from its own selector and number gives
/// the class back.
proof fn lemma_class_construct_round(c: Class)
    requires
        class_wf(c),
    ensures
        spec_class_construct(class_sel(c), class_number(c)) == Ok::<Class, ASN1Error>(c),
{
    match c {
        Class::Universal(u) => {
            assert(0 <= universal_code(u) <= 30);
            assert(valid_universal_code(universal_code(u) as u8));
            assert(universal_from_code(universal_code(u) as u8) == u);
        },
        Class::Application(_) => {},
        Class::ContextSpecific(_) => {},
        Class::Private(_) => {},
    }
}

/// Parsing at `pos` of a buffer whose slice there is the encoding of a
/// well-formed tag yields exactly that tag.
pub proof fn lemma_decode_encode_at(buf: Seq<u8>, pos: int, t: TagV)
    requires
        tag_wf(t),
        0 <= pos,
        pos + t.size <= buf.len(),
        buf.subrange(pos, pos + t.size as int) == spec_encode_tag(t),
    ensures
        spec_decode_tag(buf, pos) == Ok::<(TagV, int), ASN1Error>((t, pos + t.size as int)),
    decreases t,
{
    lemma_encode_size(t);
    let c = t.class;
    let s = t.structure;
    let l = t.length as int;
    let tb = spec_type_bytes(c, s);
    let lb = spec_len_bytes(l);
    let pb = spec_payload_bytes(t.payload);
    let tlen = tb.len() as int;
    let llen = lb.len() as int;
    assert(spec_encode_tag(t) == (tb + lb) + pb);
    lemma_slice_split(buf, pos, tb + lb, pb);
    lemma_slice_split(buf, pos, tb, lb);
    let p1 = pos + tlen;
    let p2 = p1 + llen;
    lemma_base128_len_pos(class_number(c));
    lemma_be_len_pos(l);

    let sel = class_sel(c);
    let sbit = structure_bit(s);
    let escape = !(sel == 0 || class_number(c) <= 30);
    let low5: int = if escape {
        31
    } else {
        class_number(c)
    };
    assert(0 <= sel <= 3);
    assert(0 <= sbit <= 1);
    assert(0 <= low5 <= 31);
    lemma_first_byte(sel, sbit, low5);
    let fbv = sel * 64 + sbit * 32 + low5;
    assert(tb[0] == fbv as u8);
    assert(buf.subrange(pos, pos + tlen)[0] == buf[pos]);
    assert(buf[pos] == fbv as u8);
    assert((fbv as u8) as int == fbv);

    if escape {
        let n = class_number(c);
        assert(tb =~= seq![fbv as u8] + spec_base128(n));
        assert forall|i: int| 0 <= i < tlen implies buf[pos + i] == tb[i] by {
            assert(buf.subrange(pos, pos + tlen)[i] == buf[pos + i]);
        }
        assert forall|j: int| 0 <= j < tlen - 1 implies buf.subrange(pos + 1, pos + tlen)[j]
            == spec_base128(n)[j] by {
            assert(buf[pos + (1 + j)] == tb[1 + j]);
        }
        assert(buf.subrange(pos + 1, pos + tlen) =~= spec_base128(n));
        assert(n <= i64::MAX);
        lemma_parse_base128_round(buf, pos + 1, n);
        assert(spec_parse_base128(buf, pos + 1, 0) == Ok::<(int, int), ASN1Error>((n, p1)));
    }
    lemma_class_construct_round(c);
    lemma_parse_len_round(buf, p1, l);

    match t.payload {
        PayloadV::Primitive(bytes) => {
            assert(sbit == 0);
            assert(buf.subrange(p2, p2 + l) =~= bytes);
            let dec = TagV {
                class: c,
                structure: Structure::Primitive,
                length: t.length,
                payload: PayloadV::Primitive(buf.subrange(p2, p2 + l)),
                size: (p2 + l - pos) as u64,
            };
            assert(dec =~= t);
            assert(spec_decode_tag(buf, pos) == Ok::<(TagV, int), ASN1Error>((dec, p2 + l)));
        },
        PayloadV::Constructed(ts) => {
            assert(sbit == 1);
            assert(l == tags_size_sum(ts));
            lemma_decode_encode_children(buf, p2, ts);
            let dec = TagV {
                class: c,
                structure: Structure::Constructed,
                length: t.length,
                payload: PayloadV::Constructed(ts),
                size: (p2 + l - pos) as u64,
            };
            assert(dec =~= t);
            assert(spec_decode_tag(buf, pos) == Ok::<(TagV, int), ASN1Error>((dec, p2 + l)));
        },
    }
}

/// Parsing children over a slice holding the encodings of a sequence of
/// well-formed tags yields exactly those tags.
pub proof fn lemma_decode_encode_children(buf: Seq<u8>, pos: int, ts: Seq<TagV>)
    requires
        forall|i: int| 0 <= i < ts.len() ==> tag_wf(#[trigger] ts[i]),
        0 <= pos,
        pos + tags_size_sum(ts) <= buf.len(),
        buf.subrange(pos, pos + tags_size_sum(ts)) == spec_encode_tags(ts),
    ensures
        spec_decode_children(buf, pos, pos + tags_size_sum(ts)) == Ok::<Seq<TagV>, ASN1Error>(ts),
    decreases ts,
{
    lemma_encode_tags_size(ts);
    if ts.len() == 0 {
        assert(Seq::<TagV>::empty() =~= ts);
    } else {
        let t0 = ts[0];
        let rest = ts.drop_first();
        assert forall|i: int| 0 <= i < rest.len() implies tag_wf(#[trigger] rest[i]) by {
            assert(rest[i] == ts[i + 1]);
        }
        lemma_encode_size(t0);
        lemma_encode_tags_size(rest);
        lemma_tags_size_sum_nonneg(rest);
        let sum = tags_size_sum(ts);
        let end = pos + sum;
        assert(sum == t0.size + tags_size_sum(rest));
        assert(spec_encode_tags(ts) == spec_encode_tag(t0) + spec_encode_tags(rest));
        lemma_slice_split(buf, pos, spec_encode_tag(t0), spec_encode_tags(rest));
        lemma_decode_encode_at(buf, pos, t0);
        let p = pos + t0.size as int;
        lemma_base128_len_pos(class_number(t0.class));
        lemma_be_len_pos(t0.length as int);
        assert(t0.size >= 2);
        lemma_decode_encode_children(buf, p, rest);
        assert(seq![ts[0]] + ts.drop_first() =~= ts);
    }
}

/// What decoding guarantees of every tag it hands out: the class is well
/// formed, the structure flag agrees with the payload variant, the
/// declared length equals the payload's own computed length, and the same
/// holds of every child. It is `tag_wf` without the cached-size equation,
/// which only canonical wire forms satisfy.
pub open spec fn decoded_wf(t: TagV) -> bool
    decreases t,
{
    &&& class_wf(t.class)
    &&& (t.structure == Structure::Primitive <==> t.payload is Primitive)
    &&& (t.structure == Structure::Constructed <==> t.payload is Constructed)
    &&& t.length == spec_payload_len(t.payload)
    &&& match t.payload {
        PayloadV::Primitive(_) => true,
        PayloadV::Constructed(ts) => forall|i: int|
            0 <= i < ts.len() ==> decoded_wf(#[trigger] ts[i]),
    }
}

/// A successful base-128 parse yields a number in the `i64` range and
/// advances within the buffer.
proof fn lemma_parse_base128_sound(buf: Seq<u8>, pos: int, acc: int)
    requires
        0 <= acc,
    ensures
        spec_parse_base128(buf, pos, acc) matches Ok(np) ==> 0 <= np.0 <= i64::MAX && pos < np.1
            <= buf.len(),
    decreases buf.len() - pos,
{
    if 0 <= pos < buf.len() {
        let b = buf[pos];
        let low = (b as int) % 128;
        if !(acc > (i64::MAX - low) / 128) {
            assert(acc * 128 + low <= i64::MAX) by (nonlinear_arith)
                requires
                    acc <= (i64::MAX - low) / 128,
                    0 <= low < 128,
                    0 <= acc,
            ;
            if b >= 128 {
                lemma_parse_base128_sound(buf, pos + 1, acc * 128 + low);
            }
        }
    }
}

/// A successful big-endian parse stays within the buffer.
proof fn lemma_parse_be_sound(buf: Seq<u8>, pos: int, k: int, acc: int)
    requires
        0 <= pos <= buf.len(),
    ensures
        spec_parse_be(buf, pos, k, acc) matches Ok(lp) ==> pos <= lp.1 <= buf.len(),
    decreases k,
{
    if k > 0 && 0 <= pos < buf.len() {
        let b = buf[pos] as int;
        if !(acc > (u64::MAX - b) / 256) {
            lemma_parse_be_sound(buf, pos + 1, k - 1, acc * 256 + b);
        }
    }
}

/// A successful length parse advances within the buffer.
proof fn lemma_parse_len_sound(buf: Seq<u8>, pos: int)
    ensures
        spec_parse_len(buf, pos) matches Ok(lp) ==> pos < lp.1 <= buf.len(),
{
    if 0 <= pos < buf.len() {
        let b0 = buf[pos];
        if b0 > 128 {
            lemma_parse_be_sound(buf, pos + 1, (b0 - 128) as int, 0);
        }
    }
}

/// Decoding never hands out a corrupt tag: every successfully parsed tag
/// satisfies the structural invariants, and its cached size is exactly the
/// number of bytes it consumed.
pub proof fn lemma_decode_sound(buf: Seq<u8>, pos: int)
    requires
        buf.len() <= u64::MAX,
    ensures
        spec_decode_tag(buf, pos) matches Ok(tp) ==> decoded_wf(tp.0) && pos < tp.1 <= buf.len()
            && tp.0.size == tp.1 - pos,
    decreases buf.len() - pos, 0int,
{
    if 0 <= pos < buf.len() {
        let b = buf[pos];
        let low5 = (b as int) % 32;
        if low5 >= 31 {
            lemma_parse_base128_sound(buf, pos + 1, 0);
        }
        match (if low5 < 31 {
            Ok::<(int, int), ASN1Error>((low5, pos + 1))
        } else {
            spec_parse_base128(buf, pos + 1, 0)
        }) {
            Err(_) => {},
            Ok((number, p1)) => {
                lemma_parse_len_sound(buf, p1);
                match spec_parse_len(buf, p1) {
                    Err(_) => {},
                    Ok((len, p2)) => {
                        if pos < p2 <= buf.len() && p2 + (len as int) <= buf.len() {
                            let sbit = ((b as int) / 32) % 2;
                            if sbit != 0 {
                                lemma_decode_children_sound(buf, p2, p2 + (len as int));
                            }
                        }
                    },
                }
            },
        }
    }
}

/// Children parsed from a window are each sound and together account for
/// exactly the window.
pub proof fn lemma_decode_children_sound(buf: Seq<u8>, pos: int, end: int)
    requires
        buf.len() <= u64::MAX,
    ensures
        spec_decode_children(buf, pos, end) matches Ok(ts) ==> (forall|i: int|
            0 <= i < ts.len() ==> decoded_wf(#[trigger] ts[i])) && tags_size_sum(ts) == end - pos,
    decreases buf.len() - pos, 1int,
{
    if pos == end {
    } else if pos < 0 || pos > end || end > buf.len() {
    } else {
        lemma_decode_sound(buf, pos);
        match spec_decode_tag(buf, pos) {
            Err(_) => {},
            Ok((child, p)) => {
                if pos < p <= end {
                    lemma_decode_children_sound(buf, p, end);
                    match spec_decode_children(buf, p, end) {
                        Err(_) => {},
                        Ok(rest) => {
                            assert((seq![child] + rest).drop_first() =~= rest);
                            assert((seq![child] + rest)[0] == child);
                            assert forall|i: int| 0 <= i < (seq![child] + rest).len() implies
                                decoded_wf(#[trigger] (seq![child] + rest)[i]) by {
                                if i > 0 {
                                    assert((seq![child] + rest)[i] == rest[i - 1]);
                                }
                            }
                        },
                    }
                }
            },
        }
    }
}

/// Round trip: every well-formed tag decodes from its own encoding back
/// to itself, consuming exactly its cached total size.
pub proof fn lemma_round_trip(t: TagV)
    requires
        tag_wf(t),
    ensures
        spec_encode_tag(t).len() == t.size,
        spec_decode_tag(spec_encode_tag(t), 0) == Ok::<(TagV, int), ASN1Error>(
            (t, t.size as int),
        ),
{
    lemma_encode_size(t);
    let buf = spec_encode_tag(t);
    assert(buf.subrange(0, t.size as int) =~= buf);
    lemma_decode_encode_at(buf, 0, t);
}

} // verus!

