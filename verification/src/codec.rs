//! The wire format: three record kinds on a self-delimited byte frame.
//!
//! A frame is a little-endian `u32` length (counting everything after the
//! prefix), one tag byte, and a list of fields. Each field is an id byte,
//! a little-endian `u32` payload length, and the payload. Field ids are
//! stable; a reader skips fields whose id it does not expect, so records
//! may grow without breaking old readers. Strings travel as UTF-8,
//! scalars as the bit patterns of IEEE-754 doubles, stamps as signed
//! 64-bit nanosecond counts.

use vstd::prelude::*;
use vstd::bytes::{
    spec_u32_from_le_bytes, spec_u32_to_le_bytes, spec_u64_from_le_bytes, spec_u64_to_le_bytes,
    u32_from_le_bytes, u32_to_le_bytes, u64_from_le_bytes, u64_to_le_bytes,
};
use vstd::slice::{slice_index_get, slice_subrange};
use vstd::utf8::{decode_utf8, encode_utf8, valid_utf8};
use crate::types::{TransformType, spec_kind_of_value, spec_kind_value};

verus! {

/// The tag of a transform publication.
pub const NEW_TRANSFORM_TAG: u8 = 1;

/// The tag of a transform query.
pub const TRANSFORM_REQUEST_TAG: u8 = 2;

/// The tag of a query reply.
pub const TRANSFORM_RESPONSE_TAG: u8 = 3;

/// The largest UTF-8 length a string field may have on the wire.
pub const MAX_STRING_BYTES: usize = 0x0100_0000;

/// A published transform sample: the directed pair, the stamp, the pose
/// as double bit patterns (rotation as x, y, z, w) and the edge kind.
pub struct NewTransform {
    pub from: String,
    pub to: String,
    pub time: i64,
    pub translation: [u64; 3],
    pub rotation: [u64; 4],
    pub kind: TransformType,
}

/// A transform query: a correlation id, the directed pair, and the
/// instant (zero asks for the latest sample).
pub struct TransformRequest {
    pub id: u64,
    pub from: String,
    pub to: String,
    pub time: i64,
}

/// A query reply: the echoed correlation id, the instant, the pose, the
/// success flag, and a message when the lookup failed. On failure the
/// pose fields carry the identity and are to be ignored.
pub struct TransformResponse {
    pub id: u64,
    pub time: i64,
    pub translation: [u64; 3],
    pub rotation: [u64; 4],
    pub success: bool,
    pub error_message: String,
}

/// The mathematical content of a `NewTransform`.
pub ghost struct NewTransformModel {
    pub from: Seq<char>,
    pub to: Seq<char>,
    pub time: i64,
    pub translation: Seq<u64>,
    pub rotation: Seq<u64>,
    pub kind: TransformType,
}

/// The mathematical content of a `TransformRequest`.
pub ghost struct TransformRequestModel {
    pub id: u64,
    pub from: Seq<char>,
    pub to: Seq<char>,
    pub time: i64,
}

/// The mathematical content of a `TransformResponse`.
pub ghost struct TransformResponseModel {
    pub id: u64,
    pub time: i64,
    pub translation: Seq<u64>,
    pub rotation: Seq<u64>,
    pub success: bool,
    pub error_message: Seq<char>,
}

impl View for NewTransform {
    type V = NewTransformModel;

    open spec fn view(&self) -> NewTransformModel {
        NewTransformModel {
            from: self.from@,
            to: self.to@,
            time: self.time,
            translation: self.translation@,
            rotation: self.rotation@,
            kind: self.kind,
        }
    }
}

impl View for TransformRequest {
    type V = TransformRequestModel;

    open spec fn view(&self) -> TransformRequestModel {
        TransformRequestModel { id: self.id, from: self.from@, to: self.to@, time: self.time }
    }
}

impl View for TransformResponse {
    type V = TransformResponseModel;

    open spec fn view(&self) -> TransformResponseModel {
        TransformResponseModel {
            id: self.id,
            time: self.time,
            translation: self.translation@,
            rotation: self.rotation@,
            success: self.success,
            error_message: self.error_message@,
        }
    }
}

/// One field on the wire: id, payload length, payload.
pub open spec fn spec_field(id: u8, payload: Seq<u8>) -> Seq<u8> {
    seq![id] + spec_u32_to_le_bytes(payload.len() as u32) + payload
}

/// One frame on the wire: length of the rest, tag, fields.
pub open spec fn spec_frame(tag: u8, body: Seq<u8>) -> Seq<u8> {
    spec_u32_to_le_bytes((body.len() + 1) as u32) + seq![tag] + body
}

/// Scans the fields for the first one with the wanted id, skipping every
/// other field, and gives its payload and what follows it.
pub open spec fn spec_take_field(bytes: Seq<u8>, id: u8) -> Option<(Seq<u8>, Seq<u8>)>
    decreases bytes.len(),
{
    if bytes.len() < 5 {
        None
    } else {
        let flen = spec_u32_from_le_bytes(bytes.subrange(1, 5)) as int;
        if bytes.len() < 5 + flen {
            None
        } else if bytes[0] == id {
            Some((bytes.subrange(5, 5 + flen), bytes.skip(5 + flen)))
        } else {
            spec_take_field(bytes.skip(5 + flen), id)
        }
    }
}

/// The body of a transform publication.
pub open spec fn spec_new_transform_body(m: NewTransformModel) -> Seq<u8> {
    spec_field(1, encode_utf8(m.from)) + spec_field(2, encode_utf8(m.to)) + spec_field(
        3,
        spec_u64_to_le_bytes(m.time as u64),
    ) + spec_field(
        4,
        spec_u64_to_le_bytes(m.translation[0]) + spec_u64_to_le_bytes(m.translation[1])
            + spec_u64_to_le_bytes(m.translation[2]),
    ) + spec_field(
        5,
        spec_u64_to_le_bytes(m.rotation[0]) + spec_u64_to_le_bytes(m.rotation[1])
            + spec_u64_to_le_bytes(m.rotation[2]) + spec_u64_to_le_bytes(m.rotation[3]),
    ) + spec_field(6, seq![spec_kind_value(m.kind)])
}

/// The encoded frame of a transform publication.
pub open spec fn spec_encode_new_transform(m: NewTransformModel) -> Seq<u8> {
    spec_frame(NEW_TRANSFORM_TAG, spec_new_transform_body(m))
}

/// The body of a transform query.
pub open spec fn spec_transform_request_body(m: TransformRequestModel) -> Seq<u8> {
    spec_field(1, spec_u64_to_le_bytes(m.id)) + spec_field(2, encode_utf8(m.from)) + spec_field(
        3,
        encode_utf8(m.to),
    ) + spec_field(4, spec_u64_to_le_bytes(m.time as u64))
}

/// The encoded frame of a transform query.
pub open spec fn spec_encode_transform_request(m: TransformRequestModel) -> Seq<u8> {
    spec_frame(TRANSFORM_REQUEST_TAG, spec_transform_request_body(m))
}

/// The body of a query reply.
pub open spec fn spec_transform_response_body(m: TransformResponseModel) -> Seq<u8> {
    spec_field(1, spec_u64_to_le_bytes(m.id)) + spec_field(
        2,
        spec_u64_to_le_bytes(m.time as u64),
    ) + spec_field(
        3,
        spec_u64_to_le_bytes(m.translation[0]) + spec_u64_to_le_bytes(m.translation[1])
            + spec_u64_to_le_bytes(m.translation[2]),
    ) + spec_field(
        4,
        spec_u64_to_le_bytes(m.rotation[0]) + spec_u64_to_le_bytes(m.rotation[1])
            + spec_u64_to_le_bytes(m.rotation[2]) + spec_u64_to_le_bytes(m.rotation[3]),
    ) + spec_field(
        5,
        seq![
            if m.success {
                1u8
            } else {
                0u8
            }
        ],
    ) + spec_field(6, encode_utf8(m.error_message))
}

/// The encoded frame of a query reply.
pub open spec fn spec_encode_transform_response(m: TransformResponseModel) -> Seq<u8> {
    spec_frame(TRANSFORM_RESPONSE_TAG, spec_transform_response_body(m))
}

/// Whether the frame prefix and tag fit the data, and the body it holds.
pub open spec fn spec_frame_body(data: Seq<u8>, tag: u8) -> Option<Seq<u8>> {
    if data.len() < 5 {
        None
    } else if spec_u32_from_le_bytes(data.subrange(0, 4)) as int != data.len() - 4 {
        None
    } else if data[4] != tag {
        None
    } else {
        Some(data.skip(5))
    }
}

/// What decoding a transform publication yields.
pub open spec fn spec_decode_new_transform(data: Seq<u8>) -> Option<NewTransformModel> {
    match spec_frame_body(data, NEW_TRANSFORM_TAG) {
        None => None,
        Some(body) => match spec_take_field(body, 1) {
            None => None,
            Some((fb, r1)) => match spec_take_field(r1, 2) {
                None => None,
                Some((tb, r2)) => match spec_take_field(r2, 3) {
                    None => None,
                    Some((timeb, r3)) => match spec_take_field(r3, 4) {
                        None => None,
                        Some((trb, r4)) => match spec_take_field(r4, 5) {
                            None => None,
                            Some((rob, r5)) => match spec_take_field(r5, 6) {
                                None => None,
                                Some((kb, r6)) => {
                                    if valid_utf8(fb) && valid_utf8(tb) && timeb.len() == 8
                                        && trb.len() == 24 && rob.len() == 32 && kb.len() == 1
                                        && spec_kind_of_value(kb[0]) is Some {
                                        Some(
                                            NewTransformModel {
                                                from: decode_utf8(fb),
                                                to: decode_utf8(tb),
                                                time: spec_u64_from_le_bytes(timeb) as i64,
                                                translation: seq![
                                                    spec_u64_from_le_bytes(trb.subrange(0, 8)),
                                                    spec_u64_from_le_bytes(trb.subrange(8, 16)),
                                                    spec_u64_from_le_bytes(trb.subrange(16, 24)),
                                                ],
                                                rotation: seq![
                                                    spec_u64_from_le_bytes(rob.subrange(0, 8)),
                                                    spec_u64_from_le_bytes(rob.subrange(8, 16)),
                                                    spec_u64_from_le_bytes(rob.subrange(16, 24)),
                                                    spec_u64_from_le_bytes(rob.subrange(24, 32)),
                                                ],
                                                kind: spec_kind_of_value(kb[0])->Some_0,
                                            },
                                        )
                                    } else {
                                        None
                                    }
                                },
                            },
                        },
                    },
                },
            },
        },
    }
}

/// What decoding a transform query yields.
pub open spec fn spec_decode_transform_request(data: Seq<u8>) -> Option<TransformRequestModel> {
    match spec_frame_body(data, TRANSFORM_REQUEST_TAG) {
        None => None,
        Some(body) => match spec_take_field(body, 1) {
            None => None,
            Some((idb, r1)) => match spec_take_field(r1, 2) {
                None => None,
                Some((fb, r2)) => match spec_take_field(r2, 3) {
                    None => None,
                    Some((tb, r3)) => match spec_take_field(r3, 4) {
                        None => None,
                        Some((timeb, r4)) => {
                            if idb.len() == 8 && valid_utf8(fb) && valid_utf8(tb) && timeb.len()
                                == 8 {
                                Some(
                                    TransformRequestModel {
                                        id: spec_u64_from_le_bytes(idb),
                                        from: decode_utf8(fb),
                                        to: decode_utf8(tb),
                                        time: spec_u64_from_le_bytes(timeb) as i64,
                                    },
                                )
                            } else {
                                None
                            }
                        },
                    },
                },
            },
        },
    }
}

/// What decoding a query reply yields.
pub open spec fn spec_decode_transform_response(data: Seq<u8>) -> Option<
    TransformResponseModel,
> {
    match spec_frame_body(data, TRANSFORM_RESPONSE_TAG) {
        None => None,
        Some(body) => match spec_take_field(body, 1) {
            None => None,
            Some((idb, r1)) => match spec_take_field(r1, 2) {
                None => None,
                Some((timeb, r2)) => match spec_take_field(r2, 3) {
                    None => None,
                    Some((trb, r3)) => match spec_take_field(r3, 4) {
                        None => None,
                        Some((rob, r4)) => match spec_take_field(r4, 5) {
                            None => None,
                            Some((sb, r5)) => match spec_take_field(r5, 6) {
                                None => None,
                                Some((eb, r6)) => {
                                    if idb.len() == 8 && timeb.len() == 8 && trb.len() == 24
                                        && rob.len() == 32 && sb.len() == 1 && (sb[0] == 0 || sb[0]
                                        == 1) && valid_utf8(eb) {
                                        Some(
                                            TransformResponseModel {
                                                id: spec_u64_from_le_bytes(idb),
                                                time: spec_u64_from_le_bytes(timeb) as i64,
                                                translation: seq![
                                                    spec_u64_from_le_bytes(trb.subrange(0, 8)),
                                                    spec_u64_from_le_bytes(trb.subrange(8, 16)),
                                                    spec_u64_from_le_bytes(trb.subrange(16, 24)),
                                                ],
                                                rotation: seq![
                                                    spec_u64_from_le_bytes(rob.subrange(0, 8)),
                                                    spec_u64_from_le_bytes(rob.subrange(8, 16)),
                                                    spec_u64_from_le_bytes(rob.subrange(16, 24)),
                                                    spec_u64_from_le_bytes(rob.subrange(24, 32)),
                                                ],
                                                success: sb[0] == 1,
                                                error_message: decode_utf8(eb),
                                            },
                                        )
                                    } else {
                                        None
                                    }
                                },
                            },
                        },
                    },
                },
            },
        },
    }
}

/// Casting a stamp to its wire word and back is the identity.
proof fn lemma_i64_u64_roundtrip(x: i64)
    ensures
        ((x as u64) as i64) == x,
{
    assert(((x as u64) as i64) == x) by (bit_vector);
}

/// Taking a field finds the front field when the id matches.
proof fn lemma_take_front(id: u8, payload: Seq<u8>, rest: Seq<u8>)
    requires
        payload.len() < 0x1_0000_0000,
    ensures
        spec_take_field(spec_field(id, payload) + rest, id) == Some::<(Seq<u8>, Seq<u8>)>(
            (payload, rest),
        ),
{
    vstd::bytes::lemma_auto_spec_u32_to_from_le_bytes();
    let bytes = spec_field(id, payload) + rest;
    assert(bytes.len() == 5 + payload.len() + rest.len());
    assert(bytes[0] == id);
    assert(bytes.subrange(1, 5) =~= spec_u32_to_le_bytes(payload.len() as u32));
    assert(spec_u32_from_le_bytes(bytes.subrange(1, 5)) as int == payload.len());
    assert(bytes.subrange(5, 5 + payload.len() as int) =~= payload);
    assert(bytes.skip(5 + payload.len() as int) =~= rest);
}

/// Round trip: decoding an encoded transform publication gives the
/// record back, for every record whose strings fit the wire's cap.
#[verifier::rlimit(100)]
pub proof fn lemma_new_transform_roundtrip(m: NewTransformModel)
    requires
        m.translation.len() == 3,
        m.rotation.len() == 4,
        encode_utf8(m.from).len() <= MAX_STRING_BYTES,
        encode_utf8(m.to).len() <= MAX_STRING_BYTES,
    ensures
        spec_decode_new_transform(spec_encode_new_transform(m)) == Some(m),
{
    vstd::bytes::lemma_auto_spec_u32_to_from_le_bytes();
    vstd::bytes::lemma_auto_spec_u64_to_from_le_bytes();
    vstd::utf8::encode_utf8_valid_utf8(m.from);
    vstd::utf8::encode_utf8_decode_utf8(m.from);
    vstd::utf8::encode_utf8_valid_utf8(m.to);
    vstd::utf8::encode_utf8_decode_utf8(m.to);
    let p1 = encode_utf8(m.from);
    let p2 = encode_utf8(m.to);
    let p3 = spec_u64_to_le_bytes(m.time as u64);
    let p4 = spec_u64_to_le_bytes(m.translation[0]) + spec_u64_to_le_bytes(m.translation[1])
        + spec_u64_to_le_bytes(m.translation[2]);
    let p5 = spec_u64_to_le_bytes(m.rotation[0]) + spec_u64_to_le_bytes(m.rotation[1])
        + spec_u64_to_le_bytes(m.rotation[2]) + spec_u64_to_le_bytes(m.rotation[3]);
    let p6 = seq![spec_kind_value(m.kind)];
    let body = spec_new_transform_body(m);
    let data = spec_encode_new_transform(m);
    assert(data.len() == 5 + body.len());
    assert(data.subrange(0, 4) =~= spec_u32_to_le_bytes((body.len() + 1) as u32));
    assert(data[4] == NEW_TRANSFORM_TAG);
    assert(data.skip(5) =~= body);
    assert(spec_frame_body(data, NEW_TRANSFORM_TAG) == Some(body));
    let r1 = spec_field(2, p2) + spec_field(3, p3) + spec_field(4, p4) + spec_field(5, p5)
        + spec_field(6, p6);
    let r2 = spec_field(3, p3) + spec_field(4, p4) + spec_field(5, p5) + spec_field(6, p6);
    let r3 = spec_field(4, p4) + spec_field(5, p5) + spec_field(6, p6);
    let r4 = spec_field(5, p5) + spec_field(6, p6);
    let r5 = spec_field(6, p6);
    assert(body =~= spec_field(1, p1) + r1);
    lemma_take_front(1, p1, r1);
    assert(r1 =~= spec_field(2, p2) + r2);
    lemma_take_front(2, p2, r2);
    assert(r2 =~= spec_field(3, p3) + r3);
    lemma_take_front(3, p3, r3);
    assert(r3 =~= spec_field(4, p4) + r4);
    lemma_take_front(4, p4, r4);
    assert(r4 =~= spec_field(5, p5) + r5);
    lemma_take_front(5, p5, r5);
    assert(r5 =~= spec_field(6, p6) + Seq::<u8>::empty());
    lemma_take_front(6, p6, Seq::<u8>::empty());
    assert(p4.subrange(0, 8) =~= spec_u64_to_le_bytes(m.translation[0]));
    assert(p4.subrange(8, 16) =~= spec_u64_to_le_bytes(m.translation[1]));
    assert(p4.subrange(16, 24) =~= spec_u64_to_le_bytes(m.translation[2]));
    assert(p5.subrange(0, 8) =~= spec_u64_to_le_bytes(m.rotation[0]));
    assert(p5.subrange(8, 16) =~= spec_u64_to_le_bytes(m.rotation[1]));
    assert(p5.subrange(16, 24) =~= spec_u64_to_le_bytes(m.rotation[2]));
    assert(p5.subrange(24, 32) =~= spec_u64_to_le_bytes(m.rotation[3]));
    assert(spec_kind_of_value(p6[0]) == Some(m.kind));
    lemma_i64_u64_roundtrip(m.time);
    let decoded = spec_decode_new_transform(data)->Some_0;
    assert(decoded.translation =~= m.translation);
    assert(decoded.rotation =~= m.rotation);
}

/// Round trip: decoding an encoded transform query gives the record
/// back, for every record whose strings fit the wire's cap.
pub proof fn lemma_transform_request_roundtrip(m: TransformRequestModel)
    requires
        encode_utf8(m.from).len() <= MAX_STRING_BYTES,
        encode_utf8(m.to).len() <= MAX_STRING_BYTES,
    ensures
        spec_decode_transform_request(spec_encode_transform_request(m)) == Some(m),
{
    vstd::bytes::lemma_auto_spec_u32_to_from_le_bytes();
    vstd::bytes::lemma_auto_spec_u64_to_from_le_bytes();
    vstd::utf8::encode_utf8_valid_utf8(m.from);
    vstd::utf8::encode_utf8_decode_utf8(m.from);
    vstd::utf8::encode_utf8_valid_utf8(m.to);
    vstd::utf8::encode_utf8_decode_utf8(m.to);
    let p1 = spec_u64_to_le_bytes(m.id);
    let p2 = encode_utf8(m.from);
    let p3 = encode_utf8(m.to);
    let p4 = spec_u64_to_le_bytes(m.time as u64);
    let body = spec_transform_request_body(m);
    let data = spec_encode_transform_request(m);
    assert(data.len() == 5 + body.len());
    assert(data.subrange(0, 4) =~= spec_u32_to_le_bytes((body.len() + 1) as u32));
    assert(data[4] == TRANSFORM_REQUEST_TAG);
    assert(data.skip(5) =~= body);
    assert(spec_frame_body(data, TRANSFORM_REQUEST_TAG) == Some(body));
    let r1 = spec_field(2, p2) + spec_field(3, p3) + spec_field(4, p4);
    let r2 = spec_field(3, p3) + spec_field(4, p4);
    let r3 = spec_field(4, p4);
    assert(body =~= spec_field(1, p1) + r1);
    lemma_take_front(1, p1, r1);
    assert(r1 =~= spec_field(2, p2) + r2);
    lemma_take_front(2, p2, r2);
    assert(r2 =~= spec_field(3, p3) + r3);
    lemma_take_front(3, p3, r3);
    assert(r3 =~= spec_field(4, p4) + Seq::<u8>::empty());
    lemma_take_front(4, p4, Seq::<u8>::empty());
    lemma_i64_u64_roundtrip(m.time);
}

/// Round trip: decoding an encoded query reply gives the record back,
/// for every record whose message fits the wire's cap.
#[verifier::rlimit(100)]
pub proof fn lemma_transform_response_roundtrip(m: TransformResponseModel)
    requires
        m.translation.len() == 3,
        m.rotation.len() == 4,
        encode_utf8(m.error_message).len() <= MAX_STRING_BYTES,
    ensures
        spec_decode_transform_response(spec_encode_transform_response(m)) == Some(m),
{
    vstd::bytes::lemma_auto_spec_u32_to_from_le_bytes();
    vstd::bytes::lemma_auto_spec_u64_to_from_le_bytes();
    vstd::utf8::encode_utf8_valid_utf8(m.error_message);
    vstd::utf8::encode_utf8_decode_utf8(m.error_message);
    let p1 = spec_u64_to_le_bytes(m.id);
    let p2 = spec_u64_to_le_bytes(m.time as u64);
    let p3 = spec_u64_to_le_bytes(m.translation[0]) + spec_u64_to_le_bytes(m.translation[1])
        + spec_u64_to_le_bytes(m.translation[2]);
    let p4 = spec_u64_to_le_bytes(m.rotation[0]) + spec_u64_to_le_bytes(m.rotation[1])
        + spec_u64_to_le_bytes(m.rotation[2]) + spec_u64_to_le_bytes(m.rotation[3]);
    let p5 = seq![
        if m.success {
            1u8
        } else {
            0u8
        }
    ];
    let p6 = encode_utf8(m.error_message);
    let body = spec_transform_response_body(m);
    let data = spec_encode_transform_response(m);
    assert(data.len() == 5 + body.len());
    assert(data.subrange(0, 4) =~= spec_u32_to_le_bytes((body.len() + 1) as u32));
    assert(data[4] == TRANSFORM_RESPONSE_TAG);
    assert(data.skip(5) =~= body);
    assert(spec_frame_body(data, TRANSFORM_RESPONSE_TAG) == Some(body));
    let r1 = spec_field(2, p2) + spec_field(3, p3) + spec_field(4, p4) + spec_field(5, p5)
        + spec_field(6, p6);
    let r2 = spec_field(3, p3) + spec_field(4, p4) + spec_field(5, p5) + spec_field(6, p6);
    let r3 = spec_field(4, p4) + spec_field(5, p5) + spec_field(6, p6);
    let r4 = spec_field(5, p5) + spec_field(6, p6);
    let r5 = spec_field(6, p6);
    assert(body =~= spec_field(1, p1) + r1);
    lemma_take_front(1, p1, r1);
    assert(r1 =~= spec_field(2, p2) + r2);
    lemma_take_front(2, p2, r2);
    assert(r2 =~= spec_field(3, p3) + r3);
    lemma_take_front(3, p3, r3);
    assert(r3 =~= spec_field(4, p4) + r4);
    lemma_take_front(4, p4, r4);
    assert(r4 =~= spec_field(5, p5) + r5);
    lemma_take_front(5, p5, r5);
    assert(r5 =~= spec_field(6, p6) + Seq::<u8>::empty());
    lemma_take_front(6, p6, Seq::<u8>::empty());
    assert(p3.subrange(0, 8) =~= spec_u64_to_le_bytes(m.translation[0]));
    assert(p3.subrange(8, 16) =~= spec_u64_to_le_bytes(m.translation[1]));
    assert(p3.subrange(16, 24) =~= spec_u64_to_le_bytes(m.translation[2]));
    assert(p4.subrange(0, 8) =~= spec_u64_to_le_bytes(m.rotation[0]));
    assert(p4.subrange(8, 16) =~= spec_u64_to_le_bytes(m.rotation[1]));
    assert(p4.subrange(16, 24) =~= spec_u64_to_le_bytes(m.rotation[2]));
    assert(p4.subrange(24, 32) =~= spec_u64_to_le_bytes(m.rotation[3]));
    lemma_i64_u64_roundtrip(m.time);
    let decoded = spec_decode_transform_response(data)->Some_0;
    assert(decoded.translation =~= m.translation);
    assert(decoded.rotation =~= m.rotation);
}

/// Appends a byte slice.
fn push_bytes(out: &mut Vec<u8>, s: &[u8])
    ensures
        final(out)@ == old(out)@ + s@,
{
    let n = s.len();
    let mut i: usize = 0;
    while i < n
        invariant
            i <= n,
            n == s@.len(),
            out@ == old(out)@ + s@.take(i as int),
        decreases n - i,
    {
        out.push(*slice_index_get(s, i));
        proof {
            assert(out@ =~= old(out)@ + s@.take(i + 1));
        }
        i = i + 1;
    }
    proof {
        assert(out@ =~= old(out)@ + s@);
    }
}

/// Appends a `u32` in little-endian order.
fn push_u32_le(out: &mut Vec<u8>, x: u32)
    ensures
        final(out)@ == old(out)@ + spec_u32_to_le_bytes(x),
{
    let b = u32_to_le_bytes(x);
    push_bytes(out, b.as_slice());
}

/// Appends a `u64` in little-endian order.
fn push_u64_le(out: &mut Vec<u8>, x: u64)
    ensures
        final(out)@ == old(out)@ + spec_u64_to_le_bytes(x),
{
    let b = u64_to_le_bytes(x);
    push_bytes(out, b.as_slice());
}

/// Appends a field header: the id and the payload length.
fn push_field_header(out: &mut Vec<u8>, id: u8, len: u32)
    ensures
        final(out)@ == old(out)@ + seq![id] + spec_u32_to_le_bytes(len),
{
    out.push(id);
    push_u32_le(out, len);
    proof {
        assert(out@ =~= old(out)@ + seq![id] + spec_u32_to_le_bytes(len));
    }
}

/// Relies on std's `String::from_utf8`: it accepts exactly the valid
/// UTF-8 byte sequences and decodes them to the string's characters.
#[verifier::external_body]
fn string_from_utf8(bytes: Vec<u8>) -> (r: Option<String>)
    ensures
        r is Some <==> valid_utf8(bytes@),
        r matches Some(s) ==> s@ == decode_utf8(bytes@),
{
    match String::from_utf8(bytes) {
        Ok(s) => Some(s),
        Err(_) => None,
    }
}

/// Copies `pl` bytes starting at `ps` into a fresh vector.
fn copy_range(data: &[u8], ps: usize, pl: usize) -> (r: Vec<u8>)
    requires
        ps + pl <= data@.len(),
    ensures
        r@ == data@.subrange(ps as int, ps as int + pl as int),
{
    let dlen = data.len();
    proof {
        assert(data@.len() == dlen);
    }
    let mut out: Vec<u8> = Vec::new();
    let mut i: usize = 0;
    while i < pl
        invariant
            i <= pl,
            ps + pl <= data@.len(),
            data@.len() <= usize::MAX,
            out@ == data@.subrange(ps as int, ps as int + i as int),
        decreases pl - i,
    {
        out.push(*slice_index_get(data, ps + i));
        proof {
            assert(out@ =~= data@.subrange(ps as int, ps as int + i as int + 1));
        }
        i = i + 1;
    }
    out
}

/// Finds the next field with the given id from `pos` on, skipping other
/// fields, and returns the payload's start and length.
fn take_field(data: &[u8], pos: usize, id: u8) -> (r: Option<(usize, usize)>)
    requires
        pos <= data@.len(),
    ensures
        match r {
            Some(span) => span.0 + span.1 <= data@.len() && pos + 5 <= span.0 && spec_take_field(
                data@.skip(pos as int),
                id,
            ) == Some(
                (
                    data@.subrange(span.0 as int, span.0 as int + span.1 as int),
                    data@.skip(span.0 as int + span.1 as int),
                ),
            ),
            None => spec_take_field(data@.skip(pos as int), id) is None,
        },
    decreases data@.len() - pos,
{
    let n = data.len();
    if n - pos < 5 {
        return None;
    }
    let fid = *slice_index_get(data, pos);
    let lenb = slice_subrange(data, pos + 1, pos + 5);
    proof {
        assert(lenb@ =~= data@.skip(pos as int).subrange(1, 5));
    }
    let flen_u32 = u32_from_le_bytes(lenb);
    if flen_u32 as u64 > (n - (pos + 5)) as u64 {
        proof {
            assert(data@.skip(pos as int).len() < 5 + flen_u32 as int);
        }
        return None;
    }
    let flen = flen_u32 as usize;
    if fid == id {
        proof {
            assert(data@.skip(pos as int)[0] == data@[pos as int]);
            assert(data@.skip(pos as int).subrange(5, 5 + flen as int) =~= data@.subrange(
                pos as int + 5,
                pos as int + 5 + flen as int,
            ));
            assert(data@.skip(pos as int).skip(5 + flen as int) =~= data@.skip(
                pos as int + 5 + flen as int,
            ));
        }
        Some((pos + 5, flen))
    } else {
        proof {
            assert(data@.skip(pos as int)[0] == data@[pos as int]);
            assert(data@.skip(pos as int).skip(5 + flen as int) =~= data@.skip(
                pos as int + 5 + flen as int,
            ));
        }
        take_field(data, pos + 5 + flen, id)
    }
}

/// Reads a `u64` payload of exactly eight bytes.
fn read_u64_payload(data: &[u8], ps: usize, pl: usize) -> (r: Option<u64>)
    requires
        ps + pl <= data@.len(),
    ensures
        pl == 8 ==> r == Some(
            spec_u64_from_le_bytes(data@.subrange(ps as int, ps as int + pl as int)),
        ),
        pl != 8 ==> r is None,
{
    let dlen = data.len();
    proof {
        assert(data@.len() == dlen);
    }
    if pl != 8 {
        return None;
    }
    let b = slice_subrange(data, ps, ps + 8);
    Some(u64_from_le_bytes(b))
}

/// Encodes a transform publication. The frame names must fit the wire's
/// string-size cap.
pub fn encode_new_transform(m: &NewTransform) -> (r: Vec<u8>)
    requires
        encode_utf8(m.from@).len() <= MAX_STRING_BYTES,
        encode_utf8(m.to@).len() <= MAX_STRING_BYTES,
    ensures
        r@ == spec_encode_new_transform(m@),
{
    proof {
        vstd::bytes::lemma_auto_spec_u32_to_from_le_bytes();
        vstd::bytes::lemma_auto_spec_u64_to_from_le_bytes();
    }
    let mut body: Vec<u8> = Vec::new();
    let fb = m.from.as_str().as_bytes();
    push_field_header(&mut body, 1, fb.len() as u32);
    push_bytes(&mut body, fb);
    let tb = m.to.as_str().as_bytes();
    push_field_header(&mut body, 2, tb.len() as u32);
    push_bytes(&mut body, tb);
    push_field_header(&mut body, 3, 8);
    push_u64_le(&mut body, m.time as u64);
    push_field_header(&mut body, 4, 24);
    push_u64_le(&mut body, m.translation[0]);
    push_u64_le(&mut body, m.translation[1]);
    push_u64_le(&mut body, m.translation[2]);
    push_field_header(&mut body, 5, 32);
    push_u64_le(&mut body, m.rotation[0]);
    push_u64_le(&mut body, m.rotation[1]);
    push_u64_le(&mut body, m.rotation[2]);
    push_u64_le(&mut body, m.rotation[3]);
    push_field_header(&mut body, 6, 1);
    body.push(m.kind.to_u8());
    proof {
        assert(body@ =~= spec_new_transform_body(m@));
        assert(body@.len() <= 0x0300_0000);
    }
    let mut out: Vec<u8> = Vec::new();
    push_u32_le(&mut out, (body.len() + 1) as u32);
    out.push(NEW_TRANSFORM_TAG);
    push_bytes(&mut out, body.as_slice());
    proof {
        assert(out@ =~= spec_encode_new_transform(m@));
    }
    out
}

/// Encodes a transform query. The frame names must fit the wire's
/// string-size cap.
pub fn encode_transform_request(m: &TransformRequest) -> (r: Vec<u8>)
    requires
        encode_utf8(m.from@).len() <= MAX_STRING_BYTES,
        encode_utf8(m.to@).len() <= MAX_STRING_BYTES,
    ensures
        r@ == spec_encode_transform_request(m@),
{
    proof {
        vstd::bytes::lemma_auto_spec_u32_to_from_le_bytes();
        vstd::bytes::lemma_auto_spec_u64_to_from_le_bytes();
    }
    let mut body: Vec<u8> = Vec::new();
    push_field_header(&mut body, 1, 8);
    push_u64_le(&mut body, m.id);
    let fb = m.from.as_str().as_bytes();
    push_field_header(&mut body, 2, fb.len() as u32);
    push_bytes(&mut body, fb);
    let tb = m.to.as_str().as_bytes();
    push_field_header(&mut body, 3, tb.len() as u32);
    push_bytes(&mut body, tb);
    push_field_header(&mut body, 4, 8);
    push_u64_le(&mut body, m.time as u64);
    proof {
        assert(body@ =~= spec_transform_request_body(m@));
        assert(body@.len() <= 0x0300_0000);
    }
    let mut out: Vec<u8> = Vec::new();
    push_u32_le(&mut out, (body.len() + 1) as u32);
    out.push(TRANSFORM_REQUEST_TAG);
    push_bytes(&mut out, body.as_slice());
    proof {
        assert(out@ =~= spec_encode_transform_request(m@));
    }
    out
}

/// Encodes a query reply. The message must fit the wire's string-size
/// cap.
pub fn encode_transform_response(m: &TransformResponse) -> (r: Vec<u8>)
    requires
        encode_utf8(m.error_message@).len() <= MAX_STRING_BYTES,
    ensures
        r@ == spec_encode_transform_response(m@),
{
    proof {
        vstd::bytes::lemma_auto_spec_u32_to_from_le_bytes();
        vstd::bytes::lemma_auto_spec_u64_to_from_le_bytes();
    }
    let mut body: Vec<u8> = Vec::new();
    push_field_header(&mut body, 1, 8);
    push_u64_le(&mut body, m.id);
    push_field_header(&mut body, 2, 8);
    push_u64_le(&mut body, m.time as u64);
    push_field_header(&mut body, 3, 24);
    push_u64_le(&mut body, m.translation[0]);
    push_u64_le(&mut body, m.translation[1]);
    push_u64_le(&mut body, m.translation[2]);
    push_field_header(&mut body, 4, 32);
    push_u64_le(&mut body, m.rotation[0]);
    push_u64_le(&mut body, m.rotation[1]);
    push_u64_le(&mut body, m.rotation[2]);
    push_u64_le(&mut body, m.rotation[3]);
    push_field_header(&mut body, 5, 1);
    body.push(if m.success { 1 } else { 0 });
    let eb = m.error_message.as_str().as_bytes();
    push_field_header(&mut body, 6, eb.len() as u32);
    push_bytes(&mut body, eb);
    proof {
        assert(body@ =~= spec_transform_response_body(m@));
        assert(body@.len() <= 0x0300_0000);
    }
    let mut out: Vec<u8> = Vec::new();
    push_u32_le(&mut out, (body.len() + 1) as u32);
    out.push(TRANSFORM_RESPONSE_TAG);
    push_bytes(&mut out, body.as_slice());
    proof {
        assert(out@ =~= spec_encode_transform_response(m@));
    }
    out
}

/// Checks the frame prefix and tag; returns the body's start.
fn check_frame(data: &[u8], tag: u8) -> (r: Option<usize>)
    ensures
        match r {
            Some(start) => start == 5 && spec_frame_body(data@, tag) == Some(data@.skip(5)),
            None => spec_frame_body(data@, tag) is None,
        },
{
    let n = data.len();
    if n < 5 {
        return None;
    }
    let lenb = slice_subrange(data, 0, 4);
    proof {
        assert(lenb@ =~= data@.subrange(0, 4));
    }
    let total = u32_from_le_bytes(lenb);
    if total as u64 != (n - 4) as u64 {
        return None;
    }
    if *slice_index_get(data, 4) != tag {
        return None;
    }
    Some(5)
}

/// Decodes a transform publication, if the bytes carry a well-formed one.
pub fn decode_new_transform(data: &[u8]) -> (r: Option<NewTransform>)
    ensures
        match r {
            Some(m) => spec_decode_new_transform(data@) == Some(m@),
            None => spec_decode_new_transform(data@) is None,
        },
{
    let dlen = data.len();
    proof {
        assert(data@.len() == dlen);
    }
    let start = match check_frame(data, NEW_TRANSFORM_TAG) {
        None => {
            return None;
        },
        Some(s) => s,
    };
    let (fps, fpl) = match take_field(data, start, 1) {
        None => {
            return None;
        },
        Some(span) => span,
    };
    let (tps, tpl) = match take_field(data, fps + fpl, 2) {
        None => {
            return None;
        },
        Some(span) => span,
    };
    let (mps, mpl) = match take_field(data, tps + tpl, 3) {
        None => {
            return None;
        },
        Some(span) => span,
    };
    let (rps, rpl) = match take_field(data, mps + mpl, 4) {
        None => {
            return None;
        },
        Some(span) => span,
    };
    let (ops, opl) = match take_field(data, rps + rpl, 5) {
        None => {
            return None;
        },
        Some(span) => span,
    };
    let (kps, kpl) = match take_field(data, ops + opl, 6) {
        None => {
            return None;
        },
        Some(span) => span,
    };
    let time = match read_u64_payload(data, mps, mpl) {
        None => {
            return None;
        },
        Some(x) => x as i64,
    };
    if rpl != 24 || opl != 32 || kpl != 1 {
        return None;
    }
    let kind = match TransformType::from_u8(*slice_index_get(data, kps)) {
        None => {
            return None;
        },
        Some(k) => k,
    };
    let translation = [
        u64_from_le_bytes(slice_subrange(data, rps, rps + 8)),
        u64_from_le_bytes(slice_subrange(data, rps + 8, rps + 16)),
        u64_from_le_bytes(slice_subrange(data, rps + 16, rps + 24)),
    ];
    let rotation = [
        u64_from_le_bytes(slice_subrange(data, ops, ops + 8)),
        u64_from_le_bytes(slice_subrange(data, ops + 8, ops + 16)),
        u64_from_le_bytes(slice_subrange(data, ops + 16, ops + 24)),
        u64_from_le_bytes(slice_subrange(data, ops + 24, ops + 32)),
    ];
    let from = match string_from_utf8(copy_range(data, fps, fpl)) {
        None => {
            return None;
        },
        Some(s) => s,
    };
    let to = match string_from_utf8(copy_range(data, tps, tpl)) {
        None => {
            return None;
        },
        Some(s) => s,
    };
    proof {
        assert(data@.subrange(rps as int, rps as int + 24).subrange(0, 8) =~= data@.subrange(
            rps as int,
            rps as int + 8,
        ));
        assert(data@.subrange(rps as int, rps as int + 24).subrange(8, 16) =~= data@.subrange(
            rps as int + 8,
            rps as int + 16,
        ));
        assert(data@.subrange(rps as int, rps as int + 24).subrange(16, 24) =~= data@.subrange(
            rps as int + 16,
            rps as int + 24,
        ));
        assert(data@.subrange(ops as int, ops as int + 32).subrange(0, 8) =~= data@.subrange(
            ops as int,
            ops as int + 8,
        ));
        assert(data@.subrange(ops as int, ops as int + 32).subrange(8, 16) =~= data@.subrange(
            ops as int + 8,
            ops as int + 16,
        ));
        assert(data@.subrange(ops as int, ops as int + 32).subrange(16, 24) =~= data@.subrange(
            ops as int + 16,
            ops as int + 24,
        ));
        assert(data@.subrange(ops as int, ops as int + 32).subrange(24, 32) =~= data@.subrange(
            ops as int + 24,
            ops as int + 32,
        ));
        assert(data@.subrange(kps as int, kps as int + 1)[0] == data@[kps as int]);
    }
    let result = NewTransform { from, to, time, translation, rotation, kind };
    proof {
        assert(result.translation@ =~= seq![
            result.translation[0],
            result.translation[1],
            result.translation[2],
        ]);
        assert(result.rotation@ =~= seq![
            result.rotation[0],
            result.rotation[1],
            result.rotation[2],
            result.rotation[3],
        ]);
    }
    Some(result)
}

/// Decodes a transform query, if the bytes carry a well-formed one.
pub fn decode_transform_request(data: &[u8]) -> (r: Option<TransformRequest>)
    ensures
        match r {
            Some(m) => spec_decode_transform_request(data@) == Some(m@),
            None => spec_decode_transform_request(data@) is None,
        },
{
    let dlen = data.len();
    proof {
        assert(data@.len() == dlen);
    }
    let start = match check_frame(data, TRANSFORM_REQUEST_TAG) {
        None => {
            return None;
        },
        Some(s) => s,
    };
    let (ips, ipl) = match take_field(data, start, 1) {
        None => {
            return None;
        },
        Some(span) => span,
    };
    let (fps, fpl) = match take_field(data, ips + ipl, 2) {
        None => {
            return None;
        },
        Some(span) => span,
    };
    let (tps, tpl) = match take_field(data, fps + fpl, 3) {
        None => {
            return None;
        },
        Some(span) => span,
    };
    let (mps, mpl) = match take_field(data, tps + tpl, 4) {
        None => {
            return None;
        },
        Some(span) => span,
    };
    let id = match read_u64_payload(data, ips, ipl) {
        None => {
            return None;
        },
        Some(x) => x,
    };
    let time = match read_u64_payload(data, mps, mpl) {
        None => {
            return None;
        },
        Some(x) => x as i64,
    };
    let from = match string_from_utf8(copy_range(data, fps, fpl)) {
        None => {
            return None;
        },
        Some(s) => s,
    };
    let to = match string_from_utf8(copy_range(data, tps, tpl)) {
        None => {
            return None;
        },
        Some(s) => s,
    };
    Some(TransformRequest { id, from, to, time })
}

/// Decodes a query reply, if the bytes carry a well-formed one.
pub fn decode_transform_response(data: &[u8]) -> (r: Option<TransformResponse>)
    ensures
        match r {
            Some(m) => spec_decode_transform_response(data@) == Some(m@),
            None => spec_decode_transform_response(data@) is None,
        },
{
    let dlen = data.len();
    proof {
        assert(data@.len() == dlen);
    }
    let start = match check_frame(data, TRANSFORM_RESPONSE_TAG) {
        None => {
            return None;
        },
        Some(s) => s,
    };
    let (ips, ipl) = match take_field(data, start, 1) {
        None => {
            return None;
        },
        Some(span) => span,
    };
    let (mps, mpl) = match take_field(data, ips + ipl, 2) {
        None => {
            return None;
        },
        Some(span) => span,
    };
    let (rps, rpl) = match take_field(data, mps + mpl, 3) {
        None => {
            return None;
        },
        Some(span) => span,
    };
    let (ops, opl) = match take_field(data, rps + rpl, 4) {
        None => {
            return None;
        },
        Some(span) => span,
    };
    let (sps, spl) = match take_field(data, ops + opl, 5) {
        None => {
            return None;
        },
        Some(span) => span,
    };
    let (eps, epl) = match take_field(data, sps + spl, 6) {
        None => {
            return None;
        },
        Some(span) => span,
    };
    let id = match read_u64_payload(data, ips, ipl) {
        None => {
            return None;
        },
        Some(x) => x,
    };
    let time = match read_u64_payload(data, mps, mpl) {
        None => {
            return None;
        },
        Some(x) => x as i64,
    };
    if rpl != 24 || opl != 32 || spl != 1 {
        return None;
    }
    let sbyte = *slice_index_get(data, sps);
    if sbyte != 0 && sbyte != 1 {
        proof {
            assert(data@.subrange(sps as int, sps as int + 1)[0] == data@[sps as int]);
        }
        return None;
    }
    let translation = [
        u64_from_le_bytes(slice_subrange(data, rps, rps + 8)),
        u64_from_le_bytes(slice_subrange(data, rps + 8, rps + 16)),
        u64_from_le_bytes(slice_subrange(data, rps + 16, rps + 24)),
    ];
    let rotation = [
        u64_from_le_bytes(slice_subrange(data, ops, ops + 8)),
        u64_from_le_bytes(slice_subrange(data, ops + 8, ops + 16)),
        u64_from_le_bytes(slice_subrange(data, ops + 16, ops + 24)),
        u64_from_le_bytes(slice_subrange(data, ops + 24, ops + 32)),
    ];
    let error_message = match string_from_utf8(copy_range(data, eps, epl)) {
        None => {
            return None;
        },
        Some(s) => s,
    };
    proof {
        assert(data@.subrange(rps as int, rps as int + 24).subrange(0, 8) =~= data@.subrange(
            rps as int,
            rps as int + 8,
        ));
        assert(data@.subrange(rps as int, rps as int + 24).subrange(8, 16) =~= data@.subrange(
            rps as int + 8,
            rps as int + 16,
        ));
        assert(data@.subrange(rps as int, rps as int + 24).subrange(16, 24) =~= data@.subrange(
            rps as int + 16,
            rps as int + 24,
        ));
        assert(data@.subrange(ops as int, ops as int + 32).subrange(0, 8) =~= data@.subrange(
            ops as int,
            ops as int + 8,
        ));
        assert(data@.subrange(ops as int, ops as int + 32).subrange(8, 16) =~= data@.subrange(
            ops as int + 8,
            ops as int + 16,
        ));
        assert(data@.subrange(ops as int, ops as int + 32).subrange(16, 24) =~= data@.subrange(
            ops as int + 16,
            ops as int + 24,
        ));
        assert(data@.subrange(ops as int, ops as int + 32).subrange(24, 32) =~= data@.subrange(
            ops as int + 24,
            ops as int + 32,
        ));
        assert(data@.subrange(sps as int, sps as int + 1)[0] == data@[sps as int]);
    }
    let result = TransformResponse { id, time, translation, rotation, success: sbyte == 1, error_message };
    proof {
        assert(result.translation@ =~= seq![
            result.translation[0],
            result.translation[1],
            result.translation[2],
        ]);
        assert(result.rotation@ =~= seq![
            result.rotation[0],
            result.rotation[1],
            result.rotation[2],
            result.rotation[3],
        ]);
    }
    Some(result)
}

} // verus!
