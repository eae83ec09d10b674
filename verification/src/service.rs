//! The service layer: what the server does with each bus payload.
//!
//! The transport hands bytes in; these handlers decode them, drive the
//! buffer, and (for queries) hand the encoded reply back — exactly one
//! reply per request. Reading from and writing to the bus itself stays
//! outside the library.

use vstd::prelude::*;
use vstd::utf8::encode_utf8;
use crate::buffer::{
    BufferTree, Notification, all_notified, connected, fold_at, fold_latest, spec_note_kind,
    spec_update_edges, spec_update_result, valid_path,
};
use crate::codec::{
    MAX_STRING_BYTES, TransformResponse, TransformRequestModel, TransformResponseModel,
    decode_new_transform, decode_transform_request, encode_transform_response,
    spec_decode_new_transform, spec_decode_transform_request, spec_encode_transform_response,
};
use crate::index::{spec_contains_name, spec_id_of};
use crate::math::{ONE_BITS, identity_pose, spec_pose_from_parts, spec_pose_from_seqs, unit_of};
use crate::types::{CommsError, StampedIsometry, TfError, spec_error_message};

verus! {

/// The reply to a successful lookup: the pose and its stamp, the echoed
/// id, and no message.
pub open spec fn spec_success_response(id: u64, si: StampedIsometry) -> TransformResponseModel {
    TransformResponseModel {
        id: id,
        time: si.stamp,
        translation: seq![si.isometry.tx, si.isometry.ty, si.isometry.tz],
        rotation: seq![si.isometry.qx, si.isometry.qy, si.isometry.qz, si.isometry.qw],
        success: true,
        error_message: Seq::<char>::empty(),
    }
}

/// The reply to a failed lookup: identity pose fields (to be ignored),
/// the echoed id and instant, and the reason.
pub open spec fn spec_failure_response(id: u64, time: i64, msg: Seq<char>) -> TransformResponseModel {
    TransformResponseModel {
        id: id,
        time: time,
        translation: seq![0u64, 0u64, 0u64],
        rotation: seq![0u64, 0u64, 0u64, ONE_BITS],
        success: false,
        error_message: msg,
    }
}

/// A message as it goes out: unchanged where it fits the wire's string
/// cap, empty otherwise.
pub open spec fn spec_wire_message(msg: Seq<char>) -> Seq<char> {
    if encode_utf8(msg).len() <= MAX_STRING_BYTES {
        msg
    } else {
        Seq::<char>::empty()
    }
}

/// What the buffer's lookup may answer for a query: the exact success
/// and error conditions of `lookup_latest_transform` (asked for with a
/// zero instant) and `lookup_transform`.
pub open spec fn spec_lookup_outcome(
    m: Seq<crate::buffer::EdgeModel>,
    names: Seq<String>,
    req: TransformRequestModel,
    lr: Result<StampedIsometry, TfError>,
) -> bool {
    let known = spec_contains_name(names, req.from) && spec_contains_name(names, req.to);
    let s = spec_id_of(names, req.from) as usize;
    let t = spec_id_of(names, req.to) as usize;
    &&& (!known ==> lr == Err::<StampedIsometry, TfError>(TfError::CouldNotFindTransform))
    &&& ((known && s != t && !connected(m, s, t)) ==> lr == Err::<StampedIsometry, TfError>(
        TfError::CouldNotFindTransform,
    ))
    &&& ((known && (s == t || connected(m, s, t))) ==> ((exists|p: Seq<usize>|
        valid_path(m, p, s, t) && lr == (if req.time == 0 {
            Ok::<StampedIsometry, TfError>(
                (StampedIsometry { isometry: fold_latest(m, p), stamp: 0 }),
            )
        } else {
            match fold_at(m, p, req.time) {
                Ok(q) => Ok::<StampedIsometry, TfError>(
                    (StampedIsometry { isometry: q, stamp: req.time }),
                ),
                Err(e) => Err::<StampedIsometry, TfError>(e),
            }
        })) && (forall|p: Seq<usize>|
        valid_path(m, p, s, t) ==> lr == (if req.time == 0 {
            Ok::<StampedIsometry, TfError>(
                (StampedIsometry { isometry: fold_latest(m, p), stamp: 0 }),
            )
        } else {
            match fold_at(m, p, req.time) {
                Ok(q) => Ok::<StampedIsometry, TfError>(
                    (StampedIsometry { isometry: q, stamp: req.time }),
                ),
                Err(e) => Err::<StampedIsometry, TfError>(e),
            }
        }))))
    &&& ((known && s == t) ==> lr == Ok::<StampedIsometry, TfError>(
        (StampedIsometry {
            isometry: identity_pose(),
            stamp: if req.time == 0 {
                0
            } else {
                req.time
            },
        }),
    ))
}

/// Ingests one published transform: decodes it, hands it to the buffer,
/// and reports the buffer's verdict. A payload that does not decode is
/// rejected as a serialization error and leaves the buffer untouched.
pub fn handle_new_transform(buffer: &mut BufferTree, data: &[u8]) -> (r: Result<(), CommsError>)
    requires
        old(buffer).wf(),
    ensures
        final(buffer).wf(),
        final(buffer).config == old(buffer).config,
        match spec_decode_new_transform(data@) {
            None => r matches Err(CommsError::Serialization) && final(buffer).model() == old(
                buffer,
            ).model() && final(buffer).queues() == old(buffer).queues() && final(buffer).index.names@ == old(buffer).index.names@,
            Some(mm) => ({
                let s = spec_id_of(final(buffer).index.names@, mm.from) as usize;
                let t = spec_id_of(final(buffer).index.names@, mm.to) as usize;
                let si = StampedIsometry {
                    isometry: unit_of(spec_pose_from_seqs(mm.translation, mm.rotation)),
                    stamp: mm.time,
                };
                &&& spec_contains_name(final(buffer).index.names@, mm.from)
                &&& spec_contains_name(final(buffer).index.names@, mm.to)
                &&& r == (match spec_update_result(old(buffer).model(), s, t, si) {
                    Ok(()) => Ok::<(), CommsError>(()),
                    Err(e) => Err::<(), CommsError>(CommsError::Buffer(e)),
                })
                &&& final(buffer).model() == spec_update_edges(
                    old(buffer).model(),
                    s,
                    t,
                    si,
                    mm.kind,
                    old(buffer).config.max_transform_history as int,
                )
                &&& (r is Ok ==> all_notified(
                    old(buffer).queues(),
                    final(buffer).queues(),
                    (Notification {
                        from_id: s,
                        to_id: t,
                        transform: si,
                        kind: spec_note_kind(old(buffer).model(), s, t, mm.kind),
                    }),
                ))
                &&& (r is Err ==> final(buffer).queues() == old(buffer).queues())
            }),
        },
{
    match decode_new_transform(data) {
        None => Err(CommsError::Serialization),
        Some(msg) => {
            let si = StampedIsometry::new(msg.translation, msg.rotation, msg.time);
            proof {
                assert(spec_pose_from_parts(msg.translation, msg.rotation)
                    == spec_pose_from_seqs(msg@.translation, msg@.rotation));
            }
            match buffer.update(msg.from, msg.to, si, msg.kind) {
                Ok(()) => Ok(()),
                Err(e) => Err(CommsError::Buffer(e)),
            }
        },
    }
}

/// Builds the encoded reply for a query outcome; the message falls back
/// to empty in the (unreachable for this crate's own messages) case that
/// it would not fit the wire.
fn encode_reply(id: u64, time: i64, outcome: Result<StampedIsometry, TfError>) -> (r: Vec<u8>)
    ensures
        r@ == spec_encode_transform_response(
            match outcome {
                Ok(si) => spec_success_response(id, si),
                Err(e) => spec_failure_response(id, time, spec_wire_message(spec_error_message(e))),
            },
        ),
{
    proof {
        assert(encode_utf8(Seq::<char>::empty()).len() == 0);
    }
    match outcome {
        Ok(si) => {
            let resp = TransformResponse {
                id,
                time: si.stamp(),
                translation: si.translation(),
                rotation: si.rotation(),
                success: true,
                error_message: String::new(),
            };
            proof {
                assert(resp@.translation =~= spec_success_response(id, si).translation);
                assert(resp@.rotation =~= spec_success_response(id, si).rotation);
                assert(resp@ == spec_success_response(id, si));
            }
            encode_transform_response(&resp)
        },
        Err(e) => {
            let msg = e.message();
            let fits = msg.as_str().as_bytes().len() <= MAX_STRING_BYTES;
            let wire_msg = if fits {
                msg
            } else {
                String::new()
            };
            let resp = TransformResponse {
                id,
                time,
                translation: [0u64, 0u64, 0u64],
                rotation: [0u64, 0u64, 0u64, ONE_BITS],
                success: false,
                error_message: wire_msg,
            };
            proof {
                let expect = spec_failure_response(
                    id,
                    time,
                    spec_wire_message(spec_error_message(e)),
                );
                assert(resp@.translation =~= expect.translation);
                assert(resp@.rotation =~= expect.rotation);
                assert(resp@ == expect);
            }
            encode_transform_response(&resp)
        },
    }
}

/// Serves one query: decodes the request, looks the transform up (the
/// latest where the instant is zero, interpolated otherwise), and
/// returns exactly one encoded reply — a success with the pose, or a
/// failure carrying the reason; a request that does not decode is
/// answered with a serialization-failure reply under id zero.
pub fn handle_transform_query(buffer: &mut BufferTree, data: &[u8]) -> (r: Vec<u8>)
    requires
        old(buffer).wf(),
    ensures
        final(buffer).wf(),
        final(buffer).model() == old(buffer).model(),
        final(buffer).queues() == old(buffer).queues(),
        final(buffer).config == old(buffer).config,
        final(buffer).index.names@ == old(buffer).index.names@,
        match spec_decode_transform_request(data@) {
            None => r@ == spec_encode_transform_response(
                spec_failure_response(0, 0, spec_wire_message("SerializationError"@)),
            ),
            Some(req) => exists|lr: Result<StampedIsometry, TfError>|
                {
                    &&& spec_lookup_outcome(old(buffer).model(), old(buffer).index.names@, req, lr)
                    &&& r@ == spec_encode_transform_response(
                        match lr {
                            Ok(si) => spec_success_response(req.id, si),
                            Err(e) => spec_failure_response(
                                req.id,
                                req.time,
                                spec_wire_message(spec_error_message(e)),
                            ),
                        },
                    )
                },
        },
{
    match decode_transform_request(data) {
        None => {
            proof {
                assert(encode_utf8(Seq::<char>::empty()).len() == 0);
            }
            let msg = String::from_str("SerializationError");
            let fits = msg.as_str().as_bytes().len() <= MAX_STRING_BYTES;
            let wire_msg = if fits {
                msg
            } else {
                String::new()
            };
            let resp = TransformResponse {
                id: 0,
                time: 0,
                translation: [0u64, 0u64, 0u64],
                rotation: [0u64, 0u64, 0u64, ONE_BITS],
                success: false,
                error_message: wire_msg,
            };
            proof {
                let expect = spec_failure_response(
                    0,
                    0,
                    spec_wire_message("SerializationError"@),
                );
                assert(resp@.translation =~= expect.translation);
                assert(resp@.rotation =~= expect.rotation);
                assert(resp@ == expect);
            }
            encode_transform_response(&resp)
        },
        Some(req) => {
            let id = req.id;
            let time = req.time;
            let outcome = if time == 0 {
                buffer.lookup_latest_transform(req.from, req.to)
            } else {
                buffer.lookup_transform(req.from, req.to, time)
            };
            let ghost lr = outcome;
            let r = encode_reply(id, time, outcome);
            proof {
                assert(spec_lookup_outcome(
                    old(buffer).model(),
                    old(buffer).index.names@,
                    spec_decode_transform_request(data@)->Some_0,
                    lr,
                ));
            }
            r
        },
    }
}

} // verus!
