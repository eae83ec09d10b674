//! The client side of a query: building the request and concluding from
//! what the transport yielded.
//!
//! A query runs idle, then sent, then one of three terminal outcomes:
//! a reply (matched to the request by the correlation id), a timeout, or
//! a transport failure. Sending and waiting live outside the library;
//! the decisions live here.

use vstd::prelude::*;
use vstd::utf8::encode_utf8;
use crate::codec::{
    MAX_STRING_BYTES, TransformRequest, TransformRequestModel, decode_transform_response,
    encode_transform_request, spec_decode_transform_response, spec_encode_transform_request,
};
use crate::math::{spec_pose_from_seqs, unit_of};
use crate::types::{CommsError, StampedIsometry};

verus! {

/// What the transport yielded for a sent query before its deadline: a
/// reply's bytes, or nothing.
pub enum ReplyEvent {
    Reply(Vec<u8>),
    NoReply,
}

/// Builds the encoded query frame for a transform between two frames at
/// an instant (zero asks for the latest), carrying the correlation id
/// that the reply must echo.
pub fn build_transform_request(id: u64, from: String, to: String, time: i64) -> (r: Vec<u8>)
    requires
        encode_utf8(from@).len() <= MAX_STRING_BYTES,
        encode_utf8(to@).len() <= MAX_STRING_BYTES,
    ensures
        r@ == spec_encode_transform_request(
            (TransformRequestModel { id: id, from: from@, to: to@, time: time }),
        ),
{
    encode_transform_request(&TransformRequest { id, from, to, time })
}

/// Concludes one query from what the transport yielded: no reply within
/// the deadline is `NoResponse`; a reply that does not decode is a
/// serialization failure; a decoded reply under another correlation id
/// is `ResponseIdMismatch`; a matching failure reply carries the
/// server's reason; and only a matching success reply yields the pose.
pub fn conclude_request(expected_id: u64, event: ReplyEvent) -> (r: Result<
    StampedIsometry,
    CommsError,
>)
    ensures
        match event {
            ReplyEvent::NoReply => r matches Err(CommsError::NoResponse),
            ReplyEvent::Reply(d) => match spec_decode_transform_response(d@) {
                None => r matches Err(CommsError::Serialization),
                Some(resp) => {
                    &&& (resp.id != expected_id ==> (r matches Err(
                        CommsError::ResponseIdMismatch { expected: e0, actual: a0 },
                    ) && e0 == expected_id && a0 == resp.id))
                    &&& ((resp.id == expected_id && !resp.success) ==> (r matches Err(
                        CommsError::RemoteError(msg),
                    ) && msg@ == resp.error_message))
                    &&& ((resp.id == expected_id && resp.success) ==> (r matches Ok(si)
                        && si.stamp == resp.time && si.isometry == unit_of(
                        spec_pose_from_seqs(resp.translation, resp.rotation),
                    ) && si.isometry.tx == resp.translation[0] && si.isometry.ty
                        == resp.translation[1] && si.isometry.tz == resp.translation[2]))
                },
            },
        },
        r is Ok ==> (event matches ReplyEvent::Reply(d)
            && spec_decode_transform_response(d@) matches Some(resp) && resp.id == expected_id
            && resp.success),
{
    match event {
        ReplyEvent::NoReply => Err(CommsError::NoResponse),
        ReplyEvent::Reply(d) => match decode_transform_response(d.as_slice()) {
            None => Err(CommsError::Serialization),
            Some(resp) => {
                if resp.id != expected_id {
                    Err(CommsError::ResponseIdMismatch { expected: expected_id, actual: resp.id })
                } else if !resp.success {
                    Err(CommsError::RemoteError(resp.error_message))
                } else {
                    Ok(StampedIsometry::new(resp.translation, resp.rotation, resp.time))
                }
            },
        },
    }
}

} // verus!
