//! End-to-end scenarios over the service layer, the wire format, the
//! history rules, observers and the client's correlation handling.

use nalgebra::{Quaternion, Translation3, UnitQuaternion};
use schiebung::buffer::BufferTree;
use schiebung::client::{build_transform_request, conclude_request, ReplyEvent};
use schiebung::codec::{
    decode_new_transform, decode_transform_request, decode_transform_response,
    encode_new_transform, encode_transform_request, encode_transform_response, NewTransform,
    TransformRequest, TransformResponse,
};
use schiebung::history::TransformHistory;
use schiebung::index::NodeIndex;
use schiebung::service::{handle_new_transform, handle_transform_query};
use schiebung::types::{
    default_mode, default_publish_static, BufferConfig, CommsError, PubSubEvent, ServerConfig,
    StampedIsometry, TfError, TransformType, ZenohConfig,
};

const SEC: i64 = 1_000_000_000;

fn bits3(v: [f64; 3]) -> [u64; 3] {
    [v[0].to_bits(), v[1].to_bits(), v[2].to_bits()]
}

fn bits4(v: [f64; 4]) -> [u64; 4] {
    [v[0].to_bits(), v[1].to_bits(), v[2].to_bits(), v[3].to_bits()]
}

fn vals3(v: [u64; 3]) -> [f64; 3] {
    [f64::from_bits(v[0]), f64::from_bits(v[1]), f64::from_bits(v[2])]
}

fn vals4(v: [u64; 4]) -> [f64; 4] {
    [
        f64::from_bits(v[0]),
        f64::from_bits(v[1]),
        f64::from_bits(v[2]),
        f64::from_bits(v[3]),
    ]
}

fn close(a: f64, b: f64, eps: f64) -> bool {
    (a - b).abs() <= eps
}

fn publish(
    buffer: &mut BufferTree,
    from: &str,
    to: &str,
    translation: [f64; 3],
    rotation: [f64; 4],
    time: i64,
    kind: TransformType,
) {
    let msg = NewTransform {
        from: from.to_string(),
        to: to.to_string(),
        time,
        translation: bits3(translation),
        rotation: bits4(rotation),
        kind,
    };
    let bytes = encode_new_transform(&msg);
    handle_new_transform(buffer, bytes.as_slice()).unwrap();
}

fn query(buffer: &mut BufferTree, id: u64, from: &str, to: &str, time: i64) -> TransformResponse {
    let req = build_transform_request(id, from.to_string(), to.to_string(), time);
    let reply = handle_transform_query(buffer, req.as_slice());
    decode_transform_response(reply.as_slice()).unwrap()
}

// Static-only chain: one static edge answers any query with its pose.
#[test]
fn scenario_static_chain() {
    let mut buffer = BufferTree::new();
    publish(
        &mut buffer,
        "world",
        "robot",
        [0.0, 0.0, 1.0],
        [0.0, 0.0, 0.0, 1.0],
        SEC,
        TransformType::Static,
    );
    let resp = query(&mut buffer, 7, "world", "robot", 0);
    assert!(resp.success);
    assert_eq!(resp.id, 7);
    let t = vals3(resp.translation);
    let r = vals4(resp.rotation);
    assert!(close(t[0], 0.0, 1e-6) && close(t[1], 0.0, 1e-6) && close(t[2], 1.0, 1e-6));
    assert!(close(r[0], 0.0, 1e-6) && close(r[1], 0.0, 1e-6) && close(r[2], 0.0, 1e-6));
    assert!(close(r[3], 1.0, 1e-6));
}

// Composed static chain: translations compose along the path.
#[test]
fn scenario_composed_static() {
    let mut buffer = BufferTree::new();
    publish(
        &mut buffer,
        "world",
        "robot",
        [0.0, 0.0, 1.0],
        [0.0, 0.0, 0.0, 1.0],
        SEC,
        TransformType::Static,
    );
    publish(
        &mut buffer,
        "robot",
        "tool",
        [0.5, 0.0, 0.0],
        [0.0, 0.0, 0.0, 1.0],
        SEC,
        TransformType::Static,
    );
    let resp = query(&mut buffer, 8, "world", "tool", 0);
    assert!(resp.success);
    let t = vals3(resp.translation);
    assert!(close(t[0], 0.5, 1e-6) && close(t[1], 0.0, 1e-6) && close(t[2], 1.0, 1e-6));
}

// Interpolation on a dynamic edge: the midpoint splits the translation.
#[test]
fn scenario_dynamic_interpolation() {
    let mut buffer = BufferTree::new();
    publish(
        &mut buffer,
        "a",
        "b",
        [0.0, 0.0, 0.0],
        [0.0, 0.0, 0.0, 1.0],
        0,
        TransformType::Dynamic,
    );
    publish(
        &mut buffer,
        "a",
        "b",
        [2.0, 0.0, 0.0],
        [0.0, 0.0, 0.0, 1.0],
        SEC,
        TransformType::Dynamic,
    );
    let resp = query(&mut buffer, 9, "a", "b", SEC / 2);
    assert!(resp.success);
    let t = vals3(resp.translation);
    assert!(close(t[0], 1.0, 1e-6) && close(t[1], 0.0, 1e-6) && close(t[2], 0.0, 1e-6));
}

// Out-of-range queries on a dynamic edge name the side they fall on.
#[test]
fn scenario_out_of_range() {
    let mut buffer = BufferTree::new();
    for (x, t) in [(0.0, 0), (2.0, SEC)] {
        publish(
            &mut buffer,
            "a",
            "b",
            [x, 0.0, 0.0],
            [0.0, 0.0, 0.0, 1.0],
            t,
            TransformType::Dynamic,
        );
    }
    let past = query(&mut buffer, 1, "a", "b", -SEC / 10);
    assert!(!past.success);
    assert_eq!(past.error_message, "AttemptedLookupInPast");
    let future = query(&mut buffer, 2, "a", "b", SEC + SEC / 10);
    assert!(!future.success);
    assert_eq!(future.error_message, "AttemptedLookUpInFuture");
}

// A cycle is rejected and the graph keeps the first two edges.
#[test]
fn scenario_cycle_rejection() {
    let mut buffer = BufferTree::new();
    let pose = StampedIsometry::new(bits3([0.0; 3]), bits4([0.0, 0.0, 0.0, 1.0]), SEC);
    buffer
        .update("A".to_string(), "B".to_string(), pose, TransformType::Static)
        .unwrap();
    buffer
        .update("B".to_string(), "C".to_string(), pose, TransformType::Static)
        .unwrap();
    let third = buffer.update("C".to_string(), "A".to_string(), pose, TransformType::Static);
    assert!(matches!(third, Err(TfError::InvalidGraph)));
    assert_eq!(buffer.edges.len(), 2);
    for name in ["A", "B", "C"] {
        let id = buffer.index.index(name.to_string());
        assert!(buffer.contains_node(id));
    }
}

// A second parent is rejected and the fresh node is rolled back.
#[test]
fn scenario_second_parent_rejection() {
    let mut buffer = BufferTree::new();
    let pose = StampedIsometry::new(bits3([0.0; 3]), bits4([0.0, 0.0, 0.0, 1.0]), SEC);
    buffer
        .update("A".to_string(), "B".to_string(), pose, TransformType::Static)
        .unwrap();
    let second = buffer.update("C".to_string(), "B".to_string(), pose, TransformType::Static);
    assert!(matches!(second, Err(TfError::InvalidGraph)));
    let c = buffer.index.index("C".to_string());
    assert!(!buffer.contains_node(c));
    assert_eq!(buffer.edges.len(), 1);
}

// History stamps increase strictly; out-of-order samples are rejected.
#[test]
fn history_rejects_out_of_order() {
    let mut h = TransformHistory::new(TransformType::Dynamic, 10);
    let p1 = StampedIsometry::new(bits3([0.0; 3]), bits4([0.0, 0.0, 0.0, 1.0]), SEC);
    let p2 = StampedIsometry::new(bits3([1.0, 0.0, 0.0]), bits4([0.0, 0.0, 0.0, 1.0]), 2 * SEC);
    assert!(h.update(p1).is_ok());
    assert!(h.update(p2).is_ok());
    assert!(matches!(h.update(p1), Err(TfError::OutOfOrder)));
    assert!(matches!(h.update(p2), Err(TfError::OutOfOrder)));
    assert_eq!(h.history.len(), 2);
    assert!(h.history[0].stamp() < h.history[1].stamp());
}

// The cap holds and the oldest entry is the one evicted.
#[test]
fn history_evicts_front_at_cap() {
    let mut h = TransformHistory::new(TransformType::Dynamic, 3);
    for k in 1..=5i64 {
        let p = StampedIsometry::new(bits3([0.0; 3]), bits4([0.0, 0.0, 0.0, 1.0]), k * SEC);
        assert!(h.update(p).is_ok());
        assert!(h.history.len() <= 3);
    }
    assert_eq!(h.history.len(), 3);
    assert_eq!(h.history[0].stamp(), 3 * SEC);
    assert_eq!(h.history[2].stamp(), 5 * SEC);
}

// A dynamic edge with a single sample cannot be interpolated.
#[test]
fn dynamic_single_sample_fails() {
    let mut buffer = BufferTree::new();
    publish(
        &mut buffer,
        "a",
        "b",
        [1.0, 0.0, 0.0],
        [0.0, 0.0, 0.0, 1.0],
        SEC,
        TransformType::Dynamic,
    );
    let resp = query(&mut buffer, 3, "a", "b", SEC);
    assert!(!resp.success);
    assert_eq!(resp.error_message, "CouldNotFindTransform");
}

// Frames in different trees cannot be related.
#[test]
fn disconnected_frames_fail() {
    let mut buffer = BufferTree::new();
    publish(
        &mut buffer,
        "a",
        "b",
        [1.0, 0.0, 0.0],
        [0.0, 0.0, 0.0, 1.0],
        SEC,
        TransformType::Static,
    );
    publish(
        &mut buffer,
        "x",
        "y",
        [1.0, 0.0, 0.0],
        [0.0, 0.0, 0.0, 1.0],
        SEC,
        TransformType::Static,
    );
    assert!(matches!(
        buffer.lookup_latest_transform("a".to_string(), "y".to_string()),
        Err(TfError::CouldNotFindTransform)
    ));
    assert_eq!(buffer.find_path("a".to_string(), "y".to_string()), None);
}

// Composition identity: a frame relates to itself by the identity pose.
#[test]
fn lookup_identity_on_same_frame() {
    let mut buffer = BufferTree::new();
    publish(
        &mut buffer,
        "a",
        "b",
        [3.0, 2.0, 1.0],
        [0.5, 0.5, 0.5, 0.5],
        SEC,
        TransformType::Static,
    );
    let si = buffer
        .lookup_transform("a".to_string(), "a".to_string(), 5 * SEC)
        .unwrap();
    let t = vals3(si.translation());
    let r = vals4(si.rotation());
    assert_eq!(t, [0.0, 0.0, 0.0]);
    assert_eq!(r, [0.0, 0.0, 0.0, 1.0]);
}

// Inverse law: the two directions compose to the identity within 1e-6.
#[test]
fn lookup_inverse_composes_to_identity() {
    let mut buffer = BufferTree::new();
    publish(
        &mut buffer,
        "base",
        "arm",
        [0.3, -0.2, 0.9],
        [0.1, 0.2, 0.3, 0.9],
        SEC,
        TransformType::Static,
    );
    publish(
        &mut buffer,
        "arm",
        "hand",
        [-0.4, 0.1, 0.2],
        [0.0, 0.7, 0.0, 0.7],
        SEC,
        TransformType::Static,
    );
    let ab = buffer
        .lookup_latest_transform("base".to_string(), "hand".to_string())
        .unwrap();
    let ba = buffer
        .lookup_latest_transform("hand".to_string(), "base".to_string())
        .unwrap();
    let to_iso = |si: &StampedIsometry| {
        let t = vals3(si.translation());
        let r = vals4(si.rotation());
        nalgebra::Isometry3::from_parts(
            Translation3::new(t[0], t[1], t[2]),
            UnitQuaternion::from_quaternion(Quaternion::new(r[3], r[0], r[1], r[2])),
        )
    };
    let prod = to_iso(&ab) * to_iso(&ba);
    assert!(prod.translation.vector.norm() <= 1e-6);
    assert!(close(prod.rotation.into_inner().w.abs(), 1.0, 1e-6));
}

// A purely static path answers the same at any instant.
#[test]
fn static_path_is_time_independent() {
    let mut buffer = BufferTree::new();
    publish(
        &mut buffer,
        "base",
        "arm",
        [0.3, -0.2, 0.9],
        [0.1, 0.2, 0.3, 0.9],
        SEC,
        TransformType::Static,
    );
    publish(
        &mut buffer,
        "arm",
        "hand",
        [-0.4, 0.1, 0.2],
        [0.0, 0.7, 0.0, 0.7],
        SEC,
        TransformType::Static,
    );
    let latest = buffer
        .lookup_latest_transform("base".to_string(), "hand".to_string())
        .unwrap();
    for t in [1, 50 * SEC, -3 * SEC] {
        let at = buffer
            .lookup_transform("base".to_string(), "hand".to_string(), t)
            .unwrap();
        assert_eq!(at.translation(), latest.translation());
        assert_eq!(at.rotation(), latest.rotation());
        assert_eq!(at.stamp(), t);
    }
}

// Interpolation at a stored stamp returns the stored sample.
#[test]
fn interpolation_at_knot_returns_sample() {
    let mut buffer = BufferTree::new();
    publish(
        &mut buffer,
        "a",
        "b",
        [1.0, 2.0, 3.0],
        [0.0, 0.0, 0.0, 1.0],
        SEC,
        TransformType::Dynamic,
    );
    publish(
        &mut buffer,
        "a",
        "b",
        [5.0, 6.0, 7.0],
        [0.0, 0.0, 1.0, 0.0],
        2 * SEC,
        TransformType::Dynamic,
    );
    let si = buffer
        .lookup_transform("a".to_string(), "b".to_string(), SEC)
        .unwrap();
    let t = vals3(si.translation());
    assert!(close(t[0], 1.0, 1e-6) && close(t[1], 2.0, 1e-6) && close(t[2], 3.0, 1e-6));
}

// The slerp midpoint of a quarter turn is an eighth turn.
#[test]
fn interpolation_midpoint_slerps_rotation() {
    let mut buffer = BufferTree::new();
    let quarter = UnitQuaternion::from_euler_angles(0.0, 0.0, std::f64::consts::FRAC_PI_2);
    let q = quarter.into_inner();
    publish(
        &mut buffer,
        "a",
        "b",
        [0.0, 0.0, 0.0],
        [0.0, 0.0, 0.0, 1.0],
        0,
        TransformType::Dynamic,
    );
    publish(
        &mut buffer,
        "a",
        "b",
        [2.0, 0.0, 0.0],
        [q.i, q.j, q.k, q.w],
        SEC,
        TransformType::Dynamic,
    );
    let si = buffer
        .lookup_transform("a".to_string(), "b".to_string(), SEC / 2)
        .unwrap();
    let r = vals4(si.rotation());
    let got = UnitQuaternion::from_quaternion(Quaternion::new(r[3], r[0], r[1], r[2]));
    let expect = UnitQuaternion::from_euler_angles(0.0, 0.0, std::f64::consts::FRAC_PI_4);
    let (roll, pitch, yaw) = got.euler_angles();
    let (eroll, epitch, eyaw) = expect.euler_angles();
    assert!(close(roll, eroll, 1e-6) && close(pitch, epitch, 1e-6) && close(yaw, eyaw, 1e-6));
    let t = vals3(si.translation());
    assert!(close(t[0], 1.0, 1e-6));
}

// Construction normalizes a non-unit quaternion.
#[test]
fn construction_normalizes_rotation() {
    let si = StampedIsometry::new(bits3([0.0; 3]), bits4([0.0, 0.0, 0.0, 2.0]), SEC);
    let r = vals4(si.rotation());
    assert!(close(r[3], 1.0, 1e-12));
    assert!(close(r[0], 0.0, 1e-12) && close(r[1], 0.0, 1e-12) && close(r[2], 0.0, 1e-12));
}

// Round trips for all three record kinds.
#[test]
fn codec_round_trips() {
    let nt = NewTransform {
        from: "world".to_string(),
        to: "robot".to_string(),
        time: 42 * SEC + 17,
        translation: bits3([1.5, -2.5, 3.25]),
        rotation: bits4([0.1, 0.2, 0.3, 0.9]),
        kind: TransformType::Dynamic,
    };
    let back = decode_new_transform(encode_new_transform(&nt).as_slice()).unwrap();
    assert_eq!(back.from, "world");
    assert_eq!(back.to, "robot");
    assert_eq!(back.time, 42 * SEC + 17);
    assert_eq!(back.translation, nt.translation);
    assert_eq!(back.rotation, nt.rotation);
    assert_eq!(back.kind, TransformType::Dynamic);

    let rq = TransformRequest {
        id: 77,
        from: "a".to_string(),
        to: "b".to_string(),
        time: -5,
    };
    let back = decode_transform_request(encode_transform_request(&rq).as_slice()).unwrap();
    assert_eq!(back.id, 77);
    assert_eq!(back.from, "a");
    assert_eq!(back.to, "b");
    assert_eq!(back.time, -5);

    // Garbage does not decode
    assert!(decode_new_transform(&[1, 2, 3]).is_none());
    assert!(decode_transform_request(encode_new_transform(&nt).as_slice()).is_none());
}

// A reader skips fields whose id it does not know, so records may grow.
#[test]
fn codec_ignores_unknown_fields() {
    fn field(id: u8, payload: &[u8]) -> Vec<u8> {
        let mut out = vec![id];
        out.extend_from_slice(&(payload.len() as u32).to_le_bytes());
        out.extend_from_slice(payload);
        out
    }
    let mut body = Vec::new();
    body.extend_from_slice(&field(9, b"zz")); // a field from the future
    body.extend_from_slice(&field(1, &77u64.to_le_bytes()));
    body.extend_from_slice(&field(2, b"world"));
    body.extend_from_slice(&field(7, b"again"));
    body.extend_from_slice(&field(3, b"robot"));
    body.extend_from_slice(&field(4, &5u64.to_le_bytes()));
    let mut frame = ((body.len() + 1) as u32).to_le_bytes().to_vec();
    frame.push(2); // the request tag
    frame.extend_from_slice(&body);
    let req = decode_transform_request(&frame).unwrap();
    assert_eq!(req.id, 77);
    assert_eq!(req.from, "world");
    assert_eq!(req.to, "robot");
    assert_eq!(req.time, 5);
}

// A frame name that is not valid UTF-8 does not decode.
#[test]
fn codec_rejects_invalid_utf8() {
    let nt = NewTransform {
        from: "world".to_string(),
        to: "robot".to_string(),
        time: 1,
        translation: bits3([0.0; 3]),
        rotation: bits4([0.0, 0.0, 0.0, 1.0]),
        kind: TransformType::Static,
    };
    let mut bytes = encode_new_transform(&nt);
    // the first string payload starts after prefix, tag and field header
    bytes[10] = 0xFF;
    assert!(decode_new_transform(&bytes).is_none());
}

#[test]
fn test_transform_response_roundtrip() {
    // Test successful response
    let resp = TransformResponse {
        id: 0,
        time: 42,
        translation: bits3([1.0, 2.0, 3.0]),
        rotation: bits4([0.0, 0.0, 0.0, 1.0]),
        success: true,
        error_message: String::new(),
    };
    let serialized = encode_transform_response(&resp);
    let deserialized = decode_transform_response(serialized.as_slice()).unwrap();
    if deserialized.success {
        assert_eq!(deserialized.time, 42);
        assert_eq!(vals3(deserialized.translation), [1.0, 2.0, 3.0]);
        assert_eq!(vals4(deserialized.rotation), [0.0, 0.0, 0.0, 1.0]);
    } else {
        panic!("Expected success, got error: {}", deserialized.error_message);
    }
}

#[test]
fn test_transform_response_error() {
    // Test error response
    let resp = TransformResponse {
        id: 0,
        time: 0,
        translation: bits3([0.0, 0.0, 0.0]),
        rotation: bits4([0.0, 0.0, 0.0, 1.0]),
        success: false,
        error_message: "test error".to_string(),
    };
    let serialized = encode_transform_response(&resp);
    let deserialized = decode_transform_response(serialized.as_slice()).unwrap();
    if deserialized.success {
        panic!("Expected error, got success");
    } else {
        assert_eq!(deserialized.error_message, "test error");
    }
}

// The service answers an undecodable request with a failure reply.
#[test]
fn service_rejects_malformed_request() {
    let mut buffer = BufferTree::new();
    let reply = handle_transform_query(&mut buffer, &[9, 9, 9]);
    let resp = decode_transform_response(reply.as_slice()).unwrap();
    assert!(!resp.success);
    assert_eq!(resp.error_message, "SerializationError");
    assert_eq!(resp.id, 0);
}

// A malformed publication leaves the buffer untouched.
#[test]
fn service_rejects_malformed_publication() {
    let mut buffer = BufferTree::new();
    let r = handle_new_transform(&mut buffer, &[0, 0, 0, 0]);
    assert!(matches!(r, Err(CommsError::Serialization)));
    assert_eq!(buffer.edges.len(), 0);
}

// Unknown frames fail a query with the lookup's reason.
#[test]
fn service_reports_unknown_frames() {
    let mut buffer = BufferTree::new();
    let resp = query(&mut buffer, 5, "nowhere", "nothing", 0);
    assert!(!resp.success);
    assert_eq!(resp.id, 5);
    assert_eq!(resp.error_message, "CouldNotFindTransform");
}

// Replies correlate by id; foreign ids and silence are client errors.
#[test]
fn client_correlates_replies() {
    let mut buffer = BufferTree::new();
    publish(
        &mut buffer,
        "world",
        "robot",
        [0.0, 0.0, 1.0],
        [0.0, 0.0, 0.0, 1.0],
        SEC,
        TransformType::Static,
    );
    let req = build_transform_request(21, "world".to_string(), "robot".to_string(), 0);
    let reply = handle_transform_query(&mut buffer, req.as_slice());

    let ok = conclude_request(21, ReplyEvent::Reply(reply.clone()));
    let si = ok.unwrap();
    assert!(close(vals3(si.translation())[2], 1.0, 1e-6));

    let mismatch = conclude_request(22, ReplyEvent::Reply(reply));
    match mismatch {
        Err(CommsError::ResponseIdMismatch { expected, actual }) => {
            assert_eq!(expected, 22);
            assert_eq!(actual, 21);
        }
        _ => panic!("expected a correlation mismatch"),
    }

    let silence = conclude_request(21, ReplyEvent::NoReply);
    assert!(matches!(silence, Err(CommsError::NoResponse)));

    let garbage = conclude_request(21, ReplyEvent::Reply(vec![1, 2, 3]));
    assert!(matches!(garbage, Err(CommsError::Serialization)));
}

// A failed lookup surfaces at the client as the server's reason.
#[test]
fn client_sees_remote_errors() {
    let mut buffer = BufferTree::new();
    let req = build_transform_request(4, "no".to_string(), "where".to_string(), 0);
    let reply = handle_transform_query(&mut buffer, req.as_slice());
    match conclude_request(4, ReplyEvent::Reply(reply)) {
        Err(CommsError::RemoteError(msg)) => assert_eq!(msg, "CouldNotFindTransform"),
        _ => panic!("expected the server's reason"),
    }
}

// A new observer is handed one notification per existing edge, then one
// per committed update.
#[test]
fn observer_replay_and_updates() {
    let mut buffer = BufferTree::new();
    publish(
        &mut buffer,
        "world",
        "robot",
        [0.0, 0.0, 1.0],
        [0.0, 0.0, 0.0, 1.0],
        SEC,
        TransformType::Static,
    );
    publish(
        &mut buffer,
        "robot",
        "tool",
        [0.5, 0.0, 0.0],
        [0.0, 0.0, 0.0, 1.0],
        SEC,
        TransformType::Static,
    );
    let obs = buffer.register_observer();
    let replay = buffer.take_notifications(obs);
    assert_eq!(replay.len(), 2);
    let world = buffer.index.index("world".to_string());
    let robot = buffer.index.index("robot".to_string());
    let tool = buffer.index.index("tool".to_string());
    assert_eq!(replay[0].from_id, world);
    assert_eq!(replay[0].to_id, robot);
    assert_eq!(replay[1].from_id, robot);
    assert_eq!(replay[1].to_id, tool);

    // a committed update notifies; a rejected one does not
    publish(
        &mut buffer,
        "world",
        "robot",
        [0.0, 0.0, 2.0],
        [0.0, 0.0, 0.0, 1.0],
        2 * SEC,
        TransformType::Static,
    );
    let pose = StampedIsometry::new(bits3([0.0; 3]), bits4([0.0, 0.0, 0.0, 1.0]), SEC);
    let rejected = buffer.update(
        "tool".to_string(),
        "robot".to_string(),
        pose,
        TransformType::Static,
    );
    assert!(rejected.is_err());
    let notes = buffer.take_notifications(obs);
    assert_eq!(notes.len(), 1);
    assert_eq!(notes[0].from_id, world);
    assert_eq!(notes[0].to_id, robot);
    assert_eq!(notes[0].transform.stamp(), 2 * SEC);
}

// The node index hands out dense, stable ids.
#[test]
fn node_index_is_stable() {
    let mut index = NodeIndex::new();
    let a = index.index("a".to_string());
    let b = index.index("b".to_string());
    assert_eq!(a, 0);
    assert_eq!(b, 1);
    assert_eq!(index.index("a".to_string()), 0);
    assert!(index.contains(&"b".to_string()));
    assert!(!index.contains(&"c".to_string()));
}

// The graph renders with frame names on the nodes.
#[test]
fn visualize_names_frames() {
    let mut buffer = BufferTree::new();
    publish(
        &mut buffer,
        "world",
        "robot",
        [0.0, 0.0, 1.0],
        [0.0, 0.0, 0.0, 1.0],
        SEC,
        TransformType::Static,
    );
    let dot = buffer.visualize();
    assert!(dot.starts_with("digraph {"));
    assert!(dot.contains("world"));
    assert!(dot.contains("robot"));
    assert!(dot.contains("->"));
    assert!(dot.ends_with("}"));
}

// Configuration defaults and event values are what the wire expects.
#[test]
fn defaults_and_events() {
    assert_eq!(BufferConfig::default().max_transform_history, 1000);
    assert_eq!(ServerConfig::default().max_subscribers, 10);
    assert_eq!(ZenohConfig::default().mode, "peer");
    assert_eq!(default_mode(), "peer");
    assert!(default_publish_static());
    assert_eq!(TransformType::static_transform().to_u8(), 0);
    assert_eq!(TransformType::dynamic_transform().to_u8(), 1);
    assert_eq!(TransformType::from_u8(0), Some(TransformType::Static));
    assert_eq!(TransformType::from_u8(1), Some(TransformType::Dynamic));
    assert_eq!(TransformType::from_u8(9), None);
    for (event, value) in [
        (PubSubEvent::PublisherConnected, 0),
        (PubSubEvent::SubscriberDisconnected, 3),
        (PubSubEvent::SentSample, 4),
        (PubSubEvent::ReceivedSample, 6),
        (PubSubEvent::ProcessDied, 8),
    ] {
        assert_eq!(event.event_value(), value);
        assert_eq!(PubSubEvent::from_event_value(value), event);
    }
    assert_eq!(PubSubEvent::from_event_value(100), PubSubEvent::Unknown);
    assert_eq!(TfError::OutOfOrder.message(), "OutOfOrder");
}
