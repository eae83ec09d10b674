//! Value types: transform kinds, stamped poses, errors, events and
//! configuration records.

use vstd::prelude::*;
use crate::math::{Pose, spec_pose_from_parts, unit_of};

verus! {

/// Whether a transform changes over time.
#[derive(Clone, Copy, Debug, PartialEq, Eq, Structural)]
pub enum TransformType {
    /// Does not change over time.
    Static,
    /// Changes over time and is interpolated.
    Dynamic,
}

impl TransformType {
    /// Creates a static transform type.
    pub fn static_transform() -> (r: Self)
        ensures
            r == TransformType::Static,
    {
        TransformType::Static
    }

    /// Creates a dynamic transform type.
    pub fn dynamic_transform() -> (r: Self)
        ensures
            r == TransformType::Dynamic,
    {
        TransformType::Dynamic
    }

    /// The stable wire value of this kind: static is 0, dynamic is 1.
    pub fn to_u8(&self) -> (r: u8)
        ensures
            r == spec_kind_value(*self),
    {
        match self {
            TransformType::Static => 0,
            TransformType::Dynamic => 1,
        }
    }

    /// Reads a kind back from its wire value; other values are rejected.
    pub fn from_u8(v: u8) -> (r: Option<TransformType>)
        ensures
            r == spec_kind_of_value(v),
    {
        match v {
            0 => Some(TransformType::Static),
            1 => Some(TransformType::Dynamic),
            _ => None,
        }
    }
}

/// The stable wire value of a transform kind.
pub open spec fn spec_kind_value(k: TransformType) -> u8 {
    match k {
        TransformType::Static => 0,
        TransformType::Dynamic => 1,
    }
}

/// The transform kind a wire value stands for, if any.
pub open spec fn spec_kind_of_value(v: u8) -> Option<TransformType> {
    if v == 0 {
        Some(TransformType::Static)
    } else if v == 1 {
        Some(TransformType::Dynamic)
    } else {
        None
    }
}

/// The ways a buffer operation can fail.
#[derive(Clone, Copy, Debug, PartialEq, Eq, Structural)]
pub enum TfError {
    /// The queried timestamp precedes every sample of some edge on the path.
    AttemptedLookupInPast,
    /// The queried timestamp follows every sample of some dynamic edge on the path.
    AttemptedLookUpInFuture,
    /// A frame is unknown, no path exists, or a dynamic edge has fewer than two samples.
    CouldNotFindTransform,
    /// The proposed update would break the tree shape or create a cycle.
    InvalidGraph,
    /// The appended sample's stamp is not strictly greater than the last stored one.
    OutOfOrder,
}

/// The human-readable name of a buffer error.
pub open spec fn spec_error_message(e: TfError) -> Seq<char> {
    match e {
        TfError::AttemptedLookupInPast => "AttemptedLookupInPast"@,
        TfError::AttemptedLookUpInFuture => "AttemptedLookUpInFuture"@,
        TfError::CouldNotFindTransform => "CouldNotFindTransform"@,
        TfError::InvalidGraph => "InvalidGraph"@,
        TfError::OutOfOrder => "OutOfOrder"@,
    }
}

impl TfError {
    /// The error's human-readable name, as carried in a failed reply.
    pub fn message(&self) -> (r: String)
        ensures
            r@ == spec_error_message(*self),
    {
        match self {
            TfError::AttemptedLookupInPast => String::from_str("AttemptedLookupInPast"),
            TfError::AttemptedLookUpInFuture => String::from_str("AttemptedLookUpInFuture"),
            TfError::CouldNotFindTransform => String::from_str("CouldNotFindTransform"),
            TfError::InvalidGraph => String::from_str("InvalidGraph"),
            TfError::OutOfOrder => String::from_str("OutOfOrder"),
        }
    }
}

/// The ways the transport layer and its clients can fail.
#[derive(Debug)]
pub enum CommsError {
    /// An encoded payload was malformed or a field missing.
    Serialization,
    /// The underlying message bus failed.
    Transport(String),
    /// The configuration could not be used.
    Config(String),
    /// The buffer rejected the operation.
    Buffer(TfError),
    /// A reply arrived whose correlation id belongs to another request.
    ResponseIdMismatch { expected: u64, actual: u64 },
    /// No reply arrived within the deadline.
    NoResponse,
    /// The server answered, reporting a failed lookup.
    RemoteError(String),
}

/// A pose together with the instant it was recorded, in nanoseconds.
#[derive(Clone, Copy, Debug)]
pub struct StampedIsometry {
    /// The rigid transform, scalars held as IEEE-754 double bit patterns.
    pub isometry: Pose,
    /// Nanoseconds since the epoch.
    pub stamp: i64,
}

impl StampedIsometry {
    /// Builds a stamped pose from translation and rotation bit patterns
    /// (rotation given as x, y, z, w) and a stamp in nanoseconds. The
    /// quaternion is brought to unit length.
    pub fn new(translation: [u64; 3], rotation: [u64; 4], stamp: i64) -> (r: Self)
        ensures
            r.isometry == unit_of(spec_pose_from_parts(translation, rotation)),
            r.isometry.tx == translation[0],
            r.isometry.ty == translation[1],
            r.isometry.tz == translation[2],
            r.stamp == stamp,
    {
        let raw = crate::math::pose_from_parts(translation, rotation);
        StampedIsometry { isometry: crate::math::normalize(&raw), stamp }
    }

    /// The translation bit patterns, as [x, y, z].
    pub fn translation(&self) -> (r: [u64; 3])
        ensures
            r[0] == self.isometry.tx,
            r[1] == self.isometry.ty,
            r[2] == self.isometry.tz,
    {
        [self.isometry.tx, self.isometry.ty, self.isometry.tz]
    }

    /// The rotation bit patterns, as [x, y, z, w].
    pub fn rotation(&self) -> (r: [u64; 4])
        ensures
            r[0] == self.isometry.qx,
            r[1] == self.isometry.qy,
            r[2] == self.isometry.qz,
            r[3] == self.isometry.qw,
    {
        [self.isometry.qx, self.isometry.qy, self.isometry.qz, self.isometry.qw]
    }

    /// The stamp in nanoseconds.
    pub fn stamp(&self) -> (r: i64)
        ensures
            r == self.stamp,
    {
        self.stamp
    }
}

impl PartialEq for StampedIsometry {
    /// Stamped poses compare by stamp alone.
    fn eq(&self, other: &Self) -> (r: bool) {
        self.stamp == other.stamp
    }
}

impl vstd::std_specs::cmp::PartialEqSpecImpl for StampedIsometry {
    open spec fn obeys_eq_spec() -> bool {
        true
    }

    open spec fn eq_spec(&self, other: &Self) -> bool {
        self.stamp == other.stamp
    }
}

/// The events exchanged on the notification channel of the pub/sub service.
#[derive(Clone, Copy, Debug, PartialEq, Eq, Structural)]
pub enum PubSubEvent {
    PublisherConnected,
    PublisherDisconnected,
    SubscriberConnected,
    SubscriberDisconnected,
    SentSample,
    Error,
    ReceivedSample,
    SentHistory,
    ProcessDied,
    Unknown,
}

impl PubSubEvent {
    /// The stable numeric value of this event on the wire.
    pub fn event_value(&self) -> (r: usize)
        ensures
            r == spec_event_value(*self),
    {
        match self {
            PubSubEvent::PublisherConnected => 0,
            PubSubEvent::PublisherDisconnected => 1,
            PubSubEvent::SubscriberConnected => 2,
            PubSubEvent::SubscriberDisconnected => 3,
            PubSubEvent::SentSample => 4,
            PubSubEvent::Error => 5,
            PubSubEvent::ReceivedSample => 6,
            PubSubEvent::SentHistory => 7,
            PubSubEvent::ProcessDied => 8,
            PubSubEvent::Unknown => 9,
        }
    }

    /// Reads an event back from its numeric value; unlisted values give
    /// `Unknown`.
    pub fn from_event_value(v: usize) -> (r: PubSubEvent)
        ensures
            r == spec_event_of_value(v),
    {
        match v {
            0 => PubSubEvent::PublisherConnected,
            1 => PubSubEvent::PublisherDisconnected,
            2 => PubSubEvent::SubscriberConnected,
            3 => PubSubEvent::SubscriberDisconnected,
            4 => PubSubEvent::SentSample,
            5 => PubSubEvent::Error,
            6 => PubSubEvent::ReceivedSample,
            7 => PubSubEvent::SentHistory,
            8 => PubSubEvent::ProcessDied,
            _ => PubSubEvent::Unknown,
        }
    }
}

/// The stable numeric value of a pub/sub event.
pub open spec fn spec_event_value(e: PubSubEvent) -> usize {
    match e {
        PubSubEvent::PublisherConnected => 0usize,
        PubSubEvent::PublisherDisconnected => 1usize,
        PubSubEvent::SubscriberConnected => 2usize,
        PubSubEvent::SubscriberDisconnected => 3usize,
        PubSubEvent::SentSample => 4usize,
        PubSubEvent::Error => 5usize,
        PubSubEvent::ReceivedSample => 6usize,
        PubSubEvent::SentHistory => 7usize,
        PubSubEvent::ProcessDied => 8usize,
        PubSubEvent::Unknown => 9usize,
    }
}

/// The pub/sub event a numeric value stands for.
pub open spec fn spec_event_of_value(v: usize) -> PubSubEvent {
    if v == 0 {
        PubSubEvent::PublisherConnected
    } else if v == 1 {
        PubSubEvent::PublisherDisconnected
    } else if v == 2 {
        PubSubEvent::SubscriberConnected
    } else if v == 3 {
        PubSubEvent::SubscriberDisconnected
    } else if v == 4 {
        PubSubEvent::SentSample
    } else if v == 5 {
        PubSubEvent::Error
    } else if v == 6 {
        PubSubEvent::ReceivedSample
    } else if v == 7 {
        PubSubEvent::SentHistory
    } else if v == 8 {
        PubSubEvent::ProcessDied
    } else {
        PubSubEvent::Unknown
    }
}

/// Buffer-side configuration: the history cap and where visualizations go.
#[derive(Clone, Debug)]
pub struct BufferConfig {
    /// How many samples each edge keeps at most; at least one.
    pub max_transform_history: usize,
    /// Directory for visualization output.
    pub save_path: String,
}

impl Default for BufferConfig {
    /// The default configuration: a cap of 1000 samples, output to the
    /// current directory.
    fn default() -> (r: Self)
        ensures
            r.max_transform_history == 1000,
            r.save_path@ == "."@,
    {
        BufferConfig { max_transform_history: 1000, save_path: String::from_str(".") }
    }
}

/// Server-side configuration.
#[derive(Clone, Debug)]
pub struct ServerConfig {
    /// How many peers the service accepts at most.
    pub max_subscribers: usize,
}

impl Default for ServerConfig {
    fn default() -> (r: Self)
        ensures
            r.max_subscribers == 10,
    {
        ServerConfig { max_subscribers: 10 }
    }
}

/// The default transport mode.
pub fn default_mode() -> (r: String)
    ensures
        r@ == "peer"@,
{
    String::from_str("peer")
}

/// Whether observers forward static transforms by default.
pub fn default_publish_static() -> (r: bool)
    ensures
        r == true,
{
    true
}

/// Transport configuration: the profile the session is opened in.
#[derive(Clone, Debug)]
pub struct ZenohConfig {
    /// The transport mode, `peer` by default.
    pub mode: String,
}

impl Default for ZenohConfig {
    fn default() -> (r: Self)
        ensures
            r.mode@ == "peer"@,
    {
        ZenohConfig { mode: default_mode() }
    }
}

} // verus!
