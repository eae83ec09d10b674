//! Rigid-body pose values and the algebra on them.
//!
//! A scalar is held as the bit pattern of an IEEE-754 double (`u64`), so that
//! every contract in this crate speaks over plain integer values. The algebra
//! itself (composition, inversion, interpolation) is nalgebra's; each
//! operation's result is given a name that the contracts use.

use vstd::prelude::*;
use std::primitive::f64 as Double;

verus! {

/// A rigid-body pose: a translation and a quaternion (x, y, z, w), each
/// scalar held as the bit pattern of an IEEE-754 double.
#[derive(Clone, Copy, PartialEq, Eq, Structural, Debug)]
pub struct Pose {
    pub tx: u64,
    pub ty: u64,
    pub tz: u64,
    pub qx: u64,
    pub qy: u64,
    pub qz: u64,
    pub qw: u64,
}

/// Bit pattern of the double 1.0.
pub const ONE_BITS: u64 = 0x3FF0000000000000;

/// The identity pose: zero translation, unit quaternion (0, 0, 0, 1).
pub open spec fn identity_pose() -> Pose {
    Pose { tx: 0u64, ty: 0u64, tz: 0u64, qx: 0u64, qy: 0u64, qz: 0u64, qw: ONE_BITS }
}

/// Builds a pose value from a translation and a rotation given as arrays.
pub open spec fn spec_pose_from_parts(t: [u64; 3], r: [u64; 4]) -> Pose {
    Pose { tx: t[0], ty: t[1], tz: t[2], qx: r[0], qy: r[1], qz: r[2], qw: r[3] }
}

/// Builds a pose value from translation and rotation word sequences.
pub open spec fn spec_pose_from_seqs(t: Seq<u64>, r: Seq<u64>) -> Pose {
    Pose { tx: t[0], ty: t[1], tz: t[2], qx: r[0], qy: r[1], qz: r[2], qw: r[3] }
}

/// Returns the identity pose.
pub fn identity() -> (r: Pose)
    ensures
        r == identity_pose(),
{
    Pose { tx: 0u64, ty: 0u64, tz: 0u64, qx: 0u64, qy: 0u64, qz: 0u64, qw: ONE_BITS }
}

/// Returns the pose with the given translation and rotation bits.
pub fn pose_from_parts(t: [u64; 3], r: [u64; 4]) -> (p: Pose)
    ensures
        p == spec_pose_from_parts(t, r),
{
    Pose { tx: t[0], ty: t[1], tz: t[2], qx: r[0], qy: r[1], qz: r[2], qw: r[3] }
}

/// The pose with its quaternion brought to unit length, exactly as
/// nalgebra's `UnitQuaternion::from_quaternion` computes it.
pub uninterp spec fn unit_of(p: Pose) -> Pose;

/// The composition of two rigid transforms, exactly as nalgebra's isometry
/// multiplication computes it (rotations renormalized through the unit
/// quaternion type).
pub uninterp spec fn compose_of(a: Pose, b: Pose) -> Pose;

/// The inverse of a rigid transform, exactly as nalgebra's
/// `Isometry::inverse` computes it.
pub uninterp spec fn inverse_of(a: Pose) -> Pose;

/// The pose interpolated between `a` at stamp `t0` and `b` at stamp `t1`
/// for the instant `t`: translations linearly, rotations by shortest-arc
/// slerp, with the weight `(t - t0) / (t1 - t0)` computed on doubles,
/// exactly as nalgebra's `try_lerp_slerp` computes it; in the ambiguous
/// configuration where the rotations are opposed and the slerp is
/// undefined, the earlier sample's pose.
pub uninterp spec fn interp_of(a: Pose, b: Pose, t0: i64, t1: i64, t: i64) -> Pose;

#[verifier::external_type_specification]
#[verifier::external_body]
#[verifier::reject_recursive_types(T)]
#[verifier::reject_recursive_types(R)]
pub struct ExIsometry<T, R, const D: usize>(nalgebra::Isometry<T, R, D>);

#[verifier::external_type_specification]
#[verifier::external_body]
#[verifier::reject_recursive_types(T)]
pub struct ExQuaternion<T>(nalgebra::Quaternion<T>);

#[verifier::external_type_specification]
#[verifier::external_body]
#[verifier::reject_recursive_types(T)]
pub struct ExUnit<T>(nalgebra::Unit<T>);

/// Trusted glue: reads the stored bit patterns into a nalgebra isometry.
/// Relies on `UnitQuaternion::from_quaternion`, which normalizes.
#[verifier::external_body]
fn iso_of(p: &Pose) -> nalgebra::Isometry3<Double> {
    nalgebra::Isometry3::from_parts(
        nalgebra::Translation3::new(
            Double::from_bits(p.tx),
            Double::from_bits(p.ty),
            Double::from_bits(p.tz),
        ),
        nalgebra::UnitQuaternion::from_quaternion(nalgebra::Quaternion::new(
            Double::from_bits(p.qw),
            Double::from_bits(p.qx),
            Double::from_bits(p.qy),
            Double::from_bits(p.qz),
        )),
    )
}

/// Trusted glue: writes a nalgebra isometry back as bit patterns.
#[verifier::external_body]
fn pose_bits(i: &nalgebra::Isometry3<Double>) -> Pose {
    let q = i.rotation.into_inner();
    Pose {
        tx: i.translation.x.to_bits(),
        ty: i.translation.y.to_bits(),
        tz: i.translation.z.to_bits(),
        qx: q.i.to_bits(),
        qy: q.j.to_bits(),
        qz: q.k.to_bits(),
        qw: q.w.to_bits(),
    }
}

/// Relies on nalgebra's `UnitQuaternion::from_quaternion`: brings the
/// quaternion to unit length; the result depends on the pose bits alone.
/// The translation is only carried through `from_bits`/`to_bits`, which
/// std documents as bit-preserving, so its words come back unchanged.
#[verifier::external_body]
pub(crate) fn normalize(p: &Pose) -> (r: Pose)
    ensures
        r == unit_of(*p),
        r.tx == p.tx,
        r.ty == p.ty,
        r.tz == p.tz,
{
    pose_bits(&iso_of(p))
}

/// Relies on nalgebra's isometry multiplication; the result depends on the
/// two operands' bits alone.
#[verifier::external_body]
pub(crate) fn compose(a: &Pose, b: &Pose) -> (r: Pose)
    ensures
        r == compose_of(*a, *b),
{
    pose_bits(&(iso_of(a) * iso_of(b)))
}

/// Relies on nalgebra's `Isometry::inverse`; the result depends on the
/// operand's bits alone.
#[verifier::external_body]
pub(crate) fn inverse(a: &Pose) -> (r: Pose)
    ensures
        r == inverse_of(*a),
{
    pose_bits(&iso_of(a).inverse())
}

/// Relies on nalgebra's `Isometry::try_lerp_slerp`; the weight is the
/// double quotient `(t - t0) / (t1 - t0)`, so the result depends on the
/// poses and the three stamps alone. The plain `lerp_slerp` panics on
/// opposed rotations, so the fallible form is called and the undefined
/// configuration answered with the earlier sample.
#[verifier::external_body]
pub(crate) fn interpolate(a: &Pose, b: &Pose, t0: i64, t1: i64, t: i64) -> (r: Pose)
    ensures
        r == interp_of(*a, *b, t0, t1, t),
{
    let w = (t as Double - t0 as Double) / (t1 as Double - t0 as Double);
    let ia = iso_of(a);
    match ia.try_lerp_slerp(&iso_of(b), w, Double::EPSILON) {
        Some(i) => pose_bits(&i),
        None => pose_bits(&ia),
    }
}

/// The text a graph-edge label carries for a pose and stamp: the
/// translation, the Euler-angle rotation and the stamp, as nalgebra's
/// `euler_angles` and std's float formatting render them.
pub uninterp spec fn edge_label_of(p: Pose, stamp: i64) -> Seq<char>;

/// Relies on nalgebra's `euler_angles` and std float formatting to render a
/// graph-edge label with translation, Euler rotation and stamp; both are
/// deterministic, so the result depends on the pose bits and the stamp
/// alone.
#[verifier::external_body]
pub(crate) fn edge_label(p: &Pose, stamp: i64) -> (r: String)
    ensures
        r@ == edge_label_of(*p, stamp),
{
    let i = iso_of(p);
    let (roll, pitch, yaw) = i.rotation.euler_angles();
    format!(
        "t=[{:.3}, {:.3}, {:.3}]\\nr=[{:.3}, {:.3}, {:.3}]\\ntime={}",
        i.translation.x, i.translation.y, i.translation.z, roll, pitch, yaw, stamp,
    )
}

} // verus!
