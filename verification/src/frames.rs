//! Reference frames.
use vstd::prelude::*;

verus! {

/// Reference frames supported by Apogee.
#[derive(Debug, Clone, Copy, PartialEq, Eq, Structural)]
pub enum Frame {
    /// International Celestial Reference Frame.
    Icrf,
    /// Earth-Centered Inertial (Earth Mean Equator, J2000).
    Eci,
    /// Earth-Centered Earth-Fixed.
    Ecef,
    /// Ecliptic J2000.
    EclipticJ2000,
    /// Body-fixed frame for a specific body.
    BodyFixed(u32),
}

/// Local relative frame attached to a chief spacecraft state.
#[derive(Debug, Clone, Copy, PartialEq, Eq, Structural)]
pub enum LocalFrame {
    /// Local Vertical / Local Horizontal (x=radial, y=in-track, z=normal).
    Lvlh,
    /// Radial / In-track / Cross-track (x=radial, y=in-track, z=cross-track).
    Ric,
    /// Spherical RIC: same basis as RIC, used for curvilinear local
    /// coordinates.
    RicSpherical,
}

/// Nutation-precession model implementing IAU 2000/2006. The model has no
/// state; its evaluation is done on floating-point epochs outside this
/// library.
#[derive(Debug)]
pub struct NutationPrecessionModel {}

impl NutationPrecessionModel {
    /// Create a new NutationPrecessionModel.
    pub fn new() -> (m: Self)
        ensures
            m == (NutationPrecessionModel {}),
    {
        Self {}
    }
}

impl Default for NutationPrecessionModel {
    fn default() -> (m: Self)
        ensures
            m == (NutationPrecessionModel {}),
    {
        Self {}
    }
}

} // verus!
