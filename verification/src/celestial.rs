//! Celestial body components: the kind of a body and its NAIF ID.
use vstd::prelude::*;

use crate::error::NaifId;

verus! {

/// Kind of celestial body: kinematic (ephemeris-driven) or dynamic.
#[derive(Debug, Clone, Copy, PartialEq, Eq, Structural)]
pub enum CelestialKind {
    /// Position is set from an external ephemeris service each step; the
    /// body is never integrated but contributes its GM to the gravity field.
    Kinematic,
    /// Position is integrated each step like a spacecraft.
    Dynamic,
}

impl Default for CelestialKind {
    /// The default kind is `Kinematic`.
    fn default() -> (k: Self)
        ensures
            k == CelestialKind::Kinematic,
    {
        CelestialKind::Kinematic
    }
}

impl CelestialKind {
    /// Is this body kinematic (ephemeris-driven)?
    pub fn is_kinematic(&self) -> (b: bool)
        ensures
            b == (*self == CelestialKind::Kinematic),
    {
        *self == CelestialKind::Kinematic
    }

    /// Is this body dynamic (integrated each step)?
    pub fn is_dynamic(&self) -> (b: bool)
        ensures
            b == (*self == CelestialKind::Dynamic),
    {
        *self == CelestialKind::Dynamic
    }
}

/// NAIF body identifier component.
#[derive(Debug, Clone, Copy, PartialEq, Eq, Structural)]
pub struct NaifIdComponent(pub NaifId);

impl Default for NaifIdComponent {
    /// The default ID is 0.
    fn default() -> (c: Self)
        ensures
            c.0 == 0,
    {
        NaifIdComponent(0)
    }
}

impl NaifIdComponent {
    /// Create a new NAIF ID component.
    pub fn new(id: NaifId) -> (c: Self)
        ensures
            c.0 == id,
    {
        Self(id)
    }

    /// The underlying NAIF ID value.
    pub fn id(&self) -> (id: NaifId)
        ensures
            id == self.0,
    {
        self.0
    }
}

} // verus!
