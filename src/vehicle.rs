//! A service description of the shape an interface generator emits: the
//! payload types of a vehicle interface with events `left_tire` and
//! `exhaust`, and an interface without events.
use vstd::prelude::*;

use crate::reloc::Reloc;
use crate::runtime::Interface;

verus! {

/// Payload of the `left_tire` event.
#[derive(Debug, Clone, Copy, PartialEq, Eq, Structural)]
pub struct Tire {
    /// Tire pressure, in whole units.
    pub pressure: u32,
}

impl Reloc for Tire {}

/// Payload of the `exhaust` event.
#[derive(Debug, Clone, Copy, PartialEq, Eq, Structural)]
pub struct Exhaust {}

impl Reloc for Exhaust {}

/// The vehicle interface.
#[derive(Debug)]
pub struct VehicleInterface {}

impl Interface for VehicleInterface {
    open spec fn id() -> Seq<char> {
        "VehicleInterface"@
    }

    fn interface_id() -> (r: &'static str) {
        "VehicleInterface"
    }
}

/// An interface with no events.
#[derive(Debug)]
pub struct AnotherInterface {}

impl Interface for AnotherInterface {
    open spec fn id() -> Seq<char> {
        "AnotherInterface"@
    }

    fn interface_id() -> (r: &'static str) {
        "AnotherInterface"
    }
}

} // verus!
