//! The cost model: per-edge cost functions for the two metrics, the travel
//! mode bitmasks, and the per-mode maximum speeds.
//!
//! Costs are fixed-point integers: distance costs in meters, time costs in
//! milliseconds. The time for an edge is `length / min(speed, vmax)` with the
//! effective speed capped at the vehicle's class maximum; with lengths in
//! meters and speeds in millimeters per second that is
//! `length * 1_000_000 / min(speed, vmax)` milliseconds, rounded down.

use vstd::prelude::*;

use crate::graph::Edge;
use crate::graph::MAX_EDGE_LENGTH;

verus! {

/// Travel mode bit for cars.
pub const FLAG_CAR: u8 = 1;

/// Travel mode bit for bikes.
pub const FLAG_BIKE: u8 = 2;

/// Travel mode bit for pedestrians.
pub const FLAG_WALK: u8 = 4;

/// Maximum car speed, 130 km/h in mm/s (rounded down).
pub const VMAX_CAR: u64 = 36111;

/// Maximum bike speed, 15 km/h in mm/s (rounded down).
pub const VMAX_BIKE: u64 = 4166;

/// Maximum walking speed, 5 km/h in mm/s (rounded down).
pub const VMAX_WALK: u64 = 1388;

/// The optimization metric a query asks for.
#[derive(Clone, Copy, Debug, PartialEq, Eq, Structural)]
pub enum Metric {
    Distance,
    Time,
}

/// The maximum speed of the vehicle class named by `mode`; an unrecognized
/// mode falls back to the car maximum (documented default policy).
pub open spec fn spec_vehicle_max_speed(mode: u8) -> u64 {
    if mode == FLAG_BIKE {
        VMAX_BIKE
    } else if mode == FLAG_WALK {
        VMAX_WALK
    } else {
        VMAX_CAR
    }
}

pub fn vehicle_max_speed(mode: u8) -> (v: u64)
    ensures
        v == spec_vehicle_max_speed(mode),
        1 <= v <= VMAX_CAR,
{
    if mode == FLAG_BIKE {
        VMAX_BIKE
    } else if mode == FLAG_WALK {
        VMAX_WALK
    } else {
        VMAX_CAR
    }
}

/// Effective speed on an edge: the nominal edge speed capped at the
/// vehicle's maximum.
pub open spec fn spec_eff_speed(speed: u64, vmax: u64) -> u64 {
    if vmax < speed {
        vmax
    } else {
        speed
    }
}

/// Time to traverse an edge, in milliseconds (rounded down): length divided
/// by the capped effective speed.
pub open spec fn spec_time_cost(length: u64, speed: u64, vmax: u64) -> int {
    (length * 1_000_000) as int / spec_eff_speed(speed, vmax) as int
}

/// Cost of an edge under the chosen metric: its length in meters for
/// `Distance`, its capped traversal time in milliseconds for `Time`.
pub open spec fn spec_edge_cost(metric: Metric, length: u64, speed: u64, vmax: u64) -> int {
    match metric {
        Metric::Distance => length as int,
        Metric::Time => spec_time_cost(length, speed, vmax),
    }
}

/// Distance cost of an edge: its length, independent of speeds.
pub fn edge_cost_distance(edge: &Edge, _vmax: u64) -> (c: u64)
    ensures
        c == edge.length,
{
    edge.length
}

/// Time cost of an edge in milliseconds, with the effective speed capped at
/// the vehicle maximum.
pub fn edge_cost_time(edge: &Edge, vmax: u64) -> (c: u64)
    requires
        edge.length <= MAX_EDGE_LENGTH,
        1 <= edge.speed,
        1 <= vmax,
    ensures
        c == spec_time_cost(edge.length, edge.speed, vmax),
{
    let mut speed = edge.speed;
    if vmax < speed {
        speed = vmax;
    }
    (edge.length * 1_000_000) / speed
}

/// Cost of an edge under `metric`, dispatched to the two cost functions.
pub fn edge_cost(metric: Metric, edge: &Edge, vmax: u64) -> (c: u64)
    requires
        edge.length <= MAX_EDGE_LENGTH,
        1 <= edge.speed,
        1 <= vmax,
    ensures
        c == spec_edge_cost(metric, edge.length, edge.speed, vmax),
{
    match metric {
        Metric::Distance => edge_cost_distance(edge, vmax),
        Metric::Time => edge_cost_time(edge, vmax),
    }
}

/// The mode named by a query string; an unrecognized or absent name falls
/// back to car (documented default policy).
pub open spec fn spec_mode_from_name(name: Seq<char>) -> u8 {
    if name == "car"@ {
        FLAG_CAR
    } else if name == "bike"@ {
        FLAG_BIKE
    } else if name == "walk"@ {
        FLAG_WALK
    } else {
        FLAG_CAR
    }
}

pub fn mode_from_name(name: &str) -> (m: u8)
    ensures
        m == spec_mode_from_name(name@),
{
    if str_eq(name, "car") {
        FLAG_CAR
    } else if str_eq(name, "bike") {
        FLAG_BIKE
    } else if str_eq(name, "walk") {
        FLAG_WALK
    } else {
        FLAG_CAR
    }
}

/// The metric named by a query string; an unrecognized or absent name falls
/// back to distance (documented default policy).
pub open spec fn spec_metric_from_name(name: Seq<char>) -> Metric {
    if name == "time"@ {
        Metric::Time
    } else if name == "distance"@ {
        Metric::Distance
    } else {
        Metric::Distance
    }
}

pub fn metric_from_name(name: &str) -> (m: Metric)
    ensures
        m == spec_metric_from_name(name@),
{
    if str_eq(name, "time") {
        Metric::Time
    } else if str_eq(name, "distance") {
        Metric::Distance
    } else {
        Metric::Distance
    }
}

/// Relies on `<str as PartialEq>::eq`: two string slices compare equal
/// exactly when their character sequences are equal.
#[verifier::external_body]
fn str_eq(a: &str, b: &str) -> (r: bool)
    ensures
        r == (a@ == b@),
{
    a == b
}

} // verus!
