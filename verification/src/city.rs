//! Cities on a grid of arc minutes.

use vstd::prelude::*;

verus! {

/// A city with its position in degrees and minutes, and on the grid.
#[derive(Debug)]
pub struct City {
    pub name: String,
    /// Longitude: degrees and minutes.
    pub long: (u32, u32),
    /// Latitude: degrees and minutes.
    pub lat: (u32, u32),
    /// Longitude in minutes.
    pub x: u32,
    /// Latitude in minutes.
    pub y: u32,
}

/// An angle of `degrees` and `minutes`, in minutes.
pub open spec fn minutes_of(angle: (u32, u32)) -> int {
    60 * angle.0 + angle.1
}

impl City {
    /// Places the city on the grid: `x` and `y` become the longitude and the
    /// latitude in minutes.
    pub fn calculate_coordinates(self) -> (placed: City)
        requires
            minutes_of(self.long) <= u32::MAX,
            minutes_of(self.lat) <= u32::MAX,
        ensures
            placed.x == minutes_of(self.long),
            placed.y == minutes_of(self.lat),
            placed.name == self.name,
            placed.long == self.long,
            placed.lat == self.lat,
    {
        let mut placed = self;
        placed.x = 60 * placed.long.0 + placed.long.1;
        placed.y = 60 * placed.lat.0 + placed.lat.1;
        placed
    }
}

/// The straight-line metric on the grid.
pub struct Euclidean;

impl Euclidean {
    /// The square of the distance between two cities on the grid.
    pub fn squared_distance(a: &City, b: &City) -> (d: u128)
        ensures
            d == (a.x - b.x) * (a.x - b.x) + (a.y - b.y) * (a.y - b.y),
    {
        let dx: i128 = a.x as i128 - b.x as i128;
        let dy: i128 = a.y as i128 - b.y as i128;
        assert(dx * dx <= 0xffff_ffff * 0xffff_ffff && dx * dx >= 0) by (nonlinear_arith)
            requires
                -0xffff_ffff <= dx <= 0xffff_ffff,
        ;
        assert(dy * dy <= 0xffff_ffff * 0xffff_ffff && dy * dy >= 0) by (nonlinear_arith)
            requires
                -0xffff_ffff <= dy <= 0xffff_ffff,
        ;
        (dx * dx + dy * dy) as u128
    }
}

} // verus!
