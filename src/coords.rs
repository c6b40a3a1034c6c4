use vstd::prelude::*;

verus! {

/// Number of coordinate units in one degree: positions are held as
/// fixed-point integers with seven decimal places of a degree.
pub const UNITS_PER_DEGREE: i64 = 10_000_000;

/// A WGS84 position, latitude and longitude in units of 1e-7 degree.
#[derive(Clone, Copy, PartialEq, Eq, Structural, Debug)]
pub struct Coords {
    pub lat: i64,
    pub lon: i64,
}

impl Coords {
    /// A position from latitude and longitude given in 1e-7 degree.
    pub fn deg(lat: i64, lon: i64) -> (r: Self)
        ensures
            r.lat == lat,
            r.lon == lon,
    {
        Coords { lat, lon }
    }

    pub fn set_lat_deg(&mut self, lat: i64)
        ensures
            final(self).lat == lat,
            final(self).lon == old(self).lon,
    {
        self.lat = lat;
    }

    pub fn set_lon_deg(&mut self, lon: i64)
        ensures
            final(self).lon == lon,
            final(self).lat == old(self).lat,
    {
        self.lon = lon;
    }

    /// The origin: latitude 0, longitude 0.
    pub fn default() -> (r: Self)
        ensures
            r.lat == 0,
            r.lon == 0,
    {
        Coords { lat: 0, lon: 0 }
    }
}

/// A distance function that the searches can use: it accepts every pair of
/// positions and always gives the same value for the same pair.
pub open spec fn is_metric<F: Fn(Coords, Coords) -> u64>(f: &F) -> bool {
    &&& forall|a: Coords, b: Coords| #[trigger] f.requires((a, b))
    &&& forall|a: Coords, b: Coords, x: u64, y: u64|
        #![trigger f.ensures((a, b), x), f.ensures((a, b), y)]
        f.ensures((a, b), x) && f.ensures((a, b), y) ==> x == y
}

/// The value that the distance function `f` gives for `a` and `b`.
pub open spec fn dist_of<F: Fn(Coords, Coords) -> u64>(f: &F, a: Coords, b: Coords) -> u64 {
    choose|d: u64| f.ensures((a, b), d)
}

pub proof fn lemma_dist_of<F: Fn(Coords, Coords) -> u64>(f: &F, a: Coords, b: Coords, d: u64)
    requires
        is_metric(f),
        f.ensures((a, b), d),
    ensures
        dist_of(f, a, b) == d,
{
    let e = dist_of(f, a, b);
    assert(f.ensures((a, b), e));
}

} // verus!
