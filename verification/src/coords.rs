use vstd::prelude::*;

verus! {

/// Largest legal decimicro latitude: 90 degrees in units of 1e-7 degree.
pub const MAX_DECIMICRO_LAT: i32 = 900_000_000;

/// Largest legal decimicro longitude: 180 degrees in units of 1e-7 degree.
pub const MAX_DECIMICRO_LON: i32 = 1_800_000_000;

/// A fixed-point geographic coordinate in signed units of 1e-7 degree.
#[derive(Debug, Clone, Copy, PartialEq, Eq, Structural)]
pub struct GeoCoord {
    /// south-to-north is -90..90 degrees
    pub decimicro_lat: i32,
    /// west-to-east is -180..180 degrees with 0 at greenwich
    pub decimicro_lon: i32,
}

impl GeoCoord {
    /// Both components lie within the decimicro degree range.
    pub open spec fn valid(self) -> bool {
        &&& -MAX_DECIMICRO_LAT <= self.decimicro_lat <= MAX_DECIMICRO_LAT
        &&& -MAX_DECIMICRO_LON <= self.decimicro_lon <= MAX_DECIMICRO_LON
    }

    /// Whether this coordinate is inside the decimicro range, checked at run time.
    pub fn in_range(&self) -> (r: bool)
        ensures
            r == self.valid(),
    {
        -MAX_DECIMICRO_LAT <= self.decimicro_lat && self.decimicro_lat <= MAX_DECIMICRO_LAT
            && -MAX_DECIMICRO_LON <= self.decimicro_lon && self.decimicro_lon <= MAX_DECIMICRO_LON
    }
}

} // verus!
