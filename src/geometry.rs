use vstd::prelude::*;
use crate::level::{cells_per_degree, cells_per_degree_of, lemma_level_bounds, valid_level, MeshError};
use crate::level::{ORIGIN_MIN_LAT, ORIGIN_MIN_LON};

verus! {

/// A point given exactly: longitude `lon_num / lon_den` and latitude
/// `lat_num / lat_den`, in degrees.
#[derive(Debug, Clone, Copy, PartialEq, Eq, Structural)]
pub struct Vertex {
    pub lon_num: u128,
    pub lon_den: u64,
    pub lat_num: u128,
    pub lat_den: u64,
}

/// Numerator of `122 + i / n` over the denominator `n`: the longitude of the
/// `i`-th vertical grid line.
pub open spec fn lon_line(level: int, i: int) -> int {
    ORIGIN_MIN_LON * cells_per_degree(level) + i
}

/// Numerator of `20 + 2 j / (3 n)` over the denominator `3 n`: the latitude of
/// the `j`-th horizontal grid line.
pub open spec fn lat_line(level: int, j: int) -> int {
    ORIGIN_MIN_LAT * 3 * cells_per_degree(level) + 2 * j
}

/// The grid crossing of vertical line `i` and horizontal line `j`.
pub open spec fn grid_point(level: int, i: int, j: int) -> Vertex {
    Vertex {
        lon_num: lon_line(level, i) as u128,
        lon_den: cells_per_degree(level) as u64,
        lat_num: lat_line(level, j) as u128,
        lat_den: (3 * cells_per_degree(level)) as u64,
    }
}

/// The closed boundary of cell `(x, y)`: lower-left, upper-left, upper-right,
/// lower-right, and lower-left again.
pub open spec fn cell_ring(level: int, x: int, y: int) -> Seq<Vertex> {
    seq![
        grid_point(level, x, y),
        grid_point(level, x, y + 1),
        grid_point(level, x + 1, y + 1),
        grid_point(level, x + 1, y),
        grid_point(level, x, y),
    ]
}

/// The boundary ring of cell `(x, y)` at a level, with exact coordinates; a level
/// outside `1..=9` is refused.
pub fn get_vertexes(level: u8, x: u64, y: u64) -> (r: Result<Vec<Vertex>, MeshError>)
    ensures
        valid_level(level as int) <==> r is Ok,
        !valid_level(level as int) ==> r == Err::<Vec<Vertex>, MeshError>(
            MeshError::UnsupportedLevel(level),
        ),
        r matches Ok(ring) ==> {
            &&& ring@ == cell_ring(level as int, x as int, y as int)
            &&& ring@.len() == 5
            &&& ring@[0] == ring@[4]
            &&& forall|i: int|
                0 <= i < 5 ==> (#[trigger] ring@[i]).lon_den == ring@[0].lon_den && ring@[i].lat_den
                    == ring@[0].lat_den
            &&& ring@[0].lon_den > 0 && ring@[0].lat_den > 0
            &&& ring@[0].lon_num < ring@[2].lon_num
            &&& ring@[0].lat_num < ring@[2].lat_num
        },
{
    let n = match cells_per_degree_of(level) {
        Ok(n) => n,
        Err(e) => {
            return Err(e);
        },
    };
    proof {
        lemma_level_bounds(level as int);
        assert(ORIGIN_MIN_LON * n <= 122 * 8000) by (nonlinear_arith)
            requires
                ORIGIN_MIN_LON == 122,
                n <= 8000,
        ;
        assert(ORIGIN_MIN_LAT * 3 * n <= 60 * 8000) by (nonlinear_arith)
            requires
                ORIGIN_MIN_LAT == 20,
                n <= 8000,
        ;
    }
    let left: u128 = ORIGIN_MIN_LON as u128 * n as u128 + x as u128;
    let right: u128 = left + 1;
    let bottom: u128 = (ORIGIN_MIN_LAT * 3) as u128 * n as u128 + 2 * y as u128;
    let top: u128 = bottom + 2;
    let lower_left = Vertex { lon_num: left, lon_den: n, lat_num: bottom, lat_den: 3 * n };
    let upper_left = Vertex { lon_num: left, lon_den: n, lat_num: top, lat_den: 3 * n };
    let upper_right = Vertex { lon_num: right, lon_den: n, lat_num: top, lat_den: 3 * n };
    let lower_right = Vertex { lon_num: right, lon_den: n, lat_num: bottom, lat_den: 3 * n };
    let ring = vec![lower_left, upper_left, upper_right, lower_right, lower_left];
    assert(ring@ =~= cell_ring(level as int, x as int, y as int));
    Ok(ring)
}

} // verus!
