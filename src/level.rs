use vstd::prelude::*;

verus! {

/// Western edge of the reference area, in degrees.
pub const ORIGIN_MIN_LON: u64 = 122;

/// Eastern edge of the reference area, in degrees.
pub const ORIGIN_MAX_LON: u64 = 154;

/// Southern edge of the reference area, in degrees.
pub const ORIGIN_MIN_LAT: u64 = 20;

/// Northern edge of the reference area, in degrees.
pub const ORIGIN_MAX_LAT: u64 = 46;

/// Why a mesh level was refused.
#[derive(Debug, Clone, Copy, PartialEq, Eq, Structural)]
pub enum MeshError {
    /// The level is outside `1..=9`.
    UnsupportedLevel(u8),
}

/// The levels with a cell size: `1..=9`.
pub open spec fn valid_level(level: int) -> bool {
    1 <= level <= 9
}

/// Cells per degree of longitude at each level (the longitude size is `1 / n`).
pub open spec fn cells_per_degree(level: int) -> int {
    if level == 1 {
        1
    } else if level == 2 {
        8
    } else if level == 3 {
        80
    } else if level == 4 {
        160
    } else if level == 5 {
        320
    } else if level == 6 {
        640
    } else if level == 7 {
        800
    } else if level == 8 {
        1600
    } else if level == 9 {
        8000
    } else {
        0
    }
}

/// Number of columns of the reference area: `(154 - 122) / (1 / n)`.
pub open spec fn x_mesh_count(level: int) -> int {
    (ORIGIN_MAX_LON - ORIGIN_MIN_LON) * cells_per_degree(level)
}

/// Number of rows of the reference area: `(46 - 20) / (2 / (3 n))`.
pub open spec fn y_mesh_count(level: int) -> int {
    (ORIGIN_MAX_LAT - ORIGIN_MIN_LAT) * 3 * cells_per_degree(level) / 2
}

/// The cell counts of a valid level: `32 n` columns by `39 n` rows.
pub proof fn lemma_level_bounds(level: int)
    requires
        valid_level(level),
    ensures
        1 <= cells_per_degree(level) <= 8000,
        x_mesh_count(level) == 32 * cells_per_degree(level),
        y_mesh_count(level) == 39 * cells_per_degree(level),
{
    let n = cells_per_degree(level);
    assert((26 * 3 * n) / 2 == 39 * n) by (nonlinear_arith);
}

/// Size of one cell as two exact fractions of a degree:
/// `lon_num / lon_den` degrees of longitude, `lat_num / lat_den` of latitude.
#[derive(Debug, Clone, Copy, PartialEq, Eq, Structural)]
pub struct MeshSize {
    pub lon_num: u64,
    pub lon_den: u64,
    pub lat_num: u64,
    pub lat_den: u64,
}

/// Cells per degree of longitude at a level, or an error for a level outside `1..=9`.
pub fn cells_per_degree_of(level: u8) -> (r: Result<u64, MeshError>)
    ensures
        valid_level(level as int) ==> r == Ok::<u64, MeshError>(
            cells_per_degree(level as int) as u64,
        ),
        !valid_level(level as int) ==> r == Err::<u64, MeshError>(
            MeshError::UnsupportedLevel(level),
        ),
{
    match level {
        1 => Ok(1),
        2 => Ok(8),
        3 => Ok(80),
        4 => Ok(160),
        5 => Ok(320),
        6 => Ok(640),
        7 => Ok(800),
        8 => Ok(1600),
        9 => Ok(8000),
        _ => Err(MeshError::UnsupportedLevel(level)),
    }
}

/// The cell size of a level: `1 / n` degrees of longitude by `2 / (3 n)` degrees
/// of latitude; a level outside `1..=9` is refused.
pub fn get_mesh_size(level: u8) -> (r: Result<MeshSize, MeshError>)
    ensures
        valid_level(level as int) <==> r is Ok,
        !valid_level(level as int) ==> r == Err::<MeshSize, MeshError>(
            MeshError::UnsupportedLevel(level),
        ),
        r matches Ok(s) ==> s == (MeshSize {
            lon_num: 1,
            lon_den: cells_per_degree(level as int) as u64,
            lat_num: 2,
            lat_den: (3 * cells_per_degree(level as int)) as u64,
        }),
{
    match cells_per_degree_of(level) {
        Ok(n) => Ok(MeshSize { lon_num: 1, lon_den: n, lat_num: 2, lat_den: 3 * n }),
        Err(e) => Err(e),
    }
}

/// The number of columns and rows of the whole reference area at a level.
pub fn mesh_counts(level: u8) -> (r: Result<(u64, u64), MeshError>)
    ensures
        valid_level(level as int) <==> r is Ok,
        !valid_level(level as int) ==> r == Err::<(u64, u64), MeshError>(
            MeshError::UnsupportedLevel(level),
        ),
        r matches Ok(c) ==> c.0 == x_mesh_count(level as int) && c.1 == y_mesh_count(
            level as int,
        ),
{
    match cells_per_degree_of(level) {
        Ok(n) => {
            proof {
                lemma_level_bounds(level as int);
            }
            Ok((32 * n, 39 * n))
        },
        Err(e) => Err(e),
    }
}

} // verus!
