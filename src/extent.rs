use vstd::prelude::*;
use crate::decimal::{lemma_pow10_max, lemma_pow10_monotone, lemma_pow10_positive, pow10_exec};
use crate::decimal::Decimal;
use crate::level::{cells_per_degree, cells_per_degree_of, lemma_level_bounds, valid_level, MeshError};
use crate::level::{ORIGIN_MAX_LAT, ORIGIN_MAX_LON, ORIGIN_MIN_LAT, ORIGIN_MIN_LON};

verus! {

/// A geographic point, longitude then latitude, in exact decimal degrees.
#[derive(Debug, Clone, Copy, PartialEq, Eq, Structural)]
pub struct Point {
    pub lon: Decimal,
    pub lat: Decimal,
}

/// A requested bounding box: its lower-left and upper-right corners.
#[derive(Debug, Clone, Copy, PartialEq, Eq, Structural)]
pub struct Extent {
    pub leftbottom: Point,
    pub righttop: Point,
}

impl Point {
    pub open spec fn wf(self) -> bool {
        self.lon.wf() && self.lat.wf()
    }
}

impl Extent {
    pub open spec fn wf(self) -> bool {
        self.leftbottom.wf() && self.righttop.wf()
    }
}

/// `max(0, floor(num / den))`, for `den > 0`: how many whole steps fit.
pub open spec fn whole_cells(num: int, den: int) -> int {
    if num <= 0 {
        0
    } else {
        num / den
    }
}

/// Whole cells between the western edge and `lon`: `max(0, floor((lon - 122) n))`.
pub open spec fn start_offset_lon(level: int, lon: Decimal) -> int {
    whole_cells(
        (lon.mantissa - ORIGIN_MIN_LON * lon.den()) * cells_per_degree(level),
        lon.den(),
    )
}

/// Whole cells between the southern edge and `lat`:
/// `max(0, floor((lat - 20) 3 n / 2))`.
pub open spec fn start_offset_lat(level: int, lat: Decimal) -> int {
    whole_cells(
        (lat.mantissa - ORIGIN_MIN_LAT * lat.den()) * (3 * cells_per_degree(level)),
        2 * lat.den(),
    )
}

/// Whole cells between `lon` and the eastern edge: `max(0, floor((154 - lon) n))`.
pub open spec fn end_offset_lon(level: int, lon: Decimal) -> int {
    whole_cells(
        (ORIGIN_MAX_LON * lon.den() - lon.mantissa) * cells_per_degree(level),
        lon.den(),
    )
}

/// Whole cells between `lat` and the northern edge:
/// `max(0, floor((46 - lat) 3 n / 2))`.
pub open spec fn end_offset_lat(level: int, lat: Decimal) -> int {
    whole_cells(
        (ORIGIN_MAX_LAT * lat.den() - lat.mantissa) * (3 * cells_per_degree(level)),
        2 * lat.den(),
    )
}

proof fn lemma_whole_cells_bounds(num: int, den: int)
    requires
        den > 0,
    ensures
        whole_cells(num, den) >= 0,
        num > 0 ==> whole_cells(num, den) <= num,
{
    if num > 0 {
        assert(num / den <= num) by (nonlinear_arith)
            requires
                num > 0,
                den > 0,
        ;
        assert(num / den >= 0) by (nonlinear_arith)
            requires
                num > 0,
                den > 0,
        ;
    }
}

/// `whole_cells(num, den)` is where a count that starts at 0 and steps while
/// `(count + 1) den <= num` stops: a point exactly on a grid line counts the cell
/// that the line begins.
pub proof fn lemma_whole_cells_is_last_step(num: int, den: int)
    requires
        den > 0,
    ensures
        whole_cells(num, den) >= 0,
        forall|k: int| 1 <= k <= whole_cells(num, den) ==> #[trigger] (k * den) <= num,
        num < (whole_cells(num, den) + 1) * den,
{
    let c = whole_cells(num, den);
    lemma_whole_cells_bounds(num, den);
    if num > 0 {
        assert(c * den <= num < (c + 1) * den) by (nonlinear_arith)
            requires
                den > 0,
                c == num / den,
        ;
        assert forall|k: int| 1 <= k <= c implies #[trigger] (k * den) <= num by {
            assert(k * den <= c * den) by (nonlinear_arith)
                requires
                    k <= c,
                    den > 0,
            ;
        }
    } else {
        assert(c == 0);
        assert((c + 1) * den == den) by (nonlinear_arith)
            requires
                c == 0,
        ;
    }
}

/// `whole_cells` grows with the fraction it is taken of.
pub proof fn lemma_whole_cells_monotone(a: int, b: int, c: int, d: int)
    requires
        b > 0,
        d > 0,
        a * d <= c * b,
    ensures
        whole_cells(a, b) <= whole_cells(c, d),
{
    if a > 0 {
        assert(c > 0) by (nonlinear_arith)
            requires
                a > 0,
                b > 0,
                d > 0,
                a * d <= c * b,
        ;
        let f = a / b;
        assert(f * b <= a) by (nonlinear_arith)
            requires
                b > 0,
                f == a / b,
        ;
        assert(f * d <= c) by (nonlinear_arith)
            requires
                b > 0,
                d > 0,
                f * b <= a,
                a * d <= c * b,
        ;
        assert(f <= c / d) by (nonlinear_arith)
            requires
                d > 0,
                f * d <= c,
        ;
    }
}

/// `max(0, floor(num / den))` on machine integers.
fn whole_cells_exec(num: i128, den: i128) -> (r: u128)
    requires
        den > 0,
    ensures
        r == whole_cells(num as int, den as int),
{
    proof {
        lemma_whole_cells_bounds(num as int, den as int);
    }
    if num <= 0 {
        0
    } else {
        (num / den) as u128
    }
}

proof fn lemma_scaled_bounds(d: Decimal, c: int, k: int)
    requires
        d.wf(),
        0 <= c <= 154,
        1 <= k <= 24000,
    ensures
        1 <= d.den() <= 1_000_000_000_000_000_000,
        -1_000_000_000_000_000_000_000_000_000 < (d.mantissa - c * d.den()) * k,
        (d.mantissa - c * d.den()) * k < 1_000_000_000_000_000_000_000_000_000,
        -1_000_000_000_000_000_000_000_000_000 < (c * d.den() - d.mantissa) * k,
        (c * d.den() - d.mantissa) * k < 1_000_000_000_000_000_000_000_000_000,
{
    lemma_pow10_positive(d.scale as nat);
    lemma_pow10_monotone(d.scale as nat, 18);
    lemma_pow10_max();
    let m = d.mantissa as int;
    let den = d.den();
    assert(-(1_000_000_000_000_000_000 as int) < m < 1_000_000_000_000_000_000);
    assert(-1_000_000_000_000_000_000_000_000_000 < (m - c * den) * k
        < 1_000_000_000_000_000_000_000_000_000) by (nonlinear_arith)
        requires
            -(1_000_000_000_000_000_000 as int) < m < 1_000_000_000_000_000_000,
            1 <= den <= 1_000_000_000_000_000_000,
            0 <= c <= 154,
            1 <= k <= 24000,
    ;
    assert((c * den - m) * k == -((m - c * den) * k)) by (nonlinear_arith);
}

/// Whole cells from the western and southern edges of the reference area to a
/// point; a level outside `1..=9` is refused.
pub fn get_start_offset(level: u8, leftbottom: Point) -> (r: Result<(u128, u128), MeshError>)
    requires
        leftbottom.wf(),
    ensures
        valid_level(level as int) <==> r is Ok,
        !valid_level(level as int) ==> r == Err::<(u128, u128), MeshError>(
            MeshError::UnsupportedLevel(level),
        ),
        r matches Ok(off) ==> off.0 == start_offset_lon(level as int, leftbottom.lon) && off.1
            == start_offset_lat(level as int, leftbottom.lat),
{
    let n = match cells_per_degree_of(level) {
        Ok(n) => n,
        Err(e) => {
            return Err(e);
        },
    };
    proof {
        lemma_level_bounds(level as int);
        lemma_scaled_bounds(leftbottom.lon, 122, n as int);
        lemma_scaled_bounds(leftbottom.lat, 20, 3 * n);
    }
    let lon_den = pow10_exec(leftbottom.lon.scale) as i128;
    let lat_den = pow10_exec(leftbottom.lat.scale) as i128;
    let lon_num = (leftbottom.lon.mantissa as i128 - ORIGIN_MIN_LON as i128 * lon_den) * n as i128;
    let lat_num = (leftbottom.lat.mantissa as i128 - ORIGIN_MIN_LAT as i128 * lat_den) * (3 * n as i128);
    Ok((whole_cells_exec(lon_num, lon_den), whole_cells_exec(lat_num, 2 * lat_den)))
}

/// Whole cells from a point to the eastern and northern edges of the reference
/// area; a level outside `1..=9` is refused.
pub fn get_end_offset(level: u8, righttop: Point) -> (r: Result<(u128, u128), MeshError>)
    requires
        righttop.wf(),
    ensures
        valid_level(level as int) <==> r is Ok,
        !valid_level(level as int) ==> r == Err::<(u128, u128), MeshError>(
            MeshError::UnsupportedLevel(level),
        ),
        r matches Ok(off) ==> off.0 == end_offset_lon(level as int, righttop.lon) && off.1
            == end_offset_lat(level as int, righttop.lat),
{
    let n = match cells_per_degree_of(level) {
        Ok(n) => n,
        Err(e) => {
            return Err(e);
        },
    };
    proof {
        lemma_level_bounds(level as int);
        lemma_scaled_bounds(righttop.lon, 154, n as int);
        lemma_scaled_bounds(righttop.lat, 46, 3 * n);
    }
    let lon_den = pow10_exec(righttop.lon.scale) as i128;
    let lat_den = pow10_exec(righttop.lat.scale) as i128;
    let lon_num = (ORIGIN_MAX_LON as i128 * lon_den - righttop.lon.mantissa as i128) * n as i128;
    let lat_num = (ORIGIN_MAX_LAT as i128 * lat_den - righttop.lat.mantissa as i128) * (3 * n as i128);
    Ok((whole_cells_exec(lon_num, lon_den), whole_cells_exec(lat_num, 2 * lat_den)))
}

} // verus!
