use vstd::prelude::*;
use crate::level::{cells_per_degree, cells_per_degree_of, lemma_level_bounds, valid_level};
use crate::level::{x_mesh_count, y_mesh_count, MeshError, ORIGIN_MIN_LAT, ORIGIN_MIN_LON};
use vstd::arithmetic::div_mod::{lemma_div_denominator, lemma_mod_breakdown};

verus! {

/// The character of a decimal digit.
pub open spec fn digit_char(d: int) -> char {
    if d == 0 {
        '0'
    } else if d == 1 {
        '1'
    } else if d == 2 {
        '2'
    } else if d == 3 {
        '3'
    } else if d == 4 {
        '4'
    } else if d == 5 {
        '5'
    } else if d == 6 {
        '6'
    } else if d == 7 {
        '7'
    } else if d == 8 {
        '8'
    } else {
        '9'
    }
}

/// The usual decimal text of a natural number, without leading zeros.
pub open spec fn decimal(v: nat) -> Seq<char>
    decreases v,
{
    if v < 10 {
        seq![digit_char(v as int)]
    } else {
        decimal(v / 10).push(digit_char((v % 10) as int))
    }
}

/// The quadrant digit of a halving step: 1 south-west, 2 south-east, 3 north-west,
/// 4 north-east.
pub open spec fn quadrant(y_bit: int, x_bit: int) -> int {
    y_bit * 2 + x_bit + 1
}

/// The digits that a level adds after the two-part first-level prefix.
pub open spec fn suffix_digits(level: int, x: int, y: int) -> Seq<int> {
    if level == 2 {
        seq![y % 8, x % 8]
    } else if level == 3 {
        seq![y % 80 / 10, x % 80 / 10, y % 10, x % 10]
    } else if level == 4 {
        seq![y % 160 / 20, x % 160 / 20, y % 20 / 2, x % 20 / 2, quadrant(y % 2, x % 2)]
    } else if level == 5 {
        seq![
            y % 320 / 40,
            x % 320 / 40,
            y % 40 / 4,
            x % 40 / 4,
            quadrant(y % 4 / 2, x % 4 / 2),
            quadrant(y % 2, x % 2),
        ]
    } else if level == 6 {
        seq![
            y % 640 / 80,
            x % 640 / 80,
            y % 80 / 8,
            x % 80 / 8,
            quadrant(y % 8 / 4, x % 8 / 4),
            quadrant(y % 4 / 2, x % 4 / 2),
            quadrant(y % 2, x % 2),
        ]
    } else if level == 7 {
        seq![y % 800 / 100, x % 800 / 100, y % 100 / 10, x % 100 / 10, y % 10, x % 10]
    } else if level == 8 {
        seq![
            y % 1600 / 200,
            x % 1600 / 200,
            y % 200 / 20,
            x % 200 / 20,
            y % 20 / 2,
            x % 20 / 2,
            y % 2,
            x % 2,
        ]
    } else if level == 9 {
        seq![
            y % 1600 / 200,
            x % 1600 / 200,
            y % 200 / 20,
            x % 200 / 20,
            y % 20 / 2,
            x % 20 / 2,
            y % 10,
            x % 10,
        ]
    } else {
        seq![]
    }
}

/// Digits rendered one character each.
pub open spec fn digit_chars(ds: Seq<int>) -> Seq<char> {
    ds.map_values(|d: int| digit_char(d))
}

/// Whole degrees of the cell's western edge: `floor(122 + x / n)`.
pub open spec fn left_lon_floor(level: int, x: int) -> int {
    ORIGIN_MIN_LON + x / cells_per_degree(level)
}

/// `floor(1.5 * bottom_lat)` of the cell: `floor(30 + y / n)`.
pub open spec fn bottom_lat_row(level: int, y: int) -> int {
    ORIGIN_MIN_LAT * 3 / 2 + y / cells_per_degree(level)
}

/// The mesh code of cell `(x, y)` at a level: `floor(1.5 * bottom_lat)`, the
/// decimal text of `floor(left_lon)` without its first digit, then the level's
/// own digits.
pub open spec fn mesh_code(level: int, x: int, y: int) -> Seq<char> {
    decimal(bottom_lat_row(level, y) as nat) + decimal(left_lon_floor(level, x) as nat).drop_first()
        + digit_chars(suffix_digits(level, x, y))
}

/// Text of a single digit.
fn digit_str(d: u64) -> (r: &'static str)
    requires
        d < 10,
    ensures
        r@ == seq![digit_char(d as int)],
{
    if d == 0 {
        proof {
            reveal_strlit("0");
        }
        "0"
    } else if d == 1 {
        proof {
            reveal_strlit("1");
        }
        "1"
    } else if d == 2 {
        proof {
            reveal_strlit("2");
        }
        "2"
    } else if d == 3 {
        proof {
            reveal_strlit("3");
        }
        "3"
    } else if d == 4 {
        proof {
            reveal_strlit("4");
        }
        "4"
    } else if d == 5 {
        proof {
            reveal_strlit("5");
        }
        "5"
    } else if d == 6 {
        proof {
            reveal_strlit("6");
        }
        "6"
    } else if d == 7 {
        proof {
            reveal_strlit("7");
        }
        "7"
    } else if d == 8 {
        proof {
            reveal_strlit("8");
        }
        "8"
    } else {
        proof {
            reveal_strlit("9");
        }
        "9"
    }
}

/// Appends the decimal text of `v`.
fn push_decimal(s: &mut String, v: u128)
    ensures
        final(s)@ == old(s)@ + decimal(v as nat),
    decreases v,
{
    if v >= 10 {
        push_decimal(s, v / 10);
    }
    s.append(digit_str((v % 10) as u64));
    proof {
        if v < 10 {
            assert(v % 10 == v);
        }
        assert(final(s)@ =~= old(s)@ + decimal(v as nat));
    }
}

/// Appends the decimal text of `v` without its first digit.
fn push_decimal_tail(s: &mut String, v: u128)
    ensures
        final(s)@ == old(s)@ + decimal(v as nat).drop_first(),
    decreases v,
{
    if v >= 10 {
        push_decimal_tail(s, v / 10);
        s.append(digit_str((v % 10) as u64));
        proof {
            let h = decimal((v / 10) as nat);
            assert(h.len() > 0) by {
                reveal_with_fuel(decimal, 2);
            }
            assert(decimal(v as nat).drop_first() =~= h.drop_first().push(digit_char(v as int % 10)));
            assert(final(s)@ =~= old(s)@ + decimal(v as nat).drop_first());
        }
    } else {
        assert(decimal(v as nat).drop_first() =~= Seq::<char>::empty());
        assert(final(s)@ =~= old(s)@ + decimal(v as nat).drop_first());
    }
}

/// The digits that a level adds after the prefix, as values.
fn level_digits(level: u8, x: u64, y: u64) -> (r: Vec<u64>)
    requires
        valid_level(level as int),
    ensures
        r@.len() == suffix_digits(level as int, x as int, y as int).len(),
        forall|i: int|
            0 <= i < r@.len() ==> r@[i] as int == suffix_digits(level as int, x as int, y as int)[i],
{
    match level {
        1 => Vec::new(),
        2 => vec![y % 8, x % 8],
        3 => vec![y % 80 / 10, x % 80 / 10, y % 10, x % 10],
        4 => vec![y % 160 / 20, x % 160 / 20, y % 20 / 2, x % 20 / 2, y % 2 * 2 + x % 2 + 1],
        5 => vec![
            y % 320 / 40,
            x % 320 / 40,
            y % 40 / 4,
            x % 40 / 4,
            y % 4 / 2 * 2 + x % 4 / 2 + 1,
            y % 2 * 2 + x % 2 + 1,
        ],
        6 => vec![
            y % 640 / 80,
            x % 640 / 80,
            y % 80 / 8,
            x % 80 / 8,
            y % 8 / 4 * 2 + x % 8 / 4 + 1,
            y % 4 / 2 * 2 + x % 4 / 2 + 1,
            y % 2 * 2 + x % 2 + 1,
        ],
        7 => vec![y % 800 / 100, x % 800 / 100, y % 100 / 10, x % 100 / 10, y % 10, x % 10],
        8 => vec![
            y % 1600 / 200,
            x % 1600 / 200,
            y % 200 / 20,
            x % 200 / 20,
            y % 20 / 2,
            x % 20 / 2,
            y % 2,
            x % 2,
        ],
        _ => vec![
            y % 1600 / 200,
            x % 1600 / 200,
            y % 200 / 20,
            x % 200 / 20,
            y % 20 / 2,
            x % 20 / 2,
            y % 10,
            x % 10,
        ],
    }
}

/// Every digit that a level adds is a single decimal digit.
pub proof fn lemma_suffix_digits_small(level: int, x: int, y: int)
    requires
        valid_level(level),
        x >= 0,
        y >= 0,
    ensures
        forall|i: int|
            0 <= i < suffix_digits(level, x, y).len() ==> 0 <= #[trigger] suffix_digits(
                level,
                x,
                y,
            )[i] < 10,
{
}

/// Appends one character per digit.
fn push_digits(s: &mut String, digits: &Vec<u64>, ds: Ghost<Seq<int>>)
    requires
        digits@.len() == ds@.len(),
        forall|j: int| 0 <= j < digits@.len() ==> digits@[j] as int == ds@[j],
        forall|j: int| 0 <= j < ds@.len() ==> 0 <= #[trigger] ds@[j] < 10,
    ensures
        final(s)@ == old(s)@ + digit_chars(ds@),
{
    let ghost prefix = s@;
    let mut i: usize = 0;
    while i < digits.len()
        invariant
            0 <= i <= digits@.len(),
            digits@.len() == ds@.len(),
            forall|j: int| 0 <= j < digits@.len() ==> digits@[j] as int == ds@[j],
            forall|j: int| 0 <= j < ds@.len() ==> 0 <= #[trigger] ds@[j] < 10,
            s@ == prefix + digit_chars(ds@.take(i as int)),
        decreases digits@.len() - i,
    {
        assert(0 <= ds@[i as int] < 10);
        s.append(digit_str(digits[i]));
        proof {
            assert(ds@.take(i + 1) =~= ds@.take(i as int).push(ds@[i as int]));
            assert(digit_chars(ds@.take(i + 1)) =~= digit_chars(ds@.take(i as int)).push(
                digit_char(ds@[i as int]),
            ));
        }
        i = i + 1;
    }
    proof {
        assert(ds@.take(i as int) =~= ds@);
    }
}

/// The mesh code of cell `(x, y)` at a level; a level outside `1..=9` is refused.
pub fn get_meshcode(level: u8, x: u64, y: u64) -> (r: Result<String, MeshError>)
    ensures
        valid_level(level as int) <==> r is Ok,
        !valid_level(level as int) ==> r == Err::<String, MeshError>(
            MeshError::UnsupportedLevel(level),
        ),
        r matches Ok(code) ==> code@ == mesh_code(level as int, x as int, y as int),
{
    let n = match cells_per_degree_of(level) {
        Ok(n) => n,
        Err(e) => {
            return Err(e);
        },
    };
    let mut code = String::new();
    push_decimal(&mut code, (ORIGIN_MIN_LAT * 3 / 2) as u128 + (y / n) as u128);
    push_decimal_tail(&mut code, ORIGIN_MIN_LON as u128 + (x / n) as u128);
    let digits = level_digits(level, x, y);
    proof {
        lemma_suffix_digits_small(level as int, x as int, y as int);
    }
    push_digits(&mut code, &digits, Ghost(suffix_digits(level as int, x as int, y as int)));
    assert(code@ =~= mesh_code(level as int, x as int, y as int));
    Ok(code)
}

/// Number of digits a level adds after the prefix.
pub open spec fn suffix_len(level: int) -> int {
    if level == 2 {
        2
    } else if level == 3 {
        4
    } else if level == 4 {
        5
    } else if level == 5 {
        6
    } else if level == 6 {
        7
    } else if level == 7 {
        6
    } else if level == 8 || level == 9 {
        8
    } else {
        0
    }
}

proof fn lemma_decimal_two_digits(v: nat)
    requires
        10 <= v < 100,
    ensures
        decimal(v).len() == 2,
{
    reveal_with_fuel(decimal, 2);
}

proof fn lemma_decimal_three_digits(v: nat)
    requires
        100 <= v < 1000,
    ensures
        decimal(v).len() == 3,
{
    reveal_with_fuel(decimal, 3);
    assert(10 <= v / 10 < 100);
}

/// Inside the reference area every code of a level has the same length: four
/// prefix digits and the level's own digits.
pub proof fn lemma_code_length(level: int, x: int, y: int)
    requires
        valid_level(level),
        0 <= x < x_mesh_count(level),
        0 <= y < y_mesh_count(level),
    ensures
        mesh_code(level, x, y).len() == 4 + suffix_len(level),
{
    lemma_level_bounds(level);
    let n = cells_per_degree(level);
    assert(0 <= x / n < 32) by (nonlinear_arith)
        requires
            0 <= x < 32 * n,
            n >= 1,
    ;
    assert(0 <= y / n < 39) by (nonlinear_arith)
        requires
            0 <= y < 39 * n,
            n >= 1,
    ;
    lemma_decimal_two_digits(bottom_lat_row(level, y) as nat);
    lemma_decimal_three_digits(left_lon_floor(level, x) as nat);
}

/// `x % (a b) / b == (x / b) % a`: the digit that a coarser grid sees.
proof fn lemma_digit_shift(x: int, a: int, b: int)
    requires
        0 <= x,
        0 < a,
        0 < b,
    ensures
        x % (a * b) / b == (x / b) % a,
{
    lemma_mod_breakdown(x, b, a);
    let q = (x / b) % a;
    let r = x % b;
    assert(0 <= r < b);
    assert(a * b == b * a) by (nonlinear_arith);
    assert((b * q + r) / b == q) by (nonlinear_arith)
        requires
            0 <= r < b,
    ;
}

/// A digit read from the coarser index `x / f` is a digit of `x` itself.
proof fn lemma_nested_digit(x: int, f: int, a: int, b: int)
    requires
        0 <= x,
        0 < f,
        0 < a,
        0 < b,
    ensures
        (x / f) % (a * b) / b == x % (a * (b * f)) / (b * f),
{
    lemma_digit_shift(x / f, a, b);
    assert(b * f > 0) by (nonlinear_arith)
        requires
            0 < f,
            0 < b,
    ;
    lemma_digit_shift(x, a, b * f);
    lemma_div_denominator(x, f, b);
    assert(f * b == b * f) by (nonlinear_arith);
}

/// How many cells of a level span one cell of the level below it on each axis.
pub open spec fn subdivision(level: int) -> int {
    if level == 2 {
        8
    } else if level == 3 {
        10
    } else {
        2
    }
}

/// The codes form a hierarchy: at levels 2 to 6 and 8, the code of a cell is
/// the code of the cell of the level below that contains it, followed by the
/// level's last digits.
#[verifier::rlimit(40)]
pub proof fn lemma_code_extends_coarser(level: int, x: int, y: int)
    requires
        2 <= level <= 8,
        level != 7,
        0 <= x,
        0 <= y,
    ensures
        cells_per_degree(level) == subdivision(level) * cells_per_degree(level - 1),
        mesh_code(level, x, y) == mesh_code(
            level - 1,
            x / subdivision(level),
            y / subdivision(level),
        ) + digit_chars(suffix_digits(level, x, y).skip(suffix_len(level - 1))),
{
    if level == 2 {
        lemma_suffix_2(x, y);
        lemma_extends_by(2, 1, 8, x, y, suffix_digits(2, x, y).skip(suffix_len(1)));
    } else if level == 3 {
        lemma_suffix_3(x, y);
        lemma_extends_by(3, 2, 10, x, y, suffix_digits(3, x, y).skip(suffix_len(2)));
    } else if level == 4 {
        lemma_suffix_4(x, y);
        lemma_extends_by(4, 3, 2, x, y, suffix_digits(4, x, y).skip(suffix_len(3)));
    } else if level == 5 {
        lemma_suffix_5(x, y);
        lemma_extends_by(5, 4, 2, x, y, suffix_digits(5, x, y).skip(suffix_len(4)));
    } else if level == 6 {
        lemma_suffix_6(x, y);
        lemma_extends_by(6, 5, 2, x, y, suffix_digits(6, x, y).skip(suffix_len(5)));
    } else {
        lemma_suffix_8(x, y);
        lemma_extends_by(8, 7, 2, x, y, suffix_digits(8, x, y).skip(suffix_len(7)));
    }
}

proof fn lemma_suffix_2(x: int, y: int)
    requires
        0 <= x,
        0 <= y,
    ensures
        suffix_digits(2, x, y) == suffix_digits(1, x / 8, y / 8) + suffix_digits(2, x, y).skip(
            suffix_len(1),
        ),
{

    assert(suffix_digits(2, x, y) =~= suffix_digits(1, x / 8, y / 8) + suffix_digits(2, x, y).skip(
        suffix_len(1),
    ));
}

proof fn lemma_suffix_3(x: int, y: int)
    requires
        0 <= x,
        0 <= y,
    ensures
        suffix_digits(3, x, y) == suffix_digits(2, x / 10, y / 10) + suffix_digits(3, x, y).skip(
            suffix_len(2),
        ),
{
    lemma_nested_digit(x, 10, 8, 1);
    lemma_nested_digit(y, 10, 8, 1);
    assert(suffix_digits(3, x, y) =~= suffix_digits(2, x / 10, y / 10) + suffix_digits(3, x, y).skip(
        suffix_len(2),
    ));
}

proof fn lemma_suffix_4(x: int, y: int)
    requires
        0 <= x,
        0 <= y,
    ensures
        suffix_digits(4, x, y) == suffix_digits(3, x / 2, y / 2) + suffix_digits(4, x, y).skip(
            suffix_len(3),
        ),
{
    lemma_nested_digit(x, 2, 8, 10);
    lemma_nested_digit(y, 2, 8, 10);
    lemma_nested_digit(x, 2, 10, 1);
    lemma_nested_digit(y, 2, 10, 1);
    assert(suffix_digits(4, x, y) =~= suffix_digits(3, x / 2, y / 2) + suffix_digits(4, x, y).skip(
        suffix_len(3),
    ));
}

proof fn lemma_suffix_5(x: int, y: int)
    requires
        0 <= x,
        0 <= y,
    ensures
        suffix_digits(5, x, y) == suffix_digits(4, x / 2, y / 2) + suffix_digits(5, x, y).skip(
            suffix_len(4),
        ),
{
    lemma_nested_digit(x, 2, 8, 20);
    lemma_nested_digit(y, 2, 8, 20);
    lemma_nested_digit(x, 2, 10, 2);
    lemma_nested_digit(y, 2, 10, 2);
    lemma_nested_digit(x, 2, 2, 1);
    lemma_nested_digit(y, 2, 2, 1);
    assert(suffix_digits(5, x, y) =~= suffix_digits(4, x / 2, y / 2) + suffix_digits(5, x, y).skip(
        suffix_len(4),
    ));
}

proof fn lemma_suffix_6(x: int, y: int)
    requires
        0 <= x,
        0 <= y,
    ensures
        suffix_digits(6, x, y) == suffix_digits(5, x / 2, y / 2) + suffix_digits(6, x, y).skip(
            suffix_len(5),
        ),
{
    lemma_nested_digit(x, 2, 8, 40);
    lemma_nested_digit(y, 2, 8, 40);
    lemma_nested_digit(x, 2, 10, 4);
    lemma_nested_digit(y, 2, 10, 4);
    lemma_nested_digit(x, 2, 2, 2);
    lemma_nested_digit(y, 2, 2, 2);
    lemma_nested_digit(x, 2, 2, 1);
    lemma_nested_digit(y, 2, 2, 1);
    assert(suffix_digits(6, x, y) =~= suffix_digits(5, x / 2, y / 2) + suffix_digits(6, x, y).skip(
        suffix_len(5),
    ));
}

proof fn lemma_suffix_8(x: int, y: int)
    requires
        0 <= x,
        0 <= y,
    ensures
        suffix_digits(8, x, y) == suffix_digits(7, x / 2, y / 2) + suffix_digits(8, x, y).skip(
            suffix_len(7),
        ),
{
    lemma_nested_digit(x, 2, 8, 100);
    lemma_nested_digit(y, 2, 8, 100);
    lemma_nested_digit(x, 2, 10, 10);
    lemma_nested_digit(y, 2, 10, 10);
    lemma_nested_digit(x, 2, 10, 1);
    lemma_nested_digit(y, 2, 10, 1);
    assert(suffix_digits(8, x, y) =~= suffix_digits(7, x / 2, y / 2) + suffix_digits(8, x, y).skip(
        suffix_len(7),
    ));
}

proof fn lemma_suffix_7(x: int, y: int)
    requires
        0 <= x,
        0 <= y,
    ensures
        suffix_digits(7, x, y) == suffix_digits(3, x / 10, y / 10) + suffix_digits(7, x, y).skip(
            suffix_len(3),
        ),
{
    lemma_nested_digit(x, 10, 8, 10);
    lemma_nested_digit(y, 10, 8, 10);
    lemma_nested_digit(x, 10, 10, 1);
    lemma_nested_digit(y, 10, 10, 1);
    assert(suffix_digits(7, x, y) =~= suffix_digits(3, x / 10, y / 10) + suffix_digits(7, x, y).skip(
        suffix_len(3),
    ));
}

proof fn lemma_extends_by(level: int, coarse: int, f: int, x: int, y: int, rest: Seq<int>)
    requires
        f > 0,
        0 <= x,
        0 <= y,
        cells_per_degree(level) == f * cells_per_degree(coarse),
        cells_per_degree(coarse) > 0,
        suffix_digits(level, x, y) == suffix_digits(coarse, x / f, y / f) + rest,
    ensures
        mesh_code(level, x, y) == mesh_code(coarse, x / f, y / f) + digit_chars(rest),
{
    lemma_div_denominator(x, f, cells_per_degree(coarse));
    lemma_div_denominator(y, f, cells_per_degree(coarse));
    assert(digit_chars(suffix_digits(level, x, y)) =~= digit_chars(
        suffix_digits(coarse, x / f, y / f),
    ) + digit_chars(rest));
    assert(mesh_code(level, x, y) =~= mesh_code(coarse, x / f, y / f) + digit_chars(rest));
}

/// A cell of level 7 lies in one cell of level 3, ten times coarser, and its
/// code extends that cell's code by two digits.
pub proof fn lemma_code_extends_third_level(x: int, y: int)
    requires
        0 <= x,
        0 <= y,
    ensures
        mesh_code(7, x, y) == mesh_code(3, x / 10, y / 10) + digit_chars(seq![y % 10, x % 10]),
{
    lemma_suffix_7(x, y);
    assert(suffix_digits(7, x, y).skip(suffix_len(3)) =~= seq![y % 10, x % 10]);
    lemma_extends_by(7, 3, 10, x, y, seq![y % 10, x % 10]);
}

} // verus!
