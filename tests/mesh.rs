use jis_mesh::code::get_meshcode;
use jis_mesh::decimal::{parse_decimal, Decimal};
use jis_mesh::extent::{get_end_offset, get_start_offset, Extent, Point};
use jis_mesh::geometry::{get_vertexes, Vertex};
use jis_mesh::grid::{feature_count, get_window, GridWindow, MeshCursor};
use jis_mesh::level::{get_mesh_size, mesh_counts, MeshError, MeshSize};

fn dec(text: &str) -> Decimal {
    parse_decimal(text.as_bytes()).expect("valid decimal")
}

fn point(lon: &str, lat: &str) -> Point {
    Point { lon: dec(lon), lat: dec(lat) }
}

fn bbox(lb: (&str, &str), rt: (&str, &str)) -> Extent {
    Extent { leftbottom: point(lb.0, lb.1), righttop: point(rt.0, rt.1) }
}

fn code(level: u8, x: u64, y: u64) -> String {
    get_meshcode(level, x, y).unwrap()
}

fn walk_count(level: u8, extent: Option<Extent>) -> u64 {
    let mut cursor = MeshCursor::new(level, extent).unwrap();
    let mut count: u64 = 0;
    while cursor.next_cell().is_some() {
        count += 1;
    }
    count
}

#[test]
fn first_level_origin_cell() {
    assert_eq!(code(1, 0, 0), "3022");
    let ring = get_vertexes(1, 0, 0).unwrap();
    let lower_left = Vertex { lon_num: 122, lon_den: 1, lat_num: 60, lat_den: 3 };
    let upper_left = Vertex { lon_num: 122, lon_den: 1, lat_num: 62, lat_den: 3 };
    let upper_right = Vertex { lon_num: 123, lon_den: 1, lat_num: 62, lat_den: 3 };
    let lower_right = Vertex { lon_num: 123, lon_den: 1, lat_num: 60, lat_den: 3 };
    assert_eq!(ring, vec![lower_left, upper_left, upper_right, lower_right, lower_left]);
}

#[test]
fn second_level_cell_in_origin_square() {
    assert_eq!(code(2, 3, 5), "302253");
}

#[test]
fn unsupported_levels_are_refused() {
    for level in [0u8, 10, 255] {
        assert_eq!(get_meshcode(level, 0, 0), Err(MeshError::UnsupportedLevel(level)));
        assert_eq!(get_vertexes(level, 0, 0), Err(MeshError::UnsupportedLevel(level)));
        assert_eq!(get_mesh_size(level), Err(MeshError::UnsupportedLevel(level)));
        assert_eq!(mesh_counts(level), Err(MeshError::UnsupportedLevel(level)));
        assert_eq!(feature_count(level, None), Err(MeshError::UnsupportedLevel(level)));
        assert!(MeshCursor::new(level, None).is_err());
        let lb = point("130", "30");
        assert_eq!(get_start_offset(level, lb), Err(MeshError::UnsupportedLevel(level)));
        assert_eq!(get_end_offset(level, lb), Err(MeshError::UnsupportedLevel(level)));
    }
}

#[test]
fn cell_sizes_per_level() {
    let dens = [1u64, 8, 80, 160, 320, 640, 800, 1600, 8000];
    for (i, n) in dens.iter().enumerate() {
        let size = get_mesh_size(i as u8 + 1).unwrap();
        assert_eq!(size, MeshSize { lon_num: 1, lon_den: *n, lat_num: 2, lat_den: 3 * n });
    }
    assert_eq!(get_mesh_size(2).unwrap().lat_den, 24);
    assert_eq!(mesh_counts(1), Ok((32, 39)));
    assert_eq!(mesh_counts(9), Ok((256000, 312000)));
}

#[test]
fn codes_of_every_level() {
    assert_eq!(code(1, 17, 15), "4539");
    assert_eq!(code(2, 111, 123), "453537");
    assert_eq!(code(3, 1115, 1234), "45353745");
    assert_eq!(code(4, 2231, 2469), "453537454");
    assert_eq!(code(5, 4463, 4939), "4535374544");
    assert_eq!(code(6, 8927, 9879), "45353745444");
    assert_eq!(code(7, 11157, 12347), "4535374577");
    assert_eq!(code(8, 22315, 24695), "453537457711");
    assert_eq!(code(9, 111577, 123477), "453515388877");
    assert_eq!(code(1, 31, 38), "6853");
    assert_eq!(code(3, 0, 0), "30220000");
}

#[test]
fn tokyo_station_third_level() {
    assert_eq!(code(3, 1421, 1881), "53394611");
    let offsets = get_start_offset(3, point("139.767", "35.681")).unwrap();
    assert_eq!(offsets, (1421, 1881));
}

#[test]
fn code_length_is_fixed_per_level() {
    let lens = [4usize, 6, 8, 9, 10, 11, 10, 12, 12];
    for level in 1u8..=9 {
        let (xc, yc) = mesh_counts(level).unwrap();
        for (x, y) in [(0, 0), (xc - 1, yc - 1), (xc / 2, yc / 3), (7, yc - 1)] {
            assert_eq!(code(level, x, y).len(), lens[level as usize - 1]);
        }
    }
}

#[test]
fn codes_extend_the_coarser_cell() {
    let (x, y) = (22315u64, 24695u64);
    assert!(code(8, x, y).starts_with(&code(7, x / 2, y / 2)));
    assert!(code(7, x / 2, y / 2).starts_with(&code(3, x / 20, y / 20)));
    assert!(code(6, x / 2, y / 2).starts_with(&code(5, x / 4, y / 4)));
    assert!(code(5, x / 4, y / 4).starts_with(&code(4, x / 8, y / 8)));
    assert!(code(4, x / 8, y / 8).starts_with(&code(3, x / 16, y / 16)));
    assert!(code(3, x / 16, y / 16).starts_with(&code(2, x / 160, y / 160)));
    assert!(code(2, x / 160, y / 160).starts_with(&code(1, x / 1280, y / 1280)));
}

#[test]
fn ninth_level_uses_raw_remainders() {
    // level 9 keeps level 8's first six digits on its own index, then y % 10, x % 10
    assert_eq!(code(9, 0, 0), "302200000000");
    assert_eq!(code(9, 9, 7), "302200003479");
    assert_eq!(code(9, 1599, 1599), "302277999999");
}

#[test]
fn ring_is_closed_and_ordered() {
    for level in 1u8..=9 {
        for (x, y) in [(0u64, 0u64), (5, 9), (1000, 3), (u64::MAX, u64::MAX)] {
            let ring = get_vertexes(level, x, y).unwrap();
            assert_eq!(ring.len(), 5);
            assert_eq!(ring[0], ring[4]);
            assert!(ring[0].lon_num < ring[2].lon_num);
            assert!(ring[0].lat_num < ring[2].lat_num);
            assert_eq!(ring[1].lon_num, ring[0].lon_num);
            assert_eq!(ring[3].lat_num, ring[0].lat_num);
        }
    }
    let ring = get_vertexes(2, 3, 5).unwrap();
    assert_eq!(ring[0], Vertex { lon_num: 979, lon_den: 8, lat_num: 490, lat_den: 24 });
    assert_eq!(ring[2], Vertex { lon_num: 980, lon_den: 8, lat_num: 492, lat_den: 24 });
}

#[test]
fn full_walk_counts_every_cell() {
    assert_eq!(walk_count(1, None), 32 * 39);
    assert_eq!(walk_count(2, None), 256 * 312);
    assert_eq!(feature_count(1, None), Ok(1248));
    assert_eq!(feature_count(9, None), Ok(256000 * 312000));
}

#[test]
fn walk_is_row_major() {
    let e = bbox(("130", "30"), ("132", "32"));
    let mut cursor = MeshCursor::new(1, Some(e)).unwrap();
    assert_eq!(cursor.window(), GridWindow { x_start: 8, x_end: 10, y_start: 15, y_end: 18 });
    let mut cells = Vec::new();
    while let Some(c) = cursor.next_cell() {
        cells.push(c);
    }
    assert_eq!(cells, vec![(8, 15), (9, 15), (8, 16), (9, 16), (8, 17), (9, 17)]);
    assert_eq!(cursor.next_cell(), None);
    assert_eq!(feature_count(1, Some(e)), Ok(6));
}

#[test]
fn shrinking_the_box_never_adds_cells() {
    let outer = bbox(("129.5", "29.1"), ("140.25", "40.7"));
    let inner = bbox(("131", "30"), ("139.9", "39.99"));
    let tiny = bbox(("135", "35"), ("135", "35"));
    let a = feature_count(2, Some(outer)).unwrap();
    let b = feature_count(2, Some(inner)).unwrap();
    let c = feature_count(2, Some(tiny)).unwrap();
    assert!(b <= a);
    assert!(c <= b);
    assert_eq!(walk_count(2, Some(inner)), b);
}

#[test]
fn offsets_on_cell_edges() {
    // a lower-left corner on a grid line starts in the cell above or right of it
    assert_eq!(get_start_offset(1, point("123", "20.7")), Ok((1, 1)));
    assert_eq!(get_start_offset(1, point("122.999", "20.6")), Ok((0, 0)));
    assert_eq!(get_start_offset(1, point("100", "-5")), Ok((0, 0)));
    // an upper-right corner on a grid line leaves the cell beyond it out
    assert_eq!(get_end_offset(1, point("153", "45.3")), Ok((1, 1)));
    assert_eq!(get_end_offset(1, point("153.001", "45.4")), Ok((0, 0)));
    assert_eq!(get_end_offset(1, point("170", "50")), Ok((0, 0)));
}

#[test]
fn box_outside_the_area_gives_no_cells() {
    let west = bbox(("100", "30"), ("110", "35"));
    let w = get_window(1, Some(west)).unwrap();
    assert_eq!(w.x_end, 0);
    assert_eq!(feature_count(1, Some(west)), Ok(0));
    assert_eq!(walk_count(1, Some(west)), 0);
}

#[test]
fn decimals_are_read_exactly() {
    assert_eq!(dec("139.75"), Decimal { mantissa: 13975, scale: 2 });
    assert_eq!(dec("-5"), Decimal { mantissa: -5, scale: 0 });
    assert_eq!(dec("0.000"), Decimal { mantissa: 0, scale: 3 });
    assert_eq!(dec("123456789012345678"), Decimal { mantissa: 123456789012345678, scale: 0 });
    for bad in ["", "-", "1.", ".5", "1.2.3", "abc", "1e5", "+3", "1234567890123456789", "12,5"] {
        assert_eq!(parse_decimal(bad.as_bytes()), None, "{}", bad);
    }
}
