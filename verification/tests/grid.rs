use country_boundaries::{
    Cell, CellBounds, CellPosition, CountryBoundaries, GeometrySizes, Multipolygon, Point,
};
use std::collections::HashSet;

fn cell(containing_ids: &[&str]) -> Cell {
    Cell {
        containing_ids: containing_ids.iter().map(|&s| String::from(s)).collect(),
        intersecting_areas: vec![],
    }
}

fn grid(raster: Vec<Cell>, raster_width: usize, entries: &[(&str, f64)]) -> CountryBoundaries {
    let mut sizes = GeometrySizes::new();
    for (id, size) in entries {
        sizes.insert(String::from(*id), size.to_bits());
    }
    CountryBoundaries::new(raster, raster_width, sizes)
}

fn normalize(value: f64, start_at: f64, base: f64) -> f64 {
    let mut value = value % base;
    if value < start_at {
        value += base;
    } else if value >= start_at + base {
        value -= base;
    }
    value
}

fn cell_x(boundaries: &CountryBoundaries, longitude: f64) -> usize {
    let width = boundaries.raster_width() as f64;
    boundaries.longitude_to_cell_x((width * (180.0 + longitude) / 360.0).floor() as usize)
}

fn cell_y(boundaries: &CountryBoundaries, latitude: f64) -> usize {
    let height = boundaries.raster_height() as f64;
    boundaries.latitude_to_cell_y((height * (90.0 - latitude) / 180.0).ceil() as usize)
}

fn latlon(boundaries: &CountryBoundaries, latitude: f64, longitude: f64) -> CellPosition {
    assert!((-90.0..=90.0).contains(&latitude) && longitude.is_finite());
    let width = boundaries.raster_width() as f64;
    let height = boundaries.raster_height() as f64;
    let longitude = normalize(longitude, -180.0, 360.0);
    let cell_x = cell_x(boundaries, longitude);
    let cell_y = cell_y(boundaries, latitude);
    let cell_longitude = -180.0 + 360.0 * cell_x as f64 / width;
    let cell_latitude = 90.0 - 180.0 * (cell_y as f64 + 1.0) / height;
    CellPosition {
        cell_x,
        cell_y,
        point: Point {
            x: ((longitude - cell_longitude) * 360.0 * 0xffff as f64 / width) as u16,
            y: ((latitude - cell_latitude) * 180.0 * 0xffff as f64 / height) as u16,
        },
    }
}

fn bbox(
    boundaries: &CountryBoundaries,
    min_latitude: f64,
    min_longitude: f64,
    max_latitude: f64,
    max_longitude: f64,
) -> CellBounds {
    assert!(min_latitude <= max_latitude);
    CellBounds {
        min_x: cell_x(boundaries, normalize(min_longitude, -180.0, 360.0)),
        max_y: cell_y(boundaries, min_latitude),
        max_x: cell_x(boundaries, normalize(max_longitude, -180.0, 360.0)),
        min_y: cell_y(boundaries, max_latitude),
    }
}

fn set<'a>(ids: Vec<&'a str>) -> HashSet<&'a str> {
    let count = ids.len();
    let set: HashSet<&str> = ids.into_iter().collect();
    // each id comes once
    assert_eq!(count, set.len());
    set
}

#[test]
fn delegates_to_correct_cell_at_edges() {
    // the world:
    // ┌─┬─┐
    // │A│B│
    // ├─┼─┤
    // │C│D│
    // └─┴─┘
    let boundaries = grid(vec![cell(&["A"]), cell(&["B"]), cell(&["C"]), cell(&["D"])], 2, &[]);
    let b = &boundaries;

    assert_eq!(vec!["C"], b.ids(latlon(b, -90.0, -180.0)));
    assert_eq!(vec!["C"], b.ids(latlon(b, -90.0, -90.0)));
    assert_eq!(vec!["C"], b.ids(latlon(b, -45.0, -180.0)));
    // wrap around
    assert_eq!(vec!["C"], b.ids(latlon(b, -45.0, 180.0)));
    assert_eq!(vec!["C"], b.ids(latlon(b, -90.0, 180.0)));

    assert_eq!(vec!["A"], b.ids(latlon(b, 0.0, -180.0)));
    assert_eq!(vec!["A"], b.ids(latlon(b, 45.0, -180.0)));
    assert_eq!(vec!["A"], b.ids(latlon(b, 0.0, -90.0)));
    // wrap around
    assert_eq!(vec!["A"], b.ids(latlon(b, 0.0, 180.0)));
    assert_eq!(vec!["A"], b.ids(latlon(b, 45.0, 180.0)));

    assert_eq!(vec!["B"], b.ids(latlon(b, 0.0, 0.0)));
    assert_eq!(vec!["B"], b.ids(latlon(b, 45.0, 0.0)));
    assert_eq!(vec!["B"], b.ids(latlon(b, 0.0, 90.0)));

    assert_eq!(vec!["D"], b.ids(latlon(b, -45.0, 0.0)));
    assert_eq!(vec!["D"], b.ids(latlon(b, -90.0, 0.0)));
    assert_eq!(vec!["D"], b.ids(latlon(b, -90.0, 90.0)));
}

#[test]
fn no_array_index_out_of_bounds_at_world_edges() {
    let boundaries = grid(vec![cell(&["A"])], 1, &[]);
    let b = &boundaries;

    b.ids(latlon(b, -90.0, -180.0));
    b.ids(latlon(b, 90.0, 180.0));
    b.ids(latlon(b, 90.0, -180.0));
    b.ids(latlon(b, -90.0, 180.0));
}

#[test]
fn get_containing_ids_sorted_by_size_ascending() {
    let boundaries = grid(
        vec![cell(&["D", "B", "C", "A"])],
        1,
        &[("A", 10.0), ("B", 15.0), ("C", 100.0), ("D", 800.0)],
    );
    assert_eq!(vec!["A", "B", "C", "D"], boundaries.ids(latlon(&boundaries, 1.0, 1.0)));
}

#[test]
fn get_intersecting_ids_in_bbox_is_merged_correctly() {
    let boundaries =
        grid(vec![cell(&["A"]), cell(&["B"]), cell(&["C"]), cell(&["D", "E"])], 2, &[]);
    assert_eq!(
        HashSet::from(["A", "B", "C", "D", "E"]),
        set(boundaries.intersecting_ids(bbox(&boundaries, -10.0, -10.0, 10.0, 10.0)))
    )
}

#[test]
fn get_intersecting_ids_in_bbox_wraps_longitude_correctly() {
    let boundaries = grid(vec![cell(&["A"]), cell(&["B"]), cell(&["C"])], 3, &[]);
    assert_eq!(
        HashSet::from(["A", "C"]),
        set(boundaries.intersecting_ids(bbox(&boundaries, 0.0, 170.0, 1.0, -170.0)))
    )
}

#[test]
fn get_containing_ids_in_bbox_wraps_longitude_correctly() {
    let boundaries =
        grid(vec![cell(&["A", "B", "C"]), cell(&["X"]), cell(&["A", "B"])], 3, &[]);
    assert_eq!(
        HashSet::from(["A", "B"]),
        set(boundaries.containing_ids(bbox(&boundaries, 0.0, 170.0, 1.0, -170.0)))
    )
}

#[test]
fn get_containing_ids_in_bbox_returns_correct_result_when_one_cell_is_empty() {
    let boundaries = grid(vec![cell(&[]), cell(&["A"]), cell(&["A"]), cell(&["A"])], 2, &[]);
    assert!(boundaries
        .containing_ids(bbox(&boundaries, -10.0, -10.0, 10.0, 10.0))
        .is_empty())
}

#[test]
fn get_containing_ids_in_bbox_is_merged_correctly() {
    let boundaries = grid(
        vec![cell(&["A", "B"]), cell(&["B", "A"]), cell(&["C", "B", "A"]), cell(&["D", "A"])],
        2,
        &[],
    );
    assert_eq!(
        HashSet::from(["A"]),
        set(boundaries.containing_ids(bbox(&boundaries, -10.0, -10.0, 10.0, 10.0)))
    )
}

#[test]
fn get_containing_ids_in_bbox_is_merged_correctly_an_nothing_is_left() {
    let boundaries = grid(vec![cell(&["A"]), cell(&["B"]), cell(&["C"]), cell(&["D"])], 2, &[]);

    assert!(boundaries
        .containing_ids(bbox(&boundaries, -10.0, -10.0, 10.0, 10.0))
        .is_empty())
}

#[test]
fn two_by_two_raster_resolves_positions_to_its_cells() {
    let boundaries = grid(vec![cell(&["A"]), cell(&["B"]), cell(&["C"]), cell(&["D"])], 2, &[]);
    assert_eq!(vec!["A"], boundaries.ids(latlon(&boundaries, 45.0, -180.0)));
    assert_eq!(vec!["D"], boundaries.ids(latlon(&boundaries, -45.0, 0.0)));
    assert_eq!(
        CellPosition { cell_x: 0, cell_y: 0, point: Point { x: 0, y: 65535 } },
        latlon(&boundaries, 45.0, -180.0)
    );
}

#[test]
fn columns_and_rows_are_clamped_to_the_raster() {
    let boundaries = grid(vec![cell(&[]); 12], 4, &[]);
    assert_eq!(3, boundaries.raster_height());
    assert_eq!(4, boundaries.raster_width());
    assert_eq!(12, boundaries.raster().len());
    assert_eq!(0, boundaries.longitude_to_cell_x(0));
    assert_eq!(2, boundaries.longitude_to_cell_x(2));
    assert_eq!(3, boundaries.longitude_to_cell_x(3));
    assert_eq!(3, boundaries.longitude_to_cell_x(4));
    assert_eq!(3, boundaries.longitude_to_cell_x(usize::MAX));
    assert_eq!(0, boundaries.latitude_to_cell_y(0));
    assert_eq!(0, boundaries.latitude_to_cell_y(1));
    assert_eq!(1, boundaries.latitude_to_cell_y(2));
    assert_eq!(2, boundaries.latitude_to_cell_y(3));
    // a raster without columns has no last column
    assert_eq!(0, grid(vec![], 0, &[]).longitude_to_cell_x(7));
}

#[test]
fn longitudes_of_both_edges_resolve_to_the_same_cell_of_a_single_column() {
    let boundaries = grid(vec![cell(&["N"]), cell(&["S"])], 1, &[]);
    for latitude in [90.0, 45.0, 0.0, -45.0, -90.0] {
        let east = latlon(&boundaries, latitude, 180.0);
        let west = latlon(&boundaries, latitude, -180.0);
        assert_eq!((east.cell_x, east.cell_y), (west.cell_x, west.cell_y));
        assert_eq!(boundaries.ids(east), boundaries.ids(west));
    }
}

#[test]
fn every_position_has_a_cell() {
    for (width, height) in [(1, 1), (2, 2), (3, 5), (360, 180), (7, 1)] {
        let boundaries = grid(vec![cell(&[]); width * height], width, &[]);
        for latitude in [90.0, 89.999999, 1e-300, 0.0, -1e-300, -89.999999, -90.0] {
            for longitude in [-180.0, -179.999999, 0.0, 179.999999, 180.0, 540.0, -1e9, 1e9] {
                let position = latlon(&boundaries, latitude, longitude);
                assert!(position.cell_x < width);
                assert!(position.cell_y < height);
                assert!(boundaries.ids(position).is_empty());
            }
        }
    }
}

#[test]
fn cell_is_found_by_column_and_row() {
    let boundaries = grid(
        vec![
            cell(&["00"]), cell(&["10"]), cell(&["20"]),
            cell(&["01"]), cell(&["11"]), cell(&["21"]),
        ],
        3,
        &[],
    );
    assert_eq!(&cell(&["00"]), boundaries.cell(0, 0));
    assert_eq!(&cell(&["20"]), boundaries.cell(2, 0));
    assert_eq!(&cell(&["01"]), boundaries.cell(0, 1));
    assert_eq!(&cell(&["21"]), boundaries.cell(2, 1));
}

fn all_cells(boundaries: &CountryBoundaries, bounds: CellBounds) -> Vec<String> {
    let mut cells = boundaries.cells(&bounds);
    let mut found = vec![];
    while let Some(cell) = cells.next() {
        found.push(cell.containing_ids[0].clone());
    }
    // the cursor stays behind the last cell
    assert!(cells.next().is_none());
    assert!(cells.next().is_none());
    found
}

#[test]
fn cells_come_column_by_column_and_wrap_around() {
    let boundaries = grid(
        vec![
            cell(&["00"]), cell(&["10"]), cell(&["20"]), cell(&["30"]),
            cell(&["01"]), cell(&["11"]), cell(&["21"]), cell(&["31"]),
            cell(&["02"]), cell(&["12"]), cell(&["22"]), cell(&["32"]),
        ],
        4,
        &[],
    );
    assert_eq!(
        vec!["11"],
        all_cells(&boundaries, CellBounds { min_x: 1, min_y: 1, max_x: 1, max_y: 1 })
    );
    assert_eq!(
        vec!["10", "11", "12", "20", "21", "22"],
        all_cells(&boundaries, CellBounds { min_x: 1, min_y: 0, max_x: 2, max_y: 2 })
    );
    assert_eq!(
        vec!["31", "32", "01", "02", "11", "12"],
        all_cells(&boundaries, CellBounds { min_x: 3, min_y: 1, max_x: 1, max_y: 2 })
    );
    assert_eq!(
        vec!["20", "30", "00", "10"],
        all_cells(&boundaries, CellBounds { min_x: 2, min_y: 0, max_x: 1, max_y: 0 })
    );
    assert_eq!(
        vec!["00", "01", "02", "10", "11", "12", "20", "21", "22", "30", "31", "32"],
        all_cells(&boundaries, CellBounds { min_x: 0, min_y: 0, max_x: 3, max_y: 2 })
    );
}

#[test]
fn wrapping_box_skips_the_middle_column() {
    let boundaries = grid(vec![cell(&["A"]), cell(&["B"]), cell(&["C"])], 3, &[]);
    let bounds = bbox(&boundaries, 0.0, 170.0, 1.0, -170.0);
    assert_eq!(CellBounds { min_x: 2, min_y: 0, max_x: 0, max_y: 0 }, bounds);
    assert_eq!(vec!["C", "A"], all_cells(&boundaries, bounds));
}

fn square(id: &str) -> (String, Multipolygon) {
    (
        String::from(id),
        Multipolygon {
            outer: vec![vec![
                Point { x: 0, y: 0 },
                Point { x: 0, y: 100 },
                Point { x: 100, y: 100 },
                Point { x: 100, y: 0 },
            ]],
            inner: vec![],
        },
    )
}

#[test]
fn is_in_and_is_in_any_look_at_the_cell_of_the_position() {
    let boundaries = grid(
        vec![Cell::new(vec![String::from("A")], vec![square("P")]), cell(&["B"])],
        2,
        &[],
    );
    let inside = CellPosition { cell_x: 0, cell_y: 0, point: Point { x: 50, y: 50 } };
    let outside = CellPosition { cell_x: 0, cell_y: 0, point: Point { x: 500, y: 50 } };
    let east = CellPosition { cell_x: 1, cell_y: 0, point: Point { x: 50, y: 50 } };
    assert!(boundaries.is_in(inside, "A"));
    assert!(boundaries.is_in(inside, "P"));
    assert!(!boundaries.is_in(inside, "B"));
    assert!(boundaries.is_in(outside, "A"));
    assert!(!boundaries.is_in(outside, "P"));
    assert!(boundaries.is_in(east, "B"));
    assert!(!boundaries.is_in(east, "A"));
    assert!(!boundaries.is_in(east, "P"));

    assert!(boundaries.is_in_any(inside, &["X", "P"]));
    assert!(!boundaries.is_in_any(outside, &["X", "P"]));
    assert!(boundaries.is_in_any(outside, &["A", "P"]));
    assert!(!boundaries.is_in_any(east, &["A", "P"]));
    assert!(!boundaries.is_in_any(east, &[]));

    assert_eq!(vec!["A", "P"], boundaries.ids(inside));
    assert_eq!(vec!["A"], boundaries.ids(outside));
    assert_eq!(vec!["B"], boundaries.ids(east));
}

#[test]
fn ids_are_sorted_by_size_and_unknown_sizes_count_as_zero() {
    let boundaries = grid(
        vec![Cell::new(
            vec![String::from("big"), String::from("unknown"), String::from("small")],
            vec![square("middle"), square("other")],
        )],
        1,
        &[("big", 1000.0), ("middle", 10.0), ("small", 1.0)],
    );
    let inside = CellPosition { cell_x: 0, cell_y: 0, point: Point { x: 50, y: 50 } };
    let outside = CellPosition { cell_x: 0, cell_y: 0, point: Point { x: 500, y: 50 } };
    assert_eq!(vec!["unknown", "other", "small", "middle", "big"], boundaries.ids(inside));
    assert_eq!(vec!["unknown", "small", "big"], boundaries.ids(outside));
}

#[test]
fn intersecting_ids_hold_the_containing_ids() {
    let boundaries = grid(
        vec![
            Cell::new(vec![String::from("A"), String::from("B")], vec![square("P")]),
            Cell::new(vec![String::from("A")], vec![square("B"), square("Q")]),
            Cell::new(vec![String::from("A"), String::from("A")], vec![square("P")]),
            Cell::new(vec![], vec![square("A")]),
        ],
        2,
        &[],
    );
    let all = [
        CellBounds { min_x: 0, min_y: 0, max_x: 0, max_y: 0 },
        CellBounds { min_x: 0, min_y: 0, max_x: 1, max_y: 0 },
        CellBounds { min_x: 0, min_y: 0, max_x: 0, max_y: 1 },
        CellBounds { min_x: 1, min_y: 0, max_x: 0, max_y: 1 },
        CellBounds { min_x: 1, min_y: 1, max_x: 1, max_y: 1 },
        CellBounds { min_x: 0, min_y: 1, max_x: 0, max_y: 1 },
    ];
    for bounds in all {
        let containing = set(boundaries.containing_ids(bounds));
        let intersecting = set(boundaries.intersecting_ids(bounds));
        assert!(containing.is_subset(&intersecting));
    }
    assert_eq!(
        HashSet::from(["A", "B"]),
        set(boundaries.containing_ids(CellBounds { min_x: 0, min_y: 0, max_x: 0, max_y: 0 }))
    );
    assert_eq!(
        HashSet::from(["A"]),
        set(boundaries.containing_ids(CellBounds { min_x: 0, min_y: 0, max_x: 1, max_y: 0 }))
    );
    assert_eq!(
        HashSet::from(["A", "B", "P", "Q"]),
        set(boundaries.intersecting_ids(CellBounds { min_x: 0, min_y: 0, max_x: 1, max_y: 0 }))
    );
    assert_eq!(
        HashSet::from(["A"]),
        set(boundaries.containing_ids(CellBounds { min_x: 0, min_y: 1, max_x: 0, max_y: 1 }))
    );
    assert!(boundaries
        .containing_ids(CellBounds { min_x: 0, min_y: 0, max_x: 1, max_y: 1 })
        .is_empty());
    assert_eq!(
        HashSet::from(["A", "B", "P", "Q"]),
        set(boundaries.intersecting_ids(CellBounds { min_x: 0, min_y: 0, max_x: 1, max_y: 1 }))
    );
}
