//! Tests for the grid: loading, queries, serialization and ray marching.
//! Fixed-point coordinates are milli-units: 1.5 grid units is 1500.

use raycaster::level::{Cell, Level, LoadError, Size, MAX_TRACE, SCALE};

/// A grid-unit value as milli-units, truncating as the library does.
fn fp(v: f32) -> i64 {
    (v * SCALE as f32) as i64
}

/// The ray direction for a heading: `(sin a, -cos a)`, scaled to milli-units.
fn dir(angle: f32) -> (i64, i64) {
    (fp(f32::sin(angle)), fp(-f32::cos(angle)))
}

#[test]
fn loaded() {
    let input = "## #\n# ##";
    let level = Level::load(input).unwrap();

    assert!(matches!(level.size(), Size { w: 4, h: 2 }));
    assert!(matches!(level.cell_at(fp(3.2), fp(0.1)), Some(Cell::Wall)));
    assert!(matches!(level.cell_at(fp(1.6), fp(1.0)), Some(Cell::Open)));
    assert!(matches!(level.cell_at(fp(5.6), fp(14.0)), None));
}

#[test]
fn empty() {
    assert!(matches!(Level::load(""), Err(LoadError::Empty)));
}

#[test]
fn blank_first_line() {
    // A loaded grid always has positive dimensions: a blank first line
    // would fix the width at zero, so it is rejected as an empty source.
    assert!(matches!(Level::load("\n"), Err(LoadError::Empty)));
    assert!(matches!(Level::load("\n##"), Err(LoadError::Empty)));
}

#[test]
fn smallest_map() {
    let level = Level::load(" ").unwrap();
    assert!(matches!(level.size(), Size { w: 1, h: 1 }));
    assert!(matches!(level.cell_at(500, 500), Some(Cell::Open)));
}

#[test]
fn non_rect() {
    let input = "####\n# #";
    assert!(matches!(Level::load(input), Err(LoadError::NonRect(2))));
}

#[test]
fn invalid() {
    let input = "## a\n";
    assert!(matches!(
        Level::load(input),
        Err(LoadError::InvalidChar(1, 4))
    ));
}

#[test]
fn display() {
    let input = "## \n###\n # ";
    let level = Level::load(input).unwrap();

    assert_eq!(level.serialize(), input);
}

#[test]
fn raytrace() {
    let input = "# ####\n\
                 # ## #\n\
                 #    #\n\
                 ######";

    let level = Level::load(input).unwrap();

    assert!(matches!(
        level.raytrace(fp(1.2), fp(0.0), dir(0.0).0, dir(0.0).1, MAX_TRACE),
        None
    ));
    let d = dir(std::f32::consts::PI);
    assert!(matches!(
        level.raytrace(fp(1.2), fp(0.0), d.0, d.1, fp(1.5)),
        None
    ));

    let dist = level
        .raytrace(fp(1.2), fp(0.0), d.0, d.1, MAX_TRACE)
        .unwrap();
    assert!(dist > fp(2.9) && dist < fp(4.0));

    let d = dir(-std::f32::consts::FRAC_PI_4);
    let dist = level
        .raytrace(fp(4.2), fp(2.5), d.0, d.1, fp(15.0))
        .unwrap();
    assert!(dist > 0 && dist < fp(1.0));
}

#[test]
fn round_trip() {
    let input = "## #\n# ##";
    let level = Level::load(input).unwrap();
    assert_eq!(level.serialize(), input);

    let bordered = "######\n#    #\n######";
    let level = Level::load(bordered).unwrap();
    assert_eq!(level.serialize(), bordered);
}

#[test]
fn load_single_line() {
    let level = Level::load("# #").unwrap();
    assert!(matches!(level.size(), Size { w: 3, h: 1 }));
    assert!(matches!(level.cell_at(0, 0), Some(Cell::Wall)));
    assert!(matches!(level.cell_at(fp(1.5), 0), Some(Cell::Open)));
}

#[test]
fn non_rect_later_line() {
    assert!(matches!(
        Level::load("##\n##\n#"),
        Err(LoadError::NonRect(3))
    ));
}

#[test]
fn invalid_second_row() {
    assert!(matches!(
        Level::load("###\n#x#"),
        Err(LoadError::InvalidChar(2, 2))
    ));
}

#[test]
fn length_checked_before_characters() {
    // On one offending line the column-count check outranks the bad character.
    assert!(matches!(Level::load("##\nabc"), Err(LoadError::NonRect(2))));
}

#[test]
fn cell_at_rejects_out_of_range() {
    let level = Level::load("##\n##").unwrap();
    assert!(matches!(level.cell_at(-1, 0), None));
    assert!(matches!(level.cell_at(0, -1), None));
    assert!(matches!(level.cell_at(2 * SCALE, 0), None));
    assert!(matches!(level.cell_at(0, 2 * SCALE), None));
    // The boundary is strict: exactly `width` grid units is already outside.
    assert!(matches!(level.cell_at(2 * SCALE - 1, 0), Some(_)));
}

#[test]
fn cell_at_integer_aligned() {
    let level = Level::load("# \n #").unwrap();
    assert!(matches!(level.cell_at(0, 0), Some(Cell::Wall)));
    assert!(matches!(level.cell_at(SCALE, 0), Some(Cell::Open)));
    assert!(matches!(level.cell_at(0, SCALE), Some(Cell::Open)));
    assert!(matches!(level.cell_at(SCALE, SCALE), Some(Cell::Wall)));
}

#[test]
fn raytrace_open_room_within_bound() {
    // No wall anywhere: a ray that stays inside the grid up to its bound
    // reports no hit.
    let level = Level::load("   \n   ").unwrap();
    assert!(matches!(
        level.raytrace(fp(1.5), fp(0.5), SCALE, 0, fp(0.4)),
        None
    ));
}

#[test]
fn raytrace_within_one_step_of_wall() {
    // Wall boundary at 0.5 grid units straight ahead: the marched distance
    // may overshoot by at most one step (0.2).
    let level = Level::load("###\n# #\n###").unwrap();
    let dist = level
        .raytrace(fp(1.5), fp(1.5), 0, -SCALE, fp(15.0))
        .unwrap();
    assert!((dist - 500).abs() <= 200);
}

#[test]
fn raytrace_bounded_below_wall_distance() {
    let level = Level::load("###\n# #\n###").unwrap();
    assert!(matches!(
        level.raytrace(fp(1.5), fp(1.5), 0, -SCALE, 300),
        None
    ));
}
