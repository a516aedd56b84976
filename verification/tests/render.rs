//! Tests for the projector: spans, shades, number formatting, box drawing
//! and whole-frame rendering.

use raycaster::level::Level;
use raycaster::render::{
    column_span, draw_box, format_fixed, shade, Frame, Renderer, CORNER_BL, CORNER_BR, CORNER_TL,
    CORNER_TR, HLINE, MARKER, SHADE_DARK, SHADE_LIGHT, SHADE_MEDIUM, VLINE,
};

#[test]
fn span_projects_inverse_distance() {
    // Distance 2.0: top = h/2 * (1 - 1/2), bottom = h/2 * (1 + 1/2).
    assert_eq!(column_span(2000, 20), (5, 15));
    // Distance 1.0 fills the whole column.
    assert_eq!(column_span(1000, 20), (0, 20));
    // Below the near-clip threshold the wall fills the column outright.
    assert_eq!(column_span(100, 20), (0, 20));
    // Fractional rows truncate toward zero.
    assert_eq!(column_span(3000, 21), (7, 14));
}

#[test]
fn shade_buckets() {
    assert_eq!(shade(3001), SHADE_LIGHT);
    assert_eq!(shade(3000), SHADE_MEDIUM);
    assert_eq!(shade(1501), SHADE_MEDIUM);
    assert_eq!(shade(1500), SHADE_DARK);
    assert_eq!(shade(100), SHADE_DARK);
}

#[test]
fn fixed_point_formatting() {
    assert_eq!(format_fixed(1500), vec!['1', '.', '5', '0', '0']);
    assert_eq!(format_fixed(-42), vec!['-', '0', '.', '0', '4', '2']);
    assert_eq!(format_fixed(0), vec!['0', '.', '0', '0', '0']);
    assert_eq!(
        format_fixed(12345),
        vec!['1', '2', '.', '3', '4', '5']
    );
}

#[test]
fn column_angles_sweep_fov() {
    // Field of view 1.570 rad over ten columns: the sweep starts half the
    // field left of the heading and advances 0.157 rad per column.
    let renderer = Renderer::new(1570, 15_000);
    assert_eq!(renderer.column_angle(0, 0, 10), -785);
    assert_eq!(renderer.column_angle(0, 5, 10), 0);
    assert_eq!(renderer.column_angle(0, 9, 10), 628);
    assert_eq!(renderer.column_angle(3141, 0, 1), 2356);
}

#[test]
fn frame_put_and_clip() {
    let mut frame = Frame::new(3, 2);
    assert_eq!(frame.size(), (3, 2));
    assert_eq!(frame.glyph(0, 0), ' ');
    frame.put(1, 2, 'x');
    assert_eq!(frame.glyph(1, 2), 'x');
    // Writes past the edge are ignored, not faults.
    frame.put(-1, 0, 'y');
    frame.put(0, 3, 'y');
    frame.put(2, 0, 'y');
    for r in 0..2 {
        for c in 0..3 {
            let expected = if (r, c) == (1, 2) { 'x' } else { ' ' };
            assert_eq!(frame.glyph(r, c), expected);
        }
    }
}

#[test]
fn box_drawing() {
    let mut frame = Frame::new(5, 5);
    draw_box(&mut frame, 0, 0, 2, 2);
    assert_eq!(frame.glyph(0, 0), CORNER_TL);
    assert_eq!(frame.glyph(0, 2), CORNER_TR);
    assert_eq!(frame.glyph(2, 0), CORNER_BL);
    assert_eq!(frame.glyph(2, 2), CORNER_BR);
    assert_eq!(frame.glyph(0, 1), HLINE);
    assert_eq!(frame.glyph(2, 1), HLINE);
    assert_eq!(frame.glyph(1, 0), VLINE);
    assert_eq!(frame.glyph(1, 2), VLINE);
    assert_eq!(frame.glyph(1, 1), ' ');
    assert_eq!(frame.glyph(3, 3), ' ');
    assert_eq!(frame.glyph(0, 3), ' ');
}

#[test]
fn render_fills_hit_column() {
    // Standing in the middle of a walled 3x3 room, facing the north wall:
    // the hit is near, the whole 10-row column is painted dark.
    let level = Level::load("###\n# #\n###").unwrap();
    let renderer = Renderer::new(1571, 15_000);
    let dirs = vec![(0i64, -1000i64)];
    let frame = renderer.render(&level, 1500, 1500, 0, &dirs, 1, 10, false);
    for r in 0..10 {
        assert_eq!(frame.glyph(r, 0), SHADE_DARK);
    }
}

#[test]
fn render_leaves_missed_column_blank() {
    // An all-open grid: the ray leaves the grid, the column stays blank.
    let level = Level::load("  \n  ").unwrap();
    let renderer = Renderer::new(1571, 15_000);
    let dirs = vec![(1000i64, 0i64)];
    let frame = renderer.render(&level, 500, 500, 0, &dirs, 1, 10, false);
    for r in 0..10 {
        assert_eq!(frame.glyph(r, 0), ' ');
    }
}

#[test]
fn render_shades_by_distance() {
    // A long corridor: a far wall straight ahead gives the light shade and
    // a narrow span around the horizon.
    let level = Level::load("######\n#    #\n######").unwrap();
    let renderer = Renderer::new(1571, 15_000);
    let dirs = vec![(1000i64, 0i64)];
    let frame = renderer.render(&level, 1500, 1500, 0, &dirs, 1, 20, false);
    // Wall boundary at 3.5 units; the march lands at 3.6 units: light shade.
    let hit = level.raytrace(1500, 1500, 1000, 0, 15_000).unwrap();
    assert_eq!(hit, 3600);
    let (top, bottom) = column_span(hit, 20);
    for r in 0..20 {
        let expected = if (r as i64) >= top && (r as i64) <= bottom {
            SHADE_LIGHT
        } else {
            ' '
        };
        assert_eq!(frame.glyph(r, 0), expected);
    }
}

#[test]
fn render_hud_panels() {
    // A 2x2 map, viewer at (1.5, 0.5) heading given as pi milliradians;
    // every ray exits the grid, so the panels sit on a blank frame.
    let level = Level::load("# \n #").unwrap();
    let renderer = Renderer::new(1571, 15_000);
    let dirs = vec![(0i64, -1000i64); 30];
    let frame = renderer.render(&level, 1500, 500, 3141, &dirs, 30, 10, true);

    // Minimap panel: a box at (1, 1) framing the grid.
    assert_eq!(frame.glyph(1, 1), CORNER_TL);
    assert_eq!(frame.glyph(1, 4), CORNER_TR);
    assert_eq!(frame.glyph(4, 1), CORNER_BL);
    assert_eq!(frame.glyph(4, 4), CORNER_BR);
    // The grid's own glyphs inside, with the viewer's cell marked.
    assert_eq!(frame.glyph(2, 2), '#');
    assert_eq!(frame.glyph(2, 3), MARKER);
    assert_eq!(frame.glyph(3, 2), ' ');
    assert_eq!(frame.glyph(3, 3), '#');

    // Numeric panel: a box 18 columns from the right edge, pose inside.
    assert_eq!(frame.glyph(1, 12), CORNER_TL);
    assert_eq!(frame.glyph(1, 27), CORNER_TR);
    let row: String = (13..24).map(|c| frame.glyph(2, c)).collect();
    assert_eq!(row, "x = 1.500  ");
    let row: String = (13..24).map(|c| frame.glyph(3, c)).collect();
    assert_eq!(row, "y = 0.500  ");
    let row: String = (13..26).map(|c| frame.glyph(4, c)).collect();
    assert_eq!(row, "angle = 3.141");

    // Away from the panels the frame is untouched.
    assert_eq!(frame.glyph(0, 0), ' ');
    assert_eq!(frame.glyph(9, 29), ' ');
}
