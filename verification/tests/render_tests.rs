use marching_squares::frame::Frame;
use marching_squares::render::{
    clear_frame, render_grid, render_scalar_field, render_square, render_terrain,
    render_terrain_grid, render_triangle, set_col, set_pixel, set_row,
};
use marching_squares::terrain::Terrain;
use marching_squares::Error;

const WHITE: [u8; 4] = [255, 255, 255, 255];
const RED: [u8; 4] = [255, 0, 0, 255];
const GRAY: [u8; 4] = [135, 142, 136, 255];

fn pixel(frame: &Frame, x: usize, y: usize) -> [u8; 4] {
    let i = (y * frame.width + x) * 4;
    [
        frame.data[i],
        frame.data[i + 1],
        frame.data[i + 2],
        frame.data[i + 3],
    ]
}

#[test]
fn frame_rejects_bad_dimensions() {
    assert_eq!(Frame::new(0, 4).err(), Some(Error::InvalidDimension));
    assert_eq!(Frame::new(4, 0).err(), Some(Error::InvalidDimension));
}

#[test]
fn frame_starts_zeroed() {
    let f = Frame::new(3, 2).unwrap();
    assert_eq!(f.width, 3);
    assert_eq!(f.height, 2);
    assert_eq!(f.data, vec![0u8; 24]);
}

#[test]
fn set_pixel_writes_four_bytes() {
    let mut f = Frame::new(4, 4).unwrap();
    set_pixel(&mut f, 2, 1, &RED);
    assert_eq!(pixel(&f, 2, 1), RED);
    assert_eq!(pixel(&f, 1, 2), [0, 0, 0, 0]);
    let start = (1 * 4 + 2) * 4;
    assert_eq!(&f.data[start..start + 4], &RED);
}

#[test]
fn clear_frame_paints_everything() {
    let mut f = Frame::new(5, 3).unwrap();
    clear_frame(&mut f, &GRAY);
    for y in 0..3 {
        for x in 0..5 {
            assert_eq!(pixel(&f, x, y), GRAY);
        }
    }
}

#[test]
fn set_row_skips_last_column() {
    let mut f = Frame::new(4, 3).unwrap();
    set_row(&mut f, 1, &WHITE);
    for x in 0..3 {
        assert_eq!(pixel(&f, x, 1), WHITE);
    }
    assert_eq!(pixel(&f, 3, 1), [0, 0, 0, 0]);
    assert_eq!(pixel(&f, 0, 0), [0, 0, 0, 0]);
}

#[test]
fn set_col_skips_last_row() {
    let mut f = Frame::new(3, 4).unwrap();
    set_col(&mut f, 2, &WHITE);
    for y in 0..3 {
        assert_eq!(pixel(&f, 2, y), WHITE);
    }
    assert_eq!(pixel(&f, 2, 3), [0, 0, 0, 0]);
}

#[test]
fn render_grid_draws_lines_at_multiples() {
    let mut f = Frame::new(7, 5).unwrap();
    render_grid(&mut f, 2, &RED);
    for y in 0..5 {
        for x in 0..7 {
            let on_line = x + 1 < 7 && y + 1 < 5 && (x % 2 == 0 || y % 2 == 0);
            let expected = if on_line { RED } else { [0, 0, 0, 0] };
            assert_eq!(pixel(&f, x, y), expected, "at ({x}, {y})");
        }
    }
}

#[test]
fn square_fills_its_extent() {
    let mut f = Frame::new(10, 10).unwrap();
    render_square(&mut f, 2, 3, 4, &WHITE);
    for y in 0..10 {
        for x in 0..10 {
            let inside = (2..6).contains(&x) && (3..7).contains(&y);
            let expected = if inside { WHITE } else { [0, 0, 0, 0] };
            assert_eq!(pixel(&f, x, y), expected, "at ({x}, {y})");
        }
    }
}

#[test]
fn square_clips_to_the_frame() {
    let mut f = Frame::new(10, 10).unwrap();
    render_square(&mut f, 5, 5, 100, &WHITE);
    for y in 0..10 {
        for x in 0..10 {
            let inside = x >= 5 && y >= 5;
            let expected = if inside { WHITE } else { [0, 0, 0, 0] };
            assert_eq!(pixel(&f, x, y), expected, "at ({x}, {y})");
        }
    }
    assert_eq!(f.data.len(), 400);
}

#[test]
fn square_fully_outside_paints_nothing() {
    let mut f = Frame::new(8, 8).unwrap();
    render_square(&mut f, 8, 0, 5, &WHITE);
    render_square(&mut f, 0, 20, 5, &WHITE);
    assert_eq!(f.data, vec![0u8; 256]);
}

#[test]
fn triangle_containment() {
    let mut f = Frame::new(20, 20).unwrap();
    render_triangle(&mut f, 0, 0, 10, 0, 0, 10, &WHITE);
    assert_eq!(pixel(&f, 1, 1), WHITE);
    assert_eq!(pixel(&f, 9, 9), [0, 0, 0, 0]);
}

#[test]
fn triangle_edges_belong_to_the_triangle() {
    let mut f = Frame::new(20, 20).unwrap();
    render_triangle(&mut f, 0, 0, 10, 0, 0, 10, &WHITE);
    // Vertices and points on the edges are inside the closed triangle.
    assert_eq!(pixel(&f, 0, 0), WHITE);
    assert_eq!(pixel(&f, 10, 0), WHITE);
    assert_eq!(pixel(&f, 0, 10), WHITE);
    assert_eq!(pixel(&f, 5, 5), WHITE);
    // Just outside the hypotenuse.
    assert_eq!(pixel(&f, 6, 5), [0, 0, 0, 0]);
    assert_eq!(pixel(&f, 11, 0), [0, 0, 0, 0]);
}

#[test]
fn degenerate_triangle_paints_nothing() {
    let mut f = Frame::new(8, 8).unwrap();
    render_triangle(&mut f, 2, 2, 2, 2, 2, 2, &WHITE);
    render_triangle(&mut f, 1, 1, 3, 3, 5, 5, &WHITE);
    assert_eq!(f.data, vec![0u8; 256]);
}

#[test]
fn triangle_clips_to_the_frame() {
    let mut f = Frame::new(6, 6).unwrap();
    render_triangle(&mut f, 0, 0, 40, 0, 0, 40, &WHITE);
    for y in 0..6 {
        for x in 0..6 {
            assert_eq!(pixel(&f, x, y), WHITE, "at ({x}, {y})");
        }
    }
}

#[test]
fn scalar_field_shades_squares() {
    let t = Terrain::new(2, 2, vec![0, 1000, 500, 250]).unwrap();
    let mut f = Frame::new(4, 4).unwrap();
    render_scalar_field(&mut f, &t);
    // Cell size is 4 / 2 = 2; sample (r, c) covers pixels (2c..2c+2, 2r..2r+2).
    assert_eq!(pixel(&f, 0, 0), [0, 0, 0, 255]);
    assert_eq!(pixel(&f, 2, 0), [255, 255, 255, 255]);
    assert_eq!(pixel(&f, 0, 2), [128, 128, 128, 255]);
    assert_eq!(pixel(&f, 3, 3), [64, 64, 64, 255]);
    assert_eq!(pixel(&f, 1, 1), [0, 0, 0, 255]);
}

#[test]
fn terrain_full_case_fills_the_cell() {
    let t = Terrain::new(2, 2, vec![900; 4]).unwrap();
    let mut f = Frame::new(4, 4).unwrap();
    render_terrain(&mut f, &t, &WHITE);
    for y in 0..4 {
        for x in 0..4 {
            assert_eq!(pixel(&f, x, y), WHITE, "at ({x}, {y})");
        }
    }
}

#[test]
fn terrain_empty_case_leaves_background() {
    let t = Terrain::new(3, 3, vec![0; 9]).unwrap();
    let mut f = Frame::new(8, 8).unwrap();
    clear_frame(&mut f, &GRAY);
    render_terrain(&mut f, &t, &WHITE);
    for y in 0..8 {
        for x in 0..8 {
            assert_eq!(pixel(&f, x, y), GRAY, "at ({x}, {y})");
        }
    }
}

#[test]
fn edit_then_render_idempotent() {
    let mut once = Terrain::new(3, 3, vec![200; 9]).unwrap();
    let mut twice = Terrain::new(3, 3, vec![200; 9]).unwrap();
    once.modify_scalar_field(0, 0, 1000).unwrap();
    twice.modify_scalar_field(0, 0, 1000).unwrap();
    twice.modify_scalar_field(0, 0, 1000).unwrap();
    assert_eq!(once.index_values(), twice.index_values());
    let mut fa = Frame::new(8, 8).unwrap();
    let mut fb = Frame::new(8, 8).unwrap();
    clear_frame(&mut fa, &GRAY);
    clear_frame(&mut fb, &GRAY);
    render_terrain(&mut fa, &once, &WHITE);
    render_terrain(&mut fb, &twice, &WHITE);
    assert_eq!(fa.data, fb.data);
}

#[test]
fn terrain_grid_overlays_cell_lines() {
    let t = Terrain::new(3, 3, vec![0; 9]).unwrap();
    let mut f = Frame::new(6, 6).unwrap();
    render_terrain_grid(&mut f, &t, &RED);
    // Cell edge is 6 / (3 - 1) = 3: lines at multiples of 3.
    for y in 0..6 {
        for x in 0..6 {
            let on_line = x + 1 < 6 && y + 1 < 6 && (x % 3 == 0 || y % 3 == 0);
            let expected = if on_line { RED } else { [0, 0, 0, 0] };
            assert_eq!(pixel(&f, x, y), expected, "at ({x}, {y})");
        }
    }
}

#[test]
fn half_vertices_round_up_on_odd_cell_edges() {
    // One cell, only the top-left corner above the threshold: case 8 draws
    // the triangle (0, 0), (0, h/2), (h/2, 0). With an odd cell edge of 5
    // the half coordinate rounds to 3, so the triangle is x + y <= 3.
    let t = Terrain::new(2, 2, vec![900, 100, 100, 100]).unwrap();
    let mut f = Frame::new(5, 5).unwrap();
    render_terrain(&mut f, &t, &WHITE);
    for y in 0..5 {
        for x in 0..5 {
            let inside = x + y <= 3;
            let expected = if inside { WHITE } else { [0, 0, 0, 0] };
            assert_eq!(pixel(&f, x, y), expected, "at ({x}, {y})");
        }
    }
}
