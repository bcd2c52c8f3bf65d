use pastel_canvas::canvas::Canvas;
use pastel_canvas::canvas::UNDODEPTH;
use pastel_canvas::color::Color;
use pastel_canvas::events::CanvasEvent;
use pastel_canvas::events::InputEvent;
use pastel_canvas::events::Point;
use pastel_canvas::surface::Rect;
use pastel_canvas::surface::Surface;

fn px(c: &Canvas, x: i32, y: i32) -> Color {
    c.image.get(x, y)
}

fn checkerboard(w: u32, h: u32) -> Surface {
    let mut data = Vec::new();
    for i in 0..(w * h) {
        data.push(Color::rgba((i % 256) as u8, ((i * 7) % 256) as u8, ((i * 13) % 256) as u8, 255));
    }
    Surface::from_data(w, h, data)
}

#[test]
fn color_channels_round_trip() {
    let c = Color::rgba(1, 2, 3, 4);
    assert_eq!(c.r(), 1);
    assert_eq!(c.g(), 2);
    assert_eq!(c.b(), 3);
    assert_eq!(c.a(), 4);
    assert_eq!(c.data, 0x04010203);
}

#[test]
fn scale_alpha_rounds_down() {
    let c = Color::rgba(9, 8, 7, 200);
    let s = c.scale_alpha(128);
    assert_eq!(s.r(), 9);
    assert_eq!(s.g(), 8);
    assert_eq!(s.b(), 7);
    assert_eq!(s.a(), 100);
}

#[test]
fn save_mutate_save_restore_returns_pre_mutation_state() {
    let mut c = Canvas::from_color(4, 4, Color::rgba(10, 20, 30, 255));
    c.undo_save();
    c.rect(0, 0, 4, 4, Color::rgba(0, 0, 0, 255));
    c.undo_save();
    c.undo();
    for y in 0..4 {
        for x in 0..4 {
            assert_eq!(px(&c, x, y), Color::rgba(10, 20, 30, 255));
        }
    }
}

#[test]
fn restore_past_first_snapshot_is_a_no_op() {
    let mut c = Canvas::from_color(2, 2, Color::rgba(255, 255, 255, 255));
    c.clear();
    for _ in 0..10 {
        c.undo();
    }
    // the seed snapshot (opaque black) is the oldest retained state
    assert_eq!(px(&c, 0, 0), Color::rgba(0, 0, 0, 255));
    assert_eq!(c.width(), 2);
    assert_eq!(c.height(), 2);
}

#[test]
fn undo_depth_evicts_oldest_snapshots() {
    let mut c = Canvas::new(1, 1);
    for i in 0..13u8 {
        c.rect(0, 0, 1, 1, Color::rgba(i, i, i, 255));
        c.undo_save();
    }
    for _ in 0..25 {
        c.undo();
    }
    // the stack kept the newest UNDODEPTH snapshots: colors 3 through 12
    assert_eq!(UNDODEPTH, 10);
    assert_eq!(px(&c, 0, 0), Color::rgba(3, 3, 3, 255));
}

#[test]
fn double_flip_horizontal_is_identity() {
    let mut c = Canvas::from_image(checkerboard(5, 3));
    let before: Vec<u32> = c.image.data.iter().map(|p| p.data).collect();
    c.transformation("flip_horizontal", 0, 0);
    c.transformation("flip_horizontal", 0, 0);
    let after: Vec<u32> = c.image.data.iter().map(|p| p.data).collect();
    assert_eq!(before, after);
}

#[test]
fn double_flip_vertical_is_identity() {
    let mut c = Canvas::from_image(checkerboard(4, 6));
    let before: Vec<u32> = c.image.data.iter().map(|p| p.data).collect();
    c.transformation("flip_vertical", 0, 0);
    c.transformation("flip_vertical", 0, 0);
    let after: Vec<u32> = c.image.data.iter().map(|p| p.data).collect();
    assert_eq!(before, after);
}

#[test]
fn flip_horizontal_mirrors_rows() {
    let mut c = Canvas::from_image(checkerboard(3, 2));
    let before: Vec<u32> = c.image.data.iter().map(|p| p.data).collect();
    c.transformation("flip_horizontal", 0, 0);
    let after: Vec<u32> = c.image.data.iter().map(|p| p.data).collect();
    assert_eq!(after, vec![
        before[2], before[1], before[0], before[5], before[4], before[3]
    ]);
}

#[test]
fn rotate90_four_times_is_identity() {
    let mut c = Canvas::from_image(checkerboard(5, 3));
    let before: Vec<u32> = c.image.data.iter().map(|p| p.data).collect();
    for _ in 0..4 {
        c.transformation("rotate90", 0, 0);
    }
    assert_eq!(c.width(), 5);
    assert_eq!(c.height(), 3);
    let after: Vec<u32> = c.image.data.iter().map(|p| p.data).collect();
    assert_eq!(before, after);
}

#[test]
fn rotate90_swaps_dimensions_and_permutes() {
    let mut c = Canvas::from_image(checkerboard(3, 2));
    let b: Vec<u32> = c.image.data.iter().map(|p| p.data).collect();
    c.transformation("rotate90", 0, 0);
    assert_eq!(c.width(), 2);
    assert_eq!(c.height(), 3);
    let a: Vec<u32> = c.image.data.iter().map(|p| p.data).collect();
    // the cell (x, y) of the result is the source cell (y, h - 1 - x)
    assert_eq!(a, vec![b[3], b[0], b[4], b[1], b[5], b[2]]);
}

#[test]
fn flood_fill_covers_uniform_surface_from_interior_point() {
    let mut c = Canvas::from_color(5, 5, Color::rgba(255, 255, 255, 255));
    c.fill(2, 2, Color::rgba(0, 0, 0, 255));
    for y in 0..5 {
        for x in 0..5 {
            assert_eq!(px(&c, x, y), Color::rgba(0, 0, 0, 255));
        }
    }
}

#[test]
fn flood_fill_covers_uniform_surface_from_corner() {
    let mut c = Canvas::from_color(10, 10, Color::rgba(255, 255, 255, 255));
    c.fill(0, 0, Color::rgba(0, 0, 0, 255));
    for y in 0..10 {
        for x in 0..10 {
            assert_eq!(px(&c, x, y), Color::rgba(0, 0, 0, 255));
        }
    }
}

#[test]
fn flood_fill_with_same_color_changes_nothing() {
    let mut c = Canvas::from_image(checkerboard(4, 4));
    let before: Vec<u32> = c.image.data.iter().map(|p| p.data).collect();
    let seed = px(&c, 1, 1);
    c.fill(1, 1, seed);
    let after: Vec<u32> = c.image.data.iter().map(|p| p.data).collect();
    assert_eq!(before, after);
}

#[test]
fn flood_fill_respects_region_boundaries() {
    let mut c = Canvas::from_color(5, 5, Color::rgba(255, 255, 255, 255));
    // a vertical black wall splits the surface
    c.rect(2, 0, 1, 5, Color::rgba(0, 0, 0, 255));
    c.fill(0, 0, Color::rgba(200, 0, 0, 255));
    assert_eq!(px(&c, 1, 4), Color::rgba(200, 0, 0, 255));
    assert_eq!(px(&c, 2, 2), Color::rgba(0, 0, 0, 255));
    assert_eq!(px(&c, 3, 3), Color::rgba(255, 255, 255, 255));
}

#[test]
fn flood_fill_is_alpha_sensitive() {
    let mut c = Canvas::from_color(3, 1, Color::rgba(9, 9, 9, 255));
    // same rgb, different alpha: not part of the filled region
    c.rect(2, 0, 1, 1, Color::rgba(9, 9, 9, 200));
    c.fill(0, 0, Color::rgba(1, 1, 1, 255));
    assert_eq!(px(&c, 1, 0), Color::rgba(1, 1, 1, 255));
    assert_eq!(px(&c, 2, 0), Color::rgba(9, 9, 9, 200));
}

#[test]
fn masked_write_gates_alpha_and_keeps_rgb() {
    let mut c = Canvas::from_color(4, 4, Color::rgba(255, 255, 255, 255));
    c.paint_on_mask();
    assert!(c.mask_flag());
    c.rect(0, 0, 4, 4, Color::rgba(150, 0, 0, 255));
    c.paint_on_mask();
    assert!(!c.mask_flag());
    // the swap back disables gating; turn it on for the masked write
    c.enable_mask(true);
    c.pixel(1, 1, Color::rgba(10, 20, 30, 204));
    let got = px(&c, 1, 1);
    assert_eq!(got.r(), 10);
    assert_eq!(got.g(), 20);
    assert_eq!(got.b(), 30);
    assert_eq!(got.a(), 150 & 204);
}

#[test]
fn unmasked_write_stores_the_color() {
    let mut c = Canvas::from_color(2, 2, Color::rgba(255, 255, 255, 255));
    c.pixel(0, 1, Color::rgba(1, 2, 3, 4));
    assert_eq!(px(&c, 0, 1), Color::rgba(1, 2, 3, 4));
    // off-surface writes are ignored
    c.pixel(-1, 0, Color::rgba(9, 9, 9, 9));
    c.pixel(0, 2, Color::rgba(9, 9, 9, 9));
    assert_eq!(px(&c, 0, 0), Color::rgba(255, 255, 255, 255));
}

#[test]
fn circle_radius_one_outline_on_white_surface() {
    let mut c = Canvas::from_color(4, 4, Color::rgba(255, 255, 255, 255));
    let black = Color::rgba(0, 0, 0, 255);
    c.circle(2, 2, 1, black);
    // the midpoint algorithm's boundary points around (2, 2)
    assert_eq!(px(&c, 1, 2), black);
    assert_eq!(px(&c, 3, 2), black);
    assert_eq!(px(&c, 2, 1), black);
    assert_eq!(px(&c, 2, 3), black);
    // the center and the far corners stay untouched
    assert_eq!(px(&c, 2, 2), Color::rgba(255, 255, 255, 255));
    assert_eq!(px(&c, 0, 0), Color::rgba(255, 255, 255, 255));
    assert_eq!(px(&c, 3, 3), Color::rgba(255, 255, 255, 255));
    assert_eq!(px(&c, 0, 3), Color::rgba(255, 255, 255, 255));
}

#[test]
fn negative_radius_draws_filled_circle() {
    let mut c = Canvas::from_color(7, 7, Color::rgba(255, 255, 255, 255));
    let black = Color::rgba(0, 0, 0, 255);
    c.circle(3, 3, -2, black);
    // the whole center row of the disc is painted
    for x in 1..6 {
        assert_eq!(px(&c, x, 3), black);
    }
    assert_eq!(px(&c, 3, 1), black);
    assert_eq!(px(&c, 0, 0), Color::rgba(255, 255, 255, 255));
}

#[test]
fn zero_radius_writes_single_pixel() {
    let mut c = Canvas::from_color(3, 3, Color::rgba(255, 255, 255, 255));
    c.circle(1, 1, 0, Color::rgba(0, 0, 0, 255));
    assert_eq!(px(&c, 1, 1), Color::rgba(0, 0, 0, 255));
    assert_eq!(px(&c, 0, 1), Color::rgba(255, 255, 255, 255));
}

#[test]
fn line_covers_horizontal_run() {
    let mut c = Canvas::from_color(5, 3, Color::rgba(255, 255, 255, 255));
    let black = Color::rgba(0, 0, 0, 255);
    c.line(0, 1, 4, 1, black);
    for x in 0..5 {
        assert_eq!(px(&c, x, 1), black);
    }
    assert_eq!(px(&c, 0, 0), Color::rgba(255, 255, 255, 255));
}

#[test]
fn line_covers_diagonal_endpoints() {
    let mut c = Canvas::from_color(5, 5, Color::rgba(255, 255, 255, 255));
    let black = Color::rgba(0, 0, 0, 255);
    c.line(4, 0, 0, 4, black);
    assert_eq!(px(&c, 4, 0), black);
    assert_eq!(px(&c, 0, 4), black);
    assert_eq!(px(&c, 2, 2), black);
}

#[test]
fn polyline_closes_the_polygon() {
    let mut c = Canvas::from_color(8, 8, Color::rgba(255, 255, 255, 255));
    let black = Color::rgba(0, 0, 0, 255);
    let pts = vec![(1, 1), (6, 1), (3, 6)];
    c.polyline(&pts, black);
    assert_eq!(px(&c, 1, 1), black);
    assert_eq!(px(&c, 6, 1), black);
    assert_eq!(px(&c, 3, 6), black);
    // a point on the closing edge from (3, 6) back to (1, 1)
    assert_eq!(px(&c, 4, 1), black);
}

#[test]
fn brighten_adds_ten_with_clamping() {
    let mut c = Canvas::from_color(1, 1, Color::rgba(100, 200, 250, 77));
    c.transformation("brighten", 0, 0);
    assert_eq!(px(&c, 0, 0), Color::rgba(110, 210, 255, 77));
}

#[test]
fn darken_subtracts_ten_with_clamping() {
    let mut c = Canvas::from_color(1, 1, Color::rgba(5, 190, 240, 77));
    c.transformation("darken", 0, 0);
    assert_eq!(px(&c, 0, 0), Color::rgba(0, 180, 230, 77));
}

#[test]
fn invert_flips_color_channels_only() {
    let mut c = Canvas::from_color(1, 1, Color::rgba(100, 200, 250, 77));
    c.transformation("invert", 0, 0);
    assert_eq!(px(&c, 0, 0), Color::rgba(155, 55, 5, 77));
}

#[test]
fn grayscale_tints_from_luma() {
    let mut c = Canvas::from_color(1, 1, Color::rgba(100, 200, 250, 77));
    c.transformation("grayscale", 0, 0);
    // luma = (2126*100 + 7152*200 + 722*250) / 10000 = 182; 182*10/12 = 151
    assert_eq!(px(&c, 0, 0), Color::rgba(151, 151, 151, 255));
}

#[test]
fn grayscale_keeps_pure_white_white() {
    let mut c = Canvas::from_color(1, 1, Color::rgba(255, 255, 255, 128));
    c.transformation("grayscale", 0, 0);
    assert_eq!(px(&c, 0, 0), Color::rgba(255, 255, 255, 255));
}

#[test]
fn resize_nearest_doubles_pixels() {
    let mut data = Vec::new();
    data.push(Color::rgba(1, 0, 0, 255));
    data.push(Color::rgba(2, 0, 0, 255));
    data.push(Color::rgba(3, 0, 0, 255));
    data.push(Color::rgba(4, 0, 0, 255));
    let mut c = Canvas::from_image(Surface::from_data(2, 2, data));
    c.transformation("resize", 4, 4);
    assert_eq!(c.width(), 4);
    assert_eq!(c.height(), 4);
    assert_eq!(px(&c, 0, 0), Color::rgba(1, 0, 0, 255));
    assert_eq!(px(&c, 1, 1), Color::rgba(1, 0, 0, 255));
    assert_eq!(px(&c, 2, 0), Color::rgba(2, 0, 0, 255));
    assert_eq!(px(&c, 0, 3), Color::rgba(3, 0, 0, 255));
    assert_eq!(px(&c, 3, 3), Color::rgba(4, 0, 0, 255));
}

#[test]
fn unknown_code_leaves_picture_unchanged() {
    let mut c = Canvas::from_image(checkerboard(3, 3));
    let before: Vec<u32> = c.image.data.iter().map(|p| p.data).collect();
    c.transformation("blur", 0, 0);
    let after: Vec<u32> = c.image.data.iter().map(|p| p.data).collect();
    assert_eq!(before, after);
}

#[test]
fn transformation_is_undoable() {
    let mut c = Canvas::from_image(checkerboard(3, 3));
    let before: Vec<u32> = c.image.data.iter().map(|p| p.data).collect();
    c.undo_save();
    c.transformation("invert", 0, 0);
    c.undo();
    let after: Vec<u32> = c.image.data.iter().map(|p| p.data).collect();
    assert_eq!(before, after);
}

#[test]
fn trans_selection_flips_only_the_selection() {
    let mut c = Canvas::from_image(checkerboard(4, 2));
    let b: Vec<u32> = c.image.data.iter().map(|p| p.data).collect();
    let sel = Rect { x: 0, y: 0, width: 2, height: 1 };
    c.trans_selection(sel, "flip_horizontal", 0, 0);
    let a: Vec<u32> = c.image.data.iter().map(|p| p.data).collect();
    assert_eq!(a[0], b[1]);
    assert_eq!(a[1], b[0]);
    assert_eq!(a[2], b[2]);
    assert_eq!(a[4], b[4]);
}

#[test]
fn trans_selection_rotate_clears_uncovered_cells_to_white() {
    let mut c = Canvas::from_color(4, 4, Color::rgba(7, 7, 7, 255));
    let sel = Rect { x: 0, y: 0, width: 3, height: 1 };
    c.trans_selection(sel, "rotate90", 0, 0);
    // the rotated 1x3 strip lands at the corner; the rest of the old
    // selection is cleared to opaque white
    assert_eq!(px(&c, 0, 0), Color::rgba(7, 7, 7, 255));
    assert_eq!(px(&c, 1, 0), Color::rgba(255, 255, 255, 255));
    assert_eq!(px(&c, 2, 0), Color::rgba(255, 255, 255, 255));
    assert_eq!(px(&c, 3, 0), Color::rgba(7, 7, 7, 255));
}

#[test]
fn trans_image_returns_transformed_buffer() {
    let region = checkerboard(2, 2);
    let expect: Vec<u32> = vec![region.data[1].data, region.data[0].data,
        region.data[3].data, region.data[2].data];
    let c = Canvas::new(1, 1);
    let out = c.trans_image(region, "flip_horizontal", 0, 0);
    let got: Vec<u32> = out.iter().map(|p| p.data).collect();
    assert_eq!(got, expect);
}

#[test]
fn clear_fills_opaque_white_and_is_undoable() {
    let mut c = Canvas::from_color(3, 3, Color::rgba(1, 2, 3, 4));
    // a restore discards the newest checkpoint and reinstates the one below
    // it, so the state to return to is committed before the mutating call
    c.undo_save();
    c.clear();
    assert_eq!(px(&c, 2, 2), Color::rgba(255, 255, 255, 255));
    c.undo();
    assert_eq!(px(&c, 2, 2), Color::rgba(1, 2, 3, 4));
}

#[test]
fn paint_on_mask_swaps_and_toggles() {
    let mut c = Canvas::from_color(2, 2, Color::rgba(9, 9, 9, 255));
    assert!(!c.mask_flag());
    c.paint_on_mask();
    assert!(c.mask_flag());
    // gating turns on exactly when the flag transitions to true
    assert!(c.mask_enabled);
    // the mask marker is now the visible picture
    assert_eq!(px(&c, 0, 0), Color::rgba(255, 0, 0, 50));
    c.paint_on_mask();
    assert!(!c.mask_flag());
    assert!(!c.mask_enabled);
    assert_eq!(px(&c, 0, 0), Color::rgba(9, 9, 9, 255));
}

#[test]
fn clear_mask_resets_the_hidden_surface() {
    let mut c = Canvas::from_color(2, 2, Color::rgba(9, 9, 9, 255));
    c.paint_on_mask();
    c.rect(0, 0, 2, 2, Color::rgba(1, 1, 1, 255));
    c.paint_on_mask();
    c.enable_mask(false);
    c.clear_mask();
    // gate is the marker red again: alpha & 255 stores the color unchanged
    c.enable_mask(true);
    c.pixel(0, 0, Color::rgba(5, 6, 7, 89));
    assert_eq!(px(&c, 0, 0), Color::rgba(5, 6, 7, 89 & 255));
}

#[test]
fn copy_and_paste_buffer_scales_alpha() {
    let mut c = Canvas::from_color(4, 4, Color::rgba(10, 10, 10, 200));
    c.copy_selection(0, 0, 2, 2);
    c.rect(0, 0, 4, 4, Color::rgba(0, 0, 0, 255));
    c.paste_buffer(2, 2, 128);
    // 200 * 128 / 255 == 100
    assert_eq!(px(&c, 2, 2), Color::rgba(10, 10, 10, 100));
    assert_eq!(px(&c, 1, 1), Color::rgba(0, 0, 0, 255));
}

#[test]
fn paste_buffer_is_undoable() {
    let mut c = Canvas::from_color(2, 2, Color::rgba(3, 3, 3, 255));
    c.copy_selection(0, 0, 1, 1);
    c.rect(0, 0, 2, 2, Color::rgba(7, 7, 7, 255));
    c.undo_save();
    c.paste_buffer(0, 0, 255);
    assert_eq!(px(&c, 0, 0), Color::rgba(3, 3, 3, 255));
    c.undo();
    assert_eq!(px(&c, 0, 0), Color::rgba(7, 7, 7, 255));
}

#[test]
fn paste_selection_is_clipped_and_undoable() {
    let mut c = Canvas::from_color(3, 3, Color::rgba(1, 1, 1, 255));
    let patch = Surface::from_color(2, 2, Color::rgba(8, 8, 8, 255));
    c.undo_save();
    c.paste_selection(2, 2, 255, patch);
    assert_eq!(px(&c, 2, 2), Color::rgba(8, 8, 8, 255));
    assert_eq!(px(&c, 1, 1), Color::rgba(1, 1, 1, 255));
    c.undo();
    assert_eq!(px(&c, 2, 2), Color::rgba(1, 1, 1, 255));
}

#[test]
fn fill_mask_reseeds_from_gated_color() {
    // gate the alpha so the written color differs from the requested one
    let mut c = Canvas::from_color(3, 1, Color::rgba(255, 255, 255, 255));
    c.paint_on_mask();
    c.rect(0, 0, 3, 1, Color::rgba(0, 0, 0, 255));
    c.paint_on_mask();
    c.enable_mask(true);
    // gate red channel is 0: stored alpha is 0 & a == 0
    c.fill_mask(0, 0, Color::rgba(3, 3, 3, 255));
    assert_eq!(px(&c, 0, 0), Color::rgba(3, 3, 3, 0));
    assert_eq!(px(&c, 2, 0), Color::rgba(3, 3, 3, 0));
}

#[test]
fn export_data_reorders_bytes_to_rgba() {
    let mut data = Vec::new();
    data.push(Color::rgba(1, 2, 3, 4));
    data.push(Color::rgba(5, 6, 7, 8));
    let c = Canvas::from_image(Surface::from_data(2, 1, data));
    let out = c.export_data();
    assert_eq!(out, vec![1, 2, 3, 4, 5, 6, 7, 8]);
}

#[test]
fn mouse_events_raise_clicks() {
    let mut c = Canvas::new(2, 2);
    let ev = InputEvent::Mouse {
        point: Point { x: 1, y: 1 },
        left_button: true,
        middle_button: false,
        right_button: true,
    };
    let out = c.event(ev);
    assert_eq!(out, vec![
        CanvasEvent::RightClick(Point { x: 1, y: 1 }),
        CanvasEvent::Click(Point { x: 1, y: 1 }),
    ]);
}

#[test]
fn idle_pointer_motion_raises_clearing_click() {
    let mut c = Canvas::new(2, 2);
    let ev = InputEvent::Mouse {
        point: Point { x: 1, y: 0 },
        left_button: false,
        middle_button: false,
        right_button: false,
    };
    let out = c.event(ev);
    assert_eq!(out, vec![CanvasEvent::ClearClick(Point { x: 0, y: 0 })]);
}

#[test]
fn shortcut_characters_are_passed_on() {
    let mut c = Canvas::new(1, 1);
    assert_eq!(c.event(InputEvent::Text { c: 'v' }), vec![CanvasEvent::Shortcut('v')]);
    assert_eq!(c.event(InputEvent::Text { c: 'Q' }), vec![CanvasEvent::Shortcut('Q')]);
    assert_eq!(c.event(InputEvent::Text { c: 'a' }), vec![]);
}

#[test]
fn z_character_triggers_restore() {
    let mut c = Canvas::from_color(2, 2, Color::rgba(4, 4, 4, 255));
    c.undo_save();
    c.clear();
    let out = c.event(InputEvent::Text { c: 'z' });
    assert!(out.is_empty());
    assert_eq!(px(&c, 0, 0), Color::rgba(4, 4, 4, 255));
}

#[test]
fn rect_is_clipped_to_the_surface() {
    let mut c = Canvas::from_color(3, 3, Color::rgba(1, 1, 1, 255));
    c.rect(2, 2, 5, 5, Color::rgba(2, 2, 2, 255));
    assert_eq!(px(&c, 2, 2), Color::rgba(2, 2, 2, 255));
    assert_eq!(px(&c, 1, 1), Color::rgba(1, 1, 1, 255));
}

#[test]
fn construction_seeds_one_snapshot_and_empty_clipboard() {
    let c = Canvas::from_color(3, 2, Color::rgba(5, 5, 5, 255));
    assert_eq!(c.width(), 3);
    assert_eq!(c.height(), 2);
    assert!(!c.mask_flag());
    assert_eq!(c.copy_buffer.width, 0);
    assert_eq!(c.copy_buffer.height, 0);
    assert_eq!(c.mask.get(0, 0), Color::rgba(255, 0, 0, 50));
}
