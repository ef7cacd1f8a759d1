use pixcil::color::Rgba;
use pixcil::error::CanvasError;
use pixcil::model::pixel_canvas::{PixelCanvasCommand, PixelCanvasModel};
use pixcil::pixel::{Pixel, PixelPosition, PixelRegion, PixelSize};

fn at(x: i16, y: i16) -> PixelPosition {
    PixelPosition::from_xy(x, y)
}

fn same(p: PixelPosition) -> Vec<PixelPosition> {
    vec![p]
}

const RED: Rgba = Rgba { r: 255, g: 0, b: 0, a: 255 };
const BLUE: Rgba = Rgba { r: 0, g: 0, b: 255, a: 255 };
const GREEN: Rgba = Rgba { r: 0, g: 255, b: 0, a: 255 };

#[test]
fn draw_undo_redo_scenario() {
    let mut model = PixelCanvasModel::new();
    assert_eq!(model.state_version(), 0);
    model.draw_pixels(&same, vec![Pixel::new(at(0, 0), RED)]).unwrap();
    assert_eq!(model.get_direct_pixel(at(0, 0)), Some(RED));
    assert_eq!(model.state_version(), 1);
    assert_eq!(model.command_log_tail(), 1);

    model.undo_command(&same).unwrap();
    assert!(model.raw_pixels().is_empty());
    assert_eq!(model.get_direct_pixel(at(0, 0)), None);
    assert_eq!(model.state_version(), 0);
    assert_eq!(model.command_log_tail(), 0);
    assert_eq!(model.command_log().len(), 1);

    model.redo_command(&same).unwrap();
    assert_eq!(model.raw_pixels(), vec![Pixel::new(at(0, 0), RED)]);
    assert_eq!(model.state_version(), 1);
    assert_eq!(model.command_log_tail(), 1);
}

#[test]
fn draw_half_transparent_over_opaque_scenario() {
    let mut model = PixelCanvasModel::new();
    model.draw_pixels(&same, vec![Pixel::new(at(3, 4), BLUE)]).unwrap();
    let half_red = Rgba::new(255, 0, 0, 128);
    model.draw_pixels(&same, vec![Pixel::new(at(3, 4), half_red)]).unwrap();
    let blended = Rgba::new(128, 0, 127, 255);
    assert_eq!(half_red.alpha_blend(BLUE), blended);
    assert_eq!(model.get_direct_pixel(at(3, 4)), Some(blended));
    let command = &model.command_log()[1];
    assert_eq!(command.erase, vec![Pixel::new(at(3, 4), BLUE)]);
    assert_eq!(command.draw, vec![Pixel::new(at(3, 4), blended)]);

    model.undo_command(&same).unwrap();
    assert_eq!(model.get_direct_pixel(at(3, 4)), Some(BLUE));
}

#[test]
fn undo_at_start_only_counts_down() {
    let mut model = PixelCanvasModel::new();
    model.undo_command(&same).unwrap();
    assert_eq!(model.state_version(), -1);
    assert_eq!(model.command_log_tail(), 0);
    assert!(model.raw_pixels().is_empty());
    assert!(model.dirty_positions().is_empty());
}

#[test]
fn redo_at_end_changes_nothing() {
    let mut model = PixelCanvasModel::new();
    assert_eq!(model.redo_command(&same), Ok(()));
    assert_eq!(model.state_version(), 0);
    model.draw_pixels(&same, vec![Pixel::new(at(1, 1), RED)]).unwrap();
    model.take_dirty_positions();
    assert_eq!(model.redo_command(&same), Ok(()));
    assert_eq!(model.state_version(), 1);
    assert_eq!(model.command_log_tail(), 1);
    assert_eq!(model.command_log().len(), 1);
    assert_eq!(model.raw_pixels(), vec![Pixel::new(at(1, 1), RED)]);
    assert!(model.dirty_positions().is_empty());
}

#[test]
fn undo_back_to_start_gives_first_pixels() {
    let mut model = PixelCanvasModel::new();
    model.draw_pixels(&same, vec![Pixel::new(at(0, 0), RED), Pixel::new(at(-2, 5), BLUE)]).unwrap();
    let start = model.raw_pixels();
    let start_tail = model.command_log_tail();

    model.draw_pixels(&same, vec![Pixel::new(at(0, 0), Rgba::new(0, 255, 0, 40))]).unwrap();
    model.erase_pixels(&same, vec![at(-2, 5)]).unwrap();
    model.undo_command(&same).unwrap();
    model.redo_command(&same).unwrap();
    model.undo_command(&same).unwrap();
    model.replace_color(&same, BLUE, GREEN).unwrap();
    model.erase_and_draw_pixels(&same, vec![at(0, 0)], vec![Pixel::new(at(7, 7), RED)]).unwrap();
    model.undo_command(&same).unwrap();
    model.redo_command(&same).unwrap();

    while model.command_log_tail() > start_tail {
        model.undo_command(&same).unwrap();
    }
    assert_eq!(model.raw_pixels(), start);
}

#[test]
fn redo_after_undo_and_undo_after_redo_give_state_back() {
    let mut model = PixelCanvasModel::new();
    model.draw_pixels(&same, vec![Pixel::new(at(1, 2), RED)]).unwrap();
    model.draw_pixels(&same, vec![Pixel::new(at(1, 2), Rgba::new(0, 0, 255, 100))]).unwrap();
    let pixels = model.raw_pixels();
    let version = model.state_version();
    let tail = model.command_log_tail();

    model.undo_command(&same).unwrap();
    model.redo_command(&same).unwrap();
    assert_eq!(model.raw_pixels(), pixels);
    assert_eq!(model.state_version(), version);
    assert_eq!(model.command_log_tail(), tail);
    assert_eq!(model.command_log().len(), 2);

    model.undo_command(&same).unwrap();
    let pixels = model.raw_pixels();
    let version = model.state_version();
    let tail = model.command_log_tail();
    model.redo_command(&same).unwrap();
    model.undo_command(&same).unwrap();
    assert_eq!(model.raw_pixels(), pixels);
    assert_eq!(model.state_version(), version);
    assert_eq!(model.command_log_tail(), tail);
}

#[test]
fn edit_after_undo_cuts_the_log() {
    let mut model = PixelCanvasModel::new();
    model.draw_pixels(&same, vec![Pixel::new(at(0, 0), RED)]).unwrap();
    model.draw_pixels(&same, vec![Pixel::new(at(1, 0), RED)]).unwrap();
    model.draw_pixels(&same, vec![Pixel::new(at(2, 0), RED)]).unwrap();
    model.undo_command(&same).unwrap();
    model.undo_command(&same).unwrap();
    assert_eq!(model.command_log().len(), 3);
    assert_eq!(model.command_log_tail(), 1);

    model.draw_pixels(&same, vec![Pixel::new(at(9, 9), BLUE)]).unwrap();
    assert_eq!(model.command_log().len(), 2);
    assert_eq!(model.command_log_tail(), 2);
    assert_eq!(model.command_log()[1].draw, vec![Pixel::new(at(9, 9), BLUE)]);
    assert_eq!(
        model.raw_pixels(),
        vec![Pixel::new(at(0, 0), RED), Pixel::new(at(9, 9), BLUE)]
    );
}

#[test]
fn empty_edit_changes_nothing() {
    let mut model = PixelCanvasModel::new();
    model.draw_pixels(&same, vec![Pixel::new(at(0, 0), RED)]).unwrap();
    model.undo_command(&same).unwrap();
    model.take_dirty_positions();
    model.draw_pixels(&same, vec![]).unwrap();
    model.erase_pixels(&same, vec![at(5, 5)]).unwrap();
    model.apply_command(&same, PixelCanvasCommand::new()).unwrap();
    assert_eq!(model.command_log().len(), 1);
    assert_eq!(model.command_log_tail(), 0);
    assert_eq!(model.state_version(), 0);
    assert!(model.dirty_positions().is_empty());
}

#[test]
fn replace_color_without_match_changes_nothing() {
    let mut model = PixelCanvasModel::new();
    model.draw_pixels(&same, vec![Pixel::new(at(0, 0), RED)]).unwrap();
    model.take_dirty_positions();
    model.replace_color(&same, BLUE, GREEN).unwrap();
    assert_eq!(model.command_log().len(), 1);
    assert_eq!(model.command_log_tail(), 1);
    assert_eq!(model.state_version(), 1);
    assert_eq!(model.raw_pixels(), vec![Pixel::new(at(0, 0), RED)]);
    assert!(model.dirty_positions().is_empty());
}

#[test]
fn replace_color_recolors_every_match() {
    let mut model = PixelCanvasModel::new();
    model
        .draw_pixels(
            &same,
            vec![
                Pixel::new(at(5, 1), RED),
                Pixel::new(at(0, 0), RED),
                Pixel::new(at(2, 0), BLUE),
            ],
        )
        .unwrap();
    model.replace_color(&same, RED, GREEN).unwrap();
    assert_eq!(
        model.raw_pixels(),
        vec![
            Pixel::new(at(0, 0), GREEN),
            Pixel::new(at(2, 0), BLUE),
            Pixel::new(at(5, 1), GREEN),
        ]
    );
    let command = &model.command_log()[1];
    assert_eq!(command.erase, vec![Pixel::new(at(0, 0), RED), Pixel::new(at(5, 1), RED)]);
    assert_eq!(command.draw, vec![Pixel::new(at(0, 0), GREEN), Pixel::new(at(5, 1), GREEN)]);
    assert_eq!(model.state_version(), 2);
    model.undo_command(&same).unwrap();
    assert_eq!(model.get_direct_pixel(at(5, 1)), Some(RED));
}

#[test]
fn erase_pixels_skips_free_positions() {
    let mut model = PixelCanvasModel::new();
    model
        .draw_pixels(&same, vec![Pixel::new(at(1, 1), RED), Pixel::new(at(0, 1), BLUE)])
        .unwrap();
    model.erase_pixels(&same, vec![at(1, 1), at(4, 4), at(0, 1)]).unwrap();
    assert!(model.raw_pixels().is_empty());
    let command = &model.command_log()[1];
    assert_eq!(command.erase, vec![Pixel::new(at(0, 1), BLUE), Pixel::new(at(1, 1), RED)]);
    assert!(command.draw.is_empty());
}

#[test]
fn erase_and_draw_moves_pixels() {
    let mut model = PixelCanvasModel::new();
    model
        .draw_pixels(&same, vec![Pixel::new(at(0, 0), RED), Pixel::new(at(1, 0), BLUE)])
        .unwrap();
    let half_green = Rgba::new(0, 255, 0, 128);
    // Move the red pixel from (0, 0) onto (1, 0), and paint (0, 0) anew.
    model
        .erase_and_draw_pixels(
            &same,
            vec![at(0, 0)],
            vec![Pixel::new(at(1, 0), half_green), Pixel::new(at(0, 0), half_green)],
        )
        .unwrap();
    let command = &model.command_log()[1];
    assert_eq!(command.erase, vec![Pixel::new(at(0, 0), RED), Pixel::new(at(1, 0), BLUE)]);
    assert_eq!(
        command.draw,
        vec![
            Pixel::new(at(0, 0), half_green),
            Pixel::new(at(1, 0), half_green.alpha_blend(BLUE)),
        ]
    );
    assert_eq!(model.get_direct_pixel(at(0, 0)), Some(half_green));
    assert_eq!(model.get_direct_pixel(at(1, 0)), Some(Rgba::new(0, 128, 127, 255)));
    model.undo_command(&same).unwrap();
    assert_eq!(
        model.raw_pixels(),
        vec![Pixel::new(at(0, 0), RED), Pixel::new(at(1, 0), BLUE)]
    );
}

#[test]
fn erase_and_draw_lists_an_overwritten_pixel_once() {
    let mut model = PixelCanvasModel::new();
    model.draw_pixels(&same, vec![Pixel::new(at(2, 2), BLUE)]).unwrap();
    let r = model.erase_and_draw_pixels(
        &same,
        vec![],
        vec![Pixel::new(at(2, 2), RED), Pixel::new(at(2, 2), RED)],
    );
    // Two pixels for one position cannot both be drawn.
    assert_eq!(r, Err(CanvasError::ConsistencyViolation));
    assert_eq!(model.command_log().len(), 1);
    assert_eq!(model.raw_pixels(), vec![Pixel::new(at(2, 2), BLUE)]);
}

#[test]
fn drawing_one_position_twice_is_refused_and_changes_nothing() {
    let mut model = PixelCanvasModel::new();
    model.draw_pixels(&same, vec![Pixel::new(at(1, 1), BLUE)]).unwrap();
    model.take_dirty_positions();
    let r = model.draw_pixels(
        &same,
        vec![Pixel::new(at(0, 0), RED), Pixel::new(at(5, 5), RED), Pixel::new(at(5, 5), GREEN)],
    );
    assert_eq!(r, Err(CanvasError::ConsistencyViolation));
    assert_eq!(model.raw_pixels(), vec![Pixel::new(at(1, 1), BLUE)]);
    assert_eq!(model.command_log().len(), 1);
    assert_eq!(model.command_log_tail(), 1);
    assert_eq!(model.state_version(), 1);
    assert!(model.dirty_positions().is_empty());
    assert_eq!(model.get_layers(PixelSize::from_wh(1, 1)), 2);
}

#[test]
fn undo_of_a_transparent_draw_restores() {
    let clear = Rgba::new(1, 2, 3, 0);
    let mut model = PixelCanvasModel::new();
    model.draw_pixels(&same, vec![Pixel::new(at(4, 4), BLUE)]).unwrap();
    model.draw_pixels(&same, vec![Pixel::new(at(0, 0), clear)]).unwrap();
    assert_eq!(model.raw_pixels(), vec![Pixel::new(at(4, 4), BLUE)]);
    assert_eq!(model.state_version(), 2);
    assert_eq!(model.command_log()[1].draw, vec![Pixel::new(at(0, 0), clear)]);

    assert_eq!(model.undo_command(&same), Ok(()));
    assert_eq!(model.state_version(), 1);
    assert_eq!(model.command_log_tail(), 1);
    assert_eq!(model.raw_pixels(), vec![Pixel::new(at(4, 4), BLUE)]);
    // The older command can be undone as well.
    assert_eq!(model.undo_command(&same), Ok(()));
    assert!(model.raw_pixels().is_empty());
    assert_eq!(model.redo_command(&same), Ok(()));
    assert_eq!(model.redo_command(&same), Ok(()));
    assert_eq!(model.raw_pixels(), vec![Pixel::new(at(4, 4), BLUE)]);
    assert_eq!(model.state_version(), 2);
}

#[test]
fn undo_of_a_transparent_pixel_below_a_visible_one() {
    let clear = Rgba::new(0, 0, 0, 0);
    let mut model = PixelCanvasModel::new();
    // Both pixels find the position free; the transparent one leaves it
    // free for the red one.
    model
        .draw_pixels(&same, vec![Pixel::new(at(2, 2), clear), Pixel::new(at(2, 2), RED)])
        .unwrap();
    assert_eq!(model.raw_pixels(), vec![Pixel::new(at(2, 2), RED)]);
    assert_eq!(model.undo_command(&same), Ok(()));
    assert!(model.raw_pixels().is_empty());
    assert_eq!(model.state_version(), 0);
    assert_eq!(model.redo_command(&same), Ok(()));
    assert_eq!(model.raw_pixels(), vec![Pixel::new(at(2, 2), RED)]);
    // The other way round the second pixel finds the position taken.
    let r = model.draw_pixels(&same, vec![Pixel::new(at(3, 3), RED), Pixel::new(at(3, 3), clear)]);
    assert_eq!(r, Err(CanvasError::ConsistencyViolation));
    assert_eq!(model.command_log().len(), 1);
}

#[test]
fn replace_color_by_a_transparent_one_can_be_undone() {
    let clear = Rgba::new(0, 0, 0, 0);
    let mut model = PixelCanvasModel::new();
    model
        .draw_pixels(&same, vec![Pixel::new(at(0, 0), RED), Pixel::new(at(1, 0), BLUE)])
        .unwrap();
    model.replace_color(&same, RED, clear).unwrap();
    assert_eq!(model.raw_pixels(), vec![Pixel::new(at(1, 0), BLUE)]);
    assert_eq!(model.undo_command(&same), Ok(()));
    assert_eq!(
        model.raw_pixels(),
        vec![Pixel::new(at(0, 0), RED), Pixel::new(at(1, 0), BLUE)]
    );
}

#[test]
fn command_that_does_not_fit_is_refused() {
    let mut model = PixelCanvasModel::new();
    model.draw_pixels(&same, vec![Pixel::new(at(0, 0), RED)]).unwrap();
    let wrong_color = PixelCanvasCommand { erase: vec![Pixel::new(at(0, 0), BLUE)], draw: vec![] };
    assert_eq!(model.apply_command(&same, wrong_color), Err(CanvasError::ConsistencyViolation));
    let taken = PixelCanvasCommand { erase: vec![], draw: vec![Pixel::new(at(0, 0), BLUE)] };
    assert_eq!(model.apply_command(&same, taken), Err(CanvasError::ConsistencyViolation));
    let half = PixelCanvasCommand {
        erase: vec![Pixel::new(at(0, 0), RED)],
        draw: vec![Pixel::new(at(1, 1), BLUE), Pixel::new(at(1, 1), BLUE)],
    };
    assert_eq!(model.apply_command(&same, half), Err(CanvasError::ConsistencyViolation));
    assert_eq!(model.raw_pixels(), vec![Pixel::new(at(0, 0), RED)]);
    assert_eq!(model.command_log().len(), 1);
    assert_eq!(model.state_version(), 1);
}

#[test]
fn forget_oldest_drops_applied_commands_only() {
    let mut model = PixelCanvasModel::new();
    model.draw_pixels(&same, vec![Pixel::new(at(0, 0), RED)]).unwrap();
    model.draw_pixels(&same, vec![Pixel::new(at(1, 0), BLUE)]).unwrap();
    model.undo_command(&same).unwrap();
    model.forget_oldest_command();
    assert_eq!(model.command_log_tail(), 0);
    assert_eq!(model.command_log().len(), 1);
    assert_eq!(model.command_log()[0].draw, vec![Pixel::new(at(1, 0), BLUE)]);
    assert_eq!(model.state_version(), 1);
    assert_eq!(model.raw_pixels(), vec![Pixel::new(at(0, 0), RED)]);

    model.forget_oldest_command();
    assert_eq!(model.command_log_tail(), 0);
    assert_eq!(model.command_log().len(), 1);
    model.redo_command(&same).unwrap();
    assert_eq!(model.get_direct_pixel(at(1, 0)), Some(BLUE));
}

#[test]
fn dirty_positions_are_what_lies_above() {
    let mut model = PixelCanvasModel::new();
    let upper = |p: PixelPosition| vec![p, at(p.x, p.y + 10)];
    model
        .draw_pixels(&upper, vec![Pixel::new(at(3, 1), RED), Pixel::new(at(0, 0), RED)])
        .unwrap();
    assert_eq!(model.dirty_positions(), vec![at(0, 0), at(3, 1), at(0, 10), at(3, 11)]);
    assert_eq!(model.take_dirty_positions(), vec![at(0, 0), at(3, 1), at(0, 10), at(3, 11)]);
    assert!(model.dirty_positions().is_empty());

    model.undo_command(&same).unwrap();
    assert_eq!(model.dirty_positions(), vec![at(0, 0), at(3, 1)]);
    model.redo_command(&|_| vec![at(-1, -1)]).unwrap();
    assert_eq!(model.take_dirty_positions(), vec![at(-1, -1), at(0, 0), at(3, 1)]);
}

#[test]
fn visible_color_composites_lower_tiles() {
    let mut model = PixelCanvasModel::new();
    let half_red = Rgba::new(255, 0, 0, 128);
    model
        .draw_pixels(&same, vec![Pixel::new(at(0, 0), BLUE), Pixel::new(at(0, 4), half_red)])
        .unwrap();
    // The tile of the second layer lies four rows below the first.
    let lower = |p: PixelPosition| {
        if p.y >= 4 {
            vec![at(p.x, p.y - 4), p]
        } else {
            vec![p]
        }
    };
    assert_eq!(model.get_pixel(&lower, at(0, 4)), Some(Rgba::new(128, 0, 127, 255)));
    assert_eq!(model.get_pixel(&lower, at(0, 0)), Some(BLUE));
    assert_eq!(model.get_pixel(&lower, at(1, 4)), None);
    assert_eq!(model.get_pixel(&lower, at(0, 5)), None);
    assert_eq!(model.get_layered_pixel(&vec![at(0, 4), at(0, 0)]), Some(BLUE));
    assert_eq!(model.get_layered_pixel(&vec![]), None);
    assert_eq!(model.get_direct_pixel(at(0, 4)), Some(half_red));

    let region = PixelRegion { start: at(-1, 3), end: at(1, 4) };
    assert_eq!(
        model.get_pixels(&lower, region),
        vec![Pixel::new(at(0, 4), Rgba::new(128, 0, 127, 255))]
    );
    let all = PixelRegion { start: at(0, 0), end: at(0, 4) };
    assert_eq!(
        model.get_pixels(&lower, all),
        vec![Pixel::new(at(0, 0), BLUE), Pixel::new(at(0, 4), Rgba::new(128, 0, 127, 255))]
    );
    assert!(model.get_pixels(&lower, PixelRegion::empty()).is_empty());
}

#[test]
fn visible_color_with_alpha_override() {
    let mut model = PixelCanvasModel::new();
    model
        .draw_pixels(&same, vec![Pixel::new(at(0, 0), BLUE), Pixel::new(at(0, 4), RED)])
        .unwrap();
    let but_last = |p: PixelPosition| {
        if p.y >= 4 {
            vec![at(p.x, p.y - 4)]
        } else {
            vec![]
        }
    };
    assert_eq!(model.get_pixel_with_alpha(&but_last, at(0, 4), 0), Some(BLUE));
    assert_eq!(
        model.get_pixel_with_alpha(&but_last, at(0, 4), 128),
        Some(Rgba::new(128, 0, 127, 255))
    );
    assert_eq!(model.get_pixel_with_alpha(&but_last, at(0, 0), 7), Some(Rgba::new(0, 0, 255, 7)));
    assert_eq!(model.get_pixel_with_alpha(&but_last, at(1, 4), 9), None);
    assert_eq!(model.get_pixel_with_alpha(&but_last, at(1, 1), 9), None);
    // The canvas itself keeps its colors.
    assert_eq!(model.get_direct_pixel(at(0, 4)), Some(RED));
    assert_eq!(model.state_version(), 1);
}

#[test]
fn region_bounds_all_pixels() {
    let mut model = PixelCanvasModel::new();
    assert_eq!(model.region(), PixelRegion::empty());
    assert!(model.region().is_empty());
    model
        .draw_pixels(
            &same,
            vec![
                Pixel::new(at(-3, 2), RED),
                Pixel::new(at(4, -1), RED),
                Pixel::new(at(0, 7), RED),
            ],
        )
        .unwrap();
    assert_eq!(model.region(), PixelRegion { start: at(-3, -1), end: at(4, 7) });
    assert!(!model.region().is_empty());
}

#[test]
fn layers_and_frames_follow_the_non_negative_corner() {
    let mut model = PixelCanvasModel::new();
    let frame = PixelSize::from_wh(8, 4);
    assert_eq!(model.non_neg_right_bottom(), at(0, 0));
    assert_eq!(model.get_layers(frame), 1);
    assert_eq!(model.get_frames(frame), 1);

    model
        .draw_pixels(
            &same,
            vec![
                Pixel::new(at(17, 3), RED),
                Pixel::new(at(2, 9), RED),
                Pixel::new(at(-5, 100), RED),
                Pixel::new(at(100, -5), RED),
            ],
        )
        .unwrap();
    assert_eq!(model.non_neg_right_bottom(), at(17, 9));
    assert_eq!(model.get_layers(frame), 3);
    assert_eq!(model.get_frames(frame), 3);

    model.erase_pixels(&same, vec![at(17, 3)]).unwrap();
    assert_eq!(model.non_neg_right_bottom(), at(2, 9));
    assert_eq!(model.get_frames(frame), 1);
    assert_eq!(model.get_layers(frame), 3);

    model.erase_pixels(&same, vec![at(2, 9)]).unwrap();
    assert_eq!(model.non_neg_right_bottom(), at(0, 0));
    assert_eq!(model.get_layers(frame), 1);
    model.undo_command(&same).unwrap();
    model.undo_command(&same).unwrap();
    assert_eq!(model.non_neg_right_bottom(), at(17, 9));
}

#[test]
fn old_commands_are_forgotten_beyond_the_cap() {
    let mut model = PixelCanvasModel::default();
    for x in 0..5 {
        model.draw_pixels(&same, vec![Pixel::new(at(x, 0), RED)]).unwrap();
    }
    model.undo_command(&same).unwrap();
    assert_eq!(model.undo_count(), 4);
    assert_eq!(model.redo_count(), 1);
    model.forget_commands_beyond(7);
    assert_eq!(model.undo_count(), 4);
    model.forget_commands_beyond(2);
    assert_eq!(model.undo_count(), 2);
    assert_eq!(model.redo_count(), 1);
    assert_eq!(model.command_log().len(), 3);
    assert_eq!(model.command_log()[0].draw, vec![Pixel::new(at(2, 0), RED)]);
    assert_eq!(model.state_version(), 4);
    assert_eq!(model.raw_pixels().len(), 4);
    model.forget_commands_beyond(0);
    assert_eq!(model.undo_count(), 0);
    assert_eq!(model.command_log().len(), 1);
    assert_eq!(model.command_log()[0].draw, vec![Pixel::new(at(4, 0), RED)]);
    model.redo_command(&same).unwrap();
    assert_eq!(model.raw_pixels().len(), 5);
}

#[test]
fn colors_of_the_canvas_in_first_order() {
    let mut model = PixelCanvasModel::new();
    assert!(model.get_colors().is_empty());
    model
        .draw_pixels(
            &same,
            vec![
                Pixel::new(at(3, 1), RED),
                Pixel::new(at(0, 0), BLUE),
                Pixel::new(at(1, 0), GREEN),
                Pixel::new(at(2, 0), BLUE),
                Pixel::new(at(0, 1), RED),
            ],
        )
        .unwrap();
    assert_eq!(model.get_colors(), vec![BLUE, GREEN, RED]);
}
