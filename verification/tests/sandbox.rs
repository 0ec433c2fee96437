use pixel_quadtree::canvas::{Canvas, BACKGROUND, BOUNDARY};
use pixel_quadtree::sandbox::{Circle, Point, SandBox, PALETTE};
use pixel_quadtree::screen::{_clear, show, SCREEN_HEIGHT, SCREEN_WIDTH};
use pixel_quadtree::tree::{Branch, Leaf};

fn positions(sand_box: &SandBox) -> Vec<(u32, u32)> {
    sand_box.circles.iter().map(|circle| (circle.coordinates.x, circle.coordinates.y)).collect()
}

#[test]
fn the_screen_is_a_square_of_128() {
    assert_eq!(SCREEN_WIDTH, 128);
    assert_eq!(SCREEN_HEIGHT, 128);
}

#[test]
fn a_point_keeps_its_coordinates() {
    assert_eq!(Point::new(3, 9), Point { x: 3, y: 9 });
}

#[test]
fn a_new_circle_is_black_and_has_speed_one() {
    assert_eq!(
        Circle::new(90, 40, -1),
        Circle { color: 1, coordinates: Point { x: 90, y: 40 }, direction: -1, speed: 1 }
    );
}

#[test]
fn a_new_sandbox_has_five_circles_and_a_blank_canvas() {
    let sand_box = SandBox::new();
    assert_eq!(sand_box.frame_count, 0);
    assert_eq!(sand_box.buffer, Canvas::new(128, 128));
    assert_eq!(
        sand_box.circles,
        vec![
            Circle::new(20, 50, 1),
            Circle::new(50, 30, 1),
            Circle::new(25, 20, 1),
            Circle::new(90, 40, -1),
            Circle::new(85, 40, -1),
        ]
    );
}

#[test]
fn a_step_without_oscillation_keeps_the_circles_in_place() {
    let mut sand_box = SandBox::new();
    assert!(sand_box.can_update(0));
    sand_box.update(0);
    assert_eq!(sand_box.frame_count, 1);
    assert_eq!(positions(&sand_box), vec![(20, 50), (50, 30), (25, 20), (90, 40), (85, 40)]);
}

#[test]
fn a_step_moves_each_circle_in_its_direction() {
    let mut sand_box = SandBox::new();
    assert!(sand_box.can_update(3));
    sand_box.update(3);
    assert_eq!(positions(&sand_box), vec![(23, 50), (53, 30), (28, 20), (87, 40), (82, 40)]);
    assert!(sand_box.can_update(-5));
    sand_box.update(-5);
    assert_eq!(positions(&sand_box), vec![(18, 50), (48, 30), (23, 20), (92, 40), (87, 40)]);
    assert_eq!(sand_box.frame_count, 2);
}

#[test]
fn a_step_draws_the_circles_and_the_lines_of_their_tree() {
    let mut sand_box = SandBox::new();
    sand_box.update(0);
    let mut expected = Canvas::new(128, 128);
    for point in [(20, 50), (50, 30), (25, 20), (90, 40), (85, 40)] {
        expected.set(point.0, point.1, 1);
    }
    let mut root = Branch::Leaf(Leaf::new(128, 128));
    for point in [(20, 50), (50, 30), (25, 20), (90, 40), (85, 40)] {
        root = root.insert(point, (0, 0), &mut expected);
    }
    assert_eq!(sand_box.buffer, expected);
    assert_eq!(sand_box.buffer.get(20, 50), 1);
    assert_eq!(sand_box.buffer.get(64, 0), BOUNDARY);
    assert_eq!(sand_box.buffer.get(0, 64), BOUNDARY);
    assert_eq!(sand_box.buffer.get(32, 63), BOUNDARY);
    assert_eq!(sand_box.buffer.get(96, 63), BOUNDARY);
    assert_eq!(sand_box.buffer.get(88, 40), BOUNDARY);
    assert_eq!(sand_box.buffer.get(0, 0), BACKGROUND);
    assert_eq!(sand_box.buffer.get(127, 127), BACKGROUND);
}

#[test]
fn a_step_draws_on_a_cleared_canvas() {
    let mut sand_box = SandBox::new();
    sand_box.update(0);
    let first = sand_box.buffer.clone();
    sand_box.buffer.set(1, 1, 1);
    sand_box.update(0);
    assert_eq!(sand_box.buffer, first);
}

#[test]
fn a_circle_that_would_leave_the_screen_stops_the_step() {
    let sand_box = SandBox::new();
    // The circle at column 50 moves right with the oscillation, the one at 20 left against it.
    assert!(sand_box.can_update(77));
    assert!(!sand_box.can_update(78));
    assert!(sand_box.can_update(-20));
    assert!(!sand_box.can_update(-21));
    assert!(!sand_box.can_update(i32::MAX));
    assert!(!sand_box.can_update(i32::MIN));
}

#[test]
fn a_circle_below_the_screen_stops_the_step() {
    let mut sand_box = SandBox::new();
    sand_box.circles = vec![Circle::new(5, 128, 1)];
    assert!(!sand_box.can_update(0));
    sand_box.circles = vec![Circle::new(5, 127, 1)];
    assert!(sand_box.can_update(0));
}

#[test]
fn two_circles_on_one_cell_stop_the_step() {
    let mut sand_box = SandBox::new();
    sand_box.circles = vec![Circle::new(10, 40, 1), Circle::new(16, 40, -1)];
    assert!(sand_box.can_update(2));
    assert!(!sand_box.can_update(3));
    assert!(sand_box.can_update(4));
    sand_box.circles = vec![Circle::new(10, 40, 1), Circle::new(10, 40, 1)];
    assert!(!sand_box.can_update(0));
}

#[test]
fn the_last_count_of_steps_stops_the_step() {
    let mut sand_box = SandBox::new();
    sand_box.frame_count = u32::MAX;
    assert!(!sand_box.can_update(0));
    sand_box.frame_count = u32::MAX - 1;
    assert!(sand_box.can_update(0));
    sand_box.update(0);
    assert_eq!(sand_box.frame_count, u32::MAX);
}

#[test]
fn a_sandbox_without_circles_stays_blank() {
    let mut sand_box = SandBox::new();
    sand_box.circles = Vec::new();
    assert!(sand_box.can_update(7));
    sand_box.update(7);
    assert_eq!(sand_box.buffer, Canvas::new(128, 128));
    assert_eq!(sand_box.frame_count, 1);
}

#[test]
fn clear_blanks_the_canvas_and_keeps_the_rest() {
    let mut sand_box = SandBox::new();
    sand_box.update(2);
    sand_box.clear();
    assert_eq!(sand_box.buffer, Canvas::new(128, 128));
    assert_eq!(sand_box.frame_count, 1);
    assert_eq!(positions(&sand_box), vec![(22, 50), (52, 30), (27, 20), (88, 40), (83, 40)]);
}

#[test]
fn draw_maps_each_cell_through_the_palette() {
    let mut sand_box = SandBox::new();
    sand_box.update(0);
    let mut frame = vec![9u8; 128 * 128 * 4];
    sand_box.draw(&mut frame);
    assert_eq!(frame[0..4], [255, 255, 255, 0]);
    let circle = (50 * 128 + 20) * 4;
    assert_eq!(frame[circle..circle + 4], [0, 0, 0, 0]);
    let line = (7 * 128 + 64) * 4;
    assert_eq!(frame[line..line + 4], [0, 0, 0, 0]);
    let beside = (7 * 128 + 65) * 4;
    assert_eq!(frame[beside..beside + 4], [255, 255, 255, 0]);
    for (i, pixel) in frame.chunks_exact(4).enumerate() {
        assert_eq!(pixel, PALETTE[sand_box.buffer.cells[i]]);
    }
}

#[test]
fn draw_leaves_the_bytes_after_the_last_whole_pixel() {
    let mut sand_box = SandBox::new();
    let mut frame = vec![9u8; 11];
    sand_box.draw(&mut frame);
    assert_eq!(frame, vec![255, 255, 255, 0, 255, 255, 255, 0, 9, 9, 9]);
    let mut none: Vec<u8> = Vec::new();
    sand_box.draw(&mut none);
    assert_eq!(none.len(), 0);
}

#[test]
fn draw_leaves_the_sandbox_as_it_is() {
    let mut sand_box = SandBox::new();
    sand_box.update(1);
    let buffer = sand_box.buffer.clone();
    let circles = sand_box.circles.clone();
    let mut frame = vec![0u8; 64];
    sand_box.draw(&mut frame);
    assert_eq!(sand_box.buffer, buffer);
    assert_eq!(sand_box.circles, circles);
    assert_eq!(sand_box.frame_count, 1);
}

#[test]
fn show_takes_the_colour_of_each_cell() {
    let palette = [[1u8, 2, 3, 4], [5, 6, 7, 8], [9, 10, 11, 12]];
    let cells = vec![2usize, 0, 1, 1];
    let mut frame = vec![0u8; 14];
    show(&cells, &palette, &mut frame);
    assert_eq!(frame, vec![9, 10, 11, 12, 1, 2, 3, 4, 5, 6, 7, 8, 0, 0]);
}

#[test]
fn clearing_a_frame_makes_every_pixel_black_and_opaque() {
    let mut frame = vec![7u8; 10];
    _clear(&mut frame);
    assert_eq!(frame, vec![0, 0, 0, 255, 0, 0, 0, 255, 0, 0]);
    let mut none: Vec<u8> = Vec::new();
    _clear(&mut none);
    assert_eq!(none.len(), 0);
}

#[test]
fn a_sandbox_is_well_formed_after_each_step() {
    let mut sand_box = SandBox::new();
    assert!(sand_box.is_well_formed());
    sand_box.update(3);
    assert!(sand_box.is_well_formed());
    sand_box.clear();
    assert!(sand_box.is_well_formed());
}

#[test]
fn a_value_beyond_the_palette_makes_a_sandbox_ill_formed() {
    let mut sand_box = SandBox::new();
    sand_box.buffer.set(127, 127, 2);
    assert!(!sand_box.is_well_formed());
    sand_box.buffer.set(127, 127, 1);
    assert!(sand_box.is_well_formed());
    sand_box.circles.push(Circle { color: 2, ..Circle::new(1, 1, 1) });
    assert!(!sand_box.is_well_formed());
}

#[test]
fn a_canvas_of_other_extents_makes_a_sandbox_ill_formed() {
    let mut sand_box = SandBox::new();
    sand_box.buffer = Canvas::new(64, 256);
    assert!(!sand_box.is_well_formed());
    sand_box.buffer = Canvas::new(128, 128);
    sand_box.buffer.cells.pop();
    assert!(!sand_box.is_well_formed());
}
