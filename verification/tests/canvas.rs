use pixel_quadtree::canvas::{Canvas, BACKGROUND, BOUNDARY};

fn marked_cells(canvas: &Canvas) -> Vec<(u32, u32)> {
    let mut cells = Vec::new();
    for y in 0..canvas.height {
        for x in 0..canvas.width {
            if canvas.get(x, y) == BOUNDARY {
                cells.push((x, y));
            }
        }
    }
    cells
}

#[test]
fn a_new_canvas_is_blank() {
    let canvas = Canvas::new(7, 3);
    assert_eq!(canvas.width, 7);
    assert_eq!(canvas.height, 3);
    assert_eq!(canvas.cells, vec![BACKGROUND; 21]);
}

#[test]
fn a_canvas_without_extent_has_no_cells() {
    assert_eq!(Canvas::new(0, 5).cells.len(), 0);
    assert_eq!(Canvas::new(5, 0).cells.len(), 0);
}

#[test]
fn set_changes_one_cell_of_the_row_major_buffer() {
    let mut canvas = Canvas::new(4, 3);
    canvas.set(1, 2, 9);
    assert_eq!(canvas.get(1, 2), 9);
    assert_eq!(canvas.cells[2 * 4 + 1], 9);
    let others = canvas.cells.iter().filter(|value| **value == 0).count();
    assert_eq!(others, 11);
}

#[test]
fn set_reaches_the_corners() {
    let mut canvas = Canvas::new(4, 3);
    canvas.set(0, 0, 5);
    canvas.set(3, 2, 6);
    assert_eq!(canvas.cells[0], 5);
    assert_eq!(canvas.cells[11], 6);
    assert_eq!(canvas.get(3, 0), 0);
    assert_eq!(canvas.get(0, 2), 0);
}

#[test]
fn clear_sets_every_cell_back() {
    let mut canvas = Canvas::new(4, 3);
    canvas.set(1, 2, 9);
    canvas.set(3, 0, 1);
    canvas.clear();
    assert_eq!(canvas, Canvas::new(4, 3));
}

#[test]
fn a_cross_marks_the_middle_column_and_row() {
    let mut canvas = Canvas::new(4, 4);
    canvas.mark_cross(4, 4, (0, 0));
    assert_eq!(
        marked_cells(&canvas),
        vec![(2, 0), (2, 1), (0, 2), (1, 2), (2, 2), (3, 2), (2, 3)]
    );
}

#[test]
fn a_cross_of_odd_extents_uses_the_truncated_half() {
    let mut canvas = Canvas::new(5, 3);
    canvas.mark_cross(5, 3, (0, 0));
    assert_eq!(
        marked_cells(&canvas),
        vec![(2, 0), (0, 1), (1, 1), (2, 1), (3, 1), (4, 1), (2, 2)]
    );
}

#[test]
fn a_shifted_cross_stays_inside_its_region() {
    let mut canvas = Canvas::new(8, 8);
    canvas.mark_cross(2, 2, (5, 3));
    assert_eq!(marked_cells(&canvas), vec![(6, 3), (5, 4), (6, 4)]);
}

#[test]
fn a_cross_of_one_cell_marks_that_cell() {
    let mut canvas = Canvas::new(3, 3);
    canvas.mark_cross(1, 1, (1, 1));
    assert_eq!(marked_cells(&canvas), vec![(1, 1)]);
}

#[test]
fn a_cross_without_extent_marks_nothing() {
    let mut canvas = Canvas::new(3, 3);
    canvas.mark_cross(0, 0, (1, 1));
    canvas.mark_cross(0, 3, (0, 0));
    canvas.mark_cross(3, 0, (0, 0));
    assert_eq!(canvas, Canvas::new(3, 3));
}

#[test]
fn a_cross_keeps_what_it_does_not_mark() {
    let mut canvas = Canvas::new(4, 4);
    canvas.set(0, 0, 7);
    canvas.set(2, 2, 7);
    canvas.mark_cross(4, 4, (0, 0));
    assert_eq!(canvas.get(0, 0), 7);
    assert_eq!(canvas.get(2, 2), BOUNDARY);
}
