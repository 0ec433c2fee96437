use pixel_quadtree::fire::{QuadTree, COLOR_PALETTE};

#[test]
fn a_new_fire_burns_along_the_last_row() {
    let fire = QuadTree::new();
    assert_eq!(fire.buffer.width, 128);
    assert_eq!(fire.buffer.height, 128);
    for x in 0..128 {
        assert_eq!(fire.buffer.get(x, 127), 10);
        assert_eq!(fire.buffer.get(x, 126), 0);
        assert_eq!(fire.buffer.get(x, 0), 0);
    }
    let lit = fire.buffer.cells.iter().filter(|heat| **heat != 0).count();
    assert_eq!(lit, 128);
}

#[test]
fn the_heat_rises_one_row_and_cools_one_degree() {
    let mut fire = QuadTree::new();
    fire.propagate();
    for x in 0..128 {
        assert_eq!(fire.buffer.get(x, 127), 10);
        assert_eq!(fire.buffer.get(x, 126), 9);
        assert_eq!(fire.buffer.get(x, 125), 0);
    }
    fire.propagate();
    for x in 0..128 {
        assert_eq!(fire.buffer.get(x, 127), 10);
        assert_eq!(fire.buffer.get(x, 126), 9);
        assert_eq!(fire.buffer.get(x, 125), 8);
        assert_eq!(fire.buffer.get(x, 124), 0);
    }
}

#[test]
fn the_heat_is_gone_after_ten_rows() {
    let mut fire = QuadTree::new();
    for _ in 0..20 {
        fire.propagate();
    }
    for row in 0..11 {
        assert_eq!(fire.buffer.get(64, 127 - row), (10 - row) as usize);
    }
    assert_eq!(fire.buffer.get(64, 116), 0);
    assert_eq!(fire.buffer.get(64, 0), 0);
}

#[test]
fn each_cell_takes_the_heat_of_the_cell_below_it() {
    let mut fire = QuadTree::new();
    fire.buffer.set(5, 60, 7);
    fire.buffer.set(6, 60, 1);
    fire.buffer.set(5, 59, 3);
    fire.propagate();
    assert_eq!(fire.buffer.get(5, 59), 6);
    assert_eq!(fire.buffer.get(6, 59), 0);
    assert_eq!(fire.buffer.get(5, 58), 2);
    assert_eq!(fire.buffer.get(5, 60), 0);
    assert_eq!(fire.buffer.get(4, 59), 0);
}

#[test]
fn the_first_row_is_replaced_and_the_last_is_kept() {
    let mut fire = QuadTree::new();
    fire.buffer.set(0, 0, 9);
    fire.buffer.set(127, 1, 4);
    fire.propagate();
    assert_eq!(fire.buffer.get(0, 0), 0);
    assert_eq!(fire.buffer.get(127, 0), 3);
    assert_eq!(fire.buffer.get(127, 1), 0);
    assert_eq!(fire.buffer.get(0, 127), 10);
}

#[test]
fn draw_shows_the_fire_and_then_lets_it_rise() {
    let mut fire = QuadTree::new();
    let mut screen = vec![1u8; 128 * 128 * 4];
    fire.draw(&mut screen);
    assert_eq!(screen[0..4], COLOR_PALETTE[0]);
    let last_row = 127 * 128 * 4;
    assert_eq!(screen[last_row..last_row + 4], [255, 255, 255, 0]);
    let above = 126 * 128 * 4;
    assert_eq!(screen[above..above + 4], [3, 7, 30, 0]);
    assert_eq!(fire.buffer.get(0, 126), 9);
    fire.draw(&mut screen);
    assert_eq!(screen[above..above + 4], [255, 186, 8, 0]);
    assert_eq!(fire.buffer.get(0, 125), 8);
}

#[test]
fn draw_on_a_short_screen_shows_the_first_cells() {
    let mut fire = QuadTree::new();
    fire.buffer.set(1, 0, 4);
    let mut screen = vec![1u8; 9];
    fire.draw(&mut screen);
    assert_eq!(screen, vec![3, 7, 30, 0, 208, 0, 0, 0, 1]);
}

#[test]
fn the_palette_has_eleven_colours() {
    assert_eq!(COLOR_PALETTE.len(), 11);
    assert_eq!(COLOR_PALETTE[5], [220, 47, 2, 0]);
}
