use msbg::render::{exit_axis, paint, slice_point, BlockCursor, SliceAxis};

#[test]
fn slices_fix_one_coordinate() {
    assert_eq!(slice_point(SliceAxis::X, 1.0, 2.0, 9.0), (9.0, 1.0, 2.0));
    assert_eq!(slice_point(SliceAxis::Y, 1.0, 2.0, 9.0), (1.0, 9.0, 2.0));
    assert_eq!(slice_point(SliceAxis::Z, 1.0, 2.0, 9.0), (1.0, 2.0, 9.0));
}

#[test]
fn pixels_lie_row_by_row() {
    let img = paint(3, 2, &|x: usize, y: usize| [x as u8, y as u8, 7, 255]);
    assert_eq!(img.len(), 24);
    for y in 0..2 {
        for x in 0..3 {
            let at = 4 * (y * 3 + x);
            assert_eq!(img[at..at + 4], [x as u8, y as u8, 7, 255]);
        }
    }
    assert!(paint(0, 5, &|_, _| [1; 4]).is_empty());
    assert!(paint(5, 0, &|_, _| [1; 4]).is_empty());
}

#[test]
fn cursor_enters_in_the_nearest_block() {
    let c = BlockCursor::enter(-3, 1, 99, 4, 3, 2);
    assert_eq!((c.x, c.y, c.z), (0, 1, 1));
    assert!(c.in_bounds());
    assert_eq!(c.bid(), 16);
}

#[test]
fn cursor_leaves_on_every_side() {
    for axis in 0..3 {
        for step in [-1, 1] {
            let mut c = BlockCursor::enter(1, 1, 1, 3, 3, 3);
            c.advance(axis, step);
            assert!(c.in_bounds());
            c.advance(axis, step);
            assert!(!c.in_bounds());
        }
    }
}

// The walk along a diagonal takes no more than one move per block along each axis.
#[test]
fn walk_ends() {
    let mut c = BlockCursor::enter(0, 2, 0, 4, 3, 2);
    let mut moves = 0;
    while c.in_bounds() {
        match moves % 3 {
            0 => c.advance(0, 1),
            1 => c.advance(1, -1),
            _ => c.advance(2, 1),
        }
        moves += 1;
    }
    assert!(moves <= 4 + 3 + 2);
    assert_eq!(moves, 6);
}

#[test]
fn nearest_side_wins_and_ties_go_to_the_first_axis() {
    let axis = |x: u8, y: u8, z: u8| exit_axis(x <= y, x <= z, y <= z);
    assert_eq!(axis(1, 2, 3), 0);
    assert_eq!(axis(2, 1, 3), 1);
    assert_eq!(axis(3, 2, 1), 2);
    assert_eq!(axis(1, 1, 1), 0);
    assert_eq!(axis(2, 1, 1), 1);
    assert_eq!(axis(1, 2, 1), 0);
}
