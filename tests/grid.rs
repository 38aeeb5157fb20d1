use lbm_flow::grid::{cell_index_of, next_pos};

#[test]
fn flat_index_has_dimension_zero_fastest() {
    let size = [4usize, 3usize];
    assert_eq!(cell_index_of(&[0, 0], &size), 0);
    assert_eq!(cell_index_of(&[3, 0], &size), 3);
    assert_eq!(cell_index_of(&[0, 1], &size), 4);
    assert_eq!(cell_index_of(&[3, 2], &size), 11);
}

#[test]
fn odometer_sweeps_every_cell_in_index_order() {
    let size = [4usize, 3usize];
    let mut pos = [0usize, 0usize];
    let mut visited = vec![cell_index_of(&pos, &size)];
    while next_pos(&mut pos, &[true, true], &size) {
        visited.push(cell_index_of(&pos, &size));
    }
    assert_eq!(visited, (0..12).collect::<Vec<usize>>());
    // after the last position every enabled dimension is back at zero
    assert_eq!(pos, [0, 0]);
}

#[test]
fn odometer_sweeps_a_boundary_hyperplane() {
    let size = [4usize, 3usize];
    let mut pos = [3usize, 0usize];
    let mut visited = vec![pos];
    while next_pos(&mut pos, &[false, true], &size) {
        visited.push(pos);
    }
    assert_eq!(visited, vec![[3, 0], [3, 1], [3, 2]]);
    assert_eq!(pos, [3, 0]);
}
