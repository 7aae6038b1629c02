use lifeview::grid::{carry_over_cells, kernels_feeding, kernels_into, sample_offset, GenerationType, Grid};
use lifeview::vector::IVec2;

#[test]
fn grid_idx_to_vector() {
    let grid = Grid::new(100, 50);

    assert_eq!(grid.idx_to_vector(0), IVec2::new(0, 0));
    assert_eq!(grid.idx_to_vector(100), IVec2::new(0, 1));
    assert_eq!(grid.idx_to_vector(101), IVec2::new(1, 1));
    assert_eq!(grid.idx_to_vector(1010), IVec2::new(10, 10));
}

#[test]
fn grid_vector_to_idx() {
    let grid = Grid::new(100, 50);

    assert_eq!(grid.vector_to_idx(IVec2::new(0, 0)), 0);
    assert_eq!(grid.vector_to_idx(IVec2::new(0, 1)), 100);
    assert_eq!(grid.vector_to_idx(IVec2::new(1, 1)), 101);
    assert_eq!(grid.vector_to_idx(IVec2::new(10, 10)), 1010);
}

#[test]
fn grid_wrap_pos() {
    let grid = Grid::new(100, 50);

    assert_eq!(grid.wrap_pos(IVec2::new(0, 0)), IVec2::new(0, 0));
    assert_eq!(grid.wrap_pos(IVec2::new(-1, 0)), IVec2::new(99, 0));
    assert_eq!(grid.wrap_pos(IVec2::new(-1, -1)), IVec2::new(99, 49));
    assert_eq!(grid.wrap_pos(IVec2::new(0, -1)), IVec2::new(0, 49));
}

#[test]
fn new_grid_is_paused_and_random() {
    let grid = Grid::new(7, 3);
    assert_eq!(grid.width, 7);
    assert_eq!(grid.height, 3);
    assert!(grid.paused);
    assert_eq!(grid.generation_type, GenerationType::RANDOM);
}

#[test]
fn idx_to_vector_negative_index_truncates() {
    let grid = Grid::new(100, 50);
    assert_eq!(grid.idx_to_vector(-1), IVec2::new(-1, 0));
    assert_eq!(grid.idx_to_vector(-101), IVec2::new(-1, -1));
}

#[test]
fn vector_to_idx_keeps_row_unwrapped() {
    let grid = Grid::new(100, 50);
    assert_eq!(grid.vector_to_idx(IVec2::new(105, 2)), 205);
    assert_eq!(grid.vector_to_idx(IVec2::new(-3, 2)), 197);
    assert_eq!(grid.vector_to_idx(IVec2::new(0, 60)), 6000);
}

#[test]
fn index_position_roundtrip_on_every_cell() {
    let grid = Grid::new(13, 7);
    for i in 0..(13 * 7) {
        let p = grid.idx_to_vector(i);
        assert!(p.x >= 0 && p.x < 13 && p.y >= 0 && p.y < 7);
        assert_eq!(grid.vector_to_idx(p), i);
    }
}

#[test]
fn wrap_pos_fixes_and_periodic() {
    let grid = Grid::new(10, 4);
    assert_eq!(grid.wrap_pos(IVec2::new(3, 2)), IVec2::new(3, 2));
    assert_eq!(grid.wrap_pos(IVec2::new(13, 2)), IVec2::new(3, 2));
    assert_eq!(grid.wrap_pos(IVec2::new(3, 6)), IVec2::new(3, 2));
    assert_eq!(grid.wrap_pos(IVec2::new(-10, -4)), IVec2::new(0, 0));
    assert_eq!(grid.wrap_pos(IVec2::new(19, 7)), IVec2::new(9, 3));
}

#[test]
fn wrap_pos_below_one_period_stays_negative() {
    let grid = Grid::new(10, 4);
    assert_eq!(grid.wrap_pos(IVec2::new(-15, -6)), IVec2::new(-5, -2));
}

#[test]
fn neighbour_index_wraps_around_the_torus() {
    let grid = Grid::new(10, 4);
    assert_eq!(grid.neighbour_index(IVec2::new(0, 0), IVec2::new(-1, -1)), 39);
    assert_eq!(grid.neighbour_index(IVec2::new(9, 3), IVec2::new(1, 1)), 0);
    assert_eq!(grid.neighbour_index(IVec2::new(4, 1), IVec2::new(2, 0)), 16);
    assert_eq!(grid.neighbour_index(IVec2::new(0, 0), IVec2::new(-10, 0)), 0);
}

#[test]
fn pause_toggles_and_twice_restores() {
    let mut grid = Grid::new(5, 5);
    assert!(grid.paused);
    grid.pause();
    assert!(!grid.paused);
    grid.pause();
    assert!(grid.paused);
    assert_eq!(grid.width, 5);
}

#[test]
fn shape_targets_place_around_centre() {
    let grid = Grid::new(10, 4);
    let pos = vec![IVec2::new(0, 0), IVec2::new(1, -1), IVec2::new(-6, 0), IVec2::new(0, 2)];
    let t = grid.shape_targets(&pos, 4, 1);
    assert_eq!(t, vec![Some((25, 0)), Some((16, 0)), Some((19, 0)), None]);
}

#[test]
fn shape_targets_spread_over_channels() {
    let grid = Grid::new(2, 1);
    let pos = vec![IVec2::new(-1, 0), IVec2::new(-1, 0), IVec2::new(0, 0), IVec2::new(0, 0)];
    let t = grid.shape_targets(&pos, 4, 2);
    assert_eq!(t, vec![Some((0, 0)), Some((0, 1)), Some((1, 0)), Some((1, 1))]);
    let t = grid.shape_targets(&pos, 3, 2);
    assert_eq!(t, vec![Some((0, 0)), Some((0, 0)), Some((1, 0))]);
}

#[test]
fn shape_targets_negative_index_skipped() {
    let grid = Grid::new(4, 4);
    let t = grid.shape_targets(&vec![IVec2::new(0, -3)], 1, 1);
    assert_eq!(t, vec![None]);
}

#[test]
fn kernel_offsets_radius_one_and_two() {
    let k = lifeview::grid::kernel_offsets(1);
    assert_eq!(k, vec![IVec2::new(-1, 0), IVec2::new(0, -1), IVec2::new(0, 1), IVec2::new(1, 0)]);
    let k = lifeview::grid::kernel_offsets(2);
    assert_eq!(k.len(), 12);
    assert!(!k.contains(&IVec2::new(0, 0)));
    for p in &k {
        assert!(k.contains(&IVec2::new(-p.x, p.y)));
        assert!(k.contains(&IVec2::new(p.y, p.x)));
    }
}

#[test]
fn kernels_feeding_counts_at_least_one() {
    let targets = vec![0, 1, 1, 2, 1];
    assert_eq!(kernels_feeding(&targets, 1), 3);
    assert_eq!(kernels_feeding(&targets, 0), 1);
    assert_eq!(kernels_feeding(&targets, 5), 1);
    assert_eq!(kernels_feeding(&Vec::new(), 0), 1);
}

#[test]
fn carry_over_cells_keeps_overlap() {
    // 2 x 2 grid, 1 channel: [a b / c d] -> 3 x 1
    let old = vec![1u8, 2, 3, 4];
    let new = carry_over_cells(&old, 2, 2, 3, 1, 1, 0u8);
    assert_eq!(new, vec![1, 2, 0]);
    let new = carry_over_cells(&old, 2, 2, 1, 3, 1, 9u8);
    assert_eq!(new, vec![1, 3, 9]);
}

#[test]
fn carry_over_cells_with_channels_and_short_buffer() {
    let old = vec![10u16, 11, 20, 21, 30];
    let new = carry_over_cells(&old, 2, 2, 2, 2, 2, 0u16);
    assert_eq!(new, vec![10, 11, 20, 21, 30, 0, 0, 0]);
}

#[test]
fn sample_offset_clamps_to_border() {
    assert_eq!(sample_offset(4, 3, 1, 0, -1, -1), 0);
    assert_eq!(sample_offset(4, 3, 1, 0, 5, 1), 7);
    assert_eq!(sample_offset(4, 3, 2, 1, 2, 9), (2 * 4 + 2) * 2 + 1);
}

#[test]
fn carry_over_cells_every_position_defined() {
    let old: Vec<i32> = (0..12).collect();
    // 3 x 2 grid with 2 channels -> 2 x 3 grid with 2 channels
    let new = carry_over_cells(&old, 3, 2, 2, 3, 2, -1);
    assert_eq!(new, vec![0, 1, 2, 3, 6, 7, 8, 9, -1, -1, -1, -1]);
}

#[test]
fn new_grid_without_cells_keeps_its_sides() {
    let grid = Grid::new(0, 5);
    assert_eq!(grid.width, 0);
    assert_eq!(grid.height, 5);
    assert!(grid.paused);
}

#[test]
fn kernels_into_lists_feeding_kernels_in_order() {
    let targets = vec![0, 1, 1, 2, 1];
    assert_eq!(kernels_into(&targets, 1), vec![1, 2, 4]);
    assert_eq!(kernels_into(&targets, 0), vec![0]);
    assert_eq!(kernels_into(&targets, 3), Vec::<usize>::new());
}
