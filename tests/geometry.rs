use mycelium::grid::{diffusion_region, disk_cells, ObstacleMask, Region};
use mycelium::spatial::SpatialIndex;

#[test]
fn spatial_index_buckets_and_window() {
    let mut idx = SpatialIndex::new(4, 4);
    idx.rebuild(&vec![Some((0, 0)), Some((1, 1)), None, Some((3, 3)), Some((1, 1)), Some((9, 0))]);
    assert_eq!(idx.neighbors(0, 0, 0, 0), vec![0]);
    assert_eq!(idx.neighbors(1, 1, 1, 1), vec![1, 4]);
    assert_eq!(idx.neighbors(-1, 1, -1, 1), vec![0, 1, 4]);
    assert_eq!(idx.neighbors(2, 5, 2, 5), vec![3]);
    assert_eq!(idx.neighbors(5, 9, 0, 3), Vec::<usize>::new());
    idx.rebuild(&vec![Some((2, 2))]);
    assert_eq!(idx.neighbors(0, 3, 0, 3), vec![0]);
}

#[test]
fn region_is_padded_bounding_box() {
    let r = diffusion_region(&vec![(50, 60), (70, 40), (0, 5)], 100, 6);
    assert_eq!(r, Region { x0: 44, x1: 76, y0: 34, y1: 66 });
    let m = r.with_margin(100);
    assert_eq!(m, Region { x0: 43, x1: 77, y0: 33, y1: 67 });
}

#[test]
fn region_is_clipped_off_border() {
    let r = diffusion_region(&vec![(2, 97)], 100, 6);
    assert_eq!(r, Region { x0: 1, x1: 8, y0: 91, y1: 98 });
}

#[test]
fn region_without_hyphae_is_empty() {
    let r = diffusion_region(&vec![], 200, 6);
    assert!(r.x0 > r.x1 && r.y0 > r.y1);
}

#[test]
fn patch_disk_is_strict_radius_three() {
    let cells = disk_cells(10, 10, 3, true, 0, 100, true);
    // 25 offsets have dx*dx + dy*dy < 9
    assert_eq!(cells.len(), 25);
    assert!(cells.iter().all(|c| c.dist_sq < 9));
    assert_eq!((cells[0].x, cells[0].y), (8, 8));
}

#[test]
fn clamped_patch_repeats_border_cells() {
    let cells = disk_cells(0, 0, 3, true, 0, 100, true);
    assert_eq!(cells.len(), 25);
    assert!(cells.iter().all(|c| c.x <= 2 && c.y <= 2));
    assert_eq!(cells.iter().filter(|c| c.x == 0 && c.y == 0).count(), 9);
}

#[test]
fn skipped_disk_drops_outside_cells() {
    let cells = disk_cells(1, 1, 2, false, 1, 9, false);
    // offsets within radius 2 (13 of them) with both coordinates at least 1
    assert_eq!(cells.len(), 6);
    assert_eq!(cells[0].dist_sq, 0);
}

#[test]
fn obstacles_block_fruit_sites() {
    let mut m = ObstacleMask::new(10);
    assert!(m.can_host_fruit(5, 5));
    m.place(5, 5);
    m.place(20, 20);
    assert!(m.is_blocked(5, 5));
    assert!(!m.is_blocked(20, 20));
    assert!(!m.can_host_fruit(5, 5));
    assert!(!m.can_host_fruit(0, 5));
    assert!(!m.can_host_fruit(9, 5));
    assert!(m.can_host_fruit(8, 8));
}
