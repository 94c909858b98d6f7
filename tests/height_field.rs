use terrain_gen::map_data::{BitImage, MapError, NORM_ONE};

fn field(unit_count: usize) -> BitImage {
    BitImage::new(unit_count)
}

#[test]
fn new_field_is_flat_and_sized() {
    let m = field(4);
    assert_eq!(m.edge_size(), 5);
    assert_eq!(m.max_height(), 0);
    assert_eq!(m.min_height(), 0);
    for y in 0..5 {
        for x in 0..5 {
            assert_eq!(m.get(x, y), Ok(0));
        }
    }
    assert_eq!(m.get_heightmap().len(), 25);
}

#[test]
fn point_set_then_get_round_trips() {
    let mut m = field(3);
    for (x, y, v) in [(0, 0, 7), (3, 3, -12), (1, 2, i32::MAX), (2, 1, i32::MIN)] {
        assert_eq!(m.point_set(x, y, v), Ok(()));
        assert_eq!(m.get(x, y), Ok(v));
    }
}

#[test]
fn strict_accessors_fail_out_of_bounds() {
    let mut m = field(2);
    assert_eq!(m.get(3, 0), Err(MapError::OutOfBounds { x: 3, y: 0, edge_size: 3 }));
    assert_eq!(m.get(0, 3), Err(MapError::OutOfBounds { x: 0, y: 3, edge_size: 3 }));
    assert_eq!(m.get_normalized(9, 9), Err(MapError::OutOfBounds { x: 9, y: 9, edge_size: 3 }));
    let before = m.get_heightmap();
    assert_eq!(
        m.point_set(usize::MAX, 1, 5),
        Err(MapError::OutOfBounds { x: usize::MAX, y: 1, edge_size: 3 })
    );
    assert_eq!(m.get_heightmap(), before);
    assert_eq!(m.max_height(), 0);
}

#[test]
fn tolerant_accessors_default_out_of_bounds() {
    let mut m = field(2);
    m.point_set(1, 1, 4).unwrap();
    assert_eq!(m.get_ignore(1, 1), 4);
    assert_eq!(m.get_ignore(3, 1), 0);
    let before = m.get_heightmap();
    m.point_raise(5, 5, 100);
    m.point_raise(usize::MAX, usize::MAX, 100);
    assert_eq!(m.get_heightmap(), before);
    assert_eq!(m.max_height(), 4);
    assert_eq!(m.min_height(), 0);
}

#[test]
fn point_raise_adds_and_saturates() {
    let mut m = field(2);
    m.point_raise(1, 0, 5);
    m.point_raise(1, 0, 6);
    assert_eq!(m.get(1, 0), Ok(11));
    m.point_set(0, 0, i32::MAX - 1).unwrap();
    m.point_raise(0, 0, 10);
    assert_eq!(m.get(0, 0), Ok(i32::MAX));
    m.point_set(2, 2, i32::MIN + 1).unwrap();
    m.point_raise(2, 2, -10);
    assert_eq!(m.get(2, 2), Ok(i32::MIN));
    assert_eq!(m.min_height(), i32::MIN);
}

#[test]
fn running_bounds_never_shrink() {
    let mut m = field(2);
    m.point_set(0, 0, 50).unwrap();
    m.point_set(1, 1, -20).unwrap();
    assert_eq!((m.max_height(), m.min_height()), (50, -20));
    m.point_set(0, 0, 0).unwrap();
    m.point_set(1, 1, 0).unwrap();
    assert_eq!((m.max_height(), m.min_height()), (50, -20));
    m.point_raise(2, 2, 70);
    assert_eq!((m.max_height(), m.min_height()), (70, -20));
    m.point_raise(2, 2, -100);
    assert_eq!((m.max_height(), m.min_height()), (70, -30));
}

#[test]
fn neighbors_in_scan_order() {
    let m = field(2);
    assert_eq!(
        m.get_neighbors(1, 1),
        vec![(0, 0), (1, 0), (2, 0), (0, 1), (2, 1), (0, 2), (1, 2), (2, 2)]
    );
    assert_eq!(m.get_neighbors(0, 0), vec![(1, 0), (0, 1), (1, 1)]);
    assert_eq!(m.get_neighbors(2, 1), vec![(1, 0), (2, 0), (1, 1), (1, 2), (2, 2)]);
    assert_eq!(m.get_neighbors(3, 3), vec![(2, 2)]);
}

#[test]
fn neighbor_raise_at_corner_and_centre() {
    let mut m = field(2);
    m.neighbor_raise(0, 0, 2);
    assert_eq!(m.get_heightmap(), vec![0, 2, 0, 2, 2, 0, 0, 0, 0]);
    let mut m = field(2);
    m.neighbor_raise(1, 1, 3);
    assert_eq!(m.get_heightmap(), vec![3, 3, 3, 3, 0, 3, 3, 3, 3]);
    assert_eq!(m.max_height(), 3);
}

#[test]
fn compare_to_neighbors_follows_the_predicate() {
    let mut m = field(2);
    m.point_set(2, 0, 5).unwrap();
    m.point_set(0, 2, 7).unwrap();
    m.point_set(2, 2, 6).unwrap();
    assert_eq!(m.compare_to_neighbors(1, 1, |a, b| a > b), Some((0, 2)));
    assert_eq!(m.steepest_ascent(1, 1), Some((0, 2)));
    assert_eq!(m.compare_to_neighbors(1, 1, |a, b| a < b), None);
    m.point_set(1, 1, 9).unwrap();
    assert_eq!(m.steepest_ascent(1, 1), None);
    assert_eq!(m.compare_to_neighbors(1, 1, |a, b| a < b), Some((0, 0)));
}

#[test]
fn normalized_heights() {
    let mut m = field(2);
    assert_eq!(m.get_normalized(1, 1), Ok(0));
    m.point_set(0, 0, 10).unwrap();
    m.point_set(1, 0, -10).unwrap();
    assert_eq!(m.get_normalized(0, 0), Ok(NORM_ONE));
    assert_eq!(m.get_normalized(1, 0), Ok(0));
    assert_eq!(m.get_normalized(2, 2), Ok(32768));
}

#[test]
fn rgba_preview_is_grey_and_opaque() {
    let mut m = field(1);
    m.point_set(0, 0, 10).unwrap();
    m.point_set(1, 0, -10).unwrap();
    let img = m.convert_to_rgba();
    assert_eq!(img, vec![255, 255, 255, 255, 0, 0, 0, 255, 127, 127, 127, 255, 127, 127, 127, 255]);
    let flat = field(1).convert_to_rgba();
    assert_eq!(flat, vec![0, 0, 0, 255, 0, 0, 0, 255, 0, 0, 0, 255, 0, 0, 0, 255]);
}

#[test]
fn heightmap_walks() {
    let mut m = field(1);
    m.point_set(1, 0, 4).unwrap();
    m.point_set(0, 1, -4).unwrap();
    let mut it = m.get_heightmap_iter();
    assert_eq!(it.next(), Some(0));
    assert_eq!(it.next(), Some(4));
    assert_eq!(it.next(), Some(-4));
    assert_eq!(it.next(), Some(0));
    assert_eq!(it.next(), None);
    assert_eq!(it.next(), None);
    let mut it = m.get_heightmap_norm_iter();
    assert_eq!(it.next(), Some(32768));
    assert_eq!(it.next(), Some(NORM_ONE));
    assert_eq!(it.next(), Some(0));
    assert_eq!(it.next(), Some(32768));
    assert_eq!(it.next(), None);
}

#[test]
fn reduce_neighbors_folds_in_scan_order() {
    let mut m = field(2);
    m.point_set(0, 0, 1).unwrap();
    m.point_set(2, 0, 2).unwrap();
    m.point_set(1, 1, 50).unwrap();
    m.point_set(2, 2, 3).unwrap();
    let (count, sum) = m.reduce_neighbors(1, 1, (0u32, 0i64), |(c, s), v| (c + 1, s + v as i64));
    assert_eq!((count, sum), (8, 6));
    let order = m.reduce_neighbors(0, 0, Vec::new(), |mut acc: Vec<i32>, v| {
        acc.push(v);
        acc
    });
    assert_eq!(order, vec![0, 0, 50]);
}
