use terrain_gen::map_data::{BitImage, MapError};
use terrain_gen::map_mutators::{average_by_neighbor, mean_of_neighbors, write_samples, zero_edges, Area, ReverseRain};
use terrain_gen::randstruct::RandStruct;

#[test]
fn averaging_reads_the_field_before_the_pass() {
    let mut m = BitImage::new(2);
    m.point_set(1, 1, 9).unwrap();
    assert_eq!(mean_of_neighbors(&m, 0, 0), 3);
    assert_eq!(average_by_neighbor(&mut m, Area::full(2)), Ok(()));
    assert_eq!(m.get_heightmap(), vec![3, 1, 3, 1, 0, 1, 3, 1, 3]);
    assert_eq!(m.max_height(), 9);
}

#[test]
fn averaging_rounds_toward_zero() {
    let mut m = BitImage::new(2);
    m.point_set(1, 1, -9).unwrap();
    average_by_neighbor(&mut m, Area::full(2)).unwrap();
    assert_eq!(m.get_heightmap(), vec![-3, -1, -3, -1, 0, -1, -3, -1, -3]);
}

#[test]
fn averaging_part_of_the_field() {
    let mut m = BitImage::new(2);
    m.point_set(1, 1, 9).unwrap();
    let area = Area { left: 0, top: 0, right: 0, bottom: 2 };
    average_by_neighbor(&mut m, area).unwrap();
    assert_eq!(m.get_heightmap(), vec![3, 0, 0, 1, 9, 0, 3, 0, 0]);
}

#[test]
fn averaging_a_single_cell_field_keeps_it() {
    let mut m = BitImage::new(0);
    m.point_set(0, 0, 5).unwrap();
    average_by_neighbor(&mut m, Area::full(0)).unwrap();
    assert_eq!(m.get(0, 0), Ok(5));
}

#[test]
fn passes_refuse_areas_outside_the_field() {
    let mut m = BitImage::new(2);
    m.point_set(1, 1, 9).unwrap();
    let before = m.get_heightmap();
    let area = Area { left: 0, top: 0, right: 3, bottom: 2 };
    let err = Err(MapError::OutOfBounds { x: 3, y: 2, edge_size: 3 });
    assert_eq!(average_by_neighbor(&mut m, area), err);
    assert_eq!(zero_edges(&mut m, area), err);
    let samples = vec![vec![1; 4]; 3];
    assert_eq!(write_samples(&mut m, area, &samples), err);
    assert_eq!(m.get_heightmap(), before);
}

#[test]
fn zero_edges_clears_the_ring() {
    let mut m = BitImage::new(3);
    for y in 0..4 {
        for x in 0..4 {
            m.point_set(x, y, 1).unwrap();
        }
    }
    zero_edges(&mut m, Area { left: 0, top: 0, right: 2, bottom: 2 }).unwrap();
    assert_eq!(
        m.get_heightmap(),
        vec![0, 0, 0, 1, 0, 1, 0, 1, 0, 0, 0, 1, 1, 1, 1, 1]
    );
    assert_eq!(m.max_height(), 1);
}

#[test]
fn samples_overwrite_the_area() {
    let mut m = BitImage::new(2);
    m.point_set(0, 0, 8).unwrap();
    let samples = vec![vec![1, 2], vec![3, 4]];
    write_samples(&mut m, Area { left: 1, top: 1, right: 2, bottom: 2 }, &samples).unwrap();
    assert_eq!(m.get_heightmap(), vec![8, 0, 0, 0, 1, 2, 0, 3, 4]);
}

#[test]
fn droplet_new_and_merge() {
    let a = ReverseRain::new(2, 3, 10);
    assert_eq!((a.x, a.y, a.strength, a.next_coords), (2, 3, 10, Some((2, 3))));
    let b = ReverseRain::new(0, 0, 5);
    let m = ReverseRain::merge(a, b);
    assert_eq!((m.x, m.y, m.strength, m.next_coords), (2, 3, 15, None));
    let big = ReverseRain::merge(ReverseRain::new(0, 0, i32::MAX), b);
    assert_eq!(big.strength, i32::MAX);
}

fn gradient(unit_count: usize) -> BitImage {
    let mut m = BitImage::new(unit_count);
    for y in 0..=unit_count {
        for x in 0..=unit_count {
            m.point_set(x, y, (x + y) as i32).unwrap();
        }
    }
    m
}

#[test]
fn check_plans_against_one_snapshot_then_mutate_moves() {
    let mut m = gradient(4);
    let mut drops = vec![ReverseRain::new(0, 0, 4), ReverseRain::new(4, 4, 4)];
    ReverseRain::run_check(&mut drops, &m);
    assert_eq!(drops[0].next_coords, Some((1, 1)));
    assert_eq!(drops[1].next_coords, None);
    ReverseRain::run_mutate(&mut drops, &mut m);
    assert_eq!(drops.len(), 1);
    assert_eq!((drops[0].x, drops[0].y), (1, 1));
    assert_eq!(m.get(1, 1), Ok(2 + 4));
    assert_eq!(m.get(0, 0), Ok(0 + 2));
    assert_eq!(m.get(2, 2), Ok(4 + 2));
    assert_eq!(m.get(3, 3), Ok(6));
}

#[test]
fn droplets_climb_and_retire_on_small_grid() {
    let mut m = gradient(4);
    let mut drops = vec![ReverseRain::new(0, 0, 1), ReverseRain::new(4, 0, 1), ReverseRain::new(2, 2, 1)];
    let ticks = ReverseRain::simulate(&mut drops, &mut m, 100);
    assert!(drops.is_empty());
    assert!(ticks < 100);
    assert!(m.get(4, 4).unwrap() > 8);
}

#[test]
fn random_droplets_retire_within_cap() {
    let mut rand = RandStruct::new(1_600_000_000);
    let mut m = gradient(4);
    let mut drops = ReverseRain::spawn_batch(&mut rand, Area::full(4), 50, 1);
    assert_eq!(drops.len(), 50);
    for d in &drops {
        assert!(d.x <= 4 && d.y <= 4);
        assert_eq!(d.strength, 1);
        assert_eq!(d.next_coords, Some((d.x, d.y)));
    }
    let ticks = ReverseRain::simulate(&mut drops, &mut m, 1000);
    assert!(drops.is_empty());
    assert!(ticks < 1000);
}

#[test]
fn tick_cap_stops_simulation() {
    let mut m = gradient(4);
    let mut drops = vec![ReverseRain::new(0, 0, 1)];
    let ticks = ReverseRain::simulate(&mut drops, &mut m, 2);
    assert_eq!(ticks, 2);
    assert_eq!(drops.len(), 1);
    assert_eq!((drops[0].x, drops[0].y), (2, 2));
}

#[test]
fn random_source_is_reproducible() {
    let mut a = RandStruct::new(42);
    let mut b = RandStruct::new(42);
    assert_eq!(a.map_seed(), b.map_seed());
    assert!(a.map_seed() <= 2 * u32::MAX as u64);
    for _ in 0..10 {
        assert_eq!(a.get_map_u32(), b.get_map_u32());
        let r = a.get_map_range(3, 7);
        assert_eq!(r, b.get_map_range(3, 7));
        assert!((3..=7).contains(&r));
    }
    a.randomize_map();
    b.randomize_map();
    assert_eq!(a.map_seed(), b.map_seed());
    let c = RandStruct::new(43);
    assert_ne!(c.map_seed(), RandStruct::new(42).map_seed());
}
