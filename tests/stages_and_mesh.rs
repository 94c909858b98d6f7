use terrain_gen::app_state::{AppEvent, AppState};
use terrain_gen::fractal::{process_region, FractalRegion, FractalSubdivider};
use terrain_gen::gen_run::{GenStep, Tracker, PROGRESS_ONE};
use terrain_gen::map_data::BitImage;
use terrain_gen::pipeline::Generation;
use terrain_gen::randstruct::RandStruct;
use terrain_gen::terrain::{diagonal_image, normal_owners, triangle_indices};

#[test]
fn whole_stage_of_progress_advances_once() {
    let mut t = Tracker::default();
    assert_eq!((t.current_stage, t.current_step_progress, t.max_stage), (0, 0, 6));
    t.add_progress(PROGRESS_ONE);
    assert_eq!((t.current_stage, t.current_step_progress), (1, 0));
}

#[test]
fn partial_progress_accumulates_then_advances_one_stage() {
    let mut t = Tracker::default();
    for _ in 0..3 {
        t.add_progress(300);
    }
    assert_eq!((t.current_stage, t.current_step_progress), (0, 900));
    t.add_progress(300);
    assert_eq!((t.current_stage, t.current_step_progress), (1, 0));
    t.add_progress(100 * PROGRESS_ONE);
    assert_eq!((t.current_stage, t.current_step_progress), (2, 0));
    t.add_progress(u32::MAX);
    assert_eq!((t.current_stage, t.current_step_progress), (3, 0));
}

#[test]
fn progress_percent_and_reset() {
    let mut t = Tracker::default();
    assert_eq!(t.progress_percent(), 0);
    t.add_progress(PROGRESS_ONE);
    t.add_progress(PROGRESS_ONE);
    t.add_progress(500);
    assert_eq!(t.progress_percent(), 41);
    t.current_stage = 9;
    assert_eq!(t.progress_percent(), 100);
    t.reset();
    assert_eq!((t.current_stage, t.current_step_progress, t.max_stage), (0, 0, 6));
    let none = Tracker { current_stage: 0, current_step_progress: 0, max_stage: 0 };
    assert_eq!(none.progress_percent(), 100);
}

#[test]
fn stage_dispatch_table() {
    let mut t = Tracker::default();
    let expected = [
        GenStep::WarmUp,
        GenStep::Noise,
        GenStep::Fractal,
        GenStep::Erosion,
        GenStep::Smoothing,
        GenStep::BuildMesh,
        GenStep::Finish,
        GenStep::Finish,
    ];
    for step in expected {
        assert_eq!(t.current_step(), step);
        t.add_progress(PROGRESS_ONE);
    }
}

fn seeded_corners(unit_count: usize) -> BitImage {
    let mut m = BitImage::new(unit_count);
    for (x, y) in [(0, 0), (unit_count, 0), (0, unit_count), (unit_count, unit_count)] {
        m.point_set(x, y, 1000).unwrap();
    }
    m
}

#[test]
fn process_region_writes_midpoints_and_centre() {
    let mut m = BitImage::new(2);
    m.point_set(0, 0, 10).unwrap();
    m.point_set(2, 0, 20).unwrap();
    m.point_set(0, 2, 30).unwrap();
    m.point_set(2, 2, -41).unwrap();
    let region = FractalRegion { x1: 0, y1: 0, x2: 2, y2: 2 };
    let children = process_region(&mut m, region, 5);
    assert_eq!(m.get_heightmap(), vec![10, 15, 20, 20, 9, -10, 30, -5, -41]);
    assert_eq!(
        children,
        vec![
            FractalRegion { x1: 0, y1: 0, x2: 1, y2: 1 },
            FractalRegion { x1: 1, y1: 0, x2: 2, y2: 1 },
            FractalRegion { x1: 0, y1: 1, x2: 1, y2: 2 },
            FractalRegion { x1: 1, y1: 1, x2: 2, y2: 2 },
        ]
    );
    let small = FractalRegion { x1: 0, y1: 0, x2: 1, y2: 2 };
    let before = m.get_heightmap();
    assert!(process_region(&mut m, small, 5).is_empty());
    assert_eq!(m.get_heightmap(), before);
}

#[test]
fn full_subdivision_of_power_of_two_writes_every_cell() {
    let mut m = seeded_corners(8);
    let mut rand = RandStruct::new(7);
    let mut f = FractalSubdivider::new(FractalRegion { x1: 0, y1: 0, x2: 8, y2: 8 }, 0);
    assert!(!f.is_done());
    f.run_to_end(&mut m, &mut rand);
    assert!(f.is_done());
    assert!(m.get_heightmap().iter().all(|&v| v == 1000));
}

#[test]
fn full_subdivision_with_jitter_stays_in_bounds() {
    let mut m = seeded_corners(4);
    let mut rand = RandStruct::new(99);
    let mut f = FractalSubdivider::new(FractalRegion { x1: 0, y1: 0, x2: 4, y2: 4 }, 10);
    let mut steps = 0;
    while f.step(&mut m, &mut rand) {
        steps += 1;
    }
    assert_eq!(steps, 20);
    let centre = m.get(2, 2).unwrap();
    assert!((980..=1020).contains(&centre));
    assert!(m.get_heightmap().iter().all(|&v| v != 0));
}

#[test]
fn subdivision_of_five_leaves_cells_unwritten() {
    let mut m = seeded_corners(5);
    let mut rand = RandStruct::new(3);
    let mut f = FractalSubdivider::new(FractalRegion { x1: 0, y1: 0, x2: 5, y2: 5 }, 0);
    f.run_to_end(&mut m, &mut rand);
    let zeros: Vec<(usize, usize)> = (0..36)
        .map(|i| (i % 6, i / 6))
        .filter(|&(x, y)| m.get(x, y).unwrap() == 0)
        .collect();
    assert_eq!(zeros, vec![(4, 0), (4, 1), (4, 2), (0, 4), (1, 4), (2, 4)]);
}

#[test]
fn mesh_of_size_two_has_nine_vertices_and_eight_triangles() {
    let indices = triangle_indices(2);
    assert_eq!(indices.len(), 24);
    assert_eq!(indices.len() / 3, 2 * 2 * 2);
    assert!(indices.iter().all(|&i| i < 9));
    assert_eq!(&indices[0..6], &[0, 4, 1, 0, 3, 4]);
    assert_eq!(&indices[6..12], &[1, 5, 2, 1, 4, 5]);
    assert_eq!(&indices[18..24], &[4, 8, 5, 4, 7, 8]);
}

#[test]
fn mesh_of_one_cell() {
    assert_eq!(triangle_indices(1), vec![0, 3, 1, 0, 2, 3]);
    assert!(triangle_indices(0).is_empty());
}

#[test]
fn last_triangle_owns_each_vertex_normal() {
    let indices = triangle_indices(1);
    assert_eq!(normal_owners(&indices, 4), vec![Some(1), Some(0), Some(1), Some(1)]);
    let indices = triangle_indices(2);
    let owners = normal_owners(&indices, 9);
    assert_eq!(owners.len(), 9);
    assert_eq!(owners[0], Some(1));
    assert_eq!(owners[8], Some(7));
    assert_eq!(owners[4], Some(7));
    assert_eq!(normal_owners(&vec![], 2), vec![None, None]);
}

#[test]
fn diagonal_preview_image() {
    let img = diagonal_image(3);
    assert_eq!(img.len(), 36);
    let grey: Vec<u8> = img.chunks(4).map(|p| p[0]).collect();
    assert_eq!(grey, vec![255, 0, 0, 0, 255, 255, 0, 255, 255]);
    assert!(img.chunks(4).all(|p| p[3] == 255 && p[1] == p[0] && p[2] == p[0]));
}

#[test]
fn app_state_transitions() {
    let s = AppState::PreGenMenu.on_event(AppEvent::MenuReady);
    assert_eq!(s, AppState::GenConfig);
    assert_eq!(s.button_text(), "Generate");
    let s = s.on_event(AppEvent::GenerateClicked);
    assert_eq!(s, AppState::GenRun);
    assert_eq!(s.button_text(), "Running...");
    assert_eq!(s.on_event(AppEvent::PlayClicked), AppState::GenRun);
    let s = s.on_event(AppEvent::GenerationFinished);
    assert_eq!(s.button_text(), "Done - Click to play!");
    assert_eq!(s.on_event(AppEvent::ResetSeedClicked), AppState::PreGenMenu);
    assert_eq!(s.on_event(AppEvent::PlayClicked), AppState::InGame);
    assert_eq!(AppState::InGame.button_text(), "Shouldn't be here....");
}

#[test]
fn whole_pipeline_runs_to_completion() {
    let n = 4;
    let mut g = Generation::new(n);
    let mut rand = RandStruct::new(2024);
    let samples: Vec<Vec<i32>> = (0..=n).map(|y| (0..=n).map(|x| (x * y * 100) as i32).collect()).collect();
    let mut ticks = 0;
    loop {
        ticks += 1;
        assert!(ticks < 10_000);
        match g.current_step() {
            GenStep::WarmUp => g.warm_up(),
            GenStep::Noise => {
                g.apply_noise(&samples);
                assert_eq!(g.height_map().get(4, 4), Ok(1600));
            }
            GenStep::Fractal => g.fractal_tick(&mut rand, 2),
            GenStep::Erosion => g.erosion_tick(&mut rand),
            GenStep::Smoothing => g.smooth_tick(),
            GenStep::BuildMesh => g.mesh_built(),
            GenStep::Finish => break,
        }
    }
    assert_eq!(g.tracker().progress_percent(), 100);
    let m = g.height_map();
    assert!(m.max_height() >= 1600);
    g.reset();
    assert_eq!(g.tracker().current_stage, 0);
    assert!(g.height_map().get_heightmap().iter().all(|&v| v == 0));
}

#[test]
fn budgeted_subdivision_steps() {
    let mut m = seeded_corners(4);
    let mut rand = RandStruct::new(5);
    let mut f = FractalSubdivider::new(FractalRegion { x1: 0, y1: 0, x2: 4, y2: 4 }, 0);
    assert_eq!(f.run_steps(&mut m, &mut rand, 1), 1);
    assert_eq!(m.get(2, 2), Ok(1000));
    assert_eq!(m.get(1, 1), Ok(0));
    assert_eq!(f.run_steps(&mut m, &mut rand, 3), 3);
    assert!(!f.is_done());
    assert_eq!(f.run_steps(&mut m, &mut rand, 100), 17);
    assert!(f.is_done());
    assert_eq!(f.run_steps(&mut m, &mut rand, 100), 0);
    assert!(m.get_heightmap().iter().all(|&v| v == 1000));
}

#[test]
fn erosion_stage_spawns_then_ticks_then_moves_on() {
    let mut g = Generation::new(4);
    let mut rand = RandStruct::new(11);
    let samples: Vec<Vec<i32>> = (0..=4).map(|y| (0..=4).map(|x| (x + y) as i32).collect()).collect();
    g.warm_up();
    g.apply_noise(&samples);
    while g.current_step() == GenStep::Fractal {
        g.fractal_tick(&mut rand, 1);
    }
    assert_eq!(g.current_step(), GenStep::Erosion);
    let before = g.height_map().get_heightmap();
    g.erosion_tick(&mut rand);
    assert_eq!(g.height_map().get_heightmap(), before);
    assert_eq!(g.current_step(), GenStep::Erosion);
    let mut ticks = 0;
    while g.current_step() == GenStep::Erosion {
        g.erosion_tick(&mut rand);
        ticks += 1;
        assert!(ticks <= 502);
    }
    assert_eq!(g.current_step(), GenStep::Smoothing);
}

#[test]
fn smoothing_stage_averages_the_whole_field() {
    let mut g = Generation::new(2);
    let mut rand = RandStruct::new(1);
    g.warm_up();
    let mut samples = vec![vec![0; 3]; 3];
    samples[1][1] = 9;
    g.apply_noise(&samples);
    while g.current_step() == GenStep::Fractal {
        g.fractal_tick(&mut rand, 100);
    }
    let field = g.height_map().get_heightmap();
    while g.current_step() == GenStep::Erosion {
        g.erosion_tick(&mut rand);
    }
    let mut expected = BitImage::new(2);
    let after_erosion = g.height_map().get_heightmap();
    for y in 0..3 {
        for x in 0..3 {
            expected.point_set(x, y, after_erosion[y * 3 + x]).unwrap();
        }
    }
    terrain_gen::map_mutators::average_by_neighbor(&mut expected, terrain_gen::map_mutators::Area::full(2)).unwrap();
    g.smooth_tick();
    assert_eq!(g.height_map().get_heightmap(), expected.get_heightmap());
    assert_eq!(field.len(), 9);
}
