use fractal_engine::coordinator::{
    adjust_iteration_cap, default_worker_count, worker_count_for, Command, FrameCoordinator, FrameError, FrameSettings, Phase,
    MAX_ITERATION_CAP,
};
use fractal_engine::palette::EscapeResult;
use fractal_engine::tracer::{render_tile, Tile};

fn all_interior(_x: usize, _y: usize) -> EscapeResult {
    EscapeResult::Interior
}

fn coordinator(width: usize, height: usize, workers: usize) -> FrameCoordinator<i32> {
    FrameCoordinator::new(width, height, 256, workers).ok().unwrap()
}

#[test]
fn iteration_cap_is_clamped() {
    assert_eq!(adjust_iteration_cap(256, 10), 266);
    assert_eq!(adjust_iteration_cap(256, -56), 200);
    assert_eq!(adjust_iteration_cap(1, -5), 1);
    assert_eq!(adjust_iteration_cap(MAX_ITERATION_CAP - 1, 100), MAX_ITERATION_CAP);
    assert_eq!(adjust_iteration_cap(5, i64::MAX), MAX_ITERATION_CAP);
    assert_eq!(adjust_iteration_cap(5, i64::MIN), 1);
    assert_eq!(adjust_iteration_cap(u32::MAX, 0), MAX_ITERATION_CAP);
    assert_eq!(MAX_ITERATION_CAP, 1 << 30);
}

#[test]
fn default_workers_are_two_per_cpu() {
    let n = default_worker_count();
    assert!(n >= 2);
    assert_eq!(n % 2, 0);
}

#[test]
fn worker_count_doubles_cpu_count() {
    assert_eq!(worker_count_for(1), 2);
    assert_eq!(worker_count_for(6), 12);
    assert_eq!(worker_count_for(usize::MAX), (usize::MAX / 2) * 2);
    assert_eq!(worker_count_for(usize::MAX / 2), usize::MAX - 1);
}

#[test]
fn coordinator_refuses_bad_construction() {
    assert!(matches!(FrameCoordinator::<i32>::new(4, 4, 256, 0), Err(FrameError::NoWorkers)));
    assert!(matches!(FrameCoordinator::<i32>::new(usize::MAX, 4, 256, 2), Err(FrameError::TooLarge)));
    let c = FrameCoordinator::<i32>::new(4, 4, 0, 2).ok().unwrap();
    assert_eq!(c.settings(), FrameSettings { width: 4, height: 4, iteration_cap: 1 });
    assert_eq!(c.phase(), Phase::Idle);
    assert_eq!(c.frame(), 0);
    assert_eq!(c.workers(), 2);
}

#[test]
fn frame_runs_through_its_phases() {
    let mut c = coordinator(5, 3, 3);
    assert!(matches!(c.tile_finished(0, Tile::new(0, 5)), Err(FrameError::NotRendering)));
    assert!(matches!(c.finish_frame(), Err(FrameError::NotSwapping)));
    let mut tiles = c.start_frame().unwrap();
    assert_eq!(c.phase(), Phase::Rendering);
    assert!(matches!(c.start_frame(), Err(FrameError::NotIdle)));
    assert_eq!(tiles.len(), 3);
    assert_eq!((tiles[2].start, tiles[2].end), (10, 15));
    for t in tiles.iter_mut() {
        render_tile(&all_interior, 5, t);
    }
    let t2 = tiles.pop().unwrap();
    let t1 = tiles.pop().unwrap();
    let t0 = tiles.pop().unwrap();
    assert!(matches!(c.tile_finished(3, Tile::new(0, 5)), Err(FrameError::UnknownTile)));
    assert!(matches!(c.tile_finished(1, Tile::new(0, 5)), Err(FrameError::MisshapenTile)));
    assert_eq!(c.tile_finished(2, t2).ok(), Some(false));
    assert!(matches!(c.tile_finished(2, Tile::new(10, 15)), Err(FrameError::DuplicateTile)));
    assert_eq!(c.tile_finished(0, t0).ok(), Some(false));
    assert_eq!(c.tile_finished(1, t1).ok(), Some(true));
    assert_eq!(c.phase(), Phase::Swapping);
    let u = c.finish_frame().ok().unwrap();
    assert_eq!(u.frame, 1);
    assert!(!u.resized);
    assert!(u.commands.is_empty());
    assert_eq!(c.phase(), Phase::Idle);
    let bytes = c.present_buffer().to_bytes();
    assert_eq!(bytes.len(), 60);
    for px in bytes.chunks(4) {
        assert_eq!(px, &[0, 0, 0, 255]);
    }
}

#[test]
fn queued_commands_apply_in_arrival_order() {
    let mut c = coordinator(6, 4, 2);
    c.submit(Command::View(1));
    c.submit(Command::SetIterationCap(10));
    c.submit(Command::Resize(8, 5));
    c.submit(Command::View(2));
    c.submit(Command::Resize(usize::MAX, 2));
    c.submit(Command::SetIterationCap(-1000));
    assert_eq!(c.pending_count(), 6);
    let u = c.render_frame_local(&all_interior).ok().unwrap();
    assert!(u.resized);
    assert_eq!(u.frame, 1);
    assert_eq!(c.pending_count(), 0);
    assert_eq!(c.settings(), FrameSettings { width: 8, height: 5, iteration_cap: 1 });
    assert_eq!(u.commands.len(), 5);
    assert!(matches!(u.commands[0], Command::View(1)));
    assert!(matches!(u.commands[1], Command::SetIterationCap(10)));
    assert!(matches!(u.commands[2], Command::Resize(8, 5)));
    assert!(matches!(u.commands[3], Command::View(2)));
    assert!(matches!(u.commands[4], Command::SetIterationCap(-1000)));
    assert_eq!(c.present_buffer().dimensions(), (8, 5));
    assert_eq!(c.present_buffer().tile_count(), 2);
}

#[test]
fn refused_resize_keeps_previous_size() {
    let mut c = coordinator(6, 4, 2);
    c.submit(Command::Resize(usize::MAX, usize::MAX));
    let u = c.render_frame_local(&all_interior).ok().unwrap();
    assert!(!u.resized);
    assert!(u.commands.is_empty());
    assert_eq!(c.settings().width, 6);
    assert_eq!(c.present_buffer().to_bytes().len(), 96);
}

#[test]
fn local_frame_presents_rendered_image() {
    let mut c = coordinator(7, 3, 4);
    let u = c.render_frame_local(&all_interior).ok().unwrap();
    assert_eq!(u.frame, 1);
    let bytes = c.present_buffer().to_bytes();
    assert_eq!(bytes.len(), 84);
    assert!(bytes.chunks(4).all(|p| p == [0, 0, 0, 255]));
    let u = c.render_frame_local(&all_interior).ok().unwrap();
    assert_eq!(u.frame, 2);
}

#[test]
fn lost_worker_fails_the_coordinator() {
    let mut c = coordinator(4, 4, 2);
    let _tiles = c.start_frame().unwrap();
    c.worker_lost();
    assert_eq!(c.phase(), Phase::Failed);
    assert!(matches!(c.start_frame(), Err(FrameError::NotIdle)));
    assert!(matches!(c.render_frame_local(&all_interior), Err(FrameError::NotIdle)));
}
