use fractal_engine::buffer::FrameBuffer;
use fractal_engine::palette::EscapeResult;
use fractal_engine::pixels::{check_partition, image_fits, tile_range, BufferError, Pixels};
use fractal_engine::tracer::{zeroed, Tile};

fn stripes(x: usize, _y: usize) -> EscapeResult {
    if x % 2 == 0 {
        EscapeResult::Interior
    } else {
        EscapeResult::Escaped { smooth: 0 }
    }
}

#[test]
fn tile_ranges_give_remainder_to_last_tile() {
    assert_eq!(tile_range(10, 3, 0), (0, 3));
    assert_eq!(tile_range(10, 3, 1), (3, 6));
    assert_eq!(tile_range(10, 3, 2), (6, 10));
    assert_eq!(tile_range(2, 4, 0), (0, 0));
    assert_eq!(tile_range(2, 4, 3), (0, 2));
    assert_eq!(tile_range(12, 1, 0), (0, 12));
}

#[test]
fn new_image_is_cut_into_worker_tiles() {
    let p = Pixels::tiled(4, 3, 2).unwrap();
    assert_eq!(p.len(), 48);
    assert_eq!(p.dimensions(), (4, 3));
    assert_eq!(p.tile_count(), 2);
    assert_eq!((p.tile(0).start, p.tile(0).end), (0, 6));
    assert_eq!((p.tile(1).start, p.tile(1).end), (6, 12));
    assert_eq!(p.to_bytes(), vec![0u8; 48]);
}

#[test]
fn plain_image_is_one_tile() {
    let p = Pixels::new(3, 2).unwrap();
    assert_eq!(p.tile_count(), 1);
    assert_eq!((p.tile(0).start, p.tile(0).end), (0, 6));
    assert_eq!(p.len(), 24);
    assert_eq!(Pixels::new(usize::MAX, usize::MAX).err(), Some(BufferError::TooLarge));
}

#[test]
fn zero_workers_is_refused() {
    assert_eq!(Pixels::tiled(4, 3, 0).err(), Some(BufferError::NoWorkers));
    assert_eq!(FrameBuffer::new(4, 3, 0).err(), Some(BufferError::NoWorkers));
}

#[test]
fn oversized_image_is_refused() {
    assert_eq!(Pixels::tiled(usize::MAX, 2, 1).err(), Some(BufferError::TooLarge));
    assert_eq!(Pixels::tiled(1 << 31, 1 << 31, 3).err(), Some(BufferError::TooLarge));
    assert!(!image_fits(usize::MAX, 2));
    assert!(!image_fits(1 << 31, 1 << 31));
    assert!(image_fits(600, 600));
    assert!(image_fits(0, usize::MAX));
}

#[test]
fn empty_image_has_empty_tiles() {
    let mut p = Pixels::tiled(0, 5, 3).unwrap();
    assert_eq!(p.len(), 0);
    assert_eq!(p.tile_count(), 3);
    p.render(&stripes);
    assert!(p.to_bytes().is_empty());
}

#[test]
fn lent_tiles_come_back_only_whole() {
    let mut p = Pixels::tiled(5, 2, 2).unwrap();
    let tiles = p.take_tiles();
    assert_eq!(tiles.len(), 2);
    assert_eq!(p.tile_count(), 0);
    assert!(p.to_bytes().is_empty());
    let wrong = vec![Tile::new(0, 4), Tile::new(4, 9)];
    let back = p.restore_tiles(wrong).unwrap_err();
    assert_eq!(back.len(), 2);
    assert_eq!(p.tile_count(), 0);
    assert!(p.restore_tiles(tiles).is_ok());
    assert_eq!(p.tile_count(), 2);
    assert_eq!(p.to_bytes().len(), 40);
}

#[test]
fn partition_check_rejects_gaps_and_bad_lengths() {
    assert!(check_partition(&vec![Tile::new(0, 3), Tile::new(3, 7)], 7));
    assert!(!check_partition(&vec![Tile::new(0, 3), Tile::new(4, 7)], 7));
    assert!(!check_partition(&vec![Tile::new(0, 3), Tile::new(3, 6)], 7));
    assert!(!check_partition(&vec![Tile::new(1, 7)], 7));
    assert!(!check_partition(&Vec::new(), 0));
    let bad = Tile { start: 0, end: 2, data: zeroed(7) };
    assert!(!bad.is_well_formed());
    assert!(!check_partition(&vec![bad], 2));
}

#[test]
fn swap_exchanges_draw_and_present() {
    let mut b = FrameBuffer::new(3, 2, 2).unwrap();
    assert_eq!(b.dimensions(), (3, 2));
    b.render_draw(&stripes);
    let drawn = b.draw_buffer().to_bytes();
    assert_eq!(b.present_buffer().to_bytes(), vec![0u8; 24]);
    b.swap();
    assert_eq!(b.present_buffer().to_bytes(), drawn);
    assert_eq!(b.draw_buffer().to_bytes(), vec![0u8; 24]);
    assert_eq!(&drawn[0..8], &[0, 0, 0, 255, 66, 30, 15, 255]);
}

#[test]
fn draw_tiles_must_match_tile_count() {
    let mut b = FrameBuffer::new(3, 2, 2).unwrap();
    let tiles = b.take_draw_tiles();
    assert_eq!(tiles.len(), 2);
    let one = vec![Tile::new(0, 6)];
    assert!(b.restore_draw_tiles(one).is_err());
    assert!(b.restore_draw_tiles(tiles).is_ok());
    assert_eq!(b.draw_buffer().tile_count(), 2);
}
