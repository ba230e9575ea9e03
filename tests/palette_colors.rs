use fractal_engine::palette::{color_for, palette_entry, shade, EscapeResult, INDEX_STEPS, PALETTE_SIZE};

#[test]
fn near_zero_index_gives_first_entry_not_black() {
    let c = color_for(0);
    assert_eq!(c, (66, 30, 15, 255));
    assert_ne!(c, (0, 0, 0, 255));
    assert_eq!(shade(EscapeResult::Escaped { smooth: 3 }), color_for(3));
}

#[test]
fn half_step_blends_neighbouring_entries() {
    assert_eq!(color_for(INDEX_STEPS / 2), (45, 18, 20, 255));
}

#[test]
fn whole_steps_select_entries() {
    for i in 0..PALETTE_SIZE {
        let (r, g, b) = palette_entry(i);
        assert_eq!(color_for(i as i64 * INDEX_STEPS), (r, g, b, 255));
    }
}

#[test]
fn index_wraps_after_sixteen_entries() {
    assert_eq!(color_for(16 * INDEX_STEPS), color_for(0));
    assert_eq!(color_for(16 * INDEX_STEPS + 77), color_for(77));
}

#[test]
fn negative_index_counts_down_from_last_entry() {
    assert_eq!(color_for(-1), (66, 30, 14, 255));
    assert_eq!(color_for(-INDEX_STEPS), (106, 52, 3, 255));
    assert_eq!(color_for(-16 * INDEX_STEPS + 5), color_for(5));
}

#[test]
fn extreme_indices_do_not_overflow() {
    let a = color_for(i64::MAX);
    let b = color_for(i64::MIN);
    assert_eq!(a.3, 255);
    assert_eq!(b.3, 255);
}

#[test]
fn interior_is_fixed_colour() {
    assert_eq!(shade(EscapeResult::Interior), (0, 0, 0, 255));
    assert_eq!(palette_entry(15), (106, 52, 3));
}
