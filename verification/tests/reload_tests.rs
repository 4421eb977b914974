use simplan::reload::{
    despawn_countdown, ReloadWatch, DEBOUNCE_FRAMES, REBUILD_COOLDOWN_FRAMES,
    TILE_DESPAWN_DELAY_FRAMES,
};

/// Feed `frames` identical frames and return the frame numbers (from 1)
/// on which a rebuild was decided.
fn run(w: &mut ReloadWatch, current: Option<u32>, idle: bool, frames: u32) -> Vec<u32> {
    let mut hits = Vec::new();
    for f in 1..=frames {
        if w.tick(current, idle) {
            hits.push(f);
        }
    }
    hits
}

#[test]
fn debounce_constants() {
    assert_eq!(DEBOUNCE_FRAMES, 120);
    assert_eq!(REBUILD_COOLDOWN_FRAMES, 300);
    assert_eq!(TILE_DESPAWN_DELAY_FRAMES, 120);
}

#[test]
fn new_watch_is_quiet() {
    let w = ReloadWatch::new();
    assert_eq!(
        w,
        ReloadWatch { last_gen: 0, pending_gen: 0, stable_frames: 0, cooldown: 0 }
    );
}

#[test]
fn new_generation_rebuilds_after_debounce() {
    let mut w = ReloadWatch::new();
    // First frame only records the generation as pending; then 120 stable frames.
    let hits = run(&mut w, Some(1), true, 121);
    assert_eq!(hits, vec![121]);
    assert_eq!(w.last_gen, 1);
    assert_eq!(w.cooldown, REBUILD_COOLDOWN_FRAMES);
    assert_eq!(w.stable_frames, 0);
}

#[test]
fn no_rebuild_one_frame_early() {
    let mut w = ReloadWatch::new();
    assert!(run(&mut w, Some(1), true, 120).is_empty());
    assert_eq!(w.stable_frames, 119);
}

#[test]
fn changing_generation_restarts_debounce() {
    let mut w = ReloadWatch::new();
    assert!(run(&mut w, Some(1), true, 100).is_empty());
    assert_eq!(run(&mut w, Some(2), true, 121), vec![121]);
    assert_eq!(w.last_gen, 2);
}

#[test]
fn busy_builders_postpone_rebuild() {
    let mut w = ReloadWatch::new();
    assert!(run(&mut w, Some(1), false, 200).is_empty());
    assert!(w.tick(Some(1), true));
}

#[test]
fn cooldown_blocks_rebuilds() {
    let mut w = ReloadWatch::new();
    run(&mut w, Some(1), true, 121);
    assert!(run(&mut w, Some(2), true, REBUILD_COOLDOWN_FRAMES).is_empty());
    assert_eq!(w.cooldown, 0);
    assert_eq!(w.pending_gen, 1);
    assert_eq!(run(&mut w, Some(2), true, 121), vec![121]);
}

#[test]
fn same_generation_never_rebuilds() {
    let mut w = ReloadWatch::new();
    assert!(run(&mut w, Some(0), true, 1000).is_empty());
    assert!(run(&mut w, None, true, 1000).is_empty());
    assert_eq!(w, ReloadWatch::new());
}

#[test]
fn countdown_reaches_despawn() {
    assert_eq!(despawn_countdown(0), None);
    assert_eq!(despawn_countdown(1), Some(0));
    let mut d = TILE_DESPAWN_DELAY_FRAMES;
    let mut frames = 0;
    while let Some(next) = despawn_countdown(d) {
        d = next;
        frames += 1;
    }
    assert_eq!(frames, TILE_DESPAWN_DELAY_FRAMES);
}
