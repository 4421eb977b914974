//! Frame-by-frame decisions of the terrain plugin: when newly loaded
//! elevation or imagery justifies rebuilding the tile tree, and when a tile
//! waiting for removal is finally despawned.

use vstd::prelude::*;

verus! {

/// Consecutive stable frames required before a rebuild is triggered.
pub const DEBOUNCE_FRAMES: u32 = 120;

/// Frames during which no further rebuild happens after one was triggered.
pub const REBUILD_COOLDOWN_FRAMES: u32 = 300;

/// Frames a visible tile stays on screen after its removal was requested,
/// so that the tiles replacing it have time to build.
pub const TILE_DESPAWN_DELAY_FRAMES: u32 = 120;

/// Debounce state for one loader's generation counter.
#[derive(Clone, Copy, PartialEq, Eq, Structural, Debug)]
pub struct ReloadWatch {
    /// Generation the tree was last rebuilt for.
    pub last_gen: u32,
    /// Newest generation seen, waiting to become stable.
    pub pending_gen: u32,
    /// Frames `pending_gen` has been seen unchanged.
    pub stable_frames: u32,
    /// Frames left before another rebuild may happen.
    pub cooldown: u32,
}

/// One frame of the debounce rule, as (next state, rebuild now?).
///
/// - While cooling down, only the cooldown counts down.
/// - Without a generation to watch, nothing changes.
/// - A generation equal to the last rebuilt one resets the stability count.
/// - A generation different from the pending one becomes pending.
/// - Otherwise the pending generation gains one stable frame; once it has
///   `DEBOUNCE_FRAMES` of them and no tile is being built, the tree is
///   rebuilt for it and the cooldown starts.
pub open spec fn watch_step(s: ReloadWatch, current: Option<u32>, idle: bool) -> (
    ReloadWatch,
    bool,
) {
    if s.cooldown > 0 {
        (ReloadWatch { cooldown: (s.cooldown - 1) as u32, ..s }, false)
    } else {
        match current {
            None => (s, false),
            Some(g) => if g == s.last_gen {
                (ReloadWatch { stable_frames: 0, ..s }, false)
            } else if g != s.pending_gen {
                (ReloadWatch { pending_gen: g, stable_frames: 0, ..s }, false)
            } else if s.stable_frames + 1 < DEBOUNCE_FRAMES || !idle {
                (ReloadWatch { stable_frames: (s.stable_frames + 1) as u32, ..s }, false)
            } else {
                (
                    ReloadWatch {
                        last_gen: g,
                        pending_gen: s.pending_gen,
                        stable_frames: 0,
                        cooldown: REBUILD_COOLDOWN_FRAMES,
                    },
                    true,
                )
            },
        }
    }
}

/// The states and decisions of successive frames with the given inputs
/// (generation, idle), as (final state, decisions).
pub open spec fn watch_run(s: ReloadWatch, inputs: Seq<(Option<u32>, bool)>) -> (
    ReloadWatch,
    Seq<bool>,
)
    decreases inputs.len(),
{
    if inputs.len() == 0 {
        (s, Seq::empty())
    } else {
        let (s1, r) = watch_step(s, inputs[0].0, inputs[0].1);
        let (sn, rs) = watch_run(s1, inputs.drop_first());
        (sn, seq![r] + rs)
    }
}

impl ReloadWatch {
    /// A watch that has seen generation 0 and is not cooling down.
    pub fn new() -> (w: Self)
        ensures
            w == (ReloadWatch { last_gen: 0, pending_gen: 0, stable_frames: 0, cooldown: 0 }),
    {
        ReloadWatch { last_gen: 0, pending_gen: 0, stable_frames: 0, cooldown: 0 }
    }

    /// Decide one frame.  `current` is the loader's generation counter, or
    /// `None` when there is no loader or resets are disabled; `idle` says no
    /// tile mesh is being built.  Returns true when the tree must be reset.
    pub fn tick(&mut self, current: Option<u32>, idle: bool) -> (reset: bool)
        requires
            old(self).stable_frames < u32::MAX,
        ensures
            (*final(self), reset) == watch_step(*old(self), current, idle),
    {
        if self.cooldown > 0 {
            self.cooldown = self.cooldown - 1;
            return false;
        }
        let g = match current {
            None => {
                return false;
            },
            Some(g) => g,
        };
        if g == self.last_gen {
            self.stable_frames = 0;
            return false;
        }
        if g != self.pending_gen {
            self.pending_gen = g;
            self.stable_frames = 0;
            return false;
        }
        self.stable_frames = self.stable_frames + 1;
        if self.stable_frames < DEBOUNCE_FRAMES {
            return false;
        }
        if !idle {
            return false;
        }
        self.last_gen = g;
        self.stable_frames = 0;
        self.cooldown = REBUILD_COOLDOWN_FRAMES;
        true
    }
}

proof fn lemma_run_len(s: ReloadWatch, inputs: Seq<(Option<u32>, bool)>)
    ensures
        watch_run(s, inputs).1.len() == inputs.len(),
    decreases inputs.len(),
{
    if inputs.len() > 0 {
        let (s1, r) = watch_step(s, inputs[0].0, inputs[0].1);
        lemma_run_len(s1, inputs.drop_first());
    }
}

/// While the cooldown lasts, no frame triggers a rebuild: in particular the
/// `REBUILD_COOLDOWN_FRAMES` frames after a rebuild never trigger another.
pub proof fn law_no_rebuild_during_cooldown(s: ReloadWatch, inputs: Seq<(Option<u32>, bool)>)
    requires
        inputs.len() <= s.cooldown,
    ensures
        forall|i: int| 0 <= i < inputs.len() ==> !#[trigger] watch_run(s, inputs).1[i],
        watch_run(s, inputs).0.cooldown == s.cooldown - inputs.len(),
    decreases inputs.len(),
{
    if inputs.len() > 0 {
        let (s1, r) = watch_step(s, inputs[0].0, inputs[0].1);
        law_no_rebuild_during_cooldown(s1, inputs.drop_first());
        let rs = watch_run(s1, inputs.drop_first()).1;
        lemma_run_len(s1, inputs.drop_first());
        assert(watch_run(s, inputs).1 == seq![r] + rs);
        assert forall|i: int| 0 <= i < inputs.len() implies !#[trigger] watch_run(s, inputs).1[i] by {
            if i > 0 {
                assert(watch_run(s, inputs).1[i] == rs[i - 1]);
            }
        }
    }
}

/// A rebuild starts the full cooldown.
pub proof fn law_rebuild_starts_cooldown(s: ReloadWatch, current: Option<u32>, idle: bool)
    requires
        watch_step(s, current, idle).1,
    ensures
        watch_step(s, current, idle).0.cooldown == REBUILD_COOLDOWN_FRAMES,
        current is Some && watch_step(s, current, idle).0.last_gen == current.unwrap(),
{
}

/// A rebuild happens only on a frame where no cooldown runs, no tile is
/// being built, and the pending generation — new, and the one reported now —
/// has been seen unchanged for `DEBOUNCE_FRAMES` frames.
pub proof fn law_rebuild_needs_stable_idle_news(s: ReloadWatch, current: Option<u32>, idle: bool)
    requires
        watch_step(s, current, idle).1,
    ensures
        idle,
        s.cooldown == 0,
        current == Some(s.pending_gen),
        s.pending_gen != s.last_gen,
        s.stable_frames + 1 >= DEBOUNCE_FRAMES,
{
}

/// The stability count grows by at most one a frame.
proof fn lemma_stable_grows_slowly(s: ReloadWatch, current: Option<u32>, idle: bool)
    ensures
        watch_step(s, current, idle).0.stable_frames <= s.stable_frames + 1,
{
}

/// No rebuild comes before the debounce delay has run out: starting from a
/// watch that has counted `stable_frames` stable frames, the first
/// `DEBOUNCE_FRAMES - 1 - stable_frames` frames never rebuild, whatever
/// the loader and the builders report.
pub proof fn law_rebuild_waits_for_debounce(s: ReloadWatch, inputs: Seq<(Option<u32>, bool)>)
    ensures
        forall|i: int|
            0 <= i < inputs.len() && i + 1 + s.stable_frames < DEBOUNCE_FRAMES
                ==> !#[trigger] watch_run(s, inputs).1[i],
    decreases inputs.len(),
{
    if inputs.len() > 0 {
        let (s1, r) = watch_step(s, inputs[0].0, inputs[0].1);
        let rest = inputs.drop_first();
        lemma_stable_grows_slowly(s, inputs[0].0, inputs[0].1);
        law_rebuild_waits_for_debounce(s1, rest);
        let rs = watch_run(s1, rest).1;
        lemma_run_len(s1, rest);
        assert(watch_run(s, inputs).1 == seq![r] + rs);
        assert forall|i: int|
            0 <= i < inputs.len() && i + 1 + s.stable_frames < DEBOUNCE_FRAMES implies !#[trigger] watch_run(
                s,
                inputs,
            ).1[i] by {
            if i > 0 {
                assert(watch_run(s, inputs).1[i] == rs[i - 1]);
            }
        }
    }
}

/// As long as the loader reports no generation other than the one the tree
/// was last rebuilt for, the tree is never rebuilt.
pub proof fn law_no_rebuild_without_news(s: ReloadWatch, inputs: Seq<(Option<u32>, bool)>)
    requires
        forall|i: int|
            0 <= i < inputs.len() ==> (#[trigger] inputs[i]).0 is None || inputs[i].0 == Some(
                s.last_gen,
            ),
    ensures
        forall|i: int| 0 <= i < inputs.len() ==> !#[trigger] watch_run(s, inputs).1[i],
        watch_run(s, inputs).0.last_gen == s.last_gen,
    decreases inputs.len(),
{
    if inputs.len() > 0 {
        let (s1, r) = watch_step(s, inputs[0].0, inputs[0].1);
        let rest = inputs.drop_first();
        assert forall|i: int| 0 <= i < rest.len() implies (#[trigger] rest[i]).0 is None
            || rest[i].0 == Some(s1.last_gen) by {
            assert(rest[i] == inputs[i + 1]);
        }
        law_no_rebuild_without_news(s1, rest);
        let rs = watch_run(s1, rest).1;
        lemma_run_len(s1, rest);
        assert(watch_run(s, inputs).1 == seq![r] + rs);
        assert forall|i: int| 0 <= i < inputs.len() implies !#[trigger] watch_run(s, inputs).1[i] by {
            if i > 0 {
                assert(watch_run(s, inputs).1[i] == rs[i - 1]);
            }
        }
    }
}

/// One frame of a visible tile waiting for removal: `None` when it must be
/// despawned now, otherwise the frames still to wait.
pub fn despawn_countdown(delay: u32) -> (next: Option<u32>)
    ensures
        delay == 0 ==> next is None,
        delay > 0 ==> next == Some((delay - 1) as u32),
{
    if delay == 0 {
        None
    } else {
        Some(delay - 1)
    }
}

/// The delay left after `n` frames of countdown from `d` (or `None` once despawned).
pub open spec fn countdown_after(d: u32, n: nat) -> Option<u32>
    decreases n,
{
    if n == 0 {
        Some(d)
    } else {
        match countdown_after(d, (n - 1) as nat) {
            Some(k) => if k == 0 {
                None
            } else {
                Some((k - 1) as u32)
            },
            None => None,
        }
    }
}

/// A tile whose delay is `d` stays for `d` frames and is despawned on the next.
pub proof fn law_despawn_after_delay(d: u32, n: nat)
    requires
        n <= d,
    ensures
        countdown_after(d, n) == Some((d - n) as u32),
        countdown_after(d, (d + 1) as nat) is None,
    decreases n,
{
    if n > 0 {
        law_despawn_after_delay(d, (n - 1) as nat);
    }
    lemma_countdown_reaches_zero(d, d as nat);
}

proof fn lemma_countdown_reaches_zero(d: u32, n: nat)
    requires
        n <= d,
    ensures
        countdown_after(d, n) == Some((d - n) as u32),
    decreases n,
{
    if n > 0 {
        lemma_countdown_reaches_zero(d, (n - 1) as nat);
    }
}

} // verus!
