//! Player settings: volume, screen-shake intensity and music toggle.

use vstd::prelude::*;

verus! {

/// The largest percentage either slider may hold.
pub const MAX_PCT: u32 = 200;

/// Persisted player settings. Both percentages stay within `0..=MAX_PCT`.
pub struct Settings {
    volume: u32,
    shake: u32,
    music: bool,
}

impl Settings {
    /// Well-formedness: both sliders within range.
    pub open spec fn wf(&self) -> bool {
        self.spec_volume() <= MAX_PCT && self.spec_shake() <= MAX_PCT
    }

    pub closed spec fn spec_volume(&self) -> u32 {
        self.volume
    }

    pub closed spec fn spec_shake(&self) -> u32 {
        self.shake
    }

    pub closed spec fn spec_music(&self) -> bool {
        self.music
    }

    /// Defaults: full volume, full shake, music on.
    pub fn new() -> (s: Settings)
        ensures
            s.wf(),
            s.spec_volume() == 100,
            s.spec_shake() == 100,
            s.spec_music(),
    {
        Settings { volume: 100, shake: 100, music: true }
    }
}

/// The clamp a slider applies to a requested percentage.
pub open spec fn clamp_pct(v: u32) -> u32 {
    if v < MAX_PCT { v } else { MAX_PCT }
}

/// Current volume in percent.
pub fn volume_pct(s: &Settings) -> (v: u32)
    ensures
        v == s.spec_volume(),
{
    s.volume
}

/// Sets the volume, capped at `MAX_PCT`; nothing else changes.
pub fn set_volume_pct(s: &mut Settings, v: u32)
    ensures
        final(s).spec_volume() == clamp_pct(v),
        final(s).spec_shake() == old(s).spec_shake(),
        final(s).spec_music() == old(s).spec_music(),
{
    s.volume = if v < MAX_PCT { v } else { MAX_PCT };
}

/// Current screen-shake intensity in percent.
pub fn shake_pct(s: &Settings) -> (v: u32)
    ensures
        v == s.spec_shake(),
{
    s.shake
}

/// Sets the screen-shake intensity, capped at `MAX_PCT`; nothing else changes.
pub fn set_shake_pct(s: &mut Settings, v: u32)
    ensures
        final(s).spec_shake() == clamp_pct(v),
        final(s).spec_volume() == old(s).spec_volume(),
        final(s).spec_music() == old(s).spec_music(),
{
    s.shake = if v < MAX_PCT { v } else { MAX_PCT };
}

/// Whether the backing music plays.
pub fn music_on(s: &Settings) -> (b: bool)
    ensures
        b == s.spec_music(),
{
    s.music
}

/// Turns the music on or off; nothing else changes.
pub fn set_music_on(s: &mut Settings, v: bool)
    ensures
        final(s).spec_music() == v,
        final(s).spec_volume() == old(s).spec_volume(),
        final(s).spec_shake() == old(s).spec_shake(),
{
    s.music = v;
}

/// A setter keeps the settings well formed, and reading a slider back gives
/// the value written, capped at `MAX_PCT`.
pub proof fn lemma_slider_read_after_write(before: Settings, after: Settings, v: u32)
    requires
        before.wf(),
        after.spec_volume() == clamp_pct(v),
        after.spec_shake() == before.spec_shake(),
    ensures
        after.wf(),
        v <= MAX_PCT ==> after.spec_volume() == v,
        v > MAX_PCT ==> after.spec_volume() == MAX_PCT,
{
}

} // verus!
