//! Virtual touch controls: a joystick on the left of the screen and action
//! buttons on the right, shown from the first touch on. The application
//! reads the touches, works out which button (if any) each one started on
//! and whether it lies in the joystick zone, and moves the stick; these
//! rules decide what each touch does and who holds the stick.

use vstd::prelude::*;

verus! {

/// The phase of a touch in this frame.
#[derive(Clone, Copy, PartialEq, Eq, Structural, Debug)]
pub enum Phase {
    Started,
    Moved,
    Stationary,
    Ended,
    Cancelled,
}

/// An on-screen button.
#[derive(Clone, Copy, PartialEq, Eq, Structural, Debug)]
pub enum BtnKind {
    Attack,
    Interact,
    Inventory,
    Spell(usize),
}

/// One touch of the frame: its id and phase, the button under it (the
/// first of the buttons it lies on, if any) and whether it lies in the
/// joystick zone (the left 45% of the screen).
#[derive(Clone, Copy, PartialEq, Eq, Structural, Debug)]
pub struct Touch {
    pub id: u64,
    pub phase: Phase,
    pub button: Option<BtnKind>,
    pub stick_zone: bool,
}

/// The touch state kept between frames: whether the overlay has been
/// shown, and the id of the touch holding the joystick.
#[derive(Clone, Copy, PartialEq, Eq, Structural, Debug)]
pub struct TouchState {
    pub enabled: bool,
    pub stick_id: Option<u64>,
}

/// What a frame's touches did: the buttons pressed, the touches that hit
/// no control (taps, for menus), the touch that grabbed the joystick (its
/// origin) and the last touch that moved it.
pub struct TouchOutcome {
    pub attack: bool,
    pub interact: bool,
    pub inventory: bool,
    pub cast: Option<usize>,
    pub taps: Vec<usize>,
    pub stick_start: Option<usize>,
    pub stick_move: Option<usize>,
}

/// The outcome as plain values: (attack, interact, inventory, cast, taps,
/// stick_start, stick_move).
pub type OutcomeView = (bool, bool, bool, Option<usize>, Seq<usize>, Option<usize>, Option<usize>);

pub open spec fn outcome_view(o: TouchOutcome) -> OutcomeView {
    (o.attack, o.interact, o.inventory, o.cast, o.taps@, o.stick_start, o.stick_move)
}

pub open spec fn no_outcome() -> OutcomeView {
    (false, false, false, None, Seq::empty(), None, None)
}

/// Touch `k` of the frame, holding stick `stick` before it: the stick
/// afterwards and the outcome so far.
pub open spec fn touch_step(t: Touch, k: usize, stick: Option<u64>, o: OutcomeView) -> (Option<u64>, OutcomeView) {
    match t.phase {
        Phase::Started => match t.button {
            Some(BtnKind::Attack) => (stick, (true, o.1, o.2, o.3, o.4, o.5, o.6)),
            Some(BtnKind::Interact) => (stick, (o.0, true, o.2, o.3, o.4, o.5, o.6)),
            Some(BtnKind::Inventory) => (stick, (o.0, o.1, true, o.3, o.4, o.5, o.6)),
            Some(BtnKind::Spell(i)) => (stick, (o.0, o.1, o.2, Some(i), o.4, o.5, o.6)),
            None => if t.stick_zone && stick is None {
                (Some(t.id), (o.0, o.1, o.2, o.3, o.4, Some(k), o.6))
            } else {
                (stick, (o.0, o.1, o.2, o.3, o.4.push(k), o.5, o.6))
            },
        },
        Phase::Moved | Phase::Stationary => if stick == Some(t.id) {
            (stick, (o.0, o.1, o.2, o.3, o.4, o.5, Some(k)))
        } else {
            (stick, o)
        },
        Phase::Ended | Phase::Cancelled => if stick == Some(t.id) {
            (None, o)
        } else {
            (stick, o)
        },
    }
}

/// The first `n` touches in turn.
pub open spec fn touch_fold(ts: Seq<Touch>, stick: Option<u64>, n: int) -> (Option<u64>, OutcomeView)
    decreases n,
{
    if n <= 0 {
        (stick, no_outcome())
    } else {
        let prev = touch_fold(ts, stick, n - 1);
        touch_step(ts[n - 1], (n - 1) as usize, prev.0, prev.1)
    }
}

/// Whether some touch of the frame has id `id`.
pub open spec fn present(ts: Seq<Touch>, id: u64) -> bool {
    exists|k: int| 0 <= k < ts.len() && (#[trigger] ts[k]).id == id
}

/// A frame of touches: with no touches and no stick, nothing happens;
/// otherwise the overlay is on, each touch acts in turn, and a stick whose
/// finger vanished without an end is released.
pub open spec fn touched(s: TouchState, ts: Seq<Touch>, s2: TouchState, o: OutcomeView) -> bool {
    if ts.len() == 0 && s.stick_id is None {
        s2 == s && o == no_outcome()
    } else {
        let r = touch_fold(ts, s.stick_id, ts.len() as int);
        &&& s2.enabled == (s.enabled || ts.len() > 0)
        &&& o == r.1
        &&& s2.stick_id == (match r.0 {
            Some(id) => if present(ts, id) { Some(id) } else { None },
            None => None,
        })
    }
}

impl TouchState {
    /// Touch controls not yet shown, no stick.
    pub fn new() -> (s: TouchState)
        ensures
            !s.enabled && s.stick_id is None,
    {
        TouchState { enabled: false, stick_id: None }
    }

    /// Runs a frame's touches (see `touched`).
    /// One frame of touches (see `touched`).
    pub fn update(&mut self, touches: &Vec<Touch>) -> (o: TouchOutcome)
        ensures
            touched(*old(self), touches@, *final(self), outcome_view(o)),
    {
        let mut o = TouchOutcome {
            attack: false,
            interact: false,
            inventory: false,
            cast: None,
            taps: Vec::new(),
            stick_start: None,
            stick_move: None,
        };
        assert(outcome_view(o) =~= no_outcome());
        if touches.len() == 0 && self.stick_id.is_none() {
            return o;
        }
        let ghost ts = touches@;
        let ghost s0 = *self;
        let mut k: usize = 0;
        while k < touches.len()
            invariant
                ts == touches@,
                k <= ts.len(),
                k > 0 ==> self.enabled,
                k == 0 ==> self.enabled == s0.enabled,
                (self.stick_id, outcome_view(o)) == touch_fold(ts, s0.stick_id, k as int),
            decreases ts.len() - k,
        {
            let t = touches[k];
            self.enabled = true;
            let ghost before = outcome_view(o);
            match t.phase {
                Phase::Started => {
                    match t.button {
                        Some(BtnKind::Attack) => { o.attack = true; },
                        Some(BtnKind::Interact) => { o.interact = true; },
                        Some(BtnKind::Inventory) => { o.inventory = true; },
                        Some(BtnKind::Spell(i)) => { o.cast = Some(i); },
                        None => {
                            if t.stick_zone && self.stick_id.is_none() {
                                self.stick_id = Some(t.id);
                                o.stick_start = Some(k);
                            } else {
                                o.taps.push(k);
                            }
                        },
                    }
                },
                Phase::Moved | Phase::Stationary => {
                    if self.stick_id == Some(t.id) {
                        o.stick_move = Some(k);
                    }
                },
                Phase::Ended | Phase::Cancelled => {
                    if self.stick_id == Some(t.id) {
                        self.stick_id = None;
                    }
                },
            }
            assert((self.stick_id, outcome_view(o)) =~= touch_step(ts[k as int], k, touch_fold(ts, s0.stick_id, k as int).0, before));
            k = k + 1;
        }
        if let Some(id) = self.stick_id {
            let mut found = false;
            let mut j: usize = 0;
            while j < touches.len()
                invariant
                    ts == touches@,
                    j <= ts.len(),
                    found == exists|m: int| 0 <= m < j && (#[trigger] ts[m]).id == id,
                decreases ts.len() - j,
            {
                if touches[j].id == id {
                    found = true;
                }
                j = j + 1;
            }
            if !found {
                self.stick_id = None;
            }
        }
        o
    }
}

/// The label of spell button `i`.
pub open spec fn spell_label(i: int) -> Seq<char> {
    if i == 0 { "1"@ } else if i == 1 { "2"@ } else if i == 2 { "3"@ } else { "4"@ }
}

/// The buttons, in the order a touch is tested against them: attack,
/// interact, inventory, then one per spell, at most four.
pub open spec fn button_list(spell_count: int) -> Seq<(BtnKind, Seq<char>)> {
    let n = if spell_count < 4 { spell_count } else { 4 };
    seq![(BtnKind::Attack, "ATK"@), (BtnKind::Interact, "E"@), (BtnKind::Inventory, "INV"@)] + Seq::new(
        n as nat,
        |i: int| (BtnKind::Spell(i as usize), spell_label(i)),
    )
}

pub open spec fn buttons_view(v: Seq<(BtnKind, &'static str)>) -> Seq<(BtnKind, Seq<char>)> {
    v.map_values(|b: (BtnKind, &'static str)| (b.0, b.1@))
}

/// The on-screen buttons and their labels (see `button_list`); where each
/// one is drawn is the application's concern.
pub fn buttons(spell_count: usize) -> (b: Vec<(BtnKind, &'static str)>)
    ensures
        buttons_view(b@) == button_list(spell_count as int),
{
    let mut b: Vec<(BtnKind, &'static str)> = Vec::new();
    b.push((BtnKind::Attack, "ATK"));
    b.push((BtnKind::Interact, "E"));
    b.push((BtnKind::Inventory, "INV"));
    let n: usize = if spell_count < 4 { spell_count } else { 4 };
    let mut i: usize = 0;
    while i < n
        invariant
            n <= 4,
            n == (if spell_count < 4 { spell_count as int } else { 4 }),
            i <= n,
            buttons_view(b@) == seq![(BtnKind::Attack, "ATK"@), (BtnKind::Interact, "E"@), (BtnKind::Inventory, "INV"@)]
                + Seq::new(i as nat, |j: int| (BtnKind::Spell(j as usize), spell_label(j))),
        decreases n - i,
    {
        let label: &'static str = if i == 0 {
            "1"
        } else if i == 1 {
            "2"
        } else if i == 2 {
            "3"
        } else {
            "4"
        };
        let ghost before = buttons_view(b@);
        b.push((BtnKind::Spell(i), label));
        assert(buttons_view(b@) =~= before.push((BtnKind::Spell(i), spell_label(i as int))));
        assert(seq![(BtnKind::Attack, "ATK"@), (BtnKind::Interact, "E"@), (BtnKind::Inventory, "INV"@)] + Seq::new(
            (i + 1) as nat,
            |j: int| (BtnKind::Spell(j as usize), spell_label(j)),
        ) =~= (seq![(BtnKind::Attack, "ATK"@), (BtnKind::Interact, "E"@), (BtnKind::Inventory, "INV"@)] + Seq::new(
            i as nat,
            |j: int| (BtnKind::Spell(j as usize), spell_label(j)),
        )).push((BtnKind::Spell(i), spell_label(i as int))));
        i = i + 1;
    }
    b
}

} // verus!
