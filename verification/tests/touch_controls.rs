use capitol_dungeon::audio::lcg_step;
use capitol_dungeon::touch::{buttons, BtnKind, Phase, Touch, TouchState};

fn touch(id: u64, phase: Phase, button: Option<BtnKind>, stick_zone: bool) -> Touch {
    Touch { id, phase, button, stick_zone }
}

#[test]
fn a_quiet_frame_changes_nothing() {
    let mut s = TouchState::new();
    assert!(!s.enabled && s.stick_id.is_none());
    let o = s.update(&Vec::new());
    assert_eq!(s, TouchState::new());
    assert!(!o.attack && !o.interact && !o.inventory && o.cast.is_none());
    assert!(o.taps.is_empty() && o.stick_start.is_none() && o.stick_move.is_none());
}

#[test]
fn buttons_taps_and_the_stick() {
    let mut s = TouchState::new();
    let frame = vec![
        touch(7, Phase::Started, None, true),
        touch(8, Phase::Started, Some(BtnKind::Attack), false),
        touch(9, Phase::Started, None, false),
        touch(10, Phase::Started, Some(BtnKind::Spell(2)), false),
        touch(11, Phase::Started, None, true),
    ];
    let o = s.update(&frame);
    assert!(s.enabled);
    assert_eq!(s.stick_id, Some(7));
    assert!(o.attack && !o.interact && !o.inventory);
    assert_eq!(o.cast, Some(2));
    assert_eq!(o.stick_start, Some(0));
    assert_eq!(o.taps, vec![2, 4]);

    let o = s.update(&vec![touch(3, Phase::Moved, None, false), touch(7, Phase::Moved, None, true)]);
    assert_eq!(o.stick_move, Some(1));
    assert_eq!(s.stick_id, Some(7));

    let o = s.update(&vec![touch(7, Phase::Ended, None, true)]);
    assert!(o.stick_move.is_none());
    assert_eq!(s.stick_id, None);
    assert!(s.enabled);
}

#[test]
fn a_vanished_stick_finger_lets_go() {
    let mut s = TouchState { enabled: true, stick_id: Some(5) };
    let o = s.update(&vec![touch(6, Phase::Stationary, None, false)]);
    assert!(o.stick_move.is_none());
    assert_eq!(s.stick_id, None);
    let mut s = TouchState { enabled: true, stick_id: Some(5) };
    s.update(&Vec::new());
    assert_eq!(s.stick_id, None);
}

#[test]
fn button_list_shows_up_to_four_spells() {
    let b = buttons(2);
    assert_eq!(
        b,
        vec![
            (BtnKind::Attack, "ATK"),
            (BtnKind::Interact, "E"),
            (BtnKind::Inventory, "INV"),
            (BtnKind::Spell(0), "1"),
            (BtnKind::Spell(1), "2"),
        ]
    );
    let all = buttons(9);
    assert_eq!(all.len(), 7);
    assert_eq!(all[6], (BtnKind::Spell(3), "4"));
    assert_eq!(buttons(0).len(), 3);
}

#[test]
fn noise_seed_steps_like_the_classic_lcg() {
    assert_eq!(lcg_step(0), 1013904223);
    assert_eq!(lcg_step(1), 1015568748);
    assert_eq!(lcg_step(u32::MAX), 1012239698);
}
