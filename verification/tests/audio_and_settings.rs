use capitol_dungeon::audio::{chain, mix, wav_bytes, RATE};
use capitol_dungeon::settings::{
    music_on, set_music_on, set_shake_pct, set_volume_pct, shake_pct, volume_pct, Settings, MAX_PCT,
};

#[test]
fn wav_header_is_riff_pcm_mono() {
    let out = wav_bytes(&[1, -2]);
    assert_eq!(out.len(), 48);
    assert_eq!(&out[0..4], b"RIFF");
    assert_eq!(&out[4..8], &40u32.to_le_bytes());
    assert_eq!(&out[8..16], b"WAVEfmt ");
    assert_eq!(&out[16..20], &16u32.to_le_bytes());
    assert_eq!(&out[20..22], &1u16.to_le_bytes());
    assert_eq!(&out[22..24], &1u16.to_le_bytes());
    assert_eq!(&out[24..28], &RATE.to_le_bytes());
    assert_eq!(&out[28..32], &(RATE * 2).to_le_bytes());
    assert_eq!(&out[32..34], &2u16.to_le_bytes());
    assert_eq!(&out[34..36], &16u16.to_le_bytes());
    assert_eq!(&out[36..40], b"data");
    assert_eq!(&out[40..44], &4u32.to_le_bytes());
    assert_eq!(&out[44..48], &[1u8, 0, 0xfe, 0xff]);
}

#[test]
fn wav_of_silence_is_header_only() {
    let out = wav_bytes(&[]);
    assert_eq!(out.len(), 44);
    assert_eq!(&out[4..8], &36u32.to_le_bytes());
    assert_eq!(&out[40..44], &0u32.to_le_bytes());
}

#[test]
fn mix_sums_and_saturates() {
    assert_eq!(mix(&[vec![30000, 1], vec![10000]]), vec![32767, 1]);
    assert_eq!(mix(&[vec![-30000], vec![-10000, 5]]), vec![-32768, 5]);
    assert_eq!(mix(&[vec![100, -50, 7], vec![1, 2]]), vec![101, -48, 7]);
}

#[test]
fn mix_of_nothing_is_empty() {
    assert_eq!(mix(&[]), Vec::<i16>::new());
    assert_eq!(mix(&[vec![], vec![]]), Vec::<i16>::new());
}

#[test]
fn chain_concatenates_in_order() {
    assert_eq!(chain(&[vec![1, 2], vec![], vec![3]]), vec![1, 2, 3]);
    assert_eq!(chain(&[]), Vec::<i16>::new());
}

#[test]
fn settings_start_full_with_music() {
    let s = Settings::new();
    assert_eq!(volume_pct(&s), 100);
    assert_eq!(shake_pct(&s), 100);
    assert!(music_on(&s));
}

#[test]
fn sliders_read_back_and_cap() {
    let mut s = Settings::new();
    set_volume_pct(&mut s, 37);
    assert_eq!(volume_pct(&s), 37);
    set_volume_pct(&mut s, 250);
    assert_eq!(volume_pct(&s), MAX_PCT);
    set_shake_pct(&mut s, 0);
    assert_eq!(shake_pct(&s), 0);
    assert_eq!(volume_pct(&s), MAX_PCT);
    set_shake_pct(&mut s, 201);
    assert_eq!(shake_pct(&s), 200);
}

#[test]
fn music_toggle_reads_back() {
    let mut s = Settings::new();
    set_music_on(&mut s, false);
    assert!(!music_on(&s));
    assert_eq!(volume_pct(&s), 100);
    set_music_on(&mut s, true);
    assert!(music_on(&s));
}

#[test]
fn many_parts_mix_without_overflow() {
    let parts: Vec<Vec<i16>> = (0..70000).map(|_| vec![1]).collect();
    assert_eq!(mix(&parts), vec![32767]);
}
