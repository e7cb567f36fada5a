use capitol_dungeon::look::{cycle, row_label, PlayerLook, SPRITE_LONG, SPRITE_MOHAWK};
use capitol_dungeon::sprites::{
    campfire_palette, chest_palette, hex_rgb, player_palette, sprite_pixels, stairs_palette, strs_to_rows,
    PLAYER_SPRITE,
};
use capitol_dungeon::text::{is_white, push_int, push_nat, wrap_text};

fn owned(v: &[&str]) -> Vec<String> {
    v.iter().map(|s| s.to_string()).collect()
}

#[test]
fn wrap_breaks_at_word_boundaries() {
    assert_eq!(wrap_text("the quick brown fox jumps", 10), owned(&["the quick", "brown fox", "jumps"]));
}

#[test]
fn wrap_collapses_runs_of_whitespace() {
    assert_eq!(wrap_text("  a\t\tb \n c  ", 34), owned(&["a b c"]));
}

#[test]
fn wrap_of_blank_text_is_one_empty_line() {
    assert_eq!(wrap_text("", 5), owned(&[""]));
    assert_eq!(wrap_text("   ", 5), owned(&[""]));
}

#[test]
fn wrap_gives_long_words_their_own_line() {
    assert_eq!(wrap_text("supercalifragilistic is long", 5), owned(&["supercalifragilistic", "is", "long"]));
}

#[test]
fn wrap_exact_fit_stays_on_line() {
    assert_eq!(wrap_text("ab cd", 5), owned(&["ab cd"]));
    assert_eq!(wrap_text("ab cde", 5), owned(&["ab", "cde"]));
}

#[test]
fn whitespace_is_unicode_white_space() {
    assert!(is_white(' '));
    assert!(is_white('\n'));
    assert!(is_white('\u{3000}'));
    assert!(!is_white('x'));
    assert!(!is_white('\u{200b}'));
}

#[test]
fn integers_print_like_display() {
    let mut s = String::from("x=");
    push_int(&mut s, -42);
    assert_eq!(s, "x=-42");
    let mut t = String::new();
    push_int(&mut t, i64::MIN);
    assert_eq!(t, i64::MIN.to_string());
    let mut u = String::new();
    push_nat(&mut u, 0);
    push_nat(&mut u, 907);
    assert_eq!(u, "0907");
}

#[test]
fn hex_reads_rgb() {
    assert_eq!(hex_rgb("#ffd24a"), (255, 210, 74));
    assert_eq!(hex_rgb("0e0a14"), (14, 10, 20));
    assert_eq!(hex_rgb("##A0783C"), (160, 120, 60));
}

#[test]
fn hex_short_text_is_white() {
    assert_eq!(hex_rgb("#abc"), (255, 255, 255));
    assert_eq!(hex_rgb(""), (255, 255, 255));
}

#[test]
fn hex_bad_channels_read_255() {
    assert_eq!(hex_rgb("#zz0010"), (255, 0, 16));
    assert_eq!(hex_rgb("#+f-100"), (15, 255, 0));
}

#[test]
fn palettes_list_their_colours() {
    let p = player_palette();
    assert_eq!(p.len(), 7);
    assert_eq!(p[0], ("h".to_string(), "#6a3a1a".to_string()));
    assert_eq!(p[6], ("s".to_string(), "#2a2a2a".to_string()));
    assert_eq!(chest_palette()[2], ("g".to_string(), "#ffd24a".to_string()));
    assert_eq!(campfire_palette().len(), 5);
    assert_eq!(stairs_palette()[3], ("d".to_string(), "#0e0a14".to_string()));
}

#[test]
fn rows_are_owned_copies() {
    let rows = strs_to_rows(&PLAYER_SPRITE);
    assert_eq!(rows.len(), 12);
    assert_eq!(rows[0], "...hhhhhh...");
}

#[test]
fn pixels_follow_the_palette() {
    let rows = owned(&["g.", "a x"]);
    let pal = vec![("g".to_string(), "#ffd24a".to_string()), ("a".to_string(), "#010203".to_string())];
    let (w, h, px) = sprite_pixels(&rows, &pal);
    assert_eq!((w, h), (3, 2));
    assert_eq!(px.len(), 6);
    assert_eq!(px[0], (255, 210, 74, 255));
    assert_eq!(px[1], (0, 0, 0, 0));
    assert_eq!(px[2], (0, 0, 0, 0));
    assert_eq!(px[3], (1, 2, 3, 255));
    assert_eq!(px[4], (0, 0, 0, 0));
    assert_eq!(px[5], (255, 255, 255, 255));
}

#[test]
fn empty_sprite_is_one_clear_pixel() {
    let (w, h, px) = sprite_pixels(&Vec::new(), &Vec::new());
    assert_eq!((w, h), (1, 1));
    assert_eq!(px, vec![(0, 0, 0, 0)]);
}

#[test]
fn look_picks_hairstyle_rows() {
    let look = PlayerLook { style: 4, hair: 0, skin: 0, shirt: 0, pants: 0 };
    let rows = look.sprite_rows();
    assert_eq!(rows, strs_to_rows(&SPRITE_LONG));
    let mohawk = PlayerLook { style: 2, ..look };
    assert_eq!(mohawk.sprite_rows()[0], SPRITE_MOHAWK[0]);
}

#[test]
fn look_palette_uses_choices() {
    let look = PlayerLook { style: 0, hair: 10, skin: 1, shirt: 2, pants: 7 };
    let p = look.palette();
    assert_eq!(p[0], ("h".to_string(), "#d8b04a".to_string()));
    assert_eq!(p[1], ("a".to_string(), "#7a4a2a".to_string()));
    assert_eq!(p[3], ("c".to_string(), "#2a4a8a".to_string()));
    assert_eq!(p[5], ("b".to_string(), "#8a7a54".to_string()));
    assert_eq!(p[4], ("r".to_string(), "#cc2233".to_string()));
}

#[test]
fn row_labels_name_the_choice() {
    let look = PlayerLook { style: 5, hair: 3, skin: 0, shirt: 9, pants: 1 };
    assert_eq!(row_label(&look, 0), ("Hairstyle", "Mohawk"));
    assert_eq!(row_label(&look, 1), ("Hair", "Red"));
    assert_eq!(row_label(&look, 3), ("Shirt", "Forest"));
    assert_eq!(row_label(&look, 9), ("Pants", "Brown"));
}

#[test]
fn cycle_wraps_both_ways() {
    let mut look = PlayerLook { style: 0, hair: 7, skin: 0, shirt: 0, pants: 0 };
    cycle(&mut look, 0, -1);
    assert_eq!(look.style, 2);
    cycle(&mut look, 1, 1);
    assert_eq!(look.hair, 0);
    cycle(&mut look, 4, -1);
    assert_eq!(look.pants, 7);
}

#[test]
fn cycle_forward_then_back_restores() {
    let start = PlayerLook { style: 1, hair: 4, skin: 7, shirt: 0, pants: 3 };
    for row in 0..5 {
        let mut look = start;
        cycle(&mut look, row, 1);
        cycle(&mut look, row, -1);
        assert_eq!(
            (look.style, look.hair, look.skin, look.shirt, look.pants),
            (start.style, start.hair, start.skin, start.shirt, start.pants)
        );
    }
}
