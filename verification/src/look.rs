//! The character editor's model: a hairstyle and four colour choices, the
//! sprite and palette they give, and stepping through the choices. Input,
//! drawing and saving the look to disk belong to the application.

use vstd::prelude::*;
use crate::sprites::{strs_to_rows, pal_view};

verus! {

pub const HAIR_COLORS: [(&'static str, &'static str); 8] = [
    ("Chestnut", "#6a3a1a"),
    ("Black", "#241a14"),
    ("Blond", "#d8b04a"),
    ("Red", "#a03a20"),
    ("Silver", "#b8b8c0"),
    ("Blue", "#3a5a9a"),
    ("Green", "#3a7a4a"),
    ("Pink", "#c05a8a"),
];

pub const SKIN_TONES: [(&'static str, &'static str); 8] = [
    ("Tan", "#d9a97a"),
    ("Deep", "#7a4a2a"),
    ("Rich", "#5c3a20"),
    ("Warm", "#b8825a"),
    ("Olive", "#c8a070"),
    ("Fair", "#ecc8a0"),
    ("Cool", "#a87858"),
    ("Umber", "#8a5a38"),
];

pub const SHIRT_COLORS: [(&'static str, &'static str); 8] = [
    ("Rebel Red", "#8a2a3a"),
    ("Forest", "#2a6a3a"),
    ("Union Blue", "#2a4a8a"),
    ("Plum", "#5a2a6a"),
    ("Rust", "#8a4a20"),
    ("Charcoal", "#3a3a42"),
    ("Teal", "#20686a"),
    ("Mustard", "#9a7a20"),
];

pub const PANTS_COLORS: [(&'static str, &'static str); 8] = [
    ("Denim", "#3a4a6a"),
    ("Brown", "#5c4630"),
    ("Black", "#26262c"),
    ("Olive", "#4a5230"),
    ("Gray", "#5a5a64"),
    ("Wine", "#5c2a34"),
    ("Navy", "#242e50"),
    ("Sand", "#8a7a54"),
];

pub const STYLES: [&'static str; 3] = ["Classic", "Long", "Mohawk"];

pub const SPRITE_CLASSIC: [&'static str; 12] = [
    "...hhhhhh...",
    "..hhhhhhhh..",
    "..haaaaaah..",
    "..haeaaeah..",
    "...aaaaaa...",
    "....aaaa....",
    "..rcccccrc..",
    ".c.cccccc.c.",
    "...cccccc...",
    "...bbbbbb...",
    "...bb..bb...",
    "..sbb..bbs..",
];

pub const SPRITE_LONG: [&'static str; 12] = [
    "...hhhhhh...",
    "..hhhhhhhh..",
    ".hhaaaaaahh.",
    ".hhaeaaeahh.",
    ".hhaaaaaahh.",
    ".h..aaaa..h.",
    "..rcccccrc..",
    ".c.cccccc.c.",
    "...cccccc...",
    "...bbbbbb...",
    "...bb..bb...",
    "..sbb..bbs..",
];

pub const SPRITE_MOHAWK: [&'static str; 12] = [
    ".....hh.....",
    ".....hh.....",
    "..aahhhhaa..",
    "..haeaaeah..",
    "...aaaaaa...",
    "....aaaa....",
    "..rcccccrc..",
    ".c.cccccc.c.",
    "...cccccc...",
    "...bbbbbb...",
    "...bb..bb...",
    "..sbb..bbs..",
];

/// The editor's rows: hairstyle, hair, skin, shirt, pants.
pub const ROWS: usize = 5;

/// A look: indices into the styles and colour lists (taken modulo their
/// lengths when used).
#[derive(Clone, Copy)]
pub struct PlayerLook {
    pub style: usize,
    pub hair: usize,
    pub skin: usize,
    pub shirt: usize,
    pub pants: usize,
}

/// The sprite rows of a hairstyle.
pub open spec fn style_rows(style: int) -> [&'static str; 12] {
    if style % 3 == 1 {
        SPRITE_LONG
    } else if style % 3 == 2 {
        SPRITE_MOHAWK
    } else {
        SPRITE_CLASSIC
    }
}

/// The palette of a look: hair, skin, eyes, shirt, the red armband, pants, shoes.
pub open spec fn look_palette(l: PlayerLook) -> Seq<(Seq<char>, Seq<char>)> {
    seq![
        ("h"@, HAIR_COLORS[(l.hair % 8) as int].1@),
        ("a"@, SKIN_TONES[(l.skin % 8) as int].1@),
        ("e"@, "#221a2a"@),
        ("c"@, SHIRT_COLORS[(l.shirt % 8) as int].1@),
        ("r"@, "#cc2233"@),
        ("b"@, PANTS_COLORS[(l.pants % 8) as int].1@),
        ("s"@, "#2a2a2a"@),
    ]
}

impl PlayerLook {
    /// The rows of the player sprite for this hairstyle.
    pub fn sprite_rows(&self) -> (rows: Vec<String>)
        ensures
            rows@.len() == 12,
            forall|i: int| 0 <= i < 12 ==> (#[trigger] rows@[i])@ == style_rows(self.style as int)[i]@,
    {
        let k = self.style % STYLES.len();
        if k == 1 {
            strs_to_rows(SPRITE_LONG.as_slice())
        } else if k == 2 {
            strs_to_rows(SPRITE_MOHAWK.as_slice())
        } else {
            strs_to_rows(SPRITE_CLASSIC.as_slice())
        }
    }

    /// The palette for this look (see `look_palette`).
    pub fn palette(&self) -> (p: Vec<(String, String)>)
        ensures
            pal_view(p@) == look_palette(*self),
    {
        let mut p: Vec<(String, String)> = Vec::new();
        p.push((String::from_str("h"), String::from_str(HAIR_COLORS[self.hair % 8].1)));
        p.push((String::from_str("a"), String::from_str(SKIN_TONES[self.skin % 8].1)));
        p.push((String::from_str("e"), String::from_str("#221a2a")));
        p.push((String::from_str("c"), String::from_str(SHIRT_COLORS[self.shirt % 8].1)));
        p.push((String::from_str("r"), String::from_str("#cc2233")));
        p.push((String::from_str("b"), String::from_str(PANTS_COLORS[self.pants % 8].1)));
        p.push((String::from_str("s"), String::from_str("#2a2a2a")));
        assert(pal_view(p@) =~= look_palette(*self));
        p
    }
}

/// The label and the current choice shown on editor row `row` (rows past
/// the last show the pants).
pub open spec fn label_of(look: PlayerLook, row: int) -> (Seq<char>, Seq<char>) {
    if row == 0 {
        ("Hairstyle"@, STYLES[(look.style % 3) as int]@)
    } else if row == 1 {
        ("Hair"@, HAIR_COLORS[(look.hair % 8) as int].0@)
    } else if row == 2 {
        ("Skin"@, SKIN_TONES[(look.skin % 8) as int].0@)
    } else if row == 3 {
        ("Shirt"@, SHIRT_COLORS[(look.shirt % 8) as int].0@)
    } else {
        ("Pants"@, PANTS_COLORS[(look.pants % 8) as int].0@)
    }
}

/// The label and current choice of an editor row (see `label_of`).
pub fn row_label(look: &PlayerLook, row: usize) -> (r: (&'static str, &'static str))
    ensures
        r.0@ == label_of(*look, row as int).0,
        r.1@ == label_of(*look, row as int).1,
{
    if row == 0 {
        ("Hairstyle", STYLES[look.style % 3])
    } else if row == 1 {
        ("Hair", HAIR_COLORS[look.hair % 8].0)
    } else if row == 2 {
        ("Skin", SKIN_TONES[look.skin % 8].0)
    } else if row == 3 {
        ("Shirt", SHIRT_COLORS[look.shirt % 8].0)
    } else {
        ("Pants", PANTS_COLORS[look.pants % 8].0)
    }
}

/// Stepping choice `v` of `n` by `dir`, wrapping around: the step is taken
/// on `v` read as an `i32`, and the remainder is the Euclidean one.
pub open spec fn stepped(v: usize, n: int, dir: i32) -> usize {
    (((v as i32) as int + dir) % n) as usize
}

/// The choice that editor row `row` changes.
pub open spec fn choice(look: PlayerLook, row: int) -> usize {
    if row == 0 {
        look.style
    } else if row == 1 {
        look.hair
    } else if row == 2 {
        look.skin
    } else if row == 3 {
        look.shirt
    } else {
        look.pants
    }
}

/// How many choices editor row `row` has.
pub open spec fn choices(row: int) -> int {
    if row == 0 { 3 } else { 8 }
}

/// The look with the choice of row `row` stepped by `dir`.
pub open spec fn cycled(look: PlayerLook, row: int, dir: i32) -> PlayerLook {
    let v = stepped(choice(look, row), choices(row), dir);
    if row == 0 {
        PlayerLook { style: v, ..look }
    } else if row == 1 {
        PlayerLook { hair: v, ..look }
    } else if row == 2 {
        PlayerLook { skin: v, ..look }
    } else if row == 3 {
        PlayerLook { shirt: v, ..look }
    } else {
        PlayerLook { pants: v, ..look }
    }
}

fn step(v: usize, n: usize, dir: i32) -> (r: usize)
    requires
        1 <= n <= 8,
        i32::MIN <= (v as i32) + dir <= i32::MAX,
    ensures
        r == stepped(v, n as int, dir),
{
    let s: i32 = (v as i32) + dir;
    let m: i32 = n as i32;
    let t: i32 = s % m;
    let r: i32 = if t < 0 { t + m } else { t };
    assert(r as int == (s as int) % (m as int)) by (nonlinear_arith)
        requires
            1 <= m <= 8,
            t == (if s >= 0 { (s as int) % (m as int) } else { -((-(s as int)) % (m as int)) }),
            r == (if t < 0 { t + m } else { t as int }),
    ;
    r as usize
}

/// Steps the choice on editor row `row` by `dir`, wrapping around (see `cycled`).
pub fn cycle(look: &mut PlayerLook, row: usize, dir: i32)
    requires
        i32::MIN <= (choice(*old(look), row as int) as i32) + dir <= i32::MAX,
    ensures
        *final(look) == cycled(*old(look), row as int, dir),
{
    if row == 0 {
        look.style = step(look.style, STYLES.len(), dir);
    } else if row == 1 {
        look.hair = step(look.hair, HAIR_COLORS.len(), dir);
    } else if row == 2 {
        look.skin = step(look.skin, SKIN_TONES.len(), dir);
    } else if row == 3 {
        look.shirt = step(look.shirt, SHIRT_COLORS.len(), dir);
    } else {
        look.pants = step(look.pants, PANTS_COLORS.len(), dir);
    }
}

/// Stepping a choice forward and back again gives the look back, when the
/// choice was in range.
pub proof fn lemma_cycle_undo(look: PlayerLook, row: int)
    requires
        choice(look, row) < choices(row),
    ensures
        cycled(cycled(look, row, 1i32), row, -1i32) == look,
{
    let n = choices(row);
    let v = choice(look, row);
    assert((v as i32) as int == v as int);
    let w = stepped(v, n, 1i32);
    assert(w == (v + 1) % n);
    assert((w as i32) as int == w as int);
    assert(stepped(w, n, -1i32) == v);
}

} // verus!
