//! Pixel art as text: rows of palette characters, palettes from characters
//! to `#rrggbb` colours, and the pixels a sprite's rows and palette make.
//! Turning pixels into a texture is the application's part.

use vstd::prelude::*;
use vstd::utf8::is_char_boundary;
use vstd::string::StringSliceAdditionalSpecFns;
use vstd::utf8::encode_utf8;
use crate::text::push_char;
use crate::content::{lookup, lemma_lookup};
use crate::dungeon::widest;

verus! {

/// The player as first seen (the character editor recolours it).
pub const PLAYER_SPRITE: [&'static str; 12] = [
    "...hhhhhh...",
    "..hhhhhhhh..",
    "..haaaaaah..",
    "..haeaaeah..",
    "...aaaaaa...",
    "....aaaa....",
    "..rcccccrc..",
    ".c.cccccc.c.",
    "...cccccc...",
    "...bbbbbb...",
    "...bb..bb...",
    "..sbb..bbs..",
];

pub const CHEST_SPRITE: [&'static str; 12] = [
    "............",
    "............",
    "............",
    "..aaaaaaaa..",
    ".abbbbbbbba.",
    ".aaaaaaaaaa.",
    ".abbbggbbba.",
    ".abbbggbbba.",
    ".abbbbbbbba.",
    ".aaaaaaaaaa.",
    "............",
    "............",
];

pub const CHEST_OPEN_SPRITE: [&'static str; 12] = [
    "............",
    ".aaaaaaaaaa.",
    ".a........a.",
    ".aaaaaaaaaa.",
    ".abbbbbbbba.",
    ".aaaaaaaaaa.",
    ".abbbggbbba.",
    ".abbbbbbbba.",
    ".abbbbbbbba.",
    ".aaaaaaaaaa.",
    "............",
    "............",
];

pub const CAMPFIRE_SPRITE: [&'static str; 12] = [
    "............",
    "............",
    ".....y......",
    "....yoy.....",
    "....yoy..y..",
    "...yoooy.o..",
    "...yorroy...",
    "..yorrrroy..",
    "..sorrrros..",
    ".sswwwwwwss.",
    ".ws.wwww.sw.",
    "............",
];

pub const STAIRS_SPRITE: [&'static str; 12] = [
    "aaaaaaaaaaaa",
    "abbbbbbbbbba",
    "abssssssssba",
    "abs......sba",
    "abs.dddd.sba",
    "abs.dddd.sba",
    "abs..dd..sba",
    "abs..dd..sba",
    "abs......sba",
    "abssssssssba",
    "abbbbbbbbbba",
    "aaaaaaaaaaaa",
];

/// A palette as (character, colour) pairs of text.
pub open spec fn pal_view(p: Seq<(String, String)>) -> Seq<(Seq<char>, Seq<char>)> {
    p.map_values(|e: (String, String)| (e.0@, e.1@))
}

/// The rows of a sprite as text.
pub open spec fn rows_view(rows: Seq<String>) -> Seq<Seq<char>> {
    rows.map_values(|r: String| r@)
}

/// Owned copies of the rows.
pub fn strs_to_rows(rows: &[&str]) -> (out: Vec<String>)
    ensures
        out@.len() == rows@.len(),
        forall|i: int| 0 <= i < rows@.len() ==> (#[trigger] out@[i])@ == rows@[i]@,
{
    let mut out: Vec<String> = Vec::new();
    let mut i: usize = 0;
    while i < rows.len()
        invariant
            i <= rows@.len(),
            out@.len() == i,
            forall|j: int| 0 <= j < i ==> (#[trigger] out@[j])@ == rows@[j]@,
        decreases rows@.len() - i,
    {
        out.push(String::from_str(rows[i]));
        i = i + 1;
    }
    out
}

fn entry(k: &str, v: &str) -> (e: (String, String))
    ensures
        e.0@ == k@,
        e.1@ == v@,
{
    (String::from_str(k), String::from_str(v))
}

/// The player's default colours.
pub fn player_palette() -> (p: Vec<(String, String)>)
    ensures
        pal_view(p@) == seq![("h"@, "#6a3a1a"@), ("a"@, "#d9a97a"@), ("e"@, "#221a2a"@), ("c"@, "#8a2a3a"@),
            ("r"@, "#cc2233"@), ("b"@, "#3a4a6a"@), ("s"@, "#2a2a2a"@)],
{
    let mut p: Vec<(String, String)> = Vec::new();
    p.push(entry("h", "#6a3a1a"));
    p.push(entry("a", "#d9a97a"));
    p.push(entry("e", "#221a2a"));
    p.push(entry("c", "#8a2a3a"));
    p.push(entry("r", "#cc2233"));
    p.push(entry("b", "#3a4a6a"));
    p.push(entry("s", "#2a2a2a"));
    assert(pal_view(p@) =~= seq![("h"@, "#6a3a1a"@), ("a"@, "#d9a97a"@), ("e"@, "#221a2a"@), ("c"@, "#8a2a3a"@),
        ("r"@, "#cc2233"@), ("b"@, "#3a4a6a"@), ("s"@, "#2a2a2a"@)]);
    p
}

/// The chest's colours.
pub fn chest_palette() -> (p: Vec<(String, String)>)
    ensures
        pal_view(p@) == seq![("a"@, "#7a5230"@), ("b"@, "#a0783c"@), ("g"@, "#ffd24a"@)],
{
    let mut p: Vec<(String, String)> = Vec::new();
    p.push(entry("a", "#7a5230"));
    p.push(entry("b", "#a0783c"));
    p.push(entry("g", "#ffd24a"));
    assert(pal_view(p@) =~= seq![("a"@, "#7a5230"@), ("b"@, "#a0783c"@), ("g"@, "#ffd24a"@)]);
    p
}

/// The campfire's colours.
pub fn campfire_palette() -> (p: Vec<(String, String)>)
    ensures
        pal_view(p@) == seq![("y"@, "#ffe066"@), ("o"@, "#ff9933"@), ("r"@, "#e04422"@), ("w"@, "#7a5230"@),
            ("s"@, "#4e3018"@)],
{
    let mut p: Vec<(String, String)> = Vec::new();
    p.push(entry("y", "#ffe066"));
    p.push(entry("o", "#ff9933"));
    p.push(entry("r", "#e04422"));
    p.push(entry("w", "#7a5230"));
    p.push(entry("s", "#4e3018"));
    assert(pal_view(p@) =~= seq![("y"@, "#ffe066"@), ("o"@, "#ff9933"@), ("r"@, "#e04422"@), ("w"@, "#7a5230"@),
        ("s"@, "#4e3018"@)]);
    p
}

/// The stairs' colours.
pub fn stairs_palette() -> (p: Vec<(String, String)>)
    ensures
        pal_view(p@) == seq![("a"@, "#3a3440"@), ("b"@, "#524a5c"@), ("s"@, "#262030"@), ("d"@, "#0e0a14"@)],
{
    let mut p: Vec<(String, String)> = Vec::new();
    p.push(entry("a", "#3a3440"));
    p.push(entry("b", "#524a5c"));
    p.push(entry("s", "#262030"));
    p.push(entry("d", "#0e0a14"));
    assert(pal_view(p@) =~= seq![("a"@, "#3a3440"@), ("b"@, "#524a5c"@), ("s"@, "#262030"@), ("d"@, "#0e0a14"@)]);
    p
}

// ---------- colours ----------

/// The value of a hexadecimal digit byte.
pub open spec fn hex_digit(b: u8) -> Option<int> {
    if 48 <= b <= 57 {
        Some(b - 48)
    } else if 97 <= b <= 102 {
        Some(b - 87)
    } else if 65 <= b <= 70 {
        Some(b - 55)
    } else {
        None
    }
}

/// Two bytes read as a hexadecimal `u8` the way `u8::from_str_radix(_, 16)`
/// reads them (a leading `+` allowed), 255 when they are not one.
pub open spec fn byte_pair(a: u8, b: u8) -> int {
    if a == 43 {
        match hex_digit(b) {
            Some(d) => d,
            None => 255,
        }
    } else {
        match (hex_digit(a), hex_digit(b)) {
            (Some(x), Some(y)) => 16 * x + y,
            _ => 255,
        }
    }
}

/// The bytes after the leading `#`s.
pub open spec fn trimmed(bs: Seq<u8>) -> Seq<u8>
    decreases bs.len(),
{
    if bs.len() > 0 && bs[0] == 35 { trimmed(bs.drop_first()) } else { bs }
}

/// The colour that `#rrggbb` text names: white when fewer than six bytes
/// follow the `#`s; a channel that is not two hex digits reads 255.
pub open spec fn hex_color(bs: Seq<u8>) -> (int, int, int) {
    let t = trimmed(bs);
    if t.len() < 6 {
        (255, 255, 255)
    } else {
        (byte_pair(t[0], t[1]), byte_pair(t[2], t[3]), byte_pair(t[4], t[5]))
    }
}

/// The colour text can be read without cutting a character in two (the
/// channels are read as byte pairs at offsets 0, 2 and 4).
pub open spec fn hex_readable(bs: Seq<u8>) -> bool {
    let t = trimmed(bs);
    t.len() < 6 || (is_char_boundary(t, 2) && is_char_boundary(t, 4) && is_char_boundary(t, 6))
}

fn digit_value(b: u8) -> (r: Option<u8>)
    ensures
        match r {
            Some(d) => hex_digit(b) == Some(d as int),
            None => hex_digit(b) is None,
        },
{
    if 48 <= b && b <= 57 {
        Some(b - 48)
    } else if 97 <= b && b <= 102 {
        Some(b - 87)
    } else if 65 <= b && b <= 70 {
        Some(b - 55)
    } else {
        None
    }
}

fn pair_value(a: u8, b: u8) -> (r: u8)
    ensures
        r == byte_pair(a, b),
{
    if a == 43 {
        match digit_value(b) {
            Some(d) => d,
            None => 255,
        }
    } else {
        match (digit_value(a), digit_value(b)) {
            (Some(x), Some(y)) => 16 * x + y,
            _ => 255,
        }
    }
}

/// Reads `#rrggbb` text as red, green and blue (see `hex_color`).
pub fn hex_rgb(s: &str) -> (c: (u8, u8, u8))
    requires
        hex_readable(s.spec_bytes()),
    ensures
        c.0 == hex_color(s.spec_bytes()).0,
        c.1 == hex_color(s.spec_bytes()).1,
        c.2 == hex_color(s.spec_bytes()).2,
{
    let b = s.as_bytes();
    let ghost bs = b@;
    let mut i: usize = 0;
    assert(bs.subrange(0, bs.len() as int) =~= bs);
    while i < b.len() && b[i] == 35
        invariant
            i <= bs.len(),
            bs == b@,
            trimmed(bs) == trimmed(bs.subrange(i as int, bs.len() as int)),
        decreases bs.len() - i,
    {
        assert(bs.subrange(i as int, bs.len() as int).drop_first() =~= bs.subrange(i + 1, bs.len() as int));
        i = i + 1;
    }
    let ghost t = bs.subrange(i as int, bs.len() as int);
    assert(trimmed(t) == t);
    if b.len() - i < 6 {
        return (255, 255, 255);
    }
    (pair_value(b[i], b[i + 1]), pair_value(b[i + 2], b[i + 3]), pair_value(b[i + 4], b[i + 5]))
}

// ---------- the pixels of a sprite ----------

/// The colour text a palette gives character `ch`: the first entry keyed
/// by that one character.
pub open spec fn pal_lookup(p: Seq<(Seq<char>, Seq<char>)>, ch: char) -> Option<Seq<char>> {
    let k = lookup(p.map_values(|e: (Seq<char>, Seq<char>)| e.0), seq![ch]);
    if k >= 0 { Some(p[k].1) } else { None }
}

/// The width of a sprite: its longest row, at least 1.
pub open spec fn sprite_w(rows: Seq<Seq<char>>) -> int {
    let w = widest(rows, rows.len() as int);
    if w > 1 { w } else { 1 }
}

/// The height of a sprite: its number of rows, at least 1.
pub open spec fn sprite_h(rows: Seq<Seq<char>>) -> int {
    if rows.len() > 1 { rows.len() as int } else { 1 }
}

/// Pixel (x, y) as red, green, blue, alpha: transparent for `.`, a space or
/// past the end of a row; otherwise the palette's colour for the
/// character, white when the palette has none.
pub open spec fn pixel(rows: Seq<Seq<char>>, p: Seq<(Seq<char>, Seq<char>)>, x: int, y: int) -> (u8, u8, u8, u8) {
    if 0 <= y < rows.len() && 0 <= x < rows[y].len() && rows[y][x] != '.' && rows[y][x] != ' ' {
        match pal_lookup(p, rows[y][x]) {
            Some(v) => {
                let c = hex_color(encode_utf8(v));
                (c.0 as u8, c.1 as u8, c.2 as u8, 255u8)
            },
            None => (255u8, 255u8, 255u8, 255u8),
        }
    } else {
        (0u8, 0u8, 0u8, 0u8)
    }
}

fn colour_of(p: &Vec<(String, String)>, ch: char) -> (c: (u8, u8, u8, u8))
    requires
        forall|i: int| 0 <= i < p@.len() ==> hex_readable(encode_utf8((#[trigger] p@[i]).1@)),
        ch != '.' && ch != ' ',
    ensures
        c == (match pal_lookup(pal_view(p@), ch) {
            Some(v) => {
                let h = hex_color(encode_utf8(v));
                (h.0 as u8, h.1 as u8, h.2 as u8, 255u8)
            },
            None => (255u8, 255u8, 255u8, 255u8),
        }),
{
    let mut key = String::new();
    push_char(&mut key, ch);
    let ghost keys = pal_view(p@).map_values(|e: (Seq<char>, Seq<char>)| e.0);
    let mut i: usize = 0;
    while i < p.len()
        invariant
            i <= p@.len(),
            keys == pal_view(p@).map_values(|e: (Seq<char>, Seq<char>)| e.0),
            key@ == seq![ch],
            forall|j: int| 0 <= j < i ==> keys[j] != seq![ch],
            forall|j: int| 0 <= j < p@.len() ==> hex_readable(encode_utf8((#[trigger] p@[j]).1@)),
        decreases p@.len() - i,
    {
        if p[i].0 == key {
            proof { lemma_lookup(keys, seq![ch], i as int); }
            let v = p[i].1.as_str();
            assert(v.spec_bytes() == encode_utf8(p@[i as int].1@));
            let (r, g, b) = hex_rgb(v);
            return (r, g, b, 255);
        }
        i = i + 1;
    }
    proof { lemma_lookup(keys, seq![ch], i as int); }
    (255, 255, 255, 255)
}

proof fn lemma_cell(y: int, x: int, w: int)
    requires
        0 <= y,
        0 <= x < w,
    ensures
        0 <= y * w,
        y * w + x < (y + 1) * w,
        (y + 1) * w == y * w + w,
{
    assert(0 <= y * w) by (nonlinear_arith)
        requires
            0 <= y,
            0 <= w,
    ;
    assert((y + 1) * w == y * w + w) by (nonlinear_arith);
}

proof fn lemma_rows_before(yy: int, y: int, w: int)
    requires
        0 <= yy < y,
        0 < w,
    ensures
        (yy + 1) * w <= y * w,
{
    assert((yy + 1) * w <= y * w) by (nonlinear_arith)
        requires
            yy + 1 <= y,
            0 < w,
    ;
}

/// The pixels of a sprite, row by row (see `pixel`), with its width and
/// height.
pub fn sprite_pixels(rows: &Vec<String>, p: &Vec<(String, String)>) -> (r: (usize, usize, Vec<(u8, u8, u8, u8)>))
    requires
        forall|i: int| 0 <= i < p@.len() ==> hex_readable(encode_utf8((#[trigger] p@[i]).1@)),
        sprite_w(rows_view(rows@)) * sprite_h(rows_view(rows@)) <= usize::MAX,
    ensures
        r.0 == sprite_w(rows_view(rows@)),
        r.1 == sprite_h(rows_view(rows@)),
        r.2@.len() == r.0 * r.1,
        forall|x: int, y: int|
            0 <= x < r.0 && 0 <= y < r.1 ==> r.2@[y * r.0 + x] == #[trigger] pixel(rows_view(rows@), pal_view(p@), x, y),
{
    let ghost g = rows_view(rows@);
    let ghost pv = pal_view(p@);
    let mut widest_row: usize = 0;
    let mut k: usize = 0;
    while k < rows.len()
        invariant
            k <= rows@.len(),
            g == rows_view(rows@),
            widest_row == widest(g, k as int),
        decreases rows@.len() - k,
    {
        let n = rows[k].as_str().unicode_len();
        if n > widest_row {
            widest_row = n;
        }
        k = k + 1;
    }
    let w: usize = if widest_row > 1 { widest_row } else { 1 };
    let h: usize = if rows.len() > 1 { rows.len() } else { 1 };
    let mut px: Vec<(u8, u8, u8, u8)> = Vec::new();
    let mut y: usize = 0;
    while y < h
        invariant
            g == rows_view(rows@),
            pv == pal_view(p@),
            forall|i: int| 0 <= i < p@.len() ==> hex_readable(encode_utf8((#[trigger] p@[i]).1@)),
            w == sprite_w(g),
            h == sprite_h(g),
            w * h <= usize::MAX,
            y <= h,
            px@.len() == y * w,
            forall|xx: int, yy: int|
                0 <= xx < w && 0 <= yy < y ==> px@[yy * w + xx] == #[trigger] pixel(g, pv, xx, yy),
        decreases h - y,
    {
        let mut x: usize = 0;
        proof {
            lemma_cell(y as int, 0, w as int);
            assert((y + 1) * w <= w * h) by (nonlinear_arith)
                requires
                    y < h,
                    0 < w,
            ;
        }
        while x < w
            invariant
                g == rows_view(rows@),
                pv == pal_view(p@),
                forall|i: int| 0 <= i < p@.len() ==> hex_readable(encode_utf8((#[trigger] p@[i]).1@)),
                w == sprite_w(g),
                h == sprite_h(g),
                y < h,
                (y + 1) * w <= usize::MAX,
                (y + 1) * w == y * w + w,
                x <= w,
                px@.len() == y * w + x,
                forall|xx: int, yy: int|
                    0 <= xx < w && 0 <= yy < y ==> px@[yy * w + xx] == #[trigger] pixel(g, pv, xx, yy),
                forall|xx: int| 0 <= xx < x ==> px@[y * w + xx] == #[trigger] pixel(g, pv, xx, y as int),
            decreases w - x,
        {
            let c = if y < rows.len() && x < rows[y].as_str().unicode_len() {
                let ch = rows[y].as_str().get_char(x);
                if ch == '.' || ch == ' ' {
                    (0u8, 0u8, 0u8, 0u8)
                } else {
                    colour_of(p, ch)
                }
            } else {
                (0u8, 0u8, 0u8, 0u8)
            };
            let ghost before = px@;
            px.push(c);
            proof {
                assert forall|xx: int, yy: int| 0 <= xx < w && 0 <= yy < y implies px@[yy * w + xx] == #[trigger] pixel(
                    g,
                    pv,
                    xx,
                    yy,
                ) by {
                    lemma_cell(yy, xx, w as int);
                    lemma_rows_before(yy, y as int, w as int);
                    assert(before[yy * w + xx] == pixel(g, pv, xx, yy));
                }
                assert forall|xx: int| 0 <= xx < x + 1 implies px@[y * w + xx] == #[trigger] pixel(g, pv, xx, y as int) by {
                    if xx < x {
                        assert(before[y * w + xx] == pixel(g, pv, xx, y as int));
                    }
                }
            }
            x = x + 1;
        }
        y = y + 1;
    }
    assert(y * w == w * h) by (nonlinear_arith)
        requires
            y == h,
    ;
    (w, h, px)
}

} // verus!
