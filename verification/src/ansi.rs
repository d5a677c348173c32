//! Terminal colours of the regions: a 24-bit ANSI background per region and
//! a foreground that stays readable on it.

use vstd::prelude::*;
use vstd::string::StringExecFns;

verus! {

/// Number of colours in the region palette.
pub const PALETTE_LEN: usize = 16;

/// The region palette: colour `i` as red, green and blue.
pub open spec fn palette_rgb(i: int) -> (u8, u8, u8) {
    if i == 0 { (190, 55, 55) }
    else if i == 1 { (35, 120, 210) }
    else if i == 2 { (40, 150, 60) }
    else if i == 3 { (210, 125, 20) }
    else if i == 4 { (145, 60, 175) }
    else if i == 5 { (25, 155, 160) }
    else if i == 6 { (205, 75, 135) }
    else if i == 7 { (110, 125, 35) }
    else if i == 8 { (175, 95, 65) }
    else if i == 9 { (75, 85, 175) }
    else if i == 10 { (30, 145, 115) }
    else if i == 11 { (165, 50, 105) }
    else if i == 12 { (105, 145, 30) }
    else if i == 13 { (150, 105, 165) }
    else if i == 14 { (195, 145, 40) }
    else { (70, 120, 145) }
}

/// The character of decimal digit `d`.
pub open spec fn digit_char(d: int) -> char {
    if d == 0 { '0' }
    else if d == 1 { '1' }
    else if d == 2 { '2' }
    else if d == 3 { '3' }
    else if d == 4 { '4' }
    else if d == 5 { '5' }
    else if d == 6 { '6' }
    else if d == 7 { '7' }
    else if d == 8 { '8' }
    else { '9' }
}

/// The decimal digits of `v`, without leading zeros.
pub open spec fn decimal(v: nat) -> Seq<char>
    decreases v,
{
    if v < 10 {
        seq![digit_char(v as int)]
    } else {
        decimal(v / 10).push(digit_char((v % 10) as int))
    }
}

/// Whether black text is the readable choice on `rgb`: the luminance
/// `0.299 r + 0.587 g + 0.114 b` exceeds 140, stated in thousandths.
pub open spec fn is_light(rgb: (u8, u8, u8)) -> bool {
    299 * rgb.0 + 587 * rgb.1 + 114 * rgb.2 > 140_000
}

/// The escape sequence that sets the background to `rgb`.
pub open spec fn background_code(rgb: (u8, u8, u8)) -> Seq<char> {
    "\x1b[48;2;"@ + decimal(rgb.0 as nat) + ";"@ + decimal(rgb.1 as nat) + ";"@ + decimal(rgb.2 as nat) + "m"@
}

/// The escape sequence that colours a cell of region `reg_id`: its palette
/// background, then bold bright yellow for a tree, else black or white text
/// as the background is light or dark.
pub open spec fn region_ansi(reg_id: int, is_tree: bool) -> Seq<char> {
    let rgb = palette_rgb(reg_id % (PALETTE_LEN as int));
    background_code(rgb) + if is_tree {
        "\x1b[1;93m"@
    } else if is_light(rgb) {
        "\x1b[38;2;0;0;0m"@
    } else {
        "\x1b[38;2;255;255;255m"@
    }
}

/// Colour `i` of the region palette.
pub fn palette_color(i: usize) -> (rgb: (u8, u8, u8))
    requires
        i < PALETTE_LEN,
    ensures
        rgb == palette_rgb(i as int),
{
    match i {
        0 => (190, 55, 55),
        1 => (35, 120, 210),
        2 => (40, 150, 60),
        3 => (210, 125, 20),
        4 => (145, 60, 175),
        5 => (25, 155, 160),
        6 => (205, 75, 135),
        7 => (110, 125, 35),
        8 => (175, 95, 65),
        9 => (75, 85, 175),
        10 => (30, 145, 115),
        11 => (165, 50, 105),
        12 => (105, 145, 30),
        13 => (150, 105, 165),
        14 => (195, 145, 40),
        _ => (70, 120, 145),
    }
}

/// The one-character text of digit `d`.
fn digit_text(d: u8) -> (text: &'static str)
    requires
        d < 10,
    ensures
        text@ == seq![digit_char(d as int)],
{
    proof {
        reveal_strlit("0");
        reveal_strlit("1");
        reveal_strlit("2");
        reveal_strlit("3");
        reveal_strlit("4");
        reveal_strlit("5");
        reveal_strlit("6");
        reveal_strlit("7");
        reveal_strlit("8");
        reveal_strlit("9");
    }
    match d {
        0 => "0",
        1 => "1",
        2 => "2",
        3 => "3",
        4 => "4",
        5 => "5",
        6 => "6",
        7 => "7",
        8 => "8",
        _ => "9",
    }
}

/// Appends the decimal digits of `v` to `out`.
fn push_decimal(out: &mut String, v: u8)
    ensures
        final(out)@ == old(out)@ + decimal(v as nat),
{
    let ghost before = out@;
    if v >= 100 {
        out.append(digit_text(v / 100));
        out.append(digit_text((v / 10) % 10));
        out.append(digit_text(v % 10));
        proof {
            let v10 = (v / 10) as nat;
            assert(decimal(v10 / 10) == seq![digit_char((v / 100) as int)]);
            assert(decimal(v10) =~= seq![digit_char((v / 100) as int), digit_char((v10 % 10) as int)]);
            assert(decimal(v as nat) =~= seq![digit_char((v / 100) as int), digit_char((v10 % 10) as int), digit_char((v % 10) as int)]);
            assert(out@ =~= before + decimal(v as nat));
        }
    } else if v >= 10 {
        out.append(digit_text(v / 10));
        out.append(digit_text(v % 10));
        proof {
            assert(decimal((v / 10) as nat) == seq![digit_char((v / 10) as int)]);
            assert(decimal(v as nat) =~= seq![digit_char((v / 10) as int), digit_char((v % 10) as int)]);
            assert(out@ =~= before + decimal(v as nat));
        }
    } else {
        out.append(digit_text(v));
        proof {
            assert(out@ =~= before + decimal(v as nat));
        }
    }
}

/// The ANSI escape sequence for a cell of region `reg_id` (its colour is
/// taken modulo the palette size), marking a tree cell when `is_tree`.
pub fn get_region_ansi(reg_id: usize, is_tree: bool) -> (code: String)
    ensures
        code@ == region_ansi(reg_id as int, is_tree),
{
    let rgb = palette_color(reg_id % PALETTE_LEN);
    let (r, g, b) = rgb;
    let mut code = String::new();
    code.append("\x1b[48;2;");
    push_decimal(&mut code, r);
    code.append(";");
    push_decimal(&mut code, g);
    code.append(";");
    push_decimal(&mut code, b);
    code.append("m");
    let ghost bg = code@;
    let light = 299 * (r as u32) + 587 * (g as u32) + 114 * (b as u32) > 140_000;
    if is_tree {
        code.append("\x1b[1;93m");
    } else if light {
        code.append("\x1b[38;2;0;0;0m");
    } else {
        code.append("\x1b[38;2;255;255;255m");
    }
    proof {
        assert(bg =~= background_code(rgb));
    }
    code
}

} // verus!
