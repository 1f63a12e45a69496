//! The colors of files and folders.
use vstd::prelude::*;

use crate::model::Color;

verus! {

pub open spec fn rgb(r: u8, g: u8, b: u8) -> Color {
    Color { r, g, b }
}

/// The color of folders at a depth; six colors take turns.
pub open spec fn folder_color_at(depth: nat) -> Color {
    let palette = seq![
        rgb(0x4C, 0x8B, 0xF5),
        rgb(0x34, 0xC7, 0x59),
        rgb(0xF5, 0xA6, 0x23),
        rgb(0xE0, 0x55, 0x5B),
        rgb(0x9C, 0x6A, 0xDE),
        rgb(0x2E, 0xC4, 0xB6),
    ];
    palette[(depth % 6) as int]
}

/// The color of files.
pub open spec fn file_color_of() -> Color {
    rgb(0x6C, 0x75, 0x7D)
}

/// The color of folders at a depth.
pub fn folder_color(depth: usize) -> (c: Color)
    ensures
        c == folder_color_at(depth as nat),
{
    match depth % 6 {
        0 => Color { r: 0x4C, g: 0x8B, b: 0xF5 },
        1 => Color { r: 0x34, g: 0xC7, b: 0x59 },
        2 => Color { r: 0xF5, g: 0xA6, b: 0x23 },
        3 => Color { r: 0xE0, g: 0x55, b: 0x5B },
        4 => Color { r: 0x9C, g: 0x6A, b: 0xDE },
        _ => Color { r: 0x2E, g: 0xC4, b: 0xB6 },
    }
}

/// The color of files.
pub fn file_color() -> (c: Color)
    ensures
        c == file_color_of(),
{
    Color { r: 0x6C, g: 0x75, b: 0x7D }
}


/// Folders at two depths have the same color exactly if the depths are a multiple of six apart, and
/// none has the color of files.
pub proof fn law_six_colors_take_turns(d: nat, e: nat)
    ensures
        (folder_color_at(d) == folder_color_at(e)) == (d % 6 == e % 6),
        folder_color_at(d) != file_color_of(),
        folder_color_at(d + 6) == folder_color_at(d),
{
    assert((d + 6) % 6 == d % 6);
    assert(d % 6 < 6 && e % 6 < 6);
    assert(folder_color_at(d).r == if d % 6 == 0 {
        0x4Cu8
    } else if d % 6 == 1 {
        0x34u8
    } else if d % 6 == 2 {
        0xF5u8
    } else if d % 6 == 3 {
        0xE0u8
    } else if d % 6 == 4 {
        0x9Cu8
    } else {
        0x2Eu8
    });
    assert(folder_color_at(e).r == if e % 6 == 0 {
        0x4Cu8
    } else if e % 6 == 1 {
        0x34u8
    } else if e % 6 == 2 {
        0xF5u8
    } else if e % 6 == 3 {
        0xE0u8
    } else if e % 6 == 4 {
        0x9Cu8
    } else {
        0x2Eu8
    });
}

/// Going down, folders are blue, green, orange, red, purple and turquoise in turn; files are gray.
pub proof fn law_colors_are_known(d: nat)
    requires
        d % 6 == 0,
    ensures
        folder_color_at(d) == (Color { r: 0x4C, g: 0x8B, b: 0xF5 }),
        folder_color_at(d + 1) == (Color { r: 0x34, g: 0xC7, b: 0x59 }),
        folder_color_at(d + 2) == (Color { r: 0xF5, g: 0xA6, b: 0x23 }),
        folder_color_at(d + 3) == (Color { r: 0xE0, g: 0x55, b: 0x5B }),
        folder_color_at(d + 4) == (Color { r: 0x9C, g: 0x6A, b: 0xDE }),
        folder_color_at(d + 5) == (Color { r: 0x2E, g: 0xC4, b: 0xB6 }),
        file_color_of() == (Color { r: 0x6C, g: 0x75, b: 0x7D }),
{
}

} // verus!
