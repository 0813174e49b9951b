//! The named colours that boxes can take.
use vstd::prelude::*;

verus! {

/// Number of colours in the palette.
pub const PALETTE_LEN: u8 = 7;

/// Palette index of the text colour.
pub const FOREGROUND: u8 = 5;

/// Palette index of the screen's background colour.
pub const BACKGROUND: u8 = 6;

/// The palette, by index: lime, mint, violet, pink, amber, foreground, background.
pub open spec fn palette_spec(index: u8) -> Option<(u8, u8, u8)> {
    if index == 0 {
        Some((0xC6, 0xFF, 0x00))
    } else if index == 1 {
        Some((0x39, 0xFF, 0xB0))
    } else if index == 2 {
        Some((0xB3, 0x88, 0xFF))
    } else if index == 3 {
        Some((0xFF, 0x3D, 0xF5))
    } else if index == 4 {
        Some((0xFF, 0xB0, 0x20))
    } else if index == 5 {
        Some((0xE8, 0xEA, 0xED))
    } else if index == 6 {
        Some((0x0A, 0x0B, 0x0D))
    } else {
        None
    }
}

/// The colour at a palette index, if there is one.
pub fn palette(index: u8) -> (r: Option<(u8, u8, u8)>)
    ensures
        r == palette_spec(index),
        r.is_some() <==> index < PALETTE_LEN,
{
    match index {
        0 => Some((0xC6, 0xFF, 0x00)),
        1 => Some((0x39, 0xFF, 0xB0)),
        2 => Some((0xB3, 0x88, 0xFF)),
        3 => Some((0xFF, 0x3D, 0xF5)),
        4 => Some((0xFF, 0xB0, 0x20)),
        5 => Some((0xE8, 0xEA, 0xED)),
        6 => Some((0x0A, 0x0B, 0x0D)),
        _ => None,
    }
}

/// The colour that follows `colour` when cycling: plain goes to the first
/// colour, each colour to the next, and the last colour back to plain.
pub open spec fn next_on_palette_spec(colour: Option<u8>) -> Option<u8> {
    match colour {
        None => Some(0),
        Some(i) => if i + 1 < PALETTE_LEN {
            Some((i + 1) as u8)
        } else {
            None
        },
    }
}

/// Cycles a box's colour through the palette and back to plain.
pub fn next_on_palette(colour: Option<u8>) -> (r: Option<u8>)
    requires
        colour != Some(255u8),
    ensures
        r == next_on_palette_spec(colour),
{
    match colour {
        None => Some(0),
        Some(i) => if palette(i + 1).is_some() {
            Some(i + 1)
        } else {
            None
        },
    }
}

/// Cycling from plain visits every palette colour once, in order, and then
/// returns to plain.
pub proof fn law_cycle_visits_every_colour(k: nat)
    requires
        k <= PALETTE_LEN,
    ensures
        cycle(None, k) == (if k == 0 {
            None
        } else if k <= PALETTE_LEN as nat {
            Some((k - 1) as u8)
        } else {
            None::<u8>
        }),
        cycle(None, PALETTE_LEN as nat + 1) == None::<u8>,
    decreases k,
{
    if k > 0 {
        law_cycle_visits_every_colour((k - 1) as nat);
    }
    reveal_with_fuel(cycle, 9);
}

/// `colour` advanced `k` times.
pub open spec fn cycle(colour: Option<u8>, k: nat) -> Option<u8>
    decreases k,
{
    if k == 0 {
        colour
    } else {
        next_on_palette_spec(cycle(colour, (k - 1) as nat))
    }
}

} // verus!
