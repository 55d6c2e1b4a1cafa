//! The colour of a tile, by its value.
use std::collections::HashMap;
use vstd::prelude::*;

verus! {

/// The colours in which tiles are shown.
#[derive(Clone, Copy, Debug, PartialEq, Eq, Structural)]
pub enum TileColor {
    Red,
    Blue,
    Green,
    Yellow,
    Magenta,
    Cyan,
    BrightRed,
    BrightBlue,
    BrightGreen,
    BrightCyan,
    White,
}

/// The colour table: the colour of each tile value from 2 to 2048.
pub open spec fn palette() -> Map<u32, TileColor> {
    map![
        2u32 => TileColor::Red,
        4u32 => TileColor::Blue,
        8u32 => TileColor::Green,
        16u32 => TileColor::Yellow,
        32u32 => TileColor::Magenta,
        64u32 => TileColor::Cyan,
        128u32 => TileColor::BrightRed,
        256u32 => TileColor::BrightBlue,
        512u32 => TileColor::BrightGreen,
        1024u32 => TileColor::Green,
        2048u32 => TileColor::BrightCyan,
    ]
}

/// The colour that a table gives to a value: the table's entry, and white
/// for a value without one.
pub open spec fn color_in(colors: Map<u32, TileColor>, value: u32) -> TileColor {
    if colors.contains_key(value) {
        colors[value]
    } else {
        TileColor::White
    }
}

/// Enters the colour table into `colors`. Entries for other values stay.
pub fn initialize_colors(colors: &mut HashMap<u32, TileColor>)
    ensures
        final(colors)@ == old(colors)@.union_prefer_right(palette()),
{
    broadcast use vstd::std_specs::hash::group_hash_axioms;

    colors.insert(2, TileColor::Red);
    colors.insert(4, TileColor::Blue);
    colors.insert(8, TileColor::Green);
    colors.insert(16, TileColor::Yellow);
    colors.insert(32, TileColor::Magenta);
    colors.insert(64, TileColor::Cyan);
    colors.insert(128, TileColor::BrightRed);
    colors.insert(256, TileColor::BrightBlue);
    colors.insert(512, TileColor::BrightGreen);
    colors.insert(1024, TileColor::Green);
    colors.insert(2048, TileColor::BrightCyan);
    assert(colors@ =~= old(colors)@.union_prefer_right(palette()));
}

/// The colour in which a cell of the given value is shown.
pub fn tile_color(colors: &HashMap<u32, TileColor>, value: u32) -> (color: TileColor)
    ensures
        color == color_in(colors@, value),
{
    broadcast use vstd::std_specs::hash::group_hash_axioms;

    match colors.get(&value) {
        Some(color) => *color,
        None => TileColor::White,
    }
}

} // verus!
