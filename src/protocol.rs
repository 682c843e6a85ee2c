//! Plain data that guests and the host exchange through shared memory.
use vstd::prelude::*;

verus! {

/// Component id of `Position`.
pub const COMPONENT_POSITION: u32 = 1;
/// Component id of `Tile`.
pub const COMPONENT_TILE: u32 = 2;
/// Resource id of `GameConfig`.
pub const RESOURCE_CONFIG: u32 = 100;
/// Resource id of `GameState`.
pub const RESOURCE_STATE: u32 = 101;
/// Resource id of the board.
pub const GRID_RESOURCE_ID: i32 = 100;

/// Widest board.
pub const MAX_WIDTH: usize = 32;
/// Tallest board.
pub const MAX_HEIGHT: usize = 16;
/// Cells of the largest board.
pub const MAX_CELLS: usize = 512;

/// Input kind: nothing happened.
pub const INPUT_NONE: u32 = 0;
/// Input kind: a key was pressed.
pub const INPUT_KEY: u32 = 1;

/// Key codes past the last Unicode scalar value.
pub const KEY_ENTER: u32 = 0x110000;
pub const KEY_ESC: u32 = 0x110001;
pub const KEY_BACKSPACE: u32 = 0x110002;
pub const KEY_LEFT: u32 = 0x110003;
pub const KEY_RIGHT: u32 = 0x110004;
pub const KEY_UP: u32 = 0x110005;
pub const KEY_DOWN: u32 = 0x110006;
pub const KEY_DELETE: u32 = 0x110007;
pub const KEY_TAB: u32 = 0x110008;

/// Modifier bits.
pub const MOD_SHIFT: u8 = 1;
pub const MOD_CTRL: u8 = 2;
pub const MOD_ALT: u8 = 4;

/// A board coordinate.
#[derive(Debug, Clone, Copy, PartialEq, Eq, Structural)]
pub struct Position {
    pub x: i32,
    pub y: i32,
}

/// One tile: `status` is 0 hidden, 1 revealed, 2 flagged.
#[derive(Debug, Clone, Copy, PartialEq, Eq, Structural)]
pub struct Tile {
    pub is_mine: i32,
    pub adj_count: i32,
    pub status: i32,
}

/// Board size and mine count.
#[derive(Debug, Clone, Copy, PartialEq, Eq, Structural, Default)]
pub struct GameConfig {
    pub width: i32,
    pub height: i32,
    pub mine_count: i32,
}

/// Flags of a running game, each 0 or 1.
#[derive(Debug, Clone, Copy, PartialEq, Eq, Structural, Default)]
pub struct GameState {
    pub is_game_over: i32,
    pub is_victory: i32,
    pub first_move: i32,
}

/// One cell of a shared board.
#[derive(Debug, Clone, Copy, PartialEq, Eq, Structural)]
pub struct Cell {
    pub is_mine: bool,
    pub neighbors: u8,
    pub status: u8,
    pub _padding: u8,
}

/// A shared board, row stride `MAX_WIDTH`.
#[derive(Clone, Copy)]
pub struct GameGrid {
    pub width: i32,
    pub height: i32,
    pub cells: [Cell; 512],
}

/// One character cell of a terminal grid.
#[derive(Debug, Clone, Copy, PartialEq, Eq, Structural, Default)]
pub struct GridCell {
    pub character: u32,
    pub fg_color: u8,
    pub bg_color: u8,
    pub padding: u16,
}

/// One input event for a terminal grid.
#[derive(Debug, Clone, Copy, Default)]
pub struct GridInput {
    pub input_type: u32,
    pub key_code: u32,
    pub modifiers: u8,
    pub padding: [u8; 3],
}

} // verus!
