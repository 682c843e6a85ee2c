use blind_host::game::{flood_fill_reveal, game_logic, setup_game, Cell, GameGrid, InputState};

fn blank_grid(width: i32, height: i32) -> GameGrid {
    GameGrid { width, height, cursor_x: 0, cursor_y: 0, game_over: false, cells: [Cell::default(); 512] }
}

fn at(g: &GameGrid, x: i32, y: i32) -> Cell {
    g.cells[(y * 32 + x) as usize]
}

fn count_neighbors(g: &GameGrid, x: i32, y: i32) -> u8 {
    let mut n = 0;
    for dy in -1..=1 {
        for dx in -1..=1 {
            if dx == 0 && dy == 0 {
                continue;
            }
            let (nx, ny) = (x + dx, y + dy);
            if nx >= 0 && nx < g.width && ny >= 0 && ny < g.height && at(g, nx, ny).is_mine {
                n += 1;
            }
        }
    }
    n
}

fn place_mine(g: &mut GameGrid, x: i32, y: i32) {
    g.cells[(y * 32 + x) as usize].is_mine = true;
    for yy in 0..g.height {
        for xx in 0..g.width {
            if !at(g, xx, yy).is_mine {
                let n = count_neighbors(g, xx, yy);
                g.cells[(yy * 32 + xx) as usize].neighbors = n;
            }
        }
    }
}

fn no_input() -> InputState {
    InputState { dx: 0, dy: 0, reveal: false, flag: false }
}

#[test]
fn default_cell_is_blank() {
    let c = Cell::default();
    assert!(!c.is_mine && !c.is_revealed && !c.is_flagged);
    assert_eq!(c.neighbors, 0);
}

#[test]
fn setup_places_twenty_mines_and_counts() {
    let mut g = blank_grid(3, 3);
    g.cells[400].is_revealed = true;
    g.game_over = true;
    setup_game(&mut g);
    assert_eq!((g.width, g.height, g.cursor_x, g.cursor_y, g.game_over), (16, 10, 0, 0, false));
    let mines = g.cells.iter().filter(|c| c.is_mine).count();
    assert_eq!(mines, 20);
    assert!(g.cells[160..].iter().all(|c| !c.is_mine));
    assert!(g.cells.iter().all(|c| !c.is_revealed && !c.is_flagged));
    for y in 0..10 {
        for x in 0..16 {
            let c = at(&g, x, y);
            if !c.is_mine {
                assert_eq!(c.neighbors, count_neighbors(&g, x, y));
            } else {
                assert_eq!(c.neighbors, 0);
            }
        }
    }
}

#[test]
fn flood_fill_opens_blank_region() {
    let mut g = blank_grid(5, 4);
    place_mine(&mut g, 4, 3);
    flood_fill_reveal(&mut g, 0, 0);
    for y in 0..4 {
        for x in 0..5 {
            assert_eq!(at(&g, x, y).is_revealed, !(x == 4 && y == 3), "cell {},{}", x, y);
        }
    }
}

#[test]
fn flood_fill_stops_at_numbers_and_flags() {
    let mut g = blank_grid(5, 1);
    place_mine(&mut g, 4, 0);
    g.cells[1].is_flagged = true;
    flood_fill_reveal(&mut g, 2, 0);
    let revealed: Vec<bool> = (0..5).map(|x| at(&g, x, 0).is_revealed).collect();
    assert_eq!(revealed, vec![false, false, true, true, false]);
}

#[test]
fn flood_fill_on_number_reveals_one() {
    let mut g = blank_grid(3, 3);
    place_mine(&mut g, 2, 2);
    flood_fill_reveal(&mut g, 1, 1);
    let count = g.cells.iter().filter(|c| c.is_revealed).count();
    assert_eq!(count, 1);
    assert!(at(&g, 1, 1).is_revealed);
}

#[test]
fn cursor_moves_and_clamps() {
    let mut g = blank_grid(4, 3);
    game_logic(&mut g, &InputState { dx: 1, dy: 1, reveal: false, flag: false });
    assert_eq!((g.cursor_x, g.cursor_y), (1, 1));
    game_logic(&mut g, &InputState { dx: 10, dy: -10, reveal: false, flag: false });
    assert_eq!((g.cursor_x, g.cursor_y), (3, 0));
    game_logic(&mut g, &InputState { dx: i32::MIN, dy: i32::MAX, reveal: false, flag: false });
    assert_eq!((g.cursor_x, g.cursor_y), (0, 2));
}

#[test]
fn flag_toggles_and_blocks_reveal() {
    let mut g = blank_grid(4, 3);
    place_mine(&mut g, 3, 2);
    game_logic(&mut g, &InputState { dx: 0, dy: 0, reveal: false, flag: true });
    assert!(at(&g, 0, 0).is_flagged);
    game_logic(&mut g, &InputState { dx: 0, dy: 0, reveal: true, flag: false });
    assert!(!at(&g, 0, 0).is_revealed);
    game_logic(&mut g, &InputState { dx: 0, dy: 0, reveal: true, flag: true });
    assert!(!at(&g, 0, 0).is_flagged);
    assert!(at(&g, 0, 0).is_revealed);
    assert!(at(&g, 1, 1).is_revealed);
    assert!(!at(&g, 3, 2).is_revealed);
    game_logic(&mut g, &InputState { dx: 0, dy: 0, reveal: false, flag: true });
    assert!(!at(&g, 0, 0).is_flagged);
}

#[test]
fn revealing_a_mine_ends_the_game() {
    let mut g = blank_grid(4, 3);
    place_mine(&mut g, 1, 0);
    game_logic(&mut g, &InputState { dx: 1, dy: 0, reveal: true, flag: false });
    assert!(g.game_over);
    assert!(at(&g, 1, 0).is_revealed);
    game_logic(&mut g, &InputState { dx: 1, dy: 0, reveal: true, flag: false });
    assert_eq!(g.cursor_x, 1);
    assert!(!at(&g, 2, 0).is_revealed);
    game_logic(&mut g, &no_input());
    assert!(g.game_over);
}
