use sysprogs::kernel::{
    game_choice, tick, CursorMover, GameChoice, Highlight, Position, NUM_GAMES, START_SCREEN_LEN,
};
use sysprogs::keys::{DecodedKey, KeyCode};

#[test]
fn menu_starts_on_the_first_game() {
    let menu = CursorMover::new();
    assert_eq!(menu.cursor(), Position { col: 0, row: 3 });
    assert_eq!(menu.highlight(), Highlight { choice: GameChoice::Tracer, col: 0, row: 3 });
    assert!(!menu.game_running());
    assert_eq!(menu.game_name(), GameChoice::Tracer);
}

#[test]
fn menu_order_and_titles() {
    let titles: Vec<&str> = (0..NUM_GAMES).map(|i| game_choice(i).name()).collect();
    assert_eq!(
        titles,
        vec![
            "Tracer",
            "Letter Mover",
            "Ghost Hunter",
            "Daniel's Game",
            "Chicken Invaders",
            "Snake",
            "Space Invaders"
        ]
    );
}

#[test]
fn cursor_moves_and_stops_at_the_ends() {
    let mut menu = CursorMover::new();
    menu.key(DecodedKey::RawKey(KeyCode::ArrowUp));
    assert_eq!(menu.cursor().row, 3);
    assert_eq!(menu.update(), None);
    menu.key(DecodedKey::RawKey(KeyCode::ArrowDown));
    assert_eq!(menu.cursor().row, 4);
    assert_eq!(menu.update(), Some(Highlight { choice: GameChoice::Letters, col: 0, row: 4 }));
    assert_eq!(menu.update(), None);
    for _ in 0..10 {
        menu.key(DecodedKey::RawKey(KeyCode::ArrowDown));
    }
    assert_eq!(menu.cursor().row, 9);
    assert_eq!(menu.highlight().choice, GameChoice::SpaceInvaders);
    menu.key(DecodedKey::RawKey(KeyCode::ArrowLeft));
    menu.key(DecodedKey::RawKey(KeyCode::ArrowRight));
    assert_eq!(menu.cursor(), Position { col: 0, row: 9 });
}

#[test]
fn s_starts_the_game_under_the_cursor() {
    let mut menu = CursorMover::new();
    menu.key(DecodedKey::RawKey(KeyCode::ArrowDown));
    menu.key(DecodedKey::RawKey(KeyCode::ArrowDown));
    menu.key(DecodedKey::Unicode('x'));
    assert!(!menu.game_running());
    menu.key(DecodedKey::Unicode('s'));
    assert!(menu.game_running());
    assert_eq!(menu.game_name(), GameChoice::GhostHunter);
}

#[test]
fn tick_updates_every_fourth_time() {
    let mut menu = CursorMover::new();
    menu.key(DecodedKey::RawKey(KeyCode::ArrowDown));
    assert_eq!(tick(&mut menu), None);
    assert_eq!(tick(&mut menu), None);
    assert_eq!(tick(&mut menu), None);
    assert_eq!(tick(&mut menu), Some(Highlight { choice: GameChoice::Letters, col: 0, row: 4 }));
    for _ in 0..8 {
        assert_eq!(tick(&mut menu), None);
    }
}

#[test]
fn position_row_col() {
    assert_eq!(Position { col: 7, row: 2 }.row_col(), (2, 7));
}

#[test]
fn first_screen_of_the_menu() {
    let mut menu = CursorMover::new();
    let screen = menu.start_screen();
    assert_eq!(screen.len(), START_SCREEN_LEN);
    let shown: Vec<(&str, usize, usize, bool)> =
        screen.iter().map(|t| (t.text, t.col, t.row, t.highlighted)).collect();
    assert_eq!(
        shown,
        vec![
            ("Press S to start game", 0, 0, false),
            ("Press R to resume game", 0, 1, false),
            ("Press K to resume game", 0, 2, false),
            ("Tracer", 0, 3, false),
            ("Letter Mover", 0, 4, false),
            ("Ghost Hunter", 0, 5, false),
            ("Daniel's Game", 0, 6, false),
            ("Chicken Invaders", 0, 7, false),
            ("Snake", 0, 8, false),
            ("Space Invaders", 0, 9, false),
            ("Tracer", 0, 3, true),
        ]
    );
    menu.key(DecodedKey::RawKey(KeyCode::ArrowDown));
    let last = menu.start_screen()[START_SCREEN_LEN - 1];
    assert_eq!((last.text, last.row, last.highlighted), ("Letter Mover", 4, true));
}
