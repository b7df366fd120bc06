use sysprogs::barrel_game::{
    key2dir, BarrelGame, Barrel, Cell, Dir, Player, Position, Status, HEIGHT, WIDTH,
};
use sysprogs::keys::{DecodedKey, KeyCode};

fn pos(row: i16, col: i16) -> Position {
    Position { row, col }
}

fn run_updates(game: &mut BarrelGame, n: usize) {
    for _ in 0..n {
        game.update();
    }
}

#[test]
fn new_game_reads_the_start_layout() {
    let game = BarrelGame::new();
    assert_eq!(game.status(), Status::Running);
    assert_eq!(game.score(), 0);
    assert!(game.player_at(pos(12, 13)));
    assert!(!game.player_at(pos(12, 14)));
    for col in 0..WIDTH as i16 {
        assert_eq!(game.cell(pos(10, col)), Cell::Wall);
        assert_eq!(game.cell(pos(13, col)), Cell::Wall);
    }
    for row in 0..HEIGHT as i16 {
        assert_eq!(game.cell(pos(row, 0)), Cell::Wall);
        assert_eq!(game.cell(pos(row, 79)), Cell::Wall);
    }
    assert_eq!(game.cell(pos(11, 5)), Cell::Empty);
    assert_eq!(game.cell(pos(12, 13)), Cell::Empty);
    assert_eq!(game.cell(pos(0, 40)), Cell::Empty);
    assert!(!game.barrel_at(pos(12, 78)));
}

#[test]
fn countdown_completes_every_fourth_call() {
    let mut game = BarrelGame::new();
    let calls: Vec<bool> = (0..9).map(|_| game.countdown_complete()).collect();
    assert_eq!(calls, vec![false, false, false, true, false, false, false, true, false]);
}

#[test]
fn jump_up_and_fall_back() {
    let mut game = BarrelGame::new();
    game.key(DecodedKey::RawKey(KeyCode::ArrowUp));
    game.update();
    assert!(game.player_at(pos(11, 13)));
    game.update();
    assert!(game.player_at(pos(11, 13)));
    game.update();
    assert!(game.player_at(pos(12, 13)));
}

#[test]
fn typed_w_also_jumps_and_other_keys_do_not() {
    let mut game = BarrelGame::new();
    game.key(DecodedKey::Unicode('x'));
    game.key(DecodedKey::RawKey(KeyCode::ArrowLeft));
    game.update();
    assert!(game.player_at(pos(12, 13)));
    game.key(DecodedKey::Unicode('w'));
    game.update();
    assert!(game.player_at(pos(11, 13)));
}

#[test]
fn first_barrel_arrives_on_the_thirteenth_update() {
    let mut game = BarrelGame::new();
    run_updates(&mut game, 12);
    assert!(!game.barrel_at(pos(12, 77)));
    game.update();
    assert!(game.barrel_at(pos(12, 77)));
    assert!(!game.barrel_at(pos(500, 500)));
    game.update();
    assert!(game.barrel_at(pos(12, 76)));
}

#[test]
fn standing_still_loses_the_game() {
    let mut game = BarrelGame::new();
    run_updates(&mut game, 76);
    assert_eq!(game.status(), Status::Running);
    assert!(game.barrel_at(pos(12, 14)));
    game.update();
    assert_eq!(game.status(), Status::Over);
    assert_eq!(game.score(), 0);
    // A game that is over does not change any more.
    let frozen = game;
    run_updates(&mut game, 5);
    assert_eq!(game, frozen);
}

#[test]
fn jumping_over_a_barrel_scores() {
    let mut game = BarrelGame::new();
    run_updates(&mut game, 76);
    game.key(DecodedKey::RawKey(KeyCode::ArrowUp));
    game.update();
    assert_eq!(game.status(), Status::Running);
    assert_eq!(game.score(), 1);
    assert!(!game.barrel_at(pos(12, 13)));
}

#[test]
fn restart_after_game_over() {
    let mut game = BarrelGame::new();
    run_updates(&mut game, 77);
    assert_eq!(game.status(), Status::Over);
    game.key(DecodedKey::Unicode('w'));
    assert_eq!(game.status(), Status::Over);
    game.key(DecodedKey::RawKey(KeyCode::ArrowUp));
    assert_eq!(game.status(), Status::Over);
    game.key(DecodedKey::Unicode('s'));
    assert_eq!(game.status(), Status::Running);
    assert_eq!(game.score(), 0);
    assert!(game.player_at(pos(12, 13)));
}

#[test]
fn raw_s_restarts_too() {
    let mut game = BarrelGame::new();
    run_updates(&mut game, 77);
    game.key(DecodedKey::RawKey(KeyCode::S));
    assert_eq!(game.status(), Status::Running);
}

#[test]
fn reset_keeps_the_barrels() {
    let mut game = BarrelGame::new();
    run_updates(&mut game, 20);
    assert!(game.barrel_at(pos(12, 70)));
    game.reset();
    assert!(game.barrel_at(pos(12, 70)));
    assert_eq!(game.score(), 0);
}

#[test]
fn move_barrels_on_a_new_game_changes_nothing() {
    let mut game = BarrelGame::new();
    let before = game;
    game.move_barrels();
    assert_eq!(game, before);
}

#[test]
fn cell_positions_in_row_major_order() {
    let game = BarrelGame::new();
    let mut it = game.cell_pos_iter();
    assert_eq!(it.next(), Some(pos(0, 0)));
    assert_eq!(it.next(), Some(pos(0, 1)));
    let mut count = 2;
    let mut last = pos(0, 1);
    while let Some(p) = it.next() {
        count += 1;
        last = p;
    }
    assert_eq!(count, WIDTH * HEIGHT);
    assert_eq!(last, pos(HEIGHT as i16 - 1, WIDTH as i16 - 1));
    assert_eq!(it.next(), None);
}

#[test]
fn positions_and_directions() {
    let p = pos(5, 7);
    assert!(p.is_legal());
    assert!(!pos(-1, 0).is_legal());
    assert!(!pos(0, 80).is_legal());
    assert!(!pos(23, 0).is_legal());
    assert!(pos(22, 79).is_legal());
    assert_eq!(p.row_col(), (5, 7));
    assert_eq!(p.neighbor(Dir::N), pos(4, 7));
    assert_eq!(p.neighbor(Dir::S), pos(6, 7));
    assert_eq!(p.neighbor(Dir::E), pos(5, 8));
    assert_eq!(p.neighbor(Dir::W), pos(5, 6));
    for d in [Dir::N, Dir::S, Dir::E, Dir::W] {
        assert_eq!(p.neighbor(d).neighbor(d.reverse()), p);
    }
    // only the coordinate that moves has to stay within i16
    assert_eq!(pos(i16::MAX, 0).neighbor(Dir::N), pos(i16::MAX - 1, 0));
    assert_eq!(pos(i16::MAX, i16::MAX).neighbor(Dir::W), pos(i16::MAX, i16::MAX - 1));
    let mut b = Barrel::new(pos(i16::MAX, i16::MAX));
    b.spawn(pos(i16::MAX, i16::MAX));
    assert_eq!(b.neighbor(), pos(i16::MAX, i16::MAX - 1));
    assert_eq!(Dir::N.reverse(), Dir::S);
    assert_eq!(Dir::E.reverse(), Dir::W);
    assert_eq!(Dir::N.left(), Dir::W);
    assert_eq!(Dir::W.left(), Dir::S);
    assert_eq!(Dir::N.right(), Dir::E);
    assert_eq!(Dir::S.right(), Dir::W);
    assert_eq!(key2dir(DecodedKey::RawKey(KeyCode::ArrowUp)), Some(Dir::N));
    assert_eq!(key2dir(DecodedKey::Unicode('w')), Some(Dir::N));
    assert_eq!(key2dir(DecodedKey::RawKey(KeyCode::ArrowDown)), None);
}

#[test]
fn players_and_barrels() {
    assert_eq!(Player::icon(), '~');
    let player = Player::new(pos(3, 4));
    assert!(!player.jumping);
    assert_eq!(player.collision(), pos(2, 4));
    let mut barrel = Barrel::new(pos(12, 78));
    assert!(!barrel.is_active());
    assert_eq!(barrel.dir, Dir::E);
    assert_eq!(barrel.neighbor(), pos(12, 79));
    barrel.spawn(pos(1, 2));
    assert!(barrel.is_active());
    assert_eq!(barrel.dir, Dir::W);
    assert_eq!(barrel.neighbor(), pos(1, 1));
}

#[test]
fn the_player_never_stands_in_a_wall() {
    let mut game = BarrelGame::new();
    let keys = [
        DecodedKey::RawKey(KeyCode::ArrowUp),
        DecodedKey::Unicode('w'),
        DecodedKey::RawKey(KeyCode::ArrowLeft),
        DecodedKey::Unicode('s'),
        DecodedKey::RawKey(KeyCode::S),
    ];
    for step in 0..400 {
        if step % 7 == 0 {
            game.key(keys[step / 7 % keys.len()]);
        }
        if game.countdown_complete() {
            game.update();
        }
        let mut on_player: Vec<Position> = vec![];
        let mut it = game.cell_pos_iter();
        while let Some(p) = it.next() {
            if game.player_at(p) {
                on_player.push(p);
            }
        }
        assert_eq!(on_player.len(), 1);
        assert!(on_player[0].is_legal());
        assert_eq!(game.cell(on_player[0]), Cell::Empty);
    }
}
