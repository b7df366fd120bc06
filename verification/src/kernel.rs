use vstd::prelude::*;

use crate::keys::{DecodedKey, KeyCode};

verus! {

/// Timer ticks between two updates of the menu.
pub const UPDATE_FREQUENCY: usize = 3;

/// Columns of the VGA text buffer.
pub const BUFFER_WIDTH: usize = 80;

/// Number of games the menu offers.
pub const NUM_GAMES: usize = 7;

/// Screen row of the first game of the menu.
pub const FIRST_GAME_ROW: i16 = 3;

/// Screen row of the last game of the menu.
pub const LAST_GAME_ROW: i16 = 9;

/// The games the kernel can start.
#[derive(Debug, Clone, Copy, PartialEq, Eq, Structural)]
pub enum GameChoice {
    GhostHunter,
    Tracer,
    Letters,
    SpaceInvaders,
    Chicken,
    Burnett,
    Hodgins,
}

/// The games in the order of the menu, top to bottom.
pub const GAME_CHOICES: [GameChoice; NUM_GAMES] = [
    GameChoice::Tracer,
    GameChoice::Letters,
    GameChoice::GhostHunter,
    GameChoice::Burnett,
    GameChoice::Chicken,
    GameChoice::Hodgins,
    GameChoice::SpaceInvaders,
];

/// The game on line `i` of the menu.
pub open spec fn choice_at(i: int) -> GameChoice {
    if i == 0 {
        GameChoice::Tracer
    } else if i == 1 {
        GameChoice::Letters
    } else if i == 2 {
        GameChoice::GhostHunter
    } else if i == 3 {
        GameChoice::Burnett
    } else if i == 4 {
        GameChoice::Chicken
    } else if i == 5 {
        GameChoice::Hodgins
    } else {
        GameChoice::SpaceInvaders
    }
}

/// The title the menu shows for a game.
pub open spec fn title_of(g: GameChoice) -> Seq<char> {
    match g {
        GameChoice::GhostHunter => "Ghost Hunter"@,
        GameChoice::Tracer => "Tracer"@,
        GameChoice::Letters => "Letter Mover"@,
        GameChoice::SpaceInvaders => "Space Invaders"@,
        GameChoice::Chicken => "Chicken Invaders"@,
        GameChoice::Burnett => "Daniel's Game"@,
        GameChoice::Hodgins => "Snake"@,
    }
}

impl GameChoice {
    /// The title the menu shows for the game.
    pub fn name(&self) -> (n: &'static str)
        ensures
            n@ == title_of(*self),
    {
        match self {
            GameChoice::GhostHunter => "Ghost Hunter",
            GameChoice::Tracer => "Tracer",
            GameChoice::Letters => "Letter Mover",
            GameChoice::SpaceInvaders => "Space Invaders",
            GameChoice::Chicken => "Chicken Invaders",
            GameChoice::Burnett => "Daniel's Game",
            GameChoice::Hodgins => "Snake",
        }
    }
}

/// The game on line `i` of the menu.
pub fn game_choice(i: usize) -> (g: GameChoice)
    requires
        i < NUM_GAMES,
    ensures
        g == choice_at(i as int),
{
    GAME_CHOICES[i]
}

/// A position on the screen.
#[derive(Debug, Clone, Copy, PartialEq, Eq, Structural)]
pub struct Position {
    pub col: i16,
    pub row: i16,
}

impl Position {
    /// The position as a (row, column) pair of indices.
    pub fn row_col(&self) -> (r: (usize, usize))
        ensures
            r == (self.row as usize, self.col as usize),
            self.row >= 0 && self.col >= 0 ==> r.0 == self.row && r.1 == self.col,
    {
        (self.row as usize, self.col as usize)
    }
}

/// What the screen must show after an update: the list of games redrawn, and the game
/// `choice` highlighted at column `col`, row `row`.
#[derive(Debug, Clone, Copy, PartialEq, Eq, Structural)]
pub struct Highlight {
    pub choice: GameChoice,
    pub col: usize,
    pub row: usize,
}

/// A piece of text on the screen: where it starts, and whether it is highlighted (black on
/// white) rather than plain (white on black).
#[derive(Debug, Clone, Copy)]
pub struct ScreenText {
    pub text: &'static str,
    pub col: usize,
    pub row: usize,
    pub highlighted: bool,
}

/// The prompt on row `i` of the menu's first screen.
pub open spec fn prompt_of(i: int) -> Seq<char> {
    if i == 0 {
        "Press S to start game"@
    } else if i == 1 {
        "Press R to resume game"@
    } else {
        "Press K to resume game"@
    }
}

/// Number of pieces of text on the menu's first screen.
pub const START_SCREEN_LEN: usize = 11;

/// Piece `i` of the menu's first screen, drawn in this order: the three prompts on rows 0
/// to 2, the titles of the games on rows 3 to 9, all in column 0, and last the game under
/// the cursor highlighted where the cursor is.
pub open spec fn start_screen_piece(m: MenuView, i: int) -> (Seq<char>, int, int, bool) {
    if i < 3 {
        (prompt_of(i), 0, i, false)
    } else if i < 10 {
        (title_of(choice_at(i - 3)), 0, i, false)
    } else {
        (title_of(selected(m)), m.cursor.col as int, m.cursor.row as int, true)
    }
}

/// `t` is piece `i` of the menu's first screen.
pub open spec fn shows_piece(m: MenuView, t: ScreenText, i: int) -> bool {
    let (text, col, row, highlighted) = start_screen_piece(m, i);
    t.text@ == text && t.col == col && t.row == row && t.highlighted == highlighted
}

/// The kernel's menu: a cursor that moves over the list of games and starts one.
#[derive(Debug, Clone, Copy, PartialEq, Eq)]
pub struct CursorMover {
    letters: [char; BUFFER_WIDTH],
    cursor_pos: Position,
    countdown: usize,
    last_key: Option<KeyCode>,
    new_move: bool,
    game_running: bool,
    game_name: GameChoice,
}

/// The kernel's main state.
pub type KernelMain = CursorMover;

/// The abstract state of the menu.
pub struct MenuView {
    pub letters: Seq<char>,
    pub cursor: Position,
    pub countdown: usize,
    pub last_key: Option<KeyCode>,
    pub new_move: bool,
    pub game_running: bool,
    pub game_name: GameChoice,
}

impl View for CursorMover {
    type V = MenuView;

    closed spec fn view(&self) -> MenuView {
        MenuView {
            letters: self.letters@,
            cursor: self.cursor_pos,
            countdown: self.countdown,
            last_key: self.last_key,
            new_move: self.new_move,
            game_running: self.game_running,
            game_name: self.game_name,
        }
    }
}

/// The cursor stands in column 0 on one of the game lines, and the countdown is within its
/// period.
pub open spec fn menu_ok(m: MenuView) -> bool {
    &&& m.cursor.col == 0
    &&& FIRST_GAME_ROW <= m.cursor.row <= LAST_GAME_ROW
    &&& m.countdown <= UPDATE_FREQUENCY
}

impl CursorMover {
    /// Every menu keeps `menu_ok`.
    #[verifier::type_invariant]
    spec fn menu_invariant(self) -> bool {
        menu_ok(self@)
    }
}


/// The game under the cursor.
pub open spec fn selected(m: MenuView) -> GameChoice {
    choice_at(m.cursor.row - FIRST_GAME_ROW)
}

/// What the screen shows for the menu: the game under the cursor, highlighted where the
/// cursor is.
pub open spec fn highlight_of(m: MenuView) -> Highlight {
    Highlight { choice: selected(m), col: m.cursor.col as usize, row: m.cursor.row as usize }
}

/// A raw key moves the cursor: left and right send it to column 0; up and down move it
/// one game line, stopping at the first and the last, and mark the menu for redrawing
/// when it moved. Other keys change nothing.
pub open spec fn after_raw_key(m: MenuView, k: KeyCode) -> MenuView {
    match k {
        KeyCode::ArrowRight => MenuView { cursor: Position { col: 0, ..m.cursor }, ..m },
        KeyCode::ArrowLeft => MenuView { cursor: Position { col: 0, ..m.cursor }, ..m },
        KeyCode::ArrowUp => if m.cursor.row - 1 <= FIRST_GAME_ROW - 1 {
            MenuView { cursor: Position { row: FIRST_GAME_ROW, ..m.cursor }, ..m }
        } else {
            MenuView { cursor: Position { row: (m.cursor.row - 1) as i16, ..m.cursor }, new_move: true, ..m }
        },
        KeyCode::ArrowDown => if m.cursor.row + 1 >= LAST_GAME_ROW + 1 {
            MenuView { cursor: Position { row: LAST_GAME_ROW, ..m.cursor }, ..m }
        } else {
            MenuView { cursor: Position { row: (m.cursor.row + 1) as i16, ..m.cursor }, new_move: true, ..m }
        },
        _ => m,
    }
}

/// A typed character: `s` starts the game under the cursor; others change nothing.
pub open spec fn after_char_key(m: MenuView, c: char) -> MenuView {
    if c == 's' {
        MenuView { game_name: selected(m), game_running: true, ..m }
    } else {
        m
    }
}

/// A key press on the menu.
pub open spec fn after_menu_key(m: MenuView, key: DecodedKey) -> MenuView {
    match key {
        DecodedKey::RawKey(k) => after_raw_key(m, k),
        DecodedKey::Unicode(c) => after_char_key(m, c),
    }
}

/// One update of the menu: a pending cursor move is shown, and the pending key forgotten.
pub open spec fn menu_updated(m: MenuView) -> MenuView {
    MenuView { new_move: false, last_key: None, ..m }
}

impl CursorMover {
    /// The menu as it starts: cursor on the first game, the first game chosen, nothing
    /// running.
    pub fn new() -> (m: Self)
        ensures
            m@ == (MenuView {
                letters: Seq::new(BUFFER_WIDTH as nat, |i: int| 'A'),
                cursor: Position { col: 0, row: FIRST_GAME_ROW },
                countdown: UPDATE_FREQUENCY,
                last_key: None,
                new_move: false,
                game_running: false,
                game_name: choice_at(0),
            }),
            menu_ok(m@),
    {
        let m = CursorMover {
            letters: ['A'; BUFFER_WIDTH],
            cursor_pos: Position { col: 0, row: 3 },
            countdown: UPDATE_FREQUENCY,
            last_key: None,
            new_move: false,
            game_running: false,
            game_name: GAME_CHOICES[0],
        };
        assert(m.letters@ =~= Seq::new(BUFFER_WIDTH as nat, |i: int| 'A'));
        m
    }

    /// What the screen shows for the menu: the game under the cursor, highlighted.
    pub fn highlight(&self) -> (h: Highlight)
        ensures
            h == highlight_of(self@),
    {
        proof {
            use_type_invariant(&*self);
        }
        let i = self.cursor_pos.row as usize - 3;
        Highlight {
            choice: game_choice(i),
            col: self.cursor_pos.col as usize,
            row: self.cursor_pos.row as usize,
        }
    }

    /// The menu's first screen: the prompts, the list of games, and the game under the
    /// cursor highlighted, in the order they are drawn.
    pub fn start_screen(&self) -> (lines: Vec<ScreenText>)
        ensures
            lines.len() == START_SCREEN_LEN,
            forall|i: int| 0 <= i < START_SCREEN_LEN ==> shows_piece(self@, #[trigger] lines@[i], i),
    {
        proof {
            use_type_invariant(&*self);
        }
        let mut lines: Vec<ScreenText> = Vec::new();
        lines.push(ScreenText { text: "Press S to start game", col: 0, row: 0, highlighted: false });
        lines.push(ScreenText { text: "Press R to resume game", col: 0, row: 1, highlighted: false });
        lines.push(ScreenText { text: "Press K to resume game", col: 0, row: 2, highlighted: false });
        let mut i: usize = 0;
        while i < NUM_GAMES
            invariant
                i <= NUM_GAMES,
                menu_ok(self@),
                lines.len() == 3 + i,
                forall|j: int| 0 <= j < 3 + i ==> shows_piece(self@, #[trigger] lines@[j], j),
            decreases NUM_GAMES - i,
        {
            let g = game_choice(i);
            lines.push(ScreenText { text: g.name(), col: 0, row: i + 3, highlighted: false });
            i = i + 1;
        }
        let h = self.highlight();
        lines.push(ScreenText { text: h.choice.name(), col: h.col, row: h.row, highlighted: true });
        lines
    }

    /// Whether a game has been started from the menu.
    pub fn game_running(&self) -> (b: bool)
        ensures
            b == self@.game_running,
    {
        self.game_running
    }

    /// The game last started from the menu.
    pub fn game_name(&self) -> (g: GameChoice)
        ensures
            g == self@.game_name,
    {
        self.game_name
    }

    /// Where the cursor stands.
    pub fn cursor(&self) -> (p: Position)
        ensures
            p == self@.cursor,
    {
        self.cursor_pos
    }

    /// One update: when the cursor has moved since the last update, the menu must be
    /// redrawn with the game under the cursor highlighted, and that is returned. The
    /// pending key is forgotten.
    pub fn update(&mut self) -> (redraw: Option<Highlight>)
        ensures
            final(self)@ == menu_updated(old(self)@),
            redraw == if old(self)@.new_move {
                Some(highlight_of(old(self)@))
            } else {
                None
            },
    {
        proof {
            use_type_invariant(&*self);
        }
        let redraw = self.move_cursor();
        self.last_key = None;
        redraw
    }

    /// Counts down to the next update: true, and the countdown restarts, when it has run out.
    pub fn countdown_complete(&mut self) -> (done: bool)
        ensures
            done == (old(self)@.countdown == 0),
            final(self)@ == (MenuView {
                countdown: if done {
                    UPDATE_FREQUENCY
                } else {
                    (old(self)@.countdown - 1) as usize
                },
                ..old(self)@
            }),
    {
        proof {
            use_type_invariant(&*self);
        }
        if self.countdown == 0 {
            self.countdown = UPDATE_FREQUENCY;
            true
        } else {
            self.countdown -= 1;
            false
        }
    }

    fn move_cursor(&mut self) -> (redraw: Option<Highlight>)
        ensures
            final(self)@ == (MenuView { new_move: false, ..old(self)@ }),
            redraw == if old(self)@.new_move {
                Some(highlight_of(old(self)@))
            } else {
                None
            },
    {
        proof {
            use_type_invariant(&*self);
        }
        if self.new_move {
            let h = self.highlight();
            self.new_move = false;
            Some(h)
        } else {
            None
        }
    }

    /// A key press: raw keys move the cursor, the character `s` starts the game under it.
    pub fn key(&mut self, key: DecodedKey)
        ensures
            final(self)@ == after_menu_key(old(self)@, key),
    {
        proof {
            use_type_invariant(&*self);
        }
        match key {
            DecodedKey::RawKey(code) => self.key2dir_code(code),
            DecodedKey::Unicode(c) => self.key2dir_char(c),
        }
    }

    fn key2dir_code(&mut self, key: KeyCode)
        ensures
            final(self)@ == after_raw_key(old(self)@, key),
    {
        proof {
            use_type_invariant(&*self);
        }
        match key {
            KeyCode::ArrowRight => {
                self.cursor_pos.col = 0;
            },
            KeyCode::ArrowLeft => {
                self.cursor_pos.col = 0;
            },
            KeyCode::ArrowUp => {
                if self.cursor_pos.row - 1 <= 2 {
                    self.cursor_pos.row = 3;
                } else {
                    self.cursor_pos.row -= 1;
                    self.new_move = true
                }
            },
            KeyCode::ArrowDown => {
                if self.cursor_pos.row + 1 >= 10 {
                    self.cursor_pos.row = 9;
                } else {
                    self.cursor_pos.row += 1;
                    self.new_move = true
                }
            },
            _ => {},
        }
    }

    fn key2dir_char(&mut self, key: char)
        ensures
            final(self)@ == after_char_key(old(self)@, key),
    {
        proof {
            use_type_invariant(&*self);
        }
        match key {
            's' => {
                self.start_game();
                self.game_running = true;
            },
            _ => {},
        }
    }

    fn start_game(&mut self)
        ensures
            final(self)@ == (MenuView { game_name: selected(old(self)@), ..old(self)@ }),
    {
        proof {
            use_type_invariant(&*self);
        }
        let i = self.cursor_pos.row as usize - 3;
        let game = game_choice(i);
        self.game_name = game;
    }
}

/// One timer tick of the kernel: when the countdown has run out the menu is updated, and
/// what the update asks to redraw is returned.
pub fn tick(game: &mut KernelMain) -> (redraw: Option<Highlight>)
    ensures
        old(game)@.countdown == 0 ==> final(game)@ == menu_updated(
            MenuView { countdown: UPDATE_FREQUENCY, ..old(game)@ },
        ) && redraw == if old(game)@.new_move {
            Some(highlight_of(old(game)@))
        } else {
            None
        },
        old(game)@.countdown != 0 ==> final(game)@ == (MenuView {
            countdown: (old(game)@.countdown - 1) as usize,
            ..old(game)@
        }) && redraw == None::<Highlight>,
{
    proof {
        use_type_invariant(&*game);
    }
    if game.countdown_complete() {
        game.update()
    } else {
        None
    }
}

/// Moving the cursor down and then up brings it back where it was, unless it stood on the
/// last game (where down cannot move it); likewise up then down unless it stood on the
/// first.
pub proof fn law_down_up(m: MenuView)
    requires
        menu_ok(m),
    ensures
        m.cursor.row < LAST_GAME_ROW ==> after_raw_key(after_raw_key(m, KeyCode::ArrowDown), KeyCode::ArrowUp).cursor == m.cursor,
        m.cursor.row > FIRST_GAME_ROW ==> after_raw_key(after_raw_key(m, KeyCode::ArrowUp), KeyCode::ArrowDown).cursor == m.cursor,
{
}

/// No key moves the cursor off the menu: it stays in column 0 on one of the game lines. A
/// raw key changes nothing but the cursor and whether the menu must be redrawn, and a raw
/// key other than up and down changes nothing at all.
pub proof fn law_keys_keep_cursor(m: MenuView, key: DecodedKey)
    requires
        menu_ok(m),
    ensures
        menu_ok(after_menu_key(m, key)),
        after_menu_key(m, key).cursor.col == 0,
        FIRST_GAME_ROW <= after_menu_key(m, key).cursor.row <= LAST_GAME_ROW,
        key matches DecodedKey::RawKey(k) ==> {
            let h = after_menu_key(m, key);
            &&& h.letters == m.letters
            &&& h.countdown == m.countdown
            &&& h.last_key == m.last_key
            &&& h.game_running == m.game_running
            &&& h.game_name == m.game_name
            &&& (k != KeyCode::ArrowUp && k != KeyCode::ArrowDown) ==> h == m
        },
{
}

/// Starting a game starts the one under the cursor, and keeps the cursor where it is.
pub proof fn law_start_selected(m: MenuView)
    requires
        menu_ok(m),
    ensures
        after_char_key(m, 's').game_name == selected(m),
        after_char_key(m, 's').game_running,
        after_char_key(m, 's').cursor == m.cursor,
{
}

} // verus!
