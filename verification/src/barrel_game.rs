use vstd::prelude::*;

use crate::keys::{DecodedKey, KeyCode};
use crate::text::{
    free_of, lemma_split_extend, lemma_split_nonempty, lemma_split_prefix, lemma_split_sep,
    split_on, to_chars, trim, trim_end, trim_range, trim_start,
};

verus! {

/// Columns of the VGA text buffer the game is drawn on.
pub const BUFFER_WIDTH: usize = 80;

/// Rows of the VGA text buffer the game is drawn on.
pub const BUFFER_HEIGHT: usize = 25;

/// Columns of the playing field.
pub const WIDTH: usize = BUFFER_WIDTH;

/// Rows of the playing field: two rows of the screen are kept for the header.
pub const HEIGHT: usize = 23;

/// Timer ticks between two game updates.
pub const UPDATE_FREQUENCY: usize = 3;

/// Updates a jump lasts before the player falls back.
pub const JUMP_TICKS: usize = 1;

/// Updates between two waves of barrels.
pub const SPAWN_TICKS: usize = 12;

/// Number of barrels the game owns.
pub const NUM_BARRELS: usize = 6;

/// A compass direction in which the player or a barrel can move.
#[derive(Debug, Clone, Copy, PartialEq, Eq, Structural)]
pub enum Dir {
    N,
    S,
    E,
    W,
}

/// Whether the game is still being played.
#[derive(Debug, Clone, Copy, PartialEq, Eq, Structural)]
pub enum Status {
    Running,
    Over,
}

/// A cell of the playing field.
#[derive(Debug, Clone, Copy, PartialEq, Eq, Structural)]
pub enum Cell {
    Wall,
    Empty,
}

/// A position on (or near) the playing field.
#[derive(Debug, Clone, Copy, PartialEq, Eq, Structural)]
pub struct Position {
    pub col: i16,
    pub row: i16,
}

/// The player: where it stands and whether it is in the middle of a jump.
#[derive(Debug, Clone, Copy, PartialEq, Eq, Structural)]
pub struct Player {
    pub pos: Position,
    pub jumping: bool,
}

/// A barrel rolling across the field.
#[derive(Debug, Clone, Copy, PartialEq, Eq, Structural)]
pub struct Barrel {
    pub pos: Position,
    pub dir: Dir,
    pub active: bool,
}

// ------------------------------------------------------------------------------------------
// Specification of positions and directions
// ------------------------------------------------------------------------------------------

/// The position lies on the playing field.
pub open spec fn legal(p: Position) -> bool {
    0 <= p.col < WIDTH && 0 <= p.row < HEIGHT
}

/// The position one step away in direction `d`.
pub open spec fn neighbor_of(p: Position, d: Dir) -> Position {
    match d {
        Dir::N => Position { row: (p.row - 1) as i16, col: p.col },
        Dir::S => Position { row: (p.row + 1) as i16, col: p.col },
        Dir::E => Position { row: p.row, col: (p.col + 1) as i16 },
        Dir::W => Position { row: p.row, col: (p.col - 1) as i16 },
    }
}

/// A step from `p` in direction `d` stays within the range of `i16`: only the coordinate
/// that moves is bounded.
pub open spec fn can_step(p: Position, d: Dir) -> bool {
    match d {
        Dir::N => p.row > i16::MIN,
        Dir::S => p.row < i16::MAX,
        Dir::E => p.col < i16::MAX,
        Dir::W => p.col > i16::MIN,
    }
}

/// Where a new wave of barrels enters the field.
pub open spec fn spawn_point() -> Position {
    Position { row: 12, col: 78 }
}

/// Where a barrel is put when the spawn point is taken: off the field.
pub open spec fn parked_point() -> Position {
    Position { row: 500, col: 500 }
}

pub open spec fn reverse_of(d: Dir) -> Dir {
    match d {
        Dir::N => Dir::S,
        Dir::S => Dir::N,
        Dir::E => Dir::W,
        Dir::W => Dir::E,
    }
}

pub open spec fn left_of(d: Dir) -> Dir {
    match d {
        Dir::N => Dir::W,
        Dir::S => Dir::E,
        Dir::E => Dir::N,
        Dir::W => Dir::S,
    }
}

pub open spec fn right_of(d: Dir) -> Dir {
    match d {
        Dir::N => Dir::E,
        Dir::S => Dir::W,
        Dir::E => Dir::S,
        Dir::W => Dir::N,
    }
}

impl Dir {
    /// The opposite direction.
    pub fn reverse(&self) -> (r: Dir)
        ensures
            r == reverse_of(*self),
    {
        match self {
            Dir::N => Dir::S,
            Dir::S => Dir::N,
            Dir::E => Dir::W,
            Dir::W => Dir::E,
        }
    }

    /// The direction a quarter turn to the left.
    pub fn left(&self) -> (r: Dir)
        ensures
            r == left_of(*self),
    {
        match self {
            Dir::N => Dir::W,
            Dir::S => Dir::E,
            Dir::E => Dir::N,
            Dir::W => Dir::S,
        }
    }

    /// The direction a quarter turn to the right.
    pub fn right(&self) -> (r: Dir)
        ensures
            r == right_of(*self),
    {
        match self {
            Dir::N => Dir::E,
            Dir::S => Dir::W,
            Dir::E => Dir::S,
            Dir::W => Dir::N,
        }
    }
}

impl Position {
    /// Whether the position lies on the playing field.
    pub fn is_legal(&self) -> (b: bool)
        ensures
            b == legal(*self),
    {
        0 <= self.col && self.col < WIDTH as i16 && 0 <= self.row && self.row < HEIGHT as i16
    }

    /// The position as a (row, column) pair of indices.
    pub fn row_col(&self) -> (r: (usize, usize))
        ensures
            r == (self.row as usize, self.col as usize),
            legal(*self) ==> r.0 == self.row && r.1 == self.col,
    {
        (self.row as usize, self.col as usize)
    }

    /// The position one step away in direction `d`.
    pub fn neighbor(&self, d: Dir) -> (r: Position)
        requires
            can_step(*self, d),
        ensures
            r == neighbor_of(*self, d),
    {
        match d {
            Dir::N => Position { row: self.row - 1, col: self.col },
            Dir::S => Position { row: self.row + 1, col: self.col },
            Dir::E => Position { row: self.row, col: self.col + 1 },
            Dir::W => Position { row: self.row, col: self.col - 1 },
        }
    }
}

impl Player {
    /// A player standing at `pos`, not jumping.
    pub fn new(pos: Position) -> (p: Self)
        ensures
            p == (Player { pos, jumping: false }),
    {
        Player { pos, jumping: false }
    }

    /// The character the player is drawn with.
    pub fn icon() -> (c: char)
        ensures
            c == '~',
    {
        '~'
    }

    /// The position right above the player.
    pub fn collision(&self) -> (p: Position)
        requires
            self.pos.row > i16::MIN,
        ensures
            p == neighbor_of(self.pos, Dir::N),
    {
        Position { row: self.pos.row - 1, col: self.pos.col }
    }
}

impl Barrel {
    /// An inactive barrel at `pos`, facing east.
    pub fn new(pos: Position) -> (b: Self)
        ensures
            b == (Barrel { pos, active: false, dir: Dir::E }),
    {
        Barrel { pos, active: false, dir: Dir::E }
    }

    /// Whether the barrel is rolling.
    pub fn is_active(&mut self) -> (b: bool)
        ensures
            b == old(self).active,
            *final(self) == *old(self),
    {
        self.active
    }

    /// Puts the barrel in play at `pos`, rolling west.
    pub fn spawn(&mut self, pos: Position)
        ensures
            *final(self) == (Barrel { pos, dir: Dir::W, active: true }),
    {
        self.pos = pos;
        self.dir = Dir::W;
        self.active = true;
    }

    /// The position the barrel rolls to next.
    pub fn neighbor(&self) -> (p: Position)
        requires
            can_step(self.pos, self.dir),
        ensures
            p == neighbor_of(self.pos, self.dir),
    {
        self.pos.neighbor(self.dir)
    }
}

// ------------------------------------------------------------------------------------------
// The game and its abstract state
// ------------------------------------------------------------------------------------------

/// The barrel-jumping game: the player jumps over barrels that roll in from the east.
#[derive(Debug, Clone, Copy, PartialEq, Eq)]
pub struct BarrelGame {
    cells: [[Cell; WIDTH]; HEIGHT],
    status: Status,
    player: Player,
    barrels: [Barrel; 6],
    barrels_deleted: u64,
    last_key: Option<Dir>,
    countdown: usize,
    spawn_timer: usize,
    jump_timer: usize,
}

/// The abstract state of a game: the same fields, with the field as rows of cells.
pub struct GameView {
    pub cells: Seq<Seq<Cell>>,
    pub status: Status,
    pub player: Player,
    pub barrels: Seq<Barrel>,
    pub score: u64,
    pub last_key: Option<Dir>,
    pub countdown: usize,
    pub spawn_timer: usize,
    pub jump_timer: usize,
}

impl View for BarrelGame {
    type V = GameView;

    closed spec fn view(&self) -> GameView {
        GameView {
            cells: Seq::new(HEIGHT as nat, |r: int| self.cells[r]@),
            status: self.status,
            player: self.player,
            barrels: self.barrels@,
            score: self.barrels_deleted,
            last_key: self.last_key,
            countdown: self.countdown,
            spawn_timer: self.spawn_timer,
            jump_timer: self.jump_timer,
        }
    }
}

/// The cell at a position of the field.
pub open spec fn cell_of(g: GameView, p: Position) -> Cell {
    g.cells[p.row as int][p.col as int]
}

/// The player may step onto `p`: it is on the field and no wall.
pub open spec fn walkable(g: GameView, p: Position) -> bool {
    legal(p) && cell_of(g, p) != Cell::Wall
}

/// A barrel's position is on the field or the parking spot off it.
pub open spec fn barrel_placed(b: Barrel) -> bool {
    legal(b.pos) || b.pos == parked_point()
}

/// What every operation needs: the shape of the field, a player on the field, and
/// barrels on the field or parked.
pub open spec fn placed(g: GameView) -> bool {
    &&& g.cells.len() == HEIGHT
    &&& forall|r: int| 0 <= r < HEIGHT ==> (#[trigger] g.cells[r]).len() == WIDTH
    &&& g.barrels.len() == NUM_BARRELS
    &&& legal(g.player.pos)
    &&& forall|i: int| 0 <= i < NUM_BARRELS ==> barrel_placed(#[trigger] g.barrels[i])
}

/// The state every public operation keeps: `placed`, every rolling barrel on the field,
/// and every timer within its period.
pub open spec fn well_formed(g: GameView) -> bool {
    &&& placed(g)
    &&& forall|i: int| 0 <= i < NUM_BARRELS && (#[trigger] g.barrels[i]).active ==> legal(g.barrels[i].pos)
    &&& g.countdown <= UPDATE_FREQUENCY
    &&& g.spawn_timer <= SPAWN_TICKS
    &&& g.jump_timer <= JUMP_TICKS
}

/// A rolling barrel stands on `p`.
pub open spec fn barrel_on(bs: Seq<Barrel>, p: Position) -> bool {
    exists|i: int| 0 <= i < bs.len() && (#[trigger] bs[i]).active && bs[i].pos == p
}

/// Number of rolling barrels.
pub open spec fn num_active(bs: Seq<Barrel>) -> nat
    decreases bs.len(),
{
    if bs.len() == 0 {
        0
    } else {
        num_active(bs.drop_last()) + if bs.last().active {
            1nat
        } else {
            0nat
        }
    }
}

/// Barrel `i` is the first one that is not rolling.
pub open spec fn first_idle(bs: Seq<Barrel>, i: int) -> bool {
    !bs[i].active && forall|j: int| 0 <= j < i ==> (#[trigger] bs[j]).active
}

/// A new wave: every idle barrel starts rolling west, the first at the spawn point if
/// no rolling barrel stands there, every other one at the parking spot.
pub open spec fn spawned(bs: Seq<Barrel>) -> Seq<Barrel> {
    Seq::new(
        bs.len(),
        |i: int|
            if bs[i].active {
                bs[i]
            } else {
                Barrel {
                    pos: if first_idle(bs, i) && !barrel_on(bs, spawn_point()) {
                        spawn_point()
                    } else {
                        parked_point()
                    },
                    dir: Dir::W,
                    active: true,
                }
            },
    )
}

/// A barrel after one roll: a rolling barrel moves on, or stops when it would leave the field.
pub open spec fn rolled(b: Barrel) -> Barrel {
    if b.active {
        let n = neighbor_of(b.pos, b.dir);
        if legal(n) {
            Barrel { pos: n, ..b }
        } else {
            Barrel { active: false, ..b }
        }
    } else {
        b
    }
}

/// The barrel has been jumped over: it rolls at or behind the player's column without
/// standing on the player.
pub open spec fn cleared(b: Barrel, p: Position) -> bool {
    b.active && b.pos != p && b.pos.col <= p.col
}

/// Number of barrels that have been jumped over.
pub open spec fn num_cleared(bs: Seq<Barrel>, p: Position) -> nat
    decreases bs.len(),
{
    if bs.len() == 0 {
        0
    } else {
        num_cleared(bs.drop_last(), p) + if cleared(bs.last(), p) {
            1nat
        } else {
            0nat
        }
    }
}

/// The player phase of an update: a jump in progress counts down, and when it is over the
/// player falls one row if it can; a player standing still jumps in the direction of the
/// last key if it can.
pub open spec fn player_phase(g: GameView) -> GameView {
    let p = g.player;
    if p.jumping {
        if g.jump_timer == 0 {
            let n = neighbor_of(p.pos, Dir::S);
            GameView {
                player: Player { pos: if walkable(g, n) { n } else { p.pos }, jumping: false },
                jump_timer: JUMP_TICKS,
                ..g
            }
        } else {
            GameView { jump_timer: (g.jump_timer - 1) as usize, ..g }
        }
    } else {
        match g.last_key {
            Some(d) => {
                let n = neighbor_of(p.pos, d);
                if walkable(g, n) {
                    GameView { player: Player { pos: n, jumping: true }, ..g }
                } else {
                    g
                }
            },
            None => g,
        }
    }
}

/// The spawn phase: the spawn timer counts down; when it has run out it restarts and a new
/// wave comes, unless at least all but one barrel are rolling.
pub open spec fn spawn_phase(g: GameView) -> GameView {
    if g.spawn_timer == 0 {
        GameView {
            spawn_timer: SPAWN_TICKS,
            barrels: if num_active(g.barrels) < NUM_BARRELS - 1 {
                spawned(g.barrels)
            } else {
                g.barrels
            },
            ..g
        }
    } else {
        GameView { spawn_timer: (g.spawn_timer - 1) as usize, ..g }
    }
}

/// The roll phase: every barrel rolls.
pub open spec fn roll_phase(g: GameView) -> GameView {
    GameView { barrels: g.barrels.map_values(|b: Barrel| rolled(b)), ..g }
}

/// The collision phase: a rolling barrel on the player ends the game; every barrel jumped
/// over stops and scores a point.
pub open spec fn collision_phase(g: GameView) -> GameView {
    let p = g.player.pos;
    GameView {
        status: if barrel_on(g.barrels, p) {
            Status::Over
        } else {
            g.status
        },
        barrels: g.barrels.map_values(
            |b: Barrel|
                if cleared(b, p) {
                    Barrel { active: false, ..b }
                } else {
                    b
                },
        ),
        score: (g.score + num_cleared(g.barrels, p)) as u64,
        ..g
    }
}

/// One update of a running game; a game that is over stays as it is.
pub open spec fn updated(g: GameView) -> GameView {
    if g.status == Status::Running {
        collision_phase(roll_phase(spawn_phase(GameView { last_key: None, ..player_phase(g) })))
    } else {
        g
    }
}

/// The layout of a new game, one line per row: `#` a wall, a blank an empty cell, `~` the
/// player's starting place. Each line is trimmed before it is read.
pub const START: &'static str =
    "#                                                                              #
    #                                                                              #
    #                                                                              #
    #                                                                              #
    #                                                                              #
    #                                                                              #
    #                                                                              #
    #                                                                              #
    #                                                                              #
    #                                                                              #
    ################################################################################
    #                                                                              #
    #            ~                                                                 #
    ################################################################################
    #                                                                              #
    #                                                                              #
    #                                                                              #
    #                                                                              #
    #                                                                              #
    #                                                                              #
    #                                                                              #
    #                                                                              #
    #                                                                              #";

/// The rows of a layout: its lines, trimmed.
pub open spec fn layout_rows(text: Seq<char>) -> Seq<Seq<char>> {
    split_on(text, '\n').map_values(|l: Seq<char>| trim(l))
}

/// The character a layout puts at row `r`, column `c`, if any.
pub open spec fn layout_icon(text: Seq<char>, r: int, c: int) -> Option<char> {
    let rows = layout_rows(text);
    if 0 <= r < rows.len() && 0 <= c < rows[r].len() {
        Some(rows[r][c])
    } else {
        None
    }
}

/// A cell after a layout has been read: a blank makes it empty, `#` a wall, anything else
/// leaves it as it was.
pub open spec fn laid_cell(text: Seq<char>, old: Cell, r: int, c: int) -> Cell {
    match layout_icon(text, r, c) {
        Some(ch) => if ch == ' ' {
            Cell::Empty
        } else if ch == '#' {
            Cell::Wall
        } else {
            old
        },
        None => old,
    }
}

/// The layout puts the player at row `r`, column `c` of the field.
pub open spec fn tilde_at(text: Seq<char>, r: int, c: int) -> bool {
    0 <= r < HEIGHT && 0 <= c < WIDTH && layout_icon(text, r, c) == Some('~')
}

/// (r1, c1) comes no later than (r2, c2) in reading order.
pub open spec fn lex_le(r1: int, c1: int, r2: int, c2: int) -> bool {
    r1 < r2 || (r1 == r2 && c1 <= c2)
}

/// The layout places the player somewhere on the field.
pub open spec fn has_tilde(text: Seq<char>) -> bool {
    exists|r: int, c: int| tilde_at(text, r, c)
}

/// Where the player stands after a layout has been read: at the last `~` in reading
/// order, or where it stood if the layout has none.
pub open spec fn laid_player(text: Seq<char>, old: Position, pos: Position) -> bool {
    if has_tilde(text) {
        &&& tilde_at(text, pos.row as int, pos.col as int)
        &&& forall|r: int, c: int|
            #[trigger] tilde_at(text, r, c) ==> lex_le(r, c, pos.row as int, pos.col as int)
    } else {
        pos == old
    }
}

/// The start layout.
pub open spec fn start_text() -> Seq<char> {
    START@
}

/// `s[lo..hi]` holds no line feed.
spec fn no_nl(s: Seq<char>, lo: int, hi: int) -> bool
    decreases hi - lo,
{
    if lo >= hi {
        true
    } else {
        s[lo] != '\n' && no_nl(s, lo + 1, hi)
    }
}

/// A run without line feeds holds none at any index.
proof fn lemma_no_nl_free(s: Seq<char>, lo: int, hi: int)
    requires
        no_nl(s, lo, hi),
    ensures
        free_of(s, lo, hi, '\n'),
    decreases hi - lo,
{
    if lo < hi {
        lemma_no_nl_free(s, lo + 1, hi);
    }
}

/// Two adjacent runs without line feeds make one.
proof fn lemma_no_nl_join(s: Seq<char>, lo: int, mid: int, hi: int)
    requires
        lo <= mid <= hi,
        no_nl(s, lo, mid),
        no_nl(s, mid, hi),
    ensures
        no_nl(s, lo, hi),
    decreases mid - lo,
{
    if lo < mid {
        lemma_no_nl_join(s, lo + 1, mid, hi);
    }
}

/// One more line of a text: the line from `start` to the line feed at `end` becomes piece
/// `r` of the text up to and with that line feed.
proof fn lemma_row_step(t: Seq<char>, start: int, end: int, r: int)
    requires
        0 <= r,
        0 <= start <= end < t.len(),
        split_on(t.take(start), '\n').len() == r + 1,
        split_on(t.take(start), '\n').last() == Seq::<char>::empty(),
        no_nl(t, start, end),
        t[end] == '\n',
    ensures
        split_on(t.take(end + 1), '\n').len() == r + 2,
        split_on(t.take(end + 1), '\n').last() == Seq::<char>::empty(),
        split_on(t.take(end + 1), '\n')[r] == t.subrange(start, end),
{
    lemma_no_nl_free(t, start, end);
    lemma_split_extend(t, '\n', start, end);
    lemma_split_sep(t, '\n', end);
    assert(split_on(t.take(end), '\n')[r] == t.subrange(start, end));
    assert(Seq::<char>::empty() + t.subrange(start, end) =~= t.subrange(start, end));
}

/// The start layout places the player: row 12 of the field holds a `~` in column 13. The
/// proof reads the layout line by line, up to that row. It spells out the text of `START`
/// once more, since the characters of a string can only be revealed from its literal.
#[verifier::spinoff_prover]
#[verifier::rlimit(100)]
pub proof fn lemma_start_places_player()
    ensures
        tilde_at(start_text(), 12, 13),
        has_tilde(start_text()),
{
    reveal_strlit("#                                                                              #
    #                                                                              #
    #                                                                              #
    #                                                                              #
    #                                                                              #
    #                                                                              #
    #                                                                              #
    #                                                                              #
    #                                                                              #
    #                                                                              #
    ################################################################################
    #                                                                              #
    #            ~                                                                 #
    ################################################################################
    #                                                                              #
    #                                                                              #
    #                                                                              #
    #                                                                              #
    #                                                                              #
    #                                                                              #
    #                                                                              #
    #                                                                              #
    #                                                                              #");
    let t = start_text();
    assert(t.len() == 1950);
    assert(t.take(0) =~= Seq::<char>::empty());
    assert(no_nl(t, 0, 40)) by {
        reveal_with_fuel(no_nl, 44);
    }
    assert(no_nl(t, 40, 80)) by {
        reveal_with_fuel(no_nl, 44);
    }
    lemma_no_nl_join(t, 0, 40, 80);
    lemma_row_step(t, 0, 80, 0);
    assert(no_nl(t, 81, 123)) by {
        reveal_with_fuel(no_nl, 44);
    }
    assert(no_nl(t, 123, 165)) by {
        reveal_with_fuel(no_nl, 44);
    }
    lemma_no_nl_join(t, 81, 123, 165);
    lemma_row_step(t, 81, 165, 1);
    assert(no_nl(t, 166, 208)) by {
        reveal_with_fuel(no_nl, 44);
    }
    assert(no_nl(t, 208, 250)) by {
        reveal_with_fuel(no_nl, 44);
    }
    lemma_no_nl_join(t, 166, 208, 250);
    lemma_row_step(t, 166, 250, 2);
    assert(no_nl(t, 251, 293)) by {
        reveal_with_fuel(no_nl, 44);
    }
    assert(no_nl(t, 293, 335)) by {
        reveal_with_fuel(no_nl, 44);
    }
    lemma_no_nl_join(t, 251, 293, 335);
    lemma_row_step(t, 251, 335, 3);
    assert(no_nl(t, 336, 378)) by {
        reveal_with_fuel(no_nl, 44);
    }
    assert(no_nl(t, 378, 420)) by {
        reveal_with_fuel(no_nl, 44);
    }
    lemma_no_nl_join(t, 336, 378, 420);
    lemma_row_step(t, 336, 420, 4);
    assert(no_nl(t, 421, 463)) by {
        reveal_with_fuel(no_nl, 44);
    }
    assert(no_nl(t, 463, 505)) by {
        reveal_with_fuel(no_nl, 44);
    }
    lemma_no_nl_join(t, 421, 463, 505);
    lemma_row_step(t, 421, 505, 5);
    assert(no_nl(t, 506, 548)) by {
        reveal_with_fuel(no_nl, 44);
    }
    assert(no_nl(t, 548, 590)) by {
        reveal_with_fuel(no_nl, 44);
    }
    lemma_no_nl_join(t, 506, 548, 590);
    lemma_row_step(t, 506, 590, 6);
    assert(no_nl(t, 591, 633)) by {
        reveal_with_fuel(no_nl, 44);
    }
    assert(no_nl(t, 633, 675)) by {
        reveal_with_fuel(no_nl, 44);
    }
    lemma_no_nl_join(t, 591, 633, 675);
    lemma_row_step(t, 591, 675, 7);
    assert(no_nl(t, 676, 718)) by {
        reveal_with_fuel(no_nl, 44);
    }
    assert(no_nl(t, 718, 760)) by {
        reveal_with_fuel(no_nl, 44);
    }
    lemma_no_nl_join(t, 676, 718, 760);
    lemma_row_step(t, 676, 760, 8);
    assert(no_nl(t, 761, 803)) by {
        reveal_with_fuel(no_nl, 44);
    }
    assert(no_nl(t, 803, 845)) by {
        reveal_with_fuel(no_nl, 44);
    }
    lemma_no_nl_join(t, 761, 803, 845);
    lemma_row_step(t, 761, 845, 9);
    assert(no_nl(t, 846, 888)) by {
        reveal_with_fuel(no_nl, 44);
    }
    assert(no_nl(t, 888, 930)) by {
        reveal_with_fuel(no_nl, 44);
    }
    lemma_no_nl_join(t, 846, 888, 930);
    lemma_row_step(t, 846, 930, 10);
    assert(no_nl(t, 931, 973)) by {
        reveal_with_fuel(no_nl, 44);
    }
    assert(no_nl(t, 973, 1015)) by {
        reveal_with_fuel(no_nl, 44);
    }
    lemma_no_nl_join(t, 931, 973, 1015);
    lemma_row_step(t, 931, 1015, 11);
    assert(no_nl(t, 1016, 1058)) by {
        reveal_with_fuel(no_nl, 44);
    }
    assert(no_nl(t, 1058, 1100)) by {
        reveal_with_fuel(no_nl, 44);
    }
    lemma_no_nl_join(t, 1016, 1058, 1100);
    lemma_row_step(t, 1016, 1100, 12);
    lemma_split_prefix(t, '\n', 1101);
    let row = t.subrange(1016, 1100);
    assert(split_on(t, '\n')[12] == row);
    let inner = row.subrange(4, 84);
    assert(row.drop_first().drop_first().drop_first().drop_first() =~= inner);
    assert(trim_start(row) == inner) by {
        reveal_with_fuel(trim_start, 6);
        assert(row.drop_first() =~= row.subrange(1, 84));
        assert(row.drop_first().drop_first() =~= row.subrange(2, 84));
        assert(row.drop_first().drop_first().drop_first() =~= row.subrange(3, 84));
    }
    assert(trim_end(inner) == inner);
    assert(layout_rows(t)[12] == inner);
    assert(inner[13] == '~');
    assert(tilde_at(t, 12, 13));
}

/// `h` is `g` after a reset: the start layout read onto the field, the player standing,
/// the game running, no key pending and the score zero; barrels and timers as they were.
pub open spec fn after_reset(g: GameView, h: GameView) -> bool {
    &&& h.cells.len() == HEIGHT
    &&& forall|r: int| 0 <= r < HEIGHT ==> (#[trigger] h.cells[r]).len() == WIDTH
    &&& forall|r: int, c: int|
        0 <= r < HEIGHT && 0 <= c < WIDTH ==> (#[trigger] h.cells[r][c]) == laid_cell(
            start_text(),
            g.cells[r][c],
            r,
            c,
        )
    &&& laid_player(start_text(), g.player.pos, h.player.pos)
    &&& !h.player.jumping
    &&& h.status == Status::Running
    &&& h.last_key == None::<Dir>
    &&& h.score == 0
    &&& h.barrels == g.barrels
    &&& h.countdown == g.countdown
    &&& h.spawn_timer == g.spawn_timer
    &&& h.jump_timer == g.jump_timer
}

/// The state `new` builds before it resets: an empty field, the player at row 12,
/// column 14, every barrel idle at the spawn point facing east, and every timer full.
pub open spec fn fresh_view() -> GameView {
    GameView {
        cells: Seq::new(HEIGHT as nat, |r: int| Seq::new(WIDTH as nat, |c: int| Cell::Empty)),
        status: Status::Running,
        player: Player { pos: Position { row: 12, col: 14 }, jumping: false },
        barrels: Seq::new(
            NUM_BARRELS as nat,
            |i: int| Barrel { pos: spawn_point(), active: false, dir: Dir::E },
        ),
        score: 0,
        last_key: None,
        countdown: UPDATE_FREQUENCY,
        spawn_timer: SPAWN_TICKS,
        jump_timer: JUMP_TICKS,
    }
}

/// A key press: a game that is over restarts on the restart key and ignores every other
/// key; a running game remembers the direction the key asks for, if any.
pub open spec fn after_key(g: GameView, key: DecodedKey, h: GameView) -> bool {
    if g.status == Status::Over {
        if is_restart_key(key) {
            after_reset(g, h)
        } else {
            h == g
        }
    } else {
        match dir_of_key(key) {
            Some(d) => h == GameView { last_key: Some(d), ..g },
            None => h == g,
        }
    }
}

/// The direction a key asks for: up (arrow or `w`) is north, every other key none.
pub open spec fn dir_of_key(key: DecodedKey) -> Option<Dir> {
    match key {
        DecodedKey::RawKey(KeyCode::ArrowUp) => Some(Dir::N),
        DecodedKey::Unicode(c) => if c == 'w' {
            Some(Dir::N)
        } else {
            None
        },
        _ => None,
    }
}

/// The key restarts a game that is over: raw `S` or the character `s`.
pub open spec fn is_restart_key(key: DecodedKey) -> bool {
    key == DecodedKey::RawKey(KeyCode::S) || key == DecodedKey::Unicode('s')
}

/// Maps a key to the direction it asks for.
pub fn key2dir(key: DecodedKey) -> (d: Option<Dir>)
    ensures
        d == dir_of_key(key),
{
    match key {
        DecodedKey::RawKey(k) => match k {
            KeyCode::ArrowUp => Some(Dir::N),
            _ => None,
        },
        DecodedKey::Unicode(c) => match c {
            'w' => Some(Dir::N),
            _ => None,
        },
    }
}

proof fn lemma_num_active_bound(bs: Seq<Barrel>)
    ensures
        num_active(bs) <= bs.len(),
    decreases bs.len(),
{
    if bs.len() > 0 {
        lemma_num_active_bound(bs.drop_last());
    }
}

proof fn lemma_num_cleared_bound(bs: Seq<Barrel>, p: Position)
    ensures
        num_cleared(bs, p) <= bs.len(),
    decreases bs.len(),
{
    if bs.len() > 0 {
        lemma_num_cleared_bound(bs.drop_last(), p);
    }
}

impl BarrelGame {
    /// Reads one character of a layout onto the field: a blank empties the cell, `#` makes
    /// it a wall, `~` puts the player there.
    fn translate_icon(&mut self, row: usize, col: usize, icon: char)
        requires
            row < HEIGHT,
            col < WIDTH,
            icon == ' ' || icon == '#' || icon == '~',
        ensures
            icon == ' ' ==> final(self).cells@[row as int]@ == old(self).cells@[row as int]@.update(col as int, Cell::Empty),
            icon == '#' ==> final(self).cells@[row as int]@ == old(self).cells@[row as int]@.update(col as int, Cell::Wall),
            icon == '~' ==> final(self).cells == old(self).cells,
            forall|r: int| 0 <= r < HEIGHT && r != row ==> final(self).cells@[r] == old(self).cells@[r],
            icon == '~' ==> final(self).player == (Player { pos: Position { row: row as i16, col: col as i16 }, jumping: false }),
            icon != '~' ==> final(self).player == old(self).player,
            final(self).status == old(self).status,
            final(self).barrels == old(self).barrels,
            final(self).barrels_deleted == old(self).barrels_deleted,
            final(self).last_key == old(self).last_key,
            final(self).countdown == old(self).countdown,
            final(self).spawn_timer == old(self).spawn_timer,
            final(self).jump_timer == old(self).jump_timer,
    {
        match icon {
            ' ' => self.cells[row][col] = Cell::Empty,
            '#' => self.cells[row][col] = Cell::Wall,
            _ => self.player = Player::new(Position { row: row as i16, col: col as i16 }),
        }
    }

    /// Reads a layout onto the field: line `r` of the text, trimmed, gives row `r`; within
    /// it, character `c` gives column `c`. Characters beyond the field, and characters other
    /// than a blank, `#` and `~`, are passed over.
    fn load_layout(&mut self, text: &Vec<char>)
        requires
            legal(old(self).player.pos),
        ensures
            forall|r: int, c: int|
                0 <= r < HEIGHT && 0 <= c < WIDTH ==> (#[trigger] final(self).cells@[r]@[c]) == laid_cell(
                    text@,
                    old(self).cells@[r]@[c],
                    r,
                    c,
                ),
            laid_player(text@, old(self).player.pos, final(self).player.pos),
            has_tilde(text@) ==> !final(self).player.jumping,
            !has_tilde(text@) ==> final(self).player.jumping == old(self).player.jumping,
            legal(final(self).player.pos),
            final(self).status == old(self).status,
            final(self).barrels == old(self).barrels,
            final(self).barrels_deleted == old(self).barrels_deleted,
            final(self).last_key == old(self).last_key,
            final(self).countdown == old(self).countdown,
            final(self).spawn_timer == old(self).spawn_timer,
            final(self).jump_timer == old(self).jump_timer,
    {
        let ghost t = text@;
        let ghost lines = split_on(t, '\n');
        let ghost rows = layout_rows(t);
        let ghost old_cells = self.cells;
        let ghost old_player = self.player;
        let n = text.len();
        let mut start: usize = 0;
        let mut row: usize = 0;
        proof {
            lemma_split_nonempty(t, '\n');
            crate::text::lemma_split_len(t, '\n');
            assert(t.take(0) =~= Seq::<char>::empty());
        }
        loop
            invariant_except_break
                start <= n,
                split_on(t.take(start as int), '\n').len() == row + 1,
                split_on(t.take(start as int), '\n').last() == Seq::<char>::empty(),
                forall|r: int, c: int|
                    0 <= r < HEIGHT && 0 <= c < WIDTH ==> (#[trigger] self.cells@[r]@[c]) == if r < row {
                        laid_cell(t, old_cells@[r]@[c], r, c)
                    } else {
                        old_cells@[r]@[c]
                    },
                (exists|r: int, c: int| tilde_at(t, r, c) && r < row) ==> {
                    &&& tilde_at(t, self.player.pos.row as int, self.player.pos.col as int)
                    &&& (self.player.pos.row as int) < row
                    &&& forall|r: int, c: int|
                        #[trigger] tilde_at(t, r, c) && r < row ==> lex_le(r, c, self.player.pos.row as int, self.player.pos.col as int)
                    &&& !self.player.jumping
                },
                !(exists|r: int, c: int| tilde_at(t, r, c) && r < row) ==> self.player == old_player,
            invariant
                n == t.len(),
                t == text@,
                lines == split_on(t, '\n'),
                rows == layout_rows(t),
                rows.len() == lines.len(),
                row < lines.len(),
                lines.len() <= n + 1,
                legal(self.player.pos),
                self.status == old(self).status,
                self.barrels == old(self).barrels,
                self.barrels_deleted == old(self).barrels_deleted,
                self.last_key == old(self).last_key,
                self.countdown == old(self).countdown,
                self.spawn_timer == old(self).spawn_timer,
                self.jump_timer == old(self).jump_timer,
            ensures
                row + 1 == lines.len(),
                forall|r: int, c: int|
                    0 <= r < HEIGHT && 0 <= c < WIDTH ==> (#[trigger] self.cells@[r]@[c]) == laid_cell(t, old_cells@[r]@[c], r, c),
                (exists|r: int, c: int| tilde_at(t, r, c) && r <= row) ==> {
                    &&& tilde_at(t, self.player.pos.row as int, self.player.pos.col as int)
                    &&& forall|r: int, c: int|
                        #[trigger] tilde_at(t, r, c) && r <= row ==> lex_le(r, c, self.player.pos.row as int, self.player.pos.col as int)
                    &&& !self.player.jumping
                },
                !(exists|r: int, c: int| tilde_at(t, r, c) && r <= row) ==> self.player == old_player,
            decreases n - start,
        {
            let mut j = start;
            while j < n && text[j] != '\n'
                invariant
                    start <= j <= n,
                    n == t.len(),
                    t == text@,
                    crate::text::free_of(t, start as int, j as int, '\n'),
                decreases n - j,
            {
                j = j + 1;
            }
            proof {
                lemma_split_extend(t, '\n', start as int, j as int);
                let base = split_on(t.take(start as int), '\n');
                assert(Seq::<char>::empty() + t.subrange(start as int, j as int) =~= t.subrange(start as int, j as int));
                if j < n {
                    lemma_split_sep(t, '\n', j as int);
                    lemma_split_prefix(t, '\n', j + 1);
                } else {
                    assert(t.take(j as int) =~= t);
                }
                assert(lines[row as int] == t.subrange(start as int, j as int));
            }
            let (a, b) = trim_range(text, start, j);
            assert(rows[row as int] == t.subrange(a as int, b as int));
            let ghost cells_at_row = self.cells;
            let ghost player_at_row = self.player;
            if row < HEIGHT {
                let mut c: usize = 0;
                while c < b - a && c < WIDTH
                    invariant
                        a <= b <= n,
                        n == t.len(),
                        t == text@,
                        row < HEIGHT,
                        rows == layout_rows(t),
                        rows.len() == lines.len(),
                        row < lines.len(),
                        rows[row as int] == t.subrange(a as int, b as int),
                        c <= WIDTH,
                        legal(self.player.pos),
                        forall|r: int, cc: int|
                            0 <= r < HEIGHT && 0 <= cc < WIDTH ==> (#[trigger] self.cells@[r]@[cc]) == if r < row || (r == row && cc < c) {
                                laid_cell(t, old_cells@[r]@[cc], r, cc)
                            } else {
                                old_cells@[r]@[cc]
                            },
                        (exists|r: int, cc: int| tilde_at(t, r, cc) && lex_le(r, cc, row as int, c - 1)) ==> {
                            &&& tilde_at(t, self.player.pos.row as int, self.player.pos.col as int)
                            &&& lex_le(self.player.pos.row as int, self.player.pos.col as int, row as int, c - 1)
                            &&& forall|r: int, cc: int|
                                #[trigger] tilde_at(t, r, cc) && lex_le(r, cc, row as int, c - 1) ==> lex_le(r, cc, self.player.pos.row as int, self.player.pos.col as int)
                            &&& !self.player.jumping
                        },
                        !(exists|r: int, cc: int| tilde_at(t, r, cc) && lex_le(r, cc, row as int, c - 1)) ==> self.player == old_player,
                        self.status == old(self).status,
                        self.barrels == old(self).barrels,
                        self.barrels_deleted == old(self).barrels_deleted,
                        self.last_key == old(self).last_key,
                        self.countdown == old(self).countdown,
                        self.spawn_timer == old(self).spawn_timer,
                        self.jump_timer == old(self).jump_timer,
                    decreases WIDTH - c,
                {
                    let icon = text[a + c];
                    assert(layout_icon(t, row as int, c as int) == Some(icon));
                    let ghost before_cells = self.cells;
                    let ghost before_player = self.player;
                    if icon == ' ' || icon == '#' || icon == '~' {
                        self.translate_icon(row, c, icon);
                    }
                    proof {
                        assert forall|r: int, cc: int| 0 <= r < HEIGHT && 0 <= cc < WIDTH implies
                            (#[trigger] self.cells@[r]@[cc]) == if r < row || (r == row && cc < c + 1) {
                                laid_cell(t, old_cells@[r]@[cc], r, cc)
                            } else {
                                old_cells@[r]@[cc]
                            } by {
                            if r == row && cc == c {
                                assert(before_cells@[r]@[cc] == old_cells@[r]@[cc]);
                            } else {
                                assert(self.cells@[r]@[cc] == before_cells@[r]@[cc]);
                            }
                        }
                        if icon == '~' {
                            assert(tilde_at(t, row as int, c as int));
                            assert forall|r: int, cc: int|
                                #[trigger] tilde_at(t, r, cc) && lex_le(r, cc, row as int, c as int) implies lex_le(r, cc, self.player.pos.row as int, self.player.pos.col as int) by {
                            }
                        } else {
                            assert forall|r: int, cc: int|
                                #[trigger] tilde_at(t, r, cc) && lex_le(r, cc, row as int, c as int) implies lex_le(r, cc, row as int, c - 1) by {
                                if r == row && cc == c {
                                    assert(layout_icon(t, r, cc) == Some(icon));
                                }
                            }
                        }
                    }
                    c = c + 1;
                }
                proof {
                    assert forall|r: int, cc: int|
                        #[trigger] tilde_at(t, r, cc) && lex_le(r, cc, row as int, c - 1) <==> tilde_at(t, r, cc) && r <= row by {
                        if tilde_at(t, r, cc) && r == row {
                            assert(cc < rows[row as int].len());
                            assert(cc < WIDTH);
                        }
                    }
                    assert forall|r: int, cc: int|
                        0 <= r < HEIGHT && 0 <= cc < WIDTH implies (#[trigger] self.cells@[r]@[cc]) == if r < row + 1 {
                            laid_cell(t, old_cells@[r]@[cc], r, cc)
                        } else {
                            old_cells@[r]@[cc]
                        } by {
                        if r == row && cc >= c {
                            assert(layout_icon(t, r, cc) == None::<char>);
                        }
                    }
                }
            } else {
                proof {
                    assert forall|r: int, cc: int|
                        #[trigger] tilde_at(t, r, cc) && r < row <==> tilde_at(t, r, cc) && r <= row by {
                    }
                    assert forall|r: int, cc: int|
                        0 <= r < HEIGHT && 0 <= cc < WIDTH implies (#[trigger] self.cells@[r]@[cc]) == if r < row + 1 {
                            laid_cell(t, old_cells@[r]@[cc], r, cc)
                        } else {
                            old_cells@[r]@[cc]
                        } by {
                    }
                }
            }
            if j == n {
                proof {
                    lemma_split_extend(t, '\n', start as int, j as int);
                    assert(t.take(n as int) =~= t);
                    assert forall|r: int, cc: int| 0 <= r < HEIGHT && 0 <= cc < WIDTH implies
                        (#[trigger] self.cells@[r]@[cc]) == laid_cell(t, old_cells@[r]@[cc], r, cc) by {
                        if r > row {
                            assert(layout_icon(t, r, cc) == None::<char>);
                        }
                    }
                }
                break;
            }
            proof {
                lemma_split_extend(t, '\n', start as int, j as int);
                lemma_split_sep(t, '\n', j as int);
                lemma_split_prefix(t, '\n', j + 1);
            }
            start = j + 1;
            row = row + 1;
        }
        proof {
            assert forall|r: int, c: int| #[trigger] tilde_at(t, r, c) implies r <= row by {
            }
        }
    }


    /// A new game: the start layout read onto an empty field, every barrel idle.
    pub fn new() -> (g: Self)
        ensures
            after_reset(fresh_view(), g@),
            well_formed(g@),
            player_safe(g@),
    {
        let mut game = BarrelGame {
            cells: [[Cell::Empty; WIDTH]; HEIGHT],
            status: Status::Running,
            player: Player::new(Position { row: 12, col: 14 }),
            barrels: [Barrel::new(Position { row: 12, col: 78 }); 6],
            barrels_deleted: 0,
            last_key: None,
            countdown: UPDATE_FREQUENCY,
            spawn_timer: SPAWN_TICKS,
            jump_timer: JUMP_TICKS,
        };
        assert forall|r: int| 0 <= r < HEIGHT implies game.cells@[r]@ =~= fresh_view().cells[r] by {
            assert(game.cells@[r] == [Cell::Empty; WIDTH]);
        }
        assert(game@.cells =~= fresh_view().cells);
        assert(game@.barrels =~= fresh_view().barrels);
        assert(game@ == fresh_view());
        game.reset();
        proof {
            law_new_is_safe(game@);
        }
        game
    }

    /// Starts the game again: the start layout is read onto the field, and the game runs
    /// with no key pending and a score of zero. Barrels and timers stay as they are.
    pub fn reset(&mut self)
        requires
            well_formed(old(self)@),
        ensures
            after_reset(old(self)@, final(self)@),
            well_formed(final(self)@),
            player_safe(old(self)@) ==> player_safe(final(self)@),
    {
        let layout = to_chars(START);
        self.load_layout(&layout);
        self.status = Status::Running;
        self.last_key = None;
        self.player.jumping = false;
        self.barrels_deleted = 0;
        proof {
            assert(layout@ == start_text());
            let h = self@;
            assert forall|r: int, c: int| 0 <= r < HEIGHT && 0 <= c < WIDTH implies
                (#[trigger] h.cells[r][c]) == laid_cell(start_text(), old(self)@.cells[r][c], r, c) by {
                assert(h.cells[r][c] == self.cells@[r]@[c]);
            }
            if player_safe(old(self)@) {
                law_reset_keeps_safe(old(self)@, h);
            }
        }
    }

    /// One update: a running game moves the player, forgets the pending key, counts down
    /// to the next wave of barrels, rolls the barrels and handles collisions. A game that
    /// is over does not change.
    pub fn update(&mut self)
        requires
            well_formed(old(self)@),
            old(self)@.status == Status::Running ==> old(self)@.score + NUM_BARRELS <= u64::MAX,
        ensures
            final(self)@ == updated(old(self)@),
            well_formed(final(self)@),
            player_safe(old(self)@) ==> player_safe(final(self)@),
    {
        if self.status == Status::Running {
            self.move_player();
            self.last_key = None;
            let ghost g1 = self@;
            assert(placed(g1));
            if self.spawn_timer_done() {
                self.barrel_spawn();
                proof {
                    let bs = g1.barrels;
                    if num_active(bs) < NUM_BARRELS - 1 {
                        assert forall|i: int| 0 <= i < NUM_BARRELS implies barrel_placed(#[trigger] spawned(bs)[i]) by {
                            assert(barrel_placed(bs[i]));
                        }
                    }
                }
            }
            assert(self@ == spawn_phase(g1));
            let ghost g2 = self@;
            assert(placed(g2));
            self.move_barrels();
            let ghost g3 = self@;
            assert(placed(g3)) by {
                assert forall|i: int| 0 <= i < NUM_BARRELS implies barrel_placed(#[trigger] g3.barrels[i]) by {
                    assert(barrel_placed(g2.barrels[i]));
                    assert(g3.barrels[i] == rolled(g2.barrels[i]));
                }
            }
            self.collisions();
            proof {
                let g4 = self@;
                assert forall|i: int| 0 <= i < NUM_BARRELS implies barrel_placed(#[trigger] g4.barrels[i]) && (g4.barrels[i].active ==> legal(g4.barrels[i].pos)) by {
                    assert(barrel_placed(g3.barrels[i]));
                }
            }
        }
    }

    /// A key press: a game that is over restarts on `s` (raw or typed) and ignores every
    /// other key; a running game remembers the direction the key asks for.
    pub fn key(&mut self, key: DecodedKey)
        requires
            well_formed(old(self)@),
        ensures
            after_key(old(self)@, key, final(self)@),
            well_formed(final(self)@),
            player_safe(old(self)@) ==> player_safe(final(self)@),
    {
        match self.status {
            Status::Over => {
                match key {
                    DecodedKey::RawKey(KeyCode::S) | DecodedKey::Unicode('s') => self.reset(),
                    _ => {},
                }
            },
            _ => {
                let key = key2dir(key);
                if key.is_some() {
                    self.last_key = key;
                }
            },
        }
    }

    /// Whether the game is running or over.
    pub fn status(&self) -> (s: Status)
        ensures
            s == self@.status,
    {
        self.status
    }

    /// The number of barrels jumped over since the last reset.
    pub fn score(&self) -> (s: u64)
        ensures
            s == self@.score,
    {
        self.barrels_deleted
    }

    /// The cell at a position of the field.
    pub fn cell(&self, p: Position) -> (c: Cell)
        requires
            legal(p),
        ensures
            c == cell_of(self@, p),
    {
        self.cells[p.row as usize][p.col as usize]
    }

    /// Whether the player stands on `p`.
    pub fn player_at(&self, p: Position) -> (b: bool)
        ensures
            b == (p == self@.player.pos),
    {
        p == self.player.pos
    }

    /// An iterator over all positions of the field, row by row.
    pub fn cell_pos_iter(&self) -> (it: RowColIter)
        ensures
            it.index() == 0,
    {
        RowColIter { row: 0, col: 0 }
    }

    /// Whether a rolling barrel stands on `p`.
    pub fn barrel_at(&self, p: Position) -> (b: bool)
        ensures
            b == barrel_on(self@.barrels, p),
    {
        let mut i: usize = 0;
        while i < self.barrels.len()
            invariant
                0 <= i <= NUM_BARRELS,
                forall|j: int| 0 <= j < i ==> !((#[trigger] self.barrels@[j]).active && self.barrels@[j].pos == p),
            decreases NUM_BARRELS - i,
        {
            let b = self.barrels[i];
            if b.active && b.pos == p {
                return true;
            }
            i = i + 1;
        }
        false
    }

    /// Counts down to the next update: true, and the countdown restarts, when it has run out.
    pub fn countdown_complete(&mut self) -> (done: bool)
        ensures
            done == (old(self)@.countdown == 0),
            final(self)@ == (GameView { countdown: countdown_next(old(self)@.countdown), ..old(self)@ }),
            well_formed(old(self)@) ==> well_formed(final(self)@),
            player_safe(old(self)@) ==> player_safe(final(self)@),
    {
        if self.countdown == 0 {
            self.countdown = UPDATE_FREQUENCY;
            true
        } else {
            self.countdown -= 1;
            false
        }
    }

    fn jumping_timer_done(&mut self) -> (done: bool)
        ensures
            done == (old(self).player.jumping && old(self).jump_timer == 0),
            final(self).cells == old(self).cells,
            final(self).status == old(self).status,
            final(self).player.pos == old(self).player.pos,
            final(self).player.jumping == (old(self).player.jumping && old(self).jump_timer != 0),
            final(self).barrels == old(self).barrels,
            final(self).barrels_deleted == old(self).barrels_deleted,
            final(self).last_key == old(self).last_key,
            final(self).countdown == old(self).countdown,
            final(self).spawn_timer == old(self).spawn_timer,
            final(self).jump_timer == if !old(self).player.jumping {
                old(self).jump_timer
            } else if old(self).jump_timer == 0 {
                JUMP_TICKS
            } else {
                (old(self).jump_timer - 1) as usize
            },
    {
        if self.player.jumping {
            if self.jump_timer == 0 {
                self.jump_timer = JUMP_TICKS;
                self.player.jumping = false;
                return true;
            } else {
                self.jump_timer -= 1;
                return false;
            }
        }
        return false;
    }

    fn spawn_timer_done(&mut self) -> (done: bool)
        ensures
            done == (old(self).spawn_timer == 0),
            final(self).spawn_timer == if done {
                SPAWN_TICKS
            } else {
                (old(self).spawn_timer - 1) as usize
            },
            final(self).cells == old(self).cells,
            final(self).status == old(self).status,
            final(self).player == old(self).player,
            final(self).barrels == old(self).barrels,
            final(self).barrels_deleted == old(self).barrels_deleted,
            final(self).last_key == old(self).last_key,
            final(self).countdown == old(self).countdown,
            final(self).jump_timer == old(self).jump_timer,
    {
        if self.spawn_timer == 0 {
            self.spawn_timer = SPAWN_TICKS;
            return true;
        } else {
            self.spawn_timer -= 1;
            return false;
        }
    }

    fn move_player(&mut self)
        requires
            placed(old(self)@),
        ensures
            final(self)@ == player_phase(old(self)@),
    {
        let jump_done = self.jumping_timer_done();
        if jump_done {
            let dir = Dir::S;
            let neighbor = self.player.pos.neighbor(dir);
            if neighbor.is_legal() {
                let (row, col) = neighbor.row_col();
                if self.cells[row][col] != Cell::Wall {
                    self.player.pos = neighbor;
                }
            }
        } else if !self.player.jumping {
            if let Some(dir) = self.last_key {
                let neighbor = self.player.pos.neighbor(dir);
                if neighbor.is_legal() {
                    let (row, col) = neighbor.row_col();
                    if self.cells[row][col] != Cell::Wall {
                        self.player.pos = neighbor;
                        self.player.jumping = true;
                    }
                }
            }
        }
        assert(self@ =~= player_phase(old(self)@));
    }

    /// Where the next barrel of a wave enters: the spawn point, unless a rolling barrel
    /// stands there, else the parking spot.
    fn get_spawn_pos(&mut self) -> (p: Position)
        ensures
            p == if barrel_on(old(self)@.barrels, spawn_point()) {
                parked_point()
            } else {
                spawn_point()
            },
            *final(self) == *old(self),
    {
        if !self.barrel_at(Position { row: 12, col: 78 }) {
            return Position { row: 12, col: 78 };
        }
        return Position { row: 500, col: 500 };
    }

    fn barrel_spawn(&mut self)
        ensures
            final(self)@ == (GameView {
                barrels: if num_active(old(self)@.barrels) < NUM_BARRELS - 1 {
                    spawned(old(self)@.barrels)
                } else {
                    old(self)@.barrels
                },
                ..old(self)@
            }),
    {
        let ghost old_bs = self.barrels@;
        let mut active_barrels: usize = 0;
        let mut b: usize = 0;
        while b < self.barrels.len()
            invariant
                0 <= b <= NUM_BARRELS,
                self.cells == old(self).cells,
                self.status == old(self).status,
                self.player == old(self).player,
                self.barrels_deleted == old(self).barrels_deleted,
                self.last_key == old(self).last_key,
                self.countdown == old(self).countdown,
                self.spawn_timer == old(self).spawn_timer,
                self.jump_timer == old(self).jump_timer,
                old_bs == old(self).barrels@,
                self.barrels@ == old_bs,
                active_barrels == num_active(old_bs.take(b as int)),
                active_barrels <= b,
            decreases NUM_BARRELS - b,
        {
            assert(old_bs.take(b + 1).drop_last() =~= old_bs.take(b as int));
            if self.barrels[b].is_active() {
                active_barrels += 1;
            }
            b = b + 1;
        }
        assert(old_bs.take(NUM_BARRELS as int) =~= old_bs);
        if active_barrels < self.barrels.len() - 1 {
            let ghost taken = barrel_on(old_bs, spawn_point());
            let mut b: usize = 0;
            while b < self.barrels.len()
                invariant
                    0 <= b <= NUM_BARRELS,
                    self.cells == old(self).cells,
                    self.status == old(self).status,
                    self.player == old(self).player,
                    self.barrels_deleted == old(self).barrels_deleted,
                    self.last_key == old(self).last_key,
                    self.countdown == old(self).countdown,
                    self.spawn_timer == old(self).spawn_timer,
                    self.jump_timer == old(self).jump_timer,
                    old_bs == old(self).barrels@,
                    taken == barrel_on(old_bs, spawn_point()),
                    forall|j: int| 0 <= j < b ==> self.barrels@[j] == #[trigger] spawned(old_bs)[j],
                    forall|j: int| b <= j < NUM_BARRELS ==> self.barrels@[j] == #[trigger] old_bs[j],
                    barrel_on(self.barrels@, spawn_point()) == (taken || exists|j: int|
                        0 <= j < b && !(#[trigger] old_bs[j]).active),
                decreases NUM_BARRELS - b,
            {
                let ghost before = self.barrels@;
                let ghost idle_before = exists|j: int| 0 <= j < b && !(#[trigger] old_bs[j]).active;
                assert(before[b as int] == old_bs[b as int]);
                if !self.barrels[b].is_active() {
                    let pos = self.get_spawn_pos();
                    let mut nb = self.barrels[b];
                    nb.spawn(pos);
                    self.barrels[b] = nb;
                    proof {
                        let ghost after = self.barrels@;
                        assert(after[b as int] == Barrel { pos, dir: Dir::W, active: true });
                        assert(forall|j: int| 0 <= j < NUM_BARRELS && j != b ==> after[j] == before[j]);
                        if barrel_on(before, spawn_point()) {
                            let w = choose|i: int| 0 <= i < NUM_BARRELS && (#[trigger] before[i]).active && before[i].pos == spawn_point();
                            assert(w != b);
                            assert(after[w] == before[w]);
                            assert(barrel_on(after, spawn_point()));
                        } else {
                            assert(after[b as int].pos == spawn_point());
                            assert(barrel_on(after, spawn_point()));
                        }
                        if idle_before {
                            let k = choose|j: int| 0 <= j < b && !(#[trigger] old_bs[j]).active;
                            assert(!first_idle(old_bs, b as int));
                        } else {
                            assert forall|j: int| 0 <= j < b implies (#[trigger] old_bs[j]).active by {
                                if !old_bs[j].active {
                                    assert(idle_before);
                                }
                            }
                            assert(first_idle(old_bs, b as int));
                        }
                        assert(spawned(old_bs)[b as int] == after[b as int]);
                        assert(exists|j: int| 0 <= j < b + 1 && !(#[trigger] old_bs[j]).active) by {
                            assert(!old_bs[b as int].active);
                        }
                    }
                } else {
                    proof {
                        let ghost after = self.barrels@;
                        assert(after =~= before);
                        assert(spawned(old_bs)[b as int] == old_bs[b as int]);
                        assert((exists|j: int| 0 <= j < b + 1 && !(#[trigger] old_bs[j]).active) == idle_before) by {
                            if exists|j: int| 0 <= j < b + 1 && !(#[trigger] old_bs[j]).active {
                                let k = choose|j: int| 0 <= j < b + 1 && !(#[trigger] old_bs[j]).active;
                                assert(k < b);
                            }
                        }
                    }
                }
                b = b + 1;
            }
            assert(self.barrels@ =~= spawned(old_bs));
        }
        assert(self@ =~= (GameView {
            barrels: if num_active(old(self)@.barrels) < NUM_BARRELS - 1 {
                spawned(old(self)@.barrels)
            } else {
                old(self)@.barrels
            },
            ..old(self)@
        }));
    }

    /// Rolls every barrel: a rolling barrel moves one step in its direction, or stops when
    /// the step would leave the field.
    pub fn move_barrels(&mut self)
        requires
            placed(old(self)@),
        ensures
            final(self)@ == roll_phase(old(self)@),
            placed(final(self)@),
            forall|i: int| 0 <= i < NUM_BARRELS && (#[trigger] final(self)@.barrels[i]).active ==> legal(final(self)@.barrels[i].pos),
            well_formed(old(self)@) ==> well_formed(final(self)@),
            player_safe(old(self)@) ==> player_safe(final(self)@),
    {
        let ghost old_bs = self.barrels@;
        let mut b: usize = 0;
        while b < self.barrels.len()
            invariant
                0 <= b <= NUM_BARRELS,
                self.cells == old(self).cells,
                self.status == old(self).status,
                self.player == old(self).player,
                self.barrels_deleted == old(self).barrels_deleted,
                self.last_key == old(self).last_key,
                self.countdown == old(self).countdown,
                self.spawn_timer == old(self).spawn_timer,
                self.jump_timer == old(self).jump_timer,
                old_bs == old(self).barrels@,
                placed(old(self)@),
                forall|j: int| 0 <= j < b ==> self.barrels@[j] == rolled(#[trigger] old_bs[j]),
                forall|j: int| b <= j < NUM_BARRELS ==> self.barrels@[j] == #[trigger] old_bs[j],
            decreases NUM_BARRELS - b,
        {
            assert(barrel_placed(old_bs[b as int]));
            if self.barrels[b].active {
                let neighbor = self.barrels[b].neighbor();
                let mut nb = self.barrels[b];
                if neighbor.is_legal() {
                    nb.pos = neighbor;
                } else {
                    nb.active = false;
                }
                self.barrels[b] = nb;
            }
            b = b + 1;
        }
        assert(self.barrels@ =~= old_bs.map_values(|b: Barrel| rolled(b)));
        assert(self@ =~= roll_phase(old(self)@));
        assert forall|i: int| 0 <= i < NUM_BARRELS implies barrel_placed(#[trigger] self@.barrels[i]) by {
            assert(barrel_placed(old_bs[i]));
        }
    }

    fn collisions(&mut self)
        requires
            placed(old(self)@),
            old(self)@.score + NUM_BARRELS <= u64::MAX,
        ensures
            final(self)@ == collision_phase(old(self)@),
    {
        let ghost old_bs = self.barrels@;
        let ghost p = self.player.pos;
        let mut b: usize = 0;
        while b < self.barrels.len()
            invariant
                0 <= b <= NUM_BARRELS,
                self.cells == old(self).cells,
                self.player == old(self).player,
                p == self.player.pos,
                self.last_key == old(self).last_key,
                self.countdown == old(self).countdown,
                self.spawn_timer == old(self).spawn_timer,
                self.jump_timer == old(self).jump_timer,
                old_bs == old(self).barrels@,
                old_bs.len() == NUM_BARRELS,
                old(self)@.score + NUM_BARRELS <= u64::MAX,
                self.barrels_deleted == old(self).barrels_deleted + num_cleared(old_bs.take(b as int), p),
                self.status == if barrel_on(old_bs.take(b as int), p) {
                    Status::Over
                } else {
                    old(self).status
                },
                forall|j: int| 0 <= j < b ==> self.barrels@[j] == (if cleared(#[trigger] old_bs[j], p) {
                    Barrel { active: false, ..old_bs[j] }
                } else {
                    old_bs[j]
                }),
                forall|j: int| b <= j < NUM_BARRELS ==> self.barrels@[j] == #[trigger] old_bs[j],
            decreases NUM_BARRELS - b,
        {
            let ghost pre = old_bs.take(b as int);
            let ghost post = old_bs.take(b + 1);
            assert(post.drop_last() =~= pre);
            proof {
                lemma_num_cleared_bound(pre, p);
                if barrel_on(pre, p) {
                    let w = choose|i: int| 0 <= i < pre.len() && (#[trigger] pre[i]).active && pre[i].pos == p;
                    assert(post[w] == pre[w]);
                }
            }
            if self.barrels[b].pos == self.player.pos && self.barrels[b].active {
                match self.status {
                    Status::Running => self.status = Status::Over,
                    Status::Over => {},
                }
                assert(post[b as int] == old_bs[b as int]);
                assert(barrel_on(post, p));
            } else if self.barrels[b].pos.col <= self.player.pos.col && self.barrels[b].active {
                let mut nb = self.barrels[b];
                nb.active = false;
                self.barrels[b] = nb;
                self.barrels_deleted += 1;
                proof {
                    if barrel_on(post, p) {
                        let w = choose|i: int| 0 <= i < post.len() && (#[trigger] post[i]).active && post[i].pos == p;
                        assert(pre[w] == post[w]);
                    }
                }
            } else {
                proof {
                    if barrel_on(post, p) {
                        let w = choose|i: int| 0 <= i < post.len() && (#[trigger] post[i]).active && post[i].pos == p;
                        assert(pre[w] == post[w]);
                    }
                }
            }
            b = b + 1;
        }
        assert(old_bs.take(NUM_BARRELS as int) =~= old_bs);
        assert(self.barrels@ =~= old_bs.map_values(
            |b: Barrel|
                if cleared(b, p) {
                    Barrel { active: false, ..b }
                } else {
                    b
                },
        ));
        assert(self@ =~= collision_phase(old(self)@));
    }
}

/// Iterates over all positions of the field, row by row.
pub struct RowColIter {
    row: usize,
    col: usize,
}

impl RowColIter {
    #[verifier::type_invariant]
    spec fn in_range(self) -> bool {
        &&& self.col < WIDTH
        &&& self.row <= HEIGHT
        &&& self.row == HEIGHT ==> self.col == 0
    }

    /// How many positions have been handed out.
    pub closed spec fn index(self) -> int {
        self.row * WIDTH + self.col
    }

    /// The next position in row-major order, or `None` once every position of the field
    /// has been handed out.
    pub fn next(&mut self) -> (p: Option<Position>)
        ensures
            old(self).index() < HEIGHT * WIDTH ==> p == Some(
                Position {
                    row: (old(self).index() / WIDTH as int) as i16,
                    col: (old(self).index() % WIDTH as int) as i16,
                },
            ) && final(self).index() == old(self).index() + 1,
            old(self).index() >= HEIGHT * WIDTH ==> p == None::<Position> && final(self).index() == old(self).index(),
            0 <= final(self).index() <= HEIGHT * WIDTH,
    {
        proof {
            use_type_invariant(&*self);
        }
        if self.row < HEIGHT {
            let result = Some(Position { row: self.row as i16, col: self.col as i16 });
            if self.col + 1 == WIDTH {
                self.col = 0;
                self.row = self.row + 1;
            } else {
                self.col = self.col + 1;
            }
            result
        } else {
            None
        }
    }
}

// ------------------------------------------------------------------------------------------
// Laws of the game
// ------------------------------------------------------------------------------------------

/// A step can always be taken back: one step in direction `d` and one in the reverse
/// direction lead back to where they started, and the step back stays within `i16`.
pub proof fn law_step_back(p: Position, d: Dir)
    requires
        can_step(p, d),
    ensures
        can_step(neighbor_of(p, d), reverse_of(d)),
        neighbor_of(neighbor_of(p, d), reverse_of(d)) == p,
        neighbor_of(p, d) != p,
{
}

/// A game that is over stays exactly as it is, however often it is updated.
pub proof fn law_over_is_final(g: GameView)
    requires
        g.status == Status::Over,
    ensures
        updated(g) == g,
{
}

/// A game that is over ignores every key but the restart key; the restart key makes it run
/// again with a score of zero.
pub proof fn law_restart(g: GameView, key: DecodedKey, h: GameView)
    requires
        g.status == Status::Over,
        after_key(g, key, h),
    ensures
        !is_restart_key(key) ==> h == g,
        is_restart_key(key) ==> h.status == Status::Running && h.score == 0,
{
}

/// An update never lowers the score, and raises it by at most one point per barrel.
pub proof fn law_score_grows(g: GameView)
    requires
        well_formed(g),
        g.score + NUM_BARRELS <= u64::MAX,
    ensures
        g.score <= updated(g).score <= g.score + NUM_BARRELS,
{
    if g.status == Status::Running {
        let g3 = roll_phase(spawn_phase(GameView { last_key: None, ..player_phase(g) }));
        lemma_num_cleared_bound(g3.barrels, g3.player.pos);
    }
}

/// An update never changes the field, and leaves no key pending.
pub proof fn law_update_keeps_field(g: GameView)
    ensures
        updated(g).cells == g.cells,
        g.status == Status::Running ==> updated(g).last_key == None::<Dir>,
{
}

/// The player only ever stands on the field, and never moves into a wall: after an update
/// the player is where it was, or on a cell of the field that is no wall.
pub proof fn law_player_walks(g: GameView)
    requires
        well_formed(g),
    ensures
        legal(updated(g).player.pos),
        updated(g).player.pos == g.player.pos || walkable(g, updated(g).player.pos),
{
}

/// The field already shows the start layout: reading the layout onto it changes no cell.
pub open spec fn settled(g: GameView) -> bool {
    forall|r: int, c: int|
        0 <= r < HEIGHT && 0 <= c < WIDTH ==> laid_cell(start_text(), #[trigger] g.cells[r][c], r, c)
            == g.cells[r][c]
}

/// No place where the start layout puts the player is a wall.
pub open spec fn starts_open(g: GameView) -> bool {
    forall|r: int, c: int| #[trigger] tilde_at(start_text(), r, c) ==> g.cells[r][c] != Cell::Wall
}

/// The invariant of every game that play can reach: a well-formed game on the start
/// field, with the player on the field and never inside a wall.
pub open spec fn player_safe(g: GameView) -> bool {
    &&& well_formed(g)
    &&& settled(g)
    &&& starts_open(g)
    &&& walkable(g, g.player.pos)
}

proof fn lemma_laid_twice(old: Cell, r: int, c: int)
    ensures
        laid_cell(start_text(), laid_cell(start_text(), old, r, c), r, c) == laid_cell(
            start_text(),
            old,
            r,
            c,
        ),
{
}

/// A new game is safe: the game that `new` builds has the player on an open cell of the
/// field.
pub proof fn law_new_is_safe(g: GameView)
    requires
        after_reset(fresh_view(), g),
        well_formed(g),
    ensures
        player_safe(g),
{
    lemma_start_places_player();
    let f = fresh_view();
    assert forall|r: int, c: int| 0 <= r < HEIGHT && 0 <= c < WIDTH implies laid_cell(
        start_text(),
        #[trigger] g.cells[r][c],
        r,
        c,
    ) == g.cells[r][c] by {
        assert(g.cells[r][c] == laid_cell(start_text(), f.cells[r][c], r, c));
        lemma_laid_twice(f.cells[r][c], r, c);
    }
    assert forall|r: int, c: int| #[trigger] tilde_at(start_text(), r, c) implies g.cells[r][c]
        != Cell::Wall by {
        assert(g.cells[r][c] == laid_cell(start_text(), f.cells[r][c], r, c));
    }
    let p = g.player.pos;
    assert(tilde_at(start_text(), p.row as int, p.col as int));
    assert(g.cells[p.row as int][p.col as int] == laid_cell(start_text(), f.cells[p.row as int][p.col as int], p.row as int, p.col as int));
}

/// In a safe game the player stands on the field, on an empty cell.
pub proof fn law_safe_player_on_empty(g: GameView)
    requires
        player_safe(g),
    ensures
        legal(g.player.pos),
        cell_of(g, g.player.pos) == Cell::Empty,
{
}

/// A reset keeps a game safe: the field stays as it is, and the player stands where the
/// layout puts it, or where it stood.
pub proof fn law_reset_keeps_safe(g: GameView, h: GameView)
    requires
        player_safe(g),
        after_reset(g, h),
        well_formed(h),
    ensures
        player_safe(h),
{
    assert forall|r: int, c: int| 0 <= r < HEIGHT && 0 <= c < WIDTH implies #[trigger] h.cells[r][c]
        == g.cells[r][c] by {
        assert(laid_cell(start_text(), g.cells[r][c], r, c) == g.cells[r][c]);
    }
    assert(h.cells =~= g.cells) by {
        assert forall|r: int| 0 <= r < HEIGHT implies #[trigger] h.cells[r] =~= g.cells[r] by {
            assert forall|c: int| 0 <= c < WIDTH implies #[trigger] h.cells[r][c] == g.cells[r][c] by {
            }
        }
    }
    if has_tilde(start_text()) {
        let p = h.player.pos;
        assert(tilde_at(start_text(), p.row as int, p.col as int));
    }
}

/// An update keeps a game safe.
pub proof fn law_update_keeps_safe(g: GameView)
    requires
        player_safe(g),
        well_formed(updated(g)),
    ensures
        player_safe(updated(g)),
{
    law_update_keeps_field(g);
    law_player_walks(g);
}

/// A key press keeps a game safe.
pub proof fn law_key_keeps_safe(g: GameView, key: DecodedKey, h: GameView)
    requires
        player_safe(g),
        after_key(g, key, h),
        well_formed(h),
    ensures
        player_safe(h),
{
    if g.status == Status::Over && is_restart_key(key) {
        law_reset_keeps_safe(g, h);
    }
}

/// The countdown after one call of `countdown_complete`: one less, or full again after
/// it ran out.
pub open spec fn countdown_next(c: usize) -> usize {
    if c == 0 {
        UPDATE_FREQUENCY
    } else {
        (c - 1) as usize
    }
}

/// The countdown after `k` calls of `countdown_complete`.
pub open spec fn countdown_after(c: usize, k: nat) -> usize
    decreases k,
{
    if k == 0 {
        c
    } else {
        countdown_next(countdown_after(c, (k - 1) as nat))
    }
}

/// `countdown_complete` answers true once in every `UPDATE_FREQUENCY + 1` calls: from a
/// countdown of `c`, call number `k` (counting from 0) answers true exactly when `k == c`
/// among the next `UPDATE_FREQUENCY + 1` calls, and after them the countdown is `c` again.
pub proof fn law_countdown_period(c: usize, k: nat)
    requires
        c <= UPDATE_FREQUENCY,
        k <= UPDATE_FREQUENCY,
    ensures
        (countdown_after(c, k) == 0) == (k == c),
        countdown_after(c, (UPDATE_FREQUENCY + 1) as nat) == c,
{
    reveal_with_fuel(countdown_after, 5);
}

proof fn lemma_all_active_count(bs: Seq<Barrel>)
    requires
        forall|i: int| 0 <= i < bs.len() ==> (#[trigger] bs[i]).active,
    ensures
        num_active(bs) == bs.len(),
    decreases bs.len(),
{
    if bs.len() > 0 {
        assert forall|i: int| 0 <= i < bs.drop_last().len() implies (#[trigger] bs.drop_last()[i]).active by {
            assert(bs.drop_last()[i] == bs[i]);
        }
        lemma_all_active_count(bs.drop_last());
    }
}

proof fn lemma_first_idle_from(bs: Seq<Barrel>, k: int) -> (i: int)
    requires
        0 <= k <= bs.len(),
        forall|j: int| 0 <= j < k ==> (#[trigger] bs[j]).active,
        exists|j: int| k <= j < bs.len() && !(#[trigger] bs[j]).active,
    ensures
        0 <= i < bs.len(),
        first_idle(bs, i),
    decreases bs.len() - k,
{
    if !bs[k].active {
        k
    } else {
        lemma_first_idle_from(bs, k + 1)
    }
}

/// A wave comes when it is due: when the spawn timer has run out and fewer than
/// `NUM_BARRELS - 1` barrels roll, every barrel rolls after the spawn phase, one of them at
/// the spawn point unless a barrel already stands there, and the timer starts again. With
/// the timer still running, or enough barrels rolling, no barrel starts.
pub proof fn law_wave_when_due(g: GameView)
    requires
        g.barrels.len() == NUM_BARRELS,
    ensures
        g.spawn_timer == 0 && num_active(g.barrels) < NUM_BARRELS - 1 ==> {
            let h = spawn_phase(g);
            &&& forall|i: int| 0 <= i < NUM_BARRELS ==> (#[trigger] h.barrels[i]).active
            &&& num_active(h.barrels) == NUM_BARRELS
            &&& barrel_on(h.barrels, spawn_point())
            &&& h.spawn_timer == SPAWN_TICKS
            &&& forall|i: int| 0 <= i < NUM_BARRELS && (#[trigger] g.barrels[i]).active ==> h.barrels[i] == g.barrels[i]
            &&& forall|i: int| 0 <= i < NUM_BARRELS && !(#[trigger] g.barrels[i]).active ==> h.barrels[i].dir == Dir::W
                && (h.barrels[i].pos == spawn_point() || h.barrels[i].pos == parked_point())
            &&& forall|i: int, j: int|
                0 <= i < NUM_BARRELS && 0 <= j < NUM_BARRELS && !(#[trigger] g.barrels[i]).active
                    && !(#[trigger] g.barrels[j]).active && h.barrels[i].pos == spawn_point()
                    && h.barrels[j].pos == spawn_point() ==> i == j
            &&& barrel_on(g.barrels, spawn_point()) ==> forall|i: int|
                0 <= i < NUM_BARRELS && !(#[trigger] g.barrels[i]).active ==> h.barrels[i].pos == parked_point()
        },
        g.spawn_timer != 0 || num_active(g.barrels) >= NUM_BARRELS - 1 ==> spawn_phase(g).barrels
            == g.barrels,
{
    let bs = g.barrels;
    if g.spawn_timer == 0 && num_active(bs) < NUM_BARRELS - 1 {
        let h = spawn_phase(g);
        assert(h.barrels == spawned(bs));
        assert forall|i: int| 0 <= i < NUM_BARRELS implies (#[trigger] h.barrels[i]).active by {
        }
        lemma_all_active_count(h.barrels);
        assert forall|i: int, j: int|
            0 <= i < NUM_BARRELS && 0 <= j < NUM_BARRELS && !(#[trigger] bs[i]).active
                && !(#[trigger] bs[j]).active && h.barrels[i].pos == spawn_point()
                && h.barrels[j].pos == spawn_point() implies i == j by {
            assert(first_idle(bs, i) && first_idle(bs, j));
            if i < j {
                assert(bs[i].active);
            } else if j < i {
                assert(bs[j].active);
            }
        }
        if !barrel_on(bs, spawn_point()) {
            if forall|j: int| 0 <= j < bs.len() ==> (#[trigger] bs[j]).active {
                lemma_all_active_count(bs);
            }
            let i0 = lemma_first_idle_from(bs, 0);
            assert(h.barrels[i0].pos == spawn_point() && h.barrels[i0].active);
        } else {
            let w = choose|i: int| 0 <= i < bs.len() && (#[trigger] bs[i]).active && bs[i].pos == spawn_point();
            assert(h.barrels[w] == bs[w]);
        }
    }
}

} // verus!
