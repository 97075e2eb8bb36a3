//! The phone-facing facade: plain transfer objects for a front end, and
//! the bookkeeping that turns the conductor's events into a render
//! snapshot. The front end never sees the arbiter's or model's own shapes.

use std::time::Duration;

use vstd::prelude::*;

use crate::arbiter::event::Event;
use crate::arbiter::{HumanInput, Waiting};
use crate::bot::clock::millis_u64;
use crate::game::{parse_rule_set, rule_set_of};
use crate::model::board::cell_index;
use crate::model::state::{same_board, same_state};
use crate::model::{AbortCause, Board, Cell, Color, ForfeitCause, GameResult, GameState, Position, Termination, Win};

verus! {

/// The default thinking time of a bot seat, in milliseconds.
pub const DEFAULT_BOT_THINKING_MS: u64 = 5_000;
/// What a bot's search keeps back from its turn time, in milliseconds.
pub const BOT_BUDGET_GUARD_MS: u64 = 250;
/// How far past its turn time a bot may answer, in milliseconds.
pub const BOT_TIMEOUT_TOLERANCE_MS: u64 = 750;

/// A new game as the app describes it.
#[derive(Debug, Clone, PartialEq, Eq)]
pub struct NewGameConfig {
    pub rule_set_id: String,
    pub board_size: u8,
    pub black: SeatSpec,
    pub white: SeatSpec,
    pub bot_thinking_time_ms: u64,
}

/// A seat of a phone game.
#[derive(Debug, Clone, PartialEq, Eq)]
pub enum SeatSpec {
    Human { display_name: String },
    /// `rapfi_asset_dir` is the directory of the Rapfi engine's files,
    /// needed by the `Master` level only.
    Bot { display_name: String, difficulty: Difficulty, rapfi_asset_dir: Option<String> },
}

/// The phone's difficulty levels.
#[derive(Debug, Clone, Copy, PartialEq, Eq, Structural)]
pub enum Difficulty {
    Easy,
    Medium,
    Hard,
    Master,
}

impl NewGameConfig {
    /// The default phone game: a human ("You") with black against Onyx at
    /// the `Hard` level, freestyle on 15 x 15, five seconds a move.
    pub fn phone_default() -> (c: Self)
        ensures
            c.rule_set_id@ == "freestyle"@,
            c.board_size == 15,
            c.black matches SeatSpec::Human { display_name } && display_name@ == "You"@,
            c.white matches SeatSpec::Bot { display_name, difficulty, rapfi_asset_dir } && display_name@ == "Onyx"@
                && difficulty == Difficulty::Hard && rapfi_asset_dir is None,
            c.bot_thinking_time_ms == DEFAULT_BOT_THINKING_MS,
    {
        NewGameConfig {
            rule_set_id: "freestyle".to_owned(),
            board_size: 15,
            black: SeatSpec::human("You"),
            white: SeatSpec::bot("Onyx", Difficulty::Hard),
            bot_thinking_time_ms: DEFAULT_BOT_THINKING_MS,
        }
    }
}

impl SeatSpec {
    /// A human seat.
    pub fn human(display_name: &str) -> (s: Self)
        ensures
            s matches SeatSpec::Human { display_name: d } && d@ == display_name@,
    {
        SeatSpec::Human { display_name: display_name.to_owned() }
    }

    /// A bot seat of the given level, without Rapfi files.
    pub fn bot(display_name: &str, difficulty: Difficulty) -> (s: Self)
        ensures
            s matches SeatSpec::Bot { display_name: d, difficulty: l, rapfi_asset_dir } && d@ == display_name@ && l
                == difficulty && rapfi_asset_dir is None,
    {
        SeatSpec::Bot { display_name: display_name.to_owned(), difficulty, rapfi_asset_dir: None }
    }
}

/// An input from the phone.
#[derive(Debug, Clone, Copy, PartialEq, Eq, Structural)]
pub enum MobileInput {
    Move { row: u8, col: u8 },
    Resign,
    Rewind { to_ply: usize },
}

/// The conductor's input for a phone input.
pub fn human_input(input: MobileInput) -> (h: HumanInput)
    ensures
        h == (match input {
            MobileInput::Move { row, col } => HumanInput::Move(Position { row, col }),
            MobileInput::Resign => HumanInput::Resign,
            MobileInput::Rewind { to_ply } => HumanInput::Rewind { to_ply },
        }),
{
    match input {
        MobileInput::Move { row, col } => HumanInput::Move(Position::new(row, col)),
        MobileInput::Resign => HumanInput::Resign,
        MobileInput::Rewind { to_ply } => HumanInput::Rewind { to_ply },
    }
}

/// The result of one tick of a phone session.
#[derive(Debug, Clone, PartialEq, Eq)]
pub struct MobileStep {
    pub events: Vec<MobileEvent>,
    pub waiting: WaitingDto,
    pub snapshot: SnapshotDto,
}

/// What the session waits for.
#[derive(Debug, Clone, Copy, PartialEq, Eq, Structural)]
pub enum WaitingDto {
    Human { color: ColorDto },
    Bot { color: ColorDto },
    Done,
}

/// A game event for the phone.
#[derive(Debug, Clone, PartialEq, Eq)]
pub enum MobileEvent {
    MatchStarted { rule_set_id: String, black: String, white: String },
    MoveRequested { color: ColorDto, legal_moves: Vec<PointDto> },
    MoveApplied { color: ColorDto, point: PointDto, elapsed_ms: u64 },
    MatchFinished { termination: TerminationDto },
    MatchRewound { move_count: usize },
    PlayerError { participant_id: u32, retryable: bool },
}

/// Everything the phone needs to draw the game.
#[derive(Debug, Clone, PartialEq, Eq)]
pub struct SnapshotDto {
    pub board: BoardDto,
    pub side_to_move: ColorDto,
    pub move_history: Vec<PointDto>,
    pub legal_moves: Vec<PointDto>,
    pub last_move: Option<PointDto>,
    pub termination: Option<TerminationDto>,
}

/// A board, row by row: `cells[row * width + col]`.
#[derive(Debug, Clone, PartialEq, Eq)]
pub struct BoardDto {
    pub width: u8,
    pub height: u8,
    pub cells: Vec<Option<ColorDto>>,
}

/// A stone color.
#[derive(Debug, Clone, Copy, PartialEq, Eq, Structural)]
pub enum ColorDto {
    Black,
    White,
}

/// A board point, 0-based.
#[derive(Debug, Clone, Copy, PartialEq, Eq, Structural)]
pub struct PointDto {
    pub row: u8,
    pub col: u8,
}

/// How a game ended; causes are lower-case names (`resign`, `timeout`,
/// `illegal_move`, `disconnect`, `malformed`, `crash`, `user_abort`).
#[derive(Debug, Clone, PartialEq, Eq)]
pub enum TerminationDto {
    Win { winner: ColorDto },
    Draw,
    Forfeit { winner: ColorDto, cause: &'static str },
    Aborted { cause: &'static str, faulted_color: Option<ColorDto> },
}

/// Why a phone session could not be made.
#[derive(Debug, Clone, PartialEq, Eq)]
pub enum MobileError {
    UnknownRuleSet(String),
    RapfiUnavailable(String),
    Json(String),
}

/// The text of a phone error.
pub open spec fn error_text(e: MobileError) -> Seq<char> {
    match e {
        MobileError::UnknownRuleSet(rule) => "unknown rule set: "@ + rule@,
        MobileError::RapfiUnavailable(message) => "Rapfi unavailable: "@ + message@,
        MobileError::Json(message) => "JSON error: "@ + message@,
    }
}

impl MobileError {
    /// The error as text, for display.
    pub fn message(&self) -> (s: String)
        ensures
            s@ == error_text(*self),
    {
        match self {
            MobileError::UnknownRuleSet(rule) => {
                let mut s = "unknown rule set: ".to_owned();
                s.append(rule.as_str());
                s
            },
            MobileError::RapfiUnavailable(message) => {
                let mut s = "Rapfi unavailable: ".to_owned();
                s.append(message.as_str());
                s
            },
            MobileError::Json(message) => {
                let mut s = "JSON error: ".to_owned();
                s.append(message.as_str());
                s
            },
        }
    }
}

/// The transfer color of a color.
pub open spec fn color_spec(c: Color) -> ColorDto {
    match c {
        Color::Black => ColorDto::Black,
        Color::White => ColorDto::White,
    }
}

/// The transfer color of a color.
pub fn color_dto(c: Color) -> (d: ColorDto)
    ensures
        d == color_spec(c),
{
    match c {
        Color::Black => ColorDto::Black,
        Color::White => ColorDto::White,
    }
}

/// The transfer point of a position.
pub fn point_dto(p: Position) -> (d: PointDto)
    ensures
        d.row == p.row,
        d.col == p.col,
{
    PointDto { row: p.row, col: p.col }
}

/// The transfer form of a wait state.
pub fn waiting_to_dto(w: Waiting) -> (d: WaitingDto)
    ensures
        d == (match w {
            Waiting::Human(c) => WaitingDto::Human { color: color_spec(c) },
            Waiting::Bot(c) => WaitingDto::Bot { color: color_spec(c) },
            Waiting::Done => WaitingDto::Done,
        }),
{
    match w {
        Waiting::Human(c) => WaitingDto::Human { color: color_dto(c) },
        Waiting::Bot(c) => WaitingDto::Bot { color: color_dto(c) },
        Waiting::Done => WaitingDto::Done,
    }
}

/// The name of a forfeit cause.
pub open spec fn forfeit_name(c: ForfeitCause) -> Seq<char> {
    match c {
        ForfeitCause::Resign => "resign"@,
        ForfeitCause::Timeout => "timeout"@,
        ForfeitCause::IllegalMove => "illegal_move"@,
        ForfeitCause::Disconnect => "disconnect"@,
        ForfeitCause::Malformed => "malformed"@,
        ForfeitCause::Crash => "crash"@,
    }
}

/// The name of an abort cause.
pub open spec fn abort_name(c: AbortCause) -> Seq<char> {
    match c {
        AbortCause::Timeout => "timeout"@,
        AbortCause::Disconnect => "disconnect"@,
        AbortCause::Malformed => "malformed"@,
        AbortCause::Crash => "crash"@,
        AbortCause::UserAbort => "user_abort"@,
    }
}

/// The name of a forfeit cause.
pub fn forfeit_cause_name(c: ForfeitCause) -> (s: &'static str)
    ensures
        s@ == forfeit_name(c),
{
    match c {
        ForfeitCause::Resign => "resign",
        ForfeitCause::Timeout => "timeout",
        ForfeitCause::IllegalMove => "illegal_move",
        ForfeitCause::Disconnect => "disconnect",
        ForfeitCause::Malformed => "malformed",
        ForfeitCause::Crash => "crash",
    }
}

/// The name of an abort cause.
pub fn abort_cause_name(c: AbortCause) -> (s: &'static str)
    ensures
        s@ == abort_name(c),
{
    match c {
        AbortCause::Timeout => "timeout",
        AbortCause::Disconnect => "disconnect",
        AbortCause::Malformed => "malformed",
        AbortCause::Crash => "crash",
        AbortCause::UserAbort => "user_abort",
    }
}

/// The transfer form of a termination matches it.
pub open spec fn termination_matches(t: Termination, d: TerminationDto) -> bool {
    match t {
        Termination::Completed { result } => match result {
            GameResult::Win(w) => d == TerminationDto::Win { winner: color_spec(w.color()) },
            GameResult::Draw => d == TerminationDto::Draw,
        },
        Termination::Forfeit { winner, cause } => d matches TerminationDto::Forfeit { winner: w, cause: c } && w
            == color_spec(winner) && c@ == forfeit_name(cause),
        Termination::Aborted { cause, faulted_color } => d matches TerminationDto::Aborted {
            cause: c,
            faulted_color: f,
        } && c@ == abort_name(cause) && f == (match faulted_color {
            Some(x) => Some(color_spec(x)),
            None => None::<ColorDto>,
        }),
    }
}

/// The transfer form of a termination.
pub fn termination_to_dto(t: Termination) -> (d: TerminationDto)
    ensures
        termination_matches(t, d),
{
    match t {
        Termination::Completed { result } => match result {
            GameResult::Win(w) => TerminationDto::Win { winner: color_dto(w.winner()) },
            GameResult::Draw => TerminationDto::Draw,
        },
        Termination::Forfeit { winner, cause } => TerminationDto::Forfeit {
            winner: color_dto(winner),
            cause: forfeit_cause_name(cause),
        },
        Termination::Aborted { cause, faulted_color } => TerminationDto::Aborted {
            cause: abort_cause_name(cause),
            faulted_color: match faulted_color {
                Some(c) => Some(color_dto(c)),
                None => None,
            },
        },
    }
}

/// The transfer form of a board's point.
pub open spec fn cell_dto(c: Cell) -> Option<ColorDto> {
    match c {
        Cell::Stone(color) => Some(color_spec(color)),
        Cell::Empty => None,
    }
}

/// The transfer form of a board, row by row.
pub fn board_to_dto(board: &Board) -> (d: BoardDto)
    ensures
        d.width == board.w(),
        d.height == board.h(),
        d.cells@.len() == board.w() * board.h(),
        forall|r: int, c: int|
            board.has(r, c) ==> #[trigger] d.cells@[cell_index(board.w(), r, c)] == cell_dto(board.at(r, c)),
{
    let w = board.width();
    let h = board.height();
    let mut cells: Vec<Option<ColorDto>> = Vec::new();
    let mut row: u8 = 0;
    while row < h
        invariant
            w == board.w(),
            h == board.h(),
            row <= h,
            cells@.len() == row * w,
            forall|r: int, c: int|
                0 <= r < row && 0 <= c < w ==> #[trigger] cells@[cell_index(w as int, r, c)] == cell_dto(board.at(r, c)),
        decreases h - row,
    {
        let mut col: u8 = 0;
        while col < w
            invariant
                w == board.w(),
                h == board.h(),
                row < h,
                col <= w,
                cells@.len() == row * w + col,
                forall|r: int, c: int|
                    (0 <= r < row && 0 <= c < w) || (r == row && 0 <= c < col) ==> #[trigger] cells@[cell_index(
                        w as int,
                        r,
                        c,
                    )] == cell_dto(board.at(r, c)),
            decreases w - col,
        {
            let cell = board.get(Position::new(row, col));
            let dto = match cell {
                Some(Cell::Stone(color)) => Some(color_dto(color)),
                _ => None,
            };
            let ghost before = cells@;
            cells.push(dto);
            proof {
                assert forall|r: int, c: int|
                    (0 <= r < row && 0 <= c < w) || (r == row && 0 <= c < col + 1) implies #[trigger] cells@[cell_index(
                    w as int,
                    r,
                    c,
                )] == cell_dto(board.at(r, c)) by {
                    if r == row && c == col {
                        assert(cell_index(w as int, r, c) == row * w + col);
                    } else {
                        crate::model::board::lemma_cell_index_bounds(w as int, (row + 1) as int, r, c);
                        assert(cell_index(w as int, r, c) < row * w + col) by (nonlinear_arith)
                            requires
                                (0 <= r < row && 0 <= c < w) || (r == row && 0 <= c < col),
                        ;
                        assert(cells@[cell_index(w as int, r, c)] == before[cell_index(w as int, r, c)]);
                    }
                }
            }
            col = col + 1;
        }
        proof {
            assert(cells@.len() == (row + 1) * w) by (nonlinear_arith)
                requires
                    cells@.len() == row * w + w,
            ;
        }
        row = row + 1;
    }
    proof {
        assert(cells@.len() == board.w() * board.h()) by (nonlinear_arith)
            requires
                cells@.len() == row * w,
                row == h,
                w == board.w(),
                h == board.h(),
        ;
    }
    BoardDto { width: w, height: h, cells }
}

/// The whole milliseconds of `d`, saturated to `u64`.
pub fn duration_ms(d: Duration) -> (ms: u64) {
    millis_u64(&d)
}

/// The transfer points of a list of moves.
fn points_of(moves: &Vec<crate::model::Move>) -> (out: Vec<PointDto>)
    ensures
        out@.len() == moves@.len(),
        forall|k: int| 0 <= k < out@.len() ==> (#[trigger] out@[k]).row == moves@[k].pos().row && out@[k].col
            == moves@[k].pos().col,
{
    let mut out: Vec<PointDto> = Vec::new();
    let mut i: usize = 0;
    while i < moves.len()
        invariant
            i <= moves@.len(),
            out@.len() == i,
            forall|k: int| 0 <= k < i ==> (#[trigger] out@[k]).row == moves@[k].pos().row && out@[k].col
                == moves@[k].pos().col,
        decreases moves@.len() - i,
    {
        out.push(point_dto(moves[i].position()));
        i = i + 1;
    }
    out
}

/// The phone's form of an event.
pub fn event_to_dto(event: &Event) -> (d: MobileEvent)
    ensures
        match *event {
            Event::MatchStarted { rule_set_id, black, white, .. } => d matches MobileEvent::MatchStarted {
                rule_set_id: id,
                black: b,
                white: w,
            } && id@ == rule_set_id@ && b@ == black.display_name@ && w@ == white.display_name@,
            Event::MoveRequested { color, context } => d matches MobileEvent::MoveRequested { color: c, legal_moves }
                && c == color_spec(color) && legal_moves@.len() == context.legal_moves@.len() && forall|k: int|
                0 <= k < legal_moves@.len() ==> (#[trigger] legal_moves@[k]).row == context.legal_moves@[k].pos().row
                    && legal_moves@[k].col == context.legal_moves@[k].pos().col,
            Event::MoveApplied { color, mv, .. } => d matches MobileEvent::MoveApplied { color: c, point, .. } && c
                == color_spec(color) && point.row == mv.pos().row && point.col == mv.pos().col,
            Event::MatchFinished { termination, .. } => d matches MobileEvent::MatchFinished { termination: t }
                && termination_matches(termination, t),
            Event::MatchRewound { new_state } => d == MobileEvent::MatchRewound {
                move_count: new_state.move_history@.len() as usize,
            },
            Event::PlayerError { participant_id, retryable, .. } => d == MobileEvent::PlayerError {
                participant_id,
                retryable,
            },
        },
{
    match event {
        Event::MatchStarted { rule_set_id, black, white, .. } => MobileEvent::MatchStarted {
            rule_set_id: rule_set_id.clone(),
            black: black.display_name.clone(),
            white: white.display_name.clone(),
        },
        Event::MoveRequested { color, context } => MobileEvent::MoveRequested {
            color: color_dto(*color),
            legal_moves: points_of(&context.legal_moves),
        },
        Event::MoveApplied { color, mv, elapsed, .. } => MobileEvent::MoveApplied {
            color: color_dto(*color),
            point: point_dto(mv.position()),
            elapsed_ms: duration_ms(*elapsed),
        },
        Event::MatchFinished { termination, .. } => MobileEvent::MatchFinished {
            termination: termination_to_dto(*termination),
        },
        Event::MatchRewound { new_state } => MobileEvent::MatchRewound { move_count: new_state.move_history.len() },
        Event::PlayerError { participant_id, retryable, .. } => MobileEvent::PlayerError {
            participant_id: *participant_id,
            retryable: *retryable,
        },
    }
}

/// A bot's search budget in nanoseconds: its turn time less the guard
/// when the turn is longer than the guard, else the whole turn.
pub open spec fn budget_nanos_spec(timeout: u128) -> u128 {
    if timeout > BOT_BUDGET_GUARD_MS * 1_000_000 {
        (timeout - BOT_BUDGET_GUARD_MS * 1_000_000) as u128
    } else {
        timeout
    }
}

/// A bot's search budget in nanoseconds for a turn of `timeout`.
pub fn budget_nanos(timeout: u128) -> (b: u128)
    ensures
        b == budget_nanos_spec(timeout),
{
    let guard: u128 = (BOT_BUDGET_GUARD_MS as u128) * 1_000_000;
    if timeout > guard {
        timeout - guard
    } else {
        timeout
    }
}

/// The search budget of a bot with turn time `timeout`: the time less a
/// quarter-second guard, so the move arrives before the turn ends; a turn
/// no longer than the guard is left whole.
pub fn bot_search_budget(timeout: Duration) -> Duration {
    let n = budget_nanos(crate::bot::clock::as_nanos(&timeout));
    crate::bot::clock::from_nanos_u128(n)
}

/// Why a phone game cannot be set up from its description, before any
/// engine is built: an unknown rule set, or a `Master` seat without Rapfi
/// files (the rule set is checked first, then black, then white).
pub fn check_config(config: &NewGameConfig) -> (r: Result<(), MobileError>)
    ensures
        rule_set_of(config.rule_set_id@) is None ==> (r matches Err(MobileError::UnknownRuleSet(id)) && id@
            == config.rule_set_id@),
        rule_set_of(config.rule_set_id@) is Some ==> (r is Ok <==> !missing_rapfi(config.black) && !missing_rapfi(
            config.white,
        )),
        r is Err && rule_set_of(config.rule_set_id@) is Some ==> (r matches Err(MobileError::RapfiUnavailable(m))
            && m@ == "missing Rapfi asset directory"@),
{
    if parse_rule_set(config.rule_set_id.as_str()).is_none() {
        return Err(MobileError::UnknownRuleSet(config.rule_set_id.clone()));
    }
    if seat_missing_rapfi(&config.black) || seat_missing_rapfi(&config.white) {
        return Err(MobileError::RapfiUnavailable("missing Rapfi asset directory".to_owned()));
    }
    Ok(())
}

/// A `Master` bot seat without Rapfi files.
pub open spec fn missing_rapfi(s: SeatSpec) -> bool {
    s matches SeatSpec::Bot { difficulty: Difficulty::Master, rapfi_asset_dir: None, .. }
}

fn seat_missing_rapfi(s: &SeatSpec) -> (b: bool)
    ensures
        b == missing_rapfi(*s),
{
    match s {
        SeatSpec::Bot { difficulty: Difficulty::Master, rapfi_asset_dir: None, .. } => true,
        _ => false,
    }
}

/// The position an event carries, if any.
pub open spec fn carries_state(e: Event) -> bool {
    ||| e is MatchStarted
    ||| e is MoveApplied
    ||| e is MatchFinished
    ||| e is MatchRewound
}

/// The position carried by an event that carries one.
pub open spec fn state_of(e: Event) -> GameState {
    match e {
        Event::MatchStarted { initial_state, .. } => initial_state,
        Event::MoveApplied { new_state, .. } => new_state,
        Event::MatchFinished { final_state, .. } => final_state,
        Event::MatchRewound { new_state } => new_state,
        Event::MoveRequested { context, .. } => GameState {
            board: context.board,
            side_to_move: context.side_to_move,
            move_history: context.move_history,
        },
        Event::PlayerError { .. } => arbitrary(),
    }
}

/// The event sets the legal points: a request lists them; a rewind or
/// the end clears them.
pub open spec fn sets_legal(e: Event) -> bool {
    ||| e is MoveRequested
    ||| e is MatchRewound
    ||| e is MatchFinished
}

/// The legal points an event leaves.
pub open spec fn legal_of(e: Event) -> Seq<Position> {
    match e {
        Event::MoveRequested { context, .. } => context.legal_moves@.map_values(|m: crate::model::Move| m.pos()),
        _ => Seq::empty(),
    }
}

/// The event sets the result shown: the end sets it; a start or a rewind
/// clears it.
pub open spec fn sets_result(e: Event) -> bool {
    ||| e is MatchStarted
    ||| e is MatchRewound
    ||| e is MatchFinished
}

/// The index of the last of the first `k` events with property `p`, or -1.
pub open spec fn last_index(ev: Seq<Event>, k: int, p: spec_fn(Event) -> bool) -> int
    decreases k,
{
    if k <= 0 {
        -1
    } else if p(ev[k - 1]) {
        k - 1
    } else {
        last_index(ev, k - 1, p)
    }
}

/// The last-index search finds an earlier index or nothing.
pub proof fn lemma_last_index_range(ev: Seq<Event>, k: int, p: spec_fn(Event) -> bool)
    ensures
        -1 <= last_index(ev, k, p) < k || (k <= 0 && last_index(ev, k, p) == -1),
        last_index(ev, k, p) >= 0 ==> p(ev[last_index(ev, k, p)]),
    decreases k,
{
    if k > 0 {
        lemma_last_index_range(ev, k - 1, p);
    }
}

/// What the phone session shows between ticks: the position, the legal
/// points of the side to move, what it waits for and the result.
pub struct SessionView {
    pub state: GameState,
    pub legal_moves: Vec<Position>,
    pub waiting: WaitingDto,
    pub termination: Option<TerminationDto>,
}

/// A copy of an optional result.
fn copy_termination(t: &Option<TerminationDto>) -> (r: Option<TerminationDto>)
    ensures
        r == *t,
{
    match t {
        None => None,
        Some(TerminationDto::Win { winner }) => Some(TerminationDto::Win { winner: *winner }),
        Some(TerminationDto::Draw) => Some(TerminationDto::Draw),
        Some(TerminationDto::Forfeit { winner, cause }) => Some(TerminationDto::Forfeit { winner: *winner, cause }),
        Some(TerminationDto::Aborted { cause, faulted_color }) => Some(
            TerminationDto::Aborted { cause, faulted_color: *faulted_color },
        ),
    }
}

impl SessionView {
    /// The view before the first tick: an empty `board_size` board, black
    /// to move, nothing legal yet, waiting for nothing, no result.
    pub fn new(board_size: u8) -> (v: Self)
        ensures
            crate::game::is_initial(v.state, board_size as int),
            v.legal_moves@.len() == 0,
            v.waiting == WaitingDto::Done,
            v.termination is None,
    {
        SessionView {
            state: GameState::new(Board::square(board_size), Color::Black),
            legal_moves: Vec::new(),
            waiting: WaitingDto::Done,
            termination: None,
        }
    }

    /// Takes in the events of a tick, in order, and the wait state after
    /// it: the last event with a position gives the position; the last
    /// request, rewind or end gives the legal points (a request's, else
    /// none); the last start, rewind or end gives the result (the end's,
    /// else none).
    pub fn apply_step(&mut self, events: &Vec<Event>, waiting: Waiting)
        ensures
            ({
                let i = last_index(events@, events@.len() as int, |e: Event| carries_state(e));
                if i >= 0 {
                    same_state(final(self).state, state_of(events@[i]))
                } else {
                    same_state(final(self).state, old(self).state)
                }
            }),
            ({
                let i = last_index(events@, events@.len() as int, |e: Event| sets_legal(e));
                if i >= 0 {
                    final(self).legal_moves@ == legal_of(events@[i])
                } else {
                    final(self).legal_moves@ == old(self).legal_moves@
                }
            }),
            ({
                let i = last_index(events@, events@.len() as int, |e: Event| sets_result(e));
                if i >= 0 {
                    match events@[i] {
                        Event::MatchFinished { termination, .. } => (final(self).termination matches Some(d)
                            && termination_matches(termination, d)),
                        _ => final(self).termination is None,
                    }
                } else {
                    final(self).termination == old(self).termination
                }
            }),
            final(self).waiting == (match waiting {
                Waiting::Human(c) => WaitingDto::Human { color: color_spec(c) },
                Waiting::Bot(c) => WaitingDto::Bot { color: color_spec(c) },
                Waiting::Done => WaitingDto::Done,
            }),
    {
        let ghost ps = |e: Event| carries_state(e);
        let ghost pl = |e: Event| sets_legal(e);
        let ghost pr = |e: Event| sets_result(e);
        let ghost s0 = self.state;
        let ghost l0 = self.legal_moves@;
        let ghost t0 = self.termination;
        let mut k: usize = 0;
        while k < events.len()
            invariant
                k <= events@.len(),
                ps == (|e: Event| carries_state(e)),
                pl == (|e: Event| sets_legal(e)),
                pr == (|e: Event| sets_result(e)),
                last_index(events@, k as int, ps) >= 0 ==> same_state(self.state, state_of(events@[last_index(events@, k as int, ps)])),
                last_index(events@, k as int, ps) < 0 ==> same_state(self.state, s0),
                last_index(events@, k as int, pl) >= 0 ==> self.legal_moves@ == legal_of(events@[last_index(events@, k as int, pl)]),
                last_index(events@, k as int, pl) < 0 ==> self.legal_moves@ == l0,
                last_index(events@, k as int, pr) >= 0 ==> match events@[last_index(events@, k as int, pr)] {
                    Event::MatchFinished { termination, .. } => (self.termination matches Some(d) && termination_matches(
                        termination,
                        d,
                    )),
                    _ => self.termination is None,
                },
                last_index(events@, k as int, pr) < 0 ==> self.termination == t0,
            decreases events@.len() - k,
        {
            match &events[k] {
                Event::MatchStarted { initial_state, .. } => {
                    self.state = initial_state.clone();
                    self.termination = None;
                },
                Event::MoveRequested { context, .. } => {
                    let mut pts: Vec<Position> = Vec::new();
                    let mut j: usize = 0;
                    while j < context.legal_moves.len()
                        invariant
                            j <= context.legal_moves@.len(),
                            pts@ == context.legal_moves@.take(j as int).map_values(|m: crate::model::Move| m.pos()),
                        decreases context.legal_moves@.len() - j,
                    {
                        pts.push(context.legal_moves[j].position());
                        proof {
                            assert(context.legal_moves@.take(j as int + 1) =~= context.legal_moves@.take(j as int).push(
                                context.legal_moves@[j as int],
                            ));
                        }
                        j = j + 1;
                        proof {
                            assert(pts@ =~= context.legal_moves@.take(j as int).map_values(|m: crate::model::Move| m.pos()));
                        }
                    }
                    proof {
                        assert(context.legal_moves@.take(j as int) =~= context.legal_moves@);
                    }
                    self.legal_moves = pts;
                },
                Event::MoveApplied { new_state, .. } => {
                    self.state = new_state.clone();
                },
                Event::MatchFinished { final_state, termination } => {
                    self.state = final_state.clone();
                    self.termination = Some(termination_to_dto(*termination));
                    self.legal_moves = Vec::new();
                },
                Event::MatchRewound { new_state } => {
                    self.state = new_state.clone();
                    self.termination = None;
                    self.legal_moves = Vec::new();
                },
                Event::PlayerError { .. } => {},
            }
            proof {
                assert(legal_of(events@[k as int]) =~= legal_of(events@[k as int]));
                if events@[k as int] is MatchFinished || events@[k as int] is MatchRewound {
                    assert(self.legal_moves@ =~= legal_of(events@[k as int]));
                }
            }
            k = k + 1;
        }
        self.waiting = waiting_to_dto(waiting);
    }

    /// What the phone draws now.
    pub fn snapshot(&self) -> (s: SnapshotDto)
        ensures
            s.board.width == self.state.board.w(),
            s.board.height == self.state.board.h(),
            forall|r: int, c: int|
                self.state.board.has(r, c) ==> #[trigger] s.board.cells@[cell_index(self.state.board.w(), r, c)]
                    == cell_dto(self.state.board.at(r, c)),
            s.board.cells@.len() == self.state.board.w() * self.state.board.h(),
            s.side_to_move == color_spec(self.state.side_to_move),
            s.move_history@.len() == self.state.move_history@.len(),
            forall|k: int|
                0 <= k < s.move_history@.len() ==> (#[trigger] s.move_history@[k]).row
                    == self.state.move_history@[k].pos().row && s.move_history@[k].col
                    == self.state.move_history@[k].pos().col,
            s.legal_moves@.len() == self.legal_moves@.len(),
            forall|k: int|
                0 <= k < s.legal_moves@.len() ==> (#[trigger] s.legal_moves@[k]).row == self.legal_moves@[k].row
                    && s.legal_moves@[k].col == self.legal_moves@[k].col,
            self.state.move_history@.len() == 0 ==> s.last_move is None,
            self.state.move_history@.len() > 0 ==> (s.last_move matches Some(p) && p.row
                == self.state.move_history@.last().pos().row && p.col == self.state.move_history@.last().pos().col),
            s.termination == self.termination,
    {
        let history = points_of(&self.state.move_history);
        let mut legal: Vec<PointDto> = Vec::new();
        let mut i: usize = 0;
        while i < self.legal_moves.len()
            invariant
                i <= self.legal_moves@.len(),
                legal@.len() == i,
                forall|k: int|
                    0 <= k < i ==> (#[trigger] legal@[k]).row == self.legal_moves@[k].row && legal@[k].col
                        == self.legal_moves@[k].col,
            decreases self.legal_moves@.len() - i,
        {
            legal.push(point_dto(self.legal_moves[i]));
            i = i + 1;
        }
        let n = self.state.move_history.len();
        let last_move = if n == 0 {
            None
        } else {
            Some(point_dto(self.state.move_history[n - 1].position()))
        };
        SnapshotDto {
            board: board_to_dto(&self.state.board),
            side_to_move: color_dto(self.state.side_to_move),
            move_history: history,
            legal_moves: legal,
            last_move,
            termination: copy_termination(&self.termination),
        }
    }
}

} // verus!
