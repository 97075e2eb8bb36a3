//! The authoritative state machine of one game.
//!
//! The position is always the one reached from the empty board by playing
//! its move history, black first and alternating; every command keeps it
//! so, and a rewind rebuilds the position of any shorter prefix of the
//! history.

use vstd::prelude::*;

use super::command::{Command, CommandRejected, ParticipantId, PlayerSeat};
use super::event::{
    is_applied, is_applied_move, is_finish, is_player_error, is_request, is_rewound, is_started, Event,
    PlayerErrorCode,
    SeatInfo,
};
use super::failure::{
    abort_cause, abort_spec, action_spec, forfeit_cause, forfeit_spec, IllegalAction, LostAction,
};
use crate::game::{apply_move, initial_state, is_initial, legal_at, legal_moves, outcome_spec, parse_rule_set, placed, rule_set_of, Outcome};
use crate::model::color::other;
use crate::model::state::{same_board, same_state};
use crate::model::{
    AbortCause, Cell, Color, ForfeitCause, GameResult, GameState, Move, PlayerLostKind, Position, RuleSet,
    Termination, TurnContext, Win,
};

verus! {

/// The color of the stone of ply `k` (counting from zero): black first.
pub open spec fn ply_color(k: int) -> Color {
    if k % 2 == 0 {
        Color::Black
    } else {
        Color::White
    }
}

/// The content of `(r, c)` after the moves `h` from the empty board.
pub open spec fn replay_cell(h: Seq<Move>, r: int, c: int) -> Cell
    decreases h.len(),
{
    if h.len() == 0 {
        Cell::Empty
    } else if h.last().pos().row == r && h.last().pos().col == c {
        Cell::Stone(ply_color(h.len() - 1))
    } else {
        replay_cell(h.drop_last(), r, c)
    }
}

/// The moves `h` are on a `size` board and on distinct points.
pub open spec fn on_board_distinct(h: Seq<Move>, size: int) -> bool {
    &&& forall|k: int| 0 <= k < h.len() ==> (#[trigger] h[k]).pos().row < size && h[k].pos().col < size
    &&& forall|i: int, j: int| 0 <= i < j < h.len() ==> (#[trigger] h[i]).pos() != (#[trigger] h[j]).pos()
}

/// `s` is the position reached from the empty `size` board by its history.
pub open spec fn replays(s: GameState, size: int) -> bool {
    &&& s.board.w() == size
    &&& s.board.h() == size
    &&& on_board_distinct(s.move_history@, size)
    &&& s.side_to_move == ply_color(s.move_history@.len() as int)
    &&& forall|r: int, c: int|
        #![trigger s.board.at(r, c)]
        s.board.has(r, c) ==> s.board.at(r, c) == replay_cell(s.move_history@, r, c)
}

/// A point is empty after `h` exactly when no move of `h` is on it.
pub proof fn lemma_replay_empty(h: Seq<Move>, r: int, c: int)
    ensures
        (replay_cell(h, r, c) == Cell::Empty) <==> (forall|k: int|
            0 <= k < h.len() ==> !((#[trigger] h[k]).pos().row == r && h[k].pos().col == c)),
    decreases h.len(),
{
    if h.len() > 0 {
        lemma_replay_empty(h.drop_last(), r, c);
        assert forall|k: int| 0 <= k < h.len() - 1 implies #[trigger] h.drop_last()[k] == h[k] by {}
        if !(h.last().pos().row == r && h.last().pos().col == c) {
            if replay_cell(h, r, c) == Cell::Empty {
                assert forall|k: int| 0 <= k < h.len() implies !((#[trigger] h[k]).pos().row == r && h[k].pos().col == c) by {
                    if k < h.len() - 1 {
                        assert(h.drop_last()[k] == h[k]);
                    }
                }
            } else {
                let k = choose|k: int|
                    0 <= k < h.len() - 1 && (#[trigger] h.drop_last()[k]).pos().row == r && h.drop_last()[k].pos().col
                        == c;
                assert(h.drop_last()[k] == h[k]);
            }
        } else {
            assert(h[h.len() - 1] == h.last());
        }
    }
}

/// Playing `mv` on an empty point keeps a position the replay of its history.
pub proof fn lemma_replays_push(before: GameState, after: GameState, mv: Move, size: int)
    requires
        replays(before, size),
        before.board.empty_at(mv.pos().row as int, mv.pos().col as int),
        placed(before, after, mv),
    ensures
        replays(after, size),
{
    let h = before.move_history@;
    let h2 = after.move_history@;
    assert(h2.drop_last() =~= h);
    let p = mv.pos();
    assert(before.board.at(p.row as int, p.col as int) == replay_cell(h, p.row as int, p.col as int));
    lemma_replay_empty(h, p.row as int, p.col as int);
    assert forall|i: int, j: int| 0 <= i < j < h2.len() implies (#[trigger] h2[i]).pos() != (#[trigger] h2[j]).pos() by {
        if j == h.len() {
            assert(h2[i] == h[i]);
            assert(h2[j] == mv);
            assert(!(h[i].pos().row == p.row && h[i].pos().col == p.col));
        } else {
            assert(h2[i] == h[i]);
            assert(h2[j] == h[j]);
        }
    }
    assert forall|k: int| 0 <= k < h2.len() implies (#[trigger] h2[k]).pos().row < size && h2[k].pos().col < size by {
        if k < h.len() {
            assert(h2[k] == h[k]);
        }
    }
    assert forall|r: int, c: int| #![trigger after.board.at(r, c)] after.board.has(r, c) implies after.board.at(r, c)
        == replay_cell(h2, r, c) by {
        assert(h2.last() == mv);
        assert(before.board.at(r, c) == replay_cell(h, r, c));
    }
}

/// Whether a game is going on or has ended.
#[derive(Debug, Clone, Copy, PartialEq, Eq, Structural)]
enum Status {
    Active,
    Done,
}

/// One hosted game.
struct MatchRun {
    rule_set_id: String,
    rule_set: RuleSet,
    black: PlayerSeat,
    white: PlayerSeat,
    /// The empty starting position, replayed from on a rewind.
    initial: GameState,
    state: GameState,
    status: Status,
}

/// The natural result won by `c`.
pub open spec fn win_of(c: Color) -> Win {
    match c {
        Color::Black => Win::BlackWin,
        Color::White => Win::WhiteWin,
    }
}

/// The termination of a game whose last move had outcome `o`.
pub open spec fn completed(o: Outcome) -> Termination {
    match o {
        Outcome::Win(c) => Termination::Completed { result: GameResult::Win(win_of(c)) },
        _ => Termination::Completed { result: GameResult::Draw },
    }
}

impl MatchRun {
    spec fn wf(&self) -> bool {
        &&& is_initial(self.initial, self.initial.board.w())
        &&& replays(self.state, self.initial.board.w())
    }

    spec fn color_spec(&self, participant_id: ParticipantId) -> Option<Color> {
        if participant_id == self.black.participant_id {
            Some(Color::Black)
        } else if participant_id == self.white.participant_id {
            Some(Color::White)
        } else {
            None
        }
    }

    spec fn seat_spec(&self, color: Color) -> PlayerSeat {
        match color {
            Color::Black => self.black,
            Color::White => self.white,
        }
    }

    fn seat(&self, color: Color) -> (s: &PlayerSeat)
        ensures
            *s == self.seat_spec(color),
    {
        match color {
            Color::Black => &self.black,
            Color::White => &self.white,
        }
    }

    fn color_of(&self, participant_id: ParticipantId) -> (c: Option<Color>)
        ensures
            c == self.color_spec(participant_id),
    {
        if participant_id == self.black.participant_id {
            Some(Color::Black)
        } else if participant_id == self.white.participant_id {
            Some(Color::White)
        } else {
            None
        }
    }

    /// The request to the side to move, with the legal moves.
    fn request_move(&self) -> (e: Event)
        ensures
            is_request(e, self.state, self.rule_set),
    {
        let color = self.state.side_to_move;
        let context = TurnContext {
            board: self.state.board.clone(),
            side_to_move: color,
            move_history: history_copy(&self.state.move_history),
            legal_moves: legal_moves(&self.state, self.rule_set),
            rule_set: self.rule_set,
            timeout_turn: None,
            time_left: None,
        };
        Event::MoveRequested { color, context }
    }

    /// Ends the game by `termination`.
    fn finish(&mut self, termination: Termination) -> (e: Event)
        ensures
            final(self).status == Status::Done,
            final(self).state == old(self).state,
            final(self).initial == old(self).initial,
            final(self).rule_set == old(self).rule_set,
            final(self).rule_set_id == old(self).rule_set_id,
            final(self).black == old(self).black,
            final(self).white == old(self).white,
            is_finish(e, termination, old(self).state),
    {
        self.status = Status::Done;
        Event::MatchFinished { termination, final_state: self.state.clone() }
    }

    /// Rebuilds the position after the first `to_ply` moves of the history
    /// and resumes play.
    fn rewind_to(&mut self, to_ply: usize)
        requires
            old(self).wf(),
            to_ply <= old(self).state.move_history@.len(),
        ensures
            final(self).wf(),
            final(self).status == Status::Active,
            final(self).state.move_history@ == old(self).state.move_history@.take(to_ply as int),
            final(self).initial == old(self).initial,
            final(self).rule_set == old(self).rule_set,
            final(self).rule_set_id == old(self).rule_set_id,
            final(self).black == old(self).black,
            final(self).white == old(self).white,
    {
        let ghost size = self.initial.board.w();
        let history = history_copy(&self.state.move_history);
        let ghost h = history@;
        let mut state = self.initial.clone();
        proof {
            assert(state.move_history@ =~= h.take(0));
            assert forall|r: int, c: int| #![trigger state.board.at(r, c)] state.board.has(r, c) implies state.board.at(r, c)
                == replay_cell(state.move_history@, r, c) by {
                assert(self.initial.board.at(r, c) == Cell::Empty);
            }
        }
        let mut k: usize = 0;
        while k < to_ply
            invariant
                k <= to_ply,
                to_ply <= h.len(),
                history@ == h,
                on_board_distinct(h, size),
                replays(state, size),
                state.move_history@ == h.take(k as int),
            decreases to_ply - k,
        {
            let mv = history[k];
            let ghost p = mv.pos();
            proof {
                let hk = h.take(k as int);
                assert forall|j: int| 0 <= j < hk.len() implies !((#[trigger] hk[j]).pos().row == p.row && hk[j].pos().col
                    == p.col) by {
                    assert(hk[j] == h[j]);
                    assert(h[j].pos() != h[k as int].pos());
                }
                lemma_replay_empty(hk, p.row as int, p.col as int);
                assert(state.board.at(p.row as int, p.col as int) == replay_cell(hk, p.row as int, p.col as int));
            }
            match apply_move(&state, mv, self.rule_set) {
                Ok(applied) => {
                    proof {
                        lemma_replays_push(state, applied.state, mv, size);
                        assert(applied.state.move_history@ =~= h.take(k as int + 1));
                    }
                    state = applied.state;
                },
                Err(_) => {
                    // Only a forced opening stone can stand on a foul point:
                    // it is put back as the opening put it.
                    let color = state.side_to_move;
                    let ghost before = state;
                    let pos = mv.position();
                    state.board.set(pos, Cell::Stone(color));
                    state.move_history.push(mv);
                    state.side_to_move = color.opposite();
                    proof {
                        assert(mv == Move::Place(pos)) by {
                            match mv {
                                Move::Place(q) => {},
                            }
                        }
                        lemma_replays_push(before, state, mv, size);
                        assert(state.move_history@ =~= h.take(k as int + 1));
                    }
                },
            }
            k = k + 1;
        }
        self.state = state;
        self.status = Status::Active;
    }
}

/// A copy of a move history.
fn history_copy(h: &Vec<Move>) -> (r: Vec<Move>)
    ensures
        r@ == h@,
{
    let r = h.clone();
    proof {
        assert(r@ =~= h@);
    }
    r
}

/// The opening points are on a `size` board and distinct.
pub open spec fn opening_ok(op: Seq<Position>, size: int) -> bool {
    &&& forall|k: int| 0 <= k < op.len() ==> (#[trigger] op[k]).row < size && op[k].col < size
    &&& forall|i: int, j: int| 0 <= i < j < op.len() ==> #[trigger] op[i] != #[trigger] op[j]
}

/// The moves that lay the opening points.
pub open spec fn opening_moves(op: Seq<Position>) -> Seq<Move> {
    op.map_values(|p: Position| Move::Place(p))
}

/// The single-game arbiter: hosts at most one game, takes commands and
/// answers with events or a refusal.
pub struct Arbiter {
    run: Option<MatchRun>,
}

impl Arbiter {
    /// A game was started.
    pub closed spec fn started(&self) -> bool {
        self.run is Some
    }

    /// A game was started and has not ended.
    pub closed spec fn active(&self) -> bool {
        match self.run {
            Some(r) => r.status == Status::Active,
            None => false,
        }
    }

    /// The current position.
    pub closed spec fn position(&self) -> GameState {
        self.run->Some_0.state
    }

    /// The game's rule set.
    pub closed spec fn rules(&self) -> RuleSet {
        self.run->Some_0.rule_set
    }

    /// The game's board size.
    pub closed spec fn size(&self) -> int {
        self.run->Some_0.initial.board.w()
    }

    /// The game's `ruleSetId`.
    pub closed spec fn id_text(&self) -> Seq<char> {
        self.run->Some_0.rule_set_id@
    }

    /// The seat of `color`.
    pub closed spec fn seat_of(&self, color: Color) -> PlayerSeat {
        self.run->Some_0.seat_spec(color)
    }

    /// The color of the seat of `participant_id`, black's checked first.
    pub closed spec fn color_of(&self, participant_id: ParticipantId) -> Option<Color> {
        self.run->Some_0.color_spec(participant_id)
    }

    /// The arbiter's invariant: the position is the replay of its history
    /// on the game's board.
    pub closed spec fn wf(&self) -> bool {
        match self.run {
            Some(r) => r.wf(),
            None => true,
        }
    }

    /// A new arbiter, hosting nothing.
    pub fn new() -> (a: Self)
        ensures
            !a.started(),
            a.wf(),
    {
        Arbiter { run: None }
    }
}

/// `b` hosts the same game as `a`, possibly further on.
pub open spec fn same_game(a: Arbiter, b: Arbiter) -> bool {
    &&& b.started()
    &&& b.rules() == a.rules()
    &&& b.size() == a.size()
    &&& b.id_text() == a.id_text()
    &&& b.seat_of(Color::Black) == a.seat_of(Color::Black)
    &&& b.seat_of(Color::White) == a.seat_of(Color::White)
    &&& forall|p: ParticipantId| b.color_of(p) == a.color_of(p)
}

/// The contract of `StartMatch`.
pub open spec fn start_spec(
    a: Arbiter,
    b: Arbiter,
    id: Seq<char>,
    size: u8,
    op: Seq<Position>,
    black: PlayerSeat,
    white: PlayerSeat,
    r: Result<Vec<Event>, CommandRejected>,
) -> bool {
    if a.started() {
        r == Err::<Vec<Event>, CommandRejected>(CommandRejected::DuplicateMatch) && b == a
    } else if rule_set_of(id) is None {
        r == Err::<Vec<Event>, CommandRejected>(CommandRejected::UnknownRuleSet) && b == a
    } else if !opening_ok(op, size as int) {
        r == Err::<Vec<Event>, CommandRejected>(CommandRejected::InvalidOpening) && b == a
    } else {
        &&& r is Ok
        &&& b.started()
        &&& b.active()
        &&& b.rules() == rule_set_of(id)->Some_0
        &&& b.size() == size
        &&& b.id_text() == id
        &&& b.seat_of(Color::Black) == black
        &&& b.seat_of(Color::White) == white
        &&& b.position().move_history@ == opening_moves(op)
        &&& r->Ok_0@.len() == op.len() + 2
        &&& is_started(r->Ok_0@[0], id, size as int)
        &&& forall|k: int|
            0 <= k < op.len() ==> is_applied_move(#[trigger] r->Ok_0@[k + 1], ply_color(k), Move::Place(op[k]))
        &&& is_request(r->Ok_0@[op.len() as int + 1], b.position(), b.rules())
    }
}

/// The common refusals of a command to a started, ongoing game.
pub open spec fn refused(a: Arbiter, b: Arbiter, r: Result<Vec<Event>, CommandRejected>) -> bool {
    &&& !a.started() ==> r == Err::<Vec<Event>, CommandRejected>(CommandRejected::NoActiveMatch) && b == a
    &&& a.started() && !a.active() ==> r == Err::<Vec<Event>, CommandRejected>(CommandRejected::MatchNotActive)
        && b == a
}

/// The contract of `SubmitMove`.
pub open spec fn submit_spec(
    a: Arbiter,
    b: Arbiter,
    participant_id: ParticipantId,
    mv: Move,
    r: Result<Vec<Event>, CommandRejected>,
) -> bool {
    let s = a.position();
    let side = s.side_to_move;
    let p = mv.pos();
    &&& refused(a, b, r)
    &&& a.active() && a.color_of(participant_id) is None ==> r == Err::<Vec<Event>, CommandRejected>(
        CommandRejected::UnknownParticipant,
    ) && b == a
    &&& a.active() && a.color_of(participant_id) is Some && a.color_of(participant_id)->Some_0 != side ==> r is Ok
        && r->Ok_0@.len() == 1 && is_player_error(r->Ok_0@[0], participant_id, PlayerErrorCode::Unauthorized, false) && b
        == a
    &&& a.active() && a.color_of(participant_id) == Some(side) && !legal_at(s, a.rules(), p)
        && a.seat_of(side).failure_policy.illegal_move == IllegalAction::Retry ==> r is Ok && r->Ok_0@.len() == 2
        && is_player_error(r->Ok_0@[0], participant_id, PlayerErrorCode::IllegalMove, true) && is_request(
        r->Ok_0@[1],
        s,
        a.rules(),
    ) && b == a
    &&& a.active() && a.color_of(participant_id) == Some(side) && !legal_at(s, a.rules(), p)
        && a.seat_of(side).failure_policy.illegal_move == IllegalAction::ForfeitOpponent ==> r is Ok && r->Ok_0@.len()
        == 1 && is_finish(
        r->Ok_0@[0],
        Termination::Forfeit { winner: other(side), cause: ForfeitCause::IllegalMove },
        s,
    ) && same_game(a, b) && !b.active() && b.position() == s
    &&& a.active() && a.color_of(participant_id) == Some(side) && legal_at(s, a.rules(), p)
        ==> r is Ok && r->Ok_0@.len() == 2 && same_game(a, b) && placed(s, b.position(), mv) && is_applied(
        r->Ok_0@[0],
        side,
        mv,
        b.position(),
    ) && (if outcome_spec(b.position(), p, side, a.rules()) == Outcome::Continue {
        b.active() && is_request(r->Ok_0@[1], b.position(), b.rules())
    } else {
        !b.active() && is_finish(r->Ok_0@[1], completed(outcome_spec(b.position(), p, side, a.rules())), b.position())
    })
}

/// The contract of `Resign`.
pub open spec fn resign_spec(a: Arbiter, b: Arbiter, participant_id: ParticipantId, r: Result<Vec<Event>, CommandRejected>) -> bool {
    &&& refused(a, b, r)
    &&& a.active() && a.color_of(participant_id) is None ==> r == Err::<Vec<Event>, CommandRejected>(
        CommandRejected::UnknownParticipant,
    ) && b == a
    &&& a.active() && a.color_of(participant_id) is Some ==> r is Ok && r->Ok_0@.len() == 1 && is_finish(
        r->Ok_0@[0],
        Termination::Forfeit { winner: other(a.color_of(participant_id)->Some_0), cause: ForfeitCause::Resign },
        a.position(),
    ) && same_game(a, b) && !b.active() && b.position() == a.position()
}

/// The termination for the player of `color` lost by `kind`.
pub open spec fn lost_termination(policy_action: LostAction, color: Color, kind: PlayerLostKind) -> Termination {
    match policy_action {
        LostAction::ForfeitOpponent => Termination::Forfeit { winner: other(color), cause: forfeit_spec(kind) },
        LostAction::Abort => Termination::Aborted { cause: abort_spec(kind), faulted_color: Some(color) },
    }
}

/// The contract of `PlayerLost`: ignored after the end.
pub open spec fn lost_spec(
    a: Arbiter,
    b: Arbiter,
    participant_id: ParticipantId,
    kind: PlayerLostKind,
    r: Result<Vec<Event>, CommandRejected>,
) -> bool {
    &&& !a.started() ==> r == Err::<Vec<Event>, CommandRejected>(CommandRejected::NoActiveMatch) && b == a
    &&& a.started() && !a.active() ==> r is Ok && r->Ok_0@.len() == 0 && b == a
    &&& a.active() && a.color_of(participant_id) is None ==> r == Err::<Vec<Event>, CommandRejected>(
        CommandRejected::UnknownParticipant,
    ) && b == a
    &&& a.active() && a.color_of(participant_id) is Some ==> r is Ok && r->Ok_0@.len() == 1 && is_finish(
        r->Ok_0@[0],
        lost_termination(
            action_spec(a.seat_of(a.color_of(participant_id)->Some_0).failure_policy, kind),
            a.color_of(participant_id)->Some_0,
            kind,
        ),
        a.position(),
    ) && same_game(a, b) && !b.active() && b.position() == a.position()
}

/// The contract of `Rewind`: allowed after the end too.
pub open spec fn rewind_spec(a: Arbiter, b: Arbiter, to_ply: usize, r: Result<Vec<Event>, CommandRejected>) -> bool {
    &&& !a.started() ==> r == Err::<Vec<Event>, CommandRejected>(CommandRejected::NoActiveMatch) && b == a
    &&& a.started() && to_ply > a.position().move_history@.len() ==> r == Err::<Vec<Event>, CommandRejected>(
        CommandRejected::InvalidRewindTarget,
    ) && b == a
    &&& a.started() && to_ply <= a.position().move_history@.len() ==> r is Ok && r->Ok_0@.len() == 2 && same_game(a, b)
        && b.active() && b.position().move_history@ == a.position().move_history@.take(to_ply as int) && is_rewound(
        r->Ok_0@[0],
        b.position(),
    ) && is_request(r->Ok_0@[1], b.position(), b.rules())
}

/// The contract of `AbortMatch`.
pub open spec fn abort_match_spec(a: Arbiter, b: Arbiter, r: Result<Vec<Event>, CommandRejected>) -> bool {
    &&& refused(a, b, r)
    &&& a.active() ==> r is Ok && r->Ok_0@.len() == 1 && is_finish(
        r->Ok_0@[0],
        Termination::Aborted { cause: AbortCause::UserAbort, faulted_color: None },
        a.position(),
    ) && same_game(a, b) && !b.active() && b.position() == a.position()
}

impl Arbiter {
    /// Handles one command: the events it gives, in order, or why it is
    /// refused (and then nothing changes).
    pub fn handle(&mut self, command: Command) -> (r: Result<Vec<Event>, CommandRejected>)
        requires
            old(self).wf(),
        ensures
            final(self).wf(),
            match command {
                Command::StartMatch { rule_set_id, board_size, opening, black, white } => start_spec(
                    *old(self),
                    *final(self),
                    rule_set_id@,
                    board_size,
                    opening@,
                    black,
                    white,
                    r,
                ),
                Command::SubmitMove { participant_id, mv } => submit_spec(*old(self), *final(self), participant_id, mv, r),
                Command::Resign { participant_id } => resign_spec(*old(self), *final(self), participant_id, r),
                Command::PlayerLost { participant_id, kind } => lost_spec(*old(self), *final(self), participant_id, kind, r),
                Command::Rewind { to_ply } => rewind_spec(*old(self), *final(self), to_ply, r),
                Command::AbortMatch => abort_match_spec(*old(self), *final(self), r),
            },
    {
        match command {
            Command::StartMatch { rule_set_id, board_size, opening, black, white } => self.start_match(
                rule_set_id,
                board_size,
                opening,
                black,
                white,
            ),
            Command::SubmitMove { participant_id, mv } => self.submit_move(participant_id, mv),
            Command::Resign { participant_id } => self.resign(participant_id),
            Command::PlayerLost { participant_id, kind } => self.player_lost(participant_id, kind),
            Command::Rewind { to_ply } => self.rewind(to_ply),
            Command::AbortMatch => self.abort_match(),
        }
    }

    fn start_match(
        &mut self,
        rule_set_id: String,
        board_size: u8,
        opening: Vec<Position>,
        black: PlayerSeat,
        white: PlayerSeat,
    ) -> (r: Result<Vec<Event>, CommandRejected>)
        requires
            old(self).wf(),
        ensures
            final(self).wf(),
            start_spec(*old(self), *final(self), rule_set_id@, board_size, opening@, black, white, r),
    {
        if self.run.is_some() {
            return Err(CommandRejected::DuplicateMatch);
        }
        let rule_set = match parse_rule_set(rule_set_id.as_str()) {
            Some(rs) => rs,
            None => {
                return Err(CommandRejected::UnknownRuleSet);
            },
        };
        let ghost size = board_size as int;
        let ghost op = opening@;
        let mut state = initial_state(rule_set, board_size);
        let started = Event::MatchStarted {
            rule_set_id: rule_set_id.clone(),
            black: SeatInfo { participant_id: black.participant_id, display_name: black.display_name.clone() },
            white: SeatInfo { participant_id: white.participant_id, display_name: white.display_name.clone() },
            initial_state: state.clone(),
        };
        let mut events: Vec<Event> = Vec::new();
        events.push(started);
        proof {
            assert(state.move_history@ =~= opening_moves(op.take(0)));
            assert forall|r: int, c: int| #![trigger state.board.at(r, c)] state.board.has(r, c) implies state.board.at(r, c)
                == replay_cell(state.move_history@, r, c) by {}
        }
        let mut i: usize = 0;
        while i < opening.len()
            invariant
                i <= op.len(),
                opening@ == op,
                size == board_size,
                *self == *old(self),
                !old(self).started(),
                old(self).wf(),
                rule_set_of(rule_set_id@) == Some(rule_set),
                rule_set_id@ == rule_set_id@,
                replays(state, size),
                state.move_history@ == opening_moves(op.take(i as int)),
                opening_ok(op.take(i as int), size),
                events@.len() == i + 1,
                is_started(events@[0], rule_set_id@, size),
                forall|k: int| 0 <= k < i ==> is_applied_move(#[trigger] events@[k + 1], ply_color(k), Move::Place(op[k])),
            decreases op.len() - i,
        {
            let pos = opening[i];
            let ghost h = state.move_history@;
            if !state.board.in_bounds(pos) || !state.board.is_empty_at(pos) {
                proof {
                    if state.board.has(pos.row as int, pos.col as int) {
                        assert(state.board.at(pos.row as int, pos.col as int) == replay_cell(h, pos.row as int, pos.col as int));
                        lemma_replay_empty(h, pos.row as int, pos.col as int);
                        let k = choose|k: int| 0 <= k < h.len() && (#[trigger] h[k]).pos().row == pos.row && h[k].pos().col == pos.col;
                        assert(h[k] == Move::Place(op.take(i as int)[k]));
                        assert(op.take(i as int)[k] == op[k]);
                        assert(op[k] == op[i as int]);
                    } else {
                        assert(op[i as int] == pos);
                    }
                }
                return Err(CommandRejected::InvalidOpening);
            }
            let color = state.side_to_move;
            let ghost before = state;
            let mv = Move::Place(pos);
            state.board.set(pos, Cell::Stone(color));
            state.move_history.push(mv);
            state.side_to_move = color.opposite();
            proof {
                assert(mv.pos() == pos);
                lemma_replays_push(before, state, mv, size);
                assert(op.take(i as int + 1) =~= op.take(i as int).push(op[i as int]));
                assert(opening_moves(op.take(i as int + 1)) =~= opening_moves(op.take(i as int)).push(mv));
                assert(state.board.at(pos.row as int, pos.col as int) == replay_cell(state.move_history@, pos.row as int, pos.col as int));
                lemma_replay_empty(h, pos.row as int, pos.col as int);
                let t = op.take(i as int + 1);
                assert forall|a: int, b: int| 0 <= a < b < t.len() implies #[trigger] t[a] != #[trigger] t[b] by {
                    if b == i {
                        assert(h[a] == Move::Place(op[a]));
                        assert(!(h[a].pos().row == pos.row && h[a].pos().col == pos.col));
                    } else {
                        assert(op.take(i as int)[a] == t[a]);
                        assert(op.take(i as int)[b] == t[b]);
                    }
                }
                assert forall|k: int| 0 <= k < t.len() implies (#[trigger] t[k]).row < size && t[k].col < size by {
                    if k < i {
                        assert(op.take(i as int)[k] == t[k]);
                    }
                }
            }
            events.push(
                Event::MoveApplied { color, mv, new_state: state.clone(), elapsed: crate::bot::clock::from_millis(0) },
            );
            proof {
                assert forall|k: int| 0 <= k < i + 1 implies is_applied_move(
                    #[trigger] events@[k + 1],
                    ply_color(k),
                    Move::Place(op[k]),
                ) by {
                    if k == i {
                        assert(color == ply_color(k));
                    }
                }
            }
            i = i + 1;
        }
        proof {
            assert(op.take(op.len() as int) =~= op);
        }
        let run = MatchRun {
            rule_set_id,
            rule_set,
            black,
            white,
            initial: initial_state(rule_set, board_size),
            state,
            status: Status::Active,
        };
        events.push(run.request_move());
        self.run = Some(run);
        Ok(events)
    }

    fn submit_move(&mut self, participant_id: ParticipantId, mv: Move) -> (r: Result<Vec<Event>, CommandRejected>)
        requires
            old(self).wf(),
        ensures
            final(self).wf(),
            submit_spec(*old(self), *final(self), participant_id, mv, r),
    {
        let mut run = match self.run.take() {
            None => {
                return Err(CommandRejected::NoActiveMatch);
            },
            Some(run) => run,
        };
        if run.status != Status::Active {
            self.run = Some(run);
            return Err(CommandRejected::MatchNotActive);
        }
        let color = match run.color_of(participant_id) {
            None => {
                self.run = Some(run);
                return Err(CommandRejected::UnknownParticipant);
            },
            Some(c) => c,
        };
        if color != run.state.side_to_move {
            self.run = Some(run);
            return Ok(vec![Event::PlayerError { participant_id, code: PlayerErrorCode::Unauthorized, retryable: false }]);
        }
        let ghost size = run.initial.board.w();
        match apply_move(&run.state, mv, run.rule_set) {
            Err(_) => {
                let events = Self::handle_illegal(&mut run, participant_id);
                self.run = Some(run);
                Ok(events)
            },
            Ok(applied) => {
                let ghost before = run.state;
                proof {
                    lemma_replays_push(run.state, applied.state, mv, size);
                }
                let outcome = applied.outcome;
                run.state = applied.state;
                let mut events: Vec<Event> = Vec::new();
                events.push(
                    Event::MoveApplied {
                        color,
                        mv,
                        new_state: run.state.clone(),
                        elapsed: crate::bot::clock::from_millis(0),
                    },
                );
                match outcome {
                    Outcome::Win(winner) => {
                        let termination = Termination::Completed { result: GameResult::Win(Win::for_color(winner)) };
                        events.push(run.finish(termination));
                    },
                    Outcome::Draw => {
                        let termination = Termination::Completed { result: GameResult::Draw };
                        events.push(run.finish(termination));
                    },
                    Outcome::Continue => {
                        events.push(run.request_move());
                    },
                }
                self.run = Some(run);
                Ok(events)
            },
        }
    }

    fn handle_illegal(run: &mut MatchRun, participant_id: ParticipantId) -> (events: Vec<Event>)
        ensures
            final(run).state == old(run).state,
            final(run).initial == old(run).initial,
            final(run).rule_set == old(run).rule_set,
            final(run).rule_set_id == old(run).rule_set_id,
            final(run).black == old(run).black,
            final(run).white == old(run).white,
            old(run).seat_spec(old(run).state.side_to_move).failure_policy.illegal_move == IllegalAction::Retry
                ==> *final(run) == *old(run) && events@.len() == 2 && is_player_error(
                events@[0],
                participant_id,
                PlayerErrorCode::IllegalMove,
                true,
            ) && is_request(events@[1], old(run).state, old(run).rule_set),
            old(run).seat_spec(old(run).state.side_to_move).failure_policy.illegal_move
                == IllegalAction::ForfeitOpponent ==> final(run).status == Status::Done && events@.len() == 1
                && is_finish(
                events@[0],
                Termination::Forfeit { winner: other(old(run).state.side_to_move), cause: ForfeitCause::IllegalMove },
                old(run).state,
            ),
    {
        let color = run.state.side_to_move;
        match run.seat(color).failure_policy.illegal_move {
            IllegalAction::Retry => {
                let request = run.request_move();
                vec![Event::PlayerError { participant_id, code: PlayerErrorCode::IllegalMove, retryable: true }, request]
            },
            IllegalAction::ForfeitOpponent => {
                let termination = Termination::Forfeit { winner: color.opposite(), cause: ForfeitCause::IllegalMove };
                vec![run.finish(termination)]
            },
        }
    }

    fn resign(&mut self, participant_id: ParticipantId) -> (r: Result<Vec<Event>, CommandRejected>)
        requires
            old(self).wf(),
        ensures
            final(self).wf(),
            resign_spec(*old(self), *final(self), participant_id, r),
    {
        let mut run = match self.run.take() {
            None => {
                return Err(CommandRejected::NoActiveMatch);
            },
            Some(run) => run,
        };
        if run.status != Status::Active {
            self.run = Some(run);
            return Err(CommandRejected::MatchNotActive);
        }
        let color = match run.color_of(participant_id) {
            None => {
                self.run = Some(run);
                return Err(CommandRejected::UnknownParticipant);
            },
            Some(c) => c,
        };
        let termination = Termination::Forfeit { winner: color.opposite(), cause: ForfeitCause::Resign };
        let event = run.finish(termination);
        self.run = Some(run);
        Ok(vec![event])
    }

    fn player_lost(&mut self, participant_id: ParticipantId, kind: PlayerLostKind) -> (r: Result<Vec<Event>, CommandRejected>)
        requires
            old(self).wf(),
        ensures
            final(self).wf(),
            lost_spec(*old(self), *final(self), participant_id, kind, r),
    {
        let mut run = match self.run.take() {
            None => {
                return Err(CommandRejected::NoActiveMatch);
            },
            Some(run) => run,
        };
        if run.status != Status::Active {
            self.run = Some(run);
            return Ok(Vec::new());
        }
        let color = match run.color_of(participant_id) {
            None => {
                self.run = Some(run);
                return Err(CommandRejected::UnknownParticipant);
            },
            Some(c) => c,
        };
        let termination = match run.seat(color).failure_policy.action_for(kind) {
            LostAction::ForfeitOpponent => Termination::Forfeit { winner: color.opposite(), cause: forfeit_cause(kind) },
            LostAction::Abort => Termination::Aborted { cause: abort_cause(kind), faulted_color: Some(color) },
        };
        let event = run.finish(termination);
        self.run = Some(run);
        Ok(vec![event])
    }

    fn rewind(&mut self, to_ply: usize) -> (r: Result<Vec<Event>, CommandRejected>)
        requires
            old(self).wf(),
        ensures
            final(self).wf(),
            rewind_spec(*old(self), *final(self), to_ply, r),
    {
        let mut run = match self.run.take() {
            None => {
                return Err(CommandRejected::NoActiveMatch);
            },
            Some(run) => run,
        };
        if to_ply > run.state.move_history.len() {
            self.run = Some(run);
            return Err(CommandRejected::InvalidRewindTarget);
        }
        run.rewind_to(to_ply);
        let rewound = Event::MatchRewound { new_state: run.state.clone() };
        let request = run.request_move();
        self.run = Some(run);
        Ok(vec![rewound, request])
    }

    fn abort_match(&mut self) -> (r: Result<Vec<Event>, CommandRejected>)
        requires
            old(self).wf(),
        ensures
            final(self).wf(),
            abort_match_spec(*old(self), *final(self), r),
    {
        let mut run = match self.run.take() {
            None => {
                return Err(CommandRejected::NoActiveMatch);
            },
            Some(run) => run,
        };
        if run.status != Status::Active {
            self.run = Some(run);
            return Err(CommandRejected::MatchNotActive);
        }
        let termination = Termination::Aborted { cause: AbortCause::UserAbort, faulted_color: None };
        let event = run.finish(termination);
        self.run = Some(run);
        Ok(vec![event])
    }

    /// The `ruleSetId` of the game, once started.
    pub fn rule_set_id(&self) -> (r: Option<&str>)
        ensures
            r is Some <==> self.started(),
            r matches Some(id) ==> id@ == self.id_text(),
    {
        match &self.run {
            Some(run) => Some(run.rule_set_id.as_str()),
            None => None,
        }
    }
}

/// The position of a started game is the replay of its move history on
/// the game's board.
pub proof fn lemma_position_replays(a: Arbiter)
    requires
        a.wf(),
        a.started(),
    ensures
        replays(a.position(), a.size()),
{
}

/// A position is determined by its board size and its move history.
pub proof fn lemma_replay_determines(s1: GameState, s2: GameState, size: int)
    requires
        replays(s1, size),
        replays(s2, size),
        s1.move_history@ == s2.move_history@,
    ensures
        same_state(s1, s2),
{
    assert forall|r: int, c: int| s1.board.has(r, c) implies s1.board.at(r, c) == s2.board.at(r, c) by {
        assert(s1.board.at(r, c) == replay_cell(s1.move_history@, r, c));
        assert(s2.board.at(r, c) == replay_cell(s2.move_history@, r, c));
    }
}

/// Taking back a legal move by rewinding to the ply before it restores
/// the position, and the game goes on (also when the move had ended it).
pub proof fn lemma_rewind_undoes_move(
    a: Arbiter,
    b: Arbiter,
    c: Arbiter,
    participant_id: ParticipantId,
    mv: Move,
    to_ply: usize,
    r1: Result<Vec<Event>, CommandRejected>,
    r2: Result<Vec<Event>, CommandRejected>,
)
    requires
        to_ply == a.position().move_history@.len(),
        a.wf(),
        b.wf(),
        c.wf(),
        a.active(),
        a.color_of(participant_id) == Some(a.position().side_to_move),
        legal_at(a.position(), a.rules(), mv.pos()),
        submit_spec(a, b, participant_id, mv, r1),
        rewind_spec(b, c, to_ply, r2),
    ensures
        r2 is Ok,
        c.active(),
        same_state(c.position(), a.position()),
{
    let h = a.position().move_history@;
    assert(b.position().move_history@ == h.push(mv));
    assert(h.push(mv).take(h.len() as int) =~= h);
    lemma_replay_determines(c.position(), a.position(), a.size());
}

impl Default for Arbiter {
    fn default() -> (a: Self)
        ensures
            !a.started(),
            a.wf(),
    {
        Arbiter::new()
    }
}

} // verus!
