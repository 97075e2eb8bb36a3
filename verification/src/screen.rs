//! What the interactive board shows of a game as the conductor's steps come
//! in: the position, the last move, the points the human to move may play,
//! whose turn is being timed, the cursor, the review ply and the status
//! line. The clocks themselves are kept by the front end, which does what
//! each event's [`ClockStep`] says.

use std::time::Duration;

use vstd::prelude::*;

use crate::arbiter::conductor::Waiting;
use crate::arbiter::event::Event;
use crate::cli::{final_termination, result_spec, result_text, termination_of};
use crate::mobile::last_index;
use crate::model::state::same_state;
use crate::model::color::other;
use crate::model::{Color, GameState, Move, Position};

verus! {

/// What the clocks do for one event.
#[derive(Debug, Clone, Copy)]
pub enum ClockStep {
    /// Nothing.
    Keep,
    /// A move of `color` was played: `elapsed` joins the list of thinking
    /// times, and when `stop_turn` the timed turn of `color` ends.
    Moved { color: Color, elapsed: Duration, stop_turn: bool },
    /// The game went back to `plies` moves: the list of thinking times keeps
    /// its first `plies`.
    Rewound { plies: usize },
    /// `color` is asked to move: its turn starts, with `time_left` on its
    /// game clock.
    Requested { color: Color, time_left: Option<Duration> },
}

/// The screen's view of the game.
pub struct Screen {
    pub state: GameState,
    pub black_name: String,
    pub white_name: String,
    /// Whether black, and white, are played from the keyboard.
    pub black_human: bool,
    pub white_human: bool,
    pub last_move: Option<Position>,
    /// The points the human to move may play.
    pub legal: Vec<Position>,
    /// The color whose turn is being timed.
    pub active: Option<Color>,
    pub show_cursor: bool,
    pub cursor: Position,
    /// The ply shown while reviewing a finished game.
    pub review: Option<usize>,
    pub status: String,
}

/// The points of a list of moves.
pub open spec fn points_of(moves: Seq<Move>) -> Seq<Position> {
    moves.map_values(|m: Move| m.pos())
}

/// The point of the last move of `history`, if any.
pub open spec fn last_point(history: Seq<Move>) -> Option<Position> {
    if history.len() == 0 {
        None
    } else {
        Some(history.last().pos())
    }
}

/// The status line while `mark` is to move: a human's turn or a bot's.
pub open spec fn turn_status(mark: Seq<char>, human: bool) -> Seq<char> {
    mark + if human {
        " to move \u{2014} your turn"@
    } else {
        " to move \u{2014} thinking\u{2026}"@
    }
}

/// The status line of a finished game with result line `result`.
pub open spec fn done_status(result: Seq<char>) -> Seq<char> {
    "== "@ + result + " ==   \u{2190}/\u{2192} review \u{b7} q quit"@
}

impl Screen {
    /// Whether `color` is played from the keyboard.
    pub open spec fn is_human(&self, color: Color) -> bool {
        match color {
            Color::Black => self.black_human,
            Color::White => self.white_human,
        }
    }

    /// The screen of a new game on `state`: names `black` and `white`,
    /// the cursor on `cursor`, nothing timed, shown or reviewed yet.
    pub fn new(state: GameState, black_human: bool, white_human: bool, cursor: Position, status: String) -> (s: Self)
        ensures
            s.state == state,
            s.black_name@ == "black"@,
            s.white_name@ == "white"@,
            s.black_human == black_human,
            s.white_human == white_human,
            s.last_move is None,
            s.legal@.len() == 0,
            s.active is None,
            !s.show_cursor,
            s.cursor == cursor,
            s.review is None,
            s.status == status,
    {
        Screen {
            state,
            black_name: String::from_str("black"),
            white_name: String::from_str("white"),
            black_human,
            white_human,
            last_move: None,
            legal: Vec::new(),
            active: None,
            show_cursor: false,
            cursor,
            review: None,
            status,
        }
    }

    /// Whether `color` is played from the keyboard.
    pub fn human(&self, color: Color) -> (b: bool)
        ensures
            b == self.is_human(color),
    {
        match color {
            Color::Black => self.black_human,
            Color::White => self.white_human,
        }
    }

    /// The name shown for `color`.
    pub fn name(&self, color: Color) -> (s: &str)
        ensures
            s@ == (match color {
                Color::Black => self.black_name@,
                Color::White => self.white_name@,
            }),
    {
        match color {
            Color::Black => self.black_name.as_str(),
            Color::White => self.white_name.as_str(),
        }
    }

    /// Seats `name` on `color`, played from the keyboard when `human`.
    pub fn set_seat(&mut self, color: Color, human: bool, name: String)
        ensures
            final(self).is_human(color) == human,
            final(self).is_human(other(color)) == old(self).is_human(other(color)),
            color == Color::Black ==> final(self).black_name == name && final(self).white_name == old(self).white_name,
            color == Color::White ==> final(self).white_name == name && final(self).black_name == old(self).black_name,
            final(self).state == old(self).state,
            final(self).last_move == old(self).last_move,
            final(self).legal == old(self).legal,
            final(self).active == old(self).active,
            final(self).show_cursor == old(self).show_cursor,
            final(self).cursor == old(self).cursor,
            final(self).review == old(self).review,
            final(self).status == old(self).status,
    {
        match color {
            Color::Black => {
                self.black_human = human;
                self.black_name = name;
            },
            Color::White => {
                self.white_human = human;
                self.white_name = name;
            },
        }
    }

    /// Takes in one event and says what the clocks do for it. A start
    /// shows the initial position and the seat names; a move shows the new
    /// position and its point and ends the timed turn of its color; a
    /// rewind shows the earlier position and its last point; a request
    /// times the turn of its color and, for a human, lists the legal
    /// points; the end shows the final position; a player error changes
    /// nothing.
    pub fn apply_event(&mut self, event: &Event) -> (step: ClockStep)
        ensures
            final(self).black_human == old(self).black_human,
            final(self).white_human == old(self).white_human,
            final(self).show_cursor == old(self).show_cursor,
            final(self).cursor == old(self).cursor,
            final(self).review == old(self).review,
            final(self).status == old(self).status,
            !(*event is MatchStarted) ==> final(self).black_name == old(self).black_name && final(self).white_name
                == old(self).white_name,
            !(*event is MoveRequested) ==> final(self).legal == old(self).legal,
            *event is MatchStarted || *event is MoveRequested || *event is PlayerError ==> final(self).last_move
                == old(self).last_move,
            *event is MatchStarted || *event is MatchRewound || *event is MatchFinished || *event is PlayerError
                ==> final(self).active == old(self).active,
            *event is MoveRequested || *event is PlayerError ==> final(self).state == old(self).state,
            match *event {
                Event::MatchStarted { black, white, initial_state, .. } => {
                    &&& same_state(final(self).state, initial_state)
                    &&& final(self).black_name@ == black.display_name@
                    &&& final(self).white_name@ == white.display_name@
                    &&& step == ClockStep::Keep
                },
                Event::MoveApplied { color, mv, new_state, elapsed } => {
                    &&& same_state(final(self).state, new_state)
                    &&& final(self).last_move == Some(mv.pos())
                    &&& final(self).active is None
                    &&& step == ClockStep::Moved { color, elapsed, stop_turn: old(self).active == Some(color) }
                },
                Event::MatchRewound { new_state } => {
                    &&& same_state(final(self).state, new_state)
                    &&& final(self).last_move == last_point(new_state.move_history@)
                    &&& step == ClockStep::Rewound { plies: new_state.move_history@.len() as usize }
                },
                Event::MoveRequested { color, context } => {
                    &&& final(self).legal@ == (if old(self).is_human(color) {
                        points_of(context.legal_moves@)
                    } else {
                        old(self).legal@
                    })
                    &&& final(self).active == Some(color)
                    &&& step == ClockStep::Requested { color, time_left: context.time_left }
                },
                Event::MatchFinished { final_state, .. } => {
                    &&& same_state(final(self).state, final_state)
                    &&& step == ClockStep::Keep
                },
                Event::PlayerError { .. } => step == ClockStep::Keep,
            },
    {
        match event {
            Event::MatchStarted { black, white, initial_state, .. } => {
                self.state = initial_state.clone();
                self.black_name = black.display_name.clone();
                self.white_name = white.display_name.clone();
                ClockStep::Keep
            },
            Event::MoveApplied { color, mv, new_state, elapsed } => {
                self.state = new_state.clone();
                self.last_move = Some(mv.position());
                let stop_turn = match self.active {
                    Some(a) => a == *color,
                    None => false,
                };
                self.active = None;
                ClockStep::Moved { color: *color, elapsed: *elapsed, stop_turn }
            },
            Event::MatchRewound { new_state } => {
                self.state = new_state.clone();
                let n = self.state.move_history.len();
                self.last_move = if n == 0 {
                    None
                } else {
                    Some(self.state.move_history[n - 1].position())
                };
                ClockStep::Rewound { plies: n }
            },
            Event::MoveRequested { color, context } => {
                if self.human(*color) {
                    let mut legal: Vec<Position> = Vec::new();
                    let mut i: usize = 0;
                    while i < context.legal_moves.len()
                        invariant
                            i <= context.legal_moves@.len(),
                            legal@ == points_of(context.legal_moves@.take(i as int)),
                        decreases context.legal_moves@.len() - i,
                    {
                        legal.push(context.legal_moves[i].position());
                        proof {
                            assert(context.legal_moves@.take(i + 1) =~= context.legal_moves@.take(i as int).push(
                                context.legal_moves@[i as int],
                            ));
                        }
                        i = i + 1;
                    }
                    proof {
                        assert(context.legal_moves@.take(context.legal_moves@.len() as int) =~= context.legal_moves@);
                    }
                    self.legal = legal;
                }
                self.active = Some(*color);
                ClockStep::Requested { color: *color, time_left: context.time_left }
            },
            Event::MatchFinished { final_state, .. } => {
                self.state = final_state.clone();
                ClockStep::Keep
            },
            Event::PlayerError { .. } => ClockStep::Keep,
        }
    }

    /// Shows what the game waits for after a step's `events`: on a human's
    /// turn the cursor, on the last move if there is one, and whose turn it
    /// is; on a bot's turn no cursor; at the end no cursor, nothing timed,
    /// the review from the last ply (unless one is open) and the result.
    /// `black_mark` and `white_mark` stand for the two colors.
    pub fn show_waiting(&mut self, waiting: Waiting, events: &Vec<Event>, black_mark: &str, white_mark: &str)
        ensures
            final(self).state == old(self).state,
            final(self).black_name == old(self).black_name,
            final(self).white_name == old(self).white_name,
            final(self).black_human == old(self).black_human,
            final(self).white_human == old(self).white_human,
            final(self).last_move == old(self).last_move,
            final(self).legal == old(self).legal,
            match waiting {
                Waiting::Human(color) => {
                    &&& final(self).show_cursor
                    &&& final(self).cursor == (match old(self).last_move {
                        Some(p) => p,
                        None => old(self).cursor,
                    })
                    &&& final(self).active == old(self).active
                    &&& final(self).review == old(self).review
                    &&& final(self).status@ == turn_status(
                        if color == Color::Black { black_mark@ } else { white_mark@ },
                        true,
                    )
                },
                Waiting::Bot(color) => {
                    &&& !final(self).show_cursor
                    &&& final(self).cursor == old(self).cursor
                    &&& final(self).active == old(self).active
                    &&& final(self).review == old(self).review
                    &&& final(self).status@ == turn_status(
                        if color == Color::Black { black_mark@ } else { white_mark@ },
                        false,
                    )
                },
                Waiting::Done => {
                    &&& !final(self).show_cursor
                    &&& final(self).cursor == old(self).cursor
                    &&& final(self).active is None
                    &&& final(self).review == (match old(self).review {
                        Some(r) => Some(r),
                        None => Some(old(self).state.move_history@.len() as usize),
                    })
                    &&& final(self).status@ == done_status(
                        result_spec(
                            ({
                                let i = last_index(events@, events@.len() as int, |e: Event| e is MatchFinished);
                                if i >= 0 {
                                    Some(termination_of(events@[i]))
                                } else {
                                    None
                                }
                            }),
                            black_mark@,
                            white_mark@,
                        ),
                    )
                },
            },
    {
        match waiting {
            Waiting::Human(color) => {
                self.show_cursor = true;
                if let Some(p) = self.last_move {
                    self.cursor = p;
                }
                let mut s = String::new();
                s.append(if color == Color::Black { black_mark } else { white_mark });
                s.append(" to move \u{2014} your turn");
                self.status = s;
            },
            Waiting::Bot(color) => {
                self.show_cursor = false;
                let mut s = String::new();
                s.append(if color == Color::Black { black_mark } else { white_mark });
                s.append(" to move \u{2014} thinking\u{2026}");
                self.status = s;
            },
            Waiting::Done => {
                self.show_cursor = false;
                self.active = None;
                if self.review.is_none() {
                    self.review = Some(self.state.move_history.len());
                }
                let result = result_text(final_termination(events), black_mark, white_mark);
                let mut s = String::new();
                s.append("== ");
                s.append(result.as_str());
                s.append(" ==   \u{2190}/\u{2192} review \u{b7} q quit");
                self.status = s;
            },
        }
    }
}

} // verus!
