//! Search parameters: how long and how deep to search.
//!
//! Parsed from UCI `go` commands. Used to calculate the time available for the next move.
use vstd::prelude::*;
use std::time::Duration;

use crate::piece::Color;

verus! {

/// Parameters controlling the search, typically received from a UCI `go` command.
#[derive(Debug)]
pub struct SearchParameters {
    /// White's remaining time in milliseconds.
    pub wtime: Option<u64>,
    /// Black's remaining time in milliseconds.
    pub btime: Option<u64>,
    /// White's increment per move in milliseconds.
    pub winc: Option<u64>,
    /// Black's increment per move in milliseconds.
    pub binc: Option<u64>,
    /// Number of moves until the next time control.
    pub movestogo: Option<u64>,
    /// Search to this depth only.
    pub depth: Option<u8>,
    /// Search for exactly this many milliseconds.
    pub movetime: Option<u64>,
    /// Search until explicitly stopped.
    pub infinite: bool,
}

impl Default for SearchParameters {
    fn default() -> (p: SearchParameters)
        ensures
            p.wtime is None,
            p.btime is None,
            p.winc is None,
            p.binc is None,
            p.movestogo is None,
            p.depth is None,
            p.movetime is None,
            !p.infinite,
    {
        SearchParameters {
            wtime: None,
            btime: None,
            winc: None,
            binc: None,
            movestogo: None,
            depth: None,
            movetime: None,
            infinite: false,
        }
    }
}

/// The duration of `ms` milliseconds.
pub uninterp spec fn millis(ms: u64) -> Duration;

/// `Duration::from_millis` of std: the duration of `ms` milliseconds. Trusted; the contract
/// names the result after `ms` and says nothing more of it.
#[verifier::external_body]
fn duration_from_millis(ms: u64) -> (d: Duration)
    ensures
        d == millis(ms),
{
    Duration::from_millis(ms)
}

impl SearchParameters {
    /// The remaining time of the side to move, if known.
    pub open spec fn own_time(&self, side_to_move: Color) -> Option<u64> {
        match side_to_move {
            Color::White => self.wtime,
            Color::Black => self.btime,
        }
    }

    /// The increment of the side to move, 0 if unknown.
    pub open spec fn own_increment(&self, side_to_move: Color) -> u64 {
        match side_to_move {
            Color::White => match self.winc {
                Some(i) => i,
                None => 0,
            },
            Color::Black => match self.binc {
                Some(i) => i,
                None => 0,
            },
        }
    }

    /// The number of moves until the next time control, 30 if unknown.
    pub open spec fn moves_to_go(&self) -> u64 {
        match self.movestogo {
            Some(m) => m,
            None => 30,
        }
    }

    /// The time budget for the next move in milliseconds, as `time_for_move` computes it:
    /// none when searching indefinitely or when the own clock is unknown, `movetime` when
    /// given, else the remaining time shared over the moves to go plus the increment.
    pub open spec fn spec_time_for_move_millis(&self, side_to_move: Color) -> Option<int> {
        if self.infinite {
            None
        } else if self.movetime is Some {
            Some(self.movetime->0 as int)
        } else if self.own_time(side_to_move) is Some {
            Some(self.own_time(side_to_move)->0 / self.moves_to_go() + self.own_increment(side_to_move))
        } else {
            None
        }
    }

    /// The inputs on which the budget can be computed: no division by zero moves to go and
    /// a result that fits in 64 bits.
    pub open spec fn time_computable(&self, side_to_move: Color) -> bool {
        !self.infinite && self.movetime is None && self.own_time(side_to_move) is Some ==> {
            &&& self.moves_to_go() != 0
            &&& self.own_time(side_to_move)->0 / self.moves_to_go() + self.own_increment(side_to_move) <= u64::MAX
        }
    }

    /// Calculates how many milliseconds the engine should spend on the next move.
    ///
    /// Returns `None` if the search should run indefinitely (e.g. `infinite` mode or no time
    /// information available).
    pub fn time_for_move_millis(&self, side_to_move: Color) -> (r: Option<u64>)
        requires
            self.time_computable(side_to_move),
        ensures
            r matches Some(ms) ==> self.spec_time_for_move_millis(side_to_move) == Some(ms as int),
            r is None <==> self.spec_time_for_move_millis(side_to_move) is None,
    {
        if self.infinite {
            return None;
        }
        if let Some(mt) = self.movetime {
            return Some(mt);
        }
        let time = match side_to_move {
            Color::White => self.wtime,
            Color::Black => self.btime,
        };
        let time = match time {
            Some(t) => t,
            None => {
                return None;
            },
        };
        let inc = match side_to_move {
            Color::White => match self.winc {
                Some(i) => i,
                None => 0,
            },
            Color::Black => match self.binc {
                Some(i) => i,
                None => 0,
            },
        };
        let moves_to_go = match self.movestogo {
            Some(m) => m,
            None => 30,
        };
        Some(time / moves_to_go + inc)
    }

    /// Calculates how long the engine should spend on the next move: the duration of
    /// `time_for_move_millis` milliseconds.
    pub fn time_for_move(&self, side_to_move: Color) -> (r: Option<Duration>)
        requires
            self.time_computable(side_to_move),
        ensures
            r is None <==> self.spec_time_for_move_millis(side_to_move) is None,
            r matches Some(d) ==> d == millis(self.spec_time_for_move_millis(side_to_move)->0 as u64),
    {
        match self.time_for_move_millis(side_to_move) {
            Some(ms) => Some(duration_from_millis(ms)),
            None => None,
        }
    }
}


impl SearchParameters {
    /// Whether the time budget can be computed for `side_to_move` (see `time_computable`).
    pub fn can_compute_time(&self, side_to_move: Color) -> (r: bool)
        ensures
            r == self.time_computable(side_to_move),
    {
        if self.infinite || self.movetime.is_some() {
            return true;
        }
        let time = match side_to_move {
            Color::White => self.wtime,
            Color::Black => self.btime,
        };
        let time = match time {
            Some(t) => t,
            None => {
                return true;
            },
        };
        let inc = match side_to_move {
            Color::White => match self.winc {
                Some(i) => i,
                None => 0,
            },
            Color::Black => match self.binc {
                Some(i) => i,
                None => 0,
            },
        };
        let moves_to_go = match self.movestogo {
            Some(m) => m,
            None => 30,
        };
        moves_to_go != 0 && time / moves_to_go <= u64::MAX - inc
    }
}

/// The time budget in milliseconds: none when searching indefinitely; `movetime` when it is
/// given, whichever side is to move; otherwise, with white to move, white's remaining time
/// shared over the moves to go (30 when unknown) plus white's increment (0 when unknown), and
/// the same with black's clock for black; none when the own clock is unknown.
pub proof fn lemma_time_budget(p: SearchParameters, c: Color)
    ensures
        p.infinite ==> p.spec_time_for_move_millis(c) is None,
        !p.infinite && p.movetime is Some ==> p.spec_time_for_move_millis(c) == Some(p.movetime->0 as int),
        !p.infinite && p.movetime is None && c == Color::White ==> p.spec_time_for_move_millis(c) == match p.wtime {
            None => None,
            Some(t) => Some(t / (if p.movestogo is Some { p.movestogo->0 } else { 30u64 })
                + if p.winc is Some { p.winc->0 as int } else { 0int }),
        },
        !p.infinite && p.movetime is None && c == Color::Black ==> p.spec_time_for_move_millis(c) == match p.btime {
            None => None,
            Some(t) => Some(t / (if p.movestogo is Some { p.movestogo->0 } else { 30u64 })
                + if p.binc is Some { p.binc->0 as int } else { 0int }),
        },
{
}

} // verus!
