use vstd::prelude::*;

use rand::rngs::SmallRng;

use crate::engine::round::{shift_fits, shifted_by, slide_hints, AnimationHint, Round};
use crate::tui::geometry::Direction;

verus! {

/// A 2048 board that keeps the history of its rounds, the latest last.
pub struct Board {
    rng: SmallRng,
    rounds: Vec<Round>,
}

/// Whether shifting board `b0` towards `d` gives `b1` and the result `r` (see `Board::shift`):
/// the board stays well formed; when nothing moves its history is unchanged, otherwise the
/// shifted round is added as the latest.
pub open spec fn board_shifted(b0: Board, b1: Board, d: Direction, r: Option<AnimationHint>) -> bool {
    &&& b1.wf()
    &&& r is None <==> slide_hints(b0.latest().slots, d).len() == 0
    &&& r is None ==> b1.history() == b0.history()
    &&& r matches Some(h) ==> {
        &&& b1.history() == b0.history().push(b1.latest())
        &&& shifted_by(b0.latest(), b1.latest(), h@, d)
    }
}

/// Whether the history `p` is a beginning of the history `q`.
pub open spec fn history_prefix(p: Seq<Round>, q: Seq<Round>) -> bool {
    p.len() <= q.len() && q.subrange(0, p.len() as int) == p
}

/// A board stays playable through any shifts: from a well formed board (as `Board::new` gives,
/// with one round), every board reached by shifts that fit (see `shift_fits`) is well formed,
/// so its latest round can be read and shifted, and its history begins with the history of the
/// first board, one round longer for each shift that moved anything.
pub proof fn law_shifts_keep_the_board_playable(
    bs: Seq<Board>,
    ds: Seq<Direction>,
    rs: Seq<Option<AnimationHint>>,
    n: int,
)
    requires
        0 <= n,
        bs.len() == n + 1,
        ds.len() == n,
        rs.len() == n,
        bs[0].wf(),
        forall|k: int| 0 <= k < n ==> #[trigger] board_shifted(bs[k], bs[k + 1], ds[k], rs[k]),
    ensures
        forall|k: int| 0 <= k <= n ==> (#[trigger] bs[k]).wf() && history_prefix(bs[0].history(), bs[k].history()),
        forall|k: int| 0 <= k < n ==> (#[trigger] rs[k] is Some <==> bs[k + 1].history().len() == bs[k].history().len() + 1)
            && (rs[k] is None <==> bs[k + 1].history() == bs[k].history()),
    decreases n,
{
    if n > 0 {
        let bs1 = bs.drop_last();
        let ds1 = ds.drop_last();
        let rs1 = rs.drop_last();
        assert forall|k: int| 0 <= k < n - 1 implies #[trigger] board_shifted(bs1[k], bs1[k + 1], ds1[k], rs1[k]) by {
            assert(board_shifted(bs[k], bs[k + 1], ds[k], rs[k]));
        }
        law_shifts_keep_the_board_playable(bs1, ds1, rs1, n - 1);
        assert(bs1[0] == bs[0]);
        let last = n - 1;
        assert(board_shifted(bs[last], bs[last + 1], ds[last], rs[last]));
        assert(last + 1 == n);
        assert(bs1[n - 1] == bs[n - 1]);
        assert((bs1[n - 1]).wf() && history_prefix(bs[0].history(), bs[n - 1].history()));
        let p = bs[0].history();
        let q = bs[n - 1].history();
        let q2 = bs[n].history();
        if rs[n - 1] is Some {
            assert(q2.subrange(0, p.len() as int) =~= q.subrange(0, p.len() as int));
        }
        assert forall|k: int| 0 <= k <= n implies (#[trigger] bs[k]).wf() && history_prefix(bs[0].history(), bs[k].history()) by {
            if k < n {
                assert(bs1[k] == bs[k]);
                assert((bs1[k]).wf() && history_prefix(bs1[0].history(), bs1[k].history()));
            } else {
                assert(bs[k] == bs[last + 1]);
            }
        }
        assert forall|k: int| 0 <= k < n implies (#[trigger] rs[k] is Some <==> bs[k + 1].history().len() == bs[k].history().len() + 1)
            && (rs[k] is None <==> bs[k + 1].history() == bs[k].history()) by {
            assert(board_shifted(bs[k], bs[k + 1], ds[k], rs[k]));
            if rs[k] is Some {
                assert(bs[k + 1].history().len() == bs[k].history().len() + 1);
                assert(bs[k + 1].history() != bs[k].history());
            }
        }
    } else {
        assert(bs[0].history().subrange(0, bs[0].history().len() as int) =~= bs[0].history());
    }
}

impl Board {
    /// A board always holds at least one round.
    pub closed spec fn wf(&self) -> bool {
        self.rounds@.len() > 0
    }

    /// The rounds played so far, the first one first.
    pub closed spec fn history(&self) -> Seq<Round> {
        self.rounds@
    }

    /// The latest round.
    pub closed spec fn latest(&self) -> Round {
        self.rounds@.last()
    }

    /// A board whose first round holds two random tiles, drawn from `rng`.
    pub fn new(rng: SmallRng) -> (r: Board)
        ensures
            r.wf(),
            r.history().len() == 1,
            r.latest().score == 0,
            exists|a, b| #[trigger]
                crate::engine::round::starting_tiles(r.latest().slots, a, b),
    {
        let mut rng = rng;
        let mut rounds: Vec<Round> = Vec::with_capacity(2000);
        rounds.push(Round::random(&mut rng));
        Board { rng, rounds }
    }

    /// Starts the board over from `round`: its history holds that round alone.
    pub fn set_initial_round(&mut self, round: Round)
        ensures
            final(self).wf(),
            final(self).history() == seq![round],
    {
        let mut rounds: Vec<Round> = Vec::with_capacity(2000);
        rounds.push(round);
        self.rounds = rounds;
    }

    /// The score of the latest round.
    pub fn score(&self) -> (r: u16)
        requires
            self.wf(),
        ensures
            r == self.latest().score,
    {
        self.rounds[self.rounds.len() - 1].score()
    }

    /// Shifts a copy of the latest round towards `direction`. When anything moves, the shifted
    /// round becomes the latest and its hints come back; otherwise the board is unchanged and
    /// the result is `None`.
    pub fn shift(&mut self, direction: Direction) -> (r: Option<AnimationHint>)
        requires
            old(self).wf(),
            shift_fits(old(self).latest(), direction),
        ensures
            final(self).wf(),
            r is None <==> slide_hints(old(self).latest().slots, direction).len() == 0,
            r is None ==> final(self).history() == old(self).history(),
            r matches Some(h) ==> {
                &&& final(self).history() == old(self).history().push(final(self).latest())
                &&& shifted_by(old(self).latest(), final(self).latest(), h@, direction)
            },
            board_shifted(*old(self), *final(self), direction, r),
    {
        let mut round = self.rounds[self.rounds.len() - 1].clone();
        let hint = round.shift(&mut self.rng, &direction);
        if hint.is_some() {
            self.rounds.push(round);
        }
        hint
    }

    /// The latest round.
    pub fn current(&self) -> (r: &Round)
        requires
            self.wf(),
        ensures
            *r == self.latest(),
    {
        &self.rounds[self.rounds.len() - 1]
    }

    /// The number of columns and rows of the board.
    pub fn dimensions(&self) -> (r: (usize, usize))
        ensures
            r == (4usize, 4usize),
    {
        (4, 4)
    }
}

} // verus!
