//! The request throttle of the Wikipedia crawler: a generic cell rate
//! algorithm that hands out turns spaced a fixed interval apart.
//!
//! Times are nanoseconds since a reference instant that the caller chooses.
use vstd::prelude::*;

verus! {

/// Minimum spacing between two turns: 100 milliseconds, in nanoseconds.
pub const SPACING: u64 = 100_000_000;

/// The larger of two times.
pub open spec fn later(a: int, b: int) -> int {
    if a < b { b } else { a }
}

/// One turn taken at time `now` from a throttle whose next free turn is
/// `next` (`None` when no turn was ever taken): the new next free turn, and
/// the time at which the caller may send its request.
///
/// A first turn is granted at once; after that a caller gets the turn that was
/// free, and the next free turn moves to one spacing after the later of that
/// turn and now.
pub open spec fn turn(next: Option<int>, now: int) -> (Option<int>, int) {
    match next {
        None => (Some(now + SPACING), now),
        Some(n) => (Some(later(n, now) + SPACING), n),
    }
}

/// Whether a turn at `now` keeps the next free turn within `u64`.
pub open spec fn turn_fits(next: Option<int>, now: int) -> bool {
    turn(next, now).0->0 <= u64::MAX
}

/// The release times of a series of turns taken at the times `nows`, in order,
/// starting from a throttle whose next free turn is `start`.
pub open spec fn releases(start: Option<int>, nows: Seq<int>) -> Seq<int>
    decreases nows.len(),
{
    if nows.len() == 0 {
        Seq::empty()
    } else {
        let (after, release) = turn(start, nows[0]);
        seq![release].add(releases(after, nows.drop_first()))
    }
}

/// A rate limiter that spaces turns at least [`SPACING`] apart.
pub struct Throttle {
    next_turn: Option<u64>,
}

impl Throttle {
    /// The next free turn, `None` before the first turn.
    pub closed spec fn next(&self) -> Option<int> {
        match self.next_turn {
            Some(t) => Some(t as int),
            None => None,
        }
    }

    /// A throttle that has handed out no turn yet; its first turn is
    /// granted at once.
    pub fn new() -> (throttle: Self)
        ensures
            throttle.next() == None::<int>,
    {
        Throttle { next_turn: None }
    }

    /// A throttle whose first free turn is at `start`.
    pub fn starting_at(start: u64) -> (throttle: Self)
        ensures
            throttle.next() == Some(start as int),
    {
        Throttle { next_turn: Some(start) }
    }

    /// Whether a turn taken at `now` keeps the next free turn within `u64`.
    pub fn can_take_turn(&self, now: u64) -> (fits: bool)
        ensures
            fits == turn_fits(self.next(), now as int),
    {
        let base = match self.next_turn {
            None => now,
            Some(n) => if n < now { now } else { n },
        };
        base <= u64::MAX - SPACING
    }

    /// Takes a turn at time `now`, and returns the time at which the caller
    /// may go ahead (a time not after `now` means at once).
    pub fn take_turn(&mut self, now: u64) -> (release: u64)
        requires
            turn_fits(old(self).next(), now as int),
        ensures
            (final(self).next(), release as int) == turn(old(self).next(), now as int),
    {
        match self.next_turn {
            None => {
                self.next_turn = Some(now + SPACING);
                now
            },
            Some(n) => {
                let base = if n < now { now } else { n };
                self.next_turn = Some(base + SPACING);
                n
            },
        }
    }
}

/// After one turn, the next free turn lies at least one spacing after the
/// turn just handed out and after the time it was asked for.
pub proof fn lemma_turn_advances(next: Option<int>, now: int)
    ensures
        turn(next, now).0 is Some,
        turn(next, now).0->0 >= turn(next, now).1 + SPACING,
        turn(next, now).0->0 >= now + SPACING,
        next matches Some(n) ==> turn(next, now).0->0 >= n + SPACING,
{
}

/// Two turns taken one after the other are released at least one spacing
/// apart, whatever the times at which they were asked for.
pub proof fn lemma_consecutive_turns_spaced(next: Option<int>, now1: int, now2: int)
    ensures
        turn(turn(next, now1).0, now2).1 >= turn(next, now1).1 + SPACING,
{
}

/// Over any series of turns, the turn of rank `j` is released at least
/// `j - i` spacings after the turn of rank `i`: no window of time sees more
/// turns than the spacing allows.
pub proof fn lemma_releases_spaced(start: Option<int>, nows: Seq<int>, i: int, j: int)
    requires
        0 <= i < j < nows.len(),
    ensures
        releases(start, nows).len() == nows.len(),
        releases(start, nows)[j] >= releases(start, nows)[i] + (j - i) * SPACING,
    decreases nows.len(),
{
    lemma_releases_len(start, nows);
    let (after, first) = turn(start, nows[0]);
    let rest = nows.drop_first();
    lemma_releases_len(after, rest);
    assert(releases(start, nows)[j] == releases(after, rest)[j - 1]);
    if i > 0 {
        lemma_releases_spaced(after, rest, i - 1, j - 1);
        assert(releases(start, nows)[i] == releases(after, rest)[i - 1]);
    } else {
        // the first release of the rest is the next free turn left by the first turn
        assert(releases(after, rest)[0] == turn(after, rest[0]).1);
        assert(releases(after, rest)[0] >= first + SPACING);
        if j > 1 {
            lemma_releases_spaced(after, rest, 0, j - 1);
        }
    }
}

/// In any window of time of length `window`, a series of turns releases at
/// most `window / SPACING + 1` turns: if the turns of ranks `i` to `j` are all
/// released within the window, then `j - i <= window / SPACING`.
pub proof fn lemma_releases_in_window(
    start: Option<int>,
    nows: Seq<int>,
    i: int,
    j: int,
    from: int,
    window: int,
)
    requires
        0 <= i < j < nows.len(),
        from <= releases(start, nows)[i],
        releases(start, nows)[j] <= from + window,
    ensures
        j - i <= window / (SPACING as int),
{
    lemma_releases_spaced(start, nows, i, j);
    let n = j - i;
    assert(n * (SPACING as int) <= window);
    assert(n <= window / (SPACING as int)) by (nonlinear_arith)
        requires
            n * (SPACING as int) <= window,
            SPACING as int > 0,
    ;
}

/// A series of turns has one release per turn.
pub proof fn lemma_releases_len(start: Option<int>, nows: Seq<int>)
    ensures
        releases(start, nows).len() == nows.len(),
    decreases nows.len(),
{
    if nows.len() > 0 {
        lemma_releases_len(turn(start, nows[0]).0, nows.drop_first());
    }
}

} // verus!
