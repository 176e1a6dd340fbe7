//! The game's progress from level to level, as a state machine: the frame
//! loop hands it what happened and does what it answers.
use vstd::prelude::*;

verus! {

/// Where the game is.
#[derive(Clone, Copy, PartialEq, Eq, Structural, Debug)]
pub enum Phase {
    /// The ball rolls.
    Playing,
    /// The ball sinks into a hole: the goal, or a trap.
    Sinking { goal: bool },
    /// Every level is beaten.
    Done,
}

/// What happened during a frame.
#[derive(Clone, Copy, PartialEq, Eq, Structural, Debug)]
pub enum Event {
    /// The player asked to start over.
    Restart,
    /// The player asked to skip to the next level.
    Skip,
    /// The ball came close enough to a hole to fall in.
    Captured { goal: bool },
    /// The ball has sunk all the way.
    SinkFinished,
}

/// What the frame loop is to do.
#[derive(Clone, Copy, PartialEq, Eq, Structural, Debug)]
pub enum Action {
    Nothing,
    /// Put the ball back on the current level's start, at rest.
    ResetBall,
    /// Load the level with this index and put the ball on its start, at
    /// rest.
    LoadLevel { index: usize },
}

/// The game as plain values.
pub struct GameView {
    pub level: int,
    pub count: int,
    pub phase: Phase,
}

impl GameView {
    pub open spec fn wf(self) -> bool {
        0 <= self.level < self.count
    }
}

/// The game's answer to event `e` in state `g`: its next state, and what
/// the frame loop is to do.
pub open spec fn next(g: GameView, e: Event) -> (GameView, Action) {
    match e {
        Event::Restart => if g.phase == Phase::Done {
            (GameView { level: 0, phase: Phase::Playing, ..g }, Action::LoadLevel { index: 0 })
        } else {
            (GameView { phase: Phase::Playing, ..g }, Action::ResetBall)
        },
        Event::Skip => if g.phase == Phase::Done {
            (g, Action::Nothing)
        } else {
            let l = (g.level + 1) % g.count;
            (GameView { level: l, phase: Phase::Playing, ..g }, Action::LoadLevel { index: l as usize })
        },
        Event::Captured { goal } => if g.phase == Phase::Playing {
            (GameView { phase: Phase::Sinking { goal }, ..g }, Action::Nothing)
        } else {
            (g, Action::Nothing)
        },
        Event::SinkFinished => match g.phase {
            Phase::Sinking { goal } => if !goal {
                (GameView { phase: Phase::Playing, ..g }, Action::ResetBall)
            } else if g.level + 1 < g.count {
                (
                    GameView { level: g.level + 1, phase: Phase::Playing, ..g },
                    Action::LoadLevel { index: (g.level + 1) as usize },
                )
            } else {
                (GameView { phase: Phase::Done, ..g }, Action::Nothing)
            },
            _ => (g, Action::Nothing),
        },
    }
}

/// The state after `n` skips.
pub open spec fn skipped(g: GameView, n: nat) -> GameView
    decreases n,
{
    if n == 0 {
        g
    } else {
        next(skipped(g, (n - 1) as nat), Event::Skip).0
    }
}

/// Skipping as many times as there are levels comes back to the level one
/// started from, playing.
pub proof fn lemma_skip_all_levels(g: GameView)
    requires
        g.wf(),
        g.phase != Phase::Done,
    ensures
        skipped(g, g.count as nat) == (GameView { phase: Phase::Playing, ..g }),
{
    lemma_skipped(g, g.count as nat);
    vstd::arithmetic::div_mod::lemma_mod_add_multiples_vanish(g.level, g.count);
    vstd::arithmetic::div_mod::lemma_small_mod(g.level as nat, g.count as nat);
}

/// After `n >= 1` skips the game plays level `(level + n) % count`.
pub proof fn lemma_skipped(g: GameView, n: nat)
    requires
        g.wf(),
        g.phase != Phase::Done,
    ensures
        n >= 1 ==> skipped(g, n) == (GameView {
            level: (g.level + n) % g.count,
            phase: Phase::Playing,
            ..g
        }),
        n == 0 ==> skipped(g, n) == g,
    decreases n,
{
    if n >= 2 {
        lemma_skipped(g, (n - 1) as nat);
        vstd::arithmetic::div_mod::lemma_add_mod_noop_right(1, g.level + n - 1, g.count);
        assert(skipped(g, n) == next(skipped(g, (n - 1) as nat), Event::Skip).0);
    } else if n == 1 {
        assert(skipped(g, 0) == g);
        assert(skipped(g, n) == next(skipped(g, 0), Event::Skip).0);
    }
}

/// Starting over: once every level is beaten, from the first level;
/// otherwise the level being played starts over, with the ball on its
/// start.
pub proof fn lemma_restart(g: GameView)
    requires
        g.wf(),
    ensures
        next(g, Event::Restart).0.count == g.count,
        next(g, Event::Restart).0.phase == Phase::Playing,
        g.phase != Phase::Done ==> next(g, Event::Restart).0.level == g.level && next(
            g,
            Event::Restart,
        ).1 == Action::ResetBall,
        g.phase == Phase::Done ==> next(g, Event::Restart).0.level == 0 && next(g, Event::Restart).1
            == (Action::LoadLevel { index: 0 }),
{
}

/// Once the ball has sunk: into a trap, the level starts over; into the
/// goal, the next level is loaded, and after the last level the game is
/// won.
pub proof fn lemma_sink_finished(g: GameView)
    requires
        g.wf(),
    ensures
        next(g, Event::SinkFinished).0.count == g.count,
        g.phase == (Phase::Sinking { goal: false }) ==> {
            &&& next(g, Event::SinkFinished).0.level == g.level
            &&& next(g, Event::SinkFinished).0.phase == Phase::Playing
            &&& next(g, Event::SinkFinished).1 == Action::ResetBall
        },
        g.phase == (Phase::Sinking { goal: true }) && g.level + 1 == g.count ==> {
            &&& next(g, Event::SinkFinished).0.level == g.level
            &&& next(g, Event::SinkFinished).0.phase == Phase::Done
            &&& next(g, Event::SinkFinished).1 == Action::Nothing
        },
        g.phase == (Phase::Sinking { goal: true }) && g.level + 1 < g.count ==> {
            &&& next(g, Event::SinkFinished).0.level == g.level + 1
            &&& next(g, Event::SinkFinished).0.phase == Phase::Playing
            &&& next(g, Event::SinkFinished).1 == (Action::LoadLevel { index: (g.level + 1) as usize })
        },
        !(g.phase is Sinking) ==> next(g, Event::SinkFinished) == (g, Action::Nothing),
{
}

/// Skipping, unless the game is won, plays the next level, wrapping from
/// the last to the first; after winning it does nothing.
pub proof fn lemma_skip(g: GameView)
    requires
        g.wf(),
    ensures
        g.phase == Phase::Done ==> next(g, Event::Skip) == (g, Action::Nothing),
        g.phase != Phase::Done && g.level + 1 < g.count ==> {
            &&& next(g, Event::Skip).0.level == g.level + 1
            &&& next(g, Event::Skip).0.phase == Phase::Playing
            &&& next(g, Event::Skip).1 == (Action::LoadLevel { index: (g.level + 1) as usize })
        },
        g.phase != Phase::Done && g.level + 1 == g.count ==> {
            &&& next(g, Event::Skip).0.level == 0
            &&& next(g, Event::Skip).0.phase == Phase::Playing
            &&& next(g, Event::Skip).1 == (Action::LoadLevel { index: 0 })
        },
{
    if g.phase != Phase::Done {
        if g.level + 1 < g.count {
            vstd::arithmetic::div_mod::lemma_small_mod((g.level + 1) as nat, g.count as nat);
        } else if g.level + 1 == g.count {
            vstd::arithmetic::div_mod::lemma_mod_self_0(g.count);
        }
    }
}

/// Falling into a hole only happens while playing, and starts the sinking
/// into that hole; the level stays.
pub proof fn lemma_captured(g: GameView, goal: bool)
    requires
        g.wf(),
    ensures
        g.phase == Phase::Playing ==> next(g, Event::Captured { goal }) == (GameView {
            level: g.level,
            count: g.count,
            phase: Phase::Sinking { goal },
        }, Action::Nothing),
        g.phase != Phase::Playing ==> next(g, Event::Captured { goal }) == (g, Action::Nothing),
{
}

/// The game's progress.
pub struct Game {
    level: usize,
    count: usize,
    phase: Phase,
}

impl View for Game {
    type V = GameView;

    closed spec fn view(&self) -> GameView {
        GameView { level: self.level as int, count: self.count as int, phase: self.phase }
    }
}

impl Game {
    #[verifier::type_invariant]
    spec fn well_formed(self) -> bool {
        self@.wf()
    }

    /// A game of `count` levels, playing the first.
    pub fn new(count: usize) -> (g: Game)
        requires
            count >= 1,
        ensures
            g@ == (GameView { level: 0, count: count as int, phase: Phase::Playing }),
    {
        Game { level: 0, count, phase: Phase::Playing }
    }

    /// Index of the level being played.
    pub fn level(&self) -> (r: usize)
        ensures
            r == self@.level,
            self@.wf(),
    {
        proof {
            use_type_invariant(self);
        }
        self.level
    }

    pub fn count(&self) -> (r: usize)
        ensures
            r == self@.count,
            self@.wf(),
    {
        proof {
            use_type_invariant(self);
        }
        self.count
    }

    pub fn phase(&self) -> (r: Phase)
        ensures
            r == self@.phase,
    {
        self.phase
    }

    /// Answers event `e` (see `next`).
    pub fn step(&mut self, e: Event) -> (a: Action)
        ensures
            (final(self)@, a) == next(old(self)@, e),
            final(self)@.wf(),
            final(self)@.count == old(self)@.count,
            e == Event::Restart && old(self)@.phase != Phase::Done ==> {
                &&& final(self)@.level == old(self)@.level
                &&& final(self)@.phase == Phase::Playing
                &&& a == Action::ResetBall
            },
            e == Event::Restart && old(self)@.phase == Phase::Done ==> {
                &&& final(self)@.level == 0
                &&& final(self)@.phase == Phase::Playing
                &&& a == (Action::LoadLevel { index: 0 })
            },
            e == Event::SinkFinished && old(self)@.phase == (Phase::Sinking { goal: true }) ==> if old(
                self,
            )@.level + 1 == old(self)@.count {
                &&& final(self)@.phase == Phase::Done
                &&& final(self)@.level == old(self)@.level
                &&& a == Action::Nothing
            } else {
                &&& final(self)@.phase == Phase::Playing
                &&& final(self)@.level == old(self)@.level + 1
                &&& a == (Action::LoadLevel { index: (old(self)@.level + 1) as usize })
            },
            e == Event::SinkFinished && old(self)@.phase == (Phase::Sinking { goal: false }) ==> {
                &&& final(self)@.level == old(self)@.level
                &&& final(self)@.phase == Phase::Playing
                &&& a == Action::ResetBall
            },
    {
        proof {
            use_type_invariant(&*self);
            lemma_restart(self@);
            lemma_sink_finished(self@);
        }
        let (level, phase, action) = match e {
            Event::Restart => if self.phase == Phase::Done {
                (0, Phase::Playing, Action::LoadLevel { index: 0 })
            } else {
                (self.level, Phase::Playing, Action::ResetBall)
            },
            Event::Skip => if self.phase == Phase::Done {
                (self.level, self.phase, Action::Nothing)
            } else {
                let l = (self.level + 1) % self.count;
                (l, Phase::Playing, Action::LoadLevel { index: l })
            },
            Event::Captured { goal } => if self.phase == Phase::Playing {
                (self.level, Phase::Sinking { goal }, Action::Nothing)
            } else {
                (self.level, self.phase, Action::Nothing)
            },
            Event::SinkFinished => match self.phase {
                Phase::Sinking { goal } => if !goal {
                    (self.level, Phase::Playing, Action::ResetBall)
                } else if self.level + 1 < self.count {
                    (self.level + 1, Phase::Playing, Action::LoadLevel { index: self.level + 1 })
                } else {
                    (self.level, Phase::Done, Action::Nothing)
                },
                _ => (self.level, self.phase, Action::Nothing),
            },
        };
        self.level = level;
        self.phase = phase;
        action
    }
}

/// The tilt the arrow keys ask for, as signs: pitch goes down for up and up
/// for down, roll goes down for right and up for left; opposite keys
/// cancel.
pub fn key_tilt(up: bool, down: bool, left: bool, right: bool) -> (r: (i8, i8))
    ensures
        r.0 == (if down { 1int } else { 0 }) - (if up { 1int } else { 0 }),
        r.1 == (if left { 1int } else { 0 }) - (if right { 1int } else { 0 }),
{
    let mut pitch: i8 = 0;
    let mut roll: i8 = 0;
    if up {
        pitch = pitch - 1;
    }
    if down {
        pitch = pitch + 1;
    }
    if right {
        roll = roll - 1;
    }
    if left {
        roll = roll + 1;
    }
    (pitch, roll)
}

/// The scripted stress input for step `k` of the cycle (each step lasts
/// a fixed time): the signs it sets pitch and roll to, where it sets them.
/// It steers right, then down, then up and right, then down and left.
pub fn scripted_tilt(k: u32) -> (r: (Option<i8>, Option<i8>))
    ensures
        k % 4 == 0 ==> r == (None::<i8>, Some(-1i8)),
        k % 4 == 1 ==> r == (Some(1i8), None::<i8>),
        k % 4 == 2 ==> r == (Some(-1i8), Some(-1i8)),
        k % 4 == 3 ==> r == (Some(1i8), Some(1i8)),
{
    match k % 4 {
        0 => (None, Some(-1)),
        1 => (Some(1), None),
        2 => (Some(-1), Some(-1)),
        _ => (Some(1), Some(1)),
    }
}

/// Frames of the scripted stress run: after frame `n`, the number of the
/// screenshot to save, if any (every 40th frame, up to the 200th).
pub fn auto_screenshot(n: u32) -> (r: Option<u32>)
    ensures
        r == (if n % 40 == 0 && n <= 200 {
            Some(n / 40)
        } else {
            None
        }),
{
    if n % 40 == 0 && n <= 200 {
        Some(n / 40)
    } else {
        None
    }
}

/// The scripted stress run ends after its 200th frame.
pub fn auto_finished(n: u32) -> (r: bool)
    ensures
        r == (n > 200),
{
    n > 200
}

/// The autopilot's recording keeps every 10th frame, and the one where the
/// game is won.
pub fn bot_records(n: u32, won: bool) -> (r: bool)
    ensures
        r == (n % 10 == 0 || won),
{
    n % 10 == 0 || won
}

/// The autopilot's run ends when the game is won or after its 9000th
/// frame.
pub fn bot_finished(n: u32, won: bool) -> (r: bool)
    ensures
        r == (won || n > 9000),
{
    won || n > 9000
}

} // verus!
