//! When the screen is drawn, when a key is looked for, and when the program
//! ends.

use crate::bytes::utf8_of;
use crate::platform::{arg_bytes, flag_given, has_arg};
use crate::tty::{quit_key, quits};
use vstd::prelude::*;
use vstd::string::StringSliceAdditionalSpecFns;

verus! {

/// The flag to draw once and end.
pub const FLAG_ONCE: u64 = 1;

/// What the arguments ask for.
#[derive(Clone, Copy, Debug, PartialEq, Eq, Structural)]
pub enum Request {
    /// To say that all is well, and end.
    Check,
    /// To run, with these flags.
    Run(u64),
}

/// What the arguments ask for.
pub fn parse_args(args: &Vec<Vec<u8>>) -> (r: Request)
    ensures
        r == (if flag_given(arg_bytes(args@), utf8_of("--check")) {
            Request::Check
        } else if flag_given(arg_bytes(args@), utf8_of("--once")) {
            Request::Run(FLAG_ONCE)
        } else {
            Request::Run(0)
        }),
{
    if has_arg(args, "--check".as_bytes()) {
        Request::Check
    } else if has_arg(args, "--once".as_bytes()) {
        Request::Run(FLAG_ONCE)
    } else {
        Request::Run(0)
    }
}

/// What is to be done next.
#[derive(Clone, Copy, Debug, PartialEq, Eq, Structural)]
pub enum Action {
    /// Draw the screen.
    Draw,
    /// Give back the memory of the round.
    Uncommit,
    /// Look for a key.
    Poll,
    /// Sleep for a step.
    Sleep,
    /// End.
    Quit,
}

/// What has been done.
#[derive(Clone, Copy, Debug, PartialEq, Eq, Structural)]
pub enum Event {
    /// The screen is drawn.
    Drawn,
    /// The memory of the round is given back.
    Uncommitted,
    /// A key was pressed, or none.
    Key(Option<u8>),
    /// A step has passed.
    Slept,
}

/// Milliseconds of a step.
pub const STEP_MS: u64 = 50;

/// Steps to the second round: early, since shares need two rounds.
pub const FIRST_STEPS: u32 = 6;

/// Steps between later rounds.
pub const LATER_STEPS: u32 = 40;

/// Where the program is between two rounds.
#[derive(Clone, Copy, Debug, PartialEq, Eq, Structural)]
pub struct Ticker {
    /// Whether the screen is drawn only once.
    pub once: bool,
    /// Steps to wait after the next round.
    pub next_steps: u32,
    /// Steps that are still to be waited.
    pub left: u32,
}

impl Ticker {
    /// Where the program starts.
    pub fn start(flags: u64) -> (r: (Ticker, Action))
        ensures
            r.0 == (Ticker { once: flags % 2 == 1, next_steps: FIRST_STEPS, left: 0 }),
            r.1 == Action::Draw,
    {
        (Ticker { once: flags % 2 == 1, next_steps: FIRST_STEPS, left: 0 }, Action::Draw)
    }

    /// What follows on `e`.
    pub open spec fn after(self, e: Event) -> (Ticker, Action) {
        match e {
            Event::Drawn => if self.once {
                (self, Action::Quit)
            } else {
                (self, Action::Uncommit)
            },
            Event::Uncommitted => (
                Ticker { left: self.next_steps, next_steps: LATER_STEPS, ..self },
                if self.next_steps > 0 {
                    Action::Poll
                } else {
                    Action::Draw
                },
            ),
            Event::Key(key) => (
                self,
                if quit_key(key) {
                    Action::Quit
                } else {
                    Action::Sleep
                },
            ),
            Event::Slept => if self.left > 1 {
                (Ticker { left: (self.left - 1) as u32, ..self }, Action::Poll)
            } else {
                (Ticker { left: 0, ..self }, Action::Draw)
            },
        }
    }

    /// Goes on after `e`.
    pub fn step(self, e: Event) -> (r: (Ticker, Action))
        ensures
            r == self.after(e),
    {
        match e {
            Event::Drawn => {
                if self.once {
                    (self, Action::Quit)
                } else {
                    (self, Action::Uncommit)
                }
            },
            Event::Uncommitted => {
                let action: Action = if self.next_steps > 0 { Action::Poll } else { Action::Draw };
                (
                    Ticker { once: self.once, left: self.next_steps, next_steps: LATER_STEPS },
                    action,
                )
            },
            Event::Key(key) => {
                if quits(key) {
                    (self, Action::Quit)
                } else {
                    (self, Action::Sleep)
                }
            },
            Event::Slept => {
                if self.left > 1 {
                    (
                        Ticker {
                            once: self.once,
                            left: self.left - 1,
                            next_steps: self.next_steps,
                        },
                        Action::Poll,
                    )
                } else {
                    (
                        Ticker { once: self.once, left: 0, next_steps: self.next_steps },
                        Action::Draw,
                    )
                }
            },
        }
    }

    /// Where the program is after `n` steps without a key.
    pub open spec fn waited(self, n: nat) -> (Ticker, Action)
        decreases n,
    {
        if n == 0 {
            (self, Action::Poll)
        } else {
            self.waited((n - 1) as nat).0.after(Event::Slept)
        }
    }
}

/// Without a key, the next round is drawn after exactly the steps that are
/// left, and a key is looked for before each of them.
pub proof fn law_waits_the_steps(t: Ticker, n: nat)
    requires
        0 < n <= t.left,
    ensures
        n < t.left ==> t.waited(n) == (Ticker { left: (t.left - n) as u32, ..t }, Action::Poll),
        n == t.left ==> t.waited(n) == (Ticker { left: 0, ..t }, Action::Draw),
    decreases n,
{
    if n > 1 {
        law_waits_the_steps(t, (n - 1) as nat);
    } else {
        assert(t.waited(0) == (t, Action::Poll));
    }
}

/// The second round comes early, and from then on the rounds come at one pace.
pub proof fn law_pace(once: bool)
    ensures
        ({
            let t = Ticker { once, next_steps: FIRST_STEPS, left: 0 };
            let u = t.after(Event::Uncommitted).0;
            let v = u.waited(FIRST_STEPS as nat);
            let w = v.0.after(Event::Uncommitted).0;
            let x = w.waited(LATER_STEPS as nat);
            &&& u.left == FIRST_STEPS
            &&& v.1 == Action::Draw
            &&& w.left == LATER_STEPS
            &&& x.1 == Action::Draw
            &&& x.0.after(Event::Uncommitted).0 == w
        }),
{
    let t = Ticker { once, next_steps: FIRST_STEPS, left: 0 };
    let u = t.after(Event::Uncommitted).0;
    law_waits_the_steps(u, FIRST_STEPS as nat);
    let w = u.waited(FIRST_STEPS as nat).0.after(Event::Uncommitted).0;
    law_waits_the_steps(w, LATER_STEPS as nat);
}

/// A key that ends the program does so whenever it is looked for.
pub proof fn law_key_ends(t: Ticker, key: Option<u8>)
    ensures
        t.after(Event::Key(key)).1 == Action::Quit <==> quit_key(key),
{
}

/// The program that draws once ends after its first screen.
pub proof fn law_once_ends(t: Ticker)
    requires
        t.once,
    ensures
        t.after(Event::Drawn).1 == Action::Quit,
{
}

/// The second round comes 300 milliseconds after the first, and every later
/// one two seconds after the one before it.
pub proof fn law_time_between_rounds(t: Ticker)
    requires
        t.next_steps == FIRST_STEPS || t.next_steps == LATER_STEPS,
    ensures
        FIRST_STEPS * STEP_MS == 300,
        LATER_STEPS * STEP_MS == 2000,
        t.after(Event::Uncommitted).1 == Action::Poll,
        t.after(Event::Uncommitted).0.waited(t.next_steps as nat).1 == Action::Draw,
        t.after(Event::Uncommitted).0.waited(t.next_steps as nat).0.next_steps * STEP_MS == 2000,
        forall|n: nat|
            0 < n < t.next_steps ==> (#[trigger] t.after(Event::Uncommitted).0.waited(n)).1
                == Action::Poll,
{
    let u = t.after(Event::Uncommitted).0;
    law_waits_the_steps(u, t.next_steps as nat);
    assert forall|n: nat| 0 < n < t.next_steps implies (#[trigger] u.waited(n)).1
        == Action::Poll by {
        law_waits_the_steps(u, n);
    }
}

/// `q`, Ctrl-C and Ctrl-\ end the program; any other key and no key let it
/// sleep for a step. A key changes nothing else.
pub proof fn law_other_keys_go_on(t: Ticker, key: Option<u8>)
    ensures
        t.after(Event::Key(key)).0 == t,
        key == Some(0x71u8) || key == Some(3u8) || key == Some(28u8) ==> t.after(
            Event::Key(key),
        ).1 == Action::Quit,
        key != Some(0x71u8) && key != Some(3u8) && key != Some(28u8) ==> t.after(
            Event::Key(key),
        ).1 == Action::Sleep,
{
}

/// Without the flag, the program goes on behind every screen and gives back the
/// memory of the round first.
pub proof fn law_goes_on_after_a_screen(t: Ticker)
    requires
        !t.once,
    ensures
        t.after(Event::Drawn) == (t, Action::Uncommit),
        !t.after(Event::Uncommitted).0.once,
        !t.after(Event::Slept).0.once,
{
}

} // verus!
