//! Finding out that a process is over, and what it cost.
//!
//! Two waits rather than one. The first says it is over but leaves the pid held,
//! and only the second hands it back. Whoever else holds the pid is told in the
//! gap between them, which is the one moment they can be told to stop signalling
//! it.

use vstd::prelude::*;

use crate::execute;
use crate::execute::{Secs, Timing, Usage};

verus! {

/// What reaping wants done next.
#[derive(Clone, Copy, Debug, PartialEq, Eq, Structural)]
pub enum Reaping {
    /// Wait for the process to be over, leaving its pid held.
    Watch,
    /// Tell whoever holds the pid that it is over.
    Tell,
    /// Collect what it cost, which gives the pid up.
    Collect,
    /// Nothing.
    Over,
}

/// How far reaping has got.
pub struct Reaped {
    pub next: Reaping,
    pub wall_s: Secs,
    /// What went wrong, if anything has.
    pub failure: Option<Seq<char>>,
    pub timing: Option<Timing>,
    /// How often whoever holds the pid was told.
    pub told: nat,
}

/// Something reaping hears of.
pub enum Word {
    /// The first wait is over, this long after the process started, and this is
    /// why it did not work if it did not.
    Watched(Secs, Option<Seq<char>>),
    /// Whoever holds the pid was told.
    Told,
    /// The second wait is over.
    Collected(Result<(i32, Usage), Seq<char>>),
}

impl Reaped {
    pub open spec fn fresh() -> Reaped {
        Reaped {
            next: Reaping::Watch,
            wall_s: Secs { nanos: 0 },
            failure: None,
            timing: None,
            told: 0,
        }
    }

    /// After this. What it is not waiting to hear changes nothing.
    pub open spec fn after(self, word: Word) -> Reaped {
        match (self.next, word) {
            (Reaping::Watch, Word::Watched(wall_s, failure)) => Reaped {
                next: Reaping::Tell,
                wall_s,
                failure: match failure {
                    Some(why) => Some("waitid failed: "@ + why),
                    None => None,
                },
                ..self
            },
            // told whether or not the first wait worked: one that failed leaves
            // nothing more to be done with this pid either
            (Reaping::Tell, Word::Told) => Reaped {
                next: if self.failure is None {
                    Reaping::Collect
                } else {
                    Reaping::Over
                },
                told: self.told + 1,
                ..self
            },
            (Reaping::Collect, Word::Collected(Ok((status, usage)))) => Reaped {
                next: Reaping::Over,
                timing: Some(execute::timing_of(self.wall_s, status, usage)),
                ..self
            },
            (Reaping::Collect, Word::Collected(Err(why))) => Reaped {
                next: Reaping::Over,
                failure: Some("wait4 failed: "@ + why),
                ..self
            },
            _ => self,
        }
    }
}

/// Waiting for a process: what has come of it so far.
pub struct Reaper {
    next: Reaping,
    wall_s: Secs,
    failure: Option<String>,
    timing: Option<Timing>,
    told: Ghost<nat>,
}

impl View for Reaper {
    type V = Reaped;

    closed spec fn view(&self) -> Reaped {
        Reaped {
            next: self.next,
            wall_s: self.wall_s,
            failure: said(self.failure),
            timing: self.timing,
            told: self.told@,
        }
    }
}

pub open spec fn said(why: Option<String>) -> Option<Seq<char>> {
    match why {
        Some(why) => Some(why@),
        None => None,
    }
}

impl Reaper {
    pub fn new() -> (r: Reaper)
        ensures
            r@ == Reaped::fresh(),
    {
        Reaper {
            next: Reaping::Watch,
            wall_s: Secs { nanos: 0 },
            failure: None,
            timing: None,
            told: Ghost(0),
        }
    }

    /// What is to be done next.
    pub fn next(&self) -> (r: Reaping)
        ensures
            r == self@.next,
    {
        self.next
    }

    /// The first wait is over, and this is why it did not work if it did not. The
    /// clock is read here rather than after the second, so it says when the
    /// process ended.
    pub fn watched(&mut self, wall_s: Secs, failure: Option<String>)
        ensures
            final(self)@ == old(self)@.after(Word::Watched(wall_s, said(failure))),
    {
        if self.next == Reaping::Watch {
            self.wall_s = wall_s;
            self.failure =
            match failure {
                Some(why) => {
                    let mut out = "waitid failed: ".to_owned();
                    out.append(why.as_str());
                    Some(out)
                },
                None => None,
            };
            self.next = Reaping::Tell;
        }
    }

    /// Whoever holds the pid was told.
    pub fn told(&mut self)
        ensures
            final(self)@ == old(self)@.after(Word::Told),
    {
        if self.next == Reaping::Tell {
            self.next = if self.failure.is_none() {
                Reaping::Collect
            } else {
                Reaping::Over
            };
            self.told = Ghost(self.told@ + 1);
        }
    }

    /// The second wait is over.
    pub fn collected(&mut self, collected: Result<(i32, Usage), String>)
        ensures
            final(self)@ == old(self)@.after(
                Word::Collected(
                    match collected {
                        Ok(collected) => Ok(collected),
                        Err(why) => Err(why@),
                    },
                ),
            ),
    {
        if self.next == Reaping::Collect {
            match collected {
                Ok((status, usage)) => {
                    self.timing = Some(Timing::of(self.wall_s, status, &usage));
                },
                Err(why) => {
                    let mut out = "wait4 failed: ".to_owned();
                    out.append(why.as_str());
                    self.failure = Some(out);
                },
            }
            self.next = Reaping::Over;
        }
    }

    /// What it cost, once that is known, or why it never will be.
    pub fn result(self) -> (r: Option<Result<Timing, String>>)
        ensures
            match (self@.failure, self@.timing) {
                (Some(why), _) => r matches Some(Err(said)) && said@ == why,
                (None, Some(timing)) => r == Some(Ok::<Timing, String>(timing)),
                (None, None) => r is None,
            },
    {
        match (self.failure, self.timing) {
            (Some(why), _) => Some(Err(why)),
            (None, Some(timing)) => Some(Ok(timing)),
            (None, None) => None,
        }
    }
}

/// How far reaping has got after all of this.
pub open spec fn reaped_after(words: Seq<Word>) -> Reaped
    decreases words.len(),
{
    if words.len() == 0 {
        Reaped::fresh()
    } else {
        reaped_after(words.drop_last()).after(words.last())
    }
}

/// Whoever holds the pid is told exactly once, whether or not the first wait
/// worked, and always before the pid is given up; and by the end there is either
/// a cost or a reason why there is none.
pub proof fn holders_are_told_once_while_the_pid_is_held(words: Seq<Word>)
    ensures
        ({
            let reaped = reaped_after(words);
            match reaped.next {
                Reaping::Watch => reaped.told == 0 && reaped.timing is None,
                Reaping::Tell => reaped.told == 0 && reaped.timing is None,
                Reaping::Collect => reaped.told == 1 && reaped.timing is None
                    && reaped.failure is None,
                Reaping::Over => reaped.told == 1 && (reaped.timing is Some) == (reaped.failure
                    is None),
            }
        }),
    decreases words.len(),
{
    if words.len() > 0 {
        holders_are_told_once_while_the_pid_is_held(words.drop_last());
    }
}

/// A process that was waited for and collected comes to what it cost: the clock as it
/// was read when it was over, and what the kernel said. The holders are told between
/// the two waits.
pub proof fn a_process_comes_to_what_it_cost(wall_s: Secs, status: i32, usage: Usage)
    ensures
        ({
            let watched = Reaped::fresh().after(Word::Watched(wall_s, None));
            let told = watched.after(Word::Told);
            let over = told.after(Word::Collected(Ok((status, usage))));
            &&& Reaped::fresh().next is Watch
            &&& watched.next is Tell
            &&& told.next is Collect
            &&& over.next is Over
            &&& over.failure is None
            &&& over.timing == Some(execute::timing_of(wall_s, status, usage))
            &&& over.timing->0.wall_s == wall_s
        }),
{
}

/// A wait that did not work says so and why. After the first there is nothing to
/// collect, but the holders are told all the same; after the second there is nothing
/// to say of what it cost.
pub proof fn a_wait_that_fails_says_why(wall_s: Secs, why: Seq<char>)
    ensures
        ({
            let first = Reaped::fresh().after(Word::Watched(wall_s, Some(why)));
            let told = first.after(Word::Told);
            let second = Reaped::fresh().after(Word::Watched(wall_s, None)).after(
                Word::Told,
            ).after(Word::Collected(Err(why)));
            &&& first.next is Tell
            &&& told.next is Over
            &&& told.failure == Some("waitid failed: "@ + why)
            &&& told.timing is None
            &&& second.next is Over
            &&& second.failure == Some("wait4 failed: "@ + why)
            &&& second.timing is None
        }),
{
}

/// Reaping that is over stays as it is, whatever is heard.
pub proof fn what_is_reaped_stays_reaped(reaped: Reaped, word: Word)
    requires
        reaped.next is Over,
    ensures
        reaped.after(word) == reaped,
{
}

} // verus!
