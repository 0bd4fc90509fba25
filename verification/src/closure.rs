//! A closure the pipeline runs as a step of its own.

use vstd::prelude::*;

use crate::cmd::Value;
use crate::execute::{Secs, Status, Timing};
use crate::fields;
use crate::fields::{Fields, Tags};
use crate::text;

verus! {

/// Rust to run in place of a command: what it is called and how it went. The
/// code itself is held by whoever calls it.
///
/// Only its wall clock is measured. A thread has no `wait4` to ask, so there is
/// no cpu time and no peak memory, and a closure takes neither a timeout nor a
/// core count — a thread can be neither killed on a deadline nor pinned.
#[derive(Clone, Debug)]
pub struct Closure {
    pub name: String,
    pub fields: Fields,
    pub tags: Tags,
    pub status: Status,
}

/// What became of a call.
#[derive(Clone, Debug)]
pub enum Called {
    /// It returned, and had nothing to complain about.
    Returned,
    /// It returned an error, which reads like this.
    Errored(String),
    /// It panicked, and this is what the panic said.
    Panicked(String),
}

/// The wall clock of a call, which is all there is to say about its cost.
pub open spec fn call_timing(wall_s: Secs) -> Timing {
    Timing { wall_s, user_s: None, sys_s: None, max_rss_kb: None, exit: 0 }
}

/// How a call that went this way is reported.
pub open spec fn reports_call(status: Status, called: Called, wall_s: Secs) -> bool {
    match called {
        Called::Returned => status == Status::Finished(call_timing(wall_s)),
        Called::Errored(why) => status matches Status::Failed(said) && said@ == why@,
        Called::Panicked(msg) => status matches Status::Failed(said) && said@ == "panicked: "@
            + msg@,
    }
}

impl Closure {
    /// The name is not optional the way a command's is: there is no program
    /// behind it to fall back on.
    pub fn new(name: &str) -> (r: Closure)
        ensures
            r.name@ == name@,
            r.fields@.len() == 0,
            r.tags@.len() == 0,
            r.status is NotRun,
    {
        Closure {
            name: name.to_owned(),
            fields: Fields::new(),
            tags: Tags::new(),
            status: Status::NotRun,
        }
    }

    pub fn field(self, key: &str, value: impl Value) -> (r: Closure)
        ensures
            text::increasing(fields::keys(r.fields@)),
            fields::as_map(r.fields@) == fields::as_map(self.fields@).insert(
                key@,
                value.written(),
            ),
            r == (Closure { fields: r.fields, ..self }),
    {
        let fields = self.fields.insert(key.to_owned(), value.render());
        Closure { fields, ..self }
    }

    pub fn tag(self, tag: &str) -> (r: Closure)
        ensures
            text::increasing(r.tags@),
            forall|t: Seq<char>| r.tags@.contains(t) <==> self.tags@.contains(t) || t == tag@,
            r == (Closure { tags: r.tags, ..self }),
    {
        let tags = self.tags.insert(tag.to_owned());
        Closure { tags, ..self }
    }

    pub fn label(&self) -> (r: &str)
        ensures
            r@ == self.name@,
    {
        self.name.as_str()
    }

    pub fn status(&self) -> (r: &Status)
        ensures
            *r == self.status,
    {
        &self.status
    }

    pub fn fields(&self) -> (r: &Fields)
        ensures
            *r == self.fields,
    {
        &self.fields
    }

    pub fn tags(&self) -> (r: &Tags)
        ensures
            *r == self.tags,
    {
        &self.tags
    }

    /// Take down how its call went: what became of it, and how long it took by
    /// the clock. `None` is a closure that had already been called, which has
    /// nothing left to do and whose status already says how it went.
    pub fn execute(&mut self, called: Option<Called>, wall_s: Secs)
        ensures
            called is None ==> *final(self) == *old(self),
            called matches Some(called) ==> reports_call(final(self).status, called, wall_s),
            *final(self) == (Closure { status: final(self).status, ..*old(self) }),
    {
        match called {
            None => {},
            Some(Called::Returned) => {
                let timing = Timing {
                    wall_s,
                    user_s: None,
                    sys_s: None,
                    max_rss_kb: None,
                    // nothing exited, but `ok` reads this to say it went fine
                    exit: 0,
                };
                self.status = Status::Finished(timing);
            },
            Some(Called::Errored(why)) => {
                self.status = Status::Failed(why);
            },
            Some(Called::Panicked(msg)) => {
                let mut why = "panicked: ".to_owned();
                why.append(msg.as_str());
                self.status = Status::Failed(why);
            },
        }
    }
}

/// What a panic said, for the two payload types `panic!` actually produces:
/// its payload as each of the two, where it is one.
pub fn panic_msg<'a>(literal: Option<&'a str>, owned: Option<&'a String>) -> (r: &'a str)
    ensures
        r@ == match (literal, owned) {
            (Some(said), _) => said@,
            (None, Some(said)) => said@,
            (None, None) => "no message"@,
        },
{
    match (literal, owned) {
        (Some(said), _) => said,
        (None, Some(said)) => said.as_str(),
        (None, None) => "no message",
    }
}

/// A call fails exactly when it did not simply return: with its own words if it
/// returned an error, and with the panic's, marked as such, if it panicked. One that
/// returned cost its wall clock and nothing else that could be measured.
pub proof fn a_call_fails_unless_it_returned(status: Status, called: Called, wall_s: Secs)
    requires
        reports_call(status, called, wall_s),
    ensures
        status.has_failed() <==> !(called is Returned),
        status.has_run(),
        called is Returned ==> {
            &&& status is Finished
            &&& status->Finished_0.wall_s == wall_s
            &&& status->Finished_0.exit == 0
            &&& status->Finished_0.user_s is None
            &&& status->Finished_0.sys_s is None
            &&& status->Finished_0.max_rss_kb is None
        },
        called matches Called::Errored(why) ==> status is Failed && status->Failed_0@ == why@,
        called matches Called::Panicked(msg) ==> status is Failed && status->Failed_0@
            == "panicked: "@ + msg@,
{
}

} // verus!
