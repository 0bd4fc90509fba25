//! One thing a step holds, whichever kind it is.

use vstd::prelude::*;

use crate::closure::Closure;
use crate::cmd::Cmd;
use crate::execute::Status;
use crate::fields::{Fields, Tags};

verus! {

/// A command or a closure. What a closure has no answer for comes back `None`.
#[derive(Clone, Copy, Debug)]
pub enum Item<'a> {
    Cmd(&'a Cmd),
    Closure(&'a Closure),
}

impl<'a> Item<'a> {
    pub open spec fn label_text(self) -> Seq<char> {
        match self {
            Item::Cmd(cmd) => cmd.label_text(),
            Item::Closure(closure) => closure.name@,
        }
    }

    pub open spec fn status_of(self) -> Status {
        match self {
            Item::Cmd(cmd) => cmd.status,
            Item::Closure(closure) => closure.status,
        }
    }

    pub open spec fn fields_of(self) -> Seq<(Seq<char>, Seq<char>)> {
        match self {
            Item::Cmd(cmd) => cmd.fields@,
            Item::Closure(closure) => closure.fields@,
        }
    }

    pub open spec fn tags_of(self) -> Seq<Seq<char>> {
        match self {
            Item::Cmd(cmd) => cmd.tags@,
            Item::Closure(closure) => closure.tags@,
        }
    }

    /// How many cores this asks for.
    pub open spec fn cores_of(self) -> nat {
        match self {
            Item::Cmd(cmd) => match cmd.cores {
                Some(cores) => cores as nat,
                None => 0,
            },
            Item::Closure(_) => 0,
        }
    }

    /// The cpus it held, which are none before it ran and if it asked for none.
    pub open spec fn cpus_of(self) -> Option<Seq<usize>> {
        match self {
            Item::Cmd(cmd) => Some(cmd.cpus@),
            Item::Closure(_) => None,
        }
    }

    pub open spec fn exit_of(self) -> Option<i32> {
        match self {
            Item::Cmd(cmd) => match cmd.status.timing_of() {
                Some(t) => Some(t.exit),
                None => None,
            },
            Item::Closure(_) => None,
        }
    }

    pub open spec fn line_text(self) -> Option<Seq<char>> {
        match self {
            Item::Cmd(cmd) => Some(cmd.line_text()),
            Item::Closure(_) => None,
        }
    }

    pub fn label(&self) -> (r: String)
        ensures
            r@ == self.label_text(),
    {
        match self {
            Item::Cmd(cmd) => cmd.label(),
            Item::Closure(closure) => closure.label().to_owned(),
        }
    }

    pub fn status(&self) -> (r: &'a Status)
        ensures
            *r == self.status_of(),
    {
        match self {
            Item::Cmd(cmd) => cmd.status(),
            Item::Closure(closure) => closure.status(),
        }
    }

    pub fn fields(&self) -> (r: &'a Fields)
        ensures
            r@ == self.fields_of(),
    {
        match self {
            Item::Cmd(cmd) => cmd.fields(),
            Item::Closure(closure) => closure.fields(),
        }
    }

    pub fn tags(&self) -> (r: &'a Tags)
        ensures
            r@ == self.tags_of(),
    {
        match self {
            Item::Cmd(cmd) => cmd.tags(),
            Item::Closure(closure) => closure.tags(),
        }
    }

    /// How many cores this asks for. A closure asks for none.
    pub fn cores(&self) -> (r: usize)
        ensures
            r == self.cores_of(),
    {
        match self {
            Item::Cmd(cmd) => match cmd.cores {
                Some(cores) => cores,
                None => 0,
            },
            Item::Closure(_) => 0,
        }
    }

    /// The cpus it held, which are none before it ran and if it asked for none.
    pub fn cpus(&self) -> (r: Option<&'a [usize]>)
        ensures
            r is Some <==> self.cpus_of() is Some,
            r matches Some(cpus) ==> self.cpus_of() == Some(cpus@),
    {
        match self {
            Item::Cmd(cmd) => Some(cmd.cpus.as_slice()),
            Item::Closure(_) => None,
        }
    }

    /// What it exited with, for a command that got as far as exiting.
    pub fn exit(&self) -> (r: Option<i32>)
        ensures
            r == self.exit_of(),
    {
        match self {
            Item::Cmd(cmd) => match cmd.status.timing() {
                Some(t) => Some(t.exit),
                None => None,
            },
            Item::Closure(_) => None,
        }
    }

    /// The shell line of a command.
    pub fn line(&self) -> (r: Option<String>)
        ensures
            r is Some <==> self.line_text() is Some,
            r matches Some(line) ==> self.line_text() == Some(line@),
    {
        match self {
            Item::Cmd(cmd) => Some(cmd.line()),
            Item::Closure(_) => None,
        }
    }
}

/// An item answers for the command it is, and for nothing else.
pub proof fn a_command_answers_for_itself(cmd: Cmd)
    ensures
        ({
            let item = Item::Cmd(&cmd);
            &&& item.label_text() == cmd.label_text()
            &&& item.status_of() == cmd.status
            &&& item.fields_of() == cmd.fields@
            &&& item.tags_of() == cmd.tags@
            &&& item.cpus_of() == Some(cmd.cpus@)
            &&& item.line_text() == Some(cmd.line_text())
            &&& cmd.cores matches Some(cores) ==> item.cores_of() == cores
            &&& cmd.cores is None ==> item.cores_of() == 0
            &&& cmd.status matches Status::Finished(t) ==> item.exit_of() == Some(t.exit)
            &&& cmd.status matches Status::TimedOut(t) ==> item.exit_of() == Some(t.exit)
            &&& !(cmd.status is Finished || cmd.status is TimedOut) ==> item.exit_of() is None
        }),
{
}

/// A closure answers for what it has, and has no answer for what only a process
/// has.
pub proof fn a_closure_answers_for_what_it_has(closure: Closure)
    ensures
        ({
            let item = Item::Closure(&closure);
            &&& item.label_text() == closure.name@
            &&& item.status_of() == closure.status
            &&& item.fields_of() == closure.fields@
            &&& item.tags_of() == closure.tags@
            &&& item.cores_of() == 0
            &&& item.cpus_of() is None
            &&& item.line_text() is None
            &&& item.exit_of() is None
        }),
{
}

} // verus!
