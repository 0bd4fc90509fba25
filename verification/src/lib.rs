//! Pipelines of commands: steps that run one after another, what each of them
//! cost, and a table of it all.
//!
//! A [`Cmd`] is built up piece by piece and a [`Closure`] stands in for one. They
//! are gathered into [`Step`]s, and steps into a [`PipelineBuilder`]. Building
//! settles everything there is to settle before the run, and running is a walk:
//! a [`Run`] says what to do next and goes by how it turned out, so that
//! everything decided along the way is decided here. Whatever spawns, waits,
//! signals and writes is the caller's.
//!
//! What the sinks of a run are promised is stated and proved in [`promise`].

pub mod batch;
pub mod closure;
pub mod cmd;
pub mod columns;
pub mod cpu;
pub mod execute;
pub mod fields;
pub mod fmt;
pub mod item;
pub mod label;
pub mod launch;
pub mod layout;
pub mod metrics;
pub mod path;
pub mod pipeline;
pub mod progress;
pub mod promise;
pub mod reap;
pub mod run;
pub mod shell;
pub mod skip;
pub mod step;
pub mod table;
pub mod text;

pub use closure::Closure;
pub use cmd::{Cmd, Output, Value};
pub use execute::{Secs, Status, Timing};
pub use fields::{Fields, Tags};
pub use item::Item;
pub use pipeline::{Machine, Pipeline, PipelineBuilder};
pub use run::Run;
pub use step::{OnError, Step, Strategy};
pub use table::{Headers, Mode, Table};
