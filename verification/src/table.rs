//! The summary table.
//!
//! Two kinds of row, told apart by the first column. A step row carries the
//! step's name and its wall clock; the command rows under it carry a `|` or `||`
//! instead of a name, and their own numbers. A step of one command collapses to
//! a single row, since the two would otherwise say the same thing twice.
//!
//! A block is built when its step finishes, because a column's width is not
//! known until the last cell in it has arrived. [`Mode`] decides what happens
//! to it then.

use vstd::prelude::*;

use crate::columns;
use crate::columns::{Columns, Shape};
use crate::layout;
use crate::layout::{Cell, Square};
use crate::step::Step;
use crate::text;

verus! {

/// `std::slice::from_ref` gives a slice holding the one thing it was given.
pub assume_specification<T>[ std::slice::from_ref::<T> ](s: &T) -> (r: &[T])
    ensures
        r@ == seq![*s],
;

/// Whether every block gets its own header.
#[derive(Clone, Copy, Debug, PartialEq, Eq, Structural)]
pub enum Headers {
    /// One header at the top of the file. Its widths are the floor for every
    /// block, so blocks line up with it and with each other until some value
    /// turns out wider than the label above it.
    Once,
    /// A header on every block, so each block reads on its own.
    Each,
}

/// How the table is laid out and when it reaches the file.
///
/// The combinations that make no sense cannot be written down: there is nothing
/// to decide about headers when the file holds one block, and ragged columns
/// force a header on every block.
#[derive(Clone, Copy, Debug, PartialEq, Eq, Structural)]
pub enum Mode {
    /// Hold everything back and write one table with every row padded alike.
    /// Nothing reaches the file until the run is over.
    Whole,
    /// Write each step's block as that step finishes. Every block carries the
    /// same columns, padded to its own contents. The default, with
    /// [`Headers::Once`].
    Blocks { headers: Headers },
    /// Write each step's block as that step finishes, each carrying only the
    /// columns its own commands use.
    Ragged,
}

impl Default for Mode {
    fn default() -> (r: Mode)
        ensures
            r == (Mode::Blocks { headers: Headers::Once }),
    {
        Mode::Blocks { headers: Headers::Once }
    }
}

/// A table of everything the pipeline ran. It is told what happened, and each
/// time says whether the file it is for has fallen behind its text.
#[derive(Debug)]
pub struct Table {
    path: String,
    mode: Mode,
    /// The columns every block carries, worked out before anything runs so blocks
    /// agree whatever order fields turn up in. Unused by [`Mode::Ragged`], which
    /// asks each step instead.
    columns: Columns,
    /// Every row so far, for [`Mode::Whole`].
    rows: Vec<Vec<Cell>>,
    /// Widths every block under one header starts from, worked out before the run
    /// from everything already known: names, fields, tags, argv. Only the numbers
    /// are missing, and their headings are wider than they usually are. `None` for
    /// everything else, which shares no widths between blocks.
    floor: Option<Vec<usize>>,
    text: String,
}

/// Everything a table knows.
pub struct Draft {
    pub path: Seq<char>,
    pub mode: Mode,
    pub shape: Shape,
    pub rows: Seq<Seq<Square>>,
    pub floor: Option<Seq<nat>>,
    pub text: Seq<char>,
}

impl View for Table {
    type V = Draft;

    closed spec fn view(&self) -> Draft {
        Draft {
            path: self.path@,
            mode: self.mode,
            shape: self.columns@,
            rows: layout::grid(self.rows@),
            floor: layout::floor_sizes(self.floor),
            text: self.text@,
        }
    }
}

impl Draft {
    /// With the columns for these steps, before any of them has run.
    pub open spec fn started(self, steps: Seq<Step>) -> Draft {
        let shape = columns::shape_of(steps);
        let floor = match self.mode {
            Mode::Blocks { headers: Headers::Once } => Some(shape.measure(steps)),
            // a block with a header of its own reads on its own, ragged ones are
            // meant to differ, and a whole table is laid out in one go, so none
            // of them has anything to share
            _ => None,
        };
        Draft {
            shape,
            floor,
            text: if self.mode == (Mode::Blocks { headers: Headers::Once }) {
                layout::render_text(shape.header(), Seq::empty(), true, floor)
            } else {
                Seq::empty()
            },
            ..self
        }
    }

    /// With this step's block in it.
    pub open spec fn with_block(self, step: Step) -> Draft {
        let shape = if self.mode == Mode::Ragged {
            columns::shape_of(seq![step])
        } else {
            self.shape
        };
        match self.mode {
            Mode::Whole => Draft { rows: self.rows + shape.block(step), ..self },
            _ => Draft {
                text: self.text + layout::render_text(
                    shape.header(),
                    shape.block(step),
                    self.mode != (Mode::Blocks { headers: Headers::Once }),
                    self.floor,
                ),
                ..self
            },
        }
    }

    /// With everything in it.
    pub open spec fn finished(self) -> Draft {
        if self.mode == Mode::Whole {
            Draft {
                rows: Seq::empty(),
                text: layout::render_text(self.shape.header(), self.rows, true, None),
                ..self
            }
        } else {
            self
        }
    }

    /// Whether every row held back fits the columns it is to be laid out under.
    pub open spec fn fits(self) -> bool {
        layout::rows_fit(self.rows, self.shape.header().len())
    }
}

impl Table {
    pub fn new(path: &str) -> (r: Table)
        ensures
            r@.path == path@,
            r@.mode == (Mode::Blocks { headers: Headers::Once }),
            r@.shape.keys.len() == 0,
            r@.shape.tags.len() == 0,
            !r@.shape.cpus,
            r@.rows == Seq::<Seq<Square>>::empty(),
            r@.floor is None,
            r@.text == Seq::<char>::empty(),
            r@.fits(),
    {
        let r = Table {
            path: path.to_owned(),
            mode: Mode::default(),
            columns: Columns::none(),
            rows: Vec::new(),
            floor: None,
            text: String::new(),
        };
        assert(r@.rows =~= Seq::<Seq<Square>>::empty());
        assert(r@.text =~= Seq::<char>::empty());
        r
    }

    pub fn mode(self, mode: Mode) -> (r: Table)
        ensures
            r@ == (Draft { mode, ..self@ }),
    {
        Table { mode, ..self }
    }

    /// The file this is for.
    pub fn path(&self) -> (r: &str)
        ensures
            r@ == self@.path,
    {
        self.path.as_str()
    }

    /// What the file should say by now.
    pub fn text(&self) -> (r: &str)
        ensures
            r@ == self@.text,
    {
        self.text.as_str()
    }

    /// Everything that is about to run. The file is always to be written after
    /// this.
    pub fn start(&mut self, steps: &[Step])
        ensures
            final(self)@ == old(self)@.started(steps@),
            old(self)@.rows.len() == 0 ==> final(self)@.fits(),
    {
        self.columns = Columns::of(steps);
        self.floor =
        match self.mode {
            Mode::Blocks { headers: Headers::Once } => Some(self.columns.measure(steps)),
            _ => None,
        };
        let mut text = String::new();
        if self.mode == (Mode::Blocks { headers: Headers::Once }) {
            let header = self.columns.header();
            let none: Vec<Vec<Cell>> = Vec::new();
            assert(layout::grid(none@) =~= Seq::<Seq<Square>>::empty());
            assert(text::texts(header@).len() == header@.len());
            text = layout::render(&header, &none, true, &self.floor);
        }
        assert(self.mode != (Mode::Blocks { headers: Headers::Once }) ==> text@
            =~= Seq::<char>::empty());
        self.text = text;
    }

    /// One step is done. Says whether the file is to be written.
    ///
    /// A step's rows are built from the step itself once it is done, which keeps
    /// them in the order the commands were declared rather than the order a batch
    /// happened to finish them in.
    pub fn step_done(&mut self, step: &Step) -> (r: bool)
        ensures
            r == (old(self)@.mode != Mode::Whole),
            final(self)@ == old(self)@.with_block(*step),
            old(self)@.fits() ==> final(self)@.fits(),
    {
        let columns = match self.mode {
            Mode::Ragged => Columns::of(std::slice::from_ref(step)),
            _ => self.columns.again(),
        };
        let mut rows = columns.block(step);
        proof {
            columns::lemma_block_fits(columns@, *step);
        }
        let show_header = match self.mode {
            Mode::Whole => {
                let ghost block = layout::grid(rows@);
                let ghost then = layout::grid(self.rows@);
                self.rows.append(&mut rows);
                assert(layout::grid(self.rows@) =~= then + block);
                return false;
            },
            Mode::Blocks { headers: Headers::Once } => false,
            _ => true,
        };
        let header = columns.header();
        assert(text::texts(header@).len() == header@.len());
        self.text.append(layout::render(&header, &rows, show_header, &self.floor).as_str());
        true
    }

    /// The pipeline is over. Says whether the file is to be written.
    pub fn finish(&mut self) -> (r: bool)
        requires
            old(self)@.fits(),
        ensures
            r == (old(self)@.mode == Mode::Whole),
            final(self)@ == old(self)@.finished(),
            final(self)@.fits(),
    {
        if self.mode == Mode::Whole {
            let header = self.columns.header();
            assert(text::texts(header@).len() == header@.len());
            self.text = layout::render(&header, &self.rows, true, &None);
            self.rows = Vec::new();
            assert(layout::grid(self.rows@) =~= Seq::<Seq<Square>>::empty());
            true
        } else {
            false
        }
    }
}

/// A table after these steps were done one after another.
pub open spec fn drawn(draft: Draft, steps: Seq<Step>) -> Draft
    decreases steps.len(),
{
    if steps.len() == 0 {
        draft
    } else {
        drawn(draft, steps.drop_last()).with_block(steps.last())
    }
}

/// The blocks of these steps, one after another, each laid out by itself.
pub open spec fn block_texts(draft: Draft, steps: Seq<Step>) -> Seq<char>
    decreases steps.len(),
{
    if steps.len() == 0 {
        Seq::empty()
    } else {
        let step = steps.last();
        let shape = if draft.mode == Mode::Ragged {
            columns::shape_of(seq![step])
        } else {
            draft.shape
        };
        block_texts(draft, steps.drop_last()) + layout::render_text(
            shape.header(),
            shape.block(step),
            draft.mode != (Mode::Blocks { headers: Headers::Once }),
            draft.floor,
        )
    }
}

proof fn lemma_drawn(draft: Draft, steps: Seq<Step>)
    ensures
        ({
            let d = drawn(draft, steps);
            &&& d.path == draft.path
            &&& d.mode == draft.mode
            &&& d.shape == draft.shape
            &&& d.floor == draft.floor
            &&& draft.mode == Mode::Whole ==> d.text == draft.text && d.rows == draft.rows
                + columns::blocks(draft.shape, steps)
            &&& draft.mode != Mode::Whole ==> d.rows == draft.rows && d.text == draft.text
                + block_texts(draft, steps)
        }),
    decreases steps.len(),
{
    if steps.len() == 0 {
        assert(draft.rows + Seq::empty() =~= draft.rows);
        assert(draft.text + Seq::empty() =~= draft.text);
    } else {
        lemma_drawn(draft, steps.drop_last());
        let most = drawn(draft, steps.drop_last());
        let d = drawn(draft, steps);
        if draft.mode == Mode::Whole {
            assert(d.rows =~= draft.rows + columns::blocks(draft.shape, steps));
        } else {
            assert(d.text =~= draft.text + block_texts(draft, steps));
        }
    }
}

/// A whole table holds everything back until the run is over, and then has every
/// row of every step in the order they were done, under one header.
pub proof fn a_whole_table_comes_at_the_end(draft: Draft, planned: Seq<Step>, done: Seq<Step>)
    requires
        draft.mode == Mode::Whole,
        draft.rows.len() == 0,
    ensures
        drawn(draft.started(planned), done).text == Seq::<char>::empty(),
        drawn(draft.started(planned), done).finished().text == layout::render_text(
            columns::shape_of(planned).header(),
            columns::blocks(columns::shape_of(planned), done),
            true,
            None,
        ),
{
    let first = draft.started(planned);
    lemma_drawn(first, done);
    assert(first.rows + columns::blocks(first.shape, done) =~= columns::blocks(first.shape, done));
}

/// Every other table grows a block at a time and is never taken back: what it
/// said before the run, then the block of each step in the order they were done.
/// Finishing adds nothing.
pub proof fn blocks_come_one_at_a_time(draft: Draft, planned: Seq<Step>, done: Seq<Step>)
    requires
        draft.mode != Mode::Whole,
    ensures
        drawn(draft.started(planned), done).finished().text == draft.started(planned).text
            + block_texts(draft.started(planned), done),
{
    lemma_drawn(draft.started(planned), done);
}

/// A header printed once is there before anything runs: a line of labels and the
/// rule under it, and no rows.
pub proof fn one_header_comes_first(draft: Draft, planned: Seq<Step>)
    requires
        draft.mode == (Mode::Blocks { headers: Headers::Once }),
    ensures
        ({
            let header = columns::shape_of(planned).header();
            let widths = layout::widths_of(
                header,
                Seq::empty(),
                draft.started(planned).floor,
            );
            draft.started(planned).text == layout::row_text(layout::head_squares(header), widths)
                + layout::row_text(layout::rule_squares(header, widths), widths)
        }),
{
    let header = columns::shape_of(planned).header();
    let widths = layout::widths_of(header, Seq::empty(), draft.started(planned).floor);
    let top = layout::row_text(layout::head_squares(header), widths) + layout::row_text(
        layout::rule_squares(header, widths),
        widths,
    );
    assert(top + Seq::<char>::empty() =~= top);
}

/// Blocks line up under a header printed once. It is laid out in the widths
/// measured before the run, and so is every block with no value wider than what
/// was measured.
pub proof fn blocks_line_up_under_the_header(planned: Seq<Step>, done: Step)
    requires
        forall|r: int, i: int|
            0 <= r < columns::shape_of(planned).block(done).len() && 0 <= i
                < columns::shape_of(planned).block(done)[r].len() ==> (
            #[trigger] columns::shape_of(planned).block(done)[r][i]).text.len()
                <= columns::shape_of(planned).measure(planned)[i],
    ensures
        ({
            let shape = columns::shape_of(planned);
            let floor = shape.measure(planned);
            &&& layout::widths_of(shape.header(), Seq::empty(), Some(floor)) == floor
            &&& layout::widths_of(shape.header(), shape.block(done), Some(floor)) == floor
        }),
{
    let shape = columns::shape_of(planned);
    let header = shape.header();
    let floor = shape.measure(planned);
    let rows = columns::blocks(shape, planned);
    assert(header.len() >= 10);
    assert forall|i: int| 0 <= i < header.len() implies (#[trigger] layout::head_squares(
        header,
    )[i]).text.len() <= floor[i] by {
        layout::a_column_is_as_wide_as_its_widest_cell(header, rows, None, i);
    }
    layout::a_column_is_as_wide_as_its_widest_cell(header, rows, None, 0);
    let none: Seq<Seq<Square>> = Seq::empty();
    layout::a_floor_that_holds_everything_is_kept(header, none, floor);
    layout::a_floor_that_holds_everything_is_kept(header, shape.block(done), floor);
}

/// A block with a header of its own is padded to its own contents, whatever the
/// other steps hold: it comes under its header in widths that start from nothing,
/// so each column is as wide as the widest cell of the block, its label among
/// them, and no wider. Its columns are those of the whole run.
pub proof fn a_block_with_its_own_header_is_padded_to_its_own_contents(
    draft: Draft,
    planned: Seq<Step>,
    done: Seq<Step>,
    step: Step,
)
    requires
        draft.mode == (Mode::Blocks { headers: Headers::Each }),
    ensures
        ({
            let shape = columns::shape_of(planned);
            let header = shape.header();
            let block = shape.block(step);
            let widths = layout::widths_of(header, block, None);
            let before = drawn(draft.started(planned), done);
            &&& before.with_block(step).text == before.text + layout::render_text(
                header,
                block,
                true,
                None,
            )
            &&& forall|i: int, r: int|
                0 <= i < header.len() && 0 <= r < block.len() ==> (
                #[trigger] block[r][i]).text.len() <= widths[i]
            &&& forall|i: int|
                0 <= i < header.len() ==> {
                    let label = layout::head_squares(header)[i].text.len();
                    &&& label <= #[trigger] widths[i]
                    &&& widths[i] == label || exists|r: int|
                        0 <= r < block.len() && (#[trigger] block[r])[i].text.len() == widths[i]
                }
        }),
{
    let shape = columns::shape_of(planned);
    let header = shape.header();
    let block = shape.block(step);
    let widths = layout::widths_of(header, block, None);
    lemma_drawn(draft.started(planned), done);
    columns::lemma_block_fits(shape, step);
    assert forall|i: int, r: int| 0 <= i < header.len() && 0 <= r < block.len() implies (
    #[trigger] block[r][i]).text.len() <= widths[i] by {
        layout::a_column_is_as_wide_as_its_widest_cell(header, block, None, i);
        assert(block[r].len() == header.len());
    }
    assert forall|i: int| 0 <= i < header.len() implies {
        let label = layout::head_squares(header)[i].text.len();
        &&& label <= #[trigger] widths[i]
        &&& widths[i] == label || exists|r: int|
            0 <= r < block.len() && (#[trigger] block[r])[i].text.len() == widths[i]
    } by {
        layout::a_column_is_as_wide_as_its_widest_cell(header, block, None, i);
        assert(layout::base_widths(header.len(), None)[i] == 0);
    }
}

/// A ragged block has the columns its own step carries and no others, under a header
/// of its own, in widths of its own.
pub proof fn a_ragged_block_has_its_own_columns(
    draft: Draft,
    planned: Seq<Step>,
    done: Seq<Step>,
    step: Step,
)
    requires
        draft.mode == Mode::Ragged,
    ensures
        ({
            let shape = columns::shape_of(seq![step]);
            let before = drawn(draft.started(planned), done);
            before.with_block(step).text == before.text + layout::render_text(
                shape.header(),
                shape.block(step),
                true,
                None,
            )
        }),
{
    lemma_drawn(draft.started(planned), done);
}

/// A block under one header has no header of its own, and starts from the widths that
/// were measured before the run.
pub proof fn a_block_under_one_header_has_none_of_its_own(
    draft: Draft,
    planned: Seq<Step>,
    done: Seq<Step>,
    step: Step,
)
    requires
        draft.mode == (Mode::Blocks { headers: Headers::Once }),
    ensures
        ({
            let shape = columns::shape_of(planned);
            let before = drawn(draft.started(planned), done);
            before.with_block(step).text == before.text + layout::render_text(
                shape.header(),
                shape.block(step),
                false,
                Some(shape.measure(planned)),
            )
        }),
{
    lemma_drawn(draft.started(planned), done);
}

/// Nothing stands in the file before the run but a header that is printed once, and a
/// table stays where it was put and of the kind it was.
pub proof fn a_table_starts_empty_but_for_its_header(draft: Draft, planned: Seq<Step>, done: Step)
    ensures
        draft.mode != (Mode::Blocks { headers: Headers::Once }) ==> draft.started(
            planned,
        ).text.len() == 0,
        draft.started(planned).path == draft.path && draft.started(planned).mode == draft.mode,
        draft.with_block(done).path == draft.path && draft.with_block(done).mode == draft.mode,
        draft.finished().path == draft.path && draft.finished().mode == draft.mode,
        draft.mode != Mode::Whole ==> draft.finished().text == draft.text,
{
}

} // verus!
