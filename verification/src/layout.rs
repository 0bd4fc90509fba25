//! Laying cells out in columns.

use vstd::prelude::*;

use crate::text;

verus! {

/// A cell and which side its padding goes on.
#[derive(Clone, Debug)]
pub struct Cell {
    pub text: String,
    pub right: bool,
}

/// What a cell says, and which side its padding goes on.
pub struct Square {
    pub text: Seq<char>,
    pub right: bool,
}

impl View for Cell {
    type V = Square;

    open spec fn view(&self) -> Square {
        Square { text: self.text@, right: self.right }
    }
}

pub open spec fn left(text: Seq<char>) -> Square {
    Square { text, right: false }
}

pub open spec fn right(text: Seq<char>) -> Square {
    Square { text, right: true }
}

/// What each of these cells says.
pub open spec fn squares(cells: Seq<Cell>) -> Seq<Square> {
    Seq::new(cells.len(), |i: int| cells[i]@)
}

/// What each of these rows says.
pub open spec fn grid(rows: Seq<Vec<Cell>>) -> Seq<Seq<Square>> {
    Seq::new(rows.len(), |i: int| squares(rows[i]@))
}

impl Cell {
    pub fn left(text: &str) -> (r: Cell)
        ensures
            r@ == left(text@),
    {
        Cell { text: text.to_owned(), right: false }
    }

    pub fn right(text: &str) -> (r: Cell)
        ensures
            r@ == right(text@),
    {
        Cell { text: text.to_owned(), right: true }
    }

    /// Another of the same.
    pub fn again(&self) -> (r: Cell)
        ensures
            r@ == self@,
    {
        Cell { text: self.text.clone(), right: self.right }
    }
}

pub open spec fn larger(a: nat, b: nat) -> nat {
    if a >= b {
        a
    } else {
        b
    }
}

/// How many columns a row's cells are wide, in numbers without a size limit.
pub open spec fn sizes(widths: Seq<usize>) -> Seq<nat> {
    Seq::new(widths.len(), |i: int| widths[i] as nat)
}

/// The widths with each column made to hold its cell of this row.
pub open spec fn widened(widths: Seq<nat>, row: Seq<Square>) -> Seq<nat> {
    Seq::new(
        widths.len(),
        |i: int|
            if i < row.len() {
                larger(widths[i], row[i].text.len())
            } else {
                widths[i]
            },
    )
}

/// The widths with each column made to hold its cell of every one of these rows.
pub open spec fn widened_by_all(widths: Seq<nat>, rows: Seq<Seq<Square>>) -> Seq<nat>
    decreases rows.len(),
{
    if rows.len() == 0 {
        widths
    } else {
        widened(widened_by_all(widths, rows.drop_last()), rows.last())
    }
}

/// A cell padded out to its column.
pub open spec fn padded(square: Square, width: nat) -> Seq<char> {
    let pad = text::repeated(
        ' ',
        if square.text.len() < width {
            (width - square.text.len()) as nat
        } else {
            0
        },
    );
    if square.right {
        pad + square.text
    } else {
        square.text + pad
    }
}

/// One line of the table: every cell padded but the last, a space between.
pub open spec fn row_text(row: Seq<Square>, widths: Seq<nat>) -> Seq<char> {
    text::joined(
        Seq::new(
            row.len(),
            |i: int|
                if i == row.len() - 1 {
                    row[i].text
                } else {
                    padded(row[i], widths[i])
                },
        ),
        " "@,
    ).push('\n')
}

/// Lines of the table, one for each row.
pub open spec fn rows_text(rows: Seq<Seq<Square>>, widths: Seq<nat>) -> Seq<char>
    decreases rows.len(),
{
    if rows.len() == 0 {
        Seq::empty()
    } else {
        rows_text(rows.drop_last(), widths) + row_text(rows.last(), widths)
    }
}

/// The header as cells. The "# " marker is absorbed into the first column's
/// width, so the labels stay lined up over the data below them.
pub open spec fn head_squares(header: Seq<Seq<char>>) -> Seq<Square> {
    Seq::new(
        header.len(),
        |i: int|
            left(
                if i == 0 {
                    "# "@ + header[0]
                } else {
                    header[i]
                },
            ),
    )
}

/// The line under the header. The last column is unpadded, so its label is
/// underlined rather than the whole column.
pub open spec fn rule_squares(header: Seq<Seq<char>>, widths: Seq<nat>) -> Seq<Square> {
    Seq::new(
        header.len(),
        |i: int|
            left(
                if i == header.len() - 1 {
                    text::repeated('-', header[i].len())
                } else if i == 0 {
                    "# "@ + text::repeated(
                        '-',
                        if widths[0] >= 2 {
                            (widths[0] - 2) as nat
                        } else {
                            0
                        },
                    )
                } else {
                    text::repeated('-', widths[i])
                },
            ),
    )
}

/// Where widths start from. A floor from a different set of columns is no floor
/// at all.
pub open spec fn base_widths(columns: nat, floor: Option<Seq<nat>>) -> Seq<nat> {
    match floor {
        Some(floor) if floor.len() == columns => floor,
        _ => Seq::new(columns, |i: int| 0nat),
    }
}

/// How wide every column is: its widest cell, its header among them, and no less
/// than its floor.
pub open spec fn widths_of(
    header: Seq<Seq<char>>,
    rows: Seq<Seq<Square>>,
    floor: Option<Seq<nat>>,
) -> Seq<nat> {
    widened_by_all(widened(base_widths(header.len(), floor), head_squares(header)), rows)
}

/// The rows laid out, under a header and a rule if there is to be one.
pub open spec fn render_text(
    header: Seq<Seq<char>>,
    rows: Seq<Seq<Square>>,
    show_header: bool,
    floor: Option<Seq<nat>>,
) -> Seq<char> {
    let widths = widths_of(header, rows, floor);
    let body = rows_text(rows, widths);
    if show_header {
        row_text(head_squares(header), widths) + row_text(rule_squares(header, widths), widths)
            + body
    } else {
        body
    }
}

/// Whether every one of these rows has cells, and no more of them than there are
/// columns.
pub open spec fn rows_fit(rows: Seq<Seq<Square>>, columns: nat) -> bool {
    forall|r: int| 0 <= r < rows.len() ==> 1 <= (#[trigger] rows[r]).len() <= columns
}

/// The header as cells.
pub fn head_cells(header: &Vec<String>) -> (r: Vec<Cell>)
    requires
        header@.len() > 0,
    ensures
        squares(r@) == head_squares(text::texts(header@)),
{
    let mut head: Vec<Cell> = Vec::new();
    let mut first = "# ".to_owned();
    first.append(header[0].as_str());
    head.push(Cell::left(first.as_str()));
    for i in 1..header.len()
        invariant
            1 <= header@.len(),
            head@.len() == i,
            squares(head@) == head_squares(text::texts(header@)).take(i as int),
    {
        let ghost before = head@;
        head.push(Cell::left(header[i].as_str()));
        assert(squares(head@) =~= squares(before).push(head@.last()@));
        assert(squares(head@) =~= head_squares(text::texts(header@)).take(i + 1));
    }
    assert(head_squares(text::texts(header@)).take(header@.len() as int) =~= head_squares(
        text::texts(header@),
    ));
    head
}

pub fn widen(widths: &mut Vec<usize>, cells: &Vec<Cell>)
    requires
        cells@.len() <= old(widths)@.len(),
    ensures
        sizes(final(widths)@) == widened(sizes(old(widths)@), squares(cells@)),
{
    for i in 0..cells.len()
        invariant
            cells@.len() <= old(widths)@.len(),
            sizes(widths@) == widened(sizes(old(widths)@), squares(cells@).take(i as int)),
            widths@.len() == old(widths)@.len(),
    {
        let ghost then = widths@;
        let n = cells[i].text.as_str().unicode_len();
        if widths[i] < n {
            widths.set(i, n);
        }
        proof {
            let row = squares(cells@);
            let now = widened(sizes(old(widths)@), row.take(i + 1));
            assert(row[i as int].text.len() == n);
            assert forall|k: int| 0 <= k < now.len() implies sizes(widths@)[k]
                == #[trigger] now[k] by {
                assert(sizes(then)[k] == widened(sizes(old(widths)@), row.take(i as int))[k]);
            }
            assert(sizes(widths@) =~= now);
        }
    }
    assert(squares(cells@).take(cells@.len() as int) =~= squares(cells@));
}

/// A cell padded out to its column.
fn pad(cell: &Cell, width: usize) -> (r: String)
    ensures
        r@ == padded(cell@, width as nat),
{
    let n = cell.text.as_str().unicode_len();
    let spaces = text::repeat(
        ' ',
        if n < width {
            width - n
        } else {
            0
        },
    );
    let mut out = String::new();
    if cell.right {
        out.append(spaces.as_str());
        out.append(cell.text.as_str());
    } else {
        out.append(cell.text.as_str());
        out.append(spaces.as_str());
    }
    assert(out@ =~= padded(cell@, width as nat));
    out
}

/// Write one line of the table. The last cell is never padded, so there need be
/// no width for it.
pub fn write_row(out: &mut String, cells: &Vec<Cell>, widths: &Vec<usize>)
    requires
        1 <= cells@.len() <= widths@.len() + 1,
    ensures
        final(out)@ == old(out)@ + row_text(squares(cells@), sizes(widths@)),
{
    let last = cells.len() - 1;
    let mut parts: Vec<String> = Vec::new();
    for i in 0..cells.len()
        invariant
            1 <= cells@.len() <= widths@.len() + 1,
            last == cells@.len() - 1,
            text::texts(parts@) == Seq::new(
                i as nat,
                |k: int|
                    if k == last {
                        squares(cells@)[k].text
                    } else {
                        padded(squares(cells@)[k], sizes(widths@)[k])
                    },
            ),
    {
        let ghost before = parts@;
        let part = if i == last {
            cells[i].text.clone()
        } else {
            pad(&cells[i], widths[i])
        };
        parts.push(part);
        assert(text::texts(parts@) =~= text::texts(before).push(part@));
        assert(text::texts(parts@) =~= Seq::new(
            (i + 1) as nat,
            |k: int|
                if k == last {
                    squares(cells@)[k].text
                } else {
                    padded(squares(cells@)[k], sizes(widths@)[k])
                },
        ));
    }
    let line = text::join(&parts, " ");
    assert(line@.push('\n') =~= row_text(squares(cells@), sizes(widths@))) by {
        assert(text::texts(parts@) =~= Seq::new(
            squares(cells@).len(),
            |i: int|
                if i == squares(cells@).len() - 1 {
                    squares(cells@)[i].text
                } else {
                    padded(squares(cells@)[i], sizes(widths@)[i])
                },
        ));
    }
    let ghost before = out@;
    out.append(line.as_str());
    out.push('\n');
    assert(out@ =~= before + line@.push('\n'));
}

/// The line under the header, as cells.
fn rule_cells(header: &Vec<String>, widths: &Vec<usize>) -> (r: Vec<Cell>)
    requires
        header@.len() == widths@.len(),
    ensures
        squares(r@) == rule_squares(text::texts(header@), sizes(widths@)),
{
    let mut rule: Vec<Cell> = Vec::new();
    for i in 0..header.len()
        invariant
            header@.len() == widths@.len(),
            squares(rule@) == rule_squares(text::texts(header@), sizes(widths@)).take(i as int),
    {
        let ghost before = rule@;
        let line = if i == header.len() - 1 {
            // argv is unpadded, so underline the label rather than the whole
            // column
            text::repeat('-', header[i].as_str().unicode_len())
        } else if i == 0 {
            let mut line = "# ".to_owned();
            line.append(text::repeat('-', widths[0].saturating_sub(2)).as_str());
            line
        } else {
            text::repeat('-', widths[i])
        };
        rule.push(Cell { text: line, right: false });
        assert(squares(rule@) =~= squares(before).push(rule@.last()@));
        assert(squares(rule@) =~= rule_squares(text::texts(header@), sizes(widths@)).take(i + 1));
    }
    assert(squares(rule@) =~= rule_squares(text::texts(header@), sizes(widths@)));
    rule
}

/// Lay out the rows, every column padded to its widest cell, under a commented
/// header and dashed separator if `show_header` says so.
///
/// The header sets the width of every column whether it is printed or not. That
/// is what keeps blocks lined up under a header printed once at the top: they
/// share its widths as a floor, and only drift apart where a value is wider than
/// the label above it.
pub fn render(
    header: &Vec<String>,
    rows: &Vec<Vec<Cell>>,
    show_header: bool,
    floor: &Option<Vec<usize>>,
) -> (r: String)
    requires
        header@.len() > 0,
        rows_fit(grid(rows@), header@.len()),
    ensures
        r@ == render_text(
            text::texts(header@),
            grid(rows@),
            show_header,
            floor_sizes(*floor),
        ),
{
    let head = head_cells(header);
    let ghost labels = text::texts(header@);
    let ghost body = grid(rows@);
    let mut widths = first_widths(header.len(), floor);
    assert(squares(head@).len() == head@.len());
    assert(sizes(widths@).len() == widths@.len());
    widen(&mut widths, &head);
    let ghost base = sizes(widths@);
    for i in 0..rows.len()
        invariant
            rows_fit(grid(rows@), header@.len()),
            body == grid(rows@),
            base.len() == header@.len(),
            widths@.len() == base.len(),
            sizes(widths@) == widened_by_all(base, body.take(i as int)),
    {
        assert(body[i as int] == squares(rows@[i as int]@));
        let ghost then = sizes(widths@);
        widen(&mut widths, &rows[i]);
        proof {
            assert(body.take(i + 1).drop_last() =~= body.take(i as int));
            assert(sizes(widths@).len() == widths@.len());
        }
    }
    assert(body.take(body.len() as int) =~= body);
    assert(sizes(widths@) == widths_of(labels, body, floor_sizes(*floor)));

    let mut out = String::new();
    if show_header {
        let rule = rule_cells(header, &widths);
        assert(squares(rule@).len() == rule@.len());
        write_row(&mut out, &head, &widths);
        write_row(&mut out, &rule, &widths);
    }
    let ghost top = out@;
    assert(rows_text(body.take(0), sizes(widths@)) =~= Seq::empty());
    for i in 0..rows.len()
        invariant
            rows_fit(grid(rows@), header@.len()),
            body == grid(rows@),
            widths@.len() == header@.len(),
            out@ == top + rows_text(body.take(i as int), sizes(widths@)),
    {
        assert(body[i as int] == squares(rows@[i as int]@));
        write_row(&mut out, &rows[i], &widths);
        proof {
            assert(body.take(i + 1).drop_last() =~= body.take(i as int));
            assert(out@ =~= top + rows_text(body.take(i + 1), sizes(widths@)));
        }
    }
    assert(out@ =~= render_text(labels, body, show_header, floor_sizes(*floor)));
    out
}

pub open spec fn floor_sizes(floor: Option<Vec<usize>>) -> Option<Seq<nat>> {
    match floor {
        Some(floor) => Some(sizes(floor@)),
        None => None,
    }
}

/// Where widths start from.
fn first_widths(columns: usize, floor: &Option<Vec<usize>>) -> (r: Vec<usize>)
    ensures
        sizes(r@) == base_widths(columns as nat, floor_sizes(*floor)),
{
    // a floor from a different set of columns is no floor at all
    match floor {
        Some(floor) if floor.len() == columns => {
            let mut widths: Vec<usize> = Vec::new();
            for i in 0..columns
                invariant
                    columns == floor@.len(),
                    widths@ == floor@.take(i as int),
            {
                widths.push(floor[i]);
                assert(widths@ =~= floor@.take(i + 1));
            }
            assert(widths@ =~= floor@);
            widths
        },
        _ => zeros(columns),
    }
}

pub fn zeros(columns: usize) -> (r: Vec<usize>)
    ensures
        sizes(r@) == Seq::new(columns as nat, |i: int| 0nat),
{
    let mut widths: Vec<usize> = Vec::new();
    for i in 0..columns
        invariant
            widths@ == Seq::new(i as nat, |i: int| 0usize),
    {
        widths.push(0);
        assert(widths@ =~= Seq::new((i + 1) as nat, |i: int| 0usize));
    }
    assert(sizes(widths@) =~= Seq::new(columns as nat, |i: int| 0nat));
    widths
}

/// Where column `i` starts in every line, when every cell before it fits.
pub open spec fn column_start(widths: Seq<nat>, i: int) -> nat
    decreases i,
{
    if i <= 0 {
        0
    } else {
        column_start(widths, i - 1) + widths[i - 1] + 1
    }
}

proof fn lemma_widened_by_all(widths: Seq<nat>, rows: Seq<Seq<Square>>, i: int)
    requires
        0 <= i < widths.len(),
    ensures
        widened_by_all(widths, rows).len() == widths.len(),
        widened_by_all(widths, rows)[i] >= widths[i],
        forall|r: int|
            0 <= r < rows.len() && i < (#[trigger] rows[r]).len() ==> rows[r][i].text.len()
                <= widened_by_all(widths, rows)[i],
        widened_by_all(widths, rows)[i] == widths[i] || exists|r: int|
            0 <= r < rows.len() && i < (#[trigger] rows[r]).len() && rows[r][i].text.len()
                == widened_by_all(widths, rows)[i],
    decreases rows.len(),
{
    if rows.len() > 0 {
        let most = rows.drop_last();
        lemma_widened_by_all(widths, most, i);
        assert forall|r: int|
            0 <= r < rows.len() && i < (#[trigger] rows[r]).len() implies rows[r][i].text.len()
            <= widened_by_all(widths, rows)[i] by {
            if r < most.len() {
                assert(most[r] == rows[r]);
            }
        }
        let before = widened_by_all(widths, most)[i];
        let after = widened_by_all(widths, rows)[i];
        if after == before && after != widths[i] {
            let r = choose|r: int|
                0 <= r < most.len() && i < (#[trigger] most[r]).len() && most[r][i].text.len()
                    == before;
            assert(rows[r][i].text.len() == after);
        } else if after != before {
            assert(rows[rows.len() - 1][i].text.len() == after);
        }
    }
}

/// A column is as wide as its widest cell, the header among them, and no less
/// than its floor; and no wider than one of those makes it.
pub proof fn a_column_is_as_wide_as_its_widest_cell(
    header: Seq<Seq<char>>,
    rows: Seq<Seq<Square>>,
    floor: Option<Seq<nat>>,
    i: int,
)
    requires
        0 <= i < header.len(),
    ensures
        ({
            let widths = widths_of(header, rows, floor);
            let least = base_widths(header.len(), floor)[i];
            let label = head_squares(header)[i].text.len();
            &&& widths.len() == header.len()
            &&& widths[i] >= least
            &&& widths[i] >= label
            &&& forall|r: int|
                0 <= r < rows.len() && i < (#[trigger] rows[r]).len() ==> rows[r][i].text.len()
                    <= widths[i]
            &&& widths[i] == least || widths[i] == label || exists|r: int|
                0 <= r < rows.len() && i < (#[trigger] rows[r]).len() && rows[r][i].text.len()
                    == widths[i]
        }),
{
    let base = base_widths(header.len(), floor);
    let first = widened(base, head_squares(header));
    lemma_widened_by_all(first, rows, i);
}

/// Widths that already hold every cell stay as they are. This is what keeps the
/// blocks under one header lined up with it and with each other.
pub proof fn a_floor_that_holds_everything_is_kept(
    header: Seq<Seq<char>>,
    rows: Seq<Seq<Square>>,
    floor: Seq<nat>,
)
    requires
        floor.len() == header.len(),
        forall|i: int|
            0 <= i < header.len() ==> (#[trigger] head_squares(header)[i]).text.len() <= floor[i],
        forall|r: int, i: int|
            0 <= r < rows.len() && 0 <= i < rows[r].len() && i < floor.len() ==> (
            #[trigger] rows[r][i]).text.len() <= floor[i],
    ensures
        widths_of(header, rows, Some(floor)) == floor,
{
    let widths = widths_of(header, rows, Some(floor));
    if header.len() > 0 {
        a_column_is_as_wide_as_its_widest_cell(header, rows, Some(floor), 0);
    } else {
        lemma_no_columns(widened(floor, head_squares(header)), rows);
    }
    assert forall|i: int| 0 <= i < floor.len() implies widths[i] == floor[i] by {
        a_column_is_as_wide_as_its_widest_cell(header, rows, Some(floor), i);
        assert(head_squares(header)[i].text.len() <= floor[i]);
        if widths[i] != floor[i] && widths[i] != head_squares(header)[i].text.len() {
            let r = choose|r: int|
                0 <= r < rows.len() && i < (#[trigger] rows[r]).len() && rows[r][i].text.len()
                    == widths[i];
            assert(rows[r][i].text.len() <= floor[i]);
        }
    }
    assert(widths =~= floor);
}

proof fn lemma_no_columns(widths: Seq<nat>, rows: Seq<Seq<Square>>)
    ensures
        widened_by_all(widths, rows).len() == widths.len(),
    decreases rows.len(),
{
    if rows.len() > 0 {
        lemma_no_columns(widths, rows.drop_last());
    }
}

/// Where part `i` starts in the parts joined up.
spec fn part_start(parts: Seq<Seq<char>>, i: int) -> nat
    decreases i,
{
    if i <= 0 {
        0
    } else {
        part_start(parts, i - 1) + parts[i - 1].len() + 1
    }
}

proof fn lemma_same_starts(a: Seq<Seq<char>>, b: Seq<Seq<char>>, i: int)
    requires
        0 <= i <= a.len(),
        i <= b.len(),
        forall|k: int| 0 <= k < i ==> #[trigger] a[k] == b[k],
    ensures
        part_start(a, i) == part_start(b, i),
    decreases i,
{
    if i > 0 {
        lemma_same_starts(a, b, i - 1);
        assert(a[i - 1] == b[i - 1]);
    }
}

proof fn lemma_parts(parts: Seq<Seq<char>>, i: int)
    requires
        0 <= i < parts.len(),
    ensures
        ({
            let line = text::joined(parts, " "@);
            let at = part_start(parts, i) as int;
            &&& line.len() == part_start(parts, parts.len() as int) - 1
            &&& at + parts[i].len() <= line.len()
            &&& line.subrange(at, at + parts[i].len() as int) == parts[i]
            &&& i < parts.len() - 1 ==> at + parts[i].len() < line.len() && line[at
                + parts[i].len() as int] == ' '
            &&& i == parts.len() - 1 ==> at + parts[i].len() == line.len()
        }),
    decreases parts.len(),
{
    reveal_strlit(" ");
    let line = text::joined(parts, " "@);
    let at = part_start(parts, i) as int;
    if parts.len() == 1 {
        assert(line.subrange(0, line.len() as int) =~= parts[0]);
    } else {
        let most = parts.drop_last();
        let shorter = text::joined(most, " "@);
        lemma_parts(most, most.len() - 1);
        lemma_same_starts(parts, most, most.len() as int);
        text::lemma_joined_push(most, " "@, parts.last());
        assert(most.push(parts.last()) =~= parts);
        assert(line == shorter + " "@ + parts.last());
        if i < most.len() {
            lemma_parts(most, i);
            lemma_same_starts(parts, most, i);
            assert(most[i] == parts[i]);
            assert(line.subrange(at, at + parts[i].len() as int) =~= shorter.subrange(
                at,
                at + parts[i].len() as int,
            ));
            if i < most.len() - 1 {
                assert(line[at + parts[i].len() as int] == shorter[at + parts[i].len() as int]);
            } else {
                assert(line[shorter.len() as int] == " "@[0]);
            }
        } else {
            assert(line.subrange(at, at + parts[i].len() as int) =~= parts[i]);
        }
    }
}

proof fn lemma_padded_starts(row: Seq<Square>, widths: Seq<nat>, parts: Seq<Seq<char>>, i: int)
    requires
        0 <= i < row.len() <= widths.len() + 1,
        parts.len() == row.len(),
        forall|k: int| 0 <= k < row.len() - 1 ==> #[trigger] parts[k] == padded(row[k], widths[k]),
        forall|k: int| 0 <= k < i ==> (#[trigger] row[k]).text.len() <= widths[k],
    ensures
        part_start(parts, i) == column_start(widths, i),
    decreases i,
{
    if i > 0 {
        lemma_padded_starts(row, widths, parts, i - 1);
        assert(parts[i - 1] == padded(row[i - 1], widths[i - 1]));
        assert(row[i - 1].text.len() <= widths[i - 1]);
    }
}

/// Columns line up. In a line whose cells fit, every column but the last holds
/// its cell padded to the column's width, at the same place in every such line,
/// with a space after it; and the last holds its cell and nothing else before the
/// end of the line.
pub proof fn columns_line_up(row: Seq<Square>, widths: Seq<nat>, i: int)
    requires
        0 <= i < row.len() <= widths.len() + 1,
        forall|k: int|
            0 <= k <= i && k < row.len() - 1 ==> (#[trigger] row[k]).text.len() <= widths[k],
    ensures
        ({
            let line = row_text(row, widths);
            let at = column_start(widths, i) as int;
            if i < row.len() - 1 {
                &&& at + widths[i] < line.len()
                &&& line.subrange(at, at + widths[i] as int) == padded(row[i], widths[i])
                &&& line[at + widths[i] as int] == ' '
            } else {
                &&& at < line.len()
                &&& line.subrange(at, line.len() as int) == row[i].text.push('\n')
            }
        }),
{
    let parts = Seq::new(
        row.len(),
        |i: int|
            if i == row.len() - 1 {
                row[i].text
            } else {
                padded(row[i], widths[i])
            },
    );
    let joined = text::joined(parts, " "@);
    let line = row_text(row, widths);
    let at = column_start(widths, i) as int;
    lemma_parts(parts, i);
    lemma_padded_starts(row, widths, parts, i);
    if i < row.len() - 1 {
        assert(row[i].text.len() <= widths[i]);
        assert(parts[i].len() == widths[i]);
        assert(line.subrange(at, at + widths[i] as int) =~= joined.subrange(
            at,
            at + widths[i] as int,
        ));
        assert(line[at + widths[i] as int] == joined[at + widths[i] as int]);
    } else {
        assert(line.subrange(at, line.len() as int) =~= joined.subrange(
            at,
            joined.len() as int,
        ).push('\n'));
    }
}

/// A padded cell is as wide as its column unless it is wider already, says what it
/// says at the side it belongs to, and is spaces otherwise.
pub proof fn padding_changes_nothing_but_the_width(square: Square, width: nat)
    ensures
        ({
            let cell = padded(square, width);
            let said = square.text.len();
            &&& square.text.len() >= width ==> cell == square.text
            &&& square.text.len() < width ==> cell.len() == width
            &&& !square.right ==> cell.take(said as int) == square.text && forall|i: int|
                said <= i < cell.len() ==> #[trigger] cell[i] == ' '
            &&& square.right ==> cell.skip(cell.len() - said) == square.text && forall|i: int|
                0 <= i < cell.len() - said ==> #[trigger] cell[i] == ' '
        }),
{
    let cell = padded(square, width);
    let said = square.text.len() as int;
    if square.text.len() >= width {
        assert(cell =~= square.text);
    }
    assert(!square.right ==> cell.take(said) =~= square.text);
    assert(square.right ==> cell.skip(cell.len() - said) =~= square.text);
}

/// The header is its labels, marked as a comment in front of the first, and the line
/// under it is dashes: as many as its column is wide, less the mark under the first,
/// and as many as its label is long under the last.
pub proof fn the_header_is_its_labels_underlined(header: Seq<Seq<char>>, widths: Seq<nat>, i: int)
    requires
        0 <= i < header.len() <= widths.len(),
    ensures
        head_squares(header).len() == header.len(),
        rule_squares(header, widths).len() == header.len(),
        i > 0 ==> head_squares(header)[i].text == header[i],
        head_squares(header)[0].text == seq!['#', ' '] + header[0],
        !head_squares(header)[i].right && !rule_squares(header, widths)[i].right,
        ({
            let rule = rule_squares(header, widths)[i].text;
            let mark: int = if i == 0 && header.len() > 1 {
                2
            } else {
                0
            };
            &&& i == header.len() - 1 ==> rule.len() == header[i].len()
            &&& 0 < i < header.len() - 1 ==> rule.len() == widths[i]
            &&& i == 0 && header.len() > 1 && widths[0] >= 2 ==> rule.len() == widths[0]
            &&& mark == 2 ==> rule[0] == '#' && rule[1] == ' '
            &&& forall|k: int| mark <= k < rule.len() ==> #[trigger] rule[k] == '-'
        }),
{
    reveal_strlit("# ");
    assert("# "@ =~= seq!['#', ' ']);
}

/// A table has a line for every row, in order; under a header, the labels and the rule
/// come first.
pub proof fn every_row_has_its_line(
    header: Seq<Seq<char>>,
    rows: Seq<Seq<Square>>,
    row: Seq<Square>,
    widths: Seq<nat>,
    floor: Option<Seq<nat>>,
)
    ensures
        rows_text(Seq::empty(), widths) == Seq::<char>::empty(),
        rows_text(rows.push(row), widths) == rows_text(rows, widths) + row_text(row, widths),
        render_text(header, rows, false, floor) == rows_text(
            rows,
            widths_of(header, rows, floor),
        ),
        ({
            let used = widths_of(header, rows, floor);
            render_text(header, rows, true, floor) == row_text(head_squares(header), used)
                + row_text(rule_squares(header, used), used) + render_text(
                header,
                rows,
                false,
                floor,
            )
        }),
{
    assert(rows.push(row).drop_last() =~= rows);
}

/// A column is no wider than it has to be: as wide as its floor, if there is one for
/// these columns, or its label, or its widest cell, whichever is most.
pub proof fn a_column_is_no_wider_than_it_has_to_be(
    header: Seq<Seq<char>>,
    rows: Seq<Seq<Square>>,
    floor: Option<Seq<nat>>,
    i: int,
)
    requires
        0 <= i < header.len(),
    ensures
        ({
            let width = widths_of(header, rows, floor)[i];
            let least = match floor {
                Some(floor) if floor.len() == header.len() => floor[i],
                _ => 0,
            };
            let label = header[i].len() + if i == 0 {
                2nat
            } else {
                0
            };
            &&& width >= least && width >= label
            &&& forall|r: int|
                0 <= r < rows.len() && i < (#[trigger] rows[r]).len() ==> rows[r][i].text.len()
                    <= width
            &&& width == least || width == label || exists|r: int|
                0 <= r < rows.len() && i < (#[trigger] rows[r]).len() && rows[r][i].text.len()
                    == width
        }),
{
    reveal_strlit("# ");
    a_column_is_as_wide_as_its_widest_cell(header, rows, floor, i);
    the_header_is_its_labels_underlined(header, widths_of(header, rows, floor), i);
    lemma_no_columns(widened(base_widths(header.len(), floor), head_squares(header)), rows);
}

} // verus!
