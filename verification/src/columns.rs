//! The columns of the table: which there are, and what each row puts in them.

use vstd::prelude::*;

use crate::cpu;
use crate::fields;
use crate::fields::{Fields, Tags};
use crate::fmt;
use crate::item::Item;
use crate::layout;
use crate::layout::{Cell, Square};
use crate::metrics;
use crate::step::{Step, Strategy};
use crate::text;

verus! {

/// Marks a command that ran after the one above it.
const SERIAL: &'static str = "|";

/// Marks a command that ran alongside the others in its step.
const BATCH: &'static str = "||";

/// The field keys and tags a block carries, in front of
/// [`METRICS`](metrics::METRICS).
///
/// Which ones there are depends on the commands, so every part of a block —
/// the header, the step line, each command line — has to agree about them. They
/// live here rather than being handed to each in turn.
#[derive(Debug)]
pub struct Columns {
    pub keys: Vec<String>,
    pub tags: Vec<String>,
    /// Whether anything in the run asks to be pinned. A run where nothing does
    /// gets no cpus column at all, rather than one of nothing but dashes.
    ///
    /// This asks what was requested and not where anything landed, because the
    /// columns are settled before the run and nothing has landed anywhere yet.
    pub cpus: bool,
}

/// What columns there are.
pub struct Shape {
    pub keys: Seq<Seq<char>>,
    pub tags: Seq<Seq<char>>,
    pub cpus: bool,
}

impl View for Columns {
    type V = Shape;

    open spec fn view(&self) -> Shape {
        Shape { keys: text::texts(self.keys@), tags: text::texts(self.tags@), cpus: self.cpus }
    }
}

/// Whether one of these steps has something at `j` of the one at `s`.
pub open spec fn holds(steps: Seq<Step>, s: int, j: int) -> bool {
    0 <= s < steps.len() && 0 <= j < steps[s].count()
}

/// Whether anything in these steps carries this field.
pub open spec fn any_field(steps: Seq<Step>, key: Seq<char>) -> bool {
    exists|s: int, j: int| #[trigger]
        holds(steps, s, j) && fields::has_key(steps[s].at(j).fields_of(), key)
}

/// Whether anything in these steps carries this tag.
pub open spec fn any_tag(steps: Seq<Step>, tag: Seq<char>) -> bool {
    exists|s: int, j: int| #[trigger]
        holds(steps, s, j) && steps[s].at(j).tags_of().contains(tag)
}

/// Whether anything in these steps asks for cores.
pub open spec fn any_cores(steps: Seq<Step>) -> bool {
    exists|s: int, j: int| #[trigger] holds(steps, s, j) && steps[s].at(j).cores_of() > 0
}

impl Shape {
    /// Whether these are the columns for these steps: the keys and the tags they
    /// carry, each in sorted order and once, and cpus if anything asks for cores.
    pub open spec fn covers(self, steps: Seq<Step>) -> bool {
        &&& text::increasing(self.keys)
        &&& text::increasing(self.tags)
        &&& forall|key: Seq<char>| #[trigger] self.keys.contains(key) <==> any_field(steps, key)
        &&& forall|tag: Seq<char>| #[trigger] self.tags.contains(tag) <==> any_tag(steps, tag)
        &&& self.cpus == any_cores(steps)
    }

    /// Every column's label.
    pub open spec fn header(self) -> Seq<Seq<char>> {
        let cpus = if self.cpus {
            seq!["cpus"@]
        } else {
            Seq::empty()
        };
        seq!["step"@, "cmd"@] + self.keys + self.tags + metrics::metric_labels().drop_last() + cpus
            + seq!["argv"@]
    }
}

/// The columns for these steps.
pub open spec fn shape_of(steps: Seq<Step>) -> Shape {
    choose|shape: Shape| shape.covers(steps)
}

/// There is only one set of columns for any steps.
pub proof fn columns_are_settled(shape: Shape, steps: Seq<Step>)
    requires
        shape.covers(steps),
    ensures
        shape == shape_of(steps),
{
    let other = shape_of(steps);
    assert(other.covers(steps));
    assert forall|key: Seq<char>| #[trigger] shape.keys.contains(key) <==> other.keys.contains(
        key,
    ) by {
        assert(shape.keys.contains(key) <==> any_field(steps, key));
    }
    assert forall|tag: Seq<char>| #[trigger] shape.tags.contains(tag) <==> other.tags.contains(
        tag,
    ) by {
        assert(shape.tags.contains(tag) <==> any_tag(steps, tag));
    }
    text::order_is_settled(shape.keys, other.keys);
    text::order_is_settled(shape.tags, other.tags);
}

impl Columns {
    /// No fields, no tags, nothing pinned.
    pub fn none() -> (r: Columns)
        ensures
            r@.keys.len() == 0,
            r@.tags.len() == 0,
            !r@.cpus,
    {
        Columns { keys: Vec::new(), tags: Vec::new(), cpus: false }
    }

    /// Another of the same.
    pub fn again(&self) -> (r: Columns)
        ensures
            r@ == self@,
    {
        Columns {
            keys: text::copied(&self.keys),
            tags: text::copied(&self.tags),
            cpus: self.cpus,
        }
    }

    /// The keys and tags these steps carry, each in sorted order. Commands and
    /// closures share the columns, since they share the table.
    pub fn of(steps: &[Step]) -> (r: Columns)
        ensures
            r@.covers(steps@),
            r@ == shape_of(steps@),
    {
        let mut keys = Tags::new();
        let mut tags = Tags::new();
        let mut cpus = false;
        for s in 0..steps.len()
            invariant
                text::increasing(keys@),
                text::increasing(tags@),
                gathered(keys@, tags@, cpus, steps@, s as int, 0),
        {
            let n = steps[s].len();
            for j in 0..n
                invariant
                    s < steps@.len(),
                    n == steps@[s as int].count(),
                    text::increasing(keys@),
                    text::increasing(tags@),
                    gathered(keys@, tags@, cpus, steps@, s as int, j as int),
            {
                let item = steps[s].item(j);
                keys = with_keys(keys, item.fields());
                tags = with_tags(tags, item.tags());
                cpus = cpus || item.cores() > 0;
                proof {
                    assert(holds(steps@, s as int, j as int));
                    lemma_one_more(steps@, s as int, j as int);
                }
            }
            proof {
                lemma_gathered_step(keys@, tags@, cpus, steps@, s as int);
            }
        }
        proof {
            lemma_gathered_all(keys@, tags@, cpus, steps@);
        }
        let r = Columns { keys: keys.into_vec(), tags: tags.into_vec(), cpus };
        proof {
            columns_are_settled(r@, steps@);
        }
        r
    }
}

/// Whether the thing at `j` of the step at `s` comes before the one at `j0` of
/// the step at `s0`.
spec fn earlier(steps: Seq<Step>, s: int, j: int, s0: int, j0: int) -> bool {
    holds(steps, s, j) && (s < s0 || s == s0 && j < j0)
}

spec fn field_by(steps: Seq<Step>, s0: int, j0: int, key: Seq<char>) -> bool {
    exists|s: int, j: int| #[trigger]
        earlier(steps, s, j, s0, j0) && fields::has_key(steps[s].at(j).fields_of(), key)
}

spec fn tag_by(steps: Seq<Step>, s0: int, j0: int, tag: Seq<char>) -> bool {
    exists|s: int, j: int| #[trigger]
        earlier(steps, s, j, s0, j0) && steps[s].at(j).tags_of().contains(tag)
}

spec fn cores_by(steps: Seq<Step>, s0: int, j0: int) -> bool {
    exists|s: int, j: int| #[trigger]
        earlier(steps, s, j, s0, j0) && steps[s].at(j).cores_of() > 0
}

/// Whether these are the keys and the tags of everything up to here.
spec fn gathered(
    keys: Seq<Seq<char>>,
    tags: Seq<Seq<char>>,
    cpus: bool,
    steps: Seq<Step>,
    s0: int,
    j0: int,
) -> bool {
    &&& forall|key: Seq<char>| #[trigger] keys.contains(key) <==> field_by(steps, s0, j0, key)
    &&& forall|tag: Seq<char>| #[trigger] tags.contains(tag) <==> tag_by(steps, s0, j0, tag)
    &&& cpus == cores_by(steps, s0, j0)
}

/// One more thing adds what it carries.
proof fn lemma_one_more(steps: Seq<Step>, s0: int, j0: int)
    requires
        holds(steps, s0, j0),
    ensures
        forall|key: Seq<char>| #[trigger]
            field_by(steps, s0, j0 + 1, key) <==> field_by(steps, s0, j0, key) || fields::has_key(
                steps[s0].at(j0).fields_of(),
                key,
            ),
        forall|tag: Seq<char>| #[trigger]
            tag_by(steps, s0, j0 + 1, tag) <==> tag_by(steps, s0, j0, tag) || steps[s0].at(
                j0,
            ).tags_of().contains(tag),
        cores_by(steps, s0, j0 + 1) <==> cores_by(steps, s0, j0) || steps[s0].at(j0).cores_of() > 0,
{
    assert(earlier(steps, s0, j0, s0, j0 + 1));
    assert forall|s: int, j: int| #[trigger]
        earlier(steps, s, j, s0, j0 + 1) <==> earlier(steps, s, j, s0, j0) || s == s0 && j == j0 by {
    }
    assert forall|key: Seq<char>| #[trigger] field_by(steps, s0, j0 + 1, key) <==> field_by(
        steps,
        s0,
        j0,
        key,
    ) || fields::has_key(steps[s0].at(j0).fields_of(), key) by {
        if field_by(steps, s0, j0, key) {
            let (s, j) = choose|s: int, j: int| #[trigger]
                earlier(steps, s, j, s0, j0) && fields::has_key(steps[s].at(j).fields_of(), key);
            assert(earlier(steps, s, j, s0, j0 + 1));
        }
    }
    assert forall|tag: Seq<char>| #[trigger] tag_by(steps, s0, j0 + 1, tag) <==> tag_by(
        steps,
        s0,
        j0,
        tag,
    ) || steps[s0].at(j0).tags_of().contains(tag) by {
        if tag_by(steps, s0, j0, tag) {
            let (s, j) = choose|s: int, j: int| #[trigger]
                earlier(steps, s, j, s0, j0) && steps[s].at(j).tags_of().contains(tag);
            assert(earlier(steps, s, j, s0, j0 + 1));
        }
    }
    if cores_by(steps, s0, j0) {
        let (s, j) = choose|s: int, j: int| #[trigger]
            earlier(steps, s, j, s0, j0) && steps[s].at(j).cores_of() > 0;
        assert(earlier(steps, s, j, s0, j0 + 1));
    }
}

/// The end of a step is the start of the next.
proof fn lemma_gathered_step(
    keys: Seq<Seq<char>>,
    tags: Seq<Seq<char>>,
    cpus: bool,
    steps: Seq<Step>,
    s0: int,
)
    requires
        0 <= s0 < steps.len(),
        gathered(keys, tags, cpus, steps, s0, steps[s0].count() as int),
    ensures
        gathered(keys, tags, cpus, steps, s0 + 1, 0),
{
    let n = steps[s0].count() as int;
    assert forall|s: int, j: int|
        #![trigger earlier(steps, s, j, s0 + 1, 0)]
        #![trigger earlier(steps, s, j, s0, n)]
        earlier(steps, s, j, s0 + 1, 0) <==> earlier(steps, s, j, s0, n) by {
    }
    assert forall|key: Seq<char>| field_by(steps, s0, n, key) <==> #[trigger] field_by(
        steps,
        s0 + 1,
        0,
        key,
    ) by {
    }
    assert forall|tag: Seq<char>| tag_by(steps, s0, n, tag) <==> #[trigger] tag_by(
        steps,
        s0 + 1,
        0,
        tag,
    ) by {
    }
    assert(cores_by(steps, s0, n) <==> cores_by(steps, s0 + 1, 0));
}

/// The end of the last step is the end of everything.
proof fn lemma_gathered_all(
    keys: Seq<Seq<char>>,
    tags: Seq<Seq<char>>,
    cpus: bool,
    steps: Seq<Step>,
)
    requires
        gathered(keys, tags, cpus, steps, steps.len() as int, 0),
    ensures
        forall|key: Seq<char>| #[trigger] keys.contains(key) <==> any_field(steps, key),
        forall|tag: Seq<char>| #[trigger] tags.contains(tag) <==> any_tag(steps, tag),
        cpus == any_cores(steps),
{
    let n = steps.len() as int;
    assert forall|s: int, j: int|
        #![trigger earlier(steps, s, j, n, 0)]
        #![trigger holds(steps, s, j)]
        earlier(steps, s, j, n, 0) <==> holds(steps, s, j) by {
    }
    assert forall|key: Seq<char>| #[trigger] field_by(steps, n, 0, key) <==> any_field(
        steps,
        key,
    ) by {
    }
    assert forall|tag: Seq<char>| #[trigger] tag_by(steps, n, 0, tag) <==> any_tag(steps, tag) by {
    }
    assert(cores_by(steps, n, 0) <==> any_cores(steps));
}

/// The keys with those of these fields among them.
fn with_keys(keys: Tags, fields: &Fields) -> (r: Tags)
    ensures
        text::increasing(r@),
        forall|key: Seq<char>| #[trigger]
            r@.contains(key) <==> keys@.contains(key) || fields::has_key(fields@, key),
{
    let mut out = keys;
    let n = fields.len();
    proof {
        use_type_invariant(&out);
    }
    for i in 0..n
        invariant
            n == fields@.len(),
            text::increasing(out@),
            forall|key: Seq<char>| #[trigger]
                out@.contains(key) <==> keys@.contains(key) || fields::has_key(
                    fields@.take(i as int),
                    key,
                ),
    {
        let ghost then = out@;
        out = out.insert(fields.key(i).to_owned());
        proof {
            let entries = fields@;
            assert forall|key: Seq<char>| #[trigger] out@.contains(key) <==> keys@.contains(key)
                || fields::has_key(entries.take(i + 1), key) by {
                assert(then.contains(key) <==> keys@.contains(key) || fields::has_key(
                    entries.take(i as int),
                    key,
                ));
                lemma_has_key_take(entries, i as int, key);
            }
        }
    }
    assert(fields@.take(n as int) =~= fields@);
    out
}

proof fn lemma_has_key_take(entries: Seq<(Seq<char>, Seq<char>)>, i: int, key: Seq<char>)
    requires
        0 <= i < entries.len(),
    ensures
        fields::has_key(entries.take(i + 1), key) <==> fields::has_key(entries.take(i), key)
            || entries[i].0 == key,
{
    let short = entries.take(i);
    let long = entries.take(i + 1);
    assert(long[i] == entries[i]);
    if fields::has_key(short, key) {
        let k = choose|k: int| 0 <= k < short.len() && (#[trigger] short[k]).0 == key;
        assert(long[k] == short[k]);
    }
    if fields::has_key(long, key) {
        let k = choose|k: int| 0 <= k < long.len() && (#[trigger] long[k]).0 == key;
        if k < i {
            assert(short[k] == long[k]);
        }
    }
}

/// The tags with these among them.
fn with_tags(tags: Tags, more: &Tags) -> (r: Tags)
    ensures
        text::increasing(r@),
        forall|tag: Seq<char>| #[trigger]
            r@.contains(tag) <==> tags@.contains(tag) || more@.contains(tag),
{
    let mut out = tags;
    let n = more.len();
    proof {
        use_type_invariant(&out);
    }
    for i in 0..n
        invariant
            n == more@.len(),
            text::increasing(out@),
            forall|tag: Seq<char>| #[trigger]
                out@.contains(tag) <==> tags@.contains(tag) || more@.take(i as int).contains(tag),
    {
        let ghost then = out@;
        out = out.insert(more.tag(i).to_owned());
        proof {
            let all = more@;
            assert forall|tag: Seq<char>| #[trigger] out@.contains(tag) <==> tags@.contains(tag)
                || all.take(i + 1).contains(tag) by {
                assert(then.contains(tag) <==> tags@.contains(tag) || all.take(i as int).contains(
                    tag,
                ));
                assert(all.take(i + 1) =~= all.take(i as int).push(all[i as int]));
                lemma_push_contains(all.take(i as int), all[i as int], tag);
            }
        }
    }
    assert(more@.take(n as int) =~= more@);
    out
}

proof fn lemma_push_contains(s: Seq<Seq<char>>, last: Seq<char>, x: Seq<char>)
    ensures
        s.push(last).contains(x) <==> s.contains(x) || x == last,
{
    assert(s.push(last)[s.len() as int] == last);
    if s.contains(x) {
        let k = choose|k: int| 0 <= k < s.len() && s[k] == x;
        assert(s.push(last)[k] == x);
    }
}

/// What the cpus column says of something that held these.
pub open spec fn cpus_cell(cpus: Option<Seq<usize>>) -> Seq<char> {
    match cpus {
        Some(cpus) if cpus.len() > 0 => cpu::list_text(cpus),
        _ => "-"@,
    }
}

impl Shape {
    /// A row with its cpus cell slotted in second to last, if there is such a
    /// column.
    pub open spec fn with_cpus(self, row: Seq<Square>, cpus: Option<Seq<usize>>) -> Seq<Square> {
        if self.cpus {
            row.insert(row.len() - 1, layout::left(cpus_cell(cpus)))
        } else {
            row
        }
    }

    /// The field and tag cells.
    pub open spec fn key_squares(
        self,
        entries: Seq<(Seq<char>, Seq<char>)>,
        tags: Seq<Seq<char>>,
    ) -> Seq<Square> {
        Seq::new(
            self.keys.len(),
            |i: int|
                layout::left(
                    if fields::has_key(entries, self.keys[i]) {
                        fields::value_of(entries, self.keys[i])
                    } else {
                        "-"@
                    },
                ),
        ) + Seq::new(
            self.tags.len(),
            |i: int|
                layout::left(
                    if tags.contains(self.tags[i]) {
                        "x"@
                    } else {
                        "-"@
                    },
                ),
        )
    }

    /// A step's own line.
    pub open spec fn step_row(self, step: Step) -> Seq<Square> {
        self.with_cpus(
            seq![layout::left(step.label_text()), layout::left("-"@)] + Seq::new(
                self.keys.len() + self.tags.len(),
                |i: int| layout::left("-"@),
            ) + metrics::step_figures(step).squares(),
            None,
        )
    }

    /// The line of one item.
    pub open spec fn row(self, first: Square, item: Item<'_>) -> Seq<Square> {
        self.with_cpus(
            seq![first, layout::left(item.label_text())] + self.key_squares(
                item.fields_of(),
                item.tags_of(),
            ) + metrics::item_figures(item).squares(),
            item.cpus_of(),
        )
    }

    /// One step's rows: its own line, then a line per command. A step of one
    /// would just repeat itself, so it gets no line of its own and keeps the
    /// first column instead, with its command filling in the rest.
    pub open spec fn block(self, step: Step) -> Seq<Seq<Square>> {
        if step.count() == 1 {
            seq![self.row(layout::left(step.label_text()), step.at(0))]
        } else {
            seq![self.step_row(step)] + Seq::new(
                step.count(),
                |j: int| self.row(layout::right(marker(step)), step.at(j)),
            )
        }
    }
}

/// What stands in the first column of a command's line, by whether it ran after
/// the one above it or alongside the others in its step.
pub open spec fn marker(step: Step) -> Seq<char> {
    match step.strategy_of() {
        Some(Strategy::Batched { .. }) => "||"@,
        _ => "|"@,
    }
}

/// Every row has a cell for every column, whatever it is a row of.
pub proof fn every_row_has_every_column(shape: Shape, step: Step, first: Square, item: Item<'_>)
    ensures
        shape.step_row(step).len() == shape.header().len(),
        shape.row(first, item).len() == shape.header().len(),
        shape.header().len() >= 10,
{
}

/// A step of one takes one line, with its name on it; any other takes a line of
/// its own and one for each thing it holds, in the order it holds them.
pub proof fn a_step_of_one_takes_one_line(shape: Shape, step: Step)
    ensures
        shape.block(step).len() == if step.count() == 1 {
            1
        } else {
            step.count() + 1
        },
        step.count() == 1 ==> shape.block(step)[0][0] == layout::left(step.label_text()),
        step.count() != 1 ==> shape.block(step)[0][0] == layout::left(step.label_text())
            && forall|j: int|
            0 <= j < step.count() ==> (#[trigger] shape.block(step)[j + 1])[1] == layout::left(
                step.at(j).label_text(),
            ),
{
}

impl Columns {
    pub fn header(&self) -> (r: Vec<String>)
        ensures
            text::texts(r@) == self@.header(),
            r@.len() == self@.header().len(),
    {
        let mut header: Vec<String> = Vec::new();
        header.push("step".to_owned());
        header.push("cmd".to_owned());
        assert(text::texts(header@) =~= seq!["step"@, "cmd"@]);
        extend(&mut header, &self.keys);
        extend(&mut header, &self.tags);
        let mut metrics = metrics::metric_names();
        assert(text::texts(metrics@).len() == metrics@.len());
        let argv = metrics.pop();
        assert(text::texts(metrics@) =~= metrics::metric_labels().drop_last());
        assert(argv matches Some(label) && label@ == "argv"@) by {
            assert(metrics::metric_labels()[7] == "argv"@);
        }
        extend(&mut header, &metrics);
        let ghost before = header@;
        if self.cpus {
            header.push("cpus".to_owned());
            assert(text::texts(header@) =~= text::texts(before).push("cpus"@));
        }
        let ghost most = header@;
        if let Some(label) = argv {
            header.push(label);
            assert(text::texts(header@) =~= text::texts(most).push("argv"@));
        }
        assert(text::texts(header@) =~= self@.header());
        assert(text::texts(header@).len() == header@.len());
        header
    }

    /// Slots the cpus cell into a row that is otherwise finished, second to
    /// last. It sits there rather than out with the fields because the width
    /// reserved for it is only a guess, and everything a wider one shifts along
    /// is then just argv, which is last and unpadded anyway.
    fn put_cpus(&self, cells: &mut Vec<Cell>, cpus: Option<&[usize]>)
        requires
            old(cells)@.len() > 0,
        ensures
            layout::squares(final(cells)@) == self@.with_cpus(
                layout::squares(old(cells)@),
                match cpus {
                    Some(cpus) => Some(cpus@),
                    None => None,
                },
            ),
    {
        if !self.cpus {
            return ;
        }
        // empty rather than absent means it asked for cpus and never got as far
        // as holding any, which reads the same as having none to report
        let text = match cpus {
            Some(cpus) if cpus.len() > 0 => cpu::list(cpus),
            _ => fmt::dash(),
        };
        let at = cells.len() - 1;
        cells.insert(at, Cell { text, right: false });
        assert(layout::squares(cells@) =~= layout::squares(old(cells)@).insert(
            at as int,
            layout::left(text@),
        ));
    }

    /// The field and tag cells, which every row carries the same way.
    fn key_cells(&self, entries: &Fields, tags: &Tags) -> (r: Vec<Cell>)
        ensures
            layout::squares(r@) == self@.key_squares(entries@, tags@),
    {
        let ghost want = self@.key_squares(entries@, tags@);
        let mut cells: Vec<Cell> = Vec::new();
        for i in 0..self.keys.len()
            invariant
                want == self@.key_squares(entries@, tags@),
                layout::squares(cells@) == want.take(i as int),
        {
            let ghost before = cells@;
            cells.push(
                Cell::left(
                    match entries.get(self.keys[i].as_str()) {
                        Some(value) => value,
                        None => "-",
                    },
                ),
            );
            assert(layout::squares(cells@) =~= layout::squares(before).push(cells@.last()@));
            assert(self@.keys[i as int] == self.keys@[i as int]@);
            assert(layout::squares(cells@) =~= want.take(i + 1));
        }
        let n = self.keys.len();
        for i in 0..self.tags.len()
            invariant
                n == self.keys@.len(),
                want == self@.key_squares(entries@, tags@),
                layout::squares(cells@) == want.take(n + i),
        {
            let ghost before = cells@;
            cells.push(
                Cell::left(
                    if tags.contains(self.tags[i].as_str()) {
                        "x"
                    } else {
                        "-"
                    },
                ),
            );
            assert(layout::squares(cells@) =~= layout::squares(before).push(cells@.last()@));
            assert(self@.tags[i as int] == self.tags@[i as int]@);
            assert(layout::squares(cells@) =~= want.take(n + i + 1));
        }
        assert(layout::squares(cells@) =~= want);
        cells
    }
}

fn extend(out: &mut Vec<String>, more: &Vec<String>)
    ensures
        text::texts(final(out)@) == text::texts(old(out)@) + text::texts(more@),
{
    for i in 0..more.len()
        invariant
            text::texts(out@) == text::texts(old(out)@) + text::texts(more@).take(i as int),
    {
        let ghost before = out@;
        out.push(more[i].clone());
        assert(text::texts(out@) =~= text::texts(before).push(more@[i as int]@));
        assert(text::texts(out@) =~= text::texts(old(out)@) + text::texts(more@).take(i + 1));
    }
    assert(text::texts(more@).take(more@.len() as int) =~= text::texts(more@));
}

fn extend_cells(out: &mut Vec<Cell>, more: Vec<Cell>)
    ensures
        layout::squares(final(out)@) == layout::squares(old(out)@) + layout::squares(more@),
        final(out)@.len() == old(out)@.len() + more@.len(),
{
    let ghost end = layout::squares(more@);
    let mut more = more;
    out.append(&mut more);
    assert(layout::squares(out@) =~= layout::squares(old(out)@) + end);
}

impl Columns {
    /// The step's own line: measured wall clock, and its commands' CPU added up.
    fn step_row(&self, step: &Step) -> (r: Vec<Cell>)
        ensures
            layout::squares(r@) == self@.step_row(*step),
    {
        let mut cells: Vec<Cell> = Vec::new();
        cells.push(Cell { text: step.label(), right: false });
        cells.push(Cell::left("-"));
        assert(layout::squares(cells@) =~= seq![
            layout::left(step.label_text()),
            layout::left("-"@),
        ]);
        self.dashes(&mut cells);
        extend_cells(&mut cells, metrics::step_metrics(step).cells());
        // the cpus a whole step held is not the cpus any one command held, so
        // like exit and argv beside it, the step line leaves it alone
        self.put_cpus(&mut cells, None);
        cells
    }

    /// A dash for every field and tag.
    fn dashes(&self, cells: &mut Vec<Cell>)
        ensures
            layout::squares(final(cells)@) == layout::squares(old(cells)@) + Seq::new(
                self@.keys.len() + self@.tags.len(),
                |i: int| layout::left("-"@),
            ),
    {
        for i in 0..self.keys.len()
            invariant
                layout::squares(cells@) == layout::squares(old(cells)@) + Seq::new(
                    i as nat,
                    |i: int| layout::left("-"@),
                ),
        {
            let ghost before = cells@;
            cells.push(Cell::left("-"));
            assert(layout::squares(cells@) =~= layout::squares(before).push(layout::left("-"@)));
            assert(layout::squares(cells@) =~= layout::squares(old(cells)@) + Seq::new(
                (i + 1) as nat,
                |i: int| layout::left("-"@),
            ));
        }
        let n = self.keys.len();
        for i in 0..self.tags.len()
            invariant
                layout::squares(cells@) == layout::squares(old(cells)@) + Seq::new(
                    (n + i) as nat,
                    |i: int| layout::left("-"@),
                ),
        {
            let ghost before = cells@;
            cells.push(Cell::left("-"));
            assert(layout::squares(cells@) =~= layout::squares(before).push(layout::left("-"@)));
            assert(layout::squares(cells@) =~= layout::squares(old(cells)@) + Seq::new(
                (n + i + 1) as nat,
                |i: int| layout::left("-"@),
            ));
        }
    }

    /// One item's line, whichever kind it is. `first` is the step name for a
    /// collapsed step of one, and a right-aligned `|` or `||` otherwise. The
    /// columns a closure has no answer for come back `None` from [`Item`] and
    /// print as `-`.
    fn row(&self, first: Cell, item: &Item<'_>) -> (r: Vec<Cell>)
        ensures
            layout::squares(r@) == self@.row(first@, *item),
    {
        let mut cells: Vec<Cell> = Vec::new();
        cells.push(first);
        cells.push(Cell { text: item.label(), right: false });
        assert(layout::squares(cells@) =~= seq![first@, layout::left(item.label_text())]);
        extend_cells(&mut cells, self.key_cells(item.fields(), item.tags()));
        extend_cells(&mut cells, metrics::item_metrics(item).cells());
        self.put_cpus(&mut cells, item.cpus());
        cells
    }

    /// One step's rows: its own line, then a line per command.
    pub fn block(&self, step: &Step) -> (r: Vec<Vec<Cell>>)
        ensures
            layout::grid(r@) == self@.block(*step),
    {
        let mut rows: Vec<Vec<Cell>> = Vec::new();
        let n = step.len();
        // a step of one would just repeat itself, so it gets no line of its own
        // and keeps the first column instead, with its command filling in the rest
        let first = if n == 1 {
            Cell { text: step.label(), right: false }
        } else {
            rows.push(self.step_row(step));
            match step.strategy() {
                Some(Strategy::Batched { .. }) => Cell::right(BATCH),
                _ => Cell::right(SERIAL),
            }
        };
        let ghost want = self@.block(*step);
        let ghost top = rows@.len();
        assert(layout::grid(rows@) =~= want.take(top as int));
        for j in 0..n
            invariant
                n == step.count(),
                want == self@.block(*step),
                first@ == if n == 1 {
                    layout::left(step.label_text())
                } else {
                    layout::right(marker(*step))
                },
                top == if n == 1 {
                    0nat
                } else {
                    1
                },
                layout::grid(rows@) == want.take(top + j),
        {
            let ghost before = rows@;
            let item = step.item(j);
            let row = self.row(first.again(), &item);
            rows.push(row);
            assert(layout::grid(rows@) =~= layout::grid(before).push(layout::squares(row@)));
            assert(layout::grid(rows@) =~= want.take(top + j + 1));
        }
        assert(layout::grid(rows@) =~= want);
        rows
    }
}

/// The widest list of cpus any of the first `n` things in this step is expected
/// to come out as, or `most` if that is wider.
pub open spec fn cpu_width_by(step: Step, n: int, most: nat) -> nat
    decreases n,
{
    if n <= 0 {
        most
    } else {
        layout::larger(cpu_width_by(step, n - 1, most), cpu::list_width_of(step.at(n - 1).cores_of()))
    }
}

/// The widest list of cpus anything in these steps is expected to come out as.
pub open spec fn cpu_width(steps: Seq<Step>) -> nat
    decreases steps.len(),
{
    if steps.len() == 0 {
        0
    } else {
        cpu_width_by(
            steps.last(),
            steps.last().count() as int,
            cpu_width(steps.drop_last()),
        )
    }
}

/// Every row of these steps' blocks.
pub open spec fn blocks(shape: Shape, steps: Seq<Step>) -> Seq<Seq<Square>>
    decreases steps.len(),
{
    if steps.len() == 0 {
        Seq::empty()
    } else {
        blocks(shape, steps.drop_last()) + shape.block(steps.last())
    }
}

impl Shape {
    /// How wide each column has to be for every block to fit under one header.
    /// Every cpus cell still says `-`, since nothing has been given any cpus
    /// yet, so that column is sized for the widest list anything will get.
    pub open spec fn measure(self, steps: Seq<Step>) -> Seq<nat> {
        let widths = layout::widths_of(self.header(), blocks(self, steps), None);
        if self.cpus {
            widths.update(
                widths.len() - 2,
                layout::larger(widths[widths.len() - 2], cpu_width(steps)),
            )
        } else {
            widths
        }
    }
}

proof fn lemma_widest(step: Step, n: int, most: nat)
    ensures
        most <= cpu_width_by(step, n, most),
        forall|j: int|
            0 <= j < n ==> cpu::list_width_of(#[trigger] step.at(j).cores_of()) <= cpu_width_by(
                step,
                n,
                most,
            ),
        cpu_width_by(step, n, most) == most || exists|j: int|
            0 <= j < n && cpu_width_by(step, n, most) == cpu::list_width_of(
                #[trigger] step.at(j).cores_of(),
            ),
    decreases n,
{
    if n > 0 {
        lemma_widest(step, n - 1, most);
        if cpu_width_by(step, n, most) != cpu_width_by(step, n - 1, most) {
            assert(cpu_width_by(step, n, most) == cpu::list_width_of(step.at(n - 1).cores_of()));
        }
    }
}

/// The widest list anything in these steps is expected to come out as is at least
/// as wide as every one of them, and as wide as one of them unless all are empty.
/// It goes by what each item asks for and nothing else, so by any step there is.
pub proof fn the_widest_list_is_one_of_them(steps: Seq<Step>)
    ensures
        forall|s: int, j: int|
            0 <= s < steps.len() && 0 <= j < steps[s].count() ==> cpu::list_width_of(
                #[trigger] steps[s].at(j).cores_of(),
            ) <= cpu_width(steps),
        cpu_width(steps) > 0 ==> exists|s: int, j: int|
            0 <= s < steps.len() && 0 <= j < steps[s].count() && cpu_width(steps)
                == cpu::list_width_of(#[trigger] steps[s].at(j).cores_of()),
    decreases steps.len(),
{
    if steps.len() > 0 {
        let most = steps.drop_last();
        let last = steps.last();
        let at = steps.len() - 1;
        the_widest_list_is_one_of_them(most);
        lemma_widest(last, last.count() as int, cpu_width(most));
        assert forall|s: int, j: int|
            0 <= s < steps.len() && 0 <= j < steps[s].count() implies cpu::list_width_of(
            #[trigger] steps[s].at(j).cores_of(),
        ) <= cpu_width(steps) by {
            if s < at {
                assert(most[s] == steps[s]);
                assert(cpu::list_width_of(most[s].at(j).cores_of()) <= cpu_width(most));
            }
        }
        if cpu_width(steps) > 0 {
            if cpu_width(steps) == cpu_width(most) {
                let (s, j) = choose|s: int, j: int|
                    0 <= s < most.len() && 0 <= j < most[s].count() && cpu_width(most)
                        == cpu::list_width_of(#[trigger] most[s].at(j).cores_of());
                assert(cpu_width(steps) == cpu::list_width_of(steps[s].at(j).cores_of()));
            } else {
                let j = choose|j: int|
                    0 <= j < last.count() && cpu_width(steps) == cpu::list_width_of(
                        #[trigger] last.at(j).cores_of(),
                    );
                assert(cpu_width(steps) == cpu::list_width_of(steps[at].at(j).cores_of()));
            }
        }
    }
}

pub proof fn lemma_block_fits(shape: Shape, step: Step)
    ensures
        layout::rows_fit(shape.block(step), shape.header().len()),
        forall|r: int|
            0 <= r < shape.block(step).len() ==> (#[trigger] shape.block(step)[r]).len()
                == shape.header().len(),
{
    let block = shape.block(step);
    assert(shape.header().len() >= 10);
    assert forall|r: int| 0 <= r < block.len() implies (#[trigger] block[r]).len()
        == shape.header().len() by {
        every_row_has_every_column(shape, step, layout::left(step.label_text()), step.at(0));
        every_row_has_every_column(shape, step, layout::right(marker(step)), step.at(r - 1));
    }
}

impl Columns {
    /// How wide each column has to be for every block to fit under one header.
    ///
    /// Everything but the numbers is already known before the run, and the
    /// headings above the numbers are wider than the numbers usually are.
    pub fn measure(&self, steps: &[Step]) -> (r: Vec<usize>)
        ensures
            layout::sizes(r@) == self@.measure(steps@),
    {
        let header = self.header();
        let ghost labels = self@.header();
        assert(labels.len() >= 10);
        let head = layout::head_cells(&header);
        let mut widths = layout::zeros(header.len());
        assert(layout::squares(head@).len() == head@.len());
        assert(layout::sizes(widths@).len() == widths@.len());
        layout::widen(&mut widths, &head);
        let ghost base = layout::sizes(widths@);
        assert(base.len() == widths@.len());
        let mut most: usize = 0;
        assert(blocks(self@, steps@.take(0)) =~= Seq::empty());
        for s in 0..steps.len()
            invariant
                labels == self@.header(),
                base.len() == labels.len(),
                widths@.len() == labels.len(),
                layout::sizes(widths@) == layout::widened_by_all(
                    base,
                    blocks(self@, steps@.take(s as int)),
                ),
                most == cpu_width(steps@.take(s as int)),
        {
            let step = &steps[s];
            let ghost past = blocks(self@, steps@.take(s as int));
            let rows = self.block(step);
            let ghost block = self@.block(*step);
            proof {
                lemma_block_fits(self@, *step);
                assert(layout::grid(rows@).len() == rows@.len());
                assert(past + block.take(0) =~= past);
            }
            for r in 0..rows.len()
                invariant
                    labels == self@.header(),
                    widths@.len() == labels.len(),
                    base.len() == labels.len(),
                    block == layout::grid(rows@),
                    layout::rows_fit(block, labels.len()),
                    layout::sizes(widths@) == layout::widened_by_all(
                        base,
                        past + block.take(r as int),
                    ),
            {
                assert(block[r as int] == layout::squares(rows@[r as int]@));
                layout::widen(&mut widths, &rows[r]);
                proof {
                    assert((past + block.take(r + 1)).drop_last() =~= past + block.take(r as int));
                    assert(layout::sizes(widths@).len() == widths@.len());
                }
            }
            let n = step.len();
            let ghost then = most as nat;
            for j in 0..n
                invariant
                    n == step.count(),
                    most == cpu_width_by(*step, j as int, then),
            {
                let width = cpu::list_width(step.item(j).cores());
                if most < width {
                    most = width;
                }
            }
            proof {
                assert(block.take(block.len() as int) =~= block);
                assert(steps@.take(s + 1).drop_last() =~= steps@.take(s as int));
            }
        }
        assert(steps@.take(steps@.len() as int) =~= steps@);
        // every cpus cell above still says `-`, since nothing has been given any
        // cpus yet. how many each command gets is settled though, so the column
        // can be sized for the widest of those rather than for a dash
        if self.cpus {
            let ghost then = layout::sizes(widths@);
            let at = widths.len() - 2;
            if widths[at] < most {
                widths.set(at, most);
            }
            assert(layout::sizes(widths@) =~= then.update(
                at as int,
                layout::larger(then[at as int], most as nat),
            ));
        }
        widths
    }
}

/// The columns are the step, the command, a column for every field and every tag, and
/// the figures, with the cpus, if there is a column for them, just before the line.
pub proof fn every_column_has_its_label(shape: Shape, i: int)
    ensures
        ({
            let header = shape.header();
            let k = shape.keys.len() as int;
            let t = shape.tags.len() as int;
            let extra: int = if shape.cpus {
                1
            } else {
                0
            };
            &&& header.len() == 2 + k + t + 8 + extra
            &&& header[0] == "step"@ && header[1] == "cmd"@
            &&& 0 <= i < k ==> header[2 + i] == shape.keys[i]
            &&& 0 <= i < t ==> header[2 + k + i] == shape.tags[i]
            &&& 0 <= i < 7 ==> header[2 + k + t + i] == metrics::metric_labels()[i]
            &&& shape.cpus ==> header[header.len() - 2] == "cpus"@
            &&& header.last() == "argv"@
        }),
{
    metrics::every_figure_stands_under_its_label(
        metrics::Figures {
            wall: None,
            user: None,
            sys: None,
            max_rss_kb: None,
            exit: None,
            status: None,
            argv: None,
        },
    );
}

/// Every cell stands under its label: what an item is called under the command, what
/// it carries under the field it carries it for, a mark under every tag it has, its
/// figures under theirs, the cpus it held under the cpus, and a dash wherever it has
/// nothing to say.
pub proof fn every_cell_stands_under_its_label(shape: Shape, first: Square, item: Item<'_>, i: int)
    requires
        text::increasing(fields::keys(item.fields_of())),
    ensures
        ({
            let row = shape.row(first, item);
            let k = shape.keys.len() as int;
            let t = shape.tags.len() as int;
            let figures = metrics::item_figures(item).squares();
            &&& row.len() == shape.header().len()
            &&& row[0] == first
            &&& row[1].text == item.label_text()
            &&& 0 <= i < k ==> forall|e: int|
                0 <= e < item.fields_of().len() && (#[trigger] item.fields_of()[e]).0
                    == shape.keys[i] ==> row[2 + i].text == item.fields_of()[e].1
            &&& 0 <= i < k && (forall|e: int|
                0 <= e < item.fields_of().len() ==> (#[trigger] item.fields_of()[e]).0
                    != shape.keys[i]) ==> row[2 + i].text == "-"@
            &&& 0 <= i < t ==> row[2 + k + i].text == if item.tags_of().contains(shape.tags[i]) {
                "x"@
            } else {
                "-"@
            }
            &&& 0 <= i < 7 ==> row[2 + k + t + i] == figures[i]
            &&& row.last() == figures[7]
            &&& shape.cpus ==> match item {
                Item::Cmd(cmd) if cmd.cpus@.len() > 0 => row[row.len() - 2].text
                    == cpu::list_text(cmd.cpus@),
                _ => row[row.len() - 2].text == "-"@,
            }
        }),
{
    every_row_has_every_column(shape, arbitrary(), first, item);
    let entries = item.fields_of();
    let row = shape.row(first, item);
    assert forall|e: int|
        0 <= i < shape.keys.len() && 0 <= e < entries.len() && (#[trigger] entries[e]).0
            == shape.keys[i] implies row[2 + i].text == entries[e].1 by {
        fields::a_key_has_the_value_beside_it(entries, e, entries[e].0);
    }
}

/// A step's own line has what it is called, its own figures, and a dash for everything
/// only an item has.
pub proof fn a_step_s_own_line_is_dashes_but_for_its_figures(shape: Shape, step: Step, i: int)
    ensures
        ({
            let row = shape.step_row(step);
            let k = shape.keys.len() + shape.tags.len() as int;
            let figures = metrics::step_figures(step).squares();
            &&& row.len() == shape.header().len()
            &&& row[0].text == step.label_text() && !row[0].right
            &&& row[1].text == "-"@
            &&& 0 <= i < k ==> row[2 + i].text == "-"@
            &&& 0 <= i < 7 ==> row[2 + k + i] == figures[i]
            &&& row.last() == figures[7]
            &&& shape.cpus ==> row[row.len() - 2].text == "-"@
        }),
{
}

/// The items of a step with a line of its own come under it in order, each with a mark
/// on the right of the first column: two strokes if they ran together, one if they did
/// not. The only item of a step of one has the step's name there instead.
pub proof fn items_are_marked_by_how_they_ran(shape: Shape, step: Step, j: int)
    requires
        0 <= j < step.count(),
    ensures
        step.count() == 1 ==> shape.block(step) == seq![
            shape.row(layout::left(step.label_text()), step.at(0)),
        ],
        step.count() != 1 ==> {
            let strokes = if step.items is Cmds && step.items->strategy is Batched {
                seq!['|', '|']
            } else {
                seq!['|']
            };
            &&& shape.block(step)[0] == shape.step_row(step)
            &&& shape.block(step)[j + 1] == shape.row(
                Square { text: strokes, right: true },
                step.at(j),
            )
        },
{
    reveal_strlit("||");
    reveal_strlit("|");
    assert("||"@ =~= seq!['|', '|']);
    assert("|"@ =~= seq!['|']);
}

/// There is a column for a field or a tag exactly when something carries it, one for
/// cpus exactly when something asks for cores, and the columns come in order.
pub proof fn columns_are_what_the_steps_carry(shape: Shape, steps: Seq<Step>, key: Seq<char>)
    requires
        shape.covers(steps),
    ensures
        text::increasing(shape.keys) && text::increasing(shape.tags),
        shape.keys.contains(key) <==> exists|s: int, j: int, e: int|
            #![trigger steps[s].at(j).fields_of()[e]]
            0 <= s < steps.len() && 0 <= j < steps[s].count() && 0 <= e < steps[s].at(
                j,
            ).fields_of().len() && steps[s].at(j).fields_of()[e].0 == key,
        shape.tags.contains(key) <==> exists|s: int, j: int|
            #![trigger steps[s].at(j)]
            0 <= s < steps.len() && 0 <= j < steps[s].count() && steps[s].at(
                j,
            ).tags_of().contains(key),
        shape.cpus <==> exists|s: int, j: int|
            #![trigger steps[s].at(j)]
            0 <= s < steps.len() && 0 <= j < steps[s].count() && steps[s].at(j).cores_of() > 0,
{
    if shape.keys.contains(key) {
        let (s, j) = choose|s: int, j: int| #[trigger]
            holds(steps, s, j) && fields::has_key(steps[s].at(j).fields_of(), key);
        let entries = steps[s].at(j).fields_of();
        let e = choose|e: int| 0 <= e < entries.len() && (#[trigger] entries[e]).0 == key;
        assert(steps[s].at(j).fields_of()[e].0 == key);
    }
    if exists|s: int, j: int, e: int|
        #![trigger steps[s].at(j).fields_of()[e]]
        0 <= s < steps.len() && 0 <= j < steps[s].count() && 0 <= e < steps[s].at(
            j,
        ).fields_of().len() && steps[s].at(j).fields_of()[e].0 == key {
        let (s, j, e) = choose|s: int, j: int, e: int|
            #![trigger steps[s].at(j).fields_of()[e]]
            0 <= s < steps.len() && 0 <= j < steps[s].count() && 0 <= e < steps[s].at(
                j,
            ).fields_of().len() && steps[s].at(j).fields_of()[e].0 == key;
        assert(holds(steps, s, j));
        assert(fields::has_key(steps[s].at(j).fields_of(), key));
        assert(any_field(steps, key));
    }
    if shape.tags.contains(key) {
        let (s, j) = choose|s: int, j: int| #[trigger]
            holds(steps, s, j) && steps[s].at(j).tags_of().contains(key);
        assert(steps[s].at(j).tags_of().contains(key));
    }
    if exists|s: int, j: int|
        #![trigger steps[s].at(j)]
        0 <= s < steps.len() && 0 <= j < steps[s].count() && steps[s].at(j).tags_of().contains(
            key,
        ) {
        let (s, j) = choose|s: int, j: int|
            #![trigger steps[s].at(j)]
            0 <= s < steps.len() && 0 <= j < steps[s].count() && steps[s].at(j).tags_of().contains(
                key,
            );
        assert(holds(steps, s, j));
        assert(any_tag(steps, key));
    }
    if shape.cpus {
        let (s, j) = choose|s: int, j: int| #[trigger]
            holds(steps, s, j) && steps[s].at(j).cores_of() > 0;
        assert(steps[s].at(j).cores_of() > 0);
    }
    if exists|s: int, j: int|
        #![trigger steps[s].at(j)]
        0 <= s < steps.len() && 0 <= j < steps[s].count() && steps[s].at(j).cores_of() > 0 {
        let (s, j) = choose|s: int, j: int|
            #![trigger steps[s].at(j)]
            0 <= s < steps.len() && 0 <= j < steps[s].count() && steps[s].at(j).cores_of() > 0;
        assert(holds(steps, s, j));
        assert(any_cores(steps));
    }
}

/// The blocks of steps come one after another, in the order of the steps.
pub proof fn blocks_come_in_order(shape: Shape, steps: Seq<Step>, step: Step)
    ensures
        blocks(shape, Seq::empty()).len() == 0,
        blocks(shape, steps.push(step)) == blocks(shape, steps) + shape.block(step),
{
    assert(steps.push(step).drop_last() =~= steps);
}

/// What is measured before a run holds everything known by then: no column is
/// narrower than its label or any cell, and none wider than the widest of those, but
/// for the cpus, which get the room the widest list is expected to need.
pub proof fn what_is_measured_holds_everything(shape: Shape, steps: Seq<Step>, i: int)
    requires
        0 <= i < shape.header().len(),
    ensures
        ({
            let width = shape.measure(steps)[i];
            let rows = blocks(shape, steps);
            let needed = layout::widths_of(shape.header(), rows, None)[i];
            let cpus = shape.cpus && i == shape.header().len() - 2;
            &&& shape.measure(steps).len() == shape.header().len()
            &&& !cpus ==> width == needed
            &&& cpus ==> width >= needed && width >= cpu_width(steps) && (width == needed || width
                == cpu_width(steps))
        }),
{
    layout::a_column_is_as_wide_as_its_widest_cell(
        shape.header(),
        blocks(shape, steps),
        None,
        i,
    );
}

} // verus!
