//! The cpus commands are pinned to, as a reader sees them.

use vstd::prelude::*;

use crate::text;

verus! {

/// These cpus written out: their numbers with commas between them.
pub open spec fn list_text(cpus: Seq<usize>) -> Seq<char> {
    text::joined(Seq::new(cpus.len(), |i: int| text::decimal(cpus[i] as nat)), ","@)
}

/// These cpus written out.
pub fn list(cpus: &[usize]) -> (r: String)
    ensures
        r@ == list_text(cpus@),
{
    let mut parts: Vec<String> = Vec::new();
    let ghost want = Seq::new(cpus@.len(), |i: int| text::decimal(cpus@[i] as nat));
    assert(text::texts(parts@) =~= want.take(0));
    for i in 0..cpus.len()
        invariant
            want == Seq::new(cpus@.len(), |i: int| text::decimal(cpus@[i] as nat)),
            text::texts(parts@) == want.take(i as int),
    {
        let ghost before = parts@;
        let part = text::write_decimal(cpus[i] as u128);
        parts.push(part);
        assert(text::texts(parts@) =~= text::texts(before).push(part@));
        assert(text::texts(parts@) =~= want.take(i + 1));
    }
    assert(want.take(cpus@.len() as int) =~= want);
    text::join(&parts, ",")
}

/// How wide a list of this many cpus is expected to come out: two digits each and
/// the commas between them, or as wide as can be counted.
pub open spec fn list_width_of(cores: nat) -> nat {
    if cores == 0 {
        0
    } else if 3 * cores - 1 <= usize::MAX {
        (3 * cores - 1) as nat
    } else {
        usize::MAX as nat
    }
}

/// How wide a list of this many cpus is expected to come out. Which cpus those
/// will be is not known before the run, so this is only a guess.
pub fn list_width(cores: usize) -> (r: usize)
    ensures
        r == list_width_of(cores as nat),
{
    if cores == 0 {
        return 0;
    }
    let width: u128 = 3 * (cores as u128) - 1;
    if width <= usize::MAX as u128 {
        width as usize
    } else {
        usize::MAX
    }
}

/// A list names every cpu in order: one by its number alone, and each after it by a
/// comma and its number.
pub proof fn a_list_names_every_cpu(cpus: Seq<usize>, cpu: usize)
    ensures
        list_text(Seq::empty()) == Seq::<char>::empty(),
        text::spells(list_text(seq![cpu]), cpu as int),
        cpus.len() > 0 ==> exists|digits: Seq<char>| #[trigger]
            text::spells(digits, cpu as int) && list_text(cpus.push(cpu)) == list_text(cpus)
                + seq![','] + digits,
{
    reveal_strlit(",");
    assert(","@ =~= seq![',']);
    let digits = text::decimal(cpu as nat);
    let parts = Seq::new(cpus.len(), |i: int| text::decimal(cpus[i] as nat));
    let one = seq![cpu];
    let more = cpus.push(cpu);
    text::a_number_reads_back(cpu as nat);
    assert(Seq::new(one.len(), |i: int| text::decimal(one[i] as nat)) =~= seq![digits]);
    assert(Seq::new(more.len(), |i: int| text::decimal(more[i] as nat)) =~= parts.push(digits));
    text::joining_puts_the_separator_between(parts, digits, ","@);
    assert(text::spells(digits, cpu as int));
}

/// Each cpu more is expected to take as much room as two digits and a comma, for as
/// far as room can be counted, and none takes none.
pub proof fn every_cpu_takes_as_much_room(cores: nat)
    ensures
        list_width_of(0) == 0,
        list_width_of(1) == 2,
        cores > 0 && 3 * cores + 2 <= usize::MAX ==> list_width_of(cores + 1) == list_width_of(
            cores,
        ) + 3,
        list_width_of(cores) <= list_width_of(cores + 1) <= usize::MAX,
{
}

} // verus!
