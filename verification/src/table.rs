//! The frequency table: the distinct lines of one source, each with its
//! record, listed in the order in which they were first seen.

use crate::comparison::Comparison;
use crate::comparison::Kind;
use vstd::hash_map::StringHashMap;
use vstd::prelude::*;

verus! {

/// A mapping from line value to [`Comparison`], one instance per source.
///
/// The table is modelled by two values: its view, which is the mapping, and
/// [`FrequencyTable::order`], the sequence in which its lines are listed.
pub struct FrequencyTable {
    lines: Vec<String>,
    entries: StringHashMap<Comparison>,
}

impl View for FrequencyTable {
    type V = Map<Seq<char>, Comparison>;

    closed spec fn view(&self) -> Map<Seq<char>, Comparison> {
        self.entries@
    }
}

/// The record that `table` holds for `line`, if any.
pub open spec fn lookup(table: Map<Seq<char>, Comparison>, line: Seq<char>) -> Option<
    Comparison,
> {
    if table.contains_key(line) {
        Some(table[line])
    } else {
        None
    }
}

/// The count that `table` holds for `line`, zero where it holds none.
pub open spec fn count_in(table: Map<Seq<char>, Comparison>, line: Seq<char>) -> nat {
    if table.contains_key(line) {
        table[line].count as nat
    } else {
        0
    }
}

/// Whether every count of `table` is positive.
pub open spec fn positive(table: Map<Seq<char>, Comparison>) -> bool {
    forall|line: Seq<char>| #[trigger] table.contains_key(line) ==> table[line].count > 0
}

/// The listing after `line` has been seen: a line not yet listed goes last.
pub open spec fn listed(order: Seq<Seq<char>>, line: Seq<char>) -> Seq<Seq<char>> {
    if order.contains(line) {
        order
    } else {
        order.push(line)
    }
}

/// The mapping after one more occurrence of `line` has been counted: a line
/// that it holds keeps its classification, a new line starts out with the
/// count 1.
pub open spec fn recorded(table: Map<Seq<char>, Comparison>, line: Seq<char>) -> Map<
    Seq<char>,
    Comparison,
> {
    match lookup(table, line) {
        Some(held) => table.insert(
            line,
            Comparison { count: (held.count + 1) as u32, kind: held.kind },
        ),
        None => table.insert(line, Comparison { count: 1, kind: Kind::Only }),
    }
}

/// The mapping without the lines whose count is zero.
pub open spec fn pruned(table: Map<Seq<char>, Comparison>) -> Map<Seq<char>, Comparison> {
    Map::new(
        |line: Seq<char>| table.contains_key(line) && table[line].count != 0,
        |line: Seq<char>| table[line],
    )
}

/// The lines of `order` that `table` holds, in their order.
pub open spec fn kept(order: Seq<Seq<char>>, table: Map<Seq<char>, Comparison>) -> Seq<
    Seq<char>,
> {
    order.filter(|line: Seq<char>| table.contains_key(line))
}

impl FrequencyTable {
    /// The lines of the table, in listing order.
    pub closed spec fn order(&self) -> Seq<Seq<char>> {
        self.lines.deep_view()
    }

    /// Every line of the mapping is listed, and no line is listed twice.
    /// This much holds of a table while lines are being struck from it.
    pub open spec fn indexed(&self) -> bool {
        &&& self.order().no_duplicates()
        &&& forall|line: Seq<char>| #[trigger]
            self@.contains_key(line) ==> self.order().contains(line)
    }

    /// The table's invariant: the listing holds exactly the lines of the
    /// mapping, each of them once.
    pub open spec fn wf(&self) -> bool {
        &&& self.indexed()
        &&& forall|i: int|
            0 <= i < self.order().len() ==> self@.contains_key(#[trigger] self.order()[i])
    }

    /// A table without lines.
    pub fn new() -> (table: FrequencyTable)
        ensures
            table.wf(),
            table@ == Map::<Seq<char>, Comparison>::empty(),
            table.order() == Seq::<Seq<char>>::empty(),
    {
        let table = FrequencyTable { lines: Vec::new(), entries: StringHashMap::new() };
        assert(table.order() =~= Seq::<Seq<char>>::empty());
        table
    }

    /// The number of distinct lines.
    pub fn len(&self) -> (n: usize)
        ensures
            n == self.order().len(),
            self.wf() ==> n == self@.len(),
    {
        proof {
            if self.wf() {
                self.order().unique_seq_to_set();
                assert(self.order().to_set() =~= self@.dom());
            }
        }
        self.lines.len()
    }

    /// Whether the table holds no line.
    pub fn is_empty(&self) -> (empty: bool)
        ensures
            empty == (self.order().len() == 0),
            self.wf() ==> empty == (self@ == Map::<Seq<char>, Comparison>::empty()),
    {
        proof {
            if self.wf() {
                if self.order().len() == 0 {
                    assert(self@ =~= Map::<Seq<char>, Comparison>::empty());
                } else {
                    assert(self@.contains_key(self.order()[0]));
                }
            }
        }
        self.lines.len() == 0
    }

    /// The record of `line`, if the table holds one.
    pub fn get(&self, line: &str) -> (found: Option<Comparison>)
        ensures
            found == lookup(self@, line@),
    {
        match self.entries.get(line) {
            Some(held) => Some(*held),
            None => None,
        }
    }

    /// The line at position `i` of the listing.
    pub fn line_at(&self, i: usize) -> (line: &str)
        requires
            i < self.order().len(),
        ensures
            line@ == self.order()[i as int],
    {
        self.lines[i].as_str()
    }

    /// The record of the line at position `i` of the listing.
    pub fn record_at(&self, i: usize) -> (record: Comparison)
        requires
            self.wf(),
            i < self.order().len(),
        ensures
            record == self@[self.order()[i as int]],
    {
        match self.entries.get(self.lines[i].as_str()) {
            Some(held) => *held,
            None => unreached(),
        }
    }

    /// Sets the record of `line` and returns the record that it had. A line
    /// that the table did not hold is listed last.
    pub fn insert(&mut self, line: String, record: Comparison) -> (previous: Option<Comparison>)
        requires
            old(self).wf(),
        ensures
            final(self).wf(),
            final(self)@ == old(self)@.insert(line@, record),
            final(self).order() == listed(old(self).order(), line@),
            previous == lookup(old(self)@, line@),
    {
        let previous = self.get(line.as_str());
        if previous.is_none() {
            self.lines.push(line.clone());
            assert(self.order() =~= old(self).order().push(line@));
        }
        self.entries.insert(line, record);
        proof {
            self.lemma_wf_with_line(old(self), line@);
        }
        previous
    }

    /// Counts one more occurrence of `line`. A line seen for the first time
    /// gets the count 1 and is listed last; a line that the table holds gets
    /// its count raised by one and keeps its classification and its place.
    pub fn record(&mut self, line: String)
        requires
            old(self).wf(),
            count_in(old(self)@, line@) < u32::MAX,
        ensures
            final(self).wf(),
            final(self)@ == recorded(old(self)@, line@),
            final(self).order() == listed(old(self).order(), line@),
    {
        match self.get(line.as_str()) {
            Some(held) => {
                self.entries.insert(line, Comparison { count: held.count + 1, kind: held.kind });
            },
            None => {
                self.lines.push(line.clone());
                assert(self.order() =~= old(self).order().push(line@));
                self.entries.insert(line, Comparison::with_value(1));
            },
        }
        proof {
            assert(self@.dom() =~= old(self)@.dom().insert(line@));
            self.lemma_wf_with_line(old(self), line@);
        }
    }

    /// Replaces the record of `line`, which the table holds.
    pub(crate) fn replace(&mut self, line: String, record: Comparison)
        requires
            old(self).indexed(),
            old(self)@.contains_key(line@),
        ensures
            final(self).indexed(),
            final(self)@ == old(self)@.insert(line@, record),
            final(self).order() == old(self).order(),
    {
        self.entries.insert(line, record);
        proof {
            self.lemma_still_indexed(old(self));
        }
    }

    /// Strikes the line at position `i` from the mapping. The listing keeps
    /// it until the table is pruned.
    pub(crate) fn strike_at(&mut self, i: usize)
        requires
            old(self).indexed(),
            i < old(self).order().len(),
        ensures
            final(self).indexed(),
            final(self)@ == old(self)@.remove(old(self).order()[i as int]),
            final(self).order() == old(self).order(),
    {
        self.entries.remove(self.lines[i].as_str());
        proof {
            self.lemma_still_indexed(old(self));
        }
    }

    /// Strikes `line` from the mapping. The listing keeps it until the table
    /// is pruned.
    pub(crate) fn strike(&mut self, line: &str)
        requires
            old(self).indexed(),
        ensures
            final(self).indexed(),
            final(self)@ == old(self)@.remove(line@),
            final(self).order() == old(self).order(),
    {
        self.entries.remove(line);
        proof {
            self.lemma_still_indexed(old(self));
        }
    }

    /// Drops every line whose count is zero from the mapping, and from the
    /// listing every line that the mapping does not hold any more. What
    /// stays keeps its record and its place among the others.
    pub(crate) fn prune(&mut self)
        requires
            old(self).indexed(),
        ensures
            final(self).wf(),
            final(self)@ == pruned(old(self)@),
            final(self).order() == kept(old(self).order(), final(self)@),
    {
        let ghost before = old(self).order();
        let ghost table = old(self)@;
        let mut all: Vec<String> = Vec::new();
        core::mem::swap(&mut self.lines, &mut all);
        assert(all.deep_view() == before);
        assert(before.take(0) =~= Seq::<Seq<char>>::empty());
        for line in it: all
            invariant
                before.no_duplicates(),
                it.seq().len() == before.len(),
                forall|j: int| 0 <= j < before.len() ==> (#[trigger] it.seq()[j])@ == before[j],
                self.order() == kept(before.take(it.index()), pruned(table)),
                forall|other: Seq<char>| #[trigger]
                    before.take(it.index()).contains(other) ==> lookup(self@, other) == lookup(
                        pruned(table),
                        other,
                    ),
                forall|other: Seq<char>|
                    !#[trigger] before.take(it.index()).contains(other) ==> lookup(self@, other)
                        == lookup(table, other),
        {
            let ghost i = it.index();
            proof {
                lemma_kept_step(before, pruned(table), i);
                lemma_take_step(before, i);
            }
            match self.entries.get(line.as_str()) {
                Some(held) => {
                    if held.count != 0 {
                        self.lines.push(line);
                        assert(self.order() =~= kept(before.take(i), pruned(table)).push(
                            before[i],
                        ));
                    } else {
                        self.entries.remove(line.as_str());
                    }
                },
                None => {},
            }
        }
        proof {
            assert(before.take(before.len() as int) =~= before);
            assert(self@ =~= pruned(table)) by {
                assert forall|other: Seq<char>| lookup(self@, other) == lookup(
                    pruned(table),
                    other,
                ) by {
                    if !before.contains(other) {
                        assert(!table.contains_key(other));
                    }
                }
                lemma_same_lookups(self@, pruned(table));
            }
            lemma_kept_lines(before, pruned(table));
        }
    }

    /// A table stays indexed when its listing stays and its mapping gains
    /// no line that is not listed.
    proof fn lemma_still_indexed(&self, before: &FrequencyTable)
        requires
            before.indexed(),
            self.lines == before.lines,
            forall|line: Seq<char>| #[trigger]
                self@.contains_key(line) ==> before@.contains_key(line) || before.order().contains(
                    line,
                ),
        ensures
            self.indexed(),
            self.order() == before.order(),
    {
    }

    /// A table stays well formed when `line` gets a record and, where the
    /// table did not hold it, the last place in the listing.
    proof fn lemma_wf_with_line(&self, before: &FrequencyTable, line: Seq<char>)
        requires
            before.wf(),
            self@.dom() == before@.dom().insert(line),
            self.order() == if before@.contains_key(line) {
                before.order()
            } else {
                before.order().push(line)
            },
        ensures
            self.wf(),
            self.order() == listed(before.order(), line),
    {
        let first = before.order();
        let then = self.order();
        if before@.contains_key(line) {
            assert(first.contains(line));
        } else {
            assert(!first.contains(line)) by {
                if first.contains(line) {
                    let i = choose|i: int| 0 <= i < first.len() && first[i] == line;
                    assert(before@.contains_key(first[i]));
                }
            }
            assert(then.last() == line);
            assert forall|other: Seq<char>| #[trigger] self@.contains_key(other) implies then.contains(
                other,
            ) by {
                if other != line {
                    let i = choose|i: int| 0 <= i < first.len() && first[i] == other;
                    assert(then[i] == other);
                }
            }
            assert forall|i: int, j: int|
                0 <= i < then.len() && 0 <= j < then.len() && i != j implies then[i] != then[j] by {
                if i < first.len() {
                    assert(before@.contains_key(first[i]));
                }
                if j < first.len() {
                    assert(before@.contains_key(first[j]));
                }
            }
        }
    }
}

/// Two mappings that hold the same record, or none, for every line are equal.
pub(crate) proof fn lemma_same_lookups(x: Map<Seq<char>, Comparison>, y: Map<Seq<char>, Comparison>)
    requires
        forall|line: Seq<char>| lookup(x, line) == lookup(y, line),
    ensures
        x =~= y,
{
    assert forall|line: Seq<char>| x.contains_key(line) == y.contains_key(line) by {
        assert(lookup(x, line) == lookup(y, line));
    }
    assert forall|line: Seq<char>| x.contains_key(line) implies x[line] == y[line] by {
        assert(lookup(x, line) == lookup(y, line));
    }
}

/// The first `i + 1` lines of a listing are its first `i` lines and the
/// line at position `i`.
pub(crate) proof fn lemma_take_step(order: Seq<Seq<char>>, i: int)
    requires
        0 <= i < order.len(),
    ensures
        order.take(i + 1) == order.take(i).push(order[i]),
        forall|line: Seq<char>| #[trigger]
            order.take(i + 1).contains(line) <==> order.take(i).contains(line) || line == order[i],
        order.no_duplicates() ==> !order.take(i).contains(order[i]),
{
    let short = order.take(i);
    let long = order.take(i + 1);
    assert(long =~= short.push(order[i]));
    assert forall|line: Seq<char>| long.contains(line) <==> short.contains(line) || line
        == order[i] by {
        if long.contains(line) {
            let j = choose|j: int| 0 <= j < long.len() && long[j] == line;
            if j < i {
                assert(short[j] == line);
            }
        }
        if short.contains(line) {
            let j = choose|j: int| 0 <= j < short.len() && short[j] == line;
            assert(long[j] == line);
        }
        if line == order[i] {
            assert(long[i] == line);
        }
    }
    if order.no_duplicates() && short.contains(order[i]) {
        let j = choose|j: int| 0 <= j < short.len() && short[j] == order[i];
        assert(order[j] == order[i]);
    }
}

/// One more line of `order` is kept exactly if `table` holds it.
proof fn lemma_kept_step(order: Seq<Seq<char>>, table: Map<Seq<char>, Comparison>, i: int)
    requires
        0 <= i < order.len(),
    ensures
        kept(order.take(i + 1), table) == if table.contains_key(order[i]) {
            kept(order.take(i), table).push(order[i])
        } else {
            kept(order.take(i), table)
        },
{
    reveal(Seq::filter);
    assert(order.take(i + 1).drop_last() =~= order.take(i));
}

/// What is kept of a listing holds exactly the listed lines that `table`
/// holds, and repeats none where the listing repeats none.
pub proof fn lemma_kept_lines(order: Seq<Seq<char>>, table: Map<Seq<char>, Comparison>)
    requires
        order.no_duplicates(),
    ensures
        kept(order, table).no_duplicates(),
        forall|line: Seq<char>| #[trigger]
            kept(order, table).contains(line) <==> order.contains(line) && table.contains_key(
                line,
            ),
    decreases order.len(),
{
    reveal(Seq::filter);
    if order.len() > 0 {
        let front = order.drop_last();
        let last = order.last();
        lemma_kept_lines(front, table);
        let short = kept(front, table);
        let full = kept(order, table);
        assert forall|line: Seq<char>| #[trigger]
            full.contains(line) <==> order.contains(line) && table.contains_key(line) by {
            if full.contains(line) {
                let i = choose|i: int| 0 <= i < full.len() && full[i] == line;
                if i < short.len() {
                    assert(short[i] == line);
                    assert(short.contains(line));
                    let j = choose|j: int| 0 <= j < front.len() && front[j] == line;
                    assert(order[j] == line);
                } else {
                    assert(line == last);
                    assert(order[order.len() - 1] == line);
                }
            }
            if order.contains(line) && table.contains_key(line) {
                let j = choose|j: int| 0 <= j < order.len() && order[j] == line;
                if j < front.len() {
                    assert(front[j] == line);
                    assert(front.contains(line));
                    let i = choose|i: int| 0 <= i < short.len() && short[i] == line;
                    assert(full[i] == line);
                } else {
                    assert(full[full.len() - 1] == line);
                }
            }
        }
        if table.contains_key(last) {
            assert(!short.contains(last)) by {
                if front.contains(last) {
                    let j = choose|j: int| 0 <= j < front.len() && front[j] == last;
                    assert(order[j] == order[order.len() - 1]);
                }
            }
        }
    }
}

} // verus!
