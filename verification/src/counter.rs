//! The line counter: folds the lines of one source into a frequency table.

use crate::comparison::Comparison;
use crate::comparison::Kind;
use crate::table::count_in;
use crate::table::positive;
use crate::table::recorded;
use crate::table::FrequencyTable;
use vstd::prelude::*;
use vstd::seq_lib::lemma_multiset_commutative;
use vstd::seq_lib::to_multiset_build;

verus! {

/// How often `line` occurs among `lines`.
pub open spec fn occurrences(lines: Seq<Seq<char>>, line: Seq<char>) -> nat {
    lines.to_multiset().count(line)
}

/// The table after `lines` have been counted into `table`: it holds the
/// lines of both, every line has gained the number of its occurrences, and a
/// line that the table did not hold is one of this source only.
pub open spec fn fed(table: Map<Seq<char>, Comparison>, lines: Seq<Seq<char>>) -> Map<
    Seq<char>,
    Comparison,
> {
    Map::new(
        |line: Seq<char>| table.contains_key(line) || lines.contains(line),
        |line: Seq<char>|
            Comparison {
                count: (count_in(table, line) + occurrences(lines, line)) as u32,
                kind: if table.contains_key(line) {
                    table[line].kind
                } else {
                    Kind::Only
                },
            },
    )
}

/// The frequency table of a source: each of its lines with the number of
/// its occurrences.
pub open spec fn tally(lines: Seq<Seq<char>>) -> Map<Seq<char>, Comparison> {
    fed(Map::empty(), lines)
}

/// Whether every count still fits the count type once `lines` have been
/// counted into `table`.
pub open spec fn fits(table: Map<Seq<char>, Comparison>, lines: Seq<Seq<char>>) -> bool {
    forall|line: Seq<char>| count_in(table, line) + #[trigger] occurrences(lines, line) <= u32::MAX
}

impl FrequencyTable {
    /// Counts every line of `lines` into the table. Lines that the table did
    /// not hold are listed after the others, in the order in which they are
    /// first seen.
    pub fn record_all(&mut self, lines: Vec<String>)
        requires
            old(self).wf(),
            fits(old(self)@, lines.deep_view()),
        ensures
            final(self).wf(),
            final(self)@ == fed(old(self)@, lines.deep_view()),
            final(self).order() == lines.deep_view().remove_duplicates(old(self).order()),
            positive(old(self)@) ==> positive(final(self)@),
    {
        let ghost all = lines.deep_view();
        let ghost start = old(self)@;
        let ghost first = old(self).order();
        proof {
            assert(all.take(0) =~= Seq::<Seq<char>>::empty());
            assert(all.skip(0) =~= all);
            lemma_fed_nothing(start);
        }
        for line in it: lines
            invariant
                it.seq().len() == all.len(),
                forall|j: int| 0 <= j < all.len() ==> (#[trigger] it.seq()[j])@ == all[j],
                fits(start, all),
                self.wf(),
                self@ == fed(start, all.take(it.index())),
                all.skip(it.index()).remove_duplicates(self.order()) == all.remove_duplicates(
                    first,
                ),
        {
            let ghost i = it.index();
            proof {
                assert(all.take(i + 1) =~= all.take(i).push(all[i]));
                to_multiset_build(all.take(i), all[i]);
                lemma_occurrences_of_prefix(all, i + 1, all[i]);
                lemma_fed_one_more(start, all.take(i), all[i]);
                assert(all.skip(i).skip(1) =~= all.skip(i + 1));
                assert(all.skip(i)[0] == all[i]);
                assert(self.order() + seq![all[i]] =~= self.order().push(all[i]));
            }
            self.record(line);
        }
        proof {
            assert(all.take(all.len() as int) =~= all);
            if positive(start) {
                lemma_fed_positive(start, all);
            }
        }
    }
}

/// Counts the lines of a source: the table holds each distinct line with
/// the number of its occurrences, as a line of this source only, and lists
/// the lines in the order in which they are first seen.
pub fn count_lines(lines: Vec<String>) -> (table: FrequencyTable)
    requires
        fits(Map::empty(), lines.deep_view()),
    ensures
        table.wf(),
        table@ == tally(lines.deep_view()),
        table.order() == lines.deep_view().remove_duplicates(Seq::empty()),
        positive(table@),
{
    let mut table = FrequencyTable::new();
    table.record_all(lines);
    table
}

/// Counting a source in two passes gives what counting it in one pass gives.
pub proof fn lemma_fed_in_two_passes(
    table: Map<Seq<char>, Comparison>,
    first: Seq<Seq<char>>,
    second: Seq<Seq<char>>,
)
    requires
        fits(table, first + second),
    ensures
        fed(fed(table, first), second) == fed(table, first + second),
{
    broadcast use vstd::seq_lib::group_to_multiset_ensures;

    lemma_multiset_commutative(first, second);
    let both = first + second;
    let once = fed(table, first);
    assert forall|line: Seq<char>| both.contains(line) <==> first.contains(line)
        || second.contains(line) by {
        assert(occurrences(both, line) == occurrences(first, line) + occurrences(second, line));
    }
    assert forall|line: Seq<char>| #[trigger]
        fed(table, both).contains_key(line) implies fed(once, second)[line] == fed(
        table,
        both,
    )[line] by {
        assert(occurrences(both, line) == occurrences(first, line) + occurrences(second, line));
        assert(count_in(table, line) + occurrences(both, line) <= u32::MAX);
        if !first.contains(line) {
            assert(occurrences(first, line) == 0);
        }
    }
    assert(fed(once, second) =~= fed(table, both));
}

/// Counting the same source twice yields the lines of a single pass, each
/// with exactly double its count, whether the second pass is counted into
/// the table of the first or both passes are counted as one source.
pub proof fn lemma_counting_twice_doubles(lines: Seq<Seq<char>>)
    requires
        forall|line: Seq<char>| 2 * #[trigger] occurrences(lines, line) <= u32::MAX,
    ensures
        fed(tally(lines), lines) == tally(lines + lines),
        tally(lines + lines).dom() == tally(lines).dom(),
        forall|line: Seq<char>| #[trigger]
            tally(lines).contains_key(line) ==> tally(lines + lines)[line].count == 2 * tally(
                lines,
            )[line].count && tally(lines + lines)[line].kind == tally(lines)[line].kind,
{
    broadcast use vstd::seq_lib::group_to_multiset_ensures;

    lemma_multiset_commutative(lines, lines);
    let twice = lines + lines;
    assert forall|line: Seq<char>| #[trigger]
        occurrences(twice, line) == 2 * occurrences(lines, line) by {}
    assert(fits(Map::empty(), twice)) by {
        assert forall|line: Seq<char>| count_in(Map::empty(), line) + #[trigger] occurrences(
            twice,
            line,
        ) <= u32::MAX by {
            assert(occurrences(twice, line) == 2 * occurrences(lines, line));
        }
    }
    lemma_fed_in_two_passes(Map::empty(), lines, lines);
    assert forall|line: Seq<char>| twice.contains(line) <==> lines.contains(line) by {
        assert(occurrences(twice, line) == 2 * occurrences(lines, line));
    }
    assert(tally(twice).dom() =~= tally(lines).dom());
    assert forall|line: Seq<char>| #[trigger] tally(lines).contains_key(line) implies tally(
        twice,
    )[line].count == 2 * tally(lines)[line].count by {
        assert(occurrences(twice, line) == 2 * occurrences(lines, line));
        assert(2 * occurrences(lines, line) <= u32::MAX);
    }
}

/// The frequency table of a source does not depend on the order of its
/// lines: two sources that hold the same lines equally often have the same
/// table.
pub proof fn lemma_tally_ignores_order(one: Seq<Seq<char>>, other: Seq<Seq<char>>)
    requires
        one.to_multiset() == other.to_multiset(),
    ensures
        tally(one) == tally(other),
{
    broadcast use vstd::seq_lib::group_to_multiset_ensures;

    assert forall|line: Seq<char>| one.contains(line) <==> other.contains(line) by {
        assert(occurrences(one, line) == occurrences(other, line));
    }
    assert(tally(one) =~= tally(other));
}

/// Counting no lines leaves a table as it is.
proof fn lemma_fed_nothing(table: Map<Seq<char>, Comparison>)
    ensures
        fed(table, Seq::empty()) == table,
{
    broadcast use vstd::seq_lib::group_to_multiset_ensures;

    assert forall|line: Seq<char>| occurrences(Seq::empty(), line) == 0 by {
        assert(!Seq::<Seq<char>>::empty().contains(line));
    }
    assert(fed(table, Seq::empty()) =~= table);
}

/// Counting lines into a table with positive counts leaves it so.
proof fn lemma_fed_positive(table: Map<Seq<char>, Comparison>, lines: Seq<Seq<char>>)
    requires
        fits(table, lines),
        positive(table),
    ensures
        positive(fed(table, lines)),
{
    broadcast use vstd::seq_lib::group_to_multiset_ensures;

    assert forall|line: Seq<char>| #[trigger] fed(table, lines).contains_key(line) implies fed(
        table,
        lines,
    )[line].count > 0 by {
        assert(count_in(table, line) + occurrences(lines, line) <= u32::MAX);
        if !table.contains_key(line) {
            assert(occurrences(lines, line) > 0);
        }
    }
}

/// A prefix of a source holds no more occurrences of a line than the source.
proof fn lemma_occurrences_of_prefix(lines: Seq<Seq<char>>, n: int, line: Seq<char>)
    requires
        0 <= n <= lines.len(),
    ensures
        occurrences(lines.take(n), line) <= occurrences(lines, line),
{
    assert(lines =~= lines.take(n) + lines.skip(n));
    lemma_multiset_commutative(lines.take(n), lines.skip(n));
}

/// Counting one more line into a table is counting it after the others.
proof fn lemma_fed_one_more(
    table: Map<Seq<char>, Comparison>,
    lines: Seq<Seq<char>>,
    line: Seq<char>,
)
    requires
        count_in(table, line) + occurrences(lines, line) < u32::MAX,
    ensures
        fed(table, lines.push(line)) == recorded(fed(table, lines), line),
{
    broadcast use vstd::seq_lib::group_to_multiset_ensures;

    to_multiset_build(lines, line);
    let more = lines.push(line);
    let once = fed(table, lines);
    assert forall|other: Seq<char>| more.contains(other) <==> lines.contains(other) || other
        == line by {
        if lines.contains(other) {
            let j = choose|j: int| 0 <= j < lines.len() && lines[j] == other;
            assert(more[j] == other);
        }
        if other == line {
            assert(more[more.len() - 1] == other);
        }
    }
    assert forall|other: Seq<char>| #[trigger]
        fed(table, more).contains_key(other) implies fed(table, more)[other] == recorded(
        once,
        line,
    )[other] by {
        if other == line {
            assert(occurrences(more, line) == occurrences(lines, line) + 1);
            if !once.contains_key(line) {
                assert(occurrences(lines, line) == 0);
            }
        } else {
            assert(occurrences(more, other) == occurrences(lines, other));
        }
    }
    assert(fed(table, more) =~= recorded(once, line));
}

} // verus!
