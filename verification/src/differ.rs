//! The differencer: turns two frequency tables into their multiset
//! difference, the residual of each against the other.

use crate::comparison::Comparison;
use crate::comparison::Kind;
use crate::counter::fits;
use crate::counter::occurrences;
use crate::counter::tally;
use crate::table::count_in;
use crate::table::kept;
use crate::table::lemma_same_lookups;
use crate::table::lemma_take_step;
use crate::table::lookup;
use crate::table::positive;
use crate::table::pruned;
use crate::table::FrequencyTable;
use vstd::prelude::*;

verus! {

/// What is left of one side's record of a line once it has been matched
/// against the other side's.
///
/// A line that the other side lacks keeps its record, unless its count is
/// zero. A line that both sides hold is left on the side that has more of
/// it, with the difference of the two counts as its count, and on neither
/// side where the counts are equal.
pub open spec fn residual_record(mine: Comparison, other: Option<Comparison>) -> Option<
    Comparison,
> {
    match other {
        None => if mine.count > 0 {
            Some(mine)
        } else {
            None
        },
        Some(theirs) => if mine.count > theirs.count {
            Some(Comparison { count: (mine.count - theirs.count) as u32, kind: Kind::More })
        } else {
            None
        },
    }
}

/// The residual of the table `mine` against the table `other`: the lines of
/// `mine` of which something is left, each with what is left of it.
pub open spec fn residual(
    mine: Map<Seq<char>, Comparison>,
    other: Map<Seq<char>, Comparison>,
) -> Map<Seq<char>, Comparison> {
    Map::new(
        |line: Seq<char>|
            mine.contains_key(line) && residual_record(mine[line], lookup(other, line)) is Some,
        |line: Seq<char>| residual_record(mine[line], lookup(other, line))->Some_0,
    )
}

/// The outcome of differencing `a` and `b`: the residual of each against the
/// other.
pub open spec fn difference(a: Map<Seq<char>, Comparison>, b: Map<Seq<char>, Comparison>) -> (
    Map<Seq<char>, Comparison>,
    Map<Seq<char>, Comparison>,
) {
    (residual(a, b), residual(b, a))
}

/// How many occurrences of `line` two tables have in common: the smaller of
/// their two counts.
pub open spec fn cancelled(
    a: Map<Seq<char>, Comparison>,
    b: Map<Seq<char>, Comparison>,
    line: Seq<char>,
) -> nat {
    if count_in(a, line) <= count_in(b, line) {
        count_in(a, line)
    } else {
        count_in(b, line)
    }
}

/// The table `mine` once every line that `other` holds too has been matched,
/// before the lines with a count of zero are dropped.
spec fn matched(mine: Map<Seq<char>, Comparison>, other: Map<Seq<char>, Comparison>) -> Map<
    Seq<char>,
    Comparison,
> {
    Map::new(
        |line: Seq<char>|
            mine.contains_key(line) && (other.contains_key(line) ==> mine[line].count
                > other[line].count),
        |line: Seq<char>|
            if other.contains_key(line) {
                Comparison {
                    count: (mine[line].count - other[line].count) as u32,
                    kind: Kind::More,
                }
            } else {
                mine[line]
            },
    )
}

/// Turns two frequency tables into their residuals against each other.
///
/// Of a line that both tables hold, the table with the greater count keeps
/// the difference, and the line becomes one that it holds more often; the
/// other table loses the line, and so do both where the counts are equal. A
/// line that only one table holds keeps its record. No entry with a count of
/// zero stays, and what stays keeps its place in the listing.
pub fn compare_map_results(map_a: &mut FrequencyTable, map_b: &mut FrequencyTable)
    requires
        old(map_a).wf(),
        old(map_b).wf(),
    ensures
        final(map_a).wf(),
        final(map_b).wf(),
        (final(map_a)@, final(map_b)@) == difference(old(map_a)@, old(map_b)@),
        final(map_a).order() == kept(old(map_a).order(), final(map_a)@),
        final(map_b).order() == kept(old(map_b).order(), final(map_b)@),
        positive(final(map_a)@),
        positive(final(map_b)@),
        forall|line: Seq<char>|
            !(final(map_a)@.contains_key(line) && final(map_b)@.contains_key(line)),
{
    let ghost a = old(map_a)@;
    let ghost b = old(map_b)@;
    let ghost order = old(map_a).order();
    let n: usize = map_a.len();
    let mut i: usize = 0;
    while i < n
        invariant
            i <= n == order.len(),
            order.no_duplicates(),
            forall|j: int| 0 <= j < n ==> a.contains_key(#[trigger] order[j]),
            map_a.indexed(),
            map_b.indexed(),
            map_a.order() == order,
            map_b.order() == old(map_b).order(),
            forall|line: Seq<char>| #[trigger]
                order.take(i as int).contains(line) ==> lookup(map_a@, line) == lookup(
                    matched(a, b),
                    line,
                ) && lookup(map_b@, line) == lookup(matched(b, a), line),
            forall|line: Seq<char>|
                !#[trigger] order.take(i as int).contains(line) ==> lookup(map_a@, line) == lookup(
                    a,
                    line,
                ) && lookup(map_b@, line) == lookup(b, line),
        decreases n - i,
    {
        proof {
            lemma_take_step(order, i as int);
        }
        let line = map_a.line_at(i);
        match (map_a.get(line), map_b.get(line)) {
            (Some(mine), Some(theirs)) => {
                if mine.count > theirs.count {
                    map_b.strike(line);
                    map_a.replace(
                        line.to_owned(),
                        Comparison { count: mine.count - theirs.count, kind: Kind::More },
                    );
                } else if theirs.count > mine.count {
                    map_b.replace(
                        line.to_owned(),
                        Comparison { count: theirs.count - mine.count, kind: Kind::More },
                    );
                    map_a.strike_at(i);
                } else {
                    map_b.strike(line);
                    map_a.strike_at(i);
                }
            },
            _ => {},
        }
        i = i + 1;
    }
    proof {
        assert(order.take(n as int) =~= order);
        assert forall|line: Seq<char>| lookup(map_a@, line) == lookup(matched(a, b), line)
            && lookup(map_b@, line) == lookup(matched(b, a), line) by {
            if !order.contains(line) {
                assert(!a.contains_key(line));
            }
        }
        lemma_same_lookups(map_a@, matched(a, b));
        lemma_same_lookups(map_b@, matched(b, a));
        assert(pruned(matched(a, b)) =~= residual(a, b));
        assert(pruned(matched(b, a)) =~= residual(b, a));
    }
    map_a.prune();
    map_b.prune();
}

/// Differencing is symmetric: the two tables taken the other way round give
/// the same two residuals, the other way round.
pub proof fn lemma_difference_symmetric(
    a: Map<Seq<char>, Comparison>,
    b: Map<Seq<char>, Comparison>,
)
    ensures
        difference(b, a).0 == difference(a, b).1,
        difference(b, a).1 == difference(a, b).0,
{
}

/// Differencing cancels what is common and nothing else: of every line, each
/// side loses as many occurrences as the two sides have in common, the side
/// that has more of it is left with the difference of the counts, and the
/// other side with nothing.
pub proof fn lemma_difference_conserves(
    a: Map<Seq<char>, Comparison>,
    b: Map<Seq<char>, Comparison>,
    line: Seq<char>,
)
    ensures
        count_in(difference(a, b).0, line) + cancelled(a, b, line) == count_in(a, line),
        count_in(difference(a, b).1, line) + cancelled(a, b, line) == count_in(b, line),
        count_in(a, line) >= count_in(b, line) ==> count_in(difference(a, b).0, line) == count_in(
            a,
            line,
        ) - count_in(b, line) && count_in(difference(a, b).1, line) == 0,
        count_in(b, line) >= count_in(a, line) ==> count_in(difference(a, b).1, line) == count_in(
            b,
            line,
        ) - count_in(a, line) && count_in(difference(a, b).0, line) == 0,
{
}

/// No residual holds a count of zero.
pub proof fn lemma_difference_positive(
    a: Map<Seq<char>, Comparison>,
    b: Map<Seq<char>, Comparison>,
)
    ensures
        positive(difference(a, b).0),
        positive(difference(a, b).1),
{
}

/// No line is left on both sides.
pub proof fn lemma_difference_disjoint(
    a: Map<Seq<char>, Comparison>,
    b: Map<Seq<char>, Comparison>,
    line: Seq<char>,
)
    ensures
        !(difference(a, b).0.contains_key(line) && difference(a, b).1.contains_key(line)),
{
}

/// Residuals are settled: differencing them once more changes nothing.
pub proof fn lemma_difference_settled(a: Map<Seq<char>, Comparison>, b: Map<Seq<char>, Comparison>)
    ensures
        difference(difference(a, b).0, difference(a, b).1) == difference(a, b),
{
    let (left, right) = difference(a, b);
    assert(residual(left, right) =~= left);
    assert(residual(right, left) =~= right);
}

/// Differencing the tables of two sources is the multiset difference of
/// their lines: what a side is left with of a line is the number of its
/// occurrences on that side less the number on the other, and nothing where
/// the other side has as many or more. A line that is left is one that the
/// side holds more often exactly where the other source holds it too.
pub proof fn lemma_residual_is_bag_difference(
    mine: Seq<Seq<char>>,
    other: Seq<Seq<char>>,
    line: Seq<char>,
)
    requires
        fits(Map::empty(), mine),
        fits(Map::empty(), other),
    ensures
        count_in(residual(tally(mine), tally(other)), line) == mine.to_multiset().sub(
            other.to_multiset(),
        ).count(line),
        residual(tally(mine), tally(other)).contains_key(line) ==> residual(
            tally(mine),
            tally(other),
        )[line].kind == if other.contains(line) {
            Kind::More
        } else {
            Kind::Only
        },
{
    broadcast use vstd::seq_lib::group_to_multiset_ensures;
    broadcast use vstd::multiset::group_multiset_axioms;

    assert(count_in(Map::empty(), line) + occurrences(mine, line) <= u32::MAX);
    assert(count_in(Map::empty(), line) + occurrences(other, line) <= u32::MAX);
    assert(mine.contains(line) <==> occurrences(mine, line) > 0);
    assert(other.contains(line) <==> occurrences(other, line) > 0);
}

} // verus!
