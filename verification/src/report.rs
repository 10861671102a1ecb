//! The report: the two residual tables as text, one line per entry.

use crate::comparison::Comparison;
use crate::table::FrequencyTable;
use vstd::prelude::*;
use vstd::string::StringExecFns;

verus! {

/// The character of the decimal digit `d`.
pub open spec fn digit(d: nat) -> char {
    if d == 0 {
        '0'
    } else if d == 1 {
        '1'
    } else if d == 2 {
        '2'
    } else if d == 3 {
        '3'
    } else if d == 4 {
        '4'
    } else if d == 5 {
        '5'
    } else if d == 6 {
        '6'
    } else if d == 7 {
        '7'
    } else if d == 8 {
        '8'
    } else {
        '9'
    }
}

/// The decimal numeral of `n`, without leading zeros.
pub open spec fn decimal(n: nat) -> Seq<char>
    decreases n,
{
    if n < 10 {
        seq![digit(n)]
    } else {
        decimal(n / 10).push(digit(n % 10))
    }
}

/// The line that reports one entry: its tag, its count and the line value,
/// separated by tabs and ended by a line feed.
pub open spec fn entry_line(line: Seq<char>, record: Comparison) -> Seq<char> {
    record.kind.tag() + seq!['\t'] + decimal(record.count as nat) + seq!['\t'] + line + seq!['\n']
}

/// The lines that report the entries of a table, in listing order.
pub open spec fn entry_lines(order: Seq<Seq<char>>, table: Map<Seq<char>, Comparison>) -> Seq<
    Seq<char>,
> {
    order.map_values(|line: Seq<char>| entry_line(line, table[line]))
}

/// The group of a table: the lines that report its entries, one after the
/// other.
pub open spec fn group(order: Seq<Seq<char>>, table: Map<Seq<char>, Comparison>) -> Seq<char> {
    entry_lines(order, table).flatten()
}

/// The heading of the first table's group.
pub open spec fn heading_a() -> Seq<char> {
    "file a results:\n"@
}

/// The heading of the second table's group.
pub open spec fn heading_b() -> Seq<char> {
    "file b results:\n"@
}

/// The whole report on two tables: each heading, followed by its group.
pub open spec fn report(a: FrequencyTable, b: FrequencyTable) -> Seq<char> {
    heading_a() + group(a.order(), a@) + heading_b() + group(b.order(), b@)
}

/// The decimal digit `d` as text.
fn digit_str(d: u32) -> (s: &'static str)
    requires
        d < 10,
    ensures
        s@ == seq![digit(d as nat)],
{
    proof {
        reveal_strlit("0");
        reveal_strlit("1");
        reveal_strlit("2");
        reveal_strlit("3");
        reveal_strlit("4");
        reveal_strlit("5");
        reveal_strlit("6");
        reveal_strlit("7");
        reveal_strlit("8");
        reveal_strlit("9");
    }
    let s = if d == 0 {
        "0"
    } else if d == 1 {
        "1"
    } else if d == 2 {
        "2"
    } else if d == 3 {
        "3"
    } else if d == 4 {
        "4"
    } else if d == 5 {
        "5"
    } else if d == 6 {
        "6"
    } else if d == 7 {
        "7"
    } else if d == 8 {
        "8"
    } else {
        "9"
    };
    assert(s@ =~= seq![digit(d as nat)]);
    s
}

/// Appends the decimal numeral of `n` to `out`.
fn push_decimal(out: &mut String, n: u32)
    ensures
        final(out)@ == old(out)@ + decimal(n as nat),
    decreases n,
{
    if n >= 10 {
        push_decimal(out, n / 10);
    }
    out.append(digit_str(n % 10));
    assert(out@ =~= old(out)@ + decimal(n as nat));
}

/// Appends the line that reports one entry to `stream`: the tag of its
/// kind, its count in decimal and the line value, separated by tabs and
/// ended by a line feed.
pub fn print_entry(line: &str, record: Comparison, stream: &mut String)
    ensures
        final(stream)@ == old(stream)@ + entry_line(line@, record),
{
    proof {
        reveal_strlit("\t");
        reveal_strlit("\n");
    }
    stream.append(record.kind.as_str());
    stream.append("\t");
    push_decimal(stream, record.count);
    stream.append("\t");
    stream.append(line);
    stream.append("\n");
    assert(stream@ =~= old(stream)@ + entry_line(line@, record));
}

/// Appends the group of `table` to `out`.
fn push_group(out: &mut String, table: &FrequencyTable)
    requires
        table.wf(),
    ensures
        final(out)@ == old(out)@ + group(table.order(), table@),
{
    let ghost order = table.order();
    let n: usize = table.len();
    let mut i: usize = 0;
    proof {
        assert(entry_lines(order.take(0), table@) =~= Seq::<Seq<char>>::empty());
        assert(out@ =~= old(out)@ + group(order.take(0), table@));
    }
    while i < n
        invariant
            i <= n == order.len(),
            order == table.order(),
            table.wf(),
            out@ == old(out)@ + group(order.take(i as int), table@),
        decreases n - i,
    {
        print_entry(table.line_at(i), table.record_at(i), out);
        proof {
            lemma_group_step(order, table@, i as int);
            assert(out@ =~= old(out)@ + group(order.take(i + 1), table@));
        }
        i = i + 1;
    }
    assert(order.take(n as int) =~= order);
}

/// The group of one more entry is the group of the entries before it,
/// followed by the line of that entry.
proof fn lemma_group_step(order: Seq<Seq<char>>, table: Map<Seq<char>, Comparison>, i: int)
    requires
        0 <= i < order.len(),
    ensures
        group(order.take(i + 1), table) == group(order.take(i), table) + entry_line(
            order[i],
            table[order[i]],
        ),
{
    let done = entry_lines(order.take(i), table);
    let last = entry_line(order[i], table[order[i]]);
    assert(entry_lines(order.take(i + 1), table) =~= done.push(last));
    done.lemma_flatten_push(last);
}

/// Appends the report on two residual tables to `stream`: the heading of
/// each table, followed by one line for each of its entries, in listing
/// order.
pub fn print_diff(map_a: &FrequencyTable, map_b: &FrequencyTable, stream: &mut String)
    requires
        map_a.wf(),
        map_b.wf(),
    ensures
        final(stream)@ == old(stream)@ + report(*map_a, *map_b),
{
    stream.append("file a results:\n");
    push_group(stream, map_a);
    stream.append("file b results:\n");
    push_group(stream, map_b);
    assert(stream@ =~= old(stream)@ + report(*map_a, *map_b));
}

} // verus!
