//! What is read from and written to plain text.

use crate::platform::{host_from, reported_host};
use crate::source::line_end;
use crate::text::{decimal, digit, has_prefix, is_white, joined};
use vstd::prelude::*;

verus! {

proof fn lines_end_within(report: Seq<char>, at: int, stop: int)
    requires
        0 <= at <= stop < report.len(),
        report[stop] == '\n',
    ensures
        at <= line_end(report, at) <= stop,
        report[line_end(report, at)] == '\n',
    decreases stop - at,
{
    if report[at] != '\n' {
        lines_end_within(report, at + 1, stop);
    }
}

proof fn line_ends_at(report: Seq<char>, at: int, stop: int)
    requires
        0 <= at <= stop < report.len(),
        report[stop] == '\n',
        forall|i: int| at <= i < stop ==> #[trigger] report[i] != '\n',
    ensures
        line_end(report, at) == stop,
    decreases stop - at,
{
    if at < stop {
        assert(report[at] != '\n');
        line_ends_at(report, at + 1, stop);
    }
}

/// Whether some line of a text that starts in it begins with `prefix`.
pub open spec fn has_line(text: Seq<char>, prefix: Seq<char>) -> bool {
    exists|i: int|
        0 <= i < text.len() && (i == 0 || text[i - 1] == '\n') && has_prefix(
            #[trigger] text.skip(i),
            prefix,
        )
}

proof fn other_lines_are_passed(before: Seq<char>, report: Seq<char>, at: int)
    requires
        before.len() > 0 ==> before.last() == '\n',
        before.len() < report.len(),
        report.take(before.len() as int) == before,
        !has_line(before, "host: "@),
        0 <= at <= before.len(),
        at == 0 || before[at - 1] == '\n',
    ensures
        host_from(report, at) == host_from(report, before.len() as int),
    decreases before.len() - at,
{
    if at < before.len() {
        assert forall|i: int| 0 <= i < before.len() implies #[trigger] report[i] == before[i] by {
            assert(report.take(before.len() as int)[i] == report[i]);
        }
        lines_end_within(report, at, before.len() - 1);
        let end = line_end(report, at);
        let line = report.subrange(at, end);
        if has_prefix(line, "host: "@) {
            let size = "host: "@.len() as int;
            assert(before.skip(at).take(size) =~= line.take(size));
            assert(has_prefix(before.skip(at), "host: "@));
        }
        assert(before[end] == '\n');
        other_lines_are_passed(before, report, end + 1);
    }
}

/// The host is read from its own line: whatever whole lines come before it, of which none is about
/// a host, and whatever comes behind it.
pub proof fn hosts_are_read_from_their_line(before: Seq<char>, host: Seq<char>, after: Seq<char>)
    requires
        before.len() > 0 ==> before.last() == '\n',
        !has_line(before, "host: "@),
        host.len() > 0,
        !is_white(host[0]),
        !is_white(host.last()),
        forall|i: int| 0 <= i < host.len() ==> #[trigger] host[i] != '\n',
    ensures
        reported_host(before + ("host: "@ + host + seq!['\n']) + after) == Some(host),
{
    let line = "host: "@ + host + seq!['\n'];
    let report = before + line + after;
    let at = before.len() as int;
    let size = "host: "@.len() as int;
    let stop = at + size + host.len();
    assert(report.take(at) =~= before);
    other_lines_are_passed(before, report, 0);
    assert forall|i: int| at <= i < stop implies #[trigger] report[i] != '\n' by {
        reveal_strlit("host: ");
        assert(report[i] == line[i - at]);
        if i < at + size {
            assert(line[i - at] == "host: "@[i - at]);
        } else {
            assert(line[i - at] == host[i - at - size]);
        }
    }
    assert(report[stop] == line[stop - at]);
    line_ends_at(report, at, stop);
    let found = report.subrange(at, stop);
    assert(found =~= "host: "@ + host);
    assert(found.take(size) =~= "host: "@);
    assert(found.skip(size) =~= host);
}

/// A report without a line about a host reports none.
pub proof fn no_host_is_made_up(report: Seq<char>)
    requires
        !has_line(report, "host: "@),
    ensures
        reported_host(report) is None,
{
    no_host_from(report, 0);
}

proof fn no_host_from(report: Seq<char>, at: int)
    requires
        !has_line(report, "host: "@),
        0 <= at,
        at == 0 || at > report.len() || report[at - 1] == '\n',
    ensures
        host_from(report, at) is None,
    decreases report.len() - at,
{
    if at < report.len() {
        ends_move_on(report, at);
        let end = line_end(report, at);
        let line = report.subrange(at, end);
        if has_prefix(line, "host: "@) {
            let size = "host: "@.len() as int;
            assert(report.skip(at).take(size) =~= line.take(size));
            assert(has_prefix(report.skip(at), "host: "@));
        }
        if end < report.len() {
            no_host_from(report, end + 1);
        }
    }
}

proof fn ends_move_on(report: Seq<char>, at: int)
    requires
        0 <= at <= report.len(),
    ensures
        at <= line_end(report, at) <= report.len(),
        line_end(report, at) < report.len() ==> report[line_end(report, at)] == '\n',
    decreases report.len() - at,
{
    if at < report.len() && report[at] != '\n' {
        ends_move_on(report, at + 1);
    }
}

/// The number that a row of decimal digits stands for.
pub open spec fn number_of(digits: Seq<char>) -> int
    decreases digits.len(),
{
    if digits.len() == 0 {
        0
    } else {
        10 * number_of(digits.drop_last()) + (digits.last() as int - '0' as int)
    }
}

/// A number that is written stands for itself, in digits alone, and has no zero in front.
pub proof fn numbers_are_written_in_decimal(value: nat)
    ensures
        decimal(value).len() > 0,
        number_of(decimal(value)) == value,
        forall|i: int| 0 <= i < decimal(value).len() ==> '0' <= #[trigger] decimal(value)[i] <= '9',
        decimal(value)[0] == '0' ==> value == 0,
    decreases value,
{
    if value < 10 {
        assert(decimal(value).drop_last() =~= Seq::<char>::empty());
        assert(digit(value) as int == '0' as int + value);
        reveal_with_fuel(number_of, 2);
    } else {
        numbers_are_written_in_decimal(value / 10);
        assert(decimal(value).drop_last() =~= decimal(value / 10));
        assert(digit(value % 10) as int == '0' as int + value % 10);
    }
}

/// Of joined items each stands where those before it, with a separator behind each, end.
pub proof fn joined_items_stand_in_order(items: Seq<Seq<char>>, separator: Seq<char>, at: int)
    requires
        0 <= at < items.len(),
    ensures
        ({
            let whole = joined(items, separator);
            let before = joined(items.take(at), separator);
            let start = if at == 0 {
                0
            } else {
                (before.len() + separator.len()) as int
            };
            &&& start + items[at].len() <= whole.len()
            &&& whole.subrange(start, start + items[at].len()) == items[at]
            &&& at > 0 ==> whole.take(before.len() as int) == before && whole.subrange(
                before.len() as int,
                start,
            ) == separator
            &&& at == items.len() - 1 ==> whole.len() == start + items[at].len()
        }),
    decreases items.len(),
{
    let whole = joined(items, separator);
    let before = joined(items.take(at), separator);
    if items.len() == 1 {
        assert(whole.subrange(0, items[0].len() as int) =~= items[0]);
    } else if at == items.len() - 1 {
        let start = (before.len() + separator.len()) as int;
        assert(items.take(at) =~= items.drop_last());
        assert(whole.subrange(start, start + items[at].len()) =~= items[at]);
        assert(whole.take(before.len() as int) =~= before);
        assert(whole.subrange(before.len() as int, start) =~= separator);
    } else {
        let shorter = items.drop_last();
        let part = joined(shorter, separator);
        joined_items_stand_in_order(shorter, separator, at);
        assert(shorter.take(at) =~= items.take(at));
        let start = if at == 0 {
            0
        } else {
            (before.len() + separator.len()) as int
        };
        let end = start + items[at].len();
        assert(whole.subrange(start, end) =~= part.subrange(start, end));
        if at > 0 {
            assert(whole.take(before.len() as int) =~= part.take(before.len() as int));
            assert(whole.subrange(before.len() as int, start) =~= part.subrange(
                before.len() as int,
                start,
            ));
        }
    }
}

} // verus!
