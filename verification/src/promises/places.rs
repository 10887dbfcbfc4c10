//! Where things stand: the entries of a written array, and paths under a root.

use crate::arrays::{
    entry_end, entry_from, entry_range, find_byte, is_blank, skip_trivia, string_end,
};
use crate::files::{is_absolute, part_end, parts, relative, same_parts, shown, SEPARATOR};
use vstd::prelude::*;

verus! {

/// Whether an entry is a basic string that needs no escapes.
pub open spec fn is_plain_string(entry: Seq<u8>) -> bool {
    &&& entry.len() >= 2
    &&& entry[0] == 0x22
    &&& entry[entry.len() - 1] == 0x22
    &&& forall|i: int| 1 <= i < entry.len() - 1 ==> #[trigger] entry[i] != 0x22 && entry[i] != 0x5c
}

/// An array behind its opening bracket, from entry `from` on: each entry behind `gap` and before a
/// comma, and the closing bracket.
pub open spec fn entries_written(entries: Seq<Seq<u8>>, gap: Seq<u8>, from: int) -> Seq<u8>
    decreases entries.len() - from,
{
    if from >= entries.len() {
        gap + seq![0x5du8]
    } else {
        gap + (entries[from] + (seq![0x2cu8] + entries_written(entries, gap, from + 1)))
    }
}

/// Whether `text` stands in `bytes` at `at`.
pub open spec fn stands_at(bytes: Seq<u8>, at: int, text: Seq<u8>) -> bool {
    &&& 0 <= at
    &&& at + text.len() <= bytes.len()
    &&& bytes.subrange(at, at + text.len()) == text
}

proof fn parts_stand(bytes: Seq<u8>, at: int, first: Seq<u8>, rest: Seq<u8>)
    requires
        stands_at(bytes, at, first + rest),
    ensures
        stands_at(bytes, at, first),
        stands_at(bytes, at + first.len(), rest),
{
    let both = bytes.subrange(at, at + (first + rest).len());
    assert(bytes.subrange(at, at + first.len()) =~= both.subrange(0, first.len() as int));
    assert((first + rest).subrange(0, first.len() as int) =~= first);
    assert(bytes.subrange(at + first.len(), at + first.len() + rest.len()) =~= both.subrange(
        first.len() as int,
        both.len() as int,
    ));
    assert((first + rest).subrange(first.len() as int, both.len() as int) =~= rest);
}

proof fn standing_reads(bytes: Seq<u8>, at: int, text: Seq<u8>, i: int)
    requires
        stands_at(bytes, at, text),
        0 <= i < text.len(),
    ensures
        bytes[at + i] == text[i],
{
    assert(bytes.subrange(at, at + text.len())[i] == bytes[at + i]);
}

proof fn blanks_are_skipped(bytes: Seq<u8>, at: int, stop: int, end: int)
    requires
        0 <= at <= stop < end <= bytes.len(),
        forall|i: int| at <= i < stop ==> is_blank(#[trigger] bytes[i]),
        !is_blank(bytes[stop]),
        bytes[stop] != 0x23,
    ensures
        skip_trivia(bytes, at, end) == stop,
    decreases stop - at,
{
    if at < stop {
        assert(is_blank(bytes[at]));
        blanks_are_skipped(bytes, at + 1, stop, end);
    }
}

proof fn strings_end_at_their_quote(bytes: Seq<u8>, at: int, stop: int, end: int)
    requires
        0 <= at <= stop < end <= bytes.len(),
        forall|i: int| at <= i < stop ==> #[trigger] bytes[i] != 0x22 && bytes[i] != 0x5c,
        bytes[stop] == 0x22,
    ensures
        string_end(bytes, 0x22, at, end) == stop + 1,
    decreases stop - at,
{
    if at < stop {
        assert(bytes[at] != 0x22 && bytes[at] != 0x5c);
        strings_end_at_their_quote(bytes, at + 1, stop, end);
    }
}

proof fn first_entry_stands(bytes: Seq<u8>, at: int, gap: Seq<u8>, entry: Seq<u8>, rest: Seq<u8>)
    requires
        forall|i: int| 0 <= i < gap.len() ==> is_blank(#[trigger] gap[i]),
        is_plain_string(entry),
        stands_at(bytes, at, gap + (entry + (seq![0x2cu8] + rest))),
    ensures
        ({
            let end = at + (gap + (entry + (seq![0x2cu8] + rest))).len();
            let start = at + gap.len();
            &&& skip_trivia(bytes, at, end) == start
            &&& start < end
            &&& bytes[start] == 0x22
            &&& entry_end(bytes, start, end) == start + entry.len()
            &&& bytes.subrange(start, start + entry.len()) == entry
            &&& skip_trivia(bytes, start + entry.len(), end) == start + entry.len()
            &&& bytes[start + entry.len()] == 0x2c
            &&& stands_at(bytes, start + entry.len() + 1, rest)
            &&& start + entry.len() + 1 + rest.len() == end
        }),
{
    let end = at + (gap + (entry + (seq![0x2cu8] + rest))).len();
    let start = at + gap.len();
    parts_stand(bytes, at, gap, entry + (seq![0x2cu8] + rest));
    parts_stand(bytes, start, entry, seq![0x2cu8] + rest);
    parts_stand(bytes, start + entry.len(), seq![0x2cu8], rest);
    assert forall|i: int| at <= i < start implies is_blank(#[trigger] bytes[i]) by {
        standing_reads(bytes, at, gap, i - at);
        assert(is_blank(gap[i - at]));
    }
    standing_reads(bytes, start, entry, 0);
    blanks_are_skipped(bytes, at, start, end);
    assert forall|i: int|
        start + 1 <= i < start + entry.len() - 1 implies #[trigger] bytes[i] != 0x22 && bytes[i]
        != 0x5c by {
        standing_reads(bytes, start, entry, i - start);
        assert(entry[i - start] != 0x22 && entry[i - start] != 0x5c);
    }
    standing_reads(bytes, start, entry, entry.len() - 1);
    strings_end_at_their_quote(bytes, start + 1, start + entry.len() - 1, end);
    standing_reads(bytes, start + entry.len(), seq![0x2cu8], 0);
    blanks_are_skipped(bytes, start + entry.len(), start + entry.len(), end);
}

proof fn entries_stand_in_order(
    bytes: Seq<u8>,
    at: int,
    entries: Seq<Seq<u8>>,
    gap: Seq<u8>,
    from: int,
    index: nat,
)
    requires
        forall|i: int| 0 <= i < gap.len() ==> is_blank(#[trigger] gap[i]),
        forall|i: int| 0 <= i < entries.len() ==> is_plain_string(#[trigger] entries[i]),
        0 <= from <= entries.len(),
        stands_at(bytes, at, entries_written(entries, gap, from)),
    ensures
        ({
            let end = at + entries_written(entries, gap, from).len();
            match entry_from(bytes, at, end, index) {
                Some((start, stop)) => from + index < entries.len() && at <= start <= stop <= end
                    && bytes.subrange(start, stop) == entries[from + index],
                None => from + index >= entries.len(),
            }
        }),
    decreases index,
{
    let end = at + entries_written(entries, gap, from).len();
    if from >= entries.len() {
        let start = at + gap.len();
        parts_stand(bytes, at, gap, seq![0x5du8]);
        assert forall|i: int| at <= i < start implies is_blank(#[trigger] bytes[i]) by {
            standing_reads(bytes, at, gap, i - at);
            assert(is_blank(gap[i - at]));
        }
        standing_reads(bytes, start, seq![0x5du8], 0);
        blanks_are_skipped(bytes, at, start, end);
    } else {
        let rest = entries_written(entries, gap, from + 1);
        assert(is_plain_string(entries[from]));
        first_entry_stands(bytes, at, gap, entries[from], rest);
        if index > 0 {
            entries_stand_in_order(
                bytes,
                at + gap.len() + entries[from].len() + 1,
                entries,
                gap,
                from + 1,
                (index - 1) as nat,
            );
        }
    }
}

proof fn bytes_are_found(bytes: Seq<u8>, byte: u8, at: int, end: int)
    requires
        0 <= at < end,
        bytes[at] == byte,
    ensures
        find_byte(bytes, byte, at, end) == at,
{
}

/// An entry is found where it is written: of an array of plain strings that stands anywhere in a
/// file, with any white space between the entries, the place that is given for an entry holds that
/// entry's own text, and an entry that is not there has the place of the array.
pub proof fn entries_are_found_where_they_stand(
    before: Seq<u8>,
    entries: Seq<Seq<u8>>,
    gap: Seq<u8>,
    after: Seq<u8>,
    index: nat,
)
    requires
        forall|i: int| 0 <= i < gap.len() ==> is_blank(#[trigger] gap[i]),
        forall|i: int| 0 <= i < entries.len() ==> is_plain_string(#[trigger] entries[i]),
    ensures
        ({
            let array = seq![0x5bu8] + entries_written(entries, gap, 0);
            let bytes = before + array + after;
            let start = before.len() as int;
            let end = start + array.len();
            let (from, to) = entry_range(bytes, start, end, index);
            if index < entries.len() {
                start < from <= to < end && bytes.subrange(from, to) == entries[index as int]
            } else {
                from == start && to == end
            }
        }),
{
    let inner = entries_written(entries, gap, 0);
    let array = seq![0x5bu8] + inner;
    let bytes = before + array + after;
    let start = before.len() as int;
    let end = start + array.len();
    assert(bytes.subrange(start, end) =~= array);
    parts_stand(bytes, start, seq![0x5bu8], inner);
    standing_reads(bytes, start, array, 0);
    bytes_are_found(bytes, 0x5b, start, end);
    entries_stand_in_order(bytes, start + 1, entries, gap, 0, index);
    if index < entries.len() {
        let (from, to) = entry_range(bytes, start, end, index);
        if to == end {
            last_byte_closes(entries, gap, 0);
            standing_reads(bytes, start + 1, inner, inner.len() - 1);
            assert(is_plain_string(entries[index as int]));
            let entry = entries[index as int];
            assert(bytes.subrange(from, to)[to - from - 1] == bytes[to - 1]);
            assert(entry[entry.len() - 1] == 0x22);
        }
    }
}

proof fn last_byte_closes(entries: Seq<Seq<u8>>, gap: Seq<u8>, from: int)
    ensures
        ({
            let inner = entries_written(entries, gap, from);
            inner.len() > 0 && inner[inner.len() - 1] == 0x5d
        }),
    decreases entries.len() - from,
{
    if from < entries.len() {
        last_byte_closes(entries, gap, from + 1);
    }
}

proof fn part_ends(path: Seq<char>, at: int)
    requires
        0 <= at < path.len(),
        path[at] != SEPARATOR,
    ensures
        at < part_end(path, at) <= path.len(),
        part_end(path, at) < path.len() ==> path[part_end(path, at)] == SEPARATOR,
    decreases path.len() - at,
{
    if at + 1 < path.len() && path[at + 1] != SEPARATOR {
        part_ends(path, at + 1);
    }
    reveal_with_fuel(part_end, 2);
}

proof fn part_ends_where_it_did(root: Seq<char>, rest: Seq<char>, at: int)
    requires
        0 <= at <= root.len(),
    ensures
        part_end(root + seq![SEPARATOR] + rest, at) == part_end(root, at),
    decreases root.len() - at,
{
    let path = root + seq![SEPARATOR] + rest;
    if at < root.len() {
        assert(path[at] == root[at]);
        if root[at] != SEPARATOR {
            part_ends_where_it_did(root, rest, at + 1);
        }
    } else {
        assert(path[at] == SEPARATOR);
    }
}

spec fn lie_within(ranges: Seq<(int, int)>, size: int) -> bool {
    forall|i: int|
        0 <= i < ranges.len() ==> 0 <= (#[trigger] ranges[i]).0 && ranges[i].0 <= ranges[i].1
            && ranges[i].1 <= size
}

proof fn parts_lie_within(path: Seq<char>, at: int)
    ensures
        lie_within(parts(path, at), path.len() as int),
    decreases path.len() - at,
{
    if 0 <= at < path.len() {
        if path[at] == SEPARATOR {
            parts_lie_within(path, at + 1);
        } else {
            part_ends(path, at);
            let end = part_end(path, at);
            parts_lie_within(path, end);
            assert(lie_within(seq![(at, end)] + parts(path, end), path.len() as int));
        }
    }
}

proof fn parts_come_first(root: Seq<char>, rest: Seq<char>, at: int)
    requires
        0 <= at <= root.len(),
    ensures
        parts(root + seq![SEPARATOR] + rest, at) == parts(root, at) + parts(
            root + seq![SEPARATOR] + rest,
            root.len() as int + 1,
        ),
    decreases root.len() - at,
{
    let path = root + seq![SEPARATOR] + rest;
    let behind = parts(path, root.len() as int + 1);
    if at == root.len() {
        assert(path[at] == SEPARATOR);
        assert(parts(root, at) + behind =~= behind);
    } else {
        assert(path[at] == root[at]);
        if root[at] == SEPARATOR {
            parts_come_first(root, rest, at + 1);
        } else {
            part_ends(root, at);
            part_ends_where_it_did(root, rest, at);
            let end = part_end(root, at);
            parts_come_first(root, rest, end);
            assert(seq![(at, end)] + (parts(root, end) + behind) =~= seq![(at, end)] + parts(
                root,
                end,
            ) + behind);
        }
    }
}

proof fn last_part_ends_the_path(path: Seq<char>, at: int)
    requires
        0 <= at < path.len(),
        at == 0 || path[at] == SEPARATOR || path[at - 1] == SEPARATOR,
        path[path.len() - 1] != SEPARATOR,
        path[path.len() - 1] == '.' ==> path.len() > 1 && path[path.len() - 2] != SEPARATOR,
    ensures
        parts(path, at).len() > 0,
        parts(path, at)[parts(path, at).len() - 1].1 == path.len(),
    decreases path.len() - at,
{
    if path[at] == SEPARATOR {
        last_part_ends_the_path(path, at + 1);
    } else {
        part_ends(path, at);
        let end = part_end(path, at);
        if end < path.len() {
            last_part_ends_the_path(path, end);
        }
    }
}

/// A path under a root is shown without the root: what was joined to the root comes back as it was.
/// Left out is what a path does not keep: separators at the ends, and parts that are a single dot.
pub proof fn paths_are_shown_under_their_root(root: Seq<char>, rest: Seq<char>)
    requires
        root.len() > 0,
        rest.len() > 0,
        rest[0] != SEPARATOR,
        rest[rest.len() - 1] != SEPARATOR,
        rest[0] == '.' ==> rest.len() > 1 && rest[1] != SEPARATOR,
        rest[rest.len() - 1] == '.' ==> rest.len() > 1 && rest[rest.len() - 2] != SEPARATOR,
    ensures
        relative(root + seq![SEPARATOR] + rest, root) == Some(rest),
        shown(root + seq![SEPARATOR] + rest, root) == rest,
{
    let path = root + seq![SEPARATOR] + rest;
    let from = root.len() as int + 1;
    let inner = parts(path, 0);
    let outer = parts(root, 0);
    parts_come_first(root, rest, 0);
    parts_lie_within(root, 0);
    assert(path[from] == rest[0]);
    assert(path[path.len() - 1] == rest[rest.len() - 1]);
    assert(rest.len() > 1 ==> path[path.len() - 2] == rest[rest.len() - 2]);
    assert(rest.len() > 1 ==> path[from + 1] == rest[1]);
    assert(path[from - 1] == SEPARATOR);
    part_ends(path, from);
    last_part_ends_the_path(path, from);
    let behind = parts(path, from);
    assert(behind[0].0 == from) by {
        reveal_with_fuel(part_end, 3);
    }
    assert(inner == outer + behind);
    assert(inner[outer.len() as int] == behind[0]);
    assert(inner.last() == behind[behind.len() - 1]);
    assert(same_parts(path, inner, root, outer, outer.len() as int)) by {
        assert forall|i: int| 0 <= i < outer.len() implies path.subrange(
            (#[trigger] inner[i]).0,
            inner[i].1,
        ) == root.subrange(outer[i].0, outer[i].1) by {
            assert(inner[i] == outer[i]);
            assert(path.subrange(outer[i].0, outer[i].1) =~= root.subrange(outer[i].0, outer[i].1));
        }
    }
    assert(path[0] == root[0]);
    if root[0] != SEPARATOR {
        part_ends(root, 0);
        assert(outer.len() > 0);
    }
    assert(path.subrange(from, path.len() as int) =~= rest);
}

/// A path that does not start where the root starts is shown as it is written.
pub proof fn paths_elsewhere_are_shown_whole(path: Seq<char>, root: Seq<char>)
    requires
        root.len() > 0,
        is_absolute(path) != is_absolute(root),
    ensures
        relative(path, root) is None,
        shown(path, root) == path,
{
    if !is_absolute(root) {
        part_ends(root, 0);
        assert(parts(root, 0).len() > 0);
    }
}

} // verus!
