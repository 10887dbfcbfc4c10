//! Places in a text: byte offsets, and lines and columns counted from one.

use crate::text::{self, decimal};
use vstd::prelude::*;
use vstd::utf8::{encode_scalar, encode_utf8};

verus! {

/// The number of bytes that a character takes.
pub open spec fn width(c: char) -> nat {
    encode_scalar(c as u32).len()
}

/// The number of bytes that `text` takes.
pub open spec fn size(text: Seq<char>) -> nat {
    encode_utf8(text).len()
}

/// How many characters of `text` lie whole within its first `offset` bytes.
pub open spec fn chars_within(text: Seq<char>, offset: nat) -> nat
    decreases text.len(),
{
    if text.len() == 0 || width(text[0]) > offset {
        0
    } else {
        1 + chars_within(text.skip(1), (offset - width(text[0])) as nat)
    }
}

/// How many lines end in `text`.
pub open spec fn newlines(text: Seq<char>) -> nat
    decreases text.len(),
{
    if text.len() == 0 {
        0
    } else {
        newlines(text.drop_last()) + if text.last() == '\n' {
            1nat
        } else {
            0nat
        }
    }
}

/// How many characters of `text` stand behind its last line end.
pub open spec fn last_line(text: Seq<char>) -> nat
    decreases text.len(),
{
    if text.len() == 0 || text.last() == '\n' {
        0
    } else {
        last_line(text.drop_last()) + 1
    }
}

/// The smaller of `value` and the largest `u32`.
pub open spec fn saturated(value: nat) -> nat {
    if value > u32::MAX {
        u32::MAX as nat
    } else {
        value
    }
}

/// The line and the column of byte `offset` of `text`, each counted from one. An offset past the
/// end stands for the end, and the column counts characters, so that characters of several bytes
/// before the offset do not inflate it.
pub open spec fn place_of(text: Seq<char>, offset: nat) -> (nat, nat) {
    let before = text.take(chars_within(text, offset) as int);
    (saturated(newlines(before) + 1), saturated(last_line(before) + 1))
}

/// Where column `col` of line `line` stands in `text`, both counted from zero: the number of
/// characters before it. A column past the end of a line stands for its end.
pub open spec fn chars_before(text: Seq<char>, line: nat, col: nat) -> Option<nat>
    decreases text.len(),
{
    if line == 0 {
        if col == 0 || text.len() == 0 || text[0] == '\n' {
            Some(0)
        } else {
            match chars_before(text.skip(1), 0, (col - 1) as nat) {
                Some(count) => Some(count + 1),
                None => None,
            }
        }
    } else if text.len() == 0 {
        None
    } else {
        let rest = if text[0] == '\n' {
            chars_before(text.skip(1), (line - 1) as nat, col)
        } else {
            chars_before(text.skip(1), line, col)
        };
        match rest {
            Some(count) => Some(count + 1),
            None => None,
        }
    }
}

/// The byte offset of column `col` of line `line`, both counted from one; `None` when either is
/// zero or the text has no such line.
pub open spec fn offset_of(text: Seq<char>, line: nat, col: nat) -> Option<nat> {
    if line == 0 || col == 0 {
        None
    } else {
        match chars_before(text, (line - 1) as nat, (col - 1) as nat) {
            Some(count) => Some(size(text.take(count as int))),
            None => None,
        }
    }
}

/// The bytes of a text are those of its characters, one after the other.
proof fn size_of_first(text: Seq<char>)
    requires
        text.len() > 0,
    ensures
        size(text) == width(text[0]) + size(text.skip(1)),
        1 <= width(text[0]) <= 4,
{
    vstd::utf8::char_is_scalar(text[0]);
    assert(text.skip(1) =~= text.drop_first());
}

/// A prefix of a text takes no more bytes than the text, and one more character its width more.
pub(crate) proof fn size_of_prefix(text: Seq<char>, upto: int)
    requires
        0 <= upto <= text.len(),
    ensures
        size(text.take(upto)) <= size(text),
        upto < text.len() ==> size(text.take(upto + 1)) == size(text.take(upto)) + width(text[upto]),
        upto <= size(text.take(upto)),
    decreases text.len(),
{
    if text.len() > 0 {
        size_of_first(text);
        if upto > 0 {
            size_of_prefix(text.skip(1), upto - 1);
            size_of_first(text.take(upto));
            assert(text.take(upto).skip(1) =~= text.skip(1).take(upto - 1));
            if upto < text.len() {
                size_of_first(text.take(upto + 1));
                assert(text.take(upto + 1).skip(1) =~= text.skip(1).take(upto));
                assert(text.skip(1)[upto - 1] == text[upto]);
            }
        } else {
            size_of_first(text.take(1));
            assert(text.take(1).skip(1) =~= Seq::<char>::empty());
            assert(text.take(0) =~= Seq::<char>::empty());
        }
    } else {
        assert(text.take(upto) =~= text);
    }
}

/// A prefix lies whole within as many bytes as it takes.
proof fn prefix_is_within(text: Seq<char>, upto: int)
    requires
        0 <= upto <= text.len(),
    ensures
        chars_within(text, size(text.take(upto))) == upto,
    decreases text.len(),
{
    if text.len() > 0 {
        size_of_first(text);
        if upto > 0 {
            prefix_is_within(text.skip(1), upto - 1);
            size_of_first(text.take(upto));
            assert(text.take(upto).skip(1) =~= text.skip(1).take(upto - 1));
        } else {
            assert(text.take(0) =~= Seq::<char>::empty());
        }
    } else {
        assert(text.take(upto) =~= text);
    }
}

/// The place of a prefix's end leads back to that end.
proof fn place_leads_back(text: Seq<char>, upto: int)
    requires
        0 <= upto <= text.len(),
    ensures
        chars_before(text, newlines(text.take(upto)), last_line(text.take(upto))) == Some(
            upto as nat,
        ),
    decreases text.len(),
{
    let before = text.take(upto);
    if upto == 0 {
        assert(before =~= Seq::<char>::empty());
    } else {
        let rest = text.skip(1);
        place_leads_back(rest, upto - 1);
        assert(rest.take(upto - 1) =~= before.skip(1));
        first_line_of(before);
    }
}

/// The lines of a text, and the last one of them, without its first character.
proof fn first_line_of(text: Seq<char>)
    requires
        text.len() > 0,
    ensures
        newlines(text) == newlines(text.skip(1)) + if text[0] == '\n' {
            1nat
        } else {
            0nat
        },
        newlines(text) == 0 ==> last_line(text) == last_line(text.skip(1)) + 1,
        newlines(text) == 0 ==> last_line(text.skip(1)) == text.len() - 1,
        newlines(text) > 0 ==> last_line(text) == last_line(text.skip(1)),
    decreases text.len(),
{
    let less = text.drop_last();
    if text.len() == 1 {
        assert(text.skip(1) =~= Seq::<char>::empty());
        assert(less =~= Seq::<char>::empty());
        assert(newlines(less) == 0);
        assert(last_line(less) == 0);
    } else {
        first_line_of(less);
        assert(less.skip(1) =~= text.skip(1).drop_last());
        assert(text.skip(1).last() == text.last());
        assert(less[0] == text[0]);
    }
}

/// The line and the column of a byte offset lead back to it, where the offset stands between two
/// characters and neither number is too large for its type.
pub proof fn places_lead_back(text: Seq<char>, upto: int)
    requires
        0 <= upto <= text.len(),
        newlines(text.take(upto)) < u32::MAX,
        last_line(text.take(upto)) < u32::MAX,
    ensures
        ({
            let offset = size(text.take(upto));
            let (line, col) = place_of(text, offset);
            offset_of(text, line, col) == Some(offset)
        }),
{
    prefix_is_within(text, upto);
    place_leads_back(text, upto);
}

/// The number of bytes of a character.
pub(crate) fn width_of(c: char) -> (bytes: usize)
    ensures
        bytes == width(c),
        1 <= bytes <= 4,
{
    proof {
        vstd::utf8::char_is_scalar(c);
    }
    let value: u32 = c as u32;
    if value < 0x80 {
        1
    } else if value < 0x800 {
        2
    } else if value < 0x10000 {
        3
    } else {
        4
    }
}

/// One more, as far as it fits.
pub(crate) fn one_more(value: u32) -> (more: u32)
    ensures
        more == saturated((value + 1) as nat),
{
    if value < u32::MAX {
        value + 1
    } else {
        value
    }
}

/// Converts a byte `offset` into `source` to a line and a character column, counted from one.
///
/// Offsets past the end clamp to the end of the text.
pub fn place(source: &str, offset: usize) -> (place: (u32, u32))
    ensures
        (place.0 as nat, place.1 as nat) == place_of(source@, offset as nat),
{
    let chars = text::chars_of(source);
    let mut line: u32 = 1;
    let mut col: u32 = 1;
    let mut left: usize = offset;
    let mut at: usize = 0;
    proof {
        assert(chars@.skip(0) =~= chars@);
        assert(chars@.take(0) =~= Seq::<char>::empty());
    }
    while at < chars.len() && width_of(chars[at]) <= left
        invariant
            chars@ == source@,
            at <= chars@.len(),
            chars_within(chars@, offset as nat) == at + chars_within(
                chars@.skip(at as int),
                left as nat,
            ),
            line as nat == saturated(newlines(chars@.take(at as int)) + 1),
            col as nat == saturated(last_line(chars@.take(at as int)) + 1),
        decreases chars@.len() - at,
    {
        proof {
            let now = chars@.take(at + 1);
            assert(now.drop_last() =~= chars@.take(at as int));
            assert(now.last() == chars@[at as int]);
            assert(chars@.skip(at as int)[0] == chars@[at as int]);
            assert(chars@.skip(at as int).skip(1) =~= chars@.skip(at + 1));
        }
        if chars[at] == '\n' {
            line = one_more(line);
            col = 1;
        } else {
            col = one_more(col);
        }
        left = left - width_of(chars[at]);
        at = at + 1;
    }
    proof {
        if at < chars@.len() {
            assert(chars@.skip(at as int)[0] == chars@[at as int]);
        }
        assert(chars_within(chars@.skip(at as int), left as nat) == 0);
    }
    (line, col)
}

/// Reconstructs a zero-based byte offset from a line and a character column, counted from one.
///
/// Columns beyond the end of an existing line clamp to that line's end. Zero-valued or
/// nonexistent line coordinates return `None`.
#[must_use]
pub fn line_col_to_offset(source: &str, line: u32, col: u32) -> (offset: Option<usize>)
    ensures
        match offset {
            Some(offset) => offset_of(source@, line as nat, col as nat) == Some(offset as nat),
            None => offset_of(source@, line as nat, col as nat) is None,
        },
{
    if line == 0 || col == 0 {
        return None;
    }
    let chars = text::chars_of(source);
    let total: usize = source.as_bytes().len();
    let mut lines: u32 = line - 1;
    let mut at: usize = 0;
    let mut bytes: usize = 0;
    let ghost wanted = chars_before(source@, (line - 1) as nat, (col - 1) as nat);
    proof {
        assert(chars@.skip(0) =~= chars@);
        assert(chars@.take(0) =~= Seq::<char>::empty());
    }
    while lines > 0
        invariant
            chars@ == source@,
            total == size(source@),
            at <= chars@.len(),
            bytes == size(chars@.take(at as int)),
            wanted == (match chars_before(chars@.skip(at as int), lines as nat, (col - 1) as nat) {
                Some(count) => Some((count + at) as nat),
                None => None,
            }),
            wanted == chars_before(source@, (line - 1) as nat, (col - 1) as nat),
            line > 0,
            col > 0,
        decreases chars@.len() - at,
    {
        if at >= chars.len() {
            return None;
        }
        proof {
            size_of_prefix(chars@, at as int);
            size_of_prefix(chars@, at + 1);
            assert(chars@.skip(at as int)[0] == chars@[at as int]);
            assert(chars@.skip(at as int).skip(1) =~= chars@.skip(at + 1));
        }
        if chars[at] == '\n' {
            lines = lines - 1;
        }
        bytes = bytes + width_of(chars[at]);
        at = at + 1;
    }
    let mut cols: u32 = col - 1;
    while cols > 0 && at < chars.len() && chars[at] != '\n'
        invariant
            chars@ == source@,
            total == size(source@),
            at <= chars@.len(),
            bytes == size(chars@.take(at as int)),
            wanted == (match chars_before(chars@.skip(at as int), 0, cols as nat) {
                Some(count) => Some((count + at) as nat),
                None => None,
            }),
        decreases chars@.len() - at,
    {
        proof {
            size_of_prefix(chars@, at as int);
            size_of_prefix(chars@, at + 1);
            assert(chars@.skip(at as int)[0] == chars@[at as int]);
            assert(chars@.skip(at as int).skip(1) =~= chars@.skip(at + 1));
        }
        cols = cols - 1;
        bytes = bytes + width_of(chars[at]);
        at = at + 1;
    }
    proof {
        if at < chars@.len() {
            assert(chars@.skip(at as int)[0] == chars@[at as int]);
        }
    }
    Some(bytes)
}

/// `count` times the same character.
pub open spec fn repeated(c: char, count: nat) -> Seq<char> {
    Seq::new(count, |i: int| c)
}

/// Appends `c` as often as `count` says.
pub(crate) fn push_repeated(written: &mut String, c: char, count: usize)
    ensures
        final(written)@ == old(written)@ + repeated(c, count as nat),
{
    let mut at: usize = 0;
    assert(written@ =~= old(written)@ + repeated(c, 0));
    while at < count
        invariant
            at <= count,
            written@ == old(written)@ + repeated(c, at as nat),
        decreases count - at,
    {
        written.push(c);
        at = at + 1;
        assert(written@ =~= old(written)@ + repeated(c, at as nat));
    }
}

/// Appends `c` once more often than `count` says.
fn push_one_more(written: &mut String, c: char, count: usize)
    ensures
        final(written)@ == old(written)@ + repeated(c, (count + 1) as nat),
{
    push_repeated(written, c, count);
    written.push(c);
    assert(written@ =~= old(written)@ + repeated(c, (count + 1) as nat));
}

/// Where the line that character `at` stands in ends.
pub open spec fn line_end(text: Seq<char>, at: int) -> int
    decreases text.len() - at,
{
    if at >= text.len() || text[at] == '\n' {
        at
    } else {
        line_end(text, at + 1)
    }
}

/// The line that character `at` stands in.
pub open spec fn line_around(text: Seq<char>, at: int) -> Seq<char> {
    text.subrange(at - last_line(text.take(at)), line_end(text, at))
}

/// No more characters lie within an offset than the text holds.
pub(crate) proof fn chars_are_within(text: Seq<char>, offset: nat)
    ensures
        chars_within(text, offset) <= text.len(),
    decreases text.len(),
{
    if text.len() > 0 && width(text[0]) <= offset {
        chars_are_within(text.skip(1), (offset - width(text[0])) as nat);
    }
}

/// How many characters of `source` lie whole within its first `offset` bytes.
pub(crate) fn chars_to(source: &str, offset: usize) -> (count: usize)
    ensures
        count == chars_within(source@, offset as nat),
        count <= source@.len(),
{
    let chars = text::chars_of(source);
    let mut left: usize = offset;
    let mut at: usize = 0;
    assert(chars@.skip(0) =~= chars@);
    while at < chars.len() && width_of(chars[at]) <= left
        invariant
            chars@ == source@,
            at <= chars@.len(),
            chars_within(chars@, offset as nat) == at + chars_within(
                chars@.skip(at as int),
                left as nat,
            ),
        decreases chars@.len() - at,
    {
        proof {
            assert(chars@.skip(at as int)[0] == chars@[at as int]);
            assert(chars@.skip(at as int).skip(1) =~= chars@.skip(at + 1));
        }
        left = left - width_of(chars[at]);
        at = at + 1;
    }
    proof {
        if at < chars@.len() {
            assert(chars@.skip(at as int)[0] == chars@[at as int]);
        }
    }
    at
}

/// The text between two byte offsets.
pub open spec fn between(text: Seq<char>, start: nat, end: nat) -> Seq<char> {
    let from = chars_within(text, start);
    let to = chars_within(text, end);
    if from <= to {
        text.subrange(from as int, to as int)
    } else {
        Seq::empty()
    }
}

/// The text between two byte offsets.
pub(crate) fn slice(source: &str, start: usize, end: usize) -> (text: String)
    ensures
        text@ == between(source@, start as nat, end as nat),
{
    let from = chars_to(source, start);
    let to = chars_to(source, end);
    if from <= to {
        let chars = text::chars_of(source);
        text::string_of(&chars, from, to)
    } else {
        let none = String::new();
        assert(none@ =~= Seq::<char>::empty());
        none
    }
}

/// A message about the bytes `start..end` of a document, under the line that they stand in: the
/// line behind its number, and marks under the bytes, one at least and none past the line.
pub open spec fn annotated(source: Seq<char>, start: nat, end: nat, message: Seq<char>) -> Seq<char> {
    let at = chars_within(source, start) as int;
    let line = decimal((newlines(source.take(at)) + 1) as nat);
    let col = last_line(source.take(at));
    let content = line_around(source, at);
    let room = if size(content) > col {
        (size(content) - col) as nat
    } else {
        0
    };
    let wanted = if end > start {
        (end - start) as nat
    } else {
        0
    };
    let marks = if wanted < room {
        wanted
    } else {
        room
    };
    "TOML parse error at line "@ + line + ", column "@ + decimal((col + 1) as nat) + "\n"@ + repeated(
        ' ',
        line.len() + 1,
    ) + "|\n"@ + line + " | "@ + content + "\n"@ + repeated(' ', line.len() + 1) + "|"@ + repeated(
        ' ',
        (col + 1) as nat,
    ) + repeated(
        '^',
        if marks == 0 {
            1
        } else {
            marks
        },
    ) + "\n"@ + message + "\n"@
}

/// Writes a message about the bytes `start..end` of a document under the line that they stand
/// in.
pub(crate) fn annotate(source: &str, start: usize, end: usize, message: &str) -> (written: String)
    ensures
        written@ == annotated(source@, start as nat, end as nat, message@),
{
    let chars = text::chars_of(source);
    let at = chars_to(source, start);
    let ghost before = chars@.take(at as int);
    let mut lines: usize = 0;
    let mut col: usize = 0;
    let mut walked: usize = 0;
    assert(chars@.take(0) =~= Seq::<char>::empty());
    while walked < at
        invariant
            walked <= at <= chars@.len(),
            lines == newlines(chars@.take(walked as int)),
            col == last_line(chars@.take(walked as int)),
            lines <= walked,
            col <= walked,
        decreases at - walked,
    {
        proof {
            let now = chars@.take(walked + 1);
            assert(now.drop_last() =~= chars@.take(walked as int));
            assert(now.last() == chars@[walked as int]);
        }
        if chars[walked] == '\n' {
            lines = lines + 1;
            col = 0;
        } else {
            col = col + 1;
        }
        walked = walked + 1;
    }
    let mut stop: usize = at;
    while stop < chars.len() && chars[stop] != '\n'
        invariant
            at <= stop <= chars@.len(),
            line_end(chars@, at as int) == line_end(chars@, stop as int),
        decreases chars@.len() - stop,
    {
        stop = stop + 1;
    }
    let content = text::string_of(&chars, at - col, stop);
    let length: usize = content.as_str().as_bytes().len();
    let room: usize = if length > col {
        length - col
    } else {
        0
    };
    let wanted: usize = if end > start {
        end - start
    } else {
        0
    };
    let least: usize = if wanted < room {
        wanted
    } else {
        room
    };
    let marks: usize = if least == 0 {
        1
    } else {
        least
    };
    let mut number = String::new();
    text::push_decimal(&mut number, lines as u128 + 1);
    proof {
        assert(number@ =~= decimal((lines + 1) as nat));
    }
    let digits = text::chars_of(number.as_str()).len();
    let mut written = "TOML parse error at line ".to_owned();
    written.push_str(number.as_str());
    written.push_str(", column ");
    text::push_decimal(&mut written, col as u128 + 1);
    written.push_str("\n");
    push_one_more(&mut written, ' ', digits);
    written.push_str("|\n");
    written.push_str(number.as_str());
    written.push_str(" | ");
    written.push_str(content.as_str());
    written.push_str("\n");
    push_one_more(&mut written, ' ', digits);
    written.push_str("|");
    push_one_more(&mut written, ' ', col);
    push_repeated(&mut written, '^', marks);
    written.push_str("\n");
    written.push_str(message);
    written.push_str("\n");
    written
}

/// The number of bytes that the first `count` characters of `source` take.
pub(crate) fn bytes_to(source: &str, count: usize) -> (bytes: usize)
    requires
        count <= source@.len(),
    ensures
        bytes == size(source@.take(count as int)),
{
    let chars = text::chars_of(source);
    let total: usize = source.as_bytes().len();
    let mut bytes: usize = 0;
    let mut at: usize = 0;
    assert(chars@.take(0) =~= Seq::<char>::empty());
    while at < count
        invariant
            chars@ == source@,
            total == size(source@),
            at <= count <= chars@.len(),
            bytes == size(chars@.take(at as int)),
        decreases count - at,
    {
        proof {
            size_of_prefix(chars@, at as int);
            size_of_prefix(chars@, at + 1);
        }
        bytes = bytes + width_of(chars[at]);
        at = at + 1;
    }
    bytes
}

/// Whether byte `offset` of a text stands between two of its characters, or at an end.
pub open spec fn is_boundary(text: Seq<char>, offset: nat) -> bool {
    size(text.take(chars_within(text, offset) as int)) == offset
}

/// Whether byte `offset` of `source` stands between two of its characters, or at an end.
pub(crate) fn at_boundary(source: &str, offset: usize) -> (found: bool)
    ensures
        found == is_boundary(source@, offset as nat),
{
    bytes_to(source, chars_to(source, offset)) == offset
}

/// Where the line that byte `offset` of a text stands in ends, in bytes.
pub open spec fn line_stop(text: Seq<char>, offset: nat) -> nat {
    size(text.take(line_end(text, chars_within(text, offset) as int)))
}

/// Where the line that byte `offset` of `source` stands in ends, in bytes.
pub(crate) fn stop_of_line(source: &str, offset: usize) -> (stop: usize)
    ensures
        stop == line_stop(source@, offset as nat),
{
    let chars = text::chars_of(source);
    let mut at = chars_to(source, offset);
    let ghost start = at;
    while at < chars.len() && chars[at] != '\n'
        invariant
            chars@ == source@,
            at <= chars@.len(),
            line_end(chars@, start as int) == line_end(chars@, at as int),
        decreases chars@.len() - at,
    {
        at = at + 1;
    }
    bytes_to(source, at)
}

} // verus!
