//! Where the entries of a written TOML array stand.

use vstd::prelude::*;

verus! {

/// Whether a byte is ASCII white space.
pub open spec fn is_blank(byte: u8) -> bool {
    byte == 0x20 || byte == 0x09 || byte == 0x0a || byte == 0x0c || byte == 0x0d
}

fn blank(byte: u8) -> (found: bool)
    ensures
        found == is_blank(byte),
{
    byte == 0x20 || byte == 0x09 || byte == 0x0a || byte == 0x0c || byte == 0x0d
}

/// The first place of `byte` from `at` on, or `end`.
pub open spec fn find_byte(bytes: Seq<u8>, byte: u8, at: int, end: int) -> int
    decreases end - at,
{
    if at >= end || bytes[at] == byte {
        at
    } else {
        find_byte(bytes, byte, at + 1, end)
    }
}

proof fn find_moves_on(bytes: Seq<u8>, byte: u8, at: int, end: int)
    ensures
        at <= find_byte(bytes, byte, at, end),
        at <= end ==> find_byte(bytes, byte, at, end) <= end,
        at < end && bytes[at] != byte ==> at < find_byte(bytes, byte, at, end),
    decreases end - at,
{
    if at < end && bytes[at] != byte {
        find_moves_on(bytes, byte, at + 1, end);
    }
}

/// The first place from `at` on that is neither white space nor in a comment.
pub open spec fn skip_trivia(bytes: Seq<u8>, at: int, end: int) -> int
    decreases end - at,
{
    if at >= end {
        at
    } else if is_blank(bytes[at]) {
        skip_trivia(bytes, at + 1, end)
    } else if bytes[at] == 0x23 {
        let next = find_byte(bytes, 0x0a, at, end);
        if next <= at || next > end {
            at
        } else {
            skip_trivia(bytes, next, end)
        }
    } else {
        at
    }
}

proof fn trivia_moves_on(bytes: Seq<u8>, at: int, end: int)
    ensures
        at <= skip_trivia(bytes, at, end),
        at <= end ==> skip_trivia(bytes, at, end) <= end,
    decreases end - at,
{
    if at < end {
        if is_blank(bytes[at]) {
            trivia_moves_on(bytes, at + 1, end);
        } else if bytes[at] == 0x23 {
            find_moves_on(bytes, 0x0a, at, end);
            trivia_moves_on(bytes, find_byte(bytes, 0x0a, at, end), end);
        }
    }
}

/// Behind the string whose text starts at `at` and which `quote` closes. A backslash takes the
/// byte behind it along where the quote is a double one.
pub open spec fn string_end(bytes: Seq<u8>, quote: u8, at: int, end: int) -> int
    decreases end - at,
{
    if at >= end {
        at
    } else if bytes[at] == 0x5c && quote == 0x22 {
        if at + 2 > end {
            end
        } else {
            string_end(bytes, quote, at + 2, end)
        }
    } else if bytes[at] == quote {
        at + 1
    } else {
        string_end(bytes, quote, at + 1, end)
    }
}

proof fn string_moves_on(bytes: Seq<u8>, quote: u8, at: int, end: int)
    requires
        at <= end,
    ensures
        at <= string_end(bytes, quote, at, end) <= end,
    decreases end - at,
{
    if at < end {
        if bytes[at] == 0x5c && quote == 0x22 {
            if at + 2 <= end {
                string_moves_on(bytes, quote, at + 2, end);
            }
        } else if bytes[at] != quote {
            string_moves_on(bytes, quote, at + 1, end);
        }
    }
}

/// The first place from `at` on that closes an entry: a comma, a bracket, or `end`.
pub open spec fn entry_close(bytes: Seq<u8>, at: int, end: int) -> int
    decreases end - at,
{
    if at >= end || bytes[at] == 0x2c || bytes[at] == 0x5d {
        at
    } else {
        entry_close(bytes, at + 1, end)
    }
}

/// `at` without the white space before it, but not before `start`.
pub open spec fn trim_back(bytes: Seq<u8>, start: int, at: int) -> int
    decreases at - start,
{
    if at > start && is_blank(bytes[at - 1]) {
        trim_back(bytes, start, at - 1)
    } else {
        at
    }
}

/// Behind the entry that starts at `at`.
pub open spec fn entry_end(bytes: Seq<u8>, at: int, end: int) -> int {
    if bytes[at] == 0x27 || bytes[at] == 0x22 {
        string_end(bytes, bytes[at], at + 1, end)
    } else {
        trim_back(bytes, at, entry_close(bytes, at, end))
    }
}

/// Where entry `index` of the entries that start at `at` stands.
pub open spec fn entry_from(bytes: Seq<u8>, at: int, end: int, index: nat) -> Option<(int, int)>
    decreases index,
{
    let start = skip_trivia(bytes, at, end);
    if start >= end || bytes[start] == 0x5d {
        None
    } else {
        let stop = entry_end(bytes, start, end);
        if index == 0 {
            Some((start, stop))
        } else {
            let next = skip_trivia(bytes, stop, end);
            let next = if next < end && bytes[next] == 0x2c {
                next + 1
            } else {
                next
            };
            entry_from(bytes, next, end, (index - 1) as nat)
        }
    }
}

/// Where entry `index` of the array at `start..end` stands; `start..end` itself when there is no
/// such entry.
pub open spec fn entry_range(bytes: Seq<u8>, start: int, end: int, index: nat) -> (int, int) {
    let size = bytes.len() as int;
    let first = if start < size {
        start
    } else {
        size
    };
    let last = if end < size {
        end
    } else {
        size
    };
    let opening = find_byte(bytes, 0x5b, first, last);
    if opening >= last {
        (start, end)
    } else {
        match entry_from(bytes, opening + 1, last, index) {
            Some(found) => found,
            None => (start, end),
        }
    }
}

fn find(bytes: &[u8], byte: u8, from: usize, end: usize) -> (found: usize)
    requires
        end <= bytes@.len(),
    ensures
        found == find_byte(bytes@, byte, from as int, end as int),
        from <= end ==> from <= found <= end,
{
    let mut at: usize = from;
    while at < end && bytes[at] != byte
        invariant
            end <= bytes@.len(),
            from <= at,
            from <= end ==> at <= end,
            find_byte(bytes@, byte, from as int, end as int) == find_byte(
                bytes@,
                byte,
                at as int,
                end as int,
            ),
        decreases end - at,
    {
        at = at + 1;
    }
    at
}

fn skip_array_trivia(bytes: &[u8], from: usize, end: usize) -> (found: usize)
    requires
        end <= bytes@.len(),
    ensures
        found == skip_trivia(bytes@, from as int, end as int),
        from <= found,
        from <= end ==> found <= end,
{
    let mut at: usize = from;
    proof {
        trivia_moves_on(bytes@, from as int, end as int);
    }
    while at < end && (blank(bytes[at]) || bytes[at] == 0x23)
        invariant
            end <= bytes@.len(),
            from <= at,
            from <= end ==> at <= end,
            skip_trivia(bytes@, from as int, end as int) == skip_trivia(
                bytes@,
                at as int,
                end as int,
            ),
        decreases end - at,
    {
        if blank(bytes[at]) {
            at = at + 1;
        } else {
            proof {
                find_moves_on(bytes@, 0x0a, at as int, end as int);
            }
            at = find(bytes, 0x0a, at, end);
        }
    }
    at
}

fn end_of_string(bytes: &[u8], quote: u8, from: usize, end: usize) -> (found: usize)
    requires
        end <= bytes@.len(),
        from <= end,
    ensures
        found == string_end(bytes@, quote, from as int, end as int),
        from <= found <= end,
{
    let mut at: usize = from;
    proof {
        string_moves_on(bytes@, quote, from as int, end as int);
    }
    while at < end
        invariant
            end <= bytes@.len(),
            from <= at <= end,
            string_end(bytes@, quote, from as int, end as int) == string_end(
                bytes@,
                quote,
                at as int,
                end as int,
            ),
            from <= string_end(bytes@, quote, from as int, end as int) <= end,
        decreases end - at,
    {
        if bytes[at] == 0x5c && quote == 0x22 {
            if at == end - 1 {
                return end;
            }
            at = at + 2;
        } else if bytes[at] == quote {
            return at + 1;
        } else {
            at = at + 1;
        }
    }
    at
}

fn end_of_entry(bytes: &[u8], from: usize, end: usize) -> (found: usize)
    requires
        end <= bytes@.len(),
        from < end,
    ensures
        found == entry_end(bytes@, from as int, end as int),
        from <= found <= end,
{
    if bytes[from] == 0x27 || bytes[from] == 0x22 {
        return end_of_string(bytes, bytes[from], from + 1, end);
    }
    let mut at: usize = from;
    while at < end && bytes[at] != 0x2c && bytes[at] != 0x5d
        invariant
            end <= bytes@.len(),
            from <= at <= end,
            entry_close(bytes@, from as int, end as int) == entry_close(
                bytes@,
                at as int,
                end as int,
            ),
        decreases end - at,
    {
        at = at + 1;
    }
    let ghost close = at as int;
    while at > from && blank(bytes[at - 1])
        invariant
            end <= bytes@.len(),
            from <= at <= end,
            trim_back(bytes@, from as int, close) == trim_back(bytes@, from as int, at as int),
        decreases at,
    {
        at = at - 1;
    }
    at
}

/// Where entry `index` of the array written at `start..end` stands; `start..end` itself when
/// there is no such entry.
pub fn array_entry_range(bytes: &[u8], start: usize, end: usize, index: usize) -> (range: (
    usize,
    usize,
))
    ensures
        (range.0 as int, range.1 as int) == entry_range(
            bytes@,
            start as int,
            end as int,
            index as nat,
        ),
{
    let size = bytes.len();
    let first = if start < size {
        start
    } else {
        size
    };
    let last = if end < size {
        end
    } else {
        size
    };
    let opening = find(bytes, 0x5b, first, last);
    if opening >= last {
        return (start, end);
    }
    let mut at: usize = opening + 1;
    let mut left: usize = index;
    loop
        invariant
            last <= bytes@.len(),
            at <= last,
            entry_range(bytes@, start as int, end as int, index as nat) == (match entry_from(
                bytes@,
                at as int,
                last as int,
                left as nat,
            ) {
                Some(found) => found,
                None => (start as int, end as int),
            }),
        decreases left,
    {
        let entry = skip_array_trivia(bytes, at, last);
        if entry >= last || bytes[entry] == 0x5d {
            return (start, end);
        }
        let stop = end_of_entry(bytes, entry, last);
        if left == 0 {
            return (entry, stop);
        }
        let next = skip_array_trivia(bytes, stop, last);
        proof {
            trivia_moves_on(bytes@, stop as int, last as int);
        }
        at = if next < last && bytes[next] == 0x2c {
            next + 1
        } else {
            next
        };
        left = left - 1;
    }
}

} // verus!
