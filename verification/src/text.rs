//! Strings as sequences of characters: building, comparing and splitting them.

use vstd::prelude::*;

verus! {

/// `String::push`: appends one character.
pub assume_specification[ std::string::String::push ](s: &mut std::string::String, c: char)
    ensures
        final(s)@ == old(s)@.push(c),
;

/// `String::push_str`: appends the whole of `tail`.
pub assume_specification[ std::string::String::push_str ](s: &mut std::string::String, tail: &str)
    ensures
        final(s)@ == old(s)@ + tail@,
;

/// `==` on `str`: equal exactly when the characters are.
#[verifier::external_body]
pub(crate) fn same(left: &str, right: &str) -> (equal: bool)
    ensures
        equal == (left@ == right@),
{
    left == right
}

/// What `Debug` writes for a string: the string in double quotes, with escapes.
pub uninterp spec fn quoted(text: Seq<char>) -> Seq<char>;

/// `Debug` for `str`: the same string always gives the same quoted form.
#[verifier::external_body]
pub(crate) fn quote(text: &str) -> (written: String)
    ensures
        written@ == quoted(text@),
{
    format!("{text:?}")
}

/// The characters of `text`, one by one.
pub fn chars_of(text: &str) -> (chars: Vec<char>)
    ensures
        chars@ == text@,
{
    let mut chars: Vec<char> = Vec::new();
    for c in walk: text.chars()
        invariant
            chars@ == walk.seq().take(walk.index() as int),
            walk.seq() == text@,
    {
        chars.push(c);
        assert(walk.seq().take(walk.index() + 1) =~= walk.seq().take(walk.index() as int).push(c));
    }
    assert(text@.take(text@.len() as int) =~= text@);
    chars
}

/// The string made of `chars[from..to]`.
pub fn string_of(chars: &Vec<char>, from: usize, to: usize) -> (text: String)
    requires
        from <= to <= chars@.len(),
    ensures
        text@ == chars@.subrange(from as int, to as int),
{
    let mut text = String::new();
    let mut at: usize = from;
    while at < to
        invariant
            from <= at <= to <= chars@.len(),
            text@ == chars@.subrange(from as int, at as int),
        decreases to - at,
    {
        text.push(chars[at]);
        at = at + 1;
        assert(chars@.subrange(from as int, at as int) =~= chars@.subrange(
            from as int,
            at - 1,
        ).push(chars@[at - 1]));
    }
    text
}

/// The decimal digit `0..=9` as a character.
pub open spec fn digit(value: nat) -> char {
    ('0' as nat + value) as char
}

/// `value` in decimal, without leading zeros.
pub open spec fn decimal(value: nat) -> Seq<char>
    decreases value,
{
    if value < 10 {
        seq![digit(value)]
    } else {
        decimal(value / 10).push(digit(value % 10))
    }
}

fn digit_char(value: u128) -> (c: char)
    requires
        value < 10,
    ensures
        c == digit(value as nat),
{
    (48u8 + value as u8) as char
}

/// Appends `value` in decimal.
pub fn push_decimal(text: &mut String, value: u128)
    ensures
        final(text)@ == old(text)@ + decimal(value as nat),
    decreases value,
{
    if value < 10 {
        text.push(digit_char(value));
        assert(text@ =~= old(text)@ + decimal(value as nat));
    } else {
        push_decimal(text, value / 10);
        text.push(digit_char(value % 10));
        assert(text@ =~= old(text)@ + decimal(value as nat));
    }
}

/// `items` separated by `separator`.
pub open spec fn joined(items: Seq<Seq<char>>, separator: Seq<char>) -> Seq<char>
    decreases items.len(),
{
    if items.len() == 0 {
        Seq::empty()
    } else if items.len() == 1 {
        items[0]
    } else {
        joined(items.drop_last(), separator) + separator + items.last()
    }
}

/// The characters of each string of `items`.
pub open spec fn texts(items: Seq<String>) -> Seq<Seq<char>> {
    Seq::new(items.len(), |i: int| items[i]@)
}

/// The characters of a string, if there is one.
pub open spec fn text_view(text: Option<String>) -> Option<Seq<char>> {
    match text {
        Some(text) => Some(text@),
        None => None,
    }
}

/// Joins `items` with `separator` between them.
pub fn join(items: &Vec<String>, separator: &str) -> (text: String)
    ensures
        text@ == joined(texts(items@), separator@),
{
    let mut text = String::new();
    let mut at: usize = 0;
    while at < items.len()
        invariant
            at <= items.len(),
            text@ == joined(texts(items@).take(at as int), separator@),
        decreases items.len() - at,
    {
        if at > 0 {
            text.push_str(separator);
        }
        text.push_str(items[at].as_str());
        proof {
            let now = texts(items@).take(at + 1);
            assert(now.drop_last() =~= texts(items@).take(at as int));
            assert(now.last() == items@[at as int]@);
        }
        at = at + 1;
    }
    assert(texts(items@).take(at as int) =~= texts(items@));
    text
}

/// Whether `text` begins with `prefix`.
pub open spec fn has_prefix(text: Seq<char>, prefix: Seq<char>) -> bool {
    prefix.len() <= text.len() && text.take(prefix.len() as int) == prefix
}

/// A prefix of one character is the first character.
pub proof fn prefix_of_one(text: Seq<char>, prefix: Seq<char>)
    requires
        prefix.len() == 1,
    ensures
        has_prefix(text, prefix) == (text.len() > 0 && text[0] == prefix[0]),
{
    if text.len() > 0 {
        assert(text.take(1)[0] == text[0]);
        if text[0] == prefix[0] {
            assert(text.take(1) =~= prefix);
        }
    }
}

/// What follows `prefix` in `text`, or `None` when `text` does not begin with it.
pub fn strip_prefix(text: &str, prefix: &str) -> (rest: Option<String>)
    ensures
        rest is Some == has_prefix(text@, prefix@),
        rest is Some ==> rest->0@ == text@.skip(prefix@.len() as int),
{
    let chars = chars_of(text);
    let wanted = chars_of(prefix);
    if wanted.len() > chars.len() {
        return None;
    }
    let mut at: usize = 0;
    while at < wanted.len()
        invariant
            at <= wanted.len() <= chars.len(),
            chars@ == text@,
            wanted@ == prefix@,
            text@.take(at as int) == prefix@.take(at as int),
        decreases wanted.len() - at,
    {
        if chars[at] != wanted[at] {
            assert(text@.take(prefix@.len() as int)[at as int] != prefix@[at as int]);
            return None;
        }
        at = at + 1;
        assert(text@.take(at as int) =~= prefix@.take(at as int));
    }
    assert(prefix@.take(at as int) =~= prefix@);
    Some(string_of(&chars, at, chars.len()))
}

/// Whether `text` begins with `prefix`.
pub fn starts_with(text: &str, prefix: &str) -> (found: bool)
    ensures
        found == has_prefix(text@, prefix@),
{
    strip_prefix(text, prefix).is_some()
}

/// Whether `at` is the first place of `c` in `text`.
pub open spec fn first_at(text: Seq<char>, c: char, at: int) -> bool {
    &&& 0 <= at < text.len()
    &&& text[at] == c
    &&& forall|i: int| 0 <= i < at ==> text[i] != c
}

/// What stands before and after the first `c` of `text`.
pub open spec fn split_once(text: Seq<char>, c: char) -> Option<(Seq<char>, Seq<char>)> {
    if exists|at: int| first_at(text, c, at) {
        let at = choose|at: int| first_at(text, c, at);
        Some((text.take(at), text.skip(at + 1)))
    } else {
        None
    }
}

/// Splits `text` at its first `c`.
pub fn split_at_first(text: &str, c: char) -> (parts: Option<(String, String)>)
    ensures
        match parts {
            Some((before, after)) => split_once(text@, c) == Some((before@, after@)),
            None => split_once(text@, c) is None,
        },
{
    let chars = chars_of(text);
    let mut at: usize = 0;
    while at < chars.len()
        invariant
            at <= chars@.len(),
            chars@ == text@,
            forall|i: int| 0 <= i < at ==> chars@[i] != c,
        decreases chars@.len() - at,
    {
        if chars[at] == c {
            proof {
                assert(first_at(text@, c, at as int));
                let other = choose|at: int| first_at(text@, c, at);
                assert(first_at(text@, c, other));
                assert(other == at) by {
                    if other < at {
                        assert(text@[other] != c);
                    } else if at < other {
                        assert(text@[at as int] != c);
                    }
                }
                assert(text@.take(at as int) =~= chars@.subrange(0, at as int));
                assert(text@.skip(at + 1) =~= chars@.subrange(at + 1, chars@.len() as int));
            }
            return Some((string_of(&chars, 0, at), string_of(&chars, at + 1, chars.len())));
        }
        at = at + 1;
    }
    assert forall|at: int| !first_at(text@, c, at) by {}
    None
}

/// `text` without the occurrences of `c` at its end.
pub open spec fn trimmed_end(text: Seq<char>, c: char) -> Seq<char>
    decreases text.len(),
{
    if text.len() > 0 && text.last() == c {
        trimmed_end(text.drop_last(), c)
    } else {
        text
    }
}

/// Drops every `c` at the end of `text`.
pub fn trim_end(text: &str, c: char) -> (trimmed: String)
    ensures
        trimmed@ == trimmed_end(text@, c),
{
    let chars = chars_of(text);
    let mut end: usize = chars.len();
    assert(chars@.take(end as int) =~= chars@);
    while end > 0 && chars[end - 1] == c
        invariant
            end <= chars.len(),
            trimmed_end(chars@, c) == trimmed_end(chars@.take(end as int), c),
        decreases end,
    {
        assert(chars@.take(end as int).drop_last() =~= chars@.take(end - 1));
        end = end - 1;
    }
    assert(chars@.subrange(0, end as int) =~= chars@.take(end as int));
    string_of(&chars, 0, end)
}

/// Whether `text` is one of `items`.
pub fn contains(items: &Vec<String>, text: &str) -> (found: bool)
    ensures
        found == texts(items@).contains(text@),
{
    let mut at: usize = 0;
    while at < items.len()
        invariant
            at <= items.len(),
            forall|i: int| 0 <= i < at ==> texts(items@)[i] != text@,
        decreases items.len() - at,
    {
        if same(items[at].as_str(), text) {
            assert(texts(items@)[at as int] == text@);
            return true;
        }
        at = at + 1;
    }
    false
}

/// A copy of `items`.
pub fn copy_all(items: &Vec<String>) -> (copied: Vec<String>)
    ensures
        texts(copied@) == texts(items@),
{
    let mut copied: Vec<String> = Vec::new();
    let mut at: usize = 0;
    while at < items.len()
        invariant
            at <= items.len(),
            copied@.len() == at,
            forall|i: int| 0 <= i < at ==> copied@[i]@ == items@[i]@,
        decreases items.len() - at,
    {
        copied.push(items[at].as_str().to_owned());
        at = at + 1;
    }
    assert(texts(copied@) =~= texts(items@));
    copied
}

/// Whether a character is white space.
pub open spec fn is_white(c: char) -> bool {
    let value = c as u32;
    ||| 0x09 <= value <= 0x0d
    ||| value == 0x20
    ||| value == 0x85
    ||| value == 0xa0
    ||| value == 0x1680
    ||| 0x2000 <= value <= 0x200a
    ||| value == 0x2028
    ||| value == 0x2029
    ||| value == 0x202f
    ||| value == 0x205f
    ||| value == 0x3000
}

/// `text` without the white space around it.
pub open spec fn trimmed(text: Seq<char>) -> Seq<char>
    decreases text.len(),
{
    if text.len() > 0 && is_white(text[0]) {
        trimmed(text.skip(1))
    } else if text.len() > 0 && is_white(text.last()) {
        trimmed(text.drop_last())
    } else {
        text
    }
}

fn white(c: char) -> (found: bool)
    ensures
        found == is_white(c),
{
    let value: u32 = c as u32;
    (0x09 <= value && value <= 0x0d) || value == 0x20 || value == 0x85 || value == 0xa0 || value
        == 0x1680 || (0x2000 <= value && value <= 0x200a) || value == 0x2028 || value == 0x2029
        || value == 0x202f || value == 0x205f || value == 0x3000
}

/// Drops the white space around `text`.
pub fn trim(text: &str) -> (inner: String)
    ensures
        inner@ == trimmed(text@),
{
    let chars = chars_of(text);
    let mut start: usize = 0;
    let mut end: usize = chars.len();
    assert(chars@.subrange(0, end as int) =~= chars@);
    while start < end && white(chars[start])
        invariant
            start <= end == chars@.len(),
            trimmed(chars@) == trimmed(chars@.subrange(start as int, end as int)),
        decreases end - start,
    {
        assert(chars@.subrange(start as int, end as int).skip(1) =~= chars@.subrange(
            start + 1,
            end as int,
        ));
        start = start + 1;
    }
    while start < end && white(chars[end - 1])
        invariant
            start <= end <= chars@.len(),
            start < end ==> !is_white(chars@[start as int]),
            trimmed(chars@) == trimmed(chars@.subrange(start as int, end as int)),
        decreases end - start,
    {
        assert(chars@.subrange(start as int, end as int).drop_last() =~= chars@.subrange(
            start as int,
            end - 1,
        ));
        end = end - 1;
    }
    string_of(&chars, start, end)
}

} // verus!
