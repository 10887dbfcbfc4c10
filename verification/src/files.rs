//! Paths as text: the parts between the separators, and what is left of a path under another.
//!
//! The separator is [`SEPARATOR`] on every system. A path that is written with another one, such
//! as the backslashes of Windows, is a single part, and stands as it is written where it would
//! have to be taken apart.

use crate::text;
use vstd::prelude::*;

verus! {

/// What separates the parts of a path.
pub const SEPARATOR: char = '/';

/// Whether a path starts at the root of the file system.
pub open spec fn is_absolute(path: Seq<char>) -> bool {
    path.len() > 0 && path[0] == SEPARATOR
}

/// Where the part that stands at `at` ends.
pub open spec fn part_end(path: Seq<char>, at: int) -> int
    decreases path.len() - at,
{
    if at >= path.len() || path[at] == SEPARATOR {
        at
    } else {
        part_end(path, at + 1)
    }
}

/// The parts of a path from `at` on, each by its first character and the one behind its last.
/// Repeated separators count as one, and a part that is a single dot counts only at the start of the
/// path.
pub open spec fn parts(path: Seq<char>, at: int) -> Seq<(int, int)>
    decreases path.len() - at,
{
    if at < 0 || at >= path.len() {
        Seq::empty()
    } else if path[at] == SEPARATOR {
        parts(path, at + 1)
    } else {
        let end = part_end(path, at);
        if end <= at || end > path.len() {
            Seq::empty()
        } else if at > 0 && end == at + 1 && path[at] == '.' {
            parts(path, end)
        } else {
            seq![(at, end)] + parts(path, end)
        }
    }
}

/// Whether the first `upto` parts of two paths read the same.
pub open spec fn same_parts(
    left: Seq<char>,
    lefts: Seq<(int, int)>,
    right: Seq<char>,
    rights: Seq<(int, int)>,
    upto: int,
) -> bool {
    forall|i: int|
        0 <= i < upto ==> left.subrange((#[trigger] lefts[i]).0, lefts[i].1) == right.subrange(
            rights[i].0,
            rights[i].1,
        )
}

/// What is left of `path` under `root`, or `None` when `path` does not lie under it. Paths are
/// compared part by part, and nothing but the text is looked at.
pub open spec fn relative(path: Seq<char>, root: Seq<char>) -> Option<Seq<char>> {
    let inner = parts(path, 0);
    let outer = parts(root, 0);
    let whole = !is_absolute(root) && outer.len() == 0;
    if !whole && is_absolute(path) != is_absolute(root) {
        None
    } else if outer.len() > inner.len() || !same_parts(
        path,
        inner,
        root,
        outer,
        outer.len() as int,
    ) {
        None
    } else if outer.len() < inner.len() {
        Some(
            path.subrange(
                if whole {
                    0
                } else {
                    inner[outer.len() as int].0
                },
                inner.last().1,
            ),
        )
    } else if whole && is_absolute(path) {
        Some("/"@)
    } else {
        Some(Seq::empty())
    }
}

/// A path as it is shown to a reader who knows `root`.
pub open spec fn shown(path: Seq<char>, root: Seq<char>) -> Seq<char> {
    match relative(path, root) {
        Some(rest) => rest,
        None => path,
    }
}

spec fn as_parts(ranges: Seq<(usize, usize)>) -> Seq<(int, int)> {
    Seq::new(ranges.len(), |i: int| (ranges[i].0 as int, ranges[i].1 as int))
}

fn parts_of(path: &Vec<char>) -> (ranges: Vec<(usize, usize)>)
    ensures
        as_parts(ranges@) == parts(path@, 0),
        forall|i: int|
            0 <= i < ranges@.len() ==> (#[trigger] ranges@[i]).0 < ranges@[i].1 <= path@.len(),
        forall|i: int, j: int|
            0 <= i < j < ranges@.len() ==> (#[trigger] ranges@[i]).1 <= (#[trigger] ranges@[j]).0,
{
    let mut ranges: Vec<(usize, usize)> = Vec::new();
    let mut at: usize = 0;
    assert(as_parts(ranges@) + parts(path@, 0) =~= parts(path@, 0));
    while at < path.len()
        invariant
            at <= path@.len(),
            parts(path@, 0) == as_parts(ranges@) + parts(path@, at as int),
            forall|i: int|
                0 <= i < ranges@.len() ==> (#[trigger] ranges@[i]).0 < ranges@[i].1 <= at,
            forall|i: int, j: int|
                0 <= i < j < ranges@.len() ==> (#[trigger] ranges@[i]).1 <= (
                #[trigger] ranges@[j]).0,
        decreases path@.len() - at,
    {
        if path[at] == SEPARATOR {
            at = at + 1;
        } else {
            let mut end: usize = at;
            while end < path.len() && path[end] != SEPARATOR
                invariant
                    at <= end <= path@.len(),
                    part_end(path@, at as int) == part_end(path@, end as int),
                decreases path@.len() - end,
            {
                end = end + 1;
            }
            let ghost before = as_parts(ranges@);
            if !(at > 0 && end == at + 1 && path[at] == '.') {
                ranges.push((at, end));
                assert(as_parts(ranges@) =~= before.push((at as int, end as int)));
                assert(before + parts(path@, at as int) =~= as_parts(ranges@) + parts(
                    path@,
                    end as int,
                ));
            }
            at = end;
        }
    }
    assert(as_parts(ranges@) + parts(path@, at as int) =~= as_parts(ranges@));
    ranges
}

fn same_part(left: &Vec<char>, from: (usize, usize), right: &Vec<char>, other: (usize, usize)) -> (same:
    bool)
    requires
        from.0 <= from.1 <= left@.len(),
        other.0 <= other.1 <= right@.len(),
    ensures
        same == (left@.subrange(from.0 as int, from.1 as int) == right@.subrange(
            other.0 as int,
            other.1 as int,
        )),
{
    let ghost one = left@.subrange(from.0 as int, from.1 as int);
    let ghost two = right@.subrange(other.0 as int, other.1 as int);
    if from.1 - from.0 != other.1 - other.0 {
        assert(one.len() != two.len());
        return false;
    }
    let mut at: usize = 0;
    while at < from.1 - from.0
        invariant
            from.0 <= from.1 <= left@.len(),
            other.0 <= other.1 <= right@.len(),
            from.1 - from.0 == other.1 - other.0,
            at <= from.1 - from.0,
            one == left@.subrange(from.0 as int, from.1 as int),
            two == right@.subrange(other.0 as int, other.1 as int),
            forall|i: int| 0 <= i < at ==> one[i] == two[i],
        decreases from.1 - from.0 - at,
    {
        if left[from.0 + at] != right[other.0 + at] {
            assert(one[at as int] != two[at as int]);
            return false;
        }
        assert(one[at as int] == two[at as int]);
        at = at + 1;
    }
    assert(one =~= two);
    true
}

/// What is left of `path` under `root`, or `None` when `path` does not lie under it.
#[must_use]
pub fn relative_to(path: &str, root: &str) -> (rest: Option<String>)
    ensures
        (match rest {
            Some(rest) => Some(rest@),
            None => None,
        }) == relative(path@, root@),
{
    let below = text::chars_of(path);
    let above = text::chars_of(root);
    let inner = parts_of(&below);
    let outer = parts_of(&above);
    let ghost inners = parts(path@, 0);
    let ghost outers = parts(root@, 0);
    let path_is_absolute = below.len() > 0 && below[0] == SEPARATOR;
    let root_is_absolute = above.len() > 0 && above[0] == SEPARATOR;
    let whole = !root_is_absolute && outer.len() == 0;
    assert(inners.len() == inner@.len() && outers.len() == outer@.len());
    if !whole && path_is_absolute != root_is_absolute {
        return None;
    }
    if outer.len() > inner.len() {
        return None;
    }
    let mut at: usize = 0;
    while at < outer.len()
        invariant
            below@ == path@,
            above@ == root@,
            inners == parts(path@, 0),
            outers == parts(root@, 0),
            at <= outer@.len() <= inner@.len(),
            as_parts(inner@) == inners,
            as_parts(outer@) == outers,
            forall|i: int|
                0 <= i < inner@.len() ==> (#[trigger] inner@[i]).0 < inner@[i].1 <= path@.len(),
            forall|i: int|
                0 <= i < outer@.len() ==> (#[trigger] outer@[i]).0 < outer@[i].1 <= root@.len(),
            same_parts(path@, inners, root@, outers, at as int),
        decreases outer@.len() - at,
    {
        assert(inners[at as int] == (inner@[at as int].0 as int, inner@[at as int].1 as int));
        assert(outers[at as int] == (outer@[at as int].0 as int, outer@[at as int].1 as int));
        if !same_part(&below, inner[at], &above, outer[at]) {
            assert(!same_parts(path@, inners, root@, outers, outers.len() as int));
            return None;
        }
        at = at + 1;
    }
    if outer.len() < inner.len() {
        let from: usize = if whole {
            0
        } else {
            inner[outer.len()].0
        };
        let to: usize = inner[inner.len() - 1].1;
        proof {
            let last = inner@.len() - 1;
            assert(inners[last] == (inner@[last].0 as int, inner@[last].1 as int));
            let next = outer@.len() as int;
            assert(inners[next] == (inner@[next].0 as int, inner@[next].1 as int));
            if next < last {
                assert(inner@[next].1 <= inner@[last].0);
            }
        }
        Some(text::string_of(&below, from, to))
    } else if whole && path_is_absolute {
        Some("/".to_owned())
    } else {
        let none = String::new();
        assert(none@ =~= Seq::<char>::empty());
        Some(none)
    }
}

/// Shows `path` to a reader who knows `root`.
#[must_use]
pub fn show(path: &str, root: &str) -> (text: String)
    ensures
        text@ == shown(path@, root@),
{
    match relative_to(path, root) {
        Some(rest) => rest,
        None => path.to_owned(),
    }
}

} // verus!
